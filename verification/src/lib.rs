//! A broadcast relay for a shared collaborative drawing surface.
//!
//! Connected participants send drawing events (draw stroke, erase stroke,
//! clear canvas) as tagged textual messages; the relay validates each
//! inbound message against the wire grammar and re-broadcasts it to every
//! other registered connection. The relay holds no canvas state: it is a
//! pure message fan-out layer.
//!
//! - [`codec`] defines the three wire shapes and proves the codec exact:
//!   decoding accepts precisely the wire forms, and relaying is lossless.
//! - [`registry`] is the shared directory from connection identifier to
//!   outbound channel, with the fan-out laws.
//! - [`relay`] ties both into the per-connection session logic.

pub mod codec;
pub mod registry;
pub mod relay;
