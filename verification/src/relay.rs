//! Relay sessions: identifier assignment, inbound decoding, and fan-out.
//!
//! A `Relay` is the explicitly constructed service that every connection
//! handler shares: a monotonic identifier counter plus the connection
//! registry. One session's life is: `connect` (identifier assigned, entry
//! registered, state `Connecting` becomes `Active`), any number of
//! `handle_message` calls (decode, re-encode, push to every other entry),
//! then `disconnect` (entry removed, state becomes `Disconnected`).

use vstd::prelude::*;
use tokio::sync::mpsc::UnboundedSender;
use crate::codec::{decode, decode_spec, DecodeError};
use crate::registry::{not_id, Registry};

verus! {

/// Lifecycle of one connection's session.
#[derive(Clone, Copy, Debug, PartialEq, Eq, Structural)]
pub enum SessionState {
    Connecting,
    Active,
    Disconnected,
}

/// What a session's two tasks can observe.
#[derive(Clone, Copy, Debug, PartialEq, Eq, Structural)]
pub enum SessionEvent {
    Registered,
    InboundClosed,
    InboundFailed,
    OutboundWriteFailed,
}

/// The session lifecycle: `Connecting` becomes `Active` on registration;
/// an active session becomes `Disconnected`, and must deregister, when
/// its inbound side ends or fails or its outbound write fails;
/// `Disconnected` is terminal. The second component says whether the
/// caller must now deregister the session's identifier.
pub open spec fn session_step_spec(state: SessionState, event: SessionEvent) -> (
    SessionState,
    bool,
) {
    match state {
        SessionState::Connecting => match event {
            SessionEvent::Registered => (SessionState::Active, false),
            _ => (SessionState::Disconnected, false),
        },
        SessionState::Active => match event {
            SessionEvent::Registered => (SessionState::Active, false),
            _ => (SessionState::Disconnected, true),
        },
        SessionState::Disconnected => (SessionState::Disconnected, false),
    }
}

/// Advance a session's state machine by one observed event.
pub fn session_step(state: SessionState, event: SessionEvent) -> (r: (SessionState, bool))
    ensures
        r == session_step_spec(state, event),
{
    match state {
        SessionState::Connecting => match event {
            SessionEvent::Registered => (SessionState::Active, false),
            _ => (SessionState::Disconnected, false),
        },
        SessionState::Active => match event {
            SessionEvent::Registered => (SessionState::Active, false),
            _ => (SessionState::Disconnected, true),
        },
        SessionState::Disconnected => (SessionState::Disconnected, false),
    }
}

/// What one inbound message led to: the payload pushed to the others,
/// byte for byte the inbound payload, and each recipient with whether its
/// channel accepted it.
pub struct BroadcastReport {
    pub text: String,
    pub deliveries: Vec<(u64, bool)>,
}

/// The relay service: the identifier counter and the shared registry.
pub struct Relay {
    next_id: u64,
    registry: Registry,
}

impl Relay {
    /// The registered identifiers, in registration order.
    pub closed spec fn ids(&self) -> Seq<u64> {
        self.registry.ids()
    }

    /// The identifier the next connection will receive.
    pub closed spec fn next_id(&self) -> u64 {
        self.next_id
    }

    /// Identifiers are unique, and all stand below the counter, so the
    /// counter can never collide with a registered session.
    pub open spec fn wf(&self) -> bool {
        &&& self.ids().no_duplicates()
        &&& forall|i: u64| #[trigger] self.ids().contains(i) ==> i < self.next_id()
    }

    pub fn new() -> (r: Relay)
        ensures
            r.wf(),
            r.ids() == Seq::<u64>::empty(),
            r.next_id() == 1u64,
    {
        let r = Relay { next_id: 1, registry: Registry::new() };
        proof {
            assert(forall|i: u64| #[trigger] r.ids().contains(i) ==> i < r.next_id()) by {
                assert(r.ids().len() == 0);
            }
        }
        r
    }

    pub fn count(&self) -> (n: usize)
        ensures
            n == self.ids().len(),
    {
        self.registry.len()
    }

    pub fn contains(&self, id: u64) -> (b: bool)
        ensures
            b == self.ids().contains(id),
    {
        self.registry.contains(id)
    }

    /// The identifier the next connection will receive, for callers that
    /// must check the counter has room before connecting.
    pub fn peek_next_id(&self) -> (id: u64)
        ensures
            id == self.next_id(),
    {
        self.next_id
    }

    /// Admit a new connection: assign it the next identifier, register
    /// its outbound channel, and return the identifier. The assigned
    /// identifier was never registered before, so registration cannot
    /// collide.
    pub fn connect(&mut self, tx: UnboundedSender<String>) -> (id: u64)
        requires
            old(self).wf(),
            old(self).next_id() < u64::MAX,
        ensures
            final(self).wf(),
            id == old(self).next_id(),
            !old(self).ids().contains(id),
            final(self).ids() == old(self).ids().push(id),
            final(self).next_id() == old(self).next_id() + 1,
    {
        let id = self.next_id;
        self.next_id = self.next_id + 1;
        proof {
            if self.registry.ids().contains(id) {
                assert(id < id);
            }
        }
        let r = self.registry.register(id, tx);
        proof {
            if r is Err {
                assert(false);
            }
            assert forall|i: u64| #[trigger] self.ids().contains(i) implies i
                < self.next_id() by {
                crate::registry::lemma_push_contains(old(self).ids(), id, i);
            }
        }
        id
    }

    /// Remove a session's entry; a no-op when it is already gone.
    pub fn disconnect(&mut self, id: u64)
        requires
            old(self).wf(),
        ensures
            final(self).wf(),
            final(self).ids() == old(self).ids().filter(not_id(id)),
            final(self).next_id() == old(self).next_id(),
    {
        self.registry.deregister(id);
        proof {
            crate::registry::lemma_filter_props(old(self).ids(), not_id(id));
        }
    }

    /// Every registered identifier except `excluding`, for fan-out.
    pub fn snapshot_others(&self, excluding: u64) -> (r: Vec<u64>)
        ensures
            r@ == self.ids().filter(not_id(excluding)),
    {
        self.registry.snapshot_others(excluding)
    }

    /// Handle one inbound payload from session `originator`: decode it,
    /// re-encode it, and push it onto every other session's channel. A
    /// malformed payload is rejected and nothing is sent; a well-formed
    /// one reaches each other entry exactly once, unchanged. A recipient
    /// whose channel is closed is merely reported; it stops nothing.
    pub fn handle_message(&self, originator: u64, raw: &str) -> (r: Result<
        BroadcastReport,
        DecodeError,
    >)
        ensures
            r is Ok <==> decode_spec(raw@) is Some,
            r matches Ok(rep) ==> rep.text@ == raw@ && rep.deliveries@.map_values(
                |d: (u64, bool)| d.0,
            ) == self.ids().filter(not_id(originator)),
    {
        match decode(raw) {
            Err(e) => Err(e),
            Ok(ev) => {
                let text = crate::codec::encode_text(&ev);
                let deliveries = self.registry.broadcast(originator, &text);
                Ok(BroadcastReport { text, deliveries })
            },
        }
    }
}

} // verus!
