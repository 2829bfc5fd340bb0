use draw_relay::registry::{Registry, RegistryError};
use draw_relay::relay::{session_step, Relay, SessionEvent, SessionState};
use tokio::sync::mpsc;

const DRAW_PAYLOAD: &str =
    "{\"type\":\"Draw\",\"data\":{\"prev\":[0,0],\"cur\":[1,1],\"color\":\"#000000\",\"brush_size\":4}}";
const CLEAR_PAYLOAD: &str = "{\"type\":\"Clear\"}";

#[test]
fn identifiers_are_fresh_and_monotonic() {
    let mut relay = Relay::new();
    let (ta, _ra) = mpsc::unbounded_channel::<String>();
    let (tb, _rb) = mpsc::unbounded_channel::<String>();
    let (tc, _rc) = mpsc::unbounded_channel::<String>();
    let a = relay.connect(ta);
    let b = relay.connect(tb);
    let c = relay.connect(tc);
    assert!(a < b && b < c);
    assert_eq!(relay.count(), 3);
    assert!(relay.contains(a) && relay.contains(b) && relay.contains(c));
}

#[test]
fn duplicate_registration_is_refused_and_changes_nothing() {
    let mut registry = Registry::new();
    let (t1, _r1) = mpsc::unbounded_channel::<String>();
    let (t2, _r2) = mpsc::unbounded_channel::<String>();
    assert_eq!(registry.register(7, t1), Ok(()));
    assert_eq!(registry.register(7, t2), Err(RegistryError::DuplicateIdentifier));
    assert_eq!(registry.len(), 1);
    assert!(registry.contains(7));
}

#[test]
fn snapshot_excludes_self_and_deregistered() {
    let mut relay = Relay::new();
    let (ta, _ra) = mpsc::unbounded_channel::<String>();
    let (tb, _rb) = mpsc::unbounded_channel::<String>();
    let (tc, _rc) = mpsc::unbounded_channel::<String>();
    let a = relay.connect(ta);
    let b = relay.connect(tb);
    let c = relay.connect(tc);
    assert_eq!(relay.snapshot_others(a), vec![b, c]);
    relay.disconnect(b);
    assert!(!relay.contains(b));
    assert_eq!(relay.snapshot_others(a), vec![c]);
    // Deregistration is idempotent.
    relay.disconnect(b);
    assert_eq!(relay.snapshot_others(a), vec![c]);
    assert_eq!(relay.snapshot_others(c), vec![a]);
}

#[test]
fn fanout_reaches_every_other_session_exactly_once() {
    let mut relay = Relay::new();
    let (ta, mut ra) = mpsc::unbounded_channel::<String>();
    let (tb, mut rb) = mpsc::unbounded_channel::<String>();
    let (tc, mut rc) = mpsc::unbounded_channel::<String>();
    let a = relay.connect(ta);
    let b = relay.connect(tb);
    let c = relay.connect(tc);

    let report = relay.handle_message(a, DRAW_PAYLOAD).unwrap();
    assert_eq!(report.text, DRAW_PAYLOAD);
    assert_eq!(report.deliveries, vec![(b, true), (c, true)]);

    // B and C each hold exactly one copy of the unchanged payload.
    assert_eq!(rb.try_recv().unwrap(), DRAW_PAYLOAD);
    assert!(rb.try_recv().is_err());
    assert_eq!(rc.try_recv().unwrap(), DRAW_PAYLOAD);
    assert!(rc.try_recv().is_err());
    // The originator receives nothing.
    assert!(ra.try_recv().is_err());

    // B disconnects; a clear from A now reaches only C.
    relay.disconnect(b);
    let report = relay.handle_message(a, CLEAR_PAYLOAD).unwrap();
    assert_eq!(report.deliveries, vec![(c, true)]);
    assert_eq!(rc.try_recv().unwrap(), CLEAR_PAYLOAD);
    assert!(rc.try_recv().is_err());
    assert!(ra.try_recv().is_err());
}

#[test]
fn sequential_broadcasts_arrive_in_order() {
    let mut relay = Relay::new();
    let (ta, _ra) = mpsc::unbounded_channel::<String>();
    let (tb, mut rb) = mpsc::unbounded_channel::<String>();
    let a = relay.connect(ta);
    let _b = relay.connect(tb);

    relay.handle_message(a, DRAW_PAYLOAD).unwrap();
    relay.handle_message(a, CLEAR_PAYLOAD).unwrap();
    assert_eq!(rb.try_recv().unwrap(), DRAW_PAYLOAD);
    assert_eq!(rb.try_recv().unwrap(), CLEAR_PAYLOAD);
    assert!(rb.try_recv().is_err());
}

#[test]
fn closed_recipient_channel_is_isolated() {
    let mut relay = Relay::new();
    let (ta, mut ra) = mpsc::unbounded_channel::<String>();
    let (tb, rb) = mpsc::unbounded_channel::<String>();
    let (tc, mut rc) = mpsc::unbounded_channel::<String>();
    let a = relay.connect(ta);
    let b = relay.connect(tb);
    let c = relay.connect(tc);

    // B's receiving half is gone before the broadcast.
    drop(rb);
    let report = relay.handle_message(a, DRAW_PAYLOAD).unwrap();
    assert_eq!(report.deliveries, vec![(b, false), (c, true)]);
    // C still received its copy; the originator still received nothing.
    assert_eq!(rc.try_recv().unwrap(), DRAW_PAYLOAD);
    assert!(ra.try_recv().is_err());
}

#[test]
fn malformed_payload_is_dropped_and_nothing_is_sent() {
    let mut relay = Relay::new();
    let (ta, _ra) = mpsc::unbounded_channel::<String>();
    let (tb, mut rb) = mpsc::unbounded_channel::<String>();
    let a = relay.connect(ta);
    let _b = relay.connect(tb);

    assert!(relay.handle_message(a, "{\"type\":\"Scribble\"}").is_err());
    assert!(rb.try_recv().is_err());
    // The session survives: a well-formed payload still goes through.
    assert!(relay.handle_message(a, CLEAR_PAYLOAD).is_ok());
    assert_eq!(rb.try_recv().unwrap(), CLEAR_PAYLOAD);
}

#[test]
fn session_lifecycle_transitions() {
    assert_eq!(
        session_step(SessionState::Connecting, SessionEvent::Registered),
        (SessionState::Active, false)
    );
    assert_eq!(
        session_step(SessionState::Active, SessionEvent::InboundClosed),
        (SessionState::Disconnected, true)
    );
    assert_eq!(
        session_step(SessionState::Active, SessionEvent::InboundFailed),
        (SessionState::Disconnected, true)
    );
    assert_eq!(
        session_step(SessionState::Active, SessionEvent::OutboundWriteFailed),
        (SessionState::Disconnected, true)
    );
    assert_eq!(
        session_step(SessionState::Disconnected, SessionEvent::InboundClosed),
        (SessionState::Disconnected, false)
    );
    assert_eq!(
        session_step(SessionState::Connecting, SessionEvent::InboundFailed),
        (SessionState::Disconnected, false)
    );
}
