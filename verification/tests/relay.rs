use serde_json::Value;
use signal_relay::registry::Registry;
use signal_relay::router::{handle_event, Delivery, InboundEvent, OutboundEvent, SignalMessage};

const A: u64 = 1;
const B: u64 = 2;
const D: u64 = 3;

fn offer_payload() -> Value {
    let mut map = serde_json::Map::new();
    map.insert("sdp".to_string(), Value::String("...".to_string()));
    Value::Object(map)
}

fn signal(room: &str, msg_type: &str, payload: Value) -> InboundEvent {
    InboundEvent::Signal(SignalMessage {
        room: room.to_string(),
        msg_type: msg_type.to_string(),
        payload,
    })
}

fn join(room: &str) -> InboundEvent {
    InboundEvent::Join(room.to_string())
}

#[test]
fn signal_reaches_peer_and_never_the_sender() {
    // Connections A and B join room "r1"; A sends signal(r1, "offer", {sdp:"..."});
    // B receives exactly one copy with that payload, A receives none.
    let mut reg = Registry::new();
    handle_event(&mut reg, A, join("r1"));
    handle_event(&mut reg, B, join("r1"));

    let out = handle_event(&mut reg, A, signal("r1", "offer", offer_payload()));
    let delivery = out.expect("a signal always produces a fan-out");
    assert_eq!(delivery.recipients, vec![B]);
    assert!(!delivery.recipients.contains(&A));
    match delivery.event {
        OutboundEvent::Signal(msg) => {
            assert_eq!(msg.room, "r1");
            assert_eq!(msg.msg_type, "offer");
            assert_eq!(msg.payload, offer_payload());
        }
        OutboundEvent::UserJoined(_) => panic!("expected a signal event"),
    }
}

#[test]
fn join_notifies_existing_members_only() {
    let mut reg = Registry::new();
    let first = handle_event(&mut reg, A, join("r1"));
    match first {
        Some(Delivery { recipients, event }) => {
            assert!(recipients.is_empty(), "an empty room has nobody to notify");
            assert!(matches!(event, OutboundEvent::UserJoined(id) if id == A));
        }
        None => panic!("a first join produces a (possibly empty) notification"),
    }

    let second = handle_event(&mut reg, B, join("r1"));
    match second {
        Some(Delivery { recipients, event }) => {
            assert_eq!(recipients, vec![A]);
            assert!(matches!(event, OutboundEvent::UserJoined(id) if id == B));
        }
        None => panic!("joining an occupied room notifies its members"),
    }
}

#[test]
fn repeated_join_produces_no_second_notification() {
    // Joining the same room twice produces only one user_joined notification.
    let mut reg = Registry::new();
    handle_event(&mut reg, A, join("r1"));
    handle_event(&mut reg, B, join("r1"));
    let again = handle_event(&mut reg, B, join("r1"));
    assert!(again.is_none(), "a repeated join is a no-op");
    assert!(reg.contains_member(&"r1".to_string(), B));
}

#[test]
fn fan_out_reaches_each_other_member_exactly_once() {
    // A, B and D all join room R; A sends a signal; B and D each get one copy.
    let mut reg = Registry::new();
    handle_event(&mut reg, A, join("r"));
    handle_event(&mut reg, B, join("r"));
    handle_event(&mut reg, D, join("r"));

    let out = handle_event(&mut reg, A, signal("r", "offer", Value::Null));
    let mut recipients = out.expect("fan-out").recipients;
    recipients.sort();
    assert_eq!(recipients, vec![B, D]);
}

#[test]
fn disconnect_cleans_up_every_room() {
    // After the last member of a room disconnects, the room is gone: a later
    // join recreates it fresh, with no memory of prior members.
    let mut reg = Registry::new();
    handle_event(&mut reg, A, join("r1"));
    handle_event(&mut reg, A, join("r2"));
    assert!(handle_event(&mut reg, A, InboundEvent::Disconnect).is_none());
    assert!(!reg.contains_member(&"r1".to_string(), A));
    assert!(!reg.contains_member(&"r2".to_string(), A));

    // B now joins "r1": no user_joined referencing A may be produced.
    let out = handle_event(&mut reg, B, join("r1"));
    let delivery = out.expect("a fresh join produces a notification");
    assert!(delivery.recipients.is_empty(), "nobody is left to notify");

    // A signal to "r1" is delivered to nobody: B is its only member.
    let out = handle_event(&mut reg, B, signal("r1", "candidate", Value::Null));
    assert!(out.expect("fan-out").recipients.is_empty());
}

#[test]
fn signal_to_unjoined_room_is_a_no_op_fan_out() {
    // Membership gates who receives, not who may send: a signal to a room
    // with no members resolves to an empty fan-out, not an error.
    let mut reg = Registry::new();
    let out = handle_event(&mut reg, A, signal("nowhere", "offer", Value::Null));
    assert!(out.expect("fan-out").recipients.is_empty());
}

#[test]
fn unrecognized_events_are_ignored() {
    let mut reg = Registry::new();
    handle_event(&mut reg, A, join("r1"));
    let out = handle_event(&mut reg, A, InboundEvent::Unrecognized);
    assert!(out.is_none());
    assert!(reg.contains_member(&"r1".to_string(), A));
}

#[test]
fn membership_stays_bidirectionally_consistent() {
    // Exercise joins, leaves and disconnects, checking membership through
    // the registry's single query after every step.
    let r1 = "alpha".to_string();
    let r2 = "beta".to_string();
    let mut reg = Registry::new();

    reg.join(&r1, A);
    reg.join(&r2, A);
    reg.join(&r1, B);
    assert!(reg.contains_member(&r1, A));
    assert!(reg.contains_member(&r2, A));
    assert!(reg.contains_member(&r1, B));
    assert!(!reg.contains_member(&r2, B));

    reg.leave(&r1, A);
    assert!(!reg.contains_member(&r1, A));
    assert!(reg.contains_member(&r2, A));
    assert!(reg.contains_member(&r1, B));

    reg.leave_all(B);
    assert!(!reg.contains_member(&r1, B));
    assert!(reg.contains_member(&r2, A));

    // "alpha" is now empty and so absent: members_except finds nobody at all.
    assert!(reg.members_except(&r1, D).is_empty());
}

#[test]
fn leave_is_idempotent() {
    let r1 = "r1".to_string();
    let mut reg = Registry::new();
    reg.join(&r1, A);
    reg.join(&r1, B);
    reg.leave(&r1, A);
    reg.leave(&r1, A);
    assert!(!reg.contains_member(&r1, A));
    assert!(reg.contains_member(&r1, B));
    assert_eq!(reg.members_except(&r1, D), vec![B]);
}

#[test]
fn members_except_excludes_only_the_sender() {
    let r = "room".to_string();
    let mut reg = Registry::new();
    reg.join(&r, A);
    reg.join(&r, B);
    reg.join(&r, D);
    let mut peers = reg.members_except(&r, B);
    peers.sort();
    assert_eq!(peers, vec![A, D]);
    assert!(reg.members_except(&r, B).len() == 2);
}

#[test]
fn membership_gates_receipt_not_sending() {
    // A signal from a connection that never joined the room is still
    // relayed to the room's members.
    let mut reg = Registry::new();
    handle_event(&mut reg, B, join("r"));
    handle_event(&mut reg, D, join("r"));
    let out = handle_event(&mut reg, A, signal("r", "offer", Value::Null));
    let mut recipients = out.expect("fan-out").recipients;
    recipients.sort();
    assert_eq!(recipients, vec![B, D]);
}
