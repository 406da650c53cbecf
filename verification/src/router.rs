//! The message router: turns one inbound event into a registry update and
//! the fan-out delivery it requires, without interpreting any payload.

use vstd::prelude::*;
use crate::registry::Registry;

verus! {

/// Relies on serde_json's `Value` type: it carries a signaling payload
/// through the relay opaquely — the router forwards it verbatim and never
/// inspects or transforms it.
#[verifier::external_type_specification]
#[verifier::external_body]
pub struct ExValue(serde_json::Value);

/// One signaling message: the target room, a caller-defined message-type
/// tag, and an opaque payload that is relayed verbatim.
pub struct SignalMessage {
    pub room: String,
    pub msg_type: String,
    pub payload: serde_json::Value,
}

/// The inbound events the relay recognizes. Anything outside this set is
/// `Unrecognized` and is ignored rather than treated as an error.
pub enum InboundEvent {
    /// A request to join the named room.
    Join(String),
    /// A request to relay a signaling message to a room.
    Signal(SignalMessage),
    /// The transport reported that the connection closed.
    Disconnect,
    /// An event name outside the recognized set.
    Unrecognized,
}

/// The events the relay pushes out to clients.
pub enum OutboundEvent {
    /// A new connection (carried as its id) joined a room the recipient
    /// is already in.
    UserJoined(u64),
    /// A relayed signaling message, unchanged from the sender.
    Signal(SignalMessage),
}

/// One fan-out: the same event, to be delivered to each listed recipient.
/// Delivery to each recipient is independent and best-effort; the list
/// never names the connection the event originated from.
pub struct Delivery {
    pub recipients: Vec<u64>,
    pub event: OutboundEvent,
}

/// Dispatches one inbound event from connection `conn`.
///
/// `join` adds the connection to the room and notifies the room's previous
/// members exactly once — a repeated join is a no-op with no notification.
/// `signal` leaves the registry untouched and fans the message out to every
/// member of the target room except the sender; a signal to an empty or
/// unknown room resolves to an empty fan-out, not an error. Disconnect
/// removes the connection from every room. Unrecognized events are ignored.
pub fn handle_event(reg: &mut Registry, conn: u64, event: InboundEvent) -> (out: Option<
    Delivery,
>)
    requires
        old(reg).wf(),
    ensures
        final(reg).wf(),
        event matches InboundEvent::Join(room) ==> {
            &&& final(reg).room_members(room@) == old(reg).room_members(room@).insert(conn)
            &&& forall|rid: Seq<char>|
                rid != room@ ==> final(reg).room_members(rid) == old(reg).room_members(rid)
            &&& old(reg).is_member(room@, conn) ==> (out is None && *final(reg) == *old(reg))
            &&& !old(reg).is_member(room@, conn) ==> (out matches Some(d) && d.event
                == OutboundEvent::UserJoined(conn) && d.recipients@.no_duplicates()
                && d.recipients@.to_set() == old(reg).room_members(room@)
                && !d.recipients@.contains(conn) && (forall|c: u64|
                #[trigger] d.recipients@.contains(c) ==> old(reg).is_member(room@, c)) && (
            forall|c: u64|
                old(reg).is_member(room@, c) ==> #[trigger] d.recipients@.contains(c)))
        },
        event matches InboundEvent::Signal(msg) ==> {
            &&& *final(reg) == *old(reg)
            &&& out matches Some(d) && d.event == OutboundEvent::Signal(msg)
                && d.recipients@.no_duplicates() && d.recipients@.to_set() == old(
                reg,
            ).room_members(msg.room@).remove(conn) && !d.recipients@.contains(conn) && (
            forall|c: u64|
                #[trigger] d.recipients@.contains(c) ==> (old(reg).is_member(msg.room@, c) && c
                    != conn)) && (forall|c: u64|
                old(reg).is_member(msg.room@, c) && c != conn ==> #[trigger] d.recipients@.contains(
                    c,
                ))
        },
        event matches InboundEvent::Disconnect ==> {
            &&& forall|rid: Seq<char>|
                final(reg).room_members(rid) == old(reg).room_members(rid).remove(conn)
            &&& forall|rid: Seq<char>|
                final(reg).has_room(rid) <==> old(reg).room_members(rid).remove(conn)
                    != Set::<u64>::empty()
            &&& final(reg).joined_rooms(conn) == Set::<Seq<char>>::empty()
            &&& out is None
        },
        event matches InboundEvent::Unrecognized ==> (*final(reg) == *old(reg) && out is None),
{
    match event {
        InboundEvent::Join(room) => {
            if reg.contains_member(&room, conn) {
                proof {
                    assert(reg.room_members(room@).insert(conn) =~= reg.room_members(room@));
                }
                None
            } else {
                let notified = reg.join(&room, conn);
                Some(Delivery { recipients: notified, event: OutboundEvent::UserJoined(conn) })
            }
        },
        InboundEvent::Signal(msg) => {
            let recipients = reg.members_except(&msg.room, conn);
            Some(Delivery { recipients, event: OutboundEvent::Signal(msg) })
        },
        InboundEvent::Disconnect => {
            reg.leave_all(conn);
            None
        },
        InboundEvent::Unrecognized => None,
    }
}

/// Law: fan-out completeness — whenever a recipient list is duplicate-free
/// and holds exactly the room's members without the sender, every other
/// member of the room receives exactly one copy.
pub proof fn lemma_fanout_complete(
    reg: Registry,
    rid: Seq<char>,
    sender: u64,
    recipients: Seq<u64>,
    member: u64,
)
    requires
        recipients.no_duplicates(),
        recipients.to_set() == reg.room_members(rid).remove(sender),
        reg.is_member(rid, member),
        member != sender,
    ensures
        recipients.contains(member),
        recipients.to_multiset().count(member) == 1,
{
    broadcast use vstd::seq_lib::group_to_multiset_ensures;

    assert(recipients.to_set().contains(member));
    assert(recipients.contains(member));
    recipients.lemma_multiset_has_no_duplicates();
    assert(recipients.to_multiset().count(member) > 0);
}

} // verus!
