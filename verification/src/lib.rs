//! A real-time signaling relay core: named rooms of connections that
//! exchange opaque negotiation messages through a central registry.
//!
//! The registry is the single source of truth for room membership; the
//! router turns inbound events (`join`, `signal`, disconnect) into state
//! updates and fan-out deliveries. Transport and I/O live outside this
//! crate; the relay itself never interprets a payload.
//!
//! The registry is shared mutable state: callers running one task per
//! connection must serialize its use (a single lock over the registry is
//! enough), computing each fan-out under that exclusion and performing the
//! actual deliveries outside it, so a slow recipient never stalls a room.

pub mod registry;
pub mod router;
pub mod text;
