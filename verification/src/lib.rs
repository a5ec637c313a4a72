//! Room-scoped signaling and relay core.
//!
//! Connections are grouped into named rooms (lobbies); each connection gets a
//! stable identity; application messages are relayed to the other members of
//! the sender's room, and peer-addressed signaling envelopes are delivered to
//! exactly the named target. Join and leave announcements are propagated to
//! the remaining members of a room.

pub mod client;
pub mod codec;
pub mod fanout;
pub mod protocol;
pub mod registry;
pub mod session;
