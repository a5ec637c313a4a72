//! Wire-level message kinds and their mathematical models.
//!
//! The relay recognises two payload kinds on a duplex connection: binary
//! application frames, relayed verbatim to the other members of the sender's
//! room, and JSON signaling envelopes, either peer-addressed or produced by
//! the server as join/leave announcements.

use vstd::prelude::*;

verus! {

/// A peer identity: assigned by the registry from a monotonic counter and
/// never reused while the registry lives.
pub type PeerId = u64;

/// Display name chosen by a client; carried opaquely by clients, never
/// interpreted by the relay.
pub struct Username(pub String);

/// Room name chosen by a client (the lobby field of the menu); the relay
/// sees rooms only through connection paths.
pub struct Lobby(pub String);

/// Application payload a client sends once connected.
#[derive(Clone, Copy, PartialEq, Eq, Structural, Debug)]
pub enum ClientMessage {
    HelloFromClient,
}

/// Application payload a client receives from another member.
#[derive(Clone, Copy, PartialEq, Eq, Structural, Debug)]
pub enum ServerMessage {
    HelloFromServer,
}

/// A parsed signaling envelope from a peer.
#[derive(PartialEq, Eq, Debug)]
pub enum PeerRequest {
    /// Peer-addressed envelope: deliver `data` to `receiver` only.
    Signal { receiver: PeerId, data: Vec<u8> },
    /// No-op that defeats idle-connection timeouts in intermediaries.
    KeepAlive,
}

/// Model of a `PeerRequest` over mathematical sequences.
#[verifier::ext_equal]
pub enum RequestModel {
    Signal { receiver: PeerId, data: Seq<u8> },
    KeepAlive,
}

impl View for PeerRequest {
    type V = RequestModel;

    open spec fn view(&self) -> RequestModel {
        match self {
            PeerRequest::Signal { receiver, data } => RequestModel::Signal {
                receiver: *receiver,
                data: data@,
            },
            PeerRequest::KeepAlive => RequestModel::KeepAlive,
        }
    }
}

/// An event queued for delivery to one peer's connection.
#[derive(PartialEq, Eq, Debug)]
pub enum PeerEvent {
    /// The server's reply to a fresh connection: its assigned identity.
    IdAssigned(PeerId),
    /// Another peer joined the recipient's room.
    NewPeer(PeerId),
    /// A former member of the recipient's room departed.
    PeerLeft(PeerId),
    /// A peer-addressed envelope, `data` carried verbatim.
    Signal { sender: PeerId, data: Vec<u8> },
    /// An application frame from a member of the recipient's room, relayed
    /// verbatim.
    Application { data: Vec<u8> },
}

/// Model of a `PeerEvent` over mathematical sequences.
#[verifier::ext_equal]
pub enum EventModel {
    IdAssigned { id: PeerId },
    NewPeer { id: PeerId },
    PeerLeft { id: PeerId },
    Signal { sender: PeerId, data: Seq<u8> },
    Application { data: Seq<u8> },
}

impl View for PeerEvent {
    type V = EventModel;

    open spec fn view(&self) -> EventModel {
        match self {
            PeerEvent::IdAssigned(id) => EventModel::IdAssigned { id: *id },
            PeerEvent::NewPeer(id) => EventModel::NewPeer { id: *id },
            PeerEvent::PeerLeft(id) => EventModel::PeerLeft { id: *id },
            PeerEvent::Signal { sender, data } => EventModel::Signal {
                sender: *sender,
                data: data@,
            },
            PeerEvent::Application { data } => EventModel::Application { data: data@ },
        }
    }
}

/// Byte-for-byte copy of a payload.
pub fn clone_bytes(v: &Vec<u8>) -> (r: Vec<u8>)
    ensures
        r@ == v@,
{
    let mut r: Vec<u8> = Vec::new();
    let mut i: usize = 0;
    while i < v.len()
        invariant
            i <= v.len(),
            r@ =~= v@.take(i as int),
        decreases v.len() - i,
    {
        r.push(v[i]);
        i = i + 1;
    }
    proof {
        assert(r@ =~= v@);
    }
    r
}

impl Clone for PeerEvent {
    /// The copy carries the same model; payload bytes are copied verbatim.
    fn clone(&self) -> (r: Self)
        ensures
            r@ == self@,
    {
        match self {
            PeerEvent::IdAssigned(id) => PeerEvent::IdAssigned(*id),
            PeerEvent::NewPeer(id) => PeerEvent::NewPeer(*id),
            PeerEvent::PeerLeft(id) => PeerEvent::PeerLeft(*id),
            PeerEvent::Signal { sender, data } => PeerEvent::Signal {
                sender: *sender,
                data: clone_bytes(data),
            },
            PeerEvent::Application { data } => PeerEvent::Application { data: clone_bytes(data) },
        }
    }
}

impl Clone for PeerRequest {
    /// The copy carries the same model; payload bytes are copied verbatim.
    fn clone(&self) -> (r: Self)
        ensures
            r@ == self@,
    {
        match self {
            PeerRequest::Signal { receiver, data } => PeerRequest::Signal {
                receiver: *receiver,
                data: clone_bytes(data),
            },
            PeerRequest::KeepAlive => PeerRequest::KeepAlive,
        }
    }
}

/// Why an inbound frame was rejected. Both kinds are recoverable: the
/// connection stays open and later frames are still processed.
#[derive(Clone, Copy, PartialEq, Eq, Structural, Debug)]
pub enum DecodeError {
    /// Frame shorter than its fixed-size header.
    Truncated,
    /// Tag or shape that the protocol does not define.
    Unrecognized,
}

/// What became of a best-effort unicast.
#[derive(Clone, Copy, PartialEq, Eq, Structural, Debug)]
pub enum SendOutcome {
    /// The event sits in the target's outbound queue.
    Sent,
    /// No such peer is registered; the event was dropped.
    UnknownPeer,
    /// The target's outbound channel is closed; the event was dropped.
    ChannelClosed,
}

} // verus!
