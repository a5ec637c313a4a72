//! The topology policy and the per-connection session steps.
//!
//! Topology: the room is derived from the connection's request path at
//! connect time (no explicit join handshake), and the server assigns each
//! identity, replying with it before any other traffic. This path-derived
//! strategy is the one this crate implements.
//!
//! While a session is active, the inbound duty dispatches one frame at a
//! time: application frames fan out to the sender's room, signaling
//! envelopes go to their one named target (silently dropped, never echoed
//! back, when the target is gone), keepalives do nothing, and a malformed
//! frame is dropped without touching any state — the connection stays open
//! and later frames are still processed. A close frame or a transport
//! failure ends the session; teardown removes the peer and announces the
//! departure to the remaining members of its former room.

use vstd::prelude::*;

use crate::codec::parse_request_spec;
use crate::protocol::{
    clone_bytes, EventModel, PeerEvent, PeerId, PeerRequest, RequestModel, SendOutcome,
};
use crate::registry::{
    keeps_other_origin, keeps_other_waiting_id, peer_model, publish_step, send_step,
    waiting_has_id, PeerModel, PeerRegistry, WaitingModel,
};

verus! {

/// Where a session stands in its one-way life.
#[derive(Clone, Copy, PartialEq, Eq, Structural, Debug)]
pub enum SessionState {
    /// Transport accepted; no identity yet.
    Connecting,
    /// Identity assigned; room membership not yet confirmed.
    Registered,
    /// Room member; the paired read and write duties are running.
    Active,
    /// One duty ended; the connection is being torn down as a unit.
    Closing,
    /// Registry entry removed and departure announced.
    Closed,
}

/// How far along its life a session state is; every step moves strictly
/// forward, so no state is ever revisited.
pub open spec fn state_rank(s: SessionState) -> int {
    match s {
        SessionState::Connecting => 0,
        SessionState::Registered => 1,
        SessionState::Active => 2,
        SessionState::Closing => 3,
        SessionState::Closed => 4,
    }
}

/// What the read loop handed the session: one frame, or the reason the
/// connection ended.
pub enum InboundEvent {
    /// A text frame: a signaling envelope, not yet parsed.
    Text(Vec<u8>),
    /// A binary frame: an opaque application message.
    Binary(Vec<u8>),
    /// The peer closed the connection in an orderly way.
    Closed,
    /// Reading failed: connection reset or another transport error.
    TransportFailed,
}

/// Whether the inbound duty keeps reading after a step.
#[derive(Clone, Copy, PartialEq, Eq, Structural, Debug)]
pub enum Verdict {
    /// Keep reading: the frame was handled or recoverably dropped.
    Continue,
    /// Stop reading and tear the connection down.
    Stop,
}

/// The room a request path names, as a model: the path itself, or the empty
/// room when the request carried none.
pub open spec fn path_room(path: Option<String>) -> Seq<char> {
    match path {
        Some(p) => p@,
        None => Seq::<char>::empty(),
    }
}

/// The room/signaling topology of this deployment: path-derived rooms,
/// server-assigned identities, silent drop of unroutable envelopes.
#[derive(Debug, Default)]
pub struct MatchmakingDemoTopology;

impl MatchmakingDemoTopology {
    /// The room a connection's request path names.
    pub fn room_of_path(path: Option<String>) -> (r: String)
        ensures
            r@ == path_room(path),
    {
        match path {
            Some(p) => p,
            None => String::new(),
        }
    }

    /// A connection arrived: remember its origin and the room its path
    /// names, until an identity is assigned.
    pub fn connection_requested(reg: &mut PeerRegistry, origin: u64, path: Option<String>)
        requires
            old(reg).wf(),
        ensures
            final(reg).wf(),
            final(reg).peers() == old(reg).peers(),
            final(reg).next_id() == old(reg).next_id(),
            final(reg).cap() == old(reg).cap(),
            final(reg).waiting() == old(reg).waiting().filter(keeps_other_origin(origin)).push(
                (WaitingModel { origin, room: path_room(path), id: None }),
            ),
    {
        let room = Self::room_of_path(path);
        reg.add_waiting(origin, room);
    }

    /// Promote the registered peer named `id` out of waiting: fold it into
    /// the room its connection asked for, reply with its assigned identity,
    /// and announce the newcomer to every other open member of that room —
    /// and to no one else. Returns the room joined, or `None` (and no
    /// change) if `id` names no waiting connection.
    pub fn open_session(reg: &mut PeerRegistry, id: PeerId) -> (r: Option<String>)
        requires
            old(reg).wf(),
        ensures
            final(reg).wf(),
            final(reg).next_id() == old(reg).next_id(),
            final(reg).cap() == old(reg).cap(),
            r is Some <==> waiting_has_id(old(reg).waiting(), id),
            r is None ==> final(reg).peers() == old(reg).peers() && final(reg).waiting() == old(
                reg,
            ).waiting(),
            r matches Some(room) ==> {
                &&& final(reg).waiting() == old(reg).waiting().filter(keeps_other_waiting_id(id))
                &&& final(reg).peers().len() == old(reg).peers().len() + 1
                &&& forall|i: int|
                    0 <= i < old(reg).peers().len() ==> publish_step(
                        old(reg).peers()[i],
                        #[trigger] final(reg).peers()[i],
                        room@,
                        id,
                        (EventModel::NewPeer { id }),
                    )
                &&& final(reg).peers()[old(reg).peers().len() as int] == (PeerModel {
                    id,
                    room: room@,
                    events: seq![(EventModel::IdAssigned { id })],
                    cap: old(reg).cap(),
                    open: true,
                })
                &&& final(reg).has_peer(id)
            },
    {
        match reg.remove_waiting(id) {
            None => None,
            Some(room) => {
                let ghost s1 = *reg;
                proof {
                    let ws0 = old(reg).waiting();
                    let w = choose|i: int|
                        0 <= i < ws0.len() && (#[trigger] ws0[i]).id == Some(id) && ws0[i].room
                            == room@;
                    assert(0 <= w < ws0.len() && ws0[w].id == Some(id));
                    assert(id < old(reg).next_id());
                    assert(forall|j: int|
                        0 <= j < old(reg).peers().len() ==> (#[trigger] old(reg).peers()[j]).id
                            != id);
                    assert(!s1.has_peer(id));
                }
                let room_copy = room.clone();
                reg.add_to_room(id, room_copy);
                let ghost s2 = *reg;
                proof {
                    assert(s2.peers() == s1.peers().push(
                        (PeerModel {
                            id,
                            room: room@,
                            events: Seq::<EventModel>::empty(),
                            cap: old(reg).cap(),
                            open: true,
                        }),
                    ));
                }
                reg.try_send(id, &PeerEvent::IdAssigned(id));
                let ghost s3 = *reg;
                proof {
                    let n = old(reg).peers().len() as int;
                    assert forall|i: int| 0 <= i < n implies #[trigger] s3.peers()[i] == old(
                        reg,
                    ).peers()[i] by {
                        assert(send_step(s2.peers()[i], s3.peers()[i], id, (EventModel::IdAssigned {
                            id,
                        })));
                        assert(s2.peers()[i] == old(reg).peers()[i]);
                        assert(s2.peers()[i].id != id);
                        assert(s3.peers()[i] =~= s2.peers()[i]);
                    }
                    assert(send_step(s2.peers()[n], s3.peers()[n], id, (EventModel::IdAssigned {
                        id,
                    })));
                    assert(s2.peers()[n].open);
                    assert(s3.peers()[n] =~= (PeerModel {
                        id,
                        room: room@,
                        events: seq![(EventModel::IdAssigned { id })],
                        cap: old(reg).cap(),
                        open: true,
                    })) by {
                        assert(s3.peers()[n].events == crate::fanout::bounded_push(
                            Seq::<EventModel>::empty(),
                            (EventModel::IdAssigned { id }),
                            old(reg).cap(),
                        ));
                        assert(Seq::<EventModel>::empty().push((EventModel::IdAssigned { id }))
                            =~= seq![(EventModel::IdAssigned { id })]);
                    }
                }
                reg.publish(&room, id, &PeerEvent::NewPeer(id));
                proof {
                    let n = old(reg).peers().len() as int;
                    assert forall|i: int| 0 <= i < n implies publish_step(
                        old(reg).peers()[i],
                        #[trigger] reg.peers()[i],
                        room@,
                        id,
                        (EventModel::NewPeer { id }),
                    ) by {
                        assert(publish_step(
                            s3.peers()[i],
                            reg.peers()[i],
                            room@,
                            id,
                            (EventModel::NewPeer { id }),
                        ));
                    }
                    assert(publish_step(
                        s3.peers()[n],
                        reg.peers()[n],
                        room@,
                        id,
                        (EventModel::NewPeer { id }),
                    ));
                    assert(reg.peers()[n] =~= s3.peers()[n]);
                    assert(reg.has_peer(id)) by {
                        assert(reg.peers()[n].id == id);
                    }
                }
                Some(room)
            },
        }
    }

    /// Dispatch one parsed signaling envelope from `sender`. A signal is
    /// delivered to its one named target only — never broadcast — and a
    /// signal whose target is gone is dropped without an error to the
    /// sender; the returned outcome exists to be logged. A keepalive does
    /// nothing.
    pub fn handle_request(reg: &mut PeerRegistry, sender: PeerId, req: &PeerRequest) -> (r: Option<
        SendOutcome,
    >)
        requires
            old(reg).wf(),
        ensures
            final(reg).wf(),
            final(reg).waiting() == old(reg).waiting(),
            final(reg).next_id() == old(reg).next_id(),
            final(reg).cap() == old(reg).cap(),
            final(reg).peers().len() == old(reg).peers().len(),
            req is KeepAlive ==> final(reg).peers() == old(reg).peers() && r is None,
            req matches PeerRequest::Signal { receiver, data } ==> {
                &&& forall|i: int|
                    0 <= i < old(reg).peers().len() ==> send_step(
                        old(reg).peers()[i],
                        #[trigger] final(reg).peers()[i],
                        *receiver,
                        (EventModel::Signal { sender, data: data@ }),
                    )
                &&& r == Some(SendOutcome::Sent) <==> old(reg).has_peer(*receiver) && peer_model(
                    old(reg).peers(),
                    *receiver,
                ).open
                &&& r == Some(SendOutcome::UnknownPeer) <==> !old(reg).has_peer(*receiver)
                &&& r == Some(SendOutcome::ChannelClosed) <==> old(reg).has_peer(*receiver)
                    && !peer_model(old(reg).peers(), *receiver).open
            },
    {
        match req {
            PeerRequest::KeepAlive => None,
            PeerRequest::Signal { receiver, data } => {
                let ev = PeerEvent::Signal { sender, data: clone_bytes(data) };
                Some(reg.try_send(*receiver, &ev))
            },
        }
    }

    /// Tear a session down: remove the peer named `id` — the single point
    /// at which its identity stops existing — and, if it was a room member,
    /// announce the departure once to every remaining open member of that
    /// room. Removing an already-removed identity changes nothing, so
    /// teardown is idempotent.
    pub fn close_session(reg: &mut PeerRegistry, id: PeerId) -> (r: Option<String>)
        requires
            old(reg).wf(),
        ensures
            final(reg).wf(),
            final(reg).waiting() == old(reg).waiting(),
            final(reg).next_id() == old(reg).next_id(),
            final(reg).cap() == old(reg).cap(),
            r is Some <==> old(reg).has_peer(id),
            r is None ==> final(reg).peers() == old(reg).peers(),
            !final(reg).has_peer(id),
            r matches Some(room) ==> {
                &&& room@ == peer_model(old(reg).peers(), id).room
                &&& final(reg).peers().len() == old(reg).peers().len() - 1
                &&& forall|i: int|
                    0 <= i < final(reg).peers().len() ==> publish_step(
                        crate::registry::remove_by_id(old(reg).peers(), id)[i],
                        #[trigger] final(reg).peers()[i],
                        room@,
                        id,
                        (EventModel::PeerLeft { id }),
                    )
            },
    {
        match reg.remove(id) {
            None => None,
            Some(room) => {
                reg.publish(&room, id, &PeerEvent::PeerLeft(id));
                Some(room)
            },
        }
    }

    /// One step of the inbound duty of the active session of `sender`, a
    /// member of `room`. A binary frame fans out verbatim to the other open
    /// members of the room; a text frame is parsed and dispatched; a frame
    /// that parses to nothing is dropped with every peer's record untouched
    /// — the connection stays open, so later frames from the same peer are
    /// processed as if the malformed one had never arrived. Only the end of
    /// the connection stops the duty.
    pub fn handle_frame(
        reg: &mut PeerRegistry,
        sender: PeerId,
        room: &String,
        ev: &InboundEvent,
    ) -> (v: Verdict)
        requires
            old(reg).wf(),
        ensures
            final(reg).wf(),
            final(reg).waiting() == old(reg).waiting(),
            final(reg).next_id() == old(reg).next_id(),
            final(reg).cap() == old(reg).cap(),
            final(reg).peers().len() == old(reg).peers().len(),
            ev is Closed || ev is TransportFailed ==> v == Verdict::Stop && final(reg).peers()
                == old(reg).peers(),
            ev matches InboundEvent::Binary(data) ==> v == Verdict::Continue && forall|i: int|
                0 <= i < old(reg).peers().len() ==> publish_step(
                    old(reg).peers()[i],
                    #[trigger] final(reg).peers()[i],
                    room@,
                    sender,
                    (EventModel::Application { data: data@ }),
                ),
            ev matches InboundEvent::Text(bytes) ==> v == Verdict::Continue && (match
            parse_request_spec(bytes@) {
                None => final(reg).peers() == old(reg).peers(),
                Some(RequestModel::KeepAlive) => final(reg).peers() == old(reg).peers(),
                Some(RequestModel::Signal { receiver, data }) => forall|i: int|
                    0 <= i < old(reg).peers().len() ==> send_step(
                        old(reg).peers()[i],
                        #[trigger] final(reg).peers()[i],
                        receiver,
                        (EventModel::Signal { sender, data }),
                    ),
            }),
    {
        match ev {
            InboundEvent::Closed => Verdict::Stop,
            InboundEvent::TransportFailed => Verdict::Stop,
            InboundEvent::Binary(data) => {
                let app = PeerEvent::Application { data: clone_bytes(data) };
                reg.publish(room, sender, &app);
                Verdict::Continue
            },
            InboundEvent::Text(bytes) => {
                match crate::codec::parse_request(bytes) {
                    Err(_) => Verdict::Continue,
                    Ok(req) => {
                        Self::handle_request(reg, sender, &req);
                        Verdict::Continue
                    },
                }
            },
        }
    }
}

/// One connection's lifecycle, driven by an embedding read loop: states
/// move strictly forward from `Connecting` to `Closed`, and the registry is
/// touched exactly as the topology prescribes at each step.
pub struct Session {
    state: SessionState,
    id: Option<PeerId>,
    room: Option<String>,
}

impl Session {
    /// The lifecycle state.
    pub closed spec fn state(self) -> SessionState {
        self.state
    }

    /// The assigned identity, once there is one.
    pub closed spec fn id(self) -> Option<PeerId> {
        self.id
    }

    /// The room joined, once there is one.
    pub closed spec fn room(self) -> Option<Seq<char>> {
        match self.room {
            Some(r) => Some(r@),
            None => None,
        }
    }

    /// Identity and room are known exactly as far as the state has come.
    pub open spec fn wf(self) -> bool {
        &&& (self.state() is Connecting ==> self.id() is None && self.room() is None)
        &&& (self.state() is Registered ==> self.id() is Some && self.room() is None)
        &&& (self.state() is Active ==> self.id() is Some && self.room() is Some)
        &&& (self.state() is Closing ==> self.id() is Some)
        &&& (self.state() is Closed ==> self.id() is Some)
    }

    /// A transport-level connection was accepted.
    pub fn connect() -> (s: Session)
        ensures
            s.wf(),
            s.state() is Connecting,
    {
        Session { state: SessionState::Connecting, id: None, room: None }
    }

    /// The registry assigned this connection the identity `id`.
    pub fn registered(&mut self, id: PeerId)
        requires
            old(self).wf(),
            old(self).state() is Connecting,
        ensures
            final(self).wf(),
            final(self).state() is Registered,
            final(self).id() == Some(id),
            state_rank(final(self).state()) > state_rank(old(self).state()),
    {
        self.state = SessionState::Registered;
        self.id = Some(id);
    }

    /// Confirm room membership: promote the registered peer out of waiting
    /// and announce it (`MatchmakingDemoTopology::open_session`). A peer the
    /// registry no longer knows as waiting goes straight to `Closing`.
    pub fn activate(&mut self, reg: &mut PeerRegistry) -> (ok: bool)
        requires
            old(self).wf(),
            old(self).state() is Registered,
            old(reg).wf(),
        ensures
            final(self).wf(),
            final(reg).wf(),
            state_rank(final(self).state()) > state_rank(old(self).state()),
            final(self).id() == old(self).id(),
            ok <==> waiting_has_id(old(reg).waiting(), old(self).id()->0),
            ok ==> final(self).state() is Active && final(self).room() is Some,
            !ok ==> final(self).state() is Closing && final(reg).peers() == old(reg).peers()
                && final(reg).waiting() == old(reg).waiting(),
            ok ==> {
                let id = old(self).id()->0;
                let room = final(self).room()->0;
                &&& final(reg).waiting() == old(reg).waiting().filter(keeps_other_waiting_id(id))
                &&& final(reg).peers().len() == old(reg).peers().len() + 1
                &&& forall|i: int|
                    0 <= i < old(reg).peers().len() ==> publish_step(
                        old(reg).peers()[i],
                        #[trigger] final(reg).peers()[i],
                        room,
                        id,
                        (EventModel::NewPeer { id }),
                    )
                &&& final(reg).peers()[old(reg).peers().len() as int] == (PeerModel {
                    id,
                    room,
                    events: seq![(EventModel::IdAssigned { id })],
                    cap: old(reg).cap(),
                    open: true,
                })
                &&& final(reg).has_peer(id)
            },
            final(reg).next_id() == old(reg).next_id(),
            final(reg).cap() == old(reg).cap(),
    {
        let id = match self.id {
            Some(i) => i,
            None => {
                proof {
                    assert(false);
                }
                0
            },
        };
        match MatchmakingDemoTopology::open_session(reg, id) {
            Some(room) => {
                self.room = Some(room);
                self.state = SessionState::Active;
                true
            },
            None => {
                self.state = SessionState::Closing;
                false
            },
        }
    }

    /// One step of the inbound duty: dispatch a frame through
    /// `MatchmakingDemoTopology::handle_frame`; the end of the connection
    /// moves the session to `Closing`.
    pub fn on_inbound(&mut self, reg: &mut PeerRegistry, ev: &InboundEvent) -> (v: Verdict)
        requires
            old(self).wf(),
            old(self).state() is Active,
            old(reg).wf(),
        ensures
            final(self).wf(),
            final(reg).wf(),
            final(self).id() == old(self).id(),
            final(self).room() == old(self).room(),
            v == Verdict::Continue ==> final(self).state() is Active,
            v == Verdict::Stop ==> final(self).state() is Closing && state_rank(
                final(self).state(),
            ) > state_rank(old(self).state()),
            v == Verdict::Stop <==> (ev is Closed || ev is TransportFailed),
            final(reg).waiting() == old(reg).waiting(),
            final(reg).next_id() == old(reg).next_id(),
            final(reg).cap() == old(reg).cap(),
            final(reg).peers().len() == old(reg).peers().len(),
            ev is Closed || ev is TransportFailed ==> final(reg).peers() == old(reg).peers(),
            ev matches InboundEvent::Binary(data) ==> forall|i: int|
                0 <= i < old(reg).peers().len() ==> publish_step(
                    old(reg).peers()[i],
                    #[trigger] final(reg).peers()[i],
                    old(self).room()->0,
                    old(self).id()->0,
                    (EventModel::Application { data: data@ }),
                ),
            ev matches InboundEvent::Text(bytes) ==> (match parse_request_spec(bytes@) {
                None => final(reg).peers() == old(reg).peers(),
                Some(RequestModel::KeepAlive) => final(reg).peers() == old(reg).peers(),
                Some(RequestModel::Signal { receiver, data }) => forall|i: int|
                    0 <= i < old(reg).peers().len() ==> send_step(
                        old(reg).peers()[i],
                        #[trigger] final(reg).peers()[i],
                        receiver,
                        (EventModel::Signal { sender: old(self).id()->0, data }),
                    ),
            }),
    {
        let id = match self.id {
            Some(i) => i,
            None => {
                proof {
                    assert(false);
                }
                0
            },
        };
        let room = match &self.room {
            Some(r) => r,
            None => {
                proof {
                    assert(false);
                }
                unreached()
            },
        };
        let v = MatchmakingDemoTopology::handle_frame(reg, id, room, ev);
        match v {
            Verdict::Continue => v,
            Verdict::Stop => {
                self.state = SessionState::Closing;
                v
            },
        }
    }

    /// Tear the connection down as a unit
    /// (`MatchmakingDemoTopology::close_session`): the registry entry goes,
    /// the departure is announced, and the session ends in its terminal
    /// state.
    pub fn finish(&mut self, reg: &mut PeerRegistry)
        requires
            old(self).wf(),
            old(self).state() is Closing,
            old(reg).wf(),
        ensures
            final(self).wf(),
            final(reg).wf(),
            final(self).state() is Closed,
            state_rank(final(self).state()) > state_rank(old(self).state()),
            final(self).id() == old(self).id(),
            !final(reg).has_peer(old(self).id()->0),
            final(reg).waiting() == old(reg).waiting(),
            final(reg).next_id() == old(reg).next_id(),
            final(reg).cap() == old(reg).cap(),
            !old(reg).has_peer(old(self).id()->0) ==> final(reg).peers() == old(reg).peers(),
            old(reg).has_peer(old(self).id()->0) ==> {
                let id = old(self).id()->0;
                let room = peer_model(old(reg).peers(), id).room;
                &&& final(reg).peers().len() == old(reg).peers().len() - 1
                &&& forall|i: int|
                    0 <= i < final(reg).peers().len() ==> publish_step(
                        crate::registry::remove_by_id(old(reg).peers(), id)[i],
                        #[trigger] final(reg).peers()[i],
                        room,
                        id,
                        (EventModel::PeerLeft { id }),
                    )
            },
    {
        let id = match self.id {
            Some(i) => i,
            None => {
                proof {
                    assert(false);
                }
                0
            },
        };
        MatchmakingDemoTopology::close_session(reg, id);
        self.state = SessionState::Closed;
    }
}

} // verus!
