//! The peer registry: the single source of truth for who exists, in which
//! room, and with which outbound queue.
//!
//! All mutation of shared state goes through one registry value; an embedding
//! program guards it with a single critical section and never holds that lock
//! across a blocking send (reads copy snapshots out). Rooms exist implicitly:
//! a room is the set of peers whose record names it, and it is gone once its
//! last member leaves; no empty-room record is kept.
//!
//! Identities come from a monotonic counter, so an identity is never reused
//! while the registry lives.

use vstd::prelude::*;

use crate::fanout::{bounded_push, Outbound};
use crate::protocol::{EventModel, PeerEvent, PeerId, SendOutcome};

verus! {

/// A registered peer: identity, room, and the outbound side of its
/// connection.
pub struct Peer {
    pub id: PeerId,
    pub room: String,
    pub outbound: Outbound,
}

/// Model of a registered peer.
#[verifier::ext_equal]
pub struct PeerModel {
    pub id: PeerId,
    pub room: Seq<char>,
    pub events: Seq<EventModel>,
    pub cap: usize,
    pub open: bool,
}

impl View for Peer {
    type V = PeerModel;

    open spec fn view(&self) -> PeerModel {
        PeerModel {
            id: self.id,
            room: self.room@,
            events: self.outbound@.events,
            cap: self.outbound@.cap,
            open: self.outbound@.open,
        }
    }
}

/// A connection that has been accepted but not yet folded into a room:
/// keyed by an origin token, with its requested room and, once assigned,
/// its identity.
pub struct WaitingPeer {
    pub origin: u64,
    pub room: String,
    pub id: Option<PeerId>,
}

/// Model of a waiting peer.
#[verifier::ext_equal]
pub struct WaitingModel {
    pub origin: u64,
    pub room: Seq<char>,
    pub id: Option<PeerId>,
}

impl View for WaitingPeer {
    type V = WaitingModel;

    open spec fn view(&self) -> WaitingModel {
        WaitingModel { origin: self.origin, room: self.room@, id: self.id }
    }
}

/// The predicate that `remove_by_id` keeps.
pub open spec fn keeps_other(id: PeerId) -> spec_fn(PeerModel) -> bool {
    |p: PeerModel| p.id != id
}

/// The registry after the peer named `id` is removed; removing an absent
/// identity changes nothing, so this transform is idempotent.
pub open spec fn remove_by_id(s: Seq<PeerModel>, id: PeerId) -> Seq<PeerModel> {
    s.filter(keeps_other(id))
}

/// The selector that `member_ids` maps over the registry.
pub open spec fn member_sel(room: Seq<char>) -> spec_fn(PeerModel) -> Option<PeerId> {
    |p: PeerModel| if p.room == room {
        Some(p.id)
    } else {
        None
    }
}

/// The identities of the current members of `room`, in registration order.
pub open spec fn member_ids(s: Seq<PeerModel>, room: Seq<char>) -> Seq<PeerId> {
    s.filter_map(member_sel(room))
}

/// The predicate that dropping a waiting entry by origin keeps.
pub open spec fn keeps_other_origin(origin: u64) -> spec_fn(WaitingModel) -> bool {
    |w: WaitingModel| w.origin != origin
}

/// The predicate that dropping a waiting entry by identity keeps.
pub open spec fn keeps_other_waiting_id(id: PeerId) -> spec_fn(WaitingModel) -> bool {
    |w: WaitingModel| w.id != Some(id)
}

/// Whether some waiting entry carries origin `origin`.
pub open spec fn waiting_has_origin(s: Seq<WaitingModel>, origin: u64) -> bool {
    exists|i: int| 0 <= i < s.len() && (#[trigger] s[i]).origin == origin
}

/// Whether some waiting entry has been assigned identity `id`.
pub open spec fn waiting_has_id(s: Seq<WaitingModel>, id: PeerId) -> bool {
    exists|i: int| 0 <= i < s.len() && (#[trigger] s[i]).id == Some(id)
}

/// The index of the peer named `id`, unique in a well-formed registry.
pub open spec fn index_of_peer(s: Seq<PeerModel>, id: PeerId) -> int {
    choose|i: int| 0 <= i < s.len() && (#[trigger] s[i]).id == id
}

/// The record of the peer named `id`, in a well-formed registry.
pub open spec fn peer_model(s: Seq<PeerModel>, id: PeerId) -> PeerModel {
    s[index_of_peer(s, id)]
}

/// Everything of a peer but its queued events is unchanged.
pub open spec fn same_but_events(po: PeerModel, pn: PeerModel) -> bool {
    &&& pn.id == po.id
    &&& pn.room == po.room
    &&& pn.cap == po.cap
    &&& pn.open == po.open
}

/// Whether a room-wide publish in `room`, excepting `except`, reaches `p`.
pub open spec fn publish_reaches(p: PeerModel, room: Seq<char>, except: PeerId) -> bool {
    p.room == room && p.id != except && p.open
}

/// How one peer record changes under a publish: the event is appended to the
/// queue of every reached member; everyone else is untouched.
pub open spec fn publish_step(
    po: PeerModel,
    pn: PeerModel,
    room: Seq<char>,
    except: PeerId,
    e: EventModel,
) -> bool {
    &&& same_but_events(po, pn)
    &&& pn.events == if publish_reaches(po, room, except) {
        bounded_push(po.events, e, po.cap)
    } else {
        po.events
    }
}

/// How one peer record changes under a unicast to `target`: only the open
/// target's queue grows, and only by the one event.
pub open spec fn send_step(po: PeerModel, pn: PeerModel, target: PeerId, e: EventModel) -> bool {
    &&& same_but_events(po, pn)
    &&& pn.events == if po.id == target && po.open {
        bounded_push(po.events, e, po.cap)
    } else {
        po.events
    }
}

/// A waiting identity as registry `r` knew it: below the counter and naming
/// no registered peer.
pub open spec fn waiting_id_ok(w: WaitingModel, r: PeerRegistry) -> bool {
    &&& (w.id matches Some(x) ==> x < r.next_id())
    &&& forall|j: int| 0 <= j < r.peers().len() ==> w.id != Some((#[trigger] r.peers()[j]).id)
}

/// A waiting entry that survives dropping `origin`, as the registry `r`
/// knew it: another origin, and an identity that is small and unregistered.
pub open spec fn kept_entry_ok(w: WaitingModel, origin: u64, r: PeerRegistry) -> bool {
    &&& w.origin != origin
    &&& waiting_id_ok(w, r)
}

/// Two waiting entries that share neither origin nor assigned identity.
pub open spec fn distinct_waiting(a: WaitingModel, b: WaitingModel) -> bool {
    &&& a.origin != b.origin
    &&& (a.id is Some ==> a.id != b.id)
}

/// Filtering keeps a sequence whose every element passes the predicate.
proof fn lemma_filter_id<A>(s: Seq<A>, pred: spec_fn(A) -> bool)
    requires
        forall|i: int| 0 <= i < s.len() ==> pred(#[trigger] s[i]),
    ensures
        s.filter(pred) == s,
    decreases s.len(),
{
    reveal(Seq::filter);
    if s.len() == 0 {
        assert(s.filter(pred) =~= s);
    } else {
        lemma_filter_id(s.drop_last(), pred);
        assert(s.filter(pred) =~= s);
    }
}

/// Filtering a sequence whose only failing element stands at `k` removes
/// exactly that element.
proof fn lemma_filter_remove_at<A>(s: Seq<A>, pred: spec_fn(A) -> bool, k: int)
    requires
        0 <= k < s.len(),
        !pred(s[k]),
        forall|i: int| 0 <= i < s.len() && i != k ==> pred(#[trigger] s[i]),
    ensures
        s.filter(pred) == s.subrange(0, k) + s.subrange(k + 1, s.len() as int),
{
    let a = s.subrange(0, k);
    let b = s.subrange(k, k + 1);
    let c = s.subrange(k + 1, s.len() as int);
    assert(s =~= (a + b) + c);
    Seq::<A>::filter_distributes_over_add(a + b, c, pred);
    Seq::<A>::filter_distributes_over_add(a, b, pred);
    lemma_filter_id(a, pred);
    lemma_filter_id(c, pred);
    reveal_with_fuel(Seq::filter, 2);
    assert(b.filter(pred) =~= Seq::<A>::empty());
    assert(s.filter(pred) =~= a + c);
}

/// The process-wide directory of waiting and registered peers.
pub struct PeerRegistry {
    next_id: PeerId,
    cap: usize,
    waiting: Vec<WaitingPeer>,
    peers: Vec<Peer>,
}

impl PeerRegistry {
    /// The registered peers, as models, in registration order.
    pub closed spec fn peers(self) -> Seq<PeerModel> {
        self.peers@.map_values(|p: Peer| p@)
    }

    /// The waiting peers, as models, in arrival order.
    pub closed spec fn waiting(self) -> Seq<WaitingModel> {
        self.waiting@.map_values(|w: WaitingPeer| w@)
    }

    /// The next identity the registry will assign.
    pub closed spec fn next_id(self) -> PeerId {
        self.next_id
    }

    /// The outbound queue bound every peer is created with.
    pub closed spec fn cap(self) -> usize {
        self.cap
    }

    /// Whether a peer named `id` is registered.
    pub open spec fn has_peer(self, id: PeerId) -> bool {
        exists|i: int| 0 <= i < self.peers().len() && (#[trigger] self.peers()[i]).id == id
    }

    /// The registry invariant: identities are unique, all assigned
    /// identities lie below the counter, queues respect the shared bound,
    /// waiting origins are unique, and an assigned waiting identity names
    /// no registered peer.
    pub open spec fn wf(self) -> bool {
        let ps = self.peers();
        let ws = self.waiting();
        &&& self.cap() >= 1
        &&& forall|i: int, j: int|
            0 <= i < ps.len() && 0 <= j < ps.len() && i != j ==> (#[trigger] ps[i]).id != (
            #[trigger] ps[j]).id
        &&& forall|i: int| 0 <= i < ps.len() ==> (#[trigger] ps[i]).id < self.next_id()
        &&& forall|i: int|
            0 <= i < ps.len() ==> (#[trigger] ps[i]).cap == self.cap() && ps[i].events.len()
                <= self.cap()
        &&& forall|i: int, j: int|
            0 <= i < ws.len() && 0 <= j < ws.len() && i != j ==> (#[trigger] ws[i]).origin != (
            #[trigger] ws[j]).origin
        &&& forall|i: int|
            0 <= i < ws.len() ==> ((#[trigger] ws[i]).id matches Some(x) ==> x < self.next_id())
        &&& forall|i: int, j: int|
            0 <= i < ws.len() && 0 <= j < ws.len() && i != j && (#[trigger] ws[i]).id is Some ==> ws[i].id
                != (#[trigger] ws[j]).id
        &&& forall|i: int, j: int|
            0 <= i < ws.len() && 0 <= j < ps.len() ==> (#[trigger] ws[i]).id != Some(
                (#[trigger] ps[j]).id,
            )
    }

    /// An empty registry whose outbound queues will hold at most `cap`
    /// events each.
    pub fn new(cap: usize) -> (r: PeerRegistry)
        requires
            cap >= 1,
        ensures
            r.wf(),
            r.peers() == Seq::<PeerModel>::empty(),
            r.waiting() == Seq::<WaitingModel>::empty(),
            r.next_id() == 0,
            r.cap() == cap,
    {
        let r = PeerRegistry { next_id: 0, cap, waiting: Vec::new(), peers: Vec::new() };
        proof {
            assert(r.peers() =~= Seq::<PeerModel>::empty());
            assert(r.waiting() =~= Seq::<WaitingModel>::empty());
        }
        r
    }

    /// The index of the registered peer named `id`, if any.
    fn find_peer(&self, id: PeerId) -> (r: Option<usize>)
        ensures
            match r {
                Some(k) => k < self.peers().len() && self.peers()[k as int].id == id,
                None => !self.has_peer(id),
            },
    {
        let mut i: usize = 0;
        while i < self.peers.len()
            invariant
                i <= self.peers.len(),
                forall|j: int| 0 <= j < i ==> (#[trigger] self.peers()[j]).id != id,
            decreases self.peers.len() - i,
        {
            if self.peers[i].id == id {
                return Some(i);
            }
            i = i + 1;
        }
        None
    }

    /// The index of the waiting entry with origin `origin`, if any.
    fn find_waiting_origin(&self, origin: u64) -> (r: Option<usize>)
        ensures
            match r {
                Some(k) => k < self.waiting().len() && self.waiting()[k as int].origin == origin,
                None => !waiting_has_origin(self.waiting(), origin),
            },
    {
        let mut i: usize = 0;
        while i < self.waiting.len()
            invariant
                i <= self.waiting.len(),
                forall|j: int| 0 <= j < i ==> (#[trigger] self.waiting()[j]).origin != origin,
            decreases self.waiting.len() - i,
        {
            if self.waiting[i].origin == origin {
                return Some(i);
            }
            i = i + 1;
        }
        None
    }

    /// The index of the waiting entry assigned identity `id`, if any.
    fn find_waiting_id(&self, id: PeerId) -> (r: Option<usize>)
        ensures
            match r {
                Some(k) => k < self.waiting().len() && self.waiting()[k as int].id == Some(id),
                None => !waiting_has_id(self.waiting(), id),
            },
    {
        let mut i: usize = 0;
        while i < self.waiting.len()
            invariant
                i <= self.waiting.len(),
                forall|j: int| 0 <= j < i ==> (#[trigger] self.waiting()[j]).id != Some(id),
            decreases self.waiting.len() - i,
        {
            let has = match &self.waiting[i].id {
                Some(x) => *x == id,
                None => false,
            };
            if has {
                return Some(i);
            }
            i = i + 1;
        }
        None
    }

    /// Record a fresh connection with the room its path named. A second
    /// request from the same origin replaces the first (the connection was
    /// re-made before it ever registered).
    pub fn add_waiting(&mut self, origin: u64, room: String)
        requires
            old(self).wf(),
        ensures
            final(self).wf(),
            final(self).waiting() == old(self).waiting().filter(keeps_other_origin(origin)).push(
                WaitingModel { origin, room: room@, id: None },
            ),
            final(self).peers() == old(self).peers(),
            final(self).next_id() == old(self).next_id(),
            final(self).cap() == old(self).cap(),
    {
        let entry = WaitingPeer { origin, room, id: None };
        let ghost ws0 = old(self).waiting();
        let ghost kept = ws0.filter(keeps_other_origin(origin));
        match self.find_waiting_origin(origin) {
            Some(k) => {
                self.waiting.remove(k);
                proof {
                    lemma_filter_remove_at(ws0, keeps_other_origin(origin), k as int);
                    assert(self.waiting() =~= kept);
                    assert forall|i: int| 0 <= i < kept.len() implies kept_entry_ok(
                        #[trigger] kept[i],
                        origin,
                        *old(self),
                    ) by {
                        let ii = if i < k {
                            i
                        } else {
                            i + 1
                        };
                        assert(kept[i] == ws0[ii]);
                    }
                    assert forall|i: int, j: int|
                        0 <= i < kept.len() && 0 <= j < kept.len() && i
                            != j implies distinct_waiting(
                        #[trigger] kept[i],
                        #[trigger] kept[j],
                    ) by {
                        let ii = if i < k {
                            i
                        } else {
                            i + 1
                        };
                        let jj = if j < k {
                            j
                        } else {
                            j + 1
                        };
                        assert(kept[i] == ws0[ii]);
                        assert(kept[j] == ws0[jj]);
                    }
                }
            },
            None => {
                proof {
                    lemma_filter_id(ws0, keeps_other_origin(origin));
                    assert(self.waiting() == kept);
                    assert(forall|i: int|
                        0 <= i < kept.len() ==> kept_entry_ok(#[trigger] kept[i], origin, *old(self)));
                    assert(forall|i: int, j: int|
                        0 <= i < kept.len() && 0 <= j < kept.len() && i != j ==> distinct_waiting(
                            #[trigger] kept[i],
                            #[trigger] kept[j],
                        ));
                }
            },
        }
        self.waiting.push(entry);
        proof {
            assert(self.waiting() =~= kept.push(
                WaitingModel { origin, room: entry.room@, id: None },
            ));
            assert(self.peers() == old(self).peers());
            assert(forall|i: int, j: int|
                0 <= i < self.peers().len() && 0 <= j < self.peers().len() && i != j ==> (
                #[trigger] self.peers()[i]).id != (#[trigger] self.peers()[j]).id);
        }
    }

    /// Assign the next identity to the waiting connection with origin
    /// `origin`. Fails only if no such connection waits unassigned, or on
    /// identity exhaustion; a fresh identity names no registered peer.
    pub fn register(&mut self, origin: u64) -> (r: Option<PeerId>)
        requires
            old(self).wf(),
        ensures
            final(self).wf(),
            final(self).peers() == old(self).peers(),
            final(self).cap() == old(self).cap(),
            r is Some <==> exists|i: int|
                0 <= i < old(self).waiting().len() && (#[trigger] old(self).waiting()[i]).origin
                    == origin && old(self).waiting()[i].id is None && old(self).next_id()
                    < PeerId::MAX,
            r is None ==> final(self).waiting() == old(self).waiting() && final(self).next_id()
                == old(self).next_id(),
            r matches Some(id) ==> {
                &&& id == old(self).next_id()
                &&& final(self).next_id() == old(self).next_id() + 1
                &&& !old(self).has_peer(id)
                &&& !final(self).has_peer(id)
                &&& final(self).waiting().len() == old(self).waiting().len()
                &&& forall|i: int|
                    0 <= i < old(self).waiting().len() && (#[trigger] old(
                        self,
                    ).waiting()[i]).origin != origin ==> final(self).waiting()[i] == old(
                        self,
                    ).waiting()[i]
                &&& forall|i: int|
                    0 <= i < old(self).waiting().len() && (#[trigger] old(
                        self,
                    ).waiting()[i]).origin == origin ==> final(self).waiting()[i]
                        == (WaitingModel { id: Some(id), ..old(self).waiting()[i] })
                &&& waiting_has_id(final(self).waiting(), id)
            },
    {
        if self.next_id == PeerId::MAX {
            return None;
        }
        match self.find_waiting_origin(origin) {
            None => None,
            Some(k) => {
                let unassigned = match &self.waiting[k].id {
                    None => true,
                    Some(_) => false,
                };
                if !unassigned {
                    return None;
                }
                let id = self.next_id;
                let w = self.waiting.remove(k);
                let w2 = WaitingPeer { origin: w.origin, room: w.room, id: Some(id) };
                self.waiting.insert(k, w2);
                self.next_id = id + 1;
                proof {
                    let ws0 = old(self).waiting();
                    let wsn = self.waiting();
                    assert(wsn =~= ws0.update(
                        k as int,
                        WaitingModel { id: Some(id), ..ws0[k as int] },
                    ));
                    assert(forall|i: int| 0 <= i < ws0.len() && i != k ==> wsn[i] == ws0[i]);
                    assert(wsn[k as int].id == Some(id));
                    assert(waiting_has_id(wsn, id));
                    assert(!old(self).has_peer(id)) by {
                        assert(forall|i: int|
                            0 <= i < old(self).peers().len() ==> (#[trigger] old(
                                self,
                            ).peers()[i]).id != id);
                    }
                    assert(forall|i: int|
                        0 <= i < wsn.len() ==> ((#[trigger] wsn[i]).id matches Some(x) ==> x
                            < self.next_id()));
                    assert(forall|i: int, j: int|
                        0 <= i < wsn.len() && 0 <= j < wsn.len() && i != j && (
                        #[trigger] wsn[i]).id is Some ==> wsn[i].id != (#[trigger] wsn[j]).id);
                }
                Some(id)
            },
        }
    }

    /// Take the waiting entry assigned identity `id`, surrendering the room
    /// its connection asked for; the peer is about to join that room.
    pub fn remove_waiting(&mut self, id: PeerId) -> (r: Option<String>)
        requires
            old(self).wf(),
        ensures
            final(self).wf(),
            final(self).peers() == old(self).peers(),
            final(self).next_id() == old(self).next_id(),
            final(self).cap() == old(self).cap(),
            r is Some <==> waiting_has_id(old(self).waiting(), id),
            r is None ==> final(self).waiting() == old(self).waiting(),
            r matches Some(room) ==> {
                &&& final(self).waiting() == old(self).waiting().filter(
                    keeps_other_waiting_id(id),
                )
                &&& exists|i: int|
                    0 <= i < old(self).waiting().len() && (#[trigger] old(self).waiting()[i]).id
                        == Some(id) && old(self).waiting()[i].room == room@
                &&& !waiting_has_id(final(self).waiting(), id)
            },
    {
        match self.find_waiting_id(id) {
            None => None,
            Some(k) => {
                let w = self.waiting.remove(k);
                proof {
                    let ws0 = old(self).waiting();
                    let wsn = self.waiting();
                    lemma_filter_remove_at(ws0, keeps_other_waiting_id(id), k as int);
                    assert(wsn =~= ws0.filter(keeps_other_waiting_id(id)));
                    assert forall|i: int| 0 <= i < wsn.len() implies waiting_id_ok(
                        #[trigger] wsn[i],
                        *old(self),
                    ) && wsn[i].id != Some(id) by {
                        let ii = if i < k {
                            i
                        } else {
                            i + 1
                        };
                        assert(wsn[i] == ws0[ii]);
                    }
                    assert forall|i: int, j: int|
                        0 <= i < wsn.len() && 0 <= j < wsn.len() && i != j implies distinct_waiting(
                        #[trigger] wsn[i],
                        #[trigger] wsn[j],
                    ) by {
                        let ii = if i < k {
                            i
                        } else {
                            i + 1
                        };
                        let jj = if j < k {
                            j
                        } else {
                            j + 1
                        };
                        assert(wsn[i] == ws0[ii]);
                        assert(wsn[j] == ws0[jj]);
                    }
                    assert(self.peers() == old(self).peers());
                    assert(forall|i: int, j: int|
                        0 <= i < self.peers().len() && 0 <= j < self.peers().len() && i != j ==> (
                        #[trigger] self.peers()[i]).id != (#[trigger] self.peers()[j]).id);
                }
                Some(w.room)
            },
        }
    }

    /// Discard the waiting entry with origin `origin`: the connection
    /// closed before it was ever promoted to a room member. A no-op when no
    /// such entry waits.
    pub fn discard_waiting(&mut self, origin: u64) -> (r: bool)
        requires
            old(self).wf(),
        ensures
            final(self).wf(),
            final(self).waiting() == old(self).waiting().filter(keeps_other_origin(origin)),
            final(self).peers() == old(self).peers(),
            final(self).next_id() == old(self).next_id(),
            final(self).cap() == old(self).cap(),
            r == waiting_has_origin(old(self).waiting(), origin),
    {
        let ghost ws0 = old(self).waiting();
        match self.find_waiting_origin(origin) {
            None => {
                proof {
                    lemma_filter_id(ws0, keeps_other_origin(origin));
                }
                false
            },
            Some(k) => {
                self.waiting.remove(k);
                proof {
                    let wsn = self.waiting();
                    lemma_filter_remove_at(ws0, keeps_other_origin(origin), k as int);
                    assert(wsn =~= ws0.filter(keeps_other_origin(origin)));
                    assert forall|i: int| 0 <= i < wsn.len() implies waiting_id_ok(
                        #[trigger] wsn[i],
                        *old(self),
                    ) by {
                        let ii = if i < k {
                            i
                        } else {
                            i + 1
                        };
                        assert(wsn[i] == ws0[ii]);
                    }
                    assert forall|i: int, j: int|
                        0 <= i < wsn.len() && 0 <= j < wsn.len() && i != j implies distinct_waiting(
                        #[trigger] wsn[i],
                        #[trigger] wsn[j],
                    ) by {
                        let ii = if i < k {
                            i
                        } else {
                            i + 1
                        };
                        let jj = if j < k {
                            j
                        } else {
                            j + 1
                        };
                        assert(wsn[i] == ws0[ii]);
                        assert(wsn[j] == ws0[jj]);
                    }
                    assert(self.peers() == old(self).peers());
                    assert(forall|i: int, j: int|
                        0 <= i < self.peers().len() && 0 <= j < self.peers().len() && i != j ==> (
                        #[trigger] self.peers()[i]).id != (#[trigger] self.peers()[j]).id);
                }
                true
            },
        }
    }

    /// Fold the peer named `id` into `room` with a fresh, empty, open
    /// outbound queue; a no-op if it is already a member of some room (a
    /// peer never changes room without being removed first).
    pub fn add_to_room(&mut self, id: PeerId, room: String)
        requires
            old(self).wf(),
            id < old(self).next_id(),
            !waiting_has_id(old(self).waiting(), id),
        ensures
            final(self).wf(),
            final(self).waiting() == old(self).waiting(),
            final(self).next_id() == old(self).next_id(),
            final(self).cap() == old(self).cap(),
            old(self).has_peer(id) ==> final(self).peers() == old(self).peers(),
            !old(self).has_peer(id) ==> final(self).peers() == old(self).peers().push(
                (PeerModel {
                    id,
                    room: room@,
                    events: Seq::<EventModel>::empty(),
                    cap: old(self).cap(),
                    open: true,
                }),
            ),
            final(self).has_peer(id),
    {
        match self.find_peer(id) {
            Some(_) => {
            },
            None => {
                let outbound = Outbound::new(self.cap);
                self.peers.push(Peer { id, room, outbound });
                proof {
                    assert(self.peers() =~= old(self).peers().push(
                        (PeerModel {
                            id,
                            room: self.peers@[self.peers@.len() - 1].room@,
                            events: Seq::<EventModel>::empty(),
                            cap: old(self).cap(),
                            open: true,
                        }),
                    ));
                    assert(self.waiting() == old(self).waiting());
                    assert(forall|i: int|
                        0 <= i < old(self).peers().len() ==> (#[trigger] old(self).peers()[i]).id
                            != id);
                    assert(forall|i: int|
                        0 <= i < old(self).waiting().len() ==> (#[trigger] old(
                            self,
                        ).waiting()[i]).id != Some(id));
                    assert(self.peers()[self.peers().len() - 1].id == id);
                }
            },
        }
    }

    /// Atomically remove and forget the peer named `id`, surrendering its
    /// room; removal of an absent identity is a no-op, so disconnect races
    /// resolve idempotently. This is the single point at which an identity
    /// stops existing for the rest of the system.
    pub fn remove(&mut self, id: PeerId) -> (r: Option<String>)
        requires
            old(self).wf(),
        ensures
            final(self).wf(),
            final(self).peers() == remove_by_id(old(self).peers(), id),
            final(self).waiting() == old(self).waiting(),
            final(self).next_id() == old(self).next_id(),
            final(self).cap() == old(self).cap(),
            r is Some <==> old(self).has_peer(id),
            !final(self).has_peer(id),
            r is Some ==> final(self).peers().len() == old(self).peers().len() - 1,
            r is None ==> final(self).peers() == old(self).peers(),
            r matches Some(room) ==> room@ == peer_model(old(self).peers(), id).room,
    {
        match self.find_peer(id) {
            None => {
                proof {
                    lemma_filter_id(old(self).peers(), keeps_other(id));
                }
                None
            },
            Some(k) => {
                let p = self.peers.remove(k);
                proof {
                    let ps0 = old(self).peers();
                    let psn = self.peers();
                    lemma_filter_remove_at(ps0, keeps_other(id), k as int);
                    assert(psn =~= ps0.filter(keeps_other(id)));
                    assert forall|i: int| 0 <= i < psn.len() implies (#[trigger] psn[i]).id != id
                        && psn[i].id < old(self).next_id() && psn[i].cap == old(self).cap()
                        && psn[i].events.len() <= old(self).cap() by {
                        let ii = if i < k {
                            i
                        } else {
                            i + 1
                        };
                        assert(psn[i] == ps0[ii]);
                    }
                    assert forall|i: int, j: int|
                        0 <= i < psn.len() && 0 <= j < psn.len() && i != j implies (
                    #[trigger] psn[i]).id != (#[trigger] psn[j]).id by {
                        let ii = if i < k {
                            i
                        } else {
                            i + 1
                        };
                        let jj = if j < k {
                            j
                        } else {
                            j + 1
                        };
                        assert(psn[i] == ps0[ii]);
                        assert(psn[j] == ps0[jj]);
                    }
                    assert forall|i: int, j: int|
                        0 <= i < self.waiting().len() && 0 <= j < psn.len() implies (
                    #[trigger] self.waiting()[i]).id != Some((#[trigger] psn[j]).id) by {
                        let jj = if j < k {
                            j
                        } else {
                            j + 1
                        };
                        assert(psn[j] == ps0[jj]);
                    }
                    assert(index_of_peer(ps0, id) == k) by {
                        let i = index_of_peer(ps0, id);
                        assert(0 <= i < ps0.len() && ps0[i].id == id);
                    }
                }
                Some(p.room)
            },
        }
    }

    /// Best-effort unicast: append `e` to the outbound queue of the peer
    /// named `target`, if it exists and its channel is open; in every case
    /// no other peer's record changes.
    pub fn try_send(&mut self, target: PeerId, e: &PeerEvent) -> (r: SendOutcome)
        requires
            old(self).wf(),
        ensures
            final(self).wf(),
            final(self).peers().len() == old(self).peers().len(),
            forall|i: int|
                0 <= i < old(self).peers().len() ==> send_step(
                    old(self).peers()[i],
                    #[trigger] final(self).peers()[i],
                    target,
                    e@,
                ),
            final(self).waiting() == old(self).waiting(),
            final(self).next_id() == old(self).next_id(),
            final(self).cap() == old(self).cap(),
            r == SendOutcome::Sent <==> old(self).has_peer(target) && peer_model(
                old(self).peers(),
                target,
            ).open,
            r == SendOutcome::UnknownPeer <==> !old(self).has_peer(target),
            r == SendOutcome::ChannelClosed <==> old(self).has_peer(target) && !peer_model(
                old(self).peers(),
                target,
            ).open,
    {
        match self.find_peer(target) {
            None => SendOutcome::UnknownPeer,
            Some(k) => {
                proof {
                    assert(index_of_peer(old(self).peers(), target) == k) by {
                        let i = index_of_peer(old(self).peers(), target);
                        assert(0 <= i < old(self).peers().len() && old(self).peers()[i].id
                            == target);
                    }
                }
                if !self.peers[k].outbound.is_open() {
                    SendOutcome::ChannelClosed
                } else {
                    let mut p = self.peers.remove(k);
                    p.outbound.enqueue(e);
                    self.peers.insert(k, p);
                    proof {
                        let ps0 = old(self).peers();
                        assert(self.peers() =~= ps0.update(
                            k as int,
                            (PeerModel {
                                events: bounded_push(ps0[k as int].events, e@, ps0[k as int].cap),
                                ..ps0[k as int]
                            }),
                        ));
                    }
                    SendOutcome::Sent
                }
            },
        }
    }

    /// Room fan-out: append `e` to the outbound queue of every current open
    /// member of `room` but `except`. Members of other rooms are untouched:
    /// a message never crosses a room boundary. An empty room is never an
    /// error: the event is then delivered to no one.
    pub fn publish(&mut self, room: &String, except: PeerId, e: &PeerEvent)
        requires
            old(self).wf(),
        ensures
            final(self).wf(),
            final(self).peers().len() == old(self).peers().len(),
            forall|i: int|
                0 <= i < old(self).peers().len() ==> publish_step(
                    old(self).peers()[i],
                    #[trigger] final(self).peers()[i],
                    room@,
                    except,
                    e@,
                ),
            final(self).waiting() == old(self).waiting(),
            final(self).next_id() == old(self).next_id(),
            final(self).cap() == old(self).cap(),
    {
        let mut i: usize = 0;
        while i < self.peers.len()
            invariant
                old(self).wf(),
                i <= self.peers.len(),
                self.peers().len() == old(self).peers().len(),
                forall|j: int|
                    0 <= j < i ==> publish_step(
                        old(self).peers()[j],
                        #[trigger] self.peers()[j],
                        room@,
                        except,
                        e@,
                    ),
                forall|j: int|
                    i <= j < self.peers().len() ==> #[trigger] self.peers()[j] == old(
                        self,
                    ).peers()[j],
                self.waiting() == old(self).waiting(),
                self.next_id() == old(self).next_id(),
                self.cap() == old(self).cap(),
            decreases self.peers.len() - i,
        {
            let reached = self.peers[i].room == *room && self.peers[i].id != except
                && self.peers[i].outbound.is_open();
            if reached {
                let ghost psb = self.peers();
                let mut p = self.peers.remove(i);
                proof {
                    assert(p@ == psb[i as int]);
                    assert(psb[i as int] == old(self).peers()[i as int]);
                    assert(old(self).peers()[i as int].cap == old(self).cap());
                    assert(p.outbound.wf());
                }
                p.outbound.enqueue(e);
                self.peers.insert(i, p);
                proof {
                    assert(self.peers() =~= psb.update(
                        i as int,
                        (PeerModel {
                            events: bounded_push(psb[i as int].events, e@, psb[i as int].cap),
                            ..psb[i as int]
                        }),
                    ));
                }
            }
            i = i + 1;
        }
        proof {
            let ps0 = old(self).peers();
            let psn = self.peers();
            assert(forall|j: int|
                0 <= j < ps0.len() ==> same_but_events(ps0[j], #[trigger] psn[j]));
            assert forall|i2: int, j2: int|
                0 <= i2 < psn.len() && 0 <= j2 < psn.len() && i2 != j2 implies (
            #[trigger] psn[i2]).id != (#[trigger] psn[j2]).id by {
                assert(psn[i2].id == ps0[i2].id);
                assert(psn[j2].id == ps0[j2].id);
            }
            assert forall|i2: int, j2: int|
                0 <= i2 < self.waiting().len() && 0 <= j2 < psn.len() implies (
            #[trigger] self.waiting()[i2]).id != Some((#[trigger] psn[j2]).id) by {
                assert(psn[j2].id == ps0[j2].id);
            }
        }
    }

    /// Snapshot of the identities of the current members of `room`, copied
    /// out so that no caller need hold the registry across a blocking send.
    pub fn members_of(&self, room: &String) -> (r: Vec<PeerId>)
        ensures
            r@ == member_ids(self.peers(), room@),
    {
        let mut r: Vec<PeerId> = Vec::new();
        let mut i: usize = 0;
        proof {
            assert(self.peers().take(0) =~= Seq::<PeerModel>::empty());
            reveal_with_fuel(Seq::filter_map, 2);
            assert(r@ =~= member_ids(self.peers().take(0), room@));
        }
        while i < self.peers.len()
            invariant
                i <= self.peers.len(),
                r@ == member_ids(self.peers().take(i as int), room@),
            decreases self.peers.len() - i,
        {
            proof {
                Seq::lemma_filter_map_take_succ(self.peers(), member_sel(room@), i as int);
            }
            if self.peers[i].room == *room {
                r.push(self.peers[i].id);
            }
            i = i + 1;
        }
        proof {
            assert(self.peers().take(self.peers().len() as int) =~= self.peers());
        }
        r
    }

    /// Mark the channel of the peer named `id` closed, so that later sends
    /// to it soft-fail; nothing else changes.
    pub fn close_channel(&mut self, id: PeerId) -> (r: bool)
        requires
            old(self).wf(),
        ensures
            final(self).wf(),
            final(self).peers().len() == old(self).peers().len(),
            forall|i: int|
                0 <= i < old(self).peers().len() && (#[trigger] old(self).peers()[i]).id != id
                    ==> final(self).peers()[i] == old(self).peers()[i],
            forall|i: int|
                0 <= i < old(self).peers().len() && (#[trigger] old(self).peers()[i]).id == id
                    ==> final(self).peers()[i] == (PeerModel { open: false, ..old(self).peers()[i] }),
            final(self).waiting() == old(self).waiting(),
            final(self).next_id() == old(self).next_id(),
            final(self).cap() == old(self).cap(),
            r == old(self).has_peer(id),
    {
        match self.find_peer(id) {
            None => false,
            Some(k) => {
                let mut p = self.peers.remove(k);
                p.outbound.close();
                self.peers.insert(k, p);
                proof {
                    let ps0 = old(self).peers();
                    assert(self.peers() =~= ps0.update(
                        k as int,
                        (PeerModel { open: false, ..ps0[k as int] }),
                    ));
                }
                true
            },
        }
    }

    /// Drain the outbound queue of the peer named `id`, in arrival order;
    /// the write loop of that one connection calls this and writes each
    /// event to the transport.
    pub fn drain_events(&mut self, id: PeerId) -> (r: Option<Vec<PeerEvent>>)
        requires
            old(self).wf(),
        ensures
            final(self).wf(),
            r is Some <==> old(self).has_peer(id),
            r is None ==> final(self).peers() == old(self).peers(),
            r matches Some(evs) ==> {
                &&& evs@.map_values(|e: PeerEvent| e@) == peer_model(old(self).peers(), id).events
                &&& final(self).peers().len() == old(self).peers().len()
                &&& forall|i: int|
                    0 <= i < old(self).peers().len() && (#[trigger] old(self).peers()[i]).id != id
                        ==> final(self).peers()[i] == old(self).peers()[i]
                &&& forall|i: int|
                    0 <= i < old(self).peers().len() && (#[trigger] old(self).peers()[i]).id == id
                        ==> final(self).peers()[i] == (PeerModel {
                        events: Seq::<EventModel>::empty(),
                        ..old(self).peers()[i]
                    })
            },
            final(self).waiting() == old(self).waiting(),
            final(self).next_id() == old(self).next_id(),
            final(self).cap() == old(self).cap(),
    {
        match self.find_peer(id) {
            None => None,
            Some(k) => {
                proof {
                    assert(index_of_peer(old(self).peers(), id) == k) by {
                        let i = index_of_peer(old(self).peers(), id);
                        assert(0 <= i < old(self).peers().len() && old(self).peers()[i].id == id);
                    }
                }
                let mut p = self.peers.remove(k);
                let evs = p.outbound.drain();
                self.peers.insert(k, p);
                proof {
                    let ps0 = old(self).peers();
                    assert(self.peers() =~= ps0.update(
                        k as int,
                        (PeerModel { events: Seq::<EventModel>::empty(), ..ps0[k as int] }),
                    ));
                }
                Some(evs)
            },
        }
    }

    /// Whether a peer named `id` is currently registered.
    pub fn contains_peer(&self, id: PeerId) -> (r: bool)
        ensures
            r == self.has_peer(id),
    {
        match self.find_peer(id) {
            Some(_) => true,
            None => false,
        }
    }

    /// How many peers are registered.
    pub fn peer_count(&self) -> (r: usize)
        ensures
            r == self.peers().len(),
    {
        self.peers.len()
    }
}

/// A room broadcast reaches every open member of the room but the sender,
/// appending exactly the published event to each of their queues, and never
/// crosses a room boundary: every peer of another room, the sender, and
/// every closed channel keep their records untouched.
pub proof fn lemma_publish_room_isolation(
    ps0: Seq<PeerModel>,
    ps1: Seq<PeerModel>,
    room: Seq<char>,
    except: PeerId,
    e: EventModel,
)
    requires
        ps0.len() == ps1.len(),
        forall|i: int|
            0 <= i < ps0.len() ==> publish_step(ps0[i], #[trigger] ps1[i], room, except, e),
    ensures
        forall|i: int|
            0 <= i < ps0.len() && !publish_reaches(#[trigger] ps0[i], room, except) ==> ps1[i]
                == ps0[i],
        forall|i: int|
            0 <= i < ps0.len() && publish_reaches(#[trigger] ps0[i], room, except) ==> ps1[i].events
                == bounded_push(ps0[i].events, e, ps0[i].cap),
{
    assert forall|i: int|
        0 <= i < ps0.len() && !publish_reaches(#[trigger] ps0[i], room, except) implies ps1[i]
        == ps0[i] by {
        assert(publish_step(ps0[i], ps1[i], room, except, e));
        assert(ps1[i] =~= ps0[i]);
    }
}

/// A unicast reaches at most one peer: every record whose identity is not
/// the target is untouched, and at most one record carries the target
/// identity — an envelope is never broadcast.
pub proof fn lemma_unicast_reaches_at_most_one(
    ps0: Seq<PeerModel>,
    ps1: Seq<PeerModel>,
    target: PeerId,
    e: EventModel,
)
    requires
        ps0.len() == ps1.len(),
        forall|i: int, j: int|
            0 <= i < ps0.len() && 0 <= j < ps0.len() && i != j ==> (#[trigger] ps0[i]).id != (
            #[trigger] ps0[j]).id,
        forall|i: int|
            0 <= i < ps0.len() ==> send_step(ps0[i], #[trigger] ps1[i], target, e),
    ensures
        forall|i: int|
            0 <= i < ps0.len() && (#[trigger] ps0[i]).id != target ==> ps1[i] == ps0[i],
        forall|i: int, j: int|
            0 <= i < ps0.len() && 0 <= j < ps0.len() && (#[trigger] ps0[i]).id == target && (
            #[trigger] ps0[j]).id == target ==> i == j,
{
    assert forall|i: int| 0 <= i < ps0.len() && (#[trigger] ps0[i]).id != target implies ps1[i]
        == ps0[i] by {
        assert(send_step(ps0[i], ps1[i], target, e));
        assert(ps1[i] =~= ps0[i]);
    }
}

/// Removing a peer is idempotent: removing the same identity a second time
/// is the identity transform, so two removals have the observable effect of
/// one.
pub proof fn lemma_remove_idempotent(s: Seq<PeerModel>, id: PeerId)
    ensures
        remove_by_id(remove_by_id(s, id), id) == remove_by_id(s, id),
{
    let f = remove_by_id(s, id);
    assert forall|i: int| 0 <= i < f.len() implies keeps_other(id)(#[trigger] f[i]) by {
        Seq::lemma_filter_pred(s, keeps_other(id), i);
    }
    lemma_filter_id(f, keeps_other(id));
}

} // verus!
