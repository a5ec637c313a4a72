//! Per-subscriber side of the room fan-out channel.
//!
//! Every peer owns one bounded outbound queue. Producers (the registry's
//! unicast and the room-wide publish) enqueue events; the peer's write loop
//! drains the queue independently, so a slow consumer never blocks a
//! publisher. The overflow policy is drop-oldest: when the queue is full the
//! oldest queued event is discarded to make room for the new one, so the
//! newest event always enters the queue and memory stays bounded.

use vstd::prelude::*;

use crate::protocol::{EventModel, PeerEvent};

verus! {

/// What one enqueue step does to a queue of capacity `cap`: append, dropping
/// the oldest element first when the queue is full.
pub open spec fn bounded_push(q: Seq<EventModel>, e: EventModel, cap: usize) -> Seq<EventModel> {
    if q.len() < cap {
        q.push(e)
    } else {
        q.drop_first().push(e)
    }
}

/// The newest event always enters the queue: under drop-oldest overflow the
/// just-published event stands at the end, whatever had to make room.
pub proof fn lemma_bounded_push_delivers(q: Seq<EventModel>, e: EventModel, cap: usize)
    requires
        cap >= 1,
        q.len() <= cap,
    ensures
        bounded_push(q, e, cap).len() >= 1,
        bounded_push(q, e, cap).last() == e,
        bounded_push(q, e, cap).len() <= cap,
        q.len() < cap ==> bounded_push(q, e, cap) == q.push(e),
{
}

/// One peer's bounded outbound queue together with the state of its channel.
pub struct Outbound {
    events: Vec<PeerEvent>,
    cap: usize,
    open: bool,
}

/// Model of an `Outbound` queue.
#[verifier::ext_equal]
pub struct OutboundModel {
    pub events: Seq<EventModel>,
    pub cap: usize,
    pub open: bool,
}

impl View for Outbound {
    type V = OutboundModel;

    closed spec fn view(&self) -> OutboundModel {
        OutboundModel {
            events: self.events@.map_values(|e: PeerEvent| e@),
            cap: self.cap,
            open: self.open,
        }
    }
}

impl Outbound {
    /// The queue never outgrows its capacity, and the capacity is positive.
    pub open spec fn wf(self) -> bool {
        &&& self@.events.len() <= self@.cap
        &&& self@.cap >= 1
    }

    /// An empty open queue of capacity `cap`.
    pub fn new(cap: usize) -> (r: Outbound)
        requires
            cap >= 1,
        ensures
            r.wf(),
            r@.events == Seq::<EventModel>::empty(),
            r@.cap == cap,
            r@.open,
    {
        let r = Outbound { events: Vec::new(), cap, open: true };
        proof {
            assert(r@.events =~= Seq::<EventModel>::empty());
        }
        r
    }

    /// Append `e`, discarding the oldest queued event first if the queue is
    /// full (drop-oldest overflow policy).
    pub fn enqueue(&mut self, e: &PeerEvent)
        requires
            old(self).wf(),
        ensures
            final(self).wf(),
            final(self)@.cap == old(self)@.cap,
            final(self)@.open == old(self)@.open,
            final(self)@.events == bounded_push(old(self)@.events, e@, old(self)@.cap),
    {
        if self.events.len() >= self.cap {
            self.events.remove(0);
            proof {
                assert(self.events@.map_values(|ev: PeerEvent| ev@) =~= old(
                    self,
                )@.events.drop_first());
            }
        }
        self.events.push(e.clone());
        proof {
            assert(self@.events =~= bounded_push(old(self)@.events, e@, old(self)@.cap));
        }
    }

    /// Take every queued event, in arrival order; the queue is empty after.
    pub fn drain(&mut self) -> (r: Vec<PeerEvent>)
        requires
            old(self).wf(),
        ensures
            final(self).wf(),
            final(self)@.cap == old(self)@.cap,
            final(self)@.open == old(self)@.open,
            final(self)@.events == Seq::<EventModel>::empty(),
            r@.map_values(|e: PeerEvent| e@) == old(self)@.events,
    {
        let r = self.events.split_off(0);
        proof {
            assert(self@.events =~= Seq::<EventModel>::empty());
            assert(r@.map_values(|e: PeerEvent| e@) =~= old(self)@.events);
        }
        r
    }

    /// Mark the channel closed: later sends to this peer soft-fail.
    pub fn close(&mut self)
        requires
            old(self).wf(),
        ensures
            final(self).wf(),
            final(self)@.cap == old(self)@.cap,
            final(self)@.events == old(self)@.events,
            !final(self)@.open,
    {
        self.open = false;
    }

    /// Whether the channel still accepts events.
    pub fn is_open(&self) -> (r: bool)
        ensures
            r == self@.open,
    {
        self.open
    }

    /// How many events wait for delivery.
    pub fn len(&self) -> (r: usize)
        ensures
            r == self@.events.len(),
    {
        self.events.len()
    }
}

} // verus!
