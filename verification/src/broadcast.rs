use vstd::prelude::*;
use crate::json::copy_range;

verus! {

// ---------------------------------------------------------------------------
// Change broadcasting
//
// A lossy fan-out: each subscriber owns a bounded ring of pending events.
// Publishing never blocks; a full ring loses its oldest event.  Subscribers
// drain their ring by polling.
// ---------------------------------------------------------------------------

/// One subscriber's pending events, oldest first.
pub struct Ring {
    pub queue: Vec<Vec<u8>>,
}

pub struct Broadcaster {
    pub capacity: usize,
    pub subscribers: Vec<Ring>,
}

/// One publish step on one ring: append the event, losing the oldest event
/// when the ring is full.
pub open spec fn ring_push(q: Seq<Seq<u8>>, ev: Seq<u8>, capacity: int) -> Seq<Seq<u8>> {
    if q.len() >= capacity {
        q.skip(1).push(ev)
    } else {
        q.push(ev)
    }
}

impl Broadcaster {
    pub open spec fn wf(&self) -> bool {
        &&& self.capacity >= 1
        &&& forall|i: int|
            0 <= i < self.subscribers@.len() ==> (#[trigger] self.subscribers@[i]).queue@.len()
                <= self.capacity
    }

    pub open spec fn ring_of(&self, s: int) -> Seq<Seq<u8>> {
        self.subscribers@[s].queue@.map(|i: int, e: Vec<u8>| e@)
    }

    pub fn new(capacity: usize) -> (r: Self)
        requires
            capacity >= 1,
        ensures
            r.wf(),
            r.capacity == capacity,
            r.subscribers@.len() == 0,
    {
        Broadcaster { capacity: capacity, subscribers: Vec::new() }
    }

    /// Attaches a new subscriber with an empty ring; returns its handle.
    pub fn subscribe(&mut self) -> (r: usize)
        requires
            old(self).wf(),
        ensures
            final(self).wf(),
            final(self).capacity == old(self).capacity,
            r == old(self).subscribers@.len(),
            final(self).subscribers@.len() == old(self).subscribers@.len() + 1,
            forall|i: int|
                0 <= i < old(self).subscribers@.len() ==> final(self).subscribers@[i] == old(
                    self,
                ).subscribers@[i],
            final(self).ring_of(old(self).subscribers@.len() as int) == Seq::<Seq<u8>>::empty(),
    {
        let r = self.subscribers.len();
        self.subscribers.push(Ring { queue: Vec::new() });
        proof {
            assert(final(self).ring_of(r as int) =~= Seq::<Seq<u8>>::empty());
        }
        r
    }

    /// Publishes one event to every subscriber, losing the oldest pending
    /// event of any ring that is full.  A subscriber whose ring has room
    /// receives exactly this one event at the tail.
    pub fn publish(&mut self, event: &Vec<u8>)
        requires
            old(self).wf(),
        ensures
            final(self).wf(),
            final(self).capacity == old(self).capacity,
            final(self).subscribers@.len() == old(self).subscribers@.len(),
            forall|s: int|
                0 <= s < old(self).subscribers@.len() ==> #[trigger] final(self).ring_of(s)
                    == ring_push(old(self).ring_of(s), event@, old(self).capacity as int),
    {
        let ghost subs0 = self.subscribers@;
        let ghost cap = self.capacity as int;
        let mut s: usize = 0;
        while s < self.subscribers.len()
            invariant
                0 <= s <= subs0.len(),
                self.capacity as int == cap,
                cap >= 1,
                self.subscribers@.len() == subs0.len(),
                forall|i: int|
                    s <= i < subs0.len() ==> #[trigger] self.subscribers@[i] == subs0[i],
                forall|i: int|
                    0 <= i < subs0.len() ==> (#[trigger] self.subscribers@[i]).queue@.len()
                        <= cap,
                forall|i: int|
                    0 <= i < s ==> (#[trigger] self.subscribers@[i]).queue@.map(
                        |k: int, e: Vec<u8>| e@,
                    ) == ring_push(subs0[i].queue@.map(|k: int, e: Vec<u8>| e@), event@, cap),
            decreases subs0.len() - s,
        {
            let ghost pre = self.subscribers@;
            let mut ring = self.subscribers.remove(s);
            let ghost rq0 = ring.queue@;
            if ring.queue.len() >= self.capacity {
                let _oldest = ring.queue.remove(0);
                proof {
                    assert(ring.queue@ =~= rq0.skip(1));
                }
            }
            let copy = copy_range(event, 0, event.len());
            proof {
                assert(copy@ =~= event@);
            }
            ring.queue.push(copy);
            self.subscribers.insert(s, ring);
            proof {
                assert(self.subscribers@ =~= pre.update(s as int, self.subscribers@[s as int]));
                let newq = self.subscribers@[s as int].queue@;
                let oldq = rq0;
                assert(newq.map(|k: int, e: Vec<u8>| e@) =~= ring_push(
                    oldq.map(|k: int, e: Vec<u8>| e@),
                    event@,
                    cap,
                )) by {
                    if oldq.len() >= cap {
                        assert(newq =~= oldq.skip(1).push(copy));
                        assert(oldq.map(|k: int, e: Vec<u8>| e@).skip(1) =~= oldq.skip(1).map(
                            |k: int, e: Vec<u8>| e@,
                        ));
                    } else {
                        assert(newq =~= oldq.push(copy));
                    }
                }
            }
            s += 1;
        }
    }

    /// Takes every pending event of one subscriber, oldest first.
    pub fn poll(&mut self, sub: usize) -> (r: Vec<Vec<u8>>)
        requires
            old(self).wf(),
            sub < old(self).subscribers@.len(),
        ensures
            final(self).wf(),
            final(self).capacity == old(self).capacity,
            final(self).subscribers@.len() == old(self).subscribers@.len(),
            r@.map(|i: int, e: Vec<u8>| e@) == old(self).ring_of(sub as int),
            final(self).ring_of(sub as int) == Seq::<Seq<u8>>::empty(),
            forall|i: int|
                0 <= i < old(self).subscribers@.len() && i != sub
                    ==> final(self).subscribers@[i] == old(self).subscribers@[i],
    {
        let ring = self.subscribers.remove(sub);
        self.subscribers.insert(sub, Ring { queue: Vec::new() });
        proof {
            assert(final(self).subscribers@ =~= old(self).subscribers@.update(
                sub as int,
                final(self).subscribers@[sub as int],
            ));
            assert(final(self).ring_of(sub as int) =~= Seq::<Seq<u8>>::empty());
        }
        ring.queue
    }
}

} // verus!
