//! A bounded history of read latencies.

use std::collections::VecDeque;
use vstd::prelude::*;

verus! {

/// The number of samples that a ring keeps.
pub const RING_CAPACITY: usize = 2500;

/// What a ring holds after `sample` is recorded into one that holds `samples`:
/// the new sample goes to the back, and the oldest one leaves when the ring is
/// full.
pub open spec fn ring_push(samples: Seq<(u64, u64)>, sample: (u64, u64)) -> Seq<(u64, u64)> {
    if samples.len() < RING_CAPACITY {
        samples.push(sample)
    } else {
        samples.drop_first().push(sample)
    }
}

/// What an empty ring holds after every sample of `history` has been recorded
/// in order.
pub open spec fn ring_fill(history: Seq<(u64, u64)>) -> Seq<(u64, u64)>
    decreases history.len(),
{
    if history.len() == 0 {
        Seq::empty()
    } else {
        ring_push(ring_fill(history.drop_last()), history.last())
    }
}

/// The most recent `(timestamp, duration)` samples of a collection, oldest
/// first.
pub struct LatencyRing {
    samples: VecDeque<(u64, u64)>,
}

impl View for LatencyRing {
    type V = Seq<(u64, u64)>;

    closed spec fn view(&self) -> Seq<(u64, u64)> {
        self.samples@
    }
}

impl LatencyRing {
    /// A ring never holds more than `RING_CAPACITY` samples.
    pub open spec fn wf(&self) -> bool {
        self@.len() <= RING_CAPACITY
    }

    /// An empty ring.
    pub fn new() -> (ring: Self)
        ensures
            ring.wf(),
            ring@ == Seq::<(u64, u64)>::empty(),
    {
        LatencyRing { samples: VecDeque::new() }
    }

    /// Records one sample, evicting the oldest one if the ring is full.
    pub fn record(&mut self, timestamp: u64, duration: u64)
        requires
            old(self).wf(),
        ensures
            final(self).wf(),
            final(self)@ == ring_push(old(self)@, (timestamp, duration)),
    {
        self.samples.push_back((timestamp, duration));
        if self.samples.len() > RING_CAPACITY {
            let _ = self.samples.pop_front();
        }
        proof {
            let before = old(self)@;
            if before.len() >= RING_CAPACITY {
                assert(before.push((timestamp, duration)).drop_first() =~= before.drop_first().push(
                    (timestamp, duration),
                ));
            }
        }
    }

    /// The number of samples held.
    pub fn len(&self) -> (n: usize)
        ensures
            n == self@.len(),
    {
        self.samples.len()
    }

    /// All samples held, oldest first.
    pub fn snapshot(&self) -> (out: Vec<(u64, u64)>)
        ensures
            out@ == self@,
    {
        let mut out: Vec<(u64, u64)> = Vec::new();
        let mut i: usize = 0;
        while i < self.samples.len()
            invariant
                i <= self.samples@.len(),
                out@ == self.samples@.subrange(0, i as int),
            decreases self.samples@.len() - i,
        {
            out.push(self.samples[i]);
            proof {
                assert(self.samples@.subrange(0, i as int).push(self.samples@[i as int])
                    =~= self.samples@.subrange(0, i + 1));
            }
            i += 1;
        }
        proof {
            assert(self.samples@.subrange(0, i as int) =~= self.samples@);
        }
        out
    }
}

/// The tail of `history` that a ring keeps: its last `RING_CAPACITY` samples,
/// or all of them if there are fewer.
pub open spec fn ring_tail(history: Seq<(u64, u64)>) -> Seq<(u64, u64)> {
    if history.len() <= RING_CAPACITY {
        history
    } else {
        history.subrange(history.len() - RING_CAPACITY, history.len() as int)
    }
}

/// Recording any history into an empty ring leaves exactly its most recent
/// `RING_CAPACITY` samples, oldest first.
pub proof fn lemma_ring_keeps_most_recent(history: Seq<(u64, u64)>)
    ensures
        ring_fill(history) == ring_tail(history),
    decreases history.len(),
{
    if history.len() > 0 {
        let earlier = history.drop_last();
        lemma_ring_keeps_most_recent(earlier);
        assert(ring_push(ring_tail(earlier), history.last()) =~= ring_tail(history));
    }
}

} // verus!
