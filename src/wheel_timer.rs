//! The executable timing wheel.
use vstd::arithmetic::div_mod::{
    lemma_add_mod_noop_right, lemma_mod_sub_multiples_vanish, lemma_small_mod,
};
use vstd::prelude::*;

use crate::view::{lemma_count_accounting, lemma_fresh, lemma_tick_pending, WheelView};

verus! {

/// Why a wheel could not be built.
#[derive(Debug, PartialEq, Eq, Structural)]
pub enum WheelError {
    /// A wheel needs at least one bucket.
    ZeroCapacity,
}

/// A hashed timing wheel with a fixed number of buckets.
pub struct WheelTimer<T> {
    max_interval: usize,
    current_tick: usize,
    size: usize,
    ring: Vec<Vec<T>>,
}

impl<T> View for WheelTimer<T> {
    type V = WheelView<T>;

    closed spec fn view(&self) -> WheelView<T> {
        WheelView {
            buckets: self.ring@.map_values(|b: Vec<T>| b@),
            current: self.current_tick as nat,
        }
    }
}

impl<T> WheelTimer<T> {
    /// The fields agree with one another and with the model: the ring has
    /// `max_interval` buckets, the position lies inside it, and `size`
    /// counts the payloads held.
    pub closed spec fn wf(&self) -> bool {
        &&& self.max_interval == self.ring.len()
        &&& self@.wf()
        &&& self.size == self@.count()
    }

    /// Creates a wheel of `max_interval` empty buckets, positioned at the first.
    /// A wheel needs at least one bucket; `try_new` reports a zero capacity
    /// instead of demanding that it cannot occur.
    pub fn new(max_interval: usize) -> (w: WheelTimer<T>)
        requires
            max_interval > 0,
        ensures
            w.wf(),
            w@ == WheelView::<T>::fresh(max_interval as nat),
            w@.count() == 0,
    {
        let mut ring: Vec<Vec<T>> = Vec::with_capacity(max_interval);
        let mut i: usize = 0;
        while i < max_interval
            invariant
                i <= max_interval,
                ring.len() == i,
                forall|j: int| 0 <= j < i ==> (#[trigger] ring@[j])@.len() == 0,
            decreases max_interval - i,
        {
            ring.push(Vec::new());
            i = i + 1;
        }
        let w = WheelTimer { max_interval, current_tick: 0, ring, size: 0 };
        proof {
            lemma_fresh::<T>(max_interval as nat);
            assert forall|j: int| 0 <= j < max_interval implies #[trigger] w@.buckets[j]
                =~= Seq::<T>::empty() by {
                assert(ring@[j]@.len() == 0);
            }
            assert(w@.buckets =~= WheelView::<T>::fresh(max_interval as nat).buckets);
        }
        w
    }

    /// Creates a wheel of `capacity` empty buckets, or reports a capacity of zero.
    pub fn try_new(capacity: usize) -> (r: Result<WheelTimer<T>, WheelError>)
        ensures
            capacity == 0 <==> r is Err,
            r is Err ==> r->Err_0 == WheelError::ZeroCapacity,
            r is Ok ==> r->Ok_0.wf() && r->Ok_0@ == WheelView::<T>::fresh(capacity as nat),
    {
        if capacity == 0 {
            Err(WheelError::ZeroCapacity)
        } else {
            Ok(WheelTimer::new(capacity))
        }
    }

    /// The number of payloads currently scheduled.
    pub fn size(&self) -> (r: usize)
        requires
            self.wf(),
        ensures
            r == self@.count(),
    {
        self.size
    }

    /// Appends `value` to the bucket `ticks` ticks ahead of the current one,
    /// wrapping round the ring.
    pub fn schedule(&mut self, ticks: usize, value: T)
        requires
            old(self).wf(),
            old(self)@.count() < usize::MAX,
        ensures
            final(self).wf(),
            final(self)@ == old(self)@.scheduled(ticks as nat, value),
            final(self)@.count() == old(self)@.count() + 1,
    {
        let ghost v = self@;
        let m = self.max_interval;
        let cur = self.current_tick;
        let r = ticks % m;
        let index = if r < m - cur { cur + r } else { r - (m - cur) };
        proof {
            lemma_add_mod_noop_right(cur as int, ticks as int, m as int);
            if r < m - cur {
                lemma_small_mod((cur + r) as nat, m as nat);
            } else {
                lemma_mod_sub_multiples_vanish((cur + r) as int, m as int);
                lemma_small_mod((cur + r - m) as nat, m as nat);
            }
            assert(index == v.slot(ticks as nat));
            lemma_count_accounting(v, ticks as nat, value);
        }
        self.ring[index].push(value);
        self.size = self.size + 1;
        proof {
            assert(self@.buckets =~= v.scheduled(ticks as nat, value).buckets);
        }
    }

    /// Removes and returns the whole current bucket, in insertion order, and
    /// advances to the next bucket.
    pub fn tick(&mut self) -> (r: Vec<T>)
        requires
            old(self).wf(),
        ensures
            final(self).wf(),
            r@ == old(self)@.due(),
            final(self)@ == old(self)@.ticked(),
            final(self)@.buckets[old(self)@.current as int] == Seq::<T>::empty(),
            final(self)@.count() == old(self)@.count() - r@.len(),
    {
        let ghost v = self@;
        proof {
            lemma_count_accounting(v, 0, arbitrary());
        }
        let mut node: Vec<T> = Vec::new();
        std::mem::swap(&mut node, &mut self.ring[self.current_tick]);
        let cur = self.current_tick;
        self.current_tick = if cur + 1 == self.max_interval { 0 } else { cur + 1 };
        self.size = self.size - node.len();
        proof {
            if cur + 1 < self.max_interval {
                lemma_small_mod((cur + 1) as nat, self.max_interval as nat);
            } else {
                lemma_mod_sub_multiples_vanish(self.max_interval as int, self.max_interval as int);
                lemma_small_mod(0, self.max_interval as nat);
            }
            assert(self@.buckets =~= v.ticked().buckets);
        }
        node
    }

    /// One step of draining: while anything is scheduled, ticks once and
    /// returns what that tick handed back; on an empty wheel, does nothing.
    pub fn next(&mut self) -> (r: Option<Vec<T>>)
        requires
            old(self).wf(),
        ensures
            final(self).wf(),
            old(self)@.count() == 0 ==> r is None && final(self)@ == old(self)@,
            old(self)@.count() > 0 ==> r is Some && r->Some_0@ == old(self)@.due()
                && final(self)@ == old(self)@.ticked(),
    {
        if self.size() > 0 {
            Some(self.tick())
        } else {
            None
        }
    }

    /// Ticks until the wheel is empty and returns what each tick handed back,
    /// in order: a tick is taken only while something is scheduled, so the
    /// last batch is the one that empties the wheel, and an empty wheel gives
    /// no batch at all.
    pub fn drain(&mut self) -> (r: Vec<Vec<T>>)
        requires
            old(self).wf(),
        ensures
            final(self).wf(),
            final(self)@.count() == 0,
            final(self)@ == old(self)@.advanced(r.len() as nat),
            forall|i: int|
                0 <= i < r.len() ==> (#[trigger] r@[i])@ == old(self)@.advanced(i as nat).due(),
            forall|i: nat| i < r.len() ==> (#[trigger] old(self)@.advanced(i)).count() > 0,
    {
        let ghost v = self@;
        let mut batches: Vec<Vec<T>> = Vec::new();
        loop
            invariant
                self.wf(),
                self@ == v.advanced(batches.len() as nat),
                forall|i: int|
                    0 <= i < batches.len() ==> (#[trigger] batches@[i])@ == v.advanced(
                        i as nat,
                    ).due(),
                forall|i: nat| i < batches.len() ==> (#[trigger] v.advanced(i)).count() > 0,
            ensures
                self.wf(),
                self@ == v.advanced(batches.len() as nat),
                self@.count() == 0,
                forall|i: int|
                    0 <= i < batches.len() ==> (#[trigger] batches@[i])@ == v.advanced(
                        i as nat,
                    ).due(),
                forall|i: nat| i < batches.len() ==> (#[trigger] v.advanced(i)).count() > 0,
            decreases self@.pending(),
        {
            let ghost before = self@;
            proof {
                lemma_tick_pending(before);
            }
            match self.next() {
                Some(batch) => {
                    batches.push(batch);
                    assert(v.advanced(batches.len() as nat) == before.ticked());
                },
                None => {
                    break;
                },
            }
        }
        batches
    }
}

} // verus!
