//! The mathematical model of a timing wheel: a ring of buckets, each an
//! ordered sequence of payloads, and the position of the current bucket.
use vstd::arithmetic::div_mod::{
    lemma_add_mod_noop_right, lemma_mod_sub_multiples_vanish, lemma_small_mod,
};
use vstd::prelude::*;

verus! {

/// The number of payloads held across all buckets.
pub open spec fn total_len<T>(buckets: Seq<Seq<T>>) -> nat
    decreases buckets.len(),
{
    if buckets.len() == 0 {
        0
    } else {
        total_len(buckets.drop_last()) + buckets.last().len()
    }
}

/// Replacing one bucket changes the total by the difference of the two lengths.
pub proof fn lemma_total_len_update<T>(buckets: Seq<Seq<T>>, i: int, b: Seq<T>)
    requires
        0 <= i < buckets.len(),
    ensures
        buckets[i].len() <= total_len(buckets),
        total_len(buckets.update(i, b)) == total_len(buckets) - buckets[i].len() + b.len(),
    decreases buckets.len(),
{
    let u = buckets.update(i, b);
    if i == buckets.len() - 1 {
        assert(u.drop_last() =~= buckets.drop_last());
    } else {
        assert(u.drop_last() =~= buckets.drop_last().update(i, b));
        lemma_total_len_update(buckets.drop_last(), i, b);
    }
}

/// A ring whose buckets are all empty holds nothing.
pub proof fn lemma_total_len_all_empty<T>(buckets: Seq<Seq<T>>)
    requires
        forall|i: int| 0 <= i < buckets.len() ==> #[trigger] buckets[i].len() == 0,
    ensures
        total_len(buckets) == 0,
    decreases buckets.len(),
{
    if buckets.len() > 0 {
        lemma_total_len_all_empty(buckets.drop_last());
    }
}

/// The abstract state of a wheel.
pub struct WheelView<T> {
    /// The ring, bucket by bucket; each bucket in insertion order.
    pub buckets: Seq<Seq<T>>,
    /// The index of the bucket that the next tick drains.
    pub current: nat,
}

impl<T> WheelView<T> {
    /// A fresh wheel: `capacity` empty buckets, positioned at the first.
    pub open spec fn fresh(capacity: nat) -> Self {
        WheelView { buckets: Seq::new(capacity, |i: int| Seq::<T>::empty()), current: 0 }
    }

    pub open spec fn capacity(self) -> nat {
        self.buckets.len()
    }

    /// At least one bucket, and the current position inside the ring.
    pub open spec fn wf(self) -> bool {
        self.buckets.len() > 0 && self.current < self.buckets.len()
    }

    /// The number of payloads resident in the wheel.
    pub open spec fn count(self) -> nat {
        total_len(self.buckets)
    }

    /// The bucket that lies `ticks` ticks ahead of the current one.
    pub open spec fn slot(self, ticks: nat) -> nat {
        (self.current + ticks) % self.capacity()
    }

    /// The wheel after `value` is appended to the bucket `ticks` ahead.
    pub open spec fn scheduled(self, ticks: nat, value: T) -> Self {
        let i = self.slot(ticks) as int;
        WheelView { buckets: self.buckets.update(i, self.buckets[i].push(value)), current: self.current }
    }

    /// What the next tick hands back: the whole current bucket.
    pub open spec fn due(self) -> Seq<T> {
        self.buckets[self.current as int]
    }

    /// The wheel after one tick: the current bucket emptied, the position advanced.
    pub open spec fn ticked(self) -> Self {
        WheelView { buckets: self.buckets.update(self.current as int, Seq::empty()), current: self.slot(1) }
    }

    /// The wheel after `values[i]` is scheduled `ticks[i]` ahead, for each `i` in order.
    pub open spec fn scheduled_all(self, ticks: Seq<nat>, values: Seq<T>) -> Self
        decreases values.len(),
    {
        if values.len() == 0 || ticks.len() != values.len() {
            self
        } else {
            self.scheduled_all(ticks.drop_last(), values.drop_last()).scheduled(
                ticks.last(),
                values.last(),
            )
        }
    }

    /// How many ticks from now bucket `i` is drained.
    pub open spec fn ahead(self, i: int) -> nat {
        if i >= self.current {
            (i - self.current) as nat
        } else {
            (i + self.capacity() - self.current) as nat
        }
    }

    /// The payloads of the first `n` buckets, each weighted by the number of
    /// ticks it still has to wait, counting the tick that drains it.
    pub open spec fn weighted(self, n: nat) -> nat
        decreases n,
    {
        if n == 0 {
            0
        } else {
            self.weighted((n - 1) as nat) + self.buckets[n - 1].len() * (self.ahead(n - 1) + 1)
        }
    }

    /// The ticks still owed to every resident payload, summed: each tick
    /// lowers it by the number of resident payloads.
    pub open spec fn pending(self) -> nat {
        self.weighted(self.capacity())
    }

    /// The wheel after `n` ticks.
    pub open spec fn advanced(self, n: nat) -> Self
        decreases n,
    {
        if n == 0 {
            self
        } else {
            self.advanced((n - 1) as nat).ticked()
        }
    }
}

/// Scheduling adds exactly one payload, and a tick removes exactly those it
/// hands back; both keep the wheel well formed.
pub proof fn lemma_count_accounting<T>(v: WheelView<T>, ticks: nat, value: T)
    requires
        v.wf(),
    ensures
        v.scheduled(ticks, value).wf(),
        v.scheduled(ticks, value).count() == v.count() + 1,
        v.ticked().wf(),
        v.due().len() <= v.count(),
        v.ticked().count() == v.count() - v.due().len(),
{
    let i = v.slot(ticks) as int;
    lemma_total_len_update(v.buckets, i, v.buckets[i].push(value));
    lemma_total_len_update(v.buckets, v.current as int, Seq::empty());
}

/// The number of payloads in the first `n` buckets.
pub open spec fn prefix_len<T>(buckets: Seq<Seq<T>>, n: nat) -> nat
    decreases n,
{
    if n == 0 {
        0
    } else {
        prefix_len(buckets, (n - 1) as nat) + buckets[n - 1].len()
    }
}

/// Two rings that agree on their first `n` buckets hold as many payloads there.
proof fn lemma_prefix_len_agree<T>(a: Seq<Seq<T>>, b: Seq<Seq<T>>, n: nat)
    requires
        n <= a.len(),
        n <= b.len(),
        forall|i: int| 0 <= i < n ==> a[i] == b[i],
    ensures
        prefix_len(a, n) == prefix_len(b, n),
    decreases n,
{
    if n > 0 {
        lemma_prefix_len_agree(a, b, (n - 1) as nat);
    }
}

/// Counting the whole ring bucket by bucket gives the total.
proof fn lemma_prefix_len_total<T>(buckets: Seq<Seq<T>>)
    ensures
        prefix_len(buckets, buckets.len()) == total_len(buckets),
    decreases buckets.len(),
{
    if buckets.len() > 0 {
        let p = buckets.drop_last();
        lemma_prefix_len_total(p);
        lemma_prefix_len_agree(buckets, p, p.len());
    }
}

/// Within one revolution, the bucket `ticks` ahead is found without wrapping
/// more than once.
pub proof fn lemma_slot_within_revolution<T>(v: WheelView<T>, ticks: nat)
    requires
        v.wf(),
        ticks <= v.capacity(),
    ensures
        v.slot(ticks) == if v.current + ticks < v.capacity() {
            v.current + ticks
        } else {
            (v.current + ticks - v.capacity()) as nat
        },
{
    let m = v.capacity();
    if v.current + ticks < m {
        lemma_small_mod((v.current + ticks) as nat, m);
    } else {
        lemma_mod_sub_multiples_vanish((v.current + ticks) as int, m as int);
        lemma_small_mod((v.current + ticks - m) as nat, m);
    }
}

/// After `n` ticks the wheel is still well formed, has as many buckets, and
/// stands `n` buckets further round the ring.
pub proof fn lemma_advanced_position<T>(v: WheelView<T>, n: nat)
    requires
        v.wf(),
    ensures
        v.advanced(n).wf(),
        v.advanced(n).capacity() == v.capacity(),
        v.advanced(n).current == v.slot(n),
    decreases n,
{
    let m = v.capacity() as int;
    if n == 0 {
        lemma_small_mod(v.current, v.capacity());
    } else {
        let a = v.advanced((n - 1) as nat);
        lemma_advanced_position(v, (n - 1) as nat);
        lemma_count_accounting(a, 0, arbitrary());
        lemma_add_mod_noop_right(1, v.current + n - 1, m);
    }
}

/// One tick lowers the weight of the first `n` buckets by the number of
/// payloads in them.
proof fn lemma_tick_weighted<T>(v: WheelView<T>, n: nat)
    requires
        v.wf(),
        n <= v.capacity(),
    ensures
        v.ticked().weighted(n) + prefix_len(v.buckets, n) == v.weighted(n),
    decreases n,
{
    if n > 0 {
        lemma_tick_weighted(v, (n - 1) as nat);
        lemma_slot_within_revolution(v, 1);
        let i = n - 1;
        let w = v.ticked();
        let l = v.buckets[i].len() as int;
        let a = w.ahead(i) as int;
        if i != v.current {
            assert(w.buckets[i].len() == l);
            assert(a + 1 == v.ahead(i));
            let b = v.ahead(i) as int;
            assert(l * (a + 1) + l == l * (b + 1)) by (nonlinear_arith)
                requires
                    a + 1 == b,
            ;
        } else {
            assert(w.buckets[i].len() == 0);
            assert(v.ahead(i) == 0);
        }
    }
}

/// A tick lowers the pending weight by the number of resident payloads, so a
/// tick on a wheel that holds anything lowers it.
pub proof fn lemma_tick_pending<T>(v: WheelView<T>)
    requires
        v.wf(),
    ensures
        v.ticked().pending() + v.count() == v.pending(),
{
    lemma_tick_weighted(v, v.capacity());
    lemma_prefix_len_total(v.buckets);
}

/// A fresh wheel is well formed and empty.
pub proof fn lemma_fresh<T>(capacity: nat)
    requires
        capacity > 0,
    ensures
        WheelView::<T>::fresh(capacity).wf(),
        WheelView::<T>::fresh(capacity).count() == 0,
{
    lemma_total_len_all_empty(WheelView::<T>::fresh(capacity).buckets);
}

} // verus!
