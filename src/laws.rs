//! Laws of the timing wheel that relate several operations, stated and
//! proved over the model.
use vstd::arithmetic::div_mod::lemma_add_mod_noop_right;
use vstd::prelude::*;

use crate::view::{
    lemma_advanced_position, lemma_count_accounting, lemma_slot_within_revolution, WheelView,
};

verus! {

/// One operation on a wheel, as the model sees it.
pub enum WheelOp<T> {
    /// Schedule `value` for `ticks` ticks ahead.
    Schedule { ticks: nat, value: T },
    /// Advance one tick, draining the current bucket.
    Tick,
}

/// The number of schedule operations in `ops`.
pub open spec fn schedules<T>(ops: Seq<WheelOp<T>>) -> nat
    decreases ops.len(),
{
    if ops.len() == 0 {
        0
    } else {
        schedules(ops.drop_last()) + if ops.last() is Schedule {
            1nat
        } else {
            0nat
        }
    }
}

impl<T> WheelView<T> {
    /// The wheel after one operation.
    pub open spec fn apply(self, op: WheelOp<T>) -> Self {
        match op {
            WheelOp::Schedule { ticks, value } => self.scheduled(ticks, value),
            WheelOp::Tick => self.ticked(),
        }
    }

    /// The wheel after the operations `ops`, in order.
    pub open spec fn run(self, ops: Seq<WheelOp<T>>) -> Self
        decreases ops.len(),
    {
        if ops.len() == 0 {
            self
        } else {
            self.run(ops.drop_last()).apply(ops.last())
        }
    }

    /// How many payloads the ticks among `ops` hand back, run from this wheel.
    pub open spec fn returned(self, ops: Seq<WheelOp<T>>) -> nat
        decreases ops.len(),
    {
        if ops.len() == 0 {
            0
        } else {
            self.returned(ops.drop_last()) + if ops.last() is Tick {
                self.run(ops.drop_last()).due().len()
            } else {
                0nat
            }
        }
    }
}

/// Size accounting: after any sequence of operations, the payloads resident
/// in the wheel are those it held before plus those scheduled, less those
/// that ticks handed back; from a fresh wheel, the scheduled ones not yet
/// returned.
pub proof fn lemma_size_accounting<T>(v: WheelView<T>, ops: Seq<WheelOp<T>>)
    requires
        v.wf(),
    ensures
        v.run(ops).wf(),
        v.run(ops).capacity() == v.capacity(),
        v.run(ops).count() + v.returned(ops) == v.count() + schedules(ops),
    decreases ops.len(),
{
    if ops.len() > 0 {
        let p = ops.drop_last();
        lemma_size_accounting(v, p);
        match ops.last() {
            WheelOp::Schedule { ticks, value } => lemma_count_accounting(v.run(p), ticks, value),
            WheelOp::Tick => lemma_count_accounting(v.run(p), 0, arbitrary()),
        }
    }
}

/// Wrap-around: a delay of `ticks` lands in the same bucket as a delay of
/// `ticks` modulo the capacity, so scheduling with either gives the same wheel.
pub proof fn lemma_schedule_wraps<T>(v: WheelView<T>, ticks: nat, value: T)
    requires
        v.wf(),
    ensures
        v.slot(ticks) == v.slot(ticks % v.capacity()),
        v.scheduled(ticks, value) == v.scheduled(ticks % v.capacity(), value),
{
    lemma_add_mod_noop_right(v.current as int, ticks as int, v.capacity() as int);
}

/// First in, first out: payloads scheduled one after another into the same
/// bucket follow that bucket's earlier contents in the order they were
/// scheduled; no other bucket and not the position change.
pub proof fn lemma_bucket_fifo<T>(v: WheelView<T>, ticks: Seq<nat>, values: Seq<T>, target: nat)
    requires
        v.wf(),
        ticks.len() == values.len(),
        forall|i: int| 0 <= i < ticks.len() ==> v.slot(#[trigger] ticks[i]) == target,
        target < v.capacity(),
    ensures
        v.scheduled_all(ticks, values).wf(),
        v.scheduled_all(ticks, values).capacity() == v.capacity(),
        v.scheduled_all(ticks, values).current == v.current,
        v.scheduled_all(ticks, values).buckets[target as int] == v.buckets[target as int] + values,
        forall|i: int|
            0 <= i < v.capacity() && i != target ==> v.scheduled_all(ticks, values).buckets[i]
                == v.buckets[i],
    decreases values.len(),
{
    let w = v.scheduled_all(ticks, values);
    if values.len() == 0 {
        assert(v.buckets[target as int] + values =~= v.buckets[target as int]);
    } else {
        let t = ticks.drop_last();
        let s = values.drop_last();
        lemma_bucket_fifo(v, t, s, target);
        let u = v.scheduled_all(t, s);
        assert(v.slot(ticks[ticks.len() - 1]) == target);
        assert(u.slot(ticks.last()) == target);
        assert(w.buckets[target as int] =~= v.buckets[target as int] + values);
    }
}

/// The bucket `j` ahead of the position is untouched by the first `n` ticks,
/// as long as `n <= j` and `j` stays within one revolution.
pub proof fn lemma_unvisited_buckets_kept<T>(v: WheelView<T>, n: nat, j: nat)
    requires
        v.wf(),
        n <= j < v.capacity(),
    ensures
        v.advanced(n).buckets[v.slot(j) as int] == v.buckets[v.slot(j) as int],
    decreases n,
{
    if n > 0 {
        let a = v.advanced((n - 1) as nat);
        lemma_unvisited_buckets_kept(v, (n - 1) as nat, j);
        lemma_advanced_position(v, (n - 1) as nat);
        lemma_slot_within_revolution(v, (n - 1) as nat);
        lemma_slot_within_revolution(v, j);
        assert(a.current != v.slot(j));
    }
}

/// Placement: on a wheel whose buckets 0 to `k` ahead are empty, a payload
/// scheduled `k` ticks ahead (with `k` below the capacity) comes back alone
/// from tick `k + 1`, and each of the `k` ticks before it returns nothing.
pub proof fn lemma_placement<T>(v: WheelView<T>, k: nat, value: T)
    requires
        v.wf(),
        k < v.capacity(),
        forall|j: nat| j <= k ==> (#[trigger] v.buckets[v.slot(j) as int]).len() == 0,
    ensures
        forall|j: nat| j < k ==> (#[trigger] v.scheduled(k, value).advanced(j)).due().len() == 0,
        v.scheduled(k, value).advanced(k).due() == seq![value],
{
    let w = v.scheduled(k, value);
    lemma_slot_within_revolution(v, k);
    assert forall|j: nat| j <= k implies (#[trigger] w.advanced(j)).due() == if j == k {
        seq![value]
    } else {
        Seq::<T>::empty()
    } by {
        lemma_advanced_position(w, j);
        lemma_unvisited_buckets_kept(w, j, j);
        lemma_slot_within_revolution(v, j);
        assert(w.slot(j) == v.slot(j));
        assert(v.buckets[v.slot(j) as int].len() == 0);
        if j == k {
            assert(w.buckets[v.slot(k) as int] =~= seq![value]);
        } else {
            assert(w.buckets[v.slot(j) as int] =~= Seq::<T>::empty());
        }
    }
    assert(w.advanced(k).due() == seq![value]);
}

/// Ticks on an empty wheel: any number of them leaves it empty, each returns
/// nothing, and the position still moves one bucket per tick.
pub proof fn lemma_idle_ticks<T>(v: WheelView<T>, n: nat)
    requires
        v.wf(),
        v.count() == 0,
    ensures
        v.advanced(n).count() == 0,
        v.advanced(n).due().len() == 0,
        v.advanced(n).current == v.slot(n),
    decreases n,
{
    lemma_advanced_position(v, n);
    if n > 0 {
        let a = v.advanced((n - 1) as nat);
        lemma_idle_ticks(v, (n - 1) as nat);
        lemma_advanced_position(v, (n - 1) as nat);
        lemma_count_accounting(a, 0, arbitrary());
    }
    lemma_count_accounting(v.advanced(n), 0, arbitrary());
}

} // verus!
