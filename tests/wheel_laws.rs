use wheel_timer::{WheelError, WheelTimer};

#[test]
fn size_counts_scheduled_minus_returned() {
    let mut timer = WheelTimer::new(4);
    assert_eq!(timer.size(), 0);
    timer.schedule(0, 'a');
    timer.schedule(1, 'b');
    timer.schedule(1, 'c');
    assert_eq!(timer.size(), 3);
    let first = timer.tick();
    assert_eq!(first, vec!['a']);
    assert_eq!(timer.size(), 2);
    timer.schedule(2, 'd');
    assert_eq!(timer.size(), 3);
    let second = timer.tick();
    assert_eq!(second, vec!['b', 'c']);
    assert_eq!(timer.size(), 1);
}

#[test]
fn placement_returns_value_on_tick_k_plus_one() {
    let mut timer = WheelTimer::new(8);
    timer.schedule(5, 42u32);
    for _ in 0..5 {
        assert!(timer.tick().is_empty());
    }
    assert_eq!(timer.tick(), vec![42u32]);
    assert_eq!(timer.size(), 0);
}

#[test]
fn placement_from_advanced_position() {
    let mut timer = WheelTimer::new(5);
    for _ in 0..3 {
        timer.tick();
    }
    // position 3: four ticks ahead wraps to bucket 2
    timer.schedule(4, "late");
    for _ in 0..4 {
        assert!(timer.tick().is_empty());
    }
    assert_eq!(timer.tick(), vec!["late"]);
}

#[test]
fn wrap_lands_in_same_bucket_in_order() {
    let mut timer = WheelTimer::new(10);
    timer.schedule(13, "thirteen");
    timer.schedule(3, "three");
    for _ in 0..3 {
        assert!(timer.tick().is_empty());
    }
    assert_eq!(timer.tick(), vec!["thirteen", "three"]);
}

#[test]
fn wrap_with_largest_delay() {
    let mut timer = WheelTimer::new(10);
    timer.tick();
    timer.tick();
    // usize::MAX % 10 == 5, from position 2 that is bucket 7
    timer.schedule(usize::MAX, 1u8);
    for _ in 0..5 {
        assert!(timer.tick().is_empty());
    }
    assert_eq!(timer.tick(), vec![1u8]);
}

#[test]
fn fifo_within_bucket() {
    let mut timer = WheelTimer::new(3);
    timer.schedule(2, 1);
    timer.schedule(5, 2);
    timer.schedule(8, 3);
    timer.schedule(2, 4);
    timer.tick();
    timer.tick();
    assert_eq!(timer.tick(), vec![1, 2, 3, 4]);
}

#[test]
fn tick_empties_exactly_current_bucket() {
    let mut timer = WheelTimer::new(3);
    timer.schedule(0, 10);
    timer.schedule(0, 11);
    timer.schedule(1, 20);
    assert_eq!(timer.size(), 3);
    assert_eq!(timer.tick(), vec![10, 11]);
    assert_eq!(timer.size(), 1);
    timer.tick();
    timer.tick();
    // back at the first bucket, which stayed empty
    assert!(timer.tick().is_empty());
    assert_eq!(timer.size(), 0);
}

#[test]
fn full_cycle_single_payloads() {
    let mut timer = WheelTimer::new(10);
    for i in 0..10 {
        timer.schedule(i, i);
    }
    assert_eq!(timer.size(), 10);
    for i in 0..10 {
        assert_eq!(timer.tick(), vec![i]);
    }
    assert_eq!(timer.size(), 0);
}

#[test]
fn idle_ticks_keep_size_zero_and_advance() {
    let mut timer: WheelTimer<u32> = WheelTimer::new(4);
    for _ in 0..9 {
        assert!(timer.tick().is_empty());
        assert_eq!(timer.size(), 0);
    }
    // nine ticks on four buckets leave the position at bucket 1
    timer.schedule(0, 7);
    timer.schedule(3, 8);
    assert_eq!(timer.tick(), vec![7]);
    assert!(timer.tick().is_empty());
    assert!(timer.tick().is_empty());
    assert_eq!(timer.tick(), vec![8]);
}

#[test]
fn single_bucket_wheel() {
    let mut timer = WheelTimer::new(1);
    timer.schedule(0, 'x');
    timer.schedule(7, 'y');
    assert_eq!(timer.tick(), vec!['x', 'y']);
    assert!(timer.tick().is_empty());
}

#[test]
fn try_new_rejects_zero_capacity() {
    let r: Result<WheelTimer<u8>, WheelError> = WheelTimer::try_new(0);
    assert_eq!(r.err(), Some(WheelError::ZeroCapacity));
}

#[test]
fn try_new_builds_empty_wheel() {
    let mut timer: WheelTimer<u8> = WheelTimer::try_new(3).unwrap();
    assert_eq!(timer.size(), 0);
    timer.schedule(2, 9);
    assert_eq!(timer.size(), 1);
}

#[test]
fn next_steps_only_while_nonempty() {
    let mut timer = WheelTimer::new(4);
    assert_eq!(timer.next(), None);
    timer.schedule(1, 'q');
    assert_eq!(timer.next(), Some(vec![]));
    assert_eq!(timer.next(), Some(vec!['q']));
    assert_eq!(timer.next(), None);
    // a refused step does not advance: the payload below lands one tick ahead
    timer.schedule(1, 'r');
    assert!(timer.tick().is_empty());
    assert_eq!(timer.tick(), vec!['r']);
}

#[test]
fn drain_runs_until_empty() {
    let mut timer = WheelTimer::new(5);
    timer.schedule(1, 1);
    timer.schedule(3, 3);
    timer.schedule(3, 4);
    let batches = timer.drain();
    assert_eq!(batches, vec![vec![], vec![1], vec![], vec![3, 4]]);
    assert_eq!(timer.size(), 0);
}

#[test]
fn drain_on_empty_wheel_gives_nothing() {
    let mut timer: WheelTimer<i32> = WheelTimer::new(5);
    assert!(timer.drain().is_empty());
    assert_eq!(timer.size(), 0);
}

#[test]
fn drain_keeps_ticking_past_empty_buckets() {
    let mut timer = WheelTimer::new(6);
    timer.tick();
    timer.tick();
    timer.tick();
    // position 3: one tick behind the position lands at bucket 2
    timer.schedule(5, "end");
    let batches = timer.drain();
    assert_eq!(batches.len(), 6);
    assert_eq!(batches[5], vec!["end"]);
    assert!(batches[..5].iter().all(|b| b.is_empty()));
}
