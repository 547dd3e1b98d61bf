use crdt_lib::clock::{LamportClock, LamportTimestamp};

#[test]
fn tick_is_monotonic() {
    let mut c = LamportClock::new(1);
    let t1 = c.tick();
    let t2 = c.tick();
    assert!(t2 > t1);
}

#[test]
fn observe_advances_beyond_seen_value() {
    let mut c = LamportClock::new(1);
    let t = c.observe(42);
    assert!(t.counter > 42);
}

#[test]
fn observe_with_lower_value_still_advances() {
    let mut c = LamportClock::new(1);
    c.tick(); // counter = 1
    c.tick(); // counter = 2
    let t = c.observe(0); // counter = max(2, 0) + 1 = 3
    assert_eq!(t.counter, 3);
}

#[test]
fn timestamps_have_total_order_via_replica_tiebreak() {
    let a = LamportTimestamp::new(5, 1);
    let b = LamportTimestamp::new(5, 2);
    assert!(b > a);
}

#[test]
fn counter_dominates_replica_in_ordering() {
    let a = LamportTimestamp::new(10, 1); // higher counter
    let b = LamportTimestamp::new(5, 99); // higher replica, lower counter
    assert!(a > b);
}

#[test]
fn tick_yields_exact_timestamps() {
    let mut c = LamportClock::new(7);
    assert_eq!(c.current(), 0);
    assert_eq!(c.tick(), LamportTimestamp::new(1, 7));
    assert_eq!(c.tick(), LamportTimestamp::new(2, 7));
    assert_eq!(c.current(), 2);
}

#[test]
fn observe_jumps_past_higher_value() {
    let mut c = LamportClock::new(3);
    c.tick();
    let t = c.observe(10);
    assert_eq!(t, LamportTimestamp::new(11, 3));
    assert_eq!(c.current(), 11);
    // The next local event is later than both.
    assert!(c.tick() > t);
}

#[test]
fn clock_saturates_at_max() {
    let mut c = LamportClock::new(1);
    let t = c.observe(u64::MAX);
    assert_eq!(t.counter, u64::MAX);
    let t2 = c.tick();
    assert_eq!(t2.counter, u64::MAX);
    assert_eq!(c.current(), u64::MAX);
}

#[test]
fn is_before_matches_the_derived_order() {
    let pairs = [
        (LamportTimestamp::new(1, 1), LamportTimestamp::new(2, 0)),
        (LamportTimestamp::new(2, 0), LamportTimestamp::new(1, 1)),
        (LamportTimestamp::new(5, 1), LamportTimestamp::new(5, 2)),
        (LamportTimestamp::new(5, 2), LamportTimestamp::new(5, 2)),
    ];
    for (a, b) in pairs {
        assert_eq!(a.is_before(&b), a < b);
    }
    assert!(LamportTimestamp::new(5, 1).is_before(&LamportTimestamp::new(5, 2)));
    assert!(!LamportTimestamp::new(5, 2).is_before(&LamportTimestamp::new(5, 2)));
}

#[test]
fn timestamp_order_is_total_on_examples() {
    let a = LamportTimestamp::new(1, 2);
    let b = LamportTimestamp::new(1, 3);
    let c = LamportTimestamp::new(2, 0);
    assert!(!a.is_before(&a));
    assert!(a.is_before(&b) && b.is_before(&c) && a.is_before(&c));
    assert!(a.is_before(&c) || c.is_before(&a));
}
