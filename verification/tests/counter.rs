use crdt_lib::counter::{GCounter, PNCounter};
use crdt_lib::Crdt;

#[test]
fn g_counter_starts_at_zero() {
    let c = GCounter::new();
    assert_eq!(c.value(), 0);
}

#[test]
fn g_counter_increments_locally() {
    let mut c = GCounter::new();
    c.increment(1, 5);
    c.increment(1, 3);
    assert_eq!(c.value(), 8);
}

#[test]
fn g_counter_tracks_replicas_separately() {
    let mut c = GCounter::new();
    c.increment(1, 5);
    c.increment(2, 3);
    assert_eq!(c.value_for(1), 5);
    assert_eq!(c.value_for(2), 3);
    assert_eq!(c.value(), 8);
}

#[test]
fn g_counter_merges_disjoint_replicas() {
    let mut a = GCounter::new();
    let mut b = GCounter::new();
    a.increment(1, 3);
    b.increment(2, 5);
    a.merge(&b);
    assert_eq!(a.value(), 8);
}

#[test]
fn g_counter_merge_takes_max_per_replica() {
    let mut a = GCounter::new();
    let mut b = GCounter::new();
    a.increment(1, 3);
    b.increment(1, 7);
    a.merge(&b);
    assert_eq!(a.value(), 7);
}

#[test]
fn g_counter_merge_is_idempotent() {
    let mut a = GCounter::new();
    a.increment(1, 5);
    let snapshot = a.clone();
    a.merge(&snapshot);
    assert_eq!(a, snapshot);
}

#[test]
fn pn_counter_supports_decrement() {
    let mut c = PNCounter::new();
    c.increment(1, 10);
    c.decrement(1, 3);
    assert_eq!(c.value(), 7);
}

#[test]
fn pn_counter_can_go_negative() {
    let mut c = PNCounter::new();
    c.decrement(1, 5);
    assert_eq!(c.value(), -5);
}

#[test]
fn pn_counter_merges_correctly() {
    let mut a = PNCounter::new();
    let mut b = PNCounter::new();
    a.increment(1, 10);
    a.decrement(1, 2);
    b.increment(2, 5);
    b.decrement(2, 1);
    a.merge(&b);
    assert_eq!(a.value(), 12);
}

#[test]
fn g_counter_unknown_replica_counts_zero() {
    let mut c = GCounter::new();
    c.increment(4, 2);
    assert_eq!(c.value_for(9), 0);
}

#[test]
fn g_counter_increment_saturates() {
    let mut c = GCounter::new();
    c.increment(1, u64::MAX - 1);
    c.increment(1, 5);
    assert_eq!(c.value_for(1), u64::MAX);
    assert_eq!(c.value(), u64::MAX);
}

fn sample(pairs: &[(u64, u64)]) -> GCounter {
    let mut c = GCounter::new();
    for &(r, n) in pairs {
        c.increment(r, n);
    }
    c
}

#[test]
fn g_counter_merge_commutes_on_example() {
    let a = sample(&[(1, 3), (2, 1)]);
    let b = sample(&[(1, 1), (3, 4)]);
    let mut ab = a.clone();
    ab.merge(&b);
    let mut ba = b.clone();
    ba.merge(&a);
    assert_eq!(ab, ba);
    assert_eq!(ab.value_for(1), 3);
    assert_eq!(ab.value_for(2), 1);
    assert_eq!(ab.value_for(3), 4);
    assert_eq!(ab.value(), 8);
}

#[test]
fn g_counter_merge_associates_on_example() {
    let a = sample(&[(1, 3)]);
    let b = sample(&[(1, 5), (2, 2)]);
    let c = sample(&[(2, 7), (3, 1)]);
    let mut left = a.clone();
    left.merge(&b);
    left.merge(&c);
    let mut bc = b.clone();
    bc.merge(&c);
    let mut right = a.clone();
    right.merge(&bc);
    assert_eq!(left, right);
    assert_eq!(left.value(), 13);
}

#[test]
fn g_counter_merge_never_lowers_a_count() {
    let a = sample(&[(1, 9), (2, 1)]);
    let b = sample(&[(1, 2), (2, 6)]);
    let mut m = a.clone();
    m.merge(&b);
    assert!(m.value_for(1) >= a.value_for(1) && m.value_for(1) >= b.value_for(1));
    assert!(m.value_for(2) >= a.value_for(2) && m.value_for(2) >= b.value_for(2));
}

#[test]
fn pn_counter_merge_commutes_and_is_idempotent() {
    let mut a = PNCounter::new();
    a.increment(1, 4);
    a.decrement(2, 6);
    let mut b = PNCounter::new();
    b.increment(1, 1);
    b.increment(3, 2);
    b.decrement(2, 9);
    let mut ab = a.clone();
    ab.merge(&b);
    let mut ba = b.clone();
    ba.merge(&a);
    assert_eq!(ab, ba);
    assert_eq!(ab.value(), 4 + 2 - 9);
    let snapshot = ab.clone();
    ab.merge(&snapshot);
    assert_eq!(ab, snapshot);
}

#[test]
fn pn_counter_value_moves_by_the_amount() {
    let mut c = PNCounter::new();
    assert_eq!(c.value(), 0);
    c.increment(2, 7);
    assert_eq!(c.value(), 7);
    c.decrement(3, 10);
    assert_eq!(c.value(), -3);
    c.increment(2, 1);
    assert_eq!(c.value(), -2);
}
