use crdt_lib::clock::{LamportClock, LamportTimestamp};
use crdt_lib::register::LwwRegister;
use crdt_lib::Crdt;

#[test]
fn new_register_is_empty() {
    let r: LwwRegister<String> = LwwRegister::new();
    assert_eq!(r.get(), None);
}

#[test]
fn write_sets_value() {
    let mut clock = LamportClock::new(1);
    let mut r = LwwRegister::new();
    r.write("hello".to_string(), clock.tick());
    assert_eq!(r.get(), Some(&"hello".to_string()));
}

#[test]
fn newer_write_overwrites_older() {
    let mut clock = LamportClock::new(1);
    let mut r = LwwRegister::new();
    r.write("first".to_string(), clock.tick());
    r.write("second".to_string(), clock.tick());
    assert_eq!(r.get(), Some(&"second".to_string()));
}

#[test]
fn out_of_order_write_is_ignored() {
    // An older write arriving after a newer one should be ignored.
    let t1 = LamportTimestamp::new(1, 1);
    let t2 = LamportTimestamp::new(2, 1);
    let mut r = LwwRegister::new();
    r.write("newer".to_string(), t2);
    r.write("older".to_string(), t1);
    assert_eq!(r.get(), Some(&"newer".to_string()));
}

#[test]
fn merge_keeps_highest_timestamp() {
    let t1 = LamportTimestamp::new(1, 1);
    let t2 = LamportTimestamp::new(5, 1);
    let mut a = LwwRegister::new();
    let mut b = LwwRegister::new();
    a.write("a".to_string(), t1);
    b.write("b".to_string(), t2);
    a.merge(&b);
    assert_eq!(a.get(), Some(&"b".to_string()));
}

#[test]
fn merge_with_concurrent_writes_uses_replica_tiebreak() {
    // Same counter, different replicas: higher replica ID wins.
    let from_replica_1 = LamportTimestamp::new(1, 1);
    let from_replica_2 = LamportTimestamp::new(1, 2);

    let mut a = LwwRegister::new();
    let mut b = LwwRegister::new();
    a.write("red".to_string(), from_replica_1);
    b.write("blue".to_string(), from_replica_2);

    let mut a_then_b = a.clone();
    a_then_b.merge(&b);

    let mut b_then_a = b.clone();
    b_then_a.merge(&a);

    // Both must converge to the same winner regardless of merge order.
    assert_eq!(a_then_b.get(), b_then_a.get());
    assert_eq!(a_then_b.get(), Some(&"blue".to_string()));
}

#[test]
fn write_with_equal_timestamp_is_ignored() {
    let t = LamportTimestamp::new(3, 1);
    let mut r = LwwRegister::new();
    r.write(10, t);
    r.write(20, t);
    assert_eq!(r.get(), Some(&10));
    assert_eq!(r.timestamp(), Some(t));
}

#[test]
fn timestamp_follows_the_winning_write() {
    let mut r: LwwRegister<i32> = LwwRegister::new();
    assert_eq!(r.timestamp(), None);
    r.write(1, LamportTimestamp::new(2, 1));
    r.write(2, LamportTimestamp::new(4, 1));
    assert_eq!(r.timestamp(), Some(LamportTimestamp::new(4, 1)));
    assert_eq!(r.get(), Some(&2));
}

#[test]
fn merge_with_equal_timestamps_keeps_larger_value() {
    let t = LamportTimestamp::new(1, 1);
    let mut a = LwwRegister::new();
    let mut b = LwwRegister::new();
    a.write(3, t);
    b.write(8, t);
    let mut ab = a.clone();
    ab.merge(&b);
    let mut ba = b.clone();
    ba.merge(&a);
    assert_eq!(ab.get(), Some(&8));
    assert_eq!(ba.get(), Some(&8));
    assert_eq!(ab, ba);
}

#[test]
fn merge_into_empty_takes_other_and_empty_changes_nothing() {
    let mut a: LwwRegister<i32> = LwwRegister::new();
    let mut b = LwwRegister::new();
    b.write(5, LamportTimestamp::new(2, 2));
    a.merge(&b);
    assert_eq!(a, b);
    let empty = LwwRegister::new();
    a.merge(&empty);
    assert_eq!(a.get(), Some(&5));
}

#[test]
fn lww_merge_associates_and_is_idempotent() {
    let mut a = LwwRegister::new();
    a.write(1, LamportTimestamp::new(4, 1));
    let mut b = LwwRegister::new();
    b.write(2, LamportTimestamp::new(4, 2));
    let mut c = LwwRegister::new();
    c.write(3, LamportTimestamp::new(3, 9));
    let mut left = a.clone();
    left.merge(&b);
    left.merge(&c);
    let mut bc = b.clone();
    bc.merge(&c);
    let mut right = a.clone();
    right.merge(&bc);
    assert_eq!(left, right);
    assert_eq!(left.get(), Some(&2));
    let snapshot = left.clone();
    left.merge(&snapshot);
    assert_eq!(left, snapshot);
}
