use crdt_lib::clock::{LamportClock, LamportTimestamp};
use crdt_lib::set::OrSet;
use crdt_lib::Crdt;

#[test]
fn new_set_is_empty() {
    let s: OrSet<&str> = OrSet::new();
    assert!(s.is_empty());
    assert_eq!(s.len(), 0);
}

#[test]
fn add_makes_element_present() {
    let mut clock = LamportClock::new(1);
    let mut s = OrSet::new();
    s.add("a", clock.tick());
    assert!(s.contains(&"a"));
}

#[test]
fn remove_makes_element_absent() {
    let mut clock = LamportClock::new(1);
    let mut s = OrSet::new();
    s.add("a", clock.tick());
    s.remove(&"a");
    assert!(!s.contains(&"a"));
}

#[test]
fn re_add_after_remove_works() {
    // After a remove, the element can be re-added with a new tag.
    let mut clock = LamportClock::new(1);
    let mut s = OrSet::new();
    s.add("a", clock.tick());
    s.remove(&"a");
    s.add("a", clock.tick()); // new tag, not tombstoned
    assert!(s.contains(&"a"));
}

#[test]
fn concurrent_add_wins_over_remove() {
    // Replica 1 adds then removes.
    let mut clock1 = LamportClock::new(1);
    let mut a = OrSet::new();
    let tag1 = clock1.tick();
    a.add("x", tag1);
    a.remove(&"x");

    // Replica 2 saw the first add and adds a new instance concurrently.
    let mut clock2 = LamportClock::new(2);
    let mut b = OrSet::new();
    b.add("x", tag1);
    b.add("x", clock2.tick());

    // a's remove only tombstones tag1; b's new tag survives.
    a.merge(&b);
    assert!(a.contains(&"x"));
}

#[test]
fn merge_is_symmetric_for_concurrent_add_remove() {
    let mut clock1 = LamportClock::new(1);
    let mut clock2 = LamportClock::new(2);

    let tag1 = clock1.tick();

    let mut a = OrSet::new();
    a.add("x", tag1);
    a.remove(&"x");

    let mut b = OrSet::new();
    b.add("x", tag1);
    b.add("x", clock2.tick());

    let mut a_then_b = a.clone();
    a_then_b.merge(&b);

    let mut b_then_a = b.clone();
    b_then_a.merge(&a);

    assert_eq!(a_then_b, b_then_a);
}

#[test]
fn iter_yields_present_elements() {
    let mut clock = LamportClock::new(1);
    let mut s = OrSet::new();
    s.add("a", clock.tick());
    s.add("b", clock.tick());
    s.add("c", clock.tick());
    s.remove(&"b");

    let mut present: Vec<&&str> = s.iter();
    present.sort();
    assert_eq!(present, vec![&"a", &"c"]);
}

#[test]
fn iter_is_in_ascending_order() {
    let mut clock = LamportClock::new(1);
    let mut s = OrSet::new();
    for v in [5u8, 1, 9, 3] {
        s.add(v, clock.tick());
    }
    assert_eq!(s.iter(), vec![&1, &3, &5, &9]);
    assert_eq!(s.len(), 4);
    assert!(!s.is_empty());
}

#[test]
fn removing_every_element_empties_the_set() {
    let mut clock = LamportClock::new(1);
    let mut s = OrSet::new();
    s.add(1u8, clock.tick());
    s.add(2u8, clock.tick());
    s.remove(&1);
    s.remove(&2);
    assert!(s.is_empty());
    assert_eq!(s.len(), 0);
    assert!(s.iter().is_empty());
}

#[test]
fn removing_an_absent_element_changes_nothing() {
    let mut clock = LamportClock::new(1);
    let mut s = OrSet::new();
    s.add(1u8, clock.tick());
    let before = s.clone();
    s.remove(&7);
    assert_eq!(s, before);
}

#[test]
fn merge_keeps_an_element_removed_on_both_sides() {
    let t = LamportTimestamp::new(1, 1);
    let mut a = OrSet::new();
    a.add("x", t);
    let mut b = a.clone();
    a.remove(&"x");
    b.merge(&a);
    assert!(!b.contains(&"x"));
    assert!(b.is_empty());
}

#[test]
fn orset_merge_associates_and_is_idempotent() {
    let mut a = OrSet::new();
    a.add(1u8, LamportTimestamp::new(1, 1));
    a.remove(&1);
    let mut b = OrSet::new();
    b.add(1u8, LamportTimestamp::new(2, 2));
    b.add(2u8, LamportTimestamp::new(3, 2));
    let mut c = OrSet::new();
    c.add(2u8, LamportTimestamp::new(3, 2));
    c.remove(&2);
    let mut left = a.clone();
    left.merge(&b);
    left.merge(&c);
    let mut bc = b.clone();
    bc.merge(&c);
    let mut right = a.clone();
    right.merge(&bc);
    assert_eq!(left, right);
    assert_eq!(left.iter(), vec![&1]);
    let snapshot = left.clone();
    left.merge(&snapshot);
    assert_eq!(left, snapshot);
}

#[test]
fn parts_round_trip() {
    let mut s = OrSet::new();
    s.add("milk".to_string(), LamportTimestamp::new(1, 1));
    s.add("milk".to_string(), LamportTimestamp::new(2, 2));
    s.add("bread".to_string(), LamportTimestamp::new(3, 1));
    s.remove(&"bread".to_string());
    let (entries, tombstones) = s.to_parts();
    assert_eq!(
        entries,
        vec![
            ("bread".to_string(), vec![(3, 1)]),
            ("milk".to_string(), vec![(1, 1), (2, 2)]),
        ]
    );
    assert_eq!(tombstones, vec![(3, 1)]);
    let back = OrSet::from_parts(entries, tombstones);
    assert_eq!(back, s);
}

#[test]
fn from_parts_unites_repeated_elements() {
    let s = OrSet::from_parts(
        vec![(4u8, vec![(1, 1)]), (4u8, vec![(2, 1), (1, 1)])],
        vec![(1, 1), (1, 1)],
    );
    let (entries, tombs) = s.to_parts();
    assert_eq!(entries, vec![(4u8, vec![(1, 1), (2, 1)])]);
    assert_eq!(tombs, vec![(1, 1)]);
    // Tag (2, 1) is not a tombstone, so 4 is present.
    assert!(s.contains(&4));
}

#[test]
fn max_counter_covers_tags_and_tombstones() {
    let empty: OrSet<u8> = OrSet::new();
    assert_eq!(empty.max_counter(), 0);
    let mut s = OrSet::new();
    s.add(1u8, LamportTimestamp::new(4, 9));
    s.add(2u8, LamportTimestamp::new(7, 1));
    assert_eq!(s.max_counter(), 7);
    let only_tombstones = OrSet::<u8>::from_parts(vec![], vec![(12, 3)]);
    assert_eq!(only_tombstones.max_counter(), 12);
}

#[test]
fn clone_keeps_the_whole_state() {
    let mut s = OrSet::new();
    s.add("a".to_string(), LamportTimestamp::new(1, 1));
    s.remove(&"a".to_string());
    let c = s.clone();
    assert_eq!(c, s);
    assert_eq!(c.to_parts(), s.to_parts());
}

/// Compared by `key` alone, so two values with different notes are equal.
#[derive(Debug, Clone, Hash)]
struct Loose {
    key: u8,
    note: char,
}

impl PartialEq for Loose {
    fn eq(&self, other: &Self) -> bool {
        self.key == other.key
    }
}

impl Eq for Loose {}

impl PartialOrd for Loose {
    fn partial_cmp(&self, other: &Self) -> Option<std::cmp::Ordering> {
        Some(self.cmp(other))
    }
}

impl Ord for Loose {
    fn cmp(&self, other: &Self) -> std::cmp::Ordering {
        self.key.cmp(&other.key)
    }
}

#[test]
fn add_and_merge_keep_the_first_representative() {
    let mut s = OrSet::new();
    s.add(Loose { key: 1, note: 'a' }, LamportTimestamp::new(1, 1));
    s.add(Loose { key: 1, note: 'b' }, LamportTimestamp::new(2, 1));
    assert_eq!(s.iter()[0].note, 'a');
    let mut other = OrSet::new();
    other.add(Loose { key: 1, note: 'c' }, LamportTimestamp::new(3, 2));
    s.merge(&other);
    assert_eq!(s.iter()[0].note, 'a');
    assert_eq!(s.len(), 1);
}
