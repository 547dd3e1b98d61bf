use crdt_lib::clock::{LamportClock, LamportTimestamp};
use crdt_lib::text::Rga;
use crdt_lib::Crdt;

#[test]
fn new_rga_is_empty() {
    let r = Rga::new();
    assert_eq!(r.to_string(), "");
    assert!(r.is_empty());
}

#[test]
fn insert_at_root() {
    let mut clock = LamportClock::new(1);
    let mut r = Rga::new();
    r.insert_after(None, 'H', clock.tick());
    assert_eq!(r.to_string(), "H");
}

#[test]
fn insert_sequentially() {
    let mut clock = LamportClock::new(1);
    let mut r = Rga::new();
    let h = clock.tick();
    r.insert_after(None, 'H', h);
    let e = clock.tick();
    r.insert_after(Some(h), 'E', e);
    let i = clock.tick();
    r.insert_after(Some(e), 'I', i);
    assert_eq!(r.to_string(), "HEI");
}

#[test]
fn delete_creates_tombstone() {
    let mut clock = LamportClock::new(1);
    let mut r = Rga::new();
    let h = clock.tick();
    r.insert_after(None, 'H', h);
    let i = clock.tick();
    r.insert_after(Some(h), 'I', i);
    r.delete(h);
    assert_eq!(r.to_string(), "I");
    assert_eq!(r.len(), 1);
}

#[test]
fn concurrent_inserts_at_same_position_converge() {
    let mut clock1 = LamportClock::new(1);
    let mut clock2 = LamportClock::new(2);

    // Shared starting point: 'H' with an id from replica 1.
    let h_id = LamportTimestamp::new(1, 1);

    let mut a = Rga::new();
    a.insert_after(None, 'H', h_id);
    let mut b = a.clone();

    // Replica 1 inserts 'A' after H.
    clock1.observe(1);
    let a_id = clock1.tick();
    a.insert_after(Some(h_id), 'A', a_id);

    // Replica 2 inserts 'B' after H at the same time.
    clock2.observe(1);
    let b_id = clock2.tick();
    b.insert_after(Some(h_id), 'B', b_id);

    a.merge(&b);
    b.merge(&a);

    // Both now hold the same string.
    assert_eq!(a.to_string(), b.to_string());
    // H and the two new characters.
    assert_eq!(a.len(), 3);
    // The first character is 'H'.
    assert!(a.to_string().starts_with('H'));
}

#[test]
fn merge_is_idempotent() {
    let mut clock = LamportClock::new(1);
    let mut r = Rga::new();
    let h = clock.tick();
    r.insert_after(None, 'A', h);
    let i = clock.tick();
    r.insert_after(Some(h), 'B', i);

    let snapshot = r.clone();
    r.merge(&snapshot);
    assert_eq!(r, snapshot);
}

#[test]
fn merge_preserves_deletes() {
    let mut clock = LamportClock::new(1);
    let h = clock.tick();

    let mut a = Rga::new();
    a.insert_after(None, 'X', h);
    let mut b = a.clone();
    a.delete(h);

    b.merge(&a);
    assert_eq!(b.to_string(), "");
}

#[test]
fn id_at_visible_index_skips_tombstones() {
    let mut clock = LamportClock::new(1);
    let mut r = Rga::new();
    let a = clock.tick();
    r.insert_after(None, 'A', a);
    let b = clock.tick();
    r.insert_after(Some(a), 'B', b);
    let c = clock.tick();
    r.insert_after(Some(b), 'C', c);

    r.delete(b);
    // Visible text: "AC". Index 1 is now C, not B.
    assert_eq!(r.id_at_visible_index(1), Some(c));
}

#[test]
fn later_sibling_comes_first() {
    let mut r = Rga::new();
    let h = LamportTimestamp::new(1, 1);
    r.insert_after(None, 'H', h);
    r.insert_after(Some(h), 'A', LamportTimestamp::new(2, 1));
    r.insert_after(Some(h), 'B', LamportTimestamp::new(2, 2));
    assert_eq!(r.to_string(), "HBA");
    r.insert_after(None, 'Z', LamportTimestamp::new(3, 1));
    assert_eq!(r.to_string(), "ZHBA");
}

#[test]
fn children_follow_their_parent_subtree() {
    let mut r = Rga::new();
    let x = LamportTimestamp::new(1, 1);
    let y = LamportTimestamp::new(2, 1);
    r.insert_after(None, 'x', x);
    r.insert_after(Some(x), 'y', y);
    r.insert_after(Some(y), 'z', LamportTimestamp::new(3, 1));
    r.insert_after(Some(x), 'w', LamportTimestamp::new(4, 1));
    // w is the later child of x and comes before y's whole subtree.
    assert_eq!(r.to_string(), "xwyz");
}

#[test]
fn character_without_parent_is_not_kept() {
    let mut r = Rga::new();
    r.insert_after(Some(LamportTimestamp::new(9, 9)), 'q', LamportTimestamp::new(1, 1));
    assert_eq!(r.to_string(), "");
    assert!(r.is_empty());
    assert_eq!(r.len(), 0);
}

#[test]
fn delete_of_unknown_id_is_a_no_op() {
    let mut r = Rga::new();
    r.insert_after(None, 'a', LamportTimestamp::new(1, 1));
    let before = r.clone();
    r.delete(LamportTimestamp::new(5, 5));
    assert_eq!(r, before);
    assert_eq!(r.to_string(), "a");
}

#[test]
fn id_at_visible_index_past_the_end_is_none() {
    let mut r = Rga::new();
    let a = LamportTimestamp::new(1, 1);
    r.insert_after(None, 'a', a);
    assert_eq!(r.id_at_visible_index(0), Some(a));
    assert_eq!(r.id_at_visible_index(1), None);
    r.delete(a);
    assert_eq!(r.id_at_visible_index(0), None);
    assert!(r.is_empty());
}

fn doc(ops: &[(Option<LamportTimestamp>, char, LamportTimestamp)]) -> Rga {
    let mut r = Rga::new();
    for &(p, c, id) in ops {
        r.insert_after(p, c, id);
    }
    r
}

#[test]
fn rga_merge_commutes_and_associates_on_example() {
    let h = LamportTimestamp::new(1, 1);
    let base = [(None, 'h', h)];
    let mut a = doc(&base);
    a.insert_after(Some(h), 'a', LamportTimestamp::new(2, 1));
    let mut b = doc(&base);
    b.insert_after(Some(h), 'b', LamportTimestamp::new(2, 2));
    b.delete(h);
    let mut c = doc(&base);
    c.insert_after(None, 'c', LamportTimestamp::new(2, 3));

    let mut ab = a.clone();
    ab.merge(&b);
    let mut ba = b.clone();
    ba.merge(&a);
    assert_eq!(ab, ba);
    assert_eq!(ab.to_string(), "ba");

    let mut left = ab.clone();
    left.merge(&c);
    let mut bc = b.clone();
    bc.merge(&c);
    let mut right = a.clone();
    right.merge(&bc);
    assert_eq!(left, right);
    assert_eq!(left.to_string(), "cba");
}

#[test]
fn distinct_visible_positions_name_distinct_characters() {
    let mut r = Rga::new();
    let a = LamportTimestamp::new(1, 1);
    let b = LamportTimestamp::new(2, 1);
    let c = LamportTimestamp::new(3, 1);
    r.insert_after(None, 'a', a);
    r.insert_after(Some(a), 'b', b);
    r.insert_after(Some(b), 'c', c);
    let ids: Vec<_> = (0..r.len()).map(|i| r.id_at_visible_index(i).unwrap()).collect();
    assert_eq!(ids, vec![a, b, c]);
    r.delete(b);
    assert_eq!(r.len(), 2);
    r.delete(b);
    assert_eq!(r.len(), 2);
}
