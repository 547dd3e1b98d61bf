use crdt_lib::node::NodeState;
use crdt_lib::clock::LamportTimestamp;
use crdt_lib::set::OrSet;

#[test]
fn node_add_and_remove_items() {
    let mut n = NodeState::new(3);
    assert_eq!(n.replica, 3);
    n.add("milk".to_string());
    n.add("eggs".to_string());
    assert_eq!(n.clock.current(), 2);
    assert!(n.list.contains(&"milk".to_string()));
    n.remove("milk");
    assert!(!n.list.contains(&"milk".to_string()));
    assert_eq!(n.list.iter(), vec![&"eggs".to_string()]);
}

#[test]
fn node_merge_brings_in_peer_items_and_advances_clock() {
    let mut a = NodeState::new(1);
    let mut b = NodeState::new(2);
    a.add("bread".to_string());
    b.add("butter".to_string());
    a.merge(&b.list);
    // Both tags have counter 1, so the clock moves past 1.
    assert_eq!(a.clock.current(), 2);
    assert_eq!(a.list.len(), 2);
    assert!(a.list.contains(&"butter".to_string()));
    let empty: OrSet<String> = OrSet::new();
    b.merge(&empty);
    assert_eq!(b.list.len(), 1);
}

#[test]
fn node_remove_then_concurrent_add_elsewhere_survives() {
    let mut a = NodeState::new(1);
    a.add("tea".to_string());
    let mut b = NodeState::new(2);
    b.merge(&a.list);
    a.remove("tea");
    b.add("tea".to_string());
    a.merge(&b.list);
    assert!(a.list.contains(&"tea".to_string()));
}

#[test]
fn node_merge_moves_clock_past_observed_tags() {
    let mut s = NodeState::new(1);
    let mut o = OrSet::new();
    o.add("milk".to_string(), LamportTimestamp::new(10, 2));
    s.merge(&o);
    assert_eq!(s.clock.current(), 11);
    s.add("bread".to_string());
    let (entries, _) = s.list.to_parts();
    assert_eq!(entries[0], ("bread".to_string(), vec![(12, 1)]));
    assert!(LamportTimestamp::new(12, 1) > LamportTimestamp::new(10, 2));
}

#[test]
fn restarted_node_does_not_reuse_its_old_tags() {
    let mut before = NodeState::new(1);
    before.add("tea".to_string()); // tag (1, 1)
    before.add("jam".to_string()); // tag (2, 1)
    before.remove("jam");
    // The node restarts with a fresh clock and learns its old state from a peer.
    let mut restarted = NodeState::new(1);
    restarted.merge(&before.list);
    assert_eq!(restarted.clock.current(), 3);
    restarted.add("jam".to_string());
    assert!(restarted.list.contains(&"jam".to_string()));
}

#[test]
fn merge_counts_tombstoned_tags_too() {
    let mut peer = NodeState::new(2);
    for _ in 0..6 {
        peer.add("x".to_string());
    }
    peer.remove("x");
    let mut s = NodeState::new(1);
    s.merge(&peer.list);
    assert_eq!(s.clock.current(), 7);
}
