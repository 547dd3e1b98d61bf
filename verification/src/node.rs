//! The state of one peer of the shopping-list demo: a Lamport clock and a
//! shared OR-Set of items.
use vstd::laws_cmp::obeys_cmp;
use vstd::prelude::*;

use crate::clock::{observed_counter, ticked, LamportClock, LamportTimestamp};
use crate::set::{clone_is_exact, counters_at_most, orset_added, orset_join, tags_for, top_counter, OrSet};
use crate::{Crdt, ReplicaId};

verus! {

/// The shared state of a node.
pub struct NodeState {
    /// The replica id of this node, the owner of its Lamport clock.
    pub replica: ReplicaId,
    /// The local Lamport clock, which produces unique tags for additions.
    pub clock: LamportClock,
    /// The shared shopping list.
    pub list: OrSet<String>,
}

impl NodeState {
    /// Creates the state of a new node.
    pub fn new(replica: ReplicaId) -> (s: Self)
        ensures
            s.replica == replica,
            s.clock.count() == 0,
            s.clock.owner() == replica,
            s.list@.tags == Map::<String, Set<(u64, u64)>>::empty(),
            s.list@.tombstones == Set::<(u64, u64)>::empty(),
    {
        NodeState { replica, clock: LamportClock::new(replica), list: OrSet::new() }
    }

    /// Adds an item, tagged with the next timestamp of the clock.
    pub fn add(&mut self, item: String)
        requires
            obeys_cmp::<String>(),
        ensures
            final(self).replica == old(self).replica,
            final(self).clock.count() == ticked(old(self).clock.count()),
            final(self).clock.owner() == old(self).clock.owner(),
            final(self).list@ == orset_added(
                old(self).list@,
                item,
                LamportTimestamp { counter: ticked(old(self).clock.count()), replica: old(self).clock.owner() },
            ),
    {
        let tag = self.clock.tick();
        self.list.add(item, tag);
    }

    /// Removes an item: every tag of it observed here becomes a tombstone.
    pub fn remove(&mut self, item: &str)
        requires
            obeys_cmp::<String>(),
        ensures
            final(self).replica == old(self).replica,
            final(self).clock == old(self).clock,
            final(self).list@.tags == old(self).list@.tags,
            exists|key: String|
                key@ == item@ && final(self).list@.tombstones == old(self).list@.tombstones.union(
                    tags_for(old(self).list@.tags, key),
                ),
    {
        let key = item.to_owned();
        self.list.remove(&key);
    }

    /// Merges another node's list into this one, then advances the clock past
    /// every tag now in the list, so that later local additions get strictly
    /// higher tags than any tag observed (the counter saturates at
    /// `u64::MAX`).
    pub fn merge(&mut self, other: &OrSet<String>)
        requires
            obeys_cmp::<String>(),
        ensures
            final(self).replica == old(self).replica,
            final(self).clock.count() == observed_counter(old(self).clock.count(), top_counter(final(self).list@)),
            final(self).clock.owner() == old(self).clock.owner(),
            final(self).clock.count() == u64::MAX || counters_at_most(final(self).list@, top_counter(final(self).list@))
                && top_counter(final(self).list@) < final(self).clock.count(),
            final(self).list@.tombstones == old(self).list@.tombstones.union(other@.tombstones),
            clone_is_exact::<String>() ==> final(self).list@ == orset_join(old(self).list@, other@),
    {
        self.list.merge(other);
        let top = self.list.max_counter();
        let _ = self.clock.observe(top);
    }
}

} // verus!
