//! Counter CRDTs: grow-only counter and positive-negative counter.
use std::collections::BTreeMap;

use vstd::prelude::*;

use vstd::set::fold::is_fun_commutative;
use vstd::std_specs::iter::IteratorSpec;

use crate::entries::{lemma_seen_step, lists_entries, seen_keys};
use crate::{Crdt, ReplicaId};

verus! {

broadcast use vstd::std_specs::btree::group_btree_axioms;

/// The fold step that adds a replica's count.
pub open spec fn add_count(m: Map<u64, u64>) -> spec_fn(int, u64) -> int {
    |acc: int, r: u64| acc + m[r]
}

/// Sum of the counts in `m` of the replicas in `s`.
pub open spec fn sum_over(m: Map<u64, u64>, s: Set<u64>) -> int {
    s.fold(0int, add_count(m))
}

/// Sum of all counts in `m`.
pub open spec fn total(m: Map<u64, u64>) -> int {
    sum_over(m, m.dom())
}

/// The count of replica `r` in `m`, 0 when `r` has none.
pub open spec fn count_of(m: Map<u64, u64>, r: u64) -> u64 {
    if m.contains_key(r) {
        m[r]
    } else {
        0
    }
}

/// The larger of two counts.
pub open spec fn max_count(a: u64, b: u64) -> u64 {
    if a >= b {
        a
    } else {
        b
    }
}

/// The join of two grow-only counter states: every replica of either, with
/// the larger of its two counts.
pub open spec fn gcounter_join(a: Map<u64, u64>, b: Map<u64, u64>) -> Map<u64, u64> {
    Map::new(|r: u64| a.contains_key(r) || b.contains_key(r), |r: u64| max_count(count_of(a, r), count_of(b, r)))
}

/// The count of `r` after adding `amount` to it, saturating at `u64::MAX`.
pub open spec fn bumped(m: Map<u64, u64>, r: u64, amount: u64) -> u64 {
    if count_of(m, r) + amount <= u64::MAX {
        (count_of(m, r) + amount) as u64
    } else {
        u64::MAX
    }
}

proof fn lemma_add_count_commutative(m: Map<u64, u64>)
    ensures
        is_fun_commutative(add_count(m)),
{
}

proof fn lemma_sum_insert(m: Map<u64, u64>, s: Set<u64>, r: u64)
    requires
        s.finite(),
        !s.contains(r),
    ensures
        sum_over(m, s.insert(r)) == sum_over(m, s) + m[r],
{
    lemma_add_count_commutative(m);
    vstd::set::fold::lemma_fold_insert(s, 0int, add_count(m), r);
}

/// A grow-only counter: per-replica counts whose sum is the value.
#[derive(Debug, Default, PartialEq, Eq)]
pub struct GCounter {
    counts: BTreeMap<ReplicaId, u64>,
}

impl View for GCounter {
    type V = Map<u64, u64>;

    closed spec fn view(&self) -> Map<u64, u64> {
        self.counts@
    }
}

proof fn lemma_sum_subset(m: Map<u64, u64>, s: Set<u64>, t: Set<u64>)
    requires
        t.finite(),
        s.subset_of(t),
    ensures
        sum_over(m, s) <= sum_over(m, t),
    decreases t.len(),
{
    if s =~= t {
    } else {
        let r = choose|r: u64| t.contains(r) && !s.contains(r);
        vstd::set_lib::lemma_len_subset(s, t.remove(r));
        lemma_sum_subset(m, s, t.remove(r));
        lemma_sum_insert(m, t.remove(r), r);
        assert(t.remove(r).insert(r) =~= t);
    }
}

/// One step of summing a map's counts along its entries: the sum of the keys
/// seen grows by the entry's count and stays within the total.
proof fn lemma_sum_step(m: Map<u64, u64>, s: Seq<(&u64, &u64)>, i: int)
    requires
        lists_entries(m, s),
        0 <= i < s.len(),
    ensures
        seen_keys(s.take(i + 1)) == seen_keys(s.take(i)).insert(*s[i].0),
        seen_keys(s.take(i + 1)).subset_of(m.dom()),
        sum_over(m, seen_keys(s.take(i + 1))) == sum_over(m, seen_keys(s.take(i))) + *s[i].1,
        sum_over(m, seen_keys(s.take(i + 1))) <= total(m),
        i + 1 == s.len() ==> seen_keys(s.take(i + 1)) == m.dom(),
{
    lemma_seen_step(m, s, i);
    vstd::set_lib::lemma_set_subset_finite(m.dom(), seen_keys(s.take(i)));
    lemma_sum_insert(m, seen_keys(s.take(i)), *s[i].0);
    lemma_sum_subset(m, seen_keys(s.take(i + 1)), m.dom());
}

/// Setting the count of `r` to `v` changes the total by the difference.
pub proof fn lemma_total_insert(m: Map<u64, u64>, r: u64, v: u64)
    requires
        m.dom().finite(),
    ensures
        total(m.insert(r, v)) == total(m) - count_of(m, r) + v,
{
    let m2 = m.insert(r, v);
    let d = m.dom().remove(r);
    assert forall|x: u64| d.contains(x) implies m[x] <= m2[x] && m2[x] <= m[x] by {};
    lemma_sum_pointwise(m, m2, d);
    lemma_sum_pointwise(m2, m, d);
    lemma_sum_insert(m2, d, r);
    assert(m2.dom() =~= d.insert(r));
    if m.contains_key(r) {
        lemma_sum_insert(m, d, r);
        assert(m.dom() =~= d.insert(r));
    } else {
        assert(m.dom() =~= d);
    }
}

/// One replica's count is at most the total.
pub proof fn lemma_count_within_total(m: Map<u64, u64>, r: u64)
    requires
        m.dom().finite(),
    ensures
        count_of(m, r) <= total(m),
{
    lemma_sum_nonnegative(m, m.dom());
    if m.contains_key(r) {
        let single = Set::<u64>::empty().insert(r);
        vstd::set::fold::lemma_fold_empty(0int, add_count(m));
        lemma_sum_insert(m, Set::<u64>::empty(), r);
        lemma_sum_subset(m, single, m.dom());
    }
}

/// A grow-only counter has finitely many replicas.
pub proof fn lemma_gcounter_finite(a: GCounter)
    ensures
        a@.dom().finite(),
{
}

impl Clone for GCounter {
    /// A copy with the same counts.
    fn clone(&self) -> (r: Self)
        ensures
            r@ == self@,
    {
        GCounter { counts: self.counts.clone() }
    }
}

impl GCounter {
    /// Creates an empty G-Counter with value 0.
    pub fn new() -> (c: Self)
        ensures
            c@ == Map::<u64, u64>::empty(),
    {
        GCounter { counts: BTreeMap::new() }
    }

    /// Adds `amount` to the count of `replica`, saturating at `u64::MAX`.
    ///
    /// Each replica must only ever increment its own entry.
    pub fn increment(&mut self, replica: ReplicaId, amount: u64)
        ensures
            final(self)@ == old(self)@.insert(replica, bumped(old(self)@, replica, amount)),
            total(final(self)@) == total(old(self)@) - count_of(old(self)@, replica) + bumped(old(self)@, replica, amount),
    {
        proof {
            lemma_total_insert(self@, replica, bumped(self@, replica, amount));
        }
        let current: u64 = match self.counts.get(&replica) {
            Some(c) => *c,
            None => 0,
        };
        self.counts.insert(replica, current.saturating_add(amount));
    }

    /// Returns the local contribution of the given replica.
    pub fn value_for(&self, replica: ReplicaId) -> (r: u64)
        ensures
            r == count_of(self@, replica),
    {
        match self.counts.get(&replica) {
            Some(c) => *c,
            None => 0,
        }
    }

    /// Returns the total value: the sum of all replica contributions.
    pub fn value(&self) -> (r: u64)
        requires
            total(self@) <= u64::MAX,
        ensures
            r == total(self@),
    {
        broadcast use crate::entries::lemma_nothing_seen;

        let ghost m = self.counts@;
        let mut acc: u64 = 0;
        proof {
            vstd::set::fold::lemma_fold_empty(0int, add_count(m));
            if m.dom().len() == 0 {
                assert(m.dom() =~= Set::empty());
            }
        }
        for (k, v) in it: self.counts.iter()
            invariant
                m == self.counts@,
                lists_entries(m, it.seq()),
                total(m) <= u64::MAX,
                acc == sum_over(m, seen_keys(it.seq().take(it.index()))),
                seen_keys(it.seq().take(it.index())).subset_of(m.dom()),
                it.index() == it.seq().len() ==> acc == total(m),
        {
            proof {
                lemma_sum_step(m, it.seq(), it.index());
            }
            acc = acc + *v;
        }
        acc
    }
}

impl Crdt for GCounter {
    open spec fn merge_allowed() -> bool {
        true
    }

    /// Keeps, for every replica, the larger of the two counts.
    fn merge(&mut self, other: &Self)
        ensures
            final(self)@ == gcounter_join(old(self)@, other@),
    {
        let ghost a = self.counts@;
        let ghost b = other.counts@;
        proof {
            assert(gcounter_join(a, b.restrict(Set::empty())) =~= a);
        }
        for (r, c) in it: other.counts.iter()
            invariant
                a == old(self).counts@,
                b == other.counts@,
                lists_entries(b, it.seq()),
                self.counts@ == gcounter_join(a, b.restrict(seen_keys(it.seq().take(it.index())))),
                it.index() == it.seq().len() ==> seen_keys(it.seq().take(it.index())) == b.dom(),
        {
            proof {
                lemma_seen_step(b, it.seq(), it.index());
            }
            let replica: u64 = *r;
            let theirs: u64 = *c;
            let mine: u64 = match self.counts.get(&replica) {
                Some(x) => *x,
                None => 0,
            };
            let larger = if mine >= theirs {
                mine
            } else {
                theirs
            };
            let ghost seen = seen_keys(it.seq().take(it.index()));
            self.counts.insert(replica, larger);
            proof {
                assert(self.counts@ =~= gcounter_join(a, b.restrict(seen.insert(replica))));
            }
        }
        proof {
            assert(b.restrict(b.dom()) =~= b);
        }
    }
}

/// A positive-negative counter: one grow-only counter of increments and one of
/// decrements; the value is their difference.
#[derive(Debug, Default, PartialEq, Eq)]
pub struct PNCounter {
    positive: GCounter,
    negative: GCounter,
}

impl View for PNCounter {
    type V = (Map<u64, u64>, Map<u64, u64>);

    /// The increment counts and the decrement counts.
    closed spec fn view(&self) -> (Map<u64, u64>, Map<u64, u64>) {
        (self.positive@, self.negative@)
    }
}

/// The join of two positive-negative counter states, component by component.
pub open spec fn pncounter_join(
    a: (Map<u64, u64>, Map<u64, u64>),
    b: (Map<u64, u64>, Map<u64, u64>),
) -> (Map<u64, u64>, Map<u64, u64>) {
    (gcounter_join(a.0, b.0), gcounter_join(a.1, b.1))
}

impl Clone for PNCounter {
    /// A copy with the same increments and decrements.
    fn clone(&self) -> (r: Self)
        ensures
            r@ == self@,
    {
        PNCounter { positive: self.positive.clone(), negative: self.negative.clone() }
    }
}

impl PNCounter {
    /// Creates an empty PN-Counter with value 0.
    pub fn new() -> (c: Self)
        ensures
            c@.0 == Map::<u64, u64>::empty(),
            c@.1 == Map::<u64, u64>::empty(),
    {
        PNCounter { positive: GCounter::new(), negative: GCounter::new() }
    }

    /// Adds `amount` to the increments of `replica`.
    pub fn increment(&mut self, replica: ReplicaId, amount: u64)
        ensures
            final(self)@.0 == old(self)@.0.insert(replica, bumped(old(self)@.0, replica, amount)),
            final(self)@.1 == old(self)@.1,
            total(final(self)@.0) == total(old(self)@.0) - count_of(old(self)@.0, replica) + bumped(old(self)@.0, replica, amount),
    {
        self.positive.increment(replica, amount);
    }

    /// Adds `amount` to the decrements of `replica`.
    pub fn decrement(&mut self, replica: ReplicaId, amount: u64)
        ensures
            final(self)@.0 == old(self)@.0,
            final(self)@.1 == old(self)@.1.insert(replica, bumped(old(self)@.1, replica, amount)),
            total(final(self)@.1) == total(old(self)@.1) - count_of(old(self)@.1, replica) + bumped(old(self)@.1, replica, amount),
    {
        self.negative.increment(replica, amount);
    }

    /// Returns the total increments minus the total decrements. Both totals
    /// must fit in an `i64`.
    pub fn value(&self) -> (r: i64)
        requires
            total(self@.0) <= i64::MAX,
            total(self@.1) <= i64::MAX,
        ensures
            r == total(self@.0) - total(self@.1),
    {
        proof {
            lemma_pncounter_totals_nonnegative(*self);
        }
        let p = self.positive.value();
        let n = self.negative.value();
        (p as i64) - (n as i64)
    }
}

impl Crdt for PNCounter {
    open spec fn merge_allowed() -> bool {
        true
    }

    /// Merges the increments and the decrements separately.
    fn merge(&mut self, other: &Self)
        ensures
            final(self)@ == pncounter_join(old(self)@, other@),
    {
        self.positive.merge(&other.positive);
        self.negative.merge(&other.negative);
    }
}

/// Summing over the same replicas, pointwise larger counts give a larger sum.
proof fn lemma_sum_pointwise(m1: Map<u64, u64>, m2: Map<u64, u64>, s: Set<u64>)
    requires
        s.finite(),
        forall|r: u64| s.contains(r) ==> m1[r] <= m2[r],
    ensures
        sum_over(m1, s) <= sum_over(m2, s),
    decreases s.len(),
{
    if s.len() == 0 {
        assert(s =~= Set::empty());
        vstd::set::fold::lemma_fold_empty(0int, add_count(m1));
        vstd::set::fold::lemma_fold_empty(0int, add_count(m2));
    } else {
        let r = s.choose();
        lemma_sum_pointwise(m1, m2, s.remove(r));
        lemma_sum_insert(m1, s.remove(r), r);
        lemma_sum_insert(m2, s.remove(r), r);
        assert(s.remove(r).insert(r) =~= s);
    }
}

/// A sum of counts is never negative.
proof fn lemma_sum_nonnegative(m: Map<u64, u64>, s: Set<u64>)
    requires
        s.finite(),
    ensures
        0 <= sum_over(m, s),
    decreases s.len(),
{
    if s.len() == 0 {
        assert(s =~= Set::empty());
        vstd::set::fold::lemma_fold_empty(0int, add_count(m));
    } else {
        let r = s.choose();
        lemma_sum_nonnegative(m, s.remove(r));
        lemma_sum_insert(m, s.remove(r), r);
        assert(s.remove(r).insert(r) =~= s);
    }
}

/// A grow-only counter's total value is never negative.
pub proof fn lemma_gcounter_total_nonnegative(a: GCounter)
    ensures
        0 <= total(a@),
{
    lemma_sum_nonnegative(a@, a@.dom());
}

/// The total increments and the total decrements of a positive-negative
/// counter are never negative, and each counts finitely many replicas.
pub proof fn lemma_pncounter_totals_nonnegative(a: PNCounter)
    ensures
        0 <= total(a@.0),
        0 <= total(a@.1),
        a@.0.dom().finite(),
        a@.1.dom().finite(),
{
    lemma_gcounter_total_nonnegative(a.positive);
    lemma_gcounter_total_nonnegative(a.negative);
}

/// Merging grow-only counters is commutative.
pub proof fn lemma_gcounter_merge_commutative(a: GCounter, b: GCounter)
    ensures
        gcounter_join(a@, b@) == gcounter_join(b@, a@),
{
    assert(gcounter_join(a@, b@) =~= gcounter_join(b@, a@));
}

/// Merging grow-only counters is associative.
pub proof fn lemma_gcounter_merge_associative(a: GCounter, b: GCounter, c: GCounter)
    ensures
        gcounter_join(gcounter_join(a@, b@), c@) == gcounter_join(a@, gcounter_join(b@, c@)),
{
    assert(gcounter_join(gcounter_join(a@, b@), c@) =~= gcounter_join(a@, gcounter_join(b@, c@)));
}

/// Merging a grow-only counter with itself changes nothing.
pub proof fn lemma_gcounter_merge_idempotent(a: GCounter)
    ensures
        gcounter_join(a@, a@) == a@,
{
    assert(gcounter_join(a@, a@) =~= a@);
}

/// Merging never lowers a replica's count nor the counter's total value.
pub proof fn lemma_gcounter_merge_monotonic(a: GCounter, b: GCounter)
    ensures
        forall|r: u64| count_of(a@, r) <= #[trigger] count_of(gcounter_join(a@, b@), r),
        total(a@) <= total(gcounter_join(a@, b@)),
{
    let j = gcounter_join(a@, b@);
    assert(j.dom() =~= a@.dom().union(b@.dom()));
    lemma_sum_pointwise(a@, j, a@.dom());
    lemma_sum_subset(j, a@.dom(), j.dom());
}

/// Merging positive-negative counters is commutative.
pub proof fn lemma_pncounter_merge_commutative(a: PNCounter, b: PNCounter)
    ensures
        pncounter_join(a@, b@) == pncounter_join(b@, a@),
{
    lemma_gcounter_merge_commutative(a.positive, b.positive);
    lemma_gcounter_merge_commutative(a.negative, b.negative);
}

/// Merging positive-negative counters is associative.
pub proof fn lemma_pncounter_merge_associative(a: PNCounter, b: PNCounter, c: PNCounter)
    ensures
        pncounter_join(pncounter_join(a@, b@), c@) == pncounter_join(a@, pncounter_join(b@, c@)),
{
    lemma_gcounter_merge_associative(a.positive, b.positive, c.positive);
    lemma_gcounter_merge_associative(a.negative, b.negative, c.negative);
}

/// Merging a positive-negative counter with itself changes nothing.
pub proof fn lemma_pncounter_merge_idempotent(a: PNCounter)
    ensures
        pncounter_join(a@, a@) == a@,
{
    lemma_gcounter_merge_idempotent(a.positive);
    lemma_gcounter_merge_idempotent(a.negative);
}

} // verus!
