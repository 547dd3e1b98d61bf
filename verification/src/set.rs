//! Set CRDT: the observed-remove set (OR-Set) with add-wins semantics.
//!
//! Each `add` tags the element with a unique timestamp; `remove` tombstones the
//! tags it has observed. A concurrent `add` elsewhere uses a tag this replica
//! has not seen, so the remove cannot touch it and the element survives the
//! merge.
//!
//! Elements are kept in ordered maps, which std leaves unspecified (possibly
//! panicking or looping) when the element type's `Ord` is not a total order;
//! the operations therefore require a lawful order (`obeys_cmp`). Merging
//! copies elements with `clone`, and its exact contract holds when `clone`
//! copies faithfully.
use std::collections::{BTreeMap, BTreeSet};
use std::hash::Hash;

use vstd::laws_cmp::obeys_cmp;
use vstd::prelude::*;
use vstd::std_specs::cmp::{OrdSpec, PartialOrdSpec};
use vstd::std_specs::iter::IteratorSpec;

use crate::clock::LamportTimestamp;
use crate::entries::{lemma_seen_step, lists_entries, seen_keys};
use crate::Crdt;

verus! {

broadcast use vstd::std_specs::btree::group_btree_axioms;

/// A tag as stored: the timestamp's counter and replica.
pub open spec fn tag_of(t: LamportTimestamp) -> (u64, u64) {
    (t.counter, t.replica)
}

/// The tags recorded for `x`; none when `x` was never added.
pub open spec fn tags_for<T>(tags: Map<T, Set<(u64, u64)>>, x: T) -> Set<(u64, u64)> {
    if tags.contains_key(x) {
        tags[x]
    } else {
        Set::empty()
    }
}

/// The abstract state of an OR-Set: the tags of each element, and the
/// tombstoned tags.
#[verifier::reject_recursive_types(T)]
pub struct OrSetState<T> {
    /// Tags that have been added, per element.
    pub tags: Map<T, Set<(u64, u64)>>,
    /// Tags that have been removed.
    pub tombstones: Set<(u64, u64)>,
}

/// The state after adding `x` with the tag `t`.
pub open spec fn orset_added<T>(s: OrSetState<T>, x: T, t: LamportTimestamp) -> OrSetState<T> {
    OrSetState { tags: s.tags.insert(x, tags_for(s.tags, x).insert(tag_of(t))), tombstones: s.tombstones }
}

/// `x` is in the set: it has a tag that is not a tombstone.
pub open spec fn is_present<T>(s: OrSetState<T>, x: T) -> bool {
    exists|t: (u64, u64)| #[trigger] tags_for(s.tags, x).contains(t) && !s.tombstones.contains(t)
}

/// The elements in the set.
pub open spec fn present_set<T>(s: OrSetState<T>) -> Set<T> {
    Set::new(|x: T| is_present(s, x))
}

/// The join of two OR-Set states: the union of each element's tags, and the
/// union of the tombstones.
pub open spec fn orset_join<T>(a: OrSetState<T>, b: OrSetState<T>) -> OrSetState<T> {
    OrSetState {
        tags: Map::new(
            |x: T| a.tags.contains_key(x) || b.tags.contains_key(x),
            |x: T| tags_for(a.tags, x).union(tags_for(b.tags, x)),
        ),
        tombstones: a.tombstones.union(b.tombstones),
    }
}

/// `clone` on `T` gives back an equal value.
pub open spec fn clone_is_exact<T: Clone>() -> bool {
    forall|a: T, b: T| #[trigger] cloned(a, b) ==> a == b
}

/// Cloning a `String` gives back an equal string.
pub proof fn lemma_string_clone_is_exact()
    ensures
        clone_is_exact::<String>(),
{
    assert forall|a: String, b: String| #[trigger] cloned(a, b) implies a == b by {
        if vstd::pervasive::strictly_cloned(a, b) {
            assert(call_ensures(<String as Clone>::clone, (&a,), b));
        }
    };
}

/// Once a property holds of every element of a prefix that covers a
/// sequence of references, it holds of every referenced value.
proof fn lemma_prefix_covers<K>(s: Seq<&K>, n: int, p: spec_fn(K) -> bool)
    requires
        0 <= n <= s.len(),
        forall|k: int| 0 <= k < n ==> #[trigger] p(*s[k]),
    ensures
        n == s.len() ==> forall|x: K| #[trigger] s.unref().to_set().contains(x) ==> p(x),
{
    if n == s.len() {
        assert forall|x: K| #[trigger] s.unref().to_set().contains(x) implies p(x) by {
            let k = choose|k: int| 0 <= k < s.unref().len() && s.unref()[k] == x;
            assert(*s[k] == x);
        };
    }
}

/// One more element of a sequence of references adds its value to the set
/// of values seen.
proof fn lemma_prefix_step<K>(s: Seq<&K>, i: int)
    requires
        0 <= i < s.len(),
    ensures
        s.take(i + 1).unref().to_set() == s.take(i).unref().to_set().insert(*s[i]),
        i + 1 == s.len() ==> s.take(i + 1) == s,
{
    if i + 1 == s.len() {
        assert(s.take(i + 1) =~= s);
    }
    let pre = s.take(i).unref();
    let post = s.take(i + 1).unref();
    assert(post =~= pre.push(*s[i]));
    assert(post.to_set() =~= pre.to_set().insert(*s[i])) by {
        assert forall|x: K| post.to_set().contains(x) implies pre.to_set().insert(*s[i]).contains(x) by {
            let k = choose|k: int| 0 <= k < post.len() && post[k] == x;
            if k < i {
                assert(pre[k] == x);
            }
        };
        assert forall|x: K| pre.to_set().insert(*s[i]).contains(x) implies post.to_set().contains(x) by {
            if x == *s[i] {
                assert(post[i] == x);
            } else {
                let k = choose|k: int| 0 <= k < pre.len() && pre[k] == x;
                assert(post[k] == x);
            }
        };
    };
}

/// An empty sequence of references refers to no value.
broadcast proof fn lemma_unref_empty<K>(s: Seq<&K>)
    ensures
        s.len() == 0 ==> #[trigger] s.unref().to_set() == Set::<K>::empty(),
{
    if s.len() == 0 {
        assert(s.unref().to_set() =~= Set::<K>::empty());
    }
}

/// Under a lawful order, no value comes strictly before itself.
proof fn lemma_cmp_irreflexive<T: Ord>()
    requires
        obeys_cmp::<T>(),
    ensures
        forall|x: T| !(#[trigger] x.cmp_spec(&x) is Less),
{
    reveal(vstd::laws_cmp::obeys_cmp_ord);
    reveal(vstd::laws_cmp::obeys_partial_cmp_spec_properties);
    assert forall|x: T| !(#[trigger] x.cmp_spec(&x) is Less) by {
        assert(x.partial_cmp_spec(&x) == Some(x.cmp_spec(&x)));
    };
}

/// Once the elements found present cover a whole iteration of the tag map,
/// they are exactly the present elements.
proof fn lemma_present_cover<T: Ord + Clone>(
    view: OrSetState<T>,
    m: Map<T, BTreeSet<(u64, u64)>>,
    s: Seq<(&T, &BTreeSet<(u64, u64)>)>,
    n: int,
    r: Seq<&T>,
)
    requires
        view.tags == m.map_values(|b: BTreeSet<(u64, u64)>| b@),
        0 <= n <= s.len(),
        forall|x: T| #[trigger] m.contains_key(x) ==> s.contains((&x, &m[x])),
        forall|a: int| 0 <= a < r.len() ==> is_present(view, *r[a]) && exists|i: int| 0 <= i < n && *(#[trigger] s[i]).0 == *r[a],
        forall|i: int| 0 <= i < n && is_present(view, *(#[trigger] s[i]).0) ==> r.unref().contains(*s[i].0),
    ensures
        n == s.len() ==> r.unref().to_set() == present_set(view),
{
    if n == s.len() {
        assert(r.unref().to_set() =~= present_set(view)) by {
            assert forall|x: T| #[trigger] r.unref().to_set().contains(x) implies present_set(view).contains(x) by {
                let a = choose|a: int| 0 <= a < r.unref().len() && r.unref()[a] == x;
                assert(*r[a] == x);
            };
            assert forall|x: T| #[trigger] present_set(view).contains(x) implies r.unref().to_set().contains(x) by {
                let t = choose|t: (u64, u64)| #[trigger] tags_for(view.tags, x).contains(t) && !view.tombstones.contains(t);
                assert(view.tags.contains_key(x));
                assert(m.contains_key(x));
                assert(s.contains((&x, &m[x])));
                let i = choose|i: int| 0 <= i < s.len() && s[i] == (&x, &m[x]);
                assert(*s[i].0 == x);
            };
        };
    }
}

/// Once no element of a whole walk over the tag map is present, no element
/// is present at all.
proof fn lemma_none_present<T: Ord + Clone>(
    view: OrSetState<T>,
    m: Map<T, BTreeSet<(u64, u64)>>,
    s: Seq<(&T, &BTreeSet<(u64, u64)>)>,
    n: int,
)
    requires
        view.tags == m.map_values(|b: BTreeSet<(u64, u64)>| b@),
        lists_entries(m, s),
        0 <= n <= s.len(),
        forall|i: int| 0 <= i < n ==> !is_present(view, *(#[trigger] s[i]).0),
    ensures
        n == s.len() ==> forall|x: T| !is_present(view, x),
{
    if n == s.len() {
        assert forall|x: T| !is_present(view, x) by {
            if is_present(view, x) {
                let t = choose|t: (u64, u64)| #[trigger] tags_for(view.tags, x).contains(t) && !view.tombstones.contains(t);
                assert(m.contains_key(x));
                let i = choose|i: int| 0 <= i < s.len() && s[i] == (&x, &m[x]);
                assert(*s[i].0 == x);
            }
        };
    }
}

/// The tags that a list of entries gives each element: for each element, the
/// union of all tags listed with it.
pub open spec fn entries_tags<T>(entries: Seq<(T, Vec<(u64, u64)>)>) -> Map<T, Set<(u64, u64)>>
    decreases entries.len(),
{
    if entries.len() == 0 {
        Map::empty()
    } else {
        let rest = entries_tags(entries.drop_first());
        rest.insert(entries[0].0, tags_for(rest, entries[0].0).union(entries[0].1@.to_set()))
    }
}

/// `entries` lists each element of `tags` exactly once, with exactly its
/// tags.
pub open spec fn lists_tags<T>(tags: Map<T, Set<(u64, u64)>>, entries: Seq<(T, Vec<(u64, u64)>)>) -> bool {
    &&& forall|i: int| 0 <= i < entries.len() ==> tags.contains_key(#[trigger] entries[i].0) && entries[i].1@.to_set() == tags[entries[i].0]
    &&& forall|x: T| #[trigger] tags.contains_key(x) ==> exists|i: int| 0 <= i < entries.len() && entries[i].0 == x
    &&& forall|i: int, j: int| 0 <= i < j < entries.len() ==> #[trigger] entries[i].0 != #[trigger] entries[j].0
}

/// A walk over a whole tag map, copied entry by entry, lists the map's tags.
proof fn lemma_parts_cover<T>(
    m: Map<T, BTreeSet<(u64, u64)>>,
    s: Seq<(&T, &BTreeSet<(u64, u64)>)>,
    r: Seq<(T, Vec<(u64, u64)>)>,
)
    requires
        lists_entries(m, s),
        r.len() <= s.len(),
        forall|i: int| 0 <= i < r.len() ==> (#[trigger] r[i]).0 == *s[i].0 && r[i].1@.to_set() == (*s[i].1)@,
    ensures
        r.len() == s.len() ==> lists_tags(m.map_values(|b: BTreeSet<(u64, u64)>| b@), r),
{
    if r.len() < s.len() {
        return;
    }
    let tags = m.map_values(|b: BTreeSet<(u64, u64)>| b@);
    assert forall|i: int| 0 <= i < r.len() implies tags.contains_key(#[trigger] r[i].0) && r[i].1@.to_set() == tags[r[i].0] by {
        assert(m.contains_key(*s[i].0) && m[*s[i].0] == *s[i].1);
    };
    assert forall|x: T| #[trigger] tags.contains_key(x) implies exists|i: int| 0 <= i < r.len() && r[i].0 == x by {
        assert(s.contains((&x, &m[x])));
        let i = choose|i: int| 0 <= i < s.len() && s[i] == (&x, &m[x]);
        assert(r[i].0 == x);
    };
    assert forall|i: int, j: int| 0 <= i < j < r.len() implies #[trigger] r[i].0 != #[trigger] r[j].0 by {
        if r[i].0 == r[j].0 {
            assert(m[*s[i].0] == *s[i].1 && m[*s[j].0] == *s[j].1);
            assert(s[i] == s[j]);
        }
    };
}

/// The part of `all` that follows its prefix `rest`.
pub open spec fn suffix_after<A>(all: Seq<A>, rest: Seq<A>) -> Seq<A> {
    all.subrange(rest.len() as int, all.len() as int)
}

/// Before anything is taken off, the whole sequence is its own prefix and
/// nothing follows it.
proof fn lemma_suffix_start<A>(all: Seq<A>)
    ensures
        all.is_prefix_of(all),
        suffix_after(all, all) == Seq::<A>::empty(),
{
    assert(all.subrange(0, all.len() as int) =~= all);
    assert(suffix_after(all, all) =~= Seq::<A>::empty());
}

/// Taking the last element off a prefix leaves a prefix, and the part that
/// follows it starts with that element.
proof fn lemma_suffix_step<A>(all: Seq<A>, before: Seq<A>, after: Seq<A>)
    requires
        before.is_prefix_of(all),
        before.len() > 0,
        after == before.subrange(0, before.len() - 1),
    ensures
        after.is_prefix_of(all),
        suffix_after(all, after).len() > 0,
        suffix_after(all, after)[0] == before[before.len() - 1],
        suffix_after(all, after).drop_first() == suffix_after(all, before),
{
    assert(after =~= all.subrange(0, after.len() as int));
    assert(suffix_after(all, after).drop_first() =~= suffix_after(all, before));
}

/// Once the prefix is empty, what follows it is the whole sequence.
proof fn lemma_suffix_end<A>(all: Seq<A>, rest: Seq<A>)
    requires
        rest.is_prefix_of(all),
        rest.len() == 0,
    ensures
        suffix_after(all, rest) == all,
{
    assert(suffix_after(all, rest) =~= all);
}

/// Inserts every tag of `items` into `set`.
fn insert_all(set: &mut BTreeSet<(u64, u64)>, items: &Vec<(u64, u64)>)
    ensures
        final(set)@ == old(set)@.union(items@.to_set()),
{
    let ghost s0 = set@;
    let mut j: usize = 0;
    while j < items.len()
        invariant
            j <= items@.len(),
            set@ == s0.union(items@.take(j as int).to_set()),
        decreases items@.len() - j,
    {
        proof {
            assert(items@.take(j + 1) =~= items@.take(j as int).push(items@[j as int]));
            items@.take(j as int).lemma_push_to_set_commute(items@[j as int]);
        }
        set.insert(items[j]);
        j = j + 1;
    }
    proof {
        assert(items@.take(items@.len() as int) =~= items@);
    }
}

/// Every tag in `tags` has a counter of at most `c`.
pub open spec fn set_at_most(tags: Set<(u64, u64)>, c: u64) -> bool {
    forall|t: (u64, u64)| #[trigger] tags.contains(t) ==> t.0 <= c
}

/// Some tag in `tags` has the counter `c`.
pub open spec fn set_has(tags: Set<(u64, u64)>, c: u64) -> bool {
    exists|t: (u64, u64)| #[trigger] tags.contains(t) && t.0 == c
}

/// Every tag of `s`, added or tombstoned, has a counter of at most `c`.
pub open spec fn counters_at_most<T>(s: OrSetState<T>, c: u64) -> bool {
    &&& forall|x: T| #[trigger] set_at_most(tags_for(s.tags, x), c)
    &&& set_at_most(s.tombstones, c)
}

/// Some tag of `s`, added or tombstoned, has the counter `c`.
pub open spec fn counter_seen<T>(s: OrSetState<T>, c: u64) -> bool {
    ||| exists|x: T| #[trigger] set_has(tags_for(s.tags, x), c)
    ||| set_has(s.tombstones, c)
}

/// The largest counter of a tag of `s`, added or tombstoned; 0 when `s` has
/// no tag.
pub open spec fn top_counter<T>(s: OrSetState<T>) -> u64 {
    choose|c: u64| counters_at_most(s, c) && (c == 0 || counter_seen(s, c))
}

/// A bound on every counter that is 0 or itself a counter is the largest
/// counter.
proof fn lemma_top_counter<T>(s: OrSetState<T>, c: u64)
    requires
        counters_at_most(s, c),
        c == 0 || counter_seen(s, c),
    ensures
        top_counter(s) == c,
{
    let d = top_counter(s);
    assert(counters_at_most(s, d) && (d == 0 || counter_seen(s, d)));
    if d != 0 {
        if set_has(s.tombstones, d) {
            let t = choose|t: (u64, u64)| #[trigger] s.tombstones.contains(t) && t.0 == d;
        } else {
            let x = choose|x: T| #[trigger] set_has(tags_for(s.tags, x), d);
            assert(set_at_most(tags_for(s.tags, x), c));
            let t = choose|t: (u64, u64)| #[trigger] tags_for(s.tags, x).contains(t) && t.0 == d;
        }
    }
    if c != 0 {
        if set_has(s.tombstones, c) {
            let t = choose|t: (u64, u64)| #[trigger] s.tombstones.contains(t) && t.0 == c;
        } else {
            let x = choose|x: T| #[trigger] set_has(tags_for(s.tags, x), c);
            assert(set_at_most(tags_for(s.tags, x), d));
            let t = choose|t: (u64, u64)| #[trigger] tags_for(s.tags, x).contains(t) && t.0 == c;
        }
    }
}

/// Once a bound covers a whole walk over a set's tags, it bounds the set.
proof fn lemma_bound_prefix(s: Seq<&(u64, u64)>, n: int, r: u64, acc: u64)
    requires
        0 <= n <= s.len(),
        forall|k: int| 0 <= k < n ==> (*#[trigger] s[k]).0 <= r,
        r == acc || exists|k: int| 0 <= k < n && (*#[trigger] s[k]).0 == r,
    ensures
        n == s.len() ==> set_at_most(s.unref().to_set(), r),
        n == s.len() ==> (r == acc || set_has(s.unref().to_set(), r)),
{
    if n == s.len() {
        assert forall|t: (u64, u64)| #[trigger] s.unref().to_set().contains(t) implies t.0 <= r by {
            let k = choose|k: int| 0 <= k < s.unref().len() && s.unref()[k] == t;
            assert(*s[k] == t);
        };
        if r != acc {
            let k = choose|k: int| 0 <= k < n && (*#[trigger] s[k]).0 == r;
            assert(s.unref()[k] == *s[k]);
            assert(s.unref().to_set().contains(*s[k]));
        }
    }
}

/// The larger of `acc` and the largest counter of a tag in `tags`.
fn max_in(tags: &BTreeSet<(u64, u64)>, acc: u64) -> (r: u64)
    ensures
        acc <= r,
        set_at_most(tags@, r),
        r == acc || set_has(tags@, r),
{
    broadcast use lemma_unref_empty;

    let mut r = acc;
    for t in it: tags.iter()
        invariant
            acc <= r,
            it.seq().unref().to_set() == tags@,
            forall|k: int| 0 <= k < it.index() ==> (*#[trigger] it.seq()[k]).0 <= r,
            r == acc || exists|k: int| 0 <= k < it.index() && (*#[trigger] it.seq()[k]).0 == r,
            it.index() == it.seq().len() ==> set_at_most(tags@, r),
            it.index() == it.seq().len() ==> (r == acc || set_has(tags@, r)),
    {
        let ghost before = r;
        if t.0 > r {
            r = t.0;
        }
        proof {
            assert(*it.seq()[it.index()] == *t);
            assert forall|k: int| 0 <= k < it.index() + 1 implies (*#[trigger] it.seq()[k]).0 <= r by {
                if k < it.index() {
                    assert((*it.seq()[k]).0 <= before);
                }
            };
            if r != before {
                assert((*it.seq()[it.index()]).0 == r);
            }
            lemma_bound_prefix(it.seq(), it.index() + 1, r, acc);
        }
    }
    r
}

/// Once the bounds found cover a whole walk over the tag map, they bound
/// every element's tags.
proof fn lemma_tags_bound<T>(
    tags: Map<T, Set<(u64, u64)>>,
    m: Map<T, BTreeSet<(u64, u64)>>,
    s: Seq<(&T, &BTreeSet<(u64, u64)>)>,
    n: int,
    r: u64,
)
    requires
        tags == m.map_values(|b: BTreeSet<(u64, u64)>| b@),
        lists_entries(m, s),
        0 <= n <= s.len(),
        forall|i: int| 0 <= i < n ==> set_at_most((*(#[trigger] s[i]).1)@, r),
        r == 0 || exists|i: int| 0 <= i < n && set_has((*(#[trigger] s[i]).1)@, r),
    ensures
        n == s.len() ==> forall|x: T| #[trigger] set_at_most(tags_for(tags, x), r),
        n == s.len() ==> (r == 0 || exists|x: T| #[trigger] set_has(tags_for(tags, x), r)),
{
    if n == s.len() {
        assert forall|x: T| #[trigger] set_at_most(tags_for(tags, x), r) by {
            if m.contains_key(x) {
                assert(s.contains((&x, &m[x])));
                let i = choose|i: int| 0 <= i < s.len() && s[i] == (&x, &m[x]);
                assert(set_at_most((*s[i].1)@, r));
            }
        };
        if r != 0 {
            let i = choose|i: int| 0 <= i < n && set_has((*(#[trigger] s[i]).1)@, r);
            let x = *s[i].0;
            assert(m.contains_key(x) && m[x] == *s[i].1);
            assert(set_has(tags_for(tags, x), r));
        }
    }
}

/// Whether some tag in `tags` is not a tombstone.
fn has_live_tag(tags: &BTreeSet<(u64, u64)>, tombstones: &BTreeSet<(u64, u64)>) -> (r: bool)
    ensures
        r == exists|t: (u64, u64)| #[trigger] tags@.contains(t) && !tombstones@.contains(t),
{
    let ghost dead = |t: (u64, u64)| tombstones@.contains(t);
    for t in it: tags.iter()
        invariant
            dead == (|t: (u64, u64)| tombstones@.contains(t)),
            forall|k: int| 0 <= k < it.index() ==> #[trigger] dead(*it.seq()[k]),
            it.seq().unref().to_set() == tags@,
            it.index() == it.seq().len() ==> forall|x: (u64, u64)| #[trigger] tags@.contains(x) ==> dead(x),
    {
        if !tombstones.contains(t) {
            proof {
                assert(it.seq().unref()[it.index()] == *t);
                assert(it.seq().unref().to_set().contains(*t));
            }
            return true;
        }
        proof {
            lemma_prefix_covers(it.seq(), it.index() + 1, dead);
        }
    }
    proof {
        lemma_prefix_covers(Seq::<&(u64, u64)>::empty(), 0, dead);
    }
    false
}

/// An observed-remove set.
///
/// Stores, per element, the set of tags it was added with, and the set of
/// tombstoned tags. An element is present when it has a tag that is not a
/// tombstone.
#[derive(Debug, PartialEq, Eq)]
pub struct OrSet<T> where T: Ord + Clone {
    tags: BTreeMap<T, BTreeSet<(u64, u64)>>,
    tombstones: BTreeSet<(u64, u64)>,
}

impl<T: Ord + Clone> View for OrSet<T> {
    type V = OrSetState<T>;

    closed spec fn view(&self) -> OrSetState<T> {
        OrSetState {
            tags: self.tags@.map_values(|s: BTreeSet<(u64, u64)>| s@),
            tombstones: self.tombstones@,
        }
    }
}

impl<T: Ord + Clone> Clone for OrSet<T> {
    /// A copy with the same tags and tombstones.
    fn clone(&self) -> (r: Self)
        ensures
            r@ == self@,
    {
        let r = OrSet { tags: self.tags.clone(), tombstones: self.tombstones.clone() };
        proof {
            assert(r@.tags =~= self@.tags);
        }
        r
    }
}

impl<T: Ord + Clone> Default for OrSet<T> {
    fn default() -> (r: Self)
        ensures
            r@.tags == Map::<T, Set<(u64, u64)>>::empty(),
            r@.tombstones == Set::<(u64, u64)>::empty(),
    {
        let r = OrSet { tags: BTreeMap::new(), tombstones: BTreeSet::new() };
        proof {
            assert(r@.tags =~= Map::<T, Set<(u64, u64)>>::empty());
        }
        r
    }
}

impl<T: Ord + Clone + Hash> OrSet<T> {
    /// Creates an empty OR-Set.
    pub fn new() -> (r: Self)
        ensures
            r@.tags == Map::<T, Set<(u64, u64)>>::empty(),
            r@.tombstones == Set::<(u64, u64)>::empty(),
    {
        Self::default()
    }

    /// Adds `value` with the tag `tag`, which must be globally unique
    /// (typically from a `LamportClock`).
    pub fn add(&mut self, value: T, tag: LamportTimestamp)
        requires
            obeys_cmp::<T>(),
        ensures
            final(self)@ == orset_added(old(self)@, value, tag),
    {
        let ghost v = value;
        // Inserting under a key already present keeps the stored key, so an
        // element that is already in the map keeps its first representative.
        let mut set = match self.tags.get(&value) {
            Some(s) => s.clone(),
            None => BTreeSet::new(),
        };
        set.insert((tag.counter, tag.replica));
        self.tags.insert(value, set);
        proof {
            assert(self@.tags =~= orset_added(old(self)@, v, tag).tags);
        }
    }

    /// Removes `value` by tombstoning all of its currently observed tags.
    ///
    /// Tags added concurrently by other replicas, not yet seen here, are not
    /// touched and survive the merge.
    pub fn remove(&mut self, value: &T)
        requires
            obeys_cmp::<T>(),
        ensures
            final(self)@.tags == old(self)@.tags,
            final(self)@.tombstones == old(self)@.tombstones.union(tags_for(old(self)@.tags, *value)),
            !is_present(final(self)@, *value),
    {
        broadcast use lemma_unref_empty;

        let ghost t0 = self.tombstones@;
        if let Some(tags) = self.tags.get(value) {
            let ghost added = |t: (u64, u64)| self.tombstones@.contains(t);
            proof {
                assert(self.tags@.contains_key(*value));
                assert(tags@ == tags_for(old(self)@.tags, *value));
            }
            for tag in it: tags.iter()
                invariant
                    obeys_cmp::<T>(),
                    tags@ == tags_for(old(self)@.tags, *value),
                    self.tags == old(self).tags,
                    it.seq().unref().to_set() == tags@,
                    it.seq().len() == tags@.len(),
                    self.tombstones@ == t0.union(it.seq().take(it.index()).unref().to_set()),
                    it.index() == it.seq().len() ==> self.tombstones@ == t0.union(tags@),
            {
                proof {
                    lemma_prefix_step(it.seq(), it.index());
                }
                self.tombstones.insert(*tag);
            }
            proof {
                assert forall|t: (u64, u64)| #[trigger] tags_for(self@.tags, *value).contains(t) implies self@.tombstones.contains(t) by {
                    assert(tags@.contains(t));
                };
            }
        } else {
            proof {
                assert(t0.union(tags_for(old(self)@.tags, *value)) =~= t0);
            }
        }
    }

    /// Whether `value` has at least one tag that is not a tombstone.
    pub fn contains(&self, value: &T) -> (r: bool)
        requires
            obeys_cmp::<T>(),
        ensures
            r == is_present(self@, *value),
    {
        match self.tags.get(value) {
            Some(tags) => {
                proof {
                    assert(self.tags@.contains_key(*value));
                    assert(tags_for(self@.tags, *value) == tags@);
                }
                has_live_tag(tags, &self.tombstones)
            },
            None => {
                proof {
                    assert(tags_for(self@.tags, *value) =~= Set::empty());
                }
                false
            },
        }
    }

    /// The elements currently in the set, in ascending order.
    pub fn iter(&self) -> (r: Vec<&T>)
        requires
            obeys_cmp::<T>(),
        ensures
            r@.unref().to_set() == present_set(self@),
            r@.unref().no_duplicates(),
            forall|i: int, j: int| 0 <= i < j < r@.len() ==> (*#[trigger] r@[i]).cmp_spec(#[trigger] r@[j]) is Less,
    {
        broadcast use lemma_unref_empty;

        let mut r: Vec<&T> = Vec::new();
        let ghost view = self@;
        proof {
            lemma_cmp_irreflexive::<T>();
            if self.tags@.dom().len() == 0 {
                assert(self.tags@.dom() =~= Set::empty());
                assert(present_set(view) =~= Set::empty()) by {
                    assert forall|x: T| !#[trigger] present_set(view).contains(x) by {
                        assert(tags_for(view.tags, x) =~= Set::empty());
                    };
                };
                assert(r@.unref().to_set() =~= Set::empty());
            }
        }
        for (k, tags) in it: self.tags.iter()
            invariant
                obeys_cmp::<T>(),
                view == self@,
                it.seq().len() == self.tags@.dom().len(),
                forall|x: T| #[trigger] self.tags@.contains_key(x) ==> it.seq().contains((&x, &self.tags@[x])),
                forall|i: int| 0 <= i < it.seq().len() ==> self.tags@.contains_key(*(#[trigger] it.seq()[i]).0) && self.tags@[*it.seq()[i].0] == *it.seq()[i].1,
                vstd::std_specs::btree::increasing_seq(it.seq().map_values(|kv: (&T, &BTreeSet<(u64, u64)>)| *kv.0)),
                forall|x: T| !(#[trigger] x.cmp_spec(&x) is Less),
                forall|a: int| 0 <= a < r@.len() ==> is_present(view, *r@[a]) && exists|i: int| 0 <= i < it.index() && *(#[trigger] it.seq()[i]).0 == *r@[a],
                forall|i: int| 0 <= i < it.index() && is_present(view, *(#[trigger] it.seq()[i]).0) ==> r@.unref().contains(*it.seq()[i].0),
                forall|a: int, b: int| 0 <= a < b < r@.len() ==> (*#[trigger] r@[a]).cmp_spec(#[trigger] r@[b]) is Less,
                it.index() == it.seq().len() ==> r@.unref().to_set() == present_set(view),
        {
            let ghost before = r@;
            let ghost idx = it.index();
            let live = has_live_tag(tags, &self.tombstones);
            proof {
                assert(self.tags@.contains_key(*k));
                assert(tags_for(view.tags, *k) == tags@);
                assert(live == is_present(view, *k));
            }
            if live {
                r.push(k);
            }
            proof {
                assert forall|a: int| 0 <= a < r@.len() implies is_present(view, *r@[a]) && exists|i: int| 0 <= i < idx + 1 && *(#[trigger] it.seq()[i]).0 == *r@[a] by {
                    if a < before.len() {
                        assert(r@[a] == before[a]);
                        let i = choose|i: int| 0 <= i < idx && *(#[trigger] it.seq()[i]).0 == *before[a];
                        assert(*it.seq()[i].0 == *r@[a]);
                    } else {
                        assert(*it.seq()[idx].0 == *r@[a]);
                    }
                };
                assert forall|i: int| 0 <= i < idx + 1 && is_present(view, *(#[trigger] it.seq()[i]).0) implies r@.unref().contains(*it.seq()[i].0) by {
                    if i < idx {
                        assert(before.unref().contains(*it.seq()[i].0));
                        let a = choose|a: int| 0 <= a < before.unref().len() && before.unref()[a] == *it.seq()[i].0;
                        assert(r@.unref()[a] == before.unref()[a]);
                    } else {
                        assert(r@.unref()[r@.len() - 1] == *it.seq()[i].0);
                    }
                };
                assert forall|a: int, b: int| 0 <= a < b < r@.len() implies (*#[trigger] r@[a]).cmp_spec(#[trigger] r@[b]) is Less by {
                    if b < before.len() {
                        assert(r@[a] == before[a] && r@[b] == before[b]);
                    } else {
                        assert(r@[a] == before[a]);
                        let i = choose|i: int| 0 <= i < idx && *(#[trigger] it.seq()[i]).0 == *before[a];
                        let ks = it.seq().map_values(|kv: (&T, &BTreeSet<(u64, u64)>)| *kv.0);
                        assert(ks[i] == *it.seq()[i].0 && ks[idx] == *it.seq()[idx].0);
                        assert(ks[i].cmp_spec(&ks[idx]) is Less);
                    }
                };
                lemma_present_cover(view, self.tags@, it.seq(), idx + 1, r@);
            }
        }
        proof {
            assert forall|a: int, b: int| 0 <= a < r@.unref().len() && 0 <= b < r@.unref().len() && a != b implies r@.unref()[a] != r@.unref()[b] by {
                if a < b {
                    assert((*r@[a]).cmp_spec(r@[b]) is Less);
                } else {
                    assert((*r@[b]).cmp_spec(r@[a]) is Less);
                }
            };
        }
        r
    }

    /// The number of elements in the set.
    pub fn len(&self) -> (r: usize)
        requires
            obeys_cmp::<T>(),
        ensures
            r == present_set(self@).len(),
    {
        let present = self.iter();
        proof {
            present@.unref().unique_seq_to_set();
        }
        present.len()
    }

    /// Whether the set has no elements.
    pub fn is_empty(&self) -> (r: bool)
        requires
            obeys_cmp::<T>(),
        ensures
            r == (forall|x: T| !is_present(self@, x)),
    {
        let ghost view = self@;
        proof {
            if self.tags@.dom().len() == 0 {
                assert(self.tags@.dom() =~= Set::empty());
                assert forall|x: T| !is_present(view, x) by {
                    assert(tags_for(view.tags, x) =~= Set::empty());
                };
            }
        }
        for (k, tags) in it: self.tags.iter()
            invariant
                obeys_cmp::<T>(),
                view == self@,
                lists_entries(self.tags@, it.seq()),
                forall|i: int| 0 <= i < it.index() ==> !is_present(view, *(#[trigger] it.seq()[i]).0),
                it.index() == it.seq().len() ==> forall|x: T| !is_present(view, x),
        {
            let live = has_live_tag(tags, &self.tombstones);
            proof {
                assert(self.tags@.contains_key(*k));
                assert(tags_for(view.tags, *k) == tags@);
            }
            if live {
                proof {
                    assert(is_present(view, *k));
                }
                return false;
            }
            proof {
                lemma_none_present(view, self.tags@, it.seq(), it.index() + 1);
            }
        }
        true
    }
}

impl<T: Ord + Clone + Hash> OrSet<T> {
    /// The largest counter of a tag of the set, added or tombstoned; 0 when
    /// the set has no tag.
    pub fn max_counter(&self) -> (r: u64)
        requires
            obeys_cmp::<T>(),
        ensures
            r == top_counter(self@),
            counters_at_most(self@, r),
            r == 0 || counter_seen(self@, r),
    {
        let ghost view = self@;
        let mut r: u64 = 0;
        proof {
            if self.tags@.dom().len() == 0 {
                assert(self.tags@.dom() =~= Set::empty());
                assert forall|x: T| #[trigger] set_at_most(tags_for(view.tags, x), 0) by {
                    assert(!self.tags@.contains_key(x));
                };
            }
        }
        for (k, tags) in it: self.tags.iter()
            invariant
                obeys_cmp::<T>(),
                view == self@,
                lists_entries(self.tags@, it.seq()),
                forall|i: int| 0 <= i < it.index() ==> set_at_most((*(#[trigger] it.seq()[i]).1)@, r),
                r == 0 || exists|i: int| 0 <= i < it.index() && set_has((*(#[trigger] it.seq()[i]).1)@, r),
                it.index() == it.seq().len() ==> forall|x: T| #[trigger] set_at_most(tags_for(view.tags, x), r),
                it.index() == it.seq().len() ==> (r == 0 || exists|x: T| #[trigger] set_has(tags_for(view.tags, x), r)),
        {
            let ghost before = r;
            let ghost idx = it.index();
            r = max_in(tags, r);
            proof {
                assert(*it.seq()[idx].1 == *tags);
                assert forall|i: int| 0 <= i < idx + 1 implies set_at_most((*(#[trigger] it.seq()[i]).1)@, r) by {
                    if i < idx {
                        assert(set_at_most((*it.seq()[i].1)@, before));
                    }
                };
                if r != before {
                    assert(set_has((*it.seq()[idx].1)@, r));
                }
                lemma_tags_bound(view.tags, self.tags@, it.seq(), idx + 1, r);
            }
        }
        let top = max_in(&self.tombstones, r);
        proof {
            assert forall|x: T| #[trigger] set_at_most(tags_for(view.tags, x), top) by {
                assert(set_at_most(tags_for(view.tags, x), r));
            };
            if top != 0 && top == r {
                let x = choose|x: T| #[trigger] set_has(tags_for(view.tags, x), r);
            }
            lemma_top_counter(view, top);
        }
        top
    }

    /// Builds a set from its parts: each element listed with the tags it was
    /// added with, and the tombstoned tags. An element listed more than once
    /// gets the union of its tags.
    pub fn from_parts(entries: Vec<(T, Vec<(u64, u64)>)>, tombstones: Vec<(u64, u64)>) -> (r: Self)
        requires
            obeys_cmp::<T>(),
        ensures
            r@.tags == entries_tags(entries@),
            r@.tombstones == tombstones@.to_set(),
    {
        let ghost all = entries@;
        let mut entries = entries;
        let mut r = Self::new();
        proof {
            lemma_suffix_start(all);
        }
        while entries.len() > 0
            invariant
                obeys_cmp::<T>(),
                entries@.is_prefix_of(all),
                r@.tags == entries_tags(suffix_after(all, entries@)),
                r@.tombstones == Set::<(u64, u64)>::empty(),
            decreases entries@.len(),
        {
            let ghost before = entries@;
            let ghost tags0 = r@.tags;
            let (k, ts) = entries.pop().unwrap();
            proof {
                lemma_suffix_step(all, before, entries@);
            }
            let mut set = match r.tags.remove(&k) {
                Some(s) => s,
                None => BTreeSet::new(),
            };
            proof {
                assert(set@ == tags_for(tags0, k));
            }
            insert_all(&mut set, &ts);
            r.tags.insert(k, set);
            proof {
                assert(r@.tags =~= entries_tags(suffix_after(all, entries@)));
            }
        }
        proof {
            lemma_suffix_end(all, entries@);
        }
        insert_all(&mut r.tombstones, &tombstones);
        proof {
            assert(r@.tombstones =~= tombstones@.to_set());
        }
        r
    }

    /// Splits the set into its parts: each element with its tags, in the
    /// elements' order, and the tombstoned tags.
    pub fn to_parts(&self) -> (r: (Vec<(T, Vec<(u64, u64)>)>, Vec<(u64, u64)>))
        requires
            obeys_cmp::<T>(),
        ensures
            r.0@.len() == self@.tags.dom().len(),
            r.1@.to_set() == self@.tombstones,
            clone_is_exact::<T>() ==> lists_tags(self@.tags, r.0@),
    {
        broadcast use lemma_unref_empty;

        let mut out: Vec<(T, Vec<(u64, u64)>)> = Vec::new();
        for (k, tags) in it: self.tags.iter()
            invariant
                obeys_cmp::<T>(),
                lists_entries(self.tags@, it.seq()),
                out@.len() == it.index(),
                it.index() == it.seq().len() ==> out@.len() == self.tags@.dom().len(),
                forall|i: int| 0 <= i < it.index() ==> (#[trigger] out@[i]).1@.to_set() == (*it.seq()[i].1)@,
                clone_is_exact::<T>() ==> forall|i: int| 0 <= i < it.index() ==> (#[trigger] out@[i]).0 == *it.seq()[i].0,
                clone_is_exact::<T>() && it.index() == it.seq().len() ==> lists_tags(self@.tags, out@),
        {
            let ghost idx = it.index();
            let ghost before = out@;
            let key = k.clone();
            let mut listed: Vec<(u64, u64)> = Vec::new();
            for t in it2: tags.iter()
                invariant
                    it2.seq().unref().to_set() == tags@,
                    listed@ == it2.seq().take(it2.index()).unref(),
                    it2.index() == it2.seq().len() ==> listed@.to_set() == tags@,
            {
                proof {
                    assert(it2.seq().take(it2.index() + 1).unref() =~= it2.seq().take(it2.index()).unref().push(*t));
                    lemma_prefix_step(it2.seq(), it2.index());
                }
                listed.push(*t);
            }
            proof {
                if tags@.len() == 0 {
                    assert(tags@ =~= Set::empty());
                    assert(listed@.to_set() =~= Set::empty());
                }
            }
            out.push((key, listed));
            proof {
                assert forall|i: int| 0 <= i < idx + 1 implies (#[trigger] out@[i]).1@.to_set() == (*it.seq()[i].1)@ by {
                    if i < idx {
                        assert(out@[i] == before[i]);
                    }
                };
                if clone_is_exact::<T>() {
                    assert(cloned(*k, key));
                    assert forall|i: int| 0 <= i < idx + 1 implies (#[trigger] out@[i]).0 == *it.seq()[i].0 by {
                        if i < idx {
                            assert(out@[i] == before[i]);
                        }
                    };
                    lemma_parts_cover(self.tags@, it.seq(), out@);
                }
            }
        }
        proof {
            assert(self@.tags.dom() =~= self.tags@.dom());
            if clone_is_exact::<T>() && self.tags@.dom().len() == 0 {
                assert(self.tags@.dom() =~= Set::empty());
                assert forall|x: T| !#[trigger] self@.tags.contains_key(x) by {
                    assert(!self.tags@.dom().contains(x));
                };
            }
        }
        let mut gone: Vec<(u64, u64)> = Vec::new();
        for t in it3: self.tombstones.iter()
            invariant
                it3.seq().unref().to_set() == self.tombstones@,
                gone@ == it3.seq().take(it3.index()).unref(),
                it3.index() == it3.seq().len() ==> gone@.to_set() == self.tombstones@,
        {
            proof {
                assert(it3.seq().take(it3.index() + 1).unref() =~= it3.seq().take(it3.index()).unref().push(*t));
                lemma_prefix_step(it3.seq(), it3.index());
            }
            gone.push(*t);
        }
        proof {
            if self.tombstones@.len() == 0 {
                assert(self.tombstones@ =~= Set::empty());
                assert(gone@.to_set() =~= Set::empty());
            }
        }
        (out, gone)
    }
}

impl<T: Ord + Clone + Hash> Crdt for OrSet<T> {
    open spec fn merge_allowed() -> bool {
        obeys_cmp::<T>()
    }

    /// Unites each element's tags and unites the tombstones.
    fn merge(&mut self, other: &Self)
        ensures
            final(self)@.tombstones == old(self)@.tombstones.union(other@.tombstones),
            clone_is_exact::<T>() ==> final(self)@ == orset_join(old(self)@, other@),
    {
        broadcast use crate::entries::lemma_nothing_seen;
        broadcast use lemma_unref_empty;

        let ghost a = old(self)@;
        let ghost b = other@;
        proof {
            assert(b.tags.restrict(Set::empty()) =~= Map::empty());
            assert(orset_join(a, OrSetState { tags: Map::empty(), tombstones: Set::empty() }).tags =~= a.tags) by {
                assert forall|x: T| #[trigger] a.tags.contains_key(x) implies tags_for(a.tags, x).union(tags_for(Map::<T, Set<(u64, u64)>>::empty(), x)) == a.tags[x] by {
                    assert(tags_for(a.tags, x).union(Set::empty()) =~= a.tags[x]);
                };
            };
            if other.tags@.dom().len() == 0 {
                assert(other.tags@.dom() =~= Set::empty());
                assert(b.tags.restrict(other.tags@.dom()) =~= b.tags);
            }
        }
        for (k, theirs) in it: other.tags.iter()
            invariant
                obeys_cmp::<T>(),
                a == old(self)@,
                b == other@,
                self.tombstones@ == a.tombstones,
                lists_entries(other.tags@, it.seq()),
                clone_is_exact::<T>() ==> self@.tags == orset_join(
                    a,
                    OrSetState { tags: b.tags.restrict(seen_keys(it.seq().take(it.index()))), tombstones: Set::empty() },
                ).tags,
                clone_is_exact::<T>() && it.index() == it.seq().len() ==> self@.tags == orset_join(
                    a,
                    OrSetState { tags: b.tags, tombstones: Set::empty() },
                ).tags,
        {
            let ghost before = self@.tags;
            let ghost seen = seen_keys(it.seq().take(it.index()));
            proof {
                lemma_seen_step(other.tags@, it.seq(), it.index());
            }
            let mut cur = match self.tags.get(k) {
                Some(s) => s.clone(),
                None => BTreeSet::new(),
            };
            let ghost c0 = cur@;
            for t in it2: theirs.iter()
                invariant
                    it2.seq().unref().to_set() == theirs@,
                    it2.seq().len() == theirs@.len(),
                    cur@ == c0.union(it2.seq().take(it2.index()).unref().to_set()),
                    it2.index() == it2.seq().len() ==> cur@ == c0.union(theirs@),
            {
                proof {
                    lemma_prefix_step(it2.seq(), it2.index());
                }
                cur.insert(*t);
            }
            let key = k.clone();
            self.tags.insert(key, cur);
            proof {
                if clone_is_exact::<T>() {
                    assert(cloned(*k, key));
                    assert(key == *k);
                    assert(tags_for(before, *k) == c0);
                    assert(b.tags[*k] == theirs@);
                    let next = seen.insert(*k);
                    let goal = orset_join(a, OrSetState { tags: b.tags.restrict(next), tombstones: Set::empty() }).tags;
                    let prev = orset_join(a, OrSetState { tags: b.tags.restrict(seen), tombstones: Set::empty() }).tags;
                    assert(before == prev);
                    assert(!seen.contains(*k));
                    assert(tags_for(before, *k) =~= tags_for(a.tags, *k));
                    assert(self@.tags[*k] == cur@);
                    assert(cur@ == c0.union(theirs@));
                    assert(goal[*k] =~= tags_for(a.tags, *k).union(b.tags[*k]));
                    assert forall|x: T| #[trigger] self@.tags.contains_key(x) <==> goal.contains_key(x) by {
                        if x != *k {
                            assert(self@.tags.contains_key(x) == before.contains_key(x));
                        }
                    };
                    assert forall|x: T| #[trigger] self@.tags.contains_key(x) implies self@.tags[x] == goal[x] by {
                        if x != *k {
                            assert(self@.tags[x] == before[x]);
                            assert(tags_for(b.tags.restrict(next), x) =~= tags_for(b.tags.restrict(seen), x));
                        }
                    };
                    assert(self@.tags =~= goal);
                    assert(b.tags.restrict(other.tags@.dom()) =~= b.tags);
                }
            }
        }
        let ghost t1 = self.tombstones@;
        let ghost tags1 = self.tags@;
        for t in it3: other.tombstones.iter()
            invariant
                obeys_cmp::<T>(),
                t1 == a.tombstones,
                self.tags@ == tags1,
                it3.seq().unref().to_set() == other.tombstones@,
                it3.seq().len() == other.tombstones@.len(),
                self.tombstones@ == t1.union(it3.seq().take(it3.index()).unref().to_set()),
                it3.index() == it3.seq().len() ==> self.tombstones@ == t1.union(other.tombstones@),
        {
            proof {
                lemma_prefix_step(it3.seq(), it3.index());
            }
            self.tombstones.insert(*t);
        }
        proof {
            if clone_is_exact::<T>() {
                assert(self@.tags =~= orset_join(a, b).tags);
                assert(self@.tombstones =~= orset_join(a, b).tombstones);
            }
        }
    }
}

/// Merging OR-Sets is commutative.
pub proof fn lemma_orset_merge_commutative<T: Ord + Clone>(a: OrSet<T>, b: OrSet<T>)
    ensures
        orset_join(a@, b@) == orset_join(b@, a@),
{
    let l = orset_join(a@, b@);
    let r = orset_join(b@, a@);
    assert(l.tags =~= r.tags) by {
        assert forall|x: T| #[trigger] l.tags.contains_key(x) implies l.tags[x] == r.tags[x] by {
            assert(l.tags[x] =~= r.tags[x]);
        };
    };
    assert(l.tombstones =~= r.tombstones);
}

/// Merging OR-Sets is associative.
pub proof fn lemma_orset_merge_associative<T: Ord + Clone>(a: OrSet<T>, b: OrSet<T>, c: OrSet<T>)
    ensures
        orset_join(orset_join(a@, b@), c@) == orset_join(a@, orset_join(b@, c@)),
{
    let l = orset_join(orset_join(a@, b@), c@);
    let r = orset_join(a@, orset_join(b@, c@));
    assert(l.tags =~= r.tags) by {
        assert forall|x: T| #[trigger] l.tags.contains_key(x) implies l.tags[x] == r.tags[x] by {
            assert(l.tags[x] =~= r.tags[x]);
        };
    };
    assert(l.tombstones =~= r.tombstones);
}

/// Merging an OR-Set with itself changes nothing.
pub proof fn lemma_orset_merge_idempotent<T: Ord + Clone>(a: OrSet<T>)
    ensures
        orset_join(a@, a@) == a@,
{
    let l = orset_join(a@, a@);
    assert(l.tags =~= a@.tags) by {
        assert forall|x: T| #[trigger] l.tags.contains_key(x) implies l.tags[x] == a@.tags[x] by {
            assert(l.tags[x] =~= a@.tags[x]);
        };
    };
    assert(l.tombstones =~= a@.tombstones);
}

/// Add wins: an element added on one side with a tag that neither side has
/// tombstoned is in the merged set, whatever the other side removed.
pub proof fn lemma_orset_add_wins<T: Ord + Clone>(a: OrSet<T>, b: OrSet<T>, x: T, t: (u64, u64))
    requires
        tags_for(b@.tags, x).contains(t),
        !a@.tombstones.contains(t),
        !b@.tombstones.contains(t),
    ensures
        is_present(orset_join(a@, b@), x),
{
    assert(tags_for(orset_join(a@, b@).tags, x).contains(t));
}

/// An element every tag of which, on either side, is tombstoned on one side
/// or the other is not in the merged set.
pub proof fn lemma_orset_removed_stays_removed<T: Ord + Clone>(a: OrSet<T>, b: OrSet<T>, x: T)
    requires
        forall|t: (u64, u64)| #[trigger] tags_for(a@.tags, x).contains(t) || tags_for(b@.tags, x).contains(t) ==> a@.tombstones.contains(t) || b@.tombstones.contains(t),
    ensures
        !is_present(orset_join(a@, b@), x),
{
}

/// An added element is in the set, as long as its tag has not been
/// tombstoned (tags are unique, so a fresh add is never tombstoned); adding
/// never removes another element.
pub proof fn lemma_orset_add_makes_present<T: Ord + Clone>(a: OrSet<T>, x: T, t: LamportTimestamp, y: T)
    requires
        !a@.tombstones.contains(tag_of(t)),
    ensures
        is_present(orset_added(a@, x, t), x),
        is_present(a@, y) ==> is_present(orset_added(a@, x, t), y),
{
    assert(tags_for(orset_added(a@, x, t).tags, x).contains(tag_of(t)));
    if is_present(a@, y) {
        let u = choose|u: (u64, u64)| #[trigger] tags_for(a@.tags, y).contains(u) && !a@.tombstones.contains(u);
        assert(tags_for(orset_added(a@, x, t).tags, y).contains(u));
    }
}

/// Removing an element makes it absent, and a later add with a fresh tag
/// brings it back.
pub proof fn lemma_orset_readd_after_remove<T: Ord + Clone>(a: OrSet<T>, x: T, t: LamportTimestamp)
    requires
        !a@.tombstones.union(tags_for(a@.tags, x)).contains(tag_of(t)),
    ensures
        !is_present(OrSetState { tags: a@.tags, tombstones: a@.tombstones.union(tags_for(a@.tags, x)) }, x),
        is_present(orset_added(OrSetState { tags: a@.tags, tombstones: a@.tombstones.union(tags_for(a@.tags, x)) }, x, t), x),
{
    let removed = OrSetState { tags: a@.tags, tombstones: a@.tombstones.union(tags_for(a@.tags, x)) };
    assert(tags_for(orset_added(removed, x, t).tags, x).contains(tag_of(t)));
}

/// A list that names each element of `tags` once, with exactly its tags,
/// builds back exactly `tags`.
proof fn lemma_entries_tags_listed<T>(tags: Map<T, Set<(u64, u64)>>, entries: Seq<(T, Vec<(u64, u64)>)>)
    requires
        lists_tags(tags, entries),
    ensures
        entries_tags(entries) == tags,
    decreases entries.len(),
{
    if entries.len() == 0 {
        assert(tags =~= Map::empty()) by {
            assert forall|x: T| !#[trigger] tags.contains_key(x) by {
                if tags.contains_key(x) {
                    let i = choose|i: int| 0 <= i < entries.len() && entries[i].0 == x;
                }
            };
        };
    } else {
        let k = entries[0].0;
        let rest = entries.drop_first();
        let others = tags.remove(k);
        assert forall|i: int| 0 <= i < rest.len() implies others.contains_key(#[trigger] rest[i].0) && rest[i].1@.to_set() == others[rest[i].0] by {
            assert(rest[i] == entries[i + 1]);
            assert(entries[0].0 != entries[i + 1].0);
        };
        assert forall|x: T| #[trigger] others.contains_key(x) implies exists|i: int| 0 <= i < rest.len() && rest[i].0 == x by {
            let i = choose|i: int| 0 <= i < entries.len() && entries[i].0 == x;
            assert(i != 0);
            assert(rest[i - 1] == entries[i]);
        };
        assert forall|i: int, j: int| 0 <= i < j < rest.len() implies #[trigger] rest[i].0 != #[trigger] rest[j].0 by {
            assert(rest[i] == entries[i + 1] && rest[j] == entries[j + 1]);
        };
        lemma_entries_tags_listed(others, rest);
        assert(tags_for(others, k).union(entries[0].1@.to_set()) =~= tags[k]);
        assert(entries_tags(entries) =~= tags);
    }
}

/// Splitting a set into its parts and building a set from them gives the
/// same set: the parts that `to_parts` lists build back exactly the tags they
/// came from (the tombstones come back as the set of the listed ones).
pub proof fn lemma_parts_roundtrip<T: Ord + Clone>(a: OrSet<T>, entries: Seq<(T, Vec<(u64, u64)>)>)
    requires
        lists_tags(a@.tags, entries),
    ensures
        entries_tags(entries) == a@.tags,
{
    lemma_entries_tags_listed(a@.tags, entries);
}

} // verus!
