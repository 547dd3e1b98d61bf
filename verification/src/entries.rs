//! Facts about walking the entries of an ordered map one at a time.
//!
//! A walk over a map's entries yields each key once; these lemmas track the
//! set of keys seen so far as the walk advances.
use vstd::prelude::*;

verus! {

/// The keys of a sequence of map entries, in order.
pub open spec fn entry_keys<K, V>(s: Seq<(&K, &V)>) -> Seq<K> {
    s.map_values(|kv: (&K, &V)| *kv.0)
}

/// The keys of a sequence of map entries, as a set.
pub open spec fn seen_keys<K, V>(s: Seq<(&K, &V)>) -> Set<K> {
    entry_keys(s).to_set()
}

/// A sequence of entries that lists each entry of `m` exactly once.
pub open spec fn lists_entries<K, V>(m: Map<K, V>, s: Seq<(&K, &V)>) -> bool {
    &&& m.dom().finite()
    &&& s.len() == m.dom().len()
    &&& s.no_duplicates()
    &&& forall|j: int| 0 <= j < s.len() ==> m.contains_key(*(#[trigger] s[j]).0) && m[*s[j].0] == *s[j].1
    &&& forall|k: K| #[trigger] m.contains_key(k) ==> s.contains((&k, &m[k]))
}

/// No key has been seen before the walk starts.
pub broadcast proof fn lemma_nothing_seen<K, V>(s: Seq<(&K, &V)>)
    ensures
        #[trigger] seen_keys(s.take(0)) == Set::<K>::empty(),
{
    assert(seen_keys(s.take(0)) =~= Set::<K>::empty());
}

/// One step of the walk adds one new key to the keys seen; after the last
/// step every key of the map has been seen.
pub proof fn lemma_seen_step<K, V>(m: Map<K, V>, s: Seq<(&K, &V)>, i: int)
    requires
        lists_entries(m, s),
        0 <= i < s.len(),
    ensures
        seen_keys(s.take(i + 1)) == seen_keys(s.take(i)).insert(*s[i].0),
        !seen_keys(s.take(i)).contains(*s[i].0),
        seen_keys(s.take(i + 1)).subset_of(m.dom()),
        i + 1 == s.len() ==> seen_keys(s.take(i + 1)) == m.dom(),
{
    let pre = s.take(i);
    let post = s.take(i + 1);
    assert(post =~= pre.push(s[i]));
    assert(entry_keys(post) =~= entry_keys(pre).push(*s[i].0));
    assert(seen_keys(post) =~= seen_keys(pre).insert(*s[i].0)) by {
        assert forall|r: K| seen_keys(post).contains(r) implies seen_keys(pre).insert(*s[i].0).contains(r) by {
            let j = choose|j: int| 0 <= j < entry_keys(post).len() && entry_keys(post)[j] == r;
            if j < i {
                assert(entry_keys(pre)[j] == r);
            }
        };
        assert forall|r: K| seen_keys(pre).insert(*s[i].0).contains(r) implies seen_keys(post).contains(r) by {
            if r == *s[i].0 {
                assert(entry_keys(post)[i] == r);
            } else {
                let j = choose|j: int| 0 <= j < entry_keys(pre).len() && entry_keys(pre)[j] == r;
                assert(entry_keys(post)[j] == r);
            }
        };
    };
    assert(!seen_keys(pre).contains(*s[i].0)) by {
        if seen_keys(pre).contains(*s[i].0) {
            let j = choose|j: int| 0 <= j < pre.len() && #[trigger] entry_keys(pre)[j] == *s[i].0;
            assert(s[j].0 == s[i].0);
            assert(m[*s[j].0] == *s[j].1 && m[*s[i].0] == *s[i].1);
            assert(s[j] == s[i]);
        }
    };
    assert forall|r: K| seen_keys(post).contains(r) implies m.dom().contains(r) by {
        let j = choose|j: int| 0 <= j < entry_keys(post).len() && entry_keys(post)[j] == r;
        assert(s[j].0 == post[j].0);
    };
    if i + 1 == s.len() {
        assert(post =~= s);
        assert(seen_keys(post) =~= m.dom()) by {
            assert forall|r: K| m.dom().contains(r) implies seen_keys(post).contains(r) by {
                let j = choose|j: int| 0 <= j < post.len() && post[j] == (&r, &m[r]);
                assert(entry_keys(post)[j] == r);
            };
        };
    }
}

} // verus!
