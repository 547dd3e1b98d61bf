//! The order in which a replicated growable array lays out its characters.
//!
//! Every character has an id and the id of the character it was inserted
//! after (its parent; `None` for the start of the text). The text is laid out
//! depth first from the start: the children of a character follow it, in
//! descending id order, each one followed by its own descendants.
//!
//! This module defines that layout over a map from ids to parents and proves
//! the facts the text type and its laws rest on: which ids the layout holds,
//! that it holds each at most once, and that it ignores characters it never
//! reaches.
use vstd::prelude::*;

use crate::clock::LamportTimestamp;

verus! {

/// `s` is in strictly descending timestamp order.
pub open spec fn desc(s: Seq<LamportTimestamp>) -> bool {
    forall|i: int, j: int| 0 <= i < j < s.len() ==> #[trigger] s[j].precedes(#[trigger] s[i])
}

/// The ids in `parents` whose parent is `p`.
pub open spec fn children(parents: Map<LamportTimestamp, Option<LamportTimestamp>>, p: Option<LamportTimestamp>) -> Set<LamportTimestamp> {
    Set::new(|v: LamportTimestamp| parents.contains_key(v) && parents[v] == p)
}

/// The elements of a finite set of timestamps in descending order.
pub open spec fn sorted_desc(s: Set<LamportTimestamp>) -> Seq<LamportTimestamp> {
    choose|q: Seq<LamportTimestamp>| desc(q) && q.to_set() == s
}

/// The children of `p`, in descending id order.
pub open spec fn child_order(parents: Map<LamportTimestamp, Option<LamportTimestamp>>, p: Option<LamportTimestamp>) -> Seq<LamportTimestamp> {
    sorted_desc(children(parents, p))
}

/// The layout of everything below `p`: each child of `p` in descending id
/// order, followed by the layout below that child, taken in `parents` without
/// the child itself.
pub open spec fn walk(parents: Map<LamportTimestamp, Option<LamportTimestamp>>, p: Option<LamportTimestamp>) -> Seq<LamportTimestamp>
    decreases parents.dom().len() + 1, 0nat,
{
    if !parents.dom().finite() {
        Seq::empty()
    } else {
        walk_list(parents, child_order(parents, p))
    }
}

/// The layout of the ids in `cs`, each followed by the layout below it.
pub open spec fn walk_list(parents: Map<LamportTimestamp, Option<LamportTimestamp>>, cs: Seq<LamportTimestamp>) -> Seq<LamportTimestamp>
    decreases parents.dom().len(), cs.len(),
{
    if cs.len() == 0 || !parents.dom().finite() {
        Seq::empty()
    } else {
        let c = cs[0];
        let below = if parents.contains_key(c) {
            walk(parents.remove(c), Some(c))
        } else {
            Seq::empty()
        };
        seq![c] + below + walk_list(parents, cs.drop_first())
    }
}

/// The layout of a whole text: everything below the start.
pub open spec fn layout(parents: Map<LamportTimestamp, Option<LamportTimestamp>>) -> Seq<LamportTimestamp> {
    walk(parents, None)
}

/// `path` leads from `path[0]` through parents, without repeating an id, to a
/// last id whose parent is `p`.
pub open spec fn is_path(parents: Map<LamportTimestamp, Option<LamportTimestamp>>, path: Seq<LamportTimestamp>, p: Option<LamportTimestamp>) -> bool {
    &&& path.len() > 0
    &&& path.no_duplicates()
    &&& forall|i: int| 0 <= i < path.len() ==> parents.contains_key(#[trigger] path[i])
    &&& forall|i: int| 0 <= i < path.len() - 1 ==> parents[#[trigger] path[i]] == Some(path[i + 1])
    &&& parents[path.last()] == p
}

/// `v` lies below `p`: some path leads from `v` to `p`.
pub open spec fn reaches(parents: Map<LamportTimestamp, Option<LamportTimestamp>>, v: LamportTimestamp, p: Option<LamportTimestamp>) -> bool {
    exists|path: Seq<LamportTimestamp>| #[trigger] is_path(parents, path, p) && path[0] == v
}

/// Inserting `a` into a descending sequence at its place.
pub open spec fn insert_desc(s: Seq<LamportTimestamp>, a: LamportTimestamp) -> Seq<LamportTimestamp>
    decreases s.len(),
{
    if s.len() == 0 {
        seq![a]
    } else if s[0].precedes(a) {
        seq![a] + s
    } else {
        seq![s[0]] + insert_desc(s.drop_first(), a)
    }
}

proof fn lemma_insert_desc(s: Seq<LamportTimestamp>, a: LamportTimestamp)
    requires
        desc(s),
        !s.contains(a),
    ensures
        desc(insert_desc(s, a)),
        insert_desc(s, a).to_set() == s.to_set().insert(a),
    decreases s.len(),
{
    if s.len() == 0 {
        assert(seq![a].to_set() =~= Set::<LamportTimestamp>::empty().insert(a)) by {
            assert(seq![a][0] == a);
        };
        assert(s.to_set() =~= Set::<LamportTimestamp>::empty());
    } else if s[0].precedes(a) {
        let r = seq![a] + s;
        assert forall|i: int, j: int| 0 <= i < j < r.len() implies #[trigger] r[j].precedes(#[trigger] r[i]) by {
            if i > 0 {
                assert(r[i] == s[i - 1] && r[j] == s[j - 1]);
            } else {
                assert(r[j] == s[j - 1]);
                if j > 1 {
                    assert(s[j - 1].precedes(s[0]));
                }
            }
        };
        assert(r.to_set() =~= s.to_set().insert(a)) by {
            assert forall|x: LamportTimestamp| s.to_set().insert(a).contains(x) implies r.to_set().contains(x) by {
                if x == a {
                    assert(r[0] == a);
                } else {
                    let k = choose|k: int| 0 <= k < s.len() && s[k] == x;
                    assert(r[k + 1] == x);
                }
            };
            assert forall|x: LamportTimestamp| r.to_set().contains(x) implies s.to_set().insert(a).contains(x) by {
                let k = choose|k: int| 0 <= k < r.len() && r[k] == x;
                if k > 0 {
                    assert(s[k - 1] == x);
                }
            };
        };
    } else {
        let t = s.drop_first();
        assert(desc(t)) by {
            assert forall|i: int, j: int| 0 <= i < j < t.len() implies #[trigger] t[j].precedes(#[trigger] t[i]) by {
                assert(t[i] == s[i + 1] && t[j] == s[j + 1]);
            };
        };
        assert(!t.contains(a)) by {
            if t.contains(a) {
                let k = choose|k: int| 0 <= k < t.len() && t[k] == a;
                assert(s[k + 1] == a);
            }
        };
        lemma_insert_desc(t, a);
        let u = insert_desc(t, a);
        let r = seq![s[0]] + u;
        assert(a != s[0]);
        assert(a.precedes(s[0]));
        assert forall|i: int, j: int| 0 <= i < j < r.len() implies #[trigger] r[j].precedes(#[trigger] r[i]) by {
            if i > 0 {
                assert(r[i] == u[i - 1] && r[j] == u[j - 1]);
            } else {
                assert(r[j] == u[j - 1]);
                assert(u.to_set().contains(u[j - 1]));
                if u[j - 1] != a {
                    let k = choose|k: int| 0 <= k < t.len() && t[k] == u[j - 1];
                    assert(s[k + 1] == u[j - 1]);
                }
            }
        };
        assert(r.to_set() =~= s.to_set().insert(a)) by {
            assert forall|x: LamportTimestamp| s.to_set().insert(a).contains(x) implies r.to_set().contains(x) by {
                if x == s[0] {
                    assert(r[0] == x);
                } else {
                    if x != a {
                        let k = choose|k: int| 0 <= k < s.len() && s[k] == x;
                        assert(t[k - 1] == x);
                    }
                    assert(u.to_set().contains(x));
                    let k = choose|k: int| 0 <= k < u.len() && u[k] == x;
                    assert(r[k + 1] == x);
                }
            };
            assert forall|x: LamportTimestamp| r.to_set().contains(x) implies s.to_set().insert(a).contains(x) by {
                let k = choose|k: int| 0 <= k < r.len() && r[k] == x;
                if k > 0 {
                    assert(u[k - 1] == x);
                    assert(u.to_set().contains(x));
                    if x != a {
                        let m = choose|m: int| 0 <= m < t.len() && t[m] == x;
                        assert(s[m + 1] == x);
                    }
                }
            };
        };
    }
}

/// Every finite set of timestamps can be listed in descending order.
pub proof fn lemma_sorted_desc_exists(s: Set<LamportTimestamp>)
    requires
        s.finite(),
    ensures
        desc(sorted_desc(s)),
        sorted_desc(s).to_set() == s,
    decreases s.len(),
{
    if s.len() == 0 {
        assert(s =~= Set::empty());
        let q = Seq::<LamportTimestamp>::empty();
        assert(q.to_set() =~= s);
    } else {
        let a = s.choose();
        lemma_sorted_desc_exists(s.remove(a));
        let t = sorted_desc(s.remove(a));
        assert(!t.contains(a)) by {
            if t.contains(a) {
                assert(t.to_set().contains(a));
            }
        };
        lemma_insert_desc(t, a);
        assert(s.remove(a).insert(a) =~= s);
        assert(desc(insert_desc(t, a)) && insert_desc(t, a).to_set() == s);
    }
}

/// Two descending sequences with the same elements are equal.
pub proof fn lemma_desc_unique(s1: Seq<LamportTimestamp>, s2: Seq<LamportTimestamp>)
    requires
        desc(s1),
        desc(s2),
        s1.to_set() == s2.to_set(),
    ensures
        s1 == s2,
    decreases s1.len(),
{
    if s1.len() == 0 {
        if s2.len() > 0 {
            assert(s2.to_set().contains(s2[0]));
        }
        assert(s1 =~= s2);
    } else {
        assert(s1.to_set().contains(s1[0]));
        assert(s2.len() > 0);
        assert(s2.to_set().contains(s2[0]));
        let k1 = choose|k: int| 0 <= k < s2.len() && s2[k] == s1[0];
        let k2 = choose|k: int| 0 <= k < s1.len() && s1[k] == s2[0];
        if k1 > 0 {
            assert(s2[k1].precedes(s2[0]));
            if k2 > 0 {
                assert(s1[k2].precedes(s1[0]));
            }
        }
        assert(s1[0] == s2[0]);
        let t1 = s1.drop_first();
        let t2 = s2.drop_first();
        assert(desc(t1)) by {
            assert forall|i: int, j: int| 0 <= i < j < t1.len() implies #[trigger] t1[j].precedes(#[trigger] t1[i]) by {
                assert(t1[i] == s1[i + 1] && t1[j] == s1[j + 1]);
            };
        };
        assert(desc(t2)) by {
            assert forall|i: int, j: int| 0 <= i < j < t2.len() implies #[trigger] t2[j].precedes(#[trigger] t2[i]) by {
                assert(t2[i] == s2[i + 1] && t2[j] == s2[j + 1]);
            };
        };
        assert(t1.to_set() =~= t2.to_set()) by {
            assert forall|x: LamportTimestamp| t1.to_set().contains(x) implies t2.to_set().contains(x) by {
                let k = choose|k: int| 0 <= k < t1.len() && t1[k] == x;
                assert(s1[k + 1] == x);
                assert(s1.to_set().contains(x));
                let m = choose|m: int| 0 <= m < s2.len() && s2[m] == x;
                assert(s1[k + 1].precedes(s1[0]));
                assert(m != 0);
                assert(t2[m - 1] == x);
            };
            assert forall|x: LamportTimestamp| t2.to_set().contains(x) implies t1.to_set().contains(x) by {
                let k = choose|k: int| 0 <= k < t2.len() && t2[k] == x;
                assert(s2[k + 1] == x);
                assert(s2.to_set().contains(x));
                let m = choose|m: int| 0 <= m < s1.len() && s1[m] == x;
                assert(s2[k + 1].precedes(s2[0]));
                assert(m != 0);
                assert(t1[m - 1] == x);
            };
        };
        lemma_desc_unique(t1, t2);
        assert(s1 =~= seq![s1[0]] + t1);
        assert(s2 =~= seq![s2[0]] + t2);
    }
}

/// The children of `p` in descending order are exactly the children of `p`,
/// each once.
pub proof fn lemma_child_order(parents: Map<LamportTimestamp, Option<LamportTimestamp>>, p: Option<LamportTimestamp>)
    requires
        parents.dom().finite(),
    ensures
        desc(child_order(parents, p)),
        child_order(parents, p).no_duplicates(),
        forall|c: LamportTimestamp| #[trigger] child_order(parents, p).contains(c) <==> (parents.contains_key(c) && parents[c] == p),
{
    let ch = children(parents, p);
    assert(ch.subset_of(parents.dom()));
    vstd::set_lib::lemma_set_subset_finite(parents.dom(), ch);
    lemma_sorted_desc_exists(ch);
    let q = child_order(parents, p);
    assert forall|c: LamportTimestamp| #[trigger] q.contains(c) <==> (parents.contains_key(c) && parents[c] == p) by {
        assert(q.to_set().contains(c) == q.contains(c));
    };
    assert forall|i: int, j: int| 0 <= i < j < q.len() implies q[i] != q[j] by {
        assert(q[j].precedes(q[i]));
    };
}

/// Concatenating two duplicate-free sequences with no common element gives a
/// duplicate-free sequence.
pub proof fn lemma_no_dup_concat(a: Seq<LamportTimestamp>, b: Seq<LamportTimestamp>)
    requires
        a.no_duplicates(),
        b.no_duplicates(),
        forall|x: LamportTimestamp| a.contains(x) ==> !b.contains(x),
    ensures
        (a + b).no_duplicates(),
{
    let r = a + b;
    assert forall|i: int, j: int| 0 <= i < r.len() && 0 <= j < r.len() && i != j implies r[i] != r[j] by {
        if i < a.len() && j >= a.len() {
            assert(a.contains(r[i]));
            assert(b[j - a.len()] == r[j]);
        } else if j < a.len() && i >= a.len() {
            assert(a.contains(r[j]));
            assert(b[i - a.len()] == r[i]);
        } else if i >= a.len() {
            assert(r[i] == b[i - a.len()] && r[j] == b[j - a.len()]);
        }
    };
}

/// A path below `c` in `parents` without `c`, followed by `c`, is a path to
/// the parent of `c`.
pub proof fn lemma_path_extend(
    parents: Map<LamportTimestamp, Option<LamportTimestamp>>,
    q: Seq<LamportTimestamp>,
    c: LamportTimestamp,
)
    requires
        parents.contains_key(c),
        is_path(parents.remove(c), q, Some(c)),
    ensures
        is_path(parents, q.push(c), parents[c]),
        q.push(c)[0] == q[0],
{
    let r = q.push(c);
    assert(!q.contains(c)) by {
        if q.contains(c) {
            let k = choose|k: int| 0 <= k < q.len() && q[k] == c;
            assert(parents.remove(c).contains_key(q[k]));
        }
    };
    assert forall|i: int| 0 <= i < r.len() implies parents.contains_key(#[trigger] r[i]) by {
        if i < q.len() {
            assert(parents.remove(c).contains_key(q[i]));
        }
    };
    assert forall|i: int| 0 <= i < r.len() - 1 implies parents[#[trigger] r[i]] == Some(r[i + 1]) by {
        assert(parents.remove(c).contains_key(q[i]));
        if i < q.len() - 1 {
            assert(parents.remove(c)[q[i]] == Some(q[i + 1]));
        } else {
            assert(parents.remove(c)[q.last()] == Some(c));
        }
    };
    assert forall|i: int, j: int| 0 <= i < r.len() && 0 <= j < r.len() && i != j implies r[i] != r[j] by {
        if i < q.len() && j < q.len() {
        } else if i < q.len() {
            assert(q.contains(r[i]));
        } else if j < q.len() {
            assert(q.contains(r[j]));
        }
    };
}

/// A path of two or more ids, without its last id `c`, is a path to `c` in
/// `parents` without `c`.
pub proof fn lemma_path_shorten(
    parents: Map<LamportTimestamp, Option<LamportTimestamp>>,
    r: Seq<LamportTimestamp>,
    p: Option<LamportTimestamp>,
)
    requires
        is_path(parents, r, p),
        r.len() >= 2,
    ensures
        is_path(parents.remove(r.last()), r.drop_last(), Some(r.last())),
        r.drop_last()[0] == r[0],
{
    let c = r.last();
    let q = r.drop_last();
    assert forall|i: int| 0 <= i < q.len() implies parents.remove(c).contains_key(#[trigger] q[i]) by {
        assert(r[i] == q[i]);
        assert(r[i] != r[r.len() - 1]);
    };
    assert forall|i: int| 0 <= i < q.len() - 1 implies parents.remove(c)[#[trigger] q[i]] == Some(q[i + 1]) by {
        assert(r[i] == q[i]);
        assert(r[i] != r[r.len() - 1]);
    };
    assert(q[q.len() - 1] == r[r.len() - 2]);
    assert(r[r.len() - 2] != r[r.len() - 1]);
    assert(parents.remove(c)[q.last()] == Some(c));
}

/// Two paths from the same id agree as far as the shorter one goes.
pub proof fn lemma_paths_agree(
    parents: Map<LamportTimestamp, Option<LamportTimestamp>>,
    q: Seq<LamportTimestamp>,
    r: Seq<LamportTimestamp>,
    p1: Option<LamportTimestamp>,
    p2: Option<LamportTimestamp>,
)
    requires
        is_path(parents, q, p1),
        is_path(parents, r, p2),
        q[0] == r[0],
        q.len() <= r.len(),
    ensures
        forall|k: int| 0 <= k < q.len() ==> q[k] == r[k],
{
    assert forall|k: int| 0 <= k < q.len() implies q[k] == r[k] by {
        lemma_paths_agree_upto(parents, q, r, p1, p2, k);
    };
}

proof fn lemma_paths_agree_upto(
    parents: Map<LamportTimestamp, Option<LamportTimestamp>>,
    q: Seq<LamportTimestamp>,
    r: Seq<LamportTimestamp>,
    p1: Option<LamportTimestamp>,
    p2: Option<LamportTimestamp>,
    k: int,
)
    requires
        is_path(parents, q, p1),
        is_path(parents, r, p2),
        q[0] == r[0],
        q.len() <= r.len(),
        0 <= k < q.len(),
    ensures
        q[k] == r[k],
    decreases k,
{
    if k > 0 {
        lemma_paths_agree_upto(parents, q, r, p1, p2, k - 1);
        assert(parents[q[k - 1]] == Some(q[k]));
        assert(parents[r[k - 1]] == Some(r[k]));
    }
}

/// Which ids the layout below `p` holds: exactly those with a path to `p`.
pub proof fn lemma_walk_contains(
    parents: Map<LamportTimestamp, Option<LamportTimestamp>>,
    p: Option<LamportTimestamp>,
    v: LamportTimestamp,
)
    requires
        parents.dom().finite(),
    ensures
        walk(parents, p).contains(v) <==> reaches(parents, v, p),
    decreases parents.dom().len() + 1, 0nat,
{
    let cs = child_order(parents, p);
    lemma_child_order(parents, p);
    assert forall|i: int| 0 <= i < cs.len() implies parents.contains_key(#[trigger] cs[i]) && parents[cs[i]] == p by {
        assert(cs.contains(cs[i]));
    };
    lemma_walk_list_contains(parents, cs, p, v);
    if reaches(parents, v, p) {
        let path = choose|path: Seq<LamportTimestamp>| #[trigger] is_path(parents, path, p) && path[0] == v;
        assert(cs.contains(path.last()));
    }
}

/// Which ids the layout of `cs` holds: those with a path to `p` ending in one
/// of `cs`.
pub proof fn lemma_walk_list_contains(
    parents: Map<LamportTimestamp, Option<LamportTimestamp>>,
    cs: Seq<LamportTimestamp>,
    p: Option<LamportTimestamp>,
    v: LamportTimestamp,
)
    requires
        parents.dom().finite(),
        forall|i: int| 0 <= i < cs.len() ==> parents.contains_key(#[trigger] cs[i]) && parents[cs[i]] == p,
    ensures
        walk_list(parents, cs).contains(v) <==> exists|path: Seq<LamportTimestamp>|
            #[trigger] is_path(parents, path, p) && path[0] == v && cs.contains(path.last()),
    decreases parents.dom().len(), cs.len(),
{
    if cs.len() == 0 {
    } else {
        let c = cs[0];
        let below = walk(parents.remove(c), Some(c));
        let tail = cs.drop_first();
        let rest = walk_list(parents, tail);
        assert(walk_list(parents, cs) == seq![c] + below + rest);
        assert forall|i: int| 0 <= i < tail.len() implies parents.contains_key(#[trigger] tail[i]) && parents[tail[i]] == p by {
            assert(tail[i] == cs[i + 1]);
        };
        lemma_walk_list_contains(parents, tail, p, v);
        lemma_walk_contains(parents.remove(c), Some(c), v);
        let whole = seq![c] + below + rest;
        assert(whole.contains(v) <==> (v == c || below.contains(v) || rest.contains(v))) by {
            if whole.contains(v) {
                let k = choose|k: int| 0 <= k < whole.len() && whole[k] == v;
                if k == 0 {
                } else if k < 1 + below.len() {
                    assert(below[k - 1] == v);
                } else {
                    assert(rest[k - 1 - below.len()] == v);
                }
            }
            if v == c {
                assert(whole[0] == v);
            }
            if below.contains(v) {
                let k = choose|k: int| 0 <= k < below.len() && below[k] == v;
                assert(whole[k + 1] == v);
            }
            if rest.contains(v) {
                let k = choose|k: int| 0 <= k < rest.len() && rest[k] == v;
                assert(whole[k + 1 + below.len()] == v);
            }
        };
        if walk_list(parents, cs).contains(v) {
            if v == c {
                let path = seq![c];
                assert(path.last() == c);
                assert(is_path(parents, path, p));
                assert(cs.contains(path.last()));
            } else if below.contains(v) {
                let q = choose|q: Seq<LamportTimestamp>| #[trigger] is_path(parents.remove(c), q, Some(c)) && q[0] == v;
                lemma_path_extend(parents, q, c);
                assert(q.push(c).last() == c);
                assert(cs.contains(q.push(c).last()));
            } else {
                let path = choose|path: Seq<LamportTimestamp>|
                    #[trigger] is_path(parents, path, p) && path[0] == v && tail.contains(path.last());
                let k = choose|k: int| 0 <= k < tail.len() && tail[k] == path.last();
                assert(cs[k + 1] == path.last());
            }
        }
        if exists|path: Seq<LamportTimestamp>| #[trigger] is_path(parents, path, p) && path[0] == v && cs.contains(path.last()) {
            let path = choose|path: Seq<LamportTimestamp>|
                #[trigger] is_path(parents, path, p) && path[0] == v && cs.contains(path.last());
            if path.last() == c {
                if path.len() == 1 {
                } else {
                    lemma_path_shorten(parents, path, p);
                    assert(reaches(parents.remove(c), v, Some(c)));
                }
            } else {
                let k = choose|k: int| 0 <= k < cs.len() && cs[k] == path.last();
                assert(k != 0);
                assert(tail[k - 1] == path.last());
                assert(tail.contains(path.last()));
            }
        }
    }
}

/// `p` is the start of the text, or an id no longer present: nothing the
/// layout below it reaches can lead back above it.
pub open spec fn detached(parents: Map<LamportTimestamp, Option<LamportTimestamp>>, p: Option<LamportTimestamp>) -> bool {
    match p {
        None => true,
        Some(q) => !parents.contains_key(q),
    }
}

/// The layout below a detached `p` holds each id at most once.
pub proof fn lemma_walk_no_dup(parents: Map<LamportTimestamp, Option<LamportTimestamp>>, p: Option<LamportTimestamp>)
    requires
        parents.dom().finite(),
        detached(parents, p),
    ensures
        walk(parents, p).no_duplicates(),
    decreases parents.dom().len() + 1, 0nat,
{
    let cs = child_order(parents, p);
    lemma_child_order(parents, p);
    assert forall|i: int| 0 <= i < cs.len() implies parents.contains_key(#[trigger] cs[i]) && parents[cs[i]] == p by {
        assert(cs.contains(cs[i]));
    };
    lemma_walk_list_no_dup(parents, cs, p);
}

/// The layout of distinct children of a detached `p` holds each id at most
/// once.
pub proof fn lemma_walk_list_no_dup(
    parents: Map<LamportTimestamp, Option<LamportTimestamp>>,
    cs: Seq<LamportTimestamp>,
    p: Option<LamportTimestamp>,
)
    requires
        parents.dom().finite(),
        detached(parents, p),
        cs.no_duplicates(),
        forall|i: int| 0 <= i < cs.len() ==> parents.contains_key(#[trigger] cs[i]) && parents[cs[i]] == p,
    ensures
        walk_list(parents, cs).no_duplicates(),
    decreases parents.dom().len(), cs.len(),
{
    if cs.len() > 0 {
        let c = cs[0];
        let below = walk(parents.remove(c), Some(c));
        let tail = cs.drop_first();
        let rest = walk_list(parents, tail);
        assert forall|i: int| 0 <= i < tail.len() implies parents.contains_key(#[trigger] tail[i]) && parents[tail[i]] == p by {
            assert(tail[i] == cs[i + 1]);
        };
        assert(tail.no_duplicates()) by {
            assert forall|i: int, j: int| 0 <= i < tail.len() && 0 <= j < tail.len() && i != j implies tail[i] != tail[j] by {
                assert(tail[i] == cs[i + 1] && tail[j] == cs[j + 1]);
            };
        };
        assert(!tail.contains(c)) by {
            if tail.contains(c) {
                let k = choose|k: int| 0 <= k < tail.len() && tail[k] == c;
                assert(cs[k + 1] == c);
            }
        };
        lemma_walk_no_dup(parents.remove(c), Some(c));
        lemma_walk_list_no_dup(parents, tail, p);
        // `c` is not below itself.
        assert(!below.contains(c)) by {
            lemma_walk_contains(parents.remove(c), Some(c), c);
            if below.contains(c) {
                let q = choose|q: Seq<LamportTimestamp>| #[trigger] is_path(parents.remove(c), q, Some(c)) && q[0] == c;
                assert(parents.remove(c).contains_key(q[0]));
            }
        };
        // `c` is not below a later sibling.
        assert(!rest.contains(c)) by {
            lemma_walk_list_contains(parents, tail, p, c);
            if rest.contains(c) {
                let r = choose|r: Seq<LamportTimestamp>| #[trigger] is_path(parents, r, p) && r[0] == c && tail.contains(r.last());
                if r.len() == 1 {
                } else {
                    assert(parents[r[0]] == Some(r[1]));
                    assert(parents.contains_key(r[1]));
                }
            }
        };
        // Nothing is below both `c` and a later sibling.
        assert forall|v: LamportTimestamp| below.contains(v) implies !rest.contains(v) by {
            lemma_walk_contains(parents.remove(c), Some(c), v);
            lemma_walk_list_contains(parents, tail, p, v);
            let q = choose|q: Seq<LamportTimestamp>| #[trigger] is_path(parents.remove(c), q, Some(c)) && q[0] == v;
            lemma_path_extend(parents, q, c);
            let qc = q.push(c);
            if rest.contains(v) {
                let r = choose|r: Seq<LamportTimestamp>| #[trigger] is_path(parents, r, p) && r[0] == v && tail.contains(r.last());
                if qc.len() <= r.len() {
                    lemma_paths_agree(parents, qc, r, p, p);
                    if qc.len() == r.len() {
                        assert(qc.last() == r.last());
                    } else {
                        assert(r[qc.len() - 1] == c);
                        assert(parents[r[qc.len() - 1]] == Some(r[qc.len() as int]));
                        assert(parents.contains_key(r[qc.len() as int]));
                    }
                } else {
                    lemma_paths_agree(parents, r, qc, p, p);
                    assert(qc[r.len() - 1] == r.last());
                    assert(parents[qc[r.len() - 1]] == Some(qc[r.len() as int]));
                    assert(parents.contains_key(qc[r.len() as int]));
                }
            }
        };
        let first = seq![c];
        assert(first.no_duplicates());
        assert forall|x: LamportTimestamp| first.contains(x) implies !below.contains(x) by {
            assert(first[0] == c);
        };
        lemma_no_dup_concat(first, below);
        assert forall|x: LamportTimestamp| (first + below).contains(x) implies !rest.contains(x) by {
            let k = choose|k: int| 0 <= k < (first + below).len() && (first + below)[k] == x;
            if k > 0 {
                assert(below[k - 1] == x);
            }
        };
        lemma_no_dup_concat(first + below, rest);
        assert(walk_list(parents, cs) == first + below + rest);
    }
}

/// The layout below `p` looks only at ids with a path to `p`: keeping any set
/// of ids that holds all of them leaves it unchanged.
pub proof fn lemma_walk_restrict(
    parents: Map<LamportTimestamp, Option<LamportTimestamp>>,
    keep: Set<LamportTimestamp>,
    p: Option<LamportTimestamp>,
)
    requires
        parents.dom().finite(),
        forall|v: LamportTimestamp| reaches(parents, v, p) ==> #[trigger] keep.contains(v),
    ensures
        walk(parents.restrict(keep), p) == walk(parents, p),
    decreases parents.dom().len() + 1, 0nat,
{
    let small = parents.restrict(keep);
    assert(small.dom().subset_of(parents.dom()));
    vstd::set_lib::lemma_set_subset_finite(parents.dom(), small.dom());
    assert(children(small, p) =~= children(parents, p)) by {
        assert forall|v: LamportTimestamp| children(parents, p).contains(v) implies children(small, p).contains(v) by {
            let path = seq![v];
            assert(is_path(parents, path, p));
            assert(keep.contains(v));
        };
    };
    let cs = child_order(parents, p);
    lemma_child_order(parents, p);
    assert forall|i: int| 0 <= i < cs.len() implies parents.contains_key(#[trigger] cs[i]) && parents[cs[i]] == p by {
        assert(cs.contains(cs[i]));
    };
    lemma_walk_list_restrict(parents, keep, cs, p);
}

/// The list form of [`lemma_walk_restrict`].
pub proof fn lemma_walk_list_restrict(
    parents: Map<LamportTimestamp, Option<LamportTimestamp>>,
    keep: Set<LamportTimestamp>,
    cs: Seq<LamportTimestamp>,
    p: Option<LamportTimestamp>,
)
    requires
        parents.dom().finite(),
        forall|v: LamportTimestamp| reaches(parents, v, p) ==> #[trigger] keep.contains(v),
        forall|i: int| 0 <= i < cs.len() ==> parents.contains_key(#[trigger] cs[i]) && parents[cs[i]] == p,
    ensures
        walk_list(parents.restrict(keep), cs) == walk_list(parents, cs),
    decreases parents.dom().len(), cs.len(),
{
    let small = parents.restrict(keep);
    assert(small.dom().subset_of(parents.dom()));
    vstd::set_lib::lemma_set_subset_finite(parents.dom(), small.dom());
    if cs.len() > 0 {
        let c = cs[0];
        let tail = cs.drop_first();
        assert forall|i: int| 0 <= i < tail.len() implies parents.contains_key(#[trigger] tail[i]) && parents[tail[i]] == p by {
            assert(tail[i] == cs[i + 1]);
        };
        assert(is_path(parents, seq![c], p));
        assert(keep.contains(c));
        assert(small.contains_key(c));
        assert(small.remove(c) =~= parents.remove(c).restrict(keep));
        assert forall|v: LamportTimestamp| reaches(parents.remove(c), v, Some(c)) implies #[trigger] keep.contains(v) by {
            let q = choose|q: Seq<LamportTimestamp>| #[trigger] is_path(parents.remove(c), q, Some(c)) && q[0] == v;
            lemma_path_extend(parents, q, c);
            assert(reaches(parents, v, p));
        };
        lemma_walk_restrict(parents.remove(c), keep, Some(c));
        lemma_walk_list_restrict(parents, keep, tail, p);
    }
}

/// A path stays a path in a larger parent map that agrees on its ids.
pub proof fn lemma_path_grow(
    parents: Map<LamportTimestamp, Option<LamportTimestamp>>,
    bigger: Map<LamportTimestamp, Option<LamportTimestamp>>,
    path: Seq<LamportTimestamp>,
    p: Option<LamportTimestamp>,
)
    requires
        is_path(parents, path, p),
        forall|k: LamportTimestamp| #[trigger] parents.contains_key(k) ==> bigger.contains_key(k) && bigger[k] == parents[k],
    ensures
        is_path(bigger, path, p),
{
    assert forall|i: int| 0 <= i < path.len() implies bigger.contains_key(#[trigger] path[i]) by {
        assert(parents.contains_key(path[i]));
    };
    assert forall|i: int| 0 <= i < path.len() - 1 implies bigger[#[trigger] path[i]] == Some(path[i + 1]) by {
        assert(parents.contains_key(path[i]));
    };
    assert(parents.contains_key(path[path.len() - 1]));
}

/// The id placed at position `i` of `w` has a parent in `parents`: `p`, or
/// an id placed before it.
pub open spec fn parent_placed_before(
    parents: Map<LamportTimestamp, Option<LamportTimestamp>>,
    w: Seq<LamportTimestamp>,
    i: int,
    p: Option<LamportTimestamp>,
) -> bool {
    &&& parents.contains_key(w[i])
    &&& (parents[w[i]] == p || exists|j: int| 0 <= j < i && parents[w[i]] == Some(#[trigger] w[j]))
}

/// In the layout below `p`, every id comes after its parent, unless its
/// parent is `p` itself.
pub proof fn lemma_walk_parent_first(parents: Map<LamportTimestamp, Option<LamportTimestamp>>, p: Option<LamportTimestamp>)
    requires
        parents.dom().finite(),
    ensures
        forall|i: int| 0 <= i < walk(parents, p).len() ==> #[trigger] parent_placed_before(parents, walk(parents, p), i, p),
    decreases parents.dom().len() + 1, 0nat,
{
    let cs = child_order(parents, p);
    lemma_child_order(parents, p);
    assert forall|i: int| 0 <= i < cs.len() implies parents.contains_key(#[trigger] cs[i]) && parents[cs[i]] == p by {
        assert(cs.contains(cs[i]));
    };
    lemma_walk_list_parent_first(parents, cs, p);
    assert(walk(parents, p) == walk_list(parents, cs));
}

/// In the layout of children `cs` of `p`, every id comes after its parent,
/// unless its parent is `p` itself.
pub proof fn lemma_walk_list_parent_first(
    parents: Map<LamportTimestamp, Option<LamportTimestamp>>,
    cs: Seq<LamportTimestamp>,
    p: Option<LamportTimestamp>,
)
    requires
        parents.dom().finite(),
        forall|i: int| 0 <= i < cs.len() ==> parents.contains_key(#[trigger] cs[i]) && parents[cs[i]] == p,
    ensures
        forall|i: int| 0 <= i < walk_list(parents, cs).len() ==> #[trigger] parent_placed_before(parents, walk_list(parents, cs), i, p),
    decreases parents.dom().len(), cs.len(),
{
    if cs.len() > 0 {
        let c = cs[0];
        let pr = parents.remove(c);
        assert(parents.contains_key(c));
        lemma_walk_parent_first(pr, Some(c));
        let tail = cs.drop_first();
        assert forall|i: int| 0 <= i < tail.len() implies parents.contains_key(#[trigger] tail[i]) && parents[tail[i]] == p by {
            assert(tail[i] == cs[i + 1]);
        };
        lemma_walk_list_parent_first(parents, tail, p);
        let below = walk(pr, Some(c));
        let rest = walk_list(parents, tail);
        let w = walk_list(parents, cs);
        assert(w == seq![c] + below + rest);
        assert forall|i: int| 0 <= i < w.len() implies #[trigger] parent_placed_before(parents, w, i, p) by {
            if i == 0 {
                assert(w[0] == c);
            } else if i < 1 + below.len() {
                let k = i - 1;
                assert(w[i] == below[k]);
                assert(parent_placed_before(pr, below, k, Some(c)));
                assert(parents.contains_key(below[k]) && parents[below[k]] == pr[below[k]]);
                if pr[below[k]] == Some(c) {
                    assert(w[0] == c);
                } else {
                    let j = choose|j: int| 0 <= j < k && pr[below[k]] == Some(#[trigger] below[j]);
                    assert(w[j + 1] == below[j]);
                }
            } else {
                let k = i - 1 - below.len();
                assert(w[i] == rest[k]);
                assert(parent_placed_before(parents, rest, k, p));
                if parents[rest[k]] != p {
                    let j = choose|j: int| 0 <= j < k && parents[rest[k]] == Some(#[trigger] rest[j]);
                    assert(w[1 + below.len() + j] == rest[j]);
                }
            }
        };
    }
}

/// In the layout below a detached `p`, the ids whose parent is `p` are its
/// children, and any two ids with the same parent come in descending order.
pub proof fn lemma_walk_siblings(parents: Map<LamportTimestamp, Option<LamportTimestamp>>, p: Option<LamportTimestamp>)
    requires
        parents.dom().finite(),
        detached(parents, p),
    ensures
        forall|i: int|
            0 <= i < walk(parents, p).len() && parents[#[trigger] walk(parents, p)[i]] == p ==> child_order(parents, p).contains(
                walk(parents, p)[i],
            ),
        forall|i: int, j: int|
            0 <= i < j < walk(parents, p).len() && parents[#[trigger] walk(parents, p)[i]] == parents[#[trigger] walk(parents, p)[j]]
                ==> walk(parents, p)[j].precedes(walk(parents, p)[i]),
    decreases parents.dom().len() + 1, 0nat,
{
    let cs = child_order(parents, p);
    lemma_child_order(parents, p);
    assert forall|i: int| 0 <= i < cs.len() implies parents.contains_key(#[trigger] cs[i]) && parents[cs[i]] == p by {
        assert(cs.contains(cs[i]));
    };
    lemma_walk_list_siblings(parents, cs, p);
    assert(walk(parents, p) == walk_list(parents, cs));
}

/// In the layout of distinct children `cs` of a detached `p`, listed in
/// descending order, the ids whose parent is `p` are those of `cs`, and any
/// two ids with the same parent come in descending order.
pub proof fn lemma_walk_list_siblings(
    parents: Map<LamportTimestamp, Option<LamportTimestamp>>,
    cs: Seq<LamportTimestamp>,
    p: Option<LamportTimestamp>,
)
    requires
        parents.dom().finite(),
        detached(parents, p),
        cs.no_duplicates(),
        desc(cs),
        forall|i: int| 0 <= i < cs.len() ==> parents.contains_key(#[trigger] cs[i]) && parents[cs[i]] == p,
    ensures
        forall|i: int|
            0 <= i < walk_list(parents, cs).len() && parents[#[trigger] walk_list(parents, cs)[i]] == p ==> cs.contains(
                walk_list(parents, cs)[i],
            ),
        forall|i: int, j: int|
            0 <= i < j < walk_list(parents, cs).len() && parents[#[trigger] walk_list(parents, cs)[i]]
                == parents[#[trigger] walk_list(parents, cs)[j]] ==> walk_list(parents, cs)[j].precedes(walk_list(parents, cs)[i]),
    decreases parents.dom().len(), cs.len(),
{
    if cs.len() > 0 {
        let c = cs[0];
        let pr = parents.remove(c);
        assert(parents.contains_key(c));
        let tail = cs.drop_first();
        assert forall|i: int| 0 <= i < tail.len() implies parents.contains_key(#[trigger] tail[i]) && parents[tail[i]] == p by {
            assert(tail[i] == cs[i + 1]);
        };
        assert(desc(tail)) by {
            assert forall|a: int, b: int| 0 <= a < b < tail.len() implies #[trigger] tail[b].precedes(#[trigger] tail[a]) by {
                assert(tail[a] == cs[a + 1] && tail[b] == cs[b + 1]);
            };
        };
        assert(tail.no_duplicates()) by {
            assert forall|a: int, b: int| 0 <= a < tail.len() && 0 <= b < tail.len() && a != b implies tail[a] != tail[b] by {
                assert(tail[a] == cs[a + 1] && tail[b] == cs[b + 1]);
            };
        };
        lemma_walk_siblings(pr, Some(c));
        lemma_walk_parent_first(pr, Some(c));
        lemma_walk_list_siblings(parents, tail, p);
        lemma_walk_list_parent_first(parents, tail, p);
        lemma_walk_list_no_dup(parents, cs, p);
        let below = walk(pr, Some(c));
        let rest = walk_list(parents, tail);
        let w = walk_list(parents, cs);
        assert(w == seq![c] + below + rest);
        let nb = below.len() as int;
        // An id of `below` never has the parent `p`, which is detached from
        // `parents`.
        assert forall|k: int| 0 <= k < nb implies parents.contains_key(#[trigger] below[k]) && parents[below[k]] != p
            && (parents[below[k]] == Some(c) || exists|j: int| 0 <= j < k && parents[below[k]] == Some(below[j])) by {
            assert(parent_placed_before(pr, below, k, Some(c)));
            if pr[below[k]] != Some(c) {
                let j = choose|j: int| 0 <= j < k && pr[below[k]] == Some(#[trigger] below[j]);
                assert(parent_placed_before(pr, below, j, Some(c)));
            }
        };
        assert forall|k: int| 0 <= k < rest.len() implies parents.contains_key(#[trigger] rest[k])
            && (parents[rest[k]] == p || exists|j: int| 0 <= j < k && parents[rest[k]] == Some(rest[j])) by {
            assert(parent_placed_before(parents, rest, k, p));
        };
        assert forall|i: int| 0 <= i < w.len() && parents[#[trigger] w[i]] == p implies cs.contains(w[i]) by {
            if i == 0 {
                assert(cs[0] == w[0]);
            } else if i < 1 + nb {
                assert(w[i] == below[i - 1]);
            } else {
                let k = i - 1 - nb;
                assert(w[i] == rest[k]);
                assert(tail.contains(rest[k]));
                let m = choose|m: int| 0 <= m < tail.len() && tail[m] == rest[k];
                assert(cs[m + 1] == tail[m]);
            }
        };
        assert forall|i: int, j: int| 0 <= i < j < w.len() && parents[#[trigger] w[i]] == parents[#[trigger] w[j]] implies w[j].precedes(
            w[i],
        ) by {
            if i == 0 {
                if j < 1 + nb {
                    assert(w[j] == below[j - 1]);
                } else {
                    let k = j - 1 - nb;
                    assert(w[j] == rest[k]);
                    assert(tail.contains(rest[k]));
                    let m = choose|m: int| 0 <= m < tail.len() && tail[m] == rest[k];
                    assert(cs[m + 1] == tail[m]);
                    assert(cs[m + 1].precedes(cs[0]));
                }
            } else if i < 1 + nb {
                if j < 1 + nb {
                    assert(w[i] == below[i - 1] && w[j] == below[j - 1]);
                    assert(pr[below[i - 1]] == pr[below[j - 1]]);
                } else {
                    let ki = i - 1;
                    let kj = j - 1 - nb;
                    assert(w[i] == below[ki] && w[j] == rest[kj]);
                    if parents[rest[kj]] != p {
                        let jr = choose|jr: int| 0 <= jr < kj && parents[rest[kj]] == Some(rest[jr]);
                        assert(w[1 + nb + jr] == rest[jr]);
                        if parents[below[ki]] == Some(c) {
                            assert(w[0] == c);
                            assert(w[0] != w[1 + nb + jr]);
                        } else {
                            let jb = choose|jb: int| 0 <= jb < ki && parents[below[ki]] == Some(below[jb]);
                            assert(w[1 + jb] == below[jb]);
                            assert(w[1 + jb] != w[1 + nb + jr]);
                        }
                    }
                }
            } else {
                assert(w[i] == rest[i - 1 - nb] && w[j] == rest[j - 1 - nb]);
            }
        };
    }
}

/// Removing an id whose parent is not `Some(x)` leaves the children of `x`
/// and their order unchanged.
proof fn lemma_child_order_remove(
    parents: Map<LamportTimestamp, Option<LamportTimestamp>>,
    c: LamportTimestamp,
    x: LamportTimestamp,
)
    requires
        parents.contains_key(c),
        parents[c] != Some(x),
    ensures
        child_order(parents.remove(c), Some(x)) == child_order(parents, Some(x)),
{
    assert(children(parents.remove(c), Some(x)) =~= children(parents, Some(x)));
}

/// In the layout below a detached `p`, an id that has children is directly
/// followed by its greatest child, and the layout starts with the greatest
/// child of `p`.
pub proof fn lemma_walk_first_child(parents: Map<LamportTimestamp, Option<LamportTimestamp>>, p: Option<LamportTimestamp>)
    requires
        parents.dom().finite(),
        detached(parents, p),
    ensures
        child_order(parents, p).len() > 0 ==> walk(parents, p).len() > 0 && walk(parents, p)[0] == child_order(parents, p)[0],
        forall|i: int|
            0 <= i < walk(parents, p).len() && child_order(parents, Some(#[trigger] walk(parents, p)[i])).len() > 0 ==> i + 1
                < walk(parents, p).len() && walk(parents, p)[i + 1] == child_order(parents, Some(walk(parents, p)[i]))[0],
    decreases parents.dom().len() + 1, 0nat,
{
    let cs = child_order(parents, p);
    lemma_child_order(parents, p);
    assert forall|i: int| 0 <= i < cs.len() implies parents.contains_key(#[trigger] cs[i]) && parents[cs[i]] == p by {
        assert(cs.contains(cs[i]));
    };
    lemma_walk_list_first_child(parents, cs, p);
    assert(walk(parents, p) == walk_list(parents, cs));
}

/// In the layout of children `cs` of a detached `p`, an id that has children
/// is directly followed by its greatest child, and the layout starts with
/// `cs[0]`.
pub proof fn lemma_walk_list_first_child(
    parents: Map<LamportTimestamp, Option<LamportTimestamp>>,
    cs: Seq<LamportTimestamp>,
    p: Option<LamportTimestamp>,
)
    requires
        parents.dom().finite(),
        detached(parents, p),
        forall|i: int| 0 <= i < cs.len() ==> parents.contains_key(#[trigger] cs[i]) && parents[cs[i]] == p,
    ensures
        cs.len() > 0 ==> walk_list(parents, cs).len() > 0 && walk_list(parents, cs)[0] == cs[0],
        forall|i: int|
            0 <= i < walk_list(parents, cs).len() && child_order(parents, Some(#[trigger] walk_list(parents, cs)[i])).len() > 0
                ==> i + 1 < walk_list(parents, cs).len() && walk_list(parents, cs)[i + 1] == child_order(
                parents,
                Some(walk_list(parents, cs)[i]),
            )[0],
    decreases parents.dom().len(), cs.len(),
{
    if cs.len() > 0 {
        let c = cs[0];
        let pr = parents.remove(c);
        assert(parents.contains_key(c));
        let tail = cs.drop_first();
        assert forall|i: int| 0 <= i < tail.len() implies parents.contains_key(#[trigger] tail[i]) && parents[tail[i]] == p by {
            assert(tail[i] == cs[i + 1]);
        };
        lemma_walk_first_child(pr, Some(c));
        lemma_walk_parent_first(pr, Some(c));
        lemma_walk_list_first_child(parents, tail, p);
        let below = walk(pr, Some(c));
        let rest = walk_list(parents, tail);
        let w = walk_list(parents, cs);
        assert(w == seq![c] + below + rest);
        let nb = below.len() as int;
        assert forall|i: int|
            0 <= i < w.len() && child_order(parents, Some(#[trigger] w[i])).len() > 0 implies i + 1 < w.len() && w[i + 1]
            == child_order(parents, Some(w[i]))[0] by {
            if i == 0 {
                assert(w[0] == c);
                lemma_child_order_remove(parents, c, c);
            } else if i < 1 + nb {
                let k = i - 1;
                assert(w[i] == below[k]);
                assert(parent_placed_before(pr, below, k, Some(c)));
                lemma_child_order_remove(parents, c, below[k]);
                assert(w[i + 1] == below[k + 1]);
            } else {
                assert(w[i] == rest[i - 1 - nb]);
            }
        };
    }
}

} // verus!
