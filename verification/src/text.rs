//! Text CRDT: the replicated growable array (RGA).
//!
//! Each character has an immutable id (a [`LamportTimestamp`]) and is inserted
//! *after* a given id rather than at an index, so concurrent insertions from
//! different replicas interleave deterministically. Deleting leaves a
//! tombstone. The characters are kept in the layout of
//! [`crate::arrangement`]: a character follows its parent, and siblings come
//! in descending id order.
use vstd::prelude::*;

use crate::arrangement::{
    lemma_walk_first_child, lemma_walk_parent_first, lemma_walk_siblings, parent_placed_before,
    child_order, desc, is_path, layout, lemma_child_order, lemma_desc_unique, lemma_path_grow,
    lemma_walk_contains, lemma_walk_no_dup, lemma_walk_restrict, reaches,
    walk, walk_list,
};
use crate::clock::LamportTimestamp;
use crate::Crdt;

verus! {

/// One character of the text.
#[derive(Debug, Clone, Copy, PartialEq, Eq, Structural)]
pub struct Node {
    /// The character's unique id.
    pub id: LamportTimestamp,
    /// The id of the character it was inserted after; `None` for the start.
    pub parent: Option<LamportTimestamp>,
    /// The character itself.
    pub value: char,
    /// Whether it has been deleted (a tombstone).
    pub deleted: bool,
}

/// The ids of a sequence of characters, in order.
pub open spec fn ids_of(s: Seq<Node>) -> Seq<LamportTimestamp> {
    s.map_values(|n: Node| n.id)
}

/// The characters of `s` by id.
pub open spec fn node_map(s: Seq<Node>) -> Map<LamportTimestamp, Node> {
    Map::new(
        |id: LamportTimestamp| ids_of(s).contains(id),
        |id: LamportTimestamp| s[choose|i: int| 0 <= i < s.len() && s[i].id == id],
    )
}

/// The parent of each character in `m`.
pub open spec fn parent_map(m: Map<LamportTimestamp, Node>) -> Map<LamportTimestamp, Option<LamportTimestamp>> {
    m.map_values(|n: Node| n.parent)
}

/// The characters of `m` with the given ids, in the given order.
pub open spec fn render(m: Map<LamportTimestamp, Node>, order: Seq<LamportTimestamp>) -> Seq<Node> {
    order.map_values(|id: LamportTimestamp| m[id])
}

/// The characters of `m` in text order.
pub open spec fn arranged(m: Map<LamportTimestamp, Node>) -> Seq<Node> {
    render(m, layout(parent_map(m)))
}

/// Every character in `m` is stored under its own id.
pub open spec fn well_keyed(m: Map<LamportTimestamp, Node>) -> bool {
    forall|k: LamportTimestamp| #[trigger] m.contains_key(k) ==> m[k].id == k
}

/// A valid text state: ids are unique and the characters are in text order,
/// each reachable from the start.
pub open spec fn rga_valid(s: Seq<Node>) -> bool {
    &&& ids_of(s).no_duplicates()
    &&& s == arranged(node_map(s))
}

/// The union of two sets of characters by id. A character present in both
/// keeps the first one's fields, and is deleted if either copy is.
pub open spec fn union_nodes(a: Map<LamportTimestamp, Node>, b: Map<LamportTimestamp, Node>) -> Map<LamportTimestamp, Node> {
    Map::new(
        |k: LamportTimestamp| a.contains_key(k) || b.contains_key(k),
        |k: LamportTimestamp|
            if a.contains_key(k) {
                if b.contains_key(k) && b[k].deleted {
                    Node { deleted: true, ..a[k] }
                } else {
                    a[k]
                }
            } else {
                b[k]
            },
    )
}

/// The state reached by merging text state `b` into text state `a`.
pub open spec fn rga_join(a: Seq<Node>, b: Seq<Node>) -> Seq<Node> {
    arranged(union_nodes(node_map(a), node_map(b)))
}

/// Characters with the same id in `a` and `b` were inserted after the same
/// parent with the same value: ids were used once, as they must be.
pub open spec fn consistent(a: Seq<Node>, b: Seq<Node>) -> bool {
    forall|k: LamportTimestamp|
        #![trigger node_map(a)[k], node_map(b)[k]]
        node_map(a).contains_key(k) && node_map(b).contains_key(k) ==> node_map(a)[k].parent
            == node_map(b)[k].parent && node_map(a)[k].value == node_map(b)[k].value
}

/// The characters that are not deleted, in order.
pub open spec fn visible(s: Seq<Node>) -> Seq<Node>
    decreases s.len(),
{
    if s.len() == 0 {
        Seq::empty()
    } else if s.last().deleted {
        visible(s.drop_last())
    } else {
        visible(s.drop_last()).push(s.last())
    }
}

/// The rendered text: the values of the visible characters.
pub open spec fn text_of(s: Seq<Node>) -> Seq<char> {
    visible(s).map_values(|n: Node| n.value)
}

/// `s` with the character `id` (if any) marked deleted.
pub open spec fn mark_deleted(s: Seq<Node>, id: LamportTimestamp) -> Seq<Node> {
    s.map_values(|n: Node| if n.id == id { Node { deleted: true, ..n } } else { n })
}

/// With unique ids, each character is found in `node_map` under its id, and
/// `node_map` holds nothing else.
pub proof fn lemma_node_map(s: Seq<Node>)
    requires
        ids_of(s).no_duplicates(),
    ensures
        forall|i: int| 0 <= i < s.len() ==> #[trigger] node_map(s).contains_key(s[i].id) && node_map(s)[s[i].id] == s[i],
        forall|k: LamportTimestamp| #[trigger] node_map(s).contains_key(k) <==> exists|i: int| 0 <= i < s.len() && s[i].id == k,
        well_keyed(node_map(s)),
        node_map(s).dom().finite(),
        node_map(s).dom() == ids_of(s).to_set(),
{
    let m = node_map(s);
    assert forall|i: int| 0 <= i < s.len() implies #[trigger] m.contains_key(s[i].id) && m[s[i].id] == s[i] by {
        assert(ids_of(s)[i] == s[i].id);
        let j = choose|j: int| 0 <= j < s.len() && s[j].id == s[i].id;
        assert(ids_of(s)[j] == ids_of(s)[i]);
    };
    assert forall|k: LamportTimestamp| #[trigger] m.contains_key(k) <==> exists|i: int| 0 <= i < s.len() && s[i].id == k by {
        if m.contains_key(k) {
            let i = choose|i: int| 0 <= i < ids_of(s).len() && ids_of(s)[i] == k;
            assert(s[i].id == k);
        }
        if exists|i: int| 0 <= i < s.len() && s[i].id == k {
            let i = choose|i: int| 0 <= i < s.len() && s[i].id == k;
            assert(ids_of(s)[i] == k);
        }
    };
    assert forall|k: LamportTimestamp| #[trigger] m.contains_key(k) implies m[k].id == k by {
        let i = choose|i: int| 0 <= i < s.len() && s[i].id == k;
        assert(m[s[i].id] == s[i]);
    };
    assert(m.dom() =~= ids_of(s).to_set());
    vstd::seq_lib::seq_to_set_is_finite(ids_of(s));
}

/// Laying out any finite, well-keyed set of characters gives a valid text
/// state holding exactly the characters reachable from the start.
pub proof fn lemma_arranged_valid(m: Map<LamportTimestamp, Node>)
    requires
        m.dom().finite(),
        well_keyed(m),
    ensures
        ids_of(arranged(m)) == layout(parent_map(m)),
        rga_valid(arranged(m)),
        node_map(arranged(m)) == m.restrict(layout(parent_map(m)).to_set()),
        forall|k: LamportTimestamp| #[trigger] layout(parent_map(m)).contains(k) <==> reaches(parent_map(m), k, None),
        forall|k: LamportTimestamp| layout(parent_map(m)).contains(k) ==> #[trigger] m.contains_key(k),
{
    let pm = parent_map(m);
    assert(pm.dom() =~= m.dom());
    let w = layout(pm);
    assert forall|k: LamportTimestamp| #[trigger] w.contains(k) <==> reaches(pm, k, None) by {
        lemma_walk_contains(pm, None, k);
    };
    assert forall|k: LamportTimestamp| w.contains(k) implies #[trigger] m.contains_key(k) by {
        let path = choose|path: Seq<LamportTimestamp>| #[trigger] is_path(pm, path, None) && path[0] == k;
        assert(pm.contains_key(path[0]));
    };
    let s = render(m, w);
    assert(ids_of(s) =~= w) by {
        assert forall|i: int| 0 <= i < w.len() implies #[trigger] ids_of(s)[i] == w[i] by {
            assert(w.contains(w[i]));
            assert(m.contains_key(w[i]));
        };
    };
    lemma_walk_no_dup(pm, None);
    lemma_node_map(s);
    let r = w.to_set();
    assert(node_map(s) =~= m.restrict(r)) by {
        assert forall|k: LamportTimestamp| #[trigger] node_map(s).contains_key(k) implies node_map(s)[k] == m[k] by {
            let i = choose|i: int| 0 <= i < s.len() && s[i].id == k;
            assert(ids_of(s)[i] == w[i]);
        };
        assert forall|k: LamportTimestamp| #[trigger] m.restrict(r).contains_key(k) implies node_map(s).contains_key(k) by {
            let i = choose|i: int| 0 <= i < w.len() && w[i] == k;
            assert(ids_of(s)[i] == k);
            assert(s[i].id == k);
        };
    };
    let small = m.restrict(r);
    assert(parent_map(small) =~= pm.restrict(r));
    assert forall|v: LamportTimestamp| reaches(pm, v, None) implies #[trigger] r.contains(v) by {
        assert(w.contains(v));
    };
    lemma_walk_restrict(pm, r, None);
    assert(render(small, w) =~= s) by {
        assert forall|i: int| 0 <= i < w.len() implies #[trigger] render(small, w)[i] == s[i] by {
            assert(w.contains(w[i]));
            assert(r.contains(w[i]));
        };
    };
}

/// Every character of `m` leads back to the start: following parents from
/// it, without a cycle, ends at a character inserted at the start.
pub open spec fn rooted(m: Map<LamportTimestamp, Node>) -> bool {
    forall|k: LamportTimestamp| #[trigger] m.contains_key(k) ==> reaches(parent_map(m), k, None)
}

/// Laying out characters that all lead back to the start keeps every one of
/// them, each exactly once: the layout is a permutation of the characters.
pub proof fn lemma_arranged_keeps_rooted(m: Map<LamportTimestamp, Node>)
    requires
        m.dom().finite(),
        well_keyed(m),
        rooted(m),
    ensures
        rga_valid(arranged(m)),
        node_map(arranged(m)) == m,
        arranged(m).len() == m.dom().len(),
{
    lemma_arranged_valid(m);
    let w = layout(parent_map(m));
    assert(w.to_set() =~= m.dom()) by {
        assert forall|k: LamportTimestamp| m.contains_key(k) implies #[trigger] w.to_set().contains(k) by {
            assert(w.contains(k));
        };
    };
    assert(m.restrict(w.to_set()) =~= m);
    w.unique_seq_to_set();
}

/// The characters of a valid text state all lead back to the start.
proof fn lemma_valid_rooted(s: Seq<Node>)
    requires
        rga_valid(s),
    ensures
        rooted(node_map(s)),
{
    lemma_node_map(s);
    lemma_arranged_valid(node_map(s));
    assert forall|k: LamportTimestamp| #[trigger] node_map(s).contains_key(k) implies reaches(parent_map(node_map(s)), k, None) by {
        let i = choose|i: int| 0 <= i < s.len() && s[i].id == k;
        assert(ids_of(s)[i] == k);
        assert(layout(parent_map(node_map(s))).contains(k));
    };
}

/// Adding a character whose parent is the start or a present character keeps
/// every character leading back to the start.
proof fn lemma_rooted_insert(m: Map<LamportTimestamp, Node>, n: Node)
    requires
        rooted(m),
        !m.contains_key(n.id),
        n.parent matches Some(p) ==> m.contains_key(p),
    ensures
        rooted(m.insert(n.id, n)),
{
    let m2 = m.insert(n.id, n);
    let pm = parent_map(m);
    let pm2 = parent_map(m2);
    assert forall|k: LamportTimestamp| #[trigger] pm.contains_key(k) implies pm2.contains_key(k) && pm2[k] == pm[k] by {
        assert(k != n.id);
    };
    assert forall|k: LamportTimestamp| #[trigger] m2.contains_key(k) implies reaches(pm2, k, None) by {
        if k != n.id {
            let path = choose|path: Seq<LamportTimestamp>| #[trigger] is_path(pm, path, None) && path[0] == k;
            lemma_path_grow(pm, pm2, path, None);
        } else {
            match n.parent {
                None => {
                    assert(is_path(pm2, seq![k], None));
                },
                Some(p) => {
                    let q = choose|q: Seq<LamportTimestamp>| #[trigger] is_path(pm, q, None) && q[0] == p;
                    lemma_path_grow(pm, pm2, q, None);
                    let r = seq![k] + q;
                    assert forall|i: int| 0 <= i < r.len() implies pm2.contains_key(#[trigger] r[i]) by {
                        if i > 0 {
                            assert(r[i] == q[i - 1]);
                        }
                    };
                    assert forall|i: int| 0 <= i < r.len() - 1 implies pm2[#[trigger] r[i]] == Some(r[i + 1]) by {
                        if i > 0 {
                            assert(r[i] == q[i - 1] && r[i + 1] == q[i]);
                        }
                    };
                    assert(r.no_duplicates()) by {
                        assert forall|i: int, j: int| 0 <= i < r.len() && 0 <= j < r.len() && i != j implies r[i] != r[j] by {
                            if i > 0 && j > 0 {
                                assert(r[i] == q[i - 1] && r[j] == q[j - 1]);
                            } else if i == 0 {
                                assert(pm.contains_key(q[j - 1]));
                            } else {
                                assert(pm.contains_key(q[i - 1]));
                            }
                        };
                    };
                    assert(r.last() == q.last());
                    assert(is_path(pm2, r, None));
                },
            }
        }
    };
}

/// Inserting a character with a fresh id after the start or after a present
/// character keeps every character of the text and adds the new one: the new
/// layout holds exactly the old characters and the new one.
pub proof fn lemma_insert_keeps_all(s: Seq<Node>, n: Node)
    requires
        rga_valid(s),
        !ids_of(s).contains(n.id),
        n.parent matches Some(p) ==> ids_of(s).contains(p),
    ensures
        node_map(arranged(node_map(s).insert(n.id, n))) == node_map(s).insert(n.id, n),
        arranged(node_map(s).insert(n.id, n)).len() == s.len() + 1,
{
    lemma_node_map(s);
    lemma_valid_rooted(s);
    let m = node_map(s);
    assert(!m.contains_key(n.id));
    lemma_rooted_insert(m, n);
    let m2 = m.insert(n.id, n);
    assert(well_keyed(m2));
    lemma_arranged_keeps_rooted(m2);
    ids_of(s).unique_seq_to_set();
    assert(m2.dom() =~= m.dom().insert(n.id));
}

/// In a valid text every character comes after the character it was
/// inserted after, and characters inserted after the same character (or at
/// the start) come in descending id order.
pub proof fn lemma_text_order(s: Seq<Node>)
    requires
        rga_valid(s),
    ensures
        forall|i: int|
            0 <= i < s.len() && (#[trigger] s[i]).parent is Some ==> exists|j: int| 0 <= j < i && s[j].id == s[i].parent->0,
        forall|i: int, j: int|
            0 <= i < j < s.len() && (#[trigger] s[i]).parent == (#[trigger] s[j]).parent ==> s[j].id.precedes(s[i].id),
{
    let m = node_map(s);
    lemma_node_map(s);
    lemma_arranged_valid(m);
    let pm = parent_map(m);
    assert(pm.dom() =~= m.dom());
    let w = layout(pm);
    assert(ids_of(s) == w);
    assert forall|i: int| 0 <= i < s.len() implies #[trigger] w[i] == s[i].id && pm[w[i]] == s[i].parent by {
        assert(ids_of(s)[i] == s[i].id);
    };
    lemma_walk_parent_first(pm, None);
    lemma_walk_siblings(pm, None);
    assert forall|i: int| 0 <= i < s.len() && (#[trigger] s[i]).parent is Some implies exists|j: int| 0 <= j < i && s[j].id == s[i].parent->0 by {
        assert(w[i] == s[i].id);
        assert(parent_placed_before(pm, w, i, None));
        let j = choose|j: int| 0 <= j < i && pm[w[i]] == Some(#[trigger] w[j]);
        assert(w[j] == s[j].id);
    };
    assert forall|i: int, j: int| 0 <= i < j < s.len() && (#[trigger] s[i]).parent == (#[trigger] s[j]).parent implies s[j].id.precedes(s[i].id) by {
        assert(w[i] == s[i].id && w[j] == s[j].id);
    };
}

/// A character inserted with an id later than the ids of all characters
/// already inserted after the same parent lands directly after that parent,
/// or first when it is inserted at the start.
pub proof fn lemma_insert_lands_after_parent(s: Seq<Node>, n: Node)
    requires
        rga_valid(s),
        !ids_of(s).contains(n.id),
        n.parent matches Some(p) ==> ids_of(s).contains(p),
        forall|i: int| 0 <= i < s.len() && (#[trigger] s[i]).parent == n.parent ==> s[i].id.precedes(n.id),
    ensures
        n.parent is None ==> arranged(node_map(s).insert(n.id, n)).len() > 0 && arranged(node_map(s).insert(n.id, n))[0] == n,
        forall|j: int|
            0 <= j < arranged(node_map(s).insert(n.id, n)).len() && n.parent == Some(
                (#[trigger] arranged(node_map(s).insert(n.id, n))[j]).id,
            ) ==> j + 1 < arranged(node_map(s).insert(n.id, n)).len() && arranged(node_map(s).insert(n.id, n))[j + 1] == n,
{
    lemma_node_map(s);
    let m = node_map(s);
    assert(!m.contains_key(n.id));
    let m2 = m.insert(n.id, n);
    assert(well_keyed(m2));
    lemma_arranged_valid(m2);
    let pm2 = parent_map(m2);
    assert(pm2.dom() =~= m2.dom());
    let w = layout(pm2);
    let t = arranged(m2);
    assert forall|k: int| 0 <= k < t.len() implies #[trigger] t[k] == m2[w[k]] && t[k].id == w[k] by {
        assert(w.contains(w[k]));
        assert(ids_of(t)[k] == t[k].id);
    };
    let co = child_order(pm2, n.parent);
    lemma_child_order(pm2, n.parent);
    assert(co.contains(n.id));
    assert(co[0] == n.id) by {
        if co[0] != n.id {
            let k = choose|k: int| 0 <= k < co.len() && co[k] == n.id;
            assert(co.contains(co[0]));
            assert(m.contains_key(co[0]));
            let i = choose|i: int| 0 <= i < s.len() && s[i].id == co[0];
            assert(m[co[0]] == s[i]);
            assert(s[i].parent == n.parent);
            assert(k > 0);
            assert(co[k].precedes(co[0]));
        }
    };
    lemma_walk_first_child(pm2, None);
    assert forall|j: int| 0 <= j < t.len() && n.parent == Some((#[trigger] t[j]).id) implies j + 1 < t.len() && t[j + 1] == n by {
        assert(w[j] == t[j].id);
        assert(child_order(pm2, Some(w[j])) == co);
        assert(w[j + 1] == n.id);
        assert(t[j + 1] == m2[n.id]);
    };
    if n.parent is None {
        assert(w[0] == n.id);
        assert(t[0] == m2[n.id]);
    }
}

/// The empty text is valid.
pub proof fn lemma_empty_valid()
    ensures
        rga_valid(Seq::<Node>::empty()),
{
    let s = Seq::<Node>::empty();
    assert(node_map(s) =~= Map::<LamportTimestamp, Node>::empty());
    let pm = parent_map(node_map(s));
    assert(pm =~= Map::empty());
    lemma_child_order(pm, None);
    let cs = child_order(pm, None);
    if cs.len() > 0 {
        assert(cs.contains(cs[0]));
    }
    assert(layout(pm) =~= Seq::empty());
    assert(arranged(node_map(s)) =~= s);
    assert(ids_of(s).no_duplicates());
}

/// Merging two valid, consistent text states keeps every character of both:
/// the result holds exactly their union.
pub proof fn lemma_join_keeps_all(a: Seq<Node>, b: Seq<Node>)
    requires
        rga_valid(a),
        rga_valid(b),
        consistent(a, b),
    ensures
        node_map(rga_join(a, b)) == union_nodes(node_map(a), node_map(b)),
{
    let ma = node_map(a);
    let mb = node_map(b);
    let u = union_nodes(ma, mb);
    lemma_node_map(a);
    lemma_node_map(b);
    assert(u.dom() =~= ma.dom().union(mb.dom()));
    assert(well_keyed(u));
    lemma_arranged_valid(u);
    lemma_arranged_valid(ma);
    lemma_arranged_valid(mb);
    let pu = parent_map(u);
    let w = layout(pu);
    assert forall|k: LamportTimestamp| ma.contains_key(k) implies #[trigger] w.contains(k) by {
        let i = choose|i: int| 0 <= i < a.len() && a[i].id == k;
        assert(ids_of(a)[i] == k);
        assert(layout(parent_map(ma)).contains(k));
        let path = choose|path: Seq<LamportTimestamp>| #[trigger] is_path(parent_map(ma), path, None) && path[0] == k;
        lemma_path_grow(parent_map(ma), pu, path, None);
        assert(reaches(pu, k, None));
    };
    assert forall|k: LamportTimestamp| mb.contains_key(k) implies #[trigger] w.contains(k) by {
        let i = choose|i: int| 0 <= i < b.len() && b[i].id == k;
        assert(ids_of(b)[i] == k);
        assert(layout(parent_map(mb)).contains(k));
        let path = choose|path: Seq<LamportTimestamp>| #[trigger] is_path(parent_map(mb), path, None) && path[0] == k;
        assert forall|j: LamportTimestamp| #[trigger] parent_map(mb).contains_key(j) implies pu.contains_key(j) && pu[j] == parent_map(mb)[j] by {
            if ma.contains_key(j) {
                assert(ma[j].parent == mb[j].parent);
            }
        };
        lemma_path_grow(parent_map(mb), pu, path, None);
        assert(reaches(pu, k, None));
    };
    assert(u.restrict(w.to_set()) =~= u);
}

/// Merging text states is commutative, provided ids were used consistently.
pub proof fn lemma_rga_merge_commutative(a: Seq<Node>, b: Seq<Node>)
    requires
        consistent(a, b),
    ensures
        rga_join(a, b) == rga_join(b, a),
{
    let ma = node_map(a);
    let mb = node_map(b);
    assert forall|k: LamportTimestamp| #[trigger] ma.contains_key(k) implies ma[k].id == k by {
        let i = choose|i: int| 0 <= i < a.len() && a[i].id == k;
    };
    assert forall|k: LamportTimestamp| #[trigger] mb.contains_key(k) implies mb[k].id == k by {
        let i = choose|i: int| 0 <= i < b.len() && b[i].id == k;
    };
    assert(union_nodes(ma, mb) =~= union_nodes(mb, ma)) by {
        assert forall|k: LamportTimestamp| #[trigger] union_nodes(ma, mb).contains_key(k) implies union_nodes(ma, mb)[k]
            == union_nodes(mb, ma)[k] by {
            if ma.contains_key(k) && mb.contains_key(k) {
                assert(ma[k].parent == mb[k].parent && ma[k].value == mb[k].value);
            }
        };
    };
}

/// Merging text states is associative, for valid states whose ids were used
/// consistently.
pub proof fn lemma_rga_merge_associative(a: Seq<Node>, b: Seq<Node>, c: Seq<Node>)
    requires
        rga_valid(a),
        rga_valid(b),
        rga_valid(c),
        consistent(a, b),
        consistent(b, c),
    ensures
        rga_join(rga_join(a, b), c) == rga_join(a, rga_join(b, c)),
{
    lemma_join_keeps_all(a, b);
    lemma_join_keeps_all(b, c);
    let ma = node_map(a);
    let mb = node_map(b);
    let mc = node_map(c);
    assert(union_nodes(union_nodes(ma, mb), mc) =~= union_nodes(ma, union_nodes(mb, mc)));
}

/// Merging a valid text state with itself changes nothing.
pub proof fn lemma_rga_merge_idempotent(a: Seq<Node>)
    requires
        rga_valid(a),
    ensures
        rga_join(a, a) == a,
{
    let ma = node_map(a);
    assert(union_nodes(ma, ma) =~= ma);
}

/// A character deleted in either state stays deleted in the merge.
pub proof fn lemma_rga_merge_keeps_deletes(a: Seq<Node>, b: Seq<Node>)
    ensures
        forall|i: int|
            0 <= i < rga_join(a, b).len() && ((node_map(a).contains_key(rga_join(a, b)[i].id) && node_map(a)[rga_join(a, b)[i].id].deleted)
                || (node_map(b).contains_key(rga_join(a, b)[i].id) && node_map(b)[rga_join(a, b)[i].id].deleted)) ==> #[trigger] rga_join(a, b)[i].deleted,
{
    let u = union_nodes(node_map(a), node_map(b));
    let w = layout(parent_map(u));
    assert forall|i: int|
        0 <= i < rga_join(a, b).len() && ((node_map(a).contains_key(rga_join(a, b)[i].id) && node_map(a)[rga_join(a, b)[i].id].deleted)
            || (node_map(b).contains_key(rga_join(a, b)[i].id) && node_map(b)[rga_join(a, b)[i].id].deleted)) implies #[trigger] rga_join(a, b)[i].deleted by {
        let k = w[i];
        if u.contains_key(k) {
            assert(u[k].id == k) by {
                if node_map(a).contains_key(k) {
                    let j = choose|j: int| 0 <= j < a.len() && a[j].id == k;
                } else {
                    let j = choose|j: int| 0 <= j < b.len() && b[j].id == k;
                }
            };
        } else {
            assert(parent_map(u).dom() =~= u.dom());
            lemma_walk_contains(parent_map(u), None, k);
            assert(w.contains(k));
            let path = choose|path: Seq<LamportTimestamp>| #[trigger] is_path(parent_map(u), path, None) && path[0] == k;
            assert(parent_map(u).contains_key(path[0]));
        }
    };
}

/// Replicas that merge each other's consistent states in either order render
/// the same text.
pub proof fn lemma_rga_text_converges(a: Seq<Node>, b: Seq<Node>)
    requires
        consistent(a, b),
    ensures
        text_of(rga_join(a, b)) == text_of(rga_join(b, a)),
{
    lemma_rga_merge_commutative(a, b);
}

/// Appending a character with a new id adds it to the map of characters.
proof fn lemma_node_map_push(s: Seq<Node>, n: Node)
    requires
        ids_of(s).no_duplicates(),
        !ids_of(s).contains(n.id),
    ensures
        ids_of(s.push(n)).no_duplicates(),
        node_map(s.push(n)) == node_map(s).insert(n.id, n),
{
    let t = s.push(n);
    assert(ids_of(t) =~= ids_of(s).push(n.id));
    assert(ids_of(t).no_duplicates()) by {
        assert forall|a: int, b: int| 0 <= a < t.len() && 0 <= b < t.len() && a != b implies ids_of(t)[a] != ids_of(t)[b] by {
            if a < s.len() && b < s.len() {
            } else if a < s.len() {
                assert(ids_of(s).contains(ids_of(s)[a]));
            } else if b < s.len() {
                assert(ids_of(s).contains(ids_of(s)[b]));
            }
        };
    };
    lemma_node_map(s);
    lemma_node_map(t);
    assert(node_map(t) =~= node_map(s).insert(n.id, n)) by {
        assert forall|x: LamportTimestamp| #[trigger] node_map(t).contains_key(x) <==> node_map(s).insert(n.id, n).contains_key(x) by {
            if node_map(t).contains_key(x) {
                let k = choose|k: int| 0 <= k < t.len() && t[k].id == x;
                if k < s.len() {
                    assert(s[k] == t[k]);
                }
            }
            if node_map(s).contains_key(x) {
                let k = choose|k: int| 0 <= k < s.len() && s[k].id == x;
                assert(t[k] == s[k]);
            }
            if x == n.id {
                assert(t[s.len() as int] == n);
            }
        };
        assert forall|x: LamportTimestamp| #[trigger] node_map(t).contains_key(x) implies node_map(t)[x] == node_map(s).insert(n.id, n)[x] by {
            let k = choose|k: int| 0 <= k < t.len() && t[k].id == x;
            assert(node_map(t).contains_key(t[k].id));
            if k < s.len() {
                assert(s[k] == t[k]);
                assert(node_map(s).contains_key(s[k].id));
                assert(ids_of(s)[k] == x);
            }
        };
    };
}

/// Replacing a character by one with the same id replaces it in the map of
/// characters.
proof fn lemma_node_map_update(s: Seq<Node>, k: int, e: Node)
    requires
        ids_of(s).no_duplicates(),
        0 <= k < s.len(),
        e.id == s[k].id,
    ensures
        ids_of(s.update(k, e)) == ids_of(s),
        node_map(s.update(k, e)) == node_map(s).insert(e.id, e),
{
    let t = s.update(k, e);
    assert(ids_of(t) =~= ids_of(s));
    lemma_node_map(s);
    lemma_node_map(t);
    assert(node_map(t) =~= node_map(s).insert(e.id, e)) by {
        assert forall|x: LamportTimestamp| #[trigger] node_map(t).contains_key(x) <==> node_map(s).insert(e.id, e).contains_key(x) by {
            if node_map(t).contains_key(x) {
                let q = choose|q: int| 0 <= q < t.len() && t[q].id == x;
                assert(ids_of(t)[q] == x);
                assert(ids_of(s)[q] == x);
            }
            if node_map(s).contains_key(x) {
                let q = choose|q: int| 0 <= q < s.len() && s[q].id == x;
                assert(ids_of(s)[q] == x);
                assert(ids_of(t)[q] == x);
            }
            if x == e.id {
                assert(t[k] == e);
            }
        };
        assert forall|x: LamportTimestamp| #[trigger] node_map(t).contains_key(x) implies node_map(t)[x] == node_map(s).insert(e.id, e)[x] by {
            let q = choose|q: int| 0 <= q < t.len() && t[q].id == x;
            assert(node_map(t).contains_key(t[q].id));
            assert(ids_of(t)[q] == x);
            if q != k {
                assert(s[q] == t[q]);
                assert(node_map(s).contains_key(s[q].id));
                assert(ids_of(s)[k] != ids_of(s)[q]);
            }
        };
    };
}

/// The visible characters of a text with unique ids have unique ids, each
/// the id of a character of the text: distinct visible positions name
/// distinct characters.
pub proof fn lemma_visible_ids_distinct(s: Seq<Node>)
    requires
        ids_of(s).no_duplicates(),
    ensures
        ids_of(visible(s)).no_duplicates(),
        forall|i: int| 0 <= i < visible(s).len() ==> #[trigger] ids_of(s).contains(visible(s)[i].id),
    decreases s.len(),
{
    if s.len() > 0 {
        let d = s.drop_last();
        assert(ids_of(d) =~= ids_of(s).drop_last());
        assert(ids_of(d).no_duplicates()) by {
            assert forall|a: int, b: int| 0 <= a < ids_of(d).len() && 0 <= b < ids_of(d).len() && a != b implies ids_of(d)[a] != ids_of(d)[b] by {
                assert(ids_of(s)[a] != ids_of(s)[b]);
            };
        };
        lemma_visible_ids_distinct(d);
        let v = visible(d);
        assert forall|i: int| 0 <= i < v.len() implies #[trigger] ids_of(s).contains(v[i].id) by {
            assert(ids_of(d).contains(v[i].id));
            let q = choose|q: int| 0 <= q < ids_of(d).len() && ids_of(d)[q] == v[i].id;
            assert(ids_of(s)[q] == v[i].id);
        };
        if !s.last().deleted {
            let w = v.push(s.last());
            assert(ids_of(s)[s.len() - 1] == s.last().id);
            assert forall|i: int| 0 <= i < v.len() implies #[trigger] v[i].id != s.last().id by {
                assert(ids_of(d).contains(v[i].id));
                let q = choose|q: int| 0 <= q < ids_of(d).len() && ids_of(d)[q] == v[i].id;
                assert(ids_of(s)[q] != ids_of(s)[s.len() - 1]);
            };
            assert(ids_of(w) =~= ids_of(v).push(s.last().id));
            assert(ids_of(w).no_duplicates()) by {
                assert forall|a: int, b: int| 0 <= a < ids_of(w).len() && 0 <= b < ids_of(w).len() && a != b implies ids_of(w)[a] != ids_of(w)[b] by {
                    if a < v.len() && b < v.len() {
                        assert(ids_of(v)[a] != ids_of(v)[b]);
                    } else if a < v.len() {
                        assert(v[a].id != s.last().id);
                    } else {
                        assert(v[b].id != s.last().id);
                    }
                };
            };
            assert forall|i: int| 0 <= i < w.len() implies #[trigger] ids_of(s).contains(w[i].id) by {
                if i < v.len() {
                    assert(ids_of(s).contains(v[i].id));
                } else {
                    assert(ids_of(s)[s.len() - 1] == w[i].id);
                }
            };
        }
    } else {
        assert(ids_of(visible(s)) =~= Seq::<LamportTimestamp>::empty());
    }
}

/// Deleting a visible character of a text with unique ids hides exactly that
/// one character; deleting anything else hides nothing.
pub proof fn lemma_delete_hides_one(s: Seq<Node>, id: LamportTimestamp)
    requires
        ids_of(s).no_duplicates(),
    ensures
        visible(mark_deleted(s, id)).len() == visible(s).len() - (if ids_of(visible(s)).contains(id) {
            1int
        } else {
            0int
        }),
        !ids_of(visible(mark_deleted(s, id))).contains(id),
    decreases s.len(),
{
    let m = mark_deleted(s, id);
    if s.len() == 0 {
        assert(ids_of(visible(s)) =~= Seq::<LamportTimestamp>::empty());
        assert(ids_of(visible(m)) =~= Seq::<LamportTimestamp>::empty());
    } else {
        let d = s.drop_last();
        assert(ids_of(d) =~= ids_of(s).drop_last());
        assert(ids_of(d).no_duplicates()) by {
            assert forall|a: int, b: int| 0 <= a < ids_of(d).len() && 0 <= b < ids_of(d).len() && a != b implies ids_of(d)[a] != ids_of(d)[b] by {
                assert(ids_of(s)[a] != ids_of(s)[b]);
            };
        };
        lemma_delete_hides_one(d, id);
        assert(m.drop_last() =~= mark_deleted(d, id));
        let vd = visible(d);
        let vm = visible(mark_deleted(d, id));
        let last = s.last();
        assert(ids_of(s)[s.len() - 1] == last.id);
        lemma_visible_ids_distinct(d);
        if last.id == id {
            assert(!ids_of(vd).contains(id)) by {
                if ids_of(vd).contains(id) {
                    let i = choose|i: int| 0 <= i < ids_of(vd).len() && ids_of(vd)[i] == id;
                    assert(ids_of(d).contains(vd[i].id));
                    let q = choose|q: int| 0 <= q < ids_of(d).len() && ids_of(d)[q] == id;
                    assert(ids_of(s)[q] == ids_of(s)[s.len() - 1]);
                }
            };
            assert(m.last().deleted);
            assert(visible(m) == vm);
            if !last.deleted {
                assert(ids_of(vd.push(last)) =~= ids_of(vd).push(id));
                assert(ids_of(visible(s)).contains(id)) by {
                    assert(ids_of(visible(s))[vd.len() as int] == id);
                };
            }
        } else {
            assert(m.last() == last);
            if !last.deleted {
                assert(visible(s) == vd.push(last));
                assert(visible(m) == vm.push(last));
                assert(ids_of(vd.push(last)) =~= ids_of(vd).push(last.id));
                assert(ids_of(vm.push(last)) =~= ids_of(vm).push(last.id));
                assert(ids_of(visible(s)).contains(id) == ids_of(vd).contains(id)) by {
                    if ids_of(visible(s)).contains(id) {
                        let i = choose|i: int| 0 <= i < ids_of(visible(s)).len() && ids_of(visible(s))[i] == id;
                        assert(i < vd.len());
                        assert(ids_of(vd)[i] == id);
                    }
                    if ids_of(vd).contains(id) {
                        let i = choose|i: int| 0 <= i < ids_of(vd).len() && ids_of(vd)[i] == id;
                        assert(ids_of(visible(s))[i] == id);
                    }
                };
                assert(!ids_of(visible(m)).contains(id)) by {
                    if ids_of(visible(m)).contains(id) {
                        let i = choose|i: int| 0 <= i < ids_of(visible(m)).len() && ids_of(visible(m))[i] == id;
                        assert(i < vm.len());
                        assert(ids_of(vm)[i] == id);
                    }
                };
            } else {
                assert(visible(s) == vd);
                assert(visible(m) == vm);
            }
        }
    }
}

/// The visible characters of a concatenation are those of each part.
proof fn lemma_visible_concat(a: Seq<Node>, b: Seq<Node>)
    ensures
        visible(a + b) == visible(a) + visible(b),
    decreases b.len(),
{
    if b.len() == 0 {
        assert(a + b =~= a);
        assert(visible(a) + visible(b) =~= visible(a));
    } else {
        lemma_visible_concat(a, b.drop_last());
        assert((a + b).drop_last() =~= a + b.drop_last());
        assert((a + b).last() == b.last());
        if b.last().deleted {
        } else {
            assert(visible(a) + visible(b.drop_last()).push(b.last()) =~= (visible(a) + visible(b.drop_last())).push(b.last()));
        }
    }
}

/// Taking one more character adds it to the visible ones unless it is deleted.
proof fn lemma_visible_step(s: Seq<Node>, j: int)
    requires
        0 <= j < s.len(),
    ensures
        visible(s.take(j + 1)) == if s[j].deleted {
            visible(s.take(j))
        } else {
            visible(s.take(j)).push(s[j])
        },
        text_of(s.take(j + 1)) == if s[j].deleted {
            text_of(s.take(j))
        } else {
            text_of(s.take(j)).push(s[j].value)
        },
{
    assert(s.take(j + 1).drop_last() =~= s.take(j));
    assert(s.take(j + 1).last() == s[j]);
    if !s[j].deleted {
        assert(text_of(s.take(j + 1)) =~= text_of(s.take(j)).push(s[j].value));
    }
}

/// Appends `c` to `s` by `String::push`, which std documents as appending the
/// given char to the end of the string; the contract says the string's
/// characters gain `c` at the end.
#[verifier::external_body]
fn push_char(s: &mut String, c: char)
    ensures
        final(s)@ == old(s)@.push(c),
{
    s.push(c);
}

/// Whether two optional parent ids are the same.
fn same_parent(a: Option<LamportTimestamp>, b: Option<LamportTimestamp>) -> (r: bool)
    ensures
        r == (a == b),
{
    match (a, b) {
        (None, None) => true,
        (Some(x), Some(y)) => x.counter == y.counter && x.replica == y.replica,
        _ => false,
    }
}

/// Whether two ids are the same.
fn same_id(a: LamportTimestamp, b: LamportTimestamp) -> (r: bool)
    ensures
        r == (a == b),
{
    a.counter == b.counter && a.replica == b.replica
}

/// A replicated growable array of characters.
///
/// Supports concurrent insertion and deletion across replicas with
/// deterministic convergence.
#[derive(Debug, PartialEq, Eq)]
pub struct Rga {
    nodes: Vec<Node>,
}

impl View for Rga {
    type V = Seq<Node>;

    /// All characters, tombstones included, in text order.
    closed spec fn view(&self) -> Seq<Node> {
        self.nodes@
    }
}

impl Clone for Rga {
    fn clone(&self) -> (r: Self)
        ensures
            r@ == self@,
            rga_valid(r@),
    {
        proof {
            use_type_invariant(self);
        }
        let nodes = self.nodes.clone();
        proof {
            assert(nodes@ =~= self.nodes@);
        }
        Rga { nodes }
    }
}

impl Default for Rga {
    fn default() -> (r: Self)
        ensures
            r@ == Seq::<Node>::empty(),
            rga_valid(r@),
    {
        Rga::new()
    }
}

impl Rga {
    /// Creates an empty text.
    pub fn new() -> (r: Self)
        ensures
            r@ == Seq::<Node>::empty(),
            rga_valid(r@),
    {
        proof {
            lemma_empty_valid();
        }
        Rga { nodes: Vec::new() }
    }

    #[verifier::type_invariant]
    spec fn valid(self) -> bool {
        rga_valid(self.nodes@)
    }

    /// The children of `parent` among `rem`, in descending id order.
    fn children_of(rem: &Vec<Node>, parent: Option<LamportTimestamp>) -> (kids: Vec<Node>)
        requires
            ids_of(rem@).no_duplicates(),
        ensures
            ids_of(kids@) == child_order(parent_map(node_map(rem@)), parent),
            forall|k: int| 0 <= k < kids@.len() ==> rem@.contains(#[trigger] kids@[k]),
    {
        let ghost pm = parent_map(node_map(rem@));
        let mut kids: Vec<Node> = Vec::new();
        let mut i: usize = 0;
        while i < rem.len()
            invariant
                i <= rem@.len(),
                ids_of(rem@).no_duplicates(),
                desc(ids_of(kids@)),
                forall|k: int| 0 <= k < kids@.len() ==> exists|j: int| 0 <= j < i && rem@[j] == #[trigger] kids@[k],
                forall|x: LamportTimestamp| #[trigger] ids_of(kids@).contains(x) <==> exists|j: int|
                    0 <= j < i && rem@[j].id == x && rem@[j].parent == parent,
            decreases rem@.len() - i,
        {
            let n = rem[i];
            if same_parent(n.parent, parent) {
                let mut pos: usize = 0;
                while pos < kids.len() && !kids[pos].id.is_before(&n.id)
                    invariant
                        pos <= kids@.len(),
                        forall|q: int| 0 <= q < pos ==> !(#[trigger] kids@[q]).id.precedes(n.id),
                    decreases kids@.len() - pos,
                {
                    pos = pos + 1;
                }
                let ghost old_kids = kids@;
                proof {
                    assert forall|q: int| 0 <= q < old_kids.len() implies (#[trigger] old_kids[q]).id != n.id by {
                        let j = choose|j: int| 0 <= j < i && rem@[j] == old_kids[q];
                        assert(ids_of(rem@)[j] == rem@[j].id);
                        assert(ids_of(rem@)[i as int] == n.id);
                    };
                }
                kids.insert(pos, n);
                proof {
                    let ko = ids_of(old_kids);
                    let kn = ids_of(kids@);
                    assert forall|a: int, b: int| 0 <= a < b < kn.len() implies #[trigger] kn[b].precedes(#[trigger] kn[a]) by {
                        assert(kn[a] == kids@[a].id && kn[b] == kids@[b].id);
                        if b < pos {
                            assert(ko[a] == kn[a] && ko[b] == kn[b]);
                        } else if b == pos {
                            assert(old_kids[a].id != n.id);
                            assert(!old_kids[a].id.precedes(n.id));
                        } else if a == pos {
                            assert(kids@[b] == old_kids[b - 1]);
                            if b - 1 > pos {
                                assert(ko[b - 1].precedes(ko[pos as int]));
                            }
                            assert(old_kids[pos as int].id.precedes(n.id));
                        } else if a < pos {
                            assert(kids@[b] == old_kids[b - 1]);
                            assert(ko[a] == kn[a] && ko[b - 1] == kn[b]);
                        } else {
                            assert(kids@[b] == old_kids[b - 1] && kids@[a] == old_kids[a - 1]);
                            assert(ko[a - 1] == kn[a] && ko[b - 1] == kn[b]);
                        }
                    };
                    assert forall|k: int| 0 <= k < kids@.len() implies exists|j: int| 0 <= j < i + 1 && rem@[j] == #[trigger] kids@[k] by {
                        if k < pos {
                            assert(kids@[k] == old_kids[k]);
                        } else if k == pos {
                            assert(rem@[i as int] == kids@[k]);
                        } else {
                            assert(kids@[k] == old_kids[k - 1]);
                        }
                    };
                    assert forall|x: LamportTimestamp| #[trigger] kn.contains(x) <==> exists|j: int|
                        0 <= j < i + 1 && rem@[j].id == x && rem@[j].parent == parent by {
                        if kn.contains(x) {
                            let k = choose|k: int| 0 <= k < kn.len() && kn[k] == x;
                            if k < pos {
                                assert(ko[k] == x);
                                assert(ko.contains(x));
                            } else if k == pos {
                            } else {
                                assert(ko[k - 1] == x);
                                assert(ko.contains(x));
                            }
                        }
                        if exists|j: int| 0 <= j < i + 1 && rem@[j].id == x && rem@[j].parent == parent {
                            let j = choose|j: int| 0 <= j < i + 1 && rem@[j].id == x && rem@[j].parent == parent;
                            if j == i {
                                assert(kn[pos as int] == x);
                            } else {
                                assert(ko.contains(x));
                                let k = choose|k: int| 0 <= k < ko.len() && ko[k] == x;
                                if k < pos {
                                    assert(kn[k] == x);
                                } else {
                                    assert(kn[k + 1] == x);
                                }
                            }
                        }
                    };
                }
            } else {
                proof {
                    assert forall|x: LamportTimestamp| #[trigger] ids_of(kids@).contains(x) <==> exists|j: int|
                        0 <= j < i + 1 && rem@[j].id == x && rem@[j].parent == parent by {
                        if exists|j: int| 0 <= j < i + 1 && rem@[j].id == x && rem@[j].parent == parent {
                            let j = choose|j: int| 0 <= j < i + 1 && rem@[j].id == x && rem@[j].parent == parent;
                            assert(j != i);
                        }
                    };
                }
            }
            i = i + 1;
        }
        proof {
            lemma_node_map(rem@);
            assert(pm.dom() =~= node_map(rem@).dom());
            lemma_child_order(pm, parent);
            let co = child_order(pm, parent);
            assert(ids_of(kids@).to_set() =~= co.to_set()) by {
                assert forall|x: LamportTimestamp| ids_of(kids@).contains(x) <==> co.contains(x) by {
                    if ids_of(kids@).contains(x) {
                        let j = choose|j: int| 0 <= j < rem@.len() && rem@[j].id == x && rem@[j].parent == parent;
                        assert(node_map(rem@).contains_key(rem@[j].id));
                    }
                    if co.contains(x) {
                        let j = choose|j: int| 0 <= j < rem@.len() && rem@[j].id == x;
                        assert(node_map(rem@).contains_key(rem@[j].id));
                    }
                };
            };
            lemma_desc_unique(ids_of(kids@), co);
            assert forall|k: int| 0 <= k < kids@.len() implies rem@.contains(#[trigger] kids@[k]) by {
                let j = choose|j: int| 0 <= j < i && rem@[j] == kids@[k];
            };
        }
        kids
    }

    /// `rem` without the character `id`.
    fn without(rem: &Vec<Node>, id: LamportTimestamp) -> (rest: Vec<Node>)
        requires
            ids_of(rem@).no_duplicates(),
            ids_of(rem@).contains(id),
        ensures
            rest@.len() == rem@.len() - 1,
            ids_of(rest@).no_duplicates(),
            node_map(rest@) == node_map(rem@).remove(id),
            forall|k: int| 0 <= k < rest@.len() ==> rem@.contains(#[trigger] rest@[k]),
    {
        let mut idx: usize = 0;
        while idx < rem.len() && !same_id(rem[idx].id, id)
            invariant
                idx <= rem@.len(),
                ids_of(rem@).contains(id),
                forall|q: int| 0 <= q < idx ==> (#[trigger] rem@[q]).id != id,
            decreases rem@.len() - idx,
        {
            idx = idx + 1;
        }
        proof {
            if idx == rem@.len() {
                let q = choose|q: int| 0 <= q < ids_of(rem@).len() && ids_of(rem@)[q] == id;
                assert(rem@[q].id == id);
            }
        }
        let mut rest = rem.clone();
        proof {
            assert(rest@ =~= rem@);
        }
        rest.remove(idx);
        proof {
            let r = rest@;
            let o = rem@;
            assert(r =~= o.remove(idx as int));
            assert forall|k: int| 0 <= k < r.len() implies o.contains(#[trigger] r[k]) by {
                if k < idx {
                    assert(r[k] == o[k]);
                } else {
                    assert(r[k] == o[k + 1]);
                }
            };
            assert(ids_of(r).no_duplicates()) by {
                assert forall|a: int, b: int| 0 <= a < r.len() && 0 <= b < r.len() && a != b implies ids_of(r)[a] != ids_of(r)[b] by {
                    let a2 = if a < idx { a } else { a + 1 };
                    let b2 = if b < idx { b } else { b + 1 };
                    assert(r[a] == o[a2] && r[b] == o[b2]);
                    assert(ids_of(o)[a2] != ids_of(o)[b2]);
                };
            };
            lemma_node_map(o);
            lemma_node_map(r);
            assert(node_map(r) =~= node_map(o).remove(id)) by {
                assert forall|x: LamportTimestamp| #[trigger] node_map(r).contains_key(x) <==> node_map(o).remove(id).contains_key(x) by {
                    if node_map(r).contains_key(x) {
                        let k = choose|k: int| 0 <= k < r.len() && r[k].id == x;
                        let k2 = if k < idx { k } else { k + 1 };
                        assert(r[k] == o[k2]);
                        assert(ids_of(o)[k2] != ids_of(o)[idx as int]);
                    }
                    if node_map(o).remove(id).contains_key(x) {
                        let k = choose|k: int| 0 <= k < o.len() && o[k].id == x;
                        assert(k != idx);
                        let k2 = if k < idx { k } else { k - 1 };
                        assert(r[k2] == o[k]);
                    }
                };
                assert forall|x: LamportTimestamp| #[trigger] node_map(r).contains_key(x) implies node_map(r)[x] == node_map(o)[x] by {
                    let k = choose|k: int| 0 <= k < r.len() && r[k].id == x;
                    let k2 = if k < idx { k } else { k + 1 };
                    assert(r[k] == o[k2]);
                    assert(node_map(o).contains_key(o[k2].id));
                    assert(node_map(r).contains_key(r[k].id));
                };
            };
        }
        rest
    }

    /// Appends to `out` the characters of `rem` below `parent`, in text order.
    fn append_in_order(rem: &Vec<Node>, parent: Option<LamportTimestamp>, out: &mut Vec<Node>)
        requires
            ids_of(rem@).no_duplicates(),
        ensures
            ids_of(final(out)@) == ids_of(old(out)@) + walk(parent_map(node_map(rem@)), parent),
            forall|k: int| 0 <= k < old(out)@.len() ==> final(out)@[k] == old(out)@[k],
            forall|k: int| old(out)@.len() <= k < final(out)@.len() ==> rem@.contains(#[trigger] final(out)@[k]),
        decreases rem@.len(),
    {
        let kids = Self::children_of(rem, parent);
        let ghost pm = parent_map(node_map(rem@));
        let ghost co = child_order(pm, parent);
        let ghost out0 = out@;
        proof {
            lemma_node_map(rem@);
            assert(pm.dom() =~= node_map(rem@).dom());
            lemma_child_order(pm, parent);
            assert(co.skip(0) =~= co);
        }
        let mut i: usize = 0;
        while i < kids.len()
            invariant
                i <= kids@.len(),
                ids_of(rem@).no_duplicates(),
                pm == parent_map(node_map(rem@)),
                pm.dom().finite(),
                co == child_order(pm, parent),
                ids_of(kids@) == co,
                forall|c: LamportTimestamp| #[trigger] co.contains(c) <==> (pm.contains_key(c) && pm[c] == parent),
                forall|k: int| 0 <= k < kids@.len() ==> rem@.contains(#[trigger] kids@[k]),
                ids_of(out@) + walk_list(pm, co.skip(i as int)) == ids_of(out0) + walk_list(pm, co),
                forall|k: int| 0 <= k < out0.len() ==> out@[k] == out0[k],
                out@.len() >= out0.len(),
                forall|k: int| out0.len() <= k < out@.len() ==> rem@.contains(#[trigger] out@[k]),
            decreases kids@.len() - i,
        {
            let c = kids[i];
            let ghost before = out@;
            proof {
                let tail = co.skip(i as int);
                assert(tail[0] == ids_of(kids@)[i as int]);
                assert(ids_of(kids@)[i as int] == c.id);
                assert(co.contains(c.id));
                assert(tail.drop_first() =~= co.skip(i + 1));
                assert(walk_list(pm, tail) == seq![c.id] + walk(pm.remove(c.id), Some(c.id)) + walk_list(pm, co.skip(i + 1)));
                assert(kids@.contains(c));
                assert(rem@.contains(kids@[i as int]));
                let j = choose|j: int| 0 <= j < rem@.len() && rem@[j] == c;
                assert(ids_of(rem@)[j] == c.id);
            }
            out.push(c);
            let rest = Self::without(rem, c.id);
            let ghost mid = out@;
            proof {
                assert(parent_map(node_map(rest@)) =~= pm.remove(c.id));
            }
            Self::append_in_order(&rest, Some(c.id), out);
            proof {
                assert(ids_of(mid) =~= ids_of(before).push(c.id));
                assert(ids_of(out@) + walk_list(pm, co.skip(i + 1)) =~= ids_of(before) + walk_list(pm, co.skip(i as int)));
                assert forall|k: int| out0.len() <= k < out@.len() implies rem@.contains(#[trigger] out@[k]) by {
                    if k < before.len() {
                        assert(out@[k] == before[k]);
                    } else if k == before.len() {
                        assert(out@[k] == c);
                    } else {
                        assert(rest@.contains(out@[k]));
                        let q = choose|q: int| 0 <= q < rest@.len() && rest@[q] == out@[k];
                    }
                };
            }
            i = i + 1;
        }
        proof {
            assert(co.skip(i as int) =~= Seq::<LamportTimestamp>::empty());
            assert(ids_of(out@) =~= ids_of(out@) + walk_list(pm, co.skip(i as int)));
        }
    }

    /// Inserts `value` right after the character `parent`, or at the start
    /// when `parent` is `None`, with the id `id`.
    ///
    /// `id` must be globally unique, typically from a local
    /// `LamportClock::tick`. A character whose parent is not in the text is
    /// not reachable from the start and is not kept.
    pub fn insert_after(&mut self, parent: Option<LamportTimestamp>, value: char, id: LamportTimestamp)
        requires
            !ids_of(old(self)@).contains(id),
        ensures
            final(self)@ == arranged(node_map(old(self)@).insert(id, Node { id, parent, value, deleted: false })),
            rga_valid(final(self)@),
    {
        proof {
            use_type_invariant(&*self);
        }
        let node = Node { id, parent, value, deleted: false };
        let mut all = self.nodes.clone();
        proof {
            assert(all@ =~= self.nodes@);
            lemma_node_map_push(all@, node);
        }
        all.push(node);
        let sorted = Self::sort_nodes(&all);
        proof {
            lemma_node_map(all@);
            lemma_arranged_valid(node_map(all@));
        }
        self.nodes = sorted;
    }

    /// Marks the character `id` as deleted (a tombstone); does nothing when
    /// there is no such character.
    pub fn delete(&mut self, id: LamportTimestamp)
        ensures
            final(self)@ == mark_deleted(old(self)@, id),
            rga_valid(final(self)@),
    {
        proof {
            use_type_invariant(&*self);
        }
        let ghost s = self.nodes@;
        let mut i: usize = 0;
        while i < self.nodes.len() && !same_id(self.nodes[i].id, id)
            invariant
                i <= s.len(),
                s == self.nodes@,
                forall|q: int| 0 <= q < i ==> (#[trigger] s[q]).id != id,
            decreases s.len() - i,
        {
            i = i + 1;
        }
        if i < self.nodes.len() {
            let mut nodes = self.nodes.clone();
            let mut n = nodes[i];
            n.deleted = true;
            proof {
                assert(nodes@ =~= s);
                lemma_node_map_update(s, i as int, n);
                assert(s.update(i as int, n) =~= mark_deleted(s, id)) by {
                    assert forall|q: int| 0 <= q < s.len() && q != i implies s[q].id != id by {
                        assert(ids_of(s)[q] != ids_of(s)[i as int]);
                    };
                };
                let m = node_map(s);
                let m2 = m.insert(id, n);
                lemma_node_map(s);
                assert(parent_map(m2) =~= parent_map(m));
                let w = layout(parent_map(m));
                lemma_arranged_valid(m);
                assert(render(m2, w) =~= mark_deleted(s, id)) by {
                    assert forall|q: int| 0 <= q < w.len() implies #[trigger] render(m2, w)[q] == mark_deleted(s, id)[q] by {
                        assert(ids_of(s)[q] == w[q]);
                        assert(s[q].id == w[q]);
                        assert(m.contains_key(s[q].id));
                    };
                };
            }
            nodes.set(i, n);
            self.nodes = nodes;
        } else {
            proof {
                assert(mark_deleted(s, id) =~= s);
            }
        }
    }

    /// The id of the visible character at position `index` of the rendered
    /// text, or `None` past its end. Turns a user's position into a stable id
    /// to insert after.
    pub fn id_at_visible_index(&self, index: usize) -> (r: Option<LamportTimestamp>)
        ensures
            r == (if index < visible(self@).len() {
                Some(visible(self@)[index as int].id)
            } else {
                None
            }),
            rga_valid(self@),
    {
        proof {
            use_type_invariant(self);
        }
        let ghost s = self.nodes@;
        let mut count: usize = 0;
        let mut j: usize = 0;
        proof {
            assert(s.take(0) =~= Seq::<Node>::empty());
        }
        while j < self.nodes.len()
            invariant
                rga_valid(self@),
                j <= s.len(),
                s == self.nodes@,
                count == visible(s.take(j as int)).len(),
                count <= index,
            decreases s.len() - j,
        {
            let n = self.nodes[j];
            proof {
                lemma_visible_step(s, j as int);
            }
            if !n.deleted {
                if count == index {
                    proof {
                        lemma_visible_concat(s.take(j + 1), s.skip(j + 1));
                        assert(s.take(j + 1) + s.skip(j + 1) =~= s);
                        assert(visible(s)[index as int] == visible(s.take(j + 1))[index as int]);
                    }
                    return Some(n.id);
                }
                count = count + 1;
            }
            j = j + 1;
        }
        proof {
            assert(s.take(j as int) =~= s);
        }
        None
    }

    /// The number of visible characters (tombstones excluded).
    pub fn len(&self) -> (r: usize)
        ensures
            r == visible(self@).len(),
            rga_valid(self@),
    {
        proof {
            use_type_invariant(self);
        }
        let ghost s = self.nodes@;
        let mut count: usize = 0;
        let mut j: usize = 0;
        proof {
            assert(s.take(0) =~= Seq::<Node>::empty());
        }
        while j < self.nodes.len()
            invariant
                j <= s.len(),
                s == self.nodes@,
                count == visible(s.take(j as int)).len(),
                count <= j,
            decreases s.len() - j,
        {
            proof {
                lemma_visible_step(s, j as int);
            }
            if !self.nodes[j].deleted {
                count = count + 1;
            }
            j = j + 1;
        }
        proof {
            assert(s.take(j as int) =~= s);
        }
        count
    }

    /// Whether there is no visible character.
    pub fn is_empty(&self) -> (r: bool)
        ensures
            r == (visible(self@).len() == 0),
            rga_valid(self@),
    {
        proof {
            use_type_invariant(self);
        }
        let ghost s = self.nodes@;
        let mut j: usize = 0;
        proof {
            assert(s.take(0) =~= Seq::<Node>::empty());
        }
        while j < self.nodes.len()
            invariant
                rga_valid(self@),
                j <= s.len(),
                s == self.nodes@,
                visible(s.take(j as int)).len() == 0,
            decreases s.len() - j,
        {
            proof {
                lemma_visible_step(s, j as int);
            }
            if !self.nodes[j].deleted {
                proof {
                    lemma_visible_concat(s.take(j + 1), s.skip(j + 1));
                    assert(s.take(j + 1) + s.skip(j + 1) =~= s);
                }
                return false;
            }
            j = j + 1;
        }
        proof {
            assert(s.take(j as int) =~= s);
        }
        true
    }

    /// Renders the text: the visible characters in order.
    pub fn to_string(&self) -> (r: String)
        ensures
            r@ == text_of(self@),
            rga_valid(self@),
    {
        proof {
            use_type_invariant(self);
        }
        let ghost s = self.nodes@;
        let mut out = String::new();
        let mut j: usize = 0;
        proof {
            assert(s.take(0) =~= Seq::<Node>::empty());
            assert(text_of(s.take(0)) =~= Seq::<char>::empty());
        }
        while j < self.nodes.len()
            invariant
                j <= s.len(),
                s == self.nodes@,
                out@ == text_of(s.take(j as int)),
            decreases s.len() - j,
        {
            proof {
                lemma_visible_step(s, j as int);
            }
            let n = self.nodes[j];
            if !n.deleted {
                push_char(&mut out, n.value);
            }
            j = j + 1;
        }
        proof {
            assert(s.take(j as int) =~= s);
        }
        out
    }

    /// The characters of `nodes` laid out in text order.
    fn sort_nodes(nodes: &Vec<Node>) -> (sorted: Vec<Node>)
        requires
            ids_of(nodes@).no_duplicates(),
        ensures
            sorted@ == arranged(node_map(nodes@)),
    {
        let mut out: Vec<Node> = Vec::new();
        Self::append_in_order(nodes, None, &mut out);
        proof {
            let m = node_map(nodes@);
            lemma_node_map(nodes@);
            let w = layout(parent_map(m));
            assert(ids_of(out@) =~= w);
            assert(out@ =~= render(m, w)) by {
                assert forall|k: int| 0 <= k < out@.len() implies out@[k] == #[trigger] render(m, w)[k] by {
                    assert(nodes@.contains(out@[k]));
                    let j = choose|j: int| 0 <= j < nodes@.len() && nodes@[j] == out@[k];
                    assert(m.contains_key(nodes@[j].id));
                    assert(ids_of(out@)[k] == out@[k].id);
                };
            };
        }
        out
    }
}

impl Crdt for Rga {
    open spec fn merge_allowed() -> bool {
        true
    }

    /// Takes the union of both sets of characters (a character deleted on
    /// either side stays deleted) and lays it out in text order.
    fn merge(&mut self, other: &Self)
        ensures
            final(self)@ == rga_join(old(self)@, other@),
            rga_valid(final(self)@),
    {
        proof {
            use_type_invariant(&*self);
            use_type_invariant(other);
        }
        let ghost a = node_map(self.nodes@);
        let ghost o = other.nodes@;
        let mut all = self.nodes.clone();
        proof {
            assert(all@ =~= self.nodes@);
            lemma_node_map(o);
            assert(o.take(0) =~= Seq::<Node>::empty());
            assert(node_map(o.take(0)) =~= Map::<LamportTimestamp, Node>::empty());
            assert(union_nodes(a, Map::empty()) =~= a);
        }
        let mut j: usize = 0;
        while j < other.nodes.len()
            invariant
                j <= o.len(),
                o == other.nodes@,
                ids_of(o).no_duplicates(),
                ids_of(all@).no_duplicates(),
                node_map(all@) == union_nodes(a, node_map(o.take(j as int))),
            decreases o.len() - j,
        {
            let n = other.nodes[j];
            let ghost before = all@;
            proof {
                assert(o.take(j + 1) =~= o.take(j as int).push(n));
                assert(ids_of(o.take(j as int)).no_duplicates()) by {
                    assert forall|x: int, y: int| 0 <= x < j && 0 <= y < j && x != y implies ids_of(o.take(j as int))[x] != ids_of(o.take(j as int))[y] by {
                        assert(ids_of(o)[x] != ids_of(o)[y]);
                    };
                };
                assert(!ids_of(o.take(j as int)).contains(n.id)) by {
                    if ids_of(o.take(j as int)).contains(n.id) {
                        let q = choose|q: int| 0 <= q < j && ids_of(o.take(j as int))[q] == n.id;
                        assert(ids_of(o)[q] == ids_of(o)[j as int]);
                    }
                };
                lemma_node_map_push(o.take(j as int), n);
                lemma_node_map(before);
            }
            let mut k: usize = 0;
            while k < all.len() && !same_id(all[k].id, n.id)
                invariant
                    k <= all@.len(),
                    all@ == before,
                    forall|q: int| 0 <= q < k ==> (#[trigger] before[q]).id != n.id,
                decreases all@.len() - k,
            {
                k = k + 1;
            }
            let ghost bj = node_map(o.take(j as int));
            if k < all.len() {
                let e = all[k];
                proof {
                    assert(node_map(before).contains_key(e.id));
                    assert(!bj.contains_key(n.id));
                    assert(a.contains_key(n.id));
                }
                if n.deleted && !e.deleted {
                    let mut f = e;
                    f.deleted = true;
                    proof {
                        lemma_node_map_update(before, k as int, f);
                    }
                    all.set(k, f);
                    proof {
                        assert(node_map(all@) =~= union_nodes(a, bj.insert(n.id, n)));
                    }
                } else {
                    proof {
                        assert(node_map(all@) =~= union_nodes(a, bj.insert(n.id, n)));
                    }
                }
            } else {
                proof {
                    assert(!ids_of(before).contains(n.id)) by {
                        if ids_of(before).contains(n.id) {
                            let q = choose|q: int| 0 <= q < before.len() && ids_of(before)[q] == n.id;
                            assert(before[q].id == n.id);
                        }
                    };
                    lemma_node_map_push(before, n);
                    assert(!node_map(before).contains_key(n.id));
                    assert(!a.contains_key(n.id));
                }
                all.push(n);
                proof {
                    assert(node_map(all@) =~= union_nodes(a, bj.insert(n.id, n)));
                }
            }
            j = j + 1;
        }
        proof {
            assert(o.take(j as int) =~= o);
        }
        let sorted = Self::sort_nodes(&all);
        proof {
            lemma_node_map(all@);
            lemma_arranged_valid(node_map(all@));
        }
        self.nodes = sorted;
    }
}

} // verus!
