//! Register CRDT: the last-writer-wins register.
//!
//! A register holds one value. Concurrent writes are resolved by keeping the
//! write with the later Lamport timestamp; equal timestamps with different
//! values keep the larger value.
use vstd::laws_cmp::obeys_cmp;
use vstd::laws_eq::obeys_concrete_eq;
use vstd::prelude::*;
use vstd::std_specs::cmp::{OrdSpec, PartialEqSpec, PartialOrdIs, PartialOrdSpec};

use crate::clock::LamportTimestamp;
use crate::set::clone_is_exact;
use crate::Crdt;

verus! {

/// The later of two optional timestamps.
pub open spec fn later_stamp(a: Option<LamportTimestamp>, b: Option<LamportTimestamp>) -> Option<LamportTimestamp> {
    match (a, b) {
        (None, _) => b,
        (_, None) => a,
        (Some(s), Some(t)) => if s.precedes(t) {
            b
        } else {
            a
        },
    }
}

/// The timestamp of a register state, if it holds a value.
pub open spec fn stamp_of<T>(s: Option<(T, LamportTimestamp)>) -> Option<LamportTimestamp> {
    match s {
        Some(e) => Some(e.1),
        None => None,
    }
}

/// Whether entry `y` wins over entry `x`: a later timestamp, or the same
/// timestamp and a larger, different value.
pub open spec fn wins_over<T: PartialOrd>(y: (T, LamportTimestamp), x: (T, LamportTimestamp)) -> bool {
    ||| x.1.precedes(y.1)
    ||| (x.1 == y.1 && x.0 != y.0 && y.0.is_gt(&x.0))
}

/// The join of two register states: the winning entry.
pub open spec fn lww_join<T: PartialOrd>(a: Option<(T, LamportTimestamp)>, b: Option<(T, LamportTimestamp)>) -> Option<(T, LamportTimestamp)> {
    match (a, b) {
        (_, None) => a,
        (None, Some(_)) => b,
        (Some(x), Some(y)) => if wins_over(y, x) {
            b
        } else {
            a
        },
    }
}

/// The state after writing `v` at `t`: the write is ignored unless `t` is
/// later than the current timestamp.
pub open spec fn written<T>(s: Option<(T, LamportTimestamp)>, v: T, t: LamportTimestamp) -> Option<(T, LamportTimestamp)> {
    match s {
        Some(e) => if e.1.precedes(t) {
            Some((v, t))
        } else {
            s
        },
        None => Some((v, t)),
    }
}

/// Comparisons on `T` decide exactly as its spec functions say, equality is
/// identity, and `clone` copies faithfully.
pub open spec fn lawful_value<T: PartialOrd + Clone>() -> bool {
    &&& obeys_concrete_eq::<T>()
    &&& T::obeys_partial_cmp_spec()
    &&& clone_is_exact::<T>()
}

#[derive(Debug, PartialEq, Eq)]
struct Entry<T> {
    value: T,
    timestamp: LamportTimestamp,
}

/// A last-writer-wins register.
///
/// Either empty or a value with the timestamp it was written at; merging
/// keeps the entry with the later timestamp, so all replicas agree on the
/// winner.
#[derive(Debug, PartialEq, Eq)]
pub struct LwwRegister<T> {
    entry: Option<Entry<T>>,
}

impl<T> View for LwwRegister<T> {
    type V = Option<(T, LamportTimestamp)>;

    closed spec fn view(&self) -> Option<(T, LamportTimestamp)> {
        match self.entry {
            Some(e) => Some((e.value, e.timestamp)),
            None => None,
        }
    }
}

impl<T> Default for LwwRegister<T> {
    fn default() -> (r: Self)
        ensures
            r@ == None::<(T, LamportTimestamp)>,
    {
        LwwRegister { entry: None }
    }
}

impl<T: Clone> Clone for LwwRegister<T> {
    /// A copy with the same timestamp and a clone of the value; an exact copy
    /// when cloning `T` is exact.
    fn clone(&self) -> (r: Self)
        ensures
            stamp_of(r@) == stamp_of(self@),
            self@ matches Some(e) ==> r@ matches Some(f) && cloned(e.0, f.0),
            clone_is_exact::<T>() ==> r@ == self@,
    {
        match &self.entry {
            Some(e) => {
                let value = e.value.clone();
                LwwRegister { entry: Some(Entry { value, timestamp: e.timestamp }) }
            },
            None => LwwRegister { entry: None },
        }
    }
}

impl<T> LwwRegister<T> {
    /// Creates an empty register.
    pub fn new() -> (r: Self)
        ensures
            r@ == None::<(T, LamportTimestamp)>,
    {
        Self::default()
    }

    /// Writes `value` at `timestamp`; ignored unless `timestamp` is later than
    /// the current one, so reordered messages cannot undo newer writes.
    pub fn write(&mut self, value: T, timestamp: LamportTimestamp)
        ensures
            final(self)@ == written(old(self)@, value, timestamp),
    {
        let keep = match &self.entry {
            Some(current) => !current.timestamp.is_before(&timestamp),
            None => false,
        };
        if !keep {
            self.entry = Some(Entry { value, timestamp });
        }
    }

    /// The current value, or `None` if the register is empty.
    pub fn get(&self) -> (r: Option<&T>)
        ensures
            r == (match self@ {
                Some(e) => Some(&e.0),
                None => None,
            }),
    {
        match &self.entry {
            Some(e) => Some(&e.value),
            None => None,
        }
    }

    /// The timestamp of the current entry, if any.
    pub fn timestamp(&self) -> (r: Option<LamportTimestamp>)
        ensures
            r == stamp_of(self@),
    {
        match &self.entry {
            Some(e) => Some(e.timestamp),
            None => None,
        }
    }
}

impl<T: Clone + PartialEq + Ord> Crdt for LwwRegister<T> {
    open spec fn merge_allowed() -> bool {
        true
    }

    /// Keeps the winning entry: the later timestamp, and on equal timestamps
    /// with different values, the larger value.
    fn merge(&mut self, other: &Self)
        ensures
            stamp_of(final(self)@) == later_stamp(stamp_of(old(self)@), stamp_of(other@)),
            lawful_value::<T>() ==> final(self)@ == lww_join(old(self)@, other@),
            clone_is_exact::<T>() && stamp_of(old(self)@) != stamp_of(other@) ==> final(self)@ == lww_join(old(self)@, other@),
    {
        let replace = match (&self.entry, &other.entry) {
            (_, None) => false,
            (None, Some(_)) => true,
            (Some(mine), Some(theirs)) => {
                if mine.timestamp.is_before(&theirs.timestamp) {
                    true
                } else if theirs.timestamp.is_before(&mine.timestamp) {
                    false
                } else if theirs.value != mine.value {
                    theirs.value > mine.value
                } else {
                    false
                }
            },
        };
        proof {
            if lawful_value::<T>() {
                reveal(obeys_concrete_eq);
                assert(replace == (match (old(self)@, other@) {
                    (Some(x), Some(y)) => wins_over(y, x),
                    (None, Some(_)) => true,
                    _ => false,
                }));
            }
        }
        proof {
            if stamp_of(old(self)@) != stamp_of(other@) {
                assert(replace == (match (old(self)@, other@) {
                    (Some(x), Some(y)) => wins_over(y, x),
                    (None, Some(_)) => true,
                    _ => false,
                }));
            }
        }
        if replace {
            match &other.entry {
                Some(theirs) => {
                    let value = theirs.value.clone();
                    proof {
                        if clone_is_exact::<T>() {
                            assert(cloned(theirs.value, value));
                        }
                    }
                    self.entry = Some(Entry { value, timestamp: theirs.timestamp });
                },
                None => {},
            }
        }
    }
}

/// Under a lawful order with equality as identity, "greater than" on values
/// is a strict total order.
proof fn lemma_value_order<T: Ord>(x: T, y: T, z: T)
    requires
        obeys_cmp::<T>(),
        obeys_concrete_eq::<T>(),
    ensures
        x != y ==> (y.is_gt(&x) != x.is_gt(&y)),
        x.is_gt(&y) && y.is_gt(&z) ==> x.is_gt(&z),
        !x.is_gt(&x),
{
    reveal(vstd::laws_cmp::obeys_partial_cmp_spec_properties);
    reveal(vstd::laws_cmp::obeys_cmp_ord);
    reveal(vstd::laws_cmp::obeys_cmp_partial_ord);
    reveal(obeys_concrete_eq);
    assert(x.partial_cmp_spec(&y) == Some(x.cmp_spec(&y)));
    assert(y.partial_cmp_spec(&x) == Some(y.cmp_spec(&x)));
    assert(x.partial_cmp_spec(&x) == Some(x.cmp_spec(&x)));
}

/// Merging registers is commutative, for values whose order is a lawful total
/// order with equality as identity.
pub proof fn lemma_lww_merge_commutative<T: Ord>(a: LwwRegister<T>, b: LwwRegister<T>)
    requires
        obeys_cmp::<T>(),
        obeys_concrete_eq::<T>(),
    ensures
        lww_join(a@, b@) == lww_join(b@, a@),
{
    match (a@, b@) {
        (Some(x), Some(y)) => {
            lemma_value_order(x.0, y.0, x.0);
            if x == y {
            } else if x.1 == y.1 && x.0 == y.0 {
            }
        },
        _ => {},
    }
}

/// Merging registers is associative, for values whose order is a lawful total
/// order with equality as identity.
pub proof fn lemma_lww_merge_associative<T: Ord>(a: LwwRegister<T>, b: LwwRegister<T>, c: LwwRegister<T>)
    requires
        obeys_cmp::<T>(),
        obeys_concrete_eq::<T>(),
    ensures
        lww_join(lww_join(a@, b@), c@) == lww_join(a@, lww_join(b@, c@)),
{
    match (a@, b@, c@) {
        (Some(x), Some(y), Some(z)) => {
            lemma_value_order(x.0, y.0, z.0);
            lemma_value_order(y.0, z.0, x.0);
            lemma_value_order(z.0, x.0, y.0);
            lemma_value_order(x.0, z.0, y.0);
            lemma_value_order(y.0, x.0, z.0);
            lemma_value_order(z.0, y.0, x.0);
        },
        _ => {},
    }
}

/// Merging a register with itself changes nothing.
pub proof fn lemma_lww_merge_idempotent<T: Ord>(a: LwwRegister<T>)
    ensures
        lww_join(a@, a@) == a@,
{
}

/// After a merge the register holds the later of the two timestamps, whatever
/// the values.
pub proof fn lemma_lww_merge_keeps_latest<T: Ord>(a: LwwRegister<T>, b: LwwRegister<T>)
    ensures
        stamp_of(lww_join(a@, b@)) == later_stamp(stamp_of(a@), stamp_of(b@)),
{
}

/// A write never moves the register's timestamp backwards: it holds the later
/// of its old timestamp and the write's.
pub proof fn lemma_lww_write_keeps_latest<T>(a: LwwRegister<T>, v: T, t: LamportTimestamp)
    ensures
        stamp_of(written(a@, v, t)) == later_stamp(stamp_of(a@), Some(t)),
{
}

} // verus!
