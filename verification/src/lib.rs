//! State-based conflict-free replicated data types (CRDTs).
//!
//! Every type here has a `merge` whose effect on the abstract state is a join;
//! the `lemma_*` proof functions of each module prove it commutative,
//! associative and idempotent. The counters' joins are so unconditionally. The
//! register's is so for value types whose equality is identity and whose
//! order is a lawful total order, and the set's join is what `merge` computes
//! when cloning an element is exact and the elements' order is lawful. The
//! text's join is commutative and associative for valid states whose shared
//! ids name the same characters.
//!
//! - [`counter::GCounter`]: grow-only counter
//! - [`counter::PNCounter`]: counter with increment and decrement
//! - [`register::LwwRegister`]: last-writer-wins register
//! - [`set::OrSet`]: observed-remove set with add-wins semantics
//! - [`text::Rga`]: replicated growable array for collaborative text


use vstd::prelude::*;

pub mod arrangement;
pub mod clock;
pub mod command;
pub mod counter;
pub mod entries;
pub mod node;
pub mod protocol;
pub mod register;
pub mod set;
pub mod text;

verus! {

/// Unique identifier of a replica.
///
/// Must be globally unique across all replicas.
pub type ReplicaId = u64;

/// Implemented by every state-based CRDT of this library.
///
/// Each implementation states in its own `ensures` what `merge` does to the
/// abstract state, and its module proves that this join is commutative,
/// associative and idempotent, under the conditions its lemmas name.
pub trait Crdt {
    /// Holds when `merge` is defined on this type: true for most types; for a
    /// type that keeps its elements in ordered collections, the elements'
    /// order must be a total order.
    spec fn merge_allowed() -> bool;

    /// Merges `other` into `self`, producing the join of the two states.
    fn merge(&mut self, other: &Self)
        requires
            Self::merge_allowed(),
    ;
}

} // verus!
