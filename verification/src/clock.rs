//! Lamport clocks and the totally ordered timestamps they produce.
use std::cmp::Ordering;

use vstd::prelude::*;
use vstd::std_specs::cmp::{PartialOrdSpec, PartialOrdSpecImpl};

use crate::ReplicaId;

verus! {

/// A Lamport timestamp extended with the replica that produced it.
///
/// Timestamps are totally ordered by `counter` first and `replica` second:
/// `partial_cmp` compares them so, the derived `Ord` compares the fields in
/// exactly that order too, and [`LamportTimestamp::precedes`] is the same order
/// as a spec function.
#[derive(Debug, Clone, Copy, PartialEq, Eq, Structural, Hash, Ord)]
pub struct LamportTimestamp {
    /// The logical clock value.
    pub counter: u64,
    /// The replica that generated this timestamp (used for tie-breaking).
    pub replica: ReplicaId,
}

impl LamportTimestamp {
    /// `self` comes strictly before `other`: lower counter, or the same counter
    /// and a lower replica.
    pub open spec fn precedes(self, other: Self) -> bool {
        ||| self.counter < other.counter
        ||| (self.counter == other.counter && self.replica < other.replica)
    }

    /// Creates a new timestamp.
    pub fn new(counter: u64, replica: ReplicaId) -> (t: Self)
        ensures
            t.counter == counter,
            t.replica == replica,
    {
        LamportTimestamp { counter, replica }
    }

    /// Whether `self` comes strictly before `other` in the timestamp order.
    pub fn is_before(&self, other: &Self) -> (r: bool)
        ensures
            r == self.precedes(*other),
    {
        self.counter < other.counter || (self.counter == other.counter && self.replica
            < other.replica)
    }
}

impl PartialOrd for LamportTimestamp {
    /// Compares by counter first, then by replica.
    fn partial_cmp(&self, other: &Self) -> (r: Option<Ordering>) {
        if self.counter < other.counter {
            Some(Ordering::Less)
        } else if other.counter < self.counter {
            Some(Ordering::Greater)
        } else if self.replica < other.replica {
            Some(Ordering::Less)
        } else if other.replica < self.replica {
            Some(Ordering::Greater)
        } else {
            Some(Ordering::Equal)
        }
    }
}

impl PartialOrdSpecImpl for LamportTimestamp {
    open spec fn obeys_partial_cmp_spec() -> bool {
        true
    }

    open spec fn partial_cmp_spec(&self, other: &Self) -> Option<Ordering> {
        if self.precedes(*other) {
            Some(Ordering::Less)
        } else if other.precedes(*self) {
            Some(Ordering::Greater)
        } else {
            Some(Ordering::Equal)
        }
    }
}

/// Comparing timestamps is total and lexicographic: every pair is ordered;
/// the result is `Equal` exactly for equal timestamps, `Less` exactly when the
/// first has a smaller counter, or the same counter and a smaller replica;
/// and swapping the operands swaps `Less` and `Greater`.
pub proof fn lemma_partial_cmp_total(a: LamportTimestamp, b: LamportTimestamp)
    ensures
        PartialOrdSpec::partial_cmp_spec(&a, &b) is Some,
        PartialOrdSpec::partial_cmp_spec(&a, &b) == Some(Ordering::Equal) <==> a == b,
        PartialOrdSpec::partial_cmp_spec(&a, &b) == Some(Ordering::Less) <==> (a.counter < b.counter || (a.counter == b.counter
            && a.replica < b.replica)),
        PartialOrdSpec::partial_cmp_spec(&a, &b) == Some(Ordering::Greater) <==> PartialOrdSpec::partial_cmp_spec(&b, &a) == Some(Ordering::Less),
{
}

/// The timestamp order is a strict total order: irreflexive, transitive, and
/// any two distinct timestamps are ordered one way or the other.
pub proof fn lemma_timestamp_order_is_total(a: LamportTimestamp, b: LamportTimestamp, c: LamportTimestamp)
    ensures
        !a.precedes(a),
        a.precedes(b) && b.precedes(c) ==> a.precedes(c),
        a != b ==> (a.precedes(b) || b.precedes(a)),
        !(a.precedes(b) && b.precedes(a)),
{
}

/// The counter value reached by one local event: one more, saturating at
/// `u64::MAX`.
pub open spec fn ticked(counter: u64) -> u64 {
    if counter < u64::MAX {
        (counter + 1) as u64
    } else {
        u64::MAX
    }
}

/// The counter value reached after observing `observed`: one more than the
/// larger of the two, saturating at `u64::MAX`.
pub open spec fn observed_counter(counter: u64, observed: u64) -> u64 {
    ticked(if counter >= observed { counter } else { observed })
}

/// A Lamport clock that produces non-decreasing timestamps for one replica.
///
/// Local event: the counter grows by one. Receiving a timestamp with counter
/// `t`: the counter becomes `max(own, t) + 1`. Both saturate at `u64::MAX`.
#[derive(Debug, Clone, Default)]
pub struct LamportClock {
    counter: u64,
    replica: ReplicaId,
}

impl LamportClock {
    /// The clock's current counter value.
    pub closed spec fn count(self) -> u64 {
        self.counter
    }

    /// The replica that owns this clock.
    pub closed spec fn owner(self) -> ReplicaId {
        self.replica
    }

    /// Creates a new clock for the given replica, starting at 0.
    pub fn new(replica: ReplicaId) -> (c: Self)
        ensures
            c.count() == 0,
            c.owner() == replica,
    {
        LamportClock { counter: 0, replica }
    }

    /// Generates a timestamp for a local event, advancing the counter by 1.
    pub fn tick(&mut self) -> (t: LamportTimestamp)
        ensures
            final(self).count() == ticked(old(self).count()),
            final(self).owner() == old(self).owner(),
            t.counter == final(self).count(),
            t.replica == final(self).owner(),
    {
        self.counter = self.counter.saturating_add(1);
        LamportTimestamp::new(self.counter, self.replica)
    }

    /// Updates the clock after observing an incoming counter value: the counter
    /// becomes `max(own, observed) + 1`.
    pub fn observe(&mut self, observed: u64) -> (t: LamportTimestamp)
        ensures
            final(self).count() == observed_counter(old(self).count(), observed),
            final(self).owner() == old(self).owner(),
            t.counter == final(self).count(),
            t.replica == final(self).owner(),
    {
        let larger = if self.counter >= observed {
            self.counter
        } else {
            observed
        };
        self.counter = larger.saturating_add(1);
        LamportTimestamp::new(self.counter, self.replica)
    }

    /// Returns the current counter value without advancing it.
    pub fn current(&self) -> (r: u64)
        ensures
            r == self.count(),
    {
        self.counter
    }
}

/// A local event moves the counter up by exactly one, and observing a value
/// moves it to one past the larger of the two; both stop at `u64::MAX`.
pub proof fn lemma_clock_steps(c: u64, o: u64)
    ensures
        c < u64::MAX ==> ticked(c) == c + 1,
        c == u64::MAX ==> ticked(c) == c,
        c < u64::MAX && o < u64::MAX ==> observed_counter(c, o) > c && observed_counter(c, o) > o && (
        observed_counter(c, o) == c + 1 || observed_counter(c, o) == o + 1),
        c == u64::MAX || o == u64::MAX ==> observed_counter(c, o) == u64::MAX,
{
}

/// Two successive local events of one clock produce strictly increasing
/// timestamps, as long as the counter has not reached `u64::MAX`.
pub proof fn lemma_ticks_increase(counter: u64, replica: ReplicaId)
    requires
        ticked(counter) < u64::MAX,
    ensures
        (LamportTimestamp { counter: ticked(counter), replica }).precedes(
            (LamportTimestamp { counter: ticked(ticked(counter)), replica }),
        ),
{
}

/// After observing a counter value, the clock's next timestamp is strictly
/// beyond both the observed value and its own earlier counter, unless the
/// counter saturated at `u64::MAX`.
pub proof fn lemma_observe_passes_both(counter: u64, observed: u64)
    ensures
        observed < observed_counter(counter, observed) || observed_counter(counter, observed) == u64::MAX,
        counter < observed_counter(counter, observed) || observed_counter(counter, observed) == u64::MAX,
{
}

} // verus!
