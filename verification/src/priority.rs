//! Orders by which a heap ranks its values, and the step that lengthens a
//! path.

use vstd::prelude::*;

verus! {

/// Values that are ranked by a total preorder: any two can be compared, and
/// the comparison is transitive. Two different values may rank alike.
pub trait Priority: Sized {
    /// Whether `self` ranks no higher than `other`.
    spec fn at_most_spec(&self, other: &Self) -> bool;

    /// Returns whether `self` ranks no higher than `other`.
    fn at_most(&self, other: &Self) -> (b: bool)
        ensures
            b == self.at_most_spec(other),
    ;

    /// Of two values, one ranks no higher than the other.
    proof fn lemma_total(a: &Self, b: &Self)
        ensures
            a.at_most_spec(b) || b.at_most_spec(a),
    ;

    /// The ranking is transitive.
    proof fn lemma_transitive(a: &Self, b: &Self, c: &Self)
        requires
            a.at_most_spec(b),
            b.at_most_spec(c),
        ensures
            a.at_most_spec(c),
    ;
}

/// Distances to which the cost of an edge can be added.
pub trait Distance<C>: Priority + Copy {
    /// The distance that lies `cost` beyond `self`.
    spec fn plus_spec(self, cost: C) -> Self;

    /// Returns the distance that lies `cost` beyond `self`.
    fn plus(self, cost: C) -> (sum: Self)
        ensures
            sum == self.plus_spec(cost),
    ;
}

impl Priority for u32 {
    open spec fn at_most_spec(&self, other: &Self) -> bool {
        *self <= *other
    }

    fn at_most(&self, other: &Self) -> (b: bool) {
        *self <= *other
    }

    proof fn lemma_total(a: &Self, b: &Self) {
    }

    proof fn lemma_transitive(a: &Self, b: &Self, c: &Self) {
    }
}

impl Priority for u64 {
    open spec fn at_most_spec(&self, other: &Self) -> bool {
        *self <= *other
    }

    fn at_most(&self, other: &Self) -> (b: bool) {
        *self <= *other
    }

    proof fn lemma_total(a: &Self, b: &Self) {
    }

    proof fn lemma_transitive(a: &Self, b: &Self, c: &Self) {
    }
}

impl Priority for usize {
    open spec fn at_most_spec(&self, other: &Self) -> bool {
        *self <= *other
    }

    fn at_most(&self, other: &Self) -> (b: bool) {
        *self <= *other
    }

    proof fn lemma_total(a: &Self, b: &Self) {
    }

    proof fn lemma_transitive(a: &Self, b: &Self, c: &Self) {
    }
}

impl Distance<u32> for u32 {
    /// The sum; a sum that does not fit stays at the largest value.
    open spec fn plus_spec(self, cost: u32) -> u32 {
        if self + cost <= u32::MAX {
            (self + cost) as u32
        } else {
            u32::MAX
        }
    }

    fn plus(self, cost: u32) -> (sum: u32) {
        if cost <= u32::MAX - self {
            self + cost
        } else {
            u32::MAX
        }
    }
}

impl Distance<u64> for u64 {
    /// The sum; a sum that does not fit stays at the largest value.
    open spec fn plus_spec(self, cost: u64) -> u64 {
        if self + cost <= u64::MAX {
            (self + cost) as u64
        } else {
            u64::MAX
        }
    }

    fn plus(self, cost: u64) -> (sum: u64) {
        if cost <= u64::MAX - self {
            self + cost
        } else {
            u64::MAX
        }
    }
}

impl Distance<usize> for usize {
    /// The sum; a sum that does not fit stays at the largest value.
    open spec fn plus_spec(self, cost: usize) -> usize {
        if self + cost <= usize::MAX {
            (self + cost) as usize
        } else {
            usize::MAX
        }
    }

    fn plus(self, cost: usize) -> (sum: usize) {
        if cost <= usize::MAX - self {
            self + cost
        } else {
            usize::MAX
        }
    }
}

} // verus!
