//! A cost and a distance that remember the edge by which a vertex was
//! reached, for checking shortest paths.

use vstd::prelude::*;
use crate::priority::{Distance, Priority};

verus! {

/// A test cost associated with an edge.
#[derive(Debug, Clone, Copy)]
pub struct TestCost<C, E>(pub C, pub E);

/// A test distance that includes the edge used to reach the current vertex.
/// Two distances are ranked by their costs alone.
#[derive(Debug, Clone, Copy)]
pub struct TestDistance<C, E> {
    /// The total cost to reach the current vertex.
    pub cost: C,
    /// The edge used to reach the current vertex or `None` if this is the
    /// initial distance.
    pub pred: Option<E>,
}

impl<C, E> TestDistance<C, E> {
    /// Constructs a new `TestDistance` with the given cost and no predecessor
    /// edge.
    pub fn new(cost: C) -> (d: Self)
        ensures
            d.cost == cost,
            d.pred is None,
    {
        TestDistance { cost, pred: None }
    }
}

impl<C: Priority, E> Priority for TestDistance<C, E> {
    open spec fn at_most_spec(&self, other: &Self) -> bool {
        self.cost.at_most_spec(&other.cost)
    }

    fn at_most(&self, other: &Self) -> (b: bool) {
        self.cost.at_most(&other.cost)
    }

    proof fn lemma_total(a: &Self, b: &Self) {
        C::lemma_total(&a.cost, &b.cost);
    }

    proof fn lemma_transitive(a: &Self, b: &Self, c: &Self) {
        C::lemma_transitive(&a.cost, &b.cost, &c.cost);
    }
}

impl<C: Distance<C>, E: Copy> Distance<TestCost<C, E>> for TestDistance<C, E> {
    /// The distance that lies the cost beyond `self` and was reached by the
    /// edge of the cost.
    open spec fn plus_spec(self, cost: TestCost<C, E>) -> Self {
        TestDistance { cost: self.cost.plus_spec(cost.0), pred: Some(cost.1) }
    }

    fn plus(self, cost: TestCost<C, E>) -> (sum: Self) {
        TestDistance { cost: self.cost.plus(cost.0), pred: Some(cost.1) }
    }
}

} // verus!
