//! A single objective: a total order and a distance on solutions.

use crate::verdict::Verdict;
use std::cmp::Ordering;
use vstd::prelude::*;

verus! {

/// An objective over solutions of type `S` with distances of type `D`.
///
/// An objective answers two questions about any two solutions: which one is
/// better (a total order), and how far apart they are (a signed distance whose
/// magnitude is what callers use).
///
/// Both answers must depend on the two solutions alone. `order` and `gap` name
/// those answers in contracts; nothing else is assumed of an implementation.
pub trait Objective<S, D> {
    /// The answer of `total_order` on `a` and `b`.
    open spec fn order(&self, a: &S, b: &S) -> Verdict {
        arbitrary::<spec_fn(&Self, &S, &S) -> Verdict>()(self, a, b)
    }

    /// The answer of `distance` on `a` and `b`.
    open spec fn gap(&self, a: &S, b: &S) -> D {
        arbitrary::<spec_fn(&Self, &S, &S) -> D>()(self, a, b)
    }

    /// Is `a` better than, as good as, or worse than `b`?
    fn total_order(&self, a: &S, b: &S) -> (o: Ordering)
        ensures
            Verdict::of(o) == self.order(a, b),
    ;

    /// How far is `a` from `b`? Zero means that the objective cannot tell them
    /// apart. The sign carries no meaning of its own.
    fn distance(&self, a: &S, b: &S) -> (d: D)
        ensures
            d == self.gap(a, b),
    ;
}

/// Asks `objective` for the order of `a` and `b`.
pub fn order_under<S, D, O: Objective<S, D> + ?Sized>(objective: &O, a: &S, b: &S) -> (v: Verdict)
    ensures
        v == objective.order(a, b),
{
    Verdict::from_ordering(objective.total_order(a, b))
}

/// Asks `objective` for the distance from `a` to `b`.
pub fn gap_under<S, D, O: Objective<S, D> + ?Sized>(objective: &O, a: &S, b: &S) -> (d: D)
    ensures
        d == objective.gap(a, b),
{
    objective.distance(a, b)
}

} // verus!
