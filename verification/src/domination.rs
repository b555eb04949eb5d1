//! The dominance relation between two solutions.

use crate::verdict::Verdict;
use std::cmp::Ordering;
use vstd::prelude::*;

verus! {

/// A dominance relation on solutions. For two solutions `a` and `b` there are
/// three situations:
///
/// - `a` dominates `b` (`Less`),
/// - `b` dominates `a` (`Greater`),
/// - neither dominates the other (`Equal`).
///
/// The answer must depend on the two solutions alone; `verdict` names it in
/// contracts.
pub trait DominationOrd {
    /// The solution type on which the relation is defined.
    type Solution;

    /// The answer of `domination_ord` on `a` and `b`.
    open spec fn verdict(&self, a: &Self::Solution, b: &Self::Solution) -> Verdict {
        arbitrary::<spec_fn(&Self, &Self::Solution, &Self::Solution) -> Verdict>()(self, a, b)
    }

    /// Returns the dominance order of `a` and `b`.
    fn domination_ord(&self, a: &Self::Solution, b: &Self::Solution) -> (o: Ordering)
        ensures
            Verdict::of(o) == self.verdict(a, b),
    ;

    /// Returns true if `a` dominates `b`.
    fn dominates(&self, a: &Self::Solution, b: &Self::Solution) -> (r: bool)
        default_ensures
            r == (self.verdict(a, b) == Verdict::Less),
    {
        match self.domination_ord(a, b) {
            Ordering::Less => true,
            _ => false,
        }
    }
}

/// A dominance relation that a fitness value carries itself, judged on a chosen
/// subset of its objectives.
///
/// The answer must depend on the two values and the chosen objectives alone;
/// `verdict_on` names it in contracts.
pub trait Domination {
    /// The answer of `domination_ord` on `self`, `rhs` and `objectives`.
    open spec fn verdict_on(&self, rhs: &Self, objectives: Seq<usize>) -> Verdict {
        arbitrary::<spec_fn(&Self, &Self, Seq<usize>) -> Verdict>()(self, rhs, objectives)
    }

    /// Returns the dominance order of `self` and `rhs` under the objectives
    /// whose indices are listed.
    fn domination_ord(&self, rhs: &Self, objectives: &[usize]) -> (o: Ordering)
        ensures
            Verdict::of(o) == self.verdict_on(rhs, objectives@),
    ;
}

/// Asks `lhs` for its verdict against `rhs` under `objectives`.
pub fn verdict_between<F: Domination>(lhs: &F, rhs: &F, objectives: &[usize]) -> (v: Verdict)
    ensures
        v == lhs.verdict_on(rhs, objectives@),
{
    Verdict::from_ordering(lhs.domination_ord(rhs, objectives))
}

/// Asks `domination` for its verdict on `a` and `b`.
pub fn verdict_under<X: DominationOrd>(domination: &X, a: &X::Solution, b: &X::Solution) -> (v:
    Verdict)
    ensures
        v == domination.verdict(a, b),
{
    Verdict::from_ordering(domination.domination_ord(a, b))
}

} // verus!
