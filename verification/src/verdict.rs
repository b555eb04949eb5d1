//! The three-valued outcome of a comparison.

use std::cmp::Ordering;
use vstd::prelude::*;

verus! {

/// Outcome of comparing a left value with a right value.
///
/// For a single objective it reads as "better", "as good" and "worse". For a
/// dominance relation it reads as "the left dominates", "neither dominates"
/// and "the right dominates".
#[derive(Clone, Copy, Debug, PartialEq, Eq, Structural)]
pub enum Verdict {
    Less,
    Equal,
    Greater,
}

impl Verdict {
    /// The verdict that stands for a standard ordering.
    pub open spec fn of(o: Ordering) -> Verdict {
        match o {
            Ordering::Less => Verdict::Less,
            Ordering::Equal => Verdict::Equal,
            Ordering::Greater => Verdict::Greater,
        }
    }

    /// The verdict seen from the other side.
    pub open spec fn reversed(self) -> Verdict {
        match self {
            Verdict::Less => Verdict::Greater,
            Verdict::Equal => Verdict::Equal,
            Verdict::Greater => Verdict::Less,
        }
    }

    /// The verdict of a tally: `less` comparisons favoured the left value and
    /// `greater` comparisons favoured the right one.
    pub open spec fn tally(less: nat, greater: nat) -> Verdict {
        if less > 0 && greater == 0 {
            Verdict::Less
        } else if greater > 0 && less == 0 {
            Verdict::Greater
        } else {
            Verdict::Equal
        }
    }

    /// The verdict that stands for a standard ordering.
    pub fn from_ordering(o: Ordering) -> (v: Verdict)
        ensures
            v == Verdict::of(o),
    {
        match o {
            Ordering::Less => Verdict::Less,
            Ordering::Equal => Verdict::Equal,
            Ordering::Greater => Verdict::Greater,
        }
    }

    /// The standard ordering that the verdict stands for.
    pub fn to_ordering(self) -> (o: Ordering)
        ensures
            Verdict::of(o) == self,
    {
        match self {
            Verdict::Less => Ordering::Less,
            Verdict::Equal => Ordering::Equal,
            Verdict::Greater => Ordering::Greater,
        }
    }

    /// The verdict seen from the other side.
    pub fn reverse(self) -> (r: Verdict)
        ensures
            r == self.reversed(),
    {
        match self {
            Verdict::Less => Verdict::Greater,
            Verdict::Equal => Verdict::Equal,
            Verdict::Greater => Verdict::Less,
        }
    }

    /// The dominance verdict of a tally of comparisons: the left value dominates
    /// when at least one comparison favours it and none favours the right
    /// value, and the other way round.
    pub fn from_counts(less: usize, greater: usize) -> (v: Verdict)
        ensures
            v == Verdict::tally(less as nat, greater as nat),
    {
        if less > 0 && greater == 0 {
            Verdict::Less
        } else if greater > 0 && less == 0 {
            Verdict::Greater
        } else {
            Verdict::Equal
        }
    }
}

} // verus!
