//! A probability, and the flip of a coin with that bias.

use crate::random::random_index;
use rand::StdRng;
use vstd::prelude::*;

verus! {

/// A probability, given as a fraction `numerator / denominator`.
#[derive(Debug, Copy, Clone)]
pub struct Prob {
    numerator: u32,
    denominator: u32,
}

impl Prob {
    #[verifier::type_invariant]
    spec fn is_fraction(self) -> bool {
        self.denominator > 0 && self.numerator <= self.denominator
    }

    /// The number of outcomes, out of `whole`, on which the coin shows heads.
    pub closed spec fn part(self) -> nat {
        self.numerator as nat
    }

    /// The number of outcomes of a flip.
    pub closed spec fn whole(self) -> nat {
        self.denominator as nat
    }

    /// The coin always shows heads.
    pub open spec fn certain(self) -> bool {
        self.part() == self.whole()
    }

    /// The coin never shows heads.
    pub open spec fn impossible(self) -> bool {
        self.part() == 0
    }

    /// The probability `numerator / denominator`, which must lie between zero
    /// and one.
    pub fn new(numerator: u32, denominator: u32) -> (p: Prob)
        requires
            denominator > 0,
            numerator <= denominator,
        ensures
            p.part() == numerator,
            p.whole() == denominator,
    {
        Prob { numerator, denominator }
    }

    /// Says what the coin shows when the outcome `drawn` of `whole` equally
    /// likely ones has come up: heads on the first `part` outcomes.
    pub fn shows(&self, drawn: usize) -> (heads: bool)
        ensures
            heads == (drawn < self.part()),
    {
        drawn < self.numerator as usize
    }

    /// Flips the coin: draws one of `whole` equally likely outcomes and says
    /// what the coin shows on it.
    pub fn flip(&self, rng: &mut StdRng) -> (heads: bool)
        ensures
            self.certain() ==> heads,
            self.impossible() ==> !heads,
    {
        proof {
            use_type_invariant(self);
        }
        let drawn = random_index(rng, self.denominator as usize);
        self.shows(drawn)
    }
}

} // verus!
