//! The random source, and the one thing that is asked of it.

use rand::{Rng, StdRng};
use vstd::prelude::*;

verus! {

/// `rand::StdRng`, the standard random number generator of the `rand` crate.
/// A value of it is carried through to the calls that draw from it; nothing
/// is known of what it holds.
#[verifier::external_type_specification]
#[verifier::external_body]
pub struct ExStdRng(StdRng);

/// Draws an index below `n`, each with the same chance.
///
/// This calls `Rng::gen_range(0, n)` of the `rand` crate, which fails when the
/// range is empty, hence `n > 0`, and which returns a value of the range.
/// Nothing else is claimed of the value: two calls may differ.
#[verifier::external_body]
pub(crate) fn random_index(rng: &mut StdRng, n: usize) -> (index: usize)
    requires
        n > 0,
    ensures
        index < n,
{
    rng.gen_range(0, n)
}

} // verus!
