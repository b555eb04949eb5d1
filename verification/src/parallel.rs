//! The parallel map that rates a population.

use rayon::iter::{IntoParallelIterator, ParallelIterator};
use vstd::prelude::*;

verus! {

/// Applies `eval` to every item, in parallel, and returns the results in the
/// order of the items.
///
/// This calls `into_par_iter().map(eval).collect()` of the `rayon` crate on
/// the vector of items. `map` applies `eval` to each item, and collecting into
/// a vector keeps the order of the items. `eval` may be called from any
/// thread, and in any order.
#[verifier::external_body]
pub(crate) fn par_map<'a, G: Sync, F: Send, E: Fn(&G) -> F + Sync>(
    items: Vec<&'a G>,
    eval: &E,
) -> (out: Vec<F>)
    requires
        forall|i: int| 0 <= i < items@.len() ==> call_requires(*eval, (#[trigger] items@[i],)),
    ensures
        out@.len() == items@.len(),
        forall|i: int| 0 <= i < out@.len() ==> call_ensures(*eval, (items@[i],), #[trigger] out@[i]),
{
    items.into_par_iter().map(eval).collect()
}

} // verus!
