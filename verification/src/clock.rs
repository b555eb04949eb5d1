//! The clock by which generations are timed.

use vstd::prelude::*;

verus! {

/// The current value of a high-resolution counter, in nanoseconds since an
/// epoch that is not specified.
///
/// This calls `time::precise_time_ns()`. Nothing is claimed of the value: it
/// depends on the moment of the call.
#[verifier::external_body]
pub(crate) fn now_ns() -> u64 {
    time::precise_time_ns()
}

} // verus!
