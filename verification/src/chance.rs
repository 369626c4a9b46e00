//! Random draws, from the `rand` crate.

use vstd::prelude::*;

verus! {

/// A random integer between `lo` and `hi`, both included.
///
/// Calls `rand::random_range(lo..=hi)` from the thread-local generator;
/// trusted: rand documents that the value lies in the inclusive range, and
/// that the range must not be empty. Nothing else is claimed of the value.
#[verifier::external_body]
pub(crate) fn random_in(lo: i32, hi: i32) -> (r: i32)
    requires
        lo <= hi,
    ensures
        lo <= r <= hi,
{
    rand::random_range(lo..=hi)
}

} // verus!
