//! The library's single source of randomness.

use vstd::prelude::*;

verus! {

/// Relies on `rand::random_range` over `lo..hi`: a draw from the
/// thread-local generator, uniform over the half-open range.  Its only
/// panic is on an empty range, which the precondition excludes.  Nothing
/// more is promised: every draw may differ from the last.
#[verifier::external_body]
pub(crate) fn rand_range(lo: i64, hi: i64) -> (r: i64)
    requires
        lo < hi,
    ensures
        lo <= r < hi,
{
    rand::random_range(lo..hi)
}

} // verus!
