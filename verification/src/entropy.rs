//! The library's single source of randomness: ids, display colors, one-way
//! assignment and spawn offsets all draw through it.

use vstd::prelude::*;

verus! {

/// Relies on rand::random_range: a uniform sample from `lo..hi`, which always
/// lies in that half-open range; the range must be non-empty or it panics.
#[verifier::external_body]
pub(crate) fn random_in_range(lo: i64, hi: i64) -> (r: i64)
    requires
        lo < hi,
    ensures
        lo <= r < hi,
{
    rand::random_range(lo..hi)
}

} // verus!
