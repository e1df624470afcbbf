//! The crate's source of randomness.

use rand::Rng;
use vstd::prelude::*;

verus! {

/// Draws an integer uniformly from `lo..=hi`.
///
/// Relies on `rand::Rng::random_range` on the thread-local generator of
/// `rand::rng()`: every value it returns lies in the given range. It panics
/// when the range is empty, which `lo <= hi` rules out; the thread-local
/// generator itself can also fail on an OS entropy error, as any use of it
/// may.
#[verifier::external_body]
pub(crate) fn random_in_range(lo: i32, hi: i32) -> (r: i32)
    requires
        lo <= hi,
    ensures
        lo <= r <= hi,
{
    rand::rng().random_range(lo..=hi)
}

} // verus!
