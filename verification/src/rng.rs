//! The crate's single source of randomness.

use vstd::prelude::*;
use rand::Rng;

verus! {

/// Relies on `rand::thread_rng` and `rand::Rng::gen_range`: returns a
/// uniformly distributed value in the non-empty half-open range `[lo, hi)`.
/// The thread-local generator seeds itself from the operating system's
/// entropy source on first use; nothing about the value returned depends
/// on the environment beyond that.
#[verifier::external_body]
pub fn rand_range(lo: i64, hi: i64) -> (r: i64)
    requires
        lo < hi,
    ensures
        lo <= r < hi,
{
    rand::thread_rng().gen_range(lo..hi)
}

} // verus!
