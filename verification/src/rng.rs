//! The one bridge to the random number generator.

use vstd::prelude::*;

verus! {

/// Relies on rand's `Rng::gen_range` over `0..n`: it panics on an
/// empty range and otherwise draws a value below `n` from the
/// thread-local generator.  Nothing more is assumed of the draw.
#[verifier::external_body]
pub fn rand_below(n: u64) -> (r: u64)
    requires
        n > 0,
    ensures
        r < n,
{
    rand::Rng::gen_range(&mut rand::thread_rng(), 0..n)
}

} // verus!
