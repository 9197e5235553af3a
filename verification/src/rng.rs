//! Trusted boundary to the process-wide pseudo-random source.
//!
//! Every draw the puzzle makes (filler characters, placement indices, target
//! selection, reward coin-flips, elimination choices) goes through one of the
//! two wrappers below; nothing else in the library touches the random source.

use vstd::prelude::*;
use rand::Rng;

verus! {

/// Relies on `rand::Rng::gen_range` over `0..n` (via `rand::thread_rng`):
/// for a non-empty range it returns a value inside the range.
#[verifier::external_body]
pub(crate) fn random_below(n: usize) -> (r: usize)
    requires
        n > 0,
    ensures
        r < n,
{
    rand::thread_rng().gen_range(0..n)
}

/// Relies on `rand::random::<bool>`: a coin flip.  Nothing can be promised
/// of the outcome.
#[verifier::external_body]
pub(crate) fn random_bool() -> bool {
    rand::random::<bool>()
}

} // verus!
