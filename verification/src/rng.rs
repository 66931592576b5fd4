//! The pseudo-random source the genetic operators draw from.
use vstd::prelude::*;

verus! {

/// Relies on rand::random_range: a draw from the half-open range `0..n` with
/// the thread-local generator, which panics only on an empty range.
#[verifier::external_body]
pub(crate) fn rand_below(n: usize) -> (r: usize)
    requires
        n >= 1,
    ensures
        r < n,
{
    rand::random_range(0..n)
}

} // verus!
