//! The library's only source of randomness: thin trusted wrappers around
//! the `rand` crate. Nothing is assumed of a drawn value beyond its range.

use vstd::prelude::*;

verus! {

/// Relies on rand::random_range over `0..n`: a value uniformly distributed
/// below `n`, from the thread-local generator. Panics only on an empty
/// range, which the precondition rules out.
#[verifier::external_body]
pub(crate) fn rand_index(n: usize) -> (r: usize)
    requires
        n >= 1,
    ensures
        r < n,
{
    rand::random_range(0..n)
}

/// Relies on rand::random_range over `lo..hi`: a value uniformly distributed
/// in the half-open range, from the thread-local generator. Panics only on
/// an empty range, which the precondition rules out.
#[verifier::external_body]
pub(crate) fn rand_u64_between(lo: u64, hi: u64) -> (r: u64)
    requires
        lo < hi,
    ensures
        lo <= r < hi,
{
    rand::random_range(lo..hi)
}

} // verus!
