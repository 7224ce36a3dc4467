//! The crate's single source of randomness.

use rand::Rng;
use vstd::prelude::*;

verus! {

/// Relies on rand::Rng::gen_range over the range `0..n`: it samples a value
/// uniformly from that range and returns it, so the result is always below
/// `n`. The range is non-empty by the precondition, so the call cannot panic.
#[verifier::external_body]
pub(crate) fn random_below(n: u64) -> (r: u64)
    requires
        n >= 1,
    ensures
        r < n,
{
    rand::thread_rng().gen_range(0..n)
}

} // verus!
