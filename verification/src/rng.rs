//! The one randomized choice this crate makes: drawing a position below a
//! bound, for the randomized eviction policy.

use vstd::prelude::*;

verus! {

/// Relies on rand::random_range: for the range `0..n` it returns a value
/// drawn from that range, hence below `n`.  It can panic only on an empty
/// range, which `n > 0` rules out.
#[verifier::external_body]
pub(crate) fn random_below(n: usize) -> (r: usize)
    requires
        n > 0,
    ensures
        r < n,
{
    rand::random_range(0..n)
}

} // verus!
