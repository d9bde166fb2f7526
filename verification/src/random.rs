use vstd::prelude::*;

verus! {

/// A number drawn from `low..high`.
///
/// Calls `rand::Rng::random_range` on the generator of the calling thread,
/// `rand::rng()`. The contract claims of it only what its documentation does:
/// that the value lies in the range. It panics on an empty range, which the
/// precondition leaves out. Two calls may differ.
#[verifier::external_body]
pub fn m_random_range(low: usize, high: usize) -> (r: usize)
    requires
        low < high,
    ensures
        low <= r < high,
{
    rand::Rng::random_range(&mut rand::rng(), low..high)
}

} // verus!
