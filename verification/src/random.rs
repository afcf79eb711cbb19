//! The random draws that the library takes from the `rand` crate.

use rand::rngs::StdRng;
use rand::Rng;
use vstd::prelude::*;

verus! {

/// The generator of `rand` that the caller seeds and hands in.
#[verifier::external_type_specification]
#[verifier::external_body]
pub struct ExStdRng(rand::rngs::StdRng);

/// Calls `rand::Rng::random_range` on the half-open range `low..high`.
/// The claim: the draw lies in that range. An empty range makes the outside
/// function panic and is left out.
#[verifier::external_body]
pub(crate) fn random_in_range(rng: &mut StdRng, low: i32, high: i32) -> (drawn: i32)
    requires
        low < high,
    ensures
        low <= drawn < high,
{
    rng.random_range(low..high)
}

/// Calls `rand::Rng::random` for a `u64`. Nothing is claimed of the draw.
#[verifier::external_body]
pub(crate) fn random_u64(rng: &mut StdRng) -> (drawn: u64) {
    rng.random::<u64>()
}

} // verus!
