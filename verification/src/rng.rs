//! Caller-supplied randomness, drawn from the `rand` crate.
//!
//! Nothing is promised of the sampled values: every function of the
//! library that consumes them states what holds for every outcome.

use vstd::prelude::*;

verus! {

#[verifier::external_type_specification]
#[verifier::external_body]
pub struct ExStdRng(rand::rngs::StdRng);

/// Relies on rand::SeedableRng::seed_from_u64 to construct a seeded
/// standard RNG.
#[verifier::external_body]
pub fn rng_from_seed(seed: u64) -> rand::rngs::StdRng {
    <rand::rngs::StdRng as rand::SeedableRng>::seed_from_u64(seed)
}

/// Relies on rand::Rng::next_u64 for the next word of entropy; nothing
/// is promised of the value.
#[verifier::external_body]
pub fn next_random_u64(rng: &mut rand::rngs::StdRng) -> u64 {
    rand::Rng::next_u64(rng)
}

/// A uniform-looking residue below `q`, from caller-supplied entropy.
pub fn random_residue(rng: &mut rand::rngs::StdRng, q: u64) -> (r: u64)
    requires
        q >= 2,
    ensures
        r < q,
{
    let x = next_random_u64(rng);
    crate::zq::reduce_mod(q, x)
}

} // verus!
