//! Trusted boundary around the random number generator. The simulation only
//! ever needs a uniform draw below a positive bound; nothing is promised
//! about which value comes back, so every caller is verified for all
//! possible draws.
use rand::prelude::Distribution;
use rand::SeedableRng;
use vstd::prelude::*;

verus! {

#[verifier::external_type_specification]
#[verifier::external_body]
pub struct ExSmallRng(rand::rngs::SmallRng);

/// Relies on rand's SmallRng::from_entropy: a fresh non-cryptographic
/// generator seeded from the operating system. Nothing is promised about
/// the values it will produce.
#[verifier::external_body]
pub(crate) fn fresh_rng() -> rand::rngs::SmallRng {
    rand::rngs::SmallRng::from_entropy()
}

/// Relies on rand's Uniform::new(0, k) and Distribution::sample: a draw
/// uniform over [0, k). Uniform::new panics on an empty range, so the bound
/// must be positive; of the draw itself only the range is promised.
#[verifier::external_body]
pub(crate) fn rand_below(rng: &mut rand::rngs::SmallRng, k: usize) -> (r: usize)
    requires
        1 <= k,
    ensures
        r < k,
{
    rand::distributions::Uniform::new(0, k).sample(rng)
}

} // verus!
