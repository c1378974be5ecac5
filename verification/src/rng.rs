//! Seeded pseudo-random generation for the toy parameter setup and the
//! hiding randomness. The generator itself comes from the `rand` crate;
//! nothing is assumed about the values it yields, so everything built from
//! them is verified for every possible outcome.

use vstd::prelude::*;

verus! {

#[verifier::external_type_specification]
#[verifier::external_body]
pub struct ExStdRng(rand::rngs::StdRng);

/// Relies on rand's `StdRng::seed_from_u64`: builds a generator from the
/// seed. Nothing is assumed about the stream it produces.
#[verifier::external_body]
pub(crate) fn rng_from_seed(seed: u64) -> rand::rngs::StdRng {
    <rand::rngs::StdRng as rand::SeedableRng>::seed_from_u64(seed)
}

/// Relies on rand's `Rng::gen::<u32>`: draws the generator's next 32 bits.
/// Nothing is assumed about the value.
#[verifier::external_body]
pub(crate) fn rng_next_u32(rng: &mut rand::rngs::StdRng) -> u32 {
    rand::Rng::gen::<u32>(rng)
}

} // verus!
