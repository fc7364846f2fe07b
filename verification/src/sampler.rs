//! The seeded source of random draws.

use rand::Rng;
use rand::SeedableRng;
use rand_chacha::ChaCha8Rng;
use vstd::prelude::*;

verus! {

/// The ChaCha generator with 8 rounds, of the crate `rand_chacha`. Nothing of
/// its state is visible to the proofs.
#[verifier::external_type_specification]
#[verifier::external_body]
pub struct ExChaCha8Rng(ChaCha8Rng);

/// Calls `SeedableRng::seed_from_u64` for `ChaCha8Rng`, which makes a
/// generator whose stream the seed alone determines. The contract claims
/// nothing of the generator.
#[verifier::external_body]
pub(crate) fn seeded(seed: u64) -> ChaCha8Rng {
    ChaCha8Rng::seed_from_u64(seed)
}

/// Calls `Rng::gen_range` with the range `0..bound`, which panics on an empty
/// range and is therefore kept from one. The contract claims only what holds
/// of every draw: the number lies in the range.
#[verifier::external_body]
pub(crate) fn draw_below(rng: &mut ChaCha8Rng, bound: u64) -> (draw: u64)
    requires
        bound > 0,
    ensures
        draw < bound,
{
    rng.gen_range(0..bound)
}

} // verus!
