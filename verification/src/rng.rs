//! The pseudo-random generator behind the precomputed simulation table and
//! the random fallback policy, wrapped for the verifier: of a drawn number
//! only its range is stated.
use vstd::prelude::*;

verus! {

#[verifier::external_type_specification]
#[verifier::external_body]
pub struct ExStdRng(rand::rngs::StdRng);

/// Relies on rand::SeedableRng::seed_from_u64: a generator built
/// deterministically from a seed.
#[verifier::external_body]
pub fn seeded_rng(seed: u64) -> rand::rngs::StdRng {
    <rand::rngs::StdRng as rand::SeedableRng>::seed_from_u64(seed)
}

/// Relies on rand::Rng::gen_range over a non-empty inclusive range: the
/// sample lies within the bounds. Nothing more can be said of a random draw.
#[verifier::external_body]
pub fn gen_range_i64(rng: &mut rand::rngs::StdRng, low: i64, high: i64) -> (r: i64)
    requires
        low <= high,
    ensures
        low <= r <= high,
{
    rand::Rng::gen_range(rng, low..=high)
}

/// Relies on rand::Rng::gen_range over a non-empty half-open range: the
/// sampled index is below the bound.
#[verifier::external_body]
pub fn gen_index(rng: &mut rand::rngs::StdRng, n: usize) -> (r: usize)
    requires
        n > 0,
    ensures
        r < n,
{
    rand::Rng::gen_range(rng, 0..n)
}

} // verus!
