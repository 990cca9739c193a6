//! Trusted access to the `rand` crate's seeded generator.
//!
//! Which value a draw yields depends on the generator's hidden state, so each
//! wrapper promises only that the value lies in the requested range; the
//! verified callers are proved for every such value.
use rand::rngs::StdRng;
use rand::{Rng, SeedableRng};
use vstd::prelude::*;

verus! {

/// `rand::rngs::StdRng`, carried opaquely.
#[verifier::external_type_specification]
#[verifier::external_body]
pub struct ExStdRng(StdRng);

/// Calls `rand::SeedableRng::seed_from_u64` for `StdRng`; nothing about the
/// generator's state is stated.
#[verifier::external_body]
pub(crate) fn seeded_rng(seed: u64) -> StdRng {
    StdRng::seed_from_u64(seed)
}

/// Calls `rand::Rng::gen_range(low..=high)` at type `u32`, which panics on an
/// empty range and otherwise returns a value inside it.
#[verifier::external_body]
pub(crate) fn gen_range_u32_inclusive(rng: &mut StdRng, low: u32, high: u32) -> (value: u32)
    requires
        low <= high,
    ensures
        low <= value <= high,
{
    rng.gen_range(low..=high)
}

/// Calls `rand::Rng::gen_range(low..high)` at type `u32`, which panics on an
/// empty range and otherwise returns a value inside it.
#[verifier::external_body]
pub(crate) fn gen_range_u32_below(rng: &mut StdRng, low: u32, high: u32) -> (value: u32)
    requires
        low < high,
    ensures
        low <= value < high,
{
    rng.gen_range(low..high)
}

/// Calls `rand::Rng::gen_range(low..=high)` at type `u64`, which panics on an
/// empty range and otherwise returns a value inside it.
#[verifier::external_body]
pub(crate) fn gen_range_u64_inclusive(rng: &mut StdRng, low: u64, high: u64) -> (value: u64)
    requires
        low <= high,
    ensures
        low <= value <= high,
{
    rng.gen_range(low..=high)
}

/// Calls `rand::Rng::gen_range(low..high)` at type `usize`, which panics on an
/// empty range and otherwise returns a value inside it.
#[verifier::external_body]
pub(crate) fn gen_range_usize_below(rng: &mut StdRng, low: usize, high: usize) -> (value: usize)
    requires
        low < high,
    ensures
        low <= value < high,
{
    rng.gen_range(low..high)
}

} // verus!
