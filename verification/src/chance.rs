//! Random draws from the simulation's seeded generator.

use rand::rngs::StdRng;
use rand::Rng;
use vstd::prelude::*;

verus! {

#[verifier::external_type_specification]
#[verifier::external_body]
pub struct ExStdRng(StdRng);

/// A uniformly random 32-bit word (`Rng::gen::<u32>`). Nothing is promised of
/// the value.
#[verifier::external_body]
pub(crate) fn random_word(rng: &mut StdRng) -> (r: u32) {
    rng.gen::<u32>()
}

/// A uniformly random integer of `lo..=hi` (`Rng::gen_range`), which panics
/// on an empty range. The value lies in the range.
#[verifier::external_body]
pub(crate) fn random_between(rng: &mut StdRng, lo: usize, hi: usize) -> (r: usize)
    requires
        lo <= hi,
    ensures
        lo <= r <= hi,
{
    rng.gen_range(lo..=hi)
}

/// `true` with probability `numerator / denominator` (`Rng::gen_ratio`),
/// which panics when `denominator == 0` or `numerator > denominator`. The
/// source guarantees `false` for a zero numerator and `true` when numerator
/// equals denominator.
#[verifier::external_body]
pub(crate) fn chance(rng: &mut StdRng, numerator: u32, denominator: u32) -> (r: bool)
    requires
        0 < denominator,
        numerator <= denominator,
    ensures
        numerator == 0 ==> !r,
        numerator == denominator ==> r,
{
    rng.gen_ratio(numerator, denominator)
}

} // verus!
