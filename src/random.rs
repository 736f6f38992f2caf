//! The random stream that drives graph generation and the simulation.
use vstd::prelude::*;
use rand::Rng;

verus! {

/// rand's seedable generator, carried through the library as an opaque value.
#[verifier::external_type_specification]
#[verifier::external_body]
pub struct ExStdRng(rand::rngs::StdRng);

/// Relies on rand's `Rng::gen_ratio`: true with chance `numerator / denominator`;
/// `Bernoulli::from_ratio` makes a zero numerator always false and a numerator
/// equal to the denominator always true.
#[verifier::external_body]
pub(crate) fn chance(rng: &mut rand::rngs::StdRng, numerator: u32, denominator: u32) -> (r: bool)
    requires
        0 < denominator,
        numerator <= denominator,
    ensures
        numerator == 0 ==> !r,
        numerator == denominator ==> r,
{
    rng.gen_ratio(numerator, denominator)
}

/// Relies on rand's `Rng::gen_range` over `0..bound`: a value below `bound`.
#[verifier::external_body]
pub(crate) fn below(rng: &mut rand::rngs::StdRng, bound: usize) -> (r: usize)
    requires
        0 < bound,
    ensures
        r < bound,
{
    rng.gen_range(0..bound)
}

} // verus!
