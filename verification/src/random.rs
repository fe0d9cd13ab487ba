//! Random draws.
//!
//! The generator is `rand`'s `StdRng`. Nothing here is proved: each function
//! below makes one call into `rand`, and its contract says of the result only
//! what holds of every draw.

use rand::rngs::StdRng;
use rand::Rng;
use vstd::prelude::*;

verus! {

/// `rand::rngs::StdRng`, the generator that every random step draws from.
/// Its state is not modelled.
#[verifier::external_type_specification]
#[verifier::external_body]
pub struct ExStdRng(StdRng);

/// Calls `Rng::gen_range` on the range from zero up to, not including,
/// `bound`. The call panics on an empty range, so `bound` must be positive;
/// the draw lies in the range.
#[verifier::external_body]
pub(crate) fn draw_below(rng: &mut StdRng, bound: u128) -> (r: u128)
    requires
        bound > 0,
    ensures
        r < bound,
{
    rng.gen_range(0..bound)
}

/// Calls `Rng::gen_ratio`, which is true with the chance `numerator` in
/// `denominator`. The call panics when the denominator is zero or less than
/// the numerator. A chance of zero is never true; a chance of one always is.
#[verifier::external_body]
pub(crate) fn draw_ratio(rng: &mut StdRng, numerator: u32, denominator: u32) -> (r: bool)
    requires
        denominator > 0,
        numerator <= denominator,
    ensures
        numerator == denominator ==> r,
        numerator == 0 ==> !r,
{
    rng.gen_ratio(numerator, denominator)
}

/// Calls `Rng::gen` for a `bool`: either value may come.
#[verifier::external_body]
pub(crate) fn draw_bit(rng: &mut StdRng) -> (r: bool) {
    rng.gen::<bool>()
}

} // verus!
