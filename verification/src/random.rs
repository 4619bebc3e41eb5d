//! The source of randomness: a seedable generator and the draws made from it.

use vstd::prelude::*;
use rand::Rng;
use rand::rngs::StdRng;
use crate::number::{lemma_unit_interval_bounds, Real, ONE_BITS};

verus! {

/// The standard generator of the `rand` crate, `rand::rngs::StdRng`. Its
/// state is opaque here: a generator is only handed on to the draws below.
#[verifier::external_type_specification]
#[verifier::external_body]
pub struct ExStdRng(StdRng);

/// Draws an integer below `n` with `Rng::gen_range(0..n)`.
///
/// Trusted: the call returns a value of the half-open range it is given, and
/// panics only on an empty range, which `n > 0` rules out.
#[verifier::external_body]
pub(crate) fn draw_below(rng: &mut StdRng, n: u64) -> (r: u64)
    requires
        n > 0,
    ensures
        r < n,
{
    rng.gen_range(0..n)
}

/// Draws 64 random bits with `Rng::gen`. Nothing is claimed of the result.
#[verifier::external_body]
pub(crate) fn draw_bits(rng: &mut StdRng) -> u64 {
    rng.gen::<u64>()
}

/// The number of the unit interval `[0, 1)` that 64 random bits stand for:
/// the 53 most significant of them are the numerator of a fraction with the
/// denominator `2^53`.
pub fn unit_of(bits: u64) -> (r: Real)
    ensures
        r.is_unit_fraction((bits / 2048) as nat),
        r.in_unit_interval(),
        !r.is_nan(),
        !r.is_negative(),
        r.lt(Real { bits: ONE_BITS }),
{
    let k: u64 = bits / 2048;
    let r = Real::from_unit_fraction(k);
    proof {
        assert(r.is_unit_fraction(k as nat));
        lemma_unit_interval_bounds(r);
    }
    r
}

/// Draws a real number of the unit interval `[0, 1)`, each of its `2^53`
/// fractions being as likely as any other.
pub fn draw_unit(rng: &mut StdRng) -> (r: Real)
    ensures
        r.in_unit_interval(),
        !r.is_nan(),
        !r.is_negative(),
        r.lt(Real { bits: ONE_BITS }),
{
    let bits: u64 = draw_bits(rng);
    unit_of(bits)
}

} // verus!
