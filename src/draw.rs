//! Uniform draws from a seedable random source.
use core::ops::RangeInclusive;
use rand::rngs::StdRng;
use rand::Rng;
use vstd::prelude::*;

verus! {

#[verifier::external_type_specification]
#[verifier::external_body]
pub struct ExStdRng(StdRng);

/// Relies on rand's `Rng::gen_range` over an inclusive range: a value
/// between both bounds (it panics on an empty range, which `requires` keeps
/// out).
#[verifier::external_body]
pub(crate) fn draw(rng: &mut StdRng, low: u128, high: u128) -> (r: u128)
    requires
        low <= high,
    ensures
        low <= r <= high,
{
    rng.gen_range(low..=high)
}

/// Relies on `RangeInclusive::start`: the lower bound of the range.
#[verifier::external_body]
pub(crate) fn range_start(range: &RangeInclusive<i32>) -> (r: i32)
    ensures
        r == range@.start,
{
    *range.start()
}

/// Relies on `RangeInclusive::end`: the upper bound of the range.
#[verifier::external_body]
pub(crate) fn range_end(range: &RangeInclusive<i32>) -> (r: i32)
    ensures
        r == range@.end,
{
    *range.end()
}

} // verus!
