//! The shared random stream: a seedable generator consumed sequentially, so a
//! fixed seed yields a reproducible match. All draws the simulation makes go
//! through the functions here.

use vstd::prelude::*;

verus! {

/// The simulation's random source is rand's standard generator, carried
/// opaquely through the engine.
#[verifier::external_type_specification]
#[verifier::external_body]
pub struct ExStdRng(rand::rngs::StdRng);

/// Relies on rand's `Rng::gen_range` over a `u64` half-open range: the result
/// is drawn from `low..high`; the call panics only on an empty range, which
/// the precondition rules out.
#[verifier::external_body]
pub(crate) fn rng_range_u64(source: &mut rand::rngs::StdRng, low: u64, high: u64) -> (r: u64)
    requires
        low < high,
    ensures
        low <= r < high,
{
    rand::Rng::gen_range(source, low..high)
}

/// Relies on rand's `Rng::gen_range` over an `i64` half-open range: the result
/// is drawn from `low..high`; the call panics only on an empty range, which
/// the precondition rules out.
#[verifier::external_body]
pub(crate) fn rng_range_i64(source: &mut rand::rngs::StdRng, low: i64, high: i64) -> (r: i64)
    requires
        low < high,
    ensures
        low <= r < high,
{
    rand::Rng::gen_range(source, low..high)
}

/// Relies on rand's `Rng::gen_ratio`: true with probability `num/den`,
/// guaranteed true when `num == den` and false when `num == 0`; it panics when
/// `den == 0` or `num > den`, which the precondition rules out.
#[verifier::external_body]
pub(crate) fn rng_ratio(source: &mut rand::rngs::StdRng, num: u32, den: u32) -> (r: bool)
    requires
        0 < den,
        num <= den,
    ensures
        num == den ==> r,
        num == 0 ==> !r,
{
    rand::Rng::gen_ratio(source, num, den)
}

} // verus!
