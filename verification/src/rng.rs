//! The random number generator of the sandbox and the few draws the rules make.
//!
//! The generator is `rand_pcg::Pcg64`; every draw goes through one of the
//! trusted functions below, whose contracts say only what holds of every
//! outcome (the range a value falls in, or that a shuffle permutes).

use vstd::prelude::*;

verus! {

/// `rand_pcg::Pcg64` (an alias of `Lcg128Xsl64`), opaque to the proofs.
#[verifier::external_type_specification]
#[verifier::external_body]
pub struct ExPcg64(rand_pcg::Lcg128Xsl64);

/// Builds a generator with `rand_pcg::Lcg128Xsl64::new(state, stream)`.
/// Nothing is stated of the generator's internal state.
#[verifier::external_body]
pub(crate) fn new_rng(state: u128, stream: u128) -> (r: rand_pcg::Lcg128Xsl64) {
    rand_pcg::Lcg128Xsl64::new(state, stream)
}

/// `rand::Rng::gen_range(low..high)` on `i8`: a value in `low..high`.
/// `gen_range` panics on an empty range, which `requires` leaves out.
#[verifier::external_body]
pub(crate) fn gen_range_i8(rng: &mut rand_pcg::Lcg128Xsl64, low: i8, high: i8) -> (r: i8)
    requires
        low < high,
    ensures
        low <= r < high,
{
    rand::Rng::gen_range(rng, low..high)
}

/// `rand::Rng::gen_range(low..high)` on `i32`: a value in `low..high`.
/// `gen_range` panics on an empty range, which `requires` leaves out.
#[verifier::external_body]
pub(crate) fn gen_range_i32(rng: &mut rand_pcg::Lcg128Xsl64, low: i32, high: i32) -> (r: i32)
    requires
        low < high,
    ensures
        low <= r < high,
{
    rand::Rng::gen_range(rng, low..high)
}

/// `rand::Rng::gen_range(low..high)` on `isize`: a value in `low..high`.
/// `gen_range` panics on an empty range, which `requires` leaves out.
#[verifier::external_body]
pub(crate) fn gen_range_isize(rng: &mut rand_pcg::Lcg128Xsl64, low: isize, high: isize) -> (r: isize)
    requires
        low < high,
    ensures
        low <= r < high,
{
    rand::Rng::gen_range(rng, low..high)
}

/// `rand::Rng::gen_ratio(numerator, denominator)`: `true` with probability
/// `numerator / denominator`. Of a single outcome the source guarantees only
/// the two extremes: always `true` when the two are equal, always `false`
/// when the numerator is 0. It panics when `denominator == 0` or
/// `numerator > denominator`, which `requires` leaves out.
#[verifier::external_body]
pub(crate) fn gen_ratio(rng: &mut rand_pcg::Lcg128Xsl64, numerator: u32, denominator: u32) -> (b: bool)
    requires
        0 < denominator,
        numerator <= denominator,
    ensures
        numerator == denominator ==> b,
        numerator == 0 ==> !b,
{
    rand::Rng::gen_ratio(rng, numerator, denominator)
}

/// `rand::Rng::gen::<u64>()`: a uniformly drawn `u64`. Any value can come
/// back, so nothing is stated of it.
#[verifier::external_body]
pub(crate) fn gen_u64(rng: &mut rand_pcg::Lcg128Xsl64) -> (r: u64) {
    rand::Rng::gen::<u64>(rng)
}

/// `rand::seq::SliceRandom::shuffle` on an array of four: a Fisher-Yates
/// shuffle, so afterwards the array holds the same items, in an order that
/// the generator chose.
#[verifier::external_body]
pub(crate) fn shuffle_four<T>(rng: &mut rand_pcg::Lcg128Xsl64, items: &mut [T; 4])
    ensures
        final(items)@.to_multiset() == old(items)@.to_multiset(),
{
    rand::seq::SliceRandom::shuffle(&mut items[..], rng)
}

} // verus!
