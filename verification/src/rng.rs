//! The random draws of the automata, made with rand on a ChaCha8 generator.
use vstd::prelude::*;
use rand::RngExt;
use rand_chacha::ChaCha8Rng;

verus! {

/// The seeded generator the automata draw from.
#[verifier::external_type_specification]
#[verifier::external_body]
pub struct ExChaCha8Rng(ChaCha8Rng);

/// `RngExt::random_range` of rand on the range `low..high`: a value drawn
/// uniformly from that range. Which value comes out depends on the state of
/// the generator, so the contract says only that it lies in the range; rand
/// panics on an empty range, which `requires` leaves out.
#[verifier::external_body]
pub(crate) fn random_range(rng: &mut ChaCha8Rng, low: usize, high: usize) -> (value: usize)
    requires
        low < high,
    ensures
        low <= value < high,
{
    rng.random_range(low..high)
}

/// `RngExt::random::<u32>` of rand: a word drawn from the standard uniform
/// distribution over all `u32` values (the generator's next 32-bit output).
/// Every `u32` is a possible outcome, so nothing is promised of it.
#[verifier::external_body]
fn random_word(rng: &mut ChaCha8Rng) -> (word: u32) {
    rng.random::<u32>()
}

/// Two to the power 24: rand's standard `f32` sample in `[0, 1)` is a
/// numerator below this, divided by it.
pub const UNIT_SCALE: u32 = 0x0100_0000;

/// Draws the way rand's standard `f32` sample does: that sample is the top 24
/// bits of a uniform `u32` word, divided by `UNIT_SCALE`. The numerator is
/// returned, so the value drawn is `unit / UNIT_SCALE`, which lies in `[0, 1)`.
pub fn random_unit(rng: &mut ChaCha8Rng) -> (unit: u32)
    ensures
        unit < UNIT_SCALE,
{
    let word = random_word(rng);
    unit_from_word(word)
}

/// The numerator rand's standard `f32` sample takes from the uniform word
/// `word`: its top 24 bits.
pub fn unit_from_word(word: u32) -> (unit: u32)
    ensures
        unit == word / 256,
        unit < UNIT_SCALE,
{
    assert(word >> 8u32 == word / 256 && word >> 8u32 < 0x0100_0000u32) by (bit_vector);
    word >> 8
}

} // verus!
