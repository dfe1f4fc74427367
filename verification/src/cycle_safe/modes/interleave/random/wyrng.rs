use vstd::prelude::*;

use super::NumberGenerator;

verus! {

/// The first constant of the wyhash algorithm, which the generator adds to its state.
pub const WY_P0: u64 = 0xa076_1d64_78bd_642f;

/// The second constant of the wyhash algorithm, which the generator mixes into its output.
pub const WY_P1: u64 = 0xe703_7ed1_a0b4_28db;

/// The state after one step of the generator: the state plus the first constant, wrapping.
pub open spec fn spec_wyrng_state(seed: u64) -> u64 {
    ((seed as int + WY_P0 as int) % 0x1_0000_0000_0000_0000) as u64
}

/// The mixing of the wyhash algorithm: the exclusive-or of the high and low halves of the full
/// 128-bit product.
pub open spec fn spec_wymum(a: u64, b: u64) -> u64 {
    let r = ((a as int) * (b as int)) as u128;
    ((r >> 64u128) ^ r) as u64
}

/// The number that one step of the generator returns.
pub open spec fn spec_wyrng_output(seed: u64) -> u64 {
    let s = spec_wyrng_state(seed);
    spec_wymum(s ^ WY_P1, s)
}

/// Calls `wyhash::wyrng`, which advances `seed` by adding the first wyhash constant (wrapping)
/// and returns the wyhash mixing of the new seed, exclusive-or the second constant, with the new
/// seed.  This contract states exactly that formula, as the function's source shows it.
#[verifier::external_body]
fn wyrng_step(seed: &mut u64) -> (r: u64)
    ensures
        *final(seed) == spec_wyrng_state(*old(seed)),
        r == spec_wyrng_output(*old(seed)),
{
    wyhash::wyrng(seed)
}

/// Wrap the state of the generator so that our traits can be implemented on it.
pub struct RandomNumberGenerator(pub u64);

impl View for RandomNumberGenerator {
    type V = u64;

    open spec fn view(&self) -> u64 {
        self.0
    }
}

impl NumberGenerator for RandomNumberGenerator {
    open spec fn spec_default() -> u64 {
        0
    }

    open spec fn spec_rand_upto(v: u64, exclusive_end: u16) -> (u64, u16) {
        (spec_wyrng_state(v), ((spec_wyrng_output(v) as u16) % exclusive_end) as u16)
    }

    proof fn lemma_rand_upto_range(v: u64, exclusive_end: u16) {
    }

    fn default_state() -> (r: Self) {
        RandomNumberGenerator(0)
    }

    /// The output of the generator, truncated to 16 bits, modulo `exclusive_end`.
    fn rand_upto(&mut self, exclusive_end: u16) -> (r: u16) {
        let x = wyrng_step(&mut self.0);
        (x as u16) % exclusive_end
    }
}

} // verus!
