use vstd::prelude::*;

verus! {

/// Multiplier of the xorshift* output function.
pub const RNG_MULTIPLIER: u64 = 0x2545F4914F6CDD1D;

/// One xorshift step on the 64-bit state.
pub open spec fn xorshift(s: u64) -> u64 {
    let a = s ^ (s >> 12u64);
    let b = a ^ (a << 25u64);
    b ^ (b >> 27u64)
}

/// The 32-bit output drawn from a state that was just advanced.
pub open spec fn xorshift_output(s: u64) -> u32 {
    (s.wrapping_mul(RNG_MULTIPLIER) >> 32u64) as u32
}

/// The sampler's deterministic xorshift* generator: a seed fixes the whole
/// sequence of draws.
#[derive(Clone, Copy, Debug, PartialEq, Eq, Structural)]
pub struct Rng {
    pub state: u64,
}

impl Rng {
    pub fn new(seed: u64) -> (r: Rng)
        ensures
            r.state == seed,
    {
        Rng { state: seed }
    }

    /// Advances the state and returns the upper half of the scrambled state.
    pub fn random_u32(&mut self) -> (r: u32)
        ensures
            final(self).state == xorshift(old(self).state),
            r == xorshift_output(final(self).state),
    {
        let s = self.state;
        let a = s ^ (s >> 12u64);
        let b = a ^ (a << 25u64);
        self.state = b ^ (b >> 27u64);
        (self.state.wrapping_mul(RNG_MULTIPLIER) >> 32u64) as u32
    }

    /// A draw reduced to 24 bits, the precision of an `f32` in `[0, 1)`
    /// once divided by `2^24`.
    pub fn random_u24(&mut self) -> (r: u32)
        ensures
            final(self).state == xorshift(old(self).state),
            r == xorshift_output(final(self).state) >> 8u32,
            r < 0x100_0000,
    {
        let x = self.random_u32();
        assert(x >> 8u32 < 0x100_0000) by (bit_vector);
        x >> 8u32
    }
}

} // verus!
