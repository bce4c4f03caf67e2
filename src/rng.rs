//! Pseudo-random number generation.
use vstd::prelude::*;

verus! {

/// One step of Marsaglia's 32-bit xorshift (shifts 13, 17, 5).
pub open spec fn xorshift_step(x: u32) -> u32 {
    let a = x ^ ((x << 13u32) as u32);
    let b = a ^ (a >> 17u32);
    b ^ ((b << 5u32) as u32)
}

/// Pseudo-random number generator based on Marsaglia's xorshift, a kind of
/// linear feedback shift register.
pub struct Xorshift {
    state: u32,
}

impl Xorshift {
    /// The generator's current state; the next output is its successor.
    pub closed spec fn state(&self) -> u32 {
        self.state
    }

    /// A generator whose state is `seed`.
    pub fn new(seed: u32) -> (r: Self)
        ensures
            r.state() == seed,
    {
        Self { state: seed }
    }

    /// Advances the state by one xorshift step and returns the new state.
    pub fn next_u32(&mut self) -> (r: u32)
        ensures
            r == xorshift_step(old(self).state()),
            final(self).state() == r,
    {
        let mut x: u32 = self.state;
        x ^= x << 13u32;
        x ^= x >> 17u32;
        x ^= x << 5u32;
        self.state = x;
        x
    }
}

/// Zero is a fixed point of the step: a generator seeded with zero yields
/// only zeros.
pub proof fn lemma_zero_is_fixed()
    ensures
        xorshift_step(0) == 0,
{
    assert(xorshift_step(0) == 0) by (bit_vector);
}

/// A nonzero state never steps to zero, so a nonzero seed never falls into
/// the zero trap.
pub proof fn lemma_nonzero_stays_nonzero(x: u32)
    requires
        x != 0,
    ensures
        xorshift_step(x) != 0,
{
    assert(x != 0 ==> xorshift_step(x) != 0) by (bit_vector);
}

} // verus!
