//! A xorshift pseudo-random generator with caller-owned state.

use vstd::prelude::*;

verus! {

/// One xorshift round over 64 bits.
pub open spec fn xorshift_step(x: u64) -> u64 {
    let a = x ^ (x << 13);
    let b = a ^ (a >> 17);
    b ^ (b << 5)
}

/// A pseudo-random generator; the caller supplies the seed, which should
/// not be zero (zero is a fixed point of the step).
pub struct XorShift {
    state: u64,
}

impl XorShift {
    /// The current state.
    pub closed spec fn view(self) -> u64 {
        self.state
    }

    /// A generator starting from `seed`.
    pub fn new(seed: u64) -> (r: XorShift)
        ensures
            r@ == seed,
    {
        XorShift { state: seed }
    }

    /// The next value: one xorshift round, which also becomes the new
    /// state.
    pub fn rand(&mut self) -> (r: u64)
        ensures
            r == xorshift_step(old(self)@),
            final(self)@ == r,
    {
        let mut x = self.state;
        x = x ^ (x << 13);
        x = x ^ (x >> 17);
        x = x ^ (x << 5);
        self.state = x;
        x
    }
}

} // verus!
