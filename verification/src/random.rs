//! A small pseudo-random generator.

use vstd::prelude::*;

verus! {

/// The state that a generator starts in.
pub const SEED: u32 = 0x9e3779b9;

/// One step of the 32-bit xorshift generator with shifts 13, 17 and 5.
pub open spec fn xorshift(x: u32) -> u32 {
    let a = x ^ (x << 13);
    let b = a ^ (a >> 17);
    b ^ (b << 5)
}

/// A xorshift generator.
#[derive(Debug, Clone, Copy, PartialEq, Eq)]
pub struct Xorshift {
    pub state: u32,
}

impl Xorshift {
    /// A generator in its starting state.
    pub fn new() -> (res: Self)
        ensures
            res.state == SEED,
            res.state == 0x9e3779b9,
    {
        Xorshift { state: SEED }
    }

    /// Steps on and returns the upper 24 bits of the state: the numerator of a
    /// fraction over 2^24, which is then at least 0 and less than 1.
    pub fn rand(&mut self) -> (res: u32)
        ensures
            final(self).state == xorshift(old(self).state),
            res == xorshift(old(self).state) >> 8,
            res == final(self).state >> 8,
            ({
                let a = old(self).state ^ (old(self).state << 13);
                let b = a ^ (a >> 17);
                final(self).state == b ^ (b << 5)
            }),
            res < 0x100_0000,
    {
        let mut x: u32 = self.state;
        x = x ^ (x << 13);
        x = x ^ (x >> 17);
        x = x ^ (x << 5);
        self.state = x;
        assert(x >> 8 < 0x100_0000) by (bit_vector);
        x >> 8
    }
}

/// The state never becomes 0, where the generator would be stuck, unless it was
/// 0 before.
pub proof fn lemma_never_stuck(x: u32)
    requires
        x != 0,
    ensures
        xorshift(x) != 0,
{
    assert(x != 0 ==> (x ^ (x << 13)) != 0) by (bit_vector);
    let a = x ^ (x << 13);
    assert(a != 0 ==> (a ^ (a >> 17)) != 0) by (bit_vector);
    let b = a ^ (a >> 17);
    assert(b != 0 ==> (b ^ (b << 5)) != 0) by (bit_vector);
}

/// A step loses nothing: different states lead to different states.
pub proof fn lemma_step_is_injective(x: u32, y: u32)
    requires
        xorshift(x) == xorshift(y),
    ensures
        x == y,
{
    let a = x ^ (x << 13);
    let b = a ^ (a >> 17);
    let c = y ^ (y << 13);
    let d = c ^ (c >> 17);
    assert((b ^ (b << 5)) == (d ^ (d << 5)) ==> b == d) by (bit_vector);
    assert((a ^ (a >> 17)) == (c ^ (c >> 17)) ==> a == c) by (bit_vector);
    assert((x ^ (x << 13)) == (y ^ (y << 13)) ==> x == y) by (bit_vector);
}

/// A step is linear: it can be taken bit by bit.
pub proof fn lemma_steps_are_linear(x: u32, y: u32)
    ensures
        xorshift(x ^ y) == xorshift(x) ^ xorshift(y),
{
    assert(((x ^ y) ^ ((x ^ y) << 13)) == (x ^ (x << 13)) ^ (y ^ (y << 13))) by (bit_vector);
    let a = x ^ (x << 13);
    let c = y ^ (y << 13);
    assert(((a ^ c) ^ ((a ^ c) >> 17)) == (a ^ (a >> 17)) ^ (c ^ (c >> 17))) by (bit_vector);
    let b = a ^ (a >> 17);
    let d = c ^ (c >> 17);
    assert(((b ^ d) ^ ((b ^ d) << 5)) == (b ^ (b << 5)) ^ (d ^ (d << 5))) by (bit_vector);
}

} // verus!
