//! Deterministic pseudo-random number generation.
//!
//! The generator is a xoroshiro-family design: 128 bits of state held as two
//! 64-bit words, advanced with shift, rotate and xor operations only.  Every
//! operation has an exact bit-level specification, so two generators that
//! start from the same state provably produce the same stream of words.

use vstd::prelude::*;

verus! {

/// Fixed fallback seed word for the first half of the state.
pub const DEFAULT_S0: u64 = 0x2475136db02a2834;

/// Fixed fallback seed word for the second half of the state.
pub const DEFAULT_S1: u64 = 0x9417ed9540b8fe6e;

/// A pseudo-random generator with 128 bits of internal state, stored as two
/// `u64` words.  Freshly constructed generators always start from the same
/// fixed state; call `seed` to obtain a different reproducible stream.
#[derive(Clone, Copy, Debug)]
pub struct Rng {
    s0: u64,
    s1: u64,
}

impl View for Rng {
    type V = (u64, u64);

    closed spec fn view(&self) -> (u64, u64) {
        (self.s0, self.s1)
    }
}

/// The state that `seed(s0, s1)` establishes: the caller's words folded
/// additively (wrapping) onto the fixed default constants.
pub open spec fn seeded_state(s0: u64, s1: u64) -> (u64, u64) {
    (s0.wrapping_add(DEFAULT_S0), s1.wrapping_add(DEFAULT_S1))
}

/// Left rotation of a 64-bit word by 24 positions.
pub open spec fn spec_rotl24(x: u64) -> u64 {
    (x << 24) | (x >> 40)
}

/// Left rotation of a 64-bit word by 37 positions.
pub open spec fn spec_rotl37(x: u64) -> u64 {
    (x << 37) | (x >> 27)
}

/// The word that one `next` call returns from a given state.
pub open spec fn next_word(s: (u64, u64)) -> u64 {
    s.0.wrapping_add(s.1)
}

/// The successor state after one `next` call.
pub open spec fn next_state(s: (u64, u64)) -> (u64, u64) {
    let t = s.1 ^ s.0;
    ((spec_rotl24(s.0) ^ t) ^ (t << 16), spec_rotl37(t))
}

/// The bit pattern `uniform_bits` derives from a raw word: the top 52 random
/// bits are placed in the low 52 bits underneath the fixed prefix `0x3FF`,
/// which is the IEEE-754 double-precision pattern of a value in [1, 2).
pub open spec fn unit_interval_bits(w: u64) -> u64 {
    0x3FF0000000000000u64 | (w >> 12)
}

/// The first `n` words that a generator starting at state `s` emits.
pub open spec fn word_stream(s: (u64, u64), n: nat) -> Seq<u64>
    decreases n,
{
    if n == 0 {
        Seq::empty()
    } else {
        seq![next_word(s)] + word_stream(next_state(s), (n - 1) as nat)
    }
}

impl Rng {
    /// A new generator, always at the fixed default state.
    pub fn new() -> (r: Rng)
        ensures
            r@ == (DEFAULT_S0, DEFAULT_S1),
    {
        Rng { s0: DEFAULT_S0, s1: DEFAULT_S1 }
    }

    /// Reset the internal state deterministically from two caller words.
    pub fn seed(&mut self, s0: u64, s1: u64)
        ensures
            final(self)@ == seeded_state(s0, s1),
    {
        self.s0 = s0.wrapping_add(DEFAULT_S0);
        self.s1 = s1.wrapping_add(DEFAULT_S1);
    }

    /// Advance the state and return 64 pseudo-random bits.
    pub fn next(&mut self) -> (r: u64)
        ensures
            r == next_word(old(self)@),
            final(self)@ == next_state(old(self)@),
    {
        let s0 = self.s0;
        let s1 = self.s1;
        let result = s0.wrapping_add(s1);
        let t = s1 ^ s0;
        self.s0 = ((s0 << 24) | (s0 >> 40)) ^ t ^ (t << 16);
        self.s1 = (t << 37) | (t >> 27);
        result
    }

    /// Advance the state and return the bit pattern of an IEEE-754 double in
    /// [1, 2): exponent bits fixed at `0x3FF`, mantissa filled with the top
    /// 52 random bits.  A caller that subtracts the encoded value from 2.0
    /// gets a uniform draw in (0, 1]; the upper bound proved here rules out
    /// the pattern of 2.0 itself, so the draw can never be exactly zero.
    pub fn uniform_bits(&mut self) -> (r: u64)
        ensures
            r == unit_interval_bits(next_word(old(self)@)),
            final(self)@ == next_state(old(self)@),
            0x3FF0000000000000u64 <= r <= 0x3FFFFFFFFFFFFFFFu64,
    {
        let w = self.next();
        let r = 0x3FF0000000000000u64 | (w >> 12);
        proof {
            assert(0x3FF0000000000000u64 <= (0x3FF0000000000000u64 | (w >> 12))
                <= 0x3FFFFFFFFFFFFFFFu64) by (bit_vector);
        }
        r
    }
}

/// Determinism of the generator: two generators in equal states return the
/// same word, move to the same successor state, and hence emit identical
/// streams of any length.
pub proof fn lemma_rng_deterministic(a: (u64, u64), b: (u64, u64), n: nat)
    requires
        a == b,
    ensures
        next_word(a) == next_word(b),
        next_state(a) == next_state(b),
        word_stream(a, n) == word_stream(b, n),
{
}

} // verus!
