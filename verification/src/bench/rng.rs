//! SplitMix64: a deterministic stream for layouts.

use vstd::arithmetic::div_mod::{lemma_add_mod_noop, lemma_small_mod};
use vstd::prelude::*;

use crate::scalar::Scalar;

verus! {

/// The state one draw later.
pub open spec fn advanced(state: u64) -> u64 {
    state.wrapping_add(0x9E37_79B9_7F4A_7C15)
}

/// The number drawn from a state: two rounds of xor-shift and multiply, and a
/// last xor-shift.
pub open spec fn mixed(state: u64) -> u64 {
    let a = (state ^ (state >> 30u64)).wrapping_mul(0xBF58_476D_1CE4_E5B9);
    let b = (a ^ (a >> 27u64)).wrapping_mul(0x94D0_49BB_1331_11EB);
    b ^ (b >> 31u64)
}

/// A draw between 0 and 1, in steps of `2^-24`.
pub open spec fn fraction(state: u64) -> u32 {
    (mixed(state) >> 40u64) as u32
}

/// A draw below `n`.
pub open spec fn picked(state: u64, n: u32) -> u32 {
    (mixed(state) % (n as u64)) as u32
}

/// A generator; the field is its seed, and then its state.
#[derive(Clone, Copy, Debug, PartialEq, Eq, Structural)]
pub struct Rng(pub u64);

impl Rng {
    pub fn next_u64(&mut self) -> (r: u64)
        ensures
            final(self).0 == advanced(old(self).0),
            r == mixed(final(self).0),
    {
        self.0 = self.0.wrapping_add(0x9E37_79B9_7F4A_7C15);
        let mut z: u64 = self.0;
        z = (z ^ (z >> 30u64)).wrapping_mul(0xBF58_476D_1CE4_E5B9);
        z = (z ^ (z >> 27u64)).wrapping_mul(0x94D0_49BB_1331_11EB);
        z ^ (z >> 31u64)
    }

    /// The next draw between 0 and 1, as a whole number of `2^-24`.
    pub fn steps(&mut self) -> (n: u32)
        ensures
            final(self).0 == advanced(old(self).0),
            n == fraction(final(self).0),
            n < 0x100_0000,
    {
        let z: u64 = self.next_u64();
        assert(z >> 40u64 < 0x100_0000) by (bit_vector);
        (z >> 40u64) as u32
    }

    /// The next draw between 0 and 1, exact.
    pub fn unit(&mut self) -> (x: Scalar)
        ensures
            final(self).0 == advanced(old(self).0),
            x.denotes(fraction(final(self).0) as nat, 24),
    {
        let n: u32 = self.steps();
        Scalar::dyadic(n, 24)
    }

    /// The next draw below `n`.
    pub fn pick(&mut self, n: u32) -> (r: u32)
        requires
            n > 0,
        ensures
            final(self).0 == advanced(old(self).0),
            r == picked(final(self).0, n),
            r < n,
    {
        let z: u64 = self.next_u64();
        (z % (n as u64)) as u32
    }
}


/// The state after so many draws: the step of the stream is added for each,
/// around 64 bits.
#[verifier::opaque]
pub open spec fn state_after(state: u64, draws: nat) -> u64 {
    ((state + draws * 0x9E37_79B9_7F4A_7C15) % 0x1_0000_0000_0000_0000) as u64
}

/// Every draw takes one step along the stream.
pub proof fn lemma_draws_step_along_the_stream(state: u64, draws: nat)
    ensures
        state_after(state, 0) == state,
        advanced(state_after(state, draws)) == state_after(state, draws + 1),
{
    reveal(state_after);
    let m = 0x1_0000_0000_0000_0000int;
    let step = 0x9E37_79B9_7F4A_7C15int;
    lemma_small_mod(state as nat, m as nat);
    let s = state_after(state, draws);
    assert(draws * step + step == (draws + 1) * step) by (nonlinear_arith);
    let whole = state + draws * step;
    assert(whole >= 0) by (nonlinear_arith)
        requires
            whole == state + draws * step,
            step == 0x9E37_79B9_7F4A_7C15int,
            state >= 0,
            draws >= 0,
    ;
    assert(s == whole % m);
    lemma_add_mod_noop(whole, step, m);
    lemma_small_mod(step as nat, m as nat);
    assert((s + step) % m == (whole + step) % m);
    if s + step < m {
        lemma_small_mod((s + step) as nat, m as nat);
    } else {
        lemma_small_mod((s + step - m) as nat, m as nat);
        vstd::arithmetic::div_mod::lemma_mod_add_multiples_vanish(s + step - m, m);
    }
}

/// The top 24 bits of a number make a fraction, and its remainder picks.
pub proof fn lemma_draws_come_from_the_mixed_number(state: u64, n: u32)
    requires
        n > 0,
    ensures
        fraction(state) == mixed(state) / 0x100_0000_0000,
        picked(state, n) as int == mixed(state) as int % n as int,
        picked(state, n) < n,
{
    let z = mixed(state);
    assert(z >> 40u64 == z / 0x100_0000_0000u64) by (bit_vector);
    assert(z >> 40u64 < 0x100_0000u64) by (bit_vector);
}

/// A word is folded onto itself and multiplied; the product keeps its lowest 64
/// bits.
pub open spec fn stirred(from: u64, fold: u64, factor: u64, to: u64) -> bool {
    to == ((from ^ (from / fold)) * factor) % 0x1_0000_0000_0000_0000
}

/// The mixed number comes of folding and multiplying a word twice, and folding it
/// once more.
pub proof fn lemma_mixing_folds_and_multiplies(state: u64)
    ensures
        exists|a: u64, b: u64|
            {
                &&& #[trigger] stirred(state, 0x4000_0000, 0xBF58_476D_1CE4_E5B9, a)
                &&& #[trigger] stirred(a, 0x800_0000, 0x94D0_49BB_1331_11EB, b)
                &&& mixed(state) == b ^ (b / 0x8000_0000)
            },
{
    let a = (state ^ (state >> 30u64)).wrapping_mul(0xBF58_476D_1CE4_E5B9);
    let b = (a ^ (a >> 27u64)).wrapping_mul(0x94D0_49BB_1331_11EB);
    assert(state >> 30u64 == state / 0x4000_0000u64) by (bit_vector);
    assert(a >> 27u64 == a / 0x800_0000u64) by (bit_vector);
    assert(b >> 31u64 == b / 0x8000_0000u64) by (bit_vector);
    assert(stirred(state, 0x4000_0000, 0xBF58_476D_1CE4_E5B9, a));
    assert(stirred(a, 0x800_0000, 0x94D0_49BB_1331_11EB, b));
}

} // verus!
