//! Deterministic pseudo-random numbers for sim logic: SplitMix64.
//!
//! Owned for the same reason as the hash: bit identical on every platform,
//! toolchain and version. Any seed is a good seed, because the output is a
//! one-to-one scramble of a simple counter, so distinct states never collapse
//! into one. One `u64` of state makes a fresh stream cost nothing to build.
//!
//! Every component's randomness derives from the world seed and its own path,
//! never from OS entropy or wall time; see [`crate::seed`].
use vstd::prelude::*;

verus! {

/// SplitMix64's state increment: the 64-bit odd approximation of the golden
/// ratio, chosen so that successive states are spread as evenly as possible.
/// Also used by [`crate::seed`] to spread one input before combining it with
/// another.
pub const GOLDEN_GAMMA: u64 = 0x9E37_79B9_7F4A_7C15;

pub const MIX_FIRST: u64 = 0xBF58_476D_1CE4_E5B9;

pub const MIX_SECOND: u64 = 0x94D0_49BB_1331_11EB;

/// SplitMix64 (Steele, Lea, and Flood, "Fast Splittable Pseudorandom Number
/// Generators", 2014).
#[derive(Debug)]
pub struct RandomSplitMix64 {
    pub state: u64,
}

/// The output that SplitMix64 gives for a state: shift, fold and multiply
/// twice, then fold once more.
pub open spec fn scramble(state: u64) -> u64 {
    let first = (state ^ (state >> 30)).wrapping_mul(MIX_FIRST);
    let second = (first ^ (first >> 27)).wrapping_mul(MIX_SECOND);
    second ^ (second >> 31)
}

/// The state that follows a state.
pub open spec fn next_state(state: u64) -> u64 {
    state.wrapping_add(GOLDEN_GAMMA)
}

/// A factor with an inverse modulo 2^64 maps no two numbers to one.
pub proof fn lemma_odd_factor_is_invertible(a: u64, b: u64, factor: u64, inverse: u64)
    requires
        factor * inverse % 0x1_0000_0000_0000_0000 == 1,
        a.wrapping_mul(factor) == b.wrapping_mul(factor),
    ensures
        a == b,
{
    lemma_undo_factor(a, factor, inverse);
    lemma_undo_factor(b, factor, inverse);
}

/// Multiplying by a factor and then by its inverse is doing nothing.
proof fn lemma_undo_factor(a: u64, factor: u64, inverse: u64)
    requires
        factor * inverse % 0x1_0000_0000_0000_0000 == 1,
    ensures
        (a.wrapping_mul(factor) * inverse) % 0x1_0000_0000_0000_0000 == a,
{
    let m: int = 0x1_0000_0000_0000_0000;
    let product = a as int * factor as int;
    assert(a.wrapping_mul(factor) == product % m);
    vstd::arithmetic::div_mod::lemma_mul_mod_noop_left(product, inverse as int, m);
    assert(product * inverse == a as int * (factor as int * inverse as int)) by (nonlinear_arith)
        requires
            product == a as int * factor as int,
    ;
    vstd::arithmetic::div_mod::lemma_mul_mod_noop_right(
        a as int,
        factor as int * inverse as int,
        m,
    );
    assert((a as int * 1) % m == a);
}

/// The generator's output is a one-to-one scramble of its state: distinct
/// states never give the same output, so no seed is a weak seed.
pub proof fn law_scramble_is_one_to_one(a: u64, b: u64)
    requires
        scramble(a) == scramble(b),
    ensures
        a == b,
{
    let a1 = (a ^ (a >> 30)).wrapping_mul(MIX_FIRST);
    let b1 = (b ^ (b >> 30)).wrapping_mul(MIX_FIRST);
    let a2 = (a1 ^ (a1 >> 27)).wrapping_mul(MIX_SECOND);
    let b2 = (b1 ^ (b1 >> 27)).wrapping_mul(MIX_SECOND);
    assert(a2 == b2) by (bit_vector)
        requires
            a2 ^ (a2 >> 31) == b2 ^ (b2 >> 31),
    ;
    lemma_odd_factor_is_invertible(
        a1 ^ (a1 >> 27),
        b1 ^ (b1 >> 27),
        MIX_SECOND,
        0x3196_42b2_d24d_8ec3,
    );
    assert(a1 == b1) by (bit_vector)
        requires
            a1 ^ (a1 >> 27) == b1 ^ (b1 >> 27),
    ;
    lemma_odd_factor_is_invertible(a ^ (a >> 30), b ^ (b >> 30), MIX_FIRST, 0x96de_1b17_3f11_9089);
    assert(a == b) by (bit_vector)
        requires
            a ^ (a >> 30) == b ^ (b >> 30),
    ;
}

/// Streams from different seeds differ from their first draw on.
pub proof fn law_different_seeds_draw_differently(a: u64, b: u64)
    requires
        a != b,
    ensures
        scramble(next_state(a)) != scramble(next_state(b)),
{
    if scramble(next_state(a)) == scramble(next_state(b)) {
        law_scramble_is_one_to_one(next_state(a), next_state(b));
    }
}

impl Clone for RandomSplitMix64 {
    fn clone(&self) -> (copy: Self)
        ensures
            copy == *self,
    {
        RandomSplitMix64 { state: self.state }
    }
}

impl RandomSplitMix64 {
    /// A stream from a seed.
    pub fn new(seed: u64) -> (r: Self)
        ensures
            r.state == seed,
    {
        RandomSplitMix64 { state: seed }
    }

    /// The next draw: the state moves on by the golden increment and the
    /// scramble of where it lands comes out.
    pub fn next_u64(&mut self) -> (draw: u64)
        ensures
            final(self).state == next_state(old(self).state),
            draw == scramble(next_state(old(self).state)),
    {
        self.state = self.state.wrapping_add(GOLDEN_GAMMA);
        let mut z: u64 = self.state;
        z = (z ^ (z >> 30)).wrapping_mul(MIX_FIRST);
        z = (z ^ (z >> 27)).wrapping_mul(MIX_SECOND);
        z ^ (z >> 31)
    }
}

} // verus!
