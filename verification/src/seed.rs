//! Seed derivation: turning the one world seed into the per-component and
//! per-step seeds that every deterministic random stream starts from.
//!
//! It uses the hash to fold variable-length names down to 64 bits, and the
//! generator's scrambler to combine two 64-bit values into one. Each
//! component's seed comes from its own identity, so that adding, removing or
//! reordering components shifts nobody else's random stream.
use vstd::prelude::*;
use vstd::string::*;

use crate::hash::hash_bytes;
use crate::ids::ComponentPath;
use crate::random::{GOLDEN_GAMMA, RandomSplitMix64};

verus! {

/// Two seeds combined into one.
pub open spec fn mixed(a: u64, b: u64) -> u64 {
    crate::random::scramble(crate::random::next_state(a ^ b.wrapping_mul(GOLDEN_GAMMA)))
}

/// The seed of a component at a path.
pub open spec fn component_seed(world_seed: u64, path: Seq<Seq<char>>) -> u64 {
    mixed(
        world_seed,
        crate::hash::hash_of(vstd::utf8::encode_utf8(crate::ids::path_text(path))),
    )
}

/// Mixing a fixed seed with two different ones gives two different seeds.
pub proof fn law_mixing_keeps_the_second_apart(a: u64, b: u64, c: u64)
    requires
        b != c,
    ensures
        mixed(a, b) != mixed(a, c),
{
    let x = b.wrapping_mul(GOLDEN_GAMMA);
    let y = c.wrapping_mul(GOLDEN_GAMMA);
    if x == y {
        crate::random::lemma_odd_factor_is_invertible(b, c, GOLDEN_GAMMA, 0xf1de_83e1_9937_733d);
    }
    assert(a ^ x != a ^ y) by (bit_vector)
        requires
            x != y,
    ;
    crate::random::law_different_seeds_draw_differently(a ^ x, a ^ y);
}

/// Mixing two different seeds with a fixed one gives two different seeds.
pub proof fn law_mixing_keeps_the_first_apart(a: u64, b: u64, c: u64)
    requires
        a != b,
    ensures
        mixed(a, c) != mixed(b, c),
{
    let z = c.wrapping_mul(GOLDEN_GAMMA);
    assert(a ^ z != b ^ z) by (bit_vector)
        requires
            a != b,
    ;
    crate::random::law_different_seeds_draw_differently(a ^ z, b ^ z);
}

/// A component steps from a different seed at every instant.
pub proof fn law_step_seeds_differ_by_instant(component_seed: u64, a: i64, b: i64)
    requires
        a != b,
    ensures
        mixed(component_seed, a as u64) != mixed(component_seed, b as u64),
{
    assert(a as u64 != b as u64) by (bit_vector)
        requires
            a != b,
    ;
    law_mixing_keeps_the_second_apart(component_seed, a as u64, b as u64);
}

/// Within a world, paths whose texts hash apart draw from different seeds:
/// two that are the same but for one byte of their texts do.
pub proof fn law_component_seeds_differ_by_path(
    world_seed: u64,
    a: Seq<Seq<char>>,
    b: Seq<Seq<char>>,
    position: int,
)
    requires
        ({
            let x = vstd::utf8::encode_utf8(crate::ids::path_text(a));
            let y = vstd::utf8::encode_utf8(crate::ids::path_text(b));
            &&& 0 <= position < x.len()
            &&& y.len() == x.len()
            &&& y[position] != x[position]
            &&& forall|i: int| 0 <= i < x.len() && i != position ==> #[trigger] y[i] == x[i]
        }),
    ensures
        component_seed(world_seed, a) != component_seed(world_seed, b),
{
    let x = vstd::utf8::encode_utf8(crate::ids::path_text(a));
    let y = vstd::utf8::encode_utf8(crate::ids::path_text(b));
    assert(y =~= x.update(position, y[position]));
    crate::hash::law_one_changed_byte_changes_the_hash(
        crate::hash::FNV_OFFSET_BASIS,
        x,
        position,
        y[position],
    );
    law_mixing_keeps_the_second_apart(
        world_seed,
        crate::hash::hash_of(x),
        crate::hash::hash_of(y),
    );
}

/// A seed is mixed out of two by drawing once from a stream that starts where
/// the first is folded with the second, spread by the golden increment.
pub proof fn law_mixing_is_one_draw(a: u64, b: u64)
    ensures
        ({
            let spread = ((b * 0x9E37_79B9_7F4A_7C15) % 0x1_0000_0000_0000_0000) as u64;
            let state = (((a ^ spread) + 0x9E37_79B9_7F4A_7C15) % 0x1_0000_0000_0000_0000) as u64;
            mixed(a, b) == crate::random::scramble(state)
        }),
{
    let spread = ((b * 0x9E37_79B9_7F4A_7C15) % 0x1_0000_0000_0000_0000) as u64;
    assert(spread == b.wrapping_mul(GOLDEN_GAMMA));
}

/// A component's seed is the world's mixed with the hash of its path's text.
pub proof fn law_what_a_component_seed_is(world_seed: u64, path: Seq<Seq<char>>)
    ensures
        component_seed(world_seed, path) == mixed(
            world_seed,
            crate::hash::hash_of(vstd::utf8::encode_utf8(crate::ids::path_text(path))),
        ),
{
}

/// One path draws from different seeds in worlds with different seeds.
pub proof fn law_component_seeds_differ_by_world_seed(a: u64, b: u64, path: Seq<Seq<char>>)
    requires
        a != b,
    ensures
        component_seed(a, path) != component_seed(b, path),
{
    law_mixing_keeps_the_first_apart(
        a,
        b,
        crate::hash::hash_of(vstd::utf8::encode_utf8(crate::ids::path_text(path))),
    );
}

/// Combines two seeds into one: spread `b` across all 64 bits, fold it into
/// `a`, and take one SplitMix64 scramble of the result.
pub fn mix_seeds(a: u64, b: u64) -> (seed: u64)
    ensures
        seed == mixed(a, b),
{
    RandomSplitMix64::new(a ^ b.wrapping_mul(GOLDEN_GAMMA)).next_u64()
}

/// The per-component seed, rooted at the component's place in the world.
pub fn derive_component_seed(world_seed: u64, path: &ComponentPath) -> (seed: u64)
    ensures
        seed == component_seed(world_seed, path@),
{
    let text = path.to_string();
    mix_seeds(world_seed, hash_bytes(text.as_str().as_bytes()))
}

/// The per-step seed: a component's stream at one instant.
pub fn derive_step_seed(component_seed: u64, now_nanos: i64) -> (seed: u64)
    ensures
        seed == mixed(component_seed, now_nanos as u64),
{
    mix_seeds(component_seed, now_nanos as u64)
}

} // verus!
