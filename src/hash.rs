//! Deterministic integer mixing functions used as stateless randomness.

use vstd::prelude::*;

verus! {

/// Multiplier applied to the first hash input.
pub const MIX_A: u64 = 2654435761;

/// Multiplier applied to the second hash input.
pub const MIX_B: u64 = 2246822519;

/// The xorshift finaliser shared by the hashes: shifts by 13 left, 7 right, 17 left.
pub open spec fn xorshift_spec(s: u64) -> u64 {
    let s1 = s ^ (s << 13u64);
    let s2 = s1 ^ (s1 >> 7u64);
    s2 ^ (s2 << 17u64)
}

/// Value of `hash2(a, b)`.
pub open spec fn hash2_spec(a: u64, b: u64) -> u64 {
    xorshift_spec(a.wrapping_mul(MIX_A).wrapping_add(b.wrapping_mul(MIX_B)))
}

/// Value of `hash3(a, b, c)`.
pub open spec fn hash3_spec(a: u64, b: u64, c: u64) -> u64 {
    xorshift_spec(a.wrapping_mul(MIX_A).wrapping_add(b.wrapping_mul(MIX_B)).wrapping_add(c))
}

/// The splitmix64 finaliser, before its low bits are dropped.
pub open spec fn splitmix_spec(seed: u64) -> u64 {
    let x0 = seed.wrapping_mul(0x9e3779b97f4a7c15u64);
    let x1 = x0 ^ (x0 >> 30u64);
    let x2 = x1.wrapping_mul(0xbf58476d1ce4e5b9u64);
    let x3 = x2 ^ (x2 >> 27u64);
    let x4 = x3.wrapping_mul(0x94d049bb133111ebu64);
    x4 ^ (x4 >> 31u64)
}

/// Number of distinct values `unit_bits` can take: a uniform draw is
/// `unit_bits(seed) / UNIT_SCALE`, a fraction in `[0, 1)`.
pub const UNIT_SCALE: u64 = 0x20_0000_0000_0000;

fn xorshift(s: u64) -> (r: u64)
    ensures
        r == xorshift_spec(s),
{
    let mut seed = s;
    seed = seed ^ (seed << 13u64);
    seed = seed ^ (seed >> 7u64);
    seed = seed ^ (seed << 17u64);
    seed
}

/// Fast two-value hash: multiply-add mixing followed by xorshift.
pub fn hash2(a: u64, b: u64) -> (r: u64)
    ensures
        r == hash2_spec(a, b),
{
    xorshift(a.wrapping_mul(MIX_A).wrapping_add(b.wrapping_mul(MIX_B)))
}

/// Fast three-value hash: multiply-add mixing followed by xorshift.
pub fn hash3(a: u64, b: u64, c: u64) -> (r: u64)
    ensures
        r == hash3_spec(a, b, c),
{
    xorshift(a.wrapping_mul(MIX_A).wrapping_add(b.wrapping_mul(MIX_B)).wrapping_add(c))
}

/// The 53 high bits of splitmix64 of `seed`: a deterministic draw that is
/// read as the fraction `unit_bits(seed) / UNIT_SCALE`.
pub fn unit_bits(seed: u64) -> (r: u64)
    ensures
        r == splitmix_spec(seed) >> 11u64,
        r < UNIT_SCALE,
{
    let mut x = seed.wrapping_mul(0x9e3779b97f4a7c15u64);
    x = x ^ (x >> 30u64);
    x = x.wrapping_mul(0xbf58476d1ce4e5b9u64);
    x = x ^ (x >> 27u64);
    x = x.wrapping_mul(0x94d049bb133111ebu64);
    x = x ^ (x >> 31u64);
    let r = x >> 11u64;
    assert(x >> 11u64 < 0x20_0000_0000_0000u64) by (bit_vector);
    r
}

} // verus!
