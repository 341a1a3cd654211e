use vstd::prelude::*;

verus! {

/// The multiplier of the hash mixing step.
pub const HASH_MUL: u64 = 6364136223846793005;

/// One multiply-and-add mixing step of the hash: `h * HASH_MUL + b`, wrapping.
pub open spec fn mix_step(h: u64, b: u64) -> u64 {
    vstd::wrapping::u64_specs::wrapping_add(vstd::wrapping::u64_specs::wrapping_mul(h, HASH_MUL), b)
}

/// The final scrambling of the hash: `h ^ (h >> 33)`.
pub open spec fn finish(h: u64) -> u64 {
    h ^ (h >> 33u64)
}

/// The hash of a pair of numbers.
pub open spec fn hash2_spec(a: u64, b: u64) -> u64 {
    finish(mix_step(a, b))
}

/// The hash of a cell position under a seed.
pub open spec fn hash3_spec(x: u64, y: u64, z: u64, seed: u64) -> u64 {
    finish(mix_step(mix_step(mix_step(seed, x), y), z))
}

/// Deterministic pseudo-random hash of a pair: one mixing step of `a` with `b`,
/// then scrambled.
pub fn hash2(a: u64, b: u64) -> (r: u64)
    ensures
        r == hash2_spec(a, b),
{
    let h = a.wrapping_mul(HASH_MUL).wrapping_add(b);
    h ^ (h >> 33)
}

/// Deterministic pseudo-random hash of a cell position under a seed.
pub fn hash3(x: usize, y: usize, z: usize, seed: u64) -> (r: u64)
    ensures
        r == hash3_spec(x as u64, y as u64, z as u64, seed),
{
    let mut h = seed;
    h = h.wrapping_mul(HASH_MUL).wrapping_add(x as u64);
    h = h.wrapping_mul(HASH_MUL).wrapping_add(y as u64);
    h = h.wrapping_mul(HASH_MUL).wrapping_add(z as u64);
    h ^ (h >> 33)
}

} // verus!
