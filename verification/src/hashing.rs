//! The fixed 64-bit avalanche hash and the routing of keys to shards.
//!
//! Keys are mixed with the classic 64-bit finalizer (xor-shift, multiply,
//! xor-shift, multiply, xor-shift). The mix is a pure function of the key —
//! no per-process seed — so shard routing is deterministic and reproducible.
//! A shard is selected from the *high* bits of the hash; the slot inside a
//! shard is later taken from the low bits, so the two choices do not reuse
//! the same bits of the hash.

use vstd::prelude::*;

verus! {

/// First multiplier of the avalanche finalizer.
pub const MIX_MUL_A: u64 = 0xff51_afd7_ed55_8ccd;

/// Second multiplier of the avalanche finalizer.
pub const MIX_MUL_B: u64 = 0xc4ce_b9fe_1a85_ec53;

/// The hash of a key: the 64-bit avalanche finalizer, a pure function of `k`.
pub open spec fn spec_mix64(k: u64) -> u64 {
    let a = k ^ (k >> 33);
    let b = vstd::wrapping::u64_specs::wrapping_mul(a, MIX_MUL_A);
    let c = b ^ (b >> 33);
    let d = vstd::wrapping::u64_specs::wrapping_mul(c, MIX_MUL_B);
    d ^ (d >> 33)
}

/// Computes the hash of a key.
pub fn mix64(k: u64) -> (r: u64)
    ensures
        r == spec_mix64(k),
{
    let a = k ^ (k >> 33);
    let b = a.wrapping_mul(MIX_MUL_A);
    let c = b ^ (b >> 33);
    let d = c.wrapping_mul(MIX_MUL_B);
    d ^ (d >> 33)
}

/// The shard a key routes to, among `1 << bits` shards: the high `bits` bits
/// of the key's hash.
pub open spec fn spec_shard_index(k: u64, bits: u32) -> int {
    if bits == 0 {
        0
    } else {
        (spec_mix64(k) >> ((64 - bits) as u64)) as int
    }
}

/// The high `b` bits of a 64-bit word are below `1 << b`.
proof fn lemma_shift_high_bits(h: u64, b: u32)
    by (bit_vector)
    requires
        1 <= b <= 31,
    ensures
        (h >> ((64 - b) as u64)) < (1u64 << (b as u64)),
{
}

/// A small power of two is the same whether computed on 64 bits or on `usize`.
proof fn lemma_pow2_usize(b: u32)
    by (bit_vector)
    requires
        b <= 31,
    ensures
        (1u64 << (b as u64)) as usize == 1usize << b,
        1usize << b >= 1,
        (1u64 << (b as u64)) <= 0x8000_0000u64,
{
}

/// The number of shards selected by `bits`: `1 << bits`.
pub open spec fn spec_shard_count(bits: u32) -> int {
    (1u64 << (bits as u64)) as int
}

/// Routing stays inside the shard array.
pub proof fn lemma_shard_index_in_range(k: u64, bits: u32)
    requires
        bits <= 31,
    ensures
        0 <= spec_shard_index(k, bits) < spec_shard_count(bits),
        spec_shard_count(bits) >= 1,
{
    lemma_pow2_usize(bits);
    if bits > 0 {
        lemma_shift_high_bits(spec_mix64(k), bits);
    } else {
        assert(1u64 << 0u64 == 1u64) by (bit_vector);
    }
}

/// Computes the shard a key routes to, among `1 << bits` shards.
pub fn shard_index(k: u64, bits: u32) -> (r: usize)
    requires
        bits <= 31,
    ensures
        r == spec_shard_index(k, bits),
{
    let h = mix64(k);
    if bits == 0 {
        0
    } else {
        proof {
            lemma_shift_high_bits(h, bits);
            lemma_pow2_usize(bits);
        }
        (h >> (64 - bits)) as usize
    }
}

/// Computes `1 << bits` as a shard count.
pub fn shard_count_of_bits(bits: u32) -> (r: usize)
    requires
        bits <= 31,
    ensures
        r == spec_shard_count(bits),
        r >= 1,
{
    proof {
        lemma_pow2_usize(bits);
    }
    (1u64 << bits) as usize
}

} // verus!
