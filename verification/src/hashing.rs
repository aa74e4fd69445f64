//! The keyed hash function and the displacement formula.
//!
//! `hash` maps a key and a 64-bit seed to a triple `(g, f1, f2)` of indices,
//! each below `MAX_SIZE`: `g` selects a bucket and `f1`/`f2` feed the
//! displacement formula `d2 + f1 * d1 + f2`, whose value modulo the entry
//! count is the final slot.  Both functions are deterministic per seed, and
//! both are pinned exactly by the spec functions below: any table that was
//! built with them can be read back only with them.

use vstd::prelude::*;

verus! {

/// Width in bits of each of the three index windows cut from the digest.
pub const LOG_MAX_SIZE: u64 = 21;

/// Exclusive upper bound of `g`, `f1` and `f2`: 2^21.
pub const MAX_SIZE: u64 = 0x200000;

/// Low-bits mask that cuts one window out of the digest: 2^21 - 1.
pub const MASK: u64 = 0x1fffff;

/// Basis the seed is folded into before any byte is hashed.
pub const SEED_BASIS: u64 = 0xcbf2_9ce4_8422_2325;

/// Multiplier applied after each byte.
pub const STEP_PRIME: u64 = 0x0000_0100_0000_01b3;

/// First multiplier of the final avalanche.
pub const MIX_M1: u64 = 0xff51_afd7_ed55_8ccd;

/// Second multiplier of the final avalanche.
pub const MIX_M2: u64 = 0xc4ce_b9fe_1a85_ec53;

/// One step of the digest: fold one byte in, then multiply (wrapping).
pub open spec fn digest_step(h: u64, b: u8) -> u64 {
    vstd::wrapping::u64_specs::wrapping_mul(h ^ (b as u64), STEP_PRIME)
}

/// Digest of the first `n` bytes of `bytes`, seeded with `seed`.
pub open spec fn digest_prefix(bytes: Seq<u8>, seed: u64, n: int) -> u64
    decreases n,
{
    if n <= 0 {
        seed ^ SEED_BASIS
    } else {
        digest_step(digest_prefix(bytes, seed, n - 1), bytes[n - 1])
    }
}

/// Final avalanche, spreading every input bit over the whole word.
pub open spec fn mix64(h: u64) -> u64 {
    let a = vstd::wrapping::u64_specs::wrapping_mul(h ^ (h >> 33u64), MIX_M1);
    let b = vstd::wrapping::u64_specs::wrapping_mul(a ^ (a >> 29u64), MIX_M2);
    b ^ (b >> 32u64)
}

/// The full 64-bit digest of a byte sequence under a seed.
pub open spec fn digest_bytes(bytes: Seq<u8>, seed: u64) -> u64 {
    mix64(digest_prefix(bytes, seed, bytes.len() as int))
}

/// The digest of a key, taken over its UTF-8 byte representation.
pub open spec fn digest_chars(k: Seq<char>, seed: u64) -> u64 {
    digest_bytes(vstd::utf8::encode_utf8(k), seed)
}

/// The hash triple `(g, f1, f2)`: three 21-bit windows of the digest.
pub open spec fn spec_hash(k: Seq<char>, seed: u64) -> (u64, u64, u64) {
    let h = digest_chars(k, seed);
    (h & MASK, (h >> LOG_MAX_SIZE) & MASK, (h >> (2 * LOG_MAX_SIZE)) & MASK)
}

/// The displacement formula, over unbounded integers.
pub open spec fn spec_displace(f1: u64, f2: u64, d1: u64, d2: u64) -> int {
    d2 + f1 * d1 + f2
}

proof fn lemma_mask_bound(x: u64)
    ensures
        x & MASK < MAX_SIZE,
{
    assert(x & 0x1fffffu64 < 0x200000u64) by (bit_vector);
}

/// Computes the hash triple `(g, f1, f2)` of `s` under the seed `key`.
pub fn hash(s: &str, key: u64) -> (r: (u64, u64, u64))
    ensures
        r == spec_hash(s@, key),
        r.0 < MAX_SIZE,
        r.1 < MAX_SIZE,
        r.2 < MAX_SIZE,
{
    let bytes: &[u8] = s.as_bytes();
    let n: usize = bytes.len();
    let mut h: u64 = key ^ SEED_BASIS;
    let mut i: usize = 0;
    while i < n
        invariant
            n == bytes@.len(),
            i <= n,
            h == digest_prefix(bytes@, key, i as int),
        decreases n - i,
    {
        h = (h ^ (bytes[i] as u64)).wrapping_mul(STEP_PRIME);
        i = i + 1;
    }
    h = (h ^ (h >> 33u64)).wrapping_mul(MIX_M1);
    h = (h ^ (h >> 29u64)).wrapping_mul(MIX_M2);
    h = h ^ (h >> 32u64);
    proof {
        assert(h == digest_bytes(bytes@, key));
        assert(bytes@ == vstd::utf8::encode_utf8(s@));
        lemma_mask_bound(h);
        lemma_mask_bound(h >> LOG_MAX_SIZE);
        lemma_mask_bound(h >> (2 * LOG_MAX_SIZE));
    }
    (h & MASK, (h >> LOG_MAX_SIZE) & MASK, (h >> (2 * LOG_MAX_SIZE)) & MASK)
}

/// Evaluates the displacement formula `d2 + f1 * d1 + f2` exactly.
pub fn displace(f1: u64, f2: u64, d1: u32, d2: u32) -> (r: u64)
    requires
        f1 < MAX_SIZE,
        f2 < MAX_SIZE,
    ensures
        r == spec_displace(f1, f2, d1 as u64, d2 as u64),
{
    proof {
        vstd::arithmetic::mul::lemma_mul_upper_bound(
            f1 as int,
            MASK as int,
            d1 as int,
            u32::MAX as int,
        );
    }
    d2 as u64 + f1 * (d1 as u64) + f2
}

/// The slot a key falls on, given the seed, the displacement table and the
/// number of slots: the bucket `g % disps.len()` supplies `(d1, d2)`, and the
/// slot is the displacement value modulo `nslots`.
pub open spec fn spec_slot(seed: u64, disps: Seq<(u32, u32)>, nslots: int, k: Seq<char>) -> int
    recommends
        disps.len() > 0,
        nslots > 0,
{
    let t = spec_hash(k, seed);
    let d = disps[(t.0 as int) % (disps.len() as int)];
    spec_displace(t.1, t.2, d.0 as u64, d.1 as u64) % nslots
}

/// Computes the slot of `k`, exactly as `spec_slot` states it.
pub fn slot_for(seed: u64, disps: &Vec<(u32, u32)>, nslots: usize, k: &str) -> (r: usize)
    requires
        disps@.len() > 0,
        nslots > 0,
    ensures
        r == spec_slot(seed, disps@, nslots as int, k@),
        r < nslots,
{
    let t = hash(k, seed);
    let gi: usize = (t.0 % (disps.len() as u64)) as usize;
    let d = disps[gi];
    let dv = displace(t.1, t.2, d.0, d.1);
    (dv % (nslots as u64)) as usize
}

} // verus!
