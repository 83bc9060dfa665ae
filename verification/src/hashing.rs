//! Hash primitives shared by every filter: the seeded key mixer, the
//! fingerprint of a hash, left rotation and the multiply-shift reduction.

use crate::murmur3::{
    lemma_mix64_unmix64, lemma_mix64_zero, lemma_unmix64_mix64, mix64, mix64_spec, unmix64_spec,
};
use vstd::prelude::*;

verus! {

/// The hash of `key` under `seed`: the finalization mix of their sum modulo 2^64.
pub open spec fn mix_spec(key: u64, seed: u64) -> u64 {
    mix64_spec(key.wrapping_add(seed))
}

/// The key whose hash under `seed` is `hash`.
pub open spec fn unmix_spec(hash: u64, seed: u64) -> u64 {
    unmix64_spec(hash).wrapping_sub(seed)
}

/// Some key of `keys` has the hash `hash` under `seed`.
pub open spec fn hashes_to(keys: Seq<u64>, seed: u64, hash: u64) -> bool {
    exists|i: int| 0 <= i < keys.len() && mix_spec(#[trigger] keys[i], seed) == hash
}

/// Applies a finalization mix to a seeded key, resulting in an avalanched hash.
pub fn mix(key: u64, seed: u64) -> (r: u64)
    ensures
        r == mix_spec(key, seed),
{
    mix64(key.wrapping_add(seed))
}

/// The 64-bit value whose low bits are stored for a hash.
pub open spec fn fingerprint_spec(hash: u64) -> u64 {
    hash ^ (hash >> 32)
}

/// Folds the high half of `hash` onto its low half.
pub fn fingerprint(hash: u64) -> (r: u64)
    ensures
        r == fingerprint_spec(hash),
{
    hash ^ (hash >> 32)
}

/// `n` rotated left by `c` bits, for a count `c` that is taken modulo 64.
pub open spec fn rotl64_spec(n: u64, c: u32) -> u64 {
    (n << (c & 63)) | (n >> ((64 - (c & 63)) as u32 & 63))
}

/// Rotates `n` left by `c` bits.
pub fn rotl64(n: u64, c: u32) -> (r: u64)
    ensures
        r == rotl64_spec(n, c),
{
    let left: u32 = c & 63;
    assert(left <= 63 && (64 - left) as u32 & 63 <= 63) by (bit_vector)
        requires
            left == c & 63,
    ;
    let right: u32 = (64 - left) & 63;
    (n << left) | (n >> right)
}

/// The multiply-shift reduction of a 32-bit `hash` onto `[0, n)`.
pub open spec fn reduce_spec(hash: u32, n: int) -> int {
    (hash as int * n) / 0x1_0000_0000
}

/// The reduction lands in `[0, n)`.
pub proof fn lemma_reduce_bound(hash: u32, n: int)
    requires
        0 < n,
    ensures
        0 <= reduce_spec(hash, n) < n,
{
    assert(0 <= (hash as int * n) / 0x1_0000_0000 < n) by (nonlinear_arith)
        requires
            0 <= hash < 0x1_0000_0000,
            0 < n,
    ;
}

/// Maps a 32-bit `hash` onto `[0, n)` without a division.
pub fn reduce(hash: u32, n: usize) -> (r: usize)
    requires
        n <= u32::MAX,
    ensures
        r == reduce_spec(hash, n as int),
        n > 0 ==> r < n,
{
    let wide: u64 = hash as u64;
    let len: u64 = n as u64;
    assert(wide * len <= 0xffff_ffff * 0xffff_ffff) by (nonlinear_arith)
        requires
            wide <= 0xffff_ffff,
            len <= 0xffff_ffff,
    ;
    let product: u64 = wide * len;
    let r: u64 = product >> 32;
    assert(r == product / 0x1_0000_0000) by (bit_vector)
        requires
            r == product >> 32,
    ;
    proof {
        if n > 0 {
            lemma_reduce_bound(hash, n as int);
        }
    }
    r as usize
}

/// The hash of key zero under seed zero is zero.
pub proof fn lemma_mix_zero()
    ensures
        mix_spec(0, 0) == 0,
{
    lemma_mix64_zero();
}

/// Under a fixed seed two keys with the same hash are the same key.
pub proof fn lemma_mix_injective(a: u64, b: u64, seed: u64)
    requires
        mix_spec(a, seed) == mix_spec(b, seed),
    ensures
        a == b,
{
    lemma_unmix64_mix64(a.wrapping_add(seed));
    lemma_unmix64_mix64(b.wrapping_add(seed));
}

/// Under a fixed seed every 64-bit value is the hash of the key that
/// `unmix_spec` names, and of no other.
pub proof fn lemma_mix_bijective(seed: u64)
    ensures
        forall|hash: u64| #[trigger] mix_spec(unmix_spec(hash, seed), seed) == hash,
        forall|key: u64| #[trigger] unmix_spec(mix_spec(key, seed), seed) == key,
{
    assert forall|hash: u64| #[trigger] mix_spec(unmix_spec(hash, seed), seed) == hash by {
        lemma_mix64_unmix64(hash);
    }
    assert forall|key: u64| #[trigger] unmix_spec(mix_spec(key, seed), seed) == key by {
        lemma_unmix64_mix64(key.wrapping_add(seed));
    }
}

} // verus!
