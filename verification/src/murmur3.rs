//! The finalization mix of MurmurHash3: a bijection on 64-bit values that
//! makes every input bit affect every output bit.

use vstd::prelude::*;

verus! {

/// First multiplier of the finalization mix.
pub const C1: u64 = 0xff51_afd7_ed55_8ccd;

/// Second multiplier of the finalization mix.
pub const C2: u64 = 0xc4ce_b9fe_1a85_ec53;

/// Inverse of `C1` modulo 2^64.
pub const C1_INVERSE: u64 = 0x4f74_430c_22a5_4005;

/// Inverse of `C2` modulo 2^64.
pub const C2_INVERSE: u64 = 0x9cb4_b2f8_1293_37db;

/// `x ^ (x >> 33)`: the xor-shift step of the mix. It is its own inverse.
pub open spec fn xorshift33(x: u64) -> u64 {
    x ^ (x >> 33)
}

/// The finalization mix as a mathematical function: three xor-shifts with a
/// truncating multiplication between each two of them.
pub open spec fn mix64_spec(k: u64) -> u64 {
    xorshift33(xorshift33(xorshift33(k).wrapping_mul(C1)).wrapping_mul(C2))
}

/// The function that undoes `mix64_spec`.
pub open spec fn unmix64_spec(h: u64) -> u64 {
    xorshift33(xorshift33(xorshift33(h).wrapping_mul(C2_INVERSE)).wrapping_mul(C1_INVERSE))
}

/// Applies the finalization mix to `k`.
pub fn mix64(k: u64) -> (r: u64)
    ensures
        r == mix64_spec(k),
{
    let a = k ^ (k >> 33);
    let b = a.wrapping_mul(C1);
    let c = b ^ (b >> 33);
    let d = c.wrapping_mul(C2);
    d ^ (d >> 33)
}

/// The mix sends zero to zero.
pub proof fn lemma_mix64_zero()
    ensures
        mix64_spec(0) == 0,
{
    assert(mix64_spec(0) == 0) by (bit_vector);
}

/// Each step of the mix can be undone: the xor-shift by itself and each
/// multiplication by the multiplication with the inverse.
proof fn lemma_steps(x: u64)
    ensures
        xorshift33(xorshift33(x)) == x,
        x.wrapping_mul(C1).wrapping_mul(C1_INVERSE) == x,
        x.wrapping_mul(C1_INVERSE).wrapping_mul(C1) == x,
        x.wrapping_mul(C2).wrapping_mul(C2_INVERSE) == x,
        x.wrapping_mul(C2_INVERSE).wrapping_mul(C2) == x,
{
    assert(xorshift33(xorshift33(x)) == x && x.wrapping_mul(C1).wrapping_mul(C1_INVERSE) == x
        && x.wrapping_mul(C1_INVERSE).wrapping_mul(C1) == x && x.wrapping_mul(C2).wrapping_mul(
        C2_INVERSE,
    ) == x && x.wrapping_mul(C2_INVERSE).wrapping_mul(C2) == x) by (bit_vector);
}

/// `unmix64_spec` is a left inverse of the mix, so the mix is injective.
pub proof fn lemma_unmix64_mix64(k: u64)
    ensures
        unmix64_spec(mix64_spec(k)) == k,
{
    let a = xorshift33(k);
    let b = a.wrapping_mul(C1);
    let c = xorshift33(b);
    let d = c.wrapping_mul(C2);
    lemma_steps(d);
    lemma_steps(c);
    lemma_steps(b);
    lemma_steps(a);
    lemma_steps(k);
}

/// `unmix64_spec` is a right inverse of the mix, so the mix is surjective.
pub proof fn lemma_mix64_unmix64(h: u64)
    ensures
        mix64_spec(unmix64_spec(h)) == h,
{
    let a = xorshift33(h);
    let b = a.wrapping_mul(C2_INVERSE);
    let c = xorshift33(b);
    let d = c.wrapping_mul(C1_INVERSE);
    lemma_steps(d);
    lemma_steps(c);
    lemma_steps(b);
    lemma_steps(a);
    lemma_steps(h);
}

/// The mix is a bijection on 64-bit values: two inputs with the same image
/// are equal, and every value is the image of some input.
pub proof fn lemma_mix64_bijective()
    ensures
        forall|a: u64, b: u64| #[trigger] mix64_spec(a) == #[trigger] mix64_spec(b) ==> a == b,
        forall|h: u64| #[trigger] mix64_spec(unmix64_spec(h)) == h,
{
    assert forall|a: u64, b: u64| #[trigger] mix64_spec(a) == #[trigger] mix64_spec(b) implies a
        == b by {
        lemma_unmix64_mix64(a);
        lemma_unmix64_mix64(b);
    }
    assert forall|h: u64| #[trigger] mix64_spec(unmix64_spec(h)) == h by {
        lemma_mix64_unmix64(h);
    }
}

} // verus!
