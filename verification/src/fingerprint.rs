//! The width of a stored fingerprint as a type: 8, 16 or 32 bits.

use crate::hashing::fingerprint_spec;
use vstd::prelude::*;

verus! {

/// An unsigned integer that a filter stores per slot. The builders and the
/// queries are written once over this trait.
pub trait Fingerprint: Copy + Sized {
    /// The stored value as a number.
    spec fn bits(self) -> u32;

    /// The number of bytes of one stored value.
    spec fn width() -> nat;

    /// The fingerprint of `hash`: the low bits of `fingerprint_spec(hash)`.
    spec fn of_hash(hash: u64) -> Self;

    /// The value stored as the little-endian bytes `bytes`.
    spec fn of_bytes(bytes: Seq<u8>) -> Self;

    /// The little-endian bytes of the value.
    spec fn to_bytes(self) -> Seq<u8>;

    /// Two values with the same number are the same value.
    proof fn lemma_bits_injective(a: Self, b: Self)
        requires
            a.bits() == b.bits(),
        ensures
            a == b,
    ;

    /// The fingerprint of a hash is the truncation of the folded hash.
    proof fn lemma_of_hash(hash: u64)
        ensures
            Self::of_hash(hash).bits() as int == fingerprint_spec(hash) as int % pow256(
                Self::width(),
            ),
            1 <= Self::width() <= 4,
    ;

    /// Encoding and then decoding gives the value back.
    proof fn lemma_bytes_round_trip(value: Self)
        ensures
            value.to_bytes().len() == Self::width(),
            Self::of_bytes(value.to_bytes()) == value,
    ;

    /// Computes the fingerprint of `hash`.
    fn from_hash(hash: u64) -> (r: Self)
        ensures
            r == Self::of_hash(hash),
    ;

    /// The value zero.
    fn zero() -> (r: Self)
        ensures
            r.bits() == 0,
    ;

    /// Bitwise exclusive or.
    fn xor(self, other: Self) -> (r: Self)
        ensures
            r.bits() == self.bits() ^ other.bits(),
    ;

    /// Equality of two stored values.
    fn same(self, other: Self) -> (r: bool)
        ensures
            r == (self.bits() == other.bits()),
    ;

    /// The number of bytes of one stored value.
    fn byte_width() -> (r: usize)
        ensures
            r == Self::width(),
    ;

    /// Reads the value stored at index `index` of a packed little-endian array.
    fn read_le(bytes: &[u8], index: usize) -> (r: Self)
        requires
            (index + 1) * Self::width() <= bytes@.len(),
        ensures
            r == Self::of_bytes(
                bytes@.subrange(index * Self::width(), (index + 1) * Self::width()),
            ),
    ;

    /// Appends the little-endian bytes of the value to `out`.
    fn write_le(self, out: &mut Vec<u8>)
        ensures
            final(out)@ == old(out)@ + self.to_bytes(),
    ;
}

/// 256 to the power `n`.
pub open spec fn pow256(n: nat) -> int
    decreases n,
{
    if n == 0 {
        1
    } else {
        256 * pow256((n - 1) as nat)
    }
}

/// Truncation to 8 bits and exclusive or on 8 bits, seen as numbers.
proof fn lemma_bytes(folded: u64, a: u8, b: u8)
    ensures
        (folded as u8) as u32 == folded % 256,
        (a ^ b) as u32 == (a as u32) ^ (b as u32),
{
    assert((folded as u8) as u32 == folded % 256 && (a ^ b) as u32 == (a as u32) ^ (b as u32))
        by (bit_vector);
}

/// Truncation to 16 bits, exclusive or on 16 bits and the two bytes of 16
/// bits, seen as numbers.
proof fn lemma_halfwords(folded: u64, a: u16, b: u16)
    ensures
        (folded as u16) as u32 == folded % 65536,
        (a ^ b) as u32 == (a as u32) ^ (b as u32),
        ((a as u8) as u16) | ((((a >> 8) as u8) as u16) << 8) == a,
{
    assert((folded as u16) as u32 == folded % 65536 && (a ^ b) as u32 == (a as u32) ^ (b as u32)
        && ((a as u8) as u16) | ((((a >> 8) as u8) as u16) << 8) == a) by (bit_vector);
}

/// Truncation to 32 bits and the four bytes of 32 bits, seen as numbers.
proof fn lemma_words(folded: u64, a: u32)
    ensures
        (folded as u32) == folded % 0x1_0000_0000,
        ((a as u8) as u32) | ((((a >> 8) as u8) as u32) << 8) | ((((a >> 16) as u8) as u32) << 16)
            | ((((a >> 24) as u8) as u32) << 24) == a,
{
    assert((folded as u32) == folded % 0x1_0000_0000 && ((a as u8) as u32) | ((((a
        >> 8) as u8) as u32) << 8) | ((((a >> 16) as u8) as u32) << 16) | ((((a
        >> 24) as u8) as u32) << 24) == a) by (bit_vector);
}

impl Fingerprint for u8 {
    open spec fn bits(self) -> u32 {
        self as u32
    }

    open spec fn width() -> nat {
        1
    }

    open spec fn of_hash(hash: u64) -> u8 {
        fingerprint_spec(hash) as u8
    }

    open spec fn of_bytes(bytes: Seq<u8>) -> u8 {
        bytes[0]
    }

    open spec fn to_bytes(self) -> Seq<u8> {
        seq![self]
    }

    proof fn lemma_bits_injective(a: u8, b: u8) {
    }

    proof fn lemma_of_hash(hash: u64) {
        lemma_bytes(fingerprint_spec(hash), 0, 0);
        reveal_with_fuel(pow256, 2);
    }

    proof fn lemma_bytes_round_trip(value: u8) {
    }

    fn from_hash(hash: u64) -> (r: u8) {
        (hash ^ (hash >> 32)) as u8
    }

    fn zero() -> (r: u8) {
        0
    }

    fn xor(self, other: u8) -> (r: u8) {
        proof {
            lemma_bytes(0, self, other);
        }
        self ^ other
    }

    fn same(self, other: u8) -> (r: bool) {
        self == other
    }

    fn byte_width() -> (r: usize) {
        1
    }

    fn read_le(bytes: &[u8], index: usize) -> (r: u8) {
        bytes[index]
    }

    fn write_le(self, out: &mut Vec<u8>) {
        out.push(self);
        assert(out@ =~= old(out)@ + seq![self]);
    }
}

impl Fingerprint for u16 {
    open spec fn bits(self) -> u32 {
        self as u32
    }

    open spec fn width() -> nat {
        2
    }

    open spec fn of_hash(hash: u64) -> u16 {
        fingerprint_spec(hash) as u16
    }

    open spec fn of_bytes(bytes: Seq<u8>) -> u16 {
        (bytes[0] as u16) | ((bytes[1] as u16) << 8)
    }

    open spec fn to_bytes(self) -> Seq<u8> {
        seq![self as u8, (self >> 8) as u8]
    }

    proof fn lemma_bits_injective(a: u16, b: u16) {
    }

    proof fn lemma_of_hash(hash: u64) {
        lemma_halfwords(fingerprint_spec(hash), 0, 0);
        reveal_with_fuel(pow256, 3);
    }

    proof fn lemma_bytes_round_trip(value: u16) {
        lemma_halfwords(0, value, 0);
    }

    fn from_hash(hash: u64) -> (r: u16) {
        (hash ^ (hash >> 32)) as u16
    }

    fn zero() -> (r: u16) {
        0
    }

    fn xor(self, other: u16) -> (r: u16) {
        proof {
            lemma_halfwords(0, self, other);
        }
        self ^ other
    }

    fn same(self, other: u16) -> (r: bool) {
        self == other
    }

    fn byte_width() -> (r: usize) {
        2
    }

    fn read_le(bytes: &[u8], index: usize) -> (r: u16) {
        let low: u8 = bytes[2 * index];
        let high: u8 = bytes[2 * index + 1];
        (low as u16) | ((high as u16) << 8)
    }

    fn write_le(self, out: &mut Vec<u8>) {
        out.push(self as u8);
        out.push((self >> 8) as u8);
        assert(out@ =~= old(out)@ + seq![self as u8, (self >> 8) as u8]);
    }
}

impl Fingerprint for u32 {
    open spec fn bits(self) -> u32 {
        self
    }

    open spec fn width() -> nat {
        4
    }

    open spec fn of_hash(hash: u64) -> u32 {
        fingerprint_spec(hash) as u32
    }

    open spec fn of_bytes(bytes: Seq<u8>) -> u32 {
        (bytes[0] as u32) | ((bytes[1] as u32) << 8) | ((bytes[2] as u32) << 16) | ((
        bytes[3] as u32) << 24)
    }

    open spec fn to_bytes(self) -> Seq<u8> {
        seq![self as u8, (self >> 8) as u8, (self >> 16) as u8, (self >> 24) as u8]
    }

    proof fn lemma_bits_injective(a: u32, b: u32) {
    }

    proof fn lemma_of_hash(hash: u64) {
        lemma_words(fingerprint_spec(hash), 0);
        reveal_with_fuel(pow256, 5);
    }

    proof fn lemma_bytes_round_trip(value: u32) {
        lemma_words(0, value);
    }

    fn from_hash(hash: u64) -> (r: u32) {
        (hash ^ (hash >> 32)) as u32
    }

    fn zero() -> (r: u32) {
        0
    }

    fn xor(self, other: u32) -> (r: u32) {
        self ^ other
    }

    fn same(self, other: u32) -> (r: bool) {
        self == other
    }

    fn byte_width() -> (r: usize) {
        4
    }

    fn read_le(bytes: &[u8], index: usize) -> (r: u32) {
        let b0: u8 = bytes[4 * index];
        let b1: u8 = bytes[4 * index + 1];
        let b2: u8 = bytes[4 * index + 2];
        let b3: u8 = bytes[4 * index + 3];
        (b0 as u32) | ((b1 as u32) << 8) | ((b2 as u32) << 16) | ((b3 as u32) << 24)
    }

    fn write_le(self, out: &mut Vec<u8>) {
        out.push(self as u8);
        out.push((self >> 8) as u8);
        out.push((self >> 16) as u8);
        out.push((self >> 24) as u8);
        assert(out@ =~= old(out)@ + seq![
            self as u8,
            (self >> 8) as u8,
            (self >> 16) as u8,
            (self >> 24) as u8,
        ]);
    }
}

} // verus!
