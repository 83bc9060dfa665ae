//! The byte layout of a filter for zero-copy export and import: the
//! descriptor as 20 little-endian bytes, and the fingerprints as a packed
//! little-endian array.

use crate::bfuse::{lemma_bfuse_edge_fits, hash_of_hash, Descriptor, BinaryFuseParts};
use crate::fingerprint::Fingerprint;
use crate::hashing::mix;
use crate::xor::{lemma_xor_edge_fits, HashSet, XorParts};
use vstd::prelude::*;

verus! {

/// The number of bytes of a serialized descriptor.
pub const DESCRIPTOR_LEN: usize = 20;

/// The four little-endian bytes of `x`.
pub open spec fn le_bytes_u32(x: u32) -> Seq<u8> {
    seq![x as u8, (x >> 8) as u8, (x >> 16) as u8, (x >> 24) as u8]
}

/// The eight little-endian bytes of `x`.
pub open spec fn le_bytes_u64(x: u64) -> Seq<u8> {
    seq![
        x as u8,
        (x >> 8) as u8,
        (x >> 16) as u8,
        (x >> 24) as u8,
        (x >> 32) as u8,
        (x >> 40) as u8,
        (x >> 48) as u8,
        (x >> 56) as u8,
    ]
}

/// The number whose little-endian bytes stand at `at` in `bytes`.
pub open spec fn le_u32_at(bytes: Seq<u8>, at: int) -> u32 {
    (bytes[at] as u32) | ((bytes[at + 1] as u32) << 8) | ((bytes[at + 2] as u32) << 16) | ((bytes[at
        + 3] as u32) << 24)
}

/// The number whose little-endian bytes stand at `at` in `bytes`.
pub open spec fn le_u64_at(bytes: Seq<u8>, at: int) -> u64 {
    (bytes[at] as u64) | ((bytes[at + 1] as u64) << 8) | ((bytes[at + 2] as u64) << 16) | ((bytes[at
        + 3] as u64) << 24) | ((bytes[at + 4] as u64) << 32) | ((bytes[at + 5] as u64) << 40) | ((
    bytes[at + 6] as u64) << 48) | ((bytes[at + 7] as u64) << 56)
}

/// The serialized form of a descriptor: the seed at offset 0, the segment
/// length at 8, its mask at 12 and the segment count length at 16.
pub open spec fn descriptor_bytes(d: Descriptor) -> Seq<u8> {
    le_bytes_u64(d.seed) + le_bytes_u32(d.segment_length) + le_bytes_u32(d.segment_length_mask)
        + le_bytes_u32(d.segment_count_length)
}

/// The descriptor whose serialized form the first 20 of `bytes` are.
pub open spec fn parse_descriptor_spec(bytes: Seq<u8>) -> Descriptor {
    Descriptor {
        seed: le_u64_at(bytes, 0),
        segment_length: le_u32_at(bytes, 8),
        segment_length_mask: le_u32_at(bytes, 12),
        segment_count_length: le_u32_at(bytes, 16),
    }
}

proof fn lemma_le_u32(x: u32)
    ensures
        ((x as u8) as u32) | ((((x >> 8) as u8) as u32) << 8) | ((((x >> 16) as u8) as u32) << 16)
            | ((((x >> 24) as u8) as u32) << 24) == x,
{
    assert(((x as u8) as u32) | ((((x >> 8) as u8) as u32) << 8) | ((((x >> 16) as u8) as u32)
        << 16) | ((((x >> 24) as u8) as u32) << 24) == x) by (bit_vector);
}

proof fn lemma_le_u64(x: u64)
    ensures
        ((x as u8) as u64) | ((((x >> 8) as u8) as u64) << 8) | ((((x >> 16) as u8) as u64) << 16)
            | ((((x >> 24) as u8) as u64) << 24) | ((((x >> 32) as u8) as u64) << 32) | ((((x
            >> 40) as u8) as u64) << 40) | ((((x >> 48) as u8) as u64) << 48) | ((((x
            >> 56) as u8) as u64) << 56) == x,
{
    assert(((x as u8) as u64) | ((((x >> 8) as u8) as u64) << 8) | ((((x >> 16) as u8) as u64)
        << 16) | ((((x >> 24) as u8) as u64) << 24) | ((((x >> 32) as u8) as u64) << 32) | ((((x
        >> 40) as u8) as u64) << 40) | ((((x >> 48) as u8) as u64) << 48) | ((((x
        >> 56) as u8) as u64) << 56) == x) by (bit_vector);
}

/// A descriptor comes back from its serialized form, whatever follows the
/// 20 bytes.
pub proof fn lemma_descriptor_round_trip(d: Descriptor, rest: Seq<u8>)
    ensures
        descriptor_bytes(d).len() == DESCRIPTOR_LEN,
        parse_descriptor_spec(descriptor_bytes(d) + rest) == d,
{
    let bytes = descriptor_bytes(d) + rest;
    lemma_le_u64(d.seed);
    lemma_le_u32(d.segment_length);
    lemma_le_u32(d.segment_length_mask);
    lemma_le_u32(d.segment_count_length);
    assert(bytes[0] == d.seed as u8);
    assert(bytes[1] == (d.seed >> 8) as u8);
    assert(bytes[2] == (d.seed >> 16) as u8);
    assert(bytes[3] == (d.seed >> 24) as u8);
    assert(bytes[4] == (d.seed >> 32) as u8);
    assert(bytes[5] == (d.seed >> 40) as u8);
    assert(bytes[6] == (d.seed >> 48) as u8);
    assert(bytes[7] == (d.seed >> 56) as u8);
    assert(bytes[8] == d.segment_length as u8);
    assert(bytes[9] == (d.segment_length >> 8) as u8);
    assert(bytes[10] == (d.segment_length >> 16) as u8);
    assert(bytes[11] == (d.segment_length >> 24) as u8);
    assert(bytes[12] == d.segment_length_mask as u8);
    assert(bytes[13] == (d.segment_length_mask >> 8) as u8);
    assert(bytes[14] == (d.segment_length_mask >> 16) as u8);
    assert(bytes[15] == (d.segment_length_mask >> 24) as u8);
    assert(bytes[16] == d.segment_count_length as u8);
    assert(bytes[17] == (d.segment_count_length >> 8) as u8);
    assert(bytes[18] == (d.segment_count_length >> 16) as u8);
    assert(bytes[19] == (d.segment_count_length >> 24) as u8);
}

/// Writes the four little-endian bytes of `x` to `out` at `at`.
fn put_u32(out: &mut [u8], at: usize, x: u32)
    requires
        at + 4 <= old(out)@.len(),
    ensures
        final(out)@ == old(out)@.subrange(0, at as int) + le_bytes_u32(x) + old(out)@.subrange(
            at + 4,
            old(out)@.len() as int,
        ),
{
    out[at] = x as u8;
    out[at + 1] = (x >> 8) as u8;
    out[at + 2] = (x >> 16) as u8;
    out[at + 3] = (x >> 24) as u8;
    assert(out@ =~= old(out)@.subrange(0, at as int) + le_bytes_u32(x) + old(out)@.subrange(
        at + 4,
        old(out)@.len() as int,
    ));
}

/// Reads the number whose four little-endian bytes stand at `at`.
fn get_u32(bytes: &[u8], at: usize) -> (r: u32)
    requires
        at + 4 <= bytes@.len(),
    ensures
        r == le_u32_at(bytes@, at as int),
{
    (bytes[at] as u32) | ((bytes[at + 1] as u32) << 8) | ((bytes[at + 2] as u32) << 16) | ((bytes[at
        + 3] as u32) << 24)
}

/// Reads the number whose eight little-endian bytes stand at `at`.
fn get_u64(bytes: &[u8], at: usize) -> (r: u64)
    requires
        at + 8 <= bytes@.len(),
    ensures
        r == le_u64_at(bytes@, at as int),
{
    (bytes[at] as u64) | ((bytes[at + 1] as u64) << 8) | ((bytes[at + 2] as u64) << 16) | ((bytes[at
        + 3] as u64) << 24) | ((bytes[at + 4] as u64) << 32) | ((bytes[at + 5] as u64) << 40) | ((
    bytes[at + 6] as u64) << 48) | ((bytes[at + 7] as u64) << 56)
}

/// Writes the serialized form of `descriptor` to the first 20 bytes of
/// `out` and leaves the rest of `out` as it is.
pub fn serialize_bfuse_descriptor(descriptor: &Descriptor, out: &mut [u8])
    requires
        old(out)@.len() >= DESCRIPTOR_LEN,
    ensures
        final(out)@ == descriptor_bytes(*descriptor) + old(out)@.subrange(
            DESCRIPTOR_LEN as int,
            old(out)@.len() as int,
        ),
{
    let seed = descriptor.seed;
    put_u32(out, 0, seed as u32);
    put_u32(out, 4, (seed >> 32) as u32);
    put_u32(out, 8, descriptor.segment_length);
    put_u32(out, 12, descriptor.segment_length_mask);
    put_u32(out, 16, descriptor.segment_count_length);
    proof {
        lemma_halves(seed);
        assert(out@ =~= descriptor_bytes(*descriptor) + old(out)@.subrange(
            DESCRIPTOR_LEN as int,
            old(out)@.len() as int,
        ));
    }
}

/// Reads a descriptor from its serialized form in the first 20 bytes of
/// `bytes`.
pub fn parse_bfuse_descriptor(bytes: &[u8]) -> (r: Descriptor)
    requires
        bytes@.len() >= DESCRIPTOR_LEN,
    ensures
        r == parse_descriptor_spec(bytes@),
{
    Descriptor {
        seed: get_u64(bytes, 0),
        segment_length: get_u32(bytes, 8),
        segment_length_mask: get_u32(bytes, 12),
        segment_count_length: get_u32(bytes, 16),
    }
}

/// The fingerprints that `bytes` hold as a packed little-endian array.
pub open spec fn decode_le<F: Fingerprint>(bytes: Seq<u8>) -> Seq<F> {
    Seq::new(
        (bytes.len() as int / F::width() as int) as nat,
        |i: int| F::of_bytes(bytes.subrange(i * F::width(), (i + 1) * F::width())),
    )
}

/// The packed little-endian array of `fps`.
pub open spec fn encode_le<F: Fingerprint>(fps: Seq<F>) -> Seq<u8>
    decreases fps.len(),
{
    if fps.len() == 0 {
        Seq::empty()
    } else {
        encode_le(fps.drop_last()) + fps.last().to_bytes()
    }
}

/// The packed array has the bytes of every fingerprint at its place.
pub proof fn lemma_encode_le<F: Fingerprint>(fps: Seq<F>)
    ensures
        encode_le(fps).len() == fps.len() * F::width(),
        forall|i: int|
            0 <= i < fps.len() ==> #[trigger] encode_le(fps).subrange(
                i * F::width(),
                (i + 1) * F::width(),
            ) == fps[i].to_bytes(),
    decreases fps.len(),
{
    let w = F::width() as int;
    F::lemma_of_hash(0);
    if fps.len() > 0 {
        let head = fps.drop_last();
        let last = fps.last();
        lemma_encode_le(head);
        F::lemma_bytes_round_trip(last);
        let all = encode_le(fps);
        assert(all.len() == fps.len() * w) by (nonlinear_arith)
            requires
                all.len() == head.len() * w + w,
                fps.len() == head.len() + 1,
        ;
        assert forall|i: int| 0 <= i < fps.len() implies #[trigger] all.subrange(
            i * w,
            (i + 1) * w,
        ) == fps[i].to_bytes() by {
            assert(0 <= i * w && (i + 1) * w <= fps.len() * w && (i + 1) * w == i * w + w)
                by (nonlinear_arith)
                requires
                    0 <= i < fps.len(),
                    w >= 1,
            ;
            if i < head.len() {
                assert((i + 1) * w <= head.len() * w) by (nonlinear_arith)
                    requires
                        i < head.len(),
                        w >= 1,
                ;
                assert(all.subrange(i * w, (i + 1) * w) =~= encode_le(head).subrange(
                    i * w,
                    (i + 1) * w,
                ));
                assert(fps[i] == head[i]);
            } else {
                assert(i * w == head.len() * w) by (nonlinear_arith)
                    requires
                        i == head.len(),
                ;
                assert(all.subrange(i * w, (i + 1) * w) =~= last.to_bytes());
            }
        }
    }
}

/// Decoding the packed array of fingerprints gives the fingerprints back.
pub proof fn lemma_decode_encode<F: Fingerprint>(fps: Seq<F>)
    ensures
        decode_le::<F>(encode_le(fps)) == fps,
{
    let w = F::width() as int;
    F::lemma_of_hash(0);
    lemma_encode_le(fps);
    let bytes = encode_le(fps);
    assert(bytes.len() as int / w == fps.len()) by (nonlinear_arith)
        requires
            bytes.len() == fps.len() * w,
            w >= 1,
    ;
    assert forall|i: int| 0 <= i < fps.len() implies decode_le::<F>(bytes)[i] == fps[i] by {
        assert(bytes.subrange(i * w, (i + 1) * w) == fps[i].to_bytes());
        F::lemma_bytes_round_trip(fps[i]);
    }
    assert(decode_le::<F>(bytes) =~= fps);
}

/// Packs `fps` into a little-endian array of bytes.
pub fn encode_fingerprints<F: Fingerprint>(fps: &[F]) -> (r: Vec<u8>)
    ensures
        r@ == encode_le(fps@),
{
    let mut out: Vec<u8> = Vec::new();
    let mut i: usize = 0;
    while i < fps.len()
        invariant
            i <= fps@.len(),
            out@ == encode_le(fps@.take(i as int)),
        decreases fps@.len() - i,
    {
        fps[i].write_le(&mut out);
        proof {
            assert(fps@.take(i + 1).drop_last() =~= fps@.take(i as int));
        }
        i += 1;
    }
    proof {
        assert(fps@.take(i as int) =~= fps@);
    }
    out
}

/// What a filter that borrows `bytes` as its packed fingerprints is made of.
pub open spec fn borrowed_parts<F: Fingerprint>(descriptor: Descriptor, bytes: Seq<u8>) -> BinaryFuseParts<
    F,
> {
    BinaryFuseParts { descriptor, fingerprints: decode_le::<F>(bytes) }
}

/// Whether `bytes` are the packed fingerprints of a filter with the
/// descriptor `descriptor`: the descriptor is well formed and there are as
/// many whole fingerprints as it has slots.
pub open spec fn fits<F: Fingerprint>(descriptor: Descriptor, bytes: Seq<u8>) -> bool {
    &&& descriptor.wf()
    &&& bytes.len() == descriptor.array_len() * F::width()
}

/// Checks whether `len` bytes are the packed fingerprints of a filter with
/// the descriptor `descriptor`.
pub fn check_fits<F: Fingerprint>(descriptor: &Descriptor, len: usize) -> (r: bool)
    ensures
        r == {
            &&& descriptor.wf()
            &&& len == descriptor.array_len() * F::width()
        },
{
    let length = descriptor.segment_length;
    let count_length = descriptor.segment_count_length;
    if length < 4 || length > 262144 {
        return false;
    }
    if length & (length - 1) != 0 || descriptor.segment_length_mask != length - 1 {
        return false;
    }
    if count_length < length || count_length & descriptor.segment_length_mask != 0 {
        return false;
    }
    if count_length > u32::MAX - 2 * length {
        return false;
    }
    let width = F::byte_width();
    proof {
        F::lemma_of_hash(0);
    }
    let slots: u64 = (count_length + 2 * length) as u64;
    let wide: u64 = width as u64;
    assert(slots * wide <= 0xffff_ffff * 4) by (nonlinear_arith)
        requires
            slots <= 0xffff_ffff,
            wide <= 4,
    ;
    let bytes: u64 = slots * wide;
    (len as u64) == bytes
}

/// The fingerprint with index `i` lies inside the packed array.
proof fn lemma_index_fits(i: int, len: int, w: int)
    requires
        0 <= i < len,
        w >= 1,
    ensures
        0 <= i * w,
        (i + 1) * w <= len * w,
{
    assert(0 <= i * w && (i + 1) * w <= len * w) by (nonlinear_arith)
        requires
            0 <= i < len,
            w >= 1,
    ;
}

/// Answers whether the filter with the descriptor `desc` and the packed
/// fingerprints `bytes` contains `key`.
pub fn bfuse_contains_le<F: Fingerprint>(desc: &Descriptor, bytes: &[u8], key: u64) -> (r: bool)
    requires
        fits::<F>(*desc, bytes@),
    ensures
        r == borrowed_parts::<F>(*desc, bytes@).contains(key),
{
    let hash = mix(key, desc.seed);
    let f = F::from_hash(hash);
    let (h0, h1, h2) = hash_of_hash(
        hash,
        desc.segment_length,
        desc.segment_length_mask,
        desc.segment_count_length,
    );
    proof {
        lemma_bfuse_edge_fits(*desc, hash);
        F::lemma_of_hash(0);
        let w = F::width() as int;
        let len = desc.array_len();
        assert(bytes@.len() as int / w == len) by (nonlinear_arith)
            requires
                bytes@.len() == len * w,
                w >= 1,
        ;
        lemma_index_fits(h0 as int, len, w);
        lemma_index_fits(h1 as int, len, w);
        lemma_index_fits(h2 as int, len, w);
    }
    let a = F::read_le(bytes, h0 as usize);
    let b = F::read_le(bytes, h1 as usize);
    let c = F::read_le(bytes, h2 as usize);
    f.same(a.xor(b).xor(c))
}

/// For 8-bit fingerprints the packed array is the array itself.
pub proof fn lemma_encode_bytes(fps: Seq<u8>)
    ensures
        encode_le::<u8>(fps) == fps,
    decreases fps.len(),
{
    if fps.len() > 0 {
        lemma_encode_bytes(fps.drop_last());
        assert(encode_le::<u8>(fps) =~= fps);
    }
}

/// The filter that is read back from the serialized descriptor and the
/// packed fingerprints of a filter is the same filter: it gives the same
/// answer for every key.
pub proof fn lemma_dma_round_trip<F: Fingerprint>(parts: BinaryFuseParts<F>, rest: Seq<u8>)
    requires
        parts.wf(),
    ensures
        fits::<F>(
            parse_descriptor_spec(descriptor_bytes(parts.descriptor) + rest),
            encode_le(parts.fingerprints),
        ),
        borrowed_parts::<F>(
            parse_descriptor_spec(descriptor_bytes(parts.descriptor) + rest),
            encode_le(parts.fingerprints),
        ) == parts,
        forall|key: u64|
            borrowed_parts::<F>(
                parse_descriptor_spec(descriptor_bytes(parts.descriptor) + rest),
                encode_le(parts.fingerprints),
            ).contains(key) == #[trigger] parts.contains(key),
{
    lemma_descriptor_round_trip(parts.descriptor, rest);
    lemma_encode_le(parts.fingerprints);
    lemma_decode_encode(parts.fingerprints);
}

/// The number of bytes of a serialized descriptor of an Xor filter.
pub const XOR_DESCRIPTOR_LEN: usize = 16;

/// The serialized form of the descriptor of an Xor filter: the seed at
/// offset 0 and the block length at 8.
pub open spec fn xor_descriptor_bytes(seed: u64, block_length: usize) -> Seq<u8> {
    le_bytes_u64(seed) + le_bytes_u64(block_length as u64)
}

/// The seed in a serialized descriptor of an Xor filter.
pub open spec fn xor_seed_spec(bytes: Seq<u8>) -> u64 {
    le_u64_at(bytes, 0)
}

/// The block length in a serialized descriptor of an Xor filter.
pub open spec fn xor_block_length_spec(bytes: Seq<u8>) -> u64 {
    le_u64_at(bytes, 8)
}

/// The seed and the block length come back from their serialized form,
/// whatever follows the 16 bytes.
pub proof fn lemma_xor_descriptor_round_trip(seed: u64, block_length: usize, rest: Seq<u8>)
    ensures
        xor_descriptor_bytes(seed, block_length).len() == XOR_DESCRIPTOR_LEN,
        xor_seed_spec(xor_descriptor_bytes(seed, block_length) + rest) == seed,
        xor_block_length_spec(xor_descriptor_bytes(seed, block_length) + rest) == block_length,
{
    let bytes = xor_descriptor_bytes(seed, block_length) + rest;
    let len = block_length as u64;
    lemma_le_u64(seed);
    lemma_le_u64(len);
    assert(bytes[0] == seed as u8);
    assert(bytes[1] == (seed >> 8) as u8);
    assert(bytes[2] == (seed >> 16) as u8);
    assert(bytes[3] == (seed >> 24) as u8);
    assert(bytes[4] == (seed >> 32) as u8);
    assert(bytes[5] == (seed >> 40) as u8);
    assert(bytes[6] == (seed >> 48) as u8);
    assert(bytes[7] == (seed >> 56) as u8);
    assert(bytes[8] == len as u8);
    assert(bytes[9] == (len >> 8) as u8);
    assert(bytes[10] == (len >> 16) as u8);
    assert(bytes[11] == (len >> 24) as u8);
    assert(bytes[12] == (len >> 32) as u8);
    assert(bytes[13] == (len >> 40) as u8);
    assert(bytes[14] == (len >> 48) as u8);
    assert(bytes[15] == (len >> 56) as u8);
}

/// Writes the serialized form of the descriptor of an Xor filter to the
/// first 16 bytes of `out` and leaves the rest of `out` as it is.
pub fn serialize_xor_descriptor(seed: u64, block_length: usize, out: &mut [u8])
    requires
        old(out)@.len() >= XOR_DESCRIPTOR_LEN,
    ensures
        final(out)@ == xor_descriptor_bytes(seed, block_length) + old(out)@.subrange(
            XOR_DESCRIPTOR_LEN as int,
            old(out)@.len() as int,
        ),
{
    let len = block_length as u64;
    put_u32(out, 0, seed as u32);
    put_u32(out, 4, (seed >> 32) as u32);
    put_u32(out, 8, len as u32);
    put_u32(out, 12, (len >> 32) as u32);
    proof {
        lemma_halves(seed);
        lemma_halves(len);
        assert(out@ =~= xor_descriptor_bytes(seed, block_length) + old(out)@.subrange(
            XOR_DESCRIPTOR_LEN as int,
            old(out)@.len() as int,
        ));
    }
}

/// The bytes of the two halves of a 64-bit number are its bytes.
proof fn lemma_halves(x: u64)
    ensures
        (x as u32) as u8 == x as u8,
        ((x as u32) >> 8) as u8 == (x >> 8) as u8,
        ((x as u32) >> 16) as u8 == (x >> 16) as u8,
        ((x as u32) >> 24) as u8 == (x >> 24) as u8,
        ((x >> 32) as u32) as u8 == (x >> 32) as u8,
        (((x >> 32) as u32) >> 8) as u8 == (x >> 40) as u8,
        (((x >> 32) as u32) >> 16) as u8 == (x >> 48) as u8,
        (((x >> 32) as u32) >> 24) as u8 == (x >> 56) as u8,
{
    assert((x as u32) as u8 == x as u8 && ((x as u32) >> 8) as u8 == (x >> 8) as u8 && ((x as u32)
        >> 16) as u8 == (x >> 16) as u8 && ((x as u32) >> 24) as u8 == (x >> 24) as u8 && ((x
        >> 32) as u32) as u8 == (x >> 32) as u8 && (((x >> 32) as u32) >> 8) as u8 == (x
        >> 40) as u8 && (((x >> 32) as u32) >> 16) as u8 == (x >> 48) as u8 && (((x
        >> 32) as u32) >> 24) as u8 == (x >> 56) as u8) by (bit_vector);
}

/// Reads the seed and the block length of an Xor filter from their
/// serialized form in the first 16 bytes of `bytes`.
pub fn parse_xor_descriptor(bytes: &[u8]) -> (r: (u64, u64))
    requires
        bytes@.len() >= XOR_DESCRIPTOR_LEN,
    ensures
        r.0 == xor_seed_spec(bytes@),
        r.1 == xor_block_length_spec(bytes@),
{
    (get_u64(bytes, 0), get_u64(bytes, 8))
}

/// What an Xor filter that borrows `bytes` as its packed fingerprints is
/// made of.
pub open spec fn xor_borrowed_parts<F: Fingerprint>(
    seed: u64,
    block_length: usize,
    bytes: Seq<u8>,
) -> XorParts<F> {
    XorParts { seed, block_length, fingerprints: decode_le::<F>(bytes) }
}

/// Whether `bytes` are the packed fingerprints of an Xor filter with
/// blocks of `block_length` slots.
pub open spec fn xor_fits<F: Fingerprint>(block_length: int, bytes: Seq<u8>) -> bool {
    &&& 0 < block_length <= u32::MAX
    &&& bytes.len() == 3 * block_length * F::width()
}

/// Checks whether `len` bytes are the packed fingerprints of an Xor filter
/// with blocks of `block_length` slots.
pub fn check_xor_fits<F: Fingerprint>(block_length: u64, len: usize) -> (r: bool)
    ensures
        r == {
            &&& 0 < block_length <= u32::MAX
            &&& len == 3 * block_length * F::width()
        },
{
    if block_length == 0 || block_length > 0xffff_ffff {
        return false;
    }
    let width = F::byte_width() as u64;
    proof {
        F::lemma_of_hash(0);
    }
    assert(3 * block_length * width <= 3 * 0xffff_ffff * 4) by (nonlinear_arith)
        requires
            block_length <= 0xffff_ffff,
            width <= 4,
    ;
    (len as u64) == 3 * block_length * width
}

/// Answers whether the Xor filter with these parts and the packed
/// fingerprints `bytes` contains `key`.
pub fn xor_contains_le<F: Fingerprint>(seed: u64, block_length: usize, bytes: &[u8], key: u64) -> (r:
    bool)
    requires
        xor_fits::<F>(block_length as int, bytes@),
    ensures
        r == xor_borrowed_parts::<F>(seed, block_length, bytes@).contains(key),
{
    let hs = HashSet::xor_from(key, block_length, seed);
    let total = bytes.len();
    proof {
        lemma_xor_edge_fits(hs.hash, block_length as int);
        F::lemma_of_hash(0);
        let w = F::width() as int;
        let len = 3 * block_length;
        assert(bytes@.len() as int / w == len) by (nonlinear_arith)
            requires
                bytes@.len() == len * w,
                w >= 1,
        ;
        assert(len <= total) by (nonlinear_arith)
            requires
                total == len * w,
                w >= 1,
                len >= 0,
        ;
        assert(hs.hset[0] < block_length && hs.hset[1] < block_length && hs.hset[2]
            < block_length);
        lemma_index_fits(hs.hset[0] as int, len, w);
        lemma_index_fits(hs.hset[1] + block_length, len, w);
        lemma_index_fits(hs.hset[2] + 2 * block_length, len, w);
    }
    let fp = F::from_hash(hs.hash);
    let a = F::read_le(bytes, hs.hset[0]);
    let b = F::read_le(bytes, hs.hset[1] + block_length);
    let c = F::read_le(bytes, hs.hset[2] + 2 * block_length);
    fp.same(a.xor(b).xor(c))
}

/// The Xor filter that is read back from the serialized descriptor and the
/// packed fingerprints of a filter is the same filter: it gives the same
/// answer for every key.
pub proof fn lemma_xor_dma_round_trip<F: Fingerprint>(parts: XorParts<F>, rest: Seq<u8>)
    requires
        parts.wf(),
    ensures
        xor_fits::<F>(parts.block_length as int, encode_le(parts.fingerprints)),
        xor_borrowed_parts::<F>(
            xor_seed_spec(xor_descriptor_bytes(parts.seed, parts.block_length) + rest),
            xor_block_length_spec(
                xor_descriptor_bytes(parts.seed, parts.block_length) + rest,
            ) as usize,
            encode_le(parts.fingerprints),
        ) == parts,
        forall|key: u64|
            xor_borrowed_parts::<F>(
                parts.seed,
                parts.block_length,
                encode_le(parts.fingerprints),
            ).contains(key) == #[trigger] parts.contains(key),
{
    lemma_xor_descriptor_round_trip(parts.seed, parts.block_length, rest);
    lemma_encode_le(parts.fingerprints);
    lemma_decode_encode(parts.fingerprints);
    assert(3 * parts.block_length * F::width() == parts.fingerprints.len() * F::width())
        by (nonlinear_arith)
        requires
            parts.fingerprints.len() == 3 * parts.block_length,
    ;
}

/// Checks whether `slots` is the number of slots of a filter with the
/// descriptor `descriptor`, and the descriptor well formed.
pub fn check_slots(descriptor: &Descriptor, slots: usize) -> (r: bool)
    ensures
        r == {
            &&& descriptor.wf()
            &&& slots == descriptor.array_len()
        },
{
    check_fits::<u8>(descriptor, slots)
}

/// The number of fingerprints in a packed array is the number of its bytes
/// divided by the width of one.
pub proof fn lemma_borrowed_len<F: Fingerprint>(bytes: Seq<u8>)
    ensures
        decode_le::<F>(bytes).len() == bytes.len() as int / F::width() as int,
        1 <= F::width() <= 4,
{
    F::lemma_of_hash(0);
}

} // verus!
