//! Implements BinaryFuse32 filters.

use crate::bfuse::{
    bfuse_build, bfuse_build_filled, bfuse_build_result, bfuse_contains, BinaryFuseParts,
    Descriptor, MAX_CAPACITY,
};
use crate::dma::{
    bfuse_contains_le, borrowed_parts, check_fits, check_slots, descriptor_bytes, encode_le, fits,
    parse_bfuse_descriptor, parse_descriptor_spec, serialize_bfuse_descriptor, DESCRIPTOR_LEN,
};
use crate::dma::{encode_fingerprints, lemma_borrowed_len};
use crate::fill::Fill;
use crate::Filter;
use vstd::prelude::*;

verus! {

/// A `BinaryFuse32` filter is an Xor-like filter with 32-bit fingerprints
/// arranged in a binary-partitioned fuse graph. `BinaryFuse32`s are similar
/// to `Fuse32`s, but their construction is faster, uses less memory, and is
/// more likely to succeed.
///
/// A `BinaryFuse32` filter uses ≈36 bits per entry of the set is it
/// constructed from, and has a false positive rate of ≈2^-32 (effectively zero). As
/// with other probabilistic filters, a higher number of entries decreases
/// the bits per entry but increases the false positive rate.
///
/// A `BinaryFuse32` is constructed from a set of 64-bit unsigned integers
/// and is immutable. Construction may fail, but usually only if there are
/// duplicate keys.
#[derive(Debug)]
pub struct BinaryFuse32 {
    descriptor: Descriptor,
    fingerprints: Vec<u32>,
}

impl View for BinaryFuse32 {
    type V = BinaryFuseParts<u32>;

    closed spec fn view(&self) -> BinaryFuseParts<u32> {
        BinaryFuseParts { descriptor: self.descriptor, fingerprints: self.fingerprints@ }
    }
}

impl BinaryFuse32 {
    /// The number of bytes of the serialized descriptor.
    pub const DESCRIPTOR_LEN: usize = DESCRIPTOR_LEN;

    #[verifier::type_invariant]
    spec fn well_formed(self) -> bool {
        self@.wf()
    }

    /// Try to construct the filter from a slice of keys, with `capacity`
    /// slots asked for: the number of keys times the size factor, rounded.
    ///
    /// The keys must be distinct: keys that are not are refused with an
    /// error. The build is a function of the keys and the capacity alone.
    pub fn try_from_iterator(keys: &[u64], capacity: u32) -> (r: Result<BinaryFuse32, &'static str>)
        requires
            keys@.len() < u32::MAX,
            capacity <= MAX_CAPACITY,
        ensures
            bfuse_build_result(
                keys@,
                capacity,
                Fill::Zero,
                match r {
                    Ok(f) => Some(f@),
                    Err(_) => None,
                },
                match r {
                    Ok(_) => None,
                    Err(e) => Some(e),
                },
            ),
    {
        match bfuse_build::<u32>(keys, capacity) {
            Ok((descriptor, fingerprints)) => Ok(BinaryFuse32 { descriptor, fingerprints }),
            Err(e) => Err(e),
        }
    }

    /// Like `try_from_iterator`, but the slots that no key needs are left
    /// with what `fill` says.
    pub fn try_from_iterator_with_fill(keys: &[u64], capacity: u32, fill: Fill) -> (r: Result<
        BinaryFuse32,
        &'static str,
    >)
        requires
            keys@.len() < u32::MAX,
            capacity <= MAX_CAPACITY,
        ensures
            bfuse_build_result(
                keys@,
                capacity,
                fill,
                match r {
                    Ok(f) => Some(f@),
                    Err(_) => None,
                },
                match r {
                    Ok(_) => None,
                    Err(e) => Some(e),
                },
            ),
    {
        match bfuse_build_filled::<u32>(keys, capacity, fill) {
            Ok((descriptor, fingerprints)) => Ok(BinaryFuse32 { descriptor, fingerprints }),
            Err(e) => Err(e),
        }
    }

    /// Makes a filter of parts that fit together, and `None` of others.
    pub fn from_parts(descriptor: Descriptor, fingerprints: Vec<u32>) -> (r: Option<BinaryFuse32>)
        ensures
            (BinaryFuseParts { descriptor, fingerprints: fingerprints@ }).wf() <==> r is Some,
            r matches Some(f) ==> f@ == (BinaryFuseParts { descriptor, fingerprints: fingerprints@ }),
    {
        if check_slots(&descriptor, fingerprints.len()) {
            Some(BinaryFuse32 { descriptor, fingerprints })
        } else {
            None
        }
    }

    /// The seed and the layout of the filter.
    pub fn descriptor(&self) -> (r: Descriptor)
        ensures
            r == self@.descriptor,
            self@.wf(),
    {
        proof {
            use_type_invariant(self);
        }
        self.descriptor
    }

    /// The fingerprints for the filter.
    pub fn fingerprints(&self) -> (r: &[u32])
        ensures
            r@ == self@.fingerprints,
            self@.wf(),
    {
        proof {
            use_type_invariant(self);
        }
        self.fingerprints.as_slice()
    }

    /// Writes the serialized descriptor to the first `DESCRIPTOR_LEN` bytes
    /// of `out`.
    pub fn dma_copy_descriptor_to(&self, out: &mut [u8])
        requires
            old(out)@.len() >= DESCRIPTOR_LEN,
        ensures
            final(out)@ == descriptor_bytes(self@.descriptor) + old(out)@.subrange(
                DESCRIPTOR_LEN as int,
                old(out)@.len() as int,
            ),
    {
        serialize_bfuse_descriptor(&self.descriptor, out)
    }

    /// The fingerprints as a packed little-endian array of bytes.
    pub fn dma_fingerprints(&self) -> (r: Vec<u8>)
        ensures
            r@ == encode_le(self@.fingerprints),
    {
        encode_fingerprints(self.fingerprints.as_slice())
    }
}

impl Clone for BinaryFuse32 {
    /// Duplicates the descriptor and the fingerprint array.
    fn clone(&self) -> (r: BinaryFuse32)
        ensures
            r@ == self@,
    {
        proof {
            use_type_invariant(self);
        }
        let fingerprints = self.fingerprints.clone();
        assert(fingerprints@ =~= self.fingerprints@);
        BinaryFuse32 { descriptor: self.descriptor, fingerprints }
    }
}

impl Filter<u64> for BinaryFuse32 {
    open spec fn contains_spec(&self, key: &u64) -> bool {
        self@.contains(*key)
    }

    open spec fn len_spec(&self) -> nat {
        self@.fingerprints.len()
    }

    /// Returns `true` if the filter contains the specified key.
    /// Has a false positive rate of effectively zero.
    /// Has no false negatives.
    fn contains(&self, key: &u64) -> (r: bool) {
        proof {
            use_type_invariant(self);
        }
        bfuse_contains::<u32>(&self.descriptor, self.fingerprints.as_slice(), *key)
    }

    fn len(&self) -> (r: usize) {
        self.fingerprints.len()
    }
}

/// Like `BinaryFuse32` except that it can be constructed 0-copy from
/// external buffers.
#[derive(Debug, Clone, Copy)]
pub struct BinaryFuse32Ref<'a> {
    descriptor: Descriptor,
    fingerprints: &'a [u8],
}

impl<'a> View for BinaryFuse32Ref<'a> {
    type V = BinaryFuseParts<u32>;

    closed spec fn view(&self) -> BinaryFuseParts<u32> {
        borrowed_parts::<u32>(self.descriptor, self.fingerprints@)
    }
}

impl<'a> BinaryFuse32Ref<'a> {
    /// The alignment, in bytes, that the fingerprints are stored with.
    pub const FINGERPRINT_ALIGNMENT: usize = 4;

    #[verifier::type_invariant]
    spec fn well_formed(self) -> bool {
        fits::<u32>(self.descriptor, self.fingerprints@)
    }

    /// Makes a filter of a serialized descriptor and of packed
    /// fingerprints, which it borrows. The two must belong together: the
    /// descriptor is well formed, and the fingerprints are as many whole
    /// ones as the descriptor has slots.
    pub fn from_dma(descriptor: &[u8], fingerprints: &'a [u8]) -> (r: BinaryFuse32Ref<'a>)
        requires
            descriptor@.len() >= DESCRIPTOR_LEN,
            fits::<u32>(parse_descriptor_spec(descriptor@), fingerprints@),
        ensures
            r@ == borrowed_parts::<u32>(parse_descriptor_spec(descriptor@), fingerprints@),
    {
        BinaryFuse32Ref { descriptor: parse_bfuse_descriptor(descriptor), fingerprints }
    }

    /// Like `from_dma`, but checks first whether the two belong together,
    /// and gives `None` if they do not.
    pub fn try_from_dma(descriptor: &[u8], fingerprints: &'a [u8]) -> (r: Option<
        BinaryFuse32Ref<'a>,
    >)
        ensures
            r is Some <==> descriptor@.len() >= DESCRIPTOR_LEN && fits::<u32>(
                parse_descriptor_spec(descriptor@),
                fingerprints@,
            ),
            r matches Some(f) ==> f@ == borrowed_parts::<u32>(
                parse_descriptor_spec(descriptor@),
                fingerprints@,
            ),
    {
        if descriptor.len() < DESCRIPTOR_LEN {
            return None;
        }
        let parsed = parse_bfuse_descriptor(descriptor);
        if check_fits::<u32>(&parsed, fingerprints.len()) {
            Some(BinaryFuse32Ref { descriptor: parsed, fingerprints })
        } else {
            None
        }
    }

    /// The seed and the layout of the filter.
    pub fn descriptor(&self) -> (r: Descriptor)
        ensures
            r == self@.descriptor,
    {
        self.descriptor
    }
}

impl<'a> Filter<u64> for BinaryFuse32Ref<'a> {
    open spec fn contains_spec(&self, key: &u64) -> bool {
        self@.contains(*key)
    }

    open spec fn len_spec(&self) -> nat {
        self@.fingerprints.len()
    }

    /// Returns `true` if the filter contains the specified key.
    /// Has a false positive rate of effectively zero.
    /// Has no false negatives.
    fn contains(&self, key: &u64) -> (r: bool) {
        proof {
            use_type_invariant(self);
        }
        bfuse_contains_le::<u32>(&self.descriptor, self.fingerprints, *key)
    }

    fn len(&self) -> (r: usize) {
        proof {
            use_type_invariant(self);
            lemma_borrowed_len::<u32>(self.fingerprints@);
        }
        self.fingerprints.len() / 4
    }
}

} // verus!
