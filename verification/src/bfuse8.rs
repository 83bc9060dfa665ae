//! Implements BinaryFuse8 filters.

use crate::bfuse::{
    bfuse_build, bfuse_build_filled, bfuse_build_result, bfuse_contains, BinaryFuseParts,
    Descriptor, MAX_CAPACITY,
};
use crate::dma::{
    bfuse_contains_le, borrowed_parts, check_fits, check_slots, descriptor_bytes, encode_le, fits,
    parse_bfuse_descriptor, parse_descriptor_spec, serialize_bfuse_descriptor, DESCRIPTOR_LEN,
};
use crate::dma::{lemma_borrowed_len, lemma_encode_bytes};
use crate::fill::Fill;
use crate::Filter;
use vstd::prelude::*;

verus! {

/// A `BinaryFuse8` filter is an Xor-like filter with 8-bit fingerprints
/// arranged in a binary-partitioned fuse graph. `BinaryFuse8`s are similar
/// to `Fuse8`s, but their construction is faster, uses less memory, and is
/// more likely to succeed.
///
/// A `BinaryFuse8` filter uses ≈9 bits per entry of the set is it
/// constructed from, and has a false positive rate of ≈2^-8 (<0.4%). As
/// with other probabilistic filters, a higher number of entries decreases
/// the bits per entry but increases the false positive rate.
///
/// A `BinaryFuse8` is constructed from a set of 64-bit unsigned integers
/// and is immutable. Construction may fail, but usually only if there are
/// duplicate keys.
#[derive(Debug)]
pub struct BinaryFuse8 {
    descriptor: Descriptor,
    fingerprints: Vec<u8>,
}

impl View for BinaryFuse8 {
    type V = BinaryFuseParts<u8>;

    closed spec fn view(&self) -> BinaryFuseParts<u8> {
        BinaryFuseParts { descriptor: self.descriptor, fingerprints: self.fingerprints@ }
    }
}

impl BinaryFuse8 {
    /// The number of bytes of the serialized descriptor.
    pub const DESCRIPTOR_LEN: usize = DESCRIPTOR_LEN;

    #[verifier::type_invariant]
    spec fn well_formed(self) -> bool {
        self@.wf()
    }

    /// Try to construct the filter from a slice of keys, with `capacity`
    /// slots asked for: the number of keys times the size factor, rounded.
    ///
    /// The keys must be distinct: keys that are not are refused with an
    /// error. The build is a function of the keys and the capacity alone.
    pub fn try_from_iterator(keys: &[u64], capacity: u32) -> (r: Result<BinaryFuse8, &'static str>)
        requires
            keys@.len() < u32::MAX,
            capacity <= MAX_CAPACITY,
        ensures
            bfuse_build_result(
                keys@,
                capacity,
                Fill::Zero,
                match r {
                    Ok(f) => Some(f@),
                    Err(_) => None,
                },
                match r {
                    Ok(_) => None,
                    Err(e) => Some(e),
                },
            ),
    {
        match bfuse_build::<u8>(keys, capacity) {
            Ok((descriptor, fingerprints)) => Ok(BinaryFuse8 { descriptor, fingerprints }),
            Err(e) => Err(e),
        }
    }

    /// Like `try_from_iterator`, but the slots that no key needs are left
    /// with what `fill` says.
    pub fn try_from_iterator_with_fill(keys: &[u64], capacity: u32, fill: Fill) -> (r: Result<
        BinaryFuse8,
        &'static str,
    >)
        requires
            keys@.len() < u32::MAX,
            capacity <= MAX_CAPACITY,
        ensures
            bfuse_build_result(
                keys@,
                capacity,
                fill,
                match r {
                    Ok(f) => Some(f@),
                    Err(_) => None,
                },
                match r {
                    Ok(_) => None,
                    Err(e) => Some(e),
                },
            ),
    {
        match bfuse_build_filled::<u8>(keys, capacity, fill) {
            Ok((descriptor, fingerprints)) => Ok(BinaryFuse8 { descriptor, fingerprints }),
            Err(e) => Err(e),
        }
    }

    /// Makes a filter of parts that fit together, and `None` of others.
    pub fn from_parts(descriptor: Descriptor, fingerprints: Vec<u8>) -> (r: Option<BinaryFuse8>)
        ensures
            (BinaryFuseParts { descriptor, fingerprints: fingerprints@ }).wf() <==> r is Some,
            r matches Some(f) ==> f@ == (BinaryFuseParts { descriptor, fingerprints: fingerprints@ }),
    {
        if check_slots(&descriptor, fingerprints.len()) {
            Some(BinaryFuse8 { descriptor, fingerprints })
        } else {
            None
        }
    }

    /// The seed and the layout of the filter.
    pub fn descriptor(&self) -> (r: Descriptor)
        ensures
            r == self@.descriptor,
            self@.wf(),
    {
        proof {
            use_type_invariant(self);
        }
        self.descriptor
    }

    /// The fingerprints for the filter.
    pub fn fingerprints(&self) -> (r: &[u8])
        ensures
            r@ == self@.fingerprints,
            self@.wf(),
    {
        proof {
            use_type_invariant(self);
        }
        self.fingerprints.as_slice()
    }

    /// Writes the serialized descriptor to the first `DESCRIPTOR_LEN` bytes
    /// of `out`.
    pub fn dma_copy_descriptor_to(&self, out: &mut [u8])
        requires
            old(out)@.len() >= DESCRIPTOR_LEN,
        ensures
            final(out)@ == descriptor_bytes(self@.descriptor) + old(out)@.subrange(
                DESCRIPTOR_LEN as int,
                old(out)@.len() as int,
            ),
    {
        serialize_bfuse_descriptor(&self.descriptor, out)
    }

    /// The fingerprints as a packed array of bytes.
    pub fn dma_fingerprints(&self) -> (r: &[u8])
        ensures
            r@ == encode_le(self@.fingerprints),
    {
        proof {
            lemma_encode_bytes(self.fingerprints@);
        }
        self.fingerprints.as_slice()
    }
}

impl Clone for BinaryFuse8 {
    /// Duplicates the descriptor and the fingerprint array.
    fn clone(&self) -> (r: BinaryFuse8)
        ensures
            r@ == self@,
    {
        proof {
            use_type_invariant(self);
        }
        let fingerprints = self.fingerprints.clone();
        assert(fingerprints@ =~= self.fingerprints@);
        BinaryFuse8 { descriptor: self.descriptor, fingerprints }
    }
}

impl Filter<u64> for BinaryFuse8 {
    open spec fn contains_spec(&self, key: &u64) -> bool {
        self@.contains(*key)
    }

    open spec fn len_spec(&self) -> nat {
        self@.fingerprints.len()
    }

    /// Returns `true` if the filter contains the specified key.
    /// Has a false positive rate of <0.4%.
    /// Has no false negatives.
    fn contains(&self, key: &u64) -> (r: bool) {
        proof {
            use_type_invariant(self);
        }
        bfuse_contains::<u8>(&self.descriptor, self.fingerprints.as_slice(), *key)
    }

    fn len(&self) -> (r: usize) {
        self.fingerprints.len()
    }
}

/// Like `BinaryFuse8` except that it can be constructed 0-copy from
/// external buffers.
#[derive(Debug, Clone, Copy)]
pub struct BinaryFuse8Ref<'a> {
    descriptor: Descriptor,
    fingerprints: &'a [u8],
}

impl<'a> View for BinaryFuse8Ref<'a> {
    type V = BinaryFuseParts<u8>;

    closed spec fn view(&self) -> BinaryFuseParts<u8> {
        borrowed_parts::<u8>(self.descriptor, self.fingerprints@)
    }
}

impl<'a> BinaryFuse8Ref<'a> {
    /// The alignment, in bytes, that the fingerprints are stored with.
    pub const FINGERPRINT_ALIGNMENT: usize = 1;

    #[verifier::type_invariant]
    spec fn well_formed(self) -> bool {
        fits::<u8>(self.descriptor, self.fingerprints@)
    }

    /// Makes a filter of a serialized descriptor and of packed
    /// fingerprints, which it borrows. The two must belong together: the
    /// descriptor is well formed, and the fingerprints are as many whole
    /// ones as the descriptor has slots.
    pub fn from_dma(descriptor: &[u8], fingerprints: &'a [u8]) -> (r: BinaryFuse8Ref<'a>)
        requires
            descriptor@.len() >= DESCRIPTOR_LEN,
            fits::<u8>(parse_descriptor_spec(descriptor@), fingerprints@),
        ensures
            r@ == borrowed_parts::<u8>(parse_descriptor_spec(descriptor@), fingerprints@),
    {
        BinaryFuse8Ref { descriptor: parse_bfuse_descriptor(descriptor), fingerprints }
    }

    /// Like `from_dma`, but checks first whether the two belong together,
    /// and gives `None` if they do not.
    pub fn try_from_dma(descriptor: &[u8], fingerprints: &'a [u8]) -> (r: Option<
        BinaryFuse8Ref<'a>,
    >)
        ensures
            r is Some <==> descriptor@.len() >= DESCRIPTOR_LEN && fits::<u8>(
                parse_descriptor_spec(descriptor@),
                fingerprints@,
            ),
            r matches Some(f) ==> f@ == borrowed_parts::<u8>(
                parse_descriptor_spec(descriptor@),
                fingerprints@,
            ),
    {
        if descriptor.len() < DESCRIPTOR_LEN {
            return None;
        }
        let parsed = parse_bfuse_descriptor(descriptor);
        if check_fits::<u8>(&parsed, fingerprints.len()) {
            Some(BinaryFuse8Ref { descriptor: parsed, fingerprints })
        } else {
            None
        }
    }

    /// The seed and the layout of the filter.
    pub fn descriptor(&self) -> (r: Descriptor)
        ensures
            r == self@.descriptor,
    {
        self.descriptor
    }
}

impl<'a> Filter<u64> for BinaryFuse8Ref<'a> {
    open spec fn contains_spec(&self, key: &u64) -> bool {
        self@.contains(*key)
    }

    open spec fn len_spec(&self) -> nat {
        self@.fingerprints.len()
    }

    /// Returns `true` if the filter contains the specified key.
    /// Has a false positive rate of <0.4%.
    /// Has no false negatives.
    fn contains(&self, key: &u64) -> (r: bool) {
        proof {
            use_type_invariant(self);
        }
        bfuse_contains_le::<u8>(&self.descriptor, self.fingerprints, *key)
    }

    fn len(&self) -> (r: usize) {
        proof {
            use_type_invariant(self);
            lemma_borrowed_len::<u8>(self.fingerprints@);
        }
        self.fingerprints.len() / 1
    }
}

} // verus!
