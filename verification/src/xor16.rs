//! Xor filters with 16-bit fingerprints.

use crate::dma::{
    check_xor_fits, encode_le, parse_xor_descriptor, serialize_xor_descriptor, xor_block_length_spec,
    xor_borrowed_parts, xor_contains_le, xor_descriptor_bytes, xor_fits, xor_seed_spec,
    XOR_DESCRIPTOR_LEN,
};
use crate::dma::{encode_fingerprints, lemma_borrowed_len};
use crate::xor::{max_keys, xor_build, xor_build_result, xor_contains, XorParts};
use crate::Filter;
use vstd::prelude::*;

verus! {

/// Xor filter using 16-bit fingerprints.
///
/// An `Xor16` filter uses <20 bits per entry of the set is it
/// constructed from, and has a false positive rate of <0.002%. As with other
/// probabilistic filters, a higher number of entries decreases the bits per
/// entry but increases the false positive rate.
///
/// An `Xor16` is constructed from a set of 64-bit unsigned integers and is
/// immutable.
#[derive(Debug)]
pub struct Xor16 {
    seed: u64,
    block_length: usize,
    fingerprints: Vec<u16>,
}

impl View for Xor16 {
    type V = XorParts<u16>;

    closed spec fn view(&self) -> XorParts<u16> {
        XorParts {
            seed: self.seed,
            block_length: self.block_length,
            fingerprints: self.fingerprints@,
        }
    }
}

impl Xor16 {
    /// The number of bytes of the serialized descriptor.
    pub const DESCRIPTOR_LEN: usize = XOR_DESCRIPTOR_LEN;

    #[verifier::type_invariant]
    spec fn well_formed(self) -> bool {
        self@.wf()
    }

    /// Construct the filter from a slice of keys.
    ///
    /// The keys must be distinct: keys that are not are refused with an
    /// error. The build is a function of the keys alone.
    pub fn from_iterator(keys: &[u64]) -> (r: Result<Xor16, &'static str>)
        requires
            keys@.len() <= max_keys(),
        ensures
            xor_build_result(
                keys@,
                match r {
                    Ok(f) => Some(f@),
                    Err(_) => None,
                },
                match r {
                    Ok(_) => None,
                    Err(e) => Some(e),
                },
            ),
    {
        match xor_build::<u16>(keys) {
            Ok((seed, block_length, fingerprints)) => Ok(Xor16 { seed, block_length, fingerprints }),
            Err(e) => Err(e),
        }
    }

    /// Makes a filter of parts that fit together, and `None` of others.
    pub fn from_parts(seed: u64, block_length: usize, fingerprints: Vec<u16>) -> (r: Option<Xor16>)
        ensures
            (XorParts { seed, block_length, fingerprints: fingerprints@ }).wf() <==> r is Some,
            r matches Some(f) ==> f@ == (XorParts { seed, block_length, fingerprints: fingerprints@ }),
    {
        if 0 < block_length && block_length <= 0xffff_ffff && fingerprints.len() % 3 == 0
            && fingerprints.len() / 3 == block_length {
            Some(Xor16 { seed, block_length, fingerprints })
        } else {
            None
        }
    }

    /// The seed for the filter.
    pub fn seed(&self) -> (r: u64)
        ensures
            r == self@.seed,
            self@.wf(),
    {
        proof {
            use_type_invariant(self);
        }
        self.seed
    }

    /// The length of each of the three blocks of the filter.
    pub fn block_length(&self) -> (r: usize)
        ensures
            r == self@.block_length,
            self@.wf(),
    {
        proof {
            use_type_invariant(self);
        }
        self.block_length
    }

    /// The fingerprints for the filter.
    pub fn fingerprints(&self) -> (r: &[u16])
        ensures
            r@ == self@.fingerprints,
            self@.wf(),
    {
        proof {
            use_type_invariant(self);
        }
        self.fingerprints.as_slice()
    }

    /// Writes the serialized descriptor to the first `DESCRIPTOR_LEN` bytes
    /// of `out`.
    pub fn dma_copy_descriptor_to(&self, out: &mut [u8])
        requires
            old(out)@.len() >= XOR_DESCRIPTOR_LEN,
        ensures
            final(out)@ == xor_descriptor_bytes(self@.seed, self@.block_length) + old(out)@.subrange(
                XOR_DESCRIPTOR_LEN as int,
                old(out)@.len() as int,
            ),
    {
        serialize_xor_descriptor(self.seed, self.block_length, out)
    }

    /// The fingerprints as a packed little-endian array of bytes.
    pub fn dma_fingerprints(&self) -> (r: Vec<u8>)
        ensures
            r@ == encode_le(self@.fingerprints),
    {
        encode_fingerprints(self.fingerprints.as_slice())
    }
}

impl Clone for Xor16 {
    /// Duplicates the seed, the block length and the fingerprint array.
    fn clone(&self) -> (r: Xor16)
        ensures
            r@ == self@,
    {
        proof {
            use_type_invariant(self);
        }
        let fingerprints = self.fingerprints.clone();
        assert(fingerprints@ =~= self.fingerprints@);
        Xor16 { seed: self.seed, block_length: self.block_length, fingerprints }
    }
}

impl Filter<u64> for Xor16 {
    open spec fn contains_spec(&self, key: &u64) -> bool {
        self@.contains(*key)
    }

    open spec fn len_spec(&self) -> nat {
        self@.fingerprints.len()
    }

    /// Returns `true` if the filter contains the specified key. Has a false
    /// positive rate of <0.002%.
    fn contains(&self, key: &u64) -> (r: bool) {
        proof {
            use_type_invariant(self);
        }
        xor_contains::<u16>(self.seed, self.block_length, self.fingerprints.as_slice(), *key)
    }

    fn len(&self) -> (r: usize) {
        self.fingerprints.len()
    }
}

/// Like `Xor16` except that it can be constructed 0-copy from external
/// buffers.
#[derive(Debug, Clone, Copy)]
pub struct Xor16Ref<'a> {
    seed: u64,
    block_length: usize,
    fingerprints: &'a [u8],
}

impl<'a> View for Xor16Ref<'a> {
    type V = XorParts<u16>;

    closed spec fn view(&self) -> XorParts<u16> {
        xor_borrowed_parts::<u16>(self.seed, self.block_length, self.fingerprints@)
    }
}

impl<'a> Xor16Ref<'a> {
    /// The alignment, in bytes, that the fingerprints are stored with.
    pub const FINGERPRINT_ALIGNMENT: usize = 2;

    #[verifier::type_invariant]
    spec fn well_formed(self) -> bool {
        xor_fits::<u16>(self.block_length as int, self.fingerprints@)
    }

    /// Makes a filter of a serialized descriptor and of packed
    /// fingerprints, which it borrows. The two must belong together: the
    /// fingerprints are three blocks of whole ones, each of the block length
    /// that the descriptor names.
    pub fn from_dma(descriptor: &[u8], fingerprints: &'a [u8]) -> (r: Xor16Ref<'a>)
        requires
            descriptor@.len() >= XOR_DESCRIPTOR_LEN,
            xor_fits::<u16>(xor_block_length_spec(descriptor@) as int, fingerprints@),
        ensures
            r@ == xor_borrowed_parts::<u16>(
                xor_seed_spec(descriptor@),
                xor_block_length_spec(descriptor@) as usize,
                fingerprints@,
            ),
    {
        let (seed, block_length) = parse_xor_descriptor(descriptor);
        Xor16Ref { seed, block_length: block_length as usize, fingerprints }
    }

    /// Like `from_dma`, but checks first whether the two belong together,
    /// and gives `None` if they do not.
    pub fn try_from_dma(descriptor: &[u8], fingerprints: &'a [u8]) -> (r: Option<Xor16Ref<'a>>)
        ensures
            r is Some <==> descriptor@.len() >= XOR_DESCRIPTOR_LEN && xor_fits::<u16>(
                xor_block_length_spec(descriptor@) as int,
                fingerprints@,
            ),
            r matches Some(f) ==> f@ == xor_borrowed_parts::<u16>(
                xor_seed_spec(descriptor@),
                xor_block_length_spec(descriptor@) as usize,
                fingerprints@,
            ),
    {
        if descriptor.len() < XOR_DESCRIPTOR_LEN {
            return None;
        }
        let (seed, block_length) = parse_xor_descriptor(descriptor);
        if check_xor_fits::<u16>(block_length, fingerprints.len()) {
            Some(Xor16Ref { seed, block_length: block_length as usize, fingerprints })
        } else {
            None
        }
    }
}

impl<'a> Filter<u64> for Xor16Ref<'a> {
    open spec fn contains_spec(&self, key: &u64) -> bool {
        self@.contains(*key)
    }

    open spec fn len_spec(&self) -> nat {
        self@.fingerprints.len()
    }

    /// Returns `true` if the filter contains the specified key. Has a false
    /// positive rate of <0.002%.
    fn contains(&self, key: &u64) -> (r: bool) {
        proof {
            use_type_invariant(self);
        }
        xor_contains_le::<u16>(self.seed, self.block_length, self.fingerprints, *key)
    }

    fn len(&self) -> (r: usize) {
        proof {
            use_type_invariant(self);
            lemma_borrowed_len::<u16>(self.fingerprints@);
        }
        self.fingerprints.len() / 2
    }
}

} // verus!
