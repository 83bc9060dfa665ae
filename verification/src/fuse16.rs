//! Implements Fuse16 filters.

use crate::fuse::{
    fuse_build, fuse_build_filled, fuse_build_result, fuse_contains, max_segment_length,
    FuseParts, SLOTS,
};
use crate::fill::Fill;
use crate::Filter;
use vstd::prelude::*;

verus! {

/// Xor filter using 16-bit fingerprints in a fuse graph. Requires less
/// space than an `Xor16`.
///
/// A `Fuse16` filter uses <18.202 bits per entry of the set is it
/// constructed from, and has a false positive rate of <0.002%. As with other
/// probabilistic filters, a higher number of entries decreases the bits per
/// entry but increases the false positive rate.
///
/// A `Fuse16` filter uses less space and is faster to construct than an
/// `Xor16` filter, but requires a large number of keys to be constructed.
/// Experimentally, this number is somewhere >100_000. For smaller key sets,
/// prefer the `Xor16` filter. A `Fuse16` filter may fail to be
/// constructed. Where there is a choice, prefer a `BinaryFuse16`.
///
/// A `Fuse16` is constructed from a set of 64-bit unsigned integers and is
/// immutable.
#[derive(Debug)]
pub struct Fuse16 {
    seed: u64,
    segment_length: usize,
    fingerprints: Vec<u16>,
}

impl View for Fuse16 {
    type V = FuseParts<u16>;

    closed spec fn view(&self) -> FuseParts<u16> {
        FuseParts {
            seed: self.seed,
            segment_length: self.segment_length,
            fingerprints: self.fingerprints@,
        }
    }
}

impl Fuse16 {
    #[verifier::type_invariant]
    spec fn well_formed(self) -> bool {
        self@.wf()
    }

    /// Try to construct the filter from a slice of keys, with `capacity`
    /// slots asked for: the number of keys times the overhead of a fuse
    /// graph, rounded down.
    ///
    /// The keys must be distinct: keys that are not are refused with an
    /// error. The build is a function of the keys and the capacity alone.
    pub fn try_from_iterator(keys: &[u64], capacity: usize) -> (r: Result<Fuse16, &'static str>)
        requires
            keys@.len() <= u32::MAX,
            keys@.len() == 0 || SLOTS <= capacity,
            capacity as int / SLOTS as int <= max_segment_length(),
        ensures
            fuse_build_result(
                keys@,
                capacity,
                Fill::Zero,
                match r {
                    Ok(f) => Some(f@),
                    Err(_) => None,
                },
                match r {
                    Ok(_) => None,
                    Err(e) => Some(e),
                },
            ),
    {
        match fuse_build::<u16>(keys, capacity) {
            Ok((seed, segment_length, fingerprints)) => Ok(
                Fuse16 { seed, segment_length, fingerprints },
            ),
            Err(e) => Err(e),
        }
    }

    /// Like `try_from_iterator`, but the slots that no key needs are left
    /// with what `fill` says.
    pub fn try_from_iterator_with_fill(keys: &[u64], capacity: usize, fill: Fill) -> (r: Result<
        Fuse16,
        &'static str,
    >)
        requires
            keys@.len() <= u32::MAX,
            keys@.len() == 0 || SLOTS <= capacity,
            capacity as int / SLOTS as int <= max_segment_length(),
        ensures
            fuse_build_result(
                keys@,
                capacity,
                fill,
                match r {
                    Ok(f) => Some(f@),
                    Err(_) => None,
                },
                match r {
                    Ok(_) => None,
                    Err(e) => Some(e),
                },
            ),
    {
        match fuse_build_filled::<u16>(keys, capacity, fill) {
            Ok((seed, segment_length, fingerprints)) => Ok(
                Fuse16 { seed, segment_length, fingerprints },
            ),
            Err(e) => Err(e),
        }
    }

    /// Makes a filter of parts that fit together, and `None` of others.
    pub fn from_parts(seed: u64, segment_length: usize, fingerprints: Vec<u16>) -> (r: Option<
        Fuse16,
    >)
        ensures
            (FuseParts { seed, segment_length, fingerprints: fingerprints@ }).wf() <==> r is Some,
            r matches Some(f) ==> f@ == (FuseParts {
                seed,
                segment_length,
                fingerprints: fingerprints@,
            }),
    {
        if segment_length as u64 <= 0xffff_ffff && fingerprints.len() % SLOTS == 0
            && fingerprints.len() / SLOTS == segment_length {
            Some(Fuse16 { seed, segment_length, fingerprints })
        } else {
            None
        }
    }

    /// The seed for the filter.
    pub fn seed(&self) -> (r: u64)
        ensures
            r == self@.seed,
            self@.wf(),
    {
        proof {
            use_type_invariant(self);
        }
        self.seed
    }

    /// The length of each of the segments of the filter.
    pub fn segment_length(&self) -> (r: usize)
        ensures
            r == self@.segment_length,
            self@.wf(),
    {
        proof {
            use_type_invariant(self);
        }
        self.segment_length
    }

    /// The fingerprints for the filter.
    pub fn fingerprints(&self) -> (r: &[u16])
        ensures
            r@ == self@.fingerprints,
            self@.wf(),
    {
        proof {
            use_type_invariant(self);
        }
        self.fingerprints.as_slice()
    }
}

impl Clone for Fuse16 {
    /// Duplicates the seed, the segment length and the fingerprint array.
    fn clone(&self) -> (r: Fuse16)
        ensures
            r@ == self@,
    {
        proof {
            use_type_invariant(self);
        }
        let fingerprints = self.fingerprints.clone();
        assert(fingerprints@ =~= self.fingerprints@);
        Fuse16 { seed: self.seed, segment_length: self.segment_length, fingerprints }
    }
}

impl Filter<u64> for Fuse16 {
    open spec fn contains_spec(&self, key: &u64) -> bool {
        self@.contains(*key)
    }

    open spec fn len_spec(&self) -> nat {
        self@.fingerprints.len()
    }

    /// Returns `true` if the filter contains the specified key. Has a false
    /// positive rate of <0.002%.
    fn contains(&self, key: &u64) -> (r: bool) {
        proof {
            use_type_invariant(self);
        }
        fuse_contains::<u16>(self.seed, self.segment_length, self.fingerprints.as_slice(), *key)
    }

    fn len(&self) -> (r: usize) {
        self.fingerprints.len()
    }
}

} // verus!
