//! Approximate-membership filters for sets of 64-bit keys: the Xor family,
//! the Binary Fuse family and the older Fuse family, with machine-checked
//! construction and query.
//!
//! A filter is built once from a set of distinct keys and is immutable
//! afterwards. It answers `contains` with no false negative and with a
//! false-positive rate near 2^-W, where W is the width of the stored
//! fingerprints. A build ends with a filter that holds every key, or with an
//! error; which of the two is a function of the keys alone.

pub mod bfuse;
pub mod bfuse16;
pub mod bfuse32;
pub mod bfuse8;
pub mod distinct;
pub mod dma;
pub mod fill;
pub mod fingerprint;
pub mod fuse;
pub mod fuse16;
pub mod fuse32;
pub mod fuse8;
pub mod graph;
pub mod hashing;
pub mod murmur3;
pub mod sizing;
pub mod splitmix64;
pub mod xor;
pub mod xor16;
pub mod xor32;
pub mod xor8;

pub use bfuse16::{BinaryFuse16, BinaryFuse16Ref};
pub use bfuse32::{BinaryFuse32, BinaryFuse32Ref};
pub use bfuse8::{BinaryFuse8, BinaryFuse8Ref};
pub use bfuse::Descriptor;
pub use distinct::all_distinct;
pub use fill::Fill;
pub use fuse16::Fuse16;
pub use fuse32::Fuse32;
pub use fuse8::Fuse8;
pub use xor16::{Xor16, Xor16Ref};
pub use xor32::{Xor32, Xor32Ref};
pub use xor8::{Xor8, Xor8Ref};

use vstd::prelude::*;

verus! {

/// Methods common to xor filters.
pub trait Filter<Type> {
    /// Membership as the filter sees it, as a function of the filter and the
    /// key alone.
    spec fn contains_spec(&self, key: &Type) -> bool;

    /// The number of fingerprints in the filter.
    spec fn len_spec(&self) -> nat;

    /// Returns `true` if the filter probably contains the specified key.
    ///
    /// There can never be a false negative, but there is a small possibility
    /// of false positives. Whatever the answer is, it is the same each time
    /// the same filter is asked about the same key.
    fn contains(&self, key: &Type) -> (r: bool)
        ensures
            r == self.contains_spec(key),
    ;

    /// Returns the number of fingerprints in the filter.
    fn len(&self) -> (r: usize)
        ensures
            r == self.len_spec(),
    ;
}

} // verus!
