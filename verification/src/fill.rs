//! What a builder leaves in the slots that no key needs.
//!
//! Some slots of a filter are touched by no key. If they all hold zero, a
//! value whose fingerprint is zero is taken for a key more often than other
//! values are. Filling the slots with random values first evens this out, at
//! the price of drawing the values.

use crate::fingerprint::Fingerprint;
use vstd::prelude::*;

verus! {

/// The choice of what the slots that no key needs are left with.
#[derive(Clone, Copy, Debug, PartialEq, Eq, Structural)]
pub enum Fill {
    /// Every such slot holds zero. This is what a builder does unless it is
    /// told otherwise, and the only choice under which a build is a
    /// function of the keys alone.
    Zero,
    /// Every such slot holds a value that was drawn at random.
    UniformRandom,
}

/// Draws 64 bits from the random number generator of the thread by a call
/// of `rand::random`. The generator is seeded by the system when the thread
/// first uses it. Nothing is claimed of the value: two calls may give
/// different values, or the same.
#[verifier::external_body]
fn random_word() -> u64 {
    rand::random::<u64>()
}

/// A block of `len` zero fingerprints.
pub fn zero_fingerprints<F: Fingerprint>(len: usize) -> (r: Vec<F>)
    ensures
        r.len() == len,
        forall|i: int| 0 <= i < len ==> (#[trigger] r[i]).bits() == 0,
{
    let mut block: Vec<F> = Vec::with_capacity(len);
    let mut i: usize = 0;
    while i < len
        invariant
            i <= len,
            block.len() == i,
            forall|j: int| 0 <= j < i ==> (#[trigger] block[j]).bits() == 0,
        decreases len - i,
    {
        block.push(F::zero());
        i += 1;
    }
    block
}

/// A block of `len` fingerprints drawn at random: each is the fingerprint
/// of 64 random bits. The draw panics if the system fails the generator: if
/// it gives no entropy when the thread first draws or when the generator
/// reseeds itself.
pub fn random_fingerprints<F: Fingerprint>(len: usize) -> (r: Vec<F>)
    ensures
        r.len() == len,
{
    let mut block: Vec<F> = Vec::with_capacity(len);
    let mut i: usize = 0;
    while i < len
        invariant
            i <= len,
            block.len() == i,
        decreases len - i,
    {
        block.push(F::from_hash(random_word()));
        i += 1;
    }
    block
}

/// Creates a block to store output fingerprints, filled as `fill` says.
pub fn make_fp_block<F: Fingerprint>(len: usize, fill: Fill) -> (r: Vec<F>)
    ensures
        r.len() == len,
        fill == Fill::Zero ==> forall|i: int| 0 <= i < len ==> (#[trigger] r[i]).bits() == 0,
{
    match fill {
        Fill::Zero => zero_fingerprints(len),
        Fill::UniformRandom => random_fingerprints(len),
    }
}

} // verus!
