//! The check that a collection of keys holds no key twice.

use std::collections::BTreeSet;
use vstd::prelude::*;

verus! {

/// The order of `u64` is the one that an ordered set relies on.
proof fn lemma_keys_are_ordered()
    ensures
        vstd::laws_cmp::obeys_cmp::<u64>(),
{
    broadcast use vstd::laws_cmp::group_laws_cmp;

}

/// Checks if a collection of keys has all distinct values.
pub fn all_distinct(keys: &[u64]) -> (r: bool)
    ensures
        r == keys@.no_duplicates(),
{
    let mut seen: BTreeSet<u64> = BTreeSet::new();
    let mut i: usize = 0;
    while i < keys.len()
        invariant
            i <= keys@.len(),
            forall|x: u64| seen@.contains(x) <==> exists|j: int| 0 <= j < i && keys@[j] == x,
            forall|a: int, b: int| 0 <= a < b < i ==> keys@[a] != keys@[b],
        decreases keys@.len() - i,
    {
        let key = keys[i];
        let ghost before = seen@;
        proof {
            lemma_keys_are_ordered();
        }
        let fresh = seen.insert(key);
        if !fresh {
            proof {
                let j = choose|j: int| 0 <= j < i && keys@[j] == key;
                assert(keys@[j] == keys@[i + 0]);
            }
            return false;
        }
        proof {
            assert forall|x: u64| seen@.contains(x) <==> exists|j: int|
                0 <= j < i + 1 && keys@[j] == x by {
                if seen@.contains(x) {
                    if x == key {
                        assert(keys@[i + 0] == x);
                    } else {
                        assert(before.contains(x));
                        let j = choose|j: int| 0 <= j < i && keys@[j] == x;
                        assert(0 <= j < i + 1 && keys@[j] == x);
                    }
                }
                if exists|j: int| 0 <= j < i + 1 && keys@[j] == x {
                    let j = choose|j: int| 0 <= j < i + 1 && keys@[j] == x;
                    if j < i {
                        assert(before.contains(x));
                    }
                }
            }
        }
        i += 1;
    }
    true
}

} // verus!
