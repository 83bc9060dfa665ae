//! The Xor family: three blocks of slots, one slot of every block per key.
//! This module holds the layout, the query and the builder that all widths
//! share.

use crate::distinct::all_distinct;
use crate::fingerprint::Fingerprint;
use crate::graph::{
    below, lemma_assign_keeps, lemma_assign_solves, lemma_distinct_bounded, lemma_distinct_misses,
    lemma_peeled, lemma_stuck, lemma_tally_agree, lemma_tally_bound, lemma_tally_insert,
    lemma_tally_remove, lemma_tally_single, lemma_xor_fingerprints, lemma_xor_hashes, peelable,
    solved, tally, tally_all, Edge, Tally,
};
use crate::hashing::{
    hashes_to, lemma_reduce_bound, mix, mix_spec, reduce, reduce_spec, rotl64, rotl64_spec,
};
use crate::splitmix64::{seed_of_attempt, splitmix64, state_after};
use vstd::prelude::*;

verus! {

/// A set of hashes indexing three blocks.
pub struct HashSet {
    /// Key hash
    pub hash: u64,
    /// Indexing hashes h_0, h_1, h_2 created with `hash`.
    pub hset: [usize; 3],
}

/// The hash of a key and the index of that key in the construction array H.
#[derive(Clone, Copy)]
pub struct KeyIndex {
    pub hash: u64,
    pub index: usize,
}

/// A set in the construction array H. Elements are encoded via xor with the mask.
pub struct HSet {
    pub count: u32,
    pub mask: u64,
}

/// The index that `hash` selects inside block `block` of length `block_length`.
pub open spec fn block_index(hash: u64, block: int, block_length: int) -> int {
    reduce_spec(rotl64_spec(hash, (21 * block) as u32) as u32, block_length)
}

/// The first slot of block `block`.
pub open spec fn block_start(block: int, block_length: int) -> int {
    if block == 0 {
        0
    } else if block == 1 {
        block_length
    } else {
        2 * block_length
    }
}

/// The edge of `hash` in a filter of three blocks of length `block_length`.
pub open spec fn xor_edge(hash: u64, block_length: int) -> Edge {
    Edge {
        hash,
        s0: block_index(hash, 0, block_length),
        s1: block_length + block_index(hash, 1, block_length),
        s2: 2 * block_length + block_index(hash, 2, block_length),
    }
}

/// The three slots of an edge lie one in each block.
pub proof fn lemma_xor_edge_fits(hash: u64, block_length: int)
    requires
        0 < block_length,
    ensures
        xor_edge(hash, block_length).fits(3 * block_length),
        0 <= block_index(hash, 0, block_length) < block_length,
        0 <= block_index(hash, 1, block_length) < block_length,
        0 <= block_index(hash, 2, block_length) < block_length,
{
    lemma_reduce_bound(rotl64_spec(hash, 0) as u32, block_length);
    lemma_reduce_bound(rotl64_spec(hash, 21) as u32, block_length);
    lemma_reduce_bound(rotl64_spec(hash, 42) as u32, block_length);
}

/// Computes a hash indexing the `block`'th filter block.
pub fn xor_h(block: usize, block_length: usize, hash: u64) -> (r: usize)
    requires
        block < 3,
        block_length <= u32::MAX,
    ensures
        r == block_index(hash, block as int, block_length as int),
        block_length > 0 ==> r < block_length,
{
    let by: u32 = if block == 0 {
        0
    } else if block == 1 {
        21
    } else {
        42
    };
    let rot: u32 = rotl64(hash, by) as u32;
    reduce(rot, block_length)
}

impl HashSet {
    /// The hash of `key` under `seed` and the index it selects in each of the
    /// three blocks.
    pub fn xor_from(key: u64, block_length: usize, seed: u64) -> (r: HashSet)
        requires
            block_length <= u32::MAX,
        ensures
            r.hash == mix_spec(key, seed),
            forall|b: int| 0 <= b < 3 ==> r.hset[b] == block_index(r.hash, b, block_length as int),
            block_length > 0 ==> forall|b: int| 0 <= b < 3 ==> r.hset[b] < block_length,
    {
        let hash = mix(key, seed);
        HashSet {
            hash,
            hset: [
                xor_h(0, block_length, hash),
                xor_h(1, block_length, hash),
                xor_h(2, block_length, hash),
            ],
        }
    }

    /// The same as `xor_from`.
    pub fn from(key: u64, block_length: usize, seed: u64) -> (r: HashSet)
        requires
            block_length <= u32::MAX,
        ensures
            r.hash == mix_spec(key, seed),
            forall|b: int| 0 <= b < 3 ==> r.hset[b] == block_index(r.hash, b, block_length as int),
            block_length > 0 ==> forall|b: int| 0 <= b < 3 ==> r.hset[b] < block_length,
    {
        HashSet::xor_from(key, block_length, seed)
    }
}

/// Enqueues a set from the temporary construction array H if the set
/// contains only one key.
pub fn try_enqueue(
    h_block: &Vec<HSet>,
    idx: usize,
    q_block: &mut Vec<KeyIndex>,
    qblock_size: &mut usize,
)
    requires
        idx < h_block.len(),
        h_block[idx as int].count == 1 ==> *old(qblock_size) < old(q_block).len(),
    ensures
        h_block[idx as int].count == 1 ==> {
            &&& *final(qblock_size) == *old(qblock_size) + 1
            &&& final(q_block)@ == old(q_block)@.update(
                *old(qblock_size) as int,
                KeyIndex { hash: h_block[idx as int].mask, index: idx },
            )
        },
        h_block[idx as int].count != 1 ==> {
            &&& *final(qblock_size) == *old(qblock_size)
            &&& final(q_block)@ == old(q_block)@
        },
{
    if h_block[idx].count == 1 {
        // If there is only one key, the mask contains it wholly.
        q_block[*qblock_size] = KeyIndex { hash: h_block[idx].mask, index: idx };
        *qblock_size += 1;
    }
}

/// The number of slots of a filter for `num_keys` keys: 1.23 slots per key
/// and 32 more, rounded down to a multiple of three.
pub open spec fn xor_capacity(num_keys: int) -> int {
    (123 * num_keys / 100 + 32) / 3 * 3
}

/// The length of each of the three blocks of a filter for `num_keys` keys.
pub open spec fn xor_block_length(num_keys: int) -> int {
    xor_capacity(num_keys) / 3
}

/// The most keys that a filter of this family is built from: with more the
/// slot counters, which are 32 bits wide, could overflow.
pub open spec fn max_keys() -> int {
    if usize::MAX < 0xffff_ffff_ffff {
        0x4000_0000
    } else {
        0xffff_ffff
    }
}

/// Computes the length of each of the three blocks for `num_keys` keys.
pub fn block_length_for(num_keys: usize) -> (r: usize)
    requires
        num_keys <= max_keys(),
    ensures
        r == xor_block_length(num_keys as int),
        10 <= r <= u32::MAX,
        3 * r <= usize::MAX,
        3 * r == xor_capacity(num_keys as int),
{
    let n: u64 = num_keys as u64;
    let capacity: u64 = 123 * n / 100 + 32;
    let block_length: u64 = capacity / 3;
    block_length as usize
}

/// The edges of `keys` under `seed`, in the order of the keys.
pub open spec fn xor_edges(keys: Seq<u64>, seed: u64, block_length: int) -> Seq<Edge> {
    Seq::new(keys.len(), |i: int| xor_edge(mix_spec(keys[i], seed), block_length))
}

/// Computes the first slot of block `block`.
fn block_offset(block: usize, block_length: usize) -> (r: usize)
    requires
        block < 3,
        3 * block_length <= usize::MAX,
    ensures
        r == block_start(block as int, block_length as int),
{
    if block == 0 {
        0
    } else if block == 1 {
        block_length
    } else {
        2 * block_length
    }
}

/// The state of one build attempt: the construction array H, the queues Q
/// of slots that may hold a single key, and the stack of keys taken away so
/// far. The ghost fields say which graph is being peeled and how far.
struct Peeler {
    block_length: usize,
    sets: Vec<Vec<HSet>>,
    queues: Vec<Vec<KeyIndex>>,
    q_sizes: Vec<usize>,
    stack: Vec<KeyIndex>,
    stack_size: usize,
    edges: Ghost<Seq<Edge>>,
    alive: Ghost<Set<int>>,
    order: Ghost<Seq<int>>,
    frozen: Ghost<Set<int>>,
}

impl Peeler {
    spec fn slot_at(self, block: int, idx: int) -> int {
        block_start(block, self.block_length as int) + idx
    }

    /// The sizes of the arrays, and the graph is one of this layout.
    spec fn shaped(self) -> bool {
        &&& 0 < self.block_length <= u32::MAX
        &&& 3 * self.block_length <= usize::MAX
        &&& self.sets.len() == 3
        &&& self.queues.len() == 3
        &&& self.q_sizes.len() == 3
        &&& forall|b: int| 0 <= b < 3 ==> (#[trigger] self.sets[b]).len() == self.block_length
        &&& forall|b: int| 0 <= b < 3 ==> (#[trigger] self.queues[b]).len() == self.block_length
        &&& forall|b: int| 0 <= b < 3 ==> (#[trigger] self.q_sizes[b]) <= self.block_length
        &&& self.stack.len() == self.edges@.len()
        &&& self.edges@.len() <= u32::MAX
        &&& self.stack_size == self.order@.len()
        &&& self.stack_size <= self.edges@.len()
        &&& forall|i: int|
            0 <= i < self.edges@.len() ==> #[trigger] self.edges@[i] == xor_edge(
                self.edges@[i].hash,
                self.block_length as int,
            )
    }

    /// What `post` is after the key of `hash` has left its slot in `block`.
    spec fn detached(pre: Peeler, post: Peeler, block: int, hash: u64) -> bool {
        let idx = block_index(hash, block, pre.block_length as int);
        let before = pre.sets[block][idx];
        let after = HSet { count: (before.count - 1) as u32, mask: before.mask ^ hash };
        &&& post.block_length == pre.block_length
        &&& post.stack@ == pre.stack@
        &&& post.stack_size == pre.stack_size
        &&& post.edges@ == pre.edges@
        &&& post.alive@ == pre.alive@
        &&& post.order@ == pre.order@
        &&& post.frozen@ == pre.frozen@
        &&& post.sets.len() == 3
        &&& post.queues.len() == 3
        &&& post.q_sizes.len() == 3
        &&& forall|b: int|
            0 <= b < 3 && b != block ==> (#[trigger] post.sets[b])@ == pre.sets[b]@
                && post.queues[b]@ == pre.queues[b]@ && post.q_sizes[b] == pre.q_sizes[b]
        &&& post.sets[block]@ =~= pre.sets[block]@.update(idx, after)
        &&& if after.count == 1 {
            &&& post.q_sizes[block] == pre.q_sizes[block] + 1
            &&& post.queues[block]@ =~= pre.queues[block]@.update(
                pre.q_sizes[block] as int,
                KeyIndex { hash: after.mask, index: idx as usize },
            )
        } else {
            &&& post.q_sizes[block] == pre.q_sizes[block]
            &&& post.queues[block]@ == pre.queues[block]@
        }
    }

    /// Removes the key of `hash` from the set that it selects in `block`, and
    /// enqueues that set if it now holds a single key.
    fn detach(&mut self, block: usize, hash: u64)
        requires
            old(self).shaped(),
            block < 3,
            old(self).sets[block as int][block_index(
                hash,
                block as int,
                old(self).block_length as int,
            )].count >= 1,
            old(self).sets[block as int][block_index(
                hash,
                block as int,
                old(self).block_length as int,
            )].count == 2 ==> old(self).q_sizes[block as int] < old(self).block_length,
        ensures
            Peeler::detached(*old(self), *final(self), block as int, hash),
            final(self).shaped(),
    {
        let idx = xor_h(block, self.block_length, hash);
        self.sets[block][idx].mask ^= hash;
        self.sets[block][idx].count -= 1;
        try_enqueue(&self.sets[block], idx, &mut self.queues[block], &mut self.q_sizes[block]);
    }
}

impl Peeler {
    /// Every set that no key was taken through holds the count and the mask
    /// of the keys that are left.
    spec fn counted(self) -> bool {
        forall|b: int, idx: int|
            0 <= b < 3 && 0 <= idx < self.block_length && !self.frozen@.contains(
                self.slot_at(b, idx),
            ) ==> {
                let t = tally_all(self.edges@, self.alive@, self.slot_at(b, idx));
                &&& (#[trigger] self.sets[b][idx]).count == t.count
                &&& self.sets[b][idx].mask == t.mask
            }
    }

    /// The stack holds the keys that were taken, each with the slot through
    /// which it went; no key that is left touches such a slot.
    spec fn ordered(self) -> bool {
        let n = self.edges@.len();
        &&& self.order@.no_duplicates()
        &&& forall|p: int|
            0 <= p < self.order@.len() ==> 0 <= #[trigger] self.order@[p] < n
                && !self.alive@.contains(self.order@[p])
        &&& forall|i: int| self.alive@.contains(i) ==> 0 <= i < n
        &&& forall|i: int| 0 <= i < n && !self.alive@.contains(i) ==> self.order@.contains(i)
        &&& forall|p: int|
            0 <= p < self.stack_size ==> {
                let ki = #[trigger] self.stack[p];
                &&& ki.hash == self.edges@[self.order@[p]].hash
                &&& self.edges@[self.order@[p]].touches(ki.index as int)
                &&& self.frozen@.contains(ki.index as int)
            }
        &&& forall|p: int, q: int|
            0 <= p < q < self.stack_size ==> !self.edges@[#[trigger] self.order@[q]].touches(
                (#[trigger] self.stack[p]).index as int,
            )
        &&& forall|t: int, i: int|
            #![trigger self.frozen@.contains(t), self.alive@.contains(i)]
            self.frozen@.contains(t) && self.alive@.contains(i) ==> !self.edges@[i].touches(t)
    }

    /// Every queue entry names a set of its block that holds at most one
    /// key, and that key if it holds one; no set is named twice.
    spec fn queued(self) -> bool {
        &&& forall|b: int, q: int|
            0 <= b < 3 && 0 <= q < self.q_sizes[b] ==> {
                let e = #[trigger] self.queues[b][q];
                &&& e.index < self.block_length
                &&& !self.frozen@.contains(self.slot_at(b, e.index as int))
                &&& self.sets[b][e.index as int].count <= 1
                &&& self.sets[b][e.index as int].count == 1 ==> e.hash
                    == self.sets[b][e.index as int].mask
            }
        &&& forall|b: int, q1: int, q2: int|
            0 <= b < 3 && 0 <= q1 < q2 < self.q_sizes[b] ==> (#[trigger] self.queues[b][q1]).index
                != (#[trigger] self.queues[b][q2]).index
    }

    /// Every set that holds a single key and through which no key was taken
    /// is in its queue.
    spec fn complete(self) -> bool {
        forall|b: int, idx: int|
            0 <= b < 3 && 0 <= idx < self.block_length && !self.frozen@.contains(
                self.slot_at(b, idx),
            ) && (#[trigger] self.sets[b][idx]).count == 1 ==> exists|q: int|
                0 <= q < self.q_sizes[b] && (#[trigger] self.queues[b][q]).index == idx
    }

    spec fn inv(self) -> bool {
        &&& self.shaped()
        &&& self.counted()
        &&& self.ordered()
        &&& self.queued()
        &&& self.complete()
    }

    /// The number of queue entries.
    spec fn pending(self) -> int {
        self.q_sizes[0] + self.q_sizes[1] + self.q_sizes[2]
    }

    /// Whether `self` is nearer to the end of the peeling than `other`.
    spec fn nearer(self, other: Peeler) -> bool {
        ||| self.stack_size > other.stack_size
        ||| self.stack_size == other.stack_size && self.pending() < other.pending()
    }

    /// A queue has room for a set that holds two keys or more: such a set is
    /// not in the queue yet.
    proof fn lemma_queue_room(self, block: int, idx: int)
        requires
            self.shaped(),
            self.queued(),
            0 <= block < 3,
            0 <= idx < self.block_length,
            self.sets[block][idx].count >= 2,
        ensures
            self.q_sizes[block] < self.block_length,
    {
        let indices = Seq::new(
            self.q_sizes[block] as nat,
            |q: int| self.queues[block][q].index as int,
        );
        let longer = indices.push(idx);
        assert forall|a: int, b: int| 0 <= a < longer.len() && 0 <= b < longer.len() && a != b
            implies longer[a] != longer[b] by {
            if a < indices.len() {
                assert(self.queues[block][a].index < self.block_length);
            }
            if b < indices.len() {
                assert(self.queues[block][b].index < self.block_length);
            }
        }
        assert forall|a: int| 0 <= a < longer.len() implies 0 <= #[trigger] longer[a]
            < self.block_length by {
            if a < indices.len() {
                assert(self.queues[block][a].index < self.block_length);
            }
        }
        lemma_distinct_bounded(longer, self.block_length as int);
    }

    /// What `mid` is after the top entry of the queue of `block` has gone
    /// on the stack as the key `i`.
    spec fn taken(pre: Peeler, mid: Peeler, block: int, i: int) -> bool {
        let q = pre.q_sizes[block] - 1;
        let ki = pre.queues[block][q];
        let slot = pre.slot_at(block, ki.index as int);
        &&& mid.block_length == pre.block_length
        &&& mid.edges@ == pre.edges@
        &&& mid.stack@ == pre.stack@.update(
            pre.stack_size as int,
            KeyIndex { hash: ki.hash, index: slot as usize },
        )
        &&& mid.stack_size == pre.stack_size + 1
        &&& mid.order@ == pre.order@.push(i)
        &&& mid.alive@ == pre.alive@.remove(i)
        &&& mid.frozen@ == pre.frozen@.insert(slot)
        &&& mid.sets.len() == 3
        &&& mid.queues.len() == 3
        &&& mid.q_sizes.len() == 3
        &&& forall|b: int|
            0 <= b < 3 ==> (#[trigger] mid.sets[b])@ == pre.sets[b]@ && mid.queues[b]@
                == pre.queues[b]@
        &&& forall|b: int| 0 <= b < 3 && b != block ==> #[trigger] mid.q_sizes[b] == pre.q_sizes[b]
        &&& mid.q_sizes[block] == q
    }

    /// The key `i` is the one key left in the set that the top entry of the
    /// queue of `block` names.
    spec fn single(pre: Peeler, block: int, i: int) -> bool {
        let q = pre.q_sizes[block] - 1;
        let ki = pre.queues[block][q];
        let slot = pre.slot_at(block, ki.index as int);
        &&& 0 <= i < pre.edges@.len()
        &&& pre.alive@.contains(i)
        &&& pre.edges@[i].touches(slot)
        &&& pre.edges@[i].hash == ki.hash
        &&& forall|j: int|
            0 <= j < pre.edges@.len() && pre.alive@.contains(j) && (
            #[trigger] pre.edges@[j]).touches(slot) ==> j == i
    }

    /// The stack has room for a key that is still in the graph.
    proof fn lemma_stack_room(self, i: int)
        requires
            self.shaped(),
            self.ordered(),
            self.alive@.contains(i),
        ensures
            self.stack_size < self.edges@.len(),
            self.order@.push(i).no_duplicates(),
    {
        let longer = self.order@.push(i);
        assert(longer.no_duplicates());
        lemma_distinct_bounded(longer, self.edges@.len() as int);
    }

    /// The states of one step that takes the key `i` through `block`.
    spec fn stepped(
        pre: Peeler,
        mid0: Peeler,
        mid1: Peeler,
        post: Peeler,
        block: int,
        i: int,
        first: int,
        second: int,
    ) -> bool {
        &&& pre.inv()
        &&& 0 <= block < 3
        &&& 0 <= first < second < 3
        &&& first != block
        &&& second != block
        &&& pre.q_sizes[block] > 0
        &&& Peeler::single(pre, block, i)
        &&& Peeler::taken(pre, mid0, block, i)
        &&& Peeler::detached(mid0, mid1, first, pre.edges@[i].hash)
        &&& Peeler::detached(mid1, post, second, pre.edges@[i].hash)
    }

    proof fn lemma_step_ordered(
        pre: Peeler,
        mid0: Peeler,
        mid1: Peeler,
        post: Peeler,
        block: int,
        i: int,
        first: int,
        second: int,
    )
        requires
            Peeler::stepped(pre, mid0, mid1, post, block, i, first, second),
        ensures
            post.ordered(),
    {
        let n = pre.edges@.len() as int;
        let q = pre.q_sizes[block] - 1;
        let ki = pre.queues[block][q];
        let slot = pre.slot_at(block, ki.index as int);
        let top = pre.stack_size as int;
        pre.lemma_stack_room(i);
        assert(post.order@ == pre.order@.push(i));
        assert(post.stack@ == mid0.stack@);
        assert(post.order@.no_duplicates());
        assert forall|x: int| 0 <= x < n && !post.alive@.contains(x) implies post.order@.contains(
            x,
        ) by {
            if x == i {
                assert(post.order@[top] == i);
            } else {
                assert(pre.order@.contains(x));
                let p = choose|p: int| 0 <= p < pre.order@.len() && pre.order@[p] == x;
                assert(post.order@[p] == x);
            }
        }
        assert forall|p: int| 0 <= p < post.stack_size implies {
            let e = #[trigger] post.stack[p];
            &&& e.hash == post.edges@[post.order@[p]].hash
            &&& post.edges@[post.order@[p]].touches(e.index as int)
            &&& post.frozen@.contains(e.index as int)
        } by {
            if p < top {
                assert(post.stack[p] == pre.stack[p]);
            }
        }
        assert forall|p: int, r: int| 0 <= p < r < post.stack_size implies !post.edges@[
            #[trigger] post.order@[r]].touches((#[trigger] post.stack[p]).index as int) by {
            assert(post.stack[p] == pre.stack[p]);
            if r < top {
                assert(post.order@[r] == pre.order@[r]);
            } else {
                assert(pre.frozen@.contains(pre.stack[p].index as int));
                assert(pre.alive@.contains(i));
            }
        }
        assert forall|t: int, j: int|
            #![trigger post.frozen@.contains(t), post.alive@.contains(j)]
            post.frozen@.contains(t) && post.alive@.contains(j) implies !post.edges@[j].touches(
            t,
        ) by {
            assert(pre.alive@.contains(j));
            if t != slot {
                assert(pre.frozen@.contains(t));
            }
        }
    }

    proof fn lemma_step_queued(
        pre: Peeler,
        mid0: Peeler,
        mid1: Peeler,
        post: Peeler,
        block: int,
        i: int,
        first: int,
        second: int,
    )
        requires
            Peeler::stepped(pre, mid0, mid1, post, block, i, first, second),
        ensures
            post.queued(),
            post.complete(),
            post.shaped(),
    {
        let n = pre.edges@.len() as int;
        let len = pre.block_length as int;
        let top_q = pre.q_sizes[block] - 1;
        let ki = pre.queues[block][top_q];
        let slot = pre.slot_at(block, ki.index as int);
        let edge = pre.edges@[i];
        let hash = edge.hash;
        pre.lemma_stack_room(i);
        lemma_xor_edge_fits(hash, len);
        assert(edge == xor_edge(hash, len));
        assert(mid0.sets[first]@ == pre.sets[first]@);
        assert(mid1.sets[second]@ == mid0.sets[second]@);
        assert(mid0.sets[second]@ == pre.sets[second]@);
        assert(mid0.sets[block]@ == pre.sets[block]@);
        assert(mid1.sets[block]@ == mid0.sets[block]@);
        assert(post.sets[block]@ == mid1.sets[block]@);
        assert(post.sets[first]@ == mid1.sets[first]@);
        assert(mid0.queues[first]@ == pre.queues[first]@);
        assert(mid1.queues[second]@ == mid0.queues[second]@);
        assert(mid0.queues[second]@ == pre.queues[second]@);
        assert(mid0.queues[block]@ == pre.queues[block]@);
        assert(mid1.queues[block]@ == mid0.queues[block]@);
        assert(post.queues[block]@ == mid1.queues[block]@);
        assert(post.queues[first]@ == mid1.queues[first]@);
        assert(mid0.q_sizes[first] == pre.q_sizes[first]);
        assert(mid0.q_sizes[second] == pre.q_sizes[second]);
        assert(mid1.q_sizes[second] == mid0.q_sizes[second]);
        assert(mid1.q_sizes[block] == mid0.q_sizes[block]);
        assert(post.q_sizes[block] == mid1.q_sizes[block]);
        assert(post.q_sizes[first] == mid1.q_sizes[first]);
        let idx1 = block_index(hash, first, len);
        let idx2 = block_index(hash, second, len);
        assert(edge.touches(pre.slot_at(first, idx1)));
        assert(edge.touches(pre.slot_at(second, idx2)));
        assert(!pre.frozen@.contains(pre.slot_at(first, idx1)));
        assert(!pre.frozen@.contains(pre.slot_at(second, idx2)));
        lemma_tally_remove(pre.edges@, pre.alive@, i, pre.slot_at(first, idx1), n);
        lemma_tally_remove(pre.edges@, pre.alive@, i, pre.slot_at(second, idx2), n);
        assert(pre.sets[first][idx1].count >= 1);
        assert(pre.sets[second][idx2].count >= 1);
        if pre.sets[first][idx1].count >= 2 {
            pre.lemma_queue_room(first, idx1);
        }
        if pre.sets[second][idx2].count >= 2 {
            pre.lemma_queue_room(second, idx2);
        }
        assert(post.shaped()) by {
            assert forall|b: int| 0 <= b < 3 implies (#[trigger] post.sets[b]).len() == len by {
                assert(pre.sets[b].len() == len);
            }
            assert forall|b: int| 0 <= b < 3 implies (#[trigger] post.queues[b]).len() == len by {
                assert(pre.queues[b].len() == len);
            }
            assert forall|b: int| 0 <= b < 3 implies (#[trigger] post.q_sizes[b]) <= len by {
                assert(pre.q_sizes[b] <= len);
            }
        }
        assert forall|b: int, q: int| 0 <= b < 3 && 0 <= q < post.q_sizes[b] implies {
            let e = #[trigger] post.queues[b][q];
            &&& e.index < post.block_length
            &&& !post.frozen@.contains(post.slot_at(b, e.index as int))
            &&& post.sets[b][e.index as int].count <= 1
            &&& post.sets[b][e.index as int].count == 1 ==> e.hash == post.sets[b][e.index as int].mask
        } by {
            if q < pre.q_sizes[b] {
                let e = pre.queues[b][q];
                assert(post.queues[b][q] == e);
                assert(e.index < len);
                assert(pre.sets[b][e.index as int].count <= 1);
                if b == block {
                    assert(pre.queues[b][q].index != pre.queues[b][top_q].index);
                }
            }
        }
        assert forall|b: int, q1: int, q2: int|
            0 <= b < 3 && 0 <= q1 < q2 < post.q_sizes[b] implies (
        #[trigger] post.queues[b][q1]).index != (#[trigger] post.queues[b][q2]).index by {
            if q2 < pre.q_sizes[b] {
                assert(post.queues[b][q1] == pre.queues[b][q1]);
                assert(post.queues[b][q2] == pre.queues[b][q2]);
            } else {
                assert(post.queues[b][q1] == pre.queues[b][q1]);
                assert(pre.sets[b][pre.queues[b][q1].index as int].count <= 1);
            }
        }
        assert forall|b: int, idx: int|
            0 <= b < 3 && 0 <= idx < post.block_length && !post.frozen@.contains(
                post.slot_at(b, idx),
            ) && (#[trigger] post.sets[b][idx]).count == 1 implies exists|q: int|
            0 <= q < post.q_sizes[b] && (#[trigger] post.queues[b][q]).index == idx by {
            if b == first && idx == idx1 {
                let q = pre.q_sizes[b] as int;
                assert(post.queues[b][q].index == idx);
            } else if b == second && idx == idx2 {
                let q = pre.q_sizes[b] as int;
                assert(post.queues[b][q].index == idx);
            } else {
                assert(pre.sets[b][idx].count == 1);
                assert(!pre.frozen@.contains(pre.slot_at(b, idx)));
                let q = choose|q: int|
                    0 <= q < pre.q_sizes[b] && (#[trigger] pre.queues[b][q]).index == idx;
                assert(post.queues[b][q] == pre.queues[b][q]);
            }
        }
    }

    proof fn lemma_step_counted(
        pre: Peeler,
        mid0: Peeler,
        mid1: Peeler,
        post: Peeler,
        block: int,
        i: int,
        first: int,
        second: int,
    )
        requires
            Peeler::stepped(pre, mid0, mid1, post, block, i, first, second),
        ensures
            post.counted(),
    {
        let n = pre.edges@.len() as int;
        let len = pre.block_length as int;
        let edge = pre.edges@[i];
        let hash = edge.hash;
        lemma_xor_edge_fits(hash, len);
        assert(edge == xor_edge(hash, len));
        assert forall|b: int, idx: int|
            0 <= b < 3 && 0 <= idx < post.block_length && !post.frozen@.contains(
                post.slot_at(b, idx),
            ) implies {
            let t = tally_all(post.edges@, post.alive@, post.slot_at(b, idx));
            &&& (#[trigger] post.sets[b][idx]).count == t.count
            &&& post.sets[b][idx].mask == t.mask
        } by {
            let slot = pre.slot_at(b, idx);
            lemma_tally_remove(pre.edges@, pre.alive@, i, slot, n);
            assert(!pre.frozen@.contains(slot));
            let old_set = pre.sets[b][idx];
            assert(old_set.count == tally_all(pre.edges@, pre.alive@, slot).count);
            lemma_xor_hashes(tally_all(post.edges@, post.alive@, slot).mask, hash, 0);
            assert(mid0.sets[b]@ == pre.sets[b]@);
            if b == first {
                assert(post.sets[b]@ == mid1.sets[b]@);
            } else if b == second {
                assert(mid1.sets[b]@ == mid0.sets[b]@);
            } else {
                assert(mid1.sets[b]@ == mid0.sets[b]@);
                assert(post.sets[b]@ == mid1.sets[b]@);
            }
        }
    }

    /// Takes one entry from the queue of `block`. If its set still holds a
    /// key, the key goes on the stack and leaves its sets in the two other
    /// blocks.
    fn step(&mut self, block: usize)
        requires
            old(self).inv(),
            block < 3,
            old(self).q_sizes[block as int] > 0,
        ensures
            final(self).inv(),
            final(self).edges@ == old(self).edges@,
            final(self).block_length == old(self).block_length,
            final(self).nearer(*old(self)),
    {
        let q = self.q_sizes[block] - 1;
        self.q_sizes[block] = q;
        let ki = self.queues[block][q];
        if self.sets[block][ki.index].count != 0 {
            let slot = block_offset(block, self.block_length) + ki.index;
            let ghost pre = *old(self);
            let ghost n = self.edges@.len() as int;
            let ghost i = lemma_tally_single(self.edges@, self.alive@, slot as int, n);
            proof {
                lemma_xor_edge_fits(self.edges@[i].hash, self.block_length as int);
                pre.lemma_stack_room(i);
            }
            self.stack[self.stack_size] = KeyIndex { hash: ki.hash, index: slot };
            self.stack_size += 1;
            proof {
                self.order@ = self.order@.push(i);
                self.alive@ = self.alive@.remove(i);
                self.frozen@ = self.frozen@.insert(slot as int);
            }
            let first: usize = if block == 0 {
                1
            } else {
                0
            };
            let second: usize = if block == 2 {
                1
            } else {
                2
            };
            let ghost mid0 = *self;
            proof {
                let edge = pre.edges@[i];
                assert(edge == xor_edge(ki.hash, pre.block_length as int));
                assert(edge.slot(block as int) == slot);
                assert(Peeler::single(pre, block as int, i));
                assert(Peeler::taken(pre, mid0, block as int, i));
                assert(edge.touches(edge.slot(first as int)));
                assert(!pre.frozen@.contains(edge.slot(first as int)));
                lemma_tally_remove(pre.edges@, pre.alive@, i, edge.slot(first as int), n);
                let idx = block_index(ki.hash, first as int, pre.block_length as int);
                assert(pre.sets[first as int][idx].count >= 1);
                if pre.sets[first as int][idx].count >= 2 {
                    pre.lemma_queue_room(first as int, idx);
                }
            }
            self.detach(first, ki.hash);
            let ghost mid1 = *self;
            proof {
                let edge = pre.edges@[i];
                assert(edge.touches(edge.slot(second as int)));
                assert(!pre.frozen@.contains(edge.slot(second as int)));
                lemma_tally_remove(pre.edges@, pre.alive@, i, edge.slot(second as int), n);
                let idx = block_index(ki.hash, second as int, pre.block_length as int);
                assert(pre.sets[second as int][idx].count >= 1);
                if pre.sets[second as int][idx].count >= 2 {
                    pre.lemma_queue_room(second as int, idx);
                }
                assert(mid1.sets[second as int]@ == pre.sets[second as int]@);
            }
            self.detach(second, ki.hash);
            proof {
                let post = *self;
                let b = block as int;
                let f = first as int;
                let s = second as int;
                assert(Peeler::stepped(pre, mid0, mid1, post, b, i, f, s));
                Peeler::lemma_step_counted(pre, mid0, mid1, post, b, i, f, s);
                Peeler::lemma_step_ordered(pre, mid0, mid1, post, b, i, f, s);
                Peeler::lemma_step_queued(pre, mid0, mid1, post, b, i, f, s);
            }
        } else {
            proof {
                let pre = *old(self);
                let post = *self;
                assert forall|b: int| 0 <= b < 3 implies (#[trigger] post.q_sizes[b])
                    <= post.block_length by {
                    assert(pre.q_sizes[b] <= pre.block_length);
                }
                assert(post.shaped());
                assert(post.counted());
                assert(post.ordered());
                assert forall|b: int, idx: int|
                    0 <= b < 3 && 0 <= idx < post.block_length && !post.frozen@.contains(
                        post.slot_at(b, idx),
                    ) && (#[trigger] post.sets[b][idx]).count == 1 implies exists|q: int|
                    0 <= q < post.q_sizes[b] && (#[trigger] post.queues[b][q]).index == idx by {
                    let q = choose|q: int|
                        0 <= q < pre.q_sizes[b] && (#[trigger] pre.queues[b][q]).index == idx;
                    assert(post.queues[b][q] == pre.queues[b][q]);
                }
                assert(post.queued());
            }
        }
    }
}

/// A block of `len` empty sets.
fn empty_sets(len: usize) -> (r: Vec<HSet>)
    ensures
        r.len() == len,
        forall|i: int| 0 <= i < len ==> (#[trigger] r[i]).count == 0 && r[i].mask == 0,
{
    let mut block: Vec<HSet> = Vec::with_capacity(len);
    let mut i: usize = 0;
    while i < len
        invariant
            i <= len,
            block.len() == i,
            forall|j: int| 0 <= j < i ==> (#[trigger] block[j]).count == 0 && block[j].mask == 0,
        decreases len - i,
    {
        block.push(HSet { count: 0, mask: 0 });
        i += 1;
    }
    block
}

/// A block of `len` entries for a queue or a stack.
fn blank_entries(len: usize) -> (r: Vec<KeyIndex>)
    ensures
        r.len() == len,
{
    let mut block: Vec<KeyIndex> = Vec::with_capacity(len);
    let mut i: usize = 0;
    while i < len
        invariant
            i <= len,
            block.len() == i,
        decreases len - i,
    {
        block.push(KeyIndex { hash: 0, index: 0 });
        i += 1;
    }
    block
}

impl Peeler {
    /// All sets are empty, and so are the queues and the stack.
    spec fn cleared(self) -> bool {
        &&& self.shaped()
        &&& self.stack_size == 0
        &&& forall|b: int| 0 <= b < 3 ==> (#[trigger] self.q_sizes[b]) == 0
        &&& forall|b: int, idx: int|
            0 <= b < 3 && 0 <= idx < self.block_length ==> (#[trigger] self.sets[b][idx]).count
                == 0 && self.sets[b][idx].mask == 0
    }

    /// The state before any key has been taken away: all keys are in the
    /// graph and the sets hold their counts and masks.
    spec fn loaded(self, keys: Seq<u64>, seed: u64) -> bool {
        &&& self.shaped()
        &&& self.counted()
        &&& self.ordered()
        &&& self.edges@ == xor_edges(keys, seed, self.block_length as int)
        &&& self.alive@ == below(keys.len() as int)
        &&& self.order@ == Seq::<int>::empty()
        &&& self.frozen@ == Set::<int>::empty()
        &&& self.stack_size == 0
        &&& forall|b: int| 0 <= b < 3 ==> (#[trigger] self.q_sizes[b]) == 0
    }

    /// The arrays for a build from `num_keys` keys.
    fn new(num_keys: usize, block_length: usize) -> (r: Peeler)
        requires
            0 < block_length <= u32::MAX,
            3 * block_length <= usize::MAX,
            num_keys <= u32::MAX,
        ensures
            r.cleared(),
            r.block_length == block_length,
            r.stack.len() == num_keys,
    {
        let mut sets: Vec<Vec<HSet>> = Vec::with_capacity(3);
        sets.push(empty_sets(block_length));
        sets.push(empty_sets(block_length));
        sets.push(empty_sets(block_length));
        let mut queues: Vec<Vec<KeyIndex>> = Vec::with_capacity(3);
        queues.push(blank_entries(block_length));
        queues.push(blank_entries(block_length));
        queues.push(blank_entries(block_length));
        let mut q_sizes: Vec<usize> = Vec::with_capacity(3);
        q_sizes.push(0);
        q_sizes.push(0);
        q_sizes.push(0);
        let stack = blank_entries(num_keys);
        let ghost edges = Seq::new(
            num_keys as nat,
            |i: int| xor_edge(0, block_length as int),
        );
        Peeler {
            block_length,
            sets,
            queues,
            q_sizes,
            stack,
            stack_size: 0,
            edges: Ghost(edges),
            alive: Ghost(Set::empty()),
            order: Ghost(Seq::empty()),
            frozen: Ghost(Set::empty()),
        }
    }

    /// Empties all sets, the queues and the stack.
    fn reset(&mut self)
        requires
            old(self).shaped(),
        ensures
            final(self).cleared(),
            final(self).block_length == old(self).block_length,
            final(self).stack.len() == old(self).stack.len(),
    {
        let ghost len = self.block_length as int;
        let mut b: usize = 0;
        while b < 3
            invariant
                b <= 3,
                self.block_length == len,
                self.sets.len() == 3,
                forall|c: int| 0 <= c < 3 ==> (#[trigger] self.sets[c]).len() == len,
                forall|c: int, idx: int|
                    0 <= c < b && 0 <= idx < len ==> (#[trigger] self.sets[c][idx]).count == 0
                        && self.sets[c][idx].mask == 0,
                self.queues == old(self).queues,
                self.q_sizes == old(self).q_sizes,
                self.stack == old(self).stack,
                self.edges == old(self).edges,
            decreases 3 - b,
        {
            let mut idx: usize = 0;
            while idx < self.block_length
                invariant
                    b < 3,
                    idx <= len,
                    self.block_length == len,
                    self.sets.len() == 3,
                    forall|c: int| 0 <= c < 3 ==> (#[trigger] self.sets[c]).len() == len,
                    forall|c: int, j: int|
                        0 <= c < b && 0 <= j < len ==> (#[trigger] self.sets[c][j]).count == 0
                            && self.sets[c][j].mask == 0,
                    forall|j: int|
                        0 <= j < idx ==> (#[trigger] self.sets[b as int][j]).count == 0
                            && self.sets[b as int][j].mask == 0,
                    self.queues == old(self).queues,
                    self.q_sizes == old(self).q_sizes,
                    self.stack == old(self).stack,
                    self.edges == old(self).edges,
                decreases len - idx,
            {
                self.sets[b][idx] = HSet { count: 0, mask: 0 };
                idx += 1;
            }
            b += 1;
        }
        self.q_sizes[0] = 0;
        self.q_sizes[1] = 0;
        self.q_sizes[2] = 0;
        self.stack_size = 0;
        proof {
            self.order@ = Seq::empty();
            self.alive@ = Set::empty();
            self.frozen@ = Set::empty();
        }
    }

    /// What `post` is after the key of `hash` has come to its set in `block`.
    spec fn attached(pre: Peeler, post: Peeler, block: int, hash: u64) -> bool {
        let idx = block_index(hash, block, pre.block_length as int);
        let before = pre.sets[block][idx];
        let after = HSet { count: (before.count + 1) as u32, mask: before.mask ^ hash };
        &&& post.block_length == pre.block_length
        &&& post.stack@ == pre.stack@
        &&& post.stack_size == pre.stack_size
        &&& post.edges@ == pre.edges@
        &&& post.alive@ == pre.alive@
        &&& post.order@ == pre.order@
        &&& post.frozen@ == pre.frozen@
        &&& post.sets.len() == 3
        &&& post.queues == pre.queues
        &&& post.q_sizes == pre.q_sizes
        &&& forall|b: int| 0 <= b < 3 && b != block ==> (#[trigger] post.sets[b])@ == pre.sets[b]@
        &&& post.sets[block]@ =~= pre.sets[block]@.update(idx, after)
    }

    /// Adds the key of `hash` to the set that it selects in `block`.
    fn attach(&mut self, block: usize, idx: usize, hash: u64)
        requires
            old(self).shaped(),
            block < 3,
            idx == block_index(hash, block as int, old(self).block_length as int),
            old(self).sets[block as int][idx as int].count < u32::MAX,
        ensures
            Peeler::attached(*old(self), *final(self), block as int, hash),
            final(self).shaped(),
    {
        proof {
            lemma_xor_edge_fits(hash, self.block_length as int);
        }
        self.sets[block][idx].mask ^= hash;
        self.sets[block][idx].count += 1;
    }

    proof fn lemma_populate_step(
        pre: Peeler,
        mid0: Peeler,
        mid1: Peeler,
        post: Peeler,
        i: int,
    )
        requires
            pre.shaped(),
            pre.counted(),
            pre.frozen@ == Set::<int>::empty(),
            0 <= i < pre.edges@.len(),
            pre.alive@ == below(i),
            Peeler::attached(pre, mid0, 0, pre.edges@[i].hash),
            Peeler::attached(mid0, mid1, 1, pre.edges@[i].hash),
            Peeler::attached(mid1, post, 2, pre.edges@[i].hash),
        ensures
            (Peeler { alive: Ghost(below(i + 1)), ..post }).counted(),
    {
        let n = pre.edges@.len() as int;
        let len = pre.block_length as int;
        let edge = pre.edges@[i];
        let hash = edge.hash;
        let fin = Peeler { alive: Ghost(below(i + 1)), ..post };
        lemma_xor_edge_fits(hash, len);
        assert(edge == xor_edge(hash, len));
        assert(below(i + 1) =~= below(i).insert(i));
        assert(mid0.sets[1]@ == pre.sets[1]@);
        assert(mid0.sets[2]@ == pre.sets[2]@);
        assert(mid1.sets[0]@ == mid0.sets[0]@);
        assert(mid1.sets[2]@ == mid0.sets[2]@);
        assert(post.sets[0]@ == mid1.sets[0]@);
        assert(post.sets[1]@ == mid1.sets[1]@);
        assert forall|b: int, idx: int|
            0 <= b < 3 && 0 <= idx < fin.block_length && !fin.frozen@.contains(
                fin.slot_at(b, idx),
            ) implies {
            let t = tally_all(fin.edges@, fin.alive@, fin.slot_at(b, idx));
            &&& (#[trigger] fin.sets[b][idx]).count == t.count
            &&& fin.sets[b][idx].mask == t.mask
        } by {
            let slot = pre.slot_at(b, idx);
            lemma_tally_insert(pre.edges@, pre.alive@, i, slot, n);
            lemma_tally_bound(pre.edges@, below(i + 1), slot, n);
            assert(!pre.frozen@.contains(slot));
            let old_set = pre.sets[b][idx];
            assert(old_set.count == tally_all(pre.edges@, pre.alive@, slot).count);
            assert(old_set.mask == tally_all(pre.edges@, pre.alive@, slot).mask);
            if b == 0 {
                assert(fin.sets[b]@ == mid0.sets[b]@);
            } else if b == 1 {
                assert(fin.sets[b]@ == mid1.sets[b]@);
                assert(mid0.sets[b]@ == pre.sets[b]@);
            } else {
                assert(mid1.sets[b]@ == pre.sets[b]@);
            }
        }
    }

    /// Adds every key to the three sets that its hash selects.
    fn populate(&mut self, keys: &[u64], seed: u64)
        requires
            old(self).cleared(),
            keys@.len() == old(self).stack.len(),
        ensures
            final(self).loaded(keys@, seed),
            final(self).block_length == old(self).block_length,
    {
        let ghost len = self.block_length as int;
        let ghost n = keys@.len() as int;
        let ghost edges = xor_edges(keys@, seed, len);
        proof {
            self.edges@ = edges;
            self.alive@ = below(0);
            self.order@ = Seq::empty();
            self.frozen@ = Set::empty();
            assert forall|b: int, idx: int|
                0 <= b < 3 && 0 <= idx < self.block_length implies {
                let t = tally_all(self.edges@, self.alive@, self.slot_at(b, idx));
                &&& (#[trigger] self.sets[b][idx]).count == t.count
                &&& self.sets[b][idx].mask == t.mask
            } by {
                lemma_tally_empty(self.edges@, self.slot_at(b, idx), n);
            }
        }
        let mut i: usize = 0;
        while i < keys.len()
            invariant
                i <= n,
                n == keys@.len(),
                len == self.block_length,
                self.shaped(),
                self.counted(),
                self.edges@ == edges,
                edges == xor_edges(keys@, seed, len),
                self.alive@ == below(i as int),
                self.order@ == Seq::<int>::empty(),
                self.frozen@ == Set::<int>::empty(),
                self.stack_size == 0,
                forall|b: int| 0 <= b < 3 ==> (#[trigger] self.q_sizes[b]) == 0,
            decreases n - i,
        {
            let hs = HashSet::xor_from(keys[i], self.block_length, seed);
            let ghost pre = *self;
            proof {
                lemma_xor_edge_fits(hs.hash, len);
                assert(edges[i as int].hash == hs.hash);
                assert forall|b: int| 0 <= b < 3 implies pre.sets[b][hs.hset[b] as int].count
                    < u32::MAX by {
                    let slot = pre.slot_at(b, hs.hset[b] as int);
                    lemma_tally_bound(pre.edges@, pre.alive@, slot, n);
                    lemma_tally_agree(pre.edges@, pre.alive@, below(i as int), slot, n);
                    lemma_tally_below(pre.edges@, slot, i as int, n);
                    lemma_tally_bound(pre.edges@, pre.alive@, slot, i as int);
                    assert(!pre.frozen@.contains(slot));
                }
            }
            self.attach(0, hs.hset[0], hs.hash);
            let ghost mid0 = *self;
            proof {
                assert(mid0.sets[1]@ == pre.sets[1]@);
            }
            self.attach(1, hs.hset[1], hs.hash);
            let ghost mid1 = *self;
            proof {
                assert(mid0.sets[2]@ == pre.sets[2]@);
                assert(mid1.sets[2]@ == mid0.sets[2]@);
            }
            self.attach(2, hs.hset[2], hs.hash);
            proof {
                Peeler::lemma_populate_step(pre, mid0, mid1, *self, i as int);
                self.alive@ = below(i + 1);
            }
            i += 1;
        }
        proof {
            assert(self.ordered());
        }
    }
}

/// With no edge in it, every slot has the empty tally.
proof fn lemma_tally_empty(edges: Seq<Edge>, slot: int, k: int)
    ensures
        tally(edges, below(0), slot, k) == Tally::empty(),
    decreases k,
{
    if k > 0 {
        lemma_tally_empty(edges, slot, k - 1);
    }
}

/// The edges from `i` on are not in `below(i)`, so they do not count.
proof fn lemma_tally_below(edges: Seq<Edge>, slot: int, i: int, k: int)
    requires
        0 <= i <= k,
    ensures
        tally(edges, below(i), slot, k) == tally(edges, below(i), slot, i),
    decreases k,
{
    if k > i {
        lemma_tally_below(edges, slot, i, k - 1);
    }
}

impl Peeler {
    /// Scans for sets with a single key and adds them to the queues.
    fn scan(&mut self)
        requires
            old(self).shaped(),
            old(self).counted(),
            old(self).ordered(),
            old(self).frozen@ == Set::<int>::empty(),
            old(self).stack_size == 0,
            forall|b: int| 0 <= b < 3 ==> (#[trigger] old(self).q_sizes[b]) == 0,
        ensures
            final(self).inv(),
            final(self).edges@ == old(self).edges@,
            final(self).alive@ == old(self).alive@,
            final(self).block_length == old(self).block_length,
            final(self).stack_size == 0,
    {
        let ghost len = self.block_length as int;
        let mut b: usize = 0;
        while b < 3
            invariant
                b <= 3,
                len == self.block_length,
                self.shaped(),
                self.queued(),
                self.sets == old(self).sets,
                self.stack == old(self).stack,
                self.stack_size == 0,
                self.edges == old(self).edges,
                self.alive == old(self).alive,
                self.order == old(self).order,
                self.frozen == old(self).frozen,
                self.frozen@ == Set::<int>::empty(),
                forall|c: int| b <= c < 3 ==> (#[trigger] self.q_sizes[c]) == 0,
                forall|c: int, idx: int|
                    0 <= c < b && 0 <= idx < len && (#[trigger] self.sets[c][idx]).count == 1
                        ==> exists|q: int|
                        0 <= q < self.q_sizes[c] && (#[trigger] self.queues[c][q]).index == idx,
            decreases 3 - b,
        {
            let mut idx: usize = 0;
            while idx < self.block_length
                invariant
                    b < 3,
                    idx <= len,
                    len == self.block_length,
                    self.shaped(),
                    self.queued(),
                    self.sets == old(self).sets,
                    self.stack == old(self).stack,
                    self.stack_size == 0,
                    self.edges == old(self).edges,
                    self.alive == old(self).alive,
                    self.order == old(self).order,
                    self.frozen == old(self).frozen,
                    self.frozen@ == Set::<int>::empty(),
                    self.q_sizes[b as int] <= idx,
                    forall|c: int| b < c < 3 ==> (#[trigger] self.q_sizes[c]) == 0,
                    forall|q: int|
                        0 <= q < self.q_sizes[b as int] ==> (#[trigger] self.queues[b as int][q]).index
                            < idx,
                    forall|c: int, j: int|
                        0 <= c < b && 0 <= j < len && (#[trigger] self.sets[c][j]).count == 1
                            ==> exists|q: int|
                            0 <= q < self.q_sizes[c] && (#[trigger] self.queues[c][q]).index == j,
                    forall|j: int|
                        0 <= j < idx && (#[trigger] self.sets[b as int][j]).count == 1
                            ==> exists|q: int|
                            0 <= q < self.q_sizes[b as int] && (
                            #[trigger] self.queues[b as int][q]).index == j,
                decreases len - idx,
            {
                let ghost pre = *self;
                try_enqueue(&self.sets[b], idx, &mut self.queues[b], &mut self.q_sizes[b]);
                proof {
                    let post = *self;
                    let added = pre.sets[b as int][idx as int].count == 1;
                    assert forall|c: int, q: int|
                        0 <= c < 3 && 0 <= q < pre.q_sizes[c] implies #[trigger] post.queues[c][q]
                        == pre.queues[c][q] by {}
                    assert forall|c: int| 0 <= c < 3 implies (#[trigger] post.queues[c]).len()
                        == len by {
                        assert(pre.queues[c].len() == len);
                    }
                    assert forall|c: int| 0 <= c < 3 implies (#[trigger] post.q_sizes[c])
                        <= len by {
                        assert(pre.q_sizes[c] <= len);
                    }
                    assert forall|c: int, j: int|
                        0 <= c < b && 0 <= j < len && (#[trigger] post.sets[c][j]).count == 1
                        implies exists|q: int|
                        0 <= q < post.q_sizes[c] && (#[trigger] post.queues[c][q]).index == j by {
                        let q = choose|q: int|
                            0 <= q < pre.q_sizes[c] && (#[trigger] pre.queues[c][q]).index == j;
                        assert(post.queues[c][q] == pre.queues[c][q]);
                    }
                    assert forall|j: int|
                        0 <= j < idx + 1 && (#[trigger] post.sets[b as int][j]).count == 1
                        implies exists|q: int|
                        0 <= q < post.q_sizes[b as int] && (
                        #[trigger] post.queues[b as int][q]).index == j by {
                        if j < idx {
                            let q = choose|q: int|
                                0 <= q < pre.q_sizes[b as int] && (
                                #[trigger] pre.queues[b as int][q]).index == j;
                            assert(post.queues[b as int][q] == pre.queues[b as int][q]);
                        } else {
                            let q = pre.q_sizes[b as int] as int;
                            assert(post.queues[b as int][q].index == j);
                        }
                    }
                    assert forall|c: int, q: int|
                        0 <= c < 3 && 0 <= q < post.q_sizes[c] implies {
                        let e = #[trigger] post.queues[c][q];
                        &&& e.index < post.block_length
                        &&& !post.frozen@.contains(post.slot_at(c, e.index as int))
                        &&& post.sets[c][e.index as int].count <= 1
                        &&& post.sets[c][e.index as int].count == 1 ==> e.hash
                            == post.sets[c][e.index as int].mask
                    } by {
                        if q < pre.q_sizes[c] {
                            assert(post.queues[c][q] == pre.queues[c][q]);
                        }
                    }
                    assert forall|c: int, q1: int, q2: int|
                        0 <= c < 3 && 0 <= q1 < q2 < post.q_sizes[c] implies (
                    #[trigger] post.queues[c][q1]).index != (
                    #[trigger] post.queues[c][q2]).index by {
                        assert(post.queues[c][q1] == pre.queues[c][q1]);
                        if q2 < pre.q_sizes[c] {
                            assert(post.queues[c][q2] == pre.queues[c][q2]);
                        }
                    }
                    assert forall|q: int| 0 <= q < post.q_sizes[b as int] implies (
                    #[trigger] post.queues[b as int][q]).index < idx + 1 by {
                        if q < pre.q_sizes[b as int] {
                            assert(post.queues[b as int][q] == pre.queues[b as int][q]);
                        }
                    }
                }
                idx += 1;
            }
            b += 1;
        }
    }

    /// Takes entries from the queue of `block` until it is empty.
    fn drain(&mut self, block: usize)
        requires
            old(self).inv(),
            block < 3,
        ensures
            final(self).inv(),
            final(self).edges@ == old(self).edges@,
            final(self).block_length == old(self).block_length,
            final(self).q_sizes[block as int] == 0,
            old(self).q_sizes[block as int] > 0 ==> final(self).nearer(*old(self)),
            old(self).q_sizes[block as int] == 0 ==> final(self).stack_size == old(self).stack_size
                && final(self).q_sizes@ == old(self).q_sizes@,
    {
        while self.q_sizes[block] > 0
            invariant
                self.inv(),
                old(self).inv(),
                block < 3,
                self.edges@ == old(self).edges@,
                self.block_length == old(self).block_length,
                (old(self).q_sizes[block as int] > 0 && self.nearer(*old(self))) || (self.stack_size
                    == old(self).stack_size && self.q_sizes@ == old(self).q_sizes@),
            decreases self.edges@.len() - self.stack_size, self.pending(),
        {
            self.step(block);
        }
    }

    /// Takes keys away, one after another, each through a set in which it is
    /// the only key, until no set with a single key is left.
    fn peel(&mut self)
        requires
            old(self).inv(),
        ensures
            final(self).inv(),
            final(self).edges@ == old(self).edges@,
            final(self).block_length == old(self).block_length,
            final(self).pending() == 0,
    {
        while self.q_sizes[0] + self.q_sizes[1] + self.q_sizes[2] > 0
            invariant
                self.inv(),
                self.edges@ == old(self).edges@,
                self.block_length == old(self).block_length,
            decreases self.edges@.len() - self.stack_size, self.pending(),
        {
            let ghost start = *self;
            self.drain(0);
            self.drain(1);
            self.drain(2);
            proof {
                assert(self.nearer(start));
            }
        }
    }

    /// When the peeling has ended with keys left over, the graph cannot be
    /// peeled at all.
    proof fn lemma_failed(self)
        requires
            self.inv(),
            self.pending() == 0,
            self.stack_size < self.edges@.len(),
        ensures
            !peelable(self.edges@),
    {
        let n = self.edges@.len() as int;
        let len = self.block_length as int;
        let witness = lemma_distinct_misses(self.order@, n);
        assert(self.alive@.contains(witness));
        assert(self.alive@.subset_of(below(n)));
        assert forall|slot: int| (#[trigger] tally_all(self.edges@, self.alive@, slot)).count
            != 1 by {
            if tally_all(self.edges@, self.alive@, slot).count == 1 {
                let i = lemma_tally_single(self.edges@, self.alive@, slot, n);
                let edge = self.edges@[i];
                lemma_xor_edge_fits(edge.hash, len);
                assert(edge == xor_edge(edge.hash, len));
                assert(!self.frozen@.contains(slot));
                let b = edge.role_at(slot) as int;
                let idx = slot - block_start(b, len);
                assert(self.slot_at(b, idx) == slot);
                assert(self.sets[b][idx].count == 1);
                let q = choose|q: int|
                    0 <= q < self.q_sizes[b] && (#[trigger] self.queues[b][q]).index == idx;
                assert(self.q_sizes[b] == 0);
            }
        }
        lemma_stuck(self.edges@, self.alive@, witness);
    }
}

/// The largest number of seeds that a builder tries.
pub const MAX_ATTEMPTS: usize = 1000;

/// The order in which the keys of a filter were taken away, with the seed
/// and the block length under which this was possible.
pub struct PeelOrder {
    pub seed: u64,
    pub block_length: usize,
    pub stack: Vec<KeyIndex>,
}

impl PeelOrder {
    /// The stack is a peeling order of the graph of its own hashes.
    pub open spec fn ordered(self) -> bool {
        let len = self.block_length as int;
        &&& 0 < self.block_length <= u32::MAX
        &&& 3 * self.block_length <= usize::MAX
        &&& forall|p: int|
            0 <= p < self.stack.len() ==> xor_edge((#[trigger] self.stack[p]).hash, len).touches(
                self.stack[p].index as int,
            )
        &&& forall|p: int, q: int|
            0 <= p < q < self.stack.len() ==> !xor_edge((#[trigger] self.stack[q]).hash, len).touches(
                (#[trigger] self.stack[p]).index as int,
            )
    }

    /// The stack holds `hash`.
    pub open spec fn holds(self, hash: u64) -> bool {
        exists|p: int| 0 <= p < self.stack.len() && (#[trigger] self.stack[p]).hash == hash
    }

    /// The stack holds the hash of every key.
    pub open spec fn covers(self, keys: Seq<u64>) -> bool {
        forall|i: int| 0 <= i < keys.len() ==> self.holds(#[trigger] mix_spec(keys[i], self.seed))
    }

    /// Every hash of the stack is the hash of a key.
    pub open spec fn drawn_from(self, keys: Seq<u64>) -> bool {
        forall|p: int|
            0 <= p < self.stack.len() ==> hashes_to(keys, self.seed, (#[trigger] self.stack[p]).hash)
    }

    /// Some key of the stack touches `slot`.
    pub open spec fn touched(self, slot: int) -> bool {
        exists|p: int|
            0 <= p < self.stack.len() && xor_edge(
                (#[trigger] self.stack[p]).hash,
                self.block_length as int,
            ).touches(slot)
    }
}


/// Whether the graph of `keys` under the seed of attempt `attempt` can be peeled.
pub open spec fn xor_attempt_succeeds(keys: Seq<u64>, attempt: nat) -> bool {
    peelable(xor_edges(keys, seed_of_attempt(attempt), xor_block_length(keys.len() as int)))
}

/// Attempt `attempt` is the first whose graph can be peeled.
pub open spec fn xor_first_success(keys: Seq<u64>, attempt: nat) -> bool {
    &&& xor_attempt_succeeds(keys, attempt)
    &&& forall|earlier: nat| earlier < attempt ==> !xor_attempt_succeeds(keys, earlier)
}

impl Peeler {
    /// When the peeling has taken every key, the stack is a peeling order
    /// that covers the keys, and the graph can be peeled.
    proof fn lemma_succeeded(self, keys: Seq<u64>, seed: u64)
        requires
            self.inv(),
            self.stack_size == self.edges@.len(),
            self.edges@ == xor_edges(keys, seed, self.block_length as int),
        ensures
            peelable(self.edges@),
            (PeelOrder { seed, block_length: self.block_length, stack: self.stack }).ordered(),
            (PeelOrder { seed, block_length: self.block_length, stack: self.stack }).covers(keys),
            (PeelOrder { seed, block_length: self.block_length, stack: self.stack }).drawn_from(
                keys,
            ),
    {
        let n = self.edges@.len() as int;
        let len = self.block_length as int;
        let plan = PeelOrder { seed, block_length: self.block_length, stack: self.stack };
        let slots = Seq::new(n as nat, |p: int| self.stack[p].index as int);
        assert forall|i: int| 0 <= i < n implies self.order@.contains(i) by {
            if self.alive@.contains(i) {
                self.lemma_stack_room(i);
            }
        }
        assert forall|p: int| 0 <= p < n implies self.edges@[#[trigger] self.order@[p]].touches(
            slots[p],
        ) by {
            assert(self.edges@[self.order@[p]].touches(self.stack[p].index as int));
        }
        assert forall|p: int, q: int| 0 <= p < q < n implies !self.edges@[
            #[trigger] self.order@[q]].touches(#[trigger] slots[p]) by {
            assert(!self.edges@[self.order@[q]].touches(self.stack[p].index as int));
        }
        lemma_peeled(self.edges@, self.order@, slots);
        assert forall|p: int| 0 <= p < plan.stack.len() implies xor_edge(
            (#[trigger] plan.stack[p]).hash,
            len,
        ).touches(plan.stack[p].index as int) by {
            let e = self.edges@[self.order@[p]];
            assert(e == xor_edge(e.hash, len));
            assert(self.stack[p].hash == e.hash);
        }
        assert forall|p: int, q: int| 0 <= p < q < plan.stack.len() implies !xor_edge(
            (#[trigger] plan.stack[q]).hash,
            len,
        ).touches((#[trigger] plan.stack[p]).index as int) by {
            let e = self.edges@[self.order@[q]];
            assert(e == xor_edge(e.hash, len));
            assert(self.stack[q].hash == e.hash);
        }
        assert forall|i: int| 0 <= i < keys.len() implies plan.holds(
            #[trigger] mix_spec(keys[i], plan.seed),
        ) by {
            assert(self.order@.contains(i));
            let p = choose|p: int| 0 <= p < self.order@.len() && self.order@[p] == i;
            assert(self.stack[p].hash == self.edges@[self.order@[p]].hash);
            assert(self.edges@[i] == xor_edge(mix_spec(keys[i], seed), len));
            assert(plan.stack[p].hash == mix_spec(keys[i], plan.seed));
        }
        assert forall|p: int| 0 <= p < plan.stack.len() implies hashes_to(
            keys,
            plan.seed,
            (#[trigger] plan.stack[p]).hash,
        ) by {
            let i = self.order@[p];
            assert(self.stack[p].hash == self.edges@[i].hash);
            assert(self.edges@[i] == xor_edge(mix_spec(keys[i], seed), len));
            assert(mix_spec(keys[i], plan.seed) == plan.stack[p].hash);
        }
    }
}

/// Looks for a seed under which the graph of `keys` can be peeled, and
/// peels it. The seeds come from the generator in its fixed order; the
/// search ends with the first that works, or after `MAX_ATTEMPTS` seeds.
pub fn xor_peel(keys: &[u64]) -> (r: Option<PeelOrder>)
    requires
        keys@.len() <= max_keys(),
    ensures
        match r {
            Some(plan) => {
                &&& plan.block_length == xor_block_length(keys@.len() as int)
                &&& plan.stack.len() == keys@.len()
                &&& plan.ordered()
                &&& plan.covers(keys@)
                &&& plan.drawn_from(keys@)
                &&& exists|attempt: nat|
                    attempt < MAX_ATTEMPTS && plan.seed == seed_of_attempt(attempt)
                        && #[trigger] xor_first_success(keys@, attempt)
            },
            None => forall|attempt: nat|
                attempt < MAX_ATTEMPTS ==> !#[trigger] xor_attempt_succeeds(keys@, attempt),
        },
{
    let num_keys = keys.len();
    let block_length = block_length_for(num_keys);
    let mut peeler = Peeler::new(num_keys, block_length);
    let mut rng: u64 = 1;
    let mut seed = splitmix64(&mut rng);
    let mut attempt: usize = 0;
    proof {
        reveal_with_fuel(state_after, 2);
    }
    while attempt < MAX_ATTEMPTS
        invariant
            attempt <= MAX_ATTEMPTS,
            num_keys == keys@.len(),
            block_length == xor_block_length(keys@.len() as int),
            peeler.cleared(),
            peeler.block_length == block_length,
            peeler.stack.len() == num_keys,
            rng == state_after((attempt + 1) as nat),
            seed == seed_of_attempt(attempt as nat),
            forall|earlier: nat| earlier < attempt ==> !#[trigger] xor_attempt_succeeds(keys@, earlier),
        decreases MAX_ATTEMPTS - attempt,
    {
        peeler.populate(keys, seed);
        peeler.scan();
        peeler.peel();
        if peeler.stack_size == num_keys {
            proof {
                peeler.lemma_succeeded(keys@, seed);
                assert(xor_first_success(keys@, attempt as nat));
            }
            return Some(PeelOrder { seed, block_length, stack: peeler.stack });
        }
        proof {
            peeler.lemma_failed();
            assert(!xor_attempt_succeeds(keys@, attempt as nat));
        }
        // Filter failed to be created; reset and try again.
        peeler.reset();
        seed = splitmix64(&mut rng);
        attempt += 1;
    }
    None
}

/// Fills the slots so that the query equation holds for every key of the
/// peeling order, going through the order from its end.
pub fn xor_assign<F: Fingerprint>(plan: &PeelOrder) -> (fps: Vec<F>)
    requires
        plan.ordered(),
    ensures
        fps.len() == 3 * plan.block_length,
        forall|p: int|
            0 <= p < plan.stack.len() ==> solved(
                fps@,
                xor_edge((#[trigger] plan.stack[p]).hash, plan.block_length as int),
            ),
        forall|t: int| 0 <= t < fps.len() ==> (#[trigger] fps[t]).bits() == 0 || plan.touched(t),
{
    let block_length = plan.block_length;
    let capacity = 3 * block_length;
    let ghost len = block_length as int;
    let mut fps: Vec<F> = Vec::with_capacity(capacity);
    let mut i: usize = 0;
    while i < capacity
        invariant
            i <= capacity,
            fps.len() == i,
            forall|j: int| 0 <= j < i ==> (#[trigger] fps[j]).bits() == 0,
        decreases capacity - i,
    {
        fps.push(F::zero());
        i += 1;
    }
    let mut p: usize = plan.stack.len();
    proof {
        assert forall|q: int| 0 <= q < p implies fps[(
        #[trigger] plan.stack[q]).index as int].bits() == 0 by {
            lemma_xor_edge_fits(plan.stack[q].hash, len);
            assert(xor_edge(plan.stack[q].hash, len).touches(plan.stack[q].index as int));
        }
    }
    while p > 0
        invariant
            p <= plan.stack.len(),
            plan.ordered(),
            block_length == plan.block_length,
            len == block_length,
            capacity == 3 * block_length,
            fps.len() == capacity,
            forall|q: int|
                p <= q < plan.stack.len() ==> solved(
                    fps@,
                    xor_edge((#[trigger] plan.stack[q]).hash, len),
                ),
            forall|q: int| 0 <= q < p ==> fps[(#[trigger] plan.stack[q]).index as int].bits() == 0,
            forall|t: int|
                0 <= t < fps.len() ==> (#[trigger] fps[t]).bits() == 0 || plan.touched(t),
        decreases p,
    {
        p -= 1;
        let ki = plan.stack[p];
        let ghost edge = xor_edge(ki.hash, len);
        proof {
            lemma_xor_edge_fits(ki.hash, len);
            assert(edge.touches(plan.stack[p as int].index as int));
        }
        let h0 = xor_h(0, block_length, ki.hash);
        let h1 = xor_h(1, block_length, ki.hash) + block_length;
        let h2 = xor_h(2, block_length, ki.hash) + 2 * block_length;
        let value = F::from_hash(ki.hash).xor(fps[h0]).xor(fps[h1]).xor(fps[h2]);
        let ghost before = fps@;
        fps[ki.index] = value;
        proof {
            let f = F::of_hash(ki.hash).bits();
            let a = before[h0 as int].bits();
            let b = before[h1 as int].bits();
            let c = before[h2 as int].bits();
            let v = value.bits();
            let role = edge.role_at(ki.index as int) as int;
            lemma_xor_fingerprints(f, a, b, c);
            lemma_assign_solves(before, edge, role, value);
            assert(fps@ == before.update(edge.slot(role), value));
            assert forall|q: int| p < q < plan.stack.len() implies solved(
                fps@,
                xor_edge((#[trigger] plan.stack[q]).hash, len),
            ) by {
                let other = xor_edge(plan.stack[q].hash, len);
                lemma_xor_edge_fits(plan.stack[q].hash, len);
                assert(!other.touches(plan.stack[p as int].index as int));
                lemma_assign_keeps(before, other, ki.index as int, value);
            }
            assert forall|q: int| 0 <= q < p implies fps[(
            #[trigger] plan.stack[q]).index as int].bits() == 0 by {
                let later = xor_edge(plan.stack[p as int].hash, len);
                assert(!later.touches(plan.stack[q].index as int));
                assert(xor_edge(plan.stack[q].hash, len).touches(plan.stack[q].index as int));
                lemma_xor_edge_fits(plan.stack[q].hash, len);
            }
            assert forall|t: int| 0 <= t < fps.len() implies (#[trigger] fps[t]).bits() == 0
                || plan.touched(t) by {
                if t == ki.index {
                    assert(xor_edge(plan.stack[p as int].hash, len).touches(t));
                } else {
                    assert(fps[t] == before[t]);
                }
            }
        }
    }
    fps
}

/// The message of a build from keys that are not all distinct.
pub const XOR_DUPLICATE_KEYS: &'static str =
    "Xor filters must be constructed from a collection containing all distinct keys.";

/// The message of a build that found no seed under which the keys can be peeled.
pub const XOR_CONSTRUCTION_FAILED: &'static str = "Failed to construct xor filter.";

/// What an Xor filter is made of.
pub struct XorParts<F> {
    /// The seed for the filter
    pub seed: u64,
    /// The number of blocks in the filter
    pub block_length: usize,
    /// The fingerprints for the filter
    pub fingerprints: Seq<F>,
}

impl<F: Fingerprint> XorParts<F> {
    /// There are three blocks of slots, each of the block length.
    pub open spec fn wf(self) -> bool {
        &&& 0 < self.block_length <= u32::MAX
        &&& self.fingerprints.len() == 3 * self.block_length
    }

    /// The edge of `key`: its hash and the slot that the hash selects in
    /// each block.
    pub open spec fn edge(self, key: u64) -> Edge {
        xor_edge(mix_spec(key, self.seed), self.block_length as int)
    }

    /// The answer of the filter for `key`: whether the fingerprint of the
    /// hash of the key is the xor of the three slots of the key.
    pub open spec fn contains(self, key: u64) -> bool {
        solved(self.fingerprints, self.edge(key))
    }

    /// None of `keys` touches `slot`.
    pub open spec fn unused(self, keys: Seq<u64>, slot: int) -> bool {
        forall|i: int| 0 <= i < keys.len() ==> !self.edge(#[trigger] keys[i]).touches(slot)
    }

    /// The slots that none of `keys` touches hold zero.
    pub open spec fn blank_where_unused(self, keys: Seq<u64>) -> bool {
        forall|slot: int|
            0 <= slot < self.fingerprints.len() && self.unused(keys, slot) ==> (
            #[trigger] self.fingerprints[slot]).bits() == 0
    }

    /// The filter was built from `keys`: it has the size that goes with their
    /// number and the seed of the first attempt whose graph can be peeled, it
    /// answers `true` for each of them, and the slots that none of them
    /// touches hold zero.
    pub open spec fn built_from(self, keys: Seq<u64>) -> bool {
        &&& self.wf()
        &&& self.block_length == xor_block_length(keys.len() as int)
        &&& exists|attempt: nat|
            attempt < MAX_ATTEMPTS && self.seed == seed_of_attempt(attempt)
                && #[trigger] xor_first_success(keys, attempt)
        &&& forall|i: int| 0 <= i < keys.len() ==> self.contains(#[trigger] keys[i])
        &&& self.blank_where_unused(keys)
    }
}

/// What a build from `keys` gives: an error for keys that are not distinct
/// or that cannot be peeled under any of the seeds, else a filter built from
/// them. `parts` is what the filter is made of, if there is one.
pub open spec fn xor_build_result<F: Fingerprint>(
    keys: Seq<u64>,
    parts: Option<XorParts<F>>,
    error: Option<&'static str>,
) -> bool {
    if !keys.no_duplicates() {
        parts is None && error == Some(XOR_DUPLICATE_KEYS)
    } else if forall|attempt: nat|
        attempt < MAX_ATTEMPTS ==> !#[trigger] xor_attempt_succeeds(keys, attempt) {
        parts is None && error == Some(XOR_CONSTRUCTION_FAILED)
    } else {
        error is None && parts is Some && parts->0.built_from(keys)
    }
}

/// Answers whether the filter made of these parts contains `key`.
pub fn xor_contains<F: Fingerprint>(
    seed: u64,
    block_length: usize,
    fingerprints: &[F],
    key: u64,
) -> (r: bool)
    requires
        (XorParts { seed, block_length, fingerprints: fingerprints@ }).wf(),
    ensures
        r == (XorParts { seed, block_length, fingerprints: fingerprints@ }).contains(key),
{
    let hs = HashSet::xor_from(key, block_length, seed);
    let slots = fingerprints.len();
    proof {
        lemma_xor_edge_fits(hs.hash, block_length as int);
        assert(slots == 3 * block_length);
        assert(hs.hset[0] < block_length && hs.hset[1] < block_length && hs.hset[2]
            < block_length);
    }
    let fp = F::from_hash(hs.hash);
    let h0 = hs.hset[0];
    let h1 = hs.hset[1] + block_length;
    let h2 = hs.hset[2] + 2 * block_length;
    fp.same(fingerprints[h0].xor(fingerprints[h1]).xor(fingerprints[h2]))
}

/// Builds the fingerprints of an Xor filter for `keys`.
pub fn xor_build<F: Fingerprint>(keys: &[u64]) -> (r: Result<(u64, usize, Vec<F>), &'static str>)
    requires
        keys@.len() <= max_keys(),
    ensures
        xor_build_result(
            keys@,
            match r {
                Ok(t) => Some(XorParts { seed: t.0, block_length: t.1, fingerprints: t.2@ }),
                Err(_) => None,
            },
            match r {
                Ok(_) => None,
                Err(e) => Some(e),
            },
        ),
{
    if !all_distinct(keys) {
        return Err(XOR_DUPLICATE_KEYS);
    }
    match xor_peel(keys) {
        None => Err(XOR_CONSTRUCTION_FAILED),
        Some(plan) => {
            let fingerprints = xor_assign::<F>(&plan);
            proof {
                let parts = XorParts {
                    seed: plan.seed,
                    block_length: plan.block_length,
                    fingerprints: fingerprints@,
                };
                assert forall|slot: int|
                    0 <= slot < parts.fingerprints.len() && parts.unused(keys@, slot) implies (
                #[trigger] parts.fingerprints[slot]).bits() == 0 by {
                    if plan.touched(slot) {
                        let p = choose|p: int|
                            0 <= p < plan.stack.len() && xor_edge(
                                (#[trigger] plan.stack[p]).hash,
                                plan.block_length as int,
                            ).touches(slot);
                        assert(hashes_to(keys@, plan.seed, plan.stack[p].hash));
                        let i = choose|i: int|
                            0 <= i < keys@.len() && mix_spec(#[trigger] keys@[i], plan.seed)
                                == plan.stack[p].hash;
                        assert(parts.edge(keys@[i]) == xor_edge(
                            plan.stack[p].hash,
                            plan.block_length as int,
                        ));
                    }
                }
                assert forall|i: int| 0 <= i < keys@.len() implies parts.contains(
                    #[trigger] keys@[i],
                ) by {
                    let hash = mix_spec(keys@[i], plan.seed);
                    assert(plan.holds(hash));
                    let p = choose|p: int|
                        0 <= p < plan.stack.len() && (#[trigger] plan.stack[p]).hash == hash;
                    assert(solved(
                        fingerprints@,
                        xor_edge(plan.stack[p].hash, plan.block_length as int),
                    ));
                }
                let attempt = choose|attempt: nat|
                    attempt < MAX_ATTEMPTS && plan.seed == seed_of_attempt(attempt)
                        && #[trigger] xor_first_success(keys@, attempt);
                assert(xor_attempt_succeeds(keys@, attempt));
            }
            Ok((plan.seed, plan.block_length, fingerprints))
        },
    }
}

/// A filter that was built from keys has 1.23 slots for every key and at
/// most 32 more; from 13 keys on it has no more than 3.69 slots for every
/// key.
pub proof fn lemma_xor_size_bound<F: Fingerprint>(parts: XorParts<F>, keys: Seq<u64>)
    requires
        parts.built_from(keys),
    ensures
        parts.fingerprints.len() == xor_capacity(keys.len() as int),
        100 * parts.fingerprints.len() <= 123 * keys.len() + 3200,
        100 * parts.fingerprints.len() >= 123 * keys.len() + 2900,
        keys.len() >= 13 ==> 100 * parts.fingerprints.len() <= 369 * keys.len(),
{
}

/// No false negatives: a filter that was built from keys answers `true` for
/// each of them. The answer is the query equation: the fingerprint of the
/// hash of the key is the xor of the three slots that the hash selects, one
/// in each block.
pub proof fn lemma_xor_no_false_negatives<F: Fingerprint>(
    parts: XorParts<F>,
    keys: Seq<u64>,
    i: int,
)
    requires
        parts.built_from(keys),
        0 <= i < keys.len(),
    ensures
        parts.contains(keys[i]),
        ({
            let hash = mix_spec(keys[i], parts.seed);
            let len = parts.block_length as int;
            let h0 = block_index(hash, 0, len);
            let h1 = block_index(hash, 1, len);
            let h2 = block_index(hash, 2, len);
            &&& 0 <= h0 < len
            &&& 0 <= h1 < len
            &&& 0 <= h2 < len
            &&& F::of_hash(hash).bits() == parts.fingerprints[h0].bits() ^ parts.fingerprints[len
                + h1].bits() ^ parts.fingerprints[2 * len + h2].bits()
        }),
{
    lemma_xor_edge_fits(mix_spec(keys[i], parts.seed), parts.block_length as int);
}

/// A build from distinct keys that ends with a filter ends with one that
/// answers `true` for each of the keys, and a build that ends with an error
/// ends with the error of a failed construction.
pub proof fn lemma_xor_build_holds_keys<F: Fingerprint>(
    keys: Seq<u64>,
    parts: Option<XorParts<F>>,
    error: Option<&'static str>,
)
    requires
        keys.no_duplicates(),
        xor_build_result(keys, parts, error),
    ensures
        parts is Some ==> forall|i: int| 0 <= i < keys.len() ==> parts->0.contains(#[trigger] keys[i]),
        parts is None ==> error == Some(XOR_CONSTRUCTION_FAILED),
        parts is Some <==> error is None,
{
}

} // verus!
