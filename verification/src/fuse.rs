//! The Fuse family: the slots form 102 segments, and a key touches one slot
//! in each of three segments that follow one another. These filters came
//! before the Binary Fuse filters, which build faster and more reliably;
//! they are kept for those who hold filters of this kind.

use crate::distinct::all_distinct;
use crate::fill::{make_fp_block, Fill};
use crate::fingerprint::Fingerprint;
use crate::graph::{
    below, lemma_assign_keeps, lemma_assign_solves, lemma_distinct_bounded, lemma_distinct_misses,
    lemma_peelable_empty, lemma_peeled, lemma_stuck, lemma_tally_bound, lemma_tally_insert, lemma_tally_remove,
    lemma_tally_single, lemma_xor_hashes, peelable, solved, tally, tally_all, Edge, Tally,
};
use crate::hashing::{
    hashes_to, lemma_reduce_bound, mix, mix_spec, reduce, reduce_spec, rotl64, rotl64_spec,
};
use crate::splitmix64::{seed_of_attempt, splitmix64, state_after};
use crate::xor::{try_enqueue, HSet, HashSet, KeyIndex};
use vstd::prelude::*;

verus! {

/// The multiplier that gives the hash its fourth part.
pub const H3: u64 = 0xBF58_476D_1CE4_E5B9;

/// The number of slots that a key touches.
pub const ARITY: usize = 3;

/// The number of segments in which the first slot of a key lies.
pub const SEGMENT_COUNT: usize = 100;

/// The number of segments of a filter.
pub const SLOTS: usize = 102;

/// The largest number of seeds that a builder tries.
pub const MAX_ATTEMPTS: usize = 1000;

/// Just the indexing hashes of a key.
pub struct H012 {
    pub hset: [usize; 3],
}

/// The segment of the first slot of `hash`.
pub open spec fn first_segment(hash: u64) -> int {
    reduce_spec(hash as u32, SEGMENT_COUNT as int)
}

/// The place inside its segment of the slot that `hash` touches in role `role`.
pub open spec fn place_in_segment(hash: u64, role: int, segment_length: int) -> int {
    if role == 0 {
        reduce_spec(rotl64_spec(hash, 21) as u32, segment_length)
    } else if role == 1 {
        reduce_spec(rotl64_spec(hash, 42) as u32, segment_length)
    } else {
        reduce_spec((H3.wrapping_mul(hash) >> 32) as u32, segment_length)
    }
}

/// The edge of `hash` in a filter with segments of length `segment_length`.
pub open spec fn fuse_edge(hash: u64, segment_length: int) -> Edge {
    let segment = first_segment(hash);
    Edge {
        hash,
        s0: segment * segment_length + place_in_segment(hash, 0, segment_length),
        s1: (segment + 1) * segment_length + place_in_segment(hash, 1, segment_length),
        s2: (segment + 2) * segment_length + place_in_segment(hash, 2, segment_length),
    }
}

/// The three slots of an edge lie in three segments that follow one
/// another, inside the array.
pub proof fn lemma_fuse_edge_fits(hash: u64, segment_length: int)
    requires
        0 < segment_length,
    ensures
        fuse_edge(hash, segment_length).fits(SLOTS * segment_length),
        0 <= first_segment(hash) < SEGMENT_COUNT,
        first_segment(hash) * segment_length <= fuse_edge(hash, segment_length).s0 < (first_segment(
            hash,
        ) + 1) * segment_length,
        (first_segment(hash) + 1) * segment_length <= fuse_edge(hash, segment_length).s1 < (
        first_segment(hash) + 2) * segment_length,
        (first_segment(hash) + 2) * segment_length <= fuse_edge(hash, segment_length).s2 < (
        first_segment(hash) + 3) * segment_length,
{
    let segment = first_segment(hash);
    lemma_reduce_bound(hash as u32, SEGMENT_COUNT as int);
    lemma_reduce_bound(rotl64_spec(hash, 21) as u32, segment_length);
    lemma_reduce_bound(rotl64_spec(hash, 42) as u32, segment_length);
    lemma_reduce_bound((H3.wrapping_mul(hash) >> 32) as u32, segment_length);
    lemma_segments(segment, segment_length);
}

/// The bounds of the three segments from `segment` on.
proof fn lemma_segments(segment: int, segment_length: int)
    requires
        0 <= segment < SEGMENT_COUNT,
        0 < segment_length,
    ensures
        0 <= segment * segment_length,
        (segment + 1) * segment_length == segment * segment_length + segment_length,
        (segment + 2) * segment_length == segment * segment_length + 2 * segment_length,
        (segment + 3) * segment_length == segment * segment_length + 3 * segment_length,
        (segment + 3) * segment_length <= SLOTS * segment_length,
{
    assert(0 <= segment * segment_length && (segment + 1) * segment_length == segment
        * segment_length + segment_length && (segment + 2) * segment_length == segment
        * segment_length + 2 * segment_length && (segment + 3) * segment_length == segment
        * segment_length + 3 * segment_length && (segment + 3) * segment_length <= 102
        * segment_length) by (nonlinear_arith)
        requires
            0 <= segment < 100,
            0 < segment_length,
    ;
}

/// The largest segment length of a filter: the number of its slots has to
/// fit the size of an array.
pub open spec fn max_segment_length() -> int {
    if SLOTS * 0xffff_ffff <= usize::MAX {
        0xffff_ffff
    } else {
        usize::MAX as int / SLOTS as int
    }
}

impl H012 {
    /// The three slots that `hash` selects.
    pub fn from(hash: u64, segment_length: usize) -> (r: H012)
        requires
            segment_length <= max_segment_length(),
        ensures
            r.hset[0] == fuse_edge(hash, segment_length as int).s0,
            r.hset[1] == fuse_edge(hash, segment_length as int).s1,
            r.hset[2] == fuse_edge(hash, segment_length as int).s2,
    {
        let r0 = hash as u32;
        let r1 = rotl64(hash, 21) as u32;
        let r2 = rotl64(hash, 42) as u32;
        let r3 = (H3.wrapping_mul(hash) >> 32) as u32;

        let seg = reduce(r0, SEGMENT_COUNT);
        proof {
            if segment_length > 0 {
                lemma_fuse_edge_fits(hash, segment_length as int);
            } else {
                assert(seg * 0 == 0 && (seg + 1) * 0 == 0 && (seg + 2) * 0 == 0) by (nonlinear_arith);
            }
            assert(102 * segment_length <= usize::MAX);
            assert((seg + 2) * segment_length <= 102 * segment_length) by (nonlinear_arith)
                requires
                    0 <= seg < 100,
                    0 <= segment_length,
            ;
            assert((seg + 1) * segment_length <= 102 * segment_length) by (nonlinear_arith)
                requires
                    0 <= seg < 100,
                    0 <= segment_length,
            ;
            assert(seg * segment_length <= 102 * segment_length) by (nonlinear_arith)
                requires
                    0 <= seg < 100,
                    0 <= segment_length,
            ;
            assert((seg + 2) * segment_length + segment_length <= 102 * segment_length)
                by (nonlinear_arith)
                requires
                    0 <= seg < 100,
                    0 <= segment_length,
            ;
        }
        H012 {
            hset: [
                seg * segment_length + reduce(r1, segment_length),
                (seg + 1) * segment_length + reduce(r2, segment_length),
                (seg + 2) * segment_length + reduce(r3, segment_length),
            ],
        }
    }
}

impl HashSet {
    /// The hash of `key` under `seed` and the three slots that it selects in
    /// a filter with segments of length `segment_length`.
    pub fn fuse_from(key: u64, segment_length: usize, seed: u64) -> (r: HashSet)
        requires
            segment_length <= max_segment_length(),
        ensures
            r.hash == mix_spec(key, seed),
            r.hset[0] == fuse_edge(r.hash, segment_length as int).s0,
            r.hset[1] == fuse_edge(r.hash, segment_length as int).s1,
            r.hset[2] == fuse_edge(r.hash, segment_length as int).s2,
    {
        let hash = mix(key, seed);
        let H012 { hset } = H012::from(hash, segment_length);

        HashSet { hash, hset }
    }
}

/// The edges of `keys` under `seed`, in the order of the keys.
pub open spec fn fuse_edges(keys: Seq<u64>, seed: u64, segment_length: int) -> Seq<Edge> {
    Seq::new(keys.len(), |i: int| fuse_edge(mix_spec(keys[i], seed), segment_length))
}

/// The state of one build attempt: the construction array H, the queue Q
/// of sets that may hold a single key, and the stack of keys taken away so
/// far. The ghost fields say which graph is being peeled and how far.
struct FusePeeler {
    segment_length: usize,
    sets: Vec<HSet>,
    queue: Vec<KeyIndex>,
    q_size: usize,
    stack: Vec<KeyIndex>,
    stack_size: usize,
    edges: Ghost<Seq<Edge>>,
    alive: Ghost<Set<int>>,
    order: Ghost<Seq<int>>,
}

impl FusePeeler {
    spec fn capacity(self) -> int {
        SLOTS * self.segment_length
    }

    /// The sizes of the arrays, and the graph is one of this layout.
    spec fn shaped(self) -> bool {
        &&& 0 < self.segment_length <= max_segment_length()
        &&& self.sets.len() == self.capacity()
        &&& self.queue.len() == self.capacity()
        &&& self.q_size <= self.capacity()
        &&& self.stack.len() == self.edges@.len()
        &&& self.edges@.len() <= u32::MAX
        &&& self.stack_size == self.order@.len()
        &&& self.stack_size <= self.edges@.len()
        &&& forall|i: int|
            0 <= i < self.edges@.len() ==> #[trigger] self.edges@[i] == fuse_edge(
                self.edges@[i].hash,
                self.segment_length as int,
            )
    }

    /// Every set holds the count and the mask of the keys that are left.
    spec fn counted(self) -> bool {
        forall|t: int|
            0 <= t < self.capacity() ==> {
                let tally = tally_all(self.edges@, self.alive@, t);
                &&& (#[trigger] self.sets[t]).count == tally.count
                &&& self.sets[t].mask == tally.mask
            }
    }

    /// The stack holds the keys that were taken, each with the slot through
    /// which it went; no key that is left touches such a slot.
    spec fn ordered(self) -> bool {
        let n = self.edges@.len();
        &&& self.order@.no_duplicates()
        &&& forall|p: int|
            0 <= p < self.order@.len() ==> 0 <= #[trigger] self.order@[p] < n
                && !self.alive@.contains(self.order@[p])
        &&& forall|i: int| self.alive@.contains(i) ==> 0 <= i < n
        &&& forall|i: int| 0 <= i < n && !self.alive@.contains(i) ==> self.order@.contains(i)
        &&& forall|p: int|
            0 <= p < self.stack_size ==> {
                let ki = #[trigger] self.stack[p];
                &&& ki.hash == self.edges@[self.order@[p]].hash
                &&& self.edges@[self.order@[p]].touches(ki.index as int)
            }
        &&& forall|p: int, q: int|
            0 <= p < q < self.stack_size ==> !self.edges@[#[trigger] self.order@[q]].touches(
                (#[trigger] self.stack[p]).index as int,
            )
        &&& forall|p: int, i: int|
            #![trigger self.stack[p], self.alive@.contains(i)]
            0 <= p < self.stack_size && self.alive@.contains(i) ==> !self.edges@[i].touches(
                self.stack[p].index as int,
            )
    }

    /// Every queue entry names a set that holds at most one key, and that
    /// key if it holds one; no set is named twice.
    spec fn queued(self) -> bool {
        &&& forall|q: int|
            0 <= q < self.q_size ==> {
                let e = #[trigger] self.queue[q];
                &&& e.index < self.capacity()
                &&& self.sets[e.index as int].count <= 1
                &&& self.sets[e.index as int].count == 1 ==> e.hash == self.sets[e.index as int].mask
            }
        &&& forall|q1: int, q2: int|
            0 <= q1 < q2 < self.q_size ==> (#[trigger] self.queue[q1]).index != (
            #[trigger] self.queue[q2]).index
    }

    /// Every set that holds a single key is in the queue.
    spec fn complete(self) -> bool {
        forall|t: int|
            0 <= t < self.capacity() && (#[trigger] self.sets[t]).count == 1 ==> exists|q: int|
                0 <= q < self.q_size && (#[trigger] self.queue[q]).index == t
    }

    spec fn inv(self) -> bool {
        &&& self.shaped()
        &&& self.counted()
        &&& self.ordered()
        &&& self.queued()
        &&& self.complete()
    }

    /// Whether `self` is nearer to the end of the peeling than `other`.
    spec fn nearer(self, other: FusePeeler) -> bool {
        ||| self.stack_size > other.stack_size
        ||| self.stack_size == other.stack_size && self.q_size < other.q_size
    }

    /// What `post` is after the key of `hash` has left the set `slot`.
    spec fn detached(pre: FusePeeler, post: FusePeeler, slot: int, hash: u64) -> bool {
        let before = pre.sets[slot];
        let after = HSet { count: (before.count - 1) as u32, mask: before.mask ^ hash };
        &&& post.segment_length == pre.segment_length
        &&& post.stack@ == pre.stack@
        &&& post.stack_size == pre.stack_size
        &&& post.edges@ == pre.edges@
        &&& post.alive@ == pre.alive@
        &&& post.order@ == pre.order@
        &&& post.sets@ =~= pre.sets@.update(slot, after)
        &&& if after.count == 1 {
            &&& post.q_size == pre.q_size + 1
            &&& post.queue@ =~= pre.queue@.update(
                pre.q_size as int,
                KeyIndex { hash: after.mask, index: slot as usize },
            )
        } else {
            &&& post.q_size == pre.q_size
            &&& post.queue@ =~= pre.queue@
        }
    }

    /// Removes the key of `hash` from the set `slot`, and enqueues that set
    /// if it now holds a single key.
    fn detach(&mut self, slot: usize, hash: u64)
        requires
            old(self).shaped(),
            slot < old(self).capacity(),
            old(self).sets[slot as int].count >= 1,
            old(self).sets[slot as int].count == 2 ==> old(self).q_size < old(self).capacity(),
        ensures
            FusePeeler::detached(*old(self), *final(self), slot as int, hash),
            final(self).shaped(),
    {
        self.sets[slot].mask ^= hash;
        self.sets[slot].count -= 1;
        try_enqueue(&self.sets, slot, &mut self.queue, &mut self.q_size);
    }

    /// The queue has room for sets that hold two keys or more: such sets
    /// are not in the queue yet.
    proof fn lemma_queue_room(self, extra: Seq<int>)
        requires
            self.shaped(),
            self.queued(),
            extra.no_duplicates(),
            forall|k: int|
                0 <= k < extra.len() ==> 0 <= #[trigger] extra[k] < self.capacity()
                    && self.sets[extra[k]].count >= 2,
        ensures
            self.q_size + extra.len() <= self.capacity(),
    {
        let entries = Seq::new(self.q_size as nat, |q: int| self.queue[q].index as int);
        let longer = entries + extra;
        assert forall|a: int, b: int| 0 <= a < longer.len() && 0 <= b < longer.len() && a != b
            implies longer[a] != longer[b] by {
            if a < entries.len() {
                assert(self.queue[a].index < self.capacity());
            } else {
                assert(longer[a] == extra[a - entries.len()]);
            }
            if b < entries.len() {
                assert(self.queue[b].index < self.capacity());
            } else {
                assert(longer[b] == extra[b - entries.len()]);
            }
        }
        assert forall|a: int| 0 <= a < longer.len() implies 0 <= #[trigger] longer[a]
            < self.capacity() by {
            if a < entries.len() {
                assert(self.queue[a].index < self.capacity());
            } else {
                assert(longer[a] == extra[a - entries.len()]);
            }
        }
        lemma_distinct_bounded(longer, self.capacity());
    }

    /// The stack has room for a key that is still in the graph.
    proof fn lemma_stack_room(self, i: int)
        requires
            self.shaped(),
            self.ordered(),
            self.alive@.contains(i),
        ensures
            self.stack_size < self.edges@.len(),
            self.order@.push(i).no_duplicates(),
    {
        let longer = self.order@.push(i);
        assert(longer.no_duplicates());
        lemma_distinct_bounded(longer, self.edges@.len() as int);
    }

    /// The key `i` is the one key left in the set that the top entry of the
    /// queue names.
    spec fn single(pre: FusePeeler, i: int) -> bool {
        let ki = pre.queue[pre.q_size - 1];
        let slot = ki.index as int;
        &&& 0 <= i < pre.edges@.len()
        &&& pre.alive@.contains(i)
        &&& pre.edges@[i].touches(slot)
        &&& pre.edges@[i].hash == ki.hash
        &&& pre.sets[slot].count == 1
        &&& forall|j: int|
            0 <= j < pre.edges@.len() && pre.alive@.contains(j) && (
            #[trigger] pre.edges@[j]).touches(slot) ==> j == i
    }

    /// What `mid` is after the top entry of the queue has gone on the stack
    /// as the key `i`.
    spec fn taken(pre: FusePeeler, mid: FusePeeler, i: int) -> bool {
        let ki = pre.queue[pre.q_size - 1];
        &&& mid.segment_length == pre.segment_length
        &&& mid.edges@ == pre.edges@
        &&& mid.stack@ == pre.stack@.update(pre.stack_size as int, ki)
        &&& mid.stack_size == pre.stack_size + 1
        &&& mid.order@ == pre.order@.push(i)
        &&& mid.alive@ == pre.alive@.remove(i)
        &&& mid.sets@ == pre.sets@
        &&& mid.queue@ == pre.queue@
        &&& mid.q_size == pre.q_size - 1
    }

    /// The states of one step that takes the key `i`.
    spec fn stepped(
        pre: FusePeeler,
        mid0: FusePeeler,
        mid1: FusePeeler,
        mid2: FusePeeler,
        post: FusePeeler,
        i: int,
    ) -> bool {
        let edge = pre.edges@[i];
        &&& pre.inv()
        &&& pre.q_size > 0
        &&& FusePeeler::single(pre, i)
        &&& FusePeeler::taken(pre, mid0, i)
        &&& FusePeeler::detached(mid0, mid1, edge.s0, edge.hash)
        &&& FusePeeler::detached(mid1, mid2, edge.s1, edge.hash)
        &&& FusePeeler::detached(mid2, post, edge.s2, edge.hash)
    }

    /// The sets of a state of a step, told by the sets before the step.
    proof fn lemma_step_sets(
        pre: FusePeeler,
        mid0: FusePeeler,
        mid1: FusePeeler,
        mid2: FusePeeler,
        post: FusePeeler,
        i: int,
    )
        requires
            FusePeeler::stepped(pre, mid0, mid1, mid2, post, i),
        ensures
            pre.edges@[i].fits(pre.capacity()),
            post.sets.len() == pre.sets.len(),
            forall|t: int|
                0 <= t < pre.capacity() && !pre.edges@[i].touches(t) ==> #[trigger] post.sets[t]
                    == pre.sets[t] && mid1.sets[t] == pre.sets[t] && mid2.sets[t] == pre.sets[t],
            forall|t: int|
                0 <= t < pre.capacity() && pre.edges@[i].touches(t) ==> (
                #[trigger] post.sets[t]).count == pre.sets[t].count - 1 && post.sets[t].mask
                    == pre.sets[t].mask ^ pre.edges@[i].hash && pre.sets[t].count >= 1,
            mid1.sets[pre.edges@[i].s1] == pre.sets[pre.edges@[i].s1],
            mid1.sets[pre.edges@[i].s2] == pre.sets[pre.edges@[i].s2],
            mid2.sets[pre.edges@[i].s2] == pre.sets[pre.edges@[i].s2],
            mid1.sets[pre.edges@[i].s0] == post.sets[pre.edges@[i].s0],
            mid2.sets[pre.edges@[i].s0] == post.sets[pre.edges@[i].s0],
            mid2.sets[pre.edges@[i].s1] == post.sets[pre.edges@[i].s1],
    {
        let n = pre.edges@.len() as int;
        let edge = pre.edges@[i];
        lemma_fuse_edge_fits(edge.hash, pre.segment_length as int);
        assert(edge == fuse_edge(edge.hash, pre.segment_length as int));
        assert(mid0.sets@ == pre.sets@);
        assert forall|t: int| 0 <= t < pre.capacity() && edge.touches(t) implies pre.sets[t].count
            >= 1 by {
            crate::graph::lemma_tally_positive(pre.edges@, pre.alive@, t, n, i);
            assert(pre.sets[t].count == tally_all(pre.edges@, pre.alive@, t).count);
        }
    }

    proof fn lemma_step_counted(
        pre: FusePeeler,
        mid0: FusePeeler,
        mid1: FusePeeler,
        mid2: FusePeeler,
        post: FusePeeler,
        i: int,
    )
        requires
            FusePeeler::stepped(pre, mid0, mid1, mid2, post, i),
        ensures
            post.counted(),
    {
        let n = pre.edges@.len() as int;
        let edge = pre.edges@[i];
        let hash = edge.hash;
        FusePeeler::lemma_step_sets(pre, mid0, mid1, mid2, post, i);
        assert forall|t: int| 0 <= t < post.capacity() implies {
            let tally = tally_all(post.edges@, post.alive@, t);
            &&& (#[trigger] post.sets[t]).count == tally.count
            &&& post.sets[t].mask == tally.mask
        } by {
            lemma_tally_remove(pre.edges@, pre.alive@, i, t, n);
            let old_set = pre.sets[t];
            assert(old_set.count == tally_all(pre.edges@, pre.alive@, t).count);
            lemma_xor_hashes(tally_all(post.edges@, post.alive@, t).mask, hash, 0);
        }
    }

    proof fn lemma_step_ordered(
        pre: FusePeeler,
        mid0: FusePeeler,
        mid1: FusePeeler,
        mid2: FusePeeler,
        post: FusePeeler,
        i: int,
    )
        requires
            FusePeeler::stepped(pre, mid0, mid1, mid2, post, i),
        ensures
            post.ordered(),
    {
        let n = pre.edges@.len() as int;
        let ki = pre.queue[pre.q_size - 1];
        let top = pre.stack_size as int;
        pre.lemma_stack_room(i);
        assert(post.order@ == pre.order@.push(i));
        assert(post.stack@ == mid0.stack@);
        assert(post.order@.no_duplicates());
        assert forall|x: int| 0 <= x < n && !post.alive@.contains(x) implies post.order@.contains(
            x,
        ) by {
            if x == i {
                assert(post.order@[top] == i);
            } else {
                assert(pre.order@.contains(x));
                let p = choose|p: int| 0 <= p < pre.order@.len() && pre.order@[p] == x;
                assert(post.order@[p] == x);
            }
        }
        assert forall|p: int| 0 <= p < post.stack_size implies {
            let e = #[trigger] post.stack[p];
            &&& e.hash == post.edges@[post.order@[p]].hash
            &&& post.edges@[post.order@[p]].touches(e.index as int)
        } by {
            if p < top {
                assert(post.stack[p] == pre.stack[p]);
            }
        }
        assert forall|p: int, r: int| 0 <= p < r < post.stack_size implies !post.edges@[
            #[trigger] post.order@[r]].touches((#[trigger] post.stack[p]).index as int) by {
            assert(post.stack[p] == pre.stack[p]);
            if r < top {
                assert(post.order@[r] == pre.order@[r]);
            } else {
                assert(pre.alive@.contains(i));
            }
        }
        assert forall|p: int, j: int|
            #![trigger post.stack[p], post.alive@.contains(j)]
            0 <= p < post.stack_size && post.alive@.contains(j) implies !post.edges@[j].touches(
            post.stack[p].index as int,
        ) by {
            assert(pre.alive@.contains(j));
            if p < top {
                assert(post.stack[p] == pre.stack[p]);
            }
        }
    }

    proof fn lemma_step_queued(
        pre: FusePeeler,
        mid0: FusePeeler,
        mid1: FusePeeler,
        mid2: FusePeeler,
        post: FusePeeler,
        i: int,
    )
        requires
            FusePeeler::stepped(pre, mid0, mid1, mid2, post, i),
        ensures
            post.shaped(),
            post.queued(),
            post.complete(),
            mid0.q_size < pre.capacity(),
            mid1.sets[pre.edges@[i].s1].count == 2 ==> mid1.q_size < pre.capacity(),
            mid2.sets[pre.edges@[i].s2].count == 2 ==> mid2.q_size < pre.capacity(),
    {
        let n = pre.edges@.len() as int;
        let edge = pre.edges@[i];
        let hash = edge.hash;
        let base = pre.q_size - 1;
        let ki = pre.queue[base];
        pre.lemma_stack_room(i);
        FusePeeler::lemma_step_sets(pre, mid0, mid1, mid2, post, i);
        let pushed0 = pre.sets[edge.s0].count == 2;
        let pushed1 = pre.sets[edge.s1].count == 2;
        let pushed2 = pre.sets[edge.s2].count == 2;
        let e0 = if pushed0 {
            seq![edge.s0]
        } else {
            Seq::<int>::empty()
        };
        let e1 = if pushed1 {
            e0.push(edge.s1)
        } else {
            e0
        };
        let e2 = if pushed2 {
            e1.push(edge.s2)
        } else {
            e1
        };
        pre.lemma_queue_room(e2);
        assert(mid0.queue@ == pre.queue@);
        assert(mid1.q_size == base + e0.len());
        assert(mid2.q_size == base + e1.len());
        assert(post.sets[edge.s2].count == pre.sets[edge.s2].count - 1);
        assert(mid2.sets[edge.s2] == pre.sets[edge.s2]);
        assert(post.q_size == base + e2.len());
        assert forall|q: int| 0 <= q < base implies #[trigger] post.queue[q] == pre.queue[q] by {
            assert(mid1.queue[q] == pre.queue[q]);
            assert(mid2.queue[q] == mid1.queue[q]);
        }
        assert forall|q: int| base <= q < post.q_size implies edge.touches(
            (#[trigger] post.queue[q]).index as int,
        ) && post.sets[post.queue[q].index as int].count == 1 && post.queue[q].hash
            == post.sets[post.queue[q].index as int].mask && post.queue[q].index == e2[q - base] by {
            if pushed0 && q == base {
                assert(mid1.queue[q].index == edge.s0);
                assert(mid2.queue[q] == mid1.queue[q]);
            } else if pushed1 && q == base + e0.len() {
                assert(mid2.queue[q].index == edge.s1);
            } else {
                assert(post.queue[q].index == edge.s2);
            }
        }
        assert forall|q: int| 0 <= q < post.q_size implies {
            let e = #[trigger] post.queue[q];
            &&& e.index < post.capacity()
            &&& post.sets[e.index as int].count <= 1
            &&& post.sets[e.index as int].count == 1 ==> e.hash == post.sets[e.index as int].mask
        } by {
            if q < base {
                let e = pre.queue[q];
                assert(post.queue[q] == e);
                assert(pre.sets[e.index as int].count <= 1);
            }
        }
        assert forall|q1: int, q2: int| 0 <= q1 < q2 < post.q_size implies (
        #[trigger] post.queue[q1]).index != (#[trigger] post.queue[q2]).index by {
            if q1 < base {
                assert(post.queue[q1] == pre.queue[q1]);
                assert(pre.sets[pre.queue[q1].index as int].count <= 1);
                if q2 < base {
                    assert(post.queue[q2] == pre.queue[q2]);
                } else {
                    assert(post.queue[q2].index == e2[q2 - base]);
                }
            } else {
                assert(post.queue[q1].index == e2[q1 - base]);
                assert(post.queue[q2].index == e2[q2 - base]);
            }
        }
        assert forall|t: int|
            0 <= t < post.capacity() && (#[trigger] post.sets[t]).count == 1 implies exists|q: int|
            0 <= q < post.q_size && (#[trigger] post.queue[q]).index == t by {
            if edge.touches(t) {
                if t == edge.s0 {
                    assert(pushed0);
                    assert(post.queue[base].index == e2[0]);
                } else if t == edge.s1 {
                    assert(pushed1);
                    let q = base + e0.len();
                    assert(post.queue[q].index == e2[q - base]);
                } else {
                    assert(pushed2);
                    let q = base + e1.len();
                    assert(post.queue[q].index == e2[q - base]);
                }
            } else {
                assert(pre.sets[t].count == 1);
                let q = choose|q: int| 0 <= q < pre.q_size && (#[trigger] pre.queue[q]).index == t;
                assert(q != base);
                assert(post.queue[q] == pre.queue[q]);
            }
        }
    }
}

impl FusePeeler {
    /// Without a top entry that names a set with no key, the state is as
    /// good as before.
    proof fn lemma_skip(self)
        requires
            self.inv(),
            self.q_size > 0,
            self.sets[self.queue[self.q_size - 1].index as int].count == 0,
        ensures
            (FusePeeler { q_size: (self.q_size - 1) as usize, ..self }).inv(),
    {
        let post = FusePeeler { q_size: (self.q_size - 1) as usize, ..self };
        assert(post.shaped());
        assert(post.counted());
        assert(post.ordered());
        assert forall|t: int|
            0 <= t < post.capacity() && (#[trigger] post.sets[t]).count == 1 implies exists|q: int|
            0 <= q < post.q_size && (#[trigger] post.queue[q]).index == t by {
            let q = choose|q: int| 0 <= q < self.q_size && (#[trigger] self.queue[q]).index == t;
            assert(post.queue[q] == self.queue[q]);
        }
        assert(post.queued());
    }

    /// Takes one entry from the queue. If its set still holds a key, the
    /// key goes on the stack and leaves its three sets.
    fn step(&mut self)
        requires
            old(self).inv(),
            old(self).q_size > 0,
        ensures
            final(self).inv(),
            final(self).edges@ == old(self).edges@,
            final(self).segment_length == old(self).segment_length,
            final(self).nearer(*old(self)),
    {
        self.q_size -= 1;
        let ki = self.queue[self.q_size];
        let ghost pre = *old(self);
        let ghost n = self.edges@.len() as int;
        if self.sets[ki.index].count == 0 {
            proof {
                assert(*self == FusePeeler { q_size: (pre.q_size - 1) as usize, ..pre });
                pre.lemma_skip();
            }
            return ;
        }
        let H012 { hset } = H012::from(ki.hash, self.segment_length);
        let ghost i = lemma_tally_single(self.edges@, self.alive@, ki.index as int, n);
        proof {
            lemma_fuse_edge_fits(self.edges@[i].hash, self.segment_length as int);
            pre.lemma_stack_room(i);
            assert(FusePeeler::single(pre, i));
        }
        self.stack[self.stack_size] = ki;
        self.stack_size += 1;
        proof {
            self.order@ = self.order@.push(i);
            self.alive@ = self.alive@.remove(i);
        }
        let ghost mid0 = *self;
        let ghost edge = pre.edges@[i];
        proof {
            assert(FusePeeler::taken(pre, mid0, i));
            assert(edge == fuse_edge(ki.hash, pre.segment_length as int));
            crate::graph::lemma_tally_positive(pre.edges@, pre.alive@, edge.s0, n, i);
            crate::graph::lemma_tally_positive(pre.edges@, pre.alive@, edge.s1, n, i);
            crate::graph::lemma_tally_positive(pre.edges@, pre.alive@, edge.s2, n, i);
            assert(pre.sets[edge.s0].count >= 1);
            assert(pre.sets[edge.s1].count >= 1);
            assert(pre.sets[edge.s2].count >= 1);
            pre.lemma_rooms(edge);
        }
        self.detach(hset[0], ki.hash);
        let ghost mid1 = *self;
        proof {
            assert(mid1.sets[edge.s1] == pre.sets[edge.s1]);
        }
        self.detach(hset[1], ki.hash);
        let ghost mid2 = *self;
        proof {
            assert(mid2.sets[edge.s2] == pre.sets[edge.s2]);
        }
        self.detach(hset[2], ki.hash);
        proof {
            let post = *self;
            assert(FusePeeler::stepped(pre, mid0, mid1, mid2, post, i));
            FusePeeler::lemma_step_counted(pre, mid0, mid1, mid2, post, i);
            FusePeeler::lemma_step_ordered(pre, mid0, mid1, mid2, post, i);
            FusePeeler::lemma_step_queued(pre, mid0, mid1, mid2, post, i);
        }
    }

    /// The queue has room for those of the three sets of an edge that hold
    /// two keys.
    proof fn lemma_rooms(self, edge: Edge)
        requires
            self.shaped(),
            self.queued(),
            edge.fits(self.capacity()),
        ensures
            self.q_size + (if self.sets[edge.s0].count == 2 {
                1int
            } else {
                0int
            }) + (if self.sets[edge.s1].count == 2 {
                1int
            } else {
                0int
            }) + (if self.sets[edge.s2].count == 2 {
                1int
            } else {
                0int
            }) <= self.capacity(),
    {
        let e0 = if self.sets[edge.s0].count == 2 {
            seq![edge.s0]
        } else {
            Seq::<int>::empty()
        };
        let e1 = if self.sets[edge.s1].count == 2 {
            e0.push(edge.s1)
        } else {
            e0
        };
        let e2 = if self.sets[edge.s2].count == 2 {
            e1.push(edge.s2)
        } else {
            e1
        };
        self.lemma_queue_room(e2);
    }
}

/// A block of `len` empty sets.
fn empty_sets(len: usize) -> (r: Vec<HSet>)
    ensures
        r.len() == len,
        forall|i: int| 0 <= i < len ==> (#[trigger] r[i]).count == 0 && r[i].mask == 0,
{
    let mut block: Vec<HSet> = Vec::with_capacity(len);
    let mut i: usize = 0;
    while i < len
        invariant
            i <= len,
            block.len() == i,
            forall|j: int| 0 <= j < i ==> (#[trigger] block[j]).count == 0 && block[j].mask == 0,
        decreases len - i,
    {
        block.push(HSet { count: 0, mask: 0 });
        i += 1;
    }
    block
}

/// A block of `len` entries for a queue or a stack.
fn blank_entries(len: usize) -> (r: Vec<KeyIndex>)
    ensures
        r.len() == len,
{
    let mut block: Vec<KeyIndex> = Vec::with_capacity(len);
    let mut i: usize = 0;
    while i < len
        invariant
            i <= len,
            block.len() == i,
        decreases len - i,
    {
        block.push(KeyIndex { hash: 0, index: 0 });
        i += 1;
    }
    block
}

/// With no edge in it, every slot has the empty tally.
proof fn lemma_tally_empty(edges: Seq<Edge>, slot: int, k: int)
    ensures
        tally(edges, below(0), slot, k) == Tally::empty(),
    decreases k,
{
    if k > 0 {
        lemma_tally_empty(edges, slot, k - 1);
    }
}

impl FusePeeler {
    /// All sets are empty, and so are the queue and the stack.
    spec fn cleared(self) -> bool {
        &&& self.shaped()
        &&& self.stack_size == 0
        &&& self.q_size == 0
        &&& forall|t: int|
            0 <= t < self.capacity() ==> (#[trigger] self.sets[t]).count == 0 && self.sets[t].mask
                == 0
    }

    /// The state while the keys are being added: the first `added` are in.
    spec fn filling(self, keys: Seq<u64>, seed: u64, added: int) -> bool {
        &&& self.shaped()
        &&& self.counted()
        &&& self.edges@ == fuse_edges(keys, seed, self.segment_length as int)
        &&& self.alive@ == below(added)
        &&& 0 <= added <= keys.len()
        &&& self.order@ == Seq::<int>::empty()
        &&& self.stack_size == 0
        &&& self.q_size == 0
    }

    /// The arrays for a build from `num_keys` keys.
    fn new(num_keys: usize, segment_length: usize) -> (r: FusePeeler)
        requires
            0 < segment_length <= max_segment_length(),
            num_keys <= u32::MAX,
        ensures
            r.cleared(),
            r.segment_length == segment_length,
            r.stack.len() == num_keys,
    {
        let capacity = SLOTS * segment_length;
        let ghost edges = Seq::new(
            num_keys as nat,
            |i: int| fuse_edge(0, segment_length as int),
        );
        FusePeeler {
            segment_length,
            sets: empty_sets(capacity),
            queue: blank_entries(capacity),
            q_size: 0,
            stack: blank_entries(num_keys),
            stack_size: 0,
            edges: Ghost(edges),
            alive: Ghost(Set::empty()),
            order: Ghost(Seq::empty()),
        }
    }

    /// Empties all sets, the queue and the stack.
    fn reset(&mut self)
        requires
            old(self).shaped(),
        ensures
            final(self).cleared(),
            final(self).segment_length == old(self).segment_length,
            final(self).stack.len() == old(self).stack.len(),
    {
        let capacity = self.sets.len();
        let mut t: usize = 0;
        while t < capacity
            invariant
                t <= capacity,
                capacity == self.sets.len(),
                forall|u: int|
                    0 <= u < t ==> (#[trigger] self.sets[u]).count == 0 && self.sets[u].mask == 0,
                self.segment_length == old(self).segment_length,
                self.queue == old(self).queue,
                self.stack == old(self).stack,
                self.edges == old(self).edges,
            decreases capacity - t,
        {
            self.sets[t] = HSet { count: 0, mask: 0 };
            t += 1;
        }
        self.q_size = 0;
        self.stack_size = 0;
        proof {
            self.order@ = Seq::empty();
            self.alive@ = Set::empty();
        }
    }

    /// What `post` is after the key of `hash` has come to the set `slot`.
    spec fn attached(pre: FusePeeler, post: FusePeeler, slot: int, hash: u64) -> bool {
        let before = pre.sets[slot];
        let after = HSet { count: (before.count + 1) as u32, mask: before.mask ^ hash };
        &&& post.segment_length == pre.segment_length
        &&& post.stack == pre.stack
        &&& post.stack_size == pre.stack_size
        &&& post.queue == pre.queue
        &&& post.q_size == pre.q_size
        &&& post.edges@ == pre.edges@
        &&& post.alive@ == pre.alive@
        &&& post.order@ == pre.order@
        &&& post.sets@ =~= pre.sets@.update(slot, after)
    }

    /// Adds the key of `hash` to the set `slot`.
    fn attach(&mut self, slot: usize, hash: u64)
        requires
            slot < old(self).sets.len(),
            old(self).sets[slot as int].count < u32::MAX,
        ensures
            FusePeeler::attached(*old(self), *final(self), slot as int, hash),
    {
        self.sets[slot].mask ^= hash;
        self.sets[slot].count += 1;
    }

    proof fn lemma_populate_step(
        pre: FusePeeler,
        mid0: FusePeeler,
        mid1: FusePeeler,
        post: FusePeeler,
        keys: Seq<u64>,
        seed: u64,
        i: int,
    )
        requires
            pre.filling(keys, seed, i),
            i < keys.len(),
            FusePeeler::attached(pre, mid0, pre.edges@[i].s0, pre.edges@[i].hash),
            FusePeeler::attached(mid0, mid1, pre.edges@[i].s1, pre.edges@[i].hash),
            FusePeeler::attached(mid1, post, pre.edges@[i].s2, pre.edges@[i].hash),
        ensures
            (FusePeeler { alive: Ghost(below(i + 1)), ..post }).filling(keys, seed, i + 1),
    {
        let n = pre.edges@.len() as int;
        let edge = pre.edges@[i];
        let fin = FusePeeler { alive: Ghost(below(i + 1)), ..post };
        lemma_fuse_edge_fits(edge.hash, pre.segment_length as int);
        assert(edge == fuse_edge(edge.hash, pre.segment_length as int));
        assert(below(i + 1) =~= below(i).insert(i));
        assert forall|t: int| 0 <= t < fin.capacity() implies {
            let tally = tally_all(fin.edges@, fin.alive@, t);
            &&& (#[trigger] fin.sets[t]).count == tally.count
            &&& fin.sets[t].mask == tally.mask
        } by {
            lemma_tally_insert(pre.edges@, pre.alive@, i, t, n);
            lemma_tally_bound(pre.edges@, below(i + 1), t, n);
            let old_set = pre.sets[t];
            assert(old_set.count == tally_all(pre.edges@, pre.alive@, t).count);
            assert(old_set.mask == tally_all(pre.edges@, pre.alive@, t).mask);
            if t == edge.s0 {
                assert(mid1.sets[t] == mid0.sets[t]);
                assert(post.sets[t] == mid1.sets[t]);
            } else if t == edge.s1 {
                assert(mid0.sets[t] == pre.sets[t]);
                assert(post.sets[t] == mid1.sets[t]);
            } else if t == edge.s2 {
                assert(mid0.sets[t] == pre.sets[t]);
                assert(mid1.sets[t] == mid0.sets[t]);
            } else {
                assert(mid0.sets[t] == pre.sets[t]);
                assert(mid1.sets[t] == mid0.sets[t]);
                assert(post.sets[t] == mid1.sets[t]);
            }
        }
        assert(fin.shaped());
    }

    /// Adds every key to the three sets that its hash selects.
    fn populate(&mut self, keys: &[u64], seed: u64)
        requires
            old(self).cleared(),
            keys@.len() == old(self).stack.len(),
        ensures
            final(self).filling(keys@, seed, keys@.len() as int),
            final(self).ordered(),
            final(self).segment_length == old(self).segment_length,
    {
        let ghost n = keys@.len() as int;
        proof {
            self.edges@ = fuse_edges(keys@, seed, self.segment_length as int);
            self.alive@ = below(0);
            self.order@ = Seq::empty();
            assert forall|t: int| 0 <= t < self.capacity() implies {
                let tally = tally_all(self.edges@, self.alive@, t);
                &&& (#[trigger] self.sets[t]).count == tally.count
                &&& self.sets[t].mask == tally.mask
            } by {
                lemma_tally_empty(self.edges@, t, n);
            }
        }
        let mut i: usize = 0;
        while i < keys.len()
            invariant
                i <= n,
                n == keys@.len(),
                self.filling(keys@, seed, i as int),
                self.segment_length == old(self).segment_length,
            decreases n - i,
        {
            let hs = HashSet::fuse_from(keys[i], self.segment_length, seed);
            let ghost pre = *self;
            proof {
                lemma_fuse_edge_fits(hs.hash, self.segment_length as int);
                assert(pre.edges@[i as int].hash == hs.hash);
                assert(pre.edges@[i as int] == fuse_edge(hs.hash, self.segment_length as int));
                assert forall|b: int| 0 <= b < 3 implies pre.sets[hs.hset[b] as int].count
                    < u32::MAX by {
                    let slot = hs.hset[b] as int;
                    lemma_tally_bound(pre.edges@, pre.alive@, slot, i as int);
                    lemma_tally_below(pre.edges@, slot, i as int, n);
                    assert(pre.sets[slot].count == tally_all(pre.edges@, pre.alive@, slot).count);
                }
            }
            self.attach(hs.hset[0], hs.hash);
            let ghost mid0 = *self;
            proof {
                assert(mid0.sets[hs.hset[1] as int] == pre.sets[hs.hset[1] as int]);
            }
            self.attach(hs.hset[1], hs.hash);
            let ghost mid1 = *self;
            proof {
                assert(mid0.sets[hs.hset[2] as int] == pre.sets[hs.hset[2] as int]);
                assert(mid1.sets[hs.hset[2] as int] == mid0.sets[hs.hset[2] as int]);
            }
            self.attach(hs.hset[2], hs.hash);
            proof {
                FusePeeler::lemma_populate_step(pre, mid0, mid1, *self, keys@, seed, i as int);
                self.alive@ = below(i + 1);
            }
            i += 1;
        }
    }

    /// Scans for sets with a single key and adds them to the queue.
    fn scan(&mut self)
        requires
            old(self).shaped(),
            old(self).counted(),
            old(self).ordered(),
            old(self).stack_size == 0,
            old(self).q_size == 0,
        ensures
            final(self).inv(),
            final(self).edges@ == old(self).edges@,
            final(self).alive@ == old(self).alive@,
            final(self).segment_length == old(self).segment_length,
            final(self).stack_size == 0,
    {
        let capacity = self.sets.len();
        let mut idx: usize = 0;
        while idx < capacity
            invariant
                idx <= capacity,
                capacity == self.capacity(),
                self.shaped(),
                self.counted(),
                self.ordered(),
                self.queued(),
                self.q_size <= idx,
                self.sets == old(self).sets,
                self.stack == old(self).stack,
                self.stack_size == 0,
                self.segment_length == old(self).segment_length,
                self.edges == old(self).edges,
                self.alive == old(self).alive,
                self.order == old(self).order,
                forall|q: int| 0 <= q < self.q_size ==> (#[trigger] self.queue[q]).index < idx,
                forall|t: int|
                    0 <= t < idx && (#[trigger] self.sets[t]).count == 1 ==> exists|q: int|
                        0 <= q < self.q_size && (#[trigger] self.queue[q]).index == t,
            decreases capacity - idx,
        {
            let ghost pre = *self;
            try_enqueue(&self.sets, idx, &mut self.queue, &mut self.q_size);
            proof {
                let post = *self;
                assert forall|q: int| 0 <= q < pre.q_size implies #[trigger] post.queue[q]
                    == pre.queue[q] by {}
                assert forall|t: int|
                    0 <= t < idx + 1 && (#[trigger] post.sets[t]).count == 1 implies exists|q: int|
                    0 <= q < post.q_size && (#[trigger] post.queue[q]).index == t by {
                    if t < idx {
                        let q = choose|q: int|
                            0 <= q < pre.q_size && (#[trigger] pre.queue[q]).index == t;
                        assert(post.queue[q] == pre.queue[q]);
                    } else {
                        assert(post.queue[pre.q_size as int].index == t);
                    }
                }
                assert forall|q: int| 0 <= q < post.q_size implies {
                    let e = #[trigger] post.queue[q];
                    &&& e.index < post.capacity()
                    &&& post.sets[e.index as int].count <= 1
                    &&& post.sets[e.index as int].count == 1 ==> e.hash
                        == post.sets[e.index as int].mask
                } by {
                    if q < pre.q_size {
                        assert(post.queue[q] == pre.queue[q]);
                    }
                }
                assert forall|q1: int, q2: int| 0 <= q1 < q2 < post.q_size implies (
                #[trigger] post.queue[q1]).index != (#[trigger] post.queue[q2]).index by {
                    assert(post.queue[q1] == pre.queue[q1]);
                    if q2 < pre.q_size {
                        assert(post.queue[q2] == pre.queue[q2]);
                    }
                }
                assert forall|q: int| 0 <= q < post.q_size implies (#[trigger] post.queue[q]).index
                    < idx + 1 by {
                    if q < pre.q_size {
                        assert(post.queue[q] == pre.queue[q]);
                    }
                }
            }
            idx += 1;
        }
    }

    /// Takes keys away, one after another, each through a set in which it is
    /// the only key, until no set with a single key is left.
    fn peel(&mut self)
        requires
            old(self).inv(),
        ensures
            final(self).inv(),
            final(self).edges@ == old(self).edges@,
            final(self).segment_length == old(self).segment_length,
            final(self).q_size == 0,
    {
        while self.q_size > 0
            invariant
                self.inv(),
                self.edges@ == old(self).edges@,
                self.segment_length == old(self).segment_length,
            decreases self.edges@.len() - self.stack_size, self.q_size,
        {
            self.step();
        }
    }

    /// When the peeling has ended with keys left over, the graph cannot be
    /// peeled at all.
    proof fn lemma_failed(self)
        requires
            self.inv(),
            self.q_size == 0,
            self.stack_size < self.edges@.len(),
        ensures
            !peelable(self.edges@),
    {
        let n = self.edges@.len() as int;
        let witness = lemma_distinct_misses(self.order@, n);
        assert(self.alive@.contains(witness));
        assert(self.alive@.subset_of(below(n)));
        assert forall|slot: int| (#[trigger] tally_all(self.edges@, self.alive@, slot)).count
            != 1 by {
            if tally_all(self.edges@, self.alive@, slot).count == 1 {
                let i = lemma_tally_single(self.edges@, self.alive@, slot, n);
                let edge = self.edges@[i];
                lemma_fuse_edge_fits(edge.hash, self.segment_length as int);
                assert(edge == fuse_edge(edge.hash, self.segment_length as int));
                assert(self.sets[slot].count == 1);
                let q = choose|q: int| 0 <= q < self.q_size && (#[trigger] self.queue[q]).index == slot;
            }
        }
        lemma_stuck(self.edges@, self.alive@, witness);
    }
}

/// The edges from `i` on are not in `below(i)`, so they do not count.
proof fn lemma_tally_below(edges: Seq<Edge>, slot: int, i: int, k: int)
    requires
        0 <= i <= k,
    ensures
        tally(edges, below(i), slot, k) == tally(edges, below(i), slot, i),
    decreases k,
{
    if k > i {
        lemma_tally_below(edges, slot, i, k - 1);
    }
}

/// The order in which the keys of a filter were taken away, with the seed
/// and the segment length under which this was possible.
pub struct FusePlan {
    pub seed: u64,
    pub segment_length: usize,
    pub stack: Vec<KeyIndex>,
}

impl FusePlan {
    /// The stack is a peeling order of the graph of its own hashes.
    pub open spec fn ordered(self) -> bool {
        let len = self.segment_length as int;
        &&& 0 < self.segment_length <= max_segment_length()
        &&& forall|p: int|
            0 <= p < self.stack.len() ==> fuse_edge((#[trigger] self.stack[p]).hash, len).touches(
                self.stack[p].index as int,
            )
        &&& forall|p: int, q: int|
            0 <= p < q < self.stack.len() ==> !fuse_edge((#[trigger] self.stack[q]).hash, len).touches(
                (#[trigger] self.stack[p]).index as int,
            )
    }

    /// The stack holds `hash`.
    pub open spec fn holds(self, hash: u64) -> bool {
        exists|p: int| 0 <= p < self.stack.len() && (#[trigger] self.stack[p]).hash == hash
    }

    /// The stack holds the hash of every key.
    pub open spec fn covers(self, keys: Seq<u64>) -> bool {
        forall|i: int| 0 <= i < keys.len() ==> self.holds(#[trigger] mix_spec(keys[i], self.seed))
    }

    /// Every hash of the stack is the hash of a key.
    pub open spec fn drawn_from(self, keys: Seq<u64>) -> bool {
        forall|p: int|
            0 <= p < self.stack.len() ==> hashes_to(keys, self.seed, (#[trigger] self.stack[p]).hash)
    }

    /// Some key of the stack touches `slot`.
    pub open spec fn touched(self, slot: int) -> bool {
        exists|p: int|
            0 <= p < self.stack.len() && fuse_edge(
                (#[trigger] self.stack[p]).hash,
                self.segment_length as int,
            ).touches(slot)
    }
}

/// The segment length of a filter with `capacity` slots asked for.
pub open spec fn fuse_segment_length(capacity: usize) -> int {
    capacity as int / SLOTS as int
}

/// Whether the graph of `keys` under the seed of attempt `attempt` can be peeled.
pub open spec fn fuse_attempt_succeeds(keys: Seq<u64>, segment_length: int, attempt: nat) -> bool {
    peelable(fuse_edges(keys, seed_of_attempt(attempt), segment_length))
}

/// Attempt `attempt` is the first whose graph can be peeled.
pub open spec fn fuse_first_success(keys: Seq<u64>, segment_length: int, attempt: nat) -> bool {
    &&& fuse_attempt_succeeds(keys, segment_length, attempt)
    &&& forall|earlier: nat|
        earlier < attempt ==> !fuse_attempt_succeeds(keys, segment_length, earlier)
}

impl FusePeeler {
    /// When the peeling has taken every key, the stack is a peeling order
    /// that covers the keys, and the graph can be peeled.
    proof fn lemma_succeeded(self, keys: Seq<u64>, seed: u64)
        requires
            self.inv(),
            self.stack_size == self.edges@.len(),
            self.edges@ == fuse_edges(keys, seed, self.segment_length as int),
        ensures
            peelable(self.edges@),
            (FusePlan { seed, segment_length: self.segment_length, stack: self.stack }).ordered(),
            (FusePlan { seed, segment_length: self.segment_length, stack: self.stack }).covers(keys),
            (FusePlan { seed, segment_length: self.segment_length, stack: self.stack }).drawn_from(
                keys,
            ),
    {
        let n = self.edges@.len() as int;
        let len = self.segment_length as int;
        let plan = FusePlan { seed, segment_length: self.segment_length, stack: self.stack };
        let slots = Seq::new(n as nat, |p: int| self.stack[p].index as int);
        assert forall|i: int| 0 <= i < n implies self.order@.contains(i) by {
            if self.alive@.contains(i) {
                self.lemma_stack_room(i);
            }
        }
        assert forall|p: int| 0 <= p < n implies self.edges@[#[trigger] self.order@[p]].touches(
            slots[p],
        ) by {
            assert(self.edges@[self.order@[p]].touches(self.stack[p].index as int));
        }
        assert forall|p: int, q: int| 0 <= p < q < n implies !self.edges@[
            #[trigger] self.order@[q]].touches(#[trigger] slots[p]) by {
            assert(!self.edges@[self.order@[q]].touches(self.stack[p].index as int));
        }
        lemma_peeled(self.edges@, self.order@, slots);
        assert forall|p: int| 0 <= p < plan.stack.len() implies fuse_edge(
            (#[trigger] plan.stack[p]).hash,
            len,
        ).touches(plan.stack[p].index as int) by {
            let e = self.edges@[self.order@[p]];
            assert(e == fuse_edge(e.hash, len));
            assert(self.stack[p].hash == e.hash);
        }
        assert forall|p: int, q: int| 0 <= p < q < plan.stack.len() implies !fuse_edge(
            (#[trigger] plan.stack[q]).hash,
            len,
        ).touches((#[trigger] plan.stack[p]).index as int) by {
            let e = self.edges@[self.order@[q]];
            assert(e == fuse_edge(e.hash, len));
            assert(self.stack[q].hash == e.hash);
        }
        assert forall|i: int| 0 <= i < keys.len() implies plan.holds(
            #[trigger] mix_spec(keys[i], plan.seed),
        ) by {
            assert(self.order@.contains(i));
            let p = choose|p: int| 0 <= p < self.order@.len() && self.order@[p] == i;
            assert(self.stack[p].hash == self.edges@[self.order@[p]].hash);
            assert(self.edges@[i] == fuse_edge(mix_spec(keys[i], seed), len));
            assert(plan.stack[p].hash == mix_spec(keys[i], plan.seed));
        }
        assert forall|p: int| 0 <= p < plan.stack.len() implies hashes_to(
            keys,
            plan.seed,
            (#[trigger] plan.stack[p]).hash,
        ) by {
            let i = self.order@[p];
            assert(self.stack[p].hash == self.edges@[i].hash);
            assert(self.edges@[i] == fuse_edge(mix_spec(keys[i], seed), len));
            assert(mix_spec(keys[i], plan.seed) == plan.stack[p].hash);
        }
    }
}

/// Looks for a seed under which the graph of `keys` can be peeled, and
/// peels it. The seeds come from the generator in its fixed order; the
/// search ends with the first that works, or after `MAX_ATTEMPTS` seeds.
pub fn fuse_peel(keys: &[u64], segment_length: usize) -> (r: Option<FusePlan>)
    requires
        keys@.len() <= u32::MAX,
        0 < segment_length <= max_segment_length(),
    ensures
        match r {
            Some(plan) => {
                &&& plan.segment_length == segment_length
                &&& plan.stack.len() == keys@.len()
                &&& plan.ordered()
                &&& plan.covers(keys@)
                &&& plan.drawn_from(keys@)
                &&& exists|attempt: nat|
                    attempt < MAX_ATTEMPTS && plan.seed == seed_of_attempt(attempt)
                        && #[trigger] fuse_first_success(keys@, segment_length as int, attempt)
            },
            None => forall|attempt: nat|
                attempt < MAX_ATTEMPTS ==> !#[trigger] fuse_attempt_succeeds(
                    keys@,
                    segment_length as int,
                    attempt,
                ),
        },
{
    let num_keys = keys.len();
    let mut peeler = FusePeeler::new(num_keys, segment_length);
    let mut rng: u64 = 1;
    let mut seed = splitmix64(&mut rng);
    let mut attempt: usize = 0;
    proof {
        reveal_with_fuel(state_after, 2);
    }
    while attempt < MAX_ATTEMPTS
        invariant
            attempt <= MAX_ATTEMPTS,
            num_keys == keys@.len(),
            peeler.cleared(),
            peeler.segment_length == segment_length,
            peeler.stack.len() == num_keys,
            rng == state_after((attempt + 1) as nat),
            seed == seed_of_attempt(attempt as nat),
            forall|earlier: nat|
                earlier < attempt ==> !#[trigger] fuse_attempt_succeeds(
                    keys@,
                    segment_length as int,
                    earlier,
                ),
        decreases MAX_ATTEMPTS - attempt,
    {
        peeler.populate(keys, seed);
        peeler.scan();
        peeler.peel();
        if peeler.stack_size == num_keys {
            proof {
                peeler.lemma_succeeded(keys@, seed);
                assert(fuse_first_success(keys@, segment_length as int, attempt as nat));
            }
            return Some(FusePlan { seed, segment_length, stack: peeler.stack });
        }
        proof {
            peeler.lemma_failed();
            assert(!fuse_attempt_succeeds(keys@, segment_length as int, attempt as nat));
        }
        // Filter failed to be created; reset and try again.
        peeler.reset();
        seed = splitmix64(&mut rng);
        attempt += 1;
    }
    None
}

/// Fills the slots so that the query equation holds for every key of the
/// plan, going through the plan from its end. `fingerprints` holds what the
/// slots that no key needs are left with.
pub fn fuse_assign<F: Fingerprint>(plan: &FusePlan, fingerprints: Vec<F>) -> (fps: Vec<F>)
    requires
        plan.ordered(),
        fingerprints.len() == SLOTS * plan.segment_length,
    ensures
        fps.len() == SLOTS * plan.segment_length,
        forall|p: int|
            0 <= p < plan.stack.len() ==> solved(
                fps@,
                fuse_edge((#[trigger] plan.stack[p]).hash, plan.segment_length as int),
            ),
        forall|t: int|
            0 <= t < fps.len() ==> #[trigger] fps[t] == fingerprints[t] || plan.touched(t),
{
    let segment_length = plan.segment_length;
    let ghost len = segment_length as int;
    let ghost fill = fingerprints@;
    let mut fps = fingerprints;
    let mut p: usize = plan.stack.len();
    while p > 0
        invariant
            p <= plan.stack.len(),
            plan.ordered(),
            segment_length == plan.segment_length,
            len == segment_length,
            fps.len() == SLOTS * segment_length,
            fill.len() == fps.len(),
            forall|q: int|
                p <= q < plan.stack.len() ==> solved(
                    fps@,
                    fuse_edge((#[trigger] plan.stack[q]).hash, len),
                ),
            forall|t: int| 0 <= t < fps.len() ==> #[trigger] fps[t] == fill[t] || plan.touched(t),
        decreases p,
    {
        p -= 1;
        let ki = plan.stack[p];
        let H012 { hset } = H012::from(ki.hash, segment_length);
        let h0 = hset[0];
        let h1 = hset[1];
        let h2 = hset[2];
        let ghost edge = fuse_edge(ki.hash, len);
        proof {
            lemma_fuse_edge_fits(ki.hash, len);
            assert(edge.touches(plan.stack[p as int].index as int));
        }
        let fp = F::from_hash(ki.hash);
        let value = if ki.index == h0 {
            fp.xor(fps[h1]).xor(fps[h2])
        } else if ki.index == h1 {
            fp.xor(fps[h2]).xor(fps[h0])
        } else {
            fp.xor(fps[h0]).xor(fps[h1])
        };
        let ghost before = fps@;
        fps[ki.index] = value;
        proof {
            let role = edge.role_at(ki.index as int) as int;
            lemma_assign_solves(before, edge, role, value);
            assert(fps@ == before.update(edge.slot(role), value));
            assert forall|q: int| p < q < plan.stack.len() implies solved(
                fps@,
                fuse_edge((#[trigger] plan.stack[q]).hash, len),
            ) by {
                let other = fuse_edge(plan.stack[q].hash, len);
                lemma_fuse_edge_fits(plan.stack[q].hash, len);
                assert(!other.touches(plan.stack[p as int].index as int));
                lemma_assign_keeps(before, other, ki.index as int, value);
            }
            assert forall|t: int| 0 <= t < fps.len() implies #[trigger] fps[t] == fill[t]
                || plan.touched(t) by {
                if t == ki.index {
                    assert(fuse_edge(plan.stack[p as int].hash, len).touches(t));
                } else {
                    assert(fps[t] == before[t]);
                }
            }
        }
    }
    fps
}

/// The message of a build from keys that are not all distinct.
pub const FUSE_DUPLICATE_KEYS: &'static str =
    "Fuse filters must be constructed from a collection containing all distinct keys.";

/// The message of a build that found no seed under which the keys can be peeled.
pub const FUSE_CONSTRUCTION_FAILED: &'static str = "Failed to construct fuse filter.";

/// What a Fuse filter is made of.
pub struct FuseParts<F> {
    /// The seed for the filter
    pub seed: u64,
    /// The number of blocks in the filter
    pub segment_length: usize,
    /// The fingerprints for the filter
    pub fingerprints: Seq<F>,
}

impl<F: Fingerprint> FuseParts<F> {
    /// There are 102 segments of slots, each of the segment length. A
    /// filter for no keys may have segments of length zero, and no slots.
    pub open spec fn wf(self) -> bool {
        &&& self.segment_length <= max_segment_length()
        &&& self.fingerprints.len() == SLOTS * self.segment_length
    }

    /// The edge of `key`: its hash and its three slots.
    pub open spec fn edge(self, key: u64) -> Edge {
        fuse_edge(mix_spec(key, self.seed), self.segment_length as int)
    }

    /// The answer of the filter for `key`: whether the fingerprint of the
    /// hash of the key is the xor of the three slots of the key. A filter
    /// without slots holds no key.
    pub open spec fn contains(self, key: u64) -> bool {
        self.segment_length > 0 && solved(self.fingerprints, self.edge(key))
    }

    /// None of `keys` touches `slot`.
    pub open spec fn unused(self, keys: Seq<u64>, slot: int) -> bool {
        forall|i: int| 0 <= i < keys.len() ==> !self.edge(#[trigger] keys[i]).touches(slot)
    }

    /// The slots that none of `keys` touches hold zero.
    pub open spec fn blank_where_unused(self, keys: Seq<u64>) -> bool {
        forall|slot: int|
            0 <= slot < self.fingerprints.len() && self.unused(keys, slot) ==> (
            #[trigger] self.fingerprints[slot]).bits() == 0
    }

    /// The filter was built from `keys` for `capacity` slots: it has the
    /// segment length that goes with the capacity and the seed of the first
    /// attempt whose graph can be peeled, and it answers `true` for each of
    /// the keys.
    pub open spec fn built_from(self, keys: Seq<u64>, capacity: usize) -> bool {
        &&& self.wf()
        &&& self.segment_length == fuse_segment_length(capacity)
        &&& exists|attempt: nat|
            attempt < MAX_ATTEMPTS && self.seed == seed_of_attempt(attempt)
                && #[trigger] fuse_first_success(keys, self.segment_length as int, attempt)
        &&& forall|i: int| 0 <= i < keys.len() ==> self.contains(#[trigger] keys[i])
    }
}

/// What a build from `keys` for `capacity` slots gives: an error for keys
/// that are not distinct or that cannot be peeled under any of the seeds,
/// else a filter built from them, in which the slots that no key touches
/// hold zero unless they were filled at random. `parts` is what the filter
/// is made of, if there is one.
pub open spec fn fuse_build_result<F: Fingerprint>(
    keys: Seq<u64>,
    capacity: usize,
    fill: Fill,
    parts: Option<FuseParts<F>>,
    error: Option<&'static str>,
) -> bool {
    if !keys.no_duplicates() {
        parts is None && error == Some(FUSE_DUPLICATE_KEYS)
    } else if forall|attempt: nat|
        attempt < MAX_ATTEMPTS ==> !#[trigger] fuse_attempt_succeeds(
            keys,
            fuse_segment_length(capacity),
            attempt,
        ) {
        parts is None && error == Some(FUSE_CONSTRUCTION_FAILED)
    } else {
        &&& error is None
        &&& parts is Some
        &&& parts->0.built_from(keys, capacity)
        &&& fill == Fill::Zero ==> parts->0.blank_where_unused(keys)
    }
}

/// Answers whether the filter made of these parts contains `key`.
pub fn fuse_contains<F: Fingerprint>(
    seed: u64,
    segment_length: usize,
    fingerprints: &[F],
    key: u64,
) -> (r: bool)
    requires
        (FuseParts { seed, segment_length, fingerprints: fingerprints@ }).wf(),
    ensures
        r == (FuseParts { seed, segment_length, fingerprints: fingerprints@ }).contains(key),
{
    if segment_length == 0 {
        return false;
    }
    let hs = HashSet::fuse_from(key, segment_length, seed);
    let slots = fingerprints.len();
    proof {
        lemma_fuse_edge_fits(hs.hash, segment_length as int);
    }
    let fp = F::from_hash(hs.hash);
    fp.same(fingerprints[hs.hset[0]].xor(fingerprints[hs.hset[1]]).xor(fingerprints[hs.hset[2]]))
}

/// Builds the fingerprints of a Fuse filter for `keys`, with `capacity`
/// slots asked for. The slots that no key needs are left at zero.
pub fn fuse_build<F: Fingerprint>(keys: &[u64], capacity: usize) -> (r: Result<
    (u64, usize, Vec<F>),
    &'static str,
>)
    requires
        keys@.len() <= u32::MAX,
        keys@.len() == 0 || SLOTS <= capacity,
        capacity as int / SLOTS as int <= max_segment_length(),
    ensures
        fuse_build_result(
            keys@,
            capacity,
            Fill::Zero,
            match r {
                Ok(t) => Some(FuseParts { seed: t.0, segment_length: t.1, fingerprints: t.2@ }),
                Err(_) => None,
            },
            match r {
                Ok(_) => None,
                Err(e) => Some(e),
            },
        ),
{
    fuse_build_filled(keys, capacity, Fill::Zero)
}

/// Builds the fingerprints of a Fuse filter for `keys`, with `capacity`
/// slots asked for. The slots that no key needs are left with what `fill`
/// says. With keys, 102 slots or more have to be asked for; for no keys
/// fewer will do, and the filter then has no slots.
pub fn fuse_build_filled<F: Fingerprint>(keys: &[u64], capacity: usize, fill: Fill) -> (r: Result<
    (u64, usize, Vec<F>),
    &'static str,
>)
    requires
        keys@.len() <= u32::MAX,
        keys@.len() == 0 || SLOTS <= capacity,
        capacity as int / SLOTS as int <= max_segment_length(),
    ensures
        fuse_build_result(
            keys@,
            capacity,
            fill,
            match r {
                Ok(t) => Some(FuseParts { seed: t.0, segment_length: t.1, fingerprints: t.2@ }),
                Err(_) => None,
            },
            match r {
                Ok(_) => None,
                Err(e) => Some(e),
            },
        ),
{
    if !all_distinct(keys) {
        return Err(FUSE_DUPLICATE_KEYS);
    }
    // The capacity is rounded down to whole segments.
    let segment_length = capacity / SLOTS;
    if segment_length == 0 {
        // Fewer slots than segments were asked for, so there are no keys:
        // the filter has no slots, and the first seed.
        let mut rng: u64 = 1;
        let seed = splitmix64(&mut rng);
        let fingerprints: Vec<F> = Vec::new();
        proof {
            reveal_with_fuel(state_after, 2);
            lemma_peelable_empty(fuse_edges(keys@, seed, 0));
            assert(fuse_first_success(keys@, 0, 0));
            assert(fuse_attempt_succeeds(keys@, fuse_segment_length(capacity), 0));
            let parts = FuseParts { seed, segment_length, fingerprints: fingerprints@ };
            assert(parts.built_from(keys@, capacity));
        }
        return Ok((seed, segment_length, fingerprints));
    }
    assert(segment_length >= 1 && SLOTS * segment_length <= capacity) by (nonlinear_arith)
        requires
            segment_length == capacity as int / 102,
            segment_length >= 1,
            SLOTS == 102,
    ;
    let slots = segment_length * SLOTS;
    match fuse_peel(keys, segment_length) {
        None => Err(FUSE_CONSTRUCTION_FAILED),
        Some(plan) => {
            let blank = make_fp_block::<F>(slots, fill);
            let ghost initial = blank@;
            let fingerprints = fuse_assign::<F>(&plan, blank);
            proof {
                let parts = FuseParts {
                    seed: plan.seed,
                    segment_length: plan.segment_length,
                    fingerprints: fingerprints@,
                };
                if fill == Fill::Zero {
                    assert forall|slot: int|
                        0 <= slot < parts.fingerprints.len() && parts.unused(
                            keys@,
                            slot,
                        ) implies (#[trigger] parts.fingerprints[slot]).bits() == 0 by {
                        if plan.touched(slot) {
                            let p = choose|p: int|
                                0 <= p < plan.stack.len() && fuse_edge(
                                    (#[trigger] plan.stack[p]).hash,
                                    plan.segment_length as int,
                                ).touches(slot);
                            assert(hashes_to(keys@, plan.seed, plan.stack[p].hash));
                            let i = choose|i: int|
                                0 <= i < keys@.len() && mix_spec(#[trigger] keys@[i], plan.seed)
                                    == plan.stack[p].hash;
                            assert(parts.edge(keys@[i]) == fuse_edge(
                                plan.stack[p].hash,
                                plan.segment_length as int,
                            ));
                        }
                        assert(fingerprints[slot] == initial[slot]);
                    }
                }
                assert forall|i: int| 0 <= i < keys@.len() implies parts.contains(
                    #[trigger] keys@[i],
                ) by {
                    let hash = mix_spec(keys@[i], plan.seed);
                    assert(plan.holds(hash));
                    let p = choose|p: int|
                        0 <= p < plan.stack.len() && (#[trigger] plan.stack[p]).hash == hash;
                    assert(solved(
                        fingerprints@,
                        fuse_edge(plan.stack[p].hash, plan.segment_length as int),
                    ));
                }
                let attempt = choose|attempt: nat|
                    attempt < MAX_ATTEMPTS && plan.seed == seed_of_attempt(attempt)
                        && #[trigger] fuse_first_success(keys@, segment_length as int, attempt);
                assert(fuse_attempt_succeeds(keys@, segment_length as int, attempt));
                assert(segment_length == fuse_segment_length(capacity));
                assert(parts.wf());
                assert(parts.built_from(keys@, capacity));
            }
            Ok((plan.seed, plan.segment_length, fingerprints))
        },
    }
}

/// No false negatives: a filter that was built from keys answers `true` for
/// each of them. The answer is the query equation: the fingerprint of the
/// hash of the key is the xor of the three slots of the key.
pub proof fn lemma_fuse_no_false_negatives<F: Fingerprint>(
    parts: FuseParts<F>,
    keys: Seq<u64>,
    capacity: usize,
    i: int,
)
    requires
        parts.built_from(keys, capacity),
        0 <= i < keys.len(),
    ensures
        parts.contains(keys[i]),
        parts.segment_length > 0,
        parts.edge(keys[i]).fits(parts.fingerprints.len() as int),
        F::of_hash(mix_spec(keys[i], parts.seed)).bits() == parts.fingerprints[parts.edge(
            keys[i],
        ).s0].bits() ^ parts.fingerprints[parts.edge(keys[i]).s1].bits() ^ parts.fingerprints[parts.edge(
            keys[i],
        ).s2].bits(),
{
    lemma_fuse_edge_fits(mix_spec(keys[i], parts.seed), parts.segment_length as int);
}

/// A build from distinct keys that ends with a filter ends with one that
/// answers `true` for each of the keys, and a build that ends with an error
/// ends with the error of a failed construction.
pub proof fn lemma_fuse_build_holds_keys<F: Fingerprint>(
    keys: Seq<u64>,
    capacity: usize,
    fill: Fill,
    parts: Option<FuseParts<F>>,
    error: Option<&'static str>,
)
    requires
        keys.no_duplicates(),
        fuse_build_result(keys, capacity, fill, parts, error),
    ensures
        parts is Some ==> forall|i: int| 0 <= i < keys.len() ==> parts->0.contains(#[trigger] keys[i]),
        parts is None ==> error == Some(FUSE_CONSTRUCTION_FAILED),
        parts is Some <==> error is None,
{
}

} // verus!
