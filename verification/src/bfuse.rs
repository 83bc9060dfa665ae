//! The Binary Fuse family: the slots form segments of a power-of-two length,
//! and a key touches one slot in each of three segments that follow one
//! another. This module holds the layout, the query and the builder that all
//! widths share.

use crate::graph::{
    below, lemma_distinct_bounded, lemma_distinct_misses, lemma_peeled, lemma_stuck,
    lemma_tally_insert, lemma_tally_monotone, lemma_tally_other, lemma_tally_remove,
    lemma_tally_roles, lemma_tally_single, lemma_xor_hashes, lemma_xor_roles, peelable, tally,
    tally_all, Edge, Tally,
};
use crate::fill::{make_fp_block, Fill};
use crate::fingerprint::Fingerprint;
use crate::graph::{lemma_assign_keeps, lemma_assign_solves, solved};
use crate::distinct::all_distinct;
use crate::hashing::{hashes_to, lemma_mix_injective, mix, mix_spec};
use crate::sizing::{
    lemma_one_key, lemma_segment_length_is_power, lemma_segments_are_short, segment_length,
    segment_length_spec, MAX_SEGMENT_LENGTH,
};
use crate::splitmix64::{seed_of_attempt, splitmix64, state_after};
use vstd::prelude::*;

verus! {

/// The number of slots that a key touches.
pub const ARITY: u32 = 3;

/// The small record that a query needs beside the fingerprints.
#[derive(Clone, Copy, Debug, PartialEq, Eq, Structural)]
pub struct Descriptor {
    /// The seed for the filter
    pub seed: u64,
    /// The length of a segment
    pub segment_length: u32,
    /// `segment_length - 1`
    pub segment_length_mask: u32,
    /// The number of slots in which the first slot of a key lies
    pub segment_count_length: u32,
}

impl Descriptor {
    /// The segment length is a power of two from 4 to 262144, the mask goes
    /// with it, and the slots in which a first slot lies are whole segments,
    /// at least one.
    pub open spec fn wf(self) -> bool {
        &&& 4 <= self.segment_length <= MAX_SEGMENT_LENGTH
        &&& self.segment_length & sub1(self.segment_length) == 0
        &&& self.segment_length_mask == self.segment_length - 1
        &&& self.segment_count_length >= self.segment_length
        &&& self.segment_count_length & self.segment_length_mask == 0
        &&& self.segment_count_length + 2 * self.segment_length <= u32::MAX
    }

    /// The number of fingerprints of a filter with this descriptor.
    pub open spec fn array_len(self) -> int {
        self.segment_count_length + 2 * self.segment_length
    }

    /// The edge of `hash` in a filter with this descriptor.
    pub open spec fn edge_of(self, hash: u64) -> Edge {
        bfuse_edge(
            hash,
            self.segment_length,
            self.segment_length_mask,
            self.segment_count_length,
        )
    }
}

/// `x - 1` for a positive `x`.
pub open spec fn sub1(x: u32) -> u32 {
    (x - 1) as u32
}

/// The first slot of `hash`: its high bits scaled to `[0, segment_count_length)`.
pub open spec fn first_slot(hash: u64, segment_count_length: u32) -> u32 {
    ((hash as int * segment_count_length as int) / 0x1_0000_0000_0000_0000) as u32
}

/// The three slots of `hash`, with all arithmetic truncating.
pub open spec fn hash_of_hash_spec(
    hash: u64,
    segment_length: u32,
    segment_length_mask: u32,
    segment_count_length: u32,
) -> (u32, u32, u32) {
    let h0 = first_slot(hash, segment_count_length);
    let h1 = h0.wrapping_add(segment_length);
    let h2 = h1.wrapping_add(segment_length);
    (
        h0,
        h1 ^ (((hash >> 18) as u32) & segment_length_mask),
        h2 ^ ((hash as u32) & segment_length_mask),
    )
}

/// The edge of `hash`.
pub open spec fn bfuse_edge(
    hash: u64,
    segment_length: u32,
    segment_length_mask: u32,
    segment_count_length: u32,
) -> Edge {
    let h = hash_of_hash_spec(hash, segment_length, segment_length_mask, segment_count_length);
    Edge { hash, s0: h.0 as int, s1: h.1 as int, s2: h.2 as int }
}

/// The three slots that `hash` selects.
pub fn hash_of_hash(
    hash: u64,
    segment_length: u32,
    segment_length_mask: u32,
    segment_count_length: u32,
) -> (r: (u32, u32, u32))
    ensures
        r == hash_of_hash_spec(hash, segment_length, segment_length_mask, segment_count_length),
{
    let wide: u128 = hash as u128;
    let scale: u128 = segment_count_length as u128;
    assert(wide * scale <= 0xffff_ffff_ffff_ffff * 0xffff_ffff) by (nonlinear_arith)
        requires
            wide <= 0xffff_ffff_ffff_ffff,
            scale <= 0xffff_ffff,
    ;
    let product: u128 = wide * scale;
    let hi: u64 = (product >> 64) as u64;
    assert(product >> 64 == product / 0x1_0000_0000_0000_0000) by (bit_vector);
    let h0: u32 = hi as u32;
    let mut h1: u32 = h0.wrapping_add(segment_length);
    let mut h2: u32 = h1.wrapping_add(segment_length);
    h1 ^= ((hash >> 18) as u32) & segment_length_mask;
    h2 ^= (hash as u32) & segment_length_mask;
    (h0, h1, h2)
}

/// `x` modulo 3 for an `x` below 6.
pub open spec fn mod3_spec(x: u8) -> u8 {
    if x > 2 {
        (x - 3) as u8
    } else {
        x
    }
}

/// Reduces a role that went up by one or two back to `0..3`.
pub fn mod3(x: u8) -> (r: u8)
    ensures
        r == mod3_spec(x),
        x < 6 ==> r == x % 3,
{
    if x > 2 {
        x - 3
    } else {
        x
    }
}

/// The first slot of a hash lies in the slots of a descriptor that has any.
pub proof fn lemma_first_slot_bound(hash: u64, segment_count_length: u32)
    requires
        segment_count_length > 0,
    ensures
        first_slot(hash, segment_count_length) < segment_count_length,
        first_slot(hash, segment_count_length) as int == (hash as int * segment_count_length as int)
            / 0x1_0000_0000_0000_0000,
{
    let h = hash as int;
    let s = segment_count_length as int;
    assert(0 <= (h * s) / 0x1_0000_0000_0000_0000 < s) by (nonlinear_arith)
        requires
            0 <= h < 0x1_0000_0000_0000_0000,
            0 < s,
    ;
}

/// In a well-formed descriptor the three slots of a hash lie in three
/// segments that follow one another, inside the array.
pub proof fn lemma_bfuse_edge_fits(d: Descriptor, hash: u64)
    requires
        d.wf(),
    ensures
        d.edge_of(hash).fits(d.array_len()),
        d.edge_of(hash).s0 < d.segment_count_length,
{
    let len = d.segment_length;
    let mask = d.segment_length_mask;
    let scl = d.segment_count_length;
    lemma_first_slot_bound(hash, scl);
    let h0 = first_slot(hash, scl);
    let x1 = ((hash >> 18) as u32) & mask;
    let x2 = (hash as u32) & mask;
    let h1 = h0.wrapping_add(len);
    let h2 = h1.wrapping_add(len);
    assert(h1 == h0 + len);
    assert(h2 == h0 + 2 * len);
    let y1 = h1 ^ x1;
    let y2 = h2 ^ x2;
    assert(x1 <= mask && x2 <= mask) by (bit_vector)
        requires
            x1 == ((hash >> 18) as u32) & mask,
            x2 == (hash as u32) & mask,
    ;
    // The base of the segment of h0, and the room above it.
    let base = h0 & !mask;
    assert(base <= h0 && h0 - base <= mask && base & mask == 0 && base + len <= scl)
        by (bit_vector)
        requires
            base == h0 & !mask,
            h0 < scl,
            scl & mask == 0,
            mask == sub1(len),
            len & sub1(len) == 0,
            len >= 4,
    ;
    assert(y1 & !mask == (h1 & !mask) && y2 & !mask == (h2 & !mask)) by (bit_vector)
        requires
            y1 == h1 ^ x1,
            y2 == h2 ^ x2,
            x1 <= mask,
            x2 <= mask,
            mask == sub1(len),
            len & sub1(len) == 0,
            len >= 4,
    ;
    assert(h1 & !mask == base + len && h2 & !mask == base + 2 * len) by (bit_vector)
        requires
            h1 == h0 + len,
            h2 == h0 + 2 * len,
            base == h0 & !mask,
            mask == sub1(len),
            len & sub1(len) == 0,
            len >= 4,
            h0 <= 0xffff_ffff - 2 * len,
    ;
    assert(y1 >= y1 & !mask && y1 - (y1 & !mask) <= mask && y2 >= y2 & !mask && y2 - (y2 & !mask)
        <= mask) by (bit_vector);
}

/// The count of a slot and the xor of the roles of its keys in one byte.
pub open spec fn packed(count: nat, roles: u8) -> u8 {
    ((4 * count + roles) % 256) as u8
}

/// The state of one build attempt: per slot the packed count and the xor of
/// the hashes, the stack `alone` of slots that may hold a single key, and
/// the keys taken away so far in `reverse_order` with their roles in
/// `reverse_h`. The ghost fields say which graph is being peeled and how
/// far.
struct BinaryFusePeeler {
    desc: Descriptor,
    block_bits: u32,
    start_pos: Vec<usize>,
    t2count: Vec<u8>,
    t2hash: Vec<u64>,
    alone: Vec<u32>,
    reverse_order: Vec<u64>,
    reverse_h: Vec<u8>,
    q_size: usize,
    stack_size: usize,
    edges: Ghost<Seq<Edge>>,
    alive: Ghost<Set<int>>,
    order: Ghost<Seq<int>>,
    frozen: Ghost<Set<int>>,
}

impl BinaryFusePeeler {
    /// The sizes of the arrays, and the graph is one of this layout.
    spec fn shaped(self) -> bool {
        &&& self.desc.wf()
        &&& 1 <= self.block_bits <= 31
        &&& self.start_pos.len() == pow2_u32(self.block_bits)
        &&& self.t2count.len() == self.desc.array_len()
        &&& self.t2hash.len() == self.desc.array_len()
        &&& self.alone.len() == self.desc.array_len()
        &&& self.reverse_order.len() == self.edges@.len() + 1
        &&& self.reverse_h.len() == self.edges@.len()
        &&& self.edges@.len() < u32::MAX
        &&& self.q_size <= self.desc.array_len()
        &&& self.stack_size == self.order@.len()
        &&& self.stack_size <= self.edges@.len()
        &&& forall|i: int|
            0 <= i < self.edges@.len() ==> #[trigger] self.edges@[i] == self.desc.edge_of(
                self.edges@[i].hash,
            )
    }

    /// Every slot through which no key was taken holds the packed count and
    /// the xor of the hashes of the keys that are left.
    spec fn counted(self) -> bool {
        &&& forall|t: int|
            0 <= t < self.desc.array_len() && !self.frozen@.contains(t) ==> {
                let tally = tally_all(self.edges@, self.alive@, t);
                &&& #[trigger] self.t2count[t] == packed(tally.count, tally.roles)
                &&& self.t2hash[t] == tally.mask
            }
        &&& forall|t: int| (#[trigger] tally_all(self.edges@, self.alive@, t)).count <= 63
    }

    /// The stack holds the keys that were taken, each with the role of the
    /// slot through which it went; no key that is left touches such a slot.
    spec fn ordered(self) -> bool {
        let n = self.edges@.len();
        &&& self.order@.no_duplicates()
        &&& forall|p: int|
            0 <= p < self.order@.len() ==> 0 <= #[trigger] self.order@[p] < n
                && !self.alive@.contains(self.order@[p])
        &&& forall|i: int| self.alive@.contains(i) ==> 0 <= i < n
        &&& forall|i: int| 0 <= i < n && !self.alive@.contains(i) ==> self.order@.contains(i)
        &&& forall|p: int|
            0 <= p < self.stack_size ==> {
                let edge = self.edges@[self.order@[p]];
                &&& #[trigger] self.reverse_order[p] == edge.hash
                &&& self.reverse_h[p] < 3
                &&& self.frozen@.contains(edge.slot(self.reverse_h[p] as int))
            }
        &&& forall|p: int, q: int|
            0 <= p < q < self.stack_size ==> !self.edges@[#[trigger] self.order@[q]].touches(
                self.edges@[#[trigger] self.order@[p]].slot(self.reverse_h[p] as int),
            )
        &&& forall|t: int, i: int|
            #![trigger self.frozen@.contains(t), self.alive@.contains(i)]
            self.frozen@.contains(t) && self.alive@.contains(i) ==> !self.edges@[i].touches(t)
    }

    /// Every entry of `alone` names a slot that holds at most one key; no
    /// slot is named twice.
    spec fn queued(self) -> bool {
        &&& forall|q: int|
            0 <= q < self.q_size ==> {
                let t = #[trigger] self.alone[q];
                &&& t < self.desc.array_len()
                &&& !self.frozen@.contains(t as int)
                &&& self.t2count[t as int] < 8
            }
        &&& forall|q1: int, q2: int|
            0 <= q1 < q2 < self.q_size ==> #[trigger] self.alone[q1] != #[trigger] self.alone[q2]
    }

    /// Every slot that holds a single key and through which no key was taken
    /// is in `alone`.
    spec fn complete(self) -> bool {
        forall|t: int|
            0 <= t < self.desc.array_len() && !self.frozen@.contains(t) && 4
                <= #[trigger] self.t2count[t] < 8 ==> exists|q: int|
                0 <= q < self.q_size && #[trigger] self.alone[q] == t
    }

    spec fn inv(self) -> bool {
        &&& self.shaped()
        &&& self.counted()
        &&& self.ordered()
        &&& self.queued()
        &&& self.complete()
    }

    /// Whether `self` is nearer to the end of the peeling than `other`.
    spec fn nearer(self, other: BinaryFusePeeler) -> bool {
        ||| self.stack_size > other.stack_size
        ||| self.stack_size == other.stack_size && self.q_size < other.q_size
    }

    /// What `post` is after the key of `hash` has left `slot`, which it
    /// touched in role `role`.
    spec fn detached(pre: BinaryFusePeeler, post: BinaryFusePeeler, slot: int, role: u8, hash: u64) -> bool {
        let before = pre.t2count[slot];
        &&& post.desc == pre.desc
        &&& post.block_bits == pre.block_bits
        &&& post.start_pos == pre.start_pos
        &&& post.reverse_order@ == pre.reverse_order@
        &&& post.reverse_h@ == pre.reverse_h@
        &&& post.stack_size == pre.stack_size
        &&& post.edges@ == pre.edges@
        &&& post.alive@ == pre.alive@
        &&& post.order@ == pre.order@
        &&& post.frozen@ == pre.frozen@
        &&& post.t2count@ =~= pre.t2count@.update(slot, ((before - 4) as u8) ^ role)
        &&& post.t2hash@ =~= pre.t2hash@.update(slot, pre.t2hash[slot] ^ hash)
        &&& post.alone@ =~= pre.alone@.update(pre.q_size as int, slot as u32)
        &&& post.q_size == if 8 <= before < 12 {
            pre.q_size + 1
        } else {
            pre.q_size as int
        }
    }

    /// Removes the key of `hash` from `slot`, and enqueues the slot if it
    /// now holds a single key.
    fn detach(&mut self, slot: u32, role: u8, hash: u64)
        requires
            old(self).shaped(),
            slot < old(self).desc.array_len(),
            old(self).q_size < old(self).desc.array_len(),
            old(self).t2count[slot as int] >= 4,
        ensures
            BinaryFusePeeler::detached(*old(self), *final(self), slot as int, role, hash),
            final(self).shaped(),
    {
        let index = slot as usize;
        self.alone[self.q_size] = slot;
        let byte: u8 = self.t2count[index];
        let count: u8 = byte >> 2;
        proof {
            lemma_byte_parts(byte, 0);
        }
        if count == 2 {
            self.q_size += 1;
        }
        self.t2count[index] -= 4;
        self.t2count[index] ^= role;
        self.t2hash[index] ^= hash;
    }
}

/// The count and the roles can be read back from a packed byte.
proof fn lemma_unpack(byte: u8, count: nat, roles: u8)
    requires
        count <= 63,
        roles <= 3,
        byte == packed(count, roles),
    ensures
        byte == 4 * count + roles,
        byte >> 2 == count,
        byte & 3 == roles,
{
    lemma_byte_parts(byte, 0);
}

/// The two parts of a packed byte, and what the exclusive or with a role
/// does to them: it changes the low two bits only.
proof fn lemma_byte_parts(byte: u8, role: u8)
    ensures
        byte >> 2 == byte / 4,
        byte & 3 == byte % 4,
        role <= 3 ==> byte ^ role == byte - (byte & 3) + ((byte & 3) ^ role),
        role <= 3 ==> (byte & 3) ^ role <= 3,
{
    assert(byte >> 2 == byte / 4 && byte & 3 == byte % 4 && (role <= 3 ==> byte ^ role == byte - (
    byte & 3) + ((byte & 3) ^ role)) && (role <= 3 ==> (byte & 3) ^ role <= 3)) by (bit_vector);
}

/// Taking a key of role `role` away from a packed byte.
proof fn lemma_lower(byte: u8, count: nat, roles: u8, role: u8)
    requires
        1 <= count <= 63,
        roles <= 3,
        role <= 3,
        byte == packed(count, roles),
    ensures
        byte >= 4,
        ((byte - 4) as u8) ^ role == packed((count - 1) as nat, roles ^ role),
        roles ^ role <= 3,
        (4 <= (((byte - 4) as u8) ^ role) < 8) == (8 <= byte < 12),
        (8 <= byte < 12) == (count == 2),
{
    let lower = (byte - 4) as u8;
    lemma_xor_roles(roles, role, 0);
    lemma_byte_parts(lower, role);
}

/// Bringing a key of role `role` to a packed byte, with a count that wraps
/// around after 63.
proof fn lemma_raise(byte: u8, count: nat, roles: u8, role: u8)
    requires
        count <= 63,
        roles <= 3,
        role <= 3,
        byte == packed(count, roles),
    ensures
        byte.wrapping_add(4) ^ role == packed(count + 1, roles ^ role),
        roles ^ role <= 3,
        (byte.wrapping_add(4) ^ role) < 4 <==> count == 63,
{
    let upper = byte.wrapping_add(4);
    lemma_xor_roles(roles, role, 0);
    lemma_byte_parts(upper, role);
}

impl BinaryFusePeeler {
    /// The entries of `alone` with one more slot that holds two keys or
    /// more, or through which a key was taken, still fit into the array.
    proof fn lemma_queue_room(self, extra: Seq<int>)
        requires
            self.shaped(),
            self.queued(),
            extra.no_duplicates(),
            forall|k: int|
                0 <= k < extra.len() ==> 0 <= #[trigger] extra[k] < self.desc.array_len() && (
                self.frozen@.contains(extra[k]) || self.t2count[extra[k]] >= 8),
        ensures
            self.q_size + extra.len() <= self.desc.array_len(),
    {
        let entries = Seq::new(self.q_size as nat, |q: int| self.alone[q] as int);
        let longer = entries + extra;
        assert forall|a: int, b: int| 0 <= a < longer.len() && 0 <= b < longer.len() && a != b
            implies longer[a] != longer[b] by {
            if a < entries.len() {
                assert(self.alone[a] < self.desc.array_len());
            } else {
                assert(longer[a] == extra[a - entries.len()]);
            }
            if b < entries.len() {
                assert(self.alone[b] < self.desc.array_len());
            } else {
                assert(longer[b] == extra[b - entries.len()]);
            }
        }
        assert forall|a: int| 0 <= a < longer.len() implies 0 <= #[trigger] longer[a]
            < self.desc.array_len() by {
            if a < entries.len() {
                assert(self.alone[a] < self.desc.array_len());
            } else {
                assert(longer[a] == extra[a - entries.len()]);
            }
        }
        lemma_distinct_bounded(longer, self.desc.array_len());
    }

    /// The stack has room for a key that is still in the graph.
    proof fn lemma_stack_room(self, i: int)
        requires
            self.shaped(),
            self.ordered(),
            self.alive@.contains(i),
        ensures
            self.stack_size < self.edges@.len(),
            self.order@.push(i).no_duplicates(),
    {
        let longer = self.order@.push(i);
        assert(longer.no_duplicates());
        lemma_distinct_bounded(longer, self.edges@.len() as int);
    }

    /// The key `i` is the one key left in the slot that the top entry of
    /// `alone` names.
    spec fn single(pre: BinaryFusePeeler, i: int) -> bool {
        let slot = pre.alone[pre.q_size - 1] as int;
        &&& 0 <= i < pre.edges@.len()
        &&& pre.alive@.contains(i)
        &&& pre.edges@[i].touches(slot)
        &&& pre.edges@[i].hash == pre.t2hash[slot]
        &&& pre.t2count[slot] == 4 + pre.edges@[i].role_at(slot)
        &&& forall|j: int|
            0 <= j < pre.edges@.len() && pre.alive@.contains(j) && (
            #[trigger] pre.edges@[j]).touches(slot) ==> j == i
    }

    /// What `mid` is after the top entry of `alone` has gone on the stack
    /// as the key `i`.
    spec fn taken(pre: BinaryFusePeeler, mid: BinaryFusePeeler, i: int) -> bool {
        let slot = pre.alone[pre.q_size - 1] as int;
        let top = pre.stack_size as int;
        &&& mid.desc == pre.desc
        &&& mid.block_bits == pre.block_bits
        &&& mid.start_pos == pre.start_pos
        &&& mid.edges@ == pre.edges@
        &&& mid.reverse_order@ == pre.reverse_order@.update(top, pre.edges@[i].hash)
        &&& mid.reverse_h@ == pre.reverse_h@.update(top, pre.edges@[i].role_at(slot))
        &&& mid.stack_size == top + 1
        &&& mid.order@ == pre.order@.push(i)
        &&& mid.alive@ == pre.alive@.remove(i)
        &&& mid.frozen@ == pre.frozen@.insert(slot)
        &&& mid.t2count@ == pre.t2count@
        &&& mid.t2hash@ == pre.t2hash@
        &&& mid.alone@ == pre.alone@
        &&& mid.q_size == pre.q_size - 1
    }

    /// The states of one step that takes the key `i`.
    spec fn stepped(
        pre: BinaryFusePeeler,
        mid0: BinaryFusePeeler,
        mid1: BinaryFusePeeler,
        post: BinaryFusePeeler,
        i: int,
    ) -> bool {
        let slot = pre.alone[pre.q_size - 1] as int;
        let edge = pre.edges@[i];
        let found = edge.role_at(slot) as int;
        let role1 = (found + 1) % 3;
        let role2 = (found + 2) % 3;
        &&& pre.inv()
        &&& pre.q_size > 0
        &&& BinaryFusePeeler::single(pre, i)
        &&& BinaryFusePeeler::taken(pre, mid0, i)
        &&& BinaryFusePeeler::detached(mid0, mid1, edge.slot(role1), role1 as u8, edge.hash)
        &&& BinaryFusePeeler::detached(mid1, post, edge.slot(role2), role2 as u8, edge.hash)
    }

    proof fn lemma_step_counted(
        pre: BinaryFusePeeler,
        mid0: BinaryFusePeeler,
        mid1: BinaryFusePeeler,
        post: BinaryFusePeeler,
        i: int,
    )
        requires
            BinaryFusePeeler::stepped(pre, mid0, mid1, post, i),
        ensures
            post.counted(),
    {
        let n = pre.edges@.len() as int;
        let edge = pre.edges@[i];
        let hash = edge.hash;
        let slot = pre.alone[pre.q_size - 1] as int;
        let found = edge.role_at(slot) as int;
        let role1 = (found + 1) % 3;
        let role2 = (found + 2) % 3;
        lemma_bfuse_edge_fits(pre.desc, hash);
        assert(edge == pre.desc.edge_of(hash));
        assert forall|t: int|
            0 <= t < post.desc.array_len() && !post.frozen@.contains(t) implies {
            let tally = tally_all(post.edges@, post.alive@, t);
            &&& #[trigger] post.t2count[t] == packed(tally.count, tally.roles)
            &&& post.t2hash[t] == tally.mask
        } by {
            lemma_tally_remove(pre.edges@, pre.alive@, i, t, n);
            lemma_tally_roles(pre.edges@, pre.alive@, t, n);
            assert(!pre.frozen@.contains(t));
            let old_tally = tally_all(pre.edges@, pre.alive@, t);
            let new_tally = tally_all(post.edges@, post.alive@, t);
            assert(pre.t2count[t] == packed(old_tally.count, old_tally.roles));
            assert(pre.t2hash[t] == old_tally.mask);
            let role = edge.role_at(t);
            lemma_xor_hashes(new_tally.mask, hash, 0);
            lemma_xor_roles(new_tally.roles, role, 0);
            assert(mid0.t2count[t] == pre.t2count[t]);
            if edge.touches(t) {
                let byte = pre.t2count[t];
                lemma_lower(byte, old_tally.count, old_tally.roles, role);
                let lower = (byte - 4) as u8;
                if t == edge.slot(role1) {
                    assert(role == role1);
                    assert(mid1.t2count[t] == lower ^ role);
                    assert(post.t2count[t] == mid1.t2count[t]);
                } else {
                    assert(t == edge.slot(role2));
                    assert(role == role2);
                    assert(mid1.t2count[t] == byte);
                    assert(post.t2count[t] == lower ^ role);
                }
            } else {
                assert(mid1.t2count[t] == mid0.t2count[t]);
                assert(post.t2count[t] == mid1.t2count[t]);
            }
        }
        assert forall|t: int| (#[trigger] tally_all(post.edges@, post.alive@, t)).count <= 63 by {
            lemma_tally_remove(pre.edges@, pre.alive@, i, t, n);
            assert(tally_all(pre.edges@, pre.alive@, t).count <= 63);
        }
    }

    proof fn lemma_step_ordered(
        pre: BinaryFusePeeler,
        mid0: BinaryFusePeeler,
        mid1: BinaryFusePeeler,
        post: BinaryFusePeeler,
        i: int,
    )
        requires
            BinaryFusePeeler::stepped(pre, mid0, mid1, post, i),
        ensures
            post.ordered(),
    {
        let n = pre.edges@.len() as int;
        let slot = pre.alone[pre.q_size - 1] as int;
        let top = pre.stack_size as int;
        let edge = pre.edges@[i];
        pre.lemma_stack_room(i);
        assert(post.order@ == pre.order@.push(i));
        assert(post.reverse_order@ == mid0.reverse_order@);
        assert(post.reverse_h@ == mid0.reverse_h@);
        assert(post.order@.no_duplicates());
        assert(edge.slot(edge.role_at(slot) as int) == slot);
        assert forall|x: int| 0 <= x < n && !post.alive@.contains(x) implies post.order@.contains(
            x,
        ) by {
            if x == i {
                assert(post.order@[top] == i);
            } else {
                assert(pre.order@.contains(x));
                let p = choose|p: int| 0 <= p < pre.order@.len() && pre.order@[p] == x;
                assert(post.order@[p] == x);
            }
        }
        assert forall|p: int| 0 <= p < post.stack_size implies {
            let e = post.edges@[post.order@[p]];
            &&& #[trigger] post.reverse_order[p] == e.hash
            &&& post.reverse_h[p] < 3
            &&& post.frozen@.contains(e.slot(post.reverse_h[p] as int))
        } by {
            if p < top {
                assert(post.reverse_order[p] == pre.reverse_order[p]);
                assert(post.reverse_h[p] == pre.reverse_h[p]);
                assert(post.order@[p] == pre.order@[p]);
            }
        }
        assert forall|p: int, r: int| 0 <= p < r < post.stack_size implies !post.edges@[
            #[trigger] post.order@[r]].touches(
            post.edges@[#[trigger] post.order@[p]].slot(post.reverse_h[p] as int),
        ) by {
            assert(post.reverse_h[p] == pre.reverse_h[p]);
            assert(post.order@[p] == pre.order@[p]);
            assert(pre.reverse_order[p] == pre.edges@[pre.order@[p]].hash);
            if r < top {
                assert(post.order@[r] == pre.order@[r]);
            } else {
                let t = pre.edges@[pre.order@[p]].slot(pre.reverse_h[p] as int);
                assert(pre.frozen@.contains(t));
                assert(pre.alive@.contains(i));
            }
        }
        assert forall|t: int, j: int|
            #![trigger post.frozen@.contains(t), post.alive@.contains(j)]
            post.frozen@.contains(t) && post.alive@.contains(j) implies !post.edges@[j].touches(
            t,
        ) by {
            assert(pre.alive@.contains(j));
            if t != slot {
                assert(pre.frozen@.contains(t));
            }
        }
    }

    proof fn lemma_step_queued(
        pre: BinaryFusePeeler,
        mid0: BinaryFusePeeler,
        mid1: BinaryFusePeeler,
        post: BinaryFusePeeler,
        i: int,
    )
        requires
            BinaryFusePeeler::stepped(pre, mid0, mid1, post, i),
        ensures
            post.shaped(),
            post.queued(),
            post.complete(),
    {
        let n = pre.edges@.len() as int;
        let edge = pre.edges@[i];
        let hash = edge.hash;
        let slot = pre.alone[pre.q_size - 1] as int;
        let found = edge.role_at(slot) as int;
        let role1 = (found + 1) % 3;
        let role2 = (found + 2) % 3;
        let slot1 = edge.slot(role1);
        let slot2 = edge.slot(role2);
        let base = pre.q_size - 1;
        pre.lemma_stack_room(i);
        lemma_bfuse_edge_fits(pre.desc, hash);
        assert(edge == pre.desc.edge_of(hash));
        assert(!pre.frozen@.contains(slot1));
        assert(!pre.frozen@.contains(slot2));
        lemma_tally_remove(pre.edges@, pre.alive@, i, slot1, n);
        lemma_tally_remove(pre.edges@, pre.alive@, i, slot2, n);
        lemma_tally_roles(pre.edges@, pre.alive@, slot1, n);
        lemma_tally_roles(pre.edges@, pre.alive@, slot2, n);
        let tally1 = tally_all(pre.edges@, pre.alive@, slot1);
        let tally2 = tally_all(pre.edges@, pre.alive@, slot2);
        let byte1 = pre.t2count[slot1];
        let byte2 = pre.t2count[slot2];
        assert(tally1.count <= 63 && tally2.count <= 63);
        lemma_lower(byte1, tally1.count, tally1.roles, role1 as u8);
        lemma_lower(byte2, tally2.count, tally2.roles, role2 as u8);
        let lower1 = (byte1 - 4) as u8;
        let lower2 = (byte2 - 4) as u8;
        assert(mid0.t2count[slot1] == byte1);
        assert(mid1.t2count[slot1] == lower1 ^ (role1 as u8));
        assert(mid1.t2count[slot2] == byte2);
        assert(post.t2count[slot1] == lower1 ^ (role1 as u8));
        assert(post.t2count[slot2] == lower2 ^ (role2 as u8));
        assert(mid0.alone@ == pre.alone@);
        assert(mid1.alone@ == pre.alone@.update(base, slot1 as u32));
        assert(post.alone@ == mid1.alone@.update(mid1.q_size as int, slot2 as u32));
        let pushed1 = 8 <= byte1 < 12;
        let pushed2 = 8 <= byte2 < 12;
        let extra = if pushed1 {
            if pushed2 {
                seq![slot, slot1, slot2]
            } else {
                seq![slot, slot1]
            }
        } else {
            if pushed2 {
                seq![slot, slot2]
            } else {
                seq![slot]
            }
        };
        assert(post.q_size == base + extra.len() - 1);
        // The queue without its top entry, seen as a state of its own, has
        // room for the slots that come in.
        let shorter = BinaryFusePeeler {
            q_size: base as usize,
            frozen: Ghost(pre.frozen@.insert(slot)),
            ..pre
        };
        assert(shorter.queued()) by {
            assert forall|q: int| 0 <= q < shorter.q_size implies {
                let t = #[trigger] shorter.alone[q];
                &&& t < shorter.desc.array_len()
                &&& !shorter.frozen@.contains(t as int)
                &&& shorter.t2count[t as int] < 8
            } by {
                assert(pre.alone[q] != pre.alone[base]);
            }
        }
        shorter.lemma_queue_room(extra);
        assert forall|q: int| 0 <= q < post.q_size implies {
            let t = #[trigger] post.alone[q];
            &&& t < post.desc.array_len()
            &&& !post.frozen@.contains(t as int)
            &&& post.t2count[t as int] < 8
        } by {
            if q < base {
                let t = pre.alone[q];
                assert(post.alone[q] == t);
                assert(t != pre.alone[base]);
                assert(pre.t2count[t as int] < 8);
                if t == slot1 {
                    lemma_unpack(byte1, tally1.count, tally1.roles);
                } else if t == slot2 {
                    lemma_unpack(byte2, tally2.count, tally2.roles);
                } else {
                    assert(mid1.t2count[t as int] == mid0.t2count[t as int]);
                    assert(post.t2count[t as int] == mid1.t2count[t as int]);
                }
            } else if q == base && pushed1 {
                assert(post.alone[q] == slot1);
            } else {
                assert(post.alone[q] == slot2);
            }
        }
        assert forall|q1: int, q2: int| 0 <= q1 < q2 < post.q_size implies #[trigger] post.alone[q1]
            != #[trigger] post.alone[q2] by {
            if q1 < base {
                assert(post.alone[q1] == pre.alone[q1]);
                assert(pre.t2count[pre.alone[q1] as int] < 8);
            }
            if q2 < base {
                assert(post.alone[q2] == pre.alone[q2]);
            }
        }
        assert forall|t: int|
            0 <= t < post.desc.array_len() && !post.frozen@.contains(t) && 4
                <= #[trigger] post.t2count[t] < 8 implies exists|q: int|
            0 <= q < post.q_size && #[trigger] post.alone[q] == t by {
            if t == slot1 {
                assert(pushed1);
                assert(post.alone[base] == t);
            } else if t == slot2 {
                assert(pushed2);
                let q = if pushed1 {
                    base + 1
                } else {
                    base
                };
                assert(post.alone[q] == t);
            } else {
                assert(mid1.t2count[t] == mid0.t2count[t]);
                assert(post.t2count[t] == mid1.t2count[t]);
                assert(post.t2count[t] == pre.t2count[t]);
                let q = choose|q: int| 0 <= q < pre.q_size && #[trigger] pre.alone[q] == t;
                assert(q != base);
                assert(post.alone[q] == pre.alone[q]);
            }
        }
    }

    /// Without a top entry that names a slot with no key, the state is as
    /// good as before.
    proof fn lemma_skip(self)
        requires
            self.inv(),
            self.q_size > 0,
            !(4 <= self.t2count[self.alone[self.q_size - 1] as int] < 8),
        ensures
            (BinaryFusePeeler { q_size: (self.q_size - 1) as usize, ..self }).inv(),
    {
        let post = BinaryFusePeeler { q_size: (self.q_size - 1) as usize, ..self };
        assert(post.shaped());
        assert(post.counted());
        assert(post.ordered());
        assert forall|t: int|
            0 <= t < post.desc.array_len() && !post.frozen@.contains(t) && 4
                <= #[trigger] post.t2count[t] < 8 implies exists|q: int|
            0 <= q < post.q_size && #[trigger] post.alone[q] == t by {
            let q = choose|q: int| 0 <= q < self.q_size && #[trigger] self.alone[q] == t;
            assert(post.alone[q] == self.alone[q]);
        }
        assert(post.queued());
    }

    /// Takes one entry from `alone`. If its slot still holds a single key,
    /// the key goes on the stack and leaves its two other slots.
    fn step(&mut self)
        requires
            old(self).inv(),
            old(self).q_size > 0,
        ensures
            final(self).inv(),
            final(self).edges@ == old(self).edges@,
            final(self).desc == old(self).desc,
            final(self).nearer(*old(self)),
    {
        self.q_size -= 1;
        let slot = self.alone[self.q_size];
        let index = slot as usize;
        let byte: u8 = self.t2count[index];
        let ghost pre = *old(self);
        let ghost n = self.edges@.len() as int;
        proof {
            let tally = tally_all(pre.edges@, pre.alive@, slot as int);
            lemma_tally_roles(pre.edges@, pre.alive@, slot as int, n);
            assert(!pre.frozen@.contains(slot as int));
            lemma_unpack(byte, tally.count, tally.roles);
        }
        if (byte >> 2) == 1 {
            let hash = self.t2hash[index];
            let found: u8 = byte & 3;
            let ghost i = lemma_tally_single(self.edges@, self.alive@, slot as int, n);
            proof {
                lemma_bfuse_edge_fits(self.desc, hash);
                pre.lemma_stack_room(i);
                assert(BinaryFusePeeler::single(pre, i));
            }
            self.reverse_h[self.stack_size] = found;
            self.reverse_order[self.stack_size] = hash;
            self.stack_size += 1;
            proof {
                self.order@ = self.order@.push(i);
                self.alive@ = self.alive@.remove(i);
                self.frozen@ = self.frozen@.insert(slot as int);
            }
            let (index1, index2, index3) = hash_of_hash(
                hash,
                self.desc.segment_length,
                self.desc.segment_length_mask,
                self.desc.segment_count_length,
            );
            let h012: [u32; 5] = [index1, index2, index3, index1, index2];
            let ghost mid0 = *self;
            let ghost edge = pre.edges@[i];
            proof {
                assert(BinaryFusePeeler::taken(pre, mid0, i));
                assert(edge == pre.desc.edge_of(hash));
                assert(edge.slot(found as int) == slot);
            }
            let other1 = h012[(found + 1) as usize];
            let role1 = mod3(found + 1);
            proof {
                assert(other1 == edge.slot((found + 1) % 3));
                assert(!pre.frozen@.contains(other1 as int));
                lemma_tally_remove(pre.edges@, pre.alive@, i, other1 as int, n);
                lemma_tally_roles(pre.edges@, pre.alive@, other1 as int, n);
                let tally = tally_all(pre.edges@, pre.alive@, other1 as int);
                lemma_lower(pre.t2count[other1 as int], tally.count, tally.roles, role1);
            }
            self.detach(other1, role1, hash);
            let ghost mid1 = *self;
            let other2 = h012[(found + 2) as usize];
            let role2 = mod3(found + 2);
            proof {
                assert(other2 == edge.slot((found + 2) % 3));
                assert(!pre.frozen@.contains(other2 as int));
                lemma_tally_remove(pre.edges@, pre.alive@, i, other2 as int, n);
                lemma_tally_roles(pre.edges@, pre.alive@, other2 as int, n);
                let tally = tally_all(pre.edges@, pre.alive@, other2 as int);
                lemma_lower(pre.t2count[other2 as int], tally.count, tally.roles, role2);
                assert(mid1.t2count[other2 as int] == pre.t2count[other2 as int]);
                // Room for the unconditional write of the second slot.
                let byte1 = pre.t2count[other1 as int];
                let shorter = BinaryFusePeeler {
                    q_size: (pre.q_size - 1) as usize,
                    frozen: Ghost(pre.frozen@.insert(slot as int)),
                    ..pre
                };
                assert(shorter.queued()) by {
                    assert forall|q: int| 0 <= q < shorter.q_size implies {
                        let t = #[trigger] shorter.alone[q];
                        &&& t < shorter.desc.array_len()
                        &&& !shorter.frozen@.contains(t as int)
                        &&& shorter.t2count[t as int] < 8
                    } by {
                        assert(pre.alone[q] != pre.alone[pre.q_size - 1]);
                    }
                }
                if 8 <= byte1 < 12 {
                    shorter.lemma_queue_room(seq![slot as int, other1 as int]);
                } else {
                    shorter.lemma_queue_room(seq![slot as int]);
                }
            }
            self.detach(other2, role2, hash);
            proof {
                let post = *self;
                assert(BinaryFusePeeler::stepped(pre, mid0, mid1, post, i));
                BinaryFusePeeler::lemma_step_counted(pre, mid0, mid1, post, i);
                BinaryFusePeeler::lemma_step_ordered(pre, mid0, mid1, post, i);
                BinaryFusePeeler::lemma_step_queued(pre, mid0, mid1, post, i);
            }
        } else {
            proof {
                lemma_byte_parts(byte, 0);
                assert(*self == BinaryFusePeeler { q_size: (pre.q_size - 1) as usize, ..pre });
                pre.lemma_skip();
            }
        }
    }
}

/// The edges of `keys` under the seed of `desc`, in the order of the keys.
pub open spec fn bfuse_edges(keys: Seq<u64>, desc: Descriptor) -> Seq<Edge> {
    Seq::new(keys.len(), |i: int| desc.edge_of(mix_spec(keys[i], desc.seed)))
}

/// The number of the first `m` places that have an owner.
spec fn owned_count(own: Seq<int>, m: int) -> nat
    decreases m,
{
    if m <= 0 {
        0
    } else {
        owned_count(own, m - 1) + if own[m - 1] >= 0 {
            1nat
        } else {
            0nat
        }
    }
}

proof fn lemma_owned_bound(own: Seq<int>, m: int)
    requires
        0 <= m,
    ensures
        owned_count(own, m) <= m,
        owned_count(own, m) == m ==> forall|p: int| 0 <= p < m ==> #[trigger] own[p] >= 0,
    decreases m,
{
    if m > 0 {
        lemma_owned_bound(own, m - 1);
    }
}

proof fn lemma_owned_update(own: Seq<int>, place: int, key: int, m: int)
    requires
        0 <= place < own.len(),
        own[place] < 0,
        key >= 0,
        0 <= m <= own.len(),
    ensures
        owned_count(own.update(place, key), m) == owned_count(own, m) + if place < m {
            1nat
        } else {
            0nat
        },
    decreases m,
{
    if m > 0 {
        lemma_owned_update(own, place, key, m - 1);
    }
}

/// With one place short of all owned, there is exactly one place without
/// an owner.
proof fn lemma_owned_gap(own: Seq<int>, m: int) -> (gap: int)
    requires
        0 < m,
        owned_count(own, m) == m - 1,
    ensures
        0 <= gap < m,
        own[gap] < 0,
        forall|p: int| 0 <= p < m && p != gap ==> #[trigger] own[p] >= 0,
    decreases m,
{
    lemma_owned_bound(own, m - 1);
    if own[m - 1] >= 0 {
        lemma_owned_gap(own, m - 1)
    } else {
        m - 1
    }
}

/// Some place has the owner `j`.
spec fn placed(owner: Seq<int>, j: int) -> bool {
    exists|p: int| 0 <= p < owner.len() && #[trigger] owner[p] == j
}

/// `owner` and `place_of` are two maps on `[0, n)` that undo each other.
spec fn paired(owner: Seq<int>, place_of: Seq<int>, n: int) -> bool {
    &&& owner.len() == n
    &&& place_of.len() == n
    &&& forall|p: int| 0 <= p < n ==> 0 <= #[trigger] owner[p] < n && place_of[owner[p]] == p
    &&& forall|j: int| 0 <= j < n ==> 0 <= #[trigger] place_of[j] < n && owner[place_of[j]] == j
}

impl BinaryFusePeeler {
    /// The arrays have their sizes and the slots are empty.
    spec fn cleared(self) -> bool {
        let n = self.reverse_h.len();
        &&& self.desc.wf()
        &&& 1 <= self.block_bits <= 31
        &&& self.start_pos.len() == pow2_u32(self.block_bits)
        &&& self.t2count.len() == self.desc.array_len()
        &&& self.t2hash.len() == self.desc.array_len()
        &&& self.alone.len() == self.desc.array_len()
        &&& self.reverse_order.len() == n + 1
        &&& n < u32::MAX
        &&& self.q_size == 0
        &&& self.stack_size == 0
        &&& self.reverse_order[n as int] == 1
        &&& forall|p: int| 0 <= p < n ==> #[trigger] self.reverse_order[p] == 0
        &&& forall|t: int| 0 <= t < self.desc.array_len() ==> #[trigger] self.t2count[t] == 0
        &&& forall|t: int| 0 <= t < self.desc.array_len() ==> #[trigger] self.t2hash[t] == 0
    }

    /// The hashes stand in `reverse_order`, each key at the place that
    /// `place_of` names.
    spec fn bucketed(self, keys: Seq<u64>, owner: Seq<int>, place_of: Seq<int>) -> bool {
        let n = keys.len() as int;
        &&& paired(owner, place_of, n)
        &&& self.reverse_h.len() == n
        &&& self.reverse_order.len() == n + 1
        &&& forall|p: int|
            0 <= p < n ==> #[trigger] self.reverse_order[p] == mix_spec(
                keys[owner[p]],
                self.desc.seed,
            )
    }

    /// Writes the hash of every key into `reverse_order`, so that keys
    /// whose hashes begin with the same bits stand near each other.
    fn bucket(&mut self, keys: &[u64], seed: u64) -> (maps: Ghost<(Seq<int>, Seq<int>)>)
        requires
            old(self).cleared(),
            keys@.len() == old(self).reverse_h.len(),
            keys@.no_duplicates(),
        ensures
            final(self).bucketed(keys@, maps@.0, maps@.1),
            final(self).desc == (Descriptor { seed, ..old(self).desc }),
            final(self).block_bits == old(self).block_bits,
            final(self).start_pos.len() == old(self).start_pos.len(),
            final(self).t2count == old(self).t2count,
            final(self).t2hash == old(self).t2hash,
            final(self).alone == old(self).alone,
            final(self).reverse_h == old(self).reverse_h,
            final(self).q_size == 0,
            final(self).stack_size == 0,
    {
        let size = keys.len();
        let block_bits = self.block_bits;
        let start_pos_len = self.start_pos.len();
        let ghost n = size as int;
        self.desc.seed = seed;
        proof {
            lemma_pow2_u32(block_bits);
        }
        let mut i: usize = 0;
        while i < start_pos_len
            invariant
                i <= start_pos_len,
                start_pos_len == self.start_pos.len(),
                start_pos_len == pow2_u32(block_bits),
                1 <= block_bits <= 31,
                size == n,
                n < u32::MAX,
                forall|s: int| 0 <= s < i ==> #[trigger] self.start_pos[s] <= n,
                self.desc == (Descriptor { seed, ..old(self).desc }),
                self.block_bits == old(self).block_bits,
                self.t2count == old(self).t2count,
                self.t2hash == old(self).t2hash,
                self.alone == old(self).alone,
                self.reverse_h == old(self).reverse_h,
                self.reverse_order == old(self).reverse_order,
                self.q_size == 0,
                self.stack_size == 0,
            decreases start_pos_len - i,
        {
            let wide: u64 = i as u64;
            let count: u64 = size as u64;
            proof {
                lemma_pow2_u32(block_bits);
            }
            assert(wide * count <= 0x8000_0000 * 0xffff_ffff) by (nonlinear_arith)
                requires
                    wide <= 0x8000_0000,
                    count <= 0xffff_ffff,
            ;
            let product: u64 = wide * count;
            let start: u64 = product >> block_bits;
            assert(start <= count) by {
                assert(product <= count * pow2_u32(block_bits)) by (nonlinear_arith)
                    requires
                        product == wide * count,
                        0 <= wide < pow2_u32(block_bits),
                        count >= 0,
                ;
                lemma_shift_bound(product, block_bits, count);
            }
            self.start_pos[i] = start as usize;
            i += 1;
        }
        let ghost own: Seq<int> = Seq::new(n as nat, |p: int| -1int);
        let ghost homeless: Option<int> = None;
        proof {
            lemma_owned_none(own, n);
        }
        let mask: u64 = (1u64 << block_bits) - 1;
        let mut k: usize = 0;
        while k < size
            invariant
                k <= size,
                size == n,
                n == keys@.len(),
                n < u32::MAX,
                keys@.no_duplicates(),
                1 <= block_bits <= 31,
                start_pos_len == self.start_pos.len(),
                start_pos_len == pow2_u32(block_bits),
                mask == pow2_u32(block_bits) - 1,
                self.reverse_order.len() == n + 1,
                self.reverse_order[n] == 1,
                own.len() == n,
                forall|s: int| 0 <= s < start_pos_len ==> #[trigger] self.start_pos[s] <= n,
                forall|p: int|
                    0 <= p < n && #[trigger] own[p] < 0 ==> own[p] == -1 && self.reverse_order[p]
                        == 0,
                forall|p: int|
                    0 <= p < n && #[trigger] own[p] >= 0 ==> own[p] < k && self.reverse_order[p]
                        == mix_spec(keys@[own[p]], seed) && self.reverse_order[p] != 0,
                forall|p: int, q: int|
                    0 <= p < n && 0 <= q < n && p != q && #[trigger] own[p] >= 0 && #[trigger] own[q]
                        >= 0 ==> own[p] != own[q],
                forall|j: int|
                    0 <= j < k && mix_spec(#[trigger] keys@[j], seed) != 0 ==> exists|p: int|
                        0 <= p < n && #[trigger] own[p] == j,
                homeless matches Some(z) ==> 0 <= z < k && mix_spec(keys@[z], seed) == 0,
                homeless is None ==> forall|j: int|
                    0 <= j < k ==> mix_spec(#[trigger] keys@[j], seed) != 0,
                owned_count(own, n) + (if homeless is Some {
                    1nat
                } else {
                    0nat
                }) == k,
                self.desc == (Descriptor { seed, ..old(self).desc }),
                self.block_bits == old(self).block_bits,
                self.t2count == old(self).t2count,
                self.t2hash == old(self).t2hash,
                self.alone == old(self).alone,
                self.reverse_h == old(self).reverse_h,
                self.q_size == 0,
                self.stack_size == 0,
            decreases size - k,
        {
            let hash = mix(keys[k], seed);
            let mut segment_index: u64 = hash >> (64 - block_bits);
            assert(segment_index <= mask) by (bit_vector)
                requires
                    segment_index == hash >> (64 - block_bits) as u64,
                    mask == (1u64 << block_bits) - 1,
                    1 <= block_bits <= 31,
            ;
            let mut probes: usize = 0;
            while probes < start_pos_len && self.reverse_order[self.start_pos[segment_index as usize]]
                != 0
                invariant
                    probes <= start_pos_len,
                    segment_index <= mask,
                    mask == pow2_u32(block_bits) - 1,
                    1 <= block_bits <= 31,
                    start_pos_len == self.start_pos.len(),
                    start_pos_len == pow2_u32(block_bits),
                    self.reverse_order.len() == n + 1,
                    forall|s: int| 0 <= s < start_pos_len ==> #[trigger] self.start_pos[s] <= n,
                decreases start_pos_len - probes,
            {
                let next: u64 = (segment_index + 1) & mask;
                assert(next <= mask) by (bit_vector)
                    requires
                        next == ((segment_index + 1) as u64) & mask,
                ;
                segment_index = next;
                probes += 1;
            }
            let segment = segment_index as usize;
            let mut place: usize = self.start_pos[segment];
            let through_segment = self.reverse_order[place] == 0;
            if !through_segment {
                // No segment offers a free place: take the first free place.
                proof {
                    lemma_owned_bound(own, n);
                }
                place = 0;
                while place < size && self.reverse_order[place] != 0
                    invariant
                        place <= size,
                        size == n,
                        own.len() == n,
                        self.reverse_order.len() == n + 1,
                        forall|p: int| 0 <= p < place ==> #[trigger] own[p] >= 0,
                        forall|p: int|
                            0 <= p < n && #[trigger] own[p] < 0 ==> self.reverse_order[p] == 0,
                    decreases size - place,
                {
                    place += 1;
                }
                proof {
                    if place == size {
                        lemma_owned_all(own, n);
                    }
                }
            }
            proof {
                assert(place < n);
                assert(own[place as int] < 0);
                if hash != 0 {
                    lemma_owned_update(own, place as int, k as int, n);
                } else {
                    if homeless is Some {
                        let z = homeless->0;
                        lemma_mix_injective(keys@[z], keys@[k as int], seed);
                    }
                }
            }
            let ghost before = own;
            self.reverse_order[place] = hash;
            if through_segment {
                self.start_pos[segment] += 1;
            }
            proof {
                if hash != 0 {
                    own = own.update(place as int, k as int);
                    assert forall|j: int|
                        0 <= j < k + 1 && mix_spec(#[trigger] keys@[j], seed) != 0 implies exists|
                        p: int,
                    | 0 <= p < n && #[trigger] own[p] == j by {
                        if j < k {
                            let p = choose|p: int| 0 <= p < n && #[trigger] before[p] == j;
                            assert(own[p] == j);
                        } else {
                            assert(own[place as int] == j);
                        }
                    }
                } else {
                    homeless = Some(k as int);
                    assert forall|j: int|
                        0 <= j < k + 1 && mix_spec(#[trigger] keys@[j], seed) != 0 implies exists|
                        p: int,
                    | 0 <= p < n && #[trigger] own[p] == j by {
                        let p = choose|p: int| 0 <= p < n && #[trigger] before[p] == j;
                        assert(own[p] == j);
                    }
                }
            }
            k += 1;
        }
        let ghost owner: Seq<int> = own;
        proof {
            lemma_owned_bound(own, n);
            if homeless is Some {
                let z = homeless->0;
                let gap = lemma_owned_gap(own, n);
                owner = own.update(gap, z);
                assert forall|j: int| 0 <= j < n implies #[trigger] placed(owner, j) by {
                    if mix_spec(keys@[j], seed) != 0 {
                        let p = choose|p: int| 0 <= p < n && #[trigger] own[p] == j;
                        assert(owner[p] == j);
                    } else {
                        lemma_mix_injective(keys@[z], keys@[j], seed);
                        assert(owner[gap] == j);
                    }
                }
            } else {
                assert forall|j: int| 0 <= j < n implies #[trigger] placed(owner, j) by {
                    assert(mix_spec(keys@[j], seed) != 0);
                    let p = choose|p: int| 0 <= p < n && #[trigger] own[p] == j;
                    assert(owner[p] == j);
                }
            }
            assert forall|p: int, q: int|
                0 <= p < n && 0 <= q < n && p != q implies #[trigger] owner[p] != #[trigger] owner[q] by {
                if homeless is Some {
                    let z = homeless->0;
                    if owner[p] == z && owner[q] == z {
                        // Only the gap holds the key that has no place of its own.
                    }
                }
            }
        }
        let ghost place_of: Seq<int> = Seq::new(
            n as nat,
            |j: int| choose|p: int| 0 <= p < n && #[trigger] owner[p] == j,
        );
        proof {
            assert forall|j: int| 0 <= j < n implies 0 <= #[trigger] place_of[j] < n
                && owner[place_of[j]] == j by {
                assert(placed(owner, j));
            }
            assert forall|p: int| 0 <= p < n implies 0 <= #[trigger] owner[p] < n
                && place_of[owner[p]] == p by {
                let j = owner[p];
                let q = place_of[j];
                assert(0 <= q < n && owner[q] == j);
            }
        }
        Ghost((owner, place_of))
    }
}

/// Two to the power `bits`, as long as it fits.
pub open spec fn pow2_u32(bits: u32) -> int {
    (1u64 << bits) as int
}

proof fn lemma_pow2_u32(bits: u32)
    requires
        bits <= 31,
    ensures
        1 <= pow2_u32(bits) <= 0x8000_0000,
        (1usize << bits) == pow2_u32(bits),
        (1u32 << bits) == pow2_u32(bits),
{
    assert(1 <= (1u64 << bits) <= 0x8000_0000 && (1usize << bits) == (1u64 << bits) && (1u32
        << bits) == (1u64 << bits)) by (bit_vector)
        requires
            bits <= 31,
    ;
}

/// A product below `count` times two to the `bits`, shifted right by
/// `bits`, is below `count`.
proof fn lemma_shift_bound(product: u64, bits: u32, count: u64)
    requires
        1 <= bits <= 31,
        count <= 0xffff_ffff,
        product <= count * pow2_u32(bits),
    ensures
        (product >> bits) <= count,
{
    let power = 1u64 << bits;
    let wide = bits as u64;
    assert(product >> bits == product >> wide && power == 1u64 << wide && power >= 1)
        by (bit_vector)
        requires
            1 <= bits <= 31,
            power == 1u64 << bits,
            wide == bits as u64,
    ;
    vstd::bits::lemma_u64_shr_is_div(product, wide);
    vstd::bits::lemma_u64_pow2_no_overflow(wide as nat);
    vstd::bits::lemma_u64_shl_is_mul(1, wide);
    assert(product as int / power as int <= count as int) by (nonlinear_arith)
        requires
            product <= count * power,
            power >= 1,
    ;
}

proof fn lemma_owned_none(own: Seq<int>, m: int)
    requires
        forall|p: int| 0 <= p < m ==> #[trigger] own[p] < 0,
    ensures
        owned_count(own, m) == 0,
    decreases m,
{
    if m > 0 {
        lemma_owned_none(own, m - 1);
    }
}

proof fn lemma_owned_all(own: Seq<int>, m: int)
    requires
        forall|p: int| 0 <= p < m ==> #[trigger] own[p] >= 0,
    ensures
        owned_count(own, m) == if m >= 0 {
            m
        } else {
            0
        },
    decreases m,
{
    if m > 0 {
        lemma_owned_all(own, m - 1);
    }
}

/// With no edge in it, every slot has the empty tally.
proof fn lemma_tally_empty(edges: Seq<Edge>, alive: Set<int>, slot: int, k: int)
    requires
        forall|i: int| 0 <= i < k ==> !alive.contains(i),
    ensures
        tally(edges, alive, slot, k) == Tally::empty(),
    decreases k,
{
    if k > 0 {
        lemma_tally_empty(edges, alive, slot, k - 1);
    }
}

impl BinaryFusePeeler {
    /// The keys whose places come before `place`.
    spec fn inserted(place_of: Seq<int>, place: int) -> Set<int> {
        Set::new(|j: int| 0 <= j < place_of.len() && place_of[j] < place)
    }

    /// The state before any key has been taken away: all keys are in the
    /// graph and the slots hold their counts and masks.
    spec fn loaded(self, keys: Seq<u64>) -> bool {
        &&& self.shaped()
        &&& self.counted()
        &&& self.ordered()
        &&& self.edges@ == bfuse_edges(keys, self.desc)
        &&& self.alive@ == below(keys.len() as int)
        &&& self.order@ == Seq::<int>::empty()
        &&& self.frozen@ == Set::<int>::empty()
        &&& self.stack_size == 0
        &&& self.q_size == 0
    }

    /// What `post` is after the key of `hash` has come to `slot` in role
    /// `role`.
    spec fn attached(pre: BinaryFusePeeler, post: BinaryFusePeeler, slot: int, role: u8, hash: u64) -> bool {
        &&& post.desc == pre.desc
        &&& post.block_bits == pre.block_bits
        &&& post.start_pos == pre.start_pos
        &&& post.reverse_order == pre.reverse_order
        &&& post.reverse_h == pre.reverse_h
        &&& post.alone == pre.alone
        &&& post.stack_size == pre.stack_size
        &&& post.q_size == pre.q_size
        &&& post.edges@ == pre.edges@
        &&& post.alive@ == pre.alive@
        &&& post.order@ == pre.order@
        &&& post.frozen@ == pre.frozen@
        &&& post.t2count@ =~= pre.t2count@.update(slot, pre.t2count[slot].wrapping_add(4) ^ role)
        &&& post.t2hash@ =~= pre.t2hash@.update(slot, pre.t2hash[slot] ^ hash)
    }

    /// Adds the key of `hash` to `slot`, which it touches in role `role`.
    fn attach(&mut self, slot: usize, role: u8, hash: u64)
        requires
            slot < old(self).t2count.len(),
            slot < old(self).t2hash.len(),
        ensures
            BinaryFusePeeler::attached(*old(self), *final(self), slot as int, role, hash),
    {
        self.t2count[slot] = self.t2count[slot].wrapping_add(4);
        self.t2count[slot] ^= role;
        self.t2hash[slot] ^= hash;
    }

    /// The slots hold the packed counts, which may have wrapped around, and
    /// the masks of the keys in `alive`.
    spec fn tallied(self) -> bool {
        forall|t: int|
            0 <= t < self.desc.array_len() ==> {
                let tally = tally_all(self.edges@, self.alive@, t);
                &&& #[trigger] self.t2count[t] == packed(tally.count, tally.roles)
                &&& self.t2hash[t] == tally.mask
            }
    }

    proof fn lemma_insert_step(
        pre: BinaryFusePeeler,
        mid0: BinaryFusePeeler,
        mid1: BinaryFusePeeler,
        post: BinaryFusePeeler,
        j: int,
    )
        requires
            pre.desc.wf(),
            pre.t2count.len() == pre.desc.array_len(),
            pre.t2hash.len() == pre.desc.array_len(),
            pre.tallied(),
            forall|t: int| (#[trigger] tally_all(pre.edges@, pre.alive@, t)).count <= 63,
            0 <= j < pre.edges@.len(),
            !pre.alive@.contains(j),
            pre.edges@[j] == pre.desc.edge_of(pre.edges@[j].hash),
            BinaryFusePeeler::attached(pre, mid0, pre.edges@[j].s0, 0, pre.edges@[j].hash),
            BinaryFusePeeler::attached(mid0, mid1, pre.edges@[j].s1, 1, pre.edges@[j].hash),
            BinaryFusePeeler::attached(mid1, post, pre.edges@[j].s2, 2, pre.edges@[j].hash),
        ensures
            (BinaryFusePeeler { alive: Ghost(pre.alive@.insert(j)), ..post }).tallied(),
            forall|t: int|
                (#[trigger] tally_all(pre.edges@, pre.alive@.insert(j), t)).count <= 64,
            forall|t: int|
                0 <= t < pre.desc.array_len() && pre.edges@[j].touches(t) ==> (
                #[trigger] post.t2count[t] < 4 <==> tally_all(
                    pre.edges@,
                    pre.alive@.insert(j),
                    t,
                ).count == 64),
            forall|t: int|
                !pre.edges@[j].touches(t) ==> #[trigger] tally_all(
                    pre.edges@,
                    pre.alive@.insert(j),
                    t,
                ) == tally_all(pre.edges@, pre.alive@, t),
    {
        let n = pre.edges@.len() as int;
        let edge = pre.edges@[j];
        let hash = edge.hash;
        let grown = pre.alive@.insert(j);
        let fin = BinaryFusePeeler { alive: Ghost(grown), ..post };
        lemma_bfuse_edge_fits(pre.desc, hash);
        assert forall|t: int| 0 <= t < fin.desc.array_len() implies {
            let tally = tally_all(fin.edges@, fin.alive@, t);
            &&& #[trigger] fin.t2count[t] == packed(tally.count, tally.roles)
            &&& fin.t2hash[t] == tally.mask
        } by {
            lemma_tally_insert(pre.edges@, pre.alive@, j, t, n);
            lemma_tally_roles(pre.edges@, pre.alive@, t, n);
            let old_tally = tally_all(pre.edges@, pre.alive@, t);
            assert(old_tally.count <= 63);
            assert(pre.t2count[t] == packed(old_tally.count, old_tally.roles));
            assert(pre.t2hash[t] == old_tally.mask);
            let role = edge.role_at(t);
            lemma_raise(pre.t2count[t], old_tally.count, old_tally.roles, role);
            if t == edge.s0 {
                assert(mid0.t2count[t] == pre.t2count[t].wrapping_add(4) ^ 0);
                assert(mid1.t2count[t] == mid0.t2count[t]);
                assert(post.t2count[t] == mid1.t2count[t]);
            } else if t == edge.s1 {
                assert(mid0.t2count[t] == pre.t2count[t]);
                assert(mid1.t2count[t] == pre.t2count[t].wrapping_add(4) ^ 1);
                assert(post.t2count[t] == mid1.t2count[t]);
            } else if t == edge.s2 {
                assert(mid0.t2count[t] == pre.t2count[t]);
                assert(mid1.t2count[t] == mid0.t2count[t]);
                assert(post.t2count[t] == pre.t2count[t].wrapping_add(4) ^ 2);
            } else {
                assert(mid0.t2count[t] == pre.t2count[t]);
                assert(mid1.t2count[t] == mid0.t2count[t]);
                assert(post.t2count[t] == mid1.t2count[t]);
            }
        }
        assert forall|t: int| (#[trigger] tally_all(pre.edges@, grown, t)).count <= 64 by {
            lemma_tally_insert(pre.edges@, pre.alive@, j, t, n);
            assert(tally_all(pre.edges@, pre.alive@, t).count <= 63);
        }
        assert forall|t: int| 0 <= t < pre.desc.array_len() && edge.touches(t) implies (
        #[trigger] post.t2count[t] < 4 <==> tally_all(pre.edges@, grown, t).count == 64) by {
            lemma_tally_insert(pre.edges@, pre.alive@, j, t, n);
            lemma_tally_roles(pre.edges@, pre.alive@, t, n);
            let old_tally = tally_all(pre.edges@, pre.alive@, t);
            assert(old_tally.count <= 63);
            assert(pre.t2count[t] == packed(old_tally.count, old_tally.roles));
            lemma_raise(pre.t2count[t], old_tally.count, old_tally.roles, edge.role_at(t));
            assert(fin.t2count[t] == packed(
                tally_all(fin.edges@, fin.alive@, t).count,
                tally_all(fin.edges@, fin.alive@, t).roles,
            ));
        }
        assert forall|t: int| !edge.touches(t) implies #[trigger] tally_all(pre.edges@, grown, t)
            == tally_all(pre.edges@, pre.alive@, t) by {
            lemma_tally_insert(pre.edges@, pre.alive@, j, t, n);
        }
    }

    /// The state while the keys are being added: those whose places come
    /// before `place` are in.
    spec fn filling(self, keys: Seq<u64>, owner: Seq<int>, place_of: Seq<int>, place: int) -> bool {
        let n = keys.len() as int;
        &&& self.bucketed(keys, owner, place_of)
        &&& keys.no_duplicates()
        &&& n < u32::MAX
        &&& 0 <= place <= n
        &&& self.desc.wf()
        &&& 1 <= self.block_bits <= 31
        &&& self.start_pos.len() == pow2_u32(self.block_bits)
        &&& self.t2count.len() == self.desc.array_len()
        &&& self.t2hash.len() == self.desc.array_len()
        &&& self.alone.len() == self.desc.array_len()
        &&& self.q_size == 0
        &&& self.stack_size == 0
        &&& self.edges@ == bfuse_edges(keys, self.desc)
        &&& self.alive@ == BinaryFusePeeler::inserted(place_of, place)
        &&& self.order@ == Seq::<int>::empty()
        &&& self.frozen@ == Set::<int>::empty()
        &&& self.tallied()
        &&& forall|t: int| (#[trigger] tally_all(self.edges@, self.alive@, t)).count <= 63
    }

    /// Takes the key of `hash` out of `slot` again.
    fn unattach(&mut self, slot: usize, role: u8, hash: u64)
        requires
            slot < old(self).t2count.len(),
            slot < old(self).t2hash.len(),
            old(self).t2count[slot as int] >= 4,
        ensures
            final(self).t2count@ == old(self).t2count@.update(
                slot as int,
                ((old(self).t2count[slot as int] - 4) as u8) ^ role,
            ),
            final(self).t2hash@ == old(self).t2hash@.update(
                slot as int,
                old(self).t2hash[slot as int] ^ hash,
            ),
            final(self).desc == old(self).desc,
            final(self).block_bits == old(self).block_bits,
            final(self).start_pos == old(self).start_pos,
            final(self).reverse_order == old(self).reverse_order,
            final(self).reverse_h == old(self).reverse_h,
            final(self).alone == old(self).alone,
            final(self).stack_size == old(self).stack_size,
            final(self).q_size == old(self).q_size,
            final(self).edges == old(self).edges,
            final(self).alive == old(self).alive,
            final(self).order == old(self).order,
            final(self).frozen == old(self).frozen,
    {
        self.t2count[slot] -= 4;
        self.t2count[slot] ^= role;
        self.t2hash[slot] ^= hash;
    }

    /// A slot that holds two keys whose hashes cancel holds one key twice.
    /// Among distinct keys there is no such slot.
    proof fn lemma_no_twin(self, keys: Seq<u64>, slot: int, j: int)
        requires
            keys.no_duplicates(),
            self.desc.wf(),
            self.edges@ == bfuse_edges(keys, self.desc),
            self.tallied(),
            forall|i: int| self.alive@.contains(i) ==> 0 <= i < keys.len(),
            forall|t: int| (#[trigger] tally_all(self.edges@, self.alive@, t)).count <= 64,
            0 <= slot < self.desc.array_len(),
            0 <= j < keys.len(),
            self.alive@.contains(j),
            self.edges@[j].touches(slot),
        ensures
            !(self.t2hash[slot] == 0 && self.t2count[slot] == 8),
    {
        let n = keys.len() as int;
        let edges = self.edges@;
        if self.t2hash[slot] == 0 && self.t2count[slot] == 8 {
            let tally = tally_all(edges, self.alive@, slot);
            lemma_tally_roles(edges, self.alive@, slot, n);
            assert(self.t2count[slot] == packed(tally.count, tally.roles));
            assert(tally.count <= 64);
            assert(tally.count == 2);
            let twin = lemma_tally_other(edges, self.alive@, slot, n, j);
            lemma_xor_hashes(edges[j].hash, edges[twin].hash, 0);
            lemma_mix_injective(keys[j], keys[twin], self.desc.seed);
        }
    }

    /// Whether one of the three slots shows a key that came in twice: two
    /// keys whose hashes cancel.
    spec fn twice(self, s0: int, s1: int, s2: int) -> bool {
        ||| self.t2hash[s0] == 0 && self.t2count[s0] == 8
        ||| self.t2hash[s1] == 0 && self.t2count[s1] == 8
        ||| self.t2hash[s2] == 0 && self.t2count[s2] == 8
    }

    /// Whether the count of one of the three slots has wrapped around.
    spec fn wrapped(self, s0: int, s1: int, s2: int) -> bool {
        self.t2count[s0] < 4 || self.t2count[s1] < 4 || self.t2count[s2] < 4
    }

    /// What holds after the key at `place` has come to its three slots.
    proof fn lemma_insert_effects(
        pre: BinaryFusePeeler,
        mid0: BinaryFusePeeler,
        mid1: BinaryFusePeeler,
        post: BinaryFusePeeler,
        keys: Seq<u64>,
        owner: Seq<int>,
        place_of: Seq<int>,
        place: int,
    )
        requires
            pre.filling(keys, owner, place_of, place),
            place < keys.len(),
            BinaryFusePeeler::attached(pre, mid0, pre.edges@[owner[place]].s0, 0, pre.reverse_order[place]),
            BinaryFusePeeler::attached(mid0, mid1, pre.edges@[owner[place]].s1, 1, pre.reverse_order[place]),
            BinaryFusePeeler::attached(mid1, post, pre.edges@[owner[place]].s2, 2, pre.reverse_order[place]),
        ensures
            ({
                let edge = pre.edges@[owner[place]];
                let fin = BinaryFusePeeler {
                    alive: Ghost(BinaryFusePeeler::inserted(place_of, place + 1)),
                    ..post
                };
                &&& !fin.twice(edge.s0, edge.s1, edge.s2)
                &&& !fin.wrapped(edge.s0, edge.s1, edge.s2) ==> fin.filling(
                    keys,
                    owner,
                    place_of,
                    place + 1,
                )
                &&& fin.wrapped(edge.s0, edge.s1, edge.s2) ==> exists|slot: int|
                    (#[trigger] tally_all(
                        bfuse_edges(keys, pre.desc),
                        below(keys.len() as int),
                        slot,
                    )).count > 63
            }),
    {
        let n = keys.len() as int;
        let edges = pre.edges@;
        let j = owner[place];
        let edge = edges[j];
        let hash = pre.reverse_order[place];
        let grown = pre.alive@.insert(j);
        lemma_bfuse_edge_fits(pre.desc, hash);
        assert(edge == pre.desc.edge_of(hash));
        assert(edge.hash == hash);
        assert(!pre.alive@.contains(j));
        assert(grown =~= BinaryFusePeeler::inserted(place_of, place + 1)) by {
            assert forall|x: int| grown.contains(x) <==> BinaryFusePeeler::inserted(
                place_of,
                place + 1,
            ).contains(x) by {
                if 0 <= x < n {
                    assert(owner[place_of[x]] == x);
                }
            }
        }
        BinaryFusePeeler::lemma_insert_step(pre, mid0, mid1, post, j);
        let fin = BinaryFusePeeler { alive: Ghost(grown), ..post };
        fin.lemma_no_twin(keys, edge.s0, j);
        fin.lemma_no_twin(keys, edge.s1, j);
        fin.lemma_no_twin(keys, edge.s2, j);
        if fin.wrapped(edge.s0, edge.s1, edge.s2) {
            let slot = if fin.t2count[edge.s0] < 4 {
                edge.s0
            } else if fin.t2count[edge.s1] < 4 {
                edge.s1
            } else {
                edge.s2
            };
            assert(edge.touches(slot));
            assert(tally_all(edges, grown, slot).count == 64);
            assert(grown.subset_of(below(n)));
            lemma_tally_monotone(edges, grown, below(n), slot, n);
            assert(edges == bfuse_edges(keys, pre.desc));
            assert(tally_all(bfuse_edges(keys, pre.desc), below(n), slot).count > 63);
        } else {
            assert forall|t: int| (#[trigger] tally_all(fin.edges@, fin.alive@, t)).count
                <= 63 by {
                if edge.touches(t) {
                    assert(fin.t2count[t] >= 4);
                } else {
                    assert(tally_all(pre.edges@, pre.alive@, t).count <= 63);
                }
            }
            assert(fin.bucketed(keys, owner, place_of));
            assert(fin.tallied());
            assert(fin.filling(keys, owner, place_of, place + 1));
        }
        assert(!fin.twice(edge.s0, edge.s1, edge.s2));
    }

    /// Adds the key at `place` of `reverse_order` to its three slots. The
    /// result tells whether the count of one of them went beyond what a byte
    /// holds.
    fn insert_one(
        &mut self,
        place: usize,
        duplicates: &mut usize,
        Ghost(keys): Ghost<Seq<u64>>,
        Ghost(owner): Ghost<Seq<int>>,
        Ghost(place_of): Ghost<Seq<int>>,
    ) -> (error: bool)
        requires
            old(self).filling(keys, owner, place_of, place as int),
            place < keys.len(),
            *old(duplicates) == 0,
        ensures
            *final(duplicates) == 0,
            final(self).desc == old(self).desc,
            final(self).block_bits == old(self).block_bits,
            final(self).start_pos == old(self).start_pos,
            final(self).reverse_order == old(self).reverse_order,
            final(self).reverse_h == old(self).reverse_h,
            final(self).alone == old(self).alone,
            final(self).t2count.len() == old(self).t2count.len(),
            final(self).t2hash.len() == old(self).t2hash.len(),
            final(self).q_size == 0,
            final(self).stack_size == 0,
            !error ==> final(self).filling(keys, owner, place_of, place + 1),
            error ==> exists|slot: int|
                (#[trigger] tally_all(
                    bfuse_edges(keys, old(self).desc),
                    below(keys.len() as int),
                    slot,
                )).count > 63,
    {
        let hash = self.reverse_order[place];
        let (index1, index2, index3) = hash_of_hash(
            hash,
            self.desc.segment_length,
            self.desc.segment_length_mask,
            self.desc.segment_count_length,
        );
        let (index1, index2, index3) = (index1 as usize, index2 as usize, index3 as usize);
        let ghost pre = *self;
        proof {
            lemma_bfuse_edge_fits(self.desc, hash);
            assert(pre.edges@[owner[place as int]] == self.desc.edge_of(hash));
        }
        self.attach(index1, 0, hash);
        let ghost mid0 = *self;
        self.attach(index2, 1, hash);
        let ghost mid1 = *self;
        self.attach(index3, 2, hash);
        proof {
            BinaryFusePeeler::lemma_insert_effects(
                pre,
                mid0,
                mid1,
                *self,
                keys,
                owner,
                place_of,
                place as int,
            );
            self.alive@ = BinaryFusePeeler::inserted(place_of, place + 1);
        }
        if self.t2hash[index1] & self.t2hash[index2] & self.t2hash[index3] == 0 {
            if ((self.t2hash[index1] == 0) && (self.t2count[index1] == 8)) || ((self.t2hash[index2]
                == 0) && (self.t2count[index2] == 8)) || ((self.t2hash[index3] == 0) && (
            self.t2count[index3] == 8)) {
                proof {
                    assert(self.twice(index1 as int, index2 as int, index3 as int));
                }
                *duplicates += 1;
                self.unattach(index1, 0, hash);
                self.unattach(index2, 1, hash);
                self.unattach(index3, 2, hash);
            }
        }
        self.t2count[index1] < 4 || self.t2count[index2] < 4 || self.t2count[index3] < 4
    }

    /// Adds every key to its three slots, in the order of `reverse_order`.
    /// The first component of the result tells whether the count of some
    /// slot went beyond what a byte holds; the second is the number of keys
    /// that were left out as copies of a key that is in.
    fn insert_all(
        &mut self,
        Ghost(keys): Ghost<Seq<u64>>,
        Ghost(owner): Ghost<Seq<int>>,
        Ghost(place_of): Ghost<Seq<int>>,
    ) -> (r: (bool, usize))
        requires
            old(self).bucketed(keys, owner, place_of),
            keys.no_duplicates(),
            keys.len() < u32::MAX,
            old(self).desc.wf(),
            1 <= old(self).block_bits <= 31,
            old(self).start_pos.len() == pow2_u32(old(self).block_bits),
            old(self).t2count.len() == old(self).desc.array_len(),
            old(self).t2hash.len() == old(self).desc.array_len(),
            old(self).alone.len() == old(self).desc.array_len(),
            old(self).q_size == 0,
            old(self).stack_size == 0,
            forall|t: int|
                0 <= t < old(self).desc.array_len() ==> #[trigger] old(self).t2count[t] == 0,
            forall|t: int|
                0 <= t < old(self).desc.array_len() ==> #[trigger] old(self).t2hash[t] == 0,
        ensures
            final(self).desc == old(self).desc,
            final(self).block_bits == old(self).block_bits,
            final(self).start_pos == old(self).start_pos,
            final(self).reverse_order == old(self).reverse_order,
            final(self).reverse_h == old(self).reverse_h,
            final(self).alone == old(self).alone,
            final(self).t2count.len() == old(self).t2count.len(),
            final(self).t2hash.len() == old(self).t2hash.len(),
            final(self).q_size == 0,
            final(self).stack_size == 0,
            r.1 == 0,
            !r.0 ==> final(self).loaded(keys),
            r.0 ==> exists|slot: int|
                (#[trigger] tally_all(
                    bfuse_edges(keys, old(self).desc),
                    below(keys.len() as int),
                    slot,
                )).count > 63,
    {
        let size = self.reverse_h.len();
        let ghost n = size as int;
        proof {
            self.edges@ = bfuse_edges(keys, self.desc);
            self.alive@ = BinaryFusePeeler::inserted(place_of, 0);
            self.order@ = Seq::empty();
            self.frozen@ = Set::empty();
            assert forall|t: int| 0 <= t < self.desc.array_len() implies {
                let tally = tally_all(self.edges@, self.alive@, t);
                &&& #[trigger] self.t2count[t] == packed(tally.count, tally.roles)
                &&& self.t2hash[t] == tally.mask
            } by {
                lemma_tally_empty(self.edges@, self.alive@, t, n);
            }
            assert forall|t: int| (#[trigger] tally_all(self.edges@, self.alive@, t)).count
                <= 63 by {
                lemma_tally_empty(self.edges@, self.alive@, t, n);
            }
        }
        let mut duplicates: usize = 0;
        let mut i: usize = 0;
        while i < size
            invariant
                i <= size,
                size == n,
                n == keys.len(),
                duplicates == 0,
                self.filling(keys, owner, place_of, i as int),
                self.desc == old(self).desc,
                self.block_bits == old(self).block_bits,
                self.start_pos == old(self).start_pos,
                self.reverse_order == old(self).reverse_order,
                self.reverse_h == old(self).reverse_h,
                self.alone == old(self).alone,
                self.t2count.len() == old(self).t2count.len(),
                self.t2hash.len() == old(self).t2hash.len(),
            decreases size - i,
        {
            let error = self.insert_one(i, &mut duplicates, Ghost(keys), Ghost(owner), Ghost(place_of));
            if error {
                return (true, duplicates);
            }
            i += 1;
        }
        proof {
            assert(self.alive@ =~= below(n));
            assert forall|i: int| 0 <= i < self.edges@.len() implies #[trigger] self.edges@[i]
                == self.desc.edge_of(self.edges@[i].hash) by {}
            assert(self.shaped());
            assert(self.counted());
            assert(self.ordered());
        }
        (false, duplicates)
    }
}

/// The largest number of seeds that a builder tries.
pub const MAX_ATTEMPTS: usize = 1000;

/// The order in which the keys of a filter were taken away: their hashes
/// and the roles of the slots through which they went, with the descriptor
/// under which this was possible.
pub struct BinaryFusePlan {
    pub desc: Descriptor,
    pub size: usize,
    pub hashes: Vec<u64>,
    pub roles: Vec<u8>,
}

impl BinaryFusePlan {
    /// The edge of the key at position `p`.
    pub open spec fn edge(self, p: int) -> Edge {
        self.desc.edge_of(self.hashes[p])
    }

    /// The hashes and roles are a peeling order of their own graph.
    pub open spec fn ordered(self) -> bool {
        &&& self.desc.wf()
        &&& self.size <= self.hashes.len()
        &&& self.size <= self.roles.len()
        &&& forall|p: int| 0 <= p < self.size ==> #[trigger] self.roles[p] < 3
        &&& forall|p: int, q: int|
            0 <= p < q < self.size ==> !(#[trigger] self.edge(q)).touches(
                (#[trigger] self.edge(p)).slot(self.roles[p] as int),
            )
    }

    /// The plan holds `hash`.
    pub open spec fn holds(self, hash: u64) -> bool {
        exists|p: int| 0 <= p < self.size && #[trigger] self.hashes[p] == hash
    }

    /// The plan holds the hash of every key.
    pub open spec fn covers(self, keys: Seq<u64>) -> bool {
        forall|i: int| 0 <= i < keys.len() ==> self.holds(#[trigger] mix_spec(keys[i], self.desc.seed))
    }

    /// Every hash of the plan is the hash of a key.
    pub open spec fn drawn_from(self, keys: Seq<u64>) -> bool {
        forall|p: int|
            0 <= p < self.size ==> hashes_to(keys, self.desc.seed, #[trigger] self.hashes[p])
    }

    /// Some key of the plan touches `slot`.
    pub open spec fn touched(self, slot: int) -> bool {
        exists|p: int| 0 <= p < self.size && (#[trigger] self.edge(p)).touches(slot)
    }
}


/// Whether an attempt with the descriptor `desc` ends with a filter: no
/// slot is touched by more keys than the byte of its count can hold, and
/// the graph of the keys can be peeled.
pub open spec fn bfuse_buildable(keys: Seq<u64>, desc: Descriptor) -> bool {
    let edges = bfuse_edges(keys, desc);
    &&& forall|slot: int| (#[trigger] tally_all(edges, below(keys.len() as int), slot)).count <= 63
    &&& peelable(edges)
}

/// The descriptor `layout` with the seed of attempt `attempt`.
pub open spec fn with_seed_of(layout: Descriptor, attempt: nat) -> Descriptor {
    Descriptor { seed: seed_of_attempt(attempt), ..layout }
}

/// Attempt `attempt` is the first that ends with a filter.
pub open spec fn bfuse_first_success(keys: Seq<u64>, layout: Descriptor, attempt: nat) -> bool {
    &&& bfuse_buildable(keys, with_seed_of(layout, attempt))
    &&& forall|earlier: nat|
        earlier < attempt ==> !#[trigger] bfuse_buildable(keys, with_seed_of(layout, earlier))
}

/// A block of `len` zero bytes.
fn zero_bytes(len: usize) -> (r: Vec<u8>)
    ensures
        r.len() == len,
        forall|i: int| 0 <= i < len ==> #[trigger] r[i] == 0,
{
    let mut block: Vec<u8> = Vec::with_capacity(len);
    let mut i: usize = 0;
    while i < len
        invariant
            i <= len,
            block.len() == i,
            forall|j: int| 0 <= j < i ==> #[trigger] block[j] == 0,
        decreases len - i,
    {
        block.push(0);
        i += 1;
    }
    block
}

/// A block of `len` zero words.
fn zero_words(len: usize) -> (r: Vec<u64>)
    ensures
        r.len() == len,
        forall|i: int| 0 <= i < len ==> #[trigger] r[i] == 0,
{
    let mut block: Vec<u64> = Vec::with_capacity(len);
    let mut i: usize = 0;
    while i < len
        invariant
            i <= len,
            block.len() == i,
            forall|j: int| 0 <= j < i ==> #[trigger] block[j] == 0,
        decreases len - i,
    {
        block.push(0);
        i += 1;
    }
    block
}

/// A block of `len` zero slot numbers.
fn zero_slots(len: usize) -> (r: Vec<u32>)
    ensures
        r.len() == len,
{
    let mut block: Vec<u32> = Vec::with_capacity(len);
    let mut i: usize = 0;
    while i < len
        invariant
            i <= len,
            block.len() == i,
        decreases len - i,
    {
        block.push(0);
        i += 1;
    }
    block
}

/// A block of `len` zero positions.
fn zero_positions(len: usize) -> (r: Vec<usize>)
    ensures
        r.len() == len,
{
    let mut block: Vec<usize> = Vec::with_capacity(len);
    let mut i: usize = 0;
    while i < len
        invariant
            i <= len,
            block.len() == i,
        decreases len - i,
    {
        block.push(0);
        i += 1;
    }
    block
}

/// Whether `bits` bits tell `segment_count` segments apart: two to the
/// power `bits` is `segment_count` or more.
pub open spec fn tells_apart(bits: u32, segment_count: u32) -> bool {
    (1u32 << bits) >= segment_count
}

/// The number of bits by which the hashes are sorted into buckets: the
/// least number, from one on, of bits that tell `segment_count` segments
/// apart.
fn block_bits_for(segment_count: u32) -> (r: u32)
    requires
        segment_count <= 0x4000_0000,
    ensures
        1 <= r <= 30,
        tells_apart(r, segment_count),
        forall|bits: u32| 1 <= bits < r ==> !#[trigger] tells_apart(bits, segment_count),
{
    let mut block_bits: u32 = 1;
    while (1u32 << block_bits) < segment_count
        invariant
            1 <= block_bits <= 30,
            segment_count <= 0x4000_0000,
            forall|bits: u32|
                1 <= bits < block_bits ==> !#[trigger] tells_apart(bits, segment_count),
        decreases 30 - block_bits,
    {
        assert(block_bits < 30) by (bit_vector)
            requires
                (1u32 << block_bits) < segment_count,
                segment_count <= 0x4000_0000,
                1 <= block_bits <= 30,
        ;
        block_bits += 1;
    }
    block_bits
}

impl BinaryFusePeeler {
    /// The arrays for a build from `size` keys with the layout `layout`.
    fn new(size: usize, layout: Descriptor) -> (r: BinaryFusePeeler)
        requires
            layout.wf(),
            size < u32::MAX,
        ensures
            r.cleared(),
            r.desc == layout,
            r.reverse_h.len() == size,
    {
        let capacity = (layout.segment_count_length + 2 * layout.segment_length) as usize;
        let segment_count: u32 = layout.segment_count_length / layout.segment_length;
        assert(segment_count <= 0x4000_0000) by (nonlinear_arith)
            requires
                segment_count == layout.segment_count_length / layout.segment_length,
                layout.segment_length >= 4,
                layout.segment_count_length <= 0xffff_ffff,
        ;
        let block_bits = block_bits_for(segment_count);
        proof {
            lemma_pow2_u32(block_bits);
        }
        let start_pos_len: usize = 1usize << block_bits;
        let mut reverse_order = zero_words(size + 1);
        reverse_order[size] = 1;
        BinaryFusePeeler {
            desc: layout,
            block_bits,
            start_pos: zero_positions(start_pos_len),
            t2count: zero_bytes(capacity),
            t2hash: zero_words(capacity),
            alone: zero_slots(capacity),
            reverse_order,
            reverse_h: zero_bytes(size),
            q_size: 0,
            stack_size: 0,
            edges: Ghost(Seq::empty()),
            alive: Ghost(Set::empty()),
            order: Ghost(Seq::empty()),
            frozen: Ghost(Set::empty()),
        }
    }

    /// Empties the slots, the hashes and the stack for another attempt.
    fn reset(&mut self)
        requires
            old(self).desc.wf(),
            1 <= old(self).block_bits <= 31,
            old(self).start_pos.len() == pow2_u32(old(self).block_bits),
            old(self).t2count.len() == old(self).desc.array_len(),
            old(self).t2hash.len() == old(self).desc.array_len(),
            old(self).alone.len() == old(self).desc.array_len(),
            old(self).reverse_order.len() == old(self).reverse_h.len() + 1,
            old(self).reverse_h.len() < u32::MAX,
        ensures
            final(self).cleared(),
            final(self).desc == old(self).desc,
            final(self).reverse_h.len() == old(self).reverse_h.len(),
    {
        let size = self.reverse_h.len();
        let capacity = self.t2count.len();
        let mut i: usize = 0;
        while i < size
            invariant
                i <= size,
                size == self.reverse_h.len(),
                self.reverse_order.len() == size + 1,
                forall|p: int| 0 <= p < i ==> #[trigger] self.reverse_order[p] == 0,
                self.desc == old(self).desc,
                self.block_bits == old(self).block_bits,
                self.start_pos == old(self).start_pos,
                self.t2count == old(self).t2count,
                self.t2hash == old(self).t2hash,
                self.alone == old(self).alone,
                self.reverse_h == old(self).reverse_h,
            decreases size - i,
        {
            self.reverse_order[i] = 0;
            i += 1;
        }
        self.reverse_order[size] = 1;
        let mut t: usize = 0;
        while t < capacity
            invariant
                t <= capacity,
                capacity == self.t2count.len(),
                capacity == self.t2hash.len(),
                size == self.reverse_h.len(),
                self.reverse_order.len() == size + 1,
                self.reverse_order[size as int] == 1,
                forall|p: int| 0 <= p < size ==> #[trigger] self.reverse_order[p] == 0,
                forall|u: int| 0 <= u < t ==> #[trigger] self.t2count[u] == 0,
                forall|u: int| 0 <= u < t ==> #[trigger] self.t2hash[u] == 0,
                self.desc == old(self).desc,
                self.block_bits == old(self).block_bits,
                self.start_pos == old(self).start_pos,
                self.alone == old(self).alone,
                self.reverse_h == old(self).reverse_h,
            decreases capacity - t,
        {
            self.t2count[t] = 0;
            self.t2hash[t] = 0;
            t += 1;
        }
        self.q_size = 0;
        self.stack_size = 0;
    }

    /// Puts every slot that holds a single key on `alone`.
    fn enqueue_all(&mut self)
        requires
            old(self).shaped(),
            old(self).counted(),
            old(self).ordered(),
            old(self).frozen@ == Set::<int>::empty(),
            old(self).stack_size == 0,
            old(self).q_size == 0,
        ensures
            final(self).inv(),
            final(self).edges@ == old(self).edges@,
            final(self).alive@ == old(self).alive@,
            final(self).desc == old(self).desc,
            final(self).block_bits == old(self).block_bits,
            final(self).start_pos == old(self).start_pos,
            final(self).stack_size == 0,
    {
        let capacity = self.t2count.len();
        let mut i: usize = 0;
        while i < capacity
            invariant
                i <= capacity,
                capacity == self.desc.array_len(),
                self.shaped(),
                self.counted(),
                self.ordered(),
                self.queued(),
                self.q_size <= i,
                self.t2count == old(self).t2count,
                self.t2hash == old(self).t2hash,
                self.reverse_order == old(self).reverse_order,
                self.reverse_h == old(self).reverse_h,
                self.desc == old(self).desc,
                self.block_bits == old(self).block_bits,
                self.start_pos == old(self).start_pos,
                self.stack_size == 0,
                self.edges == old(self).edges,
                self.alive == old(self).alive,
                self.order == old(self).order,
                self.frozen == old(self).frozen,
                self.frozen@ == Set::<int>::empty(),
                forall|q: int| 0 <= q < self.q_size ==> #[trigger] self.alone[q] < i,
                forall|t: int|
                    0 <= t < i && 4 <= #[trigger] self.t2count[t] < 8 ==> exists|q: int|
                        0 <= q < self.q_size && #[trigger] self.alone[q] == t,
            decreases capacity - i,
        {
            let ghost pre = *self;
            self.alone[self.q_size] = i as u32;
            let byte: u8 = self.t2count[i];
            proof {
                lemma_byte_parts(byte, 0);
            }
            if (byte >> 2) == 1 {
                self.q_size += 1;
            }
            proof {
                let post = *self;
                assert forall|q: int| 0 <= q < pre.q_size implies #[trigger] post.alone[q]
                    == pre.alone[q] by {}
                assert forall|t: int|
                    0 <= t < i + 1 && 4 <= #[trigger] post.t2count[t] < 8 implies exists|q: int|
                    0 <= q < post.q_size && #[trigger] post.alone[q] == t by {
                    if t < i {
                        let q = choose|q: int| 0 <= q < pre.q_size && #[trigger] pre.alone[q] == t;
                        assert(post.alone[q] == pre.alone[q]);
                    } else {
                        assert(post.alone[pre.q_size as int] == t);
                    }
                }
                assert forall|q: int| 0 <= q < post.q_size implies {
                    let t = #[trigger] post.alone[q];
                    &&& t < post.desc.array_len()
                    &&& !post.frozen@.contains(t as int)
                    &&& post.t2count[t as int] < 8
                } by {
                    if q < pre.q_size {
                        assert(post.alone[q] == pre.alone[q]);
                    }
                }
                assert forall|q1: int, q2: int| 0 <= q1 < q2 < post.q_size implies #[trigger] post.alone[q1]
                    != #[trigger] post.alone[q2] by {
                    assert(post.alone[q1] == pre.alone[q1]);
                    if q2 < pre.q_size {
                        assert(post.alone[q2] == pre.alone[q2]);
                    }
                }
                assert forall|q: int| 0 <= q < post.q_size implies #[trigger] post.alone[q] < i
                    + 1 by {
                    if q < pre.q_size {
                        assert(post.alone[q] == pre.alone[q]);
                    }
                }
            }
            i += 1;
        }
    }

    /// Takes keys away, one after another, each through a slot in which it
    /// is the only key, until no slot with a single key is left.
    fn peel(&mut self)
        requires
            old(self).inv(),
        ensures
            final(self).inv(),
            final(self).edges@ == old(self).edges@,
            final(self).desc == old(self).desc,
            final(self).q_size == 0,
    {
        while self.q_size > 0
            invariant
                self.inv(),
                self.edges@ == old(self).edges@,
                self.desc == old(self).desc,
            decreases self.edges@.len() - self.stack_size, self.q_size,
        {
            self.step();
        }
    }

    /// When the peeling has ended with keys left over, the graph cannot be
    /// peeled at all.
    proof fn lemma_failed(self)
        requires
            self.inv(),
            self.q_size == 0,
            self.stack_size < self.edges@.len(),
        ensures
            !peelable(self.edges@),
    {
        let n = self.edges@.len() as int;
        let witness = lemma_distinct_misses(self.order@, n);
        assert(self.alive@.contains(witness));
        assert(self.alive@.subset_of(below(n)));
        assert forall|slot: int| (#[trigger] tally_all(self.edges@, self.alive@, slot)).count
            != 1 by {
            if tally_all(self.edges@, self.alive@, slot).count == 1 {
                let i = lemma_tally_single(self.edges@, self.alive@, slot, n);
                let edge = self.edges@[i];
                lemma_bfuse_edge_fits(self.desc, edge.hash);
                assert(edge == self.desc.edge_of(edge.hash));
                assert(!self.frozen@.contains(slot));
                lemma_tally_roles(self.edges@, self.alive@, slot, n);
                let tally = tally_all(self.edges@, self.alive@, slot);
                lemma_unpack(self.t2count[slot], tally.count, tally.roles);
                let q = choose|q: int| 0 <= q < self.q_size && #[trigger] self.alone[q] == slot;
            }
        }
        lemma_stuck(self.edges@, self.alive@, witness);
    }

    /// When the peeling has taken every key, the stack is a peeling order
    /// that covers the keys, and the graph can be peeled.
    proof fn lemma_succeeded(self, keys: Seq<u64>)
        requires
            self.inv(),
            self.stack_size == self.edges@.len(),
            self.edges@ == bfuse_edges(keys, self.desc),
        ensures
            peelable(self.edges@),
            (BinaryFusePlan {
                desc: self.desc,
                size: self.stack_size,
                hashes: self.reverse_order,
                roles: self.reverse_h,
            }).ordered(),
            (BinaryFusePlan {
                desc: self.desc,
                size: self.stack_size,
                hashes: self.reverse_order,
                roles: self.reverse_h,
            }).covers(keys),
            (BinaryFusePlan {
                desc: self.desc,
                size: self.stack_size,
                hashes: self.reverse_order,
                roles: self.reverse_h,
            }).drawn_from(keys),
    {
        let n = self.edges@.len() as int;
        let plan = BinaryFusePlan {
            desc: self.desc,
            size: self.stack_size,
            hashes: self.reverse_order,
            roles: self.reverse_h,
        };
        let slots = Seq::new(
            n as nat,
            |p: int| self.edges@[self.order@[p]].slot(self.reverse_h[p] as int),
        );
        assert forall|i: int| 0 <= i < n implies self.order@.contains(i) by {
            if self.alive@.contains(i) {
                self.lemma_stack_room(i);
            }
        }
        assert forall|p: int| 0 <= p < n implies self.edges@[#[trigger] self.order@[p]].touches(
            slots[p],
        ) by {
            assert(self.reverse_order[p] == self.edges@[self.order@[p]].hash);
        }
        assert forall|p: int, q: int| 0 <= p < q < n implies !self.edges@[
            #[trigger] self.order@[q]].touches(#[trigger] slots[p]) by {}
        lemma_peeled(self.edges@, self.order@, slots);
        assert forall|p: int| 0 <= p < n implies #[trigger] plan.edge(p) == self.edges@[
            self.order@[p]] by {
            let e = self.edges@[self.order@[p]];
            assert(e == self.desc.edge_of(e.hash));
            assert(self.reverse_order[p] == e.hash);
        }
        assert forall|p: int| 0 <= p < plan.size implies #[trigger] plan.roles[p] < 3 by {
            assert(self.reverse_order[p] == self.edges@[self.order@[p]].hash);
        }
        assert forall|p: int, q: int| 0 <= p < q < plan.size implies !(#[trigger] plan.edge(
            q,
        )).touches((#[trigger] plan.edge(p)).slot(plan.roles[p] as int)) by {
            assert(plan.edge(p) == self.edges@[self.order@[p]]);
            assert(plan.edge(q) == self.edges@[self.order@[q]]);
        }
        assert forall|i: int| 0 <= i < keys.len() implies plan.holds(
            #[trigger] mix_spec(keys[i], plan.desc.seed),
        ) by {
            assert(self.order@.contains(i));
            let p = choose|p: int| 0 <= p < self.order@.len() && self.order@[p] == i;
            assert(self.reverse_order[p] == self.edges@[self.order@[p]].hash);
            assert(plan.hashes[p] == mix_spec(keys[i], plan.desc.seed));
        }
        assert forall|p: int| 0 <= p < plan.size implies hashes_to(
            keys,
            plan.desc.seed,
            #[trigger] plan.hashes[p],
        ) by {
            let i = self.order@[p];
            assert(self.reverse_order[p] == self.edges@[i].hash);
            assert(mix_spec(keys[i], plan.desc.seed) == plan.hashes[p]);
        }
    }
}

/// Looks for a seed under which the keys give a filter with the layout
/// `layout`, and peels their graph. The seeds come from the generator in
/// its fixed order; the search ends with the first that works, or after
/// `MAX_ATTEMPTS` seeds.
pub fn bfuse_peel(keys: &[u64], layout: Descriptor) -> (r: Option<BinaryFusePlan>)
    requires
        keys@.no_duplicates(),
        keys@.len() < u32::MAX,
        layout.wf(),
    ensures
        match r {
            Some(plan) => {
                &&& plan.size == keys@.len()
                &&& plan.ordered()
                &&& plan.covers(keys@)
                &&& plan.drawn_from(keys@)
                &&& exists|attempt: nat|
                    attempt < MAX_ATTEMPTS && plan.desc == with_seed_of(layout, attempt)
                        && #[trigger] bfuse_first_success(keys@, layout, attempt)
            },
            None => forall|attempt: nat|
                attempt < MAX_ATTEMPTS ==> !#[trigger] bfuse_buildable(
                    keys@,
                    with_seed_of(layout, attempt),
                ),
        },
{
    let size = keys.len();
    let mut peeler = BinaryFusePeeler::new(size, layout);
    let mut rng: u64 = 1;
    let mut seed = splitmix64(&mut rng);
    let mut attempt: usize = 0;
    proof {
        reveal_with_fuel(state_after, 2);
    }
    while attempt < MAX_ATTEMPTS
        invariant
            attempt <= MAX_ATTEMPTS,
            size == keys@.len(),
            size < u32::MAX,
            keys@.no_duplicates(),
            layout.wf(),
            peeler.cleared(),
            peeler.desc == (Descriptor { seed: peeler.desc.seed, ..layout }),
            peeler.reverse_h.len() == size,
            rng == state_after((attempt + 1) as nat),
            seed == seed_of_attempt(attempt as nat),
            forall|earlier: nat|
                earlier < attempt ==> !#[trigger] bfuse_buildable(
                    keys@,
                    with_seed_of(layout, earlier),
                ),
        decreases MAX_ATTEMPTS - attempt,
    {
        let maps = peeler.bucket(keys, seed);
        let ghost desc = peeler.desc;
        let ghost edges = bfuse_edges(keys@, desc);
        proof {
            assert(desc == with_seed_of(layout, attempt as nat));
        }
        let (error, duplicates) = peeler.insert_all(Ghost(keys@), Ghost(maps@.0), Ghost(maps@.1));
        if !error {
            proof {
                assert forall|slot: int| (#[trigger] tally_all(
                    edges,
                    below(keys@.len() as int),
                    slot,
                )).count <= 63 by {
                    assert(tally_all(peeler.edges@, peeler.alive@, slot).count <= 63);
                }
            }
            // Key addition complete. Perform enqueing.
            peeler.enqueue_all();
            peeler.peel();
            if peeler.stack_size + duplicates == size {
                proof {
                    peeler.lemma_succeeded(keys@);
                    assert(bfuse_buildable(keys@, desc));
                    assert(bfuse_first_success(keys@, layout, attempt as nat));
                }
                return Some(
                    BinaryFusePlan {
                        desc: peeler.desc,
                        size: peeler.stack_size,
                        hashes: peeler.reverse_order,
                        roles: peeler.reverse_h,
                    },
                );
            }
            proof {
                peeler.lemma_failed();
            }
        }
        proof {
            assert(!bfuse_buildable(keys@, with_seed_of(layout, attempt as nat)));
        }
        // Filter failed to be created; reset for a retry.
        peeler.reset();
        seed = splitmix64(&mut rng);
        attempt += 1;
    }
    None
}

/// Fills the slots so that the query equation holds for every key of the
/// plan, going through the plan from its end. `fingerprints` holds what the
/// slots that no key needs are left with.
pub fn bfuse_assign<F: Fingerprint>(plan: &BinaryFusePlan, fingerprints: Vec<F>) -> (fps: Vec<F>)
    requires
        plan.ordered(),
        fingerprints.len() == plan.desc.array_len(),
    ensures
        fps.len() == plan.desc.array_len(),
        forall|p: int| 0 <= p < plan.size ==> solved(fps@, #[trigger] plan.edge(p)),
        forall|t: int|
            0 <= t < fps.len() ==> #[trigger] fps[t] == fingerprints[t] || plan.touched(t),
{
    let ghost fill = fingerprints@;
    let mut fps = fingerprints;
    let mut i: usize = plan.size;
    while i > 0
        invariant
            i <= plan.size,
            plan.ordered(),
            fps.len() == plan.desc.array_len(),
            fill.len() == fps.len(),
            forall|q: int| i <= q < plan.size ==> solved(fps@, #[trigger] plan.edge(q)),
            forall|t: int| 0 <= t < fps.len() ==> #[trigger] fps[t] == fill[t] || plan.touched(t),
        decreases i,
    {
        i -= 1;
        let hash = plan.hashes[i];
        let xor2 = F::from_hash(hash);
        let (index1, index2, index3) = hash_of_hash(
            hash,
            plan.desc.segment_length,
            plan.desc.segment_length_mask,
            plan.desc.segment_count_length,
        );
        let found = plan.roles[i] as usize;
        let h012: [u32; 5] = [index1, index2, index3, index1, index2];
        let ghost edge = plan.edge(i as int);
        proof {
            lemma_bfuse_edge_fits(plan.desc, hash);
        }
        let value = xor2.xor(fps[h012[found + 1] as usize]).xor(fps[h012[found + 2] as usize]);
        let ghost before = fps@;
        fps[h012[found] as usize] = value;
        proof {
            lemma_assign_solves(before, edge, found as int, value);
            assert(fps@ == before.update(edge.slot(found as int), value));
            assert forall|q: int| i < q < plan.size implies solved(fps@, #[trigger] plan.edge(q)) by {
                let other = plan.edge(q);
                lemma_bfuse_edge_fits(plan.desc, plan.hashes[q]);
                assert(!other.touches(plan.edge(i as int).slot(plan.roles[i as int] as int)));
                lemma_assign_keeps(before, other, edge.slot(found as int), value);
            }
            assert forall|t: int| 0 <= t < fps.len() implies #[trigger] fps[t] == fill[t]
                || plan.touched(t) by {
                if t == edge.slot(found as int) {
                    assert(plan.edge(i as int).touches(t));
                } else {
                    assert(fps[t] == before[t]);
                }
            }
        }
    }
    fps
}

/// Answers whether the filter made of these parts contains `key`.
pub fn bfuse_contains<F: Fingerprint>(desc: &Descriptor, fingerprints: &[F], key: u64) -> (r: bool)
    requires
        desc.wf(),
        fingerprints@.len() == desc.array_len(),
    ensures
        r == solved(fingerprints@, desc.edge_of(mix_spec(key, desc.seed))),
{
    let hash = mix(key, desc.seed);
    let f = F::from_hash(hash);
    let (h0, h1, h2) = hash_of_hash(
        hash,
        desc.segment_length,
        desc.segment_length_mask,
        desc.segment_count_length,
    );
    proof {
        lemma_bfuse_edge_fits(*desc, hash);
    }
    f.same(fingerprints[h0 as usize].xor(fingerprints[h1 as usize]).xor(fingerprints[h2 as usize]))
}

/// The largest capacity that a filter is built for: with more, the number
/// of its slots would not fit into 32 bits.
pub const MAX_CAPACITY: u32 = 0xfff8_0000;

/// The number of segments in which the first slot of a key lies: as many
/// as hold `capacity` slots, less the two that only second and third slots
/// use, and one at least.
pub open spec fn segment_count_spec(segment_length: u32, capacity: u32) -> int {
    let init_segment_count = (capacity + segment_length - 1) / (segment_length as int);
    if init_segment_count < 3 {
        1
    } else {
        init_segment_count - 2
    }
}

/// The layout of a filter for `size` keys that is asked to have `capacity`
/// slots. For one key or none the capacity counts as zero. The seed is
/// left at zero.
pub open spec fn layout_spec(size: nat, capacity: u32) -> Descriptor {
    let segment_length = segment_length_spec(ARITY, size as u32);
    let capacity = if size > 1 {
        capacity
    } else {
        0
    };
    Descriptor {
        seed: 0,
        segment_length,
        segment_length_mask: (segment_length - 1) as u32,
        segment_count_length: (segment_count_spec(segment_length, capacity) * segment_length) as u32,
    }
}

/// A segment length is a power of two from 4 to `MAX_SEGMENT_LENGTH`.
proof fn lemma_segment_length_shape(size: u32)
    ensures
        4 <= segment_length_spec(ARITY, size) <= MAX_SEGMENT_LENGTH,
        segment_length_spec(ARITY, size) & sub1(segment_length_spec(ARITY, size)) == 0,
{
    let k = lemma_segment_length_is_power(size);
    lemma_power_of_two(k);
}

/// Two to a power from 2 to 20 lies between 4 and 2^20 and has a single bit.
proof fn lemma_power_of_two(k: u32)
    requires
        2 <= k <= 20,
    ensures
        4 <= (1u32 << k) <= 0x10_0000,
        (1u32 << k) & sub1(1u32 << k) == 0,
{
    assert(4 <= (1u32 << k) <= 0x10_0000 && (1u32 << k) & sub1(1u32 << k) == 0) by (bit_vector)
        requires
            2 <= k <= 20,
    ;
}

/// Computes the layout of a filter for `size` keys and `capacity` slots.
pub fn layout_for(size: usize, capacity: u32) -> (r: Descriptor)
    requires
        size <= u32::MAX,
        capacity <= MAX_CAPACITY,
    ensures
        r == layout_spec(size as nat, capacity),
        r.wf(),
{
    let arity = ARITY;
    let segment_length: u32 = segment_length(arity, size as u32);
    proof {
        lemma_segment_length_shape(size as u32);
    }
    let segment_length_mask: u32 = segment_length - 1;
    let capacity: u32 = if size > 1 {
        capacity
    } else {
        0
    };
    let init_segment_count: u32 = (capacity + segment_length - 1) / segment_length;
    assert(init_segment_count * segment_length <= capacity + segment_length - 1) by (nonlinear_arith)
        requires
            init_segment_count == (capacity + segment_length - 1) / (segment_length as int),
            segment_length > 0,
    ;
    let array_len: u32 = init_segment_count * segment_length;
    let proposed: u32 = (array_len + segment_length - 1) / segment_length;
    assert(proposed == init_segment_count) by (nonlinear_arith)
        requires
            proposed == (init_segment_count * segment_length + segment_length - 1) / (
            segment_length as int),
            segment_length > 0,
    ;
    let segment_count: u32 = if proposed < arity {
        1
    } else {
        proposed - (arity - 1)
    };
    assert((segment_count + 2) * segment_length <= 0xffff_ffff && segment_count * segment_length
        >= segment_length && segment_count * segment_length + 2 * segment_length == (segment_count
        + 2) * segment_length) by (nonlinear_arith)
        requires
            segment_count == 1 || segment_count + 2 == init_segment_count,
            segment_count >= 1,
            init_segment_count * segment_length <= 0xffff_ffff,
            4 <= segment_length <= 262144,
    ;
    let segment_count_length: u32 = segment_count * segment_length;
    assert(segment_count_length & segment_length_mask == 0) by {
        lemma_multiple_masked(segment_count, segment_length);
    }
    Descriptor { seed: 0, segment_length, segment_length_mask, segment_count_length }
}

/// A multiple of a power of two has no bit below that power.
proof fn lemma_multiple_masked(count: u32, length: u32)
    requires
        length & sub1(length) == 0,
        length >= 4,
        count * length <= u32::MAX,
    ensures
        ((count * length) as u32) & sub1(length) == 0,
{
    let product = (count * length) as u32;
    assert(product % length == 0) by (nonlinear_arith)
        requires
            product == count * length,
            length > 0,
    ;
    assert(product & sub1(length) == 0) by (bit_vector)
        requires
            product % length == 0,
            length & sub1(length) == 0,
            length >= 4,
    ;
}

/// The message of a build from keys that are not all distinct.
pub const BFUSE_DUPLICATE_KEYS: &'static str =
    "Binary Fuse filters must be constructed from a collection containing all distinct keys.";

/// The message of a build that found no seed under which the keys give a filter.
pub const BFUSE_CONSTRUCTION_FAILED: &'static str = "Failed to construct binary fuse filter.";

/// What a Binary Fuse filter is made of.
pub struct BinaryFuseParts<F> {
    /// The seed and the layout of the filter
    pub descriptor: Descriptor,
    /// The fingerprints for the filter
    pub fingerprints: Seq<F>,
}

impl<F: Fingerprint> BinaryFuseParts<F> {
    /// The descriptor is well formed and there is a fingerprint per slot.
    pub open spec fn wf(self) -> bool {
        &&& self.descriptor.wf()
        &&& self.fingerprints.len() == self.descriptor.array_len()
    }

    /// The edge of `key`: its hash and its three slots.
    pub open spec fn edge(self, key: u64) -> Edge {
        self.descriptor.edge_of(mix_spec(key, self.descriptor.seed))
    }

    /// The answer of the filter for `key`: whether the fingerprint of the
    /// hash of the key is the xor of the three slots of the key.
    pub open spec fn contains(self, key: u64) -> bool {
        solved(self.fingerprints, self.edge(key))
    }

    /// None of `keys` touches `slot`.
    pub open spec fn unused(self, keys: Seq<u64>, slot: int) -> bool {
        forall|i: int| 0 <= i < keys.len() ==> !self.edge(#[trigger] keys[i]).touches(slot)
    }

    /// The slots that none of `keys` touches hold zero.
    pub open spec fn blank_where_unused(self, keys: Seq<u64>) -> bool {
        forall|slot: int|
            0 <= slot < self.fingerprints.len() && self.unused(keys, slot) ==> (
            #[trigger] self.fingerprints[slot]).bits() == 0
    }

    /// The filter was built from `keys` for `capacity` slots: it has the
    /// layout that goes with their number and the capacity, and the seed of
    /// the first attempt that gives a filter, and it answers `true` for each
    /// of the keys.
    pub open spec fn built_from(self, keys: Seq<u64>, capacity: u32) -> bool {
        let layout = layout_spec(keys.len(), capacity);
        &&& self.wf()
        &&& exists|attempt: nat|
            attempt < MAX_ATTEMPTS && self.descriptor == with_seed_of(layout, attempt)
                && #[trigger] bfuse_first_success(keys, layout, attempt)
        &&& forall|i: int| 0 <= i < keys.len() ==> self.contains(#[trigger] keys[i])
    }
}

/// What a build from `keys` for `capacity` slots gives: an error for keys
/// that are not distinct or that give no filter under any of the seeds, else
/// a filter built from them, in which the slots that no key touches hold
/// zero unless they were filled at random. `parts` is what the filter is
/// made of, if there is one.
pub open spec fn bfuse_build_result<F: Fingerprint>(
    keys: Seq<u64>,
    capacity: u32,
    fill: Fill,
    parts: Option<BinaryFuseParts<F>>,
    error: Option<&'static str>,
) -> bool {
    if !keys.no_duplicates() {
        parts is None && error == Some(BFUSE_DUPLICATE_KEYS)
    } else if forall|attempt: nat|
        attempt < MAX_ATTEMPTS ==> !#[trigger] bfuse_buildable(
            keys,
            with_seed_of(layout_spec(keys.len(), capacity), attempt),
        ) {
        parts is None && error == Some(BFUSE_CONSTRUCTION_FAILED)
    } else {
        &&& error is None
        &&& parts is Some
        &&& parts->0.built_from(keys, capacity)
        &&& fill == Fill::Zero ==> parts->0.blank_where_unused(keys)
    }
}

/// Builds the descriptor and the fingerprints of a Binary Fuse filter for
/// `keys` with `capacity` slots asked for. The slots that no key needs are
/// left at zero.
pub fn bfuse_build<F: Fingerprint>(keys: &[u64], capacity: u32) -> (r: Result<
    (Descriptor, Vec<F>),
    &'static str,
>)
    requires
        keys@.len() < u32::MAX,
        capacity <= MAX_CAPACITY,
    ensures
        bfuse_build_result(
            keys@,
            capacity,
            Fill::Zero,
            match r {
                Ok(t) => Some(BinaryFuseParts { descriptor: t.0, fingerprints: t.1@ }),
                Err(_) => None,
            },
            match r {
                Ok(_) => None,
                Err(e) => Some(e),
            },
        ),
{
    bfuse_build_filled(keys, capacity, Fill::Zero)
}

/// Builds the descriptor and the fingerprints of a Binary Fuse filter for
/// `keys` with `capacity` slots asked for. The slots that no key needs are
/// left with what `fill` says.
pub fn bfuse_build_filled<F: Fingerprint>(keys: &[u64], capacity: u32, fill: Fill) -> (r: Result<
    (Descriptor, Vec<F>),
    &'static str,
>)
    requires
        keys@.len() < u32::MAX,
        capacity <= MAX_CAPACITY,
    ensures
        bfuse_build_result(
            keys@,
            capacity,
            fill,
            match r {
                Ok(t) => Some(BinaryFuseParts { descriptor: t.0, fingerprints: t.1@ }),
                Err(_) => None,
            },
            match r {
                Ok(_) => None,
                Err(e) => Some(e),
            },
        ),
{
    if !all_distinct(keys) {
        return Err(BFUSE_DUPLICATE_KEYS);
    }
    let layout = layout_for(keys.len(), capacity);
    match bfuse_peel(keys, layout) {
        None => Err(BFUSE_CONSTRUCTION_FAILED),
        Some(plan) => {
            let len = (layout.segment_count_length + 2 * layout.segment_length) as usize;
            let blank = make_fp_block::<F>(len, fill);
            let ghost initial = blank@;
            let fingerprints = bfuse_assign::<F>(&plan, blank);
            proof {
                let parts = BinaryFuseParts { descriptor: plan.desc, fingerprints: fingerprints@ };
                if fill == Fill::Zero {
                    assert forall|slot: int|
                        0 <= slot < parts.fingerprints.len() && parts.unused(
                            keys@,
                            slot,
                        ) implies (#[trigger] parts.fingerprints[slot]).bits() == 0 by {
                        if plan.touched(slot) {
                            let p = choose|p: int|
                                0 <= p < plan.size && (#[trigger] plan.edge(p)).touches(slot);
                            assert(hashes_to(keys@, plan.desc.seed, plan.hashes[p]));
                            let i = choose|i: int|
                                0 <= i < keys@.len() && mix_spec(
                                    #[trigger] keys@[i],
                                    plan.desc.seed,
                                ) == plan.hashes[p];
                            assert(parts.edge(keys@[i]) == plan.edge(p));
                        }
                        assert(fingerprints[slot] == initial[slot]);
                    }
                }
                assert forall|i: int| 0 <= i < keys@.len() implies parts.contains(
                    #[trigger] keys@[i],
                ) by {
                    let hash = mix_spec(keys@[i], plan.desc.seed);
                    assert(plan.holds(hash));
                    let p = choose|p: int| 0 <= p < plan.size && #[trigger] plan.hashes[p] == hash;
                    assert(solved(fingerprints@, plan.edge(p)));
                }
                let attempt = choose|attempt: nat|
                    attempt < MAX_ATTEMPTS && plan.desc == with_seed_of(layout, attempt)
                        && #[trigger] bfuse_first_success(keys@, layout, attempt);
                assert(bfuse_buildable(keys@, with_seed_of(layout, attempt)));
            }
            Ok((plan.desc, fingerprints))
        },
    }
}

/// The capacity that goes with a million keys or more: nine eighths of their
/// number, rounded to the nearest whole number.
pub open spec fn large_capacity(size: nat) -> int {
    (9 * size + 4) as int / 8
}

/// A filter that was built from a million keys or more, with the capacity
/// that goes with them, has no more than 9.1 slots for every 8 keys, and no
/// fewer slots than the capacity.
pub proof fn lemma_size_bound<F: Fingerprint>(parts: BinaryFuseParts<F>, keys: Seq<u64>)
    requires
        1_000_000 <= keys.len() < u32::MAX,
        large_capacity(keys.len()) <= MAX_CAPACITY,
        parts.built_from(keys, large_capacity(keys.len()) as u32),
    ensures
        80 * parts.fingerprints.len() <= 91 * keys.len(),
        parts.fingerprints.len() >= large_capacity(keys.len()),
{
    lemma_layout_size_bound(keys.len());
}

/// The layout for a million keys or more, with the capacity that goes with
/// them, has no more than 9.1 slots for every 8 keys, and no fewer slots
/// than the capacity.
pub proof fn lemma_layout_size_bound(size: nat)
    requires
        1_000_000 <= size < u32::MAX,
        large_capacity(size) <= MAX_CAPACITY,
    ensures
        80 * layout_spec(size, large_capacity(size) as u32).array_len() <= 91 * size,
        layout_spec(size, large_capacity(size) as u32).array_len() >= large_capacity(size),
{
    let capacity = large_capacity(size) as u32;
    let length = segment_length_spec(ARITY, size as u32);
    lemma_segments_are_short(size as u32);
    lemma_segment_length_shape(size as u32);
    assert(80 * length <= size + 40);
    let init = (capacity + length - 1) / (length as int);
    assert(init * length <= capacity + length - 1 && init * length >= capacity && init >= 3)
        by (nonlinear_arith)
        requires
            init == (capacity + length - 1) / (length as int),
            4 <= length <= 262144,
            capacity >= 1_000_000,
    ;
    let count = segment_count_spec(length, capacity);
    assert(count == init - 2);
    assert(count * length + 2 * length == init * length) by (nonlinear_arith)
        requires
            count == init - 2,
    ;
}

/// Whatever the capacity, a filter has three segments at least; for two
/// keys or more it has as many slots as were asked for, and fewer than three
/// segments more.
pub proof fn lemma_layout_holds_capacity(size: nat, capacity: u32)
    requires
        size <= u32::MAX,
        capacity <= MAX_CAPACITY,
    ensures
        layout_spec(size, capacity).array_len() >= 3 * layout_spec(size, capacity).segment_length,
        size > 1 ==> layout_spec(size, capacity).array_len() >= capacity,
        size > 1 ==> layout_spec(size, capacity).array_len() <= capacity + 3 * layout_spec(
            size,
            capacity,
        ).segment_length,
        size <= 1 ==> layout_spec(size, capacity).array_len() == 12,
{
    let length = segment_length_spec(ARITY, size as u32);
    lemma_segment_length_shape(size as u32);
    let asked: u32 = if size > 1 {
        capacity
    } else {
        0
    };
    let init = (asked + length - 1) / (length as int);
    assert(init * length <= asked + length - 1 && init * length >= asked && init >= 0)
        by (nonlinear_arith)
        requires
            init == (asked + length - 1) / (length as int),
            4 <= length <= 262144,
            asked >= 0,
    ;
    let count = segment_count_spec(length, asked);
    assert(count * length + 2 * length == (count + 2) * length && (count + 2) * length >= 3
        * length && (count == init - 2 ==> (count + 2) * length == init * length) && (count == 1
        ==> (count + 2) * length == 3 * length && count * length == length)) by (nonlinear_arith)
        requires
            count >= 1,
            length >= 4,
    ;
    assert(count * length <= 0xffff_ffff);
    assert(layout_spec(size, capacity).segment_count_length == count * length);
    if init < 3 {
        assert(init * length <= 2 * length) by (nonlinear_arith)
            requires
                init <= 2,
                length >= 4,
        ;
    } else {
        assert(count == init - 2);
    }
    if size <= 1 {
        if size == 1 {
            lemma_one_key();
        }
        assert(length == 4);
        assert(init == 0) by (nonlinear_arith)
            requires
                init == (0 + 4 - 1) / 4int,
        ;
    }
}

/// No false negatives: a filter that was built from keys answers `true` for
/// each of them. The answer is the query equation: the fingerprint of the
/// hash of the key is the xor of the three slots that `hash_of_hash` gives.
pub proof fn lemma_no_false_negatives<F: Fingerprint>(
    parts: BinaryFuseParts<F>,
    keys: Seq<u64>,
    capacity: u32,
    i: int,
)
    requires
        parts.built_from(keys, capacity),
        0 <= i < keys.len(),
    ensures
        parts.contains(keys[i]),
        ({
            let d = parts.descriptor;
            let hash = mix_spec(keys[i], d.seed);
            let h = hash_of_hash_spec(
                hash,
                d.segment_length,
                d.segment_length_mask,
                d.segment_count_length,
            );
            &&& h.0 < parts.fingerprints.len()
            &&& h.1 < parts.fingerprints.len()
            &&& h.2 < parts.fingerprints.len()
            &&& F::of_hash(hash).bits() == parts.fingerprints[h.0 as int].bits()
                ^ parts.fingerprints[h.1 as int].bits() ^ parts.fingerprints[h.2 as int].bits()
        }),
{
    lemma_bfuse_edge_fits(parts.descriptor, mix_spec(keys[i], parts.descriptor.seed));
}

/// A build from distinct keys that ends with a filter ends with one that
/// answers `true` for each of the keys, and a build that ends with an error
/// ends with the error of a failed construction.
pub proof fn lemma_build_holds_keys<F: Fingerprint>(
    keys: Seq<u64>,
    capacity: u32,
    fill: Fill,
    parts: Option<BinaryFuseParts<F>>,
    error: Option<&'static str>,
)
    requires
        keys.no_duplicates(),
        bfuse_build_result(keys, capacity, fill, parts, error),
    ensures
        parts is Some ==> forall|i: int| 0 <= i < keys.len() ==> parts->0.contains(#[trigger] keys[i]),
        parts is None ==> error == Some(BFUSE_CONSTRUCTION_FAILED),
        parts is Some <==> error is None,
{
}

} // verus!
