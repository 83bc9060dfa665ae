//! The hypergraph behind a filter: every key is an edge that touches three
//! slots. This module holds the mathematics of peeling such a graph; nothing
//! in it is compiled.

use crate::fingerprint::Fingerprint;
use vstd::prelude::*;

verus! {

/// A key seen as an edge: its hash and the three slots that the hash selects.
pub struct Edge {
    pub hash: u64,
    pub s0: int,
    pub s1: int,
    pub s2: int,
}

impl Edge {
    /// The slot that the edge touches in role `role`.
    pub open spec fn slot(self, role: int) -> int {
        if role == 0 {
            self.s0
        } else if role == 1 {
            self.s1
        } else {
            self.s2
        }
    }

    /// Whether `slot` is one of the three slots of the edge.
    pub open spec fn touches(self, slot: int) -> bool {
        slot == self.s0 || slot == self.s1 || slot == self.s2
    }

    /// The role in which the edge touches `slot`.
    pub open spec fn role_at(self, slot: int) -> u8 {
        if slot == self.s0 {
            0
        } else if slot == self.s1 {
            1
        } else {
            2
        }
    }

    /// The three slots are different and lie in `[0, len)`.
    pub open spec fn fits(self, len: int) -> bool {
        &&& 0 <= self.s0 < len
        &&& 0 <= self.s1 < len
        &&& 0 <= self.s2 < len
        &&& self.s0 != self.s1
        &&& self.s0 != self.s2
        &&& self.s1 != self.s2
    }
}

/// What a builder keeps per slot: how many edges touch it, the xor of their
/// hashes, and the xor of the roles in which they touch it.
pub struct Tally {
    pub count: nat,
    pub mask: u64,
    pub roles: u8,
}

impl Tally {
    /// The tally of a slot that no edge touches.
    pub open spec fn empty() -> Tally {
        Tally { count: 0, mask: 0, roles: 0 }
    }

    /// The tally after one more edge has come to the slot.
    pub open spec fn with(self, edge: Edge, slot: int) -> Tally {
        Tally {
            count: self.count + 1,
            mask: self.mask ^ edge.hash,
            roles: self.roles ^ edge.role_at(slot),
        }
    }
}

/// Exclusive or on hashes: the order of the operands does not matter, zero
/// changes nothing, and a value cancels itself.
pub proof fn lemma_xor_hashes(a: u64, b: u64, c: u64)
    ensures
        (a ^ b) ^ c == (a ^ c) ^ b,
        (a ^ b) ^ b == a,
        a ^ b == b ^ a,
        0u64 ^ a == a,
        a ^ b == 0 ==> a == b,
{
    assert((a ^ b) ^ c == (a ^ c) ^ b && (a ^ b) ^ b == a && a ^ b == b ^ a && 0u64 ^ a == a && (a
        ^ b == 0 ==> a == b)) by (bit_vector);
}

/// Exclusive or on roles: the same, and roles stay below four.
pub proof fn lemma_xor_roles(a: u8, b: u8, c: u8)
    ensures
        (a ^ b) ^ c == (a ^ c) ^ b,
        (a ^ b) ^ b == a,
        0u8 ^ a == a,
        a <= 3 && b <= 3 ==> a ^ b <= 3,
{
    assert((a ^ b) ^ c == (a ^ c) ^ b && (a ^ b) ^ b == a && 0u8 ^ a == a && (a <= 3 && b <= 3
        ==> a ^ b <= 3)) by (bit_vector);
}

/// Exclusive or on fingerprints: a slot that is set to the fingerprint
/// xored with the two other slots makes the three slots xor to the
/// fingerprint, and a slot that holds zero may be xored in or left out.
pub proof fn lemma_xor_fingerprints(f: u32, a: u32, b: u32, c: u32)
    ensures
        f == (f ^ b ^ c) ^ b ^ c,
        f == a ^ (f ^ c ^ a) ^ c,
        f == a ^ b ^ (f ^ a ^ b),
        a == 0 ==> ((f ^ a) ^ b) ^ c == f ^ b ^ c,
        b == 0 ==> ((f ^ a) ^ b) ^ c == f ^ c ^ a,
        c == 0 ==> ((f ^ a) ^ b) ^ c == f ^ a ^ b,
{
    assert(f == (f ^ b ^ c) ^ b ^ c && f == a ^ (f ^ c ^ a) ^ c && f == a ^ b ^ (f ^ a ^ b) && (a
        == 0 ==> ((f ^ a) ^ b) ^ c == f ^ b ^ c) && (b == 0 ==> ((f ^ a) ^ b) ^ c == f ^ c ^ a)
        && (c == 0 ==> ((f ^ a) ^ b) ^ c == f ^ a ^ b)) by (bit_vector);
}

/// The tally of `slot` over those of the first `k` edges that are in `alive`.
pub open spec fn tally(edges: Seq<Edge>, alive: Set<int>, slot: int, k: int) -> Tally
    decreases k,
{
    if k <= 0 {
        Tally::empty()
    } else {
        let rest = tally(edges, alive, slot, k - 1);
        if alive.contains(k - 1) && edges[k - 1].touches(slot) {
            rest.with(edges[k - 1], slot)
        } else {
            rest
        }
    }
}

/// The tally of `slot` over all edges in `alive`.
pub open spec fn tally_all(edges: Seq<Edge>, alive: Set<int>, slot: int) -> Tally {
    tally(edges, alive, slot, edges.len() as int)
}

/// The indices below `k`.
pub open spec fn below(k: int) -> Set<int> {
    Set::new(|i: int| 0 <= i < k)
}

/// A slot is touched by at most as many edges as there are.
pub proof fn lemma_tally_bound(edges: Seq<Edge>, alive: Set<int>, slot: int, k: int)
    requires
        0 <= k,
    ensures
        tally(edges, alive, slot, k).count <= k,
    decreases k,
{
    if k > 0 {
        lemma_tally_bound(edges, alive, slot, k - 1);
    }
}

/// Edges outside `alive` do not count: two sets that agree below `k` have
/// the same tally there.
pub proof fn lemma_tally_agree(edges: Seq<Edge>, a: Set<int>, b: Set<int>, slot: int, k: int)
    requires
        forall|i: int| 0 <= i < k ==> a.contains(i) == b.contains(i),
    ensures
        tally(edges, a, slot, k) == tally(edges, b, slot, k),
    decreases k,
{
    if k > 0 {
        lemma_tally_agree(edges, a, b, slot, k - 1);
    }
}

/// Taking edge `i` into `alive` adds it to the tally of the slots it touches
/// and leaves every other tally as it was.
pub proof fn lemma_tally_insert(edges: Seq<Edge>, alive: Set<int>, i: int, slot: int, k: int)
    requires
        !alive.contains(i),
    ensures
        tally(edges, alive.insert(i), slot, k) == if 0 <= i < k && edges[i].touches(slot) {
            tally(edges, alive, slot, k).with(edges[i], slot)
        } else {
            tally(edges, alive, slot, k)
        },
    decreases k,
{
    if k > 0 {
        lemma_tally_insert(edges, alive, i, slot, k - 1);
        let last = k - 1;
        if last != i && alive.contains(last) && edges[last].touches(slot) && 0 <= i < last
            && edges[i].touches(slot) {
            let base = tally(edges, alive, slot, last);
            lemma_xor_hashes(base.mask, edges[i].hash, edges[last].hash);
            lemma_xor_roles(base.roles, edges[i].role_at(slot), edges[last].role_at(slot));
        }
    }
}

/// Taking edge `i` out of `alive` removes it from the tally of the slots it
/// touches and leaves every other tally as it was.
pub proof fn lemma_tally_remove(edges: Seq<Edge>, alive: Set<int>, i: int, slot: int, k: int)
    requires
        alive.contains(i),
    ensures
        tally(edges, alive, slot, k) == if 0 <= i < k && edges[i].touches(slot) {
            tally(edges, alive.remove(i), slot, k).with(edges[i], slot)
        } else {
            tally(edges, alive.remove(i), slot, k)
        },
{
    lemma_tally_insert(edges, alive.remove(i), i, slot, k);
    assert(alive.remove(i).insert(i) =~= alive);
}

/// The xor of roles stays below four.
pub proof fn lemma_tally_roles(edges: Seq<Edge>, alive: Set<int>, slot: int, k: int)
    ensures
        tally(edges, alive, slot, k).roles <= 3,
    decreases k,
{
    if k > 0 {
        lemma_tally_roles(edges, alive, slot, k - 1);
        lemma_xor_roles(tally(edges, alive, slot, k - 1).roles, edges[k - 1].role_at(slot), 0);
    }
}

/// With more edges in `alive` no count goes down.
pub proof fn lemma_tally_monotone(edges: Seq<Edge>, a: Set<int>, b: Set<int>, slot: int, k: int)
    requires
        a.subset_of(b),
    ensures
        tally(edges, a, slot, k).count <= tally(edges, b, slot, k).count,
    decreases k,
{
    if k > 0 {
        lemma_tally_monotone(edges, a, b, slot, k - 1);
    }
}

/// A slot with count zero is touched by no edge of `alive`, and its
/// accumulators are zero.
pub proof fn lemma_tally_none(edges: Seq<Edge>, alive: Set<int>, slot: int, k: int)
    requires
        tally(edges, alive, slot, k).count == 0,
    ensures
        tally(edges, alive, slot, k) == Tally::empty(),
        forall|j: int| 0 <= j < k && alive.contains(j) ==> !(#[trigger] edges[j]).touches(slot),
    decreases k,
{
    if k > 0 {
        lemma_tally_none(edges, alive, slot, k - 1);
    }
}

/// A slot touched by an edge of `alive` has a positive count.
pub proof fn lemma_tally_positive(edges: Seq<Edge>, alive: Set<int>, slot: int, k: int, i: int)
    requires
        0 <= i < k,
        alive.contains(i),
        edges[i].touches(slot),
    ensures
        tally(edges, alive, slot, k).count >= 1,
    decreases k,
{
    if k - 1 > i {
        lemma_tally_positive(edges, alive, slot, k - 1, i);
    }
}

/// A slot with count one is touched by exactly one edge of `alive`; the
/// accumulators of the slot are the hash and the role of that edge.
pub proof fn lemma_tally_single(edges: Seq<Edge>, alive: Set<int>, slot: int, k: int) -> (i: int)
    requires
        tally(edges, alive, slot, k).count == 1,
    ensures
        0 <= i < k,
        alive.contains(i),
        edges[i].touches(slot),
        tally(edges, alive, slot, k).mask == edges[i].hash,
        tally(edges, alive, slot, k).roles == edges[i].role_at(slot),
        forall|j: int|
            0 <= j < k && alive.contains(j) && (#[trigger] edges[j]).touches(slot) ==> j == i,
    decreases k,
{
    let last = k - 1;
    if alive.contains(last) && edges[last].touches(slot) {
        lemma_tally_none(edges, alive, slot, last);
        lemma_xor_hashes(edges[last].hash, 0, 0);
        lemma_xor_roles(edges[last].role_at(slot), 0, 0);
        last
    } else {
        lemma_tally_single(edges, alive, slot, last)
    }
}

/// A slot with count two or more that edge `i` touches is touched by another
/// edge of `alive` too.
pub proof fn lemma_tally_other(edges: Seq<Edge>, alive: Set<int>, slot: int, k: int, i: int) -> (j:
    int)
    requires
        0 <= i < k,
        alive.contains(i),
        edges[i].touches(slot),
        tally(edges, alive, slot, k).count >= 2,
    ensures
        0 <= j < k,
        j != i,
        alive.contains(j),
        edges[j].touches(slot),
        tally(edges, alive, slot, k).count == 2 ==> tally(edges, alive, slot, k).mask
            == edges[i].hash ^ edges[j].hash,
{
    lemma_tally_remove(edges, alive, i, slot, k);
    let rest = alive.remove(i);
    let t = tally(edges, rest, slot, k);
    if t.count == 1 {
        let j = lemma_tally_single(edges, rest, slot, k);
        lemma_xor_hashes(edges[i].hash, edges[j].hash, 0);
        j
    } else {
        lemma_tally_some(edges, rest, slot, k)
    }
}

/// A slot with a positive count is touched by some edge of `alive`.
pub proof fn lemma_tally_some(edges: Seq<Edge>, alive: Set<int>, slot: int, k: int) -> (i: int)
    requires
        tally(edges, alive, slot, k).count >= 1,
    ensures
        0 <= i < k,
        alive.contains(i),
        edges[i].touches(slot),
    decreases k,
{
    let last = k - 1;
    if alive.contains(last) && edges[last].touches(slot) {
        last
    } else {
        lemma_tally_some(edges, alive, slot, last)
    }
}

/// A sequence of different numbers below `n` has at most `n` members.
pub proof fn lemma_distinct_bounded(s: Seq<int>, n: int)
    requires
        0 <= n,
        s.no_duplicates(),
        forall|p: int| 0 <= p < s.len() ==> 0 <= #[trigger] s[p] < n,
    ensures
        s.len() <= n,
{
    if s.len() > 0 {
        assert(0 <= s[0] < n);
        s.unique_seq_to_set();
        vstd::set_lib::lemma_int_range(0, n);
        let range = vstd::set_lib::set_int_range(0, n);
        assert(s.to_set().subset_of(range)) by {
            assert forall|x: int| s.to_set().contains(x) implies range.contains(x) by {
                let p = choose|p: int| 0 <= p < s.len() && s[p] == x;
                assert(0 <= s[p] < n);
            }
        }
        vstd::set_lib::lemma_len_subset(s.to_set(), range);
    }
}

/// A sequence of different numbers below `n` with fewer than `n` members
/// misses one of them.
pub proof fn lemma_distinct_misses(s: Seq<int>, n: int) -> (x: int)
    requires
        s.no_duplicates(),
        forall|p: int| 0 <= p < s.len() ==> 0 <= #[trigger] s[p] < n,
        s.len() < n,
    ensures
        0 <= x < n,
        !s.contains(x),
{
    s.unique_seq_to_set();
    vstd::set_lib::lemma_int_range(0, n);
    let range = vstd::set_lib::set_int_range(0, n);
    if range.subset_of(s.to_set()) {
        vstd::set_lib::lemma_len_subset(range, s.to_set());
    }
    let x = choose|x: int| range.contains(x) && !s.to_set().contains(x);
    x
}

/// The query equation of edge `e` over the stored values `fps`: the
/// fingerprint of the hash is the xor of the three slots.
pub open spec fn solved<F: Fingerprint>(fps: Seq<F>, e: Edge) -> bool {
    F::of_hash(e.hash).bits() == fps[e.s0].bits() ^ fps[e.s1].bits() ^ fps[e.s2].bits()
}

/// Storing, in one slot of an edge, the fingerprint xored with the two other
/// slots makes the query equation of the edge hold.
pub proof fn lemma_assign_solves<F: Fingerprint>(fps: Seq<F>, e: Edge, role: int, value: F)
    requires
        e.fits(fps.len() as int),
        0 <= role < 3,
        value.bits() == F::of_hash(e.hash).bits() ^ fps[e.slot((role + 1) % 3)].bits() ^ fps[e.slot(
            (role + 2) % 3,
        )].bits(),
    ensures
        solved(fps.update(e.slot(role), value), e),
{
    let f = F::of_hash(e.hash).bits();
    let a = fps[e.s0].bits();
    let b = fps[e.s1].bits();
    let c = fps[e.s2].bits();
    let v = value.bits();
    lemma_xor_fingerprints(f, a, b, c);
}

/// Storing into a slot that an edge does not touch leaves the query equation
/// of the edge as it was.
pub proof fn lemma_assign_keeps<F: Fingerprint>(fps: Seq<F>, e: Edge, slot: int, value: F)
    requires
        e.fits(fps.len() as int),
        0 <= slot < fps.len(),
        !e.touches(slot),
    ensures
        solved(fps.update(slot, value), e) == solved(fps, e),
{
}

/// Edge `i` is alone in `members` at the slot of its role `role`.
pub open spec fn lonely(edges: Seq<Edge>, members: Set<int>, i: int, role: int) -> bool {
    forall|j: int| #[trigger]
        members.contains(j) && j != i ==> !edges[j].touches(edges[i].slot(role))
}

/// The graph can be peeled: every set of edges that is not empty has an edge
/// that is alone at one of its slots. This is the condition under which some
/// order of taking edges away, each through a slot that it alone touches,
/// takes all of them.
pub open spec fn peelable(edges: Seq<Edge>) -> bool {
    forall|members: Set<int>|
        (#[trigger] members.subset_of(below(edges.len() as int))) && (exists|x: int|
            members.contains(x)) ==> exists|i: int, role: int|
            members.contains(i) && 0 <= role < 3 && #[trigger] lonely(edges, members, i, role)
}

/// A graph without edges can be peeled: there is nothing to take away.
pub proof fn lemma_peelable_empty(edges: Seq<Edge>)
    requires
        edges.len() == 0,
    ensures
        peelable(edges),
{
    assert forall|members: Set<int>|
        (#[trigger] members.subset_of(below(edges.len() as int))) && (exists|x: int|
            members.contains(x)) implies exists|i: int, role: int|
        members.contains(i) && 0 <= role < 3 && #[trigger] lonely(edges, members, i, role) by {
        let x = choose|x: int| members.contains(x);
        assert(below(0).contains(x));
    }
}

/// A set of edges in which no slot has count one shows that the graph
/// cannot be peeled.
pub proof fn lemma_stuck(edges: Seq<Edge>, alive: Set<int>, witness: int)
    requires
        alive.subset_of(below(edges.len() as int)),
        alive.contains(witness),
        forall|slot: int| (#[trigger] tally_all(edges, alive, slot)).count != 1,
    ensures
        !peelable(edges),
{
    let n = edges.len() as int;
    assert forall|i: int, role: int|
        alive.contains(i) && 0 <= role < 3 implies !#[trigger] lonely(edges, alive, i, role) by {
        let slot = edges[i].slot(role);
        assert(below(n).contains(i));
        lemma_tally_positive(edges, alive, slot, n, i);
        assert(tally_all(edges, alive, slot).count != 1);
        let j = lemma_tally_other(edges, alive, slot, n, i);
        assert(alive.contains(j) && j != i && edges[j].touches(edges[i].slot(role)));
    }
    assert(alive.subset_of(below(n)));
}

/// The first position of `order` whose edge is in `members`.
proof fn lemma_first_member(order: Seq<int>, members: Set<int>, k: int) -> (p: int)
    requires
        0 <= k < order.len(),
        members.contains(order[k]),
    ensures
        0 <= p <= k,
        members.contains(order[p]),
        forall|q: int| 0 <= q < p ==> !members.contains(#[trigger] order[q]),
    decreases k,
{
    if exists|q: int| 0 <= q < k && members.contains(#[trigger] order[q]) {
        let q = choose|q: int| 0 <= q < k && members.contains(#[trigger] order[q]);
        lemma_first_member(order, members, q)
    } else {
        k
    }
}

/// A graph whose edges were all taken away in a peeling order can be peeled.
pub proof fn lemma_peeled(edges: Seq<Edge>, order: Seq<int>, slots: Seq<int>)
    requires
        order.len() == slots.len(),
        forall|p: int| 0 <= p < order.len() ==> 0 <= #[trigger] order[p] < edges.len(),
        forall|i: int| 0 <= i < edges.len() ==> order.contains(i),
        forall|p: int| 0 <= p < order.len() ==> edges[#[trigger] order[p]].touches(slots[p]),
        forall|p: int, q: int|
            0 <= p < q < order.len() ==> !edges[#[trigger] order[q]].touches(#[trigger] slots[p]),
    ensures
        peelable(edges),
{
    let n = edges.len() as int;
    assert forall|members: Set<int>|
        (#[trigger] members.subset_of(below(n))) && (exists|x: int|
            members.contains(x)) implies exists|i: int, role: int|
        members.contains(i) && 0 <= role < 3 && #[trigger] lonely(edges, members, i, role) by {
        let x = choose|x: int| members.contains(x);
        assert(below(n).contains(x));
        assert(order.contains(x));
        let k = choose|k: int| 0 <= k < order.len() && order[k] == x;
        let p = lemma_first_member(order, members, k);
        let i = order[p];
        let role = edges[i].role_at(slots[p]) as int;
        assert(edges[i].slot(role) == slots[p]);
        assert forall|j: int| #[trigger] members.contains(j) && j != i implies !edges[j].touches(
            edges[i].slot(role),
        ) by {
            assert(below(n).contains(j));
            assert(order.contains(j));
            let q = choose|q: int| 0 <= q < order.len() && order[q] == j;
            assert(!members.contains(order[q]) || q >= p);
            assert(q > p);
        }
        assert(lonely(edges, members, i, role));
    }
}

} // verus!
