//! The two-level list: the production tour representation.
//!
//! The cycle is partitioned into segments.  Each segment stores its cities
//! in a vector (`cities`) together with a `reverse` bit: the segment's
//! logical order is the vector read forward, or backward when the bit is
//! set, so a whole segment is reversed in O(1).  The segments themselves
//! stand in a circular order held by a pair of inverse permutations:
//! `ring` maps a ring position to a segment slot and `pos` maps a slot back
//! to its position, so a run of segments is reversed by swapping ring
//! entries without touching any vertex.  Every vertex records its slot and
//! its physical rank inside the slot's vector, which gives O(1) neighbour
//! and `between` queries.
//!
//! The abstract value of a tour is the concatenation of the segments'
//! logical sequences in ring order, read cyclically: every contract below
//! speaks of that sequence.

use vstd::prelude::*;

use crate::node::{dist_spec, Container, Node, MAX_EDGE_DIST};
use crate::tour::cyclic::{
    arc_dist, between_of, flip_arc, flip_view, idx_of, lemma_arc_dist_shift, lemma_cyc3_ends,
    lemma_cyc3_front, lemma_cyc3_mid, lemma_cyc3_window, lemma_flip_arc_anchor,
    lemma_flip_arc_perm, lemma_flip_arcs_partition, lemma_idx_of_exact, lemma_idx_of_rotate,
    lemma_mod_shift, lemma_perm_complete, lemma_perm_distinct, lemma_perm_idx_of,
    lemma_perm_rotate, lemma_rank_between_cyc, lemma_rank_between_reverse, lemma_rotate_full,
    lemma_succ_of_rotate, perm_of, pred_of, rotate_seq, succ_of, valid_flip,
};
use crate::tour::dist::{lemma_tour_dist_bound, tour_dist};
use crate::tour::{TourOrder, UpdateTourError};

verus! {

/// Per-city bookkeeping owned by the tour.
#[derive(Clone, Copy, PartialEq, Eq, Structural, Debug)]
pub struct TllNode {
    /// The city id; equals the node's position in the vertex table.
    pub id: usize,
    /// The slot of the segment this vertex currently lives in.
    pub slot: usize,
    /// The vertex's physical position inside its segment's city vector.
    pub rank: usize,
    /// Scratch flag for the greedy constructor and the k-opt driver.
    pub visited: bool,
}

impl TllNode {
    pub fn new(node: &Node) -> (r: TllNode)
        ensures
            r == (TllNode { id: node.index, slot: 0, rank: 0, visited: false }),
    {
        TllNode { id: node.index(), slot: 0, rank: 0, visited: false }
    }

    pub fn index(&self) -> (r: usize)
        ensures
            r == self.id,
    {
        self.id
    }

    pub fn is_visited(&self) -> (r: bool)
        ensures
            r == self.visited,
    {
        self.visited
    }

    pub fn visited(&mut self, flag: bool)
        ensures
            *final(self) == (TllNode { visited: flag, ..*old(self) }),
    {
        self.visited = flag;
    }
}

/// A maximal contiguous group of cities stored together; the unit of
/// sub-linear work.
#[derive(Clone, Debug)]
pub struct Segment {
    /// The member city ids in physical storage order.
    pub cities: Vec<usize>,
    /// When set, the segment's logical order is `cities` read backward.
    pub reverse: bool,
}

impl Segment {
    pub fn new() -> (r: Segment)
        ensures
            r.cities@.len() == 0,
            r.reverse == false,
    {
        Segment { cities: Vec::new(), reverse: false }
    }
}

/// The logical (tour-order) id sequence of one segment.
pub open spec fn seg_logical(seg: Segment) -> Seq<int> {
    if seg.reverse {
        seg.cities@.map_values(|u: usize| u as int).reverse()
    } else {
        seg.cities@.map_values(|u: usize| u as int)
    }
}

/// The production tour representation.
pub struct TwoLevelList {
    /// The viewed cities; immutable for the tour's lifetime.
    pub container: Container,
    /// Per-city bookkeeping, indexed by city id.
    pub vertices: Vec<TllNode>,
    /// The segments, indexed by slot; a slot never moves.
    pub segments: Vec<Segment>,
    /// Ring position -> slot.
    pub ring: Vec<usize>,
    /// Slot -> ring position; inverse of `ring`.
    pub pos: Vec<usize>,
    /// Target segment size used when a tour order is applied.
    pub max_len: usize,
    /// The tour's total length, kept current across every mutation.
    pub total_dist: u128,
}

impl View for TwoLevelList {
    type V = Seq<int>;

    /// The tour as the cyclic sequence of city ids it visits.
    open spec fn view(&self) -> Seq<int> {
        self.tour_prefix(self.m_spec())
    }
}

impl TwoLevelList {
    /// Number of cities.
    pub open spec fn n_spec(self) -> int {
        self.vertices@.len() as int
    }

    /// Number of segments.
    pub open spec fn m_spec(self) -> int {
        self.segments@.len() as int
    }

    /// The logical sequence of the segment at ring position `p`.
    pub open spec fn seg_at(self, p: int) -> Seq<int> {
        seg_logical(self.segments@[self.ring@[p] as int])
    }

    /// Total number of ids in the segments at ring positions `0 .. p`.
    pub open spec fn prefix_len(self, p: int) -> int
        decreases p,
    {
        if p <= 0 {
            0
        } else {
            self.prefix_len(p - 1) + self.seg_at(p - 1).len()
        }
    }

    /// The concatenation of the logical sequences at ring positions
    /// `0 .. p`.
    pub open spec fn tour_prefix(self, p: int) -> Seq<int>
        decreases p,
    {
        if p <= 0 {
            Seq::empty()
        } else {
            self.tour_prefix(p - 1) + self.seg_at(p - 1)
        }
    }

    /// The logical rank of vertex `v` inside its segment: its position in
    /// the segment's logical sequence.
    pub open spec fn lrank(self, v: int) -> int {
        let vtx = self.vertices@[v];
        let seg = self.segments@[vtx.slot as int];
        if seg.reverse {
            seg.cities@.len() - 1 - vtx.rank
        } else {
            vtx.rank as int
        }
    }

    /// The position of vertex `v` in the tour sequence.
    pub open spec fn vpos(self, v: int) -> int {
        self.prefix_len(self.pos@[self.vertices@[v].slot as int] as int) + self.lrank(v)
    }

    /// The scratch flag of vertex `v`.
    pub open spec fn visited_of(self, v: int) -> bool {
        self.vertices@[v].visited
    }

    // -- well-formedness ----------------------------------------------------

    /// `ring` and `pos` are inverse permutations of the slots.
    pub open spec fn ring_ok(self) -> bool {
        &&& self.ring@.len() == self.m_spec()
        &&& self.pos@.len() == self.m_spec()
        &&& forall|p: int|
            0 <= p < self.m_spec() ==> (#[trigger] self.ring@[p]) < self.m_spec()
                && self.pos@[self.ring@[p] as int] == p
        &&& forall|s: int|
            0 <= s < self.m_spec() ==> (#[trigger] self.pos@[s]) < self.m_spec()
                && self.ring@[self.pos@[s] as int] == s
    }

    /// Every city entry of every segment points back at its place.
    pub open spec fn cities_ok(self) -> bool {
        forall|s: int, i: int|
            0 <= s < self.m_spec() && 0 <= i < self.segments@[s].cities@.len() ==> {
                let v = #[trigger] self.segments@[s].cities@[i];
                &&& v < self.n_spec()
                &&& self.vertices@[v as int].slot == s
                &&& self.vertices@[v as int].rank == i
            }
    }

    /// Every vertex points at a real segment entry holding it.
    pub open spec fn verts_ok(self) -> bool {
        forall|v: int|
            0 <= v < self.n_spec() ==> {
                let vtx = #[trigger] self.vertices@[v];
                &&& vtx.id == v
                &&& (vtx.slot as int) < self.m_spec()
                &&& (vtx.rank as int) < self.segments@[vtx.slot as int].cities@.len()
                &&& self.segments@[vtx.slot as int].cities@[vtx.rank as int] == v
            }
    }

    /// The structural part of the representation invariant: everything but
    /// the cached total distance.
    pub open spec fn wf_struct(self) -> bool {
        &&& self.container.wf()
        &&& self.n_spec() == self.container.nodes@.len()
        &&& self.max_len >= 1
        &&& self.m_spec() >= 1
        &&& self.ring_ok()
        &&& self.cities_ok()
        &&& self.verts_ok()
        &&& (self.n_spec() == 0 ==> self.m_spec() == 1 && self.segments@[0].cities@.len() == 0)
        &&& (self.n_spec() > 0 ==> forall|s: int|
            0 <= s < self.m_spec() ==> (#[trigger] self.segments@[s]).cities@.len() >= 1)
        &&& self@.len() == self.n_spec()
    }

    /// The full representation invariant.
    pub open spec fn wf(self) -> bool {
        &&& self.wf_struct()
        &&& self.total_dist as int == tour_dist(self.container.metric, self.container.nodes@, self@)
    }

    // -- structural lemmas --------------------------------------------------

    pub proof fn lemma_tour_prefix_len(self, p: int)
        requires
            0 <= p <= self.m_spec(),
        ensures
            self.tour_prefix(p).len() == self.prefix_len(p),
        decreases p,
    {
        if p > 0 {
            self.lemma_tour_prefix_len(p - 1);
        }
    }

    /// Indexing into the concatenated tour lands in the expected segment.
    proof fn lemma_tour_index_upto(self, p: int, i: int, q: int)
        requires
            0 <= p < q <= self.m_spec(),
            0 <= i < self.seg_at(p).len(),
        ensures
            self.prefix_len(p) + self.seg_at(p).len() <= self.prefix_len(q),
            self.tour_prefix(q)[self.prefix_len(p) + i] == self.seg_at(p)[i],
            self.prefix_len(p) >= 0,
        decreases q,
    {
        self.lemma_tour_prefix_len(p);
        if q == p + 1 {
            self.lemma_tour_prefix_len(p);
        } else {
            self.lemma_tour_index_upto(p, i, q - 1);
            self.lemma_tour_prefix_len(q - 1);
        }
    }

    pub proof fn lemma_tour_index(self, p: int, i: int)
        requires
            0 <= p < self.m_spec(),
            0 <= i < self.seg_at(p).len(),
        ensures
            0 <= self.prefix_len(p),
            self.prefix_len(p) + self.seg_at(p).len() <= self@.len(),
            self@[self.prefix_len(p) + i] == self.seg_at(p)[i],
    {
        self.lemma_tour_index_upto(p, i, self.m_spec());
        self.lemma_tour_prefix_len(self.m_spec());
    }

    /// Every vertex is found at its computed tour position.
    pub proof fn lemma_vpos(self, v: int)
        requires
            self.wf_struct(),
            0 <= v < self.n_spec(),
        ensures
            0 <= self.vpos(v) < self@.len(),
            self@[self.vpos(v)] == v,
            0 <= self.lrank(v) < self.seg_at(self.pos@[self.vertices@[v].slot as int] as int).len(),
    {
        let vtx = self.vertices@[v];
        let s = vtx.slot as int;
        let p = self.pos@[s] as int;
        let seg = self.segments@[s];
        let l = self.lrank(v);
        assert(self.ring@[p] as int == s);
        assert(self.seg_at(p) == seg_logical(seg));
        if seg.reverse {
            assert(seg_logical(seg)[l] == seg.cities@.map_values(|u: usize| u as int)[vtx.rank as int]);
        }
        assert(self.seg_at(p)[l] == v);
        self.lemma_tour_index(p, l);
    }

    /// Decompose a tour position into its segment and local index.
    proof fn lemma_tour_decompose_from(self, x: int, p: int) -> (r: (int, int))
        requires
            0 <= p < self.m_spec(),
            self.prefix_len(p) <= x < self.prefix_len(self.m_spec()),
        ensures
            ({
                let (q, i) = r;
                &&& p <= q < self.m_spec()
                &&& 0 <= i < self.seg_at(q).len()
                &&& x == self.prefix_len(q) + i
            }),
        decreases self.m_spec() - p,
    {
        if x < self.prefix_len(p) + self.seg_at(p).len() {
            (p, x - self.prefix_len(p))
        } else {
            assert(p + 1 < self.m_spec() || false) by {
                if p + 1 == self.m_spec() {
                    assert(self.prefix_len(p + 1) == self.prefix_len(p) + self.seg_at(p).len());
                }
            }
            self.lemma_tour_decompose_from(x, p + 1)
        }
    }

    /// Every tour position holds a valid id whose `vpos` is that position.
    pub proof fn lemma_tour_at(self, x: int)
        requires
            self.wf_struct(),
            0 <= x < self@.len(),
        ensures
            0 <= self@[x] < self.n_spec(),
            self.vpos(self@[x]) == x,
    {
        self.lemma_tour_prefix_len(self.m_spec());
        assert(self.prefix_len(0) == 0);
        let (q, i) = self.lemma_tour_decompose_from(x, 0);
        self.lemma_tour_index(q, i);
        let v = self.seg_at(q)[i];
        let s = self.ring@[q] as int;
        let seg = self.segments@[s];
        // read the id out of the segment's logical sequence
        if seg.reverse {
            let phys = seg.cities@.len() - 1 - i;
            assert(seg_logical(seg)[i] == seg.cities@.map_values(|u: usize| u as int)[phys]);
            assert(v == seg.cities@[phys]);
            assert(self.vertices@[v].slot as int == s);
            assert(self.vertices@[v].rank as int == phys);
            assert(self.lrank(v) == i);
        } else {
            assert(v == seg.cities@[i]);
            assert(self.vertices@[v].slot as int == s);
            assert(self.vertices@[v].rank as int == i);
            assert(self.lrank(v) == i);
        }
        assert(self.pos@[s] as int == q);
    }

    /// A well-formed two-level list denotes a permutation, and `vpos` is the
    /// model-level index of each id.
    pub proof fn lemma_wf_perm(self)
        requires
            self.wf_struct(),
        ensures
            perm_of(self@, self.n_spec()),
            forall|v: int| 0 <= v < self.n_spec() ==> idx_of(self@, v) == #[trigger] self.vpos(v),
    {
        let n = self.n_spec();
        let t = self@;
        assert forall|x: int| 0 <= x < n implies 0 <= #[trigger] t[x] < n by {
            self.lemma_tour_at(x);
        }
        assert forall|x: int, y: int| 0 <= x < y < n implies t[x] != t[y] by {
            self.lemma_tour_at(x);
            self.lemma_tour_at(y);
        }
        assert forall|v: int| 0 <= v < n implies t.contains(v) by {
            self.lemma_vpos(v);
        }
        assert forall|v: int| 0 <= v < n implies idx_of(t, v) == #[trigger] self.vpos(v) by {
            self.lemma_vpos(v);
            lemma_idx_of_exact(t, self.vpos(v));
        }
    }
}

/// Does `v` occur among the first `cnt` entries of `o`?
pub open spec fn appears(o: Seq<usize>, cnt: int, v: int) -> bool {
    exists|i: int| 0 <= i < cnt && (#[trigger] o[i]) as int == v
}

/// After the re-pointing pass, the vertex at order position `t` records the
/// chunk `t / k` and the offset `t % k`, and keeps its id and scratch flag.
spec fn vertex_placed(verts: Seq<TllNode>, old_verts: Seq<TllNode>, o: Seq<int>, k: int, t: int) -> bool {
    let v = o[t];
    let vtx = verts[v];
    &&& vtx.id as int == v
    &&& vtx.slot as int == t / k
    &&& vtx.rank as int == t % k
    &&& vtx.visited == old_verts[v].visited
}

/// The first id of the chunk `t` when an order of `n` ids is cut into
/// groups of `k`.
pub open spec fn chunk_lo(t: int, k: int) -> int {
    t * k
}

/// One past the last id of chunk `t`.
pub open spec fn chunk_hi(t: int, k: int, n: int) -> int {
    if (t + 1) * k <= n {
        (t + 1) * k
    } else {
        n
    }
}

/// Facts about the number of chunks `m = ceil(n / k)`.
proof fn lemma_chunk_count(n: int, k: int, m: int)
    requires
        n >= 1,
        k >= 1,
        m == n / k + if n % k != 0 {
            1int
        } else {
            0int
        },
    ensures
        m >= 1,
        (m - 1) * k < n <= m * k,
{
    vstd::arithmetic::div_mod::lemma_fundamental_div_mod(n, k);
    vstd::arithmetic::div_mod::lemma_mod_division_less_than_divisor(n, k);
    vstd::arithmetic::div_mod::lemma_div_pos_is_pos(n, k);
    let q = n / k;
    let r = n % k;
    assert(n == k * q + r);
    assert(q >= 1 || r >= 1) by (nonlinear_arith)
        requires
            n == k * q + r,
            n >= 1,
            k >= 1,
            q >= 0,
            r >= 0,
    ;
    if r == 0 {
        assert(m == q);
        assert(m * k == k * q) by (nonlinear_arith)
            requires
                m == q,
        ;
        assert((m - 1) * k == k * q - k) by (nonlinear_arith)
            requires
                m == q,
        ;
    } else {
        assert(m == q + 1);
        assert(m * k == k * q + k) by (nonlinear_arith)
            requires
                m == q + 1,
        ;
        assert((m - 1) * k == k * q) by (nonlinear_arith)
            requires
                m == q + 1,
        ;
    }
}

impl TwoLevelList {
    /// Rebuild the whole structure so that it denotes exactly `order`:
    /// chunks of `max_len` ids become the segments, in ring order, with no
    /// segment reversed; every vertex is re-pointed and the total distance
    /// recomputed.  The scratch flags survive.
    #[verifier::loop_isolation(false)]
    fn rebuild(&mut self, order: &Vec<usize>)
        requires
            old(self).container.wf(),
            old(self).vertices@.len() == old(self).container.nodes@.len(),
            old(self).vertices@.len() == order@.len(),
            forall|v: int|
                0 <= v < old(self).vertices@.len() ==> (#[trigger] old(self).vertices@[v]).id == v,
            old(self).max_len >= 1,
            perm_of(order@.map_values(|u: usize| u as int), order@.len() as int),
        ensures
            final(self).wf(),
            final(self)@ == order@.map_values(|u: usize| u as int),
            final(self).container == old(self).container,
            final(self).max_len == old(self).max_len,
            final(self).n_spec() == old(self).vertices@.len(),
            forall|v: int|
                0 <= v < old(self).vertices@.len() ==> final(self).visited_of(v) == old(
                    self,
                ).visited_of(v),
    {
        let ghost o = order@.map_values(|u: usize| u as int);
        let ghost old_verts = old(self).vertices@;
        let n = order.len();
        let k = self.max_len;

        // Empty tour: one empty segment keeps the ring well-formed.
        if n == 0 {
            self.segments = Vec::new();
            self.segments.push(Segment::new());
            self.ring = Vec::new();
            self.ring.push(0);
            self.pos = Vec::new();
            self.pos.push(0);
            self.total_dist = 0;
            proof {
                assert(self.seg_at(0) =~= Seq::<int>::empty());
                assert(self.tour_prefix(0) =~= Seq::<int>::empty());
                assert(self.tour_prefix(1) == self.tour_prefix(0) + self.seg_at(0));
                assert(self@ =~= o);
            }
            return ;
        }
        // Re-point every vertex: the vertex at order position `j` goes to
        // chunk `j / k` at physical rank `j % k`.
        let mut j: usize = 0;
        while j < n
            invariant
                0 <= j <= n,
                n == order@.len(),
                self.container == old(self).container,
                self.max_len == k,
                k >= 1,
                o == order@.map_values(|u: usize| u as int),
                perm_of(o, n as int),
                self.vertices@.len() == n,
                old_verts.len() == n,
                forall|v: int| 0 <= v < n ==> (#[trigger] old_verts[v]).id == v,
                forall|t: int|
                    0 <= t < j ==> vertex_placed(self.vertices@, old_verts, o, k as int, t),
                forall|v: int|
                    0 <= v < n && !appears(order@, j as int, v) ==> self.vertices@[v] == old_verts[v],
            decreases n - j,
        {
            let c = order[j];
            proof {
                assert(o[j as int] == c as int);
                assert(0 <= o[j as int] < n);
                assert(!appears(order@, j as int, c as int)) by {
                    if appears(order@, j as int, c as int) {
                        let i = choose|i: int|
                            0 <= i < j && (#[trigger] order@[i]) as int == c as int;
                        assert(o[i] == o[j as int]);
                    }
                }
            }
            let ghost vpre = self.vertices@;
            let mut node = self.vertices[c];
            node.slot = j / k;
            node.rank = j % k;
            self.vertices[c] = node;
            proof {
                assert(old_verts[c as int].id == c);
                assert(vpre[c as int] == old_verts[c as int]);
                assert(vertex_placed(self.vertices@, old_verts, o, k as int, j as int)) by {
                    assert(self.vertices@[c as int] == node);
                    assert(node.id == c && node.visited == old_verts[c as int].visited);
                    assert(node.slot == j / k && node.rank == j % k);
                    assert(node.slot as int == (j as int) / (k as int));
                    assert(node.rank as int == (j as int) % (k as int));
                }
                assert forall|v: int|
                    0 <= v < n && !appears(order@, j + 1, v) implies self.vertices@[v]
                    == old_verts[v] by {
                    assert(!appears(order@, j as int, v));
                    assert(v != c as int);
                }
                assert forall|t: int| 0 <= t < j + 1 implies vertex_placed(
                    self.vertices@,
                    old_verts,
                    o,
                    k as int,
                    t,
                ) by {
                    if t < j {
                        assert(vertex_placed(vpre, old_verts, o, k as int, t));
                        assert(o[t] != o[j as int]);
                        assert(order@[t] as int != c as int);
                        assert(0 <= o[t] < n);
                        assert(self.vertices@[o[t]] == vpre[o[t]]);
                    }
                }
            }
            j = j + 1;
        }
        // Build the segments, the ring and its inverse.
        proof {
            if (n as int) % (k as int) != 0 {
                vstd::arithmetic::div_mod::lemma_fundamental_div_mod(n as int, 1);
                vstd::arithmetic::div_mod::lemma_mod_division_less_than_divisor(n as int, 1);
                assert(k >= 2);
                vstd::arithmetic::div_mod::lemma_div_is_strictly_smaller(n as int, k as int);
            }
        }
        let m = n / k + if n % k != 0 {
            1
        } else {
            0
        };
        proof {
            lemma_chunk_count(n as int, k as int, m as int);
        }
        let ghost verts1 = self.vertices@;
        self.segments = Vec::new();
        self.ring = Vec::new();
        self.pos = Vec::new();
        let mut s: usize = 0;
        while s < m
            invariant
                0 <= s <= m,
                n == order@.len(),
                k == self.max_len,
                k >= 1,
                n >= 1,
                (m - 1) * k < n <= m * k,
                self.vertices@ == verts1,
                self.container == old(self).container,
                self.segments@.len() == s,
                self.ring@.len() == s,
                self.pos@.len() == s,
                forall|p: int| 0 <= p < s ==> (#[trigger] self.ring@[p]) == p,
                forall|p: int| 0 <= p < s ==> (#[trigger] self.pos@[p]) == p,
                forall|t: int|
                    0 <= t < s ==> (#[trigger] self.segments@[t]).reverse == false
                        && self.segments@[t].cities@ == order@.subrange(
                        chunk_lo(t, k as int),
                        chunk_hi(t, k as int, n as int),
                    ),
            decreases m - s,
        {
            proof {
                vstd::arithmetic::mul::lemma_mul_inequality(s as int, m - 1, k as int);
                assert(s * k <= (m - 1) * k);
                vstd::arithmetic::mul::lemma_mul_is_distributive_add_other_way(
                    k as int,
                    s as int,
                    1,
                );
                assert((s + 1) * k == s * k + k);
            }
            let beg = s * k;
            let end = if k < n - beg {
                beg + k
            } else {
                n
            };
            proof {
                assert(beg as int == chunk_lo(s as int, k as int));
                assert(end as int == chunk_hi(s as int, k as int, n as int));
            }
            let mut cities: Vec<usize> = Vec::new();
            let mut i = beg;
            while i < end
                invariant
                    beg <= i <= end,
                    end <= n,
                    n == order@.len(),
                    cities@ == order@.subrange(beg as int, i as int),
                decreases end - i,
            {
                cities.push(order[i]);
                proof {
                    assert(cities@ =~= order@.subrange(beg as int, i + 1));
                }
                i = i + 1;
            }
            self.segments.push(Segment { cities, reverse: false });
            self.ring.push(s);
            self.pos.push(s);
            s = s + 1;
        }
        // The total distance of the fresh tour.
        proof {
            assert(self.segments@.len() == m as int);
            assert(forall|t: int|
                0 <= t < m ==> (#[trigger] self.segments@[t]).reverse == false);
            assert(forall|t: int|
                0 <= t < m ==> (#[trigger] self.segments@[t]).cities@ == order@.subrange(
                    chunk_lo(t, k as int),
                    chunk_hi(t, k as int, n as int),
                ));
            assert forall|i: int| 0 <= i < order@.len() implies (#[trigger] order@[i])
                < self.container.nodes@.len() by {
                assert(o[i] == order@[i] as int);
            }
        }
        let ghost pre = *self;
        let td = crate::tour::dist::total_of_order(&self.container, order);
        self.total_dist = td;
        proof {
            assert(self.segments@ == pre.segments@);
            assert(self.vertices@ == pre.vertices@);
            assert(self.ring@ == pre.ring@);
            assert(self.pos@ == pre.pos@);
            assert(self.container == pre.container);
            assert forall|t: int| 0 <= t < self.m_spec() implies (#[trigger] self.segments@[t]).reverse
                == false && self.segments@[t].cities@.map_values(|u: usize| u as int) == o.subrange(
                chunk_lo(t, k as int),
                chunk_hi(t, k as int, n as int),
            ) by {
                assert(self.segments@[t].cities@ == order@.subrange(
                    chunk_lo(t, k as int),
                    chunk_hi(t, k as int, n as int),
                ));
                let lo = chunk_lo(t, k as int);
                let hi = chunk_hi(t, k as int, n as int);
                lemma_chunk_in_range(t, k as int, m as int, n as int);
                let cs = self.segments@[t].cities@;
                assert(cs.len() == hi - lo);
                assert(cs.map_values(|u: usize| u as int).len() == hi - lo);
                assert forall|x: int| 0 <= x < hi - lo implies cs.map_values(|u: usize| u as int)[x]
                    == o.subrange(lo, hi)[x] by {
                    assert(cs.map_values(|u: usize| u as int)[x] == cs[x] as int);
                    assert(cs[x] == order@[lo + x]);
                    assert(o[lo + x] == order@[lo + x] as int);
                }
                assert(cs.map_values(|u: usize| u as int) =~= o.subrange(lo, hi));
            }
            self.lemma_rebuilt(o, old_verts);
            assert forall|v: int| 0 <= v < old(self).vertices@.len() implies self.visited_of(v)
                == old(self).visited_of(v) by {
                lemma_perm_idx_of(o, n as int, v);
                let t = idx_of(o, v);
                assert(vertex_placed(self.vertices@, old_verts, o, k as int, t));
            }
        }
    }

    /// After `rebuild`'s loops the structure is well-formed and denotes the
    /// applied order.
    proof fn lemma_rebuilt(self, o: Seq<int>, old_verts: Seq<TllNode>)
        requires
            self.container.wf(),
            self.n_spec() == self.container.nodes@.len(),
            self.n_spec() >= 1,
            self.max_len >= 1,
            o.len() == self.n_spec(),
            perm_of(o, self.n_spec()),
            (self.m_spec() - 1) * self.max_len < self.n_spec() <= self.m_spec() * self.max_len,
            self.ring@.len() == self.m_spec(),
            self.pos@.len() == self.m_spec(),
            forall|p: int| 0 <= p < self.m_spec() ==> (#[trigger] self.ring@[p]) == p,
            forall|p: int| 0 <= p < self.m_spec() ==> (#[trigger] self.pos@[p]) == p,
            forall|t: int|
                0 <= t < self.m_spec() ==> (#[trigger] self.segments@[t]).reverse == false
                    && self.segments@[t].cities@.map_values(|u: usize| u as int) == o.subrange(
                    chunk_lo(t, self.max_len as int),
                    chunk_hi(t, self.max_len as int, self.n_spec()),
                ),
            forall|t: int|
                0 <= t < self.n_spec() ==> #[trigger] vertex_placed(
                    self.vertices@,
                    old_verts,
                    o,
                    self.max_len as int,
                    t,
                ),
            self.total_dist as int == tour_dist(self.container.metric, self.container.nodes@, o),
        ensures
            self.wf(),
            self@ == o,
    {
        let n = self.n_spec();
        let m = self.m_spec();
        let k = self.max_len as int;
        lemma_chunk_seq(self, o, m);
        assert(self@ == o);
        // ring_ok holds because ring and pos are both the identity
        assert(self.ring_ok());
        assert forall|s: int, i: int|
            0 <= s < m && 0 <= i < self.segments@[s].cities@.len() implies {
            let v = #[trigger] self.segments@[s].cities@[i];
            &&& v < n
            &&& self.vertices@[v as int].slot == s
            &&& self.vertices@[v as int].rank == i
        } by {
            let lo = chunk_lo(s, k);
            let hi = chunk_hi(s, k, n);
            lemma_chunk_in_range(s, k, m, n);
            let cs = self.segments@[s].cities@.map_values(|u: usize| u as int);
            assert(cs == o.subrange(lo, hi));
            assert(cs.len() == hi - lo);
            let t = lo + i;
            assert(cs[i] == o[t]);
            let v = self.segments@[s].cities@[i];
            assert(v as int == o[t]);
            assert(0 <= o[t] < n);
            assert(vertex_placed(self.vertices@, old_verts, o, k, t));
            assert(t == s * k + i);
            vstd::arithmetic::div_mod::lemma_fundamental_div_mod_converse(t, k, s, i);
            assert(self.vertices@[o[t]].slot as int == s);
            assert(self.vertices@[o[t]].rank as int == i);
        }
        assert(self.cities_ok());
        assert forall|v: int| 0 <= v < n implies {
            let vtx = #[trigger] self.vertices@[v];
            &&& vtx.id == v
            &&& (vtx.slot as int) < m
            &&& (vtx.rank as int) < self.segments@[vtx.slot as int].cities@.len()
            &&& self.segments@[vtx.slot as int].cities@[vtx.rank as int] == v
        } by {
            lemma_perm_idx_of(o, n, v);
            let t = idx_of(o, v);
            assert(o[t] == v);
            lemma_pos_to_chunk(t, k, m, n);
            assert(vertex_placed(self.vertices@, old_verts, o, k, t));
            let s = t / k;
            let i = t % k;
            assert(self.vertices@[v].slot as int == s);
            assert(self.vertices@[v].rank as int == i);
            let cs = self.segments@[s].cities@.map_values(|u: usize| u as int);
            lemma_chunk_in_range(s, k, m, n);
            assert(cs == o.subrange(chunk_lo(s, k), chunk_hi(s, k, n)));
            assert(cs[i] == o[chunk_lo(s, k) + i]);
            assert(cs[i] == o[t]);
            assert(self.segments@[s].cities@[i] as int == v);
        }
        assert(self.verts_ok());
        assert forall|s: int| 0 <= s < m implies (#[trigger] self.segments@[s]).cities@.len()
            >= 1 by {
            lemma_chunk_in_range(s, k, m, n);
            assert(self.segments@[s].cities@.map_values(|u: usize| u as int).len() == chunk_hi(
                s,
                k,
                n,
            ) - chunk_lo(s, k));
        }
    }
}

/// Chunk `s` of a chunking of `n` ids into `m` groups of `k` is nonempty and
/// lies inside `0 .. n`.
proof fn lemma_chunk_in_range(s: int, k: int, m: int, n: int)
    requires
        k >= 1,
        n >= 1,
        0 <= s < m,
        (m - 1) * k < n <= m * k,
    ensures
        0 <= chunk_lo(s, k) < chunk_hi(s, k, n) <= n,
        chunk_hi(s, k, n) - chunk_lo(s, k) <= k,
{
    vstd::arithmetic::mul::lemma_mul_inequality(s, m - 1, k);
    vstd::arithmetic::mul::lemma_mul_is_distributive_add_other_way(k, s, 1);
    assert((s + 1) * k == s * k + k);
    vstd::arithmetic::mul::lemma_mul_nonnegative(s, k);
}

/// An order position `t` lies in chunk `t / k` at offset `t % k`.
proof fn lemma_pos_to_chunk(t: int, k: int, m: int, n: int)
    requires
        k >= 1,
        n >= 1,
        0 <= t < n,
        (m - 1) * k < n <= m * k,
    ensures
        0 <= t / k < m,
        0 <= t % k < k,
        chunk_lo(t / k, k) + (t % k) == t,
        chunk_lo(t / k, k) <= t < chunk_hi(t / k, k, n),
{
    vstd::arithmetic::div_mod::lemma_fundamental_div_mod(t, k);
    vstd::arithmetic::div_mod::lemma_mod_division_less_than_divisor(t, k);
    vstd::arithmetic::div_mod::lemma_div_pos_is_pos(t, k);
    let q = t / k;
    assert(t == k * q + t % k);
    // q < m because t < n <= m * k
    if q >= m {
        vstd::arithmetic::mul::lemma_mul_inequality(m, q, k);
        assert(m * k <= q * k);
        assert(q * k == k * q) by (nonlinear_arith);
        assert(false);
    }
    vstd::arithmetic::mul::lemma_mul_is_distributive_add_other_way(k, q, 1);
    assert((q + 1) * k == q * k + k);
    assert(q * k == k * q) by (nonlinear_arith);
}

/// With identity ring and chunked segments, the tour is the applied order.
proof fn lemma_chunk_seq(tll: TwoLevelList, o: Seq<int>, p: int)
    requires
        tll.max_len >= 1,
        tll.n_spec() >= 1,
        o.len() == tll.n_spec(),
        (tll.m_spec() - 1) * tll.max_len < tll.n_spec() <= tll.m_spec() * tll.max_len,
        tll.ring@.len() == tll.m_spec(),
        forall|q: int| 0 <= q < tll.m_spec() ==> (#[trigger] tll.ring@[q]) == q,
        forall|t: int|
            0 <= t < tll.m_spec() ==> (#[trigger] tll.segments@[t]).reverse == false
                && tll.segments@[t].cities@.map_values(|u: usize| u as int) == o.subrange(
                chunk_lo(t, tll.max_len as int),
                chunk_hi(t, tll.max_len as int, tll.n_spec()),
            ),
        0 <= p <= tll.m_spec(),
    ensures
        tll.tour_prefix(p) == o.take(chunk_cap(p, tll.max_len as int, tll.n_spec())),
        p == tll.m_spec() ==> tll.tour_prefix(p) == o,
    decreases p,
{
    let k = tll.max_len as int;
    let n = tll.n_spec();
    let m = tll.m_spec();
    if p == 0 {
        assert(0 * k == 0) by (nonlinear_arith);
        assert(chunk_cap(0, k, n) == 0);
        assert(tll.tour_prefix(0) =~= o.take(0));
    } else {
        lemma_chunk_seq(tll, o, p - 1);
        lemma_chunk_in_range(p - 1, k, m, n);
        vstd::arithmetic::mul::lemma_mul_nonnegative(p - 1, k);
        assert(chunk_cap(p - 1, k, n) == chunk_lo(p - 1, k)) by {
            vstd::arithmetic::mul::lemma_mul_inequality(p - 1, m - 1, k);
        }
        assert(tll.seg_at(p - 1) == tll.segments@[p - 1].cities@.map_values(|u: usize| u as int));
        assert(chunk_cap(p, k, n) == chunk_hi(p - 1, k, n)) by {
            vstd::arithmetic::mul::lemma_mul_is_distributive_add_other_way(k, p - 1, 1);
            assert(p * k == (p - 1) * k + k);
        }
        assert(tll.tour_prefix(p) == tll.tour_prefix(p - 1) + tll.seg_at(p - 1));
        assert(tll.tour_prefix(p) =~= o.take(chunk_cap(p, k, n)));
        assert(tll.tour_prefix(p) == o.take(chunk_cap(p, k, n)));
    }
    if p == m {
        assert(chunk_cap(m, k, n) == n) by {
            vstd::arithmetic::mul::lemma_mul_is_distributive_add_other_way(k, m - 1, 1);
            assert(m * k == (m - 1) * k + k);
        }
        assert(o.take(n) =~= o);
    }
}

/// Total number of ids in the first `p` chunks.
pub open spec fn chunk_cap(p: int, k: int, n: int) -> int {
    if p * k <= n {
        p * k
    } else {
        n
    }
}

/// The tour sequence reads only the segments and the ring, so edits to any
/// other field leave it unchanged.
pub proof fn lemma_view_frame(a: TwoLevelList, b: TwoLevelList, p: int)
    requires
        a.segments@ == b.segments@,
        a.ring@ == b.ring@,
    ensures
        a.tour_prefix(p) == b.tour_prefix(p),
        a.prefix_len(p) == b.prefix_len(p),
    decreases p,
{
    if p > 0 {
        lemma_view_frame(a, b, p - 1);
        if 0 <= p - 1 < a.ring@.len() {
            assert(a.seg_at(p - 1) == b.seg_at(p - 1));
        } else {
            assert(a.seg_at(p - 1) == b.seg_at(p - 1));
        }
    }
}

impl TwoLevelList {
    /// A fresh tour over `container`'s cities in id order, with segments of
    /// at most `max_grouplen` cities.
    pub fn new(container: &Container, max_grouplen: usize) -> (r: TwoLevelList)
        requires
            container.wf(),
            max_grouplen >= 1,
        ensures
            r.wf(),
            r.container.nodes@ == container.nodes@,
            r.container.metric == container.metric,
            r.max_len == max_grouplen,
            r@ == Seq::new(container.nodes@.len() as nat, |i: int| i),
            forall|v: int| 0 <= v < r.n_spec() ==> !r.visited_of(v),
    {
        let n = container.len();
        let mut nodes: Vec<Node> = Vec::new();
        let mut i: usize = 0;
        while i < n
            invariant
                0 <= i <= n,
                n == container.nodes@.len(),
                nodes@ == container.nodes@.take(i as int),
            decreases n - i,
        {
            nodes.push(container.nodes[i]);
            proof {
                assert(nodes@ =~= container.nodes@.take(i + 1));
            }
            i = i + 1;
        }
        proof {
            assert(nodes@ =~= container.nodes@);
        }
        let own = Container { nodes, metric: container.metric };
        let mut vertices: Vec<TllNode> = Vec::new();
        let mut order: Vec<usize> = Vec::new();
        let mut v: usize = 0;
        while v < n
            invariant
                0 <= v <= n,
                vertices@.len() == v,
                order@.len() == v,
                forall|t: int|
                    0 <= t < v ==> (#[trigger] vertices@[t]) == (TllNode {
                        id: t as usize,
                        slot: 0,
                        rank: 0,
                        visited: false,
                    }),
                forall|t: int| 0 <= t < v ==> (#[trigger] order@[t]) == t,
            decreases n - v,
        {
            vertices.push(TllNode { id: v, slot: 0, rank: 0, visited: false });
            order.push(v);
            v = v + 1;
        }
        let ghost ident = Seq::new(n as nat, |i: int| i);
        proof {
            assert(order@.map_values(|u: usize| u as int) =~= ident);
            lemma_perm_complete(ident, n as int);
        }
        let mut tll = TwoLevelList {
            container: own,
            vertices,
            segments: Vec::new(),
            ring: Vec::new(),
            pos: Vec::new(),
            max_len: max_grouplen,
            total_dist: 0,
        };
        tll.rebuild(&order);
        tll
    }

    /// Same as `new`: a fresh tour already carries the id order.
    pub fn with_default_order(container: &Container, max_grouplen: usize) -> (r: TwoLevelList)
        requires
            container.wf(),
            max_grouplen >= 1,
        ensures
            r.wf(),
            r.container.nodes@ == container.nodes@,
            r.container.metric == container.metric,
            r.max_len == max_grouplen,
            r@ == Seq::new(container.nodes@.len() as nat, |i: int| i),
            forall|v: int| 0 <= v < r.n_spec() ==> !r.visited_of(v),
    {
        TwoLevelList::new(container, max_grouplen)
    }

    /// Make the tour exactly `tour`'s order.  Fails, leaving the tour
    /// unchanged, iff `tour` is not a permutation of this tour's ids: with
    /// `NodeNotFound` when an entry is no city id, with `BadPermutation`
    /// when the size mismatches or an id repeats.
    #[verifier::loop_isolation(false)]
    pub fn apply(&mut self, tour: &TourOrder) -> (r: Result<(), UpdateTourError>)
        requires
            old(self).wf(),
        ensures
            final(self).wf(),
            final(self).container == old(self).container,
            final(self).max_len == old(self).max_len,
            final(self).n_spec() == old(self).n_spec(),
            forall|v: int|
                0 <= v < old(self).n_spec() ==> final(self).visited_of(v) == old(self).visited_of(
                    v,
                ),
            r == Ok::<(), UpdateTourError>(()) <==> tour.valid(old(self).n_spec()),
            r == Ok::<(), UpdateTourError>(()) ==> final(self)@ == tour@,
            r.is_err() ==> *final(self) == *old(self),
            r == Err::<(), UpdateTourError>(UpdateTourError::NodeNotFound) <==> (tour@.len() == old(
                self,
            ).n_spec() && exists|i: int| 0 <= i < tour@.len() && #[trigger] tour@[i] >= old(
                self,
            ).n_spec()),
            r == Err::<(), UpdateTourError>(UpdateTourError::BadPermutation) <==> (tour@.len()
                != old(self).n_spec() || ((forall|i: int|
                0 <= i < tour@.len() ==> 0 <= #[trigger] tour@[i] < old(self).n_spec()) && exists|
                i: int,
                j: int,
            | 0 <= i < j < tour@.len() && tour@[i] == tour@[j])),
    {
        let n = self.vertices.len();
        let order = tour.order();
        if order.len() != n {
            return Err(UpdateTourError::BadPermutation);
        }
        // Every entry must name a city.
        let mut i: usize = 0;
        while i < n
            invariant
                0 <= i <= n,
                n == order@.len(),
                tour@ == order@.map_values(|u: usize| u as int),
                forall|j: int| 0 <= j < i ==> (#[trigger] order@[j]) < n,
            decreases n - i,
        {
            if order[i] >= n {
                proof {
                    assert(tour@[i as int] >= n);
                }
                return Err(UpdateTourError::NodeNotFound);
            }
            i = i + 1;
        }
        proof {
            assert(forall|j: int| 0 <= j < n ==> 0 <= #[trigger] tour@[j] < n);
        }
        // No entry may repeat.
        let mut seen: Vec<bool> = Vec::new();
        let mut z: usize = 0;
        while z < n
            invariant
                0 <= z <= n,
                seen@.len() == z,
                forall|v: int| 0 <= v < z ==> !(#[trigger] seen@[v]),
            decreases n - z,
        {
            seen.push(false);
            z = z + 1;
        }
        let mut t: usize = 0;
        while t < n
            invariant
                0 <= t <= n,
                n == order@.len(),
                seen@.len() == n,
                tour@ == order@.map_values(|u: usize| u as int),
                forall|j: int| 0 <= j < n ==> (#[trigger] order@[j]) < n,
                forall|v: int| 0 <= v < n ==> (#[trigger] seen@[v] <==> appears(order@, t as int, v)),
                forall|i2: int, j2: int| 0 <= i2 < j2 < t ==> order@[i2] != order@[j2],
            decreases n - t,
        {
            let c = order[t];
            if seen[c] {
                proof {
                    let i2 = choose|i2: int| 0 <= i2 < t && (#[trigger] order@[i2]) as int == c as int;
                    assert(tour@[i2] == tour@[t as int]);
                }
                return Err(UpdateTourError::BadPermutation);
            }
            seen[c] = true;
            proof {
                assert forall|v: int| 0 <= v < n implies (#[trigger] seen@[v] <==> appears(
                    order@,
                    t + 1,
                    v,
                )) by {
                    if v == c as int {
                        assert(order@[t as int] as int == v);
                    } else {
                        if appears(order@, t + 1, v) {
                            let i2 = choose|i2: int|
                                0 <= i2 < t + 1 && (#[trigger] order@[i2]) as int == v;
                            assert(i2 < t);
                        }
                    }
                }
                assert forall|i2: int, j2: int| 0 <= i2 < j2 < t + 1 implies order@[i2]
                    != order@[j2] by {
                    if j2 == t as int {
                        if order@[i2] == order@[j2] {
                            assert(appears(order@, t as int, c as int));
                        }
                    }
                }
            }
            t = t + 1;
        }
        proof {
            assert forall|i2: int, j2: int| 0 <= i2 < j2 < n implies tour@[i2] != tour@[j2] by {
                assert(order@[i2] != order@[j2]);
            }
            lemma_perm_complete(tour@, n as int);
        }
        self.rebuild(order);
        Ok(())
    }

    /// The vertex of city `index`, or none when no such city exists.
    pub fn get(&self, index: usize) -> (r: Option<&TllNode>)
        ensures
            match r {
                Some(node) => index < self.n_spec() && *node == self.vertices@[index as int],
                None => index >= self.n_spec(),
            },
    {
        if index < self.vertices.len() {
            Some(&self.vertices[index])
        } else {
            None
        }
    }

    /// The number of cities on the tour.
    pub fn len(&self) -> (r: usize)
        ensures
            r == self.n_spec(),
    {
        self.vertices.len()
    }

    /// The tour's total length under the container's metric; kept current
    /// across every mutation, so this is O(1).
    pub fn total_distance(&self) -> (r: u128)
        requires
            self.wf(),
        ensures
            r as int == tour_dist(self.container.metric, self.container.nodes@, self@),
    {
        self.total_dist
    }

    /// The distance between the cities `a` and `b`.
    pub fn distance_at(&self, a: usize, b: usize) -> (r: u64)
        requires
            self.wf(),
            a < self.n_spec(),
            b < self.n_spec(),
        ensures
            r as int == crate::node::dist_spec(
                self.container.metric,
                self.container.nodes@[a as int],
                self.container.nodes@[b as int],
            ),
    {
        self.container.distance_at(a, b)
    }

    /// Set the scratch flag of city `node_index`; ids beyond the tour are
    /// ignored.
    pub fn visited_at(&mut self, node_index: usize, flag: bool)
        requires
            old(self).wf(),
        ensures
            final(self).wf(),
            final(self)@ == old(self)@,
            final(self).container == old(self).container,
            final(self).max_len == old(self).max_len,
            final(self).n_spec() == old(self).n_spec(),
            node_index < old(self).n_spec() ==> forall|v: int|
                0 <= v < old(self).n_spec() ==> final(self).visited_of(v) == (if v
                    == node_index as int {
                    flag
                } else {
                    old(self).visited_of(v)
                }),
            node_index >= old(self).n_spec() ==> *final(self) == *old(self),
    {
        if node_index < self.vertices.len() {
            let mut node = self.vertices[node_index];
            node.visited = flag;
            self.vertices[node_index] = node;
            proof {
                lemma_view_frame(*old(self), *self, self.m_spec());
                assert(self@ == old(self)@);
                assert forall|s: int, i: int|
                    0 <= s < self.m_spec() && 0 <= i < self.segments@[s].cities@.len() implies {
                    let v = #[trigger] self.segments@[s].cities@[i];
                    &&& v < self.n_spec()
                    &&& self.vertices@[v as int].slot == s
                    &&& self.vertices@[v as int].rank == i
                } by {
                    let v = self.segments@[s].cities@[i];
                    assert(old(self).segments@[s].cities@[i] == v);
                }
                assert(self.cities_ok());
                assert forall|v: int| 0 <= v < self.n_spec() implies {
                    let vtx = #[trigger] self.vertices@[v];
                    &&& vtx.id == v
                    &&& (vtx.slot as int) < self.m_spec()
                    &&& (vtx.rank as int) < self.segments@[vtx.slot as int].cities@.len()
                    &&& self.segments@[vtx.slot as int].cities@[vtx.rank as int] == v
                } by {
                    assert(old(self).verts_ok());
                    if v == node_index as int {
                        assert(old(self).vertices@[v].id == v);
                    } else {
                        assert(self.vertices@[v] == old(self).vertices@[v]);
                    }
                }
                assert(self.verts_ok());
            }
        }
    }

    /// Clear every scratch flag; greedy and k-opt call this before a run.
    pub fn reset(&mut self)
        requires
            old(self).wf(),
        ensures
            final(self).wf(),
            final(self)@ == old(self)@,
            final(self).container == old(self).container,
            final(self).max_len == old(self).max_len,
            final(self).n_spec() == old(self).n_spec(),
            forall|v: int| 0 <= v < old(self).n_spec() ==> !final(self).visited_of(v),
    {
        let n = self.vertices.len();
        let mut i: usize = 0;
        while i < n
            invariant
                0 <= i <= n,
                old(self).wf(),
                self.vertices@.len() == n,
                n == old(self).n_spec(),
                self.segments@ == old(self).segments@,
                self.ring@ == old(self).ring@,
                self.pos@ == old(self).pos@,
                self.container == old(self).container,
                self.max_len == old(self).max_len,
                self.total_dist == old(self).total_dist,
                forall|v: int|
                    0 <= v < i ==> (#[trigger] self.vertices@[v]) == (TllNode {
                        visited: false,
                        ..old(self).vertices@[v]
                    }),
                forall|v: int| i <= v < n ==> self.vertices@[v] == old(self).vertices@[v],
            decreases n - i,
        {
            let mut node = self.vertices[i];
            node.visited = false;
            self.vertices[i] = node;
            i = i + 1;
        }
        proof {
            lemma_view_frame(*old(self), *self, self.m_spec());
            assert(self@ == old(self)@);
            assert forall|s: int, i2: int|
                0 <= s < self.m_spec() && 0 <= i2 < self.segments@[s].cities@.len() implies {
                let v = #[trigger] self.segments@[s].cities@[i2];
                &&& v < self.n_spec()
                &&& self.vertices@[v as int].slot == s
                &&& self.vertices@[v as int].rank == i2
            } by {
                let v = self.segments@[s].cities@[i2];
                assert(old(self).segments@[s].cities@[i2] == v);
            }
            assert(self.cities_ok());
            assert forall|v: int| 0 <= v < self.n_spec() implies {
                let vtx = #[trigger] self.vertices@[v];
                &&& vtx.id == v
                &&& (vtx.slot as int) < self.m_spec()
                &&& (vtx.rank as int) < self.segments@[vtx.slot as int].cities@.len()
                &&& self.segments@[vtx.slot as int].cities@[vtx.rank as int] == v
            } by {
                assert(old(self).verts_ok());
                assert(old(self).vertices@[v].id == v);
            }
            assert(self.verts_ok());
        }
    }
}

impl TwoLevelList {
    /// The logical first id of the segment at ring position `p`.
    fn first_of_pos(&self, p: usize) -> (r: usize)
        requires
            self.wf(),
            p < self.m_spec(),
            self.seg_at(p as int).len() >= 1,
        ensures
            r as int == self.seg_at(p as int)[0],
            r < self.n_spec(),
    {
        let slot = self.ring[p];
        let seg = &self.segments[slot];
        let len = seg.cities.len();
        if seg.reverse {
            let r = seg.cities[len - 1];
            proof {
                assert(self.seg_at(p as int)[0] == seg.cities@.map_values(|u: usize| u as int)[len
                    - 1]);
            }
            r
        } else {
            seg.cities[0]
        }
    }

    /// The logical last id of the segment at ring position `p`.
    fn last_of_pos(&self, p: usize) -> (r: usize)
        requires
            self.wf(),
            p < self.m_spec(),
            self.seg_at(p as int).len() >= 1,
        ensures
            r as int == self.seg_at(p as int)[self.seg_at(p as int).len() - 1],
            r < self.n_spec(),
    {
        let slot = self.ring[p];
        let seg = &self.segments[slot];
        let len = seg.cities.len();
        if seg.reverse {
            let r = seg.cities[0];
            proof {
                assert(self.seg_at(p as int)[len - 1] == seg.cities@.map_values(
                    |u: usize| u as int,
                )[0]);
            }
            r
        } else {
            seg.cities[len - 1]
        }
    }

    /// The id that follows `v` on the tour.
    fn next_id(&self, v: usize) -> (r: usize)
        requires
            self.wf(),
            v < self.n_spec(),
        ensures
            r as int == succ_of(self@, v as int),
            r < self.n_spec(),
    {
        proof {
            self.lemma_wf_perm();
            self.lemma_vpos(v as int);
            self.lemma_tour_prefix_len(self.m_spec());
        }
        let ghost n = self.n_spec();
        let vtx = self.vertices[v];
        let slot = vtx.slot;
        let seg = &self.segments[slot];
        let len = seg.cities.len();
        let p = self.pos[slot];
        let ghost l = self.lrank(v as int);
        let ghost pp = p as int;
        if !seg.reverse && vtx.rank + 1 < len {
            let r = seg.cities[vtx.rank + 1];
            proof {
                self.lemma_tour_index(pp, l + 1);
                lemma_mod_shift(self.vpos(v as int) + 1, n);
                assert(self.seg_at(pp)[l + 1] == r as int);
            }
            r
        } else if seg.reverse && vtx.rank >= 1 {
            let r = seg.cities[vtx.rank - 1];
            proof {
                self.lemma_tour_index(pp, l + 1);
                lemma_mod_shift(self.vpos(v as int) + 1, n);
                assert(self.seg_at(pp)[l + 1] == seg.cities@.map_values(|u: usize| u as int)[
                    vtx.rank - 1]);
            }
            r
        } else {
            // `v` ends its segment: the successor starts the next one.
            proof {
                assert(l == self.seg_at(pp).len() - 1);
                assert(self.prefix_len(pp + 1) == self.prefix_len(pp) + self.seg_at(pp).len());
                assert(self.vpos(v as int) + 1 == self.prefix_len(pp + 1));
            }
            let m = self.ring.len();
            let p2 = if p + 1 < m {
                p + 1
            } else {
                0
            };
            let r = self.first_of_pos(p2);
            proof {
                if p + 1 < m {
                    self.lemma_tour_index(pp + 1, 0);
                    lemma_mod_shift(self.vpos(v as int) + 1, n);
                } else {
                    assert(self.prefix_len(pp + 1) == n);
                    lemma_mod_shift(n, n);
                    self.lemma_tour_index(0, 0);
                    assert(self.prefix_len(0) == 0);
                }
            }
            r
        }
    }

    /// The id that precedes `v` on the tour.
    fn prev_id(&self, v: usize) -> (r: usize)
        requires
            self.wf(),
            v < self.n_spec(),
        ensures
            r as int == pred_of(self@, v as int),
            r < self.n_spec(),
    {
        proof {
            self.lemma_wf_perm();
            self.lemma_vpos(v as int);
            self.lemma_tour_prefix_len(self.m_spec());
        }
        let ghost n = self.n_spec();
        let vtx = self.vertices[v];
        let slot = vtx.slot;
        let seg = &self.segments[slot];
        let len = seg.cities.len();
        let p = self.pos[slot];
        let ghost l = self.lrank(v as int);
        let ghost pp = p as int;
        proof {
            lemma_mod_shift(self.vpos(v as int) + n - 1, n);
        }
        if !seg.reverse && vtx.rank >= 1 {
            let r = seg.cities[vtx.rank - 1];
            proof {
                self.lemma_tour_index(pp, l - 1);
                assert(self.seg_at(pp)[l - 1] == r as int);
            }
            r
        } else if seg.reverse && vtx.rank + 1 < len {
            let r = seg.cities[vtx.rank + 1];
            proof {
                self.lemma_tour_index(pp, l - 1);
                assert(self.seg_at(pp)[l - 1] == seg.cities@.map_values(|u: usize| u as int)[
                    vtx.rank + 1]);
            }
            r
        } else {
            // `v` opens its segment: the predecessor closes the previous one.
            proof {
                assert(l == 0);
                assert(self.vpos(v as int) == self.prefix_len(pp));
            }
            let m = self.ring.len();
            let p2 = if p >= 1 {
                p - 1
            } else {
                m - 1
            };
            let r = self.last_of_pos(p2);
            proof {
                if p >= 1 {
                    self.lemma_tour_index(pp - 1, self.seg_at(pp - 1).len() - 1);
                    assert(self.prefix_len(pp) == self.prefix_len(pp - 1) + self.seg_at(
                        pp - 1,
                    ).len());
                } else {
                    assert(self.prefix_len(0) == 0);
                    assert(self.prefix_len(m as int) == self.prefix_len(m - 1) + self.seg_at(
                        m - 1,
                    ).len());
                    self.lemma_tour_index(m - 1, self.seg_at(m - 1).len() - 1);
                }
            }
            r
        }
    }

    /// The prefix lengths grow by whole segments.
    pub proof fn lemma_prefix_mono(self, p: int, q: int)
        requires
            0 <= p <= q,
        ensures
            self.prefix_len(p) <= self.prefix_len(q),
            p < q ==> self.prefix_len(p) + self.seg_at(p).len() <= self.prefix_len(q),
        decreases q - p,
    {
        if p < q {
            self.lemma_prefix_mono(p + 1, q);
        }
    }

    /// The window of tour positions of the segment at ring position `p`.
    pub proof fn lemma_window(self, v: int)
        requires
            self.wf_struct(),
            0 <= v < self.n_spec(),
        ensures
            ({
                let p = self.pos@[self.vertices@[v].slot as int] as int;
                &&& 0 <= p < self.m_spec()
                &&& self.vpos(v) == self.prefix_len(p) + self.lrank(v)
                &&& 0 <= self.lrank(v) < self.seg_at(p).len()
                &&& self.prefix_len(p) + self.seg_at(p).len() <= self.n_spec()
                &&& 0 <= self.prefix_len(p)
            }),
    {
        self.lemma_vpos(v);
        let p = self.pos@[self.vertices@[v].slot as int] as int;
        self.lemma_tour_index(p, self.lrank(v));
    }

    /// Vertices of different segments live in disjoint position windows.
    proof fn lemma_outside_window(self, v: int, u: int)
        requires
            self.wf_struct(),
            0 <= v < self.n_spec(),
            0 <= u < self.n_spec(),
            self.vertices@[v].slot != self.vertices@[u].slot,
        ensures
            ({
                let p = self.pos@[self.vertices@[v].slot as int] as int;
                !(self.prefix_len(p) <= self.vpos(u) < self.prefix_len(p) + self.seg_at(p).len())
            }),
    {
        self.lemma_window(v);
        self.lemma_window(u);
        let p = self.pos@[self.vertices@[v].slot as int] as int;
        let q = self.pos@[self.vertices@[u].slot as int] as int;
        assert(p != q);
        if p < q {
            self.lemma_prefix_mono(p + 1, q);
            assert(self.prefix_len(p + 1) == self.prefix_len(p) + self.seg_at(p).len());
        } else {
            self.lemma_prefix_mono(q + 1, p);
            assert(self.prefix_len(q + 1) == self.prefix_len(q) + self.seg_at(q).len());
        }
    }

    /// With the three vertices in three different segments, `between` is the
    /// cyclic comparison of the segments' ring positions.
    proof fn lemma_between_distinct_segments(self, a: int, b: int, c: int)
        requires
            self.wf_struct(),
            0 <= a < self.n_spec(),
            0 <= b < self.n_spec(),
            0 <= c < self.n_spec(),
            self.vertices@[a].slot != self.vertices@[b].slot,
            self.vertices@[b].slot != self.vertices@[c].slot,
            self.vertices@[c].slot != self.vertices@[a].slot,
        ensures
            ({
                let pa = self.pos@[self.vertices@[a].slot as int] as int;
                let pb = self.pos@[self.vertices@[b].slot as int] as int;
                let pc = self.pos@[self.vertices@[c].slot as int] as int;
                between_of(self@, a, b, c) == (arc_dist(pa, pb, self.m_spec()) < arc_dist(
                    pa,
                    pc,
                    self.m_spec(),
                ))
            }),
    {
        let n = self.n_spec();
        let m = self.m_spec();
        self.lemma_wf_perm();
        self.lemma_window(a);
        self.lemma_window(b);
        self.lemma_window(c);
        self.lemma_tour_prefix_len(m);
        let pa = self.pos@[self.vertices@[a].slot as int] as int;
        let pb = self.pos@[self.vertices@[b].slot as int] as int;
        let pc = self.pos@[self.vertices@[c].slot as int] as int;
        assert(pa != pb && pb != pc && pc != pa);
        let la = self.lrank(a);
        let lb = self.lrank(b);
        let lc = self.lrank(c);
        // the walk length from a's position to a position in another segment
        let wb = if pb >= pa {
            self.lemma_prefix_mono(pa, pb);
            self.prefix_len(pb) - self.prefix_len(pa)
        } else {
            self.lemma_prefix_mono(pb, pa);
            self.lemma_prefix_mono(pb + 1, m);
            n - self.prefix_len(pa) + self.prefix_len(pb)
        };
        let wc = if pc >= pa {
            self.lemma_prefix_mono(pa, pc);
            self.prefix_len(pc) - self.prefix_len(pa)
        } else {
            self.lemma_prefix_mono(pc, pa);
            self.lemma_prefix_mono(pc + 1, m);
            n - self.prefix_len(pa) + self.prefix_len(pc)
        };
        // the tour distance from a to a vertex of another segment
        assert(arc_dist(self.vpos(a), self.vpos(b), n) == wb - la + lb) by {
            if pb >= pa {
                self.lemma_prefix_mono(pa + 1, pb);
            }
        }
        assert(arc_dist(self.vpos(a), self.vpos(c), n) == wc - la + lc) by {
            if pc >= pa {
                self.lemma_prefix_mono(pa + 1, pc);
            }
        }
        // ring order decides, because whole windows never interleave
        if arc_dist(pa, pb, m) < arc_dist(pa, pc, m) {
            assert(wb + self.seg_at(pb).len() <= wc) by {
                if pb >= pa && pc >= pa {
                    self.lemma_prefix_mono(pb + 1, pc);
                } else if pb >= pa && pc < pa {
                    self.lemma_prefix_mono(pb + 1, m);
                } else {
                    self.lemma_prefix_mono(pb + 1, pc);
                }
            }
        } else {
            assert(arc_dist(pa, pc, m) < arc_dist(pa, pb, m));
            assert(wc + self.seg_at(pc).len() <= wb) by {
                if pc >= pa && pb >= pa {
                    self.lemma_prefix_mono(pc + 1, pb);
                } else if pc >= pa && pb < pa {
                    self.lemma_prefix_mono(pc + 1, m);
                } else {
                    self.lemma_prefix_mono(pc + 1, pb);
                }
            }
        }
    }

    /// Is `mid` strictly inside the forward tour arc `from -> to`?  O(1):
    /// the answer is read off segment ranks and the reverse bits.  The three
    /// ids must be pairwise distinct; ids that name no city give `false`.
    pub fn between_at(&self, from_index: usize, mid_index: usize, to_index: usize) -> (r: bool)
        requires
            self.wf(),
            from_index != mid_index,
            mid_index != to_index,
            to_index != from_index,
        ensures
            r == if from_index < self.n_spec() && mid_index < self.n_spec() && to_index
                < self.n_spec() {
                between_of(self@, from_index as int, mid_index as int, to_index as int)
            } else {
                false
            },
    {
        let n = self.vertices.len();
        if from_index >= n || mid_index >= n || to_index >= n {
            return false;
        }
        let ghost aa = from_index as int;
        let ghost bb = mid_index as int;
        let ghost cc = to_index as int;
        proof {
            self.lemma_wf_perm();
            self.lemma_window(aa);
            self.lemma_window(bb);
            self.lemma_window(cc);
            lemma_perm_distinct(self@, self.n_spec());
            self.lemma_vpos(aa);
            self.lemma_vpos(bb);
            self.lemma_vpos(cc);
            assert(self.vpos(aa) != self.vpos(bb));
            assert(self.vpos(bb) != self.vpos(cc));
            assert(self.vpos(cc) != self.vpos(aa));
        }
        let va = self.vertices[from_index];
        let vb = self.vertices[mid_index];
        let vc = self.vertices[to_index];
        let ghost nn = self.n_spec() as int;
        if va.slot == vb.slot && vb.slot == vc.slot {
            // all three inside one segment
            let seg = &self.segments[va.slot];
            let r = seg.reverse ^ crate::tour::between(va.rank, vb.rank, vc.rank);
            proof {
                let p = self.pos@[va.slot as int] as int;
                let lw = self.seg_at(p).len() as int;
                let la = self.lrank(aa);
                let lb = self.lrank(bb);
                let lc = self.lrank(cc);
                lemma_cyc3_window(self.prefix_len(p), lw, nn, la, lb, lc);
                lemma_rank_between_cyc(la, lb, lc, lw);
                if seg.reverse {
                    lemma_rank_between_reverse(va.rank as int, vb.rank as int, vc.rank as int, lw);
                    lemma_rank_between_cyc(va.rank as int, vb.rank as int, vc.rank as int, lw);
                }
            }
            r
        } else if va.slot == vb.slot {
            // `from` and `mid` share a segment, `to` is elsewhere
            let seg = &self.segments[va.slot];
            let r = seg.reverse ^ (va.rank <= vb.rank);
            proof {
                let p = self.pos@[va.slot as int] as int;
                let lw = self.seg_at(p).len() as int;
                self.lemma_outside_window(aa, cc);
                lemma_cyc3_front(
                    self.prefix_len(p),
                    lw,
                    nn,
                    self.lrank(aa),
                    self.lrank(bb),
                    self.vpos(cc),
                );
            }
            r
        } else if vb.slot == vc.slot {
            // `mid` and `to` share a segment, `from` is elsewhere
            let seg = &self.segments[vb.slot];
            let r = seg.reverse ^ (vb.rank <= vc.rank);
            proof {
                let p = self.pos@[vb.slot as int] as int;
                let lw = self.seg_at(p).len() as int;
                self.lemma_outside_window(bb, aa);
                lemma_cyc3_mid(
                    self.prefix_len(p),
                    lw,
                    nn,
                    self.lrank(bb),
                    self.lrank(cc),
                    self.vpos(aa),
                );
            }
            r
        } else if vc.slot == va.slot {
            // `to` and `from` share a segment, `mid` is elsewhere
            let seg = &self.segments[vc.slot];
            let r = seg.reverse ^ (vc.rank <= va.rank);
            proof {
                let p = self.pos@[vc.slot as int] as int;
                let lw = self.seg_at(p).len() as int;
                self.lemma_outside_window(aa, bb);
                lemma_cyc3_ends(
                    self.prefix_len(p),
                    lw,
                    nn,
                    self.lrank(aa),
                    self.lrank(cc),
                    self.vpos(bb),
                );
            }
            r
        } else {
            // three distinct segments: their ring positions decide
            let pa = self.pos[va.slot];
            let pb = self.pos[vb.slot];
            let pc = self.pos[vc.slot];
            let r = crate::tour::between(pa, pb, pc);
            proof {
                self.lemma_between_distinct_segments(aa, bb, cc);
                lemma_rank_between_cyc(pa as int, pb as int, pc as int, self.m_spec());
                assert(pa != pb && pb != pc && pc != pa);
            }
            r
        }
    }

    /// Is `mid` strictly inside the forward tour arc `from -> to`?  The
    /// vertices name their cities; the ids must be pairwise distinct.
    pub fn between(&self, from: &TllNode, mid: &TllNode, to: &TllNode) -> (r: bool)
        requires
            self.wf(),
            from.id != mid.id,
            mid.id != to.id,
            to.id != from.id,
        ensures
            r == if from.id < self.n_spec() && mid.id < self.n_spec() && to.id < self.n_spec() {
                between_of(self@, from.id as int, mid.id as int, to.id as int)
            } else {
                false
            },
    {
        self.between_at(from.index(), mid.index(), to.index())
    }

    /// The vertex after `kin_index` on the tour, or none when `kin_index`
    /// names no city.
    pub fn successor_at(&self, kin_index: usize) -> (r: Option<&TllNode>)
        requires
            self.wf(),
        ensures
            match r {
                Some(node) => {
                    &&& kin_index < self.n_spec()
                    &&& node.id as int == succ_of(self@, kin_index as int)
                    &&& (node.id as int) < self.n_spec()
                    &&& *node == self.vertices@[node.id as int]
                },
                None => kin_index >= self.n_spec(),
            },
    {
        if kin_index < self.vertices.len() {
            let nxt = self.next_id(kin_index);
            Some(&self.vertices[nxt])
        } else {
            None
        }
    }

    /// The vertex before `kin_index` on the tour, or none when `kin_index`
    /// names no city.
    pub fn predecessor_at(&self, kin_index: usize) -> (r: Option<&TllNode>)
        requires
            self.wf(),
        ensures
            match r {
                Some(node) => {
                    &&& kin_index < self.n_spec()
                    &&& node.id as int == pred_of(self@, kin_index as int)
                    &&& (node.id as int) < self.n_spec()
                    &&& *node == self.vertices@[node.id as int]
                },
                None => kin_index >= self.n_spec(),
            },
    {
        if kin_index < self.vertices.len() {
            let prv = self.prev_id(kin_index);
            Some(&self.vertices[prv])
        } else {
            None
        }
    }

    /// The concatenation of the logical sequences at ring positions
    /// `p .. q`.
    pub open spec fn range_seq(self, p: int, q: int) -> Seq<int>
        decreases q - p,
    {
        if q <= p {
            Seq::empty()
        } else {
            self.range_seq(p, q - 1) + self.seg_at(q - 1)
        }
    }

    proof fn lemma_range_seq_split(self, p: int, q: int)
        requires
            0 <= p <= q,
        ensures
            self.tour_prefix(q) == self.tour_prefix(p) + self.range_seq(p, q),
        decreases q - p,
    {
        if p == q {
            assert(self.tour_prefix(q) =~= self.tour_prefix(p) + self.range_seq(p, q));
        } else {
            self.lemma_range_seq_split(p, q - 1);
            assert(self.tour_prefix(q) =~= self.tour_prefix(p) + self.range_seq(p, q));
        }
    }

    /// A position range of the ring holds a subrange of the tour.
    proof fn lemma_range_seq_subrange(self, p: int, q: int)
        requires
            0 <= p <= q <= self.m_spec(),
        ensures
            self.range_seq(p, q).len() == self.prefix_len(q) - self.prefix_len(p),
            self.range_seq(p, q) == self@.subrange(self.prefix_len(p), self.prefix_len(q)),
            self.prefix_len(p) >= 0,
    {
        self.lemma_range_seq_split(p, q);
        self.lemma_range_seq_split(q, self.m_spec());
        self.lemma_tour_prefix_len(p);
        self.lemma_tour_prefix_len(q);
        self.lemma_prefix_mono(0, p);
        assert(self.range_seq(p, q) =~= self@.subrange(
            self.prefix_len(p),
            self.prefix_len(q),
        ));
    }

    proof fn lemma_range_seq_prepend(self, p: int, q: int)
        requires
            p < q,
        ensures
            self.range_seq(p, q) == self.seg_at(p) + self.range_seq(p + 1, q),
        decreases q - p,
    {
        if q == p + 1 {
            assert(self.range_seq(p, p) =~= Seq::<int>::empty());
            assert(self.range_seq(p + 1, q) =~= Seq::<int>::empty());
            assert(self.range_seq(p, q) =~= self.seg_at(p) + self.range_seq(p + 1, q));
        } else {
            self.lemma_range_seq_prepend(p, q - 1);
            assert(self.range_seq(p, q) =~= self.seg_at(p) + self.range_seq(p + 1, q));
        }
    }
}

/// The metric is symmetric on each of the four flip corner pairs.
proof fn lemma_dist_symm_all(
    kind: crate::node::MetricKind,
    nodes: Seq<Node>,
    aa: int,
    bb: int,
    cc: int,
    dd: int,
)
    ensures
        crate::node::dist_spec(kind, nodes[aa], nodes[bb]) == crate::node::dist_spec(
            kind,
            nodes[bb],
            nodes[aa],
        ),
        crate::node::dist_spec(kind, nodes[cc], nodes[dd]) == crate::node::dist_spec(
            kind,
            nodes[dd],
            nodes[cc],
        ),
        crate::node::dist_spec(kind, nodes[aa], nodes[cc]) == crate::node::dist_spec(
            kind,
            nodes[cc],
            nodes[aa],
        ),
        crate::node::dist_spec(kind, nodes[bb], nodes[dd]) == crate::node::dist_spec(
            kind,
            nodes[dd],
            nodes[bb],
        ),
{
    crate::node::lemma_dist_symmetric(kind, nodes[aa], nodes[bb]);
    crate::node::lemma_dist_symmetric(kind, nodes[cc], nodes[dd]);
    crate::node::lemma_dist_symmetric(kind, nodes[aa], nodes[cc]);
    crate::node::lemma_dist_symmetric(kind, nodes[bb], nodes[dd]);
}

/// The structural invariant and the tour read nothing but the five
/// structural fields.
pub proof fn lemma_wf_struct_frame(a: TwoLevelList, b: TwoLevelList)
    requires
        a.wf_struct(),
        b.segments == a.segments,
        b.ring == a.ring,
        b.pos == a.pos,
        b.vertices == a.vertices,
        b.container == a.container,
        b.max_len == a.max_len,
    ensures
        b.wf_struct(),
        b@ == a@,
{
    lemma_view_frame(a, b, a.m_spec());
    assert(b@ == a@);
    assert(b.ring_ok()) by {
        assert forall|p: int| 0 <= p < b.m_spec() implies (#[trigger] b.ring@[p]) < b.m_spec()
            && b.pos@[b.ring@[p] as int] == p by {
            assert(a.ring@[p] == b.ring@[p]);
        }
        assert forall|s: int| 0 <= s < b.m_spec() implies (#[trigger] b.pos@[s]) < b.m_spec()
            && b.ring@[b.pos@[s] as int] == s by {
            assert(a.pos@[s] == b.pos@[s]);
        }
    }
    assert(b.cities_ok()) by {
        assert forall|s: int, i: int|
            0 <= s < b.m_spec() && 0 <= i < b.segments@[s].cities@.len() implies {
            let v = #[trigger] b.segments@[s].cities@[i];
            &&& v < b.n_spec()
            &&& b.vertices@[v as int].slot == s
            &&& b.vertices@[v as int].rank == i
        } by {
            assert(a.segments@[s].cities@[i] == b.segments@[s].cities@[i]);
        }
    }
    assert(b.verts_ok()) by {
        assert forall|v: int| 0 <= v < b.n_spec() implies {
            let vtx = #[trigger] b.vertices@[v];
            &&& vtx.id == v
            &&& (vtx.slot as int) < b.m_spec()
            &&& (vtx.rank as int) < b.segments@[vtx.slot as int].cities@.len()
            &&& b.segments@[vtx.slot as int].cities@[vtx.rank as int] == v
        } by {
            assert(a.vertices@[v] == b.vertices@[v]);
        }
    }
    assert forall|s: int| 0 <= s < b.m_spec() && b.n_spec() > 0 implies (
    #[trigger] b.segments@[s]).cities@.len() >= 1 by {
        assert(a.segments@[s] == b.segments@[s]);
    }
}

/// Distinct ring positions hold distinct slots.
proof fn lemma_ring_distinct(o: TwoLevelList, q1: int, q2: int)
    requires
        o.wf_struct(),
        0 <= q1 < o.m_spec(),
        0 <= q2 < o.m_spec(),
        q1 != q2,
    ensures
        o.ring@[q1] != o.ring@[q2],
{
    assert(o.pos@[o.ring@[q1] as int] as int == q1);
    assert(o.pos@[o.ring@[q2] as int] as int == q2);
}

/// Ranges whose segments agree pointwise concatenate to the same sequence.
proof fn lemma_range_map(a: TwoLevelList, b: TwoLevelList, pa: int, pb: int, q: int)
    requires
        q >= 0,
        forall|t: int| 0 <= t < q ==> a.seg_at(pa + t) == #[trigger] b.seg_at(pb + t),
    ensures
        a.range_seq(pa, pa + q) == b.range_seq(pb, pb + q),
    decreases q,
{
    if q > 0 {
        lemma_range_map(a, b, pa, pb, q - 1);
        assert(a.seg_at(pa + (q - 1)) == b.seg_at(pb + (q - 1)));
    }
}

/// A range whose segments are the reversed mirror of another range
/// concatenates to that range's reverse.
proof fn lemma_range_rev(a: TwoLevelList, b: TwoLevelList, pa: int, pb: int, q: int)
    requires
        q >= 0,
        forall|t: int|
            0 <= t < q ==> #[trigger] b.seg_at(pb + t) == a.seg_at(pa + q - 1 - t).reverse(),
    ensures
        b.range_seq(pb, pb + q) == a.range_seq(pa, pa + q).reverse(),
    decreases q,
{
    if q == 0 {
        assert(b.range_seq(pb, pb) =~= a.range_seq(pa, pa).reverse());
    } else {
        // drop the mirror pair at b's end / a's front
        assert forall|t: int| 0 <= t < q - 1 implies #[trigger] b.seg_at(pb + t) == a.seg_at(
            pa + 1 + (q - 1) - 1 - t,
        ).reverse() by {
            assert(b.seg_at(pb + t) == a.seg_at(pa + q - 1 - t).reverse());
        }
        lemma_range_rev(a, b, pa + 1, pb, q - 1);
        a.lemma_range_seq_prepend(pa, pa + q);
        assert(b.seg_at(pb + (q - 1)) == a.seg_at(pa).reverse());
        assert(b.range_seq(pb, pb + q) == a.range_seq(pa + 1, pa + q).reverse() + a.seg_at(
            pa,
        ).reverse());
        assert((a.seg_at(pa) + a.range_seq(pa + 1, pa + q)).reverse() =~= a.range_seq(
            pa + 1,
            pa + q,
        ).reverse() + a.seg_at(pa).reverse());
    }
}

/// After `set_segment`, the vertex stored at index `i` of the new city list
/// records the new slot, the rank `i`, and keeps its id and scratch flag.
spec fn member_placed(
    verts: Seq<TllNode>,
    old_verts: Seq<TllNode>,
    ids: Seq<usize>,
    slot: int,
    i: int,
) -> bool {
    let v = ids[i] as int;
    let vtx = verts[v];
    &&& vtx.id as int == v
    &&& vtx.slot as int == slot
    &&& vtx.rank as int == i
    &&& vtx.visited == old_verts[v].visited
}

impl TwoLevelList {
    /// The logical id sequence of the segment in `slot`, as a vector.
    fn logical_ids(&self, slot: usize) -> (r: Vec<usize>)
        requires
            (slot as int) < self.m_spec(),
        ensures
            r@.map_values(|u: usize| u as int) == seg_logical(self.segments@[slot as int]),
            r@.len() == self.segments@[slot as int].cities@.len(),
    {
        let seg = &self.segments[slot];
        let len = seg.cities.len();
        let ghost target = seg_logical(self.segments@[slot as int]);
        let mut r: Vec<usize> = Vec::new();
        let mut t: usize = 0;
        while t < len
            invariant
                0 <= t <= len,
                len == seg.cities@.len(),
                seg == &self.segments@[slot as int],
                target == seg_logical(self.segments@[slot as int]),
                target.len() == len,
                r@.len() == t,
                forall|j: int| 0 <= j < t ==> (#[trigger] r@[j]) as int == target[j],
            decreases len - t,
        {
            if seg.reverse {
                r.push(seg.cities[len - 1 - t]);
                proof {
                    assert(target[t as int] == seg.cities@.map_values(|u: usize| u as int)[len - 1
                        - t]);
                }
            } else {
                r.push(seg.cities[t]);
            }
            t = t + 1;
        }
        proof {
            assert(r@.map_values(|u: usize| u as int) =~= target);
        }
        r
    }

    /// Replace the contents of `slot` with `ids`, unreversed, and re-point
    /// every member vertex.  A building block: it leaves the global
    /// invariant to its caller.
    fn set_segment(&mut self, slot: usize, ids: Vec<usize>)
        requires
            (slot as int) < old(self).m_spec(),
            forall|i: int| 0 <= i < ids@.len() ==> ((#[trigger] ids@[i]) as int) < old(self).n_spec(),
            forall|i: int, j: int| 0 <= i < j < ids@.len() ==> ids@[i] != ids@[j],
            forall|v: int|
                0 <= v < old(self).n_spec() ==> ((#[trigger] old(self).vertices@[v]).id as int) == v,
        ensures
            final(self).segments@ == old(self).segments@.update(
                slot as int,
                Segment { cities: ids, reverse: false },
            ),
            final(self).ring == old(self).ring,
            final(self).pos == old(self).pos,
            final(self).container == old(self).container,
            final(self).max_len == old(self).max_len,
            final(self).total_dist == old(self).total_dist,
            final(self).vertices@.len() == old(self).vertices@.len(),
            forall|i: int|
                0 <= i < ids@.len() ==> #[trigger] member_placed(
                    final(self).vertices@,
                    old(self).vertices@,
                    ids@,
                    slot as int,
                    i,
                ),
            forall|v: int|
                0 <= v < old(self).n_spec() && !appears(ids@, ids@.len() as int, v)
                    ==> final(self).vertices@[v] == old(self).vertices@[v],
    {
        let ghost old_verts = old(self).vertices@;
        let count = ids.len();
        let mut i: usize = 0;
        while i < count
            invariant
                0 <= i <= count,
                count == ids@.len(),
                self.vertices@.len() == old(self).vertices@.len(),
                self.segments == old(self).segments,
                self.ring == old(self).ring,
                self.pos == old(self).pos,
                self.container == old(self).container,
                self.max_len == old(self).max_len,
                self.total_dist == old(self).total_dist,
                old_verts == old(self).vertices@,
                forall|j: int| 0 <= j < count ==> ((#[trigger] ids@[j]) as int) < old(self).n_spec(),
                forall|j: int, j2: int| 0 <= j < j2 < count ==> ids@[j] != ids@[j2],
                forall|v: int| 0 <= v < old(self).n_spec() ==> ((#[trigger] old_verts[v]).id as int) == v,
                forall|j: int|
                    0 <= j < i ==> #[trigger] member_placed(
                        self.vertices@,
                        old_verts,
                        ids@,
                        slot as int,
                        j,
                    ),
                forall|v: int|
                    0 <= v < old(self).n_spec() && !appears(ids@, i as int, v) ==> self.vertices@[v]
                        == old_verts[v],
            decreases count - i,
        {
            let c = ids[i];
            let ghost vpre = self.vertices@;
            proof {
                assert(!appears(ids@, i as int, c as int)) by {
                    if appears(ids@, i as int, c as int) {
                        let j = choose|j: int| 0 <= j < i && (#[trigger] ids@[j]) as int == c as int;
                        assert(ids@[j] != ids@[i as int]);
                    }
                }
                assert(vpre[c as int] == old_verts[c as int]);
            }
            let mut node = self.vertices[c];
            node.slot = slot;
            node.rank = i;
            self.vertices[c] = node;
            proof {
                assert(member_placed(self.vertices@, old_verts, ids@, slot as int, i as int));
                assert forall|v: int|
                    0 <= v < old(self).n_spec() && !appears(ids@, i + 1, v) implies self.vertices@[v]
                    == old_verts[v] by {
                    assert(!appears(ids@, i as int, v));
                    assert(v != c as int);
                }
                assert forall|j: int| 0 <= j < i + 1 implies #[trigger] member_placed(
                    self.vertices@,
                    old_verts,
                    ids@,
                    slot as int,
                    j,
                ) by {
                    if j < i {
                        assert(member_placed(vpre, old_verts, ids@, slot as int, j));
                        assert(ids@[j] != ids@[i as int]);
                        assert(self.vertices@[ids@[j] as int] == vpre[ids@[j] as int]);
                    }
                }
            }
            i = i + 1;
        }
        self.segments[slot] = Segment { cities: ids, reverse: false };
    }

    proof fn lemma_range_concat(self, p: int, q: int, r: int)
        requires
            p <= q <= r,
        ensures
            self.range_seq(p, r) == self.range_seq(p, q) + self.range_seq(q, r),
        decreases r - q,
    {
        if q == r {
            assert(self.range_seq(p, r) =~= self.range_seq(p, q) + self.range_seq(q, r));
        } else {
            self.lemma_range_concat(p, q, r - 1);
            assert(self.range_seq(p, r) =~= self.range_seq(p, q) + self.range_seq(q, r));
        }
    }

    /// The whole tour is the concatenation of all ring positions.
    proof fn lemma_tour_is_range(self)
        ensures
            self@ == self.range_seq(0, self.m_spec()),
    {
        self.lemma_range_seq_split(0, self.m_spec());
        assert(self.tour_prefix(0) =~= Seq::<int>::empty());
        assert(self@ =~= self.range_seq(0, self.m_spec()));
    }

    /// The member of a segment at logical index `l` is the vertex whose
    /// logical rank is `l`.
    proof fn lemma_logical_member(self, v: int)
        requires
            self.wf_struct(),
            0 <= v < self.n_spec(),
        ensures
            ({
                let sd = self.vertices@[v].slot as int;
                seg_logical(self.segments@[sd])[self.lrank(v)] == v && 0 <= self.lrank(v)
                    < seg_logical(self.segments@[sd]).len()
            }),
    {
        let sd = self.vertices@[v].slot as int;
        let seg = self.segments@[sd];
        let l = self.lrank(v);
        if seg.reverse {
            assert(seg_logical(seg)[l] == seg.cities@.map_values(|u: usize| u as int)[
                self.vertices@[v].rank as int]);
        }
    }

    /// Cut the segment holding `v` just before `v`, so that `v` begins a
    /// segment of its own: the logical suffix from `v` on moves into a fresh
    /// slot inserted right after the donor on the ring.  The tour itself is
    /// untouched, and every vertex that began a segment still does.
    fn split_before(&mut self, v: usize)
        requires
            old(self).wf_struct(),
            (v as int) < old(self).n_spec(),
        ensures
            final(self).wf_struct(),
            final(self)@ == old(self)@,
            final(self).container == old(self).container,
            final(self).max_len == old(self).max_len,
            final(self).total_dist == old(self).total_dist,
            final(self).n_spec() == old(self).n_spec(),
            forall|u: int|
                0 <= u < old(self).n_spec() ==> final(self).visited_of(u) == old(self).visited_of(
                    u,
                ),
            final(self).lrank(v as int) == 0,
            forall|u: int|
                0 <= u < old(self).n_spec() && old(self).lrank(u) == 0 ==> final(self).lrank(u)
                    == 0,
    {
        let ghost o = *old(self);
        let ghost n = o.n_spec();
        let ghost m = o.m_spec();
        let vtx = self.vertices[v];
        let sd = vtx.slot;
        let seg_rev = self.segments[sd].reverse;
        let len = self.segments[sd].cities.len();
        let lr = if seg_rev {
            len - 1 - vtx.rank
        } else {
            vtx.rank
        };
        proof {
            assert(lr as int == o.lrank(v as int));
        }
        if lr == 0 {
            return ;
        }
        let p = self.pos[sd];
        let ids = self.logical_ids(sd);
        let ghost ids0 = ids@;
        proof {
            // the donor's logical sequence is the segment at ring position p
            assert(o.ring@[p as int] as int == sd as int);
            assert(ids0.map_values(|u: usize| u as int) == o.seg_at(p as int));
            // its entries are in range and duplicate-free
            assert forall|i: int| 0 <= i < ids0.len() implies ((#[trigger] ids0[i]) as int) < n
                && o.vertices@[ids0[i] as int].slot as int == sd as int
                && o.lrank(ids0[i] as int) == i by {
                assert(ids0.map_values(|u: usize| u as int)[i] == ids0[i] as int);
                let seg = o.segments@[sd as int];
                if seg.reverse {
                    assert(seg_logical(seg)[i] == seg.cities@.map_values(|u: usize| u as int)[
                        seg.cities@.len() - 1 - i]);
                } else {
                    assert(seg_logical(seg)[i] == seg.cities@.map_values(|u: usize| u as int)[i]);
                }
            }
            assert forall|i: int, j: int| 0 <= i < j < ids0.len() implies ids0[i] != ids0[j] by {
                assert(o.lrank(ids0[i] as int) == i);
                assert(o.lrank(ids0[j] as int) == j);
            }
            // v sits at logical index lr
            o.lemma_logical_member(v as int);
            assert(ids0.map_values(|u: usize| u as int)[lr as int] == v as int);
        }
        // cut the logical sequence at lr
        let mut prefix: Vec<usize> = Vec::new();
        let mut t: usize = 0;
        while t < lr
            invariant
                0 <= t <= lr,
                lr < ids@.len(),
                ids0 == ids@,
                prefix@ == ids0.subrange(0, t as int),
            decreases lr - t,
        {
            prefix.push(ids[t]);
            proof {
                assert(prefix@ =~= ids0.subrange(0, t + 1));
            }
            t = t + 1;
        }
        let mut suffix: Vec<usize> = Vec::new();
        let mut t2: usize = lr;
        let total = ids.len();
        while t2 < total
            invariant
                lr <= t2 <= total,
                total == ids@.len(),
                ids0 == ids@,
                suffix@ == ids0.subrange(lr as int, t2 as int),
            decreases total - t2,
        {
            suffix.push(ids[t2]);
            proof {
                assert(suffix@ =~= ids0.subrange(lr as int, t2 + 1));
            }
            t2 = t2 + 1;
        }
        let ghost pre0 = prefix@;
        let ghost suf0 = suffix@;
        // a fresh slot takes the suffix
        let s2 = self.segments.len();
        self.segments.push(Segment::new());
        proof {
            assert forall|i: int| 0 <= i < pre0.len() implies ((#[trigger] pre0[i]) as int) < n by {
                assert(pre0[i] == ids0[i]);
            }
            assert forall|i: int, j: int| 0 <= i < j < pre0.len() implies pre0[i] != pre0[j] by {
                assert(pre0[i] == ids0[i] && pre0[j] == ids0[j]);
            }
        }
        self.set_segment(sd, prefix);
        let ghost g1 = *self;
        proof {
            assert forall|i: int| 0 <= i < suf0.len() implies ((#[trigger] suf0[i]) as int) < n by {
                assert(suf0[i] == ids0[lr + i]);
            }
            assert forall|i: int, j: int| 0 <= i < j < suf0.len() implies suf0[i] != suf0[j] by {
                assert(suf0[i] == ids0[lr + i] && suf0[j] == ids0[lr + j]);
            }
            // ids survived the first pass
            assert forall|u: int| 0 <= u < n implies ((#[trigger] self.vertices@[u]).id as int)
                == u by {
                if appears(pre0, pre0.len() as int, u) {
                    let i = choose|i: int| 0 <= i < pre0.len() && (#[trigger] pre0[i]) as int == u;
                    assert(member_placed(self.vertices@, o.vertices@, pre0, sd as int, i));
                } else {
                    assert(self.vertices@[u] == o.vertices@[u]);
                }
            }
        }
        self.set_segment(s2, suffix);
        let ghost mid = *self;
        self.ring.insert(p + 1, s2);
        // shift the positions that moved up
        let mut q: usize = 0;
        while q < s2
            invariant
                0 <= q <= s2,
                self.pos@.len() == s2 as int,
                self.ring@ == mid.ring@.insert(p as int + 1, s2),
                self.segments == mid.segments,
                self.vertices == mid.vertices,
                self.container == mid.container,
                self.max_len == mid.max_len,
                self.total_dist == mid.total_dist,
                mid.pos@.len() == s2 as int,
                p < s2,
                forall|s: int|
                    0 <= s < q ==> (#[trigger] self.pos@[s]) as int == (if mid.pos@[s] > p {
                        mid.pos@[s] as int + 1
                    } else {
                        mid.pos@[s] as int
                    }),
                forall|s: int| q <= s < s2 ==> (#[trigger] self.pos@[s]) == mid.pos@[s],
                forall|s: int| 0 <= s < s2 ==> (mid.pos@[s] as int) < s2 as int,
            decreases s2 - q,
        {
            if self.pos[q] > p {
                let cur = self.pos[q];
                self.pos[q] = cur + 1;
            }
            q = q + 1;
        }
        self.pos.push(p + 1);
        proof {
            let li = ids0.len() as int;
            // prefix members were placed by the first rewrite and untouched by
            // the second; suffix members by the second
            assert forall|i: int| 0 <= i < lr as int implies {
                let vtx = #[trigger] mid.vertices@[ids0[i] as int];
                &&& vtx.id == ids0[i]
                &&& vtx.slot as int == sd as int
                &&& vtx.rank as int == i
                &&& vtx.visited == o.vertices@[ids0[i] as int].visited
            } by {
                assert(!appears(suf0, suf0.len() as int, ids0[i] as int)) by {
                    if appears(suf0, suf0.len() as int, ids0[i] as int) {
                        let j = choose|j: int|
                            0 <= j < suf0.len() && (#[trigger] suf0[j]) as int == ids0[i] as int;
                        assert(suf0[j] == ids0[lr + j]);
                        assert(ids0[i] != ids0[lr + j]);
                    }
                }
                assert(pre0[i] == ids0[i]);
                assert(member_placed(g1.vertices@, o.vertices@, pre0, sd as int, i));
                assert(mid.vertices@[ids0[i] as int] == g1.vertices@[ids0[i] as int]);
            }
            assert forall|i: int| lr as int <= i < li implies {
                let vtx = #[trigger] mid.vertices@[ids0[i] as int];
                &&& vtx.id == ids0[i]
                &&& vtx.slot as int == s2 as int
                &&& vtx.rank as int == i - lr
                &&& vtx.visited == o.vertices@[ids0[i] as int].visited
            } by {
                assert(suf0[i - lr] == ids0[i]);
                assert(member_placed(mid.vertices@, g1.vertices@, suf0, s2 as int, i - lr));
                assert(!appears(pre0, pre0.len() as int, ids0[i] as int)) by {
                    if appears(pre0, pre0.len() as int, ids0[i] as int) {
                        let j = choose|j: int|
                            0 <= j < pre0.len() && (#[trigger] pre0[j]) as int == ids0[i] as int;
                        assert(pre0[j] == ids0[j]);
                        assert(ids0[j] != ids0[i]);
                    }
                }
                assert(g1.vertices@[ids0[i] as int] == o.vertices@[ids0[i] as int]);
            }
            assert forall|u: int|
                0 <= u < n && !appears(ids0, li, u) implies #[trigger] mid.vertices@[u]
                == o.vertices@[u] by {
                assert(!appears(pre0, pre0.len() as int, u)) by {
                    if appears(pre0, pre0.len() as int, u) {
                        let j = choose|j: int|
                            0 <= j < pre0.len() && (#[trigger] pre0[j]) as int == u;
                        assert(ids0[j] as int == u);
                    }
                }
                assert(!appears(suf0, suf0.len() as int, u)) by {
                    if appears(suf0, suf0.len() as int, u) {
                        let j = choose|j: int|
                            0 <= j < suf0.len() && (#[trigger] suf0[j]) as int == u;
                        assert(ids0[lr + j] as int == u);
                    }
                }
            }
            self.lemma_split_done(
                o,
                mid,
                v as int,
                sd as int,
                s2 as int,
                p as int,
                lr as int,
                ids0,
                s2,
            );
        }
    }

    /// The state after `split_before`'s surgery is well-formed and denotes
    /// the same tour.
    proof fn lemma_split_done(
        self,
        o: TwoLevelList,
        mid: TwoLevelList,
        v: int,
        sd: int,
        s2: int,
        p: int,
        lr: int,
        ids0: Seq<usize>,
        s2u: usize,
    )
        requires
            s2u as int == s2,
            mid.max_len == o.max_len,
            o.wf_struct(),
            0 <= v < o.n_spec(),
            o.vertices@[v].slot as int == sd,
            0 <= sd < o.m_spec(),
            s2 == o.m_spec(),
            0 <= p < o.m_spec(),
            o.pos@[sd] as int == p,
            o.ring@[p] as int == sd,
            0 < lr < ids0.len(),
            lr == o.lrank(v),
            ids0.map_values(|u: usize| u as int) == o.seg_at(p),
            ids0.len() == o.segments@[sd].cities@.len(),
            ids0[lr] as int == v,
            forall|i: int|
                0 <= i < ids0.len() ==> ((#[trigger] ids0[i]) as int) < o.n_spec()
                    && o.vertices@[ids0[i] as int].slot as int == sd && o.lrank(ids0[i] as int)
                    == i,
            // the mid state: segments and vertices rewritten, ring and pos as in o
            mid.segments@.len() == s2 + 1,
            mid.segments@[sd].cities@ == ids0.subrange(0, lr),
            mid.segments@[sd].reverse == false,
            mid.segments@[s2].cities@ == ids0.subrange(lr, ids0.len() as int),
            mid.segments@[s2].reverse == false,
            forall|s: int|
                0 <= s < s2 && s != sd ==> #[trigger] mid.segments@[s] == o.segments@[s],
            mid.vertices@.len() == o.n_spec(),
            forall|i: int|
                0 <= i < lr ==> {
                    let vtx = #[trigger] mid.vertices@[ids0[i] as int];
                    &&& vtx.id == ids0[i]
                    &&& vtx.slot as int == sd
                    &&& vtx.rank as int == i
                    &&& vtx.visited == o.vertices@[ids0[i] as int].visited
                },
            forall|i: int|
                lr <= i < ids0.len() ==> {
                    let vtx = #[trigger] mid.vertices@[ids0[i] as int];
                    &&& vtx.id == ids0[i]
                    &&& vtx.slot as int == s2
                    &&& vtx.rank as int == i - lr
                    &&& vtx.visited == o.vertices@[ids0[i] as int].visited
                },
            forall|u: int|
                0 <= u < o.n_spec() && !appears(ids0, ids0.len() as int, u)
                    ==> #[trigger] mid.vertices@[u] == o.vertices@[u],
            mid.container == o.container,
            // the final state: ring and pos updated around the fresh slot
            self.segments == mid.segments,
            self.vertices == mid.vertices,
            self.container == mid.container,
            self.max_len == mid.max_len,
            self.total_dist == mid.total_dist,
            self.ring@ == o.ring@.insert(p + 1, s2u),
            self.pos@.len() == s2 + 1,
            forall|s: int|
                0 <= s < s2 ==> ((#[trigger] self.pos@[s]) as int) == (if o.pos@[s] > p {
                    o.pos@[s] as int + 1
                } else {
                    o.pos@[s] as int
                }),
            self.pos@[s2] as int == p + 1,
        ensures
            self.wf_struct(),
            self@ == o@,
            self.n_spec() == o.n_spec(),
            forall|u: int| 0 <= u < o.n_spec() ==> self.visited_of(u) == o.visited_of(u),
            self.lrank(v) == 0,
            forall|u: int| 0 <= u < o.n_spec() && o.lrank(u) == 0 ==> self.lrank(u) == 0,
    {
        let n = o.n_spec();
        let m = o.m_spec();
        let li = ids0.len() as int;
        o.ring@.insert_ensures(p + 1, s2 as usize);
        // --- ring positions after the insertion -----------------------------
        assert(self.m_spec() == m + 1);
        assert(self.ring@.len() == m + 1);
        assert forall|q: int| 0 <= q <= p implies (#[trigger] self.ring@[q]) == o.ring@[q] by {}
        assert(self.ring@[p + 1] as int == s2);
        assert forall|q: int| p + 2 <= q < m + 1 implies (#[trigger] self.ring@[q]) == o.ring@[q
            - 1] by {
            assert(self.ring@[(q - 1) + 1] == o.ring@[q - 1]);
        }
        // --- membership of the donor's ids ----------------------------------
        assert forall|u: int|
            0 <= u < n && o.vertices@[u].slot as int != sd implies !appears(ids0, li, u) by {
            if appears(ids0, li, u) {
                let i = choose|i: int| 0 <= i < li && (#[trigger] ids0[i]) as int == u;
                assert(o.vertices@[ids0[i] as int].slot as int == sd);
            }
        }
        assert forall|u: int|
            0 <= u < n && o.vertices@[u].slot as int == sd implies appears(ids0, li, u)
                && ids0[o.lrank(u)] as int == u && 0 <= o.lrank(u) < li by {
            o.lemma_logical_member(u);
            assert(ids0.map_values(|x: usize| x as int)[o.lrank(u)] == u);
            assert(ids0[o.lrank(u)] as int == u);
        }
        // --- ring_ok ---------------------------------------------------------
        assert forall|q: int| 0 <= q < m + 1 implies ((#[trigger] self.ring@[q]) as int) < m + 1
            && self.pos@[self.ring@[q] as int] as int == q by {
            if q <= p {
                let s = o.ring@[q] as int;
                assert(o.pos@[s] as int == q);
            } else if q == p + 1 {
            } else {
                let s = o.ring@[q - 1] as int;
                assert(o.pos@[s] as int == q - 1);
            }
        }
        assert forall|s: int| 0 <= s < m + 1 implies ((#[trigger] self.pos@[s]) as int) < m + 1
            && self.ring@[self.pos@[s] as int] as int == s by {
            if s < s2 {
                let q0 = o.pos@[s] as int;
                assert(o.ring@[q0] as int == s);
                if q0 > p {
                    assert(self.ring@[q0 + 1] == o.ring@[q0]);
                } else {
                    assert(self.ring@[q0] == o.ring@[q0]);
                }
            }
        }
        assert(self.ring_ok());
        // --- the new segments under each position ----------------------------
        let pre_seg = seg_logical(mid.segments@[sd]);
        let suf_seg = seg_logical(mid.segments@[s2]);
        assert(pre_seg =~= o.seg_at(p).subrange(0, lr)) by {
            assert forall|x: int| 0 <= x < lr implies pre_seg[x] == o.seg_at(p).subrange(0, lr)[x] by {
                assert(pre_seg[x] == mid.segments@[sd].cities@[x] as int);
                assert(mid.segments@[sd].cities@[x] == ids0[x]);
                assert(ids0.map_values(|u: usize| u as int)[x] == ids0[x] as int);
            }
        }
        assert(suf_seg =~= o.seg_at(p).subrange(lr, li)) by {
            assert forall|x: int| 0 <= x < li - lr implies suf_seg[x] == o.seg_at(p).subrange(
                lr,
                li,
            )[x] by {
                assert(suf_seg[x] == mid.segments@[s2].cities@[x] as int);
                assert(mid.segments@[s2].cities@[x] == ids0[lr + x]);
                assert(ids0.map_values(|u: usize| u as int)[lr + x] == ids0[lr + x] as int);
            }
        }
        assert(o.seg_at(p).len() == li);
        assert forall|q: int| 0 <= q < p implies #[trigger] self.seg_at(q) == o.seg_at(q) by {
            let s = o.ring@[q] as int;
            assert(o.pos@[s] as int == q);
            assert(s != sd);
            assert(s < s2);
        }
        assert(self.seg_at(p) == pre_seg);
        assert(self.seg_at(p + 1) == suf_seg);
        assert forall|q: int| p + 2 <= q < m + 1 implies #[trigger] self.seg_at(q) == o.seg_at(
            q - 1,
        ) by {
            let s = o.ring@[q - 1] as int;
            assert(o.pos@[s] as int == q - 1);
            assert(s != sd);
            assert(s < s2);
        }
        // --- the tour is unchanged -------------------------------------------
        self.lemma_tour_is_range();
        o.lemma_tour_is_range();
        self.lemma_range_concat(0, p, m + 1);
        self.lemma_range_concat(p, p + 2, m + 1);
        self.lemma_range_seq_prepend(p, p + 2);
        self.lemma_range_seq_prepend(p + 1, p + 2);
        o.lemma_range_concat(0, p, m);
        o.lemma_range_seq_prepend(p, m);
        assert(self.range_seq(0, p) == o.range_seq(0, p)) by {
            assert forall|t: int| 0 <= t < p implies self.seg_at(0 + t) == #[trigger] o.seg_at(
                0 + t,
            ) by {
                assert(self.seg_at(t) == o.seg_at(t));
            }
            lemma_range_map(self, o, 0, 0, p);
        }
        assert(self.range_seq(p + 2, m + 1) == o.range_seq(p + 1, m)) by {
            assert forall|t: int| 0 <= t < m - 1 - p implies self.seg_at(p + 2 + t)
                == #[trigger] o.seg_at(p + 1 + t) by {}
            lemma_range_map(self, o, p + 2, p + 1, m - 1 - p);
        }
        assert(self.range_seq(p + 1, p + 2) =~= suf_seg);
        assert(self@ =~= o@) by {
            assert(self@ == self.range_seq(0, p) + (self.seg_at(p) + self.range_seq(p + 1, p + 2))
                + self.range_seq(p + 2, m + 1));
            assert(o@ == o.range_seq(0, p) + (o.seg_at(p) + o.range_seq(p + 1, m)));
            assert(pre_seg + suf_seg =~= o.seg_at(p));
        }
        // --- cities_ok and verts_ok -------------------------------------------
        assert forall|s: int, i: int|
            0 <= s < m + 1 && 0 <= i < self.segments@[s].cities@.len() implies {
            let u = #[trigger] self.segments@[s].cities@[i];
            &&& u < n
            &&& self.vertices@[u as int].slot == s
            &&& self.vertices@[u as int].rank == i
        } by {
            if s == sd {
                assert(self.segments@[s].cities@[i] == ids0[i]);
                assert(mid.vertices@[ids0[i] as int].slot as int == sd);
                assert(mid.vertices@[ids0[i] as int].rank as int == i);
            } else if s == s2 {
                assert(self.segments@[s].cities@[i] == ids0[lr + i]);
                assert(mid.vertices@[ids0[lr + i] as int].slot as int == s2);
                assert(mid.vertices@[ids0[lr + i] as int].rank as int == i);
            } else {
                assert(self.segments@[s] == o.segments@[s]);
                let u = self.segments@[s].cities@[i];
                assert(o.vertices@[u as int].slot as int == s);
                assert(s != sd);
                assert(!appears(ids0, li, u as int));
                assert(self.vertices@[u as int] == o.vertices@[u as int]);
            }
        }
        assert(self.cities_ok());
        assert forall|u: int| 0 <= u < n implies {
            let vtx = #[trigger] self.vertices@[u];
            &&& vtx.id == u
            &&& (vtx.slot as int) < m + 1
            &&& (vtx.rank as int) < self.segments@[vtx.slot as int].cities@.len()
            &&& self.segments@[vtx.slot as int].cities@[vtx.rank as int] == u
        } by {
            if o.vertices@[u].slot as int == sd {
                let i = o.lrank(u);
                assert(ids0[i] as int == u);
                if i < lr {
                    assert(mid.vertices@[ids0[i] as int].slot as int == sd);
                    assert(mid.vertices@[ids0[i] as int].rank as int == i);
                    assert(self.segments@[sd].cities@[i] == ids0[i]);
                } else {
                    assert(mid.vertices@[ids0[i] as int].slot as int == s2);
                    assert(mid.vertices@[ids0[i] as int].rank as int == i - lr);
                    assert(self.segments@[s2].cities@[i - lr] == ids0[i]);
                }
            } else {
                assert(!appears(ids0, li, u));
                assert(self.vertices@[u] == o.vertices@[u]);
                assert(o.vertices@[u].slot as int != sd && (o.vertices@[u].slot as int) < s2);
                assert(self.segments@[o.vertices@[u].slot as int] == o.segments@[o.vertices@[
                    u].slot as int]);
            }
        }
        assert(self.verts_ok());
        // --- the rest of the invariant -----------------------------------------
        assert forall|s: int| 0 <= s < m + 1 implies (#[trigger] self.segments@[s]).cities@.len()
            >= 1 by {
            if s == sd {
            } else if s == s2 {
            } else {
                assert(self.segments@[s] == o.segments@[s]);
            }
        }
        assert(self.wf_struct());
        // --- the scratch flags survive ------------------------------------------
        assert forall|u: int| 0 <= u < n implies self.visited_of(u) == o.visited_of(u) by {
            if o.vertices@[u].slot as int == sd {
                let i = o.lrank(u);
                assert(ids0[i] as int == u);
                if i < lr {
                    assert(mid.vertices@[ids0[i] as int].visited == o.vertices@[u].visited);
                } else {
                    assert(mid.vertices@[ids0[i] as int].visited == o.vertices@[u].visited);
                }
            } else {
                assert(!appears(ids0, li, u));
            }
        }
        // --- v now begins a segment, and old firsts still do ---------------------
        assert(self.lrank(v) == 0) by {
            assert(ids0[lr] as int == v);
            assert(mid.vertices@[ids0[lr] as int].slot as int == s2);
            assert(mid.vertices@[ids0[lr] as int].rank as int == 0);
            assert(mid.segments@[s2].reverse == false);
        }
        assert forall|u: int| 0 <= u < n && o.lrank(u) == 0 implies self.lrank(u) == 0 by {
            if o.vertices@[u].slot as int == sd {
                assert(ids0[0] as int == u);
                assert(mid.vertices@[ids0[0] as int].slot as int == sd);
                assert(mid.vertices@[ids0[0] as int].rank as int == 0);
                assert(mid.segments@[sd].reverse == false);
            } else {
                assert(!appears(ids0, li, u));
                assert(self.vertices@[u] == o.vertices@[u]);
                assert(self.segments@[o.vertices@[u].slot as int] == o.segments@[o.vertices@[
                    u].slot as int]);
            }
        }
    }

    /// The tour position of city `v`: its index in the abstract sequence.
    /// O(number of segments).
    #[verifier::loop_isolation(false)]
    fn tour_position(&self, v: usize) -> (r: usize)
        requires
            self.wf_struct(),
            (v as int) < self.n_spec(),
        ensures
            r as int == self.vpos(v as int),
            (r as int) < self.n_spec(),
    {
        proof {
            self.lemma_vpos(v as int);
            self.lemma_tour_prefix_len(self.m_spec());
            assert(self.prefix_len(self.m_spec()) == self.n_spec());
        }
        let nb = self.vertices.len();
        let vtx = self.vertices[v];
        let slot = vtx.slot;
        let p = self.pos[slot];
        let mut acc: usize = 0;
        let mut q: usize = 0;
        while q < p
            invariant
                0 <= q <= p,
                (p as int) < self.m_spec(),
                self.wf_struct(),
                acc as int == self.prefix_len(q as int),
            decreases p - q,
        {
            proof {
                self.lemma_prefix_mono(q + 1, self.m_spec());
                self.lemma_tour_prefix_len(self.m_spec());
                assert(self.prefix_len(self.m_spec()) == self.n_spec());
                assert(self.seg_at(q as int).len() == self.segments@[self.ring@[q as int] as int].cities@.len());
                assert(self.prefix_len(q + 1) == self.prefix_len(q as int) + self.seg_at(
                    q as int,
                ).len());
                assert(self.prefix_len(q + 1) <= self.n_spec());
                assert(self.n_spec() == nb as int);
            }
            let s = self.ring[q];
            acc = acc + self.segments[s].cities.len();
            q = q + 1;
        }
        let seg = &self.segments[slot];
        let lr = if seg.reverse {
            seg.cities.len() - 1 - vtx.rank
        } else {
            vtx.rank
        };
        proof {
            assert(lr as int == self.lrank(v as int));
            assert(acc as int + lr as int == self.vpos(v as int));
            assert(self.vpos(v as int) < nb as int);
        }
        acc + lr
    }

    /// Rotate the ring so that the segment now at position `p` takes
    /// position 0.  The cyclic tour is unchanged: the abstract sequence is
    /// rotated by the number of ids before position `p`.
    #[verifier::loop_isolation(false)]
    fn align_ring(&mut self, p: usize)
        requires
            old(self).wf_struct(),
            (p as int) < old(self).m_spec(),
        ensures
            final(self).wf_struct(),
            final(self)@ == rotate_seq(old(self)@, old(self).prefix_len(p as int)),
            0 <= old(self).prefix_len(p as int) <= old(self)@.len(),
            final(self).segments == old(self).segments,
            final(self).vertices == old(self).vertices,
            final(self).container == old(self).container,
            final(self).max_len == old(self).max_len,
            final(self).total_dist == old(self).total_dist,
            final(self).n_spec() == old(self).n_spec(),
            final(self).m_spec() == old(self).m_spec(),
            forall|q: int|
                0 <= q < old(self).m_spec() ==> (#[trigger] final(self).ring@[q]) == old(
                    self,
                ).ring@[(q + p) % old(self).m_spec()],
    {
        let ghost o = *old(self);
        let ghost m = o.m_spec();
        let ghost n = o.n_spec();
        let mcount = self.ring.len();
        let mut new_ring: Vec<usize> = Vec::new();
        let mut q: usize = 0;
        while q < mcount
            invariant
                0 <= q <= mcount,
                mcount as int == m,
                (p as int) < m,
                o == *old(self),
                self == old(self),
                o.wf_struct(),
                mcount == self.ring@.len(),
                new_ring@.len() == q,
                forall|t: int|
                    0 <= t < q ==> (#[trigger] new_ring@[t]) == o.ring@[(t + p) % m],
            decreases mcount - q,
        {
            let idx = if q < mcount - p {
                p + q
            } else {
                q - (mcount - p)
            };
            proof {
                lemma_mod_shift(q + p, m);
            }
            new_ring.push(self.ring[idx]);
            q = q + 1;
        }
        self.ring = new_ring;
        // rebuild the inverse
        let mut q2: usize = 0;
        while q2 < mcount
            invariant
                0 <= q2 <= mcount,
                mcount as int == m,
                (p as int) < m,
                o == *old(self),
                o.wf_struct(),
                self.segments == o.segments,
                self.vertices == o.vertices,
                self.container == o.container,
                self.max_len == o.max_len,
                self.total_dist == o.total_dist,
                self.pos@.len() == m,
                self.ring@.len() == m,
                forall|t: int| 0 <= t < m ==> (#[trigger] self.ring@[t]) == o.ring@[(t + p) % m],
                forall|t: int|
                    0 <= t < q2 ==> (#[trigger] self.pos@[self.ring@[t] as int]) == t,
            decreases mcount - q2,
        {
            proof {
                lemma_mod_shift(q2 + p, m);
                assert(self.ring@[q2 as int] == o.ring@[(q2 + p) % m]);
                assert((o.ring@[(q2 + p) % m] as int) < m);
            }
            let s = self.ring[q2];
            self.pos[s] = q2;
            proof {
                assert forall|t: int| 0 <= t < q2 + 1 implies (#[trigger] self.pos@[self.ring@[
                    t] as int]) == t by {
                    if t < q2 {
                        // distinct ring entries are untouched by this write
                        lemma_mod_shift(t + p, m);
                        assert(self.ring@[t] == o.ring@[(t + p) % m]);
                        assert(o.pos@[o.ring@[(t + p) % m] as int] as int == (t + p) % m);
                        assert(o.pos@[o.ring@[(q2 + p) % m] as int] as int == (q2 + p) % m);
                        assert(self.ring@[t] != s);
                    }
                }
            }
            q2 = q2 + 1;
        }
        proof {
            self.lemma_aligned(o, p as int);
        }
    }

    /// After `align_ring`'s loops the structure is well-formed and denotes
    /// the rotated sequence.
    proof fn lemma_aligned(self, o: TwoLevelList, p: int)
        requires
            o.wf_struct(),
            0 <= p < o.m_spec(),
            self.segments == o.segments,
            self.vertices == o.vertices,
            self.container == o.container,
            self.max_len == o.max_len,
            self.ring@.len() == o.m_spec(),
            self.pos@.len() == o.m_spec(),
            forall|t: int|
                0 <= t < o.m_spec() ==> (#[trigger] self.ring@[t]) == o.ring@[(t + p)
                    % o.m_spec()],
            forall|t: int|
                0 <= t < o.m_spec() ==> (#[trigger] self.pos@[self.ring@[t] as int]) == t,
        ensures
            self.wf_struct(),
            self@ == rotate_seq(o@, o.prefix_len(p)),
            0 <= o.prefix_len(p) <= o@.len(),
    {
        let m = o.m_spec();
        let n = o.n_spec();
        // ring_ok: the rotated ring is still a bijection
        assert forall|q: int| 0 <= q < m implies ((#[trigger] self.ring@[q]) as int) < m
            && self.pos@[self.ring@[q] as int] as int == q by {
            lemma_mod_shift(q + p, m);
        }
        assert forall|s: int| 0 <= s < m implies ((#[trigger] self.pos@[s]) as int) < m
            && self.ring@[self.pos@[s] as int] as int == s by {
            let q0 = o.pos@[s] as int;
            assert(o.ring@[q0] as int == s);
            let q1 = if q0 >= p {
                q0 - p
            } else {
                q0 + m - p
            };
            lemma_mod_shift(q1 + p, m);
            assert(self.ring@[q1] as int == s);
            assert(self.pos@[s] as int == q1);
        }
        assert(self.ring_ok());
        // segments and vertices are untouched
        assert forall|s: int, i: int|
            0 <= s < m && 0 <= i < self.segments@[s].cities@.len() implies {
            let u = #[trigger] self.segments@[s].cities@[i];
            &&& u < n
            &&& self.vertices@[u as int].slot == s
            &&& self.vertices@[u as int].rank == i
        } by {
            assert(o.segments@[s].cities@[i] == self.segments@[s].cities@[i]);
        }
        assert(self.cities_ok());
        assert forall|u: int| 0 <= u < n implies {
            let vtx = #[trigger] self.vertices@[u];
            &&& vtx.id == u
            &&& (vtx.slot as int) < m
            &&& (vtx.rank as int) < self.segments@[vtx.slot as int].cities@.len()
            &&& self.segments@[vtx.slot as int].cities@[vtx.rank as int] == u
        } by {
            assert(o.vertices@[u] == self.vertices@[u]);
        }
        assert(self.verts_ok());
        // the tour is the rotation by the ids before position p
        let sp = o.prefix_len(p);
        o.lemma_prefix_mono(0, p);
        o.lemma_prefix_mono(p, m);
        o.lemma_tour_prefix_len(m);
        assert forall|t: int| 0 <= t < m - p implies self.seg_at(0 + t) == #[trigger] o.seg_at(
            p + t,
        ) by {
            lemma_mod_shift(t + p, m);
        }
        lemma_range_map(self, o, 0, p, m - p);
        assert forall|t: int| 0 <= t < p implies self.seg_at(m - p + t) == #[trigger] o.seg_at(
            0 + t,
        ) by {
            lemma_mod_shift(m - p + t + p, m);
        }
        lemma_range_map(self, o, m - p, 0, p);
        self.lemma_tour_is_range();
        o.lemma_tour_is_range();
        self.lemma_range_concat(0, m - p, m);
        o.lemma_range_seq_subrange(p, m);
        o.lemma_range_seq_subrange(0, p);
        assert(o.range_seq(p, m) =~= o@.skip(sp));
        assert(o.range_seq(0, p) =~= o@.take(sp));
        assert(self@ == o.range_seq(p, m) + o.range_seq(0, p));
        assert(self@ == rotate_seq(o@, sp));
        assert(self@.len() == n) by {
            assert(o@.len() == n);
        }
    }

    /// Reverse the run of segments at ring positions `0 .. kseg`: the
    /// mirrored positions swap their slots and every segment of the run has
    /// its reverse bit toggled.  No vertex or city vector is touched, so the
    /// work is O(number of segments reversed).
    #[verifier::loop_isolation(false)]
    fn reverse_run_front(&mut self, kseg: usize)
        requires
            old(self).wf_struct(),
            1 <= kseg,
            (kseg as int) <= old(self).m_spec(),
        ensures
            final(self).wf_struct(),
            final(self)@ == old(self)@.take(old(self).prefix_len(kseg as int)).reverse() + old(
                self,
            )@.skip(old(self).prefix_len(kseg as int)),
            0 <= old(self).prefix_len(kseg as int) <= old(self)@.len(),
            final(self).vertices == old(self).vertices,
            final(self).container == old(self).container,
            final(self).max_len == old(self).max_len,
            final(self).total_dist == old(self).total_dist,
            final(self).n_spec() == old(self).n_spec(),
            final(self).m_spec() == old(self).m_spec(),
    {
        let ghost o = *old(self);
        let ghost m = o.m_spec();
        let ghost kk = kseg as int;
        let half = kseg / 2;
        let mut t: usize = 0;
        while t < half
            invariant
                0 <= t <= half,
                2 * (half as int) <= kk,
                o.wf_struct(),
                self.vertices == o.vertices,
                self.container == o.container,
                self.max_len == o.max_len,
                self.total_dist == o.total_dist,
                self.ring@.len() == m,
                self.pos@.len() == m,
                self.segments@.len() == m,
                forall|s: int|
                    0 <= s < m ==> (#[trigger] self.segments@[s]).cities == o.segments@[s].cities,
                forall|q: int|
                    0 <= q < m && (q < t || kk - t <= q < kk) ==> (#[trigger] self.ring@[q])
                        == o.ring@[kk - 1 - q],
                forall|q: int|
                    0 <= q < m && !(q < t || kk - t <= q < kk) ==> (#[trigger] self.ring@[q])
                        == o.ring@[q],
                forall|q: int|
                    0 <= q < m && (q < t || kk - t <= q < kk) ==> (#[trigger] self.segments@[
                        o.ring@[q] as int]).reverse == !o.segments@[o.ring@[q] as int].reverse,
                forall|q: int|
                    0 <= q < m && !(q < t || kk - t <= q < kk) ==> (#[trigger] self.segments@[
                        o.ring@[q] as int]).reverse == o.segments@[o.ring@[q] as int].reverse,
                forall|q: int|
                    0 <= q < m ==> ((#[trigger] self.ring@[q]) as int) < m
                        && self.pos@[self.ring@[q] as int] as int == q,
            decreases half - t,
        {
            let ghost pre = *self;
            let q2 = kseg - 1 - t;
            proof {
                assert(self.ring@[t as int] == o.ring@[t as int]);
                assert(self.ring@[q2 as int] == o.ring@[q2 as int]);
                assert(kk - 1 - (t as int) == q2 as int);
                lemma_ring_distinct(o, t as int, kk - 1 - t);
            }
            let s1 = self.ring[t];
            let s2 = self.ring[q2];
            self.ring[t] = s2;
            self.ring[q2] = s1;
            self.pos[s1] = q2;
            self.pos[s2] = t;
            let b1 = self.segments[s1].reverse;
            self.segments[s1].reverse = !b1;
            let b2 = self.segments[s2].reverse;
            self.segments[s2].reverse = !b2;
            proof {
                // s1 was at position t, s2 at its mirror
                assert(s1 == o.ring@[t as int] && s2 == o.ring@[kk - 1 - t]);
                assert(s1 != s2);
                let tn = t + 1;
                assert forall|q: int|
                    0 <= q < m && (q < tn || kk - tn <= q < kk) implies (#[trigger] self.ring@[q])
                    == o.ring@[kk - 1 - q] by {
                    if q == t as int {
                    } else if q == q2 as int {
                    } else {
                        assert(self.ring@[q] == pre.ring@[q]);
                    }
                }
                assert forall|q: int|
                    0 <= q < m && !(q < tn || kk - tn <= q < kk) implies (#[trigger] self.ring@[q])
                    == o.ring@[q] by {
                    assert(self.ring@[q] == pre.ring@[q]);
                }
                assert forall|q: int|
                    0 <= q < m && (q < tn || kk - tn <= q < kk) implies (#[trigger] self.segments@[
                    o.ring@[q] as int]).reverse == !o.segments@[o.ring@[q] as int].reverse by {
                    let s = o.ring@[q] as int;
                    if q == t as int {
                        assert(s == s1 as int);
                    } else if q == q2 as int {
                        assert(s == s2 as int);
                    } else {
                        lemma_ring_distinct(o, q, t as int);
                        lemma_ring_distinct(o, q, kk - 1 - t);
                        assert(s != s1 as int && s != s2 as int);
                        assert(self.segments@[s].reverse == pre.segments@[s].reverse);
                    }
                }
                assert forall|q: int|
                    0 <= q < m && !(q < tn || kk - tn <= q < kk) implies (#[trigger] self.segments@[
                    o.ring@[q] as int]).reverse == o.segments@[o.ring@[q] as int].reverse by {
                    let s = o.ring@[q] as int;
                    lemma_ring_distinct(o, q, t as int);
                    lemma_ring_distinct(o, q, kk - 1 - t);
                    assert(s != s1 as int && s != s2 as int);
                    assert(self.segments@[s].reverse == pre.segments@[s].reverse);
                }
                assert forall|q: int|
                    0 <= q < m implies ((#[trigger] self.ring@[q]) as int) < m && self.pos@[
                    self.ring@[q] as int] as int == q by {
                    if q != t as int && q != q2 as int {
                        assert(self.ring@[q] == pre.ring@[q]);
                        assert(pre.pos@[pre.ring@[q] as int] as int == q);
                        assert(pre.pos@[s1 as int] as int == t as int);
                        assert(pre.pos@[s2 as int] as int == q2 as int);
                        assert(pre.ring@[q] as int != s1 as int && pre.ring@[q] as int
                            != s2 as int);
                    }
                }
            }
            t = t + 1;
        }
        if kseg % 2 == 1 {
            let qm = kseg / 2;
            let ghost pre = *self;
            proof {
                assert(!((qm as int) < (half as int) || (kk - (half as int) <= qm as int && (qm as int) < kk)));
                assert(self.ring@[qm as int] == o.ring@[qm as int]);
            }
            let sm = self.ring[qm];
            let bm = self.segments[sm].reverse;
            self.segments[sm].reverse = !bm;
            proof {
                assert forall|q: int| 0 <= q < kk implies (#[trigger] self.ring@[q]) == o.ring@[kk
                    - 1 - q] by {
                    if q == qm as int {
                        assert(kk - 1 - q == q);
                    }
                }
                assert forall|q: int| 0 <= q < kk implies (#[trigger] self.segments@[o.ring@[
                    q] as int]).reverse == !o.segments@[o.ring@[q] as int].reverse by {
                    let s = o.ring@[q] as int;
                    if q == qm as int {
                        assert(s == sm as int);
                    } else {
                        lemma_ring_distinct(o, q, qm as int);
                        assert(s != sm as int);
                        assert(self.segments@[s].reverse == pre.segments@[s].reverse);
                    }
                }
                assert forall|q: int| kk <= q < m implies (#[trigger] self.segments@[o.ring@[
                    q] as int]).reverse == o.segments@[o.ring@[q] as int].reverse by {
                    let s = o.ring@[q] as int;
                    lemma_ring_distinct(o, q, qm as int);
                    assert(self.segments@[s].reverse == pre.segments@[s].reverse);
                }
                self.lemma_run_reversed(o, kk);
            }
        } else {
            proof {
                assert forall|q: int| 0 <= q < kk implies (#[trigger] self.ring@[q]) == o.ring@[kk
                    - 1 - q] by {}
                self.lemma_run_reversed(o, kk);
            }
        }
    }

    /// After the swap pass the structure is well-formed and the run's part
    /// of the tour is reversed in place.
    proof fn lemma_run_reversed(self, o: TwoLevelList, kk: int)
        requires
            o.wf_struct(),
            1 <= kk <= o.m_spec(),
            self.vertices == o.vertices,
            self.container == o.container,
            self.max_len == o.max_len,
            self.ring@.len() == o.m_spec(),
            self.pos@.len() == o.m_spec(),
            self.segments@.len() == o.m_spec(),
            forall|s: int|
                0 <= s < o.m_spec() ==> (#[trigger] self.segments@[s]).cities == o.segments@[
                    s].cities,
            forall|q: int| 0 <= q < kk ==> (#[trigger] self.ring@[q]) == o.ring@[kk - 1 - q],
            forall|q: int| kk <= q < o.m_spec() ==> (#[trigger] self.ring@[q]) == o.ring@[q],
            forall|q: int|
                0 <= q < kk ==> (#[trigger] self.segments@[o.ring@[q] as int]).reverse
                    == !o.segments@[o.ring@[q] as int].reverse,
            forall|q: int|
                kk <= q < o.m_spec() ==> (#[trigger] self.segments@[o.ring@[q] as int]).reverse
                    == o.segments@[o.ring@[q] as int].reverse,
            forall|q: int|
                0 <= q < o.m_spec() ==> ((#[trigger] self.ring@[q]) as int) < o.m_spec()
                    && self.pos@[self.ring@[q] as int] as int == q,
        ensures
            self.wf_struct(),
            self@ == o@.take(o.prefix_len(kk)).reverse() + o@.skip(o.prefix_len(kk)),
            0 <= o.prefix_len(kk) <= o@.len(),
    {
        let m = o.m_spec();
        let n = o.n_spec();
        assert forall|s: int| 0 <= s < m implies ((#[trigger] self.pos@[s]) as int) < m
            && self.ring@[self.pos@[s] as int] as int == s by {
            let q0 = o.pos@[s] as int;
            assert(o.ring@[q0] as int == s);
            if q0 < kk {
                assert(self.ring@[kk - 1 - q0] as int == s);
                assert(self.pos@[s] as int == kk - 1 - q0);
            } else {
                assert(self.ring@[q0] as int == s);
            }
        }
        assert(self.ring_ok());
        assert forall|s: int, i: int|
            0 <= s < m && 0 <= i < self.segments@[s].cities@.len() implies {
            let u = #[trigger] self.segments@[s].cities@[i];
            &&& u < n
            &&& self.vertices@[u as int].slot == s
            &&& self.vertices@[u as int].rank == i
        } by {
            assert(self.segments@[s].cities == o.segments@[s].cities);
            assert(o.segments@[s].cities@[i] == self.segments@[s].cities@[i]);
        }
        assert(self.cities_ok());
        assert forall|u: int| 0 <= u < n implies {
            let vtx = #[trigger] self.vertices@[u];
            &&& vtx.id == u
            &&& (vtx.slot as int) < m
            &&& (vtx.rank as int) < self.segments@[vtx.slot as int].cities@.len()
            &&& self.segments@[vtx.slot as int].cities@[vtx.rank as int] == u
        } by {
            assert(o.vertices@[u] == self.vertices@[u]);
            assert(self.segments@[o.vertices@[u].slot as int].cities == o.segments@[o.vertices@[
                u].slot as int].cities);
        }
        assert(self.verts_ok());
        assert forall|s: int| 0 <= s < m implies (#[trigger] self.segments@[s]).cities@.len()
            >= 1 || n == 0 by {
            assert(self.segments@[s].cities == o.segments@[s].cities);
        }
        // the run's segments, read backward and each reversed
        assert forall|t: int| 0 <= t < kk implies #[trigger] self.seg_at(0 + t) == o.seg_at(
            0 + kk - 1 - t,
        ).reverse() by {
            let s = o.ring@[kk - 1 - t] as int;
            assert(self.ring@[t] as int == s);
            assert(self.segments@[s].cities == o.segments@[s].cities);
            assert(self.segments@[s].reverse == !o.segments@[s].reverse) by {
                assert(self.segments@[o.ring@[kk - 1 - t] as int].reverse == !o.segments@[o.ring@[
                    kk - 1 - t] as int].reverse);
            }
            let mp = o.segments@[s].cities@.map_values(|u: usize| u as int);
            if o.segments@[s].reverse {
                assert(mp.reverse().reverse() =~= mp);
            }
        }
        lemma_range_rev(o, self, 0, 0, kk);
        assert forall|t: int| 0 <= t < m - kk implies self.seg_at(kk + t) == #[trigger] o.seg_at(
            kk + t,
        ) by {
            let s = o.ring@[kk + t] as int;
            assert(self.ring@[kk + t] as int == s);
            assert(self.segments@[s].cities == o.segments@[s].cities);
            assert(self.segments@[s].reverse == o.segments@[s].reverse) by {
                assert(self.segments@[o.ring@[kk + t] as int].reverse == o.segments@[o.ring@[kk
                    + t] as int].reverse);
            }
        }
        lemma_range_map(self, o, kk, kk, m - kk);
        self.lemma_tour_is_range();
        o.lemma_tour_is_range();
        self.lemma_range_concat(0, kk, m);
        o.lemma_range_seq_subrange(0, kk);
        o.lemma_range_seq_subrange(kk, m);
        o.lemma_tour_prefix_len(m);
        assert(o.range_seq(0, kk) =~= o@.take(o.prefix_len(kk)));
        assert(o.range_seq(kk, m) =~= o@.skip(o.prefix_len(kk)));
        assert(self@ == o@.take(o.prefix_len(kk)).reverse() + o@.skip(o.prefix_len(kk)));
        assert(self@.len() == n) by {
            assert(o@.len() == n);
        }
    }

    /// The entry at logical index `i` of the segment at ring position `p` is
    /// the vertex registered there.
    proof fn lemma_at_window(self, p: int, i: int)
        requires
            self.wf_struct(),
            0 <= p < self.m_spec(),
            0 <= i < self.seg_at(p).len(),
        ensures
            ({
                let u = self.seg_at(p)[i];
                &&& 0 <= u < self.n_spec()
                &&& self.vertices@[u].slot == self.ring@[p]
                &&& self.lrank(u) == i
                &&& self.vpos(u) == self.prefix_len(p) + i
            }),
    {
        let s = self.ring@[p] as int;
        let seg = self.segments@[s];
        let u = self.seg_at(p)[i];
        if seg.reverse {
            let phys = seg.cities@.len() - 1 - i;
            assert(seg_logical(seg)[i] == seg.cities@.map_values(|x: usize| x as int)[phys]);
            assert(u == seg.cities@[phys]);
        } else {
            assert(seg_logical(seg)[i] == seg.cities@.map_values(|x: usize| x as int)[i]);
            assert(u == seg.cities@[i]);
        }
    }

    /// When a vertex's successor begins a segment, the vertex itself closes
    /// the ring position just before: the run of whole segments from
    /// position 0 up to the vertex's segment covers exactly the tour prefix
    /// ending at the vertex.
    proof fn lemma_last_of_prev(self, y: int, w: int)
        requires
            self.wf_struct(),
            0 <= y < self.n_spec(),
            0 <= w < self.n_spec(),
            y != w,
            w == succ_of(self@, y),
            self.lrank(w) == 0,
        ensures
            ({
                let py = self.pos@[self.vertices@[y].slot as int] as int;
                self.vpos(y) == self.prefix_len(py + 1) - 1
            }),
    {
        let n = self.n_spec();
        let m = self.m_spec();
        self.lemma_wf_perm();
        self.lemma_vpos(y);
        self.lemma_window(y);
        let py = self.pos@[self.vertices@[y].slot as int] as int;
        lemma_mod_shift(self.vpos(y) + 1, n);
        assert(self.prefix_len(py + 1) == self.prefix_len(py) + self.seg_at(py).len());
        if self.vpos(y) + 1 < n {
            let j = (self.vpos(y) + 1) % n;
            assert(j == self.vpos(y) + 1);
            assert(self@[j] == w);
            if self.lrank(y) + 1 < self.seg_at(py).len() {
                self.lemma_at_window(py, self.lrank(y) + 1);
                self.lemma_tour_index(py, self.lrank(y) + 1);
                assert(self@[self.prefix_len(py) + self.lrank(y) + 1] == self.seg_at(py)[self.lrank(
                    y,
                ) + 1]);
                assert(self.seg_at(py)[self.lrank(y) + 1] == w);
                assert(self.lrank(w) == self.lrank(y) + 1);
                assert(false);
            }
        } else {
            self.lemma_prefix_mono(py + 1, m);
            self.lemma_tour_prefix_len(m);
            assert(self.prefix_len(py + 1) <= n);
        }
    }

    /// Replace the tour edges `(from_a, to_a)` and `(from_b, to_b)` by
    /// `(from_a, from_b)` and `(to_a, to_b)`, reversing the shorter of the
    /// two arcs between them (on a tie, the arc that starts at `to_a`).
    /// The four ids must be pairwise distinct, with `to_a` the successor of
    /// `from_a` and `to_b` the successor of `from_b`.  Average cost
    /// O(sqrt n): at most two segment cuts, a ring rotation and a
    /// whole-segment run reversal.
    #[verifier::rlimit(100)]
    #[verifier::spinoff_prover]
    pub fn flip_at(&mut self, from_a: usize, to_a: usize, from_b: usize, to_b: usize)
        requires
            old(self).wf(),
            valid_flip(
                old(self)@,
                from_a as int,
                to_a as int,
                from_b as int,
                to_b as int,
            ),
        ensures
            final(self).wf(),
            final(self)@ == flip_view(
                old(self)@,
                from_a as int,
                to_a as int,
                from_b as int,
                to_b as int,
            ),
            final(self).container == old(self).container,
            final(self).max_len == old(self).max_len,
            final(self).n_spec() == old(self).n_spec(),
            forall|u: int|
                0 <= u < old(self).n_spec() ==> final(self).visited_of(u) == old(self).visited_of(
                    u,
                ),
    {
        let ghost o = *old(self);
        let ghost nn = o.n_spec();
        let ghost aa = from_a as int;
        let ghost bb = to_a as int;
        let ghost cc = from_b as int;
        let ghost dd = to_b as int;
        proof {
            o.lemma_wf_perm();
            lemma_flip_arcs_partition(o@, nn, aa, bb, cc, dd);
        }
        let a = from_a;
        let b = to_a;
        let c = from_b;
        let d = to_b;
        let n = self.vertices.len();
        let ib = self.tour_position(b);
        let ic = self.tour_position(c);
        let k1 = (if ic >= ib {
            ic - ib
        } else {
            (n - ib) + ic
        }) + 1;
        proof {
            assert(ib as int == idx_of(o@, bb) && ic as int == idx_of(o@, cc));
            assert(k1 as int == arc_dist(ib as int, ic as int, nn) + 1);
            assert(2 <= k1 as int <= nn - 2);
        }
        let (x, y, k) = if k1 <= n - k1 {
            (b, c, k1)
        } else {
            (d, a, n - k1)
        };
        let ghost xx = x as int;
        let ghost yy = y as int;
        let ghost kk = k as int;
        let ghost ww = if k1 <= n - k1 {
            dd
        } else {
            bb
        };
        proof {
            // the chosen arc runs x .. y with w = succ(y) the far boundary
            assert(ww == succ_of(o@, yy));
            assert(kk == arc_dist(idx_of(o@, xx), idx_of(o@, yy), nn) + 1) by {
                if k1 <= n - k1 {
                } else {
                    assert(arc_dist(idx_of(o@, dd), idx_of(o@, aa), nn) + 1 == nn - k1 as int);
                }
            }
            assert(2 <= kk <= nn - 2);
        }
        // cut so that both boundary successors begin segments
        self.split_before(b);
        self.split_before(d);
        proof {
            assert(self@ == o@);
            assert(self.lrank(bb) == 0 && self.lrank(dd) == 0);
            assert(self.lrank(xx) == 0);
        }
        // rotate the ring so the arc starts the tour
        let px = self.pos[self.vertices[x].slot];
        let ghost s3pre = *self;
        proof {
            assert((px as int) < s3pre.m_spec());
        }
        self.align_ring(px);
        let ghost s3 = *self;
        let ghost rot = s3pre.prefix_len(px as int);
        proof {
            assert(s3@ == rotate_seq(o@, rot));
            lemma_perm_rotate(o@, nn, rot);
            s3.lemma_wf_perm();
            lemma_mod_shift(0 + px as int, s3pre.m_spec());
            // x still begins its segment, now at ring position 0
            assert(s3.lrank(xx) == s3pre.lrank(xx));
            assert(s3.ring@[0] == s3pre.ring@[px as int]);
            assert(s3.pos@[s3.vertices@[xx].slot as int] as int == 0) by {
                assert(s3.vertices@[xx].slot == s3pre.vertices@[xx].slot);
            }
            assert(s3.vpos(xx) == 0);
            // and the arc boundary data carries over to the rotated tour
            lemma_idx_of_rotate(o@, nn, rot, xx);
            lemma_idx_of_rotate(o@, nn, rot, yy);
            assert(idx_of(s3@, xx) == s3.vpos(xx)) by {
                s3.lemma_vpos(xx);
                lemma_idx_of_exact(s3@, s3.vpos(xx));
            }
            assert(idx_of(s3@, xx) == 0);
            lemma_perm_idx_of(o@, nn, xx);
            lemma_perm_idx_of(o@, nn, yy);
            lemma_arc_dist_shift(idx_of(o@, xx), idx_of(o@, yy), nn - rot, nn);
            lemma_mod_shift(idx_of(o@, xx) + nn - rot, nn);
            lemma_mod_shift(idx_of(o@, yy) + nn - rot, nn);
            assert(arc_dist(idx_of(s3@, xx), idx_of(s3@, yy), nn) == kk - 1);
            assert(idx_of(s3@, yy) == kk - 1) by {
                assert(arc_dist(0, idx_of(s3@, yy), nn) == idx_of(s3@, yy));
            }
            // y closes the ring position of its segment
            lemma_succ_of_rotate(o@, nn, rot, yy);
            assert(ww == succ_of(s3@, yy));
            assert(s3.lrank(ww) == s3pre.lrank(ww));
            s3.lemma_last_of_prev(yy, ww);
            s3.lemma_vpos(yy);
            assert(s3.vpos(yy) == idx_of(s3@, yy)) by {
                lemma_idx_of_exact(s3@, s3.vpos(yy));
            }
        }
        // reverse the run of whole segments that is the arc
        let mring = self.ring.len();
        let py = self.pos[self.vertices[y].slot];
        proof {
            assert(s3.prefix_len(py as int + 1) == kk);
            assert((py as int) < s3.m_spec());
            assert(mring as int == s3.m_spec());
            assert(py < mring);
            s3.lemma_prefix_mono(0, py as int);
            assert(s3.prefix_len(py as int + 1) >= s3.seg_at(py as int).len());
        }
        self.reverse_run_front(py + 1);
        proof {
            assert(self@ == s3@.take(kk).reverse() + s3@.skip(kk));
            lemma_rotate_full(s3@);
            assert(rotate_seq(s3@, 0) == s3@);
            assert(self@ == flip_arc(s3@, 0, kk));
            lemma_flip_arc_anchor(o@, nn, rot, xx, kk);
            assert(flip_arc(s3@, idx_of(s3@, xx), kk) == flip_arc(o@, idx_of(o@, xx), kk));
            assert(self@ == flip_view(o@, aa, bb, cc, dd)) by {
                assert(2 * (k1 as int) <= nn <==> k1 <= n - k1);
            }
        }
        // the 2-opt length delta keeps the cached total current
        let dab = self.container.distance_at(a, b);
        let dcd = self.container.distance_at(c, d);
        let dac = self.container.distance_at(a, c);
        let dbd = self.container.distance_at(b, d);
        proof {
            self.lemma_flip_total_shift(o, aa, bb, cc, dd, xx, yy, ww, kk);
        }
        let ghost f0 = *self;
        let t1 = self.total_dist - dab as u128;
        let t2 = t1 - dcd as u128;
        let t3 = t2 + dac as u128;
        self.total_dist = t3 + dbd as u128;
        proof {
            lemma_wf_struct_frame(f0, *self);
            assert(self@ == flip_view(o@, aa, bb, cc, dd));
            assert(self.total_dist as int == tour_dist(
                self.container.metric,
                self.container.nodes@,
                self@,
            ));
            assert forall|u: int| 0 <= u < nn implies self.visited_of(u) == o.visited_of(u) by {
                assert(self.vertices@ == f0.vertices@);
            }
        }
    }

    /// `flip_at` behind a run-time check of its precondition: flips and
    /// returns `true` when the four ids are pairwise distinct adjacent
    /// pairs, and leaves the tour untouched otherwise.
    pub fn try_flip_at(&mut self, from_a: usize, to_a: usize, from_b: usize, to_b: usize) -> (r:
        bool)
        requires
            old(self).wf(),
        ensures
            final(self).wf(),
            r == valid_flip(
                old(self)@,
                from_a as int,
                to_a as int,
                from_b as int,
                to_b as int,
            ),
            r ==> final(self)@ == flip_view(
                old(self)@,
                from_a as int,
                to_a as int,
                from_b as int,
                to_b as int,
            ),
            !r ==> *final(self) == *old(self),
            final(self).container == old(self).container,
            final(self).max_len == old(self).max_len,
            final(self).n_spec() == old(self).n_spec(),
            forall|u: int|
                0 <= u < old(self).n_spec() ==> final(self).visited_of(u) == old(self).visited_of(
                    u,
                ),
    {
        proof {
            self.lemma_wf_perm();
        }
        let n = self.vertices.len();
        if from_a >= n || to_a >= n || from_b >= n || to_b >= n {
            return false;
        }
        if from_a == to_a || from_a == from_b || from_a == to_b || to_a == from_b || to_a == to_b
            || from_b == to_b {
            return false;
        }
        let sa = self.next_id(from_a);
        if sa != to_a {
            return false;
        }
        let sc = self.next_id(from_b);
        if sc != to_b {
            return false;
        }
        self.flip_at(from_a, to_a, from_b, to_b);
        true
    }

    /// The arithmetic behind `flip_at`'s O(1) total-distance update: the new
    /// tour is exactly the classic 2-opt delta away, and neither the
    /// subtractions nor the additions can leave `u128`.
    proof fn lemma_flip_total_shift(
        self,
        o: TwoLevelList,
        aa: int,
        bb: int,
        cc: int,
        dd: int,
        xx: int,
        yy: int,
        ww: int,
        kk: int,
    )
        requires
            o.wf(),
            valid_flip(o@, aa, bb, cc, dd),
            self.container == o.container,
            self@ == flip_arc(o@, idx_of(o@, xx), kk),
            (xx == bb && yy == cc && ww == dd) || (xx == dd && yy == aa && ww == bb),
            2 <= kk <= o.n_spec() - 2,
            kk == arc_dist(idx_of(o@, xx), idx_of(o@, yy), o.n_spec()) + 1,
        ensures
            ({
                let kind = o.container.metric;
                let nodes = o.container.nodes@;
                let dab = dist_spec(kind, nodes[aa], nodes[bb]);
                let dcd = dist_spec(kind, nodes[cc], nodes[dd]);
                let dac = dist_spec(kind, nodes[aa], nodes[cc]);
                let dbd = dist_spec(kind, nodes[bb], nodes[dd]);
                &&& dab + dcd <= o.total_dist as int
                &&& tour_dist(kind, nodes, self@) == o.total_dist as int - dab - dcd + dac + dbd
                &&& tour_dist(kind, nodes, self@) <= (usize::MAX as int) * (MAX_EDGE_DIST as int)
                &&& (usize::MAX as int) * (MAX_EDGE_DIST as int) + 1 < u128::MAX as int
            }),
    {
        let n = o.n_spec();
        let kind = o.container.metric;
        let nodes = o.container.nodes@;
        let i = idx_of(o@, xx);
        o.lemma_wf_perm();
        lemma_flip_arcs_partition(o@, n, aa, bb, cc, dd);
        lemma_perm_idx_of(o@, n, xx);
        lemma_perm_idx_of(o@, n, yy);
        lemma_perm_idx_of(o@, n, ww);
        lemma_perm_idx_of(o@, n, aa);
        lemma_perm_idx_of(o@, n, bb);
        lemma_perm_idx_of(o@, n, cc);
        lemma_perm_idx_of(o@, n, dd);
        assert(n <= usize::MAX as int) by {
            assert(o.vertices.len() == o.vertices@.len());
        }
        crate::tour::dist::lemma_flip_arc_dist(kind, nodes, o@, i, kk);
        // name the four corner ids of the reversed arc
        lemma_mod_shift(i + kk - 1, n);
        lemma_mod_shift(i + kk, n);
        lemma_mod_shift(i + n - 1, n);
        assert(o@[i] == xx);
        // the arc's last id is y
        assert(o@[(i + kk - 1) % n] == yy) by {
            assert((i + (kk - 1)) % n == (i + arc_dist(i, idx_of(o@, yy), n)) % n);
            lemma_mod_shift(i + arc_dist(i, idx_of(o@, yy), n), n);
        }
        // the id after the arc is w, the id before the arc is the other end
        let pxid = o@[(i + n - 1) % n];
        let swid = o@[(i + kk) % n];
        if xx == bb {
            // pred(b) == a and the position after c holds d
            assert(idx_of(o@, bb) == (idx_of(o@, aa) + 1) % n);
            lemma_mod_shift(idx_of(o@, aa) + 1, n);
            assert(pxid == aa) by {
                if idx_of(o@, aa) + 1 < n {
                    assert((i + n - 1) % n == idx_of(o@, aa));
                } else {
                    assert(i == 0);
                    assert((i + n - 1) % n == n - 1);
                }
            }
            assert(swid == dd) by {
                assert(idx_of(o@, dd) == (idx_of(o@, cc) + 1) % n);
                lemma_mod_shift(idx_of(o@, cc) + 1, n);
                assert((i + kk - 1) % n == idx_of(o@, cc));
                lemma_mod_shift(((i + kk - 1) % n) + 1, n);
                assert((i + kk) % n == (idx_of(o@, cc) + 1) % n) by {
                    if (i + kk - 1) < n {
                    } else {
                    }
                }
            }
            lemma_dist_symm_all(kind, nodes, aa, bb, cc, dd);
        } else {
            // x == d, y == a: pred(d) == c, succ(a) == b
            assert(idx_of(o@, dd) == (idx_of(o@, cc) + 1) % n);
            lemma_mod_shift(idx_of(o@, cc) + 1, n);
            assert(pxid == cc) by {
                if idx_of(o@, cc) + 1 < n {
                    assert((i + n - 1) % n == idx_of(o@, cc));
                } else {
                    assert(i == 0);
                    assert((i + n - 1) % n == n - 1);
                }
            }
            assert(swid == bb) by {
                assert(idx_of(o@, bb) == (idx_of(o@, aa) + 1) % n);
                lemma_mod_shift(idx_of(o@, aa) + 1, n);
                assert((i + kk - 1) % n == idx_of(o@, aa));
                lemma_mod_shift(((i + kk - 1) % n) + 1, n);
                assert((i + kk) % n == (idx_of(o@, aa) + 1) % n) by {
                    if (i + kk - 1) < n {
                    } else {
                    }
                }
            }
            lemma_dist_symm_all(kind, nodes, aa, bb, cc, dd);
        }
        // bounds for the u128 bookkeeping
        assert(forall|t: int| 0 <= t < self@.len() ==> 0 <= #[trigger] self@[t] < n) by {
            lemma_flip_arc_perm(o@, n, i, kk);
        }
        assert(self@.len() == n) by {
            lemma_flip_arc_perm(o@, n, i, kk);
        }
        lemma_tour_dist_bound(kind, nodes, self@);
        assert(self@.len() * (MAX_EDGE_DIST as int) <= (usize::MAX as int) * (
        MAX_EDGE_DIST as int)) by (nonlinear_arith)
            requires
                0 <= self@.len() <= usize::MAX as int,
        ;
        assert((usize::MAX as int) * (MAX_EDGE_DIST as int) + 1 < u128::MAX as int)
            by (nonlinear_arith);
    }

    /// The vertex after `node` on the tour.
    pub fn successor(&self, node: &TllNode) -> (r: Option<&TllNode>)
        requires
            self.wf(),
        ensures
            match r {
                Some(out) => {
                    &&& (node.id as int) < self.n_spec()
                    &&& out.id as int == succ_of(self@, node.id as int)
                    &&& *out == self.vertices@[out.id as int]
                },
                None => node.id >= self.n_spec(),
            },
    {
        self.successor_at(node.index())
    }

    /// The vertex before `node` on the tour.
    pub fn predecessor(&self, node: &TllNode) -> (r: Option<&TllNode>)
        requires
            self.wf(),
        ensures
            match r {
                Some(out) => {
                    &&& (node.id as int) < self.n_spec()
                    &&& out.id as int == pred_of(self@, node.id as int)
                    &&& *out == self.vertices@[out.id as int]
                },
                None => node.id >= self.n_spec(),
            },
    {
        self.predecessor_at(node.index())
    }
}

} // verus!
