//! The reference tour representation: a plain permutation array and its
//! inverse.  Queries are O(1); `flip` rewrites the whole array.  It exists
//! so that the two-level list can be checked against it on the same
//! sequences of moves.

use vstd::prelude::*;

use crate::node::Container;
use crate::tour::cyclic::{
    arc_dist, between_of, flip_arc, flip_view, idx_of, lemma_flip_arc_index, lemma_flip_arc_perm,
    lemma_flip_arcs_partition, lemma_mod_shift, lemma_perm_complete, lemma_perm_distinct,
    lemma_perm_idx_of, lemma_rank_between_cyc, perm_of, pred_of, succ_of, valid_flip,
};
use crate::tour::dist::{total_of_order, tour_dist};
use crate::tour::{TourOrder, UpdateTourError};

verus! {

/// The array-backed tour.
pub struct Array {
    /// The viewed cities; immutable for the tour's lifetime.
    pub container: Container,
    /// Position on the tour -> city id.
    pub order: Vec<usize>,
    /// City id -> position on the tour; inverse of `order`.
    pub position: Vec<usize>,
    /// Scratch flags, by city id.
    pub visited: Vec<bool>,
    /// The tour's total length, kept current across every mutation.
    pub total_dist: u128,
}

impl View for Array {
    type V = Seq<int>;

    /// The tour as the cyclic sequence of city ids it visits.
    open spec fn view(&self) -> Seq<int> {
        self.order@.map_values(|u: usize| u as int)
    }
}

impl Array {
    pub open spec fn n_spec(self) -> int {
        self.container.nodes@.len() as int
    }

    pub open spec fn visited_of(self, v: int) -> bool {
        self.visited@[v]
    }

    pub open spec fn wf(self) -> bool {
        &&& self.container.wf()
        &&& self.order@.len() == self.n_spec()
        &&& self.position@.len() == self.n_spec()
        &&& self.visited@.len() == self.n_spec()
        &&& perm_of(self@, self.n_spec())
        &&& forall|p: int|
            0 <= p < self.n_spec() ==> ((#[trigger] self.position@[self.order@[p] as int]) as int)
                == p
        &&& self.total_dist as int == tour_dist(self.container.metric, self.container.nodes@, self@)
    }

    /// Positions invert ids: `position` really is the inverse permutation.
    pub proof fn lemma_position(self, v: int)
        requires
            self.wf(),
            0 <= v < self.n_spec(),
        ensures
            idx_of(self@, v) == self.position@[v] as int,
            (self.position@[v] as int) < self.n_spec(),
            self@[self.position@[v] as int] == v,
            self.order@[self.position@[v] as int] as int == v,
    {
        let n = self.n_spec();
        lemma_perm_idx_of(self@, n, v);
        let i = idx_of(self@, v);
        assert(self@[i] == v);
        assert(self.order@[i] as int == v);
        assert(self.position@[self.order@[i] as int] as int == i);
    }

    /// A fresh array tour over `container`'s cities in id order.
    fn fresh(container: &Container) -> (r: Array)
        requires
            container.wf(),
        ensures
            r.wf(),
            r.container.nodes@ == container.nodes@,
            r.container.metric == container.metric,
            r@ == Seq::new(container.nodes@.len() as nat, |i: int| i),
            forall|v: int| 0 <= v < r.n_spec() ==> !r.visited_of(v),
    {
        let n = container.len();
        let mut nodes: Vec<crate::node::Node> = Vec::new();
        let mut i: usize = 0;
        while i < n
            invariant
                0 <= i <= n,
                n == container.nodes@.len(),
                nodes@ == container.nodes@.take(i as int),
            decreases n - i,
        {
            nodes.push(container.nodes[i]);
            proof {
                assert(nodes@ =~= container.nodes@.take(i + 1));
            }
            i = i + 1;
        }
        proof {
            assert(nodes@ =~= container.nodes@);
        }
        let own = Container { nodes, metric: container.metric };
        let mut order: Vec<usize> = Vec::new();
        let mut position: Vec<usize> = Vec::new();
        let mut visited: Vec<bool> = Vec::new();
        let mut v: usize = 0;
        while v < n
            invariant
                0 <= v <= n,
                order@.len() == v,
                position@.len() == v,
                visited@.len() == v,
                forall|t: int| 0 <= t < v ==> (#[trigger] order@[t]) == t,
                forall|t: int| 0 <= t < v ==> (#[trigger] position@[t]) == t,
                forall|t: int| 0 <= t < v ==> !(#[trigger] visited@[t]),
            decreases n - v,
        {
            order.push(v);
            position.push(v);
            visited.push(false);
            v = v + 1;
        }
        let ghost ident = Seq::new(n as nat, |i: int| i);
        proof {
            assert(order@.map_values(|u: usize| u as int) =~= ident);
            lemma_perm_complete(ident, n as int);
        }
        let total = total_of_order(&own, &order);
        Array { container: own, order, position, visited, total_dist: total }
    }

    /// A fresh array tour; kept under the name the call sites use.
    pub fn new(container: &Container) -> (r: Array)
        requires
            container.wf(),
        ensures
            r.wf(),
            r.container.nodes@ == container.nodes@,
            r.container.metric == container.metric,
            r@ == Seq::new(container.nodes@.len() as nat, |i: int| i),
            forall|v: int| 0 <= v < r.n_spec() ==> !r.visited_of(v),
    {
        Array::fresh(container)
    }

    /// Make the tour exactly `tour`'s order; the same contract as the
    /// two-level list's `apply`.
    #[verifier::loop_isolation(false)]
    pub fn apply(&mut self, tour: &TourOrder) -> (r: Result<(), UpdateTourError>)
        requires
            old(self).wf(),
        ensures
            final(self).wf(),
            final(self).container == old(self).container,
            final(self).n_spec() == old(self).n_spec(),
            forall|v: int|
                0 <= v < old(self).n_spec() ==> final(self).visited_of(v) == old(self).visited_of(
                    v,
                ),
            r == Ok::<(), UpdateTourError>(()) <==> tour.valid(old(self).n_spec()),
            r == Ok::<(), UpdateTourError>(()) ==> final(self)@ == tour@,
            r.is_err() ==> *final(self) == *old(self),
            r == Err::<(), UpdateTourError>(UpdateTourError::NodeNotFound) <==> (tour@.len() == old(
                self,
            ).n_spec() && exists|i: int| 0 <= i < tour@.len() && #[trigger] tour@[i] >= old(
                self,
            ).n_spec()),
            r == Err::<(), UpdateTourError>(UpdateTourError::BadPermutation) <==> (tour@.len()
                != old(self).n_spec() || ((forall|i: int|
                0 <= i < tour@.len() ==> 0 <= #[trigger] tour@[i] < old(self).n_spec()) && exists|
                i: int,
                j: int,
            | 0 <= i < j < tour@.len() && tour@[i] == tour@[j])),
    {
        let n = self.position.len();
        proof {
            assert(n as int == self.n_spec());
        }
        let order = tour.order();
        if order.len() != n {
            return Err(UpdateTourError::BadPermutation);
        }
        let mut i: usize = 0;
        while i < n
            invariant
                0 <= i <= n,
                forall|j: int| 0 <= j < i ==> (#[trigger] order@[j]) < n,
            decreases n - i,
        {
            if order[i] >= n {
                proof {
                    assert(tour@[i as int] >= n);
                }
                return Err(UpdateTourError::NodeNotFound);
            }
            i = i + 1;
        }
        let mut seen: Vec<bool> = Vec::new();
        let mut z: usize = 0;
        while z < n
            invariant
                0 <= z <= n,
                seen@.len() == z,
                forall|v: int| 0 <= v < z ==> !(#[trigger] seen@[v]),
            decreases n - z,
        {
            seen.push(false);
            z = z + 1;
        }
        let mut t: usize = 0;
        while t < n
            invariant
                0 <= t <= n,
                seen@.len() == n,
                forall|v: int|
                    0 <= v < n ==> (#[trigger] seen@[v] <==> crate::tour::tll::appears(
                        order@,
                        t as int,
                        v,
                    )),
                forall|i2: int, j2: int| 0 <= i2 < j2 < t ==> order@[i2] != order@[j2],
            decreases n - t,
        {
            let c = order[t];
            if seen[c] {
                proof {
                    let i2 = choose|i2: int|
                        0 <= i2 < t && (#[trigger] order@[i2]) as int == c as int;
                    assert(tour@[i2] == tour@[t as int]);
                }
                return Err(UpdateTourError::BadPermutation);
            }
            seen[c] = true;
            proof {
                assert forall|v: int|
                    0 <= v < n implies (#[trigger] seen@[v] <==> crate::tour::tll::appears(
                    order@,
                    t + 1,
                    v,
                )) by {
                    if v == c as int {
                        assert(order@[t as int] as int == v);
                    } else {
                        if crate::tour::tll::appears(order@, t + 1, v) {
                            let i2 = choose|i2: int|
                                0 <= i2 < t + 1 && (#[trigger] order@[i2]) as int == v;
                            assert(i2 < t);
                        }
                    }
                }
                assert forall|i2: int, j2: int| 0 <= i2 < j2 < t + 1 implies order@[i2]
                    != order@[j2] by {
                    if j2 == t as int {
                        if order@[i2] == order@[j2] {
                            assert(crate::tour::tll::appears(order@, t as int, c as int));
                        }
                    }
                }
            }
            t = t + 1;
        }
        proof {
            assert forall|i2: int, j2: int| 0 <= i2 < j2 < n implies tour@[i2] != tour@[j2] by {
                assert(order@[i2] != order@[j2]);
            }
            lemma_perm_complete(tour@, n as int);
        }
        self.rebuild(order);
        Ok(())
    }

    /// Overwrite the array pair with `order` and recompute the total.
    #[verifier::loop_isolation(false)]
    fn rebuild(&mut self, order: &Vec<usize>)
        requires
            old(self).wf(),
            order@.len() == old(self).n_spec(),
            perm_of(order@.map_values(|u: usize| u as int), old(self).n_spec()),
        ensures
            final(self).wf(),
            final(self)@ == order@.map_values(|u: usize| u as int),
            final(self).container == old(self).container,
            final(self).n_spec() == old(self).n_spec(),
            final(self).visited == old(self).visited,
    {
        let ghost o = order@.map_values(|u: usize| u as int);
        let n = self.position.len();
        let mut new_order: Vec<usize> = Vec::new();
        let mut i: usize = 0;
        while i < n
            invariant
                0 <= i <= n,
                new_order@ == order@.take(i as int),
            decreases n - i,
        {
            new_order.push(order[i]);
            proof {
                assert(new_order@ =~= order@.take(i + 1));
            }
            i = i + 1;
        }
        proof {
            assert(new_order@ =~= order@);
        }
        self.order = new_order;
        let mut p: usize = 0;
        while p < n
            invariant
                0 <= p <= n,
                self.order@ == order@,
                self.container == old(self).container,
                self.visited == old(self).visited,
                self.position@.len() == n,
                forall|t: int|
                    0 <= t < p ==> ((#[trigger] self.position@[order@[t] as int]) as int) == t,
            decreases n - p,
        {
            let c = self.order[p];
            proof {
                assert(o[p as int] == c as int);
                assert(0 <= o[p as int] < n as int);
            }
            self.position[c] = p;
            proof {
                lemma_perm_distinct(o, n as int);
                assert forall|t: int|
                    0 <= t < p + 1 implies ((#[trigger] self.position@[order@[t] as int]) as int)
                    == t by {
                    if t < p {
                        assert(o[t] != o[p as int]);
                    }
                }
            }
            p = p + 1;
        }
        proof {
            assert forall|i2: int| 0 <= i2 < order@.len() implies (#[trigger] order@[i2])
                < self.container.nodes@.len() by {
                assert(o[i2] == order@[i2] as int);
            }
        }
        let total = total_of_order(&self.container, order);
        self.total_dist = total;
        proof {
            assert(self@ == o);
        }
    }

    /// Number of cities on the tour.
    pub fn len(&self) -> (r: usize)
        requires
            self.wf(),
        ensures
            r == self.n_spec(),
    {
        self.position.len()
    }

    /// The id at tour position `index`, or none for a position out of range.
    pub fn get(&self, index: usize) -> (r: Option<usize>)
        requires
            self.wf(),
        ensures
            match r {
                Some(v) => index < self.n_spec() && v as int == self@[index as int],
                None => index >= self.n_spec(),
            },
    {
        if index < self.order.len() {
            Some(self.order[index])
        } else {
            None
        }
    }

    /// The id after `v` on the tour, or none when `v` names no city.
    pub fn successor_at(&self, v: usize) -> (r: Option<usize>)
        requires
            self.wf(),
        ensures
            match r {
                Some(u) => v < self.n_spec() && u as int == succ_of(self@, v as int),
                None => v >= self.n_spec(),
            },
    {
        let n = self.position.len();
        if v >= n {
            return None;
        }
        proof {
            self.lemma_position(v as int);
        }
        let p = self.position[v];
        let q = if p + 1 < n {
            p + 1
        } else {
            0
        };
        proof {
            lemma_mod_shift(p as int + 1, n as int);
        }
        Some(self.order[q])
    }

    /// The id before `v` on the tour, or none when `v` names no city.
    pub fn predecessor_at(&self, v: usize) -> (r: Option<usize>)
        requires
            self.wf(),
        ensures
            match r {
                Some(u) => v < self.n_spec() && u as int == pred_of(self@, v as int),
                None => v >= self.n_spec(),
            },
    {
        let n = self.position.len();
        if v >= n {
            return None;
        }
        proof {
            self.lemma_position(v as int);
        }
        let p = self.position[v];
        let q = if p >= 1 {
            p - 1
        } else {
            n - 1
        };
        proof {
            lemma_mod_shift(p as int + n as int - 1, n as int);
        }
        Some(self.order[q])
    }

    /// Is `mid` strictly inside the forward tour arc `from -> to`?  The ids
    /// must be pairwise distinct; ids that name no city give `false`.
    pub fn between_at(&self, from_index: usize, mid_index: usize, to_index: usize) -> (r: bool)
        requires
            self.wf(),
            from_index != mid_index,
            mid_index != to_index,
            to_index != from_index,
        ensures
            r == if from_index < self.n_spec() && mid_index < self.n_spec() && to_index
                < self.n_spec() {
                between_of(self@, from_index as int, mid_index as int, to_index as int)
            } else {
                false
            },
    {
        let n = self.position.len();
        if from_index >= n || mid_index >= n || to_index >= n {
            return false;
        }
        proof {
            self.lemma_position(from_index as int);
            self.lemma_position(mid_index as int);
            self.lemma_position(to_index as int);
            lemma_perm_distinct(self@, n as int);
        }
        let pa = self.position[from_index];
        let pb = self.position[mid_index];
        let pc = self.position[to_index];
        proof {
            lemma_rank_between_cyc(pa as int, pb as int, pc as int, n as int);
        }
        crate::tour::between(pa, pb, pc)
    }

    /// Replace the tour edges `(from_a, to_a)` and `(from_b, to_b)` by
    /// `(from_a, from_b)` and `(to_a, to_b)`; exactly the two-level list's
    /// move, O(n) here.
    #[verifier::loop_isolation(false)]
    #[verifier::rlimit(100)]
    #[verifier::spinoff_prover]
    pub fn flip_at(&mut self, from_a: usize, to_a: usize, from_b: usize, to_b: usize)
        requires
            old(self).wf(),
            valid_flip(
                old(self)@,
                from_a as int,
                to_a as int,
                from_b as int,
                to_b as int,
            ),
        ensures
            final(self).wf(),
            final(self)@ == flip_view(
                old(self)@,
                from_a as int,
                to_a as int,
                from_b as int,
                to_b as int,
            ),
            final(self).container == old(self).container,
            final(self).n_spec() == old(self).n_spec(),
            final(self).visited == old(self).visited,
    {
        let ghost o = *old(self);
        let ghost nn = o.n_spec();
        let ghost aa = from_a as int;
        let ghost bb = to_a as int;
        let ghost cc = from_b as int;
        let ghost dd = to_b as int;
        proof {
            lemma_flip_arcs_partition(o@, nn, aa, bb, cc, dd);
            o.lemma_position(to_a as int);
            o.lemma_position(from_b as int);
            o.lemma_position(to_b as int);
        }
        let n = self.position.len();
        let ib = self.position[to_a];
        let ic = self.position[from_b];
        let k1 = (if ic >= ib {
            ic - ib
        } else {
            (n - ib) + ic
        }) + 1;
        proof {
            assert(k1 as int == arc_dist(ib as int, ic as int, nn) + 1);
            assert(2 <= k1 as int <= nn - 2);
        }
        let (i, k) = if k1 <= n - k1 {
            (ib, k1)
        } else {
            (self.position[to_b], n - k1)
        };
        let ghost target = flip_view(o@, aa, bb, cc, dd);
        proof {
            assert(target == flip_arc(o@, i as int, k as int)) by {
                assert(2 * (k1 as int) <= nn <==> k1 <= n - k1);
            }
            lemma_flip_arc_index(o@, i as int, k as int);
            lemma_flip_arc_perm(o@, nn, i as int, k as int);
        }
        let mut new_order: Vec<usize> = Vec::new();
        let mut t: usize = 0;
        while t < n
            invariant
                0 <= t <= n,
                i < n,
                1 <= k <= n,
                new_order@.len() == t,
                forall|j: int|
                    0 <= j < t ==> ((#[trigger] new_order@[j]) as int) == target[j],
            decreases n - t,
        {
            let src_pos = if t < k {
                // walking the reversed arc backward
                let off = k - 1 - t;
                if off < n - i {
                    i + off
                } else {
                    off - (n - i)
                }
            } else {
                if t < n - i {
                    i + t
                } else {
                    t - (n - i)
                }
            };
            proof {
                if t < k {
                    lemma_mod_shift(i as int + (k as int - 1 - t as int), nn);
                    assert(target[t as int] == o@[(i as int + k as int - 1 - t as int) % nn]);
                } else {
                    lemma_mod_shift(i as int + t as int, nn);
                    assert(target[t as int] == o@[(i as int + t as int) % nn]);
                }
                assert(0 <= target[t as int] < nn);
            }
            new_order.push(self.order[src_pos]);
            t = t + 1;
        }
        proof {
            assert(new_order@.map_values(|u: usize| u as int) =~= target);
        }
        self.rebuild(&new_order);
    }

    /// `flip_at` behind a run-time check of its precondition: flips and
    /// returns `true` when the four ids are pairwise distinct adjacent
    /// pairs, and leaves the tour untouched otherwise.
    pub fn try_flip_at(&mut self, from_a: usize, to_a: usize, from_b: usize, to_b: usize) -> (r:
        bool)
        requires
            old(self).wf(),
        ensures
            final(self).wf(),
            r == valid_flip(
                old(self)@,
                from_a as int,
                to_a as int,
                from_b as int,
                to_b as int,
            ),
            r ==> final(self)@ == flip_view(
                old(self)@,
                from_a as int,
                to_a as int,
                from_b as int,
                to_b as int,
            ),
            !r ==> *final(self) == *old(self),
            final(self).container == old(self).container,
            final(self).n_spec() == old(self).n_spec(),
    {
        let n = self.position.len();
        if from_a >= n || to_a >= n || from_b >= n || to_b >= n {
            return false;
        }
        if from_a == to_a || from_a == from_b || from_a == to_b || to_a == from_b || to_a == to_b
            || from_b == to_b {
            return false;
        }
        let sa = match self.successor_at(from_a) {
            Some(u) => u,
            None => {
                return false;
            },
        };
        if sa != to_a {
            return false;
        }
        let sc = match self.successor_at(from_b) {
            Some(u) => u,
            None => {
                return false;
            },
        };
        if sc != to_b {
            return false;
        }
        self.flip_at(from_a, to_a, from_b, to_b);
        true
    }

    /// The tour's total length under the container's metric.
    pub fn total_distance(&self) -> (r: u128)
        requires
            self.wf(),
        ensures
            r as int == tour_dist(self.container.metric, self.container.nodes@, self@),
    {
        self.total_dist
    }

    /// Set the scratch flag of city `node_index`; ids beyond the tour are
    /// ignored.
    pub fn visited_at(&mut self, node_index: usize, flag: bool)
        requires
            old(self).wf(),
        ensures
            final(self).wf(),
            final(self)@ == old(self)@,
            final(self).container == old(self).container,
            node_index < old(self).n_spec() ==> forall|v: int|
                0 <= v < old(self).n_spec() ==> final(self).visited_of(v) == (if v
                    == node_index as int {
                    flag
                } else {
                    old(self).visited_of(v)
                }),
            node_index >= old(self).n_spec() ==> *final(self) == *old(self),
    {
        if node_index < self.visited.len() {
            self.visited[node_index] = flag;
        }
    }

    /// Clear every scratch flag.
    #[verifier::loop_isolation(false)]
    pub fn reset(&mut self)
        requires
            old(self).wf(),
        ensures
            final(self).wf(),
            final(self)@ == old(self)@,
            final(self).container == old(self).container,
            forall|v: int| 0 <= v < old(self).n_spec() ==> !final(self).visited_of(v),
    {
        let n = self.visited.len();
        let mut i: usize = 0;
        while i < n
            invariant
                0 <= i <= n,
                self.order == old(self).order,
                self.position == old(self).position,
                self.container == old(self).container,
                self.total_dist == old(self).total_dist,
                self.visited@.len() == n,
                forall|v: int| 0 <= v < i ==> !(#[trigger] self.visited@[v]),
                forall|v: int| i <= v < n ==> self.visited@[v] == old(self).visited@[v],
            decreases n - i,
        {
            self.visited[i] = false;
            i = i + 1;
        }
    }
}

} // verus!
