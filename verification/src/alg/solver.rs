//! Greedy tour construction: start somewhere, repeatedly jump to the
//! nearest city not yet visited, breaking distance ties by the lowest id.

use vstd::prelude::*;

use crate::node::{dist_spec, MetricKind, Node};
use crate::tour::cyclic::{lemma_missing_value, lemma_perm_complete, perm_of};
use crate::tour::tll::{appears, TwoLevelList};
use crate::tour::{TourOrder, UpdateTourError};

verus! {

/// Would `cand` be a strictly better greedy pick from `from` than `best`:
/// strictly nearer, or equally near with a lower id.
pub open spec fn better_pick(
    kind: MetricKind,
    nodes: Seq<Node>,
    from: int,
    cand: int,
    best: int,
) -> bool {
    let dc = dist_spec(kind, nodes[cand], nodes[from]);
    let db = dist_spec(kind, nodes[best], nodes[from]);
    dc < db || (dc == db && cand < best)
}

/// `s` is a greedy tour: each city is followed by the best pick among the
/// cities that come later (exactly those still unvisited at that step).
pub open spec fn greedy_order(kind: MetricKind, nodes: Seq<Node>, s: Seq<int>) -> bool {
    forall|i: int, j: int|
        0 <= i && i + 1 < j < s.len() ==> !#[trigger] better_pick(kind, nodes, s[i], s[j], s[i + 1])
}

/// The id the greedy construction starts from.
pub open spec fn start_of(starter: Option<usize>) -> int {
    match starter {
        Some(s) => s as int,
        None => 0,
    }
}

/// Construct a tour greedily and apply it.  Fails, leaving the tour
/// unchanged, iff the starter names no city of a non-empty tour.
#[verifier::loop_isolation(false)]
pub fn solve_greedy(tour: &mut TwoLevelList, starter: Option<usize>) -> (r: Result<
    (),
    UpdateTourError,
>)
    requires
        old(tour).wf(),
    ensures
        final(tour).wf(),
        final(tour).container == old(tour).container,
        final(tour).max_len == old(tour).max_len,
        final(tour).n_spec() == old(tour).n_spec(),
        r == Ok::<(), UpdateTourError>(()) <==> (old(tour).n_spec() == 0 || start_of(starter) < old(
            tour,
        ).n_spec()),
        r.is_err() ==> *final(tour) == *old(tour) && r == Err::<(), UpdateTourError>(
            UpdateTourError::NodeNotFound,
        ),
        old(tour).n_spec() == 0 ==> *final(tour) == *old(tour),
        (r == Ok::<(), UpdateTourError>(()) && old(tour).n_spec() > 0) ==> {
            &&& perm_of(final(tour)@, old(tour).n_spec())
            &&& final(tour)@[0] == start_of(starter)
            &&& greedy_order(old(tour).container.metric, old(tour).container.nodes@, final(tour)@)
            &&& forall|u: int| 0 <= u < old(tour).n_spec() ==> final(tour).visited_of(u)
        },
{
    let ghost kind = tour.container.metric;
    let ghost nodes = tour.container.nodes@;
    let n = tour.len();
    if n == 0 {
        return Ok(());
    }
    let start = match starter {
        Some(s) => s,
        None => 0,
    };
    if start >= n {
        return Err(UpdateTourError::NodeNotFound);
    }
    tour.reset();
    let mut v: Vec<usize> = Vec::new();
    v.push(start);
    tour.visited_at(start, true);
    let mut node = start;
    proof {
        assert(v@[0] == start);
        assert(appears(v@, 1, start as int));
    }
    while v.len() < n
        invariant
            1 <= v@.len() <= n,
            tour.wf(),
            tour.container == old(tour).container,
            tour.max_len == old(tour).max_len,
            tour.n_spec() == n as int,
            kind == tour.container.metric,
            nodes == tour.container.nodes@,
            node < n,
            v@[0] == start,
            v@[v@.len() - 1] == node,
            forall|i: int| 0 <= i < v@.len() ==> (#[trigger] v@[i]) < n,
            forall|i: int, j: int| 0 <= i < j < v@.len() ==> v@[i] != v@[j],
            forall|u: int|
                0 <= u < n ==> (tour.visited_of(u) <==> appears(v@, v@.len() as int, u)),
            // the chosen successor of each step beats every id that was
            // still unvisited at that step
            forall|i: int, u: int|
                0 <= i && i + 1 < v@.len() && 0 <= u < n && !appears(v@, i + 1, u)
                    ==> !#[trigger] better_pick(kind, nodes, v@[i] as int, u, v@[i + 1] as int),
        decreases n - v.len(),
    {
        // find the nearest unvisited city, lowest id on ties
        let mut best: usize = 0;
        let mut best_d: u64 = 0;
        let mut found = false;
        let mut u: usize = 0;
        while u < n
            invariant
                0 <= u <= n,
                node < n,
                tour.wf(),
                tour.n_spec() == n as int,
                kind == tour.container.metric,
                nodes == tour.container.nodes@,
                found <==> exists|w: int| 0 <= w < u && !tour.visited_of(w),
                found ==> {
                    &&& best < u
                    &&& !tour.visited_of(best as int)
                    &&& best_d as int == dist_spec(kind, nodes[best as int], nodes[node as int])
                    &&& forall|w: int|
                        0 <= w < u && !tour.visited_of(w) ==> !better_pick(
                            kind,
                            nodes,
                            node as int,
                            w,
                            best as int,
                        )
                },
            decreases n - u,
        {
            if !tour.vertices[u].visited {
                let d = tour.container.distance_at(u, node);
                if !found || d < best_d || (d == best_d && u < best) {
                    best = u;
                    best_d = d;
                    found = true;
                }
            }
            proof {
                if found {
                    assert(0 <= (best as int) < u + 1 && !tour.visited_of(best as int));
                }
            }
            u = u + 1;
        }
        proof {
            // some city is still unvisited, so the scan found one
            if !found {
                let miss = lemma_missing_value(
                    v@.map_values(|x: usize| x as int),
                    n as int,
                );
                assert(!appears(v@, v@.len() as int, miss)) by {
                    if appears(v@, v@.len() as int, miss) {
                        let i = choose|i: int|
                            0 <= i < v@.len() && (#[trigger] v@[i]) as int == miss;
                        assert(v@.map_values(|x: usize| x as int)[i] == miss);
                    }
                }
                assert(!tour.visited_of(miss));
                assert(false);
            }
        }
        let ghost vpre = v@;
        let ghost from = node;
        let ghost tpre = *tour;
        v.push(best);
        tour.visited_at(best, true);
        node = best;
        proof {
            assert forall|uu: int|
                0 <= uu < n implies (tour.visited_of(uu) <==> appears(v@, v@.len() as int, uu)) by {
                if uu == best as int {
                    assert(v@[v@.len() - 1] == best);
                } else {
                    if appears(v@, v@.len() as int, uu) {
                        let i = choose|i: int|
                            0 <= i < v@.len() && (#[trigger] v@[i]) as int == uu;
                        assert(i < vpre.len());
                        assert(vpre[i] == v@[i]);
                        assert(appears(vpre, vpre.len() as int, uu));
                    }
                    if appears(vpre, vpre.len() as int, uu) {
                        let i = choose|i: int|
                            0 <= i < vpre.len() && (#[trigger] vpre[i]) as int == uu;
                        assert(v@[i] == vpre[i]);
                    }
                }
            }
            assert forall|i: int, j: int| 0 <= i < j < v@.len() implies v@[i] != v@[j] by {
                if j == v@.len() - 1 {
                    if v@[i] == v@[j] {
                        assert(appears(vpre, vpre.len() as int, best as int));
                    }
                }
            }
            assert forall|i: int, uu: int|
                0 <= i && i + 1 < v@.len() && 0 <= uu < n && !appears(v@, i + 1, uu)
                    implies !#[trigger] better_pick(
                kind,
                nodes,
                v@[i] as int,
                uu,
                v@[i + 1] as int,
            ) by {
                assert forall|t: int| 0 <= t < vpre.len() implies v@[t] == vpre[t] by {}
                assert(!appears(vpre, i + 1, uu)) by {
                    if appears(vpre, i + 1, uu) {
                        let t = choose|t: int| 0 <= t < i + 1 && (#[trigger] vpre[t]) as int == uu;
                        assert(v@[t] == vpre[t]);
                    }
                }
                if i + 1 < vpre.len() {
                } else {
                    // the new edge: the scan minimised over the then-unvisited
                    assert(i + 1 == vpre.len());
                    assert(v@[i] == vpre[vpre.len() - 1]);
                    assert(v@[i] == from);
                    assert(v@[i + 1] == best);
                    assert(!tpre.visited_of(uu));
                    assert(!better_pick(kind, nodes, from as int, uu, best as int));
                }
            }
        }
    }
    proof {
        // each later city was unvisited at every earlier step
        let ghost vm = v@.map_values(|x: usize| x as int);
        assert forall|i: int, j: int|
            0 <= i && i + 1 < j < v@.len() implies !#[trigger] better_pick(
            kind,
            nodes,
            vm[i],
            vm[j],
            vm[i + 1],
        ) by {
            let uu = v@[j] as int;
            assert(!appears(v@, i + 1, uu)) by {
                if appears(v@, i + 1, uu) {
                    let t = choose|t: int| 0 <= t < i + 1 && (#[trigger] v@[t]) as int == uu;
                    assert(v@[t] != v@[j]);
                }
            }
            assert(!better_pick(kind, nodes, v@[i] as int, uu, v@[i + 1] as int));
        }
    }
    proof {
        lemma_perm_complete(v@.map_values(|x: usize| x as int), n as int);
        assert(greedy_order(kind, nodes, v@.map_values(|x: usize| x as int)));
    }
    let ghost vm = v@.map_values(|x: usize| x as int);
    let ghost pre_apply = *tour;
    let res = tour.apply(&TourOrder::with_ord(v));
    proof {
        assert(res == Ok::<(), UpdateTourError>(()));
        assert(tour@ == vm);
        assert(tour@[0] == start as int);
        assert forall|uu: int| 0 <= uu < n implies tour.visited_of(uu) by {
            assert(vm.contains(uu));
            let i = choose|i: int| 0 <= i < vm.len() && vm[i] == uu;
            assert(v@[i] as int == uu);
            assert(appears(v@, v@.len() as int, uu));
            assert(pre_apply.visited_of(uu));
        }
    }
    res
}

} // verus!
