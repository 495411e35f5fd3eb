//! Executable scenario drivers for the test suite.  Each driver runs one of
//! the library's standard end-to-end scenarios against a tour and reports
//! whether every expected outcome held; the test binaries assert the
//! report.

use vstd::prelude::*;

use crate::node::{Container, MetricKind, COORD_LIMIT};
use crate::tour::array::Array;
use crate::tour::cyclic::{perm_of, pred_of, succ_of};
use crate::tour::tll::TwoLevelList;
use crate::tour::TourOrder;

verus! {

/// A container of `n_nodes` cities at `(i, i, i)` under the squared plane
/// metric: the standard fixture of the scenario suite.
pub fn create_container(n_nodes: usize) -> (r: Container)
    requires
        n_nodes as int <= COORD_LIMIT as int,
    ensures
        r.wf(),
        r.nodes@.len() == n_nodes,
        r.metric == MetricKind::Euc2dSq,
        forall|i: int|
            0 <= i < n_nodes ==> (#[trigger] r.nodes@[i]) == (crate::node::Node {
                index: i as usize,
                x: i as i64,
                y: i as i64,
                z: i as i64,
            }),
{
    let mut container = Container::new(MetricKind::Euc2dSq);
    let mut i: usize = 0;
    while i < n_nodes
        invariant
            0 <= i <= n_nodes,
            n_nodes as int <= COORD_LIMIT as int,
            container.wf(),
            container.metric == MetricKind::Euc2dSq,
            container.nodes@.len() == i,
            forall|t: int|
                0 <= t < i ==> (#[trigger] container.nodes@[t]) == (crate::node::Node {
                    index: t as usize,
                    x: t as i64,
                    y: t as i64,
                    z: t as i64,
                }),
        decreases n_nodes - i,
    {
        container.add(i as i64, i as i64, i as i64);
        i = i + 1;
    }
    container
}

/// Does the tour visit exactly `expected`'s ids in `expected`'s cyclic
/// order, read off through `successor_at` and `predecessor_at`?
pub open spec fn matches_order(t: Seq<int>, n: int, e: Seq<int>) -> bool {
    &&& e.len() == n
    &&& forall|i: int|
        0 <= i < n ==> {
            &&& 0 <= #[trigger] e[i] < n
            &&& succ_of(t, e[i]) == e[(i + 1) % n]
            &&& pred_of(t, e[i]) == e[(i + n - 1) % n]
        }
}

/// A permutation read off against itself always matches.
pub proof fn lemma_matches_self(t: Seq<int>, n: int)
    requires
        perm_of(t, n),
        n >= 1,
    ensures
        matches_order(t, n, t),
{
    assert forall|i: int| 0 <= i < n implies {
        &&& 0 <= #[trigger] t[i] < n
        &&& succ_of(t, t[i]) == t[(i + 1) % n]
        &&& pred_of(t, t[i]) == t[(i + n - 1) % n]
    } by {
        crate::tour::laws::lemma_succ_at(t, n, i);
    }
}

/// Walk `expected` and check every successor and predecessor of the tour
/// against it.
#[verifier::loop_isolation(false)]
pub fn test_tour_order(tour: &TwoLevelList, expected: &TourOrder) -> (r: bool)
    requires
        tour.wf(),
    ensures
        r == matches_order(tour@, tour.n_spec(), expected@),
{
    let n = tour.len();
    if expected.len() != n {
        return false;
    }
    let mut i: usize = 0;
    while i < n
        invariant
            0 <= i <= n,
            forall|t: int|
                0 <= t < i ==> {
                    &&& 0 <= #[trigger] expected@[t] < n as int
                    &&& succ_of(tour@, expected@[t]) == expected@[(t + 1) % (n as int)]
                    &&& pred_of(tour@, expected@[t]) == expected@[(t + (n as int) - 1) % (
                    n as int)]
                },
        decreases n - i,
    {
        let e = expected.order()[i];
        if e >= n {
            proof {
                assert(!matches_order(tour@, n as int, expected@)) by {
                    if matches_order(tour@, n as int, expected@) {
                        assert(0 <= expected@[i as int] < n as int);
                    }
                }
            }
            return false;
        }
        let nxt = if i + 1 < n {
            expected.order()[i + 1]
        } else {
            expected.order()[0]
        };
        let prv = if i >= 1 {
            expected.order()[i - 1]
        } else {
            expected.order()[n - 1]
        };
        proof {
            crate::tour::cyclic::lemma_mod_shift(i as int + 1, n as int);
            crate::tour::cyclic::lemma_mod_shift(i as int + n as int - 1, n as int);
            assert(nxt as int == expected@[(i as int + 1) % (n as int)]);
            assert(prv as int == expected@[(i as int + (n as int) - 1) % (n as int)]);
        }
        let ok_s = match tour.successor_at(e) {
            Some(node) => node.index() == nxt,
            None => false,
        };
        if !ok_s {
            proof {
                assert(!matches_order(tour@, n as int, expected@)) by {
                    if matches_order(tour@, n as int, expected@) {
                        assert(succ_of(tour@, expected@[i as int]) == expected@[(i as int + 1) % (
                        n as int)]);
                    }
                }
            }
            return false;
        }
        let ok_p = match tour.predecessor_at(e) {
            Some(node) => node.index() == prv,
            None => false,
        };
        if !ok_p {
            proof {
                assert(!matches_order(tour@, n as int, expected@)) by {
                    if matches_order(tour@, n as int, expected@) {
                        assert(pred_of(tour@, expected@[i as int]) == expected@[(i as int + (
                        n as int) - 1) % (n as int)]);
                    }
                }
            }
            return false;
        }
        i = i + 1;
    }
    true
}

/// The same walk against an array tour.
#[verifier::loop_isolation(false)]
pub fn array_tour_order(tour: &Array, expected: &TourOrder) -> (r: bool)
    requires
        tour.wf(),
    ensures
        r == matches_order(tour@, tour.n_spec(), expected@),
{
    let n = tour.len();
    if expected.len() != n {
        return false;
    }
    let mut i: usize = 0;
    while i < n
        invariant
            0 <= i <= n,
            forall|t: int|
                0 <= t < i ==> {
                    &&& 0 <= #[trigger] expected@[t] < n as int
                    &&& succ_of(tour@, expected@[t]) == expected@[(t + 1) % (n as int)]
                    &&& pred_of(tour@, expected@[t]) == expected@[(t + (n as int) - 1) % (
                    n as int)]
                },
        decreases n - i,
    {
        let e = expected.order()[i];
        if e >= n {
            proof {
                assert(!matches_order(tour@, n as int, expected@)) by {
                    if matches_order(tour@, n as int, expected@) {
                        assert(0 <= expected@[i as int] < n as int);
                    }
                }
            }
            return false;
        }
        let nxt = if i + 1 < n {
            expected.order()[i + 1]
        } else {
            expected.order()[0]
        };
        let prv = if i >= 1 {
            expected.order()[i - 1]
        } else {
            expected.order()[n - 1]
        };
        proof {
            crate::tour::cyclic::lemma_mod_shift(i as int + 1, n as int);
            crate::tour::cyclic::lemma_mod_shift(i as int + n as int - 1, n as int);
            assert(nxt as int == expected@[(i as int + 1) % (n as int)]);
            assert(prv as int == expected@[(i as int + (n as int) - 1) % (n as int)]);
        }
        let ok_s = match tour.successor_at(e) {
            Some(u) => u == nxt,
            None => false,
        };
        if !ok_s {
            proof {
                assert(!matches_order(tour@, n as int, expected@)) by {
                    if matches_order(tour@, n as int, expected@) {
                        assert(succ_of(tour@, expected@[i as int]) == expected@[(i as int + 1) % (
                        n as int)]);
                    }
                }
            }
            return false;
        }
        let ok_p = match tour.predecessor_at(e) {
            Some(u) => u == prv,
            None => false,
        };
        if !ok_p {
            proof {
                assert(!matches_order(tour@, n as int, expected@)) by {
                    if matches_order(tour@, n as int, expected@) {
                        assert(pred_of(tour@, expected@[i as int]) == expected@[(i as int + (
                        n as int) - 1) % (n as int)]);
                    }
                }
            }
            return false;
        }
        i = i + 1;
    }
    true
}

/// Scenario: apply a fixed ten-city order and read the whole cycle back.
pub fn apply(tour: &mut TwoLevelList) -> (r: bool)
    requires
        old(tour).wf(),
        old(tour).n_spec() == 10,
    ensures
        final(tour).wf(),
        r == true,
{
    let mut ord: Vec<usize> = Vec::new();
    ord.push(3);
    ord.push(0);
    ord.push(4);
    ord.push(1);
    ord.push(6);
    ord.push(8);
    ord.push(7);
    ord.push(9);
    ord.push(5);
    ord.push(2);
    let expected = TourOrder::new(ord);
    let ghost e = expected@;
    proof {
        assert(e.len() == 10);
        assert forall|v: int| 0 <= v < 10 implies e.contains(v) by {
            if v == 0 {
                assert(e[1] == 0);
            } else if v == 1 {
                assert(e[3] == 1);
            } else if v == 2 {
                assert(e[9] == 2);
            } else if v == 3 {
                assert(e[0] == 3);
            } else if v == 4 {
                assert(e[2] == 4);
            } else if v == 5 {
                assert(e[8] == 5);
            } else if v == 6 {
                assert(e[4] == 6);
            } else if v == 7 {
                assert(e[6] == 7);
            } else if v == 8 {
                assert(e[5] == 8);
            } else {
                assert(e[7] == 9);
            }
        }
        assert(perm_of(e, 10));
    }
    let res = tour.apply(&expected);
    proof {
        assert(res == Ok::<(), crate::tour::UpdateTourError>(()));
        lemma_matches_self(e, 10);
    }
    match res {
        Ok(()) => test_tour_order(tour, &expected),
        Err(_) => false,
    }
}

/// Scenario: two fixed four-city orders; after each apply the cached total
/// must equal a fresh edge-by-edge recomputation of the same order.
pub fn total_dist(tour: &mut TwoLevelList) -> (r: bool)
    requires
        old(tour).wf(),
        old(tour).n_spec() == 4,
    ensures
        final(tour).wf(),
        r == true,
{
    let mut o1: Vec<usize> = Vec::new();
    o1.push(0);
    o1.push(1);
    o1.push(2);
    o1.push(3);
    let ghost e1 = o1@.map_values(|u: usize| u as int);
    proof {
        assert forall|v: int| 0 <= v < 4 implies e1.contains(v) by {
            assert(e1[v] == v);
        }
        assert(perm_of(e1, 4));
    }
    let order1 = TourOrder::new(o1);
    let res1 = tour.apply(&order1);
    let ok1 = match res1 {
        Ok(()) => {
            let fresh = crate::tour::dist::total_of_order(&tour.container, tour_order_vec(&order1));
            tour.total_distance() == fresh
        },
        Err(_) => false,
    };
    let mut o2: Vec<usize> = Vec::new();
    o2.push(1);
    o2.push(3);
    o2.push(0);
    o2.push(2);
    let ghost e2 = o2@.map_values(|u: usize| u as int);
    proof {
        assert forall|v: int| 0 <= v < 4 implies e2.contains(v) by {
            if v == 0 {
                assert(e2[2] == 0);
            } else if v == 1 {
                assert(e2[0] == 1);
            } else if v == 2 {
                assert(e2[3] == 2);
            } else {
                assert(e2[1] == 3);
            }
        }
        assert(perm_of(e2, 4));
    }
    let order2 = TourOrder::new(o2);
    let res2 = tour.apply(&order2);
    let ok2 = match res2 {
        Ok(()) => {
            let fresh = crate::tour::dist::total_of_order(&tour.container, tour_order_vec(&order2));
            tour.total_distance() == fresh
        },
        Err(_) => false,
    };
    ok1 && ok2
}

/// The raw id vector of an order.
fn tour_order_vec(order: &TourOrder) -> (r: &Vec<usize>)
    ensures
        r@ == order.order@,
{
    order.order()
}

/// Scenario: `between` on one segment, across segments, and after a flip,
/// on the ten-city identity tour.
pub fn between(tour: &mut TwoLevelList) -> (r: bool)
    requires
        old(tour).wf(),
        old(tour).n_spec() == 10,
    ensures
        final(tour).wf(),
{
    let mut o: Vec<usize> = Vec::new();
    let mut i: usize = 0;
    while i < 10
        invariant
            0 <= i <= 10,
            o@.len() == i,
            forall|t: int| 0 <= t < i ==> (#[trigger] o@[t]) == t,
        decreases 10 - i,
    {
        o.push(i);
        i = i + 1;
    }
    let ghost e = o@.map_values(|u: usize| u as int);
    proof {
        assert forall|v: int| 0 <= v < 10 implies e.contains(v) by {
            assert(e[v] == v);
        }
        assert(perm_of(e, 10));
    }
    let order = TourOrder::new(o);
    let mut ok = match tour.apply(&order) {
        Ok(()) => true,
        Err(_) => false,
    };
    if !ok {
        return false;
    }
    // one segment
    ok = ok && tour.between_at(0, 1, 2);
    ok = ok && !tour.between_at(0, 2, 1);
    ok = ok && !tour.between_at(2, 1, 0);
    ok = ok && tour.between_at(2, 0, 1);
    // three distinct segments
    ok = ok && tour.between_at(2, 3, 7);
    ok = ok && !tour.between_at(2, 7, 3);
    ok = ok && !tour.between_at(7, 3, 2);
    ok = ok && tour.between_at(7, 2, 3);
    // two of the three in one segment
    ok = ok && tour.between_at(3, 5, 8);
    ok = ok && !tour.between_at(3, 8, 5);
    ok = ok && !tour.between_at(8, 5, 3);
    ok = ok && tour.between_at(8, 3, 5);
    ok = ok && tour.between_at(3, 4, 5);
    ok = ok && !tour.between_at(5, 4, 3);
    // reverse the arc 3 -> 5 and ask again
    ok = ok && tour.try_flip_at(2, 3, 5, 6);
    ok = ok && !tour.between_at(3, 4, 5);
    ok = ok && tour.between_at(5, 4, 3);
    ok = ok && !tour.between_at(3, 5, 8);
    ok = ok && tour.between_at(3, 8, 5);
    ok = ok && tour.between_at(8, 5, 3);
    ok = ok && !tour.between_at(8, 3, 5);
    ok
}

/// Push `lo`, `lo + 1`, ..., `hi - 1` onto `v`.
fn push_range(v: &mut Vec<usize>, lo: usize, hi: usize)
    requires
        lo <= hi,
    ensures
        final(v)@.len() == old(v)@.len() + (hi - lo),
        forall|t: int| 0 <= t < old(v)@.len() ==> (#[trigger] final(v)@[t]) == old(v)@[t],
        forall|t: int|
            old(v)@.len() <= t < final(v)@.len() ==> ((#[trigger] final(v)@[t]) as int) == lo + (t
                - old(v)@.len()),
    decreases hi - lo,
{
    let mut i = lo;
    while i < hi
        invariant
            lo <= i <= hi,
            v@.len() == old(v)@.len() + (i - lo),
            forall|t: int| 0 <= t < old(v)@.len() ==> (#[trigger] v@[t]) == old(v)@[t],
            forall|t: int|
                old(v)@.len() <= t < v@.len() ==> ((#[trigger] v@[t]) as int) == lo + (t - old(
                    v,
                )@.len()),
        decreases hi - i,
    {
        v.push(i);
        i = i + 1;
    }
}

/// Push `hi - 1`, ..., `lo` onto `v`.
fn push_range_rev(v: &mut Vec<usize>, lo: usize, hi: usize)
    requires
        lo <= hi,
    ensures
        final(v)@.len() == old(v)@.len() + (hi - lo),
        forall|t: int| 0 <= t < old(v)@.len() ==> (#[trigger] final(v)@[t]) == old(v)@[t],
        forall|t: int|
            old(v)@.len() <= t < final(v)@.len() ==> ((#[trigger] final(v)@[t]) as int) == hi - 1 - (
            t - old(v)@.len()),
{
    let mut i = hi;
    while i > lo
        invariant
            lo <= i <= hi,
            v@.len() == old(v)@.len() + (hi - i),
            forall|t: int| 0 <= t < old(v)@.len() ==> (#[trigger] v@[t]) == old(v)@[t],
            forall|t: int|
                old(v)@.len() <= t < v@.len() ==> ((#[trigger] v@[t]) as int) == hi - 1 - (t - old(
                    v,
                )@.len()),
        decreases i - lo,
    {
        v.push(i - 1);
        i = i - 1;
    }
}

/// Apply the identity order of `n` cities to the tour.
fn apply_identity(tour: &mut TwoLevelList, n: usize) -> (r: bool)
    requires
        old(tour).wf(),
        old(tour).n_spec() == n as int,
    ensures
        final(tour).wf(),
        final(tour).n_spec() == n as int,
        r ==> final(tour)@ == Seq::new(n as nat, |i: int| i),
{
    let mut o: Vec<usize> = Vec::new();
    push_range(&mut o, 0, n);
    let ghost e = o@.map_values(|u: usize| u as int);
    proof {
        if n > 0 {
            assert forall|v: int| 0 <= v < n implies e.contains(v) by {
                assert(e[v] == v);
            }
            assert(perm_of(e, n as int));
        }
    }
    let order = TourOrder::new(o);
    match tour.apply(&order) {
        Ok(()) => {
            proof {
                assert(tour@ =~= Seq::new(n as nat, |i: int| i));
            }
            true
        },
        Err(_) => false,
    }
}

/// Scenario: flips whose reversed arc stays inside one segment, including a
/// whole-segment reversal, on the hundred-city identity tour.
pub fn flip_1(tour: &mut TwoLevelList) -> (r: bool)
    requires
        old(tour).wf(),
        old(tour).n_spec() == 100,
    ensures
        final(tour).wf(),
        final(tour).n_spec() == 100,
{
    let mut ok = apply_identity(tour, 100);
    ok = ok && tour.try_flip_at(3, 4, 8, 9);
    let mut e1: Vec<usize> = Vec::new();
    push_range(&mut e1, 0, 4);
    push_range_rev(&mut e1, 4, 9);
    push_range(&mut e1, 9, 100);
    ok = ok && test_tour_order(tour, &TourOrder::new(e1));
    ok = ok && tour.try_flip_at(3, 8, 4, 9);
    let mut e2: Vec<usize> = Vec::new();
    push_range(&mut e2, 0, 100);
    ok = ok && test_tour_order(tour, &TourOrder::new(e2));
    ok = ok && tour.try_flip_at(8, 9, 3, 4);
    let mut e3: Vec<usize> = Vec::new();
    push_range(&mut e3, 0, 4);
    push_range_rev(&mut e3, 4, 9);
    push_range(&mut e3, 9, 100);
    ok = ok && test_tour_order(tour, &TourOrder::new(e3));
    ok = ok && tour.try_flip_at(4, 9, 3, 8);
    let mut e4: Vec<usize> = Vec::new();
    push_range(&mut e4, 0, 100);
    ok = ok && test_tour_order(tour, &TourOrder::new(e4));
    // reversing a whole segment flips only its bit
    ok = ok && tour.try_flip_at(9, 10, 19, 20);
    let mut e5: Vec<usize> = Vec::new();
    push_range(&mut e5, 0, 10);
    push_range_rev(&mut e5, 10, 20);
    push_range(&mut e5, 20, 100);
    ok = ok && test_tour_order(tour, &TourOrder::new(e5));
    ok = ok && tour.try_flip_at(10, 20, 9, 19);
    let mut e6: Vec<usize> = Vec::new();
    push_range(&mut e6, 0, 100);
    ok = ok && test_tour_order(tour, &TourOrder::new(e6));
    ok
}

/// Scenario: flips that reverse a run of whole segments, on the
/// hundred-city identity tour.
pub fn flip_2(tour: &mut TwoLevelList) -> (r: bool)
    requires
        old(tour).wf(),
        old(tour).n_spec() == 100,
    ensures
        final(tour).wf(),
        final(tour).n_spec() == 100,
{
    let mut ok = apply_identity(tour, 100);
    ok = ok && tour.try_flip_at(9, 10, 39, 40);
    let mut e1: Vec<usize> = Vec::new();
    push_range(&mut e1, 0, 10);
    push_range_rev(&mut e1, 10, 40);
    push_range(&mut e1, 40, 100);
    ok = ok && test_tour_order(tour, &TourOrder::new(e1));
    ok = ok && tour.try_flip_at(10, 40, 9, 39);
    let mut e2: Vec<usize> = Vec::new();
    push_range(&mut e2, 0, 100);
    ok = ok && test_tour_order(tour, &TourOrder::new(e2));
    ok = ok && tour.try_flip_at(39, 40, 9, 10);
    let mut e3: Vec<usize> = Vec::new();
    push_range(&mut e3, 0, 10);
    push_range_rev(&mut e3, 10, 40);
    push_range(&mut e3, 40, 100);
    ok = ok && test_tour_order(tour, &TourOrder::new(e3));
    ok = ok && tour.try_flip_at(9, 39, 10, 40);
    let mut e4: Vec<usize> = Vec::new();
    push_range(&mut e4, 0, 100);
    ok = ok && test_tour_order(tour, &TourOrder::new(e4));
    ok
}

/// Scenario: flips whose shorter arc wraps around the tour's seam, on the
/// hundred-city identity tour.
pub fn flip_3(tour: &mut TwoLevelList) -> (r: bool)
    requires
        old(tour).wf(),
        old(tour).n_spec() == 100,
    ensures
        final(tour).wf(),
        final(tour).n_spec() == 100,
{
    let mut ok = apply_identity(tour, 100);
    ok = ok && tour.try_flip_at(9, 10, 89, 90);
    let mut e1: Vec<usize> = Vec::new();
    push_range_rev(&mut e1, 90, 100);
    push_range(&mut e1, 10, 90);
    push_range_rev(&mut e1, 0, 10);
    ok = ok && test_tour_order(tour, &TourOrder::new(e1));
    ok = ok && tour.try_flip_at(90, 10, 89, 9);
    let mut e2: Vec<usize> = Vec::new();
    push_range(&mut e2, 0, 100);
    ok = ok && test_tour_order(tour, &TourOrder::new(e2));
    ok = ok && tour.try_flip_at(89, 90, 9, 10);
    let mut e3: Vec<usize> = Vec::new();
    push_range_rev(&mut e3, 90, 100);
    push_range(&mut e3, 10, 90);
    push_range_rev(&mut e3, 0, 10);
    ok = ok && test_tour_order(tour, &TourOrder::new(e3));
    ok = ok && tour.try_flip_at(89, 9, 90, 10);
    let mut e4: Vec<usize> = Vec::new();
    push_range(&mut e4, 0, 100);
    ok = ok && test_tour_order(tour, &TourOrder::new(e4));
    ok = ok && tour.try_flip_at(79, 80, 89, 90);
    ok = ok && tour.try_flip_at(9, 10, 79, 89);
    let mut e5: Vec<usize> = Vec::new();
    push_range(&mut e5, 80, 90);
    push_range(&mut e5, 10, 80);
    push_range_rev(&mut e5, 0, 10);
    push_range_rev(&mut e5, 90, 100);
    ok = ok && test_tour_order(tour, &TourOrder::new(e5));
    ok
}

/// Scenario: flips whose endpoints sit mid-segment, forcing splits, on the
/// hundred-city identity tour.
pub fn flip_4(tour: &mut TwoLevelList) -> (r: bool)
    requires
        old(tour).wf(),
        old(tour).n_spec() == 100,
    ensures
        final(tour).wf(),
        final(tour).n_spec() == 100,
{
    let mut ok = apply_identity(tour, 100);
    let mut e0: Vec<usize> = Vec::new();
    push_range(&mut e0, 0, 100);
    let order0 = TourOrder::new(e0);
    ok = ok && test_tour_order(tour, &order0);
    ok = ok && tour.try_flip_at(15, 16, 25, 26);
    let mut e1: Vec<usize> = Vec::new();
    push_range(&mut e1, 0, 16);
    push_range_rev(&mut e1, 16, 26);
    push_range(&mut e1, 26, 100);
    ok = ok && test_tour_order(tour, &TourOrder::new(e1));
    ok = ok && tour.try_flip_at(15, 25, 16, 26);
    ok = ok && test_tour_order(tour, &order0);
    ok = ok && tour.try_flip_at(24, 25, 55, 56);
    let mut e2: Vec<usize> = Vec::new();
    push_range(&mut e2, 0, 25);
    push_range_rev(&mut e2, 25, 56);
    push_range(&mut e2, 56, 100);
    ok = ok && test_tour_order(tour, &TourOrder::new(e2));
    ok = ok && tour.try_flip_at(24, 55, 25, 56);
    ok = ok && test_tour_order(tour, &order0);
    ok = ok && tour.try_flip_at(12, 13, 92, 93);
    let mut e3: Vec<usize> = Vec::new();
    push_range_rev(&mut e3, 0, 13);
    push_range_rev(&mut e3, 93, 100);
    push_range(&mut e3, 13, 93);
    ok = ok && test_tour_order(tour, &TourOrder::new(e3));
    ok
}

/// Run the four flip scenarios in order.
pub fn flip(tour: &mut TwoLevelList) -> (r: bool)
    requires
        old(tour).wf(),
        old(tour).n_spec() == 100,
    ensures
        final(tour).wf(),
{
    let r1 = flip_1(tour);
    let r2 = flip_2(tour);
    let r3 = flip_3(tour);
    let r4 = flip_4(tour);
    r1 && r2 && r3 && r4
}

} // verus!
