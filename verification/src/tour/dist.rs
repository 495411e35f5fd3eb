//! The length of a tour: the sum of the metric over consecutive cities,
//! read cyclically.  The lemmas here justify the O(1) bookkeeping of the
//! total distance across `apply` and `flip`.

use vstd::prelude::*;

use crate::node::{dist_spec, lemma_dist_bounded, lemma_dist_nonneg, lemma_dist_symmetric, node_ok,
    Container, MetricKind, Node, MAX_EDGE_DIST};
use crate::tour::cyclic::rotate_seq;

verus! {

/// The sum of the metric over consecutive pairs of `s`, walked linearly.
pub open spec fn path_sum(kind: MetricKind, nodes: Seq<Node>, s: Seq<int>) -> int
    decreases s.len(),
{
    if s.len() <= 1 {
        0
    } else {
        dist_spec(kind, nodes[s[0]], nodes[s[1]]) + path_sum(kind, nodes, s.skip(1))
    }
}

/// The length of the cyclic tour `s`: the linear walk plus the closing edge.
pub open spec fn tour_dist(kind: MetricKind, nodes: Seq<Node>, s: Seq<int>) -> int {
    if s.len() <= 1 {
        0
    } else {
        path_sum(kind, nodes, s) + dist_spec(kind, nodes[s.last()], nodes[s[0]])
    }
}

pub proof fn lemma_path_sum_nonneg(kind: MetricKind, nodes: Seq<Node>, s: Seq<int>)
    ensures
        path_sum(kind, nodes, s) >= 0,
    decreases s.len(),
{
    if s.len() > 1 {
        lemma_dist_nonneg(kind, nodes[s[0]], nodes[s[1]]);
        lemma_path_sum_nonneg(kind, nodes, s.skip(1));
    }
}

pub proof fn lemma_tour_dist_nonneg(kind: MetricKind, nodes: Seq<Node>, s: Seq<int>)
    ensures
        tour_dist(kind, nodes, s) >= 0,
{
    lemma_path_sum_nonneg(kind, nodes, s);
    if s.len() > 1 {
        lemma_dist_nonneg(kind, nodes[s.last()], nodes[s[0]]);
    }
}

pub proof fn lemma_path_sum_concat(kind: MetricKind, nodes: Seq<Node>, u: Seq<int>, v: Seq<int>)
    requires
        u.len() >= 1,
        v.len() >= 1,
    ensures
        path_sum(kind, nodes, u + v) == path_sum(kind, nodes, u) + dist_spec(
            kind,
            nodes[u.last()],
            nodes[v[0]],
        ) + path_sum(kind, nodes, v),
    decreases u.len(),
{
    if u.len() == 1 {
        assert((u + v).skip(1) =~= v);
        assert((u + v)[0] == u.last());
        assert((u + v)[1] == v[0]);
    } else {
        assert((u + v).skip(1) =~= u.skip(1) + v);
        lemma_path_sum_concat(kind, nodes, u.skip(1), v);
        assert(u.skip(1).last() == u.last());
    }
}

pub proof fn lemma_path_sum_reverse(kind: MetricKind, nodes: Seq<Node>, s: Seq<int>)
    ensures
        path_sum(kind, nodes, s.reverse()) == path_sum(kind, nodes, s),
    decreases s.len(),
{
    if s.len() > 1 {
        let t = s.skip(1);
        assert(s.reverse() =~= t.reverse() + seq![s[0]]);
        lemma_path_sum_concat(kind, nodes, t.reverse(), seq![s[0]]);
        lemma_path_sum_reverse(kind, nodes, t);
        assert(t.reverse().last() == t[0]);
        assert(t[0] == s[1]);
        lemma_dist_symmetric(kind, nodes[s[0]], nodes[s[1]]);
    }
}

/// The length of a cyclic tour does not depend on where the cycle is cut.
pub proof fn lemma_tour_dist_swap(kind: MetricKind, nodes: Seq<Node>, u: Seq<int>, v: Seq<int>)
    requires
        u.len() >= 1,
        v.len() >= 1,
    ensures
        tour_dist(kind, nodes, u + v) == tour_dist(kind, nodes, v + u),
{
    lemma_path_sum_concat(kind, nodes, u, v);
    lemma_path_sum_concat(kind, nodes, v, u);
    assert((u + v).last() == if v.len() >= 1 {
        v.last()
    } else {
        u.last()
    });
    assert((u + v)[0] == u[0]);
    assert((v + u).last() == u.last());
    assert((v + u)[0] == v[0]);
}

pub proof fn lemma_tour_dist_rotate(kind: MetricKind, nodes: Seq<Node>, s: Seq<int>, k: int)
    requires
        0 <= k <= s.len(),
    ensures
        tour_dist(kind, nodes, rotate_seq(s, k)) == tour_dist(kind, nodes, s),
{
    if k == 0 || k == s.len() {
        assert(rotate_seq(s, k) =~= s);
    } else {
        let u = s.take(k);
        let v = s.skip(k);
        assert(s =~= u + v);
        lemma_tour_dist_swap(kind, nodes, u, v);
        assert(rotate_seq(s, k) == v + u);
    }
}

/// Reversing the arc `A` of a tour `A + B` exchanges the two joining edges
/// and keeps everything else, which is exactly the 2-opt length change.
pub proof fn lemma_tour_dist_flip_halves(kind: MetricKind, nodes: Seq<Node>, u: Seq<int>, v: Seq<
    int,
>)
    requires
        u.len() >= 1,
        v.len() >= 1,
    ensures
        tour_dist(kind, nodes, u.reverse() + v) == tour_dist(kind, nodes, u + v) - dist_spec(
            kind,
            nodes[u.last()],
            nodes[v[0]],
        ) - dist_spec(kind, nodes[v.last()], nodes[u[0]]) + dist_spec(
            kind,
            nodes[u[0]],
            nodes[v[0]],
        ) + dist_spec(kind, nodes[v.last()], nodes[u.last()]),
        dist_spec(kind, nodes[u.last()], nodes[v[0]]) + dist_spec(kind, nodes[v.last()], nodes[u[0]])
            <= tour_dist(kind, nodes, u + v),
{
    lemma_path_sum_concat(kind, nodes, u, v);
    lemma_path_sum_concat(kind, nodes, u.reverse(), v);
    lemma_path_sum_reverse(kind, nodes, u);
    assert(u.reverse().last() == u[0]);
    assert(u.reverse()[0] == u.last());
    assert((u + v).last() == v.last());
    assert((u + v)[0] == u[0]);
    assert((u.reverse() + v).last() == v.last());
    assert((u.reverse() + v)[0] == u.last());
    lemma_path_sum_nonneg(kind, nodes, u);
    lemma_path_sum_nonneg(kind, nodes, v);
    if (u + v).len() <= 1 || (u.reverse() + v).len() <= 1 {
        assert(false);
    }
}

/// Every edge of a bounded container is bounded, so a tour of `n` cities is
/// at most `n` times the largest edge.
pub proof fn lemma_path_sum_bound(kind: MetricKind, nodes: Seq<Node>, s: Seq<int>)
    requires
        forall|i: int| 0 <= i < s.len() ==> 0 <= #[trigger] s[i] < nodes.len(),
        forall|i: int| 0 <= i < nodes.len() ==> node_ok(#[trigger] nodes[i]),
        s.len() >= 1,
    ensures
        path_sum(kind, nodes, s) <= (s.len() - 1) * MAX_EDGE_DIST,
    decreases s.len(),
{
    if s.len() == 1 {
    } else {
        lemma_dist_bounded(kind, nodes[s[0]], nodes[s[1]]);
        assert(forall|i: int| 0 <= i < s.skip(1).len() ==> 0 <= #[trigger] s.skip(1)[i] < nodes.len());
        lemma_path_sum_bound(kind, nodes, s.skip(1));
        assert((s.len() - 2) * MAX_EDGE_DIST + MAX_EDGE_DIST == (s.len() - 1) * MAX_EDGE_DIST)
            by (nonlinear_arith);
    }
}

pub proof fn lemma_tour_dist_bound(kind: MetricKind, nodes: Seq<Node>, s: Seq<int>)
    requires
        forall|i: int| 0 <= i < s.len() ==> 0 <= #[trigger] s[i] < nodes.len(),
        forall|i: int| 0 <= i < nodes.len() ==> node_ok(#[trigger] nodes[i]),
    ensures
        0 <= tour_dist(kind, nodes, s) <= s.len() * MAX_EDGE_DIST,
{
    lemma_tour_dist_nonneg(kind, nodes, s);
    if s.len() <= 1 {
        assert(0 <= s.len() * MAX_EDGE_DIST) by (nonlinear_arith)
            requires
                s.len() >= 0,
        ;
    } else {
        lemma_path_sum_bound(kind, nodes, s);
        lemma_dist_bounded(kind, nodes[s.last()], nodes[s[0]]);
        assert((s.len() - 1) * MAX_EDGE_DIST + MAX_EDGE_DIST == s.len() * MAX_EDGE_DIST)
            by (nonlinear_arith);
    }
}

/// A 2-opt arc reversal exchanges exactly the two joining edges: the tour
/// length changes by the classic delta, and the two removed edges never
/// exceed the old length.
pub proof fn lemma_flip_arc_dist(kind: MetricKind, nodes: Seq<Node>, s: Seq<int>, i: int, k: int)
    requires
        s.len() >= 2,
        0 <= i < s.len(),
        1 <= k <= s.len() - 1,
    ensures
        ({
            let n = s.len() as int;
            let x = s[i];
            let y = s[(i + k - 1) % n];
            let sy = s[(i + k) % n];
            let px = s[(i + n - 1) % n];
            &&& tour_dist(kind, nodes, crate::tour::cyclic::flip_arc(s, i, k)) == tour_dist(
                kind,
                nodes,
                s,
            ) - dist_spec(kind, nodes[y], nodes[sy]) - dist_spec(kind, nodes[px], nodes[x])
                + dist_spec(kind, nodes[x], nodes[sy]) + dist_spec(kind, nodes[px], nodes[y])
            &&& dist_spec(kind, nodes[y], nodes[sy]) + dist_spec(kind, nodes[px], nodes[x])
                <= tour_dist(kind, nodes, s)
        }),
{
    let n = s.len() as int;
    let r = crate::tour::cyclic::rotate_seq(s, i);
    crate::tour::cyclic::lemma_rotate_index(s, i);
    lemma_tour_dist_rotate(kind, nodes, s, i);
    let u = r.take(k);
    let v = r.skip(k);
    assert(u + v =~= r);
    lemma_tour_dist_flip_halves(kind, nodes, u, v);
    assert(crate::tour::cyclic::flip_arc(s, i, k) == u.reverse() + v);
    // the four corner ids
    crate::tour::cyclic::lemma_mod_shift(i + 0, n);
    crate::tour::cyclic::lemma_mod_shift(i + (k - 1), n);
    crate::tour::cyclic::lemma_mod_shift(i + k, n);
    crate::tour::cyclic::lemma_mod_shift(i + (n - 1), n);
    assert(u[0] == r[0] && r[0] == s[(i + 0) % n]);
    assert(u.last() == r[k - 1] && r[k - 1] == s[(i + k - 1) % n]);
    assert(v[0] == r[k] && r[k] == s[(i + k) % n]);
    assert(v.last() == r[n - 1] && r[n - 1] == s[(i + n - 1) % n]);
}

/// Extending a linear walk by one id adds one edge.
pub proof fn lemma_path_sum_snoc(kind: MetricKind, nodes: Seq<Node>, s: Seq<int>, x: int)
    requires
        s.len() >= 1,
    ensures
        path_sum(kind, nodes, s + seq![x]) == path_sum(kind, nodes, s) + dist_spec(
            kind,
            nodes[s.last()],
            nodes[x],
        ),
{
    lemma_path_sum_concat(kind, nodes, s, seq![x]);
}

/// The total length of the cyclic tour `order`, computed edge by edge.
pub fn total_of_order(container: &Container, order: &Vec<usize>) -> (r: u128)
    requires
        container.wf(),
        forall|i: int| 0 <= i < order@.len() ==> (#[trigger] order@[i]) < container.nodes@.len(),
    ensures
        r as int == tour_dist(
            container.metric,
            container.nodes@,
            order@.map_values(|u: usize| u as int),
        ),
{
    let ghost kind = container.metric;
    let ghost nodes = container.nodes@;
    let ghost o = order@.map_values(|u: usize| u as int);
    let n = order.len();
    if n <= 1 {
        return 0;
    }
    let mut acc: u128 = 0;
    let mut i: usize = 1;
    proof {
        assert(o.take(1) =~= seq![o[0]]);
        assert(path_sum(kind, nodes, o.take(1)) == 0);
    }
    while i < n
        invariant
            1 <= i <= n,
            n == order@.len(),
            o == order@.map_values(|u: usize| u as int),
            container.wf(),
            kind == container.metric,
            nodes == container.nodes@,
            forall|j: int| 0 <= j < n ==> (#[trigger] order@[j]) < nodes.len(),
            acc as int == path_sum(kind, nodes, o.take(i as int)),
            acc as int <= (i - 1) * (MAX_EDGE_DIST as int),
        decreases n - i,
    {
        let d = container.distance_at(order[i - 1], order[i]);
        proof {
            assert(o.take(i + 1) =~= o.take(i as int) + seq![o[i as int]]);
            lemma_path_sum_snoc(kind, nodes, o.take(i as int), o[i as int]);
            assert(o.take(i as int).last() == o[i - 1]);
            lemma_dist_bounded(kind, nodes[o[i - 1]], nodes[o[i as int]]);
            assert((i - 1) * (MAX_EDGE_DIST as int) + MAX_EDGE_DIST == i * (MAX_EDGE_DIST as int))
                by (nonlinear_arith);
            assert(i * (MAX_EDGE_DIST as int) <= (usize::MAX as int) * (MAX_EDGE_DIST as int))
                by (nonlinear_arith)
                requires
                    0 <= i <= usize::MAX as int,
            ;
        }
        acc = acc + d as u128;
        i = i + 1;
    }
    proof {
        assert(o.take(n as int) =~= o);
    }
    let closing = container.distance_at(order[n - 1], order[0]);
    proof {
        lemma_dist_bounded(kind, nodes[o[n - 1]], nodes[o[0]]);
        assert(o.last() == o[n - 1]);
        assert((n - 1) * (MAX_EDGE_DIST as int) + MAX_EDGE_DIST == n * (MAX_EDGE_DIST as int))
            by (nonlinear_arith);
        assert(n * (MAX_EDGE_DIST as int) <= (usize::MAX as int) * (MAX_EDGE_DIST as int))
            by (nonlinear_arith)
            requires
                0 < n <= usize::MAX as int,
        ;
    }
    acc + closing as u128
}

} // verus!
