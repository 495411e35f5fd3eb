//! The representation-independent laws of the tour model, stated over the
//! abstract cyclic sequence that every tour representation exposes as its
//! view and that every mutating contract pins down.

use vstd::prelude::*;

use crate::node::{MetricKind, Node};
use crate::tour::array::Array;
use crate::tour::cyclic::{
    arc_dist, between_of, cyc_eq, flip_arc, flip_view, idx_of, lemma_flip_arc_index,
    lemma_flip_arc_perm, lemma_flip_arcs_partition, lemma_flip_view_rotate, lemma_idx_of_exact,
    lemma_mod_shift, lemma_perm_distinct, lemma_perm_idx_of, lemma_perm_rotate,
    lemma_rotate_index, lemma_succ_of_rotate, perm_of, pred_of, rotate_seq, succ_of, valid_flip,
};
use crate::tour::dist::{lemma_tour_dist_rotate, tour_dist};
use crate::tour::tll::TwoLevelList;

verus! {

/// The id reached from `v` by `k` successor steps.
pub open spec fn iter_succ(s: Seq<int>, v: int, k: int) -> int
    decreases k,
{
    if k <= 0 {
        v
    } else {
        succ_of(s, iter_succ(s, v, k - 1))
    }
}

/// One successor step moves one position forward on the cycle.
pub proof fn lemma_succ_at(s: Seq<int>, n: int, i: int)
    requires
        perm_of(s, n),
        n >= 1,
        0 <= i < n,
    ensures
        succ_of(s, s[i]) == s[(i + 1) % n],
        pred_of(s, s[i]) == s[(i + n - 1) % n],
{
    lemma_perm_distinct(s, n);
    lemma_idx_of_exact(s, i);
}

/// `k` successor steps move `k` positions forward.
pub proof fn lemma_iter_pos(s: Seq<int>, n: int, i: int, k: int)
    requires
        perm_of(s, n),
        n >= 1,
        0 <= i < n,
        k >= 0,
    ensures
        iter_succ(s, s[i], k) == s[(i + k) % n],
    decreases k,
{
    if k == 0 {
        lemma_mod_shift(i, n);
    } else {
        lemma_iter_pos(s, n, i, k - 1);
        let j = (i + k - 1) % n;
        vstd::arithmetic::div_mod::lemma_mod_division_less_than_divisor(i + k - 1, n);
        vstd::arithmetic::div_mod::lemma_mod_decreases((i + k - 1) as nat, n as nat);
        assert(0 <= j < n);
        lemma_succ_at(s, n, j);
        assert(iter_succ(s, s[i], k) == s[(j + 1) % n]);
        assert((j + 1) % n == (i + k) % n) by {
            vstd::arithmetic::div_mod::lemma_add_mod_noop(i + k - 1, 1, n);
            vstd::arithmetic::div_mod::lemma_mod_twice(i + k - 1, n);
            if n == 1 {
                vstd::arithmetic::div_mod::lemma_mod_division_less_than_divisor(1int, n);
                vstd::arithmetic::div_mod::lemma_remainder_lower(1int, n);
            } else {
                vstd::arithmetic::div_mod::lemma_small_mod(1nat, n as nat);
            }
        }
    }
}

/// Starting anywhere and taking exactly `n` successor steps returns to the
/// start, having passed every id exactly once.
pub proof fn lemma_hamiltonian(s: Seq<int>, n: int, v: int)
    requires
        perm_of(s, n),
        n >= 1,
        0 <= v < n,
    ensures
        iter_succ(s, v, n) == v,
        forall|k1: int, k2: int|
            0 <= k1 < k2 < n ==> #[trigger] iter_succ(s, v, k1) != #[trigger] iter_succ(s, v, k2),
{
    lemma_perm_idx_of(s, n, v);
    let i = idx_of(s, v);
    lemma_iter_pos(s, n, i, n);
    vstd::arithmetic::div_mod::lemma_mod_sub_multiples_vanish(i + n, n);
    vstd::arithmetic::div_mod::lemma_small_mod(i as nat, n as nat);
    assert((i + n) % n == i);
    lemma_perm_distinct(s, n);
    assert forall|k1: int, k2: int| 0 <= k1 < k2 < n implies #[trigger] iter_succ(s, v, k1)
        != #[trigger] iter_succ(s, v, k2) by {
        lemma_iter_pos(s, n, i, k1);
        lemma_iter_pos(s, n, i, k2);
        lemma_mod_shift(i + k1, n);
        lemma_mod_shift(i + k2, n);
    }
}

/// The walk from `v` reaches any given id within `n` steps.
pub proof fn lemma_walk_reaches(s: Seq<int>, n: int, v: int, u: int) -> (k: int)
    requires
        perm_of(s, n),
        n >= 1,
        0 <= v < n,
        0 <= u < n,
    ensures
        0 <= k < n,
        iter_succ(s, v, k) == u,
{
    lemma_perm_idx_of(s, n, v);
    lemma_perm_idx_of(s, n, u);
    let i = idx_of(s, v);
    let j = idx_of(s, u);
    let k = arc_dist(i, j, n);
    lemma_iter_pos(s, n, i, k);
    lemma_mod_shift(i + k, n);
    k
}

/// Successor and predecessor invert one another.
pub proof fn lemma_succ_pred_inverse(s: Seq<int>, n: int, v: int)
    requires
        perm_of(s, n),
        n >= 1,
        0 <= v < n,
    ensures
        succ_of(s, pred_of(s, v)) == v,
        pred_of(s, succ_of(s, v)) == v,
{
    lemma_perm_idx_of(s, n, v);
    let i = idx_of(s, v);
    lemma_mod_shift(i + 1, n);
    lemma_mod_shift(i + n - 1, n);
    let ip = (i + n - 1) % n;
    let is_ = (i + 1) % n;
    lemma_succ_at(s, n, ip);
    lemma_succ_at(s, n, is_);
    lemma_mod_shift(ip + 1, n);
    lemma_mod_shift(is_ + n - 1, n);
    lemma_succ_at(s, n, i);
}

/// Of the two orientations `between(a, b, c)` and `between(a, c, b)` exactly
/// one holds, and of the three cyclic rotations of `between(a, b, c)`
/// exactly one holds.
pub proof fn lemma_between_orientation(s: Seq<int>, n: int, a: int, b: int, c: int)
    requires
        perm_of(s, n),
        n >= 3,
        0 <= a < n,
        0 <= b < n,
        0 <= c < n,
        a != b,
        b != c,
        c != a,
    ensures
        between_of(s, a, b, c) != between_of(s, a, c, b),
        between_of(s, a, b, c) ==> between_of(s, b, c, a) && between_of(s, c, a, b),
        between_of(s, a, b, c) || between_of(s, b, a, c),
        !(between_of(s, a, b, c) && between_of(s, b, a, c)),
{
    lemma_perm_idx_of(s, n, a);
    lemma_perm_idx_of(s, n, b);
    lemma_perm_idx_of(s, n, c);
    let ia = idx_of(s, a);
    let ib = idx_of(s, b);
    let ic = idx_of(s, c);
    assert(ia != ib && ib != ic && ic != ia) by {
        lemma_perm_distinct(s, n);
    }
}

/// A flip followed by the flip that names the two fresh edges restores the
/// original cyclic tour.  It applies when the first flip reverses the arc
/// `to_a -> from_b`, which is the case exactly when that arc is not the
/// longer one.
pub proof fn lemma_flip_round_trip(s: Seq<int>, n: int, a: int, b: int, c: int, d: int)
    requires
        perm_of(s, n),
        n == s.len(),
        valid_flip(s, a, b, c, d),
        2 * (arc_dist(idx_of(s, b), idx_of(s, c), n) + 1) <= n,
    ensures
        ({
            let f1 = flip_view(s, a, b, c, d);
            &&& valid_flip(f1, a, c, b, d)
            &&& cyc_eq(flip_view(f1, a, c, b, d), s)
        }),
{
    let ib = idx_of(s, b);
    let ic = idx_of(s, c);
    let k1 = arc_dist(ib, ic, n) + 1;
    lemma_flip_arcs_partition(s, n, a, b, c, d);
    lemma_perm_idx_of(s, n, a);
    lemma_perm_idx_of(s, n, b);
    lemma_perm_idx_of(s, n, c);
    lemma_perm_idx_of(s, n, d);
    let f1 = flip_view(s, a, b, c, d);
    assert(f1 == flip_arc(s, ib, k1));
    lemma_flip_arc_index(s, ib, k1);
    lemma_flip_arc_perm(s, n, ib, k1);
    lemma_perm_distinct(f1, n);
    // where the four ids sit in the flipped tour
    lemma_mod_shift(ib + (k1 - 1) - (k1 - 1), n);
    assert(f1[k1 - 1] == s[(ib + k1 - 1 - (k1 - 1)) % n]);
    lemma_mod_shift(ib, n);
    assert(f1[k1 - 1] == b);
    assert(f1[0] == s[(ib + k1 - 1) % n]);
    assert((ib + (k1 - 1)) % n == ic) by {
        lemma_mod_shift(ib + k1 - 1, n);
    }
    assert(f1[0] == c);
    assert(f1[k1] == s[(ib + k1) % n]);
    assert((ib + k1) % n == idx_of(s, d)) by {
        lemma_mod_shift(ib + k1 - 1, n);
        lemma_mod_shift(((ib + k1 - 1) % n) + 1, n);
        lemma_mod_shift(ib + k1, n);
    }
    assert(f1[k1] == d);
    assert(f1[n - 1] == s[(ib + n - 1) % n]);
    assert((ib + n - 1) % n == idx_of(s, a)) by {
        assert(ib == (idx_of(s, a) + 1) % n);
        lemma_mod_shift(idx_of(s, a) + 1, n);
        if idx_of(s, a) + 1 < n {
            lemma_mod_shift(ib + n - 1, n);
        } else {
            assert(ib == 0);
            lemma_mod_shift(n - 1, n);
        }
    }
    assert(f1[n - 1] == a);
    lemma_idx_of_exact(f1, 0);
    lemma_idx_of_exact(f1, k1 - 1);
    lemma_idx_of_exact(f1, k1);
    lemma_idx_of_exact(f1, n - 1);
    // the second quadruple is valid on f1
    assert(succ_of(f1, a) == c) by {
        lemma_mod_shift(n - 1 + 1, n);
        vstd::arithmetic::div_mod::lemma_mod_sub_multiples_vanish(n, n);
        vstd::arithmetic::div_mod::lemma_small_mod(0nat, n as nat);
        assert(n % n == 0);
    }
    assert(succ_of(f1, b) == d) by {
        lemma_mod_shift(k1 - 1 + 1, n);
    }
    assert(valid_flip(f1, a, c, b, d));
    // the second flip reverses the same arc back
    let k2 = arc_dist(idx_of(f1, c), idx_of(f1, b), n) + 1;
    assert(k2 == k1);
    let f2 = flip_view(f1, a, c, b, d);
    assert(f2 == flip_arc(f1, 0, k1));
    lemma_flip_arc_index(f1, 0, k1);
    lemma_rotate_index(s, ib);
    assert(f2 =~= rotate_seq(s, ib)) by {
        assert forall|t: int| 0 <= t < n implies f2[t] == rotate_seq(s, ib)[t] by {
            if t < k1 {
                assert(f2[t] == f1[(0 + k1 - 1 - t) % n]);
                lemma_mod_shift(k1 - 1 - t, n);
                assert(f2[t] == f1[k1 - 1 - t]);
                assert(f1[k1 - 1 - t] == s[(ib + k1 - 1 - (k1 - 1 - t)) % n]);
                lemma_mod_shift(ib + t, n);
            } else {
                assert(f2[t] == f1[(0 + t) % n]);
                lemma_mod_shift(t, n);
                assert(f2[t] == f1[t]);
                assert(f1[t] == s[(ib + t) % n]);
                lemma_mod_shift(ib + t, n);
            }
        }
    }
    assert(cyc_eq(f2, s)) by {
        assert(0 <= ib <= s.len() && f2 == rotate_seq(s, ib));
    }
}

/// Two tours that denote the same cyclic order, fed the same valid flip,
/// still denote the same cyclic order afterwards — in fact the flipped
/// views are the very same sequence — and their lengths agree throughout.
pub proof fn lemma_differential_step(
    t1: Seq<int>,
    t2: Seq<int>,
    n: int,
    kind: MetricKind,
    nodes: Seq<Node>,
    a: int,
    b: int,
    c: int,
    d: int,
)
    requires
        n >= 1,
        n == t2.len(),
        perm_of(t2, n),
        cyc_eq(t1, t2),
        valid_flip(t2, a, b, c, d),
    ensures
        valid_flip(t1, a, b, c, d),
        flip_view(t1, a, b, c, d) == flip_view(t2, a, b, c, d),
        tour_dist(kind, nodes, t1) == tour_dist(kind, nodes, t2),
{
    let k = choose|k: int| 0 <= k <= t2.len() && t1 == #[trigger] rotate_seq(t2, k);
    lemma_perm_rotate(t2, n, k);
    lemma_flip_arcs_partition(t2, n, a, b, c, d);
    assert forall|v: int| 0 <= v < n implies succ_of(t1, v) == succ_of(t2, v) by {
        lemma_succ_of_rotate(t2, n, k, v);
    }
    assert(valid_flip(t1, a, b, c, d));
    lemma_flip_view_rotate(t2, n, k, a, b, c, d);
    lemma_tour_dist_rotate(kind, nodes, t2, k);
}

/// The cached total of a well-formed two-level list is exactly the length
/// of a fresh walk over its successor sequence.
pub proof fn lemma_tll_total_is_walk(t: TwoLevelList)
    requires
        t.wf(),
    ensures
        t.total_dist as int == tour_dist(t.container.metric, t.container.nodes@, t@),
{
}

/// The cached total of a well-formed array tour is exactly the length of a
/// fresh walk over its successor sequence.
pub proof fn lemma_array_total_is_walk(t: Array)
    requires
        t.wf(),
    ensures
        t.total_dist as int == tour_dist(t.container.metric, t.container.nodes@, t@),
{
}

} // verus!
