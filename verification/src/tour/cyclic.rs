//! The mathematical model shared by all tour representations: a tour is a
//! cyclic permutation of the city ids `0 .. n`, modelled as a `Seq<int>`
//! read cyclically.  Two sequences that are rotations of one another denote
//! the same tour; every observable query (`successor`, `predecessor`,
//! `between`, the total distance) is invariant under rotation.

use vstd::prelude::*;

verus! {

/// `s` rotated left by `k`: the sequence that starts at `s[k]`.
pub open spec fn rotate_seq(s: Seq<int>, k: int) -> Seq<int>
    recommends
        0 <= k <= s.len(),
{
    s.skip(k) + s.take(k)
}

/// The number of forward steps from position `i` to position `j` on a cycle
/// of length `n`.
pub open spec fn arc_dist(i: int, j: int, n: int) -> int
    recommends
        0 <= i < n,
        0 <= j < n,
{
    if j >= i {
        j - i
    } else {
        n - i + j
    }
}

/// `s` is a permutation of the ids `0 .. n`.
pub open spec fn perm_of(s: Seq<int>, n: int) -> bool {
    &&& s.len() == n
    &&& forall|i: int| 0 <= i < n ==> 0 <= #[trigger] s[i] < n
    &&& forall|i: int, j: int| 0 <= i < j < n ==> s[i] != s[j]
    &&& forall|v: int| 0 <= v < n ==> s.contains(v)
}

/// The index of the first occurrence of `x` in `s`.
pub open spec fn idx_of(s: Seq<int>, x: int) -> int
    decreases s.len(),
{
    if s.len() <= 0 {
        0
    } else if s[0] == x {
        0
    } else {
        1 + idx_of(s.skip(1), x)
    }
}

/// The id that follows `v` on the cycle `s`.
pub open spec fn succ_of(s: Seq<int>, v: int) -> int
    recommends
        s.len() >= 1,
{
    s[(idx_of(s, v) + 1) % (s.len() as int)]
}

/// The id that precedes `v` on the cycle `s`.
pub open spec fn pred_of(s: Seq<int>, v: int) -> int
    recommends
        s.len() >= 1,
{
    s[(idx_of(s, v) + s.len() - 1) % (s.len() as int)]
}

/// Does the forward walk `a -> ... -> c` pass through `b`?  Exclusive in the
/// endpoints; meaningful for pairwise distinct `a`, `b`, `c` on the cycle.
pub open spec fn between_of(s: Seq<int>, a: int, b: int, c: int) -> bool {
    arc_dist(idx_of(s, a), idx_of(s, b), s.len() as int) < arc_dist(
        idx_of(s, a),
        idx_of(s, c),
        s.len() as int,
    )
}

/// Is `y` strictly inside the forward wrap-around arc from `x` to `z`?
/// The plain-integer form of `between_of`, used on ranks; exclusive in the
/// endpoints, meaningful for pairwise distinct labels.
pub open spec fn rank_between(x: int, y: int, z: int) -> bool {
    if x <= z {
        x < y && y < z
    } else {
        y > x || y < z
    }
}

/// Reverse the arc of `k` ids that starts at position `i` of `s`; the result
/// is anchored at the reversed arc (its first id is the arc's old last id).
pub open spec fn flip_arc(s: Seq<int>, i: int, k: int) -> Seq<int>
    recommends
        0 <= i < s.len(),
        1 <= k <= s.len(),
{
    rotate_seq(s, i).take(k).reverse() + rotate_seq(s, i).skip(k)
}

/// The tour that a 2-opt move `flip(a, b, c, d)` produces from `s`: the
/// edges `(a, b)` and `(c, d)` are replaced by `(a, c)` and `(b, d)` by
/// reversing the shorter of the arcs `b -> c` and `d -> a` (counted in
/// ids); on a tie the arc `b -> c` is reversed.
pub open spec fn flip_view(s: Seq<int>, a: int, b: int, c: int, d: int) -> Seq<int> {
    let n = s.len() as int;
    let k1 = arc_dist(idx_of(s, b), idx_of(s, c), n) + 1;
    if 2 * k1 <= n {
        flip_arc(s, idx_of(s, b), k1)
    } else {
        flip_arc(s, idx_of(s, d), n - k1)
    }
}

/// The inputs on which `flip` is defined: four pairwise distinct ids with
/// `b` the successor of `a` and `d` the successor of `c`.
pub open spec fn valid_flip(s: Seq<int>, a: int, b: int, c: int, d: int) -> bool {
    &&& perm_of(s, s.len() as int)
    &&& 0 <= a < s.len()
    &&& 0 <= b < s.len()
    &&& 0 <= c < s.len()
    &&& 0 <= d < s.len()
    &&& a != b && a != c && a != d && b != c && b != d && c != d
    &&& b == succ_of(s, a)
    &&& d == succ_of(s, c)
}

/// `s` and `t` denote the same cyclic tour: `s` is a rotation of `t`.
pub open spec fn cyc_eq(s: Seq<int>, t: Seq<int>) -> bool {
    exists|k: int| 0 <= k <= t.len() && s == #[trigger] rotate_seq(t, k)
}

// ---------------------------------------------------------------------------
// Rotation
// ---------------------------------------------------------------------------

/// Remainders of sums that stay below `2 * n` need no general division
/// reasoning.
pub proof fn lemma_mod_shift(x: int, n: int)
    requires
        n >= 1,
        0 <= x < 2 * n,
    ensures
        x % n == if x < n {
            x
        } else {
            x - n
        },
{
    if x < n {
        vstd::arithmetic::div_mod::lemma_small_mod(x as nat, n as nat);
    } else {
        vstd::arithmetic::div_mod::lemma_mod_sub_multiples_vanish(x, n);
        assert((-n + x) % n == x % n);
        vstd::arithmetic::div_mod::lemma_small_mod((x - n) as nat, n as nat);
    }
}

pub proof fn lemma_rotate_index(s: Seq<int>, k: int)
    requires
        0 <= k <= s.len(),
        s.len() >= 1,
    ensures
        rotate_seq(s, k).len() == s.len(),
        forall|t: int|
            0 <= t < s.len() ==> #[trigger] rotate_seq(s, k)[t] == s[(t + k) % (s.len() as int)],
{
    let n = s.len() as int;
    assert forall|t: int| 0 <= t < n implies #[trigger] rotate_seq(s, k)[t] == s[(t + k) % n] by {
        lemma_mod_shift(t + k, n);
    }
}

pub proof fn lemma_rotate_full(s: Seq<int>)
    ensures
        rotate_seq(s, 0) == s,
        rotate_seq(s, s.len() as int) == s,
{
    assert(rotate_seq(s, 0) =~= s);
    assert(rotate_seq(s, s.len() as int) =~= s);
}

pub proof fn lemma_rotate_compose(s: Seq<int>, a: int, b: int)
    requires
        s.len() >= 1,
        0 <= a <= s.len(),
        0 <= b <= s.len(),
    ensures
        rotate_seq(rotate_seq(s, a), b) == rotate_seq(s, (a + b) % (s.len() as int)),
{
    let n = s.len() as int;
    let c = (a + b) % n;
    if a + b == 2 * n {
        lemma_rotate_full(s);
        vstd::arithmetic::div_mod::lemma_mod_sub_multiples_vanish(2 * n, n);
        vstd::arithmetic::div_mod::lemma_mod_sub_multiples_vanish(n, n);
        vstd::arithmetic::div_mod::lemma_small_mod(0nat, n as nat);
        assert(c == 0);
        return ;
    }
    lemma_mod_shift(a + b, n);
    lemma_rotate_index(s, a);
    lemma_rotate_index(rotate_seq(s, a), b);
    lemma_rotate_index(s, c);
    assert forall|t: int| 0 <= t < n implies rotate_seq(rotate_seq(s, a), b)[t] == rotate_seq(
        s,
        c,
    )[t] by {
        let u = (t + b) % n;
        lemma_mod_shift(t + b, n);
        assert(rotate_seq(rotate_seq(s, a), b)[t] == rotate_seq(s, a)[u]);
        assert(rotate_seq(s, a)[u] == s[(u + a) % n]);
        lemma_mod_shift(u + a, n);
        lemma_mod_shift(t + c, n);
    }
    assert(rotate_seq(rotate_seq(s, a), b) =~= rotate_seq(s, c));
}

// ---------------------------------------------------------------------------
// First-occurrence index
// ---------------------------------------------------------------------------

pub proof fn lemma_idx_of_props(s: Seq<int>, x: int)
    requires
        s.contains(x),
    ensures
        0 <= idx_of(s, x) < s.len(),
        s[idx_of(s, x)] == x,
        forall|j: int| 0 <= j < idx_of(s, x) ==> s[j] != x,
    decreases s.len(),
{
    if s[0] == x {
    } else {
        let i = choose|i: int| 0 <= i < s.len() && s[i] == x;
        assert(s.skip(1)[i - 1] == x);
        lemma_idx_of_props(s.skip(1), x);
        assert forall|j: int| 0 <= j < idx_of(s, x) implies s[j] != x by {
            if j >= 1 {
                assert(s.skip(1)[j - 1] == s[j]);
            }
        }
    }
}

/// In a duplicate-free sequence, `idx_of` inverts indexing.
pub proof fn lemma_idx_of_exact(s: Seq<int>, i: int)
    requires
        0 <= i < s.len(),
        forall|j: int, k: int| 0 <= j < k < s.len() ==> s[j] != s[k],
    ensures
        idx_of(s, s[i]) == i,
        s.contains(s[i]),
{
    assert(s.contains(s[i]));
    lemma_idx_of_props(s, s[i]);
    let idx = idx_of(s, s[i]);
    if idx < i {
        assert(s[idx] != s[i]);
    } else if idx > i {
        assert(s[i] != s[idx]);
    }
}

/// The four `perm_of` clauses restated with unordered index pairs.
pub proof fn lemma_perm_distinct(s: Seq<int>, n: int)
    requires
        perm_of(s, n),
    ensures
        forall|i: int, j: int| 0 <= i < n && 0 <= j < n && i != j ==> s[i] != s[j],
{
    assert forall|i: int, j: int| 0 <= i < n && 0 <= j < n && i != j implies s[i] != s[j] by {
        if i < j {
            assert(s[i] != s[j]);
        } else {
            assert(s[j] != s[i]);
        }
    }
}

pub proof fn lemma_perm_idx_of(s: Seq<int>, n: int, v: int)
    requires
        perm_of(s, n),
        0 <= v < n,
    ensures
        0 <= idx_of(s, v) < n,
        s[idx_of(s, v)] == v,
        forall|j: int| 0 <= j < n && j != idx_of(s, v) ==> s[j] != v,
{
    lemma_idx_of_props(s, v);
    lemma_perm_distinct(s, n);
}

/// A duplicate-free sequence of `n` values drawn from `0 .. n` hits every
/// value: the pigeonhole argument behind `apply`'s run-time permutation
/// check.
pub proof fn lemma_perm_complete(s: Seq<int>, n: int)
    requires
        s.len() == n,
        forall|i: int| 0 <= i < n ==> 0 <= #[trigger] s[i] < n,
        forall|i: int, j: int| 0 <= i < j < n ==> s[i] != s[j],
    ensures
        perm_of(s, n),
{
    broadcast use vstd::seq_lib::seq_to_set_is_finite;

    assert(s.no_duplicates()) by {
        assert forall|i: int, j: int|
            0 <= i < s.len() && 0 <= j < s.len() && i != j implies s[i] != s[j] by {
            if i < j {
                assert(s[i] != s[j]);
            } else {
                assert(s[j] != s[i]);
            }
        }
    }
    s.unique_seq_to_set();
    vstd::set_lib::lemma_int_range(0, n);
    assert(s.to_set().subset_of(vstd::set_lib::set_int_range(0, n))) by {
        assert forall|v: int| s.to_set().contains(v) implies vstd::set_lib::set_int_range(
            0,
            n,
        ).contains(v) by {
            let i = choose|i: int| 0 <= i < s.len() && s[i] == v;
            assert(0 <= s[i] < n);
        }
    }
    vstd::set_lib::lemma_subset_equality(s.to_set(), vstd::set_lib::set_int_range(0, n));
    assert forall|v: int| 0 <= v < n implies s.contains(v) by {
        assert(vstd::set_lib::set_int_range(0, n).contains(v));
        assert(s.to_set().contains(v));
    }
}

/// Fewer than `n` distinct values drawn from `0 .. n` miss some value.
pub proof fn lemma_missing_value(s: Seq<int>, n: int) -> (v: int)
    requires
        s.len() < n,
        forall|i: int| 0 <= i < s.len() ==> 0 <= #[trigger] s[i] < n,
        forall|i: int, j: int| 0 <= i < j < s.len() ==> s[i] != s[j],
    ensures
        0 <= v < n,
        !s.contains(v),
{
    broadcast use vstd::seq_lib::seq_to_set_is_finite;

    assert(s.no_duplicates()) by {
        assert forall|i: int, j: int|
            0 <= i < s.len() && 0 <= j < s.len() && i != j implies s[i] != s[j] by {
            if i < j {
                assert(s[i] != s[j]);
            } else {
                assert(s[j] != s[i]);
            }
        }
    }
    s.unique_seq_to_set();
    vstd::set_lib::lemma_int_range(0, n);
    if forall|v: int| 0 <= v < n ==> s.contains(v) {
        assert(vstd::set_lib::set_int_range(0, n).subset_of(s.to_set())) by {
            assert forall|v: int|
                vstd::set_lib::set_int_range(0, n).contains(v) implies s.to_set().contains(v) by {
                assert(s.contains(v));
            }
        }
        vstd::set_lib::lemma_len_subset(vstd::set_lib::set_int_range(0, n), s.to_set());
        assert(false);
    }
    let v = choose|v: int| 0 <= v < n && !s.contains(v);
    v
}

// ---------------------------------------------------------------------------
// Permutations survive rotation and reversal
// ---------------------------------------------------------------------------

pub proof fn lemma_perm_rotate(s: Seq<int>, n: int, k: int)
    requires
        perm_of(s, n),
        n >= 1,
        0 <= k <= n,
    ensures
        perm_of(rotate_seq(s, k), n),
{
    let r = rotate_seq(s, k);
    lemma_rotate_index(s, k);
    lemma_perm_distinct(s, n);
    assert forall|i: int, j: int| 0 <= i < j < n implies r[i] != r[j] by {
        lemma_mod_shift(i + k, n);
        lemma_mod_shift(j + k, n);
    }
    assert forall|v: int| 0 <= v < n implies r.contains(v) by {
        let i = idx_of(s, v);
        lemma_perm_idx_of(s, n, v);
        let t = (i + n - k) % n;
        lemma_mod_shift(i + n - k, n);
        lemma_mod_shift(t + k, n);
        assert(r[t] == v);
    }
}

pub proof fn lemma_idx_of_rotate(s: Seq<int>, n: int, k: int, v: int)
    requires
        perm_of(s, n),
        n >= 1,
        0 <= k <= n,
        0 <= v < n,
    ensures
        idx_of(rotate_seq(s, k), v) == (idx_of(s, v) + n - k) % n,
        rotate_seq(s, k)[(idx_of(s, v) + n - k) % n] == v,
{
    let r = rotate_seq(s, k);
    let i = idx_of(s, v);
    lemma_perm_idx_of(s, n, v);
    lemma_perm_rotate(s, n, k);
    lemma_rotate_index(s, k);
    let t = (i + n - k) % n;
    lemma_mod_shift(i + n - k, n);
    lemma_mod_shift(t + k, n);
    assert(r[t] == v);
    lemma_perm_distinct(r, n);
    lemma_idx_of_exact(r, t);
}

// ---------------------------------------------------------------------------
// Observables are rotation-invariant
// ---------------------------------------------------------------------------

pub proof fn lemma_arc_dist_shift(x: int, y: int, t: int, n: int)
    requires
        n >= 1,
        0 <= x < n,
        0 <= y < n,
        0 <= t <= n,
    ensures
        arc_dist((x + t) % n, (y + t) % n, n) == arc_dist(x, y, n),
{
    lemma_mod_shift(x + t, n);
    lemma_mod_shift(y + t, n);
}

pub proof fn lemma_succ_of_rotate(s: Seq<int>, n: int, k: int, v: int)
    requires
        perm_of(s, n),
        n >= 1,
        0 <= k <= n,
        0 <= v < n,
    ensures
        succ_of(rotate_seq(s, k), v) == succ_of(s, v),
        pred_of(rotate_seq(s, k), v) == pred_of(s, v),
{
    let r = rotate_seq(s, k);
    let i = idx_of(s, v);
    lemma_perm_idx_of(s, n, v);
    lemma_idx_of_rotate(s, n, k, v);
    lemma_rotate_index(s, k);
    let t = (i + n - k) % n;
    lemma_mod_shift(i + n - k, n);
    // successor
    let ts = (t + 1) % n;
    lemma_mod_shift(t + 1, n);
    lemma_mod_shift(ts + k, n);
    lemma_mod_shift(i + 1, n);
    assert(r[ts] == s[(ts + k) % n]);
    assert((ts + k) % n == (i + 1) % n);
    // predecessor
    let tp = (t + n - 1) % n;
    lemma_mod_shift(t + n - 1, n);
    lemma_mod_shift(tp + k, n);
    lemma_mod_shift(i + n - 1, n);
    assert(r[tp] == s[(tp + k) % n]);
    assert((tp + k) % n == (i + n - 1) % n);
}

pub proof fn lemma_between_of_rotate(s: Seq<int>, n: int, k: int, a: int, b: int, c: int)
    requires
        perm_of(s, n),
        n >= 1,
        0 <= k <= n,
        0 <= a < n,
        0 <= b < n,
        0 <= c < n,
    ensures
        between_of(rotate_seq(s, k), a, b, c) == between_of(s, a, b, c),
{
    lemma_idx_of_rotate(s, n, k, a);
    lemma_idx_of_rotate(s, n, k, b);
    lemma_idx_of_rotate(s, n, k, c);
    lemma_perm_idx_of(s, n, a);
    lemma_perm_idx_of(s, n, b);
    lemma_perm_idx_of(s, n, c);
    lemma_arc_dist_shift(idx_of(s, a), idx_of(s, b), n - k, n);
    lemma_arc_dist_shift(idx_of(s, a), idx_of(s, c), n - k, n);
    lemma_mod_shift(idx_of(s, a) + n - k, n);
    lemma_mod_shift(idx_of(s, b) + n - k, n);
    lemma_mod_shift(idx_of(s, c) + n - k, n);
}

/// Everything a consumer needs to carry a fact across `cyc_eq`.
pub proof fn lemma_cyc_eq_observables(s: Seq<int>, t: Seq<int>, n: int)
    requires
        cyc_eq(s, t),
        perm_of(t, n),
        n >= 1,
    ensures
        perm_of(s, n),
        forall|v: int| 0 <= v < n ==> succ_of(s, v) == succ_of(t, v),
        forall|v: int| 0 <= v < n ==> pred_of(s, v) == pred_of(t, v),
        forall|a: int, b: int, c: int|
            0 <= a < n && 0 <= b < n && 0 <= c < n ==> between_of(s, a, b, c) == #[trigger] between_of(
                t,
                a,
                b,
                c,
            ),
{
    let k = choose|k: int| 0 <= k <= t.len() && s == #[trigger] rotate_seq(t, k);
    lemma_perm_rotate(t, n, k);
    assert forall|v: int| 0 <= v < n implies succ_of(s, v) == succ_of(t, v) && pred_of(s, v)
        == pred_of(t, v) by {
        lemma_succ_of_rotate(t, n, k, v);
    }
    assert forall|a: int, b: int, c: int|
        0 <= a < n && 0 <= b < n && 0 <= c < n implies between_of(s, a, b, c)
        == #[trigger] between_of(t, a, b, c) by {
        lemma_between_of_rotate(t, n, k, a, b, c);
    }
}

// ---------------------------------------------------------------------------
// Rank arithmetic behind the O(1) `between` query
// ---------------------------------------------------------------------------

/// `rank_between` is exactly the cyclic comparison of forward distances, for
/// any modulus that bounds the three labels.
pub proof fn lemma_rank_between_cyc(x: int, y: int, z: int, mm: int)
    requires
        0 <= x < mm,
        0 <= y < mm,
        0 <= z < mm,
        x != y,
        y != z,
        z != x,
    ensures
        rank_between(x, y, z) == (arc_dist(x, y, mm) < arc_dist(x, z, mm)),
{
}

/// Mirroring the labels of a cycle reverses its orientation.
pub proof fn lemma_rank_between_reverse(x: int, y: int, z: int, ll: int)
    requires
        0 <= x < ll,
        0 <= y < ll,
        0 <= z < ll,
        x != y,
        y != z,
        z != x,
    ensures
        rank_between(ll - 1 - x, ll - 1 - y, ll - 1 - z) == !rank_between(x, y, z),
{
}

/// Three ids inside one window of the cycle compare the same way whether the
/// forward distances are measured on the whole cycle or inside the window.
pub proof fn lemma_cyc3_window(pw: int, lw: int, n: int, la: int, lb: int, lc: int)
    requires
        0 <= pw,
        pw + lw <= n,
        0 <= la < lw,
        0 <= lb < lw,
        0 <= lc < lw,
        la != lb,
        lb != lc,
        lc != la,
    ensures
        (arc_dist(pw + la, pw + lb, n) < arc_dist(pw + la, pw + lc, n)) == (arc_dist(la, lb, lw)
            < arc_dist(la, lc, lw)),
{
}

/// `a` and `b` share a window and `z` lies outside it: the walk from `a`
/// meets `b` before `z` exactly when `b` is logically after `a`.
pub proof fn lemma_cyc3_front(pw: int, lw: int, n: int, la: int, lb: int, z: int)
    requires
        0 <= pw,
        pw + lw <= n,
        0 <= la < lw,
        0 <= lb < lw,
        la != lb,
        0 <= z < n,
        !(pw <= z < pw + lw),
    ensures
        (arc_dist(pw + la, pw + lb, n) < arc_dist(pw + la, z, n)) == (la < lb),
{
}

/// `b` and `c` share a window and the walk starts outside it at `z`: it
/// meets `b` before `c` exactly when `b` is logically before `c`.
pub proof fn lemma_cyc3_mid(pw: int, lw: int, n: int, lb: int, lc: int, z: int)
    requires
        0 <= pw,
        pw + lw <= n,
        0 <= lb < lw,
        0 <= lc < lw,
        lb != lc,
        0 <= z < n,
        !(pw <= z < pw + lw),
    ensures
        (arc_dist(z, pw + lb, n) < arc_dist(z, pw + lc, n)) == (lb < lc),
{
}

/// `a` and `c` share a window and `z` lies outside it: the walk from `a`
/// meets `z` before `c` exactly when `c` is logically before `a`.
pub proof fn lemma_cyc3_ends(pw: int, lw: int, n: int, la: int, lc: int, z: int)
    requires
        0 <= pw,
        pw + lw <= n,
        0 <= la < lw,
        0 <= lc < lw,
        la != lc,
        0 <= z < n,
        !(pw <= z < pw + lw),
    ensures
        (arc_dist(pw + la, z, n) < arc_dist(pw + la, pw + lc, n)) == (lc < la),
{
}

// ---------------------------------------------------------------------------
// Reversing an arc
// ---------------------------------------------------------------------------

pub proof fn lemma_flip_arc_index(s: Seq<int>, i: int, k: int)
    requires
        s.len() >= 1,
        0 <= i < s.len(),
        1 <= k <= s.len(),
    ensures
        flip_arc(s, i, k).len() == s.len(),
        forall|t: int|
            0 <= t < k ==> #[trigger] flip_arc(s, i, k)[t] == s[(i + k - 1 - t) % (s.len() as int)],
        forall|t: int|
            k <= t < s.len() ==> #[trigger] flip_arc(s, i, k)[t] == s[(i + t) % (s.len() as int)],
{
    let n = s.len() as int;
    let r = rotate_seq(s, i);
    lemma_rotate_index(s, i);
    assert forall|t: int| 0 <= t < k implies #[trigger] flip_arc(s, i, k)[t] == s[(i + k - 1 - t)
        % n] by {
        assert(flip_arc(s, i, k)[t] == r.take(k).reverse()[t]);
        assert(r.take(k).reverse()[t] == r.take(k)[k - 1 - t]);
        assert(r.take(k)[k - 1 - t] == r[k - 1 - t]);
        assert(r[k - 1 - t] == s[(k - 1 - t + i) % n]);
    }
    assert forall|t: int| k <= t < n implies #[trigger] flip_arc(s, i, k)[t] == s[(i + t) % n] by {
        assert(flip_arc(s, i, k)[t] == r.skip(k)[t - k]);
        assert(r.skip(k)[t - k] == r[t]);
    }
}

pub proof fn lemma_flip_arc_perm(s: Seq<int>, n: int, i: int, k: int)
    requires
        perm_of(s, n),
        n >= 1,
        0 <= i < n,
        1 <= k <= n,
    ensures
        perm_of(flip_arc(s, i, k), n),
{
    let f = flip_arc(s, i, k);
    lemma_flip_arc_index(s, i, k);
    lemma_perm_distinct(s, n);
    assert forall|t: int| 0 <= t < n implies 0 <= #[trigger] f[t] < n by {
        if t < k {
            lemma_mod_shift(i + k - 1 - t, n);
        } else {
            lemma_mod_shift(i + t, n);
        }
    }
    assert forall|t1: int, t2: int| 0 <= t1 < t2 < n implies f[t1] != f[t2] by {
        if t1 < k {
            lemma_mod_shift(i + k - 1 - t1, n);
        } else {
            lemma_mod_shift(i + t1, n);
        }
        if t2 < k {
            lemma_mod_shift(i + k - 1 - t2, n);
        } else {
            lemma_mod_shift(i + t2, n);
        }
    }
    assert forall|v: int| 0 <= v < n implies f.contains(v) by {
        let j = idx_of(s, v);
        lemma_perm_idx_of(s, n, v);
        let o = (j + n - i) % n;
        lemma_mod_shift(j + n - i, n);
        if o < k {
            let t = k - 1 - o;
            lemma_mod_shift(i + k - 1 - t, n);
            assert(f[t] == v);
        } else {
            lemma_mod_shift(i + o, n);
            assert(f[o] == v);
        }
    }
}

/// `flip_arc` anchored at a given id does not care how its input tour was
/// rotated: rotations of the same cyclic tour give the very same result.
pub proof fn lemma_flip_arc_anchor(s: Seq<int>, n: int, j: int, x: int, k: int)
    requires
        perm_of(s, n),
        n >= 1,
        0 <= j <= n,
        0 <= x < n,
        1 <= k <= n,
    ensures
        flip_arc(rotate_seq(s, j), idx_of(rotate_seq(s, j), x), k) == flip_arc(
            s,
            idx_of(s, x),
            k,
        ),
{
    let sj = rotate_seq(s, j);
    let i = idx_of(s, x);
    lemma_perm_idx_of(s, n, x);
    lemma_idx_of_rotate(s, n, j, x);
    let ij = (i + n - j) % n;
    lemma_mod_shift(i + n - j, n);
    lemma_rotate_compose(s, j, ij);
    lemma_mod_shift(j + ij, n);
    assert((j + ij) % n == i);
    assert(rotate_seq(sj, ij) == rotate_seq(s, i));
}

/// The whole of `flip_view` is likewise anchored: a rotated input yields the
/// identical output sequence.
pub proof fn lemma_flip_view_rotate(s: Seq<int>, n: int, j: int, a: int, b: int, c: int, d: int)
    requires
        perm_of(s, n),
        n >= 1,
        0 <= j <= n,
        0 <= a < n,
        0 <= b < n,
        0 <= c < n,
        0 <= d < n,
        arc_dist(idx_of(s, b), idx_of(s, c), n) <= n - 2,
    ensures
        flip_view(rotate_seq(s, j), a, b, c, d) == flip_view(s, a, b, c, d),
{
    let sj = rotate_seq(s, j);
    lemma_perm_rotate(s, n, j);
    lemma_idx_of_rotate(s, n, j, b);
    lemma_idx_of_rotate(s, n, j, c);
    lemma_perm_idx_of(s, n, b);
    lemma_perm_idx_of(s, n, c);
    lemma_arc_dist_shift(idx_of(s, b), idx_of(s, c), n - j, n);
    lemma_mod_shift(idx_of(s, b) + n - j, n);
    lemma_mod_shift(idx_of(s, c) + n - j, n);
    let k1 = arc_dist(idx_of(s, b), idx_of(s, c), n) + 1;
    assert(arc_dist(idx_of(sj, b), idx_of(sj, c), n) + 1 == k1);
    if 2 * k1 <= n {
        lemma_flip_arc_anchor(s, n, j, b, k1);
    } else {
        lemma_flip_arc_anchor(s, n, j, d, n - k1);
    }
}

/// On a valid flip quadruple the arcs `b -> c` and `d -> a` split the cycle
/// between them.
pub proof fn lemma_flip_arcs_partition(s: Seq<int>, n: int, a: int, b: int, c: int, d: int)
    requires
        valid_flip(s, a, b, c, d),
        n == s.len(),
    ensures
        n >= 4,
        idx_of(s, b) == (idx_of(s, a) + 1) % n,
        idx_of(s, d) == (idx_of(s, c) + 1) % n,
        2 <= arc_dist(idx_of(s, b), idx_of(s, c), n) + 1 <= n - 2,
        arc_dist(idx_of(s, b), idx_of(s, c), n) + 1 + arc_dist(idx_of(s, d), idx_of(s, a), n) + 1
            == n,
{
    let ia = idx_of(s, a);
    let ib = idx_of(s, b);
    let ic = idx_of(s, c);
    let id = idx_of(s, d);
    lemma_perm_idx_of(s, n, a);
    lemma_perm_idx_of(s, n, b);
    lemma_perm_idx_of(s, n, c);
    lemma_perm_idx_of(s, n, d);
    lemma_perm_distinct(s, n);
    // the four ids are distinct, so n >= 4
    assert(n >= 4);
    lemma_mod_shift(ia + 1, n);
    lemma_idx_of_exact(s, (ia + 1) % n);
    lemma_mod_shift(ic + 1, n);
    lemma_idx_of_exact(s, (ic + 1) % n);
}

} // verus!
