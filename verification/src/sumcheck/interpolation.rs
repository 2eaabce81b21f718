//! Why the verifier's interpolation recovers the round polynomial: the
//! Lagrange formula over the nodes `0, 1, ..., d` against divided
//! differences.

use vstd::prelude::*;
use vstd::arithmetic::div_mod::*;
use crate::field::{fadd, finv, fmul, fsub, is_prime};
use crate::lagrange::{
    canonical_seq, dd_terms, diff_product, distinct_nodes, divided_difference, fsum, vanishing,
    weight, lemma_diff_product_nonzero, lemma_difference_nonzero, lemma_fsum_canonical,
    lemma_fsum_combination, lemma_fsum_congruent, lemma_weight_drop_last, lemma_weight_nonzero,
};
use crate::ring::{
    canonical, lemma_finv, lemma_fmul_assoc, lemma_fmul_comm, lemma_identities, lemma_ops_canonical,
};
use crate::sumcheck::verification::{interpolate, interpolate_prefix, lagrange_term, node_product};

verus! {

/// The nodes `0, 1, ..., d` followed by the point `r`.
pub open spec fn nodes_with(d: int, r: int) -> Seq<int> {
    Seq::new((d + 2) as nat, |i: int| if i <= d { i } else { r })
}

/// The terms of the Lagrange formula for `evals` at `x`.
pub open spec fn lagrange_terms(p: int, evals: Seq<int>, x: int) -> Seq<int> {
    Seq::new(evals.len(), |i: int| lagrange_term(p, evals, x, i))
}

/// The interpolated value is the sum of the terms of the Lagrange formula.
pub proof fn lemma_interpolate_is_sum(p: int, evals: Seq<int>, x: int, m: int)
    requires
        0 <= m <= evals.len(),
    ensures
        interpolate_prefix(p, evals, x, m) == fsum(p, lagrange_terms(p, evals, x), 0, m),
    decreases m,
{
    if m > 0 {
        lemma_interpolate_is_sum(p, evals, x, m - 1);
    }
}

/// Over the nodes `0, 1, ..., d` and `r`, the product that the verifier
/// forms for node `i` is the product of differences of that node.
pub proof fn lemma_node_product_is_diff_product(p: int, d: int, r: int, i: int, k: int)
    requires
        p >= 2,
        0 <= d < p,
        0 <= i <= d + 1,
        0 <= k <= d + 1,
    ensures
        node_product(p, nodes_with(d, r)[i], i, k) == diff_product(p, nodes_with(d, r), i, 0, k),
    decreases k,
{
    if k > 0 {
        lemma_node_product_is_diff_product(p, d, r, i, k - 1);
        lemma_small_mod((k - 1) as nat, p as nat);
        assert(nodes_with(d, r)[k - 1] == k - 1);
    }
}

/// A product that skips node `i`, times the factor skipped, is the product
/// that skips nothing.
pub proof fn lemma_node_product_insert(p: int, x: int, i: int, k: int)
    requires
        p >= 2,
        canonical(p, x),
        0 <= i < k,
    ensures
        node_product(p, x, k, k) == fmul(p, node_product(p, x, i, k), fsub(p, x, i % p)),
    decreases k,
{
    let f = fsub(p, x, i % p);
    if k - 1 == i {
        // the last factor is the one skipped
        lemma_node_product_skip_beyond(p, x, k, k - 1, k - 1);
        lemma_node_product_skip_beyond(p, x, i, k - 1, k - 1);
        assert(node_product(p, x, k, k) == fmul(p, node_product(p, x, k, k - 1), f));
        assert(node_product(p, x, i, k) == node_product(p, x, i, k - 1));
    } else {
        lemma_node_product_insert(p, x, i, k - 1);
        lemma_node_product_skip_beyond(p, x, k, k - 1, k - 1);
        let rest = node_product(p, x, i, k - 1);
        let last = fsub(p, x, (k - 1) % p);
        assert(node_product(p, x, k, k) == fmul(p, node_product(p, x, k - 1, k - 1), last));
        assert(node_product(p, x, i, k) == fmul(p, rest, last));
        // (rest * f) * last == (rest * last) * f
        lemma_fmul_assoc(p, rest, f, last);
        lemma_fmul_comm(p, f, last);
        lemma_fmul_assoc(p, rest, last, f);
    }
}

/// A product over the nodes below `k` does not depend on which node at or
/// beyond `k` it is told to skip.
pub proof fn lemma_node_product_skip_beyond(p: int, x: int, i: int, i2: int, k: int)
    requires
        i >= k,
        i2 >= k,
    ensures
        node_product(p, x, i, k) == node_product(p, x, i2, k),
    decreases k,
{
    if k > 0 {
        lemma_node_product_skip_beyond(p, x, i, i2, k - 1);
    }
}

/// A product with a zero factor is zero.
pub proof fn lemma_node_product_zero(p: int, x: int, i: int, j: int, k: int)
    requires
        p >= 2,
        0 <= j < k,
        j != i,
        x == j % p,
    ensures
        node_product(p, x, i, k) == 0,
    decreases k,
{
    if k - 1 == j {
        lemma_mod_self_0(p);
        lemma_sub_mod_noop(x, (k - 1) % p, p);
        assert(fsub(p, x, (k - 1) % p) == 0) by {
            lemma_small_mod(0, p as nat);
        }
        assert(node_product(p, x, i, k - 1) * 0 == 0);
        lemma_small_mod(0, p as nat);
    } else {
        lemma_node_product_zero(p, x, i, j, k - 1);
        if k - 1 != i {
            assert(0 * fsub(p, x, (k - 1) % p) == 0);
            lemma_small_mod(0, p as nat);
        }
    }
}

/// A sum with a single term that is not zero is that term.
pub proof fn lemma_fsum_single(p: int, t: Seq<int>, lo: int, k: int, r: int)
    requires
        p >= 2,
        0 <= lo <= k <= t.len(),
        forall|i: int| lo <= i < k && i != r ==> #[trigger] t[i] == 0,
        lo <= r < k ==> canonical(p, t[r]),
    ensures
        fsum(p, t, lo, k) == (if lo <= r < k {
            t[r]
        } else {
            0
        }),
    decreases k - lo,
{
    if k > lo {
        lemma_fsum_single(p, t, lo, k - 1, r);
        lemma_small_mod(0, p as nat);
        if lo <= r < k {
            lemma_identities(p, t[r]);
        }
    }
}

/// The numbers `0, 1, ..., d` and a canonical `r` beyond them are distinct
/// nodes.
pub proof fn lemma_nodes_distinct(p: int, d: int, r: int)
    requires
        0 <= d < r < p,
    ensures
        distinct_nodes(p, nodes_with(d, r)),
{
}

/// At a node, interpolation returns the value given for that node.
pub proof fn lemma_interpolate_at_node(p: int, evals: Seq<int>, r: int)
    requires
        is_prime(p),
        canonical_seq(p, evals),
        0 < evals.len() <= p,
        0 <= r < evals.len(),
    ensures
        interpolate(p, evals, r) == evals[r],
{
    let d = evals.len() - 1;
    let t = lagrange_terms(p, evals, r);
    lemma_small_mod(r as nat, p as nat);
    assert forall|i: int| 0 <= i <= d && i != r implies #[trigger] t[i] == 0 by {
        lemma_node_product_zero(p, r, i, r, d + 1);
        let q = finv(p, node_product(p, i % p, i, d + 1));
        assert(0 * q == 0);
        assert(evals[i] * 0 == 0);
        lemma_small_mod(0, p as nat);
    }
    assert(t[r] == evals[r]) by {
        // the nodes 0..=d with any further node: only the first d + 1 matter
        let xs = nodes_with(d, p - 1);
        assert(xs[r] == r);
        if d < p - 1 {
            lemma_nodes_distinct(p, d, p - 1);
            lemma_node_product_is_diff_product(p, d, p - 1, r, d + 1);
            lemma_diff_product_nonzero(p, xs, r, 0, d + 1);
        } else {
            // d == p - 1: the nodes are all residues; drop the extra one
            let ys = Seq::new((d + 1) as nat, |i: int| i);
            assert(distinct_nodes(p, ys));
            lemma_diff_product_nonzero(p, ys, r, 0, d + 1);
            lemma_node_product_is_diff_product(p, d, p - 1, r, d + 1);
            lemma_diff_product_congruent(p, xs, ys, r, 0, d + 1);
        }
        let den = node_product(p, r, r, d + 1);
        lemma_finv(p, den);
        lemma_identities(p, evals[r]);
    }
    lemma_interpolate_is_sum(p, evals, r, d + 1);
    lemma_fsum_single(p, t, 0, d + 1, r);
}

/// Products of differences over node sequences that agree on `[lo, hi)`
/// and at `i` agree.
pub proof fn lemma_diff_product_congruent(
    p: int,
    xs: Seq<int>,
    ys: Seq<int>,
    i: int,
    lo: int,
    hi: int,
)
    requires
        0 <= lo,
        hi <= xs.len(),
        hi <= ys.len(),
        0 <= i < xs.len(),
        0 <= i < ys.len(),
        xs[i] == ys[i],
        forall|j: int| lo <= j < hi ==> xs[j] == ys[j],
    ensures
        diff_product(p, xs, i, lo, hi) == diff_product(p, ys, i, lo, hi),
    decreases hi - lo,
{
    if hi > lo {
        lemma_diff_product_congruent(p, xs, ys, i, lo, hi - 1);
    }
}

/// With `om = n * (r - xi)`: `om * (v * w)` is the negative of
/// `v * (n * (w * (xi - r)))`.
proof fn lemma_bridge_identity(p: int, v: int, w: int, n: int, xi: int, r: int)
    requires
        p >= 2,
    ensures
        fmul(p, fmul(p, n, fsub(p, r, xi)), fmul(p, v, w)) == fadd(
            p,
            fmul(p, p - 1, fmul(p, v, fmul(p, n, fmul(p, w, fsub(p, xi, r))))),
            fmul(p, 0, 0),
        ),
{
    lemma_mul_mod_noop_general(n, r - xi, p);
    lemma_mul_mod_noop_general(n * (r - xi), v * w, p);
    let left = (n * (r - xi)) * (v * w);
    assert(fmul(p, fmul(p, n, fsub(p, r, xi)), fmul(p, v, w)) == left % p);
    lemma_mul_mod_noop_general(w, xi - r, p);
    lemma_mul_mod_noop_general(n, w * (xi - r), p);
    lemma_mul_mod_noop_general(v, n * (w * (xi - r)), p);
    let inner = v * (n * (w * (xi - r)));
    lemma_mul_mod_noop_general(p - 1, inner, p);
    assert(fmul(p, p - 1, fmul(p, v, fmul(p, n, fmul(p, w, fsub(p, xi, r))))) == ((p - 1) * inner)
        % p);
    assert(0int * 0int == 0int);
    lemma_small_mod(0, p as nat);
    lemma_add_mod_noop((p - 1) * inner, 0, p);
    lemma_mod_twice((p - 1) * inner, p);
    assert((p - 1) * inner == p * inner + left) by (nonlinear_arith)
        requires
            left == (n * (r - xi)) * (v * w),
            inner == v * (n * (w * (xi - r))),
    ;
    lemma_mod_multiples_vanish(inner, left, p);
}

/// Away from the nodes: if the divided differences of the values
/// `evals[0], ..., evals[d], hr` over the nodes `0, ..., d, r` vanish for
/// degree `d`, then interpolating `evals` at `r` gives `hr`.
pub proof fn lemma_interpolate_off_node(p: int, evals: Seq<int>, r: int, hr: int)
    requires
        is_prime(p),
        canonical_seq(p, evals),
        0 < evals.len() <= r < p,
        canonical(p, hr),
        vanishing(p, nodes_with(evals.len() - 1, r), evals.push(hr), evals.len() - 1),
    ensures
        interpolate(p, evals, r) == hr,
{
    let d = evals.len() - 1;
    let xs = nodes_with(d, r);
    let vs = evals.push(hr);
    lemma_nodes_distinct(p, d, r);
    assert(divided_difference(p, xs, vs, 0, d + 2) == 0);
    let t = dd_terms(p, xs, vs, 0, d + 2);
    // the product of all differences of r
    let om = diff_product(p, xs, d + 1, 0, d + 2);
    lemma_diff_product_nonzero(p, xs, d + 1, 0, d + 2);
    lemma_node_product_is_diff_product(p, d, r, d + 1, d + 1);
    assert(om == node_product(p, r, d + 1, d + 1));
    let u = Seq::new(xs.len(), |i: int| fmul(p, om, t[i]));
    // the sum of u: om times the divided difference, that is zero
    assert forall|i: int| 0 <= i < d + 2 implies #[trigger] u[i] == fadd(
        p,
        fmul(p, om, t[i]),
        fmul(p, 0, t[i]),
    ) by {
        lemma_ops_canonical(p, om, t[i]);
        lemma_identities(p, fmul(p, om, t[i]));
        assert(0 * t[i] == 0);
        lemma_small_mod(0, p as nat);
    }
    lemma_fsum_combination(p, u, t, t, om, 0, 0, d + 2);
    assert(fsum(p, u, 0, d + 2) == 0) by {
        assert(om * 0 == 0 && 0int * 0int == 0);
        lemma_small_mod(0, p as nat);
    }
    // the first d + 1 terms of u: the negated terms of the Lagrange formula
    let l = lagrange_terms(p, evals, r);
    let zeros = Seq::new(xs.len(), |i: int| 0int);
    assert forall|i: int| 0 <= i < d + 1 implies #[trigger] u[i] == fadd(
        p,
        fmul(p, p - 1, l[i]),
        fmul(p, 0, zeros[i]),
    ) by {
        let w = weight(p, xs, i, 0, d + 2);
        let n = node_product(p, r, i, d + 1);
        lemma_node_product_skip_beyond(p, r, d + 1, d + 1, d + 1);
        lemma_node_product_insert(p, r, i, d + 1);
        lemma_small_mod(i as nat, p as nat);
        assert(om == fmul(p, n, fsub(p, r, i)));
        lemma_weight_drop_last(p, xs, i, 0, d + 2);
        lemma_node_product_is_diff_product(p, d, r, i, d + 1);
        assert(fmul(p, w, fsub(p, i, r)) == finv(p, node_product(p, i % p, i, d + 1)));
        lemma_bridge_identity(p, evals[i], w, n, i, r);
        assert(vs[i] == evals[i]);
    }
    lemma_fsum_combination(p, u, l, zeros, p - 1, 0, 0, d + 1);
    let sl = fsum(p, l, 0, d + 1);
    lemma_interpolate_is_sum(p, evals, r, d + 1);
    lemma_fsum_canonical(p, l, 0, d + 1);
    lemma_fsum_canonical(p, zeros, 0, d + 1);
    // the last term of u: hr itself
    assert(u[d + 1] == hr) by {
        let w = weight(p, xs, d + 1, 0, d + 2);
        lemma_weight_nonzero(p, xs, d + 1, 0, d + 2);
        assert(vs[d + 1] == hr);
        lemma_fmul_comm(p, hr, w);
        lemma_fmul_assoc(p, om, w, hr);
        lemma_identities(p, hr);
    }
    // (p - 1) * sl + hr == 0, so hr == sl
    let z = fsum(p, zeros, 0, d + 1);
    assert(fadd(p, fadd(p, fmul(p, p - 1, sl), fmul(p, 0, z)), hr) == 0);
    assert(0 * z == 0);
    lemma_small_mod(0, p as nat);
    lemma_ops_canonical(p, p - 1, sl);
    lemma_identities(p, fmul(p, p - 1, sl));
    assert(fadd(p, fmul(p, p - 1, sl), hr) == 0);
    lemma_mul_mod_noop_general(p - 1, sl, p);
    lemma_add_mod_noop((p - 1) * sl, hr, p);
    lemma_small_mod(hr as nat, p as nat);
    assert(((p - 1) * sl + hr) % p == 0);
    assert((p - 1) * sl + hr == p * sl + (hr - sl)) by (nonlinear_arith);
    lemma_mod_multiples_vanish(sl, hr - sl, p);
    assert((hr - sl) % p == 0);
    if hr != sl {
        lemma_difference_nonzero(p, hr, sl);
        assert(false);
    }
}

/// The products that the verifier forms for node `i`, taken at each of
/// the points `ys`.
pub open spec fn node_product_values(p: int, ys: Seq<int>, i: int, k: int) -> Seq<int> {
    Seq::new(ys.len(), |a: int| node_product(p, ys[a], i, k))
}

/// The first `m` terms of the Lagrange formula for `evals`, taken at each
/// of the points `ys`.
pub open spec fn interpolant_values(p: int, evals: Seq<int>, ys: Seq<int>, m: int) -> Seq<int> {
    Seq::new(ys.len(), |a: int| interpolate_prefix(p, evals, ys[a], m))
}

/// `x - j` as an affine function of `x`.
proof fn lemma_difference_is_affine(p: int, x: int, j: int)
    requires
        p >= 2,
    ensures
        fsub(p, x, j) == fadd(p, fsub(p, 0, j), fmul(p, x, 1)),
{
    assert(x * 1 == x);
    lemma_add_mod_noop(0 - j, x, p);
    assert((0 - j) + x == x - j);
}

/// As a function of the point, the product over the nodes below `k` other
/// than `i` has degree at most the number of its factors.
pub proof fn lemma_node_product_vanishes(p: int, ys: Seq<int>, i: int, k: int)
    requires
        is_prime(p),
        distinct_nodes(p, ys),
        0 <= k,
        0 <= i,
    ensures
        vanishing(
            p,
            ys,
            node_product_values(p, ys, i, k),
            if i < k {
                k - 1
            } else {
                k
            },
        ),
    decreases k,
{
    let vs = node_product_values(p, ys, i, k);
    if k == 0 {
        crate::lagrange::lemma_vanishing_constant(p, ys, vs, 1);
    } else {
        lemma_node_product_vanishes(p, ys, i, k - 1);
        let gs = node_product_values(p, ys, i, k - 1);
        if k - 1 == i {
            assert(vs =~= gs);
        } else {
            let alpha = fsub(p, 0, (k - 1) % p);
            assert forall|a: int| 0 <= a < ys.len() implies #[trigger] vs[a] == fmul(
                p,
                gs[a],
                fadd(p, alpha, fmul(p, ys[a], 1)),
            ) by {
                lemma_difference_is_affine(p, ys[a], (k - 1) % p);
            }
            crate::lagrange::lemma_vanishing_affine(
                p,
                ys,
                vs,
                gs,
                alpha,
                1,
                if i < k - 1 {
                    k - 2
                } else {
                    k - 1
                },
            );
        }
    }
}

/// As a function of the point, the interpolant of `d + 1` values has
/// degree at most `d`.
pub proof fn lemma_interpolant_vanishes(p: int, evals: Seq<int>, ys: Seq<int>, m: int)
    requires
        is_prime(p),
        distinct_nodes(p, ys),
        evals.len() >= 1,
        0 <= m <= evals.len(),
    ensures
        vanishing(p, ys, interpolant_values(p, evals, ys, m), evals.len() - 1),
    decreases m,
{
    let d = evals.len() - 1;
    let vs = interpolant_values(p, evals, ys, m);
    if m == 0 {
        crate::lagrange::lemma_vanishing_constant(p, ys, vs, 0);
        crate::lagrange::lemma_vanishing_monotone(p, ys, vs, 0, d);
    } else {
        lemma_interpolant_vanishes(p, evals, ys, m - 1);
        let i = m - 1;
        lemma_node_product_vanishes(p, ys, i, d + 1);
        let np = node_product_values(p, ys, i, d + 1);
        let c = finv(p, node_product(p, i % p, i, d + 1));
        let lt = Seq::new(ys.len(), |a: int| lagrange_term(p, evals, ys[a], i));
        crate::lagrange::lemma_vanishing_scaled(p, ys, lt, np, evals[i], c, d);
        crate::lagrange::lemma_vanishing_sum(
            p,
            ys,
            vs,
            interpolant_values(p, evals, ys, m - 1),
            lt,
            d,
        );
    }
}

/// Two interpolants of `d + 1` values each that agree at `d + 1` distinct
/// points agree everywhere.
pub proof fn lemma_interpolants_agree(
    p: int,
    e1: Seq<int>,
    e2: Seq<int>,
    pts: Seq<int>,
    x: int,
)
    requires
        is_prime(p),
        e1.len() >= 1,
        e1.len() == e2.len(),
        distinct_nodes(p, pts),
        pts.len() == e1.len(),
        forall|k: int|
            0 <= k < pts.len() ==> interpolate(p, e1, #[trigger] pts[k]) == interpolate(
                p,
                e2,
                pts[k],
            ),
        canonical(p, x),
    ensures
        interpolate(p, e1, x) == interpolate(p, e2, x),
{
    let d = e1.len() - 1;
    if exists|k: int| 0 <= k < pts.len() && pts[k] == x {
        let k = choose|k: int| 0 <= k < pts.len() && pts[k] == x;
        assert(interpolate(p, e1, pts[k]) == interpolate(p, e2, pts[k]));
    } else {
        let ys = pts.push(x);
        assert(distinct_nodes(p, ys)) by {
            assert forall|i: int, j: int| 0 <= i < j < ys.len() implies ys[i] != ys[j] by {
                if j == d + 1 {
                    assert(pts[i] != x);
                }
            }
        }
        let v1 = interpolant_values(p, e1, ys, d + 1);
        let v2 = interpolant_values(p, e2, ys, d + 1);
        lemma_interpolant_vanishes(p, e1, ys, d + 1);
        lemma_interpolant_vanishes(p, e2, ys, d + 1);
        assert(divided_difference(p, ys, v1, 0, d + 2) == 0);
        assert(divided_difference(p, ys, v2, 0, d + 2) == 0);
        let t1 = dd_terms(p, ys, v1, 0, d + 2);
        let t2 = dd_terms(p, ys, v2, 0, d + 2);
        assert forall|i: int| 0 <= i < d + 1 implies t1[i] == t2[i] by {
            assert(ys[i] == pts[i]);
            assert(interpolate(p, e1, pts[i]) == interpolate(p, e2, pts[i]));
        }
        lemma_fsum_congruent(p, t1, t2, 0, d + 1);
        let s = fsum(p, t1, 0, d + 1);
        let w = weight(p, ys, d + 1, 0, d + 2);
        let a = interpolate(p, e1, x);
        let b = interpolate(p, e2, x);
        assert(t1[d + 1] == fmul(p, a, w));
        assert(t2[d + 1] == fmul(p, b, w));
        assert(fadd(p, s, fmul(p, a, w)) == 0);
        assert(fadd(p, s, fmul(p, b, w)) == 0);
        // cancel s, then w
        lemma_ops_canonical(p, a, w);
        lemma_ops_canonical(p, b, w);
        lemma_add_cancel(p, s, fmul(p, a, w), fmul(p, b, w));
        lemma_weight_nonzero(p, ys, d + 1, 0, d + 2);
        let dp = diff_product(p, ys, d + 1, 0, d + 2);
        lemma_interpolate_canonical(p, e1, x);
        lemma_interpolate_canonical(p, e2, x);
        lemma_fmul_assoc(p, a, w, dp);
        lemma_fmul_assoc(p, b, w, dp);
        lemma_fmul_comm(p, w, dp);
        lemma_identities(p, a);
        lemma_identities(p, b);
    }
}

/// Interpolated values are canonical.
pub proof fn lemma_interpolate_canonical(p: int, evals: Seq<int>, x: int)
    requires
        p >= 2,
    ensures
        canonical(p, interpolate(p, evals, x)),
{
    if evals.len() > 0 {
        lemma_ops_canonical(
            p,
            interpolate_prefix(p, evals, x, evals.len() - 1),
            lagrange_term(p, evals, x, evals.len() - 1),
        );
    }
}

/// Equal sums with a common summand have equal other summands.
pub proof fn lemma_add_cancel(p: int, s: int, a: int, b: int)
    requires
        p >= 2,
        canonical(p, a),
        canonical(p, b),
        fadd(p, s, a) == fadd(p, s, b),
    ensures
        a == b,
{
    lemma_mod_equivalence(s + a, s + b, p);
    assert((s + a) - (s + b) == a - b);
    if a != b {
        lemma_difference_nonzero(p, a, b);
    }
}

/// Two messages of `d + 1` evaluations whose interpolants agree at `d + 1`
/// distinct points are the same message.
pub proof fn lemma_messages_agree(p: int, e1: Seq<int>, e2: Seq<int>, pts: Seq<int>)
    requires
        is_prime(p),
        canonical_seq(p, e1),
        canonical_seq(p, e2),
        1 <= e1.len() <= p,
        e1.len() == e2.len(),
        distinct_nodes(p, pts),
        pts.len() == e1.len(),
        forall|k: int|
            0 <= k < pts.len() ==> interpolate(p, e1, #[trigger] pts[k]) == interpolate(
                p,
                e2,
                pts[k],
            ),
    ensures
        e1 == e2,
{
    assert forall|i: int| 0 <= i < e1.len() implies e1[i] == e2[i] by {
        lemma_interpolants_agree(p, e1, e2, pts, i);
        lemma_interpolate_at_node(p, e1, i);
        lemma_interpolate_at_node(p, e2, i);
    }
    assert(e1 =~= e2);
}

} // verus!
