//! Divided differences over a prime field: the theory behind the exactness
//! of Lagrange interpolation for products of affine functions.

use vstd::prelude::*;
use vstd::arithmetic::div_mod::*;
use crate::field::{fadd, finv, fmul, fsub, is_prime};
use crate::ring::{
    canonical, lemma_fadd_lift, lemma_finv, lemma_finv_cancel, lemma_fmul_assoc, lemma_fmul_comm,
    lemma_fmul_lift, lemma_identities, lemma_no_zero_divisors, lemma_ops_canonical, lemma_self_lift,
};

verus! {

/// Every entry of `s` is a canonical residue.
pub open spec fn canonical_seq(p: int, s: Seq<int>) -> bool {
    forall|i: int| 0 <= i < s.len() ==> canonical(p, #[trigger] s[i])
}

/// The nodes are canonical residues, no two of them equal.
pub open spec fn distinct_nodes(p: int, xs: Seq<int>) -> bool {
    &&& canonical_seq(p, xs)
    &&& forall|i: int, j: int| 0 <= i < j < xs.len() ==> xs[i] != xs[j]
}

/// The sum of the entries of `t` with index in `[lo, k)`.
pub open spec fn fsum(p: int, t: Seq<int>, lo: int, k: int) -> int
    decreases k - lo,
{
    if k <= lo {
        0
    } else {
        fadd(p, fsum(p, t, lo, k - 1), t[k - 1])
    }
}

/// The product of `xs[i] - xs[j]` over the `j` in `[lo, hi)` other than `i`.
pub open spec fn diff_product(p: int, xs: Seq<int>, i: int, lo: int, hi: int) -> int
    decreases hi - lo,
{
    if hi <= lo {
        1
    } else if hi - 1 == i {
        diff_product(p, xs, i, lo, hi - 1)
    } else {
        fmul(p, diff_product(p, xs, i, lo, hi - 1), fsub(p, xs[i], xs[hi - 1]))
    }
}

/// The weight of node `i` among the nodes `[lo, hi)`: the inverse of the
/// product of its differences to the others.
pub open spec fn weight(p: int, xs: Seq<int>, i: int, lo: int, hi: int) -> int {
    finv(p, diff_product(p, xs, i, lo, hi))
}

/// The weights of all nodes among the nodes `[lo, hi)`.
pub open spec fn weights(p: int, xs: Seq<int>, lo: int, hi: int) -> Seq<int> {
    Seq::new(xs.len(), |i: int| weight(p, xs, i, lo, hi))
}

/// The terms of the divided difference of the values `vs` over the nodes
/// `[lo, hi)`.
pub open spec fn dd_terms(p: int, xs: Seq<int>, vs: Seq<int>, lo: int, hi: int) -> Seq<int> {
    Seq::new(xs.len(), |i: int| fmul(p, vs[i], weight(p, xs, i, lo, hi)))
}

/// The divided difference of the values `vs` over the nodes `[lo, hi)`.
pub open spec fn divided_difference(p: int, xs: Seq<int>, vs: Seq<int>, lo: int, hi: int) -> int {
    fsum(p, dd_terms(p, xs, vs, lo, hi), lo, hi)
}

/// The divided differences of `vs` over any `k + 2` or more consecutive
/// nodes are zero: `vs` behaves as the values of a polynomial of degree at
/// most `k`.
pub open spec fn vanishing(p: int, xs: Seq<int>, vs: Seq<int>, k: int) -> bool {
    forall|lo: int, hi: int|
        0 <= lo && hi <= xs.len() && hi - lo >= k + 2 ==> #[trigger] divided_difference(
            p,
            xs,
            vs,
            lo,
            hi,
        ) == 0
}

/// Sums are canonical.
pub proof fn lemma_fsum_canonical(p: int, t: Seq<int>, lo: int, k: int)
    requires
        p >= 2,
    ensures
        canonical(p, fsum(p, t, lo, k)),
{
    if k > lo {
        lemma_ops_canonical(p, fsum(p, t, lo, k - 1), t[k - 1]);
    }
}

/// Sums of sequences that agree on `[lo, k)` agree.
pub proof fn lemma_fsum_congruent(p: int, t: Seq<int>, t2: Seq<int>, lo: int, k: int)
    requires
        0 <= lo,
        k <= t.len(),
        k <= t2.len(),
        forall|i: int| lo <= i < k ==> t[i] == t2[i],
    ensures
        fsum(p, t, lo, k) == fsum(p, t2, lo, k),
    decreases k - lo,
{
    if k > lo {
        lemma_fsum_congruent(p, t, t2, lo, k - 1);
    }
}

/// A sum of linear combinations is the linear combination of the sums.
pub proof fn lemma_fsum_combination(
    p: int,
    t: Seq<int>,
    t1: Seq<int>,
    t2: Seq<int>,
    c1: int,
    c2: int,
    lo: int,
    k: int,
)
    requires
        p >= 2,
        0 <= lo,
        k <= t.len(),
        k <= t1.len(),
        k <= t2.len(),
        forall|i: int|
            lo <= i < k ==> #[trigger] t[i] == fadd(p, fmul(p, c1, t1[i]), fmul(p, c2, t2[i])),
    ensures
        fsum(p, t, lo, k) == fadd(
            p,
            fmul(p, c1, fsum(p, t1, lo, k)),
            fmul(p, c2, fsum(p, t2, lo, k)),
        ),
    decreases k - lo,
{
    if k <= lo {
        assert(c1 * 0 == 0 && c2 * 0 == 0);
        lemma_small_mod(0, p as nat);
    } else {
        lemma_fsum_combination(p, t, t1, t2, c1, c2, lo, k - 1);
        let s1 = fsum(p, t1, lo, k - 1);
        let s2 = fsum(p, t2, lo, k - 1);
        let a = t1[k - 1];
        let b = t2[k - 1];
        lemma_fsum_canonical(p, t1, lo, k - 1);
        lemma_fsum_canonical(p, t2, lo, k - 1);
        lemma_self_lift(p, s1);
        lemma_self_lift(p, s2);
        // left side
        lemma_fadd_lift(p, fmul(p, c1, s1), fmul(p, c2, s2), c1 * s1, c2 * s2);
        lemma_fadd_lift(p, fmul(p, c1, a), fmul(p, c2, b), c1 * a, c2 * b);
        assert(t[k - 1] == (c1 * a + c2 * b) % p);
        lemma_fadd_lift(p, fsum(p, t, lo, k - 1), t[k - 1], c1 * s1 + c2 * s2, c1 * a + c2 * b);
        // right side
        lemma_mul_mod_noop_general(c1, s1 + a, p);
        lemma_mul_mod_noop_general(c2, s2 + b, p);
        lemma_fadd_lift(
            p,
            fmul(p, c1, fadd(p, s1, a)),
            fmul(p, c2, fadd(p, s2, b)),
            c1 * (s1 + a),
            c2 * (s2 + b),
        );
        assert((c1 * s1 + c2 * s2) + (c1 * a + c2 * b) == c1 * (s1 + a) + c2 * (s2 + b))
            by (nonlinear_arith);
    }
}

/// A leading zero term can be left out of a sum.
pub proof fn lemma_fsum_skip_first(p: int, t: Seq<int>, lo: int, k: int)
    requires
        p >= 2,
        0 <= lo < k,
        k <= t.len(),
        t[lo] == 0,
        forall|i: int| lo < i < k ==> canonical(p, #[trigger] t[i]),
    ensures
        fsum(p, t, lo, k) == fsum(p, t, lo + 1, k),
    decreases k - lo,
{
    if k == lo + 1 {
        lemma_small_mod(0, p as nat);
        assert(fsum(p, t, lo, lo) == 0);
        assert(fsum(p, t, lo + 1, k) == 0);
    } else {
        lemma_fsum_skip_first(p, t, lo, k - 1);
        assert(fsum(p, t, lo + 1, k) == fadd(p, fsum(p, t, lo + 1, k - 1), t[k - 1]));
    }
}

/// The difference of two distinct canonical residues is not zero.
pub proof fn lemma_difference_nonzero(p: int, a: int, b: int)
    requires
        p >= 2,
        canonical(p, a),
        canonical(p, b),
        a != b,
    ensures
        0 < fsub(p, a, b) < p,
{
    lemma_mod_bound(a - b, p);
    if (a - b) % p == 0 {
        if a > b {
            lemma_small_mod((a - b) as nat, p as nat);
        } else {
            lemma_mod_add_multiples_vanish(a - b, p);
            lemma_small_mod((a - b + p) as nat, p as nat);
        }
    }
}

/// Over distinct nodes no product of differences is zero.
pub proof fn lemma_diff_product_nonzero(p: int, xs: Seq<int>, i: int, lo: int, hi: int)
    requires
        is_prime(p),
        distinct_nodes(p, xs),
        0 <= lo,
        hi <= xs.len(),
        0 <= i < xs.len(),
    ensures
        0 < diff_product(p, xs, i, lo, hi) < p,
    decreases hi - lo,
{
    if hi > lo {
        lemma_diff_product_nonzero(p, xs, i, lo, hi - 1);
        if hi - 1 != i {
            lemma_difference_nonzero(p, xs[i], xs[hi - 1]);
            lemma_no_zero_divisors(
                p,
                diff_product(p, xs, i, lo, hi - 1),
                fsub(p, xs[i], xs[hi - 1]),
            );
        }
    }
}

/// The first factor of a product of differences can be taken out.
pub proof fn lemma_diff_product_first(p: int, xs: Seq<int>, i: int, lo: int, hi: int)
    requires
        is_prime(p),
        distinct_nodes(p, xs),
        0 <= lo < hi,
        hi <= xs.len(),
        0 <= i < xs.len(),
        i != lo,
    ensures
        diff_product(p, xs, i, lo, hi) == fmul(
            p,
            diff_product(p, xs, i, lo + 1, hi),
            fsub(p, xs[i], xs[lo]),
        ),
    decreases hi - lo,
{
    let d0 = fsub(p, xs[i], xs[lo]);
    lemma_ops_canonical(p, xs[i], xs[lo]);
    if hi == lo + 1 {
        lemma_identities(p, d0);
        assert(diff_product(p, xs, i, lo, lo) == 1);
        assert(diff_product(p, xs, i, lo + 1, hi) == 1);
    } else {
        lemma_diff_product_first(p, xs, i, lo, hi - 1);
        if hi - 1 == i {
            assert(diff_product(p, xs, i, lo + 1, hi) == diff_product(p, xs, i, lo + 1, hi - 1));
        } else {
            assert(diff_product(p, xs, i, lo + 1, hi) == fmul(
                p,
                diff_product(p, xs, i, lo + 1, hi - 1),
                fsub(p, xs[i], xs[hi - 1]),
            ));
            let rest = diff_product(p, xs, i, lo + 1, hi - 1);
            let dl = fsub(p, xs[i], xs[hi - 1]);
            // (rest * d0) * dl == (rest * dl) * d0
            lemma_fmul_assoc(p, rest, d0, dl);
            lemma_fmul_comm(p, d0, dl);
            lemma_fmul_assoc(p, rest, dl, d0);
        }
    }
}

/// Weights are canonical and not zero.
pub proof fn lemma_weight_nonzero(p: int, xs: Seq<int>, i: int, lo: int, hi: int)
    requires
        is_prime(p),
        distinct_nodes(p, xs),
        0 <= lo,
        hi <= xs.len(),
        0 <= i < xs.len(),
    ensures
        0 < weight(p, xs, i, lo, hi) < p,
        fmul(p, diff_product(p, xs, i, lo, hi), weight(p, xs, i, lo, hi)) == 1,
{
    lemma_diff_product_nonzero(p, xs, i, lo, hi);
    lemma_finv(p, diff_product(p, xs, i, lo, hi));
}

/// The weight of a node among `[lo, hi)`, times its difference to the last
/// of these nodes, is its weight among `[lo, hi - 1)`.
pub proof fn lemma_weight_drop_last(p: int, xs: Seq<int>, i: int, lo: int, hi: int)
    requires
        is_prime(p),
        distinct_nodes(p, xs),
        0 <= lo < hi,
        hi <= xs.len(),
        0 <= i < xs.len(),
        i != hi - 1,
    ensures
        fmul(p, weight(p, xs, i, lo, hi), fsub(p, xs[i], xs[hi - 1])) == weight(
            p,
            xs,
            i,
            lo,
            hi - 1,
        ),
{
    lemma_diff_product_nonzero(p, xs, i, lo, hi - 1);
    lemma_difference_nonzero(p, xs[i], xs[hi - 1]);
    lemma_finv_cancel(p, diff_product(p, xs, i, lo, hi - 1), fsub(p, xs[i], xs[hi - 1]));
}

/// The weight of a node among `[lo, hi)`, times its difference to the first
/// of these nodes, is its weight among `[lo + 1, hi)`.
pub proof fn lemma_weight_drop_first(p: int, xs: Seq<int>, i: int, lo: int, hi: int)
    requires
        is_prime(p),
        distinct_nodes(p, xs),
        0 <= lo < hi,
        hi <= xs.len(),
        0 <= i < xs.len(),
        i != lo,
    ensures
        fmul(p, weight(p, xs, i, lo, hi), fsub(p, xs[i], xs[lo])) == weight(p, xs, i, lo + 1, hi),
{
    lemma_diff_product_nonzero(p, xs, i, lo + 1, hi);
    lemma_difference_nonzero(p, xs[i], xs[lo]);
    lemma_diff_product_first(p, xs, i, lo, hi);
    lemma_finv_cancel(p, diff_product(p, xs, i, lo + 1, hi), fsub(p, xs[i], xs[lo]));
}

/// One is its own inverse.
pub proof fn lemma_finv_one(p: int)
    requires
        is_prime(p),
    ensures
        finv(p, 1) == 1,
{
    lemma_finv(p, 1);
    lemma_identities(p, finv(p, 1));
}

/// For a weight `w` of node `xi`: `(xm - xlo) * w` is `w * (xi - xlo)`
/// less `w * (xi - xm)`.
proof fn lemma_pivot_identity(p: int, w: int, xi: int, xlo: int, xm: int)
    requires
        p >= 2,
        canonical(p, w),
    ensures
        fmul(p, fsub(p, xm, xlo), w) == fadd(
            p,
            fmul(p, 1, fmul(p, w, fsub(p, xi, xlo))),
            fmul(p, p - 1, fmul(p, w, fsub(p, xi, xm))),
        ),
{
    lemma_self_lift(p, w);
    lemma_self_lift(p, 1);
    lemma_self_lift(p, p - 1);
    lemma_fmul_lift(p, fsub(p, xm, xlo), w, xm - xlo, w);
    lemma_fmul_lift(p, w, fsub(p, xi, xlo), w, xi - xlo);
    lemma_fmul_lift(p, 1, fmul(p, w, fsub(p, xi, xlo)), 1, w * (xi - xlo));
    lemma_fmul_lift(p, w, fsub(p, xi, xm), w, xi - xm);
    lemma_fmul_lift(p, p - 1, fmul(p, w, fsub(p, xi, xm)), p - 1, w * (xi - xm));
    lemma_fadd_lift(
        p,
        fmul(p, 1, fmul(p, w, fsub(p, xi, xlo))),
        fmul(p, p - 1, fmul(p, w, fsub(p, xi, xm))),
        1 * (w * (xi - xlo)),
        (p - 1) * (w * (xi - xm)),
    );
    let a = w * (xi - xm);
    let b = (xm - xlo) * w;
    assert(1 * (w * (xi - xlo)) + (p - 1) * (w * (xi - xm)) == p * a + b) by (nonlinear_arith)
        requires
            a == w * (xi - xm),
            b == (xm - xlo) * w,
    ;
    lemma_mod_multiples_vanish(a, b, p);
}

/// The weights of two or more distinct nodes add up to zero; the weight of
/// a single node is one.
pub proof fn lemma_weights_sum(p: int, xs: Seq<int>, lo: int, hi: int)
    requires
        is_prime(p),
        distinct_nodes(p, xs),
        0 <= lo < hi,
        hi <= xs.len(),
    ensures
        fsum(p, weights(p, xs, lo, hi), lo, hi) == (if hi - lo == 1 {
            1int
        } else {
            0int
        }),
    decreases hi - lo,
{
    let w = weights(p, xs, lo, hi);
    if hi == lo + 1 {
        assert(fsum(p, w, lo, lo) == 0);
        assert(diff_product(p, xs, lo, lo, lo) == 1);
        assert(diff_product(p, xs, lo, lo, hi) == 1);
        lemma_finv_one(p);
        lemma_identities(p, 1);
    } else {
        let m = hi - 1;
        let c = fsub(p, xs[m], xs[lo]);
        let e: int = if hi - lo == 2 {
            1
        } else {
            0
        };
        let a = Seq::new(xs.len(), |i: int| fmul(p, w[i], fsub(p, xs[i], xs[lo])));
        let b = Seq::new(xs.len(), |i: int| fmul(p, w[i], fsub(p, xs[i], xs[m])));
        let cw = Seq::new(xs.len(), |i: int| fmul(p, c, w[i]));
        assert forall|i: int| lo <= i < hi implies #[trigger] cw[i] == fadd(
            p,
            fmul(p, 1, a[i]),
            fmul(p, p - 1, b[i]),
        ) by {
            lemma_weight_nonzero(p, xs, i, lo, hi);
            lemma_pivot_identity(p, w[i], xs[i], xs[lo], xs[m]);
        }
        lemma_fsum_combination(p, cw, a, b, 1, p - 1, lo, hi);
        // the sum of a: the weights among [lo + 1, hi)
        assert(fsum(p, a, lo, hi) == e) by {
            lemma_identities(p, w[lo]);
            lemma_weight_nonzero(p, xs, lo, lo, hi);
            assert(a[lo] == 0);
            assert forall|i: int| lo < i < hi implies canonical(p, #[trigger] a[i]) by {
                lemma_ops_canonical(p, w[i], fsub(p, xs[i], xs[lo]));
            }
            lemma_fsum_skip_first(p, a, lo, hi);
            assert forall|i: int| lo + 1 <= i < hi implies a[i] == weights(p, xs, lo + 1, hi)[i] by {
                lemma_weight_drop_first(p, xs, i, lo, hi);
            }
            lemma_fsum_congruent(p, a, weights(p, xs, lo + 1, hi), lo + 1, hi);
            lemma_weights_sum(p, xs, lo + 1, hi);
        }
        // the sum of b: the weights among [lo, hi - 1)
        assert(fsum(p, b, lo, hi) == e) by {
            lemma_weight_nonzero(p, xs, m, lo, hi);
            lemma_identities(p, w[m]);
            assert(b[m] == 0);
            assert forall|i: int| lo <= i < m implies b[i] == weights(p, xs, lo, m)[i] by {
                lemma_weight_drop_last(p, xs, i, lo, hi);
            }
            lemma_fsum_congruent(p, b, weights(p, xs, lo, m), lo, m);
            lemma_weights_sum(p, xs, lo, m);
            lemma_fsum_canonical(p, b, lo, m);
            lemma_identities(p, fsum(p, b, lo, m));
        }
        // the sum of cw: c times the sum of the weights
        assert forall|i: int| lo <= i < hi implies #[trigger] cw[i] == fadd(
            p,
            fmul(p, c, w[i]),
            fmul(p, 0, w[i]),
        ) by {
            lemma_weight_nonzero(p, xs, i, lo, hi);
            lemma_identities(p, w[i]);
            lemma_ops_canonical(p, c, w[i]);
            lemma_identities(p, fmul(p, c, w[i]));
        }
        lemma_fsum_combination(p, cw, w, w, c, 0, lo, hi);
        let s = fsum(p, w, lo, hi);
        lemma_fsum_canonical(p, w, lo, hi);
        lemma_identities(p, s);
        lemma_ops_canonical(p, c, s);
        lemma_identities(p, fmul(p, c, s));
        assert(fsum(p, cw, lo, hi) == fmul(p, c, s));
        // e - e == 0
        assert(fadd(p, fmul(p, 1, e), fmul(p, p - 1, e)) == 0) by {
            lemma_identities(p, e);
            if e == 1 {
                assert((p - 1) * 1 == p - 1);
                lemma_small_mod((p - 1) as nat, p as nat);
                lemma_mod_self_0(p);
            } else {
                assert((p - 1) * 0 == 0);
                lemma_small_mod(0, p as nat);
            }
        }
        lemma_difference_nonzero(p, xs[m], xs[lo]);
        if s != 0 {
            lemma_no_zero_divisors(p, c, s);
            assert(false);
        }
    }
}

/// Constant values have vanishing divided differences over two or more
/// nodes.
pub proof fn lemma_vanishing_constant(p: int, xs: Seq<int>, vs: Seq<int>, c: int)
    requires
        is_prime(p),
        distinct_nodes(p, xs),
        vs.len() == xs.len(),
        forall|i: int| 0 <= i < vs.len() ==> vs[i] == c,
    ensures
        vanishing(p, xs, vs, 0),
{
    assert forall|lo: int, hi: int|
        0 <= lo && hi <= xs.len() && hi - lo >= 2 implies #[trigger] divided_difference(
        p,
        xs,
        vs,
        lo,
        hi,
    ) == 0 by {
        let w = weights(p, xs, lo, hi);
        let t = dd_terms(p, xs, vs, lo, hi);
        assert forall|i: int| lo <= i < hi implies #[trigger] t[i] == fadd(
            p,
            fmul(p, c, w[i]),
            fmul(p, 0, w[i]),
        ) by {
            lemma_weight_nonzero(p, xs, i, lo, hi);
            lemma_identities(p, w[i]);
            lemma_ops_canonical(p, c, w[i]);
            lemma_identities(p, fmul(p, c, w[i]));
        }
        lemma_fsum_combination(p, t, w, w, c, 0, lo, hi);
        lemma_weights_sum(p, xs, lo, hi);
        assert(c * 0 == 0 && 0 * 0 == 0);
        lemma_small_mod(0, p as nat);
    }
}

/// What vanishes for a degree vanishes for every larger degree.
pub proof fn lemma_vanishing_monotone(p: int, xs: Seq<int>, vs: Seq<int>, k: int, k2: int)
    requires
        vanishing(p, xs, vs, k),
        k <= k2,
    ensures
        vanishing(p, xs, vs, k2),
{
}

/// `(v1 + v2) * w` is `v1 * w + v2 * w`, written as a combination.
proof fn lemma_sum_identity(p: int, v1: int, v2: int, w: int)
    requires
        p >= 2,
    ensures
        fmul(p, fadd(p, v1, v2), w) == fadd(p, fmul(p, 1, fmul(p, v1, w)), fmul(p, 1, fmul(p, v2, w))),
{
    lemma_mul_mod_noop_general(v1 + v2, w, p);
    lemma_self_lift(p, 1);
    lemma_fmul_lift(p, 1, fmul(p, v1, w), 1, v1 * w);
    lemma_fmul_lift(p, 1, fmul(p, v2, w), 1, v2 * w);
    lemma_fadd_lift(
        p,
        fmul(p, 1, fmul(p, v1, w)),
        fmul(p, 1, fmul(p, v2, w)),
        1 * (v1 * w),
        1 * (v2 * w),
    );
    assert((v1 + v2) * w == 1 * (v1 * w) + 1 * (v2 * w)) by (nonlinear_arith);
}

/// Sums of values with vanishing divided differences have vanishing
/// divided differences.
pub proof fn lemma_vanishing_sum(
    p: int,
    xs: Seq<int>,
    vs: Seq<int>,
    v1: Seq<int>,
    v2: Seq<int>,
    k: int,
)
    requires
        p >= 2,
        vs.len() == xs.len(),
        v1.len() == xs.len(),
        v2.len() == xs.len(),
        forall|i: int| 0 <= i < xs.len() ==> #[trigger] vs[i] == fadd(p, v1[i], v2[i]),
        vanishing(p, xs, v1, k),
        vanishing(p, xs, v2, k),
    ensures
        vanishing(p, xs, vs, k),
{
    assert forall|lo: int, hi: int|
        0 <= lo && hi <= xs.len() && hi - lo >= k + 2 implies #[trigger] divided_difference(
        p,
        xs,
        vs,
        lo,
        hi,
    ) == 0 by {
        let t = dd_terms(p, xs, vs, lo, hi);
        let t1 = dd_terms(p, xs, v1, lo, hi);
        let t2 = dd_terms(p, xs, v2, lo, hi);
        assert forall|i: int| lo <= i < hi implies #[trigger] t[i] == fadd(
            p,
            fmul(p, 1, t1[i]),
            fmul(p, 1, t2[i]),
        ) by {
            lemma_sum_identity(p, v1[i], v2[i], weight(p, xs, i, lo, hi));
        }
        lemma_fsum_combination(p, t, t1, t2, 1, 1, lo, hi);
        assert(divided_difference(p, xs, v1, lo, hi) == 0);
        assert(divided_difference(p, xs, v2, lo, hi) == 0);
        assert(1 * 0 == 0);
        lemma_small_mod(0, p as nat);
    }
}

/// Constant multiples of values with vanishing divided differences have
/// vanishing divided differences.
pub proof fn lemma_vanishing_scaled(
    p: int,
    xs: Seq<int>,
    vs: Seq<int>,
    gs: Seq<int>,
    c1: int,
    c2: int,
    k: int,
)
    requires
        p >= 2,
        vs.len() == xs.len(),
        gs.len() == xs.len(),
        forall|i: int| 0 <= i < xs.len() ==> #[trigger] vs[i] == fmul(p, c1, fmul(p, gs[i], c2)),
        vanishing(p, xs, gs, k),
    ensures
        vanishing(p, xs, vs, k),
{
    assert forall|lo: int, hi: int|
        0 <= lo && hi <= xs.len() && hi - lo >= k + 2 implies #[trigger] divided_difference(
        p,
        xs,
        vs,
        lo,
        hi,
    ) == 0 by {
        let t = dd_terms(p, xs, vs, lo, hi);
        let tg = dd_terms(p, xs, gs, lo, hi);
        let c = fmul(p, c1, c2);
        assert forall|i: int| lo <= i < hi implies #[trigger] t[i] == fadd(
            p,
            fmul(p, c, tg[i]),
            fmul(p, 0, tg[i]),
        ) by {
            let w = weight(p, xs, i, lo, hi);
            let g = gs[i];
            lemma_mul_mod_noop_general(g, c2, p);
            lemma_mul_mod_noop_general(c1, g * c2, p);
            lemma_mul_mod_noop_general(c1 * (g * c2), w, p);
            assert(t[i] == ((c1 * (g * c2)) * w) % p);
            lemma_mul_mod_noop_general(c1, c2, p);
            lemma_mul_mod_noop_general(g, w, p);
            lemma_mul_mod_noop_general(c1 * c2, g * w, p);
            assert(fmul(p, c, tg[i]) == ((c1 * c2) * (g * w)) % p);
            let gw = g * w;
            assert((c1 * (g * c2)) * w == (c1 * c2) * gw) by (nonlinear_arith)
                requires
                    gw == g * w,
            ;
            assert(0 * tg[i] == 0);
            lemma_small_mod(0, p as nat);
            lemma_ops_canonical(p, c, tg[i]);
            lemma_identities(p, fmul(p, c, tg[i]));
        }
        lemma_fsum_combination(p, t, tg, tg, c, 0, lo, hi);
        assert(divided_difference(p, xs, gs, lo, hi) == 0);
        assert(c * 0 == 0 && 0int * 0int == 0);
        lemma_small_mod(0, p as nat);
    }
}

/// For a value `g` and a weight `w` at node `xi`:
/// `g * (alpha + xi * beta) * w` is `(alpha + xm * beta) * (g * w)` plus
/// `beta * (g * (w * (xi - xm)))`.
proof fn lemma_affine_identity(p: int, g: int, w: int, alpha: int, beta: int, xi: int, xm: int)
    requires
        p >= 2,
    ensures
        fmul(p, fmul(p, g, fadd(p, alpha, fmul(p, xi, beta))), w) == fadd(
            p,
            fmul(p, fadd(p, alpha, fmul(p, xm, beta)), fmul(p, g, w)),
            fmul(p, beta, fmul(p, g, fmul(p, w, fsub(p, xi, xm)))),
        ),
{
    // left side
    lemma_mod_twice(alpha, p);
    lemma_add_mod_noop(alpha, xi * beta, p);
    lemma_mod_twice(xi * beta, p);
    lemma_add_mod_noop(alpha, fmul(p, xi, beta), p);
    assert(fadd(p, alpha, fmul(p, xi, beta)) == (alpha + xi * beta) % p);
    lemma_mul_mod_noop_general(g, alpha + xi * beta, p);
    assert(fmul(p, g, fadd(p, alpha, fmul(p, xi, beta))) == (g * (alpha + xi * beta)) % p);
    lemma_mul_mod_noop_general(g * (alpha + xi * beta), w, p);
    let left = (g * (alpha + xi * beta)) * w;
    assert(fmul(p, fmul(p, g, fadd(p, alpha, fmul(p, xi, beta))), w) == left % p);
    // right side
    lemma_add_mod_noop(alpha, xm * beta, p);
    lemma_mod_twice(xm * beta, p);
    lemma_add_mod_noop(alpha, fmul(p, xm, beta), p);
    assert(fadd(p, alpha, fmul(p, xm, beta)) == (alpha + xm * beta) % p);
    lemma_mul_mod_noop_general(alpha + xm * beta, g * w, p);
    let r1 = (alpha + xm * beta) * (g * w);
    assert(fmul(p, fadd(p, alpha, fmul(p, xm, beta)), fmul(p, g, w)) == r1 % p);
    lemma_mul_mod_noop_general(w, xi - xm, p);
    lemma_mul_mod_noop_general(g, w * (xi - xm), p);
    lemma_mul_mod_noop_general(beta, g * (w * (xi - xm)), p);
    let r2 = beta * (g * (w * (xi - xm)));
    assert(fmul(p, beta, fmul(p, g, fmul(p, w, fsub(p, xi, xm)))) == r2 % p);
    lemma_add_mod_noop(r1, r2, p);
    let gw = g * w;
    let xb = xi * beta;
    let mb = xm * beta;
    assert(left == gw * (alpha + xb)) by (nonlinear_arith)
        requires
            left == (g * (alpha + xb)) * w,
            gw == g * w,
    ;
    assert(gw * (alpha + xb) == gw * alpha + gw * xb) by (nonlinear_arith);
    assert(r1 == gw * alpha + gw * mb) by (nonlinear_arith)
        requires
            r1 == (alpha + mb) * gw,
    ;
    assert(g * (w * (xi - xm)) == gw * (xi - xm)) by (nonlinear_arith)
        requires
            gw == g * w,
    ;
    assert(beta * (gw * (xi - xm)) == gw * (beta * (xi - xm))) by (nonlinear_arith);
    assert(beta * (xi - xm) == xb - mb) by (nonlinear_arith)
        requires
            xb == xi * beta,
            mb == xm * beta,
    ;
    assert(gw * (xb - mb) == gw * xb - gw * mb) by (nonlinear_arith);
    assert(left == r1 + r2);
}

/// Multiplying values whose divided differences vanish for degree `k` by
/// the values of an affine function gives values whose divided differences
/// vanish for degree `k + 1`.
pub proof fn lemma_vanishing_affine(
    p: int,
    xs: Seq<int>,
    vs: Seq<int>,
    gs: Seq<int>,
    alpha: int,
    beta: int,
    k: int,
)
    requires
        is_prime(p),
        distinct_nodes(p, xs),
        vs.len() == xs.len(),
        gs.len() == xs.len(),
        k >= -1,
        forall|i: int|
            0 <= i < xs.len() ==> #[trigger] vs[i] == fmul(
                p,
                gs[i],
                fadd(p, alpha, fmul(p, xs[i], beta)),
            ),
        vanishing(p, xs, gs, k),
    ensures
        vanishing(p, xs, vs, k + 1),
{
    assert forall|lo: int, hi: int|
        0 <= lo && hi <= xs.len() && hi - lo >= k + 3 implies #[trigger] divided_difference(
        p,
        xs,
        vs,
        lo,
        hi,
    ) == 0 by {
        let m = hi - 1;
        let t = dd_terms(p, xs, vs, lo, hi);
        let t1 = dd_terms(p, xs, gs, lo, hi);
        let t2 = Seq::new(
            xs.len(),
            |i: int| fmul(p, gs[i], fmul(p, weight(p, xs, i, lo, hi), fsub(p, xs[i], xs[m]))),
        );
        let am = fadd(p, alpha, fmul(p, xs[m], beta));
        assert forall|i: int| lo <= i < hi implies #[trigger] t[i] == fadd(
            p,
            fmul(p, am, t1[i]),
            fmul(p, beta, t2[i]),
        ) by {
            lemma_affine_identity(p, gs[i], weight(p, xs, i, lo, hi), alpha, beta, xs[i], xs[m]);
        }
        lemma_fsum_combination(p, t, t1, t2, am, beta, lo, hi);
        assert(divided_difference(p, xs, gs, lo, hi) == 0);
        // the sum of t2: the divided difference of gs over [lo, hi - 1)
        assert(fsum(p, t2, lo, hi) == 0) by {
            lemma_weight_nonzero(p, xs, m, lo, hi);
            lemma_identities(p, weight(p, xs, m, lo, hi));
            assert(gs[m] * 0 == 0);
            lemma_small_mod(0, p as nat);
            assert(t2[m] == 0);
            let t3 = dd_terms(p, xs, gs, lo, m);
            assert forall|i: int| lo <= i < m implies t2[i] == t3[i] by {
                lemma_weight_drop_last(p, xs, i, lo, hi);
            }
            lemma_fsum_congruent(p, t2, t3, lo, m);
            assert(divided_difference(p, xs, gs, lo, m) == 0);
        }
        assert(am * 0 == 0 && beta * 0 == 0);
        lemma_small_mod(0, p as nat);
    }
}

} // verus!
