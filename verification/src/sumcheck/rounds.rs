//! One round of the protocol in the model: what the round message adds up
//! to, and what the verifier's interpolation makes of it.

use vstd::prelude::*;
use vstd::arithmetic::div_mod::lemma_small_mod;
use vstd::arithmetic::power2::pow2;
use crate::field::{fadd, fmul, fsub, is_prime};
use crate::lagrange::{
    canonical_seq, distinct_nodes, vanishing, lemma_vanishing_affine, lemma_vanishing_constant,
    lemma_vanishing_monotone, lemma_vanishing_sum,
};
use crate::mle::fixed_entry;
use crate::poly::{product_prefix, sum_prefix, value_prefix, PolyModel};
use crate::ring::canonical;
use crate::structure::{
    lemma_constant_round, lemma_fix_wf, lemma_max_len_bounds, lemma_sum_canonical, lemma_sum_splits,
};
use crate::sumcheck::interpolation::{
    lemma_interpolate_at_node, lemma_interpolate_off_node, lemma_nodes_distinct, nodes_with,
};
use crate::sumcheck::verification::{boundary_sum, interpolate};

verus! {

/// The coefficient of product `t` times its first `j` multiplicands at
/// assignment `b`, with the first variable fixed to each node in turn.
pub open spec fn product_values(p: int, m: PolyModel, xs: Seq<int>, t: int, b: int, j: int) -> Seq<
    int,
> {
    Seq::new(xs.len(), |i: int| product_prefix(p, m.products[t], m.fix(p, xs[i]).tables, b, j))
}

/// The sum of the first `t` product terms at assignment `b`, with the
/// first variable fixed to each node in turn.
pub open spec fn value_values(p: int, m: PolyModel, xs: Seq<int>, b: int, t: int) -> Seq<int> {
    Seq::new(xs.len(), |i: int| value_prefix(p, m.products, m.fix(p, xs[i]).tables, b, t))
}

/// The sum over the assignments below `k`, with the first variable fixed
/// to each node in turn.
pub open spec fn sum_values(p: int, m: PolyModel, xs: Seq<int>, k: int) -> Seq<int> {
    Seq::new(xs.len(), |i: int| sum_prefix(p, m.products, m.fix(p, xs[i]).tables, k))
}

/// As a function of the value that the first variable is fixed to, a
/// product of `j` multiplicands has degree at most `j`.
pub proof fn lemma_product_vanishes(p: int, m: PolyModel, xs: Seq<int>, t: int, b: int, j: int)
    requires
        is_prime(p),
        m.wf(p),
        m.num_variables >= 1,
        distinct_nodes(p, xs),
        0 <= t < m.products.len(),
        0 <= b < pow2((m.num_variables - 1) as nat),
        0 <= j <= m.products[t].1.len(),
    ensures
        vanishing(p, xs, product_values(p, m, xs, t, b, j), j),
    decreases j,
{
    let vs = product_values(p, m, xs, t, b, j);
    if j == 0 {
        lemma_vanishing_constant(p, xs, vs, m.products[t].0);
    } else {
        lemma_product_vanishes(p, m, xs, t, b, j - 1);
        let gs = product_values(p, m, xs, t, b, j - 1);
        let k = m.products[t].1[j - 1];
        let alpha = m.tables[k][2 * b];
        let beta = fsub(p, m.tables[k][2 * b + 1], m.tables[k][2 * b]);
        assert forall|i: int| 0 <= i < xs.len() implies #[trigger] vs[i] == fmul(
            p,
            gs[i],
            fadd(p, alpha, fmul(p, xs[i], beta)),
        ) by {
            lemma_fix_wf(p, m, xs[i]);
            assert(m.fix(p, xs[i]).tables[k][b] == fixed_entry(p, m.tables[k], xs[i], b));
        }
        lemma_vanishing_affine(p, xs, vs, gs, alpha, beta, j - 1);
    }
}

/// As a function of the value that the first variable is fixed to, the
/// value at an assignment has degree at most `max_multiplicands`.
pub proof fn lemma_value_vanishes(p: int, m: PolyModel, xs: Seq<int>, b: int, t: int)
    requires
        is_prime(p),
        m.wf(p),
        m.num_variables >= 1,
        distinct_nodes(p, xs),
        0 <= b < pow2((m.num_variables - 1) as nat),
        0 <= t <= m.products.len(),
    ensures
        vanishing(p, xs, value_values(p, m, xs, b, t), m.max_multiplicands as int),
    decreases t,
{
    let d = m.max_multiplicands as int;
    let vs = value_values(p, m, xs, b, t);
    if t == 0 {
        lemma_vanishing_constant(p, xs, vs, 0);
        lemma_vanishing_monotone(p, xs, vs, 0, d);
    } else {
        lemma_value_vanishes(p, m, xs, b, t - 1);
        let len = m.products[t - 1].1.len() as int;
        lemma_product_vanishes(p, m, xs, t - 1, b, len);
        lemma_max_len_bounds(m.products, t - 1);
        let v2 = product_values(p, m, xs, t - 1, b, len);
        lemma_vanishing_monotone(p, xs, v2, len, d);
        lemma_vanishing_sum(p, xs, vs, value_values(p, m, xs, b, t - 1), v2, d);
    }
}

/// As a function of the value that the first variable is fixed to, the sum
/// over the remaining variables has degree at most `max_multiplicands`.
pub proof fn lemma_sum_vanishes(p: int, m: PolyModel, xs: Seq<int>, k: int)
    requires
        is_prime(p),
        m.wf(p),
        m.num_variables >= 1,
        distinct_nodes(p, xs),
        0 <= k <= pow2((m.num_variables - 1) as nat),
    ensures
        vanishing(p, xs, sum_values(p, m, xs, k), m.max_multiplicands as int),
    decreases k,
{
    let d = m.max_multiplicands as int;
    let vs = sum_values(p, m, xs, k);
    if k == 0 {
        lemma_vanishing_constant(p, xs, vs, 0);
        lemma_vanishing_monotone(p, xs, vs, 0, d);
    } else {
        lemma_sum_vanishes(p, m, xs, k - 1);
        lemma_value_vanishes(p, m, xs, k - 1, m.products.len() as int);
        lemma_vanishing_sum(
            p,
            xs,
            vs,
            sum_values(p, m, xs, k - 1),
            value_values(p, m, xs, k - 1, m.products.len() as int),
            d,
        );
    }
}

/// The round message is canonical and has `max_multiplicands + 1` entries.
pub proof fn lemma_round_message_canonical(p: int, m: PolyModel)
    requires
        p >= 2,
    ensures
        m.round_message(p).len() == m.max_multiplicands + 1,
        canonical_seq(p, m.round_message(p)),
{
    assert forall|e: int| 0 <= e < m.round_message(p).len() implies canonical(
        p,
        #[trigger] m.round_message(p)[e],
    ) by {
        let f = m.fix(p, e % p);
        lemma_sum_canonical(p, f.products, f.tables, pow2(f.num_variables) as int);
    }
}

/// What the round message claims of the sum is the sum of the polynomial.
pub proof fn lemma_round_message_sum(p: int, m: PolyModel)
    requires
        p >= 2,
        m.wf(p),
        m.num_variables >= 1,
    ensures
        boundary_sum(p, m.round_message(p)) == m.hypercube_sum(p),
{
    lemma_small_mod(0, p as nat);
    lemma_small_mod(1, p as nat);
    lemma_sum_splits(p, m);
    if m.max_multiplicands == 0 {
        lemma_constant_round(p, m, 0, 1);
    }
}

/// Interpolating the round message at `r` gives the sum of the polynomial
/// with its first variable fixed to `r`.
pub proof fn lemma_round_interpolation(p: int, m: PolyModel, r: int)
    requires
        is_prime(p),
        m.wf(p),
        m.num_variables >= 1,
        m.max_multiplicands < p,
        canonical(p, r),
    ensures
        interpolate(p, m.round_message(p), r) == m.fix(p, r).hypercube_sum(p),
{
    let d = m.max_multiplicands as int;
    let evals = m.round_message(p);
    lemma_round_message_canonical(p, m);
    if r <= d {
        lemma_interpolate_at_node(p, evals, r);
        lemma_small_mod(r as nat, p as nat);
    } else {
        let xs = nodes_with(d, r);
        let half = pow2((m.num_variables - 1) as nat) as int;
        let hr = m.fix(p, r).hypercube_sum(p);
        lemma_nodes_distinct(p, d, r);
        lemma_sum_vanishes(p, m, xs, half);
        let f = m.fix(p, r);
        lemma_sum_canonical(p, f.products, f.tables, half);
        assert(sum_values(p, m, xs, half) =~= evals.push(hr)) by {
            assert forall|i: int| 0 <= i < d + 2 implies sum_values(p, m, xs, half)[i] == evals.push(
                hr,
            )[i] by {
                if i <= d {
                    lemma_small_mod(i as nat, p as nat);
                }
            }
        }
        lemma_interpolate_off_node(p, evals, r, hr);
    }
}

} // verus!
