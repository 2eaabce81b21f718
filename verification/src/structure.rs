//! What fixing a variable does to a list of products: the facts about the
//! polynomial model that the protocol's guarantees are built from.

use vstd::prelude::*;
use vstd::arithmetic::div_mod::*;
use vstd::arithmetic::power2::{lemma_pow2_unfold, pow2};
use crate::field::{fadd, fmul, fsub};
use crate::mle::fixed_entry;
use crate::poly::{max_len, product_prefix, sum_prefix, term_at, value_at, value_prefix, PolyModel};
use crate::ring::{
    canonical, lemma_fadd_lift, lemma_identities, lemma_ops_canonical, lemma_self_lift,
};

verus! {

/// No product is longer than the largest product length.
pub proof fn lemma_max_len_bounds(products: Seq<(int, Seq<int>)>, t: int)
    requires
        0 <= t < products.len(),
    ensures
        products[t].1.len() <= max_len(products),
    decreases products.len(),
{
    if t < products.len() - 1 {
        lemma_max_len_bounds(products.drop_last(), t);
    }
}

/// Fixing the first variable of a well-formed polynomial leaves a
/// well-formed polynomial in one variable fewer.
pub proof fn lemma_fix_wf(p: int, m: PolyModel, r: int)
    requires
        p >= 2,
        m.wf(p),
        m.num_variables >= 1,
    ensures
        m.fix(p, r).wf(p),
        m.fix(p, r).tables.len() == m.tables.len(),
        forall|k: int, b: int|
            0 <= k < m.tables.len() && 0 <= b < pow2((m.num_variables - 1) as nat) ==> #[trigger] m.fix(
                p,
                r,
            ).tables[k][b] == fixed_entry(p, m.tables[k], r, b),
{
    lemma_pow2_unfold(m.num_variables);
    let f = m.fix(p, r);
    assert forall|k: int| 0 <= k < f.tables.len() implies (#[trigger] f.tables[k]).len() == pow2(
        f.num_variables,
    ) by {
        assert(m.tables[k].len() == pow2(m.num_variables));
    }
    assert forall|k: int, b: int|
        0 <= k < f.tables.len() && 0 <= b < f.tables[k].len() implies 0 <= #[trigger] f.tables[k][b]
        < p by {
        assert(m.tables[k].len() == pow2(m.num_variables));
        let t = m.tables[k];
        lemma_ops_canonical(p, t[2 * b], fmul(p, r, fsub(p, t[2 * b + 1], t[2 * b])));
    }
    assert forall|k: int, b: int|
        0 <= k < m.tables.len() && 0 <= b < pow2(
            (m.num_variables - 1) as nat,
        ) implies #[trigger] f.tables[k][b] == fixed_entry(p, m.tables[k], r, b) by {
        assert(m.tables[k].len() == pow2(m.num_variables));
    }
}

/// The value of a polynomial at an assignment is canonical.
pub proof fn lemma_value_canonical(
    p: int,
    products: Seq<(int, Seq<int>)>,
    tables: Seq<Seq<int>>,
    b: int,
    t: int,
)
    requires
        p >= 2,
    ensures
        canonical(p, value_prefix(p, products, tables, b, t)),
    decreases t,
{
    if t > 0 {
        lemma_ops_canonical(
            p,
            value_prefix(p, products, tables, b, t - 1),
            term_at(p, products[t - 1], tables, b),
        );
    }
}

/// A sum of values is canonical.
pub proof fn lemma_sum_canonical(
    p: int,
    products: Seq<(int, Seq<int>)>,
    tables: Seq<Seq<int>>,
    k: int,
)
    requires
        p >= 2,
    ensures
        canonical(p, sum_prefix(p, products, tables, k)),
    decreases k,
{
    if k > 0 {
        lemma_ops_canonical(
            p,
            sum_prefix(p, products, tables, k - 1),
            value_at(p, products, tables, k - 1),
        );
    }
}

/// The entries that the products read at assignment `b1` of `tables1` are
/// the entries that they read at assignment `b2` of `tables2`.
pub open spec fn same_entries(
    products: Seq<(int, Seq<int>)>,
    tables1: Seq<Seq<int>>,
    b1: int,
    tables2: Seq<Seq<int>>,
    b2: int,
) -> bool {
    forall|t: int, j: int|
        0 <= t < products.len() && 0 <= j < products[t].1.len() ==> #[trigger] tables1[products[t].1[j]][b1]
            == tables2[products[t].1[j]][b2]
}

/// The value of a polynomial depends only on the entries that its products
/// read.
pub proof fn lemma_value_agrees(
    p: int,
    products: Seq<(int, Seq<int>)>,
    tables1: Seq<Seq<int>>,
    b1: int,
    tables2: Seq<Seq<int>>,
    b2: int,
)
    requires
        same_entries(products, tables1, b1, tables2, b2),
    ensures
        value_at(p, products, tables1, b1) == value_at(p, products, tables2, b2),
{
    lemma_value_prefix_agrees(p, products, tables1, b1, tables2, b2, products.len() as int);
}

proof fn lemma_value_prefix_agrees(
    p: int,
    products: Seq<(int, Seq<int>)>,
    tables1: Seq<Seq<int>>,
    b1: int,
    tables2: Seq<Seq<int>>,
    b2: int,
    t: int,
)
    requires
        t <= products.len(),
        same_entries(products, tables1, b1, tables2, b2),
    ensures
        value_prefix(p, products, tables1, b1, t) == value_prefix(p, products, tables2, b2, t),
    decreases t,
{
    if t > 0 {
        lemma_value_prefix_agrees(p, products, tables1, b1, tables2, b2, t - 1);
        lemma_product_prefix_agrees(
            p,
            products,
            tables1,
            b1,
            tables2,
            b2,
            t - 1,
            products[t - 1].1.len() as int,
        );
    }
}

proof fn lemma_product_prefix_agrees(
    p: int,
    products: Seq<(int, Seq<int>)>,
    tables1: Seq<Seq<int>>,
    b1: int,
    tables2: Seq<Seq<int>>,
    b2: int,
    t: int,
    j: int,
)
    requires
        0 <= t < products.len(),
        j <= products[t].1.len(),
        same_entries(products, tables1, b1, tables2, b2),
    ensures
        product_prefix(p, products[t], tables1, b1, j) == product_prefix(
            p,
            products[t],
            tables2,
            b2,
            j,
        ),
    decreases j,
{
    if j > 0 {
        lemma_product_prefix_agrees(p, products, tables1, b1, tables2, b2, t, j - 1);
        assert(tables1[products[t].1[j - 1]][b1] == tables2[products[t].1[j - 1]][b2]);
    }
}

/// The sum of the first `t` terms reads only the first `t` products.
pub proof fn lemma_value_prefix_of_more(
    p: int,
    products: Seq<(int, Seq<int>)>,
    more: Seq<(int, Seq<int>)>,
    tables: Seq<Seq<int>>,
    b: int,
    t: int,
)
    requires
        t <= products.len() <= more.len(),
        forall|i: int| 0 <= i < products.len() ==> products[i] == more[i],
    ensures
        value_prefix(p, products, tables, b, t) == value_prefix(p, more, tables, b, t),
    decreases t,
{
    if t > 0 {
        lemma_value_prefix_of_more(p, products, more, tables, b, t - 1);
    }
}

/// A product term is the same under any indexing that leads to the same
/// tables.
pub proof fn lemma_product_reindexed(
    p: int,
    product1: (int, Seq<int>),
    tables1: Seq<Seq<int>>,
    product2: (int, Seq<int>),
    tables2: Seq<Seq<int>>,
    b: int,
    j: int,
)
    requires
        product1.0 == product2.0,
        j <= product1.1.len(),
        j <= product2.1.len(),
        forall|i: int| 0 <= i < j ==> tables1[product1.1[i]] == tables2[product2.1[i]],
    ensures
        product_prefix(p, product1, tables1, b, j) == product_prefix(p, product2, tables2, b, j),
    decreases j,
{
    if j > 0 {
        lemma_product_reindexed(p, product1, tables1, product2, tables2, b, j - 1);
    }
}

/// The term with the given coefficient and multiplicands, the multiplicands
/// numbered in order.
pub open spec fn plain_term(p: int, coefficient: int, multiplicands: Seq<Seq<int>>, b: int) -> int {
    term_at(
        p,
        (coefficient, Seq::new(multiplicands.len(), |j: int| j)),
        multiplicands,
        b,
    )
}

/// Appending a product adds its term to the value at every assignment,
/// whatever the pool has grown by.
pub proof fn lemma_appended_product(
    p: int,
    before: PolyModel,
    after: PolyModel,
    multiplicands: Seq<Seq<int>>,
    b: int,
)
    requires
        forall|t: int, j: int|
            0 <= t < before.products.len() && 0 <= j < before.products[t].1.len() ==> 0
                <= #[trigger] before.products[t].1[j] < before.tables.len(),
        after.products.len() == before.products.len() + 1,
        after.products.drop_last() == before.products,
        before.tables.len() <= after.tables.len(),
        forall|k: int| 0 <= k < before.tables.len() ==> #[trigger] after.tables[k] == before.tables[k],
        after.products.last().1.len() == multiplicands.len(),
        forall|j: int|
            0 <= j < multiplicands.len() ==> after.tables[#[trigger] after.products.last().1[j]]
                == multiplicands[j],
    ensures
        value_at(p, after.products, after.tables, b) == fadd(
            p,
            value_at(p, before.products, before.tables, b),
            plain_term(p, after.products.last().0, multiplicands, b),
        ),
{
    let len = before.products.len() as int;
    assert forall|i: int| 0 <= i < len implies before.products[i] == after.products[i] by {
        assert(after.products.drop_last()[i] == after.products[i]);
    }
    lemma_value_prefix_of_more(p, before.products, after.products, after.tables, b, len);
    assert(same_entries(before.products, after.tables, b, before.tables, b)) by {
        assert forall|t: int, j: int|
            0 <= t < before.products.len() && 0 <= j < before.products[t].1.len()
            implies #[trigger] after.tables[before.products[t].1[j]][b] == before.tables[before.products[t].1[j]][b] by {
            let k = before.products[t].1[j];
            assert(0 <= k < before.tables.len());
            assert(after.tables[k] == before.tables[k]);
        }
    }
    lemma_value_prefix_agrees(p, before.products, after.tables, b, before.tables, b, len);
    let last = after.products.last();
    let plain = (last.0, Seq::new(multiplicands.len(), |j: int| j));
    lemma_product_reindexed(
        p,
        last,
        after.tables,
        plain,
        multiplicands,
        b,
        multiplicands.len() as int,
    );
}

/// Fixing the first variable to 0 or to 1 selects the even or the odd
/// entry.
pub proof fn lemma_fixed_entry_ends(p: int, t: Seq<int>, b: int)
    requires
        p >= 2,
        canonical(p, t[2 * b]),
        canonical(p, t[2 * b + 1]),
    ensures
        fixed_entry(p, t, 0, b) == t[2 * b],
        fixed_entry(p, t, 1, b) == t[2 * b + 1],
{
    let lo = t[2 * b];
    let hi = t[2 * b + 1];
    let diff = fsub(p, hi, lo);
    lemma_ops_canonical(p, hi, lo);
    lemma_identities(p, diff);
    lemma_identities(p, lo);
    lemma_self_lift(p, lo);
    lemma_fadd_lift(p, lo, diff, lo, hi - lo);
    lemma_small_mod(hi as nat, p as nat);
}

/// `(s0 + a) + (s1 + b)` is `((s0 + s1) + a) + b`.
proof fn lemma_fadd_interleave(p: int, s0: int, s1: int, a: int, b: int)
    requires
        p >= 2,
    ensures
        fadd(p, fadd(p, s0, a), fadd(p, s1, b)) == fadd(p, fadd(p, fadd(p, s0, s1), a), b),
{
    lemma_add_mod_noop(s0 + a, s1 + b, p);
    assert(fadd(p, fadd(p, s0, a), fadd(p, s1, b)) == ((s0 + a) + (s1 + b)) % p);
    lemma_add_mod_noop_right(a, s0 + s1, p);
    assert(fadd(p, fadd(p, s0, s1), a) == (a + (s0 + s1)) % p);
    lemma_add_mod_noop_right(b, a + (s0 + s1), p);
    assert(fadd(p, fadd(p, fadd(p, s0, s1), a), b) == (b + (a + (s0 + s1))) % p);
}

/// If `tables0` holds the even and `tables1` the odd assignments of
/// `tables`, the sums over the two halves add up to the sum over the whole.
pub proof fn lemma_sum_interleaves(
    p: int,
    products: Seq<(int, Seq<int>)>,
    tables: Seq<Seq<int>>,
    tables0: Seq<Seq<int>>,
    tables1: Seq<Seq<int>>,
    k: int,
)
    requires
        p >= 2,
        0 <= k,
        forall|b: int|
            0 <= b < k ==> #[trigger] value_at(p, products, tables0, b) == value_at(
                p,
                products,
                tables,
                2 * b,
            ),
        forall|b: int|
            0 <= b < k ==> #[trigger] value_at(p, products, tables1, b) == value_at(
                p,
                products,
                tables,
                2 * b + 1,
            ),
    ensures
        fadd(p, sum_prefix(p, products, tables0, k), sum_prefix(p, products, tables1, k))
            == sum_prefix(p, products, tables, 2 * k),
    decreases k,
{
    if k == 0 {
        lemma_small_mod(0, p as nat);
    } else {
        lemma_sum_interleaves(p, products, tables, tables0, tables1, k - 1);
        let s0 = sum_prefix(p, products, tables0, k - 1);
        let s1 = sum_prefix(p, products, tables1, k - 1);
        let a = value_at(p, products, tables0, k - 1);
        let b = value_at(p, products, tables1, k - 1);
        assert(a == value_at(p, products, tables, 2 * (k - 1)));
        assert(b == value_at(p, products, tables, 2 * (k - 1) + 1));
        assert(sum_prefix(p, products, tables, 2 * k - 1) == fadd(
            p,
            sum_prefix(p, products, tables, 2 * k - 2),
            a,
        ));
        assert(sum_prefix(p, products, tables, 2 * k) == fadd(
            p,
            sum_prefix(p, products, tables, 2 * k - 1),
            b,
        ));
        lemma_fadd_interleave(p, s0, s1, a, b);
    }
}

/// The sums of the polynomial with its first variable fixed to 0 and to 1
/// add up to the sum of the polynomial.
pub proof fn lemma_sum_splits(p: int, m: PolyModel)
    requires
        p >= 2,
        m.wf(p),
        m.num_variables >= 1,
    ensures
        fadd(p, m.fix(p, 0).hypercube_sum(p), m.fix(p, 1).hypercube_sum(p)) == m.hypercube_sum(p),
{
    let n = m.num_variables;
    let half = pow2((n - 1) as nat) as int;
    lemma_pow2_unfold(n);
    lemma_fix_wf(p, m, 0);
    lemma_fix_wf(p, m, 1);
    let t0 = m.fix(p, 0).tables;
    let t1 = m.fix(p, 1).tables;
    assert forall|b: int| 0 <= b < half implies #[trigger] value_at(p, m.products, t0, b)
        == value_at(p, m.products, m.tables, 2 * b) by {
        assert forall|t: int, j: int|
            0 <= t < m.products.len() && 0 <= j < m.products[t].1.len()
            implies #[trigger] t0[m.products[t].1[j]][b] == m.tables[m.products[t].1[j]][2 * b] by {
            let k = m.products[t].1[j];
            assert(m.tables[k].len() == pow2(n));
            assert(t0[k][b] == fixed_entry(p, m.tables[k], 0, b));
            lemma_fixed_entry_ends(p, m.tables[k], b);
        }
        lemma_value_agrees(p, m.products, t0, b, m.tables, 2 * b);
    }
    assert forall|b: int| 0 <= b < half implies #[trigger] value_at(p, m.products, t1, b)
        == value_at(p, m.products, m.tables, 2 * b + 1) by {
        assert forall|t: int, j: int|
            0 <= t < m.products.len() && 0 <= j < m.products[t].1.len()
            implies #[trigger] t1[m.products[t].1[j]][b] == m.tables[m.products[t].1[j]][2 * b + 1] by {
            let k = m.products[t].1[j];
            assert(m.tables[k].len() == pow2(n));
            assert(t1[k][b] == fixed_entry(p, m.tables[k], 1, b));
            lemma_fixed_entry_ends(p, m.tables[k], b);
        }
        lemma_value_agrees(p, m.products, t1, b, m.tables, 2 * b + 1);
    }
    lemma_sum_interleaves(p, m.products, m.tables, t0, t1, half);
}

/// A polynomial whose products have no multiplicands sums to the same
/// value whatever its first variable is fixed to.
pub proof fn lemma_constant_round(p: int, m: PolyModel, r1: int, r2: int)
    requires
        m.wf(p),
        m.max_multiplicands == 0,
    ensures
        m.fix(p, r1).hypercube_sum(p) == m.fix(p, r2).hypercube_sum(p),
{
    let t1 = m.fix(p, r1).tables;
    let t2 = m.fix(p, r2).tables;
    assert forall|t: int| 0 <= t < m.products.len() implies (#[trigger] m.products[t]).1.len()
        == 0 by {
        lemma_max_len_bounds(m.products, t);
    }
    lemma_sums_agree(p, m.products, t1, t2, pow2((m.num_variables - 1) as nat) as int);
}

/// Sums over tables whose read entries agree assignment by assignment
/// agree.
pub proof fn lemma_sums_agree(
    p: int,
    products: Seq<(int, Seq<int>)>,
    tables1: Seq<Seq<int>>,
    tables2: Seq<Seq<int>>,
    k: int,
)
    requires
        forall|b: int| 0 <= b < k ==> #[trigger] same_entries(products, tables1, b, tables2, b),
    ensures
        sum_prefix(p, products, tables1, k) == sum_prefix(p, products, tables2, k),
    decreases k,
{
    if k > 0 {
        lemma_sums_agree(p, products, tables1, tables2, k - 1);
        assert(same_entries(products, tables1, k - 1, tables2, k - 1));
        lemma_value_agrees(p, products, tables1, k - 1, tables2, k - 1);
    }
}

} // verus!
