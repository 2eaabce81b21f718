//! Executable evaluation of a list of products over its tables.

use vstd::prelude::*;
use vstd::arithmetic::power2::{lemma_pow2_strictly_increases, lemma_pow2_unfold, pow2};
use crate::field::{values, zero, Field};
use crate::mle::{evaluate_table, fix_first, DenseMultilinearExtension};
use crate::poly::{
    product_prefix, products_model, sum_prefix, tables_model, term_at, value_at, value_prefix,
    ListOfProductsOfPolynomials,
};

verus! {

/// Every multiplicand index of `products` is below `n`.
pub open spec fn indices_below<F: Field>(products: Seq<(F, Vec<usize>)>, n: int) -> bool {
    forall|t: int, j: int|
        0 <= t < products.len() && 0 <= j < products[t].1@.len() ==> #[trigger] products[t].1@[j]
            < n
}

/// Every table of `tables` is full, over `n` variables.
pub open spec fn tables_over<F: Field>(tables: Seq<DenseMultilinearExtension<F>>, n: int) -> bool {
    forall|k: int| 0 <= k < tables.len() ==> (#[trigger] tables[k]).wf() && tables[k].num_vars == n
}

/// A copy of a list of products.
pub fn copy_products<F: Field>(products: &Vec<(F, Vec<usize>)>) -> (out: Vec<(F, Vec<usize>)>)
    ensures
        out@.len() == products@.len(),
        forall|t: int|
            0 <= t < out@.len() ==> (#[trigger] out@[t]).0 == products@[t].0 && out@[t].1@
                == products@[t].1@,
{
    let mut out: Vec<(F, Vec<usize>)> = Vec::new();
    for t in 0..products.len()
        invariant
            out@.len() == t,
            forall|i: int|
                0 <= i < t ==> (#[trigger] out@[i]).0 == products@[i].0 && out@[i].1@
                    == products@[i].1@,
    {
        let mut indices: Vec<usize> = Vec::new();
        let count: usize = products[t].1.len();
        for j in 0..count
            invariant
                t < products@.len(),
                count == products@[t as int].1@.len(),
                indices@ == products@[t as int].1@.take(j as int),
        {
            assert(products@[t as int].1@.take(j as int + 1) =~= products@[t as int].1@.take(
                j as int,
            ).push(products@[t as int].1@[j as int]));
            indices.push(products[t].1[j]);
        }
        assert(products@[t as int].1@.take(count as int) =~= products@[t as int].1@);
        out.push((products[t].0, indices));
    }
    out
}

/// Two to the power `k`.
pub fn pow2_usize(k: usize) -> (r: usize)
    requires
        pow2(k as nat) <= usize::MAX,
    ensures
        r == pow2(k as nat),
{
    let mut r: usize = 1;
    proof {
        vstd::arithmetic::power2::lemma2_to64();
    }
    for i in 0..k
        invariant
            r == pow2(i as nat),
            pow2(k as nat) <= usize::MAX,
    {
        proof {
            lemma_pow2_unfold((i + 1) as nat);
            if i + 1 < k {
                lemma_pow2_strictly_increases((i + 1) as nat, k as nat);
            }
        }
        r = r * 2;
    }
    r
}

/// The value of product `t` at assignment `b`.
pub fn eval_term<F: Field>(
    products: &Vec<(F, Vec<usize>)>,
    tables: &Vec<DenseMultilinearExtension<F>>,
    t: usize,
    b: usize,
) -> (r: F)
    requires
        t < products@.len(),
        indices_below(products@, tables@.len() as int),
        forall|k: int| 0 <= k < tables@.len() ==> b < (#[trigger] tables@[k]).evaluations@.len(),
    ensures
        r.value() == term_at(
            F::modulus(),
            products_model(products@)[t as int],
            tables_model(tables@),
            b as int,
        ),
{
    let mut acc: F = products[t].0;
    let ghost pm = products_model(products@)[t as int];
    let ghost tm = tables_model(tables@);
    let count: usize = products[t].1.len();
    for j in 0..count
        invariant
            t < products@.len(),
            count == products@[t as int].1@.len(),
            pm == products_model(products@)[t as int],
            tm == tables_model(tables@),
            indices_below(products@, tables@.len() as int),
            forall|k: int| 0 <= k < tables@.len() ==> b < (#[trigger] tables@[k]).evaluations@.len(),
            acc.value() == product_prefix(F::modulus(), pm, tm, b as int, j as int),
    {
        let idx: usize = products[t].1[j];
        assert(products@[t as int].1@[j as int] < tables@.len());
        assert(pm.1[j as int] == idx as int);
        assert(tm[idx as int][b as int] == tables@[idx as int].evaluations@[b as int].value());
        acc = acc.mul(&tables[idx].evaluations[b]);
    }
    acc
}

/// The value of the polynomial at assignment `b`.
pub fn eval_value<F: Field>(
    products: &Vec<(F, Vec<usize>)>,
    tables: &Vec<DenseMultilinearExtension<F>>,
    b: usize,
) -> (r: F)
    requires
        indices_below(products@, tables@.len() as int),
        forall|k: int| 0 <= k < tables@.len() ==> b < (#[trigger] tables@[k]).evaluations@.len(),
    ensures
        r.value() == value_at(
            F::modulus(),
            products_model(products@),
            tables_model(tables@),
            b as int,
        ),
{
    let mut acc: F = zero::<F>();
    for t in 0..products.len()
        invariant
            indices_below(products@, tables@.len() as int),
            forall|k: int| 0 <= k < tables@.len() ==> b < (#[trigger] tables@[k]).evaluations@.len(),
            acc.value() == value_prefix(
                F::modulus(),
                products_model(products@),
                tables_model(tables@),
                b as int,
                t as int,
            ),
    {
        let term: F = eval_term(products, tables, t, b);
        acc = acc.add(&term);
    }
    acc
}

/// The sum of the polynomial's values at the assignments below `count`.
pub fn eval_sum<F: Field>(
    products: &Vec<(F, Vec<usize>)>,
    tables: &Vec<DenseMultilinearExtension<F>>,
    count: usize,
) -> (r: F)
    requires
        indices_below(products@, tables@.len() as int),
        forall|k: int| 0 <= k < tables@.len() ==> count <= (#[trigger] tables@[k]).evaluations@.len(),
    ensures
        r.value() == sum_prefix(
            F::modulus(),
            products_model(products@),
            tables_model(tables@),
            count as int,
        ),
{
    let mut acc: F = zero::<F>();
    for b in 0..count
        invariant
            indices_below(products@, tables@.len() as int),
            forall|k: int|
                0 <= k < tables@.len() ==> count <= (#[trigger] tables@[k]).evaluations@.len(),
            acc.value() == sum_prefix(
                F::modulus(),
                products_model(products@),
                tables_model(tables@),
                b as int,
            ),
    {
        let v: F = eval_value(products, tables, b);
        acc = acc.add(&v);
    }
    acc
}

/// Every table with its first variable fixed to `r`.
pub fn fix_tables<F: Field>(tables: &Vec<DenseMultilinearExtension<F>>, r: &F) -> (out: Vec<
    DenseMultilinearExtension<F>,
>)
    requires
        forall|k: int| 0 <= k < tables@.len() ==> (#[trigger] tables@[k]).wf() && tables@[k].num_vars > 0,
    ensures
        out@.len() == tables@.len(),
        forall|k: int|
            0 <= k < out@.len() ==> (#[trigger] out@[k]).wf() && out@[k].num_vars == tables@[k].num_vars
                - 1,
        tables_model(out@) == tables_model(tables@).map_values(
            |t: Seq<int>| fix_first(F::modulus(), t, r.value()),
        ),
{
    let mut out: Vec<DenseMultilinearExtension<F>> = Vec::new();
    for k in 0..tables.len()
        invariant
            forall|k: int|
                0 <= k < tables@.len() ==> (#[trigger] tables@[k]).wf() && tables@[k].num_vars > 0,
            out@.len() == k,
            forall|i: int|
                0 <= i < k ==> (#[trigger] out@[i]).wf() && out@[i].num_vars == tables@[i].num_vars - 1
                    && out@[i]@ == fix_first(F::modulus(), tables@[i]@, r.value()),
    {
        let fixed = tables[k].fix_first_variable(r);
        out.push(fixed);
    }
    assert(tables_model(out@) =~= tables_model(tables@).map_values(
        |t: Seq<int>| fix_first(F::modulus(), t, r.value()),
    ));
    out
}

impl<F: Field> ListOfProductsOfPolynomials<F> {
    /// The value of the polynomial at `point`.
    pub fn evaluate(&self, point: &Vec<F>) -> (r: F)
        requires
            self.wf(),
            point@.len() == self.num_variables,
        ensures
            r.value() == self.model().evaluate(F::modulus(), values(point@)),
    {
        let mut tables: Vec<DenseMultilinearExtension<F>> = Vec::new();
        let ghost p = F::modulus();
        let ghost pt = values(point@);
        proof {
            vstd::arithmetic::power2::lemma2_to64();
        }
        for k in 0..self.flattened_ml_extensions.len()
            invariant
                self.wf(),
                point@.len() == self.num_variables,
                p == F::modulus(),
                pt == values(point@),
                pow2(0) == 1,
                tables@.len() == k,
                forall|i: int|
                    0 <= i < k ==> (#[trigger] tables@[i]).evaluations@.len() == 1 && tables@[i]@
                        == seq![evaluate_table(p, self.flattened_ml_extensions@[i]@, pt)],
        {
            assert(self.flattened_ml_extensions@[k as int].wf());
            let v: F = self.flattened_ml_extensions[k].evaluate(point);
            let mut evaluations: Vec<F> = Vec::new();
            evaluations.push(v);
            let single = DenseMultilinearExtension::from_evaluations_vec(0, evaluations);
            assert(single@ =~= seq![evaluate_table(p, self.flattened_ml_extensions@[k as int]@, pt)]);
            tables.push(single);
        }
        let products = copy_products(&self.products);
        proof {
            assert(products_model(products@) =~= products_model(self.products@)) by {
                assert forall|t: int| 0 <= t < self.products@.len() implies products_model(
                    products@,
                )[t] == products_model(self.products@)[t] by {
                    assert(products_model(products@)[t].1 =~= products_model(self.products@)[t].1);
                }
            }
            assert(tables_model(tables@) =~= self.model().tables.map_values(
                |t: Seq<int>| seq![evaluate_table(p, t, pt)],
            ));
            assert forall|t: int, j: int|
                0 <= t < products@.len() && 0 <= j < products@[t].1@.len()
                implies #[trigger] products@[t].1@[j] < tables@.len() by {
                assert(products@[t].1@[j] == self.products@[t].1@[j]);
            }
        }
        eval_value(&products, &tables, 0)
    }

    /// The sum of the polynomial over the boolean hypercube.
    pub fn hypercube_sum(&self) -> (r: F)
        requires
            self.wf(),
        ensures
            r.value() == self.model().hypercube_sum(F::modulus()),
    {
        let mut tables: Vec<DenseMultilinearExtension<F>> = Vec::new();
        for k in 0..self.flattened_ml_extensions.len()
            invariant
                self.wf(),
                tables@.len() == k,
                forall|i: int|
                    0 <= i < k ==> (#[trigger] tables@[i]).evaluations@
                        == self.flattened_ml_extensions@[i].evaluations@,
        {
            let table = self.flattened_ml_extensions[k].duplicate();
            tables.push(table);
        }
        let products = copy_products(&self.products);
        let count: usize = pow2_usize(self.num_variables);
        proof {
            assert(products_model(products@) =~= products_model(self.products@)) by {
                assert forall|t: int| 0 <= t < self.products@.len() implies products_model(
                    products@,
                )[t] == products_model(self.products@)[t] by {
                    assert(products_model(products@)[t].1 =~= products_model(self.products@)[t].1);
                }
            }
            assert(tables_model(tables@) =~= self.model().tables);
            assert forall|t: int, j: int|
                0 <= t < products@.len() && 0 <= j < products@[t].1@.len()
                implies #[trigger] products@[t].1@[j] < tables@.len() by {
                assert(products@[t].1@[j] == self.products@[t].1@[j]);
            }
            assert forall|k: int| 0 <= k < tables@.len() implies count <= (
            #[trigger] tables@[k]).evaluations@.len() by {
                assert(self.flattened_ml_extensions@[k].wf());
            }
        }
        eval_sum(&products, &tables, count)
    }
}

} // verus!
