//! Sums of coefficient-weighted products of multilinear extensions.

use vstd::prelude::*;
use vstd::arithmetic::power2::pow2;
use std::rc::Rc;
use crate::field::{fadd, fmul, Field};
use crate::structure::plain_term;
use crate::mle::{evaluate_table, fix_first, DenseMultilinearExtension};

verus! {

/// The shape of a polynomial: what a verifier needs to know of it.
#[derive(Clone, Copy, Debug, PartialEq, Eq)]
pub struct PolynomialInfo {
    /// The largest number of multiplicands in any product.
    pub max_multiplicands: usize,
    /// The number of variables.
    pub num_variables: usize,
}

/// The coefficient of `product` times its first `j` multiplicands, taken at
/// assignment `b`.
pub open spec fn product_prefix(
    p: int,
    product: (int, Seq<int>),
    tables: Seq<Seq<int>>,
    b: int,
    j: int,
) -> int
    decreases j,
{
    if j <= 0 {
        product.0
    } else {
        fmul(p, product_prefix(p, product, tables, b, j - 1), tables[product.1[j - 1]][b])
    }
}

/// The value of one product term at assignment `b`.
pub open spec fn term_at(p: int, product: (int, Seq<int>), tables: Seq<Seq<int>>, b: int) -> int {
    product_prefix(p, product, tables, b, product.1.len() as int)
}

/// The sum of the first `t` product terms at assignment `b`.
pub open spec fn value_prefix(
    p: int,
    products: Seq<(int, Seq<int>)>,
    tables: Seq<Seq<int>>,
    b: int,
    t: int,
) -> int
    decreases t,
{
    if t <= 0 {
        0
    } else {
        fadd(p, value_prefix(p, products, tables, b, t - 1), term_at(p, products[t - 1], tables, b))
    }
}

/// The value of the polynomial at assignment `b`.
pub open spec fn value_at(
    p: int,
    products: Seq<(int, Seq<int>)>,
    tables: Seq<Seq<int>>,
    b: int,
) -> int {
    value_prefix(p, products, tables, b, products.len() as int)
}

/// The sum of the polynomial's values at the assignments below `k`.
pub open spec fn sum_prefix(
    p: int,
    products: Seq<(int, Seq<int>)>,
    tables: Seq<Seq<int>>,
    k: int,
) -> int
    decreases k,
{
    if k <= 0 {
        0
    } else {
        fadd(p, sum_prefix(p, products, tables, k - 1), value_at(p, products, tables, k - 1))
    }
}

/// The largest number of multiplicands among `products`.
pub open spec fn max_len(products: Seq<(int, Seq<int>)>) -> nat
    decreases products.len(),
{
    if products.len() == 0 {
        0
    } else {
        let rest = max_len(products.drop_last());
        if products.last().1.len() > rest {
            products.last().1.len()
        } else {
            rest
        }
    }
}

/// A polynomial as mathematics sees it: residues and indices.
pub struct PolyModel {
    pub num_variables: nat,
    pub max_multiplicands: nat,
    /// Each product: its coefficient and the pool indices of its multiplicands.
    pub products: Seq<(int, Seq<int>)>,
    /// The pool of tables that the products refer to.
    pub tables: Seq<Seq<int>>,
}

impl PolyModel {
    /// Tables are full and canonical, indices are in range, and
    /// `max_multiplicands` is the largest product length.
    pub open spec fn wf(self, p: int) -> bool {
        &&& forall|k: int|
            0 <= k < self.tables.len() ==> (#[trigger] self.tables[k]).len() == pow2(
                self.num_variables,
            )
        &&& forall|k: int, b: int|
            0 <= k < self.tables.len() && 0 <= b < self.tables[k].len() ==> 0
                <= #[trigger] self.tables[k][b] < p
        &&& forall|t: int| 0 <= t < self.products.len() ==> 0 <= (#[trigger] self.products[t]).0 < p
        &&& forall|t: int, j: int|
            0 <= t < self.products.len() && 0 <= j < self.products[t].1.len() ==> 0
                <= #[trigger] self.products[t].1[j] < self.tables.len()
        &&& self.max_multiplicands == max_len(self.products)
    }

    /// The sum of the polynomial over the boolean hypercube.
    pub open spec fn hypercube_sum(self, p: int) -> int {
        sum_prefix(p, self.products, self.tables, pow2(self.num_variables) as int)
    }

    /// The polynomial in one variable fewer that results from fixing the
    /// first variable to `r`.
    pub open spec fn fix(self, p: int, r: int) -> PolyModel {
        PolyModel {
            num_variables: (self.num_variables - 1) as nat,
            max_multiplicands: self.max_multiplicands,
            products: self.products,
            tables: self.tables.map_values(|t: Seq<int>| fix_first(p, t, r)),
        }
    }

    /// The value of the polynomial at `point`.
    pub open spec fn evaluate(self, p: int, point: Seq<int>) -> int {
        value_at(
            p,
            self.products,
            self.tables.map_values(|t: Seq<int>| seq![evaluate_table(p, t, point)]),
            0,
        )
    }

    /// The round polynomial of the first variable, sampled at
    /// `0, 1, ..., max_multiplicands`: entry `e` is the sum over the
    /// hypercube of the remaining variables with the first fixed to `e`.
    pub open spec fn round_message(self, p: int) -> Seq<int> {
        Seq::new(self.max_multiplicands + 1, |e: int| self.fix(p, e % p).hypercube_sum(p))
    }
}

/// The residues and indices behind a list of products.
pub open spec fn products_model<F: Field>(products: Seq<(F, Vec<usize>)>) -> Seq<(int, Seq<int>)> {
    Seq::new(
        products.len(),
        |t: int| (products[t].0.value(), Seq::new(products[t].1@.len(), |j: int| products[t].1@[j] as int)),
    )
}

/// The tables behind a list of extensions.
pub open spec fn tables_model<F: Field>(tables: Seq<DenseMultilinearExtension<F>>) -> Seq<Seq<int>> {
    Seq::new(tables.len(), |k: int| tables[k]@)
}

/// The tables behind a pool of shared extensions.
pub open spec fn pool_model<F: Field>(pool: Seq<Rc<DenseMultilinearExtension<F>>>) -> Seq<Seq<int>> {
    Seq::new(pool.len(), |k: int| pool[k]@)
}

/// `table` is one of the first `count` of `multiplicands`.
pub open spec fn among(table: Seq<int>, multiplicands: Seq<Seq<int>>, count: int) -> bool {
    exists|j: int| 0 <= j < count && j < multiplicands.len() && #[trigger] multiplicands[j] == table
}

/// Calls `Rc::ptr_eq`. Trusted: two pointers to the same allocation hold
/// the same value.
#[verifier::external_body]
fn same_allocation<T>(a: &Rc<T>, b: &Rc<T>) -> (r: bool)
    ensures
        r ==> *a == *b,
{
    Rc::ptr_eq(a, b)
}

/// Calls `Rc::clone`. Trusted: the new pointer shares the allocation of the
/// old one, and so holds the same value.
#[verifier::external_body]
fn share<T>(a: &Rc<T>) -> (r: Rc<T>)
    ensures
        *r == *a,
{
    Rc::clone(a)
}

/// A polynomial of the form `sum_i c_i * prod_j P_ij`, each `P_ij` a
/// multilinear extension kept once in a shared pool.
pub struct ListOfProductsOfPolynomials<F: Field> {
    /// The largest number of multiplicands in any product.
    pub max_multiplicands: usize,
    /// The number of variables.
    pub num_variables: usize,
    /// Each product: its coefficient and the pool indices of its multiplicands.
    pub products: Vec<(F, Vec<usize>)>,
    /// The pool of extensions.
    pub flattened_ml_extensions: Vec<Rc<DenseMultilinearExtension<F>>>,
}

impl<F: Field> ListOfProductsOfPolynomials<F> {
    /// The polynomial as mathematics sees it.
    pub open spec fn model(&self) -> PolyModel {
        PolyModel {
            num_variables: self.num_variables as nat,
            max_multiplicands: self.max_multiplicands as nat,
            products: products_model(self.products@),
            tables: pool_model(self.flattened_ml_extensions@),
        }
    }

    /// The hypercube fits in memory, every extension of the pool is over
    /// `num_variables` variables, products refer into the pool, and
    /// `max_multiplicands` is the largest product length.
    pub open spec fn wf(&self) -> bool {
        &&& pow2(self.num_variables as nat) <= usize::MAX
        &&& self.max_multiplicands < usize::MAX
        &&& forall|k: int|
            0 <= k < self.flattened_ml_extensions@.len() ==> (
            #[trigger] self.flattened_ml_extensions@[k]).wf()
                && self.flattened_ml_extensions@[k].num_vars == self.num_variables
        &&& forall|t: int, j: int|
            0 <= t < self.products@.len() && 0 <= j < self.products@[t].1@.len()
                ==> #[trigger] self.products@[t].1@[j] < self.flattened_ml_extensions@.len()
        &&& self.max_multiplicands as nat == max_len(products_model(self.products@))
    }

    /// A well-formed polynomial has a well-formed model.
    pub proof fn lemma_model_wf(&self)
        requires
            self.wf(),
        ensures
            self.model().wf(F::modulus()),
    {
        let m = self.model();
        let p = F::modulus();
        assert forall|k: int| 0 <= k < m.tables.len() implies (#[trigger] m.tables[k]).len() == pow2(
            m.num_variables,
        ) by {
            assert(self.flattened_ml_extensions@[k].wf());
        }
        assert forall|k: int, b: int|
            0 <= k < m.tables.len() && 0 <= b < m.tables[k].len() implies 0
            <= #[trigger] m.tables[k][b] < p by {
            self.flattened_ml_extensions@[k].evaluations@[b].lemma_value_bounds();
        }
        assert forall|t: int| 0 <= t < m.products.len() implies 0 <= (#[trigger] m.products[t]).0
            < p by {
            self.products@[t].0.lemma_value_bounds();
        }
        assert forall|t: int, j: int|
            0 <= t < m.products.len() && 0 <= j < m.products[t].1.len() implies 0
            <= #[trigger] m.products[t].1[j] < m.tables.len() by {
            assert(self.products@[t].1@[j] < self.flattened_ml_extensions@.len());
        }
    }

    /// The zero polynomial in `num_variables` variables.
    pub fn new(num_variables: usize) -> (poly: Self)
        requires
            pow2(num_variables as nat) <= usize::MAX,
        ensures
            poly.wf(),
            poly.model().num_variables == num_variables,
            poly.model().max_multiplicands == 0,
            poly.model().products == Seq::<(int, Seq<int>)>::empty(),
            poly.model().tables == Seq::<Seq<int>>::empty(),
    {
        let poly = ListOfProductsOfPolynomials {
            max_multiplicands: 0,
            num_variables,
            products: Vec::new(),
            flattened_ml_extensions: Vec::new(),
        };
        assert(poly.model().products =~= Seq::<(int, Seq<int>)>::empty());
        assert(poly.model().tables =~= Seq::<Seq<int>>::empty());
        poly
    }

    /// The shape of the polynomial.
    pub open spec fn spec_info(&self) -> PolynomialInfo {
        PolynomialInfo {
            max_multiplicands: self.max_multiplicands,
            num_variables: self.num_variables,
        }
    }

    /// The shape of the polynomial.
    pub fn info(&self) -> (info: PolynomialInfo)
        ensures
            info == self.spec_info(),
    {
        PolynomialInfo {
            max_multiplicands: self.max_multiplicands,
            num_variables: self.num_variables,
        }
    }

    /// The first pool slot that holds the very allocation of `m`, if there is one.
    fn find_slot(&self, m: &Rc<DenseMultilinearExtension<F>>) -> (slot: Option<usize>)
        ensures
            match slot {
                Some(k) => k < self.flattened_ml_extensions@.len()
                    && *self.flattened_ml_extensions@[k as int] == **m,
                None => true,
            },
    {
        let mut flags: Vec<bool> = Vec::new();
        for k in 0..self.flattened_ml_extensions.len()
            invariant
                flags@.len() == k,
                forall|i: int|
                    0 <= i < k && #[trigger] flags@[i] ==> *self.flattened_ml_extensions@[i] == **m,
        {
            let same = same_allocation(&self.flattened_ml_extensions[k], m);
            flags.push(same);
        }
        first_set(&flags)
    }

    /// Adds the term `coefficient * prod_j product[j]`. An extension that
    /// the pool already holds (the same allocation, not merely an equal
    /// table) is referred to where it is; any other is appended to the pool.
    pub fn add_product(&mut self, product: Vec<Rc<DenseMultilinearExtension<F>>>, coefficient: F)
        requires
            old(self).wf(),
            product@.len() < usize::MAX,
            forall|j: int|
                0 <= j < product@.len() ==> (#[trigger] product@[j]).wf() && product@[j].num_vars
                    == old(self).num_variables,
        ensures
            final(self).wf(),
            final(self).num_variables == old(self).num_variables,
            final(self).model().max_multiplicands == if product@.len() > old(
                self,
            ).max_multiplicands {
                product@.len()
            } else {
                old(self).model().max_multiplicands
            },
            final(self).model().products.len() == old(self).model().products.len() + 1,
            final(self).model().products.drop_last() == old(self).model().products,
            final(self).model().products.last().0 == coefficient.value(),
            final(self).model().products.last().1.len() == product@.len(),
            forall|j: int|
                0 <= j < product@.len() ==> final(self).model().tables[
                #[trigger] final(self).model().products.last().1[j]] == product@[j]@,
            old(self).model().tables.len() <= final(self).model().tables.len()
                <= old(self).model().tables.len() + product@.len(),
            forall|k: int|
                0 <= k < old(self).model().tables.len() ==> #[trigger] final(self).model().tables[k]
                    == old(self).model().tables[k],
            forall|k: int|
                old(self).model().tables.len() <= k < final(self).model().tables.len() ==> among(
                    #[trigger] final(self).model().tables[k],
                    pool_model(product@),
                    product@.len() as int,
                ),
            forall|b: int|
                #[trigger] value_at(
                    F::modulus(),
                    final(self).model().products,
                    final(self).model().tables,
                    b,
                ) == fadd(
                    F::modulus(),
                    value_at(F::modulus(), old(self).model().products, old(self).model().tables, b),
                    plain_term(F::modulus(), coefficient.value(), pool_model(product@), b),
                ),
    {
        let mut indexed: Vec<usize> = Vec::new();
        for j in 0..product.len()
            invariant
                self.num_variables == old(self).num_variables,
                self.max_multiplicands == old(self).max_multiplicands,
                self.products == old(self).products,
                pow2(self.num_variables as nat) <= usize::MAX,
                forall|j: int|
                    0 <= j < product@.len() ==> (#[trigger] product@[j]).wf()
                        && product@[j].num_vars == old(self).num_variables,
                forall|k: int|
                    0 <= k < self.flattened_ml_extensions@.len() ==> (
                    #[trigger] self.flattened_ml_extensions@[k]).wf()
                        && self.flattened_ml_extensions@[k].num_vars == self.num_variables,
                old(self).flattened_ml_extensions@.len() <= self.flattened_ml_extensions@.len()
                    <= old(self).flattened_ml_extensions@.len() + j,
                forall|k: int|
                    0 <= k < old(self).flattened_ml_extensions@.len()
                        ==> #[trigger] self.flattened_ml_extensions@[k] == old(
                        self,
                    ).flattened_ml_extensions@[k],
                indexed@.len() == j,
                forall|i: int|
                    0 <= i < j ==> #[trigger] indexed@[i] < self.flattened_ml_extensions@.len()
                        && *self.flattened_ml_extensions@[indexed@[i] as int] == *product@[i],
                forall|k: int|
                    old(self).flattened_ml_extensions@.len() <= k
                        < self.flattened_ml_extensions@.len() ==> among(
                        (#[trigger] self.flattened_ml_extensions@[k])@,
                        pool_model(product@),
                        j as int,
                    ),
        {
            let ghost pool_before = self.flattened_ml_extensions@;
            let slot = self.find_slot(&product[j]);
            match slot {
                Some(k) => {
                    indexed.push(k);
                },
                None => {
                    let k: usize = self.flattened_ml_extensions.len();
                    let shared = share(&product[j]);
                    self.flattened_ml_extensions.push(shared);
                    indexed.push(k);
                },
            }
            proof {
                assert forall|k: int|
                    old(self).flattened_ml_extensions@.len() <= k
                        < self.flattened_ml_extensions@.len() implies among(
                    (#[trigger] self.flattened_ml_extensions@[k])@,
                    pool_model(product@),
                    j + 1,
                ) by {
                    if k < pool_before.len() {
                        assert(among(pool_before[k]@, pool_model(product@), j as int));
                        let i = choose|i: int|
                            0 <= i < j && i < pool_model(product@).len() && #[trigger] pool_model(
                                product@,
                            )[i] == pool_before[k]@;
                        assert(pool_model(product@)[i] == self.flattened_ml_extensions@[k]@);
                    } else {
                        assert(pool_model(product@)[j as int] == self.flattened_ml_extensions@[k]@);
                    }
                }
            }
        }
        if product.len() > self.max_multiplicands {
            self.max_multiplicands = product.len();
        }
        let ghost before = products_model(self.products@);
        self.products.push((coefficient, indexed));
        proof {
            let after = products_model(self.products@);
            assert(after.drop_last() =~= before);
            assert(after.last().1.len() == product@.len());
            assert(final(self).model().products.drop_last() =~= old(self).model().products);
            assert forall|t: int, j: int|
                0 <= t < self.products@.len() && 0 <= j < self.products@[t].1@.len()
                implies #[trigger] self.products@[t].1@[j] < self.flattened_ml_extensions@.len() by {
                if t < old(self).products@.len() {
                    assert(self.products@[t] == old(self).products@[t]);
                    assert(old(self).products@[t].1@[j] < old(self).flattened_ml_extensions@.len());
                } else {
                    assert(self.products@[t].1@ == indexed@);
                }
            }
            assert forall|j: int| 0 <= j < product@.len() implies self.model().tables[
            #[trigger] self.model().products.last().1[j]] == product@[j]@ by {
                assert(self.model().products.last().1[j] == indexed@[j] as int);
            }
            assert forall|b: int|
                #[trigger] value_at(F::modulus(), self.model().products, self.model().tables, b)
                    == fadd(
                    F::modulus(),
                    value_at(F::modulus(), old(self).model().products, old(self).model().tables, b),
                    plain_term(F::modulus(), coefficient.value(), pool_model(product@), b),
                ) by {
                assert forall|t: int, j: int|
                    0 <= t < old(self).model().products.len() && 0 <= j < old(
                        self,
                    ).model().products[t].1.len() implies 0 <= #[trigger] old(
                    self,
                ).model().products[t].1[j] < old(self).model().tables.len() by {
                    assert(old(self).products@[t].1@[j] < old(self).flattened_ml_extensions@.len());
                }
                crate::structure::lemma_appended_product(
                    F::modulus(),
                    old(self).model(),
                    self.model(),
                    pool_model(product@),
                    b,
                );
            }
        }
    }
}

/// The index of the first flag that is set, and none if no flag is set.
pub fn first_set(flags: &Vec<bool>) -> (slot: Option<usize>)
    ensures
        match slot {
            Some(k) => k < flags@.len() && flags@[k as int] && forall|j: int|
                0 <= j < k ==> !#[trigger] flags@[j],
            None => forall|j: int| 0 <= j < flags@.len() ==> !#[trigger] flags@[j],
        },
{
    let mut k: usize = 0;
    while k < flags.len()
        invariant
            k <= flags@.len(),
            forall|j: int| 0 <= j < k ==> !#[trigger] flags@[j],
        decreases flags@.len() - k,
    {
        if flags[k] {
            return Some(k);
        }
        k += 1;
    }
    None
}

} // verus!
