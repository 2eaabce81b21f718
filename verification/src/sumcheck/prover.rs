//! The prover's round engine.

use vstd::prelude::*;
use vstd::arithmetic::div_mod::{lemma_add_mod_noop, lemma_small_mod};
use vstd::arithmetic::power2::{lemma_pow2_strictly_increases, lemma_pow2_unfold, pow2};
use crate::evaluation::{
    copy_products, eval_sum, fix_tables, indices_below, pow2_usize, tables_over,
};
use crate::field::{one, values, zero, Field};
use crate::mle::DenseMultilinearExtension;
use crate::poly::{
    max_len, pool_model, products_model, tables_model, ListOfProductsOfPolynomials, PolyModel,
};
use crate::sumcheck::IPForMLSumcheck;

verus! {

/// One round's message: the round polynomial sampled at
/// `0, 1, ..., max_multiplicands`.
pub struct ProverMsg<F: Field> {
    pub evaluations: Vec<F>,
}

impl<F: Field> View for ProverMsg<F> {
    type V = Seq<int>;

    open spec fn view(&self) -> Seq<int> {
        values(self.evaluations@)
    }
}

/// The verifier's reply to a round message: a challenge.
pub struct VerifierMsg<F: Field> {
    pub randomness: F,
}

/// The prover's working copy of the polynomial, with a growing prefix of
/// its variables fixed to the challenges received.
pub struct ProverState<F: Field> {
    /// The challenges received so far.
    pub randomness: Vec<F>,
    /// Each product: its coefficient and the pool indices of its multiplicands.
    pub list_of_products: Vec<(F, Vec<usize>)>,
    /// The pool of extensions, over the variables not yet fixed.
    pub flattened_ml_extensions: Vec<DenseMultilinearExtension<F>>,
    /// The number of variables of the polynomial being proved.
    pub num_vars: usize,
    /// The largest number of multiplicands in any product.
    pub max_multiplicands: usize,
    /// The number of round messages produced so far.
    pub round: usize,
}

impl<F: Field> ProverState<F> {
    /// How many variables the tables have already lost: the challenge that
    /// answers a round is applied at the start of the next.
    pub open spec fn fixed(&self) -> nat {
        if self.round == 0 {
            0
        } else {
            (self.round - 1) as nat
        }
    }

    /// The polynomial in the variables not yet fixed.
    pub open spec fn model(&self) -> PolyModel {
        PolyModel {
            num_variables: (self.num_vars - self.fixed()) as nat,
            max_multiplicands: self.max_multiplicands as nat,
            products: products_model(self.list_of_products@),
            tables: tables_model(self.flattened_ml_extensions@),
        }
    }

    /// The state is one that the round engine can work on.
    pub open spec fn wf(&self) -> bool {
        &&& self.round <= self.num_vars
        &&& pow2(self.num_vars as nat) <= usize::MAX
        &&& self.max_multiplicands < usize::MAX
        &&& tables_over(self.flattened_ml_extensions@, self.num_vars - self.fixed())
        &&& indices_below(self.list_of_products@, self.flattened_ml_extensions@.len() as int)
        &&& self.max_multiplicands as nat == max_len(products_model(self.list_of_products@))
    }
}

impl<F: Field> IPForMLSumcheck<F> {
    /// The prover's state before the first round: a copy of the polynomial
    /// with nothing fixed.
    pub fn prover_init(polynomial: &ListOfProductsOfPolynomials<F>) -> (state: ProverState<F>)
        requires
            polynomial.wf(),
        ensures
            state.wf(),
            state.round == 0,
            state.num_vars == polynomial.num_variables,
            state.model() == polynomial.model(),
            state.randomness@.len() == 0,
    {
        let mut tables: Vec<DenseMultilinearExtension<F>> = Vec::new();
        for k in 0..polynomial.flattened_ml_extensions.len()
            invariant
                polynomial.wf(),
                tables@.len() == k,
                forall|i: int|
                    0 <= i < k ==> (#[trigger] tables@[i]).num_vars == polynomial.num_variables
                        && tables@[i].evaluations@
                        == polynomial.flattened_ml_extensions@[i].evaluations@,
        {
            let table = polynomial.flattened_ml_extensions[k].duplicate();
            tables.push(table);
        }
        let products = copy_products(&polynomial.products);
        let state = ProverState {
            randomness: Vec::new(),
            list_of_products: products,
            flattened_ml_extensions: tables,
            num_vars: polynomial.num_variables,
            max_multiplicands: polynomial.max_multiplicands,
            round: 0,
        };
        proof {
            assert(products_model(state.list_of_products@) =~= products_model(polynomial.products@))
                by {
                assert forall|t: int| 0 <= t < polynomial.products@.len() implies products_model(
                    state.list_of_products@,
                )[t] == products_model(polynomial.products@)[t] by {
                    assert(products_model(state.list_of_products@)[t].1 =~= products_model(
                        polynomial.products@,
                    )[t].1);
                }
            }
            assert(tables_model(state.flattened_ml_extensions@) =~= pool_model(
                polynomial.flattened_ml_extensions@,
            ));
            assert forall|k: int| 0 <= k < state.flattened_ml_extensions@.len() implies (
            #[trigger] state.flattened_ml_extensions@[k]).wf() by {
                assert(polynomial.flattened_ml_extensions@[k].wf());
            }
        }
        state
    }

    /// Runs one round. With a challenge, the variable of the round before
    /// is first fixed to it in every table; then the round polynomial of
    /// the next variable is sampled at `0, 1, ..., max_multiplicands`.
    ///
    /// The first round takes no challenge, every later round takes one,
    /// and there are no more rounds than variables.
    pub fn prove_round(prover_state: &mut ProverState<F>, v_msg: &Option<VerifierMsg<F>>) -> (msg:
        ProverMsg<F>)
        requires
            old(prover_state).wf(),
            old(prover_state).round < old(prover_state).num_vars,
            v_msg.is_some() == (old(prover_state).round > 0),
        ensures
            final(prover_state).wf(),
            final(prover_state).round == old(prover_state).round + 1,
            final(prover_state).num_vars == old(prover_state).num_vars,
            final(prover_state).model() == (match v_msg {
                Some(m) => old(prover_state).model().fix(F::modulus(), m.randomness.value()),
                None => old(prover_state).model(),
            }),
            values(final(prover_state).randomness@) == (match v_msg {
                Some(m) => values(old(prover_state).randomness@).push(m.randomness.value()),
                None => values(old(prover_state).randomness@),
            }),
            msg@ == final(prover_state).model().round_message(F::modulus()),
    {
        match v_msg {
            Some(m) => {
                let fixed = fix_tables(&prover_state.flattened_ml_extensions, &m.randomness);
                prover_state.flattened_ml_extensions = fixed;
                prover_state.randomness.push(m.randomness);
                assert(values(prover_state.randomness@) =~= values(old(prover_state).randomness@).push(
                    m.randomness.value(),
                ));
            },
            None => {},
        }
        prover_state.round = prover_state.round + 1;
        let remaining: usize = prover_state.num_vars - (prover_state.round - 1);
        proof {
            lemma_pow2_unfold(remaining as nat);
            if remaining < prover_state.num_vars {
                lemma_pow2_strictly_increases(remaining as nat, prover_state.num_vars as nat);
            }
            if remaining - 1 < prover_state.num_vars {
                lemma_pow2_strictly_increases((remaining - 1) as nat, prover_state.num_vars as nat);
            }
        }
        let half: usize = pow2_usize(remaining - 1);
        let ghost model = prover_state.model();
        let ghost p = F::modulus();
        let mut evaluations: Vec<F> = Vec::new();
        let mut x: F = zero::<F>();
        let step: F = one::<F>();
        proof {
            F::lemma_modulus_bounds();
            lemma_small_mod(0, p as nat);
        }
        for e in 0..prover_state.max_multiplicands + 1
            invariant
                p == F::modulus(),
                p >= 2,
                prover_state.wf(),
                prover_state.round >= 1,
                remaining == prover_state.num_vars - (prover_state.round - 1),
                remaining >= 1,
                half == pow2((remaining - 1) as nat),
                pow2(remaining as nat) == 2 * half,
                model == prover_state.model(),
                step.value() == 1,
                x.value() == (e as int) % p,
                evaluations@.len() == e,
                forall|i: int|
                    0 <= i < e ==> (#[trigger] evaluations@[i]).value() == model.fix(
                        p,
                        i % p,
                    ).hypercube_sum(p),
        {
            let fixed = fix_tables(&prover_state.flattened_ml_extensions, &x);
            let s: F = eval_sum(&prover_state.list_of_products, &fixed, half);
            evaluations.push(s);
            proof {
                lemma_add_mod_noop(e as int, 1, p);
                lemma_small_mod(1, p as nat);
            }
            x = x.add(&step);
        }
        let msg = ProverMsg { evaluations };
        assert(msg@ =~= model.round_message(p));
        msg
    }
}

} // verus!
