//! What the protocol guarantees, stated over the models that the contracts
//! of `prove` and `verify` speak of.

use vstd::prelude::*;
use vstd::arithmetic::power2::lemma2_to64;
use crate::error::Error;
use crate::field::{fmul, is_prime, values, Field};
use crate::lagrange::canonical_seq;
use crate::mle::{evaluate_table, fix_first};
use crate::poly::{sum_prefix, value_at, ListOfProductsOfPolynomials, PolyModel, PolynomialInfo};
use crate::sumcheck::proof_model;
use crate::sumcheck::prover::ProverMsg;
use crate::ring::{canonical, lemma_identities, lemma_ops_canonical};
use crate::structure::{lemma_fix_wf, lemma_value_agrees, lemma_value_canonical};
use crate::sumcheck::rounds::{
    lemma_round_interpolation, lemma_round_message_canonical, lemma_round_message_sum,
};
use crate::sumcheck::verification::{boundary_sum, interpolate, verify_from, verify_outcome};
use crate::sumcheck::{fixed_model, fs_challenge, fs_challenges, honest_message, honest_proof};
use crate::transcript::{bytes_to_field, challenge};

verus! {

/// The table `t` with its first `i` variables fixed to
/// `rs[0], ..., rs[i - 1]`.
pub open spec fn fixed_table(p: int, t: Seq<int>, rs: Seq<int>, i: int) -> Seq<int>
    decreases i,
{
    if i <= 0 {
        t
    } else {
        fix_first(p, fixed_table(p, t, rs, i - 1), rs[i - 1])
    }
}

/// `info` is the shape of `m`.
pub open spec fn shape_of(m: PolyModel, info: PolynomialInfo) -> bool {
    info.num_variables == m.num_variables && info.max_multiplicands == m.max_multiplicands
}

/// Fixing variables one by one keeps the polynomial well-formed, its
/// products and its degree.
pub proof fn lemma_fixed_model_wf(p: int, m: PolyModel, rs: Seq<int>, i: int)
    requires
        p >= 2,
        m.wf(p),
        0 <= i <= m.num_variables,
    ensures
        fixed_model(p, m, rs, i).wf(p),
        fixed_model(p, m, rs, i).num_variables == m.num_variables - i,
        fixed_model(p, m, rs, i).max_multiplicands == m.max_multiplicands,
        fixed_model(p, m, rs, i).products == m.products,
        fixed_model(p, m, rs, i).tables.len() == m.tables.len(),
        forall|k: int|
            0 <= k < m.tables.len() ==> #[trigger] fixed_model(p, m, rs, i).tables[k] == fixed_table(
                p,
                m.tables[k],
                rs,
                i,
            ),
    decreases i,
{
    if i > 0 {
        lemma_fixed_model_wf(p, m, rs, i - 1);
        lemma_fix_wf(p, fixed_model(p, m, rs, i - 1), rs[i - 1]);
    }
}

/// Evaluating a table at a point is fixing its variables one by one and
/// reading the entry that is left.
pub proof fn lemma_evaluate_is_fixing(p: int, t: Seq<int>, rs: Seq<int>, i: int)
    requires
        0 <= i <= rs.len(),
    ensures
        evaluate_table(p, fixed_table(p, t, rs, i), rs.skip(i)) == evaluate_table(p, t, rs),
    decreases i,
{
    if i == 0 {
        assert(rs.skip(0) =~= rs);
    } else {
        lemma_evaluate_is_fixing(p, t, rs, i - 1);
        assert(rs.skip(i - 1)[0] == rs[i - 1]);
        assert(rs.skip(i - 1).skip(1) =~= rs.skip(i));
    }
}

/// With every variable fixed, the sum that is left is the value of the
/// polynomial at the point.
pub proof fn lemma_final_sum_is_evaluation(p: int, m: PolyModel, rs: Seq<int>)
    requires
        p >= 2,
        m.wf(p),
        rs.len() == m.num_variables,
    ensures
        fixed_model(p, m, rs, m.num_variables as int).hypercube_sum(p) == m.evaluate(p, rs),
{
    let n = m.num_variables as int;
    let f = fixed_model(p, m, rs, n);
    lemma_fixed_model_wf(p, m, rs, n);
    lemma2_to64();
    assert(f.hypercube_sum(p) == sum_prefix(p, m.products, f.tables, 1));
    assert(sum_prefix(p, m.products, f.tables, 0) == 0);
    lemma_value_canonical(p, m.products, f.tables, 0, m.products.len() as int);
    lemma_identities(p, value_at(p, m.products, f.tables, 0));
    let evaluated = m.tables.map_values(|t: Seq<int>| seq![evaluate_table(p, t, rs)]);
    assert forall|t: int, j: int|
        0 <= t < m.products.len() && 0 <= j < m.products[t].1.len()
        implies #[trigger] f.tables[m.products[t].1[j]][0] == evaluated[m.products[t].1[j]][0] by {
        let k = m.products[t].1[j];
        lemma_evaluate_is_fixing(p, m.tables[k], rs, n);
        assert(f.tables[k] == fixed_table(p, m.tables[k], rs, n));
    }
    lemma_value_agrees(p, m.products, f.tables, 0, evaluated, 0);
}

/// From any round on, the verifier accepts the honest messages: if the
/// value expected of round `i` is the sum of the polynomial with its first
/// `i` variables fixed, the rounds end with the sum of the polynomial with
/// all variables fixed.
pub proof fn lemma_honest_rounds(p: int, m: PolyModel, rs: Seq<int>, i: int)
    requires
        is_prime(p),
        m.wf(p),
        m.max_multiplicands < p,
        rs.len() == m.num_variables,
        canonical_seq(p, rs),
        0 <= i <= m.num_variables,
    ensures
        verify_from(
            p,
            m.max_multiplicands as int,
            m.num_variables as int,
            honest_proof(p, m, rs),
            rs,
            fixed_model(p, m, rs, i).hypercube_sum(p),
            i,
        ) == Ok::<int, Error>(fixed_model(p, m, rs, m.num_variables as int).hypercube_sum(p)),
    decreases m.num_variables - i,
{
    if i < m.num_variables {
        let mi = fixed_model(p, m, rs, i);
        lemma_fixed_model_wf(p, m, rs, i);
        lemma_round_message_canonical(p, mi);
        lemma_round_message_sum(p, mi);
        lemma_round_interpolation(p, mi, rs[i]);
        lemma_honest_rounds(p, m, rs, i + 1);
    }
}

/// Completeness. For a well-formed polynomial over a prime field whose
/// modulus exceeds `max_multiplicands`, and for any challenges, the
/// verifier accepts the honest proof against the true sum; the point of
/// the subclaim is the sequence of challenges, and the value expected
/// there is the value of the polynomial there.
pub proof fn completeness(p: int, m: PolyModel, info: PolynomialInfo, rs: Seq<int>)
    requires
        is_prime(p),
        m.wf(p),
        shape_of(m, info),
        m.max_multiplicands < p,
        rs.len() == m.num_variables,
        canonical_seq(p, rs),
    ensures
        verify_outcome(p, info, honest_proof(p, m, rs), rs, m.hypercube_sum(p)) == Ok::<
            (Seq<int>, int),
            Error,
        >((rs, m.evaluate(p, rs))),
{
    lemma_honest_rounds(p, m, rs, 0);
    lemma_final_sum_is_evaluation(p, m, rs);
    assert(rs.take(info.num_variables as int) =~= rs);
}

/// Challenges are canonical.
pub proof fn lemma_challenge_canonical(p: int, bytes: Seq<u8>)
    requires
        p >= 2,
    ensures
        canonical(p, bytes_to_field(p, bytes)),
    decreases bytes.len(),
{
    if bytes.len() > 0 {
        lemma_ops_canonical(
            p,
            fmul(p, bytes_to_field(p, bytes.drop_last()), 256int % p),
            (bytes.last() as int) % p,
        );
    }
}

/// Completeness of the non-interactive protocol. If `proof` is the honest
/// proof for the challenges `rs`, and `rs` are the challenges that a
/// transcript with log `log` yields for `proof` (this is what `prove`
/// returns on a transcript that has absorbed the shape), then a verifier
/// whose transcript has the same log accepts `proof` against the true sum;
/// the point of the subclaim is the prover's `rs`, and the value expected
/// there is the value of the polynomial there.
pub proof fn completeness_fiat_shamir(
    p: int,
    m: PolyModel,
    info: PolynomialInfo,
    log: Seq<u8>,
    proof: Seq<Seq<int>>,
    rs: Seq<int>,
)
    requires
        is_prime(p),
        m.wf(p),
        shape_of(m, info),
        m.max_multiplicands < p,
        proof == honest_proof(p, m, rs),
        rs == fs_challenges(p, log, proof, m.num_variables as int),
    ensures
        verify_outcome(
            p,
            info,
            proof,
            fs_challenges(p, log, proof, info.num_variables as int),
            m.hypercube_sum(p),
        ) == Ok::<(Seq<int>, int), Error>((rs, m.evaluate(p, rs))),
{
    assert forall|i: int| 0 <= i < rs.len() implies canonical(p, #[trigger] rs[i]) by {
        assert(rs[i] == fs_challenge(p, log, proof, i));
        lemma_challenge_canonical(
            p,
            crate::hash::sha256(
                crate::sumcheck::absorb_msg(crate::sumcheck::fs_log(log, proof, i), proof[i]),
            ),
        );
    }
    completeness(p, m, info, rs);
}

/// Completeness, over the values that `prove` and `verify` handle. If
/// `proof` and `randomness` are what `prove` returns for `polynomial` on a
/// transcript whose log is `log` once the shape is absorbed, then `verify`,
/// on a transcript with the same log at that point, accepts `proof` against
/// the true sum; the point of the subclaim is `randomness`, and the value
/// expected there is the value of the polynomial there.
pub proof fn proved_is_accepted<F: Field>(
    polynomial: &ListOfProductsOfPolynomials<F>,
    log: Seq<u8>,
    proof: Seq<ProverMsg<F>>,
    randomness: Seq<F>,
)
    requires
        polynomial.wf(),
        is_prime(F::modulus()),
        polynomial.max_multiplicands < F::modulus(),
        proof_model(proof) == honest_proof(F::modulus(), polynomial.model(), values(randomness)),
        values(randomness) == fs_challenges(
            F::modulus(),
            log,
            proof_model(proof),
            polynomial.num_variables as int,
        ),
    ensures
        verify_outcome(
            F::modulus(),
            polynomial.spec_info(),
            proof_model(proof),
            fs_challenges(F::modulus(), log, proof_model(proof), polynomial.num_variables as int),
            polynomial.model().hypercube_sum(F::modulus()),
        ) == Ok::<(Seq<int>, int), Error>(
            (values(randomness), polynomial.model().evaluate(F::modulus(), values(randomness))),
        ),
{
    polynomial.lemma_model_wf();
    completeness_fiat_shamir(
        F::modulus(),
        polynomial.model(),
        polynomial.spec_info(),
        log,
        proof_model(proof),
        values(randomness),
    );
}

/// The sum that an honest proof claims is the true sum, whatever the
/// challenges.
pub proof fn extracted_sum_is_true_sum(p: int, m: PolyModel, rs: Seq<int>)
    requires
        p >= 2,
        m.wf(p),
        m.num_variables >= 1,
    ensures
        boundary_sum(p, honest_proof(p, m, rs)[0]) == m.hypercube_sum(p),
{
    lemma_round_message_sum(p, m);
}

/// Shape binding. A proof whose first message has not
/// `max_multiplicands + 1` evaluations is malformed for that shape; so an
/// honest proof for a polynomial with another `max_multiplicands` is
/// turned down, whatever the challenges and the claimed sum.
pub proof fn shape_binding(
    p: int,
    m: PolyModel,
    info: PolynomialInfo,
    rs: Seq<int>,
    challenges: Seq<int>,
    claimed_sum: int,
)
    requires
        p >= 2,
        info.num_variables >= 1,
        info.max_multiplicands != m.max_multiplicands,
    ensures
        verify_outcome(p, info, honest_proof(p, m, rs), challenges, claimed_sum) == Err::<
            (Seq<int>, int),
            Error,
        >(Error::MalformedProof),
{
    if honest_proof(p, m, rs).len() >= info.num_variables {
        lemma_round_message_canonical(p, m);
    }
}

/// Incomplete proofs. A proof with fewer messages than variables is
/// malformed, whatever its messages, the challenges and the claimed sum.
pub proof fn incomplete_proof_is_malformed(
    p: int,
    info: PolynomialInfo,
    msgs: Seq<Seq<int>>,
    challenges: Seq<int>,
    claimed_sum: int,
)
    requires
        msgs.len() < info.num_variables,
    ensures
        verify_outcome(p, info, msgs, challenges, claimed_sum) == Err::<(Seq<int>, int), Error>(
            Error::MalformedProof,
        ),
{
}

/// An honest proof does not carry a false claim: against any claimed sum
/// but the true one, verification fails in the first round.
pub proof fn wrong_claim_fails(
    p: int,
    m: PolyModel,
    info: PolynomialInfo,
    rs: Seq<int>,
    challenges: Seq<int>,
    claimed_sum: int,
)
    requires
        p >= 2,
        m.wf(p),
        shape_of(m, info),
        m.num_variables >= 1,
        claimed_sum != m.hypercube_sum(p),
    ensures
        verify_outcome(p, info, honest_proof(p, m, rs), challenges, claimed_sum) == Err::<
            (Seq<int>, int),
            Error,
        >(Error::VerificationFailed),
{
    lemma_round_message_sum(p, m);
    lemma_round_message_canonical(p, m);
}

/// Round `i` is a collision: the message received differs from the honest
/// one for the challenges so far, and yet both interpolate to the same
/// value at the challenge of the round.
pub open spec fn collision(p: int, m: PolyModel, msgs: Seq<Seq<int>>, rs: Seq<int>, i: int) -> bool {
    &&& msgs[i].len() == m.max_multiplicands + 1
    &&& msgs[i] != honest_message(p, m, rs, i)
    &&& interpolate(p, msgs[i], rs[i]) == interpolate(p, honest_message(p, m, rs, i), rs[i])
}

/// If the rounds from `i` on accept, starting from an expected value that
/// is not the sum of the polynomial with `i` variables fixed, and end with
/// the value of the polynomial at the point, a round from `i` on is a
/// collision.
pub proof fn lemma_collision_from(
    p: int,
    m: PolyModel,
    msgs: Seq<Seq<int>>,
    rs: Seq<int>,
    expected: int,
    i: int,
)
    requires
        is_prime(p),
        m.wf(p),
        m.max_multiplicands < p,
        rs.len() == m.num_variables,
        canonical_seq(p, rs),
        0 <= i <= m.num_variables,
        expected != fixed_model(p, m, rs, i).hypercube_sum(p),
        verify_from(
            p,
            m.max_multiplicands as int,
            m.num_variables as int,
            msgs,
            rs,
            expected,
            i,
        ) == Ok::<int, Error>(m.evaluate(p, rs)),
    ensures
        exists|j: int| i <= j < m.num_variables && collision(p, m, msgs, rs, j),
    decreases m.num_variables - i,
{
    if i >= m.num_variables {
        lemma_final_sum_is_evaluation(p, m, rs);
    } else {
        let mi = fixed_model(p, m, rs, i);
        lemma_fixed_model_wf(p, m, rs, i);
        lemma_round_message_sum(p, mi);
        lemma_round_interpolation(p, mi, rs[i]);
        let next = interpolate(p, msgs[i], rs[i]);
        assert(msgs[i] != honest_message(p, m, rs, i));
        if next == fixed_model(p, m, rs, i + 1).hypercube_sum(p) {
            assert(collision(p, m, msgs, rs, i));
        } else {
            lemma_collision_from(p, m, msgs, rs, next, i + 1);
        }
    }
}

/// Two distinct round messages rarely agree: among any
/// `max_multiplicands + 1` distinct challenges there is one at which they
/// interpolate to different values. So at most `max_multiplicands`
/// challenges can make a round a collision.
pub proof fn distinct_messages_disagree(p: int, e1: Seq<int>, e2: Seq<int>, pts: Seq<int>)
    requires
        is_prime(p),
        canonical_seq(p, e1),
        canonical_seq(p, e2),
        1 <= e1.len() <= p,
        e1.len() == e2.len(),
        e1 != e2,
        crate::lagrange::distinct_nodes(p, pts),
        pts.len() == e1.len(),
    ensures
        exists|k: int|
            0 <= k < pts.len() && interpolate(p, e1, #[trigger] pts[k]) != interpolate(
                p,
                e2,
                pts[k],
            ),
{
    if forall|k: int|
        0 <= k < pts.len() ==> interpolate(p, e1, #[trigger] pts[k]) == interpolate(p, e2, pts[k]) {
        crate::sumcheck::interpolation::lemma_messages_agree(p, e1, e2, pts);
    }
}

/// The deterministic core of soundness. If verification accepts a claimed
/// sum that is not the true sum, and the subclaim it returns is true of
/// the polynomial, then in some round the message received differs from
/// the honest message and yet agrees with it at the challenge: the
/// challenge is a root of the difference of two distinct polynomials of
/// degree at most `max_multiplicands`.
pub proof fn false_claim_needs_collision(
    p: int,
    m: PolyModel,
    info: PolynomialInfo,
    msgs: Seq<Seq<int>>,
    rs: Seq<int>,
    claimed_sum: int,
)
    requires
        is_prime(p),
        m.wf(p),
        shape_of(m, info),
        m.max_multiplicands < p,
        rs.len() == m.num_variables,
        canonical_seq(p, rs),
        claimed_sum != m.hypercube_sum(p),
        verify_outcome(p, info, msgs, rs, claimed_sum) == Ok::<(Seq<int>, int), Error>(
            (rs, m.evaluate(p, rs)),
        ),
    ensures
        exists|j: int| 0 <= j < m.num_variables && collision(p, m, msgs, rs, j),
{
    lemma_collision_from(p, m, msgs, rs, claimed_sum, 0);
}

} // verus!
