//! The multilinear sumcheck protocol: round engines for both roles and
//! their non-interactive orchestration.

use vstd::prelude::*;
use core::marker::PhantomData;
use crate::error::Error;
use crate::field::{values, Field};
use crate::mle::copy_elements;
use crate::poly::{ListOfProductsOfPolynomials, PolyModel, PolynomialInfo};
use crate::sumcheck::prover::{ProverMsg, ProverState, VerifierMsg};
use crate::sumcheck::verification::{
    boundary_sum, first_failure, optional_value, verify_from, verify_outcome, SubClaim,
};
use crate::transcript::{absorb, challenge, encode_values, le_bytes, push_u64, squeezed, Transcript};

pub mod guarantees;
pub mod interpolation;
pub mod prover;
pub mod rounds;
pub mod verification;

verus! {

/// The interactive protocol: the round functions of prover and verifier.
pub struct IPForMLSumcheck<F: Field> {
    pub marker: PhantomData<F>,
}

/// The sumcheck for products of multilinear polynomials, made
/// non-interactive through a transcript.
pub struct MLSumcheck<F: Field>(pub PhantomData<F>);

/// A proof: the round messages, in round order.
pub type Proof<F> = Vec<ProverMsg<F>>;

/// The residues behind a proof.
pub open spec fn proof_model<F: Field>(proof: Seq<ProverMsg<F>>) -> Seq<Seq<int>> {
    Seq::new(proof.len(), |i: int| proof[i]@)
}

/// The tag under which the shape of the polynomial is absorbed: the bytes
/// of "polynomial info".
pub open spec fn info_label() -> Seq<u8> {
    seq![112u8, 111u8, 108u8, 121u8, 110u8, 111u8, 109u8, 105u8, 97u8, 108u8, 32u8, 105u8, 110u8, 102u8, 111u8]
}

/// The tag under which a round message is absorbed: the bytes of
/// "sumcheck msg".
pub open spec fn msg_label() -> Seq<u8> {
    seq![115u8, 117u8, 109u8, 99u8, 104u8, 101u8, 99u8, 107u8, 32u8, 109u8, 115u8, 103u8]
}

/// The bytes that stand for a shape.
pub open spec fn encode_info(info: PolynomialInfo) -> Seq<u8> {
    le_bytes(info.max_multiplicands as int, 8) + le_bytes(info.num_variables as int, 8)
}

/// The log after the shape was absorbed.
pub open spec fn absorb_info(log: Seq<u8>, info: PolynomialInfo) -> Seq<u8> {
    absorb(log, info_label(), encode_info(info))
}

/// The log after a round message was absorbed.
pub open spec fn absorb_msg(log: Seq<u8>, msg: Seq<int>) -> Seq<u8> {
    absorb(log, msg_label(), encode_values(msg))
}

/// The log after `k` rounds that start from `log`: each round absorbs its
/// message and then yields its challenge.
pub open spec fn fs_log(log: Seq<u8>, msgs: Seq<Seq<int>>, k: int) -> Seq<u8>
    decreases k,
{
    if k <= 0 {
        log
    } else {
        squeezed(absorb_msg(fs_log(log, msgs, k - 1), msgs[k - 1]))
    }
}

/// The challenge that answers message `i`: it is drawn once messages
/// `0..=i` are absorbed.
pub open spec fn fs_challenge(p: int, log: Seq<u8>, msgs: Seq<Seq<int>>, i: int) -> int {
    challenge(p, absorb_msg(fs_log(log, msgs, i), msgs[i]))
}

/// The challenges of the first `n` rounds.
pub open spec fn fs_challenges(p: int, log: Seq<u8>, msgs: Seq<Seq<int>>, n: int) -> Seq<int> {
    Seq::new(n as nat, |i: int| fs_challenge(p, log, msgs, i))
}

/// The log that `verify` leaves, where `log` is the log once the shape is
/// absorbed: that log for a proof with too few messages; else the log
/// after all rounds if they all pass, and the log with the first failing
/// message absorbed if one fails.
pub open spec fn verify_log(
    p: int,
    info: PolynomialInfo,
    log: Seq<u8>,
    msgs: Seq<Seq<int>>,
    claimed_sum: int,
) -> Seq<u8> {
    let n = info.num_variables as int;
    if msgs.len() < n {
        log
    } else {
        let k = first_failure(
            p,
            info.max_multiplicands as int,
            n,
            msgs,
            fs_challenges(p, log, msgs, n),
            claimed_sum,
            0,
        );
        if k >= n {
            fs_log(log, msgs, n)
        } else {
            absorb_msg(fs_log(log, msgs, k), msgs[k])
        }
    }
}

/// The polynomial with its first `i` variables fixed to `rs[0], ..., rs[i - 1]`.
pub open spec fn fixed_model(p: int, m: PolyModel, rs: Seq<int>, i: int) -> PolyModel
    decreases i,
{
    if i <= 0 {
        m
    } else {
        fixed_model(p, m, rs, i - 1).fix(p, rs[i - 1])
    }
}

/// The message that an honest prover sends in round `i` (counted from 0)
/// after the challenges `rs[0], ..., rs[i - 1]`.
pub open spec fn honest_message(p: int, m: PolyModel, rs: Seq<int>, i: int) -> Seq<int> {
    fixed_model(p, m, rs, i).round_message(p)
}

/// The proof that an honest prover gives when the challenges are `rs`.
pub open spec fn honest_proof(p: int, m: PolyModel, rs: Seq<int>) -> Seq<Seq<int>> {
    Seq::new(m.num_variables, |i: int| honest_message(p, m, rs, i))
}

/// Fixing the first `i` variables reads only the first `i` challenges.
pub proof fn lemma_fixed_model_prefix(p: int, m: PolyModel, rs: Seq<int>, rs2: Seq<int>, i: int)
    requires
        i <= rs.len(),
        i <= rs2.len(),
        forall|k: int| 0 <= k < i ==> rs[k] == rs2[k],
    ensures
        fixed_model(p, m, rs, i) == fixed_model(p, m, rs2, i),
    decreases i,
{
    if i > 0 {
        lemma_fixed_model_prefix(p, m, rs, rs2, i - 1);
    }
}

/// The log after `k` rounds reads only the first `k` messages.
pub proof fn lemma_fs_log_prefix(log: Seq<u8>, msgs: Seq<Seq<int>>, msgs2: Seq<Seq<int>>, k: int)
    requires
        k <= msgs.len(),
        k <= msgs2.len(),
        forall|i: int| 0 <= i < k ==> msgs[i] == msgs2[i],
    ensures
        fs_log(log, msgs, k) == fs_log(log, msgs2, k),
    decreases k,
{
    if k > 0 {
        lemma_fs_log_prefix(log, msgs, msgs2, k - 1);
    }
}

/// The bytes of "polynomial info".
fn make_info_label() -> (label: Vec<u8>)
    ensures
        label@ == info_label(),
{
    let label: Vec<u8> = vec![112u8, 111u8, 108u8, 121u8, 110u8, 111u8, 109u8, 105u8, 97u8, 108u8, 32u8, 105u8, 110u8, 102u8, 111u8];
    assert(label@ =~= info_label());
    label
}

/// The bytes of "sumcheck msg".
fn make_msg_label() -> (label: Vec<u8>)
    ensures
        label@ == msg_label(),
{
    let label: Vec<u8> = vec![115u8, 117u8, 109u8, 99u8, 104u8, 101u8, 99u8, 107u8, 32u8, 109u8, 115u8, 103u8];
    assert(label@ =~= msg_label());
    label
}

/// Absorbs the shape of the polynomial.
pub fn append_info<F: Field>(trans: &mut Transcript<F>, info: &PolynomialInfo)
    ensures
        final(trans)@ == absorb_info(old(trans)@, *info),
{
    let mut data: Vec<u8> = Vec::new();
    push_u64(&mut data, info.max_multiplicands as u64);
    push_u64(&mut data, info.num_variables as u64);
    assert(data@ =~= encode_info(*info));
    let label = make_info_label();
    trans.append_message(&label, &data);
}

/// Absorbs a round message.
pub fn append_prover_msg<F: Field>(trans: &mut Transcript<F>, msg: &ProverMsg<F>)
    ensures
        final(trans)@ == absorb_msg(old(trans)@, msg@),
{
    let label = make_msg_label();
    trans.append_elements(&label, &msg.evaluations);
}

/// A copy of a proof.
pub fn copy_proof<F: Field>(proof: &Proof<F>) -> (out: Proof<F>)
    ensures
        out@.len() == proof@.len(),
        forall|i: int| 0 <= i < out@.len() ==> (#[trigger] out@[i]).evaluations@ == proof@[i].evaluations@,
        proof_model(out@) == proof_model(proof@),
{
    let mut out: Vec<ProverMsg<F>> = Vec::new();
    for i in 0..proof.len()
        invariant
            out@.len() == i,
            forall|k: int| 0 <= k < i ==> (#[trigger] out@[k]).evaluations@ == proof@[k].evaluations@,
    {
        out.push(ProverMsg { evaluations: copy_elements(&proof[i].evaluations) });
    }
    assert(proof_model(out@) =~= proof_model(proof@));
    out
}

/// What a prover holds once a sumcheck is done: the proof, the claim it
/// proves, and the points that only the prover needs.
pub struct SumcheckKit<F: Field> {
    /// The claimed sum.
    pub claimed_sum: F,
    /// The shape of the polynomial proved.
    pub info: PolynomialInfo,
    /// The point at which the claim was instantiated.
    pub u: Vec<F>,
    /// The proof.
    pub proof: Proof<F>,
    /// The challenges of the run.
    pub randomness: Vec<F>,
}

/// What a verifier needs of a finished sumcheck.
pub struct ProofWrapper<F: Field> {
    /// The claimed sum.
    pub claimed_sum: F,
    /// The shape of the polynomial proved.
    pub info: PolynomialInfo,
    /// The proof.
    pub proof: Proof<F>,
}

impl<F: Field> SumcheckKit<F> {
    /// The part of the kit that goes to the verifier: the claimed sum, the
    /// shape and the proof.
    pub fn extract(&self) -> (wrapper: ProofWrapper<F>)
        ensures
            wrapper.claimed_sum == self.claimed_sum,
            wrapper.info == self.info,
            wrapper.proof@.len() == self.proof@.len(),
            forall|i: int|
                0 <= i < self.proof@.len() ==> (#[trigger] wrapper.proof@[i]).evaluations@
                    == self.proof@[i].evaluations@,
    {
        ProofWrapper { claimed_sum: self.claimed_sum, info: self.info, proof: copy_proof(&self.proof) }
    }
}

impl<F: Field> MLSumcheck<F> {
    /// The sum that a proof claims: what its first message adds up to.
    pub fn extract_sum(proof: &Proof<F>) -> (sum: F)
        requires
            proof@.len() > 0,
            proof@[0].evaluations@.len() > 0,
        ensures
            sum.value() == boundary_sum(F::modulus(), proof@[0]@),
    {
        let evaluations = &proof[0].evaluations;
        let p0: F = evaluations[0];
        let p1: F = if evaluations.len() > 1 {
            evaluations[1]
        } else {
            evaluations[0]
        };
        p0.add(&p1)
    }

    /// Proves the sum of `polynomial` over the boolean hypercube.
    ///
    /// The shape is absorbed first. Each round's message is absorbed before
    /// the challenge that answers it is drawn. The state returned holds all
    /// challenges, the last one included, and the tables with every
    /// variable but the last fixed.
    pub fn prove(trans: &mut Transcript<F>, polynomial: &ListOfProductsOfPolynomials<F>) -> (res:
        Result<(Proof<F>, ProverState<F>), Error>)
        requires
            polynomial.wf(),
        ensures
            match res {
                Ok((proof, state)) => {
                    let p = F::modulus();
                    let m = polynomial.model();
                    let n = polynomial.num_variables as int;
                    let rs = values(state.randomness@);
                    let log = absorb_info(old(trans)@, polynomial.spec_info());
                    &&& proof_model(proof@) == honest_proof(p, m, rs)
                    &&& rs == fs_challenges(p, log, proof_model(proof@), n)
                    &&& final(trans)@ == fs_log(log, proof_model(proof@), n)
                    &&& state.wf()
                    &&& state.round == n
                    &&& state.num_vars == n
                    &&& state.model() == fixed_model(p, m, rs, n - 1)
                },
                Err(_) => false,
            },
    {
        let info = polynomial.info();
        append_info(trans, &info);
        let ghost p = F::modulus();
        let ghost m = polynomial.model();
        let ghost log = trans@;
        let n: usize = polynomial.num_variables;
        let mut prover_state = IPForMLSumcheck::prover_init(polynomial);
        let mut verifier_msg: Option<VerifierMsg<F>> = None;
        let mut prover_msgs: Vec<ProverMsg<F>> = Vec::new();
        let ghost mut chal: Seq<int> = Seq::empty();
        assert(values(prover_state.randomness@) =~= Seq::<int>::empty());
        for i in 0..n
            invariant
                p == F::modulus(),
                n == polynomial.num_variables,
                prover_state.wf(),
                prover_state.round == i,
                prover_state.num_vars == n,
                prover_msgs@.len() == i,
                chal.len() == i,
                match verifier_msg {
                    Some(v) => i > 0 && v.randomness.value() == chal[i - 1],
                    None => i == 0,
                },
                values(prover_state.randomness@) == chal.take(
                    if i == 0 {
                        0
                    } else {
                        i - 1
                    },
                ),
                prover_state.model() == fixed_model(p, m, chal, i - 1),
                forall|k: int|
                    0 <= k < i ==> #[trigger] proof_model(prover_msgs@)[k] == honest_message(
                        p,
                        m,
                        chal,
                        k,
                    ),
                forall|k: int|
                    0 <= k < i ==> #[trigger] chal[k] == fs_challenge(
                        p,
                        log,
                        proof_model(prover_msgs@),
                        k,
                    ),
                trans@ == fs_log(log, proof_model(prover_msgs@), i as int),
        {
            let ghost old_msgs = proof_model(prover_msgs@);
            let ghost old_chal = chal;
            let prover_msg = IPForMLSumcheck::prove_round(&mut prover_state, &verifier_msg);
            append_prover_msg(trans, &prover_msg);
            let ghost sent = prover_msg@;
            prover_msgs.push(prover_msg);
            let reply = IPForMLSumcheck::sample_round(trans);
            proof {
                let new_msgs = proof_model(prover_msgs@);
                let r = reply.randomness.value();
                chal = old_chal.push(r);
                assert(new_msgs =~= old_msgs.push(sent));
                // the state sits at the model fixed by the challenges so far
                assert(prover_state.model() == fixed_model(p, m, old_chal, i as int));
                lemma_fixed_model_prefix(p, m, old_chal, chal, i as int);
                assert(values(prover_state.randomness@) =~= chal.take(i as int)) by {
                    if i > 0 {
                        assert(old_chal.take(i - 1).push(old_chal[i - 1]) =~= chal.take(i as int));
                    } else {
                        assert(old_chal.take(0) =~= chal.take(0));
                    }
                }
                lemma_fs_log_prefix(log, old_msgs, new_msgs, i as int);
                assert forall|k: int| 0 <= k < i + 1 implies #[trigger] new_msgs[k] == honest_message(
                    p,
                    m,
                    chal,
                    k,
                ) by {
                    lemma_fixed_model_prefix(p, m, old_chal, chal, k);
                    if k < i {
                        assert(old_msgs[k] == honest_message(p, m, old_chal, k));
                    }
                }
                assert forall|k: int| 0 <= k < i + 1 implies #[trigger] chal[k] == fs_challenge(
                    p,
                    log,
                    new_msgs,
                    k,
                ) by {
                    lemma_fs_log_prefix(log, old_msgs, new_msgs, k);
                    if k < i {
                        assert(old_chal[k] == fs_challenge(p, log, old_msgs, k));
                    }
                }
            }
            verifier_msg = Some(reply);
        }
        match verifier_msg {
            Some(v) => {
                prover_state.randomness.push(v.randomness);
                assert(values(prover_state.randomness@) =~= chal) by {
                    assert(chal.take(n - 1).push(chal[n - 1]) =~= chal);
                }
            },
            None => {
                assert(chal.take(0) =~= chal);
            },
        }
        proof {
            assert(proof_model(prover_msgs@) =~= honest_proof(p, m, chal));
            assert(chal =~= fs_challenges(p, log, proof_model(prover_msgs@), n as int));
        }
        Ok((prover_msgs, prover_state))
    }

    /// Verifies `proof` against `claimed_sum` for a polynomial of the shape
    /// `polynomial_info`, and reduces the claim to one evaluation.
    ///
    /// The shape is absorbed first. A proof with fewer messages than
    /// variables is malformed, and nothing more is absorbed. Otherwise the
    /// rounds run in order: the message is absorbed, then checked, then
    /// answered by a challenge. The first message that does not pass ends
    /// the run with its failure, and no challenge is drawn for it.
    pub fn verify(
        trans: &mut Transcript<F>,
        polynomial_info: &PolynomialInfo,
        claimed_sum: F,
        proof: &Proof<F>,
    ) -> (res: Result<SubClaim<F>, Error>)
        ensures
            final(trans)@ == verify_log(
                F::modulus(),
                *polynomial_info,
                absorb_info(old(trans)@, *polynomial_info),
                proof_model(proof@),
                claimed_sum.value(),
            ),
            match res {
                Ok(claim) => verify_outcome(
                    F::modulus(),
                    *polynomial_info,
                    proof_model(proof@),
                    fs_challenges(
                        F::modulus(),
                        absorb_info(old(trans)@, *polynomial_info),
                        proof_model(proof@),
                        polynomial_info.num_variables as int,
                    ),
                    claimed_sum.value(),
                ) == Ok::<(Seq<int>, int), Error>(
                    (values(claim.point@), claim.expected_evaluation.value()),
                ),
                Err(e) => verify_outcome(
                    F::modulus(),
                    *polynomial_info,
                    proof_model(proof@),
                    fs_challenges(
                        F::modulus(),
                        absorb_info(old(trans)@, *polynomial_info),
                        proof_model(proof@),
                        polynomial_info.num_variables as int,
                    ),
                    claimed_sum.value(),
                ) == Err::<(Seq<int>, int), Error>(e),
            },
    {
        append_info(trans, polynomial_info);
        let n: usize = polynomial_info.num_variables;
        if proof.len() < n {
            return Err(Error::MalformedProof);
        }
        let ghost p = F::modulus();
        let ghost log = trans@;
        let ghost msgs = proof_model(proof@);
        let ghost rs = fs_challenges(p, log, msgs, n as int);
        let ghost d = polynomial_info.max_multiplicands as int;
        let ghost c = claimed_sum.value();
        let mut verifier_state = IPForMLSumcheck::verifier_init(polynomial_info);
        verifier_state.expected = Some(claimed_sum);
        let mut i: usize = 0;
        let mut active: bool = true;
        assert(values(verifier_state.randomness@) =~= fs_challenges(p, log, msgs, 0));
        while i < n && active
            invariant
                p == F::modulus(),
                n == polynomial_info.num_variables,
                d == polynomial_info.max_multiplicands as int,
                c == claimed_sum.value(),
                i <= n,
                n <= proof@.len(),
                msgs == proof_model(proof@),
                rs == fs_challenges(p, log, msgs, n as int),
                verifier_state.wf(),
                verifier_state.info() == *polynomial_info,
                active ==> {
                    &&& verifier_state.failure is None
                    &&& verifier_state.round == i
                    &&& values(verifier_state.randomness@) == fs_challenges(p, log, msgs, i as int)
                    &&& trans@ == fs_log(log, msgs, i as int)
                    &&& verifier_state.expected is Some
                    &&& i == 0 ==> optional_value(verifier_state.expected) == Some(c)
                    &&& verify_from(p, d, n as int, msgs, rs, c, 0) == verify_from(
                        p,
                        d,
                        n as int,
                        msgs,
                        rs,
                        optional_value(verifier_state.expected)->0,
                        i as int,
                    )
                    &&& first_failure(p, d, n as int, msgs, rs, c, 0) == first_failure(
                        p,
                        d,
                        n as int,
                        msgs,
                        rs,
                        optional_value(verifier_state.expected)->0,
                        i as int,
                    )
                    &&& optional_value(verifier_state.first_sum) == (if i == 0 {
                        None::<int>
                    } else {
                        Some(c)
                    })
                },
                !active ==> {
                    &&& i < n
                    &&& verifier_state.failure is Some
                    &&& verify_from(p, d, n as int, msgs, rs, c, 0) == Err::<int, Error>(
                        verifier_state.failure->0,
                    )
                    &&& first_failure(p, d, n as int, msgs, rs, c, 0) == i
                    &&& trans@ == absorb_msg(fs_log(log, msgs, i as int), msgs[i as int])
                    &&& optional_value(verifier_state.first_sum) == (if i == 0 {
                        None::<int>
                    } else {
                        Some(c)
                    })
                },
            decreases n - i + (if active { 1int } else { 0int }),
        {
            let prover_msg = &proof[i];
            append_prover_msg(trans, prover_msg);
            let reply = IPForMLSumcheck::verify_round(prover_msg, &mut verifier_state, trans);
            proof {
                assert(msgs[i as int] == prover_msg@);
                assert(rs[i as int] == fs_challenge(p, log, msgs, i as int));
            }
            match reply {
                Some(_) => {
                    proof {
                        assert(fs_challenges(p, log, msgs, i as int).push(
                            fs_challenge(p, log, msgs, i as int),
                        ) =~= fs_challenges(p, log, msgs, i + 1));
                    }
                    i = i + 1;
                },
                None => {
                    active = false;
                },
            }
        }
        proof {
            assert(rs.take(n as int) =~= rs);
        }
        IPForMLSumcheck::check_and_generate_subclaim(verifier_state, claimed_sum)
    }
}

} // verus!
