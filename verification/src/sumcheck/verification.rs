//! The verifier's round engine.

use vstd::prelude::*;
use crate::error::Error;
use crate::field::{fadd, finv, fmul, fsub, one, same, values, zero, Field};
use crate::poly::PolynomialInfo;
use crate::sumcheck::prover::{ProverMsg, VerifierMsg};
use crate::sumcheck::IPForMLSumcheck;
use crate::transcript::{challenge, squeezed, Transcript};

verus! {

/// The product of `x - j` over the nodes `j` below `k` other than `i`.
pub open spec fn node_product(p: int, x: int, i: int, k: int) -> int
    decreases k,
{
    if k <= 0 {
        1
    } else if k - 1 == i {
        node_product(p, x, i, k - 1)
    } else {
        fmul(p, node_product(p, x, i, k - 1), fsub(p, x, (k - 1) % p))
    }
}

/// The `i`-th term of the Lagrange formula over the nodes
/// `0, 1, ..., evals.len() - 1`, taken at `x`.
pub open spec fn lagrange_term(p: int, evals: Seq<int>, x: int, i: int) -> int {
    fmul(
        p,
        evals[i],
        fmul(
            p,
            node_product(p, x, i, evals.len() as int),
            finv(p, node_product(p, i % p, i, evals.len() as int)),
        ),
    )
}

/// The sum of the first `m` terms of the Lagrange formula.
pub open spec fn interpolate_prefix(p: int, evals: Seq<int>, x: int, m: int) -> int
    decreases m,
{
    if m <= 0 {
        0
    } else {
        fadd(p, interpolate_prefix(p, evals, x, m - 1), lagrange_term(p, evals, x, m - 1))
    }
}

/// The value at `x` of the polynomial of degree below `evals.len()` that
/// takes the value `evals[i]` at each node `i`.
pub open spec fn interpolate(p: int, evals: Seq<int>, x: int) -> int {
    interpolate_prefix(p, evals, x, evals.len() as int)
}

/// What a round message claims of the sum: its value at 0 plus its value
/// at 1. A message of a single evaluation stands for a constant.
pub open spec fn boundary_sum(p: int, evals: Seq<int>) -> int {
    fadd(
        p,
        evals[0],
        if evals.len() > 1 {
            evals[1]
        } else {
            evals[0]
        },
    )
}

/// The verifier's rounds from round `i` on, with `expected` the value that
/// round `i` has to add up to: the value that the last round leaves, or
/// the first failure.
pub open spec fn verify_from(
    p: int,
    d: int,
    n: int,
    msgs: Seq<Seq<int>>,
    rs: Seq<int>,
    expected: int,
    i: int,
) -> Result<int, Error>
    decreases n - i,
{
    if i >= n {
        Ok(expected)
    } else if msgs[i].len() != d + 1 {
        Err(Error::MalformedProof)
    } else if boundary_sum(p, msgs[i]) != expected {
        Err(Error::VerificationFailed)
    } else {
        verify_from(p, d, n, msgs, rs, interpolate(p, msgs[i], rs[i]), i + 1)
    }
}

/// What verification yields for the round messages `msgs`, the challenges
/// `rs` and the claimed sum: the point and the value expected there, or
/// the reason for turning the proof down.
pub open spec fn verify_outcome(
    p: int,
    info: PolynomialInfo,
    msgs: Seq<Seq<int>>,
    rs: Seq<int>,
    claimed_sum: int,
) -> Result<(Seq<int>, int), Error> {
    if msgs.len() < info.num_variables {
        Err(Error::MalformedProof)
    } else {
        match verify_from(
            p,
            info.max_multiplicands as int,
            info.num_variables as int,
            msgs,
            rs,
            claimed_sum,
            0,
        ) {
            Ok(v) => Ok((rs.take(info.num_variables as int), v)),
            Err(e) => Err(e),
        }
    }
}

/// The index of the first round from `i` on that fails, and `n` if none
/// does; `expected` is the value that round `i` has to add up to.
pub open spec fn first_failure(
    p: int,
    d: int,
    n: int,
    msgs: Seq<Seq<int>>,
    rs: Seq<int>,
    expected: int,
    i: int,
) -> int
    decreases n - i,
{
    if i >= n {
        n
    } else if msgs[i].len() != d + 1 || boundary_sum(p, msgs[i]) != expected {
        i
    } else {
        first_failure(p, d, n, msgs, rs, interpolate(p, msgs[i], rs[i]), i + 1)
    }
}

/// The verifier's running values.
pub struct VerifierState<F: Field> {
    /// The number of rounds passed.
    pub round: usize,
    /// The number of variables.
    pub nv: usize,
    /// The largest number of multiplicands in any product.
    pub max_multiplicands: usize,
    /// Whether every round has passed.
    pub finished: bool,
    /// The value that the next message has to add up to. It is unset until
    /// the first round has passed, unless the claimed sum was put here
    /// beforehand.
    pub expected: Option<F>,
    /// What the first message added up to: the sum that the proof claims.
    pub first_sum: Option<F>,
    /// Why the run was stopped, if it was.
    pub failure: Option<Error>,
    /// The challenges sent, round by round.
    pub randomness: Vec<F>,
}

/// The residue behind an optional element.
pub open spec fn optional_value<F: Field>(x: Option<F>) -> Option<int> {
    match x {
        Some(v) => Some(v.value()),
        None => None,
    }
}

/// A message passes its round: it has `d + 1` evaluations, and they add up
/// to the expected value where one is set.
pub open spec fn passes(p: int, d: int, expected: Option<int>, msg: Seq<int>) -> bool {
    &&& msg.len() == d + 1
    &&& match expected {
        Some(e) => boundary_sum(p, msg) == e,
        None => true,
    }
}

/// Why a message that does not pass is turned down.
pub open spec fn rejection(d: int, msg: Seq<int>) -> Error {
    if msg.len() != d + 1 {
        Error::MalformedProof
    } else {
        Error::VerificationFailed
    }
}

impl<F: Field> VerifierState<F> {
    /// One challenge per round passed, no more rounds than variables,
    /// `finished` exactly when every round has passed, and the running
    /// values set once a round has passed.
    pub open spec fn wf(&self) -> bool {
        &&& self.round == self.randomness@.len()
        &&& self.round <= self.nv
        &&& self.finished == (self.round == self.nv && self.failure is None)
        &&& self.round > 0 ==> self.expected is Some && self.first_sum is Some
    }

    /// The run goes on: it has neither finished nor been stopped.
    pub open spec fn active(&self) -> bool {
        !self.finished && self.failure is None
    }

    /// The shape that the state was made for.
    pub open spec fn info(&self) -> PolynomialInfo {
        PolynomialInfo { max_multiplicands: self.max_multiplicands, num_variables: self.nv }
    }

    /// What the run comes to against the sum `asserted`. A run that was
    /// neither stopped nor finished is incomplete. Otherwise the sum that
    /// the first message claims has to be the asserted one; then a stopped
    /// run fails for the reason it was stopped for, and a finished run
    /// yields the challenges and the last running value (the asserted sum
    /// itself where there was no round).
    pub open spec fn outcome(&self, asserted: int) -> Result<(Seq<int>, int), Error> {
        if self.failure is None && !self.finished {
            Err(Error::MalformedProof)
        } else if optional_value(self.first_sum) is Some && optional_value(self.first_sum)
            != Some(asserted) {
            Err(Error::VerificationFailed)
        } else {
            match self.failure {
                Some(e) => Err(e),
                None => Ok(
                    (
                        values(self.randomness@),
                        match (self.first_sum, self.expected) {
                            (Some(_), Some(e)) => e.value(),
                            _ => asserted,
                        },
                    ),
                ),
            }
        }
    }
}

/// What verification leaves to be checked: that the polynomial takes the
/// value `expected_evaluation` at `point`.
pub struct SubClaim<F: Field> {
    /// The point, one coordinate per variable.
    pub point: Vec<F>,
    /// The value that the polynomial has to take there.
    pub expected_evaluation: F,
}

/// The product of `x - j` over the nodes `j` below `k` other than `i`.
pub fn eval_node_product<F: Field>(x: &F, i: usize, k: usize) -> (r: F)
    ensures
        r.value() == node_product(F::modulus(), x.value(), i as int, k as int),
{
    let mut acc: F = one::<F>();
    for j in 0..k
        invariant
            acc.value() == node_product(F::modulus(), x.value(), i as int, j as int),
    {
        if j != i {
            let node: F = F::from_u64(j as u64);
            acc = acc.mul(&x.sub(&node));
        }
    }
    acc
}

/// The value at `eval_at` of the polynomial of degree below `p_i.len()`
/// that takes the value `p_i[i]` at each node `i`, by the Lagrange formula.
pub fn interpolate_uni_poly<F: Field>(p_i: &Vec<F>, eval_at: &F) -> (r: F)
    ensures
        r.value() == interpolate(F::modulus(), values(p_i@), eval_at.value()),
{
    let mut acc: F = zero::<F>();
    let len: usize = p_i.len();
    for i in 0..len
        invariant
            len == p_i@.len(),
            acc.value() == interpolate_prefix(
                F::modulus(),
                values(p_i@),
                eval_at.value(),
                i as int,
            ),
    {
        let node: F = F::from_u64(i as u64);
        let numerator: F = eval_node_product(eval_at, i, len);
        let denominator: F = eval_node_product(&node, i, len);
        let weight: F = numerator.mul(&denominator.inv());
        let term: F = p_i[i].mul(&weight);
        acc = acc.add(&term);
    }
    acc
}

impl<F: Field> IPForMLSumcheck<F> {
    /// The verifier's state before the first round, for a polynomial of
    /// the given shape: the running values are unset.
    pub fn verifier_init(index_info: &PolynomialInfo) -> (state: VerifierState<F>)
        ensures
            state.wf(),
            state.info() == *index_info,
            state.round == 0,
            state.expected is None,
            state.first_sum is None,
            state.failure is None,
            state.randomness@.len() == 0,
    {
        VerifierState {
            round: 0,
            nv: index_info.num_variables,
            max_multiplicands: index_info.max_multiplicands,
            finished: index_info.num_variables == 0,
            expected: None,
            first_sum: None,
            failure: None,
            randomness: Vec::new(),
        }
    }

    /// Draws a challenge from the transcript.
    pub fn sample_round(trans: &mut Transcript<F>) -> (msg: VerifierMsg<F>)
        ensures
            msg.randomness.value() == challenge(F::modulus(), old(trans)@),
            final(trans)@ == squeezed(old(trans)@),
    {
        VerifierMsg { randomness: trans.get_challenge() }
    }

    /// Receives one round message. The message is checked first: it must
    /// have `max_multiplicands + 1` evaluations, and add up to the running
    /// value where that is set. A message that does not pass stops the run:
    /// the reason is recorded, no challenge is drawn and there is no reply.
    /// For a message that passes, a challenge is drawn from the transcript
    /// and recorded, the running value becomes the message's interpolant
    /// at the challenge, and the challenge is the reply.
    ///
    /// A run that has finished or was stopped takes no more messages:
    /// nothing changes and there is no reply.
    pub fn verify_round(
        prover_msg: &ProverMsg<F>,
        verifier_state: &mut VerifierState<F>,
        trans: &mut Transcript<F>,
    ) -> (reply: Option<VerifierMsg<F>>)
        requires
            old(verifier_state).wf(),
        ensures
            final(verifier_state).wf(),
            final(verifier_state).info() == old(verifier_state).info(),
            !old(verifier_state).active() ==> {
                &&& reply is None
                &&& *final(verifier_state) == *old(verifier_state)
                &&& final(trans)@ == old(trans)@
            },
            old(verifier_state).active() && !passes(
                F::modulus(),
                old(verifier_state).max_multiplicands as int,
                optional_value(old(verifier_state).expected),
                prover_msg@,
            ) ==> {
                &&& reply is None
                &&& final(verifier_state).failure == Some(
                    rejection(old(verifier_state).max_multiplicands as int, prover_msg@),
                )
                &&& final(verifier_state).round == old(verifier_state).round
                &&& final(verifier_state).expected == old(verifier_state).expected
                &&& final(verifier_state).first_sum == old(verifier_state).first_sum
                &&& final(verifier_state).randomness == old(verifier_state).randomness
                &&& final(trans)@ == old(trans)@
            },
            old(verifier_state).active() && passes(
                F::modulus(),
                old(verifier_state).max_multiplicands as int,
                optional_value(old(verifier_state).expected),
                prover_msg@,
            ) ==> {
                &&& optional_value(reply_challenge(reply)) == Some(
                    challenge(F::modulus(), old(trans)@),
                )
                &&& final(verifier_state).failure is None
                &&& final(verifier_state).round == old(verifier_state).round + 1
                &&& values(final(verifier_state).randomness@) == values(
                    old(verifier_state).randomness@,
                ).push(challenge(F::modulus(), old(trans)@))
                &&& optional_value(final(verifier_state).expected) == Some(
                    interpolate(F::modulus(), prover_msg@, challenge(F::modulus(), old(trans)@)),
                )
                &&& optional_value(final(verifier_state).first_sum) == (if old(
                    verifier_state,
                ).round == 0 {
                    Some(boundary_sum(F::modulus(), prover_msg@))
                } else {
                    optional_value(old(verifier_state).first_sum)
                })
                &&& final(trans)@ == squeezed(old(trans)@)
            },
    {
        if verifier_state.finished || verifier_state.failure.is_some() {
            return None;
        }
        let evaluations = &prover_msg.evaluations;
        let len: usize = evaluations.len();
        if len == 0 || len - 1 != verifier_state.max_multiplicands {
            verifier_state.failure = Some(Error::MalformedProof);
            return None;
        }
        let p0: F = evaluations[0];
        let p1: F = if len > 1 {
            evaluations[1]
        } else {
            evaluations[0]
        };
        let sum: F = p0.add(&p1);
        match verifier_state.expected {
            Some(e) => {
                if !same(&sum, &e) {
                    verifier_state.failure = Some(Error::VerificationFailed);
                    return None;
                }
            },
            None => {},
        }
        let msg = Self::sample_round(trans);
        let next: F = interpolate_uni_poly(evaluations, &msg.randomness);
        if verifier_state.round == 0 {
            verifier_state.first_sum = Some(sum);
        }
        verifier_state.expected = Some(next);
        verifier_state.randomness.push(msg.randomness);
        verifier_state.round = verifier_state.round + 1;
        verifier_state.finished = verifier_state.round == verifier_state.nv;
        proof {
            assert(values(verifier_state.randomness@) =~= values(old(verifier_state).randomness@).push(
                challenge(F::modulus(), old(trans)@),
            ));
        }
        Some(msg)
    }

    /// Closes a run against `asserted_sum` and reduces the claim to one
    /// evaluation of the polynomial.
    ///
    /// A run in which rounds are missing is malformed. Otherwise
    /// verification fails if the first message did not add up to
    /// `asserted_sum`; a run that was stopped fails for the reason it was
    /// stopped for; and a finished run yields the subclaim: the challenges
    /// as the point, and the last running value as the value expected
    /// there.
    pub fn check_and_generate_subclaim(verifier_state: VerifierState<F>, asserted_sum: F) -> (res:
        Result<SubClaim<F>, Error>)
        requires
            verifier_state.wf(),
        ensures
            match res {
                Ok(claim) => verifier_state.outcome(asserted_sum.value()) == Ok::<
                    (Seq<int>, int),
                    Error,
                >((values(claim.point@), claim.expected_evaluation.value())),
                Err(e) => verifier_state.outcome(asserted_sum.value()) == Err::<
                    (Seq<int>, int),
                    Error,
                >(e),
            },
    {
        if verifier_state.failure.is_none() && !verifier_state.finished {
            return Err(Error::MalformedProof);
        }
        match verifier_state.first_sum {
            Some(s) => {
                if !same(&s, &asserted_sum) {
                    return Err(Error::VerificationFailed);
                }
            },
            None => {},
        }
        match verifier_state.failure {
            Some(e) => {
                return Err(e);
            },
            None => {},
        }
        let value: F = match (verifier_state.first_sum, verifier_state.expected) {
            (Some(_), Some(e)) => e,
            _ => asserted_sum,
        };
        Ok(SubClaim { point: verifier_state.randomness, expected_evaluation: value })
    }
}

/// The challenge of a reply.
pub open spec fn reply_challenge<F: Field>(reply: Option<VerifierMsg<F>>) -> Option<F> {
    match reply {
        Some(m) => Some(m.randomness),
        None => None,
    }
}

} // verus!
