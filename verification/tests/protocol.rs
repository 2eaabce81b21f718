use std::rc::Rc;
use zkp::error::Error;
use zkp::field::Field;
use zkp::fp::Fp;
use zkp::mle::DenseMultilinearExtension;
use zkp::poly::{ListOfProductsOfPolynomials, PolynomialInfo};
use zkp::sumcheck::prover::ProverMsg;
use zkp::sumcheck::{MLSumcheck, ProofWrapper, SumcheckKit};
use zkp::transcript::Transcript;

type F = Fp<132120577>;

fn elems(vals: &[u64]) -> Vec<F> {
    vals.iter().map(|v| F::new(*v)).collect()
}

fn table(num_vars: usize, vals: &[u64]) -> Rc<DenseMultilinearExtension<F>> {
    Rc::new(DenseMultilinearExtension::from_evaluations_vec(num_vars, elems(vals)))
}

/// x1 * x2 over two variables; the first variable is the low bit of the index.
fn x1_times_x2() -> ListOfProductsOfPolynomials<F> {
    let mut poly = ListOfProductsOfPolynomials::new(2);
    let f = table(2, &[0, 1, 0, 1]);
    let g = table(2, &[0, 0, 1, 1]);
    poly.add_product(vec![f, g], F::new(1));
    poly
}

/// 3 * a * b + 5 * b over three variables.
fn three_variable_poly() -> ListOfProductsOfPolynomials<F> {
    let mut poly = ListOfProductsOfPolynomials::new(3);
    let a = table(3, &[1, 2, 3, 4, 5, 6, 7, 8]);
    let b = table(3, &[2, 0, 1, 9, 4, 4, 3, 11]);
    poly.add_product(vec![a, b.clone()], F::new(3));
    poly.add_product(vec![b], F::new(5));
    poly
}

fn true_sum_three_variable_poly() -> F {
    let a = [1u64, 2, 3, 4, 5, 6, 7, 8];
    let b = [2u64, 0, 1, 9, 4, 4, 3, 11];
    let mut s = 0u64;
    for i in 0..8 {
        s += 3 * a[i] * b[i] + 5 * b[i];
    }
    F::new(s)
}

#[test]
fn concrete_scenario_x1_times_x2_round_trip() {
    let poly = x1_times_x2();
    assert_eq!(poly.info(), PolynomialInfo { max_multiplicands: 2, num_variables: 2 });
    let mut prover_trans = Transcript::<F>::new();
    let (proof, state) = MLSumcheck::prove(&mut prover_trans, &poly).unwrap();
    assert_eq!(proof.len(), 2);
    assert_eq!(proof[0].evaluations.len(), 3);

    let mut verifier_trans = Transcript::<F>::new();
    let claim = MLSumcheck::verify(&mut verifier_trans, &poly.info(), F::new(1), &proof).unwrap();
    assert_eq!(claim.point.len(), 2);
    assert_eq!(claim.point, state.randomness);
    let r1 = claim.point[0];
    let r2 = claim.point[1];
    assert_eq!(claim.expected_evaluation, r1.mul(&r2));
    assert_eq!(prover_trans.log, verifier_trans.log);
}

#[test]
fn first_message_of_x1_times_x2() {
    let poly = x1_times_x2();
    let mut trans = Transcript::<F>::new();
    let (proof, _) = MLSumcheck::prove(&mut trans, &poly).unwrap();
    // g1(X) = sum over x2 of X * x2 = X
    assert_eq!(proof[0].evaluations, elems(&[0, 1, 2]));
}

#[test]
fn extract_sum_gives_true_sum() {
    let poly = three_variable_poly();
    let mut trans = Transcript::<F>::new();
    let (proof, _) = MLSumcheck::prove(&mut trans, &poly).unwrap();
    assert_eq!(MLSumcheck::extract_sum(&proof), true_sum_three_variable_poly());
    let small = x1_times_x2();
    let mut trans = Transcript::<F>::new();
    let (proof, _) = MLSumcheck::prove(&mut trans, &small).unwrap();
    assert_eq!(MLSumcheck::extract_sum(&proof), F::new(1));
}

#[test]
fn completeness_three_variables() {
    let poly = three_variable_poly();
    let mut trans = Transcript::<F>::new();
    let (proof, state) = MLSumcheck::prove(&mut trans, &poly).unwrap();
    assert_eq!(proof.len(), 3);
    assert_eq!(state.randomness.len(), 3);
    let mut trans = Transcript::<F>::new();
    let claim =
        MLSumcheck::verify(&mut trans, &poly.info(), true_sum_three_variable_poly(), &proof).unwrap();
    assert_eq!(claim.point, state.randomness);
    assert_eq!(claim.expected_evaluation, poly.evaluate(&claim.point));
}

#[test]
fn wrong_claim_is_rejected() {
    let poly = three_variable_poly();
    let mut trans = Transcript::<F>::new();
    let (proof, _) = MLSumcheck::prove(&mut trans, &poly).unwrap();
    let wrong = true_sum_three_variable_poly().add(&F::new(1));
    let mut trans = Transcript::<F>::new();
    let res = MLSumcheck::verify(&mut trans, &poly.info(), wrong, &proof);
    assert!(matches!(res, Err(Error::VerificationFailed)));
}

#[test]
fn tampered_later_round_is_rejected() {
    let poly = three_variable_poly();
    let mut trans = Transcript::<F>::new();
    let (mut proof, _) = MLSumcheck::prove(&mut trans, &poly).unwrap();
    proof[1].evaluations[0] = proof[1].evaluations[0].add(&F::new(1));
    let mut trans = Transcript::<F>::new();
    let res = MLSumcheck::verify(&mut trans, &poly.info(), true_sum_three_variable_poly(), &proof);
    assert!(matches!(res, Err(Error::VerificationFailed)));
}

#[test]
fn truncated_proof_is_malformed() {
    let poly = three_variable_poly();
    let mut trans = Transcript::<F>::new();
    let (mut proof, _) = MLSumcheck::prove(&mut trans, &poly).unwrap();
    proof.pop();
    let mut trans = Transcript::<F>::new();
    let res = MLSumcheck::verify(&mut trans, &poly.info(), true_sum_three_variable_poly(), &proof);
    assert!(matches!(res, Err(Error::MalformedProof)));
    let empty: Vec<ProverMsg<F>> = Vec::new();
    let mut trans = Transcript::<F>::new();
    let res = MLSumcheck::verify(&mut trans, &poly.info(), true_sum_three_variable_poly(), &empty);
    assert!(matches!(res, Err(Error::MalformedProof)));
}

#[test]
fn truncated_and_inconsistent_proof_is_malformed() {
    let poly = three_variable_poly();
    let mut trans = Transcript::<F>::new();
    let (mut proof, _) = MLSumcheck::prove(&mut trans, &poly).unwrap();
    proof.pop();
    let mut trans = Transcript::<F>::new();
    let res = MLSumcheck::verify(&mut trans, &poly.info(), F::new(0), &proof);
    assert!(matches!(res, Err(Error::MalformedProof)));
}

#[test]
fn shape_binding_rejects_other_degree() {
    let poly = three_variable_poly();
    assert_eq!(poly.info(), PolynomialInfo { max_multiplicands: 2, num_variables: 3 });
    let mut trans = Transcript::<F>::new();
    let (proof, _) = MLSumcheck::prove(&mut trans, &poly).unwrap();
    let other = PolynomialInfo { max_multiplicands: 3, num_variables: 3 };
    let mut trans = Transcript::<F>::new();
    let res = MLSumcheck::verify(&mut trans, &other, true_sum_three_variable_poly(), &proof);
    assert!(matches!(res, Err(Error::MalformedProof)));
}

#[test]
fn wrong_evaluation_count_in_later_round_is_malformed() {
    let poly = three_variable_poly();
    let mut trans = Transcript::<F>::new();
    let (mut proof, _) = MLSumcheck::prove(&mut trans, &poly).unwrap();
    proof[2].evaluations.push(F::new(0));
    let mut trans = Transcript::<F>::new();
    let res = MLSumcheck::verify(&mut trans, &poly.info(), true_sum_three_variable_poly(), &proof);
    assert!(matches!(res, Err(Error::MalformedProof)));
}

#[test]
fn first_failure_in_round_order_decides() {
    let poly = three_variable_poly();
    let mut trans = Transcript::<F>::new();
    let (mut proof, _) = MLSumcheck::prove(&mut trans, &poly).unwrap();
    proof[2].evaluations.push(F::new(0));
    let wrong = true_sum_three_variable_poly().add(&F::new(1));
    let mut trans = Transcript::<F>::new();
    let res = MLSumcheck::verify(&mut trans, &poly.info(), wrong, &proof);
    assert!(matches!(res, Err(Error::VerificationFailed)));
}

#[test]
fn extra_messages_are_ignored() {
    let poly = x1_times_x2();
    let mut trans = Transcript::<F>::new();
    let (mut proof, state) = MLSumcheck::prove(&mut trans, &poly).unwrap();
    proof.push(ProverMsg { evaluations: elems(&[7, 7, 7]) });
    let mut trans = Transcript::<F>::new();
    let claim = MLSumcheck::verify(&mut trans, &poly.info(), F::new(1), &proof).unwrap();
    assert_eq!(claim.point, state.randomness);
}

#[test]
fn transcript_seed_changes_challenges() {
    let poly = x1_times_x2();
    let mut fresh = Transcript::<F>::new();
    let (proof_a, state_a) = MLSumcheck::prove(&mut fresh, &poly).unwrap();
    let mut seeded = Transcript::<F>::new();
    seeded.append_message(&vec![1u8, 2, 3], &vec![9u8]);
    let (proof_b, state_b) = MLSumcheck::prove(&mut seeded, &poly).unwrap();
    assert_eq!(proof_a[0].evaluations, proof_b[0].evaluations);
    assert_ne!(state_a.randomness, state_b.randomness);
    // a verifier seeded like the second prover accepts the second proof
    let mut seeded = Transcript::<F>::new();
    seeded.append_message(&vec![1u8, 2, 3], &vec![9u8]);
    let claim = MLSumcheck::verify(&mut seeded, &poly.info(), F::new(1), &proof_b).unwrap();
    assert_eq!(claim.point, state_b.randomness);
    // a fresh verifier draws other challenges and turns it down
    let mut fresh = Transcript::<F>::new();
    let res = MLSumcheck::verify(&mut fresh, &poly.info(), F::new(1), &proof_b);
    assert!(matches!(res, Err(Error::VerificationFailed)));
}

#[test]
fn constant_polynomial_has_single_evaluation_messages() {
    // 7 over two variables: no multiplicands at all
    let mut poly = ListOfProductsOfPolynomials::<F>::new(2);
    poly.add_product(Vec::new(), F::new(7));
    assert_eq!(poly.info(), PolynomialInfo { max_multiplicands: 0, num_variables: 2 });
    let mut trans = Transcript::<F>::new();
    let (proof, state) = MLSumcheck::prove(&mut trans, &poly).unwrap();
    assert_eq!(proof[0].evaluations, elems(&[14]));
    assert_eq!(proof[1].evaluations, elems(&[7]));
    assert_eq!(MLSumcheck::extract_sum(&proof), F::new(28));
    let mut trans = Transcript::<F>::new();
    let claim = MLSumcheck::verify(&mut trans, &poly.info(), F::new(28), &proof).unwrap();
    assert_eq!(claim.point, state.randomness);
    assert_eq!(claim.expected_evaluation, F::new(7));
}

#[test]
fn polynomial_without_variables() {
    let mut poly = ListOfProductsOfPolynomials::<F>::new(0);
    poly.add_product(vec![table(0, &[6])], F::new(2));
    let mut trans = Transcript::<F>::new();
    let (proof, state) = MLSumcheck::prove(&mut trans, &poly).unwrap();
    assert!(proof.is_empty());
    assert!(state.randomness.is_empty());
    let mut trans = Transcript::<F>::new();
    let claim = MLSumcheck::verify(&mut trans, &poly.info(), F::new(12), &proof).unwrap();
    assert!(claim.point.is_empty());
    assert_eq!(claim.expected_evaluation, F::new(12));
}

#[test]
fn kit_extract_keeps_claim_shape_and_proof() {
    let poly = x1_times_x2();
    let mut trans = Transcript::<F>::new();
    let (proof, state) = MLSumcheck::prove(&mut trans, &poly).unwrap();
    let kit = SumcheckKit {
        claimed_sum: F::new(1),
        info: poly.info(),
        u: elems(&[3, 4]),
        proof,
        randomness: state.randomness,
    };
    let wrapper: ProofWrapper<F> = kit.extract();
    assert_eq!(wrapper.claimed_sum, F::new(1));
    assert_eq!(wrapper.info, poly.info());
    assert_eq!(wrapper.proof.len(), 2);
    for i in 0..2 {
        assert_eq!(wrapper.proof[i].evaluations, kit.proof[i].evaluations);
    }
    let mut trans = Transcript::<F>::new();
    let claim =
        MLSumcheck::verify(&mut trans, &wrapper.info, wrapper.claimed_sum, &wrapper.proof).unwrap();
    assert_eq!(claim.point, kit.randomness);
}

#[test]
fn failing_round_ends_the_run_before_its_challenge() {
    let poly = three_variable_poly();
    let mut trans = Transcript::<F>::new();
    let (mut proof, _) = MLSumcheck::prove(&mut trans, &poly).unwrap();
    let log_of_prover = trans.log.clone();
    proof[1].evaluations[0] = proof[1].evaluations[0].add(&F::new(1));
    let mut trans = Transcript::<F>::new();
    let res = MLSumcheck::verify(&mut trans, &poly.info(), true_sum_three_variable_poly(), &proof);
    assert!(matches!(res, Err(Error::VerificationFailed)));
    // shape frame, first message frame, first digest, second message frame
    let frame = 12 + 8 + 3 * 8;
    assert_eq!(trans.log.len(), (15 + 8 + 16) + frame + 32 + frame);
    assert_eq!(trans.log[..(15 + 8 + 16) + frame + 32], log_of_prover[..(15 + 8 + 16) + frame + 32]);

    // a wrong claim ends the run in the first round
    let mut trans = Transcript::<F>::new();
    let res = MLSumcheck::verify(&mut trans, &poly.info(), F::new(0), &proof);
    assert!(matches!(res, Err(Error::VerificationFailed)));
    assert_eq!(trans.log.len(), (15 + 8 + 16) + frame);

    // a truncated proof ends it before any round
    proof.pop();
    let mut trans = Transcript::<F>::new();
    let res = MLSumcheck::verify(&mut trans, &poly.info(), F::new(0), &proof);
    assert!(matches!(res, Err(Error::MalformedProof)));
    assert_eq!(trans.log.len(), 15 + 8 + 16);
}

#[test]
fn accepted_run_leaves_the_log_of_the_prover() {
    let poly = three_variable_poly();
    let mut prover_trans = Transcript::<F>::new();
    let (proof, _) = MLSumcheck::prove(&mut prover_trans, &poly).unwrap();
    let mut trans = Transcript::<F>::new();
    MLSumcheck::verify(&mut trans, &poly.info(), true_sum_three_variable_poly(), &proof).unwrap();
    assert_eq!(trans.log, prover_trans.log);
    let frame = 12 + 8 + 3 * 8;
    assert_eq!(trans.log.len(), (15 + 8 + 16) + 3 * (frame + 32));
}
