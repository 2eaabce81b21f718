use std::rc::Rc;
use zkp::error::Error;
use zkp::evaluation::{eval_sum, eval_term, eval_value, fix_tables, pow2_usize};
use zkp::field::{one, same, zero, Field};
use zkp::fp::Fp;
use zkp::mle::{copy_elements, DenseMultilinearExtension};
use zkp::poly::{first_set, ListOfProductsOfPolynomials, PolynomialInfo};
use zkp::sumcheck::prover::{ProverMsg, VerifierMsg};
use zkp::sumcheck::verification::{eval_node_product, interpolate_uni_poly};
use zkp::sumcheck::{append_info, append_prover_msg, copy_proof, IPForMLSumcheck, MLSumcheck};
use zkp::transcript::{encode_elements, field_from_bytes, push_all, push_u64, Transcript};

type F = Fp<132120577>;
type Small = Fp<97>;

const EMPTY_DIGEST: [u8; 32] = [
    227, 176, 196, 66, 152, 252, 28, 20, 154, 251, 244, 200, 153, 111, 185, 36, 39, 174, 65, 228,
    100, 155, 147, 76, 164, 149, 153, 27, 120, 82, 184, 85,
];

fn big(vals: &[u64]) -> Vec<F> {
    vals.iter().map(|v| F::new(*v)).collect()
}

fn small(vals: &[u64]) -> Vec<Small> {
    vals.iter().map(|v| Small::new(*v)).collect()
}

fn small_table(num_vars: usize, vals: &[u64]) -> Rc<DenseMultilinearExtension<Small>> {
    Rc::new(DenseMultilinearExtension::from_evaluations_vec(num_vars, small(vals)))
}

#[test]
fn field_arithmetic_values() {
    let a = Small::new(90);
    let b = Small::new(10);
    assert_eq!(a.add(&b), Small::new(3));
    assert_eq!(b.sub(&a), Small::new(17));
    assert_eq!(a.sub(&b), Small::new(80));
    assert_eq!(a.mul(&b), Small::new(27));
    assert_eq!(Small::new(97 + 5), Small::new(5));
    assert_eq!(Small::from_u64(200).to_u64(), 6);
    assert_eq!(zero::<Small>().to_u64(), 0);
    assert_eq!(one::<Small>().to_u64(), 1);
    assert!(same(&Small::new(4), &Small::new(101)));
    assert!(!same(&Small::new(4), &Small::new(5)));
}

#[test]
fn field_arithmetic_near_word_size() {
    type Big = Fp<18446744073709551557>;
    let m: u64 = 18446744073709551557;
    let a = Big::new(m - 1);
    assert_eq!(a.add(&a), Big::new(m - 2));
    assert_eq!(a.mul(&a), Big::new(1));
    assert_eq!(Big::new(0).sub(&Big::new(1)), a);
    assert_eq!(a.inv(), a);
    let b = Big::new(1234567890123456789);
    assert_eq!(b.mul(&b.inv()), Big::new(1));
}

#[test]
fn inverse_of_every_nonzero_element() {
    for v in 1..97u64 {
        let a = Small::new(v);
        assert_eq!(a.mul(&a.inv()), Small::new(1));
    }
    assert_eq!(Small::new(0).inv(), Small::new(0));
    assert_eq!(F::new(5).inv(), F::new(52848231));
}

#[test]
fn inverse_modulo_a_composite() {
    type Z15 = Fp<15>;
    assert_eq!(Z15::new(2).inv(), Z15::new(8));
    assert_eq!(Z15::new(3).inv(), Z15::new(0));
    assert_eq!(Z15::new(5).inv(), Z15::new(0));
    assert_eq!(Z15::new(0).inv(), Z15::new(0));
}

#[test]
fn modulus_below_two_is_read_as_two() {
    type Z0 = Fp<0>;
    type Z1 = Fp<1>;
    assert_eq!(Z0::modulus_u64(), 2);
    assert_eq!(Z1::modulus_u64(), 2);
    assert_eq!(Z0::new(5).to_u64(), 1);
    assert_eq!(Z1::new(5).add(&Z1::new(1)).to_u64(), 0);
    assert_eq!(Small::modulus_u64(), 97);
}

#[test]
fn little_endian_bytes_of_a_word() {
    let mut out = vec![9u8];
    push_u64(&mut out, 0x0102030405060708);
    assert_eq!(out, vec![9u8, 8, 7, 6, 5, 4, 3, 2, 1]);
    push_all(&mut out, &vec![1u8, 2]);
    assert_eq!(out.len(), 11);
    assert_eq!(out[9..], [1u8, 2]);
}

#[test]
fn elements_are_encoded_by_their_residues() {
    let bytes = encode_elements(&small(&[1, 98, 96]));
    assert_eq!(
        bytes,
        vec![1u8, 0, 0, 0, 0, 0, 0, 0, 1, 0, 0, 0, 0, 0, 0, 0, 96, 0, 0, 0, 0, 0, 0, 0]
    );
    assert!(encode_elements::<Small>(&Vec::new()).is_empty());
}

#[test]
fn bytes_are_read_most_significant_first() {
    assert_eq!(field_from_bytes::<F>(&vec![1u8, 0]), F::new(256));
    assert_eq!(field_from_bytes::<F>(&vec![1u8, 2, 3]), F::new(65536 + 512 + 3));
    assert_eq!(field_from_bytes::<F>(&Vec::new()), F::new(0));
    assert_eq!(field_from_bytes::<Small>(&vec![1u8, 0]), Small::new(256 % 97));
}

#[test]
fn challenge_of_fresh_transcript_is_digest_of_nothing() {
    let mut trans = Transcript::<F>::new();
    assert!(trans.log.is_empty());
    let r = trans.get_challenge();
    assert_eq!(r, F::new(55802408));
    assert_eq!(trans.log, EMPTY_DIGEST.to_vec());
    let r2 = trans.get_challenge();
    assert_eq!(r2, F::new(44729002));
    assert_eq!(trans.log.len(), 64);
}

#[test]
fn absorbed_message_is_framed_and_decides_challenge() {
    let mut trans = Transcript::<F>::new();
    trans.append_message(&vec![97u8, 98, 99], &vec![120u8, 121, 122]);
    assert_eq!(trans.log, vec![97u8, 98, 99, 3, 0, 0, 0, 0, 0, 0, 0, 120, 121, 122]);
    assert_eq!(trans.get_challenge(), F::new(76489121));
    let mut trans = Transcript::<Small>::new();
    trans.append_message(&vec![97u8, 98, 99], &vec![120u8, 121, 122]);
    assert_eq!(trans.get_challenge(), Small::new(67));
}

#[test]
fn sample_round_draws_from_transcript() {
    let mut trans = Transcript::<F>::new();
    let msg: VerifierMsg<F> = IPForMLSumcheck::sample_round(&mut trans);
    assert_eq!(msg.randomness, F::new(55802408));
}

#[test]
fn shape_and_message_are_absorbed_under_their_tags() {
    let mut trans = Transcript::<Small>::new();
    append_info(&mut trans, &PolynomialInfo { max_multiplicands: 2, num_variables: 3 });
    let mut expected = b"polynomial info".to_vec();
    expected.extend_from_slice(&[16, 0, 0, 0, 0, 0, 0, 0]);
    expected.extend_from_slice(&[2, 0, 0, 0, 0, 0, 0, 0, 3, 0, 0, 0, 0, 0, 0, 0]);
    assert_eq!(trans.log, expected);
    let mut trans = Transcript::<Small>::new();
    append_prover_msg(&mut trans, &ProverMsg { evaluations: small(&[5, 6]) });
    let mut expected = b"sumcheck msg".to_vec();
    expected.extend_from_slice(&[16, 0, 0, 0, 0, 0, 0, 0]);
    expected.extend_from_slice(&[5, 0, 0, 0, 0, 0, 0, 0, 6, 0, 0, 0, 0, 0, 0, 0]);
    assert_eq!(trans.log, expected);
    let mut trans = Transcript::<Small>::new();
    trans.append_elements(&vec![1u8], &small(&[5]));
    assert_eq!(trans.log, vec![1u8, 8, 0, 0, 0, 0, 0, 0, 0, 5, 0, 0, 0, 0, 0, 0, 0]);
}

#[test]
fn fixing_the_first_variable() {
    let m = DenseMultilinearExtension::from_evaluations_vec(2, small(&[1, 2, 3, 4]));
    let fixed = m.fix_first_variable(&Small::new(5));
    assert_eq!(fixed.num_vars, 1);
    assert_eq!(fixed.evaluations, small(&[6, 8]));
    let at_zero = m.fix_first_variable(&Small::new(0));
    assert_eq!(at_zero.evaluations, small(&[1, 3]));
    let at_one = m.fix_first_variable(&Small::new(1));
    assert_eq!(at_one.evaluations, small(&[2, 4]));
}

#[test]
fn evaluating_an_extension() {
    let m = DenseMultilinearExtension::from_evaluations_vec(2, small(&[1, 2, 3, 4]));
    assert_eq!(m.evaluate(&small(&[5, 7])), Small::new(20));
    assert_eq!(m.evaluate(&small(&[1, 0])), Small::new(2));
    assert_eq!(m.evaluate(&small(&[0, 1])), Small::new(3));
    let c = DenseMultilinearExtension::from_evaluations_vec(0, small(&[9]));
    assert_eq!(c.evaluate(&Vec::new()), Small::new(9));
    let d = m.duplicate();
    assert_eq!(d.num_vars, 2);
    assert_eq!(d.evaluations, m.evaluations);
    assert_eq!(copy_elements(&m.evaluations), m.evaluations);
}

#[test]
fn pool_deduplicates_by_identity_not_by_value() {
    let mut poly = ListOfProductsOfPolynomials::<Small>::new(1);
    let a = small_table(1, &[1, 2]);
    let twin = small_table(1, &[1, 2]);
    poly.add_product(vec![a.clone(), a.clone()], Small::new(3));
    assert_eq!(poly.flattened_ml_extensions.len(), 1);
    assert_eq!(poly.products[0].1, vec![0usize, 0]);
    assert_eq!(poly.products[0].0, Small::new(3));
    poly.add_product(vec![twin, a.clone()], Small::new(1));
    assert_eq!(poly.flattened_ml_extensions.len(), 2);
    assert_eq!(poly.products[1].1, vec![1usize, 0]);
    assert!(Rc::ptr_eq(&poly.flattened_ml_extensions[0], &a));
    assert_eq!(poly.flattened_ml_extensions[1].evaluations, small(&[1, 2]));
}

#[test]
fn max_multiplicands_follows_the_longest_product() {
    let mut poly = ListOfProductsOfPolynomials::<Small>::new(1);
    assert_eq!(poly.info(), PolynomialInfo { max_multiplicands: 0, num_variables: 1 });
    let a = small_table(1, &[1, 2]);
    poly.add_product(vec![a.clone()], Small::new(1));
    assert_eq!(poly.info().max_multiplicands, 1);
    poly.add_product(vec![a.clone(), a.clone(), a.clone()], Small::new(1));
    assert_eq!(poly.info().max_multiplicands, 3);
    poly.add_product(vec![a.clone(), a], Small::new(1));
    assert_eq!(poly.info().max_multiplicands, 3);
    assert_eq!(poly.products.len(), 3);
}

#[test]
fn sum_and_value_of_a_polynomial() {
    // 3 * a * b + 5 * b
    let mut poly = ListOfProductsOfPolynomials::<Small>::new(2);
    let a = small_table(2, &[1, 2, 3, 4]);
    let b = small_table(2, &[2, 0, 1, 9]);
    poly.add_product(vec![a.clone(), b.clone()], Small::new(3));
    poly.add_product(vec![b.clone()], Small::new(5));
    // values: 3*2+10, 0, 9+5, 108+45
    assert_eq!(poly.hypercube_sum(), Small::new(16 + 14 + 153));
    let point = small(&[5, 7]);
    let av = a.evaluate(&point);
    let bv = b.evaluate(&point);
    let expected = Small::new(3).mul(&av).mul(&bv).add(&Small::new(5).mul(&bv));
    assert_eq!(poly.evaluate(&point), expected);
    assert_eq!(poly.evaluate(&small(&[1, 1])), Small::new(153));
}

#[test]
fn evaluation_helpers() {
    let products = vec![(Small::new(3), vec![0usize, 1]), (Small::new(5), vec![1usize])];
    let tables = vec![
        DenseMultilinearExtension::from_evaluations_vec(2, small(&[1, 2, 3, 4])),
        DenseMultilinearExtension::from_evaluations_vec(2, small(&[2, 0, 1, 9])),
    ];
    assert_eq!(eval_term(&products, &tables, 0, 3), Small::new(108));
    assert_eq!(eval_term(&products, &tables, 1, 3), Small::new(45));
    assert_eq!(eval_value(&products, &tables, 0), Small::new(16));
    assert_eq!(eval_sum(&products, &tables, 4), Small::new(183));
    assert_eq!(eval_sum(&products, &tables, 1), Small::new(16));
    let fixed = fix_tables(&tables, &Small::new(2));
    assert_eq!(fixed[0].evaluations, small(&[3, 5]));
    assert_eq!(fixed[1].evaluations, small(&[95, 17]));
    assert_eq!(pow2_usize(0), 1);
    assert_eq!(pow2_usize(10), 1024);
}

#[test]
fn interpolation_recovers_a_quadratic() {
    // g(x) = x^2 + x + 1
    let evals = big(&[1, 3, 7]);
    assert_eq!(interpolate_uni_poly(&evals, &F::new(5)), F::new(31));
    assert_eq!(interpolate_uni_poly(&evals, &F::new(1)), F::new(3));
    assert_eq!(interpolate_uni_poly(&evals, &F::new(1000)), F::new(1001001));
    assert_eq!(interpolate_uni_poly(&big(&[42]), &F::new(77)), F::new(42));
    assert_eq!(interpolate_uni_poly(&big(&[]), &F::new(77)), F::new(0));
}

#[test]
fn interpolation_over_every_residue() {
    type Z7 = Fp<7>;
    let evals: Vec<Z7> = [3u64, 1, 4, 1, 5, 2, 6].iter().map(|v| Z7::new(*v)).collect();
    for r in 0..7u64 {
        assert_eq!(interpolate_uni_poly(&evals, &Z7::new(r)), evals[r as usize]);
    }
}

#[test]
fn node_products() {
    // (5 - 0) * (5 - 2) skipping node 1
    assert_eq!(eval_node_product(&F::new(5), 1, 3), F::new(15));
    assert_eq!(eval_node_product(&F::new(5), 3, 3), F::new(60));
    assert_eq!(eval_node_product(&F::new(5), 0, 0), F::new(1));
    assert_eq!(eval_node_product(&F::new(2), 0, 3), F::new(0));
}

#[test]
fn round_engines_step_by_step() {
    let mut poly = ListOfProductsOfPolynomials::<Small>::new(2);
    let a = small_table(2, &[1, 2, 3, 4]);
    let b = small_table(2, &[2, 0, 1, 9]);
    poly.add_product(vec![a, b], Small::new(1));
    let mut state = IPForMLSumcheck::prover_init(&poly);
    assert_eq!(state.round, 0);
    assert_eq!(state.num_vars, 2);
    assert_eq!(state.max_multiplicands, 2);
    let first = IPForMLSumcheck::prove_round(&mut state, &None);
    // g(X) = (1 + X)(2 - 2X) + (3 + X)(1 + 8X)
    assert_eq!(first.evaluations, small(&[5, 36, 85 + 97 - 6]));
    assert_eq!(state.round, 1);
    let second =
        IPForMLSumcheck::prove_round(&mut state, &Some(VerifierMsg { randomness: Small::new(2) }));
    // tables after fixing x1 = 2: [3, 5] and [95, 17]
    assert_eq!(state.flattened_ml_extensions[0].evaluations, small(&[3, 5]));
    assert_eq!(state.randomness, small(&[2]));
    assert_eq!(state.round, 2);
    // h(Y) = (3 + 2Y)(95 + 19Y)
    assert_eq!(second.evaluations, small(&[285, 5 * 114, 7 * 133]));

    let info = poly.info();
    let mut verifier = IPForMLSumcheck::<Small>::verifier_init(&info);
    assert!(!verifier.finished);
    assert!(verifier.expected.is_none());
    let early = IPForMLSumcheck::check_and_generate_subclaim(
        IPForMLSumcheck::<Small>::verifier_init(&info),
        Small::new(41),
    );
    assert!(matches!(early, Err(Error::MalformedProof)));
    let mut trans = Transcript::<Small>::new();
    let reply = IPForMLSumcheck::verify_round(&first, &mut verifier, &mut trans).unwrap();
    assert_eq!(verifier.randomness, vec![reply.randomness]);
    assert_eq!(verifier.round, 1);
    assert_eq!(verifier.first_sum, Some(Small::new(41)));
    assert_eq!(
        verifier.expected,
        Some(interpolate_uni_poly(&first.evaluations, &reply.randomness))
    );
    assert!(!verifier.finished);
    assert!(verifier.failure.is_none());
}

#[test]
fn verifier_engine_checks_before_it_draws() {
    let info = PolynomialInfo { max_multiplicands: 2, num_variables: 2 };
    // g(0) + g(1) = 41
    let first = ProverMsg { evaluations: small(&[5, 36, 79]) };
    let mut verifier = IPForMLSumcheck::<Small>::verifier_init(&info);
    let mut trans = Transcript::<Small>::new();
    let r1 = IPForMLSumcheck::verify_round(&first, &mut verifier, &mut trans).unwrap();
    let running = interpolate_uni_poly(&first.evaluations, &r1.randomness);
    let log_after_first = trans.log.clone();

    // a second message that does not add up to the running value stops the run
    let off = ProverMsg { evaluations: vec![running, Small::new(1), Small::new(0)] };
    let reply = IPForMLSumcheck::verify_round(&off, &mut verifier, &mut trans);
    assert!(reply.is_none());
    assert_eq!(verifier.failure, Some(Error::VerificationFailed));
    assert_eq!(verifier.round, 1);
    assert_eq!(verifier.randomness.len(), 1);
    assert_eq!(trans.log, log_after_first);

    // a stopped run takes no more messages
    let fine = ProverMsg { evaluations: vec![running, Small::new(0), Small::new(0)] };
    assert!(IPForMLSumcheck::verify_round(&fine, &mut verifier, &mut trans).is_none());
    assert_eq!(verifier.failure, Some(Error::VerificationFailed));
    assert_eq!(trans.log, log_after_first);
    let res = IPForMLSumcheck::check_and_generate_subclaim(verifier, Small::new(41));
    assert!(matches!(res, Err(Error::VerificationFailed)));
}

#[test]
fn verifier_engine_closes_against_the_asserted_sum() {
    let info = PolynomialInfo { max_multiplicands: 1, num_variables: 1 };
    let msg = ProverMsg { evaluations: small(&[5, 36]) };
    let run = |asserted: u64| {
        let mut verifier = IPForMLSumcheck::<Small>::verifier_init(&info);
        let mut trans = Transcript::<Small>::new();
        let r = IPForMLSumcheck::verify_round(&msg, &mut verifier, &mut trans).unwrap();
        assert!(verifier.finished);
        (r.randomness, IPForMLSumcheck::check_and_generate_subclaim(verifier, Small::new(asserted)))
    };
    let (r, accepted) = run(41);
    let claim = accepted.unwrap();
    assert_eq!(claim.point, vec![r]);
    // the line through (0, 5) and (1, 36)
    assert_eq!(claim.expected_evaluation, Small::new(5).add(&Small::new(31).mul(&r)));
    let (_, refused) = run(40);
    assert!(matches!(refused, Err(Error::VerificationFailed)));

    // a message of the wrong size stops the run at once
    let mut verifier = IPForMLSumcheck::<Small>::verifier_init(&info);
    let mut trans = Transcript::<Small>::new();
    let long = ProverMsg { evaluations: small(&[5, 36, 1]) };
    assert!(IPForMLSumcheck::verify_round(&long, &mut verifier, &mut trans).is_none());
    assert!(trans.log.is_empty());
    let res = IPForMLSumcheck::check_and_generate_subclaim(verifier, Small::new(41));
    assert!(matches!(res, Err(Error::MalformedProof)));

    // a finished run takes no more messages
    let mut verifier = IPForMLSumcheck::<Small>::verifier_init(&info);
    let mut trans = Transcript::<Small>::new();
    IPForMLSumcheck::verify_round(&msg, &mut verifier, &mut trans).unwrap();
    let log = trans.log.clone();
    assert!(IPForMLSumcheck::verify_round(&msg, &mut verifier, &mut trans).is_none());
    assert_eq!(verifier.round, 1);
    assert_eq!(trans.log, log);
}

#[test]
fn proofs_are_copied_message_by_message() {
    let proof = vec![
        ProverMsg { evaluations: small(&[1, 2, 3]) },
        ProverMsg { evaluations: small(&[4, 5, 6]) },
    ];
    let copy = copy_proof(&proof);
    assert_eq!(copy.len(), 2);
    assert_eq!(copy[0].evaluations, small(&[1, 2, 3]));
    assert_eq!(copy[1].evaluations, small(&[4, 5, 6]));
    assert_eq!(MLSumcheck::extract_sum(&copy), Small::new(3));
}

#[test]
fn false_claims_are_caught_in_most_trials() {
    // The prover holds p' = a * b + e with sum 184 and claims it of
    // p = a * b with sum 183: the subclaim has to fail against p.
    let a = small_table(2, &[1, 2, 3, 4]);
    let b = small_table(2, &[2, 0, 1, 9]);
    let e = small_table(2, &[1, 0, 0, 0]);
    let mut truth = ListOfProductsOfPolynomials::<Small>::new(2);
    truth.add_product(vec![a.clone(), b.clone()], Small::new(3));
    truth.add_product(vec![b.clone()], Small::new(5));
    let mut forged = ListOfProductsOfPolynomials::<Small>::new(2);
    forged.add_product(vec![a, b.clone()], Small::new(3));
    forged.add_product(vec![b], Small::new(5));
    forged.add_product(vec![e], Small::new(1));
    assert_eq!(truth.info(), forged.info());
    let claimed = forged.hypercube_sum();
    assert_ne!(claimed, truth.hypercube_sum());
    let trials = 200u64;
    let mut accepted = 0u64;
    for trial in 0..trials {
        let seed = trial.to_le_bytes().to_vec();
        let mut trans = Transcript::<Small>::new();
        trans.append_message(&vec![0u8], &seed);
        let (proof, _) = MLSumcheck::prove(&mut trans, &forged).unwrap();
        let mut trans = Transcript::<Small>::new();
        trans.append_message(&vec![0u8], &seed);
        let claim = MLSumcheck::verify(&mut trans, &truth.info(), claimed, &proof).unwrap();
        if truth.evaluate(&claim.point) == claim.expected_evaluation {
            accepted += 1;
        }
    }
    // the bound is num_variables * max_multiplicands / 97 per trial
    assert!(accepted * 97 <= trials * 2 * 2 * 3);
}

#[test]
fn completeness_in_a_small_field_over_many_seeds() {
    let mut poly = ListOfProductsOfPolynomials::<Small>::new(3);
    let a = small_table(3, &[1, 2, 3, 4, 5, 6, 7, 8]);
    let b = small_table(3, &[2, 0, 1, 9, 4, 4, 3, 11]);
    let c = small_table(3, &[96, 5, 50, 7, 0, 0, 1, 13]);
    poly.add_product(vec![a.clone(), b.clone(), c.clone()], Small::new(3));
    poly.add_product(vec![b, c.clone()], Small::new(5));
    poly.add_product(vec![c, a], Small::new(96));
    poly.add_product(Vec::new(), Small::new(11));
    let sum = poly.hypercube_sum();
    for trial in 0..50u64 {
        let seed = trial.to_le_bytes().to_vec();
        let mut trans = Transcript::<Small>::new();
        trans.append_message(&vec![7u8], &seed);
        let (proof, state) = MLSumcheck::prove(&mut trans, &poly).unwrap();
        assert_eq!(MLSumcheck::extract_sum(&proof), sum);
        let mut trans = Transcript::<Small>::new();
        trans.append_message(&vec![7u8], &seed);
        let claim = MLSumcheck::verify(&mut trans, &poly.info(), sum, &proof).unwrap();
        assert_eq!(claim.point, state.randomness);
        assert_eq!(claim.expected_evaluation, poly.evaluate(&claim.point));
    }
}

#[test]
fn distinct_quadratics_agree_at_two_points_at_most() {
    // x^2 + x + 1 and 3x + 1 agree at 0 and 2 only
    let g = big(&[1, 3, 7]);
    let h = big(&[1, 4, 7]);
    let mut agreements = 0;
    for r in 0..50u64 {
        if interpolate_uni_poly(&g, &F::new(r)) == interpolate_uni_poly(&h, &F::new(r)) {
            agreements += 1;
        }
    }
    assert_eq!(agreements, 2);
    assert_eq!(interpolate_uni_poly(&h, &F::new(10)), F::new(31));
}

#[test]
fn first_set_flag() {
    assert_eq!(first_set(&vec![false, true, true]), Some(1));
    assert_eq!(first_set(&vec![true]), Some(0));
    assert_eq!(first_set(&vec![false, false]), None);
    assert_eq!(first_set(&Vec::new()), None);
}

#[test]
fn shared_multiplicand_is_found_in_a_later_slot() {
    let mut poly = ListOfProductsOfPolynomials::<Small>::new(1);
    let a = small_table(1, &[1, 2]);
    let b = small_table(1, &[1, 2]);
    let c = small_table(1, &[3, 4]);
    poly.add_product(vec![a.clone(), b.clone(), c.clone()], Small::new(1));
    assert_eq!(poly.products[0].1, vec![0usize, 1, 2]);
    poly.add_product(vec![c, b, a], Small::new(1));
    assert_eq!(poly.flattened_ml_extensions.len(), 3);
    assert_eq!(poly.products[1].1, vec![2usize, 1, 0]);
}
