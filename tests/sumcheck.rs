use zk_protocols::composed::{ProductPoly, SumPoly};
use zk_protocols::field::Scalar;
use zk_protocols::multilinear::MultilinearPoly;
use zk_protocols::sumcheck::{partial_prove, partial_verify, prove, verify};
use zk_protocols::transcript::FiatShamir;

fn to_field(input: Vec<u64>) -> Vec<Scalar> {
    input.iter().map(|v| Scalar::from_u64(*v)).collect()
}

#[test]
fn test_sumcheck() {
    let poly = MultilinearPoly::new(to_field(vec![0, 0, 0, 3, 0, 0, 2, 5]), 3);
    let proof = prove(&poly, Scalar::from_u64(10));
    assert!(verify(&proof, &poly));
}

#[test]
fn sumcheck_rejects_a_wrong_sum() {
    let poly = MultilinearPoly::new(to_field(vec![0, 0, 0, 3, 0, 0, 2, 5]), 3);
    let proof = prove(&poly, Scalar::from_u64(11));
    assert!(!verify(&proof, &poly));
}

#[test]
fn sumcheck_rejects_a_tampered_round() {
    let poly = MultilinearPoly::new(to_field(vec![0, 0, 0, 3, 0, 0, 2, 5]), 3);
    let mut proof = prove(&poly, Scalar::from_u64(10));
    proof.round_polys[1][0] = proof.round_polys[1][0].add(&Scalar::one());
    assert!(!verify(&proof, &poly));
}

#[test]
fn sumcheck_first_round_sums_halves() {
    let poly = MultilinearPoly::new(to_field(vec![0, 0, 0, 3, 0, 0, 2, 5]), 3);
    let proof = prove(&poly, Scalar::from_u64(10));
    assert_eq!(proof.round_polys.len(), 3);
    assert_eq!(proof.round_polys[0][0], Scalar::from_u64(3));
    assert_eq!(proof.round_polys[0][1], Scalar::from_u64(7));
}

fn gkr_style_poly() -> SumPoly {
    let (eval_1, eval_2) = (to_field(vec![0, 0, 0, 2]), to_field(vec![0, 0, 0, 3]));
    SumPoly::new(vec![
        ProductPoly::new(vec![MultilinearPoly::new(eval_1.clone(), 2), MultilinearPoly::new(eval_2.clone(), 2)]),
        ProductPoly::new(vec![MultilinearPoly::new(eval_1, 2), MultilinearPoly::new(eval_2, 2)]),
    ])
}

#[test]
fn test_partial_sumcheck_gkr() {
    let mut transcript = FiatShamir::new();
    let initial_polynomial = gkr_style_poly();
    let sum_check_proof = partial_prove(&initial_polynomial, Scalar::from_u64(12), &mut transcript);
    assert_eq!(sum_check_proof.round_polys.len(), 2);
    assert_eq!(sum_check_proof.rand_challenges.len(), 2);
    let (challenges, _claim) = partial_verify(&sum_check_proof, &mut transcript);
    assert!(challenges.len() <= 2);
}

#[test]
fn partial_sumcheck_last_claim_is_the_value_at_the_challenges() {
    let poly = gkr_style_poly();
    let mut prover_transcript = FiatShamir::new();
    let proof = partial_prove(&poly, Scalar::from_u64(12), &mut prover_transcript);
    let mut verifier_transcript = FiatShamir::new();
    let (challenges, claim) = partial_verify(&proof, &mut verifier_transcript);
    assert_eq!(challenges, proof.rand_challenges);
    assert_eq!(claim, poly.evaluate(&challenges));
}

#[test]
fn partial_sumcheck_stops_at_a_wrong_claim() {
    let poly = gkr_style_poly();
    let mut prover_transcript = FiatShamir::new();
    let proof = partial_prove(&poly, Scalar::from_u64(13), &mut prover_transcript);
    let mut verifier_transcript = FiatShamir::new();
    let (challenges, claim) = partial_verify(&proof, &mut verifier_transcript);
    assert_eq!(challenges.len(), 0);
    assert_eq!(claim, Scalar::from_u64(13));
}
