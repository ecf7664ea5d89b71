use zk_protocols::circuit::{Circuit, Gate, Op};
use zk_protocols::field::Scalar;
use zk_protocols::gkr::{get_folded_claim_sum, GKRProver, GKRVerifier};
use zk_protocols::transcript::FiatShamir;

fn f(v: u64) -> Scalar {
    Scalar::from_u64(v)
}

fn init_circuit() -> (Circuit, Vec<Scalar>) {
    let layer_2 = vec![
        Gate::new(0, 1, 0, Op::ADD),
        Gate::new(2, 3, 1, Op::MUL),
        Gate::new(4, 5, 2, Op::MUL),
        Gate::new(6, 7, 3, Op::MUL),
    ];
    let layer_1 = vec![Gate::new(0, 1, 0, Op::ADD), Gate::new(2, 3, 1, Op::MUL)];
    let layer_0 = vec![Gate::new(0, 1, 0, Op::ADD)];
    let circuit = Circuit::new(vec![layer_0, layer_1, layer_2]);
    let input = (1..=8u64).map(f).collect();
    (circuit, input)
}

#[test]
fn test_gkr_impl() {
    let (mut circuit, input) = init_circuit();
    let mut transcript = FiatShamir::new();
    let gkr_proof = GKRProver::prove(&input, &mut circuit, &mut transcript);
    assert_eq!(gkr_proof.sumcheck_proofs.len(), 3);
    assert_eq!(gkr_proof.w_poly_evals.len(), 2);
    assert_eq!(gkr_proof.output_poly.evals, vec![f(1695), f(0)]);
}

#[test]
fn gkr_pyramid_proof_verifies() {
    let (circuit, input) = init_circuit();
    let mut transcript = FiatShamir::new();
    let proof = GKRProver::prove(&input, &circuit, &mut transcript);
    let mut verifier_transcript = FiatShamir::new();
    assert!(GKRVerifier::verify(&input, &circuit, &mut verifier_transcript, proof));
}

#[test]
fn gkr_two_layer_adder_verifies() {
    let circuit = Circuit::new(vec![
        vec![Gate::new(0, 1, 0, Op::ADD)],
        vec![Gate::new(0, 1, 0, Op::ADD), Gate::new(2, 3, 1, Op::MUL)],
    ]);
    let input = vec![f(1), f(2), f(3), f(4)];
    let mut transcript = FiatShamir::new();
    let proof = GKRProver::prove(&input, &circuit, &mut transcript);
    assert_eq!(proof.output_poly.evals, vec![f(15), f(0)]);
    let mut verifier_transcript = FiatShamir::new();
    assert!(GKRVerifier::verify(&input, &circuit, &mut verifier_transcript, proof));
}

#[test]
fn gkr_rejects_a_perturbed_layer_value() {
    let (circuit, input) = init_circuit();
    let mut transcript = FiatShamir::new();
    let mut proof = GKRProver::prove(&input, &circuit, &mut transcript);
    proof.w_poly_evals[0].0 = proof.w_poly_evals[0].0.add(&f(1));
    let mut verifier_transcript = FiatShamir::new();
    assert!(!GKRVerifier::verify(&input, &circuit, &mut verifier_transcript, proof));
}

#[test]
fn gkr_rejects_a_tampered_round_polynomial() {
    let (circuit, input) = init_circuit();
    let mut transcript = FiatShamir::new();
    let mut proof = GKRProver::prove(&input, &circuit, &mut transcript);
    let c = proof.sumcheck_proofs[1].round_polys[0].coefficients[0];
    proof.sumcheck_proofs[1].round_polys[0].coefficients[0] = c.add(&f(1));
    let mut verifier_transcript = FiatShamir::new();
    assert!(!GKRVerifier::verify(&input, &circuit, &mut verifier_transcript, proof));
}

#[test]
fn gkr_rejects_a_proof_for_another_input() {
    let (circuit, input) = init_circuit();
    let mut transcript = FiatShamir::new();
    let proof = GKRProver::prove(&input, &circuit, &mut transcript);
    let other: Vec<Scalar> = (2..=9u64).map(f).collect();
    let mut verifier_transcript = FiatShamir::new();
    assert!(!GKRVerifier::verify(&other, &circuit, &mut verifier_transcript, proof));
}

#[test]
fn folded_claim_is_a_weighted_sum() {
    assert_eq!(get_folded_claim_sum(&f(2), &f(3), &f(5), &f(7)), f(31));
}

#[test]
fn gkr_rejects_a_wrong_starting_claim() {
    let (circuit, input) = init_circuit();
    let mut transcript = FiatShamir::new();
    let mut proof = GKRProver::prove(&input, &circuit, &mut transcript);
    proof.sumcheck_proofs[0].initial_claimed_sum = proof.sumcheck_proofs[0].initial_claimed_sum.add(&f(1));
    let mut verifier_transcript = FiatShamir::new();
    assert!(!GKRVerifier::verify(&input, &circuit, &mut verifier_transcript, proof));
}

#[test]
fn gkr_rejects_a_false_output_layer() {
    let (circuit, input) = init_circuit();
    let mut transcript = FiatShamir::new();
    let mut proof = GKRProver::prove(&input, &circuit, &mut transcript);
    proof.output_poly.evals[0] = f(1696);
    let mut verifier_transcript = FiatShamir::new();
    assert!(!GKRVerifier::verify(&input, &circuit, &mut verifier_transcript, proof));
}

#[test]
fn gkr_rejects_swapped_layer_values() {
    let (circuit, input) = init_circuit();
    let mut transcript = FiatShamir::new();
    let mut proof = GKRProver::prove(&input, &circuit, &mut transcript);
    let (b, c) = proof.w_poly_evals[0];
    proof.w_poly_evals[0] = (c, b);
    let mut verifier_transcript = FiatShamir::new();
    assert!(!GKRVerifier::verify(&input, &circuit, &mut verifier_transcript, proof));
}
