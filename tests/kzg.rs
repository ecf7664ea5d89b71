use zk_protocols::field::Scalar;
use zk_protocols::kzg::{
    encrypt_lagrange_basis, generate_lagrange_basis, G1Point, MultilinearKZGProver,
    MultilinearKZGVerifier, TrustedSetup,
};
use zk_protocols::multilinear::MultilinearPoly;

fn f(v: u64) -> Scalar {
    Scalar::from_u64(v)
}

fn random_scalars(n: usize) -> Vec<Scalar> {
    (0..n).map(|_| Scalar::from_u64(rand::random::<u64>() | 1)).collect()
}

fn poly() -> MultilinearPoly {
    MultilinearPoly::new(vec![f(0), f(0), f(0), f(3), f(0), f(0), f(2), f(5)], 3)
}

#[test]
fn test_kzg_protocol() {
    let poly = poly();
    let trusted_setup = TrustedSetup::new(&[f(5), f(3), f(2)]);
    let openings = vec![f(2), f(4), f(0)];
    let commitment = MultilinearKZGProver::compute_commitment(&poly, &trusted_setup.encrypted_lagrange_basis);
    let proof = MultilinearKZGProver::prove(&openings, &poly, &trusted_setup.encrypted_lagrange_basis);
    let is_verified = MultilinearKZGVerifier::verify(&commitment, &openings, &proof, &trusted_setup.encrypted_taus);
    assert!(is_verified, "Proof verification failed");
}

#[test]
fn kzg_rejects_a_wrong_value() {
    let poly = poly();
    let trusted_setup = TrustedSetup::new(&[f(5), f(3), f(2)]);
    let openings = vec![f(2), f(4), f(0)];
    let commitment = MultilinearKZGProver::compute_commitment(&poly, &trusted_setup.encrypted_lagrange_basis);
    let mut proof = MultilinearKZGProver::prove(&openings, &poly, &trusted_setup.encrypted_lagrange_basis);
    proof.v = proof.v.add(&f(1));
    assert!(!MultilinearKZGVerifier::verify(&commitment, &openings, &proof, &trusted_setup.encrypted_taus));
}

#[test]
fn kzg_value_is_the_evaluation() {
    let poly = poly();
    let trusted_setup = TrustedSetup::new(&[f(5), f(3), f(2)]);
    let openings = vec![f(1), f(5), f(3)];
    let proof = MultilinearKZGProver::prove(&openings, &poly, &trusted_setup.encrypted_lagrange_basis);
    assert_eq!(proof.v, f(55));
}

#[test]
fn test_evaluate_at_tau() {
    let poly = poly();
    let trusted_setup = TrustedSetup::new(&random_scalars(3));
    let result = MultilinearKZGProver::evaluate_at_tau(&poly, &trusted_setup.encrypted_lagrange_basis);
    assert!(result != G1Point::zero(), "Result should not be zero");
}

#[test]
fn test_compute_commitment() {
    let poly = poly();
    let trusted_setup = TrustedSetup::new(&random_scalars(3));
    let commitment = MultilinearKZGProver::compute_commitment(&poly, &trusted_setup.encrypted_lagrange_basis);
    assert!(commitment != G1Point::zero(), "Commitment should not be zero");
}

#[test]
fn test_prove() {
    let poly = poly();
    let trusted_setup = TrustedSetup::new(&random_scalars(3));
    let openings = random_scalars(3);
    let proof = MultilinearKZGProver::prove(&openings, &poly, &trusted_setup.encrypted_lagrange_basis);
    assert_eq!(proof.q_taus.len(), 3, "Proof should contain q_taus for each variable");
    assert!(proof.v != Scalar::zero(), "Proof value should not be zero");
}

#[test]
fn test_trusted_setup() {
    let taus = random_scalars(3);
    let setup = TrustedSetup::new(&taus);
    assert_eq!(setup.encrypted_taus.len(), taus.len());
    assert_eq!(setup.encrypted_lagrange_basis.len(), 1 << taus.len());
    assert!(!setup.encrypted_taus.is_empty());
    assert!(!setup.encrypted_lagrange_basis.is_empty());
}

#[test]
fn test_generate_lagrange_basis() {
    let taus = random_scalars(3);
    let lagrange_basis = generate_lagrange_basis(&taus);
    assert_eq!(lagrange_basis.len(), 1 << taus.len());
}

#[test]
fn lagrange_basis_values() {
    // taus (5, 3): tau_0 goes with the most significant bit of the index
    let basis = generate_lagrange_basis(&[f(5), f(3)]);
    let minus = |v: u64| Scalar::zero().sub(&f(v));
    assert_eq!(basis[0], minus(4).mul(&minus(2)));
    assert_eq!(basis[1], minus(4).mul(&f(3)));
    assert_eq!(basis[2], f(5).mul(&minus(2)));
    assert_eq!(basis[3], f(15));
}

#[test]
fn test_encrypt_lagrange_basis() {
    let taus = random_scalars(3);
    let lagrange_basis = generate_lagrange_basis(&taus);
    let encrypted_basis = encrypt_lagrange_basis(&lagrange_basis);
    assert_eq!(encrypted_basis.len(), lagrange_basis.len());
}

#[test]
fn quotients_are_padded_to_full_arity() {
    let poly = poly();
    let (v, qs) = MultilinearKZGProver::quotient_evals(&[f(2), f(4), f(0)], &poly);
    assert_eq!(qs.len(), 3);
    for q in qs.iter() {
        assert_eq!(q.len(), 8);
    }
    assert_eq!(v, poly.evaluate(&vec![f(2), f(4), f(0)]));
}
