use zk_protocols::field::Scalar;
use zk_protocols::transcript::FiatShamir;

#[test]
fn test_fiat_shamir_instantiation() {
    let _transcript = FiatShamir::new();
}

#[test]
fn test_fiat_shamir_absorb_and_squeeze() {
    let mut transcript = FiatShamir::new();
    let element: u8 = 42;
    transcript.absorb(&[element]);
    let random_element = transcript.squeeze();
    assert_ne!(random_element, Scalar::from_u64(element as u64));
}

#[test]
fn test_sample_challenge_should_absorb_after_sampling() {
    let mut transcript = FiatShamir::new();
    let element: u8 = 42;
    transcript.absorb(&[element]);
    let random_element = transcript.squeeze();
    let random_element_i = transcript.squeeze();
    let random_element_j = transcript.squeeze();
    assert_ne!(random_element, Scalar::from_u64(element as u64));
    assert_ne!(random_element, random_element_i);
    assert_ne!(random_element_i, random_element_j);
}

#[test]
fn identical_sessions_squeeze_identical_challenges() {
    let mut a = FiatShamir::new();
    let mut b = FiatShamir::new();
    a.absorb(&[1, 2, 3]);
    b.absorb_n(&[vec![1], vec![2, 3]]);
    assert_eq!(a.squeeze(), b.squeeze());
    assert_eq!(a.squeeze_n(3), b.squeeze_n(3));
}

#[test]
fn different_input_gives_different_challenge() {
    let mut a = FiatShamir::new();
    let mut b = FiatShamir::new();
    a.absorb(&[1]);
    b.absorb(&[2]);
    assert_ne!(a.squeeze(), b.squeeze());
}

#[test]
fn reset_forgets_what_was_absorbed() {
    let mut a = FiatShamir::new();
    a.absorb(&[9, 9]);
    a.reset();
    a.absorb(&[1]);
    let mut b = FiatShamir::new();
    b.absorb(&[1]);
    assert_eq!(a.squeeze(), b.squeeze());
}

#[test]
fn field_arithmetic_wraps_at_the_modulus() {
    let zero = Scalar::zero();
    let one = Scalar::one();
    let minus_one = zero.sub(&one);
    assert_eq!(minus_one.add(&one), zero);
    assert_eq!(minus_one.mul(&minus_one), one);
    assert_eq!(Scalar::from_u64(6).div(&Scalar::from_u64(3)), Scalar::from_u64(2));
    let b = Scalar::from_u64(0x0102).to_bytes();
    assert_eq!(b.len(), 32);
    assert_eq!(b[0], 2);
    assert_eq!(b[1], 1);
}
