use zk_protocols::field::Scalar;
use zk_protocols::univariate::UnivariatePoly;

fn f(v: u64) -> Scalar {
    Scalar::from_u64(v)
}

#[test]
fn univariate_poly_test_dense_polynomials() {
    let zero_poly = UnivariatePoly { coefficients: vec![f(0)] };
    assert_eq!(zero_poly.degree(), 0);
    assert_eq!(zero_poly.evaluate(&f(5)), f(0));
    assert_eq!(UnivariatePoly::interpolate(vec![f(1)], vec![f(0)]).coefficients, vec![f(0)]);

    let constant_poly = UnivariatePoly { coefficients: vec![f(7)] };
    assert_eq!(constant_poly.degree(), 0);
    assert_eq!(constant_poly.evaluate(&f(10)), f(7));
    assert_eq!(UnivariatePoly::interpolate(vec![f(10)], vec![f(7)]).coefficients, vec![f(7)]);
}

#[test]
fn univariate_poly_test_fibonnacci_verification() {
    let fibonacci_poly = UnivariatePoly::interpolate(
        vec![f(0), f(1), f(2), f(3), f(4), f(5), f(6), f(7)],
        vec![f(1), f(1), f(2), f(3), f(5), f(8), f(13), f(21)],
    );
    assert_eq!(fibonacci_poly.degree(), 7);
    assert_eq!(
        fibonacci_poly.evaluate(&f(7)),
        fibonacci_poly.evaluate(&f(6)).add(&fibonacci_poly.evaluate(&f(5)))
    );
    assert_eq!(fibonacci_poly.evaluate(&f(8)), f(21));
}

#[test]
fn interpolation_passes_through_its_points() {
    let p = UnivariatePoly::interpolate(vec![f(0), f(1), f(2)], vec![f(4), f(9), f(20)]);
    assert_eq!(p.evaluate(&f(0)), f(4));
    assert_eq!(p.evaluate(&f(1)), f(9));
    assert_eq!(p.evaluate(&f(2)), f(20));
    // 4 + 2x + 3x^2
    assert_eq!(p.coefficients, vec![f(4), f(2), f(3)]);
}

#[test]
fn horner_evaluation() {
    let p = UnivariatePoly::new(vec![f(4), f(3), f(2), f(1)]);
    assert_eq!(p.evaluate(&f(2)), f(26));
    assert_eq!(p.evaluate(&f(3)), f(58));
    assert_eq!(p.evaluate_sum_over_boolean_hypercube(), f(14));
}

#[test]
fn multiply_and_add() {
    let a = UnivariatePoly::new(vec![f(1), f(1)]);
    let b = UnivariatePoly::new(vec![f(2), f(3)]);
    assert_eq!(a.mul(&b).coefficients, vec![f(2), f(5), f(3)]);
    let c = UnivariatePoly::new(vec![f(5)]);
    assert_eq!(a.add(&c).coefficients, vec![f(6), f(1)]);
    assert_eq!(c.add(&a).coefficients, vec![f(6), f(1)]);
    assert_eq!(b.scalar_mul(&f(2)).coefficients, vec![f(4), f(6)]);
}

#[test]
fn basis_is_one_at_its_point_and_zero_elsewhere() {
    let set = vec![f(0), f(1), f(2)];
    let l1 = UnivariatePoly::basis(&f(1), &set);
    assert_eq!(l1.evaluate(&f(1)), f(1));
    assert_eq!(l1.evaluate(&f(0)), f(0));
    assert_eq!(l1.evaluate(&f(2)), f(0));
}

#[test]
fn to_bytes_has_one_encoding_per_coefficient() {
    let p = UnivariatePoly::new(vec![f(1), f(2)]);
    let b = p.to_bytes();
    assert_eq!(b.len(), 64);
    assert_eq!(b[0], 1);
    assert_eq!(b[32], 2);
}
