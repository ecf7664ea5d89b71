use zk_protocols::dense::DenseUnivariatePoly;

#[test]
fn main_test_dense_polynomials() {
    let poly = DenseUnivariatePoly { coefficients: vec![4, 3, 2, 1] };
    assert_eq!(poly.degree(), 3);
    assert_eq!(poly.evaluate(2), 26);
    assert_eq!(poly.evaluate(3), 58);

    let zero_poly = DenseUnivariatePoly { coefficients: vec![0] };
    assert_eq!(zero_poly.degree(), 0);
    assert_eq!(zero_poly.evaluate(5), 0);

    let constant_poly = DenseUnivariatePoly { coefficients: vec![7] };
    assert_eq!(constant_poly.degree(), 0);
    assert_eq!(constant_poly.evaluate(10), 7);
}

#[test]
fn dense_linear_and_quadratic() {
    let p1 = DenseUnivariatePoly { coefficients: vec![5, 2] };
    assert_eq!(p1.degree(), 1);
    assert_eq!(p1.evaluate(2), 9);
    assert_eq!(p1.evaluate(3), 11);
    let p2 = DenseUnivariatePoly { coefficients: vec![5, 2, 3] };
    assert_eq!(p2.degree(), 2);
    assert_eq!(p2.evaluate(2), 21);
    assert_eq!(p2.evaluate(3), 38);
}
