use zk_protocols::field::Scalar;
use zk_protocols::multilinear::{BlowUpDirection, MultilinearPoly};

fn to_field(input: Vec<u64>) -> Vec<Scalar> {
    input.iter().map(|v| Scalar::from_u64(*v)).collect()
}

fn f(v: u64) -> Scalar {
    Scalar::from_u64(v)
}

fn w() -> MultilinearPoly {
    MultilinearPoly::new(to_field(vec![0, 0, 0, 3, 0, 0, 2, 5]), 3)
}

#[test]
fn multilinear_poly_test_partial_evaluate_multilinear_polynomial_a_2v() {
    let poly = MultilinearPoly { evals: to_field(vec![0, 2, 0, 5]), n_vars: 2 };
    let partial_evaluated_poly = poly.partial_evaluate((1, f(5)));
    assert_eq!(partial_evaluated_poly.evals, vec![f(0), f(17)]);
}

#[test]
fn multilinear_poly_test_partial_evaluate_multilinear_polynomial_b_2v() {
    let poly = MultilinearPoly { evals: to_field(vec![0, 2, 0, 5]), n_vars: 2 };
    let partial_evaluated_poly = poly.partial_evaluate((0, f(3)));
    assert_eq!(partial_evaluated_poly.evals, vec![f(6), f(15)]);
}

#[test]
fn multilinear_poly_test_partial_evaluate_multilinear_polynomial_a_3v() {
    let result = w().partial_evaluate((2, f(1)));
    assert_eq!(result.evals, vec![f(0), f(0), f(2), f(5)]);
}

#[test]
fn multilinear_poly_test_partial_evaluate_multilinear_polynomial_b_3v() {
    let result = w().partial_evaluate((1, f(5)));
    assert_eq!(result.evals, vec![f(0), f(15), f(10), f(25)]);
}

#[test]
fn multilinear_poly_test_partial_evaluate_multilinear_polynomial_c_3v() {
    let result = w().partial_evaluate((0, f(3)));
    assert_eq!(result.evals, vec![f(0), f(9), f(0), f(11)]);
}

#[test]
fn multilinear_poly_test_evaluate_multilinear_polynomial_abc() {
    let result = w().evaluate(&vec![f(1), f(5), f(3)]);
    assert_eq!(result, f(55));
}

#[test]
fn test_scalar_mul() {
    let new_poly = w().scalar_mul(&f(3));
    assert_eq!(new_poly.evals[3], f(9));
    assert_eq!(new_poly.evals[6], f(6));
    assert_eq!(new_poly.evals[7], f(15));
}

#[test]
fn test_blow_up_right() {
    let evals = to_field(vec![0, 2]);
    let result = MultilinearPoly::blow_up_n_times(BlowUpDirection::Right, &evals, 1);
    assert_eq!(result, to_field(vec![0, 0, 2, 2]));

    let evals = to_field(vec![0, 4, 0, 6]);
    let result = MultilinearPoly::blow_up_n_times(BlowUpDirection::Right, &evals, 1);
    assert_eq!(result, to_field(vec![0, 0, 4, 4, 0, 0, 6, 6]));

    let evals = to_field(vec![0, 5, 3, 12, 0, 5, 5, 14]);
    let result = MultilinearPoly::blow_up_n_times(BlowUpDirection::Right, &evals, 1);
    assert_eq!(result, to_field(vec![0, 0, 5, 5, 3, 3, 12, 12, 0, 0, 5, 5, 5, 5, 14, 14]));
}

#[test]
fn test_blow_up_left() {
    let evals = to_field(vec![0, 2]);
    let result = MultilinearPoly::blow_up_n_times(BlowUpDirection::Left, &evals, 1);
    assert_eq!(result, to_field(vec![0, 2, 0, 2]));

    let evals = to_field(vec![0, 0, 3, 7]);
    let result = MultilinearPoly::blow_up_n_times(BlowUpDirection::Left, &evals, 1);
    assert_eq!(result, to_field(vec![0, 0, 3, 7, 0, 0, 3, 7]));

    let evals = to_field(vec![0, 5, 0, 9, 0, 5, 3, 14]);
    let result = MultilinearPoly::blow_up_n_times(BlowUpDirection::Left, &evals, 1);
    assert_eq!(result, to_field(vec![0, 5, 0, 9, 0, 5, 3, 14, 0, 5, 0, 9, 0, 5, 3, 14]));
}

#[test]
fn blow_up_twice_repeats_four_times() {
    let evals = to_field(vec![1, 2]);
    let left = MultilinearPoly::blow_up_n_times(BlowUpDirection::Left, &evals, 2);
    assert_eq!(left, to_field(vec![1, 2, 1, 2, 1, 2, 1, 2]));
    let right = MultilinearPoly::blow_up_n_times(BlowUpDirection::Right, &evals, 2);
    assert_eq!(right, to_field(vec![1, 1, 1, 1, 2, 2, 2, 2]));
}

#[test]
fn partial_evaluate_of_constant_is_unchanged() {
    let c = MultilinearPoly::new(vec![f(7)], 0);
    let r = c.partial_evaluate((0, f(3)));
    assert_eq!(r.n_vars, 0);
    assert_eq!(r.evals, vec![f(7)]);
}

#[test]
fn partial_evaluations_in_any_order_agree() {
    // fixing x0 = 1, x1 = 5, x2 = 3 in different orders gives W(1, 5, 3)
    let a = w().partial_evaluate((2, f(1))).partial_evaluate((1, f(5))).partial_evaluate((0, f(3)));
    let b = w().partial_evaluate((0, f(3))).partial_evaluate((0, f(5))).partial_evaluate((0, f(1)));
    let c = w().partial_evaluate((1, f(5))).partial_evaluate((0, f(3))).partial_evaluate((0, f(1)));
    assert_eq!(a.evals, vec![f(55)]);
    assert_eq!(b.evals, vec![f(55)]);
    assert_eq!(c.evals, vec![f(55)]);
}

#[test]
fn quotient_and_remainder_rebuild_the_polynomial() {
    // W = (x0 - d) Q + R at the point (7, 4, 9) with d = 6
    let poly = w();
    let (q, r) = poly.compute_quotient_remainder(&f(6), 2);
    assert_eq!(q, to_field(vec![0, 0, 2, 2]));
    assert_eq!(r.evals, vec![f(0), f(0), f(12), f(15)]);
    let q_poly = MultilinearPoly::new(q, 2);
    let lhs = poly.evaluate(&vec![f(7), f(4), f(9)]);
    let rhs = f(7).sub(&f(6)).mul(&q_poly.evaluate(&vec![f(4), f(9)])).add(&r.evaluate(&vec![f(4), f(9)]));
    assert_eq!(lhs, rhs);
}

#[test]
fn add_is_pointwise() {
    let s = w().add(&w());
    assert_eq!(s.evals, to_field(vec![0, 0, 0, 6, 0, 0, 4, 10]));
}

#[test]
fn to_bytes_concatenates_little_endian_encodings() {
    let p = MultilinearPoly::new(to_field(vec![1, 258]), 1);
    let b = p.to_bytes();
    assert_eq!(b.len(), 64);
    assert_eq!(b[0], 1);
    assert_eq!(b[32], 2);
    assert_eq!(b[33], 1);
}
