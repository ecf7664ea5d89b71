use zk_protocols::composed::{ProductPoly, SumPoly};
use zk_protocols::field::Scalar;
use zk_protocols::multilinear::MultilinearPoly;

fn f(v: u64) -> Scalar {
    Scalar::from_u64(v)
}

fn lin(a: u64, b: u64) -> MultilinearPoly {
    MultilinearPoly::new(vec![f(a), f(b)], 1)
}

#[test]
fn test_new() {
    let product_poly = ProductPoly::new(vec![lin(1, 2), lin(3, 4)]);
    assert_eq!(product_poly.polys.len(), 2);
}

#[test]
fn test_partial_evaluate() {
    let product_poly = ProductPoly::new(vec![lin(1, 2), lin(3, 4)]);
    let evaluated = product_poly.partial_evaluate((0, f(1)));
    assert_eq!(evaluated.polys.len(), 2);
    assert_eq!(evaluated.polys[0].evals, vec![f(2)]);
    assert_eq!(evaluated.polys[1].evals, vec![f(4)]);
}

#[test]
fn test_evaluate() {
    let product_poly = ProductPoly::new(vec![lin(1, 2), lin(3, 4)]);
    let result = product_poly.evaluate(&vec![f(1)]);
    assert_eq!(result, f(8));
}

#[test]
fn test_multiple_polynomials() {
    let polys = (0..3u64).map(|i| lin(i, i + 1)).collect();
    let product_poly = ProductPoly::new(polys);
    assert_eq!(product_poly.polys.len(), 3);
    let result = product_poly.evaluate(&vec![f(1)]);
    assert_eq!(result, f(6));
}

#[test]
fn test_empty_product_poly() {
    let product_poly = ProductPoly::new(vec![]);
    assert_eq!(product_poly.polys.len(), 0);
}

#[test]
fn test_empty_evaluation() {
    let product_poly = ProductPoly::new(vec![]);
    let result = product_poly.evaluate(&vec![]);
    assert_eq!(result, f(1));
}

#[test]
fn test_sum_poly() {
    let prod1 = ProductPoly::new(vec![lin(1, 2), lin(3, 4)]);
    let prod2 = ProductPoly::new(vec![lin(5, 6), lin(7, 8)]);
    let sum_poly = SumPoly::new(vec![prod1, prod2]);
    assert_eq!(sum_poly.polys.len(), 2);
    let result = sum_poly.evaluate(&vec![f(1)]);
    assert_eq!(result, f(56));
}

#[test]
fn test_empty_sum_poly() {
    let sum_poly = SumPoly::new(vec![]);
    assert_eq!(sum_poly.polys.len(), 0);
    let empty_sum = SumPoly::new(vec![]);
    let result = empty_sum.evaluate(&vec![]);
    assert_eq!(result, f(0));
}

#[test]
fn test_single_term_sum_poly() {
    let sum_poly = SumPoly::new(vec![ProductPoly::new(vec![lin(2, 3)])]);
    let result = sum_poly.evaluate(&vec![f(1)]);
    assert_eq!(result, f(3));
}

#[test]
fn test_multiple_terms_sum_poly() {
    let sum_poly = SumPoly::new(vec![
        ProductPoly::new(vec![lin(1, 2)]),
        ProductPoly::new(vec![lin(3, 4)]),
        ProductPoly::new(vec![lin(5, 6)]),
    ]);
    let result = sum_poly.evaluate(&vec![f(1)]);
    assert_eq!(result, f(12));
}

#[test]
fn reduce_multiplies_then_adds_pointwise() {
    let prod1 = ProductPoly::new(vec![lin(1, 2), lin(3, 4)]);
    let prod2 = ProductPoly::new(vec![lin(5, 6), lin(7, 8)]);
    assert_eq!(prod1.reduce(), vec![f(3), f(8)]);
    let sum_poly = SumPoly::new(vec![prod1, prod2]);
    assert_eq!(sum_poly.reduce(), vec![f(38), f(56)]);
    assert_eq!(sum_poly.n_vars(), 1);
    assert_eq!(sum_poly.length(), 2);
    assert_eq!(sum_poly.degree(), 2);
}
