use zk_protocols::circuit::{Circuit, Gate, Op};
use zk_protocols::field::Scalar;
use zk_protocols::multilinear::MultilinearPoly;

fn f(v: u64) -> Scalar {
    Scalar::from_u64(v)
}

fn pyramid() -> Circuit {
    let layer_2 = vec![
        Gate::new(0, 1, 0, Op::ADD),
        Gate::new(2, 3, 1, Op::MUL),
        Gate::new(4, 5, 2, Op::MUL),
        Gate::new(6, 7, 3, Op::MUL),
    ];
    let layer_1 = vec![Gate::new(0, 1, 0, Op::ADD), Gate::new(2, 3, 1, Op::MUL)];
    let layer_0 = vec![Gate::new(0, 1, 0, Op::ADD)];
    Circuit::new(vec![layer_0, layer_1, layer_2])
}

fn input() -> Vec<Scalar> {
    (1..=8u64).map(f).collect()
}

#[test]
fn test_circuit_implementation() {
    let outputs = pyramid().eval(input());
    assert_eq!(outputs.len(), 4);
}

#[test]
fn pyramid_layer_values() {
    let outputs = pyramid().eval(input());
    assert_eq!(outputs[1], vec![f(3), f(12), f(30), f(56)]);
    assert_eq!(outputs[2], vec![f(15), f(1680)]);
    assert_eq!(outputs[3], vec![f(1695), f(0)]);
}

#[test]
fn two_layer_adder_values() {
    let circuit = Circuit::new(vec![
        vec![Gate::new(0, 1, 0, Op::ADD)],
        vec![Gate::new(0, 1, 0, Op::ADD), Gate::new(2, 3, 1, Op::MUL)],
    ]);
    let outputs = circuit.eval(vec![f(1), f(2), f(3), f(4)]);
    assert_eq!(outputs[1], vec![f(3), f(12)]);
    assert_eq!(outputs[2], vec![f(15), f(0)]);
}

#[test]
fn test_get_layer_poly() {
    let circuit = pyramid();
    let layer_0_poly = circuit.get_layer_poly(0, input());
    let layer_1_poly = circuit.get_layer_poly(1, input());
    let layer_2_poly = circuit.get_layer_poly(2, input());
    assert_eq!(layer_0_poly.evals.len(), 2);
    assert_eq!(layer_1_poly.evals.len(), 2);
    assert_eq!(layer_2_poly.evals.len(), 4);
}

#[test]
fn test_add_i() {
    let circuit = pyramid();
    assert!(circuit.add_mul_i(0, Op::ADD).evals.len() == 8, "getting add_i for layer_index 0 failed");
    assert!(circuit.add_mul_i(1, Op::ADD).evals.len() == 32, "getting add_i for layer_index 1 failed");
    assert!(circuit.add_mul_i(2, Op::ADD).evals.len() == 256, "getting add_i for layer_index 2 failed");
}

#[test]
fn test_mul_i() {
    let circuit = pyramid();
    let circuit_mul_0 = circuit.add_mul_i(0, Op::MUL);
    let circuit_mul_1 = circuit.add_mul_i(1, Op::MUL);
    let circuit_mul_2 = circuit.add_mul_i(2, Op::MUL);
    assert!(circuit_mul_0.evals.len() == 8, "getting mul_i for layer_index 0 failed");
    assert!(circuit_mul_1.evals.len() == 32, "getting mul_i for layer_index 1 failed");
    assert!(circuit_mul_2.evals.len() == 256, "getting mul_i for layer_index 2 failed");
    assert!(
        circuit_mul_2.evals[usize::from_str_radix("01010011", 2).unwrap()] == f(1),
        "ensure mul_i for layer_index 2 at 01010011 failed"
    );
    assert!(
        circuit_mul_2.evals[usize::from_str_radix("10100101", 2).unwrap()] == f(1),
        "ensure mul_i for layer_index 2 at 10100101 failed"
    );
    assert!(
        circuit_mul_2.evals[usize::from_str_radix("11110111", 2).unwrap()] == f(1),
        "ensure mul_i for layer_index 2 at 11110111 failed"
    );
}

#[test]
fn wiring_table_has_one_entry_per_gate() {
    let circuit = pyramid();
    let add_2 = circuit.add_mul_i(2, Op::ADD);
    let ones = add_2.evals.iter().filter(|e| **e == f(1)).count();
    assert_eq!(ones, 1);
    assert_eq!(add_2.evals[0b00000001], f(1));
    let mul_2 = circuit.add_mul_i(2, Op::MUL);
    assert_eq!(mul_2.evals.iter().filter(|e| **e == f(1)).count(), 3);
    assert_eq!(mul_2.evals[0b00000001], f(0));
}

#[test]
fn test_w_add() {
    let poly1 = MultilinearPoly::new(vec![f(1), f(2)], 1);
    let poly2 = MultilinearPoly::new(vec![f(3), f(4)], 1);
    let result = Circuit::w_add_mul(&poly1, &poly2, Op::ADD);
    let result_2 = Circuit::w_add_mul(&result, &result, Op::ADD);
    assert_eq!(result.n_vars, 2);
    assert_eq!(result.evals.len(), 4);
    assert_eq!(result_2.n_vars, 4);
    assert_eq!(result_2.evals.len(), 16);
    assert_eq!(result.evals, vec![f(4), f(5), f(5), f(6)]);
    let expected: Vec<u64> = vec![8, 9, 9, 10, 9, 10, 10, 11, 9, 10, 10, 11, 10, 11, 11, 12];
    for (k, e) in expected.iter().enumerate() {
        assert_eq!(result_2.evals[k], f(*e));
    }
}

#[test]
fn test_w_mul() {
    let poly1 = MultilinearPoly::new(vec![f(1), f(2)], 1);
    let poly2 = MultilinearPoly::new(vec![f(3), f(4)], 1);
    let result = Circuit::w_add_mul(&poly1, &poly2, Op::MUL);
    let result_2 = Circuit::w_add_mul(&result, &result, Op::MUL);
    assert_eq!(result.n_vars, 2);
    assert_eq!(result.evals.len(), 4);
    assert_eq!(result_2.n_vars, 4);
    assert_eq!(result_2.evals.len(), 16);
    assert_eq!(result.evals, vec![f(3), f(4), f(6), f(8)]);
    let expected: Vec<u64> = vec![9, 12, 18, 24, 12, 16, 24, 32, 18, 24, 36, 48, 24, 32, 48, 64];
    for (k, e) in expected.iter().enumerate() {
        assert_eq!(result_2.evals[k], f(*e));
    }
}

#[test]
fn generate_fbc_builds_two_products() {
    let w = MultilinearPoly::new(vec![f(3), f(12)], 1);
    let add_i = MultilinearPoly::new(vec![f(0); 4], 2);
    let mul_i = MultilinearPoly::new(vec![f(0), f(1), f(0), f(0)], 2);
    let fbc = Circuit::generate_fbc(add_i, mul_i, &w);
    assert_eq!(fbc.polys.len(), 2);
    assert_eq!(fbc.polys[0].polys[1].evals, vec![f(6), f(15), f(15), f(24)]);
    assert_eq!(fbc.polys[1].polys[1].evals, vec![f(9), f(36), f(36), f(144)]);
    assert_eq!(fbc.reduce(), vec![f(0), f(36), f(0), f(0)]);
    assert_eq!(Circuit::new(vec![]).get_layer_count(), 0);
}

#[test]
fn w_add_mul_with_unequal_arities() {
    let p = MultilinearPoly::new(vec![f(1), f(2)], 1);
    let q = MultilinearPoly::new(vec![f(10), f(20), f(30), f(40)], 2);
    let r = Circuit::w_add_mul(&p, &q, Op::ADD);
    assert_eq!(r.n_vars, 3);
    assert_eq!(r.evals, vec![f(11), f(21), f(31), f(41), f(12), f(22), f(32), f(42)]);
    let m = Circuit::w_add_mul(&q, &p, Op::MUL);
    assert_eq!(m.evals, vec![f(10), f(20), f(20), f(40), f(30), f(60), f(40), f(80)]);
}
