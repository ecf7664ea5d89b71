//! Layered arithmetic circuits of addition and multiplication gates, and the
//! multilinear polynomials that GKR derives from them. Layer 0 is the output
//! layer; the last layer reads the input.
use crate::composed::{ProductPoly, SumPoly};
use crate::field::{copy_scalars, fadd, fmul, vals, Scalar};
use crate::multilinear::{pow2_usize, MultilinearPoly};
use vstd::arithmetic::power2::{lemma2_to64, lemma_pow2_adds, lemma_pow2_pos, lemma_pow2_strictly_increases, lemma_pow2_unfold, pow2};
use vstd::prelude::*;

verus! {

#[derive(Clone, Copy, Debug, PartialEq, Eq, Structural)]
pub enum Op {
    ADD,
    MUL,
}

/// A gate: `output` of its layer is `left op right` of the layer below.
#[derive(Clone, Copy, Debug)]
pub struct Gate {
    pub left: usize,
    pub right: usize,
    pub output: usize,
    pub op: Op,
}

impl Gate {
    pub fn new(left: usize, right: usize, output: usize, op: Op) -> (r: Gate)
        ensures
            r == (Gate { left, right, output, op }),
    {
        Gate { left, right, output, op }
    }
}

/// The value a gate computes from the layer below.
pub open spec fn gate_value(g: Gate, prev: Seq<int>) -> int {
    match g.op {
        Op::ADD => fadd(prev[g.left as int], prev[g.right as int]),
        Op::MUL => fmul(prev[g.left as int], prev[g.right as int]),
    }
}

/// A layer of `width` zeros, then the first `n` gates written in turn.
pub open spec fn apply_gates(gates: Seq<Gate>, prev: Seq<int>, width: nat, n: nat) -> Seq<int>
    decreases n,
{
    if n == 0 {
        Seq::new(width, |i: int| 0)
    } else {
        apply_gates(gates, prev, width, (n - 1) as nat).update(
            gates[n - 1].output as int,
            gate_value(gates[n - 1], prev),
        )
    }
}

proof fn lemma_apply_gates_len(gates: Seq<Gate>, prev: Seq<int>, width: nat, n: nat)
    requires
        n <= gates.len(),
        forall|j: int| 0 <= j < n ==> (#[trigger] gates[j]).output < width,
    ensures
        apply_gates(gates, prev, width, n).len() == width,
    decreases n,
{
    if n > 0 {
        lemma_apply_gates_len(gates, prev, width, (n - 1) as nat);
    }
}

/// The width of a layer computed from `prev_len` values: half of them, and two at least.
pub open spec fn next_width(prev_len: nat) -> nat {
    if prev_len / 2 >= 2 {
        prev_len / 2
    } else {
        2
    }
}

/// The input, then the outputs of the last `k` layers, from the input side.
pub open spec fn layer_outputs(layers: Seq<Seq<Gate>>, input: Seq<int>, k: nat) -> Seq<Seq<int>>
    decreases k,
{
    if k == 0 {
        seq![input]
    } else {
        let outs = layer_outputs(layers, input, (k - 1) as nat);
        let prev = outs.last();
        let gates = layers[layers.len() - k];
        outs.push(apply_gates(gates, prev, next_width(prev.len()), gates.len()))
    }
}

/// The number of variables of layer `i`'s values in a circuit of `n_layers`
/// layers; layer `n_layers` is the input.
pub open spec fn layer_arity(i: nat, n_layers: nat) -> nat {
    if i == n_layers {
        n_layers
    } else if i == 0 {
        1
    } else {
        i
    }
}

/// Every gate of layer `i` reads values of layer `i + 1` and writes one of layer `i`.
pub open spec fn gates_fit(layers: Seq<Seq<Gate>>) -> bool {
    forall|i: int, j: int|
        0 <= i < layers.len() && 0 <= j < layers[i].len() ==> {
            &&& (#[trigger] layers[i][j]).output < pow2(layer_arity(i as nat, layers.len()))
            &&& layers[i][j].left < pow2((i + 1) as nat)
            &&& layers[i][j].right < pow2((i + 1) as nat)
        }
}

/// A circuit fit for an input of `input_len` values: one layer at least, an
/// input of `2^L` values for `L` layers, and gates within their layers.
pub open spec fn valid_circuit(layers: Seq<Seq<Gate>>, input_len: nat) -> bool {
    &&& layers.len() >= 1
    &&& input_len == pow2(layers.len())
    &&& gates_fit(layers)
}

/// The index of a gate's entry in a wiring table: its output, left and right
/// indices, most significant first, the last two in `b` bits each.
pub open spec fn wiring_index(g: Gate, b: nat) -> int {
    g.output * pow2(2 * b) + g.left * pow2(b) + g.right
}

/// The table that is one where a gate of `op` among `gates` is wired, zero elsewhere.
pub open spec fn wiring_table(gates: Seq<Gate>, op: Op, a: nat, b: nat) -> Seq<int> {
    Seq::new(
        pow2(a + 2 * b),
        |idx: int|
            if exists|j: int| 0 <= j < gates.len() && (#[trigger] gates[j]).op == op && wiring_index(gates[j], b) == idx {
                1
            } else {
                0
            },
    )
}

/// `p(x) op q(y)` over the concatenated variables of `p` then `q`.
pub open spec fn combine_tables(p: Seq<int>, q: Seq<int>, op: Op) -> Seq<int> {
    Seq::new(
        p.len() * q.len(),
        |k: int|
            match op {
                Op::ADD => fadd(p[k / q.len() as int], q[k % q.len() as int]),
                Op::MUL => fmul(p[k / q.len() as int], q[k % q.len() as int]),
            },
    )
}

pub struct Circuit {
    pub layers: Vec<Vec<Gate>>,
}

impl Circuit {
    /// The gates, layer by layer.
    pub open spec fn gates(&self) -> Seq<Seq<Gate>> {
        self.layers@.map_values(|l: Vec<Gate>| l@)
    }

    pub fn new(layers: Vec<Vec<Gate>>) -> (r: Circuit)
        ensures
            r.layers@ == layers@,
    {
        Circuit { layers }
    }

    pub fn get_layer_count(&self) -> (r: usize)
        ensures
            r == self.layers@.len(),
    {
        self.layers.len()
    }
}

/// A vector of `n` zeros.
fn zeros(n: usize) -> (r: Vec<Scalar>)
    ensures
        r@.len() == n,
        forall|i: int| 0 <= i < n ==> (#[trigger] r@[i]).val() == 0,
{
    let mut r: Vec<Scalar> = Vec::new();
    let mut i: usize = 0;
    while i < n
        invariant
            i <= n,
            r@.len() == i,
            forall|j: int| 0 <= j < i ==> (#[trigger] r@[j]).val() == 0,
        decreases n - i,
    {
        r.push(Scalar::zero());
        i = i + 1;
    }
    r
}

/// The layer that `gates` compute from `prev`, `width` values wide.
fn apply_layer(gates: &Vec<Gate>, prev: &Vec<Scalar>, width: usize) -> (r: Vec<Scalar>)
    requires
        forall|j: int|
            0 <= j < gates@.len() ==> {
                &&& (#[trigger] gates@[j]).output < width
                &&& gates@[j].left < prev@.len()
                &&& gates@[j].right < prev@.len()
            },
    ensures
        vals(r@) == apply_gates(gates@, vals(prev@), width as nat, gates@.len()),
{
    let mut cur = zeros(width);
    proof {
        assert(vals(cur@) =~= apply_gates(gates@, vals(prev@), width as nat, 0));
    }
    let mut j: usize = 0;
    while j < gates.len()
        invariant
            j <= gates@.len(),
            cur@.len() == width,
            forall|m: int|
                0 <= m < gates@.len() ==> {
                    &&& (#[trigger] gates@[m]).output < width
                    &&& gates@[m].left < prev@.len()
                    &&& gates@[m].right < prev@.len()
                },
            vals(cur@) == apply_gates(gates@, vals(prev@), width as nat, j as nat),
        decreases gates@.len() - j,
    {
        let g = gates[j];
        let v = match g.op {
            Op::ADD => prev[g.left].add(&prev[g.right]),
            Op::MUL => prev[g.left].mul(&prev[g.right]),
        };
        let ghost before = vals(cur@);
        cur.set(g.output, v);
        j = j + 1;
        proof {
            assert(vals(cur@) =~= before.update(g.output as int, gate_value(g, vals(prev@))));
        }
    }
    cur
}

impl Circuit {
    /// The input, then each layer's values from the input side to the output.
    pub fn eval(&self, input_layer: Vec<Scalar>) -> (r: Vec<Vec<Scalar>>)
        requires
            valid_circuit(self.gates(), input_layer@.len()),
        ensures
            r@.len() == self.layers@.len() + 1,
            forall|k: int|
                0 <= k < r@.len() ==> vals((#[trigger] r@[k])@) == layer_outputs(
                    self.gates(),
                    vals(input_layer@),
                    self.layers@.len() as nat,
                )[k],
            forall|k: int|
                0 <= k < r@.len() ==> (#[trigger] r@[k])@.len() == pow2(
                    layer_arity((self.layers@.len() - k) as nat, self.layers@.len() as nat),
                ),
    {
        let n_layers = self.layers.len();
        let ghost layers = self.gates();
        let ghost input = vals(input_layer@);
        let mut outs: Vec<Vec<Scalar>> = Vec::new();
        outs.push(input_layer);
        let mut k: usize = 0;
        while k < n_layers
            invariant
                k <= n_layers,
                n_layers == self.layers@.len(),
                layers == self.gates(),
                valid_circuit(layers, pow2(n_layers as nat)),
                outs@.len() == k + 1,
                layer_outputs(layers, input, k as nat).len() == k + 1,
                forall|m: int|
                    0 <= m <= k ==> vals((#[trigger] outs@[m])@) == layer_outputs(layers, input, k as nat)[m],
                k < n_layers ==> outs@[k as int]@.len() == pow2((n_layers - k) as nat),
                forall|m: int|
                    0 <= m <= k ==> (#[trigger] outs@[m])@.len() == pow2(
                        layer_arity((n_layers - m) as nat, n_layers as nat),
                    ),
            decreases n_layers - k,
        {
            let i = n_layers - 1 - k;
            let prev = &outs[k];
            let half = prev.len() / 2;
            let width = if half >= 2 {
                half
            } else {
                2
            };
            proof {
                lemma_pow2_unfold((i + 1) as nat);
                lemma_pow2_pos(i as nat);
                lemma2_to64();
                if i > 1 {
                    lemma_pow2_strictly_increases(1, i as nat);
                }
                assert(width == pow2(layer_arity(i as nat, n_layers as nat)));
                assert(layers[i as int] == self.layers@[i as int]@);
                assert forall|j: int| 0 <= j < self.layers@[i as int]@.len() implies {
                    &&& (#[trigger] self.layers@[i as int]@[j]).output < width
                    &&& self.layers@[i as int]@[j].left < prev@.len()
                    &&& self.layers@[i as int]@[j].right < prev@.len()
                } by {
                    assert(layers[i as int][j] == self.layers@[i as int]@[j]);
                }
            }
            let cur = apply_layer(&self.layers[i], prev, width);
            let ghost before = layer_outputs(layers, input, k as nat);
            proof {
                assert(before.last() == before[k as int]);
                assert(layers.len() - (k + 1) == i);
                assert(next_width(vals(prev@).len()) == width);
                assert(layer_outputs(layers, input, (k + 1) as nat) == before.push(vals(cur@)));
            }
            proof {
                lemma_apply_gates_len(layers[i as int], vals(prev@), width as nat, layers[i as int].len());
                assert(cur@.len() == width);
            }
            let ghost old_outs = outs@;
            let ghost cur_vals = vals(cur@);
            outs.push(cur);
            k = k + 1;
            proof {
                assert forall|m: int| 0 <= m <= k implies vals((#[trigger] outs@[m])@) == layer_outputs(layers, input, k as nat)[m] by {
                    if m < k {
                        assert(outs@[m] == old_outs[m]);
                    } else {
                        assert(vals(outs@[m]@) == cur_vals);
                    }
                }
                assert forall|m: int| 0 <= m <= k implies (#[trigger] outs@[m])@.len() == pow2(
                    layer_arity((n_layers - m) as nat, n_layers as nat),
                ) by {
                    if m < k {
                        assert(outs@[m] == old_outs[m]);
                    }
                }
                if k < n_layers {
                    lemma_pow2_pos(i as nat);
                    assert(i >= 1);
                }
            }
        }
        outs
    }
}

impl Circuit {
    /// The values of layer `layer_id` (the input when it equals the number
    /// of layers) as a multilinear polynomial.
    pub fn get_layer_poly(&self, layer_id: usize, input_layer: Vec<Scalar>) -> (r: MultilinearPoly)
        requires
            valid_circuit(self.gates(), input_layer@.len()),
            layer_id <= self.layers@.len(),
        ensures
            r.wf(),
            r.n_vars == layer_arity(layer_id as nat, self.layers@.len() as nat),
            r.table() == layer_outputs(
                self.gates(),
                vals(input_layer@),
                self.layers@.len() as nat,
            )[self.layers@.len() - layer_id],
    {
        let n_layers = self.layers.len();
        let evals = self.eval(input_layer);
        let layer_eval = copy_scalars(evals[n_layers - layer_id].as_slice());
        let n = if layer_id == n_layers {
            n_layers
        } else if layer_id == 0 {
            1
        } else {
            layer_id
        };
        MultilinearPoly::new(layer_eval, n)
    }
}

/// The bits of the output index in layer `i`'s wiring tables.
pub open spec fn output_bits(i: nat) -> nat {
    if i == 0 {
        1
    } else {
        i
    }
}

/// The wiring tables of layer `i` fit in memory.
pub open spec fn wiring_fits(i: nat) -> bool {
    pow2(output_bits(i) + 2 * (i + 1)) <= usize::MAX
}

proof fn lemma_wiring_index_bound(g: Gate, a: nat, b: nat)
    requires
        g.output < pow2(a),
        g.left < pow2(b),
        g.right < pow2(b),
    ensures
        0 <= wiring_index(g, b) < pow2(a + 2 * b),
{
    let pa = pow2(a) as int;
    let pb = pow2(b) as int;
    lemma_pow2_adds(b, b);
    lemma_pow2_adds(a, 2 * b);
    lemma_pow2_pos(b);
    assert(pow2(2 * b) == pb * pb);
    assert(g.left * pb + g.right < pb * pb) by (nonlinear_arith)
        requires
            0 <= g.left < pb,
            0 <= g.right < pb,
    ;
    assert(g.output * (pb * pb) + (pb * pb) <= pa * (pb * pb)) by (nonlinear_arith)
        requires
            0 <= g.output < pa,
            pb > 0,
    ;
    assert(g.output * (pb * pb) >= 0 && g.left * pb >= 0) by (nonlinear_arith)
        requires
            g.output >= 0,
            g.left >= 0,
            pb > 0,
    ;
}

impl Circuit {
    /// The wiring table of the gates of `op` in layer `layer_id`: one at
    /// `(output, left, right)`, the output in `max(layer_id, 1)` bits and the
    /// inputs in `layer_id + 1` bits each.
    pub fn add_mul_i(&self, layer_id: usize, op: Op) -> (r: MultilinearPoly)
        requires
            layer_id < self.layers@.len(),
            gates_fit(self.gates()),
            wiring_fits(layer_id as nat),
        ensures
            r.wf(),
            r.n_vars == output_bits(layer_id as nat) + 2 * (layer_id + 1),
            r.table() == wiring_table(
                self.gates()[layer_id as int],
                op,
                output_bits(layer_id as nat),
                (layer_id + 1) as nat,
            ),
    {
        let layer = &self.layers[layer_id];
        let ghost gates = layer@;
        let a: usize = if layer_id == 0 {
            1
        } else {
            layer_id
        };
        proof {
            lemma2_to64();
            let e = output_bits(layer_id as nat) + 2 * (layer_id + 1);
            if e > 64 {
                lemma_pow2_strictly_increases(64, e as nat);
            }
        }
        let b: usize = layer_id + 1;
        proof {
            lemma_pow2_adds(b as nat, b as nat);
            lemma_pow2_adds(a as nat, 2 * b as nat);
            lemma_pow2_pos(a as nat);
            lemma_pow2_pos(b as nat);
            lemma_pow2_pos(2 * b as nat);
            assert(pow2(b as nat) <= pow2(2 * b as nat)) by {
                if b < 2 * b {
                    lemma_pow2_strictly_increases(b as nat, 2 * b as nat);
                }
            }
            assert(pow2(2 * b as nat) <= pow2((a + 2 * b) as nat)) by {
                lemma_pow2_strictly_increases(2 * b as nat, (a + 2 * b) as nat);
            }
            assert(self.gates()[layer_id as int] == gates);
        }
        let n_vars = a + 2 * b;
        let size = pow2_usize(n_vars);
        let pb = pow2_usize(b);
        let pbb = pow2_usize(2 * b);
        let mut evals = zeros(size);
        let mut j: usize = 0;
        while j < layer.len()
            invariant
                j <= gates.len(),
                gates == layer@,
                gates == self.gates()[layer_id as int],
                gates_fit(self.gates()),
                layer_id < self.layers@.len(),
                a == output_bits(layer_id as nat),
                b == layer_id + 1,
                size == pow2((a + 2 * b) as nat),
                pb == pow2(b as nat),
                pbb == pow2(2 * b as nat),
                evals@.len() == size,
                forall|idx: int|
                    0 <= idx < size ==> (#[trigger] evals@[idx]).val() == if exists|m: int|
                        0 <= m < j && (#[trigger] gates[m]).op == op && wiring_index(gates[m], b as nat)
                            == idx {
                        1int
                    } else {
                        0int
                    },
            decreases gates.len() - j,
        {
            let g = layer[j];
            proof {
                assert(self.gates()[layer_id as int][j as int] == g);
                lemma_wiring_index_bound(g, a as nat, b as nat);
            }
            if g.op == op {
                let index = g.output * pbb + g.left * pb + g.right;
                evals.set(index, Scalar::one());
                proof {
                    assert forall|idx: int| 0 <= idx < size implies (#[trigger] evals@[idx]).val() == if exists|m: int|
                        0 <= m < j + 1 && (#[trigger] gates[m]).op == op && wiring_index(gates[m], b as nat)
                            == idx {
                        1int
                    } else {
                        0int
                    } by {
                        if idx == index {
                            assert(gates[j as int].op == op && wiring_index(gates[j as int], b as nat) == idx);
                        }
                    }
                }
            } else {
                proof {
                    assert forall|idx: int| 0 <= idx < size implies (#[trigger] evals@[idx]).val() == if exists|m: int|
                        0 <= m < j + 1 && (#[trigger] gates[m]).op == op && wiring_index(gates[m], b as nat)
                            == idx {
                        1int
                    } else {
                        0int
                    } by {
                        if exists|m: int| 0 <= m < j + 1 && (#[trigger] gates[m]).op == op && wiring_index(gates[m], b as nat) == idx {
                            let m = choose|m: int| 0 <= m < j + 1 && (#[trigger] gates[m]).op == op && wiring_index(gates[m], b as nat) == idx;
                            assert(m < j);
                        }
                    }
                }
            }
            j = j + 1;
        }
        proof {
            assert(vals(evals@) =~= wiring_table(gates, op, a as nat, b as nat));
        }
        MultilinearPoly::new(evals, n_vars)
    }
}

impl Circuit {
    /// `poly_1(b) op poly_2(c)` as a polynomial in the variables of `poly_1`
    /// followed by those of `poly_2`.
    pub fn w_add_mul(poly_1: &MultilinearPoly, poly_2: &MultilinearPoly, op: Op) -> (r: MultilinearPoly)
        requires
            poly_1.wf(),
            poly_2.wf(),
            pow2((poly_1.n_vars + poly_2.n_vars) as nat) <= usize::MAX,
        ensures
            r.wf(),
            r.n_vars == poly_1.n_vars + poly_2.n_vars,
            r.table() == combine_tables(poly_1.table(), poly_2.table(), op),
    {
        let m1 = poly_1.evals.len();
        let m2 = poly_2.evals.len();
        proof {
            lemma_pow2_adds(poly_1.n_vars as nat, poly_2.n_vars as nat);
            lemma_pow2_pos(poly_2.n_vars as nat);
        }
        let mut out: Vec<Scalar> = Vec::new();
        let mut i: usize = 0;
        while i < m1
            invariant
                i <= m1,
                m1 == poly_1.evals@.len(),
                m2 == poly_2.evals@.len(),
                m2 > 0,
                m1 * m2 <= usize::MAX,
                out@.len() == i * m2,
                forall|k: int|
                    0 <= k < out@.len() ==> (#[trigger] out@[k]).val() == combine_tables(
                        poly_1.table(),
                        poly_2.table(),
                        op,
                    )[k],
            decreases m1 - i,
        {
            let mut j: usize = 0;
            proof {
                assert(i * m2 + m2 <= m1 * m2) by (nonlinear_arith)
                    requires
                        i < m1,
                ;
            }
            while j < m2
                invariant
                    i < m1,
                    j <= m2,
                    m1 == poly_1.evals@.len(),
                    m2 == poly_2.evals@.len(),
                    m2 > 0,
                    i * m2 + m2 <= m1 * m2,
                    m1 * m2 <= usize::MAX,
                    out@.len() == i * m2 + j,
                    forall|k: int|
                        0 <= k < out@.len() ==> (#[trigger] out@[k]).val() == combine_tables(
                            poly_1.table(),
                            poly_2.table(),
                            op,
                        )[k],
                decreases m2 - j,
            {
                let v = match op {
                    Op::ADD => poly_1.evals[i].add(&poly_2.evals[j]),
                    Op::MUL => poly_1.evals[i].mul(&poly_2.evals[j]),
                };
                proof {
                    let k = i * m2 + j;
                    assert(k == m2 * i + j) by (nonlinear_arith)
                        requires
                            k == i * m2 + j,
                    ;
                    vstd::arithmetic::div_mod::lemma_fundamental_div_mod_converse(k as int, m2 as int, i as int, j as int);
                    assert(k < m1 * m2);
                }
                out.push(v);
                j = j + 1;
            }
            i = i + 1;
            proof {
                assert(out@.len() == i * m2) by (nonlinear_arith)
                    requires
                        out@.len() == (i - 1) * m2 + m2,
                ;
            }
        }
        proof {
            assert(vals(out@) =~= combine_tables(poly_1.table(), poly_2.table(), op));
            lemma2_to64();
            if poly_1.n_vars + poly_2.n_vars > 64 {
                lemma_pow2_strictly_increases(64, (poly_1.n_vars + poly_2.n_vars) as nat);
            }
        }
        MultilinearPoly::new(out, poly_1.n_vars + poly_2.n_vars)
    }

    /// The summand of layer `i`'s sumcheck:
    /// `add_i(b, c) (w(b) + w(c)) + mul_i(b, c) w(b) w(c)`.
    pub fn generate_fbc(add_i: MultilinearPoly, mul_i: MultilinearPoly, w_i_plus_1: &MultilinearPoly) -> (r:
        SumPoly)
        requires
            add_i.wf(),
            mul_i.wf(),
            w_i_plus_1.wf(),
            add_i.n_vars == 2 * w_i_plus_1.n_vars,
            mul_i.n_vars == 2 * w_i_plus_1.n_vars,
            pow2(2 * w_i_plus_1.n_vars as nat) <= usize::MAX,
        ensures
            r.wf(),
            r.polys@.len() == 2,
            r.arity() == 2 * w_i_plus_1.n_vars,
            r.tables() == seq![
                seq![add_i.table(), combine_tables(w_i_plus_1.table(), w_i_plus_1.table(), Op::ADD)],
                seq![mul_i.table(), combine_tables(w_i_plus_1.table(), w_i_plus_1.table(), Op::MUL)],
            ],
    {
        let w_add_bc = Self::w_add_mul(w_i_plus_1, w_i_plus_1, Op::ADD);
        let w_mul_bc = Self::w_add_mul(w_i_plus_1, w_i_plus_1, Op::MUL);
        let mut product_polys: Vec<ProductPoly> = Vec::new();
        product_polys.push(ProductPoly::new(vec![add_i, w_add_bc]));
        product_polys.push(ProductPoly::new(vec![mul_i, w_mul_bc]));
        let r = SumPoly::new(product_polys);
        proof {
            assert(r.polys@[0].tables() =~= seq![add_i.table(), combine_tables(w_i_plus_1.table(), w_i_plus_1.table(), Op::ADD)]);
            assert(r.polys@[1].tables() =~= seq![mul_i.table(), combine_tables(w_i_plus_1.table(), w_i_plus_1.table(), Op::MUL)]);
            assert(r.tables() =~= seq![
                seq![add_i.table(), combine_tables(w_i_plus_1.table(), w_i_plus_1.table(), Op::ADD)],
                seq![mul_i.table(), combine_tables(w_i_plus_1.table(), w_i_plus_1.table(), Op::MUL)],
            ]);
        }
        r
    }
}

} // verus!
