//! The GKR protocol over layered circuits: one sumcheck per layer, with the
//! two claims on each layer's values folded into one by random weights.
use crate::circuit::{
    combine_tables, Gate, layer_arity, layer_outputs, output_bits, valid_circuit, wiring_fits,
    wiring_table, Circuit, Op,
};
use crate::field::{copy_range, copy_scalars, fadd, fmul, le_bytes, seq_bytes, vals, Scalar};
use crate::multilinear::{ml_eval, partial_eval, MultilinearPoly};
use crate::sumcheck::{
    honest_partial_rounds, lemma_changed_round_rejected, lemma_honest_partial_rounds_len, lemma_prover_challenges_len, partial_prove, partial_verify, prover_challenges, prover_state, verifier_run,
    PartialProof,
};
use crate::transcript::{challenge_of, challenges_of, state_after_squeeze, state_after_squeezes, FiatShamir};
use vstd::prelude::*;

verus! {

/// The table after its most significant variables are set to `values`, in order.
pub open spec fn fix_vars(s: Seq<int>, n: nat, values: Seq<int>) -> Seq<int>
    decreases values.len(),
{
    if values.len() == 0 || n == 0 {
        s
    } else {
        fix_vars(partial_eval(s, (n - 1) as nat, values[0]), (n - 1) as nat, values.drop_first())
    }
}

/// `alpha * p|_{r_b} + beta * p|_{r_c}` for the table `s` in `n` variables.
pub open spec fn fold_table(s: Seq<int>, n: nat, alpha: int, beta: int, r_b: Seq<int>, r_c: Seq<int>) -> Seq<int> {
    let tb = fix_vars(s, n, r_b);
    let tc = fix_vars(s, n, r_c);
    Seq::new(tb.len(), |k: int| fadd(fmul(alpha, tb[k]), fmul(beta, tc[k])))
}

/// Sets the most significant variables of `p` to `values`.
fn fix_msb(p: &MultilinearPoly, values: &[Scalar]) -> (r: MultilinearPoly)
    requires
        p.wf(),
        values@.len() <= p.n_vars,
    ensures
        r.wf(),
        r.n_vars == p.n_vars - values@.len(),
        r.table() == fix_vars(p.table(), p.n_vars as nat, vals(values@)),
{
    let mut cur = p.copy();
    let ghost vs = vals(values@);
    let mut i: usize = 0;
    proof {
        assert(vs.skip(0) =~= vs);
    }
    while i < values.len()
        invariant
            i <= values@.len(),
            values@.len() <= p.n_vars,
            vs == vals(values@),
            cur.wf(),
            cur.n_vars == p.n_vars - i,
            fix_vars(cur.table(), cur.n_vars as nat, vs.skip(i as int)) == fix_vars(
                p.table(),
                p.n_vars as nat,
                vs,
            ),
        decreases values@.len() - i,
    {
        cur = cur.partial_evaluate((cur.n_vars - 1, values[i]));
        proof {
            assert(vs.skip(i as int).drop_first() =~= vs.skip(i + 1));
        }
        i = i + 1;
    }
    proof {
        assert(vs.skip(i as int) =~= Seq::<int>::empty());
    }
    cur
}

/// Sets the output variables of both wiring tables to `random_values`.
pub fn get_evaluated_muli_addi_at_a(
    muli_a_b_c: MultilinearPoly,
    addi_a_b_c: MultilinearPoly,
    random_values: Vec<Scalar>,
) -> (r: (MultilinearPoly, MultilinearPoly))
    requires
        muli_a_b_c.wf(),
        addi_a_b_c.wf(),
        random_values@.len() <= muli_a_b_c.n_vars,
        random_values@.len() <= addi_a_b_c.n_vars,
    ensures
        r.0.wf(),
        r.1.wf(),
        r.0.n_vars == muli_a_b_c.n_vars - random_values@.len(),
        r.1.n_vars == addi_a_b_c.n_vars - random_values@.len(),
        r.0.table() == fix_vars(muli_a_b_c.table(), muli_a_b_c.n_vars as nat, vals(random_values@)),
        r.1.table() == fix_vars(addi_a_b_c.table(), addi_a_b_c.n_vars as nat, vals(random_values@)),
{
    let m = fix_msb(&muli_a_b_c, random_values.as_slice());
    let a = fix_msb(&addi_a_b_c, random_values.as_slice());
    (m, a)
}

/// Folds both wiring tables: `alpha * p|_{r_b} + beta * p|_{r_c}` for each.
pub fn get_folded_polys(
    alpha: &Scalar,
    beta: &Scalar,
    muli_a_b_c: MultilinearPoly,
    addi_a_b_c: MultilinearPoly,
    r_b: &[Scalar],
    r_c: &[Scalar],
) -> (r: (MultilinearPoly, MultilinearPoly))
    requires
        muli_a_b_c.wf(),
        addi_a_b_c.wf(),
        r_b@.len() == r_c@.len(),
        r_b@.len() <= muli_a_b_c.n_vars,
        r_b@.len() <= addi_a_b_c.n_vars,
    ensures
        r.0.wf(),
        r.1.wf(),
        r.0.n_vars == muli_a_b_c.n_vars - r_b@.len(),
        r.1.n_vars == addi_a_b_c.n_vars - r_b@.len(),
        r.0.table() == fold_table(muli_a_b_c.table(), muli_a_b_c.n_vars as nat, alpha.val(), beta.val(), vals(r_b@), vals(r_c@)),
        r.1.table() == fold_table(addi_a_b_c.table(), addi_a_b_c.n_vars as nat, alpha.val(), beta.val(), vals(r_b@), vals(r_c@)),
{
    let muli_b = fix_msb(&muli_a_b_c, r_b).scalar_mul(alpha);
    let addi_b = fix_msb(&addi_a_b_c, r_b).scalar_mul(alpha);
    let muli_c = fix_msb(&muli_a_b_c, r_c).scalar_mul(beta);
    let addi_c = fix_msb(&addi_a_b_c, r_c).scalar_mul(beta);
    let m = muli_b.add(&muli_c);
    let a = addi_b.add(&addi_c);
    proof {
        let fm = fold_table(muli_a_b_c.table(), muli_a_b_c.n_vars as nat, alpha.val(), beta.val(), vals(r_b@), vals(r_c@));
        let fa = fold_table(addi_a_b_c.table(), addi_a_b_c.n_vars as nat, alpha.val(), beta.val(), vals(r_b@), vals(r_c@));
        assert(m.table() =~= fm);
        assert(a.table() =~= fa);
    }
    (m, a)
}

/// The folded claim `alpha * w_b + beta * w_c`.
pub fn get_folded_claim_sum(alpha: &Scalar, beta: &Scalar, w_i_b_eval: &Scalar, w_i_c_eval: &Scalar) -> (r: Scalar)
    ensures
        r.val() == fadd(fmul(alpha.val(), w_i_b_eval.val()), fmul(beta.val(), w_i_c_eval.val())),
{
    alpha.mul(w_i_b_eval).add(&beta.mul(w_i_c_eval))
}

/// A GKR proof: the output layer, the claimed values of each inner layer at
/// the two halves of the previous challenges, and one sumcheck per layer.
pub struct GKRProof {
    pub output_poly: MultilinearPoly,
    pub w_poly_evals: Vec<(Scalar, Scalar)>,
    pub sumcheck_proofs: Vec<PartialProof>,
}

impl GKRProof {
    pub fn new(
        output_poly: MultilinearPoly,
        w_poly_evals: Vec<(Scalar, Scalar)>,
        sumcheck_proofs: Vec<PartialProof>,
    ) -> (r: GKRProof)
        ensures
            r.output_poly == output_poly,
            r.w_poly_evals@ == w_poly_evals@,
            r.sumcheck_proofs@ == sumcheck_proofs@,
    {
        GKRProof { output_poly, w_poly_evals, sumcheck_proofs }
    }
}

/// The values of layer `i` of the circuit `g` on `input`, as a table.
pub open spec fn layer_table(g: Seq<Seq<Gate>>, input: Seq<int>, i: nat) -> Seq<int> {
    layer_outputs(g, input, g.len())[g.len() - i]
}

/// Every layer's wiring tables fit in memory.
pub open spec fn all_wiring_fits(n_layers: nat) -> bool {
    forall|i: nat| i < n_layers ==> #[trigger] wiring_fits(i)
}

/// What an honest prover sends for layers `i` onward, `rv` being the
/// previous challenges and `st` the transcript input: the values of each
/// inner layer at the halves of the previous challenges, the claim each
/// sumcheck starts from, and each sumcheck's round polynomials.
pub open spec fn honest_layers(g: Seq<Seq<Gate>>, input: Seq<int>, i: nat, rv: Seq<int>, st: Seq<u8>) -> (
    Seq<(int, int)>,
    Seq<int>,
    Seq<Seq<Seq<int>>>,
)
    decreases g.len() - i,
{
    if i >= g.len() {
        (Seq::empty(), Seq::empty(), Seq::empty())
    } else {
        let a = output_bits(i);
        let b = i + 1;
        let n = a + 2 * b;
        let add_t = wiring_table(g[i as int], Op::ADD, a, b);
        let mul_t = wiring_table(g[i as int], Op::MUL, a, b);
        let w = layer_table(g, input, i);
        let half = rv.len() / 2;
        let wb = ml_eval(w, i, rv.take(half as int));
        let wc = ml_eval(w, i, rv.skip(half as int));
        let st_a = st + le_bytes(wb) + le_bytes(wc);
        let alpha = challenge_of(st_a);
        let beta = challenge_of(state_after_squeeze(st_a));
        let st1 = if i == 0 {
            st
        } else {
            state_after_squeeze(state_after_squeeze(st_a))
        };
        let add_bc = if i == 0 {
            fix_vars(add_t, n, rv)
        } else {
            fold_table(add_t, n, alpha, beta, rv.take(half as int), rv.skip(half as int))
        };
        let mul_bc = if i == 0 {
            fix_vars(mul_t, n, rv)
        } else {
            fold_table(mul_t, n, alpha, beta, rv.take(half as int), rv.skip(half as int))
        };
        let claim = if i == 0 {
            ml_eval(w, 1, rv)
        } else {
            fadd(fmul(alpha, wb), fmul(beta, wc))
        };
        let w_next = layer_table(g, input, i + 1);
        let tss = seq![
            seq![add_bc, combine_tables(w_next, w_next, Op::ADD)],
            seq![mul_bc, combine_tables(w_next, w_next, Op::MUL)],
        ];
        let rounds = honest_partial_rounds(tss, 2 * b, st1);
        let rest = honest_layers(
            g,
            input,
            i + 1,
            prover_challenges(rounds, st1),
            prover_state(rounds, st1),
        );
        (
            if i == 0 {
                rest.0
            } else {
                seq![(wb, wc)] + rest.0
            },
            seq![claim] + rest.1,
            seq![rounds] + rest.2,
        )
    }
}

pub struct GKRProver {}

impl GKRProver {
    /// Proves the evaluation of `circuit` on `input_layer`.
    pub fn prove(input_layer: &[Scalar], circuit: &Circuit, transcript: &mut FiatShamir) -> (r: GKRProof)
        requires
            valid_circuit(circuit.gates(), input_layer@.len()),
            all_wiring_fits(circuit.layers@.len() as nat),
        ensures
            r.output_poly.wf(),
            r.output_poly.n_vars == 1,
            r.output_poly.table() == layer_table(circuit.gates(), vals(input_layer@), 0),
            r.sumcheck_proofs@.len() == circuit.layers@.len(),
            r.w_poly_evals@.len() == circuit.layers@.len() - 1,
            forall|k: int|
                0 <= k < r.sumcheck_proofs@.len() ==> {
                    &&& (#[trigger] r.sumcheck_proofs@[k]).rounds().len() == 2 * (k + 1)
                    &&& r.sumcheck_proofs@[k].rand_challenges@.len() == 2 * (k + 1)
                },
            r.sumcheck_proofs@[0].initial_claimed_sum.val() == ml_eval(
                layer_table(circuit.gates(), vals(input_layer@), 0),
                1,
                challenges_of(old(transcript)@ + seq_bytes(layer_table(circuit.gates(), vals(input_layer@), 0)), 1),
            ),
            forall|k: int|
                1 <= k < circuit.layers@.len() ==> {
                    let rc = vals(r.sumcheck_proofs@[k - 1].rand_challenges@);
                    let w = layer_table(circuit.gates(), vals(input_layer@), k as nat);
                    &&& (#[trigger] r.w_poly_evals@[k - 1]).0.val() == ml_eval(w, k as nat, rc.take(k))
                    &&& r.w_poly_evals@[k - 1].1.val() == ml_eval(w, k as nat, rc.skip(k))
                },
            ({
                let w0 = layer_table(circuit.gates(), vals(input_layer@), 0);
                let st = old(transcript)@ + seq_bytes(w0);
                let t = honest_layers(
                    circuit.gates(),
                    vals(input_layer@),
                    0,
                    challenges_of(st, 1),
                    state_after_squeezes(st, 1),
                );
                &&& r.w_evals() == t.0
                &&& r.claims() == t.1
                &&& r.rounds() == t.2
            }),
    {
        let layer_count = circuit.get_layer_count();
        let ghost g = circuit.gates();
        let ghost input = vals(input_layer@);
        let mut w_poly_evals: Vec<(Scalar, Scalar)> = Vec::new();
        let mut sumcheck_proofs: Vec<PartialProof> = Vec::new();
        let output_poly = circuit.get_layer_poly(0, copy_scalars(input_layer));
        let mut running_layer_poly = output_poly.copy();
        let length_of_rs = output_poly.n_vars;
        let ob = running_layer_poly.to_bytes();
        transcript.absorb(ob.as_slice());
        let ghost absorbed = transcript@;
        let mut random_values: Vec<Scalar> = transcript.squeeze_n(length_of_rs);
        let ghost r0 = vals(random_values@);
        let ghost total = honest_layers(g, input, 0, r0, transcript@);
        proof {
            assert(w_poly_evals@.map_values(|e: (Scalar, Scalar)| (e.0.val(), e.1.val())) + total.0 =~= total.0);
            assert(sumcheck_proofs@.map_values(|p: PartialProof| p.initial_claimed_sum.val()) + total.1 =~= total.1);
            assert(sumcheck_proofs@.map_values(|p: PartialProof| p.rounds()) + total.2 =~= total.2);
            assert(absorbed =~= old(transcript)@ + seq_bytes(layer_table(g, input, 0)));
            let st1 = old(transcript)@ + seq_bytes(layer_table(g, input, 0));
            assert(challenges_of(state_after_squeeze(st1), 0).len() == 0);
            assert(challenges_of(st1, 1) == seq![challenge_of(st1)] + challenges_of(state_after_squeeze(st1), 0));
            assert(r0 == challenges_of(st1, 1));
            assert(r0.len() == 1);
        }
        let mut layer_i: usize = 0;
        while layer_i < layer_count
            invariant
                layer_i <= layer_count,
                layer_count == circuit.layers@.len(),
                g == circuit.gates(),
                input == vals(input_layer@),
                valid_circuit(g, input_layer@.len()),
                all_wiring_fits(layer_count as nat),
                output_poly.wf(),
                output_poly.n_vars == 1,
                output_poly.table() == layer_table(g, input, 0),
                r0 == challenges_of(old(transcript)@ + seq_bytes(layer_table(g, input, 0)), 1),
                running_layer_poly.wf(),
                running_layer_poly.n_vars == layer_arity(layer_i as nat, layer_count as nat),
                running_layer_poly.table() == layer_table(g, input, layer_i as nat),
                layer_i == 0 ==> vals(random_values@) == r0,
                layer_i > 0 ==> vals(random_values@) == vals(sumcheck_proofs@[layer_i - 1].rand_challenges@),
                random_values@.len() == if layer_i == 0 {
                    1
                } else {
                    2 * layer_i
                },
                sumcheck_proofs@.len() == layer_i,
                w_poly_evals@.len() == if layer_i == 0 {
                    0
                } else {
                    layer_i - 1
                },
                forall|k: int|
                    0 <= k < sumcheck_proofs@.len() ==> {
                        &&& (#[trigger] sumcheck_proofs@[k]).rounds().len() == 2 * (k + 1)
                        &&& sumcheck_proofs@[k].rand_challenges@.len() == 2 * (k + 1)
                    },
                layer_i > 0 ==> sumcheck_proofs@[0].initial_claimed_sum.val() == ml_eval(
                    layer_table(g, input, 0),
                    1,
                    r0,
                ),
                forall|k: int|
                    1 <= k < layer_i ==> {
                        let rc = vals(sumcheck_proofs@[k - 1].rand_challenges@);
                        let w = layer_table(g, input, k as nat);
                        &&& (#[trigger] w_poly_evals@[k - 1]).0.val() == ml_eval(w, k as nat, rc.take(k))
                        &&& w_poly_evals@[k - 1].1.val() == ml_eval(w, k as nat, rc.skip(k))
                    },
                total == honest_layers(g, input, 0, r0, state_after_squeezes(old(transcript)@ + seq_bytes(layer_table(g, input, 0)), 1)),
                ({
                    let t = honest_layers(g, input, layer_i as nat, vals(random_values@), transcript@);
                    &&& w_poly_evals@.map_values(|e: (Scalar, Scalar)| (e.0.val(), e.1.val())) + t.0 == total.0
                    &&& sumcheck_proofs@.map_values(|p: PartialProof| p.initial_claimed_sum.val()) + t.1 == total.1
                    &&& sumcheck_proofs@.map_values(|p: PartialProof| p.rounds()) + t.2 == total.2
                }),
            decreases layer_count - layer_i,
        {
            proof {
                assert(wiring_fits(layer_i as nat));
            }
            let ghost st_old = transcript@;
            let ghost rv_old = vals(random_values@);
            let ghost i_old = layer_i as nat;
            let ghost t_old = honest_layers(g, input, i_old, rv_old, st_old);
            let ghost mut gwb: int = 0;
            let ghost mut gwc: int = 0;
            let muli_a_b_c = circuit.add_mul_i(layer_i, Op::MUL);
            let addi_a_b_c = circuit.add_mul_i(layer_i, Op::ADD);
            let claimed_sum;
            let new_muli_b_c;
            let new_addi_b_c;
            if layer_i == 0 {
                let (m, a) = get_evaluated_muli_addi_at_a(muli_a_b_c, addi_a_b_c, copy_scalars(random_values.as_slice()));
                claimed_sum = running_layer_poly.evaluate(&random_values);
                new_muli_b_c = m;
                new_addi_b_c = a;
            } else {
                let half = random_values.len() / 2;
                let r_b = copy_range(random_values.as_slice(), 0, half);
                let r_c = copy_range(random_values.as_slice(), half, random_values.len());
                let w_i_b_eval = running_layer_poly.evaluate(&r_b);
                let w_i_c_eval = running_layer_poly.evaluate(&r_c);
                let parts: Vec<Vec<u8>> = vec![w_i_b_eval.to_bytes(), w_i_c_eval.to_bytes()];
                transcript.absorb_n(parts.as_slice());
                proof {
                    gwb = w_i_b_eval.val();
                    gwc = w_i_c_eval.val();
                    let e = Seq::<Seq<u8>>::empty();
                    let one = e.push(le_bytes(gwb));
                    e.lemma_flatten_push(le_bytes(gwb));
                    one.lemma_flatten_push(le_bytes(gwc));
                    assert(parts@.map_values(|b: Vec<u8>| b@) =~= one.push(le_bytes(gwc)));
                    assert(e.flatten() =~= Seq::<u8>::empty());
                    assert(transcript@ =~= st_old + le_bytes(gwb) + le_bytes(gwc));
                }
                let alpha = transcript.squeeze();
                let beta = transcript.squeeze();
                let (m, a) = get_folded_polys(&alpha, &beta, muli_a_b_c, addi_a_b_c, r_b.as_slice(), r_c.as_slice());
                proof {
                    let rc = vals(sumcheck_proofs@[layer_i - 1].rand_challenges@);
                    assert(vals(r_b@) =~= rc.take(layer_i as int));
                    assert(vals(r_c@) =~= rc.skip(layer_i as int));
                    assert(vals(r_b@) =~= rv_old.take(half as int));
                    assert(vals(r_c@) =~= rv_old.skip(half as int));
                }
                w_poly_evals.push((w_i_b_eval, w_i_c_eval));
                claimed_sum = get_folded_claim_sum(&alpha, &beta, &w_i_b_eval, &w_i_c_eval);
                new_muli_b_c = m;
                new_addi_b_c = a;
            }
            let next_w_i = circuit.get_layer_poly(layer_i + 1, copy_scalars(input_layer));
            proof {
                assert(next_w_i.n_vars == layer_i + 1);
                vstd::arithmetic::power2::lemma_pow2_strictly_increases(
                    (2 * (layer_i + 1)) as nat,
                    (output_bits(layer_i as nat) + 2 * (layer_i + 1)) as nat,
                );
            }
            let f_bc = Circuit::generate_fbc(new_addi_b_c, new_muli_b_c, &next_w_i);
            let ghost st = transcript@;
            let sumcheck_proof = partial_prove(&f_bc, claimed_sum, transcript);
            proof {
                lemma_honest_partial_rounds_len(f_bc.tables(), f_bc.arity(), st);
                lemma_prover_challenges_len(sumcheck_proof.rounds(), st);
                let a_bits = output_bits(i_old);
                let b = i_old + 1;
                let n = a_bits + 2 * b;
                let add_t = wiring_table(g[i_old as int], Op::ADD, a_bits, b);
                let mul_t = wiring_table(g[i_old as int], Op::MUL, a_bits, b);
                assert(addi_a_b_c.table() == add_t);
                assert(muli_a_b_c.table() == mul_t);
                assert(next_w_i.table() == layer_table(g, input, i_old + 1));
                if i_old > 0 {
                    assert(running_layer_poly.n_vars == i_old);
                }
            }
            random_values = copy_scalars(sumcheck_proof.rand_challenges.as_slice());
            running_layer_poly = next_w_i;
            let ghost old_proofs = sumcheck_proofs@;
            let ghost old_w = w_poly_evals@;
            sumcheck_proofs.push(sumcheck_proof);
            layer_i = layer_i + 1;
            proof {
                assert forall|k: int| 0 <= k < sumcheck_proofs@.len() implies {
                    &&& (#[trigger] sumcheck_proofs@[k]).rounds().len() == 2 * (k + 1)
                    &&& sumcheck_proofs@[k].rand_challenges@.len() == 2 * (k + 1)
                } by {
                    if k < layer_i - 1 {
                        assert(sumcheck_proofs@[k] == old_proofs[k]);
                    }
                }
                assert forall|k: int| 1 <= k < layer_i implies {
                    let rc = vals(sumcheck_proofs@[k - 1].rand_challenges@);
                    let w = layer_table(g, input, k as nat);
                    &&& (#[trigger] w_poly_evals@[k - 1]).0.val() == ml_eval(w, k as nat, rc.take(k))
                    &&& w_poly_evals@[k - 1].1.val() == ml_eval(w, k as nat, rc.skip(k))
                } by {
                    assert(sumcheck_proofs@[k - 1] == old_proofs[k - 1]);
                }
            }
        }
        GKRProof::new(output_poly, w_poly_evals, sumcheck_proofs)
    }
}

/// Whether the verifier accepts layers `i` onward, `rv` being the previous
/// challenges and `st` the transcript input. Layer `i`'s wiring tables are
/// taken at `rv` (layer 0) or folded at the halves of `rv` with two fresh
/// challenges; its sumcheck must start from the claim so obtained (the
/// output layer's value at the first challenges for layer 0, `alpha w_b +
/// beta w_c` for the values claimed for layer `i` otherwise), run every
/// round, and end at the summand's value at the challenges.
pub open spec fn layers_accept(
    g: Seq<Seq<Gate>>,
    input: Seq<int>,
    out: Seq<int>,
    w_evals: Seq<(int, int)>,
    rounds: Seq<Seq<Seq<int>>>,
    claims: Seq<int>,
    i: nat,
    rv: Seq<int>,
    st: Seq<u8>,
) -> bool
    decreases g.len() - i,
{
    if i >= g.len() {
        true
    } else {
        let a = output_bits(i);
        let b = i + 1;
        let n = a + 2 * b;
        let add_t = wiring_table(g[i as int], Op::ADD, a, b);
        let mul_t = wiring_table(g[i as int], Op::MUL, a, b);
        let alpha = challenge_of(st);
        let beta = challenge_of(state_after_squeeze(st));
        let st1 = if i == 0 {
            st
        } else {
            state_after_squeeze(state_after_squeeze(st))
        };
        let half = rv.len() / 2;
        let add_bc = if i == 0 {
            fix_vars(add_t, n, rv)
        } else {
            fold_table(add_t, n, alpha, beta, rv.take(half as int), rv.skip(half as int))
        };
        let mul_bc = if i == 0 {
            fix_vars(mul_t, n, rv)
        } else {
            fold_table(mul_t, n, alpha, beta, rv.take(half as int), rv.skip(half as int))
        };
        let expected = if i == 0 {
            ml_eval(out, 1, rv)
        } else {
            fadd(fmul(alpha, w_evals[i - 1].0), fmul(beta, w_evals[i - 1].1))
        };
        let run = verifier_run(rounds[i as int], claims[i as int], st1);
        let chals = run.0;
        let add_v = ml_eval(add_bc, 2 * b, chals);
        let mul_v = ml_eval(mul_bc, 2 * b, chals);
        let wb = if i + 1 == g.len() {
            ml_eval(input, g.len(), chals.take(b as int))
        } else {
            w_evals[i as int].0
        };
        let wc = if i + 1 == g.len() {
            ml_eval(input, g.len(), chals.skip(b as int))
        } else {
            w_evals[i as int].1
        };
        let st2 = run.2 + le_bytes(wb) + le_bytes(wc);
        &&& claims[i as int] == expected
        &&& chals.len() == 2 * b
        &&& fadd(fmul(add_v, fadd(wb, wc)), fmul(mul_v, fmul(wb, wc))) == run.1
        &&& layers_accept(g, input, out, w_evals, rounds, claims, i + 1, chals, st2)
    }
}

impl GKRProof {
    /// The round polynomials of each layer's sumcheck.
    pub open spec fn rounds(&self) -> Seq<Seq<Seq<int>>> {
        self.sumcheck_proofs@.map_values(|p: PartialProof| p.rounds())
    }

    /// The claim each layer's sumcheck starts from.
    pub open spec fn claims(&self) -> Seq<int> {
        self.sumcheck_proofs@.map_values(|p: PartialProof| p.initial_claimed_sum.val())
    }

    /// The claimed values of the inner layers.
    pub open spec fn w_evals(&self) -> Seq<(int, int)> {
        self.w_poly_evals@.map_values(|e: (Scalar, Scalar)| (e.0.val(), e.1.val()))
    }

    /// One sumcheck per layer, with `2 (i + 1)` non-empty round polynomials
    /// for layer `i`, claimed values for the inner layers, and an output
    /// layer in one variable.
    pub open spec fn well_shaped(&self, n_layers: nat) -> bool {
        &&& self.sumcheck_proofs@.len() == n_layers
        &&& self.w_poly_evals@.len() + 1 >= n_layers
        &&& self.output_poly.n_vars == 1
        &&& self.output_poly.wf()
        &&& forall|k: int|
            0 <= k < n_layers ==> (#[trigger] self.sumcheck_proofs@[k]).round_polys@.len() == 2 * (k + 1)
        &&& forall|k: int, j: int|
            0 <= k < n_layers && 0 <= j < self.sumcheck_proofs@[k].round_polys@.len()
                ==> (#[trigger] self.sumcheck_proofs@[k].round_polys@[j]).coefficients@.len() > 0
    }
}

/// Whether the verifier accepts `proof` for the circuit `g` on `input`,
/// starting from transcript input `st`.
pub open spec fn gkr_accepts(g: Seq<Seq<Gate>>, input: Seq<int>, proof: GKRProof, st: Seq<u8>) -> bool {
    let st0 = st + seq_bytes(proof.output_poly.table());
    &&& proof.well_shaped(g.len())
    &&& layers_accept(
        g,
        input,
        proof.output_poly.table(),
        proof.w_evals(),
        proof.rounds(),
        proof.claims(),
        0,
        challenges_of(st0, 1),
        state_after_squeezes(st0, 1),
    )
}

/// Checks the shape of a proof against a circuit of `n_layers` layers.
fn check_shape(proof: &GKRProof, n_layers: usize) -> (r: bool)
    ensures
        r == proof.well_shaped(n_layers as nat),
{
    proof {
        vstd::arithmetic::power2::lemma2_to64();
    }
    if proof.sumcheck_proofs.len() != n_layers || (n_layers > 0 && proof.w_poly_evals.len()
        < n_layers - 1) || proof.output_poly.n_vars != 1 || proof.output_poly.evals.len() != 2 {
        return false;
    }
    let mut k: usize = 0;
    while k < n_layers
        invariant
            k <= n_layers,
            proof.sumcheck_proofs@.len() == n_layers,
            forall|m: int|
                0 <= m < k ==> (#[trigger] proof.sumcheck_proofs@[m]).round_polys@.len() == 2 * (m + 1),
            forall|m: int, j: int|
                0 <= m < k && 0 <= j < proof.sumcheck_proofs@[m].round_polys@.len()
                    ==> (#[trigger] proof.sumcheck_proofs@[m].round_polys@[j]).coefficients@.len() > 0,
        decreases n_layers - k,
    {
        let rp = &proof.sumcheck_proofs[k].round_polys;
        let len = rp.len();
        if k >= usize::MAX / 2 || len != 2 * (k + 1) {
            proof {
                assert(proof.sumcheck_proofs@[k as int].round_polys@.len() != 2 * (k + 1));
            }
            return false;
        }
        let mut j: usize = 0;
        while j < rp.len()
            invariant
                j <= rp@.len(),
                k < n_layers,
                proof.sumcheck_proofs@.len() == n_layers,
                rp@ == proof.sumcheck_proofs@[k as int].round_polys@,
                forall|t: int| 0 <= t < j ==> (#[trigger] rp@[t]).coefficients@.len() > 0,
            decreases rp@.len() - j,
        {
            if rp[j].coefficients.len() == 0 {
                proof {
                    assert(proof.sumcheck_proofs@[k as int].round_polys@[j as int].coefficients@.len() == 0);
                    assert(0 <= j < proof.sumcheck_proofs@[k as int].round_polys@.len());
                    assert(!proof.well_shaped(n_layers as nat));
                }
                return false;
            }
            j = j + 1;
        }
        k = k + 1;
    }
    true
}

pub struct GKRVerifier {}

impl GKRVerifier {
    /// Checks `proof` for `circuit` on `input_layer`. A proof of the wrong
    /// shape, or whose sumcheck for a layer stops before its last round, is
    /// rejected.
    pub fn verify(input_layer: &[Scalar], circuit: &Circuit, transcript: &mut FiatShamir, proof: GKRProof) -> (r:
        bool)
        requires
            valid_circuit(circuit.gates(), input_layer@.len()),
            all_wiring_fits(circuit.layers@.len() as nat),
        ensures
            r == gkr_accepts(circuit.gates(), vals(input_layer@), proof, old(transcript)@),
    {
        let layer_count = circuit.get_layer_count();
        if !check_shape(&proof, layer_count) {
            return false;
        }
        let ghost g = circuit.gates();
        let ghost input = vals(input_layer@);
        let ghost st_out = old(transcript)@ + seq_bytes(proof.output_poly.table());
        let ob = proof.output_poly.to_bytes();
        transcript.absorb(ob.as_slice());
        proof {
            assert(transcript@ =~= st_out);
        }
        let mut random_values: Vec<Scalar> = transcript.squeeze_n(proof.output_poly.n_vars);
        proof {
            let st1 = st_out;
            assert(challenges_of(state_after_squeeze(st1), 0).len() == 0);
            assert(challenges_of(st1, 1) == seq![challenge_of(st1)] + challenges_of(state_after_squeeze(st1), 0));
        }
        let input_poly = MultilinearPoly::new(copy_scalars(input_layer), layer_count);
        let mut ok = true;
        let mut layer_i: usize = 0;
        while layer_i < layer_count && ok
            invariant
                layer_i <= layer_count,
                layer_count == circuit.layers@.len(),
                g == circuit.gates(),
                input == vals(input_layer@),
                valid_circuit(g, input_layer@.len()),
                all_wiring_fits(layer_count as nat),
                proof.well_shaped(layer_count as nat),
                input_poly.wf(),
                input_poly.n_vars == layer_count,
                input_poly.table() == input,
                ok ==> random_values@.len() == if layer_i == 0 {
                    1
                } else {
                    2 * layer_i
                },
                ok ==> gkr_accepts(g, input, proof, old(transcript)@) == layers_accept(
                    g,
                    input,
                    proof.output_poly.table(),
                    proof.w_evals(),
                    proof.rounds(),
                    proof.claims(),
                    layer_i as nat,
                    vals(random_values@),
                    transcript@,
                ),
                !ok ==> !gkr_accepts(g, input, proof, old(transcript)@),
            decreases layer_count - layer_i,
        {
            proof {
                assert(wiring_fits(layer_i as nat));
            }
            let muli_a_b_c = circuit.add_mul_i(layer_i, Op::MUL);
            let addi_a_b_c = circuit.add_mul_i(layer_i, Op::ADD);
            let ghost st = transcript@;
            let ghost rv = vals(random_values@);
            let new_muli_b_c;
            let new_addi_b_c;
            let expected;
            if layer_i == 0 {
                let (m, a) = get_evaluated_muli_addi_at_a(muli_a_b_c, addi_a_b_c, copy_scalars(random_values.as_slice()));
                new_muli_b_c = m;
                new_addi_b_c = a;
                proof {
                    vstd::arithmetic::power2::lemma2_to64();
                }
                expected = proof.output_poly.evaluate(&random_values);
            } else {
                let alpha = transcript.squeeze();
                let beta = transcript.squeeze();
                let w = proof.w_poly_evals[layer_i - 1];
                proof {
                    assert(proof.w_evals()[layer_i - 1] == (w.0.val(), w.1.val()));
                }
                expected = get_folded_claim_sum(&alpha, &beta, &w.0, &w.1);
                let half = random_values.len() / 2;
                let r_b = copy_range(random_values.as_slice(), 0, half);
                let r_c = copy_range(random_values.as_slice(), half, random_values.len());
                proof {
                    assert(vals(r_b@) =~= rv.take(half as int));
                    assert(vals(r_c@) =~= rv.skip(half as int));
                }
                let (m, a) = get_folded_polys(&alpha, &beta, muli_a_b_c, addi_a_b_c, r_b.as_slice(), r_c.as_slice());
                new_muli_b_c = m;
                new_addi_b_c = a;
            }
            let ghost st1 = transcript@;
            let sp = &proof.sumcheck_proofs[layer_i];
            proof {
                assert(sp.rounds() == proof.rounds()[layer_i as int]);
                assert(sp.initial_claimed_sum.val() == proof.claims()[layer_i as int]);
                assert forall|k: int| 0 <= k < sp.round_polys@.len() implies (#[trigger] sp.round_polys@[k]).coefficients@.len() > 0 by {
                    assert(proof.sumcheck_proofs@[layer_i as int].round_polys@[k].coefficients@.len() > 0);
                }
            }
            if !sp.initial_claimed_sum.equals(&expected) {
                ok = false;
            } else {
            let (challenges, claimed_sum) = partial_verify(sp, transcript);
            let b = layer_i + 1;
            if challenges.len() != 2 * b {
                ok = false;
            } else {
                let m_eval = new_muli_b_c.evaluate(&challenges);
                let a_eval = new_addi_b_c.evaluate(&challenges);
                let wb;
                let wc;
                if layer_i + 1 == layer_count {
                    let r_b = copy_range(challenges.as_slice(), 0, b);
                    let r_c = copy_range(challenges.as_slice(), b, challenges.len());
                    proof {
                        assert(vals(r_b@) =~= vals(challenges@).take(b as int));
                        assert(vals(r_c@) =~= vals(challenges@).skip(b as int));
                    }
                    wb = input_poly.evaluate(&r_b);
                    wc = input_poly.evaluate(&r_c);
                } else {
                    let e = proof.w_poly_evals[layer_i];
                    wb = e.0;
                    wc = e.1;
                    proof {
                        assert(proof.w_evals()[layer_i as int] == (wb.val(), wc.val()));
                    }
                }
                let wbb = wb.to_bytes();
                let wcb = wc.to_bytes();
                transcript.absorb(wbb.as_slice());
                transcript.absorb(wcb.as_slice());
                let fbc_eval = a_eval.mul(&wb.add(&wc)).add(&m_eval.mul(&wb.mul(&wc)));
                if !fbc_eval.equals(&claimed_sum) {
                    ok = false;
                }
                random_values = challenges;
            }
            }
            layer_i = layer_i + 1;
        }
        ok
    }
}

/// Layers from `l` on that were accepted are rejected once one coefficient of
/// one round polynomial of a layer `i >= l` changes.
proof fn lemma_layers_changed_round(
    g: Seq<Seq<Gate>>,
    input: Seq<int>,
    out: Seq<int>,
    w_evals: Seq<(int, int)>,
    rounds: Seq<Seq<Seq<int>>>,
    claims: Seq<int>,
    l: nat,
    rv: Seq<int>,
    st: Seq<u8>,
    i: int,
    k: int,
    j: int,
    x: int,
)
    requires
        layers_accept(g, input, out, w_evals, rounds, claims, l, rv, st),
        l <= i < g.len(),
        i < rounds.len(),
        rounds[i].len() == 2 * (i + 1),
        0 <= k < rounds[i].len(),
        0 <= j < rounds[i][k].len(),
        0 <= rounds[i][k][j] < crate::field::modulus(),
        0 <= x < crate::field::modulus(),
        x != rounds[i][k][j],
    ensures
        !layers_accept(
            g,
            input,
            out,
            w_evals,
            rounds.update(i, rounds[i].update(k, rounds[i][k].update(j, x))),
            claims,
            l,
            rv,
            st,
        ),
    decreases i - l,
{
    let changed = rounds.update(i, rounds[i].update(k, rounds[i][k].update(j, x)));
    if l < i {
        assert(changed[l as int] == rounds[l as int]);
        let a = output_bits(l);
        let b = l + 1;
        let n = a + 2 * b;
        let alpha = challenge_of(st);
        let beta = challenge_of(state_after_squeeze(st));
        let st1 = if l == 0 {
            st
        } else {
            state_after_squeeze(state_after_squeeze(st))
        };
        let run = verifier_run(rounds[l as int], claims[l as int], st1);
        let chals = run.0;
        let wb = if l + 1 == g.len() {
            ml_eval(input, g.len(), chals.take(b as int))
        } else {
            w_evals[l as int].0
        };
        let wc = if l + 1 == g.len() {
            ml_eval(input, g.len(), chals.skip(b as int))
        } else {
            w_evals[l as int].1
        };
        let st2 = run.2 + le_bytes(wb) + le_bytes(wc);
        lemma_layers_changed_round(g, input, out, w_evals, rounds, claims, l + 1, chals, st2, i, k, j, x);
    } else {
        let b = l + 1;
        let st1 = if l == 0 {
            st
        } else {
            state_after_squeeze(state_after_squeeze(st))
        };
        let run = verifier_run(rounds[i], claims[i], st1);
        assert(run.0.len() == 2 * b);
        lemma_changed_round_rejected(rounds[i], claims[i], st1, k, j, x);
        assert(changed[i] == rounds[i].update(k, rounds[i][k].update(j, x)));
    }
}

/// A GKR proof that is accepted is rejected once one coefficient of one
/// round polynomial of one layer's sumcheck is changed, everything else
/// being the same.
pub proof fn lemma_gkr_changed_round_rejected(
    g: Seq<Seq<Gate>>,
    input: Seq<int>,
    proof: GKRProof,
    changed: GKRProof,
    st: Seq<u8>,
    i: int,
    k: int,
    j: int,
    x: int,
)
    requires
        gkr_accepts(g, input, proof, st),
        0 <= i < g.len(),
        0 <= k < proof.rounds()[i].len(),
        0 <= j < proof.rounds()[i][k].len(),
        0 <= x < crate::field::modulus(),
        x != proof.rounds()[i][k][j],
        changed.output_poly.table() == proof.output_poly.table(),
        changed.w_evals() == proof.w_evals(),
        changed.claims() == proof.claims(),
        changed.rounds() == proof.rounds().update(i, proof.rounds()[i].update(k, proof.rounds()[i][k].update(j, x))),
    ensures
        !gkr_accepts(g, input, changed, st),
{
    let rounds = proof.rounds();
    assert(proof.well_shaped(g.len()));
    assert(proof.sumcheck_proofs@[i].round_polys@.len() == 2 * (i + 1));
    assert(rounds[i] == proof.sumcheck_proofs@[i].rounds());
    assert(rounds[i].len() == 2 * (i + 1));
    let pi = proof.sumcheck_proofs@[i];
    assert(rounds[i][k] == pi.round_polys@[k].coeffs());
    crate::field::lemma_val_range(pi.round_polys@[k].coefficients@[j]);
    let st0 = st + seq_bytes(proof.output_poly.table());
    lemma_layers_changed_round(
        g,
        input,
        proof.output_poly.table(),
        proof.w_evals(),
        rounds,
        proof.claims(),
        0,
        challenges_of(st0, 1),
        state_after_squeezes(st0, 1),
        i,
        k,
        j,
        x,
    );
}

} // verus!
