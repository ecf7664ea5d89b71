//! The sumcheck protocol, made non-interactive with a Fiat-Shamir transcript:
//! a variant for a single multilinear polynomial and one for sums of products.
use crate::composed::{
    column_product, column_sum, partial_tables, product_at, reduce_product, reduce_sum, sum_at, SumPoly,
};
use crate::field::{
    copy_scalars, fadd, fsum, le_bytes, lemma_fsum_concat, lemma_fsum_range, lemma_reduced, modulus,
    seq_bytes, vals, Scalar,
};
use crate::multilinear::{
    lemma_fsum_lerp, lemma_lerp_ends, lemma_msb_partial_eval, lerp, ml_eval, partial_eval,
    MultilinearPoly,
};
use crate::transcript::{challenge_of, state_after_squeeze, FiatShamir};
use crate::univariate::{
    basis_numerator, basis_poly, interpolation, lemma_peval_add, lemma_peval_range, lemma_peval_scale,
    lemma_three_points_basis, node_product, peval, poly_scale, three_points, UnivariatePoly,
};
use crate::field::{cong, fdiv, fmul, fsub, lemma_cong_add, lemma_cong_mod, lemma_cong_mul, lemma_cong_reduced, lemma_cong_shift, lemma_cong_sub};

use vstd::arithmetic::power2::{lemma_pow2_unfold, pow2};
use vstd::prelude::*;

verus! {

/// The sum of the entries of `v`.
pub fn sum_scalars(v: &Vec<Scalar>) -> (r: Scalar)
    ensures
        r.val() == fsum(vals(v@)),
{
    let mut acc = Scalar::zero();
    let mut i: usize = 0;
    while i < v.len()
        invariant
            i <= v@.len(),
            acc.val() == fsum(vals(v@.subrange(0, i as int))),
        decreases v@.len() - i,
    {
        proof {
            let s = vals(v@.subrange(0, i + 1));
            assert(s.drop_last() =~= vals(v@.subrange(0, i as int)));
        }
        acc = acc.add(&v[i]);
        i = i + 1;
    }
    proof {
        assert(v@.subrange(0, v@.len() as int) =~= v@);
    }
    acc
}

/// The round message for the polynomial `s` in `n > 0` variables: its sums
/// with the most significant variable set to zero and to one.
pub open spec fn round_message(s: Seq<int>, n: nat) -> (int, int) {
    (fsum(partial_eval(s, (n - 1) as nat, 0)), fsum(partial_eval(s, (n - 1) as nat, 1)))
}

/// The bytes that a round message adds to the transcript.
pub open spec fn message_bytes(m: (int, int)) -> Seq<u8> {
    le_bytes(m.0) + le_bytes(m.1)
}

/// The transcript's input before the first round: the table, then the claim.
pub open spec fn initial_state(s: Seq<int>, claim: int) -> Seq<u8> {
    seq_bytes(s) + le_bytes(claim)
}

/// The round messages that an honest prover sends for `s` in `n` variables
/// from transcript input `st`.
pub open spec fn honest_rounds(s: Seq<int>, n: nat, st: Seq<u8>) -> Seq<(int, int)>
    decreases n,
{
    if n == 0 {
        Seq::empty()
    } else {
        let m = round_message(s, n);
        let st1 = st + message_bytes(m);
        seq![m] + honest_rounds(
            partial_eval(s, (n - 1) as nat, challenge_of(st1)),
            (n - 1) as nat,
            state_after_squeeze(st1),
        )
    }
}

/// Whether the verifier accepts `rounds` for the polynomial `s` in `n`
/// variables, the running claim being `claim` and the transcript input `st`.
pub open spec fn rounds_accepted(
    rounds: Seq<(int, int)>,
    s: Seq<int>,
    n: nat,
    claim: int,
    st: Seq<u8>,
) -> bool
    decreases rounds.len(),
{
    if rounds.len() == 0 {
        claim == s[0]
    } else {
        let m = rounds[0];
        let st1 = st + message_bytes(m);
        let r = challenge_of(st1);
        fadd(m.0, m.1) == claim && n > 0 && rounds_accepted(
            rounds.drop_first(),
            partial_eval(s, (n - 1) as nat, r),
            (n - 1) as nat,
            lerp(m.0, m.1, r),
            state_after_squeeze(st1),
        )
    }
}

/// A proof that a multilinear polynomial sums to `claimed_sum` over the hypercube.
pub struct Proof {
    pub claimed_sum: Scalar,
    pub round_polys: Vec<[Scalar; 2]>,
}

impl Proof {
    /// The round messages as field values.
    pub open spec fn messages(&self) -> Seq<(int, int)> {
        self.round_polys@.map_values(|m: [Scalar; 2]| (m[0].val(), m[1].val()))
    }
}

/// Absorbs a round message.
fn absorb_message(transcript: &mut FiatShamir, m: &[Scalar; 2])
    ensures
        final(transcript)@ == old(transcript)@ + message_bytes((m[0].val(), m[1].val())),
{
    let b0 = m[0].to_bytes();
    let b1 = m[1].to_bytes();
    transcript.absorb(b0.as_slice());
    transcript.absorb(b1.as_slice());
    proof {
        assert(final(transcript)@ =~= old(transcript)@ + message_bytes((m[0].val(), m[1].val())));
    }
}

/// Proves that `poly` sums to `claimed_sum`: the messages are those of the
/// honest prover, whatever the claim.
pub fn prove(poly: &MultilinearPoly, claimed_sum: Scalar) -> (r: Proof)
    requires
        poly.wf(),
    ensures
        r.claimed_sum.val() == claimed_sum.val(),
        r.messages() == honest_rounds(
            poly.table(),
            poly.n_vars as nat,
            initial_state(poly.table(), claimed_sum.val()),
        ),
{
    let mut transcript = FiatShamir::new();
    let tb = poly.to_bytes();
    transcript.absorb(tb.as_slice());
    let cb = claimed_sum.to_bytes();
    transcript.absorb(cb.as_slice());
    let ghost total = honest_rounds(
        poly.table(),
        poly.n_vars as nat,
        initial_state(poly.table(), claimed_sum.val()),
    );
    proof {
        assert(transcript@ =~= initial_state(poly.table(), claimed_sum.val()));
    }
    let mut round_polys: Vec<[Scalar; 2]> = Vec::new();
    let mut cur = poly.copy();
    let mut i: usize = 0;
    let n = poly.n_vars;
    proof {
        assert(round_polys@.map_values(|m: [Scalar; 2]| (m[0].val(), m[1].val())) =~= Seq::<
            (int, int),
        >::empty());
        assert(Seq::<(int, int)>::empty() + total =~= total);
    }
    while i < n
        invariant
            i <= n,
            n == poly.n_vars,
            cur.wf(),
            cur.n_vars == n - i,
            round_polys@.map_values(|m: [Scalar; 2]| (m[0].val(), m[1].val())) + honest_rounds(
                cur.table(),
                cur.n_vars as nat,
                transcript@,
            ) == total,
        decreases n - i,
    {
        let idx = cur.n_vars - 1;
        let s0 = sum_scalars(&cur.partial_evaluate((idx, Scalar::zero())).evals);
        let s1 = sum_scalars(&cur.partial_evaluate((idx, Scalar::one())).evals);
        let m: [Scalar; 2] = [s0, s1];
        let ghost prev = round_polys@.map_values(|m: [Scalar; 2]| (m[0].val(), m[1].val()));
        proof {
            assert(m[0].val() == s0.val() && m[1].val() == s1.val());
        }
        absorb_message(&mut transcript, &m);
        round_polys.push(m);
        let challenge = transcript.squeeze();
        cur = cur.partial_evaluate((idx, challenge));
        i = i + 1;
        proof {
            let mv = round_polys@.map_values(|m: [Scalar; 2]| (m[0].val(), m[1].val()));
            assert(mv =~= prev.push((s0.val(), s1.val())));
            assert(prev + (seq![(s0.val(), s1.val())] + honest_rounds(
                cur.table(),
                cur.n_vars as nat,
                transcript@,
            )) =~= mv + honest_rounds(cur.table(), cur.n_vars as nat, transcript@));
        }
    }
    proof {
        let mv = round_polys@.map_values(|m: [Scalar; 2]| (m[0].val(), m[1].val()));
        assert(mv + Seq::<(int, int)>::empty() =~= mv);
    }
    Proof { claimed_sum, round_polys }
}

/// Whether a verifier accepts `proof` for the polynomial with table `s` in
/// `n` variables.
pub open spec fn accepts(proof_claim: int, messages: Seq<(int, int)>, s: Seq<int>, n: nat) -> bool {
    messages.len() == n && rounds_accepted(messages, s, n, proof_claim, initial_state(s, proof_claim))
}

/// Checks `proof` against `poly`: each round's two values must add up to the
/// running claim, and the last claim must be the value of `poly` at the challenges.
pub fn verify(proof: &Proof, poly: &MultilinearPoly) -> (r: bool)
    requires
        poly.wf(),
    ensures
        r == accepts(proof.claimed_sum.val(), proof.messages(), poly.table(), poly.n_vars as nat),
{
    if proof.round_polys.len() != poly.n_vars {
        return false;
    }
    let mut challenges: Vec<Scalar> = Vec::new();
    let mut transcript = FiatShamir::new();
    let tb = poly.to_bytes();
    transcript.absorb(tb.as_slice());
    let cb = proof.claimed_sum.to_bytes();
    transcript.absorb(cb.as_slice());
    proof {
        assert(transcript@ =~= initial_state(poly.table(), proof.claimed_sum.val()));
    }
    let mut claimed_sum = proof.claimed_sum;
    let ghost msgs = proof.messages();
    let ghost mut cur = poly.table();
    let ghost mut cur_n: nat = poly.n_vars as nat;
    let n = poly.n_vars;
    let mut i: usize = 0;
    proof {
        assert(msgs.skip(0) =~= msgs);
        assert forall|rest: Seq<int>| rest.len() <= cur_n implies ml_eval(
            poly.table(),
            poly.n_vars as nat,
            vals(challenges@) + rest,
        ) == ml_eval(cur, cur_n, rest) by {
            assert(vals(challenges@) + rest =~= rest);
        }
    }
    while i < proof.round_polys.len()
        invariant
            i <= n,
            n == poly.n_vars,
            proof.round_polys@.len() == n,
            msgs == proof.messages(),
            cur_n == n - i,
            cur.len() == pow2(cur_n),
            challenges@.len() == i,
            forall|rest: Seq<int>|
                rest.len() <= cur_n ==> #[trigger] ml_eval(
                    poly.table(),
                    poly.n_vars as nat,
                    vals(challenges@) + rest,
                ) == ml_eval(cur, cur_n, rest),
            accepts(proof.claimed_sum.val(), msgs, poly.table(), poly.n_vars as nat)
                == rounds_accepted(msgs.skip(i as int), cur, cur_n, claimed_sum.val(), transcript@),
        decreases n - i,
    {
        let m = &proof.round_polys[i];
        let s = m[0].add(&m[1]);
        proof {
            assert(msgs.skip(i as int)[0] == (m[0].val(), m[1].val()));
            assert(msgs.skip(i as int).drop_first() =~= msgs.skip(i + 1));
        }
        if !claimed_sum.equals(&s) {
            return false;
        }
        absorb_message(&mut transcript, m);
        let challenge = transcript.squeeze();
        let ghost prev_ch = vals(challenges@);
        challenges.push(challenge);
        let d = m[1].sub(&m[0]);
        claimed_sum = m[0].add(&challenge.mul(&d));
        proof {
            let next = partial_eval(cur, (cur_n - 1) as nat, challenge.val());
            assert(vals(challenges@) =~= prev_ch.push(challenge.val()));
            assert forall|rest: Seq<int>| rest.len() <= (cur_n - 1) as nat implies #[trigger] ml_eval(
                poly.table(),
                poly.n_vars as nat,
                vals(challenges@) + rest,
            ) == ml_eval(next, (cur_n - 1) as nat, rest) by {
                let r2 = seq![challenge.val()] + rest;
                assert(prev_ch + r2 =~= vals(challenges@) + rest);
                assert(r2.drop_first() =~= rest);
                assert(ml_eval(poly.table(), poly.n_vars as nat, prev_ch + r2) == ml_eval(cur, cur_n, r2));
            }
            lemma_pow2_unfold(cur_n);
            cur = next;
            cur_n = (cur_n - 1) as nat;
        }
        i = i + 1;
    }
    let v = poly.evaluate(&challenges);
    proof {
        assert(vals(challenges@) + Seq::<int>::empty() =~= vals(challenges@));
        assert(msgs.skip(i as int) =~= Seq::<(int, int)>::empty());
        assert(ml_eval(cur, 0, Seq::<int>::empty()) == cur[0]);
    }
    claimed_sum.equals(&v)
}

/// The sums of the sum of products `tss` in `n > 0` variables with the most
/// significant variable set to 0, 1 and 2.
pub open spec fn round_values(tss: Seq<Seq<Seq<int>>>, n: nat) -> Seq<int> {
    seq![
        fsum(reduce_sum(partial_tables(tss, (n - 1) as nat, 0))),
        fsum(reduce_sum(partial_tables(tss, (n - 1) as nat, 1))),
        fsum(reduce_sum(partial_tables(tss, (n - 1) as nat, 2))),
    ]
}

/// The round polynomial: the one through the round values at 0, 1 and 2.
pub open spec fn round_poly_of(tss: Seq<Seq<Seq<int>>>, n: nat) -> Seq<int> {
    interpolation(three_points(), round_values(tss, n), 3)
}

/// The sum of a round polynomial over zero and one.
pub open spec fn round_claim(c: Seq<int>) -> int {
    fadd(peval(c, 0), peval(c, 1))
}

/// What a round adds to the transcript: the claim, then the coefficients.
pub open spec fn round_bytes(claim: int, c: Seq<int>) -> Seq<u8> {
    le_bytes(claim) + seq_bytes(c)
}

/// The round polynomials that an honest prover sends for `tss` in `n`
/// variables from transcript input `st`.
pub open spec fn honest_partial_rounds(tss: Seq<Seq<Seq<int>>>, n: nat, st: Seq<u8>) -> Seq<
    Seq<int>,
>
    decreases n,
{
    if n == 0 {
        Seq::empty()
    } else {
        let c = round_poly_of(tss, n);
        let st1 = st + round_bytes(round_claim(c), c);
        seq![c] + honest_partial_rounds(
            partial_tables(tss, (n - 1) as nat, challenge_of(st1)),
            (n - 1) as nat,
            state_after_squeeze(st1),
        )
    }
}

/// The challenges drawn while the prover sends `rounds` from transcript input `st`.
pub open spec fn prover_challenges(rounds: Seq<Seq<int>>, st: Seq<u8>) -> Seq<int>
    decreases rounds.len(),
{
    if rounds.len() == 0 {
        Seq::empty()
    } else {
        let st1 = st + round_bytes(round_claim(rounds[0]), rounds[0]);
        seq![challenge_of(st1)] + prover_challenges(rounds.drop_first(), state_after_squeeze(st1))
    }
}

/// The transcript input after the prover sends `rounds` from `st`.
pub open spec fn prover_state(rounds: Seq<Seq<int>>, st: Seq<u8>) -> Seq<u8>
    decreases rounds.len(),
{
    if rounds.len() == 0 {
        st
    } else {
        let st1 = st + round_bytes(round_claim(rounds[0]), rounds[0]);
        prover_state(rounds.drop_first(), state_after_squeeze(st1))
    }
}

/// The verifier's run over `rounds` with running claim `claim` from
/// transcript input `st`: the challenges drawn, the last claim, and the
/// transcript input left. It stops at the first round whose sum over zero and
/// one differs from the running claim.
pub open spec fn verifier_run(rounds: Seq<Seq<int>>, claim: int, st: Seq<u8>) -> (
    Seq<int>,
    int,
    Seq<u8>,
)
    decreases rounds.len(),
{
    if rounds.len() == 0 || round_claim(rounds[0]) != claim {
        (Seq::empty(), claim, st)
    } else {
        let st1 = st + round_bytes(claim, rounds[0]);
        let r = challenge_of(st1);
        let rest = verifier_run(rounds.drop_first(), peval(rounds[0], r), state_after_squeeze(st1));
        (seq![r] + rest.0, rest.1, rest.2)
    }
}

/// A sumcheck proof for a sum of products, checked by a caller that can
/// evaluate the polynomial at the challenges.
pub struct PartialProof {
    pub initial_claimed_sum: Scalar,
    pub round_polys: Vec<UnivariatePoly>,
    pub rand_challenges: Vec<Scalar>,
}

impl PartialProof {
    /// The round polynomials' coefficients as field values.
    pub open spec fn rounds(&self) -> Seq<Seq<int>> {
        self.round_polys@.map_values(|p: UnivariatePoly| p.coeffs())
    }
}

/// Absorbs a claim and then a round polynomial.
fn absorb_round(transcript: &mut FiatShamir, claim: &Scalar, p: &UnivariatePoly)
    ensures
        final(transcript)@ == old(transcript)@ + round_bytes(claim.val(), p.coeffs()),
{
    let cb = claim.to_bytes();
    let pb = p.to_bytes();
    let parts: Vec<Vec<u8>> = vec![cb, pb];
    transcript.absorb_n(parts.as_slice());
    proof {
        let s = parts@.map_values(|b: Vec<u8>| b@);
        assert(s =~= seq![le_bytes(claim.val())].push(seq_bytes(p.coeffs())));
        seq![le_bytes(claim.val())].lemma_flatten_push(seq_bytes(p.coeffs()));
        assert(seq![le_bytes(claim.val())].drop_last() =~= Seq::<Seq<u8>>::empty());
        seq![le_bytes(claim.val())].lemma_flatten_push(seq_bytes(p.coeffs()));
        Seq::<Seq<u8>>::empty().lemma_flatten_push(le_bytes(claim.val()));
        assert(Seq::<Seq<u8>>::empty().push(le_bytes(claim.val())) =~= seq![le_bytes(claim.val())]);
        assert(Seq::<Seq<u8>>::empty().flatten() =~= Seq::<u8>::empty());
    }
}

/// Runs the prover's side of sumcheck on `poly` with the claim
/// `initial_claimed_sum`, drawing challenges from `transcript`.
pub fn partial_prove(poly: &SumPoly, initial_claimed_sum: Scalar, transcript: &mut FiatShamir) -> (r:
    PartialProof)
    requires
        poly.wf(),
        poly.polys@.len() > 0,
    ensures
        r.initial_claimed_sum.val() == initial_claimed_sum.val(),
        r.rounds() == honest_partial_rounds(poly.tables(), poly.arity(), old(transcript)@),
        vals(r.rand_challenges@) == prover_challenges(r.rounds(), old(transcript)@),
        final(transcript)@ == prover_state(r.rounds(), old(transcript)@),
{
    let n_vars = poly.n_vars();
    let mut round_polys: Vec<UnivariatePoly> = Vec::new();
    let mut rand_challenges: Vec<Scalar> = Vec::new();
    let mut cur = poly.copy();
    let ghost st0 = transcript@;
    let ghost total = honest_partial_rounds(poly.tables(), poly.arity(), st0);
    let mut k: u32 = 0;
    let xs: Vec<Scalar> = vec![Scalar::zero(), Scalar::one(), Scalar::from_u64(2)];
    proof {
        assert(vals(xs@) =~= three_points());
        lemma_three_points_basis();
        assert(Seq::<Seq<int>>::empty() + total =~= total);
    }
    while k < n_vars
        invariant
            k <= n_vars,
            n_vars == poly.arity(),
            vals(xs@) == three_points(),
            forall|j: int| 0 <= j < 3 ==> crate::univariate::basis_defined(#[trigger] three_points()[j], three_points()),
            cur.wf(),
            cur.polys@.len() > 0,
            cur.arity() == n_vars - k,
            round_polys@.len() == rand_challenges@.len(),
            round_polys@.map_values(|p: UnivariatePoly| p.coeffs()) + honest_partial_rounds(
                cur.tables(),
                cur.arity(),
                transcript@,
            ) == total,
            vals(rand_challenges@) + prover_challenges(
                honest_partial_rounds(cur.tables(), cur.arity(), transcript@),
                transcript@,
            ) == prover_challenges(total, st0),
            prover_state(honest_partial_rounds(cur.tables(), cur.arity(), transcript@), transcript@)
                == prover_state(total, st0),
        decreases n_vars - k,
    {
        let idx: usize = (cur.n_vars() - 1) as usize;
        let y0 = sum_scalars(&cur.partial_evaluate((idx, Scalar::zero())).reduce());
        let y1 = sum_scalars(&cur.partial_evaluate((idx, Scalar::one())).reduce());
        let y2 = sum_scalars(&cur.partial_evaluate((idx, Scalar::from_u64(2))).reduce());
        let ys: Vec<Scalar> = vec![y0, y1, y2];
        proof {
            assert(vals(ys@) =~= round_values(cur.tables(), cur.arity()));
        }
        let round_poly = UnivariatePoly::interpolate(copy_scalars(xs.as_slice()), ys);
        proof {
            assert(round_poly.coeffs() == round_poly_of(cur.tables(), cur.arity()));
            crate::univariate::lemma_interpolation_nonempty(three_points(), round_values(cur.tables(), cur.arity()), 3);
        }
        let claimed_sum = round_poly.evaluate_sum_over_boolean_hypercube();
        let ghost st_before = transcript@;
        let ghost rest = honest_partial_rounds(cur.tables(), cur.arity(), st_before);
        absorb_round(transcript, &claimed_sum, &round_poly);
        let ghost prev_r = round_polys@.map_values(|p: UnivariatePoly| p.coeffs());
        let ghost prev_c = vals(rand_challenges@);
        let ghost c_seq = round_poly.coeffs();
        round_polys.push(round_poly);
        let challenge = transcript.squeeze();
        rand_challenges.push(challenge);
        cur = cur.partial_evaluate((idx, challenge));
        k = k + 1;
        proof {
            assert(rest[0] == c_seq);
            assert(rest.drop_first() == honest_partial_rounds(cur.tables(), cur.arity(), transcript@));
            assert(round_polys@.map_values(|p: UnivariatePoly| p.coeffs()) =~= prev_r.push(c_seq));
            assert(prev_r + rest =~= prev_r.push(c_seq) + rest.drop_first());
            assert(vals(rand_challenges@) =~= prev_c.push(challenge.val()));
            assert(prover_challenges(rest, st_before) == seq![challenge.val()] + prover_challenges(rest.drop_first(), transcript@));
            assert(prev_c + prover_challenges(rest, st_before) =~= prev_c.push(challenge.val()) + prover_challenges(rest.drop_first(), transcript@));
        }
    }
    proof {
        let rv = round_polys@.map_values(|p: UnivariatePoly| p.coeffs());
        assert(rv + Seq::<Seq<int>>::empty() =~= rv);
        let cv = vals(rand_challenges@);
        assert(cv + Seq::<int>::empty() =~= cv);
    }
    PartialProof { initial_claimed_sum, round_polys, rand_challenges }
}

/// Replays the verifier's side of sumcheck over `proof`: returns the
/// challenges drawn and the last claim, stopping early at a round whose sum
/// over zero and one differs from the running claim. The caller compares the
/// claim with the polynomial's value at the challenges.
pub fn partial_verify(proof: &PartialProof, transcript: &mut FiatShamir) -> (r: (Vec<Scalar>, Scalar))
    requires
        forall|k: int|
            0 <= k < proof.round_polys@.len() ==> (#[trigger] proof.round_polys@[k]).coefficients@.len()
                > 0,
    ensures
        (vals(r.0@), r.1.val(), final(transcript)@) == verifier_run(
            proof.rounds(),
            proof.initial_claimed_sum.val(),
            old(transcript)@,
        ),
{
    let mut challenges: Vec<Scalar> = Vec::new();
    let mut claimed_sum = proof.initial_claimed_sum;
    let ghost rounds = proof.rounds();
    let ghost total = verifier_run(rounds, proof.initial_claimed_sum.val(), transcript@);
    let mut i: usize = 0;
    let mut stopped = false;
    proof {
        assert(rounds.skip(0) =~= rounds);
        assert(Seq::<int>::empty() + total.0 =~= total.0);
    }
    while i < proof.round_polys.len() && !stopped
        invariant
            i <= proof.round_polys@.len(),
            rounds == proof.rounds(),
            forall|k: int|
                0 <= k < proof.round_polys@.len() ==> (#[trigger] proof.round_polys@[k]).coefficients@.len()
                    > 0,
            stopped ==> (vals(challenges@), claimed_sum.val(), transcript@) == total,
            !stopped ==> ({
                let run = verifier_run(rounds.skip(i as int), claimed_sum.val(), transcript@);
                (vals(challenges@) + run.0, run.1, run.2) == total
            }),
        decreases proof.round_polys@.len() - i + (if stopped {
            0int
        } else {
            1int
        }),
    {
        let rp = &proof.round_polys[i];
        let sum = rp.evaluate_sum_over_boolean_hypercube();
        let ghost rest = rounds.skip(i as int);
        proof {
            assert(rest[0] == rp.coeffs());
            assert(rest.drop_first() =~= rounds.skip(i + 1));
        }
        if !sum.equals(&claimed_sum) {
            proof {
                assert(vals(challenges@) + Seq::<int>::empty() =~= vals(challenges@));
            }
            stopped = true;
        } else {
            absorb_round(transcript, &claimed_sum, rp);
            let challenge = transcript.squeeze();
            let ghost prev = vals(challenges@);
            challenges.push(challenge);
            claimed_sum = rp.evaluate(&challenge);
            i = i + 1;
            proof {
                assert(vals(challenges@) =~= prev.push(challenge.val()));
                let run = verifier_run(rounds.skip(i as int), claimed_sum.val(), transcript@);
                assert(prev + (seq![challenge.val()] + run.0) =~= vals(challenges@) + run.0);
            }
        }
    }
    proof {
        if !stopped {
            assert(rounds.skip(i as int) =~= Seq::<Seq<int>>::empty());
            assert(vals(challenges@) + Seq::<int>::empty() =~= vals(challenges@));
        }
    }
    (challenges, claimed_sum)
}

/// An honest prover sends one round polynomial per variable.
pub proof fn lemma_honest_partial_rounds_len(tss: Seq<Seq<Seq<int>>>, n: nat, st: Seq<u8>)
    ensures
        honest_partial_rounds(tss, n, st).len() == n,
    decreases n,
{
    if n > 0 {
        let c = round_poly_of(tss, n);
        let st1 = st + round_bytes(round_claim(c), c);
        lemma_honest_partial_rounds_len(
            partial_tables(tss, (n - 1) as nat, challenge_of(st1)),
            (n - 1) as nat,
            state_after_squeeze(st1),
        );
    }
}

/// The prover draws one challenge per round.
pub proof fn lemma_prover_challenges_len(rounds: Seq<Seq<int>>, st: Seq<u8>)
    ensures
        prover_challenges(rounds, st).len() == rounds.len(),
    decreases rounds.len(),
{
    if rounds.len() > 0 {
        let st1 = st + round_bytes(round_claim(rounds[0]), rounds[0]);
        lemma_prover_challenges_len(rounds.drop_first(), state_after_squeeze(st1));
    }
}

/// Every entry of the table is a reduced field value.
pub open spec fn reduced_table(s: Seq<int>) -> bool {
    forall|i: int| 0 <= i < s.len() ==> 0 <= #[trigger] s[i] < modulus()
}

/// The two sums of a round message add up to the sum of the table, and the
/// table with its top variable set to `r` sums to the line through them at `r`.
proof fn lemma_round_message(s: Seq<int>, n: nat, r: int)
    requires
        n >= 1,
        s.len() == pow2(n),
        reduced_table(s),
    ensures
        fadd(round_message(s, n).0, round_message(s, n).1) == fsum(s),
        fsum(partial_eval(s, (n - 1) as nat, r)) == lerp(round_message(s, n).0, round_message(s, n).1, r),
{
    let h = pow2((n - 1) as nat) as int;
    lemma_pow2_unfold(n);
    let x = s.subrange(0, h);
    let y = s.subrange(h, 2 * h);
    assert(s =~= x + y);
    lemma_msb_partial_eval(s, n, 0);
    lemma_msb_partial_eval(s, n, 1);
    lemma_msb_partial_eval(s, n, r);
    assert forall|k: int| 0 <= k < h implies lerp(s[k], s[k + h], 0) == x[k] && lerp(s[k], s[k + h], 1) == y[k] by {
        lemma_lerp_ends(s[k], s[k + h]);
    }
    assert(partial_eval(s, (n - 1) as nat, 0) =~= x);
    assert(partial_eval(s, (n - 1) as nat, 1) =~= y);
    lemma_fsum_range(x);
    lemma_fsum_concat(x, y);
    assert(partial_eval(s, (n - 1) as nat, r) =~= Seq::new(x.len(), |k: int| lerp(x[k], y[k], r)));
    lemma_fsum_lerp(x, y, r);
}

/// An honest prover sends one message per variable.
pub proof fn lemma_honest_rounds_len(s: Seq<int>, n: nat, st: Seq<u8>)
    ensures
        honest_rounds(s, n, st).len() == n,
    decreases n,
{
    if n > 0 {
        let m = round_message(s, n);
        let st1 = st + message_bytes(m);
        lemma_honest_rounds_len(partial_eval(s, (n - 1) as nat, challenge_of(st1)), (n - 1) as nat, state_after_squeeze(st1));
    }
}

/// From any transcript input and running claim, the honest messages for a
/// table are accepted exactly when the claim is the table's sum.
proof fn lemma_honest_rounds_accepted(s: Seq<int>, n: nat, claim: int, st: Seq<u8>)
    requires
        s.len() == pow2(n),
        reduced_table(s),
    ensures
        rounds_accepted(honest_rounds(s, n, st), s, n, claim, st) == (claim == fsum(s)),
    decreases n,
{
    if n == 0 {
        vstd::arithmetic::power2::lemma2_to64();
        let e = Seq::<int>::empty();
        assert(s.len() == 1);
        assert(s.drop_last() =~= e);
        assert(fsum(s.drop_last()) == 0);
        assert(s.last() == s[0]);
        lemma_reduced(s[0]);
        assert(fsum(s) == s[0]);
        assert(honest_rounds(s, n, st) =~= Seq::<(int, int)>::empty());
    } else {
        let m = round_message(s, n);
        let st1 = st + message_bytes(m);
        let r = challenge_of(st1);
        let next = partial_eval(s, (n - 1) as nat, r);
        lemma_round_message(s, n, r);
        lemma_pow2_unfold(n);
        assert forall|i: int| 0 <= i < next.len() implies 0 <= #[trigger] next[i] < modulus() by {
            vstd::arithmetic::div_mod::lemma_mod_bound(
                s[crate::multilinear::low_index(i, (n - 1) as nat)] + fmul_of_lerp(s, n, i, r),
                modulus(),
            );
        }
        lemma_honest_rounds_accepted(next, (n - 1) as nat, lerp(m.0, m.1, r), state_after_squeeze(st1));
        let rounds = honest_rounds(s, n, st);
        assert(rounds.len() > 0) by {
            lemma_honest_rounds_len(s, n, st);
        }
        assert(rounds[0] == m);
        assert(rounds.drop_first() =~= honest_rounds(next, (n - 1) as nat, state_after_squeeze(st1)));
    }
}

spec fn fmul_of_lerp(s: Seq<int>, n: nat, i: int, r: int) -> int {
    let lo = crate::multilinear::low_index(i, (n - 1) as nat);
    crate::field::fmul(r, crate::field::fsub(s[lo + pow2((n - 1) as nat) as int], s[lo]))
}

/// Sumcheck is complete and rejects a wrong claim: the honest proof for the
/// claim `h` about a table `s` of `2^n` reduced values is accepted exactly
/// when `h` is the sum of `s` over the hypercube.
pub proof fn lemma_sumcheck_verdict(s: Seq<int>, n: nat, h: int)
    requires
        s.len() == pow2(n),
        reduced_table(s),
    ensures
        accepts(h, honest_rounds(s, n, initial_state(s, h)), s, n) == (h == fsum(s)),
{
    lemma_honest_rounds_len(s, n, initial_state(s, h));
    lemma_honest_rounds_accepted(s, n, h, initial_state(s, h));
}


/// The Lagrange basis polynomial of `v` over the points 0, 1, 2, taken at `r`.
pub open spec fn node_basis(v: int, r: int) -> int {
    peval(basis_poly(v, three_points()), r)
}

/// The value at `r` of the polynomial through `(0, y0), (1, y1), (2, y2)`.
pub open spec fn three_point_value(y: Seq<int>, r: int) -> int {
    peval(interpolation(three_points(), y, 3), r)
}

proof fn lemma_three_point_value_expand(y: Seq<int>, r: int)
    ensures
        three_point_value(y, r) == fadd(
            fadd(fadd(0, fmul(y[0], node_basis(0, r))), fmul(y[1], node_basis(1, r))),
            fmul(y[2], node_basis(2, r)),
        ),
{
    let s = three_points();
    assert(s[0] == 0 && s[1] == 1 && s[2] == 2);
    let i0 = interpolation(s, y, 0);
    let i1 = interpolation(s, y, 1);
    let i2 = interpolation(s, y, 2);
    let z = seq![0int];
    assert(i0 == z);
    assert(z.drop_first() =~= Seq::<int>::empty());
    assert(peval(z.drop_first(), r) == 0);
    vstd::arithmetic::div_mod::lemma_small_mod(0, modulus() as nat);
    assert(0 * r == 0);
    assert(peval(z, r) == 0);
    lemma_peval_add(i0, poly_scale(basis_poly(0, s), y[0]), r);
    lemma_peval_scale(basis_poly(0, s), y[0], r);
    lemma_peval_add(i1, poly_scale(basis_poly(1, s), y[1]), r);
    lemma_peval_scale(basis_poly(1, s), y[1], r);
    lemma_peval_add(i2, poly_scale(basis_poly(2, s), y[2]), r);
    lemma_peval_scale(basis_poly(2, s), y[2], r);
}

/// The basis polynomials over 0, 1, 2, up to their normalising inverses.
proof fn lemma_node_basis_cong(v: int, r: int)
    requires
        0 <= v < 3,
    ensures
        ({
            let num = basis_numerator(v, three_points(), 3);
            let d = peval(num, v);
            let inv = fdiv(1, d);
            &&& cong(inv * d, 1)
            &&& v == 0 ==> cong(d, 2) && cong(node_basis(v, r), inv * ((r - 1) * (r - 2)))
            &&& v == 1 ==> cong(d, -1) && cong(node_basis(v, r), inv * (r * (r - 2)))
            &&& v == 2 ==> cong(d, 2) && cong(node_basis(v, r), inv * (r * (r - 1)))
        }),
{
    let s = three_points();
    assert(s[0] == 0 && s[1] == 1 && s[2] == 2);
    lemma_three_points_basis();
    assert(crate::univariate::basis_defined(s[v], s));
    let num = basis_numerator(v, s, 3);
    let d = peval(num, v);
    let inv = fdiv(1, d);
    lemma_cong_mod(inv * d);
    crate::univariate::lemma_basis_numerator_value_pub(v, s, r, 3);
    crate::univariate::lemma_basis_numerator_value_pub(v, s, v, 3);
    lemma_peval_scale(num, inv, r);
    assert(node_basis(v, r) == fmul(inv, node_product(v, s, r, 3)));
    lemma_cong_mod(inv * node_product(v, s, r, 3));
    // the products of differences, as integers
    assert(node_product(v, s, r, 0) == 1);
    assert(node_product(v, s, v, 0) == 1);
    lemma_cong_mod(r - 1);
    lemma_cong_mod(r - 2);
    lemma_cong_mod(r - 0);
    lemma_cong_mod(v - 1);
    lemma_cong_mod(v - 2);
    lemma_cong_mod(v - 0);
    if v == 0 {
        assert(node_product(v, s, r, 1) == 1);
        lemma_cong_mul(1, fsub(r, 1), 1, r - 1);
        lemma_cong_mod(1 * fsub(r, 1));
        assert(cong(node_product(v, s, r, 2), r - 1));
        lemma_cong_mul(node_product(v, s, r, 2), fsub(r, 2), r - 1, r - 2);
        lemma_cong_mod(node_product(v, s, r, 2) * fsub(r, 2));
        assert(cong(node_product(v, s, r, 3), (r - 1) * (r - 2)));
        assert(node_product(v, s, v, 1) == 1);
        lemma_cong_mul(1, fsub(v, 1), 1, v - 1);
        lemma_cong_mod(1 * fsub(v, 1));
        lemma_cong_mul(node_product(v, s, v, 2), fsub(v, 2), v - 1, v - 2);
        lemma_cong_mod(node_product(v, s, v, 2) * fsub(v, 2));
        assert(cong(d, 2));
    } else if v == 1 {
        assert(node_product(v, s, r, 1) == fmul(1, fsub(r, 0)));
        assert(node_product(v, s, r, 2) == node_product(v, s, r, 1));
        assert(node_product(v, s, v, 1) == fmul(1, fsub(v, 0)));
        assert(node_product(v, s, v, 2) == node_product(v, s, v, 1));
        lemma_cong_mul(1, fsub(r, 0), 1, r - 0);
        lemma_cong_mod(1 * fsub(r, 0));
        assert(cong(node_product(v, s, r, 2), r));
        lemma_cong_mul(node_product(v, s, r, 2), fsub(r, 2), r, r - 2);
        lemma_cong_mod(node_product(v, s, r, 2) * fsub(r, 2));
        assert(cong(node_product(v, s, r, 3), r * (r - 2)));
        lemma_cong_mul(1, fsub(v, 0), 1, v - 0);
        lemma_cong_mod(1 * fsub(v, 0));
        lemma_cong_mul(node_product(v, s, v, 2), fsub(v, 2), v - 0, v - 2);
        lemma_cong_mod(node_product(v, s, v, 2) * fsub(v, 2));
        assert(cong(d, -1));
    } else {
        assert(node_product(v, s, r, 1) == fmul(1, fsub(r, 0)));
        assert(node_product(v, s, v, 1) == fmul(1, fsub(v, 0)));
        assert(node_product(v, s, r, 3) == node_product(v, s, r, 2));
        assert(node_product(v, s, v, 3) == node_product(v, s, v, 2));
        lemma_cong_mul(1, fsub(r, 0), 1, r - 0);
        lemma_cong_mod(1 * fsub(r, 0));
        lemma_cong_mul(node_product(v, s, r, 1), fsub(r, 1), r, r - 1);
        lemma_cong_mod(node_product(v, s, r, 1) * fsub(r, 1));
        assert(cong(node_product(v, s, r, 3), r * (r - 1)));
        lemma_cong_mul(1, fsub(v, 0), 1, v - 0);
        lemma_cong_mod(1 * fsub(v, 0));
        lemma_cong_mul(node_product(v, s, v, 1), fsub(v, 1), v - 0, v - 1);
        lemma_cong_mod(node_product(v, s, v, 1) * fsub(v, 1));
        assert(cong(d, 2));
    }
    lemma_cong_mul(inv, node_product(v, s, r, 3), inv, if v == 0 {
        (r - 1) * (r - 2)
    } else if v == 1 {
        r * (r - 2)
    } else {
        r * (r - 1)
    });
}

/// The product of the lines through `(a0, b0)` and `(a1, b1)`, at `x`.
pub open spec fn line_product(a0: int, b0: int, a1: int, b1: int, x: int) -> int {
    fmul(fmul(1, lerp(a0, b0, x)), lerp(a1, b1, x))
}

/// The same product over the integers.
spec fn line_product_int(a0: int, b0: int, a1: int, b1: int, x: int) -> int {
    (a0 + x * (b0 - a0)) * (a1 + x * (b1 - a1))
}

proof fn lemma_line_product_cong(a0: int, b0: int, a1: int, b1: int, x: int)
    ensures
        cong(line_product(a0, b0, a1, b1, x), line_product_int(a0, b0, a1, b1, x)),
{
    crate::multilinear::lemma_lerp_int(a0, b0, x);
    crate::multilinear::lemma_lerp_int(a1, b1, x);
    let l0 = lerp(a0, b0, x);
    let l1 = lerp(a1, b1, x);
    lemma_cong_mod(a0 + x * (b0 - a0));
    lemma_cong_mod(a1 + x * (b1 - a1));
    lemma_cong_mod(1 * l0);
    assert(1 * l0 == l0);
    lemma_cong_mod(fmul(1, l0) * l1);
    lemma_cong_mul(fmul(1, l0), l1, a0 + x * (b0 - a0), a1 + x * (b1 - a1));
}

/// A product of two lines is a polynomial of degree two, so the polynomial
/// through its values at 0, 1 and 2 gives its value everywhere.
proof fn lemma_line_product_reproduced(a0: int, b0: int, a1: int, b1: int, r: int)
    ensures
        three_point_value(
            seq![
                line_product(a0, b0, a1, b1, 0),
                line_product(a0, b0, a1, b1, 1),
                line_product(a0, b0, a1, b1, 2),
            ],
            r,
        ) == line_product(a0, b0, a1, b1, r),
{
    let p = modulus();
    let y = seq![
        line_product(a0, b0, a1, b1, 0),
        line_product(a0, b0, a1, b1, 1),
        line_product(a0, b0, a1, b1, 2),
    ];
    let q0 = line_product_int(a0, b0, a1, b1, 0);
    let q1 = line_product_int(a0, b0, a1, b1, 1);
    let q2 = line_product_int(a0, b0, a1, b1, 2);
    let qr = line_product_int(a0, b0, a1, b1, r);
    lemma_line_product_cong(a0, b0, a1, b1, 0);
    lemma_line_product_cong(a0, b0, a1, b1, 1);
    lemma_line_product_cong(a0, b0, a1, b1, 2);
    lemma_line_product_cong(a0, b0, a1, b1, r);
    lemma_three_point_value_expand(y, r);
    lemma_node_basis_cong(0, r);
    lemma_node_basis_cong(1, r);
    lemma_node_basis_cong(2, r);
    let s = three_points();
    let d0 = peval(basis_numerator(0, s, 3), 0);
    let d1 = peval(basis_numerator(1, s, 3), 1);
    let d2 = peval(basis_numerator(2, s, 3), 2);
    let i0 = fdiv(1, d0);
    let i1 = fdiv(1, d1);
    let i2 = fdiv(1, d2);
    let l0 = node_basis(0, r);
    let l1 = node_basis(1, r);
    let l2 = node_basis(2, r);
    let e0 = i0 * ((r - 1) * (r - 2));
    let e1 = i1 * (r * (r - 2));
    let e2 = i2 * (r * (r - 1));
    // the value as an integer combination
    lemma_cong_mul(y[0], l0, q0, e0);
    lemma_cong_mul(y[1], l1, q1, e1);
    lemma_cong_mul(y[2], l2, q2, e2);
    lemma_cong_mod(y[0] * l0);
    lemma_cong_mod(y[1] * l1);
    lemma_cong_mod(y[2] * l2);
    lemma_cong_add(0, fmul(y[0], l0), 0, q0 * e0);
    lemma_cong_mod(0 + fmul(y[0], l0));
    lemma_cong_add(fadd(0, fmul(y[0], l0)), fmul(y[1], l1), q0 * e0, q1 * e1);
    lemma_cong_mod(fadd(0, fmul(y[0], l0)) + fmul(y[1], l1));
    let f1 = fadd(fadd(0, fmul(y[0], l0)), fmul(y[1], l1));
    lemma_cong_add(f1, fmul(y[2], l2), q0 * e0 + q1 * e1, q2 * e2);
    lemma_cong_mod(f1 + fmul(y[2], l2));
    let lhs = q0 * e0 + q1 * e1 + q2 * e2;
    assert(cong(three_point_value(y, r), lhs));
    // the inverses: 2 i0 = 1 + p m0, -i1 = 1 + p m1, 2 i2 = 1 + p m2
    lemma_cong_mul(i0, d0, i0, 2);
    lemma_cong_mul(i1, d1, i1, -1);
    lemma_cong_mul(i2, d2, i2, 2);
    vstd::arithmetic::div_mod::lemma_small_mod(1, p as nat);
    vstd::arithmetic::div_mod::lemma_fundamental_div_mod(i0 * 2, p);
    vstd::arithmetic::div_mod::lemma_fundamental_div_mod(i1 * -1, p);
    vstd::arithmetic::div_mod::lemma_fundamental_div_mod(i2 * 2, p);
    let m0 = (i0 * 2) / p;
    let m1 = (i1 * -1) / p;
    let m2 = (i2 * 2) / p;
    assert(i0 * 2 == p * m0 + 1);
    assert(i1 * -1 == p * m1 + 1);
    assert(i2 * 2 == p * m2 + 1);
    let z = lhs - qr;
    let rr0 = (r - 1) * (r - 2);
    let rr1 = r * (r - 2);
    let rr2 = r * (r - 1);
    let k = m0 * q0 * rr0 - 2 * m1 * q1 * rr1 + m2 * q2 * rr2;
    // q(x) = c + u x + w x^2
    let c = a0 * a1;
    let u = a0 * (b1 - a1) + a1 * (b0 - a0);
    let w = (b0 - a0) * (b1 - a1);
    assert(q0 == c) by (nonlinear_arith)
        requires
            q0 == (a0 + 0 * (b0 - a0)) * (a1 + 0 * (b1 - a1)),
            c == a0 * a1,
    ;
    assert(q1 == c + u + w) by (nonlinear_arith)
        requires
            q1 == (a0 + 1 * (b0 - a0)) * (a1 + 1 * (b1 - a1)),
            c == a0 * a1,
            u == a0 * (b1 - a1) + a1 * (b0 - a0),
            w == (b0 - a0) * (b1 - a1),
    ;
    assert(q2 == c + 2 * u + 4 * w) by (nonlinear_arith)
        requires
            q2 == (a0 + 2 * (b0 - a0)) * (a1 + 2 * (b1 - a1)),
            c == a0 * a1,
            u == a0 * (b1 - a1) + a1 * (b0 - a0),
            w == (b0 - a0) * (b1 - a1),
    ;
    let al = b0 - a0;
    let be = b1 - a1;
    let xx = a0 + r * al;
    let yy = a1 + r * be;
    vstd::arithmetic::mul::lemma_mul_is_distributive_add(xx, a1, r * be);
    vstd::arithmetic::mul::lemma_mul_is_distributive_add_other_way(a1, a0, r * al);
    vstd::arithmetic::mul::lemma_mul_is_distributive_add_other_way(r * be, a0, r * al);
    assert(a0 * (r * be) == r * (a0 * be)) by (nonlinear_arith);
    assert((r * al) * a1 == r * (a1 * al)) by (nonlinear_arith);
    assert((r * al) * (r * be) == (r * r) * (al * be)) by (nonlinear_arith);
    vstd::arithmetic::mul::lemma_mul_is_distributive_add(r, a0 * be, a1 * al);
    assert((a0 + r * al) * (a1 + r * be) == a0 * a1 + r * (a0 * be + a1 * al) + (r * r) * (al * be));
    assert(qr == c + u * r + w * (r * r)) by (nonlinear_arith)
        requires
            qr == (a0 + r * al) * (a1 + r * be),
            (a0 + r * al) * (a1 + r * be) == a0 * a1 + r * (a0 * be + a1 * al) + (r * r) * (al * be),
            c == a0 * a1,
            u == a0 * be + a1 * al,
            w == al * be,
    ;
    assert(rr0 - 2 * rr1 + rr2 - 2 == 0) by (nonlinear_arith)
        requires
            rr0 == (r - 1) * (r - 2),
            rr1 == r * (r - 2),
            rr2 == r * (r - 1),
    ;
    assert(-2 * rr1 + 2 * rr2 - 2 * r == 0) by (nonlinear_arith)
        requires
            rr1 == r * (r - 2),
            rr2 == r * (r - 1),
    ;
    assert(-2 * rr1 + 4 * rr2 - 2 * (r * r) == 0) by (nonlinear_arith)
        requires
            rr1 == r * (r - 2),
            rr2 == r * (r - 1),
    ;
    assert(c * rr0 == 2 * (c * rr1) - c * rr2 + 2 * c) by (nonlinear_arith)
        requires
            rr0 == 2 * rr1 - rr2 + 2,
    ;
    assert(u * rr2 == u * rr1 + u * r) by (nonlinear_arith)
        requires
            rr2 == rr1 + r,
    ;
    assert(2 * (w * rr2) == w * rr1 + w * (r * r)) by (nonlinear_arith)
        requires
            2 * rr2 == rr1 + r * r,
    ;
    assert(q1 * rr1 == c * rr1 + u * rr1 + w * rr1) by (nonlinear_arith)
        requires
            q1 == c + u + w,
    ;
    assert(q2 * rr2 == c * rr2 + 2 * (u * rr2) + 4 * (w * rr2)) by (nonlinear_arith)
        requires
            q2 == c + 2 * u + 4 * w,
    ;
    assert(q0 * rr0 == c * rr0);
    assert(q0 * rr0 - 2 * (q1 * rr1) + q2 * rr2 - 2 * qr == 0);
    assert(2 * q1 * rr1 == 2 * (q1 * rr1)) by (nonlinear_arith);
    assert(q0 * rr0 - 2 * q1 * rr1 + q2 * rr2 - 2 * qr == 0);
    let t0 = q0 * (i0 * rr0);
    let t1 = q1 * (i1 * rr1);
    let t2 = q2 * (i2 * rr2);
    assert(2 * t0 == p * (m0 * q0 * rr0) + q0 * rr0) by (nonlinear_arith)
        requires
            t0 == q0 * (i0 * rr0),
            i0 * 2 == p * m0 + 1,
    ;
    assert(2 * t1 == -2 * (p * (m1 * q1 * rr1)) - 2 * (q1 * rr1)) by (nonlinear_arith)
        requires
            t1 == q1 * (i1 * rr1),
            i1 * -1 == p * m1 + 1,
    ;
    assert(2 * t2 == p * (m2 * q2 * rr2) + q2 * rr2) by (nonlinear_arith)
        requires
            t2 == q2 * (i2 * rr2),
            i2 * 2 == p * m2 + 1,
    ;
    assert(p * k == p * (m0 * q0 * rr0) - 2 * (p * (m1 * q1 * rr1)) + p * (m2 * q2 * rr2)) by (nonlinear_arith)
        requires
            k == m0 * q0 * rr0 - 2 * m1 * q1 * rr1 + m2 * q2 * rr2,
    ;
    assert(2 * q1 * rr1 == 2 * (q1 * rr1)) by (nonlinear_arith);
    assert(z == t0 + t1 + t2 - qr);
    assert(2 * z == 0 + p * k);
    lemma_cong_shift(2 * z, 0, k);
    assert(z == i0 * (2 * z) + p * (-m0 * z)) by (nonlinear_arith)
        requires
            i0 * 2 == p * m0 + 1,
    ;
    lemma_cong_shift(z, i0 * (2 * z), -m0 * z);
    lemma_cong_mul(i0, 2 * z, i0, 0);
    assert(i0 * 0 == 0);
    assert(cong(z, 0));
    lemma_cong_add(z, qr, 0, qr);
    assert(z + qr == lhs);
    lemma_peval_range(interpolation(three_points(), y, 3), r);
    vstd::arithmetic::div_mod::lemma_mod_bound(fmul(1, lerp(a0, b0, r)) * lerp(a1, b1, r), p);
    lemma_cong_reduced(three_point_value(y, r), line_product(a0, b0, a1, b1, r));
}

/// The value through three points as an integer combination of the values.
proof fn lemma_three_point_value_cong(y: Seq<int>, r: int)
    requires
        y.len() == 3,
    ensures
        cong(
            three_point_value(y, r),
            y[0] * node_basis(0, r) + y[1] * node_basis(1, r) + y[2] * node_basis(2, r),
        ),
{
    let l0 = node_basis(0, r);
    let l1 = node_basis(1, r);
    let l2 = node_basis(2, r);
    lemma_three_point_value_expand(y, r);
    lemma_cong_mod(y[0] * l0);
    lemma_cong_mod(y[1] * l1);
    lemma_cong_mod(y[2] * l2);
    lemma_cong_add(0, fmul(y[0], l0), 0, y[0] * l0);
    lemma_cong_mod(0 + fmul(y[0], l0));
    lemma_cong_add(fadd(0, fmul(y[0], l0)), fmul(y[1], l1), y[0] * l0, y[1] * l1);
    lemma_cong_mod(fadd(0, fmul(y[0], l0)) + fmul(y[1], l1));
    let f1 = fadd(fadd(0, fmul(y[0], l0)), fmul(y[1], l1));
    lemma_cong_add(f1, fmul(y[2], l2), y[0] * l0 + y[1] * l1, y[2] * l2);
    lemma_cong_mod(f1 + fmul(y[2], l2));
}

/// The value through three points is additive in the values.
proof fn lemma_three_point_value_add(u: Seq<int>, v: Seq<int>, r: int)
    requires
        u.len() == 3,
        v.len() == 3,
    ensures
        three_point_value(seq![fadd(u[0], v[0]), fadd(u[1], v[1]), fadd(u[2], v[2])], r) == fadd(
            three_point_value(u, r),
            three_point_value(v, r),
        ),
{
    let w = seq![fadd(u[0], v[0]), fadd(u[1], v[1]), fadd(u[2], v[2])];
    let l0 = node_basis(0, r);
    let l1 = node_basis(1, r);
    let l2 = node_basis(2, r);
    lemma_three_point_value_expand(u, r);
    lemma_three_point_value_expand(v, r);
    lemma_three_point_value_expand(w, r);
    let iu = u[0] * l0 + u[1] * l1 + u[2] * l2;
    let iv = v[0] * l0 + v[1] * l1 + v[2] * l2;
    lemma_three_point_value_cong(u, r);
    lemma_three_point_value_cong(v, r);
    lemma_three_point_value_cong(w, r);
    lemma_cong_mod(u[0] + v[0]);
    lemma_cong_mod(u[1] + v[1]);
    lemma_cong_mod(u[2] + v[2]);
    lemma_cong_mul(w[0], l0, u[0] + v[0], l0);
    lemma_cong_mul(w[1], l1, u[1] + v[1], l1);
    lemma_cong_mul(w[2], l2, u[2] + v[2], l2);
    lemma_cong_add(w[0] * l0, w[1] * l1, (u[0] + v[0]) * l0, (u[1] + v[1]) * l1);
    lemma_cong_add(w[0] * l0 + w[1] * l1, w[2] * l2, (u[0] + v[0]) * l0 + (u[1] + v[1]) * l1, (u[2] + v[2]) * l2);
    assert((u[0] + v[0]) * l0 + (u[1] + v[1]) * l1 + (u[2] + v[2]) * l2 == iu + iv) by (nonlinear_arith)
        requires
            iu == u[0] * l0 + u[1] * l1 + u[2] * l2,
            iv == v[0] * l0 + v[1] * l1 + v[2] * l2,
    ;
    let tu = three_point_value(u, r);
    let tv = three_point_value(v, r);
    lemma_cong_add(tu, tv, iu, iv);
    lemma_cong_mod(tu + tv);
    lemma_peval_range(interpolation(three_points(), w, 3), r);
    vstd::arithmetic::div_mod::lemma_mod_bound(tu + tv, modulus());
    lemma_cong_reduced(three_point_value(w, r), fadd(tu, tv));
}

/// Zero values give zero.
proof fn lemma_three_point_value_zero(r: int)
    ensures
        three_point_value(seq![0int, 0int, 0int], r) == 0,
{
    let y = seq![0int, 0int, 0int];
    lemma_three_point_value_expand(y, r);
    vstd::arithmetic::div_mod::lemma_small_mod(0, modulus() as nat);
    assert(0 * node_basis(0, r) == 0);
    assert(0 * node_basis(1, r) == 0);
    assert(0 * node_basis(2, r) == 0);
}

/// A sum of products of two multilinear tables each, in `n` variables,
/// with reduced entries: the shape of the summand of a GKR layer.
pub open spec fn product_pairs(tss: Seq<Seq<Seq<int>>>, n: nat) -> bool {
    &&& tss.len() > 0
    &&& forall|j: int|
        0 <= j < tss.len() ==> {
            &&& (#[trigger] tss[j]).len() == 2
            &&& tss[j][0].len() == pow2(n)
            &&& tss[j][1].len() == pow2(n)
            &&& reduced_table(tss[j][0])
            &&& reduced_table(tss[j][1])
        }
}

/// Entry `k` of the sum with the top variable set to `x`, over the first `m` products.
spec fn column_at(tss: Seq<Seq<Seq<int>>>, n: nat, x: int, k: int, m: nat) -> int {
    column_sum(partial_tables(tss, (n - 1) as nat, x), k, m)
}

/// With the top variable set to `x`, entry `k` of product `j` is a product of two lines in `x`.
proof fn lemma_product_entry(tss: Seq<Seq<Seq<int>>>, n: nat, j: int, k: int, x: int)
    requires
        n >= 1,
        product_pairs(tss, n),
        0 <= j < tss.len(),
        0 <= k < pow2((n - 1) as nat),
    ensures
        ({
            let h = pow2((n - 1) as nat) as int;
            let t0 = tss[j][0];
            let t1 = tss[j][1];
            reduce_product(partial_tables(tss, (n - 1) as nat, x)[j])[k] == line_product(
                t0[k],
                t0[k + h],
                t1[k],
                t1[k + h],
                x,
            )
        }),
{
    let h = pow2((n - 1) as nat) as int;
    let pt = partial_tables(tss, (n - 1) as nat, x);
    let t0 = tss[j][0];
    let t1 = tss[j][1];
    crate::multilinear::lemma_msb_partial_eval(t0, n, x);
    crate::multilinear::lemma_msb_partial_eval(t1, n, x);
    assert(pt[j] == tss[j].map_values(|t: Seq<int>| partial_eval(t, (n - 1) as nat, x)));
    assert(pt[j].len() == 2);
    assert(pt[j][0] == partial_eval(t0, (n - 1) as nat, x));
    assert(pt[j][1] == partial_eval(t1, (n - 1) as nat, x));
    assert(pt[j][0][k] == lerp(t0[k], t0[k + h], x));
    assert(pt[j][1][k] == lerp(t1[k], t1[k + h], x));
    assert(column_product(pt[j], k, 0) == 1);
    assert(column_product(pt[j], k, 1) == fmul(1, pt[j][0][k]));
    assert(column_product(pt[j], k, 2) == fmul(fmul(1, pt[j][0][k]), pt[j][1][k]));
    assert(pt[j][0].len() == h);
    assert(reduce_product(pt[j])[k] == column_product(pt[j], k, 2));
}

/// A column of the sum, with the top variable set to `r`, is given by the
/// three-point polynomial through its values at 0, 1 and 2.
proof fn lemma_column_reproduced(tss: Seq<Seq<Seq<int>>>, n: nat, k: int, m: nat, r: int)
    requires
        n >= 1,
        product_pairs(tss, n),
        0 <= k < pow2((n - 1) as nat),
        m <= tss.len(),
    ensures
        column_at(tss, n, r, k, m) == three_point_value(
            seq![column_at(tss, n, 0, k, m), column_at(tss, n, 1, k, m), column_at(tss, n, 2, k, m)],
            r,
        ),
    decreases m,
{
    if m == 0 {
        lemma_three_point_value_zero(r);
        assert(seq![column_at(tss, n, 0, k, m), column_at(tss, n, 1, k, m), column_at(tss, n, 2, k, m)]
            =~= seq![0int, 0int, 0int]);
    } else {
        lemma_column_reproduced(tss, n, k, (m - 1) as nat, r);
        let h = pow2((n - 1) as nat) as int;
        let j = m - 1;
        let t0 = tss[j][0];
        let t1 = tss[j][1];
        lemma_product_entry(tss, n, j, k, 0);
        lemma_product_entry(tss, n, j, k, 1);
        lemma_product_entry(tss, n, j, k, 2);
        lemma_product_entry(tss, n, j, k, r);
        lemma_line_product_reproduced(t0[k], t0[k + h], t1[k], t1[k + h], r);
        let u = seq![
            column_at(tss, n, 0, k, (m - 1) as nat),
            column_at(tss, n, 1, k, (m - 1) as nat),
            column_at(tss, n, 2, k, (m - 1) as nat),
        ];
        let v = seq![
            line_product(t0[k], t0[k + h], t1[k], t1[k + h], 0),
            line_product(t0[k], t0[k + h], t1[k], t1[k + h], 1),
            line_product(t0[k], t0[k + h], t1[k], t1[k + h], 2),
        ];
        lemma_three_point_value_add(u, v, r);
        assert(seq![column_at(tss, n, 0, k, m), column_at(tss, n, 1, k, m), column_at(tss, n, 2, k, m)]
            =~= seq![fadd(u[0], v[0]), fadd(u[1], v[1]), fadd(u[2], v[2])]);
    }
}

/// The sum over the first `count` columns with the top variable set to `x`.
spec fn sum_at_columns(tss: Seq<Seq<Seq<int>>>, n: nat, x: int, count: nat) -> int {
    fsum(Seq::new(count, |k: int| column_at(tss, n, x, k, tss.len())))
}

proof fn lemma_sum_reproduced(tss: Seq<Seq<Seq<int>>>, n: nat, count: nat, r: int)
    requires
        n >= 1,
        product_pairs(tss, n),
        count <= pow2((n - 1) as nat),
    ensures
        sum_at_columns(tss, n, r, count) == three_point_value(
            seq![sum_at_columns(tss, n, 0, count), sum_at_columns(tss, n, 1, count), sum_at_columns(tss, n, 2, count)],
            r,
        ),
    decreases count,
{
    if count == 0 {
        lemma_three_point_value_zero(r);
        assert forall|x: int| #[trigger] sum_at_columns(tss, n, x, 0) == 0 by {
            assert(Seq::new(0, |k: int| column_at(tss, n, x, k, tss.len())) =~= Seq::<int>::empty());
        }
        assert(seq![sum_at_columns(tss, n, 0, count), sum_at_columns(tss, n, 1, count), sum_at_columns(tss, n, 2, count)]
            =~= seq![0int, 0int, 0int]);
    } else {
        let c1 = (count - 1) as nat;
        lemma_sum_reproduced(tss, n, c1, r);
        lemma_column_reproduced(tss, n, c1 as int, tss.len(), r);
        assert forall|x: int| #[trigger] sum_at_columns(tss, n, x, count) == fadd(
            sum_at_columns(tss, n, x, c1),
            column_at(tss, n, x, c1 as int, tss.len()),
        ) by {
            let sq = Seq::new(count, |k: int| column_at(tss, n, x, k, tss.len()));
            assert(sq.drop_last() =~= Seq::new(c1, |k: int| column_at(tss, n, x, k, tss.len())));
        }
        let u = seq![sum_at_columns(tss, n, 0, c1), sum_at_columns(tss, n, 1, c1), sum_at_columns(tss, n, 2, c1)];
        let v = seq![
            column_at(tss, n, 0, c1 as int, tss.len()),
            column_at(tss, n, 1, c1 as int, tss.len()),
            column_at(tss, n, 2, c1 as int, tss.len()),
        ];
        lemma_three_point_value_add(u, v, r);
        assert(seq![sum_at_columns(tss, n, 0, count), sum_at_columns(tss, n, 1, count), sum_at_columns(tss, n, 2, count)]
            =~= seq![fadd(u[0], v[0]), fadd(u[1], v[1]), fadd(u[2], v[2])]);
    }
}

/// With the top variable set to `x`, the sum over the hypercube is the sum of the columns.
proof fn lemma_partial_sum_columns(tss: Seq<Seq<Seq<int>>>, n: nat, x: int)
    requires
        n >= 1,
        product_pairs(tss, n),
    ensures
        fsum(reduce_sum(partial_tables(tss, (n - 1) as nat, x))) == sum_at_columns(tss, n, x, pow2((n - 1) as nat)),
{
    let pt = partial_tables(tss, (n - 1) as nat, x);
    lemma_pow2_unfold(n);
    assert(pt[0] == tss[0].map_values(|t: Seq<int>| partial_eval(t, (n - 1) as nat, x)));
    assert(pt[0][0] == partial_eval(tss[0][0], (n - 1) as nat, x));
    assert(pt[0][0].len() == pow2((n - 1) as nat));
    assert(reduce_sum(pt) =~= Seq::new(pow2((n - 1) as nat), |k: int| column_at(tss, n, x, k, tss.len())));
}

/// Setting the top variable to 0 or to 1 picks the first or the second half of each column.
proof fn lemma_columns_at_ends(tss: Seq<Seq<Seq<int>>>, n: nat, k: int, m: nat)
    requires
        n >= 1,
        product_pairs(tss, n),
        0 <= k < pow2((n - 1) as nat),
        m <= tss.len(),
    ensures
        column_at(tss, n, 0, k, m) == column_sum(tss, k, m),
        column_at(tss, n, 1, k, m) == column_sum(tss, k + pow2((n - 1) as nat), m),
    decreases m,
{
    if m > 0 {
        lemma_columns_at_ends(tss, n, k, (m - 1) as nat);
        let h = pow2((n - 1) as nat) as int;
        let j = m - 1;
        let t0 = tss[j][0];
        let t1 = tss[j][1];
        lemma_pow2_unfold(n);
        lemma_product_entry(tss, n, j, k, 0);
        lemma_product_entry(tss, n, j, k, 1);
        lemma_lerp_ends(t0[k], t0[k + h]);
        lemma_lerp_ends(t1[k], t1[k + h]);
        assert(column_product(tss[j], k, 0) == 1);
        assert(column_product(tss[j], k + h, 0) == 1);
        assert(column_product(tss[j], k, 1) == fmul(1, t0[k]));
        assert(column_product(tss[j], k + h, 1) == fmul(1, t0[k + h]));
        assert(tss[j][0].len() == pow2(n));
        assert(reduce_product(tss[j])[k] == column_product(tss[j], k, 2));
        assert(reduce_product(tss[j])[k + h] == column_product(tss[j], k + h, 2));
    }
}

/// The sum over the hypercube is the sum with the top variable at 0 plus
/// the sum with it at 1.
proof fn lemma_sum_halves(tss: Seq<Seq<Seq<int>>>, n: nat)
    requires
        n >= 1,
        product_pairs(tss, n),
    ensures
        fsum(reduce_sum(tss)) == fadd(
            fsum(reduce_sum(partial_tables(tss, (n - 1) as nat, 0))),
            fsum(reduce_sum(partial_tables(tss, (n - 1) as nat, 1))),
        ),
{
    let h = pow2((n - 1) as nat) as int;
    lemma_pow2_unfold(n);
    lemma_partial_sum_columns(tss, n, 0);
    lemma_partial_sum_columns(tss, n, 1);
    let x = Seq::new(h as nat, |k: int| column_at(tss, n, 0, k, tss.len()));
    let y = Seq::new(h as nat, |k: int| column_at(tss, n, 1, k, tss.len()));
    assert forall|k: int| 0 <= k < h implies #[trigger] x[k] == column_sum(tss, k, tss.len()) by {
        lemma_columns_at_ends(tss, n, k, tss.len());
    }
    assert forall|k: int| 0 <= k < h implies #[trigger] y[k] == column_sum(tss, k + h, tss.len()) by {
        lemma_columns_at_ends(tss, n, k, tss.len());
    }
    assert(tss[0][0].len() == pow2(n));
    assert forall|i: int| 0 <= i < 2 * h implies #[trigger] reduce_sum(tss)[i] == (x + y)[i] by {
        if i >= h {
            assert(y[i - h] == column_sum(tss, (i - h) + h, tss.len()));
        }
    }
    assert(reduce_sum(tss) =~= x + y);
    lemma_fsum_range(x);
    lemma_fsum_concat(x, y);
}

/// The tables after their top variables are set to `chals`, one after the other.
pub open spec fn fixed_tables(tss: Seq<Seq<Seq<int>>>, n: nat, chals: Seq<int>) -> Seq<Seq<Seq<int>>>
    decreases chals.len(),
{
    if chals.len() == 0 || n == 0 {
        tss
    } else {
        fixed_tables(partial_tables(tss, (n - 1) as nat, chals[0]), (n - 1) as nat, chals.drop_first())
    }
}

/// Setting the top variable keeps the shape, one variable fewer.
proof fn lemma_product_pairs_partial(tss: Seq<Seq<Seq<int>>>, n: nat, x: int)
    requires
        n >= 1,
        product_pairs(tss, n),
    ensures
        product_pairs(partial_tables(tss, (n - 1) as nat, x), (n - 1) as nat),
{
    let pt = partial_tables(tss, (n - 1) as nat, x);
    lemma_pow2_unfold(n);
    assert forall|j: int| 0 <= j < pt.len() implies {
        &&& (#[trigger] pt[j]).len() == 2
        &&& pt[j][0].len() == pow2((n - 1) as nat)
        &&& pt[j][1].len() == pow2((n - 1) as nat)
        &&& reduced_table(pt[j][0])
        &&& reduced_table(pt[j][1])
    } by {
        assert(tss[j].len() == 2);
        assert(pt[j][0] == partial_eval(tss[j][0], (n - 1) as nat, x));
        assert(pt[j][1] == partial_eval(tss[j][1], (n - 1) as nat, x));
        assert forall|m: int, i: int| 0 <= m < 2 && 0 <= i < pt[j][m].len() implies 0 <= #[trigger] pt[j][m][i] < modulus() by {
            let t = tss[j][m];
            let lo = crate::multilinear::low_index(i, (n - 1) as nat);
            vstd::arithmetic::div_mod::lemma_mod_bound(t[lo] + fmul(x, fsub(t[lo + pow2((n - 1) as nat) as int], t[lo])), modulus());
        }
    }
}

/// Sumcheck for a sum of products of two multilinear tables each, the
/// summand of a GKR layer: when the claim is the true sum over the
/// hypercube, the verifier passes every round, draws the prover's
/// challenges, leaves the transcript as the prover did, and ends with the
/// summand's value at those challenges.
pub proof fn lemma_partial_sumcheck_complete(tss: Seq<Seq<Seq<int>>>, n: nat, st: Seq<u8>)
    requires
        product_pairs(tss, n),
    ensures
        ({
            let rounds = honest_partial_rounds(tss, n, st);
            let run = verifier_run(rounds, fsum(reduce_sum(tss)), st);
            &&& run.0 == prover_challenges(rounds, st)
            &&& run.2 == prover_state(rounds, st)
            &&& run.0.len() == n
            &&& run.1 == fsum(reduce_sum(fixed_tables(tss, n, run.0)))
        }),
    decreases n,
{
    let rounds = honest_partial_rounds(tss, n, st);
    let claim = fsum(reduce_sum(tss));
    if n == 0 {
        assert(rounds =~= Seq::<Seq<int>>::empty());
    } else {
        let c = round_poly_of(tss, n);
        let y = round_values(tss, n);
        // the round passes: the polynomial sums to the claim over 0 and 1
        lemma_three_points_basis();
        let s3 = three_points();
        assert(s3[0] == 0 && s3[1] == 1 && s3[2] == 2);
        assert(crate::univariate::distinct(s3));
        assert forall|i: int| 0 <= i < y.len() implies 0 <= #[trigger] y[i] < modulus() by {
            lemma_fsum_range(reduce_sum(partial_tables(tss, (n - 1) as nat, i)));
        }
        crate::univariate::lemma_interpolation_passes_through(s3, y);
        assert(peval(c, 0) == y[0]);
        assert(peval(c, 1) == y[1]);
        lemma_sum_halves(tss, n);
        assert(round_claim(c) == claim);
        // the next claim is the sum with the top variable set to the challenge
        let st1 = st + round_bytes(claim, c);
        let r = challenge_of(st1);
        let next = partial_tables(tss, (n - 1) as nat, r);
        lemma_sum_reproduced(tss, n, pow2((n - 1) as nat), r);
        lemma_partial_sum_columns(tss, n, 0);
        lemma_partial_sum_columns(tss, n, 1);
        lemma_partial_sum_columns(tss, n, 2);
        lemma_partial_sum_columns(tss, n, r);
        assert(y =~= seq![
            sum_at_columns(tss, n, 0, pow2((n - 1) as nat)),
            sum_at_columns(tss, n, 1, pow2((n - 1) as nat)),
            sum_at_columns(tss, n, 2, pow2((n - 1) as nat)),
        ]);
        assert(peval(c, r) == fsum(reduce_sum(next)));
        lemma_product_pairs_partial(tss, n, r);
        lemma_partial_sumcheck_complete(next, (n - 1) as nat, state_after_squeeze(st1));
        assert(rounds[0] == c);
        assert(rounds.drop_first() =~= honest_partial_rounds(next, (n - 1) as nat, state_after_squeeze(st1)));
        let run = verifier_run(rounds, claim, st);
        let rest = verifier_run(rounds.drop_first(), peval(c, r), state_after_squeeze(st1));
        assert(run.0 == seq![r] + rest.0);
        assert((seq![r] + rest.0).drop_first() =~= rest.0);
        assert((seq![r] + rest.0)[0] == r);
    }
}

/// Once every variable is set, each table holds the value of its polynomial
/// at the challenges.
proof fn lemma_fixed_tables_values(tss: Seq<Seq<Seq<int>>>, n: nat, chals: Seq<int>)
    requires
        small_products(tss, n),
        chals.len() == n,
    ensures
        fixed_tables(tss, n, chals).len() == tss.len(),
        forall|j: int| 0 <= j < tss.len() ==> (#[trigger] fixed_tables(tss, n, chals)[j]).len() == tss[j].len(),
        forall|j: int, m: int|
            0 <= j < tss.len() && 0 <= m < tss[j].len() ==> (#[trigger] fixed_tables(tss, n, chals)[j][m]) == seq![
                ml_eval(tss[j][m], n, chals),
            ],
    decreases n,
{
    if n == 0 {
        vstd::arithmetic::power2::lemma2_to64();
        assert forall|j: int, m: int| 0 <= j < tss.len() && 0 <= m < tss[j].len() implies (#[trigger] fixed_tables(tss, n, chals)[j][m])
            == seq![ml_eval(tss[j][m], n, chals)] by {
            assert(tss[j][m].len() == 1);
            assert(tss[j][m] =~= seq![tss[j][m][0]]);
        }
    } else {
        let pt = partial_tables(tss, (n - 1) as nat, chals[0]);
        lemma_pad_partial(tss, n, chals[0]);
        lemma_fixed_tables_values(pt, (n - 1) as nat, chals.drop_first());
        assert forall|j: int, m: int| 0 <= j < tss.len() && 0 <= m < tss[j].len() implies (#[trigger] fixed_tables(tss, n, chals)[j][m])
            == seq![ml_eval(tss[j][m], n, chals)] by {
            assert(pt[j][m] == partial_eval(tss[j][m], (n - 1) as nat, chals[0]));
            assert(fixed_tables(pt, (n - 1) as nat, chals.drop_first())[j][m] == seq![
                ml_eval(pt[j][m], (n - 1) as nat, chals.drop_first()),
            ]);
        }
    }
}

/// A sum of products whose tables all hold one value sums to the sum of
/// the products of those values.
proof fn lemma_fixed_sum(f: SumPoly, chals: Seq<int>, m: nat)
    requires
        f.wf(),
        f.polys@.len() > 0,
        small_products(f.tables(), f.arity()),
        chals.len() == f.arity(),
        m <= f.polys@.len(),
    ensures
        column_sum(fixed_tables(f.tables(), f.arity(), chals), 0, m) == sum_at(f.polys@, chals, m),
    decreases m,
{
    let tss = f.tables();
    let n = f.arity();
    let fx = fixed_tables(tss, n, chals);
    lemma_fixed_tables_values(tss, n, chals);
    if m > 0 {
        lemma_fixed_sum(f, chals, (m - 1) as nat);
        let j = m - 1;
        let pp = f.polys@[j];
        assert(pp.wf() && pp.polys@.len() > 0 && pp.arity() == f.arity());
        assert(tss[j] == pp.tables());
        assert(pp.polys@[0].n_vars == n);
        assert(pp.polys@[0].table() == tss[j][0]);
        assert(fx[j][0] == seq![ml_eval(tss[j][0], n, chals)]);
        assert(column_product(fx[j], 0, 0) == 1);
        assert(column_product(fx[j], 0, 1) == fmul(1, fx[j][0][0]));
        assert(product_at(pp.polys@, chals, 0) == 1);
        assert(product_at(pp.polys@, chals, 1) == fmul(1, ml_eval(tss[j][0], n, chals)));
        assert(reduce_product(fx[j])[0] == column_product(fx[j], 0, fx[j].len()));
        assert(pp.value_at(chals) == product_at(pp.polys@, chals, pp.polys@.len()));
        if tss[j].len() == 2 {
            assert(pp.polys@[1].n_vars == n);
            assert(pp.polys@[1].table() == tss[j][1]);
            assert(fx[j][1] == seq![ml_eval(tss[j][1], n, chals)]);
        }
    }
}

/// Sumcheck for a `SumPoly` whose products have one or two factors each
/// (the summand of a GKR layer has two): started from its true sum over the
/// hypercube, the verifier passes every round, draws the prover's
/// challenges, leaves the transcript as the prover did, and ends with the
/// value that `SumPoly::evaluate` gives at those challenges.
pub proof fn lemma_partial_sumcheck_complete_poly(f: SumPoly, st: Seq<u8>)
    requires
        f.wf(),
        f.polys@.len() > 0,
        forall|j: int| 0 <= j < f.polys@.len() ==> (#[trigger] f.polys@[j]).polys@.len() <= 2,
    ensures
        ({
            let rounds = honest_partial_rounds(f.tables(), f.arity(), st);
            let run = verifier_run(rounds, fsum(f.reduced()), st);
            &&& run.0 == prover_challenges(rounds, st)
            &&& run.2 == prover_state(rounds, st)
            &&& run.0.len() == f.arity()
            &&& run.1 == f.value_at(run.0)
        }),
{
    let tss = f.tables();
    let n = f.arity();
    assert forall|j: int| 0 <= j < tss.len() implies {
        &&& 1 <= (#[trigger] tss[j]).len() <= 2
        &&& forall|m: int| 0 <= m < tss[j].len() ==> (#[trigger] tss[j][m]).len() == pow2(n) && reduced_table(tss[j][m])
    } by {
        let pp = f.polys@[j];
        assert(pp.wf() && pp.polys@.len() > 0 && pp.arity() == n);
        assert forall|m: int| 0 <= m < tss[j].len() implies (#[trigger] tss[j][m]).len() == pow2(n) && reduced_table(tss[j][m]) by {
            assert(pp.polys@[m].wf() && pp.polys@[m].n_vars == pp.polys@[0].n_vars);
            assert(tss[j][m] == pp.polys@[m].table());
            assert forall|i: int| 0 <= i < tss[j][m].len() implies 0 <= #[trigger] tss[j][m][i] < modulus() by {
                crate::field::lemma_val_range(pp.polys@[m].evals@[i]);
            }
        }
    }
    assert(small_products(tss, n));
    lemma_small_sumcheck_complete(tss, n, st);
    let rounds = honest_partial_rounds(tss, n, st);
    let run = verifier_run(rounds, fsum(reduce_sum(tss)), st);
    let fx = fixed_tables(tss, n, run.0);
    lemma_fixed_tables_values(tss, n, run.0);
    lemma_fixed_sum(f, run.0, f.polys@.len());
    assert(fx[0][0] == seq![ml_eval(tss[0][0], n, run.0)]);
    let rs = reduce_sum(fx);
    assert(rs.len() == 1);
    assert(rs.drop_last() =~= Seq::<int>::empty());
    assert(fsum(rs.drop_last()) == 0);
    assert(fx.len() == f.polys@.len());
    assert(rs[0] == column_sum(fx, 0, fx.len()));
    assert(rs.last() == rs[0]);
    assert(fsum(rs) == fadd(0, column_sum(fx, 0, f.polys@.len())));
    vstd::arithmetic::div_mod::lemma_small_mod(0, modulus() as nat);
    lemma_sum_at_range(f.polys@, run.0, f.polys@.len());
    crate::field::lemma_reduced(sum_at(f.polys@, run.0, f.polys@.len()));
}

proof fn lemma_sum_at_range(ps: Seq<crate::composed::ProductPoly>, point: Seq<int>, m: nat)
    ensures
        0 <= sum_at(ps, point, m) < modulus(),
{
    if m > 0 {
        vstd::arithmetic::div_mod::lemma_mod_bound(sum_at(ps, point, (m - 1) as nat) + ps[m - 1].value_at(point), modulus());
    } else {
        vstd::arithmetic::div_mod::lemma_small_mod(0, modulus() as nat);
    }
}

/// A sum of products of one or two multilinear tables each, in `n`
/// variables, with reduced entries.
pub open spec fn small_products(tss: Seq<Seq<Seq<int>>>, n: nat) -> bool {
    &&& tss.len() > 0
    &&& forall|j: int|
        0 <= j < tss.len() ==> {
            &&& 1 <= (#[trigger] tss[j]).len() <= 2
            &&& forall|m: int| 0 <= m < tss[j].len() ==> (#[trigger] tss[j][m]).len() == pow2(n) && reduced_table(tss[j][m])
        }
}

/// The table that is one everywhere.
pub open spec fn ones(n: nat) -> Seq<int> {
    Seq::new(pow2(n), |i: int| 1)
}

/// Each product of a single table given the constant one as second factor.
pub open spec fn pad_products(tss: Seq<Seq<Seq<int>>>, n: nat) -> Seq<Seq<Seq<int>>> {
    tss.map_values(|ts: Seq<Seq<int>>| if ts.len() == 1 { ts.push(ones(n)) } else { ts })
}

proof fn lemma_pad_shape(tss: Seq<Seq<Seq<int>>>, n: nat)
    requires
        small_products(tss, n),
    ensures
        product_pairs(pad_products(tss, n), n),
{
    let pd = pad_products(tss, n);
    vstd::arithmetic::div_mod::lemma_small_mod(1, modulus() as nat);
    assert forall|j: int| 0 <= j < pd.len() implies {
        &&& (#[trigger] pd[j]).len() == 2
        &&& pd[j][0].len() == pow2(n)
        &&& pd[j][1].len() == pow2(n)
        &&& reduced_table(pd[j][0])
        &&& reduced_table(pd[j][1])
    } by {
        assert(tss[j][0].len() == pow2(n) && reduced_table(tss[j][0]));
        if tss[j].len() == 2 {
            assert(tss[j][1].len() == pow2(n) && reduced_table(tss[j][1]));
        }
    }
}

proof fn lemma_ones_partial(n: nat, x: int)
    requires
        n >= 1,
    ensures
        partial_eval(ones(n), (n - 1) as nat, x) =~= ones((n - 1) as nat),
{
    lemma_pow2_unfold(n);
    crate::multilinear::lemma_msb_partial_eval(ones(n), n, x);
    vstd::arithmetic::div_mod::lemma_small_mod(1, modulus() as nat);
    lemma_lerp_ends(1, 1);
    crate::multilinear::lemma_lerp_int(1, 1, x);
    assert(x * (1 - 1) == 0);
}

/// Setting the top variable commutes with padding.
proof fn lemma_pad_partial(tss: Seq<Seq<Seq<int>>>, n: nat, x: int)
    requires
        n >= 1,
        small_products(tss, n),
    ensures
        partial_tables(pad_products(tss, n), (n - 1) as nat, x) =~= pad_products(
            partial_tables(tss, (n - 1) as nat, x),
            (n - 1) as nat,
        ),
        small_products(partial_tables(tss, (n - 1) as nat, x), (n - 1) as nat),
{
    let pt = partial_tables(tss, (n - 1) as nat, x);
    lemma_ones_partial(n, x);
    lemma_pow2_unfold(n);
    assert forall|j: int| 0 <= j < tss.len() implies #[trigger] partial_tables(pad_products(tss, n), (n - 1) as nat, x)[j]
        =~= pad_products(pt, (n - 1) as nat)[j] by {
        if tss[j].len() == 1 {
            assert(tss[j].push(ones(n))[1] == ones(n));
        }
    }
    assert forall|j: int| 0 <= j < pt.len() implies {
        &&& 1 <= (#[trigger] pt[j]).len() <= 2
        &&& forall|m: int| 0 <= m < pt[j].len() ==> (#[trigger] pt[j][m]).len() == pow2((n - 1) as nat) && reduced_table(pt[j][m])
    } by {
        assert forall|m: int| 0 <= m < pt[j].len() implies (#[trigger] pt[j][m]).len() == pow2((n - 1) as nat) && reduced_table(pt[j][m]) by {
            let t = tss[j][m];
            assert(t.len() == pow2(n) && reduced_table(t));
            assert(pt[j][m] == partial_eval(t, (n - 1) as nat, x));
            assert forall|i: int| 0 <= i < pt[j][m].len() implies 0 <= #[trigger] pt[j][m][i] < modulus() by {
                let lo = crate::multilinear::low_index(i, (n - 1) as nat);
                vstd::arithmetic::div_mod::lemma_mod_bound(t[lo] + fmul(x, fsub(t[lo + pow2((n - 1) as nat) as int], t[lo])), modulus());
            }
        }
    }
}

/// Padding leaves the pointwise sum of products unchanged.
proof fn lemma_pad_reduce(tss: Seq<Seq<Seq<int>>>, n: nat)
    requires
        small_products(tss, n),
    ensures
        reduce_sum(pad_products(tss, n)) =~= reduce_sum(tss),
{
    let pd = pad_products(tss, n);
    vstd::arithmetic::div_mod::lemma_small_mod(1, modulus() as nat);
    assert(tss[0][0].len() == pow2(n));
    assert(pd[0][0] == tss[0][0]);
    assert forall|k: int| 0 <= k < pow2(n) implies #[trigger] column_sum(pd, k, tss.len()) == column_sum(tss, k, tss.len()) by {
        lemma_pad_column(tss, n, k, tss.len());
    }
}

proof fn lemma_pad_column(tss: Seq<Seq<Seq<int>>>, n: nat, k: int, m: nat)
    requires
        small_products(tss, n),
        0 <= k < pow2(n),
        m <= tss.len(),
    ensures
        column_sum(pad_products(tss, n), k, m) == column_sum(tss, k, m),
    decreases m,
{
    if m > 0 {
        lemma_pad_column(tss, n, k, (m - 1) as nat);
        let j = m - 1;
        let pd = pad_products(tss, n);
        let ts = tss[j];
        assert(pd[j] == (if ts.len() == 1 {
            ts.push(ones(n))
        } else {
            ts
        }));
        assert(ts[0].len() == pow2(n) && reduced_table(ts[0]));
        assert(column_product(ts, k, 0) == 1);
        assert(column_product(pd[j], k, 0) == 1);
        assert(pd[j][0] == ts[0]);
        assert(reduce_product(ts)[k] == column_product(ts, k, ts.len()));
        assert(reduce_product(pd[j])[k] == column_product(pd[j], k, 2));
        if ts.len() == 1 {
            assert(pd[j] == ts.push(ones(n)));
            assert(pd[j][1] == ones(n));
            assert(pd[j][1][k] == 1);
            assert(column_product(pd[j], k, 1) == fmul(1, ts[0][k]));
            assert(column_product(ts, k, 1) == fmul(1, ts[0][k]));
            assert(column_product(pd[j], k, 2) == fmul(column_product(pd[j], k, 1), 1));
            let y = column_product(ts, k, 1);
            vstd::arithmetic::div_mod::lemma_mod_bound(1 * ts[0][k], modulus());
            crate::field::lemma_reduced(y);
            assert(y * 1 == y) by (nonlinear_arith);
            assert(fmul(y, 1) == y);
        } else {
            assert(pd[j] == ts);
        }
    }
}

/// Padding does not change what an honest prover sends.
proof fn lemma_pad_rounds(tss: Seq<Seq<Seq<int>>>, n: nat, st: Seq<u8>)
    requires
        small_products(tss, n),
    ensures
        honest_partial_rounds(pad_products(tss, n), n, st) == honest_partial_rounds(tss, n, st),
    decreases n,
{
    if n > 0 {
        lemma_pad_partial(tss, n, 0);
        lemma_pad_partial(tss, n, 1);
        lemma_pad_partial(tss, n, 2);
        lemma_pad_reduce(partial_tables(tss, (n - 1) as nat, 0), (n - 1) as nat);
        lemma_pad_reduce(partial_tables(tss, (n - 1) as nat, 1), (n - 1) as nat);
        lemma_pad_reduce(partial_tables(tss, (n - 1) as nat, 2), (n - 1) as nat);
        assert(round_values(pad_products(tss, n), n) =~= round_values(tss, n));
        let c = round_poly_of(tss, n);
        let st1 = st + round_bytes(round_claim(c), c);
        let r = challenge_of(st1);
        lemma_pad_partial(tss, n, r);
        lemma_pad_rounds(partial_tables(tss, (n - 1) as nat, r), (n - 1) as nat, state_after_squeeze(st1));
    }
}

/// Padding commutes with setting every variable.
proof fn lemma_pad_fixed(tss: Seq<Seq<Seq<int>>>, n: nat, chals: Seq<int>)
    requires
        small_products(tss, n),
        chals.len() == n,
    ensures
        fixed_tables(pad_products(tss, n), n, chals) == pad_products(fixed_tables(tss, n, chals), 0),
        small_products(fixed_tables(tss, n, chals), 0),
    decreases n,
{
    if n > 0 {
        lemma_pad_partial(tss, n, chals[0]);
        lemma_pad_fixed(partial_tables(tss, (n - 1) as nat, chals[0]), (n - 1) as nat, chals.drop_first());
    }
}

/// Sumcheck for a sum of products of one or two multilinear tables each:
/// from the true sum over the hypercube the verifier passes every round,
/// draws the prover's challenges, leaves the transcript as the prover did,
/// and ends with the summand's value at those challenges.
pub proof fn lemma_small_sumcheck_complete(tss: Seq<Seq<Seq<int>>>, n: nat, st: Seq<u8>)
    requires
        small_products(tss, n),
    ensures
        ({
            let rounds = honest_partial_rounds(tss, n, st);
            let run = verifier_run(rounds, fsum(reduce_sum(tss)), st);
            &&& run.0 == prover_challenges(rounds, st)
            &&& run.2 == prover_state(rounds, st)
            &&& run.0.len() == n
            &&& run.1 == fsum(reduce_sum(fixed_tables(tss, n, run.0)))
        }),
{
    let pd = pad_products(tss, n);
    lemma_pad_shape(tss, n);
    lemma_pad_rounds(tss, n, st);
    lemma_pad_reduce(tss, n);
    lemma_partial_sumcheck_complete(pd, n, st);
    let rounds = honest_partial_rounds(tss, n, st);
    let run = verifier_run(rounds, fsum(reduce_sum(tss)), st);
    lemma_pad_fixed(tss, n, run.0);
    lemma_pad_reduce(fixed_tables(tss, n, run.0), 0);
}

/// Changing coefficient `j` by `d` changes the value at 1 by `d`, and the
/// value at 0 by `d` when `j` is the constant term.
proof fn lemma_peval_update_ends(c: Seq<int>, j: int, x: int, y: int)
    requires
        0 <= j < c.len(),
        y == 0 || y == 1,
    ensures
        cong(
            peval(c.update(j, x), y),
            peval(c, y) + (x - c[j]) * (if j == 0 || y == 1 {
                1int
            } else {
                0int
            }),
        ),
    decreases c.len(),
{
    let c2 = c.update(j, x);
    let d = x - c[j];
    let pd = peval(c.drop_first(), y);
    lemma_cong_mod(fmul(pd, y) + c[0]);
    lemma_cong_mod(pd * y);
    if j == 0 {
        assert(c2.drop_first() =~= c.drop_first());
        lemma_cong_mod(fmul(pd, y) + x);
        lemma_cong_add(fmul(pd, y), x, pd * y, x);
        lemma_cong_add(fmul(pd, y), c[0], pd * y, c[0]);
        assert(c2[0] == x);
        assert(pd * y + x == (pd * y + c[0]) + d * 1);
        lemma_cong_add(pd * y + c[0], d * 1, fmul(pd, y) + c[0], d * 1);
        lemma_cong_add(peval(c, y), d * 1, fmul(pd, y) + c[0], d * 1);
    } else {
        let cd = c.drop_first();
        assert(c2.drop_first() =~= cd.update(j - 1, x));
        assert(c2[0] == c[0]);
        lemma_peval_update_ends(cd, j - 1, x, y);
        let pd2 = peval(cd.update(j - 1, x), y);
        let e = if j - 1 == 0 || y == 1 {
            1int
        } else {
            0int
        };
        let e2 = if y == 1 {
            1int
        } else {
            0int
        };
        // pd2 = pd + d e, so pd2 y + c0 = pd y + c0 + d (e y)
        lemma_cong_mul(pd2, y, pd + d * e, y);
        lemma_cong_mod(pd2 * y);
        lemma_cong_add(fmul(pd2, y), c[0], (pd + d * e) * y, c[0]);
        lemma_cong_mod(fmul(pd2, y) + c[0]);
        assert((pd + d * e) * y + c[0] == (pd * y + c[0]) + d * e2) by (nonlinear_arith)
            requires
                y == 0 || y == 1,
                e2 == (if y == 1 {
                    1int
                } else {
                    0int
                }),
                y == 1 ==> e == 1,
        ;
        lemma_cong_add(fmul(pd, y), c[0], pd * y, c[0]);
        lemma_cong_add(pd * y + c[0], d * e2, fmul(pd, y) + c[0], d * e2);
        lemma_cong_add(peval(c, y), d * e2, fmul(pd, y) + c[0], d * e2);
    }
}

/// The sum over zero and one moves by `d`, or by `2 d` for the constant term.
proof fn lemma_round_claim_update(c: Seq<int>, j: int, x: int)
    requires
        0 <= j < c.len(),
    ensures
        cong(round_claim(c.update(j, x)), round_claim(c) + (x - c[j]) * (if j == 0 {
            2int
        } else {
            1int
        })),
{
    let d = x - c[j];
    lemma_peval_update_ends(c, j, x, 0);
    lemma_peval_update_ends(c, j, x, 1);
    let a0 = peval(c, 0);
    let a1 = peval(c, 1);
    let e0 = if j == 0 {
        1int
    } else {
        0int
    };
    lemma_cong_add(peval(c.update(j, x), 0), peval(c.update(j, x), 1), a0 + d * e0, a1 + d * 1);
    lemma_cong_mod(peval(c.update(j, x), 0) + peval(c.update(j, x), 1));
    lemma_cong_mod(a0 + a1);
    assert(a0 + d * e0 + (a1 + d * 1) == (a0 + a1) + d * (if j == 0 {
        2int
    } else {
        1int
    })) by (nonlinear_arith)
        requires
            e0 == (if j == 0 {
                1int
            } else {
                0int
            }),
    ;
    lemma_cong_add(a0 + a1, d * (if j == 0 {
        2int
    } else {
        1int
    }), round_claim(c), d * (if j == 0 {
        2int
    } else {
        1int
    }));
}

/// A non-zero difference of reduced values, or twice one, is not a multiple
/// of the (odd) modulus.
proof fn lemma_small_multiple_nonzero(d: int, k: int)
    requires
        -modulus() < d < modulus(),
        d != 0,
        k == 1 || k == 2,
    ensures
        !cong(d * k, 0),
{
    let p = modulus();
    vstd::arithmetic::div_mod::lemma_small_mod(0, p as nat);
    vstd::arithmetic::div_mod::lemma_fundamental_div_mod(d * k, p);
    let q = (d * k) / p;
    if cong(d * k, 0) {
        assert(d * k == p * q);
        assert(p % 2 == 1);
        assert(-2 * p < d * k < 2 * p) by (nonlinear_arith)
            requires
                -p < d < p,
                k == 1 || k == 2,
        ;
        assert(-2 < q < 2) by (nonlinear_arith)
            requires
                d * k == p * q,
                -2 * p < d * k < 2 * p,
                p > 0,
        ;
        if q == 0 {
            assert(p * q == 0) by (nonlinear_arith)
                requires
                    q == 0,
            ;
            assert(d * k == 0);
            assert(d == 0) by (nonlinear_arith)
                requires
                    d * k == 0,
                    k == 1 || k == 2,
            ;
        } else {
            assert(p * q == p || p * q == -p) by (nonlinear_arith)
                requires
                    q == 1 || q == -1,
            ;
            assert(d * k == p || d * k == -p);
            if k == 1 {
                assert(d == p || d == -p);
            } else {
                assert(2 * d == p || 2 * d == -p);
                vstd::arithmetic::div_mod::lemma_mod_multiples_basic(d, 2);
                vstd::arithmetic::div_mod::lemma_mod_multiples_basic(-d, 2);
                assert((2 * d) % 2 == 0);
                assert((2 * (-d)) % 2 == 0);
            }
        }
    }
}

/// A round polynomial changed in one coefficient is caught: where the
/// original rounds all pass, the changed ones stop at the changed round.
pub proof fn lemma_changed_round_rejected(
    rounds: Seq<Seq<int>>,
    claim: int,
    st: Seq<u8>,
    k: int,
    j: int,
    x: int,
)
    requires
        verifier_run(rounds, claim, st).0.len() == rounds.len(),
        0 <= k < rounds.len(),
        0 <= j < rounds[k].len(),
        0 <= rounds[k][j] < modulus(),
        0 <= x < modulus(),
        x != rounds[k][j],
    ensures
        verifier_run(rounds.update(k, rounds[k].update(j, x)), claim, st).0.len() == k,
    decreases k,
{
    let changed = rounds.update(k, rounds[k].update(j, x));
    if k == 0 {
        let c = rounds[0];
        assert(round_claim(c) == claim);
        lemma_round_claim_update(c, j, x);
        let m = if j == 0 {
            2int
        } else {
            1int
        };
        lemma_small_multiple_nonzero(x - c[j], m);
        lemma_peval_range(c.update(j, x), 0);
        lemma_peval_range(c.update(j, x), 1);
        vstd::arithmetic::div_mod::lemma_mod_bound(peval(c.update(j, x), 0) + peval(c.update(j, x), 1), modulus());
        lemma_cong_mod(round_claim(c.update(j, x)));
        if round_claim(c.update(j, x)) == claim {
            lemma_cong_sub(round_claim(c.update(j, x)), claim, round_claim(c) + (x - c[j]) * m, round_claim(c));
            assert(round_claim(c) + (x - c[j]) * m - round_claim(c) == (x - c[j]) * m);
            vstd::arithmetic::div_mod::lemma_small_mod(0, modulus() as nat);
        }
        assert(changed[0] == c.update(j, x));
    } else {
        let c = rounds[0];
        assert(changed[0] == c);
        let st1 = st + round_bytes(claim, c);
        let r = challenge_of(st1);
        assert(changed.drop_first() =~= rounds.drop_first().update(k - 1, rounds[k].update(j, x)));
        assert(rounds.drop_first()[k - 1] == rounds[k]);
        lemma_changed_round_rejected(rounds.drop_first(), peval(c, r), state_after_squeeze(st1), k - 1, j, x);
    }
}

} // verus!
