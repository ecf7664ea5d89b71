//! Multilinear KZG commitments over BLS12-381: a trusted setup of the
//! Lagrange basis in G1 and of the secret point in G2, commitments as
//! multi-scalar products, and evaluation proofs checked by pairings.
use crate::field::{copy_scalars, fmul, fsub, vals, Scalar};
use crate::multilinear::lemma_blown_up_len;
use crate::multilinear::{
    blown_up, ml_eval, partial_eval, quotient_table, BlowUpDirection, MultilinearPoly,
};
use ark_bls12_381::{Bls12_381, G1Projective, G2Projective};
use ark_ec::pairing::{Pairing, PairingOutput};
use ark_ec::PrimeGroup;
use ark_ff::Zero;
use ark_serialize::{CanonicalDeserialize, CanonicalSerialize};
use vstd::arithmetic::power2::{lemma_pow2_adds, lemma_pow2_pos, lemma_pow2_strictly_increases, lemma_pow2_unfold, lemma2_to64, pow2};
use vstd::prelude::*;

verus! {

// arkworks' curve types cannot be declared to Verus (the aliases do not
// match the generic structs, whose bounds name traits Verus cannot resolve),
// so each group element is held here as its canonical uncompressed encoding.
// Each wrapper below decodes its arguments, makes one group operation, and
// encodes the result; the result is named by a function of the encodings.

/// The encoding of `s` times the generator of G1.
pub uninterp spec fn g1_gen_mul_of(s: int) -> Seq<u8>;

/// The encoding of `s` times the generator of G2.
pub uninterp spec fn g2_gen_mul_of(s: int) -> Seq<u8>;

/// The encoding of `s` times the G1 point encoded by `p`.
pub uninterp spec fn g1_mul_of(p: Seq<u8>, s: int) -> Seq<u8>;

/// The encoding of the sum of the G1 points encoded by `a` and `b`.
pub uninterp spec fn g1_add_of(a: Seq<u8>, b: Seq<u8>) -> Seq<u8>;

/// The encoding of the difference of the G1 points encoded by `a` and `b`.
pub uninterp spec fn g1_sub_of(a: Seq<u8>, b: Seq<u8>) -> Seq<u8>;

/// The encoding of the difference of the G2 points encoded by `a` and `b`.
pub uninterp spec fn g2_sub_of(a: Seq<u8>, b: Seq<u8>) -> Seq<u8>;

/// The encoding of the pairing of the G1 point `a` with the G2 point `b`.
pub uninterp spec fn pair_of(a: Seq<u8>, b: Seq<u8>) -> Seq<u8>;

/// The encoding of the product in the target group of the elements `a` and `b`.
pub uninterp spec fn gt_add_of(a: Seq<u8>, b: Seq<u8>) -> Seq<u8>;

/// A point of G1, held in its uncompressed encoding.
#[derive(Clone, Debug, PartialEq, Eq)]
pub struct G1Point {
    bytes: Vec<u8>,
}

/// A point of G2, held in its uncompressed encoding.
#[derive(Clone, Debug)]
pub struct G2Point {
    bytes: Vec<u8>,
}

/// An element of the pairing's target group, held in its uncompressed encoding.
#[derive(Clone, Debug)]
pub struct GtElement {
    bytes: Vec<u8>,
}

impl G1Point {
    /// The canonical encoding.
    pub closed spec fn enc(&self) -> Seq<u8> {
        self.bytes@
    }

    /// The identity of G1: zero times the generator.
    pub fn zero() -> (r: G1Point)
        ensures
            r.enc() == g1_gen_mul_of(0),
    {
        g1_gen_mul(&Scalar::zero())
    }
}

impl G2Point {
    /// The canonical encoding.
    pub closed spec fn enc(&self) -> Seq<u8> {
        self.bytes@
    }
}

impl GtElement {
    /// The canonical encoding.
    pub closed spec fn enc(&self) -> Seq<u8> {
        self.bytes@
    }
}

/// Relies on `PrimeGroup::generator` and `PrimeGroup::mul_bigint` for G1:
/// `s` times the generator, as the original writes it in one expression.
#[verifier::external_body]
fn g1_gen_mul(s: &Scalar) -> (r: G1Point)
    ensures
        r.enc() == g1_gen_mul_of(s.val()),
{
    let mut bytes = Vec::new();
    G1Projective::generator().mul_bigint(s.limbs()).serialize_uncompressed(&mut bytes).unwrap();
    G1Point { bytes }
}

/// Relies on `PrimeGroup::generator` and `PrimeGroup::mul_bigint` for G2:
/// `s` times the generator.
#[verifier::external_body]
fn g2_gen_mul(s: &Scalar) -> (r: G2Point)
    ensures
        r.enc() == g2_gen_mul_of(s.val()),
{
    let mut bytes = Vec::new();
    G2Projective::generator().mul_bigint(s.limbs()).serialize_uncompressed(&mut bytes).unwrap();
    G2Point { bytes }
}

/// Relies on `PrimeGroup::mul_bigint` for G1: `s` times the point.
#[verifier::external_body]
fn g1_mul(a: &G1Point, s: &Scalar) -> (r: G1Point)
    ensures
        r.enc() == g1_mul_of(a.enc(), s.val()),
{
    let p = G1Projective::deserialize_uncompressed_unchecked(a.bytes.as_slice()).unwrap();
    let mut bytes = Vec::new();
    p.mul_bigint(s.limbs()).serialize_uncompressed(&mut bytes).unwrap();
    G1Point { bytes }
}

/// Relies on `G1 + G1`.
#[verifier::external_body]
fn g1_add(a: &G1Point, b: &G1Point) -> (r: G1Point)
    ensures
        r.enc() == g1_add_of(a.enc(), b.enc()),
{
    let p = G1Projective::deserialize_uncompressed_unchecked(a.bytes.as_slice()).unwrap();
    let q = G1Projective::deserialize_uncompressed_unchecked(b.bytes.as_slice()).unwrap();
    let mut bytes = Vec::new();
    (p + q).serialize_uncompressed(&mut bytes).unwrap();
    G1Point { bytes }
}

/// Relies on `G1 - G1`.
#[verifier::external_body]
fn g1_sub(a: &G1Point, b: &G1Point) -> (r: G1Point)
    ensures
        r.enc() == g1_sub_of(a.enc(), b.enc()),
{
    let p = G1Projective::deserialize_uncompressed_unchecked(a.bytes.as_slice()).unwrap();
    let q = G1Projective::deserialize_uncompressed_unchecked(b.bytes.as_slice()).unwrap();
    let mut bytes = Vec::new();
    (p - q).serialize_uncompressed(&mut bytes).unwrap();
    G1Point { bytes }
}

/// Relies on `G2 - G2`.
#[verifier::external_body]
fn g2_sub(a: &G2Point, b: &G2Point) -> (r: G2Point)
    ensures
        r.enc() == g2_sub_of(a.enc(), b.enc()),
{
    let p = G2Projective::deserialize_uncompressed_unchecked(a.bytes.as_slice()).unwrap();
    let q = G2Projective::deserialize_uncompressed_unchecked(b.bytes.as_slice()).unwrap();
    let mut bytes = Vec::new();
    (p - q).serialize_uncompressed(&mut bytes).unwrap();
    G2Point { bytes }
}

/// Relies on `Pairing::pairing` of BLS12-381.
#[verifier::external_body]
fn pairing(a: &G1Point, b: &G2Point) -> (r: GtElement)
    ensures
        r.enc() == pair_of(a.enc(), b.enc()),
{
    let p = G1Projective::deserialize_uncompressed_unchecked(a.bytes.as_slice()).unwrap();
    let q = G2Projective::deserialize_uncompressed_unchecked(b.bytes.as_slice()).unwrap();
    let mut bytes = Vec::new();
    Bls12_381::pairing(p, q).serialize_uncompressed(&mut bytes).unwrap();
    GtElement { bytes }
}

/// Relies on `PairingOutput + PairingOutput`: the group operation.
#[verifier::external_body]
fn gt_add(a: &GtElement, b: &GtElement) -> (r: GtElement)
    ensures
        r.enc() == gt_add_of(a.enc(), b.enc()),
{
    let p = PairingOutput::<Bls12_381>::deserialize_uncompressed_unchecked(a.bytes.as_slice()).unwrap();
    let q = PairingOutput::<Bls12_381>::deserialize_uncompressed_unchecked(b.bytes.as_slice()).unwrap();
    let mut bytes = Vec::new();
    (p + q).serialize_uncompressed(&mut bytes).unwrap();
    GtElement { bytes }
}

/// Relies on `PairingOutput == PairingOutput`: equality in the target group,
/// which for canonical encodings is equality of the encodings.
#[verifier::external_body]
fn gt_equal(a: &GtElement, b: &GtElement) -> (r: bool)
    ensures
        r == (a.enc() == b.enc()),
{
    let p = PairingOutput::<Bls12_381>::deserialize_uncompressed_unchecked(a.bytes.as_slice()).unwrap();
    let q = PairingOutput::<Bls12_381>::deserialize_uncompressed_unchecked(b.bytes.as_slice()).unwrap();
    p == q
}

/// The encodings of a sequence of G1 points.
pub open spec fn g1_encs(ps: Seq<G1Point>) -> Seq<Seq<u8>> {
    ps.map_values(|p: G1Point| p.enc())
}

/// The encodings of a sequence of G2 points.
pub open spec fn g2_encs(ps: Seq<G2Point>) -> Seq<Seq<u8>> {
    ps.map_values(|p: G2Point| p.enc())
}

/// The multi-scalar product of the first `k` points with the first `k`
/// scalars, added up from the identity in order.
pub open spec fn msm_of(points: Seq<Seq<u8>>, scalars: Seq<int>, k: nat) -> Seq<u8>
    decreases k,
{
    if k == 0 {
        g1_gen_mul_of(0)
    } else {
        g1_add_of(msm_of(points, scalars, (k - 1) as nat), g1_mul_of(points[k - 1], scalars[k - 1]))
    }
}

/// The right side of the pairing check over the first `k` quotients:
/// the product of `e(q_i, tau_i G2 - a_i G2)`, from the identity `e(0, 0)`.
pub open spec fn pairing_sum_of(qs: Seq<Seq<u8>>, taus: Seq<Seq<u8>>, a: Seq<int>, k: nat) -> Seq<u8>
    decreases k,
{
    if k == 0 {
        pair_of(g1_gen_mul_of(0), g2_gen_mul_of(0))
    } else {
        gt_add_of(
            pairing_sum_of(qs, taus, a, (k - 1) as nat),
            pair_of(qs[k - 1], g2_sub_of(taus[k - 1], g2_gen_mul_of(a[k - 1]))),
        )
    }
}

/// Whether `e(C - v G1, 1 G2)` equals the product of `e(q_i, tau_i G2 - a_i G2)`.
pub open spec fn pairing_check(c: Seq<u8>, v: int, qs: Seq<Seq<u8>>, taus: Seq<Seq<u8>>, a: Seq<int>) -> bool {
    pair_of(g1_sub_of(c, g1_gen_mul_of(v)), g2_gen_mul_of(1)) == pairing_sum_of(qs, taus, a, qs.len())
}

/// Whether bit `j` of `i` is set.
pub open spec fn bit_set(i: int, j: nat) -> bool {
    (i / pow2(j) as int) % 2 == 1
}

/// The product over the first `m` variables of `tau_j` where the bit of `i`
/// that stands for variable `j` is set, and of `1 - tau_j` where it is clear.
/// Variable 0 is the most significant of `taus.len()` bits.
pub open spec fn lagrange_product(taus: Seq<int>, i: int, m: nat) -> int
    decreases m,
{
    if m == 0 {
        1
    } else {
        fmul(
            lagrange_product(taus, i, (m - 1) as nat),
            if bit_set(i, (taus.len() - m) as nat) {
                taus[m - 1]
            } else {
                fsub(1, taus[m - 1])
            },
        )
    }
}

/// The multilinear Lagrange basis at `taus`: entry `i` is `L_i(taus)`.
pub open spec fn lagrange_basis(taus: Seq<int>) -> Seq<int> {
    Seq::new(pow2(taus.len()), |i: int| lagrange_product(taus, i, taus.len()))
}

/// The Lagrange basis polynomials of the hypercube evaluated at `taus`.
pub fn generate_lagrange_basis(taus: &[Scalar]) -> (r: Vec<Scalar>)
    requires
        pow2(taus@.len() as nat) <= usize::MAX,
    ensures
        vals(r@) == lagrange_basis(vals(taus@)),
{
    let n = taus.len();
    proof {
        lemma2_to64();
        if n > 64 {
            lemma_pow2_strictly_increases(64, n as nat);
        }
    }
    let dim = crate::multilinear::pow2_usize(n);
    let mut basis: Vec<Scalar> = Vec::new();
    let mut i: usize = 0;
    while i < dim
        invariant
            i <= dim,
            n == taus@.len(),
            dim == pow2(n as nat),
            basis@.len() == i,
            forall|k: int| 0 <= k < i ==> (#[trigger] basis@[k]).val() == lagrange_product(vals(taus@), k, n as nat),
        decreases dim - i,
    {
        let mut product = Scalar::one();
        let mut j: usize = 0;
        while j < n
            invariant
                j <= n,
                n == taus@.len(),
                i < dim,
                dim == pow2(n as nat),
                product.val() == lagrange_product(vals(taus@), i as int, j as nat),
            decreases n - j,
        {
            proof {
                lemma_pow2_pos((n - 1 - j) as nat);
                if n - 1 - j < n {
                    lemma_pow2_strictly_increases((n - 1 - j) as nat, n as nat);
                }
            }
            let pj = crate::multilinear::pow2_usize(n - 1 - j);
            let bit = (i / pj) % 2;
            if bit == 1 {
                product = product.mul(&taus[j]);
            } else {
                product = product.mul(&Scalar::one().sub(&taus[j]));
            }
            j = j + 1;
        }
        basis.push(product);
        i = i + 1;
    }
    proof {
        assert(vals(basis@) =~= lagrange_basis(vals(taus@)));
    }
    basis
}

/// Each basis value times the generator of G1.
pub fn encrypt_lagrange_basis(lagrange_basis: &[Scalar]) -> (r: Vec<G1Point>)
    ensures
        r@.len() == lagrange_basis@.len(),
        forall|i: int|
            0 <= i < r@.len() ==> (#[trigger] r@[i]).enc() == g1_gen_mul_of(lagrange_basis@[i].val()),
{
    let mut out: Vec<G1Point> = Vec::new();
    let mut i: usize = 0;
    while i < lagrange_basis.len()
        invariant
            i <= lagrange_basis@.len(),
            out@.len() == i,
            forall|j: int| 0 <= j < i ==> (#[trigger] out@[j]).enc() == g1_gen_mul_of(lagrange_basis@[j].val()),
        decreases lagrange_basis@.len() - i,
    {
        out.push(g1_gen_mul(&lagrange_basis[i]));
        i = i + 1;
    }
    out
}

/// The public parameters for polynomials in `n` variables: `tau_i` times the
/// generator of G2, and the Lagrange basis at `tau` times the generator of G1.
pub struct TrustedSetup {
    pub encrypted_taus: Vec<G2Point>,
    pub encrypted_lagrange_basis: Vec<G1Point>,
}

impl TrustedSetup {
    pub fn new(taus: &[Scalar]) -> (r: TrustedSetup)
        requires
            pow2(taus@.len() as nat) <= usize::MAX,
        ensures
            r.encrypted_taus@.len() == taus@.len(),
            forall|i: int|
                0 <= i < taus@.len() ==> (#[trigger] r.encrypted_taus@[i]).enc() == g2_gen_mul_of(taus@[i].val()),
            r.encrypted_lagrange_basis@.len() == pow2(taus@.len() as nat),
            forall|i: int|
                0 <= i < r.encrypted_lagrange_basis@.len() ==> (#[trigger] r.encrypted_lagrange_basis@[i]).enc()
                    == g1_gen_mul_of(lagrange_basis(vals(taus@))[i]),
    {
        let mut encrypted_taus: Vec<G2Point> = Vec::new();
        let mut i: usize = 0;
        while i < taus.len()
            invariant
                i <= taus@.len(),
                encrypted_taus@.len() == i,
                forall|j: int| 0 <= j < i ==> (#[trigger] encrypted_taus@[j]).enc() == g2_gen_mul_of(taus@[j].val()),
            decreases taus@.len() - i,
        {
            encrypted_taus.push(g2_gen_mul(&taus[i]));
            i = i + 1;
        }
        let basis_values = generate_lagrange_basis(taus);
        proof {
            assert(vals(basis_values@).len() == basis_values@.len());
            assert(vals(taus@).len() == taus@.len());
        }
        let encrypted_lagrange_basis = encrypt_lagrange_basis(basis_values.as_slice());
        proof {
            assert forall|i: int| 0 <= i < encrypted_lagrange_basis@.len() implies (#[trigger] encrypted_lagrange_basis@[i]).enc()
                == g1_gen_mul_of(lagrange_basis(vals(taus@))[i]) by {
                assert(vals(basis_values@)[i] == basis_values@[i].val());
            }
        }
        TrustedSetup { encrypted_taus, encrypted_lagrange_basis }
    }
}

/// An evaluation proof: the value `v` and one commitment per quotient.
pub struct MultilinearKZGProof {
    pub v: Scalar,
    pub q_taus: Vec<G1Point>,
}

impl MultilinearKZGProof {
    pub fn new(v: Scalar, q_taus: Vec<G1Point>) -> (r: MultilinearKZGProof)
        ensures
            r.v == v,
            r.q_taus@ == q_taus@,
    {
        MultilinearKZGProof { v, q_taus }
    }
}

/// The table of `W - v`.
pub open spec fn shifted_table(s: Seq<int>, v: int) -> Seq<int> {
    Seq::new(s.len(), |k: int| fsub(s[k], v))
}

/// The dividend before division step `i`: the table `s` in `n` variables,
/// with its first `i` variables set to the openings.
pub open spec fn kzg_dividend(s: Seq<int>, n: nat, a: Seq<int>, i: nat) -> Seq<int>
    decreases i,
{
    if i == 0 {
        s
    } else {
        partial_eval(kzg_dividend(s, n, a, (i - 1) as nat), (n - i) as nat, a[i - 1])
    }
}

/// The quotient of division step `i` by `x_i - a_i`, padded to `n` variables
/// by repeating its table.
pub open spec fn kzg_quotient(s: Seq<int>, n: nat, a: Seq<int>, i: nat) -> Seq<int> {
    blown_up(
        BlowUpDirection::Left,
        quotient_table(kzg_dividend(s, n, a, i), (n - i - 1) as nat),
        i + 1,
    )
}

pub struct MultilinearKZGProver {}

impl MultilinearKZGProver {
    /// The multi-scalar product of the evaluations with the encrypted basis,
    /// added up in order from the identity.
    pub fn evaluate_at_tau(poly: &MultilinearPoly, encrypted_lagrange_basis: &[G1Point]) -> (r: G1Point)
        requires
            poly.evals@.len() == encrypted_lagrange_basis@.len(),
        ensures
            r.enc() == msm_of(g1_encs(encrypted_lagrange_basis@), poly.table(), poly.evals@.len()),
    {
        let mut result = g1_gen_mul(&Scalar::zero());
        let mut i: usize = 0;
        while i < poly.evals.len()
            invariant
                i <= poly.evals@.len(),
                poly.evals@.len() == encrypted_lagrange_basis@.len(),
                result.enc() == msm_of(g1_encs(encrypted_lagrange_basis@), poly.table(), i as nat),
            decreases poly.evals@.len() - i,
        {
            let term = g1_mul(&encrypted_lagrange_basis[i], &poly.evals[i]);
            result = g1_add(&result, &term);
            i = i + 1;
        }
        result
    }

    /// The commitment to `poly`.
    pub fn compute_commitment(poly: &MultilinearPoly, encrypted_lagrange_basis: &[G1Point]) -> (r: G1Point)
        requires
            poly.evals@.len() == encrypted_lagrange_basis@.len(),
        ensures
            r.enc() == msm_of(g1_encs(encrypted_lagrange_basis@), poly.table(), poly.evals@.len()),
    {
        Self::evaluate_at_tau(poly, encrypted_lagrange_basis)
    }

    /// The value of `poly` at `openings` and the tables of the quotients of
    /// `poly - v` by `x_i - a_i`, one variable after the other, each padded
    /// to the arity of `poly`.
    pub fn quotient_evals(openings: &[Scalar], poly: &MultilinearPoly) -> (r: (Scalar, Vec<Vec<Scalar>>))
        requires
            poly.wf(),
            openings@.len() == poly.n_vars,
        ensures
            r.0.val() == ml_eval(poly.table(), poly.n_vars as nat, vals(openings@)),
            r.1@.len() == poly.n_vars,
            forall|i: int|
                0 <= i < poly.n_vars ==> vals((#[trigger] r.1@[i])@) == kzg_quotient(
                    shifted_table(poly.table(), r.0.val()),
                    poly.n_vars as nat,
                    vals(openings@),
                    i as nat,
                ),
            forall|i: int| 0 <= i < poly.n_vars ==> (#[trigger] r.1@[i])@.len() == poly.evals@.len(),
    {
        let n = poly.n_vars;
        let plen = poly.evals.len();
        let v = poly.evaluate(&copy_scalars(openings));
        let ghost st = shifted_table(poly.table(), v.val());
        let ghost a = vals(openings@);
        let mut f_minus_v: Vec<Scalar> = Vec::new();
        let mut k: usize = 0;
        while k < poly.evals.len()
            invariant
                k <= poly.evals@.len(),
                f_minus_v@.len() == k,
                forall|j: int| 0 <= j < k ==> (#[trigger] f_minus_v@[j]).val() == fsub(poly.evals@[j].val(), v.val()),
            decreases poly.evals@.len() - k,
        {
            f_minus_v.push(poly.evals[k].sub(&v));
            k = k + 1;
        }
        proof {
            assert(vals(f_minus_v@) =~= st);
        }
        let mut dividend = MultilinearPoly::new(f_minus_v, n);
        let mut quotients: Vec<Vec<Scalar>> = Vec::new();
        let mut i: usize = 0;
        while i < openings.len()
            invariant
                i <= n,
                n == poly.n_vars,
                openings@.len() == n,
                poly.wf(),
                plen == poly.evals@.len(),
                a == vals(openings@),
                dividend.wf(),
                dividend.n_vars == n - i,
                dividend.table() == kzg_dividend(st, n as nat, a, i as nat),
                quotients@.len() == i,
                forall|j: int|
                    0 <= j < i ==> vals((#[trigger] quotients@[j])@) == kzg_quotient(st, n as nat, a, j as nat),
                forall|j: int| 0 <= j < i ==> (#[trigger] quotients@[j])@.len() == poly.evals@.len(),
            decreases n - i,
        {
            let (quotient, remainder) = dividend.compute_quotient_remainder(&openings[i], dividend.n_vars - 1);
            proof {
                lemma_pow2_adds((n - i - 1) as nat, (i + 1) as nat);
                lemma_pow2_unfold((n - i) as nat);
                assert(quotient@.len() == vals(quotient@).len());
                assert(quotient@.len() == pow2((n - i - 1) as nat));
                assert(quotient@.len() * pow2((i + 1) as nat) == poly.evals@.len());
                assert(poly.evals@.len() <= usize::MAX);
                lemma_blown_up_len(BlowUpDirection::Left, vals(quotient@), (i + 1) as nat);
                assert(a[i as int] == openings@[i as int].val());
            }
            let padded = MultilinearPoly::blow_up_n_times(BlowUpDirection::Left, &quotient, i + 1);
            let ghost old_q = quotients@;
            dividend = remainder;
            quotients.push(padded);
            i = i + 1;
            proof {
                assert(vals(padded@).len() == padded@.len());
                assert forall|j: int| 0 <= j < i implies vals((#[trigger] quotients@[j])@) == kzg_quotient(st, n as nat, a, j as nat) && quotients@[j]@.len() == poly.evals@.len() by {
                    if j < i - 1 {
                        assert(quotients@[j] == old_q[j]);
                    }
                }
            }
        }
        (v, quotients)
    }

    /// Proves the value of `poly` at `openings`.
    pub fn prove(openings: &[Scalar], poly: &MultilinearPoly, encrypted_lagrange_basis: &[G1Point]) -> (r:
        MultilinearKZGProof)
        requires
            poly.wf(),
            openings@.len() == poly.n_vars,
            encrypted_lagrange_basis@.len() == poly.evals@.len(),
        ensures
            r.v.val() == ml_eval(poly.table(), poly.n_vars as nat, vals(openings@)),
            r.q_taus@.len() == poly.n_vars,
            forall|i: int|
                0 <= i < poly.n_vars ==> (#[trigger] r.q_taus@[i]).enc() == msm_of(
                    g1_encs(encrypted_lagrange_basis@),
                    kzg_quotient(shifted_table(poly.table(), r.v.val()), poly.n_vars as nat, vals(openings@), i as nat),
                    poly.evals@.len(),
                ),
    {
        let (v, quotients) = Self::quotient_evals(openings, poly);
        let mut q_taus: Vec<G1Point> = Vec::new();
        let mut i: usize = 0;
        while i < quotients.len()
            invariant
                i <= quotients@.len(),
                quotients@.len() == poly.n_vars,
                forall|j: int| 0 <= j < poly.n_vars ==> (#[trigger] quotients@[j])@.len() == poly.evals@.len(),
                encrypted_lagrange_basis@.len() == poly.evals@.len(),
                q_taus@.len() == i,
                forall|j: int|
                    0 <= j < poly.n_vars ==> vals((#[trigger] quotients@[j])@) == kzg_quotient(
                        shifted_table(poly.table(), v.val()),
                        poly.n_vars as nat,
                        vals(openings@),
                        j as nat,
                    ),
                forall|j: int|
                    0 <= j < i ==> (#[trigger] q_taus@[j]).enc() == msm_of(
                        g1_encs(encrypted_lagrange_basis@),
                        kzg_quotient(shifted_table(poly.table(), v.val()), poly.n_vars as nat, vals(openings@), j as nat),
                        poly.evals@.len(),
                    ),
            decreases quotients@.len() - i,
        {
            let q = MultilinearPoly::new(copy_scalars(quotients[i].as_slice()), poly.n_vars);
            let c = Self::evaluate_at_tau(&q, encrypted_lagrange_basis);
            q_taus.push(c);
            i = i + 1;
        }
        MultilinearKZGProof::new(v, q_taus)
    }
}

pub struct MultilinearKZGVerifier {}

impl MultilinearKZGVerifier {
    /// Checks `e(C - v G1, G2) == sum_i e(q_i, tau_i G2 - a_i G2)`. Proofs
    /// whose number of quotients differs from the number of openings or of
    /// encrypted taus are rejected.
    pub fn verify(
        commitment: &G1Point,
        openings: &[Scalar],
        proof: &MultilinearKZGProof,
        encrypted_taus: &[G2Point],
    ) -> (r: bool)
        ensures
            r == (proof.q_taus@.len() == openings@.len() && proof.q_taus@.len() == encrypted_taus@.len()
                && pairing_check(
                commitment.enc(),
                proof.v.val(),
                g1_encs(proof.q_taus@),
                g2_encs(encrypted_taus@),
                vals(openings@),
            )),
    {
        if proof.q_taus.len() != openings.len() || proof.q_taus.len() != encrypted_taus.len() {
            return false;
        }
        let g1_v = g1_gen_mul(&proof.v);
        let f_tau_minus_v = g1_sub(commitment, &g1_v);
        let g2_1 = g2_gen_mul(&Scalar::one());
        let lhs = pairing(&f_tau_minus_v, &g2_1);
        let zero = Scalar::zero();
        let mut rhs = pairing(&g1_gen_mul(&zero), &g2_gen_mul(&zero));
        let ghost qs = g1_encs(proof.q_taus@);
        let ghost ts = g2_encs(encrypted_taus@);
        let ghost a = vals(openings@);
        let mut i: usize = 0;
        while i < proof.q_taus.len()
            invariant
                i <= proof.q_taus@.len(),
                proof.q_taus@.len() == openings@.len(),
                proof.q_taus@.len() == encrypted_taus@.len(),
                qs == g1_encs(proof.q_taus@),
                ts == g2_encs(encrypted_taus@),
                a == vals(openings@),
                rhs.enc() == pairing_sum_of(qs, ts, a, i as nat),
            decreases proof.q_taus@.len() - i,
        {
            let g2_a = g2_gen_mul(&openings[i]);
            let t = g2_sub(&encrypted_taus[i], &g2_a);
            let e = pairing(&proof.q_taus[i], &t);
            rhs = gt_add(&rhs, &e);
            i = i + 1;
        }
        gt_equal(&lhs, &rhs)
    }
}

} // verus!
