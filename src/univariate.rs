//! Dense univariate polynomials over the scalar field, coefficients in
//! ascending order of degree.
use crate::field::{fadd, fdiv, fmul, fsub, fsum, scalars_to_bytes, seq_bytes, vals, Scalar};
use vstd::prelude::*;

verus! {

/// The value of the polynomial with coefficients `c` at `x`, by Horner's rule.
pub open spec fn peval(c: Seq<int>, x: int) -> int
    decreases c.len(),
{
    if c.len() == 0 {
        0
    } else {
        fadd(fmul(peval(c.drop_first(), x), x), c[0])
    }
}

/// Every coefficient multiplied by `s`.
pub open spec fn poly_scale(c: Seq<int>, s: int) -> Seq<int> {
    Seq::new(c.len(), |i: int| fmul(s, c[i]))
}

/// The coefficient-wise sum; the longer operand's tail is kept.
pub open spec fn poly_add(a: Seq<int>, b: Seq<int>) -> Seq<int> {
    Seq::new(
        if a.len() >= b.len() {
            a.len()
        } else {
            b.len()
        },
        |i: int|
            if i < a.len() && i < b.len() {
                fadd(a[i], b[i])
            } else if i < a.len() {
                a[i]
            } else {
                b[i]
            },
    )
}

/// The term `a[i] * b[k - i]` of the product's coefficient `k`, or zero.
pub open spec fn conv_term(a: Seq<int>, b: Seq<int>, k: int, i: int) -> int {
    if 0 <= k - i < b.len() {
        fmul(a[i], b[k - i])
    } else {
        0
    }
}

/// Coefficient `k` of the product, summed over the first `n` coefficients of `a`.
pub open spec fn conv_coeff(a: Seq<int>, b: Seq<int>, k: int, n: int) -> int {
    crate::field::fsum(Seq::new(n as nat, |i: int| conv_term(a, b, k, i)))
}

/// The product of two non-empty polynomials.
pub open spec fn poly_mul(a: Seq<int>, b: Seq<int>) -> Seq<int> {
    Seq::new((a.len() + b.len() - 1) as nat, |k: int| conv_coeff(a, b, k, a.len() as int))
}

/// `x - v` as coefficients.
pub open spec fn linear_factor(v: int) -> Seq<int> {
    seq![fsub(0, v), 1]
}

/// The product of `x - v` over the first `n` values `v` of `set` that differ from `x`.
pub open spec fn basis_numerator(x: int, set: Seq<int>, n: nat) -> Seq<int>
    decreases n,
{
    if n == 0 {
        seq![1]
    } else {
        let acc = basis_numerator(x, set, (n - 1) as nat);
        if set[n - 1] == x {
            acc
        } else {
            poly_mul(acc, linear_factor(set[n - 1]))
        }
    }
}

/// The Lagrange basis polynomial of `x` over `set`: one at `x`, zero at the others.
pub open spec fn basis_poly(x: int, set: Seq<int>) -> Seq<int> {
    let num = basis_numerator(x, set, set.len());
    poly_scale(num, fdiv(1, peval(num, x)))
}

/// The basis of `x` over `set` can be normalised: the product of the
/// differences from `x` has an inverse.
pub open spec fn basis_defined(x: int, set: Seq<int>) -> bool {
    let d = peval(basis_numerator(x, set, set.len()), x);
    fmul(fdiv(1, d), d) == 1
}

/// An element with an inverse is non-zero, and `fdiv(1, d)` is an inverse
/// once one is known.
proof fn lemma_inverse_witness(d: int, q: int)
    requires
        0 <= q < crate::field::modulus(),
        fmul(q, d) == 1,
    ensures
        fmul(fdiv(1, d), d) == 1,
        d != 0,
{
    assert(exists|w: int| 0 <= w < crate::field::modulus() && fmul(w, d) == 1);
    if d == 0 {
        assert(q * 0 == 0);
        vstd::arithmetic::div_mod::lemma_small_mod(0, crate::field::modulus() as nat);
    }
}

/// The sum of `ys[k]` times the basis polynomial of `xs[k]`, over the first `n` points.
pub open spec fn interpolation(xs: Seq<int>, ys: Seq<int>, n: nat) -> Seq<int>
    decreases n,
{
    if n == 0 {
        seq![0]
    } else {
        poly_add(
            interpolation(xs, ys, (n - 1) as nat),
            poly_scale(basis_poly(xs[n - 1], xs), ys[n - 1]),
        )
    }
}

pub struct UnivariatePoly {
    pub coefficients: Vec<Scalar>,
}

impl UnivariatePoly {
    pub open spec fn coeffs(&self) -> Seq<int> {
        vals(self.coefficients@)
    }

    pub fn new(coefficients: Vec<Scalar>) -> (r: UnivariatePoly)
        ensures
            r.coefficients@ == coefficients@,
    {
        UnivariatePoly { coefficients }
    }

    /// One less than the number of coefficients.
    pub fn degree(&self) -> (r: i32)
        requires
            self.coefficients@.len() <= i32::MAX,
        ensures
            r == self.coefficients@.len() - 1,
    {
        self.coefficients.len() as i32 - 1
    }

    /// The value at `x`, by Horner's rule.
    pub fn evaluate(&self, x: &Scalar) -> (r: Scalar)
        requires
            self.coefficients@.len() > 0,
        ensures
            r.val() == peval(self.coeffs(), x.val()),
    {
        let c = &self.coefficients;
        let n = c.len();
        let mut acc = c[n - 1];
        let mut i: usize = n - 1;
        proof {
            let s = self.coeffs().subrange(n - 1, n as int);
            assert(s.drop_first() =~= Seq::<int>::empty());
            assert(peval(s.drop_first(), x.val()) == 0);
            crate::field::lemma_val_range(c@[n - 1]);
            vstd::arithmetic::div_mod::lemma_small_mod(0, crate::field::modulus() as nat);
            assert(0 * x.val() == 0);
            assert(fmul(0, x.val()) == 0);
            vstd::arithmetic::div_mod::lemma_small_mod(acc.val() as nat, crate::field::modulus() as nat);
            assert(s[0] == acc.val());
            assert(peval(s, x.val()) == fadd(0, acc.val()));
        }
        while i > 0
            invariant
                i < n,
                n == c@.len(),
                acc.val() == peval(vals(c@).subrange(i as int, n as int), x.val()),
            decreases i,
        {
            i = i - 1;
            proof {
                let s = vals(c@).subrange(i as int, n as int);
                assert(s.drop_first() =~= vals(c@).subrange(i + 1, n as int));
            }
            acc = acc.mul(x).add(&c[i]);
        }
        proof {
            assert(vals(c@).subrange(0, n as int) =~= self.coeffs());
        }
        acc
    }

    /// The sum of the values at zero and at one.
    pub fn evaluate_sum_over_boolean_hypercube(&self) -> (r: Scalar)
        requires
            self.coefficients@.len() > 0,
        ensures
            r.val() == fadd(peval(self.coeffs(), 0), peval(self.coeffs(), 1)),
    {
        let a = self.evaluate(&Scalar::zero());
        let b = self.evaluate(&Scalar::one());
        a.add(&b)
    }

    /// Every coefficient multiplied by `scalar`.
    pub fn scalar_mul(&self, scalar: &Scalar) -> (r: UnivariatePoly)
        ensures
            r.coeffs() == poly_scale(self.coeffs(), scalar.val()),
    {
        let mut out: Vec<Scalar> = Vec::new();
        let mut i: usize = 0;
        while i < self.coefficients.len()
            invariant
                i <= self.coefficients@.len(),
                out@.len() == i,
                forall|j: int|
                    0 <= j < i ==> (#[trigger] out@[j]).val() == fmul(
                        scalar.val(),
                        self.coefficients@[j].val(),
                    ),
            decreases self.coefficients@.len() - i,
        {
            out.push(scalar.mul(&self.coefficients[i]));
            i = i + 1;
        }
        proof {
            assert(vals(out@) =~= poly_scale(self.coeffs(), scalar.val()));
        }
        UnivariatePoly::new(out)
    }

    /// The coefficients' encodings, one after the other.
    pub fn to_bytes(&self) -> (r: Vec<u8>)
        ensures
            r@ == seq_bytes(self.coeffs()),
    {
        scalars_to_bytes(self.coefficients.as_slice())
    }

    /// The coefficient-wise sum.
    pub fn add(&self, rhs: &UnivariatePoly) -> (r: UnivariatePoly)
        ensures
            r.coeffs() == poly_add(self.coeffs(), rhs.coeffs()),
    {
        let la = self.coefficients.len();
        let lb = rhs.coefficients.len();
        let n = if la >= lb {
            la
        } else {
            lb
        };
        let mut out: Vec<Scalar> = Vec::new();
        let mut i: usize = 0;
        while i < n
            invariant
                i <= n,
                la == self.coefficients@.len(),
                lb == rhs.coefficients@.len(),
                n == (if la >= lb {
                    la
                } else {
                    lb
                }),
                out@.len() == i,
                forall|j: int|
                    0 <= j < i ==> (#[trigger] out@[j]).val() == poly_add(
                        self.coeffs(),
                        rhs.coeffs(),
                    )[j],
            decreases n - i,
        {
            let e = if i < la && i < lb {
                self.coefficients[i].add(&rhs.coefficients[i])
            } else if i < la {
                self.coefficients[i]
            } else {
                rhs.coefficients[i]
            };
            out.push(e);
            i = i + 1;
        }
        proof {
            assert(vals(out@) =~= poly_add(self.coeffs(), rhs.coeffs()));
        }
        UnivariatePoly::new(out)
    }

    /// The product of two non-empty polynomials.
    pub fn mul(&self, rhs: &UnivariatePoly) -> (r: UnivariatePoly)
        requires
            self.coefficients@.len() > 0,
            rhs.coefficients@.len() > 0,
            self.coefficients@.len() + rhs.coefficients@.len() <= usize::MAX,
        ensures
            r.coeffs() == poly_mul(self.coeffs(), rhs.coeffs()),
    {
        let a = &self.coefficients;
        let b = &rhs.coefficients;
        let ghost sa = self.coeffs();
        let ghost sb = rhs.coeffs();
        let len = a.len() + b.len() - 1;
        let mut res: Vec<Scalar> = Vec::new();
        let mut k: usize = 0;
        while k < len
            invariant
                k <= len,
                res@.len() == k,
                forall|j: int| 0 <= j < k ==> (#[trigger] res@[j]).val() == 0,
            decreases len - k,
        {
            res.push(Scalar::zero());
            k = k + 1;
        }
        let mut i: usize = 0;
        proof {
            assert forall|k: int| 0 <= k < len implies (#[trigger] res@[k]).val() == conv_coeff(
                sa,
                sb,
                k,
                0,
            ) by {
                assert(Seq::new(0, |i: int| conv_term(sa, sb, k, i)) =~= Seq::<int>::empty());
            }
        }
        while i < a.len()
            invariant
                i <= a@.len(),
                len == a@.len() + b@.len() - 1,
                res@.len() == len,
                sa == vals(a@),
                sb == vals(b@),
                forall|k: int| 0 <= k < len ==> (#[trigger] res@[k]).val() == conv_coeff(sa, sb, k, i as int),
            decreases a@.len() - i,
        {
            let mut j: usize = 0;
            while j < b.len()
                invariant
                    i < a@.len(),
                    j <= b@.len(),
                    len == a@.len() + b@.len() - 1,
                    res@.len() == len,
                    sa == vals(a@),
                    sb == vals(b@),
                    forall|k: int|
                        0 <= k < len ==> (#[trigger] res@[k]).val() == if i <= k < i + j {
                            conv_coeff(sa, sb, k, i + 1)
                        } else {
                            conv_coeff(sa, sb, k, i as int)
                        },
                decreases b@.len() - j,
            {
                let t = a[i].mul(&b[j]);
                let e = res[i + j].add(&t);
                proof {
                    let k = i + j;
                    let s1 = Seq::new((i + 1) as nat, |m: int| conv_term(sa, sb, k as int, m));
                    assert(s1.drop_last() =~= Seq::new(i as nat, |m: int| conv_term(sa, sb, k as int, m)));
                }
                res.set(i + j, e);
                j = j + 1;
            }
            proof {
                assert forall|k: int| 0 <= k < len && !(i <= k < i + b@.len()) implies conv_coeff(sa, sb, k, i + 1) == conv_coeff(sa, sb, k, i as int) by {
                    let s1 = Seq::new((i + 1) as nat, |m: int| conv_term(sa, sb, k, m));
                    assert(s1.drop_last() =~= Seq::new(i as nat, |m: int| conv_term(sa, sb, k, m)));
                    crate::field::lemma_val_range(res@[k]);
                    vstd::arithmetic::div_mod::lemma_small_mod(res@[k].val() as nat, crate::field::modulus() as nat);
                }
            }
            i = i + 1;
        }
        proof {
            assert(vals(res@) =~= poly_mul(sa, sb));
        }
        UnivariatePoly::new(res)
    }
}

impl UnivariatePoly {
    /// The Lagrange basis polynomial of `x` over `interpolating_set`.
    pub fn basis(x: &Scalar, interpolating_set: &[Scalar]) -> (r: UnivariatePoly)
        requires
            interpolating_set@.len() + 2 <= usize::MAX,
            basis_defined(x.val(), vals(interpolating_set@)),
        ensures
            r.coeffs() == basis_poly(x.val(), vals(interpolating_set@)),
            r.coefficients@.len() <= interpolating_set@.len() + 1,
    {
        let ghost set = vals(interpolating_set@);
        let mut numerator = UnivariatePoly::new(vec![Scalar::one()]);
        let mut i: usize = 0;
        proof {
            assert(numerator.coeffs() =~= seq![1]);
        }
        while i < interpolating_set.len()
            invariant
                i <= interpolating_set@.len(),
                interpolating_set@.len() + 2 <= usize::MAX,
                set == vals(interpolating_set@),
                numerator.coeffs() == basis_numerator(x.val(), set, i as nat),
                1 <= numerator.coefficients@.len() <= i + 1,
            decreases interpolating_set@.len() - i,
        {
            let v = interpolating_set[i];
            proof {
                assert(set[i as int] == v.val());
                assert(numerator.coefficients@.len() + 2 <= usize::MAX);
            }
            if !v.equals(x) {
                let factor = UnivariatePoly::new(vec![Scalar::zero().sub(&v), Scalar::one()]);
                proof {
                    assert(factor.coeffs() =~= linear_factor(v.val()));
                }
                numerator = numerator.mul(&factor);
                proof {
                    assert(numerator.coefficients@.len() == numerator.coeffs().len());
                }
            }
            i = i + 1;
        }
        let d = numerator.evaluate(x);
        proof {
            let dv = d.val();
            assert(fmul(fdiv(1, dv), dv) == 1);
            if dv == 0 {
                assert(fdiv(1, dv) * 0 == 0);
                vstd::arithmetic::div_mod::lemma_small_mod(0, crate::field::modulus() as nat);
            }
        }
        let denominator = Scalar::one().div(&d);
        numerator.scalar_mul(&denominator)
    }

    /// The polynomial through the points `(xs[k], ys[k])`: the sum of each
    /// `ys[k]` times the basis polynomial of `xs[k]`.
    pub fn interpolate(xs: Vec<Scalar>, ys: Vec<Scalar>) -> (r: UnivariatePoly)
        requires
            xs@.len() == ys@.len(),
            xs@.len() + 2 <= usize::MAX,
            forall|k: int| 0 <= k < xs@.len() ==> basis_defined(#[trigger] xs@[k].val(), vals(xs@)),
        ensures
            r.coeffs() == interpolation(vals(xs@), vals(ys@), xs@.len()),
            distinct(vals(xs@)) ==> forall|j: int|
                0 <= j < xs@.len() ==> #[trigger] peval(r.coeffs(), xs@[j].val()) == ys@[j].val(),
    {
        let mut acc = UnivariatePoly::new(vec![Scalar::zero()]);
        let mut k: usize = 0;
        proof {
            assert(acc.coeffs() =~= seq![0]);
        }
        while k < xs.len()
            invariant
                k <= xs@.len(),
                xs@.len() == ys@.len(),
                xs@.len() + 2 <= usize::MAX,
                forall|j: int| 0 <= j < xs@.len() ==> basis_defined(#[trigger] xs@[j].val(), vals(xs@)),
                acc.coeffs() == interpolation(vals(xs@), vals(ys@), k as nat),
            decreases xs@.len() - k,
        {
            let term = Self::basis(&xs[k], xs.as_slice()).scalar_mul(&ys[k]);
            acc = acc.add(&term);
            k = k + 1;
        }
        proof {
            let vx = vals(xs@);
            let vy = vals(ys@);
            if distinct(vx) {
                assert forall|i: int| 0 <= i < vy.len() implies 0 <= #[trigger] vy[i] < crate::field::modulus() by {
                    crate::field::lemma_val_range(ys@[i]);
                }
                assert forall|i: int| 0 <= i < vx.len() implies basis_defined(#[trigger] vx[i], vx) by {
                    assert(vx[i] == xs@[i].val());
                }
                lemma_interpolation_passes_through(vx, vy);
                assert forall|j: int| 0 <= j < xs@.len() implies #[trigger] peval(acc.coeffs(), xs@[j].val()) == ys@[j].val() by {
                    assert(vx[j] == xs@[j].val());
                    assert(vy[j] == ys@[j].val());
                }
            }
        }
        acc
    }
}

/// The points 0, 1 and 2.
pub open spec fn three_points() -> Seq<int> {
    seq![0, 1, 2]
}

proof fn lemma_fsub_small(k: int)
    requires
        0 < k < 3,
    ensures
        fsub(0, k) == crate::field::modulus() - k,
{
    vstd::arithmetic::div_mod::lemma_fundamental_div_mod_converse(
        0 - k,
        crate::field::modulus(),
        -1,
        crate::field::modulus() - k,
    );
}

proof fn lemma_fmul_small(a: int, b: int)
    requires
        0 <= a < 3,
        0 <= b < 3,
    ensures
        fmul(a, b) == a * b,
{
    assert(0 <= a * b <= 4) by (nonlinear_arith)
        requires
            0 <= a < 3,
            0 <= b < 3,
    ;
    vstd::arithmetic::div_mod::lemma_small_mod((a * b) as nat, crate::field::modulus() as nat);
}

proof fn lemma_fsum_two(t: Seq<int>)
    requires
        t.len() == 2,
        0 <= t[0] < crate::field::modulus(),
    ensures
        fsum(t) == fadd(t[0], t[1]),
{
    assert(fsum(t.drop_last().drop_last()) == 0);
    assert(fsum(t.drop_last()) == fadd(0, t[0]));
    vstd::arithmetic::div_mod::lemma_small_mod(t[0] as nat, crate::field::modulus() as nat);
}

proof fn lemma_fsum_one(t: Seq<int>)
    requires
        t.len() == 1,
    ensures
        fsum(t) == fadd(0, t[0]),
{
    assert(fsum(t.drop_last()) == 0);
}

/// Each of 0, 1 and 2 has a basis polynomial over the three.
pub proof fn lemma_three_points_basis()
    ensures
        forall|k: int| 0 <= k < 3 ==> basis_defined(#[trigger] three_points()[k], three_points()),
{
    let p = crate::field::modulus();
    let s = three_points();
    assert(s[0] == 0 && s[1] == 1 && s[2] == 2);
    lemma_fsub_small(1);
    lemma_fsub_small(2);
    vstd::arithmetic::div_mod::lemma_small_mod(0, p as nat);
    vstd::arithmetic::div_mod::lemma_small_mod(1, p as nat);
    vstd::arithmetic::div_mod::lemma_small_mod(2, p as nat);
    assert(fsub(0, 0) == 0);
    // x = 0: (x - 1)(x - 2), of value 2 at 0
    let a1 = basis_numerator(0, s, 1);
    assert(basis_numerator(0, s, 0) == seq![1int]);
    assert(a1 == seq![1int]);
    let a2 = basis_numerator(0, s, 2);
    assert(a2 == poly_mul(seq![1int], linear_factor(1)));
    assert(a2[0] == conv_coeff(seq![1int], linear_factor(1), 0, 1));
    let t = Seq::new(1, |i: int| conv_term(seq![1int], linear_factor(1), 0, i));
    assert(t.drop_last() =~= Seq::<int>::empty());
    assert(fmul(1, p - 1) == p - 1) by {
        vstd::arithmetic::div_mod::lemma_small_mod((p - 1) as nat, p as nat);
    }
    assert(t.last() == fmul(1, p - 1));
    assert(fsum(t.drop_last()) == 0);
    assert(fsum(t) == fadd(0, p - 1));
    assert(fadd(0, p - 1) == p - 1) by {
        vstd::arithmetic::div_mod::lemma_small_mod((p - 1) as nat, p as nat);
    }
    assert(a2[0] == p - 1);
    let a3 = basis_numerator(0, s, 3);
    assert(a3 == poly_mul(a2, linear_factor(2)));
    let t3 = Seq::new(2, |i: int| conv_term(a2, linear_factor(2), 0, i));
    assert(t3.drop_last().drop_last() =~= Seq::<int>::empty());
    assert(fmul(p - 1, p - 2) == 2) by {
        assert((p - 1) * (p - 2) == p * (p - 3) + 2) by (nonlinear_arith);
        vstd::arithmetic::div_mod::lemma_fundamental_div_mod_converse((p - 1) * (p - 2), p, p - 3, 2);
    }
    assert(a3[0] == fsum(t3));
    assert(t3[0] == fmul(p - 1, p - 2));
    assert(t3[1] == 0);
    assert(fsum(t3.drop_last()) == fadd(fsum(t3.drop_last().drop_last()), t3[0]));
    assert(fsum(t3.drop_last()) == 2);
    assert(fsum(t3) == fadd(2, 0));
    assert(a3[0] == 2);
    assert(fmul(peval(a3.drop_first(), 0), 0) == 0) by {
        vstd::arithmetic::mul::lemma_mul_basics(peval(a3.drop_first(), 0));
    }
    assert(peval(a3, 0) == 2);
    assert(fmul((p + 1) / 2, 2) == 1) by {
        assert(p % 2 == 1);
        assert(((p + 1) / 2) * 2 == p + 1);
        vstd::arithmetic::div_mod::lemma_fundamental_div_mod_converse(p + 1, p, 1, 1);
    }
    lemma_inverse_witness(2, (p + 1) / 2);
    assert(basis_defined(s[0], s));
    // x = 1: x (x - 2), of value p - 1 at 1
    let b1 = basis_numerator(1, s, 1);
    assert(basis_numerator(1, s, 0) == seq![1int]);
    let l0 = linear_factor(0);
    assert(b1 == poly_mul(seq![1int], l0));
    assert(l0 == seq![0int, 1int]);
    assert(b1.len() == 2);
    let u0 = Seq::new(1, |i: int| conv_term(seq![1int], l0, 0, i));
    let u1 = Seq::new(1, |i: int| conv_term(seq![1int], l0, 1, i));
    assert(u0.drop_last() =~= Seq::<int>::empty());
    assert(u1.drop_last() =~= Seq::<int>::empty());
    lemma_fmul_small(1, 0);
    lemma_fmul_small(1, 1);
    lemma_fsum_one(u0);
    lemma_fsum_one(u1);
    assert(b1[0] == 0);
    assert(b1[1] == 1);
    let b2 = basis_numerator(1, s, 2);
    assert(b2 == b1);
    let b3 = basis_numerator(1, s, 3);
    let l2 = linear_factor(2);
    assert(b3 == poly_mul(b1, l2));
    assert(b3.len() == 3);
    let v0 = Seq::new(2, |i: int| conv_term(b1, l2, 0, i));
    let v1 = Seq::new(2, |i: int| conv_term(b1, l2, 1, i));
    let v2 = Seq::new(2, |i: int| conv_term(b1, l2, 2, i));
    assert(v0.drop_last().drop_last() =~= Seq::<int>::empty());
    assert(v1.drop_last().drop_last() =~= Seq::<int>::empty());
    assert(v2.drop_last().drop_last() =~= Seq::<int>::empty());
    assert(fmul(0, p - 2) == 0) by {
        vstd::arithmetic::mul::lemma_mul_basics(p - 2);
    }
    assert(fmul(1, p - 2) == p - 2) by {
        vstd::arithmetic::div_mod::lemma_small_mod((p - 2) as nat, p as nat);
    }
    lemma_fsum_two(v0);
    lemma_fsum_two(v1);
    lemma_fsum_two(v2);
    assert(fadd(0, p - 2) == p - 2) by {
        vstd::arithmetic::div_mod::lemma_small_mod((p - 2) as nat, p as nat);
    }
    assert(fadd(0, 1) == 1);
    assert(b3[0] == 0);
    assert(b3[1] == p - 2);
    assert(b3[2] == 1);
    let e2 = b3.drop_first().drop_first();
    assert(e2.drop_first() =~= Seq::<int>::empty());
    assert(peval(e2.drop_first(), 1) == 0);
    assert(peval(e2, 1) == 1);
    assert(peval(b3.drop_first(), 1) == fadd(fmul(1, 1), p - 2));
    assert(fadd(fmul(1, 1), p - 2) == p - 1) by {
        vstd::arithmetic::div_mod::lemma_small_mod((p - 1) as nat, p as nat);
    }
    assert(fmul(p - 1, 1) == p - 1) by {
        vstd::arithmetic::div_mod::lemma_small_mod((p - 1) as nat, p as nat);
    }
    assert(peval(b3, 1) == p - 1);
    assert(fmul(p - 1, p - 1) == 1) by {
        assert((p - 1) * (p - 1) == p * (p - 2) + 1) by (nonlinear_arith);
        vstd::arithmetic::div_mod::lemma_fundamental_div_mod_converse((p - 1) * (p - 1), p, p - 2, 1);
    }
    lemma_inverse_witness(p - 1, p - 1);
    assert(basis_defined(s[1], s));
    // x = 2: x (x - 1), of value 2 at 2
    let c2 = basis_numerator(2, s, 2);
    let l1 = linear_factor(1);
    assert(basis_numerator(2, s, 0) == seq![1int]);
    assert(basis_numerator(2, s, 1) == poly_mul(seq![1int], l0));
    assert(c2 == poly_mul(b1, l1));
    let w0 = Seq::new(2, |i: int| conv_term(b1, l1, 0, i));
    let w1 = Seq::new(2, |i: int| conv_term(b1, l1, 1, i));
    let w2 = Seq::new(2, |i: int| conv_term(b1, l1, 2, i));
    assert(w0.drop_last().drop_last() =~= Seq::<int>::empty());
    assert(w1.drop_last().drop_last() =~= Seq::<int>::empty());
    assert(w2.drop_last().drop_last() =~= Seq::<int>::empty());
    assert(fmul(0, p - 1) == 0) by {
        vstd::arithmetic::mul::lemma_mul_basics(p - 1);
    }
    lemma_fsum_two(w0);
    lemma_fsum_two(w1);
    lemma_fsum_two(w2);
    assert(fadd(0, p - 1) == p - 1) by {
        vstd::arithmetic::div_mod::lemma_small_mod((p - 1) as nat, p as nat);
    }
    assert(c2[0] == 0);
    assert(c2[1] == p - 1);
    assert(c2[2] == 1);
    let c3 = basis_numerator(2, s, 3);
    assert(c3 == c2);
    let f2 = c3.drop_first().drop_first();
    assert(f2.drop_first() =~= Seq::<int>::empty());
    assert(peval(f2.drop_first(), 2) == 0);
    lemma_fmul_small(0, 2);
    lemma_fmul_small(1, 2);
    assert(peval(f2, 2) == 1);
    assert(peval(c3.drop_first(), 2) == fadd(2, p - 1));
    assert(fadd(2, p - 1) == 1) by {
        vstd::arithmetic::div_mod::lemma_fundamental_div_mod_converse(p + 1, p, 1, 1);
    }
    assert(peval(c3, 2) == 2);
    lemma_inverse_witness(2, (p + 1) / 2);
    assert(basis_defined(s[2], s));
}

/// An interpolated polynomial has a coefficient at least.
pub proof fn lemma_interpolation_nonempty(xs: Seq<int>, ys: Seq<int>, n: nat)
    ensures
        interpolation(xs, ys, n).len() >= 1,
    decreases n,
{
    if n > 0 {
        lemma_interpolation_nonempty(xs, ys, (n - 1) as nat);
    }
}

/// A value of a polynomial is reduced.
pub proof fn lemma_peval_range(c: Seq<int>, x: int)
    ensures
        0 <= peval(c, x) < crate::field::modulus(),
{
    if c.len() > 0 {
        vstd::arithmetic::div_mod::lemma_mod_bound(
            fmul(peval(c.drop_first(), x), x) + c[0],
            crate::field::modulus(),
        );
    }
}

/// Horner steps add up: `(A x + a) + (B x + b) = (A + B) x + (a + b)`.
proof fn lemma_horner_add(pa: int, pb: int, a0: int, b0: int, x: int)
    ensures
        fadd(fmul(fadd(pa, pb), x), fadd(a0, b0)) == fadd(fadd(fmul(pa, x), a0), fadd(fmul(pb, x), b0)),
{
    let p = crate::field::modulus();
    vstd::arithmetic::div_mod::lemma_mul_mod_noop_left(pa + pb, x, p);
    crate::field::lemma_add_mod_noop_left((pa + pb) * x, a0 + b0, p);
    crate::field::lemma_add_mod_noop_right((pa + pb) * x % p, a0 + b0, p);
    vstd::arithmetic::div_mod::lemma_add_mod_noop(fmul(pa, x) + a0, fmul(pb, x) + b0, p);
    crate::field::lemma_mod_twice(fmul(pa, x) + a0, p);
    crate::field::lemma_mod_twice(fmul(pb, x) + b0, p);
    vstd::arithmetic::div_mod::lemma_add_mod_noop(pa * x + a0, pb * x + b0, p);
    crate::field::lemma_add_mod_noop_left(pa * x, a0, p);
    crate::field::lemma_add_mod_noop_left(pb * x, b0, p);
    vstd::arithmetic::div_mod::lemma_add_mod_noop(fmul(pa, x) + a0, fmul(pb, x) + b0, p);
    assert((pa + pb) * x + (a0 + b0) == (pa * x + a0) + (pb * x + b0)) by (nonlinear_arith);
    crate::field::lemma_add_mod_noop_left((pa + pb) * x, a0 + b0, p);
}

/// The value of a sum of polynomials is the sum of the values.
pub proof fn lemma_peval_add(a: Seq<int>, b: Seq<int>, x: int)
    ensures
        peval(poly_add(a, b), x) == fadd(peval(a, x), peval(b, x)),
    decreases a.len() + b.len(),
{
    let s = poly_add(a, b);
    lemma_peval_range(a, x);
    lemma_peval_range(b, x);
    if b.len() == 0 {
        assert(s =~= a);
        crate::field::lemma_reduced(peval(a, x));
    } else if a.len() == 0 {
        assert(s =~= b);
        crate::field::lemma_reduced(peval(b, x));
    } else {
        lemma_peval_add(a.drop_first(), b.drop_first(), x);
        assert(s.drop_first() =~= poly_add(a.drop_first(), b.drop_first()));
        lemma_horner_add(peval(a.drop_first(), x), peval(b.drop_first(), x), a[0], b[0], x);
    }
}

/// The value of a scaled polynomial is the scaled value.
pub proof fn lemma_peval_scale(c: Seq<int>, k: int, x: int)
    ensures
        peval(poly_scale(c, k), x) == fmul(k, peval(c, x)),
    decreases c.len(),
{
    let p = crate::field::modulus();
    if c.len() == 0 {
        vstd::arithmetic::div_mod::lemma_small_mod(0, p as nat);
        assert(k * 0 == 0);
    } else {
        let s = poly_scale(c, k);
        assert(s.drop_first() =~= poly_scale(c.drop_first(), k));
        lemma_peval_scale(c.drop_first(), k, x);
        let pc = peval(c.drop_first(), x);
        // k (pc x + c0) = (k pc) x + k c0
        vstd::arithmetic::div_mod::lemma_mul_mod_noop_left(k * pc, x, p);
        vstd::arithmetic::div_mod::lemma_mul_mod_noop_right(k, pc, p);
        vstd::arithmetic::div_mod::lemma_mul_mod_noop_left(k * pc % p, x, p);
        crate::field::lemma_add_mod_noop_left(fmul(fmul(k, pc), x), fmul(k, c[0]), p);
        vstd::arithmetic::div_mod::lemma_add_mod_noop(fmul(fmul(k, pc), x), fmul(k, c[0]), p);
        vstd::arithmetic::div_mod::lemma_add_mod_noop((k * pc) * x, k * c[0], p);
        crate::field::lemma_mod_twice((k * pc) * x, p);
        crate::field::lemma_mod_twice(k * c[0], p);
        vstd::arithmetic::div_mod::lemma_mul_mod_noop_right(k, fmul(pc, x) + c[0], p);
        crate::field::lemma_add_mod_noop_left(pc * x, c[0], p);
        vstd::arithmetic::div_mod::lemma_mul_mod_noop_left(pc, x, p);
        vstd::arithmetic::div_mod::lemma_mul_mod_noop_right(k, pc * x + c[0], p);
        assert(k * (pc * x + c[0]) == (k * pc) * x + k * c[0]) by (nonlinear_arith);
        vstd::arithmetic::div_mod::lemma_mul_mod_noop_right(k, (pc * x) % p + c[0], p);
        crate::field::lemma_add_mod_noop_left(pc * x, c[0], p);
    }
}

/// Every coefficient is a reduced field value.
pub open spec fn reduced_coeffs(c: Seq<int>) -> bool {
    forall|i: int| 0 <= i < c.len() ==> 0 <= #[trigger] c[i] < crate::field::modulus()
}

/// A sum whose terms vanish outside positions `k - 1` and `k`.
proof fn lemma_fsum_sparse(t: Seq<int>, k: int)
    requires
        forall|i: int| 0 <= i < t.len() && i != k - 1 && i != k ==> #[trigger] t[i] == 0,
        forall|i: int| 0 <= i < t.len() ==> 0 <= #[trigger] t[i] < crate::field::modulus(),
    ensures
        fsum(t) == fadd(
            if 0 <= k - 1 < t.len() {
                t[k - 1]
            } else {
                0
            },
            if 0 <= k < t.len() {
                t[k]
            } else {
                0
            },
        ),
    decreases t.len(),
{
    let p = crate::field::modulus();
    vstd::arithmetic::div_mod::lemma_small_mod(0, p as nat);
    if t.len() > 0 {
        let d = t.drop_last();
        lemma_fsum_sparse(d, k);
        let l = t.len() - 1;
        crate::field::lemma_fsum_range(d);
        if l > k {
            crate::field::lemma_reduced(fsum(d));
        } else if l == k {
            if 0 <= k - 1 {
                crate::field::lemma_reduced(t[k - 1]);
            }
        } else if l == k - 1 {
            crate::field::lemma_reduced(t[k - 1]);
        }
    }
}

/// The product with `x - v`: the coefficients scaled by `-v` plus the
/// coefficients shifted up by one.
proof fn lemma_mul_linear_coeffs(a: Seq<int>, v: int)
    requires
        a.len() > 0,
        reduced_coeffs(a),
    ensures
        poly_mul(a, linear_factor(v)) =~= poly_add(poly_scale(a, fsub(0, v)), seq![0int] + a),
{
    let b = linear_factor(v);
    let c0 = fsub(0, v);
    let la = a.len() as int;
    let m = poly_mul(a, b);
    let q = poly_add(poly_scale(a, c0), seq![0int] + a);
    assert(m.len() == q.len());
    assert forall|k: int| 0 <= k < m.len() implies #[trigger] m[k] == q[k] by {
        let t = Seq::new(la as nat, |i: int| conv_term(a, b, k, i));
        assert forall|i: int| 0 <= i < t.len() ==> 0 <= #[trigger] t[i] < crate::field::modulus() by {
            if 0 <= k - i < b.len() {
                vstd::arithmetic::div_mod::lemma_mod_bound(a[i] * b[k - i], crate::field::modulus());
            } else {
                vstd::arithmetic::div_mod::lemma_small_mod(0, crate::field::modulus() as nat);
            }
        }
        lemma_fsum_sparse(t, k);
        if 0 <= k - 1 < la {
            crate::field::lemma_reduced(a[k - 1]);
            assert(t[k - 1] == fmul(a[k - 1], 1));
            assert(a[k - 1] * 1 == a[k - 1]);
        }
        if 0 <= k < la {
            assert(t[k] == fmul(a[k], c0));
            assert(a[k] * c0 == c0 * a[k]);
            vstd::arithmetic::div_mod::lemma_mod_bound(c0 * a[k], crate::field::modulus());
            crate::field::lemma_reduced(fmul(c0, a[k]));
        }
        if k == 0 {
            assert(fadd(fmul(c0, a[0]), 0) == fadd(0, fmul(c0, a[0])));
        }
        if 0 < k < la {
            assert(fadd(a[k - 1], fmul(c0, a[k])) == fadd(fmul(c0, a[k]), a[k - 1]));
        }
    }
}

/// The value of a product with `x - v` is the value times `y - v`.
pub proof fn lemma_peval_mul_linear(a: Seq<int>, v: int, y: int)
    requires
        a.len() > 0,
        reduced_coeffs(a),
    ensures
        peval(poly_mul(a, linear_factor(v)), y) == fmul(peval(a, y), fsub(y, v)),
{
    let p = crate::field::modulus();
    let c0 = fsub(0, v);
    let pa = peval(a, y);
    lemma_mul_linear_coeffs(a, v);
    lemma_peval_add(poly_scale(a, c0), seq![0int] + a, y);
    lemma_peval_scale(a, c0, y);
    let sh = seq![0int] + a;
    assert(sh.drop_first() =~= a);
    assert(sh[0] == 0);
    vstd::arithmetic::div_mod::lemma_mod_bound(pa * y, p);
    crate::field::lemma_reduced(fmul(pa, y));
    assert(peval(sh, y) == fmul(pa, y));
    // c0 pa + pa y = pa (y - v)
    vstd::arithmetic::div_mod::lemma_mul_mod_noop_left(0 - v, pa, p);
    assert(fmul(c0, pa) == ((0 - v) * pa) % p);
    vstd::arithmetic::div_mod::lemma_add_mod_noop((0 - v) * pa, pa * y, p);
    vstd::arithmetic::div_mod::lemma_mul_mod_noop_right(pa, y - v, p);
    assert((0 - v) * pa + pa * y == pa * (y - v)) by (nonlinear_arith);
}

/// The product of `y - v` over the first `n` values `v` of `set` that differ from `x`.
pub open spec fn node_product(x: int, set: Seq<int>, y: int, n: nat) -> int
    decreases n,
{
    if n == 0 {
        1
    } else if set[n - 1] == x {
        node_product(x, set, y, (n - 1) as nat)
    } else {
        fmul(node_product(x, set, y, (n - 1) as nat), fsub(y, set[n - 1]))
    }
}

/// The numerator of a basis polynomial is a product of linear factors: it
/// has reduced coefficients, and its value at `y` is the product of the `y - v`.
proof fn lemma_basis_numerator_value(x: int, set: Seq<int>, y: int, n: nat)
    requires
        n <= set.len(),
    ensures
        basis_numerator(x, set, n).len() > 0,
        reduced_coeffs(basis_numerator(x, set, n)),
        peval(basis_numerator(x, set, n), y) == node_product(x, set, y, n),
    decreases n,
{
    let p = crate::field::modulus();
    if n == 0 {
        let one = seq![1int];
        assert(basis_numerator(x, set, n) == one);
        assert(one.drop_first() =~= Seq::<int>::empty());
        assert(peval(one.drop_first(), y) == 0);
        vstd::arithmetic::div_mod::lemma_small_mod(0, p as nat);
        vstd::arithmetic::div_mod::lemma_small_mod(1, p as nat);
        assert(0 * y == 0);
        assert(fmul(0, y) == 0);
        assert(peval(one, y) == fadd(0, 1));
    } else {
        lemma_basis_numerator_value(x, set, y, (n - 1) as nat);
        let acc = basis_numerator(x, set, (n - 1) as nat);
        if set[n - 1] != x {
            lemma_peval_mul_linear(acc, set[n - 1], y);
            let m = poly_mul(acc, linear_factor(set[n - 1]));
            assert forall|k: int| 0 <= k < m.len() implies 0 <= #[trigger] m[k] < p by {
                crate::field::lemma_fsum_range(Seq::new(acc.len(), |i: int| conv_term(acc, linear_factor(set[n - 1]), k, i)));
            }
        }
    }
}

/// A product that takes a difference of `y` from itself vanishes.
proof fn lemma_node_product_zero(x: int, set: Seq<int>, y: int, n: nat, m: int)
    requires
        0 <= m < n <= set.len(),
        set[m] == y,
        y != x,
    ensures
        node_product(x, set, y, n) == 0,
    decreases n,
{
    let p = crate::field::modulus();
    vstd::arithmetic::div_mod::lemma_small_mod(0, p as nat);
    if m < n - 1 {
        lemma_node_product_zero(x, set, y, (n - 1) as nat, m);
        if set[n - 1] != x {
            assert(0 * fsub(y, set[n - 1]) == 0);
        }
    } else {
        assert(fsub(y, y) == 0);
        assert(node_product(x, set, y, (n - 1) as nat) * 0 == 0);
    }
}

/// No value occurs twice.
pub open spec fn distinct(xs: Seq<int>) -> bool {
    forall|a: int, b: int| 0 <= a < xs.len() && 0 <= b < xs.len() && a != b ==> xs[a] != xs[b]
}

/// A basis polynomial is one at its own point and zero at the other points.
pub proof fn lemma_basis_value(xs: Seq<int>, k: int, j: int)
    requires
        0 <= k < xs.len(),
        0 <= j < xs.len(),
        distinct(xs),
        basis_defined(xs[k], xs),
    ensures
        peval(basis_poly(xs[k], xs), xs[j]) == if j == k {
            1int
        } else {
            0int
        },
{
    let n = xs.len();
    let num = basis_numerator(xs[k], xs, n);
    let d = peval(num, xs[k]);
    let q = fdiv(1, d);
    lemma_peval_scale(num, q, xs[j]);
    lemma_basis_numerator_value(xs[k], xs, xs[j], n);
    if j != k {
        lemma_node_product_zero(xs[k], xs, xs[j], n, j);
        vstd::arithmetic::div_mod::lemma_small_mod(0, crate::field::modulus() as nat);
        assert(q * 0 == 0);
    }
}

/// The interpolated polynomial takes `ys[j]` at `xs[j]` once point `j` has
/// been added, and zero before.
proof fn lemma_interpolation_value(xs: Seq<int>, ys: Seq<int>, m: nat, j: int)
    requires
        m <= xs.len(),
        xs.len() == ys.len(),
        0 <= j < xs.len(),
        distinct(xs),
        forall|k: int| 0 <= k < xs.len() ==> basis_defined(#[trigger] xs[k], xs),
        reduced_coeffs(ys),
    ensures
        peval(interpolation(xs, ys, m), xs[j]) == if j < m {
            ys[j]
        } else {
            0int
        },
    decreases m,
{
    let p = crate::field::modulus();
    vstd::arithmetic::div_mod::lemma_small_mod(0, p as nat);
    if m == 0 {
        let z = seq![0int];
        assert(z.drop_first() =~= Seq::<int>::empty());
        assert(peval(z.drop_first(), xs[j]) == 0);
        assert(0 * xs[j] == 0);
    } else {
        lemma_interpolation_value(xs, ys, (m - 1) as nat, j);
        let b = basis_poly(xs[m - 1], xs);
        lemma_peval_add(interpolation(xs, ys, (m - 1) as nat), poly_scale(b, ys[m - 1]), xs[j]);
        lemma_peval_scale(b, ys[m - 1], xs[j]);
        lemma_basis_value(xs, m - 1, j);
        crate::field::lemma_reduced(ys[m - 1]);
        assert(ys[m - 1] * 1 == ys[m - 1]);
        assert(ys[m - 1] * 0 == 0);
        if j < m - 1 {
            crate::field::lemma_reduced(ys[j]);
        }
    }
}

/// Lagrange interpolation through distinct points passes through each of them.
pub proof fn lemma_interpolation_passes_through(xs: Seq<int>, ys: Seq<int>)
    requires
        xs.len() == ys.len(),
        distinct(xs),
        forall|k: int| 0 <= k < xs.len() ==> basis_defined(#[trigger] xs[k], xs),
        reduced_coeffs(ys),
    ensures
        forall|j: int| 0 <= j < xs.len() ==> #[trigger] peval(interpolation(xs, ys, xs.len()), xs[j]) == ys[j],
{
    assert forall|j: int| 0 <= j < xs.len() implies #[trigger] peval(interpolation(xs, ys, xs.len()), xs[j]) == ys[j] by {
        lemma_interpolation_value(xs, ys, xs.len(), j);
    }
}

/// The value of a basis numerator: the product of the differences.
pub proof fn lemma_basis_numerator_value_pub(x: int, set: Seq<int>, y: int, n: nat)
    requires
        n <= set.len(),
    ensures
        basis_numerator(x, set, n).len() > 0,
        reduced_coeffs(basis_numerator(x, set, n)),
        peval(basis_numerator(x, set, n), y) == node_product(x, set, y, n),
{
    lemma_basis_numerator_value(x, set, y, n);
}

} // verus!
