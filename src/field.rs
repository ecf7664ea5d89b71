//! Elements of the scalar field of BLS12-381, held as four canonical
//! little-endian 64-bit limbs; arithmetic is delegated to arkworks.
use ark_bls12_381::Fr;
use ark_ff::{BigInt, BigInteger, Field, PrimeField, UniformRand};
use rand::rngs::StdRng;
use rand::SeedableRng;
use vstd::arithmetic::div_mod::*;
use vstd::prelude::*;

verus! {

/// The prime order of the scalar field,
/// 0x73eda753299d7d483339d80809a1d80553bda402fffe5bfeffffffff00000001, in limbs.
pub open spec fn modulus() -> int {
    0xffffffff00000001 + radix() * (0x53bda402fffe5bfe + radix() * (0x3339d80809a1d805
        + radix() * 0x73eda753299d7d48))
}

/// 2^64, the radix of a limb.
pub open spec fn radix() -> int {
    0x1_0000_0000_0000_0000
}

/// The integer that four little-endian limbs spell.
pub open spec fn limbs_value(l: [u64; 4]) -> int {
    l[0] as int + radix() * (l[1] as int + radix() * (l[2] as int + radix() * (l[3] as int)))
}

/// Field addition on representatives.
pub open spec fn fadd(a: int, b: int) -> int {
    (a + b) % modulus()
}

/// Field subtraction on representatives.
pub open spec fn fsub(a: int, b: int) -> int {
    (a - b) % modulus()
}

/// Field multiplication on representatives.
pub open spec fn fmul(a: int, b: int) -> int {
    (a * b) % modulus()
}

/// The quotient `a / b` in the field: the element whose product with `b` is
/// `a`, unique for a non-zero `b` since the modulus is prime.
pub open spec fn fdiv(a: int, b: int) -> int {
    choose|q: int| 0 <= q < modulus() && fmul(q, b) == a
}

/// The values of a sequence of field elements.
pub open spec fn vals(s: Seq<Scalar>) -> Seq<int> {
    s.map_values(|x: Scalar| x.val())
}

/// The sum of a sequence of field values.
pub open spec fn fsum(s: Seq<int>) -> int
    decreases s.len(),
{
    if s.len() == 0 {
        0
    } else {
        fadd(fsum(s.drop_last()), s.last())
    }
}

/// The encodings of a sequence of field values, one after the other.
pub open spec fn seq_bytes(s: Seq<int>) -> Seq<u8> {
    s.map_values(|v: int| le_bytes(v)).flatten()
}

/// The little-endian encoding of `v` in 32 bytes.
pub open spec fn le_bytes(v: int) -> Seq<u8> {
    Seq::new(32, |k: int| ((v / vstd::arithmetic::power::pow(256, k as nat)) % 256) as u8)
}

/// The field element that the seeded standard generator yields first for `seed`.
pub uninterp spec fn seeded_scalar(seed: Seq<u8>) -> int;

/// An element of the scalar field.
#[derive(Clone, Copy, Debug)]
pub struct Scalar {
    limbs: [u64; 4],
}

pub broadcast proof fn lemma_val_range(s: Scalar)
    ensures
        0 <= #[trigger] s.val() < modulus(),
{
}

proof fn lemma_limbs_unique(a: [u64; 4], b: [u64; 4])
    requires
        limbs_value(a) == limbs_value(b),
    ensures
        a[0] == b[0] && a[1] == b[1] && a[2] == b[2] && a[3] == b[3],
{
    let ra2 = a[2] as int + radix() * (a[3] as int);
    let rb2 = b[2] as int + radix() * (b[3] as int);
    let ra1 = a[1] as int + radix() * ra2;
    let rb1 = b[1] as int + radix() * rb2;
    let x = limbs_value(a);
    lemma_fundamental_div_mod_converse(x, radix(), ra1, a[0] as int);
    lemma_fundamental_div_mod_converse(x, radix(), rb1, b[0] as int);
    lemma_fundamental_div_mod_converse(ra1, radix(), ra2, a[1] as int);
    lemma_fundamental_div_mod_converse(ra1, radix(), rb2, b[1] as int);
    lemma_fundamental_div_mod_converse(ra2, radix(), a[3] as int, a[2] as int);
    lemma_fundamental_div_mod_converse(ra2, radix(), b[3] as int, b[2] as int);
}

impl Scalar {
    #[verifier::type_invariant]
    spec fn canonical(self) -> bool {
        limbs_value(self.limbs) < modulus()
    }

    /// The element as an integer in `[0, modulus())`.
    pub closed spec fn val(self) -> int {
        limbs_value(self.limbs) % modulus()
    }

    pub fn zero() -> (r: Scalar)
        ensures
            r.val() == 0,
    {
        Scalar::from_u64(0)
    }

    pub fn one() -> (r: Scalar)
        ensures
            r.val() == 1,
    {
        Scalar::from_u64(1)
    }

    pub fn from_u64(x: u64) -> (r: Scalar)
        ensures
            r.val() == x as int,
    {
        let limbs: [u64; 4] = [x, 0, 0, 0];
        proof {
            assert(limbs[0] == x && limbs[1] == 0 && limbs[2] == 0 && limbs[3] == 0);
            assert(limbs_value(limbs) == x as int);
            lemma_small_mod(x as nat, modulus() as nat);
        }
        Scalar { limbs }
    }

    /// A copy of the element.
    pub fn copy(&self) -> (r: Scalar)
        ensures
            r.val() == self.val(),
    {
        *self
    }

    /// Equality of field elements.
    pub fn equals(&self, o: &Scalar) -> (r: bool)
        ensures
            r == (self.val() == o.val()),
    {
        proof {
            use_type_invariant(self);
            use_type_invariant(o);
            lemma_small_mod(limbs_value(self.limbs) as nat, modulus() as nat);
            lemma_small_mod(limbs_value(o.limbs) as nat, modulus() as nat);
            if self.val() == o.val() {
                lemma_limbs_unique(self.limbs, o.limbs);
            }
        }
        self.limbs[0] == o.limbs[0] && self.limbs[1] == o.limbs[1] && self.limbs[2] == o.limbs[2]
            && self.limbs[3] == o.limbs[3]
    }

    pub fn add(&self, o: &Scalar) -> (r: Scalar)
        ensures
            r.val() == fadd(self.val(), o.val()),
    {
        fr_add(self, o)
    }

    pub fn sub(&self, o: &Scalar) -> (r: Scalar)
        ensures
            r.val() == fsub(self.val(), o.val()),
    {
        fr_sub(self, o)
    }

    pub fn mul(&self, o: &Scalar) -> (r: Scalar)
        ensures
            r.val() == fmul(self.val(), o.val()),
    {
        fr_mul(self, o)
    }

    /// The quotient by a non-zero element.
    pub fn div(&self, o: &Scalar) -> (r: Scalar)
        requires
            o.val() != 0,
        ensures
            r.val() == fdiv(self.val(), o.val()),
    {
        fr_div(self, o)
    }

    /// The canonical integer in 32 little-endian bytes.
    pub fn to_bytes(&self) -> (r: Vec<u8>)
        ensures
            r@ == le_bytes(self.val()),
    {
        fr_to_bytes(self)
    }

    /// The canonical integer in little-endian limbs.
    pub fn limbs(&self) -> (r: [u64; 4])
        ensures
            limbs_value(r) == self.val(),
    {
        proof {
            use_type_invariant(self);
            lemma_small_mod(limbs_value(self.limbs) as nat, modulus() as nat);
        }
        self.limbs
    }

}

} // verus!

verus! {

/// Relies on `Fr + Fr` of ark-ff: addition modulo the field order.
#[verifier::external_body]
fn fr_add(a: &Scalar, o: &Scalar) -> (r: Scalar)
    ensures
        r.val() == fadd(a.val(), o.val()),
{
    let a = Fr::from_bigint(BigInt::new(a.limbs)).unwrap();
    let b = Fr::from_bigint(BigInt::new(o.limbs)).unwrap();
    Scalar { limbs: (a + b).into_bigint().0 }
}

/// Relies on `Fr - Fr` of ark-ff: subtraction modulo the field order.
#[verifier::external_body]
fn fr_sub(a: &Scalar, o: &Scalar) -> (r: Scalar)
    ensures
        r.val() == fsub(a.val(), o.val()),
{
    let a = Fr::from_bigint(BigInt::new(a.limbs)).unwrap();
    let b = Fr::from_bigint(BigInt::new(o.limbs)).unwrap();
    Scalar { limbs: (a - b).into_bigint().0 }
}

/// Relies on `Fr * Fr` of ark-ff: multiplication modulo the field order.
#[verifier::external_body]
fn fr_mul(a: &Scalar, o: &Scalar) -> (r: Scalar)
    ensures
        r.val() == fmul(a.val(), o.val()),
{
    let a = Fr::from_bigint(BigInt::new(a.limbs)).unwrap();
    let b = Fr::from_bigint(BigInt::new(o.limbs)).unwrap();
    Scalar { limbs: (a * b).into_bigint().0 }
}

/// Relies on `Field::inverse` of ark-ff: for a non-zero element, the element
/// whose product with it is one. The quotient is `self` times that inverse,
/// the one element whose product with `o` is `self`.
#[verifier::external_body]
fn fr_div(a: &Scalar, o: &Scalar) -> (r: Scalar)
    requires
        o.val() != 0,
    ensures
        r.val() == fdiv(a.val(), o.val()),
{
    let a = Fr::from_bigint(BigInt::new(a.limbs)).unwrap();
    let b = Fr::from_bigint(BigInt::new(o.limbs)).unwrap();
    Scalar { limbs: (a * b.inverse().unwrap()).into_bigint().0 }
}

/// Relies on `PrimeField::into_bigint` and `BigInteger::to_bytes_le` of
/// ark-ff: the canonical integer in 32 little-endian bytes.
#[verifier::external_body]
fn fr_to_bytes(a: &Scalar) -> (r: Vec<u8>)
    ensures
        r@ == le_bytes(a.val()),
{
    Fr::from_bigint(BigInt::new(a.limbs)).unwrap().into_bigint().to_bytes_le()
}


/// Relies on `StdRng::from_seed` of rand and `UniformRand::rand` of ark-ff:
/// the element drawn from a generator seeded with `seed` depends on the seed
/// alone. The generator is an outside value that lives only inside this call.
#[verifier::external_body]
pub(crate) fn scalar_from_seed(seed: [u8; 32]) -> (r: Scalar)
    ensures
        r.val() == seeded_scalar(seed@),
{
    let mut rng = StdRng::from_seed(seed);
    Scalar { limbs: Fr::rand(&mut rng).into_bigint().0 }
}

impl PartialEq for Scalar {
    fn eq(&self, o: &Scalar) -> (r: bool) {
        self.equals(o)
    }
}

impl vstd::std_specs::cmp::PartialEqSpecImpl for Scalar {
    open spec fn obeys_eq_spec() -> bool {
        true
    }

    open spec fn eq_spec(&self, o: &Scalar) -> bool {
        self.val() == o.val()
    }
}

/// A copy of a sequence of field elements.
pub fn copy_scalars(v: &[Scalar]) -> (r: Vec<Scalar>)
    ensures
        r@ == v@,
{
    let mut r: Vec<Scalar> = Vec::new();
    let mut i: usize = 0;
    while i < v.len()
        invariant
            i <= v@.len(),
            r@ == v@.subrange(0, i as int),
        decreases v@.len() - i,
    {
        r.push(v[i]);
        i = i + 1;
        proof {
            assert(r@ =~= v@.subrange(0, i as int));
        }
    }
    proof {
        assert(v@.subrange(0, v@.len() as int) =~= v@);
    }
    r
}

/// The encodings of `v`, one after the other.
pub fn scalars_to_bytes(v: &[Scalar]) -> (r: Vec<u8>)
    ensures
        r@ == seq_bytes(vals(v@)),
{
    let mut r: Vec<u8> = Vec::new();
    let mut i: usize = 0;
    while i < v.len()
        invariant
            i <= v@.len(),
            r@ == seq_bytes(vals(v@.subrange(0, i as int))),
        decreases v@.len() - i,
    {
        let mut b = v[i].to_bytes();
        let ghost prev = r@;
        r.append(&mut b);
        i = i + 1;
        proof {
            let t = vals(v@.subrange(0, i - 1)).map_values(|x: int| le_bytes(x));
            let u = vals(v@.subrange(0, i as int)).map_values(|x: int| le_bytes(x));
            assert(u =~= t.push(le_bytes(v@[i - 1].val())));
            t.lemma_flatten_push(le_bytes(v@[i - 1].val()));
        }
    }
    proof {
        assert(v@.subrange(0, v@.len() as int) =~= v@);
    }
    r
}

/// A copy of the entries of `v` from `lo` up to `hi`.
pub fn copy_range(v: &[Scalar], lo: usize, hi: usize) -> (r: Vec<Scalar>)
    requires
        lo <= hi <= v@.len(),
    ensures
        r@ == v@.subrange(lo as int, hi as int),
{
    let mut r: Vec<Scalar> = Vec::new();
    let mut i: usize = lo;
    while i < hi
        invariant
            lo <= i <= hi,
            hi <= v@.len(),
            r@ == v@.subrange(lo as int, i as int),
        decreases hi - i,
    {
        r.push(v[i]);
        i = i + 1;
        proof {
            assert(r@ =~= v@.subrange(lo as int, i as int));
        }
    }
    r
}

/// Field addition of reduced values is associative.
pub proof fn lemma_fadd_assoc(a: int, b: int, c: int)
    ensures
        fadd(fadd(a, b), c) == fadd(a, fadd(b, c)),
{
    lemma_add_mod_noop_left(a + b, c, modulus());
    lemma_add_mod_noop_right(a, b + c, modulus());
    assert((a + b) + c == a + (b + c));
}

pub(crate) proof fn lemma_add_mod_noop_left(x: int, y: int, m: int)
    requires
        m > 0,
    ensures
        ((x % m) + y) % m == (x + y) % m,
{
    lemma_add_mod_noop(x, y, m);
    lemma_add_mod_noop(x % m, y, m);
    lemma_mod_twice(x, m);
}

pub(crate) proof fn lemma_add_mod_noop_right(x: int, y: int, m: int)
    requires
        m > 0,
    ensures
        (x + (y % m)) % m == (x + y) % m,
{
    lemma_add_mod_noop(x, y, m);
    lemma_add_mod_noop(x, y % m, m);
    lemma_mod_twice(y, m);
}

pub(crate) proof fn lemma_mod_twice(x: int, m: int)
    requires
        m > 0,
    ensures
        (x % m) % m == x % m,
{
    lemma_mod_bound(x, m);
    lemma_small_mod((x % m) as nat, m as nat);
}

/// Reduced values are left alone by the reduction.
pub proof fn lemma_reduced(a: int)
    requires
        0 <= a < modulus(),
    ensures
        a % modulus() == a,
        fadd(a, 0) == a,
        fadd(0, a) == a,
{
    lemma_small_mod(a as nat, modulus() as nat);
}

/// The sum of a concatenation is the sum of the sums.
pub proof fn lemma_fsum_concat(x: Seq<int>, y: Seq<int>)
    requires
        0 <= fsum(x) < modulus(),
    ensures
        fsum(x + y) == fadd(fsum(x), fsum(y)),
    decreases y.len(),
{
    if y.len() == 0 {
        assert(x + y =~= x);
        lemma_reduced(fsum(x));
    } else {
        lemma_fsum_concat(x, y.drop_last());
        assert((x + y).drop_last() =~= x + y.drop_last());
        assert((x + y).last() == y.last());
        lemma_fadd_assoc(fsum(x), fsum(y.drop_last()), y.last());
    }
}

/// A sum is reduced.
pub proof fn lemma_fsum_range(x: Seq<int>)
    ensures
        0 <= fsum(x) < modulus(),
    decreases x.len(),
{
    if x.len() == 0 {
    } else {
        lemma_mod_bound(fsum(x.drop_last()) + x.last(), modulus());
    }
}

/// Two integers with the same residue.
pub open spec fn cong(a: int, b: int) -> bool {
    a % modulus() == b % modulus()
}

pub proof fn lemma_cong_mod(x: int)
    ensures
        cong(x % modulus(), x),
{
    lemma_mod_twice(x, modulus());
}

pub proof fn lemma_cong_add(x: int, y: int, x2: int, y2: int)
    requires
        cong(x, x2),
        cong(y, y2),
    ensures
        cong(x + y, x2 + y2),
{
    lemma_add_mod_noop(x, y, modulus());
    lemma_add_mod_noop(x2, y2, modulus());
}

pub proof fn lemma_cong_sub(x: int, y: int, x2: int, y2: int)
    requires
        cong(x, x2),
        cong(y, y2),
    ensures
        cong(x - y, x2 - y2),
{
    lemma_sub_mod_noop(x, y, modulus());
    lemma_sub_mod_noop(x2, y2, modulus());
}

pub proof fn lemma_cong_mul(x: int, y: int, x2: int, y2: int)
    requires
        cong(x, x2),
        cong(y, y2),
    ensures
        cong(x * y, x2 * y2),
{
    lemma_mul_mod_noop(x, y, modulus());
    lemma_mul_mod_noop(x2, y2, modulus());
}

/// Reduced values with the same residue are equal.
pub proof fn lemma_cong_reduced(a: int, b: int)
    requires
        cong(a, b),
        0 <= a < modulus(),
        0 <= b < modulus(),
    ensures
        a == b,
{
    lemma_small_mod(a as nat, modulus() as nat);
    lemma_small_mod(b as nat, modulus() as nat);
}

/// `x % p == y % p` when `x - y` is a multiple of `p`.
pub proof fn lemma_cong_shift(x: int, y: int, k: int)
    requires
        x == y + modulus() * k,
    ensures
        cong(x, y),
{
    lemma_mod_multiples_vanish(k, y, modulus());
}

} // verus!
