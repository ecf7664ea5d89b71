//! Multilinear polynomials held as their evaluations over the Boolean
//! hypercube. Variable 0 is the most significant bit of an evaluation's index.
use crate::field::{
    copy_scalars, fadd, fmul, fsub, fsum, lemma_reduced, modulus, scalars_to_bytes, seq_bytes, vals, Scalar,
};
use vstd::arithmetic::div_mod::*;
use vstd::arithmetic::mul::*;
use vstd::arithmetic::power2::*;
use vstd::prelude::*;

verus! {

/// `a + v * (b - a)`: the line through `a` at 0 and `b` at 1, taken at `v`.
pub open spec fn lerp(a: int, b: int, v: int) -> int {
    fadd(a, fmul(v, fsub(b, a)))
}

/// The index of the `k`-th entry whose bit `pos` is clear.
pub open spec fn low_index(k: int, pos: nat) -> int {
    (k / pow2(pos) as int) * pow2(pos + 1) as int + k % pow2(pos) as int
}

/// The evaluations after the variable at bit `pos` is set to `v`.
pub open spec fn partial_eval(s: Seq<int>, pos: nat, v: int) -> Seq<int> {
    Seq::new(
        s.len() / 2,
        |k: int| lerp(s[low_index(k, pos)], s[low_index(k, pos) + pow2(pos) as int], v),
    )
}

/// The value at `point` of the polynomial with `n` variables and evaluations
/// `s`: the variables are set from the most significant bit inward.
pub open spec fn ml_eval(s: Seq<int>, n: nat, point: Seq<int>) -> int
    decreases point.len(),
{
    if point.len() == 0 || n == 0 {
        s[0]
    } else {
        ml_eval(partial_eval(s, (n - 1) as nat, point[0]), (n - 1) as nat, point.drop_first())
    }
}

/// Each entry duplicated where it stands: a new least significant variable.
pub open spec fn blow_right(s: Seq<int>) -> Seq<int> {
    Seq::new(2 * s.len(), |i: int| s[i / 2])
}

/// The table repeated: a new most significant variable.
pub open spec fn blow_left(s: Seq<int>) -> Seq<int> {
    s + s
}

pub enum BlowUpDirection {
    Left,
    Right,
}

/// The table after `k` extensions in direction `d`.
pub open spec fn blown_up(d: BlowUpDirection, s: Seq<int>, k: nat) -> Seq<int>
    decreases k,
{
    if k == 0 {
        s
    } else {
        let t = blown_up(d, s, (k - 1) as nat);
        match d {
            BlowUpDirection::Left => blow_left(t),
            BlowUpDirection::Right => blow_right(t),
        }
    }
}

/// Each extension doubles the table.
pub proof fn lemma_blown_up_len(d: BlowUpDirection, s: Seq<int>, k: nat)
    ensures
        blown_up(d, s, k).len() == s.len() * pow2(k),
    decreases k,
{
    if k == 0 {
        lemma2_to64();
    } else {
        lemma_blown_up_len(d, s, (k - 1) as nat);
        lemma_pow2_unfold(k);
        assert(s.len() * pow2(k) == 2 * (s.len() * pow2((k - 1) as nat))) by (nonlinear_arith)
            requires
                pow2(k) == 2 * pow2((k - 1) as nat),
        ;
    }
}

/// `2^k` as a machine integer.
pub fn pow2_usize(k: usize) -> (r: usize)
    requires
        pow2(k as nat) <= usize::MAX,
    ensures
        r == pow2(k as nat),
{
    let mut r: usize = 1;
    let mut i: usize = 0;
    proof {
        lemma2_to64();
    }
    while i < k
        invariant
            i <= k,
            r == pow2(i as nat),
            pow2(k as nat) <= usize::MAX,
        decreases k - i,
    {
        proof {
            lemma_pow2_unfold((i + 1) as nat);
            lemma_pow2_pos(i as nat);
            if i + 1 < k {
                lemma_pow2_strictly_increases((i + 1) as nat, k as nat);
            }
        }
        r = r * 2;
        i = i + 1;
    }
    r
}

/// For `k < 2^(n-1)` and `pos < n`, the low index and its partner lie in a
/// table of `2^n` entries.
pub proof fn lemma_low_index_bounds(k: int, pos: nat, n: nat)
    requires
        pos < n,
        0 <= k < pow2(n) / 2,
    ensures
        0 <= low_index(k, pos),
        low_index(k, pos) + pow2(pos) < pow2(n),
        low_index(k, pos) % (pow2(pos + 1) as int) < pow2(pos),
{
    let m = pow2(pos) as int;
    lemma_pow2_pos(pos);
    lemma_pow2_unfold(pos + 1);
    lemma_pow2_adds((pos + 1) as nat, (n - pos - 1) as nat);
    lemma_pow2_unfold(n);
    let blocks = pow2((n - pos - 1) as nat) as int;
    assert(pow2(n) / 2 == blocks * m) by {
        assert(pow2(n) as int == 2 * (m * blocks)) by (nonlinear_arith)
            requires
                pow2(n) as int == pow2(pos + 1) as int * blocks,
                pow2(pos + 1) as int == 2 * m,
        ;
    }
    let hi = k / m;
    let lo = k % m;
    lemma_fundamental_div_mod(k, m);
    lemma_mod_bound(k, m);
    assert(hi < blocks) by {
        lemma_div_is_ordered(k, blocks * m - 1, m);
        lemma_div_multiples_vanish_fancy(blocks - 1, m - 1, m);
        assert(blocks * m - 1 == m * (blocks - 1) + (m - 1)) by (nonlinear_arith);
    }
    assert(hi >= 0) by {
        lemma_div_pos_is_pos(k, m);
    }
    assert(low_index(k, pos) == hi * (2 * m) + lo);
    assert(hi * (2 * m) + lo + m < pow2(n)) by (nonlinear_arith)
        requires
            hi < blocks,
            0 <= lo < m,
            pow2(n) as int == 2 * (m * blocks),
            hi >= 0,
    ;
    assert(hi * (2 * m) >= 0) by (nonlinear_arith)
        requires
            hi >= 0,
            m > 0,
    ;
    lemma_fundamental_div_mod_converse(hi * (2 * m) + lo, 2 * m, hi, lo);
}

/// A multilinear polynomial in `n_vars` variables.
pub struct MultilinearPoly {
    pub n_vars: usize,
    pub evals: Vec<Scalar>,
}

impl MultilinearPoly {
    /// The table has one entry per point of the hypercube.
    pub open spec fn wf(&self) -> bool {
        self.evals@.len() == pow2(self.n_vars as nat)
    }

    /// The evaluations as field values.
    pub open spec fn table(&self) -> Seq<int> {
        vals(self.evals@)
    }

    pub fn new(evals: Vec<Scalar>, n_vars: usize) -> (r: MultilinearPoly)
        ensures
            r.evals@ == evals@,
            r.n_vars == n_vars,
    {
        MultilinearPoly { evals, n_vars }
    }

    /// A copy of the polynomial.
    pub fn copy(&self) -> (r: MultilinearPoly)
        ensures
            r.evals@ == self.evals@,
            r.n_vars == self.n_vars,
    {
        MultilinearPoly { evals: copy_scalars(self.evals.as_slice()), n_vars: self.n_vars }
    }

    /// The pairs of entries whose indices differ in bit `pos` alone, the one
    /// with the bit clear first, in order of that index.
    fn get_unique_pairs_evals(arr: &Vec<Scalar>, pos: usize, n: Ghost<nat>) -> (r: Vec<
        (Scalar, Scalar),
    >)
        requires
            pos < n@,
            arr@.len() == pow2(n@),
        ensures
            r@.len() == arr@.len() / 2,
            forall|k: int|
                0 <= k < r@.len() ==> {
                    &&& (#[trigger] r@[k]).0 == arr@[low_index(k, pos as nat)]
                    &&& r@[k].1 == arr@[low_index(k, pos as nat) + pow2(pos as nat)]
                },
    {
        proof {
            lemma_pow2_pos(n@);
            lemma_pow2_pos(pos as nat);
            lemma_pow2_strictly_increases(pos as nat, n@);
            lemma_pow2_unfold((pos + 1) as nat);
            if pos + 1 < n@ {
                lemma_pow2_strictly_increases((pos + 1) as nat, n@);
            }
            lemma_pow2_adds((pos + 1) as nat, (n@ - pos - 1) as nat);
        }
        let len = arr.len();
        let m = pow2_usize(pos);
        let blocks = len / (2 * m);
        let ghost b = pow2((n@ - pos - 1) as nat) as int;
        proof {
            lemma_div_multiples_vanish(b, (2 * m) as int);
            assert(len as int == (2 * m) * b) by (nonlinear_arith)
                requires
                    len as int == pow2((pos + 1) as nat) * b,
                    pow2((pos + 1) as nat) == 2 * m,
            ;
            assert(len / 2 == blocks * m) by (nonlinear_arith)
                requires
                    len as int == (2 * m) * b,
                    blocks == b,
            ;
        }
        let mut r: Vec<(Scalar, Scalar)> = Vec::new();
        let mut hi: usize = 0;
        while hi < blocks
            invariant
                hi <= blocks,
                blocks * m == len / 2,
                len == (2 * m) * blocks,
                m == pow2(pos as nat),
                m > 0,
                len == arr@.len(),
                pow2((pos + 1) as nat) == 2 * m,
                r@.len() == hi * m,
                forall|k: int|
                    0 <= k < r@.len() ==> {
                        &&& (#[trigger] r@[k]).0 == arr@[low_index(k, pos as nat)]
                        &&& r@[k].1 == arr@[low_index(k, pos as nat) + pow2(pos as nat)]
                    },
            decreases blocks - hi,
        {
            let mut lo: usize = 0;
            proof {
                assert(hi * (2 * m) + 2 * m <= len) by (nonlinear_arith)
                    requires
                        hi < blocks,
                        len == (2 * m) * blocks,
                ;
            }
            while lo < m
                invariant
                    hi < blocks,
                    lo <= m,
                    hi * (2 * m) + 2 * m <= len,
                    m == pow2(pos as nat),
                    m > 0,
                    len == arr@.len(),
                    pow2((pos + 1) as nat) == 2 * m,
                    r@.len() == hi * m + lo,
                    forall|k: int|
                        0 <= k < r@.len() ==> {
                            &&& (#[trigger] r@[k]).0 == arr@[low_index(k, pos as nat)]
                            &&& r@[k].1 == arr@[low_index(k, pos as nat) + pow2(pos as nat)]
                        },
                decreases m - lo,
            {
                let i = hi * (2 * m) + lo;
                proof {
                    let k = hi * m + lo;
                    assert(hi * m + lo == m * hi + lo) by (nonlinear_arith);
                    lemma_fundamental_div_mod_converse(k as int, m as int, hi as int, lo as int);
                    assert(low_index(k as int, pos as nat) == i);
                }
                r.push((arr[i], arr[i + m]));
                lo = lo + 1;
            }
            hi = hi + 1;
            proof {
                assert(r@.len() == hi * m) by (nonlinear_arith)
                    requires
                        r@.len() == (hi - 1) * m + m,
                ;
            }
        }
        r
    }

    /// Sets the variable at bit `pos` to `val`; a polynomial in no variable is
    /// returned as it is.
    pub fn partial_evaluate(&self, pv: (usize, Scalar)) -> (r: MultilinearPoly)
        requires
            self.wf(),
            self.n_vars == 0 || pv.0 < self.n_vars,
        ensures
            r.wf(),
            self.n_vars == 0 ==> r.n_vars == 0 && r.table() == self.table(),
            self.n_vars > 0 ==> r.n_vars == self.n_vars - 1 && r.table() == partial_eval(
                self.table(),
                pv.0 as nat,
                pv.1.val(),
            ),
    {
        let (pos, val) = pv;
        if self.n_vars == 0 {
            return self.copy();
        }
        let pairs = Self::get_unique_pairs_evals(&self.evals, pos, Ghost(self.n_vars as nat));
        let mut new_evals: Vec<Scalar> = Vec::new();
        let mut k: usize = 0;
        while k < pairs.len()
            invariant
                k <= pairs@.len(),
                pairs@.len() == self.evals@.len() / 2,
                forall|j: int|
                    0 <= j < pairs@.len() ==> {
                        &&& (#[trigger] pairs@[j]).0 == self.evals@[low_index(j, pos as nat)]
                        &&& pairs@[j].1 == self.evals@[low_index(j, pos as nat) + pow2(pos as nat)]
                    },
                self.wf(),
                pos < self.n_vars,
                new_evals@.len() == k,
                forall|j: int|
                    0 <= j < k ==> (#[trigger] new_evals@[j]).val() == partial_eval(
                        self.table(),
                        pos as nat,
                        val.val(),
                    )[j],
            decreases pairs@.len() - k,
        {
            let (c_i, c_pair) = pairs[k];
            let e = c_i.add(&val.mul(&c_pair.sub(&c_i)));
            proof {
                lemma_low_index_bounds(k as int, pos as nat, self.n_vars as nat);
            }
            new_evals.push(e);
            k = k + 1;
        }
        proof {
            lemma_pow2_unfold(self.n_vars as nat);
            assert(vals(new_evals@) =~= partial_eval(self.table(), pos as nat, val.val()));
        }
        MultilinearPoly::new(new_evals, self.n_vars - 1)
    }
}

/// The table whose entry `k` is `b[k] - a[k]`... for the pairs of `s` across bit `pos`:
/// the quotient of a division by `x - d` in the variable at that bit.
pub open spec fn quotient_table(s: Seq<int>, pos: nat) -> Seq<int> {
    Seq::new(
        s.len() / 2,
        |k: int| fsub(s[low_index(k, pos) + pow2(pos) as int], s[low_index(k, pos)]),
    )
}

impl MultilinearPoly {
    /// The value at `values`, set from the most significant variable inward.
    pub fn evaluate(&self, values: &Vec<Scalar>) -> (r: Scalar)
        requires
            self.wf(),
            values@.len() <= self.n_vars,
        ensures
            r.val() == ml_eval(self.table(), self.n_vars as nat, vals(values@)),
    {
        let mut poly = self.copy();
        let ghost p = vals(values@);
        let mut i: usize = 0;
        proof {
            assert(p.skip(0) =~= p);
        }
        while i < values.len()
            invariant
                i <= values@.len(),
                values@.len() <= self.n_vars,
                p == vals(values@),
                poly.wf(),
                poly.n_vars == self.n_vars - i,
                ml_eval(poly.table(), poly.n_vars as nat, p.skip(i as int)) == ml_eval(
                    self.table(),
                    self.n_vars as nat,
                    p,
                ),
            decreases values@.len() - i,
        {
            let ghost before = poly.table();
            poly = poly.partial_evaluate((poly.n_vars - 1, values[i]));
            proof {
                assert(p.skip(i as int).drop_first() =~= p.skip(i + 1));
            }
            i = i + 1;
        }
        proof {
            lemma_pow2_pos(poly.n_vars as nat);
        }
        poly.evals[0]
    }

    /// Every evaluation multiplied by `scalar`.
    pub fn scalar_mul(&self, scalar: &Scalar) -> (r: MultilinearPoly)
        ensures
            r.n_vars == self.n_vars,
            r.evals@.len() == self.evals@.len(),
            r.table() == Seq::new(self.evals@.len(), |i: int| fmul(scalar.val(), self.table()[i])),
    {
        let mut new_evals: Vec<Scalar> = Vec::new();
        let mut i: usize = 0;
        while i < self.evals.len()
            invariant
                i <= self.evals@.len(),
                new_evals@.len() == i,
                forall|j: int|
                    0 <= j < i ==> (#[trigger] new_evals@[j]).val() == fmul(
                        scalar.val(),
                        self.evals@[j].val(),
                    ),
            decreases self.evals@.len() - i,
        {
            new_evals.push(scalar.mul(&self.evals[i]));
            i = i + 1;
        }
        proof {
            assert(vals(new_evals@) =~= Seq::new(
                self.evals@.len(),
                |i: int| fmul(scalar.val(), self.table()[i]),
            ));
        }
        MultilinearPoly::new(new_evals, self.n_vars)
    }

    /// The evaluations' encodings, one after the other.
    pub fn to_bytes(&self) -> (r: Vec<u8>)
        ensures
            r@ == seq_bytes(self.table()),
    {
        scalars_to_bytes(self.evals.as_slice())
    }

    /// Divides by `x - divisor` in the variable at bit `pos`: returns the
    /// quotient's evaluations and the remainder, the partial evaluation there.
    pub fn compute_quotient_remainder(&self, divisor: &Scalar, pos: usize) -> (r: (
        Vec<Scalar>,
        MultilinearPoly,
    ))
        requires
            self.wf(),
            pos < self.n_vars,
        ensures
            vals(r.0@) == quotient_table(self.table(), pos as nat),
            r.1.wf(),
            r.1.n_vars == self.n_vars - 1,
            r.1.table() == partial_eval(self.table(), pos as nat, divisor.val()),
    {
        let pairs = Self::get_unique_pairs_evals(&self.evals, pos, Ghost(self.n_vars as nat));
        let remainder = self.partial_evaluate((pos, *divisor));
        let mut quotient: Vec<Scalar> = Vec::new();
        let mut k: usize = 0;
        while k < pairs.len()
            invariant
                k <= pairs@.len(),
                pairs@.len() == self.evals@.len() / 2,
                forall|j: int|
                    0 <= j < pairs@.len() ==> {
                        &&& (#[trigger] pairs@[j]).0 == self.evals@[low_index(j, pos as nat)]
                        &&& pairs@[j].1 == self.evals@[low_index(j, pos as nat) + pow2(pos as nat)]
                    },
                self.wf(),
                pos < self.n_vars,
                quotient@.len() == k,
                forall|j: int|
                    0 <= j < k ==> (#[trigger] quotient@[j]).val() == quotient_table(
                        self.table(),
                        pos as nat,
                    )[j],
            decreases pairs@.len() - k,
        {
            let (c_i, c_pair) = pairs[k];
            proof {
                lemma_low_index_bounds(k as int, pos as nat, self.n_vars as nat);
            }
            quotient.push(c_pair.sub(&c_i));
            k = k + 1;
        }
        proof {
            assert(vals(quotient@) =~= quotient_table(self.table(), pos as nat));
        }
        (quotient, remainder)
    }

    /// Extends the table `n` times in `direction`: to the left the table is
    /// repeated, to the right each entry is duplicated in place.
    pub fn blow_up_n_times(direction: BlowUpDirection, evals: &Vec<Scalar>, n: usize) -> (r: Vec<
        Scalar,
    >)
        requires
            evals@.len() * pow2(n as nat) <= usize::MAX,
        ensures
            vals(r@) == blown_up(direction, vals(evals@), n as nat),
    {
        let mut new_evals = copy_scalars(evals.as_slice());
        let mut t: usize = 0;
        proof {
            lemma2_to64();
        }
        while t < n
            invariant
                t <= n,
                evals@.len() * pow2(n as nat) <= usize::MAX,
                new_evals@.len() == evals@.len() * pow2(t as nat),
                vals(new_evals@) == blown_up(direction, vals(evals@), t as nat),
            decreases n - t,
        {
            proof {
                lemma_pow2_unfold((t + 1) as nat);
                lemma_pow2_strictly_increases(t as nat, n as nat);
                assert(evals@.len() * pow2((t + 1) as nat) <= evals@.len() * pow2(n as nat)) by {
                    if t + 1 < n {
                        lemma_pow2_strictly_increases((t + 1) as nat, n as nat);
                    }
                    lemma_mul_inequality(
                        pow2((t + 1) as nat) as int,
                        pow2(n as nat) as int,
                        evals@.len() as int,
                    );
                    lemma_mul_is_commutative(evals@.len() as int, pow2((t + 1) as nat) as int);
                    lemma_mul_is_commutative(evals@.len() as int, pow2(n as nat) as int);
                }
                assert(evals@.len() * pow2((t + 1) as nat) == 2 * new_evals@.len()) by (
                nonlinear_arith)
                    requires
                        pow2((t + 1) as nat) == 2 * pow2(t as nat),
                        new_evals@.len() == evals@.len() * pow2(t as nat),
                ;
            }
            let ghost prev = vals(new_evals@);
            let mut temp: Vec<Scalar> = Vec::new();
            match direction {
                BlowUpDirection::Left => {
                    let mut j: usize = 0;
                    while j < 2 * new_evals.len()
                        invariant
                            2 * new_evals@.len() <= usize::MAX,
                            j <= 2 * new_evals@.len(),
                            temp@.len() == j,
                            forall|i: int|
                                0 <= i < j ==> (#[trigger] temp@[i]) == new_evals@[i
                                    % new_evals@.len() as int],
                        decreases 2 * new_evals@.len() - j,
                    {
                        let l = new_evals.len();
                        let e = if j < l {
                            new_evals[j]
                        } else {
                            new_evals[j - l]
                        };
                        proof {
                            if j < l {
                                lemma_small_mod(j as nat, l as nat);
                            } else {
                                lemma_mod_sub_multiples_vanish(j as int, l as int);
                                lemma_small_mod((j - l) as nat, l as nat);
                            }
                        }
                        temp.push(e);
                        j = j + 1;
                    }
                    proof {
                        assert forall|i: int| 0 <= i < temp@.len() implies vals(temp@)[i] == blow_left(
                            prev,
                        )[i] by {
                            if i < new_evals@.len() {
                                lemma_small_mod(i as nat, new_evals@.len() as nat);
                            } else {
                                lemma_mod_sub_multiples_vanish(i, new_evals@.len() as int);
                                lemma_small_mod(
                                    (i - new_evals@.len()) as nat,
                                    new_evals@.len() as nat,
                                );
                            }
                        }
                        assert(vals(temp@) =~= blow_left(prev));
                    }
                },
                BlowUpDirection::Right => {
                    let mut j: usize = 0;
                    while j < new_evals.len()
                        invariant
                            2 * new_evals@.len() <= usize::MAX,
                            j <= new_evals@.len(),
                            temp@.len() == 2 * j,
                            forall|i: int|
                                0 <= i < 2 * j ==> (#[trigger] temp@[i]) == new_evals@[i / 2],
                        decreases new_evals@.len() - j,
                    {
                        temp.push(new_evals[j]);
                        temp.push(new_evals[j]);
                        j = j + 1;
                    }
                    proof {
                        assert(vals(temp@) =~= blow_right(prev));
                    }
                },
            }
            new_evals = temp;
            t = t + 1;
        }
        new_evals
    }

    /// The pointwise sum of two polynomials in the same variables.
    pub fn add(&self, other: &MultilinearPoly) -> (r: MultilinearPoly)
        requires
            self.wf(),
            other.wf(),
            self.n_vars == other.n_vars,
        ensures
            r.wf(),
            r.n_vars == self.n_vars,
            r.table() == Seq::new(
                self.evals@.len(),
                |i: int| fadd(self.table()[i], other.table()[i]),
            ),
    {
        let mut new_evals: Vec<Scalar> = Vec::new();
        let mut i: usize = 0;
        while i < self.evals.len()
            invariant
                i <= self.evals@.len(),
                self.evals@.len() == other.evals@.len(),
                new_evals@.len() == i,
                forall|j: int|
                    0 <= j < i ==> (#[trigger] new_evals@[j]).val() == fadd(
                        self.evals@[j].val(),
                        other.evals@[j].val(),
                    ),
            decreases self.evals@.len() - i,
        {
            new_evals.push(self.evals[i].add(&other.evals[i]));
            i = i + 1;
        }
        proof {
            assert(vals(new_evals@) =~= Seq::new(
                self.evals@.len(),
                |i: int| fadd(self.table()[i], other.table()[i]),
            ));
        }
        MultilinearPoly::new(new_evals, self.n_vars)
    }
}

/// `lerp` is the reduction of `a + v (b - a)`.
pub proof fn lemma_lerp_int(a: int, b: int, v: int)
    ensures
        lerp(a, b, v) == (a + v * (b - a)) % modulus(),
{
    let p = modulus();
    lemma_mul_mod_noop_right(v, b - a, p);
    crate::field::lemma_add_mod_noop_right(a, v * (b - a), p);
}

/// `x % p == y % p` when `x - y` is a multiple of `p`.
proof fn lemma_mod_shift(x: int, y: int, k: int)
    requires
        x == y + modulus() * k,
    ensures
        x % modulus() == y % modulus(),
{
    lemma_mod_multiples_vanish(k, y, modulus());
}

/// `lerp` is additive in its end points.
pub proof fn lemma_lerp_add(a1: int, b1: int, a2: int, b2: int, v: int)
    ensures
        lerp(fadd(a1, a2), fadd(b1, b2), v) == fadd(lerp(a1, b1, v), lerp(a2, b2, v)),
{
    let p = modulus();
    let sa = fadd(a1, a2);
    let sb = fadd(b1, b2);
    lemma_lerp_int(sa, sb, v);
    lemma_lerp_int(a1, b1, v);
    lemma_lerp_int(a2, b2, v);
    let x1 = a1 + v * (b1 - a1);
    let x2 = a2 + v * (b2 - a2);
    lemma_add_mod_noop(x1, x2, p);
    lemma_fundamental_div_mod(a1 + a2, p);
    lemma_fundamental_div_mod(b1 + b2, p);
    let q1 = (a1 + a2) / p;
    let q2 = (b1 + b2) / p;
    assert(sa + v * (sb - sa) == (x1 + x2) + p * (v * (q1 - q2) - q1)) by (nonlinear_arith)
        requires
            sa == (a1 + a2) - p * q1,
            sb == (b1 + b2) - p * q2,
            x1 == a1 + v * (b1 - a1),
            x2 == a2 + v * (b2 - a2),
    ;
    lemma_mod_shift(sa + v * (sb - sa), x1 + x2, v * (q1 - q2) - q1);
}

/// Setting the most significant variable pairs each entry of the first half
/// with the entry half a table further on.
pub proof fn lemma_msb_partial_eval(s: Seq<int>, n: nat, v: int)
    requires
        n >= 1,
        s.len() == pow2(n),
    ensures
        partial_eval(s, (n - 1) as nat, v) =~= Seq::new(
            pow2((n - 1) as nat),
            |k: int| lerp(s[k], s[k + pow2((n - 1) as nat) as int], v),
        ),
{
    let h = pow2((n - 1) as nat) as int;
    lemma_pow2_unfold(n);
    lemma_pow2_pos((n - 1) as nat);
    assert forall|k: int| 0 <= k < h implies #[trigger] low_index(k, (n - 1) as nat) == k by {

        vstd::arithmetic::div_mod::lemma_basic_div(k, h);
        lemma_small_mod(k as nat, h as nat);
    }
}

/// Summing lines pointwise is taking the line through the sums.
pub proof fn lemma_fsum_lerp(x: Seq<int>, y: Seq<int>, v: int)
    requires
        x.len() == y.len(),
    ensures
        fsum(Seq::new(x.len(), |k: int| lerp(x[k], y[k], v))) == lerp(fsum(x), fsum(y), v),
    decreases x.len(),
{
    let t = Seq::new(x.len(), |k: int| lerp(x[k], y[k], v));
    if x.len() == 0 {
        lemma_lerp_int(0, 0, v);
        lemma_small_mod(0, modulus() as nat);
        assert(v * (0 - 0) == 0);
    } else {
        let xd = x.drop_last();
        let yd = y.drop_last();
        lemma_fsum_lerp(xd, yd, v);
        assert(t.drop_last() =~= Seq::new(xd.len(), |k: int| lerp(xd[k], yd[k], v)));
        lemma_lerp_add(fsum(xd), fsum(yd), x.last(), y.last(), v);
    }
}

/// The line at 0 and at 1 gives back its end points.
pub proof fn lemma_lerp_ends(a: int, b: int)
    requires
        0 <= a < modulus(),
        0 <= b < modulus(),
    ensures
        lerp(a, b, 0) == a,
        lerp(a, b, 1) == b,
{
    lemma_lerp_int(a, b, 0);
    lemma_lerp_int(a, b, 1);
    lemma_reduced(a);
    lemma_reduced(b);
    assert(0 * (b - a) == 0);
    assert(1 * (b - a) == b - a);
}

/// `a + c b` entry by entry.
pub open spec fn combine(t1: Seq<int>, t2: Seq<int>, c: int) -> Seq<int> {
    Seq::new(t1.len(), |k: int| fadd(t1[k], fmul(c, t2[k])))
}

/// Values with the same residue give lines with the same residue.
proof fn lemma_lerp_congruent(a: int, b: int, a0: int, b0: int, v: int)
    requires
        a % modulus() == a0 % modulus(),
        b % modulus() == b0 % modulus(),
    ensures
        (a + v * (b - a)) % modulus() == (a0 + v * (b0 - a0)) % modulus(),
{
    let p = modulus();
    lemma_fundamental_div_mod(a, p);
    lemma_fundamental_div_mod(a0, p);
    lemma_fundamental_div_mod(b, p);
    lemma_fundamental_div_mod(b0, p);
    let ka = a / p - a0 / p;
    let kb = b / p - b0 / p;
    assert(a == a0 + p * ka) by (nonlinear_arith)
        requires
            a == p * (a / p) + a % p,
            a0 == p * (a0 / p) + a0 % p,
            a % p == a0 % p,
            ka == a / p - a0 / p,
    ;
    assert(b == b0 + p * kb) by (nonlinear_arith)
        requires
            b == p * (b / p) + b % p,
            b0 == p * (b0 / p) + b0 % p,
            b % p == b0 % p,
            kb == b / p - b0 / p,
    ;
    assert(a + v * (b - a) == (a0 + v * (b0 - a0)) + p * (ka + v * (kb - ka))) by (nonlinear_arith)
        requires
            a == a0 + p * ka,
            b == b0 + p * kb,
    ;
    lemma_mod_shift(a + v * (b - a), a0 + v * (b0 - a0), ka + v * (kb - ka));
}

/// A line through combined end points is the combination of the lines.
pub proof fn lemma_lerp_combine(a1: int, a2: int, b1: int, b2: int, c: int, v: int)
    ensures
        lerp(fadd(a1, fmul(c, b1)), fadd(a2, fmul(c, b2)), v) == fadd(lerp(a1, a2, v), fmul(c, lerp(b1, b2, v))),
{
    let p = modulus();
    let aa = fadd(a1, fmul(c, b1));
    let bb = fadd(a2, fmul(c, b2));
    lemma_lerp_int(aa, bb, v);
    lemma_mod_bound(a1 + fmul(c, b1), p);
    lemma_mod_bound(a2 + fmul(c, b2), p);
    lemma_reduced(aa);
    lemma_reduced(bb);
    crate::field::lemma_add_mod_noop_right(a1, c * b1, p);
    crate::field::lemma_add_mod_noop_right(a2, c * b2, p);
    lemma_lerp_congruent(aa, bb, a1 + c * b1, a2 + c * b2, v);
    let y1 = a1 + v * (a2 - a1);
    let y2 = b1 + v * (b2 - b1);
    lemma_lerp_int(a1, a2, v);
    lemma_lerp_int(b1, b2, v);
    lemma_mul_mod_noop_right(c, y2, p);
    crate::field::lemma_add_mod_noop_right(y1 % p, c * (y2 % p), p);
    lemma_mul_mod_noop_right(c, y2, p);
    lemma_add_mod_noop(y1, c * y2, p);
    lemma_add_mod_noop(y1 % p, c * (y2 % p), p);
    crate::field::lemma_mod_twice(y1, p);
    lemma_mul_mod_noop_right(c, y2 % p, p);
    crate::field::lemma_mod_twice(y2, p);
    assert((a1 + c * b1) + v * ((a2 + c * b2) - (a1 + c * b1)) == y1 + c * y2) by (nonlinear_arith)
        requires
            y1 == a1 + v * (a2 - a1),
            y2 == b1 + v * (b2 - b1),
    ;
}

/// Setting a variable commutes with combining tables.
pub proof fn lemma_partial_eval_combine(t1: Seq<int>, t2: Seq<int>, c: int, pos: nat, v: int, n: nat)
    requires
        t1.len() == t2.len(),
        t1.len() == pow2(n),
        pos < n,
    ensures
        partial_eval(combine(t1, t2, c), pos, v) =~= combine(partial_eval(t1, pos, v), partial_eval(t2, pos, v), c),
{
    let l = combine(t1, t2, c);
    assert forall|k: int| 0 <= k < t1.len() / 2 implies #[trigger] partial_eval(l, pos, v)[k] == combine(partial_eval(t1, pos, v), partial_eval(t2, pos, v), c)[k] by {
        let lo = low_index(k, pos);
        let hi = lo + pow2(pos) as int;
        lemma_low_index_bounds(k, pos, n);
        lemma_lerp_combine(t1[lo], t1[hi], t2[lo], t2[hi], c, v);
    }
}

/// The value of a combination of tables is the combination of the values.
pub proof fn lemma_ml_eval_combine(t1: Seq<int>, t2: Seq<int>, c: int, n: nat, pt: Seq<int>)
    requires
        t1.len() == t2.len(),
        t1.len() == pow2(n),
        pt.len() <= n,
    ensures
        ml_eval(combine(t1, t2, c), n, pt) == fadd(ml_eval(t1, n, pt), fmul(c, ml_eval(t2, n, pt))),
    decreases pt.len(),
{
    lemma_pow2_pos(n);
    if pt.len() == 0 || n == 0 {
    } else {
        lemma_partial_eval_combine(t1, t2, c, (n - 1) as nat, pt[0], n);
        lemma_pow2_unfold(n);
        lemma_ml_eval_combine(
            partial_eval(t1, (n - 1) as nat, pt[0]),
            partial_eval(t2, (n - 1) as nat, pt[0]),
            c,
            (n - 1) as nat,
            pt.drop_first(),
        );
    }
}

/// The line at `x` is the line at `d` plus `(x - d)` times the slope.
proof fn lemma_lerp_split(a: int, b: int, d: int, x: int)
    ensures
        lerp(a, b, x) == fadd(lerp(a, b, d), fmul(fsub(x, d), fsub(b, a))),
{
    let p = modulus();
    lemma_lerp_int(a, b, x);
    lemma_lerp_int(a, b, d);
    let l = lerp(a, b, d);
    lemma_mul_mod_noop_general(x - d, b - a, p);
    lemma_add_mod_noop(l, fsub(x, d) * fsub(b, a), p);
    lemma_add_mod_noop(a + d * (b - a), (x - d) * (b - a), p);
    crate::field::lemma_mod_twice(a + d * (b - a), p);
    crate::field::lemma_add_mod_noop_right(l, fsub(x, d) * fsub(b, a), p);
    crate::field::lemma_mod_twice(fsub(x, d) * fsub(b, a), p);
    assert(a + d * (b - a) + (x - d) * (b - a) == a + x * (b - a)) by (nonlinear_arith);
}

/// `low_index` for an index written as `top * 2^pos + low`.
proof fn lemma_low_index_of(top: int, low: int, pos: nat)
    requires
        top >= 0,
        0 <= low < pow2(pos),
    ensures
        low_index(top * pow2(pos) + low, pos) == top * pow2(pos + 1) + low,
{
    lemma_pow2_pos(pos);
    let m = pow2(pos) as int;
    assert(top * m + low == m * top + low) by (nonlinear_arith);
    lemma_fundamental_div_mod_converse(top * m + low, m, top, low);
}

/// The four entries that two partial evaluations at bits `p > q` combine
/// for entry `k`: the base index and where the two halves of each pair lie.
proof fn lemma_two_positions(k: int, p: nat, q: nat)
    requires
        q < p,
        0 <= k,
    ensures
        ({
            let lq = low_index(k, q);
            let l_top = low_index(k, (p - 1) as nat);
            let i0 = low_index(lq, p);
            &&& low_index(lq + pow2(q) as int, p) == i0 + pow2(q)
            &&& low_index(l_top, q) == i0
            &&& low_index(l_top + pow2((p - 1) as nat) as int, q) == i0 + pow2(p)
        }),
{
    let pq = pow2(q) as int;
    let m = pow2((p - 1 - q) as nat) as int;
    let pp_half = pow2((p - 1) as nat) as int;
    let pp = pow2(p) as int;
    lemma_pow2_pos(q);
    lemma_pow2_pos((p - 1 - q) as nat);
    lemma_pow2_pos((p - 1) as nat);
    lemma_pow2_adds(q, (p - 1 - q) as nat);
    lemma_pow2_unfold(p);
    lemma_pow2_unfold(q + 1);
    lemma_pow2_unfold((p + 1) as nat);
    lemma_pow2_adds((q + 1) as nat, (p - 1 - q) as nat);
    assert(pp_half == pq * m);
    assert(pp == 2 * pp_half);
    assert(pow2(q + 1) == 2 * pq);
    assert(pow2(p + 1) == 2 * pp);
    // k = hi * 2^(p-1) + mid * 2^q + low
    lemma_fundamental_div_mod(k, pp_half);
    let hi = k / pp_half;
    let rest = k % pp_half;
    lemma_mod_bound(k, pp_half);
    lemma_div_pos_is_pos(k, pp_half);
    lemma_fundamental_div_mod(rest, pq);
    let mid = rest / pq;
    let low = rest % pq;
    lemma_mod_bound(rest, pq);
    lemma_div_pos_is_pos(rest, pq);
    assert(mid < m) by {
        lemma_div_is_ordered(rest, pq * m - 1, pq);
        assert(pq * m - 1 == pq * (m - 1) + (pq - 1)) by (nonlinear_arith);
        lemma_fundamental_div_mod_converse(pq * m - 1, pq, m - 1, pq - 1);
    }
    assert(k == (hi * m + mid) * pq + low) by (nonlinear_arith)
        requires
            k == pp_half * hi + rest,
            rest == pq * mid + low,
            pp_half == pq * m,
    ;
    assert(hi * m + mid >= 0) by (nonlinear_arith)
        requires
            hi >= 0,
            mid >= 0,
            m > 0,
    ;
    // setting bit q first
    lemma_low_index_of(hi * m + mid, low, q);
    let lq = low_index(k, q);
    assert(lq == (hi * m + mid) * (2 * pq) + low);
    let r1 = mid * (2 * pq) + low;
    assert(0 <= r1 && r1 + pq < pp) by (nonlinear_arith)
        requires
            r1 == mid * (2 * pq) + low,
            pq > 0,
            0 <= mid < m,
            0 <= low < pq,
            pp == 2 * (pq * m),
    ;
    assert(lq == hi * pp + r1) by (nonlinear_arith)
        requires
            lq == (hi * m + mid) * (2 * pq) + low,
            r1 == mid * (2 * pq) + low,
            pp == 2 * (pq * m),
    ;
    lemma_low_index_of(hi, r1, p);
    lemma_low_index_of(hi, r1 + pq, p);
    assert(lq + pq == hi * pp + (r1 + pq));
    let i0 = hi * (2 * pp) + r1;
    assert(low_index(lq, p) == i0);
    // setting bit p - 1 first
    let r2 = mid * pq + low;
    assert(0 <= r2 < pp_half) by (nonlinear_arith)
        requires
            r2 == mid * pq + low,
            pq > 0,
            0 <= mid < m,
            0 <= low < pq,
            pp_half == pq * m,
    ;
    assert(k == hi * pp_half + r2) by (nonlinear_arith)
        requires
            k == (hi * m + mid) * pq + low,
            r2 == mid * pq + low,
            pp_half == pq * m,
    ;
    lemma_low_index_of(hi, r2, (p - 1) as nat);
    let l_top = low_index(k, (p - 1) as nat);
    assert(l_top == hi * pp + r2);
    assert(l_top == (hi * (2 * m) + mid) * pq + low) by (nonlinear_arith)
        requires
            l_top == hi * pp + r2,
            r2 == mid * pq + low,
            pp == 2 * (pq * m),
    ;
    assert(hi * (2 * m) + mid >= 0) by (nonlinear_arith)
        requires
            hi >= 0,
            mid >= 0,
            m > 0,
    ;
    lemma_low_index_of(hi * (2 * m) + mid, low, q);
    assert((hi * (2 * m) + mid) * (2 * pq) + low == i0) by (nonlinear_arith)
        requires
            i0 == hi * (2 * pp) + r1,
            r1 == mid * (2 * pq) + low,
            pp == 2 * (pq * m),
    ;
    assert(l_top + pp_half == (hi * (2 * m) + mid + m) * pq + low) by (nonlinear_arith)
        requires
            l_top == (hi * (2 * m) + mid) * pq + low,
            pp_half == pq * m,
    ;
    lemma_low_index_of(hi * (2 * m) + mid + m, low, q);
    assert((hi * (2 * m) + mid + m) * (2 * pq) + low == i0 + pp) by (nonlinear_arith)
        requires
            i0 == hi * (2 * pp) + r1,
            r1 == mid * (2 * pq) + low,
            pp == 2 * (pq * m),
    ;
}

/// Bilinear interpolation does not depend on which variable goes first.
proof fn lemma_bilerp_symmetric(s00: int, s10: int, s01: int, s11: int, a: int, b: int)
    ensures
        lerp(lerp(s00, s10, a), lerp(s01, s11, a), b) == lerp(lerp(s00, s01, b), lerp(s10, s11, b), a),
{
    let p = modulus();
    let x = s00 + a * (s10 - s00);
    let y = s01 + a * (s11 - s01);
    let x2 = s00 + b * (s01 - s00);
    let y2 = s10 + b * (s11 - s10);
    lemma_lerp_int(s00, s10, a);
    lemma_lerp_int(s01, s11, a);
    lemma_lerp_int(s00, s01, b);
    lemma_lerp_int(s10, s11, b);
    crate::field::lemma_mod_twice(x, p);
    crate::field::lemma_mod_twice(y, p);
    crate::field::lemma_mod_twice(x2, p);
    crate::field::lemma_mod_twice(y2, p);
    lemma_lerp_int(lerp(s00, s10, a), lerp(s01, s11, a), b);
    lemma_lerp_int(lerp(s00, s01, b), lerp(s10, s11, b), a);
    lemma_lerp_congruent(lerp(s00, s10, a), lerp(s01, s11, a), x, y, b);
    lemma_lerp_congruent(lerp(s00, s01, b), lerp(s10, s11, b), x2, y2, a);
    assert(x + b * (y - x) == x2 + a * (y2 - x2)) by (nonlinear_arith)
        requires
            x == s00 + a * (s10 - s00),
            y == s01 + a * (s11 - s01),
            x2 == s00 + b * (s01 - s00),
            y2 == s10 + b * (s11 - s10),
    ;
}

/// Setting two different variables in either order gives the same table:
/// setting bit `p` and then bit `q < p` equals setting bit `q` first, after
/// which the variable of bit `p` sits at bit `p - 1`. Swaps of this kind
/// reach every order, so a point's value does not depend on the order in
/// which its coordinates are substituted.
pub proof fn lemma_partial_evals_commute(s: Seq<int>, n: nat, p: nat, q: nat, a: int, b: int)
    requires
        q < p < n,
        s.len() == pow2(n),
    ensures
        partial_eval(partial_eval(s, p, a), q, b) =~= partial_eval(partial_eval(s, q, b), (p - 1) as nat, a),
{
    lemma_pow2_unfold(n);
    lemma_pow2_unfold((n - 1) as nat);
    let t = partial_eval(s, p, a);
    let u = partial_eval(s, q, b);
    assert forall|k: int| 0 <= k < pow2((n - 2) as nat) implies #[trigger] partial_eval(t, q, b)[k]
        == partial_eval(u, (p - 1) as nat, a)[k] by {
        lemma_two_positions(k, p, q);
        lemma_low_index_bounds(k, q, (n - 1) as nat);
        lemma_low_index_bounds(k, (p - 1) as nat, (n - 1) as nat);
        let lq = low_index(k, q);
        let l_top = low_index(k, (p - 1) as nat);
        let i0 = low_index(lq, p);
        lemma_low_index_bounds(lq, p, n);
        lemma_low_index_bounds(lq + pow2(q) as int, p, n);
        lemma_low_index_bounds(l_top, q, n);
        lemma_low_index_bounds(l_top + pow2((p - 1) as nat) as int, q, n);
        lemma_bilerp_symmetric(
            s[i0],
            s[i0 + pow2(p) as int],
            s[i0 + pow2(q) as int],
            s[i0 + pow2(q) as int + pow2(p) as int],
            a,
            b,
        );
        assert(i0 + pow2(p) as int + pow2(q) as int == i0 + pow2(q) as int + pow2(p) as int);
    }
}

/// The value at a point may be found by setting any one variable first:
/// setting the variable at bit `pos` to its coordinate and evaluating the
/// rest at the remaining coordinates gives `W(x)`. Applied again to what
/// remains, this evaluates the variables in any order.
pub proof fn lemma_eval_any_variable_first(s: Seq<int>, n: nat, pos: nat, x: Seq<int>)
    requires
        s.len() == pow2(n),
        pos < n,
        x.len() == n,
    ensures
        ml_eval(s, n, x) == ml_eval(
            partial_eval(s, pos, x[n - 1 - pos]),
            (n - 1) as nat,
            x.remove(n - 1 - pos),
        ),
    decreases n,
{
    if pos == n - 1 {
        assert(x.remove(0) =~= x.drop_first());
    } else {
        let c = x[n - 1 - pos];
        let xd = x.drop_first();
        let t = partial_eval(s, (n - 1) as nat, x[0]);
        lemma_pow2_unfold(n);
        lemma_pow2_unfold((n - 1) as nat);
        assert(t.len() == pow2((n - 1) as nat));
        lemma_eval_any_variable_first(t, (n - 1) as nat, pos, xd);
        assert(xd[n - 2 - pos] == c);
        lemma_partial_evals_commute(s, n, (n - 1) as nat, pos, x[0], c);
        let u = partial_eval(s, pos, c);
        let y = x.remove(n - 1 - pos);
        assert(y[0] == x[0]);
        assert(y.drop_first() =~= xd.remove(n - 2 - pos));
        assert(u.len() == pow2((n - 1) as nat));
    }
}

/// Division by `x_i - d` for the variable at any bit `pos`: `W(x) =
/// (x_i - d) Q + R` at every point, `Q` the quotient table and `R` the table
/// with that variable set to `d`, both taken at the remaining coordinates.
pub proof fn lemma_division_identity(s: Seq<int>, n: nat, pos: nat, d: int, x: Seq<int>)
    requires
        s.len() == pow2(n),
        pos < n,
        x.len() == n,
    ensures
        ml_eval(s, n, x) == fadd(
            fmul(
                fsub(x[n - 1 - pos], d),
                ml_eval(quotient_table(s, pos), (n - 1) as nat, x.remove(n - 1 - pos)),
            ),
            ml_eval(partial_eval(s, pos, d), (n - 1) as nat, x.remove(n - 1 - pos)),
        ),
{
    let c = x[n - 1 - pos];
    let rest = x.remove(n - 1 - pos);
    let r = partial_eval(s, pos, d);
    let q = quotient_table(s, pos);
    let k = fsub(c, d);
    lemma_eval_any_variable_first(s, n, pos, x);
    lemma_pow2_unfold(n);
    assert forall|j: int| 0 <= j < s.len() / 2 implies #[trigger] partial_eval(s, pos, c)[j] == combine(r, q, k)[j] by {
        let lo = low_index(j, pos);
        let hi = lo + pow2(pos) as int;
        lemma_lerp_split(s[lo], s[hi], d, c);
    }
    assert(partial_eval(s, pos, c) =~= combine(r, q, k));
    lemma_ml_eval_combine(r, q, k, (n - 1) as nat, rest);
    let er = ml_eval(r, (n - 1) as nat, rest);
    let eq = ml_eval(q, (n - 1) as nat, rest);
    assert(fadd(er, fmul(k, eq)) == fadd(fmul(k, eq), er));
}

/// `order` lists each of `0..n` once.
pub open spec fn is_order(order: Seq<int>, n: nat) -> bool {
    &&& order.len() == n
    &&& forall|i: int| 0 <= i < n ==> 0 <= #[trigger] order[i] < n
    &&& forall|i: int, k: int| 0 <= i < n && 0 <= k < n && i != k ==> order[i] != order[k]
}

/// The remaining order once variable `j` is gone: later variables move down by one.
pub open spec fn order_without(order: Seq<int>, j: int) -> Seq<int> {
    order.drop_first().map_values(|k: int| if k > j { k - 1 } else { k })
}

/// The value left after substituting the coordinates of `point` in the
/// order `order`: variable `order[0]` first, and so on. Variable `j` sits
/// at bit `n - 1 - j` of the index.
pub open spec fn eval_in_order(s: Seq<int>, n: nat, point: Seq<int>, order: Seq<int>) -> int
    decreases order.len(),
{
    if order.len() == 0 || n == 0 {
        s[0]
    } else {
        let j = order[0];
        eval_in_order(
            partial_eval(s, (n - 1 - j) as nat, point[j]),
            (n - 1) as nat,
            point.remove(j),
            order_without(order, j),
        )
    }
}

/// Substituting the coordinates of a point in any order gives its value.
pub proof fn lemma_eval_in_any_order(s: Seq<int>, n: nat, point: Seq<int>, order: Seq<int>)
    requires
        s.len() == pow2(n),
        point.len() == n,
        is_order(order, n),
    ensures
        eval_in_order(s, n, point, order) == ml_eval(s, n, point),
    decreases n,
{
    if n > 0 {
        let j = order[0];
        let pos = (n - 1 - j) as nat;
        lemma_eval_any_variable_first(s, n, pos, point);
        assert(n - 1 - pos == j);
        lemma_pow2_unfold(n);
        let rest = order_without(order, j);
        assert forall|i: int| 0 <= i < n - 1 implies 0 <= #[trigger] rest[i] < n - 1 by {
            assert(order[i + 1] != order[0]);
        }
        assert forall|i: int, k: int| 0 <= i < n - 1 && 0 <= k < n - 1 && i != k implies rest[i] != rest[k] by {
            assert(order[i + 1] != order[k + 1]);
            assert(order[i + 1] != j);
            assert(order[k + 1] != j);
        }
        lemma_eval_in_any_order(partial_eval(s, pos, point[j]), (n - 1) as nat, point.remove(j), rest);
    } else {
        lemma2_to64();
    }
}

} // verus!
