//! Dense univariate polynomials with small unsigned coefficients, evaluated
//! in machine integers.
use vstd::arithmetic::power::pow;
use vstd::prelude::*;

verus! {

/// The sum of `c[i] * x^i` over the first `n` coefficients.
pub open spec fn dense_value(c: Seq<u32>, x: int, n: nat) -> int
    decreases n,
{
    if n == 0 {
        0
    } else {
        dense_value(c, x, (n - 1) as nat) + c[n - 1] * pow(x, (n - 1) as nat)
    }
}

/// Every power and every term fits in a `u32`, and so does the sum.
pub open spec fn fits_u32(c: Seq<u32>, x: int) -> bool {
    &&& forall|i: int| 0 <= i < c.len() ==> #[trigger] pow(x, i as nat) <= u32::MAX
    &&& forall|i: int| 0 <= i < c.len() ==> c[i] * #[trigger] pow(x, i as nat) <= u32::MAX
    &&& dense_value(c, x, c.len()) <= u32::MAX
}

proof fn lemma_dense_value_monotone(c: Seq<u32>, x: int, m: nat, n: nat)
    requires
        m <= n <= c.len(),
        x >= 0,
    ensures
        0 <= dense_value(c, x, m) <= dense_value(c, x, n),
    decreases n,
{
    if m < n {
        lemma_dense_value_monotone(c, x, m, (n - 1) as nat);
        lemma_pow_positive_or_zero(x, (n - 1) as nat);
        assert(c[n - 1] * pow(x, (n - 1) as nat) >= 0) by (nonlinear_arith)
            requires
                pow(x, (n - 1) as nat) >= 0,
                c[n - 1] >= 0,
        ;
    } else if n > 0 {
        lemma_dense_value_monotone(c, x, (n - 1) as nat, (n - 1) as nat);
        lemma_pow_positive_or_zero(x, (n - 1) as nat);
        assert(c[n - 1] * pow(x, (n - 1) as nat) >= 0) by (nonlinear_arith)
            requires
                pow(x, (n - 1) as nat) >= 0,
                c[n - 1] >= 0,
        ;
    }
}

proof fn lemma_pow_positive_or_zero(x: int, e: nat)
    requires
        x >= 0,
    ensures
        pow(x, e) >= 0,
    decreases e,
{
    reveal(pow);
    if e > 0 {
        lemma_pow_positive_or_zero(x, (e - 1) as nat);
        assert(pow(x, e) == x * pow(x, (e - 1) as nat));
        assert(x * pow(x, (e - 1) as nat) >= 0) by (nonlinear_arith)
            requires
                x >= 0,
                pow(x, (e - 1) as nat) >= 0,
        ;
    } else {
        assert(pow(x, 0) == 1);
    }
}

/// A polynomial with coefficients in ascending order of degree.
pub struct DenseUnivariatePoly {
    pub coefficients: Vec<u32>,
}

impl DenseUnivariatePoly {
    /// One less than the number of coefficients.
    pub fn degree(&self) -> (r: u32)
        requires
            self.coefficients@.len() >= 1,
            self.coefficients@.len() - 1 <= u32::MAX,
        ensures
            r == self.coefficients@.len() - 1,
    {
        (self.coefficients.len() - 1) as u32
    }

    /// The sum of `c[i] * x^i`.
    pub fn evaluate(&self, x: u32) -> (r: u32)
        requires
            fits_u32(self.coefficients@, x as int),
        ensures
            r == dense_value(self.coefficients@, x as int, self.coefficients@.len()),
    {
        let c = &self.coefficients;
        let mut sum: u32 = 0;
        let mut power: u32 = 1;
        let mut i: usize = 0;
        proof {
            reveal(pow);
            assert(pow(x as int, 0) == 1);
        }
        while i < c.len()
            invariant
                i <= c@.len(),
                fits_u32(c@, x as int),
                sum == dense_value(c@, x as int, i as nat),
                i < c@.len() ==> power == pow(x as int, i as nat),
            decreases c@.len() - i,
        {
            proof {
                let k: int = i as int;
                assert(c@[k] * pow(x as int, k as nat) <= u32::MAX);
            }
            let term = c[i] * power;
            proof {
                lemma_dense_value_monotone(c@, x as int, (i + 1) as nat, c@.len());
            }
            sum = sum + term;
            if i + 1 < c.len() {
                proof {
                    reveal(pow);
                    let k: int = i + 1;
                    assert(pow(x as int, k as nat) == x * pow(x as int, i as nat));
                    assert(pow(x as int, k as nat) <= u32::MAX);
                }
                power = power * x;
            }
            i = i + 1;
        }
        sum
    }
}

} // verus!
