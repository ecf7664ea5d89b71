//! Polynomials composed of multilinear ones: the pointwise product of a list
//! of multilinear polynomials, and the sum of a list of such products.
use crate::field::{fadd, fmul, seq_bytes, vals, Scalar};
use crate::multilinear::{ml_eval, partial_eval, MultilinearPoly};
use vstd::prelude::*;

verus! {

/// The table after the variable at bit `pos` of `p` is set to `v`.
pub open spec fn partial_table(p: MultilinearPoly, pos: nat, v: int) -> Seq<int> {
    if p.n_vars == 0 {
        p.table()
    } else {
        partial_eval(p.table(), pos, v)
    }
}

/// The arity after a partial evaluation of `p`.
pub open spec fn partial_arity(p: MultilinearPoly) -> nat {
    if p.n_vars == 0 {
        0
    } else {
        (p.n_vars - 1) as nat
    }
}

/// The tables of a list of polynomials.
pub open spec fn tables_of(ps: Seq<MultilinearPoly>) -> Seq<Seq<int>> {
    ps.map_values(|p: MultilinearPoly| p.table())
}

/// The product of entry `i` of the first `m` tables of `ts`.
pub open spec fn column_product(ts: Seq<Seq<int>>, i: int, m: nat) -> int
    decreases m,
{
    if m == 0 {
        1
    } else {
        fmul(column_product(ts, i, (m - 1) as nat), ts[m - 1][i])
    }
}

/// The pointwise product of the tables `ts`.
pub open spec fn reduce_product(ts: Seq<Seq<int>>) -> Seq<int> {
    Seq::new(ts[0].len(), |i: int| column_product(ts, i, ts.len()))
}

/// The sum of entry `i` of the first `m` pointwise products of `tss`.
pub open spec fn column_sum(tss: Seq<Seq<Seq<int>>>, i: int, m: nat) -> int
    decreases m,
{
    if m == 0 {
        0
    } else {
        fadd(column_sum(tss, i, (m - 1) as nat), reduce_product(tss[m - 1])[i])
    }
}

/// The pointwise sum of the pointwise products of the groups of tables `tss`.
pub open spec fn reduce_sum(tss: Seq<Seq<Seq<int>>>) -> Seq<int> {
    Seq::new(tss[0][0].len(), |i: int| column_sum(tss, i, tss.len()))
}

/// Every table of `tss` with the variable at bit `pos` set to `v`.
pub open spec fn partial_tables(tss: Seq<Seq<Seq<int>>>, pos: nat, v: int) -> Seq<Seq<Seq<int>>> {
    tss.map_values(|ts: Seq<Seq<int>>| ts.map_values(|t: Seq<int>| partial_eval(t, pos, v)))
}

/// The product of the values at `point` of the first `m` polynomials of `ps`.
pub open spec fn product_at(ps: Seq<MultilinearPoly>, point: Seq<int>, m: nat) -> int
    decreases m,
{
    if m == 0 {
        1
    } else {
        fmul(product_at(ps, point, (m - 1) as nat), ml_eval(ps[m - 1].table(), ps[m - 1].n_vars as nat, point))
    }
}

/// Sequences of polynomials all well formed and in the same variables.
pub open spec fn uniform(ps: Seq<MultilinearPoly>) -> bool {
    forall|i: int| 0 <= i < ps.len() ==> (#[trigger] ps[i]).wf() && ps[i].n_vars == ps[0].n_vars
}

/// The pointwise product of multilinear polynomials in the same variables.
pub struct ProductPoly {
    pub polys: Vec<MultilinearPoly>,
}

impl ProductPoly {
    pub open spec fn wf(&self) -> bool {
        uniform(self.polys@)
    }

    /// The common arity of the factors.
    pub open spec fn arity(&self) -> nat {
        self.polys@[0].n_vars as nat
    }

    /// The value at `point`.
    pub open spec fn value_at(&self, point: Seq<int>) -> int {
        product_at(self.polys@, point, self.polys@.len())
    }

    /// The factors' tables.
    pub open spec fn tables(&self) -> Seq<Seq<int>> {
        tables_of(self.polys@)
    }

    /// The pointwise product of the tables.
    pub open spec fn reduced(&self) -> Seq<int> {
        reduce_product(self.tables())
    }

    pub fn new(polys: Vec<MultilinearPoly>) -> (r: ProductPoly)
        ensures
            r.polys@ == polys@,
    {
        ProductPoly { polys }
    }

    /// The number of factors.
    pub fn degree(&self) -> (r: i32)
        requires
            self.polys@.len() <= i32::MAX,
        ensures
            r == self.polys@.len(),
    {
        self.polys.len() as i32
    }

    /// Sets the variable at bit `pos` of every factor to `val`.
    pub fn partial_evaluate(&self, pv: (usize, Scalar)) -> (r: ProductPoly)
        requires
            self.wf(),
            self.polys@.len() > 0 ==> self.arity() == 0 || pv.0 < self.arity(),
        ensures
            r.wf(),
            r.polys@.len() == self.polys@.len(),
            forall|i: int|
                0 <= i < self.polys@.len() ==> {
                    &&& (#[trigger] r.polys@[i]).table() == partial_table(
                        self.polys@[i],
                        pv.0 as nat,
                        pv.1.val(),
                    )
                    &&& r.polys@[i].n_vars == partial_arity(self.polys@[i])
                },
    {
        let mut out: Vec<MultilinearPoly> = Vec::new();
        let mut i: usize = 0;
        while i < self.polys.len()
            invariant
                i <= self.polys@.len(),
                self.wf(),
                self.polys@.len() > 0 ==> self.arity() == 0 || pv.0 < self.arity(),
                out@.len() == i,
                forall|j: int|
                    0 <= j < i ==> {
                        &&& (#[trigger] out@[j]).table() == partial_table(
                            self.polys@[j],
                            pv.0 as nat,
                            pv.1.val(),
                        )
                        &&& out@[j].n_vars == partial_arity(self.polys@[j])
                        &&& out@[j].wf()
                    },
            decreases self.polys@.len() - i,
        {
            out.push(self.polys[i].partial_evaluate(pv));
            i = i + 1;
        }
        ProductPoly::new(out)
    }

    /// The product of the factors' values at `values`.
    pub fn evaluate(&self, values: &Vec<Scalar>) -> (r: Scalar)
        requires
            self.wf(),
            self.polys@.len() > 0 ==> values@.len() <= self.arity(),
        ensures
            r.val() == self.value_at(vals(values@)),
    {
        let mut product = Scalar::one();
        let mut i: usize = 0;
        while i < self.polys.len()
            invariant
                i <= self.polys@.len(),
                self.wf(),
                self.polys@.len() > 0 ==> values@.len() <= self.arity(),
                product.val() == product_at(self.polys@, vals(values@), i as nat),
            decreases self.polys@.len() - i,
        {
            let e = self.polys[i].evaluate(values);
            product = product.mul(&e);
            i = i + 1;
        }
        product
    }

    /// The pointwise product of the factors' tables.
    pub fn reduce(&self) -> (r: Vec<Scalar>)
        requires
            self.wf(),
            self.polys@.len() > 0,
        ensures
            vals(r@) == self.reduced(),
    {
        let len = self.length();
        let mut res: Vec<Scalar> = Vec::new();
        let mut index: usize = 0;
        while index < len
            invariant
                index <= len,
                len == self.polys@[0].evals@.len(),
                self.wf(),
                self.polys@.len() > 0,
                res@.len() == index,
                forall|j: int|
                    0 <= j < index ==> (#[trigger] res@[j]).val() == column_product(
                        self.tables(),
                        j,
                        self.polys@.len(),
                    ),
            decreases len - index,
        {
            let mut running = Scalar::one();
            let mut m: usize = 0;
            while m < self.polys.len()
                invariant
                    m <= self.polys@.len(),
                    index < len,
                    len == self.polys@[0].evals@.len(),
                    self.wf(),
                    running.val() == column_product(self.tables(), index as int, m as nat),
                decreases self.polys@.len() - m,
            {
                assert(self.polys@[m as int].wf());
                running = running.mul(&self.polys[m].evals[index]);
                m = m + 1;
            }
            res.push(running);
            index = index + 1;
        }
        proof {
            assert(vals(res@) =~= self.reduced());
        }
        res
    }

    /// The factors' encodings, one after the other.
    pub fn to_bytes(&self) -> (r: Vec<u8>)
        ensures
            r@ == self.polys@.map_values(|p: MultilinearPoly| seq_bytes(p.table())).flatten(),
    {
        let mut out: Vec<u8> = Vec::new();
        let mut i: usize = 0;
        while i < self.polys.len()
            invariant
                i <= self.polys@.len(),
                out@ == self.polys@.subrange(0, i as int).map_values(
                    |p: MultilinearPoly| seq_bytes(p.table()),
                ).flatten(),
            decreases self.polys@.len() - i,
        {
            let mut b = self.polys[i].to_bytes();
            out.append(&mut b);
            i = i + 1;
            proof {
                let t = self.polys@.subrange(0, i - 1).map_values(
                    |p: MultilinearPoly| seq_bytes(p.table()),
                );
                let u = self.polys@.subrange(0, i as int).map_values(
                    |p: MultilinearPoly| seq_bytes(p.table()),
                );
                assert(u =~= t.push(seq_bytes(self.polys@[i - 1].table())));
                t.lemma_flatten_push(seq_bytes(self.polys@[i - 1].table()));
            }
        }
        proof {
            assert(self.polys@.subrange(0, self.polys@.len() as int) =~= self.polys@);
        }
        out
    }

    /// The number of evaluations of the first factor.
    pub fn get_poly_length(polys: &Vec<MultilinearPoly>) -> (r: usize)
        requires
            polys@.len() > 0,
        ensures
            r == polys@[0].evals@.len(),
    {
        polys[0].evals.len()
    }

    /// The number of evaluations of each factor.
    pub fn length(&self) -> (r: usize)
        requires
            self.polys@.len() > 0,
        ensures
            r == self.polys@[0].evals@.len(),
    {
        Self::get_poly_length(&self.polys)
    }
}

/// The sum of the values at `point` of the first `m` products of `ps`.
pub open spec fn sum_at(ps: Seq<ProductPoly>, point: Seq<int>, m: nat) -> int
    decreases m,
{
    if m == 0 {
        0
    } else {
        fadd(sum_at(ps, point, (m - 1) as nat), ps[m - 1].value_at(point))
    }
}


/// A sum of products of multilinear polynomials, all in the same variables.
pub struct SumPoly {
    pub polys: Vec<ProductPoly>,
}

impl SumPoly {
    pub open spec fn wf(&self) -> bool {
        forall|j: int|
            0 <= j < self.polys@.len() ==> {
                &&& (#[trigger] self.polys@[j]).wf()
                &&& self.polys@[j].polys@.len() > 0
                &&& self.polys@[j].arity() == self.polys@[0].arity()
            }
    }

    /// The common arity of every factor.
    pub open spec fn arity(&self) -> nat {
        self.polys@[0].arity()
    }

    /// The value at `point`.
    pub open spec fn value_at(&self, point: Seq<int>) -> int {
        sum_at(self.polys@, point, self.polys@.len())
    }

    /// The factors' tables, product by product.
    pub open spec fn tables(&self) -> Seq<Seq<Seq<int>>> {
        self.polys@.map_values(|p: ProductPoly| p.tables())
    }

    /// The pointwise sum of the reduced products.
    pub open spec fn reduced(&self) -> Seq<int> {
        reduce_sum(self.tables())
    }

    pub fn new(polys: Vec<ProductPoly>) -> (r: SumPoly)
        ensures
            r.polys@ == polys@,
    {
        SumPoly { polys }
    }

    /// The number of products.
    pub fn degree(&self) -> (r: i32)
        requires
            self.polys@.len() <= i32::MAX,
        ensures
            r == self.polys@.len(),
    {
        self.polys.len() as i32
    }

    /// Sets the variable at bit `pos` of every factor to `val`.
    pub fn partial_evaluate(&self, pv: (usize, Scalar)) -> (r: SumPoly)
        requires
            self.wf(),
            self.polys@.len() > 0 ==> self.arity() == 0 || pv.0 < self.arity(),
        ensures
            r.wf(),
            r.polys@.len() == self.polys@.len(),
            forall|j: int, i: int|
                0 <= j < self.polys@.len() && 0 <= i < self.polys@[j].polys@.len() ==> {
                    &&& (#[trigger] r.polys@[j].polys@[i]).table() == partial_table(
                        #[trigger] self.polys@[j].polys@[i],
                        pv.0 as nat,
                        pv.1.val(),
                    )
                    &&& r.polys@[j].polys@[i].n_vars == partial_arity(self.polys@[j].polys@[i])
                },
            forall|j: int| 0 <= j < self.polys@.len() ==> (#[trigger] r.polys@[j]).polys@.len() == self.polys@[j].polys@.len(),
            self.polys@.len() > 0 && self.arity() > 0 ==> r.tables() == partial_tables(
                self.tables(),
                pv.0 as nat,
                pv.1.val(),
            ) && r.arity() == self.arity() - 1,
    {
        let mut out: Vec<ProductPoly> = Vec::new();
        let mut j: usize = 0;
        while j < self.polys.len()
            invariant
                j <= self.polys@.len(),
                self.wf(),
                self.polys@.len() > 0 ==> self.arity() == 0 || pv.0 < self.arity(),
                out@.len() == j,
                forall|k: int, i: int|
                    0 <= k < j && 0 <= i < self.polys@[k].polys@.len() ==> {
                        &&& (#[trigger] out@[k].polys@[i]).table() == partial_table(
                            #[trigger] self.polys@[k].polys@[i],
                            pv.0 as nat,
                            pv.1.val(),
                        )
                        &&& out@[k].polys@[i].n_vars == partial_arity(self.polys@[k].polys@[i])
                    },
                forall|k: int|
                    0 <= k < j ==> {
                        &&& (#[trigger] out@[k]).polys@.len() == self.polys@[k].polys@.len()
                        &&& out@[k].wf()
                        &&& out@[k].arity() == partial_arity(self.polys@[k].polys@[0])
                    },
            decreases self.polys@.len() - j,
        {
            assert(self.polys@[j as int].wf());
            let p = self.polys[j].partial_evaluate(pv);
            out.push(p);
            j = j + 1;
        }
        let r = SumPoly::new(out);
        proof {
            if self.polys@.len() > 0 && self.arity() > 0 {
                let pt = partial_tables(self.tables(), pv.0 as nat, pv.1.val());
                assert forall|k: int| 0 <= k < r.polys@.len() implies #[trigger] r.tables()[k] == pt[k] by {
                    assert(self.polys@[k].wf());
                    assert forall|i: int| 0 <= i < r.polys@[k].polys@.len() implies r.tables()[k][i] == pt[k][i] by {
                        assert(self.polys@[k].polys@[i].n_vars == self.polys@[k].polys@[0].n_vars);
                        assert(r.polys@[k].polys@[i].table() == partial_table(self.polys@[k].polys@[i], pv.0 as nat, pv.1.val()));
                    }
                    assert(r.tables()[k] =~= pt[k]);
                }
                assert(r.tables() =~= pt);
                assert(r.polys@[0].polys@[0].n_vars == partial_arity(self.polys@[0].polys@[0]));
            }
        }
        r
    }

    /// The sum of the products' values at `values`.
    pub fn evaluate(&self, values: &Vec<Scalar>) -> (r: Scalar)
        requires
            self.wf(),
            self.polys@.len() > 0 ==> values@.len() <= self.arity(),
        ensures
            r.val() == self.value_at(vals(values@)),
    {
        let mut sum = Scalar::zero();
        let mut j: usize = 0;
        while j < self.polys.len()
            invariant
                j <= self.polys@.len(),
                self.wf(),
                self.polys@.len() > 0 ==> values@.len() <= self.arity(),
                sum.val() == sum_at(self.polys@, vals(values@), j as nat),
            decreases self.polys@.len() - j,
        {
            assert(self.polys@[j as int].wf());
            let e = self.polys[j].evaluate(values);
            sum = sum.add(&e);
            j = j + 1;
        }
        sum
    }

    /// The pointwise sum of the reduced products.
    pub fn reduce(&self) -> (r: Vec<Scalar>)
        requires
            self.wf(),
            self.polys@.len() > 0,
        ensures
            vals(r@) == self.reduced(),
    {
        let len = self.length();
        let mut reduced: Vec<Vec<Scalar>> = Vec::new();
        let mut j: usize = 0;
        while j < self.polys.len()
            invariant
                j <= self.polys@.len(),
                self.wf(),
                reduced@.len() == j,
                forall|k: int| 0 <= k < j ==> vals((#[trigger] reduced@[k])@) == self.polys@[k].reduced(),
            decreases self.polys@.len() - j,
        {
            assert(self.polys@[j as int].wf());
            reduced.push(self.polys[j].reduce());
            j = j + 1;
        }
        let mut res: Vec<Scalar> = Vec::new();
        let mut index: usize = 0;
        while index < len
            invariant
                index <= len,
                self.wf(),
                self.polys@.len() > 0,
                len == self.polys@[0].polys@[0].evals@.len(),
                reduced@.len() == self.polys@.len(),
                forall|k: int| 0 <= k < reduced@.len() ==> vals((#[trigger] reduced@[k])@) == self.polys@[k].reduced(),
                res@.len() == index,
                forall|i: int|
                    0 <= i < index ==> (#[trigger] res@[i]).val() == column_sum(
                        self.tables(),
                        i,
                        self.polys@.len(),
                    ),
            decreases len - index,
        {
            let mut running = Scalar::zero();
            let mut m: usize = 0;
            while m < reduced.len()
                invariant
                    m <= reduced@.len(),
                    index < len,
                    self.wf(),
                    self.polys@.len() > 0,
                    len == self.polys@[0].polys@[0].evals@.len(),
                    reduced@.len() == self.polys@.len(),
                    forall|k: int| 0 <= k < reduced@.len() ==> vals((#[trigger] reduced@[k])@) == self.polys@[k].reduced(),
                    running.val() == column_sum(self.tables(), index as int, m as nat),
                decreases reduced@.len() - m,
            {
                let ghost pm = self.polys@[m as int];
                assert(pm.wf() && pm.polys@.len() > 0);
                assert(pm.polys@[0].n_vars == self.polys@[0].polys@[0].n_vars);
                assert(pm.polys@[0].wf());
                assert(self.polys@[0].polys@[0].wf());
                assert(vals(reduced@[m as int]@) == pm.reduced());
                assert(reduced@[m as int]@.len() == len);
                running = running.add(&reduced[m][index]);
                m = m + 1;
            }
            res.push(running);
            index = index + 1;
        }
        proof {
            assert(vals(res@) =~= self.reduced());
        }
        res
    }

    /// The products' encodings, one after the other.
    pub fn to_bytes(&self) -> (r: Vec<u8>)
        ensures
            r@ == self.polys@.map_values(
                |p: ProductPoly| p.polys@.map_values(|q: MultilinearPoly| seq_bytes(q.table())).flatten(),
            ).flatten(),
    {
        let mut out: Vec<u8> = Vec::new();
        let mut i: usize = 0;
        while i < self.polys.len()
            invariant
                i <= self.polys@.len(),
                out@ == self.polys@.subrange(0, i as int).map_values(
                    |p: ProductPoly| p.polys@.map_values(|q: MultilinearPoly| seq_bytes(q.table())).flatten(),
                ).flatten(),
            decreases self.polys@.len() - i,
        {
            let mut b = self.polys[i].to_bytes();
            out.append(&mut b);
            i = i + 1;
            proof {
                let f = |p: ProductPoly| p.polys@.map_values(|q: MultilinearPoly| seq_bytes(q.table())).flatten();
                let t = self.polys@.subrange(0, i - 1).map_values(f);
                let u = self.polys@.subrange(0, i as int).map_values(f);
                assert(u =~= t.push(f(self.polys@[i - 1])));
                t.lemma_flatten_push(f(self.polys@[i - 1]));
            }
        }
        proof {
            assert(self.polys@.subrange(0, self.polys@.len() as int) =~= self.polys@);
        }
        out
    }

    /// The number of evaluations of the first product's factors.
    pub fn get_poly_length(polys: &Vec<ProductPoly>) -> (r: usize)
        requires
            polys@.len() > 0,
            polys@[0].polys@.len() > 0,
        ensures
            r == polys@[0].polys@[0].evals@.len(),
    {
        polys[0].length()
    }

    /// The number of evaluations of every factor.
    pub fn length(&self) -> (r: usize)
        requires
            self.wf(),
            self.polys@.len() > 0,
        ensures
            r == self.polys@[0].polys@[0].evals@.len(),
    {
        Self::get_poly_length(&self.polys)
    }

    /// The number of variables.
    pub fn n_vars(&self) -> (r: u32)
        requires
            self.wf(),
            self.polys@.len() > 0,
        ensures
            r == self.arity(),
    {
        assert(self.polys@[0].wf());
        let p = &self.polys[0].polys[0];
        let len = p.evals.len();
        proof {
            assert(p.wf());
            assert(len <= usize::MAX);
            vstd::arithmetic::power2::lemma2_to64();
            if p.n_vars >= 64 {
                if p.n_vars > 64 {
                    vstd::arithmetic::power2::lemma_pow2_strictly_increases(64, p.n_vars as nat);
                }
            }
        }
        p.n_vars as u32
    }
}

impl ProductPoly {
    /// A copy of the product.
    pub fn copy(&self) -> (r: ProductPoly)
        ensures
            r.polys@.len() == self.polys@.len(),
            forall|i: int|
                0 <= i < self.polys@.len() ==> (#[trigger] r.polys@[i]).evals@ == self.polys@[i].evals@
                    && r.polys@[i].n_vars == self.polys@[i].n_vars,
    {
        let mut out: Vec<MultilinearPoly> = Vec::new();
        let mut i: usize = 0;
        while i < self.polys.len()
            invariant
                i <= self.polys@.len(),
                out@.len() == i,
                forall|j: int|
                    0 <= j < i ==> (#[trigger] out@[j]).evals@ == self.polys@[j].evals@
                        && out@[j].n_vars == self.polys@[j].n_vars,
            decreases self.polys@.len() - i,
        {
            out.push(self.polys[i].copy());
            i = i + 1;
        }
        ProductPoly::new(out)
    }
}

impl SumPoly {
    /// A copy of the sum.
    pub fn copy(&self) -> (r: SumPoly)
        requires
            self.wf(),
        ensures
            r.wf(),
            r.polys@.len() == self.polys@.len(),
            r.tables() == self.tables(),
            self.polys@.len() > 0 ==> r.arity() == self.arity(),
    {
        let mut out: Vec<ProductPoly> = Vec::new();
        let mut j: usize = 0;
        while j < self.polys.len()
            invariant
                j <= self.polys@.len(),
                out@.len() == j,
                forall|k: int|
                    0 <= k < j ==> (#[trigger] out@[k]).polys@.len() == self.polys@[k].polys@.len(),
                forall|k: int, i: int|
                    0 <= k < j && 0 <= i < self.polys@[k].polys@.len() ==> (#[trigger] out@[k].polys@[i]).evals@
                        == self.polys@[k].polys@[i].evals@ && out@[k].polys@[i].n_vars
                        == self.polys@[k].polys@[i].n_vars,
            decreases self.polys@.len() - j,
        {
            let p = self.polys[j].copy();
            out.push(p);
            j = j + 1;
        }
        let r = SumPoly::new(out);
        proof {
            assert forall|k: int| 0 <= k < r.polys@.len() implies #[trigger] r.tables()[k] == self.tables()[k] by {
                assert(r.tables()[k] =~= self.tables()[k]);
            }
            assert(r.tables() =~= self.tables());
            assert forall|k: int| 0 <= k < r.polys@.len() implies (#[trigger] r.polys@[k]).wf() by {
                assert(self.polys@[k].wf());
            }
        }
        r
    }
}

} // verus!
