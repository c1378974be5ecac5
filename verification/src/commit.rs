//! Inner/outer SIS-style commitment. A message is an `r`-column grid of
//! `m`-long ring vectors; each column is gadget-decomposed, compressed by
//! `A`, decomposed again, and the concatenation is compressed by `B` into
//! the commitment `u = B * that`. The hiding variant masks `u` with `E * rh`.

use vstd::prelude::*;

verus! {

use crate::ring::D;
use crate::ring::ModQ;
use crate::ring::Poly;
use crate::ring::poly_wf;
use crate::ring::poly_zero;
use crate::ring::poly_add_spec;
use crate::ring::poly_sub_spec;
use crate::ring::poly_mul_spec;
use crate::ring::vv;
use crate::ring::polyvec_wf;
use crate::ring::lemma_poly_add_spec_wf;
use crate::ring::lemma_poly_zero_wf;
use crate::gadget::digits_for;
use crate::gadget::digits_spec;
use crate::gadget::g_inv_vec;
use crate::gadget::g_fwd_vec;
use crate::gadget::g_inv_spec;
use crate::gadget::g_fwd_spec;
use crate::rng::rng_from_seed;
use crate::rng::rng_next_u32;
use vstd::arithmetic::div_mod::lemma_mod_bound;

pub type PolyVec = Vec<Poly>;

/// Dense row-major matrix over `R_q`.
pub struct MatrixRq {
    pub rows: usize,
    pub cols: usize,
    pub data: Vec<Poly>,
}

/// The matrix as a flat sequence of coefficient sequences, row-major.
pub open spec fn mm(m: MatrixRq) -> Seq<Seq<u32>> {
    vv(m.data@)
}

/// Deep view of a grid of columns.
pub open spec fn cols_view(s: Seq<Vec<Poly>>) -> Seq<Seq<Seq<u32>>> {
    s.map_values(|v: Vec<Poly>| vv(v@))
}

impl MatrixRq {
    /// Shape and canonicity: `rows * cols` entries, all canonical mod `q`.
    pub open spec fn wf(self, q: int) -> bool {
        self.data@.len() == self.rows * self.cols && polyvec_wf(mm(self), q)
    }

    pub fn new(rows: usize, cols: usize, data: Vec<Poly>) -> (res: Self)
        requires
            data@.len() == rows * cols,
        ensures
            res.rows == rows,
            res.cols == cols,
            res.data@ == data@,
    {
        Self { rows, cols, data }
    }

    pub fn at(&self, r: usize, c: usize) -> (res: &Poly)
        requires
            r < self.rows,
            c < self.cols,
            self.data@.len() == self.rows * self.cols,
        ensures
            res@ == mm(*self)[r * self.cols + c],
    {
        let n = self.data.len();
        proof {
            assert(0 <= r * self.cols + c < self.rows * self.cols) by (nonlinear_arith)
                requires
                    0 <= r < self.rows,
                    0 <= c < self.cols,
            ;
        }
        &self.data[r * self.cols + c]
    }

    /// Matrix-vector product over `R_q`.
    pub fn mul_vec(&self, x: &Vec<Poly>, q: &ModQ) -> (out: Vec<Poly>)
        requires
            q.wf(),
            self.wf(q.q as int),
            x@.len() == self.cols,
            polyvec_wf(vv(x@), q.q as int),
        ensures
            out@.len() == self.rows,
            polyvec_wf(vv(out@), q.q as int),
            vv(out@) == mat_vec_spec(
                mm(*self),
                self.rows as int,
                self.cols as int,
                vv(x@),
                q.q as int,
            ),
    {
        let ghost qi = q.q as int;
        let ghost model = mat_vec_spec(mm(*self), self.rows as int, self.cols as int, vv(x@), qi);
        let mut out: Vec<Poly> = Vec::new();
        let mut r: usize = 0;
        while r < self.rows
            invariant
                r <= self.rows,
                q.wf(),
                qi == q.q as int,
                self.wf(qi),
                x@.len() == self.cols,
                polyvec_wf(vv(x@), qi),
                model == mat_vec_spec(mm(*self), self.rows as int, self.cols as int, vv(x@), qi),
                out@.len() == r,
                forall|i: int|
                    0 <= i < r ==> (#[trigger] out@[i]@) == model[i] && poly_wf(out@[i]@, qi),
            decreases self.rows - r,
        {
            let mut acc = Poly::zero();
            let mut c: usize = 0;
            proof {
                lemma_poly_zero_wf(qi);
            }
            while c < self.cols
                invariant
                    c <= self.cols,
                    r < self.rows,
                    q.wf(),
                    qi == q.q as int,
                    self.wf(qi),
                    x@.len() == self.cols,
                    polyvec_wf(vv(x@), qi),
                    poly_wf(acc@, qi),
                    acc@ == row_dot(
                        mm(*self),
                        self.cols as int,
                        r as int,
                        vv(x@),
                        c as int,
                        qi,
                    ),
                decreases self.cols - c,
            {
                proof {
                    assert(0 <= r * self.cols + c < self.rows * self.cols) by (nonlinear_arith)
                        requires
                            0 <= r < self.rows,
                            0 <= c < self.cols,
                    ;
                    assert(vv(x@)[c as int] == x@[c as int]@);
                    assert(mm(*self)[r * self.cols + c] == self.data@[r * self.cols + c]@);
                }
                let term = self.at(r, c).mul(&x[c], q);
                acc = acc.add(&term, q);
                c = c + 1;
            }
            out.push(acc);
            r = r + 1;
        }
        proof {
            assert(vv(out@) =~= model);
        }
        out
    }

    /// Uniformly random matrix from a seeded generator; every coefficient is
    /// reduced into `[0, q)`, whatever the generator yields.
    pub fn random(rows: usize, cols: usize, q: &ModQ, rng: &mut rand::rngs::StdRng) -> (res:
        MatrixRq)
        requires
            q.wf(),
        ensures
            res.rows == rows,
            res.cols == cols,
            res.wf(q.q as int),
    {
        let mut data: Vec<Poly> = Vec::new();
        let mut i: usize = 0;
        while i < rows
            invariant
                i <= rows,
                q.wf(),
                data@.len() == i * cols,
                polyvec_wf(vv(data@), q.q as int),
            decreases rows - i,
        {
            let mut j: usize = 0;
            proof {
                assert((i + 1) * cols == i * cols + cols && i * cols >= 0) by (nonlinear_arith)
                    requires
                        i >= 0,
                        cols >= 0,
                ;
            }
            while j < cols
                invariant
                    j <= cols,
                    q.wf(),
                    data@.len() == i * cols + j,
                    i * cols >= 0,
                    i * cols + cols == (i + 1) * cols,
                    polyvec_wf(vv(data@), q.q as int),
                decreases cols - j,
            {
                let mut c: Vec<u32> = Vec::new();
                let mut t: usize = 0;
                while t < D
                    invariant
                        t <= 64,
                        q.wf(),
                        c@.len() == t,
                        forall|u: int| 0 <= u < t ==> c@[u] < q.q,
                    decreases 64 - t,
                {
                    let v = rng_next_u32(rng) % q.q;
                    c.push(v);
                    t = t + 1;
                }
                let p = Poly { c };
                let ghost dprev = vv(data@);
                proof {
                    assert(poly_wf(p@, q.q as int));
                }
                data.push(p);
                proof {
                    assert(vv(data@) =~= dprev.push(p@));
                    assert forall|u: int| 0 <= u < vv(data@).len() implies poly_wf(
                        #[trigger] vv(data@)[u],
                        q.q as int,
                    ) by {
                        if u < dprev.len() {
                            assert(vv(data@)[u] == dprev[u]);
                        } else {
                            assert(vv(data@)[u] == p@);
                        }
                    }
                }
                j = j + 1;
            }
            i = i + 1;
        }
        MatrixRq { rows, cols, data }
    }

    pub fn zeros(rows: usize, cols: usize) -> (res: MatrixRq)
        requires
            rows * cols <= 0x1000_0000,
        ensures
            res.rows == rows,
            res.cols == cols,
            res.data@.len() == rows * cols,
            forall|i: int| 0 <= i < rows * cols ==> (#[trigger] mm(res)[i]) == poly_zero(),
            forall|q: int| q >= 1 ==> res.wf(q),
    {
        let n: usize = rows * cols;
        let mut data: Vec<Poly> = Vec::new();
        let mut i: usize = 0;
        while i < n
            invariant
                i <= n,
                data@.len() == i,
                forall|j: int| 0 <= j < i ==> (#[trigger] data@[j]@) == poly_zero(),
            decreases n - i,
        {
            data.push(Poly::zero());
            i = i + 1;
        }
        let res = MatrixRq { rows, cols, data };
        proof {
            assert forall|q: int| q >= 1 implies res.wf(q) by {
                lemma_poly_zero_wf(q);
            }
        }
        res
    }

    /// Replace one entry (builder phase of the linear-system assembler).
    pub fn set(&mut self, r: usize, c: usize, val: Poly)
        requires
            r < old(self).rows,
            c < old(self).cols,
            old(self).data@.len() == old(self).rows * old(self).cols,
        ensures
            final(self).rows == old(self).rows,
            final(self).cols == old(self).cols,
            final(self).data@.len() == old(self).data@.len(),
            mm(*final(self)) == mm(*old(self)).update(
                r as int * old(self).cols as int + c as int,
                val@,
            ),
    {
        let n = self.data.len();
        proof {
            assert(0 <= r * self.cols + c < self.rows * self.cols) by (nonlinear_arith)
                requires
                    0 <= r < self.rows,
                    0 <= c < self.cols,
            ;
        }
        let idx = r * self.cols + c;
        vstd::pervasive::VecAdditionalExecFns::set(&mut self.data, idx, val);
        proof {
            assert(mm(*self) =~= mm(*old(self)).update(
                r as int * old(self).cols as int + c as int,
                val@,
            ));
        }
    }
}

impl Clone for MatrixRq {
    fn clone(&self) -> (res: Self)
        ensures
            res.rows == self.rows,
            res.cols == self.cols,
            res.data@.len() == self.data@.len(),
            mm(res) == mm(*self),
    {
        let n = self.data.len();
        let mut data: Vec<Poly> = Vec::new();
        let mut i: usize = 0;
        while i < n
            invariant
                i <= n,
                n == self.data@.len(),
                data@.len() == i,
                forall|j: int| 0 <= j < i ==> (#[trigger] data@[j]@) == self.data@[j]@,
            decreases n - i,
        {
            data.push(self.data[i].clone());
            i = i + 1;
        }
        let res = Self { rows: self.rows, cols: self.cols, data };
        proof {
            assert(mm(res) =~= mm(*self));
        }
        res
    }
}

/// Partial ring dot product of row `r` with `x`: the first `k` columns.
pub open spec fn row_dot(
    m: Seq<Seq<u32>>,
    cols: int,
    r: int,
    x: Seq<Seq<u32>>,
    k: int,
    q: int,
) -> Seq<u32>
    decreases k,
{
    if k <= 0 {
        poly_zero()
    } else {
        poly_add_spec(
            row_dot(m, cols, r, x, k - 1, q),
            poly_mul_spec(m[r * cols + (k - 1)], x[k - 1], q),
            q,
        )
    }
}

/// Matrix-vector product over `R_q`, row by row.
pub open spec fn mat_vec_spec(
    m: Seq<Seq<u32>>,
    rows: int,
    cols: int,
    x: Seq<Seq<u32>>,
    q: int,
) -> Seq<Seq<u32>> {
    Seq::new(rows as nat, |r: int| row_dot(m, cols, r, x, cols, q))
}

/// Every row of a matrix-vector product is canonical.
pub proof fn lemma_row_dot_wf(m: Seq<Seq<u32>>, cols: int, r: int, x: Seq<Seq<u32>>, k: int, q: int)
    requires
        1 <= q <= 0x1_0000_0000,
    ensures
        poly_wf(row_dot(m, cols, r, x, k, q), q),
    decreases k,
{
    if k <= 0 {
        lemma_poly_zero_wf(q);
    } else {
        lemma_row_dot_wf(m, cols, r, x, k - 1, q);
        lemma_poly_add_spec_wf(
            row_dot(m, cols, r, x, k - 1, q),
            poly_mul_spec(m[r * cols + (k - 1)], x[k - 1], q),
            q,
        );
    }
}

pub proof fn lemma_mat_vec_wf(m: Seq<Seq<u32>>, rows: int, cols: int, x: Seq<Seq<u32>>, q: int)
    requires
        1 <= q <= 0x1_0000_0000,
    ensures
        polyvec_wf(mat_vec_spec(m, rows, cols, x, q), q),
{
    assert forall|i: int|
        0 <= i < mat_vec_spec(m, rows, cols, x, q).len() implies poly_wf(
        #[trigger] mat_vec_spec(m, rows, cols, x, q)[i],
        q,
    ) by {
        lemma_row_dot_wf(m, cols, i, x, cols, q);
    }
}

/// Public parameters of the commitment: compressing matrices `A`, `B`, the
/// decomposition bases, and the optional hiding matrix `E`.
pub struct CommitParams {
    pub q: ModQ,
    pub n: usize,
    pub m: usize,
    pub r: usize,
    pub delta0: usize,
    pub delta1: usize,
    pub b0: u32,
    pub b1: u32,
    pub a_mat: MatrixRq,
    pub b_mat: MatrixRq,
    pub mu: usize,
    pub e_mat: Option<MatrixRq>,
}

impl CommitParams {
    pub open spec fn wf(self) -> bool {
        &&& self.q.wf()
        &&& self.n >= 1
        &&& self.m >= 1
        &&& self.r >= 1
        &&& self.b0 >= 2
        &&& self.b1 >= 2
        &&& self.delta0 >= 1
        &&& self.delta1 >= 1
        &&& self.delta0 == digits_spec(self.q.q as int, self.b0 as int)
        &&& self.delta1 == digits_spec(self.q.q as int, self.b1 as int)
        &&& self.a_mat.wf(self.q.q as int)
        &&& self.a_mat.rows == self.n
        &&& self.a_mat.cols == self.delta0 * self.m
        &&& self.b_mat.wf(self.q.q as int)
        &&& self.b_mat.rows == self.n
        &&& self.b_mat.cols == self.n * self.delta1 * self.r
        &&& (self.e_mat matches Some(e) ==> e.wf(self.q.q as int) && e.rows == self.n && e.cols
            == self.mu)
        &&& (self.mu > 0 ==> self.e_mat is Some)
        &&& crate::gadget::covers(self.q.q as int, self.b0 as int, self.delta0 as nat)
        &&& crate::gadget::covers(self.q.q as int, self.b1 as int, self.delta1 as nat)
    }

    /// Generate toy parameters: `A` and `B` drawn from a seeded generator.
    pub fn gen(q: ModQ, n: usize, m: usize, r: usize, b0: u32, b1: u32, seed: u64) -> (pp:
        CommitParams)
        requires
            q.wf(),
            b0 >= 2,
            b1 >= 2,
            1 <= n <= 0x400,
            1 <= m <= 0x10_0000,
            1 <= r <= 0x400,
            crate::gadget::covers(
                q.q as int,
                b0 as int,
                digits_spec(q.q as int, b0 as int),
            ),
            crate::gadget::covers(
                q.q as int,
                b1 as int,
                digits_spec(q.q as int, b1 as int),
            ),
        ensures
            pp.wf(),
            pp.q == q,
            pp.n == n,
            pp.m == m,
            pp.r == r,
            pp.b0 == b0,
            pp.b1 == b1,
            pp.mu == 0,
            pp.e_mat is None,
    {
        let delta0 = digits_for(&q, b0);
        let delta1 = digits_for(&q, b1);
        proof {
            assert(digits_spec(q.q as int, b0 as int) >= 1);
            assert(digits_spec(q.q as int, b1 as int) >= 1);
        }
        proof {
            assert(delta0 * m <= 32 * 0x10_0000 && n * delta1 <= 0x400 * 32 && n * delta1 * r
                <= 0x400 * 32 * 0x400) by (nonlinear_arith)
                requires
                    delta0 <= 32,
                    delta1 <= 32,
                    1 <= m <= 0x10_0000,
                    1 <= n <= 0x400,
                    1 <= r <= 0x400,
            ;
        }
        let mut rng = rng_from_seed(seed);
        let a_mat = MatrixRq::random(n, delta0 * m, &q, &mut rng);
        let b_mat = MatrixRq::random(n, (n * delta1) * r, &q, &mut rng);
        CommitParams { q, n, m, r, delta0, delta1, b0, b1, a_mat, b_mat, mu: 0, e_mat: None }
    }

    /// Hiding extension: draw `E` of shape `n x mu` from its own seed.
    pub fn with_hiding(self, mu: usize, seed: u64) -> (pp: CommitParams)
        requires
            self.wf(),
            mu <= 0x10_0000,
        ensures
            pp.wf(),
            pp.q == self.q,
            pp.n == self.n,
            pp.m == self.m,
            pp.r == self.r,
            pp.b0 == self.b0,
            pp.b1 == self.b1,
            pp.delta0 == self.delta0,
            pp.delta1 == self.delta1,
            pp.a_mat == self.a_mat,
            pp.b_mat == self.b_mat,
            mu > 0 ==> pp.mu == mu && pp.e_mat is Some,
            mu == 0 ==> pp == self,
    {
        if mu > 0 {
            let mut rng = rng_from_seed(seed ^ 0xE11E);
            let e_mat = MatrixRq::random(self.n, mu, &self.q, &mut rng);
            CommitParams {
                e_mat: Some(e_mat),
                mu,
                q: self.q,
                n: self.n,
                m: self.m,
                r: self.r,
                delta0: self.delta0,
                delta1: self.delta1,
                b0: self.b0,
                b1: self.b1,
                a_mat: self.a_mat,
                b_mat: self.b_mat,
            }
        } else {
            self
        }
    }
}

/// Decommitment: the column digit vectors `s_i`, the concatenated inner
/// digit vector `that`, and the hiding randomness when present.
pub struct Decommit {
    pub s: Vec<Vec<Poly>>,
    pub that: Vec<Poly>,
    pub r: Option<Vec<Poly>>,
}

/// A commitment value with its decommitment.
pub struct Commitment {
    pub u: Vec<Poly>,
    pub dec: Decommit,
}

/// The digit decomposition of one message column.
pub open spec fn col_s_spec(pp: CommitParams, f: Seq<Seq<u32>>) -> Seq<Seq<u32>> {
    g_inv_spec(f, pp.b0 as int, pp.q.q as int, pp.delta0 as nat)
}

/// The inner commitment of one column, decomposed again.
pub open spec fn col_that_spec(pp: CommitParams, f: Seq<Seq<u32>>) -> Seq<Seq<u32>> {
    g_inv_spec(
        mat_vec_spec(
            mm(pp.a_mat),
            pp.n as int,
            pp.a_mat.cols as int,
            col_s_spec(pp, f),
            pp.q.q as int,
        ),
        pp.b1 as int,
        pp.q.q as int,
        pp.delta1 as nat,
    )
}

/// Shape and canonicity of a message grid.
pub open spec fn f_cols_wf(pp: CommitParams, f: Seq<Seq<Seq<u32>>>) -> bool {
    f.len() == pp.r && forall|i: int|
        0 <= i < pp.r ==> (#[trigger] f[i]).len() == pp.m && polyvec_wf(f[i], pp.q.q as int)
}

/// Non-hiding commitment: `u = B * that` with
/// `that = col_that(f_0) || ... || col_that(f_{r-1})`.
pub fn commit(pp: &CommitParams, f_cols: &Vec<Vec<Poly>>) -> (res: Commitment)
    requires
        pp.wf(),
        f_cols_wf(*pp, cols_view(f_cols@)),
    ensures
        res.dec.s@.len() == pp.r,
        forall|i: int|
            0 <= i < pp.r ==> vv((#[trigger] res.dec.s@[i])@) == col_s_spec(
                *pp,
                cols_view(f_cols@)[i],
            ),
        res.dec.that@.len() == pp.n * pp.delta1 * pp.r,
        polyvec_wf(vv(res.dec.that@), pp.q.q as int),
        forall|i: int|
            0 <= i < pp.r ==> vv(res.dec.that@).subrange(
                i * (pp.n * pp.delta1) as int,
                (i + 1) * (pp.n * pp.delta1) as int,
            ) == col_that_spec(*pp, #[trigger] cols_view(f_cols@)[i]),
        res.u@.len() == pp.n,
        polyvec_wf(vv(res.u@), pp.q.q as int),
        vv(res.u@) == mat_vec_spec(
            mm(pp.b_mat),
            pp.n as int,
            pp.b_mat.cols as int,
            vv(res.dec.that@),
            pp.q.q as int,
        ),
        res.dec.r is None,
{
    let ghost qi = pp.q.q as int;
    let ghost fv = cols_view(f_cols@);
    proof {
        assert(pp.n * pp.delta1 <= pp.n * pp.delta1 * pp.r) by (nonlinear_arith)
            requires
                pp.r >= 1,
                pp.n >= 0,
                pp.delta1 >= 0,
        ;
    }
    let block: usize = pp.n * pp.delta1;
    let mut s_all: Vec<Vec<Poly>> = Vec::new();
    let mut that_concat: Vec<Poly> = Vec::new();
    let mut i: usize = 0;
    while i < pp.r
        invariant
            i <= pp.r,
            pp.wf(),
            qi == pp.q.q as int,
            fv == cols_view(f_cols@),
            f_cols_wf(*pp, fv),
            block == pp.n * pp.delta1,
            s_all@.len() == i,
            forall|j: int|
                0 <= j < i ==> vv((#[trigger] s_all@[j])@) == col_s_spec(*pp, fv[j]),
            that_concat@.len() == i * block,
            polyvec_wf(vv(that_concat@), qi),
            forall|j: int|
                0 <= j < i ==> vv(that_concat@).subrange(
                    j * block as int,
                    (j + 1) * block as int,
                ) == col_that_spec(*pp, #[trigger] fv[j]),
        decreases pp.r - i,
    {
        proof {
            assert(fv[i as int] == vv(f_cols@[i as int]@));
            assert((i + 1) * block == i * block + block && i * block >= 0 && (i + 1) * block <= (
            pp.r as int) * block) by (nonlinear_arith)
                requires
                    0 <= i < pp.r,
                    block >= 0,
            ;
        }
        let si = g_inv_vec(&f_cols[i], pp.b0, &pp.q);
        proof {
            assert(si@.len() == pp.m * pp.delta0);
            assert(pp.m * pp.delta0 == pp.delta0 * pp.m) by (nonlinear_arith);
        }
        let ti = pp.a_mat.mul_vec(&si, &pp.q);
        let that_i = g_inv_vec(&ti, pp.b1, &pp.q);
        proof {
            assert(that_i@.len() == pp.n * pp.delta1);
        }
        let ghost that_model = col_that_spec(*pp, fv[i as int]);
        let ghost prev = vv(that_concat@);
        proof {
            assert(vv(that_i@) == that_model);
            assert(vv(that_concat@) =~= prev + vv(that_i@).take(0));
        }
        let mut t: usize = 0;
        let nlen = that_i.len();
        while t < nlen
            invariant
                t <= nlen,
                i < pp.r,
                pp.wf(),
                qi == pp.q.q as int,
                fv == cols_view(f_cols@),
                f_cols_wf(*pp, fv),
                block == pp.n * pp.delta1,
                nlen == that_i@.len(),
                nlen == block,
                that_model == col_that_spec(*pp, fv[i as int]),
                vv(that_i@) == that_model,
                polyvec_wf(vv(that_i@), qi),
                vv(si@) == col_s_spec(*pp, fv[i as int]),
                s_all@.len() == i,
                forall|j: int|
                    0 <= j < i ==> vv((#[trigger] s_all@[j])@) == col_s_spec(*pp, fv[j]),
                prev.len() == i * block,
                i * block >= 0,
                i * block + block == (i + 1) * block,
                that_concat@.len() == i * block + t,
                polyvec_wf(prev, qi),
                vv(that_concat@) == prev + vv(that_i@).take(t as int),
                forall|j: int|
                    0 <= j < i ==> prev.subrange(j * block as int, (j + 1) * block as int)
                        == col_that_spec(*pp, #[trigger] fv[j]),
            decreases nlen - t,
        {
            let ghost before = vv(that_concat@);
            that_concat.push(that_i[t].clone());
            proof {
                assert(vv(that_concat@) =~= before.push(that_i@[t as int]@));
                assert(vv(that_i@).take(t as int + 1) =~= vv(that_i@).take(t as int).push(
                    vv(that_i@)[t as int],
                ));
                assert(vv(that_concat@) =~= prev + vv(that_i@).take(t as int + 1));
            }
            t = t + 1;
        }
        s_all.push(si);
        proof {
            assert(vv(that_i@).take(block as int) =~= vv(that_i@));
            let full = prev + that_model;
            assert(vv(that_concat@) == full);
            assert(that_model.len() == block);
            assert(polyvec_wf(full, qi)) by {
                assert forall|j: int| 0 <= j < full.len() implies poly_wf(
                    #[trigger] full[j],
                    qi,
                ) by {
                    if j < prev.len() {
                        assert(full[j] == prev[j]);
                    } else {
                        assert(full[j] == that_model[j - prev.len()]);
                        assert(that_model[j - prev.len()] == vv(that_i@)[j - prev.len()]);
                    }
                }
            }
            assert(full.subrange(i as int * block as int, (i as int + 1) * block as int)
                =~= that_model);
            assert forall|j: int|
                0 <= j < i implies full.subrange(j * block as int, (j + 1) * block as int)
                == col_that_spec(*pp, #[trigger] fv[j]) by {
                assert((j + 1) * block as int <= i * block as int && 0 <= j * block as int && (j
                    + 1) * (block as int) == j * (block as int) + block) by (nonlinear_arith)
                    requires
                        0 <= j < i,
                        block >= 0,
                ;
                assert(full.subrange(j * block as int, (j + 1) * block as int) =~= prev.subrange(
                    j * block as int,
                    (j + 1) * block as int,
                ));
            }
        }
        i = i + 1;
    }
    proof {
        assert((pp.r as int) * (block as int) == pp.n * pp.delta1 * pp.r) by (nonlinear_arith)
            requires
                block == pp.n * pp.delta1,
        ;
    }
    let u = pp.b_mat.mul_vec(&that_concat, &pp.q);
    Commitment { u, dec: Decommit { s: s_all, that: that_concat, r: None } }
}

/// What a successful non-hiding opening means: shapes match, every column
/// digit vector recomposes to its message column, every inner digit block
/// recomposes to `A * s_i`, and `B * that` equals the commitment.
pub open spec fn open_check_body(
    pp: CommitParams,
    f: Seq<Seq<Seq<u32>>>,
    dec_s: Seq<Seq<Seq<u32>>>,
    dec_that: Seq<Seq<u32>>,
) -> bool {
    &&& dec_s.len() == pp.r
    &&& dec_that.len() == pp.n * pp.delta1 * pp.r
    &&& forall|i: int| 0 <= i < pp.r ==> (#[trigger] dec_s[i]).len() == pp.delta0 * pp.m
    &&& forall|i: int|
        0 <= i < pp.r ==> g_fwd_spec(
            #[trigger] dec_s[i],
            pp.m as int,
            pp.b0 as int,
            pp.q.q as int,
        ) == f[i]
    &&& forall|i: int|
        0 <= i < pp.r ==> g_fwd_spec(
            dec_that.subrange(i * (pp.n * pp.delta1) as int, (i + 1) * (pp.n * pp.delta1) as int),
            pp.n as int,
            pp.b1 as int,
            pp.q.q as int,
        ) == mat_vec_spec(
            mm(pp.a_mat),
            pp.n as int,
            pp.a_mat.cols as int,
            #[trigger] dec_s[i],
            pp.q.q as int,
        )
}

pub open spec fn open_check_spec(
    pp: CommitParams,
    u: Seq<Seq<u32>>,
    f: Seq<Seq<Seq<u32>>>,
    dec_s: Seq<Seq<Seq<u32>>>,
    dec_that: Seq<Seq<u32>>,
    has_hiding: bool,
) -> bool {
    &&& !has_hiding
    &&& u.len() == pp.n
    &&& open_check_body(pp, f, dec_s, dec_that)
    &&& mat_vec_spec(mm(pp.b_mat), pp.n as int, pp.b_mat.cols as int, dec_that, pp.q.q as int)
        == u
}

/// Compare two polynomial vectors entry by entry.
pub fn polyvec_eq(a: &Vec<Poly>, b: &Vec<Poly>) -> (res: bool)
    ensures
        res == (vv(a@) == vv(b@)),
{
    if a.len() != b.len() {
        proof {
            assert(vv(a@).len() != vv(b@).len());
        }
        return false;
    }
    let n = a.len();
    let mut i: usize = 0;
    while i < n
        invariant
            i <= n,
            n == a@.len(),
            n == b@.len(),
            forall|j: int| 0 <= j < i ==> vv(a@)[j] == vv(b@)[j],
        decreases n - i,
    {
        if !(a[i] == b[i]) {
            proof {
                assert(vv(a@)[i as int] == a@[i as int]@);
                assert(vv(b@)[i as int] == b@[i as int]@);
            }
            return false;
        }
        proof {
            assert(vv(a@)[i as int] == a@[i as int]@);
            assert(vv(b@)[i as int] == b@[i as int]@);
        }
        i = i + 1;
    }
    proof {
        assert(vv(a@) =~= vv(b@));
    }
    true
}

/// Non-hiding opening check; returns exactly `open_check_spec`.
pub fn open_check(pp: &CommitParams, u: &Vec<Poly>, f_cols: &Vec<Vec<Poly>>, dec: &Decommit) -> (res:
    bool)
    requires
        pp.wf(),
        f_cols_wf(*pp, cols_view(f_cols@)),
        polyvec_wf(vv(u@), pp.q.q as int),
        polyvec_wf(vv(dec.that@), pp.q.q as int),
        forall|i: int|
            0 <= i < dec.s@.len() ==> polyvec_wf(vv((#[trigger] dec.s@[i])@), pp.q.q as int),
    ensures
        res == open_check_spec(
            *pp,
            vv(u@),
            cols_view(f_cols@),
            cols_view(dec.s@),
            vv(dec.that@),
            dec.r is Some,
        ),
{
    if dec.r.is_some() {
        return false;
    }
    if u.len() != pp.n {
        return false;
    }
    let body_ok = open_check_core(pp, f_cols, &dec.s, &dec.that);
    if !body_ok {
        return false;
    }
    let u_chk = pp.b_mat.mul_vec(&dec.that, &pp.q);
    let ok = polyvec_eq(&u_chk, u);
    ok
}

/// The gadget checks of the opening, shared with the hiding variant.
fn open_check_core(
    pp: &CommitParams,
    f_cols: &Vec<Vec<Poly>>,
    dec_s: &Vec<Vec<Poly>>,
    dec_that: &Vec<Poly>,
) -> (res: bool)
    requires
        pp.wf(),
        f_cols_wf(*pp, cols_view(f_cols@)),
        polyvec_wf(vv(dec_that@), pp.q.q as int),
        forall|i: int|
            0 <= i < dec_s@.len() ==> polyvec_wf(vv((#[trigger] dec_s@[i])@), pp.q.q as int),
    ensures
        res == open_check_body(*pp, cols_view(f_cols@), cols_view(dec_s@), vv(dec_that@)),
{
    let ghost qi = pp.q.q as int;
    let ghost fv = cols_view(f_cols@);
    let ghost sv = cols_view(dec_s@);
    if dec_s.len() != pp.r {
        return false;
    }
    proof {
        assert(pp.n * pp.delta1 <= pp.n * pp.delta1 * pp.r) by (nonlinear_arith)
            requires
                pp.r >= 1,
                pp.n >= 0,
                pp.delta1 >= 0,
        ;
    }
    let block: usize = pp.n * pp.delta1;
    let that_len: usize = pp.b_mat.cols;
    proof {
        assert(pp.b_mat.cols == pp.n * pp.delta1 * pp.r);
        assert((pp.r as int) * (block as int) == pp.n * pp.delta1 * pp.r) by (nonlinear_arith)
            requires
                block == pp.n * pp.delta1,
        ;
    }
    if dec_that.len() != that_len {
        return false;
    }
    // every column digit vector recomposes to its message column
    let cols0: usize = pp.delta0 * pp.m;
    let mut i: usize = 0;
    while i < pp.r
        invariant
            i <= pp.r,
            pp.wf(),
            qi == pp.q.q as int,
            fv == cols_view(f_cols@),
            sv == cols_view(dec_s@),
            f_cols_wf(*pp, fv),
            dec_s@.len() == pp.r,
            cols0 == pp.delta0 * pp.m,
            forall|j: int| 0 <= j < dec_s@.len() ==> polyvec_wf(vv((#[trigger] dec_s@[j])@), qi),
            forall|j: int|
                0 <= j < i ==> (#[trigger] sv[j]).len() == pp.delta0 * pp.m && g_fwd_spec(
                    sv[j],
                    pp.m as int,
                    pp.b0 as int,
                    qi,
                ) == fv[j],
        decreases pp.r - i,
    {
        proof {
            assert(sv[i as int] == vv(dec_s@[i as int]@));
            assert(fv[i as int] == vv(f_cols@[i as int]@));
        }
        if dec_s[i].len() != cols0 {
            return false;
        }
        let fi_rec = g_fwd_vec(&dec_s[i], pp.m, pp.b0, &pp.q);
        if !polyvec_eq(&fi_rec, &f_cols[i]) {
            return false;
        }
        i = i + 1;
    }
    // every inner digit block recomposes to `A * s_i`
    let mut i2: usize = 0;
    while i2 < pp.r
        invariant
            i2 <= pp.r,
            pp.wf(),
            qi == pp.q.q as int,
            fv == cols_view(f_cols@),
            sv == cols_view(dec_s@),
            f_cols_wf(*pp, fv),
            dec_s@.len() == pp.r,
            dec_that@.len() == pp.n * pp.delta1 * pp.r,
            cols0 == pp.delta0 * pp.m,
            block == pp.n * pp.delta1,
            polyvec_wf(vv(dec_that@), qi),
            forall|j: int| 0 <= j < dec_s@.len() ==> polyvec_wf(vv((#[trigger] dec_s@[j])@), qi),
            forall|j: int| 0 <= j < pp.r ==> (#[trigger] sv[j]).len() == pp.delta0 * pp.m,
            forall|j: int|
                0 <= j < i2 ==> g_fwd_spec(
                    vv(dec_that@).subrange(j * block as int, (j + 1) * block as int),
                    pp.n as int,
                    pp.b1 as int,
                    qi,
                ) == mat_vec_spec(
                    mm(pp.a_mat),
                    pp.n as int,
                    pp.a_mat.cols as int,
                    #[trigger] sv[j],
                    qi,
                ),
        decreases pp.r - i2,
    {
        proof {
            assert((i2 + 1) * block == i2 * block + block && i2 * block >= 0 && (i2 + 1) * block
                <= (pp.r as int) * (block as int)) by (nonlinear_arith)
                requires
                    0 <= i2 < pp.r,
                    block >= 0,
            ;
            assert((pp.r as int) * (block as int) == pp.n * pp.delta1 * pp.r) by (nonlinear_arith)
                requires
                    block == pp.n * pp.delta1,
            ;
        }
        let tlen = dec_that.len();
        let mut chunk: Vec<Poly> = Vec::new();
        let mut t: usize = 0;
        while t < block
            invariant
                t <= block,
                i2 < pp.r,
                tlen == dec_that@.len(),
                (i2 + 1) * block == i2 * block + block,
                i2 * block >= 0,
                (i2 + 1) * block <= dec_that@.len(),
                qi == pp.q.q as int,
                polyvec_wf(vv(dec_that@), qi),
                chunk@.len() == t,
                forall|j: int|
                    0 <= j < t ==> (#[trigger] chunk@[j]@) == vv(dec_that@)[i2 * (block as int)
                        + j],
            decreases block - t,
        {
            proof {
                assert(i2 * block + t < (i2 + 1) * block) by (nonlinear_arith)
                    requires
                        t < block,
                ;
            }
            chunk.push(dec_that[i2 * block + t].clone());
            t = t + 1;
        }
        proof {
            let sub = vv(dec_that@).subrange(
                i2 as int * block as int,
                (i2 as int + 1) * block as int,
            );
            assert forall|j: int| 0 <= j < block implies vv(chunk@)[j] == sub[j] by {
                assert(vv(chunk@)[j] == chunk@[j]@);
            }
            assert(vv(chunk@) =~= sub);
            assert(sv[i2 as int] == vv(dec_s@[i2 as int]@));
        }
        let ti_rec = g_fwd_vec(&chunk, pp.n, pp.b1, &pp.q);
        proof {
            assert(chunk@.len() as int / pp.n as int == pp.delta1) by {
                vstd::arithmetic::div_mod::lemma_div_multiples_vanish(
                    pp.delta1 as int,
                    pp.n as int,
                );
                assert(pp.n as int * pp.delta1 as int == pp.delta1 as int * pp.n as int)
                    by (nonlinear_arith);
            }
        }
        let ti_from_a = pp.a_mat.mul_vec(&dec_s[i2], &pp.q);
        if !polyvec_eq(&ti_rec, &ti_from_a) {
            return false;
        }
        i2 = i2 + 1;
    }
    true
}

} // verus!
use vstd::prelude::*;

verus! {

use crate::gadget::covers;
use crate::gadget::lemma_g_round_trip;

/// Hiding commitment: as `commit`, then `u = B * that + E * rh` with a
/// freshly drawn mask vector `rh` of length `mu`.
pub fn commit_hiding(pp: &CommitParams, f_cols: &Vec<Vec<Poly>>) -> (res: Commitment)
    requires
        pp.wf(),
        pp.mu > 0,
        pp.e_mat is Some,
        f_cols_wf(*pp, cols_view(f_cols@)),
    ensures
        res.dec.s@.len() == pp.r,
        forall|i: int|
            0 <= i < pp.r ==> vv((#[trigger] res.dec.s@[i])@) == col_s_spec(
                *pp,
                cols_view(f_cols@)[i],
            ),
        res.dec.that@.len() == pp.n * pp.delta1 * pp.r,
        polyvec_wf(vv(res.dec.that@), pp.q.q as int),
        forall|i: int|
            0 <= i < pp.r ==> vv(res.dec.that@).subrange(
                i * (pp.n * pp.delta1) as int,
                (i + 1) * (pp.n * pp.delta1) as int,
            ) == col_that_spec(*pp, #[trigger] cols_view(f_cols@)[i]),
        res.u@.len() == pp.n,
        polyvec_wf(vv(res.u@), pp.q.q as int),
        res.dec.r matches Some(rh) && rh@.len() == pp.mu && polyvec_wf(vv(rh@), pp.q.q as int)
            && forall|i: int|
            0 <= i < pp.n ==> #[trigger] vv(res.u@)[i] == poly_add_spec(
                mat_vec_spec(
                    mm(pp.b_mat),
                    pp.n as int,
                    pp.b_mat.cols as int,
                    vv(res.dec.that@),
                    pp.q.q as int,
                )[i],
                mat_vec_spec(
                    mm(pp.e_mat->Some_0),
                    pp.n as int,
                    pp.mu as int,
                    vv(rh@),
                    pp.q.q as int,
                )[i],
                pp.q.q as int,
            ),
{
    let ghost qi = pp.q.q as int;
    let base = commit(pp, f_cols);
    // toy mask: uniform coefficients from a fixed-seed generator
    let mut rng = rng_from_seed(0xC001);
    let mut rh: Vec<Poly> = Vec::new();
    let mut i: usize = 0;
    while i < pp.mu
        invariant
            i <= pp.mu,
            pp.wf(),
            qi == pp.q.q as int,
            rh@.len() == i,
            polyvec_wf(vv(rh@), qi),
        decreases pp.mu - i,
    {
        let mut c: Vec<u32> = Vec::new();
        let mut t: usize = 0;
        while t < D
            invariant
                t <= 64,
                pp.wf(),
                c@.len() == t,
                forall|u: int| 0 <= u < t ==> c@[u] < pp.q.q,
            decreases 64 - t,
        {
            let v = rng_next_u32(&mut rng) % pp.q.q;
            c.push(v);
            t = t + 1;
        }
        let p = Poly { c };
        let ghost before = vv(rh@);
        rh.push(p);
        proof {
            assert(vv(rh@) =~= before.push(p@));
        }
        i = i + 1;
    }
    let e_mat = match &pp.e_mat {
        Some(e) => e,
        None => {
            proof {
                assert(false);
            }
            &pp.b_mat
        },
    };
    let er = e_mat.mul_vec(&rh, &pp.q);
    let mut u: Vec<Poly> = Vec::new();
    let n = base.u.len();
    let mut k: usize = 0;
    while k < n
        invariant
            k <= n,
            n == pp.n,
            pp.wf(),
            qi == pp.q.q as int,
            base.u@.len() == n,
            polyvec_wf(vv(base.u@), qi),
            er@.len() == n,
            polyvec_wf(vv(er@), qi),
            u@.len() == k,
            forall|j: int|
                0 <= j < k ==> (#[trigger] u@[j]@) == poly_add_spec(vv(base.u@)[j], vv(er@)[j], qi)
                    && poly_wf(u@[j]@, qi),
        decreases n - k,
    {
        proof {
            assert(vv(base.u@)[k as int] == base.u@[k as int]@);
            assert(vv(er@)[k as int] == er@[k as int]@);
        }
        u.push(base.u[k].add(&er[k], &pp.q));
        k = k + 1;
    }
    proof {
        assert forall|j: int| 0 <= j < vv(u@).len() implies #[trigger] vv(u@)[j] == u@[j]@ by {}
    }
    Commitment { u, dec: Decommit { s: base.dec.s, that: base.dec.that, r: Some(rh) } }
}

/// What a successful hiding opening means: the non-hiding checks pass and
/// the residual `u - B * that` equals `E * rh`.
pub open spec fn open_check_hiding_spec(
    pp: CommitParams,
    u: Seq<Seq<u32>>,
    f: Seq<Seq<Seq<u32>>>,
    dec: Decommit,
) -> bool {
    match dec.r {
        Some(rh) => {
            &&& pp.mu > 0
            &&& pp.e_mat is Some
            &&& rh@.len() == pp.mu
            &&& u.len() == pp.n
            &&& open_check_body(pp, f, cols_view(dec.s@), vv(dec.that@))
            &&& forall|i: int|
                0 <= i < pp.n ==> #[trigger] poly_sub_spec(
                    u[i],
                    mat_vec_spec(
                        mm(pp.b_mat),
                        pp.n as int,
                        pp.b_mat.cols as int,
                        vv(dec.that@),
                        pp.q.q as int,
                    )[i],
                    pp.q.q as int,
                ) == mat_vec_spec(
                    mm(pp.e_mat->Some_0),
                    pp.n as int,
                    pp.mu as int,
                    vv(rh@),
                    pp.q.q as int,
                )[i]
        },
        None => false,
    }
}

/// Hiding opening check; returns exactly `open_check_hiding_spec`.
pub fn open_check_hiding(
    pp: &CommitParams,
    u: &Vec<Poly>,
    f_cols: &Vec<Vec<Poly>>,
    dec: &Decommit,
) -> (res: bool)
    requires
        pp.wf(),
        f_cols_wf(*pp, cols_view(f_cols@)),
        polyvec_wf(vv(u@), pp.q.q as int),
        u@.len() == pp.n,
        polyvec_wf(vv(dec.that@), pp.q.q as int),
        forall|i: int|
            0 <= i < dec.s@.len() ==> polyvec_wf(vv((#[trigger] dec.s@[i])@), pp.q.q as int),
        dec.r matches Some(rh) ==> polyvec_wf(vv(rh@), pp.q.q as int),
    ensures
        res == open_check_hiding_spec(*pp, vv(u@), cols_view(f_cols@), *dec),
{
    let ghost qi = pp.q.q as int;
    if pp.mu == 0 {
        return false;
    }
    let e_mat = match &pp.e_mat {
        Some(e) => e,
        None => {
            return false;
        },
    };
    let rh = match &dec.r {
        Some(rh) => rh,
        None => {
            return false;
        },
    };
    if rh.len() != pp.mu {
        return false;
    }
    let plain_ok = open_check_core(pp, f_cols, &dec.s, &dec.that);
    if !plain_ok {
        return false;
    }
    let er = e_mat.mul_vec(rh, &pp.q);
    let bu = pp.b_mat.mul_vec(&dec.that, &pp.q);
    let mut i: usize = 0;
    while i < pp.n
        invariant
            i <= pp.n,
            pp.wf(),
            qi == pp.q.q as int,
            u@.len() == pp.n,
            polyvec_wf(vv(u@), qi),
            er@.len() == pp.n,
            polyvec_wf(vv(er@), qi),
            vv(er@) == mat_vec_spec(mm(*e_mat), pp.n as int, pp.mu as int, vv(rh@), qi),
            e_mat == pp.e_mat->Some_0,
            bu@.len() == pp.n,
            polyvec_wf(vv(bu@), qi),
            vv(bu@) == mat_vec_spec(
                mm(pp.b_mat),
                pp.n as int,
                pp.b_mat.cols as int,
                vv(dec.that@),
                qi,
            ),
            pp.mu > 0,
            pp.e_mat is Some,
            dec.r is Some,
            vv((dec.r->Some_0)@) == vv(rh@),
            rh@.len() == pp.mu,
            (dec.r->Some_0)@.len() == pp.mu,
            polyvec_wf(vv(rh@), qi),
            f_cols_wf(*pp, cols_view(f_cols@)),
            open_check_body(*pp, cols_view(f_cols@), cols_view(dec.s@), vv(dec.that@)),
            forall|j: int|
                0 <= j < i ==> #[trigger] poly_sub_spec(vv(u@)[j], vv(bu@)[j], qi) == vv(er@)[j],
        decreases pp.n - i,
    {
        proof {
            assert(vv(u@)[i as int] == u@[i as int]@);
            assert(vv(bu@)[i as int] == bu@[i as int]@);
            assert(vv(er@)[i as int] == er@[i as int]@);
        }
        let diff = u[i].sub(&bu[i], &pp.q);
        if !(diff == er[i]) {
            proof {
                assert(poly_sub_spec(vv(u@)[i as int], vv(bu@)[i as int], qi) == diff@);
                assert(diff@ != vv(er@)[i as int]);
            }
            return false;
        }
        i = i + 1;
    }
    true
}

/// Opening a freshly produced commitment always succeeds: completeness of
/// the commit/open pair, for any message grid, whenever the decomposition
/// bases cover the representative range of `q`.
pub proof fn lemma_commit_open_complete(
    pp: CommitParams,
    f: Seq<Seq<Seq<u32>>>,
    u: Seq<Seq<u32>>,
    dec_s: Seq<Seq<Seq<u32>>>,
    dec_that: Seq<Seq<u32>>,
)
    requires
        pp.wf(),
        covers(pp.q.q as int, pp.b0 as int, pp.delta0 as nat),
        covers(pp.q.q as int, pp.b1 as int, pp.delta1 as nat),
        f_cols_wf(pp, f),
        dec_s.len() == pp.r,
        forall|i: int| 0 <= i < pp.r ==> #[trigger] dec_s[i] == col_s_spec(pp, f[i]),
        dec_that.len() == pp.n * pp.delta1 * pp.r,
        forall|i: int|
            0 <= i < pp.r ==> dec_that.subrange(
                i * (pp.n * pp.delta1) as int,
                (i + 1) * (pp.n * pp.delta1) as int,
            ) == col_that_spec(pp, #[trigger] f[i]),
        u == mat_vec_spec(mm(pp.b_mat), pp.n as int, pp.b_mat.cols as int, dec_that, pp.q.q as int),
    ensures
        open_check_spec(pp, u, f, dec_s, dec_that, false),
{
    let qi = pp.q.q as int;
    assert forall|i: int| 0 <= i < pp.r implies (#[trigger] dec_s[i]).len() == pp.delta0
        * pp.m by {
        crate::gadget::lemma_bal_digits_len(0, pp.b0 as int, pp.delta0 as nat);
        assert(dec_s[i].len() == f[i].len() * pp.delta0);
        assert(f[i].len() == pp.m);
        assert(pp.m * pp.delta0 == pp.delta0 * pp.m) by (nonlinear_arith);
    }
    assert forall|i: int| 0 <= i < pp.r implies g_fwd_spec(
        #[trigger] dec_s[i],
        pp.m as int,
        pp.b0 as int,
        qi,
    ) == f[i] by {
        lemma_g_round_trip(f[i], pp.b0 as int, qi, pp.delta0 as nat);
    }
    assert forall|i: int| 0 <= i < pp.r implies g_fwd_spec(
        dec_that.subrange(i * (pp.n * pp.delta1) as int, (i + 1) * (pp.n * pp.delta1) as int),
        pp.n as int,
        pp.b1 as int,
        qi,
    ) == mat_vec_spec(mm(pp.a_mat), pp.n as int, pp.a_mat.cols as int, #[trigger] dec_s[i], qi) by {
        let ti = mat_vec_spec(mm(pp.a_mat), pp.n as int, pp.a_mat.cols as int, col_s_spec(pp, f[i]), qi);
        lemma_mat_vec_wf(mm(pp.a_mat), pp.n as int, pp.a_mat.cols as int, col_s_spec(pp, f[i]), qi);
        assert(ti.len() == pp.n);
        lemma_g_round_trip(ti, pp.b1 as int, qi, pp.delta1 as nat);
        assert(dec_that.subrange(
            i * (pp.n * pp.delta1) as int,
            (i + 1) * (pp.n * pp.delta1) as int,
        ) == g_inv_spec(ti, pp.b1 as int, qi, pp.delta1 as nat));
    }
}

/// Hiding completeness: the hiding opening accepts what the hiding
/// commitment produced, for any mask vector the generator returned.
pub proof fn lemma_commit_hiding_open_complete(
    pp: CommitParams,
    f: Seq<Seq<Seq<u32>>>,
    u: Seq<Seq<u32>>,
    dec: Decommit,
)
    requires
        pp.wf(),
        pp.mu > 0,
        pp.e_mat is Some,
        covers(pp.q.q as int, pp.b0 as int, pp.delta0 as nat),
        covers(pp.q.q as int, pp.b1 as int, pp.delta1 as nat),
        f_cols_wf(pp, f),
        cols_view(dec.s@).len() == pp.r,
        forall|i: int|
            0 <= i < pp.r ==> #[trigger] cols_view(dec.s@)[i] == col_s_spec(pp, f[i]),
        dec.that@.len() == pp.n * pp.delta1 * pp.r,
        polyvec_wf(vv(dec.that@), pp.q.q as int),
        forall|i: int|
            0 <= i < pp.r ==> vv(dec.that@).subrange(
                i * (pp.n * pp.delta1) as int,
                (i + 1) * (pp.n * pp.delta1) as int,
            ) == col_that_spec(pp, #[trigger] f[i]),
        dec.r matches Some(rh) && rh@.len() == pp.mu && polyvec_wf(vv(rh@), pp.q.q as int)
            && u.len() == pp.n && forall|i: int|
            0 <= i < pp.n ==> #[trigger] u[i] == poly_add_spec(
                mat_vec_spec(
                    mm(pp.b_mat),
                    pp.n as int,
                    pp.b_mat.cols as int,
                    vv(dec.that@),
                    pp.q.q as int,
                )[i],
                mat_vec_spec(
                    mm(pp.e_mat->Some_0),
                    pp.n as int,
                    pp.mu as int,
                    vv(rh@),
                    pp.q.q as int,
                )[i],
                pp.q.q as int,
            ),
    ensures
        open_check_hiding_spec(pp, u, f, dec),
{
    let qi = pp.q.q as int;
    let bt = mat_vec_spec(mm(pp.b_mat), pp.n as int, pp.b_mat.cols as int, vv(dec.that@), qi);
    let rh = dec.r->Some_0;
    let er = mat_vec_spec(mm(pp.e_mat->Some_0), pp.n as int, pp.mu as int, vv(rh@), qi);
    lemma_commit_open_complete(pp, f, bt, cols_view(dec.s@), vv(dec.that@));
    assert(open_check_body(pp, f, cols_view(dec.s@), vv(dec.that@)));
    assert forall|i: int| 0 <= i < pp.n implies #[trigger] poly_sub_spec(u[i], bt[i], qi)
        == er[i] by {
        lemma_mat_vec_wf(mm(pp.b_mat), pp.n as int, pp.b_mat.cols as int, vv(dec.that@), qi);
        lemma_mat_vec_wf(mm(pp.e_mat->Some_0), pp.n as int, pp.mu as int, vv(rh@), qi);
        lemma_poly_add_then_sub(bt[i], er[i], qi);
    }
}

/// `(a + b) - a == b` coefficient-wise mod `q`, for canonical `b`.
proof fn lemma_poly_add_then_sub(a: Seq<u32>, b: Seq<u32>, q: int)
    requires
        2 <= q <= 0x1_0000_0000,
        poly_wf(a, q),
        poly_wf(b, q),
    ensures
        poly_sub_spec(poly_add_spec(a, b, q), a, q) == b,
{
    let s = poly_add_spec(a, b, q);
    assert forall|i: int| 0 <= i < 64 implies poly_sub_spec(s, a, q)[i] == b[i] by {
        vstd::arithmetic::div_mod::lemma_mod_bound(a[i] + b[i], q);
        assert(s[i] as int == (a[i] + b[i]) % q);
        vstd::arithmetic::div_mod::lemma_sub_mod_noop(a[i] + b[i], a[i] as int, q);
        vstd::arithmetic::div_mod::lemma_small_mod(a[i] as nat, q as nat);
        vstd::arithmetic::div_mod::lemma_small_mod(b[i] as nat, q as nat);
        assert((s[i] - a[i]) % q == (a[i] + b[i] - a[i]) % q);
    }
    assert(poly_sub_spec(s, a, q) =~= b);
}

} // verus!
use vstd::prelude::*;

verus! {

use crate::ring::lemma_poly_mul_zero_left;
use crate::ring::lemma_poly_add_zero;

/// Extending a partial ring dot product over zero entries changes nothing.
pub proof fn lemma_row_dot_extend_zero(
    m: Seq<Seq<u32>>,
    cols: int,
    r: int,
    x: Seq<Seq<u32>>,
    k: int,
    kk: int,
    q: int,
)
    requires
        2 <= q <= 0x1_0000_0000,
        0 <= k <= kk,
        forall|c: int| k <= c < kk ==> #[trigger] m[r * cols + c] == poly_zero(),
    ensures
        row_dot(m, cols, r, x, kk, q) == row_dot(m, cols, r, x, k, q),
    decreases kk - k,
{
    if kk > k {
        lemma_row_dot_extend_zero(m, cols, r, x, k, kk - 1, q);
        lemma_poly_mul_zero_left(x[kk - 1], q);
        lemma_row_dot_wf(m, cols, r, x, kk - 1, q);
        lemma_poly_add_zero(row_dot(m, cols, r, x, kk - 1, q), q);
        assert(m[r * cols + (kk - 1)] == poly_zero());
    }
}

/// A partial dot product that starts at zero and walks a segment equal to
/// another matrix row equals that row's dot product.
pub proof fn lemma_row_dot_segment(
    m: Seq<Seq<u32>>,
    cols: int,
    r: int,
    x: Seq<Seq<u32>>,
    base: int,
    j: int,
    m2: Seq<Seq<u32>>,
    cols2: int,
    r2: int,
    x2: Seq<Seq<u32>>,
    q: int,
)
    requires
        2 <= q <= 0x1_0000_0000,
        0 <= base,
        0 <= j,
        row_dot(m, cols, r, x, base, q) == poly_zero(),
        forall|t: int|
            0 <= t < j ==> #[trigger] m[r * cols + (base + t)] == m2[r2 * cols2 + t] && x[base + t]
                == x2[t],
    ensures
        row_dot(m, cols, r, x, base + j, q) == row_dot(m2, cols2, r2, x2, j, q),
    decreases j,
{
    if j > 0 {
        lemma_row_dot_segment(m, cols, r, x, base, j - 1, m2, cols2, r2, x2, q);
        assert(m[r * cols + (base + (j - 1))] == m2[r2 * cols2 + (j - 1)]);
        assert(x[base + (j - 1)] == x2[j - 1]);
    }
}

} // verus!
