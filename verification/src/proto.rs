//! Assembly of the linear systems binding the commitment to the evaluation
//! claim. The non-hiding system has block rows
//! `[D | 0 | 0]`, `[0 | B | 0]`, `[b^T G | 0 | 0]`, `[c^T G | 0 | -a^T]`,
//! `[0 | c^T (x) G | -A]` over the witness `[what || that || z]`; the
//! hiding variant replaces the first block by `[D0 | D1 | E0]` and adds the
//! mask rows, with the challenge-dependent rows appended by the caller.

use vstd::prelude::*;

verus! {

use crate::ring::D;
use crate::ring::ModQ;
use crate::ring::Poly;
use crate::ring::poly_wf;
use crate::ring::poly_zero;
use crate::ring::poly_add_spec;
use crate::ring::poly_neg_spec;
use crate::ring::poly_mul_spec;
use crate::ring::mulq;
use crate::ring::vv;
use crate::ring::polyvec_wf;
use crate::ring::lemma_poly_zero_wf;
use crate::commit::MatrixRq;
use crate::commit::CommitParams;
use crate::commit::mm;
use crate::commit::cols_view;
use crate::transcript::Fs;
use vstd::arithmetic::div_mod::lemma_mod_bound;
use vstd::arithmetic::div_mod::lemma_small_mod;
use vstd::arithmetic::div_mod::lemma_fundamental_div_mod_converse_mod;
use vstd::arithmetic::div_mod::lemma_fundamental_div_mod_converse_div;

/// Parameters of the non-hiding system: the commitment parameters and the
/// auxiliary matrix `D` of shape `n x (delta1 * r)`.
pub struct ProtoParams {
    pub commit: CommitParams,
    pub d_mat: MatrixRq,
}

impl ProtoParams {
    pub open spec fn wf(self) -> bool {
        self.commit.wf() && self.d_mat.wf(self.commit.q.q as int) && self.d_mat.rows
            == self.commit.n && self.d_mat.cols == self.commit.delta1 * self.commit.r
    }

    /// The shape discipline the assembler depends on.
    pub fn ensure_dims(&self)
        requires
            self.wf(),
    {
    }
}

/// `b^j mod q`, accumulated the way the builders compute it.
pub open spec fn pow_mod(b: int, j: nat, q: int) -> int
    decreases j,
{
    if j == 0 {
        1
    } else {
        (pow_mod(b, (j - 1) as nat, q) * b) % q
    }
}

/// Scale every coefficient of `p` by the scalar `k` mod `q`.
pub open spec fn scale_spec(p: Seq<u32>, k: int, q: int) -> Seq<u32> {
    Seq::new(64, |t: int| mulq(p[t] as int, k, q) as u32)
}

/// Partial ring dot product `sum_{j < k} a[j] * x[j]`.
pub open spec fn dot_spec(a: Seq<Seq<u32>>, x: Seq<Seq<u32>>, k: int, q: int) -> Seq<u32>
    decreases k,
{
    if k <= 0 {
        poly_zero()
    } else {
        poly_add_spec(dot_spec(a, x, k - 1, q), poly_mul_spec(a[k - 1], x[k - 1], q), q)
    }
}

/// Entry `t` of the row `v^T G_{b,delta}`: position `i*delta + j` holds
/// `b^j * v_i`.
pub open spec fn row_g_entry(v: Seq<Seq<u32>>, b: int, delta: int, q: int, t: int) -> Seq<u32> {
    scale_spec(v[t / delta], pow_mod(b, (t % delta) as nat, q), q)
}

/// Entry `(row, col)` of the `n x (n*delta*|c|)` block `(c^T (x) G_{b,n})`:
/// decomposing `col = i*(n*delta) + rho*delta + j`, row `rho` holds
/// `b^j * c_i` and other rows hold zero.
pub open spec fn cotimes_entry(
    c: Seq<Seq<u32>>,
    n: int,
    delta: int,
    b: int,
    q: int,
    row: int,
    col: int,
) -> Seq<u32> {
    let i = col / (n * delta);
    let rem = col % (n * delta);
    let rho = rem / delta;
    let j = rem % delta;
    if rho == row {
        scale_spec(c[i], pow_mod(b, j as nat, q), q)
    } else {
        poly_zero()
    }
}

/// `w^T = a^T [s_1 | ... | s_r]`: entry `i` is the ring dot of `a` with
/// column `i` of the digit matrix.
pub fn compute_w(a: &Vec<Poly>, s: &Vec<Vec<Poly>>, q: &ModQ) -> (w: Vec<Poly>)
    requires
        q.wf(),
        polyvec_wf(vv(a@), q.q as int),
        forall|i: int|
            0 <= i < s@.len() ==> (#[trigger] s@[i])@.len() == a@.len() && polyvec_wf(
                vv(s@[i]@),
                q.q as int,
            ),
    ensures
        w@.len() == s@.len(),
        polyvec_wf(vv(w@), q.q as int),
        forall|i: int|
            0 <= i < s@.len() ==> vv(w@)[i] == dot_spec(
                vv(a@),
                vv(#[trigger] s@[i]@),
                a@.len() as int,
                q.q as int,
            ),
{
    let ghost qi = q.q as int;
    let rr = s.len();
    let alen = a.len();
    let mut w: Vec<Poly> = Vec::new();
    let mut i: usize = 0;
    while i < rr
        invariant
            i <= rr,
            rr == s@.len(),
            alen == a@.len(),
            q.wf(),
            qi == q.q as int,
            polyvec_wf(vv(a@), qi),
            forall|ii: int|
                0 <= ii < s@.len() ==> (#[trigger] s@[ii])@.len() == a@.len() && polyvec_wf(
                    vv(s@[ii]@),
                    qi,
                ),
            w@.len() == i,
            forall|ii: int|
                0 <= ii < i ==> (#[trigger] w@[ii]@) == dot_spec(
                    vv(a@),
                    vv(s@[ii]@),
                    alen as int,
                    qi,
                ) && poly_wf(w@[ii]@, qi),
        decreases rr - i,
    {
        let mut acc = Poly::zero();
        proof {
            lemma_poly_zero_wf(qi);
        }
        let mut j: usize = 0;
        while j < alen
            invariant
                j <= alen,
                i < rr,
                rr == s@.len(),
                alen == a@.len(),
                q.wf(),
                qi == q.q as int,
                polyvec_wf(vv(a@), qi),
                forall|ii: int|
                    0 <= ii < s@.len() ==> (#[trigger] s@[ii])@.len() == a@.len() && polyvec_wf(
                        vv(s@[ii]@),
                        qi,
                    ),
                poly_wf(acc@, qi),
                acc@ == dot_spec(vv(a@), vv(s@[i as int]@), j as int, qi),
            decreases alen - j,
        {
            proof {
                assert(vv(a@)[j as int] == a@[j as int]@);
                assert(vv(s@[i as int]@)[j as int] == s@[i as int]@[j as int]@);
            }
            let term = a[j].mul(&s[i][j], q);
            acc = acc.add(&term, q);
            j = j + 1;
        }
        w.push(acc);
        i = i + 1;
    }
    proof {
        assert forall|ii: int| 0 <= ii < vv(w@).len() implies #[trigger] vv(w@)[ii] == w@[ii]@ by {}
    }
    w
}

/// Entry `j` of `z = [s_1 | ... | s_r] c`: `sum_i s_i[j] * c_i`.
pub open spec fn z_entry(s: Seq<Vec<Poly>>, c: Seq<Seq<u32>>, j: int, k: int, q: int) -> Seq<u32>
    decreases k,
{
    if k <= 0 {
        poly_zero()
    } else {
        poly_add_spec(z_entry(s, c, j, k - 1, q), poly_mul_spec(vv(s[k - 1]@)[j], c[k - 1], q), q)
    }
}

/// As `z_entry`, over the deep views of the column digit vectors.
pub open spec fn z_entry_model(
    svv: Seq<Seq<Seq<u32>>>,
    c: Seq<Seq<u32>>,
    j: int,
    k: int,
    q: int,
) -> Seq<u32>
    decreases k,
{
    if k <= 0 {
        poly_zero()
    } else {
        poly_add_spec(z_entry_model(svv, c, j, k - 1, q), poly_mul_spec(svv[k - 1][j], c[k - 1], q), q)
    }
}

/// The two forms of the witness combination agree.
pub proof fn lemma_z_entry_model(s: Seq<Vec<Poly>>, c: Seq<Seq<u32>>, j: int, k: int, q: int)
    requires
        k <= s.len(),
    ensures
        z_entry(s, c, j, k, q) == z_entry_model(cols_view(s), c, j, k, q),
    decreases k,
{
    if k > 0 {
        lemma_z_entry_model(s, c, j, k - 1, q);
        if 0 <= k - 1 < s.len() {
            assert(cols_view(s)[k - 1] == vv(s[k - 1]@));
        }
    }
}

/// `z = [s_1 | ... | s_r] c`: the linear combination of the column digit
/// vectors by the challenge entries.
pub fn compute_z(s: &Vec<Vec<Poly>>, c: &Vec<Poly>, q: &ModQ) -> (z: Vec<Poly>)
    requires
        q.wf(),
        s@.len() == c@.len(),
        s@.len() >= 1,
        polyvec_wf(vv(c@), q.q as int),
        forall|i: int|
            0 <= i < s@.len() ==> (#[trigger] s@[i])@.len() == s@[0]@.len() && polyvec_wf(
                vv(s@[i]@),
                q.q as int,
            ),
    ensures
        z@.len() == s@[0]@.len(),
        polyvec_wf(vv(z@), q.q as int),
        forall|j: int|
            0 <= j < z@.len() ==> vv(z@)[j] == z_entry(s@, vv(c@), j, s@.len() as int, q.q as int),
{
    let ghost qi = q.q as int;
    let rr = s.len();
    let ell = s[0].len();
    let mut z: Vec<Poly> = Vec::new();
    let mut j: usize = 0;
    while j < ell
        invariant
            j <= ell,
            rr == s@.len(),
            rr >= 1,
            rr == c@.len(),
            ell == s@[0]@.len(),
            q.wf(),
            qi == q.q as int,
            polyvec_wf(vv(c@), qi),
            forall|i: int|
                0 <= i < s@.len() ==> (#[trigger] s@[i])@.len() == s@[0]@.len() && polyvec_wf(
                    vv(s@[i]@),
                    qi,
                ),
            z@.len() == j,
            forall|jj: int|
                0 <= jj < j ==> (#[trigger] z@[jj]@) == z_entry(s@, vv(c@), jj, rr as int, qi)
                    && poly_wf(z@[jj]@, qi),
        decreases ell - j,
    {
        let mut acc = Poly::zero();
        proof {
            lemma_poly_zero_wf(qi);
        }
        let mut i: usize = 0;
        while i < rr
            invariant
                i <= rr,
                j < ell,
                rr == s@.len(),
                rr == c@.len(),
                ell == s@[0]@.len(),
                q.wf(),
                qi == q.q as int,
                polyvec_wf(vv(c@), qi),
                forall|ii: int|
                    0 <= ii < s@.len() ==> (#[trigger] s@[ii])@.len() == s@[0]@.len() && polyvec_wf(
                        vv(s@[ii]@),
                        qi,
                    ),
                poly_wf(acc@, qi),
                acc@ == z_entry(s@, vv(c@), j as int, i as int, qi),
            decreases rr - i,
        {
            proof {
                assert(vv(s@[i as int]@)[j as int] == s@[i as int]@[j as int]@);
                assert(vv(c@)[i as int] == c@[i as int]@);
            }
            let term = s[i][j].mul(&c[i], q);
            acc = acc.add(&term, q);
            i = i + 1;
        }
        z.push(acc);
        j = j + 1;
    }
    proof {
        assert forall|jj: int| 0 <= jj < vv(z@).len() implies #[trigger] vv(z@)[jj] == z@[jj]@ by {}
    }
    z
}

/// Powers `b^j mod q` for `j < delta`.
fn pow_table(base: u32, delta: usize, q: &ModQ) -> (pows: Vec<u32>)
    requires
        q.wf(),
    ensures
        pows@.len() == delta,
        forall|j: int| 0 <= j < delta ==> (#[trigger] pows@[j]) < q.q,
        forall|j: int| 0 <= j < delta ==> (#[trigger] pows@[j]) as int == pow_mod(
            base as int,
            j as nat,
            q.q as int,
        ),
{
    let mut pows: Vec<u32> = Vec::new();
    let mut j: usize = 0;
    while j < delta
        invariant
            j <= delta,
            q.wf(),
            pows@.len() == j,
            forall|t: int| 0 <= t < j ==> (#[trigger] pows@[t]) < q.q,
            forall|t: int| 0 <= t < j ==> (#[trigger] pows@[t]) as int == pow_mod(
                base as int,
                t as nat,
                q.q as int,
            ),
        decreases delta - j,
    {
        if j == 0 {
            pows.push(1);
        } else {
            let prev = pows[j - 1];
            let next = q.mul(prev, base);
            pows.push(next);
        }
        j = j + 1;
    }
    pows
}

/// Scale a polynomial coefficient-wise by a scalar mod `q`.
fn poly_scale(p: &Poly, k: u32, q: &ModQ) -> (r: Poly)
    requires
        q.wf(),
        p@.len() == 64,
    ensures
        poly_wf(r@, q.q as int),
        r@ == scale_spec(p@, k as int, q.q as int),
{
    let mut c: Vec<u32> = Vec::new();
    let mut t: usize = 0;
    while t < D
        invariant
            t <= 64,
            q.wf(),
            p@.len() == 64,
            c@.len() == t,
            forall|u: int|
                0 <= u < t ==> (#[trigger] c@[u]) < q.q && c@[u] as int == mulq(
                    p@[u] as int,
                    k as int,
                    q.q as int,
                ),
        decreases 64 - t,
    {
        c.push(q.mul(p.c[t], k));
        t = t + 1;
    }
    let r = Poly { c };
    proof {
        assert(r@ =~= scale_spec(p@, k as int, q.q as int));
    }
    r
}

/// The row `v^T G_{b,delta}`: `delta * |v|` entries, position `i*delta + j`
/// holding `b^j * v_i`.
#[allow(non_snake_case)]
pub fn row_vec_times_G(vec: &Vec<Poly>, base: u32, delta: usize, q: &ModQ) -> (row: Vec<Poly>)
    requires
        q.wf(),
        delta >= 1,
        polyvec_wf(vv(vec@), q.q as int),
    ensures
        row@.len() == vec@.len() * delta,
        polyvec_wf(vv(row@), q.q as int),
        forall|t: int|
            0 <= t < row@.len() ==> vv(row@)[t] == row_g_entry(
                vv(vec@),
                base as int,
                delta as int,
                q.q as int,
                t,
            ),
{
    let ghost qi = q.q as int;
    let pows = pow_table(base, delta, q);
    let rlen = vec.len();
    let mut row: Vec<Poly> = Vec::new();
    let mut i: usize = 0;
    while i < rlen
        invariant
            i <= rlen,
            rlen == vec@.len(),
            q.wf(),
            qi == q.q as int,
            delta >= 1,
            polyvec_wf(vv(vec@), qi),
            pows@.len() == delta,
            forall|t: int| 0 <= t < delta ==> (#[trigger] pows@[t]) as int == pow_mod(
                base as int,
                t as nat,
                qi,
            ),
            row@.len() == i * delta,
            i * delta >= 0,
            forall|t: int|
                0 <= t < i * delta ==> #[trigger] vv(row@)[t] == row_g_entry(
                    vv(vec@),
                    base as int,
                    delta as int,
                    qi,
                    t,
                ) && poly_wf(vv(row@)[t], qi),
        decreases rlen - i,
    {
        proof {
            assert((i + 1) * delta == i * delta + delta && (i + 1) * delta <= rlen * delta)
                by (nonlinear_arith)
                requires
                    0 <= i < rlen,
                    delta >= 0,
            ;
        }
        let mut j: usize = 0;
        while j < delta
            invariant
                j <= delta,
                i < rlen,
                rlen == vec@.len(),
                q.wf(),
                qi == q.q as int,
                delta >= 1,
                polyvec_wf(vv(vec@), qi),
                pows@.len() == delta,
                forall|t: int| 0 <= t < delta ==> (#[trigger] pows@[t]) as int == pow_mod(
                    base as int,
                    t as nat,
                    qi,
                ),
                i * delta >= 0,
                i * delta + delta == (i + 1) * delta,
                row@.len() == i * delta + j,
                forall|t: int|
                    0 <= t < i * delta + j ==> #[trigger] vv(row@)[t] == row_g_entry(
                        vv(vec@),
                        base as int,
                        delta as int,
                        qi,
                        t,
                    ) && poly_wf(vv(row@)[t], qi),
            decreases delta - j,
        {
            proof {
                let t = i * delta + j;
                lemma_fundamental_div_mod_converse_mod(t as int, delta as int, i as int, j as int);
                lemma_fundamental_div_mod_converse_div(t as int, delta as int, i as int, j as int);
                assert(vv(vec@)[i as int] == vec@[i as int]@);
            }
            let p = poly_scale(&vec[i], pows[j], q);
            let ghost before = vv(row@);
            row.push(p);
            proof {
                assert(vv(row@) =~= before.push(p@));
            }
            j = j + 1;
        }
        i = i + 1;
    }
    proof {
        assert forall|t: int| 0 <= t < vv(row@).len() implies #[trigger] vv(row@)[t]
            == row@[t]@ by {}
    }
    row
}

/// The `n x (n*delta*|c|)` matrix `(c^T (x) G_{b,n})`, built entry by entry.
#[allow(non_snake_case)]
pub fn cotimes_G_block(c: &Vec<Poly>, n: usize, base: u32, delta: usize, q: &ModQ) -> (res:
    MatrixRq)
    requires
        q.wf(),
        n >= 1,
        delta >= 1,
        c@.len() >= 1,
        n * delta * c@.len() <= 0x1000_0000,
        polyvec_wf(vv(c@), q.q as int),
    ensures
        res.rows == n,
        res.cols == n * delta * c@.len(),
        res.wf(q.q as int),
        forall|row: int, col: int|
            0 <= row < n && 0 <= col < res.cols ==> #[trigger] mm(res)[row * (res.cols as int)
                + col] == cotimes_entry(
                vv(c@),
                n as int,
                delta as int,
                base as int,
                q.q as int,
                row,
                col,
            ),
{
    let ghost qi = q.q as int;
    let pows = pow_table(base, delta, q);
    let rr = c.len();
    proof {
        assert(n * delta * rr >= n * delta && n * delta >= delta && n * delta >= 1)
            by (nonlinear_arith)
            requires
                n >= 1,
                delta >= 1,
                rr >= 1,
        ;
    }
    let nd: usize = n * delta;
    let cols: usize = nd * rr;
    let mut data: Vec<Poly> = Vec::new();
    let mut row: usize = 0;
    while row < n
        invariant
            row <= n,
            rr == c@.len(),
            q.wf(),
            qi == q.q as int,
            n >= 1,
            delta >= 1,
            rr >= 1,
            nd == n * delta,
            cols == nd * rr,
            cols <= 0x1000_0000,
            polyvec_wf(vv(c@), qi),
            pows@.len() == delta,
            forall|t: int| 0 <= t < delta ==> (#[trigger] pows@[t]) as int == pow_mod(
                base as int,
                t as nat,
                qi,
            ),
            data@.len() == row * cols,
            row * cols >= 0,
            forall|t: int|
                0 <= t < row * cols ==> poly_wf(#[trigger] vv(data@)[t], qi) && vv(data@)[t]
                    == cotimes_entry(
                    vv(c@),
                    n as int,
                    delta as int,
                    base as int,
                    qi,
                    t / (cols as int),
                    t % (cols as int),
                ),
        decreases n - row,
    {
        proof {
            assert((row + 1) * cols == row * cols + cols && (row + 1) * cols <= n * cols)
                by (nonlinear_arith)
                requires
                    0 <= row < n,
                    cols >= 0,
            ;
        }
        let mut col: usize = 0;
        while col < cols
            invariant
                col <= cols,
                row < n,
                rr == c@.len(),
                q.wf(),
                qi == q.q as int,
                n >= 1,
                delta >= 1,
                rr >= 1,
                nd == n * delta,
                cols == nd * rr,
                cols <= 0x1000_0000,
                polyvec_wf(vv(c@), qi),
                pows@.len() == delta,
                forall|t: int| 0 <= t < delta ==> (#[trigger] pows@[t]) as int == pow_mod(
                    base as int,
                    t as nat,
                    qi,
                ),
                row * cols >= 0,
                row * cols + cols == (row + 1) * cols,
                data@.len() == row * cols + col,
                forall|t: int|
                    0 <= t < row * cols + col ==> poly_wf(#[trigger] vv(data@)[t], qi) && vv(
                    data@)[t] == cotimes_entry(
                        vv(c@),
                        n as int,
                        delta as int,
                        base as int,
                        qi,
                        t / (cols as int),
                        t % (cols as int),
                    ),
            decreases cols - col,
        {
            let i: usize = col / nd;
            let rem: usize = col % nd;
            let rho: usize = rem / delta;
            let j: usize = rem % delta;
            proof {
                vstd::arithmetic::div_mod::lemma_mod_bound(col as int, nd as int);
                vstd::arithmetic::div_mod::lemma_mod_bound(rem as int, delta as int);
                assert(col as int == nd as int * (col as int / (nd as int)) + col as int % (
                nd as int)) by {
                    vstd::arithmetic::div_mod::lemma_fundamental_div_mod(col as int, nd as int);
                }
                assert(i < rr) by (nonlinear_arith)
                    requires
                        i == col as int / (nd as int),
                        col < cols,
                        cols == nd * rr,
                        nd >= 1,
                        col as int == nd as int * (col as int / (nd as int)) + col as int % (
                        nd as int),
                        col as int % (nd as int) >= 0,
                ;
                let t = row * cols + col;
                lemma_fundamental_div_mod_converse_mod(t as int, cols as int, row as int,
                    col as int);
                lemma_fundamental_div_mod_converse_div(t as int, cols as int, row as int,
                    col as int);
                assert(vv(c@)[i as int] == c@[i as int]@);
            }
            let entry: Poly = if rho == row {
                poly_scale(&c[i], pows[j], q)
            } else {
                let z = Poly::zero();
                proof {
                    lemma_poly_zero_wf(qi);
                }
                z
            };
            let ghost before = vv(data@);
            data.push(entry);
            proof {
                assert(vv(data@) =~= before.push(entry@));
            }
            col = col + 1;
        }
        row = row + 1;
    }
    let res = MatrixRq { rows: n, cols, data };
    proof {
        assert(res.data@.len() == res.rows * res.cols) by (nonlinear_arith)
            requires
                res.data@.len() == n * cols,
                res.rows == n,
                res.cols == cols,
        ;
        assert forall|t: int| 0 <= t < mm(res).len() implies poly_wf(#[trigger] mm(res)[t], qi) by {
            assert(mm(res)[t] == data@[t]@);
        }
        assert forall|r2: int, c2: int|
            0 <= r2 < n && 0 <= c2 < res.cols implies #[trigger] mm(res)[r2 * (res.cols as int)
            + c2] == cotimes_entry(
            vv(c@),
            n as int,
            delta as int,
            base as int,
            qi,
            r2,
            c2,
        ) by {
            let t = r2 * (res.cols as int) + c2;
            assert(0 <= t < n * cols) by (nonlinear_arith)
                requires
                    0 <= r2 < n,
                    0 <= c2 < cols,
                    t == r2 * (cols as int) + c2,
            ;
            lemma_fundamental_div_mod_converse_mod(t, cols as int, r2, c2);
            lemma_fundamental_div_mod_converse_div(t, cols as int, r2, c2);
        }
    }
    res
}

} // verus!
use vstd::prelude::*;

verus! {

use crate::ring::monomial_spec;
use crate::gadget::g_inv_vec;
use crate::gadget::g_inv_spec;
use crate::commit::mat_vec_spec;

/// Entry `(row, col)` of the non-hiding system matrix, columns laid out as
/// `[what | that | z]`.
pub open spec fn eq3_entry(
    pp: CommitParams,
    dm: Seq<Seq<u32>>,
    a: Seq<Seq<u32>>,
    b: Seq<Seq<u32>>,
    c: Seq<Seq<u32>>,
    row: int,
    col: int,
) -> Seq<u32> {
    let n = pp.n as int;
    let d1r = pp.delta1 as int * pp.r as int;
    let ndr = n * pp.delta1 as int * pp.r as int;
    let d0m = pp.delta0 as int * pp.m as int;
    let off_t = d1r;
    let off_z = d1r + ndr;
    let q = pp.q.q as int;
    if row < n {
        if col < d1r {
            dm[row * d1r + col]
        } else {
            poly_zero()
        }
    } else if row < 2 * n {
        if off_t <= col < off_t + ndr {
            mm(pp.b_mat)[(row - n) * ndr + (col - off_t)]
        } else {
            poly_zero()
        }
    } else if row == 2 * n {
        if col < d1r {
            row_g_entry(b, pp.b1 as int, pp.delta1 as int, q, col)
        } else {
            poly_zero()
        }
    } else if row == 2 * n + 1 {
        if col < d1r {
            row_g_entry(c, pp.b1 as int, pp.delta1 as int, q, col)
        } else if col >= off_z {
            poly_neg_spec(a[col - off_z], q)
        } else {
            poly_zero()
        }
    } else {
        let rr = row - (2 * n + 2);
        if off_t <= col < off_t + ndr {
            cotimes_entry(c, n, pp.delta1 as int, pp.b1 as int, q, rr, col - off_t)
        } else if col >= off_z {
            poly_neg_spec(mm(pp.a_mat)[rr * d0m + (col - off_z)], q)
        } else {
            poly_zero()
        }
    }
}

/// Entry `row` of the right-hand side `[v ; u ; y ; 0 ; 0_n]`.
pub open spec fn eq3_rhs(
    pp: CommitParams,
    u: Seq<Seq<u32>>,
    v: Seq<Seq<u32>>,
    y: Seq<u32>,
    row: int,
) -> Seq<u32> {
    let n = pp.n as int;
    if row < n {
        v[row]
    } else if row < 2 * n {
        u[row - n]
    } else if row == 2 * n {
        y
    } else {
        poly_zero()
    }
}

/// Build the full non-hiding system `(P, h)`, entry by entry.
pub fn build_linear_system(
    params: &ProtoParams,
    a: &Vec<Poly>,
    b: &Vec<Poly>,
    u: &Vec<Poly>,
    v: &Vec<Poly>,
    y_rhs: &Poly,
    c: &Vec<Poly>,
) -> (res: (MatrixRq, Vec<Poly>))
    requires
        params.wf(),
        params.commit.a_mat.cols <= 0x100_0000,
        params.commit.b_mat.cols <= 0x100_0000,
        params.commit.n <= 0x1000,
        a@.len() == params.commit.a_mat.cols,
        b@.len() == params.commit.r,
        c@.len() == params.commit.r,
        u@.len() == params.commit.n,
        v@.len() == params.commit.n,
        polyvec_wf(vv(a@), params.commit.q.q as int),
        polyvec_wf(vv(b@), params.commit.q.q as int),
        polyvec_wf(vv(c@), params.commit.q.q as int),
        polyvec_wf(vv(u@), params.commit.q.q as int),
        polyvec_wf(vv(v@), params.commit.q.q as int),
        poly_wf(y_rhs@, params.commit.q.q as int),
    ensures
        res.0.rows == 3 * params.commit.n + 2,
        res.0.cols == params.commit.delta1 * params.commit.r + params.commit.n * params.commit.delta1
            * params.commit.r + params.commit.delta0 * params.commit.m,
        res.0.wf(params.commit.q.q as int),
        forall|row: int, col: int|
            0 <= row < res.0.rows && 0 <= col < res.0.cols ==> #[trigger] mm(res.0)[row * (
            res.0.cols as int) + col] == eq3_entry(
                params.commit,
                mm(params.d_mat),
                vv(a@),
                vv(b@),
                vv(c@),
                row,
                col,
            ),
        res.1@.len() == 3 * params.commit.n + 2,
        polyvec_wf(vv(res.1@), params.commit.q.q as int),
        forall|row: int|
            0 <= row < res.1@.len() ==> #[trigger] vv(res.1@)[row] == eq3_rhs(
                params.commit,
                vv(u@),
                vv(v@),
                y_rhs@,
                row,
            ),
{
    let pp = &params.commit;
    let ghost qi = pp.q.q as int;
    let n: usize = pp.n;
    proof {
        assert(pp.delta1 * pp.r <= pp.n * pp.delta1 * pp.r) by (nonlinear_arith)
            requires
                pp.n >= 1,
                pp.delta1 >= 0,
                pp.r >= 0,
        ;
        assert(pp.n * pp.delta1 * pp.r == pp.n * (pp.delta1 * pp.r)) by (nonlinear_arith);
    }
    let d1r: usize = pp.delta1 * pp.r;
    let ndr: usize = pp.b_mat.cols;
    let d0m: usize = pp.a_mat.cols;
    let off_t: usize = d1r;
    let off_z: usize = d1r + ndr;
    let cols: usize = off_z + d0m;
    let rows: usize = 3 * n + 2;
    let row_bg = row_vec_times_G(b, pp.b1, pp.delta1, q_of(pp));
    let row_cg = row_vec_times_G(c, pp.b1, pp.delta1, q_of(pp));
    let cblock = cotimes_G_block(c, n, pp.b1, pp.delta1, q_of(pp));
    proof {
        assert(row_bg@.len() == pp.r * pp.delta1);
        assert(pp.r * pp.delta1 == pp.delta1 * pp.r) by (nonlinear_arith);
        assert(cblock.cols == pp.n * pp.delta1 * pp.r) by (nonlinear_arith)
            requires
                cblock.cols == pp.n * pp.delta1 * (c@.len() as int),
                c@.len() == pp.r,
        ;
    }
    let mut data: Vec<Poly> = Vec::new();
    let mut row: usize = 0;
    while row < rows
        invariant
            row <= rows,
            params.wf(),
            qi == pp.q.q as int,
            pp == params.commit,
            n == pp.n,
            1 <= n <= 0x1000,
            d1r == pp.delta1 * pp.r,
            ndr == pp.b_mat.cols,
            ndr == pp.n * pp.delta1 * pp.r,
            d0m == pp.a_mat.cols,
            off_t == d1r,
            off_z == d1r + ndr,
            cols == off_z + d0m,
            rows == 3 * n + 2,
            a@.len() == d0m,
            b@.len() == pp.r,
            c@.len() == pp.r,
            polyvec_wf(vv(a@), qi),
            polyvec_wf(vv(c@), qi),
            row_bg@.len() == d1r,
            polyvec_wf(vv(row_bg@), qi),
            forall|t: int|
                0 <= t < d1r ==> #[trigger] vv(row_bg@)[t] == row_g_entry(
                    vv(b@),
                    pp.b1 as int,
                    pp.delta1 as int,
                    qi,
                    t,
                ),
            row_cg@.len() == d1r,
            polyvec_wf(vv(row_cg@), qi),
            forall|t: int|
                0 <= t < d1r ==> #[trigger] vv(row_cg@)[t] == row_g_entry(
                    vv(c@),
                    pp.b1 as int,
                    pp.delta1 as int,
                    qi,
                    t,
                ),
            cblock.rows == n,
            cblock.cols == ndr,
            cblock.wf(qi),
            forall|r2: int, c2: int|
                0 <= r2 < n && 0 <= c2 < ndr ==> #[trigger] mm(cblock)[r2 * (ndr as int) + c2]
                    == cotimes_entry(
                    vv(c@),
                    n as int,
                    pp.delta1 as int,
                    pp.b1 as int,
                    qi,
                    r2,
                    c2,
                ),
            data@.len() == row * cols,
            row * cols >= 0,
            forall|t: int|
                0 <= t < row * cols ==> poly_wf(#[trigger] vv(data@)[t], qi) && vv(data@)[t]
                    == eq3_entry(
                    params.commit,
                    mm(params.d_mat),
                    vv(a@),
                    vv(b@),
                    vv(c@),
                    t / (cols as int),
                    t % (cols as int),
                ),
        decreases rows - row,
    {
        proof {
            assert((row + 1) * cols == row * cols + cols && (row + 1) * cols <= rows * cols)
                by (nonlinear_arith)
                requires
                    0 <= row < rows,
                    cols >= 0,
            ;
        }
        let mut col: usize = 0;
        while col < cols
            invariant
                col <= cols,
                row < rows,
                params.wf(),
                qi == pp.q.q as int,
                pp == params.commit,
                n == pp.n,
                1 <= n <= 0x1000,
                d1r == pp.delta1 * pp.r,
                ndr == pp.b_mat.cols,
                ndr == pp.n * pp.delta1 * pp.r,
                d0m == pp.a_mat.cols,
                off_t == d1r,
                off_z == d1r + ndr,
                cols == off_z + d0m,
                rows == 3 * n + 2,
                a@.len() == d0m,
                b@.len() == pp.r,
                c@.len() == pp.r,
                polyvec_wf(vv(a@), qi),
                polyvec_wf(vv(c@), qi),
                row_bg@.len() == d1r,
                polyvec_wf(vv(row_bg@), qi),
                forall|t: int|
                    0 <= t < d1r ==> #[trigger] vv(row_bg@)[t] == row_g_entry(
                        vv(b@),
                        pp.b1 as int,
                        pp.delta1 as int,
                        qi,
                        t,
                    ),
                row_cg@.len() == d1r,
                polyvec_wf(vv(row_cg@), qi),
                forall|t: int|
                    0 <= t < d1r ==> #[trigger] vv(row_cg@)[t] == row_g_entry(
                        vv(c@),
                        pp.b1 as int,
                        pp.delta1 as int,
                        qi,
                        t,
                    ),
                cblock.rows == n,
                cblock.cols == ndr,
                cblock.wf(qi),
                forall|r2: int, c2: int|
                    0 <= r2 < n && 0 <= c2 < ndr ==> #[trigger] mm(cblock)[r2 * (ndr as int) + c2]
                        == cotimes_entry(
                        vv(c@),
                        n as int,
                        pp.delta1 as int,
                        pp.b1 as int,
                        qi,
                        r2,
                        c2,
                    ),
                row * cols >= 0,
                row * cols + cols == (row + 1) * cols,
                data@.len() == row * cols + col,
                forall|t: int|
                    0 <= t < row * cols + col ==> poly_wf(#[trigger] vv(data@)[t], qi) && vv(
                    data@)[t] == eq3_entry(
                        params.commit,
                        mm(params.d_mat),
                        vv(a@),
                        vv(b@),
                        vv(c@),
                        t / (cols as int),
                        t % (cols as int),
                    ),
            decreases cols - col,
        {
            let entry: Poly = if row < n {
                if col < d1r {
                    proof {
                        assert(0 <= row * d1r + col < n * d1r) by (nonlinear_arith)
                            requires
                                0 <= row < n,
                                0 <= col < d1r,
                        ;
                        assert(params.d_mat.data@.len() == n * d1r) by (nonlinear_arith)
                            requires
                                params.d_mat.data@.len() == params.d_mat.rows
                                    * params.d_mat.cols,
                                params.d_mat.rows == n,
                                params.d_mat.cols == d1r,
                        ;
                    }
                    params.d_mat.at(row, col).clone()
                } else {
                    Poly::zero()
                }
            } else if row < 2 * n {
                if off_t <= col && col < off_t + ndr {
                    proof {
                        assert(0 <= (row - n) * (ndr as int) + (col - off_t) < n * ndr)
                            by (nonlinear_arith)
                            requires
                                n <= row < 2 * n,
                                off_t <= col < off_t + ndr,
                        ;
                        assert(pp.b_mat.data@.len() == n * ndr) by (nonlinear_arith)
                            requires
                                pp.b_mat.data@.len() == pp.b_mat.rows * pp.b_mat.cols,
                                pp.b_mat.rows == n,
                                pp.b_mat.cols == ndr,
                        ;
                    }
                    pp.b_mat.at(row - n, col - off_t).clone()
                } else {
                    Poly::zero()
                }
            } else if row == 2 * n {
                if col < d1r {
                    proof {
                        assert(vv(row_bg@)[col as int] == row_bg@[col as int]@);
                    }
                    row_bg[col].clone()
                } else {
                    Poly::zero()
                }
            } else if row == 2 * n + 1 {
                if col < d1r {
                    proof {
                        assert(vv(row_cg@)[col as int] == row_cg@[col as int]@);
                    }
                    row_cg[col].clone()
                } else if col >= off_z {
                    proof {
                        assert(vv(a@)[col - off_z] == a@[col as int - off_z]@);
                    }
                    a[col - off_z].neg(q_of(pp))
                } else {
                    Poly::zero()
                }
            } else {
                let rr2 = row - (2 * n + 2);
                if off_t <= col && col < off_t + ndr {
                    proof {
                        assert(0 <= rr2 * (ndr as int) + (col - off_t) < n * ndr)
                            by (nonlinear_arith)
                            requires
                                0 <= rr2 < n,
                                off_t <= col < off_t + ndr,
                        ;
                        assert(pp.b_mat.data@.len() == n * ndr) by (nonlinear_arith)
                            requires
                                pp.b_mat.data@.len() == pp.b_mat.rows * pp.b_mat.cols,
                                pp.b_mat.rows == n,
                                pp.b_mat.cols == ndr,
                        ;
                    }
                    cblock.at(rr2, col - off_t).clone()
                } else if col >= off_z {
                    proof {
                        assert(0 <= rr2 * (d0m as int) + (col - off_z) < n * d0m)
                            by (nonlinear_arith)
                            requires
                                0 <= rr2 < n,
                                off_z <= col < off_z + d0m,
                        ;
                        assert(pp.a_mat.data@.len() == n * d0m) by (nonlinear_arith)
                            requires
                                pp.a_mat.data@.len() == pp.a_mat.rows * pp.a_mat.cols,
                                pp.a_mat.rows == n,
                                pp.a_mat.cols == d0m,
                        ;
                        assert(mm(pp.a_mat)[rr2 * (d0m as int) + (col - off_z)]
                            == pp.a_mat.data@[rr2 * (d0m as int) + (col as int - off_z)]@);
                    }
                    pp.a_mat.at(rr2, col - off_z).neg(q_of(pp))
                } else {
                    Poly::zero()
                }
            };
            proof {
                let t = row * cols + col;
                lemma_fundamental_div_mod_converse_mod(t as int, cols as int, row as int,
                    col as int);
                lemma_fundamental_div_mod_converse_div(t as int, cols as int, row as int,
                    col as int);
                lemma_poly_zero_wf(qi);
                assert(poly_wf(entry@, qi) && entry@ == eq3_entry(
                    params.commit,
                    mm(params.d_mat),
                    vv(a@),
                    vv(b@),
                    vv(c@),
                    row as int,
                    col as int,
                ));
            }
            let ghost before = vv(data@);
            data.push(entry);
            proof {
                assert(vv(data@) =~= before.push(entry@));
            }
            col = col + 1;
        }
        row = row + 1;
    }
    let p_mat = MatrixRq { rows, cols, data };
    proof {
        assert(p_mat.data@.len() == p_mat.rows * p_mat.cols) by (nonlinear_arith)
            requires
                p_mat.data@.len() == rows * cols,
                p_mat.rows == rows,
                p_mat.cols == cols,
        ;
        assert forall|t: int| 0 <= t < mm(p_mat).len() implies poly_wf(
            #[trigger] mm(p_mat)[t],
            qi,
        ) by {
            assert(mm(p_mat)[t] == data@[t]@);
        }
        assert forall|r2: int, c2: int|
            0 <= r2 < p_mat.rows && 0 <= c2 < p_mat.cols implies #[trigger] mm(p_mat)[r2 * (
        p_mat.cols as int) + c2] == eq3_entry(
            params.commit,
            mm(params.d_mat),
            vv(a@),
            vv(b@),
            vv(c@),
            r2,
            c2,
        ) by {
            let t = r2 * (p_mat.cols as int) + c2;
            assert(0 <= t < rows * cols) by (nonlinear_arith)
                requires
                    0 <= r2 < rows,
                    0 <= c2 < cols,
                    t == r2 * (cols as int) + c2,
            ;
            lemma_fundamental_div_mod_converse_mod(t, cols as int, r2, c2);
            lemma_fundamental_div_mod_converse_div(t, cols as int, r2, c2);
        }
    }
    // h = [v ; u ; y ; 0 ; 0_n]
    let mut h: Vec<Poly> = Vec::new();
    let mut k: usize = 0;
    while k < rows
        invariant
            k <= rows,
            params.wf(),
            qi == pp.q.q as int,
            pp == params.commit,
            n == pp.n,
            rows == 3 * n + 2,
            u@.len() == n,
            v@.len() == n,
            polyvec_wf(vv(u@), qi),
            polyvec_wf(vv(v@), qi),
            poly_wf(y_rhs@, qi),
            h@.len() == k,
            forall|t: int|
                0 <= t < k ==> poly_wf(#[trigger] vv(h@)[t], qi) && vv(h@)[t] == eq3_rhs(
                    params.commit,
                    vv(u@),
                    vv(v@),
                    y_rhs@,
                    t,
                ),
        decreases rows - k,
    {
        let e: Poly = if k < n {
            proof {
                assert(vv(v@)[k as int] == v@[k as int]@);
            }
            v[k].clone()
        } else if k < 2 * n {
            proof {
                assert(vv(u@)[k - n] == u@[k as int - n]@);
            }
            u[k - n].clone()
        } else if k == 2 * n {
            y_rhs.clone()
        } else {
            let z = Poly::zero();
            proof {
                lemma_poly_zero_wf(qi);
            }
            z
        };
        let ghost before = vv(h@);
        h.push(e);
        proof {
            assert(vv(h@) =~= before.push(e@));
        }
        k = k + 1;
    }
    (p_mat, h)
}

/// Borrow the modulus out of the parameters.
fn q_of(pp: &CommitParams) -> (r: &ModQ)
    ensures
        r == pp.q,
{
    &pp.q
}

/// `what = G^{-1}_{b1,r}(w)` and `v = D * what`.
pub fn derive_w_hat_and_v(pp: &CommitParams, dmat: &MatrixRq, w: &Vec<Poly>) -> (res: (
    Vec<Poly>,
    Vec<Poly>,
))
    requires
        pp.wf(),
        dmat.wf(pp.q.q as int),
        dmat.cols == w@.len() * pp.delta1,
        polyvec_wf(vv(w@), pp.q.q as int),
    ensures
        vv(res.0@) == g_inv_spec(vv(w@), pp.b1 as int, pp.q.q as int, pp.delta1 as nat),
        res.0@.len() == w@.len() * pp.delta1,
        polyvec_wf(vv(res.0@), pp.q.q as int),
        res.1@.len() == dmat.rows,
        polyvec_wf(vv(res.1@), pp.q.q as int),
        vv(res.1@) == mat_vec_spec(
            mm(*dmat),
            dmat.rows as int,
            dmat.cols as int,
            vv(res.0@),
            pp.q.q as int,
        ),
{
    let what = g_inv_vec(w, pp.b1, &pp.q);
    let v = dmat.mul_vec(&what, &pp.q);
    (what, v)
}

/// The paper's challenge shape at ring dimension 64: 32 entries of
/// magnitude 1 and 8 of magnitude 2, a deterministic function of the
/// transcript's bytes.
pub fn sample_challenge(fs: &Fs, pp: &CommitParams) -> (c: Vec<Poly>)
    requires
        pp.wf(),
        pp.r <= 1024,
    ensures
        c@.len() == pp.r,
        polyvec_wf(vv(c@), pp.q.q as int),
        vv(c@) == crate::transcript::challenge_vec_spec(fs@, pp.r as nat, pp.q.q as int, 32, 8),
{
    fs.challenge_vec(pp.r, &pp.q, 32, 8)
}

} // verus!
use vstd::prelude::*;

verus! {

/// Builders of the hiding system's first block `[D0 | D1 | E0]` and the
/// mask rows.
pub struct HvzkBuilders {
    pub pp: CommitParams,
    pub d0_mat: MatrixRq,
    pub d1_mat: MatrixRq,
    pub e0_mat: MatrixRq,
    pub l: usize,
}

impl HvzkBuilders {
    pub open spec fn wf(self) -> bool {
        &&& self.pp.wf()
        &&& self.pp.mu > 0
        &&& self.pp.e_mat is Some
        &&& self.l >= 1
        &&& self.l <= 0x1000
        &&& self.d0_mat.wf(self.pp.q.q as int)
        &&& self.d0_mat.rows == self.pp.n
        &&& self.d0_mat.cols == self.pp.delta1 * self.pp.r
        &&& self.d1_mat.wf(self.pp.q.q as int)
        &&& self.d1_mat.rows == self.pp.n
        &&& self.d1_mat.cols == self.pp.delta1 * self.l
        &&& self.e0_mat.wf(self.pp.q.q as int)
        &&& self.e0_mat.rows == self.pp.n
        &&& self.e0_mat.cols <= 0x10_0000
        &&& self.pp.a_mat.cols <= 0x100_0000
        &&& self.pp.b_mat.cols <= 0x100_0000
        &&& self.pp.n <= 0x1000
        &&& self.pp.mu <= 0x10_0000
    }
}

/// The public inputs of the hiding system.
pub struct HvzkPublic {
    pub a: Vec<Poly>,
    pub b: Vec<Poly>,
    pub u: Vec<Poly>,
    pub v: Vec<Poly>,
    pub j: Vec<Poly>,
    pub alpha: Vec<u32>,
    pub sigma_inv_x: Poly,
}

/// Entry `(row, col)` of the hiding system's first `2n + L` rows, columns
/// laid out as `[what | lhat | rv | that | rh | z]`; the last `1 + n` rows
/// are left zero for the caller to fill with the challenge-dependent
/// blocks.
pub open spec fn eq14_entry(
    bld: HvzkBuilders,
    alpha: Seq<u32>,
    sigb: Seq<Seq<u32>>,
    row: int,
    col: int,
) -> Seq<u32> {
    let pp = bld.pp;
    let n = pp.n as int;
    let q = pp.q.q as int;
    let delta1 = pp.delta1 as int;
    let d1r = delta1 * pp.r as int;
    let ndr = n * delta1 * pp.r as int;
    let lw = delta1 * bld.l as int;
    let off_l = d1r;
    let off_rv = off_l + lw;
    let off_t = off_rv + bld.e0_mat.cols as int;
    let off_r = off_t + ndr;
    let off_z = off_r + pp.mu as int;
    if row < n {
        if col < off_l {
            mm(bld.d0_mat)[row * d1r + col]
        } else if col < off_rv {
            mm(bld.d1_mat)[row * lw + (col - off_l)]
        } else if col < off_t {
            mm(bld.e0_mat)[row * (bld.e0_mat.cols as int) + (col - off_rv)]
        } else {
            poly_zero()
        }
    } else if row < 2 * n {
        if off_t <= col < off_r {
            mm(pp.b_mat)[(row - n) * ndr + (col - off_t)]
        } else if off_r <= col < off_z {
            mm(pp.e_mat->Some_0)[(row - n) * (pp.mu as int) + (col - off_r)]
        } else {
            poly_zero()
        }
    } else if row < 2 * n + bld.l {
        let i = row - 2 * n;
        if col < off_l {
            scale_spec(row_g_entry(sigb, pp.b1 as int, delta1, q, col), alpha[i] as int, q)
        } else if col < off_rv {
            let lcol = col - off_l;
            if lcol / delta1 == i {
                crate::ring::monomial_spec(0, (pow_mod(pp.b1 as int, (lcol % delta1) as nat, q) % q) as u32)
            } else {
                poly_zero()
            }
        } else {
            poly_zero()
        }
    } else {
        poly_zero()
    }
}

/// Right-hand side of the first `2n + L` rows: `[v ; u ; j]`.
pub open spec fn eq14_rhs(bld: HvzkBuilders, u: Seq<Seq<u32>>, v: Seq<Seq<u32>>, jv: Seq<Seq<u32>>, row: int) -> Seq<u32> {
    let n = bld.pp.n as int;
    if row < n {
        v[row]
    } else if row < 2 * n {
        u[row - n]
    } else {
        jv[row - 2 * n]
    }
}

/// Assemble the hiding system's generic part: the first `2n + L` rows of
/// `P` (with `1 + n` zero rows below, for the caller's challenge blocks)
/// and the right-hand side `[v ; u ; j]`.
pub fn build_eq14(bld: &HvzkBuilders, q: &ModQ, pubin: &HvzkPublic) -> (res: (MatrixRq, Vec<Poly>))
    requires
        bld.wf(),
        q == bld.pp.q,
        pubin.b@.len() == bld.pp.r,
        pubin.u@.len() == bld.pp.n,
        pubin.v@.len() == bld.pp.n,
        pubin.j@.len() == bld.l,
        pubin.alpha@.len() == bld.l,
        forall|i: int| 0 <= i < bld.l ==> (#[trigger] pubin.alpha@[i]) < bld.pp.q.q,
        polyvec_wf(vv(pubin.b@), bld.pp.q.q as int),
        polyvec_wf(vv(pubin.u@), bld.pp.q.q as int),
        polyvec_wf(vv(pubin.v@), bld.pp.q.q as int),
        polyvec_wf(vv(pubin.j@), bld.pp.q.q as int),
        poly_wf(pubin.sigma_inv_x@, bld.pp.q.q as int),
    ensures
        res.0.rows == 3 * bld.pp.n + bld.l + 1,
        res.0.cols == bld.pp.delta1 * bld.pp.r + bld.pp.delta1 * bld.l + bld.e0_mat.cols + bld.pp.n
            * bld.pp.delta1 * bld.pp.r + bld.pp.mu + bld.pp.delta0 * bld.pp.m,
        res.0.wf(bld.pp.q.q as int),
        forall|row: int, col: int|
            0 <= row < res.0.rows && 0 <= col < res.0.cols ==> #[trigger] mm(res.0)[row * (
            res.0.cols as int) + col] == eq14_entry(
                *bld,
                pubin.alpha@,
                Seq::new(bld.pp.r as nat, |i: int| poly_mul_spec(pubin.sigma_inv_x@, vv(pubin.b@)[i], bld.pp.q.q as int)),
                row,
                col,
            ),
        res.1@.len() == 2 * bld.pp.n + bld.l,
        polyvec_wf(vv(res.1@), bld.pp.q.q as int),
        forall|row: int|
            0 <= row < res.1@.len() ==> #[trigger] vv(res.1@)[row] == eq14_rhs(
                *bld,
                vv(pubin.u@),
                vv(pubin.v@),
                vv(pubin.j@),
                row,
            ),
{
    let pp = &bld.pp;
    let ghost qi = pp.q.q as int;
    let n: usize = pp.n;
    proof {
        assert(pp.delta1 * pp.r <= pp.n * pp.delta1 * pp.r && pp.n * pp.delta1 * pp.r == pp.n * (
        pp.delta1 * pp.r)) by (nonlinear_arith)
            requires
                pp.n >= 1,
                pp.delta1 >= 0,
                pp.r >= 0,
        ;
        assert(pp.delta1 <= 32) by {
            crate::gadget::lemma_digits_spec_bound(qi, pp.b1 as int);
        }
        assert(pp.delta1 * bld.l <= 32 * 0x1000) by (nonlinear_arith)
            requires
                pp.delta1 <= 32,
                bld.l <= 0x1000,
        ;
    }
    let d1r: usize = pp.delta1 * pp.r;
    let lw: usize = pp.delta1 * bld.l;
    let ndr: usize = pp.b_mat.cols;
    let d0m: usize = pp.a_mat.cols;
    let off_l: usize = d1r;
    let off_rv: usize = off_l + lw;
    let off_t: usize = off_rv + bld.e0_mat.cols;
    let off_r: usize = off_t + ndr;
    let off_z: usize = off_r + pp.mu;
    let cols: usize = off_z + d0m;
    let rows: usize = 3 * n + bld.l + 1;
    // sigb = sigma_inv(xbar) * b, and its gadget row
    let mut sigb: Vec<Poly> = Vec::new();
    let mut t0: usize = 0;
    while t0 < pp.r
        invariant
            t0 <= pp.r,
            pubin.b@.len() == pp.r,
            pp == bld.pp,
            pp.q.wf(),
            qi == pp.q.q as int,
            polyvec_wf(vv(pubin.b@), qi),
            poly_wf(pubin.sigma_inv_x@, qi),
            sigb@.len() == t0,
            forall|i: int|
                0 <= i < t0 ==> (#[trigger] sigb@[i]@) == poly_mul_spec(
                    pubin.sigma_inv_x@,
                    vv(pubin.b@)[i],
                    qi,
                ) && poly_wf(sigb@[i]@, qi),
        decreases pp.r - t0,
    {
        proof {
            assert(vv(pubin.b@)[t0 as int] == pubin.b@[t0 as int]@);
        }
        sigb.push(pubin.sigma_inv_x.mul(&pubin.b[t0], &pp.q));
        t0 = t0 + 1;
    }
    let ghost sigbv = Seq::new(
        pp.r as nat,
        |i: int| poly_mul_spec(pubin.sigma_inv_x@, vv(pubin.b@)[i], qi),
    );
    proof {
        assert forall|i: int| 0 <= i < pp.r implies #[trigger] vv(sigb@)[i] == sigbv[i] by {
            assert(vv(sigb@)[i] == sigb@[i]@);
        }
        assert(vv(sigb@) =~= sigbv);
    }
    let sigbg = row_vec_times_G(&sigb, pp.b1, pp.delta1, &pp.q);
    proof {
        assert(pp.r * pp.delta1 == pp.delta1 * pp.r) by (nonlinear_arith);
        assert forall|t: int| 0 <= t < d1r implies #[trigger] vv(sigbg@)[t] == row_g_entry(
            sigbv,
            pp.b1 as int,
            pp.delta1 as int,
            qi,
            t,
        ) by {
            assert(vv(sigbg@)[t] == row_g_entry(vv(sigb@), pp.b1 as int, pp.delta1 as int, qi, t));
        }
    }
    let pows = pow_table(pp.b1, pp.delta1, &pp.q);
    let mut data: Vec<Poly> = Vec::new();
    let mut row: usize = 0;
    while row < rows
        invariant
            row <= rows,
            bld.wf(),
            pp == bld.pp,
            qi == pp.q.q as int,
            n == pp.n,
            1 <= n <= 0x1000,
            d1r == pp.delta1 * pp.r,
            lw == pp.delta1 * bld.l,
            ndr == pp.b_mat.cols,
            ndr == pp.n * pp.delta1 * pp.r,
            d0m == pp.a_mat.cols,
            off_l == d1r,
            off_rv == off_l + lw,
            off_t == off_rv + bld.e0_mat.cols,
            off_r == off_t + ndr,
            off_z == off_r + pp.mu,
            cols == off_z + d0m,
            rows == 3 * n + bld.l + 1,
            pubin.alpha@.len() == bld.l,
            forall|i: int| 0 <= i < bld.l ==> (#[trigger] pubin.alpha@[i]) < pp.q.q,
            sigbv == Seq::new(
                pp.r as nat,
                |i: int| poly_mul_spec(pubin.sigma_inv_x@, vv(pubin.b@)[i], qi),
            ),
            sigbg@.len() == d1r,
            polyvec_wf(vv(sigbg@), qi),
            forall|t: int|
                0 <= t < d1r ==> #[trigger] vv(sigbg@)[t] == row_g_entry(
                    sigbv,
                    pp.b1 as int,
                    pp.delta1 as int,
                    qi,
                    t,
                ),
            pows@.len() == pp.delta1,
            forall|t: int| 0 <= t < pp.delta1 ==> (#[trigger] pows@[t]) < pp.q.q && pows@[t] as int
                == pow_mod(pp.b1 as int, t as nat, qi),
            data@.len() == row * cols,
            row * cols >= 0,
            forall|t: int|
                0 <= t < row * cols ==> poly_wf(#[trigger] vv(data@)[t], qi) && vv(data@)[t]
                    == eq14_entry(*bld, pubin.alpha@, sigbv, t / (cols as int), t % (cols as int)),
        decreases rows - row,
    {
        proof {
            assert((row + 1) * cols == row * cols + cols && (row + 1) * cols <= rows * cols)
                by (nonlinear_arith)
                requires
                    0 <= row < rows,
                    cols >= 0,
            ;
        }
        let mut col: usize = 0;
        while col < cols
            invariant
                col <= cols,
                row < rows,
                bld.wf(),
                pp == bld.pp,
                qi == pp.q.q as int,
                n == pp.n,
                1 <= n <= 0x1000,
                d1r == pp.delta1 * pp.r,
                lw == pp.delta1 * bld.l,
                ndr == pp.b_mat.cols,
                ndr == pp.n * pp.delta1 * pp.r,
                d0m == pp.a_mat.cols,
                off_l == d1r,
                off_rv == off_l + lw,
                off_t == off_rv + bld.e0_mat.cols,
                off_r == off_t + ndr,
                off_z == off_r + pp.mu,
                cols == off_z + d0m,
                rows == 3 * n + bld.l + 1,
                pubin.alpha@.len() == bld.l,
                forall|i: int| 0 <= i < bld.l ==> (#[trigger] pubin.alpha@[i]) < pp.q.q,
                sigbv == Seq::new(
                    pp.r as nat,
                    |i: int| poly_mul_spec(pubin.sigma_inv_x@, vv(pubin.b@)[i], qi),
                ),
                sigbg@.len() == d1r,
                polyvec_wf(vv(sigbg@), qi),
                forall|t: int|
                    0 <= t < d1r ==> #[trigger] vv(sigbg@)[t] == row_g_entry(
                        sigbv,
                        pp.b1 as int,
                        pp.delta1 as int,
                        qi,
                        t,
                    ),
                pows@.len() == pp.delta1,
                forall|t: int| 0 <= t < pp.delta1 ==> (#[trigger] pows@[t]) < pp.q.q && pows@[t]
                    as int == pow_mod(pp.b1 as int, t as nat, qi),
                row * cols >= 0,
                row * cols + cols == (row + 1) * cols,
                data@.len() == row * cols + col,
                forall|t: int|
                    0 <= t < row * cols + col ==> poly_wf(#[trigger] vv(data@)[t], qi) && vv(
                    data@)[t] == eq14_entry(
                        *bld,
                        pubin.alpha@,
                        sigbv,
                        t / (cols as int),
                        t % (cols as int),
                    ),
            decreases cols - col,
        {
            let entry: Poly = if row < n {
                if col < off_l {
                    proof {
                        assert(0 <= row * d1r + col < n * d1r) by (nonlinear_arith)
                            requires
                                0 <= row < n,
                                0 <= col < d1r,
                        ;
                        assert(bld.d0_mat.data@.len() == n * d1r) by (nonlinear_arith)
                            requires
                                bld.d0_mat.data@.len() == bld.d0_mat.rows * bld.d0_mat.cols,
                                bld.d0_mat.rows == n,
                                bld.d0_mat.cols == d1r,
                        ;
                    }
                    bld.d0_mat.at(row, col).clone()
                } else if col < off_rv {
                    proof {
                        assert(0 <= row * lw + (col - off_l) < n * lw) by (nonlinear_arith)
                            requires
                                0 <= row < n,
                                off_l <= col < off_l + lw,
                        ;
                        assert(bld.d1_mat.data@.len() == n * lw) by (nonlinear_arith)
                            requires
                                bld.d1_mat.data@.len() == bld.d1_mat.rows * bld.d1_mat.cols,
                                bld.d1_mat.rows == n,
                                bld.d1_mat.cols == lw,
                        ;
                    }
                    bld.d1_mat.at(row, col - off_l).clone()
                } else if col < off_t {
                    proof {
                        assert(0 <= row * (bld.e0_mat.cols as int) + (col - off_rv) < n * (
                        bld.e0_mat.cols as int)) by (nonlinear_arith)
                            requires
                                0 <= row < n,
                                off_rv <= col < off_rv + bld.e0_mat.cols,
                        ;
                        assert(bld.e0_mat.data@.len() == n * bld.e0_mat.cols) by (nonlinear_arith)
                            requires
                                bld.e0_mat.data@.len() == bld.e0_mat.rows * bld.e0_mat.cols,
                                bld.e0_mat.rows == n,
                        ;
                    }
                    bld.e0_mat.at(row, col - off_rv).clone()
                } else {
                    Poly::zero()
                }
            } else if row < 2 * n {
                if off_t <= col && col < off_r {
                    proof {
                        assert(0 <= (row - n) * (ndr as int) + (col - off_t) < n * ndr)
                            by (nonlinear_arith)
                            requires
                                n <= row < 2 * n,
                                off_t <= col < off_t + ndr,
                        ;
                        assert(pp.b_mat.data@.len() == n * ndr) by (nonlinear_arith)
                            requires
                                pp.b_mat.data@.len() == pp.b_mat.rows * pp.b_mat.cols,
                                pp.b_mat.rows == n,
                                pp.b_mat.cols == ndr,
                        ;
                    }
                    pp.b_mat.at(row - n, col - off_t).clone()
                } else if off_r <= col && col < off_z {
                    let e_mat = match &pp.e_mat {
                        Some(e) => e,
                        None => {
                            proof {
                                assert(false);
                            }
                            &pp.b_mat
                        },
                    };
                    proof {
                        assert(0 <= (row - n) * (pp.mu as int) + (col - off_r) < n * (pp.mu as int))
                            by (nonlinear_arith)
                            requires
                                n <= row < 2 * n,
                                off_r <= col < off_r + pp.mu,
                        ;
                        assert(e_mat.data@.len() == n * pp.mu) by (nonlinear_arith)
                            requires
                                e_mat.data@.len() == e_mat.rows * e_mat.cols,
                                e_mat.rows == n,
                                e_mat.cols == pp.mu,
                        ;
                    }
                    e_mat.at(row - n, col - off_r).clone()
                } else {
                    Poly::zero()
                }
            } else if row < 2 * n + bld.l {
                let i = row - 2 * n;
                if col < off_l {
                    proof {
                        assert(vv(sigbg@)[col as int] == sigbg@[col as int]@);
                    }
                    poly_scale(&sigbg[col], pubin.alpha[i], &pp.q)
                } else if col < off_rv {
                    let lcol = col - off_l;
                    let islot = lcol / pp.delta1;
                    let jdig = lcol % pp.delta1;
                    proof {
                        vstd::arithmetic::div_mod::lemma_mod_bound(lcol as int, pp.delta1 as int);
                    }
                    if islot == i {
                        let mono = Poly::monomial(0, pows[jdig], &pp.q);
                        proof {
                            lemma_small_mod(pows@[jdig as int] as nat, qi as nat);
                            assert(mono@ =~= crate::ring::monomial_spec(
                                0,
                                (pow_mod(pp.b1 as int, (lcol as int % (pp.delta1 as int)) as nat, qi)
                                    % qi) as u32,
                            ));
                        }
                        mono
                    } else {
                        Poly::zero()
                    }
                } else {
                    Poly::zero()
                }
            } else {
                Poly::zero()
            };
            proof {
                let t = row * cols + col;
                lemma_fundamental_div_mod_converse_mod(t as int, cols as int, row as int,
                    col as int);
                lemma_fundamental_div_mod_converse_div(t as int, cols as int, row as int,
                    col as int);
                crate::ring::lemma_poly_zero_wf(qi);
                if 2 * n <= row && row < 2 * n + bld.l && col < off_l {
                    let sc = scale_spec(
                        row_g_entry(sigbv, pp.b1 as int, pp.delta1 as int, qi, col as int),
                        pubin.alpha@[row - 2 * n] as int,
                        qi,
                    );
                    assert(poly_wf(sc, qi)) by {
                        assert forall|u2: int| 0 <= u2 < 64 implies (#[trigger] sc[u2] as int)
                            < qi by {
                            lemma_mod_bound(
                                (row_g_entry(sigbv, pp.b1 as int, pp.delta1 as int, qi, col as int)[
                                u2] as int) * (pubin.alpha@[row - 2 * n] as int),
                                qi,
                            );
                        }
                    }
                }
                assert(poly_wf(entry@, qi) && entry@ == eq14_entry(
                    *bld,
                    pubin.alpha@,
                    sigbv,
                    row as int,
                    col as int,
                ));
            }
            let ghost before = vv(data@);
            data.push(entry);
            proof {
                assert(vv(data@) =~= before.push(entry@));
            }
            col = col + 1;
        }
        row = row + 1;
    }
    let p_mat = MatrixRq { rows, cols, data };
    proof {
        assert(p_mat.data@.len() == p_mat.rows * p_mat.cols) by (nonlinear_arith)
            requires
                p_mat.data@.len() == rows * cols,
                p_mat.rows == rows,
                p_mat.cols == cols,
        ;
        assert forall|t: int| 0 <= t < mm(p_mat).len() implies poly_wf(
            #[trigger] mm(p_mat)[t],
            qi,
        ) by {
            assert(mm(p_mat)[t] == data@[t]@);
        }
        assert forall|r2: int, c2: int|
            0 <= r2 < p_mat.rows && 0 <= c2 < p_mat.cols implies #[trigger] mm(p_mat)[r2 * (
        p_mat.cols as int) + c2] == eq14_entry(*bld, pubin.alpha@, sigbv, r2, c2) by {
            let t = r2 * (p_mat.cols as int) + c2;
            assert(0 <= t < rows * cols) by (nonlinear_arith)
                requires
                    0 <= r2 < rows,
                    0 <= c2 < cols,
                    t == r2 * (cols as int) + c2,
            ;
            lemma_fundamental_div_mod_converse_mod(t, cols as int, r2, c2);
            lemma_fundamental_div_mod_converse_div(t, cols as int, r2, c2);
        }
    }
    // h = [v ; u ; j]
    let hrows: usize = 2 * n + bld.l;
    let mut h: Vec<Poly> = Vec::new();
    let mut k: usize = 0;
    while k < hrows
        invariant
            k <= hrows,
            bld.wf(),
            pp == bld.pp,
            qi == pp.q.q as int,
            n == pp.n,
            hrows == 2 * n + bld.l,
            pubin.u@.len() == n,
            pubin.v@.len() == n,
            pubin.j@.len() == bld.l,
            polyvec_wf(vv(pubin.u@), qi),
            polyvec_wf(vv(pubin.v@), qi),
            polyvec_wf(vv(pubin.j@), qi),
            h@.len() == k,
            forall|t: int|
                0 <= t < k ==> poly_wf(#[trigger] vv(h@)[t], qi) && vv(h@)[t] == eq14_rhs(
                    *bld,
                    vv(pubin.u@),
                    vv(pubin.v@),
                    vv(pubin.j@),
                    t,
                ),
        decreases hrows - k,
    {
        let e: Poly = if k < n {
            proof {
                assert(vv(pubin.v@)[k as int] == pubin.v@[k as int]@);
            }
            pubin.v[k].clone()
        } else if k < 2 * n {
            proof {
                assert(vv(pubin.u@)[k - n] == pubin.u@[k as int - n]@);
            }
            pubin.u[k - n].clone()
        } else {
            proof {
                assert(vv(pubin.j@)[k - 2 * n] == pubin.j@[k as int - 2 * n]@);
            }
            pubin.j[k - 2 * n].clone()
        };
        let ghost before = vv(h@);
        h.push(e);
        proof {
            assert(vv(h@) =~= before.push(e@));
        }
        k = k + 1;
    }
    (p_mat, h)
}

} // verus!
