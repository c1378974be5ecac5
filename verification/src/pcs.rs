//! The polynomial commitment glue: pack a degree-bound-`N` polynomial over
//! `Z_q` into ring blocks, commit to the resulting column grid, and prove or
//! verify an evaluation claim at a field point by reducing it to the linear
//! system of the proto module under a Fiat-Shamir challenge.

use vstd::prelude::*;

verus! {

use crate::ring::D;
use crate::ring::ModQ;
use crate::ring::Poly;
use crate::ring::poly_wf;
use crate::ring::poly_zero;
use crate::ring::poly_add_spec;
use crate::ring::poly_mul_spec;
use crate::ring::sigma_inv_spec;
use crate::ring::monomial_spec;
use crate::ring::vv;
use crate::ring::polyvec_wf;
use crate::ring::lemma_poly_zero_wf;
use crate::gadget::g_inv_vec;
use crate::commit::MatrixRq;
use crate::commit::CommitParams;
use crate::commit::mm;
use crate::commit::cols_view;
use crate::commit::mat_vec_spec;
use crate::commit::f_cols_wf;
use crate::commit::polyvec_eq;
use crate::proto::ProtoParams;
use crate::proto::pow_mod;
use crate::proto::z_entry;
use crate::proto::dot_spec;
use crate::proto::eq3_entry;
use crate::proto::eq3_rhs;
use crate::proto::row_g_entry;
use crate::proto::row_vec_times_G;
use crate::proto::build_linear_system;
use crate::proto::derive_w_hat_and_v;
use crate::proto::sample_challenge;
use crate::transcript::Fs;
use crate::rng::rng_from_seed;
use vstd::arithmetic::div_mod::lemma_small_mod;
use vstd::arithmetic::div_mod::lemma_mod_bound;
use vstd::arithmetic::div_mod::lemma_fundamental_div_mod;

/// Parameters of the commitment scheme for degree bound `n_coeffs` over
/// `Z_q`, blocked into an `r x m` grid of ring elements.
pub struct PcsParams {
    pub q: ModQ,
    pub n_coeffs: usize,
    pub d: usize,
    pub m: usize,
    pub r: usize,
    pub commit: CommitParams,
    pub d_mat: MatrixRq,
}

impl PcsParams {
    pub open spec fn wf(self) -> bool {
        &&& self.commit.wf()
        &&& self.q == self.commit.q
        &&& self.d == 64
        &&& self.m == self.commit.m
        &&& self.r == self.commit.r
        &&& self.d_mat.wf(self.q.q as int)
        &&& self.d_mat.rows == self.commit.n
        &&& self.d_mat.cols == self.commit.delta1 * self.commit.r
        &&& self.n_coeffs >= 1
        &&& self.n_coeffs <= 0x100_0000
        &&& self.commit.a_mat.cols <= 0x100_0000
        &&& self.commit.b_mat.cols <= 0x100_0000
        &&& self.commit.n <= 0x1000
        &&& self.commit.r <= 1024
        // the blocked coefficients fit the column grid
        &&& (self.n_coeffs + 63) / 64 <= self.m * self.r
        &&& self.m * self.r <= 0x100_0000
    }
}

/// The committed value `u` alone.
pub struct Commitment(pub Vec<Poly>);

/// The decommitment the prover keeps: column digits and inner digits.
pub struct Decommit {
    pub s: Vec<Vec<Poly>>,
    pub that: Vec<Poly>,
}

/// An opened evaluation proof: the ring evaluation, the first message `v`,
/// and the revealed witness `[what || that || z]`.
pub struct Proof {
    pub y_ring: Poly,
    pub v: Vec<Poly>,
    pub what: Vec<Poly>,
    pub that: Vec<Poly>,
    pub z: Vec<Poly>,
}

/// Smallest `r` with `r * r >= blocks`.
fn int_sqrt_ceil(blocks: usize) -> (r: usize)
    requires
        1 <= blocks <= 0x10_0000,
    ensures
        1 <= r <= blocks,
        r * r >= blocks,
        (r - 1) * (r - 1) < blocks,
{
    let mut r: usize = 1;
    let mut sq: usize = 1;
    while sq < blocks
        invariant
            1 <= r <= blocks,
            r <= 0x401,
            blocks <= 0x10_0000,
            sq == r * r,
            (r - 1) * (r - 1) < blocks,
        decreases blocks - r,
    {
        proof {
            assert(r * r >= r) by (nonlinear_arith)
                requires
                    r >= 1,
            ;
            assert(r + 1 <= 0x401 && (r + 1) * (r + 1) == r * r + 2 * r + 1) by (nonlinear_arith)
                requires
                    r * r < blocks,
                    blocks <= 0x10_0000,
                    r >= 1,
            ;
        }
        sq = sq + 2 * r + 1;
        r = r + 1;
    }
    proof {
        assert(r * r >= blocks);
    }
    r
}

/// Toy parameter pick: `blocks = ceil(N/64)`, `r = ceil(sqrt(blocks))`,
/// `m = ceil(blocks/r)`, small fixed ranks and bases.
pub fn setup_toy(n_coeffs: usize, q: ModQ, seed: u64) -> (pp: PcsParams)
    requires
        q.wf(),
        1 <= n_coeffs <= 0x100_0000,
        crate::gadget::covers(q.q as int, 6, crate::gadget::digits_spec(q.q as int, 6)),
        crate::gadget::covers(q.q as int, 7, crate::gadget::digits_spec(q.q as int, 7)),
    ensures
        pp.wf(),
        pp.q == q,
        pp.n_coeffs == n_coeffs,
        pp.commit.b0 == 6,
        pp.commit.b1 == 7,
        pp.commit.n == 2,
        pp.commit.mu == 0,
        pp.commit.e_mat is None,
        // the blocking formulas: r is the smallest root cover of the block
        // count, m the matching ceiling quotient
        pp.r * pp.r >= (pp.n_coeffs + 63) / 64,
        pp.r >= 1 && (pp.r - 1) * (pp.r - 1) < (pp.n_coeffs + 63) / 64,
        pp.m as int == ((pp.n_coeffs as int + 63) / 64 + pp.r as int - 1) / (pp.r as int),
{
    let blocks: usize = (n_coeffs + 63) / 64;
    let r: usize = int_sqrt_ceil(blocks);
    let m: usize = (blocks + r - 1) / r;
    proof {
        lemma_fundamental_div_mod(blocks as int + r as int - 1, r as int);
        lemma_mod_bound(blocks as int + r as int - 1, r as int);
        assert(blocks >= 1);
        assert(blocks <= 0x4_0000);
        assert(r <= 0x400) by (nonlinear_arith)
            requires
                (r - 1) * (r - 1) < blocks,
                1 <= r,
                blocks <= 0x4_0000,
        ;
        assert(m >= 1 && m <= blocks) by (nonlinear_arith)
            requires
                blocks >= 1,
                r >= 1,
                m == (blocks as int + r as int - 1) / (r as int),
                blocks as int + r as int - 1 == r as int * ((blocks as int + r as int - 1) / (
                r as int)) + (blocks as int + r as int - 1) % (r as int),
                0 <= (blocks as int + r as int - 1) % (r as int) < r as int,
        ;
        assert(m * r <= blocks + r - 1) by (nonlinear_arith)
            requires
                blocks >= 1,
                r >= 1,
                m == (blocks as int + r as int - 1) / (r as int),
                blocks as int + r as int - 1 == r as int * ((blocks as int + r as int - 1) / (
                r as int)) + (blocks as int + r as int - 1) % (r as int),
                0 <= (blocks as int + r as int - 1) % (r as int) < r as int,
        ;
        // ceil division: m * r covers all blocks
        assert(m * r >= blocks) by (nonlinear_arith)
            requires
                m == (blocks as int + r as int - 1) / (r as int),
                r >= 1,
                blocks as int + r as int - 1 == r as int * ((blocks as int + r as int - 1) / (
                r as int)) + (blocks as int + r as int - 1) % (r as int),
                0 <= (blocks as int + r as int - 1) % (r as int) < r as int,
        ;
    }
    let n: usize = 2;
    let b0: u32 = 6;
    let b1: u32 = 7;
    let commit = CommitParams::gen(q, n, m, r, b0, b1, seed ^ 0xA5A5);
    let mut rng = rng_from_seed(seed ^ 0x1111);
    proof {
        assert(commit.delta1 <= 32) by {
            crate::gadget::lemma_digits_spec_bound(q.q as int, b1 as int);
        }
        assert(commit.delta1 * r <= 32 * 0x400) by (nonlinear_arith)
            requires
                commit.delta1 <= 32,
                r <= 0x400,
        ;
    }
    let d_mat = MatrixRq::random(n, commit.delta1 * r, &q, &mut rng);
    proof {
        assert(commit.delta0 <= 32) by {
            crate::gadget::lemma_digits_spec_bound(q.q as int, b0 as int);
        }
        assert(commit.a_mat.cols <= 0x100_0000) by (nonlinear_arith)
            requires
                commit.a_mat.cols == commit.delta0 * m,
                commit.delta0 <= 32,
                m <= 0x4_0000,
        ;
        assert(commit.b_mat.cols <= 0x100_0000) by (nonlinear_arith)
            requires
                commit.b_mat.cols == commit.n * commit.delta1 * commit.r,
                commit.n == 2,
                commit.delta1 <= 32,
                commit.r <= 0x400,
        ;
    }
    PcsParams { q, n_coeffs, d: 64, m, r, commit, d_mat }
}

/// Coefficient `j` of ring block `i` of the packed polynomial.
pub open spec fn pack_coeff(f: Seq<u32>, q: int, i: int, j: int) -> u32 {
    if i * 64 + j < f.len() {
        ((f[i * 64 + j] as int) % q) as u32
    } else {
        0u32
    }
}

/// Pack `f` into `blocks` ring elements, block `i` holding coefficients
/// `[i*64, i*64 + 64)` reduced mod `q`.
pub fn pack_poly_to_ring_blocks(q: &ModQ, f: &Vec<u32>, blocks: usize) -> (out: Vec<Poly>)
    requires
        q.wf(),
        blocks <= 0x40_0000,
    ensures
        out@.len() == blocks,
        polyvec_wf(vv(out@), q.q as int),
        forall|i: int, j: int|
            0 <= i < blocks && 0 <= j < 64 ==> (#[trigger] vv(out@)[i][j]) == pack_coeff(
                f@,
                q.q as int,
                i,
                j,
            ),
{
    let ghost qi = q.q as int;
    let flen = f.len();
    let mut out: Vec<Poly> = Vec::new();
    let mut i: usize = 0;
    while i < blocks
        invariant
            i <= blocks,
            blocks <= 0x40_0000,
            q.wf(),
            qi == q.q as int,
            flen == f@.len(),
            out@.len() == i,
            forall|ii: int| 0 <= ii < i ==> poly_wf((#[trigger] out@[ii])@, qi),
            forall|ii: int, j: int|
                0 <= ii < i && 0 <= j < 64 ==> (#[trigger] out@[ii]@[j]) == pack_coeff(
                    f@,
                    qi,
                    ii,
                    j,
                ),
        decreases blocks - i,
    {
        let mut c: Vec<u32> = Vec::new();
        let mut j: usize = 0;
        while j < D
            invariant
                j <= 64,
                i < blocks,
                blocks <= 0x40_0000,
                q.wf(),
                qi == q.q as int,
                flen == f@.len(),
                c@.len() == j,
                forall|t: int|
                    0 <= t < j ==> (#[trigger] c@[t]) < q.q && c@[t] == pack_coeff(f@, qi, i as int, t),
            decreases 64 - j,
        {
            let k: usize = i * 64 + j;
            proof {
                assert(i * 64 + j < 0x40_0000 * 64 + 64) by (nonlinear_arith)
                    requires
                        i < 0x40_0000,
                        j < 64,
                ;
            }
            let v: u32 = if k < flen {
                let raw = f[k];
                proof {
                    lemma_mod_bound(raw as int, qi);
                }
                raw % q.q
            } else {
                0
            };
            c.push(v);
            j = j + 1;
        }
        out.push(Poly { c });
        i = i + 1;
    }
    proof {
        assert forall|ii: int| 0 <= ii < vv(out@).len() implies #[trigger] vv(out@)[ii]
            == out@[ii]@ by {}
    }
    out
}

/// Column `i`, row `j` of the grid: block `i*m + j`, or zero past the end.
pub open spec fn grid_cell(blocks: Seq<Seq<u32>>, m: int, i: int, j: int) -> Seq<u32> {
    if i * m + j < blocks.len() {
        blocks[i * m + j]
    } else {
        poly_zero()
    }
}

/// Arrange ring blocks into `r` columns of `m` ring elements each.
fn make_columns(blocks: &Vec<Poly>, m: usize, r: usize, q: &ModQ) -> (cols: Vec<Vec<Poly>>)
    requires
        q.wf(),
        m >= 1,
        r >= 1,
        m * r <= 0x100_0000,
        polyvec_wf(vv(blocks@), q.q as int),
    ensures
        cols@.len() == r,
        forall|i: int|
            0 <= i < r ==> (#[trigger] cols@[i])@.len() == m && polyvec_wf(
                vv(cols@[i]@),
                q.q as int,
            ),
        forall|i: int, j: int|
            0 <= i < r && 0 <= j < m ==> (#[trigger] cols_view(cols@)[i][j]) == grid_cell(
                vv(blocks@),
                m as int,
                i,
                j,
            ),
{
    let ghost qi = q.q as int;
    let blen = blocks.len();
    let mut cols: Vec<Vec<Poly>> = Vec::new();
    let mut i: usize = 0;
    while i < r
        invariant
            i <= r,
            m >= 1,
            r >= 1,
            m * r <= 0x100_0000,
            q.wf(),
            qi == q.q as int,
            blen == blocks@.len(),
            polyvec_wf(vv(blocks@), qi),
            cols@.len() == i,
            forall|ii: int|
                0 <= ii < i ==> (#[trigger] cols@[ii])@.len() == m && polyvec_wf(
                    vv(cols@[ii]@),
                    qi,
                ),
            forall|ii: int, j: int|
                0 <= ii < i && 0 <= j < m ==> (#[trigger] cols@[ii]@[j]@) == grid_cell(
                    vv(blocks@),
                    m as int,
                    ii,
                    j,
                ),
        decreases r - i,
    {
        proof {
            assert(i * m + m <= r * m && i * m >= 0 && r * m == m * r) by (nonlinear_arith)
                requires
                    0 <= i < r,
                    m >= 0,
            ;
        }
        let mut col: Vec<Poly> = Vec::new();
        let mut j: usize = 0;
        while j < m
            invariant
                j <= m,
                i < r,
                i * m >= 0,
                i * m + m <= 0x100_0000,
                q.wf(),
                qi == q.q as int,
                blen == blocks@.len(),
                polyvec_wf(vv(blocks@), qi),
                col@.len() == j,
                forall|t: int|
                    0 <= t < j ==> (#[trigger] col@[t]@) == grid_cell(
                        vv(blocks@),
                        m as int,
                        i as int,
                        t,
                    ) && poly_wf(col@[t]@, qi),
            decreases m - j,
        {
            let idx: usize = i * m + j;
            let e: Poly = if idx < blen {
                proof {
                    assert(vv(blocks@)[idx as int] == blocks@[idx as int]@);
                }
                blocks[idx].clone()
            } else {
                let z = Poly::zero();
                proof {
                    lemma_poly_zero_wf(qi);
                }
                z
            };
            col.push(e);
            j = j + 1;
        }
        proof {
            assert forall|t: int| 0 <= t < vv(col@).len() implies #[trigger] vv(col@)[t]
                == col@[t]@ by {}
        }
        cols.push(col);
        i = i + 1;
    }
    proof {
        assert forall|ii: int| 0 <= ii < cols_view(cols@).len() implies #[trigger] cols_view(
            cols@,
        )[ii] == vv(cols@[ii]@) by {}
    }
    cols
}

/// `p^e` by repeated ring multiplication.
pub open spec fn poly_pow_spec(p: Seq<u32>, e: nat, q: int) -> Seq<u32>
    decreases e,
{
    if e == 0 {
        monomial_spec(0, 1)
    } else {
        poly_mul_spec(poly_pow_spec(p, (e - 1) as nat, q), p, q)
    }
}

/// Raise a ring element to a nonnegative power.
pub fn pow_poly(base: Poly, e: usize, q: &ModQ) -> (res: Poly)
    requires
        q.wf(),
        poly_wf(base@, q.q as int),
    ensures
        poly_wf(res@, q.q as int),
        res@ == poly_pow_spec(base@, e as nat, q.q as int),
{
    let ghost qi = q.q as int;
    let mut res = Poly::monomial(0, 1, q);
    proof {
        lemma_small_mod(1, qi as nat);
        assert(res@ =~= monomial_spec(0, 1));
    }
    let mut k: usize = 0;
    while k < e
        invariant
            k <= e,
            q.wf(),
            qi == q.q as int,
            poly_wf(base@, qi),
            poly_wf(res@, qi),
            res@ == poly_pow_spec(base@, k as nat, qi),
        decreases e - k,
    {
        res = res.mul(&base, q);
        k = k + 1;
    }
    res
}

/// Successive ring powers `base^0, base^1, ..., base^{count-1}`.
fn poly_powers(base: &Poly, count: usize, q: &ModQ) -> (out: Vec<Poly>)
    requires
        q.wf(),
        poly_wf(base@, q.q as int),
    ensures
        out@.len() == count,
        polyvec_wf(vv(out@), q.q as int),
        forall|i: int|
            0 <= i < count ==> (#[trigger] vv(out@)[i]) == poly_pow_spec(
                base@,
                i as nat,
                q.q as int,
            ),
{
    let ghost qi = q.q as int;
    let mut out: Vec<Poly> = Vec::new();
    let mut cur = Poly::monomial(0, 1, q);
    proof {
        lemma_small_mod(1, qi as nat);
        assert(cur@ =~= monomial_spec(0, 1));
    }
    let mut i: usize = 0;
    while i < count
        invariant
            i <= count,
            q.wf(),
            qi == q.q as int,
            poly_wf(base@, qi),
            poly_wf(cur@, qi),
            cur@ == poly_pow_spec(base@, i as nat, qi),
            out@.len() == i,
            forall|j: int|
                0 <= j < i ==> (#[trigger] out@[j]@) == poly_pow_spec(base@, j as nat, qi)
                    && poly_wf(out@[j]@, qi),
        decreases count - i,
    {
        out.push(cur.clone());
        cur = cur.mul(&base, q);
        i = i + 1;
    }
    proof {
        assert forall|j: int| 0 <= j < vv(out@).len() implies #[trigger] vv(out@)[j]
            == out@[j]@ by {}
    }
    out
}

/// The embedding of the field point: `xbar = sum_{j<64} x^j X^j`.
pub open spec fn embed_spec(x: int, q: int) -> Seq<u32> {
    Seq::new(64, |j: int| (pow_mod(x, j as nat, q) % q) as u32)
}

/// Pack `x` as the ring element whose coefficient `j` is `x^j mod q`.
pub fn embed_x(q: &ModQ, x: u32) -> (r: Poly)
    requires
        q.wf(),
    ensures
        poly_wf(r@, q.q as int),
        r@ == embed_spec(x as int, q.q as int),
{
    let ghost qi = q.q as int;
    let mut c: Vec<u32> = Vec::new();
    let mut cur: u32 = 1 % q.q;
    proof {
        lemma_small_mod(1, qi as nat);
    }
    let mut j: usize = 0;
    while j < D
        invariant
            j <= 64,
            q.wf(),
            qi == q.q as int,
            cur < q.q,
            cur as int == pow_mod(x as int, j as nat, qi) % qi,
            c@.len() == j,
            forall|t: int|
                0 <= t < j ==> (#[trigger] c@[t]) < q.q && c@[t] as int == pow_mod(
                    x as int,
                    t as nat,
                    qi,
                ) % qi,
        decreases 64 - j,
    {
        c.push(cur);
        let next = q.mul(cur, x);
        proof {
            // (p % q) * x % q == (p * x) % q
            vstd::arithmetic::div_mod::lemma_mul_mod_noop_left(
                pow_mod(x as int, j as nat, qi),
                x as int,
                qi,
            );
            vstd::arithmetic::div_mod::lemma_mod_twice(
                pow_mod(x as int, j as nat, qi) * (x as int),
                qi,
            );
        }
        cur = next;
        j = j + 1;
    }
    let r = Poly { c };
    proof {
        assert(r@ =~= embed_spec(x as int, qi));
    }
    r
}

} // verus!
use vstd::prelude::*;

verus! {


/// Ring block `t` of the packed coefficient vector.
pub open spec fn pcs_block(f: Seq<u32>, q: int, t: int) -> Seq<u32> {
    Seq::new(64, |j: int| pack_coeff(f, q, t, j))
}

/// The `r x m` column grid the scheme commits to.
pub open spec fn pcs_grid(pp: PcsParams, f: Seq<u32>) -> Seq<Seq<Seq<u32>>> {
    let blocks = ((pp.n_coeffs + 63) / 64) as int;
    Seq::new(
        pp.r as nat,
        |i: int|
            Seq::new(
                pp.m as nat,
                |j: int|
                    if i * (pp.m as int) + j < blocks {
                        pcs_block(f, pp.q.q as int, i * (pp.m as int) + j)
                    } else {
                        poly_zero()
                    },
            ),
    )
}

/// Commit to the packed polynomial: the message grid is `pcs_grid`, the
/// commitment and decommitment come from the commitment scheme on it.
pub fn commit(pp: &PcsParams, f_coeffs: &Vec<u32>) -> (res: (Commitment, Decommit))
    requires
        pp.wf(),
    ensures
        res.0.0@.len() == pp.commit.n,
        polyvec_wf(vv(res.0.0@), pp.q.q as int),
        res.1.s@.len() == pp.r,
        forall|i: int|
            0 <= i < pp.r ==> vv((#[trigger] res.1.s@[i])@) == crate::commit::col_s_spec(
                pp.commit,
                pcs_grid(*pp, f_coeffs@)[i],
            ),
        res.1.that@.len() == pp.commit.n * pp.commit.delta1 * pp.commit.r,
        polyvec_wf(vv(res.1.that@), pp.q.q as int),
        forall|i: int|
            0 <= i < pp.r ==> vv(res.1.that@).subrange(
                i * (pp.commit.n * pp.commit.delta1) as int,
                (i + 1) * (pp.commit.n * pp.commit.delta1) as int,
            ) == crate::commit::col_that_spec(pp.commit, #[trigger] pcs_grid(*pp, f_coeffs@)[i]),
        vv(res.0.0@) == mat_vec_spec(
            mm(pp.commit.b_mat),
            pp.commit.n as int,
            pp.commit.b_mat.cols as int,
            vv(res.1.that@),
            pp.q.q as int,
        ),
{
    let ghost qi = pp.q.q as int;
    let blocks_count: usize = (pp.n_coeffs + 63) / 64;
    let blocks_vec = pack_poly_to_ring_blocks(&pp.q, f_coeffs, blocks_count);
    let f_cols = make_columns(&blocks_vec, pp.m, pp.r, &pp.q);
    proof {
        let grid = pcs_grid(*pp, f_coeffs@);
        assert forall|i: int| 0 <= i < pp.r implies #[trigger] cols_view(f_cols@)[i]
            == grid[i] by {
            assert forall|j: int| 0 <= j < pp.m implies cols_view(f_cols@)[i][j] == grid[i][j] by {
                assert(cols_view(f_cols@)[i][j] == grid_cell(vv(blocks_vec@), pp.m as int, i, j));
                if i * (pp.m as int) + j < blocks_count {
                    assert(vv(blocks_vec@)[i * (pp.m as int) + j] =~= pcs_block(
                        f_coeffs@,
                        qi,
                        i * (pp.m as int) + j,
                    ));
                }
            }
            assert(cols_view(f_cols@)[i] =~= grid[i]);
        }
        assert(cols_view(f_cols@) =~= pcs_grid(*pp, f_coeffs@));
        assert(f_cols_wf(pp.commit, cols_view(f_cols@)));
    }
    let cm = crate::commit::commit(&pp.commit, &f_cols);
    (Commitment(cm.u), Decommit { s: cm.dec.s, that: cm.dec.that })
}

/// The ring evaluation accumulated block by block:
/// `sum_{i<k} sigma_inv(xbar) * f_i * (xbar^64)^i`.
pub open spec fn y_ring_partial(
    blocks: Seq<Seq<u32>>,
    six: Seq<u32>,
    xd: Seq<u32>,
    k: int,
    q: int,
) -> Seq<u32>
    decreases k,
{
    if k <= 0 {
        poly_zero()
    } else {
        poly_add_spec(
            y_ring_partial(blocks, six, xd, k - 1, q),
            poly_mul_spec(six, poly_mul_spec(blocks[k - 1], poly_pow_spec(xd, (k - 1) as nat, q), q), q),
            q,
        )
    }
}

/// The gadget-expanded evaluation row `a`: position `j*delta0 + t` holds
/// `b0^t * (xbar^64)^j`.
pub open spec fn a_row_spec(pp: PcsParams, xd: Seq<u32>, t: int) -> Seq<u32> {
    row_g_entry(
        Seq::new(pp.m as nat, |j: int| poly_pow_spec(xd, j as nat, pp.q.q as int)),
        pp.commit.b0 as int,
        pp.commit.delta0 as int,
        pp.q.q as int,
        t,
    )
}

/// Entry `i` of the outer evaluation vector `b` before scaling:
/// `(xbar^64)^{m i}` computed as `(xd^m)^i`.
pub open spec fn b_row_spec(pp: PcsParams, xd: Seq<u32>, i: int) -> Seq<u32> {
    poly_pow_spec(poly_pow_spec(xd, pp.m as nat, pp.q.q as int), i as nat, pp.q.q as int)
}

/// Build `a`: the powers of `xbar^64` expanded with the base-`b0` gadget
/// weights.
fn build_a_digits(pp: &PcsParams, x_d: &Poly) -> (a: Vec<Poly>)
    requires
        pp.wf(),
        poly_wf(x_d@, pp.q.q as int),
    ensures
        a@.len() == pp.commit.a_mat.cols,
        polyvec_wf(vv(a@), pp.q.q as int),
        forall|t: int| 0 <= t < a@.len() ==> #[trigger] vv(a@)[t] == a_row_spec(*pp, x_d@, t),
{
    let ghost qi = pp.q.q as int;
    let a0 = poly_powers(x_d, pp.m, &pp.q);
    let a = row_vec_times_G(&a0, pp.commit.b0, pp.commit.delta0, &pp.q);
    proof {
        assert(a@.len() == pp.m * pp.commit.delta0);
        assert(pp.m * pp.commit.delta0 == pp.commit.delta0 * pp.m) by (nonlinear_arith);
        assert(vv(a0@) =~= Seq::new(pp.m as nat, |j: int| poly_pow_spec(x_d@, j as nat, qi)));
    }
    a
}

/// Build `b`: the powers of `xbar^{64 m}`.
fn build_b(pp: &PcsParams, x_d: &Poly) -> (b: Vec<Poly>)
    requires
        pp.wf(),
        poly_wf(x_d@, pp.q.q as int),
    ensures
        b@.len() == pp.r,
        polyvec_wf(vv(b@), pp.q.q as int),
        forall|i: int| 0 <= i < pp.r ==> #[trigger] vv(b@)[i] == b_row_spec(*pp, x_d@, i),
{
    let x_md = pow_poly(x_d.clone(), pp.m, &pp.q);
    let b = poly_powers(&x_md, pp.r, &pp.q);
    b
}

/// The transcript domain separator of the plain evaluation protocol.
fn pcs_domain() -> (d: Vec<u8>)
    ensures
        d@ == pcs_domain_spec(),
{
    let mut d: Vec<u8> = Vec::new();
    d.push(103);
    d.push(114);
    d.push(101);
    d.push(121);
    d.push(104);
    d.push(111);
    d.push(117);
    d.push(110);
    d.push(100);
    d.push(47);
    d.push(112);
    d.push(99);
    d.push(115);
    d.push(45);
    d.push(101);
    d.push(118);
    d.push(97);
    d.push(108);
    proof {
        assert(d@ =~= pcs_domain_spec());
    }
    d
}

/// The bytes of `greyhound/pcs-eval`.
pub open spec fn pcs_domain_spec() -> Seq<u8> {
    seq![
        103u8, 114u8, 101u8, 121u8, 104u8, 111u8, 117u8, 110u8, 100u8, 47u8, 112u8, 99u8, 115u8,
        45u8, 101u8, 118u8, 97u8, 108u8,
    ]
}

/// The aggregation vector `w` the prover derives: entry `i` is the ring
/// dot of the evaluation row `a` with column digit vector `s_i`.
pub open spec fn prove_w_spec(pp: PcsParams, x: int, dec_s: Seq<Vec<Poly>>) -> Seq<Seq<u32>> {
    let q = pp.q.q as int;
    let xd = poly_pow_spec(embed_spec(x, q), 64, q);
    Seq::new(
        dec_s.len(),
        |i: int|
            dot_spec(
                Seq::new(pp.commit.a_mat.cols as nat, |t: int| a_row_spec(pp, xd, t)),
                vv(dec_s[i]@),
                pp.commit.a_mat.cols as int,
                q,
            ),
    )
}

/// Well-shaped decommitment for the given parameters.
pub open spec fn dec_wf(pp: PcsParams, dec: Decommit) -> bool {
    &&& dec.s@.len() == pp.r
    &&& forall|i: int|
        0 <= i < pp.r ==> (#[trigger] dec.s@[i])@.len() == pp.commit.a_mat.cols && polyvec_wf(
            vv(dec.s@[i]@),
            pp.q.q as int,
        )
    &&& dec.that@.len() == pp.commit.b_mat.cols
    &&& polyvec_wf(vv(dec.that@), pp.q.q as int)
}

/// Produce the evaluation claim and the opened proof for `f` at `x_field`.
pub fn eval_prove(
    pp: &PcsParams,
    comm: &Commitment,
    x_field: u32,
    f_coeffs: &Vec<u32>,
    dec: &Decommit,
) -> (res: (u32, Proof))
    requires
        pp.wf(),
        dec_wf(*pp, *dec),
        comm.0@.len() == pp.commit.n,
        polyvec_wf(vv(comm.0@), pp.q.q as int),
    ensures
        poly_wf(res.1.y_ring@, pp.q.q as int),
        res.0 == res.1.y_ring@[0],
        res.1.y_ring@ == y_ring_partial(
            Seq::new((((pp.n_coeffs + 63) / 64) as usize) as nat, |t: int| pcs_block(f_coeffs@, pp.q.q as int, t)),
            sigma_inv_spec(embed_spec(x_field as int, pp.q.q as int), pp.q.q as int),
            poly_pow_spec(embed_spec(x_field as int, pp.q.q as int), 64, pp.q.q as int),
            ((pp.n_coeffs + 63) / 64) as int,
            pp.q.q as int,
        ),
        res.1.what@.len() == pp.r * pp.commit.delta1,
        polyvec_wf(vv(res.1.what@), pp.q.q as int),
        res.1.v@.len() == pp.commit.n,
        polyvec_wf(vv(res.1.v@), pp.q.q as int),
        vv(res.1.v@) == mat_vec_spec(
            mm(pp.d_mat),
            pp.d_mat.rows as int,
            pp.d_mat.cols as int,
            vv(res.1.what@),
            pp.q.q as int,
        ),
        res.1.that@.len() == dec.that@.len(),
        vv(res.1.that@) == vv(dec.that@),
        vv(res.1.what@) == crate::gadget::g_inv_spec(
            prove_w_spec(*pp, x_field as int, dec.s@),
            pp.commit.b1 as int,
            pp.q.q as int,
            pp.commit.delta1 as nat,
        ),
        res.1.z@.len() == pp.commit.a_mat.cols,
        polyvec_wf(vv(res.1.z@), pp.q.q as int),
        forall|j: int|
            0 <= j < res.1.z@.len() ==> #[trigger] vv(res.1.z@)[j] == z_entry(
                dec.s@,
                pcs_challenge(*pp, vv(res.1.v@), vv(comm.0@), x_field as int),
                j,
                dec.s@.len() as int,
                pp.q.q as int,
            ),
{
    let ghost qi = pp.q.q as int;
    let blocks_count: usize = (pp.n_coeffs + 63) / 64;
    let blocks_vec = pack_poly_to_ring_blocks(&pp.q, f_coeffs, blocks_count);
    let ghost bv = Seq::new(blocks_count as nat, |t: int| pcs_block(f_coeffs@, qi, t));
    proof {
        assert forall|t: int| 0 <= t < blocks_count implies #[trigger] vv(blocks_vec@)[t]
            == bv[t] by {
            assert(vv(blocks_vec@)[t] =~= pcs_block(f_coeffs@, qi, t));
        }
        assert(vv(blocks_vec@) =~= bv);
    }
    let x_ring = embed_x(&pp.q, x_field);
    let x_d = pow_poly(x_ring.clone(), D, &pp.q);
    let sigma_inv_x = x_ring.sigma_inv(&pp.q);
    // y = sum sigma_inv(xbar) * f_i * (xbar^64)^i
    let mut y_ring = Poly::zero();
    let mut x_d_pow = Poly::monomial(0, 1, &pp.q);
    proof {
        lemma_poly_zero_wf(qi);
        lemma_small_mod(1, qi as nat);
        assert(x_d_pow@ =~= monomial_spec(0, 1));
        assert(x_d_pow@ == poly_pow_spec(x_d@, 0, qi));
    }
    let mut i: usize = 0;
    while i < blocks_count
        invariant
            i <= blocks_count,
            pp.wf(),
            qi == pp.q.q as int,
            blocks_vec@.len() == blocks_count,
            polyvec_wf(vv(blocks_vec@), qi),
            vv(blocks_vec@) == bv,
            poly_wf(x_d@, qi),
            poly_wf(sigma_inv_x@, qi),
            poly_wf(y_ring@, qi),
            poly_wf(x_d_pow@, qi),
            x_d_pow@ == poly_pow_spec(x_d@, i as nat, qi),
            y_ring@ == y_ring_partial(bv, sigma_inv_x@, x_d@, i as int, qi),
        decreases blocks_count - i,
    {
        proof {
            assert(vv(blocks_vec@)[i as int] == blocks_vec@[i as int]@);
        }
        let term = sigma_inv_x.mul(&blocks_vec[i].mul(&x_d_pow, &pp.q), &pp.q);
        y_ring = y_ring.add(&term, &pp.q);
        x_d_pow = x_d_pow.mul(&x_d, &pp.q);
        i = i + 1;
    }
    let y_field = y_ring.ct();
    // a and b, with b scaled by sigma_inv(xbar)
    let a = build_a_digits(pp, &x_d);
    let b0 = build_b(pp, &x_d);
    let mut b: Vec<Poly> = Vec::new();
    let mut t: usize = 0;
    while t < b0.len()
        invariant
            t <= b0@.len(),
            b0@.len() == pp.r,
            pp.wf(),
            qi == pp.q.q as int,
            polyvec_wf(vv(b0@), qi),
            poly_wf(sigma_inv_x@, qi),
            b@.len() == t,
            forall|j: int|
                0 <= j < t ==> (#[trigger] b@[j]@) == poly_mul_spec(sigma_inv_x@, vv(b0@)[j], qi)
                    && poly_wf(b@[j]@, qi),
        decreases b0@.len() - t,
    {
        proof {
            assert(vv(b0@)[t as int] == b0@[t as int]@);
        }
        b.push(sigma_inv_x.mul(&b0[t], &pp.q));
        t = t + 1;
    }
    proof {
        assert forall|j: int| 0 <= j < vv(b@).len() implies #[trigger] vv(b@)[j] == b@[j]@ by {}
    }
    // w, what, v
    let w = crate::proto::compute_w(&a, &dec.s, &pp.q);
    proof {
        assert(pp.d_mat.cols == w@.len() * pp.commit.delta1) by (nonlinear_arith)
            requires
                pp.d_mat.cols == pp.commit.delta1 * pp.commit.r,
                w@.len() == pp.r,
                pp.r == pp.commit.r,
        ;
        let a_model = Seq::new(pp.commit.a_mat.cols as nat, |t2: int| a_row_spec(*pp, x_d@, t2));
        assert(vv(a@) =~= a_model);
        assert(vv(w@) =~= prove_w_spec(*pp, x_field as int, dec.s@)) by {
            assert forall|i: int| 0 <= i < dec.s@.len() implies vv(w@)[i] == prove_w_spec(
                *pp,
                x_field as int,
                dec.s@,
            )[i] by {
                assert(vv(w@)[i] == dot_spec(vv(a@), vv(dec.s@[i]@), a@.len() as int, qi));
            }
        }
    }
    let wv = derive_w_hat_and_v(&pp.commit, &pp.d_mat, &w);
    let what = wv.0;
    let v = wv.1;
    // Fiat-Shamir: absorb v, u, x, then draw the challenge
    let domain = pcs_domain();
    let mut fs = Fs::new(domain.as_slice());
    proof {
        lemma_pv_len64(v@, qi);
        lemma_pv_len64(comm.0@, qi);
    }
    fs.absorb_polyvec(&v);
    fs.absorb_polyvec(&comm.0);
    fs.absorb_u64(x_field as u64);
    proof {
        assert(fs@ =~= pcs_transcript_bytes(vv(v@), vv(comm.0@), x_field as int));
    }
    let c = sample_challenge(&fs, &pp.commit);
    proof {
        assert(vv(c@) == pcs_challenge(*pp, vv(v@), vv(comm.0@), x_field as int));
    }
    let z = crate::proto::compute_z(&dec.s, &c, &pp.q);
    proof {
        assert(what@.len() == pp.r * pp.commit.delta1);
    }
    let prf = Proof { y_ring, v, what, that: clone_polyvec(&dec.that), z };
    (y_field, prf)
}

/// Bridge a deep-view well-formedness fact to per-entry lengths.
proof fn lemma_pv_len64(v: Seq<Poly>, q: int)
    requires
        polyvec_wf(vv(v), q),
    ensures
        forall|i: int| 0 <= i < v.len() ==> (#[trigger] v[i]@).len() == 64,
{
    assert forall|i: int| 0 <= i < v.len() implies (#[trigger] v[i]@).len() == 64 by {
        assert(vv(v)[i] == v[i]@);
    }
}

/// Clone a polynomial vector entry by entry.
pub fn clone_polyvec(v: &Vec<Poly>) -> (r: Vec<Poly>)
    ensures
        r@.len() == v@.len(),
        forall|i: int| 0 <= i < v@.len() ==> (#[trigger] r@[i]@) == v@[i]@,
        vv(r@) == vv(v@),
{
    let n = v.len();
    let mut r: Vec<Poly> = Vec::new();
    let mut i: usize = 0;
    while i < n
        invariant
            i <= n,
            n == v@.len(),
            r@.len() == i,
            forall|j: int| 0 <= j < i ==> (#[trigger] r@[j]@) == v@[j]@,
        decreases n - i,
    {
        r.push(v[i].clone());
        i = i + 1;
    }
    proof {
        assert(vv(r@) =~= vv(v@));
    }
    r
}

/// The flattened system matrix for a given challenge.
pub open spec fn eq3_flat(
    pp: CommitParams,
    dm: Seq<Seq<u32>>,
    a: Seq<Seq<u32>>,
    b: Seq<Seq<u32>>,
    c: Seq<Seq<u32>>,
    cols: int,
) -> Seq<Seq<u32>> {
    Seq::new(((3 * pp.n + 2) * cols) as nat, |t: int| eq3_entry(pp, dm, a, b, c, t / cols, t % cols))
}

/// The flattened right-hand side.
pub open spec fn eq3_rhs_flat(
    pp: CommitParams,
    u: Seq<Seq<u32>>,
    v: Seq<Seq<u32>>,
    y: Seq<u32>,
) -> Seq<Seq<u32>> {
    Seq::new((3 * pp.n + 2) as nat, |t: int| eq3_rhs(pp, u, v, y, t))
}

/// The bytes both sides absorb in the plain evaluation protocol: domain,
/// first message, commitment, evaluation point.
pub open spec fn pcs_transcript_bytes(v: Seq<Seq<u32>>, u: Seq<Seq<u32>>, x: int) -> Seq<u8> {
    crate::transcript::fs_prefix() + pcs_domain_spec() + crate::transcript::pvec_bytes(v)
        + crate::transcript::pvec_bytes(u) + crate::transcript::le_bytes(x, 8)
}

/// The challenge both sides derive in the plain evaluation protocol.
pub open spec fn pcs_challenge(pp: PcsParams, v: Seq<Seq<u32>>, u: Seq<Seq<u32>>, x: int) -> Seq<
    Seq<u32>,
> {
    crate::transcript::challenge_vec_spec(
        pcs_transcript_bytes(v, u, x),
        pp.r as nat,
        pp.q.q as int,
        32,
        8,
    )
}

/// The verifier's algebraic acceptance condition for one challenge `c`:
/// the rebuilt system applied to the revealed witness gives the rebuilt
/// right-hand side.
pub open spec fn verify_sys(pp: PcsParams, u: Seq<Seq<u32>>, x: int, prf: Proof, c: Seq<Seq<u32>>) -> bool {
    let q = pp.q.q as int;
    let xd = poly_pow_spec(embed_spec(x, q), 64, q);
    let six = sigma_inv_spec(embed_spec(x, q), q);
    let a = Seq::new(pp.commit.a_mat.cols as nat, |t: int| a_row_spec(pp, xd, t));
    let b = Seq::new(pp.r as nat, |i: int| poly_mul_spec(six, b_row_spec(pp, xd, i), q));
    let cols = pp.commit.delta1 as int * pp.commit.r as int + pp.commit.n as int
        * pp.commit.delta1 as int * pp.commit.r as int + pp.commit.delta0 as int
        * pp.commit.m as int;
    let zvec = vv(prf.what@) + vv(prf.that@) + vv(prf.z@);
    &&& c.len() == pp.r
    &&& polyvec_wf(c, q)
    &&& zvec.len() == cols
    &&& mat_vec_spec(
        eq3_flat(pp.commit, mm(pp.d_mat), a, b, c, cols),
        3 * pp.commit.n as int + 2,
        cols,
        zvec,
        q,
    ) == eq3_rhs_flat(pp.commit, u, vv(prf.v@), prf.y_ring@)
}

/// Check an opened evaluation proof: the constant term must match the
/// claimed value, and the rebuilt linear system must accept the witness
/// under the transcript's challenge.
pub fn eval_verify(
    pp: &PcsParams,
    comm: &Commitment,
    x_field: u32,
    y_field: u32,
    prf: &Proof,
) -> (res: bool)
    requires
        pp.wf(),
        poly_wf(prf.y_ring@, pp.q.q as int),
        polyvec_wf(vv(prf.v@), pp.q.q as int),
        polyvec_wf(vv(prf.what@), pp.q.q as int),
        polyvec_wf(vv(prf.that@), pp.q.q as int),
        polyvec_wf(vv(prf.z@), pp.q.q as int),
        prf.v@.len() == pp.commit.n,
        comm.0@.len() == pp.commit.n,
        polyvec_wf(vv(comm.0@), pp.q.q as int),
    ensures
        res == (prf.y_ring@[0] == y_field && verify_sys(
            *pp,
            vv(comm.0@),
            x_field as int,
            *prf,
            pcs_challenge(*pp, vv(prf.v@), vv(comm.0@), x_field as int),
        )),
{
    let ghost qi = pp.q.q as int;
    let ghost cspec = pcs_challenge(*pp, vv(prf.v@), vv(comm.0@), x_field as int);
    if prf.y_ring.ct() != y_field {
        return false;
    }
    let x_ring = embed_x(&pp.q, x_field);
    let x_d = pow_poly(x_ring.clone(), D, &pp.q);
    let sigma_inv_x = x_ring.sigma_inv(&pp.q);
    let a = build_a_digits(pp, &x_d);
    let b0 = build_b(pp, &x_d);
    let mut b: Vec<Poly> = Vec::new();
    let mut t: usize = 0;
    while t < b0.len()
        invariant
            t <= b0@.len(),
            b0@.len() == pp.r,
            pp.wf(),
            qi == pp.q.q as int,
            polyvec_wf(vv(b0@), qi),
            poly_wf(sigma_inv_x@, qi),
            sigma_inv_x@ == sigma_inv_spec(embed_spec(x_field as int, qi), qi),
            forall|j: int| 0 <= j < pp.r ==> #[trigger] vv(b0@)[j] == b_row_spec(*pp, x_d@, j),
            b@.len() == t,
            forall|j: int|
                0 <= j < t ==> (#[trigger] b@[j]@) == poly_mul_spec(sigma_inv_x@, vv(b0@)[j], qi)
                    && poly_wf(b@[j]@, qi),
        decreases b0@.len() - t,
    {
        proof {
            assert(vv(b0@)[t as int] == b0@[t as int]@);
        }
        b.push(sigma_inv_x.mul(&b0[t], &pp.q));
        t = t + 1;
    }
    proof {
        assert forall|j: int| 0 <= j < vv(b@).len() implies #[trigger] vv(b@)[j] == b@[j]@ by {}
    }
    // rebuild the challenge from the same absorptions
    let domain = pcs_domain();
    let mut fs = Fs::new(domain.as_slice());
    proof {
        lemma_pv_len64(prf.v@, qi);
        lemma_pv_len64(comm.0@, qi);
    }
    fs.absorb_polyvec(&prf.v);
    fs.absorb_polyvec(&comm.0);
    fs.absorb_u64(x_field as u64);
    proof {
        assert(fs@ =~= pcs_transcript_bytes(vv(prf.v@), vv(comm.0@), x_field as int));
    }
    let c = sample_challenge(&fs, &pp.commit);
    proof {
        assert(vv(c@) == cspec);
    }
    // rebuild the system and check P * [what || that || z] == h
    let proto = ProtoParams { commit: clone_commit_params(&pp.commit), d_mat: pp.d_mat.clone() };
    let ph = build_linear_system(&proto, &a, &b, &comm.0, &prf.v, &prf.y_ring, &c);
    let p_mat = ph.0;
    let h = ph.1;
    let mut zvec: Vec<Poly> = Vec::new();
    append_polyvec(&mut zvec, &prf.what);
    append_polyvec(&mut zvec, &prf.that);
    append_polyvec(&mut zvec, &prf.z);
    proof {
        assert(vv(zvec@) =~= vv(prf.what@) + vv(prf.that@) + vv(prf.z@));
    }
    proof {
        assert(p_mat.cols as int == pp.commit.delta1 as int * pp.commit.r as int + pp.commit.n
            as int * pp.commit.delta1 as int * pp.commit.r as int + pp.commit.delta0 as int
            * pp.commit.m as int);
    }
    if zvec.len() != p_mat.cols {
        proof {
            assert((vv(prf.what@) + vv(prf.that@) + vv(prf.z@)).len() != p_mat.cols as int);
            assert(!verify_sys(*pp, vv(comm.0@), x_field as int, *prf, cspec));
        }
        return false;
    }
    let lhs = p_mat.mul_vec(&zvec, &pp.q);
    let ok = polyvec_eq(&lhs, &h);
    proof {
        {
            let cols = p_mat.cols as int;
            let a_model = Seq::new(
                pp.commit.a_mat.cols as nat,
                |t2: int| a_row_spec(*pp, x_d@, t2),
            );
            let b_model = Seq::new(
                pp.r as nat,
                |i2: int| poly_mul_spec(sigma_inv_x@, b_row_spec(*pp, x_d@, i2), qi),
            );
            assert(vv(a@) =~= a_model);
            assert(vv(b@) =~= b_model);
            let flat = eq3_flat(pp.commit, mm(pp.d_mat), a_model, b_model, vv(c@), cols);
            assert(cols >= 1) by (nonlinear_arith)
                requires
                    cols >= pp.commit.delta1 as int * pp.commit.r as int,
                    pp.commit.delta1 >= 1,
                    pp.commit.r >= 1,
            ;
            assert(mm(p_mat) =~= flat) by {
                assert forall|t2: int| 0 <= t2 < mm(p_mat).len() implies mm(p_mat)[t2]
                    == flat[t2] by {
                    let r2 = t2 / cols;
                    let c2 = t2 % cols;
                    lemma_mod_bound(t2, cols);
                    lemma_fundamental_div_mod(t2, cols);
                    assert(0 <= r2 < p_mat.rows as int && 0 <= c2 < cols) by (nonlinear_arith)
                        requires
                            0 <= t2 < (p_mat.rows as int) * cols,
                            t2 == cols * r2 + c2,
                            0 <= c2 < cols,
                            cols >= 1,
                    ;
                    assert(t2 == r2 * cols + c2) by (nonlinear_arith)
                        requires
                            t2 == cols * r2 + c2,
                    ;
                    assert(mm(p_mat)[r2 * cols + c2] == eq3_entry(
                        proto.commit,
                        mm(proto.d_mat),
                        vv(a@),
                        vv(b@),
                        vv(c@),
                        r2,
                        c2,
                    ));
                    assert(eq3_entry(proto.commit, mm(proto.d_mat), vv(a@), vv(b@), vv(c@), r2, c2)
                        == eq3_entry(pp.commit, mm(pp.d_mat), vv(a@), vv(b@), vv(c@), r2, c2));
                }
            }
            assert(vv(h@) =~= eq3_rhs_flat(pp.commit, vv(comm.0@), vv(prf.v@), prf.y_ring@)) by {
                assert forall|t2: int| 0 <= t2 < vv(h@).len() implies vv(h@)[t2] == eq3_rhs_flat(
                    pp.commit,
                    vv(comm.0@),
                    vv(prf.v@),
                    prf.y_ring@,
                )[t2] by {
                    assert(vv(h@)[t2] == eq3_rhs(proto.commit, vv(comm.0@), vv(prf.v@),
                        prf.y_ring@, t2));
                    assert(eq3_rhs(proto.commit, vv(comm.0@), vv(prf.v@), prf.y_ring@, t2)
                        == eq3_rhs(pp.commit, vv(comm.0@), vv(prf.v@), prf.y_ring@, t2));
                }
            }
            assert(vv(lhs@) == mat_vec_spec(
                mm(p_mat),
                p_mat.rows as int,
                cols,
                vv(zvec@),
                qi,
            ));
            assert(ok == (mat_vec_spec(flat, 3 * pp.commit.n as int + 2, cols, vv(zvec@), qi)
                == eq3_rhs_flat(pp.commit, vv(comm.0@), vv(prf.v@), prf.y_ring@)));
            assert(vv(c@).len() == pp.r && crate::ring::polyvec_wf(vv(c@), qi));
            assert(ok == verify_sys(*pp, vv(comm.0@), x_field as int, *prf, vv(c@)));
        }
    }
    ok
}

/// Append a cloned polynomial vector.
fn append_polyvec(dst: &mut Vec<Poly>, src: &Vec<Poly>)
    ensures
        final(dst)@.len() == old(dst)@.len() + src@.len(),
        vv(final(dst)@) == vv(old(dst)@) + vv(src@),
{
    let n = src.len();
    let mut i: usize = 0;
    proof {
        assert(vv(dst@) =~= vv(old(dst)@) + vv(src@).take(0));
    }
    while i < n
        invariant
            i <= n,
            n == src@.len(),
            dst@.len() == old(dst)@.len() + i,
            vv(dst@) == vv(old(dst)@) + vv(src@).take(i as int),
        decreases n - i,
    {
        let ghost before = vv(dst@);
        dst.push(src[i].clone());
        proof {
            assert(vv(src@)[i as int] == src@[i as int]@);
            assert(vv(dst@) =~= before.push(src@[i as int]@));
            assert(vv(old(dst)@) + vv(src@).take(i as int + 1) =~= before.push(
                vv(src@)[i as int],
            ));
        }
        i = i + 1;
    }
    proof {
        assert(vv(src@).take(n as int) =~= vv(src@));
    }
}

/// The two parameter records agree on everything the contracts read.
pub open spec fn commit_params_eqv(a: CommitParams, b: CommitParams) -> bool {
    &&& a.q == b.q
    &&& a.n == b.n
    &&& a.m == b.m
    &&& a.r == b.r
    &&& a.delta0 == b.delta0
    &&& a.delta1 == b.delta1
    &&& a.b0 == b.b0
    &&& a.b1 == b.b1
    &&& a.mu == b.mu
    &&& a.a_mat.rows == b.a_mat.rows
    &&& a.a_mat.cols == b.a_mat.cols
    &&& a.a_mat.data@.len() == b.a_mat.data@.len()
    &&& mm(a.a_mat) == mm(b.a_mat)
    &&& a.b_mat.rows == b.b_mat.rows
    &&& a.b_mat.cols == b.b_mat.cols
    &&& a.b_mat.data@.len() == b.b_mat.data@.len()
    &&& mm(a.b_mat) == mm(b.b_mat)
    &&& (a.e_mat is Some <==> b.e_mat is Some)
    &&& (a.e_mat matches Some(ae) ==> b.e_mat matches Some(be) && ae.rows == be.rows && ae.cols
        == be.cols && ae.data@.len() == be.data@.len() && mm(ae) == mm(be))
}

/// Clone the commitment parameters; the copy carries the same model.
pub fn clone_commit_params(pp: &CommitParams) -> (r: CommitParams)
    ensures
        commit_params_eqv(r, *pp),
        pp.wf() ==> r.wf(),
{
    let e_mat: Option<MatrixRq> = match &pp.e_mat {
        Some(e) => Some(e.clone()),
        None => None,
    };
    CommitParams {
        q: pp.q,
        n: pp.n,
        m: pp.m,
        r: pp.r,
        delta0: pp.delta0,
        delta1: pp.delta1,
        b0: pp.b0,
        b1: pp.b1,
        a_mat: pp.a_mat.clone(),
        mu: pp.mu,
        b_mat: pp.b_mat.clone(),
        e_mat,
    }
}

} // verus!
use vstd::prelude::*;

verus! {

use crate::ring::mulq;
use crate::proto::HvzkBuilders;
use crate::proto::HvzkPublic;
use crate::proto::build_eq14;
use crate::proto::eq14_entry;
use crate::proto::eq14_rhs;
use vstd::arithmetic::div_mod::lemma_fundamental_div_mod_converse_mod;
use vstd::arithmetic::div_mod::lemma_fundamental_div_mod_converse_div;
use crate::proto::cotimes_G_block;
use crate::proto::scale_spec;
use crate::transcript::u64_le_of;
use crate::transcript::fs_prefix;
use crate::transcript::pvec_bytes;
use crate::transcript::le_bytes;
use crate::rng::rng_next_u32;

/// The hiding variant's extra parameters: the first-message matrices and
/// the mask count.
pub struct HvzkParams {
    pub d0_mat: MatrixRq,
    pub d1_mat: MatrixRq,
    pub e0_mat: MatrixRq,
    pub l: usize,
    pub mu_v: usize,
}

/// Parameters of the hiding commitment scheme.
pub struct PcsParamsHvzk {
    pub pcs: PcsParams,
    pub hvzk: HvzkParams,
}

impl PcsParamsHvzk {
    pub open spec fn wf(self) -> bool {
        &&& self.pcs.wf()
        &&& self.pcs.commit.mu > 0
        &&& self.pcs.commit.mu <= 0x10_0000
        &&& self.pcs.commit.e_mat is Some
        &&& 1 <= self.hvzk.l <= 0x1000
        &&& self.hvzk.mu_v == self.hvzk.e0_mat.cols
        &&& self.hvzk.mu_v <= 0x10_0000
        &&& self.hvzk.d0_mat.wf(self.pcs.q.q as int)
        &&& self.hvzk.d0_mat.rows == self.pcs.commit.n
        &&& self.hvzk.d0_mat.cols == self.pcs.commit.delta1 * self.pcs.commit.r
        &&& self.hvzk.d1_mat.wf(self.pcs.q.q as int)
        &&& self.hvzk.d1_mat.rows == self.pcs.commit.n
        &&& self.hvzk.d1_mat.cols == self.pcs.commit.delta1 * self.hvzk.l
        &&& self.hvzk.e0_mat.wf(self.pcs.q.q as int)
        &&& self.hvzk.e0_mat.rows == self.pcs.commit.n
    }
}

/// An opened hiding evaluation proof: first message, blinded evaluations,
/// and the revealed witness `[what || lhat || rv || that || rh || z]`.
pub struct ProofHvzkClear {
    pub v: Vec<Poly>,
    pub j: Vec<Poly>,
    pub y_field: u32,
    pub what: Vec<Poly>,
    pub lhat: Vec<Poly>,
    pub rv: Vec<Poly>,
    pub that: Vec<Poly>,
    pub r: Vec<Poly>,
    pub z: Vec<Poly>,
}

/// Toy hiding setup: the plain setup, the hiding mask matrix, and the
/// first-message matrices, all from seeded generators.
pub fn setup_hvzk_toy(
    n_coeffs: usize,
    q: ModQ,
    seed: u64,
    l: usize,
    mu: usize,
    mu_v: usize,
) -> (pp: PcsParamsHvzk)
    requires
        q.wf(),
        1 <= n_coeffs <= 0x100_0000,
        1 <= l <= 0x1000,
        1 <= mu <= 0x10_0000,
        mu_v <= 0x10_0000,
        crate::gadget::covers(q.q as int, 6, crate::gadget::digits_spec(q.q as int, 6)),
        crate::gadget::covers(q.q as int, 7, crate::gadget::digits_spec(q.q as int, 7)),
    ensures
        pp.wf(),
        pp.pcs.q == q,
        pp.pcs.n_coeffs == n_coeffs,
        pp.hvzk.l == l,
        pp.hvzk.mu_v == mu_v,
{
    let base = setup_toy(n_coeffs, q, seed);
    let commit = clone_commit_params(&base.commit).with_hiding(mu, seed ^ 0xBEEF);
    let mut rng = rng_from_seed(seed ^ 0xD0D0);
    proof {
        assert(commit.delta1 <= 32) by {
            crate::gadget::lemma_digits_spec_bound(q.q as int, commit.b1 as int);
        }
        assert(commit.delta1 * commit.r <= 32 * 0x400 && commit.delta1 * l <= 32 * 0x1000)
            by (nonlinear_arith)
            requires
                commit.delta1 <= 32,
                commit.r <= 0x400,
                l <= 0x1000,
        ;
    }
    let d0_mat = MatrixRq::random(commit.n, commit.delta1 * commit.r, &q, &mut rng);
    let d1_mat = MatrixRq::random(commit.n, commit.delta1 * l, &q, &mut rng);
    let e0_mat = MatrixRq::random(commit.n, mu_v, &q, &mut rng);
    let pcs = PcsParams {
        q,
        n_coeffs: base.n_coeffs,
        d: base.d,
        m: base.m,
        r: base.r,
        commit,
        d_mat: base.d_mat,
    };
    PcsParamsHvzk { pcs, hvzk: HvzkParams { d0_mat, d1_mat, e0_mat, l, mu_v } }
}

/// The transcript bytes of the hiding evaluation protocol, as absorbed by
/// both sides: domain, first message, commitment, evaluation point.
pub open spec fn hvzk_transcript_bytes(v: Seq<Seq<u32>>, u: Seq<Seq<u32>>, x: int) -> Seq<u8> {
    fs_prefix() + hvzk_domain_spec() + pvec_bytes(v) + pvec_bytes(u) + le_bytes(x, 8)
}

/// The challenge both sides derive in the hiding evaluation protocol.
pub open spec fn hvzk_challenge(pp: PcsParamsHvzk, v: Seq<Seq<u32>>, u: Seq<Seq<u32>>, x: int) -> Seq<
    Seq<u32>,
> {
    crate::transcript::challenge_vec_spec(
        hvzk_transcript_bytes(v, u, x),
        pp.pcs.r as nat,
        pp.pcs.q.q as int,
        32,
        8,
    )
}

/// Blinding scalar `i` of the hiding protocol: an 8-byte stream draw
/// reduced mod `q`.
pub open spec fn hvzk_alpha_at(v: Seq<Seq<u32>>, u: Seq<Seq<u32>>, x: int, q: int, i: int) -> int {
    u64_le_of(hvzk_transcript_bytes(v, u, x), 8 * i) % q
}

/// The aggregation vector `w` of the hiding prover, over the committed
/// column grid of `f`.
pub open spec fn hvzk_w_spec(pp: PcsParamsHvzk, x: int, f: Seq<u32>) -> Seq<Seq<u32>> {
    let q = pp.pcs.q.q as int;
    let xd = poly_pow_spec(embed_spec(x, q), 64, q);
    Seq::new(
        pp.pcs.r as nat,
        |i: int|
            dot_spec(
                Seq::new(pp.pcs.commit.a_mat.cols as nat, |t: int| a_row_spec(pp.pcs, xd, t)),
                crate::commit::col_s_spec(pp.pcs.commit, pcs_grid(pp.pcs, f)[i]),
                pp.pcs.commit.a_mat.cols as int,
                q,
            ),
    )
}

/// The column digit vectors of the committed grid of `f`, by deep view.
pub open spec fn hvzk_s_model(pp: PcsParamsHvzk, f: Seq<u32>) -> Seq<Seq<Seq<u32>>> {
    Seq::new(
        pp.pcs.r as nat,
        |i: int| crate::commit::col_s_spec(pp.pcs.commit, pcs_grid(pp.pcs, f)[i]),
    )
}

/// The bytes of `greyhound/pcs-hvzk`.
pub open spec fn hvzk_domain_spec() -> Seq<u8> {
    seq![
        103u8, 114u8, 101u8, 121u8, 104u8, 111u8, 117u8, 110u8, 100u8, 47u8, 112u8, 99u8, 115u8,
        45u8, 104u8, 118u8, 122u8, 107u8,
    ]
}

/// The transcript domain separator of the hiding evaluation protocol.
fn hvzk_domain() -> (d: Vec<u8>)
    ensures
        d@ == hvzk_domain_spec(),
{
    let mut d: Vec<u8> = Vec::new();
    d.push(103);
    d.push(114);
    d.push(101);
    d.push(121);
    d.push(104);
    d.push(111);
    d.push(117);
    d.push(110);
    d.push(100);
    d.push(47);
    d.push(112);
    d.push(99);
    d.push(115);
    d.push(45);
    d.push(104);
    d.push(118);
    d.push(122);
    d.push(107);
    proof {
        assert(d@ =~= hvzk_domain_spec());
    }
    d
}

/// Scale a polynomial coefficient-wise by a scalar mod `q`.
fn scale_by(p: &Poly, k: u32, q: &ModQ) -> (r: Poly)
    requires
        q.wf(),
        p@.len() == 64,
    ensures
        poly_wf(r@, q.q as int),
        r@ == scale_spec(p@, k as int, q.q as int),
{
    let mut c: Vec<u32> = Vec::new();
    let mut t: usize = 0;
    while t < D
        invariant
            t <= 64,
            q.wf(),
            p@.len() == 64,
            c@.len() == t,
            forall|u2: int|
                0 <= u2 < t ==> (#[trigger] c@[u2]) < q.q && c@[u2] as int == mulq(
                    p@[u2] as int,
                    k as int,
                    q.q as int,
                ),
        decreases 64 - t,
    {
        c.push(q.mul(p.c[t], k));
        t = t + 1;
    }
    let r = Poly { c };
    proof {
        assert(r@ =~= scale_spec(p@, k as int, q.q as int));
    }
    r
}

/// Commit with hiding and produce the blinded evaluation proof.
pub fn eval_prove_hvzk_clear(pp: &PcsParamsHvzk, x_field: u32, f_coeffs: &Vec<u32>) -> (res: (
    Commitment,
    ProofHvzkClear,
))
    requires
        pp.wf(),
    ensures
        res.0.0@.len() == pp.pcs.commit.n,
        polyvec_wf(vv(res.0.0@), pp.pcs.q.q as int),
        res.1.v@.len() == pp.pcs.commit.n,
        polyvec_wf(vv(res.1.v@), pp.pcs.q.q as int),
        res.1.j@.len() == pp.hvzk.l,
        polyvec_wf(vv(res.1.j@), pp.pcs.q.q as int),
        res.1.what@.len() == pp.pcs.r * pp.pcs.commit.delta1,
        polyvec_wf(vv(res.1.what@), pp.pcs.q.q as int),
        res.1.lhat@.len() == pp.hvzk.l * pp.pcs.commit.delta1,
        polyvec_wf(vv(res.1.lhat@), pp.pcs.q.q as int),
        res.1.rv@.len() == pp.hvzk.mu_v,
        polyvec_wf(vv(res.1.rv@), pp.pcs.q.q as int),
        res.1.that@.len() == pp.pcs.commit.b_mat.cols,
        polyvec_wf(vv(res.1.that@), pp.pcs.q.q as int),
        res.1.r@.len() == pp.pcs.commit.mu,
        polyvec_wf(vv(res.1.r@), pp.pcs.q.q as int),
        res.1.z@.len() == pp.pcs.commit.a_mat.cols,
        polyvec_wf(vv(res.1.z@), pp.pcs.q.q as int),
        // the claimed evaluation is the constant term of the block sum
        res.1.y_field == y_ring_partial(
            Seq::new(
                (((pp.pcs.n_coeffs + 63) / 64) as usize) as nat,
                |t: int| pcs_block(f_coeffs@, pp.pcs.q.q as int, t),
            ),
            sigma_inv_spec(embed_spec(x_field as int, pp.pcs.q.q as int), pp.pcs.q.q as int),
            poly_pow_spec(embed_spec(x_field as int, pp.pcs.q.q as int), 64, pp.pcs.q.q as int),
            ((pp.pcs.n_coeffs + 63) / 64) as int,
            pp.pcs.q.q as int,
        )[0],
        // the revealed aggregation digits come from the committed grid
        vv(res.1.what@) == crate::gadget::g_inv_spec(
            hvzk_w_spec(*pp, x_field as int, f_coeffs@),
            pp.pcs.commit.b1 as int,
            pp.pcs.q.q as int,
            pp.pcs.commit.delta1 as nat,
        ),
        // the first message binds the revealed masks and randomness
        forall|i: int|
            0 <= i < pp.pcs.commit.n ==> #[trigger] vv(res.1.v@)[i] == poly_add_spec(
                poly_add_spec(
                    mat_vec_spec(
                        mm(pp.hvzk.d0_mat),
                        pp.pcs.commit.n as int,
                        pp.hvzk.d0_mat.cols as int,
                        vv(res.1.what@),
                        pp.pcs.q.q as int,
                    )[i],
                    mat_vec_spec(
                        mm(pp.hvzk.d1_mat),
                        pp.pcs.commit.n as int,
                        pp.hvzk.d1_mat.cols as int,
                        vv(res.1.lhat@),
                        pp.pcs.q.q as int,
                    )[i],
                    pp.pcs.q.q as int,
                ),
                mat_vec_spec(
                    mm(pp.hvzk.e0_mat),
                    pp.pcs.commit.n as int,
                    pp.hvzk.e0_mat.cols as int,
                    vv(res.1.rv@),
                    pp.pcs.q.q as int,
                )[i],
                pp.pcs.q.q as int,
            ),
        // the inner digits come from the committed grid
        forall|i: int|
            0 <= i < pp.pcs.r ==> vv(res.1.that@).subrange(
                i * (pp.pcs.commit.n * pp.pcs.commit.delta1) as int,
                (i + 1) * (pp.pcs.commit.n * pp.pcs.commit.delta1) as int,
            ) == crate::commit::col_that_spec(
                pp.pcs.commit,
                #[trigger] pcs_grid(pp.pcs, f_coeffs@)[i],
            ),
        // the commitment masks the outer compression with the revealed `r`
        forall|i: int|
            0 <= i < pp.pcs.commit.n ==> #[trigger] vv(res.0.0@)[i] == poly_add_spec(
                mat_vec_spec(
                    mm(pp.pcs.commit.b_mat),
                    pp.pcs.commit.n as int,
                    pp.pcs.commit.b_mat.cols as int,
                    vv(res.1.that@),
                    pp.pcs.q.q as int,
                )[i],
                mat_vec_spec(
                    mm(pp.pcs.commit.e_mat->Some_0),
                    pp.pcs.commit.n as int,
                    pp.pcs.commit.mu as int,
                    vv(res.1.r@),
                    pp.pcs.q.q as int,
                )[i],
                pp.pcs.q.q as int,
            ),
        // the blinded constant terms match the transcript's scalars
        forall|i: int|
            0 <= i < pp.hvzk.l ==> (#[trigger] vv(res.1.j@)[i][0]) as int == crate::ring::mulq(
                hvzk_alpha_at(vv(res.1.v@), vv(res.0.0@), x_field as int, pp.pcs.q.q as int, i),
                res.1.y_field as int,
                pp.pcs.q.q as int,
            ),
        // the witness combination uses the transcript's challenge
        forall|j: int|
            0 <= j < res.1.z@.len() ==> #[trigger] vv(res.1.z@)[j]
                == crate::proto::z_entry_model(
                hvzk_s_model(*pp, f_coeffs@),
                hvzk_challenge(*pp, vv(res.1.v@), vv(res.0.0@), x_field as int),
                j,
                pp.pcs.r as int,
                pp.pcs.q.q as int,
            ),
{
    let ghost qi = pp.pcs.q.q as int;
    let q = &pp.pcs.q;
    // hiding commitment on the packed grid
    let blocks_count: usize = (pp.pcs.n_coeffs + 63) / 64;
    let blocks_vec = pack_poly_to_ring_blocks(q, f_coeffs, blocks_count);
    let f_cols = make_columns(&blocks_vec, pp.pcs.m, pp.pcs.r, q);
    proof {
        let grid = pcs_grid(pp.pcs, f_coeffs@);
        assert forall|i2: int| 0 <= i2 < pp.pcs.r implies #[trigger] cols_view(f_cols@)[i2]
            == grid[i2] by {
            assert forall|j2: int| 0 <= j2 < pp.pcs.m implies cols_view(f_cols@)[i2][j2]
                == grid[i2][j2] by {
                assert(cols_view(f_cols@)[i2][j2] == grid_cell(
                    vv(blocks_vec@),
                    pp.pcs.m as int,
                    i2,
                    j2,
                ));
                if i2 * (pp.pcs.m as int) + j2 < blocks_count {
                    assert(vv(blocks_vec@)[i2 * (pp.pcs.m as int) + j2] =~= pcs_block(
                        f_coeffs@,
                        qi,
                        i2 * (pp.pcs.m as int) + j2,
                    ));
                }
            }
            assert(cols_view(f_cols@)[i2] =~= grid[i2]);
        }
        assert(cols_view(f_cols@) =~= grid);
        assert(f_cols_wf(pp.pcs.commit, cols_view(f_cols@)));
    }
    let cm = crate::commit::commit_hiding(&pp.pcs.commit, &f_cols);
    let u = cm.u;
    let dec_s = cm.dec.s;
    let dec_that = cm.dec.that;
    let dec_r = match cm.dec.r {
        Some(rh) => rh,
        None => {
            proof {
                assert(false);
            }
            Vec::new()
        },
    };
    // evaluation data
    let x_ring = embed_x(q, x_field);
    let x_d = pow_poly(x_ring.clone(), D, q);
    let sigma_inv_x = x_ring.sigma_inv(q);
    let mut y_ring = Poly::zero();
    let mut x_d_pow = Poly::monomial(0, 1, q);
    let ghost bv = Seq::new(blocks_count as nat, |t: int| pcs_block(f_coeffs@, qi, t));
    proof {
        lemma_poly_zero_wf(qi);
        lemma_small_mod(1, qi as nat);
        assert forall|t: int| 0 <= t < blocks_count implies #[trigger] vv(blocks_vec@)[t]
            == bv[t] by {
            assert(vv(blocks_vec@)[t] =~= pcs_block(f_coeffs@, qi, t));
        }
        assert(vv(blocks_vec@) =~= bv);
        assert(x_d_pow@ =~= crate::ring::monomial_spec(0, 1));
        assert(x_d_pow@ == poly_pow_spec(x_d@, 0, qi));
    }
    let mut i: usize = 0;
    while i < blocks_count
        invariant
            i <= blocks_count,
            pp.wf(),
            qi == pp.pcs.q.q as int,
            q.wf(),
            q == pp.pcs.q,
            blocks_vec@.len() == blocks_count,
            polyvec_wf(vv(blocks_vec@), qi),
            vv(blocks_vec@) == bv,
            poly_wf(x_d@, qi),
            x_d@ == poly_pow_spec(embed_spec(x_field as int, qi), 64, qi),
            poly_wf(sigma_inv_x@, qi),
            sigma_inv_x@ == sigma_inv_spec(embed_spec(x_field as int, qi), qi),
            poly_wf(y_ring@, qi),
            poly_wf(x_d_pow@, qi),
            x_d_pow@ == poly_pow_spec(x_d@, i as nat, qi),
            y_ring@ == y_ring_partial(bv, sigma_inv_x@, x_d@, i as int, qi),
        decreases blocks_count - i,
    {
        proof {
            assert(vv(blocks_vec@)[i as int] == blocks_vec@[i as int]@);
        }
        let term = sigma_inv_x.mul(&blocks_vec[i].mul(&x_d_pow, q), q);
        y_ring = y_ring.add(&term, q);
        x_d_pow = x_d_pow.mul(&x_d, q);
        i = i + 1;
    }
    let y_field = y_ring.ct();
    let a = build_a_digits(&pp.pcs, &x_d);
    // w and what
    proof {
        let grid = cols_view(f_cols@);
        assert forall|i2: int|
            0 <= i2 < dec_s@.len() implies (#[trigger] dec_s@[i2])@.len() == a@.len()
            && polyvec_wf(vv(dec_s@[i2]@), qi) by {
            crate::gadget::lemma_g_inv_spec_wf(
                grid[i2],
                pp.pcs.commit.b0 as int,
                qi,
                pp.pcs.commit.delta0 as nat,
            );
            assert(vv(dec_s@[i2]@) == crate::commit::col_s_spec(pp.pcs.commit, grid[i2]));
            assert(grid[i2].len() == pp.pcs.m);
            assert(pp.pcs.m * pp.pcs.commit.delta0 == pp.pcs.commit.delta0 * pp.pcs.m)
                by (nonlinear_arith);
            assert(vv(dec_s@[i2]@).len() == dec_s@[i2]@.len());
        }
    }
    let w = crate::proto::compute_w(&a, &dec_s, q);
    proof {
        assert(pp.pcs.d_mat.cols == w@.len() * pp.pcs.commit.delta1) by (nonlinear_arith)
            requires
                pp.pcs.d_mat.cols == pp.pcs.commit.delta1 * pp.pcs.commit.r,
                w@.len() == pp.pcs.r,
                pp.pcs.r == pp.pcs.commit.r,
        ;
        let a_model = Seq::new(
            pp.pcs.commit.a_mat.cols as nat,
            |t2: int| a_row_spec(pp.pcs, x_d@, t2),
        );
        assert(vv(a@) =~= a_model);
        assert(vv(w@) =~= hvzk_w_spec(*pp, x_field as int, f_coeffs@)) by {
            assert forall|i2: int| 0 <= i2 < pp.pcs.r implies vv(w@)[i2] == hvzk_w_spec(
                *pp,
                x_field as int,
                f_coeffs@,
            )[i2] by {
                assert(vv(w@)[i2] == dot_spec(vv(a@), vv(dec_s@[i2]@), a@.len() as int, qi));
                assert(vv(dec_s@[i2]@) == crate::commit::col_s_spec(
                    pp.pcs.commit,
                    cols_view(f_cols@)[i2],
                ));
            }
        }
    }
    let what = g_inv_vec(&w, pp.pcs.commit.b1, q);
    // masks with zero constant term, and their digits
    let mut rng = rng_from_seed(0x1CE);
    let mut masks: Vec<Poly> = Vec::new();
    let mut k: usize = 0;
    while k < pp.hvzk.l
        invariant
            k <= pp.hvzk.l,
            pp.wf(),
            qi == pp.pcs.q.q as int,
            q.wf(),
            q == pp.pcs.q,
            masks@.len() == k,
            polyvec_wf(vv(masks@), qi),
            forall|j2: int| 0 <= j2 < k ==> (#[trigger] vv(masks@)[j2])[0] == 0u32,
        decreases pp.hvzk.l - k,
    {
        let mut c: Vec<u32> = Vec::new();
        c.push(0);
        let mut t2: usize = 1;
        while t2 < D
            invariant
                1 <= t2 <= 64,
                pp.wf(),
                c@.len() == t2,
                c@[0] == 0u32,
                forall|u2: int| 0 <= u2 < t2 ==> c@[u2] < pp.pcs.q.q,
            decreases 64 - t2,
        {
            let vcoef = rng_next_u32(&mut rng) % pp.pcs.q.q;
            c.push(vcoef);
            t2 = t2 + 1;
        }
        let p = Poly { c };
        let ghost before = vv(masks@);
        masks.push(p);
        proof {
            assert(vv(masks@) =~= before.push(p@));
        }
        k = k + 1;
    }
    let lhat = g_inv_vec(&masks, pp.pcs.commit.b1, q);
    // rv uniform
    let mut rv: Vec<Poly> = Vec::new();
    let mut k2: usize = 0;
    while k2 < pp.hvzk.mu_v
        invariant
            k2 <= pp.hvzk.mu_v,
            pp.wf(),
            qi == pp.pcs.q.q as int,
            q.wf(),
            q == pp.pcs.q,
            rv@.len() == k2,
            polyvec_wf(vv(rv@), qi),
        decreases pp.hvzk.mu_v - k2,
    {
        let mut c: Vec<u32> = Vec::new();
        let mut t2: usize = 0;
        while t2 < D
            invariant
                t2 <= 64,
                pp.wf(),
                c@.len() == t2,
                forall|u2: int| 0 <= u2 < t2 ==> c@[u2] < pp.pcs.q.q,
            decreases 64 - t2,
        {
            let vcoef = rng_next_u32(&mut rng) % pp.pcs.q.q;
            c.push(vcoef);
            t2 = t2 + 1;
        }
        let p = Poly { c };
        let ghost before = vv(rv@);
        rv.push(p);
        proof {
            assert(vv(rv@) =~= before.push(p@));
        }
        k2 = k2 + 1;
    }
    // v = D0 what + D1 lhat + E0 rv
    proof {
        assert(what@.len() == pp.pcs.r * pp.pcs.commit.delta1);
        assert(pp.pcs.r * pp.pcs.commit.delta1 == pp.pcs.commit.delta1 * pp.pcs.commit.r)
            by (nonlinear_arith)
            requires
                pp.pcs.r == pp.pcs.commit.r,
        ;
        assert(lhat@.len() == pp.hvzk.l * pp.pcs.commit.delta1);
        assert(pp.hvzk.l * pp.pcs.commit.delta1 == pp.pcs.commit.delta1 * pp.hvzk.l)
            by (nonlinear_arith);
    }
    let v0 = pp.hvzk.d0_mat.mul_vec(&what, q);
    let v1 = pp.hvzk.d1_mat.mul_vec(&lhat, q);
    let v2 = pp.hvzk.e0_mat.mul_vec(&rv, q);
    let mut v: Vec<Poly> = Vec::new();
    let mut k3: usize = 0;
    while k3 < pp.pcs.commit.n
        invariant
            k3 <= pp.pcs.commit.n,
            pp.wf(),
            qi == pp.pcs.q.q as int,
            q.wf(),
            q == pp.pcs.q,
            v0@.len() == pp.pcs.commit.n,
            v1@.len() == pp.pcs.commit.n,
            v2@.len() == pp.pcs.commit.n,
            polyvec_wf(vv(v0@), qi),
            polyvec_wf(vv(v1@), qi),
            polyvec_wf(vv(v2@), qi),
            v@.len() == k3,
            forall|j2: int| 0 <= j2 < k3 ==> poly_wf((#[trigger] v@[j2])@, qi),
            forall|j2: int|
                0 <= j2 < k3 ==> (#[trigger] v@[j2]@) == poly_add_spec(
                    poly_add_spec(vv(v0@)[j2], vv(v1@)[j2], qi),
                    vv(v2@)[j2],
                    qi,
                ),
        decreases pp.pcs.commit.n - k3,
    {
        proof {
            assert(vv(v0@)[k3 as int] == v0@[k3 as int]@);
            assert(vv(v1@)[k3 as int] == v1@[k3 as int]@);
            assert(vv(v2@)[k3 as int] == v2@[k3 as int]@);
        }
        v.push(v0[k3].add(&v1[k3], q).add(&v2[k3], q));
        k3 = k3 + 1;
    }
    // Fiat-Shamir: challenge and blinding scalars
    let domain = hvzk_domain();
    let mut fs = Fs::new(domain.as_slice());
    proof {
        lemma_pv_len64(v@, qi);
        lemma_pv_len64(u@, qi);
    }
    fs.absorb_polyvec(&v);
    fs.absorb_polyvec(&u);
    fs.absorb_u64(x_field as u64);
    proof {
        assert(fs@ =~= hvzk_transcript_bytes(vv(v@), vv(u@), x_field as int));
    }
    let c = sample_challenge(&fs, &pp.pcs.commit);
    let alpha = fs.alphas(pp.hvzk.l, q);
    proof {
        assert(vv(c@) == hvzk_challenge(*pp, vv(v@), vv(u@), x_field as int));
        assert forall|i2: int| 0 <= i2 < pp.hvzk.l implies (#[trigger] alpha@[i2]) as int
            == hvzk_alpha_at(vv(v@), vv(u@), x_field as int, qi, i2) by {}
    }
    // j_i = l_i + alpha_i * y_ring
    let mut jv: Vec<Poly> = Vec::new();
    let mut k4: usize = 0;
    while k4 < pp.hvzk.l
        invariant
            k4 <= pp.hvzk.l,
            pp.wf(),
            qi == pp.pcs.q.q as int,
            q.wf(),
            q == pp.pcs.q,
            masks@.len() == pp.hvzk.l,
            polyvec_wf(vv(masks@), qi),
            alpha@.len() == pp.hvzk.l,
            forall|j2: int| 0 <= j2 < pp.hvzk.l ==> (#[trigger] alpha@[j2]) < pp.pcs.q.q,
            forall|j2: int| 0 <= j2 < pp.hvzk.l ==> (#[trigger] vv(masks@)[j2])[0] == 0u32,
            poly_wf(y_ring@, qi),
            y_field == y_ring@[0],
            jv@.len() == k4,
            forall|j2: int| 0 <= j2 < k4 ==> poly_wf((#[trigger] jv@[j2])@, qi),
            forall|j2: int|
                0 <= j2 < k4 ==> (#[trigger] jv@[j2]@)[0] as int == crate::ring::mulq(
                    alpha@[j2] as int,
                    y_field as int,
                    qi,
                ),
        decreases pp.hvzk.l - k4,
    {
        proof {
            assert(vv(masks@)[k4 as int] == masks@[k4 as int]@);
        }
        let scaled = scale_by(&y_ring, alpha[k4], q);
        let jp = masks[k4].add(&scaled, q);
        proof {
            assert(jp@[0] as int == crate::ring::addq(0, scaled@[0] as int, qi));
            assert(scaled@[0] as int == crate::ring::mulq(y_field as int, alpha@[k4 as int] as int, qi));
            assert(jp@[0] as int == crate::ring::mulq(alpha@[k4 as int] as int, y_field as int, qi))
                by {
                lemma_small_mod(
                    (crate::ring::mulq(y_field as int, alpha@[k4 as int] as int, qi)) as nat,
                    qi as nat,
                );
                lemma_mod_bound((y_field as int) * (alpha@[k4 as int] as int), qi);
                assert((y_field as int) * (alpha@[k4 as int] as int) == (alpha@[k4 as int] as int)
                    * (y_field as int)) by (nonlinear_arith);
            }
        }
        jv.push(jp);
        k4 = k4 + 1;
    }
    // witness combination
    let z = crate::proto::compute_z(&dec_s, &c, q);
    proof {
        assert forall|j2: int| 0 <= j2 < vv(jv@).len() implies poly_wf(
            #[trigger] vv(jv@)[j2],
            qi,
        ) by {
            assert(vv(jv@)[j2] == jv@[j2]@);
        }
        assert forall|j2: int| 0 <= j2 < vv(v@).len() implies poly_wf(
            #[trigger] vv(v@)[j2],
            qi,
        ) by {
            assert(vv(v@)[j2] == v@[j2]@);
        }
        assert(cols_view(dec_s@) =~= hvzk_s_model(*pp, f_coeffs@)) by {
            assert forall|i2: int| 0 <= i2 < pp.pcs.r implies cols_view(dec_s@)[i2]
                == hvzk_s_model(*pp, f_coeffs@)[i2] by {
                assert(cols_view(dec_s@)[i2] == vv(dec_s@[i2]@));
            }
        }
        assert forall|j2: int| 0 <= j2 < z@.len() implies #[trigger] vv(z@)[j2]
            == crate::proto::z_entry_model(
            hvzk_s_model(*pp, f_coeffs@),
            vv(c@),
            j2,
            pp.pcs.r as int,
            qi,
        ) by {
            assert(vv(z@)[j2] == crate::proto::z_entry(dec_s@, vv(c@), j2, dec_s@.len() as int, qi));
            crate::proto::lemma_z_entry_model(dec_s@, vv(c@), j2, dec_s@.len() as int, qi);
        }
        assert forall|j2: int| 0 <= j2 < vv(jv@).len() implies (#[trigger] vv(jv@)[j2])[0]
            == jv@[j2]@[0] by {
            assert(vv(jv@)[j2] == jv@[j2]@);
        }
    }
    let prf = ProofHvzkClear {
        v,
        j: jv,
        y_field,
        what,
        lhat,
        rv,
        that: dec_that,
        r: dec_r,
        z,
    };
    (Commitment(u), prf)
}

/// The canonical builders record of the hiding system, straight from the
/// parameters.
pub open spec fn hvzk_bld(pp: PcsParamsHvzk) -> HvzkBuilders {
    HvzkBuilders {
        pp: pp.pcs.commit,
        d0_mat: pp.hvzk.d0_mat,
        d1_mat: pp.hvzk.d1_mat,
        e0_mat: pp.hvzk.e0_mat,
        l: pp.hvzk.l,
    }
}

/// The blinding scalars as a sequence of canonical residues.
pub open spec fn hvzk_alphas_spec(
    v: Seq<Seq<u32>>,
    u: Seq<Seq<u32>>,
    x: int,
    q: int,
    l: nat,
) -> Seq<u32> {
    Seq::new(l, |i: int| hvzk_alpha_at(v, u, x, q, i) as u32)
}

/// Entry `(row, col)` of the full hiding system: the generic rows of
/// `eq14_entry`, then the challenge row `[c^T G | 0 | 0 | 0 | 0 | -a^T]`
/// and the block `[0 | 0 | 0 | c^T (x) G | 0 | -A]`.
pub open spec fn hvzk_full_entry(
    bld: HvzkBuilders,
    alpha: Seq<u32>,
    sigb: Seq<Seq<u32>>,
    a: Seq<Seq<u32>>,
    c: Seq<Seq<u32>>,
    row: int,
    col: int,
) -> Seq<u32> {
    let pp = bld.pp;
    let n = pp.n as int;
    let q = pp.q.q as int;
    let delta1 = pp.delta1 as int;
    let d1r = delta1 * pp.r as int;
    let ndr = n * delta1 * pp.r as int;
    let lw = delta1 * bld.l as int;
    let d0m = pp.delta0 as int * pp.m as int;
    let off_t = d1r + lw + bld.e0_mat.cols as int;
    let off_r = off_t + ndr;
    let off_z = off_r + pp.mu as int;
    if row < 2 * n + bld.l {
        eq14_entry(bld, alpha, sigb, row, col)
    } else if row == 2 * n + bld.l {
        if col < d1r {
            row_g_entry(c, pp.b1 as int, delta1, q, col)
        } else if col >= off_z {
            crate::ring::poly_neg_spec(a[col - off_z], q)
        } else {
            poly_zero()
        }
    } else {
        let rr = row - (2 * n + bld.l + 1);
        if off_t <= col < off_r {
            crate::proto::cotimes_entry(c, n, delta1, pp.b1 as int, q, rr, col - off_t)
        } else if col >= off_z {
            crate::ring::poly_neg_spec(mm(pp.a_mat)[rr * d0m + (col - off_z)], q)
        } else {
            poly_zero()
        }
    }
}

/// Right-hand side of the full hiding system: `[v ; u ; j ; 0 ; 0_n]`.
pub open spec fn hvzk_rhs_full(
    bld: HvzkBuilders,
    u: Seq<Seq<u32>>,
    v: Seq<Seq<u32>>,
    jv: Seq<Seq<u32>>,
    row: int,
) -> Seq<u32> {
    if row < 2 * bld.pp.n + bld.l {
        eq14_rhs(bld, u, v, jv, row)
    } else {
        poly_zero()
    }
}

/// Total column count of the hiding system.
pub open spec fn hvzk_cols(pp: PcsParamsHvzk) -> int {
    let cm = pp.pcs.commit;
    cm.delta1 as int * cm.r as int + cm.delta1 as int * pp.hvzk.l as int + pp.hvzk.e0_mat.cols
        as int + cm.n as int * cm.delta1 as int * cm.r as int + cm.mu as int + cm.delta0 as int
        * cm.m as int
}

/// Total row count of the hiding system.
pub open spec fn hvzk_rows(pp: PcsParamsHvzk) -> int {
    3 * pp.pcs.commit.n as int + pp.hvzk.l as int + 1
}

/// The verifier's algebraic acceptance condition for a challenge `c` and
/// scalars `alpha`: the full rebuilt system applied to the revealed witness
/// `[what || lhat || rv || that || r || z]` gives the right-hand side.
pub open spec fn hvzk_verify_sys(
    pp: PcsParamsHvzk,
    u: Seq<Seq<u32>>,
    x: int,
    prf: ProofHvzkClear,
    c: Seq<Seq<u32>>,
    alpha: Seq<u32>,
) -> bool {
    let q = pp.pcs.q.q as int;
    let xd = poly_pow_spec(embed_spec(x, q), 64, q);
    let six = sigma_inv_spec(embed_spec(x, q), q);
    let sigb = Seq::new(
        pp.pcs.r as nat,
        |i: int| poly_mul_spec(six, b_row_spec(pp.pcs, xd, i), q),
    );
    let a = Seq::new(pp.pcs.commit.a_mat.cols as nat, |t: int| a_row_spec(pp.pcs, xd, t));
    let cols = hvzk_cols(pp);
    let zvec = vv(prf.what@) + vv(prf.lhat@) + vv(prf.rv@) + vv(prf.that@) + vv(prf.r@) + vv(
        prf.z@,
    );
    &&& zvec.len() == cols
    &&& mat_vec_spec(
        Seq::new(
            (hvzk_rows(pp) * cols) as nat,
            |t: int| hvzk_full_entry(hvzk_bld(pp), alpha, sigb, a, c, t / cols, t % cols),
        ),
        hvzk_rows(pp),
        cols,
        zvec,
        q,
    ) == Seq::new(
        hvzk_rows(pp) as nat,
        |t: int| hvzk_rhs_full(hvzk_bld(pp), u, vv(prf.v@), vv(prf.j@), t),
    )
}

/// Verify a blinded evaluation proof: the blinded constant terms must match
/// `alpha_i * y_field` for the transcript's scalars, and the full hiding
/// system with the challenge blocks appended must accept the witness.
pub fn eval_verify_hvzk_clear(
    pp: &PcsParamsHvzk,
    comm: &Commitment,
    x_field: u32,
    prf: &ProofHvzkClear,
) -> (res: bool)
    requires
        pp.wf(),
        comm.0@.len() == pp.pcs.commit.n,
        polyvec_wf(vv(comm.0@), pp.pcs.q.q as int),
        prf.v@.len() == pp.pcs.commit.n,
        polyvec_wf(vv(prf.v@), pp.pcs.q.q as int),
        prf.j@.len() == pp.hvzk.l,
        polyvec_wf(vv(prf.j@), pp.pcs.q.q as int),
        polyvec_wf(vv(prf.what@), pp.pcs.q.q as int),
        polyvec_wf(vv(prf.lhat@), pp.pcs.q.q as int),
        polyvec_wf(vv(prf.rv@), pp.pcs.q.q as int),
        polyvec_wf(vv(prf.that@), pp.pcs.q.q as int),
        polyvec_wf(vv(prf.r@), pp.pcs.q.q as int),
        polyvec_wf(vv(prf.z@), pp.pcs.q.q as int),
    ensures
        res == ((forall|i: int|
            0 <= i < pp.hvzk.l ==> (#[trigger] vv(prf.j@)[i][0]) as int == crate::ring::mulq(
                hvzk_alpha_at(vv(prf.v@), vv(comm.0@), x_field as int, pp.pcs.q.q as int, i),
                prf.y_field as int,
                pp.pcs.q.q as int,
            )) && hvzk_verify_sys(
            *pp,
            vv(comm.0@),
            x_field as int,
            *prf,
            hvzk_challenge(*pp, vv(prf.v@), vv(comm.0@), x_field as int),
            hvzk_alphas_spec(
                vv(prf.v@),
                vv(comm.0@),
                x_field as int,
                pp.pcs.q.q as int,
                pp.hvzk.l as nat,
            ),
        )),
{
    let ghost qi = pp.pcs.q.q as int;
    let q = &pp.pcs.q;
    let ghost cspec = hvzk_challenge(*pp, vv(prf.v@), vv(comm.0@), x_field as int);
    let ghost aspec = hvzk_alphas_spec(vv(prf.v@), vv(comm.0@), x_field as int, qi, pp.hvzk.l as nat);
    let domain = hvzk_domain();
    let mut fs = Fs::new(domain.as_slice());
    proof {
        lemma_pv_len64(prf.v@, qi);
        lemma_pv_len64(comm.0@, qi);
    }
    fs.absorb_polyvec(&prf.v);
    fs.absorb_polyvec(&comm.0);
    fs.absorb_u64(x_field as u64);
    let ghost tbytes = hvzk_transcript_bytes(vv(prf.v@), vv(comm.0@), x_field as int);
    proof {
        assert(fs@ =~= tbytes);
    }
    let alpha = fs.alphas(pp.hvzk.l, q);
    proof {
        assert(alpha@ =~= aspec);
    }
    // blinded constant terms
    let mut i: usize = 0;
    while i < pp.hvzk.l
        invariant
            i <= pp.hvzk.l,
            pp.wf(),
            qi == pp.pcs.q.q as int,
            q.wf(),
            q == pp.pcs.q,
            prf.j@.len() == pp.hvzk.l,
            polyvec_wf(vv(prf.j@), qi),
            alpha@.len() == pp.hvzk.l,
            alpha@ == aspec,
            aspec == hvzk_alphas_spec(
                vv(prf.v@),
                vv(comm.0@),
                x_field as int,
                qi,
                pp.hvzk.l as nat,
            ),
            forall|t: int| 0 <= t < pp.hvzk.l ==> (#[trigger] alpha@[t]) < pp.pcs.q.q,
            forall|t: int|
                0 <= t < i ==> (#[trigger] vv(prf.j@)[t][0]) as int == crate::ring::mulq(
                    alpha@[t] as int,
                    prf.y_field as int,
                    qi,
                ),
        decreases pp.hvzk.l - i,
    {
        let expect = q.mul(alpha[i], prf.y_field);
        proof {
            assert(vv(prf.j@)[i as int] == prf.j@[i as int]@);
        }
        proof {
            assert(alpha@[i as int] as int == hvzk_alpha_at(
                vv(prf.v@),
                vv(comm.0@),
                x_field as int,
                qi,
                i as int,
            )) by {
                lemma_mod_bound(
                    u64_le_of(
                        hvzk_transcript_bytes(vv(prf.v@), vv(comm.0@), x_field as int),
                        8 * (i as int),
                    ),
                    qi,
                );
            }
        }
        if prf.j[i].ct() != expect {
            proof {
                assert((vv(prf.j@)[i as int][0]) as int != crate::ring::mulq(
                    hvzk_alpha_at(vv(prf.v@), vv(comm.0@), x_field as int, qi, i as int),
                    prf.y_field as int,
                    qi,
                ));
            }
            return false;
        }
        i = i + 1;
    }
    proof {
        assert forall|t: int|
            0 <= t < pp.hvzk.l implies (#[trigger] vv(prf.j@)[t][0]) as int == crate::ring::mulq(
            hvzk_alpha_at(vv(prf.v@), vv(comm.0@), x_field as int, qi, t),
            prf.y_field as int,
            qi,
        ) by {
            lemma_mod_bound(
                u64_le_of(
                    hvzk_transcript_bytes(vv(prf.v@), vv(comm.0@), x_field as int),
                    8 * t,
                ),
                qi,
            );
            assert(aspec[t] as int == hvzk_alpha_at(
                vv(prf.v@),
                vv(comm.0@),
                x_field as int,
                qi,
                t,
            ));
        }
    }
    // rebuild the system
    let x_ring = embed_x(q, x_field);
    let x_d = pow_poly(x_ring.clone(), D, q);
    let sigma_inv_x = x_ring.sigma_inv(q);
    let a = build_a_digits(&pp.pcs, &x_d);
    let b = build_b(&pp.pcs, &x_d);
    let c = sample_challenge(&fs, &pp.pcs.commit);
    proof {
        assert(vv(c@) == cspec);
    }
    let bld = HvzkBuilders {
        pp: clone_commit_params(&pp.pcs.commit),
        d0_mat: pp.hvzk.d0_mat.clone(),
        d1_mat: pp.hvzk.d1_mat.clone(),
        e0_mat: pp.hvzk.e0_mat.clone(),
        l: pp.hvzk.l,
    };
    let pubin = HvzkPublic {
        a: clone_polyvec(&a),
        b: clone_polyvec(&b),
        u: clone_polyvec(&comm.0),
        v: clone_polyvec(&prf.v),
        j: clone_polyvec(&prf.j),
        alpha,
        sigma_inv_x,
    };
    proof {
        assert(bld.wf());
        assert forall|t: int| 0 <= t < pubin.b@.len() implies poly_wf(
            #[trigger] vv(pubin.b@)[t],
            qi,
        ) by {
            assert(vv(pubin.b@)[t] == vv(b@)[t]);
        }
        assert forall|t: int| 0 <= t < pubin.u@.len() implies poly_wf(
            #[trigger] vv(pubin.u@)[t],
            qi,
        ) by {
            assert(vv(pubin.u@)[t] == vv(comm.0@)[t]);
        }
        assert forall|t: int| 0 <= t < pubin.v@.len() implies poly_wf(
            #[trigger] vv(pubin.v@)[t],
            qi,
        ) by {
            assert(vv(pubin.v@)[t] == vv(prf.v@)[t]);
        }
        assert forall|t: int| 0 <= t < pubin.j@.len() implies poly_wf(
            #[trigger] vv(pubin.j@)[t],
            qi,
        ) by {
            assert(vv(pubin.j@)[t] == vv(prf.j@)[t]);
        }
    }
    let ph = build_eq14(&bld, q, &pubin);
    let p_top = ph.0;
    let mut h = ph.1;
    // the challenge-dependent rows and right-hand side
    let row_cg = row_vec_times_G(&c, pp.pcs.commit.b1, pp.pcs.commit.delta1, q);
    let cblock = cotimes_G_block(&c, pp.pcs.commit.n, pp.pcs.commit.b1, pp.pcs.commit.delta1, q);
    proof {
        assert(pp.pcs.r * pp.pcs.commit.delta1 == pp.pcs.commit.delta1 * pp.pcs.commit.r)
            by (nonlinear_arith)
            requires
                pp.pcs.r == pp.pcs.commit.r,
        ;
        assert(cblock.cols == pp.pcs.commit.n * pp.pcs.commit.delta1 * pp.pcs.commit.r)
            by (nonlinear_arith)
            requires
                cblock.cols == pp.pcs.commit.n * pp.pcs.commit.delta1 * (c@.len() as int),
                c@.len() == pp.pcs.commit.r,
        ;
        assert(pp.pcs.commit.delta1 <= 32) by {
            crate::gadget::lemma_digits_spec_bound(qi, pp.pcs.commit.b1 as int);
        }
        assert(pp.hvzk.l * pp.pcs.commit.delta1 <= 0x1000 * 32 && pp.pcs.commit.delta1
            * pp.pcs.commit.r <= 32 * 1024) by (nonlinear_arith)
            requires
                pp.hvzk.l <= 0x1000,
                pp.pcs.commit.delta1 <= 32,
                pp.pcs.commit.r <= 1024,
        ;
        assert(pp.hvzk.l * pp.pcs.commit.delta1 == pp.pcs.commit.delta1 * pp.hvzk.l)
            by (nonlinear_arith);
    }
    let d1r: usize = pp.pcs.commit.delta1 * pp.pcs.commit.r;
    let off_t: usize = d1r + pp.hvzk.l * pp.pcs.commit.delta1 + pp.hvzk.mu_v;
    let off_r: usize = off_t + pp.pcs.commit.b_mat.cols;
    let off_z: usize = off_r + pp.pcs.commit.mu;
    let rows: usize = p_top.rows;
    let cols: usize = p_top.cols;
    let two_nl: usize = 2 * pp.pcs.commit.n + pp.hvzk.l;
    proof {
        assert(off_z + pp.pcs.commit.a_mat.cols == cols);
        assert(rows as int == hvzk_rows(*pp));
        assert(cols as int == hvzk_cols(*pp));
    }
    let ghost sigbv = Seq::new(
        pp.pcs.r as nat,
        |i2: int| poly_mul_spec(sigma_inv_x@, b_row_spec(pp.pcs, x_d@, i2), qi),
    );
    let ghost amodel = Seq::new(
        pp.pcs.commit.a_mat.cols as nat,
        |t2: int| a_row_spec(pp.pcs, x_d@, t2),
    );
    proof {
        assert(vv(a@) =~= amodel);
        assert(Seq::new(
            pp.pcs.commit.r as nat,
            |i2: int| poly_mul_spec(pubin.sigma_inv_x@, vv(pubin.b@)[i2], qi),
        ) =~= sigbv) by {
            assert forall|i2: int| 0 <= i2 < pp.pcs.commit.r implies poly_mul_spec(
                pubin.sigma_inv_x@,
                vv(pubin.b@)[i2],
                qi,
            ) == sigbv[i2] by {
                assert(vv(pubin.b@)[i2] == vv(b@)[i2]);
                assert(vv(b@)[i2] == b_row_spec(pp.pcs, x_d@, i2));
            }
        }
    }
    // assemble the full matrix entry by entry
    let mut data: Vec<Poly> = Vec::new();
    let mut row: usize = 0;
    while row < rows
        invariant
            row <= rows,
            pp.wf(),
            qi == pp.pcs.q.q as int,
            q.wf(),
            q == pp.pcs.q,
            rows == p_top.rows,
            cols == p_top.cols,
            rows as int == hvzk_rows(*pp),
            cols as int == hvzk_cols(*pp),
            two_nl == 2 * pp.pcs.commit.n + pp.hvzk.l,
            d1r == pp.pcs.commit.delta1 * pp.pcs.commit.r,
            off_t == d1r + pp.pcs.commit.delta1 * pp.hvzk.l + pp.hvzk.mu_v,
            off_r == off_t + pp.pcs.commit.b_mat.cols,
            off_z == off_r + pp.pcs.commit.mu,
            off_z + pp.pcs.commit.a_mat.cols == cols,
            p_top.wf(qi),
            p_top.data@.len() == p_top.rows * p_top.cols,
            forall|r2: int, c2: int|
                0 <= r2 < rows && 0 <= c2 < cols ==> #[trigger] mm(p_top)[r2 * (cols as int) + c2]
                    == eq14_entry(bld, pubin.alpha@, sigbv, r2, c2),
            pubin.alpha@ == aspec,
            bld.l == pp.hvzk.l,
            commit_params_eqv(bld.pp, pp.pcs.commit),
            bld.d0_mat.rows == pp.hvzk.d0_mat.rows && bld.d0_mat.cols == pp.hvzk.d0_mat.cols
                && mm(bld.d0_mat) == mm(pp.hvzk.d0_mat),
            bld.d1_mat.rows == pp.hvzk.d1_mat.rows && bld.d1_mat.cols == pp.hvzk.d1_mat.cols
                && mm(bld.d1_mat) == mm(pp.hvzk.d1_mat),
            bld.e0_mat.rows == pp.hvzk.e0_mat.rows && bld.e0_mat.cols == pp.hvzk.e0_mat.cols
                && mm(bld.e0_mat) == mm(pp.hvzk.e0_mat),
            row_cg@.len() == d1r,
            polyvec_wf(vv(row_cg@), qi),
            forall|t: int|
                0 <= t < d1r ==> #[trigger] vv(row_cg@)[t] == row_g_entry(
                    vv(c@),
                    pp.pcs.commit.b1 as int,
                    pp.pcs.commit.delta1 as int,
                    qi,
                    t,
                ),
            cblock.rows == pp.pcs.commit.n,
            cblock.cols == pp.pcs.commit.b_mat.cols,
            cblock.wf(qi),
            forall|r2: int, c2: int|
                0 <= r2 < pp.pcs.commit.n && 0 <= c2 < cblock.cols ==> #[trigger] mm(cblock)[r2 * (
                cblock.cols as int) + c2] == crate::proto::cotimes_entry(
                    vv(c@),
                    pp.pcs.commit.n as int,
                    pp.pcs.commit.delta1 as int,
                    pp.pcs.commit.b1 as int,
                    qi,
                    r2,
                    c2,
                ),
            a@.len() == pp.pcs.commit.a_mat.cols,
            polyvec_wf(vv(a@), qi),
            vv(a@) == amodel,
            data@.len() == row * cols,
            row * cols >= 0,
            forall|t: int|
                0 <= t < row * cols ==> poly_wf(#[trigger] vv(data@)[t], qi) && vv(data@)[t]
                    == hvzk_full_entry(
                    hvzk_bld(*pp),
                    aspec,
                    sigbv,
                    amodel,
                    vv(c@),
                    t / (cols as int),
                    t % (cols as int),
                ),
        decreases rows - row,
    {
        proof {
            assert((row + 1) * cols == row * cols + cols && (row + 1) * cols <= rows * cols)
                by (nonlinear_arith)
                requires
                    0 <= row < rows,
                    cols >= 0,
            ;
        }
        let mut col: usize = 0;
        while col < cols
            invariant
                col <= cols,
                row < rows,
                pp.wf(),
                qi == pp.pcs.q.q as int,
                q.wf(),
                q == pp.pcs.q,
                rows == p_top.rows,
                cols == p_top.cols,
                rows as int == hvzk_rows(*pp),
                cols as int == hvzk_cols(*pp),
                two_nl == 2 * pp.pcs.commit.n + pp.hvzk.l,
                d1r == pp.pcs.commit.delta1 * pp.pcs.commit.r,
                off_t == d1r + pp.pcs.commit.delta1 * pp.hvzk.l + pp.hvzk.mu_v,
                off_r == off_t + pp.pcs.commit.b_mat.cols,
                off_z == off_r + pp.pcs.commit.mu,
                off_z + pp.pcs.commit.a_mat.cols == cols,
                p_top.wf(qi),
                p_top.data@.len() == p_top.rows * p_top.cols,
                forall|r2: int, c2: int|
                    0 <= r2 < rows && 0 <= c2 < cols ==> #[trigger] mm(p_top)[r2 * (cols as int)
                        + c2] == eq14_entry(bld, pubin.alpha@, sigbv, r2, c2),
                pubin.alpha@ == aspec,
                bld.l == pp.hvzk.l,
                commit_params_eqv(bld.pp, pp.pcs.commit),
                bld.d0_mat.rows == pp.hvzk.d0_mat.rows && bld.d0_mat.cols == pp.hvzk.d0_mat.cols
                    && mm(bld.d0_mat) == mm(pp.hvzk.d0_mat),
                bld.d1_mat.rows == pp.hvzk.d1_mat.rows && bld.d1_mat.cols == pp.hvzk.d1_mat.cols
                    && mm(bld.d1_mat) == mm(pp.hvzk.d1_mat),
                bld.e0_mat.rows == pp.hvzk.e0_mat.rows && bld.e0_mat.cols == pp.hvzk.e0_mat.cols
                    && mm(bld.e0_mat) == mm(pp.hvzk.e0_mat),
                row_cg@.len() == d1r,
                polyvec_wf(vv(row_cg@), qi),
                forall|t: int|
                    0 <= t < d1r ==> #[trigger] vv(row_cg@)[t] == row_g_entry(
                        vv(c@),
                        pp.pcs.commit.b1 as int,
                        pp.pcs.commit.delta1 as int,
                        qi,
                        t,
                    ),
                cblock.rows == pp.pcs.commit.n,
                cblock.cols == pp.pcs.commit.b_mat.cols,
                cblock.wf(qi),
                forall|r2: int, c2: int|
                    0 <= r2 < pp.pcs.commit.n && 0 <= c2 < cblock.cols ==> #[trigger] mm(cblock)[r2
                        * (cblock.cols as int) + c2] == crate::proto::cotimes_entry(
                        vv(c@),
                        pp.pcs.commit.n as int,
                        pp.pcs.commit.delta1 as int,
                        pp.pcs.commit.b1 as int,
                        qi,
                        r2,
                        c2,
                    ),
                a@.len() == pp.pcs.commit.a_mat.cols,
                polyvec_wf(vv(a@), qi),
                vv(a@) == amodel,
                row * cols >= 0,
                row * cols + cols == (row + 1) * cols,
                data@.len() == row * cols + col,
                forall|t: int|
                    0 <= t < row * cols + col ==> poly_wf(#[trigger] vv(data@)[t], qi) && vv(
                    data@)[t] == hvzk_full_entry(
                        hvzk_bld(*pp),
                        aspec,
                        sigbv,
                        amodel,
                        vv(c@),
                        t / (cols as int),
                        t % (cols as int),
                    ),
            decreases cols - col,
        {
            let entry: Poly = if row < two_nl {
                proof {
                    assert(0 <= row * cols + col < rows * cols) by (nonlinear_arith)
                        requires
                            0 <= row < rows,
                            0 <= col < cols,
                    ;
                }
                p_top.at(row, col).clone()
            } else if row == two_nl {
                if col < d1r {
                    proof {
                        assert(vv(row_cg@)[col as int] == row_cg@[col as int]@);
                    }
                    row_cg[col].clone()
                } else if col >= off_z {
                    proof {
                        assert(vv(a@)[col - off_z] == a@[col as int - off_z]@);
                    }
                    a[col - off_z].neg(q)
                } else {
                    Poly::zero()
                }
            } else {
                let rr2 = row - (two_nl + 1);
                if off_t <= col && col < off_r {
                    proof {
                        assert(0 <= rr2 * (cblock.cols as int) + (col - off_t) < cblock.rows
                            * cblock.cols) by (nonlinear_arith)
                            requires
                                0 <= rr2 < cblock.rows,
                                off_t <= col < off_t + cblock.cols,
                        ;
                        assert(cblock.data@.len() == cblock.rows * cblock.cols);
                    }
                    cblock.at(rr2, col - off_t).clone()
                } else if col >= off_z {
                    proof {
                        assert(0 <= rr2 * (pp.pcs.commit.a_mat.cols as int) + (col - off_z)
                            < pp.pcs.commit.a_mat.rows * pp.pcs.commit.a_mat.cols)
                            by (nonlinear_arith)
                            requires
                                0 <= rr2 < pp.pcs.commit.a_mat.rows,
                                off_z <= col < off_z + pp.pcs.commit.a_mat.cols,
                        ;
                    }
                    pp.pcs.commit.a_mat.at(rr2, col - off_z).neg(q)
                } else {
                    Poly::zero()
                }
            };
            proof {
                let t = row * cols + col;
                lemma_fundamental_div_mod_converse_mod(t as int, cols as int, row as int,
                    col as int);
                lemma_fundamental_div_mod_converse_div(t as int, cols as int, row as int,
                    col as int);
                lemma_poly_zero_wf(qi);
                if row < two_nl {
                    assert(mm(p_top)[row * (cols as int) + col] == eq14_entry(
                        bld,
                        pubin.alpha@,
                        sigbv,
                        row as int,
                        col as int,
                    ));
                    assert(eq14_entry(bld, pubin.alpha@, sigbv, row as int, col as int)
                        == eq14_entry(hvzk_bld(*pp), aspec, sigbv, row as int, col as int));
                }
                assert(poly_wf(entry@, qi) && entry@ == hvzk_full_entry(
                    hvzk_bld(*pp),
                    aspec,
                    sigbv,
                    amodel,
                    vv(c@),
                    row as int,
                    col as int,
                ));
            }
            let ghost before = vv(data@);
            data.push(entry);
            proof {
                assert(vv(data@) =~= before.push(entry@));
            }
            col = col + 1;
        }
        row = row + 1;
    }
    let p_mat = MatrixRq { rows, cols, data };
    proof {
        assert(p_mat.data@.len() == p_mat.rows * p_mat.cols) by (nonlinear_arith)
            requires
                p_mat.data@.len() == rows * cols,
                p_mat.rows == rows,
                p_mat.cols == cols,
        ;
        assert forall|t: int| 0 <= t < mm(p_mat).len() implies poly_wf(
            #[trigger] mm(p_mat)[t],
            qi,
        ) by {
            assert(mm(p_mat)[t] == data@[t]@);
        }
    }
    // right-hand side: the generic part, then zeros for the challenge rows
    let mut k2: usize = 0;
    let ghost htop = vv(h@);
    while k2 < pp.pcs.commit.n + 1
        invariant
            k2 <= pp.pcs.commit.n + 1,
            pp.wf(),
            qi == pp.pcs.q.q as int,
            h@.len() == 2 * pp.pcs.commit.n + pp.hvzk.l + k2,
            htop.len() == 2 * pp.pcs.commit.n + pp.hvzk.l,
            polyvec_wf(htop, qi),
            vv(h@) == htop + Seq::new(k2 as nat, |t: int| poly_zero()),
        decreases pp.pcs.commit.n + 1 - k2,
    {
        let ghost before = vv(h@);
        h.push(Poly::zero());
        proof {
            lemma_poly_zero_wf(qi);
            assert(vv(h@) =~= before.push(poly_zero()));
            assert(htop + Seq::new((k2 + 1) as nat, |t: int| poly_zero()) =~= before.push(
                poly_zero(),
            ));
        }
        k2 = k2 + 1;
    }
    proof {
        assert forall|t: int| 0 <= t < vv(h@).len() implies poly_wf(#[trigger] vv(h@)[t], qi) by {
            if t < htop.len() {
                assert(vv(h@)[t] == htop[t]);
            } else {
                assert(vv(h@)[t] == poly_zero());
            }
        }
    }
    // assemble the witness and check
    let mut zvec: Vec<Poly> = Vec::new();
    append_polyvec(&mut zvec, &prf.what);
    append_polyvec(&mut zvec, &prf.lhat);
    append_polyvec(&mut zvec, &prf.rv);
    append_polyvec(&mut zvec, &prf.that);
    append_polyvec(&mut zvec, &prf.r);
    append_polyvec(&mut zvec, &prf.z);
    proof {
        assert(vv(zvec@) =~= vv(prf.what@) + vv(prf.lhat@) + vv(prf.rv@) + vv(prf.that@) + vv(
            prf.r@,
        ) + vv(prf.z@));
    }
    if zvec.len() != p_mat.cols {
        proof {
            assert(!hvzk_verify_sys(*pp, vv(comm.0@), x_field as int, *prf, cspec, aspec));
        }
        return false;
    }
    proof {
        assert forall|t: int| 0 <= t < vv(zvec@).len() implies poly_wf(
            #[trigger] vv(zvec@)[t],
            qi,
        ) by {}
    }
    let lhs = p_mat.mul_vec(&zvec, q);
    let ok = polyvec_eq(&lhs, &h);
    proof {
        let colsi = cols as int;
        let flat = Seq::new(
            (hvzk_rows(*pp) * colsi) as nat,
            |t: int| hvzk_full_entry(hvzk_bld(*pp), aspec, sigbv, amodel, vv(c@), t / colsi, t
                % colsi),
        );
        assert(mm(p_mat) =~= flat);
        let rhs = Seq::new(
            hvzk_rows(*pp) as nat,
            |t: int| hvzk_rhs_full(hvzk_bld(*pp), vv(comm.0@), vv(prf.v@), vv(prf.j@), t),
        );
        assert(vv(h@) =~= rhs) by {
            assert forall|t: int| 0 <= t < vv(h@).len() implies vv(h@)[t] == rhs[t] by {
                if t < htop.len() {
                    assert(vv(h@)[t] == htop[t]);
                    assert(htop[t] == eq14_rhs(bld, vv(pubin.u@), vv(pubin.v@), vv(pubin.j@), t));
                    assert(vv(pubin.u@) =~= vv(comm.0@));
                    assert(vv(pubin.v@) =~= vv(prf.v@));
                    assert(vv(pubin.j@) =~= vv(prf.j@));
                    assert(eq14_rhs(bld, vv(comm.0@), vv(prf.v@), vv(prf.j@), t) == eq14_rhs(
                        hvzk_bld(*pp),
                        vv(comm.0@),
                        vv(prf.v@),
                        vv(prf.j@),
                        t,
                    ));
                } else {
                    assert(vv(h@)[t] == poly_zero());
                }
            }
        }
        assert(vv(lhs@) == mat_vec_spec(mm(p_mat), p_mat.rows as int, colsi, vv(zvec@), qi));
        assert(ok == (mat_vec_spec(flat, hvzk_rows(*pp), colsi, vv(zvec@), qi) == rhs));
        assert(ok == hvzk_verify_sys(*pp, vv(comm.0@), x_field as int, *prf, cspec, aspec));
    }
    ok
}

} // verus!
use vstd::prelude::*;

verus! {

use crate::commit::row_dot;
use crate::commit::lemma_row_dot_extend_zero;
use crate::commit::lemma_row_dot_segment;

/// Completeness of the assembled system's commitment rows: for any witness
/// `[what || that || z]` and any evaluation data, the first `2n` rows of
/// the non-hiding system hold exactly when the prover derived
/// `v = D * what` and `u = B * that`, whatever the challenge is.
pub proof fn lemma_eq3_commit_rows_hold(
    pp: CommitParams,
    dm: Seq<Seq<u32>>,
    a: Seq<Seq<u32>>,
    b: Seq<Seq<u32>>,
    c: Seq<Seq<u32>>,
    zw: Seq<Seq<u32>>,
    zt: Seq<Seq<u32>>,
    zz: Seq<Seq<u32>>,
    u: Seq<Seq<u32>>,
    v: Seq<Seq<u32>>,
    y: Seq<u32>,
)
    requires
        pp.wf(),
        zw.len() == pp.delta1 * pp.r,
        zt.len() == pp.n * pp.delta1 * pp.r,
        zz.len() == pp.delta0 * pp.m,
        v == mat_vec_spec(dm, pp.n as int, (pp.delta1 * pp.r) as int, zw, pp.q.q as int),
        u == mat_vec_spec(mm(pp.b_mat), pp.n as int, pp.b_mat.cols as int, zt, pp.q.q as int),
    ensures
        forall|row: int|
            0 <= row < 2 * pp.n ==> #[trigger] row_dot(
                eq3_flat(
                    pp,
                    dm,
                    a,
                    b,
                    c,
                    pp.delta1 as int * pp.r as int + pp.n as int * pp.delta1 as int * pp.r as int
                        + pp.delta0 as int * pp.m as int,
                ),
                pp.delta1 as int * pp.r as int + pp.n as int * pp.delta1 as int * pp.r as int
                    + pp.delta0 as int * pp.m as int,
                row,
                zw + zt + zz,
                pp.delta1 as int * pp.r as int + pp.n as int * pp.delta1 as int * pp.r as int
                    + pp.delta0 as int * pp.m as int,
                pp.q.q as int,
            ) == eq3_rhs(pp, u, v, y, row),
{
    let q = pp.q.q as int;
    let n = pp.n as int;
    let d1r = pp.delta1 as int * pp.r as int;
    let ndr = n * pp.delta1 as int * pp.r as int;
    let d0m = pp.delta0 as int * pp.m as int;
    let cols = d1r + ndr + d0m;
    let flat = eq3_flat(pp, dm, a, b, c, cols);
    let zvec = zw + zt + zz;
    assert(zvec.len() == cols);
    assert forall|row: int|
        0 <= row < 2 * pp.n implies #[trigger] row_dot(flat, cols, row, zvec, cols, q)
        == eq3_rhs(pp, u, v, y, row) by {
        assert forall|cc: int| 0 <= cc < cols implies #[trigger] flat[row * cols + cc]
            == eq3_entry(pp, dm, a, b, c, row, cc) by {
            assert(0 <= row * cols + cc < (3 * n + 2) * cols) by (nonlinear_arith)
                requires
                    0 <= row < 2 * n,
                    0 <= cc < cols,
                    n >= 1,
                    cols >= 0,
            ;
            assert(flat[row * cols + cc] == eq3_entry(
                pp,
                dm,
                a,
                b,
                c,
                (row * cols + cc) / cols,
                (row * cols + cc) % cols,
            ));
            vstd::arithmetic::div_mod::lemma_fundamental_div_mod_converse_mod(
                row * cols + cc,
                cols,
                row,
                cc,
            );
            vstd::arithmetic::div_mod::lemma_fundamental_div_mod_converse_div(
                row * cols + cc,
                cols,
                row,
                cc,
            );
        }
        if row < n {
            // the D block: zero past the `what` columns
            assert(row_dot(flat, cols, row, zvec, 0, q) == poly_zero());
            assert forall|t: int|
                0 <= t < d1r implies #[trigger] flat[row * cols + (0 + t)] == dm[row * d1r + t]
                && zvec[0 + t] == zw[t] by {
                assert(flat[row * cols + t] == eq3_entry(pp, dm, a, b, c, row, t));
                assert(zvec[t] == zw[t]);
            }
            lemma_row_dot_segment(flat, cols, row, zvec, 0, d1r, dm, d1r, row, zw, q);
            assert forall|cc: int| d1r <= cc < cols implies #[trigger] flat[row * cols + cc]
                == poly_zero() by {
                assert(flat[row * cols + cc] == eq3_entry(pp, dm, a, b, c, row, cc));
            }
            lemma_row_dot_extend_zero(flat, cols, row, zvec, d1r, cols, q);
            assert(v[row] == row_dot(dm, d1r, row, zw, d1r, q));
        } else {
            // the B block: zero before and after the `that` columns
            assert forall|cc: int| 0 <= cc < d1r implies #[trigger] flat[row * cols + cc]
                == poly_zero() by {
                assert(flat[row * cols + cc] == eq3_entry(pp, dm, a, b, c, row, cc));
            }
            lemma_row_dot_extend_zero(flat, cols, row, zvec, 0, d1r, q);
            assert(row_dot(flat, cols, row, zvec, d1r, q) == poly_zero());
            assert forall|t: int|
                0 <= t < ndr implies #[trigger] flat[row * cols + (d1r + t)] == mm(pp.b_mat)[(row
                - n) * ndr + t] && zvec[d1r + t] == zt[t] by {
                assert(flat[row * cols + (d1r + t)] == eq3_entry(pp, dm, a, b, c, row, d1r + t));
                assert(zvec[d1r + t] == zt[t]);
            }
            lemma_row_dot_segment(
                flat,
                cols,
                row,
                zvec,
                d1r,
                ndr,
                mm(pp.b_mat),
                ndr,
                row - n,
                zt,
                q,
            );
            assert forall|cc: int| d1r + ndr <= cc < cols implies #[trigger] flat[row * cols + cc]
                == poly_zero() by {
                assert(flat[row * cols + cc] == eq3_entry(pp, dm, a, b, c, row, cc));
            }
            lemma_row_dot_extend_zero(flat, cols, row, zvec, d1r + ndr, cols, q);
            assert(u[row - n] == row_dot(mm(pp.b_mat), ndr, row - n, zt, ndr, q));
        }
    }
}

} // verus!
use vstd::prelude::*;

verus! {

use crate::ring::coeff_dot;
use crate::ring::lemma_sigma_pairing;
use crate::ring::lemma_poly_mul_one;
use crate::ring::lemma_poly_add_zero_left;

/// The evaluation identity for a polynomial that fits one ring block: the
/// prover's claimed value is the coefficient pairing of the power vector
/// `xbar` with the packed block, i.e. `sum_j f_j x^j mod q`. (For more than
/// one block the claimed value folds the blocks through ring powers of
/// `xbar^64` and is not the plain field evaluation.)
pub proof fn lemma_single_block_evaluation(pp: PcsParams, x: int, f: Seq<u32>)
    requires
        pp.wf(),
        (pp.n_coeffs + 63) / 64 == 1,
    ensures
        y_ring_partial(
            Seq::new(1, |t: int| pcs_block(f, pp.q.q as int, t)),
            sigma_inv_spec(embed_spec(x, pp.q.q as int), pp.q.q as int),
            poly_pow_spec(embed_spec(x, pp.q.q as int), 64, pp.q.q as int),
            1,
            pp.q.q as int,
        )[0] as int == coeff_dot(embed_spec(x, pp.q.q as int), pcs_block(f, pp.q.q as int, 0), 0)
            % (pp.q.q as int),
{
    let q = pp.q.q as int;
    let emb = embed_spec(x, q);
    let six = sigma_inv_spec(emb, q);
    let xd = poly_pow_spec(emb, 64, q);
    let blk = pcs_block(f, q, 0);
    let bv = Seq::new(1, |t: int| pcs_block(f, q, t));
    assert(poly_wf(emb, q)) by {
        assert forall|j: int| 0 <= j < 64 implies (emb[j] as int) < q by {
            lemma_mod_bound(pow_mod(x, j as nat, q), q);
        }
    }
    assert(poly_wf(six, q)) by {
        assert forall|j: int| 0 <= j < 64 implies (six[j] as int) < q by {
            if j != 0 {
                lemma_mod_bound(0 - (emb[64 - j] as int), q);
            }
        }
    }
    assert(poly_wf(blk, q)) by {
        assert forall|j: int| 0 <= j < 64 implies (blk[j] as int) < q by {
            if 0 * 64 + j < f.len() {
                lemma_mod_bound(f[j] as int, q);
            }
        }
    }
    // the single term of the block sum, with the trivial power stripped
    assert(poly_pow_spec(xd, 0, q) == crate::ring::monomial_spec(0, 1));
    lemma_poly_mul_one(blk, q);
    assert(bv[0] == blk);
    assert(poly_mul_spec(bv[0], poly_pow_spec(xd, 0, q), q) == blk);
    assert(y_ring_partial(bv, six, xd, 0, q) == poly_zero());
    assert(y_ring_partial(bv, six, xd, 1, q) == poly_add_spec(
        poly_zero(),
        poly_mul_spec(six, blk, q),
        q,
    ));
    crate::ring::lemma_poly_mul_spec_wf(six, blk, q);
    lemma_poly_add_zero_left(poly_mul_spec(six, blk, q), q);
    lemma_sigma_pairing(emb, blk, q);
}

} // verus!
