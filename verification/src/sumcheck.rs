//! Multilinear sum-check over a dense table: each round splits the current
//! layer into even/odd pairs, emits the linear round polynomial
//! `g(X) = s0 + (s1 - s0) X`, and folds each pair `(a, b)` into
//! `a (1 - rho) + b rho` at the verifier's challenge `rho`. The same fold
//! runs in the extension field for the constraint check and in the base
//! field for the norm-bound (range) check.

use vstd::prelude::*;

verus! {

use crate::field::Fq;
use crate::field::Fq4;
use crate::field::fq;
use crate::field::fq_zero;
use crate::field::fq_one;
use crate::field::fq_add;
use crate::field::fq_sub;
use crate::field::fq_mul;
use crate::field::fq4_zero;
use crate::field::fq4_one;
use crate::field::fq4_add;
use crate::field::fq4_sub;
use crate::field::fq4_mul;
use crate::field::fq2fq4_spec;
use crate::field::fq2fq4;
use crate::mle::MleFq4;
use vstd::arithmetic::power2::pow2;
use vstd::arithmetic::power2::lemma_pow2_unfold;
use vstd::arithmetic::power2::lemma_pow2_pos;

/// A sum-check transcript: one `(c0, c1)` pair per round and the final
/// single-entry layer value.
pub struct SumcheckProof<F> {
    pub g_coeffs: Vec<(F, F)>,
    pub final_eval: F,
}

/// Entries at even indices.
pub open spec fn evens<A>(s: Seq<A>) -> Seq<A> {
    Seq::new((s.len() / 2) as nat, |i: int| s[2 * i])
}

/// Entries at odd indices.
pub open spec fn odds<A>(s: Seq<A>) -> Seq<A> {
    Seq::new((s.len() / 2) as nat, |i: int| s[2 * i + 1])
}

pub open spec fn sum_fq4(s: Seq<Fq4>) -> Fq4
    decreases s.len(),
{
    if s.len() == 0 {
        fq4_zero()
    } else {
        fq4_add(sum_fq4(s.drop_last()), s.last())
    }
}

pub open spec fn sum_fq(s: Seq<Fq>) -> Fq
    decreases s.len(),
{
    if s.len() == 0 {
        fq_zero()
    } else {
        fq_add(sum_fq(s.drop_last()), s.last())
    }
}

pub open spec fn seq_fq4_wf(s: Seq<Fq4>) -> bool {
    forall|i: int| 0 <= i < s.len() ==> (#[trigger] s[i]).wf()
}

pub open spec fn seq_fq_wf(s: Seq<Fq>) -> bool {
    forall|i: int| 0 <= i < s.len() ==> (#[trigger] s[i]).wf()
}

/// One fold step: pair `(s[2i], s[2i+1])` becomes
/// `s[2i] * (1 - r) + s[2i+1] * r`.
pub open spec fn fold_fq4(s: Seq<Fq4>, r: Fq4) -> Seq<Fq4> {
    Seq::new(
        (s.len() / 2) as nat,
        |i: int|
            fq4_add(fq4_mul(s[2 * i], fq4_sub(fq4_one(), r)), fq4_mul(s[2 * i + 1], r)),
    )
}

pub open spec fn fold_fq(s: Seq<Fq>, r: Fq) -> Seq<Fq> {
    Seq::new(
        (s.len() / 2) as nat,
        |i: int| fq_add(fq_mul(s[2 * i], fq_sub(fq_one(), r)), fq_mul(s[2 * i + 1], r)),
    )
}

/// The table after the first `t` rounds of folding at challenges `rs`.
pub open spec fn layer_at_fq4(s: Seq<Fq4>, rs: Seq<Fq4>, t: nat) -> Seq<Fq4>
    decreases t,
{
    if t == 0 {
        s
    } else {
        fold_fq4(layer_at_fq4(s, rs, (t - 1) as nat), rs[t as int - 1])
    }
}

pub open spec fn layer_at_fq(s: Seq<Fq>, rs: Seq<Fq>, t: nat) -> Seq<Fq>
    decreases t,
{
    if t == 0 {
        s
    } else {
        fold_fq(layer_at_fq(s, rs, (t - 1) as nat), rs[t as int - 1])
    }
}

/// One round: the pair `(c0, c1) = (s0, s1 - s0)` of the univariate round
/// polynomial `g(X) = s0 + (s1 - s0) X`, and the folded next layer.
pub fn sumcheck_round_once(layer: &Vec<Fq4>, r: Fq4) -> (res: ((Fq4, Fq4), Vec<Fq4>))
    requires
        layer@.len() % 2 == 0,
        seq_fq4_wf(layer@),
        r.wf(),
    ensures
        res.0.0 == sum_fq4(evens(layer@)),
        res.0.1 == fq4_sub(sum_fq4(odds(layer@)), sum_fq4(evens(layer@))),
        res.1@ == fold_fq4(layer@, r),
        res.0.0.wf(),
        res.0.1.wf(),
        seq_fq4_wf(res.1@),
        res.1@.len() == layer@.len() / 2,
{
    let n = layer.len();
    let half = n / 2;
    let one_minus_r = Fq4::one().sub(r);
    let mut s0 = Fq4::zero();
    let mut s1 = Fq4::zero();
    let mut next: Vec<Fq4> = Vec::new();
    let mut t: usize = 0;
    proof {
        assert(evens(layer@).take(0) =~= Seq::<Fq4>::empty());
        assert(odds(layer@).take(0) =~= Seq::<Fq4>::empty());
    }
    while t < half
        invariant
            t <= half,
            half == layer@.len() / 2,
            layer@.len() % 2 == 0,
            n == layer@.len(),
            seq_fq4_wf(layer@),
            r.wf(),
            one_minus_r.wf(),
            one_minus_r == fq4_sub(fq4_one(), r),
            s0.wf(),
            s1.wf(),
            s0 == sum_fq4(evens(layer@).take(t as int)),
            s1 == sum_fq4(odds(layer@).take(t as int)),
            next@.len() == t,
            seq_fq4_wf(next@),
            forall|i: int| 0 <= i < t ==> next@[i] == fold_fq4(layer@, r)[i],
        decreases half - t,
    {
        let a = layer[2 * t];
        let b = layer[2 * t + 1];
        proof {
            assert(evens(layer@).take(t as int + 1).drop_last() =~= evens(layer@).take(t as int));
            assert(odds(layer@).take(t as int + 1).drop_last() =~= odds(layer@).take(t as int));
            assert(evens(layer@).take(t as int + 1).last() == layer@[2 * (t as int)]);
            assert(odds(layer@).take(t as int + 1).last() == layer@[2 * (t as int) + 1]);
        }
        s0 = s0.add(a);
        s1 = s1.add(b);
        next.push(a.mul(one_minus_r).add(b.mul(r)));
        t = t + 1;
    }
    proof {
        assert(evens(layer@).take(half as int) =~= evens(layer@));
        assert(odds(layer@).take(half as int) =~= odds(layer@));
        assert(next@ =~= fold_fq4(layer@, r));
    }
    let c1 = s1.sub(s0);
    ((s0, c1), next)
}

/// One round of the base-field (range check) sum-check.
pub fn sumcheck_round_once_range(layer: &Vec<Fq>, r: Fq) -> (res: ((Fq, Fq), Vec<Fq>))
    requires
        layer@.len() % 2 == 0,
        seq_fq_wf(layer@),
        r.wf(),
    ensures
        res.0.0 == sum_fq(evens(layer@)),
        res.0.1 == fq_sub(sum_fq(odds(layer@)), sum_fq(evens(layer@))),
        res.1@ == fold_fq(layer@, r),
        res.0.0.wf(),
        res.0.1.wf(),
        seq_fq_wf(res.1@),
        res.1@.len() == layer@.len() / 2,
{
    let n = layer.len();
    let half = n / 2;
    let one_minus_r = Fq::one().sub(r);
    let mut s0 = Fq::zero();
    let mut s1 = Fq::zero();
    let mut next: Vec<Fq> = Vec::new();
    let mut t: usize = 0;
    proof {
        assert(evens(layer@).take(0) =~= Seq::<Fq>::empty());
        assert(odds(layer@).take(0) =~= Seq::<Fq>::empty());
    }
    while t < half
        invariant
            t <= half,
            half == layer@.len() / 2,
            layer@.len() % 2 == 0,
            n == layer@.len(),
            seq_fq_wf(layer@),
            r.wf(),
            one_minus_r.wf(),
            one_minus_r == fq_sub(fq_one(), r),
            s0.wf(),
            s1.wf(),
            s0 == sum_fq(evens(layer@).take(t as int)),
            s1 == sum_fq(odds(layer@).take(t as int)),
            next@.len() == t,
            seq_fq_wf(next@),
            forall|i: int| 0 <= i < t ==> next@[i] == fold_fq(layer@, r)[i],
        decreases half - t,
    {
        let a = layer[2 * t];
        let b = layer[2 * t + 1];
        proof {
            assert(evens(layer@).take(t as int + 1).drop_last() =~= evens(layer@).take(t as int));
            assert(odds(layer@).take(t as int + 1).drop_last() =~= odds(layer@).take(t as int));
            assert(evens(layer@).take(t as int + 1).last() == layer@[2 * (t as int)]);
            assert(odds(layer@).take(t as int + 1).last() == layer@[2 * (t as int) + 1]);
        }
        s0 = s0.add(a);
        s1 = s1.add(b);
        next.push(a.mul(one_minus_r).add(b.mul(r)));
        t = t + 1;
    }
    proof {
        assert(evens(layer@).take(half as int) =~= evens(layer@));
        assert(odds(layer@).take(half as int) =~= odds(layer@));
        assert(next@ =~= fold_fq(layer@, r));
    }
    let c1 = s1.sub(s0);
    ((s0, c1), next)
}

proof fn lemma_layer_len_fq4(s: Seq<Fq4>, rs: Seq<Fq4>, t: nat, k: nat)
    requires
        t <= k,
        t <= rs.len(),
        s.len() == pow2(k),
    ensures
        layer_at_fq4(s, rs, t).len() == pow2((k - t) as nat),
    decreases t,
{
    if t > 0 {
        lemma_layer_len_fq4(s, rs, (t - 1) as nat, k);
        lemma_pow2_unfold((k - t + 1) as nat);
    }
}

proof fn lemma_layer_len_fq(s: Seq<Fq>, rs: Seq<Fq>, t: nat, k: nat)
    requires
        t <= k,
        t <= rs.len(),
        s.len() == pow2(k),
    ensures
        layer_at_fq(s, rs, t).len() == pow2((k - t) as nat),
    decreases t,
{
    if t > 0 {
        lemma_layer_len_fq(s, rs, (t - 1) as nat, k);
        lemma_pow2_unfold((k - t + 1) as nat);
    }
}

/// Run one fold per challenge over a power-of-two table, recording the round
/// pairs; the final single entry is the claimed evaluation.
pub fn sumcheck_prove_from_table(layer: Vec<Fq4>, rs: &Vec<Fq4>) -> (proof_out: SumcheckProof<Fq4>)
    requires
        layer@.len() == pow2(rs@.len() as nat),
        seq_fq4_wf(layer@),
        seq_fq4_wf(rs@),
    ensures
        proof_out.g_coeffs@.len() == rs@.len(),
        forall|t: int|
            0 <= t < rs@.len() ==> {
                let lay = layer_at_fq4(layer@, rs@, t as nat);
                (#[trigger] proof_out.g_coeffs@[t]).0 == sum_fq4(evens(lay))
                    && proof_out.g_coeffs@[t].1 == fq4_sub(sum_fq4(odds(lay)), sum_fq4(evens(lay)))
            },
        proof_out.final_eval == layer_at_fq4(layer@, rs@, rs@.len() as nat)[0],
        proof_out.final_eval.wf(),
    decreases rs@.len(),
{
    let ghost layer0 = layer@;
    let k = rs.len();
    let mut cur = layer;
    let mut coeffs: Vec<(Fq4, Fq4)> = Vec::new();
    let mut t: usize = 0;
    while t < k
        invariant
            t <= k,
            k == rs@.len(),
            layer0.len() == pow2(k as nat),
            seq_fq4_wf(layer0),
            seq_fq4_wf(rs@),
            cur@ == layer_at_fq4(layer0, rs@, t as nat),
            cur@.len() == pow2((k - t) as nat),
            seq_fq4_wf(cur@),
            coeffs@.len() == t,
            forall|u: int|
                0 <= u < t ==> {
                    let lay = layer_at_fq4(layer0, rs@, u as nat);
                    (#[trigger] coeffs@[u]).0 == sum_fq4(evens(lay)) && coeffs@[u].1 == fq4_sub(
                        sum_fq4(odds(lay)),
                        sum_fq4(evens(lay)),
                    )
                },
        decreases k - t,
    {
        proof {
            lemma_pow2_unfold((k - t) as nat);
            lemma_pow2_pos(((k - t) - 1) as nat);
            assert(cur@.len() % 2 == 0) by {
                vstd::arithmetic::div_mod::lemma_mod_multiples_basic(
                    pow2(((k - t) - 1) as nat) as int,
                    2,
                );
                assert(pow2((k - t) as nat) as int == pow2(((k - t) - 1) as nat) as int * 2);
            }
        }
        let (gc, next) = sumcheck_round_once(&cur, rs[t]);
        coeffs.push(gc);
        proof {
            assert(layer_at_fq4(layer0, rs@, (t + 1) as nat) == fold_fq4(
                layer_at_fq4(layer0, rs@, t as nat),
                rs@[t as int],
            ));
        }
        cur = next;
        t = t + 1;
    }
    proof {
        vstd::arithmetic::power2::lemma2_to64();
        assert(cur@.len() == 1);
    }
    let fe = cur[0];
    SumcheckProof { g_coeffs: coeffs, final_eval: fe }
}

/// Base-field variant of `sumcheck_prove_from_table`.
pub fn sumcheck_prove_from_table_range(layer: Vec<Fq>, rs: &Vec<Fq>) -> (proof_out: SumcheckProof<
    Fq,
>)
    requires
        layer@.len() == pow2(rs@.len() as nat),
        seq_fq_wf(layer@),
        seq_fq_wf(rs@),
    ensures
        proof_out.g_coeffs@.len() == rs@.len(),
        forall|t: int|
            0 <= t < rs@.len() ==> {
                let lay = layer_at_fq(layer@, rs@, t as nat);
                (#[trigger] proof_out.g_coeffs@[t]).0 == sum_fq(evens(lay))
                    && proof_out.g_coeffs@[t].1 == fq_sub(sum_fq(odds(lay)), sum_fq(evens(lay)))
            },
        proof_out.final_eval == layer_at_fq(layer@, rs@, rs@.len() as nat)[0],
        proof_out.final_eval.wf(),
{
    let ghost layer0 = layer@;
    let k = rs.len();
    let mut cur = layer;
    let mut coeffs: Vec<(Fq, Fq)> = Vec::new();
    let mut t: usize = 0;
    while t < k
        invariant
            t <= k,
            k == rs@.len(),
            layer0.len() == pow2(k as nat),
            seq_fq_wf(layer0),
            seq_fq_wf(rs@),
            cur@ == layer_at_fq(layer0, rs@, t as nat),
            cur@.len() == pow2((k - t) as nat),
            seq_fq_wf(cur@),
            coeffs@.len() == t,
            forall|u: int|
                0 <= u < t ==> {
                    let lay = layer_at_fq(layer0, rs@, u as nat);
                    (#[trigger] coeffs@[u]).0 == sum_fq(evens(lay)) && coeffs@[u].1 == fq_sub(
                        sum_fq(odds(lay)),
                        sum_fq(evens(lay)),
                    )
                },
        decreases k - t,
    {
        proof {
            lemma_pow2_unfold((k - t) as nat);
            lemma_pow2_pos(((k - t) - 1) as nat);
            assert(cur@.len() % 2 == 0) by {
                vstd::arithmetic::div_mod::lemma_mod_multiples_basic(
                    pow2(((k - t) - 1) as nat) as int,
                    2,
                );
                assert(pow2((k - t) as nat) as int == pow2(((k - t) - 1) as nat) as int * 2);
            }
        }
        let (gc, next) = sumcheck_round_once_range(&cur, rs[t]);
        coeffs.push(gc);
        proof {
            assert(layer_at_fq(layer0, rs@, (t + 1) as nat) == fold_fq(
                layer_at_fq(layer0, rs@, t as nat),
                rs@[t as int],
            ));
        }
        cur = next;
        t = t + 1;
    }
    proof {
        vstd::arithmetic::power2::lemma2_to64();
        assert(cur@.len() == 1);
    }
    let fe = cur[0];
    SumcheckProof { g_coeffs: coeffs, final_eval: fe }
}

/// Fix the first `tau4.len()` variables of a dense multilinear table: one
/// fold per fixed variable, and return the remaining evaluation table.
pub fn fix_tau_eval_table(mle_m: &MleFq4, tau4: &Vec<Fq4>) -> (r: Vec<Fq4>)
    requires
        mle_m.evals@.len() == pow2(mle_m.num_vars as nat),
        tau4@.len() <= mle_m.num_vars,
        seq_fq4_wf(mle_m.evals@),
        seq_fq4_wf(tau4@),
    ensures
        r@ == layer_at_fq4(mle_m.evals@, tau4@, tau4@.len() as nat),
        seq_fq4_wf(r@),
{
    let ghost layer0 = mle_m.evals@;
    let k = tau4.len();
    let nv = mle_m.num_vars;
    let mut cur: Vec<Fq4> = Vec::new();
    let mut i: usize = 0;
    let n0 = mle_m.evals.len();
    while i < n0
        invariant
            i <= n0,
            n0 == mle_m.evals@.len(),
            cur@.len() == i,
            seq_fq4_wf(mle_m.evals@),
            forall|j: int| 0 <= j < i ==> cur@[j] == mle_m.evals@[j],
        decreases n0 - i,
    {
        cur.push(mle_m.evals[i]);
        i = i + 1;
    }
    proof {
        assert(cur@ =~= layer0);
    }
    let mut t: usize = 0;
    while t < k
        invariant
            t <= k,
            k == tau4@.len(),
            k <= nv,
            layer0.len() == pow2(nv as nat),
            seq_fq4_wf(layer0),
            seq_fq4_wf(tau4@),
            cur@ == layer_at_fq4(layer0, tau4@, t as nat),
            cur@.len() == pow2((nv - t) as nat),
            seq_fq4_wf(cur@),
        decreases k - t,
    {
        proof {
            lemma_pow2_unfold((nv - t) as nat);
            lemma_pow2_pos(((nv - t) - 1) as nat);
            assert(cur@.len() % 2 == 0) by {
                vstd::arithmetic::div_mod::lemma_mod_multiples_basic(
                    pow2(((nv - t) - 1) as nat) as int,
                    2,
                );
                assert(pow2((nv - t) as nat) as int == pow2(((nv - t) - 1) as nat) as int * 2);
            }
        }
        let (gc, next) = sumcheck_round_once(&cur, tau4[t]);
        proof {
            assert(layer_at_fq4(layer0, tau4@, (t + 1) as nat) == fold_fq4(
                layer_at_fq4(layer0, tau4@, t as nat),
                tau4@[t as int],
            ));
        }
        cur = next;
        t = t + 1;
    }
    cur
}

/// Entry `(k, d)` of the constraint-check table:
/// `fq2fq4(w[idx]) * (alpha_table[d] * m_k_table[k])`.
pub open spec fn f_table_cell(
    w: Seq<Fq>,
    alpha_table: Seq<Fq4>,
    m_k_table: Seq<Fq4>,
    rows_k: int,
    idx: int,
) -> Fq4 {
    fq4_mul(
        fq2fq4_spec(w[idx]),
        fq4_mul(alpha_table[idx / rows_k], m_k_table[idx % rows_k]),
    )
}

/// Build the combined constraint table `f[k + (d << mk)] =
/// fq2fq4(w[k,d]) * (alpha_d * M_k)`.
pub fn build_f_table(
    w_table: &Vec<Fq>,
    alpha_table: &Vec<Fq4>,
    m_k_table: &Vec<Fq4>,
    mk: usize,
    md: usize,
) -> (out: Vec<Fq4>)
    requires
        mk <= 28,
        md <= 28,
        w_table@.len() == pow2(mk as nat) * pow2(md as nat),
        alpha_table@.len() >= pow2(md as nat),
        m_k_table@.len() >= pow2(mk as nat),
        seq_fq_wf(w_table@),
        seq_fq4_wf(alpha_table@),
        seq_fq4_wf(m_k_table@),
    ensures
        out@.len() == w_table@.len(),
        seq_fq4_wf(out@),
        forall|idx: int|
            0 <= idx < out@.len() ==> out@[idx] == f_table_cell(
                w_table@,
                alpha_table@,
                m_k_table@,
                pow2(mk as nat) as int,
                idx,
            ),
{
    let rows_k: usize = pow2_usize(mk);
    let cols_d: usize = pow2_usize(md);
    let wlen: usize = w_table.len();
    let ghost rk = rows_k as int;
    let mut out: Vec<Fq4> = Vec::new();
    let mut d: usize = 0;
    proof {
        assert(rows_k as int * cols_d as int == w_table@.len() as int);
    }
    while d < cols_d
        invariant
            d <= cols_d,
            rk == rows_k as int,
            rows_k == pow2(mk as nat),
            cols_d == pow2(md as nat),
            rows_k >= 1,
            rows_k as int * cols_d as int == w_table@.len() as int,
            wlen == w_table@.len(),
            alpha_table@.len() >= cols_d,
            m_k_table@.len() >= rows_k,
            seq_fq_wf(w_table@),
            seq_fq4_wf(alpha_table@),
            seq_fq4_wf(m_k_table@),
            out@.len() == d * rows_k,
            seq_fq4_wf(out@),
            forall|idx: int|
                0 <= idx < d * rows_k ==> out@[idx] == f_table_cell(
                    w_table@,
                    alpha_table@,
                    m_k_table@,
                    rk,
                    idx,
                ),
        decreases cols_d - d,
    {
        let a_d = alpha_table[d];
        proof {
            assert((d + 1) * rows_k == d * rows_k + rows_k && d * rows_k >= 0 && (d + 1) * rows_k
                <= cols_d * rows_k && cols_d * rows_k == rows_k * cols_d) by (nonlinear_arith)
                requires
                    0 <= d < cols_d,
                    rows_k >= 1,
            ;
        }
        let mut k: usize = 0;
        while k < rows_k
            invariant
                k <= rows_k,
                d < cols_d,
                rk == rows_k as int,
                rows_k >= 1,
                rows_k as int * cols_d as int == w_table@.len() as int,
                wlen == w_table@.len(),
                (d + 1) * rows_k == d * rows_k + rows_k,
                (d + 1) * rows_k <= w_table@.len(),
                alpha_table@.len() >= cols_d,
                m_k_table@.len() >= rows_k,
                seq_fq_wf(w_table@),
                seq_fq4_wf(alpha_table@),
                seq_fq4_wf(m_k_table@),
                a_d == alpha_table@[d as int],
                out@.len() == d * rows_k + k,
                seq_fq4_wf(out@),
                forall|idx: int|
                    0 <= idx < d * rows_k + k ==> out@[idx] == f_table_cell(
                        w_table@,
                        alpha_table@,
                        m_k_table@,
                        rk,
                        idx,
                    ),
            decreases rows_k - k,
        {
            proof {
                assert(d * rows_k >= 0 && k + d * rows_k < (d + 1) * rows_k) by (nonlinear_arith)
                    requires
                        0 <= k < rows_k,
                        d >= 0,
                ;
            }
            let idx = k + d * rows_k;
            proof {
                vstd::arithmetic::div_mod::lemma_fundamental_div_mod_converse_mod(
                    idx as int,
                    rk,
                    d as int,
                    k as int,
                );
                vstd::arithmetic::div_mod::lemma_fundamental_div_mod_converse_div(
                    idx as int,
                    rk,
                    d as int,
                    k as int,
                );
            }
            let v = fq2fq4(w_table[idx]).mul(a_d.mul(m_k_table[k]));
            out.push(v);
            k = k + 1;
        }
        d = d + 1;
    }
    proof {
        assert(cols_d * rows_k == rows_k * cols_d) by (nonlinear_arith);
    }
    out
}

/// `2^k` as a `usize`, for table extents.
pub fn pow2_usize(k: usize) -> (r: usize)
    requires
        k <= 28,
    ensures
        r == pow2(k as nat),
        r >= 1,
{
    let mut p: usize = 1;
    let mut i: usize = 0;
    proof {
        vstd::arithmetic::power2::lemma2_to64();
    }
    while i < k
        invariant
            i <= k,
            k <= 28,
            p == pow2(i as nat),
            p <= 0x1000_0000,
        decreases k - i,
    {
        proof {
            lemma_pow2_unfold((i + 1) as nat);
            vstd::arithmetic::power2::lemma2_to64();
            if i + 1 < 28 {
                vstd::arithmetic::power2::lemma_pow2_strictly_increases((i + 1) as nat, 28);
            }
        }
        p = p * 2;
        i = i + 1;
    }
    p
}

/// `sum_j coeffs[j] * alpha^j` evaluated in the extension field, low
/// coefficient first (Horner from the top).
pub open spec fn horner_fq4(s: Seq<Fq>, alpha: Fq4) -> Fq4
    decreases s.len(),
{
    if s.len() == 0 {
        fq4_zero()
    } else {
        fq4_add(fq4_mul(horner_fq4(s.drop_first(), alpha), alpha), fq2fq4_spec(s[0]))
    }
}

fn eval_poly_low_to_high_at_alpha_fq4(coeffs: &Vec<Fq>, alpha: Fq4) -> (r: Fq4)
    requires
        seq_fq_wf(coeffs@),
        alpha.wf(),
    ensures
        r == horner_fq4(coeffs@, alpha),
        r.wf(),
{
    let mut acc = Fq4::zero();
    let mut i: usize = coeffs.len();
    proof {
        assert(coeffs@.skip(i as int) =~= Seq::<Fq>::empty());
    }
    while i > 0
        invariant
            i <= coeffs@.len(),
            seq_fq_wf(coeffs@),
            alpha.wf(),
            acc.wf(),
            acc == horner_fq4(coeffs@.skip(i as int), alpha),
        decreases i,
    {
        i = i - 1;
        proof {
            assert(coeffs@.skip(i as int).drop_first() =~= coeffs@.skip(i as int + 1));
            assert(coeffs@.skip(i as int)[0] == coeffs@[i as int]);
        }
        acc = acc.mul(alpha).add(fq2fq4(coeffs[i]));
    }
    proof {
        assert(coeffs@.skip(0) =~= coeffs@);
    }
    acc
}

/// The multilinear equality weight of the 5-bit index `j` against the point
/// `x`: the product over bits `b < k` of `x[b]` (bit set) or `1 - x[b]`.
pub open spec fn eq_weight_fq4(x: Seq<Fq4>, j: int, k: nat) -> Fq4
    decreases k,
{
    if k == 0 {
        fq4_one()
    } else {
        fq4_mul(
            eq_weight_fq4(x, j, (k - 1) as nat),
            if (j / (pow2((k - 1) as nat) as int)) % 2 == 1 {
                x[k - 1]
            } else {
                fq4_sub(fq4_one(), x[k - 1])
            },
        )
    }
}

fn eq_weight_4(x: &Vec<Fq4>, j: usize) -> (r: Fq4)
    requires
        x@.len() == 5,
        seq_fq4_wf(x@),
        j < 32,
    ensures
        r == eq_weight_fq4(x@, j as int, 5),
        r.wf(),
{
    let mut w = Fq4::one();
    let mut jj = j;
    let mut b: usize = 0;
    proof {
        vstd::arithmetic::power2::lemma2_to64();
    }
    while b < 5
        invariant
            b <= 5,
            j < 32,
            x@.len() == 5,
            seq_fq4_wf(x@),
            w.wf(),
            w == eq_weight_fq4(x@, j as int, b as nat),
            jj == (j as int) / (pow2(b as nat) as int),
        decreases 5 - b,
    {
        let bit = jj % 2;
        let term = if bit == 1 {
            x[b]
        } else {
            Fq4::one().sub(x[b])
        };
        proof {
            lemma_pow2_unfold((b + 1) as nat);
            vstd::arithmetic::power2::lemma_pow2_pos(b as nat);
            vstd::arithmetic::div_mod::lemma_div_denominator(
                j as int,
                pow2(b as nat) as int,
                2,
            );
            assert(pow2((b + 1) as nat) as int == pow2(b as nat) as int * 2);
        }
        w = w.mul(term);
        jj = jj / 2;
        b = b + 1;
    }
    w
}

/// The claimed constraint sum: evaluate each of the 32 row polynomials at
/// `alpha` and combine them with the 5-bit equality weights at `i_prime`.
pub fn compute_a_eq_sum_i_prime_fq4(ts: &Vec<Vec<Fq>>, alpha: Fq4, i_prime: &Vec<Fq4>) -> (r: Fq4)
    requires
        ts@.len() >= 32,
        forall|j: int| 0 <= j < ts@.len() ==> seq_fq_wf((#[trigger] ts@[j])@),
        alpha.wf(),
        i_prime@.len() == 5,
        seq_fq4_wf(i_prime@),
    ensures
        r.wf(),
        r == eq_sum_prefix(ts@, alpha, i_prime@, 32),
{
    let mut a = Fq4::zero();
    let mut j: usize = 0;
    while j < 32
        invariant
            j <= 32,
            ts@.len() >= 32,
            forall|jj: int| 0 <= jj < ts@.len() ==> seq_fq_wf((#[trigger] ts@[jj])@),
            alpha.wf(),
            i_prime@.len() == 5,
            seq_fq4_wf(i_prime@),
            a.wf(),
            a == eq_sum_prefix(ts@, alpha, i_prime@, j as nat),
        decreases 32 - j,
    {
        let t_alpha = eval_poly_low_to_high_at_alpha_fq4(&ts[j], alpha);
        let wj = eq_weight_4(i_prime, j);
        a = a.add(wj.mul(t_alpha));
        j = j + 1;
    }
    a
}

/// Partial claimed sum: `sum_{j < k} eq(i_prime, j) * ts[j](alpha)`.
pub open spec fn eq_sum_prefix(ts: Seq<Vec<Fq>>, alpha: Fq4, i_prime: Seq<Fq4>, k: nat) -> Fq4
    decreases k,
{
    if k == 0 {
        fq4_zero()
    } else {
        fq4_add(
            eq_sum_prefix(ts, alpha, i_prime, (k - 1) as nat),
            fq4_mul(eq_weight_fq4(i_prime, k - 1, 5), horner_fq4(ts[k - 1]@, alpha)),
        )
    }
}

} // verus!
use vstd::prelude::*;

verus! {

use crate::field::lemma_fq4_add_comm;
use crate::field::lemma_fq4_add_assoc;
use crate::field::lemma_fq4_two_plus_diff;
use crate::field::lemma_fq_add_zero;
use crate::field::lemma_fq_mul_zero;
use crate::field::P;

/// Every field value built by the spec operations is canonical.
proof fn lemma_fq4_ops_wf(a: Fq4, b: Fq4)
    ensures
        fq4_add(a, b).wf(),
        fq4_sub(a, b).wf(),
{
    vstd::arithmetic::div_mod::lemma_mod_bound(a.c0.c0.v + b.c0.c0.v, P as int);
    vstd::arithmetic::div_mod::lemma_mod_bound(a.c0.c1.v + b.c0.c1.v, P as int);
    vstd::arithmetic::div_mod::lemma_mod_bound(a.c1.c0.v + b.c1.c0.v, P as int);
    vstd::arithmetic::div_mod::lemma_mod_bound(a.c1.c1.v + b.c1.c1.v, P as int);
    vstd::arithmetic::div_mod::lemma_mod_bound(a.c0.c0.v - b.c0.c0.v, P as int);
    vstd::arithmetic::div_mod::lemma_mod_bound(a.c0.c1.v - b.c0.c1.v, P as int);
    vstd::arithmetic::div_mod::lemma_mod_bound(a.c1.c0.v - b.c1.c0.v, P as int);
    vstd::arithmetic::div_mod::lemma_mod_bound(a.c1.c1.v - b.c1.c1.v, P as int);
}

proof fn lemma_sum_fq4_wf(s: Seq<Fq4>)
    requires
        seq_fq4_wf(s),
    ensures
        sum_fq4(s).wf(),
    decreases s.len(),
{
    if s.len() == 0 {
    } else {
        assert(seq_fq4_wf(s.drop_last()));
        lemma_sum_fq4_wf(s.drop_last());
        lemma_fq4_ops_wf(sum_fq4(s.drop_last()), s.last());
    }
}

/// An even-length sum splits into the sums of its even and odd positions.
proof fn lemma_sum_split_parity(s: Seq<Fq4>)
    requires
        s.len() % 2 == 0,
        seq_fq4_wf(s),
    ensures
        sum_fq4(s) == fq4_add(sum_fq4(evens(s)), sum_fq4(odds(s))),
    decreases s.len(),
{
    if s.len() == 0 {
        assert(evens(s) =~= Seq::<Fq4>::empty());
        assert(odds(s) =~= Seq::<Fq4>::empty());
        lemma_fq4_ops_wf(fq4_zero(), fq4_zero());
        assert(fq4_add(fq4_zero(), fq4_zero()) =~= fq4_zero()) by {
            vstd::arithmetic::div_mod::lemma_small_mod(0, P as nat);
        }
    } else {
        let n = s.len() as int;
        let s2 = s.take(n - 2);
        assert(s2.len() % 2 == 0) by {
            assert(n % 2 == 0);
        }
        assert(seq_fq4_wf(s2));
        lemma_sum_split_parity(s2);
        let a = s[n - 2];
        let b = s[n - 1];
        let e2 = sum_fq4(evens(s2));
        let o2 = sum_fq4(odds(s2));
        assert(evens(s).drop_last() =~= evens(s2));
        assert(odds(s).drop_last() =~= odds(s2));
        assert(evens(s).last() == a);
        assert(odds(s).last() == b);
        assert(n >= 2) by {
            assert(n != 1) by {
                if n == 1 {
                    assert(s.len() % 2 == 1int % 2);
                }
            }
        }
        assert(s.drop_last().drop_last() =~= s2);
        assert(s.last() == b);
        assert(s.drop_last().last() == a);
        assert(sum_fq4(s.drop_last()) == fq4_add(sum_fq4(s2), a));
        assert(sum_fq4(s) == fq4_add(fq4_add(sum_fq4(s2), a), b));
        assert(sum_fq4(evens(s)) == fq4_add(e2, a));
        assert(sum_fq4(odds(s)) == fq4_add(o2, b));
        // rearrange ((e2 + o2) + a) + b into (e2 + a) + (o2 + b)
        assert(seq_fq4_wf(evens(s2))) by {
            assert forall|i: int| 0 <= i < evens(s2).len() implies (#[trigger] evens(s2)[i]).wf()
                by {
                assert(evens(s2)[i] == s2[2 * i]);
            }
        }
        assert(seq_fq4_wf(odds(s2))) by {
            assert forall|i: int| 0 <= i < odds(s2).len() implies (#[trigger] odds(s2)[i]).wf() by {
                assert(odds(s2)[i] == s2[2 * i + 1]);
            }
        }
        lemma_sum_fq4_wf(evens(s2));
        lemma_sum_fq4_wf(odds(s2));
        lemma_fq4_ops_wf(e2, o2);
        lemma_fq4_ops_wf(o2, a);
        lemma_fq4_ops_wf(e2, a);
        lemma_fq4_add_assoc(e2, o2, a);
        lemma_fq4_add_comm(o2, a);
        lemma_fq4_add_assoc(e2, a, o2);
        lemma_fq4_add_assoc(fq4_add(e2, a), o2, b);
        assert(fq4_add(fq4_add(sum_fq4(s2), a), b) == fq4_add(fq4_add(e2, a), fq4_add(o2, b)));
    }
}

/// Round consistency of the sum-check prover: the emitted pair `(c0, c1)`
/// of any round satisfies `2 c0 + c1 = sum of the current layer`, so the
/// first round binds the prover to the claimed total.
pub proof fn lemma_round_pair_sums_layer(layer: Seq<Fq4>)
    requires
        layer.len() % 2 == 0,
        seq_fq4_wf(layer),
    ensures
        fq4_add(
            fq4_add(sum_fq4(evens(layer)), sum_fq4(evens(layer))),
            fq4_sub(sum_fq4(odds(layer)), sum_fq4(evens(layer))),
        ) == sum_fq4(layer),
{
    lemma_sum_split_parity(layer);
    assert(seq_fq4_wf(evens(layer))) by {
        assert forall|i: int| 0 <= i < evens(layer).len() implies (#[trigger] evens(layer)[i]).wf()
            by {
            assert(evens(layer)[i] == layer[2 * i]);
        }
    }
    assert(seq_fq4_wf(odds(layer))) by {
        assert forall|i: int| 0 <= i < odds(layer).len() implies (#[trigger] odds(layer)[i]).wf()
            by {
            assert(odds(layer)[i] == layer[2 * i + 1]);
        }
    }
    lemma_sum_fq4_wf(evens(layer));
    lemma_sum_fq4_wf(odds(layer));
    lemma_fq4_two_plus_diff(sum_fq4(evens(layer)), sum_fq4(odds(layer)));
}

/// The range polynomial `r_beta(z) = z * prod_{i=1..8} (z - i)(z + i)`,
/// accumulated factor by factor.
pub open spec fn rbeta_rec(z: Fq, i: nat) -> Fq
    decreases i,
{
    if i == 0 {
        z
    } else {
        fq_mul(fq_mul(rbeta_rec(z, (i - 1) as nat), fq_sub(z, fq(i as int))), fq_add(z, fq(i as int)))
    }
}

/// Evaluate the degree-17 range polynomial at `z`.
fn rbeta_fq_beta8(z: Fq) -> (r: Fq)
    requires
        z.wf(),
    ensures
        r.wf(),
        r == rbeta_rec(z, 8),
{
    let mut acc = z;
    let mut i: u64 = 1;
    while i <= 8
        invariant
            1 <= i <= 9,
            z.wf(),
            acc.wf(),
            acc == rbeta_rec(z, (i - 1) as nat),
        decreases 9 - i,
    {
        let c = Fq::from_u64(i);
        proof {
            vstd::arithmetic::div_mod::lemma_small_mod(i as nat, P as nat);
            assert(c == fq(i as int));
        }
        acc = acc.mul(z.sub(c));
        acc = acc.mul(z.add(c));
        i = i + 1;
    }
    acc
}

/// The equality-weight table of one variable block: entry `idx` holds the
/// multilinear equality weight of `idx` against the block point.
pub open spec fn eq_weight_fq(x: Seq<Fq>, j: int, k: nat) -> Fq
    decreases k,
{
    if k == 0 {
        fq_one()
    } else {
        fq_mul(
            eq_weight_fq(x, j, (k - 1) as nat),
            if (j / (pow2((k - 1) as nat) as int)) % 2 == 1 {
                x[k - 1]
            } else {
                fq_sub(fq_one(), x[k - 1])
            },
        )
    }
}

/// Build the equality-weight table of a `bits`-variable block.
fn mle_eq_block_table(bits: usize, tau_block: &Vec<Fq>) -> (out: Vec<Fq>)
    requires
        bits <= 28,
        tau_block@.len() == bits,
        seq_fq_wf(tau_block@),
    ensures
        out@.len() == pow2(bits as nat),
        seq_fq_wf(out@),
        forall|idx: int|
            0 <= idx < out@.len() ==> (#[trigger] out@[idx]) == eq_weight_fq(
                tau_block@,
                idx,
                bits as nat,
            ),
{
    let size = pow2_usize(bits);
    let mut out: Vec<Fq> = Vec::new();
    let mut idx: usize = 0;
    while idx < size
        invariant
            idx <= size,
            bits <= 28,
            size == pow2(bits as nat),
            tau_block@.len() == bits,
            seq_fq_wf(tau_block@),
            out@.len() == idx,
            seq_fq_wf(out@),
            forall|t: int|
                0 <= t < idx ==> (#[trigger] out@[t]) == eq_weight_fq(tau_block@, t, bits as nat),
        decreases size - idx,
    {
        let mut w = Fq::one();
        let mut jj = idx;
        let mut b: usize = 0;
        proof {
            vstd::arithmetic::power2::lemma2_to64();
        }
        while b < bits
            invariant
                b <= bits,
                bits <= 28,
                tau_block@.len() == bits,
                seq_fq_wf(tau_block@),
                w.wf(),
                w == eq_weight_fq(tau_block@, idx as int, b as nat),
                jj == (idx as int) / (pow2(b as nat) as int),
            decreases bits - b,
        {
            let bit = jj % 2;
            let term = if bit == 1 {
                tau_block[b]
            } else {
                Fq::one().sub(tau_block[b])
            };
            proof {
                lemma_pow2_unfold((b + 1) as nat);
                vstd::arithmetic::power2::lemma_pow2_pos(b as nat);
                vstd::arithmetic::div_mod::lemma_div_denominator(
                    idx as int,
                    pow2(b as nat) as int,
                    2,
                );
                assert(pow2((b + 1) as nat) as int == pow2(b as nat) as int * 2);
            }
            w = w.mul(term);
            jj = jj / 2;
            b = b + 1;
        }
        out.push(w);
        idx = idx + 1;
    }
    out
}

/// Cell `idx` of the norm-bound table: the equality weight of the cell
/// against `tau0` times the range polynomial of the witness coefficient.
pub open spec fn f0_cell(
    w: Seq<Fq>,
    tau0: Seq<Fq>,
    mk: nat,
    md: nat,
    idx: int,
) -> Fq {
    let rows = pow2(mk) as int;
    fq_mul(
        fq_mul(
            eq_weight_fq(tau0.take(mk as int), idx % rows, mk),
            eq_weight_fq(tau0.skip(mk as int), idx / rows, md),
        ),
        rbeta_rec(w[idx], 8),
    )
}

/// Build the norm-bound table `f0[u, l] = eq(tau0, (u, l)) * r_beta(w[u, l])`.
pub fn build_f0_table_beta8(w_table: &Vec<Fq>, mk: usize, md: usize, tau0: &Vec<Fq>) -> (out: Vec<
    Fq,
>)
    requires
        mk <= 14,
        md <= 14,
        w_table@.len() == pow2(mk as nat) * pow2(md as nat),
        tau0@.len() == mk + md,
        seq_fq_wf(w_table@),
        seq_fq_wf(tau0@),
    ensures
        out@.len() == w_table@.len(),
        seq_fq_wf(out@),
        forall|idx: int|
            0 <= idx < out@.len() ==> (#[trigger] out@[idx]) == f0_cell(
                w_table@,
                tau0@,
                mk as nat,
                md as nat,
                idx,
            ),
{
    let ghost wlen = w_table@.len();
    let wl: usize = w_table.len();
    let rows_k = pow2_usize(mk);
    let cols_d = pow2_usize(md);
    // split tau0 into the two blocks
    let mut tau_u: Vec<Fq> = Vec::new();
    let mut t: usize = 0;
    while t < mk
        invariant
            t <= mk,
            tau0@.len() == mk + md,
            seq_fq_wf(tau0@),
            tau_u@.len() == t,
            forall|i: int| 0 <= i < t ==> (#[trigger] tau_u@[i]) == tau0@[i],
        decreases mk - t,
    {
        tau_u.push(tau0[t]);
        t = t + 1;
    }
    let mut tau_l: Vec<Fq> = Vec::new();
    let mut t2: usize = 0;
    while t2 < md
        invariant
            t2 <= md,
            mk <= 14,
            md <= 14,
            tau0@.len() == mk + md,
            seq_fq_wf(tau0@),
            tau_l@.len() == t2,
            forall|i: int| 0 <= i < t2 ==> (#[trigger] tau_l@[i]) == tau0@[mk + i],
        decreases md - t2,
    {
        tau_l.push(tau0[mk + t2]);
        t2 = t2 + 1;
    }
    proof {
        assert(tau_u@ =~= tau0@.take(mk as int));
        assert(tau_l@ =~= tau0@.skip(mk as int));
        assert(seq_fq_wf(tau_u@));
        assert(seq_fq_wf(tau_l@));
    }
    let eq_u = mle_eq_block_table(mk, &tau_u);
    let eq_l = mle_eq_block_table(md, &tau_l);
    let mut out: Vec<Fq> = Vec::new();
    let mut d: usize = 0;
    proof {
        assert(rows_k as int * cols_d as int == wlen);
    }
    while d < cols_d
        invariant
            d <= cols_d,
            rows_k == pow2(mk as nat),
            cols_d == pow2(md as nat),
            rows_k >= 1,
            rows_k as int * cols_d as int == wlen,
            wlen == w_table@.len(),
            wl == wlen,
            tau0@.len() == mk + md,
            seq_fq_wf(w_table@),
            seq_fq_wf(tau0@),
            tau_u@ == tau0@.take(mk as int),
            tau_l@ == tau0@.skip(mk as int),
            eq_u@.len() == rows_k,
            eq_l@.len() == cols_d,
            seq_fq_wf(eq_u@),
            seq_fq_wf(eq_l@),
            forall|i: int|
                0 <= i < rows_k ==> (#[trigger] eq_u@[i]) == eq_weight_fq(
                    tau0@.take(mk as int),
                    i,
                    mk as nat,
                ),
            forall|i: int|
                0 <= i < cols_d ==> (#[trigger] eq_l@[i]) == eq_weight_fq(
                    tau0@.skip(mk as int),
                    i,
                    md as nat,
                ),
            out@.len() == d * rows_k,
            seq_fq_wf(out@),
            forall|idx: int|
                0 <= idx < d * rows_k ==> (#[trigger] out@[idx]) == f0_cell(
                    w_table@,
                    tau0@,
                    mk as nat,
                    md as nat,
                    idx,
                ),
        decreases cols_d - d,
    {
        proof {
            assert((d + 1) * rows_k == d * rows_k + rows_k && d * rows_k >= 0 && (d + 1) * rows_k
                <= cols_d * rows_k && cols_d * rows_k == rows_k * cols_d) by (nonlinear_arith)
                requires
                    0 <= d < cols_d,
                    rows_k >= 1,
            ;
        }
        let mut k: usize = 0;
        while k < rows_k
            invariant
                k <= rows_k,
                d < cols_d,
                rows_k == pow2(mk as nat),
                cols_d == pow2(md as nat),
                rows_k >= 1,
                rows_k as int * cols_d as int == wlen,
                wlen == w_table@.len(),
                wl == wlen,
                (d + 1) * rows_k == d * rows_k + rows_k,
                (d + 1) * rows_k <= wlen,
                tau0@.len() == mk + md,
                seq_fq_wf(w_table@),
                seq_fq_wf(tau0@),
                eq_u@.len() == rows_k,
                eq_l@.len() == cols_d,
                seq_fq_wf(eq_u@),
                seq_fq_wf(eq_l@),
                forall|i: int|
                    0 <= i < rows_k ==> (#[trigger] eq_u@[i]) == eq_weight_fq(
                        tau0@.take(mk as int),
                        i,
                        mk as nat,
                    ),
                forall|i: int|
                    0 <= i < cols_d ==> (#[trigger] eq_l@[i]) == eq_weight_fq(
                        tau0@.skip(mk as int),
                        i,
                        md as nat,
                    ),
                out@.len() == d * rows_k + k,
                seq_fq_wf(out@),
                forall|idx: int|
                    0 <= idx < d * rows_k + k ==> (#[trigger] out@[idx]) == f0_cell(
                        w_table@,
                        tau0@,
                        mk as nat,
                        md as nat,
                        idx,
                    ),
            decreases rows_k - k,
        {
            proof {
                assert(d * rows_k >= 0 && k + d * rows_k < (d + 1) * rows_k) by (nonlinear_arith)
                    requires
                        0 <= k < rows_k,
                        d >= 0,
                ;
            }
            let idx = k + d * rows_k;
            proof {
                vstd::arithmetic::div_mod::lemma_fundamental_div_mod_converse_mod(
                    idx as int,
                    rows_k as int,
                    d as int,
                    k as int,
                );
                vstd::arithmetic::div_mod::lemma_fundamental_div_mod_converse_div(
                    idx as int,
                    rows_k as int,
                    d as int,
                    k as int,
                );
            }
            let eq = eq_u[k].mul(eq_l[d]);
            let range_poly = rbeta_fq_beta8(w_table[idx]);
            out.push(eq.mul(range_poly));
            k = k + 1;
        }
        d = d + 1;
    }
    proof {
        assert(cols_d * rows_k == rows_k * cols_d) by (nonlinear_arith);
    }
    out
}

/// The range polynomial vanishes exactly on the canonical residues of
/// `{-8, ..., 8}`: here the vanishing direction, used by the norm-bound
/// completeness argument.
pub proof fn lemma_rbeta_zero_on_range(z: Fq, t: int)
    requires
        -8 <= t <= 8,
        z == fq(t),
    ensures
        rbeta_rec(z, 8) == fq_zero(),
{
    let p = P as int;
    if t == 0 {
        assert(z.v == 0) by {
            vstd::arithmetic::div_mod::lemma_small_mod(0, p as nat);
        }
        lemma_rbeta_zero_propagates(z, 0, 8);
    } else if t > 0 {
        assert(z.v == t) by {
            vstd::arithmetic::div_mod::lemma_small_mod(t as nat, p as nat);
        }
        assert(fq_sub(z, fq(t)) == fq_zero()) by {
            vstd::arithmetic::div_mod::lemma_small_mod(t as nat, p as nat);
            vstd::arithmetic::div_mod::lemma_small_mod(0, p as nat);
        }
        assert(rbeta_rec(z, t as nat) == fq_zero()) by {
            lemma_fq_mul_zero(fq_add(z, fq(t)));
            lemma_fq_mul_zero(rbeta_rec(z, (t - 1) as nat));
            assert(fq_mul(rbeta_rec(z, (t - 1) as nat), fq_sub(z, fq(t))) == fq_zero()) by {
                lemma_fq_mul_zero(rbeta_rec(z, (t - 1) as nat));
            }
        }
        lemma_rbeta_zero_propagates(z, t as nat, 8);
    } else {
        let s = -t;
        assert(z.v as int == p + t) by {
            vstd::arithmetic::div_mod::lemma_mod_sub_multiples_vanish(t + p, p);
            vstd::arithmetic::div_mod::lemma_small_mod((t + p) as nat, p as nat);
        }
        assert(fq_add(z, fq(s)) == fq_zero()) by {
            vstd::arithmetic::div_mod::lemma_small_mod(s as nat, p as nat);
            vstd::arithmetic::div_mod::lemma_mod_self_0(p);
            assert((z.v + s) % p == 0) by {
                assert(z.v + s == p);
            }
        }
        assert(rbeta_rec(z, s as nat) == fq_zero()) by {
            lemma_fq_mul_zero(fq_mul(rbeta_rec(z, (s - 1) as nat), fq_sub(z, fq(s))));
        }
        lemma_rbeta_zero_propagates(z, s as nat, 8);
    }
}

/// Once a factor is zero, the rest of the product stays zero.
proof fn lemma_rbeta_zero_propagates(z: Fq, from: nat, to: nat)
    requires
        from <= to,
        rbeta_rec(z, from) == fq_zero(),
    ensures
        rbeta_rec(z, to) == fq_zero(),
    decreases to - from,
{
    if to > from {
        lemma_rbeta_zero_propagates(z, from, (to - 1) as nat);
        lemma_fq_mul_zero(fq_sub(z, fq(to as int)));
        lemma_fq_mul_zero(fq_add(z, fq(to as int)));
        assert(fq_mul(rbeta_rec(z, (to - 1) as nat), fq_sub(z, fq(to as int))) == fq_zero());
    }
}

/// Norm-bound completeness, vanishing direction: when every witness
/// coefficient is the canonical residue of some integer in `{-8, ..., 8}`,
/// every cell of the norm-bound table is zero, and so is its total.
pub proof fn lemma_f0_table_zero(w: Seq<Fq>, tau0: Seq<Fq>, mk: nat, md: nat, f0: Seq<Fq>)
    requires
        f0.len() <= w.len(),
        forall|idx: int|
            0 <= idx < f0.len() ==> #[trigger] f0[idx] == f0_cell(w, tau0, mk, md, idx),
        forall|idx: int|
            0 <= idx < w.len() ==> exists|t: int| -8 <= t <= 8 && #[trigger] w[idx] == fq(t),
    ensures
        sum_fq(f0) == fq_zero(),
    decreases f0.len(),
{
    if f0.len() == 0 {
    } else {
        let n = f0.len() as int;
        assert(f0[n - 1] == f0_cell(w, tau0, mk, md, n - 1));
        let t = choose|t: int| -8 <= t <= 8 && w[n - 1] == fq(t);
        lemma_rbeta_zero_on_range(w[n - 1], t);
        lemma_fq_mul_zero(
            fq_mul(
                eq_weight_fq(tau0.take(mk as int), (n - 1) % (pow2(mk) as int), mk),
                eq_weight_fq(tau0.skip(mk as int), (n - 1) / (pow2(mk) as int), md),
            ),
        );
        assert(f0[n - 1] == fq_zero());
        lemma_f0_table_zero(w, tau0, mk, md, f0.drop_last());
        assert(forall|idx: int|
            0 <= idx < f0.drop_last().len() ==> #[trigger] f0.drop_last()[idx] == f0[idx]);
        lemma_fq_add_zero(fq_zero());
        assert(sum_fq(f0) == fq_add(sum_fq(f0.drop_last()), f0[n - 1]));
    }
}

} // verus!
use vstd::prelude::*;

verus! {

/// After all rounds the prover's final value is the multilinear extension
/// of the table evaluated at the challenge vector, where evaluation is
/// successive partial evaluation, one fold per variable, exactly as
/// `fix_tau_eval_table` computes it.
pub proof fn lemma_final_eval_is_mle_evaluation(table: Seq<Fq4>, rs: Seq<Fq4>, fixed: Seq<Fq4>)
    requires
        table.len() == pow2(rs.len() as nat),
        fixed == layer_at_fq4(table, rs, rs.len() as nat),
    ensures
        fixed.len() == 1,
        layer_at_fq4(table, rs, rs.len() as nat)[0] == fixed[0],
{
    lemma_layer_len_fq4(table, rs, rs.len() as nat, rs.len() as nat);
    vstd::arithmetic::power2::lemma2_to64();
}

} // verus!
use vstd::prelude::*;

verus! {

use crate::field::lemma_fq4_mul_assoc;
use crate::field::lemma_fq4_mul_distrib_right;
use crate::field::lemma_fq4_mul_one;
use crate::field::lemma_fq4_mul_wf;
use crate::field::lemma_fq4_add_zero;

/// The multilinear equality weight of index `idx` against the point `rs`,
/// low variable first: the product over the first `k` variables of `rs[j]`
/// where bit `j` of `idx` is set and `1 - rs[j]` where it is clear.
#[verifier::opaque]
pub open spec fn eq_point_fq4(rs: Seq<Fq4>, idx: int, k: nat) -> Fq4
    decreases k,
{
    if k == 0 {
        fq4_one()
    } else {
        fq4_mul(
            if idx % 2 == 1 {
                rs[0]
            } else {
                fq4_sub(fq4_one(), rs[0])
            },
            eq_point_fq4(rs.drop_first(), idx / 2, (k - 1) as nat),
        )
    }
}

/// `sum_idx t[idx] * eq(idx, rs)`: the eq-weighted total of a table.
#[verifier::opaque]
pub open spec fn eq_weighted_sum_fq4(t: Seq<Fq4>, rs: Seq<Fq4>, k: nat) -> Fq4
    decreases t.len(),
{
    if t.len() == 0 {
        fq4_zero()
    } else {
        fq4_add(
            eq_weighted_sum_fq4(t.drop_last(), rs, k),
            fq4_mul(t.last(), eq_point_fq4(rs, t.len() - 1, k)),
        )
    }
}

proof fn lemma_eq_point_wf(rs: Seq<Fq4>, idx: int, k: nat)
    ensures
        eq_point_fq4(rs, idx, k).wf(),
    decreases k,
{
    reveal_with_fuel(eq_point_fq4, 2);
    if k == 0 {
    } else {
        lemma_eq_point_wf(rs.drop_first(), idx / 2, (k - 1) as nat);
        if idx % 2 == 1 {
            lemma_fq4_mul_wf(rs[0], eq_point_fq4(rs.drop_first(), idx / 2, (k - 1) as nat));
        } else {
            lemma_fq4_mul_wf(
                fq4_sub(fq4_one(), rs[0]),
                eq_point_fq4(rs.drop_first(), idx / 2, (k - 1) as nat),
            );
        }
    }
}

proof fn lemma_eq_weighted_sum_wf(t: Seq<Fq4>, rs: Seq<Fq4>, k: nat)
    ensures
        eq_weighted_sum_fq4(t, rs, k).wf(),
    decreases t.len(),
{
    reveal_with_fuel(eq_weighted_sum_fq4, 2);
    if t.len() > 0 {
        lemma_eq_weighted_sum_wf(t.drop_last(), rs, k);
        lemma_fq4_ops_wf(
            eq_weighted_sum_fq4(t.drop_last(), rs, k),
            fq4_mul(t.last(), eq_point_fq4(rs, t.len() - 1, k)),
        );
    }
}

/// Pure algebra of one pair: `ta ((1-r0) ex) + tb (r0 ex) ==
/// (ta (1-r0) + tb r0) ex`.
proof fn lemma_pair_combine(ta: Fq4, tb: Fq4, r0: Fq4, ex: Fq4)
    ensures
        fq4_add(
            fq4_mul(ta, fq4_mul(fq4_sub(fq4_one(), r0), ex)),
            fq4_mul(tb, fq4_mul(r0, ex)),
        ) == fq4_mul(fq4_add(fq4_mul(ta, fq4_sub(fq4_one(), r0)), fq4_mul(tb, r0)), ex),
{
    lemma_fq4_mul_assoc(ta, fq4_sub(fq4_one(), r0), ex);
    lemma_fq4_mul_assoc(tb, r0, ex);
    lemma_fq4_mul_distrib_right(fq4_mul(ta, fq4_sub(fq4_one(), r0)), fq4_mul(tb, r0), ex);
}

/// Unfold the last two terms of an eq-weighted sum.
#[verifier::spinoff_prover]
proof fn lemma_ws_unfold2(t: Seq<Fq4>, rs: Seq<Fq4>, k: nat)
    requires
        t.len() >= 2,
    ensures
        eq_weighted_sum_fq4(t, rs, k) == fq4_add(
            fq4_add(
                eq_weighted_sum_fq4(t.take(t.len() - 2), rs, k),
                fq4_mul(t[t.len() - 2], eq_point_fq4(rs, t.len() - 2, k)),
            ),
            fq4_mul(t[t.len() - 1], eq_point_fq4(rs, t.len() - 1, k)),
        ),
{
    reveal_with_fuel(eq_weighted_sum_fq4, 3);
    assert(t.drop_last().drop_last() =~= t.take(t.len() - 2));
    assert(t.drop_last().last() == t[t.len() - 2]);
    assert(t.last() == t[t.len() - 1]);
}

/// Unfold the last term of an eq-weighted sum.
#[verifier::spinoff_prover]
proof fn lemma_ws_unfold1(t: Seq<Fq4>, rs: Seq<Fq4>, k: nat)
    requires
        t.len() >= 1,
    ensures
        eq_weighted_sum_fq4(t, rs, k) == fq4_add(
            eq_weighted_sum_fq4(t.drop_last(), rs, k),
            fq4_mul(t[t.len() - 1], eq_point_fq4(rs, t.len() - 1, k)),
        ),
{
    reveal_with_fuel(eq_weighted_sum_fq4, 2);
}

/// Unfold one variable of an equality weight.
#[verifier::spinoff_prover]
proof fn lemma_eq_point_unfold(rs: Seq<Fq4>, idx: int, k: nat)
    requires
        k >= 1,
    ensures
        eq_point_fq4(rs, idx, k) == fq4_mul(
            if idx % 2 == 1 {
                rs[0]
            } else {
                fq4_sub(fq4_one(), rs[0])
            },
            eq_point_fq4(rs.drop_first(), idx / 2, (k - 1) as nat),
        ),
{
    reveal_with_fuel(eq_point_fq4, 2);
}

/// Folding the tail of a table folds the tail of the folded table.
#[verifier::spinoff_prover]
proof fn lemma_fold_take(t: Seq<Fq4>, r0: Fq4)
    requires
        t.len() >= 2,
        t.len() % 2 == 0,
    ensures
        fold_fq4(t, r0).drop_last() == fold_fq4(t.take(t.len() - 2), r0),
        fold_fq4(t, r0).last() == fq4_add(
            fq4_mul(t[t.len() - 2], fq4_sub(fq4_one(), r0)),
            fq4_mul(t[t.len() - 1], r0),
        ),
{
    assert(fold_fq4(t, r0).drop_last() =~= fold_fq4(t.take(t.len() - 2), r0));
    let m = t.len() as int / 2;
    assert(2 * m == t.len()) by {
        vstd::arithmetic::div_mod::lemma_fundamental_div_mod(t.len() as int, 2);
    }
    assert(fold_fq4(t, r0)[m - 1] == fq4_add(
        fq4_mul(t[2 * (m - 1)], fq4_sub(fq4_one(), r0)),
        fq4_mul(t[2 * (m - 1) + 1], r0),
    ));
}

/// One fold collapses the lowest variable of the eq-weighted sum.
#[verifier::rlimit(100)]
#[verifier::spinoff_prover]
proof fn lemma_eq_weighted_sum_fold(t: Seq<Fq4>, rs: Seq<Fq4>, k: nat)
    requires
        t.len() % 2 == 0,
        k >= 1,
        rs.len() >= 1,
        seq_fq4_wf(t),
    ensures
        eq_weighted_sum_fq4(t, rs, k) == eq_weighted_sum_fq4(
            fold_fq4(t, rs[0]),
            rs.drop_first(),
            (k - 1) as nat,
        ),
    decreases t.len(),
{
    let r0 = rs[0];
    let rsx = rs.drop_first();
    let f = fold_fq4(t, r0);
    if t.len() == 0 {
        reveal_with_fuel(eq_weighted_sum_fq4, 1);
        assert(f =~= Seq::<Fq4>::empty());
    } else {
        let n = t.len() as int;
        assert(n >= 2) by {
            if n == 1 {
                assert(t.len() % 2 == 1int % 2);
            }
        }
        let m = n / 2;
        let t2 = t.take(n - 2);
        assert(t2.len() % 2 == 0);
        assert(seq_fq4_wf(t2));
        lemma_eq_weighted_sum_fold(t2, rs, k);
        let f2 = fold_fq4(t2, r0);
        lemma_fold_take(t, r0);
        let ta = t[n - 2];
        let tb = t[n - 1];
        let ea = eq_point_fq4(rs, n - 2, k);
        let eb = eq_point_fq4(rs, n - 1, k);
        let w = eq_weighted_sum_fq4(t2, rs, k);
        lemma_ws_unfold2(t, rs, k);
        let ex = eq_point_fq4(rsx, m - 1, (k - 1) as nat);
        assert((n - 2) % 2 == 0 && (n - 2) / 2 == m - 1 && (n - 1) % 2 == 1 && (n - 1) / 2 == m
            - 1) by {
            vstd::arithmetic::div_mod::lemma_fundamental_div_mod_converse_mod(n - 2, 2, m - 1, 0);
            vstd::arithmetic::div_mod::lemma_fundamental_div_mod_converse_div(n - 2, 2, m - 1, 0);
            vstd::arithmetic::div_mod::lemma_fundamental_div_mod_converse_mod(n - 1, 2, m - 1, 1);
            vstd::arithmetic::div_mod::lemma_fundamental_div_mod_converse_div(n - 1, 2, m - 1, 1);
            vstd::arithmetic::div_mod::lemma_fundamental_div_mod(n, 2);
            vstd::arithmetic::div_mod::lemma_mod_bound(n, 2);
        }
        assert(ea == fq4_mul(fq4_sub(fq4_one(), r0), ex)) by {
            lemma_eq_point_unfold(rs, n - 2, k);
        }
        assert(eb == fq4_mul(r0, ex)) by {
            lemma_eq_point_unfold(rs, n - 1, k);
        }
        let flast = fq4_add(fq4_mul(ta, fq4_sub(fq4_one(), r0)), fq4_mul(tb, r0));
        assert(fq4_add(fq4_mul(ta, ea), fq4_mul(tb, eb)) == fq4_mul(flast, ex)) by {
            lemma_pair_combine(ta, tb, r0, ex);
        }
        assert(f.len() == m);
        lemma_ws_unfold1(f, rsx, (k - 1) as nat);
        assert(f[f.len() - 1] == flast);
        assert(f.drop_last() == f2);
        assert(fq4_add(fq4_add(w, fq4_mul(ta, ea)), fq4_mul(tb, eb)) == fq4_add(
            w,
            fq4_mul(flast, ex),
        )) by {
            lemma_eq_weighted_sum_wf(t2, rs, k);
            lemma_fq4_mul_wf(ta, ea);
            lemma_fq4_mul_wf(tb, eb);
            crate::field::lemma_fq4_add_assoc(w, fq4_mul(ta, ea), fq4_mul(tb, eb));
        }
    }
}

/// Peeling the first challenge: folding once, then running the remaining
/// rounds, is the same as running all rounds.
#[verifier::rlimit(100)]
proof fn lemma_layer_shift(t: Seq<Fq4>, rs: Seq<Fq4>, j: nat)
    requires
        1 <= j <= rs.len(),
    ensures
        layer_at_fq4(t, rs, j) == layer_at_fq4(fold_fq4(t, rs[0]), rs.drop_first(), (j - 1) as nat),
    decreases j,
{
    if j == 1 {
        assert(layer_at_fq4(t, rs, 1) == fold_fq4(layer_at_fq4(t, rs, 0), rs[0]));
        assert(layer_at_fq4(t, rs, 0) == t);
        assert(layer_at_fq4(fold_fq4(t, rs[0]), rs.drop_first(), 0) == fold_fq4(t, rs[0]));
    } else {
        lemma_layer_shift(t, rs, (j - 1) as nat);
        assert(rs.drop_first()[j - 2] == rs[j - 1]);
        assert(layer_at_fq4(t, rs, j) == fold_fq4(layer_at_fq4(t, rs, (j - 1) as nat), rs[j - 1]));
        assert(layer_at_fq4(fold_fq4(t, rs[0]), rs.drop_first(), (j - 1) as nat) == fold_fq4(
            layer_at_fq4(fold_fq4(t, rs[0]), rs.drop_first(), (j - 2) as nat),
            rs.drop_first()[j - 2],
        ));
    }
}

/// The sum-check collapse: after one fold per challenge, the single
/// remaining entry is the eq-weighted sum of the starting table against
/// the challenge point, i.e. the multilinear extension of the table
/// evaluated there.
pub proof fn lemma_folded_eval_is_eq_weighted_sum(t: Seq<Fq4>, rs: Seq<Fq4>)
    requires
        t.len() == pow2(rs.len() as nat),
        seq_fq4_wf(t),
        seq_fq4_wf(rs),
    ensures
        layer_at_fq4(t, rs, rs.len() as nat)[0] == eq_weighted_sum_fq4(t, rs, rs.len() as nat),
    decreases rs.len(),
{
    vstd::arithmetic::power2::lemma2_to64();
    reveal_with_fuel(eq_point_fq4, 2);
    reveal_with_fuel(eq_weighted_sum_fq4, 2);
    if rs.len() == 0 {
        assert(t.len() == 1);
        assert(t.drop_last().len() == 0);
        assert(t.last() == t[0]);
        lemma_fq4_mul_one(t[0]);
        assert(eq_weighted_sum_fq4(t.drop_last(), rs, 0) == fq4_zero());
        assert(eq_point_fq4(rs, 0, 0) == fq4_one());
        assert(fq4_mul(t[0], eq_point_fq4(rs, 0, 0)) == t[0]);
        assert(eq_weighted_sum_fq4(t, rs, 0) == fq4_add(fq4_zero(), t[0]));
        crate::field::lemma_fq4_add_zero(t[0]);
        assert(layer_at_fq4(t, rs, 0) == t);
    } else {
        let k = rs.len() as nat;
        lemma_pow2_unfold(k);
        lemma_pow2_pos((k - 1) as nat);
        assert(t.len() % 2 == 0) by {
            vstd::arithmetic::div_mod::lemma_mod_multiples_basic(
                pow2((k - 1) as nat) as int,
                2,
            );
            assert(pow2(k) as int == pow2((k - 1) as nat) as int * 2);
        }
        let f = fold_fq4(t, rs[0]);
        let rsx = rs.drop_first();
        assert(seq_fq4_wf(f)) by {
            assert forall|i: int| 0 <= i < f.len() implies (#[trigger] f[i]).wf() by {
                lemma_fq4_mul_wf(t[2 * i], fq4_sub(fq4_one(), rs[0]));
                lemma_fq4_mul_wf(t[2 * i + 1], rs[0]);
                lemma_fq4_ops_wf(
                    fq4_mul(t[2 * i], fq4_sub(fq4_one(), rs[0])),
                    fq4_mul(t[2 * i + 1], rs[0]),
                );
            }
        }
        assert(seq_fq4_wf(rsx));
        assert(f.len() == pow2((k - 1) as nat)) by {
            assert(t.len() / 2 == pow2((k - 1) as nat)) by {
                vstd::arithmetic::div_mod::lemma_div_multiples_vanish(
                    pow2((k - 1) as nat) as int,
                    2,
                );
                assert(2 * pow2((k - 1) as nat) as int == pow2((k - 1) as nat) as int * 2)
                    by (nonlinear_arith);
            }
        }
        lemma_folded_eval_is_eq_weighted_sum(f, rsx, );
        lemma_layer_shift(t, rs, k);
        lemma_eq_weighted_sum_fold(t, rs, k);
        assert(rsx.len() == k - 1);
    }
}

} // verus!
use vstd::prelude::*;

verus! {

use crate::field::lemma_fq_add_assoc;
use crate::field::lemma_fq_add_comm;
use crate::field::lemma_fq_two_plus_diff;
use crate::field::lemma_fq_wf;

proof fn lemma_sum_fq_wf(s: Seq<Fq>)
    requires
        seq_fq_wf(s),
    ensures
        sum_fq(s).wf(),
    decreases s.len(),
{
    if s.len() > 0 {
        assert(seq_fq_wf(s.drop_last()));
        lemma_sum_fq_wf(s.drop_last());
        lemma_fq_wf(sum_fq(s.drop_last()).v + s.last().v);
    }
}

/// An even-length base-field sum splits into its even and odd positions.
proof fn lemma_sum_split_parity_fq(s: Seq<Fq>)
    requires
        s.len() % 2 == 0,
        seq_fq_wf(s),
    ensures
        sum_fq(s) == fq_add(sum_fq(evens(s)), sum_fq(odds(s))),
    decreases s.len(),
{
    if s.len() == 0 {
        assert(evens(s) =~= Seq::<Fq>::empty());
        assert(odds(s) =~= Seq::<Fq>::empty());
        vstd::arithmetic::div_mod::lemma_small_mod(0, P as nat);
    } else {
        let n = s.len() as int;
        assert(n >= 2) by {
            if n == 1 {
                assert(s.len() % 2 == 1int % 2);
            }
        }
        let s2 = s.take(n - 2);
        assert(s2.len() % 2 == 0);
        assert(seq_fq_wf(s2));
        lemma_sum_split_parity_fq(s2);
        let a = s[n - 2];
        let b = s[n - 1];
        let e2 = sum_fq(evens(s2));
        let o2 = sum_fq(odds(s2));
        assert(evens(s).drop_last() =~= evens(s2));
        assert(odds(s).drop_last() =~= odds(s2));
        assert(evens(s).last() == a);
        assert(odds(s).last() == b);
        assert(s.drop_last().drop_last() =~= s2);
        assert(s.last() == b);
        assert(s.drop_last().last() == a);
        assert(sum_fq(s.drop_last()) == fq_add(sum_fq(s2), a));
        assert(sum_fq(s) == fq_add(fq_add(sum_fq(s2), a), b));
        assert(seq_fq_wf(evens(s2))) by {
            assert forall|i: int| 0 <= i < evens(s2).len() implies (#[trigger] evens(s2)[i]).wf()
                by {
                assert(evens(s2)[i] == s2[2 * i]);
            }
        }
        assert(seq_fq_wf(odds(s2))) by {
            assert forall|i: int| 0 <= i < odds(s2).len() implies (#[trigger] odds(s2)[i]).wf() by {
                assert(odds(s2)[i] == s2[2 * i + 1]);
            }
        }
        lemma_sum_fq_wf(evens(s2));
        lemma_sum_fq_wf(odds(s2));
        lemma_fq_wf(e2.v + o2.v);
        lemma_fq_wf(o2.v + a.v);
        lemma_fq_wf(e2.v + a.v);
        lemma_fq_add_assoc(e2, o2, a);
        lemma_fq_add_comm(o2, a);
        lemma_fq_add_assoc(e2, a, o2);
        lemma_fq_add_assoc(fq_add(e2, a), o2, b);
    }
}

/// Round consistency of the range (base-field) sum-check prover: the
/// emitted pair satisfies `2 c0 + c1 = sum of the current layer`.
pub proof fn lemma_range_round_pair_sums_layer(layer: Seq<Fq>)
    requires
        layer.len() % 2 == 0,
        seq_fq_wf(layer),
    ensures
        fq_add(
            fq_add(sum_fq(evens(layer)), sum_fq(evens(layer))),
            fq_sub(sum_fq(odds(layer)), sum_fq(evens(layer))),
        ) == sum_fq(layer),
{
    lemma_sum_split_parity_fq(layer);
    assert(seq_fq_wf(evens(layer))) by {
        assert forall|i: int| 0 <= i < evens(layer).len() implies (#[trigger] evens(layer)[i]).wf()
            by {
            assert(evens(layer)[i] == layer[2 * i]);
        }
    }
    assert(seq_fq_wf(odds(layer))) by {
        assert forall|i: int| 0 <= i < odds(layer).len() implies (#[trigger] odds(layer)[i]).wf()
            by {
            assert(odds(layer)[i] == layer[2 * i + 1]);
        }
    }
    lemma_sum_fq_wf(evens(layer));
    lemma_sum_fq_wf(odds(layer));
    lemma_fq_two_plus_diff(sum_fq(evens(layer)), sum_fq(odds(layer)));
}

} // verus!
