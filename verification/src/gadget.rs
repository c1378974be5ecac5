//! Balanced base-`b` gadget decomposition `G^{-1}_{b,n}` over `R_q`, and its
//! inverse `G_{b,n}`: each canonical coefficient is viewed as its signed
//! representative and split into `delta` digits whose signed representatives
//! lie in `[-floor(b/2), floor(b/2)]` (for even `b` the least digit value is
//! `-(b/2 - 1)`); recomposition evaluates the digits at `b` modulo `q`.

use vstd::prelude::*;

verus! {

use crate::ring::D;
use crate::ring::ModQ;
use crate::ring::Poly;
use crate::ring::poly_wf;
use vstd::arithmetic::div_mod::lemma_add_mod_noop;
use vstd::arithmetic::div_mod::lemma_mul_mod_noop_left;
use vstd::arithmetic::div_mod::lemma_mul_mod_noop_right;
use vstd::arithmetic::div_mod::lemma_mod_bound;
use vstd::arithmetic::div_mod::lemma_small_mod;
use vstd::arithmetic::div_mod::lemma_mod_sub_multiples_vanish;
use vstd::arithmetic::div_mod::lemma_mod_multiples_basic;
use vstd::arithmetic::div_mod::lemma_fundamental_div_mod;
use vstd::arithmetic::div_mod::lemma_fundamental_div_mod_converse_mod;
use vstd::arithmetic::div_mod::lemma_div_multiples_vanish;

/// Signed representative of a canonical residue: the unique integer in
/// `[q/2 + 1 - q, q/2]` congruent to `x` modulo `q`.
pub open spec fn signed_rep(x: int, q: int) -> int {
    if x > q / 2 {
        x - q
    } else {
        x
    }
}

/// Largest signed representative of a residue mod `q`.
pub open spec fn rep_max(q: int) -> int {
    q / 2
}

/// Smallest signed representative of a residue mod `q`.
pub open spec fn rep_min(q: int) -> int {
    q / 2 + 1 - q
}

/// Largest balanced digit for base `b`.
pub open spec fn bal_max(b: int) -> int {
    b / 2
}

/// Smallest balanced digit for base `b`: `-(b/2)` for odd `b`, `-(b/2 - 1)`
/// for even `b` (the residue `b/2` itself stays positive).
pub open spec fn bal_min(b: int) -> int {
    if b % 2 == 0 {
        1 - b / 2
    } else {
        0 - b / 2
    }
}

/// The balanced digit of `y`: the Euclidean residue `y mod b`, shifted down
/// by `b` when it exceeds `b/2`.
pub open spec fn bal(y: int, b: int) -> int {
    if y % b > b / 2 {
        y % b - b
    } else {
        y % b
    }
}

/// The greedy balanced digit expansion of `y`, low digit first.
pub open spec fn bal_digits(y: int, b: int, delta: nat) -> Seq<int>
    decreases delta,
{
    if delta == 0 {
        Seq::empty()
    } else {
        seq![bal(y, b)] + bal_digits((y - bal(y, b)) / b, b, (delta - 1) as nat)
    }
}

/// `sum_i ds[i] * b^i`, written in Horner form.
pub open spec fn digit_sum(ds: Seq<int>, b: int) -> int
    decreases ds.len(),
{
    if ds.len() == 0 {
        0
    } else {
        ds[0] + b * digit_sum(ds.drop_first(), b)
    }
}

/// `sum_i signed_rep(ds[i]) * b^i` for canonical digits, in Horner form.
pub open spec fn canon_digit_sum(ds: Seq<u32>, b: int, q: int) -> int
    decreases ds.len(),
{
    if ds.len() == 0 {
        0
    } else {
        signed_rep(ds[0] as int, q) + b * canon_digit_sum(ds.drop_first(), b, q)
    }
}

/// Largest integer representable by `j` greedy balanced digits.
pub open spec fn rng_hi(b: int, j: nat) -> int
    decreases j,
{
    if j == 0 {
        0
    } else {
        b * rng_hi(b, (j - 1) as nat) + bal_max(b)
    }
}

/// Smallest integer representable by `j` greedy balanced digits.
pub open spec fn rng_lo(b: int, j: nat) -> int
    decreases j,
{
    if j == 0 {
        0
    } else {
        b * rng_lo(b, (j - 1) as nat) + bal_min(b)
    }
}

/// Every signed representative mod `q` decomposes into `delta` balanced
/// base-`b` digits.
pub open spec fn covers(q: int, b: int, delta: nat) -> bool {
    rng_lo(b, delta) <= rep_min(q) && rep_max(q) <= rng_hi(b, delta)
}

/// The number of digits the iterative `digits_for` loop produces, starting
/// from the running power `p`.
pub open spec fn digits_rec(q: int, b: int, p: int) -> nat
    decreases (if q - p > 0 { q - p } else { 0 })
        when b >= 2 && p >= 1
        via digits_rec_decreases
{
    if p >= q {
        0
    } else {
        (1 + digits_rec(q, b, p * b)) as nat
    }
}

#[via_fn]
proof fn digits_rec_decreases(q: int, b: int, p: int) {
    assert(p * b >= p * 2) by (nonlinear_arith)
        requires
            p >= 1,
            b >= 2,
    ;
}

/// `ceil(log_b(q))`: the smallest `delta` with `b^delta >= q`.
pub open spec fn digits_spec(q: int, b: int) -> nat {
    digits_rec(q, b, 1)
}

/// Digit `i` (as a canonical residue mod `q`) of the balanced expansion of
/// the signed representative of `x`.
pub open spec fn digit_of(x: u32, b: int, q: int, delta: nat, i: int) -> u32 {
    (bal_digits(signed_rep(x as int, q), b, delta)[i] % q) as u32
}

pub proof fn lemma_bal_digits_len(y: int, b: int, delta: nat)
    ensures
        bal_digits(y, b, delta).len() == delta,
    decreases delta,
{
    if delta > 0 {
        lemma_bal_digits_len((y - bal(y, b)) / b, b, (delta - 1) as nat);
    }
}

/// The parity facts about `b / 2` and `b % 2` needed around balanced digits.
proof fn lemma_half_facts(b: int)
    requires
        b >= 2,
    ensures
        2 * (b / 2) <= b <= 2 * (b / 2) + 1,
        b + bal_min(b) >= b / 2 + 1,
        bal_min(b) <= 0,
        bal_max(b) == b / 2,
        b / 2 >= 1,
{
    lemma_fundamental_div_mod(b, 2);
    lemma_mod_bound(b, 2);
}

proof fn lemma_bal_props(y: int, b: int)
    requires
        b >= 2,
    ensures
        bal_min(b) <= bal(y, b) <= bal_max(b),
        (y - bal(y, b)) % b == 0,
{
    let r = y % b;
    let k = y / b;
    lemma_mod_bound(y, b);
    lemma_fundamental_div_mod(y, b);
    lemma_half_facts(b);
    let d = bal(y, b);
    if r > b / 2 {
        assert(y - d == (k + 1) * b) by (nonlinear_arith)
            requires
                y == b * k + r,
                d == r - b,
        ;
        lemma_mod_multiples_basic(k + 1, b);
    } else {
        assert(y - d == k * b) by (nonlinear_arith)
            requires
                y == b * k + r,
                d == r,
        ;
        lemma_mod_multiples_basic(k, b);
    }
}

/// One greedy step stays within the range of one fewer digit.
proof fn lemma_step_range(y: int, b: int, j: nat)
    requires
        b >= 2,
        j >= 1,
        rng_lo(b, j) <= y <= rng_hi(b, j),
    ensures
        rng_lo(b, (j - 1) as nat) <= (y - bal(y, b)) / b <= rng_hi(b, (j - 1) as nat),
{
    lemma_bal_props(y, b);
    lemma_half_facts(b);
    let d = bal(y, b);
    let y2 = (y - d) / b;
    assert(y - d == b * y2) by {
        lemma_fundamental_div_mod(y - d, b);
    }
    let h = b / 2;
    let bm = bal_min(b);
    let hi2 = rng_hi(b, (j - 1) as nat);
    let lo2 = rng_lo(b, (j - 1) as nat);
    assert(rng_hi(b, j) == b * hi2 + h);
    assert(rng_lo(b, j) == b * lo2 + bm);
    if y2 > hi2 {
        assert(false) by (nonlinear_arith)
            requires
                b >= 2,
                y == b * y2 + d,
                y2 >= hi2 + 1,
                y <= b * hi2 + h,
                d >= bm,
                b + bm >= h + 1,
        ;
    }
    if y2 < lo2 {
        assert(false) by (nonlinear_arith)
            requires
                b >= 2,
                y == b * y2 + d,
                y2 <= lo2 - 1,
                y >= b * lo2 + bm,
                d <= h,
                b + bm >= h + 1,
        ;
    }
}

/// Greedy balanced decomposition is exact on its representable range, and
/// every digit it produces is a balanced digit.
pub proof fn lemma_digit_sum_round_trip(y: int, b: int, delta: nat)
    requires
        b >= 2,
        rng_lo(b, delta) <= y <= rng_hi(b, delta),
    ensures
        digit_sum(bal_digits(y, b, delta), b) == y,
        forall|i: int|
            0 <= i < delta ==> bal_min(b) <= #[trigger] bal_digits(y, b, delta)[i] <= bal_max(b),
    decreases delta,
{
    if delta == 0 {
        assert(y == 0);
    } else {
        lemma_bal_props(y, b);
        lemma_step_range(y, b, delta);
        let d = bal(y, b);
        let y2 = (y - d) / b;
        lemma_digit_sum_round_trip(y2, b, (delta - 1) as nat);
        let ds = bal_digits(y, b, delta);
        let tail = bal_digits(y2, b, (delta - 1) as nat);
        lemma_bal_digits_len(y, b, delta);
        lemma_bal_digits_len(y2, b, (delta - 1) as nat);
        assert(ds == seq![d] + tail);
        assert(ds.drop_first() =~= tail);
        assert(digit_sum(ds, b) == d + b * digit_sum(tail, b));
        assert(y - d == b * y2) by {
            lemma_fundamental_div_mod(y - d, b);
        }
        assert forall|i: int| 0 <= i < delta implies bal_min(b) <= #[trigger] ds[i] <= bal_max(
            b,
        ) by {
            if i > 0 {
                assert(ds[i] == tail[i - 1]);
            }
        }
    }
}

proof fn lemma_signed_rep_basic(x: int, q: int)
    requires
        q >= 1,
        0 <= x < q,
    ensures
        rep_min(q) <= signed_rep(x, q) <= rep_max(q),
        signed_rep(x, q) % q == x,
{
    if x > q / 2 {
        lemma_mod_sub_multiples_vanish(x - q + q, q);
        lemma_small_mod(x as nat, q as nat);
    } else {
        lemma_small_mod(x as nat, q as nat);
    }
}

/// Euclidean remainder of a (possibly negative) `i64` by a positive 32-bit
/// modulus, using unsigned machine arithmetic only.
fn umod_i64(v: i64, m: u32) -> (r: u32)
    requires
        m >= 1,
        -0x4000_0000_0000_0000 <= v <= 0x4000_0000_0000_0000,
    ensures
        r < m,
        r as int == (v as int) % (m as int),
{
    if v >= 0 {
        let r64: u64 = (v as u64) % (m as u64);
        proof {
            lemma_mod_bound(v as int, m as int);
        }
        r64 as u32
    } else {
        let w: u64 = (-v) as u64;
        let mm: u64 = w % (m as u64);
        proof {
            let vi = v as int;
            let mi = m as int;
            let j = (0 - vi) / mi;
            lemma_fundamental_div_mod(0 - vi, mi);
            lemma_mod_bound(0 - vi, mi);
            if (0 - vi) % mi == 0 {
                assert(vi == (0 - j) * mi + 0) by (nonlinear_arith)
                    requires
                        0 - vi == mi * j,
                ;
                lemma_fundamental_div_mod_converse_mod(vi, mi, 0 - j, 0);
            } else {
                assert(vi == (0 - j - 1) * mi + (mi - (0 - vi) % mi)) by (nonlinear_arith)
                    requires
                        0 - vi == mi * j + (0 - vi) % mi,
                ;
                lemma_fundamental_div_mod_converse_mod(vi, mi, 0 - j - 1, mi - (0 - vi) % mi);
            }
        }
        if mm == 0 {
            0
        } else {
            m - (mm as u32)
        }
    }
}

/// Exact signed division by a positive 32-bit divisor.
fn exact_div_i64(t: i64, b: u32) -> (r: i64)
    requires
        b >= 1,
        -0x4000_0000_0000_0000 <= t <= 0x4000_0000_0000_0000,
        (t as int) % (b as int) == 0,
    ensures
        r as int == (t as int) / (b as int),
        -0x4000_0000_0000_0000 <= r <= 0x4000_0000_0000_0000,
{
    if t >= 0 {
        proof {
            vstd::arithmetic::div_mod::lemma_div_is_ordered(0, t as int, b as int);
            vstd::arithmetic::div_mod::lemma_div_nonincreasing(t as int, b as int);
        }
        ((t as u64) / (b as u64)) as i64
    } else {
        let w: u64 = (-t) as u64;
        let k: u64 = w / (b as u64);
        proof {
            let ti = t as int;
            let bi = b as int;
            let ki = (0 - ti) / bi;
            lemma_fundamental_div_mod(0 - ti, bi);
            assert((0 - ti) % bi == 0) by {
                assert(ti % bi == 0);
                lemma_mod_bound(0 - ti, bi);
                lemma_fundamental_div_mod(ti, bi);
                assert(ti == bi * (ti / bi));
                assert(0 - ti == bi * (0 - ti / bi)) by (nonlinear_arith)
                    requires
                        ti == bi * (ti / bi),
                ;
                lemma_mod_multiples_basic(0 - ti / bi, bi);
                assert((bi * (0 - ti / bi)) % bi == 0) by {
                    assert(bi * (0 - ti / bi) == (0 - ti / bi) * bi) by (nonlinear_arith);
                }
            }
            assert(0 - ti == bi * ki);
            assert(ti == bi * (0 - ki)) by (nonlinear_arith)
                requires
                    0 - ti == bi * ki,
            ;
            lemma_div_multiples_vanish(0 - ki, bi);
            assert((bi * (0 - ki)) / bi == 0 - ki);
            vstd::arithmetic::div_mod::lemma_div_pos_is_pos(0 - ti, bi);
            vstd::arithmetic::div_mod::lemma_div_nonincreasing(0 - ti, bi);
        }
        -(k as i64)
    }
}

/// Canonicalizing a signed value in representative range and taking the
/// signed representative again is the identity.
proof fn lemma_canon_signed_roundtrip(v: int, q: int)
    requires
        q >= 1,
        rep_min(q) <= v <= rep_max(q),
    ensures
        0 <= v % q < q,
        signed_rep(v % q, q) == v,
{
    lemma_mod_bound(v, q);
    if v >= 0 {
        lemma_small_mod(v as nat, q as nat);
    } else {
        lemma_mod_sub_multiples_vanish(v + q, q);
        lemma_small_mod((v + q) as nat, q as nat);
        assert(v % q == v + q);
        assert(v + q > q / 2);
    }
}

/// The signed digits `delta` greedy steps produce from the signed
/// representative of `x`, each canonicalized mod `q`.
pub open spec fn digit_seq(x: u32, b: int, q: int, delta: nat) -> Seq<u32> {
    Seq::new(delta, |i: int| digit_of(x, b, q, delta, i))
}

/// Compute `delta = ceil(log_b(q))` without floating point: the smallest
/// `delta` with `base^delta >= q`.
pub fn digits_for(q: &ModQ, base: u32) -> (delta: usize)
    requires
        q.wf(),
        base >= 2,
    ensures
        delta as nat == digits_spec(q.q as int, base as int),
        delta <= 32,
{
    let qv: u128 = q.q as u128;
    let b: u128 = base as u128;
    let mut pow: u128 = 1;
    let mut delta: usize = 0;
    proof {
        vstd::arithmetic::power2::lemma2_to64();
    }
    while pow < qv
        invariant
            q.wf(),
            base >= 2,
            qv == q.q as int,
            b == base as int,
            1 <= pow <= 0xffff_ffff_ffff_ffff,
            delta <= 32,
            digits_spec(q.q as int, base as int) == delta + digits_rec(
                q.q as int,
                base as int,
                pow as int,
            ),
            pow as int >= vstd::arithmetic::power2::pow2(delta as nat),
        decreases (if qv as int - pow as int > 0 { qv as int - pow as int } else { 0 }),
    {
        proof {
            assert(pow * b >= pow * 2 && pow * 2 >= pow + pow) by (nonlinear_arith)
                requires
                    pow >= 1,
                    b >= 2,
            ;
            assert(pow * b <= 0xffff_fffe * 0xffff_ffff) by (nonlinear_arith)
                requires
                    1 <= pow <= 0xffff_fffe,
                    b <= 0xffff_ffff,
            ;
            vstd::arithmetic::power2::lemma_pow2_unfold((delta + 1) as nat);
            if delta >= 32 {
                vstd::arithmetic::power2::lemma_pow2_strictly_increases(32, (delta + 1) as nat);
                vstd::arithmetic::power2::lemma2_to64();
                assert(false);
            }
        }
        pow = pow * b;
        delta = delta + 1;
    }
    delta
}

/// Decompose a canonical coefficient `x` into `delta` balanced base-`base`
/// digits, each returned as a canonical residue mod `q`.
pub fn decompose_coeff_balanced(x: u32, base: u32, delta: usize, q: &ModQ) -> (r: Vec<u32>)
    requires
        q.wf(),
        base >= 2,
        x < q.q,
        covers(q.q as int, base as int, delta as nat),
    ensures
        r@.len() == delta,
        forall|i: int|
            0 <= i < delta ==> r@[i] < q.q && r@[i] == digit_of(
                x,
                base as int,
                q.q as int,
                delta as nat,
                i,
            ),
{
    let ghost bi = base as int;
    let ghost qi = q.q as int;
    let ghost y0 = signed_rep(x as int, qi);
    let q_half: u32 = q.q / 2;
    let b_half: u32 = base / 2;
    let mut y: i64 = if x > q_half {
        x as i64 - q.q as i64
    } else {
        x as i64
    };
    proof {
        lemma_signed_rep_basic(x as int, qi);
        lemma_bal_digits_len(y0, bi, delta as nat);
    }
    let mut out: Vec<u32> = Vec::new();
    let mut k: usize = 0;
    while k < delta
        invariant
            k <= delta,
            q.wf(),
            base >= 2,
            bi == base as int,
            qi == q.q as int,
            b_half == base / 2,
            out@.len() == k,
            y0 == signed_rep(x as int, qi),
            0 - (qi / 2 + bi) <= y as int <= qi / 2 + bi,
            bal_digits(y0, bi, delta as nat).subrange(k as int, delta as int) == bal_digits(
                y as int,
                bi,
                (delta - k) as nat,
            ),
            forall|i: int|
                0 <= i < k ==> out@[i] < q.q && out@[i] == digit_of(
                    x,
                    bi,
                    qi,
                    delta as nat,
                    i,
                ),
        decreases delta - k,
    {
        let ghost yk = y as int;
        let ghost tail_all = bal_digits(yk, bi, (delta - k) as nat);
        proof {
            lemma_bal_props(yk, bi);
            lemma_half_facts(bi);
            lemma_bal_digits_len(yk, bi, (delta - k) as nat);
            lemma_bal_digits_len((yk - bal(yk, bi)) / bi, bi, (delta - k - 1) as nat);
            lemma_bal_digits_len(y0, bi, delta as nat);
        }
        let rr: u32 = umod_i64(y, base);
        let d: i64 = if rr > b_half {
            rr as i64 - base as i64
        } else {
            rr as i64
        };
        proof {
            assert(d as int == bal(yk, bi));
        }
        let cd: u32 = umod_i64(d, q.q);
        proof {
            let ds_full = bal_digits(y0, bi, delta as nat);
            assert(ds_full.subrange(k as int, delta as int)[0] == ds_full[k as int]);
            assert(ds_full[k as int] == bal(yk, bi));
            assert(cd == digit_of(x, bi, qi, delta as nat, k as int));
        }
        out.push(cd);
        let t: i64 = y - d;
        let y_next: i64 = exact_div_i64(t, base);
        proof {
            let y2 = (yk - bal(yk, bi)) / bi;
            assert(y_next as int == y2);
            // magnitude can only stay within the slack band
            assert(yk - bal(yk, bi) == bi * y2) by {
                lemma_fundamental_div_mod(yk - bal(yk, bi), bi);
            }
            let qh = qi / 2;
            let h = bi / 2;
            if y2 > qh + bi {
                assert(false) by (nonlinear_arith)
                    requires
                        bi >= 2,
                        qh >= 1,
                        bi * y2 == yk - bal(yk, bi),
                        y2 >= qh + bi + 1,
                        yk <= qh + bi,
                        bal(yk, bi) >= 0 - bi,
                ;
            }
            if y2 < 0 - (qh + bi) {
                assert(false) by (nonlinear_arith)
                    requires
                        bi >= 2,
                        qh >= 1,
                        bi * y2 == yk - bal(yk, bi),
                        y2 <= 0 - (qh + bi) - 1,
                        yk >= 0 - (qh + bi),
                        bal(yk, bi) <= bi,
                ;
            }
            // the recorded tail shifts by one
            let ds_full = bal_digits(y0, bi, delta as nat);
            let tail_next = bal_digits(y2, bi, (delta - k - 1) as nat);
            assert(tail_all == seq![bal(yk, bi)] + tail_next);
            assert(ds_full.subrange(k as int + 1, delta as int) =~= tail_next) by {
                assert forall|i: int| 0 <= i < delta - k - 1 implies ds_full.subrange(
                    k as int + 1,
                    delta as int,
                )[i] == tail_next[i] by {
                    assert(ds_full.subrange(k as int, delta as int)[i + 1] == ds_full[k + 1 + i]);
                    assert(tail_all[i + 1] == tail_next[i]);
                }
            }
        }
        y = y_next;
        k = k + 1;
    }
    proof {
        assert(out@ =~= digit_seq(x, bi, qi, delta as nat));
    }
    out
}

/// Recompose canonical balanced digits: interpret each digit as its signed
/// representative and evaluate `sum_i d_i * base^i` mod `q` (Horner form).
pub fn recompose_coeff(digits: &Vec<u32>, base: u32, q: &ModQ) -> (r: u32)
    requires
        q.wf(),
        forall|i: int| 0 <= i < digits@.len() ==> digits@[i] < q.q,
    ensures
        r < q.q,
        r as int == canon_digit_sum(digits@, base as int, q.q as int) % (q.q as int),
{
    let ghost bi = base as int;
    let ghost qi = q.q as int;
    let bmod: u32 = base % q.q;
    let n = digits.len();
    let mut acc: u32 = 0;
    let mut i: usize = n;
    proof {
        assert(digits@.skip(n as int) =~= Seq::<u32>::empty());
        lemma_small_mod(0, qi as nat);
    }
    while i > 0
        invariant
            i <= n,
            n == digits@.len(),
            q.wf(),
            bi == base as int,
            qi == q.q as int,
            bmod == base % q.q,
            forall|j: int| 0 <= j < digits@.len() ==> digits@[j] < q.q,
            acc < q.q,
            acc as int == canon_digit_sum(digits@.skip(i as int), bi, qi) % qi,
        decreases i,
    {
        i = i - 1;
        let di: u32 = digits[i];
        let t: u32 = q.mul(acc, bmod);
        let acc_next: u32 = q.add(di, t);
        proof {
            let s_tail = canon_digit_sum(digits@.skip(i as int + 1), bi, qi);
            let s_here = canon_digit_sum(digits@.skip(i as int), bi, qi);
            assert(digits@.skip(i as int).drop_first() =~= digits@.skip(i as int + 1));
            assert(digits@.skip(i as int)[0] == digits@[i as int]);
            assert(s_here == signed_rep(di as int, qi) + bi * s_tail);
            // fold the modular reductions of base and of the tail sum
            assert(((s_tail % qi) * (bi % qi)) % qi == (s_tail * bi) % qi) by {
                lemma_mul_mod_noop_left(s_tail, bi % qi, qi);
                lemma_mul_mod_noop_right(s_tail, bi, qi);
            }
            assert(s_tail * bi == bi * s_tail) by (nonlinear_arith);
            assert((di as int + (bi * s_tail) % qi) % qi == (di as int + bi * s_tail) % qi) by {
                vstd::arithmetic::div_mod::lemma_add_mod_noop_right(di as int, bi * s_tail, qi);
            }
            // a digit and its signed representative agree mod q
            if di as int > qi / 2 {
                lemma_mod_sub_multiples_vanish(di as int + bi * s_tail, qi);
                assert(signed_rep(di as int, qi) + bi * s_tail == di as int + bi * s_tail - qi);
            }
            assert(acc_next as int == s_here % qi);
        }
        acc = acc_next;
    }
    proof {
        assert(digits@.skip(0) =~= digits@);
    }
    acc
}

/// Congruence: a canonicalized digit sequence recomposes, mod `q`, to the
/// integer value of the signed digits.
proof fn lemma_canon_sum_cong(ds: Seq<int>, cs: Seq<u32>, b: int, q: int)
    requires
        2 <= q <= 0xffff_ffff,
        cs.len() == ds.len(),
        forall|i: int| 0 <= i < ds.len() ==> cs[i] as int == #[trigger] ds[i] % q,
    ensures
        canon_digit_sum(cs, b, q) % q == digit_sum(ds, b) % q,
    decreases ds.len(),
{
    if ds.len() == 0 {
    } else {
        lemma_canon_sum_cong(ds.drop_first(), cs.drop_first(), b, q);
        let st = canon_digit_sum(cs.drop_first(), b, q);
        let dt = digit_sum(ds.drop_first(), b);
        lemma_mod_bound(ds[0], q);
        // head digits agree mod q
        assert(signed_rep(cs[0] as int, q) % q == ds[0] % q) by {
            if cs[0] as int > q / 2 {
                lemma_mod_sub_multiples_vanish(cs[0] as int, q);
                vstd::arithmetic::div_mod::lemma_mod_twice(ds[0], q);
            } else {
                vstd::arithmetic::div_mod::lemma_mod_twice(ds[0], q);
            }
        }
        // combine congruent heads and congruent tails
        assert((signed_rep(cs[0] as int, q) + b * st) % q == (ds[0] + b * dt) % q) by {
            lemma_add_mod_noop(signed_rep(cs[0] as int, q), b * st, q);
            lemma_add_mod_noop(ds[0], b * dt, q);
            assert((b * st) % q == (b * dt) % q) by {
                lemma_mul_mod_noop_right(b, st, q);
                lemma_mul_mod_noop_right(b, dt, q);
            }
        }
    }
}

/// Balanced decomposition followed by recomposition is the identity on
/// canonical residues, whenever `delta` digits cover the representative
/// range of `q` (always true for odd `b` with `b^delta >= q`; for even `b`
/// the most negative representatives need one digit of slack).
pub proof fn lemma_coeff_round_trip(x: u32, b: int, q: int, delta: nat)
    requires
        2 <= q <= 0xffff_ffff,
        b >= 2,
        (x as int) < q,
        covers(q, b, delta),
    ensures
        canon_digit_sum(digit_seq(x, b, q, delta), b, q) % q == x as int,
{
    let y0 = signed_rep(x as int, q);
    lemma_signed_rep_basic(x as int, q);
    lemma_digit_sum_round_trip(y0, b, delta);
    lemma_bal_digits_len(y0, b, delta);
    let ds = bal_digits(y0, b, delta);
    let cs = digit_seq(x, b, q, delta);
    assert(forall|i: int| 0 <= i < delta ==> cs[i] as int == #[trigger] ds[i] % q) by {
        assert forall|i: int| 0 <= i < delta implies cs[i] as int == #[trigger] ds[i] % q by {
            lemma_mod_bound(ds[i], q);
        }
    }
    lemma_canon_sum_cong(ds, cs, b, q);
    assert(digit_sum(ds, b) == y0);
    assert(y0 % q == x as int) by {
        lemma_signed_rep_basic(x as int, q);
    }
}

/// Digit polynomial `i` of a polynomial: coefficient `j` holds digit `i` of
/// coefficient `j` of `p`.
pub open spec fn decompose_poly_spec(p: Seq<u32>, b: int, q: int, delta: nat) -> Seq<Seq<u32>> {
    Seq::new(delta, |i: int| Seq::new(64, |j: int| digit_of(p[j], b, q, delta, i)))
}

/// Column `j` of a sequence of digit polynomials: the digits of coefficient
/// position `j`, low digit first.
pub open spec fn column(ds: Seq<Seq<u32>>, j: int) -> Seq<u32> {
    Seq::new(ds.len(), |i: int| ds[i][j])
}

/// Recompose a sequence of digit polynomials coefficient-wise.
pub open spec fn recompose_poly_spec(ds: Seq<Seq<u32>>, b: int, q: int) -> Seq<u32> {
    Seq::new(64, |j: int| (canon_digit_sum(column(ds, j), b, q) % q) as u32)
}

/// `G^{-1}_{b,n}` on a vector: the concatenation of the per-entry digit
/// decompositions, entry `e`'s digits occupying positions
/// `[e*delta, (e+1)*delta)`.
pub open spec fn g_inv_spec(v: Seq<Seq<u32>>, b: int, q: int, delta: nat) -> Seq<Seq<u32>> {
    Seq::new(
        v.len() * delta,
        |t: int|
            Seq::new(64, |j: int| digit_of(v[t / (delta as int)][j], b, q, delta, t % (delta as int))),
    )
}

/// `G_{b,n}`: recompose `n` consecutive chunks of `ds.len() / n` digit
/// polynomials each.
pub open spec fn g_fwd_spec(ds: Seq<Seq<u32>>, n: int, b: int, q: int) -> Seq<Seq<u32>> {
    let delta = ds.len() as int / n;
    Seq::new(n as nat, |e: int| recompose_poly_spec(ds.subrange(e * delta, (e + 1) * delta), b, q))
}

/// Decompose a polynomial into `delta` polynomials of balanced digits.
pub fn decompose_poly_balanced(p: &Poly, base: u32, delta: usize, q: &ModQ) -> (r: Vec<Poly>)
    requires
        q.wf(),
        base >= 2,
        poly_wf(p@, q.q as int),
        covers(q.q as int, base as int, delta as nat),
    ensures
        r@.len() == delta,
        crate::ring::polyvec_wf(crate::ring::vv(r@), q.q as int),
        crate::ring::vv(r@) == decompose_poly_spec(p@, base as int, q.q as int, delta as nat),
{
    let ghost bi = base as int;
    let ghost qi = q.q as int;
    let mut out: Vec<Poly> = Vec::new();
    let mut i: usize = 0;
    while i < delta
        invariant
            i <= delta,
            q.wf(),
            base >= 2,
            bi == base as int,
            qi == q.q as int,
            poly_wf(p@, qi),
            covers(qi, bi, delta as nat),
            out@.len() == i,
            forall|ii: int, j: int|
                0 <= ii < i && 0 <= j < 64 ==> (#[trigger] out@[ii]@[j]) < q.q && out@[ii]@[j]
                    == digit_of(p@[j], bi, qi, delta as nat, ii),
            forall|ii: int| 0 <= ii < i ==> (#[trigger] out@[ii]@).len() == 64,
        decreases delta - i,
    {
        let mut c: Vec<u32> = Vec::new();
        let mut j: usize = 0;
        while j < D
            invariant
                j <= 64,
                i < delta,
                q.wf(),
                base >= 2,
                bi == base as int,
                qi == q.q as int,
                poly_wf(p@, qi),
                covers(qi, bi, delta as nat),
                c@.len() == j,
                forall|jj: int|
                    0 <= jj < j ==> c@[jj] < q.q && c@[jj] == digit_of(
                        p@[jj],
                        bi,
                        qi,
                        delta as nat,
                        i as int,
                    ),
            decreases 64 - j,
        {
            let digs = decompose_coeff_balanced(p.c[j], base, delta, q);
            c.push(digs[i]);
            j = j + 1;
        }
        out.push(Poly { c });
        i = i + 1;
    }
    proof {
        assert(crate::ring::vv(out@) =~~= decompose_poly_spec(p@, bi, qi, delta as nat));
    }
    out
}

/// Recompose `delta` digit polynomials back into one polynomial.
pub fn recompose_poly(digits: &Vec<Poly>, base: u32, q: &ModQ) -> (r: Poly)
    requires
        q.wf(),
        crate::ring::polyvec_wf(crate::ring::vv(digits@), q.q as int),
    ensures
        poly_wf(r@, q.q as int),
        r@ == recompose_poly_spec(crate::ring::vv(digits@), base as int, q.q as int),
{
    let ghost bi = base as int;
    let ghost qi = q.q as int;
    let ghost dsv = crate::ring::vv(digits@);
    let delta = digits.len();
    let mut c: Vec<u32> = Vec::new();
    let mut j: usize = 0;
    while j < D
        invariant
            j <= 64,
            q.wf(),
            bi == base as int,
            qi == q.q as int,
            dsv == crate::ring::vv(digits@),
            crate::ring::polyvec_wf(dsv, qi),
            delta == digits@.len(),
            c@.len() == j,
            forall|jj: int|
                0 <= jj < j ==> c@[jj] < q.q && c@[jj] as int == canon_digit_sum(
                    column(dsv, jj),
                    bi,
                    qi,
                ) % qi,
        decreases 64 - j,
    {
        let mut col: Vec<u32> = Vec::new();
        let mut i: usize = 0;
        while i < delta
            invariant
                i <= delta,
                j < 64,
                q.wf(),
                qi == q.q as int,
                dsv == crate::ring::vv(digits@),
                crate::ring::polyvec_wf(dsv, qi),
                delta == digits@.len(),
                col@.len() == i,
                forall|ii: int| 0 <= ii < i ==> col@[ii] == dsv[ii][j as int] && col@[ii] < q.q,
            decreases delta - i,
        {
            proof {
                assert(dsv[i as int] == digits@[i as int]@);
            }
            col.push(digits[i].c[j]);
            i = i + 1;
        }
        proof {
            assert(col@ =~= column(dsv, j as int));
        }
        let v = recompose_coeff(&col, base, q);
        c.push(v);
        j = j + 1;
    }
    let r = Poly { c };
    proof {
        assert(r@ =~= recompose_poly_spec(dsv, bi, qi));
    }
    r
}

/// `G^{-1}_{b,n}` on a vector in `R_q^n`: concatenate the `delta` digit
/// polynomials of each coordinate.
pub fn g_inv_vec(vec: &Vec<Poly>, base: u32, q: &ModQ) -> (r: Vec<Poly>)
    requires
        q.wf(),
        base >= 2,
        crate::ring::polyvec_wf(crate::ring::vv(vec@), q.q as int),
        covers(q.q as int, base as int, digits_spec(q.q as int, base as int)),
    ensures
        r@.len() == vec@.len() * digits_spec(q.q as int, base as int),
        crate::ring::polyvec_wf(crate::ring::vv(r@), q.q as int),
        crate::ring::vv(r@) == g_inv_spec(
            crate::ring::vv(vec@),
            base as int,
            q.q as int,
            digits_spec(q.q as int, base as int),
        ),
{
    let ghost bi = base as int;
    let ghost qi = q.q as int;
    let ghost vs = crate::ring::vv(vec@);
    let delta = digits_for(q, base);
    let ghost dn = delta as nat;
    let ghost model = g_inv_spec(vs, bi, qi, dn);
    let mut out: Vec<Poly> = Vec::new();
    let mut e: usize = 0;
    while e < vec.len()
        invariant
            e <= vec@.len(),
            q.wf(),
            base >= 2,
            bi == base as int,
            qi == q.q as int,
            vs == crate::ring::vv(vec@),
            crate::ring::polyvec_wf(vs, qi),
            delta as nat == dn,
            dn == digits_spec(qi, bi),
            covers(qi, bi, dn),
            model == g_inv_spec(vs, bi, qi, dn),
            model.len() == vs.len() * dn,
            out@.len() == e * delta,
            e * delta <= vs.len() * dn,
            forall|t: int|
                0 <= t < e * delta ==> (#[trigger] out@[t]@) == model[t] && poly_wf(out@[t]@, qi),
        decreases vec@.len() - e,
    {
        proof {
            assert(vs[e as int] == vec@[e as int]@);
            assert((e + 1) * delta <= vs.len() * dn && e * delta + delta == (e + 1) * delta)
                by (nonlinear_arith)
                requires
                    e < vs.len(),
                    delta as int == dn,
                    dn >= 0,
            ;
        }
        let ds = decompose_poly_balanced(&vec[e], base, delta, q);
        let ghost dsv = crate::ring::vv(ds@);
        let mut i: usize = 0;
        while i < delta
            invariant
                i <= delta,
                e < vec@.len(),
                q.wf(),
                base >= 2,
                bi == base as int,
                qi == q.q as int,
                vs == crate::ring::vv(vec@),
                crate::ring::polyvec_wf(vs, qi),
                delta as nat == dn,
                dn == digits_spec(qi, bi),
                model == g_inv_spec(vs, bi, qi, dn),
                model.len() == vs.len() * dn,
                (e + 1) * delta <= vs.len() * dn,
                e * delta + delta == (e + 1) * delta,
                dsv == crate::ring::vv(ds@),
                dsv == decompose_poly_spec(vs[e as int], bi, qi, dn),
                crate::ring::polyvec_wf(dsv, qi),
                ds@.len() == delta,
                out@.len() == e * delta + i,
                forall|t: int|
                    0 <= t < e * delta + i ==> (#[trigger] out@[t]@) == model[t] && poly_wf(
                        out@[t]@,
                        qi,
                    ),
            decreases delta - i,
        {
            proof {
                let t = e * delta + i;
                lemma_fundamental_div_mod_converse_mod(t as int, delta as int, e as int, i as int);
                vstd::arithmetic::div_mod::lemma_fundamental_div_mod_converse_div(
                    t as int,
                    delta as int,
                    e as int,
                    i as int,
                );
                assert(t < vs.len() * dn) by (nonlinear_arith)
                    requires
                        t == e * delta + i,
                        0 <= i < delta,
                        delta as int == dn,
                        0 <= e < vs.len(),
                ;
                assert(model[t as int] =~= dsv[i as int]);
                assert(crate::ring::vv(ds@)[i as int] == ds@[i as int]@);
            }
            out.push(ds[i].clone());
            i = i + 1;
        }
        e = e + 1;
    }
    proof {
        assert(crate::ring::vv(out@) =~~= model);
    }
    out
}

/// `G_{b,n}` on `n * delta` digit polynomials: recompose each consecutive
/// chunk of `delta` digit polynomials into one ring element.
pub fn g_fwd_vec(digits: &Vec<Poly>, n: usize, base: u32, q: &ModQ) -> (r: Vec<Poly>)
    requires
        q.wf(),
        n >= 1,
        crate::ring::polyvec_wf(crate::ring::vv(digits@), q.q as int),
    ensures
        r@.len() == n,
        crate::ring::polyvec_wf(crate::ring::vv(r@), q.q as int),
        crate::ring::vv(r@) == g_fwd_spec(crate::ring::vv(digits@), n as int, base as int, q.q as int),
{
    let ghost bi = base as int;
    let ghost qi = q.q as int;
    let ghost dsv = crate::ring::vv(digits@);
    let delta = digits.len() / n;
    proof {
        lemma_fundamental_div_mod(digits@.len() as int, n as int);
        lemma_mod_bound(digits@.len() as int, n as int);
        assert(n as int * (delta as int) <= digits@.len() as int) by (nonlinear_arith)
            requires
                digits@.len() as int == n as int * (delta as int) + digits@.len() as int % (
                n as int),
                digits@.len() as int % (n as int) >= 0,
        ;
    }
    let dlen: usize = digits.len();
    let mut out: Vec<Poly> = Vec::new();
    let mut e: usize = 0;
    while e < n
        invariant
            e <= n,
            n >= 1,
            q.wf(),
            bi == base as int,
            qi == q.q as int,
            dsv == crate::ring::vv(digits@),
            dsv.len() == digits@.len(),
            dlen == digits@.len(),
            crate::ring::polyvec_wf(dsv, qi),
            delta == dsv.len() as int / n as int,
            n * delta <= dsv.len(),
            out@.len() == e,
            forall|ee: int|
                0 <= ee < e ==> (#[trigger] out@[ee]@) == recompose_poly_spec(
                    dsv.subrange(ee * (delta as int), (ee + 1) * (delta as int)),
                    bi,
                    qi,
                ) && poly_wf(out@[ee]@, qi),
        decreases n - e,
    {
        proof {
            assert((e + 1) * delta <= n * delta && e * delta <= (e + 1) * delta && 0 <= e * delta
                && (e + 1) * delta - e * delta == delta) by (nonlinear_arith)
                requires
                    0 <= e < n,
                    delta >= 0,
            ;
        }
        let mut chunk: Vec<Poly> = Vec::new();
        let mut i: usize = 0;
        while i < delta
            invariant
                i <= delta,
                0 <= e < n,
                (e + 1) * delta <= dsv.len(),
                0 <= e * delta,
                e * delta + delta == (e + 1) * delta,
                e * delta + i <= dsv.len(),
                q.wf(),
                qi == q.q as int,
                dsv == crate::ring::vv(digits@),
                dsv.len() == digits@.len(),
                dlen == digits@.len(),
                crate::ring::polyvec_wf(dsv, qi),
                chunk@.len() == i,
                forall|ii: int|
                    0 <= ii < i ==> (#[trigger] chunk@[ii]@) == dsv[e * (delta as int) + ii],
            decreases delta - i,
        {
            proof {
                assert(e * delta + i < (e + 1) * delta) by (nonlinear_arith)
                    requires
                        i < delta,
                ;
            }
            chunk.push(digits[e * delta + i].clone());
            i = i + 1;
        }
        proof {
            let sub = dsv.subrange(e * (delta as int), (e + 1) * (delta as int));
            assert(sub.len() == delta);
            assert forall|ii: int| 0 <= ii < delta implies crate::ring::vv(chunk@)[ii] == sub[ii] by {
                assert(crate::ring::vv(chunk@)[ii] == chunk@[ii]@);
                assert(sub[ii] == dsv[e * (delta as int) + ii]);
            }
            assert(crate::ring::vv(chunk@) =~= sub);
        }
        let p = recompose_poly(&chunk, base, q);
        out.push(p);
        e = e + 1;
    }
    proof {
        assert(crate::ring::vv(out@) =~~= g_fwd_spec(dsv, n as int, bi, qi));
    }
    out
}

/// `G_{b,n}` undoes `G^{-1}_{b,n}`: recomposing the concatenated balanced
/// digit decomposition of a well-formed polynomial vector returns the vector.
pub proof fn lemma_g_round_trip(v: Seq<Seq<u32>>, b: int, q: int, delta: nat)
    requires
        2 <= q <= 0xffff_ffff,
        b >= 2,
        delta >= 1,
        covers(q, b, delta),
        crate::ring::polyvec_wf(v, q),
    ensures
        g_fwd_spec(g_inv_spec(v, b, q, delta), v.len() as int, b, q) == v,
    decreases v.len(),
{
    let ds = g_inv_spec(v, b, q, delta);
    let n = v.len() as int;
    assert(ds.len() == n * delta);
    if n > 0 {
        assert(ds.len() as int / n == delta as int) by {
            lemma_div_multiples_vanish(delta as int, n);
            assert(n * (delta as int) == (delta as int) * n) by (nonlinear_arith);
        }
        let out = g_fwd_spec(ds, n, b, q);
        assert forall|e: int| 0 <= e < n implies out[e] == v[e] by {
            assert((e + 1) * (delta as int) <= n * (delta as int) && 0 <= e * (delta as int))
                by (nonlinear_arith)
                requires
                    0 <= e < n,
                    delta as int >= 0,
            ;
            let chunk = ds.subrange(e * (delta as int), (e + 1) * (delta as int));
            assert(chunk.len() == delta) by {
                assert((e + 1) * (delta as int) - e * (delta as int) == delta as int)
                    by (nonlinear_arith);
                assert((e + 1) * (delta as int) <= n * (delta as int)) by (nonlinear_arith)
                    requires
                        e < n,
                        delta as int >= 0,
                ;
            }
            assert forall|j: int| 0 <= j < 64 implies out[e][j] == v[e][j] by {
                let col = column(chunk, j);
                assert(col =~= digit_seq(v[e][j], b, q, delta)) by {
                    assert forall|i: int| 0 <= i < delta implies col[i] == digit_seq(
                        v[e][j],
                        b,
                        q,
                        delta,
                    )[i] by {
                        let t = e * (delta as int) + i;
                        assert((e + 1) * (delta as int) <= n * (delta as int) && 0 <= e * (
                        delta as int) && (e + 1) * (delta as int) - e * (delta as int) == delta
                            as int) by (nonlinear_arith)
                            requires
                                0 <= e < n,
                                delta as int >= 0,
                        ;
                        assert(chunk[i] == ds[t]);
                        assert(0 <= t < n * (delta as int)) by (nonlinear_arith)
                            requires
                                0 <= e < n,
                                0 <= i < delta as int,
                                t == e * (delta as int) + i,
                        ;
                        lemma_fundamental_div_mod_converse_mod(t, delta as int, e, i);
                        vstd::arithmetic::div_mod::lemma_fundamental_div_mod_converse_div(
                            t,
                            delta as int,
                            e,
                            i,
                        );
                        assert(ds[t][j] == digit_of(v[e][j], b, q, delta, i));
                    }
                }
                assert(poly_wf(v[e], q));
                lemma_coeff_round_trip(v[e][j], b, q, delta);
                assert(out[e][j] == (canon_digit_sum(col, b, q) % q) as u32);
            }
            assert(out[e] =~= v[e]);
        }
        assert(g_fwd_spec(ds, n, b, q) =~~= v);
    } else {
        assert(g_fwd_spec(ds, n, b, q) =~~= v);
    }
}

/// Every digit of the balanced decomposition, read back as a signed
/// representative mod `q`, is the balanced digit itself: magnitude at most
/// `floor(b/2)`. Needs the digits to fit the representative range of `q`.
pub proof fn lemma_digit_bound(x: u32, b: int, q: int, delta: nat, i: int)
    requires
        2 <= q <= 0xffff_ffff,
        b >= 2,
        (x as int) < q,
        covers(q, b, delta),
        rep_min(q) <= bal_min(b) && bal_max(b) <= rep_max(q),
        0 <= i < delta,
    ensures
        signed_rep(digit_seq(x, b, q, delta)[i] as int, q) == bal_digits(
            signed_rep(x as int, q),
            b,
            delta,
        )[i],
        bal_min(b) <= signed_rep(digit_seq(x, b, q, delta)[i] as int, q) <= bal_max(b),
{
    let y0 = signed_rep(x as int, q);
    lemma_signed_rep_basic(x as int, q);
    lemma_digit_sum_round_trip(y0, b, delta);
    lemma_bal_digits_len(y0, b, delta);
    let d = bal_digits(y0, b, delta)[i];
    lemma_canon_signed_roundtrip(d, q);
}


/// For a 32-bit modulus, no base needs more than 32 digits.
pub proof fn lemma_digits_rec_bound(q: int, b: int, p: int, k: nat)
    requires
        2 <= q <= 0x1_0000_0000,
        b >= 2,
        p >= vstd::arithmetic::power2::pow2(k),
        p >= 1,
        k <= 32,
    ensures
        digits_rec(q, b, p) + k <= 32,
    decreases 32 - k,
{
    vstd::arithmetic::power2::lemma2_to64();
    if p >= q {
    } else {
        if k == 32 {
            assert(false);
        } else {
            vstd::arithmetic::power2::lemma_pow2_unfold((k + 1) as nat);
            assert(p * b >= p * 2 && p * 2 >= p + p) by (nonlinear_arith)
                requires
                    p >= 1,
                    b >= 2,
            ;
            lemma_digits_rec_bound(q, b, p * b, (k + 1) as nat);
        }
    }
}

/// `digits_spec` of a 32-bit modulus is at most 32.
pub proof fn lemma_digits_spec_bound(q: int, b: int)
    requires
        2 <= q <= 0x1_0000_0000,
        b >= 2,
    ensures
        digits_spec(q, b) <= 32,
{
    vstd::arithmetic::power2::lemma2_to64();
    lemma_digits_rec_bound(q, b, 1, 0);
}


/// Every entry of a gadget decomposition is canonical.
pub proof fn lemma_g_inv_spec_wf(v: Seq<Seq<u32>>, b: int, q: int, delta: nat)
    requires
        1 <= q <= 0xffff_ffff,
    ensures
        g_inv_spec(v, b, q, delta).len() == v.len() * delta,
        crate::ring::polyvec_wf(g_inv_spec(v, b, q, delta), q),
{
    let g = g_inv_spec(v, b, q, delta);
    assert forall|i: int| 0 <= i < g.len() implies crate::ring::poly_wf(#[trigger] g[i], q) by {
        assert forall|j: int| 0 <= j < 64 implies (g[i][j] as int) < q by {
            lemma_mod_bound(
                bal_digits(
                    signed_rep(v[i / (delta as int)][j] as int, q),
                    b,
                    delta,
                )[i % (delta as int)],
                q,
            );
        }
    }
}

} // verus!

use vstd::prelude::*;

verus! {

/// The representable band grows with the digit count.
proof fn lemma_rng_monotone(b: int, k: nat)
    requires
        b >= 2,
    ensures
        0 <= rng_hi(b, k) <= rng_hi(b, (k + 1) as nat),
        rng_lo(b, (k + 1) as nat) <= rng_lo(b, k) <= 0,
    decreases k,
{
    lemma_half_facts(b);
    if k == 0 {
    } else {
        lemma_rng_monotone(b, (k - 1) as nat);
    }
    let h = rng_hi(b, k);
    let l = rng_lo(b, k);
    assert(b * h >= h && b * h + bal_max(b) >= 0) by (nonlinear_arith)
        requires
            b >= 2,
            h >= 0,
            bal_max(b) >= 1,
    ;
    assert(b * l <= l && b * l + bal_min(b) <= 0) by (nonlinear_arith)
        requires
            b >= 2,
            l <= 0,
            bal_min(b) <= 0,
    ;
}

/// Decide whether `delta = digits_for(q, base)` balanced digits cover every
/// signed representative mod `q`: always for odd bases; for even bases the
/// most negative representatives can fall outside the band.
pub fn base_covers(q: &ModQ, base: u32) -> (r: bool)
    requires
        q.wf(),
        base >= 2,
    ensures
        r == covers(q.q as int, base as int, digits_spec(q.q as int, base as int)),
{
    let ghost qi = q.q as int;
    let ghost bi = base as int;
    let delta = digits_for(q, base);
    let rep_hi: i128 = (q.q / 2) as i128;
    let rep_lo: i128 = rep_hi + 1 - q.q as i128;
    let b_half: i128 = (base / 2) as i128;
    let b_min: i128 = if base % 2 == 0 {
        1 - b_half
    } else {
        -b_half
    };
    proof {
        lemma_fundamental_div_mod(bi, 2);
        lemma_mod_bound(bi, 2);
        assert(b_min == bal_min(bi));
        assert(rep_hi == rep_max(qi));
        assert(rep_lo == rep_min(qi));
    }
    let mut hi: i128 = 0;
    let mut lo: i128 = 0;
    let mut hi_done: bool = rep_hi <= 0;
    let mut lo_done: bool = rep_lo >= 0;
    let mut k: usize = 0;
    while k < delta
        invariant
            k <= delta,
            q.wf(),
            base >= 2,
            qi == q.q as int,
            bi == base as int,
            delta as nat == digits_spec(qi, bi),
            rep_hi == rep_max(qi),
            rep_lo == rep_min(qi),
            0 <= rep_hi <= 0x8000_0000,
            -0x1_0000_0000 <= rep_lo <= 0,
            b_half == bal_max(bi),
            b_min == bal_min(bi),
            hi_done ==> rep_max(qi) <= rng_hi(bi, k as nat),
            !hi_done ==> hi == rng_hi(bi, k as nat) && 0 <= hi < rep_hi,
            lo_done ==> rng_lo(bi, k as nat) <= rep_min(qi),
            !lo_done ==> lo == rng_lo(bi, k as nat) && rep_lo < lo <= 0,
        decreases delta - k,
    {
        proof {
            lemma_rng_monotone(bi, k as nat);
            lemma_half_facts(bi);
            if !hi_done {
                let h = hi as int;
                assert(0 <= bi * h && bi * h + bal_max(bi) <= 0x1_0000_0000 * (h + 1))
                    by (nonlinear_arith)
                    requires
                        2 <= bi <= 0x1_0000_0000,
                        0 <= h,
                        1 <= bal_max(bi) < bi,
                ;
                assert(0x1_0000_0000 * (h + 1) <= 0x1_0000_0000 * 0x8000_0000)
                    by (nonlinear_arith)
                    requires
                        h + 1 <= 0x8000_0000,
                ;
            }
            if !lo_done {
                let l = lo as int;
                assert(bi * l + bal_min(bi) > 0x1_0000_0000 * (l - 1) && bi * l <= 0)
                    by (nonlinear_arith)
                    requires
                        2 <= bi <= 0x1_0000_0000,
                        l <= 0,
                        0 >= bal_min(bi),
                        bal_min(bi) > 0 - bi,
                ;
                assert(0x1_0000_0000 * (l - 1) >= 0x1_0000_0000 * (-0x1_0000_0001))
                    by (nonlinear_arith)
                    requires
                        l - 1 >= -0x1_0000_0001,
                ;
            }
        }
        if !hi_done {
            hi = base as i128 * hi + b_half;
            if hi >= rep_hi {
                hi_done = true;
            }
        }
        if !lo_done {
            lo = base as i128 * lo + b_min;
            if lo <= rep_lo {
                lo_done = true;
            }
        }
        k = k + 1;
    }
    hi_done && lo_done
}

} // verus!
