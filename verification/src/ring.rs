//! The ring `R_q = Z_q[X]/(X^D + 1)` with `D = 64`: dense polynomials with
//! canonical coefficients in `[0, q)`, coefficient-wise addition and
//! subtraction, negacyclic (wrap-and-negate) multiplication, and the Galois
//! involution `X -> X^{-1}`.

use vstd::prelude::*;

verus! {

use vstd::arithmetic::div_mod::lemma_add_mod_noop;
use vstd::arithmetic::div_mod::lemma_sub_mod_noop;
use vstd::arithmetic::div_mod::lemma_mod_bound;
use vstd::arithmetic::div_mod::lemma_small_mod;
use vstd::arithmetic::div_mod::lemma_mod_sub_multiples_vanish;

/// Ring dimension: polynomials have exactly `D` coefficients.
pub const D: usize = 64;

/// `(a + b) mod q`, canonical in `[0, q)` for `q > 0`.
pub open spec fn addq(a: int, b: int, q: int) -> int {
    (a + b) % q
}

/// `(a - b) mod q`, canonical in `[0, q)` for `q > 0`.
pub open spec fn subq(a: int, b: int, q: int) -> int {
    (a - b) % q
}

/// `(-a) mod q`, canonical in `[0, q)` for `q > 0`.
pub open spec fn negq(a: int, q: int) -> int {
    (0 - a) % q
}

/// `(a * b) mod q`, canonical in `[0, q)` for `q > 0`.
pub open spec fn mulq(a: int, b: int, q: int) -> int {
    (a * b) % q
}

/// Modulus wrapper: the caller supplies a 32-bit modulus `q >= 2`.
#[derive(Clone, Copy, Debug)]
pub struct ModQ {
    pub q: u32,
}

impl ModQ {
    /// A usable modulus: at least 2, so that `0` and `1` are distinct residues.
    pub open spec fn wf(self) -> bool {
        self.q >= 2
    }

    pub fn new(q: u32) -> (r: Self)
        ensures
            r.q == q,
    {
        Self { q }
    }

    pub fn add(&self, a: u32, b: u32) -> (r: u32)
        requires
            self.wf(),
            a < self.q,
            b < self.q,
        ensures
            r < self.q,
            r as int == addq(a as int, b as int, self.q as int),
    {
        let q64: u64 = self.q as u64;
        let x: u64 = a as u64 + b as u64;
        let y: u64 = if x >= q64 { x - q64 } else { x };
        proof {
            let qi = self.q as int;
            if a + b >= qi {
                lemma_mod_sub_multiples_vanish(a + b, qi);
                lemma_small_mod((a + b - qi) as nat, qi as nat);
            } else {
                lemma_small_mod((a + b) as nat, qi as nat);
            }
        }
        y as u32
    }

    pub fn sub(&self, a: u32, b: u32) -> (r: u32)
        requires
            self.wf(),
            a < self.q,
            b < self.q,
        ensures
            r < self.q,
            r as int == subq(a as int, b as int, self.q as int),
    {
        let q64: u64 = self.q as u64;
        let x: u64 = a as u64 + q64 - b as u64;
        let y: u64 = if x >= q64 { x - q64 } else { x };
        proof {
            let qi = self.q as int;
            if a - b >= 0 {
                lemma_mod_sub_multiples_vanish(a - b + qi, qi);
                lemma_small_mod((a - b) as nat, qi as nat);
            } else {
                lemma_small_mod((a - b + qi) as nat, qi as nat);
            }
            assert((a - b + qi) % qi == (a - b) % qi) by {
                lemma_mod_sub_multiples_vanish(a - b + qi, qi);
            }
        }
        y as u32
    }

    pub fn neg(&self, a: u32) -> (r: u32)
        requires
            self.wf(),
            a < self.q,
        ensures
            r < self.q,
            r as int == negq(a as int, self.q as int),
    {
        let r: u32 = if a == 0 { 0 } else { self.q - a };
        proof {
            let qi = self.q as int;
            if a == 0 {
                lemma_small_mod(0, qi as nat);
            } else {
                lemma_mod_sub_multiples_vanish(0 - a + qi, qi);
                lemma_small_mod((qi - a) as nat, qi as nat);
            }
        }
        r
    }

    pub fn mul(&self, a: u32, b: u32) -> (r: u32)
        requires
            self.wf(),
        ensures
            r < self.q,
            r as int == mulq(a as int, b as int, self.q as int),
    {
        proof {
            assert((a as int) * (b as int) <= 0xffff_ffff * 0xffff_ffff) by (nonlinear_arith)
                requires
                    a <= 0xffff_ffffu32,
                    b <= 0xffff_ffffu32,
            ;
            lemma_mod_bound((a as int) * (b as int), self.q as int);
        }
        let x: u64 = (a as u64) * (b as u64) % (self.q as u64);
        x as u32
    }
}

/// Dense polynomial: exactly `D` coefficients, index `i` holding the
/// coefficient of `X^i`.
#[derive(Debug)]
pub struct Poly {
    pub c: Vec<u32>,
}

impl Clone for Poly {
    fn clone(&self) -> (r: Self)
        ensures
            r@ == self@,
    {
        let n = self.c.len();
        let mut c: Vec<u32> = Vec::new();
        let mut i: usize = 0;
        while i < n
            invariant
                i <= n,
                n == self@.len(),
                c@.len() == i,
                forall|j: int| 0 <= j < i ==> c@[j] == self@[j],
            decreases n - i,
        {
            c.push(self.c[i]);
            i = i + 1;
        }
        let r = Self { c };
        proof {
            assert(r@ =~= self@);
        }
        r
    }
}

impl View for Poly {
    type V = Seq<u32>;

    open spec fn view(&self) -> Seq<u32> {
        self.c@
    }
}

/// Every coefficient canonical in `[0, q)` and exactly `D` of them.
pub open spec fn poly_wf(s: Seq<u32>, q: int) -> bool {
    s.len() == 64 && forall|i: int| 0 <= i < 64 ==> (s[i] as int) < q
}

/// The all-zero polynomial.
pub open spec fn poly_zero() -> Seq<u32> {
    Seq::new(64, |i: int| 0u32)
}

pub open spec fn poly_add_spec(a: Seq<u32>, b: Seq<u32>, q: int) -> Seq<u32> {
    Seq::new(64, |i: int| addq(a[i] as int, b[i] as int, q) as u32)
}

pub open spec fn poly_sub_spec(a: Seq<u32>, b: Seq<u32>, q: int) -> Seq<u32> {
    Seq::new(64, |i: int| subq(a[i] as int, b[i] as int, q) as u32)
}

pub open spec fn poly_neg_spec(a: Seq<u32>, q: int) -> Seq<u32> {
    Seq::new(64, |i: int| negq(a[i] as int, q) as u32)
}

/// Partial sum `sum_{t in [0, j)} a[t] * b[k - t]` of the products that land
/// on `X^k` directly (`t <= k`); used with `j = k + 1`.
pub open spec fn conv_pos(a: Seq<u32>, b: Seq<u32>, k: int, j: int) -> int
    decreases j,
{
    if j <= 0 {
        0
    } else {
        conv_pos(a, b, k, j - 1) + (a[j - 1] as int) * (b[k - (j - 1)] as int)
    }
}

/// Partial sum `sum_{t in [k+1, j)} a[t] * b[k + 64 - t]` of the products that
/// wrap past `X^64` onto `X^k` with a sign flip; used with `j = 64`.
pub open spec fn conv_neg(a: Seq<u32>, b: Seq<u32>, k: int, j: int) -> int
    decreases j - k,
{
    if j <= k + 1 {
        0
    } else {
        conv_neg(a, b, k, j - 1) + (a[j - 1] as int) * (b[k + 64 - (j - 1)] as int)
    }
}

/// Coefficient `k` of the product in `Z_q[X]/(X^64 + 1)`.
pub open spec fn mul_coeff(a: Seq<u32>, b: Seq<u32>, k: int, q: int) -> int {
    (conv_pos(a, b, k, k + 1) - conv_neg(a, b, k, 64)) % q
}

pub open spec fn poly_mul_spec(a: Seq<u32>, b: Seq<u32>, q: int) -> Seq<u32> {
    Seq::new(64, |k: int| mul_coeff(a, b, k, q) as u32)
}

/// `sigma^{-1}` (the involution `X -> X^{-1}`): constant term kept, and the
/// coefficient of `X^i` (for `i >= 1`) moved, negated, to `X^{64 - i}`.
pub open spec fn sigma_inv_spec(a: Seq<u32>, q: int) -> Seq<u32> {
    Seq::new(64, |j: int| if j == 0 { a[0] } else { negq(a[64 - j] as int, q) as u32 })
}

/// `a % q` for canonical `a` is `a` itself; helper fact used throughout.
proof fn lemma_canonical_mod(a: int, q: int)
    requires
        0 <= a < q,
    ensures
        a % q == a,
{
    lemma_small_mod(a as nat, q as nat);
}

/// Negation is an involution on canonical residues.
proof fn lemma_negq_involutive(a: int, q: int)
    requires
        q >= 1,
        0 <= a < q,
    ensures
        0 <= negq(a, q) < q,
        negq(negq(a, q), q) == a,
{
    if a == 0 {
        lemma_canonical_mod(0, q);
    } else {
        lemma_mod_sub_multiples_vanish(0 - a + q, q);
        lemma_canonical_mod(q - a, q);
        assert(negq(a, q) == q - a);
        lemma_mod_sub_multiples_vanish(0 - (q - a) + q, q);
        lemma_canonical_mod(a, q);
    }
}

impl Poly {
    pub fn zero() -> (r: Self)
        ensures
            r@ == poly_zero(),
            forall|q: int| q >= 1 ==> poly_wf(r@, q),
    {
        let mut c: Vec<u32> = Vec::new();
        let mut i: usize = 0;
        while i < D
            invariant
                i <= 64,
                c@.len() == i,
                forall|j: int| 0 <= j < i ==> c@[j] == 0u32,
            decreases 64 - i,
        {
            c.push(0);
            i = i + 1;
        }
        let r = Self { c };
        proof {
            assert(r@ =~= poly_zero());
        }
        r
    }

    /// Normalize arbitrary coefficients into `[0, q)`.
    pub fn from_coeffs(coeffs: [u32; D], q: &ModQ) -> (r: Self)
        requires
            q.wf(),
        ensures
            poly_wf(r@, q.q as int),
            forall|i: int| 0 <= i < 64 ==> r@[i] as int == (coeffs@[i] as int) % (q.q as int),
    {
        let mut c: Vec<u32> = Vec::new();
        let mut i: usize = 0;
        while i < D
            invariant
                i <= 64,
                q.wf(),
                c@.len() == i,
                forall|j: int| 0 <= j < i ==> c@[j] < q.q && c@[j] as int == (coeffs@[j] as int)
                    % (q.q as int),
            decreases 64 - i,
        {
            let v: u32 = coeffs[i] % q.q;
            c.push(v);
            i = i + 1;
        }
        Self { c }
    }

    /// The monomial `(a mod q) * X^k`.
    pub fn monomial(k: usize, a: u32, q: &ModQ) -> (r: Self)
        requires
            q.wf(),
            k < D,
        ensures
            poly_wf(r@, q.q as int),
            r@[k as int] as int == (a as int) % (q.q as int),
            forall|i: int| 0 <= i < 64 && i != k ==> r@[i] == 0u32,
    {
        let mut c: Vec<u32> = Vec::new();
        let v: u32 = a % q.q;
        let mut i: usize = 0;
        while i < D
            invariant
                i <= 64,
                k < 64,
                v < q.q,
                v as int == (a as int) % (q.q as int),
                q.wf(),
                c@.len() == i,
                forall|j: int| 0 <= j < i ==> c@[j] == (if j == k { v } else { 0u32 }),
            decreases 64 - i,
        {
            if i == k {
                c.push(v);
            } else {
                c.push(0);
            }
            i = i + 1;
        }
        Self { c }
    }

    /// Constant term.
    pub fn ct(&self) -> (r: u32)
        requires
            self@.len() == 64,
        ensures
            r == self@[0],
    {
        self.c[0]
    }

    pub fn add(&self, other: &Self, q: &ModQ) -> (r: Self)
        requires
            q.wf(),
            poly_wf(self@, q.q as int),
            poly_wf(other@, q.q as int),
        ensures
            poly_wf(r@, q.q as int),
            r@ == poly_add_spec(self@, other@, q.q as int),
    {
        let mut c: Vec<u32> = Vec::new();
        let mut i: usize = 0;
        while i < D
            invariant
                i <= 64,
                q.wf(),
                poly_wf(self@, q.q as int),
                poly_wf(other@, q.q as int),
                c@.len() == i,
                forall|j: int| 0 <= j < i ==> c@[j] < q.q && c@[j] as int == addq(
                    self@[j] as int,
                    other@[j] as int,
                    q.q as int,
                ),
            decreases 64 - i,
        {
            c.push(q.add(self.c[i], other.c[i]));
            i = i + 1;
        }
        let r = Self { c };
        proof {
            assert(r@ =~= poly_add_spec(self@, other@, q.q as int));
        }
        r
    }

    pub fn sub(&self, other: &Self, q: &ModQ) -> (r: Self)
        requires
            q.wf(),
            poly_wf(self@, q.q as int),
            poly_wf(other@, q.q as int),
        ensures
            poly_wf(r@, q.q as int),
            r@ == poly_sub_spec(self@, other@, q.q as int),
    {
        let mut c: Vec<u32> = Vec::new();
        let mut i: usize = 0;
        while i < D
            invariant
                i <= 64,
                q.wf(),
                poly_wf(self@, q.q as int),
                poly_wf(other@, q.q as int),
                c@.len() == i,
                forall|j: int| 0 <= j < i ==> c@[j] < q.q && c@[j] as int == subq(
                    self@[j] as int,
                    other@[j] as int,
                    q.q as int,
                ),
            decreases 64 - i,
        {
            c.push(q.sub(self.c[i], other.c[i]));
            i = i + 1;
        }
        let r = Self { c };
        proof {
            assert(r@ =~= poly_sub_spec(self@, other@, q.q as int));
        }
        r
    }

    pub fn neg(&self, q: &ModQ) -> (r: Self)
        requires
            q.wf(),
            poly_wf(self@, q.q as int),
        ensures
            poly_wf(r@, q.q as int),
            r@ == poly_neg_spec(self@, q.q as int),
    {
        let mut c: Vec<u32> = Vec::new();
        let mut i: usize = 0;
        while i < D
            invariant
                i <= 64,
                q.wf(),
                poly_wf(self@, q.q as int),
                c@.len() == i,
                forall|j: int| 0 <= j < i ==> c@[j] < q.q && c@[j] as int == negq(
                    self@[j] as int,
                    q.q as int,
                ),
            decreases 64 - i,
        {
            c.push(q.neg(self.c[i]));
            i = i + 1;
        }
        let r = Self { c };
        proof {
            assert(r@ =~= poly_neg_spec(self@, q.q as int));
        }
        r
    }

    /// Multiply in `R_q = Z_q[X]/(X^64 + 1)`: schoolbook convolution where a
    /// product landing on `X^{k}` with `k >= 64` wraps to `X^{k-64}` negated.
    pub fn mul(&self, other: &Self, q: &ModQ) -> (r: Self)
        requires
            q.wf(),
            poly_wf(self@, q.q as int),
            poly_wf(other@, q.q as int),
        ensures
            poly_wf(r@, q.q as int),
            r@ == poly_mul_spec(self@, other@, q.q as int),
    {
        let qi = Ghost(q.q as int);
        let mut c: Vec<u32> = Vec::new();
        let mut k: usize = 0;
        while k < D
            invariant
                k <= 64,
                q.wf(),
                poly_wf(self@, qi@),
                poly_wf(other@, qi@),
                qi@ == q.q as int,
                c@.len() == k,
                forall|j: int| 0 <= j < k ==> c@[j] < q.q && c@[j] as int == mul_coeff(
                    self@,
                    other@,
                    j,
                    qi@,
                ),
            decreases 64 - k,
        {
            // the direct products a[t] * b[k-t], t in [0, k]
            let mut accp: u32 = 0;
            let mut t: usize = 0;
            proof {
                lemma_canonical_mod(0, qi@);
            }
            while t < k + 1
                invariant
                    t <= k + 1,
                    k < 64,
                    q.wf(),
                    poly_wf(self@, qi@),
                    poly_wf(other@, qi@),
                    qi@ == q.q as int,
                    accp < q.q,
                    accp as int == conv_pos(self@, other@, k as int, t as int) % qi@,
                decreases k + 1 - t,
            {
                let p: u32 = q.mul(self.c[t], other.c[k - t]);
                proof {
                    lemma_add_mod_noop(
                        conv_pos(self@, other@, k as int, t as int),
                        (self@[t as int] as int) * (other@[(k - t) as int] as int),
                        qi@,
                    );
                }
                accp = q.add(accp, p);
                t = t + 1;
            }
            // the wrapped products a[t] * b[k+64-t], t in [k+1, 63]
            let mut accn: u32 = 0;
            let mut s: usize = k + 1;
            proof {
                lemma_canonical_mod(0, qi@);
            }
            while s < D
                invariant
                    k + 1 <= s <= 64,
                    k < 64,
                    q.wf(),
                    poly_wf(self@, qi@),
                    poly_wf(other@, qi@),
                    qi@ == q.q as int,
                    accn < q.q,
                    accn as int == conv_neg(self@, other@, k as int, s as int) % qi@,
                decreases 64 - s,
            {
                let p: u32 = q.mul(self.c[s], other.c[k + D - s]);
                proof {
                    lemma_add_mod_noop(
                        conv_neg(self@, other@, k as int, s as int),
                        (self@[s as int] as int) * (other@[(k + 64 - s) as int] as int),
                        qi@,
                    );
                }
                accn = q.add(accn, p);
                s = s + 1;
            }
            let ck: u32 = q.sub(accp, accn);
            proof {
                lemma_sub_mod_noop(
                    conv_pos(self@, other@, k as int, k + 1),
                    conv_neg(self@, other@, k as int, 64),
                    qi@,
                );
            }
            c.push(ck);
            k = k + 1;
        }
        let r = Self { c };
        proof {
            assert(r@ =~= poly_mul_spec(self@, other@, q.q as int));
        }
        r
    }

    /// `sigma^{-1}`: `X -> X^{-1}` in `R_q`.
    pub fn sigma_inv(&self, q: &ModQ) -> (r: Self)
        requires
            q.wf(),
            poly_wf(self@, q.q as int),
        ensures
            poly_wf(r@, q.q as int),
            r@ == sigma_inv_spec(self@, q.q as int),
    {
        let mut c: Vec<u32> = Vec::new();
        c.push(self.c[0]);
        let mut j: usize = 1;
        while j < D
            invariant
                1 <= j <= 64,
                q.wf(),
                poly_wf(self@, q.q as int),
                c@.len() == j,
                c@[0] == self@[0],
                forall|i: int| 1 <= i < j ==> c@[i] < q.q && c@[i] as int == negq(
                    self@[64 - i] as int,
                    q.q as int,
                ),
            decreases 64 - j,
        {
            c.push(q.neg(self.c[D - j]));
            j = j + 1;
        }
        let r = Self { c };
        proof {
            assert(r@ =~= sigma_inv_spec(self@, q.q as int));
        }
        r
    }
}

impl PartialEq for Poly {
    fn eq(&self, other: &Self) -> (r: bool) {
        if self.c.len() != other.c.len() {
            proof {
                assert(self@.len() != other@.len());
            }
            return false;
        }
        let n = self.c.len();
        let mut i: usize = 0;
        while i < n
            invariant
                i <= n,
                n == self@.len(),
                n == other@.len(),
                forall|j: int| 0 <= j < i ==> self@[j] == other@[j],
            decreases n - i,
        {
            if self.c[i] != other.c[i] {
                proof {
                    assert(self@[i as int] != other@[i as int]);
                }
                return false;
            }
            i = i + 1;
        }
        proof {
            assert(self@ =~= other@);
        }
        true
    }
}

impl vstd::std_specs::cmp::PartialEqSpecImpl for Poly {
    open spec fn obeys_eq_spec() -> bool {
        true
    }

    open spec fn eq_spec(&self, other: &Poly) -> bool {
        self@ == other@
    }
}

/// The monomial `a * X^k` as a coefficient sequence.
pub open spec fn monomial_spec(k: int, a: u32) -> Seq<u32> {
    Seq::new(64, |i: int| if i == k { a } else { 0u32 })
}

/// `conv_pos` of a sequence with a single nonzero position `ai` collapses to
/// at most one term.
proof fn lemma_conv_pos_single(a: Seq<u32>, b: Seq<u32>, k: int, j: int, ai: int)
    requires
        a.len() == 64,
        b.len() == 64,
        0 <= ai < 64,
        0 <= k < 64,
        0 <= j <= k + 1,
        forall|t: int| 0 <= t < 64 && t != ai ==> a[t] == 0,
    ensures
        conv_pos(a, b, k, j) == if ai < j {
            (a[ai] as int) * (b[k - ai] as int)
        } else {
            0
        },
    decreases j,
{
    if j > 0 {
        lemma_conv_pos_single(a, b, k, j - 1, ai);
        if j - 1 != ai {
            assert(a[j - 1] == 0);
        }
    }
}

/// `conv_neg` of a sequence with a single nonzero position `ai` collapses to
/// at most one term.
proof fn lemma_conv_neg_single(a: Seq<u32>, b: Seq<u32>, k: int, j: int, ai: int)
    requires
        a.len() == 64,
        b.len() == 64,
        0 <= ai < 64,
        0 <= k < 64,
        k + 1 <= j <= 64,
        forall|t: int| 0 <= t < 64 && t != ai ==> a[t] == 0,
    ensures
        conv_neg(a, b, k, j) == if k + 1 <= ai && ai < j {
            (a[ai] as int) * (b[k + 64 - ai] as int)
        } else {
            0
        },
    decreases j - k,
{
    if j > k + 1 {
        lemma_conv_neg_single(a, b, k, j - 1, ai);
        if j - 1 != ai {
            assert(a[j - 1] == 0);
        }
    }
}

/// The ring identity `X^{63} * X == -1` in `R_q`: multiplying the monomials
/// `X^{63}` and `X` wraps past `X^{64}` and lands on `-1`.
pub proof fn lemma_wrap_negate(q: int)
    requires
        2 <= q <= 0x1_0000_0000,
    ensures
        poly_mul_spec(monomial_spec(63, 1), monomial_spec(1, 1), q) == poly_neg_spec(
            monomial_spec(0, 1),
            q,
        ),
{
    let a = monomial_spec(63, 1);
    let b = monomial_spec(1, 1);
    let lhs = poly_mul_spec(a, b, q);
    let rhs = poly_neg_spec(monomial_spec(0, 1), q);
    assert forall|k: int| 0 <= k < 64 implies lhs[k] == rhs[k] by {
        lemma_conv_pos_single(a, b, k, k + 1, 63);
        lemma_conv_neg_single(a, b, k, 64, 63);
        lemma_canonical_mod(0, q);
        if k == 63 {
            assert(conv_pos(a, b, k, k + 1) == (a[63] as int) * (b[0] as int));
            assert(b[0] == 0);
            assert((a[63] as int) * 0 == 0) by (nonlinear_arith);
        } else {
            assert(conv_pos(a, b, k, k + 1) == 0);
        }
        if k == 0 {
            assert(conv_neg(a, b, k, 64) == (a[63] as int) * (b[1] as int));
            assert(mul_coeff(a, b, 0, q) == (0 - 1) % q);
            assert((0 - 1) % q == q - 1) by {
                lemma_mod_sub_multiples_vanish(q - 1, q);
                lemma_canonical_mod(q - 1, q);
            }
            assert(rhs[0] as int == negq(1, q));
        } else {
            assert(conv_neg(a, b, k, 64) == 0);
            assert(mul_coeff(a, b, k, q) == 0);
            assert(rhs[k] as int == negq(0, q));
        }
    }
    assert(lhs =~= rhs);
}

/// The coefficient-wise spec operations all land back in `[0, q)`.
pub proof fn lemma_poly_add_spec_wf(a: Seq<u32>, b: Seq<u32>, q: int)
    requires
        1 <= q <= 0x1_0000_0000,
    ensures
        poly_wf(poly_add_spec(a, b, q), q),
{
    assert forall|i: int| 0 <= i < 64 implies (poly_add_spec(a, b, q)[i] as int) < q by {
        lemma_mod_bound(a[i] + b[i], q);
    }
}

pub proof fn lemma_poly_sub_spec_wf(a: Seq<u32>, b: Seq<u32>, q: int)
    requires
        1 <= q <= 0x1_0000_0000,
    ensures
        poly_wf(poly_sub_spec(a, b, q), q),
{
    assert forall|i: int| 0 <= i < 64 implies (poly_sub_spec(a, b, q)[i] as int) < q by {
        lemma_mod_bound(a[i] - b[i], q);
    }
}

pub proof fn lemma_poly_mul_spec_wf(a: Seq<u32>, b: Seq<u32>, q: int)
    requires
        1 <= q <= 0x1_0000_0000,
    ensures
        poly_wf(poly_mul_spec(a, b, q), q),
{
    assert forall|i: int| 0 <= i < 64 implies (poly_mul_spec(a, b, q)[i] as int) < q by {
        lemma_mod_bound(conv_pos(a, b, i, i + 1) - conv_neg(a, b, i, 64), q);
    }
}

pub proof fn lemma_poly_zero_wf(q: int)
    requires
        q >= 1,
    ensures
        poly_wf(poly_zero(), q),
{
}

/// Deep view of a polynomial vector: the sequence of coefficient sequences.
pub open spec fn vv(v: Seq<Poly>) -> Seq<Seq<u32>> {
    v.map_values(|p: Poly| p@)
}

/// Every entry of a polynomial vector is well formed.
pub open spec fn polyvec_wf(v: Seq<Seq<u32>>, q: int) -> bool {
    forall|i: int| 0 <= i < v.len() ==> poly_wf(#[trigger] v[i], q)
}

/// The involution applied twice is the identity, and the constant term is
/// preserved by a single application.
pub proof fn lemma_sigma_inv_involution(a: Seq<u32>, q: int)
    requires
        1 <= q <= 0x1_0000_0000,
        poly_wf(a, q),
    ensures
        sigma_inv_spec(sigma_inv_spec(a, q), q) == a,
        sigma_inv_spec(a, q)[0] == a[0],
{
    let b = sigma_inv_spec(a, q);
    let c = sigma_inv_spec(b, q);
    assert forall|j: int| 0 <= j < 64 implies c[j] == a[j] by {
        if j != 0 {
            lemma_negq_involutive(a[j] as int, q);
            assert(b[64 - j] as int == negq(a[j] as int, q));
            lemma_negq_involutive(b[64 - j] as int, q);
        }
    }
    assert(c =~= a);
}

} // verus!
use vstd::prelude::*;

verus! {

/// `conv` sums over an all-zero left factor vanish.
proof fn lemma_conv_pos_zero(b: Seq<u32>, k: int, j: int)
    requires
        0 <= k < 64,
        j <= k + 1,
    ensures
        conv_pos(poly_zero(), b, k, j) == 0,
    decreases j,
{
    if j > 0 {
        lemma_conv_pos_zero(b, k, j - 1);
        let t = (poly_zero()[j - 1] as int) * (b[k - (j - 1)] as int);
        if 0 <= j - 1 < 64 {
            assert(poly_zero()[j - 1] == 0u32);
            assert(t == 0) by (nonlinear_arith)
                requires
                    t == (poly_zero()[j - 1] as int) * (b[k - (j - 1)] as int),
                    poly_zero()[j - 1] as int == 0,
            ;
        } else {
            assert(poly_zero()[j - 1] as int * (b[k - (j - 1)] as int) == t);
        }
    }
}

proof fn lemma_conv_neg_zero(b: Seq<u32>, k: int, j: int)
    requires
        0 <= k,
        j <= 64,
    ensures
        conv_neg(poly_zero(), b, k, j) == 0,
    decreases j - k,
{
    if j > k + 1 {
        lemma_conv_neg_zero(b, k, j - 1);
        let t = (poly_zero()[j - 1] as int) * (b[k + 64 - (j - 1)] as int);
        if 0 <= j - 1 < 64 {
            assert(poly_zero()[j - 1] == 0u32);
            assert(t == 0) by (nonlinear_arith)
                requires
                    t == (poly_zero()[j - 1] as int) * (b[k + 64 - (j - 1)] as int),
                    poly_zero()[j - 1] as int == 0,
            ;
        }
    }
}

/// The zero polynomial annihilates under ring multiplication.
pub proof fn lemma_poly_mul_zero_left(x: Seq<u32>, q: int)
    requires
        q >= 1,
    ensures
        poly_mul_spec(poly_zero(), x, q) == poly_zero(),
{
    assert forall|k: int| 0 <= k < 64 implies poly_mul_spec(poly_zero(), x, q)[k]
        == poly_zero()[k] by {
        lemma_conv_pos_zero(x, k, k + 1);
        lemma_conv_neg_zero(x, k, 64);
        lemma_canonical_mod(0, q);
    }
    assert(poly_mul_spec(poly_zero(), x, q) =~= poly_zero());
}

/// The zero polynomial is the additive identity.
pub proof fn lemma_poly_add_zero(a: Seq<u32>, q: int)
    requires
        q >= 1,
        poly_wf(a, q),
    ensures
        poly_add_spec(a, poly_zero(), q) == a,
{
    assert forall|i: int| 0 <= i < 64 implies poly_add_spec(a, poly_zero(), q)[i] == a[i] by {
        lemma_canonical_mod(a[i] as int, q);
    }
    assert(poly_add_spec(a, poly_zero(), q) =~= a);
}

} // verus!
use vstd::prelude::*;

verus! {

use vstd::arithmetic::div_mod::lemma_add_mod_noop_right;
use vstd::arithmetic::div_mod::lemma_mul_mod_noop_left;

/// `sum_{m in [from, 64)} u[m] * g[m]`.
pub open spec fn coeff_dot(u: Seq<u32>, g: Seq<u32>, from: int) -> int
    decreases 64 - from,
{
    if from >= 64 || from < 0 {
        0
    } else {
        (u[from] as int) * (g[from] as int) + coeff_dot(u, g, from + 1)
    }
}

/// The wrapped half of the constant term of `sigma_inv(u) * g` is, mod `q`,
/// the negated tail of the coefficient pairing.
proof fn lemma_sigma_pairing_tail(u: Seq<u32>, g: Seq<u32>, q: int, j: int)
    requires
        2 <= q <= 0x1_0000_0000,
        poly_wf(u, q),
        poly_wf(g, q),
        1 <= j <= 64,
    ensures
        conv_neg(sigma_inv_spec(u, q), g, 0, j) % q == (0 - coeff_dot(u, g, 65 - j)) % q,
    decreases j,
{
    let six = sigma_inv_spec(u, q);
    if j == 1 {
        lemma_canonical_mod(0, q);
        assert(coeff_dot(u, g, 64) == 0);
    } else {
        lemma_sigma_pairing_tail(u, g, q, j - 1);
        let m = 65 - j;
        assert(conv_neg(six, g, 0, j) == conv_neg(six, g, 0, j - 1) + (six[j - 1] as int) * (g[0
            + 64 - (j - 1)] as int));
        assert(six[j - 1] as int == negq(u[m] as int, q));
        // the negated residue contributes the negated product mod q
        assert((negq(u[m] as int, q) * (g[m] as int)) % q == ((0 - u[m]) * (g[m] as int)) % q) by {
            lemma_mul_mod_noop_left(0 - (u[m] as int), g[m] as int, q);
        }
        assert((0 - u[m]) * (g[m] as int) == 0 - (u[m] as int) * (g[m] as int))
            by (nonlinear_arith);
        // fold into the running sum
        assert(conv_neg(six, g, 0, j) % q == (conv_neg(six, g, 0, j - 1) + negq(u[m] as int, q)
            * (g[m] as int)) % q);
        lemma_add_mod_noop(conv_neg(six, g, 0, j - 1), negq(u[m] as int, q) * (g[m] as int), q);
        lemma_add_mod_noop(0 - coeff_dot(u, g, m + 1), 0 - (u[m] as int) * (g[m] as int), q);
        assert((0 - coeff_dot(u, g, m + 1)) + (0 - (u[m] as int) * (g[m] as int)) == 0
            - coeff_dot(u, g, m));
    }
}

/// The involution pairing: the constant term of `sigma_inv(u) * g` is the
/// coefficient inner product `sum_j u_j g_j` mod `q`. This is the identity
/// the evaluation protocol rests on: with `u` the vector of powers of `x`,
/// the constant term reads off the evaluation of `g` at `x`.
pub proof fn lemma_sigma_pairing(u: Seq<u32>, g: Seq<u32>, q: int)
    requires
        2 <= q <= 0x1_0000_0000,
        poly_wf(u, q),
        poly_wf(g, q),
    ensures
        poly_mul_spec(sigma_inv_spec(u, q), g, q)[0] as int == coeff_dot(u, g, 0) % q,
{
    let six = sigma_inv_spec(u, q);
    lemma_sigma_pairing_tail(u, g, q, 64);
    assert(conv_pos(six, g, 0, 0) == 0);
    assert(conv_pos(six, g, 0, 1) == (six[0] as int) * (g[0] as int));
    assert(six[0] == u[0]);
    assert(mul_coeff(six, g, 0, q) == (conv_pos(six, g, 0, 1) - conv_neg(six, g, 0, 64)) % q);
    lemma_sub_mod_noop(conv_pos(six, g, 0, 1), conv_neg(six, g, 0, 64), q);
    lemma_sub_mod_noop((u[0] as int) * (g[0] as int), 0 - coeff_dot(u, g, 1), q);
    assert((u[0] as int) * (g[0] as int) - (0 - coeff_dot(u, g, 1)) == coeff_dot(u, g, 0));
    lemma_mod_bound(coeff_dot(u, g, 0), q);
    assert(poly_mul_spec(six, g, q)[0] as int == mul_coeff(six, g, 0, q));
}

} // verus!
use vstd::prelude::*;

verus! {

/// `conv` sums against the constant monomial `1` pick out one coefficient.
proof fn lemma_conv_pos_one(g: Seq<u32>, k: int, j: int)
    requires
        0 <= k < 64,
        0 <= j <= k + 1,
    ensures
        conv_pos(g, monomial_spec(0, 1), k, j) == if k < j {
            g[k] as int
        } else {
            0
        },
    decreases j,
{
    if j > 0 {
        lemma_conv_pos_one(g, k, j - 1);
        let one = monomial_spec(0, 1);
        if j - 1 == k {
            assert(one[k - (j - 1)] == 1u32);
        } else {
            assert(one[k - (j - 1)] == 0u32);
            assert((g[j - 1] as int) * (one[k - (j - 1)] as int) == 0) by (nonlinear_arith)
                requires
                    one[k - (j - 1)] as int == 0,
            ;
        }
    }
}

proof fn lemma_conv_neg_one(g: Seq<u32>, k: int, j: int)
    requires
        0 <= k < 64,
        j <= 64,
    ensures
        conv_neg(g, monomial_spec(0, 1), k, j) == 0,
    decreases j - k,
{
    if j > k + 1 {
        lemma_conv_neg_one(g, k, j - 1);
        let one = monomial_spec(0, 1);
        assert(one[k + 64 - (j - 1)] == 0u32);
        assert((g[j - 1] as int) * (one[k + 64 - (j - 1)] as int) == 0) by (nonlinear_arith)
            requires
                one[k + 64 - (j - 1)] as int == 0,
        ;
    }
}

/// The constant monomial `1` is the multiplicative identity of the ring.
pub proof fn lemma_poly_mul_one(g: Seq<u32>, q: int)
    requires
        2 <= q <= 0x1_0000_0000,
        poly_wf(g, q),
    ensures
        poly_mul_spec(g, monomial_spec(0, 1), q) == g,
{
    assert forall|k: int| 0 <= k < 64 implies poly_mul_spec(g, monomial_spec(0, 1), q)[k]
        == g[k] by {
        lemma_conv_pos_one(g, k, k + 1);
        lemma_conv_neg_one(g, k, 64);
        lemma_canonical_mod(g[k] as int, q);
    }
    assert(poly_mul_spec(g, monomial_spec(0, 1), q) =~= g);
}

/// Zero is also a left identity of ring addition.
pub proof fn lemma_poly_add_zero_left(a: Seq<u32>, q: int)
    requires
        q >= 1,
        poly_wf(a, q),
    ensures
        poly_add_spec(poly_zero(), a, q) == a,
{
    assert forall|i: int| 0 <= i < 64 implies poly_add_spec(poly_zero(), a, q)[i] == a[i] by {
        lemma_canonical_mod(a[i] as int, q);
    }
    assert(poly_add_spec(poly_zero(), a, q) =~= a);
}

} // verus!
