//! The sum-check fields: the prime field `Fq` of order `2^32 - 99` and its
//! degree-4 extension `Fq4`, built as two nested quadratic extensions.
//! `Fq2 = Fq[U]/(U^2 - 6)` (6 is a non-residue mod `P`), and
//! `Fq4 = Fq2[V]/(V^2 - U)`: multiplying an `Fq2` element by the non-residue
//! `U` sends `(c0, c1)` to `(6*c1, c0)`.

use vstd::prelude::*;

verus! {

use vstd::arithmetic::div_mod::lemma_small_mod;
use vstd::arithmetic::div_mod::lemma_mod_bound;
use vstd::arithmetic::div_mod::lemma_mod_sub_multiples_vanish;

/// The prime modulus of the sum-check base field: `2^32 - 99`.
pub const P: u32 = 4294967197;

/// Element of the prime field of order `P`, held as a canonical residue.
#[derive(Clone, Copy, Debug, PartialEq, Eq, Structural)]
pub struct Fq {
    pub v: u32,
}

/// Element of `Fq2 = Fq[U]/(U^2 - 6)`.
#[derive(Clone, Copy, Debug, PartialEq, Eq, Structural)]
pub struct Fq2 {
    pub c0: Fq,
    pub c1: Fq,
}

/// Element of `Fq4 = Fq2[V]/(V^2 - U)`.
#[derive(Clone, Copy, Debug, PartialEq, Eq, Structural)]
pub struct Fq4 {
    pub c0: Fq2,
    pub c1: Fq2,
}

impl Fq {
    pub open spec fn wf(self) -> bool {
        self.v < P
    }
}

impl Fq2 {
    pub open spec fn wf(self) -> bool {
        self.c0.wf() && self.c1.wf()
    }
}

impl Fq4 {
    pub open spec fn wf(self) -> bool {
        self.c0.wf() && self.c1.wf()
    }
}

pub open spec fn fq(x: int) -> Fq {
    Fq { v: (x % (P as int)) as u32 }
}

pub open spec fn fq_add(a: Fq, b: Fq) -> Fq {
    fq(a.v + b.v)
}

pub open spec fn fq_sub(a: Fq, b: Fq) -> Fq {
    fq(a.v - b.v)
}

pub open spec fn fq_neg(a: Fq) -> Fq {
    fq(0 - a.v)
}

pub open spec fn fq_mul(a: Fq, b: Fq) -> Fq {
    fq((a.v as int) * (b.v as int))
}

pub open spec fn fq2_add(a: Fq2, b: Fq2) -> Fq2 {
    Fq2 { c0: fq_add(a.c0, b.c0), c1: fq_add(a.c1, b.c1) }
}

pub open spec fn fq2_sub(a: Fq2, b: Fq2) -> Fq2 {
    Fq2 { c0: fq_sub(a.c0, b.c0), c1: fq_sub(a.c1, b.c1) }
}

/// `(a0 + a1 U)(b0 + b1 U) = (a0 b0 + 6 a1 b1) + (a0 b1 + a1 b0) U`.
pub open spec fn fq2_mul(a: Fq2, b: Fq2) -> Fq2 {
    Fq2 {
        c0: fq_add(fq_mul(a.c0, b.c0), fq_mul(fq(6), fq_mul(a.c1, b.c1))),
        c1: fq_add(fq_mul(a.c0, b.c1), fq_mul(a.c1, b.c0)),
    }
}

/// Multiplication by the non-residue `U`: `(c0, c1) -> (6 c1, c0)`.
pub open spec fn fq2_mul_nonres(a: Fq2) -> Fq2 {
    Fq2 { c0: fq_mul(fq(6), a.c1), c1: a.c0 }
}

pub open spec fn fq4_add(a: Fq4, b: Fq4) -> Fq4 {
    Fq4 { c0: fq2_add(a.c0, b.c0), c1: fq2_add(a.c1, b.c1) }
}

pub open spec fn fq4_sub(a: Fq4, b: Fq4) -> Fq4 {
    Fq4 { c0: fq2_sub(a.c0, b.c0), c1: fq2_sub(a.c1, b.c1) }
}

/// `(A0 + A1 V)(B0 + B1 V) = (A0 B0 + U A1 B1) + (A0 B1 + A1 B0) V`.
pub open spec fn fq4_mul(a: Fq4, b: Fq4) -> Fq4 {
    Fq4 {
        c0: fq2_add(fq2_mul(a.c0, b.c0), fq2_mul_nonres(fq2_mul(a.c1, b.c1))),
        c1: fq2_add(fq2_mul(a.c0, b.c1), fq2_mul(a.c1, b.c0)),
    }
}

pub open spec fn fq_zero() -> Fq {
    Fq { v: 0 }
}

pub open spec fn fq2_zero() -> Fq2 {
    Fq2 { c0: fq_zero(), c1: fq_zero() }
}

pub open spec fn fq4_zero() -> Fq4 {
    Fq4 { c0: fq2_zero(), c1: fq2_zero() }
}

pub open spec fn fq_one() -> Fq {
    Fq { v: 1 }
}

pub open spec fn fq4_one() -> Fq4 {
    Fq4 { c0: Fq2 { c0: fq_one(), c1: fq_zero() }, c1: fq2_zero() }
}

/// The embedding `Fq -> Fq4`, `a -> ((a, 0), (0, 0))`.
pub open spec fn fq2fq4_spec(a: Fq) -> Fq4 {
    Fq4 { c0: Fq2 { c0: a, c1: fq_zero() }, c1: fq2_zero() }
}

impl Fq {
    pub fn zero() -> (r: Fq)
        ensures
            r == fq_zero(),
            r.wf(),
    {
        Fq { v: 0 }
    }

    pub fn one() -> (r: Fq)
        ensures
            r == fq_one(),
            r.wf(),
    {
        Fq { v: 1 }
    }

    pub fn from_u64(x: u64) -> (r: Fq)
        ensures
            r.wf(),
            r.v as int == (x as int) % (P as int),
    {
        (Fq { v: (x % (P as u64)) as u32 })
    }

    pub fn add(self, o: Fq) -> (r: Fq)
        requires
            self.wf(),
            o.wf(),
        ensures
            r.wf(),
            r == fq_add(self, o),
    {
        let x: u64 = self.v as u64 + o.v as u64;
        let y: u64 = if x >= P as u64 {
            x - P as u64
        } else {
            x
        };
        proof {
            let pi = P as int;
            if self.v + o.v >= pi {
                lemma_mod_sub_multiples_vanish(self.v + o.v, pi);
                lemma_small_mod((self.v + o.v - pi) as nat, pi as nat);
            } else {
                lemma_small_mod((self.v + o.v) as nat, pi as nat);
            }
        }
        Fq { v: y as u32 }
    }

    pub fn sub(self, o: Fq) -> (r: Fq)
        requires
            self.wf(),
            o.wf(),
        ensures
            r.wf(),
            r == fq_sub(self, o),
    {
        let x: u64 = self.v as u64 + P as u64 - o.v as u64;
        let y: u64 = if x >= P as u64 {
            x - P as u64
        } else {
            x
        };
        proof {
            let pi = P as int;
            if self.v - o.v >= 0 {
                lemma_mod_sub_multiples_vanish(self.v - o.v + pi, pi);
                lemma_small_mod((self.v - o.v) as nat, pi as nat);
            } else {
                lemma_mod_sub_multiples_vanish(self.v - o.v + pi, pi);
                lemma_small_mod((self.v - o.v + pi) as nat, pi as nat);
            }
        }
        Fq { v: y as u32 }
    }

    pub fn neg(self) -> (r: Fq)
        requires
            self.wf(),
        ensures
            r.wf(),
            r == fq_neg(self),
    {
        let y: u32 = if self.v == 0 {
            0
        } else {
            P - self.v
        };
        proof {
            let pi = P as int;
            if self.v == 0 {
                lemma_small_mod(0, pi as nat);
            } else {
                lemma_mod_sub_multiples_vanish(0 - self.v + pi, pi);
                lemma_small_mod((pi - self.v) as nat, pi as nat);
            }
        }
        Fq { v: y }
    }

    pub fn mul(self, o: Fq) -> (r: Fq)
        requires
            self.wf(),
            o.wf(),
        ensures
            r.wf(),
            r == fq_mul(self, o),
    {
        proof {
            assert((self.v as int) * (o.v as int) <= 0xffff_ffff * 0xffff_ffff)
                by (nonlinear_arith)
                requires
                    self.v <= 0xffff_ffffu32,
                    o.v <= 0xffff_ffffu32,
            ;
            lemma_mod_bound((self.v as int) * (o.v as int), P as int);
        }
        let x: u64 = (self.v as u64) * (o.v as u64) % (P as u64);
        Fq { v: x as u32 }
    }
}

impl Fq2 {
    pub fn zero() -> (r: Fq2)
        ensures
            r == fq2_zero(),
            r.wf(),
    {
        Fq2 { c0: Fq::zero(), c1: Fq::zero() }
    }

    pub fn add(self, o: Fq2) -> (r: Fq2)
        requires
            self.wf(),
            o.wf(),
        ensures
            r.wf(),
            r == fq2_add(self, o),
    {
        Fq2 { c0: self.c0.add(o.c0), c1: self.c1.add(o.c1) }
    }

    pub fn sub(self, o: Fq2) -> (r: Fq2)
        requires
            self.wf(),
            o.wf(),
        ensures
            r.wf(),
            r == fq2_sub(self, o),
    {
        Fq2 { c0: self.c0.sub(o.c0), c1: self.c1.sub(o.c1) }
    }

    pub fn mul(self, o: Fq2) -> (r: Fq2)
        requires
            self.wf(),
            o.wf(),
        ensures
            r.wf(),
            r == fq2_mul(self, o),
    {
        let six = Fq { v: 6 };
        proof {
            lemma_small_mod(6, P as nat);
            assert(six == fq(6));
        }
        let a = self.c0.mul(o.c0).add(six.mul(self.c1.mul(o.c1)));
        let b = self.c0.mul(o.c1).add(self.c1.mul(o.c0));
        Fq2 { c0: a, c1: b }
    }

    pub fn mul_nonres(self) -> (r: Fq2)
        requires
            self.wf(),
        ensures
            r.wf(),
            r == fq2_mul_nonres(self),
    {
        let six = Fq { v: 6 };
        proof {
            lemma_small_mod(6, P as nat);
            assert(six == fq(6));
        }
        Fq2 { c0: six.mul(self.c1), c1: self.c0 }
    }
}

impl Fq4 {
    pub fn zero() -> (r: Fq4)
        ensures
            r == fq4_zero(),
            r.wf(),
    {
        Fq4 { c0: Fq2::zero(), c1: Fq2::zero() }
    }

    pub fn one() -> (r: Fq4)
        ensures
            r == fq4_one(),
            r.wf(),
    {
        Fq4 { c0: Fq2 { c0: Fq::one(), c1: Fq::zero() }, c1: Fq2::zero() }
    }

    pub fn add(self, o: Fq4) -> (r: Fq4)
        requires
            self.wf(),
            o.wf(),
        ensures
            r.wf(),
            r == fq4_add(self, o),
    {
        Fq4 { c0: self.c0.add(o.c0), c1: self.c1.add(o.c1) }
    }

    pub fn sub(self, o: Fq4) -> (r: Fq4)
        requires
            self.wf(),
            o.wf(),
        ensures
            r.wf(),
            r == fq4_sub(self, o),
    {
        Fq4 { c0: self.c0.sub(o.c0), c1: self.c1.sub(o.c1) }
    }

    pub fn mul(self, o: Fq4) -> (r: Fq4)
        requires
            self.wf(),
            o.wf(),
        ensures
            r.wf(),
            r == fq4_mul(self, o),
    {
        let a = self.c0.mul(o.c0).add(self.c1.mul(o.c1).mul_nonres());
        let b = self.c0.mul(o.c1).add(self.c1.mul(o.c0));
        Fq4 { c0: a, c1: b }
    }
}

/// The embedding `Fq -> Fq4` sending `a` to `((a, 0), (0, 0))`.
pub fn fq2fq4(a: Fq) -> (r: Fq4)
    requires
        a.wf(),
    ensures
        r.wf(),
        r == fq2fq4_spec(a),
{
    Fq4 { c0: Fq2 { c0: a, c1: Fq::zero() }, c1: Fq2::zero() }
}

} // verus!
use vstd::prelude::*;

verus! {

use vstd::arithmetic::div_mod::lemma_add_mod_noop;

/// Addition in `Fq` is commutative.
pub proof fn lemma_fq_add_comm(a: Fq, b: Fq)
    ensures
        fq_add(a, b) == fq_add(b, a),
{
}

/// Addition in `Fq` is associative.
pub proof fn lemma_fq_add_assoc(a: Fq, b: Fq, c: Fq)
    requires
        a.wf(),
        b.wf(),
        c.wf(),
    ensures
        fq_add(fq_add(a, b), c) == fq_add(a, fq_add(b, c)),
{
    let p = P as int;
    lemma_add_mod_noop(a.v + b.v, c.v as int, p);
    lemma_add_mod_noop(a.v as int, b.v + c.v, p);
    vstd::arithmetic::div_mod::lemma_small_mod(c.v as nat, p as nat);
    vstd::arithmetic::div_mod::lemma_small_mod(a.v as nat, p as nat);
    assert((a.v + b.v + c.v) % p == ((a.v + b.v) % p + (c.v as int) % p) % p);
    assert((a.v + b.v + c.v) % p == ((a.v as int) % p + (b.v + c.v) % p) % p);
}

/// `(x + x) + (y - x) == x + y` in `Fq`.
pub proof fn lemma_fq_two_plus_diff(x: Fq, y: Fq)
    ensures
        fq_add(fq_add(x, x), fq_sub(y, x)) == fq_add(x, y),
{
    let p = P as int;
    lemma_add_mod_noop(x.v + x.v, y.v - x.v, p);
    assert(((x.v + x.v) % p + (y.v - x.v) % p) % p == (x.v + x.v + (y.v - x.v)) % p);
}

/// Addition in `Fq4` is commutative.
pub proof fn lemma_fq4_add_comm(a: Fq4, b: Fq4)
    ensures
        fq4_add(a, b) == fq4_add(b, a),
{
}

/// Addition in `Fq4` is associative.
pub proof fn lemma_fq4_add_assoc(a: Fq4, b: Fq4, c: Fq4)
    requires
        a.wf(),
        b.wf(),
        c.wf(),
    ensures
        fq4_add(fq4_add(a, b), c) == fq4_add(a, fq4_add(b, c)),
{
    lemma_fq_add_assoc(a.c0.c0, b.c0.c0, c.c0.c0);
    lemma_fq_add_assoc(a.c0.c1, b.c0.c1, c.c0.c1);
    lemma_fq_add_assoc(a.c1.c0, b.c1.c0, c.c1.c0);
    lemma_fq_add_assoc(a.c1.c1, b.c1.c1, c.c1.c1);
}

/// `(x + x) + (y - x) == x + y` in `Fq4`.
pub proof fn lemma_fq4_two_plus_diff(x: Fq4, y: Fq4)
    ensures
        fq4_add(fq4_add(x, x), fq4_sub(y, x)) == fq4_add(x, y),
{
    lemma_fq_two_plus_diff(x.c0.c0, y.c0.c0);
    lemma_fq_two_plus_diff(x.c0.c1, y.c0.c1);
    lemma_fq_two_plus_diff(x.c1.c0, y.c1.c0);
    lemma_fq_two_plus_diff(x.c1.c1, y.c1.c1);
}

/// Zero is the additive identity of `Fq`.
pub proof fn lemma_fq_add_zero(a: Fq)
    requires
        a.wf(),
    ensures
        fq_add(a, fq_zero()) == a,
        fq_add(fq_zero(), a) == a,
{
    vstd::arithmetic::div_mod::lemma_small_mod(a.v as nat, P as nat);
}

/// Zero is the additive identity of `Fq4`.
pub proof fn lemma_fq4_add_zero(a: Fq4)
    requires
        a.wf(),
    ensures
        fq4_add(a, fq4_zero()) == a,
        fq4_add(fq4_zero(), a) == a,
{
    lemma_fq_add_zero(a.c0.c0);
    lemma_fq_add_zero(a.c0.c1);
    lemma_fq_add_zero(a.c1.c0);
    lemma_fq_add_zero(a.c1.c1);
}

/// Multiplying by zero gives zero in `Fq`.
pub proof fn lemma_fq_mul_zero(a: Fq)
    ensures
        fq_mul(a, fq_zero()) == fq_zero(),
        fq_mul(fq_zero(), a) == fq_zero(),
{
    assert((a.v as int) * 0 == 0) by (nonlinear_arith);
    assert(0 * (a.v as int) == 0) by (nonlinear_arith);
    vstd::arithmetic::div_mod::lemma_small_mod(0, P as nat);
}

} // verus!
use vstd::prelude::*;

verus! {

use vstd::arithmetic::div_mod::lemma_mul_mod_noop_left;
use vstd::arithmetic::div_mod::lemma_mul_mod_noop_right;
use vstd::arithmetic::mul::lemma_mul_is_associative;
use vstd::arithmetic::mul::lemma_mul_is_distributive_add;
use vstd::arithmetic::mul::lemma_mul_is_commutative;

/// Multiplication in `Fq` is commutative.
pub proof fn lemma_fq_mul_comm(a: Fq, b: Fq)
    ensures
        fq_mul(a, b) == fq_mul(b, a),
{
    lemma_mul_is_commutative(a.v as int, b.v as int);
}

/// Multiplication in `Fq` is associative.
pub proof fn lemma_fq_mul_assoc(a: Fq, b: Fq, c: Fq)
    ensures
        fq_mul(fq_mul(a, b), c) == fq_mul(a, fq_mul(b, c)),
{
    let p = P as int;
    let x = a.v as int;
    let y = b.v as int;
    let z = c.v as int;
    lemma_mul_mod_noop_left(x * y, z, p);
    lemma_mul_mod_noop_right(x, y * z, p);
    lemma_mul_is_associative(x, y, z);
}

/// Multiplication distributes over addition in `Fq`.
pub proof fn lemma_fq_mul_distrib(a: Fq, b: Fq, c: Fq)
    ensures
        fq_mul(a, fq_add(b, c)) == fq_add(fq_mul(a, b), fq_mul(a, c)),
{
    let p = P as int;
    let x = a.v as int;
    let y = b.v as int;
    let z = c.v as int;
    lemma_mul_mod_noop_right(x, y + z, p);
    lemma_mul_is_distributive_add(x, y, z);
    lemma_add_mod_noop(x * y, x * z, p);
}

/// One is the multiplicative identity of `Fq`.
pub proof fn lemma_fq_mul_one(a: Fq)
    requires
        a.wf(),
    ensures
        fq_mul(a, fq_one()) == a,
        fq_mul(fq_one(), a) == a,
{
    vstd::arithmetic::div_mod::lemma_small_mod(a.v as nat, P as nat);
}

/// Shuffle `(x1 + x2) + (y1 + y2)` into `(x1 + y1) + (x2 + y2)`.
pub proof fn lemma_fq_add_swap4(x1: Fq, x2: Fq, y1: Fq, y2: Fq)
    requires
        x1.wf(),
        x2.wf(),
        y1.wf(),
        y2.wf(),
    ensures
        fq_add(fq_add(x1, x2), fq_add(y1, y2)) == fq_add(fq_add(x1, y1), fq_add(x2, y2)),
{
    let p = P as int;
    lemma_add_mod_noop(x1.v + x2.v, y1.v + y2.v, p);
    lemma_add_mod_noop(x1.v + y1.v, x2.v + y2.v, p);
    vstd::arithmetic::div_mod::lemma_small_mod((x1.v) as nat, p as nat);
    assert((x1.v + x2.v) % p == ((x1.v + x2.v) as int) % p);
}

/// Every `fq` value is canonical.
pub proof fn lemma_fq_wf(x: int)
    ensures
        fq(x).wf(),
{
    lemma_mod_bound(x, P as int);
}

} // verus!
use vstd::prelude::*;

verus! {

/// Products and sums of field values are canonical.
pub proof fn lemma_fq_mul_wf(a: Fq, b: Fq)
    ensures
        fq_mul(a, b).wf(),
{
    lemma_fq_wf((a.v as int) * (b.v as int));
}

pub proof fn lemma_fq_add_wf(a: Fq, b: Fq)
    ensures
        fq_add(a, b).wf(),
{
    lemma_fq_wf(a.v + b.v);
}

/// Right distributivity, from commutativity and left distributivity.
pub proof fn lemma_fq_mul_distrib_right(a: Fq, b: Fq, c: Fq)
    ensures
        fq_mul(fq_add(a, b), c) == fq_add(fq_mul(a, c), fq_mul(b, c)),
{
    lemma_fq_mul_comm(fq_add(a, b), c);
    lemma_fq_mul_distrib(c, a, b);
    lemma_fq_mul_comm(c, a);
    lemma_fq_mul_comm(c, b);
}

/// Pull a scalar factor through a product.
pub proof fn lemma_fq_mul_scalar_pull(s: Fq, a: Fq, b: Fq)
    ensures
        fq_mul(a, fq_mul(s, b)) == fq_mul(s, fq_mul(a, b)),
{
    lemma_fq_mul_assoc(a, s, b);
    lemma_fq_mul_comm(a, s);
    lemma_fq_mul_assoc(s, a, b);
}

/// Multiplication in `Fq2` is commutative.
pub proof fn lemma_fq2_mul_comm(a: Fq2, b: Fq2)
    ensures
        fq2_mul(a, b) == fq2_mul(b, a),
{
    lemma_fq_mul_comm(a.c0, b.c0);
    lemma_fq_mul_comm(a.c1, b.c1);
    lemma_fq_mul_comm(a.c0, b.c1);
    lemma_fq_mul_comm(a.c1, b.c0);
    lemma_fq_add_comm(fq_mul(b.c0, a.c1), fq_mul(b.c1, a.c0));
}

/// Multiplication distributes over addition in `Fq2`.
pub proof fn lemma_fq2_mul_distrib(a: Fq2, b: Fq2, c: Fq2)
    ensures
        fq2_mul(a, fq2_add(b, c)) == fq2_add(fq2_mul(a, b), fq2_mul(a, c)),
{
    let six = fq(6);
    lemma_fq_mul_distrib(a.c0, b.c0, c.c0);
    lemma_fq_mul_distrib(a.c1, b.c1, c.c1);
    lemma_fq_mul_distrib(six, fq_mul(a.c1, b.c1), fq_mul(a.c1, c.c1));
    lemma_fq_mul_distrib(a.c0, b.c1, c.c1);
    lemma_fq_mul_distrib(a.c1, b.c0, c.c0);
    lemma_fq_mul_wf(a.c0, b.c0);
    lemma_fq_mul_wf(a.c0, c.c0);
    lemma_fq_mul_wf(six, fq_mul(a.c1, b.c1));
    lemma_fq_mul_wf(six, fq_mul(a.c1, c.c1));
    lemma_fq_mul_wf(a.c0, b.c1);
    lemma_fq_mul_wf(a.c0, c.c1);
    lemma_fq_mul_wf(a.c1, b.c0);
    lemma_fq_mul_wf(a.c1, c.c0);
    lemma_fq_add_swap4(
        fq_mul(a.c0, b.c0),
        fq_mul(a.c0, c.c0),
        fq_mul(six, fq_mul(a.c1, b.c1)),
        fq_mul(six, fq_mul(a.c1, c.c1)),
    );
    lemma_fq_add_swap4(
        fq_mul(a.c0, b.c1),
        fq_mul(a.c0, c.c1),
        fq_mul(a.c1, b.c0),
        fq_mul(a.c1, c.c0),
    );
}

/// One is the multiplicative identity of `Fq2`.
pub proof fn lemma_fq2_mul_one(a: Fq2)
    requires
        a.wf(),
    ensures
        fq2_mul(a, Fq2 { c0: fq_one(), c1: fq_zero() }) == a,
{
    let six = fq(6);
    lemma_fq_mul_one(a.c0);
    lemma_fq_mul_zero(a.c1);
    lemma_fq_mul_zero(six);
    lemma_fq_mul_zero(a.c0);
    lemma_fq_mul_one(a.c1);
    lemma_fq_add_zero(a.c0);
    lemma_fq_add_zero(a.c1);
    assert(fq_mul(six, fq_mul(a.c1, fq_zero())) == fq_zero()) by {
        lemma_fq_mul_zero(a.c1);
        lemma_fq_mul_zero(six);
    }
    lemma_fq_add_comm(fq_mul(a.c0, fq_zero()), fq_mul(a.c1, fq_one()));
    lemma_fq_add_zero(fq_mul(a.c1, fq_one()));
}

/// Multiplication in `Fq2` is associative.
pub proof fn lemma_fq2_mul_assoc(a: Fq2, b: Fq2, c: Fq2)
    ensures
        fq2_mul(fq2_mul(a, b), c) == fq2_mul(a, fq2_mul(b, c)),
{
    let six = fq(6);
    let a0 = a.c0;
    let a1 = a.c1;
    let b0 = b.c0;
    let b1 = b.c1;
    let c0 = c.c0;
    let c1 = c.c1;
    // c0 component: four triple products on each side
    let ta = fq_mul(fq_mul(a0, b0), c0);
    let tb = fq_mul(six, fq_mul(fq_mul(a1, b1), c0));
    let tc = fq_mul(six, fq_mul(fq_mul(a0, b1), c1));
    let td = fq_mul(six, fq_mul(fq_mul(a1, b0), c1));
    assert(fq2_mul(fq2_mul(a, b), c).c0 == fq_add(fq_add(ta, tb), fq_add(tc, td))) by {
        lemma_fq_mul_distrib_right(fq_mul(a0, b0), fq_mul(six, fq_mul(a1, b1)), c0);
        lemma_fq_mul_distrib_right(fq_mul(a0, b1), fq_mul(a1, b0), c1);
        lemma_fq_mul_distrib(six, fq_mul(fq_mul(a0, b1), c1), fq_mul(fq_mul(a1, b0), c1));
        lemma_fq_mul_comm(fq_mul(six, fq_mul(a1, b1)), c0);
        lemma_fq_mul_scalar_pull(six, c0, fq_mul(a1, b1));
        lemma_fq_mul_comm(c0, fq_mul(a1, b1));
        lemma_fq_mul_comm(fq_mul(a1, b1), c0);
    }
    assert(fq2_mul(a, fq2_mul(b, c)).c0 == fq_add(fq_add(ta, tc), fq_add(td, tb))) by {
        lemma_fq_mul_distrib(a0, fq_mul(b0, c0), fq_mul(six, fq_mul(b1, c1)));
        lemma_fq_mul_distrib(a1, fq_mul(b0, c1), fq_mul(b1, c0));
        lemma_fq_mul_distrib(six, fq_mul(a1, fq_mul(b0, c1)), fq_mul(a1, fq_mul(b1, c0)));
        lemma_fq_mul_assoc(a0, b0, c0);
        lemma_fq_mul_scalar_pull(six, a0, fq_mul(b1, c1));
        lemma_fq_mul_assoc(a0, b1, c1);
        lemma_fq_mul_assoc(a1, b0, c1);
        lemma_fq_mul_assoc(a1, b1, c0);
    }
    assert(fq_add(fq_add(ta, tb), fq_add(tc, td)) == fq_add(fq_add(ta, tc), fq_add(td, tb))) by {
        lemma_fq_wf(ta.v as int);
        lemma_fq_wf(tb.v as int);
        lemma_fq_wf(tc.v as int);
        lemma_fq_wf(td.v as int);
        lemma_fq_add_swap4(ta, tb, tc, td);
        lemma_fq_add_comm(tb, td);
    }
    // c1 component
    let te = fq_mul(fq_mul(a0, b0), c1);
    let tf = fq_mul(six, fq_mul(fq_mul(a1, b1), c1));
    let tg = fq_mul(fq_mul(a0, b1), c0);
    let th = fq_mul(fq_mul(a1, b0), c0);
    assert(fq2_mul(fq2_mul(a, b), c).c1 == fq_add(fq_add(te, tf), fq_add(tg, th))) by {
        lemma_fq_mul_distrib_right(fq_mul(a0, b0), fq_mul(six, fq_mul(a1, b1)), c1);
        lemma_fq_mul_distrib_right(fq_mul(a0, b1), fq_mul(a1, b0), c0);
        lemma_fq_mul_comm(fq_mul(six, fq_mul(a1, b1)), c1);
        lemma_fq_mul_scalar_pull(six, c1, fq_mul(a1, b1));
        lemma_fq_mul_comm(c1, fq_mul(a1, b1));
        lemma_fq_mul_comm(fq_mul(a1, b1), c1);
    }
    assert(fq2_mul(a, fq2_mul(b, c)).c1 == fq_add(fq_add(te, tg), fq_add(th, tf))) by {
        lemma_fq_mul_distrib(a0, fq_mul(b0, c1), fq_mul(b1, c0));
        lemma_fq_mul_distrib(a1, fq_mul(b0, c0), fq_mul(six, fq_mul(b1, c1)));
        lemma_fq_mul_assoc(a0, b0, c1);
        lemma_fq_mul_assoc(a0, b1, c0);
        lemma_fq_mul_assoc(a1, b0, c0);
        lemma_fq_mul_scalar_pull(a1, six, fq_mul(b1, c1));
        lemma_fq_mul_scalar_pull(six, a1, fq_mul(b1, c1));
        lemma_fq_mul_assoc(a1, b1, c1);
    }
    assert(fq_add(fq_add(te, tf), fq_add(tg, th)) == fq_add(fq_add(te, tg), fq_add(th, tf))) by {
        lemma_fq_wf(te.v as int);
        lemma_fq_wf(tf.v as int);
        lemma_fq_wf(tg.v as int);
        lemma_fq_wf(th.v as int);
        lemma_fq_add_swap4(te, tf, tg, th);
        lemma_fq_add_comm(tf, th);
    }
}

} // verus!
use vstd::prelude::*;

verus! {

/// Addition facts lifted to `Fq2`.
pub proof fn lemma_fq2_add_comm(a: Fq2, b: Fq2)
    ensures
        fq2_add(a, b) == fq2_add(b, a),
{
}

pub proof fn lemma_fq2_add_swap4(x1: Fq2, x2: Fq2, y1: Fq2, y2: Fq2)
    requires
        x1.wf(),
        x2.wf(),
        y1.wf(),
        y2.wf(),
    ensures
        fq2_add(fq2_add(x1, x2), fq2_add(y1, y2)) == fq2_add(fq2_add(x1, y1), fq2_add(x2, y2)),
{
    lemma_fq_add_swap4(x1.c0, x2.c0, y1.c0, y2.c0);
    lemma_fq_add_swap4(x1.c1, x2.c1, y1.c1, y2.c1);
}

pub proof fn lemma_fq2_mul_wf(a: Fq2, b: Fq2)
    ensures
        fq2_mul(a, b).wf(),
{
    lemma_fq_add_wf(fq_mul(a.c0, b.c0), fq_mul(fq(6), fq_mul(a.c1, b.c1)));
    lemma_fq_add_wf(fq_mul(a.c0, b.c1), fq_mul(a.c1, b.c0));
}

pub proof fn lemma_fq2_nonres_wf(a: Fq2)
    requires
        a.wf(),
    ensures
        fq2_mul_nonres(a).wf(),
{
    lemma_fq_mul_wf(fq(6), a.c1);
}

/// The non-residue action distributes over addition.
pub proof fn lemma_fq2_nonres_add(x: Fq2, y: Fq2)
    ensures
        fq2_mul_nonres(fq2_add(x, y)) == fq2_add(fq2_mul_nonres(x), fq2_mul_nonres(y)),
{
    lemma_fq_mul_distrib(fq(6), x.c1, y.c1);
}

/// The non-residue action commutes with multiplication.
pub proof fn lemma_fq2_nonres_mul(x: Fq2, y: Fq2)
    ensures
        fq2_mul_nonres(fq2_mul(x, y)) == fq2_mul(fq2_mul_nonres(x), y),
{
    let six = fq(6);
    // c0: 6 (x0 y1 + x1 y0) == (6 x1) y0 + 6 (x0 y1)
    lemma_fq_mul_distrib(six, fq_mul(x.c0, y.c1), fq_mul(x.c1, y.c0));
    lemma_fq_mul_comm(fq_mul(six, x.c1), y.c0);
    lemma_fq_mul_scalar_pull(six, y.c0, x.c1);
    lemma_fq_mul_comm(y.c0, x.c1);
    lemma_fq_mul_comm(x.c1, y.c0);
    lemma_fq_add_comm(fq_mul(six, fq_mul(x.c0, y.c1)), fq_mul(six, fq_mul(x.c1, y.c0)));
    // c1: x0 y0 + 6 (x1 y1) == (6 x1) y1 + x0 y0
    lemma_fq_mul_comm(fq_mul(six, x.c1), y.c1);
    lemma_fq_mul_scalar_pull(six, y.c1, x.c1);
    lemma_fq_mul_comm(y.c1, x.c1);
    lemma_fq_mul_comm(x.c1, y.c1);
    lemma_fq_add_comm(fq_mul(x.c0, y.c0), fq_mul(six, fq_mul(x.c1, y.c1)));
}

/// And with multiplication on the right factor.
pub proof fn lemma_fq2_nonres_mul_right(x: Fq2, y: Fq2)
    ensures
        fq2_mul(x, fq2_mul_nonres(y)) == fq2_mul_nonres(fq2_mul(x, y)),
{
    lemma_fq2_mul_comm(x, fq2_mul_nonres(y));
    lemma_fq2_nonres_mul(y, x);
    lemma_fq2_mul_comm(y, x);
}

/// Multiplication in `Fq4` is commutative.
pub proof fn lemma_fq4_mul_comm(a: Fq4, b: Fq4)
    ensures
        fq4_mul(a, b) == fq4_mul(b, a),
{
    lemma_fq2_mul_comm(a.c0, b.c0);
    lemma_fq2_mul_comm(a.c1, b.c1);
    lemma_fq2_mul_comm(a.c0, b.c1);
    lemma_fq2_mul_comm(a.c1, b.c0);
    lemma_fq2_add_comm(fq2_mul(b.c0, a.c1), fq2_mul(b.c1, a.c0));
}

/// Multiplication distributes over addition in `Fq4`.
pub proof fn lemma_fq4_mul_distrib(a: Fq4, b: Fq4, c: Fq4)
    ensures
        fq4_mul(a, fq4_add(b, c)) == fq4_add(fq4_mul(a, b), fq4_mul(a, c)),
{
    lemma_fq2_mul_distrib(a.c0, b.c0, c.c0);
    lemma_fq2_mul_distrib(a.c1, b.c1, c.c1);
    lemma_fq2_nonres_add(fq2_mul(a.c1, b.c1), fq2_mul(a.c1, c.c1));
    lemma_fq2_mul_distrib(a.c0, b.c1, c.c1);
    lemma_fq2_mul_distrib(a.c1, b.c0, c.c0);
    lemma_fq2_mul_wf(a.c0, b.c0);
    lemma_fq2_mul_wf(a.c0, c.c0);
    lemma_fq2_mul_wf(a.c1, b.c1);
    lemma_fq2_mul_wf(a.c1, c.c1);
    lemma_fq2_nonres_wf(fq2_mul(a.c1, b.c1));
    lemma_fq2_nonres_wf(fq2_mul(a.c1, c.c1));
    lemma_fq2_mul_wf(a.c0, b.c1);
    lemma_fq2_mul_wf(a.c0, c.c1);
    lemma_fq2_mul_wf(a.c1, b.c0);
    lemma_fq2_mul_wf(a.c1, c.c0);
    lemma_fq2_add_swap4(
        fq2_mul(a.c0, b.c0),
        fq2_mul(a.c0, c.c0),
        fq2_mul_nonres(fq2_mul(a.c1, b.c1)),
        fq2_mul_nonres(fq2_mul(a.c1, c.c1)),
    );
    lemma_fq2_add_swap4(
        fq2_mul(a.c0, b.c1),
        fq2_mul(a.c0, c.c1),
        fq2_mul(a.c1, b.c0),
        fq2_mul(a.c1, c.c0),
    );
}

/// One is the multiplicative identity of `Fq4`.
pub proof fn lemma_fq4_mul_one(a: Fq4)
    requires
        a.wf(),
    ensures
        fq4_mul(a, fq4_one()) == a,
{
    lemma_fq2_mul_one(a.c0);
    lemma_fq2_mul_one(a.c1);
    // the cross terms vanish against the zero component
    let z2 = fq2_zero();
    assert(fq2_mul(a.c0, z2) == z2) by {
        lemma_fq_mul_zero(a.c0.c0);
        lemma_fq_mul_zero(a.c0.c1);
        lemma_fq_mul_zero(fq(6));
        lemma_fq_add_zero(fq_zero());
        assert(fq_mul(fq(6), fq_mul(a.c0.c1, fq_zero())) == fq_zero()) by {
            lemma_fq_mul_zero(a.c0.c1);
            lemma_fq_mul_zero(fq(6));
        }
    }
    assert(fq2_mul(a.c1, z2) == z2) by {
        lemma_fq_mul_zero(a.c1.c0);
        lemma_fq_mul_zero(a.c1.c1);
        lemma_fq_mul_zero(fq(6));
        lemma_fq_add_zero(fq_zero());
        assert(fq_mul(fq(6), fq_mul(a.c1.c1, fq_zero())) == fq_zero()) by {
            lemma_fq_mul_zero(a.c1.c1);
            lemma_fq_mul_zero(fq(6));
        }
    }
    assert(fq2_mul_nonres(z2) == z2) by {
        lemma_fq_mul_zero(fq(6));
    }
    assert(fq2_add(a.c0, z2) == a.c0) by {
        lemma_fq_add_zero(a.c0.c0);
        lemma_fq_add_zero(a.c0.c1);
    }
    let one2 = Fq2 { c0: fq_one(), c1: fq_zero() };
    assert(fq2_mul(a.c1, one2) == a.c1) by {
        lemma_fq2_mul_one(a.c1);
    }
    assert(fq2_add(fq2_mul(a.c0, z2), fq2_mul(a.c1, one2)) == a.c1) by {
        lemma_fq_add_comm(fq_mul(a.c0.c0, fq_zero()), a.c1.c0);
        lemma_fq_add_zero(a.c1.c0);
        lemma_fq_add_zero(a.c1.c1);
        lemma_fq_add_comm(fq2_mul(a.c0, z2).c0, a.c1.c0);
        lemma_fq_add_comm(fq2_mul(a.c0, z2).c1, a.c1.c1);
    }
}

/// Multiplication in `Fq4` is associative.
pub proof fn lemma_fq4_mul_assoc(a: Fq4, b: Fq4, c: Fq4)
    ensures
        fq4_mul(fq4_mul(a, b), c) == fq4_mul(a, fq4_mul(b, c)),
{
    let a0 = a.c0;
    let a1 = a.c1;
    let b0 = b.c0;
    let b1 = b.c1;
    let c0 = c.c0;
    let c1 = c.c1;
    // c0 component
    let ta = fq2_mul(fq2_mul(a0, b0), c0);
    let tb = fq2_mul_nonres(fq2_mul(fq2_mul(a1, b1), c0));
    let tc = fq2_mul_nonres(fq2_mul(fq2_mul(a0, b1), c1));
    let td = fq2_mul_nonres(fq2_mul(fq2_mul(a1, b0), c1));
    assert(fq4_mul(fq4_mul(a, b), c).c0 == fq2_add(fq2_add(ta, tb), fq2_add(tc, td))) by {
        lemma_fq2_mul_distrib(c0, fq2_mul(a0, b0), fq2_mul_nonres(fq2_mul(a1, b1)));
        lemma_fq2_mul_comm(fq2_add(fq2_mul(a0, b0), fq2_mul_nonres(fq2_mul(a1, b1))), c0);
        lemma_fq2_mul_comm(c0, fq2_mul(a0, b0));
        lemma_fq2_mul_comm(c0, fq2_mul_nonres(fq2_mul(a1, b1)));
        lemma_fq2_nonres_mul(fq2_mul(a1, b1), c0);
        lemma_fq2_mul_distrib(c1, fq2_mul(a0, b1), fq2_mul(a1, b0));
        lemma_fq2_mul_comm(fq2_add(fq2_mul(a0, b1), fq2_mul(a1, b0)), c1);
        lemma_fq2_mul_comm(c1, fq2_mul(a0, b1));
        lemma_fq2_mul_comm(c1, fq2_mul(a1, b0));
        lemma_fq2_nonres_add(fq2_mul(fq2_mul(a0, b1), c1), fq2_mul(fq2_mul(a1, b0), c1));
    }
    assert(fq4_mul(a, fq4_mul(b, c)).c0 == fq2_add(fq2_add(ta, tc), fq2_add(td, tb))) by {
        lemma_fq2_mul_distrib(a0, fq2_mul(b0, c0), fq2_mul_nonres(fq2_mul(b1, c1)));
        lemma_fq2_mul_distrib(a1, fq2_mul(b0, c1), fq2_mul(b1, c0));
        lemma_fq2_nonres_add(fq2_mul(a1, fq2_mul(b0, c1)), fq2_mul(a1, fq2_mul(b1, c0)));
        lemma_fq2_mul_assoc(a0, b0, c0);
        lemma_fq2_nonres_mul_right(a0, fq2_mul(b1, c1));
        lemma_fq2_mul_assoc(a0, b1, c1);
        lemma_fq2_mul_assoc(a1, b0, c1);
        lemma_fq2_mul_assoc(a1, b1, c0);
        lemma_fq2_nonres_mul(fq2_mul(a1, b1), c0);
        assert(fq2_mul_nonres(fq2_mul(fq2_mul(a1, b1), c0)) == tb);
    }
    assert(fq2_add(fq2_add(ta, tb), fq2_add(tc, td)) == fq2_add(fq2_add(ta, tc), fq2_add(td, tb)))
        by {
        lemma_fq2_mul_wf(fq2_mul(a0, b0), c0);
        lemma_fq2_mul_wf(fq2_mul(a1, b1), c0);
        lemma_fq2_nonres_wf(fq2_mul(fq2_mul(a1, b1), c0));
        lemma_fq2_mul_wf(fq2_mul(a0, b1), c1);
        lemma_fq2_nonres_wf(fq2_mul(fq2_mul(a0, b1), c1));
        lemma_fq2_mul_wf(fq2_mul(a1, b0), c1);
        lemma_fq2_nonres_wf(fq2_mul(fq2_mul(a1, b0), c1));
        lemma_fq2_add_swap4(ta, tb, tc, td);
        lemma_fq2_add_comm(tb, td);
    }
    // c1 component
    let te = fq2_mul(fq2_mul(a0, b0), c1);
    let tf = fq2_mul_nonres(fq2_mul(fq2_mul(a1, b1), c1));
    let tg = fq2_mul(fq2_mul(a0, b1), c0);
    let th = fq2_mul(fq2_mul(a1, b0), c0);
    assert(fq4_mul(fq4_mul(a, b), c).c1 == fq2_add(fq2_add(te, tf), fq2_add(tg, th))) by {
        lemma_fq2_mul_distrib(c1, fq2_mul(a0, b0), fq2_mul_nonres(fq2_mul(a1, b1)));
        lemma_fq2_mul_comm(fq2_add(fq2_mul(a0, b0), fq2_mul_nonres(fq2_mul(a1, b1))), c1);
        lemma_fq2_mul_comm(c1, fq2_mul(a0, b0));
        lemma_fq2_mul_comm(c1, fq2_mul_nonres(fq2_mul(a1, b1)));
        lemma_fq2_nonres_mul(fq2_mul(a1, b1), c1);
        lemma_fq2_mul_distrib(c0, fq2_mul(a0, b1), fq2_mul(a1, b0));
        lemma_fq2_mul_comm(fq2_add(fq2_mul(a0, b1), fq2_mul(a1, b0)), c0);
        lemma_fq2_mul_comm(c0, fq2_mul(a0, b1));
        lemma_fq2_mul_comm(c0, fq2_mul(a1, b0));
    }
    assert(fq4_mul(a, fq4_mul(b, c)).c1 == fq2_add(fq2_add(te, tg), fq2_add(th, tf))) by {
        lemma_fq2_mul_distrib(a0, fq2_mul(b0, c1), fq2_mul(b1, c0));
        lemma_fq2_mul_distrib(a1, fq2_mul(b0, c0), fq2_mul_nonres(fq2_mul(b1, c1)));
        lemma_fq2_mul_assoc(a0, b0, c1);
        lemma_fq2_mul_assoc(a0, b1, c0);
        lemma_fq2_mul_assoc(a1, b0, c0);
        lemma_fq2_nonres_mul_right(a1, fq2_mul(b1, c1));
        lemma_fq2_mul_assoc(a1, b1, c1);
        lemma_fq2_nonres_mul(fq2_mul(a1, b1), c1);
        assert(fq2_mul_nonres(fq2_mul(fq2_mul(a1, b1), c1)) == tf);
    }
    assert(fq2_add(fq2_add(te, tf), fq2_add(tg, th)) == fq2_add(fq2_add(te, tg), fq2_add(th, tf)))
        by {
        lemma_fq2_mul_wf(fq2_mul(a0, b0), c1);
        lemma_fq2_mul_wf(fq2_mul(a1, b1), c1);
        lemma_fq2_nonres_wf(fq2_mul(fq2_mul(a1, b1), c1));
        lemma_fq2_mul_wf(fq2_mul(a0, b1), c0);
        lemma_fq2_mul_wf(fq2_mul(a1, b0), c0);
        lemma_fq2_add_swap4(te, tf, tg, th);
        lemma_fq2_add_comm(tf, th);
    }
}

} // verus!
use vstd::prelude::*;

verus! {

pub proof fn lemma_fq4_mul_wf(a: Fq4, b: Fq4)
    ensures
        fq4_mul(a, b).wf(),
{
    lemma_fq2_mul_wf(a.c0, b.c0);
    lemma_fq2_mul_wf(a.c1, b.c1);
    lemma_fq2_nonres_wf(fq2_mul(a.c1, b.c1));
    lemma_fq2_mul_wf(a.c0, b.c1);
    lemma_fq2_mul_wf(a.c1, b.c0);
    lemma_fq_add_wf(
        fq2_mul(a.c0, b.c0).c0,
        fq2_mul_nonres(fq2_mul(a.c1, b.c1)).c0,
    );
    lemma_fq_add_wf(
        fq2_mul(a.c0, b.c0).c1,
        fq2_mul_nonres(fq2_mul(a.c1, b.c1)).c1,
    );
    lemma_fq_add_wf(fq2_mul(a.c0, b.c1).c0, fq2_mul(a.c1, b.c0).c0);
    lemma_fq_add_wf(fq2_mul(a.c0, b.c1).c1, fq2_mul(a.c1, b.c0).c1);
}

/// Right distributivity in `Fq4`.
pub proof fn lemma_fq4_mul_distrib_right(a: Fq4, b: Fq4, c: Fq4)
    ensures
        fq4_mul(fq4_add(a, b), c) == fq4_add(fq4_mul(a, c), fq4_mul(b, c)),
{
    lemma_fq4_mul_comm(fq4_add(a, b), c);
    lemma_fq4_mul_distrib(c, a, b);
    lemma_fq4_mul_comm(c, a);
    lemma_fq4_mul_comm(c, b);
}

} // verus!
