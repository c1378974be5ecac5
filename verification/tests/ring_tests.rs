use greyhound::ring::{ModQ, Poly, D};

#[test]
fn add_sub_roundtrip() {
    let q = ModQ::new(229); // toy prime (229 = 5 mod 8)
    let mut a = Poly::zero();
    a.c[0] = 5;
    a.c[1] = 7;
    a.c[63] = 200;
    let mut b = Poly::zero();
    b.c[0] = 228;
    b.c[1] = 10;
    b.c[10] = 3;

    let s = a.add(&b, &q);
    let t = s.sub(&b, &q);
    assert_eq!(t, a);
    assert_eq!(s.c[0], 4); // (5 + 228) mod 229 = 4
}

#[test]
fn mul_wrap_and_negate() {
    let q = ModQ::new(229);
    // (X^63) * X = -1  (since X^64 = -1)
    let x63 = Poly::monomial(63, 1, &q);
    let x = Poly::monomial(1, 1, &q);
    let prod = x63.mul(&x, &q);
    let one = Poly::monomial(0, 1, &q);
    assert_eq!(prod, one.neg(&q));
}

#[test]
fn sigma_inv_is_involution() {
    let q = ModQ::new(229);
    let mut a = Poly::zero();
    for i in 0..D {
        a.c[i] = (i as u32 * 3 + 7) % q.q;
    }
    let b = a.sigma_inv(&q);
    let c = b.sigma_inv(&q);
    assert_eq!(a, c);
    // constant term preserved
    assert_eq!(a.ct(), b.ct());
}

#[test]
fn wrap_constant_term_value() {
    let q = ModQ::new(229);
    let prod = Poly::monomial(63, 1, &q).mul(&Poly::monomial(1, 1, &q), &q);
    assert_eq!(prod.c[0], 228);
    for i in 1..D {
        assert_eq!(prod.c[i], 0);
    }
}

#[test]
fn from_coeffs_normalizes() {
    let q = ModQ::new(229);
    let mut cs = [0u32; D];
    cs[0] = 229;
    cs[1] = 230;
    cs[2] = 1000;
    let p = Poly::from_coeffs(cs, &q);
    assert_eq!(p.c[0], 0);
    assert_eq!(p.c[1], 1);
    assert_eq!(p.c[2], 1000 % 229);
}
