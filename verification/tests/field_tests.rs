use greyhound::field::{fq2fq4, Fq, Fq2, Fq4, P};

#[test]
fn fq_arithmetic_wraps_at_modulus() {
    let a = Fq { v: P - 1 };
    let b = Fq { v: 2 };
    assert_eq!(a.add(b).v, 1);
    assert_eq!(b.sub(a).v, 3);
    assert_eq!(a.neg().v, 1);
    assert_eq!(Fq::from_u64(P as u64).v, 0);
}

#[test]
fn fq2_nonresidue_is_six() {
    // U * U = 6 in Fq2: (0 + 1 U)^2 = 6
    let u = Fq2 { c0: Fq::zero(), c1: Fq::one() };
    let sq = u.mul(u);
    assert_eq!(sq.c0.v, 6);
    assert_eq!(sq.c1.v, 0);
}

#[test]
fn fq4_nonresidue_is_u() {
    // V * V = U in Fq4: (0 + 1 V)^2 = (0 + 1 U, 0)
    let v = Fq4 { c0: Fq2 { c0: Fq::zero(), c1: Fq::zero() }, c1: Fq2 { c0: Fq::one(), c1: Fq::zero() } };
    let sq = v.mul(v);
    assert_eq!(sq.c0.c0.v, 0);
    assert_eq!(sq.c0.c1.v, 1);
    assert_eq!(sq.c1.c0.v, 0);
    assert_eq!(sq.c1.c1.v, 0);
}

#[test]
fn embedding_keeps_base_component() {
    let a = Fq { v: 17 };
    let e = fq2fq4(a);
    assert_eq!(e.c0.c0.v, 17);
    assert_eq!(e.c0.c1.v, 0);
    assert_eq!(e.c1.c0.v, 0);
    assert_eq!(e.c1.c1.v, 0);
    // the embedding is a ring homomorphism on a sample product
    let b = Fq { v: 99 };
    assert_eq!(fq2fq4(a.mul(b)), fq2fq4(a).mul(fq2fq4(b)));
}
