use greyhound::ring::{ModQ, Poly, D};
use greyhound::gadget::{
    base_covers, digits_for, decompose_coeff_balanced, recompose_coeff, decompose_poly_balanced,
    recompose_poly, g_inv_vec, g_fwd_vec,
};

fn signed(x: u32, q: &ModQ) -> i64 {
    let q64 = q.q as i64;
    let xi = x as i64;
    if xi > q64 / 2 { xi - q64 } else { xi }
}

#[test]
fn coeff_roundtrip_balanced() {
    let q = ModQ::new(229); // 229 = 5 (mod 8)
    let base = 6;
    let delta = digits_for(&q, base);
    for x in [0, 1, 2, 3, 114, 228] {
        let digs = decompose_coeff_balanced(x, base, delta, &q);
        let x2 = recompose_coeff(&digs, base, &q);
        assert_eq!(x, x2);
        // Bound check: |digit| <= floor(b/2)
        let half = (base / 2) as i64;
        for i in 0..delta {
            let si = signed(digs[i], &q);
            assert!(si.abs() <= half);
        }
    }
}

#[test]
fn poly_roundtrip_balanced() {
    let q = ModQ::new(229);
    let base = 7;
    let delta = digits_for(&q, base);

    let mut p = Poly::zero();
    for i in 0..D {
        p.c[i] = ((i * 17 + 5) as u32) % q.q;
    }

    let ds = decompose_poly_balanced(&p, base, delta, &q);
    let p2 = recompose_poly(&ds, base, &q);
    assert_eq!(p, p2);

    // Norm bound for digits
    let half = (base / 2) as i64;
    for d in ds {
        for &coeff in &d.c {
            let s = signed(coeff, &q).abs();
            assert!(s <= half);
        }
    }
}

#[test]
fn vec_roundtrip() {
    let q = ModQ::new(229);
    let base = 6;
    let n = 3;

    // Make a small vector in R_q^n
    let mut v = Vec::new();
    for j in 0..n {
        let mut p = Poly::zero();
        for i in 0..D {
            p.c[i] = (i as u32 + j as u32 * 9) % q.q;
        }
        v.push(p);
    }
    let digits = g_inv_vec(&v, base, &q);
    let rec = g_fwd_vec(&digits, n, base, &q);
    assert_eq!(v, rec);
}

#[test]
fn digit_counts_for_toy_bases() {
    let q = ModQ::new(229);
    assert_eq!(digits_for(&q, 6), 4); // 6^3 = 216 < 229 <= 6^4
    assert_eq!(digits_for(&q, 7), 3); // 7^2 = 49 < 229 <= 7^3
    assert_eq!(digits_for(&q, 2), 8); // 2^7 = 128 < 229 <= 2^8
}

#[test]
fn half_value_balanced_digits() {
    let q = ModQ::new(229);
    let base = 6;
    let delta = digits_for(&q, base);
    let digs = decompose_coeff_balanced(114, base, delta, &q);
    let back = recompose_coeff(&digs, base, &q);
    assert_eq!(back, 114);
    for i in 0..delta {
        let si = signed(digs[i], &q);
        assert!((-3..=3).contains(&si));
    }
}

#[test]
fn coverage_of_toy_bases() {
    // odd bases always cover; an even base can miss the most negative
    // representatives when the modulus sits close to a base power
    let q = ModQ::new(229);
    assert!(base_covers(&q, 6));
    assert!(base_covers(&q, 7));
    let q31 = ModQ::new(31);
    assert!(base_covers(&q31, 7));
    assert!(!base_covers(&q31, 6));
}
