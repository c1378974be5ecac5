use greyhound::ring::ModQ;
use greyhound::pcs::{
    commit, eval_prove, eval_verify, eval_prove_hvzk_clear, eval_verify_hvzk_clear, setup_toy,
    setup_hvzk_toy, embed_x, pow_poly,
};
use rand::{rngs::StdRng, Rng, SeedableRng};

#[test]
fn pcs_single_eval_end_to_end() {
    // Toy q and params (q = 5 mod 8).
    let q = ModQ { q: 229 };
    let n = 1 << 12; // small N for the test
    let pp = setup_toy(n, q, 123);

    // Random polynomial f with deg < N
    let mut rng = StdRng::seed_from_u64(42);
    let mut f = vec![0u32; n];
    for i in 0..n {
        f[i] = rng.gen::<u32>() % q.q;
    }

    // Commit
    let (comm, dec) = commit(&pp, &f);

    // Pick x in Z_q
    let x = 7u32;

    // Prove and verify f(x) = y
    let (y_field, prf) = eval_prove(&pp, &comm, x, &f, &dec);
    assert!(eval_verify(&pp, &comm, x, y_field, &prf));
}

#[test]
fn pcs_eval_hvzk_end_to_end_clear() {
    let q = ModQ { q: 229 };
    let n = 1 << 12;
    let l = 4usize;
    let params = setup_hvzk_toy(n, q, 77, l, 4, 4);

    let mut rng = StdRng::seed_from_u64(2025);
    let mut f = vec![0u32; n];
    for i in 0..n {
        f[i] = rng.gen::<u32>() % q.q;
    }

    let x = 7u32;
    let (comm, prf) = eval_prove_hvzk_clear(&params, x, &f);
    assert!(eval_verify_hvzk_clear(&params, &comm, x, &prf));
}

#[test]
fn eval_matches_direct_evaluation() {
    // the ring evaluation equals the field evaluation for a single-block
    // polynomial (degree bound up to the ring dimension)
    let q = ModQ { q: 229 };
    let n = 64;
    let pp = setup_toy(n, q, 5);
    let mut rng = StdRng::seed_from_u64(11);
    let mut f = vec![0u32; n];
    for i in 0..n {
        f[i] = rng.gen::<u32>() % q.q;
    }
    let (comm, dec) = commit(&pp, &f);
    let x = 13u32;
    let (y_field, _prf) = eval_prove(&pp, &comm, x, &f, &dec);
    // Horner evaluation of f at x mod q
    let mut acc: u64 = 0;
    for i in (0..n).rev() {
        acc = (acc * x as u64 + f[i] as u64) % q.q as u64;
    }
    assert_eq!(y_field as u64, acc);
}

#[test]
fn eval_verify_rejects_wrong_value() {
    let q = ModQ { q: 229 };
    let n = 1 << 10;
    let pp = setup_toy(n, q, 5);
    let mut rng = StdRng::seed_from_u64(11);
    let mut f = vec![0u32; n];
    for i in 0..n {
        f[i] = rng.gen::<u32>() % q.q;
    }
    let (comm, dec) = commit(&pp, &f);
    let x = 13u32;
    let (y_field, prf) = eval_prove(&pp, &comm, x, &f, &dec);
    let wrong = (y_field + 1) % q.q;
    assert!(!eval_verify(&pp, &comm, x, wrong, &prf));
}

#[test]
fn embed_and_power_shapes() {
    let q = ModQ { q: 229 };
    let e = embed_x(&q, 3);
    assert_eq!(e.c[0], 1);
    assert_eq!(e.c[1], 3);
    assert_eq!(e.c[2], 9);
    assert_eq!(e.c[3], 27);
    let one = pow_poly(embed_x(&q, 3), 0, &q);
    assert_eq!(one.c[0], 1);
    for i in 1..64 {
        assert_eq!(one.c[i], 0);
    }
}
