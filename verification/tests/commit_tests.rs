use greyhound::ring::{ModQ, Poly, D};
use greyhound::commit::{commit, commit_hiding, open_check, open_check_hiding, CommitParams, Decommit};
use rand::{rngs::StdRng, Rng, SeedableRng};

fn rand_poly(q: &ModQ, rng: &mut StdRng) -> Poly {
    let mut c = [0u32; D];
    for j in 0..D {
        c[j] = rng.gen::<u32>() % q.q;
    }
    Poly::from_coeffs(c, q)
}

#[test]
fn commit_open_roundtrip() {
    // Tiny toy parameters (for speed).
    let q = ModQ::new(229);
    let n = 2usize; // SIS rank
    let m = 3usize; // rows in each f_i
    let r = 2usize; // number of columns
    let b0 = 6u32;
    let b1 = 7u32;

    let mut rng = StdRng::seed_from_u64(7);
    let pp = CommitParams::gen(q, n, m, r, b0, b1, 42);

    // Random message matrix S = [f1 | f2] with each f_i in R_q^m
    let mut f_cols: Vec<Vec<Poly>> = Vec::with_capacity(r);
    for _ in 0..r {
        let mut col = Vec::with_capacity(m);
        for _ in 0..m {
            col.push(rand_poly(&q, &mut rng));
        }
        f_cols.push(col);
    }

    let c = commit(&pp, &f_cols);
    assert!(open_check(&pp, &c.u, &f_cols, &c.dec));
}

#[test]
fn commit_hiding_open_roundtrip() {
    let q = ModQ::new(229);
    let pp = CommitParams::gen(q, 2, 3, 2, 6, 7, 42).with_hiding(4, 99);
    let mut rng = StdRng::seed_from_u64(7);
    let mut f_cols: Vec<Vec<Poly>> = Vec::new();
    for _ in 0..2 {
        let mut col = Vec::new();
        for _ in 0..3 {
            col.push(rand_poly(&q, &mut rng));
        }
        f_cols.push(col);
    }
    let c = commit_hiding(&pp, &f_cols);
    assert!(open_check_hiding(&pp, &c.u, &f_cols, &c.dec));
}

#[test]
fn open_check_rejects_tampering() {
    let q = ModQ::new(229);
    let pp = CommitParams::gen(q, 2, 3, 2, 6, 7, 42);
    let mut rng = StdRng::seed_from_u64(7);
    let mut f_cols: Vec<Vec<Poly>> = Vec::new();
    for _ in 0..2 {
        let mut col = Vec::new();
        for _ in 0..3 {
            col.push(rand_poly(&q, &mut rng));
        }
        f_cols.push(col);
    }
    let c = commit(&pp, &f_cols);
    // tamper with the commitment value
    let mut u_bad = Vec::new();
    for p in &c.u {
        u_bad.push(p.clone());
    }
    u_bad[0].c[0] = (u_bad[0].c[0] + 1) % q.q;
    assert!(!open_check(&pp, &u_bad, &f_cols, &c.dec));
    // wrong shape is rejected, not a panic
    let dec_bad = Decommit { s: Vec::new(), that: Vec::new(), r: None };
    assert!(!open_check(&pp, &c.u, &f_cols, &dec_bad));
}
