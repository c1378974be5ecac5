use greyhound::ring::{ModQ, Poly, D};
use greyhound::commit::{commit, CommitParams, MatrixRq};
use greyhound::proto::{
    build_linear_system, compute_w, compute_z, derive_w_hat_and_v, sample_challenge, ProtoParams,
};
use greyhound::pcs::clone_commit_params;
use greyhound::transcript::Fs;
use rand::{rngs::StdRng, Rng, SeedableRng};

#[test]
fn eq3_is_satisfied() {
    let q = ModQ { q: 229 };
    let n = 2usize;
    let m = 3usize;
    let r = 2usize;
    let b0 = 6u32;
    let b1 = 7u32;
    let pp = CommitParams::gen(q, n, m, r, b0, b1, 7);

    let mut rng = StdRng::seed_from_u64(9);
    // random f columns
    let mut f_cols: Vec<Vec<Poly>> = Vec::with_capacity(r);
    for _ in 0..r {
        let mut col = Vec::with_capacity(m);
        for _ in 0..m {
            let mut c = [0u32; D];
            for t in 0..D {
                c[t] = rng.gen::<u32>() % q.q;
            }
            col.push(Poly::from_coeffs(c, &q));
        }
        f_cols.push(col);
    }

    // commit -> u, s, that
    let cm = commit(&pp, &f_cols);
    let u = cm.u;
    let dec = cm.dec;

    // random a (delta0 m) and b (r)
    let mut a = Vec::with_capacity(pp.delta0 * m);
    for _ in 0..(pp.delta0 * m) {
        let mut c = [0u32; D];
        for t in 0..D {
            c[t] = rng.gen::<u32>() % q.q;
        }
        a.push(Poly::from_coeffs(c, &q));
    }
    let mut b = Vec::with_capacity(r);
    for _ in 0..r {
        let mut c = [0u32; D];
        for t in 0..D {
            c[t] = rng.gen::<u32>() % q.q;
        }
        b.push(Poly::from_coeffs(c, &q));
    }

    // w, what, v with random D
    let dm = MatrixRq::random(n, pp.delta1 * r, &q, &mut rng);
    let w = compute_w(&a, &dec.s, &q);
    let (what, v) = derive_w_hat_and_v(&pp, &dm, &w);

    // FS challenge c
    let mut fs = Fs::new(b"eq3-test");
    fs.absorb_polyvec(&v);
    fs.absorb_polyvec(&u);
    let c = sample_challenge(&fs, &pp);

    // z and y
    let z = compute_z(&dec.s, &c, &q);
    let mut y = Poly::zero();
    for i in 0..r {
        y = y.add(&w[i].mul(&b[i], &q), &q);
    }

    // build P,h and verify P*[what || that || z] = h
    let proto = ProtoParams { commit: clone_commit_params(&pp), d_mat: dm };
    let (p_mat, h) = build_linear_system(&proto, &a, &b, &u, &v, &y, &c);

    let mut zfull: Vec<Poly> = Vec::new();
    for p in &what {
        zfull.push(p.clone());
    }
    for p in &dec.that {
        zfull.push(p.clone());
    }
    for p in &z {
        zfull.push(p.clone());
    }

    let lhs = p_mat.mul_vec(&zfull, &q);
    assert_eq!(lhs, h);
}
