use greyhound::field::{Fq, Fq2, Fq4, P};
use greyhound::mle::{mle_from_vec_fq4, mle_from_table, MleFq4};
use greyhound::sumcheck::{
    build_f0_table_beta8, build_f_table, compute_a_eq_sum_i_prime_fq4, fix_tau_eval_table,
    sumcheck_prove_from_table, sumcheck_prove_from_table_range, sumcheck_round_once,
    sumcheck_round_once_range,
};
use rand::{rngs::StdRng, Rng, SeedableRng};

fn rand_fq(rng: &mut StdRng) -> Fq {
    Fq::from_u64(rng.gen::<u64>())
}

fn rand_fq4(rng: &mut StdRng) -> Fq4 {
    Fq4 {
        c0: Fq2 { c0: rand_fq(rng), c1: rand_fq(rng) },
        c1: Fq2 { c0: rand_fq(rng), c1: rand_fq(rng) },
    }
}

fn sum4(v: &[Fq4]) -> Fq4 {
    let mut acc = Fq4::zero();
    for x in v {
        acc = acc.add(*x);
    }
    acc
}

fn sum1(v: &[Fq]) -> Fq {
    let mut acc = Fq::zero();
    for x in v {
        acc = acc.add(*x);
    }
    acc
}

#[test]
fn sumcheck_rounds_all_consistent() {
    // A random 2^k table with uniformly random challenges passes every
    // per-round equality; tampering any pair fails it.
    let k = 12usize;
    let mut rng = StdRng::seed_from_u64(31);
    let mut layer: Vec<Fq4> = (0..(1usize << k)).map(|_| rand_fq4(&mut rng)).collect();
    let rs: Vec<Fq4> = (0..k).map(|_| rand_fq4(&mut rng)).collect();
    let claim = sum4(&layer);
    let prf = sumcheck_prove_from_table(layer.clone(), &rs);
    assert_eq!(prf.g_coeffs.len(), k);
    for (round, (&(c0, c1), &r)) in prf.g_coeffs.iter().zip(rs.iter()).enumerate() {
        let lhs_round_sum = sum4(&layer);
        let rhs_round_sum = c0.add(c0.add(c1));
        if round == 0 {
            assert_eq!(lhs_round_sum, claim);
        }
        assert_eq!(lhs_round_sum, rhs_round_sum);
        let (_, next) = sumcheck_round_once(&layer, r);
        let g_at_r = c0.add(c1.mul(r));
        let next_sum = sum4(&next);
        assert_eq!(g_at_r, next_sum);
        layer = next;
    }
    assert_eq!(layer[0], prf.final_eval);
}

#[test]
fn sumcheck_tampered_pair_fails() {
    let k = 6usize;
    let mut rng = StdRng::seed_from_u64(77);
    let layer: Vec<Fq4> = (0..(1usize << k)).map(|_| rand_fq4(&mut rng)).collect();
    let rs: Vec<Fq4> = (0..k).map(|_| rand_fq4(&mut rng)).collect();
    let prf = sumcheck_prove_from_table(layer.clone(), &rs);
    // tamper with c0 of the first round
    let (c0, c1) = prf.g_coeffs[0];
    let c0_bad = c0.add(Fq4::one());
    let lhs = sum4(&layer);
    let rhs_bad = c0_bad.add(c0_bad.add(c1));
    assert_ne!(lhs, rhs_bad);
}

#[test]
fn range_sumcheck_rounds_consistent() {
    let k = 8usize;
    let mut rng = StdRng::seed_from_u64(5);
    let mut layer: Vec<Fq> = (0..(1usize << k)).map(|_| rand_fq(&mut rng)).collect();
    let rs: Vec<Fq> = (0..k).map(|_| rand_fq(&mut rng)).collect();
    let prf = sumcheck_prove_from_table_range(layer.clone(), &rs);
    for (&(c0, c1), &r) in prf.g_coeffs.iter().zip(rs.iter()) {
        let lhs = sum1(&layer);
        assert_eq!(lhs, c0.add(c0.add(c1)));
        let (_, next) = sumcheck_round_once_range(&layer, r);
        assert_eq!(c0.add(c1.mul(r)), sum1(&next));
        layer = next;
    }
    assert_eq!(layer[0], prf.final_eval);
}

#[test]
fn norm_bound_table_sums_to_zero_in_range() {
    // w in {-8..8}^N: the range table must sum to zero.
    let mk = 5usize;
    let md = 6usize;
    let n = 1usize << (mk + md);
    let mut rng = StdRng::seed_from_u64(123);
    let w: Vec<Fq> = (0..n)
        .map(|_| {
            let t: i32 = (rng.gen::<u32>() % 17) as i32 - 8;
            if t >= 0 {
                Fq { v: t as u32 }
            } else {
                Fq { v: P - ((-t) as u32) }
            }
        })
        .collect();
    let tau: Vec<Fq> = (0..(mk + md)).map(|_| rand_fq(&mut rng)).collect();
    let table = build_f0_table_beta8(&w, mk, md, &tau);
    assert_eq!(sum1(&table), Fq::zero());
}

#[test]
fn norm_bound_detects_out_of_range() {
    let mk = 4usize;
    let md = 4usize;
    let n = 1usize << (mk + md);
    let mut rng = StdRng::seed_from_u64(321);
    let mut w: Vec<Fq> = (0..n).map(|_| Fq::from_u64((rng.gen::<u32>() % 17) as u64)).collect();
    // canonicalize into {-8..8} representatives
    for x in w.iter_mut() {
        let t = x.v % 17;
        *x = if t <= 8 { Fq { v: t } } else { Fq { v: P - (17 - t) } };
    }
    // zero sum in range
    let tau: Vec<Fq> = (0..(mk + md)).map(|_| rand_fq(&mut rng)).collect();
    let table = build_f0_table_beta8(&w, mk, md, &tau);
    assert_eq!(sum1(&table), Fq::zero());
    // a single out-of-range coefficient makes it nonzero (w.h.p. over tau)
    w[3] = Fq { v: 9 };
    let table2 = build_f0_table_beta8(&w, mk, md, &tau);
    assert_ne!(sum1(&table2), Fq::zero());
}

#[test]
fn fix_tau_folds_pairs() {
    // two-entry table folded at tau: a (1 - t) + b t
    let mut rng = StdRng::seed_from_u64(9);
    let a = rand_fq4(&mut rng);
    let b = rand_fq4(&mut rng);
    let t = rand_fq4(&mut rng);
    let mle = mle_from_vec_fq4(&vec![a, b]);
    let folded = fix_tau_eval_table(&mle, &vec![t]);
    let expect = a.mul(Fq4::one().sub(t)).add(b.mul(t));
    assert_eq!(folded.len(), 1);
    assert_eq!(folded[0], expect);
}

#[test]
fn constraint_sum_selects_row_zero() {
    // all 32 row polynomials are the constant 1; with i_prime = 0 the
    // equality weights select exactly row 0, so the claimed sum is 1.
    let ts: Vec<Vec<Fq>> = (0..32).map(|_| vec![Fq::one()]).collect();
    let mut rng = StdRng::seed_from_u64(2);
    let alpha = rand_fq4(&mut rng);
    let i_prime = vec![Fq4::zero(); 5];
    let a = compute_a_eq_sum_i_prime_fq4(&ts, alpha, &i_prime);
    assert_eq!(a, Fq4::one());
}

#[test]
fn f_table_cell_formula() {
    let mk = 1usize;
    let md = 1usize;
    let mut rng = StdRng::seed_from_u64(8);
    let w: Vec<Fq> = (0..4).map(|_| rand_fq(&mut rng)).collect();
    let alpha: Vec<Fq4> = (0..2).map(|_| rand_fq4(&mut rng)).collect();
    let mkt: Vec<Fq4> = (0..2).map(|_| rand_fq4(&mut rng)).collect();
    let out = build_f_table(&w, &alpha, &mkt, mk, md);
    assert_eq!(out.len(), 4);
    // idx = k + (d << mk)
    for d in 0..2usize {
        for k in 0..2usize {
            let idx = k + (d << mk);
            let lift = greyhound::field::fq2fq4(w[idx]);
            let expect = lift.mul(alpha[d].mul(mkt[k]));
            assert_eq!(out[idx], expect);
        }
    }
}

#[test]
fn mle_from_table_packs_row_major() {
    let rows = vec![
        vec![Fq { v: 1 }, Fq { v: 2 }],
        vec![Fq { v: 3 }, Fq { v: 4 }],
        vec![Fq { v: 5 }, Fq { v: 6 }],
    ];
    let m = mle_from_table(&rows);
    // rows_p2 = 4: idx = i + (j << 2)
    assert_eq!(m.evals.len(), 8);
    assert_eq!(m.evals[0].v, 1);
    assert_eq!(m.evals[1].v, 3);
    assert_eq!(m.evals[2].v, 5);
    assert_eq!(m.evals[3].v, 0);
    assert_eq!(m.evals[4].v, 2);
    assert_eq!(m.evals[5].v, 4);
    assert_eq!(m.evals[6].v, 6);
    assert_eq!(m.evals[7].v, 0);
}

#[test]
fn mle_vec_pads_with_zero() {
    let mut rng = StdRng::seed_from_u64(4);
    let vals: Vec<Fq4> = (0..5).map(|_| rand_fq4(&mut rng)).collect();
    let m: MleFq4 = mle_from_vec_fq4(&vals);
    assert_eq!(m.num_vars, 3);
    assert_eq!(m.evals.len(), 8);
    for i in 0..5 {
        assert_eq!(m.evals[i], vals[i]);
    }
    for i in 5..8 {
        assert_eq!(m.evals[i], Fq4::zero());
    }
}
