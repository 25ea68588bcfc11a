//! Laws of the library, on concrete values.

use zkie::committed::{commit, prove_add, prove_matmul, prove_softmax_rows};
use zkie::cuda::buffer::Allocation;
use zkie::cuda::dft::CudaDft;
use zkie::field::{Goldilocks, XorShift64, P};
use zkie::fixed_point::from_i32;
use zkie::gelu;
use zkie::lookup;
use zkie::mle::{eval, partial_eval};
use zkie::rmsnorm;
use zkie::softmax::{softmax, verify, SoftmaxProof};
use zkie::sumcheck;
use zkie::sumcheck_verify::{claim_is_valid, RoundClaim, Row, SumcheckCircuit, SumcheckClaim};
use zkie::whir::{Commitment, Whir, WhirError};

fn e(v: u64) -> Goldilocks {
    Goldilocks::from_u64(v)
}

fn random(n: usize, rng: &mut XorShift64) -> Vec<Goldilocks> {
    (0..n).map(|_| rng.field()).collect()
}

#[test]
fn products_of_nonzero_elements_are_not_zero() {
    let mut rng = XorShift64::new(3);
    for _ in 0..100 {
        let (a, b) = (rng.field(), rng.field());
        assert_ne!(a * b, Goldilocks::zero());
        assert_eq!(a * a.inverse(), Goldilocks::one());
    }
    // The factors of P - 1 and P + 1 are no zero divisors either.
    assert_ne!(e(1 << 32) * e((1 << 32) - 1), Goldilocks::zero());
}

#[test]
fn different_tables_rarely_agree() {
    let mut rng = XorShift64::new(4);
    let f = random(16, &mut rng);
    let mut g = f.clone();
    g[5] = g[5] + Goldilocks::one();
    for _ in 0..100 {
        let r = random(4, &mut rng);
        assert_ne!(eval(&f, &r), eval(&g, &r));
    }
    // They agree where the changed entry has no weight.
    assert_eq!(eval(&f, &[e(0), e(9), e(9), e(9)]), eval(&g, &[e(0), e(9), e(9), e(9)]));
    // Exactly one value of the first variable merges these two.
    let (a, b) = (vec![e(1), e(4)], vec![e(2), e(2)]);
    let third = e(3).inverse();
    assert_eq!(partial_eval(&a, &[third]), partial_eval(&b, &[third]));
    assert_ne!(partial_eval(&a, &[e(3)]), partial_eval(&b, &[e(3)]));
}

#[test]
fn a_lying_prover_is_caught() {
    // The claim is off by one, and the prover shifts its first polynomial so that
    // the sum fits; the challenge tells the difference.
    let mut rng = XorShift64::new(5);
    let (f, h) = (random(8, &mut rng), random(8, &mut rng));
    let r = random(3, &mut rng);
    let mut claim = Goldilocks::zero();
    for i in 0..8 {
        claim = claim + f[i] * h[i];
    }
    let mut proof = sumcheck::prove(&f, &h, claim, &r);
    assert!(sumcheck::verify(&proof, claim, &r, proof.f_eval, proof.h_eval));
    let lie = claim + Goldilocks::one();
    proof.rounds[0].c1 = proof.rounds[0].c1 + Goldilocks::one();
    assert!(!sumcheck::verify(&proof, lie, &r, proof.f_eval, proof.h_eval));
    // At the challenge zero it would not have been.
    let r = vec![Goldilocks::zero(), r[1], r[2]];
    let mut proof = sumcheck::prove(&f, &h, claim, &r);
    proof.rounds[0].c1 = proof.rounds[0].c1 + Goldilocks::one();
    assert!(sumcheck::verify(&proof, lie, &r, proof.f_eval, proof.h_eval));
}

#[test]
fn a_wrong_lookup_is_caught() {
    let mut rng = XorShift64::new(6);
    let table = random(8, &mut rng);
    let indices = [3u32, 3, 1];
    let mut y: Vec<Goldilocks> = indices.iter().map(|&i| table[i as usize]).collect();
    for _ in 0..20 {
        let (alpha, beta) = (rng.field(), rng.field());
        assert!(lookup::verify(&lookup::prove(&indices, &y, &table, alpha, beta)));
    }
    y[1] = table[2];
    for _ in 0..20 {
        let (alpha, beta) = (rng.field(), rng.field());
        assert!(!lookup::verify(&lookup::prove(&indices, &y, &table, alpha, beta)));
    }
    // With beta zero the outputs do not matter.
    assert!(lookup::verify(&lookup::prove(&indices, &y, &table, rng.field(), e(0))));
}

#[test]
fn only_the_normalized_outputs_verify() {
    let mut rng = XorShift64::new(7);
    let table = random(8, &mut rng);
    let indices = [1u32, 4, 4, 7];
    let (y, proof) = softmax(&indices, &table, rng.field(), rng.field());
    assert!(verify(&indices, &table, &y, &proof));
    let sum = y.iter().fold(Goldilocks::zero(), |a, &v| a + v);
    assert_eq!(sum, Goldilocks::one());
    let mut other = y.clone();
    other[0] = y[1];
    other[1] = y[0];
    assert!(!verify(&indices, &table, &other, &proof));
    let lie = SoftmaxProof { lookup: proof.lookup.clone(), sum: proof.sum + Goldilocks::one() };
    assert!(!verify(&indices, &table, &y, &lie));
}

#[test]
fn activations_verify_only_with_table_values() {
    let mut rng = XorShift64::new(8);
    let table = random(8, &mut rng);
    let indices = [1u32, 4, 4, 7];
    let (mut y, proof) = gelu::gelu(&indices, &table, rng.field(), rng.field());
    assert!(gelu::verify(&indices, &table, &y, &proof));
    y[2] = table[3];
    assert!(!gelu::verify(&indices, &table, &y, &proof));
    // An output without an index is not the table value at its index.
    let (y, proof) = gelu::gelu(&[0], &[e(5)], e(1), e(1));
    assert!(gelu::verify(&[0], &[e(5)], &y, &proof));
    assert!(!gelu::verify(&[0], &[e(5)], &[e(5), e(9)], &proof));
    assert!(!gelu::verify(&[0], &[e(5)], &[], &proof));

    let (x, w) = (random(4, &mut rng), random(4, &mut rng));
    let (mut y, proof) = rmsnorm::rms_norm(&x, &w, e(1), 2, &table, rng.field(), rng.field());
    assert!(rmsnorm::verify(&x, &w, &y, e(1), 2, &table, &proof));
    assert!(!rmsnorm::verify(&x, &w, &y, e(2), 2, &table, &proof));
    assert!(!rmsnorm::verify(&x, &w, &y, e(1), 3, &table, &proof));
    assert!(!rmsnorm::verify(&x, &w, &y[..3], e(1), 2, &table, &proof));
    y[0] = y[0] + Goldilocks::one();
    assert!(!rmsnorm::verify(&x, &w, &y, e(1), 2, &table, &proof));
}

#[test]
fn the_transform_is_its_own_inverse_up_to_order() {
    let none = Allocation { code: 1, ptr: 0 };
    let dft = CudaDft::new(none, none);
    let h = 8usize;
    let x: Vec<Goldilocks> = (0..h as u64).map(|i| e(i * i + 1)).collect();
    let twice = dft.dft_batch(dft.dft_batch(x.clone(), 1, None), 1, None);
    for i in 0..h {
        assert_eq!(twice[i], e(h as u64) * x[(h - i) % h]);
    }
    // The powers of a root of unity add up to zero.
    let ones = dft.dft_batch(vec![Goldilocks::one(); h], 1, None);
    assert_eq!(ones[0], e(h as u64));
    assert!(ones[1..].iter().all(|&v| v == Goldilocks::zero()));
}

/// A transcript of one round for `claimed`, with challenge 2.
fn one_round(claimed: u64, f: u64, h: u64) -> SumcheckClaim {
    // p(x) = 3 + 4x + x^2, with p(0) + p(1) = 11 and p(2) = 15.
    let round = RoundClaim { c0: 3, c1: 4, c2: 1, r: 2 };
    SumcheckClaim { rounds: vec![round], claimed, f, h }
}

#[test]
fn the_circuit_decides_the_claim() {
    for (claim, valid) in [
        (one_round(11, 3, 5), true),
        (one_round(12, 3, 5), false),
        (one_round(11, 3, 6), false),
        (one_round(11, 15, 1), true),
    ] {
        assert_eq!(claim_is_valid(&claim), valid);
        let circuit = SumcheckCircuit { claim };
        let layout = circuit.layout();
        assert_eq!(layout.is_satisfied(&[circuit.claim.claimed]), valid);
        assert_eq!(layout.rows.len(), 9);
        assert_eq!(layout.links.len(), 2);
        assert!(matches!(layout.rows[2], Row::Add(row) if row.c == 11));
        assert!(matches!(layout.rows[7], Row::Add(row) if row.c == 15));
    }
    // Another public value does not fit.
    let circuit = SumcheckCircuit { claim: one_round(11, 3, 5) };
    assert!(!circuit.layout().is_satisfied(&[12]));
    let empty = circuit.without_witnesses();
    assert!(empty.claim.rounds.is_empty());
    // A claim beyond the modulus is not canonical and not valid.
    let mut claim = one_round(11, 3, 5);
    claim.claimed = P + 11;
    assert!(!claim_is_valid(&claim));
    // Without rounds the claim is the product.
    let claim = SumcheckClaim { rounds: vec![], claimed: 15, f: 3, h: 5 };
    assert!(claim_is_valid(&claim));
}

#[test]
fn openings_are_bound_to_their_commitment() {
    let mut rng = XorShift64::new(9);
    let whir = Whir::new_testing(5);
    let (f, g) = (random(32, &mut rng), random(32, &mut rng));
    let point = random(5, &mut rng);
    let (cf, pf, protocol) = whir.commit(&f);
    let (cg, _, _) = whir.commit(&g);
    assert_ne!(cf, cg);
    assert_eq!(cf, whir.commit(&f).0);
    let (proof, value) = whir.open(pf.clone(), &protocol, &point);
    assert_eq!(value, eval(&f, &point));
    assert_eq!(whir.verify(&cf, &proof, &protocol, &point), Ok(value));
    assert_eq!(whir.verify(&cg, &proof, &protocol, &point), Err(WhirError::Rejected));
    let other = random(5, &mut rng);
    assert_eq!(whir.verify(&cf, &proof, &protocol, &other), Err(WhirError::Rejected));
    let mut root = cf.root;
    root[0] ^= 1;
    let changed = Commitment { root };
    assert_eq!(whir.verify(&changed, &proof, &protocol, &point), Err(WhirError::Rejected));
    // Every challenge point opens.
    let (proof, value) = whir.open(pf, &protocol, &other);
    assert_eq!(value, eval(&f, &other));
    assert_eq!(whir.verify(&cf, &proof, &protocol, &other), Ok(value));
}

#[test]
fn instances_of_one_size_commit_alike() {
    let mut rng = XorShift64::new(12);
    let (a, b) = (Whir::new_testing(5), Whir::new_testing(5));
    let table = random(32, &mut rng);
    let point = random(5, &mut rng);
    let (root, data, protocol) = a.commit(&table);
    assert_eq!(root, b.commit(&table).0);
    let (proof, value) = a.open(data, &protocol, &point);
    assert_eq!(b.verify(&root, &proof, &protocol, &point), Ok(value));
}

/// Runs the row-wise softmax proof over 32 rows of two scores, with exp values
/// 131071 and 1, for the given output in the second column of the first row.
fn softmax_rows_with(second: i32) -> bool {
    let (whir, whir_row) = (Whir::new_testing(6), Whir::new_testing(5));
    let mut rng = XorShift64::new(1);
    let (n_rows, n_cols) = (32usize, 2usize);
    let ints = |v: Vec<i32>| v.into_iter().map(from_i32).collect::<Vec<Goldilocks>>();
    let exp_table = ints(vec![1, 131071]);
    let scores = ints((0..32).flat_map(|r| [r, r - 1]).collect());
    let c = ints((0..32).collect());
    let shifted = ints((0..32).flat_map(|_| [0, -1]).collect());
    let ev = ints((0..32).flat_map(|_| [131071, 1]).collect());
    let sum = ints(vec![131072; 32]);
    let wide = ints(vec![131072; 64]);
    let mut out = ints((0..32).flat_map(|_| [65536, 1]).collect());
    out[1] = from_i32(second);
    prove_softmax_rows(
        &whir,
        &whir_row,
        &commit(&whir, &scores),
        &scores,
        &commit(&whir_row, &c),
        &c,
        &commit(&whir, &shifted),
        &shifted,
        &commit(&whir, &ev),
        &ev,
        &commit(&whir_row, &sum),
        &sum,
        &commit(&whir, &wide),
        &wide,
        &commit(&whir, &out),
        &out,
        &exp_table,
        1,
        n_rows,
        n_cols,
        e(7),
        e(11),
        &mut rng,
    )
}

#[test]
fn a_tie_is_rounded_up() {
    // 65536 * 1 / 131072 is exactly one half.
    assert!(softmax_rows_with(1));
    assert!(!softmax_rows_with(0));
    assert!(!softmax_rows_with(2));
}

#[test]
fn wrong_layers_are_rejected() {
    let mut rng = XorShift64::new(10);
    let whir = Whir::new_testing(6);
    let (a, b) = (random(64, &mut rng), random(64, &mut rng));
    let mut c: Vec<Goldilocks> = a.iter().zip(&b).map(|(&x, &y)| x + y).collect();
    let (ca, cb) = (commit(&whir, &a), commit(&whir, &b));
    assert!(prove_add(&whir, &ca, &whir, &cb, &whir, &commit(&whir, &c), 64, &mut rng));
    c[63] = c[63] + Goldilocks::one();
    assert!(!prove_add(&whir, &ca, &whir, &cb, &whir, &commit(&whir, &c), 64, &mut rng));

    let mut c = vec![Goldilocks::zero(); 64];
    for i in 0..8 {
        for j in 0..8 {
            for k in 0..8 {
                c[i * 8 + j] = c[i * 8 + j] + a[i * 8 + k] * b[k * 8 + j];
            }
        }
    }
    let cc = commit(&whir, &c);
    let right = prove_matmul(
        &whir, &ca, &whir, &cb, &whir, &cc, &a, &b, &c, 8, 8, 8, &mut rng,
    );
    assert!(right);
    c[0] = c[0] + Goldilocks::one();
    let cc = commit(&whir, &c);
    let wrong = prove_matmul(
        &whir, &ca, &whir, &cb, &whir, &cc, &a, &b, &c, 8, 8, 8, &mut rng,
    );
    assert!(!wrong);
}
