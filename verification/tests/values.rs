//! Exact values.

use zkie::committed::{
    affine_raw, layer_norm_raw, rms_norm_raw, scale_raw, silu_raw, softmax_raw,
};
use zkie::field::{Goldilocks, XorShift64, P};
use zkie::fixed_point::{from_i16, from_i32, from_i64, to_i16, to_i32, to_i64};
use zkie::goldilocks::{add_mod, mul_mod, AddRow, MulRow, GOLDILOCKS_P};
use zkie::integers::div_round;
use zkie::lookup;
use zkie::matmul;
use zkie::mle::{eq_evals, eval, partial_eval};
use zkie::sumcheck::{interpolate_cubic, prove, prove3, verify, RoundPoly3};
use zkie::sumcheck_verify::eval_poly;

fn e(v: u64) -> Goldilocks {
    Goldilocks::from_u64(v)
}

fn es(v: &[u64]) -> Vec<Goldilocks> {
    v.iter().map(|&x| e(x)).collect()
}

fn ws(v: &[Goldilocks]) -> Vec<u64> {
    v.iter().map(|x| x.as_canonical_u64()).collect()
}

#[test]
fn field_operations_wrap_at_the_modulus() {
    assert_eq!((e(P - 1) + e(2)).as_canonical_u64(), 1);
    assert_eq!((e(1) - e(2)).as_canonical_u64(), P - 1);
    assert_eq!((e(1 << 32) * e(1 << 32)).as_canonical_u64(), (1 << 32) - 1);
    assert_eq!(e(P).as_canonical_u64(), 0);
    assert_eq!(e(u64::MAX).as_canonical_u64(), (1 << 32) - 2);
    assert_eq!(e(P), Goldilocks::zero());
    assert_eq!(e(2).inverse().as_canonical_u64(), (P + 1) / 2);
    assert_eq!(e(3).inverse() * e(3), Goldilocks::one());
    assert_eq!(Goldilocks::from_bool(true), Goldilocks::one());
    assert_eq!(Goldilocks::from_bool(false), Goldilocks::zero());
    assert_eq!(Goldilocks::two(), e(2));
}

#[test]
fn xorshift_steps() {
    let mut rng = XorShift64::new(0x1234);
    assert_eq!(rng.next_u64(), 0xdc1b_4b41_dcf4_a915);
    assert_eq!(rng.next_u64(), 0x9864_78b5_bd4b_a507);
    assert_eq!(rng.field().as_canonical_u64(), 0x4259_ca73_d762_938d);
}

#[test]
fn signed_embeddings() {
    assert_eq!(from_i16(-1).as_canonical_u64(), P - 1);
    assert_eq!(from_i32(i32::MIN).as_canonical_u64(), P - (1 << 31));
    assert_eq!(from_i64(-5).as_canonical_u64(), P - 5);
    assert_eq!(from_i64(7).as_canonical_u64(), 7);
    assert_eq!(to_i16(e(P - 3)), -3);
    assert_eq!(to_i32(e(P - 1)), -1);
    assert_eq!(to_i64(e(P - 1)), -1);
    assert_eq!(to_i64(e(41)), 41);
    for x in [i16::MIN, -1, 0, 1, i16::MAX] {
        assert_eq!(to_i16(from_i16(x)), x);
    }
    for x in [i32::MIN, -1, 0, 1, i32::MAX] {
        assert_eq!(to_i32(from_i32(x)), x);
    }
    // The field has fewer elements than there are `i64` values.
    let lowest = i64::MIN + (1 << 32);
    assert_eq!(to_i64(from_i64(lowest)), lowest);
    assert_ne!(to_i64(from_i64(i64::MIN + 1)), i64::MIN + 1);
}

#[test]
fn extensions_of_small_tables() {
    // 1, 2, 3, 5 at (x, y): 1 + x + 2y + xy.
    let v = es(&[1, 2, 3, 5]);
    assert_eq!(eval(&v, &es(&[10, 100])).as_canonical_u64(), 1 + 10 + 200 + 1000);
    assert_eq!(ws(&partial_eval(&v, &es(&[10]))), vec![11, 23]);
    assert_eq!(eval(&v, &es(&[1, 0])).as_canonical_u64(), 2);
    assert_eq!(ws(&eq_evals(&es(&[3, 5]))), vec![8, P - 12, P - 10, 15]);
    assert_eq!(ws(&eq_evals(&[])), vec![1]);
}

#[test]
fn round_polynomials() {
    // (1 + x)(3 + x) = 3 + 4x + x^2.
    let (f, h) = (es(&[1, 2]), es(&[3, 4]));
    let proof = prove(&f, &h, e(11), &es(&[5]));
    let p = proof.rounds[0];
    assert_eq!(ws(&[p.c0, p.c1, p.c2]), vec![3, 4, 1]);
    assert_eq!(p.eval(e(5)).as_canonical_u64(), 48);
    assert_eq!(ws(&[proof.f_eval, proof.h_eval]), vec![6, 8]);
    assert!(verify(&proof, e(11), &es(&[5]), e(6), e(8)));
    assert!(!verify(&proof, e(12), &es(&[5]), e(6), e(8)));
    assert!(!verify(&proof, e(11), &es(&[5]), e(6), e(9)));
    assert!(!verify(&proof, e(11), &[], e(6), e(8)));
    // (1 + x)(3 + x)(2 + x) = 6 + 11x + 6x^2 + x^3.
    let proof = prove3(&f, &h, &es(&[2, 3]), e(30), &es(&[5]));
    let p = proof.rounds[0];
    assert_eq!(ws(&[p.c0, p.c1, p.c2, p.c3]), vec![6, 11, 6, 1]);
    assert_eq!(p.eval(e(2)).as_canonical_u64(), 60);
}

#[test]
fn a_matrix_product_reduces_to_its_factors() {
    // A = [1 2; 3 4], stored transposed, and B = [5 6; 7 8].
    let (at, b) = (es(&[1, 3, 2, 4]), es(&[5, 6, 7, 8]));
    let c = es(&[19, 22, 43, 50]);
    let (u, v, r) = (es(&[10]), es(&[20]), es(&[30]));
    let proof = matmul::prove(&at, &b, &c, 2, 2, 2, &u, &v, &r);
    // C at (v, u): 19 + 3v + 24u + 4vu.
    assert_eq!(proof.claimed.as_canonical_u64(), 19 + 60 + 240 + 800);
    let f = eval(&at, &es(&[10, 30]));
    let h = eval(&b, &es(&[20, 30]));
    assert!(matmul::verify(&proof, &r, f, h));
    let wrong = matmul::prove(&at, &b, &es(&[19, 22, 43, 51]), 2, 2, 2, &u, &v, &r);
    assert!(!matmul::verify(&wrong, &r, f, h));
}

#[test]
fn lookup_sums() {
    // One lookup of entry 1 of (7, 9), with alpha = 2 and beta = 3.
    let table = es(&[7, 9]);
    let proof = lookup::prove(&[1], &es(&[9]), &table, e(2), e(3));
    assert_eq!(proof.lhs, e(30).inverse());
    assert_eq!(proof.rhs, e(30).inverse());
    assert!(lookup::verify(&proof));
    let wrong = lookup::prove(&[1], &es(&[8]), &table, e(2), e(3));
    assert_eq!(wrong.lhs, e(27).inverse());
    assert!(!lookup::verify(&wrong));
}

#[test]
fn rounding_is_half_up() {
    let cases: [(i128, i128, i128); 8] = [
        (5, 2, 3),
        (-5, 2, -2),
        (7, 4, 2),
        (6, 4, 2),
        (-6, 4, -1),
        (-7, 4, -2),
        (0, 9, 0),
        (-1, 1, -1),
    ];
    for (a, b, q) in cases {
        assert_eq!(div_round(a, b), q);
    }
}

#[test]
fn non_native_operations() {
    assert_eq!(GOLDILOCKS_P, P);
    assert_eq!(mul_mod(P - 1, P - 1), (1, P - 2));
    assert_eq!(mul_mod(u64::MAX, 1), (0xffff_fffe, 1));
    // Two factors beyond the modulus: the quotient has 65 bits.
    assert_eq!(mul_mod(u64::MAX, u64::MAX), (18446744056529682436, 4294967293));
    assert_eq!(add_mod(P - 1, P - 1), (P - 2, 1));
    assert_eq!(add_mod(u64::MAX, u64::MAX), (8589934588, 2));
    assert_eq!(add_mod(0, 0), (0, 0));
    assert_eq!(eval_poly(1, 2, 3, 10), 321);
    assert_eq!(eval_poly(0, 0, 1, P - 1), 1);
}

#[test]
fn rows_meet_their_constraints() {
    assert!(MulRow::new(P - 1, u64::MAX).is_satisfied());
    assert!(MulRow { a: 5, b: 7, c: 35, q: 0 }.is_satisfied());
    assert!(!MulRow { a: 5, b: 7, c: 36, q: 0 }.is_satisfied());
    assert!(!MulRow { a: 5, b: 7, c: 35, q: 1 }.is_satisfied());
    // A product that is not canonical still meets the equation.
    assert!(MulRow { a: P, b: 1, c: P, q: 0 }.is_satisfied());
    assert!(!MulRow::new(u64::MAX, u64::MAX).is_satisfied());
    assert!(AddRow::new(P - 1, P - 1).is_satisfied());
    assert!(AddRow { a: P - 1, b: 2, c: 1, ov: 1 }.is_satisfied());
    assert!(!AddRow { a: P - 1, b: 2, c: 1, ov: 0 }.is_satisfied());
    assert!(!AddRow::new(u64::MAX, u64::MAX).is_satisfied());
}

#[test]
fn table_selections_are_clamped() {
    let table = es(&[100, 101, 102, 103]);
    let x: Vec<Goldilocks> = [-9i32, -2, 0, 1, 9].iter().map(|&v| from_i32(v)).collect();
    let (indices, values) = silu_raw(&x, &table, 2);
    assert_eq!(indices, vec![0, 0, 2, 3, 3]);
    assert_eq!(ws(&values), vec![100, 100, 102, 103, 103]);
    let (values, indices, sum) = softmax_raw(&x, &table, 2);
    assert_eq!(indices, vec![0, 0, 2, 3, 3]);
    assert_eq!(ws(&values), vec![100, 100, 102, 103, 103]);
    assert_eq!(sum.as_canonical_u64(), 508);
}

#[test]
fn rescaled_tensors() {
    let input: Vec<Goldilocks> =
        [65536i64, 98304, -98304, -65536].iter().map(|&v| from_i64(v)).collect();
    let bias: Vec<Goldilocks> = [0i32, 10, 0, -1].iter().map(|&v| from_i32(v)).collect();
    let read = |v: Vec<Goldilocks>| v.iter().map(|&x| to_i32(x)).collect::<Vec<i32>>();
    assert_eq!(read(affine_raw(&input, &bias, 16, false)), vec![1, 12, -1, -2]);
    assert_eq!(read(affine_raw(&input, &bias, 16, true)), vec![1, 12, 0, 0]);
    assert_eq!(read(scale_raw(&input, 131072, &bias)), vec![131072, 196618, -196608, -131073]);
}

#[test]
fn norms() {
    let x: Vec<Goldilocks> = [65536i32, 196608, 0, 0].iter().map(|&v| from_i32(v)).collect();
    let w = es(&[2, 3, 5, 7]);
    let table: Vec<Goldilocks> = (0..100_000u64).map(|i| e(i + 1)).collect();
    // Mean 2 and variance 1, at scale 2^16 and 2^32.
    let (raw, mean, rstd, index) = layer_norm_raw(&x, &w, 2, &table);
    assert_eq!(mean.as_canonical_u64(), 131072);
    assert_eq!(index, 16384);
    assert_eq!(rstd.as_canonical_u64(), 16385);
    assert_eq!(to_i64(raw[0]), -65536 * 16385 * 2);
    assert_eq!(to_i64(raw[1]), 65536 * 16385 * 3);
    assert_eq!(to_i64(raw[2]), -131072 * 16385 * 5);
    // Mean square 5.
    let (raw, rstd, index) = rms_norm_raw(&x, &w, 2, &table);
    assert_eq!(index, 5 * 16384);
    assert_eq!(rstd.as_canonical_u64(), 5 * 16384 + 1);
    assert_eq!(to_i64(raw[1]), 196608 * (5 * 16384 + 1) * 3);
    assert_eq!(to_i64(raw[3]), 0);
    // The index is shifted down, not rounded: the variance 160000 is below 2^18.
    let x: Vec<Goldilocks> = [-400i32, 400].iter().map(|&v| from_i32(v)).collect();
    let (_, mean, _, index) = layer_norm_raw(&x, &w[..2], 2, &table);
    assert_eq!((mean.as_canonical_u64(), index), (0, 0));
    assert_eq!(rms_norm_raw(&x, &w[..2], 2, &table).2, 0);
    let x: Vec<Goldilocks> = [-512i32, 512].iter().map(|&v| from_i32(v)).collect();
    assert_eq!(layer_norm_raw(&x, &w[..2], 2, &table).3, 1);
}

#[test]
fn cubics_through_four_values() {
    // 6 + 11t + 6t^2 + t^3 at 0, 1, 2, 3.
    let p = interpolate_cubic(e(6), e(24), e(60), e(120));
    assert_eq!(ws(&[p.c0, p.c1, p.c2, p.c3]), vec![6, 11, 6, 1]);
    let mut rng = XorShift64::new(11);
    for _ in 0..50 {
        let (a, b, c, d) = (rng.field(), rng.field(), rng.field(), rng.field());
        let p = interpolate_cubic(a, b, c, d);
        assert_eq!([p.eval(e(0)), p.eval(e(1)), p.eval(e(2)), p.eval(e(3))], [a, b, c, d]);
        let q = RoundPoly3 { c0: a, c1: b, c2: c, c3: d };
        let r = interpolate_cubic(q.eval(e(0)), q.eval(e(1)), q.eval(e(2)), q.eval(e(3)));
        assert_eq!(ws(&[r.c0, r.c1, r.c2, r.c3]), ws(&[a, b, c, d]));
    }
}
