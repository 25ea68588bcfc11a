//! Forged roots are refused, and a refusal leaves the generator where the check that
//! failed left it.

use zkie::committed::{
    commit, layer_norm_raw, prove_add, prove_affine, prove_layer_norm, prove_lookup, prove_matmul,
    prove_relu, prove_rms_norm, prove_scale, prove_softmax, prove_softmax_rows, rms_norm_raw,
    scale_raw, Committed,
};
use zkie::committed::openings::selector;
use zkie::committed::rounding::{
    bit_columns, commit_columns, prove_bits_range, prove_linear_nonneg,
};
use zkie::field::{Goldilocks, XorShift64};
use zkie::fixed_point::{from_i32, from_i64};
use zkie::whir::Whir;

fn random(n: usize, rng: &mut XorShift64) -> Vec<Goldilocks> {
    (0..n).map(|_| rng.field()).collect()
}

fn ints(v: Vec<i32>) -> Vec<Goldilocks> {
    v.into_iter().map(from_i32).collect()
}

/// The commitment to `values`, with another root.
fn forged(whir: &Whir, values: &[Goldilocks]) -> Committed {
    let mut c = commit(whir, values);
    c.commitment.root[3] ^= 1;
    c
}

fn either(whir: &Whir, values: &[Goldilocks], forge: bool) -> Committed {
    if forge {
        forged(whir, values)
    } else {
        commit(whir, values)
    }
}

/// The generator after `draws` elements.
fn drawn(seed: u64, draws: usize) -> u64 {
    let mut rng = XorShift64::new(seed);
    for _ in 0..draws {
        rng.field();
    }
    rng.next_u64()
}

#[test]
fn forged_sums_and_products_are_refused() {
    let mut rng = XorShift64::new(21);
    let whir = Whir::new_testing(6);
    let (a, b) = (random(64, &mut rng), random(64, &mut rng));
    let sum: Vec<Goldilocks> = a.iter().zip(&b).map(|(&x, &y)| x + y).collect();
    let mut product = vec![Goldilocks::zero(); 64];
    for i in 0..8 {
        for j in 0..8 {
            for k in 0..8 {
                product[i * 8 + j] = product[i * 8 + j] + a[i * 8 + k] * b[k * 8 + j];
            }
        }
    }
    for forge in 0..4 {
        let ca = either(&whir, &a, forge == 1);
        let cb = either(&whir, &b, forge == 2);
        let cs = either(&whir, &sum, forge == 3);
        let cp = either(&whir, &product, forge == 3);
        let mut rng = XorShift64::new(5);
        let added = prove_add(&whir, &ca, &whir, &cb, &whir, &cs, 64, &mut rng);
        assert_eq!(added, forge == 0);
        assert_eq!(rng.next_u64(), drawn(5, 6));
        let mut rng = XorShift64::new(5);
        let multiplied = prove_matmul(
            &whir, &ca, &whir, &cb, &whir, &cp, &a, &b, &product, 8, 8, 8, &mut rng,
        );
        assert_eq!(multiplied, forge == 0);
        assert_eq!(rng.next_u64(), drawn(5, 9));
    }
}

#[test]
fn forged_lookups_are_refused() {
    let mut rng = XorShift64::new(22);
    let whir = Whir::new_testing(5);
    let table = random(16, &mut rng);
    let indices: Vec<u32> = (0..32).map(|i| i % 16).collect();
    let x: Vec<Goldilocks> = indices.iter().map(|&i| Goldilocks::from_u64(i as u64)).collect();
    let y: Vec<Goldilocks> = indices.iter().map(|&i| table[i as usize]).collect();
    let (alpha, beta) = (rng.field(), rng.field());
    let run = |cx: &Committed, cy: &Committed, y: &[Goldilocks]| {
        let mut rng = XorShift64::new(6);
        let ok = prove_lookup(
            &whir, cx, &x, &whir, cy, y, &indices, &table, alpha, beta, &mut rng,
        );
        (ok, rng.next_u64())
    };
    let (cx, cy) = (commit(&whir, &x), commit(&whir, &y));
    assert_eq!(run(&cx, &cy, &y), (true, drawn(6, 10)));
    assert_eq!(run(&forged(&whir, &x), &cy, &y), (false, drawn(6, 5)));
    assert_eq!(run(&cx, &forged(&whir, &y), &y), (false, drawn(6, 5)));
    // The plain column is not the committed one.
    let mut wrong = y.clone();
    wrong[3] = wrong[3] + Goldilocks::one();
    assert_eq!(run(&cx, &cy, &wrong), (false, drawn(6, 5)));
    // It is, but it is not the table's.
    assert_eq!(run(&cx, &commit(&whir, &wrong), &wrong), (false, drawn(6, 10)));
}

#[test]
fn forged_rescales_are_refused() {
    let whir = Whir::new_testing(5);
    let input: Vec<Goldilocks> = (0..32i64).map(|i| from_i64((i - 16) * 100_003)).collect();
    let bias = ints(vec![7; 32]);
    let out = scale_raw(&input, 1, &bias);
    for forge in 0..3 {
        let ci = either(&whir, &input, forge == 1);
        let co = either(&whir, &out, forge == 2);
        let mut rng = XorShift64::new(7);
        let ok = prove_scale(&whir, &ci, &input, &whir, &co, &out, 1, &bias, &mut rng);
        assert_eq!((ok, rng.next_u64()), (forge == 0, drawn(7, 5)));
        let mut rng = XorShift64::new(7);
        let ok = prove_affine(&whir, &ci, &input, &whir, &co, &out, &bias, 16, &mut rng);
        assert_eq!((ok, rng.next_u64()), (forge == 0, drawn(7, 5)));
    }
    let positive: Vec<Goldilocks> =
        out.iter().map(|&v| from_i32(zkie::fixed_point::to_i32(v).max(0))).collect();
    let run = |ci: &Committed, co: &Committed| {
        let mut rng = XorShift64::new(7);
        let ok = prove_relu(&whir, ci, &input, &whir, co, &positive, &bias, &mut rng);
        (ok, rng.next_u64())
    };
    let (ci, co) = (commit(&whir, &input), commit(&whir, &positive));
    assert_eq!(run(&ci, &co), (true, drawn(7, 10)));
    assert_eq!(run(&forged(&whir, &input), &co), (false, drawn(7, 5)));
    assert_eq!(run(&ci, &forged(&whir, &positive)), (false, drawn(7, 10)));
    // Another input fails the rescale, another output the last check.
    assert_eq!(run(&co, &co), (false, drawn(7, 5)));
    assert_eq!(run(&ci, &ci), (false, drawn(7, 10)));
}

#[test]
fn forged_ranges_are_refused() {
    let mut rng = XorShift64::new(24);
    let whir = Whir::new_testing(5);
    let values: Vec<i128> = (0..32).collect();
    let plain: Vec<Goldilocks> = (0..32).map(Goldilocks::from_u64).collect();
    let bits = bit_columns(&values, 5);
    let r = random(5, &mut rng);
    let s = selector(&r);
    let value = zkie::mle::eval(&plain, &r);
    let mut c_bits = commit_columns(&whir, &bits);
    assert!(prove_bits_range(&whir, &bits, &c_bits, value, &r, &s));
    assert!(!prove_bits_range(&whir, &bits, &c_bits, value + value, &r, &s));
    // A column of other bits, then of no bits, then a forged one.
    c_bits[2] = commit(&whir, &bits[3]);
    assert!(!prove_bits_range(&whir, &bits, &c_bits, value, &r, &s));
    let mut wrong = bits.clone();
    wrong[2][0] = Goldilocks::from_u64(2);
    let c_wrong = commit_columns(&whir, &wrong);
    assert!(!prove_bits_range(&whir, &wrong, &c_wrong, value, &r, &s));
    c_bits[2] = forged(&whir, &bits[2]);
    assert!(!prove_bits_range(&whir, &bits, &c_bits, value, &r, &s));

    let (one, zero) = (Goldilocks::one(), Goldilocks::zero());
    for forge in 0..3 {
        let cx = either(&whir, &plain, forge == 1);
        let cy = either(&whir, &plain, forge == 2);
        let ok = prove_linear_nonneg(
            &whir, &cx, &plain, &cy, &plain, one, one, zero, &mut rng,
        );
        assert_eq!(ok, forge == 0);
    }
}

#[test]
fn forged_norms_are_refused() {
    let whir = Whir::new_testing(5);
    let x = ints((0..32).map(|i| i * 500 - 7000).collect());
    let weight = ints((0..32).map(|i| i + 1).collect());
    let table = ints((0..4096).map(|j| 100 + j).collect());
    let (alpha, beta) = (from_i32(1_000_003), from_i32(17));
    let (raw, _, _, _) = layer_norm_raw(&x, &weight, 32, &table);
    let layer = |cx: &Committed, cr: &Committed, table: &[Goldilocks]| {
        let mut rng = XorShift64::new(8);
        let ok = prove_layer_norm(
            &whir, cx, &x, &whir, cr, &raw, &weight, 32, table, alpha, beta, &mut rng,
        );
        (ok, rng.next_u64())
    };
    let (cx, cr) = (commit(&whir, &x), commit(&whir, &raw));
    assert_eq!(layer(&cx, &cr, &table), (true, drawn(8, 15)));
    assert_eq!(layer(&forged(&whir, &x), &cr, &table), (false, drawn(8, 5)));
    assert_eq!(layer(&cx, &forged(&whir, &raw), &table), (false, drawn(8, 15)));
    // A tensor with another sum, a table that ends too early, another output.
    assert_eq!(layer(&cr, &cr, &table), (false, drawn(8, 5)));
    assert_eq!(layer(&cx, &cr, &table[..1]), (false, drawn(8, 10)));
    assert_eq!(layer(&cx, &cx, &table), (false, drawn(8, 15)));

    let (raw, _, _) = rms_norm_raw(&x, &weight, 32, &table);
    let rms = |cx: &Committed, cr: &Committed, table: &[Goldilocks]| {
        let mut rng = XorShift64::new(8);
        let ok = prove_rms_norm(
            &whir, cx, &x, &whir, cr, &raw, &weight, 32, table, alpha, beta, &mut rng,
        );
        (ok, rng.next_u64())
    };
    let cr = commit(&whir, &raw);
    assert_eq!(rms(&cx, &cr, &table), (true, drawn(8, 10)));
    assert_eq!(rms(&forged(&whir, &x), &cr, &table), (false, drawn(8, 5)));
    assert_eq!(rms(&cx, &forged(&whir, &raw), &table), (false, drawn(8, 10)));
    assert_eq!(rms(&cx, &cr, &table[..1]), (false, drawn(8, 5)));
    assert_eq!(rms(&cx, &cx, &table), (false, drawn(8, 10)));
}

#[test]
fn forged_softmaxes_are_refused() {
    let whir = Whir::new_testing(5);
    let exp_table = ints(vec![1, 131071]);
    let x = ints((0..16).flat_map(|_| [0, -1]).collect());
    let ev = ints((0..16).flat_map(|_| [131071, 1]).collect());
    let sum = from_i32(16 * 131072);
    let y: Vec<Goldilocks> = ev.iter().map(|&v| v * sum.inverse()).collect();
    let run = |cx: &Committed, ce: &Committed, cy: &Committed| {
        let mut rng = XorShift64::new(9);
        let ok = prove_softmax(
            &whir, cx, &x, &whir, ce, &ev, &whir, cy, sum, &exp_table, 1, from_i32(7),
            from_i32(11), &mut rng,
        );
        (ok, rng.next_u64())
    };
    let (cx, ce, cy) = (commit(&whir, &x), commit(&whir, &ev), commit(&whir, &y));
    assert_eq!(run(&cx, &ce, &cy), (true, drawn(9, 15)));
    assert_eq!(run(&forged(&whir, &x), &ce, &cy), (false, drawn(9, 15)));
    assert_eq!(run(&cx, &forged(&whir, &ev), &cy), (false, drawn(9, 5)));
    assert_eq!(run(&cx, &ce, &forged(&whir, &y)), (false, drawn(9, 15)));
    assert_eq!(run(&cx, &cx, &cy), (false, drawn(9, 5)));
    assert_eq!(run(&cx, &ce, &cx), (false, drawn(9, 15)));
}

/// The row-wise softmax of 32 rows of two scores, with one tensor forged and one
/// output changed on request.
fn softmax_rows(forge: Option<usize>, second: i32) -> (bool, u64) {
    let (whir, whir_row) = (Whir::new_testing(6), Whir::new_testing(5));
    let exp_table = ints(vec![1, 131071]);
    let scores = ints((0..32).flat_map(|r| [r, r - 1]).collect());
    let c = ints((0..32).collect());
    let shifted = ints((0..32).flat_map(|_| [0, -1]).collect());
    let ev = ints((0..32).flat_map(|_| [131071, 1]).collect());
    let sum = ints(vec![131072; 32]);
    let wide = ints(vec![131072; 64]);
    let mut out = ints((0..32).flat_map(|_| [65536, 1]).collect());
    out[1] = from_i32(second);
    let mut rng = XorShift64::new(1);
    let ok = prove_softmax_rows(
        &whir,
        &whir_row,
        &either(&whir, &scores, forge == Some(0)),
        &scores,
        &either(&whir_row, &c, forge == Some(1)),
        &c,
        &either(&whir, &shifted, forge == Some(2)),
        &shifted,
        &either(&whir, &ev, forge == Some(3)),
        &ev,
        &either(&whir_row, &sum, forge == Some(4)),
        &sum,
        &either(&whir, &wide, forge == Some(5)),
        &wide,
        &either(&whir, &out, forge == Some(6)),
        &out,
        &exp_table,
        1,
        32,
        2,
        from_i32(7),
        from_i32(11),
        &mut rng,
    );
    (ok, rng.next_u64())
}

#[test]
fn forged_row_softmaxes_are_refused() {
    assert_eq!(softmax_rows(None, 1), (true, drawn(1, 47)));
    // Each tensor is first opened by the check that refuses it.
    let draws = [6, 6, 6, 12, 29, 35, 35];
    for (i, &n) in draws.iter().enumerate() {
        assert_eq!(softmax_rows(Some(i), 1), (false, drawn(1, n)));
    }
    // Too small an output fails the last sign check, too large a one the first.
    assert_eq!(softmax_rows(None, 0), (false, drawn(1, 47)));
    assert_eq!(softmax_rows(None, 2), (false, drawn(1, 41)));
}

#[test]
fn a_small_table_is_extended_with_zeros() {
    let mut rng = XorShift64::new(23);
    let whir = Whir::new_testing(5);
    for n in [1usize, 2, 8, 16] {
        let small = random(n, &mut rng);
        let mut full = small.clone();
        full.resize(32, Goldilocks::zero());
        let (root, data, protocol) = whir.commit(&small);
        assert_eq!(root, whir.commit(&full).0);
        assert_eq!(protocol.num_variables, 5);
        let point = random(5, &mut rng);
        let (proof, value) = whir.open(data, &protocol, &point);
        assert_eq!(value, zkie::mle::eval(&full, &point));
        assert_eq!(whir.verify(&root, &proof, &protocol, &point), Ok(value));
        assert_eq!(commit(&whir, &small).commitment, root);
    }
}
