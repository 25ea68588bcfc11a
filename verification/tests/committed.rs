use zkie::committed::{
    commit, layer_norm_raw, prove_add, prove_affine, prove_layer_norm, prove_lookup, prove_matmul,
    prove_relu, prove_rms_norm, prove_scale, prove_softmax, prove_softmax_rows, rms_norm_raw,
    scale_raw, silu_raw, softmax_raw,
};
use zkie::field::{Goldilocks, XorShift64};
use zkie::fixed_point::{from_i32, from_i64, to_i32, to_i64};
use zkie::whir::Whir;

/// Round half up.
fn div_round(a: i64, b: i64) -> i64 {
    zkie::integers::div_round(a as i128, b as i128) as i64
}

#[test]
fn committed_matmul_roundtrip() {
    let mut rng = XorShift64::new(0xabc);
    let (k, n) = (64usize, 64usize);
    let a: Vec<Goldilocks> = (0..k).map(|_| rng.field()).collect();
    let b: Vec<Goldilocks> = (0..k * n).map(|_| rng.field()).collect();
    let mut c = vec![Goldilocks::zero(); n];
    for j in 0..n {
        let mut acc = Goldilocks::zero();
        for w in 0..k {
            acc = acc + a[w] * b[w * n + j];
        }
        c[j] = acc;
    }

    let whir_a = Whir::new_testing(6);
    let whir_b = Whir::new_testing(12);
    let whir_c = Whir::new_testing(6);
    let ca = commit(&whir_a, &a);
    let cb = commit(&whir_b, &b);
    let cc = commit(&whir_c, &c);

    assert!(prove_matmul(&whir_a, &ca, &whir_b, &cb, &whir_c, &cc, &a, &b, &c, 1, k, n, &mut rng, ));
}

#[test]
fn committed_matmul_m_roundtrip() {
    let mut rng = XorShift64::new(0xabd);
    let (m, k, n) = (4usize, 64usize, 32usize);
    let a: Vec<Goldilocks> = (0..m * k).map(|_| rng.field()).collect();
    let b: Vec<Goldilocks> = (0..k * n).map(|_| rng.field()).collect();
    let mut c = vec![Goldilocks::zero(); m * n];
    for i in 0..m {
        for j in 0..n {
            let mut acc = Goldilocks::zero();
            for w in 0..k {
                acc = acc + a[i * k + w] * b[w * n + j];
            }
            c[i * n + j] = acc;
        }
    }

    let whir_a = Whir::new_testing(8);
    let whir_b = Whir::new_testing(11);
    let whir_c = Whir::new_testing(7);
    let ca = commit(&whir_a, &a);
    let cb = commit(&whir_b, &b);
    let cc = commit(&whir_c, &c);

    assert!(prove_matmul(&whir_a, &ca, &whir_b, &cb, &whir_c, &cc, &a, &b, &c, m, k, n, &mut rng));

    let mut bad = c.clone();
    bad[0] = bad[0] + Goldilocks::one();
    let c_bad = commit(&whir_c, &bad);
    assert!(!prove_matmul(&whir_a, &ca, &whir_b, &cb, &whir_c, &c_bad, &a, &b, &bad, m, k, n, &mut rng));
}

#[test]
fn committed_lookup_roundtrip() {
    let mut rng = XorShift64::new(0xdef);
    let n = 64usize;
    let table_size = 64usize;
    let table: Vec<Goldilocks> = (0..table_size).map(|_| rng.field()).collect();
    let indices: Vec<u32> = (0..n).map(|_| (rng.next_u64() % table_size as u64) as u32).collect();
    let outputs: Vec<Goldilocks> = indices.iter().map(|&i| table[i as usize]).collect();
    let idx_vals: Vec<Goldilocks> = indices.iter().map(|&i| Goldilocks::from_u64(i as u64)).collect();

    let whir = Whir::new_testing(6);
    let cx = commit(&whir, &idx_vals);
    let cy = commit(&whir, &outputs);
    let alpha = rng.field();
    let beta = rng.field();
    assert!(prove_lookup(&whir, &cx, &idx_vals, &whir, &cy, &outputs, &indices, &table, alpha, beta, &mut rng));
}

#[test]
fn committed_layer_norm_roundtrip() {
    let mut rng = XorShift64::new(0x123);
    let n = 64usize;
    // x as small i32 fixed-point values (scale 2^16); mean is derived from
    // these, and rstd is bound by an rsqrt lookup instead of being trusted.
    let x: Vec<Goldilocks> = (0..n)
        .map(|_| from_i32((rng.next_u64() % 65536) as i32))
        .collect();
    let weight: Vec<Goldilocks> = (0..n)
        .map(|_| from_i32((rng.next_u64() % 65536) as i32))
        .collect();
    // rsqrt table: index at scale 2^14, rstd at scale 2^16.
    let table_size = 1 << 17;
    let rsqrt_table: Vec<Goldilocks> = (0..table_size)
        .map(|j| {
            let s = j as f64 / 16384.0 + 1e-6;
            from_i32((1.0 / s.sqrt() * 65536.0).round() as i32)
        })
        .collect();
    let n_real = n;
    let (raw, _mean, _rstd, _s_index) = layer_norm_raw(&x, &weight, n_real, &rsqrt_table);

    let whir = Whir::new_testing(6);
    let cx = commit(&whir, &x);
    let c_raw = commit(&whir, &raw);
    let alpha = rng.field();
    let beta = rng.field();
    assert!(prove_layer_norm(
        &whir, &cx, &x, &whir, &c_raw, &raw, &weight, n_real, &rsqrt_table, alpha, beta, &mut rng,
    ));

    // Corrupt the committed raw -> the pointwise check must fail.
    let mut bad = raw.clone();
    bad[0] = bad[0] + Goldilocks::one();
    let c_bad = commit(&whir, &bad);
    assert!(!prove_layer_norm(
        &whir, &cx, &x, &whir, &c_bad, &bad, &weight, n_real, &rsqrt_table, alpha, beta, &mut rng,
    ));
}

#[test]
fn committed_rms_norm_roundtrip() {
    let mut rng = XorShift64::new(0x567);
    let n = 64usize;
    let x: Vec<Goldilocks> = (0..n)
        .map(|_| from_i32((rng.next_u64() % 65536) as i32))
        .collect();
    let weight: Vec<Goldilocks> = (0..n)
        .map(|_| from_i32((rng.next_u64() % 65536) as i32))
        .collect();
    let table_size = 1 << 17;
    let rsqrt_table: Vec<Goldilocks> = (0..table_size)
        .map(|j| {
            let s = j as f64 / 16384.0 + 1e-6;
            from_i32((1.0 / s.sqrt() * 65536.0).round() as i32)
        })
        .collect();
    let n_real = n;
    let (raw, _rstd, _s_index) = rms_norm_raw(&x, &weight, n_real, &rsqrt_table);

    let whir = Whir::new_testing(6);
    let cx = commit(&whir, &x);
    let c_raw = commit(&whir, &raw);
    let alpha = rng.field();
    let beta = rng.field();
    assert!(prove_rms_norm(
        &whir, &cx, &x, &whir, &c_raw, &raw, &weight, n_real, &rsqrt_table, alpha, beta, &mut rng,
    ));

    let mut bad = raw.clone();
    bad[0] = bad[0] + Goldilocks::one();
    let c_bad = commit(&whir, &bad);
    assert!(!prove_rms_norm(
        &whir, &cx, &x, &whir, &c_bad, &bad, &weight, n_real, &rsqrt_table, alpha, beta, &mut rng,
    ));
}

#[test]
fn committed_silu_lookup_roundtrip() {
    let mut rng = XorShift64::new(0x678);
    let n = 64usize;
    // Small synthetic SiLU table: x in [-2, 2) at scale 2^16, offset 2^17.
    let offset = 1u32 << 17;
    let table_size = 1usize << 18;
    let table: Vec<Goldilocks> = (0..table_size)
        .map(|j| {
            let xf = (j as f64 - offset as f64) / 65536.0;
            let s = xf / (1.0 + (-xf).exp());
            from_i32((s * 65536.0).round() as i32)
        })
        .collect();
    // x_q in [-1.5, 1.5) at scale 2^16.
    let x: Vec<Goldilocks> = (0..n)
        .map(|_| from_i32((rng.next_u64() % 196608) as i32 - 98304))
        .collect();
    let (indices, outputs) = silu_raw(&x, &table, offset);
    let idx_field: Vec<Goldilocks> = indices.iter().map(|&i| from_i32(i as i32)).collect();

    let whir = Whir::new_testing(6);
    let c_idx = commit(&whir, &idx_field);
    let c_out = commit(&whir, &outputs);
    let alpha = rng.field();
    let beta = rng.field();
    assert!(prove_lookup(&whir, &c_idx, &idx_field, &whir, &c_out, &outputs, &indices, &table, alpha, beta, &mut rng));

    let mut bad = outputs.clone();
    bad[0] = bad[0] + Goldilocks::one();
    let c_bad = commit(&whir, &bad);
    assert!(!prove_lookup(&whir, &c_idx, &idx_field, &whir, &c_bad, &bad, &indices, &table, alpha, beta, &mut rng));
}

#[test]
fn committed_softmax_roundtrip() {
    let mut rng = XorShift64::new(0x890);
    let n = 64usize;
    // Small synthetic exp table: x in [-4, 0] at scale 2^16, offset 2^18.
    let offset = 1u32 << 18;
    let table_size = 1usize << 18;
    let exp_table: Vec<Goldilocks> = (0..table_size)
        .map(|j| {
            let x = (j as f64 - offset as f64) / 65536.0;
            from_i32((x.exp() * 65536.0).round() as i32)
        })
        .collect();
    // shifted logits in [-4, 0] at scale 2^16 (scores - max).
    let shifted: Vec<Goldilocks> = (0..n)
        .map(|_| from_i32(-((rng.next_u64() % 262144) as i32)))
        .collect();
    let (e, _indices, sum) = softmax_raw(&shifted, &exp_table, offset);
    let out: Vec<Goldilocks> = e.iter().map(|&v| v * sum.inverse()).collect();

    let whir = Whir::new_testing(6);
    let cx = commit(&whir, &shifted);
    let ce = commit(&whir, &e);
    let cy = commit(&whir, &out);
    let alpha = rng.field();
    let beta = rng.field();
    assert!(prove_softmax(
        &whir, &cx, &shifted, &whir, &ce, &e, &whir, &cy, sum, &exp_table, offset, alpha, beta, &mut rng,
    ));

    let mut bad = out.clone();
    bad[0] = bad[0] + Goldilocks::one();
    let c_bad = commit(&whir, &bad);
    assert!(!prove_softmax(
        &whir, &cx, &shifted, &whir, &ce, &e, &whir, &c_bad, sum, &exp_table, offset, alpha, beta, &mut rng,
    ));
}

#[test]
fn committed_softmax_rows_roundtrip() {
    let mut rng = XorShift64::new(0x891);
    let (n_rows, n_cols) = (32usize, 32usize);
    let offset = 1u32 << 18;
    let table_size = 1usize << 18;
    let exp_table: Vec<Goldilocks> = (0..table_size)
        .map(|j| {
            let x = (j as f64 - offset as f64) / 65536.0;
            from_i32((x.exp() * 65536.0).round() as i32)
        })
        .collect();
    // scores as i32 (scale 2^16), with a per-row max for the shift.
    let scores: Vec<Goldilocks> = (0..n_rows * n_cols)
        .map(|_| from_i32((rng.next_u64() % 200000) as i32 - 100000))
        .collect();
    let c: Vec<Goldilocks> = (0..n_rows)
        .map(|r| {
            let row_max = (0..n_cols)
                .map(|k| to_i32(scores[r * n_cols + k]))
                .max()
                .unwrap();
            from_i32(row_max)
        })
        .collect();
    let shifted: Vec<Goldilocks> = scores
        .iter()
        .enumerate()
        .map(|(i, &s)| s - c[i / n_cols])
        .collect();
    let (e, _indices, _) = softmax_raw(&shifted, &exp_table, offset);
    let sum: Vec<Goldilocks> = (0..n_rows)
        .map(|r| (0..n_cols).fold(Goldilocks::zero(), |a, k| a + e[r * n_cols + k]))
        .collect();
    let sum_broadcast: Vec<Goldilocks> = (0..n_rows * n_cols)
        .map(|i| sum[i / n_cols])
        .collect();
    let out: Vec<Goldilocks> = e
        .iter()
        .enumerate()
        .map(|(i, &v)| {
            from_i32(div_round(
                to_i32(v) as i64 * 65536,
                to_i32(sum[i / n_cols]) as i64,
            ) as i32)
        })
        .collect();

    let whir = Whir::new_testing(10);
    let whir_r = Whir::new_testing(5);
    let cs = commit(&whir, &scores);
    let cc = commit(&whir_r, &c);
    let csh = commit(&whir, &shifted);
    let ce = commit(&whir, &e);
    let csum = commit(&whir_r, &sum);
    let csb = commit(&whir, &sum_broadcast);
    let cout = commit(&whir, &out);
    let alpha = rng.field();
    let beta = rng.field();
    assert!(prove_softmax_rows(
        &whir, &whir_r, &cs, &scores, &cc, &c, &csh, &shifted, &ce, &e,
        &csum, &sum, &csb, &sum_broadcast, &cout, &out, &exp_table, offset, n_rows, n_cols,
        alpha, beta, &mut rng,
    ));

    let mut bad = out.clone();
    bad[0] = bad[0] + Goldilocks::one();
    let c_bad = commit(&whir, &bad);
    assert!(!prove_softmax_rows(
        &whir, &whir_r, &cs, &scores, &cc, &c, &csh, &shifted, &ce, &e,
        &csum, &sum, &csb, &sum_broadcast, &c_bad, &bad, &exp_table, offset, n_rows, n_cols,
        alpha, beta, &mut rng,
    ));
}

#[test]
fn committed_attention_roundtrip() {
    // Multi-head attention: per-head scores = Q @ K^T (scale 2^32), rescaled
    // to 2^16, a row-wise softmax over all (head, query) rows (scale 2^16),
    // then attn_raw = softmax @ V (scale 2^32) rescaled to 2^16. Verifies the
    // m>1 matmul + row-wise softmax + rescale primitives compose into a real
    // attention block. Sizes stay >= 2^5 because the WHIR folding factor is 5.
    let mut rng = XorShift64::new(0x892);
    let (heads, seq, hdim) = (4usize, 8usize, 8usize);
    let offset = 1u32 << 18;
    let table_size = 1usize << 18;
    let exp_table: Vec<Goldilocks> = (0..table_size)
        .map(|j| {
            let x = (j as f64 - offset as f64) / 65536.0;
            from_i32((x.exp() * 65536.0).round() as i32)
        })
        .collect();

    // Q [heads, seq, hdim], K [heads, hdim, seq], V [heads, seq, hdim] (scale 2^16).
    // Small magnitudes keep QK^T logits inside the exp-table range.
    let qv: Vec<Goldilocks> = (0..heads * seq * hdim)
        .map(|_| from_i32((rng.next_u64() % 2000) as i32 - 1000))
        .collect();
    let kv: Vec<Goldilocks> = (0..heads * hdim * seq)
        .map(|_| from_i32((rng.next_u64() % 2000) as i32 - 1000))
        .collect();
    let vv: Vec<Goldilocks> = (0..heads * seq * hdim)
        .map(|_| from_i32((rng.next_u64() % 2000) as i32 - 1000))
        .collect();

    // Host-side forward pass: scores_raw -> scores -> softmax -> attn.
    let mut scores_raw = vec![Goldilocks::zero(); heads * seq * seq];
    let mut scores = vec![Goldilocks::zero(); heads * seq * seq];
    for h in 0..heads {
        let qh = &qv[h * seq * hdim..(h + 1) * seq * hdim];
        let kh = &kv[h * hdim * seq..(h + 1) * hdim * seq];
        for q in 0..seq {
            for k in 0..seq {
                let mut acc = Goldilocks::zero();
                for d in 0..hdim {
                    acc = acc + qh[q * hdim + d] * kh[d * seq + k];
                }
                scores_raw[(h * seq + q) * seq + k] = acc;
                scores[(h * seq + q) * seq + k] =
                    from_i32(div_round(to_i64(acc), 1 << 16) as i32);
            }
        }
    }

    // Row-wise softmax over all (head, query) rows, seq keys each.
    let n_rows = heads * seq;
    let c: Vec<Goldilocks> = (0..n_rows)
        .map(|r| {
            from_i32(
                (0..seq)
                    .map(|k| to_i32(scores[r * seq + k]))
                    .max()
                    .unwrap(),
            )
        })
        .collect();
    let shifted: Vec<Goldilocks> = scores
        .iter()
        .enumerate()
        .map(|(i, &s)| s - c[i / seq])
        .collect();
    let e: Vec<Goldilocks> = shifted
        .iter()
        .map(|&s| {
            let idx =
                (to_i32(s) as i64 + offset as i64).clamp(0, table_size as i64 - 1) as usize;
            exp_table[idx]
        })
        .collect();
    let sum: Vec<Goldilocks> = (0..n_rows)
        .map(|r| (0..seq).fold(Goldilocks::zero(), |a, k| a + e[r * seq + k]))
        .collect();
    let sum_broadcast: Vec<Goldilocks> = (0..n_rows * seq).map(|i| sum[i / seq]).collect();
    let sm: Vec<Goldilocks> = e
        .iter()
        .enumerate()
        .map(|(i, &v)| {
            from_i32(div_round(
                to_i32(v) as i64 * 65536,
                to_i32(sum[i / seq]) as i64,
            ) as i32)
        })
        .collect();

    // PV: attn_raw = sm @ V (scale 2^32), then rescale to 2^16.
    let mut attn_raw = vec![Goldilocks::zero(); heads * seq * hdim];
    let mut attn = vec![Goldilocks::zero(); heads * seq * hdim];
    for h in 0..heads {
        let vh = &vv[h * seq * hdim..(h + 1) * seq * hdim];
        for q in 0..seq {
            for d in 0..hdim {
                let mut acc = Goldilocks::zero();
                for k in 0..seq {
                    acc = acc + sm[(h * seq + q) * seq + k] * vh[k * hdim + d];
                }
                attn_raw[(h * seq + q) * hdim + d] = acc;
                attn[(h * seq + q) * hdim + d] =
                    from_i32(div_round(to_i64(acc), 1 << 16) as i32);
            }
        }
    }

    // Whir instances (all >= 2^5 because the folding factor is 5).
    let whir_hd = Whir::new_testing(6); // seq*hdim = 64
    let whir_k = Whir::new_testing(6); // hdim*seq = 64
    let whir_sq = Whir::new_testing(6); // seq*seq = 64
    let whir_soft = Whir::new_testing(8); // heads*seq*seq = 256
    let whir_row = Whir::new_testing(5); // heads*seq = 32
    let alpha = rng.field();
    let beta = rng.field();

    // Per-head QK^T + rescale.
    for h in 0..heads {
        let qh = &qv[h * seq * hdim..(h + 1) * seq * hdim];
        let kh = &kv[h * hdim * seq..(h + 1) * hdim * seq];
        let srh = &scores_raw[h * seq * seq..(h + 1) * seq * seq];
        let sh = &scores[h * seq * seq..(h + 1) * seq * seq];
        let cq = commit(&whir_hd, qh);
        let ck = commit(&whir_k, kh);
        let csr = commit(&whir_sq, srh);
        assert!(prove_matmul(
            &whir_hd, &cq, &whir_k, &ck, &whir_sq, &csr, qh, kh, srh, seq, hdim, seq,
            &mut rng,
        ));
        let cs = commit(&whir_sq, sh);
        let zero = vec![Goldilocks::zero(); seq * seq];
        assert!(prove_affine(
            &whir_sq, &csr, srh, &whir_sq, &cs, sh, &zero, 16, &mut rng,
        ));
    }

    // Row-wise softmax over the whole (heads*seq) x seq score tensor.
    let cs_all = commit(&whir_soft, &scores);
    let cc = commit(&whir_row, &c);
    let csh = commit(&whir_soft, &shifted);
    let ce = commit(&whir_soft, &e);
    let csum = commit(&whir_row, &sum);
    let csb = commit(&whir_soft, &sum_broadcast);
    let csm = commit(&whir_soft, &sm);
    assert!(prove_softmax_rows(
        &whir_soft, &whir_row, &cs_all, &scores, &cc, &c, &csh, &shifted, &ce, &e,
        &csum, &sum, &csb, &sum_broadcast, &csm, &sm, &exp_table, offset, n_rows, seq,
        alpha, beta, &mut rng,
    ));

    // Per-head PV: attn_raw = sm @ V, then rescale to scale 2^16.
    for h in 0..heads {
        let vh = &vv[h * seq * hdim..(h + 1) * seq * hdim];
        let smh = &sm[h * seq * seq..(h + 1) * seq * seq];
        let arh = &attn_raw[h * seq * hdim..(h + 1) * seq * hdim];
        let ah = &attn[h * seq * hdim..(h + 1) * seq * hdim];
        let cv = commit(&whir_hd, vh);
        let car = commit(&whir_hd, arh);
        let ca = commit(&whir_hd, ah);
        let csmh = commit(&whir_sq, smh);
        assert!(prove_matmul(
            &whir_sq, &csmh, &whir_hd, &cv, &whir_hd, &car, smh, vh, arh, seq, seq, hdim,
            &mut rng,
        ));
        let zero = vec![Goldilocks::zero(); seq * hdim];
        assert!(prove_affine(
            &whir_hd, &car, arh, &whir_hd, &ca, ah, &zero, 16, &mut rng,
        ));
    }
}

#[test]
fn committed_scale_roundtrip() {
    let mut rng = XorShift64::new(0x789);
    let n = 64usize;
    let input: Vec<Goldilocks> = (0..n)
        .map(|_| from_i32((rng.next_u64() % 200000) as i32 - 100000))
        .collect();
    let bias: Vec<Goldilocks> = (0..n)
        .map(|_| from_i32((rng.next_u64() % 65536) as i32 - 32768))
        .collect();
    let scale = 68729i64; // round(1.0487 * 2^16)
    let out = scale_raw(&input, scale, &bias);

    let whir = Whir::new_testing(6);
    let c_in = commit(&whir, &input);
    let c_out = commit(&whir, &out);
    assert!(prove_scale(&whir, &c_in, &input, &whir, &c_out, &out, scale, &bias, &mut rng));

    let mut bad = out.clone();
    bad[0] = bad[0] + Goldilocks::one();
    let c_bad = commit(&whir, &bad);
    assert!(!prove_scale(&whir, &c_in, &input, &whir, &c_bad, &bad, scale, &bias, &mut rng));
}

#[test]
fn committed_relu_roundtrip() {
    let mut rng = XorShift64::new(0x234);
    let n = 64usize;
    // Raw matmul output at scale 2^32 (signed i64), bias at scale 2^16.
    let raw: Vec<Goldilocks> = (0..n)
        .map(|_| {
            let v = (rng.next_u64() % (1u64 << 34)) as i64 - (1i64 << 33);
            from_i64(v)
        })
        .collect();
    let bias: Vec<Goldilocks> = (0..n)
        .map(|_| from_i32((rng.next_u64() % 65536) as i32 - 32768))
        .collect();
    let out: Vec<Goldilocks> = raw
        .iter()
        .zip(&bias)
        .map(|(&r, &b)| {
            let linear = div_round(to_i64(r), 1 << 16) + to_i32(b) as i64;
            from_i32(linear.max(0) as i32)
        })
        .collect();

    let whir = Whir::new_testing(6);
    let c_in = commit(&whir, &raw);
    let c_out = commit(&whir, &out);
    assert!(prove_relu(&whir, &c_in, &raw, &whir, &c_out, &out, &bias, &mut rng));

    let mut bad = out.clone();
    bad[0] = bad[0] + Goldilocks::one();
    let c_bad = commit(&whir, &bad);
    assert!(!prove_relu(&whir, &c_in, &raw, &whir, &c_bad, &bad, &bias, &mut rng));
}

#[test]
fn committed_affine_rescale_roundtrip() {
    let mut rng = XorShift64::new(0x456);
    let n = 64usize;
    // Raw LayerNorm product at scale 2^48, rescale by 2^32, then bias.
    let raw: Vec<Goldilocks> = (0..n)
        .map(|_| {
            let v = (rng.next_u64() % (1u64 << 50)) as i64 - (1i64 << 49);
            from_i64(v)
        })
        .collect();
    let bias: Vec<Goldilocks> = (0..n)
        .map(|_| from_i32((rng.next_u64() % 65536) as i32 - 32768))
        .collect();
    let out: Vec<Goldilocks> = raw
        .iter()
        .zip(&bias)
        .map(|(&r, &b)| {
            let v = div_round(to_i64(r), 1i64 << 32) + to_i32(b) as i64;
            from_i32(v as i32)
        })
        .collect();

    let whir = Whir::new_testing(6);
    let c_in = commit(&whir, &raw);
    let c_out = commit(&whir, &out);
    assert!(prove_affine(&whir, &c_in, &raw, &whir, &c_out, &out, &bias, 32, &mut rng));
}

#[test]
fn committed_add_roundtrip() {
    let mut rng = XorShift64::new(0x345);
    let n = 64usize;
    let a: Vec<Goldilocks> = (0..n).map(|_| rng.field()).collect();
    let b: Vec<Goldilocks> = (0..n).map(|_| rng.field()).collect();
    let c: Vec<Goldilocks> = a.iter().zip(&b).map(|(&x, &y)| x + y).collect();

    let whir = Whir::new_testing(6);
    let ca = commit(&whir, &a);
    let cb = commit(&whir, &b);
    let cc = commit(&whir, &c);
    assert!(prove_add(&whir, &ca, &whir, &cb, &whir, &cc, n, &mut rng));

    let mut bad = c.clone();
    bad[0] = bad[0] + Goldilocks::one();
    let c_bad = commit(&whir, &bad);
    assert!(!prove_add(&whir, &ca, &whir, &cb, &whir, &c_bad, n, &mut rng));
}
