//! The integer forward passes of the quantized layers, which a prover runs to
//! obtain the tensors it then commits to.

use crate::field::{ints, lemma_fmul, lemma_fsub, lemma_view_canonical, residue, Goldilocks};
use crate::fixed_point::{from_i32, to_i32, to_i64, wrap};
use crate::integers::{
    about_mean, as_i32, as_i64, div_round, floor_div, i32_square_sum, i32_sum, lemma_mean_range,
    low_i32, low_u32, round_div, sum_i32, sum_squares_i32, WIDE,
};
use crate::softmax::{sum_all, total};
use crate::sums::sigma;
use vstd::arithmetic::power2::pow2;
use vstd::prelude::*;

verus! {

/// The table index that a value selects: the value plus the offset, clamped to
/// the table.
pub open spec fn clamped_index(v: int, offset: int, len: int) -> int {
    let i = as_i32(v) + offset;
    (if i < 0 {
        0
    } else if i > len - 1 {
        len - 1
    } else {
        i
    }) % 0x1_0000_0000
}

/// The table indices of a whole tensor.
pub open spec fn clamped_indices(x: Seq<int>, offset: int, len: int) -> Seq<u32> {
    Seq::new(x.len(), |i: int| clamped_index(x[i], offset, len) as u32)
}

fn index_of(v: Goldilocks, offset: u32, len: usize) -> (r: u32)
    requires
        len > 0,
    ensures
        r as int == clamped_index(v@, offset as int, len as int),
        r < len,
{
    let i: i128 = to_i32(v) as i128 + offset as i128;
    let max: i128 = len as i128 - 1;
    let c: i128 = if i < 0 {
        0
    } else if i > max {
        max
    } else {
        i
    };
    low_u32(c)
}

/// The indices of a tensor and the table values they select.
pub fn select(x: &[Goldilocks], table: &[Goldilocks], offset: u32) -> (r: (Vec<u32>, Vec<Goldilocks>))
    requires
        x@.len() > 0 ==> table@.len() > 0,
    ensures
        r.0@ == clamped_indices(ints(x@), offset as int, table@.len() as int),
        r.1@.len() == x@.len(),
        forall|i: int| 0 <= i < x@.len() ==> #[trigger] r.0@[i] < table@.len(),
        forall|i: int| 0 <= i < x@.len() ==> #[trigger] r.1@[i] == table@[r.0@[i] as int],
{
    let mut indices: Vec<u32> = Vec::new();
    let mut values: Vec<Goldilocks> = Vec::new();
    for i in 0..x.len()
        invariant
            x@.len() > 0 ==> table@.len() > 0,
            indices@.len() == i,
            values@.len() == i,
            forall|k: int|
                0 <= k < i ==> #[trigger] indices@[k] as int == clamped_index(
                    x@[k]@,
                    offset as int,
                    table@.len() as int,
                ),
            forall|k: int| 0 <= k < i ==> #[trigger] indices@[k] < table@.len(),
            forall|k: int| 0 <= k < i ==> #[trigger] values@[k] == table@[indices@[k] as int],
    {
        let j: u32 = index_of(x[i], offset, table.len());
        indices.push(j);
        values.push(table[j as usize]);
    }
    assert(indices@ =~= clamped_indices(ints(x@), offset as int, table@.len() as int));
    (indices, values)
}

/// Computes the quantized softmax from the numerically-stable shifted logits
/// `shifted = scores - max`: the exp values are looked up from `exp_table`, the
/// sum is the field reduction. Returns the exp values, the table indices, and
/// the sum.
pub fn softmax_raw(
    shifted: &[Goldilocks],
    exp_table: &[Goldilocks],
    offset: u32,
) -> (r: (Vec<Goldilocks>, Vec<u32>, Goldilocks))
    requires
        shifted@.len() > 0 ==> exp_table@.len() > 0,
    ensures
        r.1@ == clamped_indices(ints(shifted@), offset as int, exp_table@.len() as int),
        r.0@.len() == shifted@.len(),
        forall|i: int|
            0 <= i < shifted@.len() ==> #[trigger] r.0@[i] == exp_table@[r.1@[i] as int],
        r.2@ == residue(total(ints(r.0@))),
{
    let (indices, e) = select(shifted, exp_table, offset);
    let sum = sum_all(e.as_slice());
    (e, indices, sum)
}

/// Computes the SiLU lookup indices (`x + offset`, clamped) and the
/// corresponding table outputs.
pub fn silu_raw(
    x: &[Goldilocks],
    table: &[Goldilocks],
    offset: u32,
) -> (r: (Vec<u32>, Vec<Goldilocks>))
    requires
        x@.len() > 0 ==> table@.len() > 0,
    ensures
        r.0@ == clamped_indices(ints(x@), offset as int, table@.len() as int),
        r.1@.len() == x@.len(),
        forall|i: int| 0 <= i < x@.len() ==> #[trigger] r.1@[i] == table@[r.0@[i] as int],
{
    select(x, table, offset)
}

/// The rounded mean of the first `n` entries, as an `i32`.
pub open spec fn rounded_mean(x: Seq<int>, n: nat) -> int {
    wrap(round_div(i32_sum(x, n), n as int), 0x1_0000_0000)
}

/// The index of the reciprocal square root of a sum of squares over `n`
/// entries: the rounded mean at scale 2^32, shifted right by 18 bits to scale
/// 2^14.
pub open spec fn rsqrt_index(square_sum: int, n: nat) -> int {
    (round_div(square_sum, n as int) / 0x4_0000) % 0x1_0000_0000
}

/// The LayerNorm index of the first `n` entries.
pub open spec fn layer_norm_index(x: Seq<int>, n: nat) -> int {
    rsqrt_index(i32_square_sum(x, n, rounded_mean(x, n)), n)
}

/// The RMSNorm index of the first `n` entries.
pub open spec fn rms_norm_index(x: Seq<int>, n: nat) -> int {
    rsqrt_index(i32_square_sum(x, n, 0), n)
}

/// The index of a sum of squares over `n` entries.
pub fn index_of_square_sum(s: i128, n: usize) -> (r: u32)
    requires
        0 < n,
        0 <= s < WIDE,
    ensures
        r as int == rsqrt_index(s as int, n as nat),
        forall|m: int|
            -(n as int) <= 2 * (s - #[trigger] (m * n)) < n && m < 0x4_0000_0000_0000 ==> r * 0x4_0000
                <= m < (r + 1) * 0x4_0000,
{
    let mean: i128 = div_round(s, n as i128);
    proof {
        lemma_round_div_bound(s as int, n as int);
    }
    let (index, _): (i128, i128) = floor_div(mean, 0x4_0000);
    proof {
        assert forall|m: int|
            -(n as int) <= 2 * (s - #[trigger] (m * n)) < n && m < 0x4_0000_0000_0000 implies
            rsqrt_index(s as int, n as nat) * 0x4_0000 <= m < (rsqrt_index(s as int, n as nat) + 1)
            * 0x4_0000 by {
            lemma_rsqrt_index(s as int, n as nat, m);
        }
    }
    low_u32(index)
}

/// A rounded quotient of a nonnegative number is no larger than the number.
proof fn lemma_round_div_bound(a: int, b: int)
    requires
        0 <= a,
        0 < b,
    ensures
        0 <= round_div(a, b) <= a,
{
    let q = round_div(a, b);
    crate::integers::lemma_round_remainder(a, b);
    assert(0 <= q) by (nonlinear_arith)
        requires
            -b <= 2 * (a - q * b) < b,
            0 <= a,
            0 < b,
    ;
    assert(q <= a) by (nonlinear_arith)
        requires
            -b <= 2 * (a - q * b),
            0 <= a,
            0 < b,
    ;
}

/// Derives the quantized LayerNorm scalars from the true `n_real` inputs
/// (ignoring the power-of-two padding tail): the mean and the `rsqrt_table`
/// index for the variance.
fn layer_norm_scalars(x: &[Goldilocks], n_real: usize) -> (r: (i32, u32))
    requires
        0 < n_real <= x@.len(),
    ensures
        r.0 as int == rounded_mean(ints(x@), n_real as nat),
        r.1 as int == layer_norm_index(ints(x@), n_real as nat),
{
    let sum: i128 = sum_i32(x, n_real);
    let mean: i32 = mean_of(sum, n_real);
    let squares: i128 = sum_squares_i32(x, n_real);
    let sqsum: i128 = about_mean(squares, sum, mean, n_real, Ghost(ints(x@)));
    let index: u32 = index_of_square_sum(sqsum, n_real);
    (mean, index)
}

/// The rounded mean of `n` values of type `i32` with the given sum.
pub fn mean_of(sum: i128, n: usize) -> (m: i32)
    requires
        0 < n,
        -0x8000_0000 * n <= sum <= 0x7fff_ffff * n,
    ensures
        m as int == round_div(sum as int, n as int),
        m as int == wrap(round_div(sum as int, n as int), 0x1_0000_0000),
{
    let q: i128 = div_round(sum, n as i128);
    proof {
        lemma_mean_range(sum as int, n as int);
    }
    low_i32(q)
}

/// `(x_i - mean) * rstd * w_i` for every entry.
pub open spec fn normed(x: Seq<int>, mean: int, rstd: int, weight: Seq<int>) -> Seq<int> {
    Seq::new(x.len(), |i: int| residue((x[i] - mean) * rstd * weight[i]))
}

/// `(x - mean) * rstd * w`, entry by entry.
fn normed_of(
    x: &[Goldilocks],
    mean: Goldilocks,
    rstd: Goldilocks,
    weight: &[Goldilocks],
) -> (raw: Vec<Goldilocks>)
    requires
        x@.len() == weight@.len(),
    ensures
        ints(raw@) == normed(ints(x@), mean@, rstd@, ints(weight@)),
        raw@.len() == x@.len(),
        forall|k: int|
            0 <= k < x@.len() ==> (#[trigger] raw@[k])@ == residue(
                (x@[k]@ - mean@) * rstd@ * weight@[k]@,
            ),
{
    let mut raw: Vec<Goldilocks> = Vec::new();
    for i in 0..x.len()
        invariant
            x@.len() == weight@.len(),
            raw@.len() == i,
            forall|k: int|
                0 <= k < i ==> (#[trigger] raw@[k])@ == normed(
                    ints(x@),
                    mean@,
                    rstd@,
                    ints(weight@),
                )[k],
    {
        proof {
            lemma_view_canonical(x@[i as int]);
            lemma_view_canonical(mean);
            lemma_view_canonical(rstd);
            lemma_view_canonical(weight@[i as int]);
            let (a, m, s, w) = (x@[i as int]@, mean@, rstd@, weight@[i as int]@);
            lemma_fsub(a, m);
            lemma_fmul(a - m, s);
            lemma_fmul((a - m) * s, w);
        }
        raw.push((x[i] - mean) * rstd * weight[i]);
    }
    assert(ints(raw@) =~= normed(ints(x@), mean@, rstd@, ints(weight@)));
    raw
}

/// Computes the raw LayerNorm product `raw = (x - mean) * rstd * w` together
/// with the scalars, so a caller can commit `raw` and then run
/// [`prove_layer_norm`] against it. `mean` is derived from `x` (not trusted),
/// and `rstd` is read from `rsqrt_table` at the index of the variance.
pub fn layer_norm_raw(
    x: &[Goldilocks],
    weight: &[Goldilocks],
    n_real: usize,
    rsqrt_table: &[Goldilocks],
) -> (r: (Vec<Goldilocks>, Goldilocks, Goldilocks, u32))
    requires
        x@.len() == weight@.len(),
        0 < n_real <= x@.len(),
        layer_norm_index(ints(x@), n_real as nat) < rsqrt_table@.len(),
    ensures
        r.1@ == residue(rounded_mean(ints(x@), n_real as nat)),
        r.3 as int == layer_norm_index(ints(x@), n_real as nat),
        r.2 == rsqrt_table@[r.3 as int],
        ints(r.0@) == normed(ints(x@), r.1@, r.2@, ints(weight@)),
        r.0@.len() == x@.len(),
        forall|k: int|
            0 <= k < x@.len() ==> (#[trigger] r.0@[k])@ == residue(
                (x@[k]@ - r.1@) * r.2@ * weight@[k]@,
            ),
{
    let (mean, s_index) = layer_norm_scalars(x, n_real);
    let mean_f = from_i32(mean);
    let rstd = rsqrt_table[s_index as usize];
    let raw = normed_of(x, mean_f, rstd, weight);
    (raw, mean_f, rstd, s_index)
}

/// Computes the raw RMSNorm product `raw = x * rstd * w` together with the
/// rsqrt value and index, so a caller can commit `raw` and then run
/// [`prove_rms_norm`].
pub fn rms_norm_raw(
    x: &[Goldilocks],
    weight: &[Goldilocks],
    n_real: usize,
    rsqrt_table: &[Goldilocks],
) -> (r: (Vec<Goldilocks>, Goldilocks, u32))
    requires
        x@.len() == weight@.len(),
        0 < n_real <= x@.len(),
        rms_norm_index(ints(x@), n_real as nat) < rsqrt_table@.len(),
    ensures
        r.2 as int == rms_norm_index(ints(x@), n_real as nat),
        r.1 == rsqrt_table@[r.2 as int],
        ints(r.0@) == normed(ints(x@), 0, r.1@, ints(weight@)),
        r.0@.len() == x@.len(),
        forall|k: int|
            0 <= k < x@.len() ==> (#[trigger] r.0@[k])@ == residue(
                (x@[k]@ - 0) * r.1@ * weight@[k]@,
            ),
{
    let sqsum: i128 = sum_squares_i32(x, n_real);
    let s_index: u32 = index_of_square_sum(sqsum, n_real);
    let rstd = rsqrt_table[s_index as usize];
    proof {
        crate::field::lemma_residue_small(0);
    }
    let raw = normed_of(x, Goldilocks::zero(), rstd, weight);
    (raw, rstd, s_index)
}

/// `round(v * scale / 2^shift) + bias`, as an `i32`.
pub open spec fn rescaled(v: int, scale: int, shift: nat, bias: int, relu: bool) -> int {
    let y = round_div(as_i64(v) * scale, pow2(shift) as int) + as_i32(bias);
    wrap(if relu && y < 0 { 0 } else { y }, 0x1_0000_0000)
}

/// Applies the rescale to one entry.
fn rescale_one(v: Goldilocks, scale: i64, shift: u32, bias: Goldilocks, relu: bool) -> (r: i32)
    requires
        shift <= 62,
    ensures
        r as int == rescaled(v@, scale as int, shift as nat, bias@, relu),
{
    proof {
        vstd::arithmetic::power2::lemma_pow2_pos(shift as nat);
    }
    let x: i128 = to_i64(v) as i128;
    let scale: i128 = scale as i128;
    let unit: i128 = power_of_two(shift);
    proof {
        lemma_view_canonical(v);
    }
    assert(-WIDE + 0x1_0000_0000 < x * scale < WIDE - 0x1_0000_0000) by (nonlinear_arith)
        requires
            -0x7FFF_FFFF_0000_0001 <= x <= 0x7FFF_FFFF_FFFF_FFFF,
            -0x8000_0000_0000_0000 <= scale <= 0x7FFF_FFFF_FFFF_FFFF,
            WIDE == 0x6000_0000_0000_0000_0000_0000_0000_0000,
    ;
    let q: i128 = div_round(x * scale, unit);
    proof {
        lemma_quotient_bound(x * scale, unit as int);
    }
    let y: i128 = q + to_i32(bias) as i128;
    let y: i128 = if relu && y < 0 {
        0
    } else {
        y
    };
    low_i32(y)
}

/// A rounded quotient stays within the bound of the numerator, and one.
pub proof fn lemma_quotient_bound(a: int, b: int)
    requires
        0 < b,
    ensures
        a >= 0 ==> 0 <= round_div(a, b) <= a,
        a <= 0 ==> a <= round_div(a, b) <= 0,
{
    let q = round_div(a, b);
    crate::integers::lemma_round_remainder(a, b);
    if a >= 0 {
        lemma_round_div_bound(a, b);
    }
    if a <= 0 {
        assert(q <= 0) by (nonlinear_arith)
            requires
                -b <= 2 * (a - q * b) < b,
                a <= 0,
                0 < b,
        ;
        assert(a <= q) by (nonlinear_arith)
            requires
                2 * (a - q * b) < b,
                a <= 0,
                0 < b,
        ;
    }
}

proof fn lemma_pow2_62()
    ensures
        pow2(0) == 1,
        pow2(62) == 0x4000_0000_0000_0000,
{
    vstd::arithmetic::power2::lemma2_to64();
    vstd::arithmetic::power2::lemma_pow2_unfold(64);
    vstd::arithmetic::power2::lemma_pow2_unfold(63);
}

/// `2^k` as an integer.
pub fn power_of_two(k: u32) -> (r: i128)
    requires
        k <= 62,
    ensures
        r == pow2(k as nat),
        0 < r <= 0x4000_0000_0000_0000,
{
    let mut r: i128 = 1;
    proof {
        lemma_pow2_62();
    }
    for i in 0..k
        invariant
            r == pow2(i as nat),
            k <= 62,
            0 < r,
            pow2(62) == 0x4000_0000_0000_0000,
    {
        proof {
            vstd::arithmetic::power2::lemma_pow2_unfold((i + 1) as nat);
            if i + 1 < 62 {
                vstd::arithmetic::power2::lemma_pow2_strictly_increases((i + 1) as nat, 62);
            }
        }
        r = 2 * r;
    }
    proof {
        if k < 62 {
            vstd::arithmetic::power2::lemma_pow2_strictly_increases(k as nat, 62);
        }
    }
    r
}

/// Computes `out = f(round(in / 2^shift) + bias)` with the same rounding rules
/// [`prove_affine`] checks, so a caller can commit the output and then run
/// `prove_affine` against it. `f` is the identity (`relu == false`) or ReLU.
pub fn affine_raw(
    input: &[Goldilocks],
    bias: &[Goldilocks],
    shift: u32,
    relu: bool,
) -> (out: Vec<Goldilocks>)
    requires
        input@.len() == bias@.len(),
        shift <= 62,
    ensures
        out@.len() == input@.len(),
        forall|i: int|
            0 <= i < input@.len() ==> (#[trigger] out@[i])@ == residue(
                rescaled(input@[i]@, 1, shift as nat, bias@[i]@, relu),
            ),
{
    let mut out: Vec<Goldilocks> = Vec::new();
    for i in 0..input.len()
        invariant
            input@.len() == bias@.len(),
            shift <= 62,
            out@.len() == i,
            forall|k: int|
                0 <= k < i ==> (#[trigger] out@[k])@ == residue(
                    rescaled(input@[k]@, 1, shift as nat, bias@[k]@, relu),
                ),
    {
        out.push(from_i32(rescale_one(input[i], 1, shift, bias[i], relu)));
    }
    out
}

/// Computes `out = round(in * scale / 2^16) + bias` (the output-head rescale of
/// the horizon FFN), matching [`prove_scale`].
pub fn scale_raw(input: &[Goldilocks], scale: i64, bias: &[Goldilocks]) -> (out: Vec<Goldilocks>)
    requires
        input@.len() == bias@.len(),
    ensures
        out@.len() == input@.len(),
        forall|i: int|
            0 <= i < input@.len() ==> (#[trigger] out@[i])@ == residue(
                rescaled(input@[i]@, scale as int, 16, bias@[i]@, false),
            ),
{
    let mut out: Vec<Goldilocks> = Vec::new();
    for i in 0..input.len()
        invariant
            input@.len() == bias@.len(),
            out@.len() == i,
            forall|k: int|
                0 <= k < i ==> (#[trigger] out@[k])@ == residue(
                    rescaled(input@[k]@, scale as int, 16, bias@[k]@, false),
                ),
    {
        out.push(from_i32(rescale_one(input[i], scale, 16, bias[i], false)));
    }
    out
}

/// The index of a reciprocal square root is the mean of the squares at scale 2^14: with
/// `m` the nearest integer to the mean at scale 2^32, it is what is left of `m` without
/// its low 18 bits, as long as that fits 32 bits.
pub proof fn lemma_rsqrt_index(s: int, n: nat, m: int)
    requires
        n > 0,
        s >= 0,
        -n <= 2 * (s - m * n) < n,
        m < 0x4_0000_0000_0000,
    ensures
        0 <= rsqrt_index(s, n),
        rsqrt_index(s, n) * 0x4_0000 <= m < (rsqrt_index(s, n) + 1) * 0x4_0000,
{
    crate::integers::lemma_round_unique(s, n as int, m);
    lemma_round_div_bound(s, n as int);
    vstd::arithmetic::div_mod::lemma_small_mod((m / 0x4_0000) as nat, 0x1_0000_0000);
}

/// Entries that all have the square `q` have the index `q / 2^18`, however many there
/// are.
pub proof fn lemma_rsqrt_index_of_equal(q: int, n: nat)
    requires
        n > 0,
        0 <= q < 0x4_0000_0000_0000,
    ensures
        rsqrt_index(n * q, n) == q / 0x4_0000,
{
    assert(n * q == q * n && n * q >= 0) by (nonlinear_arith)
        requires
            q >= 0,
    ;
    lemma_rsqrt_index((n * q) as int, n, q);
}

/// The mean of the first `n` entries is the integer nearest to it, a half rounded up.
pub proof fn lemma_rounded_mean(x: Seq<int>, n: nat, m: int)
    requires
        n > 0,
        -n <= 2 * (sigma(n, |i: int| as_i32(x[i])) - m * n) < n,
    ensures
        rounded_mean(x, n) == m,
        i32::MIN <= m <= i32::MAX,
{
    let s = sigma(n, |i: int| as_i32(x[i]));
    crate::sums::lemma_sigma_eq(n, crate::integers::i32_at(x), |i: int| as_i32(x[i]));
    crate::integers::lemma_round_unique(s, n as int, m);
    crate::integers::lemma_i32_sum_range(x, n);
    lemma_mean_range(s, n as int);
    crate::fixed_point::lemma_wrap(m, 0x1_0000_0000);
}

/// The LayerNorm index: with `m` the mean of the first `n` entries and `v` the mean of
/// their squared distances from it, both to the nearest integer, it is `v` without its
/// low 18 bits.
pub proof fn lemma_layer_norm_index(x: Seq<int>, n: nat, m: int, v: int)
    requires
        n > 0,
        -n <= 2 * (sigma(n, |i: int| as_i32(x[i])) - m * n) < n,
        -n <= 2 * (sigma(n, |i: int| (as_i32(x[i]) - m) * (as_i32(x[i]) - m)) - v * n) < n,
        v < 0x4_0000_0000_0000,
    ensures
        0 <= layer_norm_index(x, n),
        layer_norm_index(x, n) * 0x4_0000 <= v < (layer_norm_index(x, n) + 1) * 0x4_0000,
{
    lemma_rounded_mean(x, n, m);
    let f = |i: int| (as_i32(x[i]) - m) * (as_i32(x[i]) - m);
    crate::sums::lemma_sigma_eq(n, crate::integers::i32_square_at(x, m), f);
    crate::integers::lemma_square_sum_range(x, n, m);
    lemma_rsqrt_index(sigma(n, f), n, v);
}

/// The RMSNorm index: with `v` the mean of the squares of the first `n` entries to the
/// nearest integer, it is `v` without its low 18 bits.
pub proof fn lemma_rms_norm_index(x: Seq<int>, n: nat, v: int)
    requires
        n > 0,
        -n <= 2 * (sigma(n, |i: int| as_i32(x[i]) * as_i32(x[i])) - v * n) < n,
        v < 0x4_0000_0000_0000,
    ensures
        0 <= rms_norm_index(x, n),
        rms_norm_index(x, n) * 0x4_0000 <= v < (rms_norm_index(x, n) + 1) * 0x4_0000,
{
    let f = |i: int| as_i32(x[i]) * as_i32(x[i]);
    let g = crate::integers::i32_square_at(x, 0);
    assert forall|i: int| 0 <= i < n implies #[trigger] g(i) == f(i) by {
        let a = as_i32(x[i]);
        assert((a - 0) * (a - 0) == a * a);
    }
    crate::sums::lemma_sigma_eq(n, g, f);
    crate::integers::lemma_square_sum_range(x, n, 0);
    lemma_rsqrt_index(sigma(n, f), n, v);
}

/// A normalized entry over the weight: it is `(x - mean) * rstd * w` of its own place.
pub proof fn lemma_normed_entry(x: Seq<int>, mean: int, rstd: int, weight: Seq<int>, k: int)
    requires
        0 <= k < x.len(),
    ensures
        normed(x, mean, rstd, weight).len() == x.len(),
        normed(x, mean, rstd, weight)[k] == residue((x[k] - mean) * rstd * weight[k]),
{
}

/// A rescaled value: with `q` the integer nearest to `v * scale / 2^shift`, a half
/// rounded up, it is `q` plus the bias, and zero in place of a negative result under
/// ReLU, as long as that is an `i32`.
pub proof fn lemma_rescaled(v: int, scale: int, shift: nat, bias: int, relu: bool, q: int)
    requires
        -pow2(shift) <= 2 * (as_i64(v) * scale - q * pow2(shift)) < pow2(shift),
        i32::MIN <= q + as_i32(bias) <= i32::MAX,
    ensures
        q + as_i32(bias) >= 0 ==> rescaled(v, scale, shift, bias, relu) == q + as_i32(bias),
        q + as_i32(bias) < 0 ==> rescaled(v, scale, shift, bias, relu) == (if relu {
            0
        } else {
            q + as_i32(bias)
        }),
{
    vstd::arithmetic::power2::lemma_pow2_pos(shift);
    crate::integers::lemma_round_unique(as_i64(v) * scale, pow2(shift) as int, q);
    crate::fixed_point::lemma_wrap(q + as_i32(bias), 0x1_0000_0000);
    crate::fixed_point::lemma_wrap(0, 0x1_0000_0000);
}

/// A table index is the value plus the offset where that is an index of the table, the
/// first index below and the last index above.
pub proof fn lemma_clamped_index(v: int, offset: int, len: int)
    requires
        0 < len <= 0x1_0000_0000,
    ensures
        0 <= clamped_index(v, offset, len) < len,
        0 <= as_i32(v) + offset < len ==> clamped_index(v, offset, len) == as_i32(v) + offset,
        as_i32(v) + offset < 0 ==> clamped_index(v, offset, len) == 0,
        as_i32(v) + offset >= len ==> clamped_index(v, offset, len) == len - 1,
{
}

/// Larger values select no smaller indices.
pub proof fn lemma_clamped_monotone(v: int, w: int, offset: int, len: int)
    requires
        0 < len <= 0x1_0000_0000,
        as_i32(v) <= as_i32(w),
    ensures
        clamped_index(v, offset, len) <= clamped_index(w, offset, len),
{
}

/// A whole tensor selects entry by entry.
pub proof fn lemma_clamped_entry(x: Seq<int>, offset: int, len: int, k: int)
    requires
        0 <= k < x.len(),
        0 < len <= 0x1_0000_0000,
    ensures
        clamped_indices(x, offset, len).len() == x.len(),
        0 <= as_i32(x[k]) + offset < len ==> clamped_indices(x, offset, len)[k] == as_i32(x[k])
            + offset,
        as_i32(x[k]) + offset < 0 ==> clamped_indices(x, offset, len)[k] == 0,
        as_i32(x[k]) + offset >= len ==> clamped_indices(x, offset, len)[k] == len - 1,
{
}

/// A rescaled value that no `i32` holds wraps around: it differs from the true one by a
/// multiple of `2^32`.
pub proof fn lemma_rescaled_wraps(v: int, scale: int, shift: nat, bias: int, relu: bool, q: int)
    requires
        -pow2(shift) <= 2 * (as_i64(v) * scale - q * pow2(shift)) < pow2(shift),
    ensures
        i32::MIN <= rescaled(v, scale, shift, bias, relu) <= i32::MAX,
        !relu || q + as_i32(bias) >= 0 ==> (q + as_i32(bias) - rescaled(
            v,
            scale,
            shift,
            bias,
            relu,
        )) % 0x1_0000_0000 == 0,
        relu && q + as_i32(bias) < 0 ==> rescaled(v, scale, shift, bias, relu) == 0,
{
    vstd::arithmetic::power2::lemma_pow2_pos(shift);
    crate::integers::lemma_round_unique(as_i64(v) * scale, pow2(shift) as int, q);
    crate::fixed_point::lemma_wrap(q + as_i32(bias), 0x1_0000_0000);
    crate::fixed_point::lemma_wrap(0, 0x1_0000_0000);
}

/// An index that 32 bits do not hold wraps around.
pub proof fn lemma_rsqrt_index_wraps(s: int, n: nat, m: int, i: int)
    requires
        n > 0,
        -n <= 2 * (s - m * n) < n,
        i * 0x4_0000 <= m < (i + 1) * 0x4_0000,
    ensures
        0 <= rsqrt_index(s, n) < 0x1_0000_0000,
        (i - rsqrt_index(s, n)) % 0x1_0000_0000 == 0,
{
    crate::integers::lemma_round_unique(s, n as int, m);
    assert(m / 0x4_0000 == i);
}

} // verus!
