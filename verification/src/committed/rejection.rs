//! How many challenges a wrong layer survives.
//!
//! The completeness laws beside each proof say that a right layer is accepted
//! whatever the challenges are. Here is the converse: a wrong one is accepted for
//! at most a fraction of them, the number of variables over the size of the field.

use super::linear::{add_holds, matmul_holds, matrix_product};
use super::attention::{
    row_remainders, softmax_divides, softmax_rows_checks, RowChallenges, RowTables,
};
use super::norms::{layer_norm_holds, normed_holds, rms_norm_holds};
use super::openings::hadamard;
use super::product::{entries, grand_product, keys, product_holds, table_keys};
use super::raw::{layer_norm_index, rms_norm_index, rounded_mean};
use super::rounding::{
    combined, lemma_as_i64, lemma_mle_affine, low_bits, magnitude, nonneg_holds, relu_abs, relu_holds,
    relu_pre, round_holds, round_offset, round_offsets,
};
use crate::field::{
    finv, lemma_residue_add, lemma_residue_difference, lemma_residue_mul, lemma_residue_small,
    lemma_residue_residue, lemma_residue_sub, residue, residues, P,
};
use crate::integers::{as_i32, as_i64, lemma_round_unique, round_div};
use crate::mle::{eq_weight, lemma_mle_add, lemma_mle_scale, mle};
use crate::poly::{factors, lemma_count_below_le, lemma_products_differ, same_product};
use crate::prime::{lemma_linear_roots, lemma_no_zero_divisors};
use crate::soundness::{
    count_below, count_points, lemma_count_implies, lemma_distinct, lemma_pick,
    lemma_schwartz_zippel, points, same_value,
};
use crate::sums::{lemma_pi_eq, sigma};
use vstd::arithmetic::power2::{lemma_pow2_adds, lemma_pow2_pos, lemma_pow2_unfold, pow2};
use vstd::prelude::*;

verus! {

/// A statement that only holds where two different tables agree is satisfied by
/// at most a fraction `t / P` of all points.
proof fn lemma_rarely(t: nat, pred: spec_fn(Seq<int>) -> bool, f: Seq<int>, g: Seq<int>)
    requires
        f.len() == g.len() == pow2(t),
        residues(f) != residues(g),
        forall|r: Seq<int>|
            r.len() == t && #[trigger] pred(r) ==> residue(mle(f, r)) == residue(mle(g, r)),
    ensures
        P * count_points(t, pred) <= t * points(t),
{
    lemma_schwartz_zippel(f, g, t);
    assert forall|r: Seq<int>| r.len() == t && #[trigger] pred(r) implies same_value(f, g)(r) by {}
    lemma_count_implies(t, pred, same_value(f, g));
    assert(P * count_points(t, pred) <= P * count_points(t, same_value(f, g))) by (nonlinear_arith)
        requires
            count_points(t, pred) <= count_points(t, same_value(f, g)),
    ;
}

/// A committed addition whose output is not the sum is accepted for at most a
/// fraction `t / P` of the challenges.
pub proof fn lemma_add_rejects(a: Seq<int>, b: Seq<int>, c: Seq<int>, t: nat, i: int)
    requires
        a.len() == b.len() == c.len() == pow2(t),
        0 <= i < c.len(),
        residue(c[i]) != residue(a[i] + b[i]),
    ensures
        P * count_points(t, |r: Seq<int>| add_holds(a, b, c, r)) <= t * points(t),
{
    let s = Seq::new(a.len(), |i: int| a[i] + b[i]);
    let pred = |r: Seq<int>| add_holds(a, b, c, r);
    assert(residues(c)[i] != residues(s)[i]);
    assert forall|r: Seq<int>| r.len() == t && #[trigger] pred(r) implies residue(mle(c, r))
        == residue(mle(s, r)) by {
        lemma_mle_add(a, b, s, r);
    }
    lemma_rarely(t, pred, c, s);
}

/// A committed matmul whose output is not the product is accepted for at most a
/// fraction `t / P` of the challenges `(v, u)`, of `t` coordinates together,
/// whatever the challenges of the sum-check are.
pub proof fn lemma_matmul_rejects(
    tables: (Seq<int>, Seq<int>, Seq<int>),
    plain: (Seq<int>, Seq<int>, Seq<int>),
    dims: (nat, nat, nat),
    ch: Seq<int>,
    dv: nat,
    du: nat,
)
    requires
        dims.0 == pow2(du),
        dims.2 == pow2(dv),
        tables.2.len() == dims.0 * dims.2,
        residues(tables.2) != residues(matrix_product(plain.0, plain.1, dims.0, dims.1, dims.2)),
    ensures
        P * count_points(
            dv + du,
            |r: Seq<int>|
                matmul_holds(
                    tables,
                    plain,
                    dims,
                    ch,
                    r.take(dv as int),
                    r.skip(dv as int),
                ),
        ) <= (dv + du) * points(dv + du),
{
    let product = matrix_product(plain.0, plain.1, dims.0, dims.1, dims.2);
    let pred = |r: Seq<int>|
        matmul_holds(tables, plain, dims, ch, r.take(dv as int), r.skip(dv as int));
    lemma_pow2_adds(dv, du);
    assert(dims.0 * dims.2 == dims.2 * dims.0) by (nonlinear_arith);
    assert forall|r: Seq<int>| r.len() == dv + du && #[trigger] pred(r) implies residue(
        mle(tables.2, r),
    ) == residue(mle(product, r)) by {
        assert(r.take(dv as int) + r.skip(dv as int) =~= r);
    }
    lemma_rarely(dv + du, pred, tables.2, product);
}

/// The table with a one at index `k` and zeros elsewhere.
spec fn unit_table(n: nat, k: int) -> Seq<int> {
    Seq::new(
        n,
        |i: int|
            if i == k {
                1
            } else {
                0
            },
    )
}

/// Its extension is the equality weight of `k`.
proof fn lemma_mle_unit(k: int, r: Seq<int>)
    requires
        0 <= k < pow2(r.len()),
    ensures
        mle(unit_table(pow2(r.len()), k), r) == eq_weight(k, r),
{
    let n = pow2(r.len());
    let v = unit_table(n, k);
    lemma_unit_sum(n, k, r, |i: int| v[i] * eq_weight(i, r));
}

proof fn lemma_unit_sum(n: nat, k: int, r: Seq<int>, f: spec_fn(int) -> int)
    requires
        0 <= k,
        forall|i: int|
            0 <= i < n ==> #[trigger] f(i) == (if i == k {
                eq_weight(k, r)
            } else {
                0
            }),
    ensures
        sigma(n, f) == (if k < n {
            eq_weight(k, r)
        } else {
            0
        }),
    decreases n,
{
    if n > 0 {
        lemma_unit_sum((n - 1) as nat, k, r, f);
        assert(f(n - 1) == (if n - 1 == k {
            eq_weight(k, r)
        } else {
            0
        }));
    }
}

/// A grand-product argument for the wrong product is accepted for at most a
/// fraction `t / P` of the challenges.
pub proof fn lemma_product_rejects(a: Seq<int>, c: int, t: nat)
    requires
        a.len() == pow2(t),
        residue(grand_product(a)) != residue(c),
    ensures
        P * count_points(t, |r: Seq<int>| product_holds(a, c, r)) <= t * points(t),
{
    let n = pow2(t);
    lemma_pow2_pos(t);
    let pred = |r: Seq<int>| product_holds(a, c, r);
    let (unit, zero) = (unit_table(n, n - 1), unit_table(n, -1));
    lemma_residue_small(0);
    lemma_residue_small(1);
    assert(residues(unit)[n - 1] != residues(zero)[n - 1]);
    assert forall|r: Seq<int>| r.len() == t && #[trigger] pred(r) implies residue(mle(unit, r))
        == residue(mle(zero, r)) by {
        lemma_mle_unit(n - 1, r);
        crate::mle::lemma_mle_of_constant(zero, r, 0);
        lemma_residue_difference(grand_product(a), c);
        lemma_no_zero_divisors(eq_weight(n - 1, r), grand_product(a) - c);
    }
    lemma_rarely(t, pred, unit, zero);
}

/// A rescale proof of tensors with an output that is not the rounded value, plus
/// bias, is accepted for at most a fraction `t / P` of the challenges. All
/// tensors hold embedded machine integers, and no remainder is as far off as `P`
/// units, where it would come around.
pub proof fn lemma_rescale_rejects(
    input: Seq<int>,
    output: Seq<int>,
    scale: int,
    bias: Seq<int>,
    shift: nat,
    t: nat,
    k: int,
)
    requires
        input.len() == output.len() == bias.len() == pow2(t),
        1 <= shift <= 62,
        forall|i: int|
            0 <= i < bias.len() ==> residue(as_i32(#[trigger] output[i])) == residue(output[i]),
        forall|i: int|
            0 <= i < bias.len() ==> residue(as_i32(#[trigger] bias[i])) == residue(bias[i]),
        0 <= k < bias.len(),
        as_i32(output[k]) != round_div(as_i64(input[k]) * scale, pow2(shift) as int) + as_i32(
            bias[k],
        ),
        -P < round_offset(input[k], output[k], scale, bias[k], shift) / (pow2(shift) as int) < P,
    ensures
        P * count_points(
            t,
            |r: Seq<int>| round_holds((input, output), (input, output), scale, bias, shift, r),
        ) <= t * points(t),
{
    let (u, h) = (pow2(shift) as int, pow2((shift - 1) as nat) as int);
    let pred = |r: Seq<int>| round_holds((input, output), (input, output), scale, bias, shift, r);
    let offsets = round_offsets(input, output, scale, bias, shift);
    let low = low_bits(offsets, shift);
    let table = Seq::new(bias.len(), |i: int| input[i] * scale - (output[i] - bias[i]) * u + h);
    let (x, y, z) = (input[k], output[k], bias[k]);
    let off = round_offset(x, y, scale, z, shift);
    lemma_pow2_pos(shift);
    lemma_pow2_unfold(shift);
    vstd::arithmetic::power2::lemma2_to64();
    lemma_offset_residue(x, y, scale, z, shift);
    let q = off / u;
    vstd::arithmetic::div_mod::lemma_fundamental_div_mod(off, u);
    assert(q != 0) by {
        if q == 0 {
            assert(u * 0 == 0) by (nonlinear_arith);
            let a = as_i64(x) * scale;
            let b = as_i32(y) - as_i32(z);
            assert(b * u == u * b) by (nonlinear_arith);
            lemma_round_unique(a, u, b);
        }
    }
    assert(residue(u) != 0) by {
        lemma_pow2_unfold(64);
        lemma_pow2_unfold(63);
        if shift < 62 {
            vstd::arithmetic::power2::lemma_pow2_strictly_increases(shift, 62);
        }
        lemma_residue_small(u);
    }
    assert(residue(q) != 0) by {
        if residue(q) == 0 {
            lemma_residue_small(0);
            if q > 0 {
                lemma_residue_small(q);
            } else {
                lemma_residue_difference(0, q);
                lemma_residue_difference(q, 0);
                lemma_residue_small(-q);
            }
        }
    }
    assert(residues(table)[k] != residues(low)[k]) by {
        if residue(table[k]) == residue(low[k]) {
            lemma_residue_difference(off, low[k]);
            assert(low[k] == off % u);
            assert(off - low[k] == u * q);
            lemma_no_zero_divisors(u, q);
        }
    }
    assert forall|r: Seq<int>| r.len() == t && #[trigger] pred(r) implies residue(mle(table, r))
        == residue(mle(low, r)) by {
        lemma_mle_affine(input, output, bias, table, scale, u, h, r);
    }
    lemma_rarely(t, pred, table, low);
}

/// The offset remainder over the field is that over the integers.
pub proof fn lemma_offset_residue(x: int, y: int, scale: int, z: int, shift: nat)
    requires
        residue(as_i32(y)) == residue(y),
        residue(as_i32(z)) == residue(z),
    ensures
        residue(x * scale - (y - z) * pow2(shift) + pow2((shift - 1) as nat)) == residue(
            round_offset(x, y, scale, z, shift),
        ),
{
    let (u, h) = (pow2(shift) as int, pow2((shift - 1) as nat) as int);
    let (a, b, c) = (as_i64(x), as_i32(y), as_i32(z));
    lemma_as_i64(x);
    lemma_residue_mul(a, scale);
    lemma_residue_mul(x, scale);
    lemma_residue_sub(b, c);
    lemma_residue_sub(y, z);
    lemma_residue_mul(b - c, u);
    lemma_residue_mul(y - z, u);
    lemma_residue_sub(a * scale, (b - c) * u);
    lemma_residue_sub(x * scale, (y - z) * u);
    lemma_residue_add(a * scale - (b - c) * u, h);
    lemma_residue_add(x * scale - (y - z) * u, h);
}

/// A softmax whose output is not the exp values over the sum is accepted for at
/// most a fraction `t / P` of the challenges.
pub proof fn lemma_softmax_rejects(e: Seq<int>, y: Seq<int>, sum: int, t: nat, k: int)
    requires
        e.len() == y.len() == pow2(t),
        0 <= k < y.len(),
        residue(y[k]) != residue(e[k] * finv(sum)),
    ensures
        P * count_points(t, |r: Seq<int>| softmax_divides(e, y, sum, r)) <= t * points(t),
{
    let inv = finv(sum);
    let table = Seq::new(e.len(), |i: int| inv * e[i]);
    let pred = |r: Seq<int>| softmax_divides(e, y, sum, r);
    assert(e[k] * inv == inv * e[k]) by (nonlinear_arith);
    assert(residues(y)[k] != residues(table)[k]);
    assert forall|r: Seq<int>| r.len() == t && #[trigger] pred(r) implies residue(mle(y, r))
        == residue(mle(table, r)) by {
        lemma_mle_scale(e, table, inv, r);
        let m = mle(e, r);
        assert(inv * m == m * inv) by (nonlinear_arith);
    }
    lemma_rarely(t, pred, y, table);
}

/// A normalization whose output is not `(x - mean) * rstd * w` is accepted for at
/// most a fraction `t / P` of the challenges.
pub proof fn lemma_normed_rejects(
    tables: (Seq<int>, Seq<int>),
    x: Seq<int>,
    raw: Seq<int>,
    weight: Seq<int>,
    mean: int,
    rstd: int,
    t: nat,
    k: int,
)
    requires
        x.len() == raw.len() == weight.len() == pow2(t),
        0 <= k < raw.len(),
        residue(raw[k]) != residue((x[k] - mean) * rstd * weight[k]),
    ensures
        P * count_points(
            t,
            |r: Seq<int>| normed_holds(tables, (x, raw), weight, mean, rstd, r),
        ) <= t * points(t),
{
    let n = x.len();
    let pred = |r: Seq<int>| normed_holds(tables, (x, raw), weight, mean, rstd, r);
    let xw = hadamard(x, weight);
    let mw = Seq::new(n, |i: int| (-mean) * weight[i]);
    let diff = Seq::new(n, |i: int| xw[i] + mw[i]);
    let table = Seq::new(n, |i: int| rstd * diff[i]);
    let (a, w) = (x[k], weight[k]);
    assert((a - mean) * rstd * w == rstd * (a * w + (-mean) * w)) by (nonlinear_arith);
    assert(residues(raw)[k] != residues(table)[k]);
    assert forall|r: Seq<int>| r.len() == t && #[trigger] pred(r) implies residue(mle(raw, r))
        == residue(mle(table, r)) by {
        lemma_mle_scale(weight, mw, -mean, r);
        lemma_mle_add(xw, mw, diff, r);
        lemma_mle_scale(diff, table, rstd, r);
        let m = mle(weight, r);
        assert((-mean) * m == -(mean * m)) by (nonlinear_arith);
    }
    lemma_rarely(t, pred, raw, table);
}

/// A sign check of committed tensors whose combination is not in `[0, 2^31)`
/// everywhere is accepted for at most a fraction `t / P` of the challenges, whatever
/// the plain tensors are.
pub proof fn lemma_nonneg_rejects(
    tables: (Seq<int>, Seq<int>),
    plain: (Seq<int>, Seq<int>),
    a: int,
    b: int,
    c: int,
    t: nat,
    k: int,
)
    requires
        tables.0.len() == tables.1.len() == plain.0.len() == pow2(t),
        0 <= k < plain.0.len(),
        residue(a * tables.0[k] + b * tables.1[k] + c) > i32::MAX,
    ensures
        P * count_points(t, |r: Seq<int>| nonneg_holds(tables, plain, a, b, c, r)) <= t * points(t),
{
    let (x, y) = tables;
    let n = x.len();
    let pred = |r: Seq<int>| nonneg_holds(tables, plain, a, b, c, r);
    let low = low_bits(combined(plain.0, plain.1, a, b, c), 31);
    let ax = Seq::new(n, |i: int| a * x[i]);
    let by = Seq::new(n, |i: int| b * y[i]);
    let both = Seq::new(n, |i: int| ax[i] + by[i]);
    let shift = Seq::new(n, |i: int| c);
    let table = Seq::new(n, |i: int| both[i] + shift[i]);
    assert(pow2(31) == 0x8000_0000) by {
        vstd::arithmetic::power2::lemma2_to64();
    }
    lemma_residue_small(low[k]);
    assert(residues(table)[k] != residues(low)[k]);
    assert forall|r: Seq<int>| r.len() == t && #[trigger] pred(r) implies residue(mle(table, r))
        == residue(mle(low, r)) by {
        lemma_mle_scale(x, ax, a, r);
        lemma_mle_scale(y, by, b, r);
        lemma_mle_add(ax, by, both, r);
        crate::mle::lemma_mle_of_constant(shift, r, c);
        lemma_mle_add(both, shift, table, r);
    }
    lemma_rarely(t, pred, table, low);
}

/// A ReLU layer whose output is not half the sum of the pre-activation and its
/// magnitude, that is the pre-activation where it is positive and zero
/// elsewhere, is accepted for at most a fraction `t / P` of the challenges of the
/// last check, whatever the challenges of the rescale are.
pub proof fn lemma_relu_rejects(
    tables: (Seq<int>, Seq<int>),
    input: Seq<int>,
    bias: Seq<int>,
    r1: Seq<int>,
    t: nat,
    k: int,
)
    requires
        input.len() == bias.len() == tables.1.len() == pow2(t),
        0 <= k < input.len(),
        residue(2 * tables.1[k]) != residue(relu_pre(input, bias)[k] + relu_abs(input, bias)[k]),
    ensures
        P * count_points(t, |r: Seq<int>| relu_holds(tables, input, bias, r1, r)) <= t * points(t),
{
    let n = input.len();
    let (pre, abs) = (relu_pre(input, bias), relu_abs(input, bias));
    let pred = |r: Seq<int>| relu_holds(tables, input, bias, r1, r);
    let twice = Seq::new(n, |i: int| 2 * tables.1[i]);
    let both = Seq::new(n, |i: int| pre[i] + abs[i]);
    assert(residues(twice)[k] != residues(both)[k]);
    assert forall|r: Seq<int>| r.len() == t && #[trigger] pred(r) implies residue(mle(twice, r))
        == residue(mle(both, r)) by {
        lemma_mle_scale(tables.1, twice, 2, r);
        lemma_mle_add(pre, abs, both, r);
    }
    lemma_rarely(t, pred, twice, both);
}

/// The products over the plain keys and over the selected table keys are
/// congruent.
pub open spec fn keys_match(
    x: Seq<int>,
    y: Seq<int>,
    indices: Seq<u32>,
    table: Seq<int>,
    beta: int,
) -> spec_fn(int) -> bool {
    |alpha: int|
        residue(grand_product(keys(x, y, alpha, beta, x.len()))) == residue(
            grand_product(table_keys(indices, table, alpha, beta)),
        )
}

/// A lookup with a pair that the indices select nowhere in the table, and that
/// `beta` tells from every selected pair, passes the product check for at most as
/// many values of `alpha` as there are pairs.
pub proof fn lemma_lookup_rejects(
    x: Seq<int>,
    y: Seq<int>,
    indices: Seq<u32>,
    table: Seq<int>,
    beta: int,
    k: int,
)
    requires
        x.len() == y.len() == indices.len(),
        0 <= k < x.len(),
        forall|j: int|
            0 <= j < indices.len() ==> residue(
                (#[trigger] indices[j]) as int + beta * table[indices[j] as int],
            ) != residue(x[k] + beta * y[k]),
    ensures
        count_below(P as nat, keys_match(x, y, indices, table, beta)) <= x.len(),
{
    let n = x.len();
    let a = Seq::new(n, |i: int| x[i] + beta * y[i]);
    let b = Seq::new(n, |i: int| indices[i] as int + beta * table[indices[i] as int]);
    assert forall|j: int| 0 <= j < b.len() implies residue(#[trigger] b[j]) != residue(a[k]) by {
        let index = indices[j];
    }
    lemma_products_differ(a, b, k);
    assert forall|alpha: int| 0 <= alpha < P && #[trigger] keys_match(x, y, indices, table, beta)(
        alpha,
    ) implies same_product(a, b)(alpha) by {
        lemma_pi_eq(n, entries(keys(x, y, alpha, beta, n)), factors(a, alpha));
        lemma_pi_eq(n, entries(table_keys(indices, table, alpha, beta)), factors(b, alpha));
    }
    lemma_count_below_le(
        P as nat,
        P as nat,
        keys_match(x, y, indices, table, beta),
        same_product(a, b),
    );
}

/// A value of `beta` that does not tell two different pairs apart.
pub open spec fn collides(x: int, y: int, u: int, v: int) -> spec_fn(int) -> bool {
    |beta: int| residue(x + beta * y) == residue(u + beta * v)
}

/// At most one value of `beta` does not tell two different pairs apart.
pub proof fn lemma_few_collisions(x: int, y: int, u: int, v: int)
    requires
        residue(x) != residue(u) || residue(y) != residue(v),
    ensures
        count_below(P as nat, collides(x, y, u, v)) <= 1,
{
    let bad = collides(x, y, u, v);
    if count_below(P as nat, bad) > 1 {
        let b = lemma_pick(P as nat, bad);
        let c = lemma_pick(b as nat, bad);
        lemma_distinct(b, c);
        lemma_residue_difference(x + b * y, u + b * v);
        lemma_residue_difference(x + c * y, u + c * v);
        assert((x + b * y) - (u + b * v) == (x - u) + (y - v) * b) by (nonlinear_arith);
        assert((x + c * y) - (u + c * v) == (x - u) + (y - v) * c) by (nonlinear_arith);
        lemma_linear_roots(x - u, y - v, b, c);
        lemma_residue_difference(x, u);
        lemma_residue_difference(y, v);
    }
}

/// An element that equals its square is zero or one: what the bit check relies
/// on.
pub proof fn lemma_bit_sound(b: int)
    requires
        residue(b * b) == residue(b),
    ensures
        residue(b) == 0 || residue(b) == 1,
{
    lemma_residue_difference(b * b, b);
    assert(b * b - b == b * (b - 1)) by (nonlinear_arith);
    lemma_no_zero_divisors(b, b - 1);
    lemma_residue_difference(b, 1);
    lemma_residue_small(1);
}

/// The places of `c` bits.
pub open spec fn placed(bits: Seq<int>) -> spec_fn(int) -> int {
    |j: int| pow2(j as nat) * bits[j]
}

/// A number put together from `c` bits is in `[0, 2^c)`.
pub proof fn lemma_bits_in_range(bits: Seq<int>, c: nat)
    requires
        c <= bits.len(),
        forall|j: int| 0 <= j < c ==> (#[trigger] bits[j] == 0 || bits[j] == 1),
    ensures
        0 <= sigma(c, placed(bits)) < pow2(c),
    decreases c,
{
    if c == 0 {
        vstd::arithmetic::power2::lemma2_to64();
    } else {
        let m = (c - 1) as nat;
        lemma_bits_in_range(bits, m);
        lemma_pow2_unfold(c);
        let (p, b) = (pow2(m) as int, bits[m as int]);
        assert(p * b == 0 || p * b == p) by (nonlinear_arith)
            requires
                b == 0 || b == 1,
        ;
        lemma_pow2_pos(m);
    }
}

/// A number in `[0, 2^31)` with the square of an `i32` value is its magnitude: what
/// the ReLU proof relies on.
pub proof fn lemma_magnitude_sound(abs: int, pre: int)
    requires
        0 <= abs <= i32::MAX,
        i32::MIN <= pre <= i32::MAX,
        residue(abs * abs) == residue(pre * pre),
    ensures
        abs == magnitude(pre),
{
    lemma_residue_difference(abs * abs, pre * pre);
    assert(abs * abs - pre * pre == (abs - pre) * (abs + pre)) by (nonlinear_arith);
    lemma_no_zero_divisors(abs - pre, abs + pre);
    assert forall|d: int| -P < d < P && residue(d) == 0 implies d == 0 by {
        lemma_residue_small(0);
        if d > 0 {
            lemma_residue_small(d);
        } else if d < 0 {
            lemma_residue_difference(0, -d);
            lemma_residue_small(-d);
        }
    }
}

/// What the two sign checks of the row-wise softmax make of an output over the
/// integers: it is the quotient rounded half up.
pub proof fn lemma_quotient_sound(e: int, out: int, sum: int)
    requires
        sum > 0,
        0 <= 2 * (e * 0x1_0000 - out * sum) + sum,
        0 <= sum - 2 * (e * 0x1_0000 - out * sum) - 1,
    ensures
        out == round_div(e * 0x1_0000, sum),
{
    lemma_round_unique(e * 0x1_0000, sum, out);
}

/// An output that is not the quotient rounded half up fails one of the two sign
/// checks over the field.
pub proof fn lemma_quotient_residues(e: int, out: int, sum: int, rem: int)
    requires
        i32::MIN <= e <= i32::MAX,
        i32::MIN <= out <= i32::MAX,
        0 < sum <= i32::MAX,
        residue(rem) == residue(e * 0x1_0000 - out * sum),
        out != round_div(e * 0x1_0000, sum),
    ensures
        residue(2 * rem + 1 * sum + 0) > i32::MAX || residue(
            1 * sum + residue(-2) * rem + residue(-1),
        ) > i32::MAX,
{
    broadcast use lemma_residue_residue;

    let m = e * 0x1_0000 - out * sum;
    assert(-0x4000_0000_0000_0000 <= out * sum <= 0x4000_0000_0000_0000) by (nonlinear_arith)
        requires
            -0x8000_0000 <= out <= 0x7fff_ffff,
            0 < sum <= 0x7fff_ffff,
    ;
    lemma_residue_mul(2, m);
    lemma_residue_mul(2, rem);
    lemma_residue_add(2 * rem, sum);
    lemma_residue_add(2 * m, sum);
    lemma_residue_mul(-2, m);
    lemma_residue_mul(residue(-2), rem);
    lemma_residue_add(sum, residue(-2) * rem);
    lemma_residue_add(sum, (-2) * m);
    lemma_residue_add(sum + residue(-2) * rem, -1);
    lemma_residue_add(sum + residue(-2) * rem, residue(-1));
    lemma_residue_add(sum + (-2) * m, -1);
    let (low, high) = (2 * m + sum, sum - 2 * m - 1);
    if low >= 0 && high >= 0 {
        lemma_quotient_sound(e, out, sum);
    } else if low < 0 {
        lemma_residue_difference(low + P, low);
        lemma_residue_small(low + P);
        lemma_whole(P as int);
    } else {
        lemma_residue_difference(high + P, high);
        lemma_residue_small(high + P);
        lemma_whole(P as int);
    }
}

/// The size of the field is zero in it.
proof fn lemma_whole(p: int)
    requires
        p == P,
    ensures
        residue(p) == 0,
{
    reveal(residue);
}

/// A row-wise softmax with an output that is not `round(e * 2^16 / sum)` is accepted
/// for at most a fraction `d / P` of the challenges of one of its two sign checks,
/// whatever its other challenges are. The values at the index are embedded `i32`
/// integers, and the sum is positive.
pub proof fn lemma_softmax_rows_rejects(
    t: RowTables,
    p: RowTables,
    exp_table: Seq<int>,
    offset: int,
    n_rows: nat,
    n_cols: nat,
    alpha: int,
    beta: int,
    ch: RowChallenges,
    d: nat,
    k: int,
)
    requires
        p.e.len() == t.sum_broadcast.len() == p.sum_broadcast.len() == pow2(d),
        0 <= k < p.e.len(),
        t.sum_broadcast[k] == p.sum_broadcast[k],
        residue(as_i32(p.e[k])) == residue(p.e[k]),
        residue(as_i32(p.out[k])) == residue(p.out[k]),
        residue(as_i32(p.sum_broadcast[k])) == residue(p.sum_broadcast[k]),
        as_i32(p.sum_broadcast[k]) > 0,
        as_i32(p.out[k]) != round_div(as_i32(p.e[k]) * 0x1_0000, as_i32(p.sum_broadcast[k])),
    ensures
        ({
            let lower = |r: Seq<int>|
                softmax_rows_checks(
                    t,
                    p,
                    exp_table,
                    offset,
                    n_rows,
                    n_cols,
                    alpha,
                    beta,
                    RowChallenges { lower: r, ..ch },
                );
            let upper = |r: Seq<int>|
                softmax_rows_checks(
                    t,
                    p,
                    exp_table,
                    offset,
                    n_rows,
                    n_cols,
                    alpha,
                    beta,
                    RowChallenges { upper: r, ..ch },
                );
            ||| P * count_points(d, lower) <= d * points(d)
            ||| P * count_points(d, upper) <= d * points(d)
        }),
{
    let lower = |r: Seq<int>|
        softmax_rows_checks(
            t,
            p,
            exp_table,
            offset,
            n_rows,
            n_cols,
            alpha,
            beta,
            RowChallenges { lower: r, ..ch },
        );
    let upper = |r: Seq<int>|
        softmax_rows_checks(
            t,
            p,
            exp_table,
            offset,
            n_rows,
            n_cols,
            alpha,
            beta,
            RowChallenges { upper: r, ..ch },
        );
    let rem = row_remainders(p);
    let (e, out, sum) = (as_i32(p.e[k]), as_i32(p.out[k]), as_i32(p.sum_broadcast[k]));
    let s = t.sum_broadcast[k];
    assert(residue(rem[k]) == residue(e * 0x1_0000 - out * sum)) by {
        broadcast use lemma_residue_residue;

        lemma_residue_mul(e, 0x1_0000);
        lemma_residue_mul(p.e[k], 0x1_0000);
        lemma_residue_mul(out, sum);
        lemma_residue_mul(p.out[k], s);
        lemma_residue_sub(e * 0x1_0000, out * sum);
        lemma_residue_sub(p.e[k] * 0x1_0000, p.out[k] * s);
    }
    lemma_quotient_residues(e, out, sum, rem[k]);
    lemma_residue_add(2 * rem[k], sum);
    lemma_residue_add(2 * rem[k], s);
    lemma_residue_add(sum, residue(-2) * rem[k] + residue(-1));
    lemma_residue_add(s, residue(-2) * rem[k] + residue(-1));
    if residue(2 * rem[k] + 1 * s + 0) > i32::MAX {
        let check = |r: Seq<int>|
            nonneg_holds((rem, t.sum_broadcast), (rem, p.sum_broadcast), 2, 1, 0, r);
        lemma_nonneg_rejects((rem, t.sum_broadcast), (rem, p.sum_broadcast), 2, 1, 0, d, k);
        lemma_count_implies(d, lower, check);
        lemma_scaled(count_points(d, lower), count_points(d, check));
    } else {
        let (a, c) = (residue(-2), residue(-1));
        let check = |r: Seq<int>|
            nonneg_holds((t.sum_broadcast, rem), (p.sum_broadcast, rem), 1, a, c, r);
        lemma_nonneg_rejects((t.sum_broadcast, rem), (p.sum_broadcast, rem), 1, a, c, d, k);
        lemma_count_implies(d, upper, check);
        lemma_scaled(count_points(d, upper), count_points(d, check));
    }
}

/// A LayerNorm whose output is not `(x - mean) * rstd * w` is accepted for at most a
/// fraction `t / P` of the last challenge, whatever the first two are.
pub proof fn lemma_layer_norm_rejects(
    tables: (Seq<int>, Seq<int>),
    x: Seq<int>,
    raw: Seq<int>,
    weight: Seq<int>,
    n_real: nat,
    rsqrt_table: Seq<int>,
    r1: Seq<int>,
    r2: Seq<int>,
    t: nat,
    k: int,
)
    requires
        x.len() == raw.len() == weight.len() == pow2(t),
        0 <= k < raw.len(),
        residue(raw[k]) != residue(
            (x[k] - residue(rounded_mean(x, n_real))) * rsqrt_table[layer_norm_index(x, n_real)]
                * weight[k],
        ),
    ensures
        P * count_points(
            t,
            |r: Seq<int>|
                layer_norm_holds(tables, (x, raw), weight, n_real, rsqrt_table, r1, r2, r),
        ) <= t * points(t),
{
    let mean = residue(rounded_mean(x, n_real));
    let rstd = rsqrt_table[layer_norm_index(x, n_real)];
    let pred = |r: Seq<int>|
        layer_norm_holds(tables, (x, raw), weight, n_real, rsqrt_table, r1, r2, r);
    let last = |r: Seq<int>| normed_holds(tables, (x, raw), weight, mean, rstd, r);
    lemma_normed_rejects(tables, x, raw, weight, mean, rstd, t, k);
    lemma_count_implies(t, pred, last);
    lemma_scaled(count_points(t, pred), count_points(t, last));
}

/// An RMSNorm whose output is not `x * rstd * w` is accepted for at most a fraction
/// `t / P` of the last challenge, whatever the first is.
pub proof fn lemma_rms_norm_rejects(
    tables: (Seq<int>, Seq<int>),
    x: Seq<int>,
    raw: Seq<int>,
    weight: Seq<int>,
    n_real: nat,
    rsqrt_table: Seq<int>,
    r2: Seq<int>,
    t: nat,
    k: int,
)
    requires
        x.len() == raw.len() == weight.len() == pow2(t),
        0 <= k < raw.len(),
        residue(raw[k]) != residue(
            (x[k] - 0) * rsqrt_table[rms_norm_index(x, n_real)] * weight[k],
        ),
    ensures
        P * count_points(
            t,
            |r: Seq<int>| rms_norm_holds(tables, (x, raw), weight, n_real, rsqrt_table, r2, r),
        ) <= t * points(t),
{
    let rstd = rsqrt_table[rms_norm_index(x, n_real)];
    let pred = |r: Seq<int>| rms_norm_holds(tables, (x, raw), weight, n_real, rsqrt_table, r2, r);
    let last = |r: Seq<int>| normed_holds(tables, (x, raw), weight, 0, rstd, r);
    lemma_normed_rejects(tables, x, raw, weight, 0, rstd, t, k);
    lemma_count_implies(t, pred, last);
    lemma_scaled(count_points(t, pred), count_points(t, last));
}

proof fn lemma_scaled(a: int, b: int)
    requires
        a <= b,
    ensures
        P * a <= P * b,
{
    assert(P * a <= P * b) by (nonlinear_arith)
        requires
            a <= b,
    ;
}

} // verus!
