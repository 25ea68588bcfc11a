//! What acceptance says of the committed tensors of the rescaling layers, the lookups,
//! the softmax and the normalizations, whatever plain tensors are handed in.

use super::attention::{
    broadcast_rows, index_column, lemma_mle_broadcast, row_indices, row_remainders, row_sums_hold,
    shifted_indices, softmax_divides, softmax_rows_checks, softmax_sums_hold,
    RowChallenges, RowTables,
};
use super::binding::{
    lemma_entry_residue, lemma_masked_products_rarely, lemma_masked_rarely, lemma_row_sums_bind,
    masked_products, masked_value,
};
use super::linear::agree;
use super::norms::{layer_norm_holds, normed_holds, rms_norm_holds};
use super::openings::{eq_self, hadamard};
use super::product::{grand_product, keys, lookup_holds, product_holds, table_keys};
use super::raw::{layer_norm_index, rms_norm_index};
use super::rejection::{
    keys_match, lemma_lookup_rejects, lemma_nonneg_rejects, lemma_normed_rejects,
    lemma_offset_residue, lemma_product_rejects, lemma_quotient_residues, lemma_softmax_rejects,
};
use super::rounding::{
    bit_holds, lemma_as_i32, lemma_mle_affine, low_bits, magnitude, nonneg_holds, range_holds,
    recomposed, relu_abs, relu_holds, relu_magnitudes, relu_pre, relu_rescaled, round_holds,
    round_offset, round_offsets, zero_table,
};
use crate::field::{
    finv, lemma_residue_add, lemma_residue_difference, lemma_residue_mul, lemma_residue_residue,
    lemma_residue_small, lemma_residue_sub, residue, residues, P,
};
use crate::fixed_point::{lemma_wrap, wrap};
use crate::integers::{as_i32, as_i64, lemma_log2, lemma_round_unique, round_div};
use crate::mle::{lemma_mle_add, lemma_mle_scale, mle};
use crate::poly::lemma_count_below_le;
use crate::prime::{lemma_finv, lemma_no_zero_divisors};
use crate::soundness::{
    count_below, count_points, lemma_count_none, lemma_count_range, lemma_fraction_either,
    lemma_fraction_implies, lemma_fraction_insert, lemma_schwartz_zippel, points, same_value,
};
use crate::sums::{lemma_pi_residue, lemma_sigma_eq, lemma_sigma_residue, sigma};
use vstd::arithmetic::power2::{lemma_pow2_pos, lemma_pow2_unfold, pow2};
use vstd::prelude::*;

verus! {

/// A rescale: if some entry of the committed output, less its bias, is not the integer
/// nearest to `input * scale / 2^shift` of the committed input, a half rounded up, the
/// proof is accepted for at most a fraction `t / P` of the challenges, whatever plain
/// tensors are handed in. Entry `k` holds embedded machine integers, and its remainder
/// is not so far off that it comes around the field.
pub proof fn lemma_rescale_binds(
    tables: (Seq<int>, Seq<int>),
    plain: (Seq<int>, Seq<int>),
    scale: int,
    bias: Seq<int>,
    shift: nat,
    t: nat,
    k: int,
)
    requires
        tables.0.len() == tables.1.len() == bias.len() == pow2(t),
        1 <= shift <= 62,
        0 <= k < bias.len(),
        residue(as_i32(tables.1[k])) == residue(tables.1[k]),
        residue(as_i32(bias[k])) == residue(bias[k]),
        ({
            let u = pow2(shift) as int;
            let rest = as_i64(tables.0[k]) * scale - (as_i32(tables.1[k]) - as_i32(bias[k])) * u;
            &&& !(-u <= 2 * rest < u)
            &&& 2 * (u - P) <= 2 * rest + u < 2 * P
        }),
    ensures
        P * count_points(t, |r: Seq<int>| round_holds(tables, plain, scale, bias, shift, r)) <= t
            * points(t),
{
    let (u, h) = (pow2(shift) as int, pow2((shift - 1) as nat) as int);
    let pred = |r: Seq<int>| round_holds(tables, plain, scale, bias, shift, r);
    let (input, output) = tables;
    let low = low_bits(round_offsets(plain.0, plain.1, scale, bias, shift), shift);
    let table = Seq::new(bias.len(), |i: int| input[i] * scale - (output[i] - bias[i]) * u + h);
    let off = round_offset(input[k], output[k], scale, bias[k], shift);
    lemma_pow2_pos(shift);
    lemma_pow2_unfold(shift);
    lemma_offset_residue(input[k], output[k], scale, bias[k], shift);
    vstd::arithmetic::div_mod::lemma_mod_bound(
        round_offsets(plain.0, plain.1, scale, bias, shift)[k],
        u,
    );
    assert(0 <= low[k] < u);
    assert(u <= 0x4000_0000_0000_0000) by {
        vstd::arithmetic::power2::lemma2_to64();
        lemma_pow2_unfold(64);
        lemma_pow2_unfold(63);
        if shift < 62 {
            vstd::arithmetic::power2::lemma_pow2_strictly_increases(shift, 62);
        }
    }
    assert(residue(off) >= u) by {
        if off < 0 {
            lemma_around(off);
            lemma_residue_small(off + P);
        } else {
            lemma_residue_small(off);
        }
    }
    lemma_residue_small(low[k]);
    assert(residues(table)[k] != residues(low)[k]);
    lemma_schwartz_zippel(table, low, t);
    assert forall|r: Seq<int>| r.len() == t && #[trigger] pred(r) implies same_value(table, low)(
        r,
    ) by {
        lemma_mle_affine(input, output, bias, table, scale, u, h, r);
    }
    lemma_fraction_implies(t, pred, same_value(table, low), t as int, t as int);
}

/// Adding the size of the field changes no residue.
proof fn lemma_around(x: int)
    ensures
        residue(x + P) == residue(x),
{
    reveal(residue);
    vstd::arithmetic::div_mod::lemma_mod_add_multiples_vanish(x, P as int);
}

/// Two embedded `i32` values are congruent only when they are equal.
proof fn lemma_i32_congruent(x: int, y: int)
    requires
        i32::MIN <= x <= i32::MAX,
        i32::MIN <= y <= i32::MAX,
        residue(x) == residue(y),
    ensures
        x == y,
{
    lemma_as_i32(x);
    lemma_as_i32(y);
}

/// A ReLU layer: with `q` the integer nearest to `input / 2^16` of the committed input at
/// entry `k`, a half rounded up, if the committed output there is not `q` plus the bias
/// where that is positive and zero elsewhere, the proof is accepted for at most a
/// fraction `t / P` of its challenges `(r1, r)`, whatever plain input is handed in.
pub proof fn lemma_relu_binds(
    tables: (Seq<int>, Seq<int>),
    input: Seq<int>,
    bias: Seq<int>,
    t: nat,
    k: int,
    q: int,
)
    requires
        tables.0.len() == tables.1.len() == input.len() == bias.len() == pow2(t),
        0 <= k < bias.len(),
        residue(as_i32(bias[k])) == residue(bias[k]),
        i64::MIN <= as_i64(tables.0[k]) <= i64::MAX,
        -0x1_0000 <= 2 * (as_i64(tables.0[k]) - q * 0x1_0000) < 0x1_0000,
        i32::MIN <= q <= i32::MAX,
        i32::MIN <= q + as_i32(bias[k]) <= i32::MAX,
        residue(tables.1[k]) != residue(
            if q + as_i32(bias[k]) > 0 {
                q + as_i32(bias[k])
            } else {
                0
            },
        ),
    ensures
        P * count_points(
            t + t,
            |r: Seq<int>|
                relu_holds(tables, input, bias, r.take(t as int), r.skip(t as int)),
        ) <= t * points(t + t),
{
    broadcast use lemma_residue_residue;

    let pred = |r: Seq<int>|
        relu_holds(tables, input, bias, r.take(t as int), r.skip(t as int));
    let resc = relu_rescaled(input);
    let zero = zero_table(bias.len());
    let w = wrap(round_div(as_i64(input[k]), 0x1_0000), 0x1_0000_0000);
    lemma_wrap(round_div(as_i64(input[k]), 0x1_0000), 0x1_0000_0000);
    lemma_as_i32(w);
    assert(resc[k] == residue(w));
    vstd::arithmetic::power2::lemma2_to64();
    lemma_residue_small(0);
    if w != q {
        // The rescale fails.
        let first = |r: Seq<int>| round_holds((tables.0, resc), (input, resc), 1, zero, 16, r);
        let x = as_i64(tables.0[k]);
        assert(as_i32(zero[k]) == 0) by {
            lemma_as_i32(0);
        }
        assert(pow2(16) == 0x1_0000);
        assert(!(-0x1_0000 <= 2 * (x - w * 0x1_0000) < 0x1_0000)) by {
            if -0x1_0000 <= 2 * (x - w * 0x1_0000) < 0x1_0000 {
                lemma_round_unique(x, 0x1_0000, w);
                lemma_round_unique(x, 0x1_0000, q);
            }
        }
        lemma_rescale_binds((tables.0, resc), (input, resc), 1, zero, 16, t, k);
        assert forall|r: Seq<int>| r.len() == t + t + 0 && #[trigger] pred(r) implies first(
            r.take(t as int) + r.skip((t + t) as int),
        ) by {
            assert(r.take(t as int) + r.skip((t + t) as int) =~= r.take(t as int));
        }
        assert(t + 0 == t && t + t + 0 == t + t);
        lemma_fraction_insert(t, t, 0, pred, first, t as int);
    } else {
        let (pre, abs, mags) = (
            relu_pre(input, bias),
            relu_abs(input, bias),
            relu_magnitudes(input, bias),
        );
        let v = q + as_i32(bias[k]);
        lemma_residue_add(resc[k], bias[k]);
        lemma_residue_add(q, as_i32(bias[k]));
        assert(pre[k] == residue(v));
        lemma_as_i32(v);
        assert(mags[k] == magnitude(v));
        lemma_wrap(mags[k], 0x1_0000_0000);
        let low = low_bits(mags, 31);
        let last = |r: Seq<int>|
            agree(abs, low, r) && residue(mle(tables.1, r) * 2) == residue(
                mle(pre, r) + mle(abs, r),
            );
        assert(P * count_points(t, last) <= t * points(t)) by {
            if v == i32::MIN {
                assert(abs[k] == residue(i32::MIN as int));
                assert(low[k] == 0);
                assert(residues(abs)[k] != residues(low)[k]) by {
                    if residue(abs[k]) == residue(low[k]) {
                        lemma_i32_congruent(i32::MIN as int, 0);
                    }
                }
                lemma_schwartz_zippel(abs, low, t);
                lemma_fraction_implies(t, last, same_value(abs, low), t as int, t as int);
            } else {
                let top = if v > 0 { v } else { 0 };
                assert(abs[k] == residue(magnitude(v)));
                lemma_residue_add(pre[k], abs[k]);
                lemma_residue_add(v, magnitude(v));
                assert(v + magnitude(v) == 2 * top);
                assert(residue(2 * tables.1[k]) != residue(pre[k] + abs[k])) by {
                    if residue(2 * tables.1[k]) == residue(pre[k] + abs[k]) {
                        lemma_residue_difference(2 * tables.1[k], 2 * top);
                        assert(2 * tables.1[k] - 2 * top == 2 * (tables.1[k] - top));
                        lemma_residue_small(2);
                        lemma_no_zero_divisors(2, tables.1[k] - top);
                        lemma_residue_difference(tables.1[k], top);
                    }
                }
                lemma_twice(tables.1, pre, abs, t, k, last);
            }
        }
        assert forall|r: Seq<int>| r.len() == 0 + t + t && #[trigger] pred(r) implies last(
            r.take(0) + r.skip((0 + t) as int),
        ) by {
            assert(r.take(0) + r.skip(t as int) =~= r.skip(t as int));
        }
        assert(0 + t == t && 0 + t + t == t + t);
        lemma_fraction_insert(0, t, t, pred, last, t as int);
    }
}

/// Twice a table is rarely the sum of two others that differ from it.
proof fn lemma_twice(
    out: Seq<int>,
    pre: Seq<int>,
    abs: Seq<int>,
    t: nat,
    k: int,
    last: spec_fn(Seq<int>) -> bool,
)
    requires
        out.len() == pre.len() == abs.len() == pow2(t),
        0 <= k < out.len(),
        residue(2 * out[k]) != residue(pre[k] + abs[k]),
        forall|r: Seq<int>|
            r.len() == t && #[trigger] last(r) ==> residue(mle(out, r) * 2) == residue(
                mle(pre, r) + mle(abs, r),
            ),
    ensures
        P * count_points(t, last) <= t * points(t),
{
    let twice = Seq::new(out.len(), |i: int| 2 * out[i]);
    let both = Seq::new(out.len(), |i: int| pre[i] + abs[i]);
    assert(residues(twice)[k] != residues(both)[k]);
    lemma_schwartz_zippel(twice, both, t);
    assert forall|r: Seq<int>| r.len() == t && #[trigger] last(r) implies same_value(twice, both)(
        r,
    ) by {
        lemma_mle_scale(out, twice, 2, r);
        lemma_mle_add(pre, abs, both, r);
    }
    lemma_fraction_implies(t, last, same_value(twice, both), t as int, t as int);
}

/// The committed lookup is accepted for more than a fraction `d / P` of its challenges
/// `(r, chal)`.
pub open spec fn lookup_often(
    tables: (Seq<int>, Seq<int>),
    plain: (Seq<int>, Seq<int>),
    indices: Seq<u32>,
    table: Seq<int>,
    beta: int,
    d: nat,
) -> spec_fn(int) -> bool {
    |alpha: int|
        P * count_points(
            d + d,
            |r: Seq<int>|
                lookup_holds(
                    tables,
                    plain,
                    indices,
                    table,
                    alpha,
                    beta,
                    r.take(d as int),
                    r.skip(d as int),
                ),
        ) > d * points(d + d)
}

/// A committed lookup with a committed pair that is no selected pair of the table, and
/// that `beta` tells from every one of them, is accepted for at most a fraction `d / P`
/// of its challenges, for all but as many values of `alpha` as there are pairs, whatever
/// plain columns are handed in.
pub proof fn lemma_lookup_binds(
    tables: (Seq<int>, Seq<int>),
    plain: (Seq<int>, Seq<int>),
    indices: Seq<u32>,
    table: Seq<int>,
    beta: int,
    d: nat,
    k: int,
)
    requires
        tables.0.len() == tables.1.len() == plain.0.len() == plain.1.len() == indices.len()
            == pow2(d),
        0 <= k < indices.len(),
        forall|j: int|
            0 <= j < indices.len() ==> residue(
                (#[trigger] indices[j]) as int + beta * table[indices[j] as int],
            ) != residue(tables.0[k] + beta * tables.1[k]),
    ensures
        count_below(P as nat, lookup_often(tables, plain, indices, table, beta, d))
            <= indices.len(),
{
    lemma_lookup_rejects(tables.0, tables.1, indices, table, beta, k);
    let often = lookup_often(tables, plain, indices, table, beta, d);
    let bad = keys_match(tables.0, tables.1, indices, table, beta);
    assert forall|alpha: int| 0 <= alpha < P && #[trigger] often(alpha) implies bad(alpha) by {
        if !bad(alpha) {
            lemma_lookup_rare(tables, plain, indices, table, alpha, beta, d);
        }
    }
    lemma_count_below_le(P as nat, P as nat, often, bad);
}

/// For a good `alpha` the committed lookup is accepted rarely.
proof fn lemma_lookup_rare(
    tables: (Seq<int>, Seq<int>),
    plain: (Seq<int>, Seq<int>),
    indices: Seq<u32>,
    table: Seq<int>,
    alpha: int,
    beta: int,
    d: nat,
)
    requires
        tables.0.len() == tables.1.len() == plain.0.len() == plain.1.len() == pow2(d),
        !keys_match(tables.0, tables.1, indices, table, beta)(alpha),
    ensures
        !lookup_often(tables, plain, indices, table, beta, d)(alpha),
{
    broadcast use lemma_residue_residue;

    let pred = |r: Seq<int>|
        lookup_holds(
            tables,
            plain,
            indices,
            table,
            alpha,
            beta,
            r.take(d as int),
            r.skip(d as int),
        );
    let n = pow2(d);
    let (ct, cp) = (column_keys(tables, beta), column_keys(plain, beta));
    if residues(ct) != residues(cp) {
        let q = same_value(ct, cp);
        lemma_schwartz_zippel(ct, cp, d);
        assert forall|r: Seq<int>| r.len() == d + d + 0 && #[trigger] pred(r) implies q(
            r.take(d as int) + r.skip((d + d) as int),
        ) by {
            let s = r.take(d as int);
            assert(r.take(d as int) + r.skip((d + d) as int) =~= s);
            lemma_column_keys(tables, beta, s);
            lemma_column_keys(plain, beta, s);
        }
        assert(d + 0 == d && d + d + 0 == d + d);
        lemma_fraction_insert(d, d, 0, pred, q, d as int);
    } else {
        let (kt, kp) = (
            keys(tables.0, tables.1, alpha, beta, n),
            keys(plain.0, plain.1, alpha, beta, n),
        );
        let c = residue(grand_product(table_keys(indices, table, alpha, beta)));
        let (f, g) = (super::product::entries(kt), super::product::entries(kp));
        assert forall|i: int| 0 <= i < n implies residue(#[trigger] f(i)) == residue(g(i)) by {
            lemma_entry_residue(ct, cp, i);
            lemma_residue_add(alpha, ct[i]);
            lemma_residue_add(alpha, cp[i]);
        }
        lemma_pi_residue(n, f, g);
        let q = |r: Seq<int>| product_holds(kp, c, r);
        lemma_product_rejects(kp, c, d);
        assert forall|r: Seq<int>| r.len() == 0 + d + d && #[trigger] pred(r) implies q(
            r.take(0) + r.skip((0 + d) as int),
        ) by {
            assert(r.take(0) + r.skip(d as int) =~= r.skip(d as int));
        }
        assert(0 + d == d && 0 + d + d == d + d);
        lemma_fraction_insert(0, d, d, pred, q, d as int);
    }
}

/// `x + beta * y` for every pair.
spec fn column_keys(columns: (Seq<int>, Seq<int>), beta: int) -> Seq<int> {
    Seq::new(columns.0.len(), |i: int| columns.0[i] + beta * columns.1[i])
}

proof fn lemma_column_keys(columns: (Seq<int>, Seq<int>), beta: int, r: Seq<int>)
    requires
        columns.0.len() == columns.1.len() == pow2(r.len()),
    ensures
        mle(column_keys(columns, beta), r) == mle(columns.0, r) + beta * mle(columns.1, r),
{
    let by = Seq::new(columns.0.len(), |i: int| beta * columns.1[i]);
    lemma_mle_scale(columns.1, by, beta, r);
    lemma_mle_add(columns.0, by, column_keys(columns, beta), r);
}

/// A softmax: if some committed output times the sum of the committed exp values is not
/// the committed exp value, the proof is accepted for at most a fraction `d / P` of the
/// last challenge, whatever the claimed sum, the plain tensors and the other challenges
/// are.
pub proof fn lemma_softmax_binds(
    tables: (Seq<int>, Seq<int>, Seq<int>),
    plain: (Seq<int>, Seq<int>),
    sum: int,
    exp_table: Seq<int>,
    offset: int,
    alpha: int,
    beta: int,
    r1: Seq<int>,
    chal: Seq<int>,
    d: nat,
    k: int,
)
    requires
        tables.1.len() == tables.2.len() == plain.1.len() == pow2(d),
        0 <= k < tables.1.len(),
        residue(sigma(pow2(d), |i: int| tables.1[i])) != 0,
        residue(tables.2[k] * sigma(pow2(d), |i: int| tables.1[i])) != residue(tables.1[k]),
    ensures
        P * count_points(
            d,
            |r: Seq<int>|
                softmax_sums_hold(
                    (tables.0, tables.1),
                    plain,
                    sum,
                    exp_table,
                    offset,
                    alpha,
                    beta,
                    r1,
                    chal,
                    r,
                ) && softmax_divides(tables.1, tables.2, sum, r),
        ) <= d * points(d),
{
    broadcast use lemma_residue_residue;

    let (e, y) = (tables.1, tables.2);
    let pred = |r: Seq<int>|
        softmax_sums_hold(
            (tables.0, tables.1),
            plain,
            sum,
            exp_table,
            offset,
            alpha,
            beta,
            r1,
            chal,
            r,
        ) && softmax_divides(tables.1, tables.2, sum, r);
    let s = sigma(pow2(d), |i: int| e[i]);
    if residues(e) != residues(plain.1) {
        lemma_schwartz_zippel(e, plain.1, d);
        lemma_fraction_implies(d, pred, same_value(e, plain.1), d as int, d as int);
    } else {
        let (f, g) = (|i: int| e[i], |i: int| plain.1[i]);
        assert forall|i: int| 0 <= i < pow2(d) implies residue(#[trigger] f(i)) == residue(
            g(i),
        ) by {
            lemma_entry_residue(e, plain.1, i);
        }
        lemma_sigma_residue(pow2(d), f, g);
        if sum != residue(s) {
            assert forall|r: Seq<int>| r.len() == d implies !#[trigger] pred(r) by {}
            lemma_count_none(d, pred);
            lemma_count_range(d, pred);
            vstd::arithmetic::power::lemma_pow_positive(P as int, d);
            assert(d * points(d) >= 0) by (nonlinear_arith)
                requires
                    points(d) > 0,
            ;
        } else {
            let inv = finv(sum);
            lemma_finv(sum);
            assert(residue(y[k]) != residue(e[k] * inv)) by {
                if residue(y[k]) == residue(e[k] * inv) {
                    lemma_residue_mul(y[k], s);
                    lemma_residue_mul(e[k] * inv, sum);
                    assert((e[k] * inv) * sum == e[k] * (sum * inv)) by (nonlinear_arith);
                    lemma_residue_mul(e[k], sum * inv);
                    lemma_residue_mul(e[k], 1);
                    lemma_residue_small(1);
                    assert(e[k] * 1 == e[k]);
                }
            }
            let divides = |r: Seq<int>| softmax_divides(e, y, sum, r);
            lemma_softmax_rejects(e, y, sum, d, k);
            lemma_fraction_implies(d, pred, divides, d as int, d as int);
        }
    }
}

/// The softmax proof is accepted for more than a fraction `d / P` of its challenges
/// `(r1, chal, r)`.
pub open spec fn softmax_often(
    tables: (Seq<int>, Seq<int>, Seq<int>),
    plain: (Seq<int>, Seq<int>),
    sum: int,
    exp_table: Seq<int>,
    offset: int,
    beta: int,
    d: nat,
) -> spec_fn(int) -> bool {
    |alpha: int|
        P * count_points(
            d + d + d,
            |r: Seq<int>|
                softmax_sums_hold(
                    (tables.0, tables.1),
                    plain,
                    sum,
                    exp_table,
                    offset,
                    alpha,
                    beta,
                    r.take(d as int),
                    r.subrange(d as int, (d + d) as int),
                    r.skip((d + d) as int),
                ) && softmax_divides(tables.1, tables.2, sum, r.skip((d + d) as int)),
        ) > d * points(d + d + d)
}

/// The exp values of a softmax: if the committed value at entry `k` is not the table
/// value at the index of the committed score there, and `beta` tells it from every table
/// value that the scores select, the proof is accepted for at most a fraction `d / P` of
/// its challenges, for all but as many values of `alpha` as there are entries, whatever
/// plain tensors are handed in.
pub proof fn lemma_softmax_lookup_binds(
    tables: (Seq<int>, Seq<int>, Seq<int>),
    plain: (Seq<int>, Seq<int>),
    sum: int,
    exp_table: Seq<int>,
    offset: int,
    beta: int,
    d: nat,
    k: int,
)
    requires
        tables.0.len() == tables.1.len() == plain.0.len() == plain.1.len() == pow2(d),
        exp_table.len() <= 0x8000_0000,
        forall|i: int| 0 <= i < pow2(d) ==> residue(#[trigger] tables.0[i]) == tables.0[i],
        forall|i: int| 0 <= i < pow2(d) ==> residue(#[trigger] plain.0[i]) == plain.0[i],
        forall|i: int|
            0 <= i < pow2(d) ==> 0 <= as_i32(#[trigger] tables.0[i]) + offset < exp_table.len(),
        0 <= k < pow2(d),
        forall|j: int|
            0 <= j < pow2(d) ==> residue(
                (as_i32(#[trigger] tables.0[j]) + offset) + beta * exp_table[as_i32(tables.0[j])
                    + offset],
            ) != residue((as_i32(tables.0[k]) + offset) + beta * tables.1[k]),
    ensures
        count_below(
            P as nat,
            softmax_often(tables, plain, sum, exp_table, offset, beta, d),
        ) <= pow2(d),
{
    let often = softmax_often(tables, plain, sum, exp_table, offset, beta, d);
    let indices = shifted_indices(plain.0, offset);
    let column = index_column(indices);
    let looked_up = lookup_often(
        (column, tables.1),
        (column, plain.1),
        indices,
        exp_table,
        beta,
        d,
    );
    let none = |alpha: int| false;
    let same = residues(tables.0) == residues(plain.0);
    assert forall|alpha: int| 0 <= alpha < P && #[trigger] often(alpha) implies same && looked_up(
        alpha,
    ) by {
        let pred = |r: Seq<int>|
            softmax_sums_hold(
                (tables.0, tables.1),
                plain,
                sum,
                exp_table,
                offset,
                alpha,
                beta,
                r.take(d as int),
                r.subrange(d as int, (d + d) as int),
                r.skip((d + d) as int),
            ) && softmax_divides(tables.1, tables.2, sum, r.skip((d + d) as int));
        if !same {
            let q = same_value(tables.0, plain.0);
            lemma_schwartz_zippel(tables.0, plain.0, d);
            assert forall|r: Seq<int>| r.len() == 0 + (d + d) + d && #[trigger] pred(r) implies q(
                r.take(0) + r.skip((0 + (d + d)) as int),
            ) by {
                assert(r.take(0) + r.skip((d + d) as int) =~= r.skip((d + d) as int));
            }
            assert(0 + d == d && 0 + (d + d) + d == d + d + d);
            lemma_fraction_insert(0, d + d, d, pred, q, d as int);
        } else if !looked_up(alpha) {
            let q = |r: Seq<int>|
                lookup_holds(
                    (column, tables.1),
                    (column, plain.1),
                    indices,
                    exp_table,
                    alpha,
                    beta,
                    r.take(d as int),
                    r.skip(d as int),
                );
            assert forall|r: Seq<int>| r.len() == (d + d) + d + 0 && #[trigger] pred(r) implies q(
                r.take((d + d) as int) + r.skip((d + d + d) as int),
            ) by {
                let s = r.take((d + d) as int) + r.skip((d + d + d) as int);
                assert(s.take(d as int) =~= r.take(d as int));
                assert(s.skip(d as int) =~= r.subrange(d as int, (d + d) as int));
            }
            assert((d + d) + 0 == d + d && (d + d) + d + 0 == d + d + d);
            lemma_fraction_insert(d + d, d, 0, pred, q, d as int);
        }
    }
    if same {
        assert forall|i: int| 0 <= i < pow2(d) implies #[trigger] indices[i] as int == as_i32(
            tables.0[i],
        ) + offset by {
            lemma_entry_residue(tables.0, plain.0, i);
            assert(0 <= as_i32(tables.0[i]) + offset < exp_table.len());
            vstd::arithmetic::div_mod::lemma_small_mod(
                (as_i32(tables.0[i]) + offset) as nat,
                0x1_0000_0000,
            );
        }
        assert forall|i: int| 0 <= i < indices.len() implies #[trigger] indices[i]
            < 0x8000_0000 by {
            assert(0 <= as_i32(tables.0[i]) + offset < exp_table.len());
        }
        super::attention::lemma_index_column(indices);
        lemma_residue_add(column[k], beta * tables.1[k]);
        lemma_residue_add(indices[k] as int, beta * tables.1[k]);
        assert forall|j: int| 0 <= j < indices.len() implies residue(
            (#[trigger] indices[j]) as int + beta * exp_table[indices[j] as int],
        ) != residue(column[k] + beta * tables.1[k]) by {
            assert(0 <= as_i32(tables.0[j]) + offset < exp_table.len());
        }
        lemma_lookup_binds(
            (column, tables.1),
            (column, plain.1),
            indices,
            exp_table,
            beta,
            d,
            k,
        );
        lemma_count_below_le(P as nat, P as nat, often, looked_up);
    } else {
        lemma_count_below_le(P as nat, P as nat, often, none);
        assert(count_below(P as nat, none) == 0) by {
            lemma_nothing(P as nat, none);
        }
    }
}

/// Nothing is counted where nothing holds.
proof fn lemma_nothing(n: nat, none: spec_fn(int) -> bool)
    requires
        forall|x: int| !#[trigger] none(x),
    ensures
        count_below(n, none) == 0,
{
    crate::sums::lemma_sigma_zero(n, |x: int| crate::soundness::indicator(none(x)));
}

/// The shift of a row-wise softmax: if some committed shifted score is not the committed
/// score less the committed shift of its row, the proof is accepted for at most a
/// fraction `d / P` of the challenge of the shift.
pub proof fn lemma_rows_shift_binds(
    t: RowTables,
    p: RowTables,
    exp_table: Seq<int>,
    offset: int,
    dr: nat,
    dc: nat,
    alpha: int,
    beta: int,
    ch: RowChallenges,
    i: int,
    j: int,
)
    requires
        t.scores.len() == t.shifted.len() == pow2(dr + dc),
        t.c.len() == pow2(dr),
        0 <= i < pow2(dr),
        0 <= j < pow2(dc),
        residue(t.shifted[i * pow2(dc) + j]) != residue(t.scores[i * pow2(dc) + j] - t.c[i]),
    ensures
        P * count_points(
            dr + dc,
            |r: Seq<int>|
                softmax_rows_checks(
                    t,
                    p,
                    exp_table,
                    offset,
                    pow2(dr),
                    pow2(dc),
                    alpha,
                    beta,
                    RowChallenges { shift: r, ..ch },
                ),
        ) <= (dr + dc) * points(dr + dc),
{
    let (nr, nc, d) = (pow2(dr), pow2(dc), dr + dc);
    let pred = |r: Seq<int>|
        softmax_rows_checks(
            t,
            p,
            exp_table,
            offset,
            nr,
            nc,
            alpha,
            beta,
            RowChallenges { shift: r, ..ch },
        );
    let bc = broadcast_rows(t.c, nc);
    lemma_log2(dc);
    vstd::arithmetic::power2::lemma_pow2_adds(dr, dc);
    let minus = Seq::new(pow2(d), |x: int| (-1) * bc[x]);
    let diff = Seq::new(pow2(d), |x: int| t.scores[x] + minus[x]);
    lemma_place(i, j, nr, nc);
    assert(residues(t.shifted)[i * nc + j] != residues(diff)[i * nc + j]);
    lemma_schwartz_zippel(t.shifted, diff, d);
    assert forall|r: Seq<int>| r.len() == d && #[trigger] pred(r) implies same_value(
        t.shifted,
        diff,
    )(r) by {
        lemma_mle_broadcast(t.c, nc, r, dc);
        lemma_mle_scale(bc, minus, -1, r);
        lemma_mle_add(t.scores, minus, diff, r);
    }
    lemma_fraction_implies(d, pred, same_value(t.shifted, diff), d as int, d as int);
}

/// The place of row `i`, column `j` in a flattened matrix.
proof fn lemma_place(i: int, j: int, n_rows: nat, n_cols: nat)
    requires
        0 <= i < n_rows,
        0 <= j < n_cols,
    ensures
        0 <= i * n_cols + j < n_rows * n_cols,
        (i * n_cols + j) / (n_cols as int) == i,
{
    vstd::arithmetic::div_mod::lemma_fundamental_div_mod_converse(
        i * n_cols + j,
        n_cols as int,
        i,
        j,
    );
    assert(0 <= i * n_cols + j < n_rows * n_cols) by (nonlinear_arith)
        requires
            0 <= i < n_rows,
            0 <= j < n_cols,
    ;
}

/// The row-wise softmax proof is accepted for more than a fraction `d / P` of the
/// challenges of its lookup.
pub open spec fn rows_lookup_often(
    t: RowTables,
    p: RowTables,
    exp_table: Seq<int>,
    offset: int,
    n_rows: nat,
    n_cols: nat,
    beta: int,
    ch: RowChallenges,
    d: nat,
) -> spec_fn(int) -> bool {
    |alpha: int|
        P * count_points(
            d + d,
            |r: Seq<int>|
                softmax_rows_checks(
                    t,
                    p,
                    exp_table,
                    offset,
                    n_rows,
                    n_cols,
                    alpha,
                    beta,
                    RowChallenges { lookup: r.take(d as int), products: r.skip(d as int), ..ch },
                ),
        ) > d * points(d + d)
}

/// The exp values of a row-wise softmax: if the committed value at entry `k` is not the
/// table value at the index of the plain shifted score, and `beta` tells it from every
/// table value that the plain shifted scores select, the proof is accepted for at most a
/// fraction `d / P` of the challenges of the lookup, for all but as many values of `alpha`
/// as there are entries. Of the shifted scores it is the plain ones that the lookup reads.
pub proof fn lemma_rows_lookup_binds(
    t: RowTables,
    p: RowTables,
    exp_table: Seq<int>,
    offset: int,
    n_rows: nat,
    n_cols: nat,
    beta: int,
    ch: RowChallenges,
    d: nat,
    k: int,
)
    requires
        t.e.len() == p.e.len() == p.shifted.len() == pow2(d),
        0 < exp_table.len() <= 0x8000_0000,
        0 <= k < pow2(d),
        ({
            let at = |j: int|
                super::raw::clamped_index(p.shifted[j], offset, exp_table.len() as int);
            forall|j: int|
                0 <= j < pow2(d) ==> residue(#[trigger] at(j) + beta * exp_table[at(j)]) != residue(
                    at(k) + beta * t.e[k],
                )
        }),
    ensures
        count_below(
            P as nat,
            rows_lookup_often(t, p, exp_table, offset, n_rows, n_cols, beta, ch, d),
        ) <= pow2(d),
{
    let often = rows_lookup_often(t, p, exp_table, offset, n_rows, n_cols, beta, ch, d);
    let indices = row_indices(p, exp_table, offset);
    let column = index_column(indices);
    let at = |j: int| super::raw::clamped_index(p.shifted[j], offset, exp_table.len() as int);
    let looked_up = lookup_often((column, t.e), (column, p.e), indices, exp_table, beta, d);
    assert forall|j: int| 0 <= j < indices.len() implies #[trigger] indices[j] < 0x8000_0000
        && indices[j] as int == at(j) by {
        super::raw::lemma_clamped_index(p.shifted[j], offset, exp_table.len() as int);
    }
    super::attention::lemma_index_column(indices);
    lemma_residue_add(column[k], beta * t.e[k]);
    lemma_residue_add(indices[k] as int, beta * t.e[k]);
    assert forall|j: int| 0 <= j < indices.len() implies residue(
        (#[trigger] indices[j]) as int + beta * exp_table[indices[j] as int],
    ) != residue(column[k] + beta * t.e[k]) by {
        assert(residue(at(j) + beta * exp_table[at(j)]) != residue(at(k) + beta * t.e[k]));
    }
    lemma_lookup_binds((column, t.e), (column, p.e), indices, exp_table, beta, d, k);
    assert forall|alpha: int| 0 <= alpha < P && #[trigger] often(alpha) implies looked_up(
        alpha,
    ) by {
        if !looked_up(alpha) {
            let pred = |r: Seq<int>|
                softmax_rows_checks(
                    t,
                    p,
                    exp_table,
                    offset,
                    n_rows,
                    n_cols,
                    alpha,
                    beta,
                    RowChallenges { lookup: r.take(d as int), products: r.skip(d as int), ..ch },
                );
            let q = |r: Seq<int>|
                lookup_holds(
                    (column, t.e),
                    (column, p.e),
                    indices,
                    exp_table,
                    alpha,
                    beta,
                    r.take(d as int),
                    r.skip(d as int),
                );
            lemma_fraction_implies(d + d, pred, q, d as int, d as int);
        }
    }
    lemma_count_below_le(P as nat, P as nat, often, looked_up);
}

/// The row sums of a row-wise softmax: if the committed sum of some row is not the sum
/// of the committed exp values of that row, the proof is accepted for at most a fraction
/// `(dr + 2d) / P` of the challenges of the row sums, a row point followed by a full one,
/// whatever plain tensors are handed in.
pub proof fn lemma_rows_sums_bind(
    t: RowTables,
    p: RowTables,
    exp_table: Seq<int>,
    offset: int,
    n_rows: nat,
    n_cols: nat,
    alpha: int,
    beta: int,
    ch: RowChallenges,
    dr: nat,
    d: nat,
    k: int,
)
    requires
        n_rows == pow2(dr),
        n_cols > 0,
        n_rows * n_cols == pow2(d),
        t.e.len() == p.e.len() == pow2(d),
        t.sum.len() == p.sum.len() == n_rows,
        0 <= k < n_rows,
        residue(t.sum[k]) != residue(sigma(n_cols, |j: int| t.e[k * n_cols + j])),
    ensures
        P * count_points(
            dr + d,
            |r: Seq<int>|
                softmax_rows_checks(
                    t,
                    p,
                    exp_table,
                    offset,
                    n_rows,
                    n_cols,
                    alpha,
                    beta,
                    RowChallenges { row: r.take(dr as int), row_sums: r.skip(dr as int), ..ch },
                ),
        ) <= (dr + 2 * d) * points(dr + d),
{
    let pred = |r: Seq<int>|
        softmax_rows_checks(
            t,
            p,
            exp_table,
            offset,
            n_rows,
            n_cols,
            alpha,
            beta,
            RowChallenges { row: r.take(dr as int), row_sums: r.skip(dr as int), ..ch },
        );
    let q = |r: Seq<int>|
        row_sums_hold(
            (t.e, t.sum),
            (p.e, p.sum),
            n_rows,
            n_cols,
            r.take(dr as int),
            r.skip(dr as int),
        );
    lemma_row_sums_bind((t.e, t.sum), (p.e, p.sum), n_rows, n_cols, dr, d, k);
    lemma_fraction_implies(dr + d, pred, q, (dr + 2 * d) as int, (dr + 2 * d) as int);
}

/// The row sums again, for plain exp values that are the committed ones: then a wrong
/// committed sum is accepted for at most a fraction `dr / P` of the row challenge alone.
pub proof fn lemma_rows_sums_bind_rows(
    t: RowTables,
    p: RowTables,
    exp_table: Seq<int>,
    offset: int,
    n_rows: nat,
    n_cols: nat,
    alpha: int,
    beta: int,
    ch: RowChallenges,
    dr: nat,
    k: int,
)
    requires
        n_rows == pow2(dr),
        n_cols > 0,
        p.e.len() == n_rows * n_cols,
        p.e == t.e,
        t.sum.len() == n_rows,
        0 <= k < n_rows,
        residue(t.sum[k]) != residue(sigma(n_cols, |j: int| t.e[k * n_cols + j])),
    ensures
        P * count_points(
            dr,
            |r: Seq<int>|
                softmax_rows_checks(
                    t,
                    p,
                    exp_table,
                    offset,
                    n_rows,
                    n_cols,
                    alpha,
                    beta,
                    RowChallenges { row: r, ..ch },
                ),
        ) <= dr * points(dr),
{
    let pred = |r: Seq<int>|
        softmax_rows_checks(
            t,
            p,
            exp_table,
            offset,
            n_rows,
            n_cols,
            alpha,
            beta,
            RowChallenges { row: r, ..ch },
        );
    let totals = super::attention::row_totals(p.e, n_rows, n_cols);
    assert(totals[k] == sigma(n_cols, |j: int| t.e[k * n_cols + j]));
    assert(residues(t.sum)[k] != residues(totals)[k]);
    lemma_schwartz_zippel(t.sum, totals, dr);
    assert forall|r: Seq<int>| r.len() == dr && #[trigger] pred(r) implies same_value(
        t.sum,
        totals,
    )(r) by {
        super::attention::lemma_row_weights(p.e, n_rows, n_cols, r);
    }
    lemma_fraction_implies(dr, pred, same_value(t.sum, totals), dr as int, dr as int);
}

/// The broadcast of a row-wise softmax: if the committed broadcast sum at some entry is
/// not the committed sum of its row, the proof is accepted for at most a fraction
/// `d / P` of the challenge of the division.
pub proof fn lemma_rows_broadcast_binds(
    t: RowTables,
    p: RowTables,
    exp_table: Seq<int>,
    offset: int,
    dr: nat,
    dc: nat,
    alpha: int,
    beta: int,
    ch: RowChallenges,
    i: int,
    j: int,
)
    requires
        t.sum_broadcast.len() == pow2(dr + dc),
        t.sum.len() == pow2(dr),
        0 <= i < pow2(dr),
        0 <= j < pow2(dc),
        residue(t.sum_broadcast[i * pow2(dc) + j]) != residue(t.sum[i]),
    ensures
        P * count_points(
            dr + dc,
            |r: Seq<int>|
                softmax_rows_checks(
                    t,
                    p,
                    exp_table,
                    offset,
                    pow2(dr),
                    pow2(dc),
                    alpha,
                    beta,
                    RowChallenges { division: r, ..ch },
                ),
        ) <= (dr + dc) * points(dr + dc),
{
    let (nr, nc, d) = (pow2(dr), pow2(dc), dr + dc);
    let pred = |r: Seq<int>|
        softmax_rows_checks(
            t,
            p,
            exp_table,
            offset,
            nr,
            nc,
            alpha,
            beta,
            RowChallenges { division: r, ..ch },
        );
    let bs = broadcast_rows(t.sum, nc);
    lemma_log2(dc);
    vstd::arithmetic::power2::lemma_pow2_adds(dr, dc);
    lemma_place(i, j, nr, nc);
    assert(residues(t.sum_broadcast)[i * nc + j] != residues(bs)[i * nc + j]);
    lemma_schwartz_zippel(t.sum_broadcast, bs, d);
    assert forall|r: Seq<int>| r.len() == d && #[trigger] pred(r) implies same_value(
        t.sum_broadcast,
        bs,
    )(r) by {
        lemma_mle_broadcast(t.sum, nc, r, dc);
    }
    lemma_fraction_implies(d, pred, same_value(t.sum_broadcast, bs), d as int, d as int);
}

/// The output of a row-wise softmax: if the committed output at entry `k` is not the
/// integer nearest to `e * 2^16 / sum` of the committed exp value and the committed
/// broadcast sum there, a half rounded up, the proof is accepted for at most a fraction
/// `4d / P` of the challenges of the division and of the two sign checks, whatever plain
/// tensors are handed in. The three values are embedded `i32` integers, and the sum is
/// positive.
pub proof fn lemma_rows_output_binds(
    t: RowTables,
    p: RowTables,
    exp_table: Seq<int>,
    offset: int,
    n_rows: nat,
    n_cols: nat,
    alpha: int,
    beta: int,
    ch: RowChallenges,
    d: nat,
    k: int,
)
    requires
        t.e.len() == t.out.len() == t.sum_broadcast.len() == pow2(d),
        p.e.len() == p.out.len() == p.sum_broadcast.len() == pow2(d),
        0 <= k < pow2(d),
        residue(as_i32(t.e[k])) == residue(t.e[k]),
        residue(as_i32(t.out[k])) == residue(t.out[k]),
        residue(as_i32(t.sum_broadcast[k])) == residue(t.sum_broadcast[k]),
        as_i32(t.sum_broadcast[k]) > 0,
        ({
            let sum = as_i32(t.sum_broadcast[k]);
            !(-sum <= 2 * (as_i32(t.e[k]) * 0x1_0000 - as_i32(t.out[k]) * sum) < sum)
        }),
    ensures
        P * count_points(
            d + d + d,
            |r: Seq<int>|
                softmax_rows_checks(
                    t,
                    p,
                    exp_table,
                    offset,
                    n_rows,
                    n_cols,
                    alpha,
                    beta,
                    RowChallenges {
                        division: r.take(d as int),
                        lower: r.subrange(d as int, (d + d) as int),
                        upper: r.skip((d + d) as int),
                        ..ch
                    },
                ),
        ) <= (4 * d) * points(d + d + d),
{
    broadcast use lemma_residue_residue;

    let pred = |r: Seq<int>|
        softmax_rows_checks(
            t,
            p,
            exp_table,
            offset,
            n_rows,
            n_cols,
            alpha,
            beta,
            RowChallenges {
                division: r.take(d as int),
                lower: r.subrange(d as int, (d + d) as int),
                upper: r.skip((d + d) as int),
                ..ch
            },
        );
    let (e, out, sum) = (as_i32(t.e[k]), as_i32(t.out[k]), as_i32(t.sum_broadcast[k]));
    let (s, c) = (t.sum_broadcast[k], (4 * d) as int);
    let rem = row_remainders(p);
    assert(d + (d + d) + 0 == d + d + d && d + 0 == d);
    if residue(t.e[k]) != residue(p.e[k]) {
        let q = masked_value(t.e, p.e);
        assert(residues(t.e)[k] != residues(p.e)[k]);
        lemma_masked_rarely(t.e, p.e, d);
        assert forall|r: Seq<int>| r.len() == d + (d + d) + 0 && #[trigger] pred(r) implies q(
            r.take(d as int) + r.skip((d + (d + d)) as int),
        ) by {
            assert(r.take(d as int) + r.skip((d + (d + d)) as int) =~= r.take(d as int));
        }
        lemma_fraction_insert(d, d + d, 0, pred, q, (3 * d) as int);
        lemma_fraction_implies(d + d + d, pred, pred, (3 * d) as int, c);
    } else if residue(t.out[k] * s) != residue(p.out[k] * p.sum_broadcast[k]) {
        let q = masked_products(t.out, t.sum_broadcast, p.out, p.sum_broadcast);
        lemma_masked_products_rarely(t.out, t.sum_broadcast, p.out, p.sum_broadcast, d, k);
        assert forall|r: Seq<int>| r.len() == d + (d + d) + 0 && #[trigger] pred(r) implies q(
            r.take(d as int) + r.skip((d + (d + d)) as int),
        ) by {
            assert(r.take(d as int) + r.skip((d + (d + d)) as int) =~= r.take(d as int));
        }
        lemma_fraction_insert(d, d + d, 0, pred, q, c);
    } else {
        assert(residue(rem[k]) == residue(e * 0x1_0000 - out * sum)) by {
            lemma_residue_mul(e, 0x1_0000);
            lemma_residue_mul(t.e[k], 0x1_0000);
            lemma_residue_mul(p.e[k], 0x1_0000);
            lemma_residue_mul(out, sum);
            lemma_residue_mul(t.out[k], s);
            lemma_residue_sub(e * 0x1_0000, out * sum);
            lemma_residue_sub(p.e[k] * 0x1_0000, p.out[k] * p.sum_broadcast[k]);
        }
        if out == round_div(e * 0x1_0000, sum) {
            crate::integers::lemma_round_remainder(e * 0x1_0000, sum);
        }
        lemma_wrap(crate::fixed_point::signed(t.e[k], i32::MAX as int), 0x1_0000_0000);
        lemma_wrap(crate::fixed_point::signed(t.out[k], i32::MAX as int), 0x1_0000_0000);
        lemma_wrap(crate::fixed_point::signed(s, i32::MAX as int), 0x1_0000_0000);
        lemma_quotient_residues(e, out, sum, rem[k]);
        lemma_residue_add(2 * rem[k], sum);
        lemma_residue_add(2 * rem[k], s);
        lemma_residue_add(sum, residue(-2) * rem[k] + residue(-1));
        lemma_residue_add(s, residue(-2) * rem[k] + residue(-1));
        if residue(2 * rem[k] + 1 * s + 0) > i32::MAX {
            let q = |r: Seq<int>|
                nonneg_holds((rem, t.sum_broadcast), (rem, p.sum_broadcast), 2, 1, 0, r);
            lemma_nonneg_rejects((rem, t.sum_broadcast), (rem, p.sum_broadcast), 2, 1, 0, d, k);
            let tail = |r: Seq<int>| q(r.take(d as int));
            assert forall|r: Seq<int>| r.len() == d + d + 0 && #[trigger] tail(r) implies q(
                r.take(d as int) + r.skip((d + d) as int),
            ) by {
                assert(r.take(d as int) + r.skip((d + d) as int) =~= r.take(d as int));
            }
            assert(d + d + 0 == d + d);
            lemma_fraction_insert(d, d, 0, tail, q, d as int);
            assert forall|r: Seq<int>| r.len() == 0 + d + (d + d) && #[trigger] pred(r) implies tail(
                r.take(0) + r.skip((0 + d) as int),
            ) by {
                let w = r.take(0) + r.skip(d as int);
                assert(w.take(d as int) =~= r.subrange(d as int, (d + d) as int));
            }
            assert(0 + (d + d) == d + d && 0 + d + (d + d) == d + d + d);
            lemma_fraction_insert(0, d, d + d, pred, tail, d as int);
        } else {
            let (a, b) = (residue(-2), residue(-1));
            let q = |r: Seq<int>|
                nonneg_holds((t.sum_broadcast, rem), (p.sum_broadcast, rem), 1, a, b, r);
            lemma_nonneg_rejects((t.sum_broadcast, rem), (p.sum_broadcast, rem), 1, a, b, d, k);
            assert forall|r: Seq<int>| r.len() == 0 + (d + d) + d && #[trigger] pred(r) implies q(
                r.take(0) + r.skip((0 + (d + d)) as int),
            ) by {
                assert(r.take(0) + r.skip((d + d) as int) =~= r.skip((d + d) as int));
            }
            assert(0 + d == d && 0 + (d + d) + d == d + d + d);
            lemma_fraction_insert(0, d + d, d, pred, q, d as int);
        }
        lemma_fraction_implies(d + d + d, pred, pred, d as int, c);
    }
}

/// A LayerNorm of committed tensors: with `m` the mean of the first `n_real` entries and
/// `v` the mean of their squared distances from it, both to the nearest integer, and
/// `i` what is left of `v` without its low 18 bits, if the committed output at some entry
/// is not `(x - m) * rsqrt_table[i] * w`, the proof is accepted for at most a fraction
/// `3d / P` of its challenges `(r1, r2, r)`, whatever plain tensors are handed in.
pub proof fn lemma_layer_norm_binds(
    tables: (Seq<int>, Seq<int>),
    plain: (Seq<int>, Seq<int>),
    weight: Seq<int>,
    n_real: nat,
    rsqrt_table: Seq<int>,
    d: nat,
    k: int,
    m: int,
    v: int,
    i: int,
)
    requires
        tables.0.len() == tables.1.len() == plain.0.len() == plain.1.len() == weight.len()
            == pow2(d),
        forall|j: int| 0 <= j < pow2(d) ==> residue(#[trigger] tables.0[j]) == tables.0[j],
        forall|j: int| 0 <= j < pow2(d) ==> residue(#[trigger] plain.0[j]) == plain.0[j],
        0 < n_real <= pow2(d),
        -n_real <= 2 * (sigma(n_real, |j: int| as_i32(tables.0[j])) - m * n_real) < n_real,
        -n_real <= 2 * (sigma(
            n_real,
            |j: int| (as_i32(tables.0[j]) - m) * (as_i32(tables.0[j]) - m),
        ) - v * n_real) < n_real,
        i * 0x4_0000 <= v < (i + 1) * 0x4_0000,
        i < 0x1_0000_0000,
        0 <= k < pow2(d),
        residue(tables.1[k]) != residue((tables.0[k] - m) * rsqrt_table[i] * weight[k]),
    ensures
        P * count_points(
            d + d + d,
            |r: Seq<int>|
                layer_norm_holds(
                    tables,
                    plain,
                    weight,
                    n_real,
                    rsqrt_table,
                    r.take(d as int),
                    r.subrange(d as int, (d + d) as int),
                    r.skip((d + d) as int),
                ),
        ) <= (3 * d) * points(d + d + d),
{
    broadcast use lemma_residue_residue;

    let pred = |r: Seq<int>|
        layer_norm_holds(
            tables,
            plain,
            weight,
            n_real,
            rsqrt_table,
            r.take(d as int),
            r.subrange(d as int, (d + d) as int),
            r.skip((d + d) as int),
        );
    let c = (3 * d) as int;
    assert(d + (d + d) + 0 == d + d + d && d + 0 == d);
    assert(0 + d == d && 0 + (d + d) + d == d + d + d);
    if residues(tables.0) != residues(plain.0) {
        let q = same_value(tables.0, plain.0);
        lemma_schwartz_zippel(tables.0, plain.0, d);
        assert forall|r: Seq<int>| r.len() == d + (d + d) + 0 && #[trigger] pred(r) implies q(
            r.take(d as int) + r.skip((d + (d + d)) as int),
        ) by {
            assert(r.take(d as int) + r.skip((d + (d + d)) as int) =~= r.take(d as int));
        }
        lemma_fraction_insert(d, d + d, 0, pred, q, d as int);
        lemma_fraction_implies(d + d + d, pred, pred, d as int, c);
    } else {
        lemma_canonical_equal(tables.0, plain.0);
        let x = tables.0;
        super::raw::lemma_rounded_mean(x, n_real, m);
        super::raw::lemma_layer_norm_index(x, n_real, m, v);
        assert(layer_norm_index(x, n_real) == i);
        let (mean, rstd) = (residue(m), rsqrt_table[i]);
        let q = |r: Seq<int>| normed_holds(tables, plain, weight, mean, rstd, r);
        assert(residue((x[k] - mean) * rstd * weight[k]) == residue(
            (x[k] - m) * rstd * weight[k],
        )) by {
            lemma_residue_sub(x[k], mean);
            lemma_residue_sub(x[k], m);
            crate::sumcheck::lemma_mul3_residue(
                x[k] - mean,
                rstd,
                weight[k],
                x[k] - m,
                rstd,
                weight[k],
            );
        }
        lemma_normed_binds(tables, plain, weight, mean, rstd, d, k);
        assert forall|r: Seq<int>| r.len() == 0 + (d + d) + d && #[trigger] pred(r) implies q(
            r.take(0) + r.skip((0 + (d + d)) as int),
        ) by {
            assert(r.take(0) + r.skip((d + d) as int) =~= r.skip((d + d) as int));
        }
        lemma_fraction_insert(0, d + d, d, pred, q, c);
    }
}

/// Congruent canonical tables are equal.
proof fn lemma_canonical_equal(a: Seq<int>, b: Seq<int>)
    requires
        residues(a) == residues(b),
        forall|j: int| 0 <= j < a.len() ==> residue(#[trigger] a[j]) == a[j],
        forall|j: int| 0 <= j < a.len() ==> residue(#[trigger] b[j]) == b[j],
    ensures
        a == b,
{
    assert(residues(a).len() == a.len() && residues(b).len() == b.len());
    assert forall|j: int| 0 <= j < a.len() implies a[j] == b[j] by {
        lemma_entry_residue(a, b, j);
        assert(residue(a[j]) == a[j] && residue(b[j]) == b[j]);
    }
    assert(a =~= b);
}

/// The pointwise check of a normalization whose plain input gives, at entry `k`, another
/// output than the committed one.
proof fn lemma_normed_binds(
    tables: (Seq<int>, Seq<int>),
    plain: (Seq<int>, Seq<int>),
    weight: Seq<int>,
    mean: int,
    rstd: int,
    d: nat,
    k: int,
)
    requires
        tables.1.len() == plain.0.len() == plain.1.len() == weight.len() == pow2(d),
        0 <= k < pow2(d),
        residue(tables.1[k]) != residue((plain.0[k] - mean) * rstd * weight[k]),
    ensures
        P * count_points(
            d,
            |r: Seq<int>| normed_holds(tables, plain, weight, mean, rstd, r),
        ) <= (3 * d) * points(d),
{
    let q = |r: Seq<int>| normed_holds(tables, plain, weight, mean, rstd, r);
    if residues(tables.1) != residues(plain.1) {
        lemma_masked_rarely(tables.1, plain.1, d);
        lemma_fraction_implies(
            d,
            q,
            masked_value(tables.1, plain.1),
            (3 * d) as int,
            (3 * d) as int,
        );
    } else {
        lemma_entry_residue(tables.1, plain.1, k);
        lemma_normed_rejects(tables, plain.0, plain.1, weight, mean, rstd, d, k);
        let other = |r: Seq<int>|
            normed_holds(tables, (plain.0, plain.1), weight, mean, rstd, r);
        lemma_fraction_implies(d, q, other, d as int, (3 * d) as int);
    }
}

/// An RMSNorm of committed tensors: with `v` the mean of the squares of the first
/// `n_real` entries to the nearest integer, and `i` what is left of `v` without its low
/// 18 bits, if the committed output at some entry is not `x * rsqrt_table[i] * w`, the
/// proof is accepted for at most a fraction `4d / P` of its challenges `(r2, r)`,
/// whatever plain tensors are handed in.
pub proof fn lemma_rms_norm_binds(
    tables: (Seq<int>, Seq<int>),
    plain: (Seq<int>, Seq<int>),
    weight: Seq<int>,
    n_real: nat,
    rsqrt_table: Seq<int>,
    d: nat,
    k: int,
    v: int,
    i: int,
)
    requires
        tables.0.len() == tables.1.len() == plain.0.len() == plain.1.len() == weight.len()
            == pow2(d),
        forall|j: int| 0 <= j < pow2(d) ==> residue(#[trigger] tables.0[j]) == tables.0[j],
        forall|j: int| 0 <= j < pow2(d) ==> residue(#[trigger] plain.0[j]) == plain.0[j],
        0 < n_real <= pow2(d),
        -n_real <= 2 * (sigma(n_real, |j: int| as_i32(tables.0[j]) * as_i32(tables.0[j])) - v
            * n_real) < n_real,
        i * 0x4_0000 <= v < (i + 1) * 0x4_0000,
        i < 0x1_0000_0000,
        0 <= k < pow2(d),
        residue(tables.1[k]) != residue(tables.0[k] * rsqrt_table[i] * weight[k]),
    ensures
        P * count_points(
            d + d,
            |r: Seq<int>|
                rms_norm_holds(
                    tables,
                    plain,
                    weight,
                    n_real,
                    rsqrt_table,
                    r.take(d as int),
                    r.skip(d as int),
                ),
        ) <= (4 * d) * points(d + d),
{
    let pred = |r: Seq<int>|
        rms_norm_holds(
            tables,
            plain,
            weight,
            n_real,
            rsqrt_table,
            r.take(d as int),
            r.skip(d as int),
        );
    let c = (4 * d) as int;
    let (x, y) = (tables.0, plain.0);
    let rstd = rsqrt_table[rms_norm_index(y, n_real)];
    let last = |r: Seq<int>| normed_holds(tables, plain, weight, 0, rstd, r);
    let minus = Seq::new(pow2(d), |j: int| (-1) * y[j]);
    assert(d + d + 0 == d + d && d + 0 == d);
    assert(0 + d == d && 0 + d + d == d + d);
    assert forall|r: Seq<int>| r.len() == 0 + d + d && #[trigger] pred(r) implies last(
        r.take(0) + r.skip((0 + d) as int),
    ) by {
        assert(r.take(0) + r.skip(d as int) =~= r.skip(d as int));
    }
    if residues(x) == residues(y) {
        lemma_canonical_equal(x, y);
        super::raw::lemma_rms_norm_index(x, n_real, v);
        assert(rms_norm_index(x, n_real) == i);
        assert(x[k] - 0 == x[k]);
        lemma_normed_binds(tables, plain, weight, 0, rstd, d, k);
        lemma_fraction_insert(0, d, d, pred, last, (3 * d) as int);
        lemma_fraction_implies(d + d, pred, pred, (3 * d) as int, c);
    } else if residues(x) != residues(minus) {
        // The squares agree only where one of two differences vanishes.
        let q = squares_agree(x, y);
        lemma_squares_rarely(x, y, d);
        assert forall|r: Seq<int>| r.len() == d + d + 0 && #[trigger] pred(r) implies q(
            r.take(d as int) + r.skip((d + d) as int),
        ) by {
            assert(r.take(d as int) + r.skip((d + d) as int) =~= r.take(d as int));
        }
        lemma_fraction_insert(d, d, 0, pred, q, (d + d) as int);
        lemma_fraction_implies(d + d, pred, pred, (d + d) as int, c);
    } else {
        assert(residue(weight[k]) == 0 ==> residue(tables.1[k]) != 0) by {
            let a = x[k] * rsqrt_table[i];
            lemma_residue_mul(a, weight[k]);
            lemma_residue_small(0);
            assert(residue(a) * 0 == 0) by (nonlinear_arith);
        }
        lemma_negated(tables, plain, weight, rstd, d, k, last);
        lemma_fraction_insert(0, d, d, pred, last, c);
    }
}

/// A plain input that is the negated committed one is told from it by the pointwise
/// check, unless all weights are zero, where the output has to be zero.
proof fn lemma_negated(
    tables: (Seq<int>, Seq<int>),
    plain: (Seq<int>, Seq<int>),
    weight: Seq<int>,
    rstd: int,
    d: nat,
    k: int,
    last: spec_fn(Seq<int>) -> bool,
)
    requires
        tables.0.len() == tables.1.len() == plain.0.len() == plain.1.len() == weight.len()
            == pow2(d),
        residues(tables.0) != residues(plain.0),
        residues(tables.0) == residues(Seq::new(pow2(d), |j: int| (-1) * plain.0[j])),
        0 <= k < pow2(d),
        last == (|r: Seq<int>| normed_holds(tables, plain, weight, 0, rstd, r)),
        (forall|j: int| 0 <= j < pow2(d) ==> residue(#[trigger] weight[j]) == 0) ==> residue(
            tables.1[k],
        ) != 0,
    ensures
        P * count_points(d, last) <= (4 * d) * points(d),
{
    let (x, y) = (tables.0, plain.0);
    let zero = Seq::new(pow2(d), |j: int| 0int);
    lemma_residue_small(0);
    if residues(weight) == residues(zero) {
        assert forall|j: int| 0 <= j < pow2(d) implies residue(#[trigger] weight[j]) == 0 by {
            lemma_entry_residue(weight, zero, j);
        }
        let a = (y[k] - 0) * rstd;
        lemma_residue_mul(a, weight[k]);
        assert(residue(a) * 0 == 0) by (nonlinear_arith);
        lemma_normed_binds(tables, plain, weight, 0, rstd, d, k);
        lemma_fraction_implies(d, last, last, (3 * d) as int, (4 * d) as int);
    } else {
        // Through the selector, the difference of the inputs times the weights vanishes.
        let q = masked_value(x, y);
        lemma_schwartz_zippel(weight, zero, d);
        lemma_masked_rarely(x, y, d);
        assert forall|r: Seq<int>| r.len() == d && #[trigger] last(r) implies same_value(
            weight,
            zero,
        )(r) || q(r) by {
            crate::mle::lemma_mle_of_constant(zero, r, 0);
            let (e, w, a, b) = (eq_self(r), mle(weight, r), mle(x, r), mle(y, r));
            if residue(w) != 0 {
                lemma_residue_difference(e * a * w, e * b * w);
                assert(e * a * w - e * b * w == w * (e * a - e * b)) by (nonlinear_arith);
                lemma_no_zero_divisors(w, e * a - e * b);
                lemma_residue_difference(e * a, e * b);
            }
        }
        lemma_fraction_either(d, last, same_value(weight, zero), q, d as int, (3 * d) as int);
    }
}

/// A range check: if some committed bit column has an entry that is not its own square,
/// the check is accepted for at most a fraction `3d / P` of the points, whatever plain
/// columns and whatever value are handed in.
pub proof fn lemma_range_binds(
    tables: Seq<Seq<int>>,
    columns: Seq<Seq<int>>,
    value: spec_fn(Seq<int>) -> int,
    d: nat,
    j: int,
    k: int,
)
    requires
        0 <= j < columns.len() == tables.len(),
        tables[j].len() == columns[j].len() == pow2(d),
        0 <= k < pow2(d),
        residue(tables[j][k] * tables[j][k]) != residue(tables[j][k]),
    ensures
        P * count_points(d, |r: Seq<int>| range_holds(tables, columns, value(r), r)) <= (3 * d)
            * points(d),
{
    let pred = |r: Seq<int>| range_holds(tables, columns, value(r), r);
    let (t, m) = (tables[j], columns[j]);
    if residues(t) != residues(m) {
        lemma_masked_rarely(t, m, d);
        assert forall|r: Seq<int>| r.len() == d && #[trigger] pred(r) implies masked_value(t, m)(
            r,
        ) by {
            assert(bit_holds(tables[j], columns[j], r));
        }
        lemma_fraction_implies(d, pred, masked_value(t, m), (3 * d) as int, (3 * d) as int);
    } else {
        let squares = hadamard(m, m);
        lemma_entry_residue(t, m, k);
        lemma_residue_mul(t[k], t[k]);
        lemma_residue_mul(m[k], m[k]);
        assert(residues(squares)[k] != residues(m)[k]);
        lemma_schwartz_zippel(squares, m, d);
        assert forall|r: Seq<int>| r.len() == d && #[trigger] pred(r) implies same_value(
            squares,
            m,
        )(r) by {
            assert(bit_holds(tables[j], columns[j], r));
        }
        lemma_fraction_implies(d, pred, same_value(squares, m), d as int, (3 * d) as int);
    }
}

/// A range check accepts one value at a point: that of the numbers which the committed
/// bits make, entry by entry.
pub proof fn lemma_range_value(
    tables: Seq<Seq<int>>,
    columns: Seq<Seq<int>>,
    numbers: Seq<int>,
    value: int,
    r: Seq<int>,
)
    requires
        range_holds(tables, columns, value, r),
        numbers.len() == pow2(r.len()),
        forall|j: int| 0 <= j < tables.len() ==> (#[trigger] tables[j]).len() == pow2(r.len()),
        forall|i: int|
            0 <= i < numbers.len() ==> #[trigger] numbers[i] == sigma(
                tables.len(),
                |j: int| pow2(j as nat) * tables[j][i],
            ),
    ensures
        value == residue(mle(numbers, r)),
{
    let n = pow2(r.len());
    let scaled = |j: int| Seq::new(n, |i: int| pow2(j as nat) * tables[j][i]);
    assert forall|i: int| 0 <= i < numbers.len() implies #[trigger] numbers[i] == sigma(
        tables.len(),
        |j: int| scaled(j)[i],
    ) by {
        lemma_sigma_eq(
            tables.len(),
            |j: int| pow2(j as nat) * tables[j][i],
            |j: int| scaled(j)[i],
        );
    }
    crate::mle::lemma_mle_sigma(tables.len(), scaled, numbers, r);
    let (f, g) = (
        |j: int| mle(scaled(j), r),
        |j: int| pow2(j as nat) * mle(tables[j], r),
    );
    assert forall|j: int| 0 <= j < tables.len() implies #[trigger] f(j) == g(j) by {
        assert(tables[j].len() == n);
        lemma_mle_scale(tables[j], scaled(j), pow2(j as nat) as int, r);
    }
    lemma_sigma_eq(tables.len(), f, g);
}

/// The sums of a LayerNorm: if the entries of the committed input behind the first
/// `n_real` do not leave its field sum and its field sum of squares as they are for
/// those, or if the index of the variance lies outside the table, the proof is accepted
/// for at most a fraction `d / P` of its challenges `(r1, r2, r)`, whatever plain tensors
/// are handed in.
pub proof fn lemma_layer_norm_sums_bind(
    tables: (Seq<int>, Seq<int>),
    plain: (Seq<int>, Seq<int>),
    weight: Seq<int>,
    n_real: nat,
    rsqrt_table: Seq<int>,
    d: nat,
    m: int,
    v: int,
)
    requires
        tables.0.len() == plain.0.len() == pow2(d),
        forall|j: int| 0 <= j < pow2(d) ==> residue(#[trigger] tables.0[j]) == tables.0[j],
        forall|j: int| 0 <= j < pow2(d) ==> residue(#[trigger] plain.0[j]) == plain.0[j],
        0 < n_real <= pow2(d),
        ({
            let x = tables.0;
            ||| residue(sigma(n_real, |j: int| as_i32(x[j]))) != residue(
                sigma(pow2(d), |j: int| x[j]),
            )
            ||| residue(sigma(n_real, |j: int| as_i32(x[j]) * as_i32(x[j]))) != residue(
                sigma(pow2(d), |j: int| x[j] * x[j]),
            )
            ||| {
                &&& -n_real <= 2 * (sigma(n_real, |j: int| as_i32(x[j])) - m * n_real) < n_real
                &&& -n_real <= 2 * (sigma(
                    n_real,
                    |j: int| (as_i32(x[j]) - m) * (as_i32(x[j]) - m),
                ) - v * n_real) < n_real
                &&& rsqrt_table.len() * 0x4_0000 <= v < 0x4_0000_0000_0000
            }
        }),
    ensures
        P * count_points(
            d + d + d,
            |r: Seq<int>|
                layer_norm_holds(
                    tables,
                    plain,
                    weight,
                    n_real,
                    rsqrt_table,
                    r.take(d as int),
                    r.subrange(d as int, (d + d) as int),
                    r.skip((d + d) as int),
                ),
        ) <= d * points(d + d + d),
{
    let pred = |r: Seq<int>|
        layer_norm_holds(
            tables,
            plain,
            weight,
            n_real,
            rsqrt_table,
            r.take(d as int),
            r.subrange(d as int, (d + d) as int),
            r.skip((d + d) as int),
        );
    let x = tables.0;
    if residues(tables.0) != residues(plain.0) {
        let q = same_value(tables.0, plain.0);
        lemma_schwartz_zippel(tables.0, plain.0, d);
        assert(d + (d + d) + 0 == d + d + d && d + 0 == d);
        assert forall|r: Seq<int>| r.len() == d + (d + d) + 0 && #[trigger] pred(r) implies q(
            r.take(d as int) + r.skip((d + (d + d)) as int),
        ) by {
            assert(r.take(d as int) + r.skip((d + (d + d)) as int) =~= r.take(d as int));
        }
        lemma_fraction_insert(d, d + d, 0, pred, q, d as int);
    } else {
        lemma_canonical_equal(tables.0, plain.0);
        lemma_sigma_eq(n_real, crate::integers::i32_at(x), |j: int| as_i32(x[j]));
        lemma_square_terms(x, n_real);
        lemma_sigma_eq(pow2(d), |j: int| x[j], |j: int| plain.0[j]);
        lemma_sigma_eq(pow2(d), |j: int| x[j] * x[j], |j: int| plain.0[j] * plain.0[j]);
        if -n_real <= 2 * (sigma(n_real, |j: int| as_i32(x[j])) - m * n_real) < n_real && -n_real
            <= 2 * (sigma(n_real, |j: int| (as_i32(x[j]) - m) * (as_i32(x[j]) - m)) - v * n_real)
            < n_real && rsqrt_table.len() * 0x4_0000 <= v < 0x4_0000_0000_0000 {
            super::raw::lemma_layer_norm_index(x, n_real, m, v);
        }
        assert forall|r: Seq<int>| r.len() == d + d + d implies !#[trigger] pred(r) by {}
        lemma_count_none(d + d + d, pred);
        lemma_bound_nonneg(d as int, d + d + d);
    }
}

proof fn lemma_bound_nonneg(c: int, t: nat)
    requires
        c >= 0,
    ensures
        c * points(t) >= 0,
{
    vstd::arithmetic::power::lemma_pow_positive(P as int, t);
    assert(c * points(t) >= 0) by (nonlinear_arith)
        requires
            c >= 0,
            points(t) > 0,
    ;
}

/// The sum of squares of readings, term by term.
proof fn lemma_square_terms(x: Seq<int>, n: nat)
    ensures
        crate::integers::i32_square_sum(x, n, 0) == sigma(
            n,
            |j: int| as_i32(x[j]) * as_i32(x[j]),
        ),
{
    let (f, g) = (
        crate::integers::i32_square_at(x, 0),
        |j: int| as_i32(x[j]) * as_i32(x[j]),
    );
    assert forall|i: int| 0 <= i < n implies #[trigger] f(i) == g(i) by {
        let a = as_i32(x[i]);
        assert((a - 0) * (a - 0) == a * a);
    }
    lemma_sigma_eq(n, f, g);
}

/// The sum of an RMSNorm: if the entries of the committed input behind the first `n_real`
/// do not leave its field sum of squares as it is for those, or if the index of the mean
/// square lies outside the table, and not all weights are zero, the proof is accepted for
/// at most a fraction `4d / P` of its challenges `(r2, r)`, whatever plain tensors are
/// handed in.
pub proof fn lemma_rms_norm_sums_bind(
    tables: (Seq<int>, Seq<int>),
    plain: (Seq<int>, Seq<int>),
    weight: Seq<int>,
    n_real: nat,
    rsqrt_table: Seq<int>,
    d: nat,
    v: int,
    l: int,
)
    requires
        tables.0.len() == tables.1.len() == plain.0.len() == plain.1.len() == weight.len()
            == pow2(d),
        forall|j: int| 0 <= j < pow2(d) ==> residue(#[trigger] tables.0[j]) == tables.0[j],
        forall|j: int| 0 <= j < pow2(d) ==> residue(#[trigger] plain.0[j]) == plain.0[j],
        0 < n_real <= pow2(d),
        0 <= l < pow2(d),
        residue(weight[l]) != 0,
        ({
            let x = tables.0;
            let squares = sigma(n_real, |j: int| as_i32(x[j]) * as_i32(x[j]));
            ||| residue(squares) != residue(sigma(pow2(d), |j: int| x[j] * x[j]))
            ||| {
                &&& -n_real <= 2 * (squares - v * n_real) < n_real
                &&& rsqrt_table.len() * 0x4_0000 <= v < 0x4_0000_0000_0000
            }
        }),
    ensures
        P * count_points(
            d + d,
            |r: Seq<int>|
                rms_norm_holds(
                    tables,
                    plain,
                    weight,
                    n_real,
                    rsqrt_table,
                    r.take(d as int),
                    r.skip(d as int),
                ),
        ) <= (4 * d) * points(d + d),
{
    let pred = |r: Seq<int>|
        rms_norm_holds(
            tables,
            plain,
            weight,
            n_real,
            rsqrt_table,
            r.take(d as int),
            r.skip(d as int),
        );
    let c = (4 * d) as int;
    let (x, y) = (tables.0, plain.0);
    let rstd = rsqrt_table[rms_norm_index(y, n_real)];
    let minus = Seq::new(pow2(d), |j: int| (-1) * y[j]);
    if residues(x) == residues(y) {
        lemma_canonical_equal(x, y);
        lemma_square_terms(x, n_real);
        lemma_sigma_eq(pow2(d), |j: int| x[j] * x[j], |j: int| y[j] * y[j]);
        let squares = sigma(n_real, |j: int| as_i32(x[j]) * as_i32(x[j]));
        if -n_real <= 2 * (squares - v * n_real) < n_real && rsqrt_table.len() * 0x4_0000 <= v
            < 0x4_0000_0000_0000 {
            super::raw::lemma_rms_norm_index(x, n_real, v);
        }
        assert forall|r: Seq<int>| r.len() == d + d implies !#[trigger] pred(r) by {}
        lemma_count_none(d + d, pred);
        lemma_bound_nonneg(c, d + d);
    } else if residues(x) != residues(minus) {
        let q = squares_agree(x, y);
        lemma_squares_rarely(x, y, d);
        assert(d + d + 0 == d + d && d + 0 == d);
        assert forall|r: Seq<int>| r.len() == d + d + 0 && #[trigger] pred(r) implies q(
            r.take(d as int) + r.skip((d + d) as int),
        ) by {
            assert(r.take(d as int) + r.skip((d + d) as int) =~= r.take(d as int));
        }
        lemma_fraction_insert(d, d, 0, pred, q, (d + d) as int);
        lemma_fraction_implies(d + d, pred, pred, (d + d) as int, c);
    } else {
        let last = |r: Seq<int>| normed_holds(tables, plain, weight, 0, rstd, r);
        assert(0 + d == d && 0 + d + d == d + d);
        assert forall|r: Seq<int>| r.len() == 0 + d + d && #[trigger] pred(r) implies last(
            r.take(0) + r.skip((0 + d) as int),
        ) by {
            assert(r.take(0) + r.skip(d as int) =~= r.skip(d as int));
        }
        assert(!(forall|j: int| 0 <= j < pow2(d) ==> residue(#[trigger] weight[j]) == 0)) by {
            assert(residue(weight[l]) != 0);
        }
        lemma_negated(tables, plain, weight, rstd, d, l, last);
        lemma_fraction_insert(0, d, d, pred, last, c);
    }
}

/// Two tables have the same squared value at a point.
pub open spec fn squares_agree(x: Seq<int>, y: Seq<int>) -> spec_fn(Seq<int>) -> bool {
    |r: Seq<int>| residue(mle(x, r) * mle(x, r)) == residue(mle(y, r) * mle(y, r))
}

/// The squared values of two tables agree rarely, unless one table is the other up to
/// the sign.
pub proof fn lemma_squares_rarely(x: Seq<int>, y: Seq<int>, d: nat)
    requires
        x.len() == y.len() == pow2(d),
        residues(x) != residues(y),
        residues(x) != residues(Seq::new(pow2(d), |j: int| (-1) * y[j])),
    ensures
        P * count_points(d, squares_agree(x, y)) <= (d + d) * points(d),
{
    let q = squares_agree(x, y);
    let minus = Seq::new(pow2(d), |j: int| (-1) * y[j]);
    lemma_schwartz_zippel(x, y, d);
    lemma_schwartz_zippel(x, minus, d);
    assert forall|r: Seq<int>| r.len() == d && #[trigger] q(r) implies same_value(x, y)(r)
        || same_value(x, minus)(r) by {
        lemma_mle_scale(y, minus, -1, r);
        let (a, b) = (mle(x, r), mle(y, r));
        lemma_residue_difference(a * a, b * b);
        assert(a * a - b * b == (a - b) * (a + b)) by (nonlinear_arith);
        lemma_no_zero_divisors(a - b, a + b);
        lemma_residue_difference(a, b);
        lemma_residue_difference(a, (-1) * b);
        assert(a - (-1) * b == a + b);
    }
    lemma_fraction_either(d, q, same_value(x, y), same_value(x, minus), d as int, d as int);
}

/// The claimed sum of a softmax: if it is not the sum of the committed exp values, the
/// proof is accepted for at most a fraction `d / P` of the last challenge, whatever plain
/// tensors are handed in.
pub proof fn lemma_softmax_sum_binds(
    tables: (Seq<int>, Seq<int>),
    plain: (Seq<int>, Seq<int>),
    sum: int,
    exp_table: Seq<int>,
    offset: int,
    alpha: int,
    beta: int,
    r1: Seq<int>,
    chal: Seq<int>,
    d: nat,
)
    requires
        tables.1.len() == plain.1.len() == pow2(d),
        residue(sum) != residue(sigma(pow2(d), |i: int| tables.1[i])),
    ensures
        P * count_points(
            d,
            |r: Seq<int>|
                softmax_sums_hold(
                    tables,
                    plain,
                    sum,
                    exp_table,
                    offset,
                    alpha,
                    beta,
                    r1,
                    chal,
                    r,
                ),
        ) <= d * points(d),
{
    broadcast use lemma_residue_residue;

    let e = tables.1;
    let pred = |r: Seq<int>|
        softmax_sums_hold(
            tables,
            plain,
            sum,
            exp_table,
            offset,
            alpha,
            beta,
            r1,
            chal,
            r,
        );
    if residues(e) != residues(plain.1) {
        lemma_schwartz_zippel(e, plain.1, d);
        lemma_fraction_implies(d, pred, same_value(e, plain.1), d as int, d as int);
    } else {
        let (f, g) = (|i: int| e[i], |i: int| plain.1[i]);
        assert forall|i: int| 0 <= i < pow2(d) implies residue(#[trigger] f(i)) == residue(
            g(i),
        ) by {
            lemma_entry_residue(e, plain.1, i);
        }
        lemma_sigma_residue(pow2(d), f, g);
        assert forall|r: Seq<int>| r.len() == d implies !#[trigger] pred(r) by {}
        lemma_count_none(d, pred);
        lemma_bound_nonneg(d as int, d);
    }
}

/// A range check of boolean columns that are the committed ones accepts the value of the
/// numbers which they make.
pub proof fn lemma_range_accepts(tables: Seq<Seq<int>>, numbers: Seq<int>, r: Seq<int>)
    requires
        numbers.len() == pow2(r.len()),
        forall|j: int| 0 <= j < tables.len() ==> (#[trigger] tables[j]).len() == pow2(r.len()),
        forall|j: int, i: int|
            0 <= j < tables.len() && 0 <= i < pow2(r.len()) ==> #[trigger] tables[j][i] == 0
                || tables[j][i] == 1,
        forall|i: int|
            0 <= i < numbers.len() ==> #[trigger] numbers[i] == sigma(
                tables.len(),
                |j: int| pow2(j as nat) * tables[j][i],
            ),
    ensures
        range_holds(tables, tables, residue(mle(numbers, r)), r),
{
    assert forall|j: int| 0 <= j < tables.len() implies #[trigger] bit_holds(
        tables[j],
        tables[j],
        r,
    ) by {
        let b = tables[j];
        assert(b.len() == pow2(r.len()));
        assert forall|i: int| 0 <= i < b.len() implies hadamard(b, b)[i] == b[i] by {
            let x = b[i];
            assert(x == tables[j][i]);
            assert(x * x == x) by (nonlinear_arith)
                requires
                    x == 0 || x == 1,
            ;
        }
        assert(hadamard(b, b) =~= b);
    }
    lemma_range_value(
        tables,
        tables,
        numbers,
        residue(recomposed(tables, r, tables.len())),
        r,
    );
}

/// A grand-product argument for the right product is accepted whatever the challenge is.
pub proof fn lemma_product_accepts(a: Seq<int>, c: int, chal: Seq<int>)
    requires
        residue(crate::sums::pi(a.len(), |i: int| a[i])) == residue(c),
    ensures
        product_holds(a, c, chal),
{
    let p = crate::sums::pi(a.len(), |i: int| a[i]);
    crate::sums::lemma_pi_eq(a.len(), |i: int| a[i], super::product::entries(a));
    lemma_residue_difference(p, c);
    let w = crate::mle::eq_weight(a.len() - 1, chal);
    lemma_residue_mul(w, p - c);
    lemma_residue_small(0);
    assert(residue(w) * 0 == 0) by (nonlinear_arith);
}

/// A grand-product argument for another product than that of all entries is accepted for
/// at most a fraction `t / P` of the challenges.
pub proof fn lemma_product_binds(a: Seq<int>, c: int, t: nat)
    requires
        a.len() == pow2(t),
        residue(crate::sums::pi(a.len(), |i: int| a[i])) != residue(c),
    ensures
        P * count_points(t, |r: Seq<int>| product_holds(a, c, r)) <= t * points(t),
{
    crate::sums::lemma_pi_eq(a.len(), |i: int| a[i], super::product::entries(a));
    lemma_product_rejects(a, c, t);
}

/// The range of a ReLU layer: with `q` the integer nearest to `input / 2^16` of the committed
/// input at entry `k`, if `q` plus the bias is no embedded `i32`, so that the `i32` which it
/// is read as has another square in the field, the proof is accepted for at most a fraction
/// `t / P` of its challenges `(r1, r)`, whatever plain input is handed in.
pub proof fn lemma_relu_range_binds(
    tables: (Seq<int>, Seq<int>),
    input: Seq<int>,
    bias: Seq<int>,
    t: nat,
    k: int,
    q: int,
)
    requires
        tables.0.len() == tables.1.len() == input.len() == bias.len() == pow2(t),
        0 <= k < bias.len(),
        i64::MIN <= as_i64(tables.0[k]) <= i64::MAX,
        -0x1_0000 <= 2 * (as_i64(tables.0[k]) - q * 0x1_0000) < 0x1_0000,
        i32::MIN <= q <= i32::MAX,
        ({
            let v = residue(q + bias[k]);
            residue(as_i32(v) * as_i32(v)) != residue(v * v)
        }),
    ensures
        P * count_points(
            t + t,
            |r: Seq<int>|
                relu_holds(tables, input, bias, r.take(t as int), r.skip(t as int)),
        ) <= t * points(t + t),
{
    broadcast use lemma_residue_residue;

    let pred = |r: Seq<int>|
        relu_holds(tables, input, bias, r.take(t as int), r.skip(t as int));
    let resc = relu_rescaled(input);
    let zero = zero_table(bias.len());
    let w = wrap(round_div(as_i64(input[k]), 0x1_0000), 0x1_0000_0000);
    lemma_wrap(round_div(as_i64(input[k]), 0x1_0000), 0x1_0000_0000);
    lemma_as_i32(w);
    assert(resc[k] == residue(w));
    vstd::arithmetic::power2::lemma2_to64();
    lemma_residue_small(0);
    if w != q {
        let first = |r: Seq<int>| round_holds((tables.0, resc), (input, resc), 1, zero, 16, r);
        let x = as_i64(tables.0[k]);
        assert(as_i32(zero[k]) == 0) by {
            lemma_as_i32(0);
        }
        assert(!(-0x1_0000 <= 2 * (x - w * 0x1_0000) < 0x1_0000)) by {
            if -0x1_0000 <= 2 * (x - w * 0x1_0000) < 0x1_0000 {
                lemma_round_unique(x, 0x1_0000, w);
                lemma_round_unique(x, 0x1_0000, q);
            }
        }
        lemma_rescale_binds((tables.0, resc), (input, resc), 1, zero, 16, t, k);
        assert forall|r: Seq<int>| r.len() == t + t + 0 && #[trigger] pred(r) implies first(
            r.take(t as int) + r.skip((t + t) as int),
        ) by {
            assert(r.take(t as int) + r.skip((t + t) as int) =~= r.take(t as int));
        }
        assert(t + 0 == t && t + t + 0 == t + t);
        lemma_fraction_insert(t, t, 0, pred, first, t as int);
    } else {
        let (pre, abs) = (relu_pre(input, bias), relu_abs(input, bias));
        let v = residue(q + bias[k]);
        lemma_residue_add(resc[k], bias[k]);
        lemma_residue_add(q, bias[k]);
        assert(pre[k] == v);
        let i = as_i32(v);
        let a = wrap(magnitude(i), 0x1_0000_0000);
        lemma_wrap(magnitude(i), 0x1_0000_0000);
        lemma_wrap(crate::fixed_point::signed(v, i32::MAX as int), 0x1_0000_0000);
        assert(abs[k] == residue(a));
        // The magnitude of the smallest `i32` wraps around to itself.
        assert(a == i || a == -i);
        assert(a * a == i * i) by (nonlinear_arith)
            requires
                a == i || a == -i,
        ;
        lemma_residue_mul(abs[k], abs[k]);
        lemma_residue_mul(a, a);
        let (f, g) = (hadamard(abs, abs), hadamard(pre, pre));
        assert(residues(f)[k] != residues(g)[k]);
        let q2 = same_value(f, g);
        lemma_schwartz_zippel(f, g, t);
        assert forall|r: Seq<int>| r.len() == 0 + t + t && #[trigger] pred(r) implies q2(
            r.take(0) + r.skip((0 + t) as int),
        ) by {
            assert(r.take(0) + r.skip(t as int) =~= r.skip(t as int));
        }
        assert(0 + t == t && 0 + t + t == t + t);
        lemma_fraction_insert(0, t, t, pred, q2, t as int);
    }
}

} // verus!
