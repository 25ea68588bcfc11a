//! Committed LayerNorm and RMSNorm.

use super::linear::agree;
use super::openings::{
    draw_point, eq_self, hadamard, lemma_xorshift_n_add, open_checked, selector, weighted_check,
    weighted_check2, Committed,
};
use super::raw::{
    index_of_square_sum, layer_norm_index, mean_of, normed, rms_norm_index, rounded_mean,
};
use crate::field::{
    draws, finv, ints, lemma_fmul, lemma_fsub, lemma_residue_difference, lemma_residue_mul,
    lemma_residue_residue, lemma_view_canonical, residue, residues, xorshift_n, Goldilocks, XorShift64,
};
use crate::fixed_point::from_i32;
use crate::integers::{
    about_mean, as_i32, from_i128, i32_square_sum, i32_sum, sum_i32, sum_squares_i32,
};
use crate::lookup;
use crate::lookup::denominator;
use crate::mle;
use crate::mle::lemma_mle_residues;
use crate::prime::lemma_finv;
use crate::softmax::total;
use crate::sumcheck;
use crate::sumcheck::{dot, lemma_mul3_residue};
use crate::sums::{lemma_sigma_eq, lemma_sigma_residue, sigma};
use crate::whir::Whir;
use vstd::arithmetic::power2::pow2;
use vstd::prelude::*;

verus! {

/// What the sum of a committed tensor is checked for: the field sum is the
/// integer sum of the first `n` entries, and the tensor is the plain one at
/// `r`.
pub open spec fn sum_holds(table: Seq<int>, x: Seq<int>, n: nat, r: Seq<int>) -> bool {
    residue(i32_sum(x, n)) == residue(total(x)) && agree(table, x, r)
}

/// What the square sum of a committed tensor is checked for.
pub open spec fn square_sum_holds(table: Seq<int>, x: Seq<int>, n: nat, r: Seq<int>) -> bool {
    &&& residue(i32_square_sum(x, n, 0)) == residue(dot(x, x))
    &&& residue(mle::mle(table, r) * mle::mle(table, r)) == residue(mle::mle(x, r) * mle::mle(x, r))
}

/// What the pointwise product `raw = rstd (x - mean) w` is checked for at `r`,
/// through the zero-check selector.
pub open spec fn normed_holds(
    tables: (Seq<int>, Seq<int>),
    plain: (Seq<int>, Seq<int>),
    weight: Seq<int>,
    mean: int,
    rstd: int,
    r: Seq<int>,
) -> bool {
    let e = eq_self(r);
    let w = mle::mle(weight, r);
    &&& residue(e * mle::mle(tables.1, r)) == residue(e * mle::mle(plain.1, r))
    &&& residue(e * mle::mle(tables.0, r) * w) == residue(e * mle::mle(plain.0, r) * w)
    &&& residue(mle::mle(plain.1, r)) == residue(
        rstd * (mle::mle(hadamard(plain.0, weight), r) - mean * w),
    )
}

/// No denominator of the table vanishes.
pub open spec fn denominators_defined(table: Seq<int>, alpha: int, beta: int) -> bool {
    forall|j: int| 0 <= j < table.len() ==> denominator(j, #[trigger] table[j], alpha, beta) != 0
}

/// A vector of ones.
fn ones(n: usize) -> (v: Vec<Goldilocks>)
    ensures
        v@.len() == n,
        forall|i: int| 0 <= i < n ==> (#[trigger] v@[i])@ == 1,
{
    let mut v: Vec<Goldilocks> = Vec::new();
    proof {
        crate::field::lemma_residue_small(1);
    }
    for i in 0..n
        invariant
            v@.len() == i,
            residue(1) == 1,
            forall|k: int| 0 <= k < i ==> (#[trigger] v@[k])@ == 1,
    {
        v.push(Goldilocks::one());
    }
    v
}

/// Runs the sum-check for `sum_i f_i = claimed` at `r` with the given opening.
pub fn check_total(
    f: &[Goldilocks],
    claimed: Goldilocks,
    r: &[Goldilocks],
    f_open: Goldilocks,
) -> (ok: bool)
    requires
        f@.len() == pow2(r@.len()),
        r@.len() > 0,
    ensures
        ok == (claimed@ == residue(total(ints(f@))) && f_open@ == residue(
            mle::mle(ints(f@), ints(r@)),
        )),
{
    let h = ones(f.len());
    let ghost (fv, hv, rv) = (ints(f@), ints(h@), ints(r@));
    assert(hv.len() == h@.len());
    let proof = sumcheck::prove(f, h.as_slice(), claimed, r);
    let ok = sumcheck::verify(&proof, claimed, r, f_open, Goldilocks::one());
    proof {
        crate::field::lemma_residue_small(1);
        lemma_view_canonical(claimed);
        lemma_view_canonical(f_open);
        sumcheck::lemma_transcript_accepted(proof.rounds@, fv, hv, rv, claimed@, f_open@, 1);
        mle::lemma_mle_of_constant(hv, rv, 1);
        assert(f_open@ * 1 == f_open@);
        assert(mle::mle(fv, rv) * 1 == mle::mle(fv, rv));
        lemma_sigma_eq(fv.len(), |i: int| fv[i] * hv[i], |i: int| fv[i]);
    }
    ok
}

/// Runs the sum-check for `sum_i x_i^2 = claimed` at `r` with the given
/// opening of `x`.
fn check_square_total(
    x: &[Goldilocks],
    claimed: Goldilocks,
    r: &[Goldilocks],
    x_open: Goldilocks,
) -> (ok: bool)
    requires
        x@.len() == pow2(r@.len()),
        r@.len() > 0,
    ensures
        ok == (claimed@ == residue(dot(ints(x@), ints(x@))) && residue(x_open@ * x_open@)
            == residue(mle::mle(ints(x@), ints(r@)) * mle::mle(ints(x@), ints(r@)))),
{
    let proof = sumcheck::prove(x, x, claimed, r);
    proof {
        lemma_view_canonical(claimed);
        sumcheck::lemma_transcript_accepted(
            proof.rounds@,
            ints(x@),
            ints(x@),
            ints(r@),
            claimed@,
            x_open@,
            x_open@,
        );
    }
    sumcheck::verify(&proof, claimed, r, x_open, x_open)
}

/// Runs the lookup of one value: it verifies exactly when the value is the table
/// entry at the index, as far as `beta` can tell.
fn check_entry(
    index: u32,
    value: Goldilocks,
    table: &[Goldilocks],
    alpha: Goldilocks,
    beta: Goldilocks,
) -> (ok: bool)
    requires
        index < table@.len(),
        denominator(index as int, value@, alpha@, beta@) != 0,
        denominators_defined(ints(table@), alpha@, beta@),
    ensures
        ok == (residue(beta@ * value@) == residue(beta@ * table@[index as int]@)),
{
    let mut indices: Vec<u32> = Vec::new();
    indices.push(index);
    let mut values: Vec<Goldilocks> = Vec::new();
    values.push(value);
    proof {
        assert(ints(values@) =~= seq![value@]);
        assert(indices@ =~= seq![index]);
        lemma_single_lookup(index, value@, ints(table@), alpha@, beta@);
    }
    let lk = lookup::prove(indices.as_slice(), values.as_slice(), table, alpha, beta);
    lookup::verify(&lk)
}

/// The two sums of a lookup of one value are equal exactly when the value is the
/// table entry, as far as `beta` can tell.
proof fn lemma_single_lookup(index: u32, value: int, table: Seq<int>, alpha: int, beta: int)
    requires
        index < table.len(),
        denominator(index as int, value, alpha, beta) != 0,
        denominator(index as int, table[index as int], alpha, beta) != 0,
    ensures
        (residue(lookup::lookup_sum(seq![index], seq![value], alpha, beta)) == residue(
            lookup::table_sum(seq![index], table, alpha, beta),
        )) == (residue(beta * value) == residue(beta * table[index as int])),
{
    let (x, entry) = (index as int, table[index as int]);
    let (d, e) = (denominator(x, value, alpha, beta), denominator(x, entry, alpha, beta));
    // Each sum is one inverse.
    lookup::lemma_lookup_complete(seq![index], seq![entry], table, alpha, beta);
    lemma_single_sum(index, value, alpha, beta);
    lemma_single_sum(index, entry, alpha, beta);
    lemma_residue_residue(alpha + (x + beta * value));
    lemma_residue_residue(alpha + (x + beta * entry));
    lemma_finv(d);
    lemma_finv(e);
    crate::field::lemma_residue_small(finv(d));
    crate::field::lemma_residue_small(finv(e));
    // Equal inverses have equal denominators.
    if finv(d) == finv(e) {
        let f = finv(d);
        lemma_residue_mul(d * f, e);
        lemma_residue_mul(e * f, d);
        assert((d * f) * e == (e * f) * d) by (nonlinear_arith);
        assert(1 * residue(e) == residue(e) && 1 * residue(d) == residue(d));
    }
    lemma_residue_difference(alpha + (x + beta * value), alpha + (x + beta * entry));
    lemma_residue_difference(beta * value, beta * entry);
}

/// The sum over one lookup is one inverse.
proof fn lemma_single_sum(index: u32, value: int, alpha: int, beta: int)
    ensures
        lookup::lookup_sum(seq![index], seq![value], alpha, beta) == finv(
            denominator(index as int, value, alpha, beta),
        ),
{
    let (indices, y) = (seq![index], seq![value]);
    let f = |i: int| finv(denominator(indices[i] as int, y[i], alpha, beta));
    assert(sigma(1, f) == sigma(0, f) + f(0));
}

/// Checks the pointwise product at `r` against the openings of `x` and `raw`.
fn check_normed(
    x: &[Goldilocks],
    x_open: Goldilocks,
    raw: &[Goldilocks],
    raw_open: Goldilocks,
    weight: &[Goldilocks],
    mean: Goldilocks,
    rstd: Goldilocks,
    r: &[Goldilocks],
    Ghost(tables): Ghost<(Seq<int>, Seq<int>)>,
) -> (ok: bool)
    requires
        x@.len() == raw@.len() == weight@.len() == pow2(r@.len()),
        r@.len() > 0,
        x_open@ == residue(mle::mle(tables.0, ints(r@))),
        raw_open@ == residue(mle::mle(tables.1, ints(r@))),
    ensures
        ok == normed_holds(
            tables,
            (ints(x@), ints(raw@)),
            ints(weight@),
            mean@,
            rstd@,
            ints(r@),
        ),
{
    let ghost (xv, rawv, wv, rv) = (ints(x@), ints(raw@), ints(weight@), ints(r@));
    let n: usize = x.len();
    assert(pow2(r@.len()) == n);
    let s = selector(r);
    let w_r = mle::eval(weight, r);
    let (c_raw, ok_raw) = weighted_check(&s, raw, raw_open, r);
    let (c_xw, ok_xw) = weighted_check2(&s, x, weight, x_open, w_r, r);
    let (c_w, ok_w) = weighted_check(&s, weight, w_r, r);
    proof {
        broadcast use lemma_residue_residue;

        let (e, w) = (eq_self(rv), mle::mle(wv, rv));
        let (xt, rt) = (mle::mle(tables.0, rv), mle::mle(tables.1, rv));
        lemma_mul3_residue(e, raw_open@, 1, e, rt, 1);
        lemma_mul3_residue(e, x_open@, w_r@, e, xt, w);
        lemma_mul3_residue(e, mle::mle(xv, rv), w_r@, e, mle::mle(xv, rv), w);
        lemma_mul3_residue(e, w_r@, 1, e, w, 1);
        assert(ok_w);
        lemma_view_canonical(mean);
        lemma_view_canonical(rstd);
        let xw = mle::mle(hadamard(xv, wv), rv);
        lemma_fmul(mean@, w);
        lemma_fsub(xw, mean@ * w);
        lemma_fmul(rstd@, xw - mean@ * w);
    }
    ok_raw && ok_xw && ok_w && c_raw == rstd * (c_xw - mean * c_w)
}

/// What the LayerNorm proof checks.
pub open spec fn layer_norm_holds(
    tables: (Seq<int>, Seq<int>),
    plain: (Seq<int>, Seq<int>),
    weight: Seq<int>,
    n_real: nat,
    rsqrt_table: Seq<int>,
    r1: Seq<int>,
    r2: Seq<int>,
    r: Seq<int>,
) -> bool {
    &&& sum_holds(tables.0, plain.0, n_real, r1)
    &&& square_sum_holds(tables.0, plain.0, n_real, r2)
    &&& layer_norm_index(plain.0, n_real) < rsqrt_table.len()
    &&& normed_holds(
        tables,
        plain,
        weight,
        residue(rounded_mean(plain.0, n_real)),
        rsqrt_table[layer_norm_index(plain.0, n_real)],
        r,
    )
}

/// Proves the raw LayerNorm product `raw = (x - mean) * rstd * w` (scale 2^48,
/// before the two `2^16` rescales) against WHIR commitments. `mean` and `var`
/// are recomputed from the *committed* `x` (integer reduction over the first
/// `n_real` entries, ignoring padding) via a pair of degree-2 sum-checks,
/// `rstd = 1/sqrt(var + eps)` is bound by a LogUp lookup, and the pointwise
/// product `raw = rstd (x - mean) w` is proven by a degree-3 zero-check
/// sum-check.
pub fn prove_layer_norm(
    whir_x: &Whir,
    x: &Committed,
    x_plain: &[Goldilocks],
    whir_raw: &Whir,
    raw: &Committed,
    raw_plain: &[Goldilocks],
    weight: &[Goldilocks],
    n_real: usize,
    rsqrt_table: &[Goldilocks],
    alpha: Goldilocks,
    beta: Goldilocks,
    rng: &mut XorShift64,
) -> (ok: bool)
    requires
        whir_x.vars() == whir_raw.vars(),
        x.fits(*whir_x),
        raw.fits(*whir_raw),
        weight@.len() == pow2(whir_x.vars()),
        x_plain@.len() == weight@.len(),
        raw_plain@.len() == weight@.len(),
        0 < n_real <= weight@.len(),
        layer_norm_index(ints(x_plain@), n_real as nat) < rsqrt_table@.len()
            ==> denominators_defined(ints(rsqrt_table@), alpha@, beta@),
    ensures
        ({
            let (s, d, n) = (old(rng)@, whir_x.vars(), n_real as nat);
            let (r1, r2) = (draws(s, d), draws(xorshift_n(s, d), d));
            let r = draws(xorshift_n(s, d + d), d);
            let (xv, table) = (ints(x_plain@), ints(rsqrt_table@));
            let sum = sum_holds(x.table(), xv, n, r1);
            let scale = square_sum_holds(x.table(), xv, n, r2) && layer_norm_index(xv, n)
                < table.len();
            let holds = layer_norm_holds(
                (x.table(), raw.table()),
                (xv, ints(raw_plain@)),
                ints(weight@),
                n,
                table,
                r1,
                r2,
                r,
            );
            let (opened1, opened2) = (x.opened_at(*whir_x, r1), x.opened_at(*whir_x, r2));
            &&& ok ==> holds && final(rng)@ == xorshift_n(s, d + d + d)
            &&& ok ==> opened1 && opened2 && x.opened_at(*whir_x, r) && raw.opened_at(*whir_raw, r)
            &&& x.bound(*whir_x) && raw.bound(*whir_raw) ==> ok == holds
            // A refusal comes at the sum, at the scale or at the product.
            &&& !ok ==> {
                ||| final(rng)@ == xorshift_n(s, d) && (x.bound(*whir_x) ==> !sum)
                ||| final(rng)@ == xorshift_n(s, d + d) && sum && opened1 && (x.bound(*whir_x)
                    ==> !scale)
                ||| final(rng)@ == xorshift_n(s, d + d + d) && sum && opened1 && scale && opened2
                    && (x.bound(*whir_x) && raw.bound(*whir_raw) ==> !holds)
            }
        }),
{
    let d: usize = whir_x.num_variables();
    let ghost start = rng@;
    let ghost (xv, dn, nn) = (ints(x_plain@), d as nat, n_real as nat);
    proof {
        lemma_xorshift_n_add(start, dn, dn);
        lemma_xorshift_n_add(start, dn + dn, dn);
    }
    // mean: S_x = sum x(i) via degree-2 sum-check (f = x, h = 1).
    let s_x: i128 = sum_i32(x_plain, n_real);
    let r1 = draw_point(rng, d);
    assert(ints(r1@).len() == r1@.len());
    let x_r1 = match open_checked(whir_x, x, r1.as_slice()) {
        Some(v) => v,
        None => {
            return false;
        },
    };
    if !check_total(x_plain, from_i128(s_x), r1.as_slice(), x_r1) {
        return false;
    }
    let mean: i32 = mean_of(s_x, n_real);
    // var: S_x2 = sum x(i)^2 via degree-2 sum-check (f = x, h = x); then
    // var = E[x^2] - mean^2 (padding is zero, so the full sum equals the real sum).
    let s_x2: i128 = sum_squares_i32(x_plain, n_real);
    let r2 = draw_point(rng, d);
    assert(ints(r2@).len() == r2@.len());
    let x_r2 = match open_checked(whir_x, x, r2.as_slice()) {
        Some(v) => v,
        None => {
            return false;
        },
    };
    proof {
        let t = mle::mle(x.table(), ints(r2@));
        lemma_residue_mul(t, t);
    }
    if !check_square_total(x_plain, from_i128(s_x2), r2.as_slice(), x_r2) {
        return false;
    }
    // sqsum = sum (x_i - mean)^2 = S_x2 - 2 mean S_x + n_real mean^2.
    let sqsum: i128 = about_mean(s_x2, s_x, mean, n_real, Ghost(xv));
    let s_index: u32 = index_of_square_sum(sqsum, n_real);
    if s_index as usize >= rsqrt_table.len() {
        return false;
    }
    let rstd = rsqrt_table[s_index as usize];
    assert(ints(rsqrt_table@)[s_index as int] == rstd@);
    if !check_entry(s_index, rstd, rsqrt_table, alpha, beta) {
        return false;
    }
    // raw = rstd (x - mean) w via a degree-3 zero-check:
    //   sum eq(x,r) raw(x) == rstd (sum eq(x,r) x(x) w(x) - mean sum eq(x,r) w(x)).
    let r = draw_point(rng, d);
    assert(ints(r@).len() == r@.len());
    match (
        open_checked(whir_x, x, r.as_slice()),
        open_checked(whir_raw, raw, r.as_slice()),
    ) {
        (Some(xr), Some(rv)) => check_normed(
            x_plain,
            xr,
            raw_plain,
            rv,
            weight,
            from_i32(mean),
            rstd,
            r.as_slice(),
            Ghost((x.table(), raw.table())),
        ),
        _ => false,
    }
}

/// What the RMSNorm proof checks.
pub open spec fn rms_norm_holds(
    tables: (Seq<int>, Seq<int>),
    plain: (Seq<int>, Seq<int>),
    weight: Seq<int>,
    n_real: nat,
    rsqrt_table: Seq<int>,
    r2: Seq<int>,
    r: Seq<int>,
) -> bool {
    &&& square_sum_holds(tables.0, plain.0, n_real, r2)
    &&& rms_norm_index(plain.0, n_real) < rsqrt_table.len()
    &&& normed_holds(
        tables,
        plain,
        weight,
        0,
        rsqrt_table[rms_norm_index(plain.0, n_real)],
        r,
    )
}

/// Proves the raw RMSNorm product `raw = x * rstd * w` (scale 2^48) against WHIR
/// commitments. `mean(x^2)` is recomputed from the *committed* `x`, and
/// `rstd = 1/sqrt(mean(x^2) + eps)` is bound to it by a LogUp lookup into
/// `rsqrt_table` - the single non-arithmetic scalar of the input RMSNorm, not a
/// trusted input.
pub fn prove_rms_norm(
    whir_x: &Whir,
    x: &Committed,
    x_plain: &[Goldilocks],
    whir_raw: &Whir,
    raw: &Committed,
    raw_plain: &[Goldilocks],
    weight: &[Goldilocks],
    n_real: usize,
    rsqrt_table: &[Goldilocks],
    alpha: Goldilocks,
    beta: Goldilocks,
    rng: &mut XorShift64,
) -> (ok: bool)
    requires
        whir_x.vars() == whir_raw.vars(),
        x.fits(*whir_x),
        raw.fits(*whir_raw),
        weight@.len() == pow2(whir_x.vars()),
        x_plain@.len() == weight@.len(),
        raw_plain@.len() == weight@.len(),
        0 < n_real <= weight@.len(),
        rms_norm_index(ints(x_plain@), n_real as nat) < rsqrt_table@.len()
            ==> denominators_defined(ints(rsqrt_table@), alpha@, beta@),
    ensures
        ({
            let (s, d, n) = (old(rng)@, whir_x.vars(), n_real as nat);
            let (r2, r) = (draws(s, d), draws(xorshift_n(s, d), d));
            let (xv, table) = (ints(x_plain@), ints(rsqrt_table@));
            let scale = square_sum_holds(x.table(), xv, n, r2) && rms_norm_index(xv, n)
                < table.len();
            let holds = rms_norm_holds(
                (x.table(), raw.table()),
                (xv, ints(raw_plain@)),
                ints(weight@),
                n,
                table,
                r2,
                r,
            );
            let opened2 = x.opened_at(*whir_x, r2);
            &&& ok ==> holds && final(rng)@ == xorshift_n(s, d + d)
            &&& ok ==> opened2 && x.opened_at(*whir_x, r) && raw.opened_at(*whir_raw, r)
            &&& x.bound(*whir_x) && raw.bound(*whir_raw) ==> ok == holds
            // A refusal comes at the scale or at the product.
            &&& !ok ==> {
                ||| final(rng)@ == xorshift_n(s, d) && (x.bound(*whir_x) ==> !scale)
                ||| final(rng)@ == xorshift_n(s, d + d) && scale && opened2 && (x.bound(*whir_x)
                    && raw.bound(*whir_raw) ==> !holds)
            }
        }),
{
    let d: usize = whir_x.num_variables();
    let ghost start = rng@;
    proof {
        lemma_xorshift_n_add(start, d as nat, d as nat);
        crate::field::lemma_residue_small(0);
    }
    // mean(x^2): S_x2 = sum x(i)^2 via degree-2 sum-check (f = x, h = x).
    let s_x2: i128 = sum_squares_i32(x_plain, n_real);
    let r2 = draw_point(rng, d);
    assert(ints(r2@).len() == r2@.len());
    let x_r2 = match open_checked(whir_x, x, r2.as_slice()) {
        Some(v) => v,
        None => {
            return false;
        },
    };
    proof {
        let t = mle::mle(x.table(), ints(r2@));
        lemma_residue_mul(t, t);
    }
    if !check_square_total(x_plain, from_i128(s_x2), r2.as_slice(), x_r2) {
        return false;
    }
    let s_index: u32 = index_of_square_sum(s_x2, n_real);
    if s_index as usize >= rsqrt_table.len() {
        return false;
    }
    let rstd = rsqrt_table[s_index as usize];
    assert(ints(rsqrt_table@)[s_index as int] == rstd@);
    if !check_entry(s_index, rstd, rsqrt_table, alpha, beta) {
        return false;
    }
    // raw = rstd x w via a degree-3 zero-check:
    //   sum eq(x,r) raw(x) == rstd sum eq(x,r) x(x) w(x).
    let r = draw_point(rng, d);
    assert(ints(r@).len() == r@.len());
    match (
        open_checked(whir_x, x, r.as_slice()),
        open_checked(whir_raw, raw, r.as_slice()),
    ) {
        (Some(xr), Some(rv)) => check_normed(
            x_plain,
            xr,
            raw_plain,
            rv,
            weight,
            Goldilocks::zero(),
            rstd,
            r.as_slice(),
            Ghost((x.table(), raw.table())),
        ),
        _ => false,
    }
}

/// The product of a normalization satisfies the pointwise check at every
/// challenge.
pub proof fn lemma_normed_holds(
    x: Seq<int>,
    raw: Seq<int>,
    weight: Seq<int>,
    mean: int,
    rstd: int,
    r: Seq<int>,
)
    requires
        x.len() == weight.len() == pow2(r.len()),
        raw == normed(x, mean, rstd, weight),
    ensures
        normed_holds((x, raw), (x, raw), weight, mean, rstd, r),
{
    broadcast use lemma_residue_residue;

    let n = x.len();
    let xw = hadamard(x, weight);
    let mw = Seq::new(n, |i: int| (-mean) * weight[i]);
    let diff = Seq::new(n, |i: int| xw[i] + mw[i]);
    let t = Seq::new(n, |i: int| rstd * diff[i]);
    mle::lemma_mle_scale(weight, mw, -mean, r);
    mle::lemma_mle_add(xw, mw, diff, r);
    mle::lemma_mle_scale(diff, t, rstd, r);
    assert forall|i: int| 0 <= i < n implies residue(#[trigger] raw[i]) == residue(t[i]) by {
        let (a, w) = (x[i], weight[i]);
        assert((a - mean) * rstd * w == rstd * (a * w + (-mean) * w)) by (nonlinear_arith);
    }
    assert(residues(raw) =~= residues(t));
    lemma_mle_residues(raw, t, r);
    let w = mle::mle(weight, r);
    assert((-mean) * w == -(mean * w)) by (nonlinear_arith);
}

/// The integer sums of a tensor of embedded `i32` values whose padding is zero
/// are its field sums.
pub proof fn lemma_sums_hold(x: Seq<int>, n: nat, r1: Seq<int>, r2: Seq<int>)
    requires
        n <= x.len(),
        forall|i: int| 0 <= i < n ==> residue(as_i32(#[trigger] x[i])) == residue(x[i]),
        forall|i: int| n <= i < x.len() ==> #[trigger] x[i] == 0,
    ensures
        sum_holds(x, x, n, r1),
        square_sum_holds(x, x, n, r2),
{
    let f = crate::integers::i32_at(x);
    let g = |i: int| x[i];
    let f2 = crate::integers::i32_square_at(x, 0);
    let g2 = |i: int| x[i] * x[i];
    assert forall|i: int| 0 <= i < n implies residue(#[trigger] f(i)) == residue(g(i)) by {
        assert(residue(as_i32(x[i])) == residue(x[i]));
    }
    assert forall|i: int| 0 <= i < n implies residue(#[trigger] f2(i)) == residue(g2(i)) by {
        assert(residue(as_i32(x[i])) == residue(x[i]));
        let v = as_i32(x[i]);
        assert((v - 0) * (v - 0) == v * v);
        lemma_mul3_residue(v, v, 1, x[i], x[i], 1);
    }
    lemma_sigma_residue(n, f, g);
    lemma_sigma_residue(n, f2, g2);
    let m = (x.len() - n) as nat;
    crate::sums::lemma_sigma_split(n, m, g);
    crate::sums::lemma_sigma_split(n, m, g2);
    crate::sums::lemma_sigma_zero(m, |i: int| g(n + i));
    crate::sums::lemma_sigma_zero(m, |i: int| g2(n + i));
}

/// A LayerNorm of embedded `i32` values with zero padding is accepted whatever
/// the challenges are.
pub proof fn lemma_layer_norm_holds(
    x: Seq<int>,
    raw: Seq<int>,
    weight: Seq<int>,
    n_real: nat,
    rsqrt_table: Seq<int>,
    r1: Seq<int>,
    r2: Seq<int>,
    r: Seq<int>,
)
    requires
        x.len() == weight.len() == pow2(r.len()),
        n_real <= x.len(),
        forall|i: int| 0 <= i < n_real ==> residue(as_i32(#[trigger] x[i])) == residue(x[i]),
        forall|i: int| n_real <= i < x.len() ==> #[trigger] x[i] == 0,
        layer_norm_index(x, n_real) < rsqrt_table.len(),
        raw == normed(
            x,
            residue(rounded_mean(x, n_real)),
            rsqrt_table[layer_norm_index(x, n_real)],
            weight,
        ),
    ensures
        layer_norm_holds((x, raw), (x, raw), weight, n_real, rsqrt_table, r1, r2, r),
{
    lemma_sums_hold(x, n_real, r1, r2);
    lemma_normed_holds(
        x,
        raw,
        weight,
        residue(rounded_mean(x, n_real)),
        rsqrt_table[layer_norm_index(x, n_real)],
        r,
    );
}

/// An RMSNorm of embedded `i32` values with zero padding is accepted whatever
/// the challenges are.
pub proof fn lemma_rms_norm_holds(
    x: Seq<int>,
    raw: Seq<int>,
    weight: Seq<int>,
    n_real: nat,
    rsqrt_table: Seq<int>,
    r2: Seq<int>,
    r: Seq<int>,
)
    requires
        x.len() == weight.len() == pow2(r.len()),
        n_real <= x.len(),
        forall|i: int| 0 <= i < n_real ==> residue(as_i32(#[trigger] x[i])) == residue(x[i]),
        forall|i: int| n_real <= i < x.len() ==> #[trigger] x[i] == 0,
        rms_norm_index(x, n_real) < rsqrt_table.len(),
        raw == normed(x, 0, rsqrt_table[rms_norm_index(x, n_real)], weight),
    ensures
        rms_norm_holds((x, raw), (x, raw), weight, n_real, rsqrt_table, r2, r),
{
    lemma_sums_hold(x, n_real, r2, r2);
    lemma_normed_holds(x, raw, weight, 0, rsqrt_table[rms_norm_index(x, n_real)], r);
}

} // verus!
