//! Committed softmax, over one vector and row by row.

use super::linear::agree;
use super::norms::check_total;
use super::openings::{
    commit, draw_point, eq_self, hadamard, lemma_xorshift_n_add, open_checked, selector,
    weighted_check, weighted_check2, Committed,
};
use super::product::{
    grand_product, lemma_dot_residues, lookup_bound, lookup_holds, prove_lookup, table_keys,
};
use super::raw::{clamped_indices, select};
use super::rounding::{nonneg_holds, prove_linear_nonneg};
use crate::field::{
    draws, finv, ints, lemma_fmul, lemma_fsub, lemma_residue_add, lemma_residue_mul,
    lemma_residue_residue, lemma_residue_small, lemma_residue_sub, lemma_view_canonical, residue,
    residues, xorshift_n, Goldilocks, XorShift64,
};
use crate::fixed_point::{from_i32, from_i64, to_i32, wrap};
use crate::integers::{
    as_i32, is_pow2, lemma_log2, lemma_pow2_injective, log2, low_i32, low_u32, two_adic,
};
use crate::mle;
use crate::mle::{eq_weight, lemma_mle_residues};
use crate::softmax::total;
use crate::sumcheck;
use crate::sumcheck::{dot, lemma_mul3_residue};
use crate::sums::{lemma_sigma_eq, sigma};
use crate::whir::Whir;
use vstd::arithmetic::power2::{lemma_pow2_adds, lemma_pow2_pos, lemma_pow2_unfold, pow2};
use vstd::prelude::*;

verus! {

/// The table index of a value without clamping: the low 32 bits of the value
/// plus the offset.
pub open spec fn shifted_index(v: int, offset: int) -> int {
    (as_i32(v) + offset) % 0x1_0000_0000
}

/// The unclamped table indices of a tensor.
pub open spec fn shifted_indices(x: Seq<int>, offset: int) -> Seq<u32> {
    Seq::new(x.len(), |i: int| shifted_index(x[i], offset) as u32)
}

/// Indices embedded in the field as `i32` values.
pub open spec fn index_column(indices: Seq<u32>) -> Seq<int> {
    Seq::new(indices.len(), |i: int| residue(wrap(indices[i] as int, 0x1_0000_0000)))
}

/// A power of two has its exponent many trailing zeros.
pub proof fn lemma_two_adic_pow2(d: nat)
    ensures
        two_adic(pow2(d), d),
{
    lemma_pow2_pos(d);
    lemma_pow2_unfold(d + 1);
    vstd::arithmetic::div_mod::lemma_mod_self_0(pow2(d) as int);
    vstd::arithmetic::div_mod::lemma_small_mod(pow2(d), pow2(d + 1));
}

/// Embeds the indices in the field.
fn index_column_of(indices: &Vec<u32>) -> (v: Vec<Goldilocks>)
    ensures
        ints(v@) == index_column(indices@),
{
    let mut v: Vec<Goldilocks> = Vec::new();
    for i in 0..indices.len()
        invariant
            v@.len() == i,
            forall|k: int| 0 <= k < i ==> (#[trigger] v@[k])@ == index_column(indices@)[k],
    {
        v.push(from_i32(low_i32(indices[i] as i128)));
    }
    assert(ints(v@) =~= index_column(indices@));
    v
}

/// What the softmax proof checks before the division: the exp lookup, the sum,
/// and that the committed tensors are the plain ones at `r`.
pub open spec fn softmax_sums_hold(
    tables: (Seq<int>, Seq<int>),
    plain: (Seq<int>, Seq<int>),
    sum: int,
    exp_table: Seq<int>,
    offset: int,
    alpha: int,
    beta: int,
    r1: Seq<int>,
    chal: Seq<int>,
    r: Seq<int>,
) -> bool {
    let indices = shifted_indices(plain.0, offset);
    let column = index_column(indices);
    &&& lookup_holds(
        (column, tables.1),
        (column, plain.1),
        indices,
        exp_table,
        alpha,
        beta,
        r1,
        chal,
    )
    &&& sum == residue(total(plain.1))
    &&& agree(tables.1, plain.1, r)
    &&& agree(tables.0, plain.0, r)
}

/// What the softmax proof checks of the output: it is the exp value over the
/// sum.
pub open spec fn softmax_divides(
    e_table: Seq<int>,
    y_table: Seq<int>,
    sum: int,
    r: Seq<int>,
) -> bool {
    residue(mle::mle(y_table, r)) == residue(mle::mle(e_table, r) * finv(sum))
}

/// Proves `out_i = exp(shifted_i) / sum_j exp(shifted_j)` against WHIR
/// commitments, sub-linearly: the exp lookup is a grand-product lookup, the sum
/// is a degree-2 sum-check, and the division by the scalar `sum` is a
/// single-point check.
pub fn prove_softmax(
    whir_x: &Whir,
    x: &Committed,
    x_plain: &[Goldilocks],
    whir_e: &Whir,
    e: &Committed,
    e_plain: &[Goldilocks],
    whir_y: &Whir,
    y: &Committed,
    sum: Goldilocks,
    exp_table: &[Goldilocks],
    offset: u32,
    alpha: Goldilocks,
    beta: Goldilocks,
    rng: &mut XorShift64,
) -> (ok: bool)
    requires
        whir_x.vars() == whir_e.vars() == whir_y.vars(),
        x.fits(*whir_x),
        e.fits(*whir_e),
        y.fits(*whir_y),
        x_plain@.len() == pow2(whir_x.vars()),
        e_plain@.len() == x_plain@.len(),
        forall|i: int|
            0 <= i < x_plain@.len() ==> shifted_index(
                (#[trigger] x_plain@[i])@,
                offset as int,
            ) < exp_table@.len(),
        lookup_bound(
            (index_column(shifted_indices(ints(x_plain@), offset as int)), e.table()),
            (index_column(shifted_indices(ints(x_plain@), offset as int)), ints(e_plain@)),
            beta@,
            draws(old(rng)@, whir_e.vars()),
        ) ==> residue(
            grand_product(
                table_keys(
                    shifted_indices(ints(x_plain@), offset as int),
                    ints(exp_table@),
                    alpha@,
                    beta@,
                ),
            ),
        ) != 0,
        sum@ == residue(total(ints(e_plain@))) ==> sum@ != 0,
    ensures
        ({
            let (s, d) = (old(rng)@, whir_x.vars());
            let (r1, chal) = (draws(s, d), draws(xorshift_n(s, d), d));
            let r = draws(xorshift_n(s, d + d), d);
            let indices = shifted_indices(ints(x_plain@), offset as int);
            let tables = (index_column(indices), e.table());
            let plain = (index_column(indices), ints(e_plain@));
            let columns = lookup_bound(tables, plain, beta@, r1);
            let looked_up = lookup_holds(
                tables,
                plain,
                indices,
                ints(exp_table@),
                alpha@,
                beta@,
                r1,
                chal,
            );
            let holds = softmax_sums_hold(
                (x.table(), e.table()),
                (ints(x_plain@), ints(e_plain@)),
                sum@,
                ints(exp_table@),
                offset as int,
                alpha@,
                beta@,
                r1,
                chal,
                r,
            ) && softmax_divides(e.table(), y.table(), sum@, r);
            let opened1 = e.opened_at(*whir_e, r1);
            &&& ok ==> holds && final(rng)@ == xorshift_n(s, d + d + d)
            &&& ok ==> opened1 && x.opened_at(*whir_x, r) && e.opened_at(*whir_e, r)
                && y.opened_at(*whir_y, r)
            &&& x.bound(*whir_x) && e.bound(*whir_e) && y.bound(*whir_y) ==> ok == holds
            // A refusal comes at the columns of the lookup, at its product, or after it.
            &&& !ok ==> {
                ||| final(rng)@ == xorshift_n(s, d) && (e.bound(*whir_e) ==> !columns)
                ||| final(rng)@ == xorshift_n(s, d + d) && columns && opened1 && !looked_up
                ||| final(rng)@ == xorshift_n(s, d + d + d) && looked_up && opened1 && (x.bound(
                    *whir_x,
                ) && e.bound(*whir_e) && y.bound(*whir_y) ==> !holds)
            }
        }),
{
    let n: usize = x_plain.len();
    let d: usize = whir_x.num_variables();
    let ghost (start, dn) = (rng@, d as nat);
    let ghost (xv, ev) = (ints(x_plain@), ints(e_plain@));
    proof {
        lemma_xorshift_n_add(start, dn, dn);
        lemma_xorshift_n_add(start, dn + dn, dn);
        lemma_two_adic_pow2(dn);
        lemma_pow2_pos(dn);
    }
    // 1. exp lookup: e_i = exp_table[shifted_i + offset].
    let mut indices: Vec<u32> = Vec::new();
    for i in 0..n
        invariant
            n == x_plain@.len(),
            indices@.len() == i,
            forall|k: int|
                0 <= k < i ==> #[trigger] indices@[k] as int == shifted_index(
                    x_plain@[k]@,
                    offset as int,
                ),
    {
        indices.push(low_u32(to_i32(x_plain[i]) as i128 + offset as i128));
    }
    proof {
        assert(indices@ =~= shifted_indices(xv, offset as int));
        assert forall|i: int| 0 <= i < indices@.len() implies #[trigger] indices@[i]
            < exp_table@.len() by {
            assert(shifted_index(x_plain@[i]@, offset as int) < exp_table@.len());
        }
    }
    let idx_field = index_column_of(&indices);
    let ghost column = index_column(indices@);
    assert(ints(idx_field@).len() == idx_field@.len());
    proof {
        assert(column.take(n as int) =~= column);
        assert(ev.take(n as int) =~= ev);
    }
    let c_idx = commit(whir_e, idx_field.as_slice());
    if !prove_lookup(
        whir_e,
        &c_idx,
        idx_field.as_slice(),
        whir_e,
        e,
        e_plain,
        indices.as_slice(),
        exp_table,
        alpha,
        beta,
        rng,
    ) {
        return false;
    }
    // 2. sum = sum e_i (degree-2 sum-check with h = all-ones).
    let r = draw_point(rng, d);
    let ghost rv = ints(r@);
    assert(rv.len() == r@.len());
    let (x_r, e_r) = match (
        open_checked(whir_x, x, r.as_slice()),
        open_checked(whir_e, e, r.as_slice()),
    ) {
        (Some(x_r), Some(e_r)) => (x_r, e_r),
        _ => {
            return false;
        },
    };
    if !check_total(e_plain, sum, r.as_slice(), e_r) {
        return false;
    }
    if x_r != mle::eval(x_plain, r.as_slice()) {
        return false;
    }
    // 3. out = e / sum (scalar multiply, single-point).
    match open_checked(whir_y, y, r.as_slice()) {
        Some(y_r) => {
            let inv = sum.inverse();
            proof {
                lemma_view_canonical(inv);
                lemma_fmul(mle::mle(e.table(), rv), inv@);
            }
            y_r == e_r * inv
        },
        None => false,
    }
}

/// The equality polynomial over the row variables of an `n_rows x n_cols`
/// hypercube, broadcast to the full flattened tensor.
pub open spec fn row_weights(r_row: Seq<int>, n_rows: nat, n_cols: nat) -> Seq<int> {
    Seq::new(n_rows * n_cols, |i: int| eq_weight(i / n_cols as int, r_row))
}

/// Broadcasts the equality polynomial of the rows over the columns. Used to
/// reduce the row-wise softmax sum over the column dimension.
fn eq_row_broadcast(r_row: &[Goldilocks], n_rows: usize, n_cols: usize) -> (v: Vec<Goldilocks>)
    requires
        n_rows == pow2(r_row@.len()),
        n_cols > 0,
        n_rows * n_cols <= usize::MAX,
    ensures
        ints(v@) == residues(row_weights(ints(r_row@), n_rows as nat, n_cols as nat)),
{
    let eq = mle::eq_evals(r_row);
    let n: usize = n_rows * n_cols;
    let ghost w = row_weights(ints(r_row@), n_rows as nat, n_cols as nat);
    let mut v: Vec<Goldilocks> = Vec::new();
    for i in 0..n
        invariant
            n == n_rows * n_cols,
            n_cols > 0,
            eq@.len() == n_rows,
            forall|k: int|
                0 <= k < eq@.len() ==> #[trigger] eq@[k]@ == residue(
                    eq_weight(k, ints(r_row@)),
                ),
            w == row_weights(ints(r_row@), n_rows as nat, n_cols as nat),
            v@.len() == i,
            forall|k: int| 0 <= k < i ==> (#[trigger] v@[k])@ == residue(w[k]),
    {
        let row: usize = i / n_cols;
        proof {
            vstd::arithmetic::div_mod::lemma_fundamental_div_mod(i as int, n_cols as int);
            assert(row < n_rows) by (nonlinear_arith)
                requires
                    i < n_rows * n_cols,
                    i == n_cols * row + i % n_cols,
                    0 < n_cols,
            ;
        }
        v.push(eq[row]);
    }
    assert(ints(v@) =~= residues(w));
    v
}

/// Step 1: the shifted scores are the scores less the per-row shift, at `r`.
pub open spec fn shift_holds(
    scores: Seq<int>,
    c: Seq<int>,
    shifted: Seq<int>,
    r: Seq<int>,
    r_row: Seq<int>,
) -> bool {
    residue(mle::mle(shifted, r)) == residue(mle::mle(scores, r) - mle::mle(c, r_row))
}

fn check_shift(
    whir: &Whir,
    whir_row: &Whir,
    scores: &Committed,
    c: &Committed,
    shifted: &Committed,
    r: &[Goldilocks],
    r_row: &[Goldilocks],
) -> (ok: bool)
    requires
        scores.fits(*whir),
        c.fits(*whir_row),
        shifted.fits(*whir),
        r@.len() == whir.vars(),
        r_row@.len() == whir_row.vars(),
    ensures
        ok ==> shift_holds(scores.table(), c.table(), shifted.table(), ints(r@), ints(r_row@)),
        ok ==> scores.opened_at(*whir, ints(r@)) && c.opened_at(*whir_row, ints(r_row@))
            && shifted.opened_at(*whir, ints(r@)),
        scores.bound(*whir) && c.bound(*whir_row) && shifted.bound(*whir) ==> ok == shift_holds(
            scores.table(),
            c.table(),
            shifted.table(),
            ints(r@),
            ints(r_row@),
        ),
{
    match (
        open_checked(whir, scores, r),
        open_checked(whir_row, c, r_row),
        open_checked(whir, shifted, r),
    ) {
        (Some(sc_r), Some(c_r), Some(sh_r)) => {
            proof {
                lemma_fsub(
                    mle::mle(scores.table(), ints(r@)),
                    mle::mle(c.table(), ints(r_row@)),
                );
            }
            sh_r == sc_r - c_r
        },
        _ => false,
    }
}

/// Step 3: the committed row sums are the sums of the rows of `e`.
pub open spec fn row_sums_hold(
    tables: (Seq<int>, Seq<int>),
    plain: (Seq<int>, Seq<int>),
    n_rows: nat,
    n_cols: nat,
    r_row: Seq<int>,
    r_full: Seq<int>,
) -> bool {
    let w = row_weights(r_row, n_rows, n_cols);
    let q = mle::mle(w, r_full);
    &&& residue(mle::mle(plain.1, r_row)) == residue(dot(plain.0, w))
    &&& residue(mle::mle(tables.0, r_full) * q) == residue(mle::mle(plain.0, r_full) * q)
    &&& agree(tables.1, plain.1, r_row)
}

fn check_row_sums(
    whir: &Whir,
    whir_row: &Whir,
    e: &Committed,
    e_plain: &[Goldilocks],
    sum: &Committed,
    sum_plain: &[Goldilocks],
    n_rows: usize,
    n_cols: usize,
    r_row: &[Goldilocks],
    r_full: &[Goldilocks],
) -> (ok: bool)
    requires
        e.fits(*whir),
        sum.fits(*whir_row),
        r_full@.len() == whir.vars(),
        r_row@.len() == whir_row.vars(),
        n_rows == pow2(whir_row.vars()),
        n_cols > 0,
        e_plain@.len() == n_rows * n_cols == pow2(whir.vars()),
        sum_plain@.len() == n_rows,
    ensures
        ok ==> row_sums_hold(
            (e.table(), sum.table()),
            (ints(e_plain@), ints(sum_plain@)),
            n_rows as nat,
            n_cols as nat,
            ints(r_row@),
            ints(r_full@),
        ),
        ok ==> e.opened_at(*whir, ints(r_full@)) && sum.opened_at(*whir_row, ints(r_row@)),
        e.bound(*whir) && sum.bound(*whir_row) ==> ok == row_sums_hold(
            (e.table(), sum.table()),
            (ints(e_plain@), ints(sum_plain@)),
            n_rows as nat,
            n_cols as nat,
            ints(r_row@),
            ints(r_full@),
        ),
{
    let vars: usize = whir.num_variables();
    let len: usize = e_plain.len();
    let ghost (ev, sv, rr, rf) = (ints(e_plain@), ints(sum_plain@), ints(r_row@), ints(r_full@));
    let ghost w = row_weights(rr, n_rows as nat, n_cols as nat);
    let eq_row = eq_row_broadcast(r_row, n_rows, n_cols);
    let ghost wv = ints(eq_row@);
    proof {
        assert(wv.len() == eq_row@.len() && residues(w).len() == w.len());
        sumcheck::lemma_residues_idem(wv, w);
    }
    let claimed_sum = mle::eval(sum_plain, r_row);
    let proof_sum = sumcheck::prove(e_plain, eq_row.as_slice(), claimed_sum, r_full);
    let (e_r, sum_r) = match (
        open_checked(whir, e, r_full),
        open_checked(whir_row, sum, r_row),
    ) {
        (Some(e_r), Some(sum_r)) => (e_r, sum_r),
        _ => {
            return false;
        },
    };
    let eq_row_r = mle::eval(eq_row.as_slice(), r_full);
    let ok = sumcheck::verify(&proof_sum, claimed_sum, r_full, e_r, eq_row_r);
    proof {
        broadcast use lemma_residue_residue;

        sumcheck::lemma_transcript_accepted(
            proof_sum.rounds@,
            ev,
            wv,
            rf,
            claimed_sum@,
            e_r@,
            eq_row_r@,
        );
        lemma_dot_residues(ev, wv, ev, w);
        lemma_mle_residues(wv, w, rf);
        let q = mle::mle(w, rf);
        lemma_mul3_residue(e_r@, eq_row_r@, 1, mle::mle(e.table(), rf), q, 1);
        lemma_mul3_residue(mle::mle(ev, rf), mle::mle(wv, rf), 1, mle::mle(ev, rf), q, 1);
    }
    ok && sum_r == claimed_sum
}

/// The remainders `e * 2^16 - out * sum` of the rounded division.
pub open spec fn remainders(e: Seq<int>, out: Seq<int>, sum: Seq<int>) -> Seq<int> {
    Seq::new(e.len(), |i: int| residue(e[i] * 0x1_0000 - out[i] * sum[i]))
}

/// Step 4: the broadcast sums are the row sums, at `r`.
pub open spec fn broadcast_holds(
    sum_broadcast: Seq<int>,
    sum: Seq<int>,
    r: Seq<int>,
    r_row: Seq<int>,
) -> bool {
    residue(mle::mle(sum_broadcast, r)) == residue(mle::mle(sum, r_row))
}

/// Step 5: the committed output, sums and exp values are the plain ones at `r`,
/// as far as the zero-check selector can tell.
pub open spec fn division_holds(
    tables: (Seq<int>, Seq<int>, Seq<int>),
    plain: (Seq<int>, Seq<int>, Seq<int>),
    r: Seq<int>,
) -> bool {
    let e = eq_self(r);
    &&& residue(e * mle::mle(tables.0, r) * mle::mle(tables.1, r)) == residue(
        e * mle::mle(plain.0, r) * mle::mle(plain.1, r),
    )
    &&& residue(e * mle::mle(tables.2, r)) == residue(e * mle::mle(plain.2, r))
}

/// The remainders of a division.
fn remainders_of(
    e: &[Goldilocks],
    out: &[Goldilocks],
    sum: &[Goldilocks],
) -> (rem: Vec<Goldilocks>)
    requires
        e@.len() == out@.len() == sum@.len(),
    ensures
        ints(rem@) == remainders(ints(e@), ints(out@), ints(sum@)),
{
    let scale = from_i64(0x1_0000);
    let mut rem: Vec<Goldilocks> = Vec::new();
    for i in 0..e.len()
        invariant
            e@.len() == out@.len() == sum@.len(),
            scale@ == residue(0x1_0000),
            rem@.len() == i,
            forall|k: int|
                0 <= k < i ==> (#[trigger] rem@[k])@ == remainders(
                    ints(e@),
                    ints(out@),
                    ints(sum@),
                )[k],
    {
        proof {
            let (a, b, c) = (e@[i as int]@, out@[i as int]@, sum@[i as int]@);
            lemma_view_canonical(e@[i as int]);
            lemma_view_canonical(out@[i as int]);
            lemma_view_canonical(sum@[i as int]);
            lemma_fmul(a, 0x1_0000);
            lemma_fmul(b, c);
            lemma_fsub(a * 0x1_0000, b * c);
        }
        rem.push(e[i] * scale - out[i] * sum[i]);
    }
    assert(ints(rem@) =~= remainders(ints(e@), ints(out@), ints(sum@)));
    rem
}

/// The product of output and sum is the scaled exp value less the remainder, at
/// every point.
proof fn lemma_remainder_identity(e: Seq<int>, out: Seq<int>, sum: Seq<int>, r: Seq<int>)
    requires
        e.len() == out.len() == sum.len() == pow2(r.len()),
    ensures
        residue(mle::mle(hadamard(out, sum), r)) == residue(
            0x1_0000 * mle::mle(e, r) - mle::mle(remainders(e, out, sum), r),
        ),
{
    broadcast use lemma_residue_residue;

    let n = e.len();
    let rem = remainders(e, out, sum);
    let h = hadamard(out, sum);
    let se = Seq::new(n, |i: int| 0x1_0000 * e[i]);
    let nr = Seq::new(n, |i: int| (-1) * rem[i]);
    let t = Seq::new(n, |i: int| se[i] + nr[i]);
    mle::lemma_mle_scale(e, se, 0x1_0000, r);
    mle::lemma_mle_scale(rem, nr, -1, r);
    mle::lemma_mle_add(se, nr, t, r);
    assert forall|i: int| 0 <= i < n implies residue(#[trigger] h[i]) == residue(t[i]) by {
        let (a, b) = (e[i] * 0x1_0000, out[i] * sum[i]);
        lemma_residue_sub(a, a - b);
        lemma_residue_sub(a, residue(a - b));
    }
    assert(residues(h) =~= residues(t));
    lemma_mle_residues(h, t, r);
}

fn check_division(
    whir: &Whir,
    out: &Committed,
    out_plain: &[Goldilocks],
    sb_r: Goldilocks,
    sum_plain: &[Goldilocks],
    e: &Committed,
    e_plain: &[Goldilocks],
    c_rem: &Committed,
    rem: &[Goldilocks],
    r: &[Goldilocks],
    Ghost(sum_table): Ghost<Seq<int>>,
) -> (ok: bool)
    requires
        out.fits(*whir),
        e.fits(*whir),
        c_rem.bound(*whir),
        c_rem.table() == ints(rem@),
        r@.len() == whir.vars(),
        r@.len() > 0,
        out_plain@.len() == sum_plain@.len() == e_plain@.len() == pow2(whir.vars()),
        ints(rem@) == remainders(ints(e_plain@), ints(out_plain@), ints(sum_plain@)),
        sb_r@ == residue(mle::mle(sum_table, ints(r@))),
    ensures
        ok ==> division_holds(
            (out.table(), sum_table, e.table()),
            (ints(out_plain@), ints(sum_plain@), ints(e_plain@)),
            ints(r@),
        ),
        ok ==> out.opened_at(*whir, ints(r@)) && e.opened_at(*whir, ints(r@)),
        out.bound(*whir) && e.bound(*whir) ==> ok == division_holds(
            (out.table(), sum_table, e.table()),
            (ints(out_plain@), ints(sum_plain@), ints(e_plain@)),
            ints(r@),
        ),
{
    let len: usize = e_plain.len();
    let ghost (ov, sv, ev, rv) = (ints(out_plain@), ints(sum_plain@), ints(e_plain@), ints(r@));
    assert(ints(rem@).len() == rem@.len());
    let s = selector(r);
    let (o_r, e_r, rem_r) = match (
        open_checked(whir, out, r),
        open_checked(whir, e, r),
        open_checked(whir, c_rem, r),
    ) {
        (Some(o_r), Some(e_r), Some(rem_r)) => (o_r, e_r, rem_r),
        _ => {
            return false;
        },
    };
    let (c1, ok1) = weighted_check2(&s, out_plain, sum_plain, o_r, sb_r, r);
    let (ce, ok_e) = weighted_check(&s, e_plain, e_r, r);
    let (cr, ok_r) = weighted_check(&s, rem, rem_r, r);
    let scale = from_i64(0x1_0000);
    let identity = c1 == scale * ce - cr;
    proof {
        broadcast use lemma_residue_residue;

        let q = eq_self(rv);
        let (ot, st, et) = (
            mle::mle(out.table(), rv),
            mle::mle(sum_table, rv),
            mle::mle(e.table(), rv),
        );
        lemma_mul3_residue(q, o_r@, sb_r@, q, ot, st);
        lemma_mul3_residue(q, e_r@, 1, q, et, 1);
        lemma_mul3_residue(q, rem_r@, 1, q, mle::mle(ints(rem@), rv), 1);
        assert(ok_r);
        lemma_fmul(0x1_0000, mle::mle(ev, rv));
        lemma_fsub(0x1_0000 * mle::mle(ev, rv), mle::mle(ints(rem@), rv));
        lemma_remainder_identity(ev, ov, sv, rv);
        assert(identity);
    }
    ok1 && ok_e && ok_r && identity
}

/// The tensors of a row-wise softmax.
pub struct RowTables {
    pub scores: Seq<int>,
    pub c: Seq<int>,
    pub shifted: Seq<int>,
    pub e: Seq<int>,
    pub sum: Seq<int>,
    pub sum_broadcast: Seq<int>,
    pub out: Seq<int>,
}

/// The exp-table indices of the shifted scores.
pub open spec fn row_indices(p: RowTables, exp_table: Seq<int>, offset: int) -> Seq<u32> {
    clamped_indices(p.shifted, offset, exp_table.len() as int)
}

/// The remainders of the rounded division by the row sums.
pub open spec fn row_remainders(p: RowTables) -> Seq<int> {
    remainders(p.e, p.out, p.sum_broadcast)
}

/// The challenges of a row-wise softmax proof, in the order in which they are drawn:
/// for the shift, for the two halves of the lookup, for the two halves of the row
/// sums, for the broadcast and the division, and for the two sign checks of the
/// remainders.
pub struct RowChallenges {
    pub shift: Seq<int>,
    pub lookup: Seq<int>,
    pub products: Seq<int>,
    pub row: Seq<int>,
    pub row_sums: Seq<int>,
    pub division: Seq<int>,
    pub lower: Seq<int>,
    pub upper: Seq<int>,
}

/// The challenges that generator state `s` draws for `dr` row variables among `d`.
pub open spec fn row_challenges(s: u64, dr: nat, d: nat) -> RowChallenges {
    RowChallenges {
        shift: draws(s, d),
        lookup: draws(xorshift_n(s, d), d),
        products: draws(xorshift_n(s, 2 * d), d),
        row: draws(xorshift_n(s, 3 * d), dr),
        row_sums: draws(xorshift_n(s, 3 * d + dr), d),
        division: draws(xorshift_n(s, 4 * d + dr), d),
        lower: draws(xorshift_n(s, 5 * d + dr), d),
        upper: draws(xorshift_n(s, 6 * d + dr), d),
    }
}

/// The committed tensors of a row-wise softmax.
pub struct RowTensors {
    pub scores: Committed,
    pub c: Committed,
    pub shifted: Committed,
    pub e: Committed,
    pub sum: Committed,
    pub sum_broadcast: Committed,
    pub out: Committed,
}

impl RowTensors {
    /// The tables that the prover data hold.
    pub open spec fn tables(&self) -> RowTables {
        RowTables {
            scores: self.scores.table(),
            c: self.c.table(),
            shifted: self.shifted.table(),
            e: self.e.table(),
            sum: self.sum.table(),
            sum_broadcast: self.sum_broadcast.table(),
            out: self.out.table(),
        }
    }

    /// All commitments are those that the instances make for the held tables.
    pub open spec fn bound(&self, whir: Whir, whir_row: Whir) -> bool {
        &&& self.scores.bound(whir)
        &&& self.c.bound(whir_row)
        &&& self.shifted.bound(whir)
        &&& self.e.bound(whir)
        &&& self.sum.bound(whir_row)
        &&& self.sum_broadcast.bound(whir)
        &&& self.out.bound(whir)
    }

    /// The commitments open to what the held tables have at the points of the first
    /// `k` checks. The first `dc` coordinates of a point are those of its column.
    pub open spec fn opened(
        &self,
        whir: Whir,
        whir_row: Whir,
        dc: int,
        ch: RowChallenges,
        k: int,
    ) -> bool {
        &&& k > 0 ==> self.scores.opened_at(whir, ch.shift) && self.c.opened_at(
            whir_row,
            ch.shift.skip(dc),
        ) && self.shifted.opened_at(whir, ch.shift)
        &&& k > 1 ==> self.e.opened_at(whir, ch.lookup)
        &&& k > 3 ==> self.e.opened_at(whir, ch.row_sums) && self.sum.opened_at(whir_row, ch.row)
        &&& k > 4 ==> self.sum_broadcast.opened_at(whir, ch.division) && self.sum.opened_at(
            whir_row,
            ch.division.skip(dc),
        ) && self.out.opened_at(whir, ch.division) && self.e.opened_at(whir, ch.division)
        &&& k > 5 ==> self.sum_broadcast.opened_at(whir, ch.lower)
        &&& k > 6 ==> self.sum_broadcast.opened_at(whir, ch.upper)
    }
}

/// How many checks a row-wise softmax proof makes: of the shift, of the columns and of
/// the product of the lookup, of the row sums, of the division, and two of signs.
pub const ROW_CHECKS: usize = 7;

/// How many elements have been drawn by the check after the first `k`, with `dr` row
/// variables among `d`.
pub open spec fn row_draws(dr: nat, d: nat, k: int) -> nat {
    if k < 3 {
        ((k + 1) * d) as nat
    } else {
        ((k + 1) * d + dr) as nat
    }
}

/// The numbers one by one.
pub proof fn lemma_row_draws(dr: nat, d: nat)
    ensures
        row_draws(dr, d, 0) == d,
        row_draws(dr, d, 1) == 2 * d,
        row_draws(dr, d, 2) == 3 * d,
        row_draws(dr, d, 3) == 4 * d + dr,
        row_draws(dr, d, 4) == 5 * d + dr,
        row_draws(dr, d, 5) == 6 * d + dr,
        row_draws(dr, d, 6) == 7 * d + dr,
{
    assert forall|k: int| 0 <= k implies 0 <= #[trigger] ((k + 1) * d) by {
        assert(0 <= (k + 1) * d) by (nonlinear_arith)
            requires
                0 <= k,
        ;
    }
}

/// What the row-wise softmax proof checks of the committed tensors `t` and the
/// plain ones `p` under the challenges `ch`, the first `k` checks.
pub open spec fn softmax_rows_first(
    t: RowTables,
    p: RowTables,
    exp_table: Seq<int>,
    offset: int,
    n_rows: nat,
    n_cols: nat,
    alpha: int,
    beta: int,
    ch: RowChallenges,
    k: int,
) -> bool {
    let dc = log2(n_cols) as int;
    let indices = row_indices(p, exp_table, offset);
    let column = index_column(indices);
    let rem = row_remainders(p);
    &&& k > 0 ==> shift_holds(t.scores, t.c, t.shifted, ch.shift, ch.shift.skip(dc))
    &&& k > 1 ==> lookup_bound((column, t.e), (column, p.e), beta, ch.lookup)
    &&& k > 2 ==> lookup_holds(
        (column, t.e),
        (column, p.e),
        indices,
        exp_table,
        alpha,
        beta,
        ch.lookup,
        ch.products,
    )
    &&& k > 3 ==> row_sums_hold(
        (t.e, t.sum),
        (p.e, p.sum),
        n_rows,
        n_cols,
        ch.row,
        ch.row_sums,
    )
    &&& k > 4 ==> broadcast_holds(t.sum_broadcast, t.sum, ch.division, ch.division.skip(dc))
        && division_holds(
        (t.out, t.sum_broadcast, t.e),
        (p.out, p.sum_broadcast, p.e),
        ch.division,
    )
    &&& k > 5 ==> nonneg_holds((rem, t.sum_broadcast), (rem, p.sum_broadcast), 2, 1, 0, ch.lower)
    &&& k > 6 ==> nonneg_holds(
        (t.sum_broadcast, rem),
        (p.sum_broadcast, rem),
        1,
        residue(-2),
        residue(-1),
        ch.upper,
    )
}

/// What the row-wise softmax proof checks of the committed tensors `t` and the
/// plain ones `p` under the challenges `ch`.
pub open spec fn softmax_rows_checks(
    t: RowTables,
    p: RowTables,
    exp_table: Seq<int>,
    offset: int,
    n_rows: nat,
    n_cols: nat,
    alpha: int,
    beta: int,
    ch: RowChallenges,
) -> bool {
    softmax_rows_first(
        t,
        p,
        exp_table,
        offset,
        n_rows,
        n_cols,
        alpha,
        beta,
        ch,
        ROW_CHECKS as int,
    )
}

/// What the row-wise softmax proof checks of the committed tensors `t` and the
/// plain ones `p`, with the challenges drawn from generator state `s`.
pub open spec fn softmax_rows_holds(
    t: RowTables,
    p: RowTables,
    exp_table: Seq<int>,
    offset: int,
    n_rows: nat,
    n_cols: nat,
    alpha: int,
    beta: int,
    s: u64,
) -> bool {
    let (dr, dc) = (log2(n_rows), log2(n_cols));
    softmax_rows_checks(
        t,
        p,
        exp_table,
        offset,
        n_rows,
        n_cols,
        alpha,
        beta,
        row_challenges(s, dr, dr + dc),
    )
}

/// Proves the row-wise softmax over a `n_rows x n_cols` tensor: for each row,
/// `out[r,c] = round(2^16 * exp(scores[r,c] - c[r]) / sum_c exp(scores[r,c] - c[r]))`.
/// The output is the probability rescaled to scale 2^16 and rounded half-up
/// (matching the fixed-point convention `round(e * 2^16 / sum)`), so it chains
/// directly into the next matmul. `c` is the per-row shift (the max, committed
/// as a public scalar for numerical stability; softmax is shift-invariant so
/// any valid shift is sound).
pub fn prove_softmax_rows(
    whir: &Whir,
    whir_row: &Whir,
    scores: &Committed,
    _scores_plain: &[Goldilocks],
    c: &Committed,
    _c_plain: &[Goldilocks],
    shifted: &Committed,
    shifted_plain: &[Goldilocks],
    e: &Committed,
    e_plain: &[Goldilocks],
    sum: &Committed,
    sum_plain: &[Goldilocks],
    sum_broadcast: &Committed,
    sum_broadcast_plain: &[Goldilocks],
    out: &Committed,
    out_plain: &[Goldilocks],
    exp_table: &[Goldilocks],
    offset: u32,
    n_rows: usize,
    n_cols: usize,
    alpha: Goldilocks,
    beta: Goldilocks,
    rng: &mut XorShift64,
) -> (ok: bool)
    requires
        is_pow2(n_rows as nat),
        is_pow2(n_cols as nat),
        n_rows * n_cols == pow2(whir.vars()),
        n_rows == pow2(whir_row.vars()),
        scores.fits(*whir),
        c.fits(*whir_row),
        shifted.fits(*whir),
        e.fits(*whir),
        sum.fits(*whir_row),
        sum_broadcast.fits(*whir),
        out.fits(*whir),
        shifted_plain@.len() == pow2(whir.vars()),
        e_plain@.len() == pow2(whir.vars()),
        sum_plain@.len() == n_rows,
        sum_broadcast_plain@.len() == pow2(whir.vars()),
        out_plain@.len() == pow2(whir.vars()),
        exp_table@.len() > 0,
        ({
            let d = whir.vars();
            let indices = clamped_indices(
                ints(shifted_plain@),
                offset as int,
                exp_table@.len() as int,
            );
            let column = index_column(indices);
            lookup_bound(
                (column, e.table()),
                (column, ints(e_plain@)),
                beta@,
                draws(xorshift_n(old(rng)@, d), d),
            ) ==> residue(
                grand_product(table_keys(indices, ints(exp_table@), alpha@, beta@)),
            ) != 0
        }),
    ensures
        ({
            let t = RowTensors {
                scores: *scores,
                c: *c,
                shifted: *shifted,
                e: *e,
                sum: *sum,
                sum_broadcast: *sum_broadcast,
                out: *out,
            };
            let p = RowTables {
                scores: scores.table(),
                c: c.table(),
                shifted: ints(shifted_plain@),
                e: ints(e_plain@),
                sum: ints(sum_plain@),
                sum_broadcast: ints(sum_broadcast_plain@),
                out: ints(out_plain@),
            };
            let (s, d, dr) = (old(rng)@, whir.vars(), whir_row.vars());
            let ch = row_challenges(s, dr, d);
            let first = |k: int|
                softmax_rows_first(
                    t.tables(),
                    p,
                    ints(exp_table@),
                    offset as int,
                    n_rows as nat,
                    n_cols as nat,
                    alpha@,
                    beta@,
                    ch,
                    k,
                );
            let opened = |k: int| t.opened(*whir, *whir_row, d - dr, ch, k);
            let holds = softmax_rows_holds(
                t.tables(),
                p,
                ints(exp_table@),
                offset as int,
                n_rows as nat,
                n_cols as nat,
                alpha@,
                beta@,
                s,
            );
            let bound = t.bound(*whir, *whir_row);
            // Every commitment was opened at every point where its value is used.
            &&& ok ==> {
                &&& scores.opened_at(*whir, ch.shift)
                &&& c.opened_at(*whir_row, ch.shift.skip(d - dr))
                &&& shifted.opened_at(*whir, ch.shift)
                &&& e.opened_at(*whir, ch.lookup)
                &&& e.opened_at(*whir, ch.row_sums)
                &&& sum.opened_at(*whir_row, ch.row)
                &&& sum_broadcast.opened_at(*whir, ch.division)
                &&& sum.opened_at(*whir_row, ch.division.skip(d - dr))
                &&& out.opened_at(*whir, ch.division)
                &&& e.opened_at(*whir, ch.division)
                &&& sum_broadcast.opened_at(*whir, ch.lower)
                &&& sum_broadcast.opened_at(*whir, ch.upper)
            }
            &&& ok ==> holds && opened(ROW_CHECKS as int) && final(rng)@ == xorshift_n(
                s,
                row_draws(dr, d, ROW_CHECKS - 1),
            )
            &&& bound ==> ok == holds
            &&& scores.bound(*whir) && c.bound(*whir_row) && shifted.bound(*whir) && e.bound(*whir)
                && sum.bound(*whir_row) && sum_broadcast.bound(*whir) && out.bound(*whir) ==> ok
                == holds
            // A refusal comes at some check after the first `k`.
            &&& !ok ==> exists|k: int|
                0 <= k < ROW_CHECKS && final(rng)@ == xorshift_n(s, #[trigger] row_draws(dr, d, k))
                    && first(k) && opened(k) && (bound ==> !first(k + 1))
        }),
{
    let d: usize = whir.num_variables();
    let dr: usize = whir_row.num_variables();
    let ghost (s, dn, drn) = (rng@, d as nat, dr as nat);
    let ghost (nr, nc) = (n_rows as nat, n_cols as nat);
    proof {
        lemma_row_draws(drn, dn);
        lemma_pow2_pos(log2(nr));
        lemma_pow2_pos(log2(nc));
        lemma_log2(drn);
        lemma_pow2_adds(drn, log2(nc));
        lemma_pow2_injective(drn + log2(nc), dn);
        lemma_two_adic_pow2(dn);
        lemma_pow2_pos(dn);
        lemma_xorshift_n_add(s, dn, 2 * dn);
        lemma_xorshift_n_add(s, dn, dn);
        lemma_xorshift_n_add(s, 3 * dn, drn);
        lemma_xorshift_n_add(s, 3 * dn + drn, dn);
        lemma_xorshift_n_add(s, 4 * dn + drn, dn);
        lemma_xorshift_n_add(s, 5 * dn + drn, dn);
        lemma_xorshift_n_add(s, 6 * dn + drn, dn);
    }
    let dc: usize = d - dr;
    // 1. shifted = scores - c (broadcast over columns), single-point.
    let r = draw_point(rng, d);
    assert(ints(r@).len() == r@.len());
    let r_row = vstd::slice::slice_subrange(r.as_slice(), dc, d);
    assert(ints(r_row@) =~= ints(r@).skip(dc as int));
    if !check_shift(whir, whir_row, scores, c, shifted, r.as_slice(), r_row) {
        assert(rng@ == xorshift_n(s, row_draws(drn, dn, 0)));
        return false;
    }
    // 2. e = exp_table[shifted + offset] (lookup).
    let (indices, _) = select(shifted_plain, exp_table, offset);
    let idx_field = index_column_of(&indices);
    let ghost column = index_column(indices@);
    proof {
        assert(ints(idx_field@).len() == idx_field@.len());
        assert(column.take(pow2(dn) as int) =~= column);
        assert(ints(e_plain@).take(pow2(dn) as int) =~= ints(e_plain@));
    }
    let c_idx = commit(whir, idx_field.as_slice());
    if !prove_lookup(
        whir,
        &c_idx,
        idx_field.as_slice(),
        whir,
        e,
        e_plain,
        indices.as_slice(),
        exp_table,
        alpha,
        beta,
        rng,
    ) {
        assert(rng@ == xorshift_n(s, row_draws(drn, dn, 1)) || rng@ == xorshift_n(
            s,
            row_draws(drn, dn, 2),
        ));
        return false;
    }
    assert(rng@ == xorshift_n(s, 3 * dn));
    // 3. sum = row-wise sum of e. Pick a fixed row point (the eq selector and
    // the claimed sum), then a full d-bit sumcheck challenge.
    let r_sum = draw_point(rng, dr);
    let r_full = draw_point(rng, d);
    assert(ints(r_sum@).len() == r_sum@.len() && ints(r_full@).len() == r_full@.len());
    if !check_row_sums(
        whir,
        whir_row,
        e,
        e_plain,
        sum,
        sum_plain,
        n_rows,
        n_cols,
        r_sum.as_slice(),
        r_full.as_slice(),
    ) {
        assert(rng@ == xorshift_n(s, row_draws(drn, dn, 3)));
        return false;
    }
    // 4. sum_broadcast = broadcast of sum over columns (single-point).
    let r3 = draw_point(rng, d);
    assert(rng@ == xorshift_n(s, row_draws(drn, dn, 4)));
    assert(ints(r3@).len() == r3@.len());
    let r3_row = vstd::slice::slice_subrange(r3.as_slice(), dc, d);
    assert(ints(r3_row@) =~= ints(r3@).skip(dc as int));
    let sb_r = match (
        open_checked(whir, sum_broadcast, r3.as_slice()),
        open_checked(whir_row, sum, r3_row),
    ) {
        (Some(sb_r), Some(s2_r)) => {
            if sb_r != s2_r {
                return false;
            }
            sb_r
        },
        _ => {
            return false;
        },
    };
    // 5. out = round(e * 2^16 / sum): prove out * sum_broadcast = e * 2^16 - rem
    // with rem in [-sum_broadcast / 2, sum_broadcast / 2), so out is the *integer*
    // probability at scale 2^16, rounded half-up, rather than an exact field rational (which would
    // wrap the field when chained into the next matmul).
    let rem = remainders_of(e_plain, out_plain, sum_broadcast_plain);
    assert(ints(rem@).len() == rem@.len());
    let c_rem = commit(whir, rem.as_slice());
    if !check_division(
        whir,
        out,
        out_plain,
        sb_r,
        sum_broadcast_plain,
        e,
        e_plain,
        &c_rem,
        rem.as_slice(),
        r3.as_slice(),
        Ghost(sum_broadcast.table()),
    ) {
        return false;
    }
    // rem in [-sum_broadcast / 2, sum_broadcast / 2)  <=>
    // 2*rem + sum_broadcast >= 0  and  sum_broadcast - 2*rem - 1 >= 0, each proven by
    // a sub-linear range check. A tie goes up.
    proof {
        lemma_residue_small(0);
        lemma_residue_small(1);
        lemma_residue_small(2);
    }
    if !prove_linear_nonneg(
        whir,
        &c_rem,
        rem.as_slice(),
        sum_broadcast,
        sum_broadcast_plain,
        from_i64(2),
        Goldilocks::one(),
        Goldilocks::zero(),
        rng,
    ) {
        assert(rng@ == xorshift_n(s, row_draws(drn, dn, 5)));
        return false;
    }
    let ok = prove_linear_nonneg(
        whir,
        sum_broadcast,
        sum_broadcast_plain,
        &c_rem,
        rem.as_slice(),
        Goldilocks::one(),
        from_i64(-2),
        from_i64(-1),
        rng,
    );
    assert(rng@ == xorshift_n(s, row_draws(drn, dn, 6)));
    ok
}

/// The indices below `2^31` are embedded as themselves.
pub proof fn lemma_index_column(indices: Seq<u32>)
    requires
        forall|i: int| 0 <= i < indices.len() ==> #[trigger] indices[i] < 0x8000_0000,
    ensures
        forall|i: int|
            0 <= i < indices.len() ==> residue(#[trigger] index_column(indices)[i]) == residue(
                indices[i] as int,
            ),
{
    broadcast use lemma_residue_residue;

    assert forall|i: int| 0 <= i < indices.len() implies residue(
        #[trigger] index_column(indices)[i],
    ) == residue(indices[i] as int) by {
        assert(indices[i] < 0x8000_0000);
        assert(wrap(indices[i] as int, 0x1_0000_0000) == indices[i] as int);
    }
}

/// A softmax whose exp values come from the table and whose outputs are the exp
/// values over their sum is accepted whatever the challenges are.
pub proof fn lemma_softmax_holds(
    x: Seq<int>,
    e: Seq<int>,
    y: Seq<int>,
    exp_table: Seq<int>,
    offset: int,
    alpha: int,
    beta: int,
    r1: Seq<int>,
    chal: Seq<int>,
    r: Seq<int>,
)
    requires
        x.len() == e.len() == y.len() == pow2(r.len()),
        forall|i: int|
            0 <= i < x.len() ==> #[trigger] shifted_index(x[i], offset) < 0x8000_0000 && e[i]
                == exp_table[shifted_index(x[i], offset)],
        forall|i: int|
            0 <= i < y.len() ==> residue(#[trigger] y[i]) == residue(
                e[i] * finv(residue(total(e))),
            ),
    ensures
        softmax_sums_hold(
            (x, e),
            (x, e),
            residue(total(e)),
            exp_table,
            offset,
            alpha,
            beta,
            r1,
            chal,
            r,
        ),
        softmax_divides(e, y, residue(total(e)), r),
{
    let indices = shifted_indices(x, offset);
    let column = index_column(indices);
    assert forall|i: int| 0 <= i < indices.len() implies #[trigger] indices[i] < 0x8000_0000 by {
        assert(shifted_index(x[i], offset) < 0x8000_0000);
    }
    lemma_index_column(indices);
    assert forall|i: int| 0 <= i < indices.len() implies residue(#[trigger] column[i]) == residue(
        indices[i] as int,
    ) && residue(e[i]) == residue(exp_table[indices[i] as int]) by {
        assert(shifted_index(x[i], offset) < 0x8000_0000);
    }
    super::product::lemma_lookup_holds(column, e, indices, exp_table, alpha, beta, r1, chal);
    let inv = finv(residue(total(e)));
    let t = Seq::new(e.len(), |i: int| inv * e[i]);
    mle::lemma_mle_scale(e, t, inv, r);
    assert forall|i: int| 0 <= i < e.len() implies residue(#[trigger] y[i]) == residue(t[i]) by {
        assert(e[i] * inv == inv * e[i]) by (nonlinear_arith);
    }
    assert(residues(y) =~= residues(t));
    lemma_mle_residues(y, t, r);
    let m = mle::mle(e, r);
    assert(inv * m == m * inv) by (nonlinear_arith);
}

/// A row vector repeated over the columns.
pub open spec fn broadcast_rows(v: Seq<int>, n_cols: nat) -> Seq<int> {
    Seq::new(v.len() * n_cols, |i: int| v[i / n_cols as int])
}

/// The sums of the rows of a matrix.
pub open spec fn row_totals(e: Seq<int>, n_rows: nat, n_cols: nat) -> Seq<int> {
    Seq::new(n_rows, |i: int| sigma(n_cols, |j: int| e[i * n_cols + j]))
}

/// Broadcasting over the columns forgets the column coordinates of the point.
pub proof fn lemma_mle_broadcast(v: Seq<int>, n_cols: nat, r: Seq<int>, dc: nat)
    requires
        n_cols == pow2(dc),
        dc <= r.len(),
        v.len() == pow2((r.len() - dc) as nat),
    ensures
        mle::mle(broadcast_rows(v, n_cols), r) == mle::mle(v, r.skip(dc as int)),
        broadcast_rows(v, n_cols).len() == pow2(r.len()),
{
    let b = broadcast_rows(v, n_cols);
    let (rc, rr) = (r.take(dc as int), r.skip(dc as int));
    lemma_pow2_pos(dc);
    lemma_pow2_adds((r.len() - dc) as nat, dc);
    assert(rc + rr =~= r);
    mle::lemma_partial_then_full(b, rc, rr);
    mle::lemma_fix_all_len(b, rc, v.len());
    let f = mle::fix_all(b, rc);
    assert forall|i: int| 0 <= i < v.len() implies f[i] == v[i] by {
        mle::lemma_fix_all_rows(b, rc, v.len(), i);
        let row = mle::row(b, i, n_cols);
        assert forall|j: int| 0 <= j < row.len() implies row[j] == v[i] by {
            vstd::arithmetic::div_mod::lemma_fundamental_div_mod_converse(
                i * n_cols + j,
                n_cols as int,
                i,
                j,
            );
            assert(0 <= i * n_cols + j < v.len() * n_cols) by (nonlinear_arith)
                requires
                    0 <= i < v.len(),
                    0 <= j < n_cols,
            ;
        }
        mle::lemma_mle_of_constant(row, rc, v[i]);
    }
    assert(f =~= v);
}

/// Summing against the row weights is evaluating the row sums.
pub proof fn lemma_row_weights(e: Seq<int>, n_rows: nat, n_cols: nat, r_row: Seq<int>)
    requires
        n_rows == pow2(r_row.len()),
        n_cols > 0,
        e.len() == n_rows * n_cols,
    ensures
        dot(e, row_weights(r_row, n_rows, n_cols)) == mle::mle(
            row_totals(e, n_rows, n_cols),
            r_row,
        ),
{
    let w = row_weights(r_row, n_rows, n_cols);
    let f = |i: int| e[i] * w[i];
    crate::sums::lemma_sigma_rows(n_rows, n_cols, f);
    let by_row = |i: int| sigma(n_cols, |j: int| f(i * n_cols + j));
    let t = row_totals(e, n_rows, n_cols);
    let g = |i: int| t[i] * eq_weight(i, r_row);
    assert forall|i: int| 0 <= i < n_rows implies #[trigger] by_row(i) == g(i) by {
        let q = eq_weight(i, r_row);
        let row = |j: int| e[i * n_cols + j];
        let scaled = |j: int| q * row(j);
        let terms = |j: int| f(i * n_cols + j);
        assert forall|j: int| 0 <= j < n_cols implies #[trigger] terms(j) == scaled(j) by {
            vstd::arithmetic::div_mod::lemma_fundamental_div_mod_converse(
                i * n_cols + j,
                n_cols as int,
                i,
                j,
            );
            assert(0 <= i * n_cols + j < n_rows * n_cols) by (nonlinear_arith)
                requires
                    0 <= i < n_rows,
                    0 <= j < n_cols,
            ;
            let x = e[i * n_cols + j];
            assert(x * q == q * x) by (nonlinear_arith);
        }
        lemma_sigma_eq(n_cols, terms, scaled);
        crate::sums::lemma_sigma_scale(n_cols, q, row);
        let total = sigma(n_cols, row);
        assert(q * total == total * q) by (nonlinear_arith);
    }
    lemma_sigma_eq(n_rows, by_row, g);
}

/// The forward pass of a row-wise softmax: the shifted scores, the exp values
/// from the table, the row sums and their broadcast, and the outputs rounded
/// from integers that stay inside `i32`.
pub open spec fn is_softmax_rows(
    p: RowTables,
    exp_table: Seq<int>,
    offset: int,
    n_rows: nat,
    n_cols: nat,
) -> bool {
    let n = n_rows * n_cols;
    let indices = row_indices(p, exp_table, offset);
    &&& p.scores.len() == p.shifted.len() == p.e.len() == p.sum_broadcast.len() == p.out.len() == n
    &&& p.c.len() == p.sum.len() == n_rows
    &&& 0 < exp_table.len() <= 0x8000_0000
    &&& forall|i: int|
        0 <= i < n ==> residue(#[trigger] p.shifted[i]) == residue(
            p.scores[i] - p.c[i / n_cols as int],
        )
    &&& forall|i: int| 0 <= i < n ==> #[trigger] p.e[i] == exp_table[indices[i] as int]
    &&& residues(p.sum) == residues(row_totals(p.e, n_rows, n_cols))
    &&& forall|i: int|
        0 <= i < n ==> #[trigger] p.sum_broadcast[i] == p.sum[i / n_cols as int]
    &&& forall|i: int|
        0 <= i < n ==> 0 < #[trigger] p.sum_broadcast[i] && 2 * p.sum_broadcast[i] <= i32::MAX
    &&& forall|i: int|
        0 <= i < n ==> residue(#[trigger] p.out[i]) == residue(
            crate::integers::round_div(p.e[i] * 0x1_0000, p.sum_broadcast[i]),
        )
}

/// The forward pass of a row-wise softmax is accepted whatever the challenges
/// are.
pub proof fn lemma_softmax_rows_holds(
    p: RowTables,
    exp_table: Seq<int>,
    offset: int,
    n_rows: nat,
    n_cols: nat,
    alpha: int,
    beta: int,
    s: u64,
)
    requires
        is_pow2(n_rows),
        is_pow2(n_cols),
        is_softmax_rows(p, exp_table, offset, n_rows, n_cols),
    ensures
        softmax_rows_holds(p, p, exp_table, offset, n_rows, n_cols, alpha, beta, s),
{
    let (dr, dc) = (log2(n_rows), log2(n_cols));
    let d = dr + dc;
    let n = n_rows * n_cols;
    lemma_pow2_pos(dr);
    lemma_pow2_pos(dc);
    lemma_pow2_adds(dr, dc);
    let r = draws(s, d);
    let r3 = draws(xorshift_n(s, 4 * d + dr), d);
    // 1. shifted = scores - c.
    let bc = broadcast_rows(p.c, n_cols);
    lemma_mle_broadcast(p.c, n_cols, r, dc);
    let nc = Seq::new(n, |i: int| (-1) * bc[i]);
    let diff = Seq::new(n, |i: int| p.scores[i] + nc[i]);
    mle::lemma_mle_scale(bc, nc, -1, r);
    mle::lemma_mle_add(p.scores, nc, diff, r);
    assert(residues(p.shifted) =~= residues(diff)) by {
        assert forall|i: int| 0 <= i < n implies residue(#[trigger] p.shifted[i]) == residue(
            diff[i],
        ) by {
            assert(bc[i] == p.c[i / n_cols as int]);
        }
    }
    lemma_mle_residues(p.shifted, diff, r);
    // 2. The exp lookup.
    let indices = row_indices(p, exp_table, offset);
    let column = index_column(indices);
    assert forall|i: int| 0 <= i < indices.len() implies #[trigger] indices[i] < 0x8000_0000 by {
        let v = as_i32(p.shifted[i]) + offset;
        assert(0 <= super::raw::clamped_index(p.shifted[i], offset, exp_table.len() as int)
            < exp_table.len());
    }
    lemma_index_column(indices);
    assert forall|i: int| 0 <= i < indices.len() implies residue(#[trigger] column[i]) == residue(
        indices[i] as int,
    ) && residue(p.e[i]) == residue(exp_table[indices[i] as int]) by {
        assert(p.e[i] == exp_table[indices[i] as int]);
    }
    super::product::lemma_lookup_holds(
        column,
        p.e,
        indices,
        exp_table,
        alpha,
        beta,
        draws(xorshift_n(s, d), d),
        draws(xorshift_n(s, 2 * d), d),
    );
    // 3. The row sums.
    let rr = draws(xorshift_n(s, 3 * d), dr);
    lemma_row_weights(p.e, n_rows, n_cols, rr);
    lemma_mle_residues(p.sum, row_totals(p.e, n_rows, n_cols), rr);
    // 4. The broadcast.
    let bs = broadcast_rows(p.sum, n_cols);
    lemma_mle_broadcast(p.sum, n_cols, r3, dc);
    assert(p.sum_broadcast =~= bs);
    // 5. The remainders.
    let rem = row_remainders(p);
    assert forall|i: int| 0 <= i < n implies residue(
        2 * #[trigger] rem[i] + 1 * p.sum_broadcast[i] + 0,
    ) <= i32::MAX && residue(
        1 * p.sum_broadcast[i] + residue(-2) * rem[i] + residue(-1),
    ) <= i32::MAX by {
        lemma_remainder_range(p.e[i], p.out[i], p.sum_broadcast[i]);
    }
    let r4 = draws(xorshift_n(s, 5 * d + dr), d);
    let r5 = draws(xorshift_n(s, 6 * d + dr), d);
    super::rounding::lemma_nonneg_holds(rem, p.sum_broadcast, 2, 1, 0, r4);
    assert forall|i: int| 0 <= i < n implies residue(
        1 * #[trigger] p.sum_broadcast[i] + residue(-2) * rem[i] + residue(-1),
    ) <= i32::MAX by {
        assert(residue(2 * rem[i] + 1 * p.sum_broadcast[i] + 0) <= i32::MAX);
    }
    super::rounding::lemma_nonneg_holds(
        p.sum_broadcast,
        rem,
        1,
        residue(-2),
        residue(-1),
        r5,
    );
}

/// The remainder of a rounded division by a small sum passes both sign checks.
proof fn lemma_remainder_range(e: int, out: int, sum: int)
    requires
        0 < sum,
        2 * sum <= i32::MAX,
        residue(out) == residue(crate::integers::round_div(e * 0x1_0000, sum)),
    ensures
        ({
            let rem = residue(e * 0x1_0000 - out * sum);
            &&& residue(2 * rem + 1 * sum + 0) <= i32::MAX
            &&& residue(1 * sum + residue(-2) * rem + residue(-1)) <= i32::MAX
        }),
{
    broadcast use lemma_residue_residue;

    let a = e * 0x1_0000;
    let q = crate::integers::round_div(a, sum);
    crate::integers::lemma_round_remainder(a, sum);
    let m = a - q * sum;
    let rem = residue(a - out * sum);
    lemma_residue_mul(out, sum);
    lemma_residue_mul(q, sum);
    lemma_residue_sub(a, out * sum);
    lemma_residue_sub(a, q * sum);
    assert(rem == residue(m));
    lemma_residue_mul(2, m);
    lemma_residue_mul(2, rem);
    lemma_residue_add(2 * rem, sum);
    lemma_residue_add(2 * m, sum);
    lemma_residue_small(2 * m + sum);
    lemma_residue_mul(-2, m);
    lemma_residue_mul(residue(-2), rem);
    lemma_residue_add(sum, residue(-2) * rem);
    lemma_residue_add(sum, (-2) * m);
    lemma_residue_add(sum + residue(-2) * rem, -1);
    lemma_residue_add(sum + residue(-2) * rem, residue(-1));
    lemma_residue_add(sum + (-2) * m, -1);
    lemma_residue_small(sum - 2 * m - 1);
}

/// The challenges of a row-wise softmax proof are drawn one after the other, none of them
/// twice.
pub proof fn lemma_row_challenges_fresh(s: u64, dr: nat, d: nat)
    ensures
        ({
            let ch = row_challenges(s, dr, d);
            &&& ch.shift + ch.lookup + ch.products + ch.row + ch.row_sums + ch.division + ch.lower
                + ch.upper == draws(s, 7 * d + dr)
            &&& ch.shift.len() == ch.lookup.len() == ch.products.len() == ch.row_sums.len() == d
            &&& ch.division.len() == ch.lower.len() == ch.upper.len() == d
            &&& ch.row.len() == dr
        }),
{
    crate::field::lemma_draws_split(s, d, d);
    crate::field::lemma_draws_split(s, 2 * d, d);
    crate::field::lemma_draws_split(s, 3 * d, dr);
    crate::field::lemma_draws_split(s, 3 * d + dr, d);
    crate::field::lemma_draws_split(s, 4 * d + dr, d);
    crate::field::lemma_draws_split(s, 5 * d + dr, d);
    crate::field::lemma_draws_split(s, 6 * d + dr, d);
}

/// The table index of a score: the score plus the offset, where that is below `2^32`.
pub proof fn lemma_shifted_index(x: Seq<int>, offset: int, k: int)
    requires
        0 <= k < x.len(),
        0 <= as_i32(x[k]) + offset < 0x1_0000_0000,
    ensures
        shifted_indices(x, offset).len() == x.len(),
        shifted_indices(x, offset)[k] == as_i32(x[k]) + offset,
{
}

} // verus!
