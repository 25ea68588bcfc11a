//! Range checks by bit decomposition, and the rescaling layers that rest on
//! them.

use super::linear::agree;
use super::openings::{
    commit, draw_point, eq_self, hadamard, lemma_xorshift_n_add, open_checked, selector,
    weighted_check, weighted_check2, Committed, Selector,
};
use super::raw::{power_of_two, rescaled};
use crate::field::{
    draws, ints, lemma_fadd, lemma_fmul, lemma_fsub, lemma_residue_add, lemma_residue_mul,
    lemma_residue_residue, lemma_residue_small, lemma_residue_sub, lemma_view_canonical, residue,
    residues, xorshift_n, Goldilocks, XorShift64,
};
use crate::fixed_point::{from_i32, from_i64, to_i32, to_i64, wrap};
use crate::integers::{
    as_i32, as_i64, bit, div_round, floor_div, from_i128, lemma_low_bits, low_i32, round_div,
    shifted_right, WIDE,
};
use crate::mle;
use crate::mle::lemma_mle_residues;
use crate::sumcheck::lemma_mul3_residue;
use crate::sums::{lemma_sigma_eq, sigma};
use crate::whir::Whir;
use vstd::arithmetic::power2::{lemma_pow2_pos, lemma_pow2_unfold, pow2};
use vstd::prelude::*;

verus! {

/// Bit `j` of every value.
pub open spec fn bit_column(v: Seq<int>, j: nat) -> Seq<int> {
    Seq::new(v.len(), |i: int| bit(v[i], j))
}

/// The low `c` bits of every value.
pub open spec fn low_bits(v: Seq<int>, c: nat) -> Seq<int> {
    Seq::new(v.len(), |i: int| v[i] % (pow2(c) as int))
}

/// The weighted bit columns recompose the low bits at every point.
pub proof fn lemma_columns_recompose(v: Seq<int>, c: nat, r: Seq<int>)
    requires
        v.len() == pow2(r.len()),
    ensures
        sigma(c, |j: int| pow2(j as nat) * mle::mle(bit_column(v, j as nat), r)) == mle::mle(
            low_bits(v, c),
            r,
        ),
{
    let n = v.len();
    let tables = |j: int| Seq::new(n, |i: int| pow2(j as nat) * bit(v[i], j as nat));
    let low = low_bits(v, c);
    assert forall|i: int| 0 <= i < low.len() implies #[trigger] low[i] == sigma(
        c,
        |j: int| tables(j)[i],
    ) by {
        lemma_low_bits(v[i], c);
        lemma_sigma_eq(
            c,
            |j: int| pow2(j as nat) * bit(v[i], j as nat),
            |j: int| tables(j)[i],
        );
    }
    mle::lemma_mle_sigma(c, tables, low, r);
    let f = |j: int| mle::mle(tables(j), r);
    let g = |j: int| pow2(j as nat) * mle::mle(bit_column(v, j as nat), r);
    assert forall|j: int| 0 <= j < c implies #[trigger] f(j) == g(j) by {
        mle::lemma_mle_scale(bit_column(v, j as nat), tables(j), pow2(j as nat) as int, r);
    }
    lemma_sigma_eq(c, f, g);
}

/// Decomposes every value into `count` bit columns.
pub fn bit_columns(values: &Vec<i128>, count: usize) -> (cols: Vec<Vec<Goldilocks>>)
    requires
        forall|i: int| 0 <= i < values@.len() ==> -WIDE < #[trigger] values@[i] < WIDE,
    ensures
        cols@.len() == count,
        forall|j: int|
            0 <= j < count ==> ints((#[trigger] cols@[j])@) == bit_column(wide(values@), j as nat),
{
    let mut rest: Vec<i128> = Vec::new();
    for i in 0..values.len()
        invariant
            rest@.len() == i,
            forall|k: int| 0 <= k < i ==> #[trigger] rest@[k] == values@[k],
    {
        rest.push(values[i]);
    }
    let mut cols: Vec<Vec<Goldilocks>> = Vec::new();
    for j in 0..count
        invariant
            rest@.len() == values@.len(),
            forall|i: int|
                0 <= i < rest@.len() ==> #[trigger] rest@[i] as int == shifted_right(
                    values@[i] as int,
                    j as nat,
                ),
            forall|i: int| 0 <= i < rest@.len() ==> -WIDE < #[trigger] rest@[i] < WIDE,
            cols@.len() == j,
            forall|k: int|
                0 <= k < j ==> ints((#[trigger] cols@[k])@) == bit_column(
                    wide(values@),
                    k as nat,
                ),
    {
        let mut col: Vec<Goldilocks> = Vec::new();
        let ghost before = rest@;
        let n: usize = rest.len();
        for i in 0..n
            invariant
                rest@.len() == before.len() == values@.len() == n,
                forall|k: int|
                    0 <= k < before.len() ==> #[trigger] before[k] as int == shifted_right(
                        values@[k] as int,
                        j as nat,
                    ),
                forall|k: int| 0 <= k < before.len() ==> -WIDE < #[trigger] before[k] < WIDE,
                forall|k: int| i <= k < before.len() ==> #[trigger] rest@[k] == before[k],
                forall|k: int|
                    0 <= k < i ==> #[trigger] rest@[k] as int == before[k] as int / 2,
                col@.len() == i,
                forall|k: int|
                    0 <= k < i ==> (#[trigger] col@[k])@ == bit(values@[k] as int, j as nat),
        {
            let v: i128 = rest[i];
            assert(v == before[i as int]);
            let (q, b): (i128, i128) = floor_div(v, 2);
            proof {
                lemma_residue_small(b as int);
            }
            col.push(Goldilocks::from_u64(b as u64));
            rest.set(i, q);
        }
        assert(ints(col@) =~= bit_column(wide(values@), j as nat));
        cols.push(col);
        assert forall|i: int| 0 <= i < rest@.len() implies #[trigger] rest@[i] as int
            == shifted_right(values@[i] as int, (j + 1) as nat) && -WIDE < rest@[i] < WIDE by {
            assert(before[i] as int == shifted_right(values@[i] as int, j as nat));
        }
    }
    cols
}

/// The mathematical values of a sequence of machine integers.
pub open spec fn wide(s: Seq<i128>) -> Seq<int> {
    Seq::new(s.len(), |i: int| s[i] as int)
}

/// The committed columns belong to the plain ones.
pub open spec fn columns_bound(
    whir: Whir,
    bits: Seq<Vec<Goldilocks>>,
    c_bits: Seq<Committed>,
) -> bool {
    &&& bits.len() == c_bits.len()
    &&& forall|j: int|
        0 <= j < bits.len() ==> (#[trigger] c_bits[j]).bound(whir) && c_bits[j].table() == ints(
            bits[j]@,
        ) && bits[j]@.len() == pow2(whir.vars())
}

/// Commits to every column.
pub fn commit_columns(whir: &Whir, bits: &Vec<Vec<Goldilocks>>) -> (c: Vec<Committed>)
    requires
        forall|j: int| 0 <= j < bits@.len() ==> (#[trigger] bits@[j])@.len() == pow2(whir.vars()),
    ensures
        columns_bound(*whir, bits@, c@),
        c@.len() == bits@.len(),
        forall|j: int|
            0 <= j < c@.len() ==> (#[trigger] c@[j]).bound(*whir) && c@[j].table() == ints(bits@[j]@),
{
    let mut c: Vec<Committed> = Vec::new();
    for j in 0..bits.len()
        invariant
            forall|j: int|
                0 <= j < bits@.len() ==> (#[trigger] bits@[j])@.len() == pow2(whir.vars()),
            c@.len() == j,
            forall|k: int|
                0 <= k < j ==> (#[trigger] c@[k]).bound(*whir) && c@[k].table() == ints(
                    bits@[k]@,
                ) && bits@[k]@.len() == pow2(whir.vars()),
    {
        c.push(commit(whir, bits[j].as_slice()));
    }
    c
}

/// Every entry of the column is its own square, as far as `r` can tell.
pub open spec fn boolean_at(column: Seq<int>, r: Seq<int>) -> bool {
    agree(hadamard(column, column), column, r)
}

/// The numbers of some columns.
pub open spec fn column_ints(bits: Seq<Vec<Goldilocks>>) -> Seq<Seq<int>> {
    Seq::new(bits.len(), |j: int| ints(bits[j]@))
}

/// The tables that some commitments hold.
pub open spec fn column_tables(c_bits: Seq<Committed>) -> Seq<Seq<int>> {
    Seq::new(c_bits.len(), |j: int| c_bits[j].table())
}

/// The value of the columns at `r`, weighted by their places.
pub open spec fn recomposed(columns: Seq<Seq<int>>, r: Seq<int>, n: nat) -> int {
    sigma(n, |j: int| pow2(j as nat) * mle::mle(columns[j], r))
}

/// The column is boolean at `r`, and there the committed table is the column, as far
/// as the zero-check selector can tell.
pub open spec fn bit_holds(table: Seq<int>, column: Seq<int>, r: Seq<int>) -> bool {
    let (e, t, m) = (eq_self(r), mle::mle(table, r), mle::mle(column, r));
    &&& residue(e * t * t) == residue(e * m * m)
    &&& residue(e * t) == residue(e * m)
    &&& boolean_at(column, r)
}

/// What the range check of a value checks at `r`: every column is a bit, and the
/// committed ones recompose the value.
pub open spec fn range_holds(
    tables: Seq<Seq<int>>,
    columns: Seq<Seq<int>>,
    value: int,
    r: Seq<int>,
) -> bool {
    &&& forall|j: int| 0 <= j < columns.len() ==> #[trigger] bit_holds(tables[j], columns[j], r)
    &&& value == residue(recomposed(tables, r, tables.len()))
}

/// Proves `bits` are all in {0,1} and that `value_at_r = sum_j bits_j(r) * 2^j`,
/// i.e. the value whose bits are given is in `[0, 2^bits.len())`. The bit-check
/// uses `sum eq b (b-1) = 0 <=> sum eq b^2 == sum eq b`, and the reconstruction
/// is a single random-point linear check.
pub fn prove_bits_range(
    whir: &Whir,
    bits: &Vec<Vec<Goldilocks>>,
    c_bits: &Vec<Committed>,
    value_at_r: Goldilocks,
    r: &[Goldilocks],
    s: &Selector,
) -> (ok: bool)
    requires
        bits@.len() == c_bits@.len() <= 62,
        forall|j: int| 0 <= j < bits@.len() ==> (#[trigger] bits@[j])@.len() == pow2(whir.vars()),
        forall|j: int| 0 <= j < c_bits@.len() ==> (#[trigger] c_bits@[j]).fits(*whir),
        r@.len() == whir.vars(),
        r@.len() > 0,
        s.selects(ints(r@)),
    ensures
        ({
            let holds = range_holds(
                column_tables(c_bits@),
                column_ints(bits@),
                value_at_r@,
                ints(r@),
            );
            &&& ok ==> holds
            &&& ok ==> forall|j: int|
                0 <= j < c_bits@.len() ==> (#[trigger] c_bits@[j]).opened_at(*whir, ints(r@))
            &&& (forall|j: int| 0 <= j < c_bits@.len() ==> (#[trigger] c_bits@[j]).bound(*whir))
                ==> ok == holds
        }),
{
    let ghost rv = ints(r@);
    let ghost (tables, columns) = (column_tables(c_bits@), column_ints(bits@));
    for j in 0..bits.len()
        invariant
            rv == ints(r@),
            tables == column_tables(c_bits@),
            columns == column_ints(bits@),
            bits@.len() == c_bits@.len(),
            forall|j: int|
                0 <= j < bits@.len() ==> (#[trigger] bits@[j])@.len() == pow2(whir.vars()),
            forall|j: int| 0 <= j < c_bits@.len() ==> (#[trigger] c_bits@[j]).fits(*whir),
            r@.len() == whir.vars(),
            r@.len() > 0,
            s.selects(rv),
            forall|k: int| 0 <= k < j ==> #[trigger] bit_holds(tables[k], columns[k], rv),
            forall|k: int| 0 <= k < j ==> (#[trigger] c_bits@[k]).opened_at(*whir, rv),
    {
        let ghost (table, column) = (tables[j as int], columns[j as int]);
        assert(c_bits@[j as int].fits(*whir) && bits@[j as int]@.len() == pow2(whir.vars()));
        let b_r = match open_checked(whir, &c_bits[j], r) {
            Some(b_r) => b_r,
            None => {
                assert(!c_bits@[j as int].bound(*whir));
                return false;
            },
        };
        let bj = bits[j].as_slice();
        let (c_bb, ok_bb) = weighted_check2(s, bj, bj, b_r, b_r, r);
        let (c_b, ok_b) = weighted_check(s, bj, b_r, r);
        proof {
            broadcast use lemma_residue_residue;

            let t = mle::mle(table, rv);
            lemma_mul3_residue(eq_self(rv), b_r@, b_r@, eq_self(rv), t, t);
            lemma_mul3_residue(eq_self(rv), b_r@, 1, eq_self(rv), t, 1);
            assert((ok_bb && ok_b && c_bb@ == c_b@) == bit_holds(table, column, rv));
        }
        if !ok_bb || !ok_b || c_bb != c_b {
            return false;
        }
    }
    let ghost f = |j: int| pow2(j as nat) * mle::mle(tables[j], rv);
    let mut rhs = Goldilocks::zero();
    for j in 0..c_bits.len()
        invariant
            rv == ints(r@),
            tables == column_tables(c_bits@),
            c_bits@.len() <= 62,
            forall|j: int| 0 <= j < c_bits@.len() ==> (#[trigger] c_bits@[j]).fits(*whir),
            r@.len() == whir.vars(),
            f == (|j: int| pow2(j as nat) * mle::mle(tables[j], rv)),
            rhs@ == residue(sigma(j as nat, f)),
    {
        assert(c_bits@[j as int].fits(*whir));
        let b_r = match open_checked(whir, &c_bits[j], r) {
            Some(b_r) => b_r,
            None => {
                assert(!c_bits@[j as int].bound(*whir));
                return false;
            },
        };
        let place: i128 = power_of_two(j as u32);
        proof {
            let m = mle::mle(tables[j as int], rv);
            lemma_fmul(m, place as int);
            lemma_fadd(sigma(j as nat, f), m * place);
            assert(m * place == place * m) by (nonlinear_arith);
            assert(f(j as int) == place * m);
        }
        rhs = rhs + b_r * from_i128(place);
    }
    value_at_r == rhs
}

/// Bit columns are boolean at every point.
pub proof fn lemma_bits_boolean(v: Seq<int>, j: nat, r: Seq<int>)
    ensures
        boolean_at(bit_column(v, j), r),
{
    let b = bit_column(v, j);
    assert(hadamard(b, b) =~= b) by {
        assert forall|i: int| 0 <= i < b.len() implies hadamard(b, b)[i] == b[i] by {
            let x = b[i];
            assert(x == 0 || x == 1);
            assert(x * x == x) by (nonlinear_arith)
                requires
                    x == 0 || x == 1,
            ;
        }
    }
}

/// The decision of the range check on commitments to the bit columns of `values`: it
/// is left to the value.
proof fn lemma_range_decision(
    whir: Whir,
    bits: Seq<Vec<Goldilocks>>,
    c_bits: Seq<Committed>,
    values: Seq<int>,
    value: int,
    r: Seq<int>,
)
    requires
        values.len() == pow2(r.len()),
        columns_bound(whir, bits, c_bits),
        forall|j: int|
            0 <= j < bits.len() ==> ints((#[trigger] bits[j])@) == bit_column(values, j as nat),
    ensures
        range_holds(column_tables(c_bits), column_ints(bits), value, r) == (value == residue(
            mle::mle(low_bits(values, bits.len()), r),
        )),
        forall|j: int| 0 <= j < c_bits.len() ==> (#[trigger] c_bits[j]).bound(whir),
{
    let (tables, columns) = (column_tables(c_bits), column_ints(bits));
    assert forall|j: int| 0 <= j < columns.len() implies #[trigger] bit_holds(
        tables[j],
        columns[j],
        r,
    ) by {
        assert(c_bits[j].table() == ints(bits[j]@));
        lemma_bits_boolean(values, j as nat, r);
    }
    assert forall|j: int| 0 <= j < c_bits.len() implies tables[j] == bit_column(
        values,
        j as nat,
    ) by {
        assert(c_bits[j].table() == ints(bits[j]@));
    }
    lemma_columns_recompose(values, bits.len(), r);
    lemma_sigma_eq(
        bits.len(),
        |j: int| pow2(j as nat) * mle::mle(tables[j], r),
        |j: int| pow2(j as nat) * mle::mle(bit_column(values, j as nat), r),
    );
}

/// The remainder of a rescale, offset by half a unit: nonnegative and below
/// one unit exactly when the output is the rounded value.
pub open spec fn round_offset(input: int, output: int, scale: int, bias: int, shift: nat) -> int {
    as_i64(input) * scale - (as_i32(output) - as_i32(bias)) * pow2(shift) + pow2(
        (shift - 1) as nat,
    )
}

/// The offset remainders of whole tensors.
pub open spec fn round_offsets(
    input: Seq<int>,
    output: Seq<int>,
    scale: int,
    bias: Seq<int>,
    shift: nat,
) -> Seq<int> {
    Seq::new(bias.len(), |i: int| round_offset(input[i], output[i], scale, bias[i], shift))
}

/// What the rescale proof checks at `r`: the offset remainder of the committed
/// tensors is given by the low bits of the plain ones.
pub open spec fn round_holds(
    tables: (Seq<int>, Seq<int>),
    plain: (Seq<int>, Seq<int>),
    scale: int,
    bias: Seq<int>,
    shift: nat,
    r: Seq<int>,
) -> bool {
    residue(
        mle::mle(tables.0, r) * scale - (mle::mle(tables.1, r) - mle::mle(bias, r)) * pow2(shift)
            + pow2((shift - 1) as nat),
    ) == residue(
        mle::mle(low_bits(round_offsets(plain.0, plain.1, scale, bias, shift), shift), r),
    )
}

/// The offset remainder of one entry.
fn round_offset_of(
    input: Goldilocks,
    output: Goldilocks,
    scale: i64,
    bias: Goldilocks,
    shift: u32,
) -> (v: i128)
    requires
        1 <= shift <= 62,
    ensures
        v == round_offset(input@, output@, scale as int, bias@, shift as nat),
        -WIDE < v < WIDE,
{
    proof {
        lemma_view_canonical(input);
    }
    let x: i128 = to_i64(input) as i128;
    let k: i128 = scale as i128;
    let d: i128 = to_i32(output) as i128 - to_i32(bias) as i128;
    let unit: i128 = power_of_two(shift);
    let half: i128 = power_of_two(shift - 1);
    assert(-0x3FFF_FFFF_FFFF_FFFF_8000_0000_0000_0000 <= x * k
        <= 0x3FFF_FFFF_FFFF_FFFF_8000_0000_0000_0000) by (nonlinear_arith)
        requires
            -0x7FFF_FFFF_0000_0001 <= x <= 0x7FFF_FFFF_FFFF_FFFF,
            -0x8000_0000_0000_0000 <= k <= 0x7FFF_FFFF_FFFF_FFFF,
    ;
    assert(-0x4000_0000_0000_0000_0000_0000 <= d * unit <= 0x4000_0000_0000_0000_0000_0000)
        by (nonlinear_arith)
        requires
            -0x1_0000_0000 <= d <= 0x1_0000_0000,
            0 < unit <= 0x4000_0000_0000_0000,
    ;
    x * k - d * unit + half
}

/// Proves `out = round(in * scale / 2^shift) + bias`: the offset remainder is
/// decomposed into `shift` bits, and its value at a random point is recomposed
/// from the committed bits.
pub fn prove_round(
    whir_in: &Whir,
    input: &Committed,
    in_plain: &[Goldilocks],
    whir_out: &Whir,
    output: &Committed,
    out_plain: &[Goldilocks],
    scale: i64,
    bias: &[Goldilocks],
    shift: u32,
    rng: &mut XorShift64,
) -> (ok: bool)
    requires
        whir_in.vars() == whir_out.vars(),
        input.fits(*whir_in),
        output.fits(*whir_out),
        bias@.len() == pow2(whir_out.vars()),
        in_plain@.len() >= bias@.len(),
        out_plain@.len() >= bias@.len(),
        1 <= shift <= 62,
    ensures
        ({
            let r = draws(old(rng)@, whir_out.vars());
            let holds = round_holds(
                (input.table(), output.table()),
                (ints(in_plain@), ints(out_plain@)),
                scale as int,
                ints(bias@),
                shift as nat,
                r,
            );
            &&& ok ==> holds
            &&& ok ==> input.opened_at(*whir_in, r) && output.opened_at(*whir_out, r)
            &&& input.bound(*whir_in) && output.bound(*whir_out) ==> ok == holds
        }),
        final(rng)@ == xorshift_n(old(rng)@, whir_out.vars()),
{
    let n: usize = bias.len();
    let d: usize = whir_out.num_variables();
    let ghost (iv, ov, bv) = (ints(in_plain@), ints(out_plain@), ints(bias@));
    let ghost offsets = round_offsets(iv, ov, scale as int, bv, shift as nat);
    // Host-side: rem_off = in*scale - (out-bias)*2^shift + 2^(shift-1).
    let mut values: Vec<i128> = Vec::new();
    for i in 0..n
        invariant
            n == bias@.len(),
            in_plain@.len() >= n,
            out_plain@.len() >= n,
            1 <= shift <= 62,
            iv == ints(in_plain@),
            ov == ints(out_plain@),
            bv == ints(bias@),
            offsets == round_offsets(iv, ov, scale as int, bv, shift as nat),
            values@.len() == i,
            forall|k: int| 0 <= k < i ==> #[trigger] values@[k] as int == offsets[k],
            forall|k: int| 0 <= k < i ==> -WIDE < #[trigger] values@[k] < WIDE,
    {
        values.push(round_offset_of(in_plain[i], out_plain[i], scale, bias[i], shift));
    }
    assert(wide(values@) =~= offsets);
    let bits = bit_columns(&values, shift as usize);
    proof {
        assert forall|j: int| 0 <= j < bits@.len() implies (#[trigger] bits@[j])@.len() == n by {
            assert(ints(bits@[j]@).len() == bit_column(offsets, j as nat).len());
        }
    }
    let c_bits = commit_columns(whir_out, &bits);
    let r = draw_point(rng, d);
    let ghost rv = ints(r@);
    assert(rv.len() == r@.len());
    let s = selector(r.as_slice());
    let (in_r, out_r) = match (
        open_checked(whir_in, input, r.as_slice()),
        open_checked(whir_out, output, r.as_slice()),
    ) {
        (Some(in_r), Some(out_r)) => (in_r, out_r),
        _ => {
            return false;
        },
    };
    let bias_r = mle::eval(bias, r.as_slice());
    let two_shift = from_i128(power_of_two(shift));
    let half = from_i128(power_of_two(shift - 1));
    let value_at_r = in_r * from_i64(scale) - (out_r - bias_r) * two_shift + half;
    proof {
        let (x, y, b) = (
            mle::mle(input.table(), rv),
            mle::mle(output.table(), rv),
            mle::mle(bv, rv),
        );
        let (u, h) = (pow2(shift as nat) as int, pow2((shift - 1) as nat) as int);
        let k = scale as int;
        lemma_fmul(x, k);
        lemma_fsub(y, b);
        lemma_fmul(y - b, u);
        lemma_fsub(x * k, (y - b) * u);
        lemma_fadd(x * k - (y - b) * u, h);
        assert(bits@.len() == shift as nat);
        lemma_range_decision(*whir_out, bits@, c_bits@, offsets, value_at_r@, rv);
    }
    prove_bits_range(whir_out, &bits, &c_bits, value_at_r, r.as_slice(), &s)
}

/// Proves `out = round(in * scale / 2^16) + bias` against WHIR commitments. The
/// scalar multiply is a deterministic host-side integer operation (no lookup),
/// exactly like the rescale in [`prove_affine`].
pub fn prove_scale(
    whir_in: &Whir,
    input: &Committed,
    in_plain: &[Goldilocks],
    whir_out: &Whir,
    output: &Committed,
    out_plain: &[Goldilocks],
    scale: i64,
    bias: &[Goldilocks],
    rng: &mut XorShift64,
) -> (ok: bool)
    requires
        whir_in.vars() == whir_out.vars(),
        input.fits(*whir_in),
        output.fits(*whir_out),
        bias@.len() == pow2(whir_out.vars()),
        in_plain@.len() >= bias@.len(),
        out_plain@.len() >= bias@.len(),
    ensures
        ({
            let r = draws(old(rng)@, whir_out.vars());
            let holds = round_holds(
                (input.table(), output.table()),
                (ints(in_plain@), ints(out_plain@)),
                scale as int,
                ints(bias@),
                16,
                r,
            );
            &&& ok ==> holds
            &&& ok ==> input.opened_at(*whir_in, r) && output.opened_at(*whir_out, r)
            &&& input.bound(*whir_in) && output.bound(*whir_out) ==> ok == holds
        }),
        final(rng)@ == xorshift_n(old(rng)@, whir_out.vars()),
{
    prove_round(whir_in, input, in_plain, whir_out, output, out_plain, scale, bias, 16, rng)
}

/// Proves `out = round(in / 2^shift) + bias` (the non-ReLU affine/rescale step)
/// with a sub-linear bit-decomposition range check, exactly like
/// [`prove_round`].
pub fn prove_affine(
    whir_in: &Whir,
    input: &Committed,
    in_plain: &[Goldilocks],
    whir_out: &Whir,
    output: &Committed,
    out_plain: &[Goldilocks],
    bias: &[Goldilocks],
    shift: u32,
    rng: &mut XorShift64,
) -> (ok: bool)
    requires
        whir_in.vars() == whir_out.vars(),
        input.fits(*whir_in),
        output.fits(*whir_out),
        bias@.len() == pow2(whir_out.vars()),
        in_plain@.len() >= bias@.len(),
        out_plain@.len() >= bias@.len(),
        1 <= shift <= 62,
    ensures
        ({
            let r = draws(old(rng)@, whir_out.vars());
            let holds = round_holds(
                (input.table(), output.table()),
                (ints(in_plain@), ints(out_plain@)),
                1,
                ints(bias@),
                shift as nat,
                r,
            );
            &&& ok ==> holds
            &&& ok ==> input.opened_at(*whir_in, r) && output.opened_at(*whir_out, r)
            &&& input.bound(*whir_in) && output.bound(*whir_out) ==> ok == holds
        }),
        final(rng)@ == xorshift_n(old(rng)@, whir_out.vars()),
{
    prove_round(whir_in, input, in_plain, whir_out, output, out_plain, 1, bias, shift, rng)
}

/// `a * x + b * y + k` for every entry, read as `i32` values.
pub open spec fn combined(x: Seq<int>, y: Seq<int>, a: int, b: int, k: int) -> Seq<int> {
    Seq::new(x.len(), |i: int| as_i32(residue(a * x[i] + b * y[i] + k)))
}

/// What the sign check of a linear combination checks at `r`: the combination
/// of the committed tensors is given by the low 31 bits of the plain one.
pub open spec fn nonneg_holds(
    tables: (Seq<int>, Seq<int>),
    plain: (Seq<int>, Seq<int>),
    a: int,
    b: int,
    k: int,
    r: Seq<int>,
) -> bool {
    residue(a * mle::mle(tables.0, r) + b * mle::mle(tables.1, r) + k) == residue(
        mle::mle(low_bits(combined(plain.0, plain.1, a, b, k), 31), r),
    )
}

/// `a * x + b * y + k`.
fn combine(
    a: Goldilocks,
    x: Goldilocks,
    b: Goldilocks,
    y: Goldilocks,
    k: Goldilocks,
) -> (r: Goldilocks)
    ensures
        r@ == residue(a@ * x@ + b@ * y@ + k@),
{
    proof {
        lemma_view_canonical(a);
        lemma_view_canonical(x);
        lemma_view_canonical(b);
        lemma_view_canonical(y);
        lemma_fmul(a@, x@);
        lemma_fmul(b@, y@);
        lemma_view_canonical(k);
        lemma_fadd(a@ * x@, b@ * y@);
        lemma_fadd(a@ * x@ + b@ * y@, k@);
    }
    a * x + b * y + k
}

/// Combinations of congruent values are congruent.
proof fn lemma_combine_residue(a: int, x: int, b: int, y: int, k: int, u: int, v: int)
    requires
        residue(x) == residue(u),
        residue(y) == residue(v),
    ensures
        residue(a * x + b * y + k) == residue(a * u + b * v + k),
{
    lemma_residue_mul(a, x);
    lemma_residue_mul(a, u);
    lemma_residue_mul(b, y);
    lemma_residue_mul(b, v);
    lemma_residue_add(a * x, b * y);
    lemma_residue_add(a * u, b * v);
    lemma_residue_add(a * x + b * y, k);
    lemma_residue_add(a * u + b * v, k);
}

/// Proves that `a * x + b * y + k` is non-negative at every hypercube point, where
/// `x` and `y` are committed and the linear combination is known non-negative
/// on the honest execution. The combination is bit-decomposed and range-checked
/// to `[0, 2^31)` with the same single-point reconstruction
/// [`prove_bits_range`] uses.
pub fn prove_linear_nonneg(
    whir: &Whir,
    x: &Committed,
    x_plain: &[Goldilocks],
    y: &Committed,
    y_plain: &[Goldilocks],
    a: Goldilocks,
    b: Goldilocks,
    k: Goldilocks,
    rng: &mut XorShift64,
) -> (ok: bool)
    requires
        x.fits(*whir),
        y.fits(*whir),
        x_plain@.len() == pow2(whir.vars()),
        y_plain@.len() == x_plain@.len(),
    ensures
        ({
            let r = draws(old(rng)@, whir.vars());
            let holds = nonneg_holds(
                (x.table(), y.table()),
                (ints(x_plain@), ints(y_plain@)),
                a@,
                b@,
                k@,
                r,
            );
            &&& ok ==> holds
            &&& ok ==> x.opened_at(*whir, r) && y.opened_at(*whir, r)
            &&& x.bound(*whir) && y.bound(*whir) ==> ok == holds
        }),
        final(rng)@ == xorshift_n(old(rng)@, whir.vars()),
{
    let n: usize = x_plain.len();
    let d: usize = whir.num_variables();
    let ghost (xv, yv) = (ints(x_plain@), ints(y_plain@));
    let ghost lhs = combined(xv, yv, a@, b@, k@);
    let mut values: Vec<i128> = Vec::new();
    for i in 0..n
        invariant
            n == x_plain@.len() == y_plain@.len(),
            xv == ints(x_plain@),
            yv == ints(y_plain@),
            lhs == combined(xv, yv, a@, b@, k@),
            values@.len() == i,
            forall|j: int| 0 <= j < i ==> #[trigger] values@[j] as int == lhs[j],
            forall|j: int| 0 <= j < i ==> -WIDE < #[trigger] values@[j] < WIDE,
    {
        let v = combine(a, x_plain[i], b, y_plain[i], k);
        values.push(to_i32(v) as i128);
    }
    assert(wide(values@) =~= lhs);
    let bits = bit_columns(&values, 31);
    proof {
        assert forall|j: int| 0 <= j < bits@.len() implies (#[trigger] bits@[j])@.len() == n by {
            assert(ints(bits@[j]@).len() == bit_column(lhs, j as nat).len());
        }
    }
    let c_bits = commit_columns(whir, &bits);
    let r = draw_point(rng, d);
    let ghost rv = ints(r@);
    assert(rv.len() == r@.len());
    let s = selector(r.as_slice());
    let (x_r, y_r) = match (
        open_checked(whir, x, r.as_slice()),
        open_checked(whir, y, r.as_slice()),
    ) {
        (Some(x_r), Some(y_r)) => (x_r, y_r),
        _ => {
            return false;
        },
    };
    let value_at_r = combine(a, x_r, b, y_r, k);
    proof {
        broadcast use lemma_residue_residue;

        lemma_combine_residue(
            a@,
            x_r@,
            b@,
            y_r@,
            k@,
            mle::mle(x.table(), rv),
            mle::mle(y.table(), rv),
        );
        lemma_range_decision(*whir, bits@, c_bits@, lhs, value_at_r@, rv);
    }
    prove_bits_range(whir, &bits, &c_bits, value_at_r, r.as_slice(), &s)
}

/// The input rescaled by `2^16`, as an `i32` embedded in the field.
pub open spec fn relu_rescaled(input: Seq<int>) -> Seq<int> {
    Seq::new(
        input.len(),
        |i: int| residue(wrap(round_div(as_i64(input[i]), 0x1_0000), 0x1_0000_0000)),
    )
}

/// The pre-activation: the rescaled input plus the bias.
pub open spec fn relu_pre(input: Seq<int>, bias: Seq<int>) -> Seq<int> {
    Seq::new(input.len(), |i: int| residue(relu_rescaled(input)[i] + bias[i]))
}

/// The absolute value of an integer.
pub open spec fn magnitude(x: int) -> int {
    if x < 0 {
        -x
    } else {
        x
    }
}

/// The magnitudes of the pre-activation.
pub open spec fn relu_magnitudes(input: Seq<int>, bias: Seq<int>) -> Seq<int> {
    Seq::new(input.len(), |i: int| magnitude(as_i32(relu_pre(input, bias)[i])))
}

/// The magnitudes as `i32` values embedded in the field.
pub open spec fn relu_abs(input: Seq<int>, bias: Seq<int>) -> Seq<int> {
    Seq::new(
        input.len(),
        |i: int| residue(wrap(relu_magnitudes(input, bias)[i], 0x1_0000_0000)),
    )
}

/// A table of zeros.
pub open spec fn zero_table(n: nat) -> Seq<int> {
    Seq::new(n, |i: int| 0)
}

/// What the ReLU proof checks first: the rescale at `r1`.
pub open spec fn relu_rounds(table: Seq<int>, input: Seq<int>, n: nat, r1: Seq<int>) -> bool {
    round_holds(
        (table, relu_rescaled(input)),
        (input, relu_rescaled(input)),
        1,
        zero_table(n),
        16,
        r1,
    )
}

/// What the ReLU proof checks: the rescale at `r1`, and at `r` the range of the
/// magnitude, that its square is the square of the pre-activation, and that
/// twice the output is the pre-activation plus the magnitude.
pub open spec fn relu_holds(
    tables: (Seq<int>, Seq<int>),
    input: Seq<int>,
    bias: Seq<int>,
    r1: Seq<int>,
    r: Seq<int>,
) -> bool {
    let pre = relu_pre(input, bias);
    let abs = relu_abs(input, bias);
    &&& relu_rounds(tables.0, input, bias.len(), r1)
    &&& agree(abs, low_bits(relu_magnitudes(input, bias), 31), r)
    &&& agree(hadamard(abs, abs), hadamard(pre, pre), r)
    &&& residue(mle::mle(tables.1, r) * 2) == residue(mle::mle(pre, r) + mle::mle(abs, r))
}

/// Proves `out = ReLU(round(in / 2^16) + bias)` (the ReLU of a gated block) against
/// WHIR commitments, sub-linearly. The round is proven by [`prove_round`], then
/// `pre = rescaled + bias` and `abs = |pre|` are committed, `abs` is range-
/// checked to `[0, 2^31)`, `abs^2 = pre^2` is proven by a degree-3 zero-check
/// (so `abs` is `pre` or `-pre`, hence `|pre|` given the range), and `out = (pre + abs)/2`.
pub fn prove_relu(
    whir_in: &Whir,
    input: &Committed,
    in_plain: &[Goldilocks],
    whir_out: &Whir,
    output: &Committed,
    _out_plain: &[Goldilocks],
    bias: &[Goldilocks],
    rng: &mut XorShift64,
) -> (ok: bool)
    requires
        whir_in.vars() == whir_out.vars(),
        input.fits(*whir_in),
        output.fits(*whir_out),
        bias@.len() == pow2(whir_out.vars()),
        in_plain@.len() == bias@.len(),
    ensures
        ({
            let (s, d) = (old(rng)@, whir_out.vars());
            let (r1, r) = (draws(s, d), draws(xorshift_n(s, d), d));
            let tables = (input.table(), output.table());
            let rounds = relu_rounds(input.table(), ints(in_plain@), bias@.len(), r1);
            let holds = relu_holds(tables, ints(in_plain@), ints(bias@), r1, r);
            &&& ok ==> holds && final(rng)@ == xorshift_n(s, d + d)
            &&& ok ==> input.opened_at(*whir_in, r1) && output.opened_at(*whir_out, r)
            &&& input.bound(*whir_in) && output.bound(*whir_out) ==> ok == holds
            // A refusal comes at the rescale or after it.
            &&& !ok ==> {
                ||| final(rng)@ == xorshift_n(s, d) && (input.bound(*whir_in) ==> !rounds)
                ||| final(rng)@ == xorshift_n(s, d + d) && rounds && input.opened_at(*whir_in, r1)
                    && (output.bound(*whir_out) ==> !holds)
            }
        }),
{
    let n: usize = bias.len();
    let d: usize = whir_out.num_variables();
    let ghost start = rng@;
    let ghost (iv, bv) = (ints(in_plain@), ints(bias@));
    let ghost (resc, pre_t, mags, abs_t) = (
        relu_rescaled(iv),
        relu_pre(iv, bv),
        relu_magnitudes(iv, bv),
        relu_abs(iv, bv),
    );
    proof {
        lemma_xorshift_n_add(start, d as nat, d as nat);
        vstd::arithmetic::power2::lemma2_to64();
    }
    let mut rescaled: Vec<Goldilocks> = Vec::new();
    let mut pre: Vec<Goldilocks> = Vec::new();
    let mut abs_pre: Vec<Goldilocks> = Vec::new();
    let mut values: Vec<i128> = Vec::new();
    let mut zero_bias: Vec<Goldilocks> = Vec::new();
    for i in 0..n
        invariant
            n == bias@.len() == in_plain@.len(),
            iv == ints(in_plain@),
            bv == ints(bias@),
            resc == relu_rescaled(iv),
            pre_t == relu_pre(iv, bv),
            mags == relu_magnitudes(iv, bv),
            abs_t == relu_abs(iv, bv),
            rescaled@.len() == i,
            pre@.len() == i,
            abs_pre@.len() == i,
            values@.len() == i,
            zero_bias@.len() == i,
            forall|k: int| 0 <= k < i ==> (#[trigger] rescaled@[k])@ == resc[k],
            forall|k: int| 0 <= k < i ==> (#[trigger] pre@[k])@ == pre_t[k],
            forall|k: int| 0 <= k < i ==> (#[trigger] abs_pre@[k])@ == abs_t[k],
            forall|k: int| 0 <= k < i ==> #[trigger] values@[k] as int == mags[k],
            forall|k: int| 0 <= k < i ==> -WIDE < #[trigger] values@[k] < WIDE,
            forall|k: int| 0 <= k < i ==> (#[trigger] zero_bias@[k])@ == 0,
    {
        proof {
            lemma_view_canonical(in_plain@[i as int]);
            lemma_view_canonical(bias@[i as int]);
            lemma_residue_small(0);
        }
        let x: i128 = to_i64(in_plain[i]) as i128;
        let q: i128 = div_round(x, 0x1_0000);
        proof {
            super::raw::lemma_quotient_bound(x as int, 0x1_0000);
        }
        let res = from_i32(low_i32(q));
        proof {
            lemma_view_canonical(res);
            lemma_fadd(res@, bias@[i as int]@);
        }
        let p = res + bias[i];
        let v: i128 = to_i32(p) as i128;
        let a: i128 = if v < 0 {
            0 - v
        } else {
            v
        };
        assert(pre_t[i as int] == p@);
        assert(mags[i as int] == a as int);
        rescaled.push(res);
        pre.push(p);
        abs_pre.push(from_i32(low_i32(a)));
        values.push(a);
        zero_bias.push(Goldilocks::zero());
    }
    proof {
        assert(ints(rescaled@) =~= resc);
        assert(ints(pre@) =~= pre_t);
        assert(ints(abs_pre@) =~= abs_t);
        assert(wide(values@) =~= mags);
        assert(ints(zero_bias@) =~= zero_table(bv.len()));
    }
    let bits = bit_columns(&values, 31);
    proof {
        assert forall|j: int| 0 <= j < bits@.len() implies (#[trigger] bits@[j])@.len() == n by {
            assert(ints(bits@[j]@).len() == bit_column(mags, j as nat).len());
        }
    }
    let c_rescaled = commit(whir_out, rescaled.as_slice());
    let c_pre = commit(whir_out, pre.as_slice());
    let c_abs = commit(whir_out, abs_pre.as_slice());
    let c_bits = commit_columns(whir_out, &bits);
    // 1. rescaled = round(in / 2^16).
    if !prove_round(
        whir_in,
        input,
        in_plain,
        whir_out,
        &c_rescaled,
        rescaled.as_slice(),
        1,
        zero_bias.as_slice(),
        16,
        rng,
    ) {
        return false;
    }
    let r = draw_point(rng, d);
    let ghost rv = ints(r@);
    assert(rv.len() == r@.len());
    let s = selector(r.as_slice());
    let (res_r, pre_r, abs_r, out_r) = match (
        open_checked(whir_out, &c_rescaled, r.as_slice()),
        open_checked(whir_out, &c_pre, r.as_slice()),
        open_checked(whir_out, &c_abs, r.as_slice()),
        open_checked(whir_out, output, r.as_slice()),
    ) {
        (Some(res_r), Some(pre_r), Some(abs_r), Some(out_r)) => (res_r, pre_r, abs_r, out_r),
        _ => {
            return false;
        },
    };
    let bias_r = mle::eval(bias, r.as_slice());
    proof {
        let sum = Seq::new(n as nat, |i: int| resc[i] + bv[i]);
        mle::lemma_mle_add(resc, bv, sum, rv);
        broadcast use lemma_residue_residue;

        assert(residues(pre_t) =~= residues(sum));
        lemma_mle_residues(pre_t, sum, rv);
        lemma_fadd(mle::mle(resc, rv), mle::mle(bv, rv));
    }
    // 2. pre = rescaled + bias.
    if pre_r != res_r + bias_r {
        return false;
    }
    proof {
        lemma_range_decision(*whir_out, bits@, c_bits@, mags, abs_r@, rv);
    }
    // 3. abs_pre is in [0, 2^31).
    if !prove_bits_range(whir_out, &bits, &c_bits, abs_r, r.as_slice(), &s) {
        return false;
    }
    // 4. abs^2 = pre^2 (degree-3 zero-check).
    let (c_aa, ok_aa) = weighted_check2(
        &s,
        abs_pre.as_slice(),
        abs_pre.as_slice(),
        abs_r,
        abs_r,
        r.as_slice(),
    );
    let (c_pp, ok_pp) = weighted_check2(
        &s,
        pre.as_slice(),
        pre.as_slice(),
        pre_r,
        pre_r,
        r.as_slice(),
    );
    proof {
        broadcast use lemma_residue_residue;

        let (ma, mp) = (mle::mle(abs_t, rv), mle::mle(pre_t, rv));
        lemma_mul3_residue(eq_self(rv), abs_r@, abs_r@, eq_self(rv), ma, ma);
        lemma_mul3_residue(eq_self(rv), pre_r@, pre_r@, eq_self(rv), mp, mp);
        assert(ok_aa && ok_pp);
        lemma_fadd(mp, ma);
        lemma_fmul(mle::mle(output.table(), rv), 2);
    }
    if !ok_aa || !ok_pp || c_aa != c_pp {
        return false;
    }
    // 5. out = (pre + abs)/2  <=>  2 out = pre + abs.
    out_r * from_i64(2) == pre_r + abs_r
}

/// A field value is congruent to the `i64` it stands for.
pub proof fn lemma_as_i64(v: int)
    ensures
        residue(as_i64(v)) == residue(v),
{
    reveal(residue);
}

/// An `i32` embedded in the field stands for itself.
pub proof fn lemma_as_i32(x: int)
    requires
        i32::MIN <= x <= i32::MAX,
    ensures
        as_i32(residue(x)) == x,
{
    crate::fixed_point::lemma_i32_roundtrip(x as i32);
}

/// The extension of `in * scale - (out - bias) * u + h`.
pub proof fn lemma_mle_affine(
    input: Seq<int>,
    output: Seq<int>,
    bias: Seq<int>,
    t: Seq<int>,
    scale: int,
    u: int,
    h: int,
    r: Seq<int>,
)
    requires
        input.len() == output.len() == bias.len() == t.len() == pow2(r.len()),
        forall|i: int|
            0 <= i < t.len() ==> #[trigger] t[i] == input[i] * scale - (output[i] - bias[i]) * u
                + h,
    ensures
        mle::mle(t, r) == mle::mle(input, r) * scale - (mle::mle(output, r) - mle::mle(bias, r)) * u
            + h,
{
    let n = t.len();
    let a = Seq::new(n, |i: int| scale * input[i]);
    let b = Seq::new(n, |i: int| (-u) * output[i]);
    let c = Seq::new(n, |i: int| u * bias[i]);
    let k = Seq::new(n, |i: int| h);
    let ab = Seq::new(n, |i: int| a[i] + b[i]);
    let abc = Seq::new(n, |i: int| ab[i] + c[i]);
    mle::lemma_mle_scale(input, a, scale, r);
    mle::lemma_mle_scale(output, b, -u, r);
    mle::lemma_mle_scale(bias, c, u, r);
    mle::lemma_mle_of_constant(k, r, h);
    mle::lemma_mle_add(a, b, ab, r);
    mle::lemma_mle_add(ab, c, abc, r);
    assert forall|i: int| 0 <= i < n implies #[trigger] t[i] == abc[i] + k[i] by {
        let (x, y, z) = (input[i], output[i], bias[i]);
        assert(x * scale - (y - z) * u == scale * x + (-u) * y + u * z) by (nonlinear_arith);
    }
    mle::lemma_mle_add(abc, k, t, r);
    let (x, y, z) = (mle::mle(input, r), mle::mle(output, r), mle::mle(bias, r));
    assert(x * scale - (y - z) * u == scale * x + (-u) * y + u * z) by (nonlinear_arith);
}

/// A rescale proof of tensors whose offset remainders are in range is accepted
/// whatever the challenge is.
pub proof fn lemma_round_holds(
    input: Seq<int>,
    output: Seq<int>,
    scale: int,
    bias: Seq<int>,
    shift: nat,
    r: Seq<int>,
)
    requires
        input.len() == output.len() == bias.len() == pow2(r.len()),
        forall|i: int|
            0 <= i < bias.len() ==> 0 <= #[trigger] round_offset(
                input[i],
                output[i],
                scale,
                bias[i],
                shift,
            ) < pow2(shift),
        forall|i: int|
            0 <= i < bias.len() ==> residue(as_i32(#[trigger] output[i])) == residue(output[i]),
        forall|i: int|
            0 <= i < bias.len() ==> residue(as_i32(#[trigger] bias[i])) == residue(bias[i]),
    ensures
        round_holds((input, output), (input, output), scale, bias, shift, r),
{
    let (u, h) = (pow2(shift) as int, pow2((shift - 1) as nat) as int);
    let offsets = round_offsets(input, output, scale, bias, shift);
    let t = Seq::new(
        bias.len(),
        |i: int| input[i] * scale - (output[i] - bias[i]) * u + h,
    );
    lemma_mle_affine(input, output, bias, t, scale, u, h, r);
    let low = low_bits(offsets, shift);
    assert forall|i: int| 0 <= i < t.len() implies residue(#[trigger] low[i]) == residue(t[i]) by {
        let (x, y, z) = (input[i], output[i], bias[i]);
        let (a, b, c) = (as_i64(x), as_i32(y), as_i32(z));
        let off = round_offset(x, y, scale, z, shift);
        assert(0 <= off < pow2(shift));
        vstd::arithmetic::div_mod::lemma_small_mod(off as nat, pow2(shift));
        assert(low[i] == off);
        lemma_as_i64(x);
        assert(residue(as_i32(output[i])) == residue(output[i]));
        assert(residue(as_i32(bias[i])) == residue(bias[i]));
        lemma_residue_mul(a, scale);
        lemma_residue_mul(x, scale);
        lemma_residue_sub(b, c);
        lemma_residue_sub(y, z);
        lemma_residue_mul(b - c, u);
        lemma_residue_mul(y - z, u);
        lemma_residue_sub(a * scale, (b - c) * u);
        lemma_residue_sub(x * scale, (y - z) * u);
        lemma_residue_add(a * scale - (b - c) * u, h);
        lemma_residue_add(x * scale - (y - z) * u, h);
    }
    assert(residues(low) =~= residues(t));
    lemma_mle_residues(low, t, r);
}

/// The output of a rescale that stays inside `i32` has an offset remainder in
/// range.
pub proof fn lemma_rescaled_in_range(v: int, scale: int, shift: nat, bias: int)
    requires
        shift >= 1,
        i32::MIN <= round_div(as_i64(v) * scale, pow2(shift) as int) + as_i32(bias) <= i32::MAX,
    ensures
        ({
            let out = residue(rescaled(v, scale, shift, bias, false));
            &&& 0 <= round_offset(v, out, scale, bias, shift) < pow2(shift)
            &&& residue(as_i32(out)) == residue(out)
        }),
{
    broadcast use lemma_residue_residue;

    let b = pow2(shift) as int;
    lemma_pow2_pos(shift);
    lemma_pow2_unfold(shift);
    let a = as_i64(v) * scale;
    let q = round_div(a, b);
    let y = q + as_i32(bias);
    assert(wrap(y, 0x1_0000_0000) == y);
    lemma_as_i32(y);
    crate::integers::lemma_round_remainder(a, b);
    assert((y - as_i32(bias)) * b == q * b);
}

/// A rescale that stays inside `i32` is accepted whatever the challenge is:
/// what [`super::raw::scale_raw`] and [`super::raw::affine_raw`] compute
/// verifies.
pub proof fn lemma_rescale_holds(
    input: Seq<int>,
    output: Seq<int>,
    scale: int,
    bias: Seq<int>,
    shift: nat,
    r: Seq<int>,
)
    requires
        input.len() == output.len() == bias.len() == pow2(r.len()),
        shift >= 1,
        forall|i: int|
            0 <= i < bias.len() ==> #[trigger] output[i] == residue(
                rescaled(input[i], scale, shift, bias[i], false),
            ),
        forall|i: int|
            0 <= i < bias.len() ==> i32::MIN <= round_div(
                as_i64(#[trigger] input[i]) * scale,
                pow2(shift) as int,
            ) + as_i32(bias[i]) <= i32::MAX,
        forall|i: int|
            0 <= i < bias.len() ==> residue(as_i32(#[trigger] bias[i])) == residue(bias[i]),
    ensures
        round_holds((input, output), (input, output), scale, bias, shift, r),
{
    assert forall|i: int| 0 <= i < bias.len() implies 0 <= #[trigger] round_offset(
        input[i],
        output[i],
        scale,
        bias[i],
        shift,
    ) < pow2(shift) by {
        assert(output[i] == residue(rescaled(input[i], scale, shift, bias[i], false)));
        lemma_rescaled_in_range(input[i], scale, shift, bias[i]);
    }
    assert forall|i: int| 0 <= i < bias.len() implies residue(as_i32(#[trigger] output[i]))
        == residue(output[i]) by {
        assert(output[i] == residue(rescaled(input[i], scale, shift, bias[i], false)));
        lemma_rescaled_in_range(input[i], scale, shift, bias[i]);
    }
    lemma_round_holds(input, output, scale, bias, shift, r);
}

/// A combination that is in `[0, 2^31)` everywhere is accepted whatever the
/// challenge is.
pub proof fn lemma_nonneg_holds(x: Seq<int>, y: Seq<int>, a: int, b: int, k: int, r: Seq<int>)
    requires
        x.len() == y.len() == pow2(r.len()),
        forall|i: int| 0 <= i < x.len() ==> residue(a * #[trigger] x[i] + b * y[i] + k) <= i32::MAX,
    ensures
        nonneg_holds((x, y), (x, y), a, b, k, r),
{
    let n = x.len();
    let lhs = combined(x, y, a, b, k);
    let low = low_bits(lhs, 31);
    let ax = Seq::new(n, |i: int| a * x[i]);
    let by = Seq::new(n, |i: int| b * y[i]);
    let both = Seq::new(n, |i: int| ax[i] + by[i]);
    let shift = Seq::new(n, |i: int| k);
    let t = Seq::new(n, |i: int| both[i] + shift[i]);
    mle::lemma_mle_scale(x, ax, a, r);
    mle::lemma_mle_scale(y, by, b, r);
    mle::lemma_mle_add(ax, by, both, r);
    mle::lemma_mle_of_constant(shift, r, k);
    mle::lemma_mle_add(both, shift, t, r);
    assert(pow2(31) == 0x8000_0000) by {
        vstd::arithmetic::power2::lemma2_to64();
    }
    assert forall|i: int| 0 <= i < n implies residue(#[trigger] low[i]) == residue(t[i]) by {
        broadcast use lemma_residue_residue, crate::field::lemma_residue_range;

        let v = residue(a * x[i] + b * y[i] + k);
        assert(0 <= v <= i32::MAX);
        assert(lhs[i] == v);
    }
    assert(residues(low) =~= residues(t));
    lemma_mle_residues(low, t, r);
}

/// The ReLU of the rescaled input plus bias, where nothing leaves `i32`, is
/// accepted whatever the challenges are.
pub proof fn lemma_relu_holds(
    input: Seq<int>,
    output: Seq<int>,
    bias: Seq<int>,
    r1: Seq<int>,
    r: Seq<int>,
)
    requires
        input.len() == output.len() == bias.len() == pow2(r.len()) == pow2(r1.len()),
        forall|i: int|
            0 <= i < bias.len() ==> i32::MIN <= round_div(as_i64(#[trigger] input[i]), 0x1_0000)
                <= i32::MAX,
        forall|i: int|
            0 <= i < bias.len() ==> i32::MIN < round_div(as_i64(#[trigger] input[i]), 0x1_0000)
                + as_i32(bias[i]) <= i32::MAX,
        forall|i: int|
            0 <= i < bias.len() ==> residue(as_i32(#[trigger] bias[i])) == residue(bias[i]),
        forall|i: int|
            0 <= i < bias.len() ==> #[trigger] output[i] == residue(
                rescaled(input[i], 1, 16, bias[i], true),
            ),
    ensures
        relu_holds((input, output), input, bias, r1, r),
{
    broadcast use lemma_residue_residue;

    vstd::arithmetic::power2::lemma2_to64();
    assert(pow2(16) == 0x1_0000);
    let n = bias.len();
    let zeros = zero_table(n);
    let resc = relu_rescaled(input);
    let pre = relu_pre(input, bias);
    let mags = relu_magnitudes(input, bias);
    let abs = relu_abs(input, bias);
    lemma_residue_small(0);
    lemma_as_i32(0);
    assert forall|i: int| 0 <= i < n implies #[trigger] resc[i] == residue(
        rescaled(input[i], 1, 16, zeros[i], false),
    ) by {
        assert(as_i64(input[i]) * 1 == as_i64(input[i]));
    }
    assert forall|i: int| 0 <= i < n implies i32::MIN <= round_div(
        as_i64(#[trigger] input[i]) * 1,
        pow2(16) as int,
    ) + as_i32(zeros[i]) <= i32::MAX by {
        assert(as_i64(input[i]) * 1 == as_i64(input[i]));
    }
    lemma_rescale_holds(input, resc, 1, zeros, 16, r1);
    // Entry by entry, with everything inside i32.
    assert forall|i: int| 0 <= i < n implies ({
        let y = round_div(as_i64(#[trigger] input[i]), 0x1_0000) + as_i32(bias[i]);
        &&& pre[i] == residue(y)
        &&& mags[i] == magnitude(y)
        &&& abs[i] == magnitude(y)
        &&& residue(output[i] * 2) == residue(pre[i] + abs[i])
        &&& residue(abs[i] * abs[i]) == residue(pre[i] * pre[i])
    }) by {
        let q = round_div(as_i64(input[i]), 0x1_0000);
        let b = as_i32(bias[i]);
        let y = q + b;
        assert(wrap(q, 0x1_0000_0000) == q);
        assert(residue(as_i32(bias[i])) == residue(bias[i]));
        lemma_residue_add(q, bias[i]);
        lemma_residue_add(q, b);
        lemma_residue_add(residue(q), bias[i]);
        assert(pre[i] == residue(y));
        lemma_as_i32(y);
        let m = magnitude(y);
        assert(wrap(m, 0x1_0000_0000) == m);
        lemma_residue_small(m);
        assert(abs[i] == m);
        let o = if y < 0 { 0 } else { y };
        assert(as_i64(input[i]) * 1 == as_i64(input[i]));
        assert(wrap(o, 0x1_0000_0000) == o);
        assert(output[i] == residue(o));
        lemma_residue_mul(o, 2);
        lemma_residue_mul(residue(o), 2);
        lemma_residue_add(y, m);
        lemma_residue_add(residue(y), m);
        assert(o * 2 == y + m);
        lemma_residue_mul(y, y);
        lemma_residue_mul(residue(y), residue(y));
        assert(m * m == y * y) by (nonlinear_arith)
            requires
                m == y || m == -y,
        ;
    }
    let low = low_bits(mags, 31);
    assert(pow2(31) == 0x8000_0000);
    assert(residues(abs) =~= residues(low)) by {
        assert forall|i: int| 0 <= i < n implies residue(#[trigger] abs[i]) == residue(low[i]) by {
            assert(as_i64(input[i]) == as_i64(input[i]));
            assert(abs[i] == mags[i]);
        }
    }
    lemma_mle_residues(abs, low, r);
    assert(residues(hadamard(abs, abs)) =~= residues(hadamard(pre, pre))) by {
        assert forall|i: int| 0 <= i < n implies residue(#[trigger] hadamard(abs, abs)[i])
            == residue(hadamard(pre, pre)[i]) by {
            assert(as_i64(input[i]) == as_i64(input[i]));
        }
    }
    lemma_mle_residues(hadamard(abs, abs), hadamard(pre, pre), r);
    let twice = Seq::new(n, |i: int| 2 * output[i]);
    let sum = Seq::new(n, |i: int| pre[i] + abs[i]);
    mle::lemma_mle_scale(output, twice, 2, r);
    mle::lemma_mle_add(pre, abs, sum, r);
    assert(residues(twice) =~= residues(sum)) by {
        assert forall|i: int| 0 <= i < n implies residue(#[trigger] twice[i]) == residue(sum[i]) by {
            assert(as_i64(input[i]) == as_i64(input[i]));
        }
    }
    lemma_mle_residues(twice, sum, r);
}

} // verus!
