//! Multilinear-extension evaluation over the Goldilocks field.
//!
//! Conventions: variable `0` is the least-significant bit of the flattened
//! index; `partial_eval` fixes the *first* `fix.len()` variables.

use crate::field::{
    fsub, group_residue, ints, lemma_residue_add, lemma_residue_mul, lemma_residue_sub, residue,
    residues, Goldilocks,
};
use crate::sums::{lemma_sigma_eq, lemma_sigma_pairs, sigma};
use vstd::arithmetic::power2::{lemma_pow2_pos, lemma_pow2_unfold, pow2};
use vstd::prelude::*;

verus! {

/// `eq(i, r)`: the product over the coordinates of `r_j` where bit `j` of `i`
/// is set and of `1 - r_j` where it is not.
pub open spec fn eq_weight(i: int, r: Seq<int>) -> int
    decreases r.len(),
{
    if r.len() == 0 {
        1
    } else {
        (if i % 2 == 1 { r[0] } else { 1 - r[0] }) * eq_weight(i / 2, r.drop_first())
    }
}

/// The multilinear extension of the table `v` at `r`: the sum over the
/// hypercube of `v[i] * eq(i, r)`.
pub open spec fn mle(v: Seq<int>, r: Seq<int>) -> int {
    sigma(pow2(r.len()), |i: int| v[i] * eq_weight(i, r))
}

/// The table over the remaining variables once variable `0` is fixed to `x`.
pub open spec fn fix_first(v: Seq<int>, x: int) -> Seq<int> {
    Seq::new(v.len() / 2, |i: int| v[2 * i] + x * (v[2 * i + 1] - v[2 * i]))
}

/// The table over the remaining variables once the first `r.len()` variables
/// are fixed to `r`.
pub open spec fn fix_all(v: Seq<int>, r: Seq<int>) -> Seq<int>
    decreases r.len(),
{
    if r.len() == 0 {
        v
    } else {
        fix_first(fix_all(v, r.drop_last()), r.last())
    }
}

/// Fixing one variable leaves the extension at the other coordinates.
pub proof fn lemma_mle_fix_first(v: Seq<int>, r: Seq<int>)
    requires
        r.len() > 0,
        v.len() == pow2(r.len()),
    ensures
        mle(v, r) == mle(fix_first(v, r[0]), r.drop_first()),
        fix_first(v, r[0]).len() == pow2((r.len() - 1) as nat),
{
    let t = r.drop_first();
    let n = pow2(t.len());
    lemma_pow2_unfold(r.len());
    assert(pow2(r.len()) == 2 * n);
    let f = |i: int| v[i] * eq_weight(i, r);
    let w = fix_first(v, r[0]);
    lemma_sigma_pairs(n, f);
    let pairs = |i: int| f(2 * i) + f(2 * i + 1);
    let g = |i: int| w[i] * eq_weight(i, t);
    assert forall|i: int| 0 <= i < n implies #[trigger] pairs(i) == g(i) by {
        let e = eq_weight(i, t);
        assert((2 * i) / 2 == i && (2 * i + 1) / 2 == i);
        assert(eq_weight(2 * i, r) == (1 - r[0]) * e);
        assert(eq_weight(2 * i + 1, r) == r[0] * e);
        let (a, b, x) = (v[2 * i], v[2 * i + 1], r[0]);
        assert(a * ((1 - x) * e) + b * (x * e) == (a + x * (b - a)) * e) by (nonlinear_arith);
    }
    lemma_sigma_eq(n, pairs, g);
}

/// The extension in no variables is the only entry.
pub proof fn lemma_mle_constant(v: Seq<int>, r: Seq<int>)
    requires
        r.len() == 0,
        v.len() == 1,
    ensures
        mle(v, r) == v[0],
{
    vstd::arithmetic::power2::lemma2_to64();
    let f = |i: int| v[i] * eq_weight(i, r);
    assert(sigma(1, f) == sigma(0, f) + f(0));
    assert(eq_weight(0, r) == 1);
}

/// Fixing the variables one at a time from the front.
pub proof fn lemma_fix_all_front(v: Seq<int>, r: Seq<int>)
    requires
        r.len() > 0,
    ensures
        fix_all(v, r) == fix_all(fix_first(v, r[0]), r.drop_first()),
    decreases r.len(),
{
    if r.len() == 1 {
        assert(r.drop_last() =~= Seq::<int>::empty());
        assert(r.drop_first() =~= Seq::<int>::empty());
        assert(r.last() == r[0]);
        assert(fix_all(v, r.drop_last()) == v);
    } else {
        lemma_fix_all_front(v, r.drop_last());
        assert(r.drop_last().drop_first() =~= r.drop_first().drop_last());
        assert(r.drop_last()[0] == r[0]);
        assert(r.drop_first().last() == r.last());
    }
}

/// Every fixed variable halves the table.
pub proof fn lemma_fix_all_len(v: Seq<int>, r: Seq<int>, m: nat)
    requires
        v.len() == m * pow2(r.len()),
    ensures
        fix_all(v, r).len() == m,
    decreases r.len(),
{
    if r.len() > 0 {
        lemma_pow2_unfold(r.len());
        assert(m * (2 * pow2((r.len() - 1) as nat)) == (2 * m) * pow2((r.len() - 1) as nat))
            by (nonlinear_arith);
        lemma_fix_all_len(v, r.drop_last(), 2 * m);
    } else {
        vstd::arithmetic::power2::lemma2_to64();
        assert(m * pow2(0) == m) by (nonlinear_arith)
            requires
                pow2(0) == 1,
        ;
    }
}

/// Fixing a prefix of the variables and then evaluating at the rest is
/// evaluating at the whole point.
pub proof fn lemma_partial_then_full(v: Seq<int>, r: Seq<int>, s: Seq<int>)
    requires
        v.len() == pow2(r.len() + s.len()),
    ensures
        mle(fix_all(v, r), s) == mle(v, r + s),
        fix_all(v, r).len() == pow2(s.len()),
    decreases r.len(),
{
    if r.len() == 0 {
        assert(r + s =~= s);
    } else {
        lemma_fix_all_front(v, r);
        lemma_mle_fix_first(v, r + s);
        assert((r + s).drop_first() =~= r.drop_first() + s);
        lemma_partial_then_full(fix_first(v, r[0]), r.drop_first(), s);
    }
}

/// Fixing every variable leaves the value of the extension.
pub proof fn lemma_fix_all_is_mle(v: Seq<int>, r: Seq<int>)
    requires
        v.len() == pow2(r.len()),
    ensures
        fix_all(v, r).len() == 1,
        fix_all(v, r)[0] == mle(v, r),
{
    let none = Seq::<int>::empty();
    lemma_partial_then_full(v, r, none);
    vstd::arithmetic::power2::lemma2_to64();
    lemma_mle_constant(fix_all(v, r), none);
    assert(r + none =~= r);
}

/// Congruent tables stay congruent when a variable is fixed.
pub proof fn lemma_fix_first_residues(u: Seq<int>, v: Seq<int>, x: int)
    requires
        residues(u) == residues(v),
    ensures
        residues(fix_first(u, x)) == residues(fix_first(v, x)),
{
    assert(u.len() == v.len()) by {
        assert(residues(u).len() == u.len());
        assert(residues(v).len() == v.len());
    }
    assert forall|i: int| 0 <= i < u.len() / 2 implies residue(fix_first(u, x)[i]) == residue(
        fix_first(v, x)[i],
    ) by {
        broadcast use group_residue;

        let (a, b, c, d) = (u[2 * i], u[2 * i + 1], v[2 * i], v[2 * i + 1]);
        assert(residues(u)[2 * i] == residue(a) && residues(v)[2 * i] == residue(c));
        assert(residues(u)[2 * i + 1] == residue(b) && residues(v)[2 * i + 1] == residue(d));
        lemma_residue_sub(b, a);
        lemma_residue_sub(d, c);
        lemma_residue_mul(x, b - a);
        lemma_residue_mul(x, d - c);
        lemma_residue_add(a, x * (b - a));
        lemma_residue_add(c, x * (d - c));
    }
    assert(residues(fix_first(u, x)) =~= residues(fix_first(v, x)));
}

/// Congruent tables stay congruent when several variables are fixed.
pub proof fn lemma_fix_all_residues(u: Seq<int>, v: Seq<int>, r: Seq<int>)
    requires
        residues(u) == residues(v),
    ensures
        residues(fix_all(u, r)) == residues(fix_all(v, r)),
    decreases r.len(),
{
    if r.len() > 0 {
        lemma_fix_all_residues(u, v, r.drop_last());
        lemma_fix_first_residues(fix_all(u, r.drop_last()), fix_all(v, r.drop_last()), r.last());
    }
}

/// Congruent tables have congruent extensions.
pub proof fn lemma_mle_residues(u: Seq<int>, v: Seq<int>, r: Seq<int>)
    requires
        residues(u) == residues(v),
        u.len() == pow2(r.len()),
    ensures
        residue(mle(u, r)) == residue(mle(v, r)),
{
    assert(u.len() == v.len()) by {
        assert(residues(u).len() == u.len());
        assert(residues(v).len() == v.len());
    }
    lemma_fix_all_is_mle(u, r);
    lemma_fix_all_is_mle(v, r);
    lemma_fix_all_residues(u, v, r);
    assert(residues(fix_all(u, r))[0] == residues(fix_all(v, r))[0]);
}

/// Fixes variable `0` of the table in `buf` to `p`.
pub fn fold(buf: &mut Vec<Goldilocks>, p: Goldilocks)
    ensures
        ints(final(buf)@) == residues(fix_first(ints(old(buf)@), p@)),
{
    let len: usize = buf.len();
    let half: usize = len / 2;
    let ghost start = buf@;
    for i in 0..half
        invariant
            buf@.len() == len,
            start.len() == len,
            half == len / 2,
            forall|j: int|
                0 <= j < i ==> #[trigger] buf@[j]@ == residue(fix_first(ints(start), p@)[j]),
            forall|j: int| 2 * i <= j < len ==> #[trigger] buf@[j] == start[j],
    {
        broadcast use group_residue;

        let a = buf[2 * i];
        let b = buf[2 * i + 1];
        let c = a + p * (b - a);
        assert(a@ == ints(start)[2 * i as int] && b@ == ints(start)[2 * i + 1]);
        buf.set(i, c);
    }
    buf.truncate(half);
    assert(ints(buf@) =~= residues(fix_first(ints(start), p@)));
}

/// Evaluates the multilinear extension of `values` at `point`.
pub fn eval(values: &[Goldilocks], point: &[Goldilocks]) -> (r: Goldilocks)
    requires
        values@.len() == pow2(point@.len()),
    ensures
        r@ == residue(mle(ints(values@), ints(point@))),
{
    proof {
        lemma_pow2_pos(point@.len());
        vstd::arithmetic::div_mod::lemma_mod_self_0(pow2(point@.len()) as int);
    }
    let buf = partial_eval(values, point);
    proof {
        lemma_fix_all_is_mle(ints(values@), ints(point@));
        assert(residues(fix_all(ints(values@), ints(point@))).len() == 1);
        assert(ints(buf@).len() == buf@.len());
        assert(ints(buf@)[0] == residues(fix_all(ints(values@), ints(point@)))[0]);
    }
    buf[0]
}

/// Fixes the first `fix.len()` variables of `values`.
pub fn partial_eval(values: &[Goldilocks], fix: &[Goldilocks]) -> (r: Vec<Goldilocks>)
    requires
        values@.len() as int % pow2(fix@.len()) as int == 0,
    ensures
        ints(r@) == residues(fix_all(ints(values@), ints(fix@))),
        r@.len() * pow2(fix@.len()) == values@.len(),
{
    let mut buf: Vec<Goldilocks> = vstd::slice::slice_to_vec(values);
    let ghost v = ints(values@);
    proof {
        broadcast use group_residue;
        assert(ints(fix@).take(0) =~= Seq::<int>::empty());
        assert(ints(buf@) =~= residues(v));
    }
    for k in 0..fix.len()
        invariant
            v == ints(values@),
            ints(buf@) == residues(fix_all(v, ints(fix@).take(k as int))),
    {
        let ghost before = ints(buf@);
        let ghost t = ints(fix@).take(k as int);
        let ghost t1 = ints(fix@).take(k + 1);
        fold(&mut buf, fix[k]);
        proof {
            assert(t1.drop_last() =~= t);
            assert(t1.last() == fix@[k as int]@);
            broadcast use group_residue;
            assert(residues(before) =~= residues(fix_all(v, t)));
            lemma_fix_first_residues(before, fix_all(v, t), fix@[k as int]@);
        }
    }
    proof {
        assert(ints(fix@).take(fix@.len() as int) =~= ints(fix@));
        let m = values@.len() as int / pow2(fix@.len()) as int;
        lemma_pow2_pos(fix@.len());
        vstd::arithmetic::div_mod::lemma_fundamental_div_mod(
            values@.len() as int,
            pow2(fix@.len()) as int,
        );
        assert(m >= 0) by {
            vstd::arithmetic::div_mod::lemma_div_pos_is_pos(
                values@.len() as int,
                pow2(fix@.len()) as int,
            );
        }
        assert(pow2(fix@.len()) * m == m * pow2(fix@.len())) by (nonlinear_arith);
        lemma_fix_all_len(v, ints(fix@), m as nat);
        assert(ints(buf@).len() == m);
    }
    buf
}

/// Appending a coordinate multiplies the weight by the factor of the next bit.
pub proof fn lemma_eq_weight_push(i: int, r: Seq<int>, x: int)
    requires
        i >= 0,
    ensures
        eq_weight(i, r.push(x)) == eq_weight(i, r) * (if (i / pow2(r.len()) as int) % 2 == 1 {
            x
        } else {
            1 - x
        }),
    decreases r.len(),
{
    let s = r.push(x);
    if r.len() == 0 {
        vstd::arithmetic::power2::lemma2_to64();
        assert(s.drop_first() =~= Seq::<int>::empty());
        assert(eq_weight(i / 2, s.drop_first()) == 1);
        assert(i / 1 == i);
    } else {
        let t = r.drop_first();
        assert(s.drop_first() =~= t.push(x));
        lemma_eq_weight_push(i / 2, t, x);
        lemma_pow2_unfold(r.len());
        lemma_pow2_pos(t.len());
        vstd::arithmetic::div_mod::lemma_div_denominator(i, 2, pow2(t.len()) as int);
        let a = if i % 2 == 1 { r[0] } else { 1 - r[0] };
        let b = if (i / pow2(r.len()) as int) % 2 == 1 { x } else { 1 - x };
        assert(a * (eq_weight(i / 2, t) * b) == (a * eq_weight(i / 2, t)) * b) by (nonlinear_arith);
    }
}

/// `2^d` as a machine number.
pub fn pow2_usize(d: usize) -> (n: usize)
    requires
        pow2(d as nat) <= usize::MAX,
    ensures
        n == pow2(d as nat),
{
    let mut n: usize = 1;
    proof {
        vstd::arithmetic::power2::lemma2_to64();
    }
    for j in 0..d
        invariant
            n == pow2(j as nat),
            pow2(d as nat) <= usize::MAX,
    {
        proof {
            lemma_pow2_unfold((j + 1) as nat);
            if j + 1 < d {
                vstd::arithmetic::power2::lemma_pow2_strictly_increases((j + 1) as nat, d as nat);
            }
        }
        n = 2 * n;
    }
    n
}

/// Evaluates the equality (Lagrange-basis) polynomial `eq(x, r)` at every
/// hypercube point `x = i` for a fixed `r`.
pub fn eq_evals(r: &[Goldilocks]) -> (eq: Vec<Goldilocks>)
    requires
        pow2(r@.len()) <= usize::MAX,
    ensures
        eq@.len() == pow2(r@.len()),
        forall|i: int|
            0 <= i < eq@.len() ==> #[trigger] eq@[i]@ == residue(eq_weight(i, ints(r@))),
{
    let d: usize = r.len();
    let n: usize = pow2_usize(d);
    let mut eq: Vec<Goldilocks> = Vec::new();
    let mut scale: usize = 1;
    for i in 0..n
        invariant
            eq@.len() == i,
            forall|k: int| 0 <= k < i ==> #[trigger] eq@[k]@ == residue(1),
    {
        eq.push(Goldilocks::one());
    }
    assert(ints(r@).take(0) =~= Seq::<int>::empty());
    proof {
        vstd::arithmetic::power2::lemma2_to64();
    }
    for j in 0..d
        invariant
            eq@.len() == n,
            d == r@.len(),
            n == pow2(d as nat),
            pow2(d as nat) <= usize::MAX,
            scale == pow2(j as nat),
            forall|i: int|
                0 <= i < n ==> #[trigger] eq@[i]@ == residue(
                    eq_weight(i, ints(r@).take(j as int)),
                ),
    {
        let ghost t = ints(r@).take(j as int);
        let ghost x = r@[j as int]@;
        assert(ints(r@).take(j + 1) =~= t.push(x));
        let one_minus = Goldilocks::one() - r[j];
        proof {
            lemma_pow2_pos(j as nat);
            lemma_pow2_unfold((j + 1) as nat);
            if j + 1 < d {
                vstd::arithmetic::power2::lemma_pow2_strictly_increases((j + 1) as nat, d as nat);
            }
        }
        for i in 0..n
            invariant
                eq@.len() == n,
                j < d == r@.len(),
                t.len() == j,
                x == r@[j as int]@,
                scale == pow2(j as nat) > 0,
                one_minus@ == fsub(residue(1), x),
                forall|k: int|
                    0 <= k < i ==> #[trigger] eq@[k]@ == residue(eq_weight(k, t.push(x))),
                forall|k: int| i <= k < n ==> #[trigger] eq@[k]@ == residue(eq_weight(k, t)),
        {
            broadcast use group_residue;

            let factor = if (i / scale) % 2 == 1 {
                r[j]
            } else {
                one_minus
            };
            proof {
                lemma_eq_weight_push(i as int, t, x);
                let ghost g = r@[j as int];
                assert(residue(g@) == g@);
                assert(one_minus@ == residue(1 - x));
            }
            let e = eq[i] * factor;
            eq.set(i, e);
        }
        scale = 2 * scale;
    }
    assert(ints(r@).take(d as int) =~= ints(r@));
    eq
}

/// The weights of a point add up to one.
pub proof fn lemma_eq_weights_sum(r: Seq<int>)
    ensures
        sigma(pow2(r.len()), |i: int| eq_weight(i, r)) == 1,
{
    let v = Seq::new(pow2(r.len()), |i: int| 1int);
    let f = |i: int| v[i] * eq_weight(i, r);
    lemma_sigma_eq(pow2(r.len()), |i: int| eq_weight(i, r), f);
    lemma_mle_of_constant(v, r, 1);
}

/// The extension of a constant table is that constant.
pub proof fn lemma_mle_of_constant(v: Seq<int>, r: Seq<int>, c: int)
    requires
        v.len() == pow2(r.len()),
        forall|i: int| 0 <= i < v.len() ==> v[i] == c,
    ensures
        mle(v, r) == c,
    decreases r.len(),
{
    if r.len() == 0 {
        vstd::arithmetic::power2::lemma2_to64();
        lemma_mle_constant(v, r);
    } else {
        lemma_pow2_unfold(r.len());
        lemma_mle_fix_first(v, r);
        let w = fix_first(v, r[0]);
        assert forall|i: int| 0 <= i < w.len() implies w[i] == c by {
            assert(c + r[0] * (c - c) == c) by (nonlinear_arith);
        }
        lemma_mle_of_constant(w, r.drop_first(), c);
    }
}

/// At a corner of the hypercube the extension is the table's entry.
pub proof fn lemma_mle_at_corner(v: Seq<int>, r: Seq<int>, i: int)
    requires
        v.len() == pow2(r.len()),
        0 <= i < v.len(),
        forall|j: int|
            0 <= j < r.len() ==> #[trigger] r[j] == (i / pow2(j as nat) as int) % 2,
    ensures
        mle(v, r) == v[i],
    decreases r.len(),
{
    if r.len() == 0 {
        vstd::arithmetic::power2::lemma2_to64();
        lemma_mle_constant(v, r);
    } else {
        vstd::arithmetic::power2::lemma2_to64();
        lemma_pow2_unfold(r.len());
        lemma_mle_fix_first(v, r);
        let t = r.drop_first();
        assert(r[0] == (i / 1) % 2);
        assert forall|j: int| 0 <= j < t.len() implies #[trigger] t[j] == ((i / 2) / pow2(
            j as nat,
        ) as int) % 2 by {
            assert(t[j] == r[j + 1]);
            lemma_pow2_unfold((j + 1) as nat);
            lemma_pow2_pos(j as nat);
            vstd::arithmetic::div_mod::lemma_div_denominator(i, 2, pow2(j as nat) as int);
        }
        let w = fix_first(v, r[0]);
        lemma_mle_at_corner(w, t, i / 2);
        let h = i / 2;
        if r[0] == 0 {
            assert(i == 2 * h);
            assert(0 * (v[2 * h + 1] - v[2 * h]) == 0);
        } else {
            assert(i == 2 * h + 1);
            assert(1 * (v[2 * h + 1] - v[2 * h]) == v[2 * h + 1] - v[2 * h]);
        }
    }
}

/// Entries `w * n` to `(w + 1) * n` of a table.
pub open spec fn row(v: Seq<int>, w: int, n: nat) -> Seq<int> {
    Seq::new(n, |i: int| v[w * n + i])
}

/// Fixing the low variables turns every row into its own extension.
pub proof fn lemma_fix_all_rows(v: Seq<int>, r: Seq<int>, m: nat, w: int)
    requires
        v.len() == m * pow2(r.len()),
        0 <= w < m,
    ensures
        fix_all(v, r).len() == m,
        fix_all(v, r)[w] == mle(row(v, w, pow2(r.len())), r),
    decreases r.len(),
{
    lemma_fix_all_len(v, r, m);
    let n = pow2(r.len());
    let rw = row(v, w, n);
    if r.len() == 0 {
        vstd::arithmetic::power2::lemma2_to64();
        assert(w * 1 + 0 == w);
        assert(n == 1);
        lemma_mle_constant(rw, r);
    } else {
        let t = r.drop_first();
        let h = pow2(t.len());
        let x = r[0];
        lemma_pow2_unfold(r.len());
        lemma_fix_all_front(v, r);
        let v1 = fix_first(v, x);
        assert(v1.len() == m * h) by (nonlinear_arith)
            requires
                v1.len() == v.len() / 2,
                v.len() == m * n,
                n == 2 * h,
        ;
        lemma_fix_all_rows(v1, t, m, w);
        lemma_mle_fix_first(rw, r);
        assert(row(v1, w, h) =~= fix_first(rw, x)) by {
            assert forall|i: int| 0 <= i < h implies row(v1, w, h)[i] == fix_first(rw, x)[i] by {
                assert(2 * (w * h + i) == w * n + 2 * i) by (nonlinear_arith)
                    requires
                        n == 2 * h,
                ;
                assert(0 <= w * h + i < m * h) by (nonlinear_arith)
                    requires
                        0 <= w < m,
                        0 <= i < h,
                ;
            }
        }
    }
}

/// Scaling a table scales its extension.
pub proof fn lemma_mle_scale(v: Seq<int>, w: Seq<int>, c: int, r: Seq<int>)
    requires
        v.len() == pow2(r.len()),
        w.len() == v.len(),
        forall|i: int| 0 <= i < v.len() ==> #[trigger] w[i] == c * v[i],
    ensures
        mle(w, r) == c * mle(v, r),
{
    let n = pow2(r.len());
    let f = |i: int| v[i] * eq_weight(i, r);
    let g = |i: int| w[i] * eq_weight(i, r);
    let cf = |i: int| c * f(i);
    assert forall|i: int| 0 <= i < n implies #[trigger] g(i) == cf(i) by {
        let e = eq_weight(i, r);
        assert(w[i] == c * v[i]);
        assert((c * v[i]) * e == c * (v[i] * e)) by (nonlinear_arith);
    }
    lemma_sigma_eq(n, g, cf);
    crate::sums::lemma_sigma_scale(n, c, f);
}

/// The extension of a sum of two tables is the sum of the extensions.
pub proof fn lemma_mle_add(v: Seq<int>, w: Seq<int>, s: Seq<int>, r: Seq<int>)
    requires
        v.len() == w.len() == s.len() == pow2(r.len()),
        forall|i: int| 0 <= i < s.len() ==> #[trigger] s[i] == v[i] + w[i],
    ensures
        mle(s, r) == mle(v, r) + mle(w, r),
{
    let n = pow2(r.len());
    let f = |i: int| v[i] * eq_weight(i, r);
    let g = |i: int| w[i] * eq_weight(i, r);
    let h = |i: int| s[i] * eq_weight(i, r);
    let both = |i: int| f(i) + g(i);
    assert forall|i: int| 0 <= i < n implies #[trigger] h(i) == both(i) by {
        let e = eq_weight(i, r);
        assert((v[i] + w[i]) * e == v[i] * e + w[i] * e) by (nonlinear_arith);
    }
    lemma_sigma_eq(n, h, both);
    crate::sums::lemma_sigma_add(n, f, g);
}

/// The extension of a sum of tables is the sum of the extensions.
pub proof fn lemma_mle_sigma(k: nat, tables: spec_fn(int) -> Seq<int>, s: Seq<int>, r: Seq<int>)
    requires
        s.len() == pow2(r.len()),
        forall|w: int| 0 <= w < k ==> (#[trigger] tables(w)).len() == s.len(),
        forall|i: int|
            0 <= i < s.len() ==> #[trigger] s[i] == sigma(k, |w: int| tables(w)[i]),
    ensures
        mle(s, r) == sigma(k, |w: int| mle(tables(w), r)),
    decreases k,
{
    if k == 0 {
        lemma_mle_of_constant(s, r, 0);
    } else {
        let j = (k - 1) as nat;
        let head = Seq::new(s.len(), |i: int| sigma(j, |w: int| tables(w)[i]));
        lemma_mle_sigma(j, tables, head, r);
        assert forall|i: int| 0 <= i < s.len() implies #[trigger] s[i] == head[i] + tables(
            k - 1,
        )[i] by {
            let f = |w: int| tables(w)[i];
            assert(sigma(k, f) == sigma(j, f) + f(k - 1));
        }
        lemma_mle_add(head, tables(k - 1), s, r);
        let g = |w: int| mle(tables(w), r);
        assert(sigma(k, g) == sigma(j, g) + g(k - 1));
    }
}

} // verus!
