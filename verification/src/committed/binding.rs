//! What acceptance says of the committed tensors themselves.
//!
//! A prover hands in plain tensors beside its commitments. The laws here leave the
//! plain ones free: whatever they are, committed tensors that do not stand in the
//! relation of the layer are accepted for at most a small fraction of the challenges.

use super::attention::{lemma_row_weights, row_sums_hold, row_totals, row_weights};
use super::linear::{matmul_holds, matrix_product};
use super::openings::{eq_self, eq_table};
use crate::field::{
    lemma_residue_difference, lemma_residue_mul, lemma_residue_small, residue, residues, P,
};
use crate::mle::{eq_weight, fix_first, lemma_mle_constant, lemma_mle_fix_first, lemma_mle_scale, mle};
use crate::prime::{lemma_no_zero_divisors, lemma_quadratic_roots};
use crate::soundness::{
    after, count_below, count_points, lemma_count_none, lemma_count_step, lemma_distinct,
    lemma_fraction_either, lemma_fraction_implies, lemma_fraction_insert, lemma_pick,
    lemma_products_agree_rarely, lemma_schwartz_zippel, points, same_products, same_value,
};
use crate::sums::{lemma_sigma_eq, sigma};
use vstd::arithmetic::power2::{lemma_pow2_adds, lemma_pow2_pos, lemma_pow2_unfold, pow2};
use vstd::prelude::*;

verus! {

/// The zero-check selector vanishes at a point.
pub open spec fn selector_vanishes() -> spec_fn(Seq<int>) -> bool {
    |r: Seq<int>| residue(eq_self(r)) == 0
}

/// One more coordinate multiplies the selector by `x^2 + (1 - x)^2`.
proof fn lemma_selector_step(x: int, r: Seq<int>)
    ensures
        eq_self(seq![x] + r) == (x * x + (1 - x) * (1 - x)) * eq_self(r),
{
    let s = seq![x] + r;
    let c = x * x + (1 - x) * (1 - x);
    assert(s.drop_first() =~= r);
    lemma_pow2_unfold(s.len());
    let (e, f) = (eq_table(s), eq_table(r));
    lemma_mle_fix_first(e, s);
    let w = fix_first(e, x);
    assert forall|i: int| 0 <= i < f.len() implies w[i] == c * f[i] by {
        let q = eq_weight(i, r);
        assert((2 * i) / 2 == i && (2 * i + 1) / 2 == i);
        assert(e[2 * i] == (1 - x) * q);
        assert(e[2 * i + 1] == x * q);
        assert((1 - x) * q + x * (x * q - (1 - x) * q) == (x * x + (1 - x) * (1 - x)) * q)
            by (nonlinear_arith);
    }
    lemma_mle_scale(f, w, c, r);
}

/// The zero-check selector vanishes at no more than a fraction `2t / P` of the points.
pub proof fn lemma_selector_rarely_vanishes(t: nat)
    ensures
        P * count_points(t, selector_vanishes()) <= (2 * t) * points(t),
    decreases t,
{
    let pred = selector_vanishes();
    lemma_residue_small(1);
    if t == 0 {
        vstd::arithmetic::power2::lemma2_to64();
        assert forall|r: Seq<int>| r.len() == t implies !#[trigger] pred(r) by {
            lemma_mle_constant(eq_table(r), r);
            assert(eq_weight(0, r) == 1);
        }
        lemma_count_none(t, pred);
        assert((2 * t) * points(t) == 0) by (nonlinear_arith)
            requires
                t == 0,
        ;
    } else {
        let m = (t - 1) as nat;
        let bad = |x: int| residue(x * x + (1 - x) * (1 - x)) == 0;
        assert(count_below(P as nat, bad) <= 2) by {
            if count_below(P as nat, bad) > 2 {
                let x = lemma_pick(P as nat, bad);
                let y = lemma_pick(x as nat, bad);
                let z = lemma_pick(y as nat, bad);
                lemma_distinct(x, y);
                lemma_distinct(x, z);
                lemma_distinct(y, z);
                assert forall|v: int| #[trigger] (v * v + (1 - v) * (1 - v)) == 1 + (-2) * v + 2 * v
                    * v by {
                    assert(v * v + (1 - v) * (1 - v) == 1 + (-2) * v + 2 * v * v)
                        by (nonlinear_arith);
                }
                assert(x * x + (1 - x) * (1 - x) == 1 + (-2) * x + 2 * x * x);
                assert(y * y + (1 - y) * (1 - y) == 1 + (-2) * y + 2 * y * y);
                assert(z * z + (1 - z) * (1 - z) == 1 + (-2) * z + 2 * z * z);
                lemma_quadratic_roots(1, -2, 2, x, y, z);
            }
        }
        assert forall|x: int| 0 <= x < P && !#[trigger] bad(x) implies P * count_points(
            m,
            after(pred, x),
        ) <= (2 * m) * points(m) by {
            lemma_selector_rarely_vanishes(m);
            assert forall|r: Seq<int>| r.len() == m && #[trigger] after(pred, x)(r) implies pred(
                r,
            ) by {
                lemma_selector_step(x, r);
                lemma_no_zero_divisors(x * x + (1 - x) * (1 - x), eq_self(r));
            }
            lemma_fraction_implies(m, after(pred, x), pred, (2 * m) as int, (2 * m) as int);
        }
        lemma_count_step(t, pred, bad, 2, (2 * m) as int);
    }
}

/// Under a factor that does not vanish, congruent products have congruent rests.
proof fn lemma_unmask(e: int, a: int, b: int)
    requires
        residue(e * a) == residue(e * b),
        residue(e) != 0,
    ensures
        residue(a) == residue(b),
{
    lemma_residue_difference(e * a, e * b);
    assert(e * a - e * b == e * (a - b)) by (nonlinear_arith);
    lemma_no_zero_divisors(e, a - b);
    lemma_residue_difference(a, b);
}

/// Two tables have the same value at a point, as far as the selector can tell.
pub open spec fn masked_value(f: Seq<int>, g: Seq<int>) -> spec_fn(Seq<int>) -> bool {
    |r: Seq<int>| residue(eq_self(r) * mle(f, r)) == residue(eq_self(r) * mle(g, r))
}

/// Different tables look the same through the selector at no more than a fraction
/// `3t / P` of the points.
pub proof fn lemma_masked_rarely(f: Seq<int>, g: Seq<int>, t: nat)
    requires
        f.len() == g.len() == pow2(t),
        residues(f) != residues(g),
    ensures
        P * count_points(t, masked_value(f, g)) <= (3 * t) * points(t),
{
    lemma_selector_rarely_vanishes(t);
    lemma_schwartz_zippel(f, g, t);
    let pred = masked_value(f, g);
    assert forall|r: Seq<int>|
        r.len() == t && #[trigger] pred(r) implies selector_vanishes()(r) || same_value(f, g)(r) by {
        if residue(eq_self(r)) != 0 {
            lemma_unmask(eq_self(r), mle(f, r), mle(g, r));
        }
    }
    lemma_fraction_either(
        t,
        pred,
        selector_vanishes(),
        same_value(f, g),
        (2 * t) as int,
        t as int,
    );
}

/// The products of two pairs of tables have the same value at a point, as far as the
/// selector can tell.
pub open spec fn masked_products(
    f: Seq<int>,
    g: Seq<int>,
    u: Seq<int>,
    v: Seq<int>,
) -> spec_fn(Seq<int>) -> bool {
    |r: Seq<int>|
        residue(eq_self(r) * mle(f, r) * mle(g, r)) == residue(eq_self(r) * mle(u, r) * mle(v, r))
}

/// Pairs of tables whose products differ at an entry look the same through the
/// selector at no more than a fraction `4t / P` of the points.
pub proof fn lemma_masked_products_rarely(
    f: Seq<int>,
    g: Seq<int>,
    u: Seq<int>,
    v: Seq<int>,
    t: nat,
    k: int,
)
    requires
        f.len() == g.len() == u.len() == v.len() == pow2(t),
        0 <= k < f.len(),
        residue(f[k] * g[k]) != residue(u[k] * v[k]),
    ensures
        P * count_points(t, masked_products(f, g, u, v)) <= (4 * t) * points(t),
{
    lemma_selector_rarely_vanishes(t);
    lemma_products_agree_rarely(f, g, u, v, t, k);
    let pred = masked_products(f, g, u, v);
    assert forall|r: Seq<int>|
        r.len() == t && #[trigger] pred(r) implies selector_vanishes()(r) || same_products(
        f,
        g,
        u,
        v,
    )(r) by {
        if residue(eq_self(r)) != 0 {
            let (e, a, b, c, d) = (eq_self(r), mle(f, r), mle(g, r), mle(u, r), mle(v, r));
            assert(e * a * b == e * (a * b)) by (nonlinear_arith);
            assert(e * c * d == e * (c * d)) by (nonlinear_arith);
            lemma_unmask(e, a * b, c * d);
        }
    }
    lemma_fraction_either(
        t,
        pred,
        selector_vanishes(),
        same_products(f, g, u, v),
        (2 * t) as int,
        (2 * t) as int,
    );
}

/// A committed product: if some entry `(i, j)` of the committed `C` is not the sum of
/// the products of row `i` of the committed `A` with column `j` of the committed `B`,
/// the proof is accepted for at most a fraction `(dk + dn + dm) / P` of its challenges,
/// whatever plain matrices are handed in. The challenges are taken as one point
/// `(v, ch, u)`.
pub proof fn lemma_matmul_binds(
    tables: (Seq<int>, Seq<int>, Seq<int>),
    plain: (Seq<int>, Seq<int>, Seq<int>),
    dims: (nat, nat, nat),
    dm: nat,
    dk: nat,
    dn: nat,
    i: int,
    j: int,
)
    requires
        dims.0 == pow2(dm),
        dims.1 == pow2(dk),
        dims.2 == pow2(dn),
        tables.0.len() == plain.0.len() == dims.0 * dims.1,
        tables.1.len() == plain.1.len() == dims.1 * dims.2,
        tables.2.len() == plain.2.len() == dims.0 * dims.2,
        0 <= i < dims.0,
        0 <= j < dims.2,
        residue(tables.2[i * dims.2 + j]) != residue(
            sigma(dims.1, |w: int| tables.0[i * dims.1 + w] * tables.1[w * dims.2 + j]),
        ),
    ensures
        P * count_points(
            dn + dk + dm,
            |r: Seq<int>|
                matmul_holds(
                    tables,
                    plain,
                    dims,
                    r.subrange(dn as int, (dn + dk) as int),
                    r.take(dn as int),
                    r.skip((dn + dk) as int),
                ),
        ) <= (dn + dk + dm) * points(dn + dk + dm),
{
    let (m, k, n) = dims;
    let pred = |r: Seq<int>|
        matmul_holds(
            tables,
            plain,
            dims,
            r.subrange(dn as int, (dn + dk) as int),
            r.take(dn as int),
            r.skip((dn + dk) as int),
        );
    let d = (dn + dk + dm) as int;
    assert(m * k == k * m && k * n == n * k && m * n == n * m) by (nonlinear_arith);
    lemma_pow2_adds(dk, dm);
    lemma_pow2_adds(dn, dk);
    lemma_pow2_adds(dn, dm);
    if residues(tables.0) != residues(plain.0) {
        let q = same_value(tables.0, plain.0);
        lemma_schwartz_zippel(tables.0, plain.0, dk + dm);
        assert forall|r: Seq<int>| r.len() == 0 + dn + (dk + dm) && #[trigger] pred(r) implies q(
            r.take(0) + r.skip((0 + dn) as int),
        ) by {
            assert(r.take(0) + r.skip(dn as int) =~= r.subrange(dn as int, (dn + dk) as int)
                + r.skip((dn + dk) as int));
        }
        assert(0 + (dk + dm) == dk + dm && 0 + dn + (dk + dm) == dn + dk + dm);
        lemma_fraction_insert(0, dn, dk + dm, pred, q, (dk + dm) as int);
        lemma_fraction_implies(dn + dk + dm, pred, pred, (dk + dm) as int, d);
    } else if residues(tables.1) != residues(plain.1) {
        let q = same_value(tables.1, plain.1);
        lemma_schwartz_zippel(tables.1, plain.1, dn + dk);
        assert forall|r: Seq<int>| r.len() == (dn + dk) + dm + 0 && #[trigger] pred(r) implies q(
            r.take((dn + dk) as int) + r.skip((dn + dk + dm) as int),
        ) by {
            assert(r.take((dn + dk) as int) + r.skip((dn + dk + dm) as int) =~= r.take(dn as int)
                + r.subrange(dn as int, (dn + dk) as int));
        }
        assert((dn + dk) + 0 == dn + dk && (dn + dk) + dm + 0 == dn + dk + dm);
        lemma_fraction_insert(dn + dk, dm, 0, pred, q, (dn + dk) as int);
        lemma_fraction_implies(dn + dk + dm, pred, pred, (dn + dk) as int, d);
    } else {
        let (pc, tc) = (
            matrix_product(plain.0, plain.1, m, k, n),
            matrix_product(tables.0, tables.1, m, k, n),
        );
        lemma_product_residues(tables.0, plain.0, tables.1, plain.1, m, k, n);
        let x = i * n + j;
        lemma_product_entry(tables.0, tables.1, m, k, n, i, j);
        assert(residues(tables.2)[x] != residues(tc)[x]);
        let q = same_value(tables.2, pc);
        lemma_schwartz_zippel(tables.2, pc, dn + dm);
        assert forall|r: Seq<int>| r.len() == dn + dk + dm && #[trigger] pred(r) implies q(
            r.take(dn as int) + r.skip((dn + dk) as int),
        ) by {}
        lemma_fraction_insert(dn, dk, dm, pred, q, (dn + dm) as int);
        lemma_fraction_implies(dn + dk + dm, pred, pred, (dn + dm) as int, d);
    }
}

/// An entry of a product is the sum over the row and the column that meet there.
pub proof fn lemma_product_entry(
    a: Seq<int>,
    b: Seq<int>,
    m: nat,
    k: nat,
    n: nat,
    i: int,
    j: int,
)
    requires
        0 <= i < m,
        0 <= j < n,
    ensures
        0 <= i * n + j < m * n,
        matrix_product(a, b, m, k, n).len() == m * n,
        matrix_product(a, b, m, k, n)[i * n + j] == sigma(k, |w: int| a[i * k + w] * b[w * n + j]),
{
    let x = i * n + j;
    vstd::arithmetic::div_mod::lemma_fundamental_div_mod_converse(x, n as int, i, j);
    assert(0 <= i * n + j < m * n) by (nonlinear_arith)
        requires
            0 <= i < m,
            0 <= j < n,
    ;
    lemma_sigma_eq(
        k,
        |w: int| a[x / n as int * k + w] * b[w * n + x % n as int],
        |w: int| a[i * k + w] * b[w * n + j],
    );
}

/// Congruent tables have congruent entries.
pub proof fn lemma_entry_residue(a: Seq<int>, b: Seq<int>, i: int)
    requires
        residues(a) == residues(b),
        0 <= i < a.len(),
    ensures
        a.len() == b.len(),
        residue(a[i]) == residue(b[i]),
{
    assert(residues(a).len() == a.len() && residues(b).len() == b.len());
    assert(residues(a)[i] == residue(a[i]) && residues(b)[i] == residue(b[i]));
}

/// Products of congruent matrices are congruent.
proof fn lemma_product_residues(
    a: Seq<int>,
    u: Seq<int>,
    b: Seq<int>,
    v: Seq<int>,
    m: nat,
    k: nat,
    n: nat,
)
    requires
        a.len() == u.len() == m * k,
        b.len() == v.len() == k * n,
        n > 0,
        residues(a) == residues(u),
        residues(b) == residues(v),
    ensures
        residues(matrix_product(a, b, m, k, n)) == residues(matrix_product(u, v, m, k, n)),
{
    let (p, q) = (matrix_product(a, b, m, k, n), matrix_product(u, v, m, k, n));
    assert forall|x: int| 0 <= x < m * n implies residue(#[trigger] p[x]) == residue(q[x]) by {
        let (i, j) = (x / n as int, x % n as int);
        vstd::arithmetic::div_mod::lemma_fundamental_div_mod(x, n as int);
        assert(0 <= i < m) by (nonlinear_arith)
            requires
                0 <= x < m * n,
                x == n * i + j,
                0 <= j < n,
        ;
        let f = |w: int| a[x / n as int * k + w] * b[w * n + x % n as int];
        let g = |w: int| u[x / n as int * k + w] * v[w * n + x % n as int];
        assert forall|w: int| 0 <= w < k implies residue(#[trigger] f(w)) == residue(g(w)) by {
            assert(0 <= i * k + w < m * k && 0 <= w * n + j < k * n) by (nonlinear_arith)
                requires
                    0 <= i < m,
                    0 <= j < n,
                    0 <= w < k,
            ;
            lemma_entry_residue(a, u, i * k + w);
            lemma_entry_residue(b, v, w * n + j);
            lemma_residue_mul(a[i * k + w], b[w * n + j]);
            lemma_residue_mul(u[i * k + w], v[w * n + j]);
        }
        crate::sums::lemma_sigma_residue(k, f, g);
    }
    assert(residues(p) =~= residues(q));
}

/// Row sums: if the committed sum of some row is not the sum of the entries of that
/// row of the committed matrix, the check is accepted for at most a fraction
/// `(dr + 2d) / P` of its challenges, a row point of `dr` coordinates followed by a full
/// point of `d`, whatever plain tensors are handed in.
pub proof fn lemma_row_sums_bind(
    tables: (Seq<int>, Seq<int>),
    plain: (Seq<int>, Seq<int>),
    n_rows: nat,
    n_cols: nat,
    dr: nat,
    d: nat,
    k: int,
)
    requires
        n_rows == pow2(dr),
        n_cols > 0,
        n_rows * n_cols == pow2(d),
        tables.0.len() == plain.0.len() == pow2(d),
        tables.1.len() == plain.1.len() == n_rows,
        0 <= k < n_rows,
        residue(tables.1[k]) != residue(sigma(n_cols, |j: int| tables.0[k * n_cols + j])),
    ensures
        P * count_points(
            dr + d,
            |r: Seq<int>|
                row_sums_hold(
                    tables,
                    plain,
                    n_rows,
                    n_cols,
                    r.take(dr as int),
                    r.skip(dr as int),
                ),
        ) <= (dr + 2 * d) * points(dr + d),
{
    let pred = |r: Seq<int>|
        row_sums_hold(tables, plain, n_rows, n_cols, r.take(dr as int), r.skip(dr as int));
    lemma_pow2_pos(dr);
    if residues(tables.0) != residues(plain.0) {
        lemma_each_row_point(tables, plain, n_rows, n_cols, dr, d, pred);
    } else {
        lemma_totals_residues(tables.0, plain.0, n_rows, n_cols);
        let t = row_totals(plain.0, n_rows, n_cols);
        assert(row_totals(tables.0, n_rows, n_cols)[k] == sigma(
            n_cols,
            |j: int| tables.0[k * n_cols + j],
        ));
        assert(residues(tables.1)[k] != residues(t)[k]) by {
            assert(residues(t)[k] == residues(row_totals(tables.0, n_rows, n_cols))[k]);
        }
        let q = same_value(tables.1, t);
        lemma_schwartz_zippel(tables.1, t, dr);
        assert forall|r: Seq<int>| r.len() == dr + d + 0 && #[trigger] pred(r) implies q(
            r.take(dr as int) + r.skip((dr + d) as int),
        ) by {
            assert(r.take(dr as int) + r.skip((dr + d) as int) =~= r.take(dr as int));
            lemma_row_weights(plain.0, n_rows, n_cols, r.take(dr as int));
        }
        assert(dr + 0 == dr && dr + d + 0 == dr + d);
        lemma_fraction_insert(dr, d, 0, pred, q, dr as int);
        lemma_fraction_implies(dr + d, pred, pred, dr as int, (dr + 2 * d) as int);
    }
}

/// Sums of congruent rows are congruent.
proof fn lemma_totals_residues(a: Seq<int>, b: Seq<int>, n_rows: nat, n_cols: nat)
    requires
        a.len() == b.len() == n_rows * n_cols,
        residues(a) == residues(b),
    ensures
        residues(row_totals(a, n_rows, n_cols)) == residues(row_totals(b, n_rows, n_cols)),
{
    let (p, q) = (row_totals(a, n_rows, n_cols), row_totals(b, n_rows, n_cols));
    assert forall|i: int| 0 <= i < n_rows implies residue(#[trigger] p[i]) == residue(q[i]) by {
        let f = |j: int| a[i * n_cols + j];
        let g = |j: int| b[i * n_cols + j];
        assert forall|j: int| 0 <= j < n_cols implies residue(#[trigger] f(j)) == residue(g(j)) by {
            assert(0 <= i * n_cols + j < n_rows * n_cols) by (nonlinear_arith)
                requires
                    0 <= i < n_rows,
                    0 <= j < n_cols,
            ;
            lemma_entry_residue(a, b, i * n_cols + j);
        }
        crate::sums::lemma_sigma_residue(n_cols, f, g);
    }
    assert(residues(p) =~= residues(q));
}

/// The statement about the remaining coordinates once the first ones are `x`.
pub open spec fn following(
    pred: spec_fn(Seq<int>) -> bool,
    x: Seq<int>,
) -> spec_fn(Seq<int>) -> bool {
    |y: Seq<int>| pred(x + y)
}

/// A statement about a point in two parts that is rare in the second part whatever the
/// first is, is rare.
pub proof fn lemma_rare_after(
    a: nat,
    b: nat,
    pred: spec_fn(Seq<int>) -> bool,
    c: int,
)
    requires
        c >= 0,
        forall|x: Seq<int>|
            x.len() == a ==> P * count_points(b, #[trigger] following(pred, x)) <= c * points(b),
    ensures
        P * count_points(a + b, pred) <= c * points(a + b),
    decreases a,
{
    if a == 0 {
        let none = Seq::<int>::empty();
        let slice = following(pred, none);
        assert(P * count_points(b, slice) <= c * points(b));
        assert forall|r: Seq<int>| r.len() == b && #[trigger] pred(r) implies slice(r) by {
            assert(none + r =~= r);
        }
        lemma_fraction_implies(b, pred, slice, c, c);
    } else {
        let m = (a - 1) as nat;
        let bad = |x: int| false;
        assert(count_below(P as nat, bad) <= 0) by {
            if count_below(P as nat, bad) > 0 {
                let x = lemma_pick(P as nat, bad);
            }
        }
        assert forall|z: int| 0 <= z < P && !#[trigger] bad(z) implies P * count_points(
            (a + b - 1) as nat,
            after(pred, z),
        ) <= c * points((a + b - 1) as nat) by {
            assert forall|x: Seq<int>| x.len() == m implies P * count_points(
                b,
                #[trigger] following(after(pred, z), x),
            ) <= c * points(b) by {
                let whole = seq![z] + x;
                let slice = following(after(pred, z), x);
                let other = following(pred, whole);
                assert(P * count_points(b, other) <= c * points(b));
                assert forall|y: Seq<int>| y.len() == b && #[trigger] slice(y) implies other(y) by {
                    assert(seq![z] + (x + y) =~= whole + y);
                }
                lemma_fraction_implies(b, slice, other, c, c);
            }
            lemma_rare_after(m, b, after(pred, z), c);
            assert(m + b == a + b - 1);
        }
        lemma_count_step(a + b, pred, bad, 0, c);
    }
}

/// Different matrices pass the row-sum check for few full points, whatever the row
/// point is: the weights of a row point add up to one in every column, so they do not
/// all vanish.
proof fn lemma_each_row_point(
    tables: (Seq<int>, Seq<int>),
    plain: (Seq<int>, Seq<int>),
    n_rows: nat,
    n_cols: nat,
    dr: nat,
    d: nat,
    pred: spec_fn(Seq<int>) -> bool,
)
    requires
        n_rows == pow2(dr),
        n_cols > 0,
        n_rows * n_cols == pow2(d),
        tables.0.len() == plain.0.len() == pow2(d),
        residues(tables.0) != residues(plain.0),
        pred == (|r: Seq<int>|
            row_sums_hold(tables, plain, n_rows, n_cols, r.take(dr as int), r.skip(dr as int))),
    ensures
        P * count_points(dr + d, pred) <= (dr + 2 * d) * points(dr + d),
{
    assert forall|x: Seq<int>| x.len() == dr implies P * count_points(
        d,
        #[trigger] following(pred, x),
    ) <= (2 * d) * points(d) by {
        let slice = following(pred, x);
        let w = row_weights(x, n_rows, n_cols);
        let zero = Seq::new(pow2(d), |i: int| 0int);
        // Either the weights vanish at the full point or the matrices agree there.
        lemma_weights_nonzero(x, n_rows, n_cols, d);
        lemma_schwartz_zippel(w, zero, d);
        lemma_schwartz_zippel(tables.0, plain.0, d);
        lemma_residue_small(0);
        assert forall|y: Seq<int>| y.len() == d && #[trigger] slice(y) implies same_value(w, zero)(
            y,
        ) || same_value(tables.0, plain.0)(y) by {
            let r = x + y;
            assert(r.take(dr as int) =~= x && r.skip(dr as int) =~= y);
            crate::mle::lemma_mle_of_constant(zero, y, 0);
            let (q, a, b) = (mle(w, y), mle(tables.0, y), mle(plain.0, y));
            if residue(q) != 0 {
                assert(a * q == q * a && b * q == q * b) by (nonlinear_arith);
                lemma_unmask(q, a, b);
            }
        }
        lemma_fraction_either(
            d,
            slice,
            same_value(w, zero),
            same_value(tables.0, plain.0),
            d as int,
            d as int,
        );
    }
    lemma_rare_after(dr, d, pred, (2 * d) as int);
    lemma_fraction_implies(dr + d, pred, pred, (2 * d) as int, (dr + 2 * d) as int);
}

/// The weights of a row point are not all zero.
proof fn lemma_weights_nonzero(x: Seq<int>, n_rows: nat, n_cols: nat, d: nat)
    requires
        n_rows == pow2(x.len()),
        n_cols > 0,
        n_rows * n_cols == pow2(d),
    ensures
        residues(row_weights(x, n_rows, n_cols)) != residues(Seq::new(pow2(d), |i: int| 0int)),
{
    let w = row_weights(x, n_rows, n_cols);
    let zero = Seq::new(pow2(d), |i: int| 0int);
    lemma_residue_small(0);
    lemma_residue_small(1);
    if residues(w) == residues(zero) {
        let f = |i: int| eq_weight(i, x);
        let g = |i: int| 0int;
        assert forall|i: int| 0 <= i < n_rows implies residue(#[trigger] f(i)) == residue(g(i)) by {
            let at = i * n_cols;
            assert(0 <= i * n_cols < n_rows * n_cols) by (nonlinear_arith)
                requires
                    0 <= i < n_rows,
                    n_cols > 0,
            ;
            vstd::arithmetic::div_mod::lemma_fundamental_div_mod_converse(
                at,
                n_cols as int,
                i,
                0,
            );
            assert(residues(w)[at] == residues(zero)[at]);
            assert(w[at] == eq_weight(i, x));
        }
        crate::sums::lemma_sigma_residue(n_rows, f, g);
        crate::sums::lemma_sigma_zero(n_rows, g);
        crate::mle::lemma_eq_weights_sum(x);
    }
}

} // verus!
