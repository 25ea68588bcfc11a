//! Sums of fractions over the field, `sum_l w_l / (x + d_l)`.
//!
//! A sum of fractions with different poles and a pole of nonzero weight vanishes
//! at fewer points than it has poles. This is what makes the log-derivative
//! lookup sound.

use crate::field::{
    finv, lemma_residue_add, lemma_residue_difference, lemma_residue_mul,
    lemma_residue_residue, lemma_residue_small, residue, P,
};
use crate::lookup::{
    denominator, lemma_count_by_value, lemma_sigma_pick, lookup_sum, multiplicity, table_sum,
    well_defined,
};
use crate::poly::{
    factors, horner, is_root, lemma_count_below_le, lemma_pi_nonzero, lemma_pi_zero,
    lemma_plus_scaled, lemma_root_bound, lemma_shifted_product, plus_scaled, shifted_product,
};
use crate::prime::{lemma_finv, lemma_no_zero_divisors};
use crate::soundness::{count_below, indicator};
use crate::sums::{
    lemma_sigma_eq, lemma_sigma_scale, lemma_sigma_split, lemma_sigma_zero, pi, sigma,
};
use vstd::prelude::*;

verus! {

/// The poles of a list of weighted poles.
pub open spec fn poles(s: Seq<(int, int)>) -> Seq<int> {
    Seq::new(s.len(), |i: int| s[i].0)
}

/// The numerator of the sum of the fractions over the common denominator.
pub open spec fn numerator(s: Seq<(int, int)>) -> Seq<int>
    decreases s.len(),
{
    if s.len() == 0 {
        Seq::empty()
    } else {
        let (t, (d, w)) = (s.drop_last(), s.last());
        let c = numerator(t);
        plus_scaled(plus_scaled(seq![0int] + c, d, c), w, shifted_product(poles(t)))
    }
}

/// One more fraction.
proof fn lemma_numerator(s: Seq<(int, int)>, x: int)
    ensures
        numerator(s).len() == s.len(),
        s.len() > 0 ==> horner(numerator(s), x) == horner(numerator(s.drop_last()), x) * (x
            + s.last().0) + s.last().1 * pi(
            (s.len() - 1) as nat,
            factors(poles(s.drop_last()), x),
        ),
    decreases s.len(),
{
    if s.len() > 0 {
        let (t, (d, w)) = (s.drop_last(), s.last());
        lemma_numerator(t, x);
        let c = numerator(t);
        let shifted = seq![0int] + c;
        assert(shifted.drop_first() =~= c);
        lemma_plus_scaled(shifted, d, c, x);
        let b = plus_scaled(shifted, d, c);
        lemma_shifted_product(poles(t), x);
        lemma_plus_scaled(b, w, shifted_product(poles(t)), x);
        let u = horner(c, x);
        assert(0 + x * u + d * u == u * (x + d)) by (nonlinear_arith);
    }
}

/// The fractions at `x`.
pub open spec fn fractions(s: Seq<(int, int)>, x: int) -> spec_fn(int) -> int {
    |i: int| s[i].1 * finv(residue(x + s[i].0))
}

/// The product of the denominators, one factor more.
proof fn lemma_denominators(s: Seq<(int, int)>, x: int)
    requires
        s.len() > 0,
    ensures
        pi(s.len(), factors(poles(s), x)) == pi(
            (s.len() - 1) as nat,
            factors(poles(s.drop_last()), x),
        ) * (x + s.last().0),
{
    let m = (s.len() - 1) as nat;
    crate::sums::lemma_pi_eq(m, factors(poles(s.drop_last()), x), factors(poles(s), x));
}

/// Away from the poles the numerator is the sum times the common denominator.
proof fn lemma_numerator_value(s: Seq<(int, int)>, x: int)
    requires
        forall|i: int| 0 <= i < s.len() ==> residue(x + (#[trigger] s[i]).0) != 0,
    ensures
        residue(horner(numerator(s), x)) == residue(
            pi(s.len(), factors(poles(s), x)) * sigma(s.len(), fractions(s, x)),
        ),
    decreases s.len(),
{
    if s.len() == 0 {
        assert(1 * 0 == 0);
    } else {
        let (t, (d, w)) = (s.drop_last(), s.last());
        let m = t.len();
        assert forall|i: int| 0 <= i < t.len() implies residue(x + (#[trigger] t[i]).0) != 0 by {
            assert(t[i] == s[i]);
        }
        lemma_numerator_value(t, x);
        lemma_numerator(s, x);
        lemma_denominators(s, x);
        lemma_sigma_eq(m, fractions(t, x), fractions(s, x));
        let (n, a, b, c) = (
            horner(numerator(t), x),
            pi(m, factors(poles(t), x)),
            sigma(m, fractions(t, x)),
            x + d,
        );
        assert(residue(x + s[m as int].0) != 0);
        let f = finv(residue(c));
        lemma_residue_residue(c);
        lemma_finv(residue(c));
        lemma_residue_mul(residue(c), f);
        lemma_residue_mul(c, f);
        assert(residue(c * f) == 1);
        // (a * c) * (b + w * f) == (a * b) * c + (w * a) * (c * f)
        assert((a * c) * (b + w * f) == (a * b) * c + (w * a) * (c * f)) by (nonlinear_arith);
        lemma_residue_mul(n, c);
        lemma_residue_mul(a * b, c);
        lemma_residue_mul(w * a, c * f);
        lemma_residue_mul(w * a, 1);
        lemma_residue_small(1);
        assert((w * a) * 1 == w * a);
        lemma_residue_add(n * c, w * a);
        lemma_residue_add((a * b) * c, (w * a) * (c * f));
    }
}

/// The poles are different from one another.
pub open spec fn distinct(s: Seq<(int, int)>) -> bool {
    forall|i: int, j: int|
        0 <= i < j < s.len() ==> residue((#[trigger] s[i]).0) != residue((#[trigger] s[j]).0)
}

/// At a pole of nonzero weight the numerator does not vanish.
proof fn lemma_numerator_at_pole(s: Seq<(int, int)>, k: int)
    requires
        distinct(s),
        0 <= k < s.len(),
        residue(s[k].1) != 0,
    ensures
        residue(horner(numerator(s), -s[k].0)) != 0,
    decreases s.len(),
{
    let x = -s[k].0;
    let (t, (d, w)) = (s.drop_last(), s.last());
    let m = t.len();
    lemma_numerator(s, x);
    lemma_residue_small(0);
    let (n, a) = (horner(numerator(t), x), pi(m, factors(poles(t), x)));
    assert(distinct(t)) by {
        assert forall|i: int, j: int| 0 <= i < j < t.len() implies residue((#[trigger] t[i]).0)
            != residue((#[trigger] t[j]).0) by {
            assert(t[i] == s[i] && t[j] == s[j]);
        }
    }
    if k == m {
        assert(x + d == 0);
        assert(n * 0 == 0) by (nonlinear_arith);
        assert forall|i: int| 0 <= i < m implies residue(#[trigger] factors(poles(t), x)(i)) != 0 by {
            assert(t[i] == s[i]);
            lemma_residue_difference(s[i].0, s[k].0);
        }
        lemma_pi_nonzero(m, factors(poles(t), x));
        if residue(w * a) == 0 {
            lemma_no_zero_divisors(w, a);
        }
    } else {
        assert(t[k] == s[k]);
        lemma_numerator_at_pole(t, k);
        assert(factors(poles(t), x)(k) == 0);
        lemma_pi_zero(m, factors(poles(t), x), k);
        lemma_residue_mul(w, a);
        assert(residue(w) * 0 == 0) by (nonlinear_arith);
        lemma_residue_add(n * (x + d), w * a);
        lemma_residue_residue(n * (x + d));
        if residue(n * (x + d)) == 0 {
            lemma_no_zero_divisors(n, x + d);
            lemma_residue_difference(s[m as int].0, s[k].0);
        }
    }
}

/// The sum is defined and vanishes at `x`.
pub open spec fn vanishes(s: Seq<(int, int)>) -> spec_fn(int) -> bool {
    |x: int|
        {
            &&& forall|i: int| 0 <= i < s.len() ==> residue(x + (#[trigger] s[i]).0) != 0
            &&& residue(sigma(s.len(), fractions(s, x))) == 0
        }
}

/// A sum of fractions with different poles, one of them of nonzero weight,
/// vanishes at fewer points than it has poles.
pub proof fn lemma_few_zeros(s: Seq<(int, int)>, k: int)
    requires
        distinct(s),
        0 <= k < s.len(),
        residue(s[k].1) != 0,
    ensures
        count_below(P as nat, vanishes(s)) < s.len(),
{
    let c = numerator(s);
    let z = -s[k].0;
    lemma_numerator(s, z);
    lemma_numerator_at_pole(s, k);
    lemma_root_bound(c, z);
    assert forall|x: int| 0 <= x < P && #[trigger] vanishes(s)(x) implies is_root(c)(x) by {
        lemma_numerator_value(s, x);
        let (a, b) = (pi(s.len(), factors(poles(s), x)), sigma(s.len(), fractions(s, x)));
        lemma_residue_mul(a, b);
        lemma_residue_small(0);
        assert(residue(a) * 0 == 0) by (nonlinear_arith);
    }
    lemma_count_below_le(P as nat, P as nat, vanishes(s), is_root(c));
}

/// The list has the pole `v`.
pub open spec fn has_pole(s: Seq<(int, int)>, v: int) -> bool {
    exists|i: int| 0 <= i < s.len() && residue((#[trigger] s[i]).0) == residue(v)
}

/// Where the list has the pole `v`.
pub open spec fn pole_index(s: Seq<(int, int)>, v: int) -> int {
    choose|i: int| 0 <= i < s.len() && residue((#[trigger] s[i]).0) == residue(v)
}

/// The list with equal poles taken together.
pub open spec fn gathered(s: Seq<(int, int)>) -> Seq<(int, int)>
    decreases s.len(),
{
    if s.len() == 0 {
        s
    } else {
        let (g, (v, w)) = (gathered(s.drop_last()), s.last());
        if has_pole(g, v) {
            let i = pole_index(g, v);
            g.update(i, (g[i].0, g[i].1 + w))
        } else {
            g.push((v, w))
        }
    }
}

/// A function of the poles, weighted.
pub open spec fn weighted(s: Seq<(int, int)>, f: spec_fn(int) -> int) -> spec_fn(int) -> int {
    |i: int| s[i].1 * f(residue(s[i].0))
}

/// Changing one term of a sum.
proof fn lemma_sigma_change(n: nat, f: spec_fn(int) -> int, g: spec_fn(int) -> int, k: int)
    requires
        0 <= k < n,
        forall|i: int| 0 <= i < n && i != k ==> #[trigger] f(i) == g(i),
    ensures
        sigma(n, g) == sigma(n, f) + (g(k) - f(k)),
    decreases n,
{
    if k == n - 1 {
        lemma_sigma_eq((n - 1) as nat, f, g);
    } else {
        lemma_sigma_change((n - 1) as nat, f, g, k);
        assert(f(n - 1) == g(n - 1));
    }
}

/// Gathering leaves different poles, no more than before, and every weighted sum
/// over them.
proof fn lemma_gathered(s: Seq<(int, int)>, f: spec_fn(int) -> int)
    ensures
        distinct(gathered(s)),
        gathered(s).len() <= s.len(),
        sigma(gathered(s).len(), weighted(gathered(s), f)) == sigma(s.len(), weighted(s, f)),
    decreases s.len(),
{
    if s.len() > 0 {
        let (t, (v, w)) = (s.drop_last(), s.last());
        lemma_gathered(t, f);
        let (g, h) = (gathered(t), gathered(s));
        let m = t.len();
        lemma_sigma_eq(m, weighted(t, f), weighted(s, f));
        if has_pole(g, v) {
            let i = pole_index(g, v);
            assert(0 <= i < g.len() && residue(g[i].0) == residue(v));
            lemma_sigma_change(g.len(), weighted(g, f), weighted(h, f), i);
            let (a, y) = (g[i].1, f(residue(v)));
            assert((a + w) * y == a * y + w * y) by (nonlinear_arith);
        } else {
            lemma_sigma_eq(g.len(), weighted(g, f), weighted(h, f));
            assert forall|i: int, j: int| 0 <= i < j < h.len() implies residue((#[trigger] h[i]).0)
                != residue((#[trigger] h[j]).0) by {
                if j == g.len() {
                    assert(h[i] == g[i]);
                } else {
                    assert(h[i] == g[i] && h[j] == g[j]);
                }
            }
        }
    }
}

/// Every pole is kept.
proof fn lemma_gathered_keeps(s: Seq<(int, int)>, k: int)
    requires
        0 <= k < s.len(),
    ensures
        has_pole(gathered(s), s[k].0),
    decreases s.len(),
{
    let (t, (v, w)) = (s.drop_last(), s.last());
    let (g, h) = (gathered(t), gathered(s));
    if k == t.len() {
        if has_pole(g, v) {
            let i = pole_index(g, v);
            assert(0 <= i < g.len() && residue(g[i].0) == residue(v));
            assert(residue(h[i].0) == residue(v));
        } else {
            assert(residue(h[g.len() as int].0) == residue(v));
        }
    } else {
        lemma_gathered_keeps(t, k);
        let j = pole_index(g, s[k].0);
        assert(0 <= j < g.len() && residue(g[j].0) == residue(s[k].0));
        assert(residue(h[j].0) == residue(s[k].0));
    }
}

/// No pole is added.
proof fn lemma_gathered_from(s: Seq<(int, int)>, k: int)
    requires
        0 <= k < gathered(s).len(),
    ensures
        has_pole(s, gathered(s)[k].0),
    decreases s.len(),
{
    if s.len() > 0 {
        let (t, (v, w)) = (s.drop_last(), s.last());
        let (g, h) = (gathered(t), gathered(s));
        if k < g.len() {
            if has_pole(g, v) {
                let i = pole_index(g, v);
                assert(0 <= i < g.len() && residue(g[i].0) == residue(v));
            }
            assert(h[k].0 == g[k].0);
            lemma_gathered_from(t, k);
            let j = pole_index(t, g[k].0);
            assert(0 <= j < t.len() && residue(t[j].0) == residue(g[k].0));
            assert(t[j] == s[j]);
        } else {
            assert(s[t.len() as int].0 == v);
        }
    }
}

/// The fraction over `x + d` as a function of the residue of the pole.
spec fn at_pole(x: int) -> spec_fn(int) -> int {
    |d: int| finv(residue(x + d))
}

/// Fractions depend on their poles up to congruence.
proof fn lemma_fractions_weighted(s: Seq<(int, int)>, x: int)
    ensures
        sigma(s.len(), fractions(s, x)) == sigma(s.len(), weighted(s, at_pole(x))),
{
    assert forall|i: int| 0 <= i < s.len() implies #[trigger] fractions(s, x)(i) == weighted(
        s,
        at_pole(x),
    )(i) by {
        lemma_shift_residue(x, s[i].0);
    }
    lemma_sigma_eq(s.len(), fractions(s, x), weighted(s, at_pole(x)));
}

proof fn lemma_shift_residue(x: int, d: int)
    ensures
        residue(x + residue(d)) == residue(x + d),
{
    lemma_residue_add(x, d);
    lemma_residue_add(x, residue(d));
    lemma_residue_residue(d);
}

/// The two sums of a lookup as one list of weighted poles.
spec fn lookup_poles(indices: Seq<u32>, y: Seq<int>, table: Seq<int>, beta: int) -> Seq<
    (int, int),
> {
    let n = indices.len();
    Seq::new(
        2 * n,
        |i: int|
            if i < n {
                (indices[i] as int + beta * y[i], 1)
            } else {
                (indices[i - n] as int + beta * table[indices[i - n] as int], -1)
            },
    )
}

/// The difference of the two sums.
proof fn lemma_lookup_difference(
    indices: Seq<u32>,
    y: Seq<int>,
    table: Seq<int>,
    alpha: int,
    beta: int,
)
    requires
        indices.len() == y.len(),
        forall|i: int| 0 <= i < indices.len() ==> #[trigger] indices[i] < table.len(),
    ensures
        ({
            let s = lookup_poles(indices, y, table, beta);
            sigma(s.len(), fractions(s, alpha)) == lookup_sum(indices, y, alpha, beta) - table_sum(
                indices,
                table,
                alpha,
                beta,
            )
        }),
{
    let n = indices.len();
    let s = lookup_poles(indices, y, table, beta);
    let f = fractions(s, alpha);
    let g = |j: int| finv(denominator(j, table[j], alpha, beta));
    lemma_count_by_value(indices, table.len(), g);
    lemma_sigma_eq(
        table.len(),
        |j: int| multiplicity(indices, j) * finv(denominator(j, table[j], alpha, beta)),
        |j: int| multiplicity(indices, j) * g(j),
    );
    let left = |i: int| finv(denominator(indices[i] as int, y[i], alpha, beta));
    let right = |i: int| g(indices[i] as int);
    let tail = |i: int| f(n + i);
    lemma_sigma_split(n, n, f);
    assert forall|i: int| 0 <= i < n implies #[trigger] f(i) == left(i) by {
        let v = finv(residue(alpha + s[i].0));
        assert(1 * v == v);
    }
    lemma_sigma_eq(n, f, left);
    let negated = |i: int| (-1) * right(i);
    lemma_sigma_scale(n, -1, right);
    lemma_sigma_eq(n, tail, negated);
}

/// One at the residue of `key`, zero elsewhere.
spec fn marks(key: int) -> spec_fn(int) -> int {
    |d: int| indicator(d == residue(key))
}

/// The weight of a wrong pair: how often its key occurs.
proof fn lemma_wrong_weight(
    indices: Seq<u32>,
    y: Seq<int>,
    table: Seq<int>,
    beta: int,
    k: int,
    f: spec_fn(int) -> int,
)
    requires
        indices.len() == y.len(),
        0 <= k < indices.len(),
        forall|j: int|
            0 <= j < indices.len() ==> residue(
                (#[trigger] indices[j]) as int + beta * table[indices[j] as int],
            ) != residue(indices[k] as int + beta * y[k]),
        f == marks(indices[k] as int + beta * y[k]),
    ensures
        ({
            let s = lookup_poles(indices, y, table, beta);
            1 <= sigma(s.len(), weighted(s, f)) <= indices.len()
        }),
{
    let n = indices.len();
    let s = lookup_poles(indices, y, table, beta);
    let g = weighted(s, f);
    let tail = |i: int| g(n + i);
    lemma_sigma_split(n, n, g);
    assert forall|i: int| 0 <= i < n implies #[trigger] tail(i) == 0 by {
        let index = indices[i];
        assert((-1) * 0 == 0);
    }
    lemma_sigma_zero(n, tail);
    assert forall|i: int| 0 <= i < n implies 0 <= #[trigger] g(i) <= 1 by {
        assert(1 * 0 == 0 && 1 * 1 == 1);
    }
    assert(g(k) == 1) by {
        assert(1 * 1 == 1);
    }
    lemma_sigma_small(n, g, k);
}

/// A sum of zeros and ones with a one among them.
proof fn lemma_sigma_small(n: nat, g: spec_fn(int) -> int, k: int)
    requires
        forall|i: int| 0 <= i < n ==> 0 <= #[trigger] g(i) <= 1,
        0 <= k < n ==> g(k) == 1,
    ensures
        0 <= sigma(n, g) <= n,
        0 <= k < n ==> sigma(n, g) >= 1,
    decreases n,
{
    if n > 0 {
        assert(0 <= g(n - 1) <= 1);
        lemma_sigma_small((n - 1) as nat, g, k);
    }
}

/// The lookup is defined at `alpha`, and its two sums are congruent.
pub open spec fn lookup_passes(
    indices: Seq<u32>,
    y: Seq<int>,
    table: Seq<int>,
    beta: int,
) -> spec_fn(int) -> bool {
    |alpha: int|
        well_defined(indices, y, table, alpha, beta) && residue(
            lookup_sum(indices, y, alpha, beta),
        ) == residue(table_sum(indices, table, alpha, beta))
}

/// Soundness of the log-derivative lookup: with an output whose key is not the
/// key of any selected table entry, the two sums are equal for fewer values of
/// `alpha` than twice the number of lookups.
pub proof fn lemma_lookup_sound(
    indices: Seq<u32>,
    y: Seq<int>,
    table: Seq<int>,
    beta: int,
    k: int,
)
    requires
        indices.len() == y.len(),
        indices.len() < P,
        forall|i: int| 0 <= i < indices.len() ==> #[trigger] indices[i] < table.len(),
        0 <= k < indices.len(),
        forall|j: int|
            0 <= j < indices.len() ==> residue(
                (#[trigger] indices[j]) as int + beta * table[indices[j] as int],
            ) != residue(indices[k] as int + beta * y[k]),
    ensures
        count_below(P as nat, lookup_passes(indices, y, table, beta)) < 2 * indices.len(),
{
    let n = indices.len();
    let key = indices[k] as int + beta * y[k];
    let s = lookup_poles(indices, y, table, beta);
    let g = gathered(s);
    let f = marks(key);
    lemma_gathered(s, f);
    assert(s[k].0 == key);
    lemma_gathered_keeps(s, k);
    let j = pole_index(g, key);
    assert(0 <= j < g.len() && residue(g[j].0) == residue(key));
    // The weight of the wrong key.
    assert forall|i: int| 0 <= i < g.len() && i != j implies #[trigger] weighted(g, f)(i) == 0 by {
        assert(residue(g[i].0) != residue(g[j].0)) by {
            if i < j {
                assert(residue(g[i].0) != residue(g[j].0));
            } else {
                assert(residue(g[j].0) != residue(g[i].0));
            }
        }
        assert(g[i].1 * 0 == 0) by (nonlinear_arith);
    }
    lemma_sigma_pick(g.len(), weighted(g, f), j);
    assert(g[j].1 * 1 == g[j].1);
    lemma_wrong_weight(indices, y, table, beta, k, f);
    lemma_residue_small(g[j].1);
    lemma_few_zeros(g, j);
    assert forall|alpha: int|
        0 <= alpha < P && #[trigger] lookup_passes(indices, y, table, beta)(alpha) implies vanishes(g)(
        alpha,
    ) by {
        lemma_lookup_difference(indices, y, table, alpha, beta);
        lemma_fractions_weighted(s, alpha);
        lemma_fractions_weighted(g, alpha);
        lemma_gathered(s, at_pole(alpha));
        lemma_residue_difference(
            lookup_sum(indices, y, alpha, beta),
            table_sum(indices, table, alpha, beta),
        );
        assert forall|i: int| 0 <= i < g.len() implies residue(alpha + (#[trigger] g[i]).0) != 0 by {
            lemma_gathered_from(s, i);
            let l = pole_index(s, g[i].0);
            assert(0 <= l < s.len() && residue(s[l].0) == residue(g[i].0));
            lemma_shift_residue(alpha, g[i].0);
            lemma_shift_residue(alpha, s[l].0);
            if l < n {
                let index = indices[l];
            } else {
                let index = indices[l - n];
                assert(index < table.len());
                let value = table[index as int];
            }
        }
    }
    lemma_count_below_le(
        P as nat,
        P as nat,
        lookup_passes(indices, y, table, beta),
        vanishes(g),
    );
}

} // verus!
