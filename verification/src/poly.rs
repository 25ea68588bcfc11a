//! Polynomials over the field: a nonzero one has no more roots than its degree.

use crate::field::{lemma_residue_difference, lemma_residue_mul, lemma_residue_small, residue, P};
use crate::prime::lemma_no_zero_divisors;
use crate::soundness::{count_below, indicator, lemma_distinct, lemma_pick};
use crate::sums::{pi, sigma};
use vstd::prelude::*;

verus! {

/// The polynomial with coefficients `c`, lowest first, at `x`.
pub open spec fn horner(c: Seq<int>, x: int) -> int
    decreases c.len(),
{
    if c.len() == 0 {
        0
    } else {
        c[0] + x * horner(c.drop_first(), x)
    }
}

/// Where the polynomial vanishes.
pub open spec fn is_root(c: Seq<int>) -> spec_fn(int) -> bool {
    |x: int| residue(horner(c, x)) == 0
}

/// The coefficients of `c + k * d`, where `d` is not longer than `c`.
pub open spec fn plus_scaled(c: Seq<int>, k: int, d: Seq<int>) -> Seq<int> {
    Seq::new(
        c.len(),
        |i: int|
            c[i] + (if i < d.len() {
                k * d[i]
            } else {
                0
            }),
    )
}

pub proof fn lemma_plus_scaled(c: Seq<int>, k: int, d: Seq<int>, x: int)
    requires
        d.len() <= c.len(),
    ensures
        horner(plus_scaled(c, k, d), x) == horner(c, x) + k * horner(d, x),
    decreases c.len(),
{
    let s = plus_scaled(c, k, d);
    if c.len() == 0 {
        assert(k * 0 == 0) by (nonlinear_arith);
    } else if d.len() == 0 {
        assert(s =~= c);
        assert(k * 0 == 0) by (nonlinear_arith);
    } else {
        let (c1, d1) = (c.drop_first(), d.drop_first());
        lemma_plus_scaled(c1, k, d1, x);
        assert(s.drop_first() =~= plus_scaled(c1, k, d1));
        let (a, b, u, v) = (c[0], d[0], horner(c1, x), horner(d1, x));
        assert((a + k * b) + x * (u + k * v) == (a + x * u) + k * (b + x * v)) by (nonlinear_arith);
    }
}

/// The quotient of `c(x) - c(y)` by `x - y`.
pub open spec fn quotient(c: Seq<int>, y: int) -> Seq<int>
    decreases c.len(),
{
    if c.len() <= 1 {
        Seq::empty()
    } else {
        plus_scaled(c.drop_first(), y, quotient(c.drop_first(), y))
    }
}

proof fn lemma_quotient_len(c: Seq<int>, y: int)
    ensures
        quotient(c, y).len() == (if c.len() == 0 {
            0
        } else {
            c.len() - 1
        }),
{
}

proof fn lemma_quotient(c: Seq<int>, x: int, y: int)
    ensures
        horner(c, x) - horner(c, y) == (x - y) * horner(quotient(c, y), x),
    decreases c.len(),
{
    if c.len() == 0 {
        assert((x - y) * 0 == 0) by (nonlinear_arith);
    } else if c.len() == 1 {
        let r = c.drop_first();
        assert(horner(r, x) == 0 && horner(r, y) == 0);
        assert(x * 0 == 0 && y * 0 == 0 && (x - y) * 0 == 0) by (nonlinear_arith);
    } else {
        let r = c.drop_first();
        let q = quotient(r, y);
        lemma_quotient(r, x, y);
        lemma_quotient_len(r, y);
        lemma_plus_scaled(r, y, q, x);
        let (u, v, w) = (horner(r, x), horner(r, y), horner(q, x));
        assert(x * u - y * v == (x - y) * (u + y * w)) by (nonlinear_arith)
            requires
                u - v == (x - y) * w,
        ;
    }
}

/// Counting a stronger statement, or below a smaller bound, counts no more.
pub proof fn lemma_count_below_le(
    n: nat,
    m: nat,
    bad: spec_fn(int) -> bool,
    worse: spec_fn(int) -> bool,
)
    requires
        n <= m,
        forall|x: int| 0 <= x < n && #[trigger] bad(x) ==> worse(x),
    ensures
        0 <= count_below(n, bad) <= count_below(m, worse),
    decreases m,
{
    let f = |x: int| indicator(bad(x));
    let g = |x: int| indicator(worse(x));
    if m > 0 {
        let k = (m - 1) as nat;
        assert(sigma(m, g) == sigma(k, g) + g(k as int));
        if n == m {
            lemma_count_below_le(k, k, bad, worse);
            assert(sigma(n, f) == sigma(k, f) + f(k as int));
            assert(bad(k as int) ==> worse(k as int));
        } else {
            lemma_count_below_le(n, k, bad, worse);
        }
    } else {
        assert(sigma(0, f) == 0 && sigma(0, g) == 0);
    }
}

/// A polynomial that does not vanish everywhere has fewer roots than it has
/// coefficients.
pub proof fn lemma_root_bound(c: Seq<int>, z: int)
    requires
        residue(horner(c, z)) != 0,
    ensures
        count_below(P as nat, is_root(c)) <= c.len() - 1,
    decreases c.len(),
{
    let roots = is_root(c);
    lemma_residue_small(0);
    assert(c.len() > 0);
    if count_below(P as nat, roots) >= 1 {
        let y = lemma_pick(P as nat, roots);
        let q = quotient(c, y);
        lemma_quotient_len(c, y);
        lemma_quotient(c, z, y);
        // `z` is not a root of the quotient either.
        assert(residue(horner(q, z)) != 0) by {
            if residue(horner(q, z)) == 0 {
                lemma_residue_mul(z - y, horner(q, z));
                assert(residue(z - y) * 0 == 0) by (nonlinear_arith);
                lemma_residue_difference(horner(c, z), horner(c, y));
            }
        }
        lemma_root_bound(q, z);
        // Every root below `y` is a root of the quotient.
        assert forall|x: int| 0 <= x < y && #[trigger] roots(x) implies is_root(q)(x) by {
            lemma_quotient(c, x, y);
            lemma_residue_difference(horner(c, x), horner(c, y));
            lemma_no_zero_divisors(x - y, horner(q, x));
            lemma_distinct(x, y);
            lemma_residue_difference(x, y);
        }
        lemma_count_below_le(y as nat, P as nat, roots, is_root(q));
    }
}

/// The coefficients of the product of all `x + a[i]`.
pub open spec fn shifted_product(a: Seq<int>) -> Seq<int>
    decreases a.len(),
{
    if a.len() == 0 {
        seq![1]
    } else {
        let c = shifted_product(a.drop_last());
        plus_scaled(seq![0int] + c, a.last(), c)
    }
}

/// The factors of the product at `x`.
pub open spec fn factors(a: Seq<int>, x: int) -> spec_fn(int) -> int {
    |i: int| x + a[i]
}

/// The polynomial is the product, and has one coefficient more than factors.
pub proof fn lemma_shifted_product(a: Seq<int>, x: int)
    ensures
        shifted_product(a).len() == a.len() + 1,
        horner(shifted_product(a), x) == pi(a.len(), factors(a, x)),
    decreases a.len(),
{
    if a.len() == 0 {
        assert(seq![1int].drop_first() =~= Seq::<int>::empty());
        assert(horner(seq![1int].drop_first(), x) == 0);
        assert(x * 0 == 0) by (nonlinear_arith);
    } else {
        let b = a.drop_last();
        let c = shifted_product(b);
        lemma_shifted_product(b, x);
        let s = seq![0int] + c;
        assert(s.drop_first() =~= c);
        lemma_plus_scaled(s, a.last(), c, x);
        let (u, k) = (horner(c, x), a.last());
        assert(0 + x * u + k * u == u * (x + k)) by (nonlinear_arith);
        crate::sums::lemma_pi_eq(b.len(), factors(b, x), factors(a, x));
    }
}

/// A product without a zero factor is not zero.
pub proof fn lemma_pi_nonzero(n: nat, f: spec_fn(int) -> int)
    requires
        forall|i: int| 0 <= i < n ==> residue(#[trigger] f(i)) != 0,
    ensures
        residue(pi(n, f)) != 0,
    decreases n,
{
    if n == 0 {
        lemma_residue_small(1);
    } else {
        lemma_pi_nonzero((n - 1) as nat, f);
        assert(residue(f(n - 1)) != 0);
        if residue(pi(n, f)) == 0 {
            lemma_no_zero_divisors(pi((n - 1) as nat, f), f(n - 1));
        }
    }
}

/// A product with a zero factor is zero.
pub proof fn lemma_pi_zero(n: nat, f: spec_fn(int) -> int, k: int)
    requires
        0 <= k < n,
        residue(f(k)) == 0,
    ensures
        residue(pi(n, f)) == 0,
    decreases n,
{
    let m = (n - 1) as nat;
    lemma_residue_small(0);
    lemma_residue_mul(pi(m, f), f(m as int));
    if k == m {
        assert(residue(pi(m, f)) * 0 == 0) by (nonlinear_arith);
    } else {
        lemma_pi_zero(m, f, k);
        assert(0 * residue(f(m as int)) == 0) by (nonlinear_arith);
    }
}

/// The two products have the same value at `x`.
pub open spec fn same_product(a: Seq<int>, b: Seq<int>) -> spec_fn(int) -> bool {
    |x: int| residue(pi(a.len(), factors(a, x))) == residue(pi(b.len(), factors(b, x)))
}

/// When a root of one product is not a root of the other, as many factors as
/// each has, the two have the same value at no more points than they have
/// factors.
pub proof fn lemma_products_differ(a: Seq<int>, b: Seq<int>, k: int)
    requires
        a.len() == b.len(),
        0 <= k < a.len(),
        forall|j: int| 0 <= j < b.len() ==> residue(#[trigger] b[j]) != residue(a[k]),
    ensures
        count_below(P as nat, same_product(a, b)) <= a.len(),
{
    let z = -a[k];
    let d = plus_scaled(shifted_product(a), -1, shifted_product(b));
    lemma_shifted_product(a, z);
    lemma_shifted_product(b, z);
    lemma_plus_scaled(shifted_product(a), -1, shifted_product(b), z);
    let (pa, pb) = (pi(a.len(), factors(a, z)), pi(b.len(), factors(b, z)));
    lemma_residue_small(0);
    assert(factors(a, z)(k) == 0);
    lemma_pi_zero(a.len(), factors(a, z), k);
    assert forall|j: int| 0 <= j < b.len() implies residue(#[trigger] factors(b, z)(j)) != 0 by {
        lemma_residue_difference(b[j], a[k]);
    }
    lemma_pi_nonzero(b.len(), factors(b, z));
    lemma_residue_difference(pa, pb);
    assert(pa + (-1) * pb == pa - pb);
    lemma_root_bound(d, z);
    assert forall|x: int| 0 <= x < P && #[trigger] same_product(a, b)(x) implies is_root(d)(x) by {
        lemma_shifted_product(a, x);
        lemma_shifted_product(b, x);
        lemma_plus_scaled(shifted_product(a), -1, shifted_product(b), x);
        let (qa, qb) = (pi(a.len(), factors(a, x)), pi(b.len(), factors(b, x)));
        lemma_residue_difference(qa, qb);
        assert(qa + (-1) * qb == qa - qb);
    }
    lemma_count_below_le(P as nat, P as nat, same_product(a, b), is_root(d));
}

} // verus!
