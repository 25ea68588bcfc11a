//! How many challenges a false claim survives.
//!
//! Points are counted over the whole field: a claim about polynomials that is
//! false is accepted for at most a fraction of the challenges, the degree times
//! the number of variables over the size of the field.

use crate::field::{
    lemma_residue_add, lemma_residue_difference, lemma_residue_small, residue, residues, P,
};
use crate::matmul::{lemma_matmul_identity, product};
use crate::mle::{
    fix_all, fix_first, lemma_fix_all_len, lemma_mle_constant, lemma_mle_fix_first,
    lemma_partial_then_full, mle,
};
use crate::prime::{lemma_cubic_roots, lemma_linear_roots, lemma_quadratic_roots};
use crate::sumcheck::{
    accepts, accepts3, carried, carried3, cubic, cubic_coeff, dot, dot3, lemma_cubic_at,
    lemma_cubic_sum, lemma_dot3_single, lemma_dot_single, lemma_round_at, lemma_round_sum,
    round_coeffs, RoundPoly, RoundPoly3,
};
use crate::sums::sigma;
use vstd::arithmetic::power::{lemma_pow0, lemma_pow1, lemma_pow_adds, lemma_pow_positive, pow};
use vstd::arithmetic::power2::{lemma_pow2_adds, lemma_pow2_unfold, pow2};
use vstd::prelude::*;

verus! {

/// `P^t`, the number of points with `t` coordinates.
pub open spec fn points(t: nat) -> int {
    pow(P as int, t)
}

/// One for a true statement and zero for a false one.
pub open spec fn indicator(b: bool) -> int {
    if b {
        1
    } else {
        0
    }
}

/// The number of `x < n` that satisfy `bad`.
pub open spec fn count_below(n: nat, bad: spec_fn(int) -> bool) -> int {
    sigma(n, |x: int| indicator(bad(x)))
}

/// The statement about the remaining coordinates once the first is `x`.
pub open spec fn after(pred: spec_fn(Seq<int>) -> bool, x: int) -> spec_fn(Seq<int>) -> bool {
    |r: Seq<int>| pred(seq![x] + r)
}

/// The number of points with `t` coordinates in the field, the first of them
/// below `n`, that satisfy `pred`.
pub open spec fn count_prefix(t: nat, n: nat, pred: spec_fn(Seq<int>) -> bool) -> int
    decreases t, n,
{
    if t == 0 {
        indicator(pred(Seq::empty()))
    } else if n == 0 {
        0
    } else {
        count_prefix(t, (n - 1) as nat, pred) + count_prefix(
            (t - 1) as nat,
            P as nat,
            after(pred, n - 1),
        )
    }
}

/// The number of points with `t` coordinates in the field that satisfy `pred`.
pub open spec fn count_points(t: nat, pred: spec_fn(Seq<int>) -> bool) -> int {
    count_prefix(t, P as nat, pred)
}

/// The points, by their first coordinate.
pub proof fn lemma_count_slices(t: nat, n: nat, pred: spec_fn(Seq<int>) -> bool)
    requires
        t > 0,
    ensures
        count_prefix(t, n, pred) == sigma(n, slices(t, pred)),
    decreases n,
{
    if n > 0 {
        lemma_count_slices(t, (n - 1) as nat, pred);
    }
}

/// The number of points whose first coordinate is `x`.
pub open spec fn slices(t: nat, pred: spec_fn(Seq<int>) -> bool) -> spec_fn(int) -> int {
    |x: int| count_points((t - 1) as nat, after(pred, x))
}

/// A sum of terms that are bounded one by one.
pub proof fn lemma_sigma_le(n: nat, f: spec_fn(int) -> int, g: spec_fn(int) -> int)
    requires
        forall|i: int| 0 <= i < n ==> #[trigger] f(i) <= g(i),
    ensures
        sigma(n, f) <= sigma(n, g),
    decreases n,
{
    if n > 0 {
        let m = (n - 1) as nat;
        lemma_sigma_le(m, f, g);
        assert(f(m as int) <= g(m as int));
    }
}

/// There are at most as many points as there are points.
pub proof fn lemma_count_range(t: nat, pred: spec_fn(Seq<int>) -> bool)
    ensures
        0 <= count_points(t, pred) <= points(t),
    decreases t,
{
    if t == 0 {
        lemma_pow0(P as int);
    } else {
        let m = (t - 1) as nat;
        lemma_count_slices(t, P as nat, pred);
        let f = slices(t, pred);
        assert forall|x: int| 0 <= x < P implies 0 <= #[trigger] f(x) <= points(m) by {
            lemma_count_range(m, after(pred, x));
        }
        lemma_sigma_constant(P as nat, f, points(m));
        lemma_points(t);
    }
}

/// One more coordinate multiplies the number of points.
pub proof fn lemma_points(t: nat)
    requires
        t > 0,
    ensures
        points(t) == P * points((t - 1) as nat),
        points((t - 1) as nat) > 0,
{
    lemma_pow1(P as int);
    lemma_pow_adds(P as int, 1, (t - 1) as nat);
    lemma_pow_positive(P as int, (t - 1) as nat);
}

/// A sum of `n` terms between zero and `c`.
proof fn lemma_sigma_constant(n: nat, f: spec_fn(int) -> int, c: int)
    requires
        forall|i: int| 0 <= i < n ==> 0 <= #[trigger] f(i) <= c,
    ensures
        0 <= sigma(n, f) <= n * c,
    decreases n,
{
    if n > 0 {
        let m = (n - 1) as nat;
        lemma_sigma_constant(m, f, c);
        assert(0 <= f(m as int) <= c);
        assert(n * c == m * c + c) by (nonlinear_arith)
            requires
                n == m + 1,
        ;
    } else {
        assert(n * c == 0) by (nonlinear_arith)
            requires
                n == 0,
        ;
    }
}

/// A statement that implies another is satisfied by no more points.
pub proof fn lemma_count_implies(
    t: nat,
    pred: spec_fn(Seq<int>) -> bool,
    other: spec_fn(Seq<int>) -> bool,
)
    requires
        forall|r: Seq<int>| r.len() == t && #[trigger] pred(r) ==> other(r),
    ensures
        count_points(t, pred) <= count_points(t, other),
    decreases t,
{
    if t > 0 {
        let m = (t - 1) as nat;
        lemma_count_slices(t, P as nat, pred);
        let f = slices(t, pred);
        lemma_count_slices(t, P as nat, other);
        let g = slices(t, other);
        assert forall|x: int| 0 <= x < P implies #[trigger] f(x) <= g(x) by {
            assert forall|r: Seq<int>| r.len() == m && #[trigger] after(pred, x)(r) implies after(
                other,
                x,
            )(r) by {
                assert(pred(seq![x] + r));
            }
            lemma_count_implies(m, after(pred, x), after(other, x));
        }
        lemma_sigma_le(P as nat, f, g);
    } else {
        let r = Seq::<int>::empty();
        assert(pred(r) ==> other(r));
    }
}

/// No point satisfies a statement that is false throughout.
pub proof fn lemma_count_none(t: nat, pred: spec_fn(Seq<int>) -> bool)
    requires
        forall|r: Seq<int>| r.len() == t ==> !#[trigger] pred(r),
    ensures
        count_points(t, pred) == 0,
    decreases t,
{
    if t > 0 {
        let m = (t - 1) as nat;
        lemma_count_slices(t, P as nat, pred);
        let f = slices(t, pred);
        assert forall|x: int| 0 <= x < P implies 0 <= #[trigger] f(x) <= 0 by {
            assert forall|r: Seq<int>| r.len() == m implies !#[trigger] after(pred, x)(r) by {
                assert(!pred(seq![x] + r));
            }
            lemma_count_none(m, after(pred, x));
        }
        lemma_sigma_constant(P as nat, f, 0);
    } else {
        assert(!pred(Seq::<int>::empty()));
    }
}

/// The largest number below `n` that satisfies `bad`.
pub proof fn lemma_pick(n: nat, bad: spec_fn(int) -> bool) -> (x: int)
    requires
        count_below(n, bad) >= 1,
    ensures
        0 <= x < n,
        bad(x),
        count_below(x as nat, bad) == count_below(n, bad) - 1,
    decreases n,
{
    let f = |x: int| indicator(bad(x));
    if n == 0 {
        assert(sigma(0, f) == 0);
        0
    } else {
        let m = (n - 1) as nat;
        assert(sigma(n, f) == sigma(m, f) + f(m as int));
        if bad(m as int) {
            m as int
        } else {
            lemma_pick(m, bad)
        }
    }
}

/// One step of counting: when at most `d` values of the first coordinate are
/// bad, and for every other value the points over the remaining coordinates that
/// satisfy `pred` are at most a fraction `k / P` of them, then `pred` is
/// satisfied by at most a fraction `(d + k) / P` of all points.
pub proof fn lemma_count_step(
    t: nat,
    pred: spec_fn(Seq<int>) -> bool,
    bad: spec_fn(int) -> bool,
    d: int,
    k: int,
)
    requires
        t > 0,
        count_below(P as nat, bad) <= d,
        k >= 0,
        forall|x: int|
            0 <= x < P && !#[trigger] bad(x) ==> P * count_points((t - 1) as nat, after(pred, x))
                <= k * points((t - 1) as nat),
    ensures
        P * count_points(t, pred) <= (d + k) * points(t),
{
    let m = (t - 1) as nat;
    let c = points(m);
    lemma_points(t);
    lemma_count_slices(t, P as nat, pred);
        let f = slices(t, pred);
    assert forall|x: int| 0 <= x < P implies P * #[trigger] f(x) <= (P * c) * indicator(bad(x)) + k
        * c by {
        lemma_count_range(m, after(pred, x));
        assert(k * c >= 0) by (nonlinear_arith)
            requires
                k >= 0,
                c > 0,
        ;
        if bad(x) {
            assert(P * f(x) <= P * c) by (nonlinear_arith)
                requires
                    f(x) <= c,
            ;
            assert((P * c) * 1 == P * c);
        } else {
            assert((P * c) * 0 == 0);
        }
    }
    lemma_weighted_sum(P as nat, f, bad, P as int, P * c, k * c);
    let n = count_below(P as nat, bad);
    assert((P * c) * n + P * (k * c) <= (d + k) * (P * c)) by (nonlinear_arith)
        requires
            n <= d,
            c > 0,
    ;
}

/// Adding up bounds of the form of [`lemma_count_step`].
proof fn lemma_weighted_sum(
    n: nat,
    f: spec_fn(int) -> int,
    bad: spec_fn(int) -> bool,
    p: int,
    a: int,
    b: int,
)
    requires
        forall|x: int| 0 <= x < n ==> p * #[trigger] f(x) <= a * indicator(bad(x)) + b,
    ensures
        p * sigma(n, f) <= a * count_below(n, bad) + n * b,
    decreases n,
{
    let g = |x: int| indicator(bad(x));
    if n == 0 {
        assert(p * 0 == 0 && a * 0 == 0 && 0 * b == 0) by (nonlinear_arith);
        assert(sigma(0, f) == 0 && sigma(0, g) == 0);
    } else {
        let m = (n - 1) as nat;
        lemma_weighted_sum(m, f, bad, p, a, b);
        assert(sigma(n, f) == sigma(m, f) + f(m as int));
        assert(sigma(n, g) == sigma(m, g) + g(m as int));
        let (s, u, v, w) = (sigma(m, f), f(m as int), sigma(m, g), g(m as int));
        assert(p * u <= a * w + b);
        assert(p * (s + u) == p * s + p * u) by (nonlinear_arith);
        assert(a * (v + w) == a * v + a * w) by (nonlinear_arith);
        assert(n * b == m * b + b) by (nonlinear_arith)
            requires
                n == m + 1,
        ;
    }
}

/// Two numbers below `P` are congruent only when they are equal.
pub proof fn lemma_distinct(x: int, y: int)
    requires
        0 <= x < P,
        0 <= y < P,
        x != y,
    ensures
        residue(x) != residue(y),
{
    lemma_residue_small(x);
    lemma_residue_small(y);
}

/// Two tables over the same variables have the same value at a point.
pub open spec fn same_value(f: Seq<int>, g: Seq<int>) -> spec_fn(Seq<int>) -> bool {
    |r: Seq<int>| residue(mle(f, r)) == residue(mle(g, r))
}

/// Fixing the first variable to `x` makes the two tables congruent.
pub open spec fn merges(f: Seq<int>, g: Seq<int>) -> spec_fn(int) -> bool {
    |x: int| residues(fix_first(f, x)) == residues(fix_first(g, x))
}

/// Two tables that merge under two values of the first variable are congruent.
pub proof fn lemma_merge_once(f: Seq<int>, g: Seq<int>, x: int, y: int)
    requires
        f.len() == g.len(),
        f.len() % 2 == 0,
        residue(x) != residue(y),
        merges(f, g)(x),
        merges(f, g)(y),
    ensures
        residues(f) == residues(g),
{
    assert forall|i: int| 0 <= i < f.len() implies #[trigger] residue(f[i]) == residue(g[i]) by {
        let j = i / 2;
        let (f0, f1, g0, g1) = (f[2 * j], f[2 * j + 1], g[2 * j], g[2 * j + 1]);
        let (a, b) = (f0 - g0, (f1 - f0) - (g1 - g0));
        assert(residues(fix_first(f, x))[j] == residues(fix_first(g, x))[j]);
        assert(residues(fix_first(f, y))[j] == residues(fix_first(g, y))[j]);
        lemma_residue_difference(f0 + x * (f1 - f0), g0 + x * (g1 - g0));
        lemma_residue_difference(f0 + y * (f1 - f0), g0 + y * (g1 - g0));
        assert((f0 + x * (f1 - f0)) - (g0 + x * (g1 - g0)) == a + b * x) by (nonlinear_arith)
            requires
                a == f0 - g0,
                b == (f1 - f0) - (g1 - g0),
        ;
        assert((f0 + y * (f1 - f0)) - (g0 + y * (g1 - g0)) == a + b * y) by (nonlinear_arith)
            requires
                a == f0 - g0,
                b == (f1 - f0) - (g1 - g0),
        ;
        lemma_linear_roots(a, b, x, y);
        lemma_residue_add(a, b);
        lemma_residue_small(0);
        assert(a + b == f1 - g1);
        lemma_residue_difference(f0, g0);
        lemma_residue_difference(f1, g1);
        assert(i == 2 * j || i == 2 * j + 1);
    }
    assert(residues(f) =~= residues(g));
}

/// At most one value of the first variable makes different tables congruent.
pub proof fn lemma_few_merges(f: Seq<int>, g: Seq<int>)
    requires
        f.len() == g.len(),
        f.len() % 2 == 0,
        residues(f) != residues(g),
    ensures
        count_below(P as nat, merges(f, g)) <= 1,
{
    let bad = merges(f, g);
    if count_below(P as nat, bad) > 1 {
        let x = lemma_pick(P as nat, bad);
        let y = lemma_pick(x as nat, bad);
        lemma_distinct(x, y);
        lemma_merge_once(f, g, x, y);
    }
}

/// Two different tables over `t` variables have extensions that agree on at most
/// a fraction `t / P` of all points.
pub proof fn lemma_schwartz_zippel(f: Seq<int>, g: Seq<int>, t: nat)
    requires
        f.len() == g.len() == pow2(t),
        residues(f) != residues(g),
    ensures
        P * count_points(t, same_value(f, g)) <= t * points(t),
    decreases t,
{
    let pred = same_value(f, g);
    if t == 0 {
        vstd::arithmetic::power2::lemma2_to64();
        let none = Seq::<int>::empty();
        lemma_mle_constant(f, none);
        lemma_mle_constant(g, none);
        assert(residue(f[0]) != residue(g[0])) by {
            if residue(f[0]) == residue(g[0]) {
                assert(residues(f) =~= residues(g));
            }
        }
        assert forall|r: Seq<int>| r.len() == t implies !#[trigger] pred(r) by {
            assert(r =~= none);
        }
        lemma_count_none(t, pred);
        assert(0 * points(t) == 0) by (nonlinear_arith);
    } else {
        let m = (t - 1) as nat;
        lemma_pow2_unfold(t);
        let bad = merges(f, g);
        lemma_few_merges(f, g);
        assert forall|x: int| 0 <= x < P && !#[trigger] bad(x) implies P * count_points(
            m,
            after(pred, x),
        ) <= m * points(m) by {
            let (fx, gx) = (fix_first(f, x), fix_first(g, x));
            lemma_schwartz_zippel(fx, gx, m);
            assert forall|r: Seq<int>| r.len() == m && #[trigger] after(pred, x)(r) implies same_value(
                fx,
                gx,
            )(r) by {
                let s = seq![x] + r;
                assert(s.drop_first() =~= r);
                lemma_mle_fix_first(f, s);
                lemma_mle_fix_first(g, s);
            }
            lemma_count_implies(m, after(pred, x), same_value(fx, gx));
            assert(P * count_points(m, after(pred, x)) <= P * count_points(m, same_value(fx, gx)))
                by (nonlinear_arith)
                requires
                    count_points(m, after(pred, x)) <= count_points(m, same_value(fx, gx)),
            ;
        }
        lemma_count_step(t, pred, bad, 1, m as int);
    }
}

/// The messages of a prover that chooses each round polynomial in the light of
/// the challenges so far.
pub open spec fn messages(strategy: spec_fn(Seq<int>) -> RoundPoly, r: Seq<int>) -> Seq<RoundPoly> {
    Seq::new(r.len(), |k: int| strategy(r.take(k)))
}

/// The strategy for the remaining rounds once the first challenge is `x`.
pub open spec fn later(
    strategy: spec_fn(Seq<int>) -> RoundPoly,
    x: int,
) -> spec_fn(Seq<int>) -> RoundPoly {
    |r: Seq<int>| strategy(seq![x] + r)
}

/// The verifier accepts the prover's messages for the claim, with the true
/// evaluations, under the challenges.
pub open spec fn fooled(
    strategy: spec_fn(Seq<int>) -> RoundPoly,
    claimed: int,
    f: Seq<int>,
    h: Seq<int>,
) -> spec_fn(Seq<int>) -> bool {
    |r: Seq<int>| accepts(messages(strategy, r), claimed, r, mle(f, r), mle(h, r))
}

/// The verifier takes the rounds one at a time from the front.
proof fn lemma_accepts_front(
    rounds: Seq<RoundPoly>,
    claimed: int,
    r: Seq<int>,
    f_eval: int,
    h_eval: int,
)
    requires
        r.len() > 0,
        accepts(rounds, claimed, r, f_eval, h_eval),
    ensures
        residue(rounds[0].at(0) + rounds[0].at(1)) == residue(claimed),
        accepts(rounds.drop_first(), rounds[0].at(r[0]), r.drop_first(), f_eval, h_eval),
{
    let (rest, s, next) = (rounds.drop_first(), r.drop_first(), rounds[0].at(r[0]));
    assert(carried(rounds, claimed, r, 0) == residue(claimed));
    assert forall|k: int| 0 <= k <= s.len() implies #[trigger] carried(rest, next, s, k) == carried(
        rounds,
        claimed,
        r,
        k + 1,
    ) by {
        if k > 0 {
            assert(rest[k - 1] == rounds[k]);
            assert(s[k - 1] == r[k]);
        }
    }
    assert forall|k: int| 0 <= k < s.len() implies residue((#[trigger] rest[k]).at(0) + rest[k].at(1))
        == carried(rest, next, s, k) by {
        assert(rest[k] == rounds[k + 1]);
    }
}

/// The difference of a sent round polynomial and the honest one vanishes at `x`.
pub open spec fn passes(p: RoundPoly, f: Seq<int>, h: Seq<int>) -> spec_fn(int) -> bool {
    |x: int| residue(p.at(x)) == residue(dot(fix_first(f, x), fix_first(h, x)))
}

/// A round polynomial with the wrong sum has the value of the honest one at no
/// more than two challenges.
pub proof fn lemma_few_passes(p: RoundPoly, f: Seq<int>, h: Seq<int>)
    requires
        f.len() == h.len(),
        f.len() % 2 == 0,
        residue(p.at(0) + p.at(1)) != residue(dot(f, h)),
    ensures
        count_below(P as nat, passes(p, f, h)) <= 2,
{
    let bad = passes(p, f, h);
    if count_below(P as nat, bad) > 2 {
        let x = lemma_pick(P as nat, bad);
        let y = lemma_pick(x as nat, bad);
        let z = lemma_pick(y as nat, bad);
        lemma_distinct(x, y);
        lemma_distinct(x, z);
        lemma_distinct(y, z);
        let c = round_coeffs(f, h);
        let (a0, a1, a2) = (p.c0@ - c.0, p.c1@ - c.1, p.c2@ - c.2);
        lemma_gap(p, f, h, x);
        lemma_gap(p, f, h, y);
        lemma_gap(p, f, h, z);
        lemma_quadratic_roots(a0, a1, a2, x, y, z);
        lemma_round_sum(f, h);
        lemma_residue_small(0);
        lemma_residue_add(a0, a0);
        lemma_residue_add(a0 + a0, a1);
        lemma_residue_add(a0 + a0 + a1, a2);
        assert(p.at(0) == p.c0@ && p.at(1) == p.c0@ + p.c1@ + p.c2@) by (nonlinear_arith)
            requires
                p.at(0) == p.c0@ + p.c1@ * 0 + p.c2@ * 0 * 0,
                p.at(1) == p.c0@ + p.c1@ * 1 + p.c2@ * 1 * 1,
        ;
        lemma_residue_difference(p.at(0) + p.at(1), dot(f, h));
    }
}

/// The difference of the two polynomials at a challenge where they agree.
proof fn lemma_gap(p: RoundPoly, f: Seq<int>, h: Seq<int>, x: int)
    requires
        f.len() == h.len(),
        passes(p, f, h)(x),
    ensures
        ({
            let c = round_coeffs(f, h);
            residue((p.c0@ - c.0) + (p.c1@ - c.1) * x + (p.c2@ - c.2) * x * x) == 0
        }),
{
    let c = round_coeffs(f, h);
    lemma_round_at(f, h, x);
    let q = c.0 + c.1 * x + c.2 * x * x;
    lemma_residue_difference(p.at(x), q);
    let (b0, b1, b2) = (p.c0@, p.c1@, p.c2@);
    let (c0, c1, c2) = c;
    assert((b0 + b1 * x + b2 * x * x) - (c0 + c1 * x + c2 * x * x) == (b0 - c0) + (b1 - c1) * x + (
    b2 - c2) * x * x) by (nonlinear_arith);
}

/// Soundness of the sum-check: whatever strategy the prover follows, a false
/// claim about `t` variables is accepted for at most a fraction `2t / P` of the
/// challenges.
pub proof fn lemma_sumcheck_soundness(
    strategy: spec_fn(Seq<int>) -> RoundPoly,
    claimed: int,
    f: Seq<int>,
    h: Seq<int>,
    t: nat,
)
    requires
        f.len() == h.len() == pow2(t),
        residue(claimed) != residue(dot(f, h)),
    ensures
        P * count_points(t, fooled(strategy, claimed, f, h)) <= (2 * t) * points(t),
    decreases t,
{
    let pred = fooled(strategy, claimed, f, h);
    let none = Seq::<int>::empty();
    if t == 0 {
        vstd::arithmetic::power2::lemma2_to64();
        lemma_mle_constant(f, none);
        lemma_mle_constant(h, none);
        lemma_dot_single(f, h);
        assert forall|r: Seq<int>| r.len() == t implies !#[trigger] pred(r) by {
            assert(r =~= none);
            let rounds = messages(strategy, r);
            assert(carried(rounds, claimed, r, 0) == residue(claimed));
        }
        lemma_count_none(t, pred);
        assert(0 * points(t) == 0) by (nonlinear_arith);
    } else {
        let m = (t - 1) as nat;
        lemma_pow2_unfold(t);
        let p = strategy(none);
        if residue(p.at(0) + p.at(1)) != residue(claimed) {
            assert forall|r: Seq<int>| r.len() == t implies !#[trigger] pred(r) by {
                let rounds = messages(strategy, r);
                assert(r.take(0) =~= none);
                assert(rounds[0] == p);
                assert(carried(rounds, claimed, r, 0) == residue(claimed));
            }
            lemma_count_none(t, pred);
            vstd::arithmetic::power::lemma_pow_positive(P as int, t);
            assert((2 * t) * points(t) >= 0) by (nonlinear_arith)
                requires
                    points(t) > 0,
            ;
        } else {
            let bad = passes(p, f, h);
            lemma_few_passes(p, f, h);
            assert forall|x: int| 0 <= x < P && !#[trigger] bad(x) implies P * count_points(
                m,
                after(pred, x),
            ) <= (2 * m) * points(m) by {
                let (fx, hx) = (fix_first(f, x), fix_first(h, x));
                let rest = fooled(later(strategy, x), p.at(x), fx, hx);
                lemma_sumcheck_soundness(later(strategy, x), p.at(x), fx, hx, m);
                assert forall|r: Seq<int>| r.len() == m && #[trigger] after(pred, x)(r) implies rest(
                    r,
                ) by {
                    let s = seq![x] + r;
                    assert(s.drop_first() =~= r);
                    lemma_mle_fix_first(f, s);
                    lemma_mle_fix_first(h, s);
                    let rounds = messages(strategy, s);
                    assert(s.take(0) =~= none);
                    assert(rounds[0] == p);
                    lemma_accepts_front(rounds, claimed, s, mle(f, s), mle(h, s));
                    let sent = messages(later(strategy, x), r);
                    assert forall|k: int| 0 <= k < m implies rounds.drop_first()[k] == sent[k] by {
                        assert(s.take(k + 1) =~= seq![x] + r.take(k));
                    }
                    assert(rounds.drop_first() =~= sent);
                }
                lemma_count_implies(m, after(pred, x), rest);
                assert(P * count_points(m, after(pred, x)) <= P * count_points(m, rest))
                    by (nonlinear_arith)
                    requires
                        count_points(m, after(pred, x)) <= count_points(m, rest),
                ;
            }
            lemma_count_step(t, pred, bad, 2, (2 * m) as int);
        }
    }
}

/// The messages of a prover that chooses each round polynomial in the light of
/// the challenges so far.
pub open spec fn messages3(strategy: spec_fn(Seq<int>) -> RoundPoly3, r: Seq<int>) -> Seq<RoundPoly3> {
    Seq::new(r.len(), |k: int| strategy(r.take(k)))
}

/// The strategy for the remaining rounds once the first challenge is `x`.
pub open spec fn later3(
    strategy: spec_fn(Seq<int>) -> RoundPoly3,
    x: int,
) -> spec_fn(Seq<int>) -> RoundPoly3 {
    |r: Seq<int>| strategy(seq![x] + r)
}

/// The verifier accepts the prover's messages for the claim, with the true
/// evaluations, under the challenges.
pub open spec fn fooled3(
    strategy: spec_fn(Seq<int>) -> RoundPoly3,
    claimed: int,
    f: Seq<int>,
    g: Seq<int>,
    h: Seq<int>,
) -> spec_fn(Seq<int>) -> bool {
    |r: Seq<int>| accepts3(messages3(strategy, r), claimed, r, mle(f, r), mle(g, r), mle(h, r))
}

/// The verifier takes the rounds one at a time from the front.
proof fn lemma_accepts3_front(
    rounds: Seq<RoundPoly3>,
    claimed: int,
    r: Seq<int>,
    f_eval: int,
    g_eval: int,
    h_eval: int,
)
    requires
        r.len() > 0,
        accepts3(rounds, claimed, r, f_eval, g_eval, h_eval),
    ensures
        residue(rounds[0].at(0) + rounds[0].at(1)) == residue(claimed),
        accepts3(rounds.drop_first(), rounds[0].at(r[0]), r.drop_first(), f_eval, g_eval, h_eval),
{
    let (rest, s, next) = (rounds.drop_first(), r.drop_first(), rounds[0].at(r[0]));
    assert(carried3(rounds, claimed, r, 0) == residue(claimed));
    assert forall|k: int| 0 <= k <= s.len() implies #[trigger] carried3(rest, next, s, k) == carried3(
        rounds,
        claimed,
        r,
        k + 1,
    ) by {
        if k > 0 {
            assert(rest[k - 1] == rounds[k]);
            assert(s[k - 1] == r[k]);
        }
    }
    assert forall|k: int| 0 <= k < s.len() implies residue((#[trigger] rest[k]).at(0) + rest[k].at(1))
        == carried3(rest, next, s, k) by {
        assert(rest[k] == rounds[k + 1]);
    }
}

/// The difference of a sent round polynomial and the honest one vanishes at `x`.
pub open spec fn passes3(p: RoundPoly3, f: Seq<int>, g: Seq<int>, h: Seq<int>) -> spec_fn(int) -> bool {
    |x: int| residue(p.at(x)) == residue(dot3(fix_first(f, x), fix_first(g, x), fix_first(h, x)))
}

/// A round polynomial with the wrong sum has the value of the honest one at no
/// more than three challenges.
pub proof fn lemma_few_passes3(p: RoundPoly3, f: Seq<int>, g: Seq<int>, h: Seq<int>)
    requires
        f.len() == g.len() == h.len(),
        f.len() % 2 == 0,
        residue(p.at(0) + p.at(1)) != residue(dot3(f, g, h)),
    ensures
        count_below(P as nat, passes3(p, f, g, h)) <= 3,
{
    let bad = passes3(p, f, g, h);
    if count_below(P as nat, bad) > 3 {
        let w = lemma_pick(P as nat, bad);
        let x = lemma_pick(w as nat, bad);
        let y = lemma_pick(x as nat, bad);
        let z = lemma_pick(y as nat, bad);
        lemma_distinct(w, x);
        lemma_distinct(w, y);
        lemma_distinct(w, z);
        lemma_distinct(x, y);
        lemma_distinct(x, z);
        lemma_distinct(y, z);
        let (a0, a1, a2, a3) = gaps(p, f, g, h);
        lemma_gap3(p, f, g, h, w);
        lemma_gap3(p, f, g, h, x);
        lemma_gap3(p, f, g, h, y);
        lemma_gap3(p, f, g, h, z);
        lemma_cubic_roots(a0, a1, a2, a3, w, x, y, z);
        lemma_cubic_sum(f, g, h);
        lemma_residue_small(0);
        lemma_residue_add(a0, a0);
        lemma_residue_add(a0 + a0, a1);
        lemma_residue_add(a0 + a0 + a1, a2);
        lemma_residue_add(a0 + a0 + a1 + a2, a3);
        let (b0, b1, b2, b3) = (p.c0@, p.c1@, p.c2@, p.c3@);
        assert(b1 * 0 == 0 && b2 * 0 * 0 == 0 && b3 * 0 * 0 * 0 == 0) by (nonlinear_arith);
        assert(b1 * 1 == b1 && b2 * 1 * 1 == b2 && b3 * 1 * 1 * 1 == b3) by (nonlinear_arith);
        lemma_residue_difference(p.at(0) + p.at(1), dot3(f, g, h));
    }
}

/// The coefficients of the difference of a sent round polynomial and the honest
/// one.
spec fn gaps(p: RoundPoly3, f: Seq<int>, g: Seq<int>, h: Seq<int>) -> (int, int, int, int) {
    (
        p.c0@ - cubic_coeff(f, g, h, 0),
        p.c1@ - cubic_coeff(f, g, h, 1),
        p.c2@ - cubic_coeff(f, g, h, 2),
        p.c3@ - cubic_coeff(f, g, h, 3),
    )
}

/// The difference of the two polynomials at a challenge where they agree.
proof fn lemma_gap3(p: RoundPoly3, f: Seq<int>, g: Seq<int>, h: Seq<int>, x: int)
    requires
        f.len() == g.len() == h.len(),
        passes3(p, f, g, h)(x),
    ensures
        ({
            let (a0, a1, a2, a3) = gaps(p, f, g, h);
            residue(cubic(a0, a1, a2, a3, x)) == 0
        }),
{
    let (c0, c1, c2, c3) = (
        cubic_coeff(f, g, h, 0),
        cubic_coeff(f, g, h, 1),
        cubic_coeff(f, g, h, 2),
        cubic_coeff(f, g, h, 3),
    );
    lemma_cubic_at(f, g, h, x);
    lemma_residue_difference(p.at(x), cubic(c0, c1, c2, c3, x));
    let (b0, b1, b2, b3) = (p.c0@, p.c1@, p.c2@, p.c3@);
    assert(b1 * x - c1 * x == (b1 - c1) * x) by (nonlinear_arith);
    assert(b2 * x * x - c2 * x * x == (b2 - c2) * x * x) by (nonlinear_arith);
    assert(b3 * x * x * x - c3 * x * x * x == (b3 - c3) * x * x * x) by (nonlinear_arith);
}

/// Soundness of the sum-check for a triple product: whatever strategy the prover follows, a false
/// claim about `t` variables is accepted for at most a fraction `3t / P` of the
/// challenges.
pub proof fn lemma_sumcheck3_soundness(
    strategy: spec_fn(Seq<int>) -> RoundPoly3,
    claimed: int,
    f: Seq<int>,
    g: Seq<int>,
    h: Seq<int>,
    t: nat,
)
    requires
        f.len() == g.len() == h.len() == pow2(t),
        residue(claimed) != residue(dot3(f, g, h)),
    ensures
        P * count_points(t, fooled3(strategy, claimed, f, g, h)) <= (3 * t) * points(t),
    decreases t,
{
    let pred = fooled3(strategy, claimed, f, g, h);
    let none = Seq::<int>::empty();
    if t == 0 {
        vstd::arithmetic::power2::lemma2_to64();
        lemma_mle_constant(f, none);
        lemma_mle_constant(g, none);
        lemma_mle_constant(h, none);
        lemma_dot3_single(f, g, h);
        assert forall|r: Seq<int>| r.len() == t implies !#[trigger] pred(r) by {
            assert(r =~= none);
            let rounds = messages3(strategy, r);
            assert(carried3(rounds, claimed, r, 0) == residue(claimed));
        }
        lemma_count_none(t, pred);
        assert(0 * points(t) == 0) by (nonlinear_arith);
    } else {
        let m = (t - 1) as nat;
        lemma_pow2_unfold(t);
        let p = strategy(none);
        if residue(p.at(0) + p.at(1)) != residue(claimed) {
            assert forall|r: Seq<int>| r.len() == t implies !#[trigger] pred(r) by {
                let rounds = messages3(strategy, r);
                assert(r.take(0) =~= none);
                assert(rounds[0] == p);
                assert(carried3(rounds, claimed, r, 0) == residue(claimed));
            }
            lemma_count_none(t, pred);
            vstd::arithmetic::power::lemma_pow_positive(P as int, t);
            assert((3 * t) * points(t) >= 0) by (nonlinear_arith)
                requires
                    points(t) > 0,
            ;
        } else {
            let bad = passes3(p, f, g, h);
            lemma_few_passes3(p, f, g, h);
            assert forall|x: int| 0 <= x < P && !#[trigger] bad(x) implies P * count_points(
                m,
                after(pred, x),
            ) <= (3 * m) * points(m) by {
                let (fx, gx, hx) = (fix_first(f, x), fix_first(g, x), fix_first(h, x));
                let rest = fooled3(later3(strategy, x), p.at(x), fx, gx, hx);
                lemma_sumcheck3_soundness(later3(strategy, x), p.at(x), fx, gx, hx, m);
                assert forall|r: Seq<int>| r.len() == m && #[trigger] after(pred, x)(r) implies rest(
                    r,
                ) by {
                    let s = seq![x] + r;
                    assert(s.drop_first() =~= r);
                    lemma_mle_fix_first(f, s);
                    lemma_mle_fix_first(g, s);
                    lemma_mle_fix_first(h, s);
                    let rounds = messages3(strategy, s);
                    assert(s.take(0) =~= none);
                    assert(rounds[0] == p);
                    lemma_accepts3_front(rounds, claimed, s, mle(f, s), mle(g, s), mle(h, s));
                    let sent = messages3(later3(strategy, x), r);
                    assert forall|k: int| 0 <= k < m implies rounds.drop_first()[k] == sent[k] by {
                        assert(s.take(k + 1) =~= seq![x] + r.take(k));
                    }
                    assert(rounds.drop_first() =~= sent);
                }
                lemma_count_implies(m, after(pred, x), rest);
                assert(P * count_points(m, after(pred, x)) <= P * count_points(m, rest))
                    by (nonlinear_arith)
                    requires
                        count_points(m, after(pred, x)) <= count_points(m, rest),
                ;
            }
            lemma_count_step(t, pred, bad, 3, (3 * m) as int);
        }
    }
}

/// The verifier accepts a matmul proof for the claim, with the true evaluations of
/// the factors, under the challenges.
pub open spec fn matmul_fooled(
    strategy: spec_fn(Seq<int>) -> RoundPoly,
    claimed: int,
    at: Seq<int>,
    b: Seq<int>,
    u: Seq<int>,
    v: Seq<int>,
) -> spec_fn(Seq<int>) -> bool {
    |r: Seq<int>| accepts(messages(strategy, r), claimed, r, mle(at, u + r), mle(b, v + r))
}

/// Soundness of the matmul reduction: whatever strategy the prover follows, a
/// claim that is not the value of the product at `(v, u)` is accepted for at most
/// a fraction `2t / P` of the challenges, with `2^t` the inner dimension.
pub proof fn lemma_matmul_soundness(
    strategy: spec_fn(Seq<int>) -> RoundPoly,
    claimed: int,
    at: Seq<int>,
    b: Seq<int>,
    m: nat,
    n: nat,
    u: Seq<int>,
    v: Seq<int>,
    t: nat,
)
    requires
        at.len() == pow2(t) * m,
        b.len() == pow2(t) * n,
        m == pow2(u.len()),
        n == pow2(v.len()),
        residue(claimed) != residue(mle(product(at, b, m, pow2(t), n), v + u)),
    ensures
        P * count_points(t, matmul_fooled(strategy, claimed, at, b, u, v)) <= (2 * t) * points(t),
{
    let k = pow2(t);
    let (f, h) = (fix_all(at, u), fix_all(b, v));
    lemma_matmul_identity(at, b, m, k, n, u, v);
    lemma_fix_all_len(at, u, k);
    lemma_fix_all_len(b, v, k);
    lemma_sumcheck_soundness(strategy, claimed, f, h, t);
    let pred = matmul_fooled(strategy, claimed, at, b, u, v);
    assert forall|r: Seq<int>| r.len() == t && #[trigger] pred(r) implies fooled(
        strategy,
        claimed,
        f,
        h,
    )(r) by {
        lemma_pow2_adds(u.len(), t);
        lemma_pow2_adds(v.len(), t);
        assert(k * m == m * k && k * n == n * k) by (nonlinear_arith);
        lemma_partial_then_full(at, u, r);
        lemma_partial_then_full(b, v, r);
    }
    lemma_count_implies(t, pred, fooled(strategy, claimed, f, h));
    assert(P * count_points(t, pred) <= P * count_points(t, fooled(strategy, claimed, f, h)))
        by (nonlinear_arith)
        requires
            count_points(t, pred) <= count_points(t, fooled(strategy, claimed, f, h)),
    ;
}

/// A matrix that is not the product has the value of the product at no more than
/// a fraction `t / P` of the points `(v, u)` of `t` coordinates.
pub proof fn lemma_wrong_product(
    at: Seq<int>,
    b: Seq<int>,
    c: Seq<int>,
    m: nat,
    k: nat,
    n: nat,
    t: nat,
)
    requires
        m * n == pow2(t),
        c.len() == m * n,
        residues(c) != residues(product(at, b, m, k, n)),
    ensures
        P * count_points(t, same_value(c, product(at, b, m, k, n))) <= t * points(t),
{
    lemma_schwartz_zippel(c, product(at, b, m, k, n), t);
}

/// Coordinates that a statement does not speak of multiply the points that satisfy it
/// by their own number: here `m` of them, after the first `a`.
pub proof fn lemma_count_insert(
    a: nat,
    m: nat,
    b: nat,
    pred: spec_fn(Seq<int>) -> bool,
    q: spec_fn(Seq<int>) -> bool,
)
    requires
        forall|r: Seq<int>|
            r.len() == a + m + b && #[trigger] pred(r) ==> q(
                r.take(a as int) + r.skip((a + m) as int),
            ),
    ensures
        count_points(a + m + b, pred) <= points(m) * count_points(a + b, q),
    decreases a + m,
{
    if a > 0 {
        let c = (a - 1) as nat;
        lemma_count_slices(a + m + b, P as nat, pred);
        lemma_count_slices(a + b, P as nat, q);
        let (f, g) = (slices(a + m + b, pred), slices(a + b, q));
        let scaled = |x: int| points(m) * g(x);
        assert forall|x: int| 0 <= x < P implies #[trigger] f(x) <= scaled(x) by {
            assert forall|r: Seq<int>|
                r.len() == c + m + b && #[trigger] after(pred, x)(r) implies after(q, x)(
                r.take(c as int) + r.skip((c + m) as int),
            ) by {
                let s = seq![x] + r;
                assert(pred(s));
                assert(s.take(a as int) + s.skip((a + m) as int) =~= seq![x] + (r.take(c as int)
                    + r.skip((c + m) as int)));
            }
            lemma_count_insert(c, m, b, after(pred, x), after(q, x));
        }
        crate::sums::lemma_sigma_scale(P as nat, points(m), g);
        lemma_sigma_le(P as nat, f, scaled);
    } else if m > 0 {
        let k = (m - 1) as nat;
        let whole = count_points(b, q);
        lemma_count_range(b, q);
        lemma_points(m);
        lemma_count_slices(m + b, P as nat, pred);
        let f = slices(m + b, pred);
        assert forall|x: int| 0 <= x < P implies 0 <= #[trigger] f(x) <= points(k) * whole by {
            lemma_count_range((m + b - 1) as nat, after(pred, x));
            assert forall|r: Seq<int>|
                r.len() == 0 + k + b && #[trigger] after(pred, x)(r) implies q(
                r.take(0) + r.skip((0 + k) as int),
            ) by {
                let s = seq![x] + r;
                assert(pred(s));
                assert(s.take(0) + s.skip(m as int) =~= r.take(0) + r.skip(k as int));
            }
            lemma_count_insert(0, k, b, after(pred, x), q);
        }
        lemma_sigma_constant(P as nat, f, points(k) * whole);
        assert(P * (points(k) * whole) == (P * points(k)) * whole) by (nonlinear_arith);
    } else {
        lemma_pow0(P as int);
        assert forall|r: Seq<int>| r.len() == b && #[trigger] pred(r) implies q(r) by {
            assert(r.take(0) + r.skip(0) =~= r);
        }
        lemma_count_implies(b, pred, q);
    }
}

/// The fraction of the points that satisfy a statement does not change with
/// coordinates that it does not speak of.
pub proof fn lemma_fraction_insert(
    a: nat,
    m: nat,
    b: nat,
    pred: spec_fn(Seq<int>) -> bool,
    q: spec_fn(Seq<int>) -> bool,
    c: int,
)
    requires
        forall|r: Seq<int>|
            r.len() == a + m + b && #[trigger] pred(r) ==> q(
                r.take(a as int) + r.skip((a + m) as int),
            ),
        P * count_points(a + b, q) <= c * points(a + b),
    ensures
        P * count_points(a + m + b, pred) <= c * points(a + m + b),
{
    lemma_count_insert(a, m, b, pred, q);
    lemma_pow_adds(P as int, m, a + b);
    lemma_pow_positive(P as int, m);
    let (x, y, k, w) = (
        count_points(a + m + b, pred),
        count_points(a + b, q),
        points(m),
        points(a + b),
    );
    assert(points(a + m + b) == k * w);
    assert(P * x <= c * (k * w)) by (nonlinear_arith)
        requires
            x <= k * y,
            P * y <= c * w,
            k > 0,
    ;
}

/// A statement that implies one of two others is satisfied by no more points than the
/// two together.
pub proof fn lemma_count_either(
    t: nat,
    pred: spec_fn(Seq<int>) -> bool,
    a: spec_fn(Seq<int>) -> bool,
    b: spec_fn(Seq<int>) -> bool,
)
    requires
        forall|r: Seq<int>| r.len() == t && #[trigger] pred(r) ==> a(r) || b(r),
    ensures
        count_points(t, pred) <= count_points(t, a) + count_points(t, b),
    decreases t,
{
    if t > 0 {
        let m = (t - 1) as nat;
        lemma_count_slices(t, P as nat, pred);
        lemma_count_slices(t, P as nat, a);
        lemma_count_slices(t, P as nat, b);
        let (f, g, h) = (slices(t, pred), slices(t, a), slices(t, b));
        let both = |x: int| g(x) + h(x);
        assert forall|x: int| 0 <= x < P implies #[trigger] f(x) <= both(x) by {
            assert forall|r: Seq<int>| r.len() == m && #[trigger] after(pred, x)(r) implies after(
                a,
                x,
            )(r) || after(b, x)(r) by {
                assert(pred(seq![x] + r));
            }
            lemma_count_either(m, after(pred, x), after(a, x), after(b, x));
        }
        lemma_sigma_le(P as nat, f, both);
        crate::sums::lemma_sigma_add(P as nat, g, h);
    } else {
        let r = Seq::<int>::empty();
        assert(pred(r) ==> a(r) || b(r));
    }
}

/// The same for fractions of the points.
pub proof fn lemma_fraction_either(
    t: nat,
    pred: spec_fn(Seq<int>) -> bool,
    a: spec_fn(Seq<int>) -> bool,
    b: spec_fn(Seq<int>) -> bool,
    c: int,
    d: int,
)
    requires
        forall|r: Seq<int>| r.len() == t && #[trigger] pred(r) ==> a(r) || b(r),
        P * count_points(t, a) <= c * points(t),
        P * count_points(t, b) <= d * points(t),
    ensures
        P * count_points(t, pred) <= (c + d) * points(t),
{
    lemma_count_either(t, pred, a, b);
    let (x, y, z, w) = (count_points(t, pred), count_points(t, a), count_points(t, b), points(t));
    assert(P * x <= (c + d) * w) by (nonlinear_arith)
        requires
            x <= y + z,
            P * y <= c * w,
            P * z <= d * w,
    ;
}

/// A statement that implies a rare one is rare, and the more so for a larger bound.
pub proof fn lemma_fraction_implies(
    t: nat,
    pred: spec_fn(Seq<int>) -> bool,
    other: spec_fn(Seq<int>) -> bool,
    c: int,
    d: int,
)
    requires
        forall|r: Seq<int>| r.len() == t && #[trigger] pred(r) ==> other(r),
        P * count_points(t, other) <= c * points(t),
        c <= d,
    ensures
        P * count_points(t, pred) <= d * points(t),
{
    lemma_count_implies(t, pred, other);
    lemma_pow_positive(P as int, t);
    let (x, y, w) = (count_points(t, pred), count_points(t, other), points(t));
    assert(P * x <= d * w) by (nonlinear_arith)
        requires
            x <= y,
            P * y <= c * w,
            c <= d,
            w > 0,
    ;
}

/// The products of the extensions of two pairs of tables have the same value at a
/// point.
pub open spec fn same_products(
    f: Seq<int>,
    g: Seq<int>,
    u: Seq<int>,
    v: Seq<int>,
) -> spec_fn(Seq<int>) -> bool {
    |r: Seq<int>| residue(mle(f, r) * mle(g, r)) == residue(mle(u, r) * mle(v, r))
}

/// The difference of the products of two pairs of values that move along lines.
spec fn line_gap(f: (int, int), g: (int, int), u: (int, int), v: (int, int), x: int) -> int {
    (f.0 + x * (f.1 - f.0)) * (g.0 + x * (g.1 - g.0)) - (u.0 + x * (u.1 - u.0)) * (v.0 + x * (v.1
        - v.0))
}

proof fn lemma_line_product(a: int, b: int, c: int, d: int, x: int)
    ensures
        (a + x * b) * (c + x * d) == a * c + (a * d + b * c) * x + (b * d) * x * x,
{
    let (p, q) = (x * b, x * d);
    assert((a + p) * (c + q) == a * c + a * q + p * c + p * q) by (nonlinear_arith);
    assert(a * (x * d) == (a * d) * x) by (nonlinear_arith);
    assert((x * b) * c == (b * c) * x) by (nonlinear_arith);
    assert((a * d + b * c) * x == (a * d) * x + (b * c) * x) by (nonlinear_arith);
    assert((x * b) * (x * d) == (b * d) * x * x) by (nonlinear_arith);
}

/// Where such a difference is not zero at both ends of the lines, it is zero at no
/// more than two values.
proof fn lemma_line_gap(f: (int, int), g: (int, int), u: (int, int), v: (int, int))
    requires
        residue(f.0 * g.0 - u.0 * v.0) != 0 || residue(f.1 * g.1 - u.1 * v.1) != 0,
    ensures
        count_below(P as nat, |x: int| residue(line_gap(f, g, u, v, x)) == 0) <= 2,
{
    let bad = |x: int| residue(line_gap(f, g, u, v, x)) == 0;
    let a = f.0 * g.0 - u.0 * v.0;
    let b = f.0 * (g.1 - g.0) + (f.1 - f.0) * g.0 - u.0 * (v.1 - v.0) - (u.1 - u.0) * v.0;
    let c = (f.1 - f.0) * (g.1 - g.0) - (u.1 - u.0) * (v.1 - v.0);
    assert forall|x: int| #[trigger] line_gap(f, g, u, v, x) == a + b * x + c * x * x by {
        let (f0, g0, u0, v0) = (f.0, g.0, u.0, v.0);
        let (fd, gd, ud, vd) = (f.1 - f.0, g.1 - g.0, u.1 - u.0, v.1 - v.0);
        let (p, q) = (f0 * gd + fd * g0, u0 * vd + ud * v0);
        let (k, l) = (fd * gd, ud * vd);
        lemma_line_product(f0, fd, g0, gd, x);
        lemma_line_product(u0, ud, v0, vd, x);
        assert((p - q) * x + (k - l) * x * x == (p * x + k * x * x) - (q * x + l * x * x))
            by (nonlinear_arith);
    }
    if count_below(P as nat, bad) > 2 {
        let x = lemma_pick(P as nat, bad);
        let y = lemma_pick(x as nat, bad);
        let z = lemma_pick(y as nat, bad);
        lemma_distinct(x, y);
        lemma_distinct(x, z);
        lemma_distinct(y, z);
        assert(line_gap(f, g, u, v, x) == a + b * x + c * x * x);
        assert(line_gap(f, g, u, v, y) == a + b * y + c * y * y);
        assert(line_gap(f, g, u, v, z) == a + b * z + c * z * z);
        lemma_quadratic_roots(a, b, c, x, y, z);
        assert(line_gap(f, g, u, v, 1) == a + b * 1 + c * 1 * 1);
        assert(line_gap(f, g, u, v, 1) == f.1 * g.1 - u.1 * v.1) by {
            assert(1 * (f.1 - f.0) == f.1 - f.0 && 1 * (g.1 - g.0) == g.1 - g.0);
            assert(1 * (u.1 - u.0) == u.1 - u.0 && 1 * (v.1 - v.0) == v.1 - v.0);
        }
        lemma_residue_add(a, b);
        lemma_residue_add(a + b, c);
        lemma_residue_small(0);
    }
}

/// Two pairs of tables whose products differ at some entry have extensions whose
/// products agree on at most a fraction `2t / P` of all points.
pub proof fn lemma_products_agree_rarely(
    f: Seq<int>,
    g: Seq<int>,
    u: Seq<int>,
    v: Seq<int>,
    t: nat,
    k: int,
)
    requires
        f.len() == g.len() == u.len() == v.len() == pow2(t),
        0 <= k < f.len(),
        residue(f[k] * g[k]) != residue(u[k] * v[k]),
    ensures
        P * count_points(t, same_products(f, g, u, v)) <= (2 * t) * points(t),
    decreases t,
{
    let pred = same_products(f, g, u, v);
    lemma_residue_difference(f[k] * g[k], u[k] * v[k]);
    if t == 0 {
        vstd::arithmetic::power2::lemma2_to64();
        assert forall|r: Seq<int>| r.len() == t implies !#[trigger] pred(r) by {
            lemma_mle_constant(f, r);
            lemma_mle_constant(g, r);
            lemma_mle_constant(u, r);
            lemma_mle_constant(v, r);
        }
        lemma_count_none(t, pred);
        assert((2 * t) * points(t) == 0) by (nonlinear_arith)
            requires
                t == 0,
        ;
    } else {
        let m = (t - 1) as nat;
        lemma_pow2_unfold(t);
        let j = k / 2;
        let (fp, gp) = ((f[2 * j], f[2 * j + 1]), (g[2 * j], g[2 * j + 1]));
        let (up, vp) = ((u[2 * j], u[2 * j + 1]), (v[2 * j], v[2 * j + 1]));
        let bad = |x: int| residue(line_gap(fp, gp, up, vp, x)) == 0;
        assert(k == 2 * j || k == 2 * j + 1);
        lemma_line_gap(fp, gp, up, vp);
        assert forall|x: int| 0 <= x < P && !#[trigger] bad(x) implies P * count_points(
            m,
            after(pred, x),
        ) <= (2 * m) * points(m) by {
            let (fx, gx, ux, vx) = (
                fix_first(f, x),
                fix_first(g, x),
                fix_first(u, x),
                fix_first(v, x),
            );
            lemma_residue_difference(fx[j] * gx[j], ux[j] * vx[j]);
            lemma_products_agree_rarely(fx, gx, ux, vx, m, j);
            assert forall|r: Seq<int>|
                r.len() == m && #[trigger] after(pred, x)(r) implies same_products(
                fx,
                gx,
                ux,
                vx,
            )(r) by {
                let s = seq![x] + r;
                assert(s.drop_first() =~= r);
                lemma_mle_fix_first(f, s);
                lemma_mle_fix_first(g, s);
                lemma_mle_fix_first(u, s);
                lemma_mle_fix_first(v, s);
            }
            lemma_fraction_implies(
                m,
                after(pred, x),
                same_products(fx, gx, ux, vx),
                (2 * m) as int,
                (2 * m) as int,
            );
        }
        lemma_count_step(t, pred, bad, 2, (2 * m) as int);
    }
}

} // verus!
