//! Roots of unity, and the transform taken twice.
//!
//! The inverse transform is the transform itself, with the entries after the
//! first turned around and divided by the height.

use super::dft::{dft_term, dft_value, two_adic_root};
use crate::field::{
    lemma_residue_add, lemma_residue_mul, lemma_residue_residue, lemma_residue_small, residue, P,
};
use crate::prime::{lemma_half_order, G};
use crate::sums::{
    lemma_sigma_eq, lemma_sigma_residue, lemma_sigma_scale, lemma_sigma_split, lemma_sigma_swap,
    sigma,
};
use vstd::arithmetic::power::{lemma_pow0, lemma_pow1, lemma_pow_adds, lemma_pow_multiplies, pow};
use vstd::arithmetic::power2::{lemma2_to64, lemma_pow2_pos, lemma_pow2_unfold, pow2};
use vstd::prelude::*;

verus! {

/// A power depends on its base up to congruence.
proof fn lemma_pow_residue(a: int, b: int, e: nat)
    requires
        residue(a) == residue(b),
    ensures
        residue(pow(a, e)) == residue(pow(b, e)),
    decreases e,
{
    if e == 0 {
        lemma_pow0(a);
        lemma_pow0(b);
    } else {
        let m = (e - 1) as nat;
        lemma_pow_residue(a, b, m);
        lemma_pow1(a);
        lemma_pow1(b);
        lemma_pow_adds(a, 1, m);
        lemma_pow_adds(b, 1, m);
        lemma_residue_mul(a, pow(a, m));
        lemma_residue_mul(b, pow(b, m));
    }
}

/// Every generator is a power of the last one.
proof fn lemma_root_power(bits: nat)
    requires
        bits <= 32,
    ensures
        two_adic_root(bits) == residue(pow(G as int, pow2((32 - bits) as nat))),
    decreases 32 - bits,
{
    let e = (32 - bits) as nat;
    if bits == 32 {
        lemma2_to64();
        lemma_pow1(G as int);
        lemma_residue_small(G as int);
    } else {
        lemma_root_power(bits + 1);
        let x = pow(G as int, pow2((e - 1) as nat));
        lemma_pow2_unfold(e);
        lemma_pow_adds(G as int, pow2((e - 1) as nat), pow2((e - 1) as nat));
        lemma_residue_mul(x, x);
    }
}

/// The square of a generator is the one before it.
proof fn lemma_root_square(bits: nat)
    requires
        1 <= bits <= 32,
    ensures
        residue(two_adic_root(bits) * two_adic_root(bits)) == two_adic_root((bits - 1) as nat),
{
}

/// The generator of order `2^bits` to the power of half its order is minus one.
pub proof fn lemma_root_half(bits: nat)
    requires
        1 <= bits <= 32,
    ensures
        residue(pow(two_adic_root(bits), pow2((bits - 1) as nat))) == P - 1,
{
    let (e, f) = ((32 - bits) as nat, (bits - 1) as nat);
    lemma_root_power(bits);
    let x = pow(G as int, pow2(e));
    lemma_residue_residue(x);
    lemma_pow_residue(two_adic_root(bits), x, pow2(f));
    lemma_pow_multiplies(G as int, pow2(e), pow2(f));
    vstd::arithmetic::power2::lemma_pow2_adds(e, f);
    lemma_half_order();
    reveal(residue);
}

/// Powers of minus one.
proof fn lemma_minus_one(a: int, d: nat)
    requires
        residue(a) == P - 1,
    ensures
        residue(pow(a, d)) == (if d % 2 == 0 {
            1int
        } else {
            P - 1
        }),
    decreases d,
{
    if d == 0 {
        lemma_pow0(a);
        lemma_residue_small(1);
    } else {
        let m = (d - 1) as nat;
        lemma_minus_one(a, m);
        lemma_pow1(a);
        lemma_pow_adds(a, 1, m);
        lemma_residue_mul(a, pow(a, m));
        if m % 2 == 0 {
            assert((P - 1) * 1 == P - 1);
            lemma_residue_small(P - 1);
        } else {
            reveal(residue);
            let p = P as int;
            assert((p - 1) * (p - 1) == (p - 2) * p + 1) by (nonlinear_arith);
            vstd::arithmetic::div_mod::lemma_fundamental_div_mod_converse(
                (p - 1) * (p - 1),
                p,
                p - 2,
                1,
            );
        }
    }
}

/// The terms of a sum of powers of the generator of order `2^lg`.
pub open spec fn unity_term(lg: nat, d: nat) -> spec_fn(int) -> int {
    |k: int| pow(two_adic_root(lg), d * k as nat)
}

/// The powers of the `d`-th power of the generator of order `2^lg` add up to
/// `2^lg` when `d` is a multiple of the order, and to zero otherwise.
pub proof fn lemma_unity_sum(lg: nat, d: nat)
    requires
        lg <= 32,
    ensures
        residue(sigma(pow2(lg), unity_term(lg, d))) == residue(
            if d as int % (pow2(lg) as int) == 0 {
                pow2(lg) as int
            } else {
                0
            },
        ),
    decreases lg,
{
    let f = unity_term(lg, d);
    let g = two_adic_root(lg);
    lemma2_to64();
    if lg == 0 {
        assert(sigma(1, f) == sigma(0, f) + f(0));
        assert(d * 0 == 0) by (nonlinear_arith);
        lemma_pow0(g);
    } else {
        let m = (lg - 1) as nat;
        let h = pow2(m);
        lemma_pow2_unfold(lg);
        lemma_pow2_pos(m);
        // The second half is the first times `g^(d * h)`.
        let tail = |k: int| f(h + k);
        lemma_sigma_split(h, h, f);
        lemma_root_half(lg);
        lemma_minus_one(pow(g, h), d);
        lemma_pow_multiplies(g, h, d);
        let c = pow(g, h * d);
        let scaled = |k: int| c * f(k);
        assert forall|k: int| 0 <= k < h implies #[trigger] tail(k) == scaled(k) by {
            let e = k as nat;
            assert(d * (h + e) == h * d + d * e) by (nonlinear_arith);
            lemma_pow_adds(g, h * d, d * e);
        }
        lemma_sigma_eq(h, tail, scaled);
        lemma_sigma_scale(h, c, f);
        let s = sigma(h, f);
        lemma_residue_mul(c, s);
        lemma_residue_small(1);
        lemma_residue_small(0);
        if d % 2 == 1 {
            lemma_residue_small(P - 1);
            lemma_residue_mul(P - 1, s);
            lemma_residue_add(s, c * s);
            lemma_residue_add(s, (P - 1) * s);
            assert(s + (P - 1) * s == P * s) by (nonlinear_arith);
            assert(residue(P * s) == 0) by {
                reveal(residue);
                vstd::arithmetic::div_mod::lemma_mod_multiples_basic(s, P as int);
                assert(P * s == s * P) by (nonlinear_arith);
            }
            assert(d as int % (2 * h as int) != 0) by {
                if d as int % (2 * h as int) == 0 {
                    vstd::arithmetic::div_mod::lemma_fundamental_div_mod(d as int, 2 * h as int);
                    let q = d as int / (2 * h as int);
                    assert(d == 2 * (h * q)) by (nonlinear_arith)
                        requires
                            d == (2 * h as int) * q,
                    ;
                }
            }
        } else {
            let e = (d / 2) as nat;
            lemma_unity_sum(m, e);
            let t = unity_term(m, e);
            assert forall|k: int| 0 <= k < h implies residue(#[trigger] f(k)) == residue(t(k)) by {
                let n = k as nat;
                lemma_root_square(lg);
                lemma_pow1(g);
                lemma_pow_adds(g, 1, 1);
                lemma_pow_multiplies(g, 2, e * n);
                assert(d * n == 2 * (e * n)) by (nonlinear_arith)
                    requires
                        d == 2 * e,
                ;
                lemma_residue_residue(g * g);
                lemma_pow_residue(pow(g, 2), two_adic_root(m), e * n);
            }
            lemma_sigma_residue(h, f, t);
            lemma_residue_mul(1, s);
            assert(1 * s == s);
            lemma_residue_add(s, c * s);
            lemma_residue_add(s, s);
            let b = if e as int % (h as int) == 0 {
                h as int
            } else {
                0
            };
            lemma_residue_add(b, b);
            assert((d as int % (2 * h as int) == 0) == (e as int % (h as int) == 0)) by {
                vstd::arithmetic::div_mod::lemma_truncate_middle(e as int, 2, h as int);
                assert(2 * (e as int % (h as int)) == d as int % (2 * h as int));
            }
        }
    }
}

/// The index that a second transform brings entry `i` from: zero to zero, and the
/// others turned around.
pub open spec fn turned(i: int, h: int) -> int {
    if i == 0 {
        0
    } else {
        h - i
    }
}

/// The transform taken twice: entry `i` is the height times the entry at the
/// turned index. Dividing by the height and turning the rows inverts the
/// transform.
pub proof fn lemma_dft_twice(x: Seq<int>, y: Seq<int>, lg: nat, i: int)
    requires
        lg <= 32,
        x.len() == y.len() == pow2(lg),
        0 <= i < x.len(),
        forall|k: int|
            0 <= k < y.len() ==> residue(#[trigger] y[k]) == residue(
                dft_value(x, two_adic_root(lg), k as nat),
            ),
    ensures
        residue(dft_value(y, two_adic_root(lg), i as nat)) == residue(
            pow2(lg) * x[turned(i, pow2(lg) as int)],
        ),
{
    let h = pow2(lg);
    let g = two_adic_root(lg);
    let n = i as nat;
    // sum_k y_k g^(ik), with the sums for y_k put in.
    let outer = dft_term(y, g, n);
    let both = |k: int, j: int| x[j] * pow(g, k as nat * j as nat) * pow(g, n * k as nat);
    let inner = |k: int| sigma(h, |j: int| both(k, j));
    assert forall|k: int| 0 <= k < h implies residue(#[trigger] outer(k)) == residue(inner(k)) by {
        let c = pow(g, n * k as nat);
        let t = dft_term(x, g, k as nat);
        lemma_sigma_scale(h, c, t);
        let (left, right) = (|j: int| c * t(j), |j: int| both(k, j));
        assert forall|j: int| 0 <= j < h implies #[trigger] left(j) == right(j) by {
            let u = pow(g, k as nat * j as nat);
            assert(c * (x[j] * u) == x[j] * u * c) by (nonlinear_arith);
        }
        lemma_sigma_eq(h, left, right);
        assert(inner(k) == c * dft_value(x, g, k as nat));
        lemma_residue_mul(y[k], c);
        lemma_residue_mul(dft_value(x, g, k as nat), c);
        assert(c * dft_value(x, g, k as nat) == dft_value(x, g, k as nat) * c) by (nonlinear_arith);
    }
    lemma_sigma_residue(h, outer, inner);
    lemma_sigma_swap(h, h, both);
    let by_entry = |j: int| sigma(h, |k: int| both(k, j));
    let target = turned(i, h as int);
    let picked = |j: int|
        if j == target {
            h * x[target]
        } else {
            0
        };
    assert forall|j: int| 0 <= j < h implies residue(#[trigger] by_entry(j)) == residue(picked(j)) by {
        let d = (n + j) as nat;
        let t = unity_term(lg, d);
        lemma_sigma_scale(h, x[j], t);
        assert forall|k: int| 0 <= k < h implies #[trigger] both(k, j) == x[j] * t(k) by {
            let (a, b) = (k as nat * j as nat, n * k as nat);
            lemma_pow_adds(g, a, b);
            assert(a + b == d * k as nat) by (nonlinear_arith)
                requires
                    a == k * j,
                    b == n * k,
                    d == n + j,
                    k >= 0,
                    j >= 0,
            ;
            let (u, v) = (pow(g, a), pow(g, b));
            assert(x[j] * u * v == x[j] * (u * v)) by (nonlinear_arith);
        }
        lemma_sigma_eq(h, |k: int| both(k, j), |k: int| x[j] * t(k));
        lemma_unity_sum(lg, d);
        let s = sigma(h, t);
        lemma_residue_mul(x[j], s);
        if j == target {
            assert(d as int % (h as int) == 0) by {
                if i == 0 {
                    vstd::arithmetic::div_mod::lemma_small_mod(0, h);
                } else {
                    vstd::arithmetic::div_mod::lemma_mod_self_0(h as int);
                }
            }
            lemma_residue_mul(x[j], h as int);
            assert(x[j] * h == h * x[j]) by (nonlinear_arith);
        } else {
            assert(d as int % (h as int) != 0) by {
                if d < h {
                    vstd::arithmetic::div_mod::lemma_small_mod(d, h);
                } else {
                    vstd::arithmetic::div_mod::lemma_fundamental_div_mod_converse(
                        d as int,
                        h as int,
                        1,
                        d - h,
                    );
                }
            }
            lemma_residue_mul(x[j], 0);
            assert(x[j] * 0 == 0) by (nonlinear_arith);
        }
    }
    lemma_sigma_residue(h, by_entry, picked);
    crate::lookup::lemma_sigma_pick(h, picked, target);
}

} // verus!
