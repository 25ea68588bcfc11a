//! The modulus of the Goldilocks field is prime, so the field has no zero
//! divisors and a polynomial has no more roots than its degree.
//!
//! The element [`G`] has `G^(2^31) = -1`, so modulo any divisor `d > 1` of `P` its
//! powers run through `2^32` different nonzero residues and `d` exceeds `2^32`.
//! Two such divisors are too large for their product to be `P`.

use crate::field::{
    finv, inverse_pair, lemma_residue_difference, lemma_residue_mul, lemma_residue_residue,
    lemma_residue_small, residue, P,
};
use crate::goldilocks::{is_domain, product_vanishes};
use crate::sumcheck::cubic;
use vstd::arithmetic::div_mod::{
    lemma_fundamental_div_mod, lemma_fundamental_div_mod_converse, lemma_mod_multiples_basic,
    lemma_mul_mod_noop_general, lemma_small_mod,
};
use vstd::arithmetic::power::{lemma_pow0, lemma_pow1, lemma_pow_adds, lemma_pow_multiplies, pow};
use vstd::arithmetic::power2::{
    lemma2_to64, lemma_pow2_adds, lemma_pow2_pos, lemma_pow2_strictly_increases, lemma_pow2_unfold,
    pow2,
};
use vstd::prelude::*;

verus! {

/// An element of order `2^32`.
pub const G: u64 = 0x1856_29dc_da58_878c;

/// A combination of multiples is a multiple.
proof fn lemma_combine(x: int, a: int, y: int, b: int, d: int)
    requires
        d > 0,
        a % d == 0,
        b % d == 0,
    ensures
        (x * a + y * b) % d == 0,
{
    lemma_fundamental_div_mod(a, d);
    lemma_fundamental_div_mod(b, d);
    let (p, q) = (a / d, b / d);
    assert(x * a + y * b == (x * p + y * q) * d) by (nonlinear_arith)
        requires
            a == d * p,
            b == d * q,
    ;
    lemma_mod_multiples_basic(x * p + y * q, d);
}

/// Squaring a power of [`G`].
proof fn lemma_square(k: nat, c: int, c2: int)
    requires
        pow(G as int, pow2(k)) % (P as int) == c,
        (c * c) % (P as int) == c2,
    ensures
        pow(G as int, pow2(k + 1)) % (P as int) == c2,
{
    let x = pow(G as int, pow2(k));
    lemma_pow2_unfold(k + 1);
    lemma_pow_adds(G as int, pow2(k), pow2(k));
    lemma_mul_mod_noop_general(x, x, P as int);
}

/// `G^(2^31) = -1`.
pub proof fn lemma_half_order()
    ensures
        pow(G as int, pow2(31)) % (P as int) == P - 1,
{
    lemma2_to64();
    lemma_pow1(G as int);
    lemma_small_mod(G as nat, P as nat);
    lemma_square(0, 0x1856_29dc_da58_878c, 0x400a_7f75_5588_e659);
    lemma_square(1, 0x400a_7f75_5588_e659, 0x7e9b_d009_b86a_0845);
    lemma_square(2, 0x7e9b_d009_b86a_0845, 0xdfa8_c93b_a46d_2666);
    lemma_square(3, 0xdfa8_c93b_a46d_2666, 0x5904_9500_004a_4485);
    lemma_square(4, 0x5904_9500_004a_4485, 0x10d7_8dd8_915a_171d);
    lemma_square(5, 0x10d7_8dd8_915a_171d, 0xed41_d05b_78d6_e286);
    lemma_square(6, 0xed41_d05b_78d6_e286, 0x4bba_f597_6ecf_efd8);
    lemma_square(7, 0x4bba_f597_6ecf_efd8, 0x86cd_cc31_c307_e171);
    lemma_square(8, 0x86cd_cc31_c307_e171, 0xea9d_5a13_36fb_c98b);
    lemma_square(9, 0xea9d_5a13_36fb_c98b, 0x4b2a_18ad_e672_46b5);
    lemma_square(10, 0x4b2a_18ad_e672_46b5, 0xf502_aef5_3232_2654);
    lemma_square(11, 0xf502_aef5_3232_2654, 0x30ba_2ecd_5e93_e76d);
    lemma_square(12, 0x30ba_2ecd_5e93_e76d, 0xfbd4_1c6b_8caa_3302);
    lemma_square(13, 0xfbd4_1c6b_8caa_3302, 0x8128_1a7b_05f9_beac);
    lemma_square(14, 0x8128_1a7b_05f9_beac, 0xabd0_a6e8_aa3d_8a0e);
    lemma_square(15, 0xabd0_a6e8_aa3d_8a0e, 0x54df_9630_bf79_450e);
    lemma_square(16, 0x54df_9630_bf79_450e, 0xf6b2_cffe_2306_baac);
    lemma_square(17, 0xf6b2_cffe_2306_baac, 0xe0ee_0993_10bb_a1e2);
    lemma_square(18, 0xe0ee_0993_10bb_a1e2, 0x1544_ef23_35d1_7997);
    lemma_square(19, 0x1544_ef23_35d1_7997, 0xf2c3_5199_959d_fcb6);
    lemma_square(20, 0xf2c3_5199_959d_fcb6, 0x0653_b480_1da1_c8cf);
    lemma_square(21, 0x0653_b480_1da1_c8cf, 0x9d8f_2ad7_8bfe_d972);
    lemma_square(22, 0x9d8f_2ad7_8bfe_d972, 0x1905_d02a_5c41_1f4e);
    lemma_square(23, 0x1905_d02a_5c41_1f4e, 0xbf79_143c_e60c_a966);
    lemma_square(24, 0xbf79_143c_e60c_a966, 0xf800_07ff_0800_0001);
    lemma_square(25, 0xf800_07ff_0800_0001, 0x0000_0080_0000_0000);
    lemma_square(26, 0x0000_0080_0000_0000, 0x0000_3fff_ffff_c000);
    lemma_square(27, 0x0000_3fff_ffff_c000, 0xefff_ffff_0000_0001);
    lemma_square(28, 0xefff_ffff_0000_0001, 0xffff_fffe_ff00_0001);
    lemma_square(29, 0xffff_fffe_ff00_0001, 0x0001_0000_0000_0000);
    lemma_square(30, 0x0001_0000_0000_0000, 0xffff_ffff_0000_0000);
}

/// A power of something congruent to one.
proof fn lemma_power_of_one(a: int, n: nat, d: int)
    requires
        d > 0,
        (a - 1) % d == 0,
    ensures
        (pow(a, n) - 1) % d == 0,
    decreases n,
{
    if n == 0 {
        lemma_pow0(a);
        lemma_small_mod(0, d as nat);
    } else {
        let m = (n - 1) as nat;
        lemma_power_of_one(a, m, d);
        lemma_pow1(a);
        lemma_pow_adds(a, 1, m);
        lemma_combine(a, pow(a, m) - 1, 1, a - 1, d);
        assert(a * (pow(a, m) - 1) + 1 * (a - 1) == a * pow(a, m) - 1) by (nonlinear_arith);
    }
}

/// An odd power of something congruent to minus one.
proof fn lemma_power_of_minus_one(a: int, n: nat, d: int)
    requires
        d > 0,
        (a + 1) % d == 0,
        n % 2 == 1,
    ensures
        (pow(a, n) + 1) % d == 0,
    decreases n,
{
    lemma_pow1(a);
    if n > 1 {
        let m = (n - 2) as nat;
        lemma_power_of_minus_one(a, m, d);
        lemma_pow_adds(a, 1, 1);
        lemma_pow_adds(a, 2, m);
        lemma_combine(a * a, pow(a, m) + 1, 1 - a, a + 1, d);
        assert((a * a) * (pow(a, m) + 1) + (1 - a) * (a + 1) == a * a * pow(a, m) + 1)
            by (nonlinear_arith);
    }
}

/// The odd part of a number.
proof fn lemma_odd_part(m: nat) -> (r: (nat, nat))
    requires
        m > 0,
    ensures
        m == r.1 * pow2(r.0),
        r.1 % 2 == 1,
    decreases m,
{
    if m % 2 == 1 {
        lemma2_to64();
        assert(m * pow2(0) == m) by (nonlinear_arith)
            requires
                pow2(0) == 1,
        ;
        (0, m)
    } else {
        let (s, t) = lemma_odd_part(m / 2);
        lemma_pow2_unfold(s + 1);
        assert(t * (2 * pow2(s)) == 2 * (t * pow2(s))) by (nonlinear_arith);
        (s + 1, t)
    }
}

/// `G^(2^31)` is minus one modulo a divisor of `P`.
proof fn lemma_half_order_mod(d: int)
    requires
        d > 1,
        P as int % d == 0,
    ensures
        (pow(G as int, pow2(31)) + 1) % d == 0,
        (pow(G as int, pow2(32)) - 1) % d == 0,
        d != 2,
{
    lemma_half_order();
    let x = pow(G as int, pow2(31));
    let q = x / P as int;
    lemma_fundamental_div_mod(x, P as int);
    assert(x + 1 == (q + 1) * P + 0 * 0) by (nonlinear_arith)
        requires
            x == P * q + (P - 1),
    ;
    lemma_small_mod(0, d as nat);
    lemma_combine(q + 1, P as int, 0, 0, d);
    lemma_pow2_unfold(32);
    lemma_pow_adds(G as int, pow2(31), pow2(31));
    lemma_combine(x - 1, x + 1, 0, 0, d);
    assert((x - 1) * (x + 1) + 0 * 0 == x * x - 1) by (nonlinear_arith);
}

/// Modulo a divisor of `P`, no power of [`G`] below `2^32` is one.
proof fn lemma_order(m: nat, d: int)
    requires
        d > 1,
        P as int % d == 0,
        0 < m < 0x1_0000_0000,
    ensures
        (pow(G as int, m) - 1) % d != 0,
{
    let g = G as int;
    if (pow(g, m) - 1) % d == 0 {
        let (s, t) = lemma_odd_part(m);
        lemma2_to64();
        lemma_pow2_pos(s);
        assert(s <= 31) by {
            if s > 31 {
                if s > 32 {
                    lemma_pow2_strictly_increases(32, s);
                }
                assert(t * pow2(s) >= pow2(s)) by (nonlinear_arith)
                    requires
                        t >= 1,
                        pow2(s) >= 0,
                ;
            }
        }
        let u = (31 - s) as nat;
        lemma_half_order_mod(d);
        // Raised to the power `2^(31 - s)`, one stays one.
        lemma_power_of_one(pow(g, m), pow2(u), d);
        lemma_pow_multiplies(g, m, pow2(u));
        // And it is an odd power of minus one.
        lemma_power_of_minus_one(pow(g, pow2(31)), t, d);
        lemma_pow_multiplies(g, pow2(31), t);
        lemma_pow2_adds(s, u);
        let (ps, pu) = (pow2(s), pow2(u));
        assert((t * ps) * pu == (ps * pu) * t) by (nonlinear_arith);
        let y = pow(g, m * pu);
        lemma_combine(1, y + 1, -1, y - 1, d);
        assert(2int % d == 0);
        if d > 2 {
            lemma_small_mod(2, d as nat);
        }
    }
}

/// Modulo a divisor of `P`, the first `2^32` powers of [`G`] are not zero and
/// differ from one another.
proof fn lemma_powers_differ(i: nat, j: nat, d: int)
    requires
        d > 1,
        P as int % d == 0,
        i < 0x1_0000_0000,
        j < 0x1_0000_0000,
    ensures
        pow(G as int, i) % d != 0,
        i < j ==> pow(G as int, i) % d != pow(G as int, j) % d,
{
    let g = G as int;
    let n = 0x1_0000_0000nat;
    lemma2_to64();
    lemma_half_order_mod(d);
    lemma_small_mod(0, d as nat);
    let rest = pow(g, (n - i) as nat);
    lemma_pow_adds(g, i, (n - i) as nat);
    assert(pow(g, i) * rest == pow(g, n));
    if pow(g, i) % d == 0 {
        lemma_combine(rest, pow(g, i), -1, pow(g, n) - 1, d);
        assert(rest * pow(g, i) + (-1) * (pow(g, n) - 1) == 1) by (nonlinear_arith)
            requires
                pow(g, i) * rest == pow(g, n),
        ;
        lemma_small_mod(1, d as nat);
    }
    if i < j && pow(g, i) % d == pow(g, j) % d {
        let m = (j - i) as nat;
        lemma_pow_adds(g, i, m);
        let (a, b) = (pow(g, i), pow(g, m));
        assert((a * b - a) % d == 0) by {
            lemma_fundamental_div_mod(a, d);
            lemma_fundamental_div_mod(a * b, d);
            let (p, q) = (a / d, (a * b) / d);
            assert(a * b - a == (q - p) * d) by (nonlinear_arith)
                requires
                    a == d * p + a % d,
                    a * b == d * q + a % d,
            ;
            lemma_mod_multiples_basic(q - p, d);
        }
        lemma_combine(rest, a * b - a, -(b - 1), pow(g, n) - 1, d);
        assert(rest * (a * b - a) + (-(b - 1)) * (pow(g, n) - 1) == b - 1) by (nonlinear_arith)
            requires
                a * rest == pow(g, n),
        ;
        lemma_order(m, d);
    }
}

/// Every divisor of `P` but one is larger than `2^32`.
proof fn lemma_large_divisor(d: int)
    requires
        d > 1,
        P as int % d == 0,
    ensures
        d > 0x1_0000_0000,
{
    let n = 0x1_0000_0000nat;
    let s = Seq::new(n, |i: int| pow(G as int, i as nat) % d);
    assert forall|i: int, j: int| 0 <= i < j < s.len() implies s[i] != s[j] by {
        lemma_powers_differ(i as nat, j as nat, d);
    }
    assert(s.no_duplicates());
    s.unique_seq_to_set();
    let all = vstd::set_lib::set_int_range(1, d);
    vstd::set_lib::lemma_int_range(1, d);
    assert forall|x: int| s.to_set().contains(x) implies all.contains(x) by {
        let i = choose|i: int| 0 <= i < s.len() && s[i] == x;
        lemma_powers_differ(i as nat, i as nat, d);
        vstd::arithmetic::div_mod::lemma_mod_bound(pow(G as int, i as nat), d);
    }
    vstd::set_lib::lemma_len_subset(s.to_set(), all);
}

/// `P` is prime: it has no divisor but itself and one.
pub proof fn lemma_prime(d: int)
    requires
        d > 1,
        P as int % d == 0,
    ensures
        d == P,
{
    let e = P as int / d;
    lemma_fundamental_div_mod(P as int, d);
    if d != P {
        lemma_large_divisor(d);
        assert(e > 1) by (nonlinear_arith)
            requires
                P == d * e,
                d != P,
                d > 1,
        ;
        assert(P as int == d * e + 0);
        assert(P as int == e * d) by (nonlinear_arith)
            requires
                P == d * e,
        ;
        lemma_fundamental_div_mod_converse(P as int, e, d, 0);
        lemma_large_divisor(e);
        assert(d * e > P) by (nonlinear_arith)
            requires
                d > 0x1_0000_0000,
                e > 0x1_0000_0000,
        ;
    }
}

/// The least positive number whose product with `x` is a multiple of `P`.
proof fn lemma_least_annihilator(x: int, t: int) -> (r: int)
    requires
        t > 0,
        (x * t) % (P as int) == 0,
    ensures
        r > 0,
        (x * r) % (P as int) == 0,
        forall|s: int| 0 < s < r ==> #[trigger] (x * s) % (P as int) != 0,
    decreases t,
{
    if exists|s: int| 0 < s < t && #[trigger] (x * s) % (P as int) == 0 {
        let s = choose|s: int| 0 < s < t && #[trigger] (x * s) % (P as int) == 0;
        lemma_least_annihilator(x, s)
    } else {
        t
    }
}

/// The least annihilator divides every annihilator.
proof fn lemma_annihilator_divides(x: int, r: int, y: int)
    requires
        r > 0,
        (x * r) % (P as int) == 0,
        forall|s: int| 0 < s < r ==> #[trigger] (x * s) % (P as int) != 0,
        (x * y) % (P as int) == 0,
    ensures
        y % r == 0,
{
    let (q, s) = (y / r, y % r);
    lemma_fundamental_div_mod(y, r);
    lemma_combine(1, x * y, -q, x * r, P as int);
    assert(1 * (x * y) + (-q) * (x * r) == x * s) by (nonlinear_arith)
        requires
            y == r * q + s,
    ;
    assert((x * s) % (P as int) == 0);
}

/// The field has no zero divisors.
pub proof fn lemma_no_zero_divisors(x: int, y: int)
    requires
        residue(x * y) == 0,
    ensures
        residue(x) == 0 || residue(y) == 0,
{
    reveal(residue);
    let p = P as int;
    assert((x * p) % p == 0) by {
        lemma_mod_multiples_basic(x, p);
    }
    let r = lemma_least_annihilator(x, p);
    lemma_annihilator_divides(x, r, p);
    lemma_annihilator_divides(x, r, y);
    if r == 1 {
        assert(x * 1 == x) by (nonlinear_arith);
    } else {
        lemma_prime(r);
    }
}

/// A nonzero factor can be cancelled.
pub proof fn lemma_cancel_factor(x: int, y: int, z: int)
    requires
        residue(x) != residue(y),
        residue((x - y) * z) == 0,
    ensures
        residue(z) == 0,
{
    lemma_no_zero_divisors(x - y, z);
    lemma_residue_difference(x, y);
}

/// The integers modulo `P` have no zero divisors.
pub proof fn lemma_domain()
    ensures
        is_domain(P as int),
{
    assert forall|x: int, y: int| #[trigger] product_vanishes(P as int, x, y) implies x % (P as int)
        == 0 || y % (P as int) == 0 by {
        reveal(residue);
        lemma_no_zero_divisors(x, y);
    }
}

/// Every number between zero and `P` has an inverse.
proof fn lemma_some_inverse(x: int) -> (y: int)
    requires
        0 < x < P,
    ensures
        inverse_pair(x, y),
    decreases x,
{
    let p = P as int;
    if x == 1 {
        lemma_residue_small(1);
        1
    } else {
        let (q, r) = (p / x, p % x);
        lemma_fundamental_div_mod(p, x);
        if r == 0 {
            lemma_prime(x);
        }
        let s = lemma_some_inverse(r);
        let y = -(q * s);
        assert(x * y == r * s - s * p) by (nonlinear_arith)
            requires
                p == x * q + r,
                y == -(q * s),
        ;
        assert(residue(x * y) == residue(r * s)) by {
            reveal(residue);
            vstd::arithmetic::div_mod::lemma_mod_multiples_vanish(-s, r * s, p);
            assert(p * (-s) + r * s == r * s - s * p) by (nonlinear_arith);
        }
        y
    }
}

/// Every nonzero element has an inverse, and [`finv`] is it.
pub proof fn lemma_finv(x: int)
    requires
        residue(x) != 0,
    ensures
        inverse_pair(x, finv(x)),
        0 <= finv(x) < P,
{
    assert(0 <= residue(x) < P) by {
        reveal(residue);
    }
    let y = lemma_some_inverse(residue(x));
    let z = residue(y);
    assert(0 <= z < P) by {
        reveal(residue);
    }
    lemma_residue_mul(residue(x), y);
    lemma_residue_mul(x, y);
    lemma_residue_mul(x, z);
    lemma_residue_residue(x);
    lemma_residue_residue(y);
    assert(inverse_pair(x, z));
}

/// A multiple of something congruent to zero, plus another, is congruent to zero.
proof fn lemma_vanish(x: int, a: int, y: int, b: int)
    requires
        residue(a) == 0,
        residue(b) == 0,
    ensures
        residue(x * a + y * b) == 0,
{
    reveal(residue);
    lemma_combine(x, a, y, b, P as int);
}

/// A linear polynomial with two roots is zero.
pub proof fn lemma_linear_roots(a: int, b: int, x: int, y: int)
    requires
        residue(x) != residue(y),
        residue(a + b * x) == 0,
        residue(a + b * y) == 0,
    ensures
        residue(a) == 0,
        residue(b) == 0,
{
    lemma_vanish(1, a + b * x, -1, a + b * y);
    assert(1 * (a + b * x) + (-1) * (a + b * y) == (x - y) * b) by (nonlinear_arith);
    lemma_cancel_factor(x, y, b);
    lemma_vanish(1, a + b * x, -x, b);
    assert(1 * (a + b * x) + (-x) * b == a) by (nonlinear_arith);
}

/// A quadratic polynomial with three roots is zero.
pub proof fn lemma_quadratic_roots(a: int, b: int, c: int, x: int, y: int, z: int)
    requires
        residue(x) != residue(y),
        residue(x) != residue(z),
        residue(y) != residue(z),
        residue(a + b * x + c * x * x) == 0,
        residue(a + b * y + c * y * y) == 0,
        residue(a + b * z + c * z * z) == 0,
    ensures
        residue(a) == 0,
        residue(b) == 0,
        residue(c) == 0,
{
    let (px, py, pz) = (a + b * x + c * x * x, a + b * y + c * y * y, a + b * z + c * z * z);
    // Divided by `x - y` and by `x - z`, the differences are linear in `y` and `z`.
    lemma_vanish(1, px, -1, py);
    assert(1 * px + (-1) * py == (x - y) * ((b + c * x) + c * y)) by (nonlinear_arith)
        requires
            px == a + b * x + c * x * x,
            py == a + b * y + c * y * y,
    ;
    lemma_cancel_factor(x, y, (b + c * x) + c * y);
    lemma_vanish(1, px, -1, pz);
    assert(1 * px + (-1) * pz == (x - z) * ((b + c * x) + c * z)) by (nonlinear_arith)
        requires
            px == a + b * x + c * x * x,
            pz == a + b * z + c * z * z,
    ;
    lemma_cancel_factor(x, z, (b + c * x) + c * z);
    lemma_linear_roots(b + c * x, c, y, z);
    lemma_vanish(1, b + c * x, -x, c);
    assert(1 * (b + c * x) + (-x) * c == b) by (nonlinear_arith);
    lemma_vanish(1, px, -x, b + c * x);
    assert(1 * px + (-x) * (b + c * x) == a) by (nonlinear_arith)
        requires
            px == a + b * x + c * x * x,
    ;
}

/// A cubic polynomial with four roots is zero.
pub proof fn lemma_cubic_roots(a: int, b: int, c: int, d: int, w: int, x: int, y: int, z: int)
    requires
        residue(w) != residue(x),
        residue(w) != residue(y),
        residue(w) != residue(z),
        residue(x) != residue(y),
        residue(x) != residue(z),
        residue(y) != residue(z),
        residue(cubic(a, b, c, d, w)) == 0,
        residue(cubic(a, b, c, d, x)) == 0,
        residue(cubic(a, b, c, d, y)) == 0,
        residue(cubic(a, b, c, d, z)) == 0,
    ensures
        residue(a) == 0,
        residue(b) == 0,
        residue(c) == 0,
        residue(d) == 0,
{
    let (e, f) = (b + c * w + d * w * w, c + d * w);
    lemma_divided_cubic(a, b, c, d, w, x);
    lemma_divided_cubic(a, b, c, d, w, y);
    lemma_divided_cubic(a, b, c, d, w, z);
    lemma_quadratic_roots(e, f, d, x, y, z);
    lemma_vanish(1, f, -w, d);
    assert(1 * f + (-w) * d == c) by (nonlinear_arith)
        requires
            f == c + d * w,
    ;
    lemma_vanish(1, e, -w, f);
    assert(1 * e + (-w) * f == b) by (nonlinear_arith)
        requires
            e == b + c * w + d * w * w,
            f == c + d * w,
    ;
    let p = cubic(a, b, c, d, w);
    lemma_vanish(1, p, -w, e);
    assert(1 * p + (-w) * e == a) by (nonlinear_arith)
        requires
            p == a + b * w + c * w * w + d * w * w * w,
            e == b + c * w + d * w * w,
    ;
}

/// Two roots of a cubic polynomial: the second is a root of the quotient by the
/// first.
proof fn lemma_divided_cubic(a: int, b: int, c: int, d: int, w: int, x: int)
    requires
        residue(w) != residue(x),
        residue(cubic(a, b, c, d, w)) == 0,
        residue(cubic(a, b, c, d, x)) == 0,
    ensures
        residue((b + c * w + d * w * w) + (c + d * w) * x + d * x * x) == 0,
{
    let (p, q) = (cubic(a, b, c, d, w), cubic(a, b, c, d, x));
    let r = (b + c * w + d * w * w) + (c + d * w) * x + d * x * x;
    lemma_vanish(1, p, -1, q);
    let (e, f) = (c * w + c * x, d * w * w + d * w * x + d * x * x);
    assert((c + d * w) * x == c * x + d * w * x) by (nonlinear_arith);
    assert((w - x) * b == b * w - b * x) by (nonlinear_arith);
    assert((w - x) * (c * w + c * x) == c * w * w - c * x * x) by (nonlinear_arith);
    assert((w - x) * (d * w * w + d * w * x + d * x * x) == d * w * w * w - d * x * x * x)
        by (nonlinear_arith);
    assert((w - x) * (b + e + f) == (w - x) * b + (w - x) * e + (w - x) * f) by (nonlinear_arith);
    assert(1 * p + (-1) * q == (w - x) * r);
    lemma_cancel_factor(w, x, r);
}

} // verus!
