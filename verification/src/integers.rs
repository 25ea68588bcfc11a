//! Signed integer arithmetic of the quantized layers: rounding division, bit
//! decomposition and sums of embedded values.

use crate::field::{residue, Goldilocks, P};
use crate::fixed_point::{signed, to_i32, wrap};
use crate::sums::sigma;
use vstd::arithmetic::power2::{lemma_pow2_pos, lemma_pow2_unfold, pow2};
use vstd::prelude::*;

verus! {

/// `a / b` rounded to the nearest integer, ties toward positive infinity.
pub open spec fn round_div(a: int, b: int) -> int {
    (2 * a + b) / (2 * b)
}

/// A bound that keeps every intermediate value inside 128 bits.
pub const WIDE: i128 = 0x6000_0000_0000_0000_0000_0000_0000_0000;

/// Rounds `a / b` to the nearest integer, ties toward positive infinity. This
/// convention gives a remainder in `[-b/2, b/2)`, which the sub-linear round
/// range-check relies on.
pub fn div_round(a: i128, b: i128) -> (q: i128)
    requires
        0 < b <= 0x1_0000_0000_0000_0000,
        -WIDE < a < WIDE,
    ensures
        q == round_div(a as int, b as int),
{
    let (q, r): (i128, i128) = floor_div(a, b);
    proof {
        let (a, b, q, r) = (a as int, b as int, q as int, r as int);
        assert(2 * a + b == (2 * b) * q + (2 * r + b)) by (nonlinear_arith)
            requires
                a == b * q + r,
        ;
        if 2 * r >= b {
            assert((2 * b) * q + (2 * r + b) == (2 * b) * (q + 1) + (2 * r - b))
                by (nonlinear_arith);
            vstd::arithmetic::div_mod::lemma_fundamental_div_mod_converse(
                2 * a + b,
                2 * b,
                q + 1,
                2 * r - b,
            );
        } else {
            vstd::arithmetic::div_mod::lemma_fundamental_div_mod_converse(
                2 * a + b,
                2 * b,
                q,
                2 * r + b,
            );
        }
    }
    if r * 2 >= b {
        q + 1
    } else {
        q
    }
}

/// Division rounding down, with a remainder in `[0, b)`.
pub fn floor_div(a: i128, b: i128) -> (r: (i128, i128))
    requires
        0 < b <= 0x1_0000_0000_0000_0000,
        -WIDE < a < WIDE,
    ensures
        r.0 == a as int / b as int,
        r.1 == a as int % b as int,
        a == b * r.0 + r.1,
        0 <= r.1 < b,
        -WIDE <= r.0 < WIDE,
{
    if a >= 0 {
        let (x, y): (u128, u128) = (a as u128, b as u128);
        proof {
            vstd::arithmetic::div_mod::lemma_fundamental_div_mod(a as int, b as int);
            vstd::arithmetic::div_mod::lemma_div_is_ordered_by_denominator(a as int, 1, b as int);
            vstd::arithmetic::div_mod::lemma_div_pos_is_pos(a as int, b as int);
        }
        ((x / y) as i128, (x % y) as i128)
    } else {
        let m: u128 = (0 - (a + 1)) as u128;
        let y: u128 = b as u128;
        let (mq, mr): (u128, u128) = (m / y, m % y);
        proof {
            let (mi, bi) = (m as int, b as int);
            vstd::arithmetic::div_mod::lemma_fundamental_div_mod(mi, bi);
            vstd::arithmetic::div_mod::lemma_div_is_ordered_by_denominator(mi, 1, bi);
            vstd::arithmetic::div_mod::lemma_div_pos_is_pos(mi, bi);
            let (q, r) = (-(mq as int) - 1, bi - 1 - mr);
            assert(a as int == bi * q + r) by (nonlinear_arith)
                requires
                    mi == bi * mq + mr,
                    mi == -(a as int + 1),
                    q == -(mq as int) - 1,
                    r == bi - 1 - mr,
            ;
            vstd::arithmetic::div_mod::lemma_fundamental_div_mod_converse(a as int, bi, q, r);
        }
        (0 - (mq as i128) - 1, b - 1 - (mr as i128))
    }
}

/// The remainder of a rounded division lies in `[-b/2, b/2)`.
pub proof fn lemma_round_remainder(a: int, b: int)
    requires
        b > 0,
    ensures
        -b <= 2 * (a - round_div(a, b) * b) < b,
{
    let q = round_div(a, b);
    vstd::arithmetic::div_mod::lemma_fundamental_div_mod(2 * a + b, 2 * b);
    vstd::arithmetic::div_mod::lemma_mod_bound(2 * a + b, 2 * b);
    assert((2 * b) * q == 2 * (q * b)) by (nonlinear_arith);
}

/// The rounded quotient is the only integer with such a remainder.
pub proof fn lemma_round_unique(a: int, b: int, q: int)
    requires
        b > 0,
        -b <= 2 * (a - q * b) < b,
    ensures
        q == round_div(a, b),
{
    assert(q * (2 * b) == 2 * (q * b)) by (nonlinear_arith);
    vstd::arithmetic::div_mod::lemma_fundamental_div_mod_converse(
        2 * a + b,
        2 * b,
        q,
        2 * a + b - 2 * (q * b),
    );
}

/// The low 32 bits of an integer as a signed number.
pub fn low_i32(v: i128) -> (r: i32)
    requires
        -WIDE < v < WIDE,
    ensures
        r as int == wrap(v as int, 0x1_0000_0000),
{
    let (_, r): (i128, i128) = floor_div(v, 0x1_0000_0000);
    if r >= 0x8000_0000 {
        (r - 0x1_0000_0000) as i32
    } else {
        r as i32
    }
}

/// The low 32 bits of an integer as an unsigned number.
pub fn low_u32(v: i128) -> (r: u32)
    requires
        -WIDE < v < WIDE,
    ensures
        r as int == v as int % 0x1_0000_0000,
{
    let (_, r): (i128, i128) = floor_div(v, 0x1_0000_0000);
    r as u32
}

/// Embeds an integer in the field.
pub fn from_i128(v: i128) -> (r: Goldilocks)
    requires
        -WIDE < v < WIDE,
    ensures
        r@ == residue(v as int),
{
    let (_, r): (i128, i128) = floor_div(v, P as i128);
    proof {
        reveal(residue);
    }
    Goldilocks::from_u64(r as u64)
}

/// The integer that a field value stands for as an `i32`.
pub open spec fn as_i32(v: int) -> int {
    wrap(signed(v, i32::MAX as int), 0x1_0000_0000)
}

/// The integer that a field value stands for as an `i64`.
pub open spec fn as_i64(v: int) -> int {
    signed(v, i64::MAX as int)
}

/// The `i32` values of the first `n` entries of a table.
pub open spec fn i32_at(x: Seq<int>) -> spec_fn(int) -> int {
    |i: int| as_i32(x[i])
}

/// The squares of the `i32` values of a table, less `m`.
pub open spec fn i32_square_at(x: Seq<int>, m: int) -> spec_fn(int) -> int {
    |i: int| (as_i32(x[i]) - m) * (as_i32(x[i]) - m)
}

/// The sum of the first `n` entries, read as `i32` values.
pub open spec fn i32_sum(x: Seq<int>, n: nat) -> int {
    sigma(n, i32_at(x))
}

/// The sum of the squared distances of the first `n` entries from `m`.
pub open spec fn i32_square_sum(x: Seq<int>, n: nat, m: int) -> int {
    sigma(n, i32_square_at(x, m))
}

/// Sums the first `n` entries, read as `i32` values.
pub fn sum_i32(x: &[Goldilocks], n: usize) -> (s: i128)
    requires
        n <= x@.len(),
    ensures
        s == i32_sum(crate::field::ints(x@), n as nat),
        -0x8000_0000 * n <= s <= 0x7fff_ffff * n,
{
    let ghost f = i32_at(crate::field::ints(x@));
    let mut s: i128 = 0;
    for i in 0..n
        invariant
            n <= x@.len(),
            f == i32_at(crate::field::ints(x@)),
            s == sigma(i as nat, f),
            -0x8000_0000 * i <= s <= 0x7fff_ffff * i,
    {
        let v: i32 = to_i32(x[i]);
        assert(f(i as int) == v as int);
        s = s + v as i128;
    }
    s
}

/// Sums the squares of the first `n` entries, read as `i32` values.
pub fn sum_squares_i32(x: &[Goldilocks], n: usize) -> (s: i128)
    requires
        n <= x@.len(),
    ensures
        s == i32_square_sum(crate::field::ints(x@), n as nat, 0),
        0 <= s <= 0x4000_0000_0000_0000 * n,
{
    let ghost f = i32_square_at(crate::field::ints(x@), 0);
    let mut s: i128 = 0;
    for i in 0..n
        invariant
            n <= x@.len(),
            f == i32_square_at(crate::field::ints(x@), 0),
            s == sigma(i as nat, f),
            0 <= s <= 0x4000_0000_0000_0000 * i,
    {
        let d: i128 = to_i32(x[i]) as i128;
        assert(0 <= d * d <= 0x4000_0000_0000_0000) by (nonlinear_arith)
            requires
                -0x8000_0000 <= d <= 0x8000_0000,
        ;
        assert(f(i as int) == d * d) by {
            assert((d - 0) * (d - 0) == d * d);
        }
        s = s + d * d;
    }
    s
}

/// The sum of the squared distances of `n` entries from their rounded mean `m`,
/// out of their sum `s1` and the sum of their squares `s2`:
/// `s2 - 2 m s1 + n m^2`.
pub(crate) fn about_mean(
    s2: i128,
    s1: i128,
    m: i32,
    n: usize,
    Ghost(x): Ghost<Seq<int>>,
) -> (s: i128)
    requires
        n > 0,
        s1 == i32_sum(x, n as nat),
        s2 == i32_square_sum(x, n as nat, 0),
        -0x8000_0000 * n <= s1 <= 0x7fff_ffff * n,
        0 <= s2 <= 0x4000_0000_0000_0000 * n,
        m == round_div(s1 as int, n as int),
    ensures
        s == i32_square_sum(x, n as nat, m as int),
        0 <= s <= s2,
{
    let (k, c): (i128, i128) = (m as i128, n as i128);
    proof {
        lemma_square_sum_expand(x, n as nat, m as int);
        lemma_square_sum_range(x, n as nat, m as int);
        lemma_round_remainder(s1 as int, n as int);
        lemma_about_mean(s1 as int, m as int, n as int);
    }
    s2 + k * (c * k - 2 * s1)
}

/// The terms of [`about_mean`] stay inside 128 bits, and the correction to the sum
/// of squares is not positive.
proof fn lemma_about_mean(s: int, m: int, n: int)
    requires
        0 < n <= 0x1_0000_0000_0000_0000,
        i32::MIN <= m <= i32::MAX,
        -0x8000_0000 * n <= s <= 0x7fff_ffff * n,
        -n <= 2 * (s - m * n) < n,
    ensures
        -0x8000_0000_0000_0000_0000_0000 <= n * m <= 0x8000_0000_0000_0000_0000_0000,
        -0x7000_0000_0000_0000_0000_0000_0000_0000 <= m * (n * m - 2 * s) <= 0,
        m * (n * m - 2 * s) == -(2 * m * s) + n * m * m,
{
    let d = s - m * n;
    assert(n * m == m * n) by (nonlinear_arith);
    assert(-0x8000_0000_0000_0000_0000_0000 <= n * m <= 0x8000_0000_0000_0000_0000_0000)
        by (nonlinear_arith)
        requires
            0 < n <= 0x1_0000_0000_0000_0000,
            -0x8000_0000 <= m <= 0x8000_0000,
    ;
    assert(m * (n * m - 2 * s) == -(2 * m * s) + n * m * m) by (nonlinear_arith);
    // m * (n m - 2 s) = -(n m^2 + 2 m d), and |2 m d| is at most n |m|.
    let w = n * m - 2 * s;
    assert(w == -(m * n) - 2 * d);
    assert(m * w == -(n * (m * m)) - m * (2 * d)) by (nonlinear_arith)
        requires
            w == -(m * n) - 2 * d,
    ;
    let a = if m < 0 {
        -m
    } else {
        m
    };
    assert(-(n * a) <= m * (2 * d) <= n * a) by (nonlinear_arith)
        requires
            -n <= 2 * d <= n,
            (m >= 0 && a == m) || (m < 0 && a == -m),
    ;
    assert(a <= m * m <= 0x4000_0000_0000_0000) by (nonlinear_arith)
        requires
            (m >= 0 && a == m) || (m < 0 && a == -m),
            -0x8000_0000 <= m <= 0x8000_0000,
    ;
    assert(n * a <= n * (m * m)) by (nonlinear_arith)
        requires
            n > 0,
            a <= m * m,
    ;
    assert(0 <= n * (m * m) <= 0x4000_0000_0000_0000_0000_0000_0000_0000) by (nonlinear_arith)
        requires
            0 < n <= 0x1_0000_0000_0000_0000,
            0 <= m * m <= 0x4000_0000_0000_0000,
    ;
    assert(n * a <= 0x1000_0000_0000_0000_0000_0000_0000_0000) by (nonlinear_arith)
        requires
            0 < n <= 0x1_0000_0000_0000_0000,
            0 <= a <= 0x8000_0000,
    ;
}

/// The rounded mean of `i32` values is an `i32` value.
pub proof fn lemma_mean_range(s: int, n: int)
    requires
        n > 0,
        -0x8000_0000 * n <= s <= 0x7fff_ffff * n,
    ensures
        i32::MIN <= round_div(s, n) <= i32::MAX,
{
    let q = round_div(s, n);
    lemma_round_remainder(s, n);
    assert(-0x8000_0000 <= q <= 0x7fff_ffff) by (nonlinear_arith)
        requires
            -n <= 2 * (s - q * n) < n,
            -0x8000_0000 * n <= s <= 0x7fff_ffff * n,
            n > 0,
    ;
}

/// A sum of squares is not negative, and bounded by the number of terms.
pub proof fn lemma_square_sum_range(x: Seq<int>, n: nat, m: int)
    requires
        i32::MIN <= m <= i32::MAX,
    ensures
        0 <= i32_square_sum(x, n, m) <= 0x1_0000_0000_0000_0000 * n,
    decreases n,
{
    if n > 0 {
        lemma_square_sum_range(x, (n - 1) as nat, m);
        let d = as_i32(x[n - 1]) - m;
        assert(0 <= d * d <= 0x1_0000_0000_0000_0000) by (nonlinear_arith)
            requires
                -0x1_0000_0000 < d < 0x1_0000_0000,
        ;
    }
}

/// The sum of squared distances from `m`, expanded.
pub proof fn lemma_square_sum_expand(x: Seq<int>, n: nat, m: int)
    ensures
        i32_square_sum(x, n, m) == i32_square_sum(x, n, 0) - 2 * m * i32_sum(x, n) + n * m * m,
    decreases n,
{
    if n > 0 {
        let k = (n - 1) as nat;
        lemma_square_sum_expand(x, k, m);
        let v = as_i32(x[k as int]);
        let s = i32_sum(x, k);
        assert((v - m) * (v - m) == (v - 0) * (v - 0) - 2 * m * v + m * m) by (nonlinear_arith);
        assert(2 * m * (s + v) == 2 * m * s + 2 * m * v) by (nonlinear_arith);
        assert((k + 1) * m * m == k * m * m + m * m) by (nonlinear_arith);
    } else {
        assert(2 * m * 0 == 0 && 0 * m * m == 0) by (nonlinear_arith);
    }
}

/// `v` shifted right by `j` bits, rounding down.
pub open spec fn shifted_right(v: int, j: nat) -> int
    decreases j,
{
    if j == 0 {
        v
    } else {
        shifted_right(v, (j - 1) as nat) / 2
    }
}

/// Bit `j` of the two's complement of `v`.
pub open spec fn bit(v: int, j: nat) -> int {
    shifted_right(v, j) % 2
}

/// The low `c` bits of `v` and the rest recompose it.
pub proof fn lemma_recompose(v: int, c: nat)
    ensures
        sigma(c, |j: int| pow2(j as nat) * bit(v, j as nat)) == v - pow2(c) * shifted_right(v, c),
    decreases c,
{
    let f = |j: int| pow2(j as nat) * bit(v, j as nat);
    if c == 0 {
        vstd::arithmetic::power2::lemma2_to64();
        assert(1 * v == v);
    } else {
        let k = (c - 1) as nat;
        lemma_recompose(v, k);
        lemma_pow2_unfold(c);
        let (p, q) = (pow2(k) as int, shifted_right(v, k));
        assert(q == 2 * (q / 2) + q % 2);
        assert(p * q == (2 * p) * (q / 2) + p * (q % 2)) by (nonlinear_arith)
            requires
                q == 2 * (q / 2) + q % 2,
        ;
        assert(f(k as int) == p * (q % 2));
    }
}

/// The low `c` bits of `v` are its remainder modulo `2^c`.
pub proof fn lemma_low_bits(v: int, c: nat)
    ensures
        sigma(c, |j: int| pow2(j as nat) * bit(v, j as nat)) == v % (pow2(c) as int),
    decreases c,
{
    lemma_recompose(v, c);
    lemma_pow2_pos(c);
    lemma_low_bits_range(v, c);
    let s = sigma(c, |j: int| pow2(j as nat) * bit(v, j as nat));
    vstd::arithmetic::div_mod::lemma_fundamental_div_mod_converse(
        v,
        pow2(c) as int,
        shifted_right(v, c),
        s,
    );
}

proof fn lemma_low_bits_range(v: int, c: nat)
    ensures
        0 <= sigma(c, |j: int| pow2(j as nat) * bit(v, j as nat)) < pow2(c),
    decreases c,
{
    let f = |j: int| pow2(j as nat) * bit(v, j as nat);
    if c == 0 {
        vstd::arithmetic::power2::lemma2_to64();
    } else {
        let k = (c - 1) as nat;
        lemma_low_bits_range(v, k);
        lemma_pow2_unfold(c);
        let b = bit(v, k);
        assert(0 <= pow2(k) * b <= pow2(k)) by (nonlinear_arith)
            requires
                0 <= b <= 1,
        ;
        assert(f(k as int) == pow2(k) * b);
    }
}

/// A power of two.
pub open spec fn is_pow2(n: nat) -> bool {
    exists|d: nat| pow2(d) == n
}

/// The exponent of a power of two.
pub open spec fn log2(n: nat) -> nat {
    choose|d: nat| pow2(d) == n
}

/// Different exponents give different powers.
pub proof fn lemma_pow2_injective(a: nat, b: nat)
    requires
        pow2(a) == pow2(b),
    ensures
        a == b,
{
    if a < b {
        vstd::arithmetic::power2::lemma_pow2_strictly_increases(a, b);
    }
    if b < a {
        vstd::arithmetic::power2::lemma_pow2_strictly_increases(b, a);
    }
}

/// The exponent of a power of two.
pub proof fn lemma_log2(d: nat)
    ensures
        log2(pow2(d)) == d,
        is_pow2(pow2(d)),
{
    lemma_pow2_injective(log2(pow2(d)), d);
}

/// The exponent of the largest power of two that divides `n`.
pub open spec fn two_adic(n: nat, d: nat) -> bool {
    n as int % (pow2(d) as int) == 0 && n as int % (pow2(d + 1) as int) != 0
}

/// The number of trailing zero bits.
pub fn trailing_zeros(n: usize) -> (d: usize)
    requires
        n > 0,
    ensures
        two_adic(n as nat, d as nat),
        is_pow2(n as nat) ==> d == log2(n as nat) && n == pow2(d as nat),
{
    let mut d: usize = 0;
    let mut q: usize = n;
    proof {
        vstd::arithmetic::power2::lemma2_to64();
        assert(q * pow2(0) == n);
    }
    while q % 2 == 0
        invariant
            q > 0,
            n > 0,
            q * pow2(d as nat) == n,
            d + q <= n,
        decreases q,
    {
        proof {
            lemma_pow2_unfold((d + 1) as nat);
            let h = (q / 2) as int;
            assert(q == 2 * h);
            assert((2 * h) * pow2(d as nat) == h * (2 * pow2(d as nat))) by (nonlinear_arith);
        }
        q = q / 2;
        d = d + 1;
    }
    proof {
        let (p, m) = (pow2(d as nat) as int, q as int);
        lemma_pow2_pos(d as nat);
        lemma_pow2_unfold((d + 1) as nat);
        vstd::arithmetic::div_mod::lemma_mod_multiples_basic(m, p);
        let h = m / 2;
        assert(m == 2 * h + 1);
        assert(m * p == h * (2 * p) + p) by (nonlinear_arith)
            requires
                m == 2 * h + 1,
        ;
        vstd::arithmetic::div_mod::lemma_fundamental_div_mod_converse(n as int, 2 * p, h, p);
        if is_pow2(n as nat) {
            let e = log2(n as nat);
            lemma_two_adic_unique(n as nat, d as nat, e);
        }
    }
    d
}

/// The largest power of two that divides a number is unique.
pub proof fn lemma_two_adic_unique(n: nat, d: nat, e: nat)
    requires
        two_adic(n, d),
        pow2(e) == n || two_adic(n, e),
    ensures
        d == e,
{
    lemma_pow2_pos(e);
    lemma_pow2_unfold(e + 1);
    if pow2(e) == n {
        vstd::arithmetic::div_mod::lemma_mod_self_0(n as int);
        vstd::arithmetic::div_mod::lemma_small_mod(n, pow2(e + 1));
    }
    if d < e {
        lemma_divides_smaller(n, (d + 1) as nat, e);
    }
    if e < d {
        lemma_divides_smaller(n, (e + 1) as nat, d);
    }
}

proof fn lemma_divides_smaller(n: nat, a: nat, b: nat)
    requires
        a <= b,
        n as int % (pow2(b) as int) == 0,
    ensures
        n as int % (pow2(a) as int) == 0,
{
    lemma_pow2_pos(a);
    lemma_pow2_pos(b);
    vstd::arithmetic::power2::lemma_pow2_adds(a, (b - a) as nat);
    let (p, q) = (pow2(a) as int, pow2((b - a) as nat) as int);
    vstd::arithmetic::div_mod::lemma_fundamental_div_mod(n as int, pow2(b) as int);
    let k = n as int / pow2(b) as int;
    assert((p * q) * k == (q * k) * p) by (nonlinear_arith);
    vstd::arithmetic::div_mod::lemma_mod_multiples_basic(q * k, p);
}

/// The `i32` reading of a canonical value is its signed reading modulo `2^32`.
pub proof fn lemma_i32_reading(v: int)
    requires
        0 <= v < P,
    ensures
        i32::MIN <= as_i32(v) <= i32::MAX,
        v <= i32::MAX ==> as_i32(v) == v,
        v > i32::MAX ==> (v - P - as_i32(v)) % 0x1_0000_0000 == 0,
        P - 0x8000_0000 <= v ==> as_i32(v) == v - P,
{
    crate::fixed_point::lemma_wrap(signed(v, i32::MAX as int), 0x1_0000_0000);
}

/// The `i64` reading of a canonical value: itself up to the largest `i64`, and less by
/// the size of the field above.
pub proof fn lemma_i64_reading(v: int)
    requires
        0 <= v < P,
    ensures
        v <= i64::MAX ==> as_i64(v) == v,
        v > i64::MAX ==> as_i64(v) == v - P,
{
}

/// Sums of `i32` readings grow by one reading with every entry, and the sums of
/// squares by one square.
pub proof fn lemma_sums_grow(x: Seq<int>, n: nat, m: int)
    ensures
        i32_sum(x, 0) == 0,
        i32_square_sum(x, 0, m) == 0,
        i32_sum(x, n + 1) == i32_sum(x, n) + as_i32(x[n as int]),
        i32_square_sum(x, n + 1, m) == i32_square_sum(x, n, m) + (as_i32(x[n as int]) - m) * (
        as_i32(x[n as int]) - m),
{
}

/// A sum of `i32` readings is bounded by their number.
pub proof fn lemma_i32_sum_range(x: Seq<int>, n: nat)
    ensures
        -0x8000_0000 * n <= i32_sum(x, n) <= 0x7fff_ffff * n,
    decreases n,
{
    if n > 0 {
        lemma_i32_sum_range(x, (n - 1) as nat);
        crate::fixed_point::lemma_wrap(signed(x[n - 1], i32::MAX as int), 0x1_0000_0000);
    }
}

/// A bit is zero or one, and `v` is `2^c` times what lies above its low `c` bits, plus
/// the number that those bits make.
pub proof fn lemma_bits(v: int, c: nat)
    ensures
        forall|j: nat| #[trigger] bit(v, j) == 0 || bit(v, j) == 1,
        0 <= sigma(c, |j: int| pow2(j as nat) * bit(v, j as nat)) < pow2(c),
        sigma(c, |j: int| pow2(j as nat) * bit(v, j as nat)) == v % (pow2(c) as int),
{
    lemma_low_bits(v, c);
    lemma_pow2_pos(c);
    vstd::arithmetic::div_mod::lemma_mod_bound(v, pow2(c) as int);
}

} // verus!
