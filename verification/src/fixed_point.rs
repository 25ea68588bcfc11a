//! int16 fixed-point layer over Goldilocks.
//!
//! Signed values are embedded in the field (`x < 0` maps to `P - |x|`), and a
//! dot product is computed directly in the field. As long as the true integer
//! result stays in `(-P/2, P/2)` the field result is the integer result with no
//! wrap.

use crate::field::{residue, Goldilocks, P};
use crate::sums::sigma;
use vstd::prelude::*;

verus! {

/// The integer in `[-m/2, m/2)` that differs from `x` by a multiple of the even
/// number `m`: what `x` becomes in a signed machine word of `m` values.
pub open spec fn wrap(x: int, m: int) -> int {
    (x + m / 2) % m - m / 2
}

/// The integer that a field value stands for when the values above `max` are
/// negative.
pub open spec fn signed(v: int, max: int) -> int {
    if v <= max {
        v
    } else {
        v - P
    }
}

/// Embeds a signed `i16` value in the field.
pub fn from_i16(x: i16) -> (r: Goldilocks)
    ensures
        r@ == residue(x as int),
{
    proof {
        reveal(residue);
    }
    if x >= 0 {
        Goldilocks::from_u64(x as u64)
    } else {
        Goldilocks::from_u64(P - ((0 - (x as i64)) as u64))
    }
}

/// Recovers the signed value embedded by [`from_i16`]. Values that no `i16`
/// stands for wrap around.
pub fn to_i16(x: Goldilocks) -> (r: i16)
    ensures
        r as int == wrap(signed(x@, i16::MAX as int), 0x1_0000),
{
    let v: u64 = x.as_canonical_u64();
    if v <= i16::MAX as u64 {
        v as i16
    } else {
        let d: u64 = (P - v) % 0x1_0000;
        if d <= 0x8000 {
            (0 - (d as i64)) as i16
        } else {
            (0x1_0000 - d) as i16
        }
    }
}

/// Embeds a signed `i32` fixed-point value in the field. The values must stay
/// bounded by the chosen scale so a length-K dot product does not wrap the
/// 64-bit field.
pub fn from_i32(x: i32) -> (r: Goldilocks)
    ensures
        r@ == residue(x as int),
{
    proof {
        reveal(residue);
    }
    if x >= 0 {
        Goldilocks::from_u64(x as u64)
    } else {
        Goldilocks::from_u64(P - ((0 - (x as i64)) as u64))
    }
}

/// Recovers the signed value embedded by [`from_i32`]. Values that no `i32`
/// stands for wrap around.
pub fn to_i32(x: Goldilocks) -> (r: i32)
    ensures
        r as int == wrap(signed(x@, i32::MAX as int), 0x1_0000_0000),
{
    let v: u64 = x.as_canonical_u64();
    if v <= i32::MAX as u64 {
        v as i32
    } else {
        let d: u64 = (P - v) % 0x1_0000_0000;
        if d <= 0x8000_0000 {
            (0 - (d as i64)) as i32
        } else {
            (0x1_0000_0000 - d) as i32
        }
    }
}

/// Embeds a signed `i64` value in the field. Used for raw dot-product outputs.
pub fn from_i64(x: i64) -> (r: Goldilocks)
    ensures
        r@ == residue(x as int),
{
    proof {
        reveal(residue);
    }
    if x >= 0 {
        Goldilocks::from_u64(x as u64)
    } else {
        Goldilocks::from_u64(P - ((0 - (x as i128)) as u64))
    }
}

/// Recovers the signed `i64` value embedded by [`from_i64`].
pub fn to_i64(x: Goldilocks) -> (r: i64)
    ensures
        r as int == signed(x@, i64::MAX as int),
{
    let v: u64 = x.as_canonical_u64();
    if v <= i64::MAX as u64 {
        v as i64
    } else {
        0 - ((P - v) as i64)
    }
}

/// Every `i16` survives the round trip through the field.
pub proof fn lemma_i16_roundtrip(x: i16)
    ensures
        wrap(signed(residue(x as int), i16::MAX as int), 0x1_0000) == x,
{
    reveal(residue);
}

/// Every `i32` survives the round trip through the field.
pub proof fn lemma_i32_roundtrip(x: i32)
    ensures
        wrap(signed(residue(x as int), i32::MAX as int), 0x1_0000_0000) == x,
{
    reveal(residue);
}

/// Every `i64` that is at least `2^63 - P` survives the round trip through the
/// field; below that the embedding meets the positive numbers.
pub proof fn lemma_i64_roundtrip(x: i64)
    requires
        x >= 0x8000_0000_0000_0000 - P,
    ensures
        signed(residue(x as int), i64::MAX as int) == x,
{
    reveal(residue);
}

/// No wrap: an integer in `(-P/2, P/2)` is recovered from its field value.
pub proof fn lemma_no_wrap(s: int)
    requires
        -(P as int) < 2 * s < P,
    ensures
        signed(residue(s), P as int / 2) == s,
{
    reveal(residue);
}

/// A dot product of `i16` vectors, as an integer.
pub open spec fn int_dot(a: Seq<i16>, b: Seq<i16>) -> int {
    sigma(a.len(), |i: int| a[i] as int * b[i] as int)
}

/// A dot product of at most `2^32` terms of `i16` values does not wrap the
/// field: the field value determines the integer.
pub proof fn lemma_i16_dot_no_wrap(a: Seq<i16>, b: Seq<i16>)
    requires
        a.len() == b.len(),
        a.len() <= 0x1_0000_0000,
    ensures
        signed(residue(int_dot(a, b)), P as int / 2) == int_dot(a, b),
        signed(residue(int_dot(a, b)), i64::MAX as int) == int_dot(a, b),
{
    let f = |i: int| a[i] as int * b[i] as int;
    lemma_i16_dot_bound(a, b, f, a.len());
    lemma_no_wrap(int_dot(a, b));
    reveal(residue);
}

proof fn lemma_i16_dot_bound(a: Seq<i16>, b: Seq<i16>, f: spec_fn(int) -> int, n: nat)
    requires
        n <= a.len() == b.len(),
        forall|i: int| 0 <= i < a.len() ==> #[trigger] f(i) == a[i] as int * b[i] as int,
    ensures
        -0x4000_0000 * n <= sigma(n, f) <= 0x4000_0000 * n,
    decreases n,
{
    if n > 0 {
        lemma_i16_dot_bound(a, b, f, (n - 1) as nat);
        let (x, y) = (a[n - 1] as int, b[n - 1] as int);
        assert(f(n - 1) == x * y);
        assert(-0x4000_0000 <= x * y <= 0x4000_0000) by (nonlinear_arith)
            requires
                -0x8000 <= x < 0x8000,
                -0x8000 <= y < 0x8000,
        ;
    }
}

/// Wrapping keeps a number modulo `m` and brings it into `[-m/2, m/2)`.
pub proof fn lemma_wrap(x: int, m: int)
    requires
        m > 0,
        m % 2 == 0,
    ensures
        -m <= 2 * wrap(x, m) < m,
        (x - wrap(x, m)) % m == 0,
        -m <= 2 * x < m ==> wrap(x, m) == x,
{
    let h = m / 2;
    vstd::arithmetic::div_mod::lemma_fundamental_div_mod(x + h, m);
    vstd::arithmetic::div_mod::lemma_mod_bound(x + h, m);
    let q = (x + h) / m;
    assert(x - wrap(x, m) == m * q);
    assert(q * m == m * q) by (nonlinear_arith);
    vstd::arithmetic::div_mod::lemma_fundamental_div_mod_converse(m * q, m, q, 0);
    if -m <= 2 * x < m {
        vstd::arithmetic::div_mod::lemma_small_mod((x + h) as nat, m as nat);
    }
}

/// The signed reading of a canonical value is congruent to it: the value itself up to
/// `max`, and negative above.
pub proof fn lemma_signed(v: int, max: int)
    requires
        0 <= v < P,
        0 <= max < P,
    ensures
        residue(signed(v, max)) == v,
        signed(v, max) >= 0 <==> v <= max,
        max - P < signed(v, max) <= max,
{
    reveal(residue);
}

} // verus!
