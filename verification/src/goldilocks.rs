//! Non-native Goldilocks arithmetic in the BN254 scalar field.
//!
//! The sum-check layer proves over Goldilocks (`p = 2^64 - 2^32 + 1`, a 64-bit
//! prime), but the on-chain verifier circuit runs over the scalar field of BN254
//! (about 254 bits). A multiplication row shows, natively in that field, that
//! `c == a*b (mod p)`: it carries the quotient `q` with `a*b = q*p + c`, and every
//! value is range-checked to 64 bits. An addition row carries the overflow bit
//! `ov` with `a + b = c + ov*p`.

use vstd::arithmetic::div_mod::{
    lemma_div_is_ordered, lemma_fundamental_div_mod, lemma_fundamental_div_mod_converse,
    lemma_small_mod,
};
use vstd::prelude::*;

verus! {

/// Goldilocks characteristic `2^64 - 2^32 + 1`.
pub const GOLDILOCKS_P: u64 = 0xFFFF_FFFF_0000_0001;

/// The order of the BN254 scalar field.
pub open spec fn scalar_order() -> int {
    21888242871839275222246405745257275088548364400416034343698204186575808495617int
}

/// `x` passes a 64-bit range check.
pub open spec fn in_range(x: int) -> bool {
    0 <= x < 0x1_0000_0000_0000_0000
}

/// `x * y` vanishes modulo `m`.
pub open spec fn product_vanishes(m: int, x: int, y: int) -> bool {
    (x * y) % m == 0
}

/// The integers modulo `m` have no zero divisors, as is so for every prime `m`.
pub open spec fn is_domain(m: int) -> bool {
    forall|x: int, y: int| #[trigger]
        product_vanishes(m, x, y) ==> x % m == 0 || y % m == 0
}

/// The constraint `a*b - c - q*p = 0` in the integers modulo `m`.
pub open spec fn mul_gate(m: int, a: int, b: int, c: int, q: int) -> bool {
    (a * b - c - q * GOLDILOCKS_P) % m == 0
}

/// The constraint `a + b - c - ov*p = 0` in the integers modulo `m`.
pub open spec fn add_gate(m: int, a: int, b: int, c: int, ov: int) -> bool {
    (a + b - c - ov * GOLDILOCKS_P) % m == 0
}

/// The constraint `ov * (1 - ov) = 0` in the integers modulo `m`.
pub open spec fn bit_gate(m: int, ov: int) -> bool {
    product_vanishes(m, ov, 1 - ov)
}

/// One row of the multiplication chip: `a*b = q*p + c`.
#[derive(Clone, Copy, Debug)]
pub struct MulRow {
    pub a: u64,
    pub b: u64,
    pub c: u64,
    pub q: u64,
}

/// One row of the addition chip: `a + b = c + ov*p`.
#[derive(Clone, Copy, Debug)]
pub struct AddRow {
    pub a: u64,
    pub b: u64,
    pub c: u64,
    pub ov: u64,
}

/// A multiple of `m` of absolute value below `m` is zero.
proof fn lemma_small_multiple(x: int, m: int)
    requires
        -m < x < m,
        x % m == 0,
    ensures
        x == 0,
{
    if x > 0 {
        lemma_small_mod(x as nat, m as nat);
    } else if x < 0 {
        assert(x % m == (x + m) % m) by {
            vstd::arithmetic::div_mod::lemma_mod_add_multiples_vanish(x, m);
        }
        lemma_small_mod((x + m) as nat, m as nat);
    }
}

/// A multiplication row meets its constraint exactly when the equation holds over
/// the integers, once all four values pass the range check: a field of more than `2^129` elements
/// leaves no room for the difference to wrap around.
pub proof fn lemma_mul_gate(m: int, a: int, b: int, c: int, q: int)
    requires
        m >= 0x2_0000_0000_0000_0000_0000_0000_0000_0000,
        in_range(a),
        in_range(b),
        in_range(c),
        in_range(q),
    ensures
        mul_gate(m, a, b, c, q) <==> a * b == q * GOLDILOCKS_P + c,
{
    assert(0 <= a * b < 0x1_0000_0000_0000_0000_0000_0000_0000_0000) by (nonlinear_arith)
        requires
            in_range(a),
            in_range(b),
    ;
    if mul_gate(m, a, b, c, q) {
        lemma_small_multiple(a * b - c - q * GOLDILOCKS_P, m);
    } else if a * b == q * GOLDILOCKS_P + c {
        lemma_small_mod(0, m as nat);
    }
}

/// An addition row meets its constraint exactly when the equation holds over the
/// integers, once the operands and the sum pass the range check and `ov` is small.
pub proof fn lemma_add_gate(m: int, a: int, b: int, c: int, ov: int)
    requires
        m >= 0x2_0000_0000_0000_0000_0000_0000_0000_0000,
        in_range(a),
        in_range(b),
        in_range(c),
        in_range(ov),
    ensures
        add_gate(m, a, b, c, ov) <==> a + b == c + ov * GOLDILOCKS_P,
{
    if add_gate(m, a, b, c, ov) {
        lemma_small_multiple(a + b - c - ov * GOLDILOCKS_P, m);
    } else if a + b == c + ov * GOLDILOCKS_P {
        lemma_small_mod(0, m as nat);
    }
}

/// In a field the boolean gate holds of zero and one alone.
pub proof fn lemma_bit_gate(m: int, ov: int)
    requires
        m > 1,
        is_domain(m),
        0 <= ov < m,
    ensures
        bit_gate(m, ov) <==> ov == 0 || ov == 1,
{
    if bit_gate(m, ov) {
        if ov % m == 0 {
            lemma_small_mod(ov as nat, m as nat);
        } else {
            assert((1 - ov) % m == 0);
            lemma_small_multiple(1 - ov, m);
        }
    }
    if ov == 0 || ov == 1 {
        assert(ov * (1 - ov) == 0) by (nonlinear_arith)
            requires
                ov == 0 || ov == 1,
        ;
        lemma_small_mod(0, m as nat);
    }
}

/// Soundness of a multiplication row: whatever 64-bit values satisfy the constraint
/// in a large field, `c` is congruent to `a*b` modulo `p`, and it is the
/// product modulo `p` when it is canonical.
pub proof fn lemma_mul_row_sound(m: int, a: int, b: int, c: int, q: int)
    requires
        m >= 0x2_0000_0000_0000_0000_0000_0000_0000_0000,
        in_range(a),
        in_range(b),
        in_range(c),
        in_range(q),
        mul_gate(m, a, b, c, q),
    ensures
        c % GOLDILOCKS_P as int == (a * b) % GOLDILOCKS_P as int,
        c < GOLDILOCKS_P ==> c == (a * b) % GOLDILOCKS_P as int,
{
    lemma_mul_gate(m, a, b, c, q);
    let p = GOLDILOCKS_P as int;
    vstd::arithmetic::div_mod::lemma_mod_multiples_vanish(q, c, p);
    assert(p * q == q * p) by (nonlinear_arith);
    if c < p {
        lemma_small_mod(c as nat, p as nat);
    }
}

/// Soundness of an addition row: whatever values satisfy both gates in a large
/// field, with the operands and the sum range-checked, `c` is congruent to
/// `a + b` modulo `p`, and it is the sum modulo `p` when it is canonical.
pub proof fn lemma_add_row_sound(m: int, a: int, b: int, c: int, ov: int)
    requires
        m >= 0x2_0000_0000_0000_0000_0000_0000_0000_0000,
        is_domain(m),
        in_range(a),
        in_range(b),
        in_range(c),
        0 <= ov < m,
        add_gate(m, a, b, c, ov),
        bit_gate(m, ov),
    ensures
        c % GOLDILOCKS_P as int == (a + b) % GOLDILOCKS_P as int,
        c < GOLDILOCKS_P ==> c == (a + b) % GOLDILOCKS_P as int,
{
    lemma_bit_gate(m, ov);
    lemma_add_gate(m, a, b, c, ov);
    let p = GOLDILOCKS_P as int;
    vstd::arithmetic::div_mod::lemma_mod_multiples_vanish(ov, c, p);
    assert(p * ov == ov * p) by (nonlinear_arith);
    if c < p {
        lemma_small_mod(c as nat, p as nat);
    }
}

impl MulRow {
    /// The row meets the constraint in the BN254 scalar field. Each value is a `u64`
    /// and so passes its range check.
    pub open spec fn satisfied(self) -> bool {
        mul_gate(scalar_order(), self.a as int, self.b as int, self.c as int, self.q as int)
    }

    /// The row for the product of `a` and `b`.
    pub fn new(a: u64, b: u64) -> (r: MulRow)
        ensures
            r.a == a,
            r.b == b,
            r.c == (a * b) % GOLDILOCKS_P as int,
            r.q == (a * b) / GOLDILOCKS_P as int % 0x1_0000_0000_0000_0000,
            a < GOLDILOCKS_P || b < GOLDILOCKS_P ==> r.satisfied(),
    {
        let (c, q) = mul_mod(a, b);
        let r = MulRow { a, b, c, q };
        proof {
            if a < GOLDILOCKS_P || b < GOLDILOCKS_P {
                lemma_mul_row_complete(a, b);
            }
        }
        r
    }

    /// Whether the row meets its constraints.
    pub fn is_satisfied(&self) -> (r: bool)
        ensures
            r == self.satisfied(),
    {
        let (a, b, c, q) = (self.a as u128, self.b as u128, self.c as u128, self.q as u128);
        proof {
            lemma_mul_gate(scalar_order(), a as int, b as int, c as int, q as int);
            lemma_product_fits(self.a, self.b);
        }
        assert(q * GOLDILOCKS_P as u128 + c < 0x1_0000_0000_0000_0000_0000_0000_0000_0000);
        a * b == q * GOLDILOCKS_P as u128 + c
    }
}

impl AddRow {
    /// The row meets both gates in the BN254 scalar field. Each operand and the
    /// sum is a `u64` and so passes its range check.
    pub open spec fn satisfied(self) -> bool {
        &&& add_gate(scalar_order(), self.a as int, self.b as int, self.c as int, self.ov as int)
        &&& bit_gate(scalar_order(), self.ov as int)
    }

    /// The row for the sum of `a` and `b`.
    pub fn new(a: u64, b: u64) -> (r: AddRow)
        ensures
            r.a == a,
            r.b == b,
            r.c == (a + b) % GOLDILOCKS_P as int,
            r.ov == (a + b) / GOLDILOCKS_P as int,
            a + b < 2 * GOLDILOCKS_P <==> r.satisfied(),
    {
        let (c, ov) = add_mod(a, b);
        let r = AddRow { a, b, c, ov };
        proof {
            lemma_add_row_satisfied(r);
            lemma_fundamental_div_mod(a + b, GOLDILOCKS_P as int);
        }
        r
    }

    /// Whether the row meets its constraints.
    pub fn is_satisfied(&self) -> (r: bool)
        ensures
            r == self.satisfied(),
    {
        let (a, b, c, ov) = (self.a as u128, self.b as u128, self.c as u128, self.ov as u128);
        proof {
            lemma_add_row_satisfied(*self);
        }
        ov <= 1 && a + b == c + ov * GOLDILOCKS_P as u128
    }
}

proof fn lemma_product_fits(a: u64, b: u64)
    ensures
        0 <= a * b <= 0xffff_ffff_ffff_fffe_0000_0000_0000_0001,
{
    assert(0 <= a * b <= 0xffff_ffff_ffff_fffe_0000_0000_0000_0001) by (nonlinear_arith);
}

/// The constraints of an addition row, over the integers.
proof fn lemma_add_row_satisfied(row: AddRow)
    ensures
        row.satisfied() <==> (row.ov <= 1 && row.a + row.b == row.c + row.ov * GOLDILOCKS_P),
{
    let m = scalar_order();
    let ov = row.ov as int;
    lemma_add_gate(m, row.a as int, row.b as int, row.c as int, ov);
    // `ov * (1 - ov)` of a 64-bit value cannot wrap around the field.
    assert(-0x1_0000_0000_0000_0000_0000_0000_0000_0000 < ov * (1 - ov) <= 0) by (nonlinear_arith)
        requires
            0 <= ov < 0x1_0000_0000_0000_0000,
    ;
    if bit_gate(m, ov) {
        lemma_small_multiple(ov * (1 - ov), m);
        assert(ov == 0 || ov == 1) by (nonlinear_arith)
            requires
                ov * (1 - ov) == 0,
        ;
    }
    if ov == 0 || ov == 1 {
        assert(ov * (1 - ov) == 0) by (nonlinear_arith)
            requires
                ov == 0 || ov == 1,
        ;
        lemma_small_mod(0, m as nat);
    }
}

/// Completeness of a multiplication row: with one canonical factor the quotient
/// fits in 64 bits and the row of `mul_mod` meets the constraint.
pub proof fn lemma_mul_row_complete(a: u64, b: u64)
    requires
        a < GOLDILOCKS_P || b < GOLDILOCKS_P,
    ensures
        (a * b) / GOLDILOCKS_P as int <= u64::MAX,
        ({
            let p = GOLDILOCKS_P as int;
            mul_gate(scalar_order(), a as int, b as int, (a * b) % p, (a * b) / p)
        }),
{
    let p = GOLDILOCKS_P as int;
    let (x, y) = if a < GOLDILOCKS_P {
        (a as int, b as int)
    } else {
        (b as int, a as int)
    };
    assert(a * b == x * y) by (nonlinear_arith)
        requires
            (x == a && y == b) || (x == b && y == a),
    ;
    assert(x * y <= p * y) by (nonlinear_arith)
        requires
            x < p,
            y >= 0,
    ;
    assert(0 <= x * y) by (nonlinear_arith)
        requires
            x >= 0,
            y >= 0,
    ;
    lemma_div_is_ordered(x * y, p * y, p);
    lemma_fundamental_div_mod_converse(p * y, p, y, 0);
    assert(p * y == y * p) by (nonlinear_arith);
    lemma_fundamental_div_mod(a * b, p);
    let (c, q) = ((a * b) % p, (a * b) / p);
    assert(q >= 0) by {
        vstd::arithmetic::div_mod::lemma_div_pos_is_pos(a * b, p);
    }
    assert(p * q == q * p) by (nonlinear_arith);
    lemma_mul_gate(scalar_order(), a as int, b as int, c, q);
}

/// Host-side helper: `(c, q)` such that `a*b = q*p + c` and `0 <= c < p`.
///
/// With both factors at least `p` the quotient may exceed 64 bits; its low 64
/// bits are returned.
pub fn mul_mod(a: u64, b: u64) -> (r: (u64, u64))
    ensures
        r.0 == (a * b) % GOLDILOCKS_P as int,
        r.1 == (a * b) / GOLDILOCKS_P as int % 0x1_0000_0000_0000_0000,
        a < GOLDILOCKS_P || b < GOLDILOCKS_P ==> a * b == r.1 * GOLDILOCKS_P + r.0,
{
    proof {
        lemma_product_fits(a, b);
        lemma_fundamental_div_mod(a * b, GOLDILOCKS_P as int);
        if a < GOLDILOCKS_P || b < GOLDILOCKS_P {
            lemma_mul_row_complete(a, b);
        }
    }
    let prod: u128 = (a as u128) * (b as u128);
    let p: u128 = GOLDILOCKS_P as u128;
    let quotient: u128 = prod / p;
    #[verifier::truncate]
    let q: u64 = quotient as u64;
    assert(q == quotient % 0x1_0000_0000_0000_0000) by (bit_vector)
        requires
            q == quotient as u64,
    ;
    ((prod % p) as u64, q)
}

/// Host-side helper: `(c, ov)` such that `a + b = ov*p + c` and `0 <= c < p`.
pub fn add_mod(a: u64, b: u64) -> (r: (u64, u64))
    ensures
        r.0 == (a + b) % GOLDILOCKS_P as int,
        r.1 == (a + b) / GOLDILOCKS_P as int,
        a + b == r.1 * GOLDILOCKS_P + r.0,
        r.1 <= 2,
        a + b < 2 * GOLDILOCKS_P ==> r.1 <= 1,
{
    let sum: u128 = (a as u128) + (b as u128);
    let p: u128 = GOLDILOCKS_P as u128;
    proof {
        lemma_fundamental_div_mod(sum as int, p as int);
    }
    ((sum % p) as u64, (sum / p) as u64)
}

/// A multiplication row is satisfied exactly when the product is the quotient times `p` plus
/// the result, over the integers.
pub proof fn lemma_mul_row(row: MulRow)
    ensures
        row.satisfied() <==> row.a * row.b == row.q * GOLDILOCKS_P + row.c,
{
    let (a, b, c, q) = (row.a as int, row.b as int, row.c as int, row.q as int);
    lemma_mul_gate(scalar_order(), a, b, c, q);
}

/// An addition row is satisfied exactly when the sum is the result plus none or one times
/// `p`, over the integers.
pub proof fn lemma_add_row(row: AddRow)
    ensures
        row.satisfied() <==> (row.ov == 0 || row.ov == 1) && row.a + row.b == row.c + row.ov
            * GOLDILOCKS_P,
{
    lemma_add_row_satisfied(row);
}

} // verus!
