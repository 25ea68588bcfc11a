//! The Goldilocks field and a small deterministic xorshift generator.
//!
//! A field element is modelled by its canonical representative, an integer in
//! `[0, P)`. Formulas in contracts are written over unbounded integers and
//! reduced once with [`residue`]; the lemmas of [`group_residue`] push every
//! reduction of an executable expression to the outside.

use p3_field::{Field, PrimeField64};
use vstd::prelude::*;

verus! {

/// Field characteristic `p = 2^64 - 2^32 + 1`.
pub const P: u64 = 0xFFFF_FFFF_0000_0001;

/// The canonical representative of an integer modulo [`P`].
#[verifier::opaque]
pub open spec fn residue(x: int) -> int {
    x % (P as int)
}

/// Field addition on representatives.
#[verifier::opaque]
pub open spec fn fadd(x: int, y: int) -> int {
    residue(x + y)
}

/// Field subtraction on representatives.
#[verifier::opaque]
pub open spec fn fsub(x: int, y: int) -> int {
    residue(x - y)
}

/// Field multiplication on representatives.
#[verifier::opaque]
pub open spec fn fmul(x: int, y: int) -> int {
    residue(x * y)
}

/// An element of the Goldilocks field. Like the outside implementation that
/// computes with it, it may hold any `u64`; the value it stands for is that
/// number modulo [`P`].
#[derive(Clone, Copy, Debug)]
pub struct Goldilocks {
    value: u64,
}

impl View for Goldilocks {
    type V = int;

    closed spec fn view(&self) -> int {
        residue(self.value as int)
    }
}

/// `<p3_goldilocks::Goldilocks as Add>::add`: the canonical value of the result
/// is the sum of the two values modulo `P`, for any two `u64`s.
#[verifier::external_body]
fn p3_add(a: u64, b: u64) -> (r: u64)
    ensures
        r as int == (a + b) % (P as int),
{
    (p3_goldilocks::Goldilocks::new(a) + p3_goldilocks::Goldilocks::new(b)).as_canonical_u64()
}

/// `<p3_goldilocks::Goldilocks as Sub>::sub`: the canonical value of the result
/// is the difference of the two values modulo `P`, for any two `u64`s.
#[verifier::external_body]
fn p3_sub(a: u64, b: u64) -> (r: u64)
    ensures
        r as int == (a - b) % (P as int),
{
    (p3_goldilocks::Goldilocks::new(a) - p3_goldilocks::Goldilocks::new(b)).as_canonical_u64()
}

/// `<p3_goldilocks::Goldilocks as Mul>::mul`: the canonical value of the result
/// is the product of the two values modulo `P`, for any two `u64`s.
#[verifier::external_body]
fn p3_mul(a: u64, b: u64) -> (r: u64)
    ensures
        r as int == (a * b) % (P as int),
{
    (p3_goldilocks::Goldilocks::new(a) * p3_goldilocks::Goldilocks::new(b)).as_canonical_u64()
}

/// `p3_field::Field::inverse` on `p3_goldilocks::Goldilocks`: for a value that
/// is not zero modulo `P`, the canonical value whose product with it is one
/// modulo `P`. On zero the outside function panics.
#[verifier::external_body]
fn p3_inverse(a: u64) -> (r: u64)
    requires
        a as int % (P as int) != 0,
    ensures
        r < P,
        (a * r) % (P as int) == 1,
{
    p3_goldilocks::Goldilocks::new(a).inverse().as_canonical_u64()
}

/// `PrimeField64::as_canonical_u64` on `p3_goldilocks::Goldilocks`: the
/// remainder of the number that the element holds, modulo `P`.
#[verifier::external_body]
fn p3_canonical(a: u64) -> (r: u64)
    ensures
        r as int == a as int % (P as int),
{
    p3_goldilocks::Goldilocks::new(a).as_canonical_u64()
}

impl Goldilocks {
    /// The element that a `u64` stands for.
    pub fn from_u64(x: u64) -> (r: Goldilocks)
        ensures
            r@ == residue(x as int),
    {
        Goldilocks { value: x }
    }

    /// One for `true`, zero for `false`.
    pub fn from_bool(b: bool) -> (r: Goldilocks)
        ensures
            r@ == residue(if b { 1 } else { 0 }),
    {
        if b {
            Goldilocks { value: 1 }
        } else {
            Goldilocks { value: 0 }
        }
    }

    /// The additive identity.
    pub fn zero() -> (r: Goldilocks)
        ensures
            r@ == residue(0),
    {
        Goldilocks { value: 0 }
    }

    /// The multiplicative identity.
    pub fn one() -> (r: Goldilocks)
        ensures
            r@ == residue(1),
    {
        Goldilocks { value: 1 }
    }

    /// The sum of the multiplicative identity with itself.
    pub fn two() -> (r: Goldilocks)
        ensures
            r@ == residue(2),
    {
        Goldilocks { value: 2 }
    }

    /// The representative in `[0, P)`.
    pub fn as_canonical_u64(&self) -> (r: u64)
        ensures
            r as int == self@,
            r < P,
    {
        let r: u64 = p3_canonical(self.value);
        proof {
            reveal(residue);
        }
        r
    }

    /// The multiplicative inverse of a nonzero element.
    pub fn inverse(&self) -> (r: Goldilocks)
        requires
            self@ != 0,
        ensures
            inverse_pair(self@, r@),
            r@ == finv(self@),
    {
        proof {
            reveal(residue);
        }
        let v: u64 = p3_inverse(self.value);
        let r = Goldilocks { value: v };
        proof {
            let (a, p) = (self.value as int, P as int);
            assert(r@ == v as int);
            lemma_residue_mul(a, v as int);
            assert(residue(self@ * r@) == residue(a * v));
            lemma_inverse_unique(self@, r@, finv(self@));
        }
        r
    }
}

/// Two representatives whose product is one in the field.
pub open spec fn inverse_pair(x: int, y: int) -> bool {
    residue(x * y) == 1
}

/// The inverse of a representative, where it has one.
pub open spec fn finv(x: int) -> int {
    choose|y: int| 0 <= y < P && inverse_pair(x, y)
}

/// A number has at most one inverse in `[0, P)`.
pub proof fn lemma_inverse_unique(x: int, y: int, z: int)
    requires
        inverse_pair(x, y),
        inverse_pair(x, z),
        0 <= y < P,
        0 <= z < P,
    ensures
        y == z,
{
    lemma_residue_mul(x * y, z);
    lemma_residue_mul(x * z, y);
    assert((x * y) * z == (x * z) * y) by (nonlinear_arith);
    lemma_residue_small(y);
    lemma_residue_small(z);
    assert(1 * z == z && 1 * y == y);
}

impl core::ops::Add for Goldilocks {
    type Output = Goldilocks;

    fn add(self, rhs: Goldilocks) -> (r: Goldilocks)
        ensures
            r@ == fadd(self@, rhs@),
    {
        let r = Goldilocks { value: p3_add(self.value, rhs.value) };
        proof {
            reveal(fadd);
            lemma_residue_add(self.value as int, rhs.value as int);
            reveal(residue);
        }
        r
    }
}

impl vstd::std_specs::ops::AddSpecImpl for Goldilocks {
    open spec fn obeys_add_spec() -> bool {
        false
    }

    open spec fn add_req(self, rhs: Goldilocks) -> bool {
        true
    }

    open spec fn add_spec(self, rhs: Goldilocks) -> Goldilocks {
        self
    }
}

impl core::ops::Sub for Goldilocks {
    type Output = Goldilocks;

    fn sub(self, rhs: Goldilocks) -> (r: Goldilocks)
        ensures
            r@ == fsub(self@, rhs@),
    {
        let r = Goldilocks { value: p3_sub(self.value, rhs.value) };
        proof {
            reveal(fsub);
            lemma_residue_sub(self.value as int, rhs.value as int);
            reveal(residue);
        }
        r
    }
}

impl vstd::std_specs::ops::SubSpecImpl for Goldilocks {
    open spec fn obeys_sub_spec() -> bool {
        false
    }

    open spec fn sub_req(self, rhs: Goldilocks) -> bool {
        true
    }

    open spec fn sub_spec(self, rhs: Goldilocks) -> Goldilocks {
        self
    }
}

impl core::ops::Mul for Goldilocks {
    type Output = Goldilocks;

    fn mul(self, rhs: Goldilocks) -> (r: Goldilocks)
        ensures
            r@ == fmul(self@, rhs@),
    {
        let r = Goldilocks { value: p3_mul(self.value, rhs.value) };
        proof {
            reveal(fmul);
            lemma_residue_mul(self.value as int, rhs.value as int);
            reveal(residue);
        }
        r
    }
}

impl vstd::std_specs::ops::MulSpecImpl for Goldilocks {
    open spec fn obeys_mul_spec() -> bool {
        false
    }

    open spec fn mul_req(self, rhs: Goldilocks) -> bool {
        true
    }

    open spec fn mul_spec(self, rhs: Goldilocks) -> Goldilocks {
        self
    }
}

impl PartialEq for Goldilocks {
    fn eq(&self, other: &Goldilocks) -> (r: bool) {
        proof {
            reveal(residue);
        }
        p3_canonical(self.value) == p3_canonical(other.value)
    }
}

impl vstd::std_specs::cmp::PartialEqSpecImpl for Goldilocks {
    open spec fn obeys_eq_spec() -> bool {
        true
    }

    open spec fn eq_spec(&self, other: &Goldilocks) -> bool {
        self@ == other@
    }
}

/// A residue lies in `[0, P)`.
pub broadcast proof fn lemma_residue_range(x: int)
    ensures
        0 <= #[trigger] residue(x) < P,
{
    reveal(residue);
}

/// A residue is a remainder modulo [`P`].
pub proof fn lemma_residue_is_remainder(x: int)
    ensures
        residue(x) == x % (P as int),
        0 <= residue(x) < P,
{
    reveal(residue);
}

/// An integer in `[0, P)` is its own residue.
pub proof fn lemma_residue_small(x: int)
    requires
        0 <= x < P,
    ensures
        residue(x) == x,
{
    reveal(residue);
}

/// A view is a canonical representative.
pub broadcast proof fn lemma_view_canonical(g: Goldilocks)
    ensures
        residue(#[trigger] g@) == g@,
        0 <= g@ < P,
{
    reveal(residue);
}

/// Reducing twice is reducing once.
pub broadcast proof fn lemma_residue_residue(x: int)
    ensures
        #[trigger] residue(residue(x)) == residue(x),
{
    reveal(residue);
}

pub proof fn lemma_residue_add(x: int, y: int)
    ensures
        residue(residue(x) + residue(y)) == residue(x + y),
{
    reveal(residue);
    vstd::arithmetic::div_mod::lemma_add_mod_noop(x, y, P as int);
}

pub proof fn lemma_residue_sub(x: int, y: int)
    ensures
        residue(residue(x) - residue(y)) == residue(x - y),
{
    reveal(residue);
    vstd::arithmetic::div_mod::lemma_sub_mod_noop(x, y, P as int);
}

pub proof fn lemma_residue_mul(x: int, y: int)
    ensures
        residue(residue(x) * residue(y)) == residue(x * y),
{
    reveal(residue);
    vstd::arithmetic::div_mod::lemma_mul_mod_noop_general(x, y, P as int);
}

/// Two integers are congruent exactly when their difference is a multiple of
/// the modulus.
pub proof fn lemma_residue_difference(x: int, y: int)
    ensures
        residue(x) == residue(y) <==> residue(x - y) == 0,
{
    reveal(residue);
    lemma_residue_sub(x, y);
    if residue(x - y) == 0 {
        let d = residue(x) - residue(y);
        assert(d % (P as int) == 0);
    }
}

pub broadcast proof fn lemma_fadd(x: int, y: int)
    ensures
        #[trigger] fadd(residue(x), residue(y)) == residue(x + y),
{
    reveal(fadd);
    lemma_residue_add(x, y);
}

pub broadcast proof fn lemma_fsub(x: int, y: int)
    ensures
        #[trigger] fsub(residue(x), residue(y)) == residue(x - y),
{
    reveal(fsub);
    lemma_residue_sub(x, y);
}

pub broadcast proof fn lemma_fmul(x: int, y: int)
    ensures
        #[trigger] fmul(residue(x), residue(y)) == residue(x * y),
{
    reveal(fmul);
    lemma_residue_mul(x, y);
}

/// Rewrites an executable field expression into one residue of an integer
/// expression.
pub broadcast group group_residue {
    lemma_residue_range,
    lemma_view_canonical,
    lemma_residue_residue,
    lemma_fadd,
    lemma_fsub,
    lemma_fmul,
}

/// The values of a sequence of elements.
pub open spec fn ints(s: Seq<Goldilocks>) -> Seq<int> {
    Seq::new(s.len(), |i: int| s[i]@)
}

/// The element-wise canonical representatives of a sequence of integers.
pub open spec fn residues(s: Seq<int>) -> Seq<int> {
    Seq::new(s.len(), |i: int| residue(s[i]))
}

/// One step of the xorshift generator on its 64-bit state.
pub open spec fn xorshift(x: u64) -> u64 {
    let a = x ^ (x << 13);
    let b = a ^ (a >> 7);
    b ^ (b << 17)
}

/// The state of the generator after `n` steps.
pub open spec fn xorshift_n(x: u64, n: nat) -> u64
    decreases n,
{
    if n == 0 {
        x
    } else {
        xorshift(xorshift_n(x, (n - 1) as nat))
    }
}

/// The first `n` field elements that the generator draws from state `x`.
pub open spec fn draws(x: u64, n: nat) -> Seq<int> {
    Seq::new(n, |i: int| residue(xorshift_n(x, (i + 1) as nat) as int))
}

/// A deterministic xorshift64 generator of field elements.
pub struct XorShift64(u64);

impl View for XorShift64 {
    type V = u64;

    closed spec fn view(&self) -> u64 {
        self.0
    }
}

impl XorShift64 {
    pub fn new(seed: u64) -> (r: XorShift64)
        ensures
            r@ as int == (seed + 0x9e37_79b9_7f4a_7c15) % 0x1_0000_0000_0000_0000,
    {
        XorShift64(seed.wrapping_add(0x9e37_79b9_7f4a_7c15))
    }

    pub fn next_u64(&mut self) -> (r: u64)
        ensures
            r == xorshift(old(self)@),
            final(self)@ == r,
    {
        let mut x: u64 = self.0;
        x = x ^ (x << 13);
        x = x ^ (x >> 7);
        x = x ^ (x << 17);
        self.0 = x;
        x
    }

    pub fn field(&mut self) -> (r: Goldilocks)
        ensures
            r@ == residue(xorshift(old(self)@) as int),
            final(self)@ == xorshift(old(self)@),
    {
        Goldilocks::from_u64(self.next_u64())
    }
}

/// The generator loses nothing: different states have different successors, and zero
/// alone stays zero.
pub proof fn lemma_xorshift_injective(x: u64, y: u64)
    requires
        xorshift(x) == xorshift(y),
    ensures
        x == y,
{
    let (a, c) = (x ^ (x << 13), y ^ (y << 13));
    let (b, d) = (a ^ (a >> 7), c ^ (c >> 7));
    assert(b ^ (b << 17) == d ^ (d << 17) ==> b == d) by (bit_vector);
    assert(a ^ (a >> 7) == c ^ (c >> 7) ==> a == c) by (bit_vector);
    assert(x ^ (x << 13) == y ^ (y << 13) ==> x == y) by (bit_vector);
}

/// Drawing `a` and then `b` elements draws `a + b` elements: the second batch comes from
/// the state that the first one left. One element is the next state, reduced.
pub proof fn lemma_draws_split(x: u64, a: nat, b: nat)
    ensures
        draws(x, a + b) == draws(x, a) + draws(xorshift_n(x, a), b),
        draws(x, a).len() == a,
        draws(x, 1) == seq![residue(xorshift(x) as int)],
        xorshift_n(x, 0) == x,
        xorshift_n(x, a + 1) == xorshift(xorshift_n(x, a)),
{
    assert forall|i: int| 0 <= i < b implies xorshift_n(x, (a + i + 1) as nat)
        == #[trigger] xorshift_n(xorshift_n(x, a), (i + 1) as nat) by {
        lemma_steps(x, a, (i + 1) as nat);
    }
    assert(draws(x, a + b) =~= draws(x, a) + draws(xorshift_n(x, a), b)) by {
        assert forall|i: int| a <= i < a + b implies #[trigger] draws(x, a + b)[i] == draws(
            xorshift_n(x, a),
            b,
        )[i - a] by {
            let k = i - a;
            assert(xorshift_n(x, (a + k + 1) as nat) == xorshift_n(
                xorshift_n(x, a),
                (k + 1) as nat,
            ));
        }
    }
    assert(xorshift_n(x, 1) == xorshift(xorshift_n(x, 0)));
    assert(draws(x, 1) =~= seq![residue(xorshift(x) as int)]);
}

proof fn lemma_steps(x: u64, a: nat, b: nat)
    ensures
        xorshift_n(x, a + b) == xorshift_n(xorshift_n(x, a), b),
    decreases b,
{
    if b > 0 {
        lemma_steps(x, a, (b - 1) as nat);
    }
}

} // verus!
