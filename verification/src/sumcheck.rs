//! Sum-check protocol for a product of two multilinear polynomials.
//!
//! Proves `H = sum_{x in {0,1}^t} f(x) * h(x)`. Each round polynomial has
//! degree at most two, so the prover sends three coefficients per round. The
//! second half of the module does the same for a product of three.

use crate::field::{
    group_residue, ints, inverse_pair, lemma_fadd, lemma_fmul, lemma_fsub, lemma_residue_add,
    lemma_residue_difference, lemma_residue_mul, lemma_residue_sub, residue, residues, Goldilocks, P,
};
use crate::mle::{
    fix_all, fix_first, fold, lemma_fix_all_is_mle, lemma_fix_all_len, lemma_fix_first_residues,
    mle,
};
use crate::sums::{lemma_sigma_eq, lemma_sigma_pairs, lemma_sigma_residue, sigma};
use vstd::arithmetic::power2::{lemma_pow2_unfold, pow2};
use vstd::prelude::*;

verus! {

/// A degree-2 round polynomial `c0 + c1 x + c2 x^2`.
#[derive(Clone, Copy, Debug, PartialEq)]
pub struct RoundPoly {
    pub c0: Goldilocks,
    pub c1: Goldilocks,
    pub c2: Goldilocks,
}

impl RoundPoly {
    /// The integer value of the polynomial at `x`.
    pub open spec fn at(self, x: int) -> int {
        self.c0@ + self.c1@ * x + self.c2@ * x * x
    }

    pub fn eval(&self, x: Goldilocks) -> (r: Goldilocks)
        ensures
            r@ == residue(self.at(x@)),
    {
        broadcast use group_residue;

        self.c0 + self.c1 * x + self.c2 * x * x
    }
}

#[derive(Clone, Debug)]
pub struct SumcheckProof {
    pub rounds: Vec<RoundPoly>,
    pub f_eval: Goldilocks,
    pub h_eval: Goldilocks,
}

/// `(p + 1) / 2`, the inverse of two.
const INV2: u64 = P / 2 + 1;

/// `sum_i f[i] * h[i]`.
pub open spec fn dot(f: Seq<int>, h: Seq<int>) -> int {
    sigma(f.len(), |i: int| f[i] * h[i])
}

/// Term `i` of the coefficient `c0` of the first round polynomial.
pub open spec fn term0(f: Seq<int>, h: Seq<int>) -> spec_fn(int) -> int {
    |i: int| f[2 * i] * h[2 * i]
}

/// Term `i` of the coefficient `c1` of the first round polynomial.
pub open spec fn term1(f: Seq<int>, h: Seq<int>) -> spec_fn(int) -> int {
    |i: int| f[2 * i] * (h[2 * i + 1] - h[2 * i]) + (f[2 * i + 1] - f[2 * i]) * h[2 * i]
}

/// Term `i` of the coefficient `c2` of the first round polynomial.
pub open spec fn term2(f: Seq<int>, h: Seq<int>) -> spec_fn(int) -> int {
    |i: int| (f[2 * i + 1] - f[2 * i]) * (h[2 * i + 1] - h[2 * i])
}

/// The coefficients of `x -> sum_i f(x, i) * h(x, i)`, the polynomial in the
/// first variable that is left when the others are summed over the hypercube.
pub open spec fn round_coeffs(f: Seq<int>, h: Seq<int>) -> (int, int, int) {
    let n = f.len() / 2;
    (sigma(n, term0(f, h)), sigma(n, term1(f, h)), sigma(n, term2(f, h)))
}

/// The round polynomial that the honest prover sends once the variables in `r`
/// are fixed.
pub open spec fn is_round(p: RoundPoly, f: Seq<int>, h: Seq<int>, r: Seq<int>) -> bool {
    let c = round_coeffs(fix_all(f, r), fix_all(h, r));
    p.c0@ == residue(c.0) && p.c1@ == residue(c.1) && p.c2@ == residue(c.2)
}

/// The honest transcript for `f`, `h` and the challenges `r`.
pub open spec fn is_transcript(rounds: Seq<RoundPoly>, f: Seq<int>, h: Seq<int>, r: Seq<int>) -> bool {
    &&& rounds.len() == r.len()
    &&& forall|k: int| 0 <= k < r.len() ==> is_round(#[trigger] rounds[k], f, h, r.take(k))
}

/// The first round polynomial at `x` is the product sum with variable `0`
/// fixed to `x`.
pub proof fn lemma_round_at(f: Seq<int>, h: Seq<int>, x: int)
    requires
        f.len() == h.len(),
    ensures
        ({
            let c = round_coeffs(f, h);
            c.0 + c.1 * x + c.2 * x * x == dot(fix_first(f, x), fix_first(h, x))
        }),
{
    let n = f.len() / 2;
    let g = |i: int| fix_first(f, x)[i] * fix_first(h, x)[i];
    lemma_round_at_upto(f, h, x, n, g);
}

/// A product of two linear polynomials, by coefficients.
proof fn lemma_expand2(a: int, da: int, b: int, db: int, x: int)
    ensures
        (a + x * da) * (b + x * db) == a * b + (a * db + da * b) * x + (da * db) * x * x,
{
    assert((a + x * da) * (b + x * db) == a * b + a * (x * db) + (x * da) * b + (x * da) * (x * db))
        by (nonlinear_arith);
    assert(a * (x * db) == (a * db) * x) by (nonlinear_arith);
    assert((x * da) * b == (da * b) * x) by (nonlinear_arith);
    assert((x * da) * (x * db) == (da * db) * x * x) by (nonlinear_arith);
    assert((a * db + da * b) * x == (a * db) * x + (da * b) * x) by (nonlinear_arith);
}

proof fn lemma_round_at_upto(f: Seq<int>, h: Seq<int>, x: int, n: nat, g: spec_fn(int) -> int)
    requires
        f.len() == h.len(),
        n <= f.len() / 2,
        forall|i: int| 0 <= i < n ==> #[trigger] g(i) == fix_first(f, x)[i] * fix_first(h, x)[i],
    ensures
        sigma(n, term0(f, h)) + sigma(n, term1(f, h)) * x + sigma(n, term2(f, h)) * x * x == sigma(
            n,
            g,
        ),
    decreases n,
{
    if n > 0 {
        let m = (n - 1) as nat;
        lemma_round_at_upto(f, h, x, m, g);
        let j = m as int;
        let (f0, f1, h0, h1) = (f[2 * j], f[2 * j + 1], h[2 * j], h[2 * j + 1]);
        let (s0, s1, s2) = (sigma(m, term0(f, h)), sigma(m, term1(f, h)), sigma(m, term2(f, h)));
        let (t0, t1, t2) = (
            f0 * h0,
            f0 * (h1 - h0) + (f1 - f0) * h0,
            (f1 - f0) * (h1 - h0),
        );
        assert(g(m as int) == (f0 + x * (f1 - f0)) * (h0 + x * (h1 - h0)));
        lemma_expand2(f0, f1 - f0, h0, h1 - h0, x);
        assert((s0 + t0) + (s1 + t1) * x + (s2 + t2) * x * x == (s0 + s1 * x + s2 * x * x) + (t0
            + t1 * x + t2 * x * x)) by (nonlinear_arith);
    } else {
        assert(0 * x == 0 && 0 * x * x == 0) by (nonlinear_arith);
    }
}

/// The first round polynomial at zero and one adds up to the product sum.
pub proof fn lemma_round_sum(f: Seq<int>, h: Seq<int>)
    requires
        f.len() == h.len(),
        f.len() % 2 == 0,
    ensures
        ({
            let c = round_coeffs(f, h);
            c.0 + (c.0 + c.1 + c.2) == dot(f, h)
        }),
{
    let n = f.len() / 2;
    lemma_round_at(f, h, 0);
    lemma_round_at(f, h, 1);
    let prod = |i: int| f[i] * h[i];
    lemma_sigma_pairs(n, prod);
    let pairs = |i: int| prod(2 * i) + prod(2 * i + 1);
    let at0 = |i: int| fix_first(f, 0)[i] * fix_first(h, 0)[i];
    let at1 = |i: int| fix_first(f, 1)[i] * fix_first(h, 1)[i];
    let both = |i: int| at0(i) + at1(i);
    crate::sums::lemma_sigma_add(n, at0, at1);
    lemma_sigma_eq(n, pairs, both);
}

/// Congruent tables have congruent round coefficients.
proof fn lemma_coeffs_residues(f: Seq<int>, h: Seq<int>, u: Seq<int>, w: Seq<int>)
    requires
        residues(f) == residues(u),
        residues(h) == residues(w),
        f.len() == h.len(),
    ensures
        residue(round_coeffs(f, h).0) == residue(round_coeffs(u, w).0),
        residue(round_coeffs(f, h).1) == residue(round_coeffs(u, w).1),
        residue(round_coeffs(f, h).2) == residue(round_coeffs(u, w).2),
{
    assert(residues(f).len() == f.len() && residues(u).len() == u.len());
    assert(residues(h).len() == h.len() && residues(w).len() == w.len());
    let n = f.len() / 2;
    assert forall|i: int| 0 <= i < n implies residue(#[trigger] term0(f, h)(i)) == residue(
        term0(u, w)(i),
    ) && residue(term1(f, h)(i)) == residue(term1(u, w)(i)) && residue(term2(f, h)(i)) == residue(
        term2(u, w)(i),
    ) by {
        let (f0, f1, h0, h1) = (f[2 * i], f[2 * i + 1], h[2 * i], h[2 * i + 1]);
        let (u0, u1, w0, w1) = (u[2 * i], u[2 * i + 1], w[2 * i], w[2 * i + 1]);
        assert(residues(f)[2 * i] == residue(f0) && residues(u)[2 * i] == residue(u0));
        assert(residues(f)[2 * i + 1] == residue(f1) && residues(u)[2 * i + 1] == residue(u1));
        assert(residues(h)[2 * i] == residue(h0) && residues(w)[2 * i] == residue(w0));
        assert(residues(h)[2 * i + 1] == residue(h1) && residues(w)[2 * i + 1] == residue(w1));
        lemma_residue_mul(f0, h0);
        lemma_residue_mul(u0, w0);
        lemma_residue_sub(f1, f0);
        lemma_residue_sub(u1, u0);
        lemma_residue_sub(h1, h0);
        lemma_residue_sub(w1, w0);
        lemma_residue_mul(f0, h1 - h0);
        lemma_residue_mul(u0, w1 - w0);
        lemma_residue_mul(f1 - f0, h0);
        lemma_residue_mul(u1 - u0, w0);
        lemma_residue_mul(f1 - f0, h1 - h0);
        lemma_residue_mul(u1 - u0, w1 - w0);
        lemma_residue_add(f0 * (h1 - h0), (f1 - f0) * h0);
        lemma_residue_add(u0 * (w1 - w0), (u1 - u0) * w0);
    }
    lemma_sigma_residue(n, term0(f, h), term0(u, w));
    assert forall|i: int| 0 <= i < n implies residue(#[trigger] term1(f, h)(i)) == residue(
        term1(u, w)(i),
    ) by {
        assert(residue(term0(f, h)(i)) == residue(term0(u, w)(i)));
    }
    lemma_sigma_residue(n, term1(f, h), term1(u, w));
    assert forall|i: int| 0 <= i < n implies residue(#[trigger] term2(f, h)(i)) == residue(
        term2(u, w)(i),
    ) by {
        assert(residue(term0(f, h)(i)) == residue(term0(u, w)(i)));
    }
    lemma_sigma_residue(n, term2(f, h), term2(u, w));
}

/// Multiplying by a number and then by its inverse changes nothing.
pub proof fn lemma_cancel(k: int, inv: int, x: int)
    requires
        inverse_pair(residue(k), residue(inv)),
    ensures
        residue((k * x) * inv) == residue(x),
{
    lemma_residue_mul(k, inv);
    lemma_residue_mul(k * inv, x);
    lemma_residue_mul(1, x);
    crate::field::lemma_residue_small(1);
    assert((k * x) * inv == (k * inv) * x) by (nonlinear_arith);
    assert(1 * x == x);
}

/// The sums of the products at `x = 1` and `x = 2`.
spec fn term_at1(f: Seq<int>, h: Seq<int>) -> spec_fn(int) -> int {
    |i: int| f[2 * i + 1] * h[2 * i + 1]
}

spec fn term_at2(f: Seq<int>, h: Seq<int>) -> spec_fn(int) -> int {
    |i: int| (2 * f[2 * i + 1] - f[2 * i]) * (2 * h[2 * i + 1] - h[2 * i])
}

/// Interpolation through the values at zero, one and two, on the integers.
proof fn lemma_interpolate(f: Seq<int>, h: Seq<int>, n: nat)
    ensures
        4 * sigma(n, term_at1(f, h)) - sigma(n, term_at2(f, h)) - 3 * sigma(n, term0(f, h)) == 2
            * sigma(n, term1(f, h)),
        sigma(n, term_at2(f, h)) - 2 * sigma(n, term_at1(f, h)) + sigma(n, term0(f, h)) == 2
            * sigma(n, term2(f, h)),
    decreases n,
{
    if n > 0 {
        let m = (n - 1) as nat;
        lemma_interpolate(f, h, m);
        let j = m as int;
        let (f0, f1, h0, h1) = (f[2 * j], f[2 * j + 1], h[2 * j], h[2 * j + 1]);
        assert(4 * (f1 * h1) - (2 * f1 - f0) * (2 * h1 - h0) - 3 * (f0 * h0) == 2 * (f0 * (h1 - h0)
            + (f1 - f0) * h0)) by (nonlinear_arith);
        assert((2 * f1 - f0) * (2 * h1 - h0) - 2 * (f1 * h1) + f0 * h0 == 2 * ((f1 - f0) * (h1
            - h0))) by (nonlinear_arith);
    }
}

/// The coefficients of the first round polynomial of the tables `f` and `h`.
fn round_poly(f: &Vec<Goldilocks>, h: &Vec<Goldilocks>) -> (p: RoundPoly)
    requires
        f@.len() == h@.len(),
    ensures
        p.c0@ == residue(round_coeffs(ints(f@), ints(h@)).0),
        p.c1@ == residue(round_coeffs(ints(f@), ints(h@)).1),
        p.c2@ == residue(round_coeffs(ints(f@), ints(h@)).2),
{
    let len: usize = f.len();
    let half: usize = len / 2;
    let ghost (u, w) = (ints(f@), ints(h@));
    let mut y0 = Goldilocks::zero();
    let mut y1 = Goldilocks::zero();
    let mut y2 = Goldilocks::zero();
    for s in 0..half
        invariant
            len == f@.len() == h@.len(),
            half == len / 2,
            u == ints(f@),
            w == ints(h@),
            y0@ == residue(sigma(s as nat, term0(u, w))),
            y1@ == residue(sigma(s as nat, term_at1(u, w))),
            y2@ == residue(sigma(s as nat, term_at2(u, w))),
    {
        broadcast use group_residue;

        let f0 = f[2 * s];
        let f1 = f[2 * s + 1];
        let h0 = h[2 * s];
        let h1 = h[2 * s + 1];
        let f2 = Goldilocks::two() * f1 - f0;
        let h2 = Goldilocks::two() * h1 - h0;
        assert(f2@ == residue(2 * f1@ - f0@));
        assert(h2@ == residue(2 * h1@ - h0@));
        y0 = y0 + f0 * h0;
        y1 = y1 + f1 * h1;
        y2 = y2 + f2 * h2;
        assert(u[2 * s as int] == f0@ && u[2 * s + 1] == f1@);
        assert(w[2 * s as int] == h0@ && w[2 * s + 1] == h1@);
        assert(y0@ == residue(sigma(s as nat, term0(u, w)) + term0(u, w)(s as int)));
        assert(y1@ == residue(sigma(s as nat, term_at1(u, w)) + term_at1(u, w)(s as int)));
        assert(y2@ == residue(sigma(s as nat, term_at2(u, w)) + term_at2(u, w)(s as int)));
    }
    let inv2 = Goldilocks::from_u64(INV2);
    let c0 = y0;
    let y1_4 = Goldilocks::from_u64(4) * y1;
    let y0_3 = Goldilocks::from_u64(3) * y0;
    let y1_2 = Goldilocks::two() * y1;
    let c1 = (y1_4 - y2 - y0_3) * inv2;
    let c2 = (y2 - y1_2 + y0) * inv2;
    proof {
        let n = half as nat;
        let (s0, s1, s2) = (
            sigma(n, term0(u, w)),
            sigma(n, term_at1(u, w)),
            sigma(n, term_at2(u, w)),
        );
        let (k1, k2) = (sigma(n, term1(u, w)), sigma(n, term2(u, w)));
        lemma_interpolate(u, w, n);
        lemma_fmul(4, s1);
        lemma_fmul(3, s0);
        lemma_fmul(2, s1);
        lemma_fsub(4 * s1, s2);
        lemma_fsub(4 * s1 - s2, 3 * s0);
        lemma_fsub(s2, 2 * s1);
        lemma_fadd(s2 - 2 * s1, s0);
        assert(inverse_pair(residue(2), residue(INV2 as int))) by {
            reveal(residue);
        }
        lemma_cancel(2, INV2 as int, k1);
        lemma_cancel(2, INV2 as int, k2);
        lemma_fmul(2 * k1, INV2 as int);
        lemma_fmul(2 * k2, INV2 as int);
    }
    RoundPoly { c0, c1, c2 }
}

pub fn prove(
    f: &[Goldilocks],
    h: &[Goldilocks],
    _claimed_sum: Goldilocks,
    challenges: &[Goldilocks],
) -> (proof: SumcheckProof)
    requires
        f@.len() == pow2(challenges@.len()),
        h@.len() == f@.len(),
    ensures
        is_transcript(proof.rounds@, ints(f@), ints(h@), ints(challenges@)),
        proof.f_eval@ == residue(mle(ints(f@), ints(challenges@))),
        proof.h_eval@ == residue(mle(ints(h@), ints(challenges@))),
{
    let ghost (fv, hv, r) = (ints(f@), ints(h@), ints(challenges@));
    let mut f_buf: Vec<Goldilocks> = vstd::slice::slice_to_vec(f);
    let mut h_buf: Vec<Goldilocks> = vstd::slice::slice_to_vec(h);
    let mut rounds: Vec<RoundPoly> = Vec::new();
    proof {
        broadcast use group_residue;

        assert(r.take(0) =~= Seq::<int>::empty());
        assert(ints(f_buf@) =~= residues(fv));
        assert(ints(h_buf@) =~= residues(hv));
    }
    for k in 0..challenges.len()
        invariant
            fv == ints(f@),
            hv == ints(h@),
            r == ints(challenges@),
            fv.len() == hv.len() == pow2(r.len()),
            ints(f_buf@) == residues(fix_all(fv, r.take(k as int))),
            ints(h_buf@) == residues(fix_all(hv, r.take(k as int))),
            rounds@.len() == k,
            forall|j: int| 0 <= j < k ==> is_round(#[trigger] rounds@[j], fv, hv, r.take(j)),
    {
        let ghost t = r.take(k as int);
        let ghost (fk, hk) = (fix_all(fv, t), fix_all(hv, t));
        let ghost (u, w) = (ints(f_buf@), ints(h_buf@));
        proof {
            lemma_fix_all_upto(fv, r, k as int);
            lemma_fix_all_upto(hv, r, k as int);
            assert(ints(f_buf@).len() == f_buf@.len() && residues(fk).len() == fk.len());
            assert(ints(h_buf@).len() == h_buf@.len() && residues(hk).len() == hk.len());
            lemma_residues_idem(u, fk);
            lemma_residues_idem(w, hk);
            lemma_coeffs_residues(fk, hk, u, w);
        }
        let p = round_poly(&f_buf, &h_buf);
        rounds.push(p);
        fold(&mut f_buf, challenges[k]);
        fold(&mut h_buf, challenges[k]);
        proof {
            let x = challenges@[k as int]@;
            lemma_fix_first_residues(u, fk, x);
            lemma_fix_first_residues(w, hk, x);
            assert(r.take(k + 1).drop_last() =~= t);
            assert(r.take(k + 1).last() == x);
        }
    }
    proof {
        assert(r.take(r.len() as int) =~= r);
        lemma_fix_all_is_mle(fv, r);
        lemma_fix_all_is_mle(hv, r);
        assert(residues(fix_all(fv, r)).len() == 1 && residues(fix_all(hv, r)).len() == 1);
        assert(ints(f_buf@).len() == f_buf@.len() && ints(h_buf@).len() == h_buf@.len());
        assert(ints(f_buf@)[0] == f_buf@[0]@ && ints(h_buf@)[0] == h_buf@[0]@);
    }
    SumcheckProof { rounds, f_eval: f_buf[0], h_eval: h_buf[0] }
}

/// The table that is left once the first `k` of the variables are fixed has
/// `2^(t - k)` entries.
pub proof fn lemma_fix_all_upto(v: Seq<int>, r: Seq<int>, k: int)
    requires
        v.len() == pow2(r.len()),
        0 <= k <= r.len(),
    ensures
        fix_all(v, r.take(k)).len() == pow2((r.len() - k) as nat),
{
    vstd::arithmetic::power2::lemma_pow2_adds((r.len() - k) as nat, k as nat);
    lemma_fix_all_len(v, r.take(k), pow2((r.len() - k) as nat));
}

/// Reducing a reduced sequence changes nothing.
pub proof fn lemma_residues_idem(u: Seq<int>, v: Seq<int>)
    requires
        u == residues(v),
    ensures
        residues(u) == residues(v),
{
    broadcast use group_residue;

    assert(residues(u) =~= residues(v));
}

/// Congruent tables have the same transcripts.
pub proof fn lemma_transcript_residues(
    rounds: Seq<RoundPoly>,
    f: Seq<int>,
    h: Seq<int>,
    u: Seq<int>,
    w: Seq<int>,
    r: Seq<int>,
)
    requires
        residues(f) == residues(u),
        residues(h) == residues(w),
        f.len() == h.len() == pow2(r.len()),
    ensures
        is_transcript(rounds, f, h, r) == is_transcript(rounds, u, w, r),
{
    assert forall|k: int| 0 <= k < r.len() implies is_round(rounds[k], f, h, r.take(k))
        == is_round(#[trigger] rounds[k], u, w, r.take(k)) by {
        let t = r.take(k);
        crate::mle::lemma_fix_all_residues(f, u, t);
        crate::mle::lemma_fix_all_residues(h, w, t);
        lemma_fix_all_upto(f, r, k);
        lemma_fix_all_upto(h, r, k);
        lemma_coeffs_residues(fix_all(f, t), fix_all(h, t), fix_all(u, t), fix_all(w, t));
    }
}

/// What the verifier expects round `k` to add up to: the claim, then the value
/// of the previous round polynomial at its challenge.
pub open spec fn carried(rounds: Seq<RoundPoly>, claimed: int, r: Seq<int>, k: int) -> int {
    if k <= 0 {
        residue(claimed)
    } else {
        residue(rounds[k - 1].at(r[k - 1]))
    }
}

/// The verifier's decision: every round adds up to the value carried into it,
/// and the last value is the product of the two evaluations.
pub open spec fn accepts(
    rounds: Seq<RoundPoly>,
    claimed: int,
    r: Seq<int>,
    f_eval: int,
    h_eval: int,
) -> bool {
    &&& rounds.len() == r.len()
    &&& forall|k: int|
        0 <= k < r.len() ==> residue((#[trigger] rounds[k]).at(0) + rounds[k].at(1)) == carried(
            rounds,
            claimed,
            r,
            k,
        )
    &&& carried(rounds, claimed, r, r.len() as int) == residue(f_eval * h_eval)
}

pub fn verify(
    proof: &SumcheckProof,
    claimed_sum: Goldilocks,
    challenges: &[Goldilocks],
    f_eval: Goldilocks,
    h_eval: Goldilocks,
) -> (ok: bool)
    ensures
        ok == accepts(proof.rounds@, claimed_sum@, ints(challenges@), f_eval@, h_eval@),
{
    let ghost r = ints(challenges@);
    if proof.rounds.len() != challenges.len() {
        return false;
    }
    let mut prev = claimed_sum;
    proof {
        broadcast use group_residue;

        assert(prev@ == residue(claimed_sum@));
    }
    for k in 0..challenges.len()
        invariant
            r == ints(challenges@),
            proof.rounds@.len() == challenges@.len(),
            prev@ == carried(proof.rounds@, claimed_sum@, r, k as int),
            forall|j: int|
                0 <= j < k ==> residue(
                    (#[trigger] proof.rounds@[j]).at(0) + proof.rounds@[j].at(1),
                ) == carried(proof.rounds@, claimed_sum@, r, j),
    {
        broadcast use group_residue;

        let rp = proof.rounds[k];
        let p0 = rp.c0;
        let p1 = rp.c0 + rp.c1 + rp.c2;
        let sum = p0 + p1;
        assert(rp.at(0) == rp.c0@) by {
            assert(rp.c1@ * 0 == 0 && rp.c2@ * 0 * 0 == 0);
        }
        assert(rp.at(1) == rp.c0@ + rp.c1@ + rp.c2@);
        assert(sum@ == residue(rp.at(0) + rp.at(1)));
        if sum != prev {
            assert(rp == proof.rounds@[k as int]);
            return false;
        }
        prev = rp.eval(challenges[k]);
    }
    proof {
        broadcast use group_residue;
    }
    prev == f_eval * h_eval
}

/// An honest round polynomial at `x` is the product sum with the earlier
/// variables fixed to `r` and the next one to `x`.
pub proof fn lemma_is_round_at(p: RoundPoly, f: Seq<int>, h: Seq<int>, r: Seq<int>, x: int)
    requires
        is_round(p, f, h, r),
        fix_all(f, r).len() == fix_all(h, r).len(),
    ensures
        residue(p.at(x)) == residue(dot(fix_all(f, r.push(x)), fix_all(h, r.push(x)))),
{
    let (fr, hr) = (fix_all(f, r), fix_all(h, r));
    let c = round_coeffs(fr, hr);
    lemma_round_at(fr, hr, x);
    lemma_poly_residue(p, c.0, c.1, c.2, x);
    assert(r.push(x).drop_last() =~= r);
    assert(r.push(x).last() == x);
}

/// Congruent coefficients give congruent values.
proof fn lemma_poly_residue(p: RoundPoly, c0: int, c1: int, c2: int, x: int)
    requires
        p.c0@ == residue(c0),
        p.c1@ == residue(c1),
        p.c2@ == residue(c2),
    ensures
        residue(p.at(x)) == residue(c0 + c1 * x + c2 * x * x),
{
    broadcast use crate::field::lemma_residue_residue;

    lemma_residue_mul(c1, x);
    lemma_residue_mul(p.c1@, x);
    lemma_residue_mul(c2, x);
    lemma_residue_mul(p.c2@, x);
    lemma_residue_mul(c2 * x, x);
    lemma_residue_mul(p.c2@ * x, x);
    lemma_residue_add(c0, c1 * x);
    lemma_residue_add(p.c0@, p.c1@ * x);
    lemma_residue_add(c0 + c1 * x, c2 * x * x);
    lemma_residue_add(p.c0@ + p.c1@ * x, p.c2@ * x * x);
}

/// An honest round polynomial at zero and one adds up to the product sum over
/// the variables that are not fixed yet.
pub proof fn lemma_is_round_sum(p: RoundPoly, f: Seq<int>, h: Seq<int>, r: Seq<int>)
    requires
        is_round(p, f, h, r),
        fix_all(f, r).len() == fix_all(h, r).len(),
        fix_all(f, r).len() % 2 == 0,
    ensures
        residue(p.at(0) + p.at(1)) == residue(dot(fix_all(f, r), fix_all(h, r))),
{
    let (fr, hr) = (fix_all(f, r), fix_all(h, r));
    let c = round_coeffs(fr, hr);
    lemma_round_sum(fr, hr);
    lemma_poly_residue(p, c.0, c.1, c.2, 0);
    lemma_poly_residue(p, c.0, c.1, c.2, 1);
    let at0 = c.0 + c.1 * 0 + c.2 * 0 * 0;
    let at1 = c.0 + c.1 * 1 + c.2 * 1 * 1;
    assert(at0 == c.0 && at1 == c.0 + c.1 + c.2);
    lemma_residue_add(p.at(0), p.at(1));
    lemma_residue_add(at0, at1);
}

/// On an honest transcript the verifier accepts exactly when the claim is the
/// true product sum and the product of the evaluations is the true one.
pub proof fn lemma_transcript_accepted(
    rounds: Seq<RoundPoly>,
    f: Seq<int>,
    h: Seq<int>,
    r: Seq<int>,
    claimed: int,
    f_eval: int,
    h_eval: int,
)
    requires
        f.len() == h.len() == pow2(r.len()),
        is_transcript(rounds, f, h, r),
    ensures
        accepts(rounds, claimed, r, f_eval, h_eval) == (if r.len() == 0 {
            residue(claimed) == residue(f_eval * h_eval)
        } else {
            residue(claimed) == residue(dot(f, h)) && residue(f_eval * h_eval) == residue(
                mle(f, r) * mle(h, r),
            )
        }),
{
    let t = r.len();
    assert forall|k: int| 0 <= k < t implies residue(
        (#[trigger] rounds[k]).at(0) + rounds[k].at(1),
    ) == residue(dot(fix_all(f, r.take(k)), fix_all(h, r.take(k)))) && residue(
        rounds[k].at(r[k]),
    ) == residue(dot(fix_all(f, r.take(k + 1)), fix_all(h, r.take(k + 1)))) by {
        lemma_fix_all_upto(f, r, k);
        lemma_fix_all_upto(h, r, k);
        lemma_pow2_unfold((t - k) as nat);
        lemma_is_round_sum(rounds[k], f, h, r.take(k));
        lemma_is_round_at(rounds[k], f, h, r.take(k), r[k]);
        assert(r.take(k).push(r[k]) =~= r.take(k + 1));
    }
    if t > 0 {
        assert(r.take(0) =~= Seq::<int>::empty());
        assert(r.take(t as int) =~= r);
        assert(residue(rounds[0].at(0) + rounds[0].at(1)) == residue(dot(f, h)));
        lemma_fix_all_is_mle(f, r);
        lemma_fix_all_is_mle(h, r);
        lemma_dot_single(fix_all(f, r), fix_all(h, r));
        assert(carried(rounds, claimed, r, t as int) == residue(rounds[t - 1].at(r[t - 1])));
        assert(carried(rounds, claimed, r, t as int) == residue(mle(f, r) * mle(h, r)));
        assert forall|k: int| 0 < k < t implies residue(
            (#[trigger] rounds[k]).at(0) + rounds[k].at(1),
        ) == carried(rounds, claimed, r, k) by {
            assert(residue(rounds[k - 1].at(r[k - 1])) == residue(
                dot(fix_all(f, r.take(k)), fix_all(h, r.take(k))),
            ));
        }
    }
}

/// The product sum of two one-entry tables.
pub proof fn lemma_dot_single(f: Seq<int>, h: Seq<int>)
    requires
        f.len() == 1,
    ensures
        dot(f, h) == f[0] * h[0],
{
    let g = |i: int| f[i] * h[i];
    assert(sigma(1, g) == sigma(0, g) + g(0));
}

/// Completeness and rejection of wrong claims: with the true evaluations, an
/// honest transcript is accepted for the true sum and for no other claim.
pub proof fn lemma_sumcheck_complete(
    rounds: Seq<RoundPoly>,
    f: Seq<int>,
    h: Seq<int>,
    r: Seq<int>,
    claimed: int,
    f_eval: int,
    h_eval: int,
)
    requires
        f.len() == h.len() == pow2(r.len()),
        is_transcript(rounds, f, h, r),
        residue(f_eval) == residue(mle(f, r)),
        residue(h_eval) == residue(mle(h, r)),
    ensures
        accepts(rounds, claimed, r, f_eval, h_eval) == (residue(claimed) == residue(dot(f, h))),
{
    lemma_transcript_accepted(rounds, f, h, r, claimed, f_eval, h_eval);
    lemma_residue_mul(f_eval, h_eval);
    lemma_residue_mul(mle(f, r), mle(h, r));
    if r.len() == 0 {
        vstd::arithmetic::power2::lemma2_to64();
        crate::mle::lemma_mle_constant(f, r);
        crate::mle::lemma_mle_constant(h, r);
        lemma_dot_single(f, h);
    }
}

/// Soundness: when any transcript at all is accepted for a false claim with
/// the true evaluations, then in some round the prover sent a polynomial that
/// is not the honest one and that the challenge of that round failed to tell
/// from it.
pub proof fn lemma_sumcheck_sound(
    rounds: Seq<RoundPoly>,
    f: Seq<int>,
    h: Seq<int>,
    r: Seq<int>,
    claimed: int,
    f_eval: int,
    h_eval: int,
) -> (k: int)
    requires
        f.len() == h.len() == pow2(r.len()),
        accepts(rounds, claimed, r, f_eval, h_eval),
        residue(f_eval) == residue(mle(f, r)),
        residue(h_eval) == residue(mle(h, r)),
        residue(claimed) != residue(dot(f, h)),
    ensures
        0 <= k < r.len(),
        !is_round(rounds[k], f, h, r.take(k)),
        ({
            let c = round_coeffs(fix_all(f, r.take(k)), fix_all(h, r.take(k)));
            residue(rounds[k].at(r[k])) == residue(c.0 + c.1 * r[k] + c.2 * r[k] * r[k])
        }),
{
    let t = r.len() as int;
    assert(r.take(0) =~= Seq::<int>::empty());
    assert(r.take(t) =~= r);
    lemma_fix_all_is_mle(f, r);
    lemma_fix_all_is_mle(h, r);
    lemma_dot_single(fix_all(f, r), fix_all(h, r));
    lemma_residue_mul(f_eval, h_eval);
    lemma_residue_mul(mle(f, r), mle(h, r));
    let k = lemma_first_agreement(rounds, f, h, r, claimed, t);
    lemma_fix_all_upto(f, r, k);
    lemma_fix_all_upto(h, r, k);
    lemma_pow2_unfold((t - k) as nat);
    if is_round(rounds[k], f, h, r.take(k)) {
        lemma_is_round_sum(rounds[k], f, h, r.take(k));
        assert(residue(rounds[k].at(0) + rounds[k].at(1)) == carried(rounds, claimed, r, k));
    }
    assert(r.take(k + 1).drop_last() =~= r.take(k));
    assert(r.take(k + 1).last() == r[k]);
    lemma_round_at(fix_all(f, r.take(k)), fix_all(h, r.take(k)), r[k]);
    k
}

/// A round into which a wrong value is carried and out of which the true one
/// comes.
proof fn lemma_first_agreement(
    rounds: Seq<RoundPoly>,
    f: Seq<int>,
    h: Seq<int>,
    r: Seq<int>,
    claimed: int,
    n: int,
) -> (k: int)
    requires
        0 <= n <= r.len(),
        residue(claimed) != residue(dot(fix_all(f, r.take(0)), fix_all(h, r.take(0)))),
        carried(rounds, claimed, r, n) == residue(
            dot(fix_all(f, r.take(n)), fix_all(h, r.take(n))),
        ),
    ensures
        0 <= k < n,
        carried(rounds, claimed, r, k) != residue(
            dot(fix_all(f, r.take(k)), fix_all(h, r.take(k))),
        ),
        residue(rounds[k].at(r[k])) == residue(
            dot(fix_all(f, r.take(k + 1)), fix_all(h, r.take(k + 1))),
        ),
    decreases n,
{
    if carried(rounds, claimed, r, n - 1) != residue(
        dot(fix_all(f, r.take(n - 1)), fix_all(h, r.take(n - 1))),
    ) {
        n - 1
    } else {
        lemma_first_agreement(rounds, f, h, r, claimed, n - 1)
    }
}

/// A degree-3 round polynomial `c0 + c1 x + c2 x^2 + c3 x^3` for the triple
/// product sum-check `H = sum f(x) g(x) h(x)`.
#[derive(Clone, Copy, Debug, PartialEq)]
pub struct RoundPoly3 {
    pub c0: Goldilocks,
    pub c1: Goldilocks,
    pub c2: Goldilocks,
    pub c3: Goldilocks,
}

impl RoundPoly3 {
    /// The integer value of the polynomial at `x`.
    pub open spec fn at(self, x: int) -> int {
        self.c0@ + self.c1@ * x + self.c2@ * x * x + self.c3@ * x * x * x
    }

    pub fn eval(&self, x: Goldilocks) -> (r: Goldilocks)
        ensures
            r@ == residue(self.at(x@)),
    {
        let t1 = self.c1 * x;
        let t2 = self.c2 * x * x;
        let t3 = self.c3 * x * x * x;
        proof {
            broadcast use crate::field::lemma_view_canonical;

            let (c1, c2, c3, v) = (self.c1@, self.c2@, self.c3@, x@);
            lemma_fmul(c1, v);
            lemma_fmul(c2, v);
            lemma_fmul(c2 * v, v);
            lemma_fmul(c3, v);
            lemma_fmul(c3 * v, v);
            lemma_fmul(c3 * v * v, v);
            lemma_fadd(self.c0@, c1 * v);
            lemma_fadd(self.c0@ + c1 * v, c2 * v * v);
            lemma_fadd(self.c0@ + c1 * v + c2 * v * v, c3 * v * v * v);
        }
        self.c0 + t1 + t2 + t3
    }
}

#[derive(Clone, Debug)]
pub struct SumcheckProof3 {
    pub rounds: Vec<RoundPoly3>,
    pub f_eval: Goldilocks,
    pub g_eval: Goldilocks,
    pub h_eval: Goldilocks,
}

/// `sum_i f[i] * g[i] * h[i]`.
pub open spec fn dot3(f: Seq<int>, g: Seq<int>, h: Seq<int>) -> int {
    sigma(f.len(), |i: int| f[i] * g[i] * h[i])
}

/// Term `i` of coefficient `c_j` of the first round polynomial of a triple
/// product.
pub open spec fn cubic_term(f: Seq<int>, g: Seq<int>, h: Seq<int>, j: int) -> spec_fn(int) -> int {
    |i: int|
        {
            let (a, da) = (f[2 * i], f[2 * i + 1] - f[2 * i]);
            let (b, db) = (g[2 * i], g[2 * i + 1] - g[2 * i]);
            let (c, dc) = (h[2 * i], h[2 * i + 1] - h[2 * i]);
            if j == 0 {
                a * b * c
            } else if j == 1 {
                da * b * c + a * db * c + a * b * dc
            } else if j == 2 {
                da * db * c + da * b * dc + a * db * dc
            } else {
                da * db * dc
            }
        }
}

/// Coefficient `c_j` of `x -> sum_i f(x, i) * g(x, i) * h(x, i)`.
pub open spec fn cubic_coeff(f: Seq<int>, g: Seq<int>, h: Seq<int>, j: int) -> int {
    sigma(f.len() / 2, cubic_term(f, g, h, j))
}

/// The round polynomial that the honest prover sends once the variables in `r`
/// are fixed.
pub open spec fn is_round3(
    p: RoundPoly3,
    f: Seq<int>,
    g: Seq<int>,
    h: Seq<int>,
    r: Seq<int>,
) -> bool {
    let (fr, gr, hr) = (fix_all(f, r), fix_all(g, r), fix_all(h, r));
    &&& p.c0@ == residue(cubic_coeff(fr, gr, hr, 0))
    &&& p.c1@ == residue(cubic_coeff(fr, gr, hr, 1))
    &&& p.c2@ == residue(cubic_coeff(fr, gr, hr, 2))
    &&& p.c3@ == residue(cubic_coeff(fr, gr, hr, 3))
}

/// The honest transcript for `f`, `g`, `h` and the challenges `r`.
pub open spec fn is_transcript3(
    rounds: Seq<RoundPoly3>,
    f: Seq<int>,
    g: Seq<int>,
    h: Seq<int>,
    r: Seq<int>,
) -> bool {
    &&& rounds.len() == r.len()
    &&& forall|k: int| 0 <= k < r.len() ==> is_round3(#[trigger] rounds[k], f, g, h, r.take(k))
}

/// A cubic by coefficients.
pub open spec fn cubic(c0: int, c1: int, c2: int, c3: int, x: int) -> int {
    c0 + c1 * x + c2 * x * x + c3 * x * x * x
}

/// A product of three linear polynomials, by coefficients.
proof fn lemma_expand3(a: int, da: int, b: int, db: int, c: int, dc: int, x: int)
    ensures
        (a + x * da) * (b + x * db) * (c + x * dc) == cubic(
            a * b * c,
            da * b * c + a * db * c + a * b * dc,
            da * db * c + da * b * dc + a * db * dc,
            da * db * dc,
            x,
        ),
{
    lemma_expand2(a, da, b, db, x);
    let (p0, p1, p2) = (a * b, a * db + da * b, da * db);
    assert((p0 + p1 * x + p2 * x * x) * (c + x * dc) == p0 * c + (p1 * c + p0 * dc) * x + (p2 * c
        + p1 * dc) * x * x + (p2 * dc) * x * x * x) by {
        let q = p0 + p1 * x + p2 * x * x;
        assert(q * (c + x * dc) == q * c + (q * dc) * x) by (nonlinear_arith);
        assert((p0 + p1 * x + p2 * x * x) * c == p0 * c + (p1 * c) * x + (p2 * c) * x * x)
            by (nonlinear_arith);
        assert((p0 + p1 * x + p2 * x * x) * dc == p0 * dc + (p1 * dc) * x + (p2 * dc) * x * x)
            by (nonlinear_arith);
        let (u, v, w) = (p0 * dc, p1 * dc, p2 * dc);
        assert((u + v * x + w * x * x) * x == u * x + v * x * x + w * x * x * x)
            by (nonlinear_arith);
        assert((p1 * c + u) * x == (p1 * c) * x + u * x) by (nonlinear_arith);
        assert((p2 * c + v) * x * x == (p2 * c) * x * x + v * x * x) by (nonlinear_arith);
    }
    assert((a * db + da * b) * c + (a * b) * dc == da * b * c + a * db * c + a * b * dc)
        by (nonlinear_arith);
    assert((da * db) * c + (a * db + da * b) * dc == da * db * c + da * b * dc + a * db * dc)
        by (nonlinear_arith);
}

/// Term `i` of the product sum with the first variable fixed to `x`.
spec fn term_at(f: Seq<int>, g: Seq<int>, h: Seq<int>, x: int) -> spec_fn(int) -> int {
    |i: int|
        (f[2 * i] + x * (f[2 * i + 1] - f[2 * i])) * (g[2 * i] + x * (g[2 * i + 1] - g[2 * i])) * (
        h[2 * i] + x * (h[2 * i + 1] - h[2 * i]))
}

proof fn lemma_cubic_at_upto(f: Seq<int>, g: Seq<int>, h: Seq<int>, x: int, n: nat)
    ensures
        cubic(
            sigma(n, cubic_term(f, g, h, 0)),
            sigma(n, cubic_term(f, g, h, 1)),
            sigma(n, cubic_term(f, g, h, 2)),
            sigma(n, cubic_term(f, g, h, 3)),
            x,
        ) == sigma(n, term_at(f, g, h, x)),
    decreases n,
{
    if n > 0 {
        let m = (n - 1) as nat;
        let i = n - 1;
        lemma_cubic_at_upto(f, g, h, x, m);
        let (a, da) = (f[2 * i], f[2 * i + 1] - f[2 * i]);
        let (b, db) = (g[2 * i], g[2 * i + 1] - g[2 * i]);
        let (c, dc) = (h[2 * i], h[2 * i + 1] - h[2 * i]);
        lemma_expand3(a, da, b, db, c, dc, x);
        let (s0, s1, s2, s3) = (
            sigma(m, cubic_term(f, g, h, 0)),
            sigma(m, cubic_term(f, g, h, 1)),
            sigma(m, cubic_term(f, g, h, 2)),
            sigma(m, cubic_term(f, g, h, 3)),
        );
        let (t0, t1, t2, t3) = (
            cubic_term(f, g, h, 0)(i),
            cubic_term(f, g, h, 1)(i),
            cubic_term(f, g, h, 2)(i),
            cubic_term(f, g, h, 3)(i),
        );
        assert((s1 + t1) * x == s1 * x + t1 * x) by (nonlinear_arith);
        assert((s2 + t2) * x * x == s2 * x * x + t2 * x * x) by (nonlinear_arith);
        assert((s3 + t3) * x * x * x == s3 * x * x * x + t3 * x * x * x) by (nonlinear_arith);
        assert(term_at(f, g, h, x)(i) == cubic(t0, t1, t2, t3, x));
    } else {
        assert(0 * x == 0 && 0 * x * x == 0 && 0 * x * x * x == 0) by (nonlinear_arith);
    }
}

/// The first round polynomial at `x` is the product sum with variable `0`
/// fixed to `x`.
pub proof fn lemma_cubic_at(f: Seq<int>, g: Seq<int>, h: Seq<int>, x: int)
    requires
        f.len() == g.len() == h.len(),
    ensures
        cubic(
            cubic_coeff(f, g, h, 0),
            cubic_coeff(f, g, h, 1),
            cubic_coeff(f, g, h, 2),
            cubic_coeff(f, g, h, 3),
            x,
        ) == dot3(fix_first(f, x), fix_first(g, x), fix_first(h, x)),
{
    let n = f.len() / 2;
    lemma_cubic_at_upto(f, g, h, x, n);
    lemma_sigma_eq(
        n,
        term_at(f, g, h, x),
        |i: int| fix_first(f, x)[i] * fix_first(g, x)[i] * fix_first(h, x)[i],
    );
}

/// The first round polynomial at zero and one adds up to the product sum.
pub proof fn lemma_cubic_sum(f: Seq<int>, g: Seq<int>, h: Seq<int>)
    requires
        f.len() == g.len() == h.len(),
        f.len() % 2 == 0,
    ensures
        cubic_coeff(f, g, h, 0) + (cubic_coeff(f, g, h, 0) + cubic_coeff(f, g, h, 1) + cubic_coeff(
            f,
            g,
            h,
            2,
        ) + cubic_coeff(f, g, h, 3)) == dot3(f, g, h),
{
    let n = f.len() / 2;
    lemma_cubic_at_upto(f, g, h, 0, n);
    lemma_cubic_at_upto(f, g, h, 1, n);
    let prod = |i: int| f[i] * g[i] * h[i];
    lemma_sigma_pairs(n, prod);
    let pairs = |i: int| prod(2 * i) + prod(2 * i + 1);
    let (at0, at1) = (term_at(f, g, h, 0), term_at(f, g, h, 1));
    let both = |i: int| at0(i) + at1(i);
    crate::sums::lemma_sigma_add(n, at0, at1);
    lemma_sigma_eq(n, pairs, both);
}

/// Congruent tables have congruent round coefficients.
proof fn lemma_cubic_residues(
    f: Seq<int>,
    g: Seq<int>,
    h: Seq<int>,
    u: Seq<int>,
    v: Seq<int>,
    w: Seq<int>,
    j: int,
)
    requires
        residues(f) == residues(u),
        residues(g) == residues(v),
        residues(h) == residues(w),
        f.len() == g.len() == h.len(),
    ensures
        residue(cubic_coeff(f, g, h, j)) == residue(cubic_coeff(u, v, w, j)),
{
    assert(residues(f).len() == f.len() && residues(u).len() == u.len());
    assert(residues(g).len() == g.len() && residues(v).len() == v.len());
    assert(residues(h).len() == h.len() && residues(w).len() == w.len());
    let n = f.len() / 2;
    assert forall|i: int| 0 <= i < n implies residue(#[trigger] cubic_term(f, g, h, j)(i))
        == residue(cubic_term(u, v, w, j)(i)) by {
        let (a, da) = (f[2 * i], f[2 * i + 1] - f[2 * i]);
        let (b, db) = (g[2 * i], g[2 * i + 1] - g[2 * i]);
        let (c, dc) = (h[2 * i], h[2 * i + 1] - h[2 * i]);
        let (x, dx) = (u[2 * i], u[2 * i + 1] - u[2 * i]);
        let (y, dy) = (v[2 * i], v[2 * i + 1] - v[2 * i]);
        let (z, dz) = (w[2 * i], w[2 * i + 1] - w[2 * i]);
        lemma_pair_residues(f, u, i);
        lemma_pair_residues(g, v, i);
        lemma_pair_residues(h, w, i);
        if j == 0 {
            lemma_mul3_residue(a, b, c, x, y, z);
        } else if j == 1 {
            lemma_mul3_residue(da, b, c, dx, y, z);
            lemma_mul3_residue(a, db, c, x, dy, z);
            lemma_mul3_residue(a, b, dc, x, y, dz);
            lemma_residue_add(da * b * c, a * db * c);
            lemma_residue_add(dx * y * z, x * dy * z);
            lemma_residue_add(da * b * c + a * db * c, a * b * dc);
            lemma_residue_add(dx * y * z + x * dy * z, x * y * dz);
        } else if j == 2 {
            lemma_mul3_residue(da, db, c, dx, dy, z);
            lemma_mul3_residue(da, b, dc, dx, y, dz);
            lemma_mul3_residue(a, db, dc, x, dy, dz);
            lemma_residue_add(da * db * c, da * b * dc);
            lemma_residue_add(dx * dy * z, dx * y * dz);
            lemma_residue_add(da * db * c + da * b * dc, a * db * dc);
            lemma_residue_add(dx * dy * z + dx * y * dz, x * dy * dz);
        } else {
            lemma_mul3_residue(da, db, dc, dx, dy, dz);
        }
    }
    lemma_sigma_residue(n, cubic_term(f, g, h, j), cubic_term(u, v, w, j));
}

/// Neighbouring entries of congruent tables, and their differences.
proof fn lemma_pair_residues(f: Seq<int>, u: Seq<int>, i: int)
    requires
        residues(f) == residues(u),
        0 <= i < f.len() / 2,
    ensures
        residue(f[2 * i]) == residue(u[2 * i]),
        residue(f[2 * i + 1] - f[2 * i]) == residue(u[2 * i + 1] - u[2 * i]),
{
    assert(residues(f).len() == f.len() && residues(u).len() == u.len());
    assert(residues(f)[2 * i] == residue(f[2 * i]) && residues(u)[2 * i] == residue(u[2 * i]));
    assert(residues(f)[2 * i + 1] == residue(f[2 * i + 1]));
    assert(residues(u)[2 * i + 1] == residue(u[2 * i + 1]));
    lemma_residue_sub(f[2 * i + 1], f[2 * i]);
    lemma_residue_sub(u[2 * i + 1], u[2 * i]);
}

/// Products of congruent numbers are congruent.
pub proof fn lemma_mul3_residue(a: int, b: int, c: int, x: int, y: int, z: int)
    requires
        residue(a) == residue(x),
        residue(b) == residue(y),
        residue(c) == residue(z),
    ensures
        residue(a * b * c) == residue(x * y * z),
        residue(a * b) == residue(x * y),
{
    lemma_residue_mul(a, b);
    lemma_residue_mul(x, y);
    lemma_residue_mul(a * b, c);
    lemma_residue_mul(x * y, z);
}

fn eval_at(f0: Goldilocks, f1: Goldilocks, t: Goldilocks) -> (r: Goldilocks)
    ensures
        r@ == residue(f0@ + t@ * (f1@ - f0@)),
{
    broadcast use group_residue;

    proof {
        assert((f1@ - f0@) * t@ == t@ * (f1@ - f0@)) by (nonlinear_arith);
    }
    f0 + (f1 - f0) * t
}

/// The cubic has these values at zero, one, two and three.
pub open spec fn through(p: RoundPoly3, v0: int, v1: int, v2: int, v3: int) -> bool {
    &&& residue(p.at(0)) == residue(v0)
    &&& residue(p.at(1)) == residue(v1)
    &&& residue(p.at(2)) == residue(v2)
    &&& residue(p.at(3)) == residue(v3)
}

/// The same coefficients.
pub open spec fn same_poly(p: RoundPoly3, q: RoundPoly3) -> bool {
    p.c0@ == q.c0@ && p.c1@ == q.c1@ && p.c2@ == q.c2@ && p.c3@ == q.c3@
}

/// The values of a cubic at zero, one, two and three.
proof fn lemma_cubic_values(c0: int, c1: int, c2: int, c3: int)
    ensures
        cubic(c0, c1, c2, c3, 0) == c0,
        cubic(c0, c1, c2, c3, 1) == c0 + c1 + c2 + c3,
        cubic(c0, c1, c2, c3, 2) == c0 + 2 * c1 + 4 * c2 + 8 * c3,
        cubic(c0, c1, c2, c3, 3) == c0 + 3 * c1 + 9 * c2 + 27 * c3,
{
    assert(c1 * 0 == 0 && c2 * 0 * 0 == 0 && c3 * 0 * 0 * 0 == 0);
    assert(c2 * 2 * 2 == 4 * c2 && c3 * 2 * 2 * 2 == 8 * c3);
    assert(c2 * 3 * 3 == 9 * c2 && c3 * 3 * 3 * 3 == 27 * c3);
}

/// The difference of two cubics that agree at `x`.
proof fn lemma_cubic_gap(
    b: (int, int, int, int),
    c: (int, int, int, int),
    x: int,
)
    requires
        residue(cubic(b.0, b.1, b.2, b.3, x)) == residue(cubic(c.0, c.1, c.2, c.3, x)),
    ensures
        residue(cubic(b.0 - c.0, b.1 - c.1, b.2 - c.2, b.3 - c.3, x)) == 0,
{
    lemma_residue_difference(cubic(b.0, b.1, b.2, b.3, x), cubic(c.0, c.1, c.2, c.3, x));
    let ((_, b1, b2, b3), (_, c1, c2, c3)) = (b, c);
    assert(b1 * x - c1 * x == (b1 - c1) * x) by (nonlinear_arith);
    assert(b2 * x * x - c2 * x * x == (b2 - c2) * x * x) by (nonlinear_arith);
    assert(b3 * x * x * x - c3 * x * x * x == (b3 - c3) * x * x * x) by (nonlinear_arith);
}

/// A cubic is determined by its values at zero, one, two and three.
pub proof fn lemma_cubic_determined(b: (int, int, int, int), c: (int, int, int, int))
    requires
        forall|x: int|
            0 <= x < 4 ==> residue(#[trigger] cubic(b.0, b.1, b.2, b.3, x)) == residue(
                cubic(c.0, c.1, c.2, c.3, x),
            ),
    ensures
        residue(b.0) == residue(c.0),
        residue(b.1) == residue(c.1),
        residue(b.2) == residue(c.2),
        residue(b.3) == residue(c.3),
{
    assert forall|x: int| 0 <= x < 4 implies #[trigger] residue(x) == x by {
        crate::field::lemma_residue_small(x);
    }
    assert(residue(0) == 0 && residue(1) == 1 && residue(2) == 2 && residue(3) == 3);
    lemma_cubic_gap(b, c, 0);
    lemma_cubic_gap(b, c, 1);
    lemma_cubic_gap(b, c, 2);
    lemma_cubic_gap(b, c, 3);
    crate::prime::lemma_cubic_roots(
        b.0 - c.0,
        b.1 - c.1,
        b.2 - c.2,
        b.3 - c.3,
        0,
        1,
        2,
        3,
    );
    lemma_residue_difference(b.0, c.0);
    lemma_residue_difference(b.1, c.1);
    lemma_residue_difference(b.2, c.2);
    lemma_residue_difference(b.3, c.3);
}

/// The round trip of the interpolation: a polynomial through the values of `q` at
/// zero, one, two and three has the coefficients of `q`.
pub proof fn lemma_interpolation_roundtrip(p: RoundPoly3, q: RoundPoly3)
    requires
        through(p, q.at(0), q.at(1), q.at(2), q.at(3)),
    ensures
        same_poly(p, q),
{
    broadcast use crate::field::lemma_view_canonical;

    let (b, c) = ((p.c0@, p.c1@, p.c2@, p.c3@), (q.c0@, q.c1@, q.c2@, q.c3@));
    assert forall|x: int| 0 <= x < 4 implies residue(#[trigger] cubic(b.0, b.1, b.2, b.3, x))
        == residue(cubic(c.0, c.1, c.2, c.3, x)) by {
        assert(x == 0 || x == 1 || x == 2 || x == 3);
        assert(p.at(x) == cubic(b.0, b.1, b.2, b.3, x));
        assert(q.at(x) == cubic(c.0, c.1, c.2, c.3, x));
    }
    lemma_cubic_determined(b, c);
}

/// Interpolates the cubic `c0 + c1 t + c2 t^2 + c3 t^3` through the values at
/// `t = 0, 1, 2, 3`. It is the only one.
pub fn interpolate_cubic(
    p0: Goldilocks,
    p1: Goldilocks,
    p2: Goldilocks,
    p3: Goldilocks,
) -> (p: RoundPoly3)
    ensures
        through(p, p0@, p1@, p2@, p3@),
        forall|q: RoundPoly3| #[trigger] through(q, p0@, p1@, p2@, p3@) ==> same_poly(p, q),
{
    proof {
        crate::field::lemma_residue_small(2);
        crate::field::lemma_residue_small(3);
        crate::field::lemma_residue_small(6);
    }
    let inv2 = Goldilocks::from_u64(2).inverse();
    let inv3 = Goldilocks::from_u64(3).inverse();
    let inv6 = Goldilocks::from_u64(6).inverse();
    let d1_0 = p1 - p0;
    let d1_1 = p2 - p1;
    let d1_2 = p3 - p2;
    let d2_0 = d1_1 - d1_0;
    let d2_1 = d1_2 - d1_1;
    let d3_0 = d2_1 - d2_0;
    let c0 = p0;
    let half_d2 = d2_0 * inv2;
    let third_d3 = d3_0 * inv3;
    let half_d3 = d3_0 * inv2;
    let c1 = d1_0 - half_d2 + third_d3;
    let c2 = half_d2 - half_d3;
    let c3 = d3_0 * inv6;
    let p = RoundPoly3 { c0, c1, c2, c3 };
    proof {
        let w = (p0@, p1@, p2@, p3@);
        let c = lemma_some_cubic(w, inv2@, inv6@);
        crate::field::lemma_view_canonical(p0);
        crate::field::lemma_view_canonical(p1);
        crate::field::lemma_view_canonical(p2);
        crate::field::lemma_view_canonical(p3);
        let (v0, v1, v2, v3) = (
            c.0,
            c.0 + c.1 + c.2 + c.3,
            c.0 + 2 * c.1 + 4 * c.2 + 8 * c.3,
            c.0 + 3 * c.1 + 9 * c.2 + 27 * c.3,
        );
        lemma_fsub(v1, v0);
        lemma_fsub(v2, v1);
        lemma_fsub(v3, v2);
        lemma_fsub(v2 - v1, v1 - v0);
        lemma_fsub(v3 - v2, v2 - v1);
        let (d2, d3) = (2 * (c.2 + 3 * c.3), 6 * c.3);
        assert(v2 - v1 - (v1 - v0) == d2);
        lemma_fsub(v3 - v2 - (v2 - v1), d2);
        assert(v3 - v2 - (v2 - v1) - d2 == d3);
        crate::field::lemma_view_canonical(inv2);
        crate::field::lemma_view_canonical(inv3);
        crate::field::lemma_view_canonical(inv6);
        lemma_fmul(d2, inv2@);
        lemma_fmul(d3, inv3@);
        lemma_fmul(d3, inv2@);
        lemma_fmul(d3, inv6@);
        lemma_cancel(2, inv2@, c.2 + 3 * c.3);
        assert(d3 == 3 * (2 * c.3) && d3 == 2 * (3 * c.3));
        lemma_cancel(3, inv3@, 2 * c.3);
        lemma_cancel(2, inv2@, 3 * c.3);
        lemma_cancel(6, inv6@, c.3);
        lemma_fsub(v1 - v0, c.2 + 3 * c.3);
        lemma_fadd(v1 - v0 - (c.2 + 3 * c.3), 2 * c.3);
        lemma_fsub(c.2 + 3 * c.3, 3 * c.3);
        assert(p.c0@ == residue(c.0));
        assert(p.c1@ == residue(c.1));
        assert(p.c2@ == residue(c.2));
        assert(p.c3@ == residue(c.3));
        lemma_through(p, c, w);
        assert forall|q: RoundPoly3| #[trigger] through(q, p0@, p1@, p2@, p3@) implies same_poly(
            p,
            q,
        ) by {
            lemma_interpolation_roundtrip(p, q);
        }
    }
    p
}

/// There is a cubic with any four values.
proof fn lemma_some_cubic(v: (int, int, int, int), i2: int, i6: int) -> (c: (int, int, int, int))
    requires
        inverse_pair(2, i2),
        inverse_pair(6, i6),
    ensures
        residue(c.0) == residue(v.0),
        residue(c.0 + c.1 + c.2 + c.3) == residue(v.1),
        residue(c.0 + 2 * c.1 + 4 * c.2 + 8 * c.3) == residue(v.2),
        residue(c.0 + 3 * c.1 + 9 * c.2 + 27 * c.3) == residue(v.3),
{
    let (d1, d2) = (v.1 - v.0, v.2 - 2 * v.1 + v.0);
    let d3 = v.3 - 3 * v.2 + 3 * v.1 - v.0;
    let c3 = d3 * i6;
    let half = d2 * i2;
    let c2 = half - 3 * c3;
    let c1 = d1 - c2 - c3;
    let c = (v.0, c1, c2, c3);
    assert(2 * half == d2 * (2 * i2)) by (nonlinear_arith)
        requires
            half == d2 * i2,
    ;
    assert(6 * c3 == d3 * (6 * i6)) by (nonlinear_arith)
        requires
            c3 == d3 * i6,
    ;
    lemma_times_one(d2, 2 * i2);
    lemma_times_one(3 * d2, 2 * i2);
    lemma_times_one(d3, 6 * i6);
    assert(6 * half == (3 * d2) * (2 * i2)) by (nonlinear_arith)
        requires
            2 * half == d2 * (2 * i2),
    ;
    assert(c.0 + c.1 + c.2 + c.3 == v.1);
    assert(c.0 + 2 * c.1 + 4 * c.2 + 8 * c.3 == v.0 + 2 * d1 + 2 * half);
    assert(v.0 + 2 * d1 + d2 == v.2);
    lemma_residue_add(v.0 + 2 * d1, 2 * half);
    lemma_residue_add(v.0 + 2 * d1, d2);
    assert(c.0 + 3 * c.1 + 9 * c.2 + 27 * c.3 == v.0 + 3 * d1 + 6 * half + 6 * c3);
    assert(v.0 + 3 * d1 + 3 * d2 + d3 == v.3);
    lemma_residue_add(v.0 + 3 * d1, 6 * half);
    lemma_residue_add(v.0 + 3 * d1, 3 * d2);
    lemma_residue_add(v.0 + 3 * d1 + 6 * half, 6 * c3);
    lemma_residue_add(v.0 + 3 * d1 + 3 * d2, d3);
    c
}

/// Multiplying by something congruent to one.
proof fn lemma_times_one(x: int, e: int)
    requires
        residue(e) == 1,
    ensures
        residue(x * e) == residue(x),
{
    lemma_residue_mul(x, e);
    lemma_residue_mul(x, 1);
    crate::field::lemma_residue_small(1);
    assert(x * 1 == x);
}

/// A cubic with congruent coefficients has congruent values.
proof fn lemma_through(p: RoundPoly3, c: (int, int, int, int), v: (int, int, int, int))
    requires
        p.c0@ == residue(c.0),
        p.c1@ == residue(c.1),
        p.c2@ == residue(c.2),
        p.c3@ == residue(c.3),
        residue(c.0) == residue(v.0),
        residue(c.0 + c.1 + c.2 + c.3) == residue(v.1),
        residue(c.0 + 2 * c.1 + 4 * c.2 + 8 * c.3) == residue(v.2),
        residue(c.0 + 3 * c.1 + 9 * c.2 + 27 * c.3) == residue(v.3),
    ensures
        through(p, v.0, v.1, v.2, v.3),
{
    broadcast use crate::field::lemma_view_canonical;

    lemma_cubic_values(p.c0@, p.c1@, p.c2@, p.c3@);
    lemma_combination(p, c, 0, 0, 0);
    lemma_combination(p, c, 1, 1, 1);
    lemma_combination(p, c, 2, 4, 8);
    lemma_combination(p, c, 3, 9, 27);
    assert(0 * p.c1@ == 0 && 0 * p.c2@ == 0 && 0 * p.c3@ == 0);
    assert(0 * c.1 == 0 && 0 * c.2 == 0 && 0 * c.3 == 0);
}

proof fn lemma_combination(p: RoundPoly3, c: (int, int, int, int), a1: int, a2: int, a3: int)
    requires
        p.c0@ == residue(c.0),
        p.c1@ == residue(c.1),
        p.c2@ == residue(c.2),
        p.c3@ == residue(c.3),
    ensures
        residue(p.c0@ + a1 * p.c1@ + a2 * p.c2@ + a3 * p.c3@) == residue(
            c.0 + a1 * c.1 + a2 * c.2 + a3 * c.3,
        ),
{
    broadcast use crate::field::lemma_view_canonical;

    lemma_residue_mul(a1, p.c1@);
    lemma_residue_mul(a1, c.1);
    lemma_residue_mul(a2, p.c2@);
    lemma_residue_mul(a2, c.2);
    lemma_residue_mul(a3, p.c3@);
    lemma_residue_mul(a3, c.3);
    lemma_residue_add(p.c0@, a1 * p.c1@);
    lemma_residue_add(c.0, a1 * c.1);
    lemma_residue_add(p.c0@ + a1 * p.c1@, a2 * p.c2@);
    lemma_residue_add(c.0 + a1 * c.1, a2 * c.2);
    lemma_residue_add(p.c0@ + a1 * p.c1@ + a2 * p.c2@, a3 * p.c3@);
    lemma_residue_add(c.0 + a1 * c.1 + a2 * c.2, a3 * c.3);
}

/// The first round polynomial of the tables `f`, `g` and `h`.
fn round_poly3(f: &Vec<Goldilocks>, g: &Vec<Goldilocks>, h: &Vec<Goldilocks>) -> (p: RoundPoly3)
    requires
        f@.len() == g@.len() == h@.len(),
    ensures
        p.c0@ == residue(cubic_coeff(ints(f@), ints(g@), ints(h@), 0)),
        p.c1@ == residue(cubic_coeff(ints(f@), ints(g@), ints(h@), 1)),
        p.c2@ == residue(cubic_coeff(ints(f@), ints(g@), ints(h@), 2)),
        p.c3@ == residue(cubic_coeff(ints(f@), ints(g@), ints(h@), 3)),
{
    let len: usize = f.len();
    let half: usize = len / 2;
    let ghost (u, v, w) = (ints(f@), ints(g@), ints(h@));
    let mut p0 = Goldilocks::zero();
    let mut p1 = Goldilocks::zero();
    let mut p2 = Goldilocks::zero();
    let mut p3 = Goldilocks::zero();
    let two = Goldilocks::two();
    let three = Goldilocks::from_u64(3);
    for s in 0..half
        invariant
            len == f@.len() == g@.len() == h@.len(),
            half == len / 2,
            u == ints(f@),
            v == ints(g@),
            w == ints(h@),
            two@ == residue(2),
            three@ == residue(3),
            p0@ == residue(sigma(s as nat, term_at(u, v, w, 0))),
            p1@ == residue(sigma(s as nat, term_at(u, v, w, 1))),
            p2@ == residue(sigma(s as nat, term_at(u, v, w, 2))),
            p3@ == residue(sigma(s as nat, term_at(u, v, w, 3))),
    {
        let f0 = f[2 * s];
        let f1 = f[2 * s + 1];
        let g0 = g[2 * s];
        let g1 = g[2 * s + 1];
        let h0 = h[2 * s];
        let h1 = h[2 * s + 1];
        assert(u[2 * s as int] == f0@ && u[2 * s + 1] == f1@);
        assert(v[2 * s as int] == g0@ && v[2 * s + 1] == g1@);
        assert(w[2 * s as int] == h0@ && w[2 * s + 1] == h1@);
        proof {
            crate::field::lemma_residue_small(2);
            crate::field::lemma_residue_small(3);
            broadcast use crate::field::lemma_view_canonical;

            assert(residue(f0@) == f0@ && residue(f1@) == f1@);
            assert(residue(g0@) == g0@ && residue(g1@) == g1@);
            assert(residue(h0@) == h0@ && residue(h1@) == h1@);
        }
        p0 = accumulate(p0, f0, g0, h0, Ghost(u), Ghost(v), Ghost(w), Ghost(s as int), Ghost(0));
        p1 = accumulate(p1, f1, g1, h1, Ghost(u), Ghost(v), Ghost(w), Ghost(s as int), Ghost(1));
        p2 = accumulate(
            p2,
            eval_at(f0, f1, two),
            eval_at(g0, g1, two),
            eval_at(h0, h1, two),
            Ghost(u),
            Ghost(v),
            Ghost(w),
            Ghost(s as int),
            Ghost(2),
        );
        p3 = accumulate(
            p3,
            eval_at(f0, f1, three),
            eval_at(g0, g1, three),
            eval_at(h0, h1, three),
            Ghost(u),
            Ghost(v),
            Ghost(w),
            Ghost(s as int),
            Ghost(3),
        );
    }
    let ghost c = (
        cubic_coeff(u, v, w, 0),
        cubic_coeff(u, v, w, 1),
        cubic_coeff(u, v, w, 2),
        cubic_coeff(u, v, w, 3),
    );
    proof {
        lemma_cubic_at_upto(u, v, w, 0, half as nat);
        lemma_cubic_at_upto(u, v, w, 1, half as nat);
        lemma_cubic_at_upto(u, v, w, 2, half as nat);
        lemma_cubic_at_upto(u, v, w, 3, half as nat);
    }
    let p = interpolate_cubic(p0, p1, p2, p3);
    proof {
        broadcast use crate::field::lemma_view_canonical, crate::field::lemma_residue_residue;

        let b = (p.c0@, p.c1@, p.c2@, p.c3@);
        assert forall|x: int| 0 <= x < 4 implies residue(#[trigger] cubic(b.0, b.1, b.2, b.3, x))
            == residue(cubic(c.0, c.1, c.2, c.3, x)) by {
            assert(x == 0 || x == 1 || x == 2 || x == 3);
            assert(p.at(x) == cubic(b.0, b.1, b.2, b.3, x));
        }
        lemma_cubic_determined(b, c);
    }
    p
}

/// Adds one product of three to the running sum of the products at `x`.
fn accumulate(
    acc: Goldilocks,
    a: Goldilocks,
    b: Goldilocks,
    c: Goldilocks,
    Ghost(u): Ghost<Seq<int>>,
    Ghost(v): Ghost<Seq<int>>,
    Ghost(w): Ghost<Seq<int>>,
    Ghost(s): Ghost<int>,
    Ghost(x): Ghost<int>,
) -> (r: Goldilocks)
    requires
        0 <= s,
        acc@ == residue(sigma(s as nat, term_at(u, v, w, x))),
        a@ == residue(u[2 * s] + x * (u[2 * s + 1] - u[2 * s])),
        b@ == residue(v[2 * s] + x * (v[2 * s + 1] - v[2 * s])),
        c@ == residue(w[2 * s] + x * (w[2 * s + 1] - w[2 * s])),
    ensures
        r@ == residue(sigma((s + 1) as nat, term_at(u, v, w, x))),
{
    proof {
        let a0 = u[2 * s] + x * (u[2 * s + 1] - u[2 * s]);
        let b0 = v[2 * s] + x * (v[2 * s + 1] - v[2 * s]);
        let c0 = w[2 * s] + x * (w[2 * s + 1] - w[2 * s]);
        lemma_fmul(a0, b0);
        lemma_fmul(a0 * b0, c0);
        lemma_fadd(sigma(s as nat, term_at(u, v, w, x)), a0 * b0 * c0);
        assert(term_at(u, v, w, x)(s) == a0 * b0 * c0);
    }
    acc + a * b * c
}

/// Sum-check for `H = sum_{x in {0,1}^t} f(x) * g(x) * h(x)`.
pub fn prove3(
    f: &[Goldilocks],
    g: &[Goldilocks],
    h: &[Goldilocks],
    _claimed_sum: Goldilocks,
    challenges: &[Goldilocks],
) -> (proof: SumcheckProof3)
    requires
        f@.len() == pow2(challenges@.len()),
        g@.len() == f@.len(),
        h@.len() == f@.len(),
    ensures
        is_transcript3(proof.rounds@, ints(f@), ints(g@), ints(h@), ints(challenges@)),
        proof.f_eval@ == residue(mle(ints(f@), ints(challenges@))),
        proof.g_eval@ == residue(mle(ints(g@), ints(challenges@))),
        proof.h_eval@ == residue(mle(ints(h@), ints(challenges@))),
{
    let ghost (fv, gv, hv, r) = (ints(f@), ints(g@), ints(h@), ints(challenges@));
    let mut f_buf: Vec<Goldilocks> = vstd::slice::slice_to_vec(f);
    let mut g_buf: Vec<Goldilocks> = vstd::slice::slice_to_vec(g);
    let mut h_buf: Vec<Goldilocks> = vstd::slice::slice_to_vec(h);
    let mut rounds: Vec<RoundPoly3> = Vec::new();
    proof {
        broadcast use group_residue;

        assert(r.take(0) =~= Seq::<int>::empty());
        assert(ints(f_buf@) =~= residues(fv));
        assert(ints(g_buf@) =~= residues(gv));
        assert(ints(h_buf@) =~= residues(hv));
    }
    for k in 0..challenges.len()
        invariant
            fv == ints(f@),
            gv == ints(g@),
            hv == ints(h@),
            r == ints(challenges@),
            fv.len() == gv.len() == hv.len() == pow2(r.len()),
            ints(f_buf@) == residues(fix_all(fv, r.take(k as int))),
            ints(g_buf@) == residues(fix_all(gv, r.take(k as int))),
            ints(h_buf@) == residues(fix_all(hv, r.take(k as int))),
            rounds@.len() == k,
            forall|j: int| 0 <= j < k ==> is_round3(#[trigger] rounds@[j], fv, gv, hv, r.take(j)),
    {
        let ghost t = r.take(k as int);
        let ghost (fk, gk, hk) = (fix_all(fv, t), fix_all(gv, t), fix_all(hv, t));
        let ghost (u, v, w) = (ints(f_buf@), ints(g_buf@), ints(h_buf@));
        proof {
            lemma_fix_all_upto(fv, r, k as int);
            lemma_fix_all_upto(gv, r, k as int);
            lemma_fix_all_upto(hv, r, k as int);
            assert(ints(f_buf@).len() == f_buf@.len() && residues(fk).len() == fk.len());
            assert(ints(g_buf@).len() == g_buf@.len() && residues(gk).len() == gk.len());
            assert(ints(h_buf@).len() == h_buf@.len() && residues(hk).len() == hk.len());
            lemma_residues_idem(u, fk);
            lemma_residues_idem(v, gk);
            lemma_residues_idem(w, hk);
            lemma_cubic_residues(fk, gk, hk, u, v, w, 0);
            lemma_cubic_residues(fk, gk, hk, u, v, w, 1);
            lemma_cubic_residues(fk, gk, hk, u, v, w, 2);
            lemma_cubic_residues(fk, gk, hk, u, v, w, 3);
        }
        let p = round_poly3(&f_buf, &g_buf, &h_buf);
        rounds.push(p);
        fold(&mut f_buf, challenges[k]);
        fold(&mut g_buf, challenges[k]);
        fold(&mut h_buf, challenges[k]);
        proof {
            let x = challenges@[k as int]@;
            lemma_fix_first_residues(u, fk, x);
            lemma_fix_first_residues(v, gk, x);
            lemma_fix_first_residues(w, hk, x);
            assert(r.take(k + 1).drop_last() =~= t);
            assert(r.take(k + 1).last() == x);
        }
    }
    proof {
        assert(r.take(r.len() as int) =~= r);
        lemma_fix_all_is_mle(fv, r);
        lemma_fix_all_is_mle(gv, r);
        lemma_fix_all_is_mle(hv, r);
        assert(residues(fix_all(fv, r)).len() == 1 && residues(fix_all(hv, r)).len() == 1);
        assert(residues(fix_all(gv, r)).len() == 1 && ints(g_buf@).len() == g_buf@.len());
        assert(ints(f_buf@).len() == f_buf@.len() && ints(h_buf@).len() == h_buf@.len());
        assert(ints(f_buf@)[0] == f_buf@[0]@ && ints(h_buf@)[0] == h_buf@[0]@);
        assert(ints(g_buf@)[0] == g_buf@[0]@);
    }
    SumcheckProof3 { rounds, f_eval: f_buf[0], g_eval: g_buf[0], h_eval: h_buf[0] }
}

/// What the verifier expects round `k` to add up to.
pub open spec fn carried3(rounds: Seq<RoundPoly3>, claimed: int, r: Seq<int>, k: int) -> int {
    if k <= 0 {
        residue(claimed)
    } else {
        residue(rounds[k - 1].at(r[k - 1]))
    }
}

/// The verifier's decision for a triple product.
pub open spec fn accepts3(
    rounds: Seq<RoundPoly3>,
    claimed: int,
    r: Seq<int>,
    f_eval: int,
    g_eval: int,
    h_eval: int,
) -> bool {
    &&& rounds.len() == r.len()
    &&& forall|k: int|
        0 <= k < r.len() ==> residue((#[trigger] rounds[k]).at(0) + rounds[k].at(1)) == carried3(
            rounds,
            claimed,
            r,
            k,
        )
    &&& carried3(rounds, claimed, r, r.len() as int) == residue(f_eval * g_eval * h_eval)
}

pub fn verify3(
    proof: &SumcheckProof3,
    claimed_sum: Goldilocks,
    challenges: &[Goldilocks],
    f_eval: Goldilocks,
    g_eval: Goldilocks,
    h_eval: Goldilocks,
) -> (ok: bool)
    ensures
        ok == accepts3(
            proof.rounds@,
            claimed_sum@,
            ints(challenges@),
            f_eval@,
            g_eval@,
            h_eval@,
        ),
{
    let ghost r = ints(challenges@);
    if proof.rounds.len() != challenges.len() {
        return false;
    }
    let mut prev = claimed_sum;
    proof {
        broadcast use group_residue;

        assert(prev@ == residue(claimed_sum@));
    }
    for k in 0..challenges.len()
        invariant
            r == ints(challenges@),
            proof.rounds@.len() == challenges@.len(),
            prev@ == carried3(proof.rounds@, claimed_sum@, r, k as int),
            forall|j: int|
                0 <= j < k ==> residue(
                    (#[trigger] proof.rounds@[j]).at(0) + proof.rounds@[j].at(1),
                ) == carried3(proof.rounds@, claimed_sum@, r, j),
    {
        broadcast use group_residue;

        let rp = proof.rounds[k];
        let p0 = rp.c0;
        let p1 = rp.c0 + rp.c1 + rp.c2 + rp.c3;
        let sum = p0 + p1;
        assert(rp.at(0) == rp.c0@) by {
            assert(rp.c1@ * 0 == 0 && rp.c2@ * 0 * 0 == 0 && rp.c3@ * 0 * 0 * 0 == 0);
        }
        assert(rp.at(1) == rp.c0@ + rp.c1@ + rp.c2@ + rp.c3@);
        assert(sum@ == residue(rp.at(0) + rp.at(1)));
        if sum != prev {
            assert(rp == proof.rounds@[k as int]);
            return false;
        }
        prev = rp.eval(challenges[k]);
    }
    proof {
        broadcast use group_residue;
    }
    prev == f_eval * g_eval * h_eval
}

/// Congruent coefficients give congruent values.
proof fn lemma_poly3_residue(p: RoundPoly3, c0: int, c1: int, c2: int, c3: int, x: int)
    requires
        p.c0@ == residue(c0),
        p.c1@ == residue(c1),
        p.c2@ == residue(c2),
        p.c3@ == residue(c3),
    ensures
        residue(p.at(x)) == residue(cubic(c0, c1, c2, c3, x)),
{
    broadcast use crate::field::lemma_residue_residue;

    let (d0, d1, d2, d3) = (p.c0@, p.c1@, p.c2@, p.c3@);
    lemma_mul3_residue(c1, x, x, d1, x, x);
    lemma_mul3_residue(c2, x, x, d2, x, x);
    lemma_mul3_residue(c3, x, x, d3, x, x);
    lemma_mul3_residue(c3 * x * x, x, x, d3 * x * x, x, x);
    lemma_residue_add(c0, c1 * x);
    lemma_residue_add(d0, d1 * x);
    lemma_residue_add(c0 + c1 * x, c2 * x * x);
    lemma_residue_add(d0 + d1 * x, d2 * x * x);
    lemma_residue_add(c0 + c1 * x + c2 * x * x, c3 * x * x * x);
    lemma_residue_add(d0 + d1 * x + d2 * x * x, d3 * x * x * x);
}

/// An honest round polynomial at `x` is the product sum with the earlier
/// variables fixed to `r` and the next one to `x`.
pub proof fn lemma_is_round3_at(
    p: RoundPoly3,
    f: Seq<int>,
    g: Seq<int>,
    h: Seq<int>,
    r: Seq<int>,
    x: int,
)
    requires
        is_round3(p, f, g, h, r),
        fix_all(f, r).len() == fix_all(g, r).len() == fix_all(h, r).len(),
    ensures
        residue(p.at(x)) == residue(
            dot3(fix_all(f, r.push(x)), fix_all(g, r.push(x)), fix_all(h, r.push(x))),
        ),
{
    let (fr, gr, hr) = (fix_all(f, r), fix_all(g, r), fix_all(h, r));
    lemma_cubic_at(fr, gr, hr, x);
    lemma_poly3_residue(
        p,
        cubic_coeff(fr, gr, hr, 0),
        cubic_coeff(fr, gr, hr, 1),
        cubic_coeff(fr, gr, hr, 2),
        cubic_coeff(fr, gr, hr, 3),
        x,
    );
    assert(r.push(x).drop_last() =~= r);
    assert(r.push(x).last() == x);
}

/// An honest round polynomial at zero and one adds up to the product sum over
/// the variables that are not fixed yet.
pub proof fn lemma_is_round3_sum(
    p: RoundPoly3,
    f: Seq<int>,
    g: Seq<int>,
    h: Seq<int>,
    r: Seq<int>,
)
    requires
        is_round3(p, f, g, h, r),
        fix_all(f, r).len() == fix_all(g, r).len() == fix_all(h, r).len(),
        fix_all(f, r).len() % 2 == 0,
    ensures
        residue(p.at(0) + p.at(1)) == residue(dot3(fix_all(f, r), fix_all(g, r), fix_all(h, r))),
{
    let (fr, gr, hr) = (fix_all(f, r), fix_all(g, r), fix_all(h, r));
    let (c0, c1, c2, c3) = (
        cubic_coeff(fr, gr, hr, 0),
        cubic_coeff(fr, gr, hr, 1),
        cubic_coeff(fr, gr, hr, 2),
        cubic_coeff(fr, gr, hr, 3),
    );
    lemma_cubic_sum(fr, gr, hr);
    lemma_poly3_residue(p, c0, c1, c2, c3, 0);
    lemma_poly3_residue(p, c0, c1, c2, c3, 1);
    assert(cubic(c0, c1, c2, c3, 0) == c0);
    assert(cubic(c0, c1, c2, c3, 1) == c0 + c1 + c2 + c3);
    lemma_residue_add(p.at(0), p.at(1));
    lemma_residue_add(c0, c0 + c1 + c2 + c3);
}

/// The product sum of three one-entry tables.
pub proof fn lemma_dot3_single(f: Seq<int>, g: Seq<int>, h: Seq<int>)
    requires
        f.len() == 1,
    ensures
        dot3(f, g, h) == f[0] * g[0] * h[0],
{
    let p = |i: int| f[i] * g[i] * h[i];
    assert(sigma(1, p) == sigma(0, p) + p(0));
}

/// On an honest transcript the verifier accepts exactly when the claim is the
/// true product sum and the product of the evaluations is the true one.
pub proof fn lemma_transcript3_accepted(
    rounds: Seq<RoundPoly3>,
    f: Seq<int>,
    g: Seq<int>,
    h: Seq<int>,
    r: Seq<int>,
    claimed: int,
    f_eval: int,
    g_eval: int,
    h_eval: int,
)
    requires
        f.len() == g.len() == h.len() == pow2(r.len()),
        is_transcript3(rounds, f, g, h, r),
    ensures
        accepts3(rounds, claimed, r, f_eval, g_eval, h_eval) == (if r.len() == 0 {
            residue(claimed) == residue(f_eval * g_eval * h_eval)
        } else {
            residue(claimed) == residue(dot3(f, g, h)) && residue(f_eval * g_eval * h_eval)
                == residue(mle(f, r) * mle(g, r) * mle(h, r))
        }),
{
    let t = r.len();
    assert forall|k: int| 0 <= k < t implies residue(
        (#[trigger] rounds[k]).at(0) + rounds[k].at(1),
    ) == residue(dot3(fix_all(f, r.take(k)), fix_all(g, r.take(k)), fix_all(h, r.take(k))))
        && residue(rounds[k].at(r[k])) == residue(
        dot3(fix_all(f, r.take(k + 1)), fix_all(g, r.take(k + 1)), fix_all(h, r.take(k + 1))),
    ) by {
        lemma_fix_all_upto(f, r, k);
        lemma_fix_all_upto(g, r, k);
        lemma_fix_all_upto(h, r, k);
        lemma_pow2_unfold((t - k) as nat);
        lemma_is_round3_sum(rounds[k], f, g, h, r.take(k));
        lemma_is_round3_at(rounds[k], f, g, h, r.take(k), r[k]);
        assert(r.take(k).push(r[k]) =~= r.take(k + 1));
    }
    if t > 0 {
        assert(r.take(0) =~= Seq::<int>::empty());
        assert(r.take(t as int) =~= r);
        assert(residue(rounds[0].at(0) + rounds[0].at(1)) == residue(dot3(f, g, h)));
        lemma_fix_all_is_mle(f, r);
        lemma_fix_all_is_mle(g, r);
        lemma_fix_all_is_mle(h, r);
        lemma_dot3_single(fix_all(f, r), fix_all(g, r), fix_all(h, r));
        assert(carried3(rounds, claimed, r, t as int) == residue(rounds[t - 1].at(r[t - 1])));
        assert forall|k: int| 0 < k < t implies residue(
            (#[trigger] rounds[k]).at(0) + rounds[k].at(1),
        ) == carried3(rounds, claimed, r, k) by {
            assert(residue(rounds[k - 1].at(r[k - 1])) == residue(
                dot3(fix_all(f, r.take(k)), fix_all(g, r.take(k)), fix_all(h, r.take(k))),
            ));
        }
    }
}

/// Completeness and rejection of wrong claims: with the true evaluations, an
/// honest transcript is accepted for the true sum and for no other claim.
pub proof fn lemma_sumcheck3_complete(
    rounds: Seq<RoundPoly3>,
    f: Seq<int>,
    g: Seq<int>,
    h: Seq<int>,
    r: Seq<int>,
    claimed: int,
    f_eval: int,
    g_eval: int,
    h_eval: int,
)
    requires
        f.len() == g.len() == h.len() == pow2(r.len()),
        is_transcript3(rounds, f, g, h, r),
        residue(f_eval) == residue(mle(f, r)),
        residue(g_eval) == residue(mle(g, r)),
        residue(h_eval) == residue(mle(h, r)),
    ensures
        accepts3(rounds, claimed, r, f_eval, g_eval, h_eval) == (residue(claimed) == residue(
            dot3(f, g, h),
        )),
{
    lemma_transcript3_accepted(rounds, f, g, h, r, claimed, f_eval, g_eval, h_eval);
    lemma_mul3_residue(f_eval, g_eval, h_eval, mle(f, r), mle(g, r), mle(h, r));
    if r.len() == 0 {
        vstd::arithmetic::power2::lemma2_to64();
        crate::mle::lemma_mle_constant(f, r);
        crate::mle::lemma_mle_constant(g, r);
        crate::mle::lemma_mle_constant(h, r);
        lemma_dot3_single(f, g, h);
    }
}

/// Soundness: when any transcript at all is accepted for a false claim with
/// the true evaluations, then in some round the prover sent a polynomial that
/// is not the honest one and that the challenge of that round failed to tell
/// from it.
pub proof fn lemma_sumcheck3_sound(
    rounds: Seq<RoundPoly3>,
    f: Seq<int>,
    g: Seq<int>,
    h: Seq<int>,
    r: Seq<int>,
    claimed: int,
    f_eval: int,
    g_eval: int,
    h_eval: int,
) -> (k: int)
    requires
        f.len() == g.len() == h.len() == pow2(r.len()),
        accepts3(rounds, claimed, r, f_eval, g_eval, h_eval),
        residue(f_eval) == residue(mle(f, r)),
        residue(g_eval) == residue(mle(g, r)),
        residue(h_eval) == residue(mle(h, r)),
        residue(claimed) != residue(dot3(f, g, h)),
    ensures
        0 <= k < r.len(),
        !is_round3(rounds[k], f, g, h, r.take(k)),
        ({
            let (fk, gk, hk) = (
                fix_all(f, r.take(k)),
                fix_all(g, r.take(k)),
                fix_all(h, r.take(k)),
            );
            residue(rounds[k].at(r[k])) == residue(
                cubic(
                    cubic_coeff(fk, gk, hk, 0),
                    cubic_coeff(fk, gk, hk, 1),
                    cubic_coeff(fk, gk, hk, 2),
                    cubic_coeff(fk, gk, hk, 3),
                    r[k],
                ),
            )
        }),
{
    let t = r.len() as int;
    assert(r.take(0) =~= Seq::<int>::empty());
    assert(r.take(t) =~= r);
    lemma_fix_all_is_mle(f, r);
    lemma_fix_all_is_mle(g, r);
    lemma_fix_all_is_mle(h, r);
    lemma_dot3_single(fix_all(f, r), fix_all(g, r), fix_all(h, r));
    lemma_mul3_residue(f_eval, g_eval, h_eval, mle(f, r), mle(g, r), mle(h, r));
    let k = lemma_first_agreement3(rounds, f, g, h, r, claimed, t);
    lemma_fix_all_upto(f, r, k);
    lemma_fix_all_upto(g, r, k);
    lemma_fix_all_upto(h, r, k);
    lemma_pow2_unfold((t - k) as nat);
    if is_round3(rounds[k], f, g, h, r.take(k)) {
        lemma_is_round3_sum(rounds[k], f, g, h, r.take(k));
        assert(residue(rounds[k].at(0) + rounds[k].at(1)) == carried3(rounds, claimed, r, k));
    }
    assert(r.take(k + 1).drop_last() =~= r.take(k));
    assert(r.take(k + 1).last() == r[k]);
    lemma_cubic_at(fix_all(f, r.take(k)), fix_all(g, r.take(k)), fix_all(h, r.take(k)), r[k]);
    k
}

/// The product sum that is left once the first `k` variables are fixed.
spec fn partial_dot3(f: Seq<int>, g: Seq<int>, h: Seq<int>, r: Seq<int>, k: int) -> int {
    dot3(fix_all(f, r.take(k)), fix_all(g, r.take(k)), fix_all(h, r.take(k)))
}

/// A round into which a wrong value is carried and out of which the true one
/// comes.
proof fn lemma_first_agreement3(
    rounds: Seq<RoundPoly3>,
    f: Seq<int>,
    g: Seq<int>,
    h: Seq<int>,
    r: Seq<int>,
    claimed: int,
    n: int,
) -> (k: int)
    requires
        0 <= n <= r.len(),
        residue(claimed) != residue(partial_dot3(f, g, h, r, 0)),
        carried3(rounds, claimed, r, n) == residue(partial_dot3(f, g, h, r, n)),
    ensures
        0 <= k < n,
        carried3(rounds, claimed, r, k) != residue(partial_dot3(f, g, h, r, k)),
        residue(rounds[k].at(r[k])) == residue(partial_dot3(f, g, h, r, k + 1)),
    decreases n,
{
    if carried3(rounds, claimed, r, n - 1) != residue(partial_dot3(f, g, h, r, n - 1)) {
        n - 1
    } else {
        lemma_first_agreement3(rounds, f, g, h, r, claimed, n - 1)
    }
}

} // verus!
