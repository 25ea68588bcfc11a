//! Single-layer matmul reduction: `C = A @ B` via one sum-check over the
//! contraction index.
//!
//! `m`, `k`, `n` must be powers of two. `at` is `A` stored transposed in
//! row-major (`k x m`), so fixing the row index reduces to `partial_eval` of
//! the low bits.

use crate::field::{ints, residue, residues, Goldilocks};
use crate::mle;
use crate::mle::{
    fix_all, lemma_fix_all_rows, lemma_mle_residues, lemma_mle_scale, lemma_mle_sigma,
    lemma_partial_then_full, row,
};
use crate::sumcheck;
use crate::sumcheck::{accepts, dot, is_transcript, RoundPoly, SumcheckProof};
use crate::sums::{lemma_sigma_eq, sigma};
use vstd::arithmetic::power2::{lemma_pow2_adds, lemma_pow2_pos, pow2};
use vstd::prelude::*;

verus! {

pub struct MatmulProof {
    pub claimed: Goldilocks,
    pub sumcheck: SumcheckProof,
}

/// The row-major product of the matrix whose transpose is `at` (`k x m`) with
/// `b` (`k x n`).
pub open spec fn product(at: Seq<int>, b: Seq<int>, m: nat, k: nat, n: nat) -> Seq<int> {
    Seq::new(m * n, |x: int| sigma(k, |w: int| at[w * m + x / n as int] * b[w * n + x % n as int]))
}

/// Reduces the claim `C(u, v) = sum_w A(u, w) * B(w, v)` to one evaluation of
/// each factor at the challenges.
pub fn prove(
    at: &[Goldilocks],
    b: &[Goldilocks],
    c: &[Goldilocks],
    m: usize,
    k: usize,
    n: usize,
    u: &[Goldilocks],
    v: &[Goldilocks],
    challenges: &[Goldilocks],
) -> (proof: MatmulProof)
    requires
        at@.len() == k * m,
        b@.len() == k * n,
        c@.len() == m * n,
        m == pow2(u@.len()),
        n == pow2(v@.len()),
        k == pow2(challenges@.len()),
    ensures
        proof.claimed@ == residue(mle::mle(ints(c@), ints(v@) + ints(u@))),
        is_transcript(
            proof.sumcheck.rounds@,
            fix_all(ints(at@), ints(u@)),
            fix_all(ints(b@), ints(v@)),
            ints(challenges@),
        ),
        proof.sumcheck.f_eval@ == residue(
            mle::mle(ints(at@), ints(u@) + ints(challenges@)),
        ),
        proof.sumcheck.h_eval@ == residue(
            mle::mle(ints(b@), ints(v@) + ints(challenges@)),
        ),
{
    proof {
        lemma_pow2_pos(u@.len());
        lemma_pow2_pos(v@.len());
        vstd::arithmetic::div_mod::lemma_mod_multiples_basic(k as int, m as int);
        vstd::arithmetic::div_mod::lemma_mod_multiples_basic(k as int, n as int);
        lemma_pow2_adds(v@.len(), u@.len());
        assert(m * n == n * m) by (nonlinear_arith);
    }
    let a_restricted = mle::partial_eval(at, u);
    let b_restricted = mle::partial_eval(b, v);
    let mut c_point: Vec<Goldilocks> = vstd::slice::slice_to_vec(v);
    for i in 0..u.len()
        invariant
            c_point@ == v@ + u@.take(i as int),
    {
        c_point.push(u[i]);
        assert(u@.take(i + 1) =~= u@.take(i as int).push(u@[i as int]));
    }
    proof {
        assert(u@.take(u@.len() as int) =~= u@);
        assert(ints(c_point@) =~= ints(v@) + ints(u@));
    }
    let claimed = mle::eval(c, c_point.as_slice());
    let ghost (av, bv, uv, vv, r) = (ints(at@), ints(b@), ints(u@), ints(v@), ints(challenges@));
    let ghost (fa, fb) = (fix_all(av, uv), fix_all(bv, vv));
    proof {
        mle::lemma_fix_all_len(av, uv, k as nat);
        mle::lemma_fix_all_len(bv, vv, k as nat);
        assert(residues(fa).len() == k && residues(fb).len() == k);
        assert(ints(a_restricted@).len() == a_restricted@.len());
        assert(ints(b_restricted@).len() == b_restricted@.len());
    }
    let sumcheck = sumcheck::prove(
        a_restricted.as_slice(),
        b_restricted.as_slice(),
        claimed,
        challenges,
    );
    proof {
        sumcheck::lemma_residues_idem(ints(a_restricted@), fa);
        sumcheck::lemma_residues_idem(ints(b_restricted@), fb);
        sumcheck::lemma_transcript_residues(
            sumcheck.rounds@,
            ints(a_restricted@),
            ints(b_restricted@),
            fa,
            fb,
            r,
        );
        lemma_mle_residues(ints(a_restricted@), fa, r);
        lemma_mle_residues(ints(b_restricted@), fb, r);
        lemma_pow2_adds(r.len(), uv.len());
        lemma_pow2_adds(r.len(), vv.len());
        lemma_partial_then_full(av, uv, r);
        lemma_partial_then_full(bv, vv, r);
    }
    MatmulProof { claimed, sumcheck }
}

pub fn verify(
    proof: &MatmulProof,
    challenges: &[Goldilocks],
    f_eval: Goldilocks,
    h_eval: Goldilocks,
) -> (ok: bool)
    ensures
        ok == accepts(
            proof.sumcheck.rounds@,
            proof.claimed@,
            ints(challenges@),
            f_eval@,
            h_eval@,
        ),
{
    sumcheck::verify(&proof.sumcheck, proof.claimed, challenges, f_eval, h_eval)
}

/// The matmul identity `C(u, v) = sum_w A(u, w) * B(w, v)`, exact over the
/// integers: the extension of the product at `(v, u)` is the dot product of
/// the two restricted factors.
pub proof fn lemma_matmul_identity(
    at: Seq<int>,
    b: Seq<int>,
    m: nat,
    k: nat,
    n: nat,
    u: Seq<int>,
    v: Seq<int>,
)
    requires
        at.len() == k * m,
        b.len() == k * n,
        m == pow2(u.len()),
        n == pow2(v.len()),
    ensures
        mle::mle(product(at, b, m, k, n), v + u) == dot(fix_all(at, u), fix_all(b, v)),
{
    let r = v + u;
    let p = product(at, b, m, k, n);
    lemma_pow2_pos(v.len());
    lemma_pow2_adds(v.len(), u.len());
    assert(m * n == n * m) by (nonlinear_arith);
    let tables = |w: int|
        Seq::new(m * n, |x: int| at[w * m + x / n as int] * b[w * n + x % n as int]);
    assert forall|i: int| 0 <= i < p.len() implies #[trigger] p[i] == sigma(
        k,
        |w: int| tables(w)[i],
    ) by {
        lemma_sigma_eq(
            k,
            |w: int| at[w * m + i / n as int] * b[w * n + i % n as int],
            |w: int| tables(w)[i],
        );
    }
    lemma_mle_sigma(k, tables, p, r);
    mle::lemma_fix_all_len(at, u, k);
    mle::lemma_fix_all_len(b, v, k);
    let lhs = |w: int| mle::mle(tables(w), r);
    let rhs = |w: int| fix_all(at, u)[w] * fix_all(b, v)[w];
    assert forall|w: int| 0 <= w < k implies #[trigger] lhs(w) == rhs(w) by {
        let (t, ra, rb) = (tables(w), row(at, w, m), row(b, w, n));
        assert forall|x: int| 0 <= x < t.len() implies #[trigger] t[x] == ra[x / n as int] * rb[x
            % n as int] by {
            vstd::arithmetic::div_mod::lemma_fundamental_div_mod(x, n as int);
            assert(0 <= x / n as int) by (nonlinear_arith)
                requires
                    0 <= x,
                    0 < n,
            ;
            assert(x / (n as int) < m) by (nonlinear_arith)
                requires
                    x < m * n,
                    x == n * (x / n as int) + x % n as int,
                    0 <= x % (n as int),
                    0 < n,
            ;
        }
        lemma_outer_product(t, ra, rb, u, v);
        lemma_fix_all_rows(at, u, k, w);
        lemma_fix_all_rows(b, v, k, w);
    }
    lemma_sigma_eq(k, lhs, rhs);
}

/// The extension of an outer product is the product of the extensions.
pub proof fn lemma_outer_product(
    t: Seq<int>,
    a: Seq<int>,
    b: Seq<int>,
    u: Seq<int>,
    v: Seq<int>,
)
    requires
        a.len() == pow2(u.len()),
        b.len() == pow2(v.len()),
        t.len() == a.len() * b.len(),
        forall|x: int|
            0 <= x < t.len() ==> #[trigger] t[x] == a[x / b.len() as int] * b[x % b.len() as int],
    ensures
        mle::mle(t, v + u) == mle::mle(a, u) * mle::mle(b, v),
{
    let (m, n) = (a.len(), b.len());
    lemma_pow2_pos(v.len());
    lemma_pow2_adds(v.len(), u.len());
    assert(m * n == n * m) by (nonlinear_arith);
    lemma_partial_then_full(t, v, u);
    let g = fix_all(t, v);
    mle::lemma_fix_all_len(t, v, m);
    let bv = mle::mle(b, v);
    assert forall|i: int| 0 <= i < m implies #[trigger] g[i] == bv * a[i] by {
        lemma_fix_all_rows(t, v, m, i);
        let ri = row(t, i, n);
        assert forall|j: int| 0 <= j < n implies #[trigger] ri[j] == a[i] * b[j] by {
            let x = i * n + j;
            assert(0 <= x < m * n) by (nonlinear_arith)
                requires
                    0 <= i < m,
                    0 <= j < n,
                    x == i * n + j,
            ;
            vstd::arithmetic::div_mod::lemma_fundamental_div_mod_converse(x, n as int, i, j);
        }
        lemma_mle_scale(b, ri, a[i], v);
        assert(a[i] * bv == bv * a[i]) by (nonlinear_arith);
    }
    lemma_mle_scale(a, g, bv, u);
    assert(bv * mle::mle(a, u) == mle::mle(a, u) * bv) by (nonlinear_arith);
}

/// Completeness and soundness of the reduction: with the true evaluations of
/// the factors, the honest proof is accepted exactly when the claimed matrix
/// agrees with the product at the point `(v, u)`. In particular it is always
/// accepted when the matrix is the product.
pub proof fn lemma_matmul_complete(
    rounds: Seq<RoundPoly>,
    at: Seq<int>,
    b: Seq<int>,
    c: Seq<int>,
    m: nat,
    k: nat,
    n: nat,
    u: Seq<int>,
    v: Seq<int>,
    r: Seq<int>,
    f_eval: int,
    h_eval: int,
)
    requires
        at.len() == k * m,
        b.len() == k * n,
        c.len() == m * n,
        m == pow2(u.len()),
        n == pow2(v.len()),
        k == pow2(r.len()),
        is_transcript(rounds, fix_all(at, u), fix_all(b, v), r),
        residue(f_eval) == residue(mle::mle(at, u + r)),
        residue(h_eval) == residue(mle::mle(b, v + r)),
    ensures
        accepts(rounds, mle::mle(c, v + u), r, f_eval, h_eval) == (residue(mle::mle(c, v + u))
            == residue(mle::mle(product(at, b, m, k, n), v + u))),
        residues(c) == residues(product(at, b, m, k, n)) ==> accepts(
            rounds,
            mle::mle(c, v + u),
            r,
            f_eval,
            h_eval,
        ),
{
    lemma_pow2_adds(r.len(), u.len());
    lemma_pow2_adds(r.len(), v.len());
    lemma_pow2_adds(v.len(), u.len());
    assert(m * n == n * m) by (nonlinear_arith);
    lemma_partial_then_full(at, u, r);
    lemma_partial_then_full(b, v, r);
    lemma_matmul_identity(at, b, m, k, n, u, v);
    sumcheck::lemma_sumcheck_complete(
        rounds,
        fix_all(at, u),
        fix_all(b, v),
        r,
        mle::mle(c, v + u),
        f_eval,
        h_eval,
    );
    if residues(c) == residues(product(at, b, m, k, n)) {
        lemma_mle_residues(c, product(at, b, m, k, n), v + u);
    }
}

/// Entry `(i, j)` of the product is the sum over `w` of entry `(w, i)` of the transposed
/// first factor times entry `(w, j)` of the second.
pub proof fn lemma_product_entry(
    at: Seq<int>,
    b: Seq<int>,
    m: nat,
    k: nat,
    n: nat,
    i: int,
    j: int,
)
    requires
        0 <= i < m,
        0 <= j < n,
    ensures
        0 <= i * n + j < m * n,
        product(at, b, m, k, n).len() == m * n,
        product(at, b, m, k, n)[i * n + j] == sigma(k, |w: int| at[w * m + i] * b[w * n + j]),
{
    let x = i * n + j;
    vstd::arithmetic::div_mod::lemma_fundamental_div_mod_converse(x, n as int, i, j);
    assert(0 <= i * n + j < m * n) by (nonlinear_arith)
        requires
            0 <= i < m,
            0 <= j < n,
    ;
    crate::sums::lemma_sigma_eq(
        k,
        |w: int| at[w * m + x / n as int] * b[w * n + x % n as int],
        |w: int| at[w * m + i] * b[w * n + j],
    );
}

} // verus!
