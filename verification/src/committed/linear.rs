//! Committed matrix products and sums.

use super::openings::{draw_point, lemma_xorshift_n_add, open_checked, Committed};
use crate::field::{draws, ints, lemma_fadd, residue, residues, xorshift_n, Goldilocks, XorShift64};
use crate::integers::{is_pow2, lemma_pow2_injective, log2, trailing_zeros, two_adic};
use crate::matmul;
use crate::matmul::product;
use crate::mle;
use crate::mle::{eq_weight, fix_all, lemma_fix_all_rows, lemma_partial_then_full, row};
use crate::sumcheck;
use crate::sums::{lemma_sigma_eq, lemma_sigma_scale, lemma_sigma_swap, sigma};
use crate::whir::Whir;
use vstd::arithmetic::power2::{lemma_pow2_adds, lemma_pow2_pos, pow2};
use vstd::prelude::*;

verus! {

/// The transpose of a row-major `m x k` matrix, row-major `k x m`.
pub open spec fn transposed(a: Seq<int>, m: nat, k: nat) -> Seq<int> {
    Seq::new(k * m, |x: int| a[(x % m as int) * k + x / m as int])
}

/// The row-major product of a row-major `m x k` matrix with a `k x n` one.
pub open spec fn matrix_product(a: Seq<int>, b: Seq<int>, m: nat, k: nat, n: nat) -> Seq<int> {
    Seq::new(m * n, |x: int| sigma(k, |w: int| a[x / n as int * k + w] * b[w * n + x % n as int]))
}

/// The two tables have the same value at `r`.
pub open spec fn agree(f: Seq<int>, g: Seq<int>, r: Seq<int>) -> bool {
    residue(mle::mle(f, r)) == residue(mle::mle(g, r))
}

/// What the committed matmul proof checks: the committed tables agree with the
/// plain ones at the opened points, and the claimed product agrees with the
/// true one at `(v, u)`.
pub open spec fn matmul_holds(
    tables: (Seq<int>, Seq<int>, Seq<int>),
    plain: (Seq<int>, Seq<int>, Seq<int>),
    dims: (nat, nat, nat),
    ch: Seq<int>,
    v: Seq<int>,
    u: Seq<int>,
) -> bool {
    &&& agree(tables.0, plain.0, ch + u)
    &&& agree(tables.1, plain.1, v + ch)
    &&& agree(tables.2, plain.2, v + u)
    &&& agree(plain.2, matrix_product(plain.0, plain.1, dims.0, dims.1, dims.2), v + u)
}

/// Index arithmetic of a row-major matrix.
proof fn lemma_row_major(i: int, j: int, m: nat)
    requires
        0 <= j < m,
        0 <= i,
    ensures
        (i * m + j) / (m as int) == i,
        (i * m + j) % (m as int) == j,
{
    vstd::arithmetic::div_mod::lemma_fundamental_div_mod_converse(i * m + j, m as int, i, j);
}

proof fn lemma_index_bound(i: int, j: int, k: nat, m: nat)
    requires
        0 <= i < k,
        0 <= j < m,
    ensures
        0 <= i * m + j < k * m,
{
    assert(0 <= i * m + j < k * m) by (nonlinear_arith)
        requires
            0 <= i < k,
            0 <= j < m,
    ;
}

/// Transposing a matrix swaps the two halves of the point.
pub proof fn lemma_mle_transposed(a: Seq<int>, m: nat, k: nat, u: Seq<int>, ch: Seq<int>)
    requires
        a.len() == m * k,
        m == pow2(u.len()),
        k == pow2(ch.len()),
    ensures
        mle::mle(transposed(a, m, k), u + ch) == mle::mle(a, ch + u),
        transposed(a, m, k).len() == pow2(u.len() + ch.len()),
{
    let t = transposed(a, m, k);
    lemma_pow2_pos(u.len());
    lemma_pow2_pos(ch.len());
    lemma_pow2_adds(u.len(), ch.len());
    assert(m * k == k * m) by (nonlinear_arith);
    lemma_partial_then_full(t, u, ch);
    lemma_partial_then_full(a, ch, u);
    mle::lemma_fix_all_len(t, u, k);
    mle::lemma_fix_all_len(a, ch, m);
    let g = |w: int, i: int| a[i * k + w] * eq_weight(i, u) * eq_weight(w, ch);
    let by_col = |w: int| fix_all(t, u)[w] * eq_weight(w, ch);
    let cols = |w: int| sigma(m, |i: int| g(w, i));
    assert forall|w: int| 0 <= w < k implies #[trigger] by_col(w) == cols(w) by {
        lemma_fix_all_rows(t, u, k, w);
        let e = eq_weight(w, ch);
        let r = row(t, w, m);
        let f = |i: int| r[i] * eq_weight(i, u);
        lemma_sigma_scale(m, e, f);
        let scaled = |i: int| e * f(i);
        let gw = |i: int| g(w, i);
        assert forall|i: int| 0 <= i < m implies #[trigger] gw(i) == scaled(i) by {
            lemma_row_major(w, i, m);
            lemma_index_bound(w, i, k, m);
            assert(r[i] == a[i * k + w]);
            let (x, y) = (a[i * k + w], eq_weight(i, u));
            assert(x * y * e == e * (x * y)) by (nonlinear_arith);
        }
        lemma_sigma_eq(m, gw, scaled);
        assert(sigma(m, f) * e == e * sigma(m, f)) by (nonlinear_arith);
    }
    lemma_sigma_eq(k, by_col, cols);
    lemma_sigma_swap(k, m, g);
    let by_row = |i: int| fix_all(a, ch)[i] * eq_weight(i, u);
    let rows = |i: int| sigma(k, |w: int| g(w, i));
    assert forall|i: int| 0 <= i < m implies #[trigger] by_row(i) == rows(i) by {
        lemma_fix_all_rows(a, ch, m, i);
        let e = eq_weight(i, u);
        let r = row(a, i, k);
        let f = |w: int| r[w] * eq_weight(w, ch);
        lemma_sigma_scale(k, e, f);
        let scaled = |w: int| e * f(w);
        let gi = |w: int| g(w, i);
        assert forall|w: int| 0 <= w < k implies #[trigger] gi(w) == scaled(w) by {
            let (x, y) = (a[i * k + w], eq_weight(w, ch));
            assert(x * e * y == e * (x * y)) by (nonlinear_arith);
        }
        lemma_sigma_eq(k, gi, scaled);
        assert(sigma(k, f) * e == e * sigma(k, f)) by (nonlinear_arith);
    }
    lemma_sigma_eq(m, by_row, rows);
}

/// The product taken through the transpose is the product.
pub proof fn lemma_product_transposed(a: Seq<int>, b: Seq<int>, m: nat, k: nat, n: nat)
    requires
        n > 0,
        m > 0,
    ensures
        product(transposed(a, m, k), b, m, k, n) == matrix_product(a, b, m, k, n),
{
    let t = transposed(a, m, k);
    let (p, q) = (product(t, b, m, k, n), matrix_product(a, b, m, k, n));
    assert forall|x: int| 0 <= x < m * n implies p[x] == q[x] by {
        let (i, j) = (x / n as int, x % n as int);
        vstd::arithmetic::div_mod::lemma_fundamental_div_mod(x, n as int);
        assert(0 <= i < m) by (nonlinear_arith)
            requires
                0 <= x < m * n,
                x == n * i + j,
                0 <= j < n,
        ;
        let f = |w: int| t[w * m + x / n as int] * b[w * n + x % n as int];
        let g = |w: int| a[x / n as int * k + w] * b[w * n + x % n as int];
        assert forall|w: int| 0 <= w < k implies #[trigger] f(w) == g(w) by {
            lemma_row_major(w, i, m);
            lemma_index_bound(w, i, k, m);
        }
        lemma_sigma_eq(k, f, g);
    }
    assert(p =~= q);
}

/// Stores a row-major `m x k` matrix column by column.
fn transpose(a: &[Goldilocks], m: usize, k: usize) -> (t: Vec<Goldilocks>)
    requires
        a@.len() == m * k,
        m > 0,
    ensures
        ints(t@) == transposed(ints(a@), m as nat, k as nat),
{
    let mut t: Vec<Goldilocks> = Vec::new();
    let len: usize = a.len();
    assert(k * m == m * k) by (nonlinear_arith);
    assert(0 * m == 0);
    for j in 0..k
        invariant
            len == a@.len() == m * k == k * m,
            m > 0,
            t@.len() == j * m,
            forall|x: int|
                0 <= x < j * m ==> (#[trigger] t@[x])@ == transposed(
                    ints(a@),
                    m as nat,
                    k as nat,
                )[x],
    {
        for i in 0..m
            invariant
                len == a@.len() == m * k == k * m,
                m > 0,
                j < k,
                t@.len() == j * m + i,
                forall|x: int|
                    0 <= x < j * m + i ==> (#[trigger] t@[x])@ == transposed(
                        ints(a@),
                        m as nat,
                        k as nat,
                    )[x],
        {
            proof {
                lemma_index_bound(i as int, j as int, m as nat, k as nat);
                lemma_index_bound(j as int, i as int, k as nat, m as nat);
                lemma_row_major(j as int, i as int, m as nat);
                assert(0 <= i * k) by (nonlinear_arith);
            }
            t.push(a[i * k + j]);
        }
        assert((j + 1) * m == j * m + m) by (nonlinear_arith);
    }
    assert(ints(t@) =~= transposed(ints(a@), m as nat, k as nat));
    t
}

/// Joins two points.
pub fn join(a: &[Goldilocks], b: &[Goldilocks]) -> (r: Vec<Goldilocks>)
    ensures
        ints(r@) == ints(a@) + ints(b@),
        r@.len() == a@.len() + b@.len(),
{
    let mut r: Vec<Goldilocks> = vstd::slice::slice_to_vec(a);
    for i in 0..b.len()
        invariant
            r@ == a@ + b@.take(i as int),
    {
        r.push(b[i]);
        assert(b@.take(i + 1) =~= b@.take(i as int).push(b@[i as int]));
    }
    assert(b@.take(b@.len() as int) =~= b@);
    assert(ints(r@) =~= ints(a@) + ints(b@));
    r
}

/// The challenges of a matmul proof, drawn from generator state `s`: one for
/// every variable of `k`, then of `n`, then of `m`.
pub open spec fn matmul_challenges(s: u64, m: nat, k: nat, n: nat) -> (
    Seq<int>,
    Seq<int>,
    Seq<int>,
) {
    (
        draws(s, log2(k)),
        draws(xorshift_n(s, log2(k)), log2(n)),
        draws(xorshift_n(s, log2(k) + log2(n)), log2(m)),
    )
}

/// Proves `C = A @ B` with `A` of shape `m x k`, `B` of shape `k x n`, `C` of
/// shape `m x n`, all committed. Returns `true` iff every opening and the
/// sum-check verify.
pub fn prove_matmul(
    whir_a: &Whir,
    a: &Committed,
    whir_b: &Whir,
    b: &Committed,
    whir_c: &Whir,
    c: &Committed,
    a_mat: &[Goldilocks],
    b_mat: &[Goldilocks],
    c_mat: &[Goldilocks],
    m: usize,
    k: usize,
    n: usize,
    rng: &mut XorShift64,
) -> (ok: bool)
    requires
        is_pow2(m as nat),
        is_pow2(k as nat),
        is_pow2(n as nat),
        a_mat@.len() == m * k == pow2(whir_a.vars()),
        b_mat@.len() == k * n == pow2(whir_b.vars()),
        c_mat@.len() == m * n == pow2(whir_c.vars()),
        a.fits(*whir_a),
        b.fits(*whir_b),
        c.fits(*whir_c),
    ensures
        ({
            let (ch, v, u) = matmul_challenges(old(rng)@, m as nat, k as nat, n as nat);
            let holds = matmul_holds(
                (a.table(), b.table(), c.table()),
                (ints(a_mat@), ints(b_mat@), ints(c_mat@)),
                (m as nat, k as nat, n as nat),
                ch,
                v,
                u,
            );
            &&& ok ==> holds
            &&& ok ==> a.opened_at(*whir_a, ch + u) && b.opened_at(*whir_b, v + ch) && c.opened_at(
                *whir_c,
                v + u,
            )
            &&& a.bound(*whir_a) && b.bound(*whir_b) && c.bound(*whir_c) ==> ok == holds
        }),
        final(rng)@ == xorshift_n(
            old(rng)@,
            log2(k as nat) + log2(n as nat) + log2(m as nat),
        ),
{
    proof {
        lemma_pow2_pos(log2(m as nat));
        lemma_pow2_pos(log2(k as nat));
        lemma_pow2_pos(log2(n as nat));
    }
    let ghost start = rng@;
    let at = transpose(a_mat, m, k);
    let dk: usize = trailing_zeros(k);
    let dn: usize = trailing_zeros(n);
    let dm: usize = trailing_zeros(m);
    let ch = draw_point(rng, dk);
    let v = draw_point(rng, dn);
    let u = draw_point(rng, dm);
    let ghost (chv, vv, uv) = (ints(ch@), ints(v@), ints(u@));
    let ghost (av, bv, cv) = (ints(a_mat@), ints(b_mat@), ints(c_mat@));
    let ghost (mn, kn, nn) = (m as nat, k as nat, n as nat);
    proof {
        lemma_xorshift_n_add(start, dk as nat, dn as nat);
        lemma_xorshift_n_add(start, (dk + dn) as nat, dm as nat);
        assert(chv.len() == ch@.len() && vv.len() == v@.len() && uv.len() == u@.len());
        assert(m * k == k * m) by (nonlinear_arith);
        assert(m * n == n * m) by (nonlinear_arith);
        assert(k * n == n * k) by (nonlinear_arith);
        lemma_pow2_adds(dk as nat, dm as nat);
        lemma_pow2_adds(dn as nat, dk as nat);
        lemma_pow2_adds(dn as nat, dm as nat);
        lemma_pow2_injective(whir_a.vars(), (dk + dm) as nat);
        lemma_pow2_injective(whir_b.vars(), (dn + dk) as nat);
        lemma_pow2_injective(whir_c.vars(), (dn + dm) as nat);
        assert(ints(at@).len() == at@.len());
    }
    let proof = matmul::prove(
        at.as_slice(),
        b_mat,
        c_mat,
        m,
        k,
        n,
        u.as_slice(),
        v.as_slice(),
        ch.as_slice(),
    );
    // A's MLE is indexed (column k, row m): point = ch ++ u.
    let ap = join(ch.as_slice(), u.as_slice());
    let bp = join(v.as_slice(), ch.as_slice());
    let cp = join(v.as_slice(), u.as_slice());
    let (f, h, claimed) = match (
        open_checked(whir_a, a, ap.as_slice()),
        open_checked(whir_b, b, bp.as_slice()),
        open_checked(whir_c, c, cp.as_slice()),
    ) {
        (Some(f), Some(h), Some(claimed)) => (f, h, claimed),
        _ => {
            return false;
        },
    };
    let evals_ok = f == mle::eval(a_mat, ap.as_slice()) && h == mle::eval(b_mat, bp.as_slice())
        && claimed == mle::eval(c_mat, cp.as_slice());
    if !evals_ok || claimed != proof.claimed {
        return false;
    }
    proof {
        broadcast use crate::field::lemma_residue_residue;

        lemma_mle_transposed(av, mn, kn, uv, chv);
        lemma_product_transposed(av, bv, mn, kn, nn);
        assert(transposed(av, mn, kn).len() == kn * mn);
        matmul::lemma_matmul_complete(
            proof.sumcheck.rounds@,
            ints(at@),
            bv,
            cv,
            mn,
            kn,
            nn,
            uv,
            vv,
            chv,
            f@,
            h@,
        );
        lemma_accepts_residue(
            proof.sumcheck.rounds@,
            proof.claimed@,
            mle::mle(cv, vv + uv),
            chv,
            f@,
            h@,
        );
    }
    matmul::verify(&proof, ch.as_slice(), f, h)
}

/// The decision depends on the claim only up to congruence.
proof fn lemma_accepts_residue(
    rounds: Seq<sumcheck::RoundPoly>,
    a: int,
    b: int,
    r: Seq<int>,
    f_eval: int,
    h_eval: int,
)
    requires
        residue(a) == residue(b),
    ensures
        sumcheck::accepts(rounds, a, r, f_eval, h_eval) == sumcheck::accepts(
            rounds,
            b,
            r,
            f_eval,
            h_eval,
        ),
{
    assert forall|k: int| sumcheck::carried(rounds, a, r, k) == sumcheck::carried(rounds, b, r, k)
        by {}
}

/// A committed matmul proof of a true product is accepted whatever the
/// challenges are.
pub proof fn lemma_matmul_holds(
    a: Seq<int>,
    b: Seq<int>,
    c: Seq<int>,
    m: nat,
    k: nat,
    n: nat,
    ch: Seq<int>,
    v: Seq<int>,
    u: Seq<int>,
)
    requires
        m == pow2(u.len()),
        n == pow2(v.len()),
        c.len() == m * n,
        residues(c) == residues(matrix_product(a, b, m, k, n)),
    ensures
        matmul_holds((a, b, c), (a, b, c), (m, k, n), ch, v, u),
{
    lemma_pow2_adds(v.len(), u.len());
    assert(m * n == n * m) by (nonlinear_arith);
    mle::lemma_mle_residues(c, matrix_product(a, b, m, k, n), v + u);
}

/// What the committed addition checks at `r`.
pub open spec fn add_holds(a: Seq<int>, b: Seq<int>, c: Seq<int>, r: Seq<int>) -> bool {
    residue(mle::mle(c, r)) == residue(mle::mle(a, r) + mle::mle(b, r))
}

/// Proves the element-wise field addition `c = a + b` against WHIR commitments
/// with a single random-point opening.
pub fn prove_add(
    whir_a: &Whir,
    a: &Committed,
    whir_b: &Whir,
    b: &Committed,
    whir_c: &Whir,
    c: &Committed,
    n: usize,
    rng: &mut XorShift64,
) -> (ok: bool)
    requires
        n > 0,
        two_adic(n as nat, whir_a.vars()),
        whir_a.vars() == whir_b.vars() == whir_c.vars(),
        a.fits(*whir_a),
        b.fits(*whir_b),
        c.fits(*whir_c),
    ensures
        ({
            let r = draws(old(rng)@, whir_a.vars());
            let holds = add_holds(a.table(), b.table(), c.table(), r);
            &&& ok ==> holds
            &&& ok ==> a.opened_at(*whir_a, r) && b.opened_at(*whir_b, r) && c.opened_at(
                *whir_c,
                r,
            )
            &&& a.bound(*whir_a) && b.bound(*whir_b) && c.bound(*whir_c) ==> ok == holds
        }),
        final(rng)@ == xorshift_n(old(rng)@, whir_a.vars()),
{
    let d: usize = trailing_zeros(n);
    proof {
        crate::integers::lemma_two_adic_unique(n as nat, d as nat, whir_a.vars());
    }
    let r = draw_point(rng, d);
    assert(ints(r@).len() == r@.len());
    match (
        open_checked(whir_a, a, r.as_slice()),
        open_checked(whir_b, b, r.as_slice()),
        open_checked(whir_c, c, r.as_slice()),
    ) {
        (Some(av), Some(bv), Some(cv)) => {
            proof {
                lemma_fadd(mle::mle(a.table(), ints(r@)), mle::mle(b.table(), ints(r@)));
            }
            cv == av + bv
        },
        _ => false,
    }
}

/// A committed addition of a true sum is accepted whatever the challenge is.
pub proof fn lemma_add_holds(a: Seq<int>, b: Seq<int>, c: Seq<int>, r: Seq<int>)
    requires
        a.len() == b.len() == c.len() == pow2(r.len()),
        forall|i: int| 0 <= i < c.len() ==> residue(#[trigger] c[i]) == residue(a[i] + b[i]),
    ensures
        add_holds(a, b, c, r),
{
    let s = Seq::new(a.len(), |i: int| a[i] + b[i]);
    mle::lemma_mle_add(a, b, s, r);
    assert(residues(c) =~= residues(s));
    mle::lemma_mle_residues(c, s, r);
}

/// Entry `(j, i)` of a transposed matrix is entry `(i, j)` of the matrix.
pub proof fn lemma_transposed_entry(a: Seq<int>, m: nat, k: nat, i: int, j: int)
    requires
        0 <= i < m,
        0 <= j < k,
    ensures
        0 <= j * m + i < k * m,
        transposed(a, m, k).len() == k * m,
        transposed(a, m, k)[j * m + i] == a[i * k + j],
{
    lemma_row_major(j, i, m);
    lemma_index_bound(j, i, k, m);
}

/// The challenges of a matmul proof are drawn one after the other, none of them twice.
pub proof fn lemma_matmul_challenges_fresh(s: u64, m: nat, k: nat, n: nat)
    ensures
        ({
            let (ch, v, u) = matmul_challenges(s, m, k, n);
            &&& ch + v + u == draws(s, log2(k) + log2(n) + log2(m))
            &&& ch.len() == log2(k)
            &&& v.len() == log2(n)
            &&& u.len() == log2(m)
        }),
{
    crate::field::lemma_draws_split(s, log2(k), log2(n));
    crate::field::lemma_draws_split(s, log2(k) + log2(n), log2(m));
}

} // verus!
