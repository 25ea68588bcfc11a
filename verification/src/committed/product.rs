//! The grand-product argument and the committed lookup built on it.

use super::openings::{
    commit, dot_of, draw_point, eq_self, eq_table, hadamard, lemma_xorshift_n_add, open_checked,
    selector, weighted_check2, Committed,
};
use crate::field::{
    draws, group_residue, ints, lemma_fadd, lemma_fmul, lemma_residue_add,
    lemma_residue_difference, lemma_residue_mul, lemma_residue_residue, lemma_residue_small,
    lemma_residue_sub, lemma_view_canonical, residue, residues, xorshift_n, Goldilocks, XorShift64,
};
use crate::integers::{lemma_two_adic_unique, trailing_zeros, two_adic};
use crate::lookup::{hits, multiplicity};
use crate::mle;
use crate::mle::{eq_weight, lemma_mle_residues};
use crate::sumcheck;
use crate::sumcheck::{dot, lemma_mul3_residue};
use crate::sums::{
    lemma_pi_bump, lemma_pi_residue, lemma_sigma_eq, lemma_sigma_residue, lemma_sigma_split, pi,
    sigma,
};
use crate::whir::Whir;
use vstd::arithmetic::power::pow;
use vstd::arithmetic::power2::{lemma_pow2_pos, pow2};
use vstd::prelude::*;

verus! {

/// The entries of a table.
pub open spec fn entries(a: Seq<int>) -> spec_fn(int) -> int {
    |i: int| a[i]
}

/// The product of all entries of a table.
pub open spec fn grand_product(a: Seq<int>) -> int {
    pi(a.len(), entries(a))
}

/// What the grand-product argument checks at the challenge: the product is `c`,
/// as far as the challenge can tell.
pub open spec fn product_holds(a: Seq<int>, c: int, chal: Seq<int>) -> bool {
    residue(eq_weight(a.len() - 1, chal) * (grand_product(a) - c)) == 0
}

/// The running products of a table, starting with one.
pub open spec fn running(a: Seq<int>) -> Seq<int> {
    Seq::new(a.len(), |i: int| pi(i as nat, entries(a)))
}

/// The equality weights rotated by one.
pub open spec fn rotated(e: Seq<int>) -> Seq<int> {
    Seq::new(
        e.len(),
        |i: int|
            if i == 0 {
                e[e.len() - 1]
            } else {
                e[i - 1]
            },
    )
}

/// The recurrence `r(i + 1) = r(i) * a(i)`, checked at a point: the two sides
/// differ by what is left at the wrap-around.
proof fn lemma_recurrence(a: Seq<int>, chal: Seq<int>)
    requires
        a.len() == pow2(chal.len()),
    ensures
        mle::mle(hadamard(running(a), a), chal) - dot(running(a), rotated(eq_table(chal)))
            == eq_weight(a.len() - 1, chal) * (grand_product(a) - 1),
{
    let n = a.len();
    lemma_pow2_pos(chal.len());
    let m = (n - 1) as nat;
    let r = running(a);
    let e = eq_table(chal);
    let es = rotated(e);
    let h = hadamard(r, a);
    let lhs = |i: int| h[i] * eq_weight(i, chal);
    let rhs = |i: int| r[i] * es[i];
    let tail = |i: int| rhs(1 + i);
    lemma_sigma_split(1, m, rhs);
    assert(sigma(1, rhs) == sigma(0, rhs) + rhs(0));
    assert(r[0] == 1);
    assert(rhs(0) == e[n - 1]);
    assert forall|i: int| 0 <= i < m implies #[trigger] lhs(i) == tail(i) by {
        assert(r[i + 1] == pi((i + 1) as nat, entries(a)));
        assert(r[i + 1] == r[i] * a[i]);
        assert(es[1 + i] == e[i]);
    }
    lemma_sigma_eq(m, lhs, tail);
    assert(sigma(n, lhs) == sigma(m, lhs) + lhs(m as int));
    assert(h[m as int] == pi(m, entries(a)) * a[m as int]);
    assert(grand_product(a) == h[m as int]);
    let (g, w) = (grand_product(a), eq_weight(n - 1, chal));
    assert(g * w - w == w * (g - 1)) by (nonlinear_arith);
}

/// The table with the last entry divided by `c`.
spec fn divided(a: Seq<int>, inv: int) -> Seq<int> {
    a.update(a.len() - 1, a[a.len() - 1] * inv)
}

/// Dividing the last entry divides the product.
proof fn lemma_divided_product(a: Seq<int>, inv: int)
    requires
        a.len() > 0,
    ensures
        grand_product(divided(a, inv)) == grand_product(a) * inv,
{
    let b = divided(a, inv);
    lemma_pi_bump(a.len(), entries(a), entries(b), a.len() - 1, inv);
}

/// Whether the product of the divided table is one is whether the product of
/// the table is the divisor.
proof fn lemma_divided_holds(w: int, g: int, c: int, inv: int)
    requires
        residue(c * inv) == 1,
    ensures
        residue(w * (g * inv - 1)) == 0 <==> residue(w * (g - c)) == 0,
{
    let (x, y) = (w * (g * inv - 1), w * (g - c));
    lemma_residue_small(0);
    lemma_residue_small(1);
    // x * c == y modulo P, and y * inv == x modulo P.
    assert(x * c == w * (g * (c * inv) - c)) by (nonlinear_arith)
        requires
            x == w * (g * inv - 1),
    ;
    assert(y * inv == w * (g * inv - c * inv)) by (nonlinear_arith)
        requires
            y == w * (g - c),
    ;
    lemma_residue_mul(g, c * inv);
    lemma_residue_mul(g, 1);
    assert(g * 1 == g);
    lemma_residue_sub(g * (c * inv), c);
    lemma_residue_sub(g, c);
    lemma_residue_mul(w, g * (c * inv) - c);
    lemma_residue_mul(w, g - c);
    assert(residue(x * c) == residue(y));
    lemma_residue_sub(g * inv, c * inv);
    lemma_residue_sub(g * inv, 1);
    lemma_residue_mul(w, g * inv - c * inv);
    lemma_residue_mul(w, g * inv - 1);
    assert(residue(y * inv) == residue(x));
    lemma_residue_mul(x, c);
    lemma_residue_mul(y, inv);
    assert(0 * residue(c) == 0 && 0 * residue(inv) == 0);
}

/// The running products of a table of elements.
fn running_of(a: &Vec<Goldilocks>) -> (r: Vec<Goldilocks>)
    ensures
        ints(r@) == residues(running(ints(a@))),
{
    let mut r: Vec<Goldilocks> = Vec::new();
    let mut acc = Goldilocks::one();
    let ghost f = entries(ints(a@));
    for i in 0..a.len()
        invariant
            f == entries(ints(a@)),
            acc@ == residue(pi(i as nat, f)),
            r@.len() == i,
            forall|k: int| 0 <= k < i ==> (#[trigger] r@[k])@ == residue(pi(k as nat, f)),
    {
        r.push(acc);
        proof {
            lemma_view_canonical(a@[i as int]);
            lemma_fmul(pi(i as nat, f), a@[i as int]@);
            assert(f(i as int) == a@[i as int]@);
        }
        acc = acc * a[i];
    }
    assert(ints(r@) =~= residues(running(ints(a@))));
    r
}

/// The equality weights rotated by one.
fn rotated_of(e: &Vec<Goldilocks>) -> (r: Vec<Goldilocks>)
    ensures
        ints(r@) == rotated(ints(e@)),
{
    let n: usize = e.len();
    let mut r: Vec<Goldilocks> = Vec::new();
    for i in 0..n
        invariant
            n == e@.len(),
            r@.len() == i,
            forall|k: int| 0 <= k < i ==> (#[trigger] r@[k])@ == rotated(ints(e@))[k],
    {
        if i == 0 {
            r.push(e[n - 1]);
        } else {
            r.push(e[i - 1]);
        }
    }
    assert(ints(r@) =~= rotated(ints(e@)));
    r
}

/// A dot product depends on its tables only up to congruence.
pub proof fn lemma_dot_residues(f: Seq<int>, g: Seq<int>, u: Seq<int>, w: Seq<int>)
    requires
        residues(f) == residues(u),
        residues(g) == residues(w),
        f.len() == g.len(),
    ensures
        residue(dot(f, g)) == residue(dot(u, w)),
{
    assert(residues(f).len() == f.len() && residues(u).len() == u.len());
    assert(residues(g).len() == g.len() && residues(w).len() == w.len());
    let a = |i: int| f[i] * g[i];
    let b = |i: int| u[i] * w[i];
    assert forall|i: int| 0 <= i < f.len() implies residue(#[trigger] a(i)) == residue(b(i)) by {
        assert(residues(f)[i] == residue(f[i]) && residues(u)[i] == residue(u[i]));
        assert(residues(g)[i] == residue(g[i]) && residues(w)[i] == residue(w[i]));
        lemma_mul3_residue(f[i], g[i], 1, u[i], w[i], 1);
    }
    lemma_sigma_residue(f.len(), a, b);
}

/// An entry-wise product depends on its tables only up to congruence.
pub proof fn lemma_hadamard_residues(f: Seq<int>, g: Seq<int>, u: Seq<int>, w: Seq<int>)
    requires
        residues(f) == residues(u),
        residues(g) == residues(w),
        f.len() == g.len(),
    ensures
        residues(hadamard(f, g)) == residues(hadamard(u, w)),
{
    assert(residues(f).len() == f.len() && residues(u).len() == u.len());
    assert(residues(g).len() == g.len() && residues(w).len() == w.len());
    assert forall|i: int| 0 <= i < f.len() implies residue(#[trigger] hadamard(f, g)[i])
        == residue(hadamard(u, w)[i]) by {
        assert(residues(f)[i] == residue(f[i]) && residues(u)[i] == residue(u[i]));
        assert(residues(g)[i] == residue(g[i]) && residues(w)[i] == residue(w[i]));
        lemma_mul3_residue(f[i], g[i], 1, u[i], w[i], 1);
    }
    assert(residues(hadamard(f, g)) =~= residues(hadamard(u, w)));
}

/// Proves `prod_i a_i = c` for a table of length `2^d` via the grand product
/// argument: normalize the table so that its product is one, then prove the
/// cyclic running-product recurrence `r(i + 1) = r(i) * a(i)` by checking, at a
/// random challenge, that both sides have the same extension.
pub fn prove_product(
    whir: &Whir,
    a_plain: &[Goldilocks],
    c: Goldilocks,
    rng: &mut XorShift64,
) -> (ok: bool)
    requires
        a_plain@.len() == pow2(whir.vars()),
        c@ != 0,
    ensures
        ok == product_holds(ints(a_plain@), c@, draws(old(rng)@, whir.vars())),
        final(rng)@ == xorshift_n(old(rng)@, whir.vars()),
{
    let n: usize = a_plain.len();
    let d: usize = whir.num_variables();
    proof {
        lemma_pow2_pos(d as nat);
    }
    let ghost av = ints(a_plain@);
    // a' = a with the last entry divided by c, so prod a' = 1.
    let inv = c.inverse();
    let mut a_norm: Vec<Goldilocks> = vstd::slice::slice_to_vec(a_plain);
    let last = a_norm[n - 1] * inv;
    a_norm.set(n - 1, last);
    let ghost nv = divided(av, inv@);
    proof {
        broadcast use group_residue;

        assert(residue(c@ * inv@) == 1);
        assert forall|i: int| 0 <= i < n implies residue(#[trigger] ints(a_norm@)[i]) == residue(
            nv[i],
        ) by {
            if i == n - 1 {
                assert(ints(a_norm@)[i] == residue(av[i] * inv@));
            } else {
                assert(ints(a_norm@)[i] == av[i]);
            }
        }
        assert(residues(ints(a_norm@)) =~= residues(nv));
    }
    // running product r_i = prod_{j < i} a'_j.
    let r = running_of(&a_norm);
    let ghost (anv, rv) = (ints(a_norm@), ints(r@));
    proof {
        assert(rv.len() == r@.len() && residues(running(anv)).len() == n);
        sumcheck::lemma_residues_idem(rv, running(anv));
        lemma_running_residues(anv, nv);
    }
    let c_a = commit(whir, a_norm.as_slice());
    let c_r = commit(whir, r.as_slice());
    let chal = draw_point(rng, d);
    let ghost cv = ints(chal@);
    assert(cv.len() == chal@.len());
    proof {
        assert(pow2(d as nat) == n);
    }
    let s = selector(chal.as_slice());
    // eq_shift[i] = eq(x = (i-1) mod n, chal).
    let eq_shift = rotated_of(&s.weights);
    let ghost ev = ints(eq_shift@);
    proof {
        let e = eq_table(cv);
        assert(ints(s.weights@).len() == s.weights@.len() && residues(e).len() == e.len());
        assert(ev.len() == eq_shift@.len() && rotated(ints(s.weights@)).len() == n);
        assert(residues(ev) =~= residues(rotated(e))) by {
            broadcast use group_residue;

            assert forall|i: int| 0 <= i < n implies residue(#[trigger] ev[i]) == residue(
                rotated(e)[i],
            ) by {
                let j = if i == 0 { n - 1 } else { i - 1 };
                assert(ev[i] == ints(s.weights@)[j]);
                assert(ints(s.weights@)[j] == residues(e)[j]);
            }
        }
    }
    let (a_chal, r_chal) = match (
        open_checked(whir, &c_a, chal.as_slice()),
        open_checked(whir, &c_r, chal.as_slice()),
    ) {
        (Some(a_chal), Some(r_chal)) => (a_chal, r_chal),
        _ => {
            return false;
        },
    };
    let (c1, ok1) = weighted_check2(
        &s,
        r.as_slice(),
        a_norm.as_slice(),
        r_chal,
        a_chal,
        chal.as_slice(),
    );
    let c2 = dot_of(r.as_slice(), eq_shift.as_slice());
    let proof2 = sumcheck::prove(r.as_slice(), eq_shift.as_slice(), c2, chal.as_slice());
    let eq_shift_r = mle::eval(eq_shift.as_slice(), chal.as_slice());
    let ok2 = sumcheck::verify(&proof2, c2, chal.as_slice(), r_chal, eq_shift_r);
    proof {
        broadcast use lemma_residue_residue;

        lemma_mul3_residue(
            eq_self(cv),
            r_chal@,
            a_chal@,
            eq_self(cv),
            mle::mle(rv, cv),
            mle::mle(anv, cv),
        );
        assert(ok1);
        sumcheck::lemma_sumcheck_complete(proof2.rounds@, rv, ev, cv, c2@, r_chal@, eq_shift_r@);
        assert(ok2);
        // Both sums in terms of the unreduced tables.
        lemma_hadamard_residues(rv, anv, running(nv), nv);
        lemma_mle_residues(hadamard(rv, anv), hadamard(running(nv), nv), cv);
        lemma_dot_residues(rv, ev, running(nv), rotated(eq_table(cv)));
        lemma_recurrence(nv, cv);
        lemma_residue_difference(
            mle::mle(hadamard(running(nv), nv), cv),
            dot(running(nv), rotated(eq_table(cv))),
        );
        lemma_divided_product(av, inv@);
        lemma_divided_holds(eq_weight(n - 1, cv), grand_product(av), c@, inv@);
    }
    if !ok1 || !ok2 || c1 != c2 {
        return false;
    }
    // r_0 = 1.
    let zero_point = zeros(d);
    proof {
        let z = ints(zero_point@);
        assert(z.len() == zero_point@.len());
        lemma_residue_small(0);
        lemma_residue_small(1);
        assert forall|j: int| 0 <= j < z.len() implies #[trigger] z[j] == (0int / pow2(
            j as nat,
        ) as int) % 2 by {
            lemma_pow2_pos(j as nat);
            vstd::arithmetic::div_mod::lemma_div_basics(pow2(j as nat) as int);
        }
        mle::lemma_mle_at_corner(rv, z, 0);
        assert(rv[0] == residues(running(anv))[0]);
        assert(running(anv)[0] == 1);
    }
    match open_checked(whir, &c_r, zero_point.as_slice()) {
        Some(r0) => r0 == Goldilocks::one(),
        None => false,
    }
}

/// Running products of congruent tables are congruent.
proof fn lemma_running_residues(a: Seq<int>, b: Seq<int>)
    requires
        residues(a) == residues(b),
    ensures
        residues(running(a)) == residues(running(b)),
{
    assert(residues(a).len() == a.len() && residues(b).len() == b.len());
    assert forall|i: int| 0 <= i < a.len() implies residue(#[trigger] running(a)[i]) == residue(
        running(b)[i],
    ) by {
        let (f, g) = (entries(a), entries(b));
        assert forall|k: int| 0 <= k < i implies residue(#[trigger] f(k)) == residue(g(k)) by {
            assert(residues(a)[k] == residue(a[k]) && residues(b)[k] == residue(b[k]));
        }
        lemma_pi_residue(i as nat, f, g);
    }
    assert(residues(running(a)) =~= residues(running(b)));
}

/// The origin of `d` coordinates.
fn zeros(d: usize) -> (z: Vec<Goldilocks>)
    ensures
        z@.len() == d,
        forall|i: int| 0 <= i < d ==> (#[trigger] z@[i])@ == residue(0),
{
    let mut z: Vec<Goldilocks> = Vec::new();
    for i in 0..d
        invariant
            z@.len() == i,
            forall|k: int| 0 <= k < i ==> (#[trigger] z@[k])@ == residue(0),
    {
        z.push(Goldilocks::zero());
    }
    z
}

/// The key `alpha + x + beta * y` of a pair.
pub open spec fn key(x: int, y: int, alpha: int, beta: int) -> int {
    alpha + x + beta * y
}

/// The keys of two columns.
pub open spec fn keys(x: Seq<int>, y: Seq<int>, alpha: int, beta: int, n: nat) -> Seq<int> {
    Seq::new(n, |i: int| key(x[i], y[i], alpha, beta))
}

/// The keys of the table entries that the indices select.
pub open spec fn table_keys(
    indices: Seq<u32>,
    table: Seq<int>,
    alpha: int,
    beta: int,
) -> Seq<int> {
    Seq::new(
        indices.len(),
        |i: int| key(indices[i] as int, table[indices[i] as int], alpha, beta),
    )
}

/// The committed columns give the same keys as the plain ones at `r`.
pub open spec fn lookup_bound(
    tables: (Seq<int>, Seq<int>),
    plain: (Seq<int>, Seq<int>),
    beta: int,
    r: Seq<int>,
) -> bool {
    residue(mle::mle(tables.0, r) + beta * mle::mle(tables.1, r)) == residue(
        mle::mle(plain.0, r) + beta * mle::mle(plain.1, r),
    )
}

/// What the committed lookup checks: the committed columns give the plain keys
/// at `r`, and the product of the plain keys is the product of the selected
/// table keys, as far as `chal` can tell.
pub open spec fn lookup_holds(
    tables: (Seq<int>, Seq<int>),
    plain: (Seq<int>, Seq<int>),
    indices: Seq<u32>,
    table: Seq<int>,
    alpha: int,
    beta: int,
    r: Seq<int>,
    chal: Seq<int>,
) -> bool {
    &&& lookup_bound(tables, plain, beta, r)
    &&& product_holds(
        keys(plain.0, plain.1, alpha, beta, plain.0.len()),
        residue(grand_product(table_keys(indices, table, alpha, beta))),
        chal,
    )
}

/// The power of the key of table entry `j` by its multiplicity.
spec fn key_powers(
    indices: Seq<u32>,
    table: Seq<int>,
    alpha: int,
    beta: int,
) -> spec_fn(int) -> int {
    |j: int| pow(key(j, table[j], alpha, beta), multiplicity(indices, j) as nat)
}

/// Multiplying by value: the product over the table with multiplicities is the
/// product over the indices.
proof fn lemma_product_by_value(indices: Seq<u32>, table: Seq<int>, alpha: int, beta: int, t: nat)
    requires
        t <= indices.len(),
        forall|i: int| 0 <= i < indices.len() ==> #[trigger] indices[i] < table.len(),
    ensures
        pi(table.len(), key_powers(indices.take(t as int), table, alpha, beta)) == pi(
            t,
            entries(table_keys(indices, table, alpha, beta)),
        ),
    decreases t,
{
    let n = table.len();
    let ks = table_keys(indices, table, alpha, beta);
    let f = key_powers(indices.take(t as int), table, alpha, beta);
    if t == 0 {
        assert forall|j: int| 0 <= j < n implies #[trigger] f(j) == 1 by {
            assert(multiplicity(indices.take(0), j) == 0);
            vstd::arithmetic::power::lemma_pow0(key(j, table[j], alpha, beta));
        }
        lemma_pi_ones(n, f);
    } else {
        let i = t - 1;
        lemma_product_by_value(indices, table, alpha, beta, i as nat);
        let g = key_powers(indices.take(i), table, alpha, beta);
        let x = indices[i] as int;
        assert(indices[i] < table.len());
        let kx = key(x, table[x], alpha, beta);
        assert forall|j: int| 0 <= j < n && j != x implies #[trigger] g(j) == f(j) by {
            crate::lookup::lemma_multiplicity_step(indices, i, j);
        }
        crate::lookup::lemma_multiplicity_step(indices, i, x);
        lemma_multiplicity_nonneg(indices.take(i), x);
        let e = multiplicity(indices.take(i), x) as nat;
        vstd::arithmetic::power::lemma_pow_adds(kx, e, 1);
        vstd::arithmetic::power::lemma_pow1(kx);
        assert(f(x) == g(x) * kx);
        lemma_pi_bump(n, g, f, x, kx);
        assert(entries(ks)(i) == kx);
    }
}

proof fn lemma_pi_ones(n: nat, f: spec_fn(int) -> int)
    requires
        forall|j: int| 0 <= j < n ==> #[trigger] f(j) == 1,
    ensures
        pi(n, f) == 1,
    decreases n,
{
    if n > 0 {
        assert(f(n - 1) == 1);
        lemma_pi_ones((n - 1) as nat, f);
    }
}

proof fn lemma_multiplicity_nonneg(s: Seq<u32>, j: int)
    ensures
        0 <= multiplicity(s, j) <= s.len(),
{
    lemma_hits_bound(s, j, s.len());
}

proof fn lemma_hits_bound(s: Seq<u32>, j: int, n: nat)
    ensures
        0 <= sigma(n, hits(s, j)) <= n,
    decreases n,
{
    if n > 0 {
        lemma_hits_bound(s, j, (n - 1) as nat);
    }
}

/// How often every table index is hit.
fn multiplicities(indices: &[u32], len: usize) -> (m: Vec<u64>)
    requires
        forall|i: int| 0 <= i < indices@.len() ==> #[trigger] indices@[i] < len,
    ensures
        m@.len() == len,
        forall|j: int| 0 <= j < len ==> #[trigger] m@[j] as int == multiplicity(indices@, j),
{
    let mut m: Vec<u64> = Vec::new();
    for j in 0..len
        invariant
            m@.len() == j,
            forall|k: int| 0 <= k < j ==> #[trigger] m@[k] == 0,
    {
        m.push(0);
    }
    assert forall|k: int| 0 <= k < len implies #[trigger] m@[k] as int == multiplicity(
        indices@.take(0),
        k,
    ) by {}
    let count: usize = indices.len();
    for i in 0..count
        invariant
            count == indices@.len(),
            m@.len() == len,
            forall|k: int| 0 <= k < indices@.len() ==> #[trigger] indices@[k] < len,
            forall|k: int|
                0 <= k < len ==> #[trigger] m@[k] as int == multiplicity(
                    indices@.take(i as int),
                    k,
                ),
    {
        let x: usize = indices[i] as usize;
        let ghost before = m@;
        proof {
            lemma_multiplicity_nonneg(indices@.take(i as int), x as int);
            assert(before[x as int] as int == multiplicity(indices@.take(i as int), x as int));
        }
        let v: u64 = m[x] + 1;
        m.set(x, v);
        proof {
            assert forall|k: int| 0 <= k < len implies #[trigger] m@[k] as int == multiplicity(
                indices@.take(i + 1),
                k,
            ) by {
                crate::lookup::lemma_multiplicity_step(indices@, i as int, k);
                assert(before[k] as int == multiplicity(indices@.take(i as int), k));
            }
        }
    }
    assert(indices@.take(indices@.len() as int) =~= indices@);
    m
}

/// `alpha + x + beta * y`.
fn key_of(x: Goldilocks, y: Goldilocks, alpha: Goldilocks, beta: Goldilocks) -> (r: Goldilocks)
    ensures
        r@ == residue(key(x@, y@, alpha@, beta@)),
{
    proof {
        lemma_view_canonical(x);
        lemma_view_canonical(y);
        lemma_view_canonical(alpha);
        lemma_view_canonical(beta);
        lemma_fadd(alpha@, x@);
        lemma_fmul(beta@, y@);
        lemma_fadd(alpha@ + x@, beta@ * y@);
    }
    alpha + x + beta * y
}

/// The public product of the table keys with multiplicities.
fn table_product(
    indices: &[u32],
    table: &[Goldilocks],
    alpha: Goldilocks,
    beta: Goldilocks,
) -> (b: Goldilocks)
    requires
        forall|i: int| 0 <= i < indices@.len() ==> #[trigger] indices@[i] < table@.len(),
    ensures
        b@ == residue(grand_product(table_keys(indices@, ints(table@), alpha@, beta@))),
{
    let m = multiplicities(indices, table.len());
    let ghost ts = ints(table@);
    let ghost f = key_powers(indices@, ts, alpha@, beta@);
    let mut b = Goldilocks::one();
    for j in 0..table.len()
        invariant
            ts == ints(table@),
            f == key_powers(indices@, ts, alpha@, beta@),
            m@.len() == table@.len(),
            forall|k: int|
                0 <= k < m@.len() ==> #[trigger] m@[k] as int == multiplicity(indices@, k),
            b@ == residue(pi(j as nat, f)),
    {
        let factor = key_of(Goldilocks::from_u64(j as u64), table[j], alpha, beta);
        let ghost kj = key(j as int, ts[j as int], alpha@, beta@);
        let ghost before = pi(j as nat, f);
        proof {
            lemma_residue_residue(j as int);
            lemma_key_residue(j as int, residue(j as int), ts[j as int], alpha@, beta@);
            vstd::arithmetic::power::lemma_pow0(kj);
            assert(before * 1 == before);
        }
        let count: u64 = m[j];
        for t in 0..count
            invariant
                factor@ == residue(kj),
                b@ == residue(before * pow(kj, t as nat)),
        {
            proof {
                lemma_fmul(before * pow(kj, t as nat), kj);
                vstd::arithmetic::power::lemma_pow_adds(kj, t as nat, 1);
                vstd::arithmetic::power::lemma_pow1(kj);
                let p = pow(kj, t as nat);
                assert((before * p) * kj == before * (p * kj)) by (nonlinear_arith);
            }
            b = b * factor;
        }
        assert(m@[j as int] as int == multiplicity(indices@, j as int));
        assert(f(j as int) == pow(kj, m@[j as int] as nat));
    }
    proof {
        lemma_product_by_value(indices@, ts, alpha@, beta@, indices@.len());
        assert(indices@.take(indices@.len() as int) =~= indices@);
    }
    b
}

/// Keys of congruent values are congruent.
proof fn lemma_key_residue(x: int, u: int, y: int, alpha: int, beta: int)
    requires
        residue(x) == residue(u),
    ensures
        residue(key(x, y, alpha, beta)) == residue(key(u, y, alpha, beta)),
{
    lemma_residue_add(alpha + beta * y, x);
    lemma_residue_add(alpha + beta * y, u);
    assert(key(x, y, alpha, beta) == (alpha + beta * y) + x);
    assert(key(u, y, alpha, beta) == (alpha + beta * y) + u);
}

/// The extension of a column of keys.
proof fn lemma_mle_keys(x: Seq<int>, y: Seq<int>, alpha: int, beta: int, r: Seq<int>)
    requires
        x.len() == y.len() == pow2(r.len()),
    ensures
        mle::mle(keys(x, y, alpha, beta, x.len()), r) == alpha + mle::mle(x, r) + beta * mle::mle(
            y,
            r,
        ),
{
    let n = x.len();
    let ks = keys(x, y, alpha, beta, n);
    let a = Seq::new(n, |i: int| alpha);
    let by = Seq::new(n, |i: int| beta * y[i]);
    let ax = Seq::new(n, |i: int| alpha + x[i]);
    mle::lemma_mle_of_constant(a, r, alpha);
    mle::lemma_mle_scale(y, by, beta, r);
    mle::lemma_mle_add(a, x, ax, r);
    mle::lemma_mle_add(ax, by, ks, r);
}

/// Proves `y_i == table[x_i]` for every `i` sub-linearly: commit the keys
/// `a_i = alpha + x_i + beta y_i`, bind them to the committed `x`/`y` by a
/// single-point check, then prove `prod_i a_i` equals the public table product
/// `prod_j (alpha + j + beta table[j])^{m_j}` via [`prove_product`]. This is the
/// grand-product form of the LogUp lookup argument.
pub fn prove_lookup(
    whir_x: &Whir,
    x: &Committed,
    x_plain: &[Goldilocks],
    whir_y: &Whir,
    y: &Committed,
    y_plain: &[Goldilocks],
    indices: &[u32],
    table: &[Goldilocks],
    alpha: Goldilocks,
    beta: Goldilocks,
    rng: &mut XorShift64,
) -> (ok: bool)
    requires
        whir_x.vars() == whir_y.vars(),
        x.fits(*whir_x),
        y.fits(*whir_y),
        x_plain@.len() >= pow2(whir_x.vars()),
        y_plain@.len() >= pow2(whir_x.vars()),
        x_plain@.len() == pow2(whir_x.vars()) || y_plain@.len() == pow2(whir_x.vars()),
        indices@.len() > 0,
        two_adic(indices@.len(), whir_x.vars()),
        forall|i: int| 0 <= i < indices@.len() ==> #[trigger] indices@[i] < table@.len(),
        lookup_bound(
            (x.table(), y.table()),
            (
                ints(x_plain@).take(pow2(whir_x.vars()) as int),
                ints(y_plain@).take(pow2(whir_x.vars()) as int),
            ),
            beta@,
            draws(old(rng)@, whir_x.vars()),
        ) ==> residue(grand_product(table_keys(indices@, ints(table@), alpha@, beta@))) != 0,
    ensures
        ({
            let (s, d) = (old(rng)@, whir_x.vars());
            let (r, chal) = (draws(s, d), draws(xorshift_n(s, d), d));
            let tables = (x.table(), y.table());
            let plain = (
                ints(x_plain@).take(pow2(d) as int),
                ints(y_plain@).take(pow2(d) as int),
            );
            let columns = lookup_bound(tables, plain, beta@, r);
            let opened = x.opened_at(*whir_x, r) && y.opened_at(*whir_y, r);
            let holds = lookup_holds(
                tables,
                plain,
                indices@,
                ints(table@),
                alpha@,
                beta@,
                r,
                chal,
            );
            &&& ok ==> holds && opened && final(rng)@ == xorshift_n(s, d + d)
            &&& x.bound(*whir_x) && y.bound(*whir_y) ==> ok == holds
            // A refusal comes at the committed columns or at the product.
            &&& !ok ==> {
                ||| final(rng)@ == xorshift_n(s, d) && (x.bound(*whir_x) && y.bound(*whir_y)
                    ==> !columns)
                ||| final(rng)@ == xorshift_n(s, d + d) && columns && opened && !holds
            }
        }),
{
    let n: usize = indices.len();
    let d: usize = trailing_zeros(n);
    let ghost start = rng@;
    proof {
        lemma_two_adic_unique(n as nat, d as nat, whir_x.vars());
    }
    // The two columns are paired as far as both go.
    let count: usize = if x_plain.len() < y_plain.len() {
        x_plain.len()
    } else {
        y_plain.len()
    };
    let xs = vstd::slice::slice_subrange(x_plain, 0, count);
    let ys = vstd::slice::slice_subrange(y_plain, 0, count);
    let ghost (xv, yv) = (ints(xs@), ints(ys@));
    proof {
        assert(xv =~= ints(x_plain@).take(count as int));
        assert(yv =~= ints(y_plain@).take(count as int));
    }
    let ghost ks = keys(xv, yv, alpha@, beta@, xv.len());
    let mut a_plain: Vec<Goldilocks> = Vec::new();
    for i in 0..count
        invariant
            xs@.len() == ys@.len() == count,
            xv == ints(xs@),
            yv == ints(ys@),
            ks == keys(xv, yv, alpha@, beta@, xv.len()),
            a_plain@.len() == i,
            forall|k: int| 0 <= k < i ==> (#[trigger] a_plain@[k])@ == residue(ks[k]),
    {
        a_plain.push(key_of(xs[i], ys[i], alpha, beta));
    }
    let ghost av = ints(a_plain@);
    proof {
        assert(av.len() == a_plain@.len());
        assert(av =~= residues(ks));
        sumcheck::lemma_residues_idem(av, ks);
    }
    let c_a = commit(whir_x, a_plain.as_slice());
    // Public table product with multiplicities.
    let b = table_product(indices, table, alpha, beta);
    // Bind a to the committed x, y at one random point.
    let r = draw_point(rng, d);
    let ghost rv = ints(r@);
    proof {
        assert(rv.len() == r@.len());
        lemma_xorshift_n_add(start, d as nat, d as nat);
    }
    let (xr, yr, ar) = match (
        open_checked(whir_x, x, r.as_slice()),
        open_checked(whir_y, y, r.as_slice()),
        open_checked(whir_x, &c_a, r.as_slice()),
    ) {
        (Some(xr), Some(yr), Some(ar)) => (xr, yr, ar),
        _ => {
            return false;
        },
    };
    proof {
        let (mx, my) = (mle::mle(x.table(), rv), mle::mle(y.table(), rv));
        let (px, py) = (mle::mle(xv, rv), mle::mle(yv, rv));
        lemma_mle_keys(xv, yv, alpha@, beta@, rv);
        lemma_mle_residues(av, ks, rv);
        lemma_key_congruent(mx, my, xr@, yr@, alpha@, beta@);
        assert(ar@ == residue(key(px, py, alpha@, beta@)));
        lemma_key_shift(mx, my, px, py, alpha@, beta@);
    }
    if ar != key_of(xr, yr, alpha, beta) {
        return false;
    }
    proof {
        lemma_product_residues(av, ks, b@, draws(rng@, d as nat));
    }
    prove_product(whir_x, a_plain.as_slice(), b, rng)
}

/// The key of two reduced values.
proof fn lemma_key_congruent(x: int, y: int, u: int, v: int, alpha: int, beta: int)
    requires
        u == residue(x),
        v == residue(y),
    ensures
        residue(key(u, v, alpha, beta)) == residue(key(x, y, alpha, beta)),
{
    broadcast use lemma_residue_residue;

    lemma_key_residue(x, u, v, alpha, beta);
    lemma_residue_mul(beta, v);
    lemma_residue_mul(beta, y);
    lemma_residue_add(alpha + x, beta * v);
    lemma_residue_add(alpha + x, beta * y);
}

/// Equal keys are equal up to the common `alpha`.
proof fn lemma_key_shift(x: int, y: int, u: int, v: int, alpha: int, beta: int)
    ensures
        residue(key(x, y, alpha, beta)) == residue(key(u, v, alpha, beta)) <==> residue(
            x + beta * y,
        ) == residue(u + beta * v),
{
    lemma_residue_difference(key(x, y, alpha, beta), key(u, v, alpha, beta));
    lemma_residue_difference(x + beta * y, u + beta * v);
}

/// The product check depends on the table only up to congruence.
proof fn lemma_product_residues(a: Seq<int>, b: Seq<int>, c: int, chal: Seq<int>)
    requires
        residues(a) == residues(b),
    ensures
        product_holds(a, c, chal) == product_holds(b, c, chal),
{
    assert(residues(a).len() == a.len() && residues(b).len() == b.len());
    let (f, g) = (entries(a), entries(b));
    assert forall|k: int| 0 <= k < a.len() implies residue(#[trigger] f(k)) == residue(g(k)) by {
        assert(residues(a)[k] == residue(a[k]) && residues(b)[k] == residue(b[k]));
    }
    lemma_pi_residue(a.len(), f, g);
    let w = eq_weight(a.len() - 1, chal);
    lemma_residue_sub(grand_product(a), c);
    lemma_residue_sub(grand_product(b), c);
    lemma_residue_mul(w, grand_product(a) - c);
    lemma_residue_mul(w, grand_product(b) - c);
}

/// A committed lookup whose outputs are the table values at the indices is
/// accepted whatever the challenges are.
pub proof fn lemma_lookup_holds(
    x: Seq<int>,
    y: Seq<int>,
    indices: Seq<u32>,
    table: Seq<int>,
    alpha: int,
    beta: int,
    r: Seq<int>,
    chal: Seq<int>,
)
    requires
        x.len() == y.len() == indices.len(),
        forall|i: int|
            0 <= i < indices.len() ==> residue(#[trigger] x[i]) == residue(indices[i] as int)
                && residue(y[i]) == residue(table[indices[i] as int]),
    ensures
        lookup_holds((x, y), (x, y), indices, table, alpha, beta, r, chal),
{
    broadcast use lemma_residue_residue;

    let ks = keys(x, y, alpha, beta, x.len());
    let ts = table_keys(indices, table, alpha, beta);
    let (f, g) = (entries(ks), entries(ts));
    assert forall|i: int| 0 <= i < x.len() implies residue(#[trigger] f(i)) == residue(g(i)) by {
        assert(residue(x[i]) == residue(indices[i] as int));
        let t = table[indices[i] as int];
        lemma_key_congruent(x[i], y[i], residue(x[i]), residue(y[i]), alpha, beta);
        lemma_key_congruent(indices[i] as int, t, residue(x[i]), residue(y[i]), alpha, beta);
    }
    lemma_pi_residue(x.len(), f, g);
    let (p, q) = (grand_product(ks), residue(grand_product(ts)));
    lemma_residue_difference(p, q);
    let w = eq_weight(x.len() - 1, chal);
    lemma_residue_mul(w, p - q);
    lemma_residue_small(0);
    assert(residue(w) * 0 == 0);
}

} // verus!
