//! LogUp (log-derivative) lookup argument.
//!
//! Proves that `y_i = table[x_i]` for every `i`. The pairs `(x_i, y_i)` are
//! batched into single keys with a random `beta`, then the log-derivative
//! identity `sum_i 1/(alpha + key_i) == sum_j m_j/(alpha + tkey_j)` is checked
//! at a random `alpha`.

use crate::field::{
    finv, group_residue, ints, lemma_fadd, lemma_fmul, residue, Goldilocks,
};
use crate::sums::{
    lemma_sigma_eq, lemma_sigma_scale, lemma_sigma_swap, lemma_sigma_zero, sigma,
};
use vstd::prelude::*;

verus! {

#[derive(Clone, Debug)]
pub struct LookupProof {
    /// `sum_i 1/(alpha + (x_i + beta*y_i))`.
    pub lhs: Goldilocks,
    /// `sum_j m_j / (alpha + (j + beta*table[j]))`.
    pub rhs: Goldilocks,
    pub alpha: Goldilocks,
    pub beta: Goldilocks,
}

/// The denominator `alpha + (x + beta * y)` of a pair.
pub open spec fn denominator(x: int, y: int, alpha: int, beta: int) -> int {
    residue(alpha + (x + beta * y))
}

/// One where the index is `j`, zero elsewhere.
pub open spec fn hits(indices: Seq<u32>, j: int) -> spec_fn(int) -> int {
    |i: int|
        if indices[i] == j {
            1int
        } else {
            0
        }
}

/// How often `j` occurs among the indices.
pub open spec fn multiplicity(indices: Seq<u32>, j: int) -> int {
    sigma(indices.len(), hits(indices, j))
}

/// `sum_i 1/(alpha + (x_i + beta*y_i))`.
pub open spec fn lookup_sum(indices: Seq<u32>, y: Seq<int>, alpha: int, beta: int) -> int {
    sigma(indices.len(), |i: int| finv(denominator(indices[i] as int, y[i], alpha, beta)))
}

/// `sum_j m_j / (alpha + (j + beta*table[j]))`.
pub open spec fn table_sum(indices: Seq<u32>, table: Seq<int>, alpha: int, beta: int) -> int {
    sigma(
        table.len(),
        |j: int| multiplicity(indices, j) * finv(denominator(j, table[j], alpha, beta)),
    )
}

/// The inputs on which the two sums can be formed: every index points into the
/// table and no denominator vanishes.
pub open spec fn well_defined(
    indices: Seq<u32>,
    y: Seq<int>,
    table: Seq<int>,
    alpha: int,
    beta: int,
) -> bool {
    &&& indices.len() == y.len()
    &&& forall|i: int|
        0 <= i < indices.len() ==> #[trigger] indices[i] < table.len() && denominator(
            indices[i] as int,
            y[i],
            alpha,
            beta,
        ) != 0
    &&& forall|j: int|
        0 <= j < table.len() ==> denominator(j, #[trigger] table[j], alpha, beta) != 0
}

/// `1 / (alpha + (x + beta * y))`.
fn term(x: u64, y: Goldilocks, alpha: Goldilocks, beta: Goldilocks) -> (r: Goldilocks)
    requires
        denominator(x as int, y@, alpha@, beta@) != 0,
    ensures
        r@ == finv(denominator(x as int, y@, alpha@, beta@)),
{
    broadcast use group_residue;

    let key = Goldilocks::from_u64(x) + beta * y;
    let d = alpha + key;
    assert(d@ == residue(alpha@ + (x as int + beta@ * y@)));
    d.inverse()
}

/// Builds the lookup proof for `outputs[i] == table[indices[i]]`.
pub fn prove(
    indices: &[u32],
    outputs: &[Goldilocks],
    table: &[Goldilocks],
    alpha: Goldilocks,
    beta: Goldilocks,
) -> (proof: LookupProof)
    requires
        well_defined(indices@, ints(outputs@), ints(table@), alpha@, beta@),
    ensures
        proof.lhs@ == residue(lookup_sum(indices@, ints(outputs@), alpha@, beta@)),
        proof.rhs@ == residue(table_sum(indices@, ints(table@), alpha@, beta@)),
        proof.alpha == alpha,
        proof.beta == beta,
{
    let ghost (ys, ts) = (ints(outputs@), ints(table@));
    // Multiplicities: m[j] = number of lookups hitting table index j.
    let mut m: Vec<Goldilocks> = Vec::new();
    for j in 0..table.len()
        invariant
            m@.len() == j,
            forall|k: int| 0 <= k < j ==> (#[trigger] m@[k])@ == residue(0),
    {
        m.push(Goldilocks::zero());
    }
    assert forall|k: int| 0 <= k < m@.len() implies (#[trigger] m@[k])@ == residue(
        multiplicity(indices@.take(0), k),
    ) by {}
    for i in 0..indices.len()
        invariant
            m@.len() == table@.len(),
            forall|k: int| 0 <= k < indices@.len() ==> #[trigger] indices@[k] < table@.len(),
            forall|k: int|
                0 <= k < m@.len() ==> (#[trigger] m@[k])@ == residue(
                    multiplicity(indices@.take(i as int), k),
                ),
    {
        let x: usize = indices[i] as usize;
        let ghost before = m@;
        let c = m[x] + Goldilocks::one();
        m.set(x, c);
        proof {
            lemma_fadd(multiplicity(indices@.take(i as int), x as int), 1);
            assert forall|k: int| 0 <= k < m@.len() implies (#[trigger] m@[k])@ == residue(
                multiplicity(indices@.take(i + 1), k),
            ) by {
                lemma_multiplicity_step(indices@, i as int, k);
                assert(before[k]@ == residue(multiplicity(indices@.take(i as int), k)));
            }
        }
    }
    assert(indices@.take(indices@.len() as int) =~= indices@);
    let ghost f = |i: int| finv(denominator(indices@[i] as int, ys[i], alpha@, beta@));
    let mut lhs = Goldilocks::zero();
    for i in 0..indices.len()
        invariant
            ys == ints(outputs@),
            well_defined(indices@, ys, ints(table@), alpha@, beta@),
            f == (|i: int| finv(denominator(indices@[i] as int, ys[i], alpha@, beta@))),
            lhs@ == residue(sigma(i as nat, f)),
    {
        let t = term(indices[i] as u64, outputs[i], alpha, beta);
        proof {
            crate::field::lemma_view_canonical(t);
            lemma_fadd(sigma(i as nat, f), t@);
        }
        lhs = lhs + t;
    }
    let ghost g = |j: int|
        multiplicity(indices@, j) * finv(denominator(j, ts[j], alpha@, beta@));
    let mut rhs = Goldilocks::zero();
    for j in 0..table.len()
        invariant
            ts == ints(table@),
            well_defined(indices@, ys, ts, alpha@, beta@),
            m@.len() == table@.len(),
            forall|k: int|
                0 <= k < m@.len() ==> (#[trigger] m@[k])@ == residue(multiplicity(indices@, k)),
            g == (|j: int|
                multiplicity(indices@, j) * finv(denominator(j, ts[j], alpha@, beta@))),
            rhs@ == residue(sigma(j as nat, g)),
    {
        assert(ts[j as int] == table@[j as int]@);
        let t = term(j as u64, table[j], alpha, beta);
        proof {
            crate::field::lemma_view_canonical(t);
            lemma_fmul(multiplicity(indices@, j as int), t@);
            lemma_fadd(sigma(j as nat, g), g(j as int));
        }
        rhs = rhs + m[j] * t;
    }
    LookupProof { lhs, rhs, alpha, beta }
}

pub fn verify(proof: &LookupProof) -> (ok: bool)
    ensures
        ok == (proof.lhs@ == proof.rhs@),
{
    proof.lhs == proof.rhs
}

/// One more index raises the multiplicity of its value by one.
pub proof fn lemma_multiplicity_step(s: Seq<u32>, i: int, k: int)
    requires
        0 <= i < s.len(),
    ensures
        multiplicity(s.take(i + 1), k) == multiplicity(s.take(i), k) + (if s[i] == k {
            1int
        } else {
            0
        }),
{
    let (a, b) = (s.take(i), s.take(i + 1));
    let (f, g) = (hits(a, k), hits(b, k));
    assert(sigma((i + 1) as nat, g) == sigma(i as nat, g) + g(i));
    assert forall|j: int| 0 <= j < i implies #[trigger] f(j) == g(j) by {
        assert(a[j] == s[j] && b[j] == s[j]);
    }
    lemma_sigma_eq(i as nat, f, g);
}

/// Picks the one term that is not zero out of a sum.
pub proof fn lemma_sigma_pick(n: nat, f: spec_fn(int) -> int, k: int)
    requires
        0 <= k < n,
        forall|j: int| 0 <= j < n && j != k ==> #[trigger] f(j) == 0,
    ensures
        sigma(n, f) == f(k),
    decreases n,
{
    if k == n - 1 {
        lemma_sigma_zero((n - 1) as nat, f);
    } else {
        assert(f(n - 1) == 0);
        lemma_sigma_pick((n - 1) as nat, f, k);
    }
}

/// Counting by value: a sum over the indices is the sum over the table weighted
/// by the multiplicities.
pub proof fn lemma_count_by_value(indices: Seq<u32>, n: nat, g: spec_fn(int) -> int)
    requires
        forall|i: int| 0 <= i < indices.len() ==> #[trigger] indices[i] < n,
    ensures
        sigma(indices.len(), |i: int| g(indices[i] as int)) == sigma(
            n,
            |j: int| multiplicity(indices, j) * g(j),
        ),
{
    let len = indices.len();
    let hit = |i: int, j: int| if indices[i] == j { g(j) } else { 0 };
    lemma_sigma_swap(len, n, hit);
    let by_index = |i: int| sigma(n, |j: int| hit(i, j));
    let direct = |i: int| g(indices[i] as int);
    assert forall|i: int| 0 <= i < len implies #[trigger] direct(i) == by_index(i) by {
        lemma_sigma_pick(n, |j: int| hit(i, j), indices[i] as int);
    }
    lemma_sigma_eq(len, direct, by_index);
    let by_value = |j: int| sigma(len, |i: int| hit(i, j));
    let weighted = |j: int| multiplicity(indices, j) * g(j);
    assert forall|j: int| 0 <= j < n implies #[trigger] by_value(j) == weighted(j) by {
        let one = hits(indices, j);
        lemma_sigma_scale(len, g(j), one);
        let scaled = |i: int| g(j) * one(i);
        lemma_sigma_eq(len, |i: int| hit(i, j), scaled);
        assert(g(j) * sigma(len, one) == sigma(len, one) * g(j)) by (nonlinear_arith);
    }
    lemma_sigma_eq(n, by_value, weighted);
}

/// The LogUp identity: when every output is the table value at its index, the
/// two sums are equal, for every `alpha` and `beta`.
pub proof fn lemma_lookup_complete(
    indices: Seq<u32>,
    y: Seq<int>,
    table: Seq<int>,
    alpha: int,
    beta: int,
)
    requires
        indices.len() == y.len(),
        forall|i: int|
            0 <= i < indices.len() ==> #[trigger] indices[i] < table.len() && y[i]
                == table[indices[i] as int],
    ensures
        lookup_sum(indices, y, alpha, beta) == table_sum(indices, table, alpha, beta),
{
    let g = |j: int| finv(denominator(j, table[j], alpha, beta));
    lemma_count_by_value(indices, table.len(), g);
    lemma_sigma_eq(
        indices.len(),
        |i: int| finv(denominator(indices[i] as int, y[i], alpha, beta)),
        |i: int| g(indices[i] as int),
    );
    lemma_sigma_eq(
        table.len(),
        |j: int| multiplicity(indices, j) * finv(denominator(j, table[j], alpha, beta)),
        |j: int| multiplicity(indices, j) * g(j),
    );
}

} // verus!
