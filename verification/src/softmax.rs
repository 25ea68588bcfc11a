//! Quantized softmax: exp lookup + reduction + division.
//!
//! `y_i = exp(x_i) / sum_j exp(x_j)`. The only non-arithmetic piece is `exp`,
//! which is a table lookup; the sum and division are plain field operations.

use crate::field::{
    finv, ints, inverse_pair, lemma_fadd, lemma_fmul, lemma_residue_mul, lemma_residue_residue,
    lemma_residue_small, lemma_view_canonical, residue, Goldilocks,
};
use crate::gelu::{gather, gather_values, table_defined};
use crate::lookup;
use crate::lookup::{denominator, lookup_sum, table_sum, LookupProof};
use crate::prime::lemma_finv;
use crate::sums::{lemma_sigma_residue, lemma_sigma_scale, sigma};
use vstd::prelude::*;

verus! {

pub struct SoftmaxProof {
    pub lookup: LookupProof,
    /// `sum_i e_i`.
    pub sum: Goldilocks,
}

/// The sum of all entries.
pub open spec fn total(v: Seq<int>) -> int {
    sigma(v.len(), |i: int| v[i])
}

/// The entries divided by their sum in the field.
pub open spec fn normalized(e: Seq<int>) -> Seq<int> {
    Seq::new(e.len(), |i: int| residue(e[i] * finv(residue(total(e)))))
}

/// The field sum of all entries.
pub fn sum_all(v: &[Goldilocks]) -> (r: Goldilocks)
    ensures
        r@ == residue(total(ints(v@))),
        r@ == residue(sigma(v@.len(), |i: int| v@[i]@)),
{
    let ghost f = |i: int| ints(v@)[i];
    let mut acc = Goldilocks::zero();
    for i in 0..v.len()
        invariant
            f == (|i: int| ints(v@)[i]),
            acc@ == residue(sigma(i as nat, f)),
    {
        proof {
            lemma_view_canonical(v@[i as int]);
            lemma_fadd(sigma(i as nat, f), v@[i as int]@);
            assert(f(i as int) == v@[i as int]@);
        }
        acc = acc + v[i];
    }
    proof {
        crate::sums::lemma_sigma_eq(v@.len(), f, |i: int| v@[i]@);
    }
    acc
}

/// Runs quantized softmax over table indices and produces a lookup proof that
/// every `exp` value really came from the table.
pub fn softmax(
    indices: &[u32],
    table: &[Goldilocks],
    alpha: Goldilocks,
    beta: Goldilocks,
) -> (r: (Vec<Goldilocks>, SoftmaxProof))
    requires
        table_defined(indices@, ints(table@), alpha@, beta@),
        residue(total(gather(indices@, ints(table@)))) != 0,
    ensures
        ints(r.0@) == normalized(gather(indices@, ints(table@))),
        r.1.sum@ == residue(total(gather(indices@, ints(table@)))),
        inverse_pair(r.1.sum@, finv(r.1.sum@)),
        r.1.lookup.lhs@ == residue(
            lookup_sum(indices@, gather(indices@, ints(table@)), alpha@, beta@),
        ),
        r.1.lookup.rhs@ == residue(table_sum(indices@, ints(table@), alpha@, beta@)),
        r.1.lookup.lhs@ == r.1.lookup.rhs@,
        r.1.lookup.alpha == alpha,
        r.1.lookup.beta == beta,
{
    let ghost ts = ints(table@);
    let e = gather_values(indices, table);
    let sum = sum_all(e.as_slice());
    let inv = sum.inverse();
    let mut y: Vec<Goldilocks> = Vec::new();
    for i in 0..e.len()
        invariant
            inv@ == finv(residue(total(ints(e@)))),
            y@.len() == i,
            forall|k: int| 0 <= k < i ==> (#[trigger] y@[k])@ == normalized(ints(e@))[k],
    {
        proof {
            lemma_view_canonical(e@[i as int]);
            lemma_view_canonical(inv);
            lemma_fmul(e@[i as int]@, inv@);
        }
        y.push(e[i] * inv);
    }
    proof {
        assert(ints(y@) =~= normalized(ints(e@)));
        assert forall|i: int| 0 <= i < indices@.len() implies #[trigger] indices@[i] < ts.len()
            && denominator(indices@[i] as int, ints(e@)[i], alpha@, beta@) != 0 by {
            let j = indices@[i] as int;
            assert(ints(e@)[i] == ts[j]);
        }
        lookup::lemma_lookup_complete(indices@, ints(e@), ts, alpha@, beta@);
    }
    let lookup = lookup::prove(indices, e.as_slice(), table, alpha, beta);
    (y, SoftmaxProof { lookup, sum })
}

/// Whether `y_i * sum` is the table value at index `i`.
pub open spec fn scales_back(
    indices: Seq<u32>,
    table: Seq<int>,
    y: Seq<int>,
    sum: int,
    i: int,
) -> bool {
    residue(y[i] * sum) == table[indices[i] as int]
}

/// The entries that the comparison with the table reads until it meets the
/// first difference all exist.
pub open spec fn readable(indices: Seq<u32>, table: Seq<int>, y: Seq<int>, sum: int) -> bool {
    forall|i: int|
        0 <= i < indices.len() && i < y.len() && (forall|k: int|
            0 <= k < i ==> #[trigger] scales_back(indices, table, y, sum, k))
            ==> #[trigger] indices[i] < table.len()
}

/// Verifies that the outputs sum to one and that the exp lookup is consistent.
pub fn verify(
    indices: &[u32],
    table: &[Goldilocks],
    y: &[Goldilocks],
    proof: &SoftmaxProof,
) -> (ok: bool)
    requires
        residue(total(ints(y@))) == 1 && proof.lookup.lhs@ == proof.lookup.rhs@ ==> readable(
            indices@,
            ints(table@),
            ints(y@),
            proof.sum@,
        ),
    ensures
        ok == (residue(total(ints(y@))) == 1 && proof.lookup.lhs@ == proof.lookup.rhs@
            && forall|i: int|
            0 <= i < indices@.len() && i < y@.len() ==> #[trigger] scales_back(
                indices@,
                ints(table@),
                ints(y@),
                proof.sum@,
                i,
            )),
{
    proof {
        lemma_residue_small(1);
    }
    // Outputs must sum to 1 (the softmax normalization).
    if sum_all(y) != Goldilocks::one() {
        return false;
    }
    if !lookup::verify(&proof.lookup) {
        return false;
    }
    let ghost (ts, ys, s) = (ints(table@), ints(y@), proof.sum@);
    // Recover e_i = y_i * sum, then check the lookup e_i == table[x_i].
    let mut i: usize = 0;
    while i < indices.len() && i < y.len()
        invariant
            ts == ints(table@),
            ys == ints(y@),
            s == proof.sum@,
            readable(indices@, ts, ys, s),
            residue(total(ys)) == 1,
            proof.lookup.lhs@ == proof.lookup.rhs@,
            i <= indices@.len(),
            i <= y@.len(),
            forall|k: int| 0 <= k < i ==> #[trigger] scales_back(indices@, ts, ys, s, k),
        decreases indices@.len() - i,
    {
        assert(indices@[i as int] < ts.len());
        proof {
            lemma_view_canonical(y@[i as int]);
            lemma_view_canonical(proof.sum);
            lemma_fmul(y@[i as int]@, s);
        }
        if y[i] * proof.sum != table[indices[i] as usize] {
            assert(!scales_back(indices@, ts, ys, s, i as int));
            return false;
        }
        assert(scales_back(indices@, ts, ys, s, i as int));
        i = i + 1;
    }
    true
}

/// Normalization: entries divided by a sum that is not zero add up to one, and
/// multiplying them by the sum gives the entries back.
pub proof fn lemma_normalized(e: Seq<int>)
    requires
        residue(total(e)) != 0,
    ensures
        residue(total(normalized(e))) == 1,
        forall|i: int|
            0 <= i < e.len() ==> residue((#[trigger] normalized(e)[i]) * residue(total(e)))
                == residue(e[i]),
{
    broadcast use lemma_residue_residue;

    let s = residue(total(e));
    let inv = finv(s);
    lemma_finv(s);
    let n = e.len();
    let y = normalized(e);
    let f = |i: int| e[i];
    let scaled = |i: int| inv * f(i);
    lemma_sigma_scale(n, inv, f);
    let g = |i: int| y[i];
    assert forall|i: int| 0 <= i < n implies residue(#[trigger] g(i)) == residue(scaled(i)) by {
        assert(e[i] * inv == inv * e[i]) by (nonlinear_arith);
    }
    lemma_sigma_residue(n, g, scaled);
    lemma_residue_mul(inv, total(e));
    lemma_residue_mul(inv, s);
    assert(s * inv == inv * s) by (nonlinear_arith);
    assert forall|i: int| 0 <= i < n implies residue((#[trigger] y[i]) * s) == residue(e[i]) by {
        let x = e[i];
        lemma_residue_mul(x * inv, s);
        lemma_residue_mul(residue(x * inv), s);
        assert((x * inv) * s == x * (s * inv)) by (nonlinear_arith);
        lemma_residue_mul(x, s * inv);
        lemma_residue_small(1);
        lemma_residue_mul(x, 1);
        assert(x * 1 == x);
    }
}

/// Round trip: the outputs, the sum and the lookup sums that the prover
/// computes satisfy every condition of the verifier.
pub proof fn lemma_softmax_roundtrip(indices: Seq<u32>, table: Seq<int>, alpha: int, beta: int)
    requires
        table_defined(indices, table, alpha, beta),
        forall|j: int| 0 <= j < table.len() ==> residue(#[trigger] table[j]) == table[j],
        residue(total(gather(indices, table))) != 0,
    ensures
        ({
            let e = gather(indices, table);
            let y = normalized(e);
            &&& residue(total(y)) == 1
            &&& residue(lookup_sum(indices, e, alpha, beta)) == residue(
                table_sum(indices, table, alpha, beta),
            )
            &&& readable(indices, table, y, residue(total(e)))
            &&& forall|i: int|
                0 <= i < indices.len() && i < y.len() ==> #[trigger] scales_back(
                    indices,
                    table,
                    y,
                    residue(total(e)),
                    i,
                )
        }),
{
    let e = gather(indices, table);
    let y = normalized(e);
    lemma_normalized(e);
    assert forall|i: int| 0 <= i < indices.len() implies #[trigger] indices[i] < table.len()
        && e[i] == table[indices[i] as int] by {}
    lookup::lemma_lookup_complete(indices, e, table, alpha, beta);
    assert forall|i: int|
        0 <= i < indices.len() && i < y.len() implies #[trigger] scales_back(
        indices,
        table,
        y,
        residue(total(e)),
        i,
    ) by {
        assert(residue(y[i] * residue(total(e))) == residue(e[i]));
        let j = indices[i] as int;
        assert(residue(table[j]) == table[j]);
    }
}

/// Whatever sum the prover claims, outputs that the verifier accepts are the
/// entries divided by their sum, unless that sum is zero.
pub proof fn lemma_softmax_sound(indices: Seq<u32>, table: Seq<int>, y: Seq<int>, sum: int)
    requires
        y.len() == indices.len(),
        forall|i: int| 0 <= i < y.len() ==> residue(#[trigger] y[i]) == y[i],
        residue(total(y)) == 1,
        forall|i: int|
            0 <= i < indices.len() && i < y.len() ==> #[trigger] scales_back(
                indices,
                table,
                y,
                sum,
                i,
            ),
        residue(total(gather(indices, table))) != 0,
    ensures
        residue(sum) == residue(total(gather(indices, table))),
        y == normalized(gather(indices, table)),
{
    broadcast use lemma_residue_residue;

    let e = gather(indices, table);
    let n = e.len();
    let s = residue(total(e));
    let inv = finv(s);
    let (f, g) = (|i: int| y[i], |i: int| e[i]);
    let scaled = |i: int| sum * f(i);
    lemma_sigma_scale(n, sum, f);
    assert forall|i: int| 0 <= i < n implies residue(#[trigger] scaled(i)) == residue(g(i)) by {
        assert(scales_back(indices, table, y, sum, i));
        assert(sum * y[i] == y[i] * sum) by (nonlinear_arith);
    }
    lemma_sigma_residue(n, scaled, g);
    lemma_residue_mul(sum, total(y));
    lemma_residue_mul(sum, 1);
    lemma_residue_small(1);
    assert(sum * 1 == sum);
    assert(residue(sum) == s);
    lemma_finv(s);
    assert forall|i: int| 0 <= i < n implies y[i] == normalized(e)[i] by {
        assert(scales_back(indices, table, y, sum, i));
        let v = y[i];
        lemma_residue_mul(v, sum);
        lemma_residue_mul(v, s);
        lemma_residue_mul(v * s, inv);
        lemma_residue_mul(e[i], inv);
        assert((v * s) * inv == v * (s * inv)) by (nonlinear_arith);
        lemma_residue_mul(v, s * inv);
        lemma_residue_mul(v, 1);
        assert(v * 1 == v);
    }
    assert(y =~= normalized(e));
}

/// A total grows by one entry with every entry.
pub proof fn lemma_total(v: Seq<int>, x: int)
    ensures
        total(Seq::<int>::empty()) == 0,
        total(v.push(x)) == total(v) + x,
{
    let w = v.push(x);
    crate::sums::lemma_sigma_eq(v.len(), |i: int| w[i], |i: int| v[i]);
}

/// Every output of a softmax times the sum of the table values that the indices select is
/// the table value at its own index.
pub proof fn lemma_softmax_entry(indices: Seq<u32>, table: Seq<int>, k: int)
    requires
        0 <= k < indices.len(),
        residue(sigma(indices.len(), |i: int| table[indices[i] as int])) != 0,
    ensures
        normalized(gather(indices, table)).len() == indices.len(),
        residue(
            normalized(gather(indices, table))[k] * sigma(
                indices.len(),
                |i: int| table[indices[i] as int],
            ),
        ) == residue(table[indices[k] as int]),
        residue(
            sigma(indices.len(), |i: int| normalized(gather(indices, table))[i]),
        ) == 1,
{
    broadcast use lemma_residue_residue;

    let e = gather(indices, table);
    let y = normalized(e);
    let s = sigma(indices.len(), |i: int| table[indices[i] as int]);
    crate::sums::lemma_sigma_eq(e.len(), |i: int| e[i], |i: int| table[indices[i] as int]);
    lemma_normalized(e);
    assert(residue(y[k] * residue(total(e))) == residue(e[k]));
    lemma_residue_mul(y[k], s);
    lemma_residue_mul(y[k], residue(s));
    crate::sums::lemma_sigma_eq(y.len(), |i: int| y[i], |i: int| normalized(e)[i]);
}

} // verus!
