//! Quantized GELU activation as a single LogUp lookup.
//!
//! `y_i = GELU(x_i)`. GELU is the only non-arithmetic piece of the FFN block,
//! and it is exactly a table lookup (`x_i` quantized to a table index, `y_i`
//! the corresponding precomputed GELU value), so it needs no extra field
//! arithmetic.

use crate::field::{ints, residue, Goldilocks};
use crate::lookup;
use crate::lookup::{denominator, lookup_sum, table_sum, LookupProof};
use vstd::prelude::*;

verus! {

pub struct GeluProof {
    pub lookup: LookupProof,
}

/// The table values at the indices.
pub open spec fn gather(indices: Seq<u32>, table: Seq<int>) -> Seq<int> {
    Seq::new(indices.len(), |i: int| table[indices[i] as int])
}

/// Every index points into the table, and no table entry's denominator
/// vanishes.
pub open spec fn table_defined(indices: Seq<u32>, table: Seq<int>, alpha: int, beta: int) -> bool {
    &&& forall|i: int| 0 <= i < indices.len() ==> #[trigger] indices[i] < table.len()
    &&& forall|j: int|
        0 <= j < table.len() ==> denominator(j, #[trigger] table[j], alpha, beta) != 0
}

/// Reads the table at every index.
pub fn gather_values(indices: &[u32], table: &[Goldilocks]) -> (y: Vec<Goldilocks>)
    requires
        forall|i: int| 0 <= i < indices@.len() ==> #[trigger] indices@[i] < table@.len(),
    ensures
        ints(y@) == gather(indices@, ints(table@)),
        y@.len() == indices@.len(),
        forall|k: int| 0 <= k < y@.len() ==> #[trigger] y@[k] == table@[indices@[k] as int],
{
    let mut y: Vec<Goldilocks> = Vec::new();
    for i in 0..indices.len()
        invariant
            forall|i: int| 0 <= i < indices@.len() ==> #[trigger] indices@[i] < table@.len(),
            y@.len() == i,
            forall|k: int| 0 <= k < i ==> #[trigger] y@[k] == table@[indices@[k] as int],
    {
        y.push(table[indices[i] as usize]);
    }
    assert(ints(y@) =~= gather(indices@, ints(table@)));
    y
}

/// Runs quantized GELU over table indices and produces a lookup proof that
/// every output really came from the table.
pub fn gelu(
    indices: &[u32],
    table: &[Goldilocks],
    alpha: Goldilocks,
    beta: Goldilocks,
) -> (r: (Vec<Goldilocks>, GeluProof))
    requires
        table_defined(indices@, ints(table@), alpha@, beta@),
    ensures
        ints(r.0@) == gather(indices@, ints(table@)),
        r.0@.len() == indices@.len(),
        forall|k: int| 0 <= k < r.0@.len() ==> #[trigger] r.0@[k] == table@[indices@[k] as int],
        r.1.lookup.lhs@ == residue(
            lookup_sum(indices@, gather(indices@, ints(table@)), alpha@, beta@),
        ),
        r.1.lookup.rhs@ == residue(table_sum(indices@, ints(table@), alpha@, beta@)),
        r.1.lookup.lhs@ == r.1.lookup.rhs@,
        r.1.lookup.alpha == alpha,
        r.1.lookup.beta == beta,
{
    let ghost ts = ints(table@);
    let y = gather_values(indices, table);
    proof {
        assert forall|i: int| 0 <= i < indices@.len() implies #[trigger] indices@[i] < ts.len()
            && denominator(indices@[i] as int, ints(y@)[i], alpha@, beta@) != 0 by {
            let j = indices@[i] as int;
            assert(ints(y@)[i] == ts[j]);
        }
        lookup::lemma_lookup_complete(indices@, ints(y@), ts, alpha@, beta@);
    }
    let lookup = lookup::prove(indices, y.as_slice(), table, alpha, beta);
    (y, GeluProof { lookup })
}

/// Whether entry `i` of `y` is the table value at its index.
pub open spec fn matches_table(
    indices: Seq<u32>,
    table: Seq<int>,
    y: Seq<int>,
    i: int,
) -> bool {
    y[i] == table[indices[i] as int]
}

/// Every output is the table value at its index: there are as many outputs as
/// indices, and each matches the table.
pub open spec fn all_match(indices: Seq<u32>, table: Seq<int>, y: Seq<int>) -> bool {
    &&& y.len() == indices.len()
    &&& forall|i: int|
        0 <= i < indices.len() ==> #[trigger] matches_table(indices, table, y, i)
}

/// The entries that a comparison of `y` with the table reads until it meets the
/// first difference all exist.
pub open spec fn readable(indices: Seq<u32>, table: Seq<int>, y: Seq<int>) -> bool {
    forall|i: int|
        0 <= i < indices.len() && (forall|k: int|
            0 <= k < i ==> #[trigger] matches_table(indices, table, y, k)) ==> #[trigger] indices[i]
            < table.len()
}

/// Verifies that every output is exactly the table value at its index.
pub fn verify(
    indices: &[u32],
    table: &[Goldilocks],
    y: &[Goldilocks],
    proof: &GeluProof,
) -> (ok: bool)
    requires
        y@.len() == indices@.len() && proof.lookup.lhs@ == proof.lookup.rhs@ ==> readable(
            indices@,
            ints(table@),
            ints(y@),
        ),
    ensures
        ok == (proof.lookup.lhs@ == proof.lookup.rhs@ && all_match(
            indices@,
            ints(table@),
            ints(y@),
        )),
        ok == (proof.lookup.lhs@ == proof.lookup.rhs@ && y@.len() == indices@.len() && forall|k: int|
            0 <= k < y@.len() ==> (#[trigger] y@[k])@ == ints(table@)[indices@[k] as int]),
{
    if y.len() != indices.len() {
        return false;
    }
    if !lookup::verify(&proof.lookup) {
        return false;
    }
    let ghost (ts, ys) = (ints(table@), ints(y@));
    for i in 0..indices.len()
        invariant
            ts == ints(table@),
            ys == ints(y@),
            readable(indices@, ts, ys),
            proof.lookup.lhs@ == proof.lookup.rhs@,
            y@.len() == indices@.len(),
            forall|k: int| 0 <= k < i ==> #[trigger] matches_table(indices@, ts, ys, k),
    {
        assert(indices@[i as int] < ts.len());
        if table[indices[i] as usize] != y[i] {
            assert(!matches_table(indices@, ts, ys, i as int));
            assert(y@[i as int]@ != ts[indices@[i as int] as int]);
            return false;
        }
        assert(matches_table(indices@, ts, ys, i as int));
    }
    proof {
        assert forall|k: int| 0 <= k < y@.len() implies (#[trigger] y@[k])@
            == ts[indices@[k] as int] by {
            assert(matches_table(indices@, ts, ys, k));
            assert(ys[k] == y@[k]@);
        }
    }
    true
}

/// Round trip: with the lookup sums that the prover computes, the verifier accepts
/// the prover's outputs and no others.
pub proof fn lemma_gelu_roundtrip(
    indices: Seq<u32>,
    table: Seq<int>,
    y: Seq<int>,
    alpha: int,
    beta: int,
)
    requires
        table_defined(indices, table, alpha, beta),
    ensures
        residue(lookup_sum(indices, gather(indices, table), alpha, beta)) == residue(
            table_sum(indices, table, alpha, beta),
        ),
        all_match(indices, table, y) == (y == gather(indices, table)),
{
    let g = gather(indices, table);
    assert forall|i: int| 0 <= i < indices.len() implies #[trigger] indices[i] < table.len()
        && g[i] == table[indices[i] as int] by {}
    lookup::lemma_lookup_complete(indices, g, table, alpha, beta);
    if all_match(indices, table, y) {
        assert forall|i: int| 0 <= i < y.len() implies y[i] == g[i] by {
            assert(matches_table(indices, table, y, i));
        }
        assert(y =~= g);
    }
}

} // verus!
