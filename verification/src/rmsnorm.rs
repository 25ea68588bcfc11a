//! Quantized RMSNorm: a single `rsqrt` lookup plus plain field arithmetic.
//!
//! `y_i = x_i / sqrt(mean(x^2) + eps) * w_i`. The only non-arithmetic piece is
//! `1/sqrt`, a scalar table lookup; the square, sum, mean and scale are field
//! operations the verifier recomputes.

use crate::field::{
    finv, ints, lemma_fadd, lemma_fmul, lemma_view_canonical, residue, Goldilocks, P,
};
use crate::lookup;
use crate::lookup::{denominator, lookup_sum, table_sum, LookupProof};
use crate::sums::sigma;
use vstd::prelude::*;

verus! {

pub struct RmsNormProof {
    /// `rsqrt` lookup proving `r == rsqrt_table[s_index]`.
    pub lookup: LookupProof,
    /// `mean(x^2) + eps`, the value whose rsqrt is looked up.
    pub s: Goldilocks,
    /// `rsqrt(s)`.
    pub r: Goldilocks,
}

/// The sum of the squares of all entries.
pub open spec fn square_sum(x: Seq<int>) -> int {
    sigma(x.len(), |i: int| x[i] * x[i])
}

/// `mean(x^2) + eps` in the field.
pub open spec fn mean_square(x: Seq<int>, eps: int) -> int {
    residue(square_sum(x) * finv(residue(x.len() as int)) + eps)
}

/// `x_i * r * w_i` for every entry.
pub open spec fn scaled(x: Seq<int>, weight: Seq<int>, r: int) -> Seq<int> {
    Seq::new(x.len(), |i: int| residue(x[i] * r * weight[i]))
}

/// `mean(x^2) + eps`.
fn mean_square_of(x: &[Goldilocks], eps: Goldilocks) -> (s: Goldilocks)
    requires
        x@.len() as int % (P as int) != 0,
    ensures
        s@ == mean_square(ints(x@), eps@),
{
    let ghost f = |i: int| ints(x@)[i] * ints(x@)[i];
    let mut acc = Goldilocks::zero();
    for i in 0..x.len()
        invariant
            f == (|i: int| ints(x@)[i] * ints(x@)[i]),
            acc@ == residue(sigma(i as nat, f)),
    {
        proof {
            let v = x@[i as int]@;
            lemma_view_canonical(x@[i as int]);
            lemma_fmul(v, v);
            lemma_fadd(sigma(i as nat, f), v * v);
            assert(f(i as int) == v * v);
        }
        acc = acc + x[i] * x[i];
    }
    proof {
        reveal(residue);
    }
    let n_inv = Goldilocks::from_u64(x.len() as u64).inverse();
    proof {
        let q = square_sum(ints(x@));
        lemma_view_canonical(n_inv);
        lemma_view_canonical(eps);
        lemma_fmul(q, n_inv@);
        lemma_fadd(q * n_inv@, eps@);
    }
    acc * n_inv + eps
}

/// `x * r * w`.
fn scale_one(x: Goldilocks, r: Goldilocks, w: Goldilocks) -> (y: Goldilocks)
    ensures
        y@ == residue(x@ * r@ * w@),
{
    proof {
        lemma_view_canonical(x);
        lemma_view_canonical(r);
        lemma_view_canonical(w);
        lemma_fmul(x@, r@);
        lemma_fmul(x@ * r@, w@);
    }
    x * r * w
}

/// Runs RMSNorm over `x` and produces a proof that the output `y` and the
/// `rsqrt` value are consistent with the input, the weight and the table.
pub fn rms_norm(
    x: &[Goldilocks],
    weight: &[Goldilocks],
    eps: Goldilocks,
    s_index: u32,
    rsqrt_table: &[Goldilocks],
    alpha: Goldilocks,
    beta: Goldilocks,
) -> (out: (Vec<Goldilocks>, RmsNormProof))
    requires
        x@.len() == weight@.len(),
        x@.len() as int % (P as int) != 0,
        s_index < rsqrt_table@.len(),
        forall|j: int|
            0 <= j < rsqrt_table@.len() ==> denominator(
                j,
                #[trigger] ints(rsqrt_table@)[j],
                alpha@,
                beta@,
            ) != 0,
    ensures
        out.1.s@ == mean_square(ints(x@), eps@),
        out.1.r == rsqrt_table@[s_index as int],
        ints(out.0@) == scaled(ints(x@), ints(weight@), out.1.r@),
        out.0@.len() == x@.len(),
        forall|k: int|
            0 <= k < x@.len() ==> (#[trigger] out.0@[k])@ == residue(
                x@[k]@ * rsqrt_table@[s_index as int]@ * weight@[k]@,
            ),
        out.1.lookup.lhs@ == residue(lookup_sum(seq![s_index], seq![out.1.r@], alpha@, beta@)),
        out.1.lookup.rhs@ == residue(
            table_sum(seq![s_index], ints(rsqrt_table@), alpha@, beta@),
        ),
        out.1.lookup.lhs@ == out.1.lookup.rhs@,
        out.1.lookup.alpha == alpha,
        out.1.lookup.beta == beta,
{
    let s = mean_square_of(x, eps);
    let r = rsqrt_table[s_index as usize];
    let mut y: Vec<Goldilocks> = Vec::new();
    for i in 0..x.len()
        invariant
            x@.len() == weight@.len(),
            y@.len() == i,
            forall|k: int|
                0 <= k < i ==> (#[trigger] y@[k])@ == scaled(ints(x@), ints(weight@), r@)[k],
    {
        y.push(scale_one(x[i], r, weight[i]));
    }
    assert(ints(y@) =~= scaled(ints(x@), ints(weight@), r@));
    proof {
        assert forall|k: int| 0 <= k < x@.len() implies (#[trigger] y@[k])@ == residue(
            x@[k]@ * r@ * weight@[k]@,
        ) by {
            lemma_scaled_entry(ints(x@), ints(weight@), r@, k);
        }
    }
    let mut indices: Vec<u32> = Vec::new();
    indices.push(s_index);
    let mut values: Vec<Goldilocks> = Vec::new();
    values.push(r);
    proof {
        let ts = ints(rsqrt_table@);
        assert(indices@ =~= seq![s_index]);
        assert(ints(values@) =~= seq![r@]);
        assert(ts[s_index as int] == r@);
        lookup::lemma_lookup_complete(indices@, ints(values@), ts, alpha@, beta@);
    }
    let lookup = lookup::prove(indices.as_slice(), values.as_slice(), rsqrt_table, alpha, beta);
    (y, RmsNormProof { lookup, s, r })
}

/// The shapes that a proof can be about.
pub open spec fn same_shape(x: Seq<int>, weight: Seq<int>, y: Seq<int>) -> bool {
    x.len() == y.len() && x.len() == weight.len() && x.len() > 0
}

/// Verifies that `s` matches the input, `r` matches the table, and `y` is the
/// correctly scaled output.
pub fn verify(
    x: &[Goldilocks],
    weight: &[Goldilocks],
    y: &[Goldilocks],
    eps: Goldilocks,
    s_index: u32,
    rsqrt_table: &[Goldilocks],
    proof: &RmsNormProof,
) -> (ok: bool)
    requires
        same_shape(ints(x@), ints(weight@), ints(y@)) ==> x@.len() as int % (P as int) != 0,
        same_shape(ints(x@), ints(weight@), ints(y@)) && mean_square(ints(x@), eps@)
            == proof.s@ ==> s_index < rsqrt_table@.len(),
    ensures
        ok == accepts(
            ints(x@),
            ints(weight@),
            ints(y@),
            eps@,
            rsqrt_table@[s_index as int]@,
            proof.s@,
            proof.r@,
            (proof.lookup.lhs@, proof.lookup.rhs@),
        ),
        ok ==> y@.len() == x@.len() && weight@.len() == x@.len() && forall|k: int|
            0 <= k < x@.len() ==> (#[trigger] y@[k])@ == residue(
                x@[k]@ * rsqrt_table@[s_index as int]@ * weight@[k]@,
            ),
{
    let ghost (xs, ws, ys) = (ints(x@), ints(weight@), ints(y@));
    if x.len() != y.len() || x.len() != weight.len() || x.len() == 0 {
        return false;
    }
    if mean_square_of(x, eps) != proof.s {
        return false;
    }
    if proof.r != rsqrt_table[s_index as usize] {
        return false;
    }
    if !lookup::verify(&proof.lookup) {
        return false;
    }
    for i in 0..x.len()
        invariant
            xs == ints(x@),
            ws == ints(weight@),
            ys == ints(y@),
            x@.len() == y@.len() == weight@.len(),
            forall|k: int| 0 <= k < i ==> #[trigger] ys[k] == scaled(xs, ws, proof.r@)[k],
    {
        if scale_one(x[i], proof.r, weight[i]) != y[i] {
            assert(ys[i as int] != scaled(xs, ws, proof.r@)[i as int]);
            return false;
        }
    }
    assert(ys =~= scaled(xs, ws, proof.r@));
    proof {
        assert forall|k: int| 0 <= k < x@.len() implies (#[trigger] y@[k])@ == residue(
            x@[k]@ * proof.r@ * weight@[k]@,
        ) by {
            lemma_scaled_entry(xs, ws, proof.r@, k);
            assert(ys[k] == y@[k]@);
        }
    }
    true
}

/// What the verifier accepts: the shapes fit, `s` is the mean square of the input,
/// `r` is the table value, the lookup sums are equal, and `y` is the scaled input.
pub open spec fn accepts(
    x: Seq<int>,
    weight: Seq<int>,
    y: Seq<int>,
    eps: int,
    entry: int,
    s: int,
    r: int,
    sums: (int, int),
) -> bool {
    &&& same_shape(x, weight, y)
    &&& mean_square(x, eps) == s
    &&& r == entry
    &&& sums.0 == sums.1
    &&& y == scaled(x, weight, r)
}

/// Round trip: with the values that the prover computes, the verifier accepts the
/// prover's output and no other.
pub proof fn lemma_rms_norm_roundtrip(
    x: Seq<int>,
    weight: Seq<int>,
    y: Seq<int>,
    eps: int,
    s_index: u32,
    table: Seq<int>,
    alpha: int,
    beta: int,
)
    requires
        x.len() == weight.len(),
        x.len() > 0,
        s_index < table.len(),
    ensures
        ({
            let r = table[s_index as int];
            let sums = (
                residue(lookup_sum(seq![s_index], seq![r], alpha, beta)),
                residue(table_sum(seq![s_index], table, alpha, beta)),
            );
            accepts(x, weight, y, eps, r, mean_square(x, eps), r, sums) <==> y == scaled(
                x,
                weight,
                r,
            )
        }),
{
    lookup::lemma_lookup_complete(
        seq![s_index],
        seq![table[s_index as int]],
        table,
        alpha,
        beta,
    );
}

/// Every entry is scaled with its own weight: it is `x_k * r * w_k` in the field, so
/// where `x_k * r` is one it is the weight.
pub proof fn lemma_scaled_entry(x: Seq<int>, weight: Seq<int>, r: int, k: int)
    requires
        0 <= k < x.len(),
    ensures
        scaled(x, weight, r).len() == x.len(),
        scaled(x, weight, r)[k] == residue(x[k] * r * weight[k]),
        x[k] * r == 1 ==> scaled(x, weight, r)[k] == residue(weight[k]),
{
    assert(x[k] * r == 1 ==> x[k] * r * weight[k] == weight[k]) by (nonlinear_arith);
}

/// The mean square: times the number of entries it is the sum of the squares plus as
/// many times `eps`.
pub proof fn lemma_mean_square(x: Seq<int>, eps: int)
    requires
        x.len() as int % (P as int) != 0,
    ensures
        residue(mean_square(x, eps) * x.len()) == residue(
            sigma(x.len(), |i: int| x[i] * x[i]) + eps * x.len(),
        ),
{
    broadcast use crate::field::lemma_residue_residue;

    let n = x.len() as int;
    let q = sigma(x.len(), |i: int| x[i] * x[i]);
    let m = residue(n);
    let inv = finv(m);
    reveal(residue);
    crate::prime::lemma_finv(m);
    crate::field::lemma_residue_mul(q * inv + eps, n);
    crate::field::lemma_residue_mul(mean_square(x, eps), n);
    assert((q * inv + eps) * n == q * (n * inv) + eps * n) by (nonlinear_arith);
    crate::field::lemma_residue_mul(n, inv);
    crate::field::lemma_residue_mul(m, inv);
    crate::field::lemma_residue_mul(q, n * inv);
    crate::field::lemma_residue_mul(q, 1);
    crate::field::lemma_residue_small(1);
    assert(q * 1 == q);
    crate::field::lemma_residue_add(q * (n * inv), eps * n);
    crate::field::lemma_residue_add(q, eps * n);
}

/// What the verifier accepts is the right output for the table value, and only that:
/// the claimed mean square and the claimed reciprocal root are the true ones, and every
/// entry is scaled with its own weight.
pub proof fn lemma_accepted_entries(
    x: Seq<int>,
    weight: Seq<int>,
    y: Seq<int>,
    eps: int,
    entry: int,
    s: int,
    r: int,
    sums: (int, int),
    k: int,
)
    requires
        accepts(x, weight, y, eps, entry, s, r, sums),
        0 <= k < x.len(),
        x.len() as int % (P as int) != 0,
    ensures
        y.len() == x.len() == weight.len(),
        y[k] == residue(x[k] * entry * weight[k]),
        r == entry,
        sums.0 == sums.1,
        residue(s * x.len()) == residue(
            sigma(x.len(), |i: int| x[i] * x[i]) + eps * x.len(),
        ),
{
    lemma_mean_square(x, eps);
    lemma_scaled_entry(x, weight, entry, k);
}

} // verus!
