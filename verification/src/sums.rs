//! Finite sums of integers, the common currency of the contracts.

use crate::field::residue;
use vstd::prelude::*;

verus! {

/// `f(0) + f(1) + ... + f(n - 1)`.
pub open spec fn sigma(n: nat, f: spec_fn(int) -> int) -> int
    decreases n,
{
    if n == 0 {
        0
    } else {
        sigma((n - 1) as nat, f) + f(n - 1)
    }
}

/// Sums of equal terms are equal.
pub proof fn lemma_sigma_eq(n: nat, f: spec_fn(int) -> int, g: spec_fn(int) -> int)
    requires
        forall|i: int| 0 <= i < n ==> #[trigger] f(i) == g(i),
    ensures
        sigma(n, f) == sigma(n, g),
    decreases n,
{
    if n > 0 {
        assert(f(n - 1) == g(n - 1));
        lemma_sigma_eq((n - 1) as nat, f, g);
    }
}

/// Sums of congruent terms are congruent.
pub proof fn lemma_sigma_residue(n: nat, f: spec_fn(int) -> int, g: spec_fn(int) -> int)
    requires
        forall|i: int| 0 <= i < n ==> residue(#[trigger] f(i)) == residue(g(i)),
    ensures
        residue(sigma(n, f)) == residue(sigma(n, g)),
    decreases n,
{
    if n > 0 {
        assert(residue(f(n - 1)) == residue(g(n - 1)));
        lemma_sigma_residue((n - 1) as nat, f, g);
        crate::field::lemma_residue_add(sigma((n - 1) as nat, f), f(n - 1));
        crate::field::lemma_residue_add(sigma((n - 1) as nat, g), g(n - 1));
    }
}

/// A sum of sums is the sum of the two sums.
pub proof fn lemma_sigma_add(n: nat, f: spec_fn(int) -> int, g: spec_fn(int) -> int)
    ensures
        sigma(n, |i: int| f(i) + g(i)) == sigma(n, f) + sigma(n, g),
    decreases n,
{
    if n > 0 {
        lemma_sigma_add((n - 1) as nat, f, g);
    }
}

/// A common factor moves out of a sum.
pub proof fn lemma_sigma_scale(n: nat, c: int, f: spec_fn(int) -> int)
    ensures
        sigma(n, |i: int| c * f(i)) == c * sigma(n, f),
    decreases n,
{
    if n > 0 {
        lemma_sigma_scale((n - 1) as nat, c, f);
        assert(c * (sigma((n - 1) as nat, f) + f(n - 1)) == c * sigma((n - 1) as nat, f) + c * f(
            n - 1,
        )) by (nonlinear_arith);
    } else {
        assert(c * sigma(0, f) == 0) by (nonlinear_arith)
            requires
                sigma(0, f) == 0,
        ;
    }
}

/// A sum over `2 * n` indices, grouped in neighbouring pairs.
pub proof fn lemma_sigma_pairs(n: nat, f: spec_fn(int) -> int)
    ensures
        sigma(2 * n, f) == sigma(n, |i: int| f(2 * i) + f(2 * i + 1)),
    decreases n,
{
    if n > 0 {
        lemma_sigma_pairs((n - 1) as nat, f);
        assert(sigma(2 * n, f) == sigma((2 * n - 1) as nat, f) + f(2 * n - 1));
        assert(sigma((2 * n - 1) as nat, f) == sigma((2 * n - 2) as nat, f) + f(2 * n - 2));
    }
}

/// A sum of zeros is zero.
pub proof fn lemma_sigma_zero(n: nat, f: spec_fn(int) -> int)
    requires
        forall|i: int| 0 <= i < n ==> #[trigger] f(i) == 0,
    ensures
        sigma(n, f) == 0,
    decreases n,
{
    if n > 0 {
        assert(f(n - 1) == 0);
        lemma_sigma_zero((n - 1) as nat, f);
    }
}

/// A sum that splits at `m`.
pub proof fn lemma_sigma_split(m: nat, n: nat, f: spec_fn(int) -> int)
    ensures
        sigma(m + n, f) == sigma(m, f) + sigma(n, |i: int| f(m + i)),
    decreases n,
{
    if n > 0 {
        lemma_sigma_split(m, (n - 1) as nat, f);
        assert(sigma(m + n, f) == sigma((m + n - 1) as nat, f) + f(m + n - 1));
    }
}

/// Two nested sums may be taken in either order.
pub proof fn lemma_sigma_swap(m: nat, n: nat, f: spec_fn(int, int) -> int)
    ensures
        sigma(m, |i: int| sigma(n, |j: int| f(i, j))) == sigma(
            n,
            |j: int| sigma(m, |i: int| f(i, j)),
        ),
    decreases m,
{
    let cols = |j: int| sigma(m, |i: int| f(i, j));
    if m == 0 {
        lemma_sigma_zero(n, cols);
    } else {
        let k = (m - 1) as nat;
        lemma_sigma_swap(k, n, f);
        let head = |j: int| sigma(k, |i: int| f(i, j));
        let last = |j: int| f(m - 1, j);
        lemma_sigma_add(n, head, last);
        let both = |j: int| head(j) + last(j);
        assert forall|j: int| 0 <= j < n implies #[trigger] cols(j) == both(j) by {
            let col = |i: int| f(i, j);
            assert(sigma(m, col) == sigma(k, col) + col(m - 1));
        }
        lemma_sigma_eq(n, cols, both);
        let rows = |i: int| sigma(n, |j: int| f(i, j));
        assert(sigma(m, rows) == sigma(k, rows) + rows(m - 1));
    }
}

/// A sum over `m * n` indices, taken row by row.
pub proof fn lemma_sigma_rows(m: nat, n: nat, f: spec_fn(int) -> int)
    ensures
        sigma(m * n, f) == sigma(m, |i: int| sigma(n, |j: int| f(i * n + j))),
    decreases m,
{
    if m == 0 {
        assert(m * n == 0) by (nonlinear_arith)
            requires
                m == 0,
        ;
    } else {
        let k = (m - 1) as nat;
        lemma_sigma_rows(k, n, f);
        assert(m * n == k * n + n) by (nonlinear_arith)
            requires
                m == k + 1,
        ;
        lemma_sigma_split(k * n, n, f);
        lemma_sigma_eq(n, |i: int| f(k * n + i), |j: int| f((m - 1) * n + j));
        let g = |i: int| sigma(n, |j: int| f(i * n + j));
        assert(g(m - 1) == sigma(n, |j: int| f((m - 1) * n + j)));
    }
}

/// `f(0) * f(1) * ... * f(n - 1)`.
pub open spec fn pi(n: nat, f: spec_fn(int) -> int) -> int
    decreases n,
{
    if n == 0 {
        1
    } else {
        pi((n - 1) as nat, f) * f(n - 1)
    }
}

/// Products of congruent factors are congruent.
pub proof fn lemma_pi_residue(n: nat, f: spec_fn(int) -> int, g: spec_fn(int) -> int)
    requires
        forall|i: int| 0 <= i < n ==> residue(#[trigger] f(i)) == residue(g(i)),
    ensures
        residue(pi(n, f)) == residue(pi(n, g)),
    decreases n,
{
    if n > 0 {
        assert(residue(f(n - 1)) == residue(g(n - 1)));
        lemma_pi_residue((n - 1) as nat, f, g);
        crate::field::lemma_residue_mul(pi((n - 1) as nat, f), f(n - 1));
        crate::field::lemma_residue_mul(pi((n - 1) as nat, g), g(n - 1));
    }
}

/// Products of equal factors are equal.
pub proof fn lemma_pi_eq(n: nat, f: spec_fn(int) -> int, g: spec_fn(int) -> int)
    requires
        forall|i: int| 0 <= i < n ==> #[trigger] f(i) == g(i),
    ensures
        pi(n, f) == pi(n, g),
    decreases n,
{
    if n > 0 {
        assert(f(n - 1) == g(n - 1));
        lemma_pi_eq((n - 1) as nat, f, g);
    }
}

/// Multiplying one factor multiplies the product.
pub proof fn lemma_pi_bump(
    n: nat,
    f: spec_fn(int) -> int,
    g: spec_fn(int) -> int,
    k: int,
    x: int,
)
    requires
        0 <= k < n,
        g(k) == f(k) * x,
        forall|i: int| 0 <= i < n && i != k ==> #[trigger] f(i) == g(i),
    ensures
        pi(n, g) == pi(n, f) * x,
    decreases n,
{
    let m = (n - 1) as nat;
    if k == n - 1 {
        lemma_pi_eq(m, f, g);
        let p = pi(m, f);
        assert(p * (f(k) * x) == (p * f(k)) * x) by (nonlinear_arith);
    } else {
        lemma_pi_bump(m, f, g, k, x);
        assert(f(n - 1) == g(n - 1));
        let (p, y) = (pi(m, f), f(n - 1));
        assert((p * x) * y == (p * y) * x) by (nonlinear_arith);
    }
}

/// A sum of no terms is zero, and one more term is added at the end; a product of no
/// factors is one, and one more factor is multiplied at the end.
pub proof fn lemma_unfold(n: nat, f: spec_fn(int) -> int)
    ensures
        sigma(0, f) == 0,
        sigma(n + 1, f) == sigma(n, f) + f(n as int),
        pi(0, f) == 1,
        pi(n + 1, f) == pi(n, f) * f(n as int),
{
}

} // verus!
