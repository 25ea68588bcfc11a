//! Committed tensors, checked openings, and the sum-checks over an equality
//! weight that the layer proofs are made of.

use crate::field::{
    draws, group_residue, ints, lemma_fadd, lemma_fmul, lemma_residue_mul, lemma_view_canonical,
    residue, residues, xorshift_n, Goldilocks, XorShift64,
};
use crate::mle;
use crate::mle::{eq_weight, lemma_mle_residues};
use crate::sumcheck;
use crate::sumcheck::{dot, dot3, lemma_mul3_residue};
use crate::sums::{lemma_sigma_eq, lemma_sigma_residue, sigma};
use crate::whir::{zero_extended, Commitment, OpeningProtocol, Proof, ProverData, Whir};
use vstd::arithmetic::power2::pow2;
use vstd::prelude::*;

verus! {

/// Some proof verifies against the root as an opening at `point` to the value `v`.
pub open spec fn opens_to(whir: Whir, root: Seq<u64>, point: Seq<int>, v: int) -> bool {
    exists|p: Proof| #[trigger]
        whir.opening(root, p, point) matches Some(Some(w)) && residue(w as int) == v
}

/// A committed tensor (commitment + prover data + opening protocol).
pub struct Committed {
    pub commitment: Commitment,
    pub prover_data: ProverData,
    pub protocol: OpeningProtocol,
}

impl Committed {
    /// The table that the prover data holds.
    pub open spec fn table(&self) -> Seq<int> {
        self.prover_data.table()
    }

    /// The tensor has the size that the instance is configured for.
    pub open spec fn fits(&self, whir: Whir) -> bool {
        self.prover_data.vars() == whir.vars() && self.protocol.num_variables == whir.vars()
    }

    /// The commitment opens at `point` to the value that the held table has there.
    pub open spec fn opened_at(&self, whir: Whir, point: Seq<int>) -> bool {
        opens_to(whir, self.commitment.root@, point, residue(mle::mle(self.table(), point)))
    }

    /// The commitment is the one that the instance makes for the held table.
    pub open spec fn bound(&self, whir: Whir) -> bool {
        &&& self.fits(whir)
        &&& self.prover_data.engine() == whir.engine()
        &&& self.commitment.root@ == whir.root(self.table())
    }
}

/// Commits to a tensor. As in [`Whir::commit`], one that is smaller than the smallest
/// instance is extended with zeros.
pub fn commit(whir: &Whir, values: &[Goldilocks]) -> (r: Committed)
    requires
        whir.takes(values@.len()),
    ensures
        r.bound(*whir),
        r.table() == zero_extended(ints(values@), pow2(whir.vars())),
        values@.len() == pow2(whir.vars()) ==> r.table() == ints(values@),
{
    let (commitment, prover_data, protocol) = whir.commit(values);
    Committed { commitment, prover_data, protocol }
}

/// Opens a tensor at a point and verifies the opening against the commitment.
/// Returns the value when the verification yields exactly the opened value,
/// which it does whenever the commitment is the instance's own.
pub fn open_checked(whir: &Whir, c: &Committed, point: &[Goldilocks]) -> (r: Option<Goldilocks>)
    requires
        c.fits(*whir),
        point@.len() == whir.vars(),
    ensures
        c.table().len() == pow2(whir.vars()),
        r matches Some(v) ==> v@ == residue(mle::mle(c.table(), ints(point@))),
        r is Some ==> c.opened_at(*whir, ints(point@)),
        r matches Some(v) ==> exists|p: Proof|
            (#[trigger] whir.opening(c.commitment.root@, p, ints(point@))) matches Some(Some(w))
                && residue(w as int) == v@,
        c.bound(*whir) ==> r is Some,
{
    let (proof, value) = whir.open(c.prover_data.clone(), &c.protocol, point);
    proof {
        broadcast use group_residue;

        assert(0 <= value@ < crate::field::P);
    }
    match whir.verify(&c.commitment, &proof, &c.protocol, point) {
        Ok(v) => {
            if v == value {
                assert(whir.opening(c.commitment.root@, proof, ints(point@)) is Some);
                Some(value)
            } else {
                None
            }
        },
        Err(_) => None,
    }
}

/// Drawing `a` and then `b` elements advances the generator by `a + b` steps.
pub proof fn lemma_xorshift_n_add(s: u64, a: nat, b: nat)
    ensures
        xorshift_n(xorshift_n(s, a), b) == xorshift_n(s, a + b),
    decreases b,
{
    if b > 0 {
        lemma_xorshift_n_add(s, a, (b - 1) as nat);
    }
}

/// Draws a point of `d` coordinates.
pub fn draw_point(rng: &mut XorShift64, d: usize) -> (r: Vec<Goldilocks>)
    ensures
        ints(r@) == draws(old(rng)@, d as nat),
        final(rng)@ == xorshift_n(old(rng)@, d as nat),
{
    let ghost start = rng@;
    let mut r: Vec<Goldilocks> = Vec::new();
    for i in 0..d
        invariant
            r@.len() == i,
            rng@ == xorshift_n(start, i as nat),
            forall|k: int| 0 <= k < i ==> (#[trigger] r@[k])@ == draws(start, d as nat)[k],
    {
        r.push(rng.field());
    }
    assert(ints(r@) =~= draws(start, d as nat));
    r
}

/// The equality polynomial of `r` over the hypercube.
pub open spec fn eq_table(r: Seq<int>) -> Seq<int> {
    Seq::new(pow2(r.len()), |i: int| eq_weight(i, r))
}

/// The extension of the equality polynomial of `r` at `r` itself.
pub open spec fn eq_self(r: Seq<int>) -> int {
    mle::mle(eq_table(r), r)
}

/// The entry-wise product of two tables.
pub open spec fn hadamard(f: Seq<int>, g: Seq<int>) -> Seq<int> {
    Seq::new(f.len(), |i: int| f[i] * g[i])
}

/// The equality polynomial of a point, and its own extension there.
pub struct Selector {
    pub weights: Vec<Goldilocks>,
    pub at_point: Goldilocks,
}

impl Selector {
    /// The selector of the point `r`.
    pub open spec fn selects(&self, r: Seq<int>) -> bool {
        &&& ints(self.weights@) == residues(eq_table(r))
        &&& self.at_point@ == residue(eq_self(r))
    }
}

/// Builds the selector of a point.
pub fn selector(r: &[Goldilocks]) -> (s: Selector)
    requires
        pow2(r@.len()) <= usize::MAX,
    ensures
        s.selects(ints(r@)),
{
    let weights = mle::eq_evals(r);
    proof {
        assert(ints(weights@) =~= residues(eq_table(ints(r@))));
        assert(residues(ints(weights@)) =~= residues(eq_table(ints(r@)))) by {
            broadcast use group_residue;

        }
        lemma_mle_residues(ints(weights@), eq_table(ints(r@)), ints(r@));
    }
    let at_point = mle::eval(weights.as_slice(), r);
    Selector { weights, at_point }
}

/// The field dot product of two tables.
pub fn dot_of(f: &[Goldilocks], g: &[Goldilocks]) -> (r: Goldilocks)
    requires
        f@.len() == g@.len(),
    ensures
        r@ == residue(dot(ints(f@), ints(g@))),
{
    let ghost t = |i: int| ints(f@)[i] * ints(g@)[i];
    let mut acc = Goldilocks::zero();
    for i in 0..f.len()
        invariant
            f@.len() == g@.len(),
            t == (|i: int| ints(f@)[i] * ints(g@)[i]),
            acc@ == residue(sigma(i as nat, t)),
    {
        proof {
            let (a, b) = (f@[i as int]@, g@[i as int]@);
            lemma_view_canonical(f@[i as int]);
            lemma_view_canonical(g@[i as int]);
            lemma_fmul(a, b);
            lemma_fadd(sigma(i as nat, t), a * b);
            assert(t(i as int) == a * b);
        }
        acc = acc + f[i] * g[i];
    }
    acc
}

/// The field sum of the products of three tables.
pub fn dot3_of(f: &[Goldilocks], g: &[Goldilocks], h: &[Goldilocks]) -> (r: Goldilocks)
    requires
        f@.len() == g@.len() == h@.len(),
    ensures
        r@ == residue(dot3(ints(f@), ints(g@), ints(h@))),
{
    let ghost t = |i: int| ints(f@)[i] * ints(g@)[i] * ints(h@)[i];
    let mut acc = Goldilocks::zero();
    for i in 0..f.len()
        invariant
            f@.len() == g@.len() == h@.len(),
            t == (|i: int| ints(f@)[i] * ints(g@)[i] * ints(h@)[i]),
            acc@ == residue(sigma(i as nat, t)),
    {
        proof {
            let (a, b, c) = (f@[i as int]@, g@[i as int]@, h@[i as int]@);
            lemma_view_canonical(f@[i as int]);
            lemma_view_canonical(g@[i as int]);
            lemma_view_canonical(h@[i as int]);
            lemma_fmul(a, b);
            lemma_fmul(a * b, c);
            lemma_fadd(sigma(i as nat, t), a * b * c);
            assert(t(i as int) == a * b * c);
        }
        acc = acc + f[i] * g[i] * h[i];
    }
    acc
}

/// The dot product with the weights of `r` is the extension at `r`.
pub proof fn lemma_eq_dot(s: Seq<int>, f: Seq<int>, r: Seq<int>)
    requires
        residues(s) == residues(eq_table(r)),
        f.len() == pow2(r.len()),
    ensures
        residue(dot(s, f)) == residue(mle::mle(f, r)),
        s.len() == f.len(),
{
    let e = eq_table(r);
    assert(residues(s).len() == s.len() && residues(e).len() == e.len());
    let n = f.len();
    let a = |i: int| s[i] * f[i];
    let b = |i: int| f[i] * eq_weight(i, r);
    assert forall|i: int| 0 <= i < n implies residue(#[trigger] a(i)) == residue(b(i)) by {
        assert(residues(s)[i] == residue(s[i]) && residues(e)[i] == residue(e[i]));
        lemma_mul3_residue(s[i], f[i], 1, e[i], f[i], 1);
        assert(e[i] * f[i] == f[i] * e[i]) by (nonlinear_arith);
    }
    lemma_sigma_residue(n, a, b);
}

/// The triple sum with the weights of `r` is the extension of the entry-wise
/// product at `r`.
pub proof fn lemma_eq_dot3(s: Seq<int>, f: Seq<int>, g: Seq<int>, r: Seq<int>)
    requires
        residues(s) == residues(eq_table(r)),
        f.len() == g.len() == pow2(r.len()),
    ensures
        residue(dot3(s, f, g)) == residue(mle::mle(hadamard(f, g), r)),
        s.len() == f.len(),
{
    lemma_eq_dot(s, hadamard(f, g), r);
    let n = s.len();
    let a = |i: int| s[i] * f[i] * g[i];
    let h = hadamard(f, g);
    let b = |i: int| s[i] * h[i];
    assert forall|i: int| 0 <= i < n implies #[trigger] a(i) == b(i) by {
        let (x, y, z) = (s[i], f[i], g[i]);
        assert(x * y * z == x * (y * z)) by (nonlinear_arith);
    }
    lemma_sigma_eq(n, a, b);
}

/// Sums a table against the weights of `r` and runs the sum-check for that sum
/// with the given opening of the table. The sum is the extension at `r`; the
/// check passes exactly when the opening is indistinguishable from it under the
/// selector.
pub fn weighted_check(
    s: &Selector,
    f: &[Goldilocks],
    f_open: Goldilocks,
    r: &[Goldilocks],
) -> (out: (Goldilocks, bool))
    requires
        s.selects(ints(r@)),
        f@.len() == pow2(r@.len()),
        r@.len() > 0,
    ensures
        out.0@ == residue(mle::mle(ints(f@), ints(r@))),
        out.1 == (residue(eq_self(ints(r@)) * f_open@) == residue(
            eq_self(ints(r@)) * mle::mle(ints(f@), ints(r@)),
        )),
{
    let ghost (sv, fv, rv) = (ints(s.weights@), ints(f@), ints(r@));
    proof {
        sumcheck::lemma_residues_idem(sv, eq_table(rv));
        lemma_eq_dot(sv, fv, rv);
    }
    let c = dot_of(s.weights.as_slice(), f);
    let proof = sumcheck::prove(s.weights.as_slice(), f, c, r);
    let ok = sumcheck::verify(&proof, c, r, s.at_point, f_open);
    proof {
        broadcast use crate::field::lemma_residue_residue;

        sumcheck::lemma_transcript_accepted(
            proof.rounds@,
            sv,
            fv,
            rv,
            c@,
            s.at_point@,
            f_open@,
        );
        lemma_mle_residues(sv, eq_table(rv), rv);
        lemma_residue_mul(s.at_point@, f_open@);
        lemma_residue_mul(eq_self(rv), f_open@);
        lemma_residue_mul(mle::mle(sv, rv), mle::mle(fv, rv));
        lemma_residue_mul(eq_self(rv), mle::mle(fv, rv));
    }
    (c, ok)
}

/// As [`weighted_check`], for the entry-wise product of two tables.
pub fn weighted_check2(
    s: &Selector,
    f: &[Goldilocks],
    g: &[Goldilocks],
    f_open: Goldilocks,
    g_open: Goldilocks,
    r: &[Goldilocks],
) -> (out: (Goldilocks, bool))
    requires
        s.selects(ints(r@)),
        f@.len() == pow2(r@.len()),
        g@.len() == pow2(r@.len()),
        r@.len() > 0,
    ensures
        out.0@ == residue(mle::mle(hadamard(ints(f@), ints(g@)), ints(r@))),
        out.1 == (residue(eq_self(ints(r@)) * f_open@ * g_open@) == residue(
            eq_self(ints(r@)) * mle::mle(ints(f@), ints(r@)) * mle::mle(ints(g@), ints(r@)),
        )),
{
    let ghost (sv, fv, gv, rv) = (ints(s.weights@), ints(f@), ints(g@), ints(r@));
    proof {
        sumcheck::lemma_residues_idem(sv, eq_table(rv));
        lemma_eq_dot3(sv, fv, gv, rv);
    }
    let c = dot3_of(s.weights.as_slice(), f, g);
    let proof = sumcheck::prove3(s.weights.as_slice(), f, g, c, r);
    let ok = sumcheck::verify3(&proof, c, r, s.at_point, f_open, g_open);
    proof {
        broadcast use crate::field::lemma_residue_residue;

        sumcheck::lemma_transcript3_accepted(
            proof.rounds@,
            sv,
            fv,
            gv,
            rv,
            c@,
            s.at_point@,
            f_open@,
            g_open@,
        );
        lemma_mle_residues(sv, eq_table(rv), rv);
        lemma_mul3_residue(s.at_point@, f_open@, g_open@, eq_self(rv), f_open@, g_open@);
        lemma_mul3_residue(
            mle::mle(sv, rv),
            mle::mle(fv, rv),
            mle::mle(gv, rv),
            eq_self(rv),
            mle::mle(fv, rv),
            mle::mle(gv, rv),
        );
    }
    (c, ok)
}

/// An opened commitment has a proof that verifies against its root and yields the value of
/// the held table.
pub proof fn lemma_opened(c: Committed, whir: Whir, point: Seq<int>) -> (p: Proof)
    requires
        c.opened_at(whir, point),
    ensures
        whir.opening(c.commitment.root@, p, point) is Some,
        whir.opening(c.commitment.root@, p, point)->0 is Some,
        residue(whir.opening(c.commitment.root@, p, point)->0->0 as int) == residue(
            mle::mle(c.table(), point),
        ),
{
    let v = residue(mle::mle(c.table(), point));
    choose|p: Proof| #[trigger]
        whir.opening(c.commitment.root@, p, point) matches Some(Some(w)) && residue(w as int) == v
}

/// A bound commitment is the root of the held table under the instance, and nothing more.
pub proof fn lemma_bound(c: Committed, whir: Whir)
    ensures
        c.bound(whir) <==> {
            &&& c.commitment.root@ == whir.root(c.prover_data.table())
            &&& c.prover_data.engine() == whir.engine()
            &&& c.prover_data.vars() == whir.vars()
            &&& c.protocol.num_variables == whir.vars()
        },
{
}

/// The equality polynomial of a point picks out the value of a table there.
pub proof fn lemma_eq_table_picks(f: Seq<int>, r: Seq<int>)
    requires
        f.len() == pow2(r.len()),
    ensures
        dot(eq_table(r), f) == mle::mle(f, r),
        eq_self(r) == dot(eq_table(r), eq_table(r)),
{
    let e = eq_table(r);
    let (a, b) = (|i: int| e[i] * f[i], |i: int| f[i] * eq_weight(i, r));
    assert forall|i: int| 0 <= i < f.len() implies #[trigger] a(i) == b(i) by {
        let (x, y) = (e[i], f[i]);
        assert(x * y == y * x) by (nonlinear_arith);
    }
    lemma_sigma_eq(f.len(), a, b);
    lemma_sigma_eq(f.len(), |i: int| e[i] * e[i], |i: int| e[i] * eq_weight(i, r));
}

} // verus!
