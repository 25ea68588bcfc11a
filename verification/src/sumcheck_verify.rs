//! Non-native Goldilocks sum-check verifier in the BN254 scalar field.
//!
//! Verifies a sum-check transcript over any number of rounds. Per round
//! `p_i(x) = c0 + c1*x + c2*x^2` with challenge `r`, the verifier chains two
//! checks: `p_i(0) + p_i(1) == prev` and `prev = p_i(r)`, then finally checks
//! `prev == f*h`. Every value is a canonical `u64` and every addition or
//! multiplication carries an explicit overflow or quotient, so the reduction by
//! `p = 2^64 - 2^32 + 1` is enforced non-natively inside the circuit.
//!
//! [`SumcheckCircuit::layout`] lists the rows and the copy constraints of the
//! circuit; placing them in the columns of a proof system is left to its caller.

use crate::field::{
    lemma_residue_add, lemma_residue_is_remainder, lemma_residue_mul, lemma_residue_residue,
    residue, P,
};
use crate::goldilocks::{add_mod, lemma_mul_row_complete, mul_mod, AddRow, MulRow, GOLDILOCKS_P};
use crate::sumcheck::{accepts, carried, RoundPoly};
use vstd::prelude::*;

verus! {

/// One sum-check round: the degree-2 polynomial and its challenge.
#[derive(Clone, Copy, Debug)]
pub struct RoundClaim {
    pub c0: u64,
    pub c1: u64,
    pub c2: u64,
    pub r: u64,
}

/// A full sum-check claim: all rounds, the initial claim, and the terminal
/// evaluations `f`, `h`.
#[derive(Clone, Debug)]
pub struct SumcheckClaim {
    pub rounds: Vec<RoundClaim>,
    pub claimed: u64,
    pub f: u64,
    pub h: u64,
}

impl RoundClaim {
    /// The integer value of the round polynomial at `x`.
    pub open spec fn at(self, x: int) -> int {
        self.c0 + self.c1 * x + self.c2 * x * x
    }

    /// All four values are canonical.
    pub open spec fn canonical(self) -> bool {
        self.c0 < P && self.c1 < P && self.c2 < P && self.r < P
    }
}

impl SumcheckClaim {
    /// All values are canonical.
    pub open spec fn canonical(self) -> bool {
        &&& self.claimed < P && self.f < P && self.h < P
        &&& forall|k: int| 0 <= k < self.rounds@.len() ==> (#[trigger] self.rounds@[k]).canonical()
    }

    /// What round `k` has to add up to: the claimed sum, then the value of the
    /// previous round polynomial at its challenge.
    pub open spec fn carried(self, k: int) -> int {
        if k <= 0 {
            self.claimed as int
        } else {
            residue(self.rounds@[k - 1].at(self.rounds@[k - 1].r as int))
        }
    }

    /// Every round adds up to the value carried into it, and the last value is
    /// the product of the two evaluations.
    pub open spec fn valid(self) -> bool {
        &&& forall|k: int|
            0 <= k < self.rounds@.len() ==> #[trigger] self.carried(k) == residue(
                self.rounds@[k].at(0) + self.rounds@[k].at(1),
            )
        &&& self.carried(self.rounds@.len() as int) == residue(self.f * self.h)
    }
}

/// The sum of two reductions reduces as the sum does.
proof fn lemma_reduce_sum(a: int, b: int)
    ensures
        residue(residue(a) + b) == residue(a + b),
        residue(a + residue(b)) == residue(a + b),
{
    lemma_residue_add(a, b);
    lemma_residue_add(residue(a), b);
    lemma_residue_add(a, residue(b));
    lemma_residue_residue(a);
    lemma_residue_residue(b);
}

/// The product of a number and a reduction reduces as the product does.
proof fn lemma_reduce_product(a: int, b: int)
    ensures
        residue(a * residue(b)) == residue(a * b),
{
    lemma_residue_mul(a, b);
    lemma_residue_mul(a, residue(b));
    lemma_residue_residue(b);
}

/// `2*c0 + c1 + c2`, reduced after each addition.
proof fn lemma_round_total(round: RoundClaim)
    ensures
        ({
            let s1 = residue(round.c0 + round.c0);
            let s2 = residue(s1 + round.c1);
            residue(s2 + round.c2) == residue(round.at(0) + round.at(1))
        }),
{
    let (c0, c1, c2) = (round.c0 as int, round.c1 as int, round.c2 as int);
    lemma_reduce_sum(c0 + c0, c1);
    lemma_reduce_sum(c0 + c0 + c1, c2);
    assert(round.at(0) == c0) by (nonlinear_arith)
        requires
            round.at(0) == c0 + c1 * 0 + c2 * 0 * 0,
    ;
    assert(round.at(1) == c0 + c1 + c2) by (nonlinear_arith)
        requires
            round.at(1) == c0 + c1 * 1 + c2 * 1 * 1,
    ;
}

/// `c0 + c1*x + c2*x^2`, reduced after each operation.
proof fn lemma_round_value(c0: int, c1: int, c2: int, x: int)
    ensures
        ({
            let x2 = residue(x * x);
            let t1 = residue(c1 * x);
            let t2 = residue(c2 * x2);
            let t3 = residue(c0 + t1);
            residue(t3 + t2) == residue(c0 + c1 * x + c2 * x * x)
        }),
{
    lemma_reduce_product(c2, x * x);
    lemma_reduce_sum(c0, c1 * x);
    lemma_reduce_sum(c0 + c1 * x, residue(c2 * (x * x)));
    lemma_reduce_sum(c0 + c1 * x, c2 * (x * x));
    assert(c2 * (x * x) == c2 * x * x) by (nonlinear_arith);
}

/// Host-side `p(x) = c0 + c1*x + c2*x^2` over Goldilocks.
pub fn eval_poly(c0: u64, c1: u64, c2: u64, x: u64) -> (r: u64)
    ensures
        r == residue(c0 + c1 * x + c2 * x * x),
{
    let x2: u64 = mul_mod(x, x).0;
    let t1: u64 = mul_mod(c1, x).0;
    let t2: u64 = mul_mod(c2, x2).0;
    let t3: u64 = add_mod(c0, t1).0;
    proof {
        lemma_residue_is_remainder(x * x);
        lemma_residue_is_remainder(c1 * x);
        lemma_residue_is_remainder(c2 * x2);
        lemma_residue_is_remainder(c0 + t1);
        lemma_residue_is_remainder(t3 + t2);
        lemma_round_value(c0 as int, c1 as int, c2 as int, x as int);
    }
    add_mod(t3, t2).0
}

/// `p(0) + p(1)`, that is `2*c0 + c1 + c2`, over Goldilocks.
fn round_total(round: RoundClaim) -> (s3: u64)
    ensures
        s3 == residue(round.at(0) + round.at(1)),
{
    let s1: u64 = add_mod(round.c0, round.c0).0;
    let s2: u64 = add_mod(s1, round.c1).0;
    proof {
        lemma_residue_is_remainder(round.c0 + round.c0);
        lemma_residue_is_remainder(s1 + round.c1);
        lemma_residue_is_remainder(s2 + round.c2);
        lemma_round_total(round);
    }
    add_mod(s2, round.c2).0
}

/// Host-side: is this a valid sum-check transcript?
pub fn claim_is_valid(claim: &SumcheckClaim) -> (ok: bool)
    ensures
        ok == claim.valid(),
{
    let mut prev: u64 = claim.claimed;
    for k in 0..claim.rounds.len()
        invariant
            prev == claim.carried(k as int),
            forall|j: int|
                0 <= j < k ==> #[trigger] claim.carried(j) == residue(
                    claim.rounds@[j].at(0) + claim.rounds@[j].at(1),
                ),
    {
        let round = claim.rounds[k];
        assert(round == claim.rounds@[k as int]);
        if round_total(round) != prev {
            return false;
        }
        prev = eval_poly(round.c0, round.c1, round.c2, round.r);
    }
    proof {
        lemma_residue_is_remainder(claim.f * claim.h);
    }
    prev == mul_mod(claim.f, claim.h).0
}

/// A row of one of the two chips.
#[derive(Clone, Copy, Debug)]
pub enum Row {
    Add(AddRow),
    Mul(MulRow),
}

impl Row {
    /// The value of the row's result cell.
    pub open spec fn output(self) -> u64 {
        match self {
            Row::Add(row) => row.c,
            Row::Mul(row) => row.c,
        }
    }

    /// The row meets its gates.
    pub open spec fn satisfied(self) -> bool {
        match self {
            Row::Add(row) => row.satisfied(),
            Row::Mul(row) => row.satisfied(),
        }
    }

    /// The value of the row's result cell.
    pub fn result(&self) -> (c: u64)
        ensures
            c == self.output(),
    {
        match self {
            Row::Add(row) => row.c,
            Row::Mul(row) => row.c,
        }
    }

    /// Whether the row meets its gates.
    pub fn is_satisfied(&self) -> (ok: bool)
        ensures
            ok == self.satisfied(),
    {
        match self {
            Row::Add(row) => row.is_satisfied(),
            Row::Mul(row) => row.is_satisfied(),
        }
    }
}

/// A copy constraint on the result cells of rows.
#[derive(Clone, Copy, Debug)]
pub enum Link {
    /// The result of `row` equals entry `entry` of the instance column.
    Public { row: usize, entry: usize },
    /// The results of two rows are equal.
    Equal { left: usize, right: usize },
}

/// The rows of the circuit in the order of assignment, and its copy
/// constraints.
#[derive(Clone, Debug)]
pub struct Layout {
    pub rows: Vec<Row>,
    pub links: Vec<Link>,
}

impl Link {
    /// The rows that the constraint names are there.
    pub open spec fn within(self, rows: nat, entries: nat) -> bool {
        match self {
            Link::Public { row, entry } => row < rows && entry < entries,
            Link::Equal { left, right } => left < rows && right < rows,
        }
    }

    /// The constraint holds of the rows and the instance column.
    pub open spec fn holds(self, rows: Seq<Row>, instance: Seq<u64>) -> bool {
        match self {
            Link::Public { row, entry } => rows[row as int].output() == instance[entry as int],
            Link::Equal { left, right } => rows[left as int].output()
                == rows[right as int].output(),
        }
    }
}

impl Layout {
    /// Every constraint names rows and instance entries that are there.
    pub open spec fn well_formed(self, entries: nat) -> bool {
        forall|k: int|
            0 <= k < self.links@.len() ==> (#[trigger] self.links@[k]).within(
                self.rows@.len(),
                entries,
            )
    }

    /// All gates and all copy constraints hold.
    pub open spec fn satisfied(self, instance: Seq<u64>) -> bool {
        &&& forall|k: int| 0 <= k < self.rows@.len() ==> (#[trigger] self.rows@[k]).satisfied()
        &&& forall|k: int|
            0 <= k < self.links@.len() ==> (#[trigger] self.links@[k]).holds(self.rows@, instance)
    }

    /// Whether all gates and all copy constraints hold.
    pub fn is_satisfied(&self, instance: &[u64]) -> (ok: bool)
        requires
            self.well_formed(instance@.len()),
        ensures
            ok == self.satisfied(instance@),
    {
        for k in 0..self.rows.len()
            invariant
                forall|j: int| 0 <= j < k ==> (#[trigger] self.rows@[j]).satisfied(),
        {
            if !self.rows[k].is_satisfied() {
                return false;
            }
        }
        for k in 0..self.links.len()
            invariant
                self.well_formed(instance@.len()),
                forall|j: int|
                    0 <= j < k ==> (#[trigger] self.links@[j]).holds(self.rows@, instance@),
        {
            let link = self.links[k];
            assert(link == self.links@[k as int]);
            let ok = match link {
                Link::Public { row, entry } => self.rows[row].result() == instance[entry],
                Link::Equal { left, right } => self.rows[left].result()
                    == self.rows[right].result(),
            };
            if !ok {
                return false;
            }
        }
        true
    }
}

/// The addition row for `a` and `b`.
pub open spec fn sum_row(a: u64, b: u64) -> Row {
    Row::Add(
        AddRow { a, b, c: residue(a + b) as u64, ov: ((a + b) / (GOLDILOCKS_P as int)) as u64 },
    )
}

/// The multiplication row for `a` and `b`.
pub open spec fn product_row(a: u64, b: u64) -> Row {
    Row::Mul(
        MulRow {
            a,
            b,
            c: residue(a * b) as u64,
            q: ((a * b) / (GOLDILOCKS_P as int) % 0x1_0000_0000_0000_0000) as u64,
        },
    )
}

/// Row `j` of the eight rows of a round: `p(0) + p(1)` in rows `0..3`, and
/// `p(r)` in rows `3..8`.
#[verifier::opaque]
pub open spec fn round_row(round: RoundClaim, j: int) -> Row {
    let s1 = sum_row(round.c0, round.c0);
    let s2 = sum_row(s1.output(), round.c1);
    let r2 = product_row(round.r, round.r);
    let u1 = product_row(round.c1, round.r);
    let u2 = product_row(round.c2, r2.output());
    let u3 = sum_row(round.c0, u1.output());
    if j == 0 {
        s1
    } else if j == 1 {
        s2
    } else if j == 2 {
        sum_row(s2.output(), round.c2)
    } else if j == 3 {
        r2
    } else if j == 4 {
        u1
    } else if j == 5 {
        u2
    } else if j == 6 {
        u3
    } else {
        sum_row(u3.output(), u2.output())
    }
}

/// The rows of all rounds, then the row of the final product.
pub open spec fn claim_row(claim: SumcheckClaim, k: int) -> Row {
    if k < 8 * claim.rounds@.len() {
        round_row(claim.rounds@[k / 8], k % 8)
    } else {
        product_row(claim.f, claim.h)
    }
}

/// The chain of copy constraints over `n` rounds: round `0` against the public
/// claim, each further round against the value of the previous one, and the
/// last value against the final product.
pub open spec fn claim_link(n: int, k: int) -> Link {
    if k == 0 {
        Link::Public { row: 2, entry: 0 }
    } else if k < n {
        Link::Equal { left: (8 * k + 2) as usize, right: (8 * k - 1) as usize }
    } else {
        Link::Equal { left: (8 * n - 1) as usize, right: (8 * n) as usize }
    }
}

/// `layout` is the circuit of `claim`.
pub open spec fn is_layout(layout: Layout, claim: SumcheckClaim) -> bool {
    let n = claim.rounds@.len();
    &&& layout.rows@.len() == 8 * n + 1
    &&& layout.links@.len() == n + 1
    &&& forall|k: int| 0 <= k <= 8 * n ==> #[trigger] layout.rows@[k] == claim_row(claim, k)
    &&& forall|k: int| 0 <= k <= n ==> #[trigger] layout.links@[k] == claim_link(n as int, k)
}

/// The circuit verifying a [`SumcheckClaim`].
pub struct SumcheckCircuit {
    pub claim: SumcheckClaim,
}

fn add_row(a: u64, b: u64) -> (r: Row)
    ensures
        r == sum_row(a, b),
{
    proof {
        lemma_residue_is_remainder(a + b);
    }
    Row::Add(AddRow::new(a, b))
}

fn mul_row(a: u64, b: u64) -> (r: Row)
    ensures
        r == product_row(a, b),
{
    proof {
        lemma_residue_is_remainder(a * b);
    }
    Row::Mul(MulRow::new(a, b))
}

/// Appends the eight rows of a round.
fn push_round(rows: &mut Vec<Row>, round: RoundClaim)
    ensures
        final(rows)@ == old(rows)@ + Seq::new(8, |j: int| round_row(round, j)),
{
    reveal(round_row);
    // p(0) + p(1):  2c0 + c1 + c2
    let s1 = add_row(round.c0, round.c0);
    let s2 = add_row(s1.result(), round.c1);
    let s3 = add_row(s2.result(), round.c2);
    // p(r) = c0 + c1*r + c2*r^2
    let r2 = mul_row(round.r, round.r);
    let u1 = mul_row(round.c1, round.r);
    let u2 = mul_row(round.c2, r2.result());
    let u3 = add_row(round.c0, u1.result());
    let np = add_row(u3.result(), u2.result());
    rows.push(s1);
    rows.push(s2);
    rows.push(s3);
    rows.push(r2);
    rows.push(u1);
    rows.push(u2);
    rows.push(u3);
    rows.push(np);
    assert(rows@ =~= old(rows)@ + Seq::new(8, |j: int| round_row(round, j)));
}

impl SumcheckCircuit {
    /// The circuit of the empty claim.
    pub fn without_witnesses(&self) -> (r: SumcheckCircuit)
        ensures
            r.claim.rounds@.len() == 0,
            r.claim.claimed == 0,
            r.claim.f == 0,
            r.claim.h == 0,
    {
        SumcheckCircuit { claim: SumcheckClaim { rounds: Vec::new(), claimed: 0, f: 0, h: 0 } }
    }

    /// The rows and copy constraints of the circuit. Of a canonical claim they
    /// are satisfied, with the claimed sum as the public value, exactly when the
    /// claim is valid.
    pub fn layout(&self) -> (r: Layout)
        requires
            self.claim.rounds@.len() > 0,
            8 * self.claim.rounds@.len() < usize::MAX,
        ensures
            is_layout(r, self.claim),
            r.well_formed(1),
            self.claim.canonical() ==> (r.satisfied(seq![self.claim.claimed])
                <==> self.claim.valid()),
    {
        let n: usize = self.claim.rounds.len();
        let mut rows: Vec<Row> = Vec::new();
        for i in 0..n
            invariant
                n == self.claim.rounds@.len(),
                rows@.len() == 8 * i,
                forall|k: int| 0 <= k < 8 * i ==> #[trigger] rows@[k] == claim_row(self.claim, k),
        {
            let ghost before = rows@;
            push_round(&mut rows, self.claim.rounds[i]);
            assert forall|k: int| 0 <= k < 8 * (i + 1) implies #[trigger] rows@[k] == claim_row(
                self.claim,
                k,
            ) by {
                if k < 8 * i {
                    assert(rows@[k] == before[k]);
                } else {
                    assert(k / 8 == i && k % 8 == k - 8 * i);
                    assert(rows@[k] == round_row(self.claim.rounds@[i as int], k - 8 * i));
                }
            }
        }
        rows.push(mul_row(self.claim.f, self.claim.h));

        let mut links: Vec<Link> = Vec::new();
        links.push(Link::Public { row: 2, entry: 0 });
        for i in 1..n
            invariant
                8 * n < usize::MAX,
                links@.len() == i,
                forall|k: int| 0 <= k < i ==> #[trigger] links@[k] == claim_link(n as int, k),
        {
            links.push(Link::Equal { left: 8 * i + 2, right: 8 * i - 1 });
        }
        links.push(Link::Equal { left: 8 * n - 1, right: 8 * n });
        let r = Layout { rows, links };
        proof {
            assert forall|k: int| 0 <= k < r.links@.len() implies (#[trigger] r.links@[k]).within(
                r.rows@.len(),
                1,
            ) by {
                assert(r.links@[k] == claim_link(n as int, k));
            }
            if self.claim.canonical() {
                lemma_layout_satisfied(r, self.claim);
            }
        }
        r
    }
}

/// The result of a row of a round, as the integer that it stands for.
proof fn lemma_round_outputs(round: RoundClaim)
    ensures
        round_row(round, 2).output() == residue(round.at(0) + round.at(1)),
        round_row(round, 7).output() == residue(round.at(round.r as int)),
{
    reveal(round_row);
    let (c0, c1, c2, r) = (round.c0, round.c1, round.c2, round.r);
    lemma_residue_is_remainder(c0 + c0);
    let s1 = sum_row(c0, c0).output();
    lemma_residue_is_remainder(s1 + c1);
    let s2 = sum_row(s1, c1).output();
    lemma_residue_is_remainder(s2 + c2);
    lemma_round_total(round);
    lemma_residue_is_remainder(r * r);
    lemma_residue_is_remainder(c1 * r);
    let r2 = product_row(r, r).output();
    let u1 = product_row(c1, r).output();
    lemma_residue_is_remainder(c2 * r2);
    let u2 = product_row(c2, r2).output();
    lemma_residue_is_remainder(c0 + u1);
    let u3 = sum_row(c0, u1).output();
    lemma_residue_is_remainder(u3 + u2);
    lemma_round_value(c0 as int, c1 as int, c2 as int, r as int);
}

/// An addition row of two canonical values meets its gates.
proof fn lemma_sum_row(a: u64, b: u64)
    requires
        a < P,
        b < P,
    ensures
        sum_row(a, b).satisfied(),
        sum_row(a, b).output() < P,
{
    lemma_residue_is_remainder(a + b);
    let p = GOLDILOCKS_P as int;
    vstd::arithmetic::div_mod::lemma_fundamental_div_mod(a + b, p);
    let ov = (a + b) / p;
    assert(ov == 0 || ov == 1);
    let m = crate::goldilocks::scalar_order();
    crate::goldilocks::lemma_add_gate(m, a as int, b as int, residue(a + b), ov);
    assert(ov * (1 - ov) == 0) by (nonlinear_arith)
        requires
            ov == 0 || ov == 1,
    ;
    vstd::arithmetic::div_mod::lemma_small_mod(0, m as nat);
}

/// A multiplication row of two canonical values meets its gate.
proof fn lemma_product_row(a: u64, b: u64)
    requires
        a < P,
        b < P,
    ensures
        product_row(a, b).satisfied(),
        product_row(a, b).output() < P,
{
    lemma_residue_is_remainder(a * b);
    lemma_mul_row_complete(a, b);
    let q = (a * b) / (GOLDILOCKS_P as int);
    assert(0 <= a * b) by (nonlinear_arith);
    vstd::arithmetic::div_mod::lemma_div_pos_is_pos(a * b, GOLDILOCKS_P as int);
    vstd::arithmetic::div_mod::lemma_small_mod(q as nat, 0x1_0000_0000_0000_0000);
}

/// All rows of a canonical round meet their gates.
proof fn lemma_round_rows(round: RoundClaim, j: int)
    requires
        round.canonical(),
        0 <= j < 8,
    ensures
        round_row(round, j).satisfied(),
{
    reveal(round_row);
    let s1 = sum_row(round.c0, round.c0).output();
    lemma_sum_row(round.c0, round.c0);
    lemma_sum_row(s1, round.c1);
    lemma_sum_row(sum_row(s1, round.c1).output(), round.c2);
    lemma_product_row(round.r, round.r);
    lemma_product_row(round.c1, round.r);
    let r2 = product_row(round.r, round.r).output();
    let u1 = product_row(round.c1, round.r).output();
    lemma_product_row(round.c2, r2);
    lemma_sum_row(round.c0, u1);
    lemma_sum_row(sum_row(round.c0, u1).output(), product_row(round.c2, r2).output());
}

/// Every row of a canonical claim meets its constraints.
proof fn lemma_claim_row(claim: SumcheckClaim, k: int)
    requires
        claim.canonical(),
        0 <= k <= 8 * claim.rounds@.len(),
    ensures
        claim_row(claim, k).satisfied(),
{
    if k < 8 * claim.rounds@.len() {
        assert(claim.rounds@[k / 8].canonical());
        lemma_round_rows(claim.rounds@[k / 8], k % 8);
    } else {
        lemma_product_row(claim.f, claim.h);
    }
}

/// What the rows that the copy constraints speak of come to.
proof fn lemma_claim_outputs(claim: SumcheckClaim, k: int)
    requires
        0 <= k < claim.rounds@.len(),
    ensures
        claim_row(claim, 8 * k + 2).output() == residue(
            claim.rounds@[k].at(0) + claim.rounds@[k].at(1),
        ),
        claim_row(claim, 8 * k + 7).output() == claim.carried(k + 1),
        claim_row(claim, 8 * claim.rounds@.len() as int).output() == residue(claim.f * claim.h),
{
    assert((8 * k + 2) / 8 == k && (8 * k + 2) % 8 == 2);
    assert((8 * k + 7) / 8 == k && (8 * k + 7) % 8 == 7);
    lemma_round_outputs(claim.rounds@[k]);
    lemma_residue_is_remainder(claim.f * claim.h);
}

/// What copy constraint `k` says.
proof fn lemma_claim_link(layout: Layout, claim: SumcheckClaim, k: int)
    requires
        is_layout(layout, claim),
        claim.rounds@.len() > 0,
        8 * claim.rounds@.len() < usize::MAX,
        0 <= k <= claim.rounds@.len(),
    ensures
        layout.links@[k].holds(layout.rows@, seq![claim.claimed]) <==> claim.carried(k) == (if k
            < claim.rounds@.len() {
            residue(claim.rounds@[k].at(0) + claim.rounds@[k].at(1))
        } else {
            residue(claim.f * claim.h)
        }),
{
    let n = claim.rounds@.len() as int;
    let rows = layout.rows@;
    assert(layout.links@[k] == claim_link(n, k));
    if k < n {
        lemma_claim_outputs(claim, k);
        assert(rows[8 * k + 2] == claim_row(claim, 8 * k + 2));
    } else {
        assert(rows[8 * n] == claim_row(claim, 8 * n));
    }
    if k > 0 {
        lemma_claim_outputs(claim, k - 1);
        assert(8 * (k - 1) + 7 == 8 * k - 1);
        assert(rows[8 * k - 1] == claim_row(claim, 8 * k - 1));
    }
}

/// The circuit decides the claim: its rows and copy constraints are satisfied,
/// with the claimed sum as the public value, exactly when the transcript is
/// valid.
pub proof fn lemma_layout_satisfied(layout: Layout, claim: SumcheckClaim)
    requires
        is_layout(layout, claim),
        claim.rounds@.len() > 0,
        8 * claim.rounds@.len() < usize::MAX,
        claim.canonical(),
    ensures
        layout.satisfied(seq![claim.claimed]) <==> claim.valid(),
{
    let n = claim.rounds@.len() as int;
    let instance = seq![claim.claimed];
    assert forall|k: int| 0 <= k < layout.rows@.len() implies (#[trigger] layout.rows@[k]).satisfied() by {
        lemma_claim_row(claim, k);
    }
    if claim.valid() {
        assert forall|k: int| 0 <= k < layout.links@.len() implies (#[trigger] layout.links@[k]).holds(
            layout.rows@,
            instance,
        ) by {
            lemma_claim_link(layout, claim, k);
            let before = claim.carried(k);
        }
    }
    if layout.satisfied(instance) {
        assert forall|k: int| 0 <= k < n implies #[trigger] claim.carried(k) == residue(
            claim.rounds@[k].at(0) + claim.rounds@[k].at(1),
        ) by {
            lemma_claim_link(layout, claim, k);
            let link = layout.links@[k];
        }
        lemma_claim_link(layout, claim, n);
        let last = layout.links@[n];
    }
}

/// `claim` holds the canonical values of a transcript over the field.
pub open spec fn claims(
    claim: SumcheckClaim,
    rounds: Seq<RoundPoly>,
    claimed: int,
    r: Seq<int>,
    f_eval: int,
    h_eval: int,
) -> bool {
    &&& claim.rounds@.len() == rounds.len() == r.len()
    &&& claim.claimed == residue(claimed)
    &&& claim.f == residue(f_eval)
    &&& claim.h == residue(h_eval)
    &&& forall|k: int|
        0 <= k < rounds.len() ==> {
            &&& (#[trigger] claim.rounds@[k]).c0 == rounds[k].c0@
            &&& claim.rounds@[k].c1 == rounds[k].c1@
            &&& claim.rounds@[k].c2 == rounds[k].c2@
            &&& claim.rounds@[k].r == r[k]
        }
}

/// The non-native verifier and the verifier over the field agree: the canonical
/// values of a transcript are a valid claim exactly when the transcript is
/// accepted.
pub proof fn lemma_claim_is_transcript(
    claim: SumcheckClaim,
    rounds: Seq<RoundPoly>,
    claimed: int,
    r: Seq<int>,
    f_eval: int,
    h_eval: int,
)
    requires
        claims(claim, rounds, claimed, r, f_eval, h_eval),
    ensures
        claim.valid() <==> accepts(rounds, claimed, r, f_eval, h_eval),
{
    lemma_residue_mul(f_eval, h_eval);
    assert forall|k: int| 0 <= k <= r.len() implies #[trigger] claim.carried(k) == carried(
        rounds,
        claimed,
        r,
        k,
    ) by {
        if k > 0 {
            let round = claim.rounds@[k - 1];
            assert(round.at(round.r as int) == rounds[k - 1].at(r[k - 1]));
        }
    }
    if claim.valid() {
        assert forall|k: int| 0 <= k < r.len() implies residue(
            (#[trigger] rounds[k]).at(0) + rounds[k].at(1),
        ) == carried(rounds, claimed, r, k) by {
            let round = claim.rounds@[k];
            assert(claim.carried(k) == carried(rounds, claimed, r, k));
        }
    }
    if accepts(rounds, claimed, r, f_eval, h_eval) {
        assert forall|k: int| 0 <= k < claim.rounds@.len() implies #[trigger] claim.carried(k)
            == residue(claim.rounds@[k].at(0) + claim.rounds@[k].at(1)) by {
            let (round, sent) = (rounds[k], claim.rounds@[k]);
        }
    }
}

/// A satisfied circuit: every multiplication row multiplies and every addition row adds
/// modulo `p`, and every copy constraint ties two equal values.
pub proof fn lemma_satisfied(layout: Layout, instance: Seq<u64>, k: int)
    requires
        layout.satisfied(instance),
    ensures
        0 <= k < layout.rows@.len() ==> match layout.rows@[k] {
            Row::Mul(row) => row.a * row.b == row.q * GOLDILOCKS_P + row.c,
            Row::Add(row) => (row.ov == 0 || row.ov == 1) && row.a + row.b == row.c + row.ov
                * GOLDILOCKS_P,
        },
        0 <= k < layout.links@.len() ==> match layout.links@[k] {
            Link::Public { row, entry } => layout.rows@[row as int].output()
                == instance[entry as int],
            Link::Equal { left, right } => layout.rows@[left as int].output()
                == layout.rows@[right as int].output(),
        },
{
    if 0 <= k < layout.rows@.len() {
        assert(layout.rows@[k].satisfied());
        match layout.rows@[k] {
            Row::Mul(row) => crate::goldilocks::lemma_mul_row(row),
            Row::Add(row) => crate::goldilocks::lemma_add_row(row),
        }
    }
    if 0 <= k < layout.links@.len() {
        assert(layout.links@[k].holds(layout.rows@, instance));
    }
}

/// A valid claim: the first round adds up to the claimed sum, every later one to the value
/// of the round before at its challenge, and the last value is the product of the two
/// evaluations, all in the field.
pub proof fn lemma_valid(claim: SumcheckClaim, k: int)
    requires
        claim.valid(),
    ensures
        ({
            let n = claim.rounds@.len() as int;
            let sum = |i: int|
                residue(
                    2 * claim.rounds@[i].c0 + claim.rounds@[i].c1 + claim.rounds@[i].c2 as int,
                );
            let value = |i: int|
                residue(
                    claim.rounds@[i].c0 + claim.rounds@[i].c1 * claim.rounds@[i].r
                        + claim.rounds@[i].c2 * claim.rounds@[i].r * claim.rounds@[i].r,
                );
            &&& n > 0 ==> sum(0) == claim.claimed
            &&& 0 < k < n ==> sum(k) == value(k - 1)
            &&& n > 0 ==> value(n - 1) == residue(claim.f * claim.h)
            &&& n == 0 ==> claim.claimed == residue(claim.f * claim.h)
        }),
{
    let n = claim.rounds@.len() as int;
    if n > 0 {
        lemma_round_ends(claim.rounds@[0]);
        assert(claim.carried(0) == residue(claim.rounds@[0].at(0) + claim.rounds@[0].at(1)));
    }
    if 0 < k < n {
        lemma_round_ends(claim.rounds@[k]);
        assert(claim.carried(k) == residue(claim.rounds@[k].at(0) + claim.rounds@[k].at(1)));
    }
}

proof fn lemma_round_ends(round: RoundClaim)
    ensures
        round.at(0) + round.at(1) == 2 * round.c0 + round.c1 + round.c2,
{
    let (c0, c1, c2) = (round.c0 as int, round.c1 as int, round.c2 as int);
    assert(round.at(0) == c0) by (nonlinear_arith)
        requires
            round.at(0) == c0 + c1 * 0 + c2 * 0 * 0,
    ;
    assert(round.at(1) == c0 + c1 + c2) by (nonlinear_arith)
        requires
            round.at(1) == c0 + c1 * 1 + c2 * 1 * 1,
    ;
}

} // verus!
