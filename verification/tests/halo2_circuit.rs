//! The rows and copy constraints of the library, laid out in a Halo2 circuit over
//! the BN254 scalar field.

use halo2_proofs::circuit::{AssignedCell, Layouter, SimpleFloorPlanner, Value};
use halo2_proofs::dev::MockProver;
use halo2_proofs::plonk::{
    Advice, Circuit, Column, ConstraintSystem, Error, Expression, Instance, Selector,
};
use halo2_proofs::poly::Rotation;
use halo2curves::bn256::Fr;
use zkie::field::{Goldilocks, XorShift64};
use zkie::goldilocks::{add_mod, mul_mod, AddRow, MulRow, GOLDILOCKS_P};
use zkie::sumcheck;
use zkie::sumcheck_verify::{
    claim_is_valid, eval_poly, Link, RoundClaim, Row, SumcheckCircuit, SumcheckClaim,
};

#[derive(Clone, Debug)]
pub struct RangeCheckConfig {
    value: Column<Advice>,
    bit: Column<Advice>,
    s_bit: Selector,
    s_end: Selector,
    num_bits: usize,
}

pub struct RangeCheckChip {
    config: RangeCheckConfig,
}

impl RangeCheckChip {
    pub fn configure(
        meta: &mut ConstraintSystem<Fr>,
        value: Column<Advice>,
        bit: Column<Advice>,
        num_bits: usize,
    ) -> RangeCheckConfig {
        let s_bit = meta.selector();
        meta.create_gate("take off one bit", |meta| {
            let z = meta.query_advice(value, Rotation::cur());
            let z_next = meta.query_advice(value, Rotation::next());
            let b = meta.query_advice(bit, Rotation::cur());
            let s = meta.query_selector(s_bit);
            let one = Expression::Constant(Fr::one());
            let two = Expression::Constant(Fr::from(2));
            vec![
                s.clone() * b.clone() * (one - b.clone()),
                s * (z - two * z_next - b),
            ]
        });
        let s_end = meta.selector();
        meta.create_gate("nothing is left", |meta| {
            let z = meta.query_advice(value, Rotation::cur());
            let s = meta.query_selector(s_end);
            vec![s * z]
        });
        RangeCheckConfig { value, bit, s_bit, s_end, num_bits }
    }

    pub fn construct(config: RangeCheckConfig) -> Self {
        RangeCheckChip { config }
    }

    /// Witness that `raw` has at most as many bits as the chip was configured for.
    pub fn assign(&self, mut layouter: impl Layouter<Fr>, raw: u64) -> Result<(), Error> {
        layouter.assign_region(
            || "range check",
            |mut region| {
                let mut z = raw;
                for row in 0..self.config.num_bits {
                    self.config.s_bit.enable(&mut region, row)?;
                    let (value, bit) = (Fr::from(z), Fr::from(z & 1));
                    region.assign_advice(|| "z", self.config.value, row, || Value::known(value))?;
                    region.assign_advice(|| "bit", self.config.bit, row, || Value::known(bit))?;
                    z >>= 1;
                }
                let end = self.config.num_bits;
                self.config.s_end.enable(&mut region, end)?;
                region.assign_advice(|| "z", self.config.value, end, || Value::known(Fr::from(z)))?;
                Ok(())
            },
        )
    }
}

#[derive(Clone, Debug)]
pub struct GoldilocksMulConfig {
    a: Column<Advice>,
    b: Column<Advice>,
    c: Column<Advice>,
    q: Column<Advice>,
    s_mul: Selector,
    range_a: RangeCheckConfig,
    range_b: RangeCheckConfig,
    range_c: RangeCheckConfig,
    range_q: RangeCheckConfig,
}

pub struct GoldilocksMulChip {
    config: GoldilocksMulConfig,
}

/// The columns and gates are values of the outside constraint system, and the rows
/// are assigned through its `Layouter` trait.
impl GoldilocksMulChip {
    pub fn configure(meta: &mut ConstraintSystem<Fr>) -> GoldilocksMulConfig {
        let a = meta.advice_column();
        let b = meta.advice_column();
        let c = meta.advice_column();
        let q = meta.advice_column();
        for col in [a, b, c, q] {
            meta.enable_equality(col);
        }

        // One bit-decomposition column per range-checked value.
        let a_bits = meta.advice_column();
        let b_bits = meta.advice_column();
        let c_bits = meta.advice_column();
        let q_bits = meta.advice_column();
        let range_a = RangeCheckChip::configure(meta, a, a_bits, 64);
        let range_b = RangeCheckChip::configure(meta, b, b_bits, 64);
        let range_c = RangeCheckChip::configure(meta, c, c_bits, 64);
        let range_q = RangeCheckChip::configure(meta, q, q_bits, 64);

        let s_mul = meta.selector();
        meta.create_gate("a*b - c = q*p", |meta| {
            let a = meta.query_advice(a, Rotation::cur());
            let b = meta.query_advice(b, Rotation::cur());
            let c = meta.query_advice(c, Rotation::cur());
            let q = meta.query_advice(q, Rotation::cur());
            let s = meta.query_selector(s_mul);
            let p = Expression::Constant(Fr::from(GOLDILOCKS_P));
            vec![s * (a * b - c - q * p)]
        });

        GoldilocksMulConfig { a, b, c, q, s_mul, range_a, range_b, range_c, range_q }
    }

    pub fn construct(config: GoldilocksMulConfig) -> Self {
        GoldilocksMulChip { config }
    }

    /// Witness `a*b = q*p + c`, where every value is a canonical `u64`.
    pub fn assign(
        &self,
        mut layouter: impl Layouter<Fr>,
        row: MulRow,
    ) -> Result<AssignedCell<Fr, Fr>, Error> {
        let fr = |v: u64| Value::known(Fr::from(v));
        let c_cell = layouter.assign_region(
            || "goldilocks mul",
            |mut region| {
                self.config.s_mul.enable(&mut region, 0)?;
                region.assign_advice(|| "a", self.config.a, 0, || fr(row.a))?;
                region.assign_advice(|| "b", self.config.b, 0, || fr(row.b))?;
                region.assign_advice(|| "q", self.config.q, 0, || fr(row.q))?;
                region.assign_advice(|| "c", self.config.c, 0, || fr(row.c))
            },
        )?;
        for (range, value) in [
            (&self.config.range_a, row.a),
            (&self.config.range_b, row.b),
            (&self.config.range_c, row.c),
            (&self.config.range_q, row.q),
        ] {
            RangeCheckChip::construct(range.clone())
                .assign(layouter.namespace(|| "range"), value)?;
        }
        Ok(c_cell)
    }
}

#[derive(Clone, Debug)]
pub struct GoldilocksAddConfig {
    a: Column<Advice>,
    b: Column<Advice>,
    c: Column<Advice>,
    ov: Column<Advice>,
    s_add: Selector,
    s_ov_bit: Selector,
    range_a: RangeCheckConfig,
    range_b: RangeCheckConfig,
    range_c: RangeCheckConfig,
}

pub struct GoldilocksAddChip {
    config: GoldilocksAddConfig,
}

/// The columns and gates are values of the outside constraint system, and the rows
/// are assigned through its `Layouter` trait.
impl GoldilocksAddChip {
    pub fn configure(meta: &mut ConstraintSystem<Fr>) -> GoldilocksAddConfig {
        let a = meta.advice_column();
        let b = meta.advice_column();
        let c = meta.advice_column();
        let ov = meta.advice_column();
        for col in [a, b, c] {
            meta.enable_equality(col);
        }

        let s_ov_bit = meta.selector();
        meta.create_gate("ov is boolean", |meta| {
            let ov = meta.query_advice(ov, Rotation::cur());
            let s = meta.query_selector(s_ov_bit);
            let one = Expression::Constant(Fr::one());
            vec![s * ov.clone() * (one - ov)]
        });

        let s_add = meta.selector();
        meta.create_gate("a + b = c + ov*p", |meta| {
            let a = meta.query_advice(a, Rotation::cur());
            let b = meta.query_advice(b, Rotation::cur());
            let c = meta.query_advice(c, Rotation::cur());
            let ov = meta.query_advice(ov, Rotation::cur());
            let s = meta.query_selector(s_add);
            let p = Expression::Constant(Fr::from(GOLDILOCKS_P));
            vec![s * (a + b - c - ov * p)]
        });

        let a_bits = meta.advice_column();
        let b_bits = meta.advice_column();
        let c_bits = meta.advice_column();
        let range_a = RangeCheckChip::configure(meta, a, a_bits, 64);
        let range_b = RangeCheckChip::configure(meta, b, b_bits, 64);
        let range_c = RangeCheckChip::configure(meta, c, c_bits, 64);

        GoldilocksAddConfig { a, b, c, ov, s_add, s_ov_bit, range_a, range_b, range_c }
    }

    pub fn construct(config: GoldilocksAddConfig) -> Self {
        GoldilocksAddChip { config }
    }

    /// Witness `a + b = c + ov*p` with `ov in {0,1}`.
    pub fn assign(
        &self,
        mut layouter: impl Layouter<Fr>,
        row: AddRow,
    ) -> Result<AssignedCell<Fr, Fr>, Error> {
        let fr = |v: u64| Value::known(Fr::from(v));
        let c_cell = layouter.assign_region(
            || "goldilocks add",
            |mut region| {
                self.config.s_add.enable(&mut region, 0)?;
                self.config.s_ov_bit.enable(&mut region, 0)?;
                region.assign_advice(|| "a", self.config.a, 0, || fr(row.a))?;
                region.assign_advice(|| "b", self.config.b, 0, || fr(row.b))?;
                region.assign_advice(|| "ov", self.config.ov, 0, || fr(row.ov))?;
                region.assign_advice(|| "c", self.config.c, 0, || fr(row.c))
            },
        )?;
        for (range, value) in [
            (&self.config.range_a, row.a),
            (&self.config.range_b, row.b),
            (&self.config.range_c, row.c),
        ] {
            RangeCheckChip::construct(range.clone())
                .assign(layouter.namespace(|| "range"), value)?;
        }
        Ok(c_cell)
    }
}

#[derive(Clone, Debug)]
pub struct SumcheckConfig {
    add: GoldilocksAddConfig,
    mul: GoldilocksMulConfig,
    instance: Column<Instance>,
}

/// `Circuit` is an outside trait, so it is implemented on a type of its own.
pub struct Halo2Circuit(pub SumcheckCircuit);

impl Circuit<Fr> for Halo2Circuit {
    type Config = SumcheckConfig;
    type FloorPlanner = SimpleFloorPlanner;

    fn without_witnesses(&self) -> Self {
        Halo2Circuit(self.0.without_witnesses())
    }

    fn configure(meta: &mut ConstraintSystem<Fr>) -> Self::Config {
        let instance = meta.instance_column();
        meta.enable_equality(instance);
        SumcheckConfig {
            add: GoldilocksAddChip::configure(meta),
            mul: GoldilocksMulChip::configure(meta),
            instance,
        }
    }

    fn synthesize(
        &self,
        config: Self::Config,
        mut layouter: impl Layouter<Fr>,
    ) -> Result<(), Error> {
        let rounds = self.0.claim.rounds.len();
        assert!(rounds > 0, "a transcript has at least one round");
        assert!(rounds < usize::MAX / 8, "too many rounds");
        let layout = self.0.layout();
        let add_chip = GoldilocksAddChip::construct(config.add.clone());
        let mul_chip = GoldilocksMulChip::construct(config.mul.clone());

        let mut cells: Vec<AssignedCell<Fr, Fr>> = Vec::with_capacity(layout.rows.len());
        for (i, row) in layout.rows.iter().enumerate() {
            let space = layouter.namespace(|| format!("row {i}"));
            cells.push(match row {
                Row::Add(row) => add_chip.assign(space, *row)?,
                Row::Mul(row) => mul_chip.assign(space, *row)?,
            });
        }
        for link in &layout.links {
            match *link {
                Link::Public { row, entry } => {
                    layouter.constrain_instance(cells[row].cell(), config.instance, entry)?
                }
                Link::Equal { left, right } => layouter.assign_region(
                    || format!("bind {left} to {right}"),
                    |mut region| region.constrain_equal(cells[left].cell(), cells[right].cell()),
                )?,
            }
        }
        Ok(())
    }
}

#[derive(Clone)]
struct TestConfig {
    mul: GoldilocksMulConfig,
}

struct TestCircuit(MulRow);

impl Circuit<Fr> for TestCircuit {
    type Config = TestConfig;
    type FloorPlanner = SimpleFloorPlanner;

    fn without_witnesses(&self) -> Self {
        TestCircuit(MulRow { a: 0, b: 0, c: 0, q: 0 })
    }

    fn configure(meta: &mut ConstraintSystem<Fr>) -> Self::Config {
        TestConfig {
            mul: GoldilocksMulChip::configure(meta),
        }
    }

    fn synthesize(
        &self,
        config: Self::Config,
        layouter: impl Layouter<Fr>,
    ) -> Result<(), Error> {
        GoldilocksMulChip::construct(config.mul).assign(layouter, self.0)?;
        Ok(())
    }
}

#[test]
fn product_without_wraparound_is_satisfied() {
    let (a, b) = (5u64, 7u64);
    let (c, q) = mul_mod(a, b);
    assert_eq!((c, q), (35, 0));
    let prover = MockProver::run(12, &TestCircuit(MulRow { a, b, c, q }), vec![]).unwrap();
    prover.assert_satisfied();
}

#[test]
fn product_with_wraparound_is_satisfied() {
    let a = GOLDILOCKS_P - 1;
    let b = 2u64;
    let (c, q) = mul_mod(a, b);
    assert_eq!(c, GOLDILOCKS_P - 2);
    assert_eq!(q, 1);
    let prover = MockProver::run(12, &TestCircuit(MulRow { a, b, c, q }), vec![]).unwrap();
    prover.assert_satisfied();
}

#[test]
fn wrong_product_is_rejected() {
    let (a, b) = (5u64, 7u64);
    let (_, q) = mul_mod(a, b);
    let wrong_c = 36u64; // 5*7 != 36 mod p
    let prover = MockProver::run(12, &TestCircuit(MulRow { a, b, c: wrong_c, q }), vec![]).unwrap();
    assert!(prover.verify().is_err());
}

#[derive(Clone)]
struct AddTestConfig {
    add: GoldilocksAddConfig,
}

struct AddTestCircuit(AddRow);

impl Circuit<Fr> for AddTestCircuit {
    type Config = AddTestConfig;
    type FloorPlanner = SimpleFloorPlanner;

    fn without_witnesses(&self) -> Self {
        AddTestCircuit(AddRow { a: 0, b: 0, c: 0, ov: 0 })
    }

    fn configure(meta: &mut ConstraintSystem<Fr>) -> Self::Config {
        AddTestConfig {
            add: GoldilocksAddChip::configure(meta),
        }
    }

    fn synthesize(
        &self,
        config: Self::Config,
        layouter: impl Layouter<Fr>,
    ) -> Result<(), Error> {
        GoldilocksAddChip::construct(config.add).assign(layouter, self.0)?;
        Ok(())
    }
}

#[test]
fn add_without_wraparound_is_satisfied() {
    let (a, b) = (5u64, 7u64);
    let (c, ov) = add_mod(a, b);
    assert_eq!((c, ov), (12, 0));
    let prover = MockProver::run(12, &AddTestCircuit(AddRow { a, b, c, ov }), vec![]).unwrap();
    prover.assert_satisfied();
}

#[test]
fn add_with_wraparound_is_satisfied() {
    let a = GOLDILOCKS_P - 1;
    let b = 2u64;
    let (c, ov) = add_mod(a, b);
    assert_eq!((c, ov), (1, 1));
    let prover = MockProver::run(12, &AddTestCircuit(AddRow { a, b, c, ov }), vec![]).unwrap();
    prover.assert_satisfied();
}

/// Build a valid transcript backward from random challenges and terminal
/// evaluations so the checks hold by construction.
fn valid_claim(rounds: usize, rng: &mut XorShift64) -> SumcheckClaim {
    let f = rng.next_u64() % GOLDILOCKS_P;
    let h = rng.next_u64() % GOLDILOCKS_P;
    let mut prev = mul_mod(f, h).0;
    let mut rs = Vec::with_capacity(rounds);
    for _ in 0..rounds {
        let c0 = rng.next_u64() % GOLDILOCKS_P;
        let c1 = rng.next_u64() % GOLDILOCKS_P;
        let r = rng.next_u64() % GOLDILOCKS_P;
        // Solve c2 so p(r) = prev, i.e. c2 = (prev - c0 - c1*r) / r^2.
        let r2 = mul_mod(r, r).0;
        let c1r = mul_mod(c1, r).0;
        // numerator = prev - c0 - c1*r  (mod p)
        let num = add_mod(prev, mul_mod(GOLDILOCKS_P - c0 % GOLDILOCKS_P, 1).0).0; // prev - c0
        let num = add_mod(num, mul_mod(GOLDILOCKS_P - c1r % GOLDILOCKS_P, 1).0).0; // - c1r
        // c2 = num / r^2 (mod p). r^2 invertible unless r=0; avoid r=0.
        let r2_inv = inverse(r2);
        let c2 = mul_mod(num, r2_inv).0;
        let round = RoundClaim { c0, c1, c2, r };
        rs.push(round);
        prev = add_mod(c0, c0).0;
        prev = add_mod(prev, c1).0;
        prev = add_mod(prev, c2).0; // p(0) + p(1)
    }
    // `prev` is now the required initial claim.
    rs.reverse();
    SumcheckClaim {
        rounds: rs,
        claimed: prev,
        f,
        h,
    }
}

/// Modular inverse of a Goldilocks element via Fermat (`p-2`).
fn inverse(x: u64) -> u64 {
    let p = GOLDILOCKS_P;
    let mut base = x;
    let mut e = p - 2;
    let mut acc = 1u64;
    while e > 0 {
        if e & 1 == 1 {
            acc = mul_mod(acc, base).0;
        }
        base = mul_mod(base, base).0;
        e >>= 1;
    }
    acc
}

#[test]
fn valid_multi_round_transcript_is_satisfied() {
    let claim = valid_claim(3, &mut XorShift64::new(0x5EED));
    assert!(claim_is_valid(&claim));
    let prover = MockProver::run(
        16,
        &Halo2Circuit(SumcheckCircuit {
            claim: claim.clone(),
        }),
        vec![vec![Fr::from(claim.claimed)]],
    )
    .unwrap();
    prover.assert_satisfied();
}

#[test]
fn tampered_terminal_product_is_rejected() {
    let mut claim = valid_claim(3, &mut XorShift64::new(0x5EED));
    claim.f = add_mod(claim.f, 1).0; // corrupt f -> final product no longer matches
    assert!(!claim_is_valid(&claim));
    let prover = MockProver::run(
        16,
        &Halo2Circuit(SumcheckCircuit {
            claim: claim.clone(),
        }),
        vec![vec![Fr::from(claim.claimed)]],
    )
    .unwrap();
    assert!(prover.verify().is_err());
}

#[test]
fn gkr_sumcheck_proof_verifies_in_halo2() {
    let mut rng = XorShift64::new(0x1234);
    let t = 6usize; // 2^6 = 64 evaluation points, 6 sum-check rounds
    let f: Vec<Goldilocks> = (0..(1 << t)).map(|_| rng.field()).collect();
    let h: Vec<Goldilocks> = (0..(1 << t)).map(|_| rng.field()).collect();
    let challenges: Vec<Goldilocks> = (0..t).map(|_| rng.field()).collect();

    let claimed: Goldilocks = f
        .iter()
        .zip(&h)
        .fold(Goldilocks::zero(), |acc, (&a, &b)| acc + a * b);
    let proof = sumcheck::prove(&f, &h, claimed, &challenges);

    // Convert the Goldilocks transcript into canonical u64 values for the
    // non-native Halo2 verifier.
    let rounds: Vec<RoundClaim> = proof
        .rounds
        .iter()
        .zip(&challenges)
        .map(|(rp, &r)| RoundClaim {
            c0: rp.c0.as_canonical_u64(),
            c1: rp.c1.as_canonical_u64(),
            c2: rp.c2.as_canonical_u64(),
            r: r.as_canonical_u64(),
        })
        .collect();
    let claim = SumcheckClaim {
        rounds,
        claimed: claimed.as_canonical_u64(),
        f: proof.f_eval.as_canonical_u64(),
        h: proof.h_eval.as_canonical_u64(),
    };

    let prover = MockProver::run(
        15,
        &Halo2Circuit(SumcheckCircuit {
            claim: claim.clone(),
        }),
        vec![vec![Fr::from(claim.claimed)]],
    )
    .unwrap();
    prover.assert_satisfied();
}

#[test]
fn tampered_gkr_proof_is_rejected_in_halo2() {
    let mut rng = XorShift64::new(0x5678);
    let t = 6usize;
    let f: Vec<Goldilocks> = (0..(1 << t)).map(|_| rng.field()).collect();
    let h: Vec<Goldilocks> = (0..(1 << t)).map(|_| rng.field()).collect();
    let challenges: Vec<Goldilocks> = (0..t).map(|_| rng.field()).collect();

    let claimed: Goldilocks = f
        .iter()
        .zip(&h)
        .fold(Goldilocks::zero(), |acc, (&a, &b)| acc + a * b);
    let proof = sumcheck::prove(&f, &h, claimed, &challenges);

    let mut rounds: Vec<RoundClaim> = proof
        .rounds
        .iter()
        .zip(&challenges)
        .map(|(rp, &r)| RoundClaim {
            c0: rp.c0.as_canonical_u64(),
            c1: rp.c1.as_canonical_u64(),
            c2: rp.c2.as_canonical_u64(),
            r: r.as_canonical_u64(),
        })
        .collect();
    // Corrupt the last round's constant term; the transcript is no longer valid.
    let last = rounds.last_mut().unwrap();
    last.c0 = last.c0.wrapping_add(1);

    let claim = SumcheckClaim {
        rounds,
        claimed: claimed.as_canonical_u64(),
        f: proof.f_eval.as_canonical_u64(),
        h: proof.h_eval.as_canonical_u64(),
    };

    let prover = MockProver::run(
        15,
        &Halo2Circuit(SumcheckCircuit {
            claim: claim.clone(),
        }),
        vec![vec![Fr::from(claim.claimed)]],
    )
    .unwrap();
    assert!(prover.verify().is_err());
}
