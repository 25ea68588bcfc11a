//! Minimal WHIR multilinear PCS wrapper over Goldilocks.
//!
//! Exposes a clean commit -> prescribed-point open -> verify cycle for a single
//! flat multilinear extension (a `Vec<Goldilocks>` of length `2^d`). The opening
//! point is caller-chosen (base-field coordinates) and is embedded into the
//! degree-2 extension field internally.
//!
//! The protocol itself is Plonky3's. What is trusted of it is stated on the
//! functions marked `external_body`: which table a commitment holds, that an
//! opening is the extension of that table, and that an honest opening verifies.

use crate::field::{group_residue, ints, residue, Goldilocks};
use crate::integers::is_pow2;
use crate::mle::{mle, pow2_usize};
use p3_challenger::DuplexChallenger;
use p3_commit::MultilinearPcs;
use p3_dft::Radix2DFTSmallBatch;
use p3_field::extension::BinomialExtensionField;
use p3_field::{ExtensionField, Field, PrimeField64};
use p3_goldilocks::{Goldilocks as Base, Poseidon2Goldilocks};
use p3_matrix::dense::RowMajorMatrix;
use p3_merkle_tree::MerkleTreeMmcs;
use p3_multilinear_util::point::Point;
use p3_sumcheck::layout::{Layout, SuffixProver, Table};
use p3_sumcheck::{OpeningBatch, OpeningProtocol as Schedule, PrescribedPointPcs, TableShape, TableSpec};
use p3_symmetric::{PaddingFreeSponge, TruncatedPermutation};
use p3_whir::SecurityAssumption::{
    CapacityBound as Capacity, JohnsonBound as Johnson, UniqueDecoding as Unique,
};
use p3_whir::{
    DomainSeparator, FoldingFactor, FoldingFactorError, PcsProof, ProtocolParameters,
    VerifierError, WhirConfig, WhirConfigError, WhirProver, WhirProverData,
};
use rand::rngs::SmallRng;
use rand::SeedableRng;
use vstd::arithmetic::power2::pow2;
use vstd::prelude::*;

verus! {

#[verifier::external_type_specification]
#[verifier::external_body]
pub struct ExFoldingFactorError(FoldingFactorError);

#[verifier::external_type_specification]
#[verifier::external_body]
pub struct ExWhirConfigError(WhirConfigError);

#[verifier::external_type_specification]
#[verifier::external_body]
pub struct ExVerifierError(VerifierError);

type Ext = BinomialExtensionField<Base, 2>;

type Perm = Poseidon2Goldilocks<16>;

type Sponge = PaddingFreeSponge<Perm, 16, 8, 8>;

type Compress = TruncatedPermutation<Perm, 2, 8, 16>;

type Transcript = DuplexChallenger<Base, Perm, 16, 8>;

type Packed = <Base as Field>::Packing;

type Mmcs = MerkleTreeMmcs<Packed, Packed, Sponge, Compress, 2, 8>;

type Dft = Radix2DFTSmallBatch<Base>;

type Prover = WhirProver<Ext, Base, Dft, Mmcs, Transcript, SuffixProver<Base, Ext>>;

/// The outside WHIR engine: `p3_whir::WhirProver` and the transcript, bound to
/// its parameters, that every run starts from. The bounds on the outside types
/// keep them from being declared to the verifier on their own.
#[verifier::external_body]
pub struct Engine {
    prover: Prover,
    transcript: Transcript,
}

/// The prover side of a commitment, `p3_whir::WhirProverData`: the committed
/// table together with its Merkle tree.
#[verifier::external_body]
pub struct HeldTable {
    data: WhirProverData<Base, Ext, Mmcs, SuffixProver<Base, Ext>>,
}

/// An opening proof, `p3_whir::PcsProof`.
#[verifier::external_body]
pub struct Proof {
    proof: PcsProof<Base, Ext, Mmcs>,
}

/// The code that an engine commits with.
pub struct Shape {
    pub num_variables: nat,
    pub folding: nat,
    pub log_inv_rate: nat,
}

/// The assumption on the distance of words from the code that the number of queries
/// is derived from.
#[derive(Clone, Copy, Debug, PartialEq, Eq)]
pub enum Assumption {
    UniqueDecoding,
    JohnsonBound,
    CapacityBound,
}

/// What an engine's security rests on: the security level and the proof-of-work
/// bits, the assumption on the code, the rates of the rounds, the cap height of the
/// Merkle trees, and the seed of the hash permutation.
pub struct Security {
    pub level: nat,
    pub pow_bits: nat,
    pub assumption: Assumption,
    pub round_rates: Seq<usize>,
    pub cap_height: nat,
    pub seed: u64,
}

/// The engine that is built from these parameters on a machine with words of this
/// many bits, on which the generator behind the hash permutation depends.
pub uninterp spec fn engine_from(shape: Shape, security: Security, word_bits: u32) -> Engine;

/// The code that an engine was built for.
pub uninterp spec fn engine_shape(engine: Engine) -> Shape;

/// The security parameters that an engine was built for.
pub uninterp spec fn engine_security(engine: Engine) -> Security;

/// The evaluations that a held table consists of.
pub uninterp spec fn held_evals(table: HeldTable) -> Seq<u64>;

/// The engine that committed to a held table.
pub uninterp spec fn held_engine(table: HeldTable) -> Engine;

/// The Merkle root that an engine computes for a table.
pub uninterp spec fn root_of(engine: Engine, evals: Seq<u64>) -> Seq<u64>;

/// What the verification of an opening yields: nothing when it is rejected,
/// otherwise the opened value, if that is an element of the base field. The
/// point has its most significant coordinate first.
pub uninterp spec fn verdict(
    engine: Engine,
    root: Seq<u64>,
    proof: Proof,
    point: Seq<u64>,
) -> Option<Option<u64>>;

/// Whether the outside library derives a configuration from these parameters.
pub uninterp spec fn config_accepts(
    num_variables: usize,
    security_level: usize,
    pow_bits: usize,
    folding: usize,
    assumption: Assumption,
    log_inv_rate: usize,
    round_rates: Seq<usize>,
) -> bool;

/// `FoldingFactor::Constant(folding).compute_number_of_rounds(num_variables)`,
/// its first component: the schedule folds `folding` variables at a time until
/// at most six are left, and every fold but the last is a round. It fails
/// exactly when the factor is zero or exceeds the number of variables.
#[verifier::external_body]
fn number_of_rounds(folding: usize, num_variables: usize) -> (r: Result<usize, FoldingFactorError>)
    ensures
        r is Ok <==> 0 < folding <= num_variables,
        r matches Ok(k) ==> k as int == (if num_variables <= folding + 6 {
            0
        } else {
            (num_variables - 7) / folding as int
        }),
{
    FoldingFactor::Constant(folding).compute_number_of_rounds(num_variables).map(|r| r.0)
}

/// `p3_whir::DEFAULT_MAX_POW`, which is sixteen.
#[verifier::external_body]
fn default_max_pow() -> (r: usize)
    ensures
        r == 16,
{
    p3_whir::DEFAULT_MAX_POW
}

/// `WhirConfig::new`, the error where it fails: whether it succeeds is a function
/// of the parameters. It panics on some schedules whose last folded domain outgrows
/// the two-adic subgroups of the field, so the schedule is that of an instance.
#[verifier::external_body]
fn check_config(
    num_variables: usize,
    security_level: usize,
    pow_bits: usize,
    folding: usize,
    assumption: Assumption,
    log_inv_rate: usize,
    rates: Vec<usize>,
) -> (r: Option<WhirConfigError>)
    requires
        folding == FOLDING,
        log_inv_rate == LOG_INV_RATE,
        FOLDING <= num_variables,
        num_variables + log_inv_rate < usize::BITS,
        rates@ == round_rates(num_variables as int),
    ensures
        r is None <==> config_accepts(
            num_variables,
            security_level,
            pow_bits,
            folding,
            assumption,
            log_inv_rate,
            rates@,
        ),
{
    let soundness_type = match assumption {
        Assumption::UniqueDecoding => Unique,
        Assumption::JohnsonBound => Johnson,
        Assumption::CapacityBound => Capacity,
    };
    let folding_factor = FoldingFactor::Constant(folding);
    let (starting_log_inv_rate, round_log_inv_rates) = (log_inv_rate, rates);
    let params = ProtocolParameters { security_level, pow_bits, folding_factor, soundness_type, starting_log_inv_rate, round_log_inv_rates };
    WhirConfig::<Ext, Base, Transcript>::new(num_variables, params).err()
}

/// `WhirProver::new` on the configuration of `WhirConfig::new`, with Merkle trees of
/// this cap height over the Poseidon2 permutation that `new_from_rng_128` draws from
/// a generator seeded with `seed`. The engine commits with the code and runs with
/// the security that the parameters name, and it is a function of them and of the
/// word size, which the generator's algorithm goes by. It panics when there is no
/// such configuration. A commitment is read as one root, so there is no cap.
#[verifier::external_body]
fn build_engine(
    num_variables: usize,
    security_level: usize,
    pow_bits: usize,
    folding: usize,
    assumption: Assumption,
    starting_log_inv_rate: usize,
    round_log_inv_rates: Vec<usize>,
    cap_height: usize,
    seed: u64,
) -> (r: Engine)
    requires
        folding == FOLDING,
        starting_log_inv_rate == LOG_INV_RATE,
        FOLDING <= num_variables,
        num_variables + starting_log_inv_rate < usize::BITS,
        round_log_inv_rates@ == round_rates(num_variables as int),
        config_accepts(
            num_variables,
            security_level,
            pow_bits,
            folding,
            assumption,
            starting_log_inv_rate,
            round_log_inv_rates@,
        ),
        cap_height == 0,
    ensures
        r == engine_from(engine_shape(r), engine_security(r), usize::BITS),
        engine_shape(r) == (Shape {
            num_variables: num_variables as nat,
            folding: folding as nat,
            log_inv_rate: starting_log_inv_rate as nat,
        }),
        engine_security(r) == (Security {
            level: security_level as nat,
            pow_bits: pow_bits as nat,
            assumption,
            round_rates: round_log_inv_rates@,
            cap_height: cap_height as nat,
            seed,
        }),
{
    let soundness_type = match assumption {
        Assumption::UniqueDecoding => Unique,
        Assumption::JohnsonBound => Johnson,
        Assumption::CapacityBound => Capacity,
    };
    let folding_factor = FoldingFactor::Constant(folding);
    let config = WhirConfig::new(num_variables, ProtocolParameters { security_level, pow_bits, folding_factor, soundness_type, starting_log_inv_rate, round_log_inv_rates }).unwrap();
    let perm = Perm::new_from_rng_128(&mut SmallRng::seed_from_u64(seed));
    let mmcs = Mmcs::new(Sponge::new(perm.clone()), Compress::new(perm.clone()), cap_height);
    let prover = Prover::new(config.clone(), Dft::new(1 << config.max_fft_size()), mmcs);
    let (mut separator, mut transcript) = (DomainSeparator::new(vec![]), Transcript::new(perm));
    prover.add_domain_separator::<8>(&mut separator);
    separator.observe_domain_separator(&mut transcript);
    Engine { prover, transcript }
}

/// `MultilinearPcs::commit` on a witness of one table with one column, under a
/// fresh transcript: the root is a function of the engine and the table, and
/// the held table has these evaluations. It panics unless the table has as many
/// variables as the engine was built for and at least as many as it folds.
#[verifier::external_body]
fn commit_table(engine: &Engine, evals: Vec<u64>, folding: usize) -> (r: ([u64; 8], HeldTable))
    requires
        evals@.len() == pow2(engine_shape(*engine).num_variables),
        folding == engine_shape(*engine).folding <= engine_shape(*engine).num_variables,
    ensures
        r.0@ == root_of(*engine, evals@),
        held_evals(r.1) == evals@,
        held_engine(r.1) == *engine,
{
    let mut transcript = engine.transcript.clone();
    let width = evals.len();
    let row = evals.into_iter().map(Base::new).collect();
    let table = Table::new(RowMajorMatrix::new(row, width));
    let witness = SuffixProver::<Base, Ext>::new_witness(vec![table], folding);
    let (cap, data) = MultilinearPcs::<Ext, Transcript>::commit(&engine.prover, witness, &mut transcript);
    (cap.roots()[0].map(|x| x.as_canonical_u64()), HeldTable { data })
}

/// `Clone` of `p3_whir::WhirProverData`: the copy holds the same table of the
/// same engine.
#[verifier::external_body]
fn clone_table(table: &HeldTable) -> (r: HeldTable)
    ensures
        held_evals(r) == held_evals(*table),
        held_engine(r) == held_engine(*table),
{
    HeldTable { data: table.data.clone() }
}

/// `PrescribedPointPcs::open_at` at one base-field point, most significant
/// coordinate first, under a fresh transcript: the value is the multilinear
/// extension of the held table at the point, and when the engine is the one
/// that committed to the table, the proof verifies against the table's root and
/// yields that value. The proof itself is not a function of the arguments. It
/// panics unless the point and the table have as many variables as the engine
/// was built for and the table was committed with the same code.
#[verifier::external_body]
fn open_table(
    engine: &Engine,
    table: HeldTable,
    num_variables: usize,
    point: Vec<u64>,
) -> (r: (Proof, u64))
    requires
        engine_shape(held_engine(table)) == engine_shape(*engine),
        num_variables == engine_shape(*engine).num_variables,
        point@.len() == num_variables,
    ensures
        r.1 as int == residue(mle(nums(held_evals(table)), nums(point@).reverse())),
        held_engine(table) == *engine ==> verdict(
            *engine,
            root_of(*engine, held_evals(table)),
            r.0,
            point@,
        ) == Some(Some(r.1)),
{
    let mut transcript = engine.transcript.clone();
    let spec = TableSpec::new(TableShape::new(num_variables, 1), vec![OpeningBatch::new(vec![0], vec![])]);
    let point = Point::new(point.into_iter().map(|c| Ext::from(Base::new(c))).collect());
    let proof = engine.prover.open_at(table.data, &Schedule::new(vec![spec]), &[point], &mut transcript);
    let opened: Option<Base> = proof.evals[0].current()[0].as_base();
    (Proof { proof }, opened.unwrap().as_canonical_u64())
}

/// `PrescribedPointPcs::verify_at` at one base-field point, most significant
/// coordinate first, under a fresh transcript: the result is a function of the
/// engine, the root, the proof and the point. It panics unless the point has as
/// many variables as the engine was built for.
#[verifier::external_body]
fn verify_table(
    engine: &Engine,
    root: &[u64; 8],
    proof: &Proof,
    num_variables: usize,
    point: Vec<u64>,
) -> (r: Result<Option<u64>, VerifierError>)
    requires
        num_variables == engine_shape(*engine).num_variables,
        point@.len() == num_variables,
    ensures
        r is Err <==> verdict(*engine, root@, *proof, point@) is None,
        r matches Ok(v) ==> verdict(*engine, root@, *proof, point@) == Some(v),
{
    let mut transcript = engine.transcript.clone();
    let spec = TableSpec::new(TableShape::new(num_variables, 1), vec![OpeningBatch::new(vec![0], vec![])]);
    let point = Point::new(point.into_iter().map(|c| Ext::from(Base::new(c))).collect());
    let root = vec![root.map(Base::new)].into();
    let evals = engine.prover.verify_at(&root, &proof.proof, &Schedule::new(vec![spec]), &[point], &mut transcript)?;
    let opened: Option<Base> = evals[0].current()[0].as_base();
    Ok(opened.map(|v| v.as_canonical_u64()))
}

/// The numbers of a sequence of machine words.
pub open spec fn nums(s: Seq<u64>) -> Seq<int> {
    Seq::new(s.len(), |i: int| s[i] as int)
}

/// The canonical words of a sequence of field values.
pub open spec fn words(s: Seq<int>) -> Seq<u64> {
    Seq::new(s.len(), |i: int| s[i] as u64)
}

/// How many variables every round folds.
pub const FOLDING: usize = 5;

/// The logarithm of the inverse rate of the first code.
pub const LOG_INV_RATE: usize = 1;

/// The cap height of the Merkle trees: a commitment is the root.
pub const CAP_HEIGHT: usize = 0;

/// The seed of the hash permutation.
pub const PERM_SEED: u64 = 1;

/// The security level, in bits, of a production instance.
pub const SECURITY_LEVEL: usize = 90;

/// The security level and the proof-of-work bits of a testing instance.
pub const TESTING_SECURITY_LEVEL: usize = 32;

pub const TESTING_POW_BITS: usize = 10;

/// The number of rounds after the first fold of `n` variables.
pub open spec fn round_count(n: int) -> int {
    if n <= FOLDING + 6 {
        0
    } else {
        (n - 7) / (FOLDING as int)
    }
}

/// The rate of every round: each fold of `FOLDING` variables halves the domain
/// once, so the rate drops by the other `FOLDING - 1`.
pub open spec fn round_rates(n: int) -> Seq<usize> {
    Seq::new(
        round_count(n) as nat,
        |i: int| (LOG_INV_RATE + (i + 1) * (FOLDING - 1)) as usize,
    )
}

/// The sizes and security parameters for which an instance can be built.
pub open spec fn supported(num_variables: usize, security_level: usize, pow_bits: usize) -> bool {
    &&& FOLDING <= num_variables
    &&& num_variables + LOG_INV_RATE < usize::BITS
    &&& config_accepts(
        num_variables,
        security_level,
        pow_bits,
        FOLDING,
        Assumption::CapacityBound,
        LOG_INV_RATE,
        round_rates(num_variables as int),
    )
}

/// The security parameters of an instance.
pub open spec fn security_of(
    num_variables: usize,
    security_level: usize,
    pow_bits: usize,
) -> Security {
    Security {
        level: security_level as nat,
        pow_bits: pow_bits as nat,
        assumption: Assumption::CapacityBound,
        round_rates: round_rates(num_variables as int),
        cap_height: CAP_HEIGHT as nat,
        seed: PERM_SEED,
    }
}

/// The engine of an instance.
pub open spec fn engine_of(
    num_variables: usize,
    security_level: usize,
    pow_bits: usize,
) -> Engine {
    engine_from(
        code_shape(num_variables as nat),
        security_of(num_variables, security_level, pow_bits),
        usize::BITS,
    )
}

/// The shape of the code of every instance for `n` variables.
pub open spec fn code_shape(n: nat) -> Shape {
    Shape { num_variables: n, folding: FOLDING as nat, log_inv_rate: LOG_INV_RATE as nat }
}

/// A table extended with zeros to `n` entries.
pub open spec fn zero_extended(table: Seq<int>, n: nat) -> Seq<int> {
    Seq::new(
        n,
        |i: int|
            if i < table.len() {
                table[i]
            } else {
                0
            },
    )
}

/// A binding commitment to one table: its Merkle root.
#[derive(Clone, Copy, Debug, PartialEq, Eq)]
pub struct Commitment {
    pub root: [u64; 8],
}

/// The public shape of an opening: one table with one column, opened at one
/// point of this many variables.
#[derive(Clone, Copy, Debug, PartialEq, Eq)]
pub struct OpeningProtocol {
    pub num_variables: usize,
}

/// The prover's half of a commitment.
pub struct ProverData {
    held: HeldTable,
    num_variables: usize,
}

impl ProverData {
    /// The committed table.
    pub closed spec fn table(&self) -> Seq<int> {
        nums(held_evals(self.held))
    }

    /// The number of variables of the committed table.
    pub closed spec fn vars(&self) -> nat {
        self.num_variables as nat
    }

    /// The engine that committed to the table.
    pub closed spec fn engine(&self) -> Engine {
        held_engine(self.held)
    }

    #[verifier::type_invariant]
    spec fn inv(self) -> bool {
        &&& engine_shape(held_engine(self.held)) == code_shape(self.num_variables as nat)
        &&& held_evals(self.held).len() == pow2(self.num_variables as nat)
    }
}

impl Clone for ProverData {
    fn clone(&self) -> (r: ProverData)
        ensures
            r.table() == self.table(),
            r.vars() == self.vars(),
            r.engine() == self.engine(),
    {
        proof {
            use_type_invariant(self);
        }
        ProverData { held: clone_table(&self.held), num_variables: self.num_variables }
    }
}

/// Why an opening did not verify.
#[derive(Clone, Copy, Debug, PartialEq, Eq)]
pub enum WhirError {
    /// The proof was rejected.
    Rejected,
    /// The proof opens to a value outside the base field.
    NotBaseField,
}

/// A WHIR PCS over Goldilocks configured for a single `2^num_variables` MLE.
pub struct Whir {
    engine: Engine,
    num_variables: usize,
}

impl Whir {
    /// The number of variables of the tables it commits to.
    pub closed spec fn vars(&self) -> nat {
        self.num_variables as nat
    }

    /// The outside engine.
    pub closed spec fn engine(&self) -> Engine {
        self.engine
    }

    #[verifier::type_invariant]
    spec fn inv(self) -> bool {
        &&& engine_shape(self.engine) == code_shape(self.num_variables as nat)
        &&& FOLDING <= self.num_variables
        &&& self.num_variables + LOG_INV_RATE < usize::BITS
    }

    /// The security parameters of the outside engine.
    pub open spec fn security(&self) -> Security {
        engine_security(self.engine())
    }

    /// The root of the commitment to a table of field values.
    pub open spec fn root(&self, table: Seq<int>) -> Seq<u64> {
        root_of(self.engine(), words(table))
    }

    /// What the verification of an opening at `point` yields.
    pub open spec fn opening(&self, root: Seq<u64>, proof: Proof, point: Seq<int>) -> Option<
        Option<u64>,
    > {
        verdict(self.engine(), root, proof, words(point).reverse())
    }

    /// Builds a WHIR instance sized for a single `2^num_variables` multilinear
    /// polynomial. Security parameters are PoC-grade (90-bit, default PoW).
    pub fn new(num_variables: usize) -> (r: Whir)
        requires
            supported(num_variables, SECURITY_LEVEL, 16),
        ensures
            r.vars() == num_variables,
            r.security() == security_of(num_variables, SECURITY_LEVEL, 16),
            r.engine() == engine_of(num_variables, SECURITY_LEVEL, 16),
            r.security().level == 90,
            r.security().pow_bits == 16,
            r.security().assumption is CapacityBound,
            r.security().cap_height == 0,
            r.security().seed == 1,
            engine_shape(r.engine()) == (Shape {
                num_variables: num_variables as nat,
                folding: 5,
                log_inv_rate: 1,
            }),
    {
        Self::with_params(num_variables, SECURITY_LEVEL, default_max_pow())
    }

    /// Fast, low-security instance for tests and local iteration. Do not use
    /// for anything that needs real soundness.
    pub fn new_testing(num_variables: usize) -> (r: Whir)
        requires
            supported(num_variables, TESTING_SECURITY_LEVEL, TESTING_POW_BITS),
        ensures
            r.vars() == num_variables,
            r.security() == security_of(num_variables, TESTING_SECURITY_LEVEL, TESTING_POW_BITS),
            r.engine() == engine_of(num_variables, TESTING_SECURITY_LEVEL, TESTING_POW_BITS),
            r.security().level == 32,
            r.security().pow_bits == 10,
            r.security().assumption is CapacityBound,
            r.security().cap_height == 0,
            r.security().seed == 1,
            engine_shape(r.engine()) == (Shape {
                num_variables: num_variables as nat,
                folding: 5,
                log_inv_rate: 1,
            }),
    {
        Self::with_params(num_variables, TESTING_SECURITY_LEVEL, TESTING_POW_BITS)
    }

    /// As [`Whir::new`], or nothing where there is no such instance.
    pub fn checked_new(num_variables: usize) -> (r: Option<Whir>)
        ensures
            r is Some <==> supported(num_variables, SECURITY_LEVEL, 16),
            r matches Some(w) ==> w.vars() == num_variables && w.security() == security_of(
                num_variables,
                SECURITY_LEVEL,
                16,
            ) && w.engine() == engine_of(num_variables, SECURITY_LEVEL, 16),
    {
        if is_supported(num_variables, SECURITY_LEVEL, default_max_pow()) {
            Some(Self::new(num_variables))
        } else {
            None
        }
    }

    /// As [`Whir::new_testing`], or nothing where there is no such instance.
    pub fn checked_new_testing(num_variables: usize) -> (r: Option<Whir>)
        ensures
            r is Some <==> supported(num_variables, TESTING_SECURITY_LEVEL, TESTING_POW_BITS),
            r matches Some(w) ==> w.vars() == num_variables && w.security() == security_of(
                num_variables,
                TESTING_SECURITY_LEVEL,
                TESTING_POW_BITS,
            ) && w.engine() == engine_of(
                num_variables,
                TESTING_SECURITY_LEVEL,
                TESTING_POW_BITS,
            ),
    {
        if is_supported(num_variables, TESTING_SECURITY_LEVEL, TESTING_POW_BITS) {
            Some(Self::new_testing(num_variables))
        } else {
            None
        }
    }

    fn with_params(num_variables: usize, security_level: usize, pow_bits: usize) -> (r: Whir)
        requires
            supported(num_variables, security_level, pow_bits),
        ensures
            r.vars() == num_variables,
            r.security() == security_of(num_variables, security_level, pow_bits),
            r.engine() == engine_of(num_variables, security_level, pow_bits),
            engine_shape(r.engine()) == code_shape(num_variables as nat),
    {
        let rates = rate_schedule(num_variables);
        let engine = build_engine(
            num_variables,
            security_level,
            pow_bits,
            FOLDING,
            Assumption::CapacityBound,
            LOG_INV_RATE,
            rates,
            CAP_HEIGHT,
            PERM_SEED,
        );
        Whir { engine, num_variables }
    }

    /// The number of variables of the tables it commits to.
    pub fn num_variables(&self) -> (n: usize)
        ensures
            n == self.vars(),
            FOLDING <= n,
            n + LOG_INV_RATE < usize::BITS,
    {
        proof {
            use_type_invariant(self);
        }
        self.num_variables
    }

    /// The lengths of the tables it commits to: that of its size, and for the smallest
    /// instance every smaller power of two.
    pub open spec fn takes(&self, len: nat) -> bool {
        &&& is_pow2(len)
        &&& len == pow2(self.vars()) || self.vars() == FOLDING && len <= pow2(self.vars())
    }

    /// Commits to a flat MLE. Returns the commitment, prover data, and the
    /// public opening protocol (single table, single column, one point) used
    /// for open/verify. A table of fewer variables than are folded at once is extended
    /// with zeros to that many.
    pub fn commit(&self, evals: &[Goldilocks]) -> (r: (Commitment, ProverData, OpeningProtocol))
        requires
            self.takes(evals@.len()),
        ensures
            r.0.root@ == self.root(zero_extended(ints(evals@), pow2(self.vars()))),
            r.1.table() == zero_extended(ints(evals@), pow2(self.vars())),
            evals@.len() == pow2(self.vars()) ==> zero_extended(ints(evals@), pow2(self.vars()))
                == ints(evals@),
            r.1.vars() == self.vars(),
            r.1.engine() == self.engine(),
            r.2.num_variables == self.vars(),
    {
        proof {
            use_type_invariant(self);
        }
        let ghost table = zero_extended(ints(evals@), pow2(self.vars()));
        let mut plain = canonical_words(evals);
        if self.num_variables == FOLDING {
            proof {
                vstd::arithmetic::power2::lemma2_to64();
            }
            plain = extend_words(plain, pow2_usize(FOLDING));
        }
        assert(plain@ =~= words(table));
        let (root, held) = commit_table(&self.engine, plain, FOLDING);
        assert(nums(held_evals(held)) =~= table) by {
            broadcast use group_residue;

            assert forall|i: int| 0 <= i < table.len() implies #[trigger] nums(held_evals(held))[i]
                == table[i] by {
                assert(plain@[i] == words(table)[i]);
                if i < evals@.len() {
                    assert(0 <= evals@[i]@ < crate::field::P);
                }
            }
        }
        assert(evals@.len() == pow2(self.vars()) ==> table =~= ints(evals@));
        let num_variables: usize = self.num_variables;
        (
            Commitment { root },
            ProverData { held, num_variables },
            OpeningProtocol { num_variables },
        )
    }

    /// Opens the committed MLE at `point` (base-field coordinates) and returns
    /// the opening proof together with the claimed evaluation.
    pub fn open(
        &self,
        prover_data: ProverData,
        protocol: &OpeningProtocol,
        point: &[Goldilocks],
    ) -> (r: (Proof, Goldilocks))
        requires
            prover_data.vars() == self.vars(),
            protocol.num_variables == self.vars(),
            point@.len() == self.vars(),
        ensures
            prover_data.table().len() == pow2(self.vars()),
            r.1@ == residue(mle(prover_data.table(), ints(point@))),
            prover_data.engine() == self.engine() ==> self.opening(
                root_of(self.engine(), words(prover_data.table())),
                r.0,
                ints(point@),
            ) == Some(Some(r.1@ as u64)),
    {
        proof {
            use_type_invariant(self);
            use_type_invariant(&prover_data);
        }
        let big_endian = to_big_endian(point);
        let ghost held = prover_data.held;
        let (proof, value) = open_table(
            &self.engine,
            prover_data.held,
            protocol.num_variables,
            big_endian,
        );
        proof {
            lemma_reverse_words(ints(point@), big_endian@);
            broadcast use group_residue;

            assert(words(nums(held_evals(held))) =~= held_evals(held));
            assert(nums(big_endian@).reverse() =~= ints(point@)) by {
                assert forall|i: int| 0 <= i < point@.len() implies #[trigger] nums(
                    big_endian@,
                ).reverse()[i] == ints(point@)[i] by {
                    assert(0 <= point@[i]@ < crate::field::P);
                }
            }
            crate::field::lemma_residue_small(value as int);
        }
        (proof, Goldilocks::from_u64(value))
    }

    /// Verifies the opening proof at `point` and returns the opened evaluation.
    pub fn verify(
        &self,
        commitment: &Commitment,
        proof: &Proof,
        protocol: &OpeningProtocol,
        point: &[Goldilocks],
    ) -> (r: Result<Goldilocks, WhirError>)
        requires
            protocol.num_variables == self.vars(),
            point@.len() == self.vars(),
        ensures
            match self.opening(commitment.root@, *proof, ints(point@)) {
                None => r == Err::<Goldilocks, WhirError>(WhirError::Rejected),
                Some(None) => r == Err::<Goldilocks, WhirError>(WhirError::NotBaseField),
                Some(Some(v)) => r is Ok && r->Ok_0@ == residue(v as int),
            },
    {
        proof {
            use_type_invariant(self);
        }
        let big_endian = to_big_endian(point);
        proof {
            lemma_reverse_words(ints(point@), big_endian@);
        }
        match verify_table(
            &self.engine,
            &commitment.root,
            proof,
            protocol.num_variables,
            big_endian,
        ) {
            Ok(Some(v)) => Ok(Goldilocks::from_u64(v)),
            Ok(None) => Err(WhirError::NotBaseField),
            Err(_) => Err(WhirError::Rejected),
        }
    }
}

/// The rate of every round after the first fold.
pub fn rate_schedule(num_variables: usize) -> (rates: Vec<usize>)
    requires
        FOLDING <= num_variables,
        num_variables + LOG_INV_RATE < usize::BITS,
    ensures
        rates@ == round_rates(num_variables as int),
{
    let mut rates: Vec<usize> = Vec::new();
    let num_rounds: usize = match number_of_rounds(FOLDING, num_variables) {
        Ok(k) => k,
        Err(_) => 0,
    };
    assert(num_rounds == round_count(num_variables as int) <= 64);
    let mut rate: usize = LOG_INV_RATE;
    for round in 0..num_rounds
        invariant
            num_rounds == round_count(num_variables as int) <= 64,
            rate == 1 + 4 * round,
            rates@.len() == round,
            forall|i: int| 0 <= i < round ==> #[trigger] rates@[i] == round_rates(
                num_variables as int,
            )[i],
    {
        rate = rate + (FOLDING - 1);
        assert((round + 1) * (FOLDING - 1) == 4 * (round + 1)) by (nonlinear_arith)
            requires
                FOLDING == 5,
        ;
        rates.push(rate);
    }
    assert(rates@ =~= round_rates(num_variables as int));
    rates
}

/// Whether an instance with these parameters can be built.
fn is_supported(num_variables: usize, security_level: usize, pow_bits: usize) -> (r: bool)
    ensures
        r == supported(num_variables, security_level, pow_bits),
{
    if num_variables < FOLDING || num_variables >= usize::BITS as usize - LOG_INV_RATE {
        return false;
    }
    let rates = rate_schedule(num_variables);
    check_config(
        num_variables,
        security_level,
        pow_bits,
        FOLDING,
        Assumption::CapacityBound,
        LOG_INV_RATE,
        rates,
    ).is_none()
}

/// Extends a table with zeros to `n` words.
fn extend_words(table: Vec<u64>, n: usize) -> (r: Vec<u64>)
    requires
        table@.len() <= n,
    ensures
        r@.len() == n,
        forall|i: int|
            0 <= i < n ==> #[trigger] r@[i] == (if i < table@.len() {
                table@[i]
            } else {
                0
            }),
{
    let ghost t = table@;
    let mut r: Vec<u64> = table;
    while r.len() < n
        invariant
            t.len() <= r@.len() <= n,
            forall|i: int|
                0 <= i < r@.len() ==> #[trigger] r@[i] == (if i < t.len() {
                    t[i]
                } else {
                    0
                }),
        decreases n - r@.len(),
    {
        r.push(0);
    }
    r
}

/// The canonical words of a slice of elements.
fn canonical_words(v: &[Goldilocks]) -> (r: Vec<u64>)
    ensures
        r@ == words(ints(v@)),
{
    let mut r: Vec<u64> = Vec::new();
    for i in 0..v.len()
        invariant
            r@.len() == i,
            forall|k: int| 0 <= k < i ==> #[trigger] r@[k] == words(ints(v@))[k],
    {
        r.push(v[i].as_canonical_u64());
    }
    assert(r@ =~= words(ints(v@)));
    r
}

/// The coordinates of a point, most significant first.
///
/// The tables here are indexed with coordinate 0 as the least significant bit,
/// while the outside polynomials have coordinate 0 as the most significant one.
/// Reversing reconciles the two orderings at the commitment boundary.
fn to_big_endian(point: &[Goldilocks]) -> (r: Vec<u64>)
    ensures
        r@ == words(ints(point@)).reverse(),
{
    let n: usize = point.len();
    let mut r: Vec<u64> = Vec::new();
    for i in 0..n
        invariant
            n == point@.len(),
            r@.len() == i,
            forall|k: int| 0 <= k < i ==> #[trigger] r@[k] == words(ints(point@)).reverse()[k],
    {
        r.push(point[n - 1 - i].as_canonical_u64());
    }
    assert(r@ =~= words(ints(point@)).reverse());
    r
}

proof fn lemma_reverse_words(point: Seq<int>, r: Seq<u64>)
    requires
        r == words(point).reverse(),
    ensures
        r.len() == point.len(),
        r.reverse() == words(point),
{
    assert(r.reverse() =~= words(point));
}

/// Two instances built for the same number of variables and the same security
/// commit to a table with the same root, and judge every opening alike.
pub proof fn lemma_same_instance(
    a: Whir,
    b: Whir,
    num_variables: usize,
    security_level: usize,
    pow_bits: usize,
    table: Seq<int>,
    root: Seq<u64>,
    proof: Proof,
    point: Seq<int>,
)
    requires
        a.engine() == engine_of(num_variables, security_level, pow_bits),
        b.engine() == engine_of(num_variables, security_level, pow_bits),
    ensures
        a.root(table) == b.root(table),
        a.opening(root, proof, point) == b.opening(root, proof, point),
{
}

/// A table extended with zeros keeps its entries and has zeros behind them.
pub proof fn lemma_zero_extended(table: Seq<int>, n: nat, i: int)
    requires
        table.len() <= n,
        0 <= i < n,
    ensures
        zero_extended(table, n).len() == n,
        i < table.len() ==> zero_extended(table, n)[i] == table[i],
        i >= table.len() ==> zero_extended(table, n)[i] == 0,
{
}

/// An instance takes tables of its own size, and the smallest instance every smaller power
/// of two; nothing else.
pub proof fn lemma_takes(whir: Whir, len: nat)
    ensures
        whir.takes(pow2(whir.vars())),
        whir.vars() == 5 && is_pow2(len) && len <= 32 ==> whir.takes(len),
        whir.takes(len) ==> is_pow2(len) && (len == pow2(whir.vars()) || whir.vars() == 5 && len
            <= 32),
{
    vstd::arithmetic::power2::lemma2_to64();
    assert(is_pow2(pow2(whir.vars())));
}

/// The rates of the rounds: they start four above the first rate and grow by four, and the
/// folds of five variables stop as soon as at most six are left.
pub proof fn lemma_round_rates(n: int, i: int)
    requires
        FOLDING <= n < 64,
    ensures
        ({
            let rates = round_rates(n);
            let k = rates.len();
            &&& n - 5 * (k + 1) <= 6
            &&& k > 0 ==> n - 5 * k > 6
            &&& k > 0 ==> rates[0] == 5
            &&& 0 < i < k ==> rates[i] == rates[i - 1] + 4
        }),
{
    if 0 <= i {
        assert((i + 1) * (FOLDING - 1) == 4 * (i + 1)) by (nonlinear_arith)
            requires
                FOLDING == 5,
        ;
        assert(((i - 1) + 1) * (FOLDING - 1) == 4 * i) by (nonlinear_arith)
            requires
                FOLDING == 5,
        ;
    }
    assert((0 + 1) * (FOLDING - 1) == 4) by (nonlinear_arith)
        requires
            FOLDING == 5,
    ;
}

/// There is an instance for every size from the folding factor on whose domain fits a
/// machine word and for which the outside library derives a configuration.
pub proof fn lemma_supported(num_variables: usize, security_level: usize, pow_bits: usize)
    ensures
        supported(num_variables, security_level, pow_bits) <==> {
            &&& 5 <= num_variables
            &&& num_variables + 1 < usize::BITS
            &&& config_accepts(
                num_variables,
                security_level,
                pow_bits,
                5,
                Assumption::CapacityBound,
                1,
                round_rates(num_variables as int),
            )
        },
{
}

} // verus!
