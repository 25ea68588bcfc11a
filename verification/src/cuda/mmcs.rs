//! A Merkle commitment to the rows of a batch of matrices: Poseidon2-16 leaf hashing,
//! truncated-permutation compression, arity 2, digests of eight elements.
//!
//! The host commits, opens and verifies here. Where there is a device, it can fill
//! the digest layers of a single matrix in the arena that the scheme holds; the
//! scheme says when a commitment goes there and when it is left to the host. The tree
//! itself is Plonky3's. What is trusted of it is stated on the functions marked
//! `external_body`.

use super::buffer::{Allocation, CudaBuffer};
use super::dft::elements;
use super::merkle::{
    arena_words, commit_calls, layer_lens, lemma_layer_at, CommitAction, CommitPlan,
};
use super::CUDART_OK;
use crate::field::{ints, residue, Goldilocks, P};
use crate::integers::is_pow2;
use crate::whir::{nums, words};
use p3_commit::{BatchOpeningRef, Mmcs};
use p3_field::{Field, PrimeField64};
use p3_goldilocks::{Goldilocks as Base, Poseidon2Goldilocks};
use p3_matrix::dense::RowMajorMatrix;
use p3_matrix::Dimensions;
use p3_merkle_tree::{MerkleTree, MerkleTreeError, MerkleTreeMmcs};
use p3_symmetric::{MerkleCap, PaddingFreeSponge, TruncatedPermutation};
use rand::rngs::SmallRng;
use rand::SeedableRng;
use vstd::arithmetic::power2::{lemma_pow2_pos, pow2};
use vstd::prelude::*;

verus! {

type Perm = Poseidon2Goldilocks<16>;

type Sponge = PaddingFreeSponge<Perm, 16, 8, 8>;

type Compress = TruncatedPermutation<Perm, 2, 8, 16>;

type Packed = <Base as Field>::Packing;

type Tree = MerkleTreeMmcs<Packed, Packed, Sponge, Compress, 2, 8>;

/// The outside commitment scheme, `p3_merkle_tree::MerkleTreeMmcs` with its hash
/// permutation. The bounds on the outside types keep them from being declared to
/// the verifier on their own.
#[verifier::external_body]
pub struct HostTrees {
    mmcs: Tree,
}

/// A committed batch of matrices with its digest layers,
/// `p3_merkle_tree::MerkleTree`.
#[verifier::external_body]
pub struct HeldBatch {
    tree: MerkleTree<Base, Base, RowMajorMatrix<Base>, 2, 8>,
}

#[verifier::external_type_specification]
#[verifier::external_body]
pub struct ExMerkleTreeError(MerkleTreeError);

/// The scheme over the permutation from this seed, on a machine with words of this
/// many bits, on which the generator behind the permutation depends.
pub uninterp spec fn trees_from(seed: u64, word_bits: u32, cap_height: nat) -> HostTrees;

/// How far below the root the digests lie that the scheme commits with.
pub uninterp spec fn trees_cap_height(trees: HostTrees) -> nat;

/// The committed matrices, each with its entries row by row and its width.
pub uninterp spec fn held_matrices(batch: HeldBatch) -> Seq<(Seq<u64>, nat)>;

/// The scheme that committed to a batch.
pub uninterp spec fn held_trees(batch: HeldBatch) -> HostTrees;

/// The digests that a scheme commits to a batch with.
pub uninterp spec fn cap_of(trees: HostTrees, batch: Seq<(Seq<u64>, nat)>) -> Seq<[u64; 8]>;

/// The sibling digests on the way from an index up to a cap of this height, in the
/// tree that a scheme built over the batch.
pub uninterp spec fn path_of(
    builder: HostTrees,
    batch: Seq<(Seq<u64>, nat)>,
    index: nat,
    cap_height: nat,
) -> Seq<[u64; 8]>;

/// Whether the digest computed from the rows of matrices of these heights and their
/// siblings is in the cap.
pub uninterp spec fn in_cap(
    trees: HostTrees,
    cap: Seq<[u64; 8]>,
    heights: Seq<int>,
    index: nat,
    rows: Seq<Seq<u64>>,
    path: Seq<[u64; 8]>,
) -> bool;

/// Which of the failures an outside error is.
pub uninterp spec fn failure_of(error: MerkleTreeError) -> RowError;

/// Why opened rows did not verify.
#[derive(Clone, Copy, Debug, PartialEq, Eq)]
pub enum RowError {
    /// There is not one row for each matrix.
    WrongBatchSize,
    /// No matrix has any rows.
    EmptyBatch,
    /// The matrices do not fit into one tree.
    IncompatibleHeights,
    /// The path does not have one sibling for each layer below the cap.
    WrongHeight,
    /// A row does not have the width of its matrix.
    WrongWidth,
    /// There is no such index.
    IndexOutOfBounds,
    /// The digest of the rows is not in the cap.
    CapMismatch,
    /// The siblings of several openings together are malformed.
    MalformedPrunedProof,
}

/// The smaller of two numbers.
pub open spec fn least(a: int, b: int) -> int {
    if a < b {
        a
    } else {
        b
    }
}

/// How many layers a tree over `h` rows has above the leaves.
pub open spec fn tree_depth(h: int) -> int {
    layer_lens(h).len() - 1
}

/// How many of them the cap cuts off.
pub open spec fn cut(h: int, cap_height: int) -> int {
    least(cap_height, tree_depth(h))
}

/// The number of digests in the cap of a tree over `h` rows: a full binary layer,
/// or the whole layer where that is shorter.
pub open spec fn cap_len(h: int, cap_height: int) -> int {
    let c = cut(h, cap_height);
    least(pow2(c as nat) as int, layer_lens(h)[tree_depth(h) - c])
}

/// The heights of the matrices of a batch.
pub open spec fn heights<T>(batch: Seq<(Seq<T>, nat)>) -> Seq<int> {
    Seq::new(batch.len(), |i: int| batch[i].0.len() as int / batch[i].1 as int)
}

/// The greatest of some heights, zero if there are none.
pub open spec fn tallest(heights: Seq<int>) -> int
    decreases heights.len(),
{
    if heights.len() == 0 {
        0
    } else {
        let rest = tallest(heights.drop_last());
        if rest < heights.last() {
            heights.last()
        } else {
            rest
        }
    }
}

/// The least `k` with `2^k >= h`.
pub open spec fn ceil_log(h: int) -> nat
    decreases h,
{
    if h <= 1 {
        0
    } else {
        1 + ceil_log((h + 1) / 2)
    }
}

/// How many layers above the leaves of a tree over `max` rows a matrix of height `h`
/// enters it.
pub open spec fn entry_layer(max: int, h: int) -> nat {
    (ceil_log(max) - ceil_log(h)) as nat
}

/// Matrices that fit into one tree: each has as many rows as there are nodes in the
/// layer where it enters, half as many, rounded up, in each layer as in the one below.
pub open spec fn one_tree(heights: Seq<int>) -> bool {
    let max = tallest(heights);
    &&& max > 0
    &&& forall|i: int|
        0 <= i < heights.len() ==> #[trigger] heights[i] == (max - 1) / (pow2(
            entry_layer(max, heights[i]),
        ) as int) + 1
}

/// A batch that can be committed to: whole rows, in one tree.
pub open spec fn well_shaped<T>(batch: Seq<(Seq<T>, nat)>) -> bool {
    &&& forall|i: int|
        0 <= i < batch.len() ==> (#[trigger] batch[i]).1 > 0 && batch[i].0.len() as int
            % batch[i].1 as int == 0
    &&& one_tree(heights(batch))
}

/// The row of matrix `i` that an index of the tree opens.
pub open spec fn row_index<T>(batch: Seq<(Seq<T>, nat)>, i: int, index: int) -> int {
    index / (pow2(entry_layer(tallest(heights(batch)), heights(batch)[i])) as int)
}

/// What the verification of opened rows yields for matrices of these heights and
/// widths, once it is known whether the digest of the rows is in the cap.
pub open spec fn batch_result(
    cap_height: int,
    heights: Seq<int>,
    widths: Seq<int>,
    index: int,
    rows: Seq<Seq<u64>>,
    path: int,
    found: bool,
) -> Result<(), RowError> {
    let max = tallest(heights);
    if rows.len() != heights.len() {
        Err(RowError::WrongBatchSize)
    } else if max <= 0 {
        Err(RowError::EmptyBatch)
    } else if !one_tree(heights) {
        Err(RowError::IncompatibleHeights)
    } else if path != tree_depth(max) - cut(max, cap_height) {
        Err(RowError::WrongHeight)
    } else if exists|i: int| 0 <= i < rows.len() && (#[trigger] rows[i]).len() != widths[i] {
        Err(RowError::WrongWidth)
    } else if index >= max {
        Err(RowError::IndexOutOfBounds)
    } else if !found {
        Err(RowError::CapMismatch)
    } else {
        Ok(())
    }
}

/// The models of some matrices of machine words.
pub open spec fn models(batch: Seq<(Vec<u64>, usize)>) -> Seq<(Seq<u64>, nat)> {
    Seq::new(batch.len(), |i: int| (batch[i].0@, batch[i].1 as nat))
}

/// The contents of some vectors of machine words.
pub open spec fn contents(rows: Seq<Vec<u64>>) -> Seq<Seq<u64>> {
    Seq::new(rows.len(), |i: int| rows[i]@)
}

/// The first component of every dimension, the heights.
pub open spec fn claimed_heights(dims: Seq<(usize, usize)>) -> Seq<int> {
    Seq::new(dims.len(), |i: int| dims[i].0 as int)
}

/// The second component of every dimension, the widths.
pub open spec fn claimed_widths(dims: Seq<(usize, usize)>) -> Seq<int> {
    Seq::new(dims.len(), |i: int| dims[i].1 as int)
}

/// `MerkleTreeMmcs::new` over the Poseidon2 permutation that `new_from_rng_128`
/// draws from a generator seeded with `seed`: the scheme has this cap height, and it
/// is a function of the seed, the cap height and the word size, which the
/// generator's algorithm goes by.
#[verifier::external_body]
fn build_trees(seed: u64, cap_height: usize) -> (r: HostTrees)
    ensures
        trees_cap_height(r) == cap_height,
        r == trees_from(seed, usize::BITS, cap_height as nat),
{
    let perm = Perm::new_from_rng_128(&mut SmallRng::seed_from_u64(seed));
    HostTrees { mmcs: Tree::new(Sponge::new(perm.clone()), Compress::new(perm), cap_height) }
}

/// `MerkleTreeMmcs::cap_height`.
#[verifier::external_body]
fn cap_height_of(trees: &HostTrees) -> (r: usize)
    ensures
        r == trees_cap_height(*trees),
{
    trees.mmcs.cap_height()
}

/// `Mmcs::commit`: the cap is a function of the scheme and the matrices, and the tree
/// holds them. It panics on matrices that do not fit into one tree, and where the
/// number of digests in the cap is not a power of two.
#[verifier::external_body]
fn commit_matrices(trees: &HostTrees, batch: Vec<(Vec<u64>, usize)>) -> (r: (
    Vec<[u64; 8]>,
    HeldBatch,
))
    requires
        well_shaped(models(batch@)),
        is_pow2(
            cap_len(
                tallest(heights(models(batch@))),
                trees_cap_height(*trees) as int,
            ) as nat,
        ),
    ensures
        r.0@ == cap_of(*trees, models(batch@)),
        held_matrices(r.1) == models(batch@),
        held_trees(r.1) == *trees,
{
    let base = |values: Vec<u64>| values.into_iter().map(Base::new).collect();
    let inputs = batch.into_iter().map(|m| RowMajorMatrix::new(base(m.0), m.1));
    let (cap, tree) = trees.mmcs.commit(inputs.collect());
    let roots = cap.into_roots().into_iter();
    (roots.map(|d| d.map(|v| v.as_canonical_u64())).collect(), HeldBatch { tree })
}

/// `Mmcs::open_batch`: of each matrix the row that the index opens, in canonical
/// form, and the path, which is read out of the tree and so is a function of the
/// scheme that built it, the matrices, the index and the cap height of the scheme that
/// opens. The path has one sibling for each layer below the cap. When the scheme is
/// the one that committed to the batch, the digest computed from the rows and the
/// path is in the cap. It panics beyond the last row of the tallest matrix.
#[verifier::external_body]
fn open_rows(trees: &HostTrees, batch: &HeldBatch, index: usize) -> (r: (
    Vec<Vec<u64>>,
    Vec<[u64; 8]>,
))
    requires
        well_shaped(held_matrices(*batch)),
        index < tallest(heights(held_matrices(*batch))),
    ensures
        r.0@.len() == held_matrices(*batch).len(),
        forall|i: int|
            0 <= i < r.0@.len() ==> (#[trigger] r.0@[i])@.len() == held_matrices(*batch)[i].1,
        forall|i: int, j: int|
            0 <= i < r.0@.len() && 0 <= j < r.0@[i]@.len() ==> #[trigger] r.0@[i]@[j] as int
                == held_matrices(*batch)[i].0[row_index(held_matrices(*batch), i, index as int)
                * held_matrices(*batch)[i].1 + j] as int % (P as int),
        r.1@ == path_of(
            held_trees(*batch),
            held_matrices(*batch),
            index as nat,
            trees_cap_height(*trees),
        ),
        r.1@.len() == ({
            let h = tallest(heights(held_matrices(*batch)));
            tree_depth(h) - cut(h, trees_cap_height(*trees) as int)
        }),
        held_trees(*batch) == *trees ==> in_cap(
            *trees,
            cap_of(*trees, held_matrices(*batch)),
            heights(held_matrices(*batch)),
            index as nat,
            contents(r.0@),
            r.1@,
        ),
{
    let opening = trees.mmcs.open_batch(index, &batch.tree);
    let words = |row: &Vec<Base>| row.iter().map(|v| v.as_canonical_u64()).collect();
    let rows = opening.opened_values.iter().map(words);
    let path = opening.opening_proof.iter().map(|d| d.map(|v| v.as_canonical_u64()));
    (rows.collect(), path.collect())
}

/// `Mmcs::get_matrices`: the entries of each matrix in canonical form.
#[verifier::external_body]
fn matrix_words(trees: &HostTrees, batch: &HeldBatch) -> (r: Vec<Vec<u64>>)
    ensures
        r@.len() == held_matrices(*batch).len(),
        forall|i: int|
            0 <= i < r@.len() ==> (#[trigger] r@[i])@.len() == held_matrices(*batch)[i].0.len(),
        forall|i: int, j: int|
            0 <= i < r@.len() && 0 <= j < r@[i]@.len() ==> #[trigger] r@[i]@[j] as int
                == held_matrices(*batch)[i].0[j] as int % (P as int),
{
    let matrices = trees.mmcs.get_matrices(&batch.tree).into_iter();
    matrices.map(|m| m.values.iter().map(|v| v.as_canonical_u64()).collect()).collect()
}

/// The variants of `p3_merkle_tree::MerkleTreeError`, one for one.
#[verifier::external_body]
fn failure(error: MerkleTreeError) -> (r: RowError)
    ensures
        r == failure_of(error),
{
    match error {
        MerkleTreeError::WrongBatchSize => RowError::WrongBatchSize,
        MerkleTreeError::EmptyBatch => RowError::EmptyBatch,
        MerkleTreeError::IncompatibleHeights { .. } => RowError::IncompatibleHeights,
        MerkleTreeError::WrongHeight { .. } => RowError::WrongHeight,
        MerkleTreeError::WrongWidth { .. } => RowError::WrongWidth,
        MerkleTreeError::IndexOutOfBounds { .. } => RowError::IndexOutOfBounds,
        MerkleTreeError::CapMismatch => RowError::CapMismatch,
        MerkleTreeError::MalformedPrunedProof(_) => RowError::MalformedPrunedProof,
    }
}

/// `Mmcs::verify_batch` for one index: it checks the shapes in the order of
/// [`batch_result`], and then whether the digest computed from the rows and the path
/// is in the cap; an error is that of the first check that fails. It panics on a cap
/// whose length is not a power of two, and on a height beyond the largest power of two
/// of a machine word.
#[verifier::external_body]
fn verify_rows(
    trees: &HostTrees,
    cap: &Vec<[u64; 8]>,
    dims: &Vec<(usize, usize)>,
    index: usize,
    rows: &Vec<Vec<u64>>,
    path: &Vec<[u64; 8]>,
) -> (r: Result<(), MerkleTreeError>)
    requires
        is_pow2(cap@.len()),
        forall|i: int| 0 <= i < dims@.len() ==> (#[trigger] dims@[i]).0 <= usize::MAX / 2 + 1,
    ensures
        (match r {
            Ok(_) => Ok::<(), RowError>(()),
            Err(e) => Err::<(), RowError>(failure_of(e)),
        }) == batch_result(
            trees_cap_height(*trees) as int,
            claimed_heights(dims@),
            claimed_widths(dims@),
            index as int,
            contents(rows@),
            path@.len() as int,
            in_cap(
                *trees,
                cap@,
                claimed_heights(dims@),
                index as nat,
                contents(rows@),
                path@,
            ),
        ),
{
    let digest = |d: &[u64; 8]| d.map(Base::new);
    let cap = MerkleCap::new(cap.iter().map(digest).collect());
    let path = path.iter().map(digest).collect();
    let rows: Vec<_> = rows.iter().map(|r| r.iter().map(|&v| Base::new(v)).collect()).collect();
    let dims: Vec<_> = dims.iter().map(|&(height, width)| Dimensions { width, height }).collect();
    trees.mmcs.verify_batch(&cap, &dims, index, BatchOpeningRef::new(&rows, &path))
}

/// The seed of the hash permutation.
pub const PERM_SEED: u64 = 1;

/// The words of a fresh device arena.
pub const ARENA_WORDS: usize = 1048576;

/// A matrix of field values, row by row.
#[derive(Clone, Debug)]
pub struct DenseMatrix {
    pub values: Vec<Goldilocks>,
    pub width: usize,
}

/// The matrices with their entries as numbers.
pub open spec fn number_models(batch: Seq<DenseMatrix>) -> Seq<(Seq<int>, nat)> {
    Seq::new(batch.len(), |i: int| (ints(batch[i].values@), batch[i].width as nat))
}

/// The same matrices with their entries as machine words.
pub open spec fn word_models(batch: Seq<(Seq<int>, nat)>) -> Seq<(Seq<u64>, nat)> {
    Seq::new(batch.len(), |i: int| (words(batch[i].0), batch[i].1))
}

/// The canonical words of some rows of elements.
pub open spec fn row_words(rows: Seq<Vec<Goldilocks>>) -> Seq<Seq<u64>> {
    Seq::new(rows.len(), |i: int| words(ints(rows[i]@)))
}

/// A committed batch of matrices, the prover's half of a commitment.
pub struct MatrixData {
    held: HeldBatch,
}

impl MatrixData {
    /// The matrices, each with its entries row by row and its width.
    pub closed spec fn matrices(&self) -> Seq<(Seq<int>, nat)> {
        let held = held_matrices(self.held);
        Seq::new(held.len(), |i: int| (nums(held[i].0), held[i].1))
    }

    /// The number of rows of the tallest matrix.
    pub open spec fn height(&self) -> int {
        tallest(heights(self.matrices()))
    }

    /// The scheme that committed to the matrices.
    pub closed spec fn trees(&self) -> HostTrees {
        held_trees(self.held)
    }

    #[verifier::type_invariant]
    spec fn inv(self) -> bool {
        &&& well_shaped(held_matrices(self.held))
        &&& forall|i: int, j: int|
            0 <= i < held_matrices(self.held).len() && 0 <= j < held_matrices(
                self.held,
            )[i].0.len() ==> #[trigger] held_matrices(self.held)[i].0[j] < P
    }
}

/// The rows of a committed batch that an index opens, with their sibling digests.
#[derive(Clone, Debug)]
pub struct BatchOpening {
    pub rows: Vec<Vec<Goldilocks>>,
    pub path: Vec<[u64; 8]>,
}

/// The Merkle commitment scheme, with the arena of a device where there is one.
pub struct CudaMerkleTreeMmcs {
    fallback: HostTrees,
    arena: Option<CudaBuffer>,
}

impl CudaMerkleTreeMmcs {
    /// The scheme that the host commits with.
    pub closed spec fn trees(&self) -> HostTrees {
        self.fallback
    }

    /// The device arena, if there is one.
    pub closed spec fn device(&self) -> Option<CudaBuffer> {
        self.arena
    }

    /// The digests that commit to matrices of field values.
    pub open spec fn cap(&self, matrices: Seq<(Seq<int>, nat)>) -> Seq<[u64; 8]> {
        cap_of(self.trees(), word_models(matrices))
    }

    /// The scheme with the given cap height. It has an arena for the digest layers
    /// that a device fills, of [`ARENA_WORDS`] words, when the upload of the round
    /// constants came back with success and the memory was to be had.
    pub fn new(cap_height: usize, upload: i32, arena: Allocation) -> (r: CudaMerkleTreeMmcs)
        ensures
            trees_cap_height(r.trees()) == cap_height,
            r.trees() == trees_from(PERM_SEED, usize::BITS, cap_height as nat),
            r.device() is Some <==> upload == CUDART_OK && arena.succeeded(),
            r.device() matches Some(b) ==> b.words() == ARENA_WORDS && b.addr() == arena.ptr,
    {
        let fallback = build_trees(PERM_SEED, cap_height);
        let arena = if upload == CUDART_OK {
            CudaBuffer::new(ARENA_WORDS, arena)
        } else {
            None
        };
        CudaMerkleTreeMmcs { fallback, arena }
    }

    pub fn cap_height(&self) -> (r: usize)
        ensures
            r == trees_cap_height(self.trees()),
    {
        cap_height_of(&self.fallback)
    }

    /// Whether there is a device to fill the digest layers of a single matrix.
    pub fn is_cuda(&self) -> (r: bool)
        ensures
            r == (self.device() is Some),
    {
        self.arena.is_some()
    }

    /// The device address of the arena.
    pub fn arena_ptr(&self) -> (r: Option<u64>)
        ensures
            r == (match self.device() {
                None => None,
                Some(b) => Some(b.addr()),
            }),
    {
        match &self.arena {
            None => None,
            Some(arena) => Some(arena.ptr()),
        }
    }

    /// What a commitment on a device starts with: its first call, or memory for an
    /// arena that is large enough. Without a device the host commits.
    pub fn begin(&self, plan: &CommitPlan) -> (r: CommitAction)
        ensures
            r == first_action(self.device(), plan.height(), plan.columns()),
    {
        match &self.arena {
            None => CommitAction::Host,
            Some(arena) => match arena.growth(plan.arena()) {
                None => CommitAction::Call(plan.first()),
                Some(bytes) => CommitAction::Allocate { bytes },
            },
        }
    }

    /// What follows on the reply to the request for a larger arena. Where the memory
    /// was not to be had, the arena stays as it was, and the host commits.
    pub fn grow(&mut self, plan: &CommitPlan, memory: Allocation) -> (r: CommitAction)
        ensures
            final(self).trees() == old(self).trees(),
            match old(self).device() {
                None => r == CommitAction::Host && final(self).device() is None,
                Some(b) => {
                    let size = arena_words(plan.height(), plan.columns());
                    if size <= b.words() {
                        &&& r == CommitAction::Call(
                            commit_calls(plan.height(), plan.columns())[0],
                        )
                        &&& final(self).device() == Some(b)
                    } else if memory.succeeded() {
                        &&& r == CommitAction::Call(
                            commit_calls(plan.height(), plan.columns())[0],
                        )
                        &&& final(self).device() matches Some(a) && a.words() == size && a.addr()
                            == memory.ptr
                    } else {
                        &&& r == CommitAction::Host
                        &&& final(self).device() == Some(b)
                    }
                },
            },
    {
        let mut held: Option<CudaBuffer> = None;
        core::mem::swap(&mut held, &mut self.arena);
        match held {
            None => CommitAction::Host,
            Some(mut arena) => {
                let grown = arena.grow(plan.arena(), memory);
                self.arena = Some(arena);
                match grown {
                    None => CommitAction::Host,
                    Some(_) => CommitAction::Call(plan.first()),
                }
            },
        }
    }

    /// Commits on the host to the rows of a batch of matrices.
    pub fn commit(&self, inputs: &Vec<DenseMatrix>) -> (r: (Vec<[u64; 8]>, MatrixData))
        requires
            well_shaped(number_models(inputs@)),
            is_pow2(
                cap_len(
                    tallest(heights(number_models(inputs@))),
                    trees_cap_height(self.trees()) as int,
                ) as nat,
            ),
        ensures
            r.0@ == self.cap(number_models(inputs@)),
            r.1.matrices() == number_models(inputs@),
            r.1.trees() == self.trees(),
    {
        let mut plain: Vec<(Vec<u64>, usize)> = Vec::new();
        let ghost models_wanted = word_models(number_models(inputs@));
        for i in 0..inputs.len()
            invariant
                models_wanted == word_models(number_models(inputs@)),
                plain@.len() == i,
                forall|k: int|
                    0 <= k < i ==> (#[trigger] plain@[k]).0@ == models_wanted[k].0 && plain@[k].1
                        == models_wanted[k].1,
        {
            plain.push((canonical(&inputs[i].values), inputs[i].width));
        }
        proof {
            assert(models(plain@) =~= models_wanted);
            lemma_models(number_models(inputs@));
            assert forall|i: int, j: int|
                0 <= i < models_wanted.len() && 0 <= j < models_wanted[i].0.len() implies
                #[trigger] models_wanted[i].0[j] < P && models_wanted[i].0[j] as int
                == number_models(inputs@)[i].0[j] by {
                crate::field::lemma_view_canonical(inputs@[i].values@[j]);
            }
        }
        let (cap, held) = commit_matrices(&self.fallback, plain);
        let r = MatrixData { held };
        proof {
            assert forall|i: int| 0 <= i < inputs@.len() implies #[trigger] r.matrices()[i]
                == number_models(inputs@)[i] by {
                assert(r.matrices()[i].0 =~= number_models(inputs@)[i].0) by {
                    assert forall|j: int| 0 <= j < inputs@[i].values@.len() implies #[trigger] nums(
                        models_wanted[i].0,
                    )[j] == number_models(inputs@)[i].0[j] by {
                        assert(models_wanted[i].0[j] < P);
                    }
                }
            }
            assert(r.matrices() =~= number_models(inputs@));
        }
        (cap, r)
    }

    /// Commits on the host to the rows of a matrix of the given width.
    pub fn commit_matrix(&self, values: Vec<Goldilocks>, width: usize) -> (r: (
        Vec<[u64; 8]>,
        MatrixData,
    ))
        requires
            width > 0,
            values@.len() >= width,
            values@.len() as int % width as int == 0,
            is_pow2(
                cap_len(
                    values@.len() as int / width as int,
                    trees_cap_height(self.trees()) as int,
                ) as nat,
            ),
        ensures
            r.0@ == self.cap(seq![(ints(values@), width as nat)]),
            r.1.matrices() == seq![(ints(values@), width as nat)],
            r.1.height() == values@.len() as int / width as int,
            r.1.trees() == self.trees(),
    {
        let ghost one = seq![(ints(values@), width as nat)];
        let mut inputs: Vec<DenseMatrix> = Vec::new();
        inputs.push(DenseMatrix { values, width });
        proof {
            assert(number_models(inputs@) =~= one);
            lemma_one_matrix(one);
        }
        self.commit(&inputs)
    }

    /// Opens the rows of a committed batch at an index of its tallest matrix.
    pub fn open_batch(&self, index: usize, data: &MatrixData) -> (r: BatchOpening)
        requires
            index < data.height(),
        ensures
            r.rows@.len() == data.matrices().len(),
            forall|i: int|
                0 <= i < r.rows@.len() ==> ints((#[trigger] r.rows@[i])@) == ({
                    let q = row_index(data.matrices(), i, index as int);
                    let w = data.matrices()[i].1;
                    data.matrices()[i].0.subrange(q * w, (q + 1) * w)
                }),
            r.path@ == path_of(
                data.trees(),
                word_models(data.matrices()),
                index as nat,
                trees_cap_height(self.trees()),
            ),
            r.path@.len() == tree_depth(data.height()) - cut(
                data.height(),
                trees_cap_height(self.trees()) as int,
            ),
            data.trees() == self.trees() ==> in_cap(
                self.trees(),
                self.cap(data.matrices()),
                heights(data.matrices()),
                index as nat,
                row_words(r.rows@),
                r.path@,
            ),
    {
        proof {
            use_type_invariant(data);
            lemma_data(*data);
        }
        let ghost held = held_matrices(data.held);
        let (plain, path) = open_rows(&self.fallback, &data.held, index);
        let mut rows: Vec<Vec<Goldilocks>> = Vec::new();
        for i in 0..plain.len()
            invariant
                rows@.len() == i,
                forall|k: int|
                    0 <= k < i ==> (#[trigger] rows@[k])@.len() == plain@[k]@.len(),
                forall|k: int, j: int|
                    0 <= k < i && 0 <= j < plain@[k]@.len() ==> (#[trigger] rows@[k]@[j])@
                        == residue(plain@[k]@[j] as int),
        {
            rows.push(elements(&plain[i]));
        }
        proof {
            assert forall|i: int| 0 <= i < rows@.len() implies ints((#[trigger] rows@[i])@) == ({
                let q = row_index(data.matrices(), i, index as int);
                let w = data.matrices()[i].1;
                data.matrices()[i].0.subrange(q * w, (q + 1) * w)
            }) && words(ints(rows@[i]@)) == plain@[i]@ by {
                let q = row_index(held, i, index as int);
                let w = held[i].1;
                lemma_row_index(held, i, index as int);
                lemma_row_inside(held[i].0.len() as int, w as int, q);
                assert forall|j: int| 0 <= j < w implies ints(rows@[i]@)[j]
                    == #[trigger] held[i].0[q * w + j] && plain@[i]@[j] == held[i].0[q * w + j] by {
                    vstd::arithmetic::div_mod::lemma_small_mod(
                        held[i].0[q * w + j] as nat,
                        P as nat,
                    );
                    assert(plain@[i]@[j] as int == held[i].0[q * w + j] as int % (P as int));
                    assert(rows@[i]@[j]@ == residue(plain@[i]@[j] as int));
                    crate::field::lemma_residue_small(plain@[i]@[j] as int);
                }
                let want = data.matrices()[i].0.subrange(q * w, (q + 1) * w);
                assert forall|j: int| 0 <= j < w implies ints(rows@[i]@)[j] == #[trigger] want[j] by {
                    assert(ints(rows@[i]@)[j] == held[i].0[q * w + j]);
                }
                assert(ints(rows@[i]@) =~= want);
                assert forall|j: int| 0 <= j < w implies #[trigger] words(ints(rows@[i]@))[j]
                    == plain@[i]@[j] by {
                    assert(ints(rows@[i]@)[j] == held[i].0[q * w + j]);
                }
                assert(words(ints(rows@[i]@)) =~= plain@[i]@);
            }
            assert(row_words(rows@) =~= contents(plain@));
        }
        BatchOpening { rows, path }
    }

    /// The entries of the committed matrices.
    pub fn get_matrices(&self, data: &MatrixData) -> (r: Vec<Vec<Goldilocks>>)
        ensures
            r@.len() == data.matrices().len(),
            forall|i: int|
                0 <= i < r@.len() ==> ints((#[trigger] r@[i])@) == data.matrices()[i].0,
    {
        proof {
            use_type_invariant(data);
        }
        let ghost held = held_matrices(data.held);
        let plain = matrix_words(&self.fallback, &data.held);
        let mut r: Vec<Vec<Goldilocks>> = Vec::new();
        for i in 0..plain.len()
            invariant
                r@.len() == i,
                forall|k: int| 0 <= k < i ==> (#[trigger] r@[k])@.len() == plain@[k]@.len(),
                forall|k: int, j: int|
                    0 <= k < i && 0 <= j < plain@[k]@.len() ==> (#[trigger] r@[k]@[j])@ == residue(
                        plain@[k]@[j] as int,
                    ),
        {
            r.push(elements(&plain[i]));
        }
        assert forall|i: int| 0 <= i < r@.len() implies ints((#[trigger] r@[i])@)
            == data.matrices()[i].0 by {
            assert forall|j: int| 0 <= j < held[i].0.len() implies ints(r@[i]@)[j]
                == #[trigger] data.matrices()[i].0[j] by {
                assert(held[i].0[j] < P);
                vstd::arithmetic::div_mod::lemma_small_mod(held[i].0[j] as nat, P as nat);
                assert(plain@[i]@[j] as int == held[i].0[j] as int % (P as int));
                assert(r@[i]@[j]@ == residue(plain@[i]@[j] as int));
                crate::field::lemma_residue_small(plain@[i]@[j] as int);
            }
            assert(ints(r@[i]@) =~= data.matrices()[i].0);
        }
        r
    }

    /// Verifies opened rows of matrices of these heights and widths against a cap.
    pub fn verify_batch(
        &self,
        cap: &Vec<[u64; 8]>,
        dims: &Vec<(usize, usize)>,
        index: usize,
        opening: &BatchOpening,
    ) -> (r: Result<(), RowError>)
        requires
            is_pow2(cap@.len()),
            forall|i: int| 0 <= i < dims@.len() ==> (#[trigger] dims@[i]).0 <= usize::MAX / 2 + 1,
        ensures
            r == batch_result(
                trees_cap_height(self.trees()) as int,
                claimed_heights(dims@),
                claimed_widths(dims@),
                index as int,
                row_words(opening.rows@),
                opening.path@.len() as int,
                in_cap(
                    self.trees(),
                    cap@,
                    claimed_heights(dims@),
                    index as nat,
                    row_words(opening.rows@),
                    opening.path@,
                ),
            ),
    {
        let mut rows: Vec<Vec<u64>> = Vec::new();
        for i in 0..opening.rows.len()
            invariant
                rows@.len() == i,
                forall|k: int|
                    0 <= k < i ==> (#[trigger] rows@[k])@ == words(ints(opening.rows@[k]@)),
        {
            rows.push(canonical(&opening.rows[i]));
        }
        assert(contents(rows@) =~= row_words(opening.rows@));
        match verify_rows(&self.fallback, cap, dims, index, &rows, &opening.path) {
            Ok(()) => Ok(()),
            Err(error) => Err(failure(error)),
        }
    }
}

/// What a commitment on a device starts with.
pub open spec fn first_action(device: Option<CudaBuffer>, h: int, w: int) -> CommitAction {
    match device {
        None => CommitAction::Host,
        Some(b) => if arena_words(h, w) <= b.words() {
            CommitAction::Call(commit_calls(h, w)[0])
        } else {
            CommitAction::Allocate { bytes: (arena_words(h, w) * 8) as usize }
        },
    }
}

/// The canonical words of a slice of elements.
fn canonical(values: &[Goldilocks]) -> (r: Vec<u64>)
    ensures
        r@ == words(ints(values@)),
{
    let mut r: Vec<u64> = Vec::new();
    for i in 0..values.len()
        invariant
            r@.len() == i,
            forall|k: int| 0 <= k < i ==> #[trigger] r@[k] == words(ints(values@))[k],
    {
        r.push(values[i].as_canonical_u64());
    }
    assert(r@ =~= words(ints(values@)));
    r
}

/// Turning entries into machine words keeps the shapes.
proof fn lemma_models(batch: Seq<(Seq<int>, nat)>)
    ensures
        heights(word_models(batch)) == heights(batch),
        well_shaped(batch) ==> well_shaped(word_models(batch)),
{
    let wm = word_models(batch);
    assert(heights(wm) =~= heights(batch));
    if well_shaped(batch) {
        assert forall|i: int| 0 <= i < wm.len() implies (#[trigger] wm[i]).1 > 0
            && wm[i].0.len() as int % wm[i].1 as int == 0 by {
            assert(batch[i].1 > 0);
        }
    }
}

/// The matrices of a committed batch are those that the tree holds.
proof fn lemma_data(data: MatrixData)
    ensures
        word_models(data.matrices()) == held_matrices(data.held),
        heights(data.matrices()) == heights(held_matrices(data.held)),
{
    let held = held_matrices(data.held);
    assert forall|i: int| 0 <= i < held.len() implies #[trigger] word_models(data.matrices())[i]
        == held[i] by {
        assert(words(nums(held[i].0)) =~= held[i].0);
    }
    assert(word_models(data.matrices()) =~= held);
    lemma_models(data.matrices());
}

/// A single matrix with rows fits into its tree.
proof fn lemma_one_matrix<T>(one: Seq<(Seq<T>, nat)>)
    requires
        one.len() == 1,
        one[0].1 > 0,
        one[0].0.len() >= one[0].1,
        one[0].0.len() as int % one[0].1 as int == 0,
    ensures
        well_shaped(one),
        tallest(heights(one)) == one[0].0.len() as int / one[0].1 as int,
{
    let hs = heights(one);
    let (len, w) = (one[0].0.len() as int, one[0].1 as int);
    vstd::arithmetic::div_mod::lemma_fundamental_div_mod(len, w);
    assert(len / w >= 1) by (nonlinear_arith)
        requires
            len == w * (len / w),
            len >= w > 0,
    ;
    assert(hs.drop_last().len() == 0);
    assert(tallest(hs) == hs[0]) by {
        assert(tallest(hs.drop_last()) == 0);
    }
    let h = hs[0];
    assert(entry_layer(h, h) == 0);
    vstd::arithmetic::power2::lemma2_to64();
    vstd::arithmetic::div_mod::lemma_div_basics(h - 1);
    assert(one_tree(hs));
    assert forall|i: int| 0 <= i < one.len() implies (#[trigger] one[i]).1 > 0
        && one[i].0.len() as int % one[i].1 as int == 0 by {
        assert(i == 0);
    }
}

/// The row that an index of the tree opens is one of the matrix.
proof fn lemma_row_index<T>(batch: Seq<(Seq<T>, nat)>, i: int, index: int)
    requires
        well_shaped(batch),
        0 <= i < batch.len(),
        0 <= index < tallest(heights(batch)),
    ensures
        0 <= row_index(batch, i, index) < batch[i].0.len() as int / batch[i].1 as int,
{
    let hs = heights(batch);
    let max = tallest(hs);
    let k = entry_layer(max, hs[i]);
    lemma_pow2_pos(k);
    vstd::arithmetic::div_mod::lemma_div_is_ordered(index, max - 1, pow2(k) as int);
    vstd::arithmetic::div_mod::lemma_div_pos_is_pos(index, pow2(k) as int);
    assert(hs[i] == (max - 1) / (pow2(k) as int) + 1);
}

/// A row lies inside its matrix.
proof fn lemma_row_inside(len: int, w: int, index: int)
    requires
        w > 0,
        len >= 0,
        0 <= index < len / w,
    ensures
        0 <= index * w,
        (index + 1) * w == index * w + w <= len,
{
    vstd::arithmetic::div_mod::lemma_fundamental_div_mod(len, w);
    let q = len / w;
    assert(0 <= index * w && (index + 1) * w == index * w + w && index * w + w <= q * w)
        by (nonlinear_arith)
        requires
            w > 0,
            0 <= index < q,
    ;
    assert(w * q == q * w) by (nonlinear_arith);
}

/// Opening and then verifying succeeds: the rows that a scheme opens of a batch are
/// accepted against the cap that it committed to the batch with.
pub proof fn lemma_open_verifies(
    trees: HostTrees,
    matrices: Seq<(Seq<int>, nat)>,
    dims: Seq<(usize, usize)>,
    index: nat,
    rows: Seq<Seq<u64>>,
    path: Seq<[u64; 8]>,
)
    requires
        well_shaped(matrices),
        index < tallest(heights(matrices)),
        claimed_heights(dims) == heights(matrices),
        rows.len() == matrices.len(),
        forall|i: int|
            0 <= i < rows.len() ==> (#[trigger] rows[i]).len() == matrices[i].1 == dims[i].1,
        path.len() == tree_depth(tallest(heights(matrices))) - cut(
            tallest(heights(matrices)),
            trees_cap_height(trees) as int,
        ),
        in_cap(
            trees,
            cap_of(trees, word_models(matrices)),
            heights(matrices),
            index,
            rows,
            path,
        ),
    ensures
        batch_result(
            trees_cap_height(trees) as int,
            claimed_heights(dims),
            claimed_widths(dims),
            index as int,
            rows,
            path.len() as int,
            in_cap(
                trees,
                cap_of(trees, word_models(matrices)),
                claimed_heights(dims),
                index,
                rows,
                path,
            ),
        ) == Ok::<(), RowError>(()),
{
    assert(claimed_heights(dims).len() == dims.len());
}

/// Two instances of one cap height commit to every batch of matrices alike, and judge
/// all opened rows alike, whether or not either of them has a device.
pub proof fn lemma_same_commitment(
    a: CudaMerkleTreeMmcs,
    b: CudaMerkleTreeMmcs,
    cap_height: usize,
    matrices: Seq<(Seq<int>, nat)>,
    cap: Seq<[u64; 8]>,
    heights: Seq<int>,
    index: nat,
    rows: Seq<Seq<u64>>,
    path: Seq<[u64; 8]>,
)
    requires
        a.trees() == trees_from(PERM_SEED, usize::BITS, cap_height as nat),
        b.trees() == trees_from(PERM_SEED, usize::BITS, cap_height as nat),
    ensures
        a.cap(matrices) == b.cap(matrices),
        in_cap(a.trees(), cap, heights, index, rows, path) == in_cap(
            b.trees(),
            cap,
            heights,
            index,
            rows,
            path,
        ),
{
}

/// With cap height zero the cap is the root alone.
pub proof fn lemma_root_cap(h: int)
    requires
        h >= 1,
    ensures
        cap_len(h, 0) == 1,
        is_pow2(1),
{
    super::merkle::lemma_some_layer(h);
    lemma_layer_at(h, tree_depth(h));
    vstd::arithmetic::power2::lemma2_to64();
    assert(pow2(0) == 1);
}

/// A commitment on a device starts with the copy of the matrix where the arena has room for
/// the matrix and all layers, with a request for just that room where it has not, and
/// without a device it is the host's.
pub proof fn lemma_first_action(device: Option<CudaBuffer>, h: int, w: int)
    requires
        h >= 1,
        w >= 1,
        arena_words(h, w) * 8 <= usize::MAX,
    ensures
        device is None ==> first_action(device, h, w) is Host,
        device matches Some(b) && b.words() >= arena_words(h, w) ==> first_action(device, h, w)
            == CommitAction::Call(super::merkle::DeviceCall::CopyIn { words: (h * w) as usize }),
        device matches Some(b) && b.words() < arena_words(h, w) ==> first_action(device, h, w)
            == (CommitAction::Allocate { bytes: (8 * arena_words(h, w)) as usize }),
{
    super::merkle::lemma_leaf_calls(h, w);
    super::merkle::lemma_arena_bound(h, w);
}

/// The number of halvings after which a matrix of height `h` enters a tree: `2^k` is the
/// least power of two that is at least the height.
pub proof fn lemma_ceil_log(h: int)
    requires
        h >= 1,
    ensures
        h <= pow2(ceil_log(h)),
        ceil_log(h) > 0 ==> pow2((ceil_log(h) - 1) as nat) < h,
    decreases h,
{
    vstd::arithmetic::power2::lemma2_to64();
    if h > 1 {
        let k = ceil_log(h);
        lemma_ceil_log((h + 1) / 2);
        vstd::arithmetic::power2::lemma_pow2_unfold(k);
        if k > 1 {
            vstd::arithmetic::power2::lemma_pow2_unfold((k - 1) as nat);
        }
    }
}

/// The tallest height is one of the heights, and none exceeds it.
pub proof fn lemma_tallest(heights: Seq<int>, i: int)
    requires
        0 <= i < heights.len(),
        forall|j: int| 0 <= j < heights.len() ==> 0 <= #[trigger] heights[j],
    ensures
        heights[i] <= tallest(heights),
        exists|j: int| 0 <= j < heights.len() && #[trigger] heights[j] == tallest(heights),
    decreases heights.len(),
{
    let rest = heights.drop_last();
    if rest.len() == 0 {
        assert(heights[0] == tallest(heights)) by {
            assert(tallest(rest) == 0);
        }
    } else {
        let k = if i < rest.len() { i } else { 0 };
        lemma_tallest(rest, k);
        let j = choose|j: int| 0 <= j < rest.len() && #[trigger] rest[j] == tallest(rest);
        assert(heights[j] == rest[j]);
        assert(heights[heights.len() - 1] == heights.last());
        if i < rest.len() {
            assert(heights[i] == rest[i]);
        }
    }
}

} // verus!
