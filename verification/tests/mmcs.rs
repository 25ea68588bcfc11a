//! The Merkle commitments of the library against an explicit tree with the same
//! configuration (Poseidon2-16, PaddingFreeSponge leaf, TruncatedPermutation
//! compression, arity 2, digest 8).

use p3_commit::Mmcs;
use p3_field::{Field, PrimeField64};
use p3_goldilocks::{Goldilocks as Base, Poseidon2Goldilocks};
use p3_matrix::dense::RowMajorMatrix;
use p3_merkle_tree::MerkleTreeMmcs;
use p3_symmetric::{PaddingFreeSponge, TruncatedPermutation};
use rand::distr::StandardUniform;
use rand::rngs::SmallRng;
use rand::{RngExt, SeedableRng};
use zkie::cuda::buffer::Allocation;
use zkie::cuda::merkle::{CommitAction, CommitPlan, DeviceCall};
use zkie::cuda::mmcs::{BatchOpening, CudaMerkleTreeMmcs, DenseMatrix, RowError, ARENA_WORDS};
use zkie::field::Goldilocks;

type Perm = Poseidon2Goldilocks<16>;
type MerkleHash = PaddingFreeSponge<Perm, 16, 8, 8>;
type MerkleCompress = TruncatedPermutation<Perm, 2, 8, 16>;
type Packed = <Base as Field>::Packing;
type CpuMerkleTreeMmcs = MerkleTreeMmcs<Packed, Packed, MerkleHash, MerkleCompress, 2, 8>;

const NO_MEMORY: Allocation = Allocation { code: 1, ptr: 0 };

fn build_mmcs(cap_height: usize) -> (CudaMerkleTreeMmcs, CpuMerkleTreeMmcs) {
    let perm = Perm::new_from_rng_128(&mut SmallRng::seed_from_u64(1));
    let hash = MerkleHash::new(perm.clone());
    let compress = MerkleCompress::new(perm);
    (
        CudaMerkleTreeMmcs::new(cap_height, 1, NO_MEMORY),
        CpuMerkleTreeMmcs::new(hash, compress, cap_height),
    )
}

fn to_elements(values: &[Base]) -> Vec<Goldilocks> {
    values.iter().map(|v| Goldilocks::from_u64(v.as_canonical_u64())).collect()
}

#[test]
fn commit_root_matches_cpu() {
    let (mmcs, cpu) = build_mmcs(0);
    let mut rng = SmallRng::seed_from_u64(0xfeedface);
    for h in [1usize, 2, 3, 5, 7, 8, 9, 16, 33, 100, 256, 1024] {
        for w in [1usize, 8, 16, 32, 64, 100] {
            let values: Vec<Base> =
                (&mut rng).sample_iter(StandardUniform).take(h * w).collect();
            let (cap, _) = mmcs.commit_matrix(to_elements(&values), w);
            let (cpu_cap, _) = cpu.commit_matrix(RowMajorMatrix::new(values, w));
            let cpu_cap: Vec<[u64; 8]> =
                cpu_cap.roots().iter().map(|d| d.map(|v| v.as_canonical_u64())).collect();
            assert_eq!(cap, cpu_cap, "commit mismatch at {h} x {w}");
        }
    }
}

#[test]
fn open_verify_roundtrip_on_gpu_tree() {
    let (mmcs, _cpu) = build_mmcs(0);
    let mut rng = SmallRng::seed_from_u64(0x77);
    let h = 512usize;
    let w = 32usize;
    let values: Vec<Base> = (&mut rng).sample_iter(StandardUniform).take(h * w).collect();
    let values = to_elements(&values);
    let (cap, data) = mmcs.commit_matrix(values.clone(), w);

    let index = 42usize;
    let opening = mmcs.open_batch(index, &data);
    let dims = vec![(h, w)];
    assert_eq!(mmcs.verify_batch(&cap, &dims, index, &opening), Ok(()));

    // And the opened row must equal the committed matrix's row.
    let matrices = mmcs.get_matrices(&data);
    assert_eq!(matrices, vec![values]);
    assert_eq!(opening.rows[0], matrices[0][index * w..(index + 1) * w].to_vec());
}

#[test]
fn every_row_opens_at_every_height() {
    let mut rng = SmallRng::seed_from_u64(0x78);
    for (cap_height, h) in [(0usize, 1usize), (0, 3), (0, 5), (1, 6), (2, 9), (3, 16), (9, 4)] {
        let (mmcs, _cpu) = build_mmcs(cap_height);
        assert_eq!(mmcs.cap_height(), cap_height);
        let values: Vec<Base> = (&mut rng).sample_iter(StandardUniform).take(h * 3).collect();
        let (cap, data) = mmcs.commit_matrix(to_elements(&values), 3);
        let depth = CommitPlan::new(h * 3, 3).unwrap().layers().len() - 1;
        for index in 0..h {
            let opening = mmcs.open_batch(index, &data);
            assert_eq!(opening.path.len(), depth - cap_height.min(depth));
            assert_eq!(mmcs.verify_batch(&cap, &vec![(h, 3)], index, &opening), Ok(()));
        }
    }
}

#[test]
fn instances_commit_alike_with_and_without_a_device() {
    let values: Vec<Goldilocks> = (0..30u64).map(Goldilocks::from_u64).collect();
    let host = CudaMerkleTreeMmcs::new(0, 1, NO_MEMORY);
    let device = CudaMerkleTreeMmcs::new(0, 0, Allocation { code: 0, ptr: 0x1000 });
    let (cap, data) = host.commit_matrix(values.clone(), 3);
    assert_eq!(cap, device.commit_matrix(values, 3).0);
    let opening = host.open_batch(7, &data);
    assert_eq!(device.verify_batch(&cap, &vec![(10, 3)], 7, &opening), Ok(()));
}

#[test]
fn a_batch_commits_as_on_the_host() {
    let mut rng = SmallRng::seed_from_u64(0x79);
    // Every height is on the ladder of the tallest one: 7, 4, 2, 1.
    let shapes = [(4usize, 5usize), (7, 3), (1, 2), (4, 1), (7, 9), (2, 8)];
    for cap_height in [0usize, 1] {
        let (mmcs, cpu) = build_mmcs(cap_height);
        let mut inputs = Vec::new();
        let mut cpu_inputs = Vec::new();
        for (h, w) in shapes {
            let values: Vec<Base> =
                (&mut rng).sample_iter(StandardUniform).take(h * w).collect();
            inputs.push(DenseMatrix { values: to_elements(&values), width: w });
            cpu_inputs.push(RowMajorMatrix::new(values, w));
        }
        let (cap, data) = mmcs.commit(&inputs);
        let (cpu_cap, _) = cpu.commit(cpu_inputs);
        let cpu_cap: Vec<[u64; 8]> =
            cpu_cap.roots().iter().map(|d| d.map(|v| v.as_canonical_u64())).collect();
        assert_eq!(cap, cpu_cap);
        let matrices = mmcs.get_matrices(&data);
        for (matrix, input) in matrices.iter().zip(&inputs) {
            assert_eq!(matrix, &input.values);
        }
        for index in 0..7usize {
            let opening = mmcs.open_batch(index, &data);
            assert_eq!(mmcs.verify_batch(&cap, &shapes.to_vec(), index, &opening), Ok(()));
            let rows = [index / 2, index, index / 8, index / 2, index, index / 4];
            for (i, (_, w)) in shapes.into_iter().enumerate() {
                let at = rows[i] * w;
                assert_eq!(opening.rows[i], inputs[i].values[at..at + w].to_vec());
            }
            let mut bad = opening.clone();
            bad.rows[0][1] = bad.rows[0][1] + Goldilocks::one();
            assert_eq!(
                mmcs.verify_batch(&cap, &shapes.to_vec(), index, &bad),
                Err(RowError::CapMismatch)
            );
        }
    }
}

#[test]
fn wrong_openings_are_rejected() {
    let (mmcs, _cpu) = build_mmcs(0);
    let values: Vec<Goldilocks> = (0..24u64).map(Goldilocks::from_u64).collect();
    let (cap, data) = mmcs.commit_matrix(values, 3);
    let good = mmcs.open_batch(5, &data);
    let verify = |dims: &[(usize, usize)], index: usize, opening: &BatchOpening| {
        mmcs.verify_batch(&cap, &dims.to_vec(), index, opening)
    };
    assert_eq!(verify(&[(8, 3)], 5, &good), Ok(()));
    assert_eq!(verify(&[(8, 3)], 4, &good), Err(RowError::CapMismatch));
    assert_eq!(verify(&[(8, 3)], 8, &good), Err(RowError::IndexOutOfBounds));
    assert_eq!(verify(&[(8, 4)], 5, &good), Err(RowError::WrongWidth));
    assert_eq!(verify(&[(16, 3)], 5, &good), Err(RowError::WrongHeight));
    assert_eq!(verify(&[(0, 3)], 5, &good), Err(RowError::EmptyBatch));
    assert_eq!(verify(&[(8, 3), (8, 3)], 5, &good), Err(RowError::WrongBatchSize));
    let mut two = good.clone();
    two.rows.push(good.rows[0].clone());
    assert_eq!(verify(&[(8, 3), (5, 3)], 5, &two), Err(RowError::IncompatibleHeights));
    let none = BatchOpening { rows: vec![], path: vec![] };
    assert_eq!(verify(&[], 0, &none), Err(RowError::EmptyBatch));
    let mut bad = good.clone();
    bad.rows[0][0] = bad.rows[0][0] + Goldilocks::one();
    assert_eq!(verify(&[(8, 3)], 5, &bad), Err(RowError::CapMismatch));
    let mut bad = good.clone();
    bad.path[1][0] ^= 1;
    assert_eq!(verify(&[(8, 3)], 5, &bad), Err(RowError::CapMismatch));
}

#[test]
fn a_commitment_starts_where_there_is_room() {
    let plan = CommitPlan::new(30, 3).unwrap();
    let mut host = CudaMerkleTreeMmcs::new(0, 1, NO_MEMORY);
    assert_eq!(host.begin(&plan), CommitAction::Host);
    assert_eq!(host.grow(&plan, Allocation { code: 0, ptr: 0x9000 }), CommitAction::Host);
    assert_eq!(host.arena_ptr(), None);
    let mut device = CudaMerkleTreeMmcs::new(0, 0, Allocation { code: 0, ptr: 0x1000 });
    let first = CommitAction::Call(DeviceCall::CopyIn { words: 30 });
    assert_eq!(device.begin(&plan), first);
    assert_eq!(device.grow(&plan, NO_MEMORY), first);
    // A matrix as large as the arena leaves no room for its digests.
    let plan = CommitPlan::new(ARENA_WORDS, 64).unwrap();
    let bytes = 8 * plan.arena();
    assert_eq!(device.begin(&plan), CommitAction::Allocate { bytes });
    assert_eq!(device.grow(&plan, NO_MEMORY), CommitAction::Host);
    assert_eq!(device.arena_ptr(), Some(0x1000));
    let first = CommitAction::Call(DeviceCall::CopyIn { words: ARENA_WORDS });
    assert_eq!(device.grow(&plan, Allocation { code: 0, ptr: 0x2000 }), first);
    assert_eq!(device.arena_ptr(), Some(0x2000));
    assert_eq!(device.begin(&plan), first);
}

#[test]
fn a_device_needs_its_constants_and_its_arena() {
    let memory = Allocation { code: 0, ptr: 0x1000 };
    assert!(CudaMerkleTreeMmcs::new(0, 0, memory).is_cuda());
    assert!(!CudaMerkleTreeMmcs::new(0, 7, memory).is_cuda());
    assert!(!CudaMerkleTreeMmcs::new(0, 0, NO_MEMORY).is_cuda());
}
