//! The device plans, and the host computations that stand in for a device.

use p3_dft::{NaiveDft, Radix2DFTSmallBatch, TwoAdicSubgroupDft};
use p3_field::{PrimeField64, TwoAdicField};
use p3_goldilocks::Goldilocks as Base;
use p3_matrix::dense::RowMajorMatrix;
use rand::distr::StandardUniform;
use rand::rngs::SmallRng;
use rand::{RngExt, SeedableRng};
use zkie::cuda::buffer::{Allocation, CudaBuffer};
use zkie::cuda::dft::{make_twiddles, CudaDft, DftAction, SLOT, TABLE_WORDS, WORK_WORDS};
use zkie::cuda::merkle::{
    clamped_cap, commits_on_device, derive_poseidon2_constants, device_constants, digests,
    flatten, padded_len, CommitAction, CommitPlan, DeviceCall,
};
use zkie::cuda::{cuda_available, use_cuda};
use zkie::field::{Goldilocks, P};

const NO_MEMORY: Allocation = Allocation { code: 2, ptr: 0 };

fn memory(ptr: u64) -> Allocation {
    Allocation { code: 0, ptr }
}

fn random_matrix(lg: usize, w: usize, rng: &mut SmallRng) -> RowMajorMatrix<Base> {
    let h = 1 << lg;
    let values: Vec<Base> = rng.sample_iter(StandardUniform).take(h * w).collect();
    RowMajorMatrix::new(values, w)
}

fn to_elements(values: &[Base]) -> Vec<Goldilocks> {
    values.iter().map(|v| Goldilocks::from_u64(v.as_canonical_u64())).collect()
}

fn to_words(values: &[Goldilocks]) -> Vec<u64> {
    values.iter().map(|v| v.as_canonical_u64()).collect()
}

#[test]
fn dft_batch_matches_cpu() {
    let dft = CudaDft::new(NO_MEMORY, NO_MEMORY);
    assert!(!dft.is_cuda());
    let cpu = Radix2DFTSmallBatch::new(1 << 18);

    let mut rng = SmallRng::seed_from_u64(0xabc123);
    for lg in [8usize, 10, 12, 14, 16] {
        for w in [1usize, 2, 8, 32, 64] {
            let mat = random_matrix(lg, w, &mut rng);
            let got = dft.dft_batch(to_elements(&mat.values), w, None);
            let want = cpu.dft_batch(mat);
            assert_eq!(got, to_elements(&want.values), "dft_batch mismatch at 2^{lg} x {w}");
        }
    }
}

#[test]
fn idft_batch_matches_cpu() {
    let dft = CudaDft::new(NO_MEMORY, NO_MEMORY);
    let cpu = Radix2DFTSmallBatch::new(1 << 18);

    let mut rng = SmallRng::seed_from_u64(0xdef456);
    for lg in [8usize, 10, 12, 14] {
        for w in [1usize, 8, 32] {
            let mat = random_matrix(lg, w, &mut rng);
            // The inverse, out of the transform alone: transform, divide by the
            // height, and turn the rows after the first round.
            let h = 1usize << lg;
            let turned = dft.dft_batch(to_elements(&mat.values), w, None);
            let scale = Goldilocks::from_u64(h as u64).inverse();
            let got: Vec<Goldilocks> = (0..h * w)
                .map(|i| turned[(h - i / w) % h * w + i % w] * scale)
                .collect();
            let want = cpu.idft_batch(mat);
            assert_eq!(got, to_elements(&want.values), "idft_batch mismatch at 2^{lg} x {w}");
        }
    }
}

#[test]
fn dft_of_small_matrices() {
    let dft = CudaDft::new(NO_MEMORY, NO_MEMORY);
    let e = |v: u64| Goldilocks::from_u64(v);
    // Two columns, 5 + 4x and 2 + 3x, at 1 and -1.
    let got = dft.dft_batch(vec![e(5), e(2), e(4), e(3)], 2, None);
    assert_eq!(to_words(&got), vec![9, 5, 1, P - 1]);
    // At most one row is its own transform.
    assert_eq!(to_words(&dft.dft_batch(vec![e(5), e(2)], 2, None)), vec![5, 2]);
    assert!(dft.dft_batch(vec![], 0, None).is_empty());
    // The naive transform agrees.
    let mut rng = SmallRng::seed_from_u64(9);
    let mat = random_matrix(5, 3, &mut rng);
    let want = NaiveDft.dft_batch(mat.clone());
    let got = dft.dft_batch(to_elements(&mat.values), 3, None);
    assert_eq!(got, to_elements(&want.values));
}

#[test]
fn device_words_are_the_transform() {
    let dft = CudaDft::new(memory(0x1000), memory(0x2000));
    assert!(dft.is_cuda());
    let values = vec![Goldilocks::one(), Goldilocks::two()];
    let got = dft.dft_batch(values.clone(), 1, Some(vec![3, P + 1]));
    assert_eq!(to_words(&got), vec![3, 1]);
    // Without words from the device the host transforms.
    assert_eq!(to_words(&dft.dft_batch(values.clone(), 1, None)), vec![3, P - 1]);
    // Words from nowhere do not count.
    let host = CudaDft::new(memory(0x1000), NO_MEMORY);
    assert!(!host.is_cuda());
    assert_eq!(to_words(&host.dft_batch(values, 1, Some(vec![7, 7]))), vec![3, P - 1]);
}

#[test]
fn twiddles_are_powers_of_the_generators() {
    let table = make_twiddles(3);
    assert_eq!(table.len(), SLOT);
    let (i, r) = (Base::two_adic_generator(2), Base::two_adic_generator(3));
    let want: Vec<u64> = [
        Base::new(1),
        Base::new(1),
        i,
        Base::new(1),
        r,
        r * r,
        r * r * r,
    ]
    .iter()
    .map(|v| v.as_canonical_u64())
    .collect();
    assert_eq!(&table[..7], &want[..]);
    assert_eq!(table[2], 1 << 48);
    assert!(table[7..].iter().all(|&v| v == 0));
    assert!(make_twiddles(0).iter().all(|&v| v == 0));
    assert_eq!(make_twiddles(18)[SLOT - 1], 0);
}

#[test]
fn a_transform_runs_through_its_device_calls() {
    let mut dft = CudaDft::new(memory(0x1000), memory(0x2000));
    assert_eq!(dft.pointers(), Some((0x1000, 0x2000)));
    let ok = memory(0);
    assert_eq!(dft.begin(1, 8), DftAction::Identity);
    let upload = DftAction::UploadTwiddles { lg: 4, offset: 4 * SLOT };
    assert_eq!(dft.begin(16, 3), upload);
    let copy_in = dft.step(16, 3, upload, ok);
    assert_eq!(copy_in, DftAction::CopyIn { words: 48 });
    let transform = dft.step(16, 3, copy_in, ok);
    assert_eq!(
        transform,
        DftAction::Transform { lg: 4, width: 3, scratch: 48, twiddles: 4 * SLOT }
    );
    let copy_out = dft.step(16, 3, transform, ok);
    assert_eq!(copy_out, DftAction::CopyOut { words: 48 });
    assert_eq!(dft.step(16, 3, copy_out, ok), DftAction::Finish);
    assert_eq!(dft.step(16, 3, DftAction::Finish, ok), DftAction::Finish);
    // The table is there by now.
    assert_eq!(dft.begin(16, 5), DftAction::CopyIn { words: 80 });
    // A large matrix needs a larger buffer first.
    let (h, w) = (1 << 18, 4);
    let n = h * w;
    assert_eq!(dft.begin(h, w), DftAction::UploadTwiddles { lg: 18, offset: TABLE_WORDS - SLOT });
    let allocate = dft.step(h, w, dft.begin(h, w), ok);
    assert_eq!(allocate, DftAction::Allocate { bytes: 16 * n });
    assert_eq!(dft.step(h, w, allocate, NO_MEMORY), DftAction::Cpu);
    assert_eq!(dft.pointers(), Some((0x1000, 0x2000)));
    assert_eq!(dft.step(h, w, allocate, memory(0x3000)), DftAction::CopyIn { words: n });
    assert_eq!(dft.pointers(), Some((0x3000, 0x2000)));
}

#[test]
fn a_failed_device_call_leaves_the_transform_to_the_host() {
    let failed = Allocation { code: 1, ptr: 0 };
    let mut dft = CudaDft::new(memory(0x1000), memory(0x2000));
    for done in [
        DftAction::UploadTwiddles { lg: 4, offset: 4 * SLOT },
        DftAction::CopyIn { words: 48 },
        DftAction::Transform { lg: 4, width: 3, scratch: 48, twiddles: 4 * SLOT },
        DftAction::CopyOut { words: 48 },
    ] {
        assert_eq!(dft.step(16, 3, done, failed), DftAction::Cpu);
    }
    // A failed upload is tried again.
    assert_eq!(dft.begin(16, 3), DftAction::UploadTwiddles { lg: 4, offset: 4 * SLOT });
    assert_eq!(CudaDft::new(NO_MEMORY, memory(1)).begin(16, 3), DftAction::Cpu);
}

#[test]
fn buffers_only_grow() {
    assert!(CudaBuffer::new(4, NO_MEMORY).is_none());
    assert!(CudaBuffer::new(4, Allocation { code: 1, ptr: 0x10 }).is_none());
    assert!(CudaBuffer::new(4, memory(0)).is_none());
    let empty = CudaBuffer::new(0, NO_MEMORY).unwrap();
    assert_eq!((empty.ptr(), empty.len()), (0, 0));
    assert_eq!(CudaBuffer::request(0), None);
    assert_eq!(CudaBuffer::request(3), Some(24));

    let mut buffer = CudaBuffer::new(4, memory(0x10)).unwrap();
    assert_eq!((buffer.ptr(), buffer.len()), (0x10, 4));
    assert_eq!(buffer.growth(4), None);
    assert_eq!(buffer.growth(5), Some(40));
    assert_eq!(buffer.grow(3, NO_MEMORY), Some(()));
    assert_eq!((buffer.ptr(), buffer.len()), (0x10, 4));
    assert_eq!(buffer.grow(5, NO_MEMORY), None);
    assert_eq!((buffer.ptr(), buffer.len()), (0x10, 4));
    assert_eq!(buffer.grow(5, memory(0x20)), Some(()));
    assert_eq!((buffer.ptr(), buffer.len()), (0x20, 5));
    assert_eq!(WORK_WORDS, 1 << 20);
}

#[test]
fn devices_are_opt_in() {
    assert!(!cuda_available(0));
    assert!(!cuda_available(-1));
    assert!(cuda_available(2));
    assert!(use_cuda(Some("1")));
    assert!(use_cuda(Some("true")));
    assert!(!use_cuda(Some("True")));
    assert!(!use_cuda(Some("11")));
    assert!(!use_cuda(Some("")));
    assert!(!use_cuda(None));
}

#[test]
fn layers_are_padded() {
    let lens: Vec<usize> = (0..8).map(|n| padded_len(n, 2)).collect();
    assert_eq!(lens, vec![0, 1, 2, 4, 4, 6, 6, 8]);
    assert_eq!(padded_len(3, 8), 8);
    assert_eq!(padded_len(9, 8), 16);
    assert_eq!(padded_len(16, 8), 16);
}

#[test]
fn planned_layers_lead_to_one_root() {
    // Heights that span the batch boundaries and the scalar tails.
    for h in [1usize, 2, 3, 5, 7, 8, 9, 16, 33, 100, 256, 1024] {
        for w in [1usize, 8, 16, 32, 64, 100] {
            let plan = CommitPlan::new(h * w, w).unwrap();
            let layers = plan.layers();
            assert_eq!(layers[0], padded_len(h, 2));
            assert_eq!(*layers.last().unwrap(), 1);
            assert_eq!(plan.arity_schedule(), vec![2; layers.len() - 1]);
            assert_eq!(plan.arena(), h * w + 8 * layers.iter().sum::<usize>());
            assert!(1 << (layers.len() - 1) >= h);
        }
    }
}

#[test]
fn a_commitment_runs_through_its_device_calls() {
    assert!(CommitPlan::new(0, 4).is_none());
    assert!(CommitPlan::new(3, 4).is_none());
    assert!(CommitPlan::new(3, 0).is_none());
    // Ten rows: one batch of eight and two single ones.
    let plan = CommitPlan::new(30, 3).unwrap();
    assert_eq!(plan.layers(), &vec![10, 6, 4, 2, 1]);
    let calls = plan.calls();
    assert_eq!(
        &calls[..7],
        &[
            DeviceCall::CopyIn { words: 30 },
            DeviceCall::Zero { at: 30, words: 80 },
            DeviceCall::LeafBatch { digests: 30, rows: 10, width: 3 },
            DeviceCall::LeafScalar { digests: 30, from: 8, rows: 10, width: 3 },
            DeviceCall::Zero { at: 110, words: 48 },
            DeviceCall::CompressBatch { prev: 30, next: 110, len: 5 },
            DeviceCall::CompressScalar { prev: 30, next: 110, from: 0, to: 5 },
        ]
    );
    assert_eq!(calls.len(), 4 + 3 * 4 + 1 + 5);
    assert_eq!(calls[16], DeviceCall::Synchronize);
    assert_eq!(calls[17], DeviceCall::CopyOut { at: 30, words: 80 });
    assert_eq!(calls[21], DeviceCall::CopyOut { at: plan.arena() - 8, words: 8 });
    assert_eq!(plan.first(), calls[0]);
}

#[test]
fn a_failed_call_leaves_the_commitment_to_the_host() {
    let plan = CommitPlan::new(30, 3).unwrap();
    let calls = plan.calls();
    for done in 0..calls.len() {
        assert_eq!(plan.step(done, 1), CommitAction::Host);
        let next = match calls.get(done + 1) {
            Some(call) => CommitAction::Call(*call),
            None => CommitAction::Finish,
        };
        assert_eq!(plan.step(done, 0), next);
    }
}

#[test]
fn digests_come_in_eights() {
    let words: Vec<u64> = (0..17).map(|i| i + P).collect();
    let got = digests(&words);
    assert_eq!(got.len(), 2);
    assert_eq!(to_words(&got[1]), vec![8, 9, 10, 11, 12, 13, 14, 15]);
    assert_eq!(clamped_cap(0, 5), 0);
    assert_eq!(clamped_cap(3, 5), 3);
    assert_eq!(clamped_cap(9, 5), 4);
    assert_eq!(clamped_cap(9, 0), 0);
    assert!(commits_on_device(1, true));
    assert!(!commits_on_device(2, true));
    assert!(!commits_on_device(1, false));
}

#[test]
fn constants_are_those_of_the_permutation() {
    let (initial, terminal, internal, diagonal) = derive_poseidon2_constants();
    let mut rng = SmallRng::seed_from_u64(1);
    let external = p3_poseidon2::ExternalLayerConstants::<Base, 16>::new_from_rng(8, &mut rng);
    let rest: Vec<Base> = rng.sample_iter(StandardUniform).take(22).collect();
    for (i, row) in external.get_initial_constants().iter().enumerate() {
        for (j, v) in row.iter().enumerate() {
            assert_eq!(initial[i * 16 + j], v.as_canonical_u64());
        }
    }
    for (i, row) in external.get_terminal_constants().iter().enumerate() {
        for (j, v) in row.iter().enumerate() {
            assert_eq!(terminal[i * 16 + j], v.as_canonical_u64());
        }
    }
    let rest: Vec<u64> = rest.iter().map(|v| v.as_canonical_u64()).collect();
    assert_eq!(&internal[..], &rest[..]);
    // The inverse of 2^32.
    let half = Goldilocks::from_u64(1 << 32) * Goldilocks::from_u64(diagonal);
    assert_eq!(half, Goldilocks::one());
}

#[test]
fn constants_are_laid_out_row_by_row() {
    let row = |start: u64| {
        let mut row = [0u64; 16];
        for (j, v) in row.iter_mut().enumerate() {
            *v = start + j as u64;
        }
        row
    };
    let rows = vec![row(0), row(16), row(32), row(48)];
    let flat = flatten(&rows);
    assert!(flat.iter().enumerate().all(|(i, &v)| v == i as u64));
    let internal: Vec<u64> = (0..22).collect();
    let (initial, terminal, rest, diagonal) = device_constants(&rows, &rows, &internal, 7);
    assert_eq!((initial, terminal), (flat, flat));
    assert_eq!(rest.to_vec(), internal);
    assert_eq!(diagonal, 7);
}
