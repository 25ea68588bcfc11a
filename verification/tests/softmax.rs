use zkie::field::{Goldilocks, XorShift64};
use zkie::softmax::{softmax, verify};

#[test]
fn softmax_roundtrip() {
    let mut rng = XorShift64::new(13);
    let n = 128usize;
    let table: Vec<Goldilocks> = (0..n).map(|_| rng.field()).collect();
    let indices: Vec<u32> = (0..n).map(|_| (rng.next_u64() % n as u64) as u32).collect();
    let (y, proof) = softmax(&indices, &table, rng.field(), rng.field());
    assert!(verify(&indices, &table, &y, &proof));

    // Corrupt one output and confirm verification fails.
    let mut bad = y.clone();
    bad[0] = bad[0] + Goldilocks::one();
    assert!(!verify(&indices, &table, &bad, &proof));
}
