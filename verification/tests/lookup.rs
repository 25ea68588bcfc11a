use zkie::field::{Goldilocks, XorShift64};
use zkie::lookup::{prove, verify};

#[test]
fn lookup_completeness_and_soundness() {
    let mut rng = XorShift64::new(12);
    let n = 256usize;
    let table: Vec<Goldilocks> = (0..n).map(|_| rng.field()).collect();
    let indices: Vec<u32> = (0..n).map(|_| (rng.next_u64() % n as u64) as u32).collect();
    let outputs: Vec<Goldilocks> = indices.iter().map(|&i| table[i as usize]).collect();

    let alpha = rng.field();
    let beta = rng.field();
    let proof = prove(&indices, &outputs, &table, alpha, beta);
    assert!(verify(&proof));

    // Corrupt one output -> the batched key leaves the table, so the logUp
    // identity fails with high probability over (alpha, beta).
    let mut bad = outputs.clone();
    bad[0] = bad[0] + Goldilocks::one();
    let bad_proof = prove(&indices, &bad, &table, alpha, beta);
    assert!(!verify(&bad_proof));
}
