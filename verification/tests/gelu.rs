use zkie::field::{Goldilocks, XorShift64};
use zkie::gelu::{gelu, verify};

#[test]
fn gelu_roundtrip() {
    let mut rng = XorShift64::new(30);
    let n = 256usize;
    let table: Vec<Goldilocks> = (0..n).map(|_| rng.field()).collect();
    let indices: Vec<u32> = (0..n).map(|_| (rng.next_u64() % n as u64) as u32).collect();
    let (y, proof) = gelu(&indices, &table, rng.field(), rng.field());
    assert!(verify(&indices, &table, &y, &proof));

    let mut bad = y.clone();
    bad[0] = bad[0] + Goldilocks::one();
    assert!(!verify(&indices, &table, &bad, &proof));
}
