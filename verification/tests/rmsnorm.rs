use zkie::field::{Goldilocks, XorShift64};
use zkie::rmsnorm::{rms_norm, verify};

#[test]
fn rms_norm_roundtrip() {
    let mut rng = XorShift64::new(31);
    let n = 64usize;
    let x: Vec<Goldilocks> = (0..n).map(|_| rng.field()).collect();
    let weight: Vec<Goldilocks> = (0..n).map(|_| rng.field()).collect();
    let eps = Goldilocks::from_u64(1);
    let table_size = 256usize;
    let table: Vec<Goldilocks> = (0..table_size).map(|_| rng.field()).collect();
    let s_index = (rng.next_u64() % table_size as u64) as u32;

    let (y, proof) = rms_norm(&x, &weight, eps, s_index, &table, rng.field(), rng.field());
    assert!(verify(&x, &weight, &y, eps, s_index, &table, &proof));

    let mut bad = y.clone();
    bad[0] = bad[0] + Goldilocks::one();
    assert!(!verify(&x, &weight, &bad, eps, s_index, &table, &proof));
}
