use zkie::field::{Goldilocks, XorShift64, P};

#[test]
fn inverse_of_two() {
    assert_eq!(
        Goldilocks::two() * Goldilocks::from_u64((P + 1) / 2),
        Goldilocks::one()
    );
}

#[test]
fn xorshift_produces_canonical_elements() {
    let mut rng = XorShift64::new(1);
    for _ in 0..1000 {
        assert!(rng.field().as_canonical_u64() < P);
    }
}
