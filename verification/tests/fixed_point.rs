use zkie::field::{Goldilocks, XorShift64, P};
use zkie::fixed_point::{from_i16, from_i32, from_i64, to_i16, to_i32, to_i64};

#[test]
fn int16_roundtrip() {
    let mut rng = XorShift64::new(20);
    for _ in 0..1000 {
        let x = (rng.next_u64() % 65536) as i16;
        assert_eq!(to_i16(from_i16(x)), x);
    }
}

#[test]
fn int16_dot_product_no_wrap() {
    let mut rng = XorShift64::new(21);
    let k = 4096usize;
    let a: Vec<i16> = (0..k).map(|_| (rng.next_u64() % 65536) as i16).collect();
    let b: Vec<i16> = (0..k).map(|_| (rng.next_u64() % 65536) as i16).collect();

    let int_sum: i64 = a
        .iter()
        .zip(&b)
        .fold(0i64, |acc, (&x, &y)| acc + x as i64 * y as i64);

    let field_sum = a
        .iter()
        .zip(&b)
        .fold(Goldilocks::zero(), |acc, (&x, &y)| acc + from_i16(x) * from_i16(y));

    let as_signed = if field_sum.as_canonical_u64() > i64::MAX as u64 {
        -((P - field_sum.as_canonical_u64()) as i64)
    } else {
        field_sum.as_canonical_u64() as i64
    };
    assert_eq!(as_signed, int_sum);
}

#[test]
fn int32_roundtrip() {
    let mut rng = XorShift64::new(22);
    for _ in 0..1000 {
        let x = (rng.next_u64() % (1u64 << 32)) as u32 as i32;
        assert_eq!(to_i32(from_i32(x)), x);
    }
}

#[test]
fn int64_roundtrip() {
    let mut rng = XorShift64::new(23);
    for _ in 0..1000 {
        let x = (rng.next_u64() % (1u64 << 60)) as i64 - (1i64 << 59);
        assert_eq!(to_i64(from_i64(x)), x);
    }
}

#[test]
fn crate_compiles() {
    assert_eq!(2 + 2, 4);
}
