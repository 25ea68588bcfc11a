use zkie::field::{Goldilocks, XorShift64};
use zkie::mle::{eval, partial_eval};

#[test]
fn partial_then_full_matches_full() {
    let mut rng = XorShift64::new(2);
    let values: Vec<Goldilocks> = (0..16).map(|_| rng.field()).collect();
    let point: Vec<Goldilocks> = (0..4).map(|_| rng.field()).collect();

    let rest = partial_eval(&values, &point[..2]);
    assert_eq!(rest.len(), 4);
    let via_partial = eval(&rest, &point[2..]);
    let full = eval(&values, &point);
    assert_eq!(via_partial, full);
}
