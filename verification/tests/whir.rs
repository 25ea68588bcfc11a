use zkie::field::{Goldilocks, XorShift64};
use zkie::mle;
use zkie::whir::Whir;

#[test]
fn whir_prescribed_open_matches_mle_eval() {
    let mut rng = XorShift64::new(0x5eed);
    let d = 6;
    let evals: Vec<Goldilocks> = (0..(1 << d)).map(|_| rng.field()).collect();
    let whir = Whir::new(d);

    let point: Vec<Goldilocks> = (0..d).map(|_| rng.field()).collect();
    let (commitment, prover_data, protocol) = whir.commit(&evals);
    let (proof, opened) = whir.open(prover_data, &protocol, &point);
    let verified = whir.verify(&commitment, &proof, &protocol, &point).unwrap();

    assert_eq!(opened, verified);
    assert_eq!(verified, mle::eval(&evals, &point));
}

#[test]
fn unsupported_sizes_have_no_instance() {
    assert!(Whir::checked_new(4).is_none());
    assert!(Whir::checked_new(64).is_none());
    assert!(Whir::checked_new_testing(4).is_none());
    assert_eq!(Whir::checked_new(6).unwrap().num_variables(), 6);
    assert_eq!(Whir::checked_new_testing(5).unwrap().num_variables(), 5);
}
