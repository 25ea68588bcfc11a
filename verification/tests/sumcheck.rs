use zkie::field::{Goldilocks, XorShift64};
use zkie::sumcheck::{prove, prove3, verify, verify3};

#[test]
fn sumcheck_completeness_and_soundness() {
    let mut rng = XorShift64::new(3);
    let t = 8;
    let f: Vec<Goldilocks> = (0..(1 << t)).map(|_| rng.field()).collect();
    let h: Vec<Goldilocks> = (0..(1 << t)).map(|_| rng.field()).collect();
    let true_sum: Goldilocks = f.iter().zip(&h).fold(Goldilocks::zero(), |acc, (&a, &b)| acc + a * b);
    let challenges: Vec<Goldilocks> = (0..t).map(|_| rng.field()).collect();

    let proof = prove(&f, &h, true_sum, &challenges);
    let f_eval = zkie::mle::eval(&f, &challenges);
    let h_eval = zkie::mle::eval(&h, &challenges);
    assert!(verify(&proof, true_sum, &challenges, f_eval, h_eval));

    let wrong = true_sum + Goldilocks::one();
    assert!(!verify(&proof, wrong, &challenges, f_eval, h_eval));
}

#[test]
fn sumcheck3_completeness_and_soundness() {
    let mut rng = XorShift64::new(4);
    let t = 8;
    let f: Vec<Goldilocks> = (0..(1 << t)).map(|_| rng.field()).collect();
    let g: Vec<Goldilocks> = (0..(1 << t)).map(|_| rng.field()).collect();
    let h: Vec<Goldilocks> = (0..(1 << t)).map(|_| rng.field()).collect();
    let true_sum: Goldilocks = f
        .iter()
        .zip(&g)
        .zip(&h)
        .fold(Goldilocks::zero(), |acc, ((&a, &b), &c)| acc + a * b * c);
    let challenges: Vec<Goldilocks> = (0..t).map(|_| rng.field()).collect();

    let proof = prove3(&f, &g, &h, true_sum, &challenges);
    let f_eval = zkie::mle::eval(&f, &challenges);
    let g_eval = zkie::mle::eval(&g, &challenges);
    let h_eval = zkie::mle::eval(&h, &challenges);
    assert!(verify3(&proof, true_sum, &challenges, f_eval, g_eval, h_eval));

    let wrong = true_sum + Goldilocks::one();
    assert!(!verify3(&proof, wrong, &challenges, f_eval, g_eval, h_eval));
}
