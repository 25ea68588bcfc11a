# zkie

Proofs of quantized inference over the Goldilocks field (`p = 2^64 - 2^32 + 1`),
written in Verus: the code is executable Rust, and what it computes is stated in
contracts and proved.

## What is proved

- The executable code: multilinear extensions, the sum-check prover and verifier
  for products of two and of three polynomials, the matmul reduction, the
  log-derivative lookup, the quantized layers, and the committed layer proofs of
  `committed`, each with an exact contract over the integers modulo `p`.
- Every accepted layer proof was opened against its commitments: at each challenge
  some opening proof verifies against the committed root and yields the value used.
- Completeness: an honest proof is accepted whatever the challenges are.
- Soundness, by counting challenges over the whole field: a false sum-check claim
  over `t` variables survives at most a fraction `2t / p` of them (`3t / p` for
  triple products) whatever the prover does, two different tables agree on at most
  a fraction `t / p` of all points, and a wrong lookup passes for fewer than `2n`
  values of `alpha`.
- The algebra underneath, down to the fact that `p` is prime.
- The circuit that verifies a sum-check transcript over the BN254 scalar field: its
  rows and copy constraints are satisfied exactly when the transcript is valid.
- The device plans: which calls a transform or a Merkle commitment makes, that
  they stay inside their buffers, what follows each reply, and that every failed call
  leaves the work to the host. What the kernels compute is not part of this.

## What is trusted

The functions marked `external_body` call Plonky3 (field arithmetic, the two-adic
DFT, Merkle trees, the WHIR commitment scheme, the Poseidon2 constants) and `rand`. Each says in
its contract and its doc comment what is taken for granted.

## Layout

- `src/` the verified library.
- `tests/` tests, against the real outside crates.
- `app/` what surrounds it: the Halo2 chips and circuit, the CUDA runtime, the
  engines chosen at run time, and timing.
