[package]
name = "zkie"
version = "0.1.0"
edition = "2021"
publish = false

[dependencies]
halo2_proofs = "=0.3.5"
halo2curves = "=0.10.0"
p3-challenger = "=0.7.0"
p3-commit = "=0.7.0"
p3-dft = "=0.7.0"
p3-field = "=0.7.0"
p3-goldilocks = "=0.7.0"
p3-matrix = "=0.7.0"
p3-merkle-tree = "=0.7.0"
p3-multilinear-util = "=0.7.0"
p3-poseidon2 = "=0.7.0"
p3-sumcheck = "=0.7.0"
p3-symmetric = "=0.7.0"
p3-whir = "=0.7.0"
rand = "=0.10.3"
