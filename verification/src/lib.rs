//! Sum-check based proofs of quantized inference over the Goldilocks field.
//!
//! The prover and the verifier work over [`field`]: multilinear extensions
//! ([`mle`]), the sum-check ([`sumcheck`]), a matrix product ([`matmul`]) and the
//! log-derivative lookup ([`lookup`]) with the layers built on it ([`gelu`],
//! [`softmax`], [`rmsnorm`]). [`whir`] commits to tables, and [`committed`] proves
//! whole layers against such commitments. [`goldilocks`] and [`sumcheck_verify`]
//! lay out the sum-check verifier as a circuit over a larger field, and [`cuda`]
//! plans the work of a device.
//!
//! [`prime`], [`poly`], [`fractions`] and [`soundness`] hold the algebra behind the
//! soundness laws: how many challenges a false claim survives.

pub mod committed;
pub mod cuda;
pub mod field;
pub mod fixed_point;
pub mod fractions;
pub mod gelu;
pub mod goldilocks;
pub mod integers;
pub mod lookup;
pub mod matmul;
pub mod mle;
pub mod poly;
pub mod prime;
pub mod rmsnorm;
pub mod softmax;
pub mod soundness;
pub mod sumcheck;
pub mod sumcheck_verify;
pub mod sums;
pub mod whir;
