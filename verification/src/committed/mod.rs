//! WHIR-committed proofs of the quantized layers.
//!
//! Commit a tensor once, then prove a layer from prescribed-point openings
//! rather than raw evaluations. Every proof draws its challenges from the
//! caller's generator; the contracts state the decision as a condition on the
//! committed tables at those challenges, that an accepted opening verified against
//! the committed root, and at which check a refusal came.

pub mod attention;
pub mod binding;
pub mod layers;
pub mod linear;
pub mod norms;
pub mod openings;
pub mod product;
pub mod raw;
pub mod rejection;
pub mod rounding;

pub use attention::{prove_softmax, prove_softmax_rows};
pub use linear::{prove_add, prove_matmul};
pub use norms::{prove_layer_norm, prove_rms_norm};
pub use openings::{commit, Committed};
pub use product::prove_lookup;
pub use rounding::{prove_affine, prove_relu, prove_scale};
pub use raw::{affine_raw, layer_norm_raw, rms_norm_raw, scale_raw, silu_raw, softmax_raw};
