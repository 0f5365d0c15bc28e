//! Reverse-mode automatic differentiation over scalars, and small networks
//! built from it.

pub mod engine;
pub mod gradients;
pub mod identities;
pub mod nn;
pub mod order;
pub mod scalar;
pub mod tokenizer;
