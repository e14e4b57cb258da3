//! Reverse-mode automatic differentiation over dense tensors of exact rationals.
pub mod ratio;
pub mod tensor;
pub mod graph;
pub mod laws;
