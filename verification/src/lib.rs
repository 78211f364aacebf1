//! Verified core of a missing-value generator for tabular data.
//!
//! The library works on a [`mask::MissingMask`]: a rectangular grid that
//! records which cells of a table are missing. Every strategy (picking rows
//! by rank, rectangular blocks, blob-shaped regions) is stated over that grid,
//! so the floating-point table itself never enters the verified code.

pub mod common;
pub mod encode;
pub mod errors;
pub mod input;
pub mod mar;
pub mod mask;
pub mod mnar;
pub mod mode;
pub mod pattern;
pub mod random;
pub mod rank;
