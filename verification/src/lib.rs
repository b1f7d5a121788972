//! Ternary auto-vectorizer: scalar Z3 dot-threshold kernels, their chunked
//! (warp-parallel) form, exhaustive equivalence checking, conservation laws and
//! delta patches between kernels.

pub mod trit;
pub mod dot;
pub mod scalar;
pub mod chunks;
pub mod counter;
pub mod vector;
pub mod conservation;
pub mod patch;

pub use trit::{Trit, NEG, ZERO, POS, sign, tadd, tmul, tneg};
pub use dot::dot_i32;
pub use scalar::ScalarKernel;
pub use vector::{VecKernel, Vectorizer, EquivResult, Ratio};
pub use conservation::ConservationAnalyzer;
pub use patch::KernelPatch;
