//! Tropical geometry: the max-plus semiring, tropical polynomials, ReLU
//! networks seen as tropical rational functions, and max-plus attention.
//!
//! The structures are generic over the coefficient type `C`; the floating
//! point arithmetic that the callers pick is handed in as closures.

pub mod polynomial;
pub mod evaluation;
pub mod network;
pub mod attention;

pub use polynomial::{TropicalMonomial, TropicalPolynomial};
pub use network::{ReLULayer, TropicalNetwork};
pub use attention::TropicalAttention;
