//! Boundary points and the ranges built from them.
pub mod abstract_range;
pub mod range;
pub mod static_range;

pub use abstract_range::{AbstractRange, BoundaryPoint, BoundaryPointPosition};
