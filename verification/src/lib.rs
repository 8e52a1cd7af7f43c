//! Exact evaluation of B-spline basis functions and curve interpolation.
//!
//! Basis functions are defined by the Cox-de Boor recursion over a knot
//! vector.  All arithmetic is exact: parameters, knots and control points
//! are rational numbers, so every contract speaks about the mathematical
//! value of a result, not an approximation of it.

pub mod rat;
pub mod spline;
pub mod props;
