//! Dense univariate polynomials over a prime field.

pub mod add;
pub mod algebra;
pub mod divide;
pub mod evaluate;
pub mod interpolate;
pub mod laws;
pub mod multiply;
pub mod polynomial;
pub mod pow;
pub mod subtract;
