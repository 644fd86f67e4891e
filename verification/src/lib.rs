//! An educational STARK prover and verifier for the Fibonacci recurrence over a
//! prime field, with every executable function verified against a mathematical
//! model of what it computes.

pub mod constants;
pub mod hashing;
pub mod number;
pub mod finite_field;
pub mod number_theory;
pub mod polynomial;
pub mod evaluation_domain;
pub mod fiat_shamir;
pub mod fri;
pub mod merkle_tree;
pub mod sq_fibo;
pub mod trace;
pub mod stark_verifier;
pub mod prover;
