//! Evaluation domains over a prime field: radix-2 number-theoretic transforms
//! and multiplicative cosets of power-of-two subgroups, with folding.
pub mod field;
pub mod domain;
pub mod coset;
pub mod ntt;
