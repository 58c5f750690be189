//! Core of a lattice-based folding scheme for customizable constraint
//! systems: an Ajtai commitment layer over a cyclotomic-ring NTT domain,
//! a multilinear sumcheck subprotocol driven by a Fiat-Shamir transcript,
//! and a folding prover/verifier pair that combines 2K linearized
//! instances into one.

pub mod arith;
pub mod commitment;
pub mod decompose;
pub mod folding;
pub mod mle;
pub mod ring;
pub mod rings;
pub mod rng;
pub mod serialize;
pub mod sumcheck;
pub mod transcript;
pub mod zq;
