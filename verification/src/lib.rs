//! Lattice polynomial commitment core: ring and gadget algebra, an
//! inner/outer commitment, a Fiat-Shamir transcript, linear-system assembly,
//! the commitment scheme's prover and verifier, and a multilinear sum-check
//! over a small prime field and its degree-4 extension.

pub mod ring;
pub mod gadget;
pub mod field;
pub mod mle;
pub mod sumcheck;
pub mod rng;
pub mod commit;
pub mod transcript;
pub mod proto;
pub mod pcs;
