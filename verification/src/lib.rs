//! PLONK proving-key setup: transforms a rank-1 constraint system (R1CS)
//! together with a powers-of-tau artifact into the constraint-system part of
//! a PLONK proving key.
//!
//! The crate is organised around three pieces:
//! - the sectioned binary container shared by `.r1cs`, `.ptau` and `.zkey`
//!   files (`container`),
//! - the constraint lowerer that turns R1CS triples into PLONK gates
//!   (`lowering`),
//! - the evaluation-domain setup that picks the coset generators `k1`, `k2`
//!   (`domain`).

pub mod big_buffer;
pub mod bigint;
pub mod bytes_le;
pub mod container;
pub mod curves;
pub mod domain;
pub mod errors;
pub mod fft;
pub mod field;
pub mod lowering;
pub mod ptau;
pub mod r1cs;
pub mod utils;
pub mod zkey;
