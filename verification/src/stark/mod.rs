//! The STARK bridge: a real IBSL flat-hash proof compiled into the chain of
//! 2-to-1 Poseidon2 merges a Circle STARK re-verifies, the witness of one
//! merge in the column order its AIR consumes, and the main trace built
//! from those witnesses.

pub mod cycles;
pub mod stwo;
pub mod trace;
