//! Interval Based Skip List (IBSL) with pluggable vector commitments,
//! Merkle-tree and flat-hash commitment backends, the plain Merkle-list
//! baseline, and the Poseidon2 (Mersenne-31) hash the Stwo chain bridge uses.

pub mod m31;
pub mod hashes;
pub mod field;
pub mod vc;
pub mod ibsl;
pub mod stark;
pub mod merkle_list;
