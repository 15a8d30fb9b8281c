//! The plain-value parts of the Greyhound lattice backend: its slot type,
//! integers modulo `q = 2^32 - 99`, and the shape of its node commitments.

use vstd::prelude::*;
use crate::field::NodeDigest;

verus! {

/// The Greyhound modulus, `LOGQ = 32`, `QOFF = 99` (prime).
pub const Q: i64 = 4294967197;

/// A slot value: an integer modulo `Q`, as its least non-negative residue.
#[derive(Clone, Copy, Debug)]
pub struct GreyhoundField(pub i64);

impl NodeDigest for GreyhoundField {
    open spec fn wf(&self) -> bool {
        0 <= self.0 < Q
    }

    open spec fn spec_from_u128(v: u128) -> GreyhoundField {
        GreyhoundField((v % (Q as u128)) as i64)
    }

    open spec fn spec_zero() -> GreyhoundField {
        GreyhoundField(0)
    }

    fn from_u128(v: u128) -> (r: GreyhoundField) {
        GreyhoundField((v % (Q as u128)) as i64)
    }

    fn zero() -> (r: GreyhoundField) {
        GreyhoundField(0)
    }
}

/// A node commitment: the 16-byte hash of Greyhound's outer commitment,
/// plus the slot count it was built for.
#[derive(Clone, Copy, Debug)]
pub struct GhCommitment {
    pub h: [u8; 16],
    pub d: usize,
}

} // verus!
