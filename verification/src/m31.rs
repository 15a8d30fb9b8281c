//! Arithmetic in the Mersenne-31 field, p = 2^31 - 1.
//!
//! Elements are kept canonical (`0 <= v < p`); every operation returns the
//! canonical representative of the mathematical result.

use vstd::prelude::*;
use vstd::arithmetic::div_mod::*;

verus! {

/// The modulus p = 2^31 - 1.
pub const P: u32 = 2147483647;

/// The modulus as a mathematical integer.
pub open spec fn p() -> int {
    2147483647
}

/// A canonical M31 element.
#[derive(Clone, Copy, PartialEq, Eq, Structural, Debug)]
pub struct M31(pub u32);

impl M31 {
    /// The element is canonical.
    pub open spec fn wf(self) -> bool {
        self.0 < P
    }

    /// Builds an element from a word already below p.
    pub fn from_u32_unchecked(v: u32) -> (r: M31)
        requires
            v < P,
        ensures
            r.0 == v,
    {
        M31(v)
    }

    /// The additive identity.
    pub fn zero() -> (r: M31)
        ensures
            r.0 == 0,
    {
        M31(0)
    }

    /// The multiplicative identity.
    pub fn one() -> (r: M31)
        ensures
            r.0 == 1,
    {
        M31(1)
    }
}

/// `(a + b) mod p`. Total: non-canonical words are reduced too.
pub fn m31_add(a: M31, b: M31) -> (r: M31)
    ensures
        r.wf(),
        r.0 == (a.0 + b.0) % p(),
{
    let s: u64 = a.0 as u64 + b.0 as u64;
    let r: u64 = s % (P as u64);
    proof {
        lemma_mod_bound(s as int, p());
    }
    M31(r as u32)
}

/// `(a * b) mod p`. Total: non-canonical words are reduced too.
pub fn m31_mul(a: M31, b: M31) -> (r: M31)
    ensures
        r.wf(),
        r.0 == (a.0 * b.0) % p(),
{
    let x: u64 = a.0 as u64;
    let y: u64 = b.0 as u64;
    proof {
        vstd::arithmetic::mul::lemma_mul_upper_bound(x as int, 0xffff_ffff, y as int, 0xffff_ffff);
    }
    let prod: u64 = x * y;
    let r: u64 = prod % (P as u64);
    proof {
        lemma_mod_bound(prod as int, p());
    }
    M31(r as u32)
}

/// `((A mod p) + (B mod p)) mod p == (A + B) mod p`.
pub proof fn lemma_add_cong(a: int, b: int)
    ensures
        ((a % p()) + (b % p())) % p() == (a + b) % p(),
{
    lemma_add_mod_noop(a, b, p());
}

/// `((A mod p) * (B mod p)) mod p == (A * B) mod p`.
pub proof fn lemma_mul_cong(a: int, b: int)
    ensures
        ((a % p()) * (b % p())) % p() == (a * b) % p(),
{
    lemma_mul_mod_noop(a, b, p());
}

} // verus!
