//! Pluggable slot-value type for the IBSL.
//!
//! `NodeDigest` is the type one slot of a committed node vector holds — a
//! key embedded as a number, or a child commitment mapped down by the
//! backend's `to_field`. The trait demands no field structure at all, only
//! the two operations the IBSL needs: embed a key and produce zero for
//! padding.

use vstd::prelude::*;

verus! {

/// The largest integer any caller embeds: `Key::field` maps +inf to
/// 2^64 + 1.
pub const MAX_EMBEDDED: u128 = 18446744073709551617;

pub trait NodeDigest: Sized + Copy {
    /// The value is a valid representative (canonical for field types).
    spec fn wf(&self) -> bool;

    /// The embedding of an integer.
    spec fn spec_from_u128(v: u128) -> Self;

    /// The padding value.
    spec fn spec_zero() -> Self;

    /// Embeds an integer. Callers only pass values at most 2^64 + 1.
    fn from_u128(v: u128) -> (r: Self)
        requires
            v <= MAX_EMBEDDED,
        ensures
            r == Self::spec_from_u128(v),
            r.wf(),
    ;

    /// The padding value for committed vectors.
    fn zero() -> (r: Self)
        ensures
            r == Self::spec_zero(),
            r.wf(),
    ;
}


/// The integer a little-endian byte string encodes.
pub open spec fn le_value(b: Seq<u8>) -> nat
    decreases b.len(),
{
    if b.len() == 0 {
        0
    } else {
        b[0] as nat + 256 * le_value(b.drop_first())
    }
}

/// The first `n` little-endian bytes of `v`.
pub open spec fn le_bytes(v: nat, n: nat) -> Seq<u8>
    decreases n,
{
    if n == 0 {
        Seq::empty()
    } else {
        seq![(v % 256) as u8] + le_bytes(v / 256, (n - 1) as nat)
    }
}

/// 256 to the power `n`.
pub open spec fn pow256(n: nat) -> nat
    decreases n,
{
    if n == 0 {
        1
    } else {
        256 * pow256((n - 1) as nat)
    }
}

/// The order of the BLS12-381 scalar field.
pub open spec fn fr_modulus() -> nat {
    0x73eda753299d7d483339d80809a1d80553bda402fffe5bfeffffffff00000001nat
}

/// An `n`-byte encoding has `n` bytes.
pub proof fn lemma_le_bytes_len(v: nat, n: nat)
    ensures
        le_bytes(v, n).len() == n,
    decreases n,
{
    if n > 0 {
        lemma_le_bytes_len(v / 256, (n - 1) as nat);
    }
}

/// Bytes below `pow256(n)` survive an `n`-byte little-endian encoding.
pub proof fn lemma_le_bytes_value(v: nat, n: nat)
    requires
        v < pow256(n),
    ensures
        le_bytes(v, n).len() == n,
        le_value(le_bytes(v, n)) == v,
    decreases n,
{
    if n > 0 {
        let q = v / 256;
        assert(q < pow256((n - 1) as nat)) by (nonlinear_arith)
            requires
                v < 256 * pow256((n - 1) as nat),
                q == v / 256,
        ;
        lemma_le_bytes_value(q, (n - 1) as nat);
        let b = le_bytes(v, n);
        assert(b.drop_first() =~= le_bytes(q, (n - 1) as nat));
        assert(v == 256 * q + v % 256) by (nonlinear_arith)
            requires
                q == v / 256,
        ;
    }
}

/// A BLS12-381 scalar in its canonical encoding: 32 little-endian bytes of
/// an integer below the group order. Keys embed as their number, and a
/// digest maps in by reduction modulo the order.
#[derive(Clone, Copy, Debug)]
pub struct FrBytes(pub [u8; 32]);

/// The 32 little-endian bytes of `v`.
fn u128_le_bytes(v: u128) -> (r: [u8; 32])
    ensures
        r@ == le_bytes(v as nat, 32),
{
    let mut r = [0u8; 32];
    let mut x: u128 = v;
    let mut i: usize = 0;
    proof {
        lemma_le_bytes_len(v as nat, 32);
        assert(le_bytes(v as nat, 32).subrange(0, 32) =~= le_bytes(v as nat, 32));
    }
    while i < 32
        invariant
            i <= 32,
            r@.len() == 32,
            forall|j: int| 0 <= j < i ==> r@[j] == #[trigger] le_bytes(v as nat, 32)[j],
            le_bytes(v as nat, 32).subrange(i as int, 32) == le_bytes(x as nat, (32 - i) as nat),
        decreases 32 - i,
    {
        proof {
            lemma_le_bytes_len(v as nat, 32);
            lemma_le_bytes_len(x as nat, (32 - i) as nat);
            let tail = le_bytes(x as nat, (32 - i) as nat);
            assert(tail[0] == (x % 256) as u8);
            assert(le_bytes(v as nat, 32)[i as int] == le_bytes(v as nat, 32).subrange(i as int, 32)[0]);
            assert(le_bytes(v as nat, 32).subrange(i + 1, 32) =~= tail.drop_first());
            assert(tail.drop_first() =~= le_bytes((x / 256) as nat, (32 - i - 1) as nat));
        }
        r[i] = (x % 256) as u8;
        x = x / 256;
        i = i + 1;
    }
    proof {
        lemma_le_bytes_len(v as nat, 32);
        assert(r@ =~= le_bytes(v as nat, 32));
    }
    r
}

impl NodeDigest for FrBytes {
    open spec fn wf(&self) -> bool {
        le_value(self.0@) < fr_modulus()
    }

    open spec fn spec_from_u128(v: u128) -> FrBytes {
        FrBytes(le_bytes_array(v as nat))
    }

    open spec fn spec_zero() -> FrBytes {
        FrBytes(le_bytes_array(0))
    }

    fn from_u128(v: u128) -> (r: FrBytes) {
        let b = u128_le_bytes(v);
        proof {
            assert(pow256(32) > MAX_EMBEDDED) by {
                reveal_with_fuel(pow256, 33);
            }
            lemma_le_bytes_value(v as nat, 32);
            lemma_le_bytes_array(v as nat, b);
        }
        FrBytes(b)
    }

    fn zero() -> (r: FrBytes) {
        let b = u128_le_bytes(0);
        proof {
            assert(pow256(32) > 0) by {
                reveal_with_fuel(pow256, 33);
            }
            lemma_le_bytes_value(0, 32);
            lemma_le_bytes_array(0, b);
        }
        FrBytes(b)
    }
}

/// The 32-byte array whose bytes are `le_bytes(v, 32)`.
pub open spec fn le_bytes_array(v: nat) -> [u8; 32] {
    choose|a: [u8; 32]| a@ == le_bytes(v, 32)
}

proof fn lemma_le_bytes_array(v: nat, a: [u8; 32])
    requires
        a@ == le_bytes(v, 32),
    ensures
        le_bytes_array(v) == a,
{
    let c = le_bytes_array(v);
    assert(a@ == le_bytes(v, 32));
    assert(c@ == le_bytes(v, 32));
    assert forall|i: int| 0 <= i < 32 implies c[i] == a[i] by {
        assert(c@[i] == a@[i]);
    }
    assert(c =~= a);
}

/// Decoding then re-encoding a byte string gives it back.
pub proof fn lemma_le_value_bytes(s: Seq<u8>)
    ensures
        le_bytes(le_value(s), s.len()) == s,
        le_value(s) < pow256(s.len()),
    decreases s.len(),
{
    if s.len() > 0 {
        let rest = s.drop_first();
        lemma_le_value_bytes(rest);
        let x = le_value(s);
        let y = le_value(rest);
        let b = s[0] as nat;
        assert(x % 256 == b && x / 256 == y) by (nonlinear_arith)
            requires
                x == b + 256 * y,
                b < 256,
        ;
        assert(x < pow256(s.len())) by (nonlinear_arith)
            requires
                x == b + 256 * y,
                b < 256,
                y < pow256(rest.len()),
                pow256(s.len()) == 256 * pow256(rest.len()),
        ;
        assert(le_bytes(x, s.len()) =~= s);
    }
}

impl NodeDigest for [u8; 32] {
    open spec fn wf(&self) -> bool {
        true
    }

    open spec fn spec_from_u128(v: u128) -> [u8; 32] {
        le_bytes_array(v as nat)
    }

    open spec fn spec_zero() -> [u8; 32] {
        le_bytes_array(0)
    }

    fn from_u128(v: u128) -> (r: [u8; 32]) {
        let b = u128_le_bytes(v);
        proof {
            lemma_le_bytes_array(v as nat, b);
        }
        b
    }

    fn zero() -> (r: [u8; 32]) {
        let b = u128_le_bytes(0);
        proof {
            lemma_le_bytes_array(0, b);
        }
        b
    }
}

/// The scalar a 32-byte digest maps to: its little-endian integer reduced
/// modulo the order.
pub open spec fn fr_of_bytes(b: Seq<u8>) -> FrBytes {
    FrBytes(le_bytes_array(le_value(b) % fr_modulus()))
}

/// Calls `ark_ff::PrimeField::from_le_bytes_mod_order` for the BLS12-381
/// scalar field (`ark_bls12_381::Fr`) on `b`, then
/// `CanonicalSerialize::serialize_compressed`, which writes the canonical
/// integer as 32 little-endian bytes. The contract claims that the result
/// encodes the integer of `b` reduced modulo the order.
#[verifier::external_body]
fn fr_reduce(b: &[u8; 32]) -> (r: [u8; 32])
    ensures
        le_value(r@) == le_value(b@) % fr_modulus(),
{
    let f = <ark_bls12_381::Fr as ark_ff::PrimeField>::from_le_bytes_mod_order(b);
    let mut out = [0u8; 32];
    ark_serialize::CanonicalSerialize::serialize_compressed(&f, &mut out[..]).expect("32 bytes hold a scalar");
    out
}

/// Maps a 32-byte digest into the scalar field.
pub fn fr_from_le_bytes_mod_order(b: &[u8; 32]) -> (r: FrBytes)
    ensures
        r == fr_of_bytes(b@),
        r.wf(),
{
    let out = fr_reduce(b);
    proof {
        lemma_le_value_bytes(out@);
        lemma_le_bytes_array(le_value(out@), out);
        assert(le_value(b@) % fr_modulus() < fr_modulus());
    }
    FrBytes(out)
}

/// The 32-byte array holding the bytes `s`.
pub open spec fn bytes_array(s: Seq<u8>) -> [u8; 32] {
    choose|d: [u8; 32]| #[trigger] d@ == s
}

/// The array chosen for a byte string is the one that has those bytes.
pub proof fn lemma_bytes_array(a: [u8; 32], s: Seq<u8>)
    requires
        a@ == s,
    ensures
        bytes_array(s) == a,
{
    let c = bytes_array(s);
    assert(c@ == s);
    assert forall|i: int| 0 <= i < 32 implies c[i] == a[i] by {
        assert(c@[i] == a@[i]);
    }
    assert(c =~= a);
}

} // verus!
