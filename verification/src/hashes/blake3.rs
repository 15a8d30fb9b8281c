//! BLAKE3: the extendable-output function that derives the Poseidon2 round
//! constants, and a tree hash over BLS12-381 scalar slots: leaf =
//! H(0x00 || value), node = H(0x01 || children).

use vstd::prelude::*;
use crate::field::{bytes_array, fr_from_le_bytes_mod_order, fr_of_bytes, le_bytes_array, lemma_bytes_array, FrBytes, NodeDigest};
use crate::hashes::{bytes32_eq, bytes32_vec, digests_bytes, tagged_bytes, tagged_digests};

verus! {

/// The first `len` bytes of the BLAKE3 extendable output over the UTF-8
/// bytes of `input`.
pub uninterp spec fn blake3_xof_spec(input: Seq<char>, len: nat) -> Seq<u8>;

/// Calls `blake3::Hasher::new`, `update`, `finalize_xof` and
/// `OutputReader::fill` over the UTF-8 bytes of `input`. The contract claims
/// that the output has `len` bytes and is the same for the same input and
/// length; the bytes themselves are not stated.
#[verifier::external_body]
pub(crate) fn blake3_xof(input: &str, len: usize) -> (r: Vec<u8>)
    ensures
        r@ == blake3_xof_spec(input@, len as nat),
        r@.len() == len,
{
    let mut hasher = ::blake3::Hasher::new();
    hasher.update(input.as_bytes());
    let mut out = vec![0u8; len];
    hasher.finalize_xof().fill(&mut out);
    out
}


/// The 32-byte BLAKE3 hash of `data`.
pub uninterp spec fn blake3_spec(data: Seq<u8>) -> Seq<u8>;

/// Calls `blake3::hash` on `data` and converts the `blake3::Hash` into its
/// 32 bytes. The contract names the result `blake3_spec(data)`; what those
/// bytes are is not stated.
#[verifier::external_body]
fn blake3_hash(data: &[u8]) -> (r: [u8; 32])
    ensures
        r@ == blake3_spec(data@),
{
    ::blake3::hash(data).into()
}

/// Leaves and inner nodes are hashed in separate domains: a leaf is BLAKE3
/// of the byte 0x00 followed by the 32 bytes of its value, an inner node
/// BLAKE3 of the byte 0x01 followed by its children's digests, one after the
/// other, in order.
pub proof fn lemma_blake3_domains(v: FrBytes, cs: Seq<[u8; 32]>)
    ensures
        <Blake3Hash as crate::hashes::Hash>::spec_leaf(v) == bytes_array(blake3_spec(seq![0x00u8] + v.0@)),
        <Blake3Hash as crate::hashes::Hash>::spec_node(cs) == bytes_array(blake3_spec(seq![0x01u8] + digests_bytes(cs))),
{
}

/// BLAKE3 with domain-separated leaves and inner nodes.
pub struct Blake3Hash;

impl crate::hashes::Hash for Blake3Hash {
    type Field = FrBytes;
    type Digest = [u8; 32];

    open spec fn spec_empty() -> [u8; 32] {
        le_bytes_array(0)
    }

    open spec fn spec_leaf(value: FrBytes) -> [u8; 32] {
        bytes_array(blake3_spec(seq![0u8] + value.0@))
    }

    open spec fn spec_node(values: Seq<[u8; 32]>) -> [u8; 32] {
        bytes_array(blake3_spec(seq![1u8] + digests_bytes(values)))
    }

    open spec fn spec_digest_bytes(d: [u8; 32]) -> Seq<u8> {
        d@
    }

    open spec fn spec_digest_size() -> nat {
        32
    }

    open spec fn spec_digest_to_field(d: [u8; 32]) -> FrBytes {
        fr_of_bytes(d@)
    }

    fn empty() -> (r: [u8; 32]) {
        <[u8; 32] as NodeDigest>::zero()
    }

    fn leaf(value: &FrBytes) -> (r: [u8; 32]) {
        let input = tagged_bytes(0, &value.0);
        let r = blake3_hash(input.as_slice());
        proof {
            assert(input@ == seq![0u8] + value.0@);
            lemma_bytes_array(r, blake3_spec(seq![0u8] + value.0@));
        }
        r
    }

    fn node(values: &[[u8; 32]]) -> (r: [u8; 32]) {
        let input = tagged_digests(1, values);
        let r = blake3_hash(input.as_slice());
        proof {
            lemma_bytes_array(r, blake3_spec(seq![1u8] + digests_bytes(values@)));
        }
        r
    }

    fn digest_bytes(d: &[u8; 32]) -> (r: Vec<u8>) {
        bytes32_vec(d)
    }

    /// BLAKE3 outputs 256 bits by default.
    fn digest_size() -> (r: usize) {
        32
    }

    fn digest_to_field(d: &[u8; 32]) -> (r: FrBytes) {
        fr_from_le_bytes_mod_order(d)
    }

    fn digest_eq(a: &[u8; 32], b: &[u8; 32]) -> (r: bool) {
        bytes32_eq(a, b)
    }
}

} // verus!
