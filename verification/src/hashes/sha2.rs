//! SHA-256 tree hash: leaf = H(0x00 || value), node = H(0x01 || children),
//! over BLS12-381 scalar slots.

use vstd::prelude::*;
use crate::field::{bytes_array, fr_from_le_bytes_mod_order, fr_of_bytes, le_bytes_array, lemma_bytes_array, FrBytes, NodeDigest};
use crate::hashes::{bytes32_eq, bytes32_vec, digests_bytes, tagged_bytes, tagged_digests};

verus! {

/// The SHA-256 digest of `data`.
pub uninterp spec fn sha256_spec(data: Seq<u8>) -> Seq<u8>;

/// Calls `sha2::Sha256::digest` (through the `sha2::Digest` trait) on
/// `data`. The contract names the 32-byte result `sha256_spec(data)`; what
/// those bytes are is not stated.
#[verifier::external_body]
fn sha256(data: &[u8]) -> (r: [u8; 32])
    ensures
        r@ == sha256_spec(data@),
{
    <::sha2::Sha256 as ::sha2::Digest>::digest(data).into()
}

/// Leaves and inner nodes are hashed in separate domains: a leaf is
/// SHA-256 of the byte 0x00 followed by the 32 bytes of its value, an inner
/// node SHA-256 of the byte 0x01 followed by its children's digests, one
/// after the other, in order.
pub proof fn lemma_sha256_domains(v: FrBytes, cs: Seq<[u8; 32]>)
    ensures
        <Sha256Hash as crate::hashes::Hash>::spec_leaf(v) == bytes_array(sha256_spec(seq![0x00u8] + v.0@)),
        <Sha256Hash as crate::hashes::Hash>::spec_node(cs) == bytes_array(sha256_spec(seq![0x01u8] + digests_bytes(cs))),
{
}

/// SHA-256 with domain-separated leaves and inner nodes.
pub struct Sha256Hash;

impl crate::hashes::Hash for Sha256Hash {
    type Field = FrBytes;
    type Digest = [u8; 32];

    open spec fn spec_empty() -> [u8; 32] {
        le_bytes_array(0)
    }

    open spec fn spec_leaf(value: FrBytes) -> [u8; 32] {
        bytes_array(sha256_spec(seq![0u8] + value.0@))
    }

    open spec fn spec_node(values: Seq<[u8; 32]>) -> [u8; 32] {
        bytes_array(sha256_spec(seq![1u8] + digests_bytes(values)))
    }

    open spec fn spec_digest_bytes(d: [u8; 32]) -> Seq<u8> {
        d@
    }

    open spec fn spec_digest_size() -> nat {
        32
    }

    open spec fn spec_digest_to_field(d: [u8; 32]) -> FrBytes {
        fr_of_bytes(d@)
    }

    fn empty() -> (r: [u8; 32]) {
        <[u8; 32] as NodeDigest>::zero()
    }

    fn leaf(value: &FrBytes) -> (r: [u8; 32]) {
        let input = tagged_bytes(0, &value.0);
        let r = sha256(input.as_slice());
        proof {
            assert(input@ == seq![0u8] + value.0@);
            lemma_bytes_array(r, sha256_spec(seq![0u8] + value.0@));
        }
        r
    }

    fn node(values: &[[u8; 32]]) -> (r: [u8; 32]) {
        let input = tagged_digests(1, values);
        let r = sha256(input.as_slice());
        proof {
            lemma_bytes_array(r, sha256_spec(seq![1u8] + digests_bytes(values@)));
        }
        r
    }

    fn digest_bytes(d: &[u8; 32]) -> (r: Vec<u8>) {
        bytes32_vec(d)
    }

    /// SHA-256 outputs 256 bits.
    fn digest_size() -> (r: usize) {
        32
    }

    fn digest_to_field(d: &[u8; 32]) -> (r: FrBytes) {
        fr_from_le_bytes_mod_order(d)
    }

    fn digest_eq(a: &[u8; 32], b: &[u8; 32]) -> (r: bool) {
        bytes32_eq(a, b)
    }
}

} // verus!
