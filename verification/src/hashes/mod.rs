//! Hash functions for the Merkle-tree and flat-hash vector commitments.
//!
//! `Hash` is what the trees need from a hash: a slot type it works over, a
//! digest type, the leaf and inner-node compressions, plus an embedding of
//! digests back into the slot type so the IBSL can commit to a child's root.

pub mod blake3;
pub mod poseidon;
pub mod poseidon2;
pub mod sha2;

use vstd::prelude::*;
use crate::field::NodeDigest;

verus! {

/// A slot type, a digest type, and leaf/node compressions over them.
pub trait Hash {
    type Field: NodeDigest;
    type Digest: NodeDigest;

    /// Digest of an all-zero placeholder (for not-yet-committed nodes).
    spec fn spec_empty() -> Self::Digest;

    /// The leaf compression.
    spec fn spec_leaf(value: Self::Field) -> Self::Digest;

    /// The node compression over a vector of child digests.
    spec fn spec_node(values: Seq<Self::Digest>) -> Self::Digest;

    /// Canonical byte encoding of a digest.
    spec fn spec_digest_bytes(d: Self::Digest) -> Seq<u8>;

    /// Digest size in bytes, as specified by the hash's definition.
    spec fn spec_digest_size() -> nat;

    /// Embedding of a digest into the slot type.
    spec fn spec_digest_to_field(d: Self::Digest) -> Self::Field;

    fn empty() -> (r: Self::Digest)
        ensures
            r == Self::spec_empty(),
    ;

    fn leaf(value: &Self::Field) -> (r: Self::Digest)
        ensures
            r == Self::spec_leaf(*value),
    ;

    fn node(values: &[Self::Digest]) -> (r: Self::Digest)
        ensures
            r == Self::spec_node(values@),
    ;

    fn digest_bytes(d: &Self::Digest) -> (r: Vec<u8>)
        ensures
            r@ == Self::spec_digest_bytes(*d),
    ;

    /// Digest size in bytes, as specified by the hash's defining
    /// paper/RFC (e.g. SHA-256 and BLAKE3 both output 256 bits = 32).
    fn digest_size() -> (r: usize)
        ensures
            r == Self::spec_digest_size(),
    ;

    /// Embeds a digest into the slot type (used by the IBSL to commit to a
    /// child's root).
    fn digest_to_field(d: &Self::Digest) -> (r: Self::Field)
        ensures
            r == Self::spec_digest_to_field(*d),
    ;

    /// Digest equality.
    fn digest_eq(a: &Self::Digest, b: &Self::Digest) -> (r: bool)
        ensures
            r == (*a == *b),
    ;
}

/// The bytes of a run of 32-byte digests, one after the other.
pub open spec fn digests_bytes(values: Seq<[u8; 32]>) -> Seq<u8>
    decreases values.len(),
{
    if values.len() == 0 {
        Seq::empty()
    } else {
        digests_bytes(values.drop_last()) + values.last()@
    }
}

/// The bytes of a run of digests are the digests' 32 bytes each, in order:
/// byte `32 i + b` is byte `b` of digest `i`.
pub proof fn lemma_digests_bytes_layout(values: Seq<[u8; 32]>)
    ensures
        digests_bytes(values).len() == 32 * values.len(),
        forall|i: int, b: int| 0 <= i < values.len() && 0 <= b < 32 ==> #[trigger] digests_bytes(values)[32 * i + b] == values[i]@[b],
    decreases values.len(),
{
    if values.len() > 0 {
        let d = values.drop_last();
        lemma_digests_bytes_layout(d);
        let n = values.len() - 1;
        assert forall|i: int, b: int| 0 <= i < values.len() && 0 <= b < 32 implies #[trigger] digests_bytes(values)[32 * i + b] == values[i]@[b] by {
            assert(digests_bytes(values) == digests_bytes(d) + values.last()@);
            if i < n {
                assert(d[i] == values[i]);
                assert(32 * i + b < 32 * n) by (nonlinear_arith)
                    requires i < n, b < 32;
            } else {
                assert(32 * i + b - 32 * n == b);
            }
        }
    }
}

/// `tag` followed by the bytes of `values`: the input of a byte-oriented
/// node compression.
pub(crate) fn tagged_digests(tag: u8, values: &[[u8; 32]]) -> (r: Vec<u8>)
    ensures
        r@ == seq![tag] + digests_bytes(values@),
{
    let mut out: Vec<u8> = Vec::new();
    out.push(tag);
    let mut i: usize = 0;
    while i < values.len()
        invariant
            i <= values@.len(),
            out@ == seq![tag] + digests_bytes(values@.take(i as int)),
        decreases values@.len() - i,
    {
        let d = values[i];
        let mut j: usize = 0;
        while j < 32
            invariant
                j <= 32,
                i < values@.len(),
                d == values@[i as int],
                out@ == seq![tag] + digests_bytes(values@.take(i as int)) + d@.take(j as int),
            decreases 32 - j,
        {
            out.push(d[j]);
            proof {
                assert(d@.take(j + 1) =~= d@.take(j as int).push(d[j as int]));
            }
            j = j + 1;
        }
        proof {
            let t = values@.take(i + 1);
            assert(t.drop_last() =~= values@.take(i as int));
            assert(d@.take(32) =~= d@);
        }
        i = i + 1;
    }
    proof {
        assert(values@.take(values@.len() as int) =~= values@);
    }
    out
}

/// `tag` followed by the 32 bytes of `b`.
pub(crate) fn tagged_bytes(tag: u8, b: &[u8; 32]) -> (r: Vec<u8>)
    ensures
        r@ == seq![tag] + b@,
{
    let mut out: Vec<u8> = Vec::new();
    out.push(tag);
    let mut j: usize = 0;
    while j < 32
        invariant
            j <= 32,
            out@ == seq![tag] + b@.take(j as int),
        decreases 32 - j,
    {
        out.push(b[j]);
        proof {
            assert(b@.take(j + 1) =~= b@.take(j as int).push(b[j as int]));
        }
        j = j + 1;
    }
    proof {
        assert(b@.take(32) =~= b@);
    }
    out
}

/// The 32 bytes of `b` as a vector.
pub(crate) fn bytes32_vec(b: &[u8; 32]) -> (r: Vec<u8>)
    ensures
        r@ == b@,
{
    crate::vc::copy_slice(b.as_slice())
}

/// Byte-wise equality of two 32-byte digests.
pub(crate) fn bytes32_eq(a: &[u8; 32], b: &[u8; 32]) -> (r: bool)
    ensures
        r == (*a == *b),
{
    let mut j: usize = 0;
    while j < 32
        invariant
            j <= 32,
            forall|t: int| 0 <= t < j ==> a[t] == b[t],
        decreases 32 - j,
    {
        if a[j] != b[j] {
            return false;
        }
        j = j + 1;
    }
    proof {
        assert(*a =~= *b);
    }
    true
}

} // verus!
