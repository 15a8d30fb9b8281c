//! Poseidon tree hash over BLS12-381 scalars: leaf = P(0, value), node =
//! P(1, children). Digests are scalars, so `digest_to_field` is the
//! identity and the parent-child chain never leaves the field.

use vstd::prelude::*;
use crate::field::{FrBytes, NodeDigest};
use crate::hashes::{bytes32_eq, bytes32_vec};
use ark_bls12_381::Fr;
use ark_crypto_primitives::sponge::poseidon::{find_poseidon_ark_and_mds, PoseidonConfig, PoseidonSponge};
use ark_crypto_primitives::sponge::{CryptographicSponge, FieldBasedCryptographicSponge};
use ark_ff::PrimeField;
use ark_serialize::CanonicalSerialize;

verus! {

/// The Poseidon sponge over BLS12-381 scalars, with the standard
/// constraints-optimized parameters at rate 3 (8 full rounds, 56 partial
/// rounds, alpha 5), absorbing `inputs` and squeezing one scalar.
pub uninterp spec fn poseidon_spec(inputs: Seq<FrBytes>) -> FrBytes;

/// Derives the parameters with `ark_crypto_primitives`'
/// `find_poseidon_ark_and_mds` (255-bit prime, rate 3, 8 full and 56
/// partial rounds, no skipped matrices) and `PoseidonConfig::new` (alpha 5,
/// capacity 1), absorbs the inputs, read as scalars by
/// `from_le_bytes_mod_order`, into a `PoseidonSponge`, squeezes one native
/// scalar and serializes it. The contract names the result
/// `poseidon_spec(inputs)`; its value is not stated.
#[verifier::external_body]
fn poseidon(inputs: &[FrBytes]) -> (r: FrBytes)
    ensures
        r == poseidon_spec(inputs@),
{
    let (ark, mds) = find_poseidon_ark_and_mds::<Fr>(255, 3, 8, 56, 0);
    let config = PoseidonConfig::new(8, 56, 5, mds, ark, 3, 1);
    let xs: Vec<Fr> = inputs.iter().map(|x| Fr::from_le_bytes_mod_order(&x.0)).collect();
    let mut sponge = PoseidonSponge::<Fr>::new(&config);
    sponge.absorb(&xs);
    let out = sponge.squeeze_native_field_elements(1)[0];
    let mut b = [0u8; 32];
    out.serialize_compressed(&mut b[..]).expect("32 bytes hold a scalar");
    FrBytes(b)
}

/// Leaves and inner nodes are hashed in separate domains: the sponge
/// absorbs the tag 0 before a leaf's value, and the tag 1 before an inner
/// node's children, in order.
pub proof fn lemma_poseidon_domains(v: FrBytes, cs: Seq<FrBytes>)
    ensures
        <PoseidonHash as crate::hashes::Hash>::spec_leaf(v) == poseidon_spec(seq![FrBytes::spec_from_u128(0), v]),
        <PoseidonHash as crate::hashes::Hash>::spec_node(cs) == poseidon_spec(seq![FrBytes::spec_from_u128(1)] + cs),
        (seq![FrBytes::spec_from_u128(1)] + cs).len() == cs.len() + 1,
        (seq![FrBytes::spec_from_u128(1)] + cs)[0] == FrBytes::spec_from_u128(1),
{
}

/// The Poseidon tree hash.
pub struct PoseidonHash;

impl crate::hashes::Hash for PoseidonHash {
    type Field = FrBytes;
    type Digest = FrBytes;

    open spec fn spec_empty() -> FrBytes {
        FrBytes::spec_zero()
    }

    open spec fn spec_leaf(value: FrBytes) -> FrBytes {
        poseidon_spec(seq![FrBytes::spec_from_u128(0), value])
    }

    open spec fn spec_node(values: Seq<FrBytes>) -> FrBytes {
        poseidon_spec(seq![FrBytes::spec_from_u128(1)] + values)
    }

    open spec fn spec_digest_bytes(d: FrBytes) -> Seq<u8> {
        d.0@
    }

    open spec fn spec_digest_size() -> nat {
        32
    }

    open spec fn spec_digest_to_field(d: FrBytes) -> FrBytes {
        d
    }

    fn empty() -> (r: FrBytes) {
        FrBytes::zero()
    }

    fn leaf(value: &FrBytes) -> (r: FrBytes) {
        let inputs = [FrBytes::from_u128(0), *value];
        proof {
            assert(inputs@ =~= seq![FrBytes::spec_from_u128(0), *value]);
        }
        poseidon(&inputs)
    }

    fn node(values: &[FrBytes]) -> (r: FrBytes) {
        let mut inputs: Vec<FrBytes> = Vec::new();
        inputs.push(FrBytes::from_u128(1));
        let mut i: usize = 0;
        while i < values.len()
            invariant
                i <= values@.len(),
                inputs@ == seq![FrBytes::spec_from_u128(1)] + values@.take(i as int),
            decreases values@.len() - i,
        {
            inputs.push(values[i]);
            proof {
                assert(values@.take(i + 1) =~= values@.take(i as int).push(values@[i as int]));
            }
            i = i + 1;
        }
        proof {
            assert(values@.take(values@.len() as int) =~= values@);
        }
        poseidon(inputs.as_slice())
    }

    fn digest_bytes(d: &FrBytes) -> (r: Vec<u8>) {
        bytes32_vec(&d.0)
    }

    /// A scalar serializes to 32 bytes.
    fn digest_size() -> (r: usize) {
        32
    }

    /// A Poseidon digest already is a scalar.
    fn digest_to_field(d: &FrBytes) -> (r: FrBytes) {
        *d
    }

    fn digest_eq(a: &FrBytes, b: &FrBytes) -> (r: bool) {
        let r = bytes32_eq(&a.0, &b.0);
        proof {
            if a.0 == b.0 {
                assert(*a == *b);
            }
        }
        r
    }
}

} // verus!
