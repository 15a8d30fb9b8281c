use ibsl::field::NodeDigest;
use ibsl::hashes::poseidon2::{merge, permute, Digest, Poseidon2FlatHash, WIDTH};

use ibsl::m31::{m31_add, M31};

/// The permutation must actually mix: no lane survives unchanged, and
/// flipping one input lane changes every output lane.
#[test]
fn permutation_diffuses() {
    let mut a: [M31; WIDTH] = std::array::from_fn(|i| M31::from_u32_unchecked(i as u32));
    let mut b = a;
    b[3] = m31_add(b[3], M31::from_u32_unchecked(1));
    permute(&mut a);
    permute(&mut b);
    assert!(a.iter().zip(b).all(|(x, y)| *x != y), "avalanche failed");
}

#[test]
fn merge_is_order_sensitive() {
    let l = Digest::from_u128(7);
    let r = Digest::from_u128(9);
    assert_ne!(merge(l, r), merge(r, l));
}

#[test]
fn key_embedding_is_injective() {
    let a = Digest::from_u128(u64::MAX as u128);
    let b = Digest::from_u128(u64::MAX as u128 - 1);
    assert_ne!(a, b);
    assert_ne!(Digest::from_u128(0), Digest::from_u128(1));
}

/// The fold is what `Hash::node` promises, and the 1-slot case is the
/// zero-padded merge the STARK's first row reproduces.
#[test]
fn fold_matches_manual_chain() {
    let s: Vec<Digest> = (1..=4).map(|i| Digest::from_u128(i)).collect();
    let expect = merge(merge(merge(s[0], s[1]), s[2]), s[3]);
    assert_eq!(<Poseidon2FlatHash as ibsl::hashes::Hash>::node(&s), expect);
    assert_eq!(<Poseidon2FlatHash as ibsl::hashes::Hash>::node(&s[..1]), merge(s[0], Digest::zero()));
}

#[test]
fn empty_node_is_zero() {
    assert_eq!(<Poseidon2FlatHash as ibsl::hashes::Hash>::node(&[]), Digest::zero());
}

#[test]
fn digest_bytes_are_little_endian_words() {
    let d = Digest::from_u128(0x1234_5678);
    let b = <Poseidon2FlatHash as ibsl::hashes::Hash>::digest_bytes(&d);
    assert_eq!(b.len(), 32);
    assert_eq!(&b[..4], &[0x78, 0x56, 0x34, 0x12]);
    assert_eq!(<Poseidon2FlatHash as ibsl::hashes::Hash>::digest_size(), 32);
}
