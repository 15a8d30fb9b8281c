use ibsl::field::{FrBytes, NodeDigest};
use ibsl::vc::merkle::{MerklePath, Sha2MerkleVc};
use ibsl::vc::{HashVc, VectorCommitment};

fn slots(n: u128) -> Vec<FrBytes> {
    (0..n).map(|v| FrBytes::from_u128(v * 7 + 1)).collect()
}

#[test]
fn opens_every_slot() {
    let vc = Sha2MerkleVc::setup(16);
    for n in [1u128, 2, 3, 5, 8, 13, 16] {
        let vals = slots(n);
        let (c, op) = vc.commit(&vals);
        for i in 0..vals.len() {
            let w = vc.open(&op, i);
            assert!(vc.check(&c, i, vals[i], &w), "n={n} slot {i} rejected");
            assert_eq!(vc.recompute(i, vals[i], &w), Some(c));
        }
    }
}

#[test]
fn wrong_value_or_slot_is_rejected() {
    let vc = Sha2MerkleVc::setup(8);
    let vals = slots(6);
    let (c, op) = vc.commit(&vals);
    let w = vc.open(&op, 2);
    assert!(!vc.check(&c, 2, vals[3], &w));
    assert!(!vc.check(&c, 3, vals[2], &w));
    assert!(!vc.check(&c, 8, vals[2], &w));
}

#[test]
fn witness_depth_is_the_tree_depth() {
    let vc = Sha2MerkleVc::setup(512);
    let (_, op) = vc.commit(&slots(5));
    assert_eq!(vc.open(&op, 0).siblings.len(), 3);
    let (_, op) = vc.commit(&slots(1));
    assert_eq!(vc.open(&op, 0).siblings.len(), 1);
    let (_, op) = vc.commit(&slots(2));
    assert_eq!(vc.open(&op, 1).siblings.len(), 1);
}

#[test]
fn depth_beyond_the_setup_bound_is_rejected() {
    // A tree over 4 slots has depth 2; parameters set up for width 2 only
    // accept depth 1.
    let big = Sha2MerkleVc::setup(4);
    let small = Sha2MerkleVc::setup(2);
    let vals = slots(4);
    let (c, op) = big.commit(&vals);
    let w = big.open(&op, 1);
    assert!(big.check(&c, 1, vals[1], &w));
    assert!(!small.check(&c, 1, vals[1], &w));
    assert_eq!(small.recompute(1, vals[1], &w), None);
    let empty = MerklePath { siblings: vec![] };
    assert!(!big.check(&c, 0, vals[0], &empty));
}

#[test]
fn scalars_embed_little_endian() {
    let x = FrBytes::from_u128(0x0102);
    assert_eq!(x.0[0], 0x02);
    assert_eq!(x.0[1], 0x01);
    assert!(x.0[2..].iter().all(|&b| b == 0));
    assert_eq!(<[u8; 32]>::zero(), [0u8; 32]);
}

#[test]
fn digests_reduce_modulo_the_order() {
    // 2^256 - 1 mod r, with r the BLS12-381 scalar order.
    let all = [0xFFu8; 32];
    let f = Sha2MerkleVc::to_field(&all);
    let r: [u8; 32] = [
        0x01, 0x00, 0x00, 0x00, 0xff, 0xff, 0xff, 0xff, 0xfe, 0x5b, 0xfe, 0xff, 0x02, 0xa4, 0xbd, 0x53,
        0x05, 0xd8, 0xa1, 0x09, 0x08, 0xd8, 0x39, 0x33, 0x48, 0x7d, 0x9d, 0x29, 0x53, 0xa7, 0xed, 0x73,
    ];
    // 2^256 - 1 = 2r + rest; check f + 2r == 2^256 - 1 byte-wise via
    // little-endian addition.
    let mut carry = 0u32;
    let mut sum = [0u8; 32];
    for i in 0..32 {
        let t = f.0[i] as u32 + 2 * r[i] as u32 + carry;
        sum[i] = (t & 0xff) as u8;
        carry = t >> 8;
    }
    assert_eq!(sum, all);
    assert_eq!(carry, 0);
}
