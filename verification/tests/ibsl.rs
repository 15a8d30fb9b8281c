use ibsl::ibsl::{Ibsl, Key};
use ibsl::vc::flat_hash::Poseidon2FlatHashVc;
use ibsl::field::{FrBytes, NodeDigest};
use ibsl::vc::merkle::{Blake3MerkleVc, PoseidonMerkleVc, Sha2MerkleVc};
use ibsl::vc::VectorCommitment;
use ibsl::hashes::poseidon2::Digest;
use ibsl::m31::M31;
use std::collections::BTreeSet;

type Vc = Sha2MerkleVc;

fn search_correctness<V: VectorCommitment>() {
    let keys: Vec<u64> = (0..500).map(|i| i * 3).collect();
    let s = Ibsl::<V>::new(&keys, 42).unwrap();
    for &k in &keys {
        assert!(s.search(k), "member {k} not found");
    }
    for k in [1, 2, 4, 100_000, 1_499] {
        assert!(!s.search(k), "non-member {k} found");
    }
}

#[test]
fn search_correctness_merkle() {
    search_correctness::<Vc>();
}

/// Search must find every member and reject every non-member, across many
/// randomizing seeds and several key layouts.
fn search_correctness_sweep<V: VectorCommitment>(seeds: std::ops::RangeInclusive<u64>) {
    let layouts: Vec<(Vec<u64>, Vec<u64>)> = vec![
        ((1..=60).collect(), vec![0, 61, 1_000]),
        ((0..80).map(|i| i * 2).collect(), vec![1, 3, 79, 159, 1_000]),
        ((1..=40).map(|i| i * 1_000).collect(), vec![0, 500, 1_500, 40_001]),
        (vec![42], vec![41, 43, 0]),
        (vec![7, 9], vec![6, 8, 10]),
    ];

    for seed in seeds {
        for (keys, non_members) in &layouts {
            let s = Ibsl::<V>::new(keys, seed).unwrap();
            let missing: Vec<u64> = keys.iter().copied().filter(|&k| !s.search(k)).collect();
            assert!(
                missing.is_empty(),
                "seed {seed}, n={}: members not found: {missing:?}",
                keys.len()
            );
            for &k in non_members {
                assert!(!s.search(k), "seed {seed}: non-member {k} found");
            }
        }
    }
}

#[test]
fn search_correctness_sweep_merkle() {
    search_correctness_sweep::<Vc>(1..=64);
}

/// Keys 1..=50 with seed 99 build a tree whose upper-level nodes sit off
/// their level's head-chain. Every member must be found.
#[test]
fn search_correctness_regression_seed99() {
    let keys: Vec<u64> = (1..=50).collect();
    let s = Ibsl::<Vc>::new(&keys, 99).unwrap();
    let missing: Vec<u64> = keys.iter().copied().filter(|&k| !s.search(k)).collect();
    assert!(missing.is_empty(), "members not found: {missing:?}");
}

#[test]
fn empty_list() {
    let s = Ibsl::<Vc>::new(&[], 7).unwrap();
    assert!(!s.search(0));
    assert!(!s.search(u64::MAX));
}

fn proofs_verify<V: VectorCommitment>() {
    let keys: Vec<u64> = (1..=100).map(|i| i * 7).collect();
    let s = Ibsl::<V>::new(&keys, 5).unwrap();
    let sigma = s.root_commitment();
    for &k in &keys {
        let pi = s.prove(k).expect("member must have a proof");
        assert!(Ibsl::verify(s.vc(), &sigma, k, &pi), "proof for {k} rejected");
    }
    assert!(s.prove(8).is_none()); // non-member
}

#[test]
fn proofs_verify_merkle() {
    proofs_verify::<Vc>();
}

#[test]
fn duplicate_keys_collapse() {
    let s = Ibsl::<Vc>::new(&[5, 5, 3, 3, 9], 1).unwrap();
    for k in [3, 5, 9] {
        assert!(s.search(k));
    }
    assert!(!s.search(4));
}

#[test]
fn height_is_bounded() {
    let keys: Vec<u64> = (0..300).collect();
    let s = Ibsl::<Vc>::new(&keys, 3).unwrap();
    assert!(s.height() >= 2 && s.height() <= 32);
    let e = Ibsl::<Vc>::new(&[], 3).unwrap();
    assert_eq!(e.height(), 2);
}

#[test]
fn proof_for_wrong_key_rejected() {
    let keys: Vec<u64> = vec![10, 20, 30, 40];
    let s = Ibsl::<Vc>::new(&keys, 11).unwrap();
    let sigma = s.root_commitment();
    let pi = s.prove(30).unwrap();
    assert_eq!(pi.len(), s.height());
    assert!(Ibsl::verify(s.vc(), &sigma, 30, &pi));
    assert!(!Ibsl::verify(s.vc(), &sigma, 20, &pi));
    assert!(!Ibsl::verify(s.vc(), &sigma, 30, &pi[1..]));
    assert!(!Ibsl::verify(s.vc(), &sigma, 30, &[]));
}

#[test]
fn key_order() {
    assert!(Key::NegInf < Key::Val(0));
    assert!(Key::Val(u64::MAX) < Key::PosInf);
    assert_eq!(Key::Val(3).rank_u128(), 4);
    assert_eq!(Key::PosInf.rank_u128(), (1u128 << 64) + 1);
}

#[test]
fn insert_then_search() {
    let mut s = Ibsl::<Vc>::new(&[10, 20, 30], 1).unwrap();
    for k in [5, 15, 25, 35, 0, 40] {
        assert!(s.can_insert(k));
        s.insert(k);
    }
    for k in [0, 5, 10, 15, 20, 25, 30, 35, 40] {
        assert!(s.search(k), "member {k} not found");
    }
    assert!(!s.search(11));
}

#[test]
fn delete_then_search() {
    let keys: Vec<u64> = (1..=50).collect();
    let mut s = Ibsl::<Vc>::new(&keys, 99).unwrap();
    for k in [1, 25, 50, 13] {
        assert!(s.can_delete(k));
        assert!(s.delete(k));
        assert!(!s.search(k), "revoked {k} still found");
    }
    assert!(!s.delete(25)); // already gone
    for k in [2, 24, 26, 49] {
        assert!(s.search(k), "member {k} lost after deletes");
    }
}

/// Scheme-independent tamperings: wrong key, wrong position, truncation,
/// stale root.
fn tampered_proof_rejected<V: VectorCommitment>() {
    let s = Ibsl::<V>::new(&[10, 20, 30, 40], 3).unwrap();
    let sigma = s.root_commitment();
    let pi = s.prove(30).unwrap();

    // proof for the wrong key
    assert!(!Ibsl::verify(s.vc(), &sigma, 20, &pi));

    // opening claimed at the wrong position
    let mut bad = s.prove(30).unwrap();
    bad[0].position += 1;
    assert!(!Ibsl::verify(s.vc(), &sigma, 30, &bad));

    // truncated chain no longer ends at the leaf commitment
    let mut bad = s.prove(30).unwrap();
    bad.pop();
    assert!(!Ibsl::verify(s.vc(), &sigma, 30, &bad));

    // stale root after an update
    let mut s2 = Ibsl::<V>::new(&[10, 20, 30, 40], 3).unwrap();
    s2.insert(35);
    assert!(!Ibsl::verify(s2.vc(), &s2.root_commitment(), 30, &pi));
}

#[test]
fn tampered_proof_rejected_merkle() {
    tampered_proof_rejected::<Vc>();

    // Scheme-specific tampering against the digests.
    let s = Ibsl::<Vc>::new(&[10, 20, 30, 40], 3).unwrap();
    let sigma = s.root_commitment();

    // swapped child commitment breaks the opening chain
    let mut bad = s.prove(30).unwrap();
    bad[1].commitment = [0xAB; 32];
    assert!(!Ibsl::verify(s.vc(), &sigma, 30, &bad));

    // tampered sibling hash in an opening witness
    let mut bad = s.prove(30).unwrap();
    bad[0].witness.siblings[0][0] ^= 1;
    assert!(!Ibsl::verify(s.vc(), &sigma, 30, &bad));

    // truncated opening witness
    let mut bad = s.prove(30).unwrap();
    bad[0].witness.siblings.pop();
    assert!(!Ibsl::verify(s.vc(), &sigma, 30, &bad));
}

#[test]
fn tampered_proof_rejected_merkle_blake3() {
    tampered_proof_rejected::<Blake3MerkleVc>();

    // Scheme-specific tamperings against the BLAKE3 hashes.
    let s = Ibsl::<Blake3MerkleVc>::new(&[10, 20, 30, 40], 3).unwrap();
    let sigma = s.root_commitment();

    // swapped child commitment breaks the opening chain
    let mut bad = s.prove(30).unwrap();
    bad[1].commitment = [0xAB; 32];
    assert!(!Ibsl::verify(s.vc(), &sigma, 30, &bad));

    // tampered sibling hash in an opening witness
    let mut bad = s.prove(30).unwrap();
    bad[0].witness.siblings[0][0] ^= 1;
    assert!(!Ibsl::verify(s.vc(), &sigma, 30, &bad));

    // truncated opening witness
    let mut bad = s.prove(30).unwrap();
    bad[0].witness.siblings.pop();
    assert!(!Ibsl::verify(s.vc(), &sigma, 30, &bad));
}

#[test]
fn tampered_proof_rejected_flat_poseidon2() {
    tampered_proof_rejected::<Poseidon2FlatHashVc>();

    let s = Ibsl::<Poseidon2FlatHashVc>::new(&[10, 20, 30, 40], 3).unwrap();
    let sigma = s.root_commitment();
    let mut bad = s.prove(30).unwrap();
    bad[1].commitment = Digest([M31(0xAB); 8]);
    assert!(!Ibsl::verify(s.vc(), &sigma, 30, &bad));
}

#[test]
fn proofs_verify_merkle_blake3() {
    proofs_verify::<Blake3MerkleVc>();
}

#[test]
fn proofs_verify_flat_poseidon2() {
    proofs_verify::<Poseidon2FlatHashVc>();
}

#[test]
fn proofs_verify_in_commitment_and_hash_modes() {
    let keys: Vec<u64> = (1..=40).map(|i| i * 5).collect();
    let s = Ibsl::<Vc>::new(&keys, 13).unwrap();
    let sigma = s.root_commitment();
    for &k in &keys {
        let pi = s.prove(k).unwrap();
        assert!(Ibsl::verify(s.vc(), &sigma, k, &pi), "commitment-mode proof for {k} rejected");
        let ph = s.prove_hash(k).unwrap();
        assert!(Ibsl::verify_hash(s.vc(), &sigma, k, &ph), "hash-mode proof for {k} rejected");
        assert!(!Ibsl::verify_hash(s.vc(), &sigma, k + 1, &ph));
    }
    assert!(s.prove_hash(3).is_none());
}

fn randomized_against_btreeset<V: VectorCommitment>() {
    let mut s = Ibsl::<V>::new(&[], 0xDEAD).unwrap();
    let mut model = BTreeSet::new();
    let mut rng = 0xBEEFu64;
    let mut next = || {
        rng ^= rng << 13;
        rng ^= rng >> 7;
        rng ^= rng << 17;
        rng
    };
    for _ in 0..400 {
        let k = next() % 200;
        if next() % 3 == 0 {
            assert!(s.can_delete(k));
            s.delete(k);
            model.remove(&k);
        } else {
            assert!(s.can_insert(k));
            s.insert(k);
            model.insert(k);
        }
    }
    let sigma = s.root_commitment();
    for k in 0..200 {
        assert_eq!(s.search(k), model.contains(&k), "mismatch at key {k}");
        if model.contains(&k) {
            let pi = s.prove(k).expect("member proof");
            assert!(Ibsl::verify(s.vc(), &sigma, k, &pi), "proof for {k} rejected");
        }
    }
}

#[test]
fn randomized_against_btreeset_merkle() {
    randomized_against_btreeset::<Vc>();
}

#[test]
fn delete_of_non_member_changes_nothing() {
    let mut s = Ibsl::<Vc>::new(&[3, 6, 9], 4).unwrap();
    let sigma = s.root_commitment();
    let h = s.height();
    assert!(!s.delete(4));
    assert_eq!(s.root_commitment(), sigma);
    assert_eq!(s.height(), h);
}

#[test]
fn insert_of_member_keeps_the_set() {
    let mut s = Ibsl::<Vc>::new(&[3, 6, 9], 4).unwrap();
    s.insert(6);
    for k in [3, 6, 9] {
        assert!(s.search(k));
    }
    assert!(!s.search(5));
}

#[test]
fn delete_undoes_insert() {
    let keys: Vec<u64> = (1..=30).map(|i| i * 10).collect();
    let mut s = Ibsl::<Vc>::new(&keys, 8).unwrap();
    let h = s.height();
    s.insert(155);
    assert!(s.search(155));
    assert!(s.delete(155));
    for k in 0..=310 {
        assert_eq!(s.search(k), k % 10 == 0 && (10..=300).contains(&k), "key {k}");
    }
    assert_eq!(s.height(), h);
}

#[test]
fn proofs_verify_after_updates() {
    let keys: Vec<u64> = (1..=40).collect();
    let mut s = Ibsl::<Vc>::new(&keys, 21).unwrap();
    for k in [7, 8, 9, 40, 1] {
        assert!(s.delete(k));
    }
    for k in [100, 8, 55] {
        s.insert(k);
    }
    let sigma = s.root_commitment();
    for k in 0..=100 {
        let member = s.search(k);
        match s.prove(k) {
            Some(pi) => {
                assert!(member);
                assert!(Ibsl::verify(s.vc(), &sigma, k, &pi), "proof for {k} rejected");
            }
            None => assert!(!member),
        }
    }
}

/// Poseidon derives its round constants on every hash, so this runs on a
/// smaller set than `proofs_verify`.
#[test]
fn poseidon_merkle_proofs_verify() {
    let keys: Vec<u64> = (1..=12).map(|i| i * 7).collect();
    let s = Ibsl::<PoseidonMerkleVc>::new(&keys, 5).unwrap();
    let sigma = s.root_commitment();
    for &k in &keys {
        let pi = s.prove(k).expect("member must have a proof");
        assert!(Ibsl::verify(s.vc(), &sigma, k, &pi), "proof for {k} rejected");
    }
    assert!(s.prove(8).is_none());
}

#[test]
fn tampered_proof_rejected_merkle_poseidon() {
    tampered_proof_rejected::<PoseidonMerkleVc>();

    // Scheme-specific tamperings against the Poseidon digests.
    let s = Ibsl::<PoseidonMerkleVc>::new(&[10, 20, 30, 40], 3).unwrap();
    let sigma = s.root_commitment();

    // swapped child commitment breaks the opening chain
    let mut bad = s.prove(30).unwrap();
    bad[1].commitment = FrBytes::from_u128(0xAB);
    assert!(!Ibsl::verify(s.vc(), &sigma, 30, &bad));

    // tampered sibling digest in an opening witness
    let mut bad = s.prove(30).unwrap();
    bad[0].witness.siblings[0].0[0] ^= 1;
    assert!(!Ibsl::verify(s.vc(), &sigma, 30, &bad));

    // truncated opening witness
    let mut bad = s.prove(30).unwrap();
    bad[0].witness.siblings.pop();
    assert!(!Ibsl::verify(s.vc(), &sigma, 30, &bad));
}

#[test]
fn insert_undoes_delete() {
    let keys: Vec<u64> = (1..=25).collect();
    let mut s = Ibsl::<Vc>::new(&keys, 17).unwrap();
    assert!(s.delete(12));
    assert!(!s.search(12));
    s.insert(12);
    for k in 0..=30 {
        assert_eq!(s.search(k), (1..=25).contains(&k), "key {k}");
    }
    let sigma = s.root_commitment();
    let pi = s.prove(12).unwrap();
    assert!(Ibsl::verify(s.vc(), &sigma, 12, &pi));
}

#[test]
fn threshold_zero_builds_two_levels() {
    // no coin ever falls below 0: one root over the whole base list
    let a: Vec<u64> = (0..510).collect();
    let s = Ibsl::<Vc>::new_with_threshold(&a, 1, 0).unwrap();
    assert_eq!(s.height(), 2);
    assert!(s.search(509));
    // 511 keys and the two sentinels are 513 children: too wide
    let b: Vec<u64> = (0..511).collect();
    assert!(Ibsl::<Vc>::new_with_threshold(&b, 1, 0).is_none());
    // duplicates do not count
    let mut c: Vec<u64> = (0..510).collect();
    c.extend(0..100);
    assert!(Ibsl::<Vc>::new_with_threshold(&c, 1, 0).is_some());
}

#[test]
fn insert_of_member_keeps_the_root() {
    let mut s = Ibsl::<Vc>::new(&[3, 6, 9], 4).unwrap();
    let sigma = Vc::commitment_bytes(&s.root_commitment());
    let h = s.height();
    assert!(s.can_insert(6));
    s.insert(6);
    assert_eq!(Vc::commitment_bytes(&s.root_commitment()), sigma);
    assert_eq!(s.height(), h);
}

#[test]
fn small_sets_always_have_room() {
    let mut s = Ibsl::<Vc>::new(&[10, 20, 30], 1).unwrap();
    for k in [5, 15, 25, 35, 0, 40] {
        assert!(s.can_insert(k));
        s.insert(k);
    }
    for k in [0, 5, 10, 15, 20, 25, 30, 35, 40] {
        assert!(s.can_delete(k));
    }
    assert!([0, 5, 10, 15, 20, 25, 30, 35, 40].iter().all(|&k| s.search(k)));
    assert!(!s.search(11));
}

#[test]
fn build_depends_on_the_key_set_only() {
    let a: Vec<u64> = (1..=200).map(|i| i * 3).collect();
    let mut b: Vec<u64> = a.iter().rev().cloned().collect();
    b.extend(a.iter().take(50));
    let sa = Ibsl::<Vc>::new(&a, 77).unwrap();
    let sb = Ibsl::<Vc>::new(&b, 77).unwrap();
    assert_eq!(Vc::commitment_bytes(&sa.root_commitment()), Vc::commitment_bytes(&sb.root_commitment()));
    assert_eq!(sa.height(), sb.height());
}

#[test]
fn default_build_is_the_half_threshold_build() {
    let keys: Vec<u64> = (0..300).map(|i| i * 7 + 1).collect();
    let s = Ibsl::<Vc>::new(&keys, 5).unwrap();
    let t = Ibsl::<Vc>::new_with_threshold(&keys, 5, 1u64 << 63).unwrap();
    assert_eq!(Vc::commitment_bytes(&s.root_commitment()), Vc::commitment_bytes(&t.root_commitment()));
    assert_eq!(s.height(), t.height());
}
