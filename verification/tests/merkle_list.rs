use ibsl::hashes::sha2::Sha256Hash;
use ibsl::merkle_list::MerkleList;

/// The plain-Merkle baseline: search/prove/verify over members and
/// non-members, plus proofs invalidating across updates.
#[test]
fn merkle_list_correctness() {
    let keys: Vec<u64> = (1..=50).map(|i| i * 3).collect();
    let mut s = MerkleList::<Sha256Hash>::new(&keys);
    let root = s.root();
    for &k in &keys {
        assert!(s.search(k), "member {k} not found");
        let p = s.prove(k).expect("member proof");
        assert!(MerkleList::verify(&root, k, &p), "proof for {k} rejected");
    }
    assert!(!s.search(4));
    assert!(s.prove(4).is_none());

    // proof for the wrong key / wrong position
    let p = s.prove(3).unwrap();
    assert!(!MerkleList::verify(&root, 6, &p));
    let mut bad = s.prove(3).unwrap();
    bad.position ^= 1;
    assert!(!MerkleList::verify(&root, 3, &bad));

    // a stale proof no longer verifies after an update
    assert!(s.insert(4));
    assert!(s.search(4));
    assert!(!MerkleList::verify(&s.root(), 3, &p));
    assert!(s.delete(4));
    assert!(!s.search(4));
    assert!(!s.delete(4)); // already gone
}

#[test]
fn merkle_list_counts_distinct_keys() {
    let mut s = MerkleList::<Sha256Hash>::new(&[9, 3, 9, 1, 3]);
    assert_eq!(s.len(), 3);
    assert!(!s.insert(9));
    assert_eq!(s.len(), 3);
    assert!(s.insert(0));
    assert_eq!(s.len(), 4);
    let p = s.prove(0).unwrap();
    assert_eq!(p.position, 0);
    assert!(MerkleList::verify(&s.root(), 0, &p));
}

#[test]
fn merkle_list_position_must_fit_the_path() {
    let s = MerkleList::<Sha256Hash>::new(&[1, 2, 3, 4]);
    let mut p = s.prove(2).unwrap();
    assert_eq!(p.siblings.len(), 2);
    p.position += 4;
    assert!(!MerkleList::verify(&s.root(), 2, &p));
}

#[test]
fn empty_merkle_list() {
    let s = MerkleList::<Sha256Hash>::new(&[]);
    assert_eq!(s.len(), 0);
    assert!(!s.search(0));
    assert!(s.prove(0).is_none());
}
