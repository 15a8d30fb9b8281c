//! Baseline: a plain Merkle tree membership list, with no skip list, no
//! levels and no commitments of commitments. The whole membership set is
//! one tree: the sorted keys are the leaves (embedded in the slot type via
//! the same `Key` map the IBSL uses), the root is sigma, and a membership
//! proof is a single authentication path. Insert and delete rebuild the
//! whole tree.

use vstd::prelude::*;
use crate::ibsl::{key_field, sorted_unique, Key};
use crate::vc::merkle::{climb, climb_up, lemma_auth_path, merkle_root, path_index, tree_layers, MerkleOpener, MerkleVc};
use crate::vc::VectorCommitment;

verus! {

pub struct MerkleList<H: crate::hashes::Hash> {
    /// Sorted, deduplicated member keys; leaf i of the tree is keys[i].
    keys: Vec<u64>,
    /// Parameters sized to the current key count.
    vc: MerkleVc<H>,
    /// The tree layers, leaves first.
    tree: MerkleOpener<H>,
    root: H::Digest,
}

/// A membership proof: the leaf index plus the sibling digests up the tree.
pub struct PathProof<H: crate::hashes::Hash> {
    pub position: usize,
    pub siblings: Vec<H::Digest>,
}

impl<H: crate::hashes::Hash> Clone for PathProof<H> {
    fn clone(&self) -> (r: Self)
        ensures
            r.position == self.position,
            r.siblings@ == self.siblings@,
    {
        PathProof { position: self.position, siblings: crate::vc::copy_slice(self.siblings.as_slice()) }
    }
}

/// The leaves' slot values: each key embedded as `Key::Val(k)`.
pub open spec fn embedded<F: crate::field::NodeDigest>(keys: Seq<u64>) -> Seq<F> {
    Seq::new(keys.len(), |i: int| key_field::<F>(Key::Val(keys[i])))
}

/// A path proof is accepted: the position is exhausted after one halving
/// per sibling (it names a leaf of a tree that deep), and climbing from
/// the key's leaf reaches the root.
pub open spec fn spec_verify_path<H: crate::hashes::Hash>(root: H::Digest, k: u64, p: PathProof<H>) -> bool {
    &&& path_index(p.position as nat, p.siblings@.len()) == 0
    &&& climb::<H>(H::spec_leaf(key_field::<H::Field>(Key::Val(k))), p.position as nat, p.siblings@) == root
}

impl<H: crate::hashes::Hash> View for MerkleList<H> {
    type V = Set<u64>;

    closed spec fn view(&self) -> Set<u64> {
        self.keys@.to_set()
    }
}

impl<H: crate::hashes::Hash> MerkleList<H> {
    /// The member keys, sorted.
    pub closed spec fn spec_keys(&self) -> Seq<u64> {
        self.keys@
    }

    /// The keys are strictly sorted and the tree is the one over them.
    pub closed spec fn wf(&self) -> bool {
        &&& forall|i: int, j: int| 0 <= i < j < self.keys@.len() ==> self.keys@[i] < self.keys@[j]
        &&& self.keys@.len() <= usize::MAX / 4
        &&& self.vc.wf()
        &&& self.keys@.len() <= self.vc.max_width()
        &&& self.tree.spec_layers() == tree_layers::<H>(embedded::<H::Field>(self.keys@))
        &&& self.root == merkle_root::<H>(embedded::<H::Field>(self.keys@))
    }

    /// sigma: the root of the tree over the member keys.
    pub closed spec fn spec_root(&self) -> H::Digest {
        merkle_root::<H>(embedded::<H::Field>(self.keys@))
    }

    /// sigma is the Merkle root over the members in increasing order: the
    /// member keys list the set, strictly increasing, so the set alone
    /// fixes the root.
    pub proof fn lemma_root_over_sorted_keys(&self)
        requires
            self.wf(),
        ensures
            self.spec_root() == merkle_root::<H>(embedded::<H::Field>(self.spec_keys())),
            forall|i: int, j: int| 0 <= i < j < self.spec_keys().len() ==> self.spec_keys()[i] < self.spec_keys()[j],
            forall|v: u64| self@.contains(v) <==> self.spec_keys().contains(v),
    {
    }

    /// The tree, its parameters and its root over sorted `keys`.
    fn build(keys: &Vec<u64>) -> (r: (MerkleVc<H>, MerkleOpener<H>, H::Digest))
        requires
            keys@.len() <= usize::MAX / 4,
        ensures
            r.0.wf(),
            keys@.len() <= r.0.max_width(),
            r.1.spec_layers() == tree_layers::<H>(embedded::<H::Field>(keys@)),
            r.2 == merkle_root::<H>(embedded::<H::Field>(keys@)),
    {
        let mut vals: Vec<H::Field> = Vec::new();
        let mut i: usize = 0;
        while i < keys.len()
            invariant
                i <= keys@.len(),
                vals@ == embedded::<H::Field>(keys@).take(i as int),
            decreases keys@.len() - i,
        {
            vals.push(Key::Val(keys[i]).field());
            proof {
                assert(vals@ =~= embedded::<H::Field>(keys@).take(i + 1));
            }
            i = i + 1;
        }
        proof {
            assert(vals@ =~= embedded::<H::Field>(keys@));
        }
        let vc = MerkleVc::<H>::setup(keys.len());
        let (root, tree) = vc.commit(vals.as_slice());
        proof {
            vc.lemma_opens_unfold(&tree, vals@);
        }
        (vc, tree, root)
    }

    /// Builds the list over `keys` (sorted and deduplicated here).
    pub fn new(keys: &[u64]) -> (r: Self)
        requires
            keys@.len() <= usize::MAX / 4,
        ensures
            r.wf(),
            forall|v: u64| r@.contains(v) <==> keys@.contains(v),
    {
        let ks = sorted_unique(keys);
        let (vc, tree, root) = Self::build(&ks);
        let r = MerkleList { keys: ks, vc, tree, root };
        proof {
            assert forall|v: u64| r@.contains(v) <==> keys@.contains(v) by {
                assert(r@.contains(v) <==> r.keys@.contains(v));
            }
        }
        r
    }

    /// The number of member keys.
    pub fn len(&self) -> (r: usize)
        requires
            self.wf(),
        ensures
            r == self.spec_keys().len(),
            r == self@.len(),
    {
        proof {
            self.lemma_keys_distinct();
        }
        self.keys.len()
    }

    /// The member keys are distinct, so there are as many as the set has.
    proof fn lemma_keys_distinct(&self)
        requires
            self.wf(),
        ensures
            self.keys@.no_duplicates(),
            self@.len() == self.keys@.len(),
    {
        assert(self.keys@.no_duplicates()) by {
            assert forall|i: int, j: int| 0 <= i < self.keys@.len() && 0 <= j < self.keys@.len() && i != j
                implies self.keys@[i] != self.keys@[j] by {
                if i < j {
                    assert(self.keys@[i] < self.keys@[j]);
                } else {
                    assert(self.keys@[j] < self.keys@[i]);
                }
            }
        }
        self.keys@.unique_seq_to_set();
    }

    /// sigma: the Merkle root over the whole membership set.
    pub fn root(&self) -> (r: H::Digest)
        requires
            self.wf(),
        ensures
            r == self.spec_root(),
    {
        self.root
    }

    /// Binary search: `Ok(i)` where `keys[i] == k`, else `Err(i)` with `i`
    /// the insertion point.
    fn find(&self, k: u64) -> (r: Result<usize, usize>)
        requires
            self.wf(),
        ensures
            r matches Ok(i) ==> i < self.keys@.len() && self.keys@[i as int] == k,
            r matches Err(i) ==> i <= self.keys@.len()
                && (forall|j: int| 0 <= j < i ==> self.keys@[j] < k)
                && (forall|j: int| i <= j < self.keys@.len() ==> self.keys@[j] > k),
    {
        let mut lo: usize = 0;
        let mut hi: usize = self.keys.len();
        while lo < hi
            invariant
                self.wf(),
                lo <= hi <= self.keys@.len(),
                forall|j: int| 0 <= j < lo ==> self.keys@[j] < k,
                forall|j: int| hi <= j < self.keys@.len() ==> self.keys@[j] > k,
            decreases hi - lo,
        {
            let mid = lo + (hi - lo) / 2;
            let x = self.keys[mid];
            if x == k {
                return Ok(mid);
            } else if x < k {
                lo = mid + 1;
            } else {
                hi = mid;
            }
        }
        Err(lo)
    }

    /// Whether `k` is a member.
    pub fn search(&self, k: u64) -> (r: bool)
        requires
            self.wf(),
        ensures
            r == self@.contains(k),
    {
        match self.find(k) {
            Ok(_) => true,
            Err(i) => {
                proof {
                    if self.keys@.contains(k) {
                        let j = choose|j: int| 0 <= j < self.keys@.len() && self.keys@[j] == k;
                    }
                }
                false
            },
        }
    }

    /// Adds `k`; returns true if it was newly inserted. Rebuilds the tree.
    pub fn insert(&mut self, k: u64) -> (r: bool)
        requires
            old(self).wf(),
            old(self).spec_keys().len() < usize::MAX / 4,
        ensures
            final(self).wf(),
            r == !old(self)@.contains(k),
            final(self)@ == old(self)@.insert(k),
    {
        match self.find(k) {
            Ok(_) => {
                proof {
                    assert(old(self)@.insert(k) =~= old(self)@);
                }
                false
            },
            Err(i) => {
                let ghost ks0 = self.keys@;
                self.keys.insert(i, k);
                let (vc, tree, root) = Self::build(&self.keys);
                self.vc = vc;
                self.tree = tree;
                self.root = root;
                proof {
                    let ks = self.keys@;
                    assert(ks == ks0.insert(i as int, k));
                    assert forall|a: int, b: int| 0 <= a < b < ks.len() implies ks[a] < ks[b] by {
                        if b < i {
                        } else if a < i && b == i {
                        } else if a < i {
                            assert(ks[b] == ks0[b - 1]);
                        } else if a == i {
                            assert(ks[b] == ks0[b - 1]);
                        } else {
                            assert(ks[a] == ks0[a - 1] && ks[b] == ks0[b - 1]);
                        }
                    }
                    if ks0.contains(k) {
                        let j = choose|j: int| 0 <= j < ks0.len() && ks0[j] == k;
                    }
                    assert forall|v: u64| #[trigger] ks.contains(v) <==> ks0.insert(i as int, k).contains(v) by {}
                    assert forall|v: u64| ks.to_set().contains(v) <==> ks0.to_set().insert(k).contains(v) by {
                        if ks0.contains(v) {
                            let j = choose|j: int| 0 <= j < ks0.len() && ks0[j] == v;
                            if j < i {
                                assert(ks[j] == v);
                            } else {
                                assert(ks[j + 1] == v);
                            }
                        }
                        if ks.contains(v) && v != k {
                            let j = choose|j: int| 0 <= j < ks.len() && ks[j] == v;
                            if j < i {
                                assert(ks0[j] == v);
                            } else {
                                assert(ks0[j - 1] == v);
                            }
                        }
                        if v == k {
                            assert(ks[i as int] == k);
                        }
                    }
                    assert(self@ =~= old(self)@.insert(k));
                }
                true
            },
        }
    }

    /// Removes `k`; returns true if it was a member. Rebuilds the tree.
    pub fn delete(&mut self, k: u64) -> (r: bool)
        requires
            old(self).wf(),
        ensures
            final(self).wf(),
            r == old(self)@.contains(k),
            final(self)@ == old(self)@.remove(k),
    {
        match self.find(k) {
            Ok(i) => {
                let ghost ks0 = self.keys@;
                self.keys.remove(i);
                let (vc, tree, root) = Self::build(&self.keys);
                self.vc = vc;
                self.tree = tree;
                self.root = root;
                proof {
                    let ks = self.keys@;
                    assert(ks == ks0.remove(i as int));
                    assert forall|a: int, b: int| 0 <= a < b < ks.len() implies ks[a] < ks[b] by {
                        if a < i && b >= i {
                            assert(ks[b] == ks0[b + 1]);
                        } else if a >= i {
                            assert(ks[a] == ks0[a + 1] && ks[b] == ks0[b + 1]);
                        }
                    }
                    assert forall|v: u64| ks.to_set().contains(v) <==> ks0.to_set().remove(k).contains(v) by {
                        if ks.contains(v) {
                            let j = choose|j: int| 0 <= j < ks.len() && ks[j] == v;
                            if j < i {
                                assert(ks0[j] == v);
                                assert(ks0[j] < ks0[i as int]);
                            } else {
                                assert(ks0[j + 1] == v);
                                assert(ks0[i as int] < ks0[j + 1]);
                            }
                        }
                        if ks0.contains(v) && v != k {
                            let j = choose|j: int| 0 <= j < ks0.len() && ks0[j] == v;
                            if j < i {
                                assert(ks[j] == v);
                            } else {
                                assert(j != i);
                                assert(ks[j - 1] == v);
                            }
                        }
                    }
                    assert(self@ =~= old(self)@.remove(k));
                }
                true
            },
            Err(_) => {
                proof {
                    if self.keys@.contains(k) {
                        let j = choose|j: int| 0 <= j < self.keys@.len() && self.keys@[j] == k;
                    }
                    assert(old(self)@.remove(k) =~= old(self)@);
                }
                false
            },
        }
    }

    /// The authentication path of `k`; `None` if `k` is not a member.
    pub fn prove(&self, k: u64) -> (r: Option<PathProof<H>>)
        requires
            self.wf(),
        ensures
            r is Some <==> self@.contains(k),
            r matches Some(p) ==> spec_verify_path(self.spec_root(), k, p),
    {
        match self.find(k) {
            Ok(position) => {
                let ghost vals = embedded::<H::Field>(self.keys@);
                proof {
                    self.vc.lemma_opens_unfold(&self.tree, vals);
                    self.vc.lemma_opener_width(&self.tree, vals);
                }
                let w = self.vc.open(&self.tree, position);
                proof {
                    self.vc.lemma_opening_unfold(&self.tree, position as int, w);
                    lemma_auth_path::<H>(vals, position as int);
                }
                Some(PathProof { position, siblings: w.siblings })
            },
            Err(_) => {
                proof {
                    if self.keys@.contains(k) {
                        let j = choose|j: int| 0 <= j < self.keys@.len() && self.keys@[j] == k;
                    }
                }
                None
            },
        }
    }

    /// Recomputes the path from the leaf of `k` and compares against the
    /// root; the position must be exhausted by the path.
    pub fn verify(root: &H::Digest, k: u64, p: &PathProof<H>) -> (r: bool)
        ensures
            r == spec_verify_path(*root, k, *p),
    {
        let h = climb_up::<H>(H::leaf(&Key::Val(k).field()), p.position, p.siblings.as_slice());
        let mut idx = p.position;
        let mut j: usize = 0;
        while j < p.siblings.len()
            invariant
                j <= p.siblings@.len(),
                idx == path_index(p.position as nat, j as nat),
            decreases p.siblings@.len() - j,
        {
            idx = idx / 2;
            j = j + 1;
        }
        idx == 0 && H::digest_eq(&h, root)
    }
}

} // verus!
