//! Flat hash vector commitment: the commitment is ONE hash over the node's
//! immediate children. With C = {c1, ..., cn} the children of node v,
//! v.digest = H(c1.digest, ..., cn.digest).

use vstd::prelude::*;
use crate::field::NodeDigest;
use crate::hashes::poseidon2::Poseidon2FlatHash;
use crate::vc::VectorCommitment;
use std::marker::PhantomData;

verus! {

pub struct FlatHashVc<H: crate::hashes::Hash> {
    max_width: usize,
    _hash: PhantomData<H>,
}

pub struct FlatHashOpener<H: crate::hashes::Hash> {
    nodes: Vec<H::Digest>,
}

/// Every slot EXCEPT the opened one, in slot order.
pub struct FlatHashWitness<H: crate::hashes::Hash> {
    siblings: Vec<H::Digest>,
}

/// Chain-fold Poseidon2 merges over Mersenne-31.
pub type Poseidon2FlatHashVc = FlatHashVc<Poseidon2FlatHash>;

impl<H: crate::hashes::Hash> FlatHashWitness<H> {
    /// The sibling slots as a sequence.
    pub closed spec fn spec_siblings(&self) -> Seq<H::Digest> {
        self.siblings@
    }

    /// The sibling slots in slot order (all slots except the opened one).
    pub fn siblings(&self) -> (r: &[H::Digest])
        ensures
            r@ == self.spec_siblings(),
    {
        self.siblings.as_slice()
    }

    /// A witness carrying the given sibling slots.
    pub fn from_siblings(siblings: Vec<H::Digest>) -> (r: Self)
        ensures
            r.spec_siblings() == siblings@,
    {
        FlatHashWitness { siblings }
    }
}

impl<H: crate::hashes::Hash> FlatHashVc<H> {
    /// The setup bound on the committed width.
    pub closed spec fn spec_max_width(&self) -> nat {
        self.max_width as nat
    }

    /// What `check` accepts: the opened slot fits among the siblings, the
    /// whole vector fits the setup bound, and hashing the vector rebuilt from
    /// the siblings gives the commitment.
    pub proof fn lemma_check_unfold(&self, c: H::Digest, i: int, value: H::Digest, w: FlatHashWitness<H>)
        ensures
            self.spec_check(c, i, value, w) <==> {
                &&& 0 <= i <= w.spec_siblings().len()
                &&& w.spec_siblings().len() < self.spec_max_width()
                &&& H::spec_node(with_slot(w.spec_siblings(), i, value)) == c
            },
    {
    }

    /// An opening of slot `i` of a committed vector carries every other
    /// slot: one sibling fewer than the vector has slots.
    pub proof fn lemma_opening_siblings(&self, opener: &FlatHashOpener<H>, values: Seq<H::Digest>, i: int, w: FlatHashWitness<H>)
        requires
            self.opens(opener, values),
            self.is_opening(opener, i, w),
            0 <= i < values.len(),
        ensures
            w.spec_siblings().len() + 1 == values.len(),
    {
    }
}

impl<H: crate::hashes::Hash> Clone for FlatHashWitness<H> {
    fn clone(&self) -> (r: Self)
        ensures
            r.spec_siblings() == self.spec_siblings(),
    {
        FlatHashWitness { siblings: crate::vc::copy_slice(self.siblings.as_slice()) }
    }
}

/// The vector with `value` put back at slot `i` among the siblings.
pub open spec fn with_slot<D>(siblings: Seq<D>, i: int, value: D) -> Seq<D> {
    siblings.take(i).push(value) + siblings.skip(i)
}

impl<H: crate::hashes::Hash> VectorCommitment for FlatHashVc<H> {
    type DigestType = H::Digest;
    type Commitment = H::Digest;
    type Witness = FlatHashWitness<H>;
    type Opener = FlatHashOpener<H>;

    open spec fn wf(&self) -> bool {
        true
    }

    closed spec fn max_width(&self) -> nat {
        self.max_width as nat
    }

    open spec fn spec_empty_commitment() -> H::Digest {
        H::spec_empty()
    }

    open spec fn spec_commit(&self, values: Seq<H::Digest>) -> H::Digest {
        H::spec_node(values)
    }

    closed spec fn opens(&self, opener: &FlatHashOpener<H>, values: Seq<H::Digest>) -> bool {
        opener.nodes@ == values && values.len() <= self.max_width
    }

    closed spec fn opener_width(&self, opener: &FlatHashOpener<H>) -> nat {
        opener.nodes@.len()
    }

    /// The witness holds every slot but the opened one.
    closed spec fn is_opening(&self, opener: &FlatHashOpener<H>, i: int, w: FlatHashWitness<H>) -> bool {
        w.spec_siblings() == opener.nodes@.remove(i)
    }

    /// The opened slot fits among the siblings, the whole vector fits the
    /// setup bound, and hashing the vector rebuilt from the siblings gives
    /// the commitment.
    closed spec fn spec_check(&self, c: H::Digest, i: int, value: H::Digest, w: FlatHashWitness<H>) -> bool {
        &&& 0 <= i <= w.spec_siblings().len()
        &&& w.spec_siblings().len() < self.max_width
        &&& H::spec_node(with_slot(w.spec_siblings(), i, value)) == c
    }

    open spec fn spec_commitment_bytes(c: H::Digest) -> Seq<u8> {
        H::spec_digest_bytes(c)
    }

    open spec fn spec_commitment_size(c: H::Digest) -> nat {
        H::spec_digest_size()
    }

    closed spec fn spec_witness_size(w: FlatHashWitness<H>) -> nat {
        w.spec_siblings().len() * H::spec_digest_size()
    }

    open spec fn spec_to_field(c: H::Digest) -> H::Digest {
        c
    }

    fn setup(width: usize) -> (r: Self) {
        FlatHashVc { max_width: width, _hash: PhantomData }
    }

    fn empty_commitment() -> (r: H::Digest) {
        H::empty()
    }

    fn commit(&self, values: &[H::Digest]) -> (r: (H::Digest, FlatHashOpener<H>)) {
        let com = H::node(values);
        (com, FlatHashOpener { nodes: crate::vc::copy_slice(values) })
    }

    fn open(&self, opener: &FlatHashOpener<H>, i: usize) -> (w: FlatHashWitness<H>) {
        let n = opener.nodes.len();
        let mut siblings: Vec<H::Digest> = Vec::new();
        let mut idx: usize = 0;
        while idx < n
            invariant
                n == opener.nodes@.len(),
                i < n,
                idx <= n,
                siblings@ == (if idx <= i {
                    opener.nodes@.take(idx as int)
                } else {
                    opener.nodes@.remove(i as int).take(idx - 1)
                }),
            decreases n - idx,
        {
            if idx != i {
                siblings.push(opener.nodes[idx]);
            }
            proof {
                let s = opener.nodes@;
                if idx + 1 <= i {
                    assert(siblings@ =~= s.take(idx + 1));
                } else if idx == i {
                    assert(siblings@ =~= s.remove(i as int).take(idx as int));
                } else {
                    assert(siblings@ =~= s.remove(i as int).take(idx as int));
                }
            }
            idx = idx + 1;
        }
        let w = FlatHashWitness { siblings };
        proof {
            assert(w.spec_siblings() =~= opener.nodes@.remove(i as int));
        }
        w
    }

    fn check(&self, com: &H::Digest, i: usize, value: H::Digest, w: &FlatHashWitness<H>) -> (b: bool) {
        // The witness carries every slot but the opened one, so the committed
        // width is siblings + 1; the opened slot must fit in it, and the whole
        // vector must fit the setup bound.
        if i > w.siblings.len() || w.siblings.len() >= self.max_width {
            return false;
        }
        let n = w.siblings.len();
        let mut hash_input: Vec<H::Digest> = Vec::new();
        let mut j: usize = 0;
        while j < i
            invariant
                i <= n == w.siblings@.len(),
                j <= i,
                hash_input@ == w.siblings@.take(j as int),
            decreases i - j,
        {
            hash_input.push(w.siblings[j]);
            proof {
                assert(hash_input@ =~= w.siblings@.take(j + 1));
            }
            j = j + 1;
        }
        hash_input.push(value);
        while j < n
            invariant
                i <= j <= n == w.siblings@.len(),
                hash_input@ == w.siblings@.take(i as int).push(value) + w.siblings@.subrange(i as int, j as int),
            decreases n - j,
        {
            hash_input.push(w.siblings[j]);
            proof {
                assert(hash_input@ =~= w.siblings@.take(i as int).push(value) + w.siblings@.subrange(i as int, j + 1));
            }
            j = j + 1;
        }
        proof {
            assert(hash_input@ =~= with_slot(w.siblings@, i as int, value));
        }
        let h = H::node(hash_input.as_slice());
        H::digest_eq(&h, com)
    }

    fn commitment_bytes(c: &H::Digest) -> (r: Vec<u8>) {
        H::digest_bytes(c)
    }

    /// Static: the commitment is one hash digest.
    fn commitment_size(c: &H::Digest) -> (r: usize) {
        H::digest_size()
    }

    /// The witness is every sibling slot's digest.
    fn witness_size(w: &FlatHashWitness<H>) -> (r: usize) {
        w.siblings.len() * H::digest_size()
    }

    /// A commitment already is a slot value: hash goes into hash, untranslated.
    fn to_field(c: &H::Digest) -> (r: H::Digest) {
        *c
    }

    proof fn lemma_open_check(&self, opener: &FlatHashOpener<H>, values: Seq<H::Digest>, i: int, w: FlatHashWitness<H>) {
        assert(with_slot(values.remove(i), i, values[i]) =~= values);
    }

    proof fn lemma_opener_width(&self, opener: &FlatHashOpener<H>, values: Seq<H::Digest>) {
    }
}

} // verus!
