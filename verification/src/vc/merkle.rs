//! Vector commitment from a binary Merkle tree, generic over the hash.
//!
//! The vector (m_0, ..., m_{d-1}) is padded with zeros to the next power of
//! two, at least 2, leaves: the tree is sized to the vector actually
//! committed, not to the setup width, which is only an upper bound. Leaf i
//! is H_leaf(m_i) and inner nodes are H_node(left, right), in separate
//! domains. The commitment is the root, and opening slot i is the usual
//! authentication path of sibling hashes, leaf level first. A witness
//! carries the tree depth as its length.

use vstd::prelude::*;
use crate::field::NodeDigest;
use crate::hashes::blake3::Blake3Hash;
use crate::hashes::poseidon::PoseidonHash;
use crate::hashes::poseidon2::pow2;
use crate::hashes::sha2::Sha256Hash;
use crate::vc::{HashVc, VectorCommitment};
use std::marker::PhantomData;

verus! {

pub struct MerkleVc<H: crate::hashes::Hash> {
    /// Maximum vector length committable (the setup width bound); actual
    /// trees are sized to each committed vector.
    max_width: usize,
    _hash: PhantomData<H>,
}

pub type Sha2MerkleVc = MerkleVc<Sha256Hash>;

pub type Blake3MerkleVc = MerkleVc<Blake3Hash>;

pub type PoseidonMerkleVc = MerkleVc<PoseidonHash>;

/// Sibling digests along the path, leaf level first.
pub struct MerklePath<H: crate::hashes::Hash> {
    pub siblings: Vec<H::Digest>,
}

/// Prover-side state: the whole tree, leaves first, so opening a slot
/// copies sibling digests out of the stored layers.
pub struct MerkleOpener<H: crate::hashes::Hash> {
    layers: Vec<Vec<H::Digest>>,
}

/// The depth of the tree for a vector of `len` slots: the least `d >= 1`
/// with `2^d >= len`.
pub open spec fn merkle_depth(len: nat) -> nat
    decreases len,
{
    if len <= 2 {
        1
    } else {
        1 + merkle_depth(((len + 1) / 2) as nat)
    }
}

/// The leaf layer of a tree of `w` leaves over `values`, zero-padded.
pub open spec fn leaf_layer<H: crate::hashes::Hash>(values: Seq<H::Field>, w: nat) -> Seq<H::Digest> {
    Seq::new(w, |i: int| H::spec_leaf(if i < values.len() { values[i] } else { H::Field::spec_zero() }))
}

/// The layer above `layer`: each adjacent pair hashed into one node.
pub open spec fn pair_up<H: crate::hashes::Hash>(layer: Seq<H::Digest>) -> Seq<H::Digest> {
    Seq::new(layer.len() / 2, |i: int| H::spec_node(seq![layer[2 * i], layer[2 * i + 1]]))
}

/// `layer` and the `k` layers above it.
pub open spec fn build_layers<H: crate::hashes::Hash>(layer: Seq<H::Digest>, k: nat) -> Seq<Seq<H::Digest>>
    decreases k,
{
    if k == 0 {
        seq![layer]
    } else {
        seq![layer] + build_layers::<H>(pair_up::<H>(layer), (k - 1) as nat)
    }
}

/// All layers of the tree over `values`, leaves first, root last.
pub open spec fn tree_layers<H: crate::hashes::Hash>(values: Seq<H::Field>) -> Seq<Seq<H::Digest>> {
    let d = merkle_depth(values.len());
    build_layers::<H>(leaf_layer::<H>(values, pow2(d) as nat), d)
}

/// The root of the tree over `values`.
pub open spec fn merkle_root<H: crate::hashes::Hash>(values: Seq<H::Field>) -> H::Digest {
    tree_layers::<H>(values).last()[0]
}

/// Layers that halve from the leaves up to a single root.
pub open spec fn shaped<D>(layers: Seq<Seq<D>>) -> bool {
    &&& layers.len() >= 1
    &&& layers.last().len() == 1
    &&& forall|k: int| 0 <= k < layers.len() - 1 ==> #[trigger] layers[k].len() == 2 * layers[k + 1].len()
}

/// The position on layer `k` of the path from leaf `i`.
pub open spec fn path_index(i: nat, k: nat) -> nat
    decreases k,
{
    if k == 0 {
        i
    } else {
        path_index(i, (k - 1) as nat) / 2
    }
}

/// The position of the sibling of position `j`.
pub open spec fn sibling(j: nat) -> nat {
    if j % 2 == 0 {
        j + 1
    } else {
        (j - 1) as nat
    }
}

/// The authentication path of leaf `i`: the sibling on every layer below
/// the root.
pub open spec fn auth_path<D>(layers: Seq<Seq<D>>, i: nat) -> Seq<D> {
    Seq::new((layers.len() - 1) as nat, |k: int| layers[k][sibling(path_index(i, k as nat)) as int])
}

/// Hashing `h`, sitting at position `idx`, up through the siblings `sibs`.
pub open spec fn climb<H: crate::hashes::Hash>(h: H::Digest, idx: nat, sibs: Seq<H::Digest>) -> H::Digest
    decreases sibs.len(),
{
    if sibs.len() == 0 {
        h
    } else {
        let up = if idx % 2 == 0 { H::spec_node(seq![h, sibs[0]]) } else { H::spec_node(seq![sibs[0], h]) };
        climb::<H>(up, idx / 2, sibs.drop_first())
    }
}

/// The depth a witness claims is allowed by the setup bound `max_width`:
/// at least one merge, and no more leaves than the next power of two of
/// the bound.
pub open spec fn depth_ok(depth: nat, max_width: nat) -> bool {
    &&& depth >= 1
    &&& pow2((depth - 1) as nat) < (if max_width < 2 { 2 } else { max_width })
}

/// The tree over `len` slots has at least `len` leaves, and its depth is
/// within any bound of at least `len` slots.
proof fn lemma_depth(len: nat)
    ensures
        merkle_depth(len) >= 1,
        pow2(merkle_depth(len)) >= len,
        pow2(merkle_depth(len)) >= 2,
        pow2((merkle_depth(len) - 1) as nat) < (if len < 2 { 2 } else { len }),
    decreases len,
{
    if len > 2 {
        let c = ((len + 1) / 2) as nat;
        lemma_depth(c);
        let d = merkle_depth(c);
        assert(pow2(d + 1) == 2 * pow2(d));
        assert(pow2(d) == 2 * pow2((d - 1) as nat));
    } else {
        assert(pow2(0) == 1);
        assert(pow2(1) == 2);
    }
}

/// The layers above a layer of `2^k` digests halve down to one root.
#[verifier::spinoff_prover]
proof fn lemma_build_layers<H: crate::hashes::Hash>(layer: Seq<H::Digest>, k: nat)
    requires
        layer.len() == pow2(k),
    ensures
        build_layers::<H>(layer, k).len() == k + 1,
        build_layers::<H>(layer, k)[0] == layer,
        forall|t: int| 0 <= t <= k ==> (#[trigger] build_layers::<H>(layer, k)[t]).len() == pow2((k - t) as nat),
        forall|t: int| 0 <= t < k ==> #[trigger] build_layers::<H>(layer, k)[t + 1] == pair_up::<H>(build_layers::<H>(layer, k)[t]),
        shaped(build_layers::<H>(layer, k)),
    decreases k,
{
    let b = build_layers::<H>(layer, k);
    if k > 0 {
        let up = pair_up::<H>(layer);
        assert(pow2(k) == 2 * pow2((k - 1) as nat));
        lemma_build_layers::<H>(up, (k - 1) as nat);
        let r = build_layers::<H>(up, (k - 1) as nat);
        assert(b == seq![layer] + r);
        assert forall|t: int| 0 <= t <= k implies (#[trigger] b[t]).len() == pow2((k - t) as nat) by {
            if t > 0 {
                assert(b[t] == r[t - 1]);
            }
        }
        assert forall|t: int| 0 <= t < k implies #[trigger] b[t + 1] == pair_up::<H>(b[t]) by {
            if t > 0 {
                assert(b[t + 1] == r[t]);
                assert(b[t] == r[t - 1]);
            }
        }
        assert forall|t: int| 0 <= t < b.len() - 1 implies #[trigger] b[t].len() == 2 * b[t + 1].len() by {
            assert(pow2((k - t) as nat) == 2 * pow2((k - t - 1) as nat));
        }
    } else {
        assert(pow2(0) == 1);
    }
}

/// A position below `2^(d - k)` on layer `k` climbs to the root.
proof fn lemma_path_index_bound(i: nat, d: nat, k: nat)
    requires
        i < pow2(d),
        k <= d,
    ensures
        path_index(i, k) < pow2((d - k) as nat),
    decreases k,
{
    if k > 0 {
        lemma_path_index_bound(i, d, (k - 1) as nat);
        assert(pow2((d - k + 1) as nat) == 2 * pow2((d - k) as nat));
    }
}

/// Completeness of an authentication path: climbing from layer `k` with
/// the rest of the path reaches the root.
#[verifier::spinoff_prover]
proof fn lemma_climb<H: crate::hashes::Hash>(layers: Seq<Seq<H::Digest>>, i: nat, k: nat)
    requires
        shaped(layers),
        forall|t: int| 0 <= t < layers.len() - 1 ==> #[trigger] layers[t + 1] == pair_up::<H>(layers[t]),
        forall|t: int| 0 <= t < layers.len() ==> (#[trigger] layers[t]).len() == pow2((layers.len() - 1 - t) as nat),
        i < layers[0].len(),
        k < layers.len(),
    ensures
        climb::<H>(layers[k as int][path_index(i, k) as int], path_index(i, k),
            auth_path(layers, i).subrange(k as int, layers.len() - 1)) == layers.last()[0],
    decreases layers.len() - k,
{
    let d = (layers.len() - 1) as nat;
    let sibs = auth_path(layers, i).subrange(k as int, d as int);
    let j = path_index(i, k);
    lemma_path_index_bound(i, d, k);
    if k == d {
        assert(sibs.len() == 0);
        assert(pow2(0) == 1);
        assert(j == 0);
    } else {
        lemma_climb::<H>(layers, i, k + 1);
        let l = layers[k as int];
        let up_layer = layers[(k + 1) as int];
        assert(up_layer == pair_up::<H>(l));
        assert(l.len() == 2 * up_layer.len());
        assert(path_index(i, k + 1) == j / 2);
        assert(j / 2 < up_layer.len());
        assert(sibs[0] == l[sibling(j) as int]);
        if j % 2 == 0 {
            assert(2 * (j / 2) == j);
            assert(up_layer[(j / 2) as int] == H::spec_node(seq![l[j as int], l[sibling(j) as int]]));
        } else {
            assert(2 * (j / 2) + 1 == j);
            assert(up_layer[(j / 2) as int] == H::spec_node(seq![l[sibling(j) as int], l[j as int]]));
        }
        assert(sibs.drop_first() =~= auth_path(layers, i).subrange((k + 1) as int, d as int));
    }
}

/// The least `d >= 1` with `2^d >= len` is the tree depth.
proof fn lemma_depth_least(len: nat, d: nat)
    requires
        d >= 1,
        pow2(d) >= len,
        d == 1 || pow2((d - 1) as nat) < len,
    ensures
        d == merkle_depth(len),
{
    lemma_depth(len);
    let md = merkle_depth(len);
    if d < md {
        crate::hashes::poseidon2::lemma_pow2_mono(d, (md - 1) as nat);
    } else if d > md {
        crate::hashes::poseidon2::lemma_pow2_mono(md, (d - 1) as nat);
    }
}

/// The layers stored in an opener, as sequences.
pub open spec fn layers_view<D>(layers: Seq<Vec<D>>) -> Seq<Seq<D>> {
    Seq::new(layers.len(), |k: int| layers[k]@)
}

impl<H: crate::hashes::Hash> MerkleOpener<H> {
    /// The stored layers, leaves first.
    pub closed spec fn spec_layers(&self) -> Seq<Seq<H::Digest>> {
        layers_view(self.layers@)
    }
}

impl<H: crate::hashes::Hash> MerklePath<H> {
    /// The sibling digests, leaf level first.
    pub open spec fn spec_siblings(&self) -> Seq<H::Digest> {
        self.siblings@
    }
}

impl<H: crate::hashes::Hash> Clone for MerklePath<H> {
    fn clone(&self) -> (r: Self)
        ensures
            r.spec_siblings() == self.spec_siblings(),
    {
        MerklePath { siblings: crate::vc::copy_slice(self.siblings.as_slice()) }
    }
}

impl<H: crate::hashes::Hash> MerkleVc<H> {
    /// The layer above `cur`: each adjacent pair hashed into one node.
    fn pair_layer(cur: &Vec<H::Digest>) -> (r: Vec<H::Digest>)
        ensures
            r@ == pair_up::<H>(cur@),
    {
        let len = cur.len();
        let half = len / 2;
        let mut next: Vec<H::Digest> = Vec::new();
        let mut q: usize = 0;
        while q < half
            invariant
                half == cur@.len() / 2,
                len == cur@.len(),
                q <= half,
                next@ == pair_up::<H>(cur@).take(q as int),
            decreases half - q,
        {
            proof {
                assert(2 * q + 1 < cur@.len());
            }
            let h = H::node(&[cur[2 * q], cur[2 * q + 1]]);
            next.push(h);
            proof {
                assert(next@ =~= pair_up::<H>(cur@).take(q + 1));
            }
            q = q + 1;
        }
        proof {
            assert(next@ =~= pair_up::<H>(cur@));
        }
        next
    }

    /// Whether `siblings` names an allowed depth and slot `i` fits that
    /// depth; `depth_ok` and `i < 2^depth`.
    fn shape_fits(&self, depth: usize, i: usize) -> (r: bool)
        requires
            self.max_width <= usize::MAX / 4,
        ensures
            r == (depth_ok(depth as nat, self.max_width as nat) && i < pow2(depth as nat)),
    {
        if depth == 0 {
            return false;
        }
        let bound: usize = if self.max_width < 2 { 2 } else { self.max_width };
        let mut p: usize = 1;
        let mut k: usize = 1;
        while k < depth
            invariant
                1 <= k <= depth,
                bound <= usize::MAX / 4,
                bound == (if self.max_width < 2 { 2 } else { self.max_width }),
                p == pow2((k - 1) as nat),
                p < bound,
            decreases depth - k,
        {
            if p * 2 >= bound {
                proof {
                    assert(pow2(k as nat) == 2 * p);
                    crate::hashes::poseidon2::lemma_pow2_mono(k as nat, (depth - 1) as nat);
                }
                return false;
            }
            p = p * 2;
            k = k + 1;
        }
        proof {
            assert(pow2(depth as nat) == 2 * pow2((depth - 1) as nat));
        }
        i < 2 * p
    }
}

impl<H: crate::hashes::Hash> VectorCommitment for MerkleVc<H> {
    type DigestType = H::Field;
    type Commitment = H::Digest;
    type Witness = MerklePath<H>;
    type Opener = MerkleOpener<H>;

    closed spec fn wf(&self) -> bool {
        self.max_width <= usize::MAX / 4
    }

    closed spec fn max_width(&self) -> nat {
        self.max_width as nat
    }

    open spec fn spec_empty_commitment() -> H::Digest {
        H::spec_empty()
    }

    open spec fn spec_commit(&self, values: Seq<H::Field>) -> H::Digest {
        merkle_root::<H>(values)
    }

    closed spec fn opens(&self, opener: &MerkleOpener<H>, values: Seq<H::Field>) -> bool {
        opener.spec_layers() == tree_layers::<H>(values) && values.len() <= self.max_width
    }

    closed spec fn opener_width(&self, opener: &MerkleOpener<H>) -> nat {
        if shaped(opener.spec_layers()) {
            opener.spec_layers()[0].len()
        } else {
            0
        }
    }

    /// The witness is the authentication path of the slot.
    closed spec fn is_opening(&self, opener: &MerkleOpener<H>, i: int, w: MerklePath<H>) -> bool {
        w.siblings@ == auth_path(opener.spec_layers(), i as nat)
    }

    /// The path length is an allowed depth, the slot fits a tree of that
    /// depth, and hashing the value's leaf up the path gives the commitment.
    closed spec fn spec_check(&self, c: H::Digest, i: int, value: H::Field, w: MerklePath<H>) -> bool {
        &&& depth_ok(w.siblings@.len(), self.max_width as nat)
        &&& 0 <= i < pow2(w.siblings@.len())
        &&& climb::<H>(H::spec_leaf(value), i as nat, w.siblings@) == c
    }

    open spec fn spec_commitment_bytes(c: H::Digest) -> Seq<u8> {
        H::spec_digest_bytes(c)
    }

    open spec fn spec_commitment_size(c: H::Digest) -> nat {
        H::spec_digest_size()
    }

    closed spec fn spec_witness_size(w: MerklePath<H>) -> nat {
        w.siblings@.len() * H::spec_digest_size()
    }

    open spec fn spec_to_field(c: H::Digest) -> H::Field {
        H::spec_digest_to_field(c)
    }

    fn setup(width: usize) -> (r: Self) {
        MerkleVc { max_width: width, _hash: PhantomData }
    }

    fn empty_commitment() -> (r: H::Digest) {
        H::empty()
    }

    #[verifier::spinoff_prover]
    fn commit(&self, values: &[H::Field]) -> (r: (H::Digest, MerkleOpener<H>)) {
        let n = values.len();
        let ghost vals = values@;
        // The tree depth d and leaf count w = 2^d.
        let mut w: usize = 2;
        let mut d: usize = 1;
        proof {
            assert(pow2(0) == 1);
            assert(pow2(1) == 2);
        }
        while w < n
            invariant
                n == vals.len(),
                n <= usize::MAX / 4,
                d >= 1,
                w == pow2(d as nat),
                d < w,
                d == 1 || pow2((d - 1) as nat) < n,
            decreases usize::MAX - w,
        {
            w = w * 2;
            d = d + 1;
        }
        proof {
            lemma_depth_least(n as nat, d as nat);
        }
        let ghost leaves = leaf_layer::<H>(vals, w as nat);
        let mut cur: Vec<H::Digest> = Vec::new();
        let mut i: usize = 0;
        while i < w
            invariant
                n == vals.len(),
                vals == values@,
                leaves == leaf_layer::<H>(vals, w as nat),
                i <= w,
                cur@ == leaves.take(i as int),
            decreases w - i,
        {
            let v = if i < n { values[i] } else { H::Field::zero() };
            cur.push(H::leaf(&v));
            proof {
                assert(cur@ =~= leaves.take(i + 1));
            }
            i = i + 1;
        }
        let ghost b = build_layers::<H>(leaves, d as nat);
        proof {
            assert(cur@ =~= leaves);
            lemma_build_layers::<H>(leaves, d as nat);
        }
        let mut layers: Vec<Vec<H::Digest>> = Vec::new();
        let mut k: usize = 0;
        while k < d
            invariant
                b == build_layers::<H>(leaves, d as nat),
                b.len() == d + 1,
                forall|t: int| 0 <= t < d ==> #[trigger] b[t + 1] == pair_up::<H>(b[t]),
                k <= d,
                layers_view(layers@) == b.take(k as int),
                cur@ == b[k as int],
            decreases d - k,
        {
            let next = Self::pair_layer(&cur);
            let ghost cv = cur@;
            let ghost before = layers@;
            layers.push(cur);
            proof {
                assert(layers_view(before).len() == k);
                assert(before.len() == k);
                assert(layers@.len() == k + 1);
                assert(layers@ == before.push(layers@[k as int]));
                assert(layers@[k as int]@ == cv);
                assert forall|t: int| 0 <= t <= k implies #[trigger] layers_view(layers@)[t] == b.take(k + 1)[t] by {
                    if t < k {
                        assert(layers@[t] == before[t]);
                        assert(layers_view(before)[t] == b.take(k as int)[t]);
                    }
                }
                assert(layers_view(layers@) =~= b.take(k + 1));
            }
            cur = next;
            k = k + 1;
        }
        proof {
            assert(cur@.len() == pow2(0));
        }
        let root = cur[0];
        let ghost cv = cur@;
        let ghost before = layers@;
        layers.push(cur);
        let opener = MerkleOpener { layers };
        proof {
            assert(opener.layers@ == before.push(opener.layers@[d as int]));
            assert(opener.layers@[d as int]@ == cv);
            assert forall|t: int| 0 <= t <= d implies #[trigger] opener.spec_layers()[t] == b[t] by {
                if t < d {
                    assert(opener.layers@[t] == before[t]);
                    assert(layers_view(before)[t] == b.take(d as int)[t]);
                }
            }
            assert(opener.spec_layers() =~= b);
            assert(b == tree_layers::<H>(vals));
        }
        (root, opener)
    }

    fn open(&self, opener: &MerkleOpener<H>, i: usize) -> (w: MerklePath<H>) {
        let ghost l = opener.spec_layers();
        let nl = opener.layers.len();
        let mut idx: usize = i;
        let mut siblings: Vec<H::Digest> = Vec::new();
        let mut k: usize = 0;
        while k + 1 < nl
            invariant
                l == opener.spec_layers(),
                l == layers_view(opener.layers@),
                shaped(l),
                nl == l.len(),
                k < nl,
                idx == path_index(i as nat, k as nat),
                idx < l[k as int].len(),
                siblings@ == auth_path(l, i as nat).take(k as int),
            decreases nl - k,
        {
            let layer = &opener.layers[k];
            proof {
                assert(layer@ == l[k as int]);
                assert(l[k as int].len() == 2 * l[k + 1].len());
            }
            let s = if idx % 2 == 0 { idx + 1 } else { idx - 1 };
            siblings.push(layer[s]);
            proof {
                assert(siblings@ =~= auth_path(l, i as nat).take(k + 1));
            }
            idx = idx / 2;
            k = k + 1;
        }
        proof {
            assert(siblings@ =~= auth_path(l, i as nat));
        }
        MerklePath { siblings }
    }

    fn check(&self, c: &H::Digest, i: usize, value: H::Field, w: &MerklePath<H>) -> (b: bool) {
        let depth = w.siblings.len();
        if !self.shape_fits(depth, i) {
            return false;
        }
        let h = climb_up::<H>(H::leaf(&value), i, w.siblings.as_slice());
        H::digest_eq(&h, c)
    }

    fn commitment_bytes(c: &H::Digest) -> (r: Vec<u8>) {
        H::digest_bytes(c)
    }

    /// Static: the commitment is one hash digest.
    fn commitment_size(c: &H::Digest) -> (r: usize) {
        H::digest_size()
    }

    /// The witness is one digest per tree level.
    fn witness_size(w: &MerklePath<H>) -> (r: usize) {
        w.siblings.len() * H::digest_size()
    }

    fn to_field(c: &H::Digest) -> (r: H::Field) {
        H::digest_to_field(c)
    }

    proof fn lemma_open_check(&self, opener: &MerkleOpener<H>, values: Seq<H::Field>, i: int, w: MerklePath<H>) {
        let n = values.len();
        let d = merkle_depth(n);
        lemma_depth(n);
        let leaves = leaf_layer::<H>(values, pow2(d) as nat);
        lemma_build_layers::<H>(leaves, d);
        let l = tree_layers::<H>(values);
        lemma_climb::<H>(l, i as nat, 0);
        assert(auth_path(l, i as nat).subrange(0, l.len() - 1) =~= auth_path(l, i as nat));
        assert(l[0][i] == H::spec_leaf(values[i]));
    }

    proof fn lemma_opener_width(&self, opener: &MerkleOpener<H>, values: Seq<H::Field>) {
        let n = values.len();
        let d = merkle_depth(n);
        lemma_depth(n);
        lemma_build_layers::<H>(leaf_layer::<H>(values, pow2(d) as nat), d);
    }
}

/// Hashes `h`, sitting at position `i`, up through the siblings `sibs`.
pub(crate) fn climb_up<H: crate::hashes::Hash>(h: H::Digest, i: usize, sibs: &[H::Digest]) -> (r: H::Digest)
    ensures
        r == climb::<H>(h, i as nat, sibs@),
{
    let n = sibs.len();
    let mut acc = h;
    let mut idx = i;
    let mut k: usize = 0;
    proof {
        assert(sibs@.skip(0) =~= sibs@);
    }
    while k < n
        invariant
            n == sibs@.len(),
            k <= n,
            climb::<H>(acc, idx as nat, sibs@.skip(k as int)) == climb::<H>(h, i as nat, sibs@),
        decreases n - k,
    {
        let s = sibs[k];
        proof {
            assert(sibs@.skip(k as int)[0] == s);
            assert(sibs@.skip(k as int).drop_first() =~= sibs@.skip(k + 1));
        }
        acc = if idx % 2 == 0 { H::node(&[acc, s]) } else { H::node(&[s, acc]) };
        idx = idx / 2;
        k = k + 1;
    }
    proof {
        assert(sibs@.skip(n as int).len() == 0);
    }
    acc
}

proof fn lemma_build_layers_len<H: crate::hashes::Hash>(layer: Seq<H::Digest>, k: nat)
    ensures
        build_layers::<H>(layer, k).len() == k + 1,
        build_layers::<H>(layer, k)[0] == layer,
    decreases k,
{
    if k > 0 {
        lemma_build_layers_len::<H>(pair_up::<H>(layer), (k - 1) as nat);
    }
}

/// Each layer above the first pairs up the one below: node `i` is the node
/// hash of children `2i` (left) and `2i + 1` (right).
proof fn lemma_build_layers_pairs<H: crate::hashes::Hash>(layer: Seq<H::Digest>, k: nat, t: int, i: int)
    requires
        0 <= t < k,
        0 <= i < build_layers::<H>(layer, k)[t + 1].len(),
    ensures
        build_layers::<H>(layer, k)[t + 1].len() == build_layers::<H>(layer, k)[t].len() / 2,
        build_layers::<H>(layer, k)[t + 1][i] == H::spec_node(seq![build_layers::<H>(layer, k)[t][2 * i], build_layers::<H>(layer, k)[t][2 * i + 1]]),
    decreases k,
{
    let up = pair_up::<H>(layer);
    let rest = build_layers::<H>(up, (k - 1) as nat);
    let all = build_layers::<H>(layer, k);
    lemma_build_layers_len::<H>(up, (k - 1) as nat);
    assert(all == seq![layer] + rest);
    assert(all[t + 1] == rest[t]);
    assert(all[0] == layer);
    if t == 0 {
        assert(rest[0] == up);
    } else {
        assert(all[t] == rest[t - 1]);
        lemma_build_layers_pairs::<H>(up, (k - 1) as nat, t - 1, i);
    }
}

/// The tree over `values` is built bottom-up by pairs: the leaves are the
/// leaf hashes of the values (zero-padded to a power of two), and node `i`
/// of every higher layer is the node hash of nodes `2i` (left) and `2i + 1`
/// (right) of the layer below.
pub proof fn lemma_tree_shape<H: crate::hashes::Hash>(values: Seq<H::Field>, t: int, i: int)
    ensures
        0 <= i < values.len() ==> tree_layers::<H>(values)[0][i] == H::spec_leaf(values[i]),
        0 <= t < merkle_depth(values.len()) && 0 <= i < tree_layers::<H>(values)[t + 1].len() ==> {
            &&& tree_layers::<H>(values)[t + 1].len() == tree_layers::<H>(values)[t].len() / 2
            &&& tree_layers::<H>(values)[t + 1][i] == H::spec_node(seq![tree_layers::<H>(values)[t][2 * i], tree_layers::<H>(values)[t][2 * i + 1]])
        },
{
    let d = merkle_depth(values.len());
    lemma_depth(values.len());
    let leaves = leaf_layer::<H>(values, pow2(d) as nat);
    if 0 <= i < values.len() {
        assert(tree_layers::<H>(values)[0] == leaves);
    }
    if 0 <= t < d && 0 <= i < tree_layers::<H>(values)[t + 1].len() {
        lemma_build_layers_pairs::<H>(leaves, d, t, i);
    }
}

/// Completeness of an authentication path over the tree of `values`: it
/// has one sibling per level, the slot fits the tree, and climbing from the
/// slot's leaf reaches the root.
pub proof fn lemma_auth_path<H: crate::hashes::Hash>(values: Seq<H::Field>, i: int)
    requires
        0 <= i < values.len(),
    ensures
        auth_path(tree_layers::<H>(values), i as nat).len() == merkle_depth(values.len()),
        path_index(i as nat, merkle_depth(values.len())) == 0,
        climb::<H>(H::spec_leaf(values[i]), i as nat, auth_path(tree_layers::<H>(values), i as nat)) == merkle_root::<H>(values),
{
    let n = values.len();
    let d = merkle_depth(n);
    lemma_depth(n);
    let leaves = leaf_layer::<H>(values, pow2(d) as nat);
    lemma_build_layers::<H>(leaves, d);
    let l = tree_layers::<H>(values);
    lemma_climb::<H>(l, i as nat, 0);
    assert(auth_path(l, i as nat).subrange(0, l.len() - 1) =~= auth_path(l, i as nat));
    assert(l[0][i] == H::spec_leaf(values[i]));
    lemma_path_index_bound(i as nat, d, d);
    assert(pow2(0) == 1);
}

impl<H: crate::hashes::Hash> MerkleVc<H> {
    /// An opener of `values` stores the layers of the tree over `values`.
    pub proof fn lemma_opens_unfold(&self, opener: &MerkleOpener<H>, values: Seq<H::Field>)
        ensures
            self.opens(opener, values) <==> opener.spec_layers() == tree_layers::<H>(values) && values.len() <= self.max_width(),
    {
    }

    /// The opening of slot `i` is its authentication path.
    pub proof fn lemma_opening_unfold(&self, opener: &MerkleOpener<H>, i: int, w: MerklePath<H>)
        ensures
            self.is_opening(opener, i, w) <==> w.siblings@ == auth_path(opener.spec_layers(), i as nat),
    {
    }
}

impl<H: crate::hashes::Hash> HashVc for MerkleVc<H> {
    closed spec fn spec_recompute(&self, position: int, value: H::Field, w: MerklePath<H>) -> Option<H::Digest> {
        if depth_ok(w.siblings@.len(), self.max_width as nat) && 0 <= position < pow2(w.siblings@.len()) {
            Some(climb::<H>(H::spec_leaf(value), position as nat, w.siblings@))
        } else {
            None
        }
    }

    fn recompute(&self, position: usize, value: H::Field, w: &MerklePath<H>) -> (r: Option<H::Digest>) {
        if !self.shape_fits(w.siblings.len(), position) {
            return None;
        }
        Some(climb_up::<H>(H::leaf(&value), position, w.siblings.as_slice()))
    }

    proof fn lemma_check_is_recompute(&self, c: H::Digest, i: int, value: H::Field, w: MerklePath<H>) {
    }
}

} // verus!
