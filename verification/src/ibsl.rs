//! Interval Based Skip List (IBSL).
//!
//! What is covered (in simplified form):
//!   - Setup: bottom-up build with probabilistic promotion, shortcut paths
//!     via the redundant-node rule, interval labelling, and authenticated
//!     node commitments.
//!   - Search: interval-guided descent.
//!   - Insert: cases 1 and 2 (no overflow split, no fan-out invariant).
//!   - Delete: leaf + tower removal with pointer bypassing, no rebalancing.
//!   - Prove / Verify: membership proof along the search path, checked
//!     against the root commitment sigma.
//!
//! Authentication is layered commitments-of-commitments. A leaf commits to
//! its own key; every node above commits to the vector of the compact
//! commitment values of ALL of its children, in order:
//!
//! ```text
//! c_leaf = Com(key)        c_v = Com(f(c_1), ..., f(c_m))
//! ```
//!
//! A membership proof for k is a list of (commitment, opening) pairs, one
//! per level top-down along the path; the first commitment is the root.
//!
//! The model: the structure holds, per level, the sequence of its nodes in
//! key order (`levels`, ghost); level 1 is the base list bounded by the
//! sentinels -inf and +inf, and the children of every upper node are a
//! contiguous run of the level below (`bounds`, ghost). The view is the set
//! of keys of the base list.

use vstd::prelude::*;
use crate::field::NodeDigest;
use crate::vc::{copy_slice, HashVc, VectorCommitment};
use std::collections::HashMap;

mod delete;
mod capacity;
mod agg;
mod fit;
mod room;
mod shape;
pub mod plan;

use fit::{first_ge, levels_fit, lemma_first_ge_at, lemma_runs_fit_same, run_len, runs_fit};
use plan::{build_from, build_result, link_sk, link_top, skel, sorted_keys, sweep_upto};
pub mod laws;

pub use agg::{spec_verify_agg, AggProof, AggStep};

verus! {

broadcast use vstd::std_specs::hash::group_hash_axioms;

type NodeId = usize;

/// Highest number of levels a build or an insert creates.
pub const MAX_HEIGHT: usize = 32;

/// Upper bound on a node's fan-out (children per node) the VC is set up
/// for; committing a wider vector is refused.
pub const MAX_FANOUT: usize = 512;

/// Keys of the base layer are bounded by the sentinels -inf and +inf.
#[derive(Clone, Copy, PartialEq, Eq, Structural, PartialOrd, Ord, Debug)]
pub enum Key {
    NegInf,
    Val(u64),
    PosInf,
}

/// The position of a key in the order -inf < 0 < 1 < ... < 2^64-1 < +inf.
pub open spec fn rank(k: Key) -> int {
    match k {
        Key::NegInf => 0,
        Key::Val(v) => v + 1,
        Key::PosInf => 0x1_0000_0000_0000_0001,
    }
}

/// The slot value a key embeds to.
pub open spec fn key_field<F: NodeDigest>(k: Key) -> F {
    F::spec_from_u128(rank(k) as u128)
}

impl Key {
    /// The order-preserving number of the key: -inf -> 0, v -> v + 1,
    /// +inf -> 2^64 + 1.
    #[verifier::spinoff_prover]
    pub fn rank_u128(&self) -> (r: u128)
        ensures
            r == rank(*self),
    {
        match self {
            Key::NegInf => 0,
            Key::Val(v) => *v as u128 + 1,
            Key::PosInf => 0x1_0000_0000_0000_0001,
        }
    }

    /// Injective, order-preserving embedding into the slot type:
    /// -inf -> 0, v -> v + 1, +inf -> 2^64 + 1.
    #[verifier::spinoff_prover]
    pub fn field<F: NodeDigest>(&self) -> (r: F)
        ensures
            r == key_field::<F>(*self),
    {
        F::from_u128(self.rank_u128())
    }
}

/// The key order: -inf below every value, every value below +inf, values
/// in their numeric order; every rank fits the key embedding (at most
/// 2^64 + 1).
pub proof fn lemma_key_order(a: u64, b: u64)
    ensures
        rank(Key::NegInf) < rank(Key::Val(a)) < rank(Key::PosInf),
        a < b <==> rank(Key::Val(a)) < rank(Key::Val(b)),
        0 <= rank(Key::NegInf) && rank(Key::PosInf) <= 0x1_0000_0000_0000_0001,
{
}

/// rank is injective.
#[verifier::spinoff_prover]
proof fn lemma_rank_injective(a: Key, b: Key)
    ensures
        rank(a) == rank(b) ==> a == b,
{
}

#[verifier::spinoff_prover]
fn key_lt(a: Key, b: Key) -> (r: bool)
    ensures
        r == (rank(a) < rank(b)),
{
    a.rank_u128() < b.rank_u128()
}

#[verifier::spinoff_prover]
fn key_le(a: Key, b: Key) -> (r: bool)
    ensures
        r == (rank(a) <= rank(b)),
{
    a.rank_u128() <= b.rank_u128()
}

#[verifier::spinoff_prover]
fn key_eq(a: Key, b: Key) -> (r: bool)
    ensures
        r == (a == b),
{
    proof {
        lemma_rank_injective(a, b);
    }
    a.rank_u128() == b.rank_u128()
}

type Interval = (Key, Key);

#[verifier::spinoff_prover]
fn in_interval(k: Key, iv: Interval) -> (r: bool)
    ensures
        r == (rank(iv.0) <= rank(k) && rank(k) <= rank(iv.1)),
{
    key_le(iv.0, k) && key_le(k, iv.1)
}

struct Node<V: VectorCommitment> {
    key: Key,
    /// 1 = base layer L_1.
    level: usize,
    interval: Interval,
    /// May point to a node at a *lower* level: that is a shortcut path.
    right: Option<NodeId>,
    down: Option<NodeId>,
    /// The children this node owns, left to right (empty at L_1).
    children: Vec<NodeId>,
    /// The compact commitment value, plus the prover-side opener state
    /// `commit` produced with it.
    commitment: V::Commitment,
    opener: Option<V::Opener>,
}

impl<V: VectorCommitment> Node<V> {
    spec fn with_right(self, r: Option<NodeId>) -> Self {
        Node { right: r, ..self }
    }

    spec fn with_down(self, d: Option<NodeId>) -> Self {
        Node { down: d, ..self }
    }

    /// The two nodes agree but for their children.
    spec fn same_but_children(self, other: Self) -> bool {
        &&& self.key == other.key
        &&& self.level == other.level
        &&& self.interval == other.interval
        &&& self.right == other.right
        &&& self.down == other.down
        &&& self.commitment == other.commitment
        &&& self.opener == other.opener
    }

    /// The two nodes agree but for what `commit_node` recomputes.
    spec fn same_but_commitment(self, other: Self) -> bool {
        &&& self.key == other.key
        &&& self.level == other.level
        &&& self.right == other.right
        &&& self.down == other.down
        &&& self.children == other.children
    }

    #[verifier::spinoff_prover]
    fn new(key: Key, level: usize) -> (r: Self)
        ensures
            r.key == key,
            r.level == level,
            r.interval == (key, key),
            r.right is None,
            r.down is None,
            r.children@.len() == 0,
            r.opener is None,
    {
        Node {
            key,
            level,
            interval: (key, key),
            right: None,
            down: None,
            children: Vec::new(),
            commitment: V::empty_commitment(),
            opener: None,
        }
    }
}

// ---------------------------------------------------------------- model

/// Pointer discipline of one node: its level is in range, its interval
/// starts at its key, a right pointer goes to a strictly greater key at the
/// same or a lower level, and an upper node points down to its own copy one
/// level below.
spec fn node_ptr_ok<V: VectorCommitment>(m: Map<NodeId, Node<V>>, id: NodeId, h: int) -> bool {
    let n = m[id];
    &&& 1 <= n.level <= h
    &&& n.interval.0 == n.key
    &&& (n.right matches Some(r) ==> m.contains_key(r) && m[r].level <= n.level && rank(n.key) < rank(m[r].key))
    &&& (n.level > 1 ==> (n.down matches Some(d) && m.contains_key(d) && m[d].level == n.level - 1 && m[d].key == n.key))
    &&& (n.level == 1 ==> n.down is None)
}

#[verifier::opaque]
spec fn ptrs_ok<V: VectorCommitment>(m: Map<NodeId, Node<V>>, h: int) -> bool {
    forall|id: NodeId| #[trigger] m.contains_key(id) ==> node_ptr_ok(m, id, h)
}

/// The base list: every level-1 node, in strictly increasing key order from
/// the -inf sentinel to the +inf sentinel, each pointing right to the next.
#[verifier::opaque]
spec fn base_ok<V: VectorCommitment>(m: Map<NodeId, Node<V>>, base: Seq<NodeId>) -> bool {
    &&& base.len() >= 2
    &&& forall|i: int| 0 <= i < base.len() ==> #[trigger] m.contains_key(base[i]) && m[base[i]].level == 1
    &&& m[base[0]].key == Key::NegInf
    &&& m[base[base.len() - 1]].key == Key::PosInf
    &&& forall|i: int, j: int| 0 <= i < j < base.len() ==> rank(m[#[trigger] base[i]].key) < rank(m[#[trigger] base[j]].key)
    &&& forall|i: int| 0 <= i < base.len() - 1 ==> m[#[trigger] base[i]].right == Some(base[i + 1])
    &&& forall|id: NodeId| #[trigger] m.contains_key(id) && m[id].level == 1 ==> base.contains(id)
}

#[verifier::opaque]
spec fn heads_ok<V: VectorCommitment>(m: Map<NodeId, Node<V>>, heads: Seq<NodeId>) -> bool {
    &&& 2 <= heads.len() <= MAX_HEIGHT
    &&& forall|l: int| 0 <= l < heads.len() ==> #[trigger] m.contains_key(heads[l]) && m[heads[l]].level == l + 1
        && m[heads[l]].key == Key::NegInf
    // the top level holds the root alone
    &&& forall|id: NodeId| #[trigger] m.contains_key(id) && m[id].level == heads.len() ==> id == heads[heads.len() - 1]
}

/// The keys of the base list.
spec fn base_keys<V: VectorCommitment>(m: Map<NodeId, Node<V>>, base: Seq<NodeId>) -> Set<u64> {
    Set::new(|v: u64| exists|i: int| 0 <= i < base.len() && #[trigger] m[base[i]].key == Key::Val(v))
}

/// One level's node sequence: nonempty, all at that level, strictly
/// increasing keys.
spec fn level_seq_ok<V: VectorCommitment>(m: Map<NodeId, Node<V>>, s: Seq<NodeId>, lvl: int) -> bool {
    &&& s.len() >= 1
    &&& forall|i: int| 0 <= i < s.len() ==> #[trigger] m.contains_key(s[i]) && m[s[i]].level == lvl
    &&& forall|i: int, j: int| 0 <= i < j < s.len() ==> rank(m[#[trigger] s[i]].key) < rank(m[#[trigger] s[j]].key)
}

/// The children of `up[i]` are `low[b[i] .. b[i + 1]]`, a nonempty run whose
/// first node is `up[i]`'s own copy one level below; the runs cover `low`.
spec fn children_ok<V: VectorCommitment>(m: Map<NodeId, Node<V>>, up: Seq<NodeId>, low: Seq<NodeId>, b: Seq<int>) -> bool {
    &&& b.len() == up.len() + 1
    &&& b[0] == 0
    &&& b[up.len() as int] == low.len()
    &&& forall|i: int, j: int| 0 <= i < j <= up.len() ==> #[trigger] b[i] < #[trigger] b[j]
    &&& forall|i: int| 0 <= i < up.len() ==> #[trigger] m[up[i]].children@ == low.subrange(b[i], b[i + 1])
    &&& forall|i: int| 0 <= i < up.len() ==> m[low[#[trigger] b[i]]].key == m[up[i]].key
}

#[verifier::opaque]
spec fn levels_ok<V: VectorCommitment>(
    m: Map<NodeId, Node<V>>,
    heads: Seq<NodeId>,
    levels: Seq<Seq<NodeId>>,
    bounds: Seq<Seq<int>>,
) -> bool {
    &&& levels.len() == heads.len()
    &&& bounds.len() == levels.len()
    &&& forall|l: int| 0 <= l < levels.len() ==> level_seq_ok(m, #[trigger] levels[l], l + 1) && levels[l][0] == heads[l]
    &&& levels[levels.len() - 1] == seq![heads[heads.len() - 1]]
    &&& forall|l: int| 1 <= l < levels.len() ==> children_ok(m, #[trigger] levels[l], levels[l - 1], bounds[l])
}

/// The slot values node `id` commits to: its key at a leaf, its children's
/// compact commitments above.
spec fn node_vals<V: VectorCommitment>(m: Map<NodeId, Node<V>>, id: NodeId) -> Seq<V::DigestType> {
    if m[id].level == 1 {
        seq![key_field::<V::DigestType>(m[id].key)]
    } else {
        m[id].children@.map_values(|c: NodeId| V::spec_to_field(m[c].commitment))
    }
}

/// Node `id` holds the commitment to its slot values and the matching
/// opener.
spec fn committed<V: VectorCommitment>(vc: V, m: Map<NodeId, Node<V>>, id: NodeId) -> bool {
    &&& m[id].opener matches Some(op) && vc.opens(&op, node_vals(m, id))
    &&& m[id].commitment == vc.spec_commit(node_vals(m, id))
}

#[verifier::opaque]
spec fn commits_ok<V: VectorCommitment>(vc: V, m: Map<NodeId, Node<V>>, levels: Seq<Seq<NodeId>>) -> bool {
    forall|l: int, i: int| 0 <= l < levels.len() && 0 <= i < levels[l].len() ==> committed(vc, m, #[trigger] levels[l][i])
}

/// No upper node has more children than the vector commitment is set up
/// for.
#[verifier::opaque]
spec fn fanout_ok<V: VectorCommitment>(m: Map<NodeId, Node<V>>, levels: Seq<Seq<NodeId>>) -> bool {
    forall|l: int, i: int| 1 <= l < levels.len() && 0 <= i < levels[l].len() ==> m[#[trigger] levels[l][i]].children@.len() <= MAX_FANOUT
}

/// `s[i]` is the node of `s` owning `key`'s range: the last one whose key is
/// at most `key`.
spec fn is_owner<V: VectorCommitment>(m: Map<NodeId, Node<V>>, s: Seq<NodeId>, i: int, key: Key) -> bool {
    &&& 0 <= i < s.len()
    &&& rank(m[s[i]].key) <= rank(key)
    &&& (i + 1 == s.len() || rank(key) < rank(m[s[i + 1]].key))
}

spec fn owner<V: VectorCommitment>(m: Map<NodeId, Node<V>>, s: Seq<NodeId>, key: Key) -> int {
    choose|i: int| is_owner(m, s, i, key)
}

#[verifier::spinoff_prover]
proof fn lemma_owner_unique<V: VectorCommitment>(m: Map<NodeId, Node<V>>, s: Seq<NodeId>, lvl: int, i: int, key: Key)
    requires
        level_seq_ok(m, s, lvl),
        is_owner(m, s, i, key),
    ensures
        owner(m, s, key) == i,
{
    let j = owner(m, s, key);
    assert(is_owner(m, s, j, key));
    if j < i {
        assert(rank(m[s[j + 1]].key) <= rank(m[s[i]].key));
    } else if i < j {
        assert(rank(m[s[i + 1]].key) <= rank(m[s[j]].key));
    }
}

/// A node of `s` owns `key`'s range whenever the first node's key is at
/// most `key`: the witness index below `n`.
#[verifier::spinoff_prover]
proof fn lemma_owner_witness<V: VectorCommitment>(m: Map<NodeId, Node<V>>, s: Seq<NodeId>, lvl: int, n: int, key: Key) -> (i: int)
    requires
        level_seq_ok(m, s, lvl),
        1 <= n <= s.len(),
        rank(m[s[0]].key) <= rank(key),
    ensures
        0 <= i < n,
        rank(m[s[i]].key) <= rank(key),
        i + 1 == n || rank(key) < rank(m[s[i + 1]].key),
    decreases n,
{
    if n == 1 {
        0
    } else if rank(m[s[n - 1]].key) <= rank(key) {
        n - 1
    } else {
        lemma_owner_witness(m, s, lvl, n - 1, key)
    }
}

#[verifier::spinoff_prover]
proof fn lemma_owner_exists<V: VectorCommitment>(m: Map<NodeId, Node<V>>, s: Seq<NodeId>, lvl: int, key: Key)
    requires
        level_seq_ok(m, s, lvl),
        rank(m[s[0]].key) <= rank(key),
    ensures
        is_owner(m, s, owner(m, s, key), key),
{
    let i = lemma_owner_witness(m, s, lvl, s.len() as int, key);
    assert(is_owner(m, s, i, key));
}

/// Descending from the owner of `key` at one level into its children, the
/// last child whose key is at most `key` is the owner one level below.
#[verifier::spinoff_prover]
proof fn lemma_owner_descends<V: VectorCommitment>(
    m: Map<NodeId, Node<V>>,
    up: Seq<NodeId>,
    low: Seq<NodeId>,
    b: Seq<int>,
    lvl: int,
    i: int,
    key: Key,
)
    requires
        level_seq_ok(m, up, lvl + 1),
        level_seq_ok(m, low, lvl),
        children_ok(m, up, low, b),
        is_owner(m, up, i, key),
    ensures
        b[i] <= owner(m, low, key) < b[i + 1],
        is_owner(m, low, owner(m, low, key), key),
{
    assert(b[0] <= b[i]);
    lemma_owner_exists(m, low, lvl, key);
    let o = owner(m, low, key);
    if o < b[i] {
        assert(rank(m[low[o + 1]].key) <= rank(m[low[b[i]]].key));
    }
    if o >= b[i + 1] {
        assert(i + 1 < up.len()) by {
            if i + 1 == up.len() {
                assert(b[i + 1] == low.len());
            }
        }
        assert(rank(m[low[b[i + 1]]].key) <= rank(m[low[o]].key));
    }
}

/// What step `i` of a proof must open to: the slot value of the next
/// commitment down, or the key itself at the leaf.
pub open spec fn step_value<V: VectorCommitment>(pi: Seq<Step<V>>, i: int, k: u64) -> V::DigestType {
    if i + 1 < pi.len() {
        V::spec_to_field(pi[i + 1].commitment)
    } else {
        key_field::<V::DigestType>(Key::Val(k))
    }
}

/// A membership proof is accepted: its first commitment is sigma (by their
/// byte encodings), and every step opens its commitment at its position to
/// what comes next down the path.
pub open spec fn spec_verify<V: VectorCommitment>(vc: V, root: V::Commitment, k: u64, pi: Seq<Step<V>>) -> bool {
    &&& pi.len() > 0
    &&& V::spec_commitment_bytes(pi[0].commitment) == V::spec_commitment_bytes(root)
    &&& forall|i: int| 0 <= i < pi.len() ==> vc.spec_check(
        (#[trigger] pi[i]).commitment,
        pi[i].position as int,
        step_value(pi, i, k),
        pi[i].witness,
    )
}

/// The commitment a Merkle-mode proof recomputes for step `i`, bottom-up:
/// the leaf's from the key and its siblings, each parent's from the child
/// commitment just recomputed and its own siblings.
pub open spec fn chain_up<V: HashVc>(vc: V, k: u64, pi: Seq<HashStep<V>>, i: int) -> Option<V::Commitment>
    decreases pi.len() - i,
{
    if i < 0 || i >= pi.len() {
        None
    } else if i == pi.len() - 1 {
        vc.spec_recompute(pi[i].position as int, key_field::<V::DigestType>(Key::Val(k)), pi[i].witness)
    } else {
        match chain_up(vc, k, pi, i + 1) {
            Some(c) => vc.spec_recompute(pi[i].position as int, V::spec_to_field(c), pi[i].witness),
            None => None,
        }
    }
}

/// A step that fails to recompute fails the whole chain above it.
#[verifier::spinoff_prover]
proof fn lemma_chain_none<V: HashVc>(vc: V, k: u64, pi: Seq<HashStep<V>>, i: int)
    requires
        0 <= i < pi.len(),
        chain_up(vc, k, pi, i) is None,
    ensures
        chain_up(vc, k, pi, 0) is None,
    decreases i,
{
    if i > 0 {
        lemma_chain_none(vc, k, pi, i - 1);
    }
}

/// A Merkle-mode proof is accepted: the commitment it recomputes at the
/// top has the byte encoding of sigma.
pub open spec fn spec_verify_hash<V: HashVc>(vc: V, root: V::Commitment, k: u64, pi: Seq<HashStep<V>>) -> bool {
    &&& pi.len() > 0
    &&& chain_up(vc, k, pi, 0) matches Some(c) && V::spec_commitment_bytes(c) == V::spec_commitment_bytes(root)
}

/// Byte-wise equality of two encodings.
#[verifier::spinoff_prover]
fn bytes_eq(a: &Vec<u8>, b: &Vec<u8>) -> (r: bool)
    ensures
        r == (a@ == b@),
{
    if a.len() != b.len() {
        return false;
    }
    let mut i: usize = 0;
    while i < a.len()
        invariant
            a@.len() == b@.len(),
            i <= a@.len(),
            forall|j: int| 0 <= j < i ==> a@[j] == b@[j],
        decreases a@.len() - i,
    {
        if a[i] != b[i] {
            return false;
        }
        i = i + 1;
    }
    proof {
        assert(a@ =~= b@);
    }
    true
}

/// Setting a node's right pointer to nothing, or to a node of a greater key
/// at the same or a lower level, keeps the pointer discipline.
#[verifier::spinoff_prover]
proof fn lemma_ptrs_set_right<V: VectorCommitment>(m: Map<NodeId, Node<V>>, id: NodeId, r: Option<NodeId>, h: int)
    requires
        ptrs_ok(m, h),
        m.contains_key(id),
        r matches Some(x) ==> m.contains_key(x) && m[x].level <= m[id].level && rank(m[id].key) < rank(m[x].key),
    ensures
        ptrs_ok(m.insert(id, m[id].with_right(r)), h),
{
    reveal(ptrs_ok);
    let m2 = m.insert(id, m[id].with_right(r));
    assert forall|x: NodeId| #[trigger] m2.contains_key(x) implies node_ptr_ok(m2, x, h) by {
        assert(node_ptr_ok(m, x, h));
    }
}

/// Removing a node that nothing points to keeps the pointer discipline.
#[verifier::spinoff_prover]
proof fn lemma_ptrs_remove<V: VectorCommitment>(m: Map<NodeId, Node<V>>, id: NodeId, h: int)
    requires
        ptrs_ok(m, h),
        forall|x: NodeId| #[trigger] m.contains_key(x) && x != id ==> m[x].right != Some(id) && m[x].down != Some(id),
    ensures
        ptrs_ok(m.remove(id), h),
{
    reveal(ptrs_ok);
    let m2 = m.remove(id);
    assert forall|x: NodeId| #[trigger] m2.contains_key(x) implies node_ptr_ok(m2, x, h) by {
        assert(node_ptr_ok(m, x, h));
    }
}

/// Adding a fresh node that keeps the discipline keeps it overall.
#[verifier::spinoff_prover]
proof fn lemma_ptrs_insert<V: VectorCommitment>(m: Map<NodeId, Node<V>>, id: NodeId, n: Node<V>, h: int)
    requires
        ptrs_ok(m, h),
        !m.contains_key(id),
        node_ptr_ok(m.insert(id, n), id, h),
    ensures
        ptrs_ok(m.insert(id, n), h),
{
    reveal(ptrs_ok);
    let m2 = m.insert(id, n);
    assert forall|x: NodeId| #[trigger] m2.contains_key(x) implies node_ptr_ok(m2, x, h) by {
        if x != id {
            assert(node_ptr_ok(m, x, h));
        }
    }
}

#[verifier::spinoff_prover]
proof fn lemma_ptrs_grow<V: VectorCommitment>(m: Map<NodeId, Node<V>>, h: int)
    requires
        ptrs_ok(m, h),
    ensures
        ptrs_ok(m, h + 1),
{
    reveal(ptrs_ok);
    assert forall|x: NodeId| #[trigger] m.contains_key(x) implies node_ptr_ok(m, x, h + 1) by {
        assert(node_ptr_ok(m, x, h));
    }
}

/// The base list is untouched by changes to nodes above level 1 and by
/// removing nodes above level 1.
#[verifier::spinoff_prover]
proof fn lemma_base_frame<V: VectorCommitment>(m: Map<NodeId, Node<V>>, m2: Map<NodeId, Node<V>>, base: Seq<NodeId>)
    requires
        base_ok(m, base),
        forall|i: int| 0 <= i < base.len() ==> m2.contains_key(#[trigger] base[i]) && m2[base[i]] == m[base[i]],
        forall|id: NodeId| #[trigger] m2.contains_key(id) && m2[id].level == 1 ==> m.contains_key(id) && m[id].level == 1,
    ensures
        base_ok(m2, base),
{
    reveal(base_ok);
    assert forall|i: int| 0 <= i < base.len() implies #[trigger] m2.contains_key(base[i]) && m2[base[i]].level == 1 by {
        let b = base[i];
        assert(m.contains_key(b));
        assert(m2.contains_key(b));
    }
    assert forall|i: int, j: int| 0 <= i < j < base.len() implies rank(m2[#[trigger] base[i]].key) < rank(m2[#[trigger] base[j]].key) by {
        assert(m2.contains_key(base[i]));
        assert(m2.contains_key(base[j]));
    }
    assert forall|i: int| 0 <= i < base.len() - 1 implies m2[#[trigger] base[i]].right == Some(base[i + 1]) by {
        assert(m2.contains_key(base[i]));
    }
    assert(m2.contains_key(base[0]));
    assert(m2.contains_key(base[base.len() - 1]));
    assert forall|id: NodeId| #[trigger] m2.contains_key(id) && m2[id].level == 1 implies base.contains(id) by {
        assert(m.contains_key(id));
    }
}

/// Within a level, allocation order is key order.
#[verifier::opaque]
spec fn id_order<V: VectorCommitment>(m: Map<NodeId, Node<V>>) -> bool {
    forall|a: NodeId, b: NodeId|
        #[trigger] m.contains_key(a) && #[trigger] m.contains_key(b) && m[a].level == m[b].level && a < b
            ==> rank(m[a].key) < rank(m[b].key)
}

/// The chain of the top level during the build: it starts at the level's
/// head, holds every node of the level in key order, links each to the
/// next, and the last one points nowhere or down to a lower level.
#[verifier::opaque]
spec fn top_ok<V: VectorCommitment>(m: Map<NodeId, Node<V>>, top: Seq<NodeId>, lvl: int) -> bool {
    &&& top.len() >= 1
    &&& forall|i: int| 0 <= i < top.len() ==> #[trigger] m.contains_key(top[i]) && m[top[i]].level == lvl
    &&& forall|i: int, j: int| 0 <= i < j < top.len() ==> rank(m[#[trigger] top[i]].key) < rank(m[#[trigger] top[j]].key)
    &&& forall|i: int| 0 <= i < top.len() - 1 ==> m[#[trigger] top[i]].right == Some(top[i + 1])
    &&& (m[top[top.len() - 1]].right matches Some(r) ==> m[r].level < lvl)
    &&& forall|id: NodeId| #[trigger] m.contains_key(id) && m[id].level == lvl ==> top.contains(id)
}

/// The key of base node `id` when the base list holds the sorted keys `ks`
/// between the two sentinels.
spec fn base_key(ks: Seq<u64>, id: int) -> Key {
    if id == 0 {
        Key::NegInf
    } else if id <= ks.len() {
        Key::Val(ks[id - 1])
    } else {
        Key::PosInf
    }
}

#[verifier::spinoff_prover]
proof fn lemma_base_key_order(ks: Seq<u64>, a: int, b: int)
    requires
        forall|i: int, j: int| 0 <= i < j < ks.len() ==> ks[i] < ks[j],
        0 <= a < b <= ks.len() + 1,
    ensures
        rank(base_key(ks, a)) < rank(base_key(ks, b)),
{
    if 1 <= a && b <= ks.len() {
        assert(ks[a - 1] < ks[b - 1]);
    }
}

/// Node `top[t]` points right to the next node of the chain, to a lower
/// level, or nowhere.
spec fn chain_or_lower<V: VectorCommitment>(m: Map<NodeId, Node<V>>, top: Seq<NodeId>, t: int, lvl: int) -> bool {
    let r = m[top[t]].right;
    ||| r is None
    ||| (t + 1 < top.len() && r == Some(top[t + 1]))
    ||| (r matches Some(x) && m.contains_key(x) && m[x].level < lvl)
}

/// The state of a build sweep over the chain `top` of level `lvl`, before
/// visiting `top[j]`: `m0` is the map the sweep started from.
#[verifier::opaque]
spec fn sweep_inv<V: VectorCommitment>(
    m: Map<NodeId, Node<V>>,
    m0: Map<NodeId, Node<V>>,
    top: Seq<NodeId>,
    lvl: int,
    j: int,
    prev: Option<NodeId>,
    prev2: Option<NodeId>,
    promoted: Seq<NodeId>,
    pidx: Seq<int>,
) -> bool {
    &&& 1 <= j <= top.len()
    &&& ptrs_ok(m, lvl)
    &&& forall|id: NodeId| #[trigger] m.contains_key(id) ==> m0.contains_key(id) && m[id].level == m0[id].level
        && m[id].key == m0[id].key && m[id].down == m0[id].down
    &&& forall|id: NodeId| #[trigger] m0.contains_key(id) && m0[id].level < lvl ==> m.contains_key(id) && m[id] == m0[id]
    &&& (lvl == 1 ==> m == m0)
    &&& m.contains_key(top[0])
    &&& forall|t: int| j <= t < top.len() ==> #[trigger] m.contains_key(top[t])
    &&& forall|t: int| 0 <= t < top.len() && #[trigger] m.contains_key(top[t]) ==> chain_or_lower(m, top, t, lvl)
    &&& (lvl >= 2 ==> (prev matches Some(p) ==> j >= 2 && p == top[j - 1] && m.contains_key(p)))
    &&& (lvl >= 2 ==> (prev2 matches Some(p2) ==> prev is Some && j >= 3 && p2 == top[j - 2] && m.contains_key(p2)))
    &&& (lvl >= 2 && prev is Some ==> (pidx.len() == 0 || pidx[pidx.len() - 1] < j - 1))
    &&& pidx.len() == promoted.len()
    &&& pidx.len() < j
    &&& forall|q: int| 0 <= q < pidx.len() ==> 1 <= #[trigger] pidx[q] < j && promoted[q] == top[pidx[q]]
        && m.contains_key(promoted[q]) && m0[promoted[q]].key != Key::PosInf
    &&& forall|a: int, b: int| 0 <= a < b < pidx.len() ==> #[trigger] pidx[a] < #[trigger] pidx[b]
}

/// Distinct positions of the top chain hold distinct nodes.
#[verifier::spinoff_prover]
proof fn lemma_top_distinct<V: VectorCommitment>(m0: Map<NodeId, Node<V>>, top: Seq<NodeId>, lvl: int, a: int, b: int)
    requires
        top_ok(m0, top, lvl),
        0 <= a < top.len(),
        0 <= b < top.len(),
        a != b,
    ensures
        top[a] != top[b],
{
    reveal(top_ok);
    if a < b {
        assert(rank(m0[top[a]].key) < rank(m0[top[b]].key));
    } else {
        assert(rank(m0[top[b]].key) < rank(m0[top[a]].key));
    }
}

#[verifier::spinoff_prover]
proof fn lemma_sweep_start<V: VectorCommitment>(m0: Map<NodeId, Node<V>>, top: Seq<NodeId>, lvl: int)
    requires
        top_ok(m0, top, lvl),
        ptrs_ok(m0, lvl),
        1 <= lvl,
    ensures
        sweep_inv(m0, m0, top, lvl, 1, None, None, Seq::empty(), Seq::empty()),
{
    reveal(sweep_inv);
    reveal(top_ok);
    reveal(ptrs_ok);
    assert forall|t: int| 0 <= t < top.len() && #[trigger] m0.contains_key(top[t]) implies chain_or_lower(m0, top, t, lvl) by {
        if t == top.len() - 1 {
            assert(node_ptr_ok(m0, top[t], lvl));
        }
    }
}

#[verifier::spinoff_prover]
proof fn lemma_sweep_current<V: VectorCommitment>(
    m: Map<NodeId, Node<V>>,
    m0: Map<NodeId, Node<V>>,
    top: Seq<NodeId>,
    lvl: int,
    j: int,
    prev: Option<NodeId>,
    prev2: Option<NodeId>,
    promoted: Seq<NodeId>,
    pidx: Seq<int>,
)
    requires
        sweep_inv(m, m0, top, lvl, j, prev, prev2, promoted, pidx),
        top_ok(m0, top, lvl),
        j < top.len(),
    ensures
        m.contains_key(top[j]),
        m[top[j]].level == lvl,
        m[top[j]].key == m0[top[j]].key,
        m0.contains_key(top[j]),
{
    reveal(sweep_inv);
    reveal(top_ok);
    assert(m.contains_key(top[j]));
}

#[verifier::spinoff_prover]
proof fn lemma_sweep_skip<V: VectorCommitment>(
    m: Map<NodeId, Node<V>>,
    m0: Map<NodeId, Node<V>>,
    top: Seq<NodeId>,
    lvl: int,
    j: int,
    prev: Option<NodeId>,
    prev2: Option<NodeId>,
    promoted: Seq<NodeId>,
    pidx: Seq<int>,
)
    requires
        sweep_inv(m, m0, top, lvl, j, prev, prev2, promoted, pidx),
        top_ok(m0, top, lvl),
        j < top.len(),
        m[top[j]].key == Key::PosInf,
        forall|id: NodeId| #[trigger] m0.contains_key(id) && m0[id].level >= 2 ==> m0[id].key != Key::PosInf,
    ensures
        sweep_inv(m, m0, top, lvl, j + 1, prev, prev2, promoted, pidx),
{
    reveal(sweep_inv);
    reveal(top_ok);
    assert(m.contains_key(top[j]));
    assert(m0.contains_key(top[j]));
}

#[verifier::spinoff_prover]
proof fn lemma_sweep_advance<V: VectorCommitment>(
    m: Map<NodeId, Node<V>>,
    m0: Map<NodeId, Node<V>>,
    top: Seq<NodeId>,
    lvl: int,
    j: int,
    prev: Option<NodeId>,
    prev2: Option<NodeId>,
    promoted: Seq<NodeId>,
    pidx: Seq<int>,
    pushed: bool,
)
    requires
        sweep_inv(m, m0, top, lvl, j, prev, prev2, promoted, pidx),
        top_ok(m0, top, lvl),
        j < top.len(),
        m[top[j]].key != Key::PosInf,
        pushed ==> lvl == 1,
    ensures
        sweep_inv(m, m0, top, lvl, j + 1, Some(top[j]), prev,
            if pushed { promoted.push(top[j]) } else { promoted },
            if pushed { pidx.push(j) } else { pidx }),
{
    reveal(sweep_inv);
    reveal(top_ok);
    assert(m.contains_key(top[j]));
    assert(m0.contains_key(top[j]));
    let np = if pushed { promoted.push(top[j]) } else { promoted };
    let ni = if pushed { pidx.push(j) } else { pidx };
    assert forall|q: int| 0 <= q < ni.len() implies 1 <= #[trigger] ni[q] < j + 1 && np[q] == top[ni[q]]
        && m.contains_key(np[q]) && m0[np[q]].key != Key::PosInf by {
        if q < pidx.len() {
            assert(pidx[q] == ni[q]);
        }
    }
    assert forall|a: int, b: int| 0 <= a < b < ni.len() implies #[trigger] ni[a] < #[trigger] ni[b] by {
        if b < pidx.len() {
            assert(pidx[a] < pidx[b]);
        } else {
            assert(pidx[a] < j);
        }
    }
}

#[verifier::spinoff_prover]
proof fn lemma_sweep_fresh<V: VectorCommitment>(
    m: Map<NodeId, Node<V>>,
    m0: Map<NodeId, Node<V>>,
    top: Seq<NodeId>,
    lvl: int,
    j: int,
    prev: Option<NodeId>,
    prev2: Option<NodeId>,
    promoted: Seq<NodeId>,
    pidx: Seq<int>,
)
    requires
        sweep_inv(m, m0, top, lvl, j, prev, prev2, promoted, pidx),
        top_ok(m0, top, lvl),
        j < top.len(),
        m[top[j]].key != Key::PosInf,
        prev is None,
        lvl >= 2,
    ensures
        sweep_inv(m, m0, top, lvl, j + 1, None, None, promoted.push(top[j]), pidx.push(j)),
{
    lemma_sweep_advance(m, m0, top, lvl, j, prev, prev2, promoted, pidx, false);
    reveal(sweep_inv);
    let np = promoted.push(top[j]);
    let ni = pidx.push(j);
    assert(m.contains_key(top[j]));
    assert(m0.contains_key(top[j]));
    assert forall|q: int| 0 <= q < ni.len() implies 1 <= #[trigger] ni[q] < j + 1 && np[q] == top[ni[q]]
        && m.contains_key(np[q]) && m0[np[q]].key != Key::PosInf by {
        if q < pidx.len() {
            assert(pidx[q] == ni[q]);
        }
    }
    assert forall|a: int, b: int| 0 <= a < b < ni.len() implies #[trigger] ni[a] < #[trigger] ni[b] by {
        if b < pidx.len() {
            assert(pidx[a] < pidx[b]);
        } else {
            assert(pidx[a] < j);
        }
    }
}

#[verifier::spinoff_prover]
proof fn lemma_sweep_cut_pre<V: VectorCommitment>(
    m: Map<NodeId, Node<V>>,
    m0: Map<NodeId, Node<V>>,
    top: Seq<NodeId>,
    lvl: int,
    j: int,
    prev: Option<NodeId>,
    prev2: Option<NodeId>,
    promoted: Seq<NodeId>,
    pidx: Seq<int>,
)
    requires
        sweep_inv(m, m0, top, lvl, j, prev, prev2, promoted, pidx),
        lvl >= 2,
        prev is Some,
    ensures
        m.contains_key(prev->0),
        ptrs_ok(m, lvl),
{
    reveal(sweep_inv);
}

#[verifier::spinoff_prover]
proof fn lemma_sweep_cut<V: VectorCommitment>(
    m: Map<NodeId, Node<V>>,
    m2: Map<NodeId, Node<V>>,
    m0: Map<NodeId, Node<V>>,
    top: Seq<NodeId>,
    lvl: int,
    j: int,
    prev: Option<NodeId>,
    prev2: Option<NodeId>,
    promoted: Seq<NodeId>,
    pidx: Seq<int>,
)
    requires
        sweep_inv(m, m0, top, lvl, j, prev, prev2, promoted, pidx),
        top_ok(m0, top, lvl),
        j < top.len(),
        m[top[j]].key != Key::PosInf,
        lvl >= 2,
        prev is Some,
        m.contains_key(prev->0),
        m2 == m.insert(prev->0, m[prev->0].with_right(None)),
    ensures
        sweep_inv(m2, m0, top, lvl, j + 1, None, None, promoted.push(top[j]), pidx.push(j)),
{
    reveal(sweep_inv);
    reveal(top_ok);
    let p = prev->0;
    lemma_ptrs_set_right(m, p, None, lvl);
    let np = promoted.push(top[j]);
    let ni = pidx.push(j);
    assert(m.contains_key(top[j]));
    assert(m0.contains_key(top[j]));
    assert forall|t: int| 0 <= t < top.len() && #[trigger] m2.contains_key(top[t]) implies chain_or_lower(m2, top, t, lvl) by {
        assert(m.contains_key(top[t]));
        assert(chain_or_lower(m, top, t, lvl));
        if top[t] != p {
            if let Some(x) = m[top[t]].right {
                if m.contains_key(x) && m[x].level < lvl {
                    assert(m2.contains_key(x));
                }
            }
        }
    }
    assert forall|q: int| 0 <= q < ni.len() implies 1 <= #[trigger] ni[q] < j + 1 && np[q] == top[ni[q]]
        && m2.contains_key(np[q]) && m0[np[q]].key != Key::PosInf by {
        if q < pidx.len() {
            assert(pidx[q] == ni[q]);
        }
    }
    assert forall|a: int, b: int| 0 <= a < b < ni.len() implies #[trigger] ni[a] < #[trigger] ni[b] by {
        if b < pidx.len() {
            assert(pidx[a] < pidx[b]);
        } else {
            assert(pidx[a] < j);
        }
    }
    assert forall|id: NodeId| #[trigger] m0.contains_key(id) && m0[id].level < lvl implies m2.contains_key(id) && m2[id] == m0[id] by {
        assert(m.contains_key(id));
    }
}

/// The first step of dismissing a node: its predecessor may shortcut down
/// past it.
#[verifier::spinoff_prover]
proof fn lemma_sweep_dismiss_pre<V: VectorCommitment>(
    m: Map<NodeId, Node<V>>,
    m0: Map<NodeId, Node<V>>,
    top: Seq<NodeId>,
    lvl: int,
    j: int,
    prev: Option<NodeId>,
    prev2: Option<NodeId>,
    promoted: Seq<NodeId>,
    pidx: Seq<int>,
)
    requires
        sweep_inv(m, m0, top, lvl, j, prev, prev2, promoted, pidx),
        top_ok(m0, top, lvl),
        lvl >= 2,
        prev is Some,
        prev2 is Some,
    ensures
        m.contains_key(prev->0),
        m.contains_key(prev2->0),
        ptrs_ok(m.insert(prev2->0, m[prev2->0].with_right(m[prev->0].down)), lvl),
{
    reveal(sweep_inv);
    reveal(top_ok);
    reveal(ptrs_ok);
    let p = prev->0;
    let p2 = prev2->0;
    assert(node_ptr_ok(m, p, lvl));
    assert(m0.contains_key(top[j - 2]) && m0.contains_key(top[j - 1]));
    assert(rank(m0[top[j - 2]].key) < rank(m0[top[j - 1]].key));
    lemma_ptrs_set_right(m, p2, m[p].down, lvl);
}

/// After the shortcut, nothing points at the dismissed node.
#[verifier::spinoff_prover]
proof fn lemma_sweep_dismiss_free<V: VectorCommitment>(
    m1: Map<NodeId, Node<V>>,
    m2: Map<NodeId, Node<V>>,
    m0: Map<NodeId, Node<V>>,
    top: Seq<NodeId>,
    lvl: int,
    j: int,
    prev: Option<NodeId>,
    prev2: Option<NodeId>,
    promoted: Seq<NodeId>,
    pidx: Seq<int>,
)
    requires
        sweep_inv(m1, m0, top, lvl, j, prev, prev2, promoted, pidx),
        top_ok(m0, top, lvl),
        j < top.len(),
        lvl >= 2,
        prev is Some,
        prev2 is Some,
        m1.contains_key(prev->0),
        m1.contains_key(prev2->0),
        m2 == m1.insert(prev2->0, m1[prev2->0].with_right(m1[prev->0].down)),
        ptrs_ok(m2, lvl),
    ensures
        forall|x: NodeId| #[trigger] m2.contains_key(x) && x != prev->0 ==> m2[x].right != Some(prev->0) && m2[x].down != Some(prev->0),
        ptrs_ok(m2.remove(prev->0), lvl),
{
    reveal(sweep_inv);
    reveal(top_ok);
    reveal(ptrs_ok);
    let p = prev->0;
    let p2 = prev2->0;
    assert(node_ptr_ok(m1, p, lvl));
    assert forall|x: NodeId| #[trigger] m2.contains_key(x) && x != p implies m2[x].right != Some(p) && m2[x].down != Some(p) by {
        assert(node_ptr_ok(m2, x, lvl));
        assert(m2.contains_key(p));
        if m2[x].right == Some(p) && x != p2 {
            assert(m1.contains_key(x));
            assert(m0.contains_key(x) && m0[x].level == lvl);
            assert(top.contains(x));
            let t = choose|t: int| 0 <= t < top.len() && top[t] == x;
            assert(chain_or_lower(m1, top, t, lvl));
            if t + 1 < top.len() && m1[x].right == Some(top[t + 1]) {
                if t + 1 != j - 1 {
                    lemma_top_distinct(m0, top, lvl, t + 1, j - 1);
                } else {
                    lemma_top_distinct(m0, top, lvl, t, j - 2);
                }
            }
        }
    }
    lemma_ptrs_remove(m2, p, lvl);
}

#[verifier::spinoff_prover]
proof fn lemma_sweep_dismiss<V: VectorCommitment>(
    m1: Map<NodeId, Node<V>>,
    m2: Map<NodeId, Node<V>>,
    m3: Map<NodeId, Node<V>>,
    m0: Map<NodeId, Node<V>>,
    top: Seq<NodeId>,
    lvl: int,
    j: int,
    prev: Option<NodeId>,
    prev2: Option<NodeId>,
    promoted: Seq<NodeId>,
    pidx: Seq<int>,
)
    requires
        sweep_inv(m1, m0, top, lvl, j, prev, prev2, promoted, pidx),
        top_ok(m0, top, lvl),
        j < top.len(),
        m1[top[j]].key != Key::PosInf,
        lvl >= 2,
        prev is Some,
        prev2 is Some,
        m1.contains_key(prev->0),
        m1.contains_key(prev2->0),
        m2 == m1.insert(prev2->0, m1[prev2->0].with_right(m1[prev->0].down)),
        m3 == m2.remove(prev->0),
        ptrs_ok(m3, lvl),
    ensures
        sweep_inv(m3, m0, top, lvl, j + 1, None, None, promoted.push(top[j]), pidx.push(j)),
{
    reveal(sweep_inv);
    reveal(top_ok);
    reveal(ptrs_ok);
    let p = prev->0;
    let p2 = prev2->0;
    assert(node_ptr_ok(m1, p, lvl));
    let np = promoted.push(top[j]);
    let ni = pidx.push(j);
    assert(m1.contains_key(top[j]));
    assert(m0.contains_key(top[j]));
    lemma_top_distinct(m0, top, lvl, 0, j - 1);
    assert forall|t: int| j + 1 <= t < top.len() implies #[trigger] m3.contains_key(top[t]) by {
        assert(m1.contains_key(top[t]));
        lemma_top_distinct(m0, top, lvl, t, j - 1);
    }
    assert forall|t: int| 0 <= t < top.len() && #[trigger] m3.contains_key(top[t]) implies chain_or_lower(m3, top, t, lvl) by {
        assert(m1.contains_key(top[t]));
        assert(chain_or_lower(m1, top, t, lvl));
        assert(node_ptr_ok(m3, top[t], lvl));
    }
    assert forall|q: int| 0 <= q < ni.len() implies 1 <= #[trigger] ni[q] < j + 1 && np[q] == top[ni[q]]
        && m3.contains_key(np[q]) && m0[np[q]].key != Key::PosInf by {
        if q < pidx.len() {
            assert(pidx[q] == ni[q]);
            assert(pidx[q] < j - 1);
            lemma_top_distinct(m0, top, lvl, pidx[q], j - 1);
        } else {
            lemma_top_distinct(m0, top, lvl, j, j - 1);
        }
    }
    assert forall|a: int, b: int| 0 <= a < b < ni.len() implies #[trigger] ni[a] < #[trigger] ni[b] by {
        if b < pidx.len() {
            assert(pidx[a] < pidx[b]);
        } else {
            assert(pidx[a] < j);
        }
    }
    assert forall|id: NodeId| #[trigger] m0.contains_key(id) && m0[id].level < lvl implies m3.contains_key(id) && m3[id] == m0[id] by {
        assert(m1.contains_key(id));
    }
    assert(m3.contains_key(top[0]));
}

/// The end of a sweep: the build state holds again (without a top chain),
/// and the promoted nodes are in key order.
#[verifier::spinoff_prover]
proof fn lemma_sweep_end<V: VectorCommitment>(
    m: Map<NodeId, Node<V>>,
    m0: Map<NodeId, Node<V>>,
    top: Seq<NodeId>,
    lvl: int,
    prev: Option<NodeId>,
    prev2: Option<NodeId>,
    promoted: Seq<NodeId>,
    pidx: Seq<int>,
    base: Seq<NodeId>,
    nb: int,
    heads: Seq<NodeId>,
)
    requires
        sweep_inv(m, m0, top, lvl, top.len() as int, prev, prev2, promoted, pidx),
        top_ok(m0, top, lvl),
        base_ok(m0, base),
        id_order(m0),
        heads.len() == lvl,
        1 <= lvl,
        top[0] == heads[lvl - 1],
        forall|l: int| 0 <= l < lvl ==> #[trigger] m0.contains_key(heads[l]) && m0[heads[l]].level == l + 1
            && m0[heads[l]].key == Key::NegInf,
    ensures
        ptrs_ok(m, lvl),
        base_ok(m, base),
        forall|i: int| 0 <= i < base.len() ==> m[#[trigger] base[i]] == m0[base[i]],
        id_order(m),
        forall|id: NodeId| #[trigger] m.contains_key(id) ==> m0.contains_key(id) && m[id].level == m0[id].level
            && m[id].key == m0[id].key,
        forall|l: int| 0 <= l < lvl ==> #[trigger] m.contains_key(heads[l]) && m[heads[l]].level == l + 1
            && m[heads[l]].key == Key::NegInf,
        promoted.len() < top.len(),
        forall|q: int| 0 <= q < promoted.len() ==> #[trigger] m.contains_key(promoted[q])
            && m[promoted[q]].level == lvl && 0 < rank(m[promoted[q]].key) && m[promoted[q]].key != Key::PosInf,
        forall|a: int, b: int| 0 <= a < b < promoted.len() ==> rank(m[#[trigger] promoted[a]].key) < rank(m[#[trigger] promoted[b]].key),
{
    reveal(sweep_inv);
    reveal(top_ok);
    assert forall|i: int| 0 <= i < base.len() implies m.contains_key(#[trigger] base[i]) && m[base[i]] == m0[base[i]] by {
        reveal(base_ok);
        let b = base[i];
        assert(m0.contains_key(b));
        assert(m0[b].level == 1);
        if lvl > 1 {
            assert(m0.contains_key(b) && m0[b].level < lvl);
            assert(m.contains_key(b));
        } else {
            assert(m == m0);
        }
    }
    lemma_base_frame(m0, m, base);
    assert(id_order(m)) by {
        reveal(id_order);
        assert forall|a: NodeId, b: NodeId|
            #[trigger] m.contains_key(a) && #[trigger] m.contains_key(b) && m[a].level == m[b].level && a < b
            implies rank(m[a].key) < rank(m[b].key) by {
            assert(m0.contains_key(a) && m0.contains_key(b));
        }
    }
    assert forall|l: int| 0 <= l < lvl implies #[trigger] m.contains_key(heads[l]) && m[heads[l]].level == l + 1
        && m[heads[l]].key == Key::NegInf by {
        assert(m0.contains_key(heads[l]));
        if l < lvl - 1 {
        }
    }
    assert forall|q: int| 0 <= q < promoted.len() implies #[trigger] m.contains_key(promoted[q])
        && m[promoted[q]].level == lvl && 0 < rank(m[promoted[q]].key) && m[promoted[q]].key != Key::PosInf by {
        assert(m0.contains_key(top[pidx[q]]));
        assert(rank(m0[top[0]].key) < rank(m0[top[pidx[q]]].key));
    }
    assert forall|a: int, b: int| 0 <= a < b < promoted.len() implies rank(m[#[trigger] promoted[a]].key) < rank(m[#[trigger] promoted[b]].key) by {
        assert(pidx[a] < pidx[b]);
        assert(rank(m0[top[pidx[a]]].key) < rank(m0[top[pidx[b]]].key));
    }
}

/// The state of a build between two levels: the base list holds the first
/// `nb` ids in key order, the heads are the -inf sentinels of the levels
/// built so far, upper levels hold no +inf, and ids grow with keys within a
/// level.
spec fn swept_state<V: VectorCommitment>(
    m: Map<NodeId, Node<V>>,
    heads: Seq<NodeId>,
    next_id: int,
    vc: V,
    base: Seq<NodeId>,
    nb: int,
) -> bool {
    let h = heads.len() as int;
    &&& 1 <= h <= MAX_HEIGHT
    &&& ptrs_ok(m, h)
    &&& base_ok(m, base)
    &&& base.len() == nb
    &&& forall|i: int| 0 <= i < nb ==> #[trigger] base[i] == i
    &&& forall|id: NodeId| #[trigger] m.contains_key(id) ==> (m[id].level == 1 <==> id < nb)
    &&& forall|id: NodeId| #[trigger] m.contains_key(id) && m[id].level >= 2 ==> m[id].key != Key::PosInf
    &&& forall|l: int| 0 <= l < h ==> #[trigger] m.contains_key(heads[l]) && m[heads[l]].level == l + 1
        && m[heads[l]].key == Key::NegInf
    &&& id_order(m)
    &&& forall|id: NodeId| #[trigger] m.contains_key(id) ==> id < next_id
    &&& nb <= next_id <= nb * h
    &&& 2 <= nb
    &&& nb * (MAX_HEIGHT + 1) <= usize::MAX
    &&& vc.wf()
    &&& vc.max_width() >= MAX_FANOUT
}

/// The build state with the chain of its top level.
spec fn build_state<V: VectorCommitment>(
    m: Map<NodeId, Node<V>>,
    heads: Seq<NodeId>,
    next_id: int,
    vc: V,
    base: Seq<NodeId>,
    top: Seq<NodeId>,
    nb: int,
) -> bool {
    &&& swept_state(m, heads, next_id, vc, base, nb)
    &&& top_ok(m, top, heads.len() as int)
    &&& top[0] == heads[heads.len() - 1]
    &&& top.len() <= nb
}

/// One copy linked into the new top level keeps the build state.
#[verifier::spinoff_prover]
proof fn lemma_link_step<V: VectorCommitment>(
    m1: Map<NodeId, Node<V>>,
    m3: Map<NodeId, Node<V>>,
    heads: Seq<NodeId>,
    cid: NodeId,
    vc: V,
    base: Seq<NodeId>,
    nb: int,
    ntop: Seq<NodeId>,
    prev: NodeId,
    low: NodeId,
    cn: Node<V>,
)
    requires
        swept_state(m1, heads, cid as int, vc, base, nb),
        heads.len() >= 2,
        top_ok(m1, ntop, heads.len() as int),
        prev == ntop[ntop.len() - 1],
        m1[prev].right is None,
        m1.contains_key(low),
        m1[low].level == heads.len() - 1,
        m1[low].key == cn.key,
        cn.level == heads.len(),
        cn.down == Some(low),
        cn.right is None,
        cn.interval == (cn.key, cn.key),
        rank(m1[prev].key) < rank(cn.key),
        cn.key != Key::PosInf,
        cid + 1 <= nb * heads.len(),
        m3 == m1.insert(cid, cn).insert(prev, m1.insert(cid, cn)[prev].with_right(Some(cid))),
    ensures
        swept_state(m3, heads, cid + 1, vc, base, nb),
        top_ok(m3, ntop.push(cid), heads.len() as int),
        m3[cid].right is None,
        m3[cid].key == cn.key,
        forall|x: NodeId| #[trigger] m1.contains_key(x) && x != prev ==> m3.contains_key(x) && m3[x] == m1[x],
{
    let h = heads.len() as int;
    let m2 = m1.insert(cid, cn);
    reveal(top_ok);
    assert(m1.contains_key(prev));
    assert(!m1.contains_key(cid));
    assert(prev != cid);
    assert(node_ptr_ok(m2, cid, h));
    lemma_ptrs_insert(m1, cid, cn, h);
    lemma_ptrs_set_right(m2, prev, Some(cid), h);
    assert forall|i: int| 0 <= i < base.len() implies m3.contains_key(#[trigger] base[i]) && m3[base[i]] == m1[base[i]] by {
        reveal(base_ok);
        assert(m1.contains_key(base[i]));
    }
    lemma_base_frame(m1, m3, base);
    assert(id_order(m3)) by {
        reveal(id_order);
        assert forall|a: NodeId, b: NodeId|
            #[trigger] m3.contains_key(a) && #[trigger] m3.contains_key(b) && m3[a].level == m3[b].level && a < b
            implies rank(m3[a].key) < rank(m3[b].key) by {
            if b == cid {
                assert(m1.contains_key(a) && m1[a].level == h);
                assert(ntop.contains(a));
                let t = choose|t: int| 0 <= t < ntop.len() && ntop[t] == a;
                if t < ntop.len() - 1 {
                    assert(rank(m1[ntop[t]].key) < rank(m1[ntop[ntop.len() - 1]].key));
                }
            } else {
                assert(m1.contains_key(a) && m1.contains_key(b));
            }
        }
    }
    let nt = ntop.push(cid);
    assert(top_ok(m3, nt, h)) by {
        assert forall|i: int| 0 <= i < nt.len() implies #[trigger] m3.contains_key(nt[i]) && m3[nt[i]].level == h by {
            if i < ntop.len() {
                assert(m1.contains_key(ntop[i]));
            }
        }
        assert forall|i: int, j: int| 0 <= i < j < nt.len() implies rank(m3[#[trigger] nt[i]].key) < rank(m3[#[trigger] nt[j]].key) by {
            assert(m1.contains_key(nt[i]));
            if j < ntop.len() {
                assert(m1.contains_key(nt[j]));
            } else if i < ntop.len() - 1 {
                assert(rank(m1[ntop[i]].key) < rank(m1[ntop[ntop.len() - 1]].key));
            }
        }
        assert forall|i: int| 0 <= i < nt.len() - 1 implies m3[#[trigger] nt[i]].right == Some(nt[i + 1]) by {
            assert(m1.contains_key(nt[i]));
        }
        assert forall|id: NodeId| #[trigger] m3.contains_key(id) && m3[id].level == h implies nt.contains(id) by {
            if id == cid {
                assert(nt[nt.len() - 1] == cid);
            } else {
                assert(m1.contains_key(id));
                assert(ntop.contains(id));
                let t = choose|t: int| 0 <= t < ntop.len() && ntop[t] == id;
                assert(nt[t] == id);
            }
        }
    }
    assert forall|l: int| 0 <= l < h implies #[trigger] m3.contains_key(heads[l]) && m3[heads[l]].level == l + 1
        && m3[heads[l]].key == Key::NegInf by {
        assert(m1.contains_key(heads[l]));
    }
    assert forall|id: NodeId| #[trigger] m3.contains_key(id) implies (m3[id].level == 1 <==> id < nb) by {
        if id != cid {
            assert(m1.contains_key(id));
        }
    }
    assert forall|id: NodeId| #[trigger] m3.contains_key(id) && m3[id].level >= 2 implies m3[id].key != Key::PosInf by {
        if id != cid {
            assert(m1.contains_key(id));
        }
    }
    assert forall|id: NodeId| #[trigger] m3.contains_key(id) implies id < cid + 1 by {
        if id != cid {
            assert(m1.contains_key(id));
        }
    }
    assert(nb * h <= nb * (h + 0)) by (nonlinear_arith);
}

/// The rightmost promotion linked by a shortcut completes the new level.
#[verifier::spinoff_prover]
proof fn lemma_link_end<V: VectorCommitment>(
    m1: Map<NodeId, Node<V>>,
    m3: Map<NodeId, Node<V>>,
    heads: Seq<NodeId>,
    next_id: int,
    vc: V,
    base: Seq<NodeId>,
    nb: int,
    ntop: Seq<NodeId>,
    prev: NodeId,
    last: NodeId,
)
    requires
        swept_state(m1, heads, next_id, vc, base, nb),
        heads.len() >= 2,
        top_ok(m1, ntop, heads.len() as int),
        ntop[0] == heads[heads.len() - 1],
        ntop.len() <= nb,
        prev == ntop[ntop.len() - 1],
        m1.contains_key(last),
        m1[last].level == heads.len() - 1,
        rank(m1[prev].key) < rank(m1[last].key),
        m1.contains_key(prev),
        m3 == m1.insert(prev, m1[prev].with_right(Some(last))),
    ensures
        build_state(m3, heads, next_id, vc, base, ntop, nb),
        forall|x: NodeId| #[trigger] m1.contains_key(x) && x != prev ==> m3.contains_key(x) && m3[x] == m1[x],
{
    let h = heads.len() as int;
    reveal(top_ok);
    lemma_ptrs_set_right(m1, prev, Some(last), h);
    assert forall|i: int| 0 <= i < base.len() implies m3.contains_key(#[trigger] base[i]) && m3[base[i]] == m1[base[i]] by {
        reveal(base_ok);
        assert(m1.contains_key(base[i]));
        assert(m1[prev].level == h);
    }
    lemma_base_frame(m1, m3, base);
    assert(id_order(m3)) by {
        reveal(id_order);
        assert forall|a: NodeId, b: NodeId|
            #[trigger] m3.contains_key(a) && #[trigger] m3.contains_key(b) && m3[a].level == m3[b].level && a < b
            implies rank(m3[a].key) < rank(m3[b].key) by {
            assert(m1.contains_key(a) && m1.contains_key(b));
        }
    }
    assert(top_ok(m3, ntop, h)) by {
        assert forall|i: int| 0 <= i < ntop.len() implies #[trigger] m3.contains_key(ntop[i]) && m3[ntop[i]].level == h by {
            assert(m1.contains_key(ntop[i]));
        }
        assert forall|i: int, j: int| 0 <= i < j < ntop.len() implies rank(m3[#[trigger] ntop[i]].key) < rank(m3[#[trigger] ntop[j]].key) by {
            assert(m1.contains_key(ntop[i]));
            assert(m1.contains_key(ntop[j]));
        }
        assert forall|i: int| 0 <= i < ntop.len() - 1 implies m3[#[trigger] ntop[i]].right == Some(ntop[i + 1]) by {
            assert(m1.contains_key(ntop[i]));
            assert(ntop[i] != prev) by {
                assert(rank(m1[ntop[i]].key) < rank(m1[ntop[ntop.len() - 1]].key));
            }
        }
        assert forall|id: NodeId| #[trigger] m3.contains_key(id) && m3[id].level == h implies ntop.contains(id) by {
            assert(m1.contains_key(id));
        }
        assert(ntop[ntop.len() - 1] == prev);
        assert(m3[prev].right == Some(last));
        assert(last != prev);
        assert(m3[last].level < h);
    }
    assert forall|l: int| 0 <= l < h implies #[trigger] m3.contains_key(heads[l]) && m3[heads[l]].level == l + 1
        && m3[heads[l]].key == Key::NegInf by {
        assert(m1.contains_key(heads[l]));
    }
    assert forall|id: NodeId| #[trigger] m3.contains_key(id) implies (m3[id].level == 1 <==> id < nb) by {
        assert(m1.contains_key(id));
    }
    assert forall|id: NodeId| #[trigger] m3.contains_key(id) && m3[id].level >= 2 implies m3[id].key != Key::PosInf by {
        assert(m1.contains_key(id));
    }
    assert forall|id: NodeId| #[trigger] m3.contains_key(id) implies id < next_id by {
        assert(m1.contains_key(id));
    }
}

/// The ids below `n` that are nodes of level `lvl`, in increasing order.
spec fn members<V: VectorCommitment>(m: Map<NodeId, Node<V>>, lvl: int, n: int) -> Seq<NodeId>
    decreases n,
{
    if n <= 0 {
        Seq::empty()
    } else if m.contains_key((n - 1) as NodeId) && m[(n - 1) as NodeId].level == lvl {
        members(m, lvl, n - 1).push((n - 1) as NodeId)
    } else {
        members(m, lvl, n - 1)
    }
}

#[verifier::spinoff_prover]
proof fn lemma_members<V: VectorCommitment>(m: Map<NodeId, Node<V>>, lvl: int, n: int)
    requires
        0 <= n <= usize::MAX + 1,
    ensures
        forall|x: NodeId| #[trigger] members(m, lvl, n).contains(x) <==> x < n && m.contains_key(x) && m[x].level == lvl,
        forall|a: int, b: int| 0 <= a < b < members(m, lvl, n).len() ==> members(m, lvl, n)[a] < members(m, lvl, n)[b],
        forall|a: int| 0 <= a < members(m, lvl, n).len() ==> members(m, lvl, n)[a] < n,
    decreases n,
{
    if n > 0 {
        lemma_members(m, lvl, n - 1);
        let prev = members(m, lvl, n - 1);
        assert forall|x: NodeId| #[trigger] members(m, lvl, n).contains(x) <==> x < n && m.contains_key(x) && m[x].level == lvl by {
            if x == n - 1 && m.contains_key(x) && m[x].level == lvl {
                assert(members(m, lvl, n)[prev.len() as int] == x);
            }
            if prev.contains(x) {
                let t = choose|t: int| 0 <= t < prev.len() && prev[t] == x;
                assert(members(m, lvl, n)[t] == x);
            }
            if members(m, lvl, n).contains(x) && x != n - 1 {
                let t = choose|t: int| 0 <= t < members(m, lvl, n).len() && members(m, lvl, n)[t] == x;
                assert(prev[t] == x);
            }
        }
    }
}

/// When exactly the ids below `nb` are at level `lvl` and all of them are
/// nodes, the members of that level are 0, 1, ..., nb - 1.
#[verifier::spinoff_prover]
proof fn lemma_members_range<V: VectorCommitment>(m: Map<NodeId, Node<V>>, lvl: int, n: int, nb: int)
    requires
        0 <= nb,
        0 <= n <= usize::MAX + 1,
        forall|x: NodeId| x < n ==> (#[trigger] m.contains_key(x) && m[x].level == lvl <==> x < nb),
    ensures
        members(m, lvl, n) == Seq::new(if n < nb { n as nat } else { nb as nat }, |t: int| t as NodeId),
    decreases n,
{
    if n > 0 {
        lemma_members_range(m, lvl, n - 1, nb);
        assert(m.contains_key((n - 1) as NodeId) && m[(n - 1) as NodeId].level == lvl <==> n - 1 < nb);
        assert(members(m, lvl, n) =~= Seq::new(if n < nb { n as nat } else { nb as nat }, |t: int| t as NodeId));
    }
}

/// The nodes agree on what the pointer discipline and the build state read.
spec fn shape_same<V: VectorCommitment>(m: Map<NodeId, Node<V>>, m2: Map<NodeId, Node<V>>) -> bool {
    &&& m2.dom() == m.dom()
    &&& forall|x: NodeId| #[trigger] m2.contains_key(x) ==> m2[x].key == m[x].key && m2[x].level == m[x].level
        && m2[x].right == m[x].right && m2[x].down == m[x].down && m2[x].interval.0 == m[x].interval.0
}

#[verifier::spinoff_prover]
proof fn lemma_shape_frame<V: VectorCommitment>(
    m: Map<NodeId, Node<V>>,
    m2: Map<NodeId, Node<V>>,
    heads: Seq<NodeId>,
    next_id: int,
    vc: V,
    base: Seq<NodeId>,
    top: Seq<NodeId>,
    nb: int,
)
    requires
        build_state(m, heads, next_id, vc, base, top, nb),
        shape_same(m, m2),
    ensures
        build_state(m2, heads, next_id, vc, base, top, nb),
{
    let h = heads.len() as int;
    assert(ptrs_ok(m2, h)) by {
        reveal(ptrs_ok);
        assert forall|x: NodeId| #[trigger] m2.contains_key(x) implies node_ptr_ok(m2, x, h) by {
            assert(node_ptr_ok(m, x, h));
        }
    }
    assert(base_ok(m2, base)) by {
        reveal(base_ok);
        assert forall|i: int| 0 <= i < base.len() implies #[trigger] m2.contains_key(base[i]) && m2[base[i]].level == 1 by {
            assert(m.contains_key(base[i]));
        }
        assert forall|i: int, j: int| 0 <= i < j < base.len() implies rank(m2[#[trigger] base[i]].key) < rank(m2[#[trigger] base[j]].key) by {
            assert(m.contains_key(base[i]));
            assert(m.contains_key(base[j]));
        }
        assert forall|i: int| 0 <= i < base.len() - 1 implies m2[#[trigger] base[i]].right == Some(base[i + 1]) by {
            assert(m.contains_key(base[i]));
        }
        assert(m.contains_key(base[0]));
        assert(m.contains_key(base[base.len() - 1]));
    }
    assert(top_ok(m2, top, h)) by {
        reveal(top_ok);
        assert forall|i: int| 0 <= i < top.len() implies #[trigger] m2.contains_key(top[i]) && m2[top[i]].level == h by {
            assert(m.contains_key(top[i]));
        }
        assert forall|i: int, j: int| 0 <= i < j < top.len() implies rank(m2[#[trigger] top[i]].key) < rank(m2[#[trigger] top[j]].key) by {
            assert(m.contains_key(top[i]));
            assert(m.contains_key(top[j]));
        }
        assert forall|i: int| 0 <= i < top.len() - 1 implies m2[#[trigger] top[i]].right == Some(top[i + 1]) by {
            assert(m.contains_key(top[i]));
        }
        assert(m.contains_key(top[top.len() - 1]));
        if let Some(r) = m[top[top.len() - 1]].right {
            reveal(ptrs_ok);
            assert(node_ptr_ok(m, top[top.len() - 1], h));
        }
    }
    assert(id_order(m2)) by {
        reveal(id_order);
    }
    assert forall|l: int| 0 <= l < h implies #[trigger] m2.contains_key(heads[l]) && m2[heads[l]].level == l + 1
        && m2[heads[l]].key == Key::NegInf by {
        assert(m.contains_key(heads[l]));
    }
}

/// A node keeps its commitment status while it and its children stay the
/// same.
#[verifier::spinoff_prover]
proof fn lemma_committed_frame<V: VectorCommitment>(vc: V, m: Map<NodeId, Node<V>>, m2: Map<NodeId, Node<V>>, x: NodeId)
    requires
        committed(vc, m, x),
        m.contains_key(x),
        m2.contains_key(x),
        m2[x] == m[x],
        m[x].level != 1 ==> forall|q: int| 0 <= q < m[x].children@.len() ==> m2[#[trigger] m[x].children@[q]] == m[m[x].children@[q]],
    ensures
        committed(vc, m2, x),
{
    if m[x].level != 1 {
        assert(node_vals(m2, x) =~= node_vals(m, x));
    }
}

/// The members of a level, in id order, are in key order, and the level's
/// head comes first.
#[verifier::spinoff_prover]
proof fn lemma_members_seq_ok<V: VectorCommitment>(m: Map<NodeId, Node<V>>, lvl: int, n: int, head: NodeId)
    requires
        0 <= n <= usize::MAX + 1,
        id_order(m),
        m.contains_key(head),
        m[head].level == lvl,
        m[head].key == Key::NegInf,
        head < n,
    ensures
        level_seq_ok(m, members(m, lvl, n), lvl),
        members(m, lvl, n)[0] == head,
{
    reveal(id_order);
    lemma_members(m, lvl, n);
    let s = members(m, lvl, n);
    assert(s.contains(head));
    assert forall|i: int| 0 <= i < s.len() implies #[trigger] m.contains_key(s[i]) && m[s[i]].level == lvl by {
        assert(s.contains(s[i]));
    }
    assert forall|i: int, j: int| 0 <= i < j < s.len() implies rank(m[#[trigger] s[i]].key) < rank(m[#[trigger] s[j]].key) by {
        assert(s.contains(s[i]));
        assert(s.contains(s[j]));
        assert(m.contains_key(s[i]) && m.contains_key(s[j]));
    }
    let t = choose|t: int| 0 <= t < s.len() && s[t] == head;
    if t > 0 {
        assert(rank(m[s[0]].key) < rank(m[s[t]].key));
    }
}

/// A level holding one node has that node as its only member.
#[verifier::spinoff_prover]
proof fn lemma_members_single<V: VectorCommitment>(m: Map<NodeId, Node<V>>, lvl: int, n: int, root: NodeId)
    requires
        0 <= n <= usize::MAX + 1,
        m.contains_key(root),
        m[root].level == lvl,
        root < n,
        forall|id: NodeId| #[trigger] m.contains_key(id) && m[id].level == lvl ==> id == root,
    ensures
        members(m, lvl, n) == seq![root],
{
    lemma_members(m, lvl, n);
    let s = members(m, lvl, n);
    assert(s.contains(root));
    if s.len() >= 2 {
        assert(s.contains(s[0]));
        assert(s.contains(s[1]));
        assert(s[0] < s[1]);
    }
    assert(s =~= seq![root]);
}

/// Members depend on the node map only through its ids and levels.
#[verifier::spinoff_prover]
proof fn lemma_members_shape<V: VectorCommitment>(m: Map<NodeId, Node<V>>, m2: Map<NodeId, Node<V>>, lvl: int, n: int)
    requires
        shape_same(m, m2),
    ensures
        members(m2, lvl, n) == members(m, lvl, n),
    decreases n,
{
    if n > 0 {
        lemma_members_shape(m, m2, lvl, n - 1);
    }
}

/// The levels committed so far by a full recomputation: each is the
/// members of its level, every node is committed, and every upper node's
/// children are its run of the level below.
#[verifier::opaque]
spec fn levels_done<V: VectorCommitment>(
    vc: V,
    m: Map<NodeId, Node<V>>,
    levels: Seq<Seq<NodeId>>,
    bounds: Seq<Seq<int>>,
    n: int,
) -> bool {
    &&& bounds.len() == levels.len()
    &&& forall|l: int| 0 <= l < levels.len() ==> #[trigger] levels[l] == members(m, l + 1, n)
    &&& forall|l: int, t: int| 0 <= l < levels.len() && 0 <= t < levels[l].len() ==> committed(vc, m, #[trigger] levels[l][t])
    &&& forall|l: int| 1 <= l < levels.len() ==> children_ok(m, #[trigger] levels[l], levels[l - 1], bounds[l])
    &&& forall|l: int, t: int| 1 <= l < levels.len() && 0 <= t < levels[l].len() ==> m[#[trigger] levels[l][t]].children@.len() <= MAX_FANOUT
}

/// Changing only nodes of level `lvl` and above leaves the levels below
/// done.
#[verifier::spinoff_prover]
proof fn lemma_levels_done_frame<V: VectorCommitment>(
    vc: V,
    m: Map<NodeId, Node<V>>,
    m2: Map<NodeId, Node<V>>,
    levels: Seq<Seq<NodeId>>,
    bounds: Seq<Seq<int>>,
    n: int,
)
    requires
        levels_done(vc, m, levels, bounds, n),
        shape_same(m, m2),
        0 <= n <= usize::MAX + 1,
        forall|x: NodeId| #[trigger] m.contains_key(x) && m[x].level <= levels.len() ==> m2[x] == m[x],
    ensures
        levels_done(vc, m2, levels, bounds, n),
{
    reveal(levels_done);
    assert forall|l: int| 0 <= l < levels.len() implies #[trigger] levels[l] == members(m2, l + 1, n) by {
        lemma_members_shape(m, m2, l + 1, n);
    }
    assert forall|l: int, t: int| 0 <= l < levels.len() && 0 <= t < levels[l].len() implies committed(vc, m2, #[trigger] levels[l][t]) by {
        let x = levels[l][t];
        lemma_members(m, l + 1, n);
        assert(members(m, l + 1, n).contains(x));
        assert(m.contains_key(x));
        if l >= 1 {
            let b = bounds[l];
            assert(children_ok(m, levels[l], levels[l - 1], b));
            assert(b[0] <= b[t]);
            lemma_members(m, l, n);
            assert forall|q: int| 0 <= q < m[x].children@.len() implies m2[#[trigger] m[x].children@[q]] == m[m[x].children@[q]] by {
                assert(m[x].children@[q] == levels[l - 1][b[t] + q]);
                assert(members(m, l, n).contains(levels[l - 1][b[t] + q]));
            }
        }
        lemma_committed_frame(vc, m, m2, x);
    }
    assert forall|l: int| 1 <= l < levels.len() implies children_ok(m2, #[trigger] levels[l], levels[l - 1], bounds[l]) by {
        let b = bounds[l];
        assert(children_ok(m, levels[l], levels[l - 1], b));
        lemma_members(m, l + 1, n);
        lemma_members(m, l, n);
        assert forall|i: int| 0 <= i < levels[l].len() implies #[trigger] m2[levels[l][i]].children@ == levels[l - 1].subrange(b[i], b[i + 1]) by {
            assert(members(m, l + 1, n).contains(levels[l][i]));
        }
        assert forall|i: int| 0 <= i < levels[l].len() implies m2[levels[l - 1][#[trigger] b[i]]].key == m2[levels[l][i]].key by {
            assert(members(m, l + 1, n).contains(levels[l][i]));
            assert(b[0] <= b[i]);
            assert(b[i] < b[levels[l].len() as int]);
            assert(members(m, l, n).contains(levels[l - 1][b[i]]));
        }
    }
    assert forall|l: int, t: int| 1 <= l < levels.len() && 0 <= t < levels[l].len() implies m2[#[trigger] levels[l][t]].children@.len() <= MAX_FANOUT by {
        lemma_members(m, l + 1, n);
        assert(members(m, l + 1, n).contains(levels[l][t]));
    }
}

/// At the start of an upper node's run, the next node of the level below is
/// the node's own copy.
#[verifier::spinoff_prover]
proof fn lemma_first_child_at<V: VectorCommitment>(
    m0: Map<NodeId, Node<V>>,
    lvl: int,
    n: int,
    h: int,
    ups: Seq<NodeId>,
    lows: Seq<NodeId>,
    i: int,
    j: int,
)
    requires
        ptrs_ok(m0, h),
        2 <= lvl <= h,
        forall|id: NodeId| #[trigger] m0.contains_key(id) ==> id < n,
        0 <= i < ups.len(),
        0 <= j <= lows.len(),
        ups == members(m0, lvl, n),
        lows == members(m0, lvl - 1, n),
        level_seq_ok(m0, lows, lvl - 1),
        forall|x: NodeId| #[trigger] members(m0, lvl, n).contains(x) <==> x < n && m0.contains_key(x) && m0[x].level == lvl,
        forall|x: NodeId| #[trigger] members(m0, lvl - 1, n).contains(x) <==> x < n && m0.contains_key(x) && m0[x].level == lvl - 1,
        forall|t: int| 0 <= t < j ==> rank(m0[#[trigger] lows[t]].key) < rank(m0[ups[i]].key),
        j == lows.len() || rank(m0[ups[i]].key) <= rank(m0[lows[j]].key),
    ensures
        j < lows.len(),
        m0[lows[j]].key == m0[ups[i]].key,
{
    reveal(ptrs_ok);
    let u = ups[i];
    assert(members(m0, lvl, n).contains(u));
    assert(node_ptr_ok(m0, u, h));
    let d = m0[u].down->0;
    assert(m0.contains_key(d));
    assert(members(m0, lvl - 1, n).contains(d));
    let td = choose|td: int| 0 <= td < lows.len() && lows[td] == d;
    if td < j {
        assert(rank(m0[lows[td]].key) < rank(m0[u].key));
    }
    if td > j {
        assert(rank(m0[lows[j]].key) < rank(m0[lows[td]].key));
    }
}

/// The run collected for an upper node is nonempty and within the bound.
#[verifier::spinoff_prover]
proof fn lemma_kids_ok<V: VectorCommitment>(
    m0: Map<NodeId, Node<V>>,
    lvl: int,
    n: int,
    ups: Seq<NodeId>,
    lows: Seq<NodeId>,
    i: int,
    start: int,
    j: int,
    has_hi: bool,
    hi: Key,
    kids: Seq<NodeId>,
)
    requires
        0 <= i < ups.len(),
        0 <= start < lows.len(),
        start <= j <= lows.len(),
        level_seq_ok(m0, ups, lvl),
        m0[lows[start]].key == m0[ups[i]].key,
        kids == lows.subrange(start, j),
        has_hi == (i + 1 < ups.len()),
        has_hi ==> hi == m0[ups[i + 1]].key,
        !(j < lows.len() && (!has_hi || rank(m0[lows[j]].key) < rank(hi))),
        kids.len() <= MAX_FANOUT,
        lows == members(m0, lvl - 1, n),
        forall|x: NodeId| #[trigger] members(m0, lvl - 1, n).contains(x) <==> x < n && m0.contains_key(x) && m0[x].level == lvl - 1,
    ensures
        0 < kids.len() <= MAX_FANOUT,
        forall|q: int| 0 <= q < kids.len() ==> m0.contains_key(#[trigger] kids[q]) && m0[kids[q]].level == lvl - 1,
{
    if j == start && has_hi {
        assert(rank(m0[ups[i]].key) < rank(m0[ups[i + 1]].key));
    }
    assert forall|q: int| 0 <= q < kids.len() implies m0.contains_key(#[trigger] kids[q]) && m0[kids[q]].level == lvl - 1 by {
        let x = lows[start + q];
        assert(kids[q] == x);
        assert(x == members(m0, lvl - 1, n)[start + q]);
        assert(members(m0, lvl - 1, n).contains(x));
        assert(m0.contains_key(x));
    }
}

/// One step of committing an upper level: once the node at position `i`
/// has taken its run `ks` and been committed, the level is done up to and
/// including position `i`.
#[verifier::spinoff_prover]
proof fn lemma_commit_level_step<V: VectorCommitment>(
    vc: V,
    m0: Map<NodeId, Node<V>>,
    m1: Map<NodeId, Node<V>>,
    m3: Map<NodeId, Node<V>>,
    ups: Seq<NodeId>,
    lows: Seq<NodeId>,
    b: Seq<int>,
    i: int,
    start: int,
    j: int,
    lvl: int,
    n: int,
    h: int,
    has_hi: bool,
    hi: Key,
    ks: Seq<NodeId>,
)
    requires
        ptrs_ok(m0, h),
        2 <= lvl <= h,
        ups == members(m0, lvl, n),
        lows == members(m0, lvl - 1, n),
        level_seq_ok(m0, ups, lvl),
        level_seq_ok(m0, lows, lvl - 1),
        forall|x: NodeId| #[trigger] members(m0, lvl, n).contains(x) <==> x < n && m0.contains_key(x) && m0[x].level == lvl,
        forall|x: NodeId| #[trigger] members(m0, lvl - 1, n).contains(x) <==> x < n && m0.contains_key(x) && m0[x].level == lvl - 1,
        0 <= i < ups.len(),
        b.len() == i + 1,
        b[i] == start,
        0 <= start <= j <= lows.len(),
        shape_same(m0, m1),
        forall|x: NodeId| #[trigger] m0.contains_key(x) && m0[x].level != lvl ==> m1[x] == m0[x],
        forall|t: int| i <= t < ups.len() ==> m1[#[trigger] ups[t]] == m0[ups[t]],
        i > 0 ==> b[0] == 0,
        i == 0 ==> start == 0,
        forall|t1: int, t2: int| 0 <= t1 < t2 < i ==> #[trigger] b[t1] < #[trigger] b[t2],
        forall|t: int| 0 <= t < i ==> #[trigger] b[t] < start,
        forall|t: int| 0 <= t < i ==> m1[#[trigger] ups[t]].children@ == lows.subrange(b[t], if t + 1 < i { b[t + 1] } else { start }),
        forall|t: int| 0 <= t < i ==> m0[lows[#[trigger] b[t]]].key == m0[ups[t]].key,
        forall|t: int| 0 <= t < i ==> committed(vc, m1, #[trigger] ups[t]),
        forall|t: int| 0 <= t < i ==> m1[#[trigger] ups[t]].children@.len() <= MAX_FANOUT,
        forall|t: int| 0 <= t < start ==> rank(m0[#[trigger] lows[t]].key) < rank(m0[ups[i]].key),
        start < lows.len(),
        m0[lows[start]].key == m0[ups[i]].key,
        ks == lows.subrange(start, j),
        0 < ks.len() <= MAX_FANOUT,
        forall|q: int| 0 <= q < ks.len() ==> m0.contains_key(#[trigger] ks[q]) && m0[ks[q]].level == lvl - 1,
        has_hi == (i + 1 < ups.len()),
        has_hi ==> hi == m0[ups[i + 1]].key,
        has_hi ==> forall|t: int| start <= t < j ==> rank(m0[#[trigger] lows[t]].key) < rank(hi),
        !(j < lows.len() && (!has_hi || rank(m0[lows[j]].key) < rank(hi))),
        m3.dom() == m1.dom(),
        forall|x: NodeId| x != ups[i] ==> #[trigger] m3[x] == m1[x],
        m3[ups[i]].key == m1[ups[i]].key,
        m3[ups[i]].level == m1[ups[i]].level,
        m3[ups[i]].right == m1[ups[i]].right,
        m3[ups[i]].down == m1[ups[i]].down,
        m3[ups[i]].children@ == ks,
        committed(vc, m3, ups[i]),
        m3[ups[i]].interval.0 == m1[ks[0]].interval.0,
    ensures
        shape_same(m0, m3),
        forall|x: NodeId| #[trigger] m0.contains_key(x) && m0[x].level != lvl ==> m3[x] == m0[x],
        forall|t: int| i + 1 <= t < ups.len() ==> m3[#[trigger] ups[t]] == m0[ups[t]],
        i + 1 < ups.len() ==> forall|t: int| 0 <= t < j ==> rank(m0[#[trigger] lows[t]].key) < rank(m0[ups[i + 1]].key),
        i + 1 < ups.len() ==> (j == lows.len() || rank(m0[ups[i + 1]].key) <= rank(m0[lows[j]].key)),
        b[0] == 0,
        forall|t1: int, t2: int| 0 <= t1 < t2 < i + 1 ==> #[trigger] b[t1] < #[trigger] b[t2],
        forall|t: int| 0 <= t < i + 1 ==> #[trigger] b[t] < j,
        i + 1 == ups.len() ==> j == lows.len(),
        forall|t: int| 0 <= t < i + 1 ==> m3[#[trigger] ups[t]].children@ == lows.subrange(b[t], if t + 1 < i + 1 { b[t + 1] } else { j }),
        forall|t: int| 0 <= t < i + 1 ==> m0[lows[#[trigger] b[t]]].key == m0[ups[t]].key,
        forall|t: int| 0 <= t < i + 1 ==> committed(vc, m3, #[trigger] ups[t]),
        forall|t: int| 0 <= t < i + 1 ==> m3[#[trigger] ups[t]].children@.len() <= MAX_FANOUT,
{
    let u = ups[i];
    assert(members(m0, lvl, n).contains(u)) by {
        assert(m0.contains_key(u));
    }
    assert(m0.contains_key(u));
    assert(shape_same(m0, m3)) by {
        assert(m3.dom() =~= m0.dom());
        assert forall|x: NodeId| #[trigger] m3.contains_key(x) implies m3[x].key == m0[x].key && m3[x].level == m0[x].level
            && m3[x].right == m0[x].right && m3[x].down == m0[x].down && m3[x].interval.0 == m0[x].interval.0 by {
            if x == u {
                reveal(ptrs_ok);
                assert(node_ptr_ok(m0, u, h));
                assert(ks[0] == lows[start]);
                assert(m0.contains_key(ks[0]));
                assert(node_ptr_ok(m0, ks[0], h));
            }
        }
    }
    assert forall|x: NodeId| #[trigger] m0.contains_key(x) && m0[x].level != lvl implies m3[x] == m0[x] by {
        assert(x != u);
    }
    assert forall|t: int| 0 <= t < i + 1 implies committed(vc, m3, #[trigger] ups[t]) by {
        if t < i {
            assert(ups[t] != u) by {
                assert(rank(m0[ups[t]].key) < rank(m0[ups[i]].key));
            }
            let ch = m1[ups[t]].children@;
            assert forall|q: int| 0 <= q < ch.len() implies m3[#[trigger] ch[q]] == m1[ch[q]] by {
                assert(ch[q] == lows[b[t] + q]);
                assert(members(m0, lvl - 1, n).contains(lows[b[t] + q]));
            }
            lemma_committed_frame(vc, m1, m3, ups[t]);
        }
    }
    assert forall|t: int| i + 1 <= t < ups.len() implies m3[#[trigger] ups[t]] == m0[ups[t]] by {
        assert(rank(m0[ups[i]].key) < rank(m0[ups[t]].key));
    }
    assert forall|t: int| 0 <= t < i + 1 implies m3[#[trigger] ups[t]].children@ == lows.subrange(b[t], if t + 1 < i + 1 { b[t + 1] } else { j }) by {
        if t < i {
            assert(rank(m0[ups[t]].key) < rank(m0[ups[i]].key));
        }
    }
    assert forall|t: int| 0 <= t < i + 1 implies m3[#[trigger] ups[t]].children@.len() <= MAX_FANOUT by {
        if t < i {
            assert(rank(m0[ups[t]].key) < rank(m0[ups[i]].key));
        }
    }
    if has_hi {
        assert(rank(m0[ups[i]].key) < rank(m0[ups[i + 1]].key));
        assert forall|t: int| 0 <= t < j implies rank(m0[#[trigger] lows[t]].key) < rank(m0[ups[i + 1]].key) by {
            if t < start {
            }
        }
    }
    assert forall|t1: int, t2: int| 0 <= t1 < t2 < i + 1 implies #[trigger] b[t1] < #[trigger] b[t2] by {
        if t2 == i {
            assert(b[t1] < start);
        }
    }
}

/// The base keys only depend on the keys of the base nodes.
#[verifier::spinoff_prover]
proof fn lemma_base_keys_same<V: VectorCommitment>(m: Map<NodeId, Node<V>>, m2: Map<NodeId, Node<V>>, base: Seq<NodeId>)
    requires
        forall|i: int| 0 <= i < base.len() ==> m2[#[trigger] base[i]].key == m[base[i]].key,
    ensures
        base_keys(m2, base) == base_keys(m, base),
{
    assert forall|v: u64| base_keys(m2, base).contains(v) <==> base_keys(m, base).contains(v) by {
        if base_keys(m2, base).contains(v) {
            let t = choose|t: int| 0 <= t < base.len() && #[trigger] m2[base[t]].key == Key::Val(v);
            assert(m[base[t]].key == Key::Val(v));
        }
        if base_keys(m, base).contains(v) {
            let t = choose|t: int| 0 <= t < base.len() && #[trigger] m[base[t]].key == Key::Val(v);
            assert(m2[base[t]].key == Key::Val(v));
        }
    }
    assert(base_keys(m2, base) =~= base_keys(m, base));
}

/// The promoted nodes of a sweep at level `lvl`: in the map, at that level,
/// neither sentinel, in key order.
spec fn promoted_ok<V: VectorCommitment>(m: Map<NodeId, Node<V>>, promoted: Seq<NodeId>, lvl: int) -> bool {
    &&& forall|q: int| 0 <= q < promoted.len() ==> #[trigger] m.contains_key(promoted[q])
        && m[promoted[q]].level == lvl
        && 0 < rank(m[promoted[q]].key)
        && m[promoted[q]].key != Key::PosInf
    &&& forall|a: int, b: int| 0 <= a < b < promoted.len() ==> rank(m[#[trigger] promoted[a]].key) < rank(m[#[trigger] promoted[b]].key)
}

/// The promoted nodes of a sweep stay as they are when a new head is added.
proof fn lemma_promoted_ok<V: VectorCommitment>(m1: Map<NodeId, Node<V>>, m: Map<NodeId, Node<V>>, nh: NodeId, promoted: Seq<NodeId>, lvl: int)
    requires
        forall|q: int| 0 <= q < promoted.len() ==> #[trigger] m1.contains_key(promoted[q])
            && m1[promoted[q]].level == lvl
            && 0 < rank(m1[promoted[q]].key)
            && m1[promoted[q]].key != Key::PosInf,
        forall|a: int, b: int| 0 <= a < b < promoted.len() ==> rank(m1[#[trigger] promoted[a]].key) < rank(m1[#[trigger] promoted[b]].key),
        m == m1.insert(nh, m[nh]),
        !m1.contains_key(nh),
    ensures
        promoted_ok(m, promoted, lvl),
{
    assert forall|q: int| 0 <= q < promoted.len() implies #[trigger] m.contains_key(promoted[q])
        && m[promoted[q]].level == lvl
        && 0 < rank(m[promoted[q]].key)
        && m[promoted[q]].key != Key::PosInf by {
        assert(m1.contains_key(promoted[q]));
    }
    assert forall|a: int, b: int| 0 <= a < b < promoted.len() implies rank(m[#[trigger] promoted[a]].key) < rank(m[#[trigger] promoted[b]].key) by {
        assert(m1.contains_key(promoted[a]));
        assert(m1.contains_key(promoted[b]));
    }
}

/// The next state of the xorshift64 generator.
pub open spec fn xorshift(x: u64) -> u64 {
    let a = x ^ (x << 13u64);
    let b = a ^ (a >> 7u64);
    b ^ (b << 17u64)
}

/// The coin step is the xorshift64 step with shifts 13 left, 7 right, 17
/// left.
pub proof fn lemma_xorshift_shifts(x: u64)
    ensures
        xorshift(x) == ((x ^ (x << 13u64)) ^ ((x ^ (x << 13u64)) >> 7u64))
            ^ (((x ^ (x << 13u64)) ^ ((x ^ (x << 13u64)) >> 7u64)) << 17u64),
{
}

/// The coin step is linear over bits: it maps the xor of two states to the
/// xor of their images.
pub proof fn lemma_xorshift_linear(x: u64, y: u64)
    ensures
        xorshift(x ^ y) == xorshift(x) ^ xorshift(y),
{
    assert(((x ^ y) ^ ((x ^ y) << 13u64)) == ((x ^ (x << 13u64)) ^ (y ^ (y << 13u64)))) by (bit_vector);
    let a = x ^ (x << 13u64);
    let b = y ^ (y << 13u64);
    assert((a ^ b) ^ ((a ^ b) >> 7u64) == (a ^ (a >> 7u64)) ^ (b ^ (b >> 7u64))) by (bit_vector);
    let c = a ^ (a >> 7u64);
    let d = b ^ (b >> 7u64);
    assert((c ^ d) ^ ((c ^ d) << 17u64) == (c ^ (c << 17u64)) ^ (d ^ (d << 17u64))) by (bit_vector);
}

/// The coin state moves on every flip: no nonzero state is fixed by the
/// step, and no nonzero state is sent to zero (zero stays zero).
pub proof fn lemma_xorshift_moves(x: u64)
    ensures
        x != 0 ==> xorshift(x) != x,
        x != 0 ==> xorshift(x) != 0,
        xorshift(0) == 0,
{
    let a = x ^ (x << 13u64);
    let b = a ^ (a >> 7u64);
    let c = b ^ (b << 17u64);
    assert(x != 0 ==> (x ^ (x << 13u64)) != 0) by (bit_vector);
    assert(a != 0 ==> (a ^ (a >> 7u64)) != 0) by (bit_vector);
    assert(b != 0 ==> (b ^ (b << 17u64)) != 0) by (bit_vector);
    assert(x != 0 ==> ((x ^ (x << 13u64)) ^ ((x ^ (x << 13u64)) >> 7u64))
        ^ (((x ^ (x << 13u64)) ^ ((x ^ (x << 13u64)) >> 7u64)) << 17u64) != x) by (bit_vector);
    assert(0u64 ^ (0u64 << 13u64) == 0u64) by (bit_vector);
    assert(0u64 ^ (0u64 >> 7u64) == 0u64) by (bit_vector);
    assert(0u64 ^ (0u64 << 17u64) == 0u64) by (bit_vector);
}

/// Two coin states with the same successor are equal.
pub proof fn lemma_xorshift_injective(x: u64, y: u64)
    ensures
        xorshift(x) == xorshift(y) ==> x == y,
{
    lemma_xorshift_linear(x, y);
    lemma_xorshift_moves(x ^ y);
    let u = xorshift(x);
    let v = xorshift(y);
    assert(u == v ==> u ^ v == 0) by (bit_vector);
    assert(x ^ y == 0 ==> x == y) by (bit_vector);
}

/// The coin state after `n` flips from state `x`.
#[verifier::opaque]
pub open spec fn rng_after(x: u64, n: nat) -> u64
    decreases n,
{
    if n == 0 {
        x
    } else {
        xorshift(rng_after(x, (n - 1) as nat))
    }
}

/// Coin flips 1 ..= `n` from state `x` all promote.
#[verifier::opaque]
spec fn coins_promote(x: u64, thr: u64, n: int) -> bool {
    forall|i: int| 1 <= i <= n ==> #[trigger] rng_after(x, i as nat) < thr
}

proof fn lemma_coins_promote_step(x: u64, thr: u64, n: int)
    requires
        n >= 0,
        coins_promote(x, thr, n),
        rng_after(x, (n + 1) as nat) < thr,
    ensures
        coins_promote(x, thr, n + 1),
{
    reveal(coins_promote);
}

/// From a nonzero coin state (a build starts from `seed | 1`), every flip
/// moves to a new nonzero state: consecutive coin states differ.
pub proof fn lemma_coin_states_differ(x: u64, n: nat)
    requires
        x != 0,
    ensures
        rng_after(x, n) != 0,
        rng_after(x, n + 1) != rng_after(x, n),
    decreases n,
{
    reveal(rng_after);
    if n > 0 {
        lemma_coin_states_differ(x, (n - 1) as nat);
        lemma_xorshift_moves(rng_after(x, (n - 1) as nat));
        assert(rng_after(x, n) == xorshift(rng_after(x, (n - 1) as nat)));
    } else {
        assert(rng_after(x, 0) == x);
    }
    lemma_xorshift_moves(rng_after(x, n));
    assert(rng_after(x, n + 1) == xorshift(rng_after(x, n)));
}

/// One xorshift64 step of the coin state.
fn xorshift_next(x: u64) -> (r: u64)
    ensures
        r == xorshift(x),
{
    let a = x ^ (x << 13u64);
    let b = a ^ (a >> 7u64);
    b ^ (b << 17u64)
}

/// The sorted, duplicate-free keys.
#[verifier::spinoff_prover]
pub(crate) fn sorted_unique(keys: &[u64]) -> (r: Vec<u64>)
    ensures
        forall|i: int, j: int| 0 <= i < j < r@.len() ==> r@[i] < r@[j],
        forall|x: u64| r@.contains(x) <==> keys@.contains(x),
        r@.len() <= keys@.len(),
{
    let mut r: Vec<u64> = Vec::new();
    let mut i: usize = 0;
    while i < keys.len()
        invariant
            i <= keys@.len(),
            r@.len() <= i,
            forall|a: int, b: int| 0 <= a < b < r@.len() ==> r@[a] < r@[b],
            forall|x: u64| r@.contains(x) <==> keys@.take(i as int).contains(x),
        decreases keys@.len() - i,
    {
        let k = keys[i];
        // Binary search for the insertion point.
        let mut lo: usize = 0;
        let mut hi: usize = r.len();
        while lo < hi
            invariant
                lo <= hi <= r@.len(),
                forall|a: int, b: int| 0 <= a < b < r@.len() ==> r@[a] < r@[b],
                forall|a: int| 0 <= a < lo ==> r@[a] < k,
                forall|a: int| hi <= a < r@.len() ==> k <= r@[a],
            decreases hi - lo,
        {
            let mid = lo + (hi - lo) / 2;
            if r[mid] < k {
                lo = mid + 1;
            } else {
                hi = mid;
            }
        }
        let ghost old_r = r@;
        if lo < r.len() && r[lo] == k {
            proof {
                assert forall|x: u64| r@.contains(x) <==> keys@.take(i + 1).contains(x) by {
                    if keys@.take(i + 1).contains(x) {
                        let t = choose|t: int| 0 <= t < i + 1 && #[trigger] keys@.take(i + 1)[t] == x;
                        if t < i {
                            assert(keys@.take(i as int)[t] == x);
                        } else {
                            assert(r@[lo as int] == x);
                        }
                    }
                    if r@.contains(x) {
                        let t = choose|t: int| 0 <= t < i && #[trigger] keys@.take(i as int)[t] == x;
                        assert(keys@.take(i + 1)[t] == x);
                    }
                }
            }
        } else {
            r.insert(lo, k);
            proof {
                assert forall|a: int, b: int| 0 <= a < b < r@.len() implies r@[a] < r@[b] by {
                    if b < lo {
                    } else if b == lo {
                    } else if a < lo {
                        assert(r@[b] == old_r[b - 1]);
                    } else if a == lo {
                        assert(r@[b] == old_r[b - 1]);
                    } else {
                        assert(r@[b] == old_r[b - 1]);
                        assert(r@[a] == old_r[a - 1]);
                    }
                }
                assert forall|x: u64| r@.contains(x) <==> keys@.take(i + 1).contains(x) by {
                    if keys@.take(i + 1).contains(x) {
                        let t = choose|t: int| 0 <= t < i + 1 && #[trigger] keys@.take(i + 1)[t] == x;
                        if t < i {
                            assert(keys@.take(i as int)[t] == x);
                            assert(keys@.take(i as int).contains(x));
                            assert(old_r.contains(x));
                            assert(r@ == old_r.insert(lo as int, k));
                            let u = choose|u: int| 0 <= u < old_r.len() && #[trigger] old_r[u] == x;
                            if u < lo {
                                assert(r@[u] == x);
                            } else {
                                assert(r@[u + 1] == x);
                            }
                        } else {
                            assert(r@[lo as int] == x);
                        }
                    }
                    if r@.contains(x) {
                        let u = choose|u: int| 0 <= u < r@.len() && #[trigger] r@[u] == x;
                        if u < lo {
                            assert(old_r[u] == x);
                            assert(old_r.contains(x));
                            let t = choose|t: int| 0 <= t < i && #[trigger] keys@.take(i as int)[t] == x;
                            assert(keys@.take(i + 1)[t] == x);
                        } else if u == lo {
                            assert(keys@.take(i + 1)[i as int] == x);
                        } else {
                            assert(old_r[u - 1] == x);
                            assert(old_r.contains(x));
                            let t = choose|t: int| 0 <= t < i && #[trigger] keys@.take(i as int)[t] == x;
                            assert(keys@.take(i + 1)[t] == x);
                        }
                    }
                }
            }
        }
        i = i + 1;
    }
    proof {
        assert(keys@.take(keys@.len() as int) =~= keys@);
    }
    r
}

/// One `(com_i, pi_com_i)` pair of the proof: `commitment` is this node's own
/// commitment com_i, and `witness` opens position `position` of it to the
/// next thing down the path.
pub struct Step<V: VectorCommitment> {
    pub commitment: V::Commitment,
    pub position: usize,
    pub witness: V::Witness,
}

/// One step of a Merkle-mode proof: just the opened `position` and its
/// opening `witness` (the sibling data), no commitment.
pub struct HashStep<V: VectorCommitment> {
    pub position: usize,
    pub witness: V::Witness,
}

pub struct Ibsl<V: VectorCommitment> {
    vc: V,
    /// Nodes keyed by an allocated id.
    nodes: HashMap<NodeId, Node<V>>,
    /// Monotonic id source for `alloc`.
    next_id: NodeId,
    /// heads[i] = the NegInf sentinel of level i+1. The last head is the root.
    heads: Vec<NodeId>,
    rng: u64,
    /// A node is promoted when a `coin()` sample falls below this threshold,
    /// so the promotion probability is `promote_threshold / 2^64`.
    promote_threshold: u64,
    /// The nodes of each level in key order; `levels[0]` is the base list.
    levels: Ghost<Seq<Seq<NodeId>>>,
    /// The children of `levels[l][i]` are `levels[l - 1][bounds[l][i] ..
    /// bounds[l][i + 1]]`.
    bounds: Ghost<Seq<Seq<int>>>,
}

/// Merkle mode: prove/verify a membership chain as a plain sibling-hash
/// authentication path, available whenever the backend's node commitment
/// is a hash of its slots. The tree is identical to the default mode; the
/// proof no longer carries the per-level commitments: the verifier walks
/// the path bottom-up, recomputing each node's hash from the child hash
/// below and the opened siblings, and checks the final hash equals the
/// root.
impl<V: HashVc> Ibsl<V> {
    /// `pi` is the Merkle-mode proof of `k`: one step per level, top-down,
    /// each with the opened position and the opening derived from the path
    /// node's prover state.
    pub closed spec fn is_hash_proof(&self, k: u64, pi: Seq<HashStep<V>>) -> bool {
        let h = self.heads@.len() as int;
        &&& pi.len() == h
        &&& forall|j: int| 0 <= j < h ==> {
            let l = h - 1 - j;
            let id = self.path_node(l, Key::Val(k));
            &&& (#[trigger] pi[j]).position == self.path_pos(l, Key::Val(k))
            &&& self.nodes@[id].opener matches Some(op) && self.vc.is_opening(&op, pi[j].position as int, pi[j].witness)
        }
    }

    /// Prove(S, k) as a Merkle-style sibling-hash chain: one `(position,
    /// siblings)` step per level top-down, and nothing else. `None` if k is
    /// not a member.
    #[verifier::spinoff_prover]
    pub fn prove_hash(&self, k: u64) -> (r: Option<Vec<HashStep<V>>>)
        requires
            self.wf(),
        ensures
            r is Some <==> self@.contains(k),
            r matches Some(pi) ==> self.is_hash_proof(k, pi@),
    {
        let path = match self.proof_path(k) {
            Some(p) => p,
            None => return None,
        };
        let ghost h = self.heads@.len() as int;
        let mut steps: Vec<HashStep<V>> = Vec::new();
        let mut j: usize = 0;
        while j < path.len()
            invariant
                self.wf(),
                h == self.heads@.len(),
                path@.len() == h,
                j <= path@.len(),
                steps@.len() == j,
                forall|t: int| 0 <= t < path@.len() ==> {
                    let l = h - 1 - t;
                    &&& (#[trigger] path@[t]).0 == self.path_node(l, Key::Val(k))
                    &&& path@[t].1 == self.path_pos(l, Key::Val(k))
                    &&& path@[t].1 < node_vals(self.nodes@, path@[t].0).len()
                },
                forall|t: int| 0 <= t < j ==> {
                    let l = h - 1 - t;
                    let id = self.path_node(l, Key::Val(k));
                    &&& (#[trigger] steps@[t]).position == self.path_pos(l, Key::Val(k))
                    &&& self.nodes@[id].opener matches Some(op) && self.vc.is_opening(&op, steps@[t].position as int, steps@[t].witness)
                },
            decreases path@.len() - j,
        {
            let (id, pos) = path[j];
            let ghost l = h - 1 - j;
            proof {
                self.lemma_path_step(l, Key::Val(k));
            }
            let n = self.nodes.get(&id).unwrap();
            let op = n.opener.as_ref().unwrap();
            proof {
                self.vc.lemma_opener_width(op, node_vals(self.nodes@, id));
            }
            let w = self.vc.open(op, pos);
            steps.push(HashStep { position: pos, witness: w });
            j = j + 1;
        }
        Some(steps)
    }

    /// Verify(sigma, k, pi) for a Merkle-mode proof: recompute the path
    /// bottom-up, the leaf's hash from k and its siblings, then each
    /// parent's hash from the child hash just computed and that level's
    /// siblings, and accept iff the top hash equals the trusted root sigma.
    /// Any malformed step (bad position or witness width) rejects.
    #[verifier::spinoff_prover]
    pub fn verify_hash(vc: &V, root: &V::Commitment, k: u64, pi: &[HashStep<V>]) -> (r: bool)
        requires
            vc.wf(),
        ensures
            r == spec_verify_hash(*vc, *root, k, pi@),
    {
        let n = pi.len();
        if n == 0 {
            return false;
        }
        // Leaf: opens slot 0 to the key itself, yielding the leaf's own hash.
        let mut cur = match vc.recompute(pi[n - 1].position, Key::Val(k).field(), &pi[n - 1].witness) {
            Some(c) => c,
            None => {
                proof {
                    lemma_chain_none(*vc, k, pi@, n - 1);
                }
                return false;
            },
        };
        // Walk up: each upper node opens the child hash just computed.
        let mut i: usize = n - 1;
        while i > 0
            invariant
                vc.wf(),
                n == pi@.len(),
                0 <= i < n,
                chain_up(*vc, k, pi@, i as int) == Some(cur),
            decreases i,
        {
            let value = V::to_field(&cur);
            cur = match vc.recompute(pi[i - 1].position, value, &pi[i - 1].witness) {
                Some(c) => c,
                None => {
                    proof {
                        lemma_chain_none(*vc, k, pi@, i - 1);
                    }
                    return false;
                },
            };
            i = i - 1;
        }
        bytes_eq(&V::commitment_bytes(&cur), &V::commitment_bytes(root))
    }

    /// Completeness of Merkle-mode proofs: the Merkle-mode proof of a member
    /// that `prove_hash` hands out is accepted by `verify_hash` against the
    /// root commitment.
    #[verifier::spinoff_prover]
    pub proof fn lemma_member_hash_proof_verifies(&self, k: u64, pi: Seq<HashStep<V>>)
        requires
            self.wf(),
            self@.contains(k),
            self.is_hash_proof(k, pi),
        ensures
            spec_verify_hash(self.params(), self.spec_root_commitment(), k, pi),
    {
        reveal(heads_ok);
        let h = self.heads@.len() as int;
        let key = Key::Val(k);
        self.lemma_hash_chain(k, pi, h - 1);
        assert(self.path_node(h - 1, key) == self.heads@[h - 1]) by {
            reveal(levels_ok);
            let lv = self.levels@;
            assert(lv[h - 1] == seq![self.heads@[h - 1]]);
            self.lemma_path_step(h - 1, key);
        }
    }

    /// Bottom-up, the recomputed commitment of each step is the commitment
    /// of its path node.
    #[verifier::spinoff_prover]
    proof fn lemma_hash_chain(&self, k: u64, pi: Seq<HashStep<V>>, l: int)
        requires
            self.wf(),
            self@.contains(k),
            self.is_hash_proof(k, pi),
            0 <= l < self.heads@.len(),
        ensures
            chain_up(self.vc, k, pi, self.heads@.len() - 1 - l) == Some(self.nodes@[self.path_node(l, Key::Val(k))].commitment),
        decreases l,
    {
        let h = self.heads@.len() as int;
        let key = Key::Val(k);
        let j = h - 1 - l;
        let id = self.path_node(l, key);
        self.lemma_path_step(l, key);
        let op = self.nodes@[id].opener->0;
        let vals = node_vals(self.nodes@, id);
        assert(pi[j].position == self.path_pos(l, key));
        if l == 0 {
            self.lemma_leaf_is_key(k);
        } else {
            self.lemma_hash_chain(k, pi, l - 1);
            assert(vals.len() == self.nodes@[id].children@.len());
        }
        self.vc.lemma_open_check(&op, vals, pi[j].position as int, pi[j].witness);
        self.vc.lemma_check_is_recompute(self.vc.spec_commit(vals), pi[j].position as int, vals[pi[j].position as int], pi[j].witness);
    }
}

impl<V: VectorCommitment> View for Ibsl<V> {
    type V = Set<u64>;

    closed spec fn view(&self) -> Set<u64> {
        base_keys(self.nodes@, self.levels@[0])
    }
}

impl<V: VectorCommitment> Ibsl<V> {
    /// The structural invariant.
    pub closed spec fn wf(&self) -> bool {
        let m = self.nodes@;
        &&& ptrs_ok(m, self.heads@.len() as int)
        &&& heads_ok(m, self.heads@)
        &&& self.levels@.len() == self.heads@.len()
        &&& base_ok(m, self.levels@[0])
        &&& levels_ok(m, self.heads@, self.levels@, self.bounds@)
        &&& commits_ok(self.vc, m, self.levels@)
        &&& fanout_ok(m, self.levels@)
        &&& self.vc.wf()
        &&& self.vc.max_width() >= MAX_FANOUT
        &&& forall|id: NodeId| #[trigger] m.contains_key(id) ==> id < self.next_id
    }

    /// The level sequences and their runs describe the node map.
    spec fn shape_ok(&self) -> bool {
        &&& heads_ok(self.nodes@, self.heads@)
        &&& self.levels@.len() == self.heads@.len()
        &&& levels_ok(self.nodes@, self.heads@, self.levels@, self.bounds@)
    }

    /// The node of level index `l` (level `l + 1`) on `key`'s path.
    closed spec fn path_node(&self, l: int, key: Key) -> NodeId {
        self.levels@[l][owner(self.nodes@, self.levels@[l], key)]
    }

    /// The slot the path node of level index `l` opens: the position of the
    /// next path node among its children (its own key at a leaf).
    closed spec fn path_pos(&self, l: int, key: Key) -> int {
        if l == 0 {
            0
        } else {
            owner(self.nodes@, self.levels@[l - 1], key) - self.bounds@[l][owner(self.nodes@, self.levels@[l], key)]
        }
    }

    /// `pi` is the membership proof of `k`: one step per level, top-down,
    /// each carrying the commitment of the path node, the opened position,
    /// and the opening derived from the node's prover state.
    pub closed spec fn is_proof(&self, k: u64, pi: Seq<Step<V>>) -> bool {
        let h = self.heads@.len() as int;
        &&& pi.len() == h
        &&& forall|j: int| 0 <= j < h ==> {
            let l = h - 1 - j;
            let id = self.path_node(l, Key::Val(k));
            &&& (#[trigger] pi[j]).commitment == self.nodes@[id].commitment
            &&& pi[j].position == self.path_pos(l, Key::Val(k))
            &&& self.nodes@[id].opener matches Some(op) && self.vc.is_opening(&op, pi[j].position as int, pi[j].witness)
        }
    }

    /// The published root commitment sigma.
    pub closed spec fn spec_root_commitment(&self) -> V::Commitment {
        self.nodes@[self.heads@[self.heads@.len() - 1]].commitment
    }

    /// Number of levels.
    pub closed spec fn spec_height(&self) -> nat {
        self.heads@.len()
    }

    /// The commitment scheme's public parameters.
    pub closed spec fn params(&self) -> V {
        self.vc
    }

    /// How many node ids have been handed out; ids are never reused, so an
    /// update needs this to stay clear of `usize::MAX`.
    pub closed spec fn spec_ids_used(&self) -> nat {
        self.next_id as nat
    }

    /// Every node of this structure but those on `k`'s path is still held
    /// by `other` with the same commitment and opener: an update touches
    /// the commitments along `k`'s path only.
    pub closed spec fn keeps_off_path(&self, other: Self, k: u64) -> bool {
        forall|l: int, q: int| #![trigger self.levels@[l][q]]
            0 <= l < self.levels@.len() && 0 <= q < self.levels@[l].len()
            && q != owner(self.nodes@, self.levels@[l], Key::Val(k)) ==> {
                &&& other.nodes@.contains_key(self.levels@[l][q])
                &&& other.nodes@[self.levels@[l][q]].commitment == self.nodes@[self.levels@[l][q]].commitment
                &&& other.nodes@[self.levels@[l][q]].opener == self.nodes@[self.levels@[l][q]].opener
            }
    }

    /// Every node of this structure but those on `k`'s path and the left
    /// neighbours of `k`'s tower above the base is still held by `other`
    /// with the same commitment and opener: a delete touches the
    /// commitments of those nodes only.
    pub closed spec fn keeps_off_tower(&self, other: Self, k: u64) -> bool {
        forall|l: int, q: int| #![trigger self.levels@[l][q]]
            0 <= l < self.levels@.len() && 0 <= q < self.levels@[l].len()
            && q != owner(self.nodes@, self.levels@[l], Key::Val(k))
            && !(1 <= l && q + 1 == owner(self.nodes@, self.levels@[l], Key::Val(k))
                && self.nodes@[self.path_node(l, Key::Val(k))].key == Key::Val(k)) ==> {
                &&& other.nodes@.contains_key(self.levels@[l][q])
                &&& other.nodes@[self.levels@[l][q]].commitment == self.nodes@[self.levels@[l][q]].commitment
                &&& other.nodes@[self.levels@[l][q]].opener == self.nodes@[self.levels@[l][q]].opener
            }
    }

    /// A structure left as it is keeps every node.
    proof fn lemma_keeps_self(&self, k: u64)
        requires
            self.wf(),
        ensures
            self.keeps_off_path(*self, k),
            self.keeps_off_tower(*self, k),
    {
        reveal(levels_ok);
        assert forall|l: int, q: int| #![trigger self.levels@[l][q]] 0 <= l < self.levels@.len() && 0 <= q < self.levels@[l].len()
            implies self.nodes@.contains_key(self.levels@[l][q]) by {
            assert(level_seq_ok(self.nodes@, self.levels@[l], l + 1));
        }
    }

    /// The coin state the next coin flip starts from.
    pub closed spec fn spec_rng(&self) -> u64 {
        self.rng
    }

    /// `k` has a node on level `l + 1`: it owns its own range there.
    pub closed spec fn has_tower_node(&self, l: int, k: u64) -> bool {
        self.nodes@[self.path_node(l, Key::Val(k))].key == Key::Val(k)
    }

    /// The promotion threshold the coin samples are compared against.
    pub closed spec fn spec_threshold(&self) -> u64 {
        self.promote_threshold
    }

    /// Build with promotion threshold `threshold`: a node is promoted when a
    /// coin sample falls below it, so the promotion probability is
    /// `threshold / 2^64`. Lower probabilities mean wider nodes and a
    /// shallower tree. `None` exactly when some node of the built list would
    /// have more than `MAX_FANOUT` children: the build over the sorted keys
    /// from coin state `seed | 1` (`spec_build_fits`).
    #[verifier::spinoff_prover]
    pub fn new_with_threshold(keys: &[u64], seed: u64, threshold: u64) -> (r: Option<Self>)
        requires
            (keys@.len() + 2) * (MAX_HEIGHT + 1) <= usize::MAX,
        ensures
            r matches Some(s) ==> s.wf() && forall|v: u64| s@.contains(v) <==> keys@.contains(v),
            r matches Some(s) ==> s.spec_threshold() == threshold,
            r matches Some(s) ==> s.spec_ids_used() <= (keys@.len() + 2) * MAX_HEIGHT,
            keys@.len() + 2 <= MAX_FANOUT ==> r is Some,
            keys@.to_set().len() + 2 <= MAX_FANOUT ==> r is Some,
            threshold == 0 ==> (r matches Some(s) ==> s.spec_height() == 2),
            threshold == 0 ==> (r is Some <==> keys@.to_set().len() + 2 <= MAX_FANOUT),
            r is Some <==> Self::spec_build_fits(sorted_keys(keys@), seed, threshold),
            r matches Some(s) ==> s.spec_height() == Self::spec_build_height(sorted_keys(keys@), seed, threshold),
    {
        let (mut s, Ghost(base)) = Self::build_base(keys, seed, threshold);
        let ghost nb = base.len() as int;
        let ghost mut top = base;
        let ghost fr = build_result(sorted_keys(keys@), seed, threshold);
        assert(nb <= keys@.len() + 2);
        assert(build_from(skel(s.nodes@), top, s.heads@.len() as int, s.next_id as int, s.rng, threshold) == fr);
        // Sweep upward: each node of L_i is extended into L_{i+1} with the
        // promotion probability. The head sentinel is always extended.
        loop
            invariant_except_break
                nb <= keys@.len() + 2,
                s.build_ok(base, top, nb),
                s.heads@.len() < MAX_HEIGHT,
                forall|v: u64| base_keys(s.nodes@, base).contains(v) <==> keys@.contains(v),
                s.promote_threshold == threshold,
                threshold == 0 ==> s.heads@.len() == 1,
                build_from(skel(s.nodes@), top, s.heads@.len() as int, s.next_id as int, s.rng, threshold) == fr,
            ensures
                skel(s.nodes@) == fr.0,
                s.heads@.len() == fr.1,
                s.next_id == fr.2,
                nb <= keys@.len() + 2,
                s.promote_threshold == threshold,
                threshold == 0 ==> s.heads@.len() == 2,
                s.build_ok(base, top, nb),
                top == seq![s.heads@[s.heads@.len() - 1]],
                s.heads@.len() >= 2,
                forall|v: u64| base_keys(s.nodes@, base).contains(v) <==> keys@.contains(v),
            decreases MAX_HEIGHT - s.heads@.len(),
        {
            let ghost m0 = s.nodes@;
            let ghost r0 = s.rng;
            let ghost n0 = s.next_id as int;
            let ghost h0 = s.heads@.len() as int;
            let ghost top0 = top;
            proof {
                assert(h0 >= 1) by {
                    assert(swept_state(s.nodes@, s.heads@, s.next_id as int, s.vc, base, nb));
                }
            }
            let promoted = s.sweep_level(Ghost(base), Ghost(top), Ghost(nb));
            let lvl = s.heads.len();
            let ghost m1 = s.nodes@;
            let nh = s.push_head(Ghost(base), Ghost(nb));
            let new_lvl = lvl + 1;
            let ghost sk1 = sweep_upto(skel(m0), r0, top0, threshold, top0.len() as int).0.insert(n0 as NodeId, (Key::NegInf, (h0 + 1) as usize));
            proof {
                assert(skel(s.nodes@) == sk1) by {
                    assert(s.nodes@ == m1.insert(nh, s.nodes@[nh]));
                    assert(skel(s.nodes@) =~= sk1);
                }
            }
            proof {
                lemma_base_keys_same(m0, m1, base);
                assert forall|i: int| 0 <= i < base.len() implies s.nodes@[#[trigger] base[i]].key == m1[base[i]].key by {
                    reveal(base_ok);
                    assert(m1.contains_key(base[i]));
                }
                lemma_base_keys_same(m1, s.nodes@, base);
            }
            if promoted.len() == 0 || new_lvl >= MAX_HEIGHT {
                // Individual Root: the top level holds a single node.
                proof {
                    top = seq![nh];
                    assert(skel(s.nodes@) == fr.0 && s.heads@.len() == fr.1 && s.next_id == fr.2) by {
                        plan::lemma_build_round(skel(m0), top0, h0, n0, r0, threshold);
                    }
                }
                break;
            }
            let ghost m2 = s.nodes@;
            proof {
                lemma_promoted_ok(m1, m2, nh, promoted@, lvl as int);
                assert(nb * lvl + nb == nb * (lvl + 1)) by (nonlinear_arith);
                assert(s.swept_ok(base, nb));
                assert(top_ok(s.nodes@, seq![nh], s.heads@.len() as int));
                assert(nh == s.heads@[s.heads@.len() - 1]);
                assert(s.nodes@[nh].right is None);
                assert(s.nodes@[nh].key == Key::NegInf);
                assert(s.heads@.len() >= 2);
                assert(0 < promoted@.len() < nb);
                assert(s.next_id + promoted@.len() <= nb * s.heads@.len() + 1);
                assert(m2 == s.nodes@);
                assert(s.heads@.len() - 1 == new_lvl - 1);
                assert(promoted_ok(m2, promoted@, new_lvl - 1));
            }
            let Ghost(nt) = s.link_level(&promoted, nh, Ghost(base), Ghost(nb));
            proof {
                lemma_base_keys_same(m2, s.nodes@, base);
                top = nt;
                assert(build_from(skel(s.nodes@), top, s.heads@.len() as int, s.next_id as int, s.rng, threshold) == fr) by {
                    plan::lemma_build_round(skel(m0), top0, h0, n0, r0, threshold);
                }
            }
        }
        let ghost m3 = s.nodes@;
        proof {
            reveal(base_ok);
            room::lemma_base_card(m3, base);
            assert(base_keys(m3, base) =~= keys@.to_set());
            if keys@.to_set().len() + 2 <= MAX_FANOUT {
                s.lemma_small_build_fits(base, top, nb);
            }
            assert(s.next_id <= nb * s.heads@.len());
            assert(nb * s.heads@.len() <= (keys@.len() + 2) * MAX_HEIGHT) by (nonlinear_arith)
                requires
                    0 <= nb <= keys@.len() + 2,
                    0 <= s.heads@.len() <= MAX_HEIGHT;
        }
        let ghost h3 = s.heads@.len() as int;
        let ghost n3 = s.next_id as int;
        proof {
            assert(Self::spec_build_fits(sorted_keys(keys@), seed, threshold) == levels_fit(m3, h3, n3)) by {
                Self::lemma_build_unfold(sorted_keys(keys@), seed, threshold);
                plan::lemma_levels_fit_skel(m3, h3, n3);
            }
            assert(Self::spec_build_height(sorted_keys(keys@), seed, threshold) == h3) by {
                Self::lemma_build_unfold(sorted_keys(keys@), seed, threshold);
            }
        }
        if s.recompute(Ghost(base), Ghost(nb)) {
            proof {
                lemma_base_keys_same(m3, s.nodes@, base);
                if threshold == 0 {
                    s.lemma_two_levels();
                }
            }
            Some(s)
        } else {
            None
        }
    }

    /// Build with the standard skip-list promotion probability p = 1/2
    /// (fan-out ~2, height ~log2 n). `None` if some node of the built list
    /// would have more than `MAX_FANOUT` children.
    #[verifier::spinoff_prover]
    pub fn new(keys: &[u64], seed: u64) -> (r: Option<Self>)
        requires
            (keys@.len() + 2) * (MAX_HEIGHT + 1) <= usize::MAX,
        ensures
            r matches Some(s) ==> s.wf() && forall|v: u64| s@.contains(v) <==> keys@.contains(v),
            r matches Some(s) ==> s.spec_threshold() == 0x8000_0000_0000_0000,
            r matches Some(s) ==> s.spec_ids_used() <= (keys@.len() + 2) * MAX_HEIGHT,
            keys@.len() + 2 <= MAX_FANOUT ==> r is Some,
            keys@.to_set().len() + 2 <= MAX_FANOUT ==> r is Some,
            r is Some <==> Self::spec_build_fits(sorted_keys(keys@), seed, 0x8000_0000_0000_0000),
            r matches Some(s) ==> s.spec_height() == Self::spec_build_height(sorted_keys(keys@), seed, 0x8000_0000_0000_0000),
    {
        Self::new_with_threshold(keys, seed, 0x8000_0000_0000_0000)
    }

    /// The root: the head of the top level.
    #[verifier::spinoff_prover]
    fn root(&self) -> (r: NodeId)
        requires
            self.wf(),
        ensures
            r == self.heads@[self.heads@.len() - 1],
            self.nodes@.contains_key(r),
    {
        proof {
            reveal(heads_ok);
        }
        self.heads[self.heads.len() - 1]
    }

    /// Number of levels.
    #[verifier::spinoff_prover]
    pub fn height(&self) -> (r: usize)
        requires
            self.wf(),
        ensures
            r == self.spec_height(),
            2 <= r <= MAX_HEIGHT,
    {
        proof {
            reveal(heads_ok);
        }
        self.heads.len()
    }

    /// The commitment scheme's public parameters (a verifier needs them).
    #[verifier::spinoff_prover]
    pub fn vc(&self) -> (r: &V)
        ensures
            *r == self.params(),
            self.wf() ==> r.wf() && r.max_width() >= MAX_FANOUT,
    {
        &self.vc
    }

    /// Everything but the node map is unchanged.
    spec fn same_but_nodes(&self, other: &Self) -> bool {
        &&& self.vc == other.vc
        &&& self.heads@ == other.heads@
        &&& self.next_id == other.next_id
        &&& self.rng == other.rng
        &&& self.promote_threshold == other.promote_threshold
        &&& self.levels == other.levels
        &&& self.bounds == other.bounds
    }

    #[verifier::spinoff_prover]
    fn set_right(&mut self, id: NodeId, r: Option<NodeId>)
        requires
            old(self).nodes@.contains_key(id),
        ensures
            final(self).same_but_nodes(old(self)),
            final(self).nodes@ == old(self).nodes@.insert(id, old(self).nodes@[id].with_right(r)),
    {
        let mut n = self.nodes.remove(&id).unwrap();
        n.right = r;
        self.nodes.insert(id, n);
        proof {
            assert(self.nodes@ =~= old(self).nodes@.insert(id, old(self).nodes@[id].with_right(r)));
        }
    }

    #[verifier::spinoff_prover]
    fn set_down(&mut self, id: NodeId, d: Option<NodeId>)
        requires
            old(self).nodes@.contains_key(id),
        ensures
            final(self).same_but_nodes(old(self)),
            final(self).nodes@ == old(self).nodes@.insert(id, old(self).nodes@[id].with_down(d)),
    {
        let mut n = self.nodes.remove(&id).unwrap();
        n.down = d;
        self.nodes.insert(id, n);
        proof {
            assert(self.nodes@ =~= old(self).nodes@.insert(id, old(self).nodes@[id].with_down(d)));
        }
    }

    #[verifier::spinoff_prover]
    fn set_children(&mut self, id: NodeId, c: Vec<NodeId>)
        requires
            old(self).nodes@.contains_key(id),
        ensures
            final(self).same_but_nodes(old(self)),
            final(self).nodes@.dom() == old(self).nodes@.dom(),
            forall|x: NodeId| x != id ==> #[trigger] final(self).nodes@[x] == old(self).nodes@[x],
            final(self).nodes@[id].same_but_children(old(self).nodes@[id]),
            final(self).nodes@[id].children@ == c@,
    {
        let mut n = self.nodes.remove(&id).unwrap();
        n.children = c;
        self.nodes.insert(id, n);
    }

    /// Gives node `id` the children `c` and recomputes its commitment.
    #[verifier::spinoff_prover]
    fn recommit_with(&mut self, id: NodeId, c: Vec<NodeId>)
        requires
            old(self).vc.wf(),
            old(self).vc.max_width() >= MAX_FANOUT,
            old(self).nodes@.contains_key(id),
            old(self).nodes@[id].level > 1,
            0 < c@.len() <= MAX_FANOUT,
            forall|q: int| 0 <= q < c@.len() ==> #[trigger] old(self).nodes@.contains_key(c@[q])
                && old(self).nodes@[c@[q]].level == old(self).nodes@[id].level - 1,
        ensures
            final(self).same_but_nodes(old(self)),
            final(self).nodes@.dom() == old(self).nodes@.dom(),
            forall|x: NodeId| x != id ==> #[trigger] final(self).nodes@[x] == old(self).nodes@[x],
            final(self).nodes@[id].key == old(self).nodes@[id].key,
            final(self).nodes@[id].level == old(self).nodes@[id].level,
            final(self).nodes@[id].right == old(self).nodes@[id].right,
            final(self).nodes@[id].down == old(self).nodes@[id].down,
            final(self).nodes@[id].children@ == c@,
            committed(final(self).vc, final(self).nodes@, id),
            final(self).nodes@[id].interval.0 == old(self).nodes@[c@[0]].interval.0,
    {
        let ghost m = self.nodes@;
        self.set_children(id, c);
        proof {
            let mm = self.nodes@;
            assert forall|q: int| 0 <= q < mm[id].children@.len() implies #[trigger] mm.contains_key(mm[id].children@[q])
                && mm[mm[id].children@[q]].level == mm[id].level - 1 by {
                let y = c@[q];
                assert(m.contains_key(y));
                assert(y != id);
            }
            assert(mm[c@[0]] == m[c@[0]]) by {
                assert(m.contains_key(c@[0]));
            }
        }
        self.commit_node(id);
    }

    #[verifier::spinoff_prover]
    fn alloc_node(&mut self, n: Node<V>) -> (id: NodeId)
        requires
            old(self).next_id < usize::MAX,
            forall|x: NodeId| #[trigger] old(self).nodes@.contains_key(x) ==> x < old(self).next_id,
        ensures
            id == old(self).next_id,
            final(self).next_id == old(self).next_id + 1,
            !old(self).nodes@.contains_key(id),
            final(self).nodes@ == old(self).nodes@.insert(id, n),
            final(self).vc == old(self).vc,
            final(self).heads@ == old(self).heads@,
            final(self).rng == old(self).rng,
            final(self).promote_threshold == old(self).promote_threshold,
            final(self).levels == old(self).levels,
            final(self).bounds == old(self).bounds,
    {
        let id = self.next_id;
        self.next_id = self.next_id + 1;
        self.nodes.insert(id, n);
        id
    }

    /// Recompute one node's interval and commitment from its stored
    /// `children` (which must already be correct, and already re-committed
    /// if they changed): a leaf commits to its own key, an upper node to the
    /// vector of its children's compact commitment values.
    #[verifier::spinoff_prover]
    fn commit_node(&mut self, id: NodeId)
        requires
            old(self).vc.wf(),
            old(self).vc.max_width() >= MAX_FANOUT,
            old(self).nodes@.contains_key(id),
            old(self).nodes@[id].level >= 1,
            old(self).nodes@[id].level > 1 ==> {
                let ch = old(self).nodes@[id].children@;
                &&& 0 < ch.len() <= MAX_FANOUT
                &&& forall|q: int| 0 <= q < ch.len() ==> #[trigger] old(self).nodes@.contains_key(ch[q])
                    && old(self).nodes@[ch[q]].level == old(self).nodes@[id].level - 1
            },
        ensures
            final(self).same_but_nodes(old(self)),
            final(self).nodes@.dom() == old(self).nodes@.dom(),
            forall|x: NodeId| x != id ==> #[trigger] final(self).nodes@[x] == old(self).nodes@[x],
            final(self).nodes@[id].same_but_commitment(old(self).nodes@[id]),
            node_vals(final(self).nodes@, id) == node_vals(old(self).nodes@, id),
            committed(final(self).vc, final(self).nodes@, id),
            final(self).nodes@[id].interval == (if old(self).nodes@[id].level == 1 {
                (old(self).nodes@[id].key, old(self).nodes@[id].key)
            } else {
                let ch = old(self).nodes@[id].children@;
                (old(self).nodes@[ch[0]].interval.0, old(self).nodes@[ch[ch.len() - 1]].interval.1)
            }),
    {
        let ghost m = self.nodes@;
        let n = self.nodes.get(&id).unwrap();
        let mut values: Vec<V::DigestType> = Vec::new();
        let interval;
        if n.level == 1 {
            interval = (n.key, n.key);
            values.push(n.key.field());
            proof {
                assert(values@ =~= node_vals(m, id));
            }
        } else {
            let first = n.children[0];
            let last = n.children[n.children.len() - 1];
            interval = (self.nodes.get(&first).unwrap().interval.0, self.nodes.get(&last).unwrap().interval.1);
            let mut q: usize = 0;
            while q < n.children.len()
                invariant
                    m == self.nodes@,
                    *n == m[id],
                    q <= n.children@.len(),
                    forall|t: int| 0 <= t < n.children@.len() ==> #[trigger] m.contains_key(n.children@[t]),
                    values@ == n.children@.take(q as int).map_values(|c: NodeId| V::spec_to_field(m[c].commitment)),
                decreases n.children@.len() - q,
            {
                let c = n.children[q];
                values.push(V::to_field(&self.nodes.get(&c).unwrap().commitment));
                proof {
                    assert(values@ =~= n.children@.take(q + 1).map_values(|c: NodeId| V::spec_to_field(m[c].commitment)));
                }
                q = q + 1;
            }
            proof {
                assert(n.children@.take(n.children@.len() as int) =~= n.children@);
            }
        }
        let (commitment, opener) = self.vc.commit(values.as_slice());
        let mut node = self.nodes.remove(&id).unwrap();
        node.interval = interval;
        node.commitment = commitment;
        node.opener = Some(opener);
        self.nodes.insert(id, node);
        proof {
            let m2 = self.nodes@;
            if m[id].level > 1 {
                let ch = m[id].children@;
                assert forall|q: int| 0 <= q < ch.len() implies ch[q] != id by {
                    assert(old(self).nodes@.contains_key(ch[q]));
                }
                assert(node_vals(m2, id) =~= node_vals(m, id));
            }
        }
    }

    spec fn build_ok(&self, base: Seq<NodeId>, top: Seq<NodeId>, nb: int) -> bool {
        build_state(self.nodes@, self.heads@, self.next_id as int, self.vc, base, top, nb)
    }

    /// The base level of a build: -inf, the sorted distinct keys, +inf, as
    /// nodes 0, 1, ..., each pointing right to the next.
    #[verifier::spinoff_prover]
    fn build_base(keys: &[u64], seed: u64, threshold: u64) -> (r: (Self, Ghost<Seq<NodeId>>))
        requires
            (keys@.len() + 2) * (MAX_HEIGHT + 1) <= usize::MAX,
        ensures
            r.0.build_ok(r.1@, r.1@, r.1@.len() as int),
            r.0.heads@.len() == 1,
            r.1@.len() <= keys@.len() + 2,
            forall|v: u64| base_keys(r.0.nodes@, r.1@).contains(v) <==> keys@.contains(v),
            r.0.promote_threshold == threshold,
            skel(r.0.nodes@) == plan::base_sk(sorted_keys(keys@)),
            r.1@ == Seq::new((sorted_keys(keys@).len() + 2) as nat, |t: int| t as NodeId),
            r.0.next_id == sorted_keys(keys@).len() + 2,
            r.0.rng == seed | 1,
    {
        let ks = sorted_unique(keys);
        proof {
            plan::lemma_sorted_keys(keys@, ks@);
        }
        assert(keys@.len() + 2 < usize::MAX) by (nonlinear_arith)
            requires
                (keys@.len() + 2) * (MAX_HEIGHT + 1) <= usize::MAX,
                MAX_HEIGHT == 32,
        ;
        let mut s = Ibsl {
            vc: V::setup(MAX_FANOUT),
            nodes: HashMap::new(),
            next_id: 0,
            heads: Vec::new(),
            rng: seed | 1,
            promote_threshold: threshold,
            levels: Ghost(Seq::empty()),
            bounds: Ghost(Seq::empty()),
        };
        // L_1: -inf -> com_1 -> ... -> com_n -> +inf
        let head = s.alloc_node(Node::new(Key::NegInf, 1));
        s.heads.push(head);
        let mut prev = head;
        let mut i: usize = 0;
        while i < ks.len()
            invariant
                ks@.len() <= keys@.len(),
                keys@.len() + 2 < usize::MAX,
                forall|a: int, b: int| 0 <= a < b < ks@.len() ==> ks@[a] < ks@[b],
                i <= ks@.len(),
                s.next_id == i + 1,
                prev == i,
                s.heads@ == seq![0usize],
                s.rng == seed | 1,
                s.vc.wf(),
                s.vc.max_width() >= MAX_FANOUT,
                s.promote_threshold == threshold,
                forall|id: NodeId| #[trigger] s.nodes@.contains_key(id) <==> id < s.next_id,
                forall|id: NodeId| id < s.next_id ==> {
                    let n = #[trigger] s.nodes@[id];
                    &&& n.level == 1
                    &&& n.key == base_key(ks@, id as int)
                    &&& n.interval == (n.key, n.key)
                    &&& n.down is None
                    &&& (id + 1 < s.next_id ==> n.right == Some((id + 1) as NodeId))
                    &&& (id + 1 == s.next_id ==> n.right is None)
                },
            decreases ks@.len() - i,
        {
            let id = s.alloc_node(Node::new(Key::Val(ks[i]), 1));
            s.set_right(prev, Some(id));
            prev = id;
            i = i + 1;
        }
        let tail = s.alloc_node(Node::new(Key::PosInf, 1));
        s.set_right(prev, Some(tail));
        let nb = s.next_id;
        let ghost base = Seq::new(nb as nat, |t: int| t as NodeId);
        proof {
            let m = s.nodes@;
            assert(nb * (MAX_HEIGHT + 1) <= usize::MAX) by (nonlinear_arith)
                requires
                    nb <= keys@.len() + 2,
                    (keys@.len() + 2) * (MAX_HEIGHT + 1) <= usize::MAX,
            ;
            assert forall|id: NodeId| id < nb implies {
                let n = #[trigger] m[id];
                &&& n.level == 1
                &&& n.key == base_key(ks@, id as int)
                &&& n.interval == (n.key, n.key)
                &&& n.down is None
                &&& (id + 1 < nb ==> n.right == Some((id + 1) as NodeId))
                &&& (id + 1 == nb ==> n.right is None)
            } by {}
            assert(ptrs_ok(m, 1)) by {
                reveal(ptrs_ok);
                assert forall|id: NodeId| #[trigger] m.contains_key(id) implies node_ptr_ok(m, id, 1) by {
                    if id + 1 < nb {
                        lemma_base_key_order(ks@, id as int, id + 1);
                    }
                }
            }
            assert(base_ok(m, base)) by {
                reveal(base_ok);
                assert forall|i: int, j: int| 0 <= i < j < base.len() implies rank(m[#[trigger] base[i]].key) < rank(m[#[trigger] base[j]].key) by {
                    lemma_base_key_order(ks@, i, j);
                }
                assert forall|id: NodeId| #[trigger] m.contains_key(id) && m[id].level == 1 implies base.contains(id) by {
                    assert(base[id as int] == id);
                }
                assert(m.contains_key(base[0]));
                assert(m.contains_key(base[base.len() - 1]));
            }
            assert(top_ok(m, base, 1)) by {
                reveal(top_ok);
                assert forall|i: int, j: int| 0 <= i < j < base.len() implies rank(m[#[trigger] base[i]].key) < rank(m[#[trigger] base[j]].key) by {
                    lemma_base_key_order(ks@, i, j);
                }
                assert forall|id: NodeId| #[trigger] m.contains_key(id) && m[id].level == 1 implies base.contains(id) by {
                    assert(base[id as int] == id);
                }
                assert(m.contains_key(base[base.len() - 1]));
            }
            assert(id_order(m)) by {
                reveal(id_order);
                assert forall|a: NodeId, b: NodeId|
                    #[trigger] m.contains_key(a) && #[trigger] m.contains_key(b) && m[a].level == m[b].level && a < b
                    implies rank(m[a].key) < rank(m[b].key) by {
                    lemma_base_key_order(ks@, a as int, b as int);
                }
            }
            assert(m.contains_key(s.heads@[0]));
            assert forall|v: u64| base_keys(m, base).contains(v) <==> keys@.contains(v) by {
                if keys@.contains(v) {
                    assert(ks@.contains(v));
                    let t = choose|t: int| 0 <= t < ks@.len() && ks@[t] == v;
                    assert(m[base[t + 1]].key == Key::Val(v));
                }
                if base_keys(m, base).contains(v) {
                    let t = choose|t: int| 0 <= t < base.len() && #[trigger] m[base[t]].key == Key::Val(v);
                    assert(ks@[t - 1] == v);
                    assert(ks@.contains(v));
                }
            }
            assert(nb == ks@.len() + 2);
            assert(skel(m) =~= plan::base_sk(ks@)) by {
                assert forall|id: NodeId| #[trigger] m.contains_key(id) implies skel(m)[id] == plan::base_sk(ks@)[id] by {
                    assert(m[id].key == base_key(ks@, id as int));
                }
            }
            assert(base =~= Seq::new((ks@.len() + 2) as nat, |t: int| t as NodeId));
        }
        (s, Ghost(base))
    }

    spec fn swept_ok(&self, base: Seq<NodeId>, nb: int) -> bool {
        swept_state(self.nodes@, self.heads@, self.next_id as int, self.vc, base, nb)
    }

    /// One sweep of the build at the top level: each node of the level but
    /// its head (and +inf) is promoted by a coin flip. Above the base level,
    /// when a node is promoted right after two unpromoted ones, the second
    /// of those is dismissed and its predecessor shortcuts down past it;
    /// after one, that one's chain is cut. Returns the promoted nodes, left
    /// to right.
    #[verifier::spinoff_prover]
    fn sweep_level(&mut self, Ghost(base): Ghost<Seq<NodeId>>, Ghost(top): Ghost<Seq<NodeId>>, Ghost(nb): Ghost<int>) -> (r: Vec<NodeId>)
        requires
            old(self).build_ok(base, top, nb),
        ensures
            final(self).swept_ok(base, nb),
            final(self).heads@ == old(self).heads@,
            final(self).next_id == old(self).next_id,
            final(self).promote_threshold == old(self).promote_threshold,
            final(self).vc == old(self).vc,
            forall|i: int| 0 <= i < base.len() ==> final(self).nodes@[#[trigger] base[i]] == old(self).nodes@[base[i]],
            r@.len() < top.len(),
            forall|q: int| 0 <= q < r@.len() ==> #[trigger] final(self).nodes@.contains_key(r@[q])
                && final(self).nodes@[r@[q]].level == final(self).heads@.len()
                && 0 < rank(final(self).nodes@[r@[q]].key)
                && final(self).nodes@[r@[q]].key != Key::PosInf,
            forall|a: int, b: int| 0 <= a < b < r@.len() ==> rank(final(self).nodes@[#[trigger] r@[a]].key) < rank(final(self).nodes@[#[trigger] r@[b]].key),
            old(self).promote_threshold == 0 ==> r@.len() == 0,
            skel(final(self).nodes@) == sweep_upto(skel(old(self).nodes@), old(self).rng, top, old(self).promote_threshold, top.len() as int).0,
            final(self).rng == sweep_upto(skel(old(self).nodes@), old(self).rng, top, old(self).promote_threshold, top.len() as int).1,
            r@ == sweep_upto(skel(old(self).nodes@), old(self).rng, top, old(self).promote_threshold, top.len() as int).2,
    {
        let lvl = self.heads.len();
        let list = self.level_nodes(lvl, Ghost(top));
        let ghost m0 = self.nodes@;
        let mut promoted: Vec<NodeId> = Vec::new();
        let ghost mut pidx: Seq<int> = Seq::empty();
        let mut prev: Option<NodeId> = None;
        let mut prev2: Option<NodeId> = None;
        let mut j: usize = 1;
        proof {
            lemma_sweep_start(m0, top, lvl as int);
            reveal(top_ok);
        }
        while j < list.len()
            invariant
                list@ == top,
                lvl == self.heads@.len(),
                j <= top.len(),
                old(self).build_ok(base, top, nb),
                m0 == old(self).nodes@,
                top_ok(m0, top, lvl as int),
                1 <= lvl,
                forall|id: NodeId| #[trigger] m0.contains_key(id) && m0[id].level >= 2 ==> m0[id].key != Key::PosInf,
                self.heads@ == old(self).heads@,
                self.next_id == old(self).next_id,
                self.vc == old(self).vc,
                self.promote_threshold == old(self).promote_threshold,
                self.promote_threshold == 0 ==> promoted@.len() == 0,
                1 <= j,
                (skel(self.nodes@), self.rng, promoted@, prev, prev2)
                    == sweep_upto(skel(m0), old(self).rng, top, old(self).promote_threshold, j as int),
                sweep_inv(self.nodes@, m0, top, lvl as int, j as int, prev, prev2, promoted@, pidx),
            decreases top.len() - j,
        {
            let id = list[j];
            let ghost st0 = sweep_upto(skel(m0), old(self).rng, top, old(self).promote_threshold, j as int);
            proof {
                lemma_sweep_current(self.nodes@, m0, top, lvl as int, j as int, prev, prev2, promoted@, pidx);
                assert(st0.0[id] == (self.nodes@[id].key, self.nodes@[id].level));
                assert(id == top[j as int]);
                plan::lemma_sweep_next(skel(m0), old(self).rng, top, old(self).promote_threshold, j as int);
            }
            let is_pos_inf = match self.nodes.get(&id).unwrap().key {
                Key::PosInf => true,
                _ => false,
            };
            if is_pos_inf {
                proof {
                    lemma_sweep_skip(self.nodes@, m0, top, lvl as int, j as int, prev, prev2, promoted@, pidx);
                }
            } else if self.coin() {
                // If node is promoted
                let ghost pr0 = promoted@;
                promoted.push(id);
                if self.nodes.get(&id).unwrap().level != 1 {
                    if prev2.is_some() && prev.is_some() {
                        let p2 = prev2.unwrap();
                        let p = prev.unwrap();
                        let ghost m1 = self.nodes@;
                        proof {
                            lemma_sweep_dismiss_pre(m1, m0, top, lvl as int, j as int, prev, prev2, pr0, pidx);
                        }
                        let down = self.nodes.get(&p).unwrap().down;
                        self.set_right(p2, down);
                        let ghost m2 = self.nodes@;
                        proof {
                            lemma_sweep_dismiss_free(m1, m2, m0, top, lvl as int, j as int, prev, prev2, pr0, pidx);
                        }
                        self.nodes.remove(&p);
                        proof {
                            lemma_sweep_dismiss(m1, m2, self.nodes@, m0, top, lvl as int, j as int, prev, prev2, pr0, pidx);
                            assert(skel(m2) =~= skel(m1));
                            assert(skel(self.nodes@) =~= skel(m1).remove(p));
                        }
                    } else if prev.is_some() {
                        let p = prev.unwrap();
                        let ghost m1 = self.nodes@;
                        proof {
                            lemma_sweep_cut_pre(m1, m0, top, lvl as int, j as int, prev, prev2, pr0, pidx);
                        }
                        self.set_right(p, None);
                        proof {
                            lemma_sweep_cut(m1, self.nodes@, m0, top, lvl as int, j as int, prev, prev2, pr0, pidx);
                            assert(skel(self.nodes@) =~= skel(m1));
                        }
                    } else {
                        proof {
                            lemma_sweep_fresh(self.nodes@, m0, top, lvl as int, j as int, prev, prev2, pr0, pidx);
                        }
                    }
                    proof {
                        pidx = pidx.push(j as int);
                    }
                    prev = None;
                    prev2 = None;
                } else {
                    proof {
                        lemma_sweep_advance(self.nodes@, m0, top, lvl as int, j as int, prev, prev2, pr0, pidx, true);
                        pidx = pidx.push(j as int);
                    }
                    prev2 = prev;
                    prev = Some(id);
                }
            } else {
                proof {
                    lemma_sweep_advance(self.nodes@, m0, top, lvl as int, j as int, prev, prev2, promoted@, pidx, false);
                }
                prev2 = prev;
                prev = Some(id);
            }
            j = j + 1;
        }
        proof {
            lemma_sweep_end(self.nodes@, m0, top, lvl as int, prev, prev2, promoted@, pidx, base, nb, self.heads@);
        }
        promoted
    }

    /// Starts the next level of a build: its -inf head, pointing down to
    /// the head below.
    #[verifier::spinoff_prover]
    fn push_head(&mut self, Ghost(base): Ghost<Seq<NodeId>>, Ghost(nb): Ghost<int>) -> (nh: NodeId)
        requires
            old(self).swept_ok(base, nb),
            old(self).heads@.len() < MAX_HEIGHT,
        ensures
            final(self).swept_ok(base, nb),
            final(self).heads@ == old(self).heads@.push(nh),
            top_ok(final(self).nodes@, seq![nh], final(self).heads@.len() as int),
            final(self).next_id == old(self).next_id + 1,
            final(self).promote_threshold == old(self).promote_threshold,
            final(self).vc == old(self).vc,
            final(self).nodes@ == old(self).nodes@.insert(nh, final(self).nodes@[nh]),
            !old(self).nodes@.contains_key(nh),
            final(self).nodes@[nh].key == Key::NegInf,
            final(self).nodes@[nh].right is None,
            nh == old(self).next_id,
            final(self).nodes@[nh].level == old(self).heads@.len() + 1,
            final(self).rng == old(self).rng,
    {
        let lvl = self.heads.len();
        let new_lvl = lvl + 1;
        let ghost m0 = self.nodes@;
        proof {
            assert(nb * lvl < nb * (MAX_HEIGHT + 1)) by (nonlinear_arith)
                requires
                    lvl < MAX_HEIGHT + 1,
                    2 <= nb,
            ;
            assert(m0.contains_key(self.heads@[lvl - 1]));
        }
        let nh = self.alloc_node(Node::new(Key::NegInf, new_lvl));
        self.set_down(nh, Some(self.heads[lvl - 1]));
        self.heads.push(nh);
        proof {
            let m = self.nodes@;
            let h = new_lvl as int;
            assert(m == m0.insert(nh, m[nh]));
            lemma_ptrs_grow(m0, lvl as int);
            assert(node_ptr_ok(m, nh, h)) by {
                assert(m.contains_key(self.heads@[lvl - 1]));
            }
            lemma_ptrs_insert(m0, nh, m[nh], h);
            assert forall|i: int| 0 <= i < base.len() implies m.contains_key(#[trigger] base[i]) && m[base[i]] == m0[base[i]] by {
                reveal(base_ok);
                assert(m0.contains_key(base[i]));
            }
            lemma_base_frame(m0, m, base);
            assert(id_order(m)) by {
                reveal(id_order);
                reveal(ptrs_ok);
                assert forall|a: NodeId, b: NodeId|
                    #[trigger] m.contains_key(a) && #[trigger] m.contains_key(b) && m[a].level == m[b].level && a < b
                    implies rank(m[a].key) < rank(m[b].key) by {
                    if b == nh {
                        assert(node_ptr_ok(m0, a, lvl as int));
                    } else {
                        assert(m0.contains_key(a) && m0.contains_key(b));
                    }
                }
            }
            assert(top_ok(m, seq![nh], h)) by {
                reveal(top_ok);
                reveal(ptrs_ok);
                assert forall|id: NodeId| #[trigger] m.contains_key(id) && m[id].level == h implies seq![nh].contains(id) by {
                    if id != nh {
                        assert(node_ptr_ok(m0, id, lvl as int));
                    }
                    assert(seq![nh][0] == nh);
                }
            }
            assert(nb * lvl + 1 <= nb * h) by (nonlinear_arith)
                requires
                    h == lvl + 1,
                    2 <= nb,
            ;
            assert forall|l: int| 0 <= l < h implies #[trigger] m.contains_key(self.heads@[l]) && m[self.heads@[l]].level == l + 1
                && m[self.heads@[l]].key == Key::NegInf by {
                if l < lvl {
                    assert(m0.contains_key(self.heads@[l]));
                }
            }
        }
        nh
    }

    /// Links the copies of the promoted nodes into the new top level, left
    /// to right after its head. The rightmost promotion gets no copy (it
    /// would be immediately redundant): its predecessor takes a shortcut
    /// path down to the promoted node itself.
    #[verifier::spinoff_prover]
    fn link_level(
        &mut self,
        promoted: &Vec<NodeId>,
        nh: NodeId,
        Ghost(base): Ghost<Seq<NodeId>>,
        Ghost(nb): Ghost<int>,
    ) -> (ntop: Ghost<Seq<NodeId>>)
        requires
            old(self).swept_ok(base, nb),
            top_ok(old(self).nodes@, seq![nh], old(self).heads@.len() as int),
            nh == old(self).heads@[old(self).heads@.len() - 1],
            old(self).nodes@[nh].right is None,
            old(self).nodes@[nh].key == Key::NegInf,
            old(self).heads@.len() >= 2,
            0 < promoted@.len() < nb,
            old(self).next_id + promoted@.len() <= nb * old(self).heads@.len() + 1,
            promoted_ok(old(self).nodes@, promoted@, old(self).heads@.len() - 1),
        ensures
            final(self).build_ok(base, ntop@, nb),
            final(self).heads@ == old(self).heads@,
            final(self).promote_threshold == old(self).promote_threshold,
            final(self).vc == old(self).vc,
            forall|i: int| 0 <= i < base.len() ==> final(self).nodes@[#[trigger] base[i]] == old(self).nodes@[base[i]],
            skel(final(self).nodes@) == link_sk(skel(old(self).nodes@), old(self).next_id as int, promoted@,
                old(self).heads@.len() as usize, promoted@.len() - 1),
            ntop@ == link_top(nh, old(self).next_id as int, promoted@.len() - 1),
            final(self).next_id == old(self).next_id + promoted@.len() - 1,
            final(self).rng == old(self).rng,
    {
        let h = self.heads.len();
        let len = promoted.len();
        let ghost m0 = self.nodes@;
        let mut prev = nh;
        let ghost mut ntop: Seq<NodeId> = seq![nh];
        let mut q: usize = 0;
        proof {
            assert(promoted_ok(m0, promoted@, h - 1));
            assert(skel(m0) =~= link_sk(skel(m0), old(self).next_id as int, promoted@, h, 0));
            assert(link_top(nh, old(self).next_id as int, 0) =~= ntop);
            assert(forall|x: NodeId| #[trigger] m0.contains_key(x) ==> x < old(self).next_id);
            assert forall|t: int| 0 <= t < len implies #[trigger] m0.contains_key(promoted@[t])
                && m0[promoted@[t]].level == h - 1
                && 0 < rank(m0[promoted@[t]].key)
                && m0[promoted@[t]].key != Key::PosInf by {
                assert(old(self).nodes@.contains_key(promoted@[t]));
            }
        }
        while q + 1 < len
            invariant
                h == self.heads@.len(),
                h >= 2,
                len == promoted@.len(),
                0 <= q < len,
                self.heads@ == old(self).heads@,
                self.promote_threshold == old(self).promote_threshold,
                self.vc == old(self).vc,
                self.swept_ok(base, nb),
                top_ok(self.nodes@, ntop, h as int),
                ntop.len() == q + 1,
                ntop[0] == nh,
                prev == ntop[ntop.len() - 1],
                self.nodes@[prev].right is None,
                q == 0 ==> prev == nh,
                q == 0 || self.nodes@[prev].key == m0[promoted@[q - 1]].key,
                self.nodes@[nh].key == Key::NegInf,
                self.next_id + (len - q) <= nb * h + 1,
                forall|t: int| 0 <= t < len ==> #[trigger] self.nodes@.contains_key(promoted@[t])
                    && self.nodes@[promoted@[t]] == m0[promoted@[t]],
                forall|i: int| 0 <= i < base.len() ==> self.nodes@[#[trigger] base[i]] == m0[base[i]],
                forall|t: int| 0 <= t < len ==> #[trigger] m0.contains_key(promoted@[t])
                    && m0[promoted@[t]].level == h - 1
                    && 0 < rank(m0[promoted@[t]].key)
                    && m0[promoted@[t]].key != Key::PosInf,
                forall|a: int, b: int| 0 <= a < b < len ==> rank(m0[#[trigger] promoted@[a]].key) < rank(m0[#[trigger] promoted@[b]].key),
                skel(self.nodes@) == link_sk(skel(m0), old(self).next_id as int, promoted@, h, q as int),
                ntop == link_top(nh, old(self).next_id as int, q as int),
                self.next_id == old(self).next_id + q,
                self.rng == old(self).rng,
                forall|x: NodeId| #[trigger] m0.contains_key(x) ==> x < old(self).next_id,
            decreases len - q,
        {
            let low = promoted[q];
            let key = self.nodes.get(&low).unwrap().key;
            let mut c = Node::new(key, h);
            c.down = Some(low);
            let ghost m1 = self.nodes@;
            let ghost cn = c;
            let ghost id1 = self.next_id as int;
            proof {
                reveal(top_ok);
                assert(self.nodes@.contains_key(prev));
                assert(self.nodes@.contains_key(promoted@[q as int]));
                assert(m0.contains_key(promoted@[q as int]));
                if q > 0 {
                    assert(rank(m0[promoted@[q - 1]].key) < rank(m0[promoted@[q as int]].key));
                }
                assert(nb * h <= nb * (MAX_HEIGHT + 1)) by (nonlinear_arith)
                    requires
                        h <= MAX_HEIGHT,
                        2 <= nb,
                ;
            }
            let cid = self.alloc_node(c);
            let ghost ma = self.nodes@;
            self.set_right(prev, Some(cid));
            proof {
                lemma_link_step(m1, self.nodes@, self.heads@, cid, self.vc, base, nb, ntop, prev, low, cn);
                assert forall|t: int| 0 <= t < len implies #[trigger] self.nodes@.contains_key(promoted@[t])
                    && self.nodes@[promoted@[t]] == m0[promoted@[t]] by {
                    assert(m1.contains_key(promoted@[t]));
                    assert(promoted@[t] != cid);
                    assert(m0.contains_key(promoted@[t]));
                    assert(m1[prev].level == h) by {
                        reveal(top_ok);
                    }
                }
                assert forall|i: int| 0 <= i < base.len() implies self.nodes@[#[trigger] base[i]] == m0[base[i]] by {
                    assert(m1.contains_key(base[i])) by {
                        reveal(base_ok);
                    }
                    assert(m1[base[i]].level == 1) by {
                        reveal(base_ok);
                    }
                    assert(m1[prev].level == h) by {
                        reveal(top_ok);
                    }
                }
                let id0 = old(self).next_id as int;
                let sk0 = skel(m0);
                assert(skel(self.nodes@) =~= link_sk(sk0, id0, promoted@, h, q + 1)) by {
                    assert(ma == m1.insert(cid, cn));
                    assert(cn.key == key && cn.level == h);
                    assert(skel(ma) =~= skel(m1).insert(cid, (key, h)));
                    assert(skel(self.nodes@) =~= skel(ma));
                    assert(m0[promoted@[q as int]].key == key);
                    assert(!sk0.contains_key(cid));
                    assert(cid == id0 + q);
                    assert(link_sk(sk0, id0, promoted@, h, q + 1) =~= link_sk(sk0, id0, promoted@, h, q as int).insert(cid, (key, h)));
                }
                assert(link_top(nh, id0, q + 1) =~= ntop.push(cid));
                ntop = ntop.push(cid);
            }
            prev = cid;
            q = q + 1;
        }
        // The rightmost promotion: shortcut straight down to it.
        let last = promoted[len - 1];
        let ghost m1 = self.nodes@;
        proof {
            if q > 0 {
                assert(rank(m0[promoted@[q - 1]].key) < rank(m0[promoted@[q as int]].key));
            }
            reveal(top_ok);
            assert(self.nodes@.contains_key(prev));
            assert(self.nodes@.contains_key(promoted@[q as int]));
            assert(m0.contains_key(promoted@[q as int]));
        }
        self.set_right(prev, Some(last));
        proof {
            lemma_link_end(m1, self.nodes@, self.heads@, self.next_id as int, self.vc, base, nb, ntop, prev, last);
            assert(skel(self.nodes@) =~= skel(m1));
        }
        Ghost(ntop)
    }

    /// Base level of a full recomputation: a leaf commits to its own key.
    #[verifier::spinoff_prover]
    fn commit_base_level(
        &mut self,
        lows: &Vec<NodeId>,
        Ghost(base): Ghost<Seq<NodeId>>,
        Ghost(top): Ghost<Seq<NodeId>>,
        Ghost(nb): Ghost<int>,
    )
        requires
            old(self).build_ok(base, top, nb),
            lows@ == base,
        ensures
            shape_same(old(self).nodes@, final(self).nodes@),
            forall|x: NodeId| #[trigger] old(self).nodes@.contains_key(x) && old(self).nodes@[x].level != 1
                ==> final(self).nodes@[x] == old(self).nodes@[x],
            forall|t: int| 0 <= t < base.len() ==> committed(final(self).vc, final(self).nodes@, #[trigger] base[t]),
            final(self).same_but_nodes(old(self)),
    {
        let ghost m0 = self.nodes@;
        let ghost h = self.heads@.len() as int;
        let mut i: usize = 0;
        while i < lows.len()
            invariant
                lows@ == base,
                old(self).build_ok(base, top, nb),
                m0 == old(self).nodes@,
                h == old(self).heads@.len(),
                self.same_but_nodes(old(self)),
                i <= lows@.len(),
                shape_same(m0, self.nodes@),
                forall|x: NodeId| #[trigger] m0.contains_key(x) && m0[x].level != 1 ==> self.nodes@[x] == m0[x],
                forall|t: int| 0 <= t < base.len() && t >= i ==> self.nodes@[#[trigger] base[t]] == m0[base[t]],
                forall|t: int| 0 <= t < i ==> committed(self.vc, self.nodes@, #[trigger] base[t]),
            decreases lows@.len() - i,
        {
            let id = lows[i];
            let ghost m1 = self.nodes@;
            proof {
                reveal(base_ok);
                reveal(ptrs_ok);
                assert(m0.contains_key(base[i as int]));
                assert(node_ptr_ok(m0, id, h));
            }
            self.set_children(id, Vec::new());
            self.commit_node(id);
            proof {
                let m = self.nodes@;
                assert forall|t: int| 0 <= t < i + 1 implies committed(self.vc, m, #[trigger] base[t]) by {
                    if t < i {
                        assert(m0.contains_key(base[t]));
                        assert(base[t] != id);
                        lemma_committed_frame(self.vc, m1, m, base[t]);
                    }
                }
                assert forall|t: int| 0 <= t < base.len() && t >= i + 1 implies m[#[trigger] base[t]] == m0[base[t]] by {
                    assert(base[t] != id);
                }
                assert forall|x: NodeId| #[trigger] m.contains_key(x) implies m[x].key == m0[x].key && m[x].level == m0[x].level
                    && m[x].right == m0[x].right && m[x].down == m0[x].down && m[x].interval.0 == m0[x].interval.0 by {
                    if x == id {
                        assert(node_ptr_ok(m0, id, h));
                    }
                }
                assert(m.dom() =~= m0.dom());
            }
            i = i + 1;
        }
    }

    /// One upper level of a full recomputation: node v owns every
    /// level-below node whose key lies in [v.key, key of v's level
    /// successor). The first child always exists (v's own copy one level
    /// down) and the last node of a level owns through +inf. Returns false,
    /// with the level partly done, if a node would exceed the fan-out bound.
    #[verifier::spinoff_prover]
    fn commit_level(
        &mut self,
        lvl: usize,
        lows: &Vec<NodeId>,
        Ghost(base): Ghost<Seq<NodeId>>,
        Ghost(top): Ghost<Seq<NodeId>>,
        Ghost(nb): Ghost<int>,
    ) -> (r: (bool, Vec<NodeId>, Ghost<Seq<int>>))
        requires
            old(self).build_ok(base, top, nb),
            2 <= lvl <= old(self).heads@.len(),
            lows@ == members(old(self).nodes@, lvl - 1, old(self).next_id as int),
        ensures
            shape_same(old(self).nodes@, final(self).nodes@),
            forall|x: NodeId| #[trigger] old(self).nodes@.contains_key(x) && old(self).nodes@[x].level != lvl
                ==> final(self).nodes@[x] == old(self).nodes@[x],
            final(self).same_but_nodes(old(self)),
            r.1@ == members(old(self).nodes@, lvl as int, old(self).next_id as int),
            r.0 ==> children_ok(final(self).nodes@, r.1@, lows@, r.2@),
            r.0 ==> forall|t: int| 0 <= t < r.1@.len() ==> committed(final(self).vc, final(self).nodes@, #[trigger] r.1@[t]),
            r.0 ==> forall|t: int| 0 <= t < r.1@.len() ==> final(self).nodes@[#[trigger] r.1@[t]].children@.len() <= MAX_FANOUT,
            r.0 == runs_fit(old(self).nodes@, r.1@, lows@),
    {
        let uppers = self.level_members(lvl);
        let ghost m0 = self.nodes@;
        let ghost h = self.heads@.len() as int;
        let ghost n = self.next_id as int;
        proof {
            assert(m0.contains_key(self.heads@[lvl - 1]));
            assert(m0.contains_key(self.heads@[lvl - 2]));
            lemma_members_seq_ok(m0, lvl as int, n, self.heads@[lvl - 1]);
            lemma_members_seq_ok(m0, lvl - 1, n, self.heads@[lvl - 2]);
            lemma_members(m0, lvl as int, n);
            lemma_members(m0, lvl - 1, n);
        }
        let mut j: usize = 0;
        let ghost mut b: Seq<int> = Seq::empty();
        let mut i: usize = 0;
        while i < uppers.len()
            invariant
                old(self).build_ok(base, top, nb),
                m0 == old(self).nodes@,
                h == old(self).heads@.len(),
                n == old(self).next_id,
                2 <= lvl <= h,
                self.same_but_nodes(old(self)),
                uppers@ == members(m0, lvl as int, n),
                lows@ == members(m0, lvl - 1, n),
                level_seq_ok(m0, uppers@, lvl as int),
                level_seq_ok(m0, lows@, lvl - 1),
                forall|x: NodeId| #[trigger] members(m0, lvl as int, n).contains(x) <==> x < n && m0.contains_key(x) && m0[x].level == lvl,
                forall|x: NodeId| #[trigger] members(m0, lvl - 1, n).contains(x) <==> x < n && m0.contains_key(x) && m0[x].level == lvl - 1,
                i <= uppers@.len(),
                j <= lows@.len(),
                b.len() == i,
                shape_same(m0, self.nodes@),
                forall|x: NodeId| #[trigger] m0.contains_key(x) && m0[x].level != lvl ==> self.nodes@[x] == m0[x],
                forall|t: int| i <= t < uppers@.len() ==> self.nodes@[#[trigger] uppers@[t]] == m0[uppers@[t]],
                i < uppers@.len() ==> forall|t: int| 0 <= t < j ==> rank(m0[#[trigger] lows@[t]].key) < rank(m0[uppers@[i as int]].key),
                i < uppers@.len() ==> (j == lows@.len() || rank(m0[uppers@[i as int]].key) <= rank(m0[lows@[j as int]].key)),
                i > 0 ==> b[0] == 0,
                forall|t1: int, t2: int| 0 <= t1 < t2 < i ==> #[trigger] b[t1] < #[trigger] b[t2],
                forall|t: int| 0 <= t < i ==> #[trigger] b[t] < j,
                i > 0 && i == uppers@.len() ==> j == lows@.len(),
                forall|t: int| 0 <= t < i ==> self.nodes@[#[trigger] uppers@[t]].children@ == lows@.subrange(b[t], if t + 1 < i { b[t + 1] } else { j as int }),
                forall|t: int| 0 <= t < i ==> m0[lows@[#[trigger] b[t]]].key == m0[uppers@[t]].key,
                forall|t: int| 0 <= t < i ==> committed(self.vc, self.nodes@, #[trigger] uppers@[t]),
                forall|t: int| 0 <= t < i ==> self.nodes@[#[trigger] uppers@[t]].children@.len() <= MAX_FANOUT,
                i == 0 ==> j == 0,
                forall|t: int| 0 <= t < i ==> #[trigger] run_len(m0, uppers@, lows@, t) <= MAX_FANOUT,
            decreases uppers@.len() - i,
        {
            let u = uppers[i];
            let has_hi = i + 1 < uppers.len();
            let hi = if has_hi { self.key_of(uppers[i + 1]) } else { Key::PosInf };
            proof {
                lemma_first_child_at(m0, lvl as int, n, h, uppers@, lows@, i as int, j as int);
                b = b.push(j as int);
            }
            let start = j;
            let mut kids: Vec<NodeId> = Vec::new();
            proof {
                if j < lows.len() {
                    assert(lows@[j as int] == members(m0, lvl - 1, n)[j as int]);
                    assert(members(m0, lvl - 1, n).contains(lows@[j as int]));
                }
            }
            let mut done = j >= lows.len() || (has_hi && !key_lt(self.key_of(lows[j]), hi));
            while !done
                invariant
                    start <= j <= lows@.len(),
                    kids@ == lows@.subrange(start as int, j as int),
                    lows@ == members(m0, lvl - 1, n),
                    forall|x: NodeId| #[trigger] members(m0, lvl - 1, n).contains(x) <==> x < n && m0.contains_key(x) && m0[x].level == lvl - 1,
                    shape_same(m0, self.nodes@),
                    has_hi ==> forall|t: int| start <= t < j ==> rank(m0[#[trigger] lows@[t]].key) < rank(hi),
                    done == !(j < lows@.len() && (!has_hi || rank(m0[lows@[j as int]].key) < rank(hi))),
                decreases lows@.len() - j,
            {
                assert(j < lows.len());
                kids.push(lows[j]);
                proof {
                    assert(kids@ =~= lows@.subrange(start as int, j + 1));
                }
                j = j + 1;
                proof {
                    if j < lows.len() {
                        assert(lows@[j as int] == members(m0, lvl - 1, n)[j as int]);
                        assert(members(m0, lvl - 1, n).contains(lows@[j as int]));
                    }
                }
                done = j >= lows.len() || (has_hi && !key_lt(self.key_of(lows[j]), hi));
            }
            proof {
                lemma_first_ge_at(m0, lows@, m0[uppers@[i as int]].key, start as int);
                if has_hi {
                    assert forall|u: int| 0 <= u < j implies rank(m0[#[trigger] lows@[u]].key) < rank(m0[uppers@[i + 1]].key) by {
                        if u < start {
                            assert(rank(m0[uppers@[i as int]].key) < rank(m0[uppers@[i + 1]].key));
                        }
                    }
                    lemma_first_ge_at(m0, lows@, m0[uppers@[i + 1]].key, j as int);
                }
                assert(run_len(m0, uppers@, lows@, i as int) == kids@.len());
            }
            if kids.len() > MAX_FANOUT {
                proof {
                    assert(!runs_fit(m0, uppers@, lows@));
                }
                return (false, uppers, Ghost(b));
            }
            let ghost m1 = self.nodes@;
            let ghost ks = kids@;
            proof {
                lemma_kids_ok(m0, lvl as int, n, uppers@, lows@, i as int, start as int, j as int, has_hi, hi, ks);
                assert(m0.contains_key(u));
            }
            self.set_children(u, kids);
            proof {
                assert forall|q: int| 0 <= q < ks.len() implies #[trigger] self.nodes@.contains_key(ks[q])
                    && self.nodes@[ks[q]].level == lvl - 1 by {
                    let x = ks[q];
                    assert(m0.contains_key(x) && m0[x].level == lvl - 1);
                    assert(x != u);
                }
            }
            let ghost m2 = self.nodes@;
            self.commit_node(u);
            proof {
                let m3 = self.nodes@;
                assert(m2[ks[0]] == m1[ks[0]]) by {
                    assert(m0.contains_key(ks[0]));
                }
                assert(forall|x: NodeId| x != u ==> #[trigger] m3[x] == m1[x]);
                lemma_commit_level_step(self.vc, m0, m1, m3, uppers@, lows@, b, i as int, start as int, j as int,
                    lvl as int, n, h, has_hi, hi, ks);
            }
            i = i + 1;
        }
        proof {
            let bb = b.push(lows@.len() as int);
            let m = self.nodes@;
            if uppers@.len() > 0 {
                assert(j == lows@.len());
            }
            assert forall|t1: int, t2: int| 0 <= t1 < t2 <= uppers@.len() implies #[trigger] bb[t1] < #[trigger] bb[t2] by {
                if t2 < uppers@.len() {
                    assert(b[t1] < b[t2]);
                } else {
                    assert(b[t1] < j);
                }
            }
            assert forall|t: int| 0 <= t < uppers@.len() implies #[trigger] m[uppers@[t]].children@ == lows@.subrange(bb[t], bb[t + 1]) by {}
            assert forall|t: int| 0 <= t < uppers@.len() implies m[lows@[#[trigger] bb[t]]].key == m[uppers@[t]].key by {
                assert(b[t] < j);
                assert(members(m0, lvl - 1, n).contains(lows@[b[t]]));
                assert(members(m0, lvl as int, n).contains(uppers@[t]));
            }
        }
        (true, uppers, Ghost(b.push(lows.len() as int)))
    }

    /// Recompute children, intervals, and commitments bottom-up for the
    /// whole structure (used by the initial build): a leaf commits to its
    /// own key, an upper node to its children's compact commitment values.
    /// Each level's nodes are gathered from the node table in id order,
    /// which within a level is key order. Returns false if a node would
    /// exceed the fan-out bound.
    #[verifier::spinoff_prover]
    fn recompute(&mut self, Ghost(base): Ghost<Seq<NodeId>>, Ghost(nb): Ghost<int>) -> (ok: bool)
        requires
            old(self).build_ok(base, seq![old(self).heads@[old(self).heads@.len() - 1]], nb),
            old(self).heads@.len() >= 2,
        ensures
            ok ==> final(self).wf(),
            ok ==> final(self).levels@[0] == base,
            forall|i: int| 0 <= i < base.len() ==> final(self).nodes@[#[trigger] base[i]].key == old(self).nodes@[base[i]].key,
            final(self).promote_threshold == old(self).promote_threshold,
            final(self).rng == old(self).rng,
            final(self).heads@ == old(self).heads@,
            final(self).next_id == old(self).next_id,
            ok == levels_fit(old(self).nodes@, old(self).heads@.len() as int, old(self).next_id as int),
    {
        let ghost top = seq![self.heads@[self.heads@.len() - 1]];
        let ghost m0 = self.nodes@;
        let ghost n = self.next_id as int;
        let h = self.heads.len();
        // L_1: a leaf commits to the element itself.
        let lows = self.level_members(1);
        proof {
            assert forall|x: NodeId| x < n implies (#[trigger] m0.contains_key(x) && m0[x].level == 1 <==> x < nb) by {
                reveal(base_ok);
                if x < nb {
                    assert(base[x as int] == x);
                    assert(m0.contains_key(base[x as int]));
                }
            }
            lemma_members_range(m0, 1, n, nb);
            assert(lows@ =~= base);
        }
        self.commit_base_level(&lows, Ghost(base), Ghost(top), Ghost(nb));
        let mut lows = lows;
        let ghost mut levels: Seq<Seq<NodeId>> = seq![lows@];
        let ghost mut bounds: Seq<Seq<int>> = seq![Seq::<int>::empty()];
        proof {
            let m = self.nodes@;
            lemma_shape_frame(m0, m, self.heads@, n, self.vc, base, top, nb);
            lemma_members_shape(m0, m, 1, n);
            assert(levels_done(self.vc, m, levels, bounds, n)) by {
                reveal(levels_done);
            }
        }
        let mut lvl: usize = 2;
        while lvl <= h
            invariant
                2 <= lvl <= h + 1,
                h == self.heads@.len(),
                h >= 2,
                top == seq![self.heads@[self.heads@.len() - 1]],
                self.build_ok(base, top, nb),
                shape_same(m0, self.nodes@),
                n == self.next_id,
                self.promote_threshold == old(self).promote_threshold,
                self.rng == old(self).rng,
                m0 == old(self).nodes@,
                levels.len() == lvl - 1,
                levels[0] == base,
                lows@ == levels[lvl - 2],
                levels_done(self.vc, self.nodes@, levels, bounds, n),
                forall|l: int| 2 <= l < lvl ==> #[trigger] runs_fit(m0, members(m0, l, n), members(m0, l - 1, n)),
                self.heads@ == old(self).heads@,
                n == old(self).next_id,
            decreases h + 1 - lvl,
        {
            let ghost m1 = self.nodes@;
            proof {
                reveal(levels_done);
                assert(levels[lvl - 2] == members(m1, lvl - 1, n));
            }
            let (ok, uppers, Ghost(b)) = self.commit_level(lvl, &lows, Ghost(base), Ghost(top), Ghost(nb));
            proof {
                lemma_members_shape(m0, m1, lvl as int, n);
                lemma_members_shape(m0, m1, lvl - 1, n);
                lemma_members(m0, lvl as int, n);
                lemma_members(m0, lvl - 1, n);
                let ups = members(m0, lvl as int, n);
                let lws = members(m0, lvl - 1, n);
                assert forall|u: int| 0 <= u < ups.len() implies m1[#[trigger] ups[u]].key == m0[ups[u]].key by {
                    assert(ups.contains(ups[u]));
                }
                assert forall|u: int| 0 <= u < lws.len() implies m1[#[trigger] lws[u]].key == m0[lws[u]].key by {
                    assert(lws.contains(lws[u]));
                }
                lemma_runs_fit_same(m1, m0, ups, lws);
                assert(ok == runs_fit(m0, members(m0, lvl as int, n), members(m0, lvl - 1, n)));
            }
            if !ok {
                proof {
                    assert forall|i: int| 0 <= i < base.len() implies self.nodes@[#[trigger] base[i]].key == m0[base[i]].key by {
                        reveal(base_ok);
                        assert(m1.contains_key(base[i]));
                    }
                }
                proof {
                    assert(!levels_fit(m0, h as int, n));
                }
                return false;
            }
            proof {
                let m2 = self.nodes@;
                lemma_shape_frame(m1, m2, self.heads@, n, self.vc, base, top, nb);
                assert forall|x: NodeId| #[trigger] m1.contains_key(x) && m1[x].level <= levels.len() implies m2[x] == m1[x] by {}
                lemma_levels_done_frame(self.vc, m1, m2, levels, bounds, n);
                lemma_members_shape(m1, m2, lvl as int, n);
                let nl = levels.push(uppers@);
                let nbd = bounds.push(b);
                assert(levels_done(self.vc, m2, nl, nbd, n)) by {
                    reveal(levels_done);
                    assert forall|l: int| 0 <= l < nl.len() implies #[trigger] nl[l] == members(m2, l + 1, n) by {
                        if l < levels.len() {
                            assert(nl[l] == levels[l]);
                        }
                    }
                    assert forall|l: int, t: int| 0 <= l < nl.len() && 0 <= t < nl[l].len() implies committed(self.vc, m2, #[trigger] nl[l][t]) by {
                        if l < levels.len() {
                            assert(nl[l] == levels[l]);
                        }
                    }
                    assert forall|l: int| 1 <= l < nl.len() implies children_ok(m2, #[trigger] nl[l], nl[l - 1], nbd[l]) by {
                        if l < levels.len() {
                            assert(nl[l] == levels[l]);
                            assert(nl[l - 1] == levels[l - 1]);
                        }
                    }
                    assert forall|l: int, t: int| 1 <= l < nl.len() && 0 <= t < nl[l].len() implies m2[#[trigger] nl[l][t]].children@.len() <= MAX_FANOUT by {
                        if l < levels.len() {
                            assert(nl[l] == levels[l]);
                        }
                    }
                }
                assert(shape_same(m0, m2)) by {
                    assert(m2.dom() =~= m0.dom());
                }
                levels = nl;
                bounds = nbd;
            }
            lows = uppers;
            lvl = lvl + 1;
        }
        proof {
            assert(levels_fit(m0, h as int, n));
        }
        self.levels = Ghost(levels);
        self.bounds = Ghost(bounds);
        proof {
            self.lemma_built_wf(base, top, nb);
            assert forall|i: int| 0 <= i < base.len() implies self.nodes@[#[trigger] base[i]].key == m0[base[i]].key by {
                reveal(base_ok);
                assert(m0.contains_key(base[i]));
            }
        }
        true
    }

    /// A finished recomputation leaves the structure well formed.
    #[verifier::spinoff_prover]
    proof fn lemma_built_wf(&self, base: Seq<NodeId>, top: Seq<NodeId>, nb: int)
        requires
            self.build_ok(base, top, nb),
            top == seq![self.heads@[self.heads@.len() - 1]],
            self.heads@.len() >= 2,
            self.levels@.len() == self.heads@.len(),
            self.levels@[0] == base,
            levels_done(self.vc, self.nodes@, self.levels@, self.bounds@, self.next_id as int),
        ensures
            self.wf(),
    {
        let m = self.nodes@;
        let h = self.heads@.len() as int;
        let n = self.next_id as int;
        let lv = self.levels@;
        assert(heads_ok(m, self.heads@)) by {
            reveal(heads_ok);
            reveal(top_ok);
            assert forall|id: NodeId| #[trigger] m.contains_key(id) && m[id].level == h implies id == self.heads@[h - 1] by {
                assert(top.contains(id));
            }
        }
        reveal(levels_done);
        assert(levels_ok(m, self.heads@, lv, self.bounds@)) by {
            reveal(levels_ok);
            assert forall|l: int| 0 <= l < lv.len() implies level_seq_ok(m, #[trigger] lv[l], l + 1) && lv[l][0] == self.heads@[l] by {
                assert(m.contains_key(self.heads@[l]));
                lemma_members_seq_ok(m, l + 1, n, self.heads@[l]);
            }
            reveal(top_ok);
            assert(m.contains_key(self.heads@[h - 1]));
            assert forall|id: NodeId| #[trigger] m.contains_key(id) && m[id].level == h implies id == self.heads@[h - 1] by {
                assert(top.contains(id));
            }
            lemma_members_single(m, h, n, self.heads@[h - 1]);
            assert(lv[h - 1] == members(m, h, n));
        }
        assert(commits_ok(self.vc, m, lv)) by {
            reveal(commits_ok);
        }
        assert(fanout_ok(m, lv)) by {
            reveal(fanout_ok);
        }
    }

    /// The ids of level `lvl`, in id order.
    #[verifier::spinoff_prover]
    fn level_members(&self, lvl: usize) -> (r: Vec<NodeId>)
        ensures
            r@ == members(self.nodes@, lvl as int, self.next_id as int),
    {
        let mut out: Vec<NodeId> = Vec::new();
        let mut x: usize = 0;
        while x < self.next_id
            invariant
                x <= self.next_id,
                out@ == members(self.nodes@, lvl as int, x as int),
            decreases self.next_id - x,
        {
            match self.nodes.get(&x) {
                Some(n) => {
                    if n.level == lvl {
                        out.push(x);
                    }
                },
                None => {},
            }
            x = x + 1;
        }
        out
    }

    #[verifier::spinoff_prover]
    fn key_of(&self, id: NodeId) -> (r: Key)
        requires
            self.nodes@.contains_key(id),
        ensures
            r == self.nodes@[id].key,
    {
        self.nodes.get(&id).unwrap().key
    }

    /// xorshift64 coin flip biased to the configured promotion probability:
    /// the fresh 64-bit state is uniform over the nonzero u64s, so the flip
    /// succeeds with probability ~`promote_threshold / 2^64`.
    #[verifier::spinoff_prover]
    fn coin(&mut self) -> (r: bool)
        ensures
            final(self).rng == xorshift(old(self).rng),
            r == (final(self).rng < old(self).promote_threshold),
            final(self).nodes@ == old(self).nodes@,
            final(self).vc == old(self).vc,
            final(self).heads@ == old(self).heads@,
            final(self).next_id == old(self).next_id,
            final(self).promote_threshold == old(self).promote_threshold,
            final(self).levels == old(self).levels,
            final(self).bounds == old(self).bounds,
    {
        self.rng = self.rng ^ (self.rng << 13u64);
        self.rng = self.rng ^ (self.rng >> 7u64);
        self.rng = self.rng ^ (self.rng << 17u64);
        self.rng < self.promote_threshold
    }

    /// The nodes that live at level `lvl`, left to right. The chain ends at
    /// the first shortcut pointer (which leads to a lower level) or at NULL.
    #[verifier::spinoff_prover]
    fn level_nodes(&self, lvl: usize, Ghost(top): Ghost<Seq<NodeId>>) -> (r: Vec<NodeId>)
        requires
            1 <= lvl <= self.heads@.len(),
            top_ok(self.nodes@, top, lvl as int),
            top[0] == self.heads@[lvl - 1],
            ptrs_ok(self.nodes@, self.heads@.len() as int),
        ensures
            r@ == top,
    {
        reveal(top_ok);
        assert(self.nodes@.contains_key(top[top.len() - 1]));
        assert(node_ptr_ok(self.nodes@, top[top.len() - 1], self.heads@.len() as int)) by {
            reveal(ptrs_ok);
        }
        let mut out: Vec<NodeId> = Vec::new();
        let mut cur: Option<NodeId> = Some(self.heads[lvl - 1]);
        loop
            invariant
                top_ok(self.nodes@, top, lvl as int),
                out@.len() <= top.len(),
                out@ == top.take(out@.len() as int),
                out@.len() < top.len() ==> cur == Some(top[out@.len() as int]),
                out@.len() == top.len() ==> cur == self.nodes@[top[top.len() - 1]].right,
                cur matches Some(c) ==> self.nodes@.contains_key(c),
                self.nodes@[top[top.len() - 1]].right matches Some(c) ==> self.nodes@.contains_key(c),
            ensures
                out@ == top,
            decreases top.len() - out@.len(),
        {
            let id = match cur {
                Some(id) => id,
                None => {
                    proof {
                        reveal(top_ok);
                    }
                    break;
                },
            };
            proof {
                reveal(top_ok);
            }
            let n = self.nodes.get(&id).unwrap();
            if n.level != lvl {
                break;
            }
            proof {
                if out@.len() == top.len() {
                    assert(self.nodes@[id].level < lvl);
                }
            }
            out.push(id);
            cur = n.right;
            proof {
                assert(out@ =~= top.take(out@.len() as int));
                if out@.len() < top.len() {
                    assert(self.nodes@[top[out@.len() - 1]].right == Some(top[out@.len() as int]));
                }
            }
        }
        out
    }

    /// sigma <- S_root: the public commitment to the membership state.
    #[verifier::spinoff_prover]
    pub fn root_commitment(&self) -> (r: V::Commitment)
        requires
            self.wf(),
        ensures
            r == self.spec_root_commitment(),
    {
        let r = self.root();
        self.nodes.get(&r).unwrap().commitment
    }

    // -------------------------------------------------------- Prove / Verify

    /// The index of the last of `ids` whose key is at most `key`.
    #[verifier::spinoff_prover]
    fn last_le(&self, ids: &Vec<NodeId>, key: Key) -> (r: Option<usize>)
        requires
            forall|q: int| 0 <= q < ids@.len() ==> #[trigger] self.nodes@.contains_key(ids@[q]),
        ensures
            match r {
                Some(p) => {
                    &&& p < ids@.len()
                    &&& rank(self.nodes@[ids@[p as int]].key) <= rank(key)
                    &&& forall|q: int| p < q < ids@.len() ==> rank(key) < rank(self.nodes@[#[trigger] ids@[q]].key)
                },
                None => forall|q: int| 0 <= q < ids@.len() ==> rank(key) < rank(self.nodes@[#[trigger] ids@[q]].key),
            },
    {
        let mut p = ids.len();
        while p > 0
            invariant
                p <= ids@.len(),
                forall|q: int| 0 <= q < ids@.len() ==> #[trigger] self.nodes@.contains_key(ids@[q]),
                forall|q: int| p <= q < ids@.len() ==> rank(key) < rank(self.nodes@[#[trigger] ids@[q]].key),
            decreases p,
        {
            if key_le(self.nodes.get(&ids[p - 1]).unwrap().key, key) {
                return Some(p - 1);
            }
            p = p - 1;
        }
        None
    }

    /// The children of the path node above level 1 are in the node map.
    #[verifier::spinoff_prover]
    proof fn lemma_children_in_map(&self, l: int, key: Key)
        requires
            self.shape_ok(),
            1 <= l < self.heads@.len(),
            is_owner(self.nodes@, self.levels@[l], owner(self.nodes@, self.levels@[l], key), key),
        ensures
            forall|q: int| 0 <= q < self.nodes@[self.path_node(l, key)].children@.len()
                ==> #[trigger] self.nodes@.contains_key(self.nodes@[self.path_node(l, key)].children@[q]),
            self.nodes@[self.path_node(l, key)].children@.len() == node_vals(self.nodes@, self.path_node(l, key)).len(),
            self.nodes@[self.path_node(l, key)].level == l + 1,
    {
        reveal(levels_ok);
        let m = self.nodes@;
        let lv = self.levels@;
        let b = self.bounds@[l];
        let i = owner(m, lv[l], key);
        assert(level_seq_ok(m, lv[l], l + 1));
        assert(level_seq_ok(m, lv[l - 1], l));
        assert(children_ok(m, lv[l], lv[l - 1], b));
        let ch = m[lv[l][i]].children@;
        assert(ch == lv[l - 1].subrange(b[i], b[i + 1]));
        assert(b[0] <= b[i]);
        assert forall|q: int| 0 <= q < ch.len() implies #[trigger] m.contains_key(ch[q]) by {
            assert(ch[q] == lv[l - 1][b[i] + q]);
        }
        assert(m.contains_key(lv[l][i]));
        assert(m[lv[l][i]].level == l + 1);
        assert(node_vals(m, lv[l][i]).len() == ch.len());
    }

    /// The first child of the path node has a key at most `key`.
    #[verifier::spinoff_prover]
    proof fn lemma_first_child_le(&self, l: int, key: Key)
        requires
            self.shape_ok(),
            1 <= l < self.heads@.len(),
            is_owner(self.nodes@, self.levels@[l], owner(self.nodes@, self.levels@[l], key), key),
        ensures
            self.nodes@[self.path_node(l, key)].children@.len() > 0,
            rank(self.nodes@[self.nodes@[self.path_node(l, key)].children@[0]].key) <= rank(key),
    {
        reveal(levels_ok);
        let m = self.nodes@;
        let lv = self.levels@;
        let b = self.bounds@[l];
        let i = owner(m, lv[l], key);
        assert(children_ok(m, lv[l], lv[l - 1], b));
        assert(b[i] < b[i + 1]);
        assert(m[lv[l][i]].children@[0] == lv[l - 1][b[i]]);
    }

    /// The last child of the path node with key at most `key` is the path
    /// node one level below, at the path position.
    #[verifier::spinoff_prover]
    proof fn lemma_descend_pos(&self, l: int, key: Key, pos: int)
        requires
            self.shape_ok(),
            1 <= l < self.heads@.len(),
            is_owner(self.nodes@, self.levels@[l], owner(self.nodes@, self.levels@[l], key), key),
            0 <= pos < self.nodes@[self.path_node(l, key)].children@.len(),
            rank(self.nodes@[self.nodes@[self.path_node(l, key)].children@[pos]].key) <= rank(key),
            forall|q: int| pos < q < self.nodes@[self.path_node(l, key)].children@.len()
                ==> rank(key) < rank(self.nodes@[#[trigger] self.nodes@[self.path_node(l, key)].children@[q]].key),
        ensures
            self.nodes@[self.path_node(l, key)].children@[pos] == self.path_node(l - 1, key),
            self.path_pos(l, key) == pos,
            is_owner(self.nodes@, self.levels@[l - 1], owner(self.nodes@, self.levels@[l - 1], key), key),
            self.nodes@.contains_key(self.path_node(l - 1, key)),
            self.nodes@[self.path_node(l - 1, key)].level == l,
    {
        reveal(levels_ok);
        let m = self.nodes@;
        let lv = self.levels@;
        let b = self.bounds@[l];
        let i = owner(m, lv[l], key);
        let lo = lv[l - 1];
        let ch = m[lv[l][i]].children@;
        assert(level_seq_ok(m, lv[l], l + 1));
        assert(level_seq_ok(m, lo, l));
        assert(children_ok(m, lv[l], lo, b));
        assert(b[0] <= b[i]);
        assert(ch == lo.subrange(b[i], b[i + 1]));
        assert(ch[pos] == lo[b[i] + pos]);
        assert(is_owner(m, lo, b[i] + pos, key)) by {
            if b[i] + pos + 1 < lo.len() && b[i] + pos + 1 < b[i + 1] {
                assert(ch[pos + 1] == lo[b[i] + pos + 1]);
            }
            if b[i] + pos + 1 < lo.len() && b[i] + pos + 1 == b[i + 1] {
                assert(i + 1 < lv[l].len()) by {
                    if i + 1 == lv[l].len() {
                        assert(b[i + 1] == lo.len());
                    }
                }
                assert(m[lo[b[i + 1]]].key == m[lv[l][i + 1]].key);
            }
        }
        lemma_owner_unique(m, lo, l, b[i] + pos, key);
        assert(m.contains_key(lo[b[i] + pos]));
    }

    /// The `(node, opened position)` pairs of k's membership chain,
    /// top-down: each upper node opens the child whose key range holds k
    /// (the last child with key <= k), and the leaf opens slot 0 (its own
    /// key). None if k is not a member.
    #[verifier::spinoff_prover]
    fn proof_path(&self, k: u64) -> (r: Option<Vec<(NodeId, usize)>>)
        requires
            self.wf(),
        ensures
            r is Some <==> self@.contains(k),
            r matches Some(p) ==> {
                &&& p@.len() == self.heads@.len()
                &&& forall|j: int| 0 <= j < p@.len() ==> {
                    let l = self.heads@.len() - 1 - j;
                    &&& (#[trigger] p@[j]).0 == self.path_node(l, Key::Val(k))
                    &&& p@[j].1 == self.path_pos(l, Key::Val(k))
                    &&& p@[j].1 < node_vals(self.nodes@, p@[j].0).len()
                }
            },
    {
        let key = Key::Val(k);
        let ghost m = self.nodes@;
        let ghost h = self.heads@.len() as int;
        let ghost levels = self.levels@;
        let ghost bounds = self.bounds@;
        let mut path: Vec<(NodeId, usize)> = Vec::new();
        let mut v = self.root();
        let ghost mut l: int = h - 1;
        proof {
            reveal(levels_ok);
            reveal(heads_ok);
            assert(level_seq_ok(m, levels[h - 1], h));
            assert(is_owner(m, levels[h - 1], 0, key));
            lemma_owner_unique(m, levels[h - 1], h, 0, key);
        }
        while self.nodes.get(&v).unwrap().level > 1
            invariant
                self.wf(),
                levels_ok(m, self.heads@, levels, bounds),
                m == self.nodes@,
                h == self.heads@.len(),
                levels == self.levels@,
                bounds == self.bounds@,
                key == Key::Val(k),
                0 <= l < h,
                path@.len() == h - 1 - l,
                v == self.path_node(l, key),
                m.contains_key(v),
                is_owner(m, levels[l], owner(m, levels[l], key), key),
                m[v].level == l + 1,
                forall|j: int| 0 <= j < path@.len() ==> {
                    let lj = h - 1 - j;
                    &&& (#[trigger] path@[j]).0 == self.path_node(lj, key)
                    &&& path@[j].1 == self.path_pos(lj, key)
                    &&& path@[j].1 < node_vals(m, path@[j].0).len()
                },
            decreases l,
        {
            let n = self.nodes.get(&v).unwrap();
            proof {
                self.lemma_children_in_map(l, key);
            }
            let pos = match self.last_le(&n.children, key) {
                Some(p) => p,
                None => {
                    proof {
                        self.lemma_first_child_le(l, key);
                    }
                    return None;
                },
            };
            proof {
                self.lemma_descend_pos(l, key, pos as int);
            }
            path.push((v, pos));
            v = n.children[pos];
            proof {
                l = l - 1;
            }
        }
        let ghost i = owner(m, levels[0], key);
        proof {
            reveal(base_ok);
            reveal(levels_ok);
            assert(l == 0) by {
                assert(level_seq_ok(m, levels[l], l + 1));
            }
        }
        if !key_eq(self.nodes.get(&v).unwrap().key, key) {
            proof {
                let base = levels[0];
                assert(level_seq_ok(m, base, 1));
                if self@.contains(k) {
                    let t = choose|t: int| 0 <= t < base.len() && #[trigger] m[base[t]].key == Key::Val(k);
                    if t < i {
                        assert(rank(m[base[t]].key) < rank(m[base[i]].key));
                    } else if t > i {
                        assert(rank(m[base[i + 1]].key) <= rank(m[base[t]].key));
                    }
                }
            }
            return None;
        }
        proof {
            assert(m[levels[0][i]].key == Key::Val(k));
        }
        path.push((v, 0));
        Some(path)
    }

    /// Prove(S, k) -> pi = {(com_1, pi_com_1), ..., (com_n, pi_com_n)}: one
    /// (commitment, opening) pair per level, top-down along the search path.
    /// com_1 is the root (sigma) and com_n is the leaf. Each pair's opening
    /// pi_com_i reveals the next thing inside com_i: f(com_{i+1}) for an
    /// upper node, or the key k itself at the leaf.
    #[verifier::spinoff_prover]
    pub fn prove(&self, k: u64) -> (r: Option<Vec<Step<V>>>)
        requires
            self.wf(),
        ensures
            r is Some <==> self@.contains(k),
            r matches Some(pi) ==> self.is_proof(k, pi@),
    {
        let path = match self.proof_path(k) {
            Some(p) => p,
            None => return None,
        };
        let ghost h = self.heads@.len() as int;
        let mut steps: Vec<Step<V>> = Vec::new();
        let mut j: usize = 0;
        while j < path.len()
            invariant
                self.wf(),
                h == self.heads@.len(),
                path@.len() == h,
                j <= path@.len(),
                steps@.len() == j,
                forall|t: int| 0 <= t < path@.len() ==> {
                    let l = h - 1 - t;
                    &&& (#[trigger] path@[t]).0 == self.path_node(l, Key::Val(k))
                    &&& path@[t].1 == self.path_pos(l, Key::Val(k))
                    &&& path@[t].1 < node_vals(self.nodes@, path@[t].0).len()
                },
                forall|t: int| 0 <= t < j ==> {
                    let l = h - 1 - t;
                    let id = self.path_node(l, Key::Val(k));
                    &&& (#[trigger] steps@[t]).commitment == self.nodes@[id].commitment
                    &&& steps@[t].position == self.path_pos(l, Key::Val(k))
                    &&& self.nodes@[id].opener matches Some(op) && self.vc.is_opening(&op, steps@[t].position as int, steps@[t].witness)
                },
            decreases path@.len() - j,
        {
            let (id, pos) = path[j];
            let ghost l = h - 1 - j;
            proof {
                reveal(levels_ok);
                reveal(commits_ok);
                reveal(heads_ok);
                let lv = self.levels@;
                let o = owner(self.nodes@, lv[l], Key::Val(k));
                assert(level_seq_ok(self.nodes@, lv[l], l + 1));
                assert(self.nodes@.contains_key(self.heads@[l]));
                assert(lv[l][0] == self.heads@[l]);
                lemma_owner_exists(self.nodes@, lv[l], l + 1, Key::Val(k));
                assert(committed(self.vc, self.nodes@, lv[l][o]));
            }
            let n = self.nodes.get(&id).unwrap();
            let op = n.opener.as_ref().unwrap();
            proof {
                self.vc.lemma_opener_width(op, node_vals(self.nodes@, id));
            }
            let w = self.vc.open(op, pos);
            steps.push(Step { commitment: n.commitment, position: pos, witness: w });
            j = j + 1;
        }
        Some(steps)
    }

    /// Verify(sigma, k, pi): check each `(com_i, pi_com_i)` pair on its own:
    /// pi_com_i must open com_i at its position to the next thing down the
    /// path, f(com_{i+1}) for every upper pair and the key k for the leaf
    /// pair. The first commitment must be the trusted root (sigma), which
    /// anchors the chain.
    #[verifier::spinoff_prover]
    pub fn verify(vc: &V, root: &V::Commitment, k: u64, pi: &[Step<V>]) -> (r: bool)
        requires
            vc.wf(),
        ensures
            r == spec_verify(*vc, *root, k, pi@),
    {
        if pi.len() == 0 {
            return false;
        }
        // com_1 must be the trusted sigma.
        if !bytes_eq(&V::commitment_bytes(&pi[0].commitment), &V::commitment_bytes(root)) {
            return false;
        }
        let n = pi.len();
        let mut i: usize = 0;
        while i < n
            invariant
                vc.wf(),
                n == pi@.len(),
                i <= n,
                forall|j: int| 0 <= j < i ==> vc.spec_check(
                    (#[trigger] pi@[j]).commitment,
                    pi@[j].position as int,
                    step_value(pi@, j, k),
                    pi@[j].witness,
                ),
            decreases n - i,
        {
            // What pi_com_i must open com_i to: the next commitment down the
            // path, or the key k itself at the leaf (the last pair).
            let value = if i + 1 < n {
                V::to_field(&pi[i + 1].commitment)
            } else {
                Key::Val(k).field()
            };
            if !vc.check(&pi[i].commitment, pi[i].position, value, &pi[i].witness) {
                return false;
            }
            i = i + 1;
        }
        true
    }

    /// Facts about the path node at level index `l`: it is the owner of
    /// `key` there, it is committed, and above level 1 its path position
    /// selects the path node one level below among its children.
    #[verifier::spinoff_prover]
    proof fn lemma_path_step(&self, l: int, key: Key)
        requires
            self.wf(),
            0 <= l < self.heads@.len(),
        ensures
            is_owner(self.nodes@, self.levels@[l], owner(self.nodes@, self.levels@[l], key), key),
            self.nodes@.contains_key(self.path_node(l, key)),
            committed(self.vc, self.nodes@, self.path_node(l, key)),
            self.nodes@[self.path_node(l, key)].level == l + 1,
            l >= 1 ==> {
                let id = self.path_node(l, key);
                let pos = self.path_pos(l, key);
                &&& 0 <= pos < self.nodes@[id].children@.len()
                &&& self.nodes@[id].children@[pos] == self.path_node(l - 1, key)
                &&& node_vals(self.nodes@, id)[pos] == V::spec_to_field(self.nodes@[self.path_node(l - 1, key)].commitment)
            },
    {
        let m = self.nodes@;
        let lv = self.levels@;
        assert(level_seq_ok(m, lv[l], l + 1) && lv[l][0] == self.heads@[l]) by {
            reveal(levels_ok);
        }
        assert(m.contains_key(self.heads@[l]) && m[self.heads@[l]].key == Key::NegInf) by {
            reveal(heads_ok);
            assert(heads_ok(m, self.heads@));
            assert(m.contains_key(self.heads@[l]));
        }
        lemma_owner_exists(m, lv[l], l + 1, key);
        let i = owner(m, lv[l], key);
        assert(m.contains_key(lv[l][i]));
        assert(committed(self.vc, m, lv[l][i])) by {
            reveal(commits_ok);
        }
        if l >= 1 {
            let b = self.bounds@[l];
            assert(level_seq_ok(m, lv[l - 1], l) && children_ok(m, lv[l], lv[l - 1], b)) by {
                reveal(levels_ok);
            }
            lemma_owner_descends(m, lv[l], lv[l - 1], b, l, i, key);
            let o = owner(m, lv[l - 1], key);
            let ch = m[lv[l][i]].children@;
            assert(ch == lv[l - 1].subrange(b[i], b[i + 1]));
            assert(ch[o - b[i]] == lv[l - 1][o]);
        }
    }

    /// Completeness of membership proofs: the proof of a member that `prove`
    /// hands out is accepted by `verify` against the root commitment, under
    /// the structure's public parameters.
    #[verifier::spinoff_prover]
    pub proof fn lemma_member_proof_verifies(&self, k: u64, pi: Seq<Step<V>>)
        requires
            self.wf(),
            self@.contains(k),
            self.is_proof(k, pi),
        ensures
            spec_verify(self.params(), self.spec_root_commitment(), k, pi),
    {
        reveal(heads_ok);
        let m = self.nodes@;
        let h = self.heads@.len() as int;
        let key = Key::Val(k);
        assert forall|j: int| 0 <= j < pi.len() implies self.vc.spec_check(
            (#[trigger] pi[j]).commitment,
            pi[j].position as int,
            step_value(pi, j, k),
            pi[j].witness,
        ) by {
            let l = h - 1 - j;
            let id = self.path_node(l, key);
            self.lemma_path_step(l, key);
            let op = m[id].opener->0;
            let vals = node_vals(m, id);
            if l >= 1 {
                assert(vals.len() == m[id].children@.len());
                assert(pi[j + 1].commitment == m[self.path_node(l - 1, key)].commitment);
            } else {
                self.lemma_leaf_is_key(k);
            }
            self.vc.lemma_open_check(&op, vals, pi[j].position as int, pi[j].witness);
        }
        assert(pi[0].commitment == self.spec_root_commitment()) by {
            reveal(levels_ok);
            let lv = self.levels@;
            assert(lv[h - 1] == seq![self.heads@[h - 1]]);
            assert(self.path_node(h - 1, key) == lv[h - 1][owner(m, lv[h - 1], key)]);
            self.lemma_path_step(h - 1, key);
        }
    }

    /// The path reaches the base node holding a member key.
    #[verifier::spinoff_prover]
    proof fn lemma_leaf_is_key(&self, k: u64)
        requires
            self.wf(),
            self@.contains(k),
        ensures
            self.nodes@[self.path_node(0, Key::Val(k))].key == Key::Val(k),
            self.nodes@[self.path_node(0, Key::Val(k))].level == 1,
            node_vals(self.nodes@, self.path_node(0, Key::Val(k))) == seq![key_field::<V::DigestType>(Key::Val(k))],
            self.path_pos(0, Key::Val(k)) == 0,
    {
        reveal(levels_ok);
        reveal(base_ok);
        reveal(heads_ok);
        let m = self.nodes@;
        let base = self.levels@[0];
        let key = Key::Val(k);
        self.lemma_path_step(0, key);
        let i = owner(m, base, key);
        assert(level_seq_ok(m, base, 1));
        let t = choose|t: int| 0 <= t < base.len() && #[trigger] m[base[t]].key == Key::Val(k);
        if t < i {
            assert(rank(m[base[t]].key) < rank(m[base[i]].key));
        } else if t > i {
            assert(rank(m[base[i + 1]].key) <= rank(m[base[t]].key));
        }
    }

    // --------------------------------------------------------------- Search

    /// Search(S, k): go right while k is not in v.interval, otherwise go
    /// down; at L_1 scan right and compare keys.
    #[verifier::spinoff_prover]
    pub fn search(&self, k: u64) -> (r: bool)
        requires
            self.wf(),
        ensures
            r == self@.contains(k),
    {
        let key = Key::Val(k);
        let ghost m = self.nodes@;
        let ghost base = self.levels@[0];
        let mut v = self.root();
        let mut lvl = self.nodes.get(&v).unwrap().level;
        proof {
            reveal(heads_ok);
        }
        while lvl > 1
            invariant
                ptrs_ok(m, self.heads@.len() as int),
                m == self.nodes@,
                m.contains_key(v),
                lvl == m[v].level,
                rank(m[v].key) <= rank(key),
            decreases m[v].level, 0x1_0000_0000_0000_0002 - rank(m[v].key),
        {
            proof {
                reveal(ptrs_ok);
                assert(node_ptr_ok(m, v, self.heads@.len() as int));
            }
            let n = self.nodes.get(&v).unwrap();
            if in_interval(key, n.interval) {
                v = n.down.unwrap();
            } else {
                let go_right = match n.right {
                    Some(r) => key_le(self.nodes.get(&r).unwrap().interval.0, key),
                    None => false,
                };
                if go_right {
                    let r = n.right.unwrap();
                    proof {
                        assert(node_ptr_ok(m, r, self.heads@.len() as int));
                    }
                    v = r;
                } else {
                    // k is past this subtree but before the next one (or the
                    // level chain is cut here): drop down and let the lower
                    // level's intact chain carry the scan right.
                    v = n.down.unwrap();
                }
            }
            lvl = self.nodes.get(&v).unwrap().level;
        }
        let ghost mut i: int = choose|i: int| 0 <= i < base.len() && base[i] == v;
        proof {
            reveal(base_ok);
            reveal(ptrs_ok);
            assert(node_ptr_ok(m, v, self.heads@.len() as int));
            assert(base.contains(v));
        }
        loop
            invariant
                base_ok(m, base),
                self@ == base_keys(m, base),
                m == self.nodes@,
                base == self.levels@[0],
                key == Key::Val(k),
                0 <= i < base.len(),
                v == base[i],
                forall|j: int| 0 <= j < i ==> rank(m[#[trigger] base[j]].key) < rank(key),
                rank(m[base[0]].key) <= rank(key),
            decreases base.len() - i,
        {
            proof {
                reveal(base_ok);
            }
            let n = self.nodes.get(&v).unwrap();
            if key_eq(n.key, key) {
                proof {
                    assert(m[base[i]].key == Key::Val(k));
                }
                return true;
            }
            if key_lt(key, n.key) {
                proof {
                    if self@.contains(k) {
                        let j = choose|j: int| 0 <= j < base.len() && #[trigger] m[base[j]].key == Key::Val(k);
                        if j < i {
                        } else if j > i {
                            assert(rank(m[base[i]].key) < rank(m[base[j]].key));
                        }
                    }
                }
                return false;
            }
            match n.right {
                Some(r) => {
                    proof {
                        assert(i < base.len() - 1);
                        assert(m[base[i]].right == Some(base[i + 1]));
                        i = i + 1;
                    }
                    v = r;
                },
                None => {
                    proof {
                        assert(i < base.len() - 1);
                        assert(m[base[i]].right == Some(base[i + 1]));
                    }
                    return false;
                },
            }
        }
    }
}


// ---------------------------------------------------------------- updates

/// The position of `key`'s owner at every level.
spec fn owner_idx<V: VectorCommitment>(m: Map<NodeId, Node<V>>, lv: Seq<Seq<NodeId>>, key: Key) -> Seq<int> {
    Seq::new(lv.len(), |j: int| owner(m, lv[j], key))
}

/// The levels after an insert whose tower is `created`: each tower node
/// sits right after the owner of its key.
spec fn ins_levels(lv: Seq<Seq<NodeId>>, o: Seq<int>, created: Seq<NodeId>) -> Seq<Seq<NodeId>> {
    Seq::new(lv.len(), |j: int| if j < created.len() { lv[j].insert(o[j] + 1, created[j]) } else { lv[j] })
}

/// Run boundaries after a new node is placed behind position `o` of the
/// upper level and takes the runs from position `c` of the (grown) lower
/// level on.
spec fn split_bounds(b: Seq<int>, o: int, c: int) -> Seq<int> {
    Seq::new((b.len() + 1) as nat, |i: int| if i <= o { b[i] } else if i == o + 1 { c } else { b[i - 1] + 1 })
}

/// Run boundaries after the run of position `o` grows (or shrinks) by `d`.
spec fn shift_bounds(b: Seq<int>, o: int, d: int) -> Seq<int> {
    Seq::new(b.len(), |i: int| if i <= o { b[i] } else { b[i] + d })
}

/// The run boundaries after an insert whose tower has `t` nodes.
spec fn ins_bounds(bs: Seq<Seq<int>>, o: Seq<int>, t: int) -> Seq<Seq<int>> {
    Seq::new(bs.len(), |j: int| if 1 <= j < t {
        split_bounds(bs[j], o[j], o[j - 1] + 1)
    } else if j == t {
        shift_bounds(bs[j], o[j], 1)
    } else {
        bs[j]
    })
}

/// A tower level of an insert: the owner keeps its children up to the new
/// node one level below, and the new node takes it and the rest.
#[verifier::spinoff_prover]
proof fn lemma_split_children<V: VectorCommitment>(
    m: Map<NodeId, Node<V>>,
    m2: Map<NodeId, Node<V>>,
    up: Seq<NodeId>,
    low: Seq<NodeId>,
    b: Seq<int>,
    ou: int,
    ol: int,
    cu: NodeId,
    cl: NodeId,
)
    requires
        children_ok(m, up, low, b),
        0 <= ou < up.len(),
        b[ou] <= ol < b[ou + 1],
        forall|i: int| 0 <= i < up.len() && i != ou ==> #[trigger] m2[up[i]].children@ == m[up[i]].children@,
        forall|i: int| 0 <= i < up.len() ==> #[trigger] m2[up[i]].key == m[up[i]].key,
        forall|q: int| 0 <= q < low.len() ==> #[trigger] m2[low[q]].key == m[low[q]].key,
        m2[up[ou]].children@ == low.subrange(b[ou], ol + 1),
        m2[cu].children@ == seq![cl] + low.subrange(ol + 1, b[ou + 1]),
        m2[cu].key == m2[cl].key,
    ensures
        children_ok(m2, up.insert(ou + 1, cu), low.insert(ol + 1, cl), split_bounds(b, ou, ol + 1)),
{
    let up2 = up.insert(ou + 1, cu);
    let low2 = low.insert(ol + 1, cl);
    let b2 = split_bounds(b, ou, ol + 1);
    up.insert_ensures(ou + 1, cu);
    low.insert_ensures(ol + 1, cl);
    assert(b[0] <= b[ou]);
    assert(b2[up2.len() as int] == low2.len()) by {
        assert(b[up.len() as int] == low.len());
    }
    assert forall|i: int, j: int| 0 <= i < j <= up2.len() implies #[trigger] b2[i] < #[trigger] b2[j] by {
        if j <= ou {
            assert(b[i] < b[j]);
        } else if j == ou + 1 {
            assert(b[i] <= b[ou]);
        } else if i <= ou {
            assert(b[i] <= b[ou]);
            assert(b[ou + 1] <= b[j - 1]);
        } else if i == ou + 1 {
            assert(b[ou + 1] <= b[j - 1]);
        } else {
            assert(b[i - 1] < b[j - 1]);
        }
    }
    assert forall|i: int| 0 <= i < up2.len() implies #[trigger] m2[up2[i]].children@ == low2.subrange(b2[i], b2[i + 1]) by {
        if i < ou {
            assert(b[i + 1] <= b[ou]);
            assert(b[0] <= b[i]);
            assert(m2[up[i]].children@ == low.subrange(b[i], b[i + 1]));
            assert(low2.subrange(b2[i], b2[i + 1]) =~= low.subrange(b[i], b[i + 1]));
        } else if i == ou {
            assert(low2.subrange(b2[i], b2[i + 1]) =~= low.subrange(b[ou], ol + 1));
        } else if i == ou + 1 {
            assert(low2.subrange(b2[i], b2[i + 1]) =~= seq![cl] + low.subrange(ol + 1, b[ou + 1]));
        } else {
            assert(up2[i] == up[i - 1]);
            assert(b[ou + 1] <= b[i - 1]);
            assert(m2[up[i - 1]].children@ == low.subrange(b[i - 1], b[i]));
            assert(low2.subrange(b2[i], b2[i + 1]) =~= low.subrange(b[i - 1], b[i]));
        }
    }
    assert forall|i: int| 0 <= i < up2.len() implies m2[low2[#[trigger] b2[i]]].key == m2[up2[i]].key by {
        if i <= ou {
            assert(b[0] <= b[i]);
            assert(b[i] < b[up.len() as int]);
            assert(m[low[b[i]]].key == m[up[i]].key);
        } else if i > ou + 1 {
            assert(b[ou + 1] <= b[i - 1]);
            assert(b[i - 1] < b[up.len() as int]);
            assert(m[low[b[i - 1]]].key == m[up[i - 1]].key);
        }
    }
}

/// The level above an insert's tower: the owner gains the tower top as a
/// child, behind the owner's own children with smaller keys.
#[verifier::spinoff_prover]
proof fn lemma_shift_children<V: VectorCommitment>(
    m: Map<NodeId, Node<V>>,
    m2: Map<NodeId, Node<V>>,
    up: Seq<NodeId>,
    low: Seq<NodeId>,
    b: Seq<int>,
    ou: int,
    ol: int,
    cl: NodeId,
)
    requires
        children_ok(m, up, low, b),
        0 <= ou < up.len(),
        b[ou] <= ol < b[ou + 1],
        forall|i: int| 0 <= i < up.len() && i != ou ==> #[trigger] m2[up[i]].children@ == m[up[i]].children@,
        forall|i: int| 0 <= i < up.len() ==> #[trigger] m2[up[i]].key == m[up[i]].key,
        forall|q: int| 0 <= q < low.len() ==> #[trigger] m2[low[q]].key == m[low[q]].key,
        m2[up[ou]].children@ == m[up[ou]].children@.insert(ol + 1 - b[ou], cl),
    ensures
        children_ok(m2, up, low.insert(ol + 1, cl), shift_bounds(b, ou, 1)),
{
    let low2 = low.insert(ol + 1, cl);
    let b2 = shift_bounds(b, ou, 1);
    low.insert_ensures(ol + 1, cl);
    assert(b[0] <= b[ou]);
    assert(b2[up.len() as int] == low2.len()) by {
        assert(b[up.len() as int] == low.len());
    }
    assert forall|i: int, j: int| 0 <= i < j <= up.len() implies #[trigger] b2[i] < #[trigger] b2[j] by {
        assert(b[i] < b[j]);
    }
    assert forall|i: int| 0 <= i < up.len() implies #[trigger] m2[up[i]].children@ == low2.subrange(b2[i], b2[i + 1]) by {
        assert(b[0] <= b[i]);
        assert(m[up[i]].children@ == low.subrange(b[i], b[i + 1]));
        if i < ou {
            assert(b[i + 1] <= b[ou]);
            assert(low2.subrange(b2[i], b2[i + 1]) =~= low.subrange(b[i], b[i + 1]));
        } else if i == ou {
            assert(low2.subrange(b2[i], b2[i + 1]) =~= low.subrange(b[ou], b[ou + 1]).insert(ol + 1 - b[ou], cl));
        } else {
            assert(b[ou + 1] <= b[i]);
            assert(low2.subrange(b2[i], b2[i + 1]) =~= low.subrange(b[i], b[i + 1]));
        }
    }
    assert forall|i: int| 0 <= i < up.len() implies m2[low2[#[trigger] b2[i]]].key == m2[up[i]].key by {
        assert(b[0] <= b[i]);
        assert(b[i] < b[up.len() as int]);
        assert(m[low[b[i]]].key == m[up[i]].key);
        if i > ou {
            assert(b[ou + 1] <= b[i]);
        }
    }
}

/// A level whose nodes keep their children and keys keeps its runs.
#[verifier::spinoff_prover]
proof fn lemma_same_children<V: VectorCommitment>(
    m: Map<NodeId, Node<V>>,
    m2: Map<NodeId, Node<V>>,
    up: Seq<NodeId>,
    low: Seq<NodeId>,
    b: Seq<int>,
)
    requires
        children_ok(m, up, low, b),
        forall|i: int| 0 <= i < up.len() ==> #[trigger] m2[up[i]].children@ == m[up[i]].children@,
        forall|i: int| 0 <= i < up.len() ==> #[trigger] m2[up[i]].key == m[up[i]].key,
        forall|q: int| 0 <= q < low.len() ==> #[trigger] m2[low[q]].key == m[low[q]].key,
    ensures
        children_ok(m2, up, low, b),
{
    assert forall|i: int| 0 <= i < up.len() implies m2[low[#[trigger] b[i]]].key == m2[up[i]].key by {
        assert(b[0] <= b[i]);
        assert(b[i] < b[up.len() as int]);
    }
}

/// Placing a node right after the owner of its (absent) key keeps a level
/// in key order.
#[verifier::spinoff_prover]
proof fn lemma_level_insert<V: VectorCommitment>(
    m: Map<NodeId, Node<V>>,
    m2: Map<NodeId, Node<V>>,
    s: Seq<NodeId>,
    lvl: int,
    o: int,
    c: NodeId,
    key: Key,
)
    requires
        level_seq_ok(m, s, lvl),
        is_owner(m, s, o, key),
        rank(m[s[o]].key) < rank(key),
        forall|q: int| 0 <= q < s.len() ==> #[trigger] m2.contains_key(s[q]) && m2[s[q]].key == m[s[q]].key && m2[s[q]].level == m[s[q]].level,
        m2.contains_key(c),
        m2[c].level == lvl,
        m2[c].key == key,
    ensures
        level_seq_ok(m2, s.insert(o + 1, c), lvl),
        s.insert(o + 1, c)[0] == s[0],
{
    let s2 = s.insert(o + 1, c);
    s.insert_ensures(o + 1, c);
    assert forall|i: int| 0 <= i < s2.len() implies #[trigger] m2.contains_key(s2[i]) && m2[s2[i]].level == lvl
        && (i <= o ==> s2[i] == s[i] && m2[s2[i]].key == m[s[i]].key)
        && (i > o + 1 ==> s2[i] == s[i - 1] && m2[s2[i]].key == m[s[i - 1]].key)
        && (i == o + 1 ==> s2[i] == c) by {
        if i > o + 1 {
            assert(s2[i] == s[i - 1]);
            assert(m2.contains_key(s[i - 1]));
            assert(m.contains_key(s[i - 1]));
        } else if i <= o {
            assert(s2[i] == s[i]);
            assert(m2.contains_key(s[i]));
            assert(m.contains_key(s[i]));
        }
    }
    assert forall|i: int, j: int| 0 <= i < j < s2.len() implies rank(m2[#[trigger] s2[i]].key) < rank(m2[#[trigger] s2[j]].key) by {
        assert(m2.contains_key(s2[i]));
        assert(m2.contains_key(s2[j]));
        if j <= o {
            assert(rank(m[s[i]].key) < rank(m[s[j]].key));
        } else if j == o + 1 {
            if i < o {
                assert(rank(m[s[i]].key) < rank(m[s[o]].key));
            }
        } else if i <= o {
            assert(s2[j] == s[j - 1]);
            assert(rank(key) < rank(m[s[o + 1]].key));
            if i < o {
                assert(rank(m[s[i]].key) < rank(m[s[o]].key));
            }
            if j - 1 > o + 1 {
                assert(rank(m[s[o + 1]].key) < rank(m[s[j - 1]].key));
            }
        } else if i == o + 1 {
            assert(s2[j] == s[j - 1]);
            assert(rank(key) < rank(m[s[o + 1]].key));
            if j - 1 > o + 1 {
                assert(rank(m[s[o + 1]].key) < rank(m[s[j - 1]].key));
            }
        } else {
            assert(s2[i] == s[i - 1]);
            assert(s2[j] == s[j - 1]);
            assert(rank(m[s[i - 1]].key) < rank(m[s[j - 1]].key));
        }
    }
}


/// First position of a level that an insert touches (the base owner keeps
/// its commitment, so at the base only the new leaf counts).
spec fn lo_dirty(o: Seq<int>, i: int) -> int {
    if i == 0 { o[0] + 1 } else { o[i] }
}

/// Last position of a level that an insert touches: the owner and the new
/// node on tower levels, the owner alone above.
spec fn hi_dirty(o: Seq<int>, t: int, i: int) -> int {
    if i < t { o[i] + 1 } else { o[i] }
}

/// A child run that starts and ends outside the touched positions of its
/// level holds no touched position of the level below.
#[verifier::spinoff_prover]
proof fn lemma_kids_clean(b: Seq<int>, n: int, q: int, lo: int, hi: int, lo1: int, hi1: int, p: int)
    requires
        0 <= lo <= hi < n,
        b.len() == n + 1,
        forall|i: int, j: int| 0 <= i < j <= n ==> #[trigger] b[i] < #[trigger] b[j],
        0 <= q < n,
        q < lo || q > hi,
        b[lo] <= lo1,
        b[hi + 1] > hi1,
        b[q] <= p < b[q + 1],
    ensures
        p < lo1 || p > hi1,
{
    if q < lo {
        if q + 1 < lo {
            assert(b[q + 1] < b[lo]);
        }
    } else {
        if hi + 1 < q {
            assert(b[hi + 1] < b[q]);
        }
    }
}

/// What an insert's commit pass reads of the tree before it starts: the
/// levels and their runs, the owner positions `o` of the new key, and the
/// new tower `c`, one node per level from the base up, in no run yet.
#[verifier::opaque]
spec fn ins_shape<V: VectorCommitment>(
    m1: Map<NodeId, Node<V>>,
    lv: Seq<Seq<NodeId>>,
    bs: Seq<Seq<int>>,
    o: Seq<int>,
    c: Seq<NodeId>,
    key: Key,
) -> bool {
    &&& bs.len() == lv.len()
    &&& o.len() == lv.len()
    &&& 1 <= c.len() < lv.len()
    &&& forall|j: int| 0 <= j < lv.len() ==> level_seq_ok(m1, #[trigger] lv[j], j + 1)
    &&& forall|j: int| 1 <= j < lv.len() ==> children_ok(m1, #[trigger] lv[j], lv[j - 1], bs[j])
    &&& forall|j: int| 0 <= j < lv.len() ==> #[trigger] is_owner(m1, lv[j], o[j], key)
    &&& forall|j: int| 0 <= j < lv.len() ==> rank(m1[lv[j][#[trigger] o[j]]].key) < rank(key)
    &&& forall|j: int| #![trigger bs[j]] 1 <= j < lv.len() ==> bs[j][o[j]] <= o[j - 1] < bs[j][o[j] + 1]
    &&& forall|j: int| 0 <= j < c.len() ==> m1.contains_key(#[trigger] c[j]) && m1[c[j]].level == j + 1
        && m1[c[j]].key == key && m1[c[j]].children@.len() == 0
    &&& forall|l: int, i: int| 0 <= l < lv.len() && 0 <= i < lv[l].len() ==> m1[#[trigger] lv[l][i]].key != key
    &&& forall|j: int| 0 <= j < lv.len() ==> level_seq_ok(m1, #[trigger] ins_levels(lv, o, c)[j], j + 1)
}

/// Level index `i` is finished in an insert's commit pass: its nodes are
/// committed, its runs are final, its untouched positions are as before,
/// and no node has too many children.
#[verifier::opaque]
spec fn ins_level<V: VectorCommitment>(
    vc: V,
    m1: Map<NodeId, Node<V>>,
    m: Map<NodeId, Node<V>>,
    l2: Seq<Seq<NodeId>>,
    b2: Seq<Seq<int>>,
    o: Seq<int>,
    t: int,
    i: int,
) -> bool {
    &&& forall|q: int| 0 <= q < l2[i].len() ==> committed(vc, m, #[trigger] l2[i][q])
    &&& i >= 1 ==> children_ok(m, l2[i], l2[i - 1], b2[i])
    &&& forall|q: int| 0 <= q < l2[i].len() && (q < lo_dirty(o, i) || q > hi_dirty(o, t, i))
        ==> m[#[trigger] l2[i][q]] == m1[l2[i][q]]
    &&& i >= 1 ==> forall|q: int| 0 <= q < l2[i].len() ==> m[#[trigger] l2[i][q]].children@.len() <= MAX_FANOUT
}

/// The commit pass of an insert has finished the levels below index `j`,
/// and nothing above has changed.
#[verifier::opaque]
spec fn ins_done<V: VectorCommitment>(
    vc: V,
    m1: Map<NodeId, Node<V>>,
    m: Map<NodeId, Node<V>>,
    l2: Seq<Seq<NodeId>>,
    b2: Seq<Seq<int>>,
    o: Seq<int>,
    t: int,
    j: int,
) -> bool {
    &&& shape_same(m1, m)
    &&& forall|x: NodeId| #[trigger] m.contains_key(x) && m1[x].level > j ==> m[x] == m1[x]
    &&& forall|i: int| 0 <= i < j ==> #[trigger] ins_level(vc, m1, m, l2, b2, o, t, i)
}

/// What a partly done commit pass of an insert says of one node: its shape
/// is as before, and above the done levels it is unchanged.
#[verifier::spinoff_prover]
proof fn lemma_ins_done_node<V: VectorCommitment>(
    vc: V,
    m1: Map<NodeId, Node<V>>,
    m: Map<NodeId, Node<V>>,
    l2: Seq<Seq<NodeId>>,
    b2: Seq<Seq<int>>,
    o: Seq<int>,
    t: int,
    j: int,
    x: NodeId,
)
    requires
        ins_done(vc, m1, m, l2, b2, o, t, j),
    ensures
        shape_same(m1, m),
        m.contains_key(x) && m1[x].level > j ==> m[x] == m1[x],
{
    reveal(ins_done);
}

/// A partly done commit pass has finished each level below the done mark.
#[verifier::spinoff_prover]
proof fn lemma_ins_done_level<V: VectorCommitment>(
    vc: V,
    m1: Map<NodeId, Node<V>>,
    m: Map<NodeId, Node<V>>,
    l2: Seq<Seq<NodeId>>,
    b2: Seq<Seq<int>>,
    o: Seq<int>,
    t: int,
    j: int,
    i: int,
)
    requires
        ins_done(vc, m1, m, l2, b2, o, t, j),
        0 <= i < j,
    ensures
        ins_level(vc, m1, m, l2, b2, o, t, i),
{
    reveal(ins_done);
}

/// After an insert, the new key owns its range exactly on the levels of
/// its tower.
#[verifier::spinoff_prover]
proof fn lemma_ins_tower_level<V: VectorCommitment>(
    m1: Map<NodeId, Node<V>>,
    mf: Map<NodeId, Node<V>>,
    heads: Seq<NodeId>,
    lv: Seq<Seq<NodeId>>,
    bs: Seq<Seq<int>>,
    o: Seq<int>,
    c: Seq<NodeId>,
    key: Key,
    l: int,
)
    requires
        ins_shape(m1, lv, bs, o, c, key),
        levels_ok(m1, heads, lv, bs),
        heads_ok(m1, heads),
        mf.dom() == m1.dom(),
        forall|x: NodeId| #[trigger] mf.contains_key(x) ==> mf[x].key == m1[x].key,
        levels_ok(mf, heads, ins_levels(lv, o, c), ins_bounds(bs, o, c.len() as int)),
        0 <= l < lv.len(),
    ensures
        mf[ins_levels(lv, o, c)[l][owner(mf, ins_levels(lv, o, c)[l], key)]].key == key <==> l < c.len(),
{
    let t = c.len() as int;
    let l2 = ins_levels(lv, o, c);
    let s = l2[l];
    assert(t < lv.len() && o.len() == lv.len() && bs.len() == lv.len()
        && level_seq_ok(m1, lv[l], l + 1) && is_owner(m1, lv[l], o[l], key)
        && (forall|i: int| 0 <= i < lv[l].len() ==> m1[#[trigger] lv[l][i]].key != key)
        && (l < t ==> m1.contains_key(c[l]) && m1[c[l]].key == key)) by {
        reveal(ins_shape);
    }
    assert(level_seq_ok(mf, s, l + 1) && s[0] == heads[l] && lv[l][0] == heads[l] && heads.len() == lv.len()) by {
        reveal(levels_ok);
    }
    assert(m1.contains_key(heads[l]) && m1[heads[l]].key == Key::NegInf) by {
        reveal(heads_ok);
        assert(m1.contains_key(heads[l]));
    }
    if l < t {
        lv[l].insert_ensures(o[l] + 1, c[l]);
    }
    assert(mf.contains_key(heads[l]) && mf[heads[l]].key == Key::NegInf);
    lemma_owner_exists(mf, s, l + 1, key);
    let w = owner(mf, s, key);
    if l >= t {
        assert(s == lv[l]);
        assert(m1[lv[l][w]].key != key);
        assert(mf.contains_key(s[w]));
    } else {
        let i = o[l] + 1;
        assert(s[i] == c[l]);
        assert(mf.contains_key(c[l]));
        assert(is_owner(mf, s, i, key)) by {
            if i + 1 < s.len() {
                assert(s[i + 1] == lv[l][o[l] + 1]);
                assert(m1.contains_key(lv[l][o[l] + 1]));
                assert(mf.contains_key(lv[l][o[l] + 1]));
            }
        }
        lemma_owner_unique(mf, s, l + 1, i, key);
    }
}

/// Splitting a run in two: the two halves together are one longer than
/// the old run.
#[verifier::spinoff_prover]
proof fn lemma_split_run_len<V: VectorCommitment>(
    m1: Map<NodeId, Node<V>>,
    mf: Map<NodeId, Node<V>>,
    up: Seq<NodeId>,
    low: Seq<NodeId>,
    b: Seq<int>,
    up2: Seq<NodeId>,
    low2: Seq<NodeId>,
    oo: int,
    cc: int,
)
    requires
        children_ok(m1, up, low, b),
        children_ok(mf, up2, low2, split_bounds(b, oo, cc)),
        up2.len() == up.len() + 1,
        up2[oo] == up[oo],
        0 <= oo < up.len(),
    ensures
        mf[up2[oo]].children@.len() + mf[up2[oo + 1]].children@.len() == m1[up[oo]].children@.len() + 1,
{
    let bb = split_bounds(b, oo, cc);
    let n = up.len() as int;
    assert(b[oo] < b[oo + 1]);
    assert(bb[oo] < bb[oo + 1] && bb[oo + 1] < bb[oo + 2]);
    assert(0 <= b[oo]) by {
        if oo > 0 {
            assert(b[0] < b[oo]);
        }
    }
    assert(b[oo + 1] <= low.len()) by {
        if oo + 1 < n {
            assert(b[oo + 1] < b[n]);
        }
    }
    assert(bb[oo + 2] <= low2.len()) by {
        if oo + 2 < n + 1 {
            assert(bb[oo + 2] < bb[n + 1]);
        }
    }
    assert(mf[up2[oo]].children@ == low2.subrange(bb[oo], bb[oo + 1]));
    assert(mf[up2[oo + 1]].children@ == low2.subrange(bb[oo + 1], bb[oo + 2]));
    assert(m1[up[oo]].children@ == low.subrange(b[oo], b[oo + 1]));
}

/// After an insert, on every level where the new key owns its range the
/// node to its left and the key's node together hold the old owner's
/// children and one more: a later delete of the key has room.
#[verifier::spinoff_prover]
proof fn lemma_ins_then_delete_fits<V: VectorCommitment>(
    m1: Map<NodeId, Node<V>>,
    mf: Map<NodeId, Node<V>>,
    heads: Seq<NodeId>,
    lv: Seq<Seq<NodeId>>,
    bs: Seq<Seq<int>>,
    o: Seq<int>,
    c: Seq<NodeId>,
    key: Key,
    l: int,
)
    requires
        ins_shape(m1, lv, bs, o, c, key),
        levels_ok(m1, heads, lv, bs),
        heads_ok(m1, heads),
        fanout_ok(m1, lv),
        mf.dom() == m1.dom(),
        forall|x: NodeId| #[trigger] mf.contains_key(x) ==> mf[x].key == m1[x].key,
        levels_ok(mf, heads, ins_levels(lv, o, c), ins_bounds(bs, o, c.len() as int)),
        1 <= l < lv.len(),
        mf[ins_levels(lv, o, c)[l][owner(mf, ins_levels(lv, o, c)[l], key)]].key == key,
    ensures
        ({
            let s = ins_levels(lv, o, c)[l];
            let w = owner(mf, s, key);
            1 <= w && mf[s[w - 1]].children@.len() + mf[s[w]].children@.len() <= MAX_FANOUT + 1
        }),
{
    let t = c.len() as int;
    let l2 = ins_levels(lv, o, c);
    let s = l2[l];
    assert(t < lv.len() && o.len() == lv.len() && bs.len() == lv.len()
        && level_seq_ok(m1, lv[l], l + 1) && is_owner(m1, lv[l], o[l], key)
        && (forall|i: int| 0 <= i < lv[l].len() ==> m1[#[trigger] lv[l][i]].key != key)
        && (l < t ==> m1.contains_key(c[l]) && m1[c[l]].key == key)) by {
        reveal(ins_shape);
    }
    assert(level_seq_ok(mf, s, l + 1) && s[0] == heads[l] && lv[l][0] == heads[l] && heads.len() == lv.len()) by {
        reveal(levels_ok);
    }
    assert(m1.contains_key(heads[l]) && m1[heads[l]].key == Key::NegInf) by {
        reveal(heads_ok);
        assert(m1.contains_key(heads[l]));
    }
    if l < t {
        lv[l].insert_ensures(o[l] + 1, c[l]);
    }
    assert(mf.contains_key(heads[l]) && mf[heads[l]].key == Key::NegInf);
    lemma_owner_exists(mf, s, l + 1, key);
    let w = owner(mf, s, key);
    if l >= t {
        assert(s == lv[l]);
        assert(m1[lv[l][w]].key != key);
        assert(mf.contains_key(s[w]));
        assert(false);
    }
    let i = o[l] + 1;
    assert(s[i] == c[l]);
    assert(mf.contains_key(c[l]));
    assert(is_owner(mf, s, i, key)) by {
        if i + 1 < s.len() {
            assert(s[i + 1] == lv[l][o[l] + 1]);
            assert(m1.contains_key(lv[l][o[l] + 1]));
            assert(mf.contains_key(lv[l][o[l] + 1]));
        }
    }
    lemma_owner_unique(mf, s, l + 1, i, key);
    assert(children_ok(m1, lv[l], lv[l - 1], bs[l]) && children_ok(mf, s, l2[l - 1], ins_bounds(bs, o, t)[l])) by {
        reveal(levels_ok);
    }
    assert(ins_bounds(bs, o, t)[l] == split_bounds(bs[l], o[l], o[l - 1] + 1));
    assert(s[o[l]] == lv[l][o[l]]);
    lemma_split_run_len(m1, mf, lv[l], lv[l - 1], bs[l], s, l2[l - 1], o[l], o[l - 1] + 1);
    assert(m1[lv[l][o[l]]].children@.len() <= MAX_FANOUT) by {
        reveal(fanout_ok);
    }
}

/// A finished commit pass of an insert left every node of the old levels
/// but the key's owners as it was.
#[verifier::spinoff_prover]
proof fn lemma_ins_frame<V: VectorCommitment>(
    vc: V,
    m1: Map<NodeId, Node<V>>,
    m: Map<NodeId, Node<V>>,
    lv: Seq<Seq<NodeId>>,
    bs: Seq<Seq<int>>,
    o: Seq<int>,
    c: Seq<NodeId>,
    key: Key,
    l: int,
    q: int,
)
    requires
        ins_shape(m1, lv, bs, o, c, key),
        ins_done(vc, m1, m, ins_levels(lv, o, c), ins_bounds(bs, o, c.len() as int), o, c.len() as int, lv.len() as int),
        0 <= l < lv.len(),
        0 <= q < lv[l].len(),
        q != o[l],
    ensures
        m.contains_key(lv[l][q]),
        m[lv[l][q]] == m1[lv[l][q]],
{
    reveal(ins_shape);
    reveal(ins_done);
    let t = c.len() as int;
    let l2 = ins_levels(lv, o, c);
    assert(ins_level(vc, m1, m, l2, ins_bounds(bs, o, t), o, t, l));
    reveal(ins_level);
    assert(level_seq_ok(m1, lv[l], l + 1));
    assert(m1.contains_key(lv[l][q]));
    assert(is_owner(m1, lv[l], o[l], key));
    if l < t {
        lv[l].insert_ensures(o[l] + 1, c[l]);
        if q < o[l] {
            assert(l2[l][q] == lv[l][q]);
        } else {
            assert(l2[l][q + 1] == lv[l][q]);
        }
    } else {
        assert(l2[l] == lv[l]);
    }
}

/// The static facts of an insert at one level.
#[verifier::spinoff_prover]
proof fn lemma_ins_shape_at<V: VectorCommitment>(
    m1: Map<NodeId, Node<V>>,
    lv: Seq<Seq<NodeId>>,
    bs: Seq<Seq<int>>,
    o: Seq<int>,
    c: Seq<NodeId>,
    key: Key,
    j: int,
)
    requires
        ins_shape(m1, lv, bs, o, c, key),
        0 <= j < lv.len(),
    ensures
        bs.len() == lv.len(),
        o.len() == lv.len(),
        1 <= c.len() < lv.len(),
        level_seq_ok(m1, lv[j], j + 1),
        level_seq_ok(m1, ins_levels(lv, o, c)[j], j + 1),
        is_owner(m1, lv[j], o[j], key),
        rank(m1[lv[j][o[j]]].key) < rank(key),
        forall|i: int| 0 <= i < lv[j].len() ==> m1[#[trigger] lv[j][i]].key != key,
        j >= 1 ==> level_seq_ok(m1, lv[j - 1], j) && level_seq_ok(m1, ins_levels(lv, o, c)[j - 1], j)
            && children_ok(m1, lv[j], lv[j - 1], bs[j])
            && bs[j][o[j]] <= o[j - 1] < bs[j][o[j] + 1],
        j >= 1 ==> forall|i: int| 0 <= i < lv[j - 1].len() ==> m1[#[trigger] lv[j - 1][i]].key != key,
        j < c.len() ==> m1.contains_key(c[j]) && m1[c[j]].level == j + 1 && m1[c[j]].key == key && m1[c[j]].children@.len() == 0,
        j >= 1 && j - 1 < c.len() ==> m1.contains_key(c[j - 1]) && m1[c[j - 1]].level == j && m1[c[j - 1]].key == key,
{
    reveal(ins_shape);
    assert(level_seq_ok(m1, lv[j], j + 1));
    assert(is_owner(m1, lv[j], o[j], key));
    if j >= 1 {
        assert(level_seq_ok(m1, lv[j - 1], j));
        assert(children_ok(m1, lv[j], lv[j - 1], bs[j]));
        assert(bs[j][o[j]] <= o[j - 1] < bs[j][o[j] + 1]);
    }
}

/// A finished level stays finished while only nodes two or more levels up
/// change.
#[verifier::spinoff_prover]
proof fn lemma_ins_level_frame<V: VectorCommitment>(
    vc: V,
    m1: Map<NodeId, Node<V>>,
    m: Map<NodeId, Node<V>>,
    m2: Map<NodeId, Node<V>>,
    l2: Seq<Seq<NodeId>>,
    b2: Seq<Seq<int>>,
    o: Seq<int>,
    t: int,
    i: int,
)
    requires
        ins_level(vc, m1, m, l2, b2, o, t, i),
        0 <= i < l2.len(),
        level_seq_ok(m1, l2[i], i + 1),
        i >= 1 ==> level_seq_ok(m1, l2[i - 1], i),
        shape_same(m1, m),
        m2.dom() == m.dom(),
        forall|x: NodeId| #[trigger] m.contains_key(x) && m1[x].level <= i + 1 ==> m2[x] == m[x],
    ensures
        ins_level(vc, m1, m2, l2, b2, o, t, i),
{
    reveal(ins_level);
    assert forall|q: int| 0 <= q < l2[i].len() implies m2[#[trigger] l2[i][q]] == m[l2[i][q]] by {
        assert(m1.contains_key(l2[i][q]));
    }
    if i >= 1 {
        assert forall|q: int| 0 <= q < l2[i - 1].len() implies m2[#[trigger] l2[i - 1][q]] == m[l2[i - 1][q]] by {
            assert(m1.contains_key(l2[i - 1][q]));
        }
        lemma_same_children(m, m2, l2[i], l2[i - 1], b2[i]);
    }
    assert forall|q: int| 0 <= q < l2[i].len() implies committed(vc, m2, #[trigger] l2[i][q]) by {
        let x = l2[i][q];
        assert(m1.contains_key(x));
        if i >= 1 {
            let bb = b2[i];
            assert(bb[0] <= bb[q]);
            if q + 1 < l2[i].len() {
                assert(bb[q + 1] < bb[l2[i].len() as int]);
            }
            assert forall|r: int| 0 <= r < m[x].children@.len() implies m2[#[trigger] m[x].children@[r]] == m[m[x].children@[r]] by {
                assert(m[x].children@[r] == l2[i - 1][bb[q] + r]);
                assert(m1.contains_key(l2[i - 1][bb[q] + r]));
            }
        }
        lemma_committed_frame(vc, m, m2, x);
    }
}

/// The new leaf is committed: the base level is done.
#[verifier::spinoff_prover]
proof fn lemma_ins_base<V: VectorCommitment>(
    vc: V,
    m1: Map<NodeId, Node<V>>,
    m: Map<NodeId, Node<V>>,
    lv: Seq<Seq<NodeId>>,
    bs: Seq<Seq<int>>,
    o: Seq<int>,
    c: Seq<NodeId>,
    key: Key,
    h: int,
)
    requires
        ins_shape(m1, lv, bs, o, c, key),
        c.len() < lv.len(),
        commits_ok(vc, m1, lv),
        ptrs_ok(m1, h),
        m.dom() == m1.dom(),
        forall|x: NodeId| x != c[0] ==> #[trigger] m[x] == m1[x],
        m[c[0]].same_but_commitment(m1[c[0]]),
        m[c[0]].interval == (key, key),
        committed(vc, m, c[0]),
    ensures
        ins_done(vc, m1, m, ins_levels(lv, o, c), ins_bounds(bs, o, c.len() as int), o, c.len() as int, 1),
{
    reveal(ins_done);
    let l2 = ins_levels(lv, o, c);
    let b2 = ins_bounds(bs, o, c.len() as int);
    let t = c.len() as int;
    lemma_ins_shape_at(m1, lv, bs, o, c, key, 0);
    assert(m1.contains_key(c[0]));
    assert(shape_same(m1, m)) by {
        reveal(ptrs_ok);
        assert(node_ptr_ok(m1, c[0], h));
    }
    lv[0].insert_ensures(o[0] + 1, c[0]);
    assert(ins_level(vc, m1, m, l2, b2, o, t, 0)) by {
        reveal(ins_level);
        assert forall|q: int| 0 <= q < l2[0].len() implies committed(vc, m, #[trigger] l2[0][q]) && (q != o[0] + 1 ==> m[l2[0][q]] == m1[l2[0][q]]) by {
            if q != o[0] + 1 {
                let x = l2[0][q];
                let q0 = if q <= o[0] { q } else { q - 1 };
                assert(x == lv[0][q0]);
                assert(committed(vc, m1, lv[0][q0])) by {
                    reveal(commits_ok);
                }
                assert(m1[lv[0][q0]].key != key);
                assert(x != c[0]);
                assert(m1.contains_key(lv[0][q0]));
                lemma_committed_frame(vc, m1, m, x);
            }
        }
    }
}

/// A node whose run holds no changed node of the level below, and that did
/// not change itself, stays committed.
#[verifier::spinoff_prover]
proof fn lemma_clean_committed<V: VectorCommitment>(
    vc: V,
    m1: Map<NodeId, Node<V>>,
    m2: Map<NodeId, Node<V>>,
    up: Seq<NodeId>,
    low: Seq<NodeId>,
    bb: Seq<int>,
    q: int,
    lo: int,
    hi: int,
    lo1: int,
    hi1: int,
)
    requires
        children_ok(m2, up, low, bb),
        0 <= lo <= hi < up.len(),
        0 <= q < up.len(),
        q < lo || q > hi,
        bb[lo] <= lo1,
        bb[hi + 1] > hi1,
        m1.contains_key(up[q]),
        m2.contains_key(up[q]),
        m2[up[q]] == m1[up[q]],
        m1[up[q]].level != 1,
        committed(vc, m1, up[q]),
        forall|p: int| 0 <= p < low.len() && (p < lo1 || p > hi1) ==> #[trigger] m2[low[p]] == m1[low[p]],
    ensures
        committed(vc, m2, up[q]),
{
    let x = up[q];
    let ch = m1[x].children@;
    assert(ch == low.subrange(bb[q], bb[q + 1]));
    assert(bb[0] <= bb[q]);
    if q + 1 < up.len() {
        assert(bb[q + 1] < bb[up.len() as int]);
    }
    assert forall|r: int| 0 <= r < ch.len() implies m2[#[trigger] ch[r]] == m1[ch[r]] by {
        assert(ch[r] == low[bb[q] + r]);
        lemma_kids_clean(bb, up.len() as int, q, lo, hi, lo1, hi1, bb[q] + r);
    }
    lemma_committed_frame(vc, m1, m2, x);
}

/// Once level index `j` is finished and only its nodes changed, the levels
/// below index `j + 1` are finished.
#[verifier::spinoff_prover]
proof fn lemma_ins_advance<V: VectorCommitment>(
    vc: V,
    m1: Map<NodeId, Node<V>>,
    m: Map<NodeId, Node<V>>,
    m2: Map<NodeId, Node<V>>,
    lv: Seq<Seq<NodeId>>,
    bs: Seq<Seq<int>>,
    o: Seq<int>,
    c: Seq<NodeId>,
    key: Key,
    j: int,
)
    requires
        ins_shape(m1, lv, bs, o, c, key),
        0 <= j < lv.len(),
        ins_done(vc, m1, m, ins_levels(lv, o, c), ins_bounds(bs, o, c.len() as int), o, c.len() as int, j),
        ins_level(vc, m1, m2, ins_levels(lv, o, c), ins_bounds(bs, o, c.len() as int), o, c.len() as int, j),
        m2.dom() == m.dom(),
        forall|x: NodeId| #[trigger] m.contains_key(x) && m1[x].level != j + 1 ==> m2[x] == m[x],
        shape_same(m1, m2),
    ensures
        ins_done(vc, m1, m2, ins_levels(lv, o, c), ins_bounds(bs, o, c.len() as int), o, c.len() as int, j + 1),
{
    reveal(ins_done);
    let t = c.len() as int;
    let l2 = ins_levels(lv, o, c);
    let b2 = ins_bounds(bs, o, t);
    assert forall|i: int| 0 <= i < j + 1 implies #[trigger] ins_level(vc, m1, m2, l2, b2, o, t, i) by {
        if i < j {
            assert(ins_level(vc, m1, m, l2, b2, o, t, i));
            lemma_ins_shape_at(m1, lv, bs, o, c, key, i);
            assert forall|x: NodeId| #[trigger] m.contains_key(x) && m1[x].level <= i + 1 implies m2[x] == m[x] by {
                assert(m1.contains_key(x));
            }
            lemma_ins_level_frame(vc, m1, m, m2, l2, b2, o, t, i);
        }
    }
    assert forall|x: NodeId| #[trigger] m2.contains_key(x) && m1[x].level > j + 1 implies m2[x] == m1[x] by {
        assert(m.contains_key(x));
    }
}

/// One tower level of an insert's commit pass: the old owner keeps its
/// children below the key, the new node takes the tower node below and the
/// rest, and both are committed.
#[verifier::spinoff_prover]
proof fn lemma_ins_split_level<V: VectorCommitment>(
    vc: V,
    m1: Map<NodeId, Node<V>>,
    m: Map<NodeId, Node<V>>,
    m2: Map<NodeId, Node<V>>,
    lv: Seq<Seq<NodeId>>,
    bs: Seq<Seq<int>>,
    o: Seq<int>,
    c: Seq<NodeId>,
    key: Key,
    j: int,
)
    requires
        ins_shape(m1, lv, bs, o, c, key),
        c.len() < lv.len(),
        commits_ok(vc, m1, lv),
        fanout_ok(m1, lv),
        1 <= j < c.len(),
        ins_done(vc, m1, m, ins_levels(lv, o, c), ins_bounds(bs, o, c.len() as int), o, c.len() as int, j),
        m2.dom() == m.dom(),
        forall|x: NodeId| x != lv[j][o[j]] && x != c[j] ==> #[trigger] m2[x] == m[x],
        m2[lv[j][o[j]]].children@ == lv[j - 1].subrange(bs[j][o[j]], o[j - 1] + 1),
        m2[c[j]].children@ == seq![c[j - 1]] + lv[j - 1].subrange(o[j - 1] + 1, bs[j][o[j] + 1]),
        shape_same(m, m2),
        shape_same(m1, m2),
        committed(vc, m2, lv[j][o[j]]),
        committed(vc, m2, c[j]),
    ensures
        ins_level(vc, m1, m2, ins_levels(lv, o, c), ins_bounds(bs, o, c.len() as int), o, c.len() as int, j),
{
    let t = c.len() as int;
    let l2 = ins_levels(lv, o, c);
    let b2 = ins_bounds(bs, o, t);
    lemma_ins_shape_at(m1, lv, bs, o, c, key, j);
    let up = lv[j];
    let low = lv[j - 1];
    let b = bs[j];
    let ou = o[j];
    let ol = o[j - 1];
    let a = up[ou];
    let cj = c[j];
    let cl = c[j - 1];
    assert(l2[j] == up.insert(ou + 1, cj));
    assert(l2[j - 1] == low.insert(ol + 1, cl));
    assert(b2[j] == split_bounds(b, ou, ol + 1));
    assert(m1.contains_key(a));
    lemma_ins_done_node(vc, m1, m, l2, b2, o, t, j, a);
    up.insert_ensures(ou + 1, cj);
    low.insert_ensures(ol + 1, cl);
    assert forall|i: int| 0 <= i < up.len() && i != ou implies #[trigger] m2[up[i]] == m1[up[i]] by {
        assert(m1.contains_key(up[i]));
        assert(m1[up[i]].key != key);
        if i < ou {
            assert(rank(m1[up[i]].key) < rank(m1[a].key));
        } else {
            assert(rank(m1[a].key) < rank(m1[up[i]].key));
        }
        assert(m.contains_key(up[i]));
        lemma_ins_done_node(vc, m1, m, l2, b2, o, t, j, up[i]);
    }
    assert forall|i: int| 0 <= i < up.len() implies #[trigger] m2[up[i]].key == m1[up[i]].key by {
        assert(m1.contains_key(up[i]));
    }
    assert forall|q: int| 0 <= q < low.len() implies #[trigger] m2[low[q]].key == m1[low[q]].key by {
        assert(m1.contains_key(low[q]));
    }
    lemma_split_children(m1, m2, up, low, b, ou, ol, cj, cl);
    let bb = b2[j];
    let lo1 = lo_dirty(o, j - 1);
    let hi1 = hi_dirty(o, t, j - 1);
    assert(bb[ou] <= lo1);
    assert(bb[ou + 2] > hi1);
    lemma_ins_done_level(vc, m1, m, l2, b2, o, t, j, j - 1);
    assert forall|p: int| 0 <= p < l2[j - 1].len() && (p < lo1 || p > hi1) implies #[trigger] m2[l2[j - 1][p]] == m1[l2[j - 1][p]] by {
        reveal(ins_level);
        assert(m[l2[j - 1][p]] == m1[l2[j - 1][p]]);
        assert(m1.contains_key(l2[j - 1][p]));
    }
    assert(m1[a].children@.len() <= MAX_FANOUT) by {
        reveal(fanout_ok);
    }
    assert(m1[a].children@ == low.subrange(b[ou], b[ou + 1]));
    reveal(ins_level);
    assert forall|q: int| 0 <= q < l2[j].len() implies committed(vc, m2, #[trigger] l2[j][q])
        && ((q < lo_dirty(o, j) || q > hi_dirty(o, t, j)) ==> m2[l2[j][q]] == m1[l2[j][q]])
        && m2[l2[j][q]].children@.len() <= MAX_FANOUT by {
        if q != ou && q != ou + 1 {
            let q0 = if q < ou { q } else { q - 1 };
            assert(l2[j][q] == up[q0]);
            assert(committed(vc, m1, up[q0])) by {
                reveal(commits_ok);
            }
            assert(m1[up[q0]].children@.len() <= MAX_FANOUT) by {
                reveal(fanout_ok);
            }
            assert(m1.contains_key(up[q0]));
            lemma_clean_committed(vc, m1, m2, l2[j], l2[j - 1], bb, q, ou, ou + 1, lo1, hi1);
        }
    }
}

/// The runs of the level above an insert's tower, once the owner of the
/// key's range has gained the tower top as a child.
#[verifier::spinoff_prover]
proof fn lemma_ins_top_children<V: VectorCommitment>(
    m1: Map<NodeId, Node<V>>,
    m: Map<NodeId, Node<V>>,
    m2: Map<NodeId, Node<V>>,
    lv: Seq<Seq<NodeId>>,
    bs: Seq<Seq<int>>,
    o: Seq<int>,
    c: Seq<NodeId>,
    key: Key,
    t: int,
)
    requires
        ins_shape(m1, lv, bs, o, c, key),
        t == c.len(),
        t < lv.len(),
        forall|x: NodeId| #[trigger] m.contains_key(x) && m1[x].level > t ==> m[x] == m1[x],
        shape_same(m1, m),
        shape_same(m1, m2),
        forall|x: NodeId| x != lv[t][o[t]] ==> #[trigger] m2[x] == m[x],
        m2[lv[t][o[t]]].children@ == m1[lv[t][o[t]]].children@.insert(o[t - 1] + 1 - bs[t][o[t]], c[t - 1]),
    ensures
        children_ok(m2, lv[t], lv[t - 1].insert(o[t - 1] + 1, c[t - 1]), shift_bounds(bs[t], o[t], 1)),
        forall|i: int| 0 <= i < lv[t].len() && i != o[t] ==> #[trigger] m2[lv[t][i]] == m1[lv[t][i]],
        m2[lv[t][o[t]]].children@.len() == m1[lv[t][o[t]]].children@.len() + 1,
{
    lemma_ins_shape_at(m1, lv, bs, o, c, key, t);
    let up = lv[t];
    let low = lv[t - 1];
    let b = bs[t];
    let ou = o[t];
    let ol = o[t - 1];
    let a = up[ou];
    assert(m1.contains_key(a));
    assert forall|i: int| 0 <= i < up.len() && i != ou implies #[trigger] m2[up[i]] == m1[up[i]] by {
        assert(m1.contains_key(up[i]));
        if i < ou {
            assert(rank(m1[up[i]].key) < rank(m1[a].key));
        } else {
            assert(rank(m1[a].key) < rank(m1[up[i]].key));
        }
        assert(m.contains_key(up[i]));
    }
    assert forall|i: int| 0 <= i < up.len() implies #[trigger] m2[up[i]].key == m1[up[i]].key by {
        assert(m1.contains_key(up[i]));
    }
    assert forall|q: int| 0 <= q < low.len() implies #[trigger] m2[low[q]].key == m1[low[q]].key by {
        assert(m1.contains_key(low[q]));
    }
    lemma_shift_children(m1, m2, up, low, b, ou, ol, c[t - 1]);
}

/// The level above an insert's tower: the owner of the key's range gains
/// the tower top as a child and is committed.
#[verifier::spinoff_prover]
proof fn lemma_ins_top_level<V: VectorCommitment>(
    vc: V,
    m1: Map<NodeId, Node<V>>,
    m: Map<NodeId, Node<V>>,
    m2: Map<NodeId, Node<V>>,
    lv: Seq<Seq<NodeId>>,
    bs: Seq<Seq<int>>,
    o: Seq<int>,
    c: Seq<NodeId>,
    key: Key,
    t: int,
)
    requires
        ins_shape(m1, lv, bs, o, c, key),
        t == c.len(),
        t < lv.len(),
        commits_ok(vc, m1, lv),
        fanout_ok(m1, lv),
        ins_done(vc, m1, m, ins_levels(lv, o, c), ins_bounds(bs, o, t), o, t, t),
        children_ok(m2, lv[t], lv[t - 1].insert(o[t - 1] + 1, c[t - 1]), shift_bounds(bs[t], o[t], 1)),
        forall|i: int| 0 <= i < lv[t].len() && i != o[t] ==> #[trigger] m2[lv[t][i]] == m1[lv[t][i]],
        m2[lv[t][o[t]]].children@.len() <= MAX_FANOUT,
        forall|x: NodeId| x != lv[t][o[t]] ==> #[trigger] m2[x] == m[x],
        shape_same(m1, m2),
        committed(vc, m2, lv[t][o[t]]),
    ensures
        ins_level(vc, m1, m2, ins_levels(lv, o, c), ins_bounds(bs, o, t), o, t, t),
{
    reveal(ins_done);
    let l2 = ins_levels(lv, o, c);
    let b2 = ins_bounds(bs, o, t);
    lemma_ins_shape_at(m1, lv, bs, o, c, key, t);
    let up = lv[t];
    let ou = o[t];
    let ol = o[t - 1];
    assert(l2[t] == up);
    assert(l2[t - 1] == lv[t - 1].insert(ol + 1, c[t - 1]));
    assert(b2[t] == shift_bounds(bs[t], ou, 1));
    let bb = b2[t];
    let lo1 = lo_dirty(o, t - 1);
    let hi1 = hi_dirty(o, t, t - 1);
    assert(bb[ou] <= lo1);
    assert(bb[ou + 1] > hi1);
    assert(ins_level(vc, m1, m, l2, b2, o, t, t - 1));
    assert forall|p: int| 0 <= p < l2[t - 1].len() && (p < lo1 || p > hi1) implies #[trigger] m2[l2[t - 1][p]] == m1[l2[t - 1][p]] by {
        reveal(ins_level);
        assert(m[l2[t - 1][p]] == m1[l2[t - 1][p]]);
        assert(m1.contains_key(l2[t - 1][p]));
    }
    reveal(ins_level);
    assert forall|q: int| 0 <= q < l2[t].len() implies committed(vc, m2, #[trigger] l2[t][q])
        && ((q < lo_dirty(o, t) || q > hi_dirty(o, t, t)) ==> m2[l2[t][q]] == m1[l2[t][q]])
        && m2[l2[t][q]].children@.len() <= MAX_FANOUT by {
        if q != ou {
            assert(committed(vc, m1, up[q])) by {
                reveal(commits_ok);
            }
            assert(m1[up[q]].children@.len() <= MAX_FANOUT) by {
                reveal(fanout_ok);
            }
            assert(m1.contains_key(up[q]));
            lemma_clean_committed(vc, m1, m2, l2[t], l2[t - 1], bb, q, ou, ou, lo1, hi1);
        }
    }
}

/// A level above an insert's tower: the owner of the key's range keeps its
/// children and is committed again.
#[verifier::spinoff_prover]
proof fn lemma_ins_up_level<V: VectorCommitment>(
    vc: V,
    m1: Map<NodeId, Node<V>>,
    m: Map<NodeId, Node<V>>,
    m2: Map<NodeId, Node<V>>,
    lv: Seq<Seq<NodeId>>,
    bs: Seq<Seq<int>>,
    o: Seq<int>,
    c: Seq<NodeId>,
    key: Key,
    j: int,
)
    requires
        ins_shape(m1, lv, bs, o, c, key),
        c.len() < j < lv.len(),
        commits_ok(vc, m1, lv),
        fanout_ok(m1, lv),
        ins_done(vc, m1, m, ins_levels(lv, o, c), ins_bounds(bs, o, c.len() as int), o, c.len() as int, j),
        m2.dom() == m.dom(),
        forall|x: NodeId| x != lv[j][o[j]] ==> #[trigger] m2[x] == m[x],
        m2[lv[j][o[j]]].children@ == m1[lv[j][o[j]]].children@,
        shape_same(m1, m2),
        committed(vc, m2, lv[j][o[j]]),
    ensures
        ins_level(vc, m1, m2, ins_levels(lv, o, c), ins_bounds(bs, o, c.len() as int), o, c.len() as int, j),
{
    reveal(ins_done);
    let t = c.len() as int;
    let l2 = ins_levels(lv, o, c);
    let b2 = ins_bounds(bs, o, t);
    lemma_ins_shape_at(m1, lv, bs, o, c, key, j);
    let up = lv[j];
    let low = lv[j - 1];
    let b = bs[j];
    let ou = o[j];
    let ol = o[j - 1];
    let a = up[ou];
    assert(l2[j] == up);
    assert(l2[j - 1] == low);
    assert(b2[j] == b);
    assert(m1.contains_key(a));
    assert(m[a] == m1[a]);
    assert forall|i: int| 0 <= i < up.len() && i != ou implies #[trigger] m2[up[i]] == m1[up[i]] by {
        assert(m1.contains_key(up[i]));
        if i < ou {
            assert(rank(m1[up[i]].key) < rank(m1[a].key));
        } else {
            assert(rank(m1[a].key) < rank(m1[up[i]].key));
        }
        assert(m.contains_key(up[i]));
    }
    assert forall|i: int| 0 <= i < up.len() implies #[trigger] m2[up[i]].children@ == m1[up[i]].children@ by {}
    assert forall|i: int| 0 <= i < up.len() implies #[trigger] m2[up[i]].key == m1[up[i]].key by {
        assert(m1.contains_key(up[i]));
    }
    assert forall|q: int| 0 <= q < low.len() implies #[trigger] m2[low[q]].key == m1[low[q]].key by {
        assert(m1.contains_key(low[q]));
    }
    lemma_same_children(m1, m2, up, low, b);
    let lo1 = lo_dirty(o, j - 1);
    let hi1 = hi_dirty(o, t, j - 1);
    assert(b[ou] <= lo1);
    assert(b[ou + 1] > hi1);
    assert(ins_level(vc, m1, m, l2, b2, o, t, j - 1));
    assert forall|p: int| 0 <= p < low.len() && (p < lo1 || p > hi1) implies #[trigger] m2[low[p]] == m1[low[p]] by {
        reveal(ins_level);
        assert(m[l2[j - 1][p]] == m1[l2[j - 1][p]]);
        assert(m1.contains_key(low[p]));
    }
    reveal(ins_level);
    assert forall|q: int| 0 <= q < l2[j].len() implies committed(vc, m2, #[trigger] l2[j][q])
        && ((q < lo_dirty(o, j) || q > hi_dirty(o, t, j)) ==> m2[l2[j][q]] == m1[l2[j][q]])
        && m2[l2[j][q]].children@.len() <= MAX_FANOUT by {
        assert(m1[up[q]].children@.len() <= MAX_FANOUT) by {
            reveal(fanout_ok);
        }
        if q != ou {
            assert(committed(vc, m1, up[q])) by {
                reveal(commits_ok);
            }
            assert(m1.contains_key(up[q]));
            lemma_clean_committed(vc, m1, m2, up, low, b, q, ou, ou, lo1, hi1);
        }
    }
}

/// A finished commit pass leaves the new levels well formed and
/// committed.
#[verifier::spinoff_prover]
proof fn lemma_ins_final<V: VectorCommitment>(
    vc: V,
    m1: Map<NodeId, Node<V>>,
    m: Map<NodeId, Node<V>>,
    heads: Seq<NodeId>,
    lv: Seq<Seq<NodeId>>,
    bs: Seq<Seq<int>>,
    o: Seq<int>,
    c: Seq<NodeId>,
    key: Key,
)
    requires
        ins_shape(m1, lv, bs, o, c, key),
        c.len() < lv.len(),
        levels_ok(m1, heads, lv, bs),
        ins_done(vc, m1, m, ins_levels(lv, o, c), ins_bounds(bs, o, c.len() as int), o, c.len() as int, lv.len() as int),
    ensures
        levels_ok(m, heads, ins_levels(lv, o, c), ins_bounds(bs, o, c.len() as int)),
        commits_ok(vc, m, ins_levels(lv, o, c)),
        fanout_ok(m, ins_levels(lv, o, c)),
{
    reveal(ins_done);
    let t = c.len() as int;
    let l2 = ins_levels(lv, o, c);
    let b2 = ins_bounds(bs, o, t);
    let h = lv.len() as int;
    reveal(levels_ok);
    assert forall|l: int| 0 <= l < l2.len() implies level_seq_ok(m, #[trigger] l2[l], l + 1) && l2[l][0] == heads[l] by {
        lemma_ins_shape_at(m1, lv, bs, o, c, key, l);
        assert(level_seq_ok(m1, l2[l], l + 1));
        assert forall|i: int| 0 <= i < l2[l].len() implies #[trigger] m.contains_key(l2[l][i]) && m[l2[l][i]].level == l + 1 by {
            assert(m1.contains_key(l2[l][i]));
        }
        assert forall|i: int, k: int| 0 <= i < k < l2[l].len() implies rank(m[#[trigger] l2[l][i]].key) < rank(m[#[trigger] l2[l][k]].key) by {
            assert(m1.contains_key(l2[l][i]));
            assert(m1.contains_key(l2[l][k]));
        }
        assert(level_seq_ok(m1, lv[l], l + 1));
        if l < t {
            lv[l].insert_ensures(o[l] + 1, c[l]);
        }
    }
    assert(l2[h - 1] == lv[h - 1]);
    assert forall|l: int| 1 <= l < l2.len() implies children_ok(m, #[trigger] l2[l], l2[l - 1], b2[l]) by {
        assert(ins_level(vc, m1, m, l2, b2, o, t, l));
        reveal(ins_level);
    }
    assert(commits_ok(vc, m, l2)) by {
        reveal(commits_ok);
        assert forall|l: int, i: int| 0 <= l < l2.len() && 0 <= i < l2[l].len() implies committed(vc, m, #[trigger] l2[l][i]) by {
            assert(ins_level(vc, m1, m, l2, b2, o, t, l));
            reveal(ins_level);
        }
    }
    assert(fanout_ok(m, l2)) by {
        reveal(fanout_ok);
        assert forall|l: int, i: int| 1 <= l < l2.len() && 0 <= i < l2[l].len() implies m[#[trigger] l2[l][i]].children@.len() <= MAX_FANOUT by {
            assert(ins_level(vc, m1, m, l2, b2, o, t, l));
            reveal(ins_level);
        }
    }
}

/// The static facts of an insert hold of a well-shaped tree that does not
/// hold the key yet.
#[verifier::spinoff_prover]
proof fn lemma_ins_setup<V: VectorCommitment>(
    m1: Map<NodeId, Node<V>>,
    heads: Seq<NodeId>,
    lv: Seq<Seq<NodeId>>,
    bs: Seq<Seq<int>>,
    c: Seq<NodeId>,
    key: Key,
)
    requires
        levels_ok(m1, heads, lv, bs),
        heads_ok(m1, heads),
        1 <= c.len() < lv.len(),
        forall|j: int| 0 <= j < c.len() ==> #[trigger] m1.contains_key(c[j]) && m1[c[j]].level == j + 1
            && m1[c[j]].key == key && m1[c[j]].children@.len() == 0,
        forall|l: int, i: int| 0 <= l < lv.len() && 0 <= i < lv[l].len() ==> m1[#[trigger] lv[l][i]].key != key,
    ensures
        ins_shape(m1, lv, bs, owner_idx(m1, lv, key), c, key),
{
    reveal(levels_ok);
    reveal(heads_ok);
    reveal(ins_shape);
    let o = owner_idx(m1, lv, key);
    assert forall|j: int| 0 <= j < lv.len() implies #[trigger] is_owner(m1, lv[j], o[j], key)
        && rank(m1[lv[j][o[j]]].key) < rank(key) by {
        assert(level_seq_ok(m1, lv[j], j + 1));
        assert(m1.contains_key(heads[j]));
        lemma_owner_exists(m1, lv[j], j + 1, key);
        lemma_rank_injective(m1[lv[j][o[j]]].key, key);
    }
    assert forall|j: int| 0 <= j < lv.len() implies rank(m1[lv[j][#[trigger] o[j]]].key) < rank(key) by {
        assert(is_owner(m1, lv[j], o[j], key));
    }
    assert forall|j: int| 0 <= j < lv.len() implies level_seq_ok(m1, #[trigger] lv[j], j + 1) by {}
    assert forall|j: int| 1 <= j < lv.len() implies children_ok(m1, #[trigger] lv[j], lv[j - 1], bs[j]) by {}
    assert forall|j: int| #![trigger bs[j]] 1 <= j < lv.len() implies bs[j][o[j]] <= o[j - 1] < bs[j][o[j] + 1] by {
        assert(level_seq_ok(m1, lv[j], j + 1));
        assert(level_seq_ok(m1, lv[j - 1], j));
        assert(children_ok(m1, lv[j], lv[j - 1], bs[j]));
        assert(is_owner(m1, lv[j], o[j], key));
        lemma_owner_descends(m1, lv[j], lv[j - 1], bs[j], j, o[j], key);
    }
    assert forall|j: int| 0 <= j < lv.len() implies level_seq_ok(m1, #[trigger] ins_levels(lv, o, c)[j], j + 1) by {
        assert(level_seq_ok(m1, lv[j], j + 1));
        if j < c.len() {
            assert(is_owner(m1, lv[j], o[j], key));
            assert forall|q: int| 0 <= q < lv[j].len() implies #[trigger] m1.contains_key(lv[j][q]) && m1[lv[j][q]].key == m1[lv[j][q]].key
                && m1[lv[j][q]].level == m1[lv[j][q]].level by {}
            assert(m1.contains_key(c[j]));
            lemma_level_insert(m1, m1, lv[j], j + 1, o[j], c[j], key);
        }
    }
}

/// In a key-ordered run that holds the owner of an absent key, the keys
/// below it are exactly those up to the owner.
#[verifier::spinoff_prover]
proof fn lemma_split_point<V: VectorCommitment>(
    m: Map<NodeId, Node<V>>,
    low: Seq<NodeId>,
    lvl: int,
    b0: int,
    b1: int,
    ol: int,
    key: Key,
    ch: Seq<NodeId>,
    r: int,
)
    requires
        level_seq_ok(m, low, lvl),
        is_owner(m, low, ol, key),
        rank(m[low[ol]].key) < rank(key),
        0 <= b0 <= ol < b1 <= low.len(),
        ch == low.subrange(b0, b1),
        0 <= r <= ch.len(),
        forall|q: int| 0 <= q < r ==> rank(m[#[trigger] ch[q]].key) < rank(key),
        r < ch.len() ==> rank(key) <= rank(m[ch[r]].key),
    ensures
        r == ol + 1 - b0,
{
    if r < ol + 1 - b0 {
        assert(ch[r] == low[b0 + r]);
        if b0 + r < ol {
            assert(rank(m[low[b0 + r]].key) < rank(m[low[ol]].key));
        }
    } else if r > ol + 1 - b0 {
        assert(ch[ol + 1 - b0] == low[ol + 1]);
        assert(rank(m[ch[ol + 1 - b0]].key) < rank(key));
    }
}

/// Every node's key is a key of the base list: follow the down pointers.
#[verifier::spinoff_prover]
proof fn lemma_key_in_base<V: VectorCommitment>(m: Map<NodeId, Node<V>>, h: int, base: Seq<NodeId>, x: NodeId, v: u64)
    requires
        ptrs_ok(m, h),
        base_ok(m, base),
        m.contains_key(x),
        m[x].key == Key::Val(v),
    ensures
        base_keys(m, base).contains(v),
    decreases m[x].level,
{
    reveal(ptrs_ok);
    reveal(base_ok);
    assert(node_ptr_ok(m, x, h));
    if m[x].level == 1 {
        assert(base.contains(x));
        let i = choose|i: int| 0 <= i < base.len() && base[i] == x;
        assert(m[base[i]].key == Key::Val(v));
    } else {
        let d = m[x].down->0;
        lemma_key_in_base(m, h, base, d, v);
    }
}

/// Two nodes agree but for their right pointers.
spec fn same_but_right<V: VectorCommitment>(a: Node<V>, b: Node<V>) -> bool {
    &&& a.key == b.key
    &&& a.level == b.level
    &&& a.interval == b.interval
    &&& a.down == b.down
    &&& a.children == b.children
    &&& a.commitment == b.commitment
    &&& a.opener == b.opener
}

/// The levels, their runs, commitments and fan-out only read what a change
/// of right pointers and the addition of nodes leave alone.
#[verifier::spinoff_prover]
#[verifier::rlimit(30)]
proof fn lemma_links_frame<V: VectorCommitment>(
    vc: V,
    m: Map<NodeId, Node<V>>,
    m2: Map<NodeId, Node<V>>,
    heads: Seq<NodeId>,
    lv: Seq<Seq<NodeId>>,
    bs: Seq<Seq<int>>,
)
    requires
        levels_ok(m, heads, lv, bs),
        commits_ok(vc, m, lv),
        fanout_ok(m, lv),
        forall|x: NodeId| #[trigger] m.contains_key(x) ==> m2.contains_key(x) && same_but_right(m2[x], m[x]),
    ensures
        levels_ok(m2, heads, lv, bs),
        commits_ok(vc, m2, lv),
        fanout_ok(m2, lv),
{
    reveal(levels_ok);
    reveal(commits_ok);
    reveal(fanout_ok);
    assert forall|l: int| 0 <= l < lv.len() implies level_seq_ok(m2, #[trigger] lv[l], l + 1) && lv[l][0] == heads[l] by {
        assert(level_seq_ok(m, lv[l], l + 1));
        assert forall|i: int| 0 <= i < lv[l].len() implies #[trigger] m2.contains_key(lv[l][i]) && m2[lv[l][i]].level == l + 1 by {
            assert(m.contains_key(lv[l][i]));
        }
        assert forall|i: int, j: int| 0 <= i < j < lv[l].len() implies rank(m2[#[trigger] lv[l][i]].key) < rank(m2[#[trigger] lv[l][j]].key) by {
            assert(m.contains_key(lv[l][i]));
            assert(m.contains_key(lv[l][j]));
        }
    }
    assert forall|l: int| 1 <= l < lv.len() implies children_ok(m2, #[trigger] lv[l], lv[l - 1], bs[l]) by {
        assert(children_ok(m, lv[l], lv[l - 1], bs[l]));
        assert(level_seq_ok(m, lv[l], l + 1));
        assert(level_seq_ok(m, lv[l - 1], l));
        assert forall|i: int| 0 <= i < lv[l].len() implies #[trigger] m2[lv[l][i]].children@ == m[lv[l][i]].children@ by {
            assert(m.contains_key(lv[l][i]));
        }
        assert forall|i: int| 0 <= i < lv[l].len() implies #[trigger] m2[lv[l][i]].key == m[lv[l][i]].key by {
            assert(m.contains_key(lv[l][i]));
        }
        assert forall|q: int| 0 <= q < lv[l - 1].len() implies #[trigger] m2[lv[l - 1][q]].key == m[lv[l - 1][q]].key by {
            assert(m.contains_key(lv[l - 1][q]));
        }
        lemma_same_children(m, m2, lv[l], lv[l - 1], bs[l]);
    }
    assert forall|l: int, i: int| 0 <= l < lv.len() && 0 <= i < lv[l].len() implies committed(vc, m2, #[trigger] lv[l][i])
        && (l >= 1 ==> m2[lv[l][i]].children@.len() <= MAX_FANOUT) by {
        let x = lv[l][i];
        assert(level_seq_ok(m, lv[l], l + 1));
        assert(m.contains_key(x));
        assert(committed(vc, m, x));
        if l >= 1 {
            let b = bs[l];
            assert(children_ok(m, lv[l], lv[l - 1], b));
            assert(level_seq_ok(m, lv[l - 1], l));
            assert(b[0] <= b[i]);
            if i + 1 < lv[l].len() {
                assert(b[i + 1] < b[lv[l].len() as int]);
            }
            assert forall|q: int| 0 <= q < m[x].children@.len() implies m2[#[trigger] m[x].children@[q]].commitment == m[m[x].children@[q]].commitment by {
                assert(m[x].children@[q] == lv[l - 1][b[i] + q]);
                assert(m.contains_key(lv[l - 1][b[i] + q]));
            }
            assert(node_vals(m2, x) =~= node_vals(m, x));
        }
    }
}

/// The pointer discipline, the heads and the base list only read what
/// `shape_same` keeps.
#[verifier::spinoff_prover]
proof fn lemma_shape_keeps<V: VectorCommitment>(
    m: Map<NodeId, Node<V>>,
    m2: Map<NodeId, Node<V>>,
    heads: Seq<NodeId>,
    base: Seq<NodeId>,
)
    requires
        shape_same(m, m2),
        ptrs_ok(m, heads.len() as int),
        heads_ok(m, heads),
        base_ok(m, base),
    ensures
        ptrs_ok(m2, heads.len() as int),
        heads_ok(m2, heads),
        base_ok(m2, base),
{
    let h = heads.len() as int;
    assert(ptrs_ok(m2, h)) by {
        reveal(ptrs_ok);
        assert forall|x: NodeId| #[trigger] m2.contains_key(x) implies node_ptr_ok(m2, x, h) by {
            assert(node_ptr_ok(m, x, h));
        }
    }
    assert(heads_ok(m2, heads)) by {
        reveal(heads_ok);
        assert forall|l: int| 0 <= l < heads.len() implies #[trigger] m2.contains_key(heads[l]) && m2[heads[l]].level == l + 1
            && m2[heads[l]].key == Key::NegInf by {
            assert(m.contains_key(heads[l]));
        }
    }
    assert(base_ok(m2, base)) by {
        reveal(base_ok);
        assert forall|i: int| 0 <= i < base.len() implies #[trigger] m2.contains_key(base[i]) && m2[base[i]].level == 1 by {
            assert(m.contains_key(base[i]));
        }
        assert forall|i: int, j: int| 0 <= i < j < base.len() implies rank(m2[#[trigger] base[i]].key) < rank(m2[#[trigger] base[j]].key) by {
            assert(m.contains_key(base[i]));
            assert(m.contains_key(base[j]));
        }
        assert forall|i: int| 0 <= i < base.len() - 1 implies m2[#[trigger] base[i]].right == Some(base[i + 1]) by {
            assert(m.contains_key(base[i]));
        }
        assert(m.contains_key(base[0]));
        assert(m.contains_key(base[base.len() - 1]));
    }
}

/// Splicing a new leaf right after the base owner of its key keeps the base
/// list.
#[verifier::spinoff_prover]
proof fn lemma_base_splice<V: VectorCommitment>(
    m: Map<NodeId, Node<V>>,
    m2: Map<NodeId, Node<V>>,
    base: Seq<NodeId>,
    i: int,
    leaf: NodeId,
    key: Key,
)
    requires
        base_ok(m, base),
        is_owner(m, base, i, key),
        rank(m[base[i]].key) < rank(key),
        !m.contains_key(leaf),
        m2.dom() == m.dom().insert(leaf),
        forall|x: NodeId| #[trigger] m.contains_key(x) && x != base[i] ==> m2[x] == m[x],
        m2[base[i]] == m[base[i]].with_right(Some(leaf)),
        m2[leaf].level == 1,
        m2[leaf].key == key,
        m2[leaf].right == Some(base[i + 1]),
    ensures
        base_ok(m2, base.insert(i + 1, leaf)),
{
    reveal(base_ok);
    let b2 = base.insert(i + 1, leaf);
    base.insert_ensures(i + 1, leaf);
    assert(i + 1 < base.len()) by {
        if i + 1 == base.len() {
            assert(rank(m[base[i]].key) == rank(Key::PosInf));
        }
    }
    assert forall|j: int| 0 <= j < b2.len() implies #[trigger] m2.contains_key(b2[j]) && m2[b2[j]].level == 1
        && (j <= i ==> b2[j] == base[j] && m2[b2[j]].key == m[base[j]].key)
        && (j > i + 1 ==> b2[j] == base[j - 1] && m2[b2[j]].key == m[base[j - 1]].key) by {
        if j <= i {
            assert(m.contains_key(base[j]));
        } else if j > i + 1 {
            assert(m.contains_key(base[j - 1]));
        }
    }
    assert forall|a: int, b: int| 0 <= a < b < b2.len() implies rank(m2[#[trigger] b2[a]].key) < rank(m2[#[trigger] b2[b]].key) by {
        assert(m2.contains_key(b2[a]));
        assert(m2.contains_key(b2[b]));
        if b <= i {
            assert(rank(m[base[a]].key) < rank(m[base[b]].key));
        } else if b == i + 1 {
            if a < i {
                assert(rank(m[base[a]].key) < rank(m[base[i]].key));
            }
        } else if a <= i {
            if a < i {
                assert(rank(m[base[a]].key) < rank(m[base[i]].key));
            }
            assert(rank(m[base[i]].key) < rank(m[base[b - 1]].key));
        } else if a == i + 1 {
            if b - 1 > i + 1 {
                assert(rank(m[base[i + 1]].key) < rank(m[base[b - 1]].key));
            }
        } else {
            assert(rank(m[base[a - 1]].key) < rank(m[base[b - 1]].key));
        }
    }
    assert forall|j: int| 0 <= j < b2.len() - 1 implies m2[#[trigger] b2[j]].right == Some(b2[j + 1]) by {
        assert(m2.contains_key(b2[j]));
        if j < i {
            assert(m.contains_key(base[j]));
            assert(m[base[j]].right == Some(base[j + 1]));
        } else if j > i + 1 {
            assert(m.contains_key(base[j - 1]));
            assert(m[base[j - 1]].right == Some(base[j]));
        }
    }
    assert(m2.contains_key(b2[0]));
    assert(m2.contains_key(b2[b2.len() - 1]));
    assert forall|id: NodeId| #[trigger] m2.contains_key(id) && m2[id].level == 1 implies b2.contains(id) by {
        if id == leaf {
            assert(b2[i + 1] == leaf);
        } else {
            assert(base.contains(id));
            let q = choose|q: int| 0 <= q < base.len() && base[q] == id;
            if q <= i {
                assert(b2[q] == id);
            } else {
                assert(b2[q + 1] == id);
            }
        }
    }
}

/// Changing right pointers and adding nodes moves no owner of an absent key
/// and gives no level node that key.
#[verifier::spinoff_prover]
proof fn lemma_ins_ready<V: VectorCommitment>(
    m0: Map<NodeId, Node<V>>,
    m1: Map<NodeId, Node<V>>,
    heads: Seq<NodeId>,
    lv: Seq<Seq<NodeId>>,
    bs: Seq<Seq<int>>,
    key: Key,
    t: int,
)
    requires
        levels_ok(m0, heads, lv, bs),
        heads_ok(m0, heads),
        lv.len() == heads.len(),
        0 <= t < lv.len(),
        forall|x: NodeId| #[trigger] m0.contains_key(x) ==> m1.contains_key(x) && same_but_right(m1[x], m0[x]),
        forall|x: NodeId| #[trigger] m0.contains_key(x) ==> m0[x].key != key,
    ensures
        owner(m1, lv[t], key) == owner(m0, lv[t], key),
        0 <= owner(m0, lv[t], key) < lv[t].len(),
        m0.contains_key(lv[t][owner(m0, lv[t], key)]),
        forall|l: int, i: int| 0 <= l < lv.len() && 0 <= i < lv[l].len() ==> m1[#[trigger] lv[l][i]].key != key,
{
    reveal(levels_ok);
    reveal(heads_ok);
    assert(level_seq_ok(m0, lv[t], t + 1));
    assert(m0.contains_key(heads[t]));
    lemma_owner_exists(m0, lv[t], t + 1, key);
    let i = owner(m0, lv[t], key);
    assert(m0.contains_key(lv[t][i]));
    if i + 1 < lv[t].len() {
        assert(m0.contains_key(lv[t][i + 1]));
    }
    assert(is_owner(m1, lv[t], i, key));
    assert(level_seq_ok(m1, lv[t], t + 1)) by {
        assert forall|q: int| 0 <= q < lv[t].len() implies #[trigger] m1.contains_key(lv[t][q]) && m1[lv[t][q]].level == t + 1 by {
            assert(m0.contains_key(lv[t][q]));
        }
        assert forall|a: int, b: int| 0 <= a < b < lv[t].len() implies rank(m1[#[trigger] lv[t][a]].key) < rank(m1[#[trigger] lv[t][b]].key) by {
            assert(m0.contains_key(lv[t][a]));
            assert(m0.contains_key(lv[t][b]));
        }
    }
    lemma_owner_unique(m1, lv[t], t + 1, i, key);
    assert forall|l: int, q: int| 0 <= l < lv.len() && 0 <= q < lv[l].len() implies m1[#[trigger] lv[l][q]].key != key by {
        assert(level_seq_ok(m0, lv[l], l + 1));
        assert(m0.contains_key(lv[l][q]));
    }
}


impl<V: VectorCommitment> Ibsl<V> {
    /// The node owning `key`'s range at every level, top-down: `owners[l]`
    /// is the level-l node with the greatest key <= `key` (`owners[height]`
    /// is the root, `owners[1]` the base predecessor-or-self of `key`;
    /// `owners[0]` is unused). Descends the stored `children` vectors.
    #[verifier::spinoff_prover]
    fn owner_path(&self, key: Key) -> (owners: Vec<NodeId>)
        requires
            self.shape_ok(),
        ensures
            owners@.len() == self.heads@.len() + 1,
            forall|l: int| 0 <= l < self.heads@.len() ==> #[trigger] owners@[l + 1] == self.path_node(l, key),
    {
        let ghost m = self.nodes@;
        let ghost levels = self.levels@;
        let h = self.heads.len();
        proof {
            reveal(heads_ok);
            reveal(levels_ok);
            assert(m.contains_key(self.heads@[h - 1]));
            assert(levels[h - 1] == seq![self.heads@[h - 1]]);
            assert(level_seq_ok(m, levels[h - 1], h as int));
            assert(is_owner(m, levels[h - 1], 0, key));
            lemma_owner_unique(m, levels[h - 1], h as int, 0, key);
        }
        let mut owners: Vec<NodeId> = vec![usize::MAX; h + 1];
        let mut v = self.heads[h - 1];
        let mut l: usize = h;
        while l >= 2
            invariant
                self.shape_ok(),
                m == self.nodes@,
                levels == self.levels@,
                h == self.heads@.len(),
                1 <= l <= h,
                owners@.len() == h + 1,
                v == self.path_node(l - 1, key),
                m.contains_key(v),
                m[v].level == l,
                is_owner(m, levels[l - 1], owner(m, levels[l - 1], key), key),
                forall|x: int| l <= x < h ==> #[trigger] owners@[x + 1] == self.path_node(x, key),
            decreases l,
        {
            owners.set(l, v);
            let n = self.nodes.get(&v).unwrap();
            proof {
                self.lemma_children_in_map(l - 1, key);
                self.lemma_first_child_le(l - 1, key);
            }
            let pos = match self.last_le(&n.children, key) {
                Some(p) => p,
                None => {
                    proof {
                        assert(false);
                    }
                    0
                },
            };
            proof {
                self.lemma_descend_pos(l - 1, key, pos as int);
            }
            v = n.children[pos];
            l = l - 1;
        }
        owners.set(1, v);
        owners
    }

    /// How many of `ids`, from the front, have keys below `key`: for a
    /// key-ordered run, the position where `key` would go.
    #[verifier::spinoff_prover]
    fn count_below(&self, ids: &Vec<NodeId>, key: Key) -> (r: usize)
        requires
            forall|q: int| 0 <= q < ids@.len() ==> #[trigger] self.nodes@.contains_key(ids@[q]),
        ensures
            r <= ids@.len(),
            forall|q: int| 0 <= q < r ==> rank(self.nodes@[#[trigger] ids@[q]].key) < rank(key),
            r < ids@.len() ==> rank(key) <= rank(self.nodes@[ids@[r as int]].key),
    {
        let mut q: usize = 0;
        while q < ids.len()
            invariant
                q <= ids@.len(),
                forall|t: int| 0 <= t < ids@.len() ==> #[trigger] self.nodes@.contains_key(ids@[t]),
                forall|t: int| 0 <= t < q ==> rank(self.nodes@[#[trigger] ids@[t]].key) < rank(key),
            decreases ids@.len() - q,
        {
            if !key_lt(self.nodes.get(&ids[q]).unwrap().key, key) {
                return q;
            }
            q = q + 1;
        }
        q
    }

    /// Walks the search path for `key` and remembers the last node visited
    /// at each level (the standard skip-list update array); `None` where
    /// the path skips a level through a shortcut.
    #[verifier::spinoff_prover]
    fn search_preds(&self, key: Key) -> (pred_at: Vec<Option<NodeId>>)
        requires
            self.wf(),
        ensures
            pred_at@.len() == self.heads@.len(),
            pred_at@[0] is Some,
            forall|l: int| 0 <= l < pred_at@.len() ==> (#[trigger] pred_at@[l] matches Some(p) ==> {
                &&& self.nodes@.contains_key(p)
                &&& self.nodes@[p].level == l + 1
                &&& rank(self.nodes@[p].key) <= rank(key)
            }),
    {
        let ghost m = self.nodes@;
        let h = self.heads.len();
        let mut pred_at: Vec<Option<NodeId>> = vec![None; h];
        let mut v = self.root();
        proof {
            reveal(heads_ok);
            assert forall|l: int| 0 <= l < pred_at@.len() implies #[trigger] pred_at@[l] is None by {
                assert(cloned(None::<NodeId>, pred_at@[l]));
            }
        }
        loop
            invariant_except_break
                ptrs_ok(m, h as int),
                m == self.nodes@,
                h == self.heads@.len(),
                pred_at@.len() == h,
                m.contains_key(v),
                rank(m[v].key) <= rank(key),
                forall|l: int| 0 <= l < pred_at@.len() ==> (#[trigger] pred_at@[l] matches Some(p) ==> {
                    &&& m.contains_key(p)
                    &&& m[p].level == l + 1
                    &&& rank(m[p].key) <= rank(key)
                }),
            ensures
                pred_at@.len() == h,
                pred_at@[0] is Some,
                forall|l: int| 0 <= l < pred_at@.len() ==> (#[trigger] pred_at@[l] matches Some(p) ==> {
                    &&& m.contains_key(p)
                    &&& m[p].level == l + 1
                    &&& rank(m[p].key) <= rank(key)
                }),
            decreases m[v].level, 0x1_0000_0000_0000_0002 - rank(m[v].key),
        {
            proof {
                reveal(ptrs_ok);
                assert(node_ptr_ok(m, v, h as int));
            }
            let n = self.nodes.get(&v).unwrap();
            let lvl = n.level;
            pred_at.set(lvl - 1, Some(v));
            if lvl == 1 {
                break;
            }
            if in_interval(key, n.interval) {
                v = n.down.unwrap();
            } else {
                let go_right = match n.right {
                    Some(r) => key_le(self.nodes.get(&r).unwrap().interval.0, key),
                    None => false,
                };
                if go_right {
                    let r = n.right.unwrap();
                    proof {
                        assert(node_ptr_ok(m, r, h as int));
                    }
                    v = r;
                } else {
                    // k falls in the gap after this subtree: its predecessor
                    // is the rightmost leaf below, so descend, not right.
                    v = n.down.unwrap();
                }
            }
        }
        pred_at
    }

    /// From `start`, moves right along level `lvl` while the next node is
    /// on that level and has a key below `key`.
    #[verifier::spinoff_prover]
    fn scan_right(&self, start: NodeId, lvl: usize, key: Key) -> (r: NodeId)
        requires
            ptrs_ok(self.nodes@, self.heads@.len() as int),
            self.nodes@.contains_key(start),
            self.nodes@[start].level == lvl,
            rank(self.nodes@[start].key) < rank(key),
        ensures
            self.nodes@.contains_key(r),
            self.nodes@[r].level == lvl,
            rank(self.nodes@[r].key) < rank(key),
            self.nodes@[r].right matches Some(x) ==> !(self.nodes@[x].level == lvl && rank(self.nodes@[x].key) < rank(key)),
            lvl == 1 && start == r ==> true,
    {
        let ghost m = self.nodes@;
        let ghost h = self.heads@.len() as int;
        let mut pred = start;
        loop
            invariant
                ptrs_ok(m, h),
                m == self.nodes@,
                m.contains_key(pred),
                m[pred].level == lvl,
                rank(m[pred].key) < rank(key),
            decreases 0x1_0000_0000_0000_0002 - rank(m[pred].key),
        {
            proof {
                reveal(ptrs_ok);
                assert(node_ptr_ok(m, pred, h));
            }
            match self.nodes.get(&pred).unwrap().right {
                Some(r) => {
                    let rn = self.nodes.get(&r).unwrap();
                    if rn.level == lvl && key_lt(rn.key, key) {
                        pred = r;
                    } else {
                        return pred;
                    }
                },
                None => {
                    return pred;
                },
            }
        }
    }
}


impl<V: VectorCommitment> Ibsl<V> {
    /// One tower level of the commit pass after an insert: the old owner
    /// `a` of the key's range keeps its children below the key, and the new
    /// node `node_l` takes the tower node `below` and the rest.
    #[verifier::spinoff_prover]
    fn split_owner(
        &mut self,
        key: Key,
        a: NodeId,
        node_l: NodeId,
        below: NodeId,
        Ghost(m1): Ghost<Map<NodeId, Node<V>>>,
        Ghost(lv): Ghost<Seq<Seq<NodeId>>>,
        Ghost(bs): Ghost<Seq<Seq<int>>>,
        Ghost(o): Ghost<Seq<int>>,
        Ghost(c): Ghost<Seq<NodeId>>,
        Ghost(j): Ghost<int>,
    )
        requires
            ins_shape(m1, lv, bs, o, c, key),
            c.len() < lv.len(),
            lv.len() == old(self).heads@.len(),
            ptrs_ok(m1, lv.len() as int),
            commits_ok(old(self).vc, m1, lv),
            fanout_ok(m1, lv),
            old(self).vc.wf(),
            old(self).vc.max_width() >= MAX_FANOUT,
            1 <= j < c.len(),
            a == lv[j][o[j]],
            node_l == c[j],
            below == c[j - 1],
            ins_done(old(self).vc, m1, old(self).nodes@, ins_levels(lv, o, c), ins_bounds(bs, o, c.len() as int), o, c.len() as int, j),
        ensures
            final(self).vc == old(self).vc,
            final(self).heads@ == old(self).heads@,
            final(self).next_id == old(self).next_id,
            final(self).rng == old(self).rng,
            final(self).promote_threshold == old(self).promote_threshold,
            final(self).levels == old(self).levels,
            final(self).bounds == old(self).bounds,
            ins_done(final(self).vc, m1, final(self).nodes@, ins_levels(lv, o, c), ins_bounds(bs, o, c.len() as int), o, c.len() as int, j + 1),
    {
        let ghost vc = self.vc;
        let ghost m = self.nodes@;
        let ghost h = lv.len();
        proof {
            lemma_ins_shape_at(m1, lv, bs, o, c, key, j);
            lemma_ins_shape_at(m1, lv, bs, o, c, key, j - 1);
            lemma_ins_done_node(vc, m1, m, ins_levels(lv, o, c), ins_bounds(bs, o, c.len() as int), o, c.len() as int, j, a);
            assert(m1.contains_key(a));
                assert(m[a] == m1[a]);
                assert(m1[a].children@ == lv[j - 1].subrange(bs[j][o[j]], bs[j][o[j] + 1]));
                assert(bs[j][0] <= bs[j][o[j]]);
                if o[j] + 1 < lv[j].len() {
                    assert(bs[j][o[j] + 1] < bs[j][lv[j].len() as int]);
                }
                assert forall|q: int| 0 <= q < m1[a].children@.len() implies #[trigger] m.contains_key(m1[a].children@[q])
                    && m1[m1[a].children@[q]].level == j && m1[m1[a].children@[q]].key != key by {
                    assert(m1[a].children@[q] == lv[j - 1][bs[j][o[j]] + q]);
                    assert(m1.contains_key(lv[j - 1][bs[j][o[j]] + q]));
                }
                assert(m1[a].children@.len() <= MAX_FANOUT) by {
                    reveal(fanout_ok);
                }
            }
            let mut kids = copy_slice(self.nodes.get(&a).unwrap().children.as_slice());
            let split = self.count_below(&kids, key);
            proof {
                assert forall|q: int| 0 <= q < kids@.len() implies #[trigger] m[kids@[q]].key == m1[kids@[q]].key by {
                    assert(m.contains_key(kids@[q]));
                }
                if split < kids@.len() {
                    assert(m[kids@[split as int]].key == m1[kids@[split as int]].key);
                }
                lemma_split_point(m1, lv[j - 1], j, bs[j][o[j]], bs[j][o[j] + 1], o[j - 1], key, kids@, split as int);
            }
            let mut moved = kids.split_off(split);
            let mut nk: Vec<NodeId> = Vec::new();
            nk.push(below);
            nk.append(&mut moved);
            proof {
                assert(kids@ =~= lv[j - 1].subrange(bs[j][o[j]], o[j - 1] + 1));
                assert(nk@ =~= seq![c[j - 1]] + lv[j - 1].subrange(o[j - 1] + 1, bs[j][o[j] + 1]));
                assert(m1.contains_key(node_l));
            }
            proof {
                assert(0 < kids@.len() <= MAX_FANOUT);
                assert forall|q: int| 0 <= q < kids@.len() implies #[trigger] m.contains_key(kids@[q])
                    && m[kids@[q]].level == m[a].level - 1 by {
                    assert(kids@[q] == m1[a].children@[q]);
                }
            }
            self.recommit_with(a, kids);
            let ghost ma = self.nodes@;
            self.set_children(node_l, nk);
            proof {
                let mm = self.nodes@;
                assert(mm[node_l].level == j + 1);
                assert(0 < mm[node_l].children@.len() <= MAX_FANOUT);
                assert(m1.contains_key(below));
                assert(below != a);
                assert(below != node_l);
                assert(mm[below] == m[below]);
                assert forall|q: int| 0 <= q < mm[node_l].children@.len() implies #[trigger] mm.contains_key(mm[node_l].children@[q])
                    && mm[mm[node_l].children@[q]].level == mm[node_l].level - 1 by {
                    if q > 0 {
                        let y = m1[a].children@[split + q - 1];
                        assert(mm[node_l].children@[q] == y);
                        assert(m.contains_key(y));
                        assert(m1[y].key != key);
                        assert(y != a) by {
                            assert(m1[y].level == j);
                        }
                        assert(y != node_l);
                        assert(mm[y] == m[y]);
                    }
                }
            }
            self.commit_node(node_l);
            proof {
                let m2 = self.nodes@;
                let first = m1[a].children@[0];
                assert(first == lv[j - 1][bs[j][o[j]]]);
                assert(m1.contains_key(first));
                assert(m1[first].key == m1[a].key);
                assert(first != a && first != node_l) by {
                    assert(m1[first].level == j);
                }
                assert(node_ptr_ok(m1, first, h as int)) by {
                    reveal(ptrs_ok);
                }
                assert(node_ptr_ok(m1, c[j - 1], h as int)) by {
                    reveal(ptrs_ok);
                }
                assert(node_ptr_ok(m1, a, h as int)) by {
                    reveal(ptrs_ok);
                }
                assert(node_ptr_ok(m1, node_l, h as int)) by {
                    reveal(ptrs_ok);
                }
                assert(m2[a].interval.0 == m1[a].interval.0);
                assert(m2[node_l].interval.0 == m1[node_l].interval.0);
                assert(shape_same(m, m2)) by {
                    assert(m2.dom() =~= m.dom());
                }
                assert(shape_same(m1, m2)) by {
                    assert(m2.dom() =~= m1.dom());
                }
                assert forall|q: int| 0 <= q < ma[a].children@.len() implies ma[node_l] != ma[#[trigger] ma[a].children@[q]] || node_l != ma[a].children@[q] by {}
                assert forall|q: int| 0 <= q < ma[a].children@.len() implies m2[#[trigger] ma[a].children@[q]] == ma[ma[a].children@[q]] by {
                    assert(ma[a].children@[q] == m1[a].children@[q]);
                }
                lemma_committed_frame(vc, ma, m2, a);
                lemma_ins_split_level(vc, m1, m, m2, lv, bs, o, c, key, j);
                assert forall|x: NodeId| #[trigger] m.contains_key(x) && m1[x].level != j + 1 implies m2[x] == m[x] by {}
                lemma_ins_advance(vc, m1, m, m2, lv, bs, o, c, key, j);
            }
    }

    /// The level above an insert's tower: the owner `p` of the key's range
    /// gains the tower top as a child.
    #[verifier::spinoff_prover]
    fn adopt_top(
        &mut self,
        key: Key,
        p: NodeId,
        top: NodeId,
        Ghost(m1): Ghost<Map<NodeId, Node<V>>>,
        Ghost(lv): Ghost<Seq<Seq<NodeId>>>,
        Ghost(bs): Ghost<Seq<Seq<int>>>,
        Ghost(o): Ghost<Seq<int>>,
        Ghost(c): Ghost<Seq<NodeId>>,
    )
        requires
            ins_shape(m1, lv, bs, o, c, key),
            c.len() < lv.len(),
            lv.len() == old(self).heads@.len(),
            ptrs_ok(m1, lv.len() as int),
            commits_ok(old(self).vc, m1, lv),
            fanout_ok(m1, lv),
            old(self).vc.wf(),
            old(self).vc.max_width() >= MAX_FANOUT,
            p == lv[c.len() as int][o[c.len() as int]],
            top == c[c.len() - 1],
            m1[p].children@.len() < MAX_FANOUT,
            ins_done(old(self).vc, m1, old(self).nodes@, ins_levels(lv, o, c), ins_bounds(bs, o, c.len() as int), o, c.len() as int, c.len() as int),
        ensures
            final(self).vc == old(self).vc,
            final(self).heads@ == old(self).heads@,
            final(self).next_id == old(self).next_id,
            final(self).rng == old(self).rng,
            final(self).promote_threshold == old(self).promote_threshold,
            final(self).levels == old(self).levels,
            final(self).bounds == old(self).bounds,
            ins_done(final(self).vc, m1, final(self).nodes@, ins_levels(lv, o, c), ins_bounds(bs, o, c.len() as int), o, c.len() as int, (c.len() + 1) as int),
    {
        let ghost vc = self.vc;
        let ghost m = self.nodes@;
        let ghost tt = c.len() as int;
        let ghost h = lv.len();
        proof {
            lemma_ins_shape_at(m1, lv, bs, o, c, key, tt);
            lemma_ins_shape_at(m1, lv, bs, o, c, key, tt - 1);
            lemma_ins_done_node(vc, m1, m, ins_levels(lv, o, c), ins_bounds(bs, o, c.len() as int), o, tt, tt, p);
            assert(m1.contains_key(p));
            assert(m[p] == m1[p]);
            assert(m1[p].children@ == lv[tt - 1].subrange(bs[tt][o[tt]], bs[tt][o[tt] + 1]));
            assert(bs[tt][0] <= bs[tt][o[tt]]);
            if o[tt] + 1 < lv[tt].len() {
                assert(bs[tt][o[tt] + 1] < bs[tt][lv[tt].len() as int]);
            }
            assert forall|q: int| 0 <= q < m1[p].children@.len() implies #[trigger] m.contains_key(m1[p].children@[q])
                && m1[m1[p].children@[q]].level == tt by {
                assert(m1[p].children@[q] == lv[tt - 1][bs[tt][o[tt]] + q]);
                assert(m1.contains_key(lv[tt - 1][bs[tt][o[tt]] + q]));
            }
        }
        let mut kids = copy_slice(self.nodes.get(&p).unwrap().children.as_slice());
        let pos = self.count_below(&kids, key);
        proof {
            assert forall|q: int| 0 <= q < kids@.len() implies #[trigger] m[kids@[q]].key == m1[kids@[q]].key by {
                assert(m.contains_key(kids@[q]));
            }
            if pos < kids@.len() {
                assert(m[kids@[pos as int]].key == m1[kids@[pos as int]].key);
            }
            lemma_split_point(m1, lv[tt - 1], tt, bs[tt][o[tt]], bs[tt][o[tt] + 1], o[tt - 1], key, kids@, pos as int);
        }
        kids.insert(pos, top);
        self.set_children(p, kids);
        proof {
            let mm = self.nodes@;
            m1[p].children@.insert_ensures(pos as int, c[tt - 1]);
            assert(m1.contains_key(c[tt - 1]));
            assert(c[tt - 1] != p);
            assert(mm[c[tt - 1]] == m[c[tt - 1]]);
            assert forall|q: int| 0 <= q < mm[p].children@.len() implies #[trigger] mm.contains_key(mm[p].children@[q])
                && mm[mm[p].children@[q]].level == mm[p].level - 1 by {
                if q != pos {
                    let y = if q < pos { m1[p].children@[q] } else { m1[p].children@[q - 1] };
                    assert(mm[p].children@[q] == y);
                    assert(m.contains_key(y));
                    assert(y != p) by {
                        assert(m1[y].level == tt);
                    }
                    assert(mm[y] == m[y]);
                }
            }
        }
        self.commit_node(p);
        proof {
            let m2 = self.nodes@;
            let first = m1[p].children@[0];
            assert(m1.contains_key(first));
            assert(node_ptr_ok(m1, first, h as int)) by {
                reveal(ptrs_ok);
            }
            assert(node_ptr_ok(m1, p, h as int)) by {
                reveal(ptrs_ok);
            }
            assert(pos > 0);
            assert(m2[p].children@[0] == first);
            assert(shape_same(m1, m2)) by {
                assert(m2.dom() =~= m1.dom());
            }
            assert(forall|x: NodeId| #[trigger] m.contains_key(x) && m1[x].level > tt ==> m[x] == m1[x]) by {
                reveal(ins_done);
            }
            lemma_ins_top_children(m1, m, m2, lv, bs, o, c, key, tt);
            lemma_ins_top_level(vc, m1, m, m2, lv, bs, o, c, key, tt);
            assert forall|x: NodeId| #[trigger] m.contains_key(x) && m1[x].level != tt + 1 implies m2[x] == m[x] by {}
            lemma_ins_advance(vc, m1, m, m2, lv, bs, o, c, key, tt);
        }
    }

    /// A level above an insert's tower: the owner `x` of the key's range
    /// keeps its children and re-commits.
    #[verifier::spinoff_prover]
    fn recommit_owner(
        &mut self,
        key: Key,
        x: NodeId,
        Ghost(m1): Ghost<Map<NodeId, Node<V>>>,
        Ghost(lv): Ghost<Seq<Seq<NodeId>>>,
        Ghost(bs): Ghost<Seq<Seq<int>>>,
        Ghost(o): Ghost<Seq<int>>,
        Ghost(c): Ghost<Seq<NodeId>>,
        Ghost(j): Ghost<int>,
    )
        requires
            ins_shape(m1, lv, bs, o, c, key),
            c.len() < lv.len(),
            lv.len() == old(self).heads@.len(),
            ptrs_ok(m1, lv.len() as int),
            commits_ok(old(self).vc, m1, lv),
            fanout_ok(m1, lv),
            old(self).vc.wf(),
            old(self).vc.max_width() >= MAX_FANOUT,
            c.len() < j < lv.len(),
            x == lv[j][o[j]],
            ins_done(old(self).vc, m1, old(self).nodes@, ins_levels(lv, o, c), ins_bounds(bs, o, c.len() as int), o, c.len() as int, j),
        ensures
            final(self).vc == old(self).vc,
            final(self).heads@ == old(self).heads@,
            final(self).next_id == old(self).next_id,
            final(self).rng == old(self).rng,
            final(self).promote_threshold == old(self).promote_threshold,
            final(self).levels == old(self).levels,
            final(self).bounds == old(self).bounds,
            ins_done(final(self).vc, m1, final(self).nodes@, ins_levels(lv, o, c), ins_bounds(bs, o, c.len() as int), o, c.len() as int, j + 1),
    {
        let ghost vc = self.vc;
        let ghost m = self.nodes@;
        let ghost h = lv.len();
        proof {
            lemma_ins_shape_at(m1, lv, bs, o, c, key, j);
            lemma_ins_done_node(vc, m1, m, ins_levels(lv, o, c), ins_bounds(bs, o, c.len() as int), o, c.len() as int, j, x);
            assert(m1.contains_key(x));
            assert(m[x] == m1[x]);
            assert(m1[x].children@ == lv[j - 1].subrange(bs[j][o[j]], bs[j][o[j] + 1]));
            assert(bs[j][0] <= bs[j][o[j]]);
            if o[j] + 1 < lv[j].len() {
                assert(bs[j][o[j] + 1] < bs[j][lv[j].len() as int]);
            }
            assert forall|q: int| 0 <= q < m1[x].children@.len() implies #[trigger] m.contains_key(m1[x].children@[q])
                && m[m1[x].children@[q]].level == j by {
                assert(m1[x].children@[q] == lv[j - 1][bs[j][o[j]] + q]);
                assert(m1.contains_key(lv[j - 1][bs[j][o[j]] + q]));
            }
            assert(m1[x].children@.len() <= MAX_FANOUT) by {
                reveal(fanout_ok);
            }
        }
        self.commit_node(x);
        proof {
            let m2 = self.nodes@;
            let first = m1[x].children@[0];
            assert(m1.contains_key(first));
            assert(node_ptr_ok(m1, first, h as int)) by {
                reveal(ptrs_ok);
            }
            assert(node_ptr_ok(m1, x, h as int)) by {
                reveal(ptrs_ok);
            }
            assert(shape_same(m1, m2)) by {
                assert(m2.dom() =~= m1.dom());
            }
            lemma_ins_up_level(vc, m1, m, m2, lv, bs, o, c, key, j);
            assert forall|y: NodeId| #[trigger] m.contains_key(y) && m1[y].level != j + 1 implies m2[y] == m[y] by {}
            lemma_ins_advance(vc, m1, m, m2, lv, bs, o, c, key, j);
        }
    }

    /// Incremental commit pass after an insert (recompute along the search
    /// path only). `created[i]` is the key's new node at level i+1, linked
    /// by pointers but in no `children` vector yet. Affected nodes, and
    /// nobody else: at each tower level the old owner of the key's range
    /// loses its children past the key to the new node; the level above the
    /// tower gains the tower top as a child; every ancestor higher up keeps
    /// its children but must re-commit and re-span its interval.
    #[verifier::spinoff_prover]
    fn recompute_insert(&mut self, key: Key, created: &Vec<NodeId>)
        requires
            old(self).shape_ok(),
            ptrs_ok(old(self).nodes@, old(self).heads@.len() as int),
            commits_ok(old(self).vc, old(self).nodes@, old(self).levels@),
            fanout_ok(old(self).nodes@, old(self).levels@),
            old(self).vc.wf(),
            old(self).vc.max_width() >= MAX_FANOUT,
            1 <= created@.len() < old(self).heads@.len(),
            forall|j: int| 0 <= j < created@.len() ==> #[trigger] old(self).nodes@.contains_key(created@[j])
                && old(self).nodes@[created@[j]].level == j + 1
                && old(self).nodes@[created@[j]].key == key
                && old(self).nodes@[created@[j]].children@.len() == 0,
            forall|l: int, i: int| 0 <= l < old(self).levels@.len() && 0 <= i < old(self).levels@[l].len()
                ==> old(self).nodes@[#[trigger] old(self).levels@[l][i]].key != key,
            old(self).nodes@[old(self).path_node(created@.len() as int, key)].children@.len() < MAX_FANOUT,
        ensures
            final(self).levels@ == ins_levels(old(self).levels@, owner_idx(old(self).nodes@, old(self).levels@, key), created@),
            final(self).bounds@ == ins_bounds(
                old(self).bounds@,
                owner_idx(old(self).nodes@, old(self).levels@, key),
                created@.len() as int,
            ),
            levels_ok(final(self).nodes@, final(self).heads@, final(self).levels@, final(self).bounds@),
            commits_ok(final(self).vc, final(self).nodes@, final(self).levels@),
            fanout_ok(final(self).nodes@, final(self).levels@),
            shape_same(old(self).nodes@, final(self).nodes@),
            final(self).vc == old(self).vc,
            final(self).heads@ == old(self).heads@,
            final(self).next_id == old(self).next_id,
            final(self).rng == old(self).rng,
            final(self).promote_threshold == old(self).promote_threshold,
            forall|l: int, q: int| 0 <= l < old(self).levels@.len() && 0 <= q < old(self).levels@[l].len()
                && q != owner(old(self).nodes@, old(self).levels@[l], key)
                ==> final(self).nodes@.contains_key(#[trigger] old(self).levels@[l][q])
                && final(self).nodes@[old(self).levels@[l][q]] == old(self).nodes@[old(self).levels@[l][q]],
            forall|l: int| 1 <= l < final(self).levels@.len()
                && final(self).nodes@[#[trigger] final(self).levels@[l][owner(final(self).nodes@, final(self).levels@[l], key)]].key == key
                ==> 1 <= owner(final(self).nodes@, final(self).levels@[l], key)
                && final(self).nodes@[final(self).levels@[l][owner(final(self).nodes@, final(self).levels@[l], key) - 1]].children@.len()
                + final(self).nodes@[final(self).levels@[l][owner(final(self).nodes@, final(self).levels@[l], key)]].children@.len()
                <= MAX_FANOUT + 1,
            forall|l: int| 0 <= l < final(self).levels@.len() ==>
                (final(self).nodes@[#[trigger] final(self).levels@[l][owner(final(self).nodes@, final(self).levels@[l], key)]].key == key
                <==> l < created@.len()),
    {
        let ghost m1 = self.nodes@;
        let ghost lv = self.levels@;
        let ghost bs = self.bounds@;
        let ghost c = created@;
        let ghost o = owner_idx(m1, lv, key);
        let ghost l2 = ins_levels(lv, o, c);
        let ghost b2 = ins_bounds(bs, o, c.len() as int);
        let ghost vc = self.vc;
        let h = self.heads.len();
        let t = created.len();
        // Owners as of before this insert: the created nodes are not in any
        // `children` vector yet, so the descent sees the pre-insert tree.
        let owners = self.owner_path(key);
        proof {
            assert forall|j: int| 0 <= j < c.len() implies #[trigger] m1.contains_key(c[j]) && m1[c[j]].level == j + 1
                && m1[c[j]].key == key && m1[c[j]].children@.len() == 0 by {
                assert(old(self).nodes@.contains_key(created@[j]));
            }
            lemma_ins_setup(m1, self.heads@, lv, bs, c, key);
            reveal(ptrs_ok);
            assert(m1.contains_key(c[0]));
            assert(node_ptr_ok(m1, c[0], h as int));
        }
        self.commit_node(created[0]);
        proof {
            lemma_ins_base(vc, m1, self.nodes@, lv, bs, o, c, key, h as int);
        }
        // Tower levels: split the old owner's children around the key.
        let mut l: usize = 2;
        while l <= t
            invariant
                ins_shape(m1, lv, bs, o, c, key),
                ptrs_ok(m1, h as int),
                commits_ok(vc, m1, lv),
                fanout_ok(m1, lv),
                vc.wf(),
                vc.max_width() >= MAX_FANOUT,
                2 <= l <= t + 1,
                t == c.len(),
                t < h,
                h == lv.len(),
                h == self.heads@.len(),
                created@ == c,
                owners@.len() == h + 1,
                forall|x: int| 0 <= x < h ==> #[trigger] owners@[x + 1] == lv[x][o[x]],
                ins_done(vc, m1, self.nodes@, l2, b2, o, t as int, l - 1),
                l2 == ins_levels(lv, o, c),
                b2 == ins_bounds(bs, o, c.len() as int),
                o == owner_idx(m1, lv, key),
                self.vc == vc,
                self.heads@ == old(self).heads@,
                self.next_id == old(self).next_id,
                self.rng == old(self).rng,
                self.promote_threshold == old(self).promote_threshold,
                self.levels@ == lv,
                self.bounds@ == bs,
            decreases t + 1 - l,
        {
            proof {
                assert(owners@[(l - 1) + 1] == lv[l - 1][o[l - 1]]);
            }
            self.split_owner(key, owners[l], created[l - 1], created[l - 2], Ghost(m1), Ghost(lv), Ghost(bs), Ghost(o), Ghost(c), Ghost((l - 1) as int));
            l = l + 1;
        }
        // The tower top becomes a child of the key's owner one level above
        // it.
        proof {
            assert(owners@[t + 1] == lv[t as int][o[t as int]]);
            assert(old(self).path_node(t as int, key) == lv[t as int][o[t as int]]);
        }
        self.adopt_top(key, owners[t + 1], created[t - 1], Ghost(m1), Ghost(lv), Ghost(bs), Ghost(o), Ghost(c));
        proof {
            assert(h <= MAX_HEIGHT) by {
                reveal(heads_ok);
            }
        }
        // Every ancestor higher up keeps its children but re-commits.
        let mut l: usize = t + 2;
        while l <= h
            invariant
                ins_shape(m1, lv, bs, o, c, key),
                ptrs_ok(m1, h as int),
                commits_ok(vc, m1, lv),
                fanout_ok(m1, lv),
                vc.wf(),
                vc.max_width() >= MAX_FANOUT,
                t + 2 <= l <= h + 1,
                h <= MAX_HEIGHT,
                t == c.len(),
                t < h,
                h == lv.len(),
                h == self.heads@.len(),
                owners@.len() == h + 1,
                forall|x: int| 0 <= x < h ==> #[trigger] owners@[x + 1] == lv[x][o[x]],
                ins_done(vc, m1, self.nodes@, l2, b2, o, t as int, l - 1),
                l2 == ins_levels(lv, o, c),
                b2 == ins_bounds(bs, o, c.len() as int),
                o == owner_idx(m1, lv, key),
                self.vc == vc,
                self.heads@ == old(self).heads@,
                self.next_id == old(self).next_id,
                self.rng == old(self).rng,
                self.promote_threshold == old(self).promote_threshold,
                self.levels@ == lv,
                self.bounds@ == bs,
            decreases h + 1 - l,
        {
            proof {
                assert(owners@[(l - 1) + 1] == lv[l - 1][o[l - 1]]);
            }
            self.recommit_owner(key, owners[l], Ghost(m1), Ghost(lv), Ghost(bs), Ghost(o), Ghost(c), Ghost((l - 1) as int));
            l = l + 1;
        }
        proof {
            lemma_ins_final(vc, m1, self.nodes@, self.heads@, lv, bs, o, c, key);
            lemma_ins_done_node(vc, m1, self.nodes@, l2, b2, o, t as int, h as int, created@[0]);
            assert forall|l: int, q: int| 0 <= l < lv.len() && 0 <= q < lv[l].len() && q != owner(m1, lv[l], key)
                implies self.nodes@.contains_key(#[trigger] lv[l][q]) && self.nodes@[lv[l][q]] == m1[lv[l][q]] by {
                assert(o[l] == owner(m1, lv[l], key));
                lemma_ins_frame(vc, m1, self.nodes@, lv, bs, o, c, key, l, q);
            }
            let mf = self.nodes@;
            assert forall|l: int| 1 <= l < l2.len() && mf[#[trigger] l2[l][owner(mf, l2[l], key)]].key == key
                implies 1 <= owner(mf, l2[l], key) && mf[l2[l][owner(mf, l2[l], key) - 1]].children@.len()
                + mf[l2[l][owner(mf, l2[l], key)]].children@.len() <= MAX_FANOUT + 1 by {
                assert forall|x: NodeId| #[trigger] mf.contains_key(x) implies mf[x].key == m1[x].key by {}
                assert(heads_ok(m1, self.heads@));
                lemma_ins_then_delete_fits(m1, mf, self.heads@, lv, bs, o, c, key, l);
            }
            assert forall|l: int| 0 <= l < l2.len() implies
                (mf[#[trigger] l2[l][owner(mf, l2[l], key)]].key == key <==> l < c.len()) by {
                assert forall|x: NodeId| #[trigger] mf.contains_key(x) implies mf[x].key == m1[x].key by {}
                assert(heads_ok(m1, self.heads@));
                lemma_ins_tower_level(m1, mf, self.heads@, lv, bs, o, c, key, l);
            }
        }
        self.levels = Ghost(l2);
        self.bounds = Ghost(b2);
    }
}


impl<V: VectorCommitment> Ibsl<V> {
    /// There is room to insert `k`: it is a member (the insert changes
    /// nothing), or node ids for a full tower are left and each node above
    /// the base on `k`'s path that the new tower can end under can take one
    /// more child. The tower's top ends under the path node of level `l + 1`
    /// only if the coin flips 1 .. `l - 1` from the current coin state all
    /// promote, so only those nodes need room.
    pub closed spec fn insert_fits(&self, k: u64) -> bool {
        ||| self@.contains(k)
        ||| {
            &&& self.next_id + MAX_HEIGHT < usize::MAX
            &&& forall|l: int| 1 <= l < self.heads@.len()
                && (forall|i: int| 1 <= i < l ==> #[trigger] rng_after(self.rng, i as nat) < self.promote_threshold)
                ==> #[trigger] self.nodes@[self.path_node(l, Key::Val(k))].children@.len() < MAX_FANOUT
        }
    }

    /// Links a new leaf for the absent `key` into the base list, right after
    /// its predecessor, found by moving right from `start`.
    #[verifier::spinoff_prover]
    fn insert_leaf(&mut self, key: Key, start: NodeId) -> (leaf: NodeId)
        requires
            old(self).wf(),
            key is Val,
            forall|x: NodeId| #[trigger] old(self).nodes@.contains_key(x) ==> old(self).nodes@[x].key != key,
            old(self).nodes@.contains_key(start),
            old(self).nodes@[start].level == 1,
            rank(old(self).nodes@[start].key) < rank(key),
            old(self).next_id < usize::MAX,
        ensures
            leaf == old(self).next_id,
            final(self).next_id == old(self).next_id + 1,
            !old(self).nodes@.contains_key(leaf),
            final(self).nodes@.dom() == old(self).nodes@.dom().insert(leaf),
            final(self).nodes@[leaf].key == key,
            final(self).nodes@[leaf].level == 1,
            final(self).nodes@[leaf].children@.len() == 0,
            forall|x: NodeId| #[trigger] old(self).nodes@.contains_key(x) ==> same_but_right(final(self).nodes@[x], old(self).nodes@[x]),
            ptrs_ok(final(self).nodes@, old(self).heads@.len() as int),
            heads_ok(final(self).nodes@, old(self).heads@),
            base_ok(final(self).nodes@, old(self).levels@[0].insert(owner(old(self).nodes@, old(self).levels@[0], key) + 1, leaf)),
            final(self).vc == old(self).vc,
            final(self).heads@ == old(self).heads@,
            final(self).levels == old(self).levels,
            final(self).bounds == old(self).bounds,
            final(self).rng == old(self).rng,
            final(self).promote_threshold == old(self).promote_threshold,
    {
        let ghost m0 = self.nodes@;
        let ghost heads = self.heads@;
        let ghost h = heads.len() as int;
        let ghost base0 = self.levels@[0];
        let pred = self.scan_right(start, 1, key);
        let ghost o0 = owner(m0, base0, key);
        proof {
            reveal(base_ok);
            reveal(levels_ok);
            assert(base0.contains(pred));
            let i = choose|i: int| 0 <= i < base0.len() && base0[i] == pred;
            assert(i < base0.len() - 1) by {
                if i == base0.len() - 1 {
                    assert(m0[base0[i]].key == Key::PosInf);
                }
            }
            assert(m0[pred].right == Some(base0[i + 1]));
            assert(m0.contains_key(base0[i + 1]));
            lemma_rank_injective(m0[base0[i + 1]].key, key);
            assert(is_owner(m0, base0, i, key));
            assert(level_seq_ok(m0, base0, 1));
            lemma_owner_unique(m0, base0, 1, i, key);
        }
        let mut leaf = Node::new(key, 1);
        leaf.right = self.nodes.get(&pred).unwrap().right;
        let ghost leafn = leaf;
        let leaf = self.alloc_node(leaf);
        let ghost ma = self.nodes@;
        self.set_right(pred, Some(leaf));
        proof {
            let m = self.nodes@;
            reveal(base_ok);
            assert(base0[o0] == pred);
            assert(node_ptr_ok(ma, leaf, h)) by {
                reveal(heads_ok);
                assert(ma[leaf] == leafn);
                assert(m0.contains_key(base0[o0 + 1]));
                assert(ma.contains_key(base0[o0 + 1]));
                assert(is_owner(m0, base0, o0, key));
                assert(ma[base0[o0 + 1]] == m0[base0[o0 + 1]]);
            }
            lemma_ptrs_insert(m0, leaf, leafn, h);
            lemma_ptrs_set_right(ma, pred, Some(leaf), h);
            assert(m.dom() =~= m0.dom().insert(leaf));
            lemma_base_splice(m0, m, base0, o0, leaf, key);
            assert(heads_ok(m, heads)) by {
                reveal(heads_ok);
                assert forall|l: int| 0 <= l < heads.len() implies #[trigger] m.contains_key(heads[l]) && m[heads[l]].level == l + 1
                    && m[heads[l]].key == Key::NegInf by {
                    assert(m0.contains_key(heads[l]));
                }
                assert forall|id: NodeId| #[trigger] m.contains_key(id) && m[id].level == heads.len() implies id == heads[heads.len() - 1] by {
                    if id != leaf {
                        assert(m0.contains_key(id));
                    }
                }
            }
        }
        leaf
    }

    /// Grows `key`'s tower over `leaf` by coin flips: at each level a
    /// promotion either splices a new node between two nodes of that level,
    /// or, where the new node would end its level, is dismissed and its
    /// predecessor points down to the tower instead (a shortcut).
    /// Returns the tower, the leaf first.
    #[verifier::spinoff_prover]
    fn grow_tower(
        &mut self,
        key: Key,
        pred_at: &Vec<Option<NodeId>>,
        leaf: NodeId,
        Ghost(m0): Ghost<Map<NodeId, Node<V>>>,
        Ghost(base1): Ghost<Seq<NodeId>>,
    ) -> (created: Vec<NodeId>)
        requires
            2 <= old(self).heads@.len() <= MAX_HEIGHT,
            ptrs_ok(old(self).nodes@, old(self).heads@.len() as int),
            heads_ok(old(self).nodes@, old(self).heads@),
            base_ok(old(self).nodes@, base1),
            key is Val,
            old(self).nodes@.contains_key(leaf),
            old(self).nodes@[leaf].level == 1,
            old(self).nodes@[leaf].key == key,
            old(self).nodes@[leaf].children@.len() == 0,
            forall|x: NodeId| #[trigger] m0.contains_key(x) ==> old(self).nodes@.contains_key(x) && same_but_right(old(self).nodes@[x], m0[x]),
            forall|x: NodeId| #[trigger] old(self).nodes@.contains_key(x) && !m0.contains_key(x)
                ==> old(self).nodes@[x].key == key && old(self).nodes@[x].level < 2,
            forall|x: NodeId| #[trigger] old(self).nodes@.contains_key(x) ==> x < old(self).next_id,
            old(self).next_id + MAX_HEIGHT <= usize::MAX,
            forall|x: NodeId| #[trigger] m0.contains_key(x) ==> m0[x].key != key,
            pred_at@.len() == old(self).heads@.len(),
            forall|l: int| 0 <= l < pred_at@.len() ==> (#[trigger] pred_at@[l] matches Some(p) ==> {
                &&& m0.contains_key(p)
                &&& m0[p].level == l + 1
                &&& rank(m0[p].key) <= rank(key)
            }),
        ensures
            1 <= created@.len() < old(self).heads@.len(),
            created@[0] == leaf,
            forall|j: int| 0 <= j < created@.len() ==> #[trigger] final(self).nodes@.contains_key(created@[j])
                && final(self).nodes@[created@[j]].level == j + 1
                && final(self).nodes@[created@[j]].key == key
                && final(self).nodes@[created@[j]].children@.len() == 0,
            ptrs_ok(final(self).nodes@, old(self).heads@.len() as int),
            heads_ok(final(self).nodes@, old(self).heads@),
            base_ok(final(self).nodes@, base1),
            forall|x: NodeId| #[trigger] m0.contains_key(x) ==> final(self).nodes@.contains_key(x) && same_but_right(final(self).nodes@[x], m0[x]),
            forall|x: NodeId| #[trigger] final(self).nodes@.contains_key(x) ==> x < final(self).next_id,
            final(self).vc == old(self).vc,
            final(self).heads@ == old(self).heads@,
            final(self).levels == old(self).levels,
            final(self).bounds == old(self).bounds,
            final(self).promote_threshold == old(self).promote_threshold,
            final(self).next_id <= old(self).next_id + old(self).heads@.len() - 2,
            coins_promote(old(self).rng, old(self).promote_threshold, created@.len() - 1),
            final(self).rng == rng_after(old(self).rng, created@.len() as nat),
    {
        let ghost heads = self.heads@;
        let ghost h = heads.len() as int;
        let mut created: Vec<NodeId> = Vec::new();
        created.push(leaf);
        let mut below = leaf;
        let mut lvl: usize = 2;
        proof {
            assert(rng_after(old(self).rng, 0) == old(self).rng) by {
                reveal(rng_after);
            }
            assert(coins_promote(old(self).rng, old(self).promote_threshold, 0)) by {
                reveal(coins_promote);
            }
        }
        // Promote: flip b in {0,1} until b = 0.
        loop
            invariant_except_break
                self.rng == rng_after(old(self).rng, (lvl - 2) as nat),
            invariant
                coins_promote(old(self).rng, old(self).promote_threshold, lvl - 2),
                self.vc == old(self).vc,
                self.heads@ == heads,
                self.levels == old(self).levels,
                self.bounds == old(self).bounds,
                self.promote_threshold == old(self).promote_threshold,
                h == heads.len(),
                2 <= h <= MAX_HEIGHT,
                ptrs_ok(self.nodes@, h),
                heads_ok(self.nodes@, heads),
                base_ok(self.nodes@, base1),
                key is Val,
                2 <= lvl <= h,
                created@.len() == lvl - 1,
                below == created@[lvl - 2],
                created@[0] == leaf,
                forall|j: int| 0 <= j < created@.len() ==> #[trigger] self.nodes@.contains_key(created@[j])
                    && self.nodes@[created@[j]].level == j + 1
                    && self.nodes@[created@[j]].key == key
                    && self.nodes@[created@[j]].children@.len() == 0,
                forall|x: NodeId| #[trigger] m0.contains_key(x) ==> self.nodes@.contains_key(x) && same_but_right(self.nodes@[x], m0[x]),
                forall|x: NodeId| #[trigger] self.nodes@.contains_key(x) && !m0.contains_key(x)
                    ==> self.nodes@[x].key == key && self.nodes@[x].level < lvl,
                forall|x: NodeId| #[trigger] self.nodes@.contains_key(x) ==> x < self.next_id,
                self.next_id + (h - lvl + 1) < usize::MAX,
                self.next_id <= old(self).next_id + lvl - 2,
                forall|x: NodeId| #[trigger] m0.contains_key(x) ==> m0[x].key != key,
                pred_at@.len() == h,
                forall|l: int| 0 <= l < pred_at@.len() ==> (#[trigger] pred_at@[l] matches Some(p) ==> {
                    &&& m0.contains_key(p)
                    &&& m0[p].level == l + 1
                    &&& rank(m0[p].key) <= rank(key)
                }),
            ensures
                self.rng == rng_after(old(self).rng, created@.len() as nat),
            decreases h - lvl,
        {
            if lvl > MAX_HEIGHT {
                break;
            }
            let promote = self.coin();
            proof {
                assert(self.rng == rng_after(old(self).rng, (lvl - 1) as nat)) by {
                    reveal(rng_after);
                }
            }
            if !promote {
                break;
            }
            proof {
                assert(self.rng == rng_after(old(self).rng, (lvl - 1) as nat)) by {
                    reveal(rng_after);
                }
                lemma_coins_promote_step(old(self).rng, old(self).promote_threshold, lvl - 2);
            }
            let ghost m = self.nodes@;
            // Predecessor of the key at this level.
            let start = match pred_at[lvl - 1] {
                Some(p) => p,
                None => self.heads[lvl - 1],
            };
            proof {
                reveal(heads_ok);
                assert(m.contains_key(heads[lvl - 1]));
                assert(m[heads[lvl - 1]].level == lvl && m[heads[lvl - 1]].key == Key::NegInf);
                if let Some(p) = pred_at@[lvl - 1] {
                    assert(m0.contains_key(p));
                    lemma_rank_injective(m0[p].key, key);
                }
            }
            let pred = self.scan_right(start, lvl, key);
            proof {
                reveal(ptrs_ok);
                assert(node_ptr_ok(m, pred, h));
                assert(m0.contains_key(pred));
            }
            let r = self.nodes.get(&pred).unwrap().right;
            let same_level = match r {
                Some(x) => self.nodes.get(&x).unwrap().level == lvl,
                None => false,
            };
            if same_level {
                // A splice between two same-level nodes.
                let x = r.unwrap();
                proof {
                    assert(m0.contains_key(x));
                    lemma_rank_injective(m0[x].key, key);
                    assert(lvl < h) by {
                        reveal(heads_ok);
                        if lvl == h {
                            assert(pred == heads[h - 1]);
                            assert(x == heads[h - 1]);
                        }
                    }
                }
                let mut c = Node::new(key, lvl);
                c.right = r;
                c.down = Some(below);
                let ghost cn = c;
                let c = self.alloc_node(c);
                let ghost mc = self.nodes@;
                self.set_right(pred, Some(c));
                proof {
                    let m2 = self.nodes@;
                    assert(m.contains_key(below));
                    assert(node_ptr_ok(mc, c, h)) by {
                        assert(mc[c] == cn);
                        assert(mc.contains_key(x));
                        assert(mc.contains_key(below));
                    }
                    lemma_ptrs_insert(m, c, cn, h);
                    lemma_ptrs_set_right(mc, pred, Some(c), h);
                    reveal(base_ok);
                    assert forall|i: int| 0 <= i < base1.len() implies m2.contains_key(#[trigger] base1[i]) && m2[base1[i]] == m[base1[i]] by {
                        assert(m.contains_key(base1[i]));
                    }
                    lemma_base_frame(m, m2, base1);
                    assert(heads_ok(m2, heads)) by {
                        reveal(heads_ok);
                        assert forall|l: int| 0 <= l < heads.len() implies #[trigger] m2.contains_key(heads[l]) && m2[heads[l]].level == l + 1
                            && m2[heads[l]].key == Key::NegInf by {
                            assert(m.contains_key(heads[l]));
                        }
                        assert forall|id: NodeId| #[trigger] m2.contains_key(id) && m2[id].level == heads.len() implies id == heads[heads.len() - 1] by {
                            assert(m.contains_key(id));
                        }
                    }
                    assert forall|j: int| 0 <= j < created@.len() implies #[trigger] m2.contains_key(created@[j]) && m2[created@[j]] == m[created@[j]] by {
                        assert(m.contains_key(created@[j]));
                    }
                }
                created.push(c);
                below = c;
            } else {
                // A shortcut: the extension would be the rightmost node of this
                // level, i.e. immediately redundant. It is dismissed and the
                // predecessor shortcuts down to the copy below.
                proof {
                    assert(m.contains_key(below));
                    assert(m[below].level == lvl - 1);
                }
                self.set_right(pred, Some(below));
                proof {
                    let m2 = self.nodes@;
                    lemma_ptrs_set_right(m, pred, Some(below), h);
                    reveal(base_ok);
                    assert forall|i: int| 0 <= i < base1.len() implies m2.contains_key(#[trigger] base1[i]) && m2[base1[i]] == m[base1[i]] by {
                        assert(m.contains_key(base1[i]));
                    }
                    lemma_base_frame(m, m2, base1);
                    assert(heads_ok(m2, heads)) by {
                        reveal(heads_ok);
                        assert forall|l: int| 0 <= l < heads.len() implies #[trigger] m2.contains_key(heads[l]) && m2[heads[l]].level == l + 1
                            && m2[heads[l]].key == Key::NegInf by {
                            assert(m.contains_key(heads[l]));
                        }
                    }
                }
                break;
            }
            lvl = lvl + 1;
        }
        created
    }

    // --------------------------------------------------------- Insert (A.3)

    /// Adds `k` to the set (nothing happens if it is a member): a new leaf
    /// behind its predecessor on the base list, a tower of extensions grown
    /// by coin flips, then commitments recomputed along `k`'s path only.
    /// A tower of `t` levels took `t` coin flips from the coin state, the
    /// first `t - 1` of which promoted.
    #[verifier::spinoff_prover]
    pub fn insert(&mut self, k: u64)
        requires
            old(self).wf(),
            old(self).insert_fits(k),
        ensures
            final(self).wf(),
            final(self)@ == old(self)@.insert(k),
            final(self).params() == old(self).params(),
            final(self).spec_height() == old(self).spec_height(),
            final(self).spec_threshold() == old(self).spec_threshold(),
            final(self).spec_ids_used() <= old(self).spec_ids_used() + MAX_HEIGHT,
            old(self)@.contains(k) ==> *final(self) == *old(self),
            old(self).keeps_off_path(*final(self), k),
            !old(self)@.contains(k) ==> final(self).delete_fits(k),
            !old(self)@.contains(k) ==> exists|t: int| #![trigger rng_after(old(self).spec_rng(), t as nat)] {
                &&& 1 <= t < final(self).spec_height()
                &&& forall|l: int| 0 <= l < final(self).spec_height() ==> (#[trigger] final(self).has_tower_node(l, k) <==> l < t)
                &&& forall|i: int| 1 <= i < t ==> #[trigger] rng_after(old(self).spec_rng(), i as nat) < old(self).spec_threshold()
                &&& final(self).spec_rng() == rng_after(old(self).spec_rng(), t as nat)
            },
    {
        let key = Key::Val(k);
        if self.search(k) {
            proof {
                assert(old(self)@.insert(k) =~= old(self)@);
                self.lemma_keeps_self(k);
            }
            return;
        }
        let ghost m0 = self.nodes@;
        let ghost heads = self.heads@;
        let ghost h = heads.len() as int;
        let ghost lv = self.levels@;
        let ghost bs = self.bounds@;
        let ghost base0 = lv[0];
        let ghost vc = self.vc;
        proof {
            reveal(heads_ok);
            assert forall|x: NodeId| #[trigger] m0.contains_key(x) implies m0[x].key != key by {
                if m0[x].key == key {
                    lemma_key_in_base(m0, h, base0, x, k);
                }
            }
        }
        // Walk the search path, remembering the last node visited per level
        // (the standard skip-list update array).
        let pred_at = self.search_preds(key);
        proof {
            let p0 = pred_at@[0]->0;
            assert(m0.contains_key(p0));
            lemma_rank_injective(m0[p0].key, key);
        }
        // Insert the leaf at L_1 behind its predecessor.
        let leaf = self.insert_leaf(key, pred_at[0].unwrap());
        let ghost o0 = owner(m0, base0, key);
        let ghost base1 = base0.insert(o0 + 1, leaf);
        // k's tower, bottom-up: the leaf plus every spliced extension.
        let created = self.grow_tower(key, &pred_at, leaf, Ghost(m0), Ghost(base1));
        let ghost m1 = self.nodes@;
        let ghost t = created@.len() as int;
        proof {
            assert forall|l: int| 0 <= l < lv.len() implies owner(m1, #[trigger] lv[l], key) == owner(m0, lv[l], key) by {
                lemma_ins_ready(m0, m1, heads, lv, bs, key, l);
            }
            lemma_links_frame(vc, m0, m1, heads, lv, bs);
            lemma_ins_ready(m0, m1, heads, lv, bs, key, t);
            lemma_ins_ready(m0, m1, heads, lv, bs, key, 0);
            assert(forall|i: int| 1 <= i < t ==> #[trigger] rng_after(old(self).rng, i as nat) < old(self).promote_threshold) by {
                reveal(coins_promote);
            }
            assert(old(self).nodes@[old(self).path_node(t, key)].children@.len() < MAX_FANOUT);
        }
        self.recompute_insert(key, &created);
        proof {
            let mf = self.nodes@;
            lemma_shape_keeps(m1, mf, heads, base1);
            assert(self.levels@[0] == base1);
            assert forall|x: NodeId| #[trigger] mf.contains_key(x) implies x < self.next_id by {
                assert(m1.contains_key(x));
            }
            // the view: the old keys and k
            assert(m1.contains_key(created@[0]));
            assert(mf[leaf].key == key);
            assert forall|v: u64| #[trigger] self@.contains(v) <==> old(self)@.insert(k).contains(v) by {
                reveal(base_ok);
                base0.insert_ensures(o0 + 1, leaf);
                if self@.contains(v) {
                    let i = choose|i: int| 0 <= i < base1.len() && #[trigger] mf[base1[i]].key == Key::Val(v);
                    if i != o0 + 1 {
                        let q = if i <= o0 { i } else { i - 1 };
                        assert(base1[i] == base0[q]);
                        assert(m0.contains_key(base0[q]));
                        assert(m1.contains_key(base0[q]));
                        assert(m0[base0[q]].key == Key::Val(v));
                    }
                }
                if old(self)@.insert(k).contains(v) {
                    if v == k {
                        assert(mf[base1[o0 + 1]].key == Key::Val(v));
                    } else {
                        let q = choose|q: int| 0 <= q < base0.len() && #[trigger] m0[base0[q]].key == Key::Val(v);
                        let i = if q <= o0 { q } else { q + 1 };
                        assert(base1[i] == base0[q]);
                        assert(m0.contains_key(base0[q]));
                        assert(m1.contains_key(base0[q]));
                        assert(mf[base1[i]].key == Key::Val(v));
                    }
                }
            }
            assert(self@ =~= old(self)@.insert(k));
            assert forall|l: int, q: int| #![trigger lv[l][q]] 0 <= l < lv.len() && 0 <= q < lv[l].len() && q != owner(m0, lv[l], key)
                implies mf.contains_key(lv[l][q]) && mf[lv[l][q]].commitment == m0[lv[l][q]].commitment
                && mf[lv[l][q]].opener == m0[lv[l][q]].opener by {
                reveal(levels_ok);
                assert(level_seq_ok(m0, lv[l], l + 1));
                assert(m0.contains_key(lv[l][q]));
                assert(owner(m1, lv[l], key) == owner(m0, lv[l], key));
                assert(mf.contains_key(lv[l][q]) && mf[lv[l][q]] == m1[lv[l][q]]);
            }
            assert(self.heads@.len() == self.levels@.len()) by {
                reveal(levels_ok);
            }
            self.lemma_delete_fits_intro(k);
            assert forall|l: int| 0 <= l < self.spec_height() implies (#[trigger] self.has_tower_node(l, k) <==> l < t) by {
                assert(self.levels@.len() == self.heads@.len());
            }
            assert(self.rng == rng_after(old(self).rng, t as nat));
            assert(self.spec_rng() == rng_after(old(self).spec_rng(), t as nat));
        }
    }
}

} // verus!
