//! Removing a key: the tower leaves its levels, the predecessors absorb
//! its children, and commitments are recomputed along the key's path.

use vstd::prelude::*;
use super::{
    key_eq, lemma_ptrs_set_right,
    Ibsl, Node, NodeId, Key, rank, MAX_FANOUT, ptrs_ok, node_ptr_ok, levels_ok, level_seq_ok,
    children_ok, committed, node_vals, commits_ok, fanout_ok, heads_ok, base_ok, base_keys, is_owner, owner,
    owner_idx, shift_bounds, shape_same, same_but_right, lemma_kids_clean, lemma_committed_frame,
    lemma_owner_exists, lemma_owner_descends, lemma_rank_injective,
    lemma_key_in_base, lemma_same_children, lemma_shape_keeps,
};
use crate::vc::{copy_slice, VectorCommitment};

verus! {

/// The levels after a delete whose tower has `t` nodes: each tower node
/// leaves its level.
spec fn del_levels(lv: Seq<Seq<NodeId>>, o: Seq<int>, t: int) -> Seq<Seq<NodeId>> {
    Seq::new(lv.len(), |j: int| if j < t { lv[j].remove(o[j]) } else { lv[j] })
}

/// Run boundaries after the node at position `o` of the upper level leaves
/// and its predecessor takes over its run but for the run's first node.
spec fn merge_bounds(b: Seq<int>, o: int) -> Seq<int> {
    Seq::new((b.len() - 1) as nat, |i: int| if i < o { b[i] } else { b[i + 1] - 1 })
}

/// The run boundaries after a delete whose tower has `t` nodes.
spec fn del_bounds(bs: Seq<Seq<int>>, o: Seq<int>, t: int) -> Seq<Seq<int>> {
    Seq::new(bs.len(), |j: int| if 1 <= j < t {
        merge_bounds(bs[j], o[j])
    } else if j == t {
        shift_bounds(bs[j], o[j], -1)
    } else {
        bs[j]
    })
}

/// A tower level of a delete: the tower node leaves, and its predecessor
/// takes its children but for the tower node below, which leaves too.
#[verifier::spinoff_prover]
proof fn lemma_merge_children<V: VectorCommitment>(
    m: Map<NodeId, Node<V>>,
    m2: Map<NodeId, Node<V>>,
    up: Seq<NodeId>,
    low: Seq<NodeId>,
    b: Seq<int>,
    ou: int,
)
    requires
        children_ok(m, up, low, b),
        1 <= ou < up.len(),
        forall|i: int| 0 <= i < up.len() && i != ou - 1 && i != ou ==> #[trigger] m2[up[i]].children@ == m[up[i]].children@,
        forall|i: int| 0 <= i < up.len() && i != ou ==> #[trigger] m2[up[i]].key == m[up[i]].key,
        forall|q: int| 0 <= q < low.len() && q != b[ou] ==> #[trigger] m2[low[q]].key == m[low[q]].key,
        m2[up[ou - 1]].children@ == low.subrange(b[ou - 1], b[ou]) + low.subrange(b[ou] + 1, b[ou + 1]),
    ensures
        children_ok(m2, up.remove(ou), low.remove(b[ou]), merge_bounds(b, ou)),
{
    let up2 = up.remove(ou);
    let low2 = low.remove(b[ou]);
    let b2 = merge_bounds(b, ou);
    let ol = b[ou];
    up.remove_ensures(ou);
    assert(b[0] <= b[ou - 1]);
    assert(b[ou] < b[up.len() as int]);
    low.remove_ensures(ol);
    assert(b2[up2.len() as int] == low2.len()) by {
        assert(b[up.len() as int] == low.len());
    }
    assert forall|i: int, j: int| 0 <= i < j <= up2.len() implies #[trigger] b2[i] < #[trigger] b2[j] by {
        if j < ou {
            assert(b[i] < b[j]);
        } else if i < ou {
            assert(b[i] < b[ou]);
            assert(b[ou] < b[ou + 1]);
            assert(b[ou + 1] <= b[j + 1]);
        } else {
            assert(b[i + 1] < b[j + 1]);
        }
    }
    assert forall|i: int| 0 <= i < up2.len() implies #[trigger] m2[up2[i]].children@ == low2.subrange(b2[i], b2[i + 1]) by {
        if i < ou - 1 {
            assert(b[0] <= b[i]);
            assert(b[i + 1] <= b[ou - 1]);
            assert(m[up[i]].children@ == low.subrange(b[i], b[i + 1]));
            assert(low2.subrange(b2[i], b2[i + 1]) =~= low.subrange(b[i], b[i + 1]));
        } else if i == ou - 1 {
            assert(b[ou + 1] <= b[up.len() as int]);
            assert(low2.subrange(b2[i], b2[i + 1]) =~= low.subrange(b[ou - 1], b[ou]) + low.subrange(b[ou] + 1, b[ou + 1]));
        } else {
            assert(up2[i] == up[i + 1]);
            assert(b[ou + 1] <= b[i + 1]);
            assert(b[i + 2] <= b[up.len() as int]);
            assert(m[up[i + 1]].children@ == low.subrange(b[i + 1], b[i + 2]));
            assert(low2.subrange(b2[i], b2[i + 1]) =~= low.subrange(b[i + 1], b[i + 2]));
        }
    }
    assert forall|i: int| 0 <= i < up2.len() implies m2[low2[#[trigger] b2[i]]].key == m2[up2[i]].key by {
        if i < ou {
            assert(b[0] <= b[i]);
            assert(b[i] < b[ou]);
            assert(m[low[b[i]]].key == m[up[i]].key);
        } else {
            assert(b[ou + 1] <= b[i + 1]);
            assert(b[i + 1] < b[up.len() as int]);
            assert(m[low[b[i + 1]]].key == m[up[i + 1]].key);
            assert(b[i + 1] != b[ou]);
        }
    }
}

/// The level above a delete's tower: its owner loses the tower top.
#[verifier::spinoff_prover]
proof fn lemma_shrink_children<V: VectorCommitment>(
    m: Map<NodeId, Node<V>>,
    m2: Map<NodeId, Node<V>>,
    up: Seq<NodeId>,
    low: Seq<NodeId>,
    b: Seq<int>,
    ou: int,
    ol: int,
)
    requires
        children_ok(m, up, low, b),
        0 <= ou < up.len(),
        b[ou] < ol < b[ou + 1],
        forall|i: int| 0 <= i < up.len() && i != ou ==> #[trigger] m2[up[i]].children@ == m[up[i]].children@,
        forall|i: int| 0 <= i < up.len() ==> #[trigger] m2[up[i]].key == m[up[i]].key,
        forall|q: int| 0 <= q < low.len() && q != ol ==> #[trigger] m2[low[q]].key == m[low[q]].key,
        m2[up[ou]].children@ == m[up[ou]].children@.remove(ol - b[ou]),
    ensures
        children_ok(m2, up, low.remove(ol), shift_bounds(b, ou, -1)),
{
    let low2 = low.remove(ol);
    let b2 = shift_bounds(b, ou, -1);
    assert(b[0] <= b[ou]);
    assert(b[ou + 1] <= b[up.len() as int]);
    low.remove_ensures(ol);
    assert(b2[up.len() as int] == low2.len()) by {
        assert(b[up.len() as int] == low.len());
    }
    assert forall|i: int, j: int| 0 <= i < j <= up.len() implies #[trigger] b2[i] < #[trigger] b2[j] by {
        assert(b[i] < b[j]);
        if i <= ou && j == ou + 1 {
            assert(b[i] <= b[ou]);
        }
    }
    assert forall|i: int| 0 <= i < up.len() implies #[trigger] m2[up[i]].children@ == low2.subrange(b2[i], b2[i + 1]) by {
        assert(b[0] <= b[i]);
        assert(m[up[i]].children@ == low.subrange(b[i], b[i + 1]));
        if i < ou {
            assert(b[i + 1] <= b[ou]);
            assert(low2.subrange(b2[i], b2[i + 1]) =~= low.subrange(b[i], b[i + 1]));
        } else if i == ou {
            assert(low2.subrange(b2[i], b2[i + 1]) =~= low.subrange(b[ou], b[ou + 1]).remove(ol - b[ou]));
        } else {
            assert(b[ou + 1] <= b[i]);
            if i + 1 < up.len() {
                assert(b[i + 1] <= b[up.len() as int]);
            }
            assert(low2.subrange(b2[i], b2[i + 1]) =~= low.subrange(b[i], b[i + 1]));
        }
    }
    assert forall|i: int| 0 <= i < up.len() implies m2[low2[#[trigger] b2[i]]].key == m2[up[i]].key by {
        assert(b[0] <= b[i]);
        assert(b[i] < b[up.len() as int]);
        assert(m[low[b[i]]].key == m[up[i]].key);
        if i > ou {
            assert(b[ou + 1] <= b[i]);
        }
        assert(b[i] != ol) by {
            if i <= ou {
                assert(b[i] <= b[ou]);
            } else {
                assert(b[ou + 1] <= b[i]);
            }
        }
    }
}

/// Dropping a node from a level keeps it in key order.
#[verifier::spinoff_prover]
proof fn lemma_level_remove<V: VectorCommitment>(
    m: Map<NodeId, Node<V>>,
    m2: Map<NodeId, Node<V>>,
    s: Seq<NodeId>,
    lvl: int,
    o: int,
)
    requires
        level_seq_ok(m, s, lvl),
        1 <= o < s.len(),
        forall|q: int| 0 <= q < s.len() && q != o ==> #[trigger] m2.contains_key(s[q]) && m2[s[q]].key == m[s[q]].key && m2[s[q]].level == m[s[q]].level,
    ensures
        level_seq_ok(m2, s.remove(o), lvl),
        s.remove(o)[0] == s[0],
{
    let s2 = s.remove(o);
    s.remove_ensures(o);
    assert forall|i: int| 0 <= i < s2.len() implies #[trigger] m2.contains_key(s2[i]) && m2[s2[i]].level == lvl
        && m2[s2[i]].key == m[s2[i]].key
        && (i < o ==> s2[i] == s[i]) && (i >= o ==> s2[i] == s[i + 1]) by {
        if i < o {
            assert(m2.contains_key(s[i]));
            assert(m.contains_key(s[i]));
        } else {
            assert(m2.contains_key(s[i + 1]));
            assert(m.contains_key(s[i + 1]));
        }
    }
    assert forall|i: int, j: int| 0 <= i < j < s2.len() implies rank(m2[#[trigger] s2[i]].key) < rank(m2[#[trigger] s2[j]].key) by {
        assert(m2.contains_key(s2[i]));
        assert(m2.contains_key(s2[j]));
        let a = if i < o { i } else { i + 1 };
        let c = if j < o { j } else { j + 1 };
        assert(rank(m[s[a]].key) < rank(m[s[c]].key));
    }
}

/// A commit pass over nodes whose children are already final: at level
/// index `i`, positions `lo[i] ..= hi[i]` hold stale commitments, and the
/// run of every other node avoids the stale positions one level down.
#[verifier::opaque]
spec fn path_shape<V: VectorCommitment>(
    m2: Map<NodeId, Node<V>>,
    heads: Seq<NodeId>,
    lv: Seq<Seq<NodeId>>,
    bs: Seq<Seq<int>>,
    lo: Seq<int>,
    hi: Seq<int>,
) -> bool {
    &&& levels_ok(m2, heads, lv, bs)
    &&& lo.len() == lv.len()
    &&& hi.len() == lv.len()
    &&& forall|i: int| 1 <= i < lv.len() ==> 0 <= #[trigger] lo[i] <= hi[i] < lv[i].len()
    &&& forall|i: int| #![trigger lo[i]] 1 <= i < lv.len() ==> hi[i - 1] < 0
        || (bs[i][lo[i]] <= lo[i - 1] && bs[i][hi[i] + 1] > hi[i - 1])
}

/// The commit pass has finished the levels below index `j`: they and every
/// untouched node are committed, only commitments changed, and nothing at
/// or above index `j` changed yet.
#[verifier::opaque]
spec fn path_done<V: VectorCommitment>(
    vc: V,
    m2: Map<NodeId, Node<V>>,
    m: Map<NodeId, Node<V>>,
    lv: Seq<Seq<NodeId>>,
    lo: Seq<int>,
    hi: Seq<int>,
    j: int,
) -> bool {
    &&& m.dom() == m2.dom()
    &&& forall|x: NodeId| #[trigger] m.contains_key(x) ==> m[x].same_but_commitment(m2[x]) && m[x].interval.0 == m2[x].interval.0
    &&& forall|x: NodeId| #[trigger] m.contains_key(x) && m2[x].level > j ==> m[x] == m2[x]
    &&& forall|i: int, q: int| 0 <= i < lv.len() && 0 <= q < lv[i].len() && (i < j || q < lo[i] || q > hi[i])
        ==> committed(vc, m, #[trigger] lv[i][q])
}

/// A node's commitment status reads only its own commitment fields and its
/// children's commitments.
proof fn lemma_committed_fields<V: VectorCommitment>(vc: V, m: Map<NodeId, Node<V>>, m2: Map<NodeId, Node<V>>, x: NodeId)
    requires
        committed(vc, m, x),
        m[x].level == m2[x].level,
        m[x].key == m2[x].key,
        m[x].children == m2[x].children,
        m[x].commitment == m2[x].commitment,
        m[x].opener == m2[x].opener,
        m[x].level != 1 ==> forall|q: int| 0 <= q < m[x].children@.len()
            ==> m2[#[trigger] m[x].children@[q]].commitment == m[m[x].children@[q]].commitment,
    ensures
        committed(vc, m2, x),
{
    if m[x].level != 1 {
        assert(node_vals(m2, x) =~= node_vals(m, x));
    }
}

/// Recommitting the one stale node of level index `j`, whose children are
/// all committed, finishes that level.
#[verifier::spinoff_prover]
#[verifier::rlimit(30)]
proof fn lemma_path_step<V: VectorCommitment>(
    vc: V,
    m2: Map<NodeId, Node<V>>,
    m: Map<NodeId, Node<V>>,
    m3: Map<NodeId, Node<V>>,
    heads: Seq<NodeId>,
    lv: Seq<Seq<NodeId>>,
    bs: Seq<Seq<int>>,
    lo: Seq<int>,
    hi: Seq<int>,
    j: int,
)
    requires
        path_shape(m2, heads, lv, bs, lo, hi),
        path_done(vc, m2, m, lv, lo, hi, j),
        1 <= j < lv.len(),
        lo[j] == hi[j],
        m3.dom() == m.dom(),
        forall|x: NodeId| x != lv[j][lo[j]] ==> #[trigger] m3[x] == m[x],
        m3[lv[j][lo[j]]].same_but_commitment(m[lv[j][lo[j]]]),
        m3[lv[j][lo[j]]].interval.0 == m[lv[j][lo[j]]].interval.0,
        committed(vc, m3, lv[j][lo[j]]),
    ensures
        path_done(vc, m2, m3, lv, lo, hi, j + 1),
{
    reveal(path_shape);
    reveal(path_done);
    reveal(levels_ok);
    let x = lv[j][lo[j]];
    assert(level_seq_ok(m2, lv[j], j + 1));
    assert(m2.contains_key(x));
    assert forall|i: int, q: int| 0 <= i < lv.len() && 0 <= q < lv[i].len() && (i < j + 1 || q < lo[i] || q > hi[i])
        implies committed(vc, m3, #[trigger] lv[i][q]) by {
        let y = lv[i][q];
        assert(level_seq_ok(m2, lv[i], i + 1));
        assert(m2.contains_key(y));
        if y != x {
            assert(committed(vc, m, y)) by {
                if i == j {
                    assert(q != lo[j]);
                }
            }
            if i >= 1 {
                let b = bs[i];
                assert(children_ok(m2, lv[i], lv[i - 1], b));
                assert(level_seq_ok(m2, lv[i - 1], i));
                assert(b[0] <= b[q]);
                if q + 1 < lv[i].len() {
                    assert(b[q + 1] < b[lv[i].len() as int]);
                }
                assert(m[y].children == m2[y].children);
                assert forall|r: int| 0 <= r < m[y].children@.len() implies m3[#[trigger] m[y].children@[r]] == m[m[y].children@[r]] by {
                    let c = m[y].children@[r];
                    assert(c == lv[i - 1][b[q] + r]);
                    assert(m2.contains_key(c));
                    if c == x {
                        assert(i - 1 == j);
                        assert(lv[j][b[q] + r] == lv[j][lo[j]]);
                        assert(b[q] + r == lo[j]) by {
                            if b[q] + r < lo[j] {
                                assert(rank(m2[lv[j][b[q] + r]].key) < rank(m2[lv[j][lo[j]]].key));
                            } else if b[q] + r > lo[j] {
                                assert(rank(m2[lv[j][lo[j]]].key) < rank(m2[lv[j][b[q] + r]].key));
                            }
                        }
                        // a committed node at the level above whose run holds the stale node
                        assert(i == j + 1);
                        assert(q < lo[i] || q > hi[i]);
                        let bb = bs[i];
                        assert(hi[i - 1] >= 0);
                        assert(bb[lo[i]] <= lo[i - 1] && bb[hi[i] + 1] > hi[i - 1]);
                        lemma_kids_clean(bb, lv[i].len() as int, q, lo[i], hi[i], lo[i - 1], hi[i - 1], b[q] + r);
                    }
                }
            }
            lemma_committed_frame(vc, m, m3, y);
        }
    }
    assert forall|y: NodeId| #[trigger] m3.contains_key(y) && m2[y].level > j + 1 implies m3[y] == m2[y] by {
        if y == x {
            assert(m2[x].level == j + 1);
        }
    }
    assert forall|y: NodeId| #[trigger] m3.contains_key(y) implies m3[y].same_but_commitment(m2[y]) && m3[y].interval.0 == m2[y].interval.0 by {
        assert(m.contains_key(y));
    }
}

/// A level with no stale node is finished as soon as the levels below are.
#[verifier::spinoff_prover]
proof fn lemma_path_skip<V: VectorCommitment>(
    vc: V,
    m2: Map<NodeId, Node<V>>,
    m: Map<NodeId, Node<V>>,
    lv: Seq<Seq<NodeId>>,
    lo: Seq<int>,
    hi: Seq<int>,
    j: int,
)
    requires
        path_done(vc, m2, m, lv, lo, hi, j),
        0 <= j < lv.len(),
        hi[j] < 0,
    ensures
        path_done(vc, m2, m, lv, lo, hi, j + 1),
{
    reveal(path_done);
}


/// What a delete reads of the tree before it starts: the levels and their
/// runs, the owner positions `o` of the key, and the height `t` of its
/// tower: the key's own nodes are the owners below level index `t`.
#[verifier::opaque]
spec fn del_shape<V: VectorCommitment>(
    m0: Map<NodeId, Node<V>>,
    lv: Seq<Seq<NodeId>>,
    bs: Seq<Seq<int>>,
    o: Seq<int>,
    t: int,
    key: Key,
) -> bool {
    &&& bs.len() == lv.len()
    &&& o.len() == lv.len()
    &&& 1 <= t < lv.len()
    &&& forall|j: int| 0 <= j < lv.len() ==> level_seq_ok(m0, #[trigger] lv[j], j + 1)
    &&& forall|j: int| 1 <= j < lv.len() ==> children_ok(m0, #[trigger] lv[j], lv[j - 1], bs[j])
    &&& forall|j: int| 0 <= j < lv.len() ==> #[trigger] is_owner(m0, lv[j], o[j], key)
    &&& forall|j: int| 0 <= j < t ==> m0[lv[j][#[trigger] o[j]]].key == key && 1 <= o[j]
    &&& m0[lv[t][o[t]]].key != key
    &&& forall|j: int| #![trigger bs[j]] 1 <= j < t ==> bs[j][o[j]] == o[j - 1]
    &&& bs[t][o[t]] < o[t - 1] < bs[t][o[t] + 1]
    &&& forall|j: int| #![trigger bs[j]] t < j < lv.len() ==> bs[j][o[j]] <= o[j - 1] < bs[j][o[j] + 1]
    &&& forall|j: int, i: int| 0 <= j < lv.len() && 0 <= i < lv[j].len() && m0[#[trigger] lv[j][i]].key == key
        ==> j < t && i == o[j]
}

/// The sizes a delete's static facts fix.
proof fn lemma_del_shape_len<V: VectorCommitment>(
    m0: Map<NodeId, Node<V>>,
    lv: Seq<Seq<NodeId>>,
    bs: Seq<Seq<int>>,
    o: Seq<int>,
    t: int,
    key: Key,
)
    requires
        del_shape(m0, lv, bs, o, t, key),
    ensures
        bs.len() == lv.len(),
        o.len() == lv.len(),
        1 <= t < lv.len(),
{
    reveal(del_shape);
}

/// In a key-ordered level, a node holding `key` is the owner of `key`.
proof fn lemma_key_is_owner<V: VectorCommitment>(m: Map<NodeId, Node<V>>, s: Seq<NodeId>, lvl: int, o: int, i: int, key: Key)
    requires
        level_seq_ok(m, s, lvl),
        is_owner(m, s, o, key),
        0 <= i < s.len(),
        m[s[i]].key == key,
    ensures
        i == o,
{
    if i < o {
        assert(rank(m[s[i]].key) < rank(m[s[o]].key));
    } else if i > o {
        if o + 1 < i {
            assert(rank(m[s[o + 1]].key) < rank(m[s[i]].key));
        }
    }
}

/// Below an owner that holds the key, the owner one level down holds it
/// too, as the first child.
proof fn lemma_owns_down<V: VectorCommitment>(
    m0: Map<NodeId, Node<V>>,
    heads: Seq<NodeId>,
    lv: Seq<Seq<NodeId>>,
    bs: Seq<Seq<int>>,
    key: Key,
    j: int,
)
    requires
        levels_ok(m0, heads, lv, bs),
        heads_ok(m0, heads),
        lv.len() == heads.len(),
        1 <= j < lv.len(),
        m0[lv[j][owner(m0, lv[j], key)]].key == key,
    ensures
        m0[lv[j - 1][owner(m0, lv[j - 1], key)]].key == key,
        bs[j][owner(m0, lv[j], key)] == owner(m0, lv[j - 1], key),
{
    reveal(levels_ok);
    reveal(heads_ok);
    assert(level_seq_ok(m0, lv[j], j + 1));
    assert(level_seq_ok(m0, lv[j - 1], j));
    assert(children_ok(m0, lv[j], lv[j - 1], bs[j]));
    assert(m0.contains_key(heads[j]));
    lemma_owner_exists(m0, lv[j], j + 1, key);
    let oj = owner(m0, lv[j], key);
    lemma_owner_descends(m0, lv[j], lv[j - 1], bs[j], j, oj, key);
    let ol = owner(m0, lv[j - 1], key);
    let f = bs[j][oj];
    assert(m0[lv[j - 1][f]].key == key);
    lemma_key_is_owner(m0, lv[j - 1], j, ol, f, key);
}

/// An owner above the tower does not hold the key.
proof fn lemma_owns_up<V: VectorCommitment>(
    m0: Map<NodeId, Node<V>>,
    heads: Seq<NodeId>,
    lv: Seq<Seq<NodeId>>,
    bs: Seq<Seq<int>>,
    key: Key,
    t: int,
    j: int,
)
    requires
        levels_ok(m0, heads, lv, bs),
        heads_ok(m0, heads),
        lv.len() == heads.len(),
        0 <= t <= j < lv.len(),
        m0[lv[t][owner(m0, lv[t], key)]].key != key,
    ensures
        m0[lv[j][owner(m0, lv[j], key)]].key != key,
    decreases j - t,
{
    if j > t {
        lemma_owns_up(m0, heads, lv, bs, key, t, j - 1);
        if m0[lv[j][owner(m0, lv[j], key)]].key == key {
            lemma_owns_down(m0, heads, lv, bs, key, j);
        }
    }
}

/// The static facts of a delete hold of a well-shaped tree whose owners
/// hold the key exactly below level index `t`.
#[verifier::spinoff_prover]
proof fn lemma_del_setup<V: VectorCommitment>(
    m0: Map<NodeId, Node<V>>,
    heads: Seq<NodeId>,
    lv: Seq<Seq<NodeId>>,
    bs: Seq<Seq<int>>,
    key: Key,
    t: int,
)
    requires
        levels_ok(m0, heads, lv, bs),
        heads_ok(m0, heads),
        lv.len() == heads.len(),
        1 <= t < lv.len(),
        key is Val,
        forall|j: int| 0 <= j < t ==> #[trigger] m0[lv[j][owner(m0, lv[j], key)]].key == key,
        m0[lv[t][owner(m0, lv[t], key)]].key != key,
    ensures
        del_shape(m0, lv, bs, owner_idx(m0, lv, key), t, key),
{
    let o = owner_idx(m0, lv, key);
    reveal(del_shape);
    assert(bs.len() == lv.len()) by {
        reveal(levels_ok);
    }
    assert(o[t] == owner(m0, lv[t], key));
    assert(m0[lv[t][o[t]]].key != key);
    assert forall|j: int| 0 <= j < lv.len() implies #[trigger] is_owner(m0, lv[j], o[j], key) by {
        reveal(levels_ok);
        reveal(heads_ok);
        assert(level_seq_ok(m0, lv[j], j + 1));
        assert(m0.contains_key(heads[j]));
        lemma_owner_exists(m0, lv[j], j + 1, key);
    }
    assert forall|j: int| 0 <= j < lv.len() implies level_seq_ok(m0, #[trigger] lv[j], j + 1) by {
        reveal(levels_ok);
    }
    assert forall|j: int| 1 <= j < lv.len() implies children_ok(m0, #[trigger] lv[j], lv[j - 1], bs[j]) by {
        reveal(levels_ok);
    }
    assert forall|j: int| 0 <= j < t implies m0[lv[j][#[trigger] o[j]]].key == key && 1 <= o[j] by {
        assert(m0[lv[j][owner(m0, lv[j], key)]].key == key);
        assert(is_owner(m0, lv[j], o[j], key));
        if o[j] == 0 {
            reveal(heads_ok);
            reveal(levels_ok);
            assert(lv[j][0] == heads[j]);
            assert(m0.contains_key(heads[j]));
        }
    }
    assert forall|j: int| #![trigger bs[j]] 1 <= j < t implies bs[j][o[j]] == o[j - 1] by {
        assert(m0[lv[j][owner(m0, lv[j], key)]].key == key);
        lemma_owns_down(m0, heads, lv, bs, key, j);
    }
    assert(bs[t][o[t]] < o[t - 1] < bs[t][o[t] + 1]) by {
        reveal(levels_ok);
        assert(level_seq_ok(m0, lv[t], t + 1));
        assert(level_seq_ok(m0, lv[t - 1], t));
        assert(children_ok(m0, lv[t], lv[t - 1], bs[t]));
        assert(is_owner(m0, lv[t], o[t], key));
        lemma_owner_descends(m0, lv[t], lv[t - 1], bs[t], t, o[t], key);
        assert(m0[lv[t - 1][o[t - 1]]].key == key);
        assert(m0[lv[t - 1][bs[t][o[t]]]].key == m0[lv[t][o[t]]].key);
    }
    assert forall|j: int| #![trigger bs[j]] t < j < lv.len() implies bs[j][o[j]] <= o[j - 1] < bs[j][o[j] + 1] by {
        reveal(levels_ok);
        assert(level_seq_ok(m0, lv[j], j + 1));
        assert(level_seq_ok(m0, lv[j - 1], j));
        assert(children_ok(m0, lv[j], lv[j - 1], bs[j]));
        assert(is_owner(m0, lv[j], o[j], key));
        lemma_owner_descends(m0, lv[j], lv[j - 1], bs[j], j, o[j], key);
    }
    assert forall|j: int, i: int| 0 <= j < lv.len() && 0 <= i < lv[j].len() && m0[#[trigger] lv[j][i]].key == key
        implies j < t && i == o[j] by {
        assert(is_owner(m0, lv[j], o[j], key));
        lemma_key_is_owner(m0, lv[j], j + 1, o[j], i, key);
        if j >= t {
            lemma_owns_up(m0, heads, lv, bs, key, t, j);
        }
    }
}

/// Where `x`'s right pointer goes once every node holding `key` is
/// bypassed: past such a node to that node's own right neighbour.
spec fn bypassed<V: VectorCommitment>(m: Map<NodeId, Node<V>>, key: Key, x: NodeId) -> Option<NodeId> {
    match m[x].right {
        Some(r) => if m.contains_key(r) && m[r].key == key { m[r].right } else { Some(r) },
        None => None,
    }
}

impl<V: VectorCommitment> Ibsl<V> {
    /// Removes every node holding `key`: first every right pointer into one
    /// of them is pointed past it (same-level predecessors and shortcut
    /// sources alike), then the nodes, now referenced by nobody, leave the
    /// map. Scans the whole map, not head-chains: shortcuts leave tower
    /// nodes off their level's horizontal chain.
    #[verifier::spinoff_prover]
    fn remove_tower(&mut self, key: Key, Ghost(base): Ghost<Seq<NodeId>>, Ghost(ob): Ghost<int>)
        requires
            ptrs_ok(old(self).nodes@, old(self).heads@.len() as int),
            heads_ok(old(self).nodes@, old(self).heads@),
            base_ok(old(self).nodes@, base),
            0 < ob < base.len() - 1,
            old(self).nodes@[base[ob]].key == key,
            key is Val,
            forall|x: NodeId| #[trigger] old(self).nodes@.contains_key(x) ==> x < old(self).next_id,
        ensures
            forall|x: NodeId| #[trigger] final(self).nodes@.contains_key(x)
                <==> old(self).nodes@.contains_key(x) && old(self).nodes@[x].key != key,
            forall|x: NodeId| #[trigger] final(self).nodes@.contains_key(x) ==> same_but_right(final(self).nodes@[x], old(self).nodes@[x])
                && final(self).nodes@[x].right == bypassed(old(self).nodes@, key, x),
            ptrs_ok(final(self).nodes@, old(self).heads@.len() as int),
            heads_ok(final(self).nodes@, old(self).heads@),
            base_ok(final(self).nodes@, base.remove(ob)),
            final(self).same_but_nodes(old(self)),
    {
        let ghost m0 = self.nodes@;
        let ghost h = self.heads@.len() as int;
        let mut x: usize = 0;
        while x < self.next_id
            invariant
                self.same_but_nodes(old(self)),
                m0 == old(self).nodes@,
                h == self.heads@.len(),
                ptrs_ok(self.nodes@, h),
                ptrs_ok(m0, h),
                key is Val,
                x <= self.next_id,
                forall|y: NodeId| #[trigger] m0.contains_key(y) ==> y < self.next_id,
                forall|y: NodeId| #[trigger] self.nodes@.contains_key(y) <==> m0.contains_key(y),
                forall|y: NodeId| #[trigger] m0.contains_key(y) ==> same_but_right(self.nodes@[y], m0[y])
                    && self.nodes@[y].right == (if y < x { bypassed(m0, key, y) } else { m0[y].right }),
            decreases self.next_id - x,
        {
            let ghost m = self.nodes@;
            let r = match self.nodes.get(&x) {
                Some(n) => n.right,
                None => None,
            };
            if let Some(rid) = r {
                proof {
                    reveal(ptrs_ok);
                    assert(m0.contains_key(x as NodeId));
                    assert(node_ptr_ok(m, x as NodeId, h));
                    assert(node_ptr_ok(m0, x as NodeId, h));
                    assert(m0.contains_key(rid));
                    assert(node_ptr_ok(m0, rid, h));
                }
                let rn = self.nodes.get(&rid).unwrap();
                if key_eq(rn.key, key) {
                    let bypass = rn.right;
                    proof {
                        assert(node_ptr_ok(m, rid, h)) by {
                            reveal(ptrs_ok);
                        }
                        if let Some(r2) = m0[rid].right {
                            assert(m0.contains_key(r2));
                            assert(m0[r2].key != key) by {
                                lemma_rank_injective(m0[r2].key, key);
                            }
                        }
                        assert(bypass == m0[rid].right);
                        assert(m[x as NodeId].right == Some(rid));
                    }
                    self.set_right(x, bypass);
                    proof {
                        lemma_ptrs_set_right(m, x as NodeId, bypass, h);
                    }
                }
            }
            proof {
                let m2 = self.nodes@;
                assert forall|y: NodeId| #[trigger] m0.contains_key(y) implies same_but_right(m2[y], m0[y])
                    && m2[y].right == (if y < x + 1 { bypassed(m0, key, y) } else { m0[y].right }) by {
                    if y == x {
                        assert(m.contains_key(y));
                        if let Some(rid) = m0[y].right {
                            reveal(ptrs_ok);
                            assert(node_ptr_ok(m0, y, h));
                        }
                    }
                }
            }
            x = x + 1;
        }
        let ghost m1 = self.nodes@;
        // The tower nodes are now referenced by nobody; drop them.
        let mut x: usize = 0;
        while x < self.next_id
            invariant
                self.same_but_nodes(old(self)),
                m0 == old(self).nodes@,
                x <= self.next_id,
                forall|y: NodeId| #[trigger] m0.contains_key(y) ==> y < self.next_id,
                forall|y: NodeId| #[trigger] m1.contains_key(y) <==> m0.contains_key(y),
                forall|y: NodeId| #[trigger] m0.contains_key(y) ==> same_but_right(m1[y], m0[y]),
                forall|y: NodeId| #[trigger] self.nodes@.contains_key(y)
                    <==> m0.contains_key(y) && !(y < x && m0[y].key == key),
                forall|y: NodeId| #[trigger] self.nodes@.contains_key(y) ==> self.nodes@[y] == m1[y],
            decreases self.next_id - x,
        {
            let ghost m = self.nodes@;
            let hit = match self.nodes.get(&x) {
                Some(n) => key_eq(n.key, key),
                None => false,
            };
            if hit {
                self.nodes.remove(&x);
            }
            proof {
                let m2 = self.nodes@;
                assert forall|y: NodeId| #[trigger] m2.contains_key(y) <==> m0.contains_key(y) && !(y < x + 1 && m0[y].key == key) by {
                    if y == x && m0.contains_key(y) {
                        assert(m.contains_key(y));
                        assert(m[y].key == m0[y].key);
                    }
                }
            }
            x = x + 1;
        }
        proof {
            let m2 = self.nodes@;
            assert forall|y: NodeId| #[trigger] m2.contains_key(y) <==> m0.contains_key(y) && m0[y].key != key by {
                if m0.contains_key(y) {
                    assert(y < self.next_id);
                }
            }
            assert forall|y: NodeId| #[trigger] m2.contains_key(y) implies same_but_right(m2[y], m0[y])
                && m2[y].right == bypassed(m0, key, y) by {
                assert(m0.contains_key(y));
                assert(y < self.next_id);
            }
            lemma_removed_ptrs(m0, m2, h, key);
            lemma_removed_heads(m0, m2, self.heads@, key);
            lemma_removed_base(m0, m2, base, ob, key);
        }
    }
}

/// After every node holding `key` is bypassed and removed, the pointer
/// discipline holds again.
#[verifier::spinoff_prover]
proof fn lemma_removed_ptrs<V: VectorCommitment>(m0: Map<NodeId, Node<V>>, m2: Map<NodeId, Node<V>>, h: int, key: Key)
    requires
        ptrs_ok(m0, h),
        forall|y: NodeId| #[trigger] m2.contains_key(y) <==> m0.contains_key(y) && m0[y].key != key,
        forall|y: NodeId| #[trigger] m2.contains_key(y) ==> same_but_right(m2[y], m0[y]) && m2[y].right == bypassed(m0, key, y),
    ensures
        ptrs_ok(m2, h),
{
    reveal(ptrs_ok);
    assert forall|y: NodeId| #[trigger] m2.contains_key(y) implies node_ptr_ok(m2, y, h) by {
        assert(m0.contains_key(y));
        assert(node_ptr_ok(m0, y, h));
        if let Some(r) = m0[y].right {
            assert(m0.contains_key(r));
            assert(node_ptr_ok(m0, r, h));
            if m0[r].key == key {
                if let Some(r2) = m0[r].right {
                    assert(m0.contains_key(r2));
                    lemma_rank_injective(m0[r2].key, key);
                    assert(m2.contains_key(r2));
                }
            } else {
                assert(m2.contains_key(r));
            }
        }
        if m0[y].level > 1 {
            let d = m0[y].down->0;
            assert(m0.contains_key(d));
            assert(m2.contains_key(d));
        }
    }
}

/// Removing the nodes of a key keeps the heads.
#[verifier::spinoff_prover]
proof fn lemma_removed_heads<V: VectorCommitment>(m0: Map<NodeId, Node<V>>, m2: Map<NodeId, Node<V>>, heads: Seq<NodeId>, key: Key)
    requires
        heads_ok(m0, heads),
        key is Val,
        forall|y: NodeId| #[trigger] m2.contains_key(y) <==> m0.contains_key(y) && m0[y].key != key,
        forall|y: NodeId| #[trigger] m2.contains_key(y) ==> same_but_right(m2[y], m0[y]),
    ensures
        heads_ok(m2, heads),
{
    reveal(heads_ok);
    assert forall|l: int| 0 <= l < heads.len() implies #[trigger] m2.contains_key(heads[l]) && m2[heads[l]].level == l + 1
        && m2[heads[l]].key == Key::NegInf by {
        assert(m0.contains_key(heads[l]));
        assert(m0[heads[l]].key == Key::NegInf);
        assert(m0[heads[l]].key != key);
        assert(m2.contains_key(heads[l]));
        assert(same_but_right(m2[heads[l]], m0[heads[l]]));
    }
    assert forall|id: NodeId| #[trigger] m2.contains_key(id) && m2[id].level == heads.len() implies id == heads[heads.len() - 1] by {
        assert(m0.contains_key(id));
    }
}

/// Bypassing and removing the base node of a key splices it out of the base
/// list.
#[verifier::spinoff_prover]
proof fn lemma_removed_base<V: VectorCommitment>(m0: Map<NodeId, Node<V>>, m2: Map<NodeId, Node<V>>, base: Seq<NodeId>, ob: int, key: Key)
    requires
        base_ok(m0, base),
        0 < ob < base.len() - 1,
        m0[base[ob]].key == key,
        forall|y: NodeId| #[trigger] m2.contains_key(y) <==> m0.contains_key(y) && m0[y].key != key,
        forall|y: NodeId| #[trigger] m2.contains_key(y) ==> same_but_right(m2[y], m0[y]) && m2[y].right == bypassed(m0, key, y),
    ensures
        base_ok(m2, base.remove(ob)),
{
    reveal(base_ok);
    let b2 = base.remove(ob);
    base.remove_ensures(ob);
    assert forall|j: int| 0 <= j < base.len() && j != ob implies #[trigger] m2.contains_key(base[j]) && m2[base[j]].level == 1
        && m2[base[j]].key == m0[base[j]].key by {
        assert(m0.contains_key(base[j]));
        if j < ob {
            assert(rank(m0[base[j]].key) < rank(m0[base[ob]].key));
        } else {
            assert(rank(m0[base[ob]].key) < rank(m0[base[j]].key));
        }
        assert(m0[base[j]].key != key);
        assert(m2.contains_key(base[j]));
        assert(same_but_right(m2[base[j]], m0[base[j]]));
    }
    assert forall|j: int| 0 <= j < b2.len() implies #[trigger] m2.contains_key(b2[j]) && m2[b2[j]].level == 1 by {
        if j < ob {
            assert(b2[j] == base[j]);
        } else {
            assert(b2[j] == base[j + 1]);
        }
    }
    assert forall|a: int, c: int| 0 <= a < c < b2.len() implies rank(m2[#[trigger] b2[a]].key) < rank(m2[#[trigger] b2[c]].key) by {
        let a0 = if a < ob { a } else { a + 1 };
        let c0 = if c < ob { c } else { c + 1 };
        assert(b2[a] == base[a0]);
        assert(b2[c] == base[c0]);
        assert(rank(m0[base[a0]].key) < rank(m0[base[c0]].key));
        assert(a0 != ob && c0 != ob);
        assert(m2.contains_key(base[a0]));
        assert(m2.contains_key(base[c0]));
        assert(m2[base[a0]].key == m0[base[a0]].key);
        assert(m2[base[c0]].key == m0[base[c0]].key);
    }
    assert forall|j: int| 0 <= j < b2.len() - 1 implies m2[#[trigger] b2[j]].right == Some(b2[j + 1]) by {
        if j < ob - 1 {
            assert(b2[j] == base[j]);
            assert(b2[j + 1] == base[j + 1]);
            assert(m2.contains_key(base[j]));
            assert(m2.contains_key(base[j + 1]));
            assert(m0[base[j]].right == Some(base[j + 1]));
            assert(m0.contains_key(base[j + 1]));
        } else if j == ob - 1 {
            assert(b2[j] == base[j]);
            assert(b2[j + 1] == base[ob + 1]);
            assert(m2.contains_key(base[j]));
            assert(m0[base[ob - 1]].right == Some(base[ob]));
            assert(m0.contains_key(base[ob]));
            assert(m0[base[ob]].right == Some(base[ob + 1]));
        } else {
            assert(b2[j] == base[j + 1]);
            assert(b2[j + 1] == base[j + 2]);
            assert(m2.contains_key(base[j + 1]));
            assert(m2.contains_key(base[j + 2]));
            assert(m0[base[j + 1]].right == Some(base[j + 2]));
            assert(m0.contains_key(base[j + 2]));
        }
    }
    assert(m2.contains_key(b2[0]));
    assert(m2.contains_key(b2[b2.len() - 1]));
    assert(b2[b2.len() - 1] == base[base.len() - 1]);
    assert forall|id: NodeId| #[trigger] m2.contains_key(id) && m2[id].level == 1 implies b2.contains(id) by {
        assert(m0.contains_key(id));
        assert(base.contains(id));
        let q = choose|q: int| 0 <= q < base.len() && base[q] == id;
        assert(q != ob);
        if q < ob {
            assert(b2[q] == id);
        } else {
            assert(b2[q - 1] == id);
        }
    }
}


/// The stale position of each level after a delete: the predecessor on the
/// tower levels, the owner of the key's range above, none at the base.
spec fn del_stale(o: Seq<int>, t: int) -> Seq<int> {
    Seq::new(o.len(), |i: int| if i == 0 { -1 } else if i < t { o[i] - 1 } else { o[i] })
}

/// Node `y`'s children after the delete's unlinking, given how the tower
/// level index `i` of `y` is placed: the owner above the tower drops the
/// tower top, and each predecessor takes the tower node's children but the
/// first.
spec fn del_children_ok<V: VectorCommitment>(
    m0: Map<NodeId, Node<V>>,
    m2: Map<NodeId, Node<V>>,
    lv: Seq<Seq<NodeId>>,
    bs: Seq<Seq<int>>,
    o: Seq<int>,
    t: int,
) -> bool {
    &&& m2[lv[t][o[t]]].children@ == m0[lv[t][o[t]]].children@.remove(o[t - 1] - bs[t][o[t]])
    &&& forall|i: int| #![trigger lv[i]] 1 <= i < t ==> m2[lv[i][o[i] - 1]].children@
        == m0[lv[i][o[i] - 1]].children@ + m0[lv[i][o[i]]].children@.subrange(1, m0[lv[i][o[i]]].children@.len() as int)
    &&& forall|y: NodeId| #[trigger] m2.contains_key(y) && m2[y].children != m0[y].children ==> y == lv[t][o[t]]
        || (2 <= m0[y].level <= t && y == lv[m0[y].level - 1][o[m0[y].level - 1] - 1])
}

/// Two nodes agree but for their right pointers and children.
spec fn same_but_links<V: VectorCommitment>(a: Node<V>, b: Node<V>) -> bool {
    &&& a.key == b.key
    &&& a.level == b.level
    &&& a.interval == b.interval
    &&& a.down == b.down
    &&& a.commitment == b.commitment
    &&& a.opener == b.opener
}

/// The static facts of a delete at one level.
proof fn lemma_del_shape_at<V: VectorCommitment>(
    m0: Map<NodeId, Node<V>>,
    lv: Seq<Seq<NodeId>>,
    bs: Seq<Seq<int>>,
    o: Seq<int>,
    t: int,
    key: Key,
    j: int,
)
    requires
        del_shape(m0, lv, bs, o, t, key),
        0 <= j < lv.len(),
    ensures
        bs.len() == lv.len(),
        o.len() == lv.len(),
        1 <= t < lv.len(),
        level_seq_ok(m0, lv[j], j + 1),
        is_owner(m0, lv[j], o[j], key),
        j >= 1 ==> children_ok(m0, lv[j], lv[j - 1], bs[j]) && level_seq_ok(m0, lv[j - 1], j),
        j < t ==> m0[lv[j][o[j]]].key == key && 1 <= o[j],
        j >= t ==> m0[lv[j][o[j]]].key != key,
        1 <= j < t ==> bs[j][o[j]] == o[j - 1],
        j == t ==> bs[t][o[t]] < o[t - 1] < bs[t][o[t] + 1],
        t < j ==> bs[j][o[j]] <= o[j - 1] < bs[j][o[j] + 1],
        forall|i: int| 0 <= i < lv[j].len() && m0[#[trigger] lv[j][i]].key == key ==> j < t && i == o[j],
{
    reveal(del_shape);
    assert(level_seq_ok(m0, lv[j], j + 1));
    assert(is_owner(m0, lv[j], o[j], key));
    if j >= 1 {
        assert(children_ok(m0, lv[j], lv[j - 1], bs[j]));
        assert(level_seq_ok(m0, lv[j - 1], j));
    }
    if 1 <= j < t {
        assert(bs[j][o[j]] == o[j - 1]);
    }
    if t < j {
        assert(bs[j][o[j]] <= o[j - 1] < bs[j][o[j] + 1]);
    }
    if j < t {
        assert(m0[lv[j][o[j]]].key == key && 1 <= o[j]);
    } else if m0[lv[j][o[j]]].key == key {
        assert(m0.contains_key(lv[j][o[j]]));
    }
}

/// After the unlinking and the removal of the key's nodes, each level of
/// the delete's result is in key order and has its final runs.
#[verifier::spinoff_prover]
proof fn lemma_del_level<V: VectorCommitment>(
    m0: Map<NodeId, Node<V>>,
    m2: Map<NodeId, Node<V>>,
    lv: Seq<Seq<NodeId>>,
    bs: Seq<Seq<int>>,
    o: Seq<int>,
    t: int,
    key: Key,
    j: int,
)
    requires
        del_shape(m0, lv, bs, o, t, key),
        0 <= j < lv.len(),
        forall|y: NodeId| #[trigger] m2.contains_key(y) <==> m0.contains_key(y) && m0[y].key != key,
        forall|y: NodeId| #[trigger] m2.contains_key(y) ==> same_but_links(m2[y], m0[y]),
        del_children_ok(m0, m2, lv, bs, o, t),
    ensures
        level_seq_ok(m2, del_levels(lv, o, t)[j], j + 1),
        del_levels(lv, o, t)[j][0] == lv[j][0],
        j >= 1 ==> children_ok(m2, del_levels(lv, o, t)[j], del_levels(lv, o, t)[j - 1], del_bounds(bs, o, t)[j]),
{
    let l2 = del_levels(lv, o, t);
    let b2 = del_bounds(bs, o, t);
    lemma_del_shape_at(m0, lv, bs, o, t, key, j);
    assert forall|q: int| 0 <= q < lv[j].len() && (j >= t || q != o[j]) implies #[trigger] m2.contains_key(lv[j][q])
        && m2[lv[j][q]].key == m0[lv[j][q]].key && m2[lv[j][q]].level == m0[lv[j][q]].level by {
        assert(m0.contains_key(lv[j][q]));
        if m0[lv[j][q]].key == key {
            assert(j < t && q == o[j]);
        }
        assert(m2.contains_key(lv[j][q]));
        assert(same_but_links(m2[lv[j][q]], m0[lv[j][q]]));
    }
    if j < t {
        lemma_level_remove(m0, m2, lv[j], j + 1, o[j]);
    } else {
        assert(l2[j] == lv[j]);
        assert forall|i: int| 0 <= i < lv[j].len() implies #[trigger] m2.contains_key(lv[j][i]) && m2[lv[j][i]].level == j + 1 by {
            assert(m0.contains_key(lv[j][i]));
            if m0[lv[j][i]].key == key {
                assert(j < t);
            }
            assert(m2.contains_key(lv[j][i]));
            assert(same_but_links(m2[lv[j][i]], m0[lv[j][i]]));
        }
        assert forall|a: int, c: int| 0 <= a < c < lv[j].len() implies rank(m2[#[trigger] lv[j][a]].key) < rank(m2[#[trigger] lv[j][c]].key) by {
            assert(m0.contains_key(lv[j][a]));
            assert(m0.contains_key(lv[j][c]));
            assert(m2.contains_key(lv[j][a]));
            assert(m2.contains_key(lv[j][c]));
        }
    }
    if j >= 1 {
        lemma_del_shape_at(m0, lv, bs, o, t, key, j - 1);
        let up = lv[j];
        let low = lv[j - 1];
        let b = bs[j];
        assert forall|q: int| 0 <= q < low.len() && (j - 1 >= t || q != o[j - 1]) implies #[trigger] m2.contains_key(low[q])
            && m2[low[q]].key == m0[low[q]].key by {
            assert(m0.contains_key(low[q]));
            if m0[low[q]].key == key {
                assert(j - 1 < t && q == o[j - 1]);
            }
            assert(m2.contains_key(low[q]));
            assert(same_but_links(m2[low[q]], m0[low[q]]));
        }
        if j < t {
            let ou = o[j];
            assert(b[ou] == o[j - 1]);
            assert(l2[j] == up.remove(ou));
            assert(l2[j - 1] == low.remove(b[ou]));
            assert(b2[j] == merge_bounds(b, ou));
            lemma_children_frame_del(m0, m2, lv, bs, o, t, key, j);
            lemma_merge_children(m0, m2, up, low, b, ou);
        } else if j == t {
            let ou = o[t];
            assert(l2[t] == up);
            assert(l2[t - 1] == low.remove(o[t - 1]));
            assert(b2[t] == shift_bounds(b, ou, -1));
            lemma_children_frame_del(m0, m2, lv, bs, o, t, key, j);
            lemma_shrink_children(m0, m2, up, low, b, ou, o[t - 1]);
        } else {
            assert(l2[j] == up);
            assert(l2[j - 1] == low);
            assert(b2[j] == b);
            lemma_children_frame_del(m0, m2, lv, bs, o, t, key, j);
            lemma_same_children(m0, m2, up, low, b);
        }
    }
}

/// The nodes of a level index `j >= 1` that the delete does not rewire keep
/// their children; keys are kept throughout.
#[verifier::spinoff_prover]
proof fn lemma_children_frame_del<V: VectorCommitment>(
    m0: Map<NodeId, Node<V>>,
    m2: Map<NodeId, Node<V>>,
    lv: Seq<Seq<NodeId>>,
    bs: Seq<Seq<int>>,
    o: Seq<int>,
    t: int,
    key: Key,
    j: int,
)
    requires
        del_shape(m0, lv, bs, o, t, key),
        1 <= j < lv.len(),
        forall|y: NodeId| #[trigger] m2.contains_key(y) <==> m0.contains_key(y) && m0[y].key != key,
        forall|y: NodeId| #[trigger] m2.contains_key(y) ==> same_but_links(m2[y], m0[y]),
        del_children_ok(m0, m2, lv, bs, o, t),
    ensures
        forall|i: int| 0 <= i < lv[j].len() && (j >= t || i != o[j]) ==> #[trigger] m2[lv[j][i]].key == m0[lv[j][i]].key,
        forall|q: int| 0 <= q < lv[j - 1].len() && (j - 1 >= t || q != o[j - 1]) ==> #[trigger] m2[lv[j - 1][q]].key == m0[lv[j - 1][q]].key,
        j < t ==> forall|i: int| 0 <= i < lv[j].len() && i != o[j] - 1 && i != o[j] ==> #[trigger] m2[lv[j][i]].children@ == m0[lv[j][i]].children@,
        j == t ==> forall|i: int| 0 <= i < lv[j].len() && i != o[j] ==> #[trigger] m2[lv[j][i]].children@ == m0[lv[j][i]].children@,
        j > t ==> forall|i: int| 0 <= i < lv[j].len() ==> #[trigger] m2[lv[j][i]].children@ == m0[lv[j][i]].children@,
        j < t ==> m2[lv[j][o[j] - 1]].children@ == lv[j - 1].subrange(bs[j][o[j] - 1], bs[j][o[j]])
            + lv[j - 1].subrange(bs[j][o[j]] + 1, bs[j][o[j] + 1]),
        j == t ==> m2[lv[t][o[t]]].children@ == m0[lv[t][o[t]]].children@.remove(o[t - 1] - bs[t][o[t]]),
{
    lemma_del_shape_at(m0, lv, bs, o, t, key, j);
    lemma_del_shape_at(m0, lv, bs, o, t, key, j - 1);
    lemma_del_shape_at(m0, lv, bs, o, t, key, t);
    let up = lv[j];
    // the owner above the tower and the predecessors are the only rewired nodes
    assert forall|i: int| #![trigger up[i]] 0 <= i < up.len() && (j >= t || i != o[j]) implies m2[up[i]].key == m0[up[i]].key && (
        (j < t && i != o[j] - 1 && i != o[j]) || (j == t && i != o[j]) || j > t ==> m2[up[i]].children@ == m0[up[i]].children@) by {
        assert(m0.contains_key(up[i]));
        assert(m0[up[i]].level == j + 1);
        let cond = (j < t && i != o[j] - 1 && i != o[j]) || (j == t && i != o[j]) || j > t;
        if m0[up[i]].key != key {
            assert(m2.contains_key(up[i]));
            assert(same_but_links(m2[up[i]], m0[up[i]]));
            if cond && m2[up[i]].children != m0[up[i]].children {
                if up[i] == lv[t][o[t]] {
                    assert(m0.contains_key(lv[t][o[t]]));
                    assert(m0[lv[t][o[t]]].level == t + 1);
                    assert(j == t);
                    assert(i == o[j]) by {
                        if i < o[j] {
                            assert(rank(m0[up[i]].key) < rank(m0[up[o[j]]].key));
                        } else if i > o[j] {
                            assert(rank(m0[up[o[j]]].key) < rank(m0[up[i]].key));
                        }
                    }
                } else {
                    let lj = m0[up[i]].level - 1;
                    assert(lj == j);
                    assert(up[i] == lv[j][o[j] - 1]);
                    assert(i == o[j] - 1) by {
                        if i < o[j] - 1 {
                            assert(rank(m0[up[i]].key) < rank(m0[up[o[j] - 1]].key));
                        } else if i > o[j] - 1 {
                            assert(rank(m0[up[o[j] - 1]].key) < rank(m0[up[i]].key));
                        }
                    }
                }
            }
        } else {
            assert(j < t && i == o[j]);
        }
    }
    assert forall|q: int| 0 <= q < lv[j - 1].len() && (j - 1 >= t || q != o[j - 1]) implies #[trigger] m2[lv[j - 1][q]].key == m0[lv[j - 1][q]].key by {
        assert(m0.contains_key(lv[j - 1][q]));
        if m0[lv[j - 1][q]].key == key {
            assert(j - 1 < t && q == o[j - 1]);
        }
        assert(m2.contains_key(lv[j - 1][q]));
        assert(same_but_links(m2[lv[j - 1][q]], m0[lv[j - 1][q]]));
    }
    if j < t {
        assert(lv[j] == up);
        let b = bs[j];
        let ou = o[j];
        assert(b[0] <= b[ou - 1]);
        assert(m0[up[ou - 1]].children@ == lv[j - 1].subrange(b[ou - 1], b[ou]));
        assert(m0[up[ou]].children@ == lv[j - 1].subrange(b[ou], b[ou + 1]));
        if ou + 1 < up.len() {
            assert(b[ou + 1] <= b[up.len() as int]);
        }
        assert(b[up.len() as int] == lv[j - 1].len());
        assert(m0[up[ou]].children@.subrange(1, m0[up[ou]].children@.len() as int)
            =~= lv[j - 1].subrange(b[ou] + 1, b[ou + 1]));
    }
}

/// After the unlinking and the removal of the key's nodes, the new levels
/// and runs describe the map, and the stale path is the predecessors and
/// the owners above.
#[verifier::spinoff_prover]
proof fn lemma_del_path_shape<V: VectorCommitment>(
    m0: Map<NodeId, Node<V>>,
    m2: Map<NodeId, Node<V>>,
    heads: Seq<NodeId>,
    lv: Seq<Seq<NodeId>>,
    bs: Seq<Seq<int>>,
    o: Seq<int>,
    t: int,
    key: Key,
)
    requires
        del_shape(m0, lv, bs, o, t, key),
        1 <= t < lv.len(),
        levels_ok(m0, heads, lv, bs),
        forall|y: NodeId| #[trigger] m2.contains_key(y) <==> m0.contains_key(y) && m0[y].key != key,
        forall|y: NodeId| #[trigger] m2.contains_key(y) ==> same_but_links(m2[y], m0[y]),
        del_children_ok(m0, m2, lv, bs, o, t),
    ensures
        levels_ok(m2, heads, del_levels(lv, o, t), del_bounds(bs, o, t)),
        path_shape(m2, heads, del_levels(lv, o, t), del_bounds(bs, o, t), del_stale(o, t), del_stale(o, t)),
{
    let l2 = del_levels(lv, o, t);
    let b2 = del_bounds(bs, o, t);
    let st = del_stale(o, t);
    let h = lv.len() as int;
    lemma_del_shape_at(m0, lv, bs, o, t, key, 0);
    assert(levels_ok(m2, heads, l2, b2)) by {
        reveal(levels_ok);
        assert forall|l: int| 0 <= l < l2.len() implies level_seq_ok(m2, #[trigger] l2[l], l + 1) && l2[l][0] == heads[l] by {
            lemma_del_level(m0, m2, lv, bs, o, t, key, l);
        }
        assert(l2[h - 1] == lv[h - 1]);
        assert forall|l: int| 1 <= l < l2.len() implies children_ok(m2, #[trigger] l2[l], l2[l - 1], b2[l]) by {
            lemma_del_level(m0, m2, lv, bs, o, t, key, l);
        }
    }
    reveal(path_shape);
    assert forall|i: int| 1 <= i < l2.len() implies 0 <= #[trigger] st[i] <= st[i] < l2[i].len() by {
        lemma_del_shape_at(m0, lv, bs, o, t, key, i);
        if i < t {
            lv[i].remove_ensures(o[i]);
        }
    }
    assert forall|i: int| #![trigger st[i]] 1 <= i < l2.len() implies st[i - 1] < 0
        || (b2[i][st[i]] <= st[i - 1] && b2[i][st[i] + 1] > st[i - 1]) by {
        lemma_del_shape_at(m0, lv, bs, o, t, key, i);
        lemma_del_shape_at(m0, lv, bs, o, t, key, i - 1);
        if i >= 2 {
            let b = bs[i];
            assert(children_ok(m0, lv[i], lv[i - 1], b));
            if i < t {
                assert(b[o[i] - 1] < b[o[i]]);
                assert(b[o[i]] < b[o[i] + 1]);
            } else if i > t {
                assert(st[i - 1] == o[i - 1]);
            }
        }
    }
}

/// The position in the old level of position `q` of the new level index
/// `i` after a delete.
spec fn del_src(o: Seq<int>, t: int, i: int, q: int) -> int {
    if i < t && q >= o[i] { q + 1 } else { q }
}

/// A node of the delete's new levels: where it was, and that off the stale
/// path it kept its children.
#[verifier::spinoff_prover]
proof fn lemma_del_node<V: VectorCommitment>(
    m0: Map<NodeId, Node<V>>,
    m2: Map<NodeId, Node<V>>,
    lv: Seq<Seq<NodeId>>,
    bs: Seq<Seq<int>>,
    o: Seq<int>,
    t: int,
    key: Key,
    i: int,
    q: int,
)
    requires
        del_shape(m0, lv, bs, o, t, key),
        0 <= i < lv.len(),
        0 <= q < del_levels(lv, o, t)[i].len(),
        forall|y: NodeId| #[trigger] m2.contains_key(y) <==> m0.contains_key(y) && m0[y].key != key,
        forall|y: NodeId| #[trigger] m2.contains_key(y) ==> same_but_links(m2[y], m0[y]),
        del_children_ok(m0, m2, lv, bs, o, t),
    ensures
        0 <= del_src(o, t, i, q) < lv[i].len(),
        lv[i][del_src(o, t, i, q)] == del_levels(lv, o, t)[i][q],
        m0.contains_key(del_levels(lv, o, t)[i][q]),
        m2.contains_key(del_levels(lv, o, t)[i][q]),
        m0[del_levels(lv, o, t)[i][q]].level == i + 1,
        same_but_links(m2[del_levels(lv, o, t)[i][q]], m0[del_levels(lv, o, t)[i][q]]),
        q != del_stale(o, t)[i] ==> m2[del_levels(lv, o, t)[i][q]].children == m0[del_levels(lv, o, t)[i][q]].children,
        i > t ==> m2[del_levels(lv, o, t)[i][q]].children == m0[del_levels(lv, o, t)[i][q]].children,
{
    let l2 = del_levels(lv, o, t);
    let st = del_stale(o, t);
    lemma_del_shape_at(m0, lv, bs, o, t, key, i);
    lemma_del_shape_at(m0, lv, bs, o, t, key, t);
    let y = l2[i][q];
    let q0 = del_src(o, t, i, q);
    if i < t {
        lv[i].remove_ensures(o[i]);
    }
    assert(lv[i][q0] == y);
    assert(m0.contains_key(y));
    assert(m0[y].level == i + 1);
    if m0[y].key == key {
        assert(i < t && q0 == o[i]);
    }
    assert(m2.contains_key(y));
    if (q != st[i] || i > t) && m2[y].children != m0[y].children {
        if y == lv[t][o[t]] {
            assert(m0.contains_key(lv[t][o[t]]));
            assert(i == t);
            assert(q0 == o[t]) by {
                if q0 < o[t] {
                    assert(rank(m0[lv[t][q0]].key) < rank(m0[lv[t][o[t]]].key));
                } else if q0 > o[t] {
                    assert(rank(m0[lv[t][o[t]]].key) < rank(m0[lv[t][q0]].key));
                }
            }
        } else {
            assert(y == lv[i][o[i] - 1]);
            assert(q0 == o[i] - 1) by {
                if q0 < o[i] - 1 {
                    assert(rank(m0[lv[i][q0]].key) < rank(m0[lv[i][o[i] - 1]].key));
                } else if q0 > o[i] - 1 {
                    assert(rank(m0[lv[i][o[i] - 1]].key) < rank(m0[lv[i][q0]].key));
                }
            }
        }
    }
}

/// Right after the unlinking, every node off the stale path is committed.
#[verifier::spinoff_prover]
proof fn lemma_del_path_start<V: VectorCommitment>(
    vc: V,
    m0: Map<NodeId, Node<V>>,
    m2: Map<NodeId, Node<V>>,
    heads: Seq<NodeId>,
    lv: Seq<Seq<NodeId>>,
    bs: Seq<Seq<int>>,
    o: Seq<int>,
    t: int,
    key: Key,
)
    requires
        del_shape(m0, lv, bs, o, t, key),
        1 <= t < lv.len(),
        commits_ok(vc, m0, lv),
        levels_ok(m2, heads, del_levels(lv, o, t), del_bounds(bs, o, t)),
        forall|y: NodeId| #[trigger] m2.contains_key(y) <==> m0.contains_key(y) && m0[y].key != key,
        forall|y: NodeId| #[trigger] m2.contains_key(y) ==> same_but_links(m2[y], m0[y]),
        del_children_ok(m0, m2, lv, bs, o, t),
    ensures
        path_done(vc, m2, m2, del_levels(lv, o, t), del_stale(o, t), del_stale(o, t), 0),
{
    let l2 = del_levels(lv, o, t);
    let b2 = del_bounds(bs, o, t);
    let st = del_stale(o, t);
    reveal(path_done);
    assert forall|i: int, q: int| 0 <= i < l2.len() && 0 <= q < l2[i].len() && (i < 0 || q < st[i] || q > st[i])
        implies committed(vc, m2, #[trigger] l2[i][q]) by {
        lemma_del_node(m0, m2, lv, bs, o, t, key, i, q);
        let y = l2[i][q];
        let q0 = del_src(o, t, i, q);
        assert(committed(vc, m0, lv[i][q0])) by {
            reveal(commits_ok);
        }
        if m0[y].level != 1 {
            reveal(levels_ok);
            let b = b2[i];
            assert(children_ok(m2, l2[i], l2[i - 1], b));
            assert(level_seq_ok(m2, l2[i - 1], i));
            assert(b[0] <= b[q]);
            if q + 1 < l2[i].len() {
                assert(b[q + 1] < b[l2[i].len() as int]);
            }
            assert forall|r: int| 0 <= r < m0[y].children@.len() implies m2[#[trigger] m0[y].children@[r]].commitment
                == m0[m0[y].children@[r]].commitment by {
                let c = m0[y].children@[r];
                assert(c == l2[i - 1][b[q] + r]);
                assert(m2.contains_key(c));
                assert(same_but_links(m2[c], m0[c]));
            }
        }
        lemma_committed_fields(vc, m0, m2, y);
    }
}

/// Right after the unlinking, no node has too many children.
#[verifier::spinoff_prover]
proof fn lemma_del_fanout<V: VectorCommitment>(
    m0: Map<NodeId, Node<V>>,
    m2: Map<NodeId, Node<V>>,
    lv: Seq<Seq<NodeId>>,
    bs: Seq<Seq<int>>,
    o: Seq<int>,
    t: int,
    key: Key,
)
    requires
        del_shape(m0, lv, bs, o, t, key),
        1 <= t < lv.len(),
        fanout_ok(m0, lv),
        forall|i: int| #![trigger lv[i]] 1 <= i < t ==> m0[lv[i][o[i] - 1]].children@.len() + m0[lv[i][o[i]]].children@.len() <= MAX_FANOUT + 1,
        forall|y: NodeId| #[trigger] m2.contains_key(y) <==> m0.contains_key(y) && m0[y].key != key,
        forall|y: NodeId| #[trigger] m2.contains_key(y) ==> same_but_links(m2[y], m0[y]),
        del_children_ok(m0, m2, lv, bs, o, t),
    ensures
        fanout_ok(m2, del_levels(lv, o, t)),
{
    let l2 = del_levels(lv, o, t);
    let st = del_stale(o, t);
    reveal(fanout_ok);
    assert forall|i: int, q: int| 1 <= i < l2.len() && 0 <= q < l2[i].len() implies m2[#[trigger] l2[i][q]].children@.len() <= MAX_FANOUT by {
        lemma_del_node(m0, m2, lv, bs, o, t, key, i, q);
        lemma_del_shape_at(m0, lv, bs, o, t, key, i);
        let y = l2[i][q];
        let q0 = del_src(o, t, i, q);
        assert(m0[lv[i][q0]].children@.len() <= MAX_FANOUT);
        if q == st[i] && i <= t {
            if i < t {
                assert(m0[lv[i][o[i]]].children@.len() <= MAX_FANOUT);
                assert(m2[lv[i][o[i] - 1]].children@ == m0[lv[i][o[i] - 1]].children@
                    + m0[lv[i][o[i]]].children@.subrange(1, m0[lv[i][o[i]]].children@.len() as int));
                assert(m0[lv[i][o[i]]].children@.len() >= 1) by {
                    let b = bs[i];
                    assert(b[o[i]] < b[o[i] + 1]);
                }
            } else {
                let b = bs[t];
                assert(b[0] <= b[o[t]]);
                if o[t] + 1 < lv[t].len() {
                    assert(b[o[t] + 1] <= b[lv[t].len() as int]);
                }
                assert(m0[lv[t][o[t]]].children@.len() == b[o[t] + 1] - b[o[t]]);
            }
        }
    }
}


/// A node above the base has a nonempty run of children, within the
/// fan-out bound, one level down, the first sharing its interval start.
#[verifier::spinoff_prover]
proof fn lemma_node_kids<V: VectorCommitment>(
    m2: Map<NodeId, Node<V>>,
    heads: Seq<NodeId>,
    lv: Seq<Seq<NodeId>>,
    bs: Seq<Seq<int>>,
    j: int,
    i: int,
)
    requires
        levels_ok(m2, heads, lv, bs),
        fanout_ok(m2, lv),
        ptrs_ok(m2, heads.len() as int),
        1 <= j < lv.len(),
        0 <= i < lv[j].len(),
    ensures
        m2.contains_key(lv[j][i]),
        m2[lv[j][i]].level == j + 1,
        0 < m2[lv[j][i]].children@.len() <= MAX_FANOUT,
        forall|q: int| 0 <= q < m2[lv[j][i]].children@.len()
            ==> m2.contains_key(#[trigger] m2[lv[j][i]].children@[q]) && m2[m2[lv[j][i]].children@[q]].level == j,
        m2[m2[lv[j][i]].children@[0]].interval.0 == m2[lv[j][i]].interval.0,
{
    let x = lv[j][i];
    assert(bs.len() == lv.len()) by {
        reveal(levels_ok);
    }
    let b = bs[j];
    assert(level_seq_ok(m2, lv[j], j + 1) && level_seq_ok(m2, lv[j - 1], j) && children_ok(m2, lv[j], lv[j - 1], b)) by {
        reveal(levels_ok);
    }
    assert(m2[x].children@.len() <= MAX_FANOUT) by {
        reveal(fanout_ok);
    }
    assert(m2.contains_key(x));
    let ch = m2[x].children@;
    assert(b[i] < b[i + 1]);
    assert(b[0] <= b[i]) by {
        if i > 0 {
            assert(b[0] < b[i]);
        }
    }
    assert(b[i + 1] <= lv[j - 1].len()) by {
        if i + 1 < lv[j].len() {
            assert(b[i + 1] < b[lv[j].len() as int]);
        }
    }
    assert(ch =~= lv[j - 1].subrange(b[i], b[i + 1]));
    assert(m2[lv[j - 1][b[i]]].key == m2[x].key);
    assert(ch[0] == lv[j - 1][b[i]]);
    assert(m2.contains_key(ch[0]));
    assert(node_ptr_ok(m2, x, heads.len() as int) && node_ptr_ok(m2, ch[0], heads.len() as int)) by {
        reveal(ptrs_ok);
    }
    assert forall|q: int| 0 <= q < m2[lv[j][i]].children@.len()
        implies m2.contains_key(#[trigger] m2[lv[j][i]].children@[q]) && m2[m2[lv[j][i]].children@[q]].level == j by {
        let k = b[i] + q;
        assert(0 <= k < lv[j - 1].len());
        assert(ch[q] == lv[j - 1][k]);
        assert(level_seq_ok(m2, lv[j - 1], j));
        assert(lv[j - 1].len() >= 1);
        assert(m2.contains_key(lv[j - 1][k]));
        assert(m2[lv[j - 1][k]].level == j);
    }
}

/// What the commit pass needs to recommit the stale node of level index
/// `j`: its children are in place one level down, and few enough.
#[verifier::spinoff_prover]
proof fn lemma_path_ready<V: VectorCommitment>(
    vc: V,
    m2: Map<NodeId, Node<V>>,
    m: Map<NodeId, Node<V>>,
    heads: Seq<NodeId>,
    lv: Seq<Seq<NodeId>>,
    bs: Seq<Seq<int>>,
    lo: Seq<int>,
    hi: Seq<int>,
    j: int,
)
    requires
        path_shape(m2, heads, lv, bs, lo, hi),
        path_done(vc, m2, m, lv, lo, hi, j),
        fanout_ok(m2, lv),
        ptrs_ok(m2, heads.len() as int),
        1 <= j < lv.len(),
    ensures
        m.contains_key(lv[j][lo[j]]),
        m[lv[j][lo[j]]].level == j + 1,
        m[lv[j][lo[j]]].level > 1 ==> {
            let ch = m[lv[j][lo[j]]].children@;
            &&& 0 < ch.len() <= MAX_FANOUT
            &&& forall|q: int| 0 <= q < ch.len() ==> #[trigger] m.contains_key(ch[q]) && m[ch[q]].level == m[lv[j][lo[j]]].level - 1
        },
        m[m[lv[j][lo[j]]].children@[0]].interval.0 == m[lv[j][lo[j]]].interval.0,
{
    reveal(path_shape);
    reveal(path_done);
    let x = lv[j][lo[j]];
    assert(0 <= lo[j] < lv[j].len());
    lemma_node_kids(m2, heads, lv, bs, j, lo[j]);
    assert(m.contains_key(x));
    assert(m[x].same_but_commitment(m2[x]));
    let ch = m2[x].children@;
    assert forall|q: int| 0 <= q < ch.len() implies #[trigger] m.contains_key(ch[q]) && m[ch[q]].level == j by {
        assert(m2.contains_key(ch[q]));
        assert(m.contains_key(ch[q]));
        assert(m[ch[q]].same_but_commitment(m2[ch[q]]));
    }
    assert(m2.contains_key(ch[0]));
    assert(m.contains_key(ch[0]));
}

/// A finished commit pass leaves the levels well formed, committed, and
/// within the fan-out bound.
#[verifier::spinoff_prover]
proof fn lemma_path_final<V: VectorCommitment>(
    vc: V,
    m2: Map<NodeId, Node<V>>,
    m: Map<NodeId, Node<V>>,
    heads: Seq<NodeId>,
    lv: Seq<Seq<NodeId>>,
    bs: Seq<Seq<int>>,
    lo: Seq<int>,
    hi: Seq<int>,
)
    requires
        path_done(vc, m2, m, lv, lo, hi, lv.len() as int),
        levels_ok(m2, heads, lv, bs),
        fanout_ok(m2, lv),
    ensures
        levels_ok(m, heads, lv, bs),
        commits_ok(vc, m, lv),
        fanout_ok(m, lv),
        shape_same(m2, m),
{
    reveal(path_done);
    reveal(levels_ok);
    assert(shape_same(m2, m)) by {
        assert(m.dom() =~= m2.dom());
    }
    assert forall|l: int| 0 <= l < lv.len() implies level_seq_ok(m, #[trigger] lv[l], l + 1) by {
        assert(level_seq_ok(m2, lv[l], l + 1));
        assert forall|i: int| 0 <= i < lv[l].len() implies #[trigger] m.contains_key(lv[l][i]) && m[lv[l][i]].level == l + 1 by {
            assert(m2.contains_key(lv[l][i]));
        }
        assert forall|a: int, c: int| 0 <= a < c < lv[l].len() implies rank(m[#[trigger] lv[l][a]].key) < rank(m[#[trigger] lv[l][c]].key) by {
            assert(m2.contains_key(lv[l][a]));
            assert(m2.contains_key(lv[l][c]));
        }
    }
    assert forall|l: int| 1 <= l < lv.len() implies children_ok(m, #[trigger] lv[l], lv[l - 1], bs[l]) by {
        assert(children_ok(m2, lv[l], lv[l - 1], bs[l]));
        assert(level_seq_ok(m2, lv[l], l + 1));
        assert(level_seq_ok(m2, lv[l - 1], l));
        assert forall|i: int| 0 <= i < lv[l].len() implies #[trigger] m[lv[l][i]].children@ == m2[lv[l][i]].children@ by {
            assert(m2.contains_key(lv[l][i]));
        }
        assert forall|i: int| 0 <= i < lv[l].len() implies #[trigger] m[lv[l][i]].key == m2[lv[l][i]].key by {
            assert(m2.contains_key(lv[l][i]));
        }
        assert forall|q: int| 0 <= q < lv[l - 1].len() implies #[trigger] m[lv[l - 1][q]].key == m2[lv[l - 1][q]].key by {
            assert(m2.contains_key(lv[l - 1][q]));
        }
        lemma_same_children(m2, m, lv[l], lv[l - 1], bs[l]);
    }
    assert(commits_ok(vc, m, lv)) by {
        reveal(commits_ok);
    }
    assert(fanout_ok(m, lv)) by {
        reveal(fanout_ok);
        assert forall|l: int, i: int| 1 <= l < lv.len() && 0 <= i < lv[l].len() implies m[#[trigger] lv[l][i]].children@.len() <= MAX_FANOUT by {
            assert(level_seq_ok(m2, lv[l], l + 1));
            assert(m2.contains_key(lv[l][i]));
        }
    }
}

/// Unlinking the children and then removing the key's nodes leaves every
/// other node as it was but for its links, with the delete's children.
#[verifier::spinoff_prover]
proof fn lemma_del_removed<V: VectorCommitment>(
    m0: Map<NodeId, Node<V>>,
    m1: Map<NodeId, Node<V>>,
    m2: Map<NodeId, Node<V>>,
    lv: Seq<Seq<NodeId>>,
    bs: Seq<Seq<int>>,
    o: Seq<int>,
    t: int,
    key: Key,
)
    requires
        del_shape(m0, lv, bs, o, t, key),
        m1.dom() == m0.dom(),
        forall|y: NodeId| #[trigger] m1.contains_key(y) ==> m1[y].same_but_children(m0[y]),
        del_children_ok(m0, m1, lv, bs, o, t),
        forall|y: NodeId| #[trigger] m2.contains_key(y) <==> m1.contains_key(y) && m1[y].key != key,
        forall|y: NodeId| #[trigger] m2.contains_key(y) ==> same_but_right(m2[y], m1[y]),
    ensures
        forall|y: NodeId| #[trigger] m2.contains_key(y) <==> m0.contains_key(y) && m0[y].key != key,
        forall|y: NodeId| #[trigger] m2.contains_key(y) ==> same_but_links(m2[y], m0[y]),
        del_children_ok(m0, m2, lv, bs, o, t),
{
    lemma_del_shape_len(m0, lv, bs, o, t, key);
    assert forall|y: NodeId| #[trigger] m2.contains_key(y) <==> m0.contains_key(y) && m0[y].key != key by {
        if m0.contains_key(y) {
            assert(m1.contains_key(y));
        }
    }
    assert forall|y: NodeId| #[trigger] m2.contains_key(y) implies same_but_links(m2[y], m0[y]) by {
        assert(m1.contains_key(y));
    }
    lemma_del_shape_at(m0, lv, bs, o, t, key, t);
    let p = lv[t][o[t]];
    assert(m0.contains_key(p));
    assert(m2.contains_key(p));
    assert forall|i: int| #![trigger lv[i]] 1 <= i < t implies m2[lv[i][o[i] - 1]].children@
        == m0[lv[i][o[i] - 1]].children@ + m0[lv[i][o[i]]].children@.subrange(1, m0[lv[i][o[i]]].children@.len() as int) by {
        lemma_del_shape_at(m0, lv, bs, o, t, key, i);
        let q = lv[i][o[i] - 1];
        assert(m0.contains_key(q));
        assert(m0[q].key != key);
        assert(m2.contains_key(q));
        assert(m1[lv[i][o[i] - 1]].children@
            == m0[lv[i][o[i] - 1]].children@ + m0[lv[i][o[i]]].children@.subrange(1, m0[lv[i][o[i]]].children@.len() as int));
    }
    assert forall|y: NodeId| #[trigger] m2.contains_key(y) && m2[y].children != m0[y].children implies y == lv[t][o[t]]
        || (2 <= m0[y].level <= t && y == lv[m0[y].level - 1][o[m0[y].level - 1] - 1]) by {
        assert(m1.contains_key(y));
    }
}

/// Dropping the base node of `k` drops `k`, and only `k`, from the keys.
#[verifier::spinoff_prover]
proof fn lemma_del_view<V: VectorCommitment>(
    m0: Map<NodeId, Node<V>>,
    mf: Map<NodeId, Node<V>>,
    base: Seq<NodeId>,
    ob: int,
    k: u64,
)
    requires
        base_ok(m0, base),
        0 <= ob < base.len(),
        m0[base[ob]].key == Key::Val(k),
        forall|i: int| 0 <= i < base.len() && i != ob ==> #[trigger] mf[base[i]].key == m0[base[i]].key,
    ensures
        base_keys(mf, base.remove(ob)) == base_keys(m0, base).remove(k),
{
    reveal(base_ok);
    let b2 = base.remove(ob);
    assert forall|v: u64| #[trigger] base_keys(mf, b2).contains(v) <==> base_keys(m0, base).remove(k).contains(v) by {
        if base_keys(mf, b2).contains(v) {
            let i = choose|i: int| 0 <= i < b2.len() && #[trigger] mf[b2[i]].key == Key::Val(v);
            let q = if i < ob { i } else { i + 1 };
            assert(b2[i] == base[q]);
            assert(mf[base[q]].key == m0[base[q]].key);
            assert(m0[base[q]].key == Key::Val(v));
            if v == k {
                if q < ob {
                    assert(rank(m0[base[q]].key) < rank(m0[base[ob]].key));
                } else {
                    assert(rank(m0[base[ob]].key) < rank(m0[base[q]].key));
                }
            }
        }
        if base_keys(m0, base).remove(k).contains(v) {
            let q = choose|q: int| 0 <= q < base.len() && #[trigger] m0[base[q]].key == Key::Val(v);
            assert(q != ob);
            let i = if q < ob { q } else { q - 1 };
            assert(b2[i] == base[q]);
            assert(mf[b2[i]].key == Key::Val(v));
        }
    }
    assert(base_keys(mf, b2) =~= base_keys(m0, base).remove(k));
}

/// The stale node of each level of a delete's result: the predecessor on a
/// tower level, the owner above.
proof fn lemma_del_stale_node(lv: Seq<Seq<NodeId>>, o: Seq<int>, t: int, j: int)
    requires
        o.len() == lv.len(),
        1 <= j < lv.len(),
        0 <= o[j] < lv[j].len(),
        j < t ==> 1 <= o[j],
    ensures
        del_levels(lv, o, t)[j][del_stale(o, t)[j]] == (if j < t { lv[j][o[j] - 1] } else { lv[j][o[j]] }),
{
}

/// After a delete, every node of the old levels off the key's path and not
/// a left neighbour of its tower above the base keeps its commitment and
/// opener: the commit pass only touched the nodes it recorded in `done`.
proof fn lemma_del_frame<V: VectorCommitment>(
    m0: Map<NodeId, Node<V>>,
    m2: Map<NodeId, Node<V>>,
    mf: Map<NodeId, Node<V>>,
    lv: Seq<Seq<NodeId>>,
    bs: Seq<Seq<int>>,
    o: Seq<int>,
    t: int,
    key: Key,
    done: Seq<NodeId>,
)
    requires
        del_shape(m0, lv, bs, o, t, key),
        forall|y: NodeId| #[trigger] m2.contains_key(y) <==> m0.contains_key(y) && m0[y].key != key,
        forall|y: NodeId| #[trigger] m2.contains_key(y) ==> same_but_links(m2[y], m0[y]),
        mf.dom() == m2.dom(),
        forall|y: NodeId| #[trigger] mf.contains_key(y) && !done.contains(y) ==> mf[y] == m2[y],
        done.len() == lv.len() - 1,
        forall|i: int| 0 <= i < done.len() ==> #[trigger] done[i] == del_levels(lv, o, t)[i + 1][del_stale(o, t)[i + 1]],
    ensures
        forall|l: int, q: int| #![trigger lv[l][q]] 0 <= l < lv.len() && 0 <= q < lv[l].len() && q != o[l]
            && !(1 <= l < t && q + 1 == o[l]) ==> {
                &&& mf.contains_key(lv[l][q])
                &&& mf[lv[l][q]].commitment == m0[lv[l][q]].commitment
                &&& mf[lv[l][q]].opener == m0[lv[l][q]].opener
            },
{
    assert forall|l: int, q: int| #![trigger lv[l][q]] 0 <= l < lv.len() && 0 <= q < lv[l].len() && q != o[l]
        && !(1 <= l < t && q + 1 == o[l]) implies {
            &&& mf.contains_key(lv[l][q])
            &&& mf[lv[l][q]].commitment == m0[lv[l][q]].commitment
            &&& mf[lv[l][q]].opener == m0[lv[l][q]].opener
        } by {
        reveal(del_shape);
        let x = lv[l][q];
        assert(level_seq_ok(m0, lv[l], l + 1));
        assert(m0.contains_key(x));
        assert(is_owner(m0, lv[l], o[l], key));
        if m0[x].key == key {
            assert(l < t && q == o[l]);
        }
        assert(m2.contains_key(x));
        assert(!done.contains(x)) by {
            if done.contains(x) {
                reveal(del_shape);
                let i = choose|i: int| 0 <= i < done.len() && done[i] == x;
                let j = i + 1;
                assert(is_owner(m0, lv[j], o[j], key));
                assert(level_seq_ok(m0, lv[j], j + 1));
                if j < t {
                    assert(1 <= o[j]);
                }
                lemma_del_stale_node(lv, o, t, j);
                let p = if j < t { o[j] - 1 } else { o[j] };
                assert(done[i] == lv[j][p]);
                assert(m0.contains_key(lv[j][p]));
                if j == l {
                    assert(p != q);
                    if p < q {
                        assert(rank(m0[lv[l][p]].key) < rank(m0[lv[l][q]].key));
                    } else {
                        assert(rank(m0[lv[l][q]].key) < rank(m0[lv[l][p]].key));
                    }
                } else {
                    assert(m0[lv[j][p]].level == j + 1);
                }
            }
        }
    }
}

impl<V: VectorCommitment> Ibsl<V> {
    /// There is room to delete `k`: on every level of `k`'s tower, the
    /// tower node's predecessor can take over the tower node's children but
    /// the first.
    pub closed spec fn delete_fits(&self, k: u64) -> bool {
        forall|l: int| 1 <= l < self.heads@.len() && #[trigger] self.nodes@[self.path_node(l, Key::Val(k))].key == Key::Val(k)
            ==> self.nodes@[self.levels@[l][owner(self.nodes@, self.levels@[l], Key::Val(k)) - 1]].children@.len()
                + self.nodes@[self.path_node(l, Key::Val(k))].children@.len() <= MAX_FANOUT + 1
    }

    /// `delete_fits` from the room it asks for on each tower level.
    pub(super) proof fn lemma_delete_fits_intro(&self, k: u64)
        requires
            forall|l: int| 1 <= l < self.heads@.len() && #[trigger] self.nodes@[self.path_node(l, Key::Val(k))].key == Key::Val(k)
                ==> self.nodes@[self.levels@[l][owner(self.nodes@, self.levels@[l], Key::Val(k)) - 1]].children@.len()
                    + self.nodes@[self.path_node(l, Key::Val(k))].children@.len() <= MAX_FANOUT + 1,
        ensures
            self.delete_fits(k),
    {
    }

    /// How many levels, from the base up, have `key` itself as the owner of
    /// its range: the height of its tower.
    #[verifier::spinoff_prover]
    fn tower_height(&self, owners: &Vec<NodeId>, key: Key) -> (t: usize)
        requires
            self.wf(),
            owners@.len() == self.heads@.len() + 1,
            forall|l: int| 0 <= l < self.heads@.len() ==> #[trigger] owners@[l + 1] == self.path_node(l, key),
        ensures
            t <= self.heads@.len(),
            forall|j: int| 0 <= j < t ==> #[trigger] self.nodes@[self.path_node(j, key)].key == key,
            t < self.heads@.len() ==> self.nodes@[self.path_node(t as int, key)].key != key,
    {
        let h = self.heads.len();
        let mut t: usize = 0;
        loop
            invariant
                self.wf(),
                h == self.heads@.len(),
                owners@.len() == h + 1,
                forall|l: int| 0 <= l < h ==> #[trigger] owners@[l + 1] == self.path_node(l, key),
                t <= h,
                forall|j: int| 0 <= j < t ==> #[trigger] self.nodes@[self.path_node(j, key)].key == key,
            ensures
                t <= h,
                forall|j: int| 0 <= j < t ==> #[trigger] self.nodes@[self.path_node(j, key)].key == key,
                t < h ==> self.nodes@[self.path_node(t as int, key)].key != key,
            decreases h - t,
        {
            if t >= h {
                break;
            }
            proof {
                self.lemma_path_step(t as int, key);
                assert(owners@[t + 1] == self.path_node(t as int, key));
            }
            if !key_eq(self.nodes.get(&owners[t + 1]).unwrap().key, key) {
                break;
            }
            t = t + 1;
        }
        t
    }

    /// The tower's same-level predecessors, by level: `preds[t]` is the
    /// child just before the tower top among its parent's children (never
    /// the first child, which shares the parent's key), and below it each
    /// predecessor is the last child of the one above. Entries below level
    /// 2 are unused.
    #[verifier::spinoff_prover]
    fn tower_preds(
        &self,
        p: NodeId,
        pos: usize,
        t: usize,
        Ghost(lv): Ghost<Seq<Seq<NodeId>>>,
        Ghost(bs): Ghost<Seq<Seq<int>>>,
        Ghost(o): Ghost<Seq<int>>,
        Ghost(key): Ghost<Key>,
    ) -> (preds: Vec<NodeId>)
        requires
            del_shape(self.nodes@, lv, bs, o, t as int, key),
            lv.len() == self.heads@.len(),
            p == lv[t as int][o[t as int]],
            pos == o[t - 1] - bs[t as int][o[t as int]],
        ensures
            preds@.len() == t + 1,
            forall|l: int| 2 <= l <= t ==> #[trigger] preds@[l] == lv[l - 1][o[l - 1] - 1],
    {
        let ghost m = self.nodes@;
        proof {
            lemma_del_shape_len(m, lv, bs, o, t as int, key);
        }
        let hlen = self.heads.len();
        assert(t < hlen);
        let mut preds: Vec<NodeId> = vec![usize::MAX; t + 1];
        if t >= 2 {
            proof {
                lemma_del_shape_at(m, lv, bs, o, t as int, key, t as int);
                let b = bs[t as int];
                assert(m[p].children@ == lv[t - 1].subrange(b[o[t as int]], b[o[t as int] + 1]));
                assert(o[t - 1] < lv[t - 1].len());
            }
            let pn = self.nodes.get(&p).unwrap();
            preds.set(t, pn.children[pos - 1]);
            let mut l: usize = t - 1;
            while l >= 2
                invariant
                    del_shape(m, lv, bs, o, t as int, key),
                    t < lv.len(),
                    m == self.nodes@,
                    1 <= l < t,
                    preds@.len() == t + 1,
                    forall|x: int| l + 1 <= x <= t ==> #[trigger] preds@[x] == lv[x - 1][o[x - 1] - 1],
                decreases l,
            {
                proof {
                    lemma_del_shape_at(m, lv, bs, o, t as int, key, l as int);
                    let b = bs[l as int];
                    let i = o[l as int] - 1;
                    assert(0 <= i < lv[l as int].len());
                    assert(m.contains_key(lv[l as int][i]));
                    assert(m[lv[l as int][i]].children@ == lv[l - 1].subrange(b[i], b[i + 1]));
                    assert(b[i] < b[i + 1]);
                    assert(b[i + 1] == o[l - 1]);
                    assert(preds@[l + 1] == lv[l as int][i]);
                }
                let q = preds[l + 1];
                let qn = self.nodes.get(&q).unwrap();
                let last = qn.children[qn.children.len() - 1];
                preds.set(l, last);
                l = l - 1;
            }
        }
        preds
    }

    /// Reassigns children for a delete: the tower top's parent drops it, and
    /// at every tower level the predecessor takes over the tower node's
    /// children but the first, which is the tower node one level down.
    #[verifier::spinoff_prover]
    fn unlink_children(
        &mut self,
        p: NodeId,
        pos: usize,
        owners: &Vec<NodeId>,
        preds: &Vec<NodeId>,
        t: usize,
        Ghost(lv): Ghost<Seq<Seq<NodeId>>>,
        Ghost(bs): Ghost<Seq<Seq<int>>>,
        Ghost(o): Ghost<Seq<int>>,
        Ghost(key): Ghost<Key>,
    )
        requires
            del_shape(old(self).nodes@, lv, bs, o, t as int, key),
            p == lv[t as int][o[t as int]],
            pos == o[t - 1] - bs[t as int][o[t as int]],
            owners@.len() > t,
            forall|l: int| 1 <= l <= t ==> #[trigger] owners@[l] == lv[l - 1][o[l - 1]],
            preds@.len() == t + 1,
            forall|l: int| 2 <= l <= t ==> #[trigger] preds@[l] == lv[l - 1][o[l - 1] - 1],
        ensures
            final(self).same_but_nodes(old(self)),
            final(self).nodes@.dom() == old(self).nodes@.dom(),
            forall|y: NodeId| #[trigger] final(self).nodes@.contains_key(y) ==> final(self).nodes@[y].same_but_children(old(self).nodes@[y]),
            del_children_ok(old(self).nodes@, final(self).nodes@, lv, bs, o, t as int),
    {
        let ghost m0 = self.nodes@;
        let ghost ti = t as int;
        proof {
            lemma_del_shape_len(m0, lv, bs, o, ti, key);
            lemma_del_shape_at(m0, lv, bs, o, ti, key, ti);
            let b = bs[ti];
            assert(m0[p].children@ == lv[ti - 1].subrange(b[o[ti]], b[o[ti] + 1]));
            assert(o[ti - 1] < lv[ti - 1].len());
            assert(m0.contains_key(p));
        }
        let pn = self.nodes.get(&p).unwrap();
        let mut c = copy_slice(pn.children.as_slice());
        c.remove(pos);
        self.set_children(p, c);
        let mut l: usize = 2;
        while l <= t
            invariant
                del_shape(m0, lv, bs, o, ti, key),
                ti == t,
                ti < lv.len(),
                2 <= l <= t + 1,
                p == lv[ti][o[ti]],
                pos == o[ti - 1] - bs[ti][o[ti]],
                owners@.len() > t,
                forall|x: int| 1 <= x <= t ==> #[trigger] owners@[x] == lv[x - 1][o[x - 1]],
                preds@.len() == t + 1,
                forall|x: int| 2 <= x <= t ==> #[trigger] preds@[x] == lv[x - 1][o[x - 1] - 1],
                self.same_but_nodes(old(self)),
                self.nodes@.dom() == m0.dom(),
                forall|y: NodeId| #[trigger] self.nodes@.contains_key(y) ==> self.nodes@[y].same_but_children(m0[y]),
                self.nodes@[p].children@ == m0[p].children@.remove(pos as int),
                forall|i: int| #![trigger lv[i]] 1 <= i < l - 1 ==> self.nodes@[lv[i][o[i] - 1]].children@
                    == m0[lv[i][o[i] - 1]].children@ + m0[lv[i][o[i]]].children@.subrange(1, m0[lv[i][o[i]]].children@.len() as int),
                forall|y: NodeId| #[trigger] self.nodes@.contains_key(y) && self.nodes@[y].children != m0[y].children ==> y == p
                    || (2 <= m0[y].level < l && y == lv[m0[y].level - 1][o[m0[y].level - 1] - 1]),
            decreases t + 1 - l,
        {
            let ghost m = self.nodes@;
            let ghost i = l - 1;
            let w = owners[l];
            let q = preds[l];
            proof {
                lemma_del_shape_at(m0, lv, bs, o, ti, key, i);
                assert(w == lv[i][o[i]]);
                assert(q == lv[i][o[i] - 1]);
                assert(m0.contains_key(w) && m0.contains_key(q));
                assert(m0[w].key == key);
                assert(m0[q].key != key);
                assert(m0[q].level == l);
                lemma_del_shape_at(m0, lv, bs, o, ti, key, ti);
                assert(m0.contains_key(p));
                assert(m0[p].level == t + 1);
                assert(m.contains_key(w) && m.contains_key(q));
                assert(m[w].children == m0[w].children) by {
                    if m[w].children != m0[w].children {
                        if w != p {
                            let lw = m0[w].level - 1;
                            assert(m0.contains_key(lv[lw][o[lw] - 1]));
                            assert(m0[lv[lw][o[lw] - 1]].key != key);
                        }
                    }
                }
                assert(m[q].children == m0[q].children);
            }
            let wn = self.nodes.get(&w).unwrap();
            let qn = self.nodes.get(&q).unwrap();
            let mut c = copy_slice(qn.children.as_slice());
            let mut s: usize = 1;
            while s < wn.children.len()
                invariant
                    1 <= s <= wn.children@.len() || wn.children@.len() == 0,
                    c@ == qn.children@ + wn.children@.subrange(1, s as int),
                decreases wn.children@.len() - s,
            {
                c.push(wn.children[s]);
                s = s + 1;
            }
            self.set_children(q, c);
            proof {
                let m3 = self.nodes@;
                assert(wn.children@.len() >= 1);
                assert(m3[q].children@ == m0[q].children@ + m0[w].children@.subrange(1, m0[w].children@.len() as int));
                assert forall|y: NodeId| #[trigger] m3.contains_key(y) implies m3[y].same_but_children(m0[y]) by {
                    assert(m.contains_key(y));
                }
                assert forall|j: int| #![trigger lv[j]] 1 <= j < l implies m3[lv[j][o[j] - 1]].children@
                    == m0[lv[j][o[j] - 1]].children@ + m0[lv[j][o[j]]].children@.subrange(1, m0[lv[j][o[j]]].children@.len() as int) by {
                    if j < i {
                        lemma_del_shape_at(m0, lv, bs, o, ti, key, j);
                        assert(m0.contains_key(lv[j][o[j] - 1]));
                        assert(m0[lv[j][o[j] - 1]].level == j + 1);
                        assert(lv[j][o[j] - 1] != q);
                    }
                }
                assert forall|y: NodeId| #[trigger] m3.contains_key(y) && m3[y].children != m0[y].children implies y == p
                    || (2 <= m0[y].level < l + 1 && y == lv[m0[y].level - 1][o[m0[y].level - 1] - 1]) by {
                    assert(m.contains_key(y));
                    if y == q {
                        assert(m0[y].level == l);
                    }
                }
                assert(m3[p].children == m[p].children);
            }
            l = l + 1;
        }
    }

    /// The plan of a delete of the member `k`: the owner path, the height
    /// `t` of `k`'s tower, the tower top's parent `p` with the tower top's
    /// position among its children, and the tower's predecessors.
    #[verifier::spinoff_prover]
    fn delete_plan(&self, k: u64) -> (r: (Vec<NodeId>, usize, NodeId, usize, Vec<NodeId>))
        requires
            self.wf(),
            self@.contains(k),
        ensures
            ({
                let (owners, t, p, pos, preds) = r;
                let m0 = self.nodes@;
                let lv = self.levels@;
                let bs = self.bounds@;
                let key = Key::Val(k);
                let o = owner_idx(m0, lv, key);
                &&& del_shape(m0, lv, bs, o, t as int, key)
                &&& t < self.heads@.len()
                &&& owners@.len() == self.heads@.len() + 1
                &&& forall|l: int| 0 <= l < self.heads@.len() ==> #[trigger] owners@[l + 1] == self.path_node(l, key)
                &&& forall|l: int| 1 <= l <= t ==> #[trigger] owners@[l] == lv[l - 1][o[l - 1]]
                &&& forall|j: int| 0 <= j < t ==> #[trigger] self.nodes@[self.path_node(j, key)].key == key
                &&& p == lv[t as int][o[t as int]]
                &&& pos == o[t - 1] - bs[t as int][o[t as int]]
                &&& preds@.len() == t + 1
                &&& forall|l: int| 2 <= l <= t ==> #[trigger] preds@[l] == lv[l - 1][o[l - 1] - 1]
            }),
    {
        let key = Key::Val(k);
        let ghost m0 = self.nodes@;
        let ghost heads = self.heads@;
        let ghost lv = self.levels@;
        let ghost bs = self.bounds@;
        let h = self.heads.len();
        let owners = self.owner_path(key);
        let t = self.tower_height(&owners, key);
        let ghost o = owner_idx(m0, lv, key);
        let ghost ti = t as int;
        proof {
            self.lemma_leaf_is_key(k);
            assert(h >= 2) by {
                reveal(heads_ok);
            }
            assert(1 <= t);
            self.lemma_path_step(h - 1, key);
            assert(lv[h - 1] == seq![heads[h - 1]] && m0[heads[h - 1]].key == Key::NegInf) by {
                reveal(levels_ok);
                reveal(heads_ok);
            }
            assert(t < h);
            assert forall|j: int| 0 <= j < ti implies #[trigger] m0[lv[j][owner(m0, lv[j], key)]].key == key by {
                assert(self.nodes@[self.path_node(j, key)].key == key);
            }
            assert(m0[lv[ti][owner(m0, lv[ti], key)]].key != key);
            lemma_del_setup(m0, heads, lv, bs, key, ti);
            lemma_del_shape_len(m0, lv, bs, o, ti, key);
            assert forall|l: int| 1 <= l <= t implies #[trigger] owners@[l] == lv[l - 1][o[l - 1]] by {
                assert(owners@[(l - 1) + 1] == self.path_node(l - 1, key));
            }
            assert(owners@[ti + 1] == lv[ti][o[ti]]);
            lemma_del_shape_at(m0, lv, bs, o, ti, key, ti);
            lemma_del_shape_at(m0, lv, bs, o, ti, key, ti - 1);
            assert(m0.contains_key(lv[ti][o[ti]]));
            let b = bs[ti];
            let ch = m0[lv[ti][o[ti]]].children@;
            assert(ch == lv[ti - 1].subrange(b[o[ti]], b[o[ti] + 1]));
            assert(b[o[ti] + 1] <= lv[ti - 1].len()) by {
                if o[ti] + 1 < lv[ti].len() {
                    assert(b[o[ti] + 1] < b[lv[ti].len() as int]);
                }
            }
            assert(ch[o[ti - 1] - b[o[ti]]] == owners@[ti]);
        }
        let p = owners[t + 1];
        let pos = Self::position_of(&self.nodes.get(&p).unwrap().children, owners[t]);
        proof {
            let b = bs[ti];
            let ch = m0[p].children@;
            let want = o[ti - 1] - b[o[ti]];
            if pos < want {
                assert(ch[pos as int] == lv[ti - 1][b[o[ti]] + pos]);
                assert(rank(m0[lv[ti - 1][b[o[ti]] + pos]].key) < rank(m0[lv[ti - 1][o[ti - 1]]].key));
            } else if pos > want {
                assert(ch[want] == owners@[ti]);
            }
            assert(pos == want);
        }
        let preds = self.tower_preds(p, pos, t, Ghost(lv), Ghost(bs), Ghost(o), Ghost(key));
        (owners, t, p, pos, preds)
    }

    /// Whether `delete(k)` has room (`delete_fits`): on every level of
    /// `k`'s tower but the base, the predecessor keeps within the fan-out
    /// bound once it takes over the tower node's children but the first.
    #[verifier::spinoff_prover]
    pub fn can_delete(&self, k: u64) -> (r: bool)
        requires
            self.wf(),
        ensures
            r == self.delete_fits(k),
    {
        let key = Key::Val(k);
        if !self.search(k) {
            proof {
                let m = self.nodes@;
                assert forall|l: int| 1 <= l < self.heads@.len() implies #[trigger] m[self.path_node(l, key)].key != key by {
                    self.lemma_path_step(l, key);
                    if m[self.path_node(l, key)].key == key {
                        lemma_key_in_base(m, self.heads@.len() as int, self.levels@[0], self.path_node(l, key), k);
                    }
                }
            }
            return true;
        }
        let ghost m0 = self.nodes@;
        let ghost lv = self.levels@;
        let ghost bs = self.bounds@;
        let ghost o = owner_idx(m0, lv, key);
        let (owners, t, _p, _pos, preds) = self.delete_plan(k);
        proof {
            lemma_del_shape_len(m0, lv, bs, o, t as int, key);
            assert(fanout_ok(m0, lv));
        }
        let mut l: usize = 1;
        while l < t
            invariant
                1 <= l <= t,
                key == Key::Val(k),
                t < lv.len(),
                lv.len() == self.heads@.len(),
                m0 == self.nodes@,
                lv == self.levels@,
                del_shape(m0, lv, bs, o, t as int, key),
                fanout_ok(m0, lv),
                owners@.len() == lv.len() + 1,
                forall|x: int| 1 <= x <= t ==> #[trigger] owners@[x] == lv[x - 1][o[x - 1]],
                preds@.len() == t + 1,
                forall|x: int| 2 <= x <= t ==> #[trigger] preds@[x] == lv[x - 1][o[x - 1] - 1],
                forall|x: int| #![trigger lv[x]] 1 <= x < l ==> m0[lv[x][o[x] - 1]].children@.len()
                    + m0[lv[x][o[x]]].children@.len() <= MAX_FANOUT + 1,
            decreases t - l,
        {
            let ghost li = l as int;
            proof {
                lemma_del_shape_at(m0, lv, bs, o, t as int, key, li);
                assert(m0.contains_key(lv[li][o[li] - 1]) && m0.contains_key(lv[li][o[li]]));
                assert(owners@[li + 1] == lv[li][o[li]]);
                assert(preds@[li + 1] == lv[li][o[li] - 1]);
                reveal(fanout_ok);
                assert(m0[lv[li][o[li]]].children@.len() <= MAX_FANOUT);
                assert(m0[lv[li][o[li] - 1]].children@.len() <= MAX_FANOUT);
            }
            let a = self.nodes.get(&preds[l + 1]).unwrap().children.len();
            let b = self.nodes.get(&owners[l + 1]).unwrap().children.len();
            if a + b > MAX_FANOUT + 1 {
                proof {
                    assert(o[li] == owner(m0, lv[li], key));
                    assert(self.path_node(li, key) == lv[li][o[li]]);
                    assert(self.nodes@[self.path_node(li, key)].key == key);
                    assert(a == m0[lv[li][owner(m0, lv[li], key) - 1]].children@.len());
                    assert(b == m0[self.path_node(li, key)].children@.len());
                    assert(!self.delete_fits(k));
                }
                return false;
            }
            l = l + 1;
        }
        proof {
            assert forall|x: int| 1 <= x < self.heads@.len() && #[trigger] m0[self.path_node(x, key)].key == key implies
                m0[lv[x][owner(m0, lv[x], key) - 1]].children@.len() + m0[self.path_node(x, key)].children@.len() <= MAX_FANOUT + 1 by {
                lemma_del_shape_at(m0, lv, bs, o, t as int, key, x);
                assert(m0.contains_key(lv[x][o[x]]));
            }
        }
        true
    }

    /// Removes `k` from the set and reports whether it was a member: the
    /// parent of `k`'s tower drops the tower top, each predecessor takes over
    /// the children of `k`'s node beside it, the tower leaves the map, and
    /// commitments are recomputed along the affected path only. No
    /// rebalancing happens.
    #[verifier::spinoff_prover]
    pub fn delete(&mut self, k: u64) -> (r: bool)
        requires
            old(self).wf(),
            old(self).delete_fits(k),
        ensures
            final(self).wf(),
            r == old(self)@.contains(k),
            final(self)@ == old(self)@.remove(k),
            final(self).params() == old(self).params(),
            final(self).spec_height() == old(self).spec_height(),
            final(self).spec_threshold() == old(self).spec_threshold(),
            final(self).spec_ids_used() == old(self).spec_ids_used(),
            !old(self)@.contains(k) ==> *final(self) == *old(self),
            old(self).keeps_off_tower(*final(self), k),
    {
        let key = Key::Val(k);
        if !self.search(k) {
            proof {
                assert(old(self)@.remove(k) =~= old(self)@);
                self.lemma_keeps_self(k);
            }
            return false;
        }
        let ghost m0 = self.nodes@;
        let ghost heads = self.heads@;
        let ghost lv = self.levels@;
        let ghost bs = self.bounds@;
        let ghost vc = self.vc;
        let ghost o = owner_idx(m0, lv, key);
        let h = self.heads.len();
        let (owners, t, p, pos, preds) = self.delete_plan(k);
        let ghost ti = t as int;
        proof {
            lemma_del_shape_len(m0, lv, bs, o, ti, key);
            assert forall|i: int| #![trigger lv[i]] 1 <= i < ti implies m0[lv[i][o[i] - 1]].children@.len()
                + m0[lv[i][o[i]]].children@.len() <= MAX_FANOUT + 1 by {
                assert(old(self).nodes@[old(self).path_node(i, key)].key == key);
            }
        }
        self.unlink_children(p, pos, &owners, &preds, t, Ghost(lv), Ghost(bs), Ghost(o), Ghost(key));
        let ghost m1 = self.nodes@;
        proof {
            assert(shape_same(m0, m1));
            lemma_shape_keeps(m0, m1, heads, lv[0]);
            lemma_del_shape_at(m0, lv, bs, o, ti, key, 0);
            assert(m0.contains_key(lv[0][o[0]]));
            assert(m1[lv[0][o[0]]].key == key);
            assert(o[0] < lv[0].len() - 1) by {
                reveal(base_ok);
            }
            assert forall|x: NodeId| #[trigger] m1.contains_key(x) implies x < self.next_id by {
                assert(m0.contains_key(x));
            }
        }
        self.remove_tower(key, Ghost(lv[0]), Ghost(o[0]));
        let ghost m2 = self.nodes@;
        let ghost l2 = del_levels(lv, o, ti);
        let ghost b2 = del_bounds(bs, o, ti);
        let ghost st = del_stale(o, ti);
        proof {
            lemma_del_removed(m0, m1, m2, lv, bs, o, ti, key);
            lemma_del_path_shape(m0, m2, heads, lv, bs, o, ti, key);
            lemma_del_path_start(vc, m0, m2, heads, lv, bs, o, ti, key);
            lemma_del_fanout(m0, m2, lv, bs, o, ti, key);
            lemma_path_skip(vc, m2, m2, l2, st, st, 0);
            assert forall|i: int| 0 <= i < h implies 0 <= #[trigger] o[i] < lv[i].len() && (i < ti ==> 1 <= o[i]) by {
                lemma_del_shape_at(m0, lv, bs, o, ti, key, i);
            }
            assert forall|l: int| 0 <= l < h implies #[trigger] owners@[l + 1] == lv[l][o[l]] by {
                assert(owners@[l + 1] == old(self).path_node(l, key));
            }
        }
        let ghost mut done: Seq<NodeId> = Seq::empty();
        let mut j: usize = 1;
        while j < h
            invariant
                1 <= j <= h,
                h == heads.len(),
                done.len() == j - 1,
                forall|i: int| 0 <= i < done.len() ==> #[trigger] done[i] == l2[i + 1][st[i + 1]],
                forall|y: NodeId| #[trigger] self.nodes@.contains_key(y) && !done.contains(y) ==> self.nodes@[y] == m2[y],
                self.nodes@.dom() == m2.dom(),
                l2 == del_levels(lv, o, ti),
                st == del_stale(o, ti),
                l2.len() == h,
                1 <= ti < h,
                ti == t,
                o.len() == lv.len(),
                lv.len() == h,
                forall|i: int| 0 <= i < h ==> 0 <= #[trigger] o[i] < lv[i].len(),
                forall|i: int| 0 <= i < ti ==> 1 <= #[trigger] o[i],
                path_shape(m2, heads, l2, b2, st, st),
                path_done(vc, m2, self.nodes@, l2, st, st, j as int),
                self.same_but_nodes(old(self)),
                forall|x: NodeId| #[trigger] m0.contains_key(x) ==> x < self.next_id,
                forall|x: NodeId| #[trigger] m2.contains_key(x) ==> m0.contains_key(x),
                fanout_ok(m2, l2),
                ptrs_ok(m2, h as int),
                self.vc == vc,
                vc.wf(),
                vc.max_width() >= MAX_FANOUT,
                self.heads@ == heads,
                owners@.len() == h + 1,
                forall|l: int| 0 <= l < h ==> #[trigger] owners@[l + 1] == lv[l][o[l]],
                preds@.len() == t + 1,
                forall|l: int| 2 <= l <= t ==> #[trigger] preds@[l] == lv[l - 1][o[l - 1] - 1],
            decreases h - j,
        {
            let x = if j < t { preds[j + 1] } else { owners[j + 1] };
            proof {
                lemma_del_stale_node(lv, o, ti, j as int);
                let ji = j as int;
                if j < t {
                    assert(x == preds@[ji + 1]);
                    assert(preds@[ji + 1] == lv[ji][o[ji] - 1]);
                    assert(l2[ji][st[ji]] == lv[ji][o[ji] - 1]);
                } else {
                    assert(x == owners@[ji + 1]);
                    assert(owners@[ji + 1] == lv[ji][o[ji]]);
                    assert(l2[ji][st[ji]] == lv[ji][o[ji]]);
                }
                assert(x == l2[ji][st[ji]]);
                lemma_path_ready(vc, m2, self.nodes@, heads, l2, b2, st, st, j as int);
            }
            let ghost m = self.nodes@;
            self.commit_node(x);
            proof {
                lemma_path_step(vc, m2, m, self.nodes@, heads, l2, b2, st, st, j as int);
                let d0 = done;
                done = done.push(x);
                assert forall|y: NodeId| #[trigger] self.nodes@.contains_key(y) && !done.contains(y) implies self.nodes@[y] == m2[y] by {
                    if y == x {
                        assert(done[d0.len() as int] == y);
                    }
                    assert(!d0.contains(y)) by {
                        if d0.contains(y) {
                            let i = choose|i: int| 0 <= i < d0.len() && d0[i] == y;
                            assert(done[i] == y);
                        }
                    }
                }
            }
            j = j + 1;
        }
        proof {
            let mf = self.nodes@;
            lemma_path_final(vc, m2, mf, heads, l2, b2, st, st);
            assert(l2[0] == lv[0].remove(o[0]));
            lemma_shape_keeps(m2, mf, heads, l2[0]);
        }
        self.levels = Ghost(l2);
        self.bounds = Ghost(b2);
        proof {
            let mf = self.nodes@;
            assert forall|x: NodeId| #[trigger] mf.contains_key(x) implies x < self.next_id by {
                assert(m2.contains_key(x));
                assert(m0.contains_key(x));
            }
            lemma_del_shape_at(m0, lv, bs, o, ti, key, 0);
            assert forall|i: int| 0 <= i < lv[0].len() && i != o[0] implies #[trigger] mf[lv[0][i]].key == m0[lv[0][i]].key by {
                assert(m0.contains_key(lv[0][i]));
                assert(m0[lv[0][i]].key != key);
                assert(m2.contains_key(lv[0][i]));
            }
            lemma_del_view(m0, mf, lv[0], o[0], k);
            assert(self@ == old(self)@.remove(k));
            lemma_del_frame(m0, m2, mf, lv, bs, o, ti, key, done);
            assert forall|l: int| 0 <= l < h implies #[trigger] owner(m0, lv[l], key) == o[l] by {}
        }
        true
    }

    /// The first position of `x` in `ids`.
    #[verifier::spinoff_prover]
    fn position_of(ids: &Vec<NodeId>, x: NodeId) -> (r: usize)
        requires
            ids@.contains(x),
        ensures
            r < ids@.len(),
            ids@[r as int] == x,
            forall|q: int| 0 <= q < r ==> ids@[q] != x,
    {
        let mut r: usize = 0;
        while r < ids.len()
            invariant
                r <= ids@.len(),
                ids@.contains(x),
                forall|q: int| 0 <= q < r ==> ids@[q] != x,
            decreases ids@.len() - r,
        {
            if ids[r] == x {
                return r;
            }
            r = r + 1;
        }
        proof {
            let q = choose|q: int| 0 <= q < ids@.len() && ids@[q] == x;
            assert(ids@[q] != x);
        }
        r
    }
}

} // verus!
