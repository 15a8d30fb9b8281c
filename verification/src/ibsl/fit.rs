//! Whether a full recomputation fits the fan-out bound: the run of an upper
//! node is the nodes of the level below from its own key up to the next
//! upper node's key, and every run must hold at most `MAX_FANOUT` nodes.

use vstd::prelude::*;
use super::{
    base_keys, base_ok, lemma_key_in_base, lemma_members_seq_ok, level_seq_ok, members, ptrs_ok, rank, Ibsl,
    Key, Node, NodeId, MAX_FANOUT,
};
use crate::vc::VectorCommitment;

verus! {

/// The position in `s`, from `t` on, of the first node whose key is at
/// least `key` (`s.len()` if there is none).
pub(super) open spec fn first_ge<V: VectorCommitment>(m: Map<NodeId, Node<V>>, s: Seq<NodeId>, key: Key, t: int) -> int
    decreases s.len() - t,
{
    if t < 0 || t >= s.len() || rank(key) <= rank(m[s[t]].key) {
        t
    } else {
        first_ge(m, s, key, t + 1)
    }
}

/// How many nodes of `lows` fall in the run of `ups[i]`: from its key up
/// to the key of `ups[i + 1]`, or to the end for the last upper node.
pub(super) open spec fn run_len<V: VectorCommitment>(m: Map<NodeId, Node<V>>, ups: Seq<NodeId>, lows: Seq<NodeId>, i: int) -> int {
    (if i + 1 < ups.len() { first_ge(m, lows, m[ups[i + 1]].key, 0) } else { lows.len() as int })
        - first_ge(m, lows, m[ups[i]].key, 0)
}

/// Every run of the level `ups` over `lows` fits the fan-out bound.
pub(super) open spec fn runs_fit<V: VectorCommitment>(m: Map<NodeId, Node<V>>, ups: Seq<NodeId>, lows: Seq<NodeId>) -> bool {
    forall|i: int| 0 <= i < ups.len() ==> #[trigger] run_len(m, ups, lows, i) <= MAX_FANOUT
}

/// Every upper level of the nodes below id `n`, up to level `h`, has runs
/// that fit the fan-out bound.
pub(super) open spec fn levels_fit<V: VectorCommitment>(m: Map<NodeId, Node<V>>, h: int, n: int) -> bool {
    forall|lvl: int| 2 <= lvl <= h ==> #[trigger] runs_fit(m, members(m, lvl, n), members(m, lvl - 1, n))
}

proof fn lemma_first_ge_from<V: VectorCommitment>(m: Map<NodeId, Node<V>>, s: Seq<NodeId>, key: Key, t: int, x: int)
    requires
        0 <= t <= x <= s.len(),
        forall|u: int| t <= u < x ==> rank(m[#[trigger] s[u]].key) < rank(key),
        x == s.len() || rank(key) <= rank(m[s[x]].key),
    ensures
        first_ge(m, s, key, t) == x,
    decreases x - t,
{
    if t < x {
        lemma_first_ge_from(m, s, key, t + 1, x);
    }
}

/// The first position at least `key` is the one all nodes before are below.
pub(super) proof fn lemma_first_ge_at<V: VectorCommitment>(m: Map<NodeId, Node<V>>, s: Seq<NodeId>, key: Key, x: int)
    requires
        0 <= x <= s.len(),
        forall|u: int| 0 <= u < x ==> rank(m[#[trigger] s[u]].key) < rank(key),
        x == s.len() || rank(key) <= rank(m[s[x]].key),
    ensures
        first_ge(m, s, key, 0) == x,
{
    lemma_first_ge_from(m, s, key, 0, x);
}

proof fn lemma_first_ge_range<V: VectorCommitment>(m: Map<NodeId, Node<V>>, s: Seq<NodeId>, key: Key, t: int)
    requires
        0 <= t <= s.len(),
    ensures
        t <= first_ge(m, s, key, t) <= s.len(),
    decreases s.len() - t,
{
    if t < s.len() {
        lemma_first_ge_range(m, s, key, t + 1);
    }
}

proof fn lemma_first_ge_same<V: VectorCommitment>(m: Map<NodeId, Node<V>>, m2: Map<NodeId, Node<V>>, s: Seq<NodeId>, key: Key, t: int)
    requires
        forall|u: int| 0 <= u < s.len() ==> m[#[trigger] s[u]].key == m2[s[u]].key,
    ensures
        first_ge(m, s, key, t) == first_ge(m2, s, key, t),
    decreases s.len() - t,
{
    if 0 <= t < s.len() {
        lemma_first_ge_same(m, m2, s, key, t + 1);
    }
}

/// Runs read nothing but the keys of the two levels.
pub(super) proof fn lemma_runs_fit_same<V: VectorCommitment>(m: Map<NodeId, Node<V>>, m2: Map<NodeId, Node<V>>, ups: Seq<NodeId>, lows: Seq<NodeId>)
    requires
        forall|u: int| 0 <= u < ups.len() ==> m[#[trigger] ups[u]].key == m2[ups[u]].key,
        forall|u: int| 0 <= u < lows.len() ==> m[#[trigger] lows[u]].key == m2[lows[u]].key,
    ensures
        runs_fit(m, ups, lows) == runs_fit(m2, ups, lows),
{
    assert forall|i: int| 0 <= i < ups.len() implies #[trigger] run_len(m, ups, lows, i) == run_len(m2, ups, lows, i) by {
        assert(m[ups[i]].key == m2[ups[i]].key);
        lemma_first_ge_same(m, m2, lows, m[ups[i]].key, 0);
        if i + 1 < ups.len() {
            assert(m[ups[i + 1]].key == m2[ups[i + 1]].key);
            lemma_first_ge_same(m, m2, lows, m[ups[i + 1]].key, 0);
        }
    }
    if runs_fit(m, ups, lows) {
        assert forall|i: int| 0 <= i < ups.len() implies #[trigger] run_len(m2, ups, lows, i) <= MAX_FANOUT by {
            assert(run_len(m, ups, lows, i) <= MAX_FANOUT);
        }
    }
    if runs_fit(m2, ups, lows) {
        assert forall|i: int| 0 <= i < ups.len() implies #[trigger] run_len(m, ups, lows, i) <= MAX_FANOUT by {
            assert(run_len(m2, ups, lows, i) <= MAX_FANOUT);
        }
    }
}

/// A level below of at most `MAX_FANOUT` nodes leaves every run within the
/// bound.
pub(super) proof fn lemma_runs_fit_short<V: VectorCommitment>(m: Map<NodeId, Node<V>>, ups: Seq<NodeId>, lows: Seq<NodeId>)
    requires
        lows.len() <= MAX_FANOUT,
    ensures
        runs_fit(m, ups, lows),
{
    assert forall|i: int| 0 <= i < ups.len() implies #[trigger] run_len(m, ups, lows, i) <= MAX_FANOUT by {
        lemma_first_ge_range(m, lows, m[ups[i]].key, 0);
        if i + 1 < ups.len() {
            lemma_first_ge_range(m, lows, m[ups[i + 1]].key, 0);
        }
    }
}

/// A strictly increasing sequence drawn from a strictly increasing one is no
/// longer than it.
proof fn lemma_increasing_drawn(s: Seq<int>, b: Seq<int>)
    requires
        forall|i: int, j: int| 0 <= i < j < s.len() ==> s[i] < s[j],
        forall|i: int, j: int| 0 <= i < j < b.len() ==> b[i] < b[j],
        forall|t: int| 0 <= t < s.len() ==> b.contains(#[trigger] s[t]),
    ensures
        s.len() <= b.len(),
    decreases s.len(),
{
    if s.len() > 0 {
        let n = s.len() - 1;
        assert(b.contains(s[n]));
        let q = choose|q: int| 0 <= q < b.len() && b[q] == s[n];
        let s2 = s.drop_last();
        let b2 = b.take(q);
        assert forall|t: int| 0 <= t < s2.len() implies b2.contains(#[trigger] s2[t]) by {
            assert(s2[t] == s[t]);
            assert(b.contains(s[t]));
            let q2 = choose|q2: int| 0 <= q2 < b.len() && b[q2] == s[t];
            assert(s[t] < s[n]);
            if q2 >= q {
                if q2 > q {
                    assert(b[q] < b[q2]);
                }
            }
            assert(b2[q2] == s[t]);
        }
        lemma_increasing_drawn(s2, b2);
    }
}

/// Every level of a well-linked list is no longer than the base list: each
/// of its keys is a key of the base, in the same strict order.
pub(super) proof fn lemma_level_len<V: VectorCommitment>(m: Map<NodeId, Node<V>>, lows: Seq<NodeId>, lvl: int, base: Seq<NodeId>, h: int)
    requires
        level_seq_ok(m, lows, lvl),
        ptrs_ok(m, h),
        base_ok(m, base),
    ensures
        lows.len() <= base.len(),
{
    let s = Seq::new(lows.len(), |t: int| rank(m[lows[t]].key));
    let b = Seq::new(base.len(), |q: int| rank(m[base[q]].key));
    assert(base.len() >= 2 && m[base[0]].key == Key::NegInf && m[base[base.len() - 1]].key == Key::PosInf
        && forall|i: int, j: int| 0 <= i < j < base.len() ==> rank(m[#[trigger] base[i]].key) < rank(m[#[trigger] base[j]].key)) by {
        reveal(base_ok);
    }
    assert forall|t: int| 0 <= t < s.len() implies b.contains(#[trigger] s[t]) by {
        let x = lows[t];
        assert(m.contains_key(x));
        match m[x].key {
            Key::NegInf => {
                assert(b[0] == s[t]);
            },
            Key::PosInf => {
                assert(b[base.len() - 1] == s[t]);
            },
            Key::Val(v) => {
                lemma_key_in_base(m, h, base, x, v);
                assert(base_keys(m, base).contains(v));
                let i = choose|i: int| 0 <= i < base.len() && #[trigger] m[base[i]].key == Key::Val(v);
                assert(b[i] == s[t]);
            },
        }
    }
    lemma_increasing_drawn(s, b);
}

impl<V: VectorCommitment> Ibsl<V> {
    /// A build over a base list of at most `MAX_FANOUT` nodes fits the
    /// fan-out bound everywhere.
    pub(super) proof fn lemma_small_build_fits(&self, base: Seq<NodeId>, top: Seq<NodeId>, nb: int)
        requires
            self.build_ok(base, top, nb),
            self.heads@.len() >= 2,
            nb <= MAX_FANOUT,
        ensures
            levels_fit(self.nodes@, self.heads@.len() as int, self.next_id as int),
    {
        let m = self.nodes@;
        let h = self.heads@.len() as int;
        let n = self.next_id as int;
        assert(super::swept_state(m, self.heads@, n, self.vc, base, nb));
        assert(ptrs_ok(m, h) && base_ok(m, base) && base.len() == nb);
        assert forall|lvl: int| 2 <= lvl <= h implies #[trigger] runs_fit(m, members(m, lvl, n), members(m, lvl - 1, n)) by {
            let head = self.heads@[lvl - 2];
            assert(m.contains_key(self.heads@[lvl - 2]));
            assert(m.contains_key(head) && m[head].level == lvl - 1 && m[head].key == Key::NegInf);
            assert(head < n);
            lemma_members_seq_ok(m, lvl - 1, n, head);
            lemma_level_len(m, members(m, lvl - 1, n), lvl - 1, base, h);
            lemma_runs_fit_short(m, members(m, lvl, n), members(m, lvl - 1, n));
        }
    }
}

} // verus!
