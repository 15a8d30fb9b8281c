//! How much room the structure leaves: every level is no longer than the
//! base list, which holds the set plus the two sentinels, so no node has
//! more children than the set has members plus two.

use vstd::prelude::*;
use super::{
    base_keys, base_ok, children_ok, fanout_ok, heads_ok, level_seq_ok, levels_ok, lemma_key_in_base, lemma_owner_exists, owner,
    rank, Ibsl, Key, Node, NodeId, MAX_FANOUT, MAX_HEIGHT,
};
use crate::vc::VectorCommitment;

verus! {

/// The base list holds the set plus the two sentinels.
pub(super) proof fn lemma_base_card<V: VectorCommitment>(m: Map<NodeId, Node<V>>, base: Seq<NodeId>)
    requires
        base_ok(m, base),
    ensures
        base_keys(m, base).finite(),
        base_keys(m, base).len() + 2 == base.len(),
{
    reveal(base_ok);
    let n = base.len() as int;
    assert forall|i: int| 0 < i < n - 1 implies #[trigger] m[base[i]].key is Val by {
        assert(rank(m[base[0]].key) < rank(m[base[i]].key));
        assert(rank(m[base[i]].key) < rank(m[base[n - 1]].key));
    }
    let vals = Seq::new((n - 2) as nat, |i: int| m[base[i + 1]].key->Val_0);
    assert forall|i: int, j: int| 0 <= i < vals.len() && 0 <= j < vals.len() && i != j implies vals[i] != vals[j] by {
        assert(m[base[i + 1]].key is Val);
        assert(m[base[j + 1]].key is Val);
        if i < j {
            assert(rank(m[base[i + 1]].key) < rank(m[base[j + 1]].key));
        } else {
            assert(rank(m[base[j + 1]].key) < rank(m[base[i + 1]].key));
        }
    }
    assert(vals.no_duplicates());
    vals.unique_seq_to_set();
    assert forall|v: u64| #[trigger] base_keys(m, base).contains(v) <==> vals.to_set().contains(v) by {
        if base_keys(m, base).contains(v) {
            let i = choose|i: int| 0 <= i < base.len() && #[trigger] m[base[i]].key == Key::Val(v);
            assert(i != 0);
            assert(i != n - 1);
            assert(m[base[i]].key is Val);
            assert(vals[i - 1] == v);
        }
        if vals.to_set().contains(v) {
            let j = choose|j: int| 0 <= j < vals.len() && vals[j] == v;
            assert(m[base[j + 1]].key is Val);
            assert(m[base[j + 1]].key == Key::Val(v));
        }
    }
    assert(base_keys(m, base) =~= vals.to_set());
}

/// Two neighbouring runs of a level together are no longer than the level
/// below; one run alone no longer than it either.
proof fn lemma_runs_len<V: VectorCommitment>(
    m: Map<NodeId, Node<V>>,
    up: Seq<NodeId>,
    low: Seq<NodeId>,
    b: Seq<int>,
    i: int,
)
    requires
        children_ok(m, up, low, b),
        0 <= i < up.len(),
    ensures
        m[up[i]].children@.len() <= low.len(),
        up.len() <= low.len(),
        i >= 1 ==> m[up[i - 1]].children@.len() + m[up[i]].children@.len() <= low.len(),
{
    assert(b[i] < b[i + 1]);
    assert(m[up[i]].children@ == low.subrange(b[i], b[i + 1]));
    assert(b[i + 1] <= b[up.len() as int]) by {
        if i + 1 < up.len() {
            assert(b[i + 1] < b[up.len() as int]);
        }
    }
    assert(0 <= b[i]) by {
        if i > 0 {
            assert(b[0] < b[i]);
        }
    }
    if i >= 1 {
        assert(b[i - 1] < b[i]);
        assert(m[up[i - 1]].children@ == low.subrange(b[i - 1], b[i]));
        assert(0 <= b[i - 1]) by {
            if i - 1 > 0 {
                assert(b[0] < b[i - 1]);
            }
        }
    }
    // the bounds climb by at least one per upper node
    assert forall|j: int| 0 <= j <= up.len() implies #[trigger] b[j] >= j by {
        lemma_bounds_climb(b, up.len() as int, j);
    }
}

proof fn lemma_bounds_climb(b: Seq<int>, n: int, j: int)
    requires
        b.len() == n + 1,
        b[0] == 0,
        forall|x: int, y: int| 0 <= x < y <= n ==> #[trigger] b[x] < #[trigger] b[y],
        0 <= j <= n,
    ensures
        b[j] >= j,
    decreases j,
{
    if j > 0 {
        lemma_bounds_climb(b, n, j - 1);
        assert(b[j - 1] < b[j]);
    }
}

impl<V: VectorCommitment> Ibsl<V> {
    /// Every level is no longer than the base list.
    proof fn lemma_level_lens(&self, l: int)
        requires
            self.wf(),
            0 <= l < self.heads@.len(),
        ensures
            self.levels@[l].len() <= self.levels@[0].len(),
        decreases l,
    {
        if l > 0 {
            reveal(levels_ok);
            self.lemma_level_lens(l - 1);
            assert(children_ok(self.nodes@, self.levels@[l], self.levels@[l - 1], self.bounds@[l]));
            assert(level_seq_ok(self.nodes@, self.levels@[l], l + 1));
            lemma_runs_len(self.nodes@, self.levels@[l], self.levels@[l - 1], self.bounds@[l], 0);
        }
    }

    /// The set is finite, and every structure has room for small sets: an
    /// insert has room while the set has at most `MAX_FANOUT - 3` members
    /// and ids are left, a delete while it has at most `MAX_FANOUT - 1`.
    /// (No node has more children than the set has members plus two.)
    pub proof fn lemma_room(&self, k: u64)
        requires
            self.wf(),
        ensures
            self@.finite(),
            self@.len() + 3 <= MAX_FANOUT && self.spec_ids_used() + MAX_HEIGHT < usize::MAX ==> self.insert_fits(k),
            self@.len() + 1 <= MAX_FANOUT ==> self.delete_fits(k),
    {
        let m = self.nodes@;
        let lv = self.levels@;
        let h = self.heads@.len() as int;
        let key = Key::Val(k);
        lemma_base_card(m, lv[0]);
        assert(self@ == base_keys(m, lv[0]));
        reveal(levels_ok);
        reveal(heads_ok);
        assert forall|l: int| 1 <= l < h implies {
            let o = #[trigger] owner(m, lv[l], key);
            &&& 0 <= o < lv[l].len()
            &&& m[lv[l][o]].children@.len() <= lv[0].len()
            &&& (m[lv[l][o]].key == key ==> o >= 1
                && m[lv[l][o - 1]].children@.len() + m[lv[l][o]].children@.len() <= lv[0].len())
        } by {
            assert(level_seq_ok(m, lv[l], l + 1));
            assert(lv[l][0] == self.heads@[l]);
            assert(m.contains_key(self.heads@[l]));
            assert(m[lv[l][0]].key == Key::NegInf);
            lemma_owner_exists(m, lv[l], l + 1, key);
            let o = owner(m, lv[l], key);
            assert(children_ok(m, lv[l], lv[l - 1], self.bounds@[l]));
            lemma_runs_len(m, lv[l], lv[l - 1], self.bounds@[l], o);
            self.lemma_level_lens(l - 1);
        }
        if self@.len() + 3 <= MAX_FANOUT && self.spec_ids_used() + MAX_HEIGHT < usize::MAX {
            assert forall|l: int| 1 <= l < h implies #[trigger] m[self.path_node(l, key)].children@.len() < MAX_FANOUT by {
                assert(owner(m, lv[l], key) == owner(m, lv[l], key));
            }
            assert(self.next_id + MAX_HEIGHT < usize::MAX);
        }
        if self@.len() + 1 <= MAX_FANOUT {
            assert forall|l: int| 1 <= l < h && #[trigger] m[self.path_node(l, key)].key == key implies
                m[lv[l][owner(m, lv[l], key) - 1]].children@.len() + m[self.path_node(l, key)].children@.len() <= MAX_FANOUT + 1 by {
                assert(owner(m, lv[l], key) == owner(m, lv[l], key));
            }
            self.lemma_delete_fits_intro(k);
        }
    }

    /// Inserting a member always has room (it changes nothing), and
    /// deleting a non-member always has room (it changes nothing either).
    pub proof fn lemma_noop_room(&self, k: u64)
        requires
            self.wf(),
        ensures
            self@.contains(k) ==> self.insert_fits(k),
            !self@.contains(k) ==> self.delete_fits(k),
    {
        if !self@.contains(k) {
            let m = self.nodes@;
            let h = self.heads@.len() as int;
            assert forall|l: int| 1 <= l < h && #[trigger] m[self.path_node(l, Key::Val(k))].key == Key::Val(k) implies
                m[self.levels@[l][owner(m, self.levels@[l], Key::Val(k)) - 1]].children@.len()
                + m[self.path_node(l, Key::Val(k))].children@.len() <= MAX_FANOUT + 1 by {
                self.lemma_path_step(l, Key::Val(k));
                lemma_key_in_base(m, h, self.levels@[0], self.path_node(l, Key::Val(k)), k);
                assert(self@ == base_keys(m, self.levels@[0]));
            }
            self.lemma_delete_fits_intro(k);
        }
    }

    /// A structure of two levels: the root's children are the whole base
    /// list, so the base list fits the fan-out bound.
    pub(super) proof fn lemma_two_levels(&self)
        requires
            self.wf(),
            self.heads@.len() == 2,
        ensures
            self.levels@[0].len() <= MAX_FANOUT,
    {
        reveal(levels_ok);
        reveal(fanout_ok);
        let m = self.nodes@;
        let lv = self.levels@;
        assert(lv[1] == seq![self.heads@[1]]);
        assert(children_ok(m, lv[1], lv[0], self.bounds@[1]));
        let b = self.bounds@[1];
        assert(m[lv[1][0]].children@ == lv[0].subrange(b[0], b[1]));
        assert(m[lv[1][0]].children@.len() <= MAX_FANOUT);
    }
}

} // verus!
