//! The build as a function of its inputs. What the build decides depends
//! only on the key and the level of each node, the chain of the level being
//! swept, the coin state and the id counter; this module replays the build
//! over exactly that (a map from node ids to key and level) and says when
//! its result fits the fan-out bound.

use vstd::prelude::*;
use super::{base_key, lemma_members, members, xorshift, Ibsl, Key, Node, NodeId, MAX_HEIGHT};
use super::fit::{lemma_runs_fit_same, levels_fit, runs_fit};
use crate::vc::VectorCommitment;

verus! {

/// The key and level of every node of `m`.
pub(super) open spec fn skel<V: VectorCommitment>(m: Map<NodeId, Node<V>>) -> Map<NodeId, (Key, usize)> {
    Map::new(|x: NodeId| m.contains_key(x), |x: NodeId| (m[x].key, m[x].level))
}

/// A node map with the given keys and levels (nothing else is read).
pub(super) open spec fn unsk<V: VectorCommitment>(sk: Map<NodeId, (Key, usize)>) -> Map<NodeId, Node<V>> {
    Map::new(
        |x: NodeId| sk.contains_key(x),
        |x: NodeId| Node::<V> {
            key: sk[x].0,
            level: sk[x].1,
            interval: arbitrary(),
            right: None,
            down: None,
            children: arbitrary(),
            commitment: arbitrary(),
            opener: None,
        },
    )
}

/// The sorted, duplicate-free sequence of the keys.
pub open spec fn is_sorted_set_of(s: Seq<u64>, keys: Seq<u64>) -> bool {
    &&& forall|i: int, j: int| 0 <= i < j < s.len() ==> s[i] < s[j]
    &&& forall|x: u64| s.contains(x) <==> keys.contains(x)
}

/// The increasing sequence `s` with `x` put in its place (unless it is
/// there already).
pub open spec fn sorted_insert(s: Seq<u64>, x: u64) -> Seq<u64>
    decreases s.len(),
{
    if s.len() == 0 {
        seq![x]
    } else if x < s[0] {
        seq![x] + s
    } else if x == s[0] {
        s
    } else {
        seq![s[0]] + sorted_insert(s.drop_first(), x)
    }
}

/// The keys in increasing order, each once.
pub open spec fn sorted_keys(keys: Seq<u64>) -> Seq<u64>
    decreases keys.len(),
{
    if keys.len() == 0 {
        Seq::empty()
    } else {
        sorted_insert(sorted_keys(keys.drop_last()), keys.last())
    }
}

proof fn lemma_sorted_insert(s: Seq<u64>, x: u64)
    requires
        forall|i: int, j: int| 0 <= i < j < s.len() ==> s[i] < s[j],
    ensures
        forall|i: int, j: int| 0 <= i < j < sorted_insert(s, x).len() ==> sorted_insert(s, x)[i] < sorted_insert(s, x)[j],
        forall|y: u64| #[trigger] sorted_insert(s, x).contains(y) <==> (s.contains(y) || y == x),
    decreases s.len(),
{
    let r = sorted_insert(s, x);
    if s.len() == 0 {
        assert(r =~= seq![x]);
        assert forall|y: u64| r.contains(y) <==> (s.contains(y) || y == x) by {
            if y == x {
                assert(r[0] == x);
            }
        }
    } else if x < s[0] {
        assert forall|i: int, j: int| 0 <= i < j < r.len() implies r[i] < r[j] by {
            if i > 0 {
                assert(s[i - 1] < s[j - 1]);
            } else if j > 1 {
                assert(s[0] < s[j - 1]);
            }
        }
        assert forall|y: u64| r.contains(y) <==> (s.contains(y) || y == x) by {
            if r.contains(y) {
                let i = choose|i: int| 0 <= i < r.len() && r[i] == y;
                if i > 0 {
                    assert(s[i - 1] == y);
                }
            }
            if s.contains(y) {
                let i = choose|i: int| 0 <= i < s.len() && s[i] == y;
                assert(r[i + 1] == y);
            }
            if y == x {
                assert(r[0] == y);
            }
        }
    } else if x == s[0] {
        assert forall|y: u64| r.contains(y) <==> (s.contains(y) || y == x) by {
            if y == x {
                assert(s[0] == y);
            }
        }
    } else {
        let t = s.drop_first();
        lemma_sorted_insert(t, x);
        let u = sorted_insert(t, x);
        assert(r =~= seq![s[0]] + u);
        assert forall|i: int, j: int| 0 <= i < j < r.len() implies r[i] < r[j] by {
            if i > 0 {
                assert(r[i] == u[i - 1] && r[j] == u[j - 1]);
            } else {
                assert(r[j] == u[j - 1]);
                assert(u.contains(u[j - 1]));
                if t.contains(u[j - 1]) {
                    let k = choose|k: int| 0 <= k < t.len() && t[k] == u[j - 1];
                    assert(s[0] < s[k + 1]);
                }
            }
        }
        assert forall|y: u64| r.contains(y) <==> (s.contains(y) || y == x) by {
            if r.contains(y) {
                let i = choose|i: int| 0 <= i < r.len() && r[i] == y;
                if i > 0 {
                    assert(u[i - 1] == y);
                    assert(u.contains(y));
                    if t.contains(y) {
                        let k = choose|k: int| 0 <= k < t.len() && t[k] == y;
                        assert(s[k + 1] == y);
                    }
                } else {
                    assert(s[0] == y);
                }
            }
            if s.contains(y) {
                let i = choose|i: int| 0 <= i < s.len() && s[i] == y;
                if i == 0 {
                    assert(r[0] == y);
                } else {
                    assert(t[i - 1] == y);
                    assert(u.contains(y));
                    let k = choose|k: int| 0 <= k < u.len() && u[k] == y;
                    assert(r[k + 1] == y);
                }
            }
            if y == x {
                assert(u.contains(y));
                let k = choose|k: int| 0 <= k < u.len() && u[k] == y;
                assert(r[k + 1] == y);
            }
        }
    }
}

/// `sorted_keys` is increasing and holds exactly the keys.
pub proof fn lemma_sorted_keys_sorted(keys: Seq<u64>)
    ensures
        is_sorted_set_of(sorted_keys(keys), keys),
    decreases keys.len(),
{
    if keys.len() > 0 {
        let d = keys.drop_last();
        lemma_sorted_keys_sorted(d);
        lemma_sorted_insert(sorted_keys(d), keys.last());
        assert forall|x: u64| sorted_keys(keys).contains(x) <==> keys.contains(x) by {
            if d.contains(x) {
                let i = choose|i: int| 0 <= i < d.len() && d[i] == x;
                assert(keys[i] == x);
            }
            if keys.contains(x) {
                let i = choose|i: int| 0 <= i < keys.len() && keys[i] == x;
                if i < keys.len() - 1 {
                    assert(d[i] == x);
                }
            }
        }
    }
}

/// Two key sequences with the same keys have the same sorted sequence.
pub proof fn lemma_sorted_keys_of_set(k1: Seq<u64>, k2: Seq<u64>)
    requires
        forall|x: u64| k1.contains(x) <==> k2.contains(x),
    ensures
        sorted_keys(k1) == sorted_keys(k2),
{
    lemma_sorted_keys_sorted(k1);
    lemma_sorted_keys_sorted(k2);
    lemma_sorted_unique(sorted_keys(k1), sorted_keys(k2));
}

/// Two strictly increasing sequences with the same elements are equal.
proof fn lemma_sorted_unique(a: Seq<u64>, b: Seq<u64>)
    requires
        forall|i: int, j: int| 0 <= i < j < a.len() ==> a[i] < a[j],
        forall|i: int, j: int| 0 <= i < j < b.len() ==> b[i] < b[j],
        forall|x: u64| a.contains(x) <==> b.contains(x),
    ensures
        a == b,
    decreases a.len() + b.len(),
{
    if a.len() == 0 {
        if b.len() > 0 {
            assert(b.contains(b[0]));
        }
        assert(a =~= b);
    } else if b.len() == 0 {
        assert(a.contains(a[0]));
    } else {
        // the least elements agree
        assert(b.contains(a[0]));
        assert(a.contains(b[0]));
        let i = choose|i: int| 0 <= i < b.len() && b[i] == a[0];
        let j = choose|j: int| 0 <= j < a.len() && a[j] == b[0];
        if i > 0 {
            assert(b[0] < b[i]);
            if j > 0 {
                assert(a[0] < a[j]);
            }
        }
        assert(a[0] == b[0]) by {
            if a[0] != b[0] {
                if j > 0 {
                    assert(a[0] < a[j]);
                }
                if i > 0 {
                    assert(b[0] < b[i]);
                }
            }
        }
        let a1 = a.drop_first();
        let b1 = b.drop_first();
        assert forall|x: u64| a1.contains(x) <==> b1.contains(x) by {
            if a1.contains(x) {
                let t = choose|t: int| 0 <= t < a1.len() && a1[t] == x;
                assert(a[t + 1] == x && a[0] < a[t + 1]);
                assert(b.contains(x));
                let u = choose|u: int| 0 <= u < b.len() && b[u] == x;
                assert(u != 0);
                assert(b1[u - 1] == x);
            }
            if b1.contains(x) {
                let t = choose|t: int| 0 <= t < b1.len() && b1[t] == x;
                assert(b[t + 1] == x && b[0] < b[t + 1]);
                assert(a.contains(x));
                let u = choose|u: int| 0 <= u < a.len() && a[u] == x;
                assert(u != 0);
                assert(a1[u - 1] == x);
            }
        }
        lemma_sorted_unique(a1, b1);
        assert(a =~= b) by {
            assert forall|t: int| 0 <= t < a.len() implies a[t] == b[t] by {
                if t > 0 {
                    assert(a[t] == a1[t - 1]);
                }
            }
        }
    }
}

/// The sorted sequence of a key set is the one `sorted_keys` names.
pub(super) proof fn lemma_sorted_keys(keys: Seq<u64>, s: Seq<u64>)
    requires
        is_sorted_set_of(s, keys),
    ensures
        sorted_keys(keys) == s,
{
    lemma_sorted_keys_sorted(keys);
    lemma_sorted_unique(sorted_keys(keys), s);
}

/// The base level of a build over the sorted keys `ks`: -inf, the keys,
/// +inf, as nodes 0, 1, ... of level 1.
pub(super) open spec fn base_sk(ks: Seq<u64>) -> Map<NodeId, (Key, usize)> {
    Map::new(|x: NodeId| x < ks.len() + 2, |x: NodeId| (base_key(ks, x as int), 1usize))
}

/// One step of the sweep of a level: the node `id` of the chain is skipped
/// if it is +inf; otherwise a coin is flipped. Above the base a promoted
/// node drops the last of two or more unpromoted nodes before it (the
/// redundant-node rule); the state carries the coin state, the promoted
/// nodes and the last two unpromoted nodes seen since the last promotion.
pub(super) open spec fn sweep_step(
    st: (Map<NodeId, (Key, usize)>, u64, Seq<NodeId>, Option<NodeId>, Option<NodeId>),
    id: NodeId,
    thr: u64,
) -> (Map<NodeId, (Key, usize)>, u64, Seq<NodeId>, Option<NodeId>, Option<NodeId>) {
    if st.0[id].0 == Key::PosInf {
        st
    } else if xorshift(st.1) < thr {
        if st.0[id].1 != 1 {
            (
                if st.4 is Some && st.3 is Some { st.0.remove(st.3->0) } else { st.0 },
                xorshift(st.1),
                st.2.push(id),
                None,
                None,
            )
        } else {
            (st.0, xorshift(st.1), st.2.push(id), Some(id), st.3)
        }
    } else {
        (st.0, xorshift(st.1), st.2, Some(id), st.3)
    }
}

/// The sweep of the chain `top` after visiting `top[1 .. j]` (the head is
/// never visited).
pub(super) open spec fn sweep_upto(
    sk: Map<NodeId, (Key, usize)>,
    rng: u64,
    top: Seq<NodeId>,
    thr: u64,
    j: int,
) -> (Map<NodeId, (Key, usize)>, u64, Seq<NodeId>, Option<NodeId>, Option<NodeId>)
    decreases j,
{
    if j <= 1 {
        (sk, rng, Seq::empty(), None, None)
    } else {
        sweep_step(sweep_upto(sk, rng, top, thr, j - 1), top[j - 1], thr)
    }
}

/// One more step of the sweep.
pub(super) proof fn lemma_sweep_next(sk: Map<NodeId, (Key, usize)>, rng: u64, top: Seq<NodeId>, thr: u64, j: int)
    requires
        j >= 1,
    ensures
        sweep_upto(sk, rng, top, thr, j + 1) == sweep_step(sweep_upto(sk, rng, top, thr, j), top[j], thr),
{
}

/// The copies of the first `q` promoted nodes `pr`, as fresh ids from `id0`
/// at level `lvl`.
pub(super) open spec fn link_sk(
    sk: Map<NodeId, (Key, usize)>,
    id0: int,
    pr: Seq<NodeId>,
    lvl: usize,
    q: int,
) -> Map<NodeId, (Key, usize)> {
    Map::new(
        |x: NodeId| sk.contains_key(x) || (id0 <= x < id0 + q),
        |x: NodeId| if sk.contains_key(x) { sk[x] } else { (sk[pr[x - id0]].0, lvl) },
    )
}

/// The chain of a new level: its head, then the copies from `id0` on.
pub(super) open spec fn link_top(nh: NodeId, id0: int, q: int) -> Seq<NodeId> {
    seq![nh] + Seq::new(q as nat, |t: int| (id0 + t) as NodeId)
}

/// The build from a state with `h` levels, whose top level has the chain
/// `top`, with ids from `n` on free: sweep the top level, add a head above
/// it, and stop when nothing was promoted or the height bound is reached;
/// otherwise link the copies of all promoted nodes but the last and go on.
/// The result is the key and level of every node, the height and the id
/// counter.
pub(super) open spec fn build_from(
    sk: Map<NodeId, (Key, usize)>,
    top: Seq<NodeId>,
    h: int,
    n: int,
    rng: u64,
    thr: u64,
) -> (Map<NodeId, (Key, usize)>, int, int)
    decreases MAX_HEIGHT - h,
{
    if h < 1 || h >= MAX_HEIGHT {
        (sk, h, n)
    } else {
        let st = sweep_upto(sk, rng, top, thr, top.len() as int);
        let sk1 = st.0.insert(n as NodeId, (Key::NegInf, (h + 1) as usize));
        if st.2.len() == 0 || h + 1 >= MAX_HEIGHT {
            (sk1, h + 1, n + 1)
        } else {
            let q = st.2.len() - 1;
            build_from(link_sk(sk1, n + 1, st.2, (h + 1) as usize, q), link_top(n as NodeId, n + 1, q), h + 1, n + 1 + q, st.1, thr)
        }
    }
}

/// One round of the build: the sweep of the top level and the head above
/// it, then either the end or the rest of the build from the linked level.
pub(super) proof fn lemma_build_round(
    sk: Map<NodeId, (Key, usize)>,
    top: Seq<NodeId>,
    h: int,
    n: int,
    rng: u64,
    thr: u64,
)
    requires
        1 <= h < MAX_HEIGHT,
    ensures
        ({
            let st = sweep_upto(sk, rng, top, thr, top.len() as int);
            let sk1 = st.0.insert(n as NodeId, (Key::NegInf, (h + 1) as usize));
            let q = st.2.len() - 1;
            &&& (st.2.len() == 0 || h + 1 >= MAX_HEIGHT) ==> build_from(sk, top, h, n, rng, thr) == (sk1, h + 1, n + 1)
            &&& !(st.2.len() == 0 || h + 1 >= MAX_HEIGHT) ==> build_from(sk, top, h, n, rng, thr)
                == build_from(link_sk(sk1, n + 1, st.2, (h + 1) as usize, q), link_top(n as NodeId, n + 1, q), h + 1, n + 1 + q, st.1, thr)
        }),
{
}

/// The build over the sorted keys `ks` with coin seed `seed` and promotion
/// threshold `thr`: the base level, then the sweeps from coin state
/// `seed | 1`.
pub(super) open spec fn build_result(ks: Seq<u64>, seed: u64, thr: u64) -> (Map<NodeId, (Key, usize)>, int, int) {
    build_from(base_sk(ks), Seq::new((ks.len() + 2) as nat, |t: int| t as NodeId), 1, (ks.len() + 2) as int, seed | 1, thr)
}

/// The levels of a node map depend on its keys and levels only.
proof fn lemma_members_skel<V: VectorCommitment>(m: Map<NodeId, Node<V>>, lvl: int, n: int)
    ensures
        members(m, lvl, n) == members(unsk::<V>(skel(m)), lvl, n),
    decreases n,
{
    if n > 0 {
        lemma_members_skel(m, lvl, n - 1);
    }
}

/// Whether every run fits the fan-out bound depends on the keys and levels
/// only.
pub(super) proof fn lemma_levels_fit_skel<V: VectorCommitment>(m: Map<NodeId, Node<V>>, h: int, n: int)
    requires
        0 <= n <= usize::MAX + 1,
    ensures
        levels_fit(m, h, n) == levels_fit(unsk::<V>(skel(m)), h, n),
{
    let m2 = unsk::<V>(skel(m));
    assert forall|lvl: int| 2 <= lvl <= h implies #[trigger] runs_fit(m, members(m, lvl, n), members(m, lvl - 1, n))
        == runs_fit(m2, members(m2, lvl, n), members(m2, lvl - 1, n)) by {
        lemma_members_skel(m, lvl, n);
        lemma_members_skel(m, lvl - 1, n);
        let ups = members(m, lvl, n);
        let lows = members(m, lvl - 1, n);
        lemma_members(m, lvl, n);
        lemma_members(m, lvl - 1, n);
        assert forall|u: int| 0 <= u < ups.len() implies m[#[trigger] ups[u]].key == m2[ups[u]].key by {
            assert(ups.contains(ups[u]));
        }
        assert forall|u: int| 0 <= u < lows.len() implies m[#[trigger] lows[u]].key == m2[lows[u]].key by {
            assert(lows.contains(lows[u]));
        }
        lemma_runs_fit_same(m, m2, ups, lows);
    }
    if levels_fit(m, h, n) {
        assert forall|lvl: int| 2 <= lvl <= h implies #[trigger] runs_fit(m2, members(m2, lvl, n), members(m2, lvl - 1, n)) by {
            assert(runs_fit(m, members(m, lvl, n), members(m, lvl - 1, n)));
        }
    }
    if levels_fit(m2, h, n) {
        assert forall|lvl: int| 2 <= lvl <= h implies #[trigger] runs_fit(m, members(m, lvl, n), members(m, lvl - 1, n)) by {
            assert(runs_fit(m2, members(m2, lvl, n), members(m2, lvl - 1, n)));
        }
    }
}

impl<V: VectorCommitment> Ibsl<V> {
    /// What `spec_build_fits` and `spec_build_height` read of the build.
    pub(super) proof fn lemma_build_unfold(ks: Seq<u64>, seed: u64, thr: u64)
        ensures
            Self::spec_build_fits(ks, seed, thr) == levels_fit(unsk::<V>(build_result(ks, seed, thr).0),
                build_result(ks, seed, thr).1, build_result(ks, seed, thr).2),
            Self::spec_build_height(ks, seed, thr) == build_result(ks, seed, thr).1,
    {
    }

    /// The build over the sorted keys `ks` with seed `seed` and threshold
    /// `thr` gives no node more than `MAX_FANOUT` children.
    pub closed spec fn spec_build_fits(ks: Seq<u64>, seed: u64, thr: u64) -> bool {
        let r = build_result(ks, seed, thr);
        levels_fit(unsk::<V>(r.0), r.1, r.2)
    }

    /// The number of levels of the build over the sorted keys `ks` with seed
    /// `seed` and threshold `thr`.
    pub closed spec fn spec_build_height(ks: Seq<u64>, seed: u64, thr: u64) -> int {
        build_result(ks, seed, thr).1
    }
}

} // verus!
