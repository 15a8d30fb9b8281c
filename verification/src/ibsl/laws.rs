//! How the updates and queries of the set relate across calls, over the set
//! each structure represents.

use vstd::prelude::*;
use super::Ibsl;
use super::plan::{lemma_sorted_keys_of_set, sorted_keys};
use crate::vc::VectorCommitment;

verus! {

/// A search right after inserting `k` finds `k`, and finds every other key
/// exactly where it found it before.
pub proof fn lemma_search_after_insert<V: VectorCommitment>(before: &Ibsl<V>, after: &Ibsl<V>, k: u64)
    requires
        after@ == before@.insert(k),
    ensures
        after@.contains(k),
        forall|v: u64| v != k ==> (after@.contains(v) <==> before@.contains(v)),
{
}

/// A search right after deleting `k` misses `k`, and finds every other key
/// exactly where it found it before.
pub proof fn lemma_search_after_delete<V: VectorCommitment>(before: &Ibsl<V>, after: &Ibsl<V>, k: u64)
    requires
        after@ == before@.remove(k),
    ensures
        !after@.contains(k),
        forall|v: u64| v != k ==> (after@.contains(v) <==> before@.contains(v)),
{
}

/// Deleting a key that was just inserted into a set without it gives back
/// the set from before the insert.
pub proof fn lemma_delete_undoes_insert<V: VectorCommitment>(s0: &Ibsl<V>, s1: &Ibsl<V>, s2: &Ibsl<V>, k: u64)
    requires
        !s0@.contains(k),
        s1@ == s0@.insert(k),
        s2@ == s1@.remove(k),
    ensures
        s2@ == s0@,
{
    assert(s2@ =~= s0@);
}

/// Inserting a key that was just deleted from a set with it gives back the
/// set from before the delete.
pub proof fn lemma_insert_undoes_delete<V: VectorCommitment>(s0: &Ibsl<V>, s1: &Ibsl<V>, s2: &Ibsl<V>, k: u64)
    requires
        s0@.contains(k),
        s1@ == s0@.remove(k),
        s2@ == s1@.insert(k),
    ensures
        s2@ == s0@,
{
    assert(s2@ =~= s0@);
}

/// A build depends on the key set only, not on the order or the
/// repetitions of the keys it is given: two key sequences with the same
/// keys build, for the same seed and threshold, equally (both fit the
/// fan-out bound or neither does, with the same height).
pub proof fn lemma_build_depends_on_set<V: VectorCommitment>(k1: Seq<u64>, k2: Seq<u64>, seed: u64, threshold: u64)
    requires
        forall|x: u64| k1.contains(x) <==> k2.contains(x),
    ensures
        Ibsl::<V>::spec_build_fits(sorted_keys(k1), seed, threshold) == Ibsl::<V>::spec_build_fits(sorted_keys(k2), seed, threshold),
        Ibsl::<V>::spec_build_height(sorted_keys(k1), seed, threshold) == Ibsl::<V>::spec_build_height(sorted_keys(k2), seed, threshold),
{
    lemma_sorted_keys_of_set(k1, k2);
}

/// One update of the set model: an insert (`true`) or a delete (`false`)
/// of a key.
pub open spec fn apply_update(s: Set<u64>, op: (bool, u64)) -> Set<u64> {
    if op.0 {
        s.insert(op.1)
    } else {
        s.remove(op.1)
    }
}

/// The set model after a sequence of updates, applied in order.
pub open spec fn apply_updates(s: Set<u64>, ops: Seq<(bool, u64)>) -> Set<u64>
    decreases ops.len(),
{
    if ops.len() == 0 {
        s
    } else {
        apply_update(apply_updates(s, ops.drop_last()), ops.last())
    }
}

/// Along any sequence of structures each obtained from the one before by
/// an insert or a delete (whose contracts give `apply_update`), every
/// structure represents the set model of the updates so far; in
/// particular a search in the last one finds exactly the keys of the model.
pub proof fn lemma_updates_follow_model<V: VectorCommitment>(states: Seq<Ibsl<V>>, ops: Seq<(bool, u64)>)
    requires
        states.len() == ops.len() + 1,
        forall|i: int| 0 <= i < ops.len() ==> #[trigger] states[i + 1]@ == apply_update(states[i]@, ops[i]),
    ensures
        forall|j: int| 0 <= j < states.len() ==> #[trigger] states[j]@ == apply_updates(states[0]@, ops.take(j)),
        forall|k: u64| states[states.len() - 1]@.contains(k) == apply_updates(states[0]@, ops).contains(k),
    decreases ops.len(),
{
    if ops.len() > 0 {
        let n = ops.len() as int;
        lemma_updates_follow_model(states.take(n), ops.take(n - 1));
        assert forall|j: int| 0 <= j < states.len() implies #[trigger] states[j]@ == apply_updates(states[0]@, ops.take(j)) by {
            if j < n {
                assert(states.take(n)[j] == states[j]);
                assert(ops.take(n - 1).take(j) =~= ops.take(j));
            } else {
                assert(states.take(n)[n - 1] == states[n - 1]);
                assert(ops.take(n - 1).take(n - 1) =~= ops.take(n - 1));
                assert(ops.take(j).drop_last() =~= ops.take(n - 1));
                assert(states[n]@ == apply_update(states[n - 1]@, ops[n - 1]));
            }
        }
        assert(ops.take(n) =~= ops);
    } else {
        assert(ops.take(0) =~= ops);
    }
}

/// Inserting a member, or deleting a non-member, leaves the set as it was.
pub proof fn lemma_updates_idempotent<V: VectorCommitment>(s0: &Ibsl<V>, s1: &Ibsl<V>, k: u64)
    ensures
        s0@.contains(k) && s1@ == s0@.insert(k) ==> s1@ == s0@,
        !s0@.contains(k) && s1@ == s0@.remove(k) ==> s1@ == s0@,
{
    if s0@.contains(k) && s1@ == s0@.insert(k) {
        assert(s1@ =~= s0@);
    }
    if !s0@.contains(k) && s1@ == s0@.remove(k) {
        assert(s1@ =~= s0@);
    }
}

} // verus!
