//! What a membership proof looks like, and how the three kinds of proof
//! (per-level openings, sibling-hash chains, aggregated chains) line up.

use vstd::prelude::*;
use super::{heads_ok, levels_ok, node_vals, owner, Ibsl, Key, HashStep, Step, MAX_HEIGHT};
use crate::vc::{HashVc, VectorCommitment};

verus! {

impl<V: VectorCommitment> Ibsl<V> {
    /// The shape of a membership proof: one step per level, the first
    /// carrying the root commitment and the last opening slot 0 of the
    /// leaf. Every step opens a slot of the vector its commitment was made
    /// over, and the leaf's vector has the single slot.
    pub proof fn lemma_proof_shape(&self, k: u64, pi: Seq<Step<V>>)
        requires
            self.wf(),
            self.is_proof(k, pi),
        ensures
            pi.len() == self.spec_height(),
            2 <= pi.len() <= MAX_HEIGHT,
            pi[0].commitment == self.spec_root_commitment(),
            pi[pi.len() - 1].position == 0,
            forall|j: int| #![trigger pi[j]] 0 <= j < pi.len() ==> exists|op: V::Opener, vals: Seq<V::DigestType>|
                #[trigger] self.params().opens(&op, vals)
                && self.params().is_opening(&op, pi[j].position as int, pi[j].witness)
                && pi[j].position < vals.len()
                && self.params().spec_commit(vals) == pi[j].commitment
                && (j == pi.len() - 1 ==> vals.len() == 1),
    {
        reveal(heads_ok);
        let m = self.nodes@;
        let h = self.heads@.len() as int;
        let key = Key::Val(k);
        assert forall|j: int| #![trigger pi[j]] 0 <= j < pi.len() implies exists|op: V::Opener, vals: Seq<V::DigestType>|
            #[trigger] self.params().opens(&op, vals)
            && self.params().is_opening(&op, pi[j].position as int, pi[j].witness)
            && pi[j].position < vals.len()
            && self.params().spec_commit(vals) == pi[j].commitment
            && (j == pi.len() - 1 ==> vals.len() == 1) by {
            let l = h - 1 - j;
            let id = self.path_node(l, key);
            self.lemma_path_step(l, key);
            let op = m[id].opener->0;
            let vals = node_vals(m, id);
            if l >= 1 {
                assert(vals.len() == m[id].children@.len());
            }
            assert(self.params().opens(&op, vals));
        }
        assert(pi[0].commitment == self.spec_root_commitment()) by {
            reveal(levels_ok);
            let lv = self.levels@;
            assert(lv[h - 1] == seq![self.heads@[h - 1]]);
            assert(self.path_node(h - 1, key) == lv[h - 1][owner(m, lv[h - 1], key)]);
            self.lemma_path_step(h - 1, key);
        }
        assert(pi[h - 1].position == 0);
        assert(heads_ok(m, self.heads@));
    }
}

impl<V: HashVc> Ibsl<V> {
    /// A sibling-hash proof has one step per level, opens slot 0 of the
    /// leaf last, and opens at every level the same slot as the per-level
    /// proof of the same key.
    pub proof fn lemma_hash_proof_shape(&self, k: u64, hp: Seq<HashStep<V>>, pi: Seq<Step<V>>)
        requires
            self.wf(),
            self.is_hash_proof(k, hp),
        ensures
            hp.len() == self.spec_height(),
            hp[hp.len() - 1].position == 0,
            self.is_proof(k, pi) ==> forall|j: int| 0 <= j < hp.len() ==> #[trigger] hp[j].position == pi[j].position,
    {
        reveal(heads_ok);
        let h = self.heads@.len() as int;
        assert(hp[h - 1].position == 0);
        if self.is_proof(k, pi) {
            assert forall|j: int| 0 <= j < hp.len() implies #[trigger] hp[j].position == pi[j].position by {
                assert(pi[j].position == self.path_pos(h - 1 - j, Key::Val(k)));
            }
        }
    }
}

} // verus!
