//! Aggregated membership proofs: the chain of commitments and positions of
//! an ordinary proof, with every per-level opening collapsed into one
//! witness by a backend that supports it.

use vstd::prelude::*;
use super::{bytes_eq, heads_ok, key_field, levels_ok, node_vals, Ibsl, Key, Step};
use crate::vc::{checked_claims, claim_holds, public_claims, AggregatableVc, VectorCommitment};

verus! {

/// One level of an aggregated proof: the node's commitment and the slot it
/// opens.
pub struct AggStep<V: VectorCommitment> {
    pub commitment: V::Commitment,
    pub position: usize,
}

impl<V: VectorCommitment> Clone for AggStep<V> {
    fn clone(&self) -> (r: Self)
        ensures
            r == *self,
    {
        AggStep { commitment: self.commitment, position: self.position }
    }
}

/// An aggregated membership proof: the chain top-down and one witness for
/// all its openings.
pub struct AggProof<V: AggregatableVc> {
    pub steps: Vec<AggStep<V>>,
    pub witness: V::AggWitness,
}

/// What step `i` of an aggregated chain must open to: the next commitment
/// down, or the key at the leaf.
pub open spec fn agg_value<V: VectorCommitment>(steps: Seq<AggStep<V>>, i: int, k: u64) -> V::DigestType {
    if i + 1 < steps.len() {
        V::spec_to_field(steps[i + 1].commitment)
    } else {
        key_field::<V::DigestType>(Key::Val(k))
    }
}

/// The claims an aggregated chain makes: each commitment opens at its
/// position to what comes next.
pub open spec fn agg_claims<V: VectorCommitment>(steps: Seq<AggStep<V>>, k: u64) -> Seq<(V::Commitment, usize, V::DigestType)> {
    Seq::new(steps.len(), |i: int| (steps[i].commitment, steps[i].position, agg_value(steps, i, k)))
}

/// An aggregated proof is accepted: its first commitment is sigma (by their
/// byte encodings) and the one witness opens every claim of the chain.
pub open spec fn spec_verify_agg<V: AggregatableVc>(vc: V, root: V::Commitment, k: u64, pi: AggProof<V>) -> bool {
    &&& pi.steps@.len() > 0
    &&& V::spec_commitment_bytes(pi.steps@[0].commitment) == V::spec_commitment_bytes(root)
    &&& vc.spec_aggregate_check(agg_claims(pi.steps@, k), pi.witness)
}

impl<V: AggregatableVc> Ibsl<V> {
    /// `steps` is the aggregated chain of `k`: the commitment and the opened
    /// position of the path node of every level, top-down.
    pub closed spec fn is_agg_chain(&self, k: u64, steps: Seq<AggStep<V>>) -> bool {
        let h = self.heads@.len() as int;
        &&& steps.len() == h
        &&& forall|j: int| 0 <= j < h ==> {
            let l = h - 1 - j;
            &&& (#[trigger] steps[j]).commitment == self.nodes@[self.path_node(l, Key::Val(k))].commitment
            &&& steps[j].position == self.path_pos(l, Key::Val(k))
        }
    }

    /// An aggregated chain has one step per level and opens slot 0 of the
    /// leaf last; level by level it carries the same commitments and slots
    /// as the per-level proof of the same key.
    pub proof fn lemma_agg_chain_shape(&self, k: u64, steps: Seq<AggStep<V>>, pi: Seq<Step<V>>)
        requires
            self.wf(),
            self.is_agg_chain(k, steps),
        ensures
            steps.len() == self.spec_height(),
            steps[steps.len() - 1].position == 0,
            self.is_proof(k, pi) ==> forall|j: int| 0 <= j < steps.len() ==> #[trigger] steps[j].commitment == pi[j].commitment
                && steps[j].position == pi[j].position,
    {
        reveal(heads_ok);
        let h = self.heads@.len() as int;
        assert(steps[h - 1].position == 0);
        if self.is_proof(k, pi) {
            assert forall|j: int| 0 <= j < steps.len() implies #[trigger] steps[j].commitment == pi[j].commitment
                && steps[j].position == pi[j].position by {
                assert(pi[j].position == self.path_pos(h - 1 - j, Key::Val(k)));
            }
        }
    }

    /// Prove(S, k) with every per-level opening collapsed into one
    /// aggregated witness: the same chain of commitments and positions as
    /// `prove`, and a single opening proof in place of the per-level ones.
    /// `None` if `k` is not a member.
    #[verifier::spinoff_prover]
    pub fn prove_agg(&self, k: u64) -> (r: Option<AggProof<V>>)
        requires
            self.wf(),
        ensures
            r is Some <==> self@.contains(k),
            r matches Some(pi) ==> self.is_agg_chain(k, pi.steps@),
            r matches Some(pi) ==> spec_verify_agg(self.params(), self.spec_root_commitment(), k, pi),
    {
        let path = match self.proof_path(k) {
            Some(p) => p,
            None => return None,
        };
        let key = Key::Val(k);
        let ghost h = self.heads@.len() as int;
        let ghost m = self.nodes@;
        let n = path.len();
        let mut steps: Vec<AggStep<V>> = Vec::new();
        let mut j: usize = 0;
        while j < n
            invariant
                self.wf(),
                m == self.nodes@,
                key == Key::Val(k),
                h == self.heads@.len(),
                n == path@.len(),
                path@.len() == h,
                j <= n,
                steps@.len() == j,
                forall|t: int| 0 <= t < n ==> {
                    let l = h - 1 - t;
                    &&& (#[trigger] path@[t]).0 == self.path_node(l, key)
                    &&& path@[t].1 == self.path_pos(l, key)
                },
                forall|t: int| 0 <= t < j ==> {
                    let l = h - 1 - t;
                    &&& (#[trigger] steps@[t]).commitment == m[self.path_node(l, key)].commitment
                    &&& steps@[t].position == self.path_pos(l, key)
                },
            decreases n - j,
        {
            let (id, pos) = path[j];
            proof {
                self.lemma_path_step(h - 1 - j, key);
            }
            steps.push(AggStep { commitment: self.nodes.get(&id).unwrap().commitment, position: pos });
            j = j + 1;
        }
        let mut claims: Vec<(&V::Opener, &V::Commitment, usize, V::DigestType)> = Vec::new();
        let mut j: usize = 0;
        while j < n
            invariant
                self.wf(),
                m == self.nodes@,
                key == Key::Val(k),
                self@.contains(k),
                h == self.heads@.len(),
                n == path@.len(),
                path@.len() == h,
                steps@.len() == n,
                j <= n,
                claims@.len() == j,
                forall|t: int| 0 <= t < n ==> {
                    let l = h - 1 - t;
                    &&& (#[trigger] path@[t]).0 == self.path_node(l, key)
                    &&& path@[t].1 == self.path_pos(l, key)
                },
                forall|t: int| 0 <= t < n ==> {
                    let l = h - 1 - t;
                    &&& (#[trigger] steps@[t]).commitment == m[self.path_node(l, key)].commitment
                    &&& steps@[t].position == self.path_pos(l, key)
                },
                forall|t: int| 0 <= t < j ==> claim_holds(self.vc, *(#[trigger] claims@[t]).0, *claims@[t].1, claims@[t].2 as int, claims@[t].3),
                forall|t: int| 0 <= t < j ==> (*(#[trigger] claims@[t]).1, claims@[t].2, claims@[t].3)
                    == (steps@[t].commitment, steps@[t].position, agg_value(steps@, t, k)),
            decreases n - j,
        {
            let (id, pos) = path[j];
            let ghost l = h - 1 - j;
            proof {
                self.lemma_path_step(l, key);
            }
            let value = if j + 1 < n {
                V::to_field(&steps[j + 1].commitment)
            } else {
                Key::Val(k).field()
            };
            let nd = self.nodes.get(&id).unwrap();
            let op = nd.opener.as_ref().unwrap();
            proof {
                let vals = node_vals(m, id);
                if l >= 1 {
                    assert(path@[j + 1].0 == self.path_node(l - 1, key));
                    assert(steps@[j + 1].commitment == m[self.path_node(l - 1, key)].commitment);
                    assert(vals.len() == m[id].children@.len());
                    assert(vals[pos as int] == value);
                } else {
                    self.lemma_leaf_is_key(k);
                    assert(vals == seq![key_field::<V::DigestType>(key)]);
                    assert(pos == 0);
                }
                assert(self.vc.opens(op, vals));
                assert(claim_holds(self.vc, *op, nd.commitment, pos as int, value));
            }
            claims.push((op, &nd.commitment, pos, value));
            j = j + 1;
        }
        let witness = self.vc.aggregate_open(&claims);
        proof {
            assert(public_claims::<V>(claims@) =~= agg_claims(steps@, k));
            assert(h >= 2) by {
                reveal(heads_ok);
            }
            assert(steps@[0].commitment == self.spec_root_commitment()) by {
                reveal(levels_ok);
                let lv = self.levels@;
                assert(lv[h - 1] == seq![self.heads@[h - 1]]);
                self.lemma_path_step(h - 1, key);
            }
        }
        Some(AggProof { steps, witness })
    }

    /// Verify(sigma, k, pi_agg): the first commitment must be the trusted
    /// sigma, and the one aggregated witness must open each commitment at
    /// its position to the next commitment down (to `k` at the leaf).
    #[verifier::spinoff_prover]
    pub fn verify_agg(vc: &V, root: &V::Commitment, k: u64, pi: &AggProof<V>) -> (r: bool)
        requires
            vc.wf(),
        ensures
            r == spec_verify_agg(*vc, *root, k, *pi),
    {
        if pi.steps.len() == 0 {
            return false;
        }
        if !bytes_eq(&V::commitment_bytes(&pi.steps[0].commitment), &V::commitment_bytes(root)) {
            return false;
        }
        let n = pi.steps.len();
        let mut claims: Vec<(&V::Commitment, usize, V::DigestType)> = Vec::new();
        let mut i: usize = 0;
        while i < n
            invariant
                n == pi.steps@.len(),
                i <= n,
                claims@.len() == i,
                forall|t: int| 0 <= t < i ==> (*(#[trigger] claims@[t]).0, claims@[t].1, claims@[t].2)
                    == (pi.steps@[t].commitment, pi.steps@[t].position, agg_value(pi.steps@, t, k)),
            decreases n - i,
        {
            let value = if i + 1 < n {
                V::to_field(&pi.steps[i + 1].commitment)
            } else {
                Key::Val(k).field()
            };
            claims.push((&pi.steps[i].commitment, pi.steps[i].position, value));
            i = i + 1;
        }
        proof {
            assert(checked_claims::<V>(claims@) =~= agg_claims(pi.steps@, k));
        }
        vc.aggregate_check(&claims, &pi.witness)
    }
}

} // verus!
