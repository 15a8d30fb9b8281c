//! Run-time checks for the room an insert needs.

use vstd::prelude::*;
use super::{heads_ok, rng_after, xorshift_next, Ibsl, Key, NodeId, MAX_FANOUT, MAX_HEIGHT};
use crate::vc::VectorCommitment;

verus! {

impl<V: VectorCommitment> Ibsl<V> {
    /// Whether `insert(k)` has room (`insert_fits`): `k` is a member (the
    /// insert changes nothing), or ids are left for a full tower and every
    /// node on `k`'s path that the coming coin flips can carry the tower up
    /// under can take one more child.
    #[verifier::spinoff_prover]
    pub fn can_insert(&self, k: u64) -> (r: bool)
        requires
            self.wf(),
        ensures
            r == self.insert_fits(k),
    {
        if self.search(k) {
            return true;
        }
        if self.next_id >= usize::MAX - MAX_HEIGHT {
            return false;
        }
        let key = Key::Val(k);
        let owners = self.owner_path(key);
        let h = self.heads.len();
        proof {
            assert(h >= 2) by {
                reveal(heads_ok);
            }
        }
        let thr = self.promote_threshold;
        let mut r = self.rng;
        // Whether coin flips 1 .. l - 1 from the current state all promote.
        let mut run = true;
        let mut l: usize = 1;
        proof {
            reveal(rng_after);
        }
        while l < h
            invariant
                self.wf(),
                !self@.contains(k),
                key == Key::Val(k),
                h == self.heads@.len(),
                1 <= l <= h,
                owners@.len() == h + 1,
                thr == self.promote_threshold,
                self.next_id + MAX_HEIGHT < usize::MAX,
                r == rng_after(self.rng, (l - 1) as nat),
                run == (forall|i: int| 1 <= i < l ==> #[trigger] rng_after(self.rng, i as nat) < thr),
                forall|x: int| 0 <= x < h ==> #[trigger] owners@[x + 1] == self.path_node(x, key),
                forall|x: int| 1 <= x < l && (forall|i: int| 1 <= i < x ==> #[trigger] rng_after(self.rng, i as nat) < thr)
                    ==> #[trigger] self.nodes@[self.path_node(x, key)].children@.len() < MAX_FANOUT,
            decreases h - l,
        {
            if !run {
                // A coin below the current level fails: no higher node can
                // receive the tower's top.
                proof {
                    let j = choose|i: int| 1 <= i < l && !(#[trigger] rng_after(self.rng, i as nat) < thr);
                    assert forall|x: int| 1 <= x < h && (forall|i: int| 1 <= i < x ==> #[trigger] rng_after(self.rng, i as nat) < thr)
                        implies #[trigger] self.nodes@[self.path_node(x, key)].children@.len() < MAX_FANOUT by {
                        if x >= l {
                            assert(!(rng_after(self.rng, j as nat) < thr));
                        }
                    }
                }
                return true;
            }
            proof {
                self.lemma_path_step(l as int, key);
                assert(owners@[l + 1] == self.path_node(l as int, key));
            }
            let id: NodeId = owners[l + 1];
            if self.nodes.get(&id).unwrap().children.len() >= MAX_FANOUT {
                return false;
            }
            assert(forall|i: int| 1 <= i < l ==> #[trigger] rng_after(self.rng, i as nat) < thr);
            r = xorshift_next(r);
            run = r < thr;
            proof {
                let li: int = l as int;
                assert(r == rng_after(self.rng, li as nat)) by {
                    reveal(rng_after);
                    assert(li as nat == ((li - 1) as nat) + 1);
                }
                if run {
                    assert forall|i: int| 1 <= i < li + 1 implies #[trigger] rng_after(self.rng, i as nat) < thr by {
                        if i == li {
                            assert(rng_after(self.rng, i as nat) == r);
                        }
                    }
                } else {
                    assert(!(rng_after(self.rng, li as nat) < thr));
                    assert(!(forall|i: int| 1 <= i < li + 1 ==> #[trigger] rng_after(self.rng, i as nat) < thr));
                }
            }
            l = l + 1;
        }
        true
    }
}

} // verus!
