//! Pluggable vector-commitment abstraction for the IBSL.
//!
//! An IBSL leaf commits to its key; an upper node commits to the vector of
//! its children's compact commitment values, and a proof step opens one
//! position of that vector. Any scheme that can bind a short vector of slot
//! values and open one slot at a time works, and the slot type itself is
//! pluggable (`crate::field::NodeDigest`).
//!
//! The contracts state completeness: an opening produced from the prover
//! state of a commitment verifies against that commitment. Binding is a
//! cryptographic assumption and is not stated.

pub mod flat_hash;
pub mod greyhound;
pub mod merkle;

use vstd::prelude::*;
use crate::field::NodeDigest;

verus! {

/// A fresh vector holding the slice's elements.
pub(crate) fn copy_slice<T: Copy>(s: &[T]) -> (r: Vec<T>)
    ensures
        r@ == s@,
{
    let mut r: Vec<T> = Vec::new();
    let mut i: usize = 0;
    while i < s.len()
        invariant
            i <= s@.len(),
            r@ == s@.take(i as int),
        decreases s@.len() - i,
    {
        r.push(s[i]);
        proof {
            assert(r@ =~= s@.take(i + 1));
        }
        i = i + 1;
    }
    proof {
        assert(r@ =~= s@);
    }
    r
}

pub trait VectorCommitment: Sized {
    /// The type of one slot of a committed vector: an embedded key at IBSL
    /// leaves, or a child commitment mapped down via `to_field` at upper
    /// nodes.
    type DigestType: NodeDigest;
    type Commitment: Copy;
    type Witness;
    /// Prover-side state produced by `commit` and kept alongside the
    /// commitment, so `open` is a lookup rather than a recomputation.
    type Opener;

    /// The public parameters are usable.
    spec fn wf(&self) -> bool;

    /// The longest vector these parameters commit to.
    spec fn max_width(&self) -> nat;

    /// The placeholder commitment of a node not yet committed.
    spec fn spec_empty_commitment() -> Self::Commitment;

    /// The commitment to a vector of slot values.
    spec fn spec_commit(&self, values: Seq<Self::DigestType>) -> Self::Commitment;

    /// `opener` is the prover state of a commitment to `values`.
    spec fn opens(&self, opener: &Self::Opener, values: Seq<Self::DigestType>) -> bool;

    /// How many slots `opener` can open.
    spec fn opener_width(&self, opener: &Self::Opener) -> nat;

    /// `w` is the witness `open` derives for slot `i` from `opener`.
    spec fn is_opening(&self, opener: &Self::Opener, i: int, w: Self::Witness) -> bool;

    /// Whether `w` opens slot `i` of commitment `c` to `value`.
    spec fn spec_check(&self, c: Self::Commitment, i: int, value: Self::DigestType, w: Self::Witness) -> bool;

    /// Canonical byte encoding of a commitment.
    spec fn spec_commitment_bytes(c: Self::Commitment) -> Seq<u8>;

    /// Size in bytes of a commitment.
    spec fn spec_commitment_size(c: Self::Commitment) -> nat;

    /// Size in bytes of a witness as it would go on the wire.
    spec fn spec_witness_size(w: Self::Witness) -> nat;

    /// The map of a child commitment into a slot value.
    spec fn spec_to_field(c: Self::Commitment) -> Self::DigestType;

    /// Public parameters for committing to vectors of length <= `width`.
    fn setup(width: usize) -> (r: Self)
        requires
            width <= usize::MAX / 4,
        ensures
            r.wf(),
            r.max_width() >= width,
    ;

    /// Placeholder for nodes whose commitment has not been computed yet.
    fn empty_commitment() -> (r: Self::Commitment)
        ensures
            r == Self::spec_empty_commitment(),
    ;

    /// C = Com(m_0, ..., m_{d-1}), plus the prover state for opening it.
    fn commit(&self, values: &[Self::DigestType]) -> (r: (Self::Commitment, Self::Opener))
        requires
            self.wf(),
            values@.len() <= self.max_width(),
        ensures
            r.0 == self.spec_commit(values@),
            self.opens(&r.1, values@),
    ;

    /// Opening proof that slot `i` of the committed vector holds its value,
    /// derived from the stored prover state.
    fn open(&self, opener: &Self::Opener, i: usize) -> (w: Self::Witness)
        requires
            self.wf(),
            i < self.opener_width(opener),
        ensures
            self.is_opening(opener, i as int, w),
    ;

    /// Verifies an opening of slot `i` to `value` against commitment `c`.
    fn check(&self, c: &Self::Commitment, i: usize, value: Self::DigestType, w: &Self::Witness) -> (b: bool)
        requires
            self.wf(),
        ensures
            b == self.spec_check(*c, i as int, value, *w),
    ;

    /// Canonical byte encoding of a commitment (display, equality).
    fn commitment_bytes(c: &Self::Commitment) -> (r: Vec<u8>)
        ensures
            r@ == Self::spec_commitment_bytes(*c),
    ;

    /// Size in bytes of a commitment.
    fn commitment_size(c: &Self::Commitment) -> (r: usize)
        requires
            Self::spec_commitment_size(*c) <= usize::MAX,
        ensures
            r == Self::spec_commitment_size(*c),
    ;

    /// Size in bytes of one opening witness as it would go on the wire.
    fn witness_size(w: &Self::Witness) -> (r: usize)
        requires
            Self::spec_witness_size(*w) <= usize::MAX,
        ensures
            r == Self::spec_witness_size(*w),
    ;

    /// Maps a child commitment into `DigestType` so it can be a slot of the
    /// parent's vector.
    fn to_field(c: &Self::Commitment) -> (r: Self::DigestType)
        ensures
            r == Self::spec_to_field(*c),
    ;

    /// Completeness: the opening of slot `i` derived from the prover state of
    /// a commitment to `values` verifies against that commitment, for the
    /// value at slot `i`.
    proof fn lemma_open_check(&self, opener: &Self::Opener, values: Seq<Self::DigestType>, i: int, w: Self::Witness)
        requires
            self.wf(),
            self.opens(opener, values),
            0 <= i < values.len(),
            self.is_opening(opener, i, w),
        ensures
            self.spec_check(self.spec_commit(values), i, values[i], w),
    ;

    /// An opener of a committed vector can open every slot of it.
    proof fn lemma_opener_width(&self, opener: &Self::Opener, values: Seq<Self::DigestType>)
        requires
            self.opens(opener, values),
        ensures
            values.len() <= self.opener_width(opener),
    ;
}

/// Backends whose node commitment is a plain hash of its slots, so a
/// membership proof can be a sibling-hash chain: the verifier recomputes
/// each node's commitment bottom-up from the opened value plus the sibling
/// data in the witness.
pub trait HashVc: VectorCommitment {
    /// The commitment reconstructed from the value at slot `position` and the
    /// sibling data in `w`; `None` if the witness is malformed for that
    /// position.
    spec fn spec_recompute(&self, position: int, value: Self::DigestType, w: Self::Witness) -> Option<Self::Commitment>;

    fn recompute(&self, position: usize, value: Self::DigestType, w: &Self::Witness) -> (r: Option<Self::Commitment>)
        requires
            self.wf(),
        ensures
            r == self.spec_recompute(position as int, value, *w),
    ;

    /// `check` is exactly a recomputation compared with the commitment.
    proof fn lemma_check_is_recompute(&self, c: Self::Commitment, i: int, value: Self::DigestType, w: Self::Witness)
        requires
            self.wf(),
            0 <= i,
        ensures
            self.spec_check(c, i, value, w) == (self.spec_recompute(i, value, w) == Some(c)),
    ;
}

/// `opener` holds a vector committed to by `c` whose slot `slot` is
/// `value`.
pub open spec fn claim_holds<V: VectorCommitment>(vc: V, opener: V::Opener, c: V::Commitment, slot: int, value: V::DigestType) -> bool {
    exists|vals: Seq<V::DigestType>| #[trigger] vc.opens(&opener, vals) && c == vc.spec_commit(vals) && 0 <= slot < vals.len() && vals[slot] == value
}

/// The public part `(commitment, slot, value)` of each prover-side claim.
pub open spec fn public_claims<V: VectorCommitment>(
    claims: Seq<(&V::Opener, &V::Commitment, usize, V::DigestType)>,
) -> Seq<(V::Commitment, usize, V::DigestType)> {
    Seq::new(claims.len(), |i: int| (*claims[i].1, claims[i].2, claims[i].3))
}

/// The claims a verifier holds, by value.
pub open spec fn checked_claims<V: VectorCommitment>(
    claims: Seq<(&V::Commitment, usize, V::DigestType)>,
) -> Seq<(V::Commitment, usize, V::DigestType)> {
    Seq::new(claims.len(), |i: int| (*claims[i].0, claims[i].1, claims[i].2))
}

/// Backends that collapse a batch of openings into one witness: the
/// aggregated proof carries one opening for a whole membership chain.
pub trait AggregatableVc: VectorCommitment {
    /// The single witness standing in for all per-step opening proofs.
    type AggWitness;

    /// Whether `w` opens every `(commitment, slot, value)` claim at once.
    spec fn spec_aggregate_check(&self, claims: Seq<(Self::Commitment, usize, Self::DigestType)>, w: Self::AggWitness) -> bool;

    /// Size in bytes of an aggregated witness.
    spec fn spec_agg_witness_size(w: Self::AggWitness) -> nat;

    /// Size in bytes of the one aggregated witness: it replaces all the
    /// per-level witness sizes of a non-aggregated proof.
    fn agg_witness_size(w: &Self::AggWitness) -> (r: usize)
        requires
            Self::spec_agg_witness_size(*w) <= usize::MAX,
        ensures
            r == Self::spec_agg_witness_size(*w),
    ;

    /// Aggregates the openings `claims[i] = (opener_i, commitment_i,
    /// slot_i, value_i)` into one witness. Completeness: where every claim
    /// holds, the witness is accepted for the public claims.
    fn aggregate_open(&self, claims: &[(&Self::Opener, &Self::Commitment, usize, Self::DigestType)]) -> (w: Self::AggWitness)
        requires
            self.wf(),
            forall|i: int| 0 <= i < claims@.len() ==> claim_holds(*self, *(#[trigger] claims@[i]).0, *claims@[i].1, claims@[i].2 as int, claims@[i].3),
        ensures
            self.spec_aggregate_check(public_claims::<Self>(claims@), w),
    ;

    /// Verifies every `(commitment, slot, value)` claim against the single
    /// aggregated witness.
    fn aggregate_check(&self, claims: &[(&Self::Commitment, usize, Self::DigestType)], witness: &Self::AggWitness) -> (r: bool)
        requires
            self.wf(),
        ensures
            r == self.spec_aggregate_check(checked_claims::<Self>(claims@), *witness),
    ;
}

} // verus!
