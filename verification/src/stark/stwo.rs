//! Bridge: a real IBSL flat-hash proof -> the chain of Poseidon2 merges a
//! Stwo Circle STARK re-verifies.
//!
//! # Trace
//!
//! One row per 2-to-1 merge, `N_COLUMNS_PER_PERM = 300` columns holding the
//! Poseidon2 witness (input state, then per round an x^2 S-box auxiliary and
//! the round output) plus one column for the position bit, 301 in all. The
//! output digest of a row is the first 8 lanes of its final state, columns
//! `OUT_COL .. OUT_COL + 8`.
//!
//! Row 0 is the leaf node's own 1-slot commitment, `merge(key, ZERO)`. Every
//! later row folds the accumulator with one sibling: bit 0 puts the
//! accumulator on the left of the merge, bit 1 on the right, which is the
//! flat-hash fold including its prefix compression for an opened slot
//! i > 0.
//!
//! The prover and verifier themselves (constraint evaluation, trace
//! commitment, FRI) are Stwo's; this module holds what they are fed.

use vstd::prelude::*;
use crate::field::NodeDigest;
use crate::hashes::poseidon2::{
    apply_external_round_matrix, apply_internal_round_matrix, fadd, fold_merges, fpow5, merge,
    merge_digest, pow2, rc_external_spec, rc_internal_spec, round_constants, spec_external,
    spec_flat_node, spec_full_round, spec_full_rounds, spec_partial_round, spec_partial_rounds,
    spec_permute, Digest, DIGEST_WIDTH, N_COLUMNS_PER_PERM, N_HALF_FULL_ROUNDS,
    N_PARTIAL_ROUNDS, WIDTH,
};
use crate::ibsl::{key_field, spec_verify, step_value, Ibsl, Key, Step};
use crate::hashes::poseidon2::word_byte;
use crate::m31::{m31_add, m31_mul, p, M31};
use crate::vc::flat_hash::{with_slot, Poseidon2FlatHashVc};
use crate::vc::VectorCommitment;

verus! {

/// Column holding the position bit, right after the Poseidon2 block.
pub const BIT_COL: usize = N_COLUMNS_PER_PERM;

pub const N_TRACE_COLUMNS: usize = N_COLUMNS_PER_PERM + 1;

/// First column of the permutation's final state; the output digest is
/// `OUT_COL .. OUT_COL + DIGEST_WIDTH`.
pub const OUT_COL: usize = N_COLUMNS_PER_PERM - WIDTH;

/// The SIMD backend needs at least one full lane vector of 2^4 rows.
pub const LOG_N_LANES: u32 = 4;

/// The constraint degree bound is `log_size + 1`.
pub const LOG_EXPAND: u32 = 1;

// CONFIGURATION
// ================================================================================================

/// The FRI parameters handed to the prover.
#[derive(Clone, Copy, Debug, PartialEq, Eq, Structural)]
pub struct FriConfig {
    pub log_last_layer_degree_bound: u32,
    pub log_blowup_factor: u32,
    pub n_queries: usize,
    pub fold_step: u32,
}

/// The polynomial commitment parameters handed to the prover: grinding bits
/// and the FRI parameters.
#[derive(Clone, Copy, Debug, PartialEq, Eq, Structural)]
pub struct PcsConfig {
    pub pow_bits: u32,
    pub fri_config: FriConfig,
    pub lifting_log_size: Option<u32>,
}

/// Blowup 8 and a FRI remainder capped at degree 31; queries and grinding
/// are the dials. Conjectured security is `n_queries * 3 + pow_bits` bits.
pub fn config(n_queries: usize, pow_bits: u32) -> (r: PcsConfig)
    ensures
        r == (PcsConfig {
            pow_bits,
            fri_config: FriConfig { log_last_layer_degree_bound: 5, log_blowup_factor: 3, n_queries, fold_step: 1 },
            lifting_log_size: None,
        }),
{
    PcsConfig {
        pow_bits,
        fri_config: FriConfig { log_last_layer_degree_bound: 5, log_blowup_factor: 3, n_queries, fold_step: 1 },
        lifting_log_size: None,
    }
}

/// 28 queries, no grinding (~84-bit conjectured).
pub fn default_config() -> (r: PcsConfig)
    ensures
        r == (PcsConfig {
            pow_bits: 0,
            fri_config: FriConfig { log_last_layer_degree_bound: 5, log_blowup_factor: 3, n_queries: 28, fold_step: 1 },
            lifting_log_size: None,
        }),
{
    config(28, 0)
}

/// FRI's first circle-to-line fold halves the domain, so a last layer wider
/// than that cannot be reached: the last-layer bound is capped at
/// `log_n_rows - 1` (saturating at zero).
pub fn clamped(config: PcsConfig, log_n_rows: u32) -> (r: PcsConfig)
    ensures
        r == (PcsConfig {
            fri_config: FriConfig {
                log_last_layer_degree_bound: if config.fri_config.log_last_layer_degree_bound <= (if log_n_rows == 0 { 0 } else { log_n_rows - 1 }) {
                    config.fri_config.log_last_layer_degree_bound
                } else {
                    (if log_n_rows == 0 { 0 } else { log_n_rows - 1 }) as u32
                },
                ..config.fri_config
            },
            ..config
        }),
{
    let fri = config.fri_config;
    let cap = if log_n_rows == 0 { 0 } else { log_n_rows - 1 };
    let bound = if fri.log_last_layer_degree_bound <= cap { fri.log_last_layer_degree_bound } else { cap };
    PcsConfig {
        fri_config: FriConfig {
            log_last_layer_degree_bound: bound,
            log_blowup_factor: fri.log_blowup_factor,
            n_queries: fri.n_queries,
            fold_step: fri.fold_step,
        },
        ..config
    }
}

// CHAIN
// ================================================================================================

/// One merge of the chain: fold `sibling` into the accumulator, on the right
/// when `bit` is false and on the left when it is true.
#[derive(Clone, Copy, Debug)]
pub struct Merge {
    pub sibling: Digest,
    pub bit: bool,
}

/// The whole membership chain, flattened: a secret seed (the embedded key)
/// and the merges that carry it to sigma.
#[derive(Clone, Debug)]
pub struct Chain {
    pub seed: Digest,
    pub merges: Vec<Merge>,
}

/// Everything the verifier needs alongside sigma: the trace height and the
/// row the chain ends on.
#[derive(Clone, Copy, Debug)]
pub struct ChainShape {
    pub log_n_rows: u32,
    pub last_row: usize,
}

/// The parameters of the chain's AIR component: trace height, the row the
/// chain must equal sigma on, and sigma.
#[derive(Clone, Copy, Debug)]
pub struct ChainEval {
    pub log_n_rows: u32,
    pub last_row: usize,
    pub sigma: Digest,
}

/// One merge applied to the accumulator.
pub open spec fn merge_step(acc: Digest, m: Merge) -> Digest {
    if m.bit {
        merge_digest(m.sibling, acc)
    } else {
        merge_digest(acc, m.sibling)
    }
}

/// A merge with bit 0 keeps the accumulator on the left of the sibling, a
/// merge with bit 1 puts it on the right; the accumulator after `n + 1`
/// merges is that merge applied to the accumulator after `n`.
pub proof fn lemma_chain_step(seed: Digest, merges: Seq<Merge>, n: int)
    requires
        0 <= n < merges.len(),
    ensures
        !merges[n].bit ==> chain_acc(seed, merges, n + 1) == merge_digest(chain_acc(seed, merges, n), merges[n].sibling),
        merges[n].bit ==> chain_acc(seed, merges, n + 1) == merge_digest(merges[n].sibling, chain_acc(seed, merges, n)),
        chain_acc(seed, merges, 0) == seed,
{
}

/// The accumulator after the first `n` merges.
pub open spec fn chain_acc(seed: Digest, merges: Seq<Merge>, n: int) -> Digest
    decreases n,
{
    if n <= 0 {
        seed
    } else {
        merge_step(chain_acc(seed, merges, n - 1), merges[n - 1])
    }
}

impl Chain {
    /// The digest each merge produces, `acc[j]` being the output of row `j`.
    fn accumulators(&self) -> (r: Vec<Digest>)
        ensures
            r@.len() == self.merges@.len(),
            forall|j: int| 0 <= j < r@.len() ==> #[trigger] r@[j] == chain_acc(self.seed, self.merges@, j + 1),
    {
        let mut acc = self.seed;
        let mut out: Vec<Digest> = Vec::new();
        let mut j: usize = 0;
        while j < self.merges.len()
            invariant
                j <= self.merges@.len(),
                out@.len() == j,
                acc == chain_acc(self.seed, self.merges@, j as int),
                forall|t: int| 0 <= t < j ==> #[trigger] out@[t] == chain_acc(self.seed, self.merges@, t + 1),
            decreases self.merges@.len() - j,
        {
            let m = self.merges[j];
            acc = if m.bit { merge(m.sibling, acc) } else { merge(acc, m.sibling) };
            out.push(acc);
            j = j + 1;
        }
        out
    }

    /// The chain's final accumulator: what it claims sigma is.
    pub fn root(&self) -> (r: Digest)
        requires
            self.merges@.len() > 0,
        ensures
            r == chain_acc(self.seed, self.merges@, self.merges@.len() as int),
    {
        let acc = self.accumulators();
        acc[acc.len() - 1]
    }
}

/// The left fold of merges starting from `acc` over the first `n` digests
/// of `s`.
pub open spec fn fold_from(acc: Digest, s: Seq<Digest>, n: int) -> Digest
    decreases n,
{
    if n <= 0 {
        acc
    } else {
        merge_digest(fold_from(acc, s, n - 1), s[n - 1])
    }
}

/// Continuing a fold over more digests.
proof fn lemma_fold_from_concat(acc: Digest, a: Seq<Digest>, b: Seq<Digest>, n: int)
    requires
        0 <= n <= b.len(),
    ensures
        fold_from(acc, a + b, a.len() + n) == fold_from(fold_from(acc, a, a.len() as int), b, n),
    decreases n,
{
    if n == 0 {
        lemma_fold_from_prefix(acc, a, a + b, a.len() as int);
    } else {
        lemma_fold_from_concat(acc, a, b, n - 1);
        assert((a + b)[a.len() + n - 1] == b[n - 1]);
    }
}

proof fn lemma_fold_from_prefix(acc: Digest, a: Seq<Digest>, b: Seq<Digest>, n: int)
    requires
        0 <= n <= a.len(),
        n <= b.len(),
        forall|i: int| 0 <= i < n ==> a[i] == b[i],
    ensures
        fold_from(acc, a, n) == fold_from(acc, b, n),
    decreases n,
{
    if n > 0 {
        lemma_fold_from_prefix(acc, a, b, n - 1);
    }
}

/// The flat-hash fold of a vector of two or more slots is the fold from its
/// first slot over the rest.
proof fn lemma_fold_merges_from(v: Seq<Digest>, n: int)
    requires
        1 <= n <= v.len(),
    ensures
        fold_merges(v, n) == fold_from(v[0], v.skip(1), n - 1),
    decreases n,
{
    if n > 1 {
        lemma_fold_merges_from(v, n - 1);
        assert(v.skip(1)[n - 2] == v[n - 1]);
    }
}

/// The merges of a run of right-hand siblings fold them onto the
/// accumulator.
proof fn lemma_chain_run(seed: Digest, ms: Seq<Merge>, start: int, s: Seq<Digest>)
    requires
        0 <= start,
        start + s.len() <= ms.len(),
        forall|t: int| 0 <= t < s.len() ==> ms[start + t] == (Merge { sibling: s[t], bit: false }),
    ensures
        chain_acc(seed, ms, start + s.len()) == fold_from(chain_acc(seed, ms, start), s, s.len() as int),
    decreases s.len(),
{
    if s.len() > 0 {
        let s2 = s.drop_last();
        lemma_chain_run(seed, ms, start, s2);
        lemma_fold_from_prefix(chain_acc(seed, ms, start), s2, s, s2.len() as int);
    }
}

/// The accumulator only depends on the merges it has folded.
proof fn lemma_chain_prefix(seed: Digest, a: Seq<Merge>, b: Seq<Merge>, n: int)
    requires
        0 <= n <= a.len(),
        n <= b.len(),
        forall|i: int| 0 <= i < n ==> a[i] == b[i],
    ensures
        chain_acc(seed, a, n) == chain_acc(seed, b, n),
    decreases n,
{
    if n > 0 {
        lemma_chain_prefix(seed, a, b, n - 1);
    }
}

/// The commitments a flat-hash proof recomputes bottom-up: the leaf's from
/// the key, each parent's from its siblings with the child's put back at
/// the opened slot.
pub open spec fn recomputed(k: u64, pi: Seq<Step<Poseidon2FlatHashVc>>, t: int) -> Digest
    decreases pi.len() - t,
{
    if t < 0 || t >= pi.len() - 1 {
        spec_flat_node(seq![key_field::<Digest>(Key::Val(k))])
    } else {
        spec_flat_node(with_slot(pi[t].witness.spec_siblings(), pi[t].position as int, recomputed(k, pi, t + 1)))
    }
}

/// Appends one level's merges: the level's commitment is the flat hash of
/// its siblings with the accumulated child digest put back at slot `i`.
#[verifier::spinoff_prover]
fn push_level(merges: &mut Vec<Merge>, slots: &[Digest], i: usize, Ghost(seed): Ghost<Digest>)
    requires
        i <= slots@.len(),
        old(merges)@.len() > 0,
    ensures
        final(merges)@.len() > old(merges)@.len(),
        chain_acc(seed, final(merges)@, final(merges)@.len() as int) == spec_flat_node(
            with_slot(slots@, i as int, chain_acc(seed, old(merges)@, old(merges)@.len() as int)),
        ),
{
    let ghost acc0 = chain_acc(seed, merges@, merges@.len() as int);
    let ghost start = merges@.len() as int;
    let ghost mb = merges@;
    let ghost sl = slots@;
    if slots.len() == 0 {
        // w = 1: com = merge(child, ZERO).
        merges.push(Merge { sibling: Digest::zero(), bit: false });
        proof {
            assert(with_slot(sl, 0, acc0) =~= seq![acc0]);
            lemma_chain_prefix(seed, mb, merges@, start);
        }
    } else if i == 0 {
        // Child digest seeds the fold; absorb every later slot.
        let mut q: usize = 0;
        while q < slots.len()
            invariant
                q <= sl.len(),
                slots@ == sl,
                merges@.len() == start + q,
                mb.len() == start,
                start > 0,
                forall|u: int| 0 <= u < start ==> merges@[u] == mb[u],
                forall|u: int| start <= u < start + q ==> #[trigger] merges@[u] == (Merge { sibling: sl[u - start], bit: false }),
            decreases sl.len() - q,
        {
            merges.push(Merge { sibling: slots[q], bit: false });
            proof {
                assert(merges@[start + q] == (Merge { sibling: sl[q as int], bit: false }));
            }
            q = q + 1;
        }
        proof {
            lemma_chain_prefix(seed, mb, merges@, start);
            assert forall|u: int| 0 <= u < sl.len() implies merges@[start + u] == (Merge { sibling: sl[u], bit: false }) by {
                let x = start + u;
                assert(merges@[x] == (Merge { sibling: sl[x - start], bit: false }));
            }
            lemma_chain_run(seed, merges@, start, sl);
            let v = with_slot(sl, 0, acc0);
            assert(v.len() >= 2);
            lemma_fold_merges_from(v, v.len() as int);
            assert(v.skip(1) =~= sl);
        }
    } else {
        let mut prefix = slots[0];
        let mut q: usize = 1;
        while q < i
            invariant
                1 <= q <= i <= sl.len(),
                slots@ == sl,
                prefix == fold_from(sl[0], sl.skip(1), q - 1),
            decreases i - q,
        {
            prefix = merge(prefix, slots[q]);
            proof {
                assert(sl.skip(1)[q - 1] == sl[q as int]);
            }
            q = q + 1;
        }
        merges.push(Merge { sibling: prefix, bit: true });
        let ghost mid = merges@;
        let mut q: usize = i;
        while q < slots.len()
            invariant
                i <= q <= sl.len(),
                slots@ == sl,
                merges@.len() == start + 1 + (q - i),
                mid.len() == start + 1,
                start > 0,
                forall|u: int| 0 <= u < start + 1 ==> merges@[u] == mid[u],
                forall|u: int| start + 1 <= u < start + 1 + (q - i) ==> #[trigger] merges@[u] == (Merge { sibling: sl[i + u - start - 1], bit: false }),
            decreases sl.len() - q,
        {
            merges.push(Merge { sibling: slots[q], bit: false });
            proof {
                assert(merges@[start + 1 + (q - i)] == (Merge { sibling: sl[q as int], bit: false }));
            }
            q = q + 1;
        }
        proof {
            let rest = sl.skip(i as int);
            lemma_chain_prefix(seed, mb, mid, start);
            assert(chain_acc(seed, mid, start + 1) == merge_digest(prefix, acc0));
            lemma_chain_prefix(seed, mid, merges@, start + 1);
            assert forall|u: int| 0 <= u < rest.len() implies merges@[start + 1 + u] == (Merge { sibling: rest[u], bit: false }) by {
                let x = start + 1 + u;
                assert(merges@[x] == (Merge { sibling: sl[i + x - start - 1], bit: false }));
            }
            lemma_chain_run(seed, merges@, start + 1, rest);
            let v = with_slot(sl, i as int, acc0);
            lemma_fold_merges_from(v, v.len() as int);
            let a = v.skip(1).take(i as int);
            assert(v.skip(1) =~= a + rest);
            lemma_fold_from_concat(v[0], a, rest, rest.len() as int);
            lemma_fold_from_prefix(sl[0], sl.skip(1), a, i - 1);
            assert(a[i - 1] == acc0);
            assert(v[0] == sl[0]);
        }
    }
}

/// Flattens a real IBSL proof into the merge chain: the leaf node's own
/// 1-slot commitment `merge(key, ZERO)` is row 0, then each level
/// contributes its sibling slots, with the slots before an opened slot
/// i > 0 folded natively into one prefix digest that enters on the left
/// (bit 1).
pub fn compile(k: u64, pi: &[Step<Poseidon2FlatHashVc>]) -> (r: Chain)
    requires
        pi@.len() > 0,
        pi@[pi@.len() - 1].witness.spec_siblings().len() == 0,
        pi@[pi@.len() - 1].position == 0,
        forall|t: int| 0 <= t < pi@.len() ==> (#[trigger] pi@[t]).position <= pi@[t].witness.spec_siblings().len(),
    ensures
        r.seed == key_field::<Digest>(Key::Val(k)),
        r.merges@.len() > 0,
        chain_acc(r.seed, r.merges@, r.merges@.len() as int) == recomputed(k, pi@, 0),
{
    let n = pi.len();
    let seed: Digest = Key::Val(k).field();
    // Row 0 IS the leaf node's commitment: merge(key, ZERO).
    let mut merges: Vec<Merge> = Vec::new();
    merges.push(Merge { sibling: Digest::zero(), bit: false });
    let mut t: usize = n - 1;
    proof {
        reveal_with_fuel(chain_acc, 2);
        assert(chain_acc(seed, merges@, 1) == merge_digest(seed, Digest::spec_zero()));
    }
    while t > 0
        invariant
            n == pi@.len(),
            0 <= t < n,
            merges@.len() > 0,
            forall|u: int| 0 <= u < pi@.len() ==> (#[trigger] pi@[u]).position <= pi@[u].witness.spec_siblings().len(),
            chain_acc(seed, merges@, merges@.len() as int) == recomputed(k, pi@, t as int),
        decreases t,
    {
        let step = &pi[t - 1];
        proof {
            assert(pi@[t - 1].position <= pi@[t - 1].witness.spec_siblings().len());
        }
        push_level(&mut merges, step.witness.siblings(), step.position, Ghost(seed));
        t = t - 1;
    }
    Chain { seed, merges }
}

/// A membership proof that an IBSL over the Poseidon2 flat-hash backend
/// hands out is fit for `compile`: it has a step per level, the leaf step
/// opens slot 0 of a one-slot vector (so carries no sibling), and every
/// opened slot lies within its step's vector.
pub proof fn lemma_real_proof_compiles(s: &Ibsl<Poseidon2FlatHashVc>, k: u64, pi: Seq<Step<Poseidon2FlatHashVc>>)
    requires
        s.wf(),
        s.is_proof(k, pi),
    ensures
        pi.len() > 0,
        pi[pi.len() - 1].witness.spec_siblings().len() == 0,
        pi[pi.len() - 1].position == 0,
        forall|t: int| 0 <= t < pi.len() ==> (#[trigger] pi[t]).position <= pi[t].witness.spec_siblings().len(),
{
    s.lemma_proof_shape(k, pi);
    let vc = s.params();
    assert forall|t: int| 0 <= t < pi.len() implies (#[trigger] pi[t]).position <= pi[t].witness.spec_siblings().len()
        && (t == pi.len() - 1 ==> pi[t].witness.spec_siblings().len() == 0) by {
        let (op, vals) = choose|op: <Poseidon2FlatHashVc as VectorCommitment>::Opener, vals: Seq<Digest>|
            #[trigger] vc.opens(&op, vals)
            && vc.is_opening(&op, pi[t].position as int, pi[t].witness)
            && pi[t].position < vals.len()
            && vc.spec_commit(vals) == pi[t].commitment
            && (t == pi.len() - 1 ==> vals.len() == 1);
        vc.lemma_opening_siblings(&op, vals, pi[t].position as int, pi[t].witness);
    }
    assert(pi[pi.len() - 1].witness.spec_siblings().len() == 0);
}

/// The bytes of a word determine it.
proof fn lemma_word_bytes(a: u32, b: u32)
    requires
        word_byte(a, 0) == word_byte(b, 0),
        word_byte(a, 1) == word_byte(b, 1),
        word_byte(a, 2) == word_byte(b, 2),
        word_byte(a, 3) == word_byte(b, 3),
    ensures
        a == b,
{
    assert(((a >> 0u32) & 0xff) as u8 == ((b >> 0u32) & 0xff) as u8
        && ((a >> 8u32) & 0xff) as u8 == ((b >> 8u32) & 0xff) as u8
        && ((a >> 16u32) & 0xff) as u8 == ((b >> 16u32) & 0xff) as u8
        && ((a >> 24u32) & 0xff) as u8 == ((b >> 24u32) & 0xff) as u8 ==> a == b) by (bit_vector);
}

/// The byte encoding of a digest is injective.
pub proof fn lemma_digest_bytes_injective(a: Digest, b: Digest)
    requires
        a.spec_to_bytes() == b.spec_to_bytes(),
    ensures
        a == b,
{
    assert forall|i: int| 0 <= i < 8 implies a.0@[i] == b.0@[i] by {
        assert forall|j: int| 0 <= j < 4 implies word_byte(a.0@[i].0, j) == word_byte(b.0@[i].0, j) by {
            let k = 4 * i + j;
            assert(k / 4 == i && k % 4 == j) by (nonlinear_arith)
                requires
                    k == 4 * i + j,
                    0 <= j < 4,
            ;
            assert(0 <= k < 32);
            assert(a.spec_to_bytes()[k] == word_byte(a.0@[k / 4].0, k % 4));
            assert(b.spec_to_bytes()[k] == word_byte(b.0@[k / 4].0, k % 4));
            assert(a.spec_to_bytes()[k] == b.spec_to_bytes()[k]);
        }
        lemma_word_bytes(a.0@[i].0, b.0@[i].0);
    }
    assert(a.0 =~= b.0);
}

/// An accepted flat-hash proof recomputes, bottom-up, the commitments it
/// carries.
proof fn lemma_recomputed_is_carried(vc: Poseidon2FlatHashVc, sigma: Digest, k: u64, pi: Seq<Step<Poseidon2FlatHashVc>>, t: int)
    requires
        spec_verify(vc, sigma, k, pi),
        pi[pi.len() - 1].witness.spec_siblings().len() == 0,
        pi[pi.len() - 1].position == 0,
        0 <= t < pi.len(),
    ensures
        recomputed(k, pi, t) == pi[t].commitment,
    decreases pi.len() - t,
{
    let w = pi[t].witness;
    assert(vc.spec_check(pi[t].commitment, pi[t].position as int, step_value(pi, t, k), w));
    vc.lemma_check_unfold(pi[t].commitment, pi[t].position as int, step_value(pi, t, k), w);
    if t == pi.len() - 1 {
        assert(with_slot(w.spec_siblings(), 0, key_field::<Digest>(Key::Val(k))) =~= seq![key_field::<Digest>(Key::Val(k))]);
    } else {
        lemma_recomputed_is_carried(vc, sigma, k, pi, t + 1);
    }
}

/// A membership proof the flat-hash verifier accepts compiles into a chain
/// that reaches sigma: the chain's root equals the trusted root commitment.
pub proof fn lemma_compiled_chain_reaches_sigma(vc: Poseidon2FlatHashVc, sigma: Digest, k: u64, pi: Seq<Step<Poseidon2FlatHashVc>>)
    requires
        spec_verify(vc, sigma, k, pi),
        pi[pi.len() - 1].witness.spec_siblings().len() == 0,
        pi[pi.len() - 1].position == 0,
    ensures
        recomputed(k, pi, 0) == sigma,
        forall|t: int| 0 <= t < pi.len() ==> (#[trigger] pi[t]).position <= pi[t].witness.spec_siblings().len(),
{
    lemma_recomputed_is_carried(vc, sigma, k, pi, 0);
    lemma_digest_bytes_injective(pi[0].commitment, sigma);
    assert forall|t: int| 0 <= t < pi.len() implies (#[trigger] pi[t]).position <= pi[t].witness.spec_siblings().len() by {
        vc.lemma_check_unfold(pi[t].commitment, pi[t].position as int, step_value(pi, t, k), pi[t].witness);
    }
}

proof fn lemma_pow2_vstd(n: nat)
    ensures
        pow2(n) == vstd::arithmetic::power2::pow2(n),
    decreases n,
{
    if n > 0 {
        lemma_pow2_vstd((n - 1) as nat);
        vstd::arithmetic::power2::lemma_pow2_unfold(n);
    } else {
        vstd::arithmetic::power2::lemma2_to64();
    }
}

/// Whether `r` is the trace height for `n` merges: the smallest power of
/// two holding them, but at least one SIMD lane vector.
pub open spec fn log_rows_ok(n: int, r: int) -> bool {
    &&& r >= LOG_N_LANES
    &&& pow2(r as nat) >= n
    &&& (r == LOG_N_LANES || pow2((r - 1) as nat) < n)
}

/// Smallest log-height that holds the chain (the SIMD backend needs at least
/// one full lane vector).
pub fn log_n_rows(n_merges: usize) -> (r: u32)
    requires
        n_merges <= usize::MAX / 2 + 1,
    ensures
        log_rows_ok(n_merges as int, r as int),
{
    let n = n_merges as u128;
    let mut e: u32 = 0;
    let mut p: u128 = 1;
    while e < 64 && p < n
        invariant
            n == n_merges,
            n <= 0x8000_0000_0000_0000,
            p == pow2(e as nat),
            e <= 64,
            e == 0 || pow2((e - 1) as nat) < n,
        decreases 64 - e,
    {
        p = p * 2;
        e = e + 1;
        proof {
            assert(pow2(e as nat) == 2 * pow2((e - 1) as nat));
        }
    }
    proof {
        if p < n {
            lemma_pow2_vstd(64);
            vstd::arithmetic::power2::lemma2_to64();
        }
        if e < LOG_N_LANES {
            crate::hashes::poseidon2::lemma_pow2_mono(e as nat, LOG_N_LANES as nat);
        }
    }
    if e < LOG_N_LANES {
        LOG_N_LANES
    } else {
        e
    }
}

// TRACE
// ================================================================================================

/// `x^2 mod p` as an element.
pub open spec fn fsq(x: M31) -> M31 {
    M31(((x.0 * x.0) % p()) as u32)
}

/// The state entering full round `r` of the first half (`r <= 4`).
pub open spec fn st_first(input: Seq<M31>, r: int) -> Seq<M31> {
    spec_full_rounds(spec_external(input), rc_external_spec(), 0, r)
}

/// The state entering partial round `j`.
pub open spec fn st_mid(input: Seq<M31>, j: int) -> Seq<M31> {
    spec_partial_rounds(st_first(input, 4), rc_internal_spec(), j)
}

/// The state entering full round `r` of the second half (`4 <= r <= 8`).
pub open spec fn st_last(input: Seq<M31>, r: int) -> Seq<M31> {
    spec_full_rounds(st_mid(input, 14), rc_external_spec(), 4, r)
}

/// Column `c` of the witness of one permutation of `input`: the input
/// state (columns 0..16); per full round of the first half, the x^2 aux
/// block of the round's S-box inputs and the state after the round
/// (32 columns each, from column 16); per partial round, the x^2 aux of
/// lane 0's S-box input and its x^5 (2 columns each, from column 144); per
/// full round of the second half, the aux block and the state after the
/// round (32 columns each, from column 172).
pub open spec fn perm_col(input: Seq<M31>, c: int) -> M31 {
    if c < 16 {
        input[c]
    } else if c < 144 {
        let r = (c - 16) / 32;
        let i = (c - 16) % 32;
        if i < 16 {
            fsq(fadd(st_first(input, r)[i], rc_external_spec()[r][i]))
        } else {
            st_first(input, r + 1)[i - 16]
        }
    } else if c < 172 {
        let j = (c - 144) / 2;
        let x = fadd(st_mid(input, j)[0], rc_internal_spec()[j]);
        if (c - 144) % 2 == 0 {
            fsq(x)
        } else {
            fpow5(x)
        }
    } else {
        let r = (c - 172) / 32;
        let i = (c - 172) % 32;
        if i < 16 {
            fsq(fadd(st_last(input, r + 4)[i], rc_external_spec()[r + 4][i]))
        } else {
            st_last(input, r + 5)[i - 16]
        }
    }
}

/// The auxiliary columns of the witness hold the squares of the S-box
/// inputs (the state plus the round constant) of every full round and of
/// lane 0 of every partial round, and the partial-round output column holds
/// the fifth power of that input.
pub proof fn lemma_perm_col_aux(input: Seq<M31>)
    ensures
        forall|r: int, i: int| 0 <= r < 4 && 0 <= i < 16 ==> {
            let x = fadd(st_first(input, r)[i], rc_external_spec()[r][i]);
            (#[trigger] perm_col(input, 16 + 32 * r + i)).0 == (x.0 * x.0) % p()
        },
        forall|j: int| 0 <= j < 14 ==> {
            let x = fadd(st_mid(input, j)[0], rc_internal_spec()[j]);
            &&& (#[trigger] perm_col(input, 144 + 2 * j)).0 == (x.0 * x.0) % p()
            &&& perm_col(input, 145 + 2 * j) == fpow5(x)
        },
        forall|r: int, i: int| 0 <= r < 4 && 0 <= i < 16 ==> {
            let x = fadd(st_last(input, r + 4)[i], rc_external_spec()[r + 4][i]);
            (#[trigger] perm_col(input, 172 + 32 * r + i)).0 == (x.0 * x.0) % p()
        },
{
    assert forall|r: int, i: int| 0 <= r < 4 && 0 <= i < 16 implies {
        let x = fadd(st_first(input, r)[i], rc_external_spec()[r][i]);
        (#[trigger] perm_col(input, 16 + 32 * r + i)).0 == (x.0 * x.0) % p()
    } by {
        let c = 16 + 32 * r + i;
        assert((c - 16) / 32 == r && (c - 16) % 32 == i) by (nonlinear_arith)
            requires c == 16 + 32 * r + i, 0 <= i < 32, r >= 0;
        assert(c < 144);
    }
    assert forall|j: int| 0 <= j < 14 implies {
        let x = fadd(st_mid(input, j)[0], rc_internal_spec()[j]);
        &&& (#[trigger] perm_col(input, 144 + 2 * j)).0 == (x.0 * x.0) % p()
        &&& perm_col(input, 145 + 2 * j) == fpow5(x)
    } by {
        let c = 144 + 2 * j;
        assert((c - 144) / 2 == j && (c - 144) % 2 == 0 && (c + 1 - 144) / 2 == j && (c + 1 - 144) % 2 == 1)
            by (nonlinear_arith)
            requires c == 144 + 2 * j, j >= 0;
    }
    assert forall|r: int, i: int| 0 <= r < 4 && 0 <= i < 16 implies {
        let x = fadd(st_last(input, r + 4)[i], rc_external_spec()[r + 4][i]);
        (#[trigger] perm_col(input, 172 + 32 * r + i)).0 == (x.0 * x.0) % p()
    } by {
        let c = 172 + 32 * r + i;
        assert((c - 172) / 32 == r && (c - 172) % 32 == i) by (nonlinear_arith)
            requires c == 172 + 32 * r + i, 0 <= i < 32, r >= 0;
    }
}

/// `aux * aux * x` with `aux = x * x` is `x^5`.
proof fn lemma_sbox(x: M31, aux: M31, y: M31, x4: M31)
    requires
        aux.0 == (x.0 * x.0) % p(),
        x4.0 == (aux.0 * aux.0) % p(),
        y.0 == (x4.0 * x.0) % p(),
    ensures
        y == fpow5(x),
{
    let a: int = x.0 as int;
    crate::m31::lemma_mul_cong(a * a, a * a);
    vstd::arithmetic::div_mod::lemma_mul_mod_noop_left(a * a * a * a, a, p());
    assert((a * a) * (a * a) == a * a * a * a) by (nonlinear_arith);
}

/// One full round, recording its x^2 aux block at `col` and its output state
/// at `col + 16`.
fn full_round_cols(state: &mut [M31; WIDTH], rc: &[M31; WIDTH], w: &mut [M31; N_COLUMNS_PER_PERM], col: usize)
    requires
        col + 32 <= N_COLUMNS_PER_PERM,
    ensures
        final(state)@ == spec_full_round(old(state)@, rc@),
        forall|i: int| 0 <= i < 16 ==> #[trigger] final(w)@[col + i] == fsq(fadd(old(state)@[i], rc@[i])),
        forall|i: int| 0 <= i < 16 ==> #[trigger] final(w)@[col + 16 + i] == final(state)@[i],
        forall|c: int| 0 <= c < N_COLUMNS_PER_PERM && (c < col || c >= col + 32) ==> #[trigger] final(w)@[c] == old(w)@[c],
        col >= 16 ==> forall|k: int| 0 <= k < 16 ==> #[trigger] final(w)@[k] == old(w)@[k],
{
    let ghost s0 = state@;
    let ghost w0 = w@;
    for i in 0..WIDTH
        invariant
            col + 32 <= N_COLUMNS_PER_PERM,
            s0.len() == 16,
            forall|k: int| 0 <= k < i ==> #[trigger] state@[k] == fpow5(fadd(s0[k], rc@[k])),
            forall|k: int| i <= k < 16 ==> #[trigger] state@[k] == s0[k],
            forall|k: int| 0 <= k < i ==> #[trigger] w@[col + k] == fsq(fadd(s0[k], rc@[k])),
            forall|c: int| 0 <= c < N_COLUMNS_PER_PERM && (c < col || c >= col + i) ==> #[trigger] w@[c] == w0[c],
    {
        let x = m31_add(state[i], rc[i]);
        let aux = m31_mul(x, x);
        let x4 = m31_mul(aux, aux);
        let y = m31_mul(x4, x);
        proof {
            lemma_sbox(x, aux, y, x4);
        }
        w[col + i] = aux;
        state[i] = y;
    }
    proof {
        assert(state@ =~= Seq::new(16, |i: int| fpow5(fadd(s0[i], rc@[i]))));
        reveal(spec_full_round);
    }
    apply_external_round_matrix(state);
    let ghost w1 = w@;
    for i in 0..WIDTH
        invariant
            col + 32 <= N_COLUMNS_PER_PERM,
            forall|k: int| 0 <= k < i ==> #[trigger] w@[col + 16 + k] == state@[k],
            forall|c: int| 0 <= c < N_COLUMNS_PER_PERM && (c < col + 16 || c >= col + 16 + i) ==> #[trigger] w@[c] == w1[c],
    {
        w[col + 16 + i] = state[i];
    }
}

/// The Poseidon2 witness for one permutation, in the column order the AIR
/// consumes: input state, then per full round an x^2 aux block and the
/// post-round state, then per partial round the same pair for lane 0 only.
/// The last 16 columns are the permutation's output.
pub fn permutation_witness(input: [M31; WIDTH]) -> (w: [M31; N_COLUMNS_PER_PERM])
    ensures
        forall|i: int| 0 <= i < 16 ==> #[trigger] w@[i] == input@[i],
        forall|i: int| 0 <= i < 16 ==> #[trigger] w@[OUT_COL + i] == spec_permute(input@)[i],
        spec_permute(input@).len() == WIDTH,
        forall|c: int| 0 <= c < N_COLUMNS_PER_PERM ==> #[trigger] w@[c] == perm_col(input@, c),
{
    let rc = round_constants();
    let mut w = [M31(0); N_COLUMNS_PER_PERM];
    let ghost ext = rc.external_rows();
    proof {
        assert(ext =~= rc_external_spec());
        assert(rc.internal@ =~= rc_internal_spec());
    }
    for i in 0..WIDTH
        invariant
            forall|k: int| 0 <= k < i ==> #[trigger] w@[k] == input@[k],
    {
        w[i] = input[i];
    }
    assert forall|c: int| 0 <= c < 16 implies #[trigger] w@[c] == perm_col(input@, c) by {}
    let mut state = input;
    apply_external_round_matrix(&mut state);
    let mut col: usize = WIDTH;
    for round in 0..N_HALF_FULL_ROUNDS
        invariant
            ext == rc_external_spec(),
            ext == rc.external_rows(),
            col == 16 + 32 * round,
            state@ == st_first(input@, round as int),
            forall|k: int| 0 <= k < 16 ==> #[trigger] w@[k] == input@[k],
            forall|c: int| 0 <= c < col ==> #[trigger] w@[c] == perm_col(input@, c),
    {
        let ghost s0 = state@;
        let ghost w0 = w@;
        full_round_cols(&mut state, &rc.external[round], &mut w, col);
        proof {
            assert(rc.external@[round as int]@ == ext[round as int]);
            let ri = round as int;
            assert forall|c: int| 0 <= c < col + 32 implies #[trigger] w@[c] == perm_col(input@, c) by {
                if c >= col {
                    let i = c - col;
                    assert((c - 16) / 32 == ri && (c - 16) % 32 == i) by (nonlinear_arith)
                        requires c == 16 + 32 * ri + i, 0 <= i < 32, ri >= 0;
                    if i < 16 {
                        assert(w@[col + i] == fsq(fadd(s0[i], rc.external@[round as int]@[i])));
                    } else {
                        assert(w@[col + 16 + (i - 16)] == state@[i - 16]);
                    }
                } else {
                    assert(w@[c] == w0[c]);
                }
            }
        }
        col = col + 2 * WIDTH;
    }
    // The partial rounds sit between the two halves of the full rounds.
    for r in 0..N_PARTIAL_ROUNDS
        invariant
            rc.internal@ =~= rc_internal_spec(),
            col == 144 + 2 * r,
            state@ == st_mid(input@, r as int),
            forall|k: int| 0 <= k < 16 ==> #[trigger] w@[k] == input@[k],
            forall|c: int| 0 <= c < col ==> #[trigger] w@[c] == perm_col(input@, c),
    {
        let x = m31_add(state[0], rc.internal[r]);
        let aux = m31_mul(x, x);
        let x4 = m31_mul(aux, aux);
        let y = m31_mul(x4, x);
        proof {
            lemma_sbox(x, aux, y, x4);
        }
        let ghost before = state@;
        state[0] = y;
        w[col] = aux;
        w[col + 1] = state[0];
        proof {
            let ri = r as int;
            assert((col - 144) / 2 == ri && (col - 144) % 2 == 0 && (col + 1 - 144) / 2 == ri && (col + 1 - 144) % 2 == 1)
                by (nonlinear_arith)
                requires col == 144 + 2 * ri, ri >= 0;
            assert(rc.internal@[ri] == rc_internal_spec()[ri]);
            assert(w@[col as int] == perm_col(input@, col as int));
            assert(w@[col + 1] == perm_col(input@, col + 1));
        }
        col = col + 2;
        proof {
            assert(state@ =~= before.update(0, fpow5(fadd(before[0], rc.internal@[r as int]))));
        }
        apply_internal_round_matrix(&mut state);
        proof {
            reveal(spec_partial_round);
        }
    }
    for round in 0..N_HALF_FULL_ROUNDS
        invariant
            ext == rc_external_spec(),
            ext == rc.external_rows(),
            col == 172 + 32 * round,
            state@ == st_last(input@, round + 4),
            forall|k: int| 0 <= k < 16 ==> #[trigger] w@[k] == input@[k],
            round > 0 ==> forall|i: int| 0 <= i < 16 ==> w@[col - 16 + i] == #[trigger] state@[i],
            forall|c: int| 0 <= c < col ==> #[trigger] w@[c] == perm_col(input@, c),
    {
        let ghost s0 = state@;
        let ghost w0 = w@;
        full_round_cols(&mut state, &rc.external[round + N_HALF_FULL_ROUNDS], &mut w, col);
        proof {
            assert(rc.external@[round + 4]@ == ext[round + 4]);
            let ri = round as int;
            assert forall|c: int| 0 <= c < col + 32 implies #[trigger] w@[c] == perm_col(input@, c) by {
                if c >= col {
                    let i = c - col;
                    assert((c - 172) / 32 == ri && (c - 172) % 32 == i) by (nonlinear_arith)
                        requires c == 172 + 32 * ri + i, 0 <= i < 32, ri >= 0;
                    if i < 16 {
                        assert(w@[col + i] == fsq(fadd(s0[i], rc.external@[round + 4]@[i])));
                    } else {
                        assert(w@[col + 16 + (i - 16)] == state@[i - 16]);
                    }
                } else {
                    assert(w@[c] == w0[c]);
                }
            }
            assert forall|i: int| 0 <= i < 16 implies w@[col + 32 - 16 + i] == #[trigger] state@[i] by {
                assert(w@[col + 16 + i] == state@[i]);
            }
        }
        col = col + 2 * WIDTH;
    }
    proof {
        reveal(spec_permute);
        assert(state@ == spec_permute(input@));
        assert forall|i: int| 0 <= i < 16 implies #[trigger] w@[OUT_COL + i] == spec_permute(input@)[i] by {
            assert(w@[col - 16 + i] == state@[i]);
        }
    }
    w
}

} // verus!
