//! The main trace of the chain's AIR, row by row in logical order: row `r`
//! holds the Poseidon2 witness of the `r`-th merge of the accumulator and
//! the position bit. Rows past the chain keep folding with a zero sibling.
//! Placing the rows in the prover's bit-reversed storage order is the
//! prover's business.

use vstd::prelude::*;
use crate::field::NodeDigest;
use crate::hashes::poseidon2::{lemma_digest_of_lanes, merge_digest, spec_merge, spec_permute, Digest, DIGEST_WIDTH, N_COLUMNS_PER_PERM, WIDTH};
use crate::hashes::poseidon2::pow2;
use crate::m31::M31;
use crate::stark::stwo::{chain_acc, merge_step, perm_col, permutation_witness, Chain, Merge, BIT_COL, N_TRACE_COLUMNS, OUT_COL};

verus! {

/// The merge of trace row `r`: the chain's, or a zero merge past its end.
pub open spec fn row_merge(merges: Seq<Merge>, r: int) -> Merge {
    if r < merges.len() {
        merges[r]
    } else {
        Merge { sibling: Digest::spec_zero(), bit: false }
    }
}

/// The accumulator entering trace row `n`.
pub open spec fn trace_acc(seed: Digest, merges: Seq<Merge>, n: int) -> Digest
    decreases n,
{
    if n <= 0 {
        seed
    } else {
        merge_step(trace_acc(seed, merges, n - 1), row_merge(merges, n - 1))
    }
}

/// The permutation input of trace row `r`: the accumulator and the sibling,
/// the sibling on the left when the bit is set.
pub open spec fn row_input(seed: Digest, merges: Seq<Merge>, r: int) -> Seq<M31> {
    let acc = trace_acc(seed, merges, r);
    let m = row_merge(merges, r);
    if m.bit {
        m.sibling.0@ + acc.0@
    } else {
        acc.0@ + m.sibling.0@
    }
}

/// Over the chain's own rows the trace folds exactly as the chain does.
pub proof fn lemma_trace_acc_is_chain(seed: Digest, merges: Seq<Merge>, n: int)
    requires
        0 <= n <= merges.len(),
    ensures
        trace_acc(seed, merges, n) == chain_acc(seed, merges, n),
    decreases n,
{
    if n > 0 {
        lemma_trace_acc_is_chain(seed, merges, n - 1);
    }
}

/// The rows of the main trace over `2^log_size` rows, in logical order:
/// each row is the permutation witness of its merge (every column as
/// `perm_col` lays it out) followed by the bit.
pub fn gen_trace(chain: &Chain, log_size: u32) -> (rows: Vec<Vec<M31>>)
    requires
        pow2(log_size as nat) <= usize::MAX,
        chain.merges@.len() <= pow2(log_size as nat),
    ensures
        rows@.len() == pow2(log_size as nat),
        forall|r: int| 0 <= r < rows@.len() ==> {
            let row = (#[trigger] rows@[r])@;
            let input = row_input(chain.seed, chain.merges@, r);
            &&& row.len() == N_TRACE_COLUMNS
            &&& forall|i: int| 0 <= i < WIDTH ==> row[i] == input[i]
            &&& forall|i: int| 0 <= i < WIDTH ==> row[OUT_COL + i] == spec_permute(input)[i]
            &&& forall|c: int| 0 <= c < N_COLUMNS_PER_PERM ==> row[c] == perm_col(input, c)
            &&& row[BIT_COL as int] == M31(if row_merge(chain.merges@, r).bit { 1 } else { 0 })
        },
{
    let mut n_rows: usize = 1;
    let mut e: u32 = 0;
    while e < log_size
        invariant
            e <= log_size,
            n_rows == pow2(e as nat),
            pow2(log_size as nat) <= usize::MAX,
        decreases log_size - e,
    {
        proof {
            crate::hashes::poseidon2::lemma_pow2_mono((e + 1) as nat, log_size as nat);
        }
        n_rows = n_rows * 2;
        e = e + 1;
    }
    let ghost merges = chain.merges@;
    let ghost seed = chain.seed;
    let mut rows: Vec<Vec<M31>> = Vec::new();
    let mut acc = chain.seed;
    let mut r: usize = 0;
    while r < n_rows
        invariant
            n_rows == pow2(log_size as nat),
            merges == chain.merges@,
            seed == chain.seed,
            r <= n_rows,
            rows@.len() == r,
            acc == trace_acc(seed, merges, r as int),
            forall|t: int| 0 <= t < r ==> {
                let row = (#[trigger] rows@[t])@;
                let input = row_input(seed, merges, t);
                &&& row.len() == N_TRACE_COLUMNS
                &&& forall|i: int| 0 <= i < WIDTH ==> row[i] == input[i]
                &&& forall|i: int| 0 <= i < WIDTH ==> row[OUT_COL + i] == spec_permute(input)[i]
                &&& forall|c: int| 0 <= c < N_COLUMNS_PER_PERM ==> row[c] == perm_col(input, c)
                &&& row[BIT_COL as int] == M31(if row_merge(merges, t).bit { 1 } else { 0 })
            },
        decreases n_rows - r,
    {
        let m = if r < chain.merges.len() { chain.merges[r] } else { Merge { sibling: Digest::zero(), bit: false } };
        let (left, right) = if m.bit { (m.sibling, acc) } else { (acc, m.sibling) };
        let mut input = [M31(0); WIDTH];
        let mut i: usize = 0;
        while i < DIGEST_WIDTH
            invariant
                i <= DIGEST_WIDTH,
                forall|k: int| 0 <= k < i ==> #[trigger] input@[k] == left.0@[k],
                forall|k: int| 0 <= k < i ==> #[trigger] input@[k + 8] == right.0@[k],
            decreases DIGEST_WIDTH - i,
        {
            input[i] = left.0[i];
            input[i + DIGEST_WIDTH] = right.0[i];
            i = i + 1;
        }
        proof {
            assert(m == row_merge(merges, r as int));
            assert forall|k: int| 0 <= k < 16 implies input@[k] == row_input(seed, merges, r as int)[k] by {
                if k >= 8 {
                    assert(input@[(k - 8) + 8] == right.0@[k - 8]);
                }
            }
            assert(input@ =~= row_input(seed, merges, r as int));
        }
        let w = permutation_witness(input);
        let mut row: Vec<M31> = Vec::new();
        let mut c: usize = 0;
        while c < N_COLUMNS_PER_PERM
            invariant
                c <= N_COLUMNS_PER_PERM,
                row@ == w@.take(c as int),
            decreases N_COLUMNS_PER_PERM - c,
        {
            row.push(w[c]);
            proof {
                assert(row@ =~= w@.take(c + 1));
            }
            c = c + 1;
        }
        row.push(M31(if m.bit { 1 } else { 0 }));
        let mut out = [M31(0); DIGEST_WIDTH];
        let mut k: usize = 0;
        while k < DIGEST_WIDTH
            invariant
                k <= DIGEST_WIDTH,
                forall|j: int| 0 <= j < k ==> #[trigger] out@[j] == w@[OUT_COL + j],
            decreases DIGEST_WIDTH - k,
        {
            out[k] = w[OUT_COL + k];
            k = k + 1;
        }
        let next = Digest(out);
        proof {
            let input_s = row_input(seed, merges, r as int);
            assert(left.0@ + right.0@ =~= input_s);
            assert(next.0@ =~= spec_merge(left.0@, right.0@)) by {
                assert forall|j: int| 0 <= j < 8 implies next.0@[j] == spec_merge(left.0@, right.0@)[j] by {
                    assert(out@[j] == w@[OUT_COL + j]);
                }
            }
            lemma_digest_of_lanes(next);
            assert(next == merge_digest(left, right));
            assert(next == merge_step(acc, m));
            assert(row@[BIT_COL as int] == M31(if m.bit { 1 } else { 0 }));
            assert forall|i: int| 0 <= i < WIDTH implies row@[i] == input_s[i] by {
                assert(row@[i] == w@[i]);
            }
            assert forall|i: int| 0 <= i < WIDTH implies row@[OUT_COL + i] == spec_permute(input_s)[i] by {
                assert(row@[OUT_COL + i] == w@[OUT_COL + i]);
            }
            assert forall|c: int| 0 <= c < N_COLUMNS_PER_PERM implies row@[c] == perm_col(input_s, c) by {
                assert(row@[c] == w@[c]);
            }
        }
        rows.push(row);
        acc = next;
        r = r + 1;
    }
    rows
}

} // verus!
