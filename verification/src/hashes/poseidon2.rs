//! Poseidon2 over the Mersenne-31 field (width 16), and the flat hash it
//! feeds.
//!
//! Parameters: width 16, S-box x^5, 8 full rounds (4 + 4) and 14 partial
//! rounds. The linear layers are the Poseidon2 paper's: external =
//! circ(2·M4, M4, M4, M4), internal = J + diag(2^{i+1}).
//!
//! Compression is truncation, `merge(l, r) = P(l || r)[0..8]`, and a digest
//! is 8 M31 elements (32 bytes encoded).

use vstd::prelude::*;
use crate::m31::{M31, P, p, m31_add, m31_mul, lemma_add_cong, lemma_mul_cong};
use crate::hashes::blake3::{blake3_xof, blake3_xof_spec};
use crate::field::NodeDigest;

verus! {

/// Permutation state width.
pub const WIDTH: usize = 16;
/// Digest width: the permutation output is truncated to this many elements.
pub const DIGEST_WIDTH: usize = 8;
pub const N_HALF_FULL_ROUNDS: usize = 4;
pub const N_FULL_ROUNDS: usize = 2 * N_HALF_FULL_ROUNDS;
pub const N_PARTIAL_ROUNDS: usize = 14;

/// Width of the Stwo AIR's per-permutation column block: the input state,
/// then per full round an x^2 auxiliary block and the round output, then per
/// partial round one auxiliary and one output column.
pub const N_COLUMNS_PER_PERM: usize = WIDTH + N_FULL_ROUNDS * 2 * WIDTH + N_PARTIAL_ROUNDS * 2;

// FIELD-LEVEL SPECIFICATIONS
// ================================================================================================

/// `(a + b) mod p` as an element.
pub open spec fn fadd(a: M31, b: M31) -> M31 {
    M31(((a.0 + b.0) % p()) as u32)
}

/// `x^5 mod p` as an element.
pub open spec fn fpow5(x: M31) -> M31 {
    M31(((x.0 * x.0 * x.0 * x.0 * x.0) % p()) as u32)
}

/// All lanes are canonical.
pub open spec fn all_wf(s: Seq<M31>) -> bool {
    forall|i: int| 0 <= i < s.len() ==> (#[trigger] s[i]).wf()
}

/// `(c0*x0 + c1*x1 + c2*x2 + c3*x3) mod p`.
pub open spec fn lin4(x: Seq<M31>, c0: int, c1: int, c2: int, c3: int) -> M31 {
    M31(((c0 * x[0].0 + c1 * x[1].0 + c2 * x[2].0 + c3 * x[3].0) % p()) as u32)
}

/// The M4 MDS matrix of the Poseidon2 paper (§5.1), applied to 4 lanes:
/// rows (5 7 1 3), (4 6 1 1), (1 3 5 7), (1 1 4 6).
pub open spec fn spec_m4(x: Seq<M31>) -> Seq<M31> {
    seq![lin4(x, 5, 7, 1, 3), lin4(x, 4, 6, 1, 1), lin4(x, 1, 3, 5, 7), lin4(x, 1, 1, 4, 6)]
}

/// M4 applied to each block of 4 lanes of a 16-lane state.
pub open spec fn spec_m4_blocks(s: Seq<M31>) -> Seq<M31> {
    Seq::new(16, |k: int| spec_m4(s.subrange(4 * (k / 4), 4 * (k / 4) + 4))[k % 4])
}

/// Column `c` of a 16-lane state viewed as 4 blocks of 4, summed.
pub open spec fn col_sum(z: Seq<M31>, c: int) -> int {
    z[c].0 + z[4 + c].0 + z[8 + c].0 + z[12 + c].0
}

/// Lane `4r + c` of the external matrix's output, from the M4 images `z` of
/// the blocks.
pub open spec fn ext_lane(z: Seq<M31>, r: int, c: int) -> M31 {
    M31(((z[4 * r + c].0 + col_sum(z, c)) % p()) as u32)
}

/// The external round matrix circ(2·M4, M4, M4, M4): lane `4i + j` of the
/// output is `(M4 y_i)[j] + sum_k (M4 y_k)[j]`, `y_k` being block k.
pub open spec fn spec_external(s: Seq<M31>) -> Seq<M31> {
    Seq::new(16, |k: int| ext_lane(spec_m4_blocks(s), k / 4, k % 4))
}

/// Sum of the first `n` lanes, as an integer.
pub open spec fn lane_sum(s: Seq<M31>, n: int) -> int
    decreases n,
{
    if n <= 0 {
        0
    } else {
        lane_sum(s, n - 1) + s[n - 1].0
    }
}

/// 2^n for small n.
pub open spec fn pow2(n: nat) -> int
    decreases n,
{
    if n == 0 {
        1
    } else {
        2 * pow2((n - 1) as nat)
    }
}

/// The internal round matrix J + diag(2^{i+1}) (§5.2): lane i becomes
/// `s_i * 2^{i+1} + sum_k s_k`.
pub open spec fn spec_internal(s: Seq<M31>) -> Seq<M31> {
    Seq::new(
        16,
        |i: int| M31(((s[i].0 * pow2((i + 1) as nat) + lane_sum(s, 16)) % p()) as u32),
    )
}

// LINEAR LAYERS AND S-BOX
// ================================================================================================

/// The state with `c` in lane `i` and zero in every other lane.
pub open spec fn unit_state(i: int, c: u32) -> Seq<M31> {
    Seq::new(16, |k: int| if k == i { M31(c) } else { M31(0) })
}

proof fn lemma_lane_sum_unit(i: int, c: u32, n: int)
    requires
        0 <= n <= 16,
    ensures
        lane_sum(unit_state(i, c), n) == (if 0 <= i < n { c as int } else { 0 }),
    decreases n,
{
    if n > 0 {
        lemma_lane_sum_unit(i, c, n - 1);
    }
}

/// This file's powers of two are the usual ones.
proof fn lemma_pow2_is_vstd(n: nat)
    ensures
        pow2(n) == vstd::arithmetic::power2::pow2(n),
    decreases n,
{
    if n > 0 {
        lemma_pow2_is_vstd((n - 1) as nat);
        vstd::arithmetic::power2::lemma_pow2_unfold(n);
    } else {
        vstd::arithmetic::power2::lemma2_to64();
    }
}

/// The S-box is the fifth power in the field.
pub proof fn lemma_sbox_is_fifth_power(x: M31)
    ensures
        fpow5(x).0 == vstd::arithmetic::power::pow(x.0 as int, 5) % p(),
{
    reveal_with_fuel(vstd::arithmetic::power::pow, 6);
    let b = x.0 as int;
    assert(b * (b * (b * (b * (b * 1)))) == b * b * b * b * b) by (nonlinear_arith);
}

/// Entry `(r, j)` of the M4 matrix of the Poseidon2 paper (§5.1).
pub open spec fn m4_entry(r: int, j: int) -> int {
    seq![seq![5int, 7, 1, 3], seq![4int, 6, 1, 1], seq![1int, 3, 5, 7], seq![1int, 1, 4, 6]][r][j]
}

/// M4 on each block, for a state that is `c` in lane `i` only: lane `k` is
/// `M4[k mod 4][i mod 4] * c` in `i`'s block and zero in the others.
#[verifier::spinoff_prover]
proof fn lemma_m4_blocks_unit(i: int, c: u32, k: int)
    requires
        0 <= i < 16,
        0 <= k < 16,
    ensures
        spec_m4_blocks(unit_state(i, c))[k].0 == (if k / 4 == i / 4 { (m4_entry(k % 4, i % 4) * c) % p() } else { 0 }),
{
    let u = unit_state(i, c);
    let b = k / 4;
    let blk = u.subrange(4 * b, 4 * b + 4);
    assert(blk.len() == 4);
    assert(forall|x: int| 0 <= x < 4 ==> #[trigger] blk[x] == u[4 * b + x]);
    let r = k % 4;
    let ci = c as int;
    if b == i / 4 {
        let j = i % 4;
        assert(i == 4 * b + j);
        assert(forall|x: int| 0 <= x < 4 ==> (#[trigger] blk[x]).0 == (if x == j { ci } else { 0 }));
        assert(spec_m4(blk)[r] == (if r == 0 { lin4(blk, 5, 7, 1, 3) } else if r == 1 { lin4(blk, 4, 6, 1, 1) }
            else if r == 2 { lin4(blk, 1, 3, 5, 7) } else { lin4(blk, 1, 1, 4, 6) }));
    } else {
        assert(forall|x: int| 0 <= x < 4 ==> (#[trigger] blk[x]).0 == 0);
        assert(spec_m4(blk)[r] == (if r == 0 { lin4(blk, 5, 7, 1, 3) } else if r == 1 { lin4(blk, 4, 6, 1, 1) }
            else if r == 2 { lin4(blk, 1, 3, 5, 7) } else { lin4(blk, 1, 1, 4, 6) }));
    }
}

/// The external matrix is circ(2·M4, M4, M4, M4): the state that is `c` in
/// lane `i` and zero elsewhere goes, in lane `k`, to `M4[k mod 4][i mod 4]
/// * c`, doubled in `i`'s own block of four lanes.
#[verifier::spinoff_prover]
pub proof fn lemma_external_columns(i: int, c: u32, k: int)
    requires
        0 <= i < 16,
        0 <= k < 16,
    ensures
        spec_external(unit_state(i, c))[k].0 == ((if k / 4 == i / 4 { 2int } else { 1 }) * m4_entry(k % 4, i % 4) * c) % p(),
{
    let z = spec_m4_blocks(unit_state(i, c));
    let r = k % 4;
    let m = m4_entry(r, i % 4);
    let v = (m * c) % p();
    lemma_m4_blocks_unit(i, c, k);
    lemma_m4_blocks_unit(i, c, r);
    lemma_m4_blocks_unit(i, c, 4 + r);
    lemma_m4_blocks_unit(i, c, 8 + r);
    lemma_m4_blocks_unit(i, c, 12 + r);
    assert(col_sum(z, r) == v);
    assert(spec_external(unit_state(i, c))[k] == ext_lane(z, k / 4, r));
    assert(4 * (k / 4) + r == k);
    if k / 4 == i / 4 {
        vstd::arithmetic::div_mod::lemma_add_mod_noop(m * c, m * c, p());
        vstd::arithmetic::div_mod::lemma_mod_twice(m * c, p());
        assert(2 * m * c == m * c + m * c) by (nonlinear_arith);
    } else {
        vstd::arithmetic::div_mod::lemma_mod_twice(m * c, p());
        assert(1 * m * c == m * c);
    }
}

/// The internal matrix is J + diag(2^(i+1)): the state that is `c` in lane
/// `i` and zero elsewhere goes to `c * (2^(i+1) + 1)` in lane `i` and to
/// `c` in every other lane.
pub proof fn lemma_internal_columns(i: int, c: u32, k: int)
    requires
        0 <= i < 16,
        0 <= k < 16,
    ensures
        spec_internal(unit_state(i, c))[k].0 == (if k == i {
            (c * (vstd::arithmetic::power2::pow2((i + 1) as nat) + 1)) % p()
        } else {
            (c as int) % p()
        }),
{
    let u = unit_state(i, c);
    lemma_lane_sum_unit(i, c, 16);
    lemma_pow2_is_vstd((k + 1) as nat);
    let e = pow2((k + 1) as nat);
    if k == i {
        assert(c * e + c == c * (e + 1)) by (nonlinear_arith);
    }
    assert(0 * e == 0);
}

proof fn lemma_add_step(u: M31, v: M31, a: int, b: int)
    requires
        (u.0 as int) % p() == a % p(),
        (v.0 as int) % p() == b % p(),
    ensures
        (u.0 + v.0) % p() == (a + b) % p(),
{
    lemma_add_cong(a, b);
    lemma_add_cong(u.0 as int, v.0 as int);
}

proof fn add_step(u: M31, v: M31, t: M31, a: int, b: int)
    requires
        (u.0 as int) % p() == a % p(),
        (v.0 as int) % p() == b % p(),
        t.0 == (u.0 + v.0) % p(),
    ensures
        t.0 == (a + b) % p(),
        (t.0 as int) % p() == (a + b) % p(),
{
    lemma_add_step(u, v, a, b);
    vstd::arithmetic::div_mod::lemma_mod_twice(a + b, p());
}

/// The M4 MDS matrix of <https://eprint.iacr.org/2023/323.pdf> §5.1.
pub fn apply_m4(x: [M31; 4]) -> (r: [M31; 4])
    ensures
        all_wf(r@),
        r@ == spec_m4(x@),
{
    let x0 = x[0];
    let x1 = x[1];
    let x2 = x[2];
    let x3 = x[3];
    let ghost a0: int = x0.0 as int;
    let ghost a1: int = x1.0 as int;
    let ghost a2: int = x2.0 as int;
    let ghost a3: int = x3.0 as int;
    let t0 = m31_add(x0, x1);
    proof { add_step(x0, x1, t0, a0, a1); }
    let t02 = m31_add(t0, t0);
    proof { add_step(t0, t0, t02, a0 + a1, a0 + a1); }
    let t1 = m31_add(x2, x3);
    proof { add_step(x2, x3, t1, a2, a3); }
    let t12 = m31_add(t1, t1);
    proof { add_step(t1, t1, t12, a2 + a3, a2 + a3); }
    let u = m31_add(x1, x1);
    proof { add_step(x1, x1, u, a1, a1); }
    let t2 = m31_add(u, t1);
    proof { add_step(u, t1, t2, a1 + a1, a2 + a3); }
    let v = m31_add(x3, x3);
    proof { add_step(x3, x3, v, a3, a3); }
    let t3 = m31_add(v, t0);
    proof { add_step(v, t0, t3, a3 + a3, a0 + a1); }
    let w = m31_add(t12, t12);
    proof { add_step(t12, t12, w, 2 * (a2 + a3), 2 * (a2 + a3)); }
    let t4 = m31_add(w, t3);
    proof { add_step(w, t3, t4, 4 * (a2 + a3), 2 * a3 + a0 + a1); }
    let y = m31_add(t02, t02);
    proof { add_step(t02, t02, y, 2 * (a0 + a1), 2 * (a0 + a1)); }
    let t5 = m31_add(y, t2);
    proof { add_step(y, t2, t5, 4 * (a0 + a1), 2 * a1 + a2 + a3); }
    let t6 = m31_add(t3, t5);
    proof { add_step(t3, t5, t6, 2 * a3 + a0 + a1, 4 * (a0 + a1) + 2 * a1 + a2 + a3); }
    let t7 = m31_add(t2, t4);
    proof { add_step(t2, t4, t7, 2 * a1 + a2 + a3, 4 * (a2 + a3) + 2 * a3 + a0 + a1); }
    let r = [t6, t5, t7, t4];
    proof {
        assert(r@ =~= spec_m4(x@));
    }
    r
}

/// `x^5`.
pub fn pow5(x: M31) -> (r: M31)
    ensures
        r.wf(),
        r == fpow5(x),
{
    let x2 = m31_mul(x, x);
    let x4 = m31_mul(x2, x2);
    let r = m31_mul(x4, x);
    proof {
        let a: int = x.0 as int;
        lemma_mul_cong(a * a, a * a);
        vstd::arithmetic::div_mod::lemma_mul_mod_noop_left(a * a * a * a, a, p());
        assert((a * a) * (a * a) == a * a * a * a) by (nonlinear_arith);
    }
    r
}

/// The external round matrix circ(2·M4, M4, M4, M4) (§5.1, Appendix B).
#[verifier::spinoff_prover]
pub fn apply_external_round_matrix(state: &mut [M31; WIDTH])
    ensures
        all_wf(final(state)@),
        final(state)@ == spec_external(old(state)@),
{
    let ghost s0 = state@;
    let ghost z = spec_m4_blocks(s0);
    for i in 0..4usize
        invariant
            s0.len() == 16,
            z == spec_m4_blocks(s0),
            forall|k: int| 0 <= k < 4 * i ==> state@[k] == #[trigger] z[k],
            forall|k: int| 4 * i <= k < 16 ==> state@[k] == #[trigger] s0[k],
    {
        let blk = [state[4 * i], state[4 * i + 1], state[4 * i + 2], state[4 * i + 3]];
        proof {
            assert(state@[4 * i] == s0[4 * i]);
            assert(state@[4 * i + 1] == s0[4 * i + 1]);
            assert(state@[4 * i + 2] == s0[4 * i + 2]);
            assert(state@[4 * i + 3] == s0[4 * i + 3]);
            assert(blk@[0] == state@[4 * i]);
            assert(blk@[1] == state@[4 * i + 1]);
            assert(blk@[2] == state@[4 * i + 2]);
            assert(blk@[3] == state@[4 * i + 3]);
            assert(s0.subrange(4 * i, 4 * i + 4) =~= seq![s0[4 * i], s0[4 * i + 1], s0[4 * i + 2], s0[4 * i + 3]]);
            assert(blk@ =~= seq![s0[4 * i], s0[4 * i + 1], s0[4 * i + 2], s0[4 * i + 3]]);
        }
        let r = apply_m4(blk);
        state[4 * i] = r[0];
        state[4 * i + 1] = r[1];
        state[4 * i + 2] = r[2];
        state[4 * i + 3] = r[3];
        proof {
            assert(state@[4 * i] == r@[0]);
            assert(state@[4 * i + 1] == r@[1]);
            assert(state@[4 * i + 2] == r@[2]);
            assert(state@[4 * i + 3] == r@[3]);
            assert forall|k: int| 4 * i <= k < 4 * i + 4 implies state@[k] == #[trigger] z[k] by {
                assert(k / 4 == i);
                assert(k % 4 == k - 4 * i);
                assert(z[k] == spec_m4(s0.subrange(4 * i, 4 * i + 4))[k - 4 * i]);
            }
        }
    }
    for j in 0..4usize
        invariant
            z.len() == 16,
            z == spec_m4_blocks(s0),
            forall|r: int, c: int|
                0 <= r < 4 && 0 <= c < j ==> state@[4 * r + c] == #[trigger] ext_lane(z, r, c),
            forall|r: int, c: int|
                0 <= r < 4 && j <= c < 4 ==> #[trigger] state@[4 * r + c] == z[4 * r + c],
    {
        proof {
            assert(state@[4 * 0 + j] == z[j as int]);
            assert(state@[4 * 1 + j] == z[j + 4]);
            assert(state@[4 * 2 + j] == z[j + 8]);
            assert(state@[4 * 3 + j] == z[j + 12]);
        }
        let ghost a: int = z[j as int].0 as int;
        let ghost b: int = z[j + 4].0 as int;
        let ghost c: int = z[j + 8].0 as int;
        let ghost d: int = z[j + 12].0 as int;
        let s1 = m31_add(state[j], state[j + 4]);
        proof { add_step(z[j as int], z[j + 4], s1, a, b); }
        let s2 = m31_add(s1, state[j + 8]);
        proof { add_step(s1, z[j + 8], s2, a + b, c); }
        let s = m31_add(s2, state[j + 12]);
        proof { add_step(s2, z[j + 12], s, a + b + c, d); }
        for i in 0..4usize
            invariant
                0 <= j < 4,
                z.len() == 16,
                s.wf(),
                s.0 == col_sum(z, j as int) % p(),
                (s.0 as int) % p() == col_sum(z, j as int) % p(),
                forall|r: int, c: int|
                    0 <= r < 4 && 0 <= c < 4 && (c < j || (c == j && r < i)) ==> state@[4 * r + c]
                        == #[trigger] ext_lane(z, r, c),
                forall|r: int, c: int|
                    0 <= r < 4 && 0 <= c < 4 && (c > j || (c == j && r >= i)) ==> #[trigger] state@[4
                        * r + c] == z[4 * r + c],
        {
            let k: usize = 4 * i + j;
            proof {
                assert(state@[4 * i + j] == z[4 * i + j]);
            }
            let v = m31_add(state[k], s);
            proof {
                add_step(z[k as int], s, v, z[k as int].0 as int, col_sum(z, j as int));
                assert(ext_lane(z, i as int, j as int) == v);
            }
            state[k] = v;
        }
    }
    proof {
        assert forall|k: int| 0 <= k < 16 implies (#[trigger] state@[k]).wf() by {
            assert(k == 4 * (k / 4) + k % 4);
            assert(state@[4 * (k / 4) + k % 4] == ext_lane(z, k / 4, k % 4));
            vstd::arithmetic::div_mod::lemma_mod_bound(z[k].0 + col_sum(z, k % 4), p());
        }
        assert forall|k: int| 0 <= k < 16 implies state@[k] == #[trigger] spec_external(s0)[k] by {
            assert(k == 4 * (k / 4) + k % 4);
            assert(state@[4 * (k / 4) + k % 4] == ext_lane(z, k / 4, k % 4));
        }
        assert(state@ =~= spec_external(s0));
    }
}

proof fn lemma_pow2_pos(n: nat)
    ensures
        pow2(n) >= 1,
    decreases n,
{
    if n > 0 {
        lemma_pow2_pos((n - 1) as nat);
    }
}

pub proof fn lemma_pow2_mono(n: nat, m: nat)
    requires
        n <= m,
    ensures
        pow2(n) <= pow2(m),
    decreases m - n,
{
    lemma_pow2_pos(m);
    if n < m {
        lemma_pow2_mono(n, (m - 1) as nat);
    }
}

proof fn lemma_pow2_small()
    ensures
        pow2(16) == 65536,
        pow2(1) == 2,
        forall|n: nat| n < 16 ==> #[trigger] pow2(n + 1) == 2 * pow2(n),
        forall|n: nat, m: nat| n <= m ==> #[trigger] pow2(n) <= #[trigger] pow2(m),
{
    reveal_with_fuel(pow2, 17);
    assert forall|n: nat, m: nat| n <= m implies #[trigger] pow2(n) <= #[trigger] pow2(m) by {
        lemma_pow2_mono(n, m);
    }
}

proof fn lemma_lane_sum_nonneg(s: Seq<M31>, n: int)
    ensures
        lane_sum(s, n) >= 0,
    decreases n,
{
    if n > 0 {
        lemma_lane_sum_nonneg(s, n - 1);
    }
}

/// The internal round matrix J + diag(mu_i), mu_i = 2^{i+1} (§5.2).
pub fn apply_internal_round_matrix(state: &mut [M31; WIDTH])
    ensures
        all_wf(final(state)@),
        final(state)@ == spec_internal(old(state)@),
{
    let ghost s0 = state@;
    proof {
        assert(lane_sum(s0, 1) == lane_sum(s0, 0) + s0[0].0);
        assert(lane_sum(s0, 0) == 0);
        lemma_pow2_small();
    }
    let mut sum = state[0];
    for i in 1..16usize
        invariant
            s0 == state@,
            s0.len() == 16,
            (sum.0 as int) % p() == lane_sum(s0, i as int) % p(),
    {
        let nxt = m31_add(sum, state[i]);
        proof {
            add_step(sum, s0[i as int], nxt, lane_sum(s0, i as int), s0[i as int].0 as int);
        }
        sum = nxt;
    }
    let mut mu: u32 = 2;
    for i in 0..16usize
        invariant
            s0.len() == 16,
            (sum.0 as int) % p() == lane_sum(s0, 16) % p(),
            i < 16 ==> mu as int == pow2((i + 1) as nat),
            i < 16 ==> mu <= 65536,
            pow2(16) == 65536,
            forall|n: nat| n < 16 ==> #[trigger] pow2(n + 1) == 2 * pow2(n),
            forall|n: nat, m: nat| n <= m ==> #[trigger] pow2(n) <= #[trigger] pow2(m),
            forall|k: int| 0 <= k < i ==> state@[k] == #[trigger] spec_internal(s0)[k],
            forall|k: int| i <= k < 16 ==> state@[k] == #[trigger] s0[k],
    {
        proof {
            assert(state@[i as int] == s0[i as int]);
        }
        let m = m31_mul(state[i], M31(mu));
        let v = m31_add(m, sum);
        proof {
            let x: int = s0[i as int].0 as int;
            vstd::arithmetic::div_mod::lemma_mod_twice(x * mu, p());
            add_step(m, sum, v, x * mu, lane_sum(s0, 16));
            assert(spec_internal(s0)[i as int] == v);
        }
        state[i] = v;
        if i + 1 < 16 {
            proof {
                assert(pow2((i + 2) as nat) == 2 * pow2((i + 1) as nat));
                assert(pow2((i + 2) as nat) <= pow2(16));
            }
            mu = mu * 2;
        }
    }
    proof {
        assert(state@ =~= spec_internal(s0));
        assert forall|k: int| 0 <= k < 16 implies (#[trigger] state@[k]).wf() by {
            vstd::arithmetic::div_mod::lemma_mod_bound(s0[k].0 * pow2((k + 1) as nat) + lane_sum(s0, 16), p());
            lemma_pow2_pos((k + 1) as nat);
            lemma_lane_sum_nonneg(s0, 16);
            vstd::arithmetic::mul::lemma_mul_nonnegative(s0[k].0 as int, pow2((k + 1) as nat));
        }
    }
}

// ROUND CONSTANTS
// ================================================================================================

/// The domain string the constants are derived from.
pub const RC_DOMAIN: &'static str = "IBSL/Poseidon2-M31/w16/d5/rf8/rp14/v1";

/// How many 32-bit words of BLAKE3 output are drawn from.
pub const RC_WORDS_DRAWN: usize = 1024;

/// Number of round constants: one per lane of every full round, one per
/// partial round.
pub const N_ROUND_CONSTANTS: usize = N_FULL_ROUNDS * WIDTH + N_PARTIAL_ROUNDS;

pub struct RoundConstants {
    pub external: [[M31; WIDTH]; N_FULL_ROUNDS],
    pub internal: [M31; N_PARTIAL_ROUNDS],
}

/// Word `j` of a byte stream, little-endian, with its top bit masked off.
pub open spec fn masked_word(bytes: Seq<u8>, j: int) -> int {
    (bytes[4 * j] + 256 * bytes[4 * j + 1] + 65536 * bytes[4 * j + 2] + 16777216 * bytes[4 * j
        + 3]) % 2147483648
}

/// The masked words among the first `n` that are not `p` (rejection
/// sampling), in order.
pub open spec fn accepted_words(bytes: Seq<u8>, n: int) -> Seq<u32>
    decreases n,
{
    if n <= 0 {
        Seq::empty()
    } else {
        let prev = accepted_words(bytes, n - 1);
        if masked_word(bytes, n - 1) != p() {
            prev.push(masked_word(bytes, n - 1) as u32)
        } else {
            prev
        }
    }
}

/// The accepted words of the BLAKE3 stream over the domain string.
pub open spec fn rc_stream() -> Seq<u32> {
    accepted_words(blake3_xof_spec(RC_DOMAIN@, (4 * RC_WORDS_DRAWN) as nat), RC_WORDS_DRAWN as int)
}

/// Round constant number `k`: the k-th accepted word, or zero past the end
/// of the drawn stream.
pub open spec fn rc_word(k: int) -> u32 {
    if k < rc_stream().len() {
        rc_stream()[k]
    } else {
        0
    }
}

/// The full-round constants as sequences: row r, lane i is constant 16r + i.
pub open spec fn rc_external_spec() -> Seq<Seq<M31>> {
    Seq::new(8, |r: int| Seq::new(16, |i: int| M31(rc_word(16 * r + i))))
}

/// The partial-round constants: round j is constant 128 + j.
pub open spec fn rc_internal_spec() -> Seq<M31> {
    Seq::new(14, |j: int| M31(rc_word(128 + j)))
}

impl RoundConstants {
    /// The constants as sequences of rows.
    pub open spec fn external_rows(&self) -> Seq<Seq<M31>> {
        Seq::new(8, |r: int| self.external@[r]@)
    }

    /// These are the constants derived from the domain string.
    pub open spec fn is_derived(&self) -> bool {
        &&& self.external_rows() =~= rc_external_spec()
        &&& self.internal@ =~= rc_internal_spec()
    }
}

proof fn lemma_accepted_prefix(bytes: Seq<u8>, n: int, m: int, k: int)
    requires
        0 <= n <= m,
        0 <= k < accepted_words(bytes, n).len(),
    ensures
        k < accepted_words(bytes, m).len(),
        accepted_words(bytes, m)[k] == accepted_words(bytes, n)[k],
    decreases m - n,
{
    if n < m {
        lemma_accepted_prefix(bytes, n, m - 1, k);
    }
}

proof fn lemma_accepted_bounds(bytes: Seq<u8>, n: int)
    ensures
        accepted_words(bytes, n).len() <= if n < 0 { 0 } else { n },
        forall|k: int| 0 <= k < accepted_words(bytes, n).len() ==> #[trigger] accepted_words(bytes, n)[k] < P,
    decreases n,
{
    if n > 0 {
        lemma_accepted_bounds(bytes, n - 1);
        vstd::arithmetic::div_mod::lemma_mod_bound(
            bytes[4 * (n - 1)] + 256 * bytes[4 * (n - 1) + 1] + 65536 * bytes[4 * (n - 1) + 2]
                + 16777216 * bytes[4 * (n - 1) + 3],
            2147483648,
        );
    }
}

/// BLAKE3-XOF-derived constants over a fixed domain string. Rejection-samples
/// the single invalid 31-bit word (p itself) so every constant is a
/// canonical M31 element. Draws from the first `RC_WORDS_DRAWN` words of the
/// stream; a constant past the accepted words of that prefix is zero.
pub fn round_constants() -> (r: RoundConstants)
    ensures
        r.is_derived(),
        forall|k: int, i: int| 0 <= k < 8 && 0 <= i < 16 ==> (#[trigger] r.external@[k]@[i]).wf(),
        forall|j: int| 0 <= j < 14 ==> (#[trigger] r.internal@[j]).wf(),
{
    let bytes = blake3_xof(RC_DOMAIN, 4 * RC_WORDS_DRAWN);
    let ghost bs = bytes@;
    let mut words: Vec<u32> = Vec::new();
    let mut j: usize = 0;
    while j < RC_WORDS_DRAWN && words.len() < N_ROUND_CONSTANTS
        invariant
            bs == bytes@,
            bs.len() == 4 * RC_WORDS_DRAWN,
            j <= RC_WORDS_DRAWN,
            words@ == accepted_words(bs, j as int),
            words@.len() <= N_ROUND_CONSTANTS,
        decreases RC_WORDS_DRAWN - j,
    {
        let b0: u32 = bytes[4 * j] as u32;
        let b1: u32 = bytes[4 * j + 1] as u32;
        let b2: u32 = bytes[4 * j + 2] as u32;
        let b3: u32 = (bytes[4 * j + 3] & 0x7f) as u32;
        proof {
            let x: u8 = bytes[4 * j + 3];
            assert((x & 0x7f) == x % 128) by (bit_vector);
            vstd::arithmetic::div_mod::lemma_fundamental_div_mod(x as int, 128);
            let lo: int = b0 + 256 * b1 + 65536 * b2;
            assert(b0 + 256 * b1 + 65536 * b2 + 16777216 * x == (lo + 16777216 * b3) + 2147483648 * (x / 128));
            vstd::arithmetic::div_mod::lemma_mod_multiples_vanish((x / 128) as int, lo + 16777216 * b3, 2147483648);
            vstd::arithmetic::div_mod::lemma_small_mod((lo + 16777216 * b3) as nat, 2147483648);
        }
        let w: u32 = b0 + 256 * b1 + 65536 * b2 + 16777216 * b3;
        proof {
            assert(w as int == masked_word(bs, j as int));
        }
        if w != P {
            words.push(w);
        }
        j = j + 1;
    }
    proof {
        lemma_accepted_bounds(bs, j as int);
        assert forall|k: int| 0 <= k < N_ROUND_CONSTANTS implies rc_word(k) == (if k < words@.len() {
            words@[k]
        } else {
            0u32
        }) by {
            lemma_accepted_bounds(bs, RC_WORDS_DRAWN as int);
            if k < words@.len() {
                lemma_accepted_prefix(bs, j as int, RC_WORDS_DRAWN as int, k);
            } else if j < RC_WORDS_DRAWN {
                assert(words@.len() == N_ROUND_CONSTANTS);
            }
        }
    }
    let mut external = [[M31(0); WIDTH]; N_FULL_ROUNDS];
    for r in 0..N_FULL_ROUNDS
        invariant
            words@ == accepted_words(bs, j as int),
            forall|k: int| 0 <= k < words@.len() ==> #[trigger] words@[k] < P,
            forall|k: int| 0 <= k < N_ROUND_CONSTANTS ==> #[trigger] rc_word(k) == (if k < words@.len() {
                words@[k]
            } else {
                0u32
            }),
            forall|q: int| 0 <= q < r ==> #[trigger] external@[q]@ =~= rc_external_spec()[q],
    {
        let mut row = [M31(0); WIDTH];
        for i in 0..WIDTH
            invariant
                r < N_FULL_ROUNDS,
                forall|k: int| 0 <= k < words@.len() ==> #[trigger] words@[k] < P,
                forall|k: int| 0 <= k < N_ROUND_CONSTANTS ==> #[trigger] rc_word(k) == (if k < words@.len() {
                    words@[k]
                } else {
                    0u32
                }),
                forall|q: int| 0 <= q < i ==> #[trigger] row@[q] == M31(rc_word(16 * r + q)),
        {
            let k: usize = 16 * r + i;
            let v: u32 = if k < words.len() { words[k] } else { 0 };
            row[i] = M31(v);
            proof {
                assert(rc_word(k as int) == v);
            }
        }
        external[r] = row;
    }
    let mut internal = [M31(0); N_PARTIAL_ROUNDS];
    for i in 0..N_PARTIAL_ROUNDS
        invariant
            forall|k: int| 0 <= k < words@.len() ==> #[trigger] words@[k] < P,
            forall|k: int| 0 <= k < N_ROUND_CONSTANTS ==> #[trigger] rc_word(k) == (if k < words@.len() {
                words@[k]
            } else {
                0u32
            }),
            forall|q: int| 0 <= q < i ==> #[trigger] internal@[q] == M31(rc_word(128 + q)),
    {
        let k: usize = 128 + i;
        let v: u32 = if k < words.len() { words[k] } else { 0 };
        internal[i] = M31(v);
        proof {
            assert(rc_word(k as int) == v);
        }
    }
    let r = RoundConstants { external, internal };
    proof {
        assert(r.external_rows() =~= rc_external_spec());
        assert(r.internal@ =~= rc_internal_spec());
    }
    r
}

// NATIVE PERMUTATION
// ================================================================================================

/// A full round: `M_E(pow5(state + RC))`.
#[verifier::opaque]
pub open spec fn spec_full_round(s: Seq<M31>, c: Seq<M31>) -> Seq<M31> {
    spec_external(Seq::new(16, |i: int| fpow5(fadd(s[i], c[i]))))
}

/// A partial round: `M_I(state with lane 0 replaced by pow5(state[0] + rc))`.
#[verifier::opaque]
pub open spec fn spec_partial_round(s: Seq<M31>, c: M31) -> Seq<M31> {
    spec_internal(s.update(0, fpow5(fadd(s[0], c))))
}

/// Full rounds `lo .. hi` with the constant rows `rc`.
pub open spec fn spec_full_rounds(s: Seq<M31>, rc: Seq<Seq<M31>>, lo: int, hi: int) -> Seq<M31>
    decreases hi - lo,
{
    if hi <= lo {
        s
    } else {
        spec_full_round(spec_full_rounds(s, rc, lo, hi - 1), rc[hi - 1])
    }
}

/// The first `n` partial rounds with the constants `rc`.
pub open spec fn spec_partial_rounds(s: Seq<M31>, rc: Seq<M31>, n: int) -> Seq<M31>
    decreases n,
{
    if n <= 0 {
        s
    } else {
        spec_partial_round(spec_partial_rounds(s, rc, n - 1), rc[n - 1])
    }
}

/// The permutation with the given constants: initial external matrix, 4
/// full rounds, 14 partial rounds, 4 full rounds.
pub open spec fn spec_permute_with(s: Seq<M31>, ext: Seq<Seq<M31>>, intl: Seq<M31>) -> Seq<M31> {
    spec_full_rounds(spec_partial_rounds(spec_full_rounds(spec_external(s), ext, 0, 4), intl, 14), ext, 4, 8)
}

/// The Poseidon2 permutation with the derived round constants.
#[verifier::opaque]
pub open spec fn spec_permute(s: Seq<M31>) -> Seq<M31> {
    spec_permute_with(s, rc_external_spec(), rc_internal_spec())
}

/// The rounds of the permutation: a full round adds the round's constants
/// to every lane, applies x^5 to every lane and then the external matrix;
/// a partial round adds its constant to lane 0 only, applies x^5 to lane 0
/// only and then the internal matrix; the permutation is the external
/// matrix, 4 full rounds with constant rows 0..4, 14 partial rounds with the
/// partial constants in order, and 4 full rounds with rows 4..8.
pub proof fn lemma_round_structure(s: Seq<M31>, c: Seq<M31>, c0: M31)
    ensures
        spec_full_round(s, c) == spec_external(Seq::new(16, |i: int| fpow5(fadd(s[i], c[i])))),
        spec_partial_round(s, c0) == spec_internal(s.update(0, fpow5(fadd(s[0], c0)))),
        spec_permute(s) == spec_full_rounds(
            spec_partial_rounds(spec_full_rounds(spec_external(s), rc_external_spec(), 0, 4), rc_internal_spec(), 14),
            rc_external_spec(),
            4,
            8,
        ),
{
    reveal(spec_full_round);
    reveal(spec_partial_round);
    reveal(spec_permute);
}

/// The round constants are canonical field elements, drawn in order from
/// the BLAKE3 stream over the domain string: each is a little-endian 32-bit
/// word of the stream with its top bit cleared, words equal to p skipped.
pub proof fn lemma_round_constants_canonical(bytes: Seq<u8>, n: int)
    ensures
        forall|k: int| 0 <= k < accepted_words(bytes, n).len() ==> (#[trigger] accepted_words(bytes, n)[k]) < p(),
        accepted_words(bytes, n).len() <= (if n < 0 { 0 } else { n }),
    decreases n,
{
    if n > 0 {
        lemma_round_constants_canonical(bytes, n - 1);
        let w = masked_word(bytes, n - 1);
        assert(0 <= w < 2147483648);
    }
}

/// A drawn word is the little-endian value of its four bytes, modulo 2^31.
pub proof fn lemma_masked_word_le(bytes: Seq<u8>, j: int)
    requires
        0 <= j,
        4 * j + 4 <= bytes.len(),
    ensures
        masked_word(bytes, j) == crate::field::le_value(bytes.subrange(4 * j, 4 * j + 4)) % 2147483648,
{
    let w = bytes.subrange(4 * j, 4 * j + 4);
    reveal_with_fuel(crate::field::le_value, 5);
    assert(w.drop_first() =~= bytes.subrange(4 * j + 1, 4 * j + 4));
    assert(w.drop_first().drop_first() =~= bytes.subrange(4 * j + 2, 4 * j + 4));
    assert(w.drop_first().drop_first().drop_first() =~= bytes.subrange(4 * j + 3, 4 * j + 4));
    assert(w.drop_first().drop_first().drop_first().drop_first() =~= Seq::<u8>::empty());
}

fn full_round(state: &mut [M31; WIDTH], rc: &[M31; WIDTH])
    ensures
        all_wf(final(state)@),
        final(state)@ == spec_full_round(old(state)@, rc@),
{
    let ghost s0 = state@;
    for i in 0..WIDTH
        invariant
            s0.len() == 16,
            forall|k: int| 0 <= k < i ==> #[trigger] state@[k] == fpow5(fadd(s0[k], rc@[k])),
            forall|k: int| i <= k < 16 ==> #[trigger] state@[k] == s0[k],
    {
        let x = m31_add(state[i], rc[i]);
        let y = pow5(x);
        state[i] = y;
    }
    proof {
        assert(state@ =~= Seq::new(16, |i: int| fpow5(fadd(s0[i], rc@[i]))));
        reveal(spec_full_round);
    }
    apply_external_round_matrix(state);
}

/// The Poseidon2 permutation, in the exact order the Stwo AIR constrains it:
/// initial external matrix, 4 full rounds, 14 partial rounds, 4 full rounds;
/// a full round is `M_E(pow5(state + RC))`, a partial round is
/// `M_I(state with lane 0 replaced by pow5(state[0] + rc))`.
pub fn permute(state: &mut [M31; WIDTH])
    ensures
        all_wf(final(state)@),
        final(state)@ == spec_permute(old(state)@),
{
    let rc = round_constants();
    let ghost s0 = state@;
    let ghost ext = rc.external_rows();
    apply_external_round_matrix(state);
    let ghost e0 = state@;
    for round in 0..N_HALF_FULL_ROUNDS
        invariant
            ext == rc.external_rows(),
            forall|k: int, i: int| 0 <= k < 8 && 0 <= i < 16 ==> (#[trigger] rc.external@[k]@[i]).wf(),
            all_wf(state@),
            state@ == spec_full_rounds(e0, ext, 0, round as int),
    {
        proof {
            assert forall|i: int| 0 <= i < 16 implies (#[trigger] rc.external@[round as int]@[i]).wf() by {}
        }
        full_round(state, &rc.external[round]);
    }
    let ghost f0 = state@;
    for round in 0..N_PARTIAL_ROUNDS
        invariant
            forall|j: int| 0 <= j < 14 ==> (#[trigger] rc.internal@[j]).wf(),
            all_wf(state@),
            state@.len() == 16,
            state@ == spec_partial_rounds(f0, rc.internal@, round as int),
    {
        proof {
            assert(state@[0].wf() && rc.internal@[round as int].wf());
        }
        let x = m31_add(state[0], rc.internal[round]);
        let y = pow5(x);
        let ghost before = state@;
        state[0] = y;
        proof {
            assert(state@ =~= before.update(0, fpow5(fadd(before[0], rc.internal@[round as int]))));
        }
        apply_internal_round_matrix(state);
        proof {
            reveal(spec_partial_round);
        }
    }
    let ghost g0 = state@;
    for round in 0..N_HALF_FULL_ROUNDS
        invariant
            ext == rc.external_rows(),
            forall|k: int, i: int| 0 <= k < 8 && 0 <= i < 16 ==> (#[trigger] rc.external@[k]@[i]).wf(),
            all_wf(state@),
            state@ == spec_full_rounds(g0, ext, 4, round + 4),
    {
        proof {
            assert forall|i: int| 0 <= i < 16 implies (#[trigger] rc.external@[round + 4]@[i]).wf() by {}
        }
        full_round(state, &rc.external[round + N_HALF_FULL_ROUNDS]);
    }
    proof {
        assert(ext =~= rc_external_spec());
        assert(rc.internal@ =~= rc_internal_spec());
        reveal(spec_permute);
    }
}

// DIGEST
// ================================================================================================

/// An 8-element M31 digest (~248 bits, 32 bytes encoded).
#[derive(Clone, Copy, PartialEq, Eq, Debug)]
pub struct Digest(pub [M31; DIGEST_WIDTH]);

/// The digest whose lanes are the first 8 elements of `s`.
pub open spec fn digest_of(s: Seq<M31>) -> Digest {
    Digest([s[0], s[1], s[2], s[3], s[4], s[5], s[6], s[7]])
}

/// 2-to-1 compression, as lanes: the first 8 lanes of the permutation of
/// `l || r`.
pub open spec fn spec_merge(l: Seq<M31>, r: Seq<M31>) -> Seq<M31> {
    spec_permute(l + r).subrange(0, 8)
}

/// 2-to-1 compression of digests.
pub open spec fn merge_digest(l: Digest, r: Digest) -> Digest {
    digest_of(spec_merge(l.0@, r.0@))
}

/// Byte `j` (little-endian) of a word.
pub open spec fn word_byte(w: u32, j: int) -> u8 {
    ((w >> ((8 * j) as u32)) & 0xff) as u8
}

impl Digest {
    /// Little-endian 4-byte encoding of each lane, in lane order.
    pub open spec fn spec_to_bytes(self) -> Seq<u8> {
        Seq::new(32, |k: int| word_byte(self.0@[k / 4].0, k % 4))
    }

    pub fn to_bytes(self) -> (r: [u8; 32])
        ensures
            r@ == self.spec_to_bytes(),
    {
        let mut out = [0u8; 32];
        for i in 0..DIGEST_WIDTH
            invariant
                forall|k: int| 0 <= k < 4 * i ==> #[trigger] out@[k] == self.spec_to_bytes()[k],
        {
            let e: u32 = self.0[i].0;
            for j in 0..4usize
                invariant
                    i < DIGEST_WIDTH,
                    e == self.0@[i as int].0,
                    forall|k: int| 0 <= k < 4 * i + j ==> #[trigger] out@[k] == self.spec_to_bytes()[k],
            {
                let sh: u32 = (8 * j) as u32;
                let b: u8 = ((e >> sh) & 0xff) as u8;
                out[4 * i + j] = b;
                proof {
                    let k: int = 4 * i + j;
                    assert(k / 4 == i && k % 4 == j);
                }
            }
        }
        out
    }
}

pub proof fn lemma_digest_of_lanes(d: Digest)
    ensures
        digest_of(d.0@) == d,
{
    assert(digest_of(d.0@).0 =~= d.0);
}

/// 2-to-1 compression: permute the concatenation and truncate to the first
/// `DIGEST_WIDTH` lanes.
pub fn merge(left: Digest, right: Digest) -> (r: Digest)
    ensures
        all_wf(r.0@),
        r.0@ == spec_merge(left.0@, right.0@),
        r == merge_digest(left, right),
{
    let mut state: [M31; WIDTH] = [M31(0), M31(0), M31(0), M31(0), M31(0), M31(0), M31(0), M31(0), M31(0), M31(0), M31(0), M31(0), M31(0), M31(0), M31(0), M31(0)];
    for i in 0..DIGEST_WIDTH
        invariant
            forall|k: int| 0 <= k < i ==> #[trigger] state@[k] == left.0@[k],
            forall|k: int| 8 <= k < 16 ==> #[trigger] state@[k] == M31(0),
    {
        state[i] = left.0[i];
    }
    for i in 0..DIGEST_WIDTH
        invariant
            forall|k: int| 0 <= k < 8 ==> #[trigger] state@[k] == left.0@[k],
            forall|k: int| 8 <= k < 8 + i ==> #[trigger] state@[k] == right.0@[k - 8],
    {
        state[i + DIGEST_WIDTH] = right.0[i];
    }
    proof {
        assert(state@ =~= left.0@ + right.0@);
    }
    permute(&mut state);
    let mut out: [M31; DIGEST_WIDTH] = [M31(0), M31(0), M31(0), M31(0), M31(0), M31(0), M31(0), M31(0)];
    for i in 0..DIGEST_WIDTH
        invariant
            all_wf(state@),
            forall|k: int| 0 <= k < i ==> #[trigger] out@[k] == state@[k],
            forall|k: int| i <= k < 8 ==> #[trigger] out@[k] == M31(0),
    {
        out[i] = state[i];
    }
    let r = Digest(out);
    proof {
        assert(r.0@ =~= state@.subrange(0, 8));
        lemma_digest_of_lanes(r);
    }
    r
}

/// Lane `i` of the key embedding: bits `30i .. 30i + 30` of `v`.
pub open spec fn key_lane(v: u128, i: u128) -> M31 {
    M31(((v >> ((30 * i) as u128)) & 0x3fff_ffffu128) as u32)
}

fn zero_lanes() -> (r: [M31; DIGEST_WIDTH])
    ensures
        forall|k: int| 0 <= k < 8 ==> #[trigger] r@[k] == M31(0),
{
    let mut r = [M31(0); DIGEST_WIDTH];
    for i in 0..DIGEST_WIDTH
        invariant
            forall|k: int| 0 <= k < i ==> #[trigger] r@[k] == M31(0),
    {
        r[i] = M31(0);
    }
    r
}

/// Digest equality, lane by lane.
pub fn digest_eq(a: &Digest, b: &Digest) -> (r: bool)
    ensures
        r == (*a == *b),
{
    let mut i: usize = 0;
    while i < DIGEST_WIDTH
        invariant
            i <= DIGEST_WIDTH,
            forall|k: int| 0 <= k < i ==> a.0@[k] == b.0@[k],
        decreases DIGEST_WIDTH - i,
    {
        if a.0[i].0 != b.0[i].0 {
            proof {
                assert(a.0@[i as int] != b.0@[i as int]);
            }
            return false;
        }
        i = i + 1;
    }
    proof {
        assert(a.0 =~= b.0);
    }
    true
}

/// Keys embed as 30-bit little-endian limbs, three of them — injective for
/// anything up to 2^90, and every limb is below p so no two keys share a
/// digest.
impl NodeDigest for Digest {
    open spec fn wf(&self) -> bool {
        all_wf(self.0@)
    }

    open spec fn spec_from_u128(v: u128) -> Digest {
        Digest([key_lane(v, 0), key_lane(v, 1), key_lane(v, 2), M31(0), M31(0), M31(0), M31(0), M31(0)])
    }

    open spec fn spec_zero() -> Digest {
        Digest([M31(0), M31(0), M31(0), M31(0), M31(0), M31(0), M31(0), M31(0)])
    }

    fn from_u128(v: u128) -> (r: Digest) {
        let mut d = zero_lanes();
        for i in 0..3usize
            invariant
                forall|k: int| 0 <= k < i ==> #[trigger] d@[k] == key_lane(v, k as u128),
                forall|k: int| i <= k < 8 ==> #[trigger] d@[k] == M31(0),
        {
            let sh: u128 = 30 * (i as u128);
            let lane: u128 = (v >> sh) & 0x3fff_ffff;
            proof {
                assert(((v >> sh) & 0x3fff_ffffu128) < 0x4000_0000u128) by (bit_vector);
            }
            d[i] = M31(lane as u32);
        }
        let r = Digest(d);
        proof {
            assert(r.0 =~= Self::spec_from_u128(v).0);
            assert forall|k: int| 0 <= k < 8 implies (#[trigger] r.0@[k]).wf() by {
                if k < 3 {
                    let sh: u128 = (30 * k) as u128;
                    assert(((v >> sh) & 0x3fff_ffffu128) < 0x4000_0000u128) by (bit_vector);
                }
            }
        }
        r
    }

    fn zero() -> (r: Digest) {
        let r = Digest(zero_lanes());
        proof {
            assert(r.0 =~= Self::spec_zero().0);
        }
        r
    }
}

/// The key embedding is injective on every value below 2^90: distinct keys
/// never share a digest.
pub proof fn lemma_key_embedding_injective(v: u128, w: u128)
    requires
        v < 0x400_0000_0000_0000_0000_0000u128,
        w < 0x400_0000_0000_0000_0000_0000u128,
        v != w,
    ensures
        Digest::spec_from_u128(v) != Digest::spec_from_u128(w),
{
    if Digest::spec_from_u128(v) == Digest::spec_from_u128(w) {
        let dv = Digest::spec_from_u128(v);
        let dw = Digest::spec_from_u128(w);
        assert(dv.0@[0] == dw.0@[0]);
        assert(dv.0@[1] == dw.0@[1]);
        assert(dv.0@[2] == dw.0@[2]);
        assert(((v >> 0u128) & 0x3fff_ffffu128) as u32 == ((w >> 0u128) & 0x3fff_ffffu128) as u32
            && ((v >> 30u128) & 0x3fff_ffffu128) as u32 == ((w >> 30u128) & 0x3fff_ffffu128) as u32
            && ((v >> 60u128) & 0x3fff_ffffu128) as u32 == ((w >> 60u128) & 0x3fff_ffffu128) as u32
            && v < 0x400_0000_0000_0000_0000_0000u128 && w < 0x400_0000_0000_0000_0000_0000u128
            ==> v == w) by (bit_vector);
    }
}

// FLAT HASH
// ================================================================================================

/// The left-fold of 2-to-1 merges over the first `n` digests.
pub open spec fn fold_merges(values: Seq<Digest>, n: int) -> Digest
    decreases n,
{
    if n <= 1 {
        values[0]
    } else {
        merge_digest(fold_merges(values, n - 1), values[n - 1])
    }
}

/// The flat-hash commitment of a vector of digests: the empty vector commits
/// to ZERO, a single slot `s` to `merge(s, ZERO)`, and a longer vector to
/// the left-fold of merges over its slots.
pub open spec fn spec_flat_node(values: Seq<Digest>) -> Digest {
    if values.len() == 0 {
        Digest::spec_zero()
    } else if values.len() == 1 {
        merge_digest(values[0], Digest::spec_zero())
    } else {
        fold_merges(values, values.len() as int)
    }
}

proof fn lemma_fold_merges_prefix(vs: Seq<Digest>, x: Digest, n: int)
    requires
        1 <= n <= vs.len(),
    ensures
        fold_merges(vs.push(x), n) == fold_merges(vs, n),
    decreases n,
{
    if n > 1 {
        lemma_fold_merges_prefix(vs, x, n - 1);
    }
}

/// The flat hash chains its slots from the left: one slot is merged with
/// zero, two slots are merged together, and appending a slot to two or more
/// merges the previous commitment (on the left) with the new slot (on the
/// right).
pub proof fn lemma_flat_node_chain(vs: Seq<Digest>, x: Digest)
    ensures
        spec_flat_node(seq![x]) == merge_digest(x, Digest::spec_zero()),
        vs.len() == 1 ==> spec_flat_node(vs.push(x)) == merge_digest(vs[0], x),
        vs.len() >= 2 ==> spec_flat_node(vs.push(x)) == merge_digest(spec_flat_node(vs), x),
{
    let n = vs.len() as int;
    if n >= 1 {
        lemma_fold_merges_prefix(vs, x, n);
        assert(vs.push(x)[n] == x);
        if n == 1 {
            assert(fold_merges(vs.push(x), 1) == vs.push(x)[0]);
        }
    }
}

/// A flat-hash leaf is the merge of the value with the zero digest, the
/// same as a node over that single slot.
pub proof fn lemma_flat_leaf(v: Digest)
    ensures
        <Poseidon2FlatHash as crate::hashes::Hash>::spec_leaf(v) == merge_digest(v, Digest::spec_zero()),
        <Poseidon2FlatHash as crate::hashes::Hash>::spec_leaf(v) == <Poseidon2FlatHash as crate::hashes::Hash>::spec_node(seq![v]),
{
}

/// A merge puts the left digest in the permutation's first 8 lanes and the
/// right digest in the last 8, and keeps the first 8 lanes of the output.
pub proof fn lemma_merge_layout(l: Digest, r: Digest)
    ensures
        merge_digest(l, r) == digest_of(spec_permute(l.0@ + r.0@).subrange(0, 8)),
{
}

/// Chain ("caterpillar") Poseidon2 hash for the flat-hash VC: a node's
/// commitment is the LEFT-FOLD of 2-to-1 merges over its slots, with the
/// 1-slot case `com([s]) = merge(s, ZERO)`. Slots hold full digests
/// (`digest_to_field` is the identity).
pub struct Poseidon2FlatHash;

impl crate::hashes::Hash for Poseidon2FlatHash {
    type Field = Digest;
    type Digest = Digest;

    open spec fn spec_empty() -> Digest {
        Digest::spec_zero()
    }

    open spec fn spec_leaf(value: Digest) -> Digest {
        merge_digest(value, Digest::spec_zero())
    }

    open spec fn spec_node(values: Seq<Digest>) -> Digest {
        spec_flat_node(values)
    }

    open spec fn spec_digest_bytes(d: Digest) -> Seq<u8> {
        d.spec_to_bytes()
    }

    open spec fn spec_digest_size() -> nat {
        32
    }

    open spec fn spec_digest_to_field(d: Digest) -> Digest {
        d
    }

    fn empty() -> (r: Digest) {
        Digest::zero()
    }

    /// Unused by the flat-hash VC (keys embed via `from_u128` on the digest
    /// type); present to satisfy the trait.
    fn leaf(value: &Digest) -> (r: Digest) {
        let z = Digest::zero();
        merge(*value, z)
    }

    fn node(values: &[Digest]) -> (r: Digest) {
        let n = values.len();
        if n == 0 {
            Digest::zero()
        } else if n == 1 {
            let z = Digest::zero();
            merge(values[0], z)
        } else {
            let mut acc = values[0];
            let mut i: usize = 1;
            while i < n
                invariant
                    n == values@.len(),
                    1 <= i <= n,
                    acc == fold_merges(values@, i as int),
                decreases n - i,
            {
                acc = merge(acc, values[i]);
                i = i + 1;
            }
            acc
        }
    }

    fn digest_bytes(d: &Digest) -> (r: Vec<u8>) {
        let b = d.to_bytes();
        let mut out: Vec<u8> = Vec::new();
        for i in 0..32usize
            invariant
                b@ == d.spec_to_bytes(),
                out@ == b@.subrange(0, i as int),
        {
            out.push(b[i]);
            proof {
                assert(out@ =~= b@.subrange(0, i + 1));
            }
        }
        proof {
            assert(out@ =~= b@);
        }
        out
    }

    /// 8 M31 elements, encoded as 8 words = 32 bytes.
    fn digest_size() -> (r: usize) {
        4 * DIGEST_WIDTH
    }

    /// The identity: a digest already is a slot value.
    fn digest_to_field(d: &Digest) -> (r: Digest) {
        *d
    }

    fn digest_eq(a: &Digest, b: &Digest) -> (r: bool) {
        digest_eq(a, b)
    }
}

/// The fold is what `Hash::node` promises: for three or more slots the
/// commitment is the merge of the commitment of all but the last slot with
/// the last slot, and a single slot is the zero-padded merge.
pub proof fn lemma_fold_extends(values: Seq<Digest>)
    requires
        values.len() >= 3,
    ensures
        spec_flat_node(values) == merge_digest(spec_flat_node(values.drop_last()), values.last()),
        spec_flat_node(values.subrange(0, 1)) == merge_digest(values[0], Digest::spec_zero()),
{
    let n = values.len() as int;
    lemma_fold_prefix_eq(values.drop_last(), values, n - 1);
}

proof fn lemma_fold_prefix_eq(a: Seq<Digest>, b: Seq<Digest>, n: int)
    requires
        1 <= n <= a.len(),
        n <= b.len(),
        forall|k: int| 0 <= k < n ==> a[k] == b[k],
    ensures
        fold_merges(a, n) == fold_merges(b, n),
    decreases n,
{
    if n > 1 {
        lemma_fold_prefix_eq(a, b, n - 1);
    }
}

} // verus!
