//! The cycle plan of the Rescue membership trace: one hash cycle per leaf
//! hash and per merge. The chain of per-level opening segments is laid out
//! bottom-up, a seam between two segments re-hashes the digest reached into
//! the next level's tree, and merges with a zero sibling pad the plan to a
//! power-of-two number of cycles.

use vstd::prelude::*;
use crate::hashes::poseidon2::pow2;

verus! {

/// One IBSL level's opening, bottom-up: climb `siblings` (pair level
/// first) steered by the bits of `position`. Each sibling digest is given by
/// its two field elements.
pub struct Segment {
    pub position: usize,
    pub siblings: Vec<[u128; 2]>,
}

impl Segment {
    /// Cycles this segment occupies: one leaf-hash cycle plus one merge per
    /// sibling.
    pub fn num_cycles(&self) -> (r: usize)
        requires
            self.siblings@.len() < usize::MAX,
        ensures
            r == 1 + self.siblings@.len(),
    {
        1 + self.siblings.len()
    }
}

/// What the transition at the end of a cycle sets up for the next cycle.
pub enum CycleIn {
    /// Merge with a sibling: with bit 0 the accumulator stays left and the
    /// sibling goes right, with bit 1 the other way round. Padding cycles
    /// are merges with a zero sibling.
    Merge { sibling: [u128; 2], bit: bool },
    /// New IBSL level: the digest reached is leaf-hashed into the parent's
    /// tree.
    Seam,
}

/// The cycles of the segments `segs[0 .. n]`, bottom-up.
pub open spec fn path_cycles(segs: Seq<Segment>, n: int) -> int
    decreases n,
{
    if n <= 0 {
        0
    } else {
        path_cycles(segs, n - 1) + 1 + segs[n - 1].siblings@.len()
    }
}

/// The transitions a segment contributes: a seam into it (except for the
/// first), then one merge per sibling, its bit the sibling's bit of the
/// position.
pub open spec fn segment_plan(seg: Segment, i: int) -> Seq<CycleIn> {
    (if i > 0 { seq![CycleIn::Seam] } else { Seq::empty() }) + Seq::new(
        seg.siblings@.len(),
        |j: int| CycleIn::Merge { sibling: seg.siblings@[j], bit: (seg.position >> (j as usize)) & 1 == 1 },
    )
}

/// The transitions of the segments `segs[0 .. n]`.
pub open spec fn segments_plan(segs: Seq<Segment>, n: int) -> Seq<CycleIn>
    decreases n,
{
    if n <= 0 {
        Seq::empty()
    } else {
        segments_plan(segs, n - 1) + segment_plan(segs[n - 1], n - 1)
    }
}

/// The padding merge: a zero sibling, bit 0.
pub open spec fn pad_cycle() -> CycleIn {
    CycleIn::Merge { sibling: [0u128, 0u128], bit: false }
}

/// The padding merges carry a zero sibling and bit 0, so they only fold the
/// accumulator further on the left.
pub proof fn lemma_padding_is_zero_merge()
    ensures
        pad_cycle() == (CycleIn::Merge { sibling: [0u128, 0u128], bit: false }),
{
}

/// `total` is the least power of two that is at least `n`.
pub open spec fn is_next_pow2(n: int, total: int) -> bool {
    &&& exists|e: nat| pow2(e) == total
    &&& n <= total
    &&& (total == 1 || total < 2 * n)
}

proof fn lemma_segments_plan_len(segs: Seq<Segment>, n: int)
    requires
        0 <= n <= segs.len(),
    ensures
        segments_plan(segs, n).len() + 1 == path_cycles(segs, n) + (if n == 0 { 1int } else { 0 }),
    decreases n,
{
    if n > 0 {
        lemma_segments_plan_len(segs, n - 1);
    }
}

/// The plan of the whole chain: `plan[c]` is what the transition into cycle
/// `c` sets up (entry 0, for the first leaf hash, is a placeholder seam).
/// The unpadded cycles are followed by padding merges up to the next power of
/// two.
pub fn cycle_plan(segments: &[Segment]) -> (plan: Vec<CycleIn>)
    requires
        segments@.len() >= 1,
        path_cycles(segments@, segments@.len() as int) <= usize::MAX / 2,
        forall|i: int| 0 <= i < segments@.len() ==> #[trigger] segments@[i].siblings@.len() <= usize::BITS,
    ensures
        is_next_pow2(path_cycles(segments@, segments@.len() as int), plan@.len() as int),
        plan@.take(path_cycles(segments@, segments@.len() as int))
            == seq![CycleIn::Seam] + segments_plan(segments@, segments@.len() as int),
        forall|c: int| path_cycles(segments@, segments@.len() as int) <= c < plan@.len() ==> #[trigger] plan@[c] == pad_cycle(),
{
    let ghost segs = segments@;
    let mut plan: Vec<CycleIn> = Vec::new();
    plan.push(CycleIn::Seam);
    let mut i: usize = 0;
    proof {
        assert(plan@ =~= seq![CycleIn::Seam] + segments_plan(segs, 0));
        lemma_path_cycles_mono(segs, 0, segs.len() as int);
    }
    while i < segments.len()
        invariant
            segs == segments@,
            i <= segs.len(),
            segs.len() >= 1,
            path_cycles(segs, segs.len() as int) <= usize::MAX / 2,
            forall|k: int| 0 <= k < segs.len() ==> #[trigger] segs[k].siblings@.len() <= usize::BITS,
            plan@ == seq![CycleIn::Seam] + segments_plan(segs, i as int),
            path_cycles(segs, i as int) <= path_cycles(segs, segs.len() as int),
        decreases segs.len() - i,
    {
        let seg = &segments[i];
        let ghost before = plan@;
        if i > 0 {
            plan.push(CycleIn::Seam);
        }
        let ghost mid = plan@;
        let mut j: usize = 0;
        while j < seg.siblings.len()
            invariant
                j <= seg.siblings@.len(),
                seg.siblings@.len() <= usize::BITS,
                plan@ == mid + Seq::new(j as nat, |t: int| CycleIn::Merge {
                    sibling: seg.siblings@[t],
                    bit: (seg.position >> (t as usize)) & 1 == 1,
                }),
            decreases seg.siblings@.len() - j,
        {
            let bit = (seg.position >> j) & 1 == 1;
            plan.push(CycleIn::Merge { sibling: seg.siblings[j], bit });
            proof {
                assert(plan@ =~= mid + Seq::new((j + 1) as nat, |t: int| CycleIn::Merge {
                    sibling: seg.siblings@[t],
                    bit: (seg.position >> (t as usize)) & 1 == 1,
                }));
            }
            j = j + 1;
        }
        proof {
            let merges = Seq::new(seg.siblings@.len(), |t: int| CycleIn::Merge {
                sibling: seg.siblings@[t],
                bit: (seg.position >> (t as usize)) & 1 == 1,
            });
            assert(segs[i as int] == *seg);
            assert(mid + merges =~= before + segment_plan(*seg, i as int));
            assert(plan@ =~= seq![CycleIn::Seam] + segments_plan(segs, i + 1));
            lemma_path_cycles_mono(segs, i + 1, segs.len() as int);
        }
        i = i + 1;
    }
    let ghost n = path_cycles(segs, segs.len() as int);
    proof {
        lemma_segments_plan_len(segs, segs.len() as int);
        assert(plan@.len() == n);
    }
    // The next power of two.
    let mut total: usize = 1;
    let ghost mut e: nat = 0;
    while total < plan.len()
        invariant
            total == pow2(e),
            total >= 1,
            n >= 1,
            plan@.len() == n,
            n <= usize::MAX / 2,
            total == 1 || total < 2 * n,
        decreases 2 * n - total,
    {
        total = total * 2;
        proof {
            assert(pow2(e + 1) == 2 * pow2(e));
            e = e + 1;
        }
    }
    let ghost unpadded = plan@;
    while plan.len() < total
        invariant
            plan@.len() <= total,
            n <= plan@.len(),
            unpadded.len() == n,
            plan@.take(n) == unpadded,
            forall|c: int| n <= c < plan@.len() ==> #[trigger] plan@[c] == pad_cycle(),
        decreases total - plan@.len(),
    {
        plan.push(CycleIn::Merge { sibling: [0u128, 0u128], bit: false });
        proof {
            assert(plan@.take(n) =~= unpadded);
        }
    }
    proof {
        assert(plan@.take(n) == seq![CycleIn::Seam] + segments_plan(segs, segs.len() as int));
    }
    plan
}

/// Bit `j` of a position, least significant first, as a shift reads it.
proof fn lemma_shift_bit(x: usize, j: int)
    requires
        0 <= j < usize::BITS,
    ensures
        ((x >> (j as usize)) & 1 == 1) == ((x as int / vstd::arithmetic::power2::pow2(j as nat) as int) % 2 == 1),
{
    let y = x >> (j as usize);
    vstd::bits::lemma_usize_shr_is_div(x, j as usize);
    assert(y & 1 == y % 2) by (bit_vector);
}

/// Where each segment lands in the plan: the transition into cycle
/// `path_cycles(segs, s)` (the first cycle of segment `s`) is a seam (a
/// placeholder for the very first), and the `j`-th merge of segment `s`
/// comes `j + 1` cycles later, with sibling `j` and bit `j` of the position
/// counted from the least significant bit: the side the accumulator takes
/// at pair level `j` of the authentication path.
pub proof fn lemma_plan_layout(segs: Seq<Segment>, n: int, s: int, j: int)
    requires
        0 <= s < n <= segs.len(),
        0 <= j < segs[s].siblings@.len(),
        segs[s].siblings@.len() <= usize::BITS,
    ensures
        (seq![CycleIn::Seam] + segments_plan(segs, n)).len() == path_cycles(segs, n),
        (seq![CycleIn::Seam] + segments_plan(segs, n))[path_cycles(segs, s)] == CycleIn::Seam,
        (seq![CycleIn::Seam] + segments_plan(segs, n))[path_cycles(segs, s) + 1 + j] == (CycleIn::Merge {
            sibling: segs[s].siblings@[j],
            bit: (segs[s].position as int / vstd::arithmetic::power2::pow2(j as nat) as int) % 2 == 1,
        }),
    decreases n,
{
    lemma_segments_plan_len(segs, n);
    lemma_segments_plan_len(segs, n - 1);
    let pre = seq![CycleIn::Seam] + segments_plan(segs, n - 1);
    let seg = segs[n - 1];
    let full = seq![CycleIn::Seam] + segments_plan(segs, n);
    assert(full =~= pre + segment_plan(seg, n - 1));
    let sp = segment_plan(seg, n - 1);
    if s < n - 1 {
        lemma_plan_layout(segs, n - 1, s, j);
        lemma_path_cycles_mono(segs, s + 1, n - 1);
        lemma_path_cycles_mono(segs, 0, s);
        assert(path_cycles(segs, s + 1) == path_cycles(segs, s) + 1 + segs[s].siblings@.len());
        assert(pre.len() == path_cycles(segs, n - 1));
        assert(full[path_cycles(segs, s)] == pre[path_cycles(segs, s)]);
        assert(full[path_cycles(segs, s) + 1 + j] == pre[path_cycles(segs, s) + 1 + j]);
    } else {
        lemma_shift_bit(seg.position, j);
        assert(pre.len() == path_cycles(segs, s) + (if s == 0 { 1int } else { 0 }));
        if s == 0 {
            assert(sp[j] == CycleIn::Merge {
                sibling: seg.siblings@[j],
                bit: (seg.position >> (j as usize)) & 1 == 1,
            });
            assert(full[0] == pre[0]);
            assert(full[1 + j] == sp[j]);
        } else {
            assert(sp[0] == CycleIn::Seam);
            assert(sp[1 + j] == CycleIn::Merge {
                sibling: seg.siblings@[j],
                bit: (seg.position >> (j as usize)) & 1 == 1,
            });
            assert(full[path_cycles(segs, s)] == sp[0]);
            assert(full[path_cycles(segs, s) + 1 + j] == sp[1 + j]);
        }
    }
}

proof fn lemma_path_cycles_mono(segs: Seq<Segment>, a: int, b: int)
    requires
        0 <= a <= b,
    ensures
        path_cycles(segs, a) <= path_cycles(segs, b),
    decreases b - a,
{
    if a < b {
        lemma_path_cycles_mono(segs, a, b - 1);
    }
}

} // verus!
