//! Per-slot edge ranges of the shared silhouette edge list: slots are
//! concatenated in ascending order, so each slot's start is the sum of the
//! earlier (clamped) counts, and counts clamp so every range stays inside
//! the uploaded `MAX_EDGE_POINTS` prefix.

use vstd::prelude::*;
use crate::body_tracking::MAX_TRACKED_BODIES;

verus! {

/// Capacity of the shared silhouette edge list.
pub const MAX_EDGE_POINTS: usize = 2048;

/// The packed ranges the particle kernel reads.
#[derive(Clone, Copy, Debug)]
pub struct SlotRanges {
    /// First edge index of each slot.
    pub slot_start: [u32; 4],
    /// Edge count of each slot (clamped).
    pub slot_count: [u32; 4],
    /// Total edges across slots.
    pub edge_count: u32,
}

/// `counts[i]` cut to what is left of the capacity after `start` edges.
pub open spec fn cut(counts: Seq<usize>, i: int, start: int) -> int {
    if counts[i] < 2048 - start {
        counts[i] as int
    } else {
        2048 - start
    }
}

/// The clamped start of slot `i` (sum of the earlier clamped counts).
pub open spec fn clamped_start(counts: Seq<usize>, i: int) -> int
    decreases i,
{
    if i <= 0 {
        0
    } else {
        clamped_start(counts, i - 1) + cut(counts, i - 1, clamped_start(counts, i - 1))
    }
}

/// The clamped count of slot `i`: its requested count, cut to what is left
/// of the capacity after the earlier slots.
pub open spec fn clamped_count(counts: Seq<usize>, i: int) -> int {
    cut(counts, i, clamped_start(counts, i))
}

/// Starts never pass the capacity.
proof fn lemma_start_bounded(counts: Seq<usize>, i: int)
    requires
        0 <= i,
    ensures
        0 <= clamped_start(counts, i) <= 2048,
        0 <= clamped_count(counts, i) <= 2048 - clamped_start(counts, i),
    decreases i,
{
    if i > 0 {
        lemma_start_bounded(counts, i - 1);
    }
}

/// Pack the per-slot edge ranges for `slot_counts` requested edges per slot.
pub fn pack_slot_ranges(slot_counts: [usize; 4]) -> (r: SlotRanges)
    ensures
        forall|i: int|
            0 <= i < 4 ==> {
                &&& r.slot_start[i] as int == clamped_start(slot_counts@, i)
                &&& r.slot_count[i] as int == clamped_count(slot_counts@, i)
            },
        r.edge_count as int == clamped_start(slot_counts@, 4),
{
    let mut start: usize = 0;
    let mut starts: [u32; 4] = [0; 4];
    let mut counts: [u32; 4] = [0; 4];
    let mut i: usize = 0;
    while i < MAX_TRACKED_BODIES
        invariant
            i <= 4,
            start as int == clamped_start(slot_counts@, i as int),
            start <= 2048,
            forall|k: int|
                0 <= k < i ==> {
                    &&& starts@[k] as int == clamped_start(slot_counts@, k)
                    &&& counts@[k] as int == clamped_count(slot_counts@, k)
                },
        decreases 4 - i,
    {
        proof {
            lemma_start_bounded(slot_counts@, i as int);
        }
        let left = MAX_EDGE_POINTS - start;
        let clamped = if slot_counts[i] < left {
            slot_counts[i]
        } else {
            left
        };
        starts[i] = start as u32;
        counts[i] = clamped as u32;
        start = start + clamped;
        i = i + 1;
    }
    SlotRanges { slot_start: starts, slot_count: counts, edge_count: start as u32 }
}

/// The ranges tile a prefix of the edge list: consecutive, never past the
/// capacity, each no longer than requested, and exactly as requested when
/// the requests fit.
pub proof fn lemma_ranges_tile_the_prefix(counts: Seq<usize>)
    requires
        counts.len() == 4,
    ensures
        forall|i: int|
            0 <= i < 4 ==> #[trigger] clamped_start(counts, i + 1) == clamped_start(counts, i)
                + clamped_count(counts, i),
        forall|i: int| 0 <= i < 4 ==> #[trigger] clamped_count(counts, i) <= counts[i],
        clamped_start(counts, 4) <= 2048,
        counts[0] + counts[1] + counts[2] + counts[3] <= 2048 ==> forall|i: int|
            0 <= i < 4 ==> #[trigger] clamped_count(counts, i) == counts[i],
{
    lemma_start_bounded(counts, 4);
    lemma_start_bounded(counts, 3);
    lemma_start_bounded(counts, 2);
    lemma_start_bounded(counts, 1);
    lemma_start_bounded(counts, 0);
    assert(clamped_start(counts, 1) == clamped_count(counts, 0));
}

} // verus!
