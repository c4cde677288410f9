//! The size of a whole canvas frame: where every region brings a frame of
//! the size of its rectangle, the joined frame has three bytes for each
//! pixel of the canvas.

use vstd::prelude::*;
use crate::frame_shape::frame_join::{
    chunk_len, curs_fit, first_stages, frames_chunkable, has_chunk, joined, lemma_run_plan,
    lemma_run_row, offsets_fit, pending, phase_fits, plan_fits, read_stage, run_phase, run_plan,
    run_row, run_slot, slot_fits, stage_fits, start_state, table_names, named_at, take_chunk,
    JoinState, RawFrame,
};
use crate::frame_shape::tiling::{area, lemma_area};
use crate::frame_shape::FrameShape;
use crate::video::partition;

verus! {

/// `left` tells how many rows each frame has left at these offsets.
pub open spec fn measured(frames: Seq<RawFrame>, offsets: Seq<usize>, left: Seq<int>) -> bool {
    &&& offsets.len() == frames.len()
    &&& left.len() == frames.len()
    &&& forall|r: int|
        0 <= r < frames.len() ==> (#[trigger] left[r]) >= 0 && offsets[r] + left[r] * chunk_len(
            frames[r],
        ) == frames[r].data@.len()
}

/// A frame has a chunk at its offset exactly where it has a row left.
pub(crate) proof fn lemma_chunk_iff(frames: Seq<RawFrame>, offsets: Seq<usize>, left: Seq<int>, r: int)
    requires
        frames_chunkable(frames),
        measured(frames, offsets, left),
        0 <= r < frames.len(),
    ensures
        has_chunk(frames[r], offsets[r]) <==> left[r] >= 1,
        offsets_fit(frames, offsets),
{
    let c = chunk_len(frames[r]);
    let l = left[r];
    assert(frames[r].width > 0);
    assert(l >= 1 ==> l * c >= c) by (nonlinear_arith)
        requires
            c > 0,
    ;
    assert(l == 0 ==> l * c == 0) by (nonlinear_arith);
    assert forall|i: int| 0 <= i < frames.len() implies (#[trigger] offsets[i])
        <= frames[i].data@.len() by {
        let ci = chunk_len(frames[i]);
        let li = left[i];
        assert(frames[i].width > 0);
        assert(li * ci >= 0) by (nonlinear_arith)
            requires
                li >= 0,
                ci > 0,
        ;
    }
}

/// Taking a chunk leaves the frame one row less.
pub(crate) proof fn lemma_take_measured(frames: Seq<RawFrame>, st: JoinState, left: Seq<int>, r: int)
    requires
        frames_chunkable(frames),
        measured(frames, st.offsets, left),
        0 <= r < frames.len(),
        left[r] >= 1,
    ensures
        has_chunk(frames[r], st.offsets[r]),
        measured(frames, take_chunk(frames, st, r).offsets, left.update(r, left[r] - 1)),
{
    lemma_chunk_iff(frames, st.offsets, left, r);
    let c = chunk_len(frames[r]);
    let l = left[r];
    assert((l - 1) * c == l * c - c) by (nonlinear_arith);
    assert(frames[r].data.len() == frames[r].data@.len());
    let after = take_chunk(frames, st, r).offsets;
    let fewer = left.update(r, left[r] - 1);
    assert forall|i: int| 0 <= i < frames.len() implies (#[trigger] fewer[i]) >= 0 && after[i]
        + fewer[i] * chunk_len(frames[i]) == frames[i].data@.len() by {
        if i != r {
            assert(left[i] >= 0);
        }
    }
}

/// The rows left after each of `regions[k..]` gave one.
pub open spec fn lowered(left: Seq<int>, regions: Seq<usize>, k: int) -> Seq<int>
    decreases regions.len() - k,
{
    if k < 0 || k >= regions.len() {
        left
    } else {
        lowered(left.update(regions[k] as int, left[regions[k] as int] - 1), regions, k + 1)
    }
}

/// No region stands twice in the stage.
pub open spec fn stage_distinct(regions: Seq<usize>) -> bool {
    forall|i: int, j: int| 0 <= i < j < regions.len() ==> regions[i] != regions[j]
}

/// What `lowered` changes: the regions from place `k` on have one row
/// less, and nothing else has changed.
pub(crate) proof fn lemma_lowered(left: Seq<int>, regions: Seq<usize>, k: int)
    requires
        0 <= k <= regions.len(),
        stage_distinct(regions),
        forall|i: int| 0 <= i < regions.len() ==> (#[trigger] regions[i]) < left.len(),
    ensures
        lowered(left, regions, k).len() == left.len(),
        forall|i: int|
            k <= i < regions.len() ==> lowered(left, regions, k)[(#[trigger] regions[i]) as int]
                == left[regions[i] as int] - 1,
        forall|r: int|
            0 <= r < left.len() && (forall|i: int| k <= i < regions.len() ==> regions[i] != r)
                ==> (#[trigger] lowered(left, regions, k)[r]) == left[r],
    decreases regions.len() - k,
{
    if k < regions.len() {
        let next = left.update(regions[k] as int, left[regions[k] as int] - 1);
        lemma_lowered(next, regions, k + 1);
        assert forall|i: int| k <= i < regions.len() implies lowered(left, regions, k)[(
        #[trigger] regions[i]) as int] == left[regions[i] as int] - 1 by {
            if i == k {
                assert(forall|j: int| k + 1 <= j < regions.len() ==> regions[j] != regions[k]);
                assert(lowered(next, regions, k + 1)[regions[k] as int] == next[regions[k] as int]);
            } else {
                assert(regions[k] != regions[i]);
            }
        }
        assert forall|r: int|
            0 <= r < left.len() && (forall|i: int|
                k <= i < regions.len() ==> regions[i] != r) implies (#[trigger] lowered(
            left,
            regions,
            k,
        )[r]) == left[r] by {
            assert(regions[k] != r);
            assert(forall|i: int| k + 1 <= i < regions.len() ==> regions[i] != r);
        }
    }
}

/// A stage whose regions have no row left brings nothing.
pub(crate) proof fn lemma_stage_none(
    frames: Seq<RawFrame>,
    regions: Seq<usize>,
    k: int,
    last: bool,
    st: JoinState,
    left: Seq<int>,
)
    requires
        frames_chunkable(frames),
        measured(frames, st.offsets, left),
        stage_fits(regions, frames.len() as int),
        0 <= k <= regions.len(),
        forall|i: int| k <= i < regions.len() ==> left[(#[trigger] regions[i]) as int] == 0,
    ensures
        read_stage(frames, regions, k, last, st) == (st, k < regions.len()),
    decreases regions.len() - k,
{
    if k < regions.len() {
        let r = regions[k] as int;
        lemma_chunk_iff(frames, st.offsets, left, r);
        if !last {
            lemma_stage_none(frames, regions, k + 1, last, st, left);
        }
    }
}

/// A stage whose regions all have a row left brings one row of each.
pub(crate) proof fn lemma_stage_all(
    frames: Seq<RawFrame>,
    regions: Seq<usize>,
    k: int,
    last: bool,
    st: JoinState,
    left: Seq<int>,
)
    requires
        frames_chunkable(frames),
        measured(frames, st.offsets, left),
        stage_fits(regions, frames.len() as int),
        stage_distinct(regions),
        0 <= k <= regions.len(),
        forall|i: int| k <= i < regions.len() ==> left[(#[trigger] regions[i]) as int] >= 1,
    ensures
        !read_stage(frames, regions, k, last, st).1,
        measured(
            frames,
            read_stage(frames, regions, k, last, st).0.offsets,
            lowered(left, regions, k),
        ),
    decreases regions.len() - k,
{
    if k < regions.len() {
        let r = regions[k] as int;
        lemma_take_measured(frames, st, left, r);
        let next = left.update(r, left[r] - 1);
        assert forall|i: int| k + 1 <= i < regions.len() implies next[(
        #[trigger] regions[i]) as int] >= 1 by {
            assert(regions[k] != regions[i]);
        }
        lemma_stage_all(frames, regions, k + 1, last, take_chunk(frames, st, r), next);
    }
}

/// The regions of the stage have equally many rows left.
pub open spec fn uniform(regions: Seq<usize>, left: Seq<int>) -> bool {
    forall|i: int|
        0 <= i < regions.len() ==> left[(#[trigger] regions[i]) as int] == left[regions[0] as int]
}

/// Rows that the stages from `k` on have left, together.
pub open spec fn tail_sum(stages: Seq<Seq<usize>>, k: int, left: Seq<int>) -> int
    decreases stages.len() - k,
{
    if k < 0 || k >= stages.len() {
        0
    } else {
        left[stages[k][0] as int] + tail_sum(stages, k + 1, left)
    }
}

/// No region stands twice in the slot.
pub open spec fn slot_distinct(stages: Seq<Seq<usize>>) -> bool {
    forall|k: int, i: int, l: int, j: int|
        0 <= k < stages.len() && 0 <= i < stages[k].len() && 0 <= l < stages.len() && 0 <= j
            < stages[l].len() && (k != l || i != j) ==> (#[trigger] stages[k][i])
            != (#[trigger] stages[l][j])
}

/// Region `r` stands in the slot.
pub open spec fn in_slot(stages: Seq<Seq<usize>>, r: int) -> bool {
    exists|k: int, i: int|
        0 <= k < stages.len() && 0 <= i < stages[k].len() && (#[trigger] stages[k][i]) == r
}

/// A slot in the course of a phase that has `p` more rows to run: the
/// stages before the current one have no row left, each stage from the
/// current one on has regions with equally many rows left, and those stages
/// have `p` rows left together, and `s` more that remain in the last stage
/// when the phase is over.
pub open spec fn slot_ready(stages: Seq<Seq<usize>>, cur: int, left: Seq<int>, p: int, s: int) -> bool {
    &&& 0 <= cur < stages.len()
    &&& forall|k: int, i: int|
        0 <= k < cur && 0 <= i < stages[k].len() ==> left[(#[trigger] stages[k][i]) as int] == 0
    &&& forall|k: int| cur <= k < stages.len() ==> uniform(#[trigger] stages[k], left)
    &&& tail_sum(stages, cur, left) == p + s
    &&& 0 <= s <= left[stages[stages.len() - 1][0] as int]
}

/// The tail sum depends only on the rows of the first regions of the
/// stages.
pub(crate) proof fn lemma_tail_same(stages: Seq<Seq<usize>>, k: int, left: Seq<int>, other: Seq<int>)
    requires
        0 <= k <= stages.len(),
        forall|l: int| k <= l < stages.len() ==> left[stages[l][0] as int] == other[stages[l][0] as int],
    ensures
        tail_sum(stages, k, left) == tail_sum(stages, k, other),
    decreases stages.len() - k,
{
    if k < stages.len() {
        lemma_tail_same(stages, k + 1, left, other);
    }
}

/// The tail sum is at least what the last stage has left, and no more
/// only where the stages between have nothing left.
pub(crate) proof fn lemma_tail_last(stages: Seq<Seq<usize>>, k: int, left: Seq<int>)
    requires
        0 <= k < stages.len(),
        forall|l: int| k <= l < stages.len() ==> left[stages[l][0] as int] >= 0,
    ensures
        tail_sum(stages, k, left) >= left[stages[stages.len() - 1][0] as int],
        tail_sum(stages, k, left) == left[stages[stages.len() - 1][0] as int] ==> forall|l: int|
            k <= l < stages.len() - 1 ==> left[stages[l][0] as int] == 0,
    decreases stages.len() - k,
{
    if k < stages.len() - 1 {
        lemma_tail_last(stages, k + 1, left);
    } else {
        assert(tail_sum(stages, k + 1, left) == 0);
    }
}

/// One turn of a slot in a phase that has rows to run: the first stage
/// that has a row left gives one row of each of its regions, and the slot
/// is ready for one row less.
pub(crate) proof fn lemma_slot_turn(
    frames: Seq<RawFrame>,
    stages: Seq<Seq<usize>>,
    cur: int,
    st: JoinState,
    left: Seq<int>,
    p: int,
    s: int,
)
    requires
        frames_chunkable(frames),
        measured(frames, st.offsets, left),
        slot_fits(stages, frames.len() as int),
        slot_distinct(stages),
        slot_ready(stages, cur, left, p, s),
        p >= 1,
    ensures
        ({
            let (after, at, ended) = run_slot(frames, stages, cur, st);
            &&& !ended
            &&& cur <= at < stages.len()
            &&& measured(frames, after.offsets, lowered(left, stages[at], 0))
            &&& slot_ready(stages, at, lowered(left, stages[at], 0), p - 1, s)
            &&& forall|r: int|
                0 <= r < left.len() && !in_slot(stages, r) ==> (#[trigger] lowered(
                    left,
                    stages[at],
                    0,
                )[r]) == left[r]
        }),
    decreases stages.len() - cur,
{
    let regions = stages[cur];
    let last = cur + 1 == stages.len();
    assert(stage_fits(regions, frames.len() as int));
    assert(uniform(regions, left));
    assert(stage_distinct(regions)) by {
        assert forall|i: int, j: int| 0 <= i < j < regions.len() implies regions[i]
            != regions[j] by {
            assert(stages[cur][i] != stages[cur][j]);
        }
    }
    if left[regions[0] as int] >= 1 {
        assert forall|i: int| 0 <= i < regions.len() implies left[(
        #[trigger] regions[i]) as int] >= 1 by {}
        lemma_stage_all(frames, regions, 0, last, st, left);
        lemma_lowered(left, regions, 0);
        let fewer = lowered(left, regions, 0);
        assert forall|k: int, i: int| 0 <= k < cur && 0 <= i < stages[k].len() implies fewer[(
        #[trigger] stages[k][i]) as int] == 0 by {
            assert(forall|j: int| 0 <= j < regions.len() ==> stages[cur][j] != stages[k][i]);
            assert(left[stages[k][i] as int] == 0);
        }
        assert forall|k: int| cur <= k < stages.len() implies uniform(
            #[trigger] stages[k],
            fewer,
        ) by {
            assert(uniform(stages[k], left));
            assert(stage_fits(stages[k], frames.len() as int));
            if k == cur {
                assert forall|i: int| 0 <= i < regions.len() implies fewer[(
                #[trigger] regions[i]) as int] == fewer[regions[0] as int] by {
                    assert(fewer[regions[i] as int] == left[regions[i] as int] - 1);
                    assert(fewer[regions[0] as int] == left[regions[0] as int] - 1);
                }
            } else {
                assert forall|i: int| 0 <= i < stages[k].len() implies fewer[(
                #[trigger] stages[k][i]) as int] == fewer[stages[k][0] as int] by {
                    assert(forall|j: int| 0 <= j < regions.len() ==> stages[cur][j] != stages[k][i]);
                    assert(forall|j: int| 0 <= j < regions.len() ==> stages[cur][j] != stages[k][0]);
                    assert(left[stages[k][i] as int] == left[stages[k][0] as int]);
                }
            }
        }
        assert(tail_sum(stages, cur + 1, fewer) == tail_sum(stages, cur + 1, left)) by {
            assert forall|l: int| cur + 1 <= l < stages.len() implies left[stages[l][0] as int]
                == fewer[stages[l][0] as int] by {
                assert(stage_fits(stages[l], frames.len() as int));
                assert(forall|j: int| 0 <= j < regions.len() ==> stages[cur][j] != stages[l][0]);
            }
            lemma_tail_same(stages, cur + 1, left, fewer);
        }
        assert(fewer[regions[0] as int] == left[regions[0] as int] - 1);
        if last {
            assert(tail_sum(stages, cur + 1, left) == 0);
        } else {
            let end = stages[stages.len() - 1];
            assert(stage_fits(end, frames.len() as int));
            assert(forall|j: int| 0 <= j < regions.len() ==> stages[cur][j] != stages[stages.len()
                - 1][0]);
        }
        assert forall|r: int| 0 <= r < left.len() && !in_slot(stages, r) implies (
        #[trigger] fewer[r]) == left[r] by {
            assert forall|i: int| 0 <= i < regions.len() implies regions[i] != r by {
                if regions[i] == r {
                    assert(stages[cur][i] == r);
                }
            }
        }
    } else {
        assert(left[regions[0] as int] == 0);
        assert forall|i: int| 0 <= i < regions.len() implies left[(
        #[trigger] regions[i]) as int] == 0 by {}
        lemma_stage_none(frames, regions, 0, last, st, left);
        if last {
            assert(tail_sum(stages, cur + 1, left) == 0);
        }
        assert(slot_ready(stages, cur + 1, left, p, s)) by {
            assert forall|k: int, i: int|
                0 <= k < cur + 1 && 0 <= i < stages[k].len() implies left[(
            #[trigger] stages[k][i]) as int] == 0 by {
                if k == cur {
                    assert(left[regions[i] as int] == 0);
                }
            }
        }
        lemma_slot_turn(frames, stages, cur + 1, st, left, p, s);
    }
}

/// A turn of a slot whose stages have no row left ends the phase and
/// brings nothing.
pub(crate) proof fn lemma_slot_end(
    frames: Seq<RawFrame>,
    stages: Seq<Seq<usize>>,
    cur: int,
    st: JoinState,
    left: Seq<int>,
)
    requires
        frames_chunkable(frames),
        measured(frames, st.offsets, left),
        slot_fits(stages, frames.len() as int),
        0 <= cur < stages.len(),
        forall|k: int, i: int|
            cur <= k < stages.len() && 0 <= i < stages[k].len() ==> left[(
            #[trigger] stages[k][i]) as int] == 0,
    ensures
        run_slot(frames, stages, cur, st).0 == st,
        run_slot(frames, stages, cur, st).2,
        cur <= run_slot(frames, stages, cur, st).1 < stages.len(),
    decreases stages.len() - cur,
{
    let regions = stages[cur];
    let last = cur + 1 == stages.len();
    assert(stage_fits(regions, frames.len() as int));
    assert forall|i: int| 0 <= i < regions.len() implies left[(#[trigger] regions[i]) as int]
        == 0 by {
        assert(left[stages[cur][i] as int] == 0);
    }
    lemma_stage_none(frames, regions, 0, last, st, left);
    if !last {
        lemma_slot_end(frames, stages, cur + 1, st, left);
    }
}

/// What a slot has left when its phase is over: nothing, but what remains
/// in its last stage.
pub(crate) proof fn lemma_slot_final(stages: Seq<Seq<usize>>, cur: int, left: Seq<int>, s: int, n: int)
    requires
        slot_fits(stages, n),
        left.len() == n,
        forall|r: int| 0 <= r < n ==> (#[trigger] left[r]) >= 0,
        slot_ready(stages, cur, left, 0, s),
    ensures
        forall|k: int, i: int|
            0 <= k < stages.len() - 1 && 0 <= i < stages[k].len() ==> left[(
            #[trigger] stages[k][i]) as int] == 0,
        forall|i: int|
            0 <= i < stages[stages.len() - 1].len() ==> left[(#[trigger] stages[stages.len()
                - 1][i]) as int] == s,
{
    assert forall|l: int| cur <= l < stages.len() implies left[stages[l][0] as int] >= 0 by {
        assert(stage_fits(stages[l], n));
        assert(stages[l][0] < n);
    }
    lemma_tail_last(stages, cur, left);
    assert forall|k: int, i: int|
        0 <= k < stages.len() - 1 && 0 <= i < stages[k].len() implies left[(
    #[trigger] stages[k][i]) as int] == 0 by {
        if k >= cur {
            assert(uniform(stages[k], left));
            assert(left[stages[k][0] as int] == 0);
        }
    }
    assert forall|i: int| 0 <= i < stages[stages.len() - 1].len() implies left[(
    #[trigger] stages[stages.len() - 1][i]) as int] == s by {
        assert(uniform(stages[stages.len() - 1], left));
    }
}

/// No region stands twice in the phase.
pub open spec fn phase_distinct(slots: Seq<Seq<Seq<usize>>>) -> bool {
    forall|j: int, k: int, i: int, h: int, l: int, m: int|
        0 <= j < slots.len() && 0 <= k < slots[j].len() && 0 <= i < slots[j][k].len() && 0 <= h
            < slots.len() && 0 <= l < slots[h].len() && 0 <= m < slots[h][l].len() && (j != h || k
            != l || i != m) ==> (#[trigger] slots[j][k][i]) != (#[trigger] slots[h][l][m])
}

/// No slot has more stages than a machine integer can count.
pub open spec fn phase_small(slots: Seq<Seq<Seq<usize>>>) -> bool {
    forall|j: int| 0 <= j < slots.len() ==> (#[trigger] slots[j]).len() <= usize::MAX
}

/// Region `r` stands in the phase.
pub open spec fn in_phase(slots: Seq<Seq<Seq<usize>>>, r: int) -> bool {
    exists|j: int| 0 <= j < slots.len() && in_slot(#[trigger] slots[j], r)
}

/// The slots before `from` are ready for a phase of `p - 1` more rows,
/// those from `from` on for `p` more rows; slot `j` is to keep `spare[j]`
/// rows.
pub open spec fn phase_ready(
    slots: Seq<Seq<Seq<usize>>>,
    curs: Seq<usize>,
    left: Seq<int>,
    p: int,
    spare: Seq<int>,
    from: int,
) -> bool {
    &&& curs.len() == slots.len()
    &&& spare.len() == slots.len()
    &&& forall|j: int|
        0 <= j < slots.len() ==> slot_ready(
            #[trigger] slots[j],
            curs[j] as int,
            left,
            if j < from {
                p - 1
            } else {
                p
            },
            spare[j],
        )
}

/// Whether a slot is ready depends only on the rows of its own regions.
pub(crate) proof fn lemma_slot_ready_same(
    stages: Seq<Seq<usize>>,
    cur: int,
    left: Seq<int>,
    other: Seq<int>,
    p: int,
    s: int,
    n: int,
)
    requires
        slot_fits(stages, n),
        left.len() == n,
        other.len() == n,
        slot_ready(stages, cur, left, p, s),
        forall|r: int| 0 <= r < n && in_slot(stages, r) ==> (#[trigger] other[r]) == left[r],
    ensures
        slot_ready(stages, cur, other, p, s),
{
    assert forall|k: int, i: int| 0 <= k < stages.len() && 0 <= i < stages[k].len() implies other[(
    #[trigger] stages[k][i]) as int] == left[stages[k][i] as int] by {
        assert(stage_fits(stages[k], n));
        assert(in_slot(stages, stages[k][i] as int));
    }
    assert forall|k: int| cur <= k < stages.len() implies uniform(#[trigger] stages[k], other) by {
        assert(uniform(stages[k], left));
        assert(stage_fits(stages[k], n));
        assert forall|i: int| 0 <= i < stages[k].len() implies other[(
        #[trigger] stages[k][i]) as int] == other[stages[k][0] as int] by {
            assert(other[stages[k][i] as int] == left[stages[k][i] as int]);
            assert(other[stages[k][0] as int] == left[stages[k][0] as int]);
        }
    }
    assert forall|l: int| cur <= l < stages.len() implies left[stages[l][0] as int]
        == other[stages[l][0] as int] by {
        assert(stage_fits(stages[l], n));
        assert(other[stages[l][0] as int] == left[stages[l][0] as int]);
    }
    lemma_tail_same(stages, cur, left, other);
    assert(stage_fits(stages[stages.len() - 1], n));
    assert(other[stages[stages.len() - 1][0] as int] == left[stages[stages.len() - 1][0] as int]);
}

/// The rows left after the slots from `j` on had their turn.
pub open spec fn row_left(
    frames: Seq<RawFrame>,
    slots: Seq<Seq<Seq<usize>>>,
    j: int,
    curs: Seq<usize>,
    st: JoinState,
    left: Seq<int>,
) -> Seq<int>
    decreases slots.len() - j,
{
    if j < 0 || j >= slots.len() {
        left
    } else {
        let (after, at, ended) = run_slot(frames, slots[j], curs[j] as int, st);
        row_left(
            frames,
            slots,
            j + 1,
            curs.update(j, at as usize),
            after,
            lowered(left, slots[j][at], 0),
        )
    }
}

/// The turn of slot `j` in a row of a phase that has rows to run: the slot
/// gives one row and is ready for one row less, and the other slots are as
/// they were.
pub(crate) proof fn lemma_row_turn(
    frames: Seq<RawFrame>,
    slots: Seq<Seq<Seq<usize>>>,
    j: int,
    curs: Seq<usize>,
    st: JoinState,
    left: Seq<int>,
    p: int,
    spare: Seq<int>,
)
    requires
        frames_chunkable(frames),
        measured(frames, st.offsets, left),
        phase_fits(slots, frames.len() as int),
        phase_distinct(slots),
        phase_small(slots),
        0 <= j < slots.len(),
        p >= 1,
        phase_ready(slots, curs, left, p, spare, j),
    ensures
        slot_fits(slots[j], frames.len() as int),
        slot_distinct(slots[j]),
        slot_ready(slots[j], curs[j] as int, left, p, spare[j]),
        ({
            let (after, at, ended) = run_slot(frames, slots[j], curs[j] as int, st);
            let fewer = lowered(left, slots[j][at], 0);
            &&& !ended
            &&& curs[j] <= at < slots[j].len()
            &&& measured(frames, after.offsets, fewer)
            &&& phase_ready(slots, curs.update(j, at as usize), fewer, p, spare, j + 1)
            &&& forall|r: int|
                0 <= r < left.len() && !in_slot(slots[j], r) ==> (#[trigger] fewer[r]) == left[r]
        }),
{
    let n = frames.len() as int;
    let stages = slots[j];
    assert(slot_fits(stages, n));
    assert(slot_distinct(stages)) by {
        assert forall|k: int, i: int, l: int, m: int|
            0 <= k < stages.len() && 0 <= i < stages[k].len() && 0 <= l < stages.len() && 0 <= m
                < stages[l].len() && (k != l || i != m) implies (#[trigger] stages[k][i]) != (
        #[trigger] stages[l][m]) by {
            assert(slots[j][k][i] != slots[j][l][m]);
        }
    }
    lemma_slot_turn(frames, stages, curs[j] as int, st, left, p, spare[j]);
    let (after, at, ended) = run_slot(frames, stages, curs[j] as int, st);
    let fewer = lowered(left, stages[at], 0);
    let curs1 = curs.update(j, at as usize);
    assert forall|h: int| 0 <= h < slots.len() implies slot_ready(
        #[trigger] slots[h],
        curs1[h] as int,
        fewer,
        if h < j + 1 {
            p - 1
        } else {
            p
        },
        spare[h],
    ) by {
        if h != j {
            assert(slot_fits(slots[h], n));
            assert forall|r: int| 0 <= r < n && in_slot(slots[h], r) implies (#[trigger] fewer[r])
                == left[r] by {
                lemma_other_slot(slots, j, h, r);
            }
            lemma_slot_ready_same(
                slots[h],
                curs[h] as int,
                left,
                fewer,
                if h < j {
                    p - 1
                } else {
                    p
                },
                spare[h],
                n,
            );
        }
    }
}

/// A region of one slot stands in no other slot of the phase.
pub(crate) proof fn lemma_other_slot(slots: Seq<Seq<Seq<usize>>>, j: int, h: int, r: int)
    requires
        phase_distinct(slots),
        0 <= j < slots.len(),
        0 <= h < slots.len(),
        j != h,
        in_slot(slots[h], r),
    ensures
        !in_slot(slots[j], r),
{
    if in_slot(slots[j], r) {
        let (k, i) = choose|k: int, i: int|
            0 <= k < slots[j].len() && 0 <= i < slots[j][k].len() && (#[trigger] slots[j][k][i])
                == r;
        let (l, m) = choose|l: int, m: int|
            0 <= l < slots[h].len() && 0 <= m < slots[h][l].len() && (#[trigger] slots[h][l][m])
                == r;
        assert(slots[j][k][i] != slots[h][l][m]);
    }
}

/// One row of a phase that has rows to run: every slot gives one row, and
/// the phase is ready for one row less.
pub(crate) proof fn lemma_row_step(
    frames: Seq<RawFrame>,
    slots: Seq<Seq<Seq<usize>>>,
    j: int,
    curs: Seq<usize>,
    st: JoinState,
    left: Seq<int>,
    p: int,
    spare: Seq<int>,
)
    requires
        frames_chunkable(frames),
        measured(frames, st.offsets, left),
        phase_fits(slots, frames.len() as int),
        phase_distinct(slots),
        phase_small(slots),
        0 <= j <= slots.len(),
        p >= 1,
        phase_ready(slots, curs, left, p, spare, j),
    ensures
        ({
            let (after, curs2, ended) = run_row(frames, slots, j, curs, st);
            let left2 = row_left(frames, slots, j, curs, st, left);
            &&& !ended
            &&& measured(frames, after.offsets, left2)
            &&& phase_ready(slots, curs2, left2, p - 1, spare, 0)
            &&& forall|r: int|
                0 <= r < left.len() && !in_phase(slots, r) ==> (#[trigger] left2[r]) == left[r]
        }),
    decreases slots.len() - j,
{
    if j < slots.len() {
        lemma_row_turn(frames, slots, j, curs, st, left, p, spare);
        let (after, at, ended) = run_slot(frames, slots[j], curs[j] as int, st);
        let fewer = lowered(left, slots[j][at], 0);
        let curs1 = curs.update(j, at as usize);
        lemma_row_step(frames, slots, j + 1, curs1, after, fewer, p, spare);
        let left2 = row_left(frames, slots, j, curs, st, left);
        assert forall|r: int| 0 <= r < left.len() && !in_phase(slots, r) implies (
        #[trigger] left2[r]) == left[r] by {
            assert(!in_slot(slots[j], r));
            assert(fewer[r] == left[r]);
        }
    } else {
        assert forall|h: int| 0 <= h < slots.len() implies slot_ready(
            #[trigger] slots[h],
            curs[h] as int,
            left,
            p - 1,
            spare[h],
        ) by {}
    }
}

/// The rows left after a phase ran `p` rows.
pub open spec fn phase_left(
    frames: Seq<RawFrame>,
    slots: Seq<Seq<Seq<usize>>>,
    curs: Seq<usize>,
    st: JoinState,
    left: Seq<int>,
    p: nat,
) -> Seq<int>
    decreases p,
{
    if p == 0 {
        left
    } else {
        let (after, curs2, ended) = run_row(frames, slots, 0, curs, st);
        phase_left(
            frames,
            slots,
            curs2,
            after,
            row_left(frames, slots, 0, curs, st, left),
            (p - 1) as nat,
        )
    }
}

/// A phase that has no row to run brings nothing.
pub(crate) proof fn lemma_phase_done(
    frames: Seq<RawFrame>,
    slots: Seq<Seq<Seq<usize>>>,
    curs: Seq<usize>,
    st: JoinState,
    left: Seq<int>,
    spare: Seq<int>,
)
    requires
        frames_chunkable(frames),
        measured(frames, st.offsets, left),
        phase_fits(slots, frames.len() as int),
        phase_ready(slots, curs, left, 0, spare, 0),
        spare[0] == 0,
    ensures
        run_phase(frames, slots, curs, st) == st,
{
    let n = frames.len() as int;
    let first = slots[0];
    assert(slot_fits(first, n));
    assert(slot_ready(first, curs[0] as int, left, 0, spare[0]));
    lemma_slot_final(first, curs[0] as int, left, 0, n);
    assert forall|k: int, i: int|
        curs[0] <= k < first.len() && 0 <= i < first[k].len() implies left[(
    #[trigger] first[k][i]) as int] == 0 by {}
    lemma_slot_end(frames, first, curs[0] as int, st, left);
    assert(run_row(frames, slots, 0, curs, st).0 == st);
    assert(run_row(frames, slots, 0, curs, st).2);
}

/// A phase whose first slot has `p` rows left, and every other slot as
/// many and what it is to keep, runs `p` rows: afterwards the last stage of
/// every slot has left what the slot was to keep, every other region of
/// the phase has nothing left, and the regions outside the phase are as
/// they were.
pub proof fn lemma_phase(
    frames: Seq<RawFrame>,
    slots: Seq<Seq<Seq<usize>>>,
    curs: Seq<usize>,
    st: JoinState,
    left: Seq<int>,
    p: nat,
    spare: Seq<int>,
)
    requires
        frames_chunkable(frames),
        measured(frames, st.offsets, left),
        phase_fits(slots, frames.len() as int),
        phase_distinct(slots),
        phase_small(slots),
        phase_ready(slots, curs, left, p as int, spare, 0),
        spare[0] == 0,
    ensures
        ({
            let after = run_phase(frames, slots, curs, st);
            let left2 = phase_left(frames, slots, curs, st, left, p);
            &&& measured(frames, after.offsets, left2)
            &&& forall|j: int, k: int, i: int|
                0 <= j < slots.len() && 0 <= k < slots[j].len() && 0 <= i < slots[j][k].len()
                    ==> left2[(#[trigger] slots[j][k][i]) as int] == (if k == slots[j].len() - 1 {
                    spare[j]
                } else {
                    0
                })
            &&& forall|r: int|
                0 <= r < left.len() && !in_phase(slots, r) ==> (#[trigger] left2[r]) == left[r]
        }),
    decreases p,
{
    let n = frames.len() as int;
    lemma_chunk_iff_all(frames, st.offsets, left);
    assert(curs_fit(slots, curs)) by {
        assert forall|j: int| 0 <= j < slots.len() implies (#[trigger] curs[j]) < slots[j].len() by {
            assert(slot_ready(slots[j], curs[j] as int, left, p as int, spare[j]));
        }
    }
    if p == 0 {
        lemma_phase_done(frames, slots, curs, st, left, spare);
        assert forall|j: int, k: int, i: int|
            0 <= j < slots.len() && 0 <= k < slots[j].len() && 0 <= i
                < slots[j][k].len() implies left[(#[trigger] slots[j][k][i]) as int] == (if k
            == slots[j].len() - 1 {
            spare[j]
        } else {
            0
        }) by {
            assert(slot_fits(slots[j], n));
            assert(slot_ready(slots[j], curs[j] as int, left, 0, spare[j]));
            lemma_slot_final(slots[j], curs[j] as int, left, spare[j], n);
        }
    } else {
        lemma_row_step(frames, slots, 0, curs, st, left, p as int, spare);
        lemma_run_row(frames, slots, 0, curs, st);
        let (after, curs2, ended) = run_row(frames, slots, 0, curs, st);
        let left1 = row_left(frames, slots, 0, curs, st, left);
        assert(pending(frames, after.offsets, n) < pending(frames, st.offsets, n));
        assert(run_phase(frames, slots, curs, st) == run_phase(frames, slots, curs2, after));
        lemma_phase(frames, slots, curs2, after, left1, (p - 1) as nat, spare);
    }
}

/// Offsets that are measured lie inside their frames.
pub(crate) proof fn lemma_chunk_iff_all(frames: Seq<RawFrame>, offsets: Seq<usize>, left: Seq<int>)
    requires
        frames_chunkable(frames),
        measured(frames, offsets, left),
    ensures
        offsets_fit(frames, offsets),
{
    if frames.len() > 0 {
        lemma_chunk_iff(frames, offsets, left, 0);
    }
}

/// Every region brings a frame as wide as its rectangle, at least one
/// pixel wide, with as many bytes as the rectangle has pixels, three each.
/// What a frame says of its own height is not read.
pub open spec fn frames_fill(frames: Seq<RawFrame>, rects: Seq<(int, int)>) -> bool {
    &&& frames.len() == rects.len()
    &&& forall|i: int|
        0 <= i < frames.len() ==> {
            &&& (#[trigger] frames[i]).width > 0
            &&& frames[i].width == rects[i].0
            &&& frames[i].data@.len() == rects[i].0 * rects[i].1 * 3
        }
}

/// The heights of the rectangles.
pub open spec fn heights(rects: Seq<(int, int)>) -> Seq<int> {
    Seq::new(rects.len(), |i: int| rects[i].1)
}

/// Nothing kept by any of `n` slots.
pub open spec fn no_spare(n: nat) -> Seq<int> {
    Seq::new(n, |j: int| 0int)
}

/// At the start every frame has as many rows left as it is high.
pub(crate) proof fn lemma_start_measured(frames: Seq<RawFrame>, rects: Seq<(int, int)>)
    requires
        frames_fill(frames, rects),
        forall|i: int| 0 <= i < rects.len() ==> (#[trigger] rects[i]).1 >= 0,
    ensures
        measured(frames, start_state(frames).offsets, heights(rects)),
        frames_chunkable(frames),
{
    assert forall|r: int| 0 <= r < frames.len() implies (#[trigger] heights(rects)[r]) >= 0
        && start_state(frames).offsets[r] + heights(rects)[r] * chunk_len(frames[r])
        == frames[r].data@.len() by {
        let wd = rects[r].0;
        let ht = rects[r].1;
        assert(frames[r].width == wd);
        assert(ht * (wd * 3) == wd * ht * 3) by (nonlinear_arith);
    }
}

/// Where no frame has a row left, no byte is pending.
proof fn lemma_none_pending(frames: Seq<RawFrame>, offsets: Seq<usize>, left: Seq<int>, n: int)
    requires
        frames_chunkable(frames),
        measured(frames, offsets, left),
        forall|r: int| 0 <= r < frames.len() ==> (#[trigger] left[r]) == 0,
        0 <= n <= frames.len(),
    ensures
        pending(frames, offsets, n) == 0,
    decreases n,
{
    if n > 0 {
        lemma_none_pending(frames, offsets, left, n - 1);
        assert(left[n - 1] == 0);
        let c = chunk_len(frames[n - 1]);
        assert(left[n - 1] * c == 0) by (nonlinear_arith)
            requires
                left[n - 1] == 0,
        ;
    }
}

/// At the start all bytes of all frames are pending: three for each pixel
/// of each rectangle.
proof fn lemma_all_pending(frames: Seq<RawFrame>, rects: Seq<(int, int)>, n: int)
    requires
        frames_fill(frames, rects),
        0 <= n <= frames.len(),
    ensures
        pending(frames, start_state(frames).offsets, n) == 3 * area(rects, n),
    decreases n,
{
    if n > 0 {
        lemma_all_pending(frames, rects, n - 1);
        assert(frames[n - 1].width > 0);
        let wd = rects[n - 1].0;
        let ht = rects[n - 1].1;
        assert(wd * ht * 3 == 3 * (wd * ht)) by (nonlinear_arith);
    }
}

/// A layout of one phase in which every slot has as many rows as the
/// canvas: the joined frame has three bytes for each pixel of the
/// rectangles.
proof fn lemma_one_phase(frames: Seq<RawFrame>, rects: Seq<(int, int)>, plan: Seq<Seq<Seq<Seq<usize>>>>, h: nat)
    requires
        frames_fill(frames, rects),
        forall|i: int| 0 <= i < rects.len() ==> (#[trigger] rects[i]).1 >= 0,
        plan.len() == 1,
        plan_fits(plan, frames.len() as int),
        phase_distinct(plan[0]),
        phase_small(plan[0]),
        phase_ready(plan[0], first_stages(plan[0]), heights(rects), h as int, no_spare(plan[0].len()), 0),
        forall|r: int| 0 <= r < frames.len() ==> in_phase(plan[0], r),
    ensures
        joined(frames, plan).len() == 3 * area(rects, rects.len() as int),
{
    let n = frames.len() as int;
    let start = start_state(frames);
    lemma_start_measured(frames, rects);
    assert(phase_fits(plan[0], n));
    lemma_phase(frames, plan[0], first_stages(plan[0]), start, heights(rects), h, no_spare(plan[0].len()));
    let after = run_phase(frames, plan[0], first_stages(plan[0]), start);
    let left = phase_left(frames, plan[0], first_stages(plan[0]), start, heights(rects), h);
    assert(run_plan(frames, plan, 0, start) == run_plan(frames, plan, 1, after));
    assert(run_plan(frames, plan, 1, after) == after);
    assert forall|r: int| 0 <= r < n implies (#[trigger] left[r]) == 0 by {
        assert(in_phase(plan[0], r));
        let j = choose|j: int| 0 <= j < plan[0].len() && in_slot(#[trigger] plan[0][j], r);
        let (k, i) = choose|k: int, i: int|
            0 <= k < plan[0][j].len() && 0 <= i < plan[0][j][k].len() && (
            #[trigger] plan[0][j][k][i]) == r;
        assert(left[plan[0][j][k][i] as int] == 0);
    }
    lemma_finish(frames, rects, plan, after.offsets, left);
}

/// Once no frame has a row left, the canvas holds three bytes for each
/// pixel of the rectangles.
proof fn lemma_finish(
    frames: Seq<RawFrame>,
    rects: Seq<(int, int)>,
    plan: Seq<Seq<Seq<Seq<usize>>>>,
    offsets: Seq<usize>,
    left: Seq<int>,
)
    requires
        frames_fill(frames, rects),
        plan_fits(plan, frames.len() as int),
        run_plan(frames, plan, 0, start_state(frames)).offsets == offsets,
        measured(frames, offsets, left),
        forall|r: int| 0 <= r < frames.len() ==> (#[trigger] left[r]) == 0,
    ensures
        joined(frames, plan).len() == 3 * area(rects, rects.len() as int),
{
    let n = frames.len() as int;
    let start = start_state(frames);
    assert(frames_chunkable(frames));
    assert(offsets_fit(frames, start.offsets));
    lemma_run_plan(frames, plan, 0, start);
    lemma_none_pending(frames, offsets, left, n);
    lemma_all_pending(frames, rects, n);
}

/// Every region of a layout of one phase stands in that phase.
pub(crate) proof fn lemma_all_in_phase(shape: FrameShape)
    requires
        shape.has_interleave_rule(),
        shape.interleave_table().len() == 1,
    ensures
        forall|r: int|
            0 <= r < shape.region_count() ==> in_phase(shape.interleave_table()[0], r),
{
    shape.lemma_table_fits();
    let plan = shape.interleave_table();
    assert forall|r: int| 0 <= r < shape.region_count() implies in_phase(plan[0], r) by {
        assert(table_names(plan, r));
        let (p, j, k, i) = choose|p: int, j: int, k: int, i: int| named_at(plan, p, j, k, i, r);
        assert(named_at(plan, p, j, k, i, r));
        assert(plan[0][j][k][i] == r);
        assert(in_slot(plan[0][j], r));
    }
}

proof fn lemma_size_plain(shape: FrameShape, w: int, h: int, frames: Seq<RawFrame>)
    requires
        shape == FrameShape::Mono || shape == FrameShape::Dual || shape == FrameShape::Triple,
        0 <= w,
        0 <= h,
        frames_fill(frames, partition(shape, w, h)),
    ensures
        joined(frames, shape.interleave_table()).len() == 3 * area(
            partition(shape, w, h),
            partition(shape, w, h).len() as int,
        ),
{
    let plan = shape.interleave_table();
    let rects = partition(shape, w, h);
    shape.lemma_table_fits();
    lemma_all_in_phase(shape);
    reveal_with_fuel(tail_sum, 4);
    assert(phase_distinct(plan[0]));
    assert(phase_small(plan[0]));
    assert(phase_ready(
        plan[0],
        first_stages(plan[0]),
        heights(rects),
        h,
        no_spare(plan[0].len()),
        0,
    ));
    lemma_one_phase(frames, rects, plan, h as nat);
}

#[verifier::rlimit(60)]
proof fn lemma_size_horiz(shape: FrameShape, w: int, h: int, frames: Seq<RawFrame>)
    requires
        shape == FrameShape::HorizEmph || shape == FrameShape::HorizEmph2,
        0 <= w,
        0 <= h,
        frames_fill(frames, partition(shape, w, h)),
    ensures
        joined(frames, shape.interleave_table()).len() == 3 * area(
            partition(shape, w, h),
            partition(shape, w, h).len() as int,
        ),
{
    let plan = shape.interleave_table();
    let rects = partition(shape, w, h);
    shape.lemma_table_fits();
    lemma_all_in_phase(shape);
    reveal_with_fuel(tail_sum, 4);
    assert(phase_distinct(plan[0]));
    assert(phase_small(plan[0]));
    assert(phase_ready(
        plan[0],
        first_stages(plan[0]),
        heights(rects),
        h,
        no_spare(plan[0].len()),
        0,
    ));
    lemma_one_phase(frames, rects, plan, h as nat);
}

#[verifier::rlimit(60)]
proof fn lemma_size_side(shape: FrameShape, w: int, h: int, frames: Seq<RawFrame>)
    requires
        shape == FrameShape::SideVert || shape == FrameShape::SideVert2,
        0 <= w,
        0 <= h,
        frames_fill(frames, partition(shape, w, h)),
    ensures
        joined(frames, shape.interleave_table()).len() == 3 * area(
            partition(shape, w, h),
            partition(shape, w, h).len() as int,
        ),
{
    let plan = shape.interleave_table();
    let rects = partition(shape, w, h);
    shape.lemma_table_fits();
    lemma_all_in_phase(shape);
    reveal_with_fuel(tail_sum, 4);
    assert(phase_distinct(plan[0]));
    assert(phase_small(plan[0]));
    assert(phase_ready(
        plan[0],
        first_stages(plan[0]),
        heights(rects),
        h,
        no_spare(plan[0].len()),
        0,
    ));
    lemma_one_phase(frames, rects, plan, h as nat);
}

#[verifier::rlimit(60)]
proof fn lemma_size_centre(shape: FrameShape, w: int, h: int, frames: Seq<RawFrame>)
    requires
        shape == FrameShape::CentreEmphVert || shape == FrameShape::CentreEmphVert2,
        0 <= w,
        0 <= h,
        frames_fill(frames, partition(shape, w, h)),
    ensures
        joined(frames, shape.interleave_table()).len() == 3 * area(
            partition(shape, w, h),
            partition(shape, w, h).len() as int,
        ),
{
    let plan = shape.interleave_table();
    let rects = partition(shape, w, h);
    shape.lemma_table_fits();
    lemma_all_in_phase(shape);
    reveal_with_fuel(tail_sum, 4);
    assert(phase_distinct(plan[0]));
    assert(phase_small(plan[0]));
    assert(phase_ready(
        plan[0],
        first_stages(plan[0]),
        heights(rects),
        h,
        no_spare(plan[0].len()),
        0,
    ));
    lemma_one_phase(frames, rects, plan, h as nat);
}

#[verifier::rlimit(60)]
proof fn lemma_size_more(shape: FrameShape, w: int, h: int, frames: Seq<RawFrame>)
    requires
        shape == FrameShape::MoreHoriz || shape == FrameShape::MoreHoriz2,
        0 <= w,
        0 <= h,
        frames_fill(frames, partition(shape, w, h)),
    ensures
        joined(frames, shape.interleave_table()).len() == 3 * area(
            partition(shape, w, h),
            partition(shape, w, h).len() as int,
        ),
{
    let plan = shape.interleave_table();
    let rects = partition(shape, w, h);
    shape.lemma_table_fits();
    lemma_all_in_phase(shape);
    reveal_with_fuel(tail_sum, 4);
    assert(phase_distinct(plan[0]));
    assert(phase_small(plan[0]));
    assert(phase_ready(
        plan[0],
        first_stages(plan[0]),
        heights(rects),
        h,
        no_spare(plan[0].len()),
        0,
    ));
    lemma_one_phase(frames, rects, plan, h as nat);
}

#[verifier::rlimit(60)]
proof fn lemma_size_landscape(shape: FrameShape, w: int, h: int, frames: Seq<RawFrame>)
    requires
        shape == FrameShape::ExtendedLandscape,
        0 <= w,
        0 <= h,
        frames_fill(frames, partition(shape, w, h)),
    ensures
        joined(frames, shape.interleave_table()).len() == 3 * area(
            partition(shape, w, h),
            partition(shape, w, h).len() as int,
        ),
{
    let plan = shape.interleave_table();
    let rects = partition(shape, w, h);
    shape.lemma_table_fits();
    lemma_all_in_phase(shape);
    reveal_with_fuel(tail_sum, 4);
    assert(phase_distinct(plan[0]));
    assert(phase_small(plan[0]));
    assert(phase_ready(
        plan[0],
        first_stages(plan[0]),
        heights(rects),
        h,
        no_spare(plan[0].len()),
        0,
    ));
    lemma_one_phase(frames, rects, plan, h as nat);
}

/// What the rows are after a phase: the last stage of every slot has
/// left what the slot was to keep, every other region of the phase has
/// nothing left, and the regions outside the phase are as they were.
pub open spec fn after_phase(
    slots: Seq<Seq<Seq<usize>>>,
    left: Seq<int>,
    spare: Seq<int>,
    then: Seq<int>,
) -> bool {
    &&& then.len() == left.len()
    &&& forall|j: int, k: int, i: int|
        0 <= j < slots.len() && 0 <= k < slots[j].len() && 0 <= i < slots[j][k].len() ==> then[(
        #[trigger] slots[j][k][i]) as int] == (if k == slots[j].len() - 1 {
            spare[j]
        } else {
            0
        })
    &&& forall|r: int|
        0 <= r < left.len() && !in_phase(slots, r) ==> (#[trigger] then[r]) == left[r]
}

/// A layout of two phases, the second of which uses up what the first has
/// left: the joined frame has three bytes for each pixel of the
/// rectangles.
proof fn lemma_two_phases(
    frames: Seq<RawFrame>,
    rects: Seq<(int, int)>,
    plan: Seq<Seq<Seq<Seq<usize>>>>,
    first: nat,
    spare: Seq<int>,
    second: nat,
)
    requires
        frames_fill(frames, rects),
        forall|i: int| 0 <= i < rects.len() ==> (#[trigger] rects[i]).1 >= 0,
        plan.len() == 2,
        plan_fits(plan, frames.len() as int),
        phase_distinct(plan[0]),
        phase_small(plan[0]),
        phase_distinct(plan[1]),
        phase_small(plan[1]),
        phase_ready(plan[0], first_stages(plan[0]), heights(rects), first as int, spare, 0),
        spare[0] == 0,
        forall|then: Seq<int>|
            #[trigger] after_phase(plan[0], heights(rects), spare, then) ==> {
                &&& phase_ready(
                    plan[1],
                    first_stages(plan[1]),
                    then,
                    second as int,
                    no_spare(plan[1].len()),
                    0,
                )
                &&& forall|r: int|
                    0 <= r < frames.len() && !in_phase(plan[1], r) ==> (#[trigger] then[r]) == 0
            },
    ensures
        joined(frames, plan).len() == 3 * area(rects, rects.len() as int),
{
    let n = frames.len() as int;
    let start = start_state(frames);
    lemma_start_measured(frames, rects);
    assert(phase_fits(plan[0], n));
    assert(phase_fits(plan[1], n));
    lemma_phase(frames, plan[0], first_stages(plan[0]), start, heights(rects), first, spare);
    let mid = run_phase(frames, plan[0], first_stages(plan[0]), start);
    let then = phase_left(frames, plan[0], first_stages(plan[0]), start, heights(rects), first);
    assert(after_phase(plan[0], heights(rects), spare, then));
    lemma_phase(frames, plan[1], first_stages(plan[1]), mid, then, second, no_spare(plan[1].len()));
    let after = run_phase(frames, plan[1], first_stages(plan[1]), mid);
    let left = phase_left(frames, plan[1], first_stages(plan[1]), mid, then, second);
    assert(run_plan(frames, plan, 0, start) == run_plan(frames, plan, 1, mid));
    assert(run_plan(frames, plan, 1, mid) == run_plan(frames, plan, 2, after));
    assert(run_plan(frames, plan, 2, after) == after);
    assert forall|r: int| 0 <= r < n implies (#[trigger] left[r]) == 0 by {
        if in_phase(plan[1], r) {
            let j = choose|j: int| 0 <= j < plan[1].len() && in_slot(#[trigger] plan[1][j], r);
            let (k, i) = choose|k: int, i: int|
                0 <= k < plan[1][j].len() && 0 <= i < plan[1][j][k].len() && (
                #[trigger] plan[1][j][k][i]) == r;
            assert(left[plan[1][j][k][i] as int] == 0);
        } else {
            assert(then[r] == 0);
        }
    }
    lemma_finish(frames, rects, plan, after.offsets, left);
}

#[verifier::rlimit(60)]
proof fn lemma_size_quad(shape: FrameShape, w: int, h: int, frames: Seq<RawFrame>)
    requires
        shape == FrameShape::Quad,
        0 <= w,
        0 <= h,
        frames_fill(frames, partition(shape, w, h)),
    ensures
        joined(frames, shape.interleave_table()).len() == 3 * area(
            partition(shape, w, h),
            partition(shape, w, h).len() as int,
        ),
{
    let plan = shape.interleave_table();
    let rects = partition(shape, w, h);
    shape.lemma_table_fits();
    reveal_with_fuel(tail_sum, 4);
    let spare = no_spare(2);
    assert(phase_distinct(plan[0]));
    assert(phase_distinct(plan[1]));
    assert(phase_ready(plan[0], first_stages(plan[0]), heights(rects), h / 2, spare, 0));
    assert forall|then: Seq<int>| #[trigger]
        after_phase(plan[0], heights(rects), spare, then) implies phase_ready(
        plan[1],
        first_stages(plan[1]),
        then,
        h - h / 2,
        no_spare(plan[1].len()),
        0,
    ) && (forall|r: int| 0 <= r < frames.len() && !in_phase(plan[1], r) ==> (#[trigger] then[r])
        == 0) by {
        assert(!in_phase(plan[0], 2)) by {
            if in_phase(plan[0], 2) {
                let j = choose|j: int| 0 <= j < plan[0].len() && in_slot(#[trigger] plan[0][j], 2);
                let (k, i) = choose|k: int, i: int|
                    0 <= k < plan[0][j].len() && 0 <= i < plan[0][j][k].len() && (
                    #[trigger] plan[0][j][k][i]) == 2;
            }
        }
        assert(!in_phase(plan[0], 3)) by {
            if in_phase(plan[0], 3) {
                let j = choose|j: int| 0 <= j < plan[0].len() && in_slot(#[trigger] plan[0][j], 3);
                let (k, i) = choose|k: int, i: int|
                    0 <= k < plan[0][j].len() && 0 <= i < plan[0][j][k].len() && (
                    #[trigger] plan[0][j][k][i]) == 3;
            }
        }
        assert(then[2] == heights(rects)[2]);
        assert(then[3] == heights(rects)[3]);
        assert(then[plan[0][0][0][0] as int] == 0);
        assert(then[plan[0][1][0][0] as int] == 0);
        assert forall|r: int| 0 <= r < frames.len() && !in_phase(plan[1], r) implies (
        #[trigger] then[r]) == 0 by {
            if r == 2 {
                assert(plan[1][0][0][0] == 2);
                assert(in_slot(plan[1][0], 2));
            }
            if r == 3 {
                assert(plan[1][1][0][0] == 3);
                assert(in_slot(plan[1][1], 3));
            }
        }
    }
    lemma_two_phases(frames, rects, plan, (h / 2) as nat, spare, (h - h / 2) as nat);
}

#[verifier::rlimit(60)]
proof fn lemma_size_vert(shape: FrameShape, w: int, h: int, frames: Seq<RawFrame>)
    requires
        shape == FrameShape::VertEmph || shape == FrameShape::VertEmph2,
        0 <= w,
        0 <= h,
        frames_fill(frames, partition(shape, w, h)),
    ensures
        joined(frames, shape.interleave_table()).len() == 3 * area(
            partition(shape, w, h),
            partition(shape, w, h).len() as int,
        ),
{
    let plan = shape.interleave_table();
    let rects = partition(shape, w, h);
    shape.lemma_table_fits();
    reveal_with_fuel(tail_sum, 4);
    let spare = seq![0int, h - h / 2, 0int];
    assert(phase_distinct(plan[0]));
    assert(phase_distinct(plan[1]));
    assert(phase_ready(plan[0], first_stages(plan[0]), heights(rects), h / 2, spare, 0));
    assert forall|then: Seq<int>| #[trigger]
        after_phase(plan[0], heights(rects), spare, then) implies phase_ready(
        plan[1],
        first_stages(plan[1]),
        then,
        h - h / 2,
        no_spare(plan[1].len()),
        0,
    ) && (forall|r: int| 0 <= r < frames.len() && !in_phase(plan[1], r) ==> (#[trigger] then[r])
        == 0) by {
        assert(!in_phase(plan[0], 3)) by {
            if in_phase(plan[0], 3) {
                let j = choose|j: int| 0 <= j < plan[0].len() && in_slot(#[trigger] plan[0][j], 3);
                let (k, i) = choose|k: int, i: int|
                    0 <= k < plan[0][j].len() && 0 <= i < plan[0][j][k].len() && (
                    #[trigger] plan[0][j][k][i]) == 3;
            }
        }
        assert(!in_phase(plan[0], 4)) by {
            if in_phase(plan[0], 4) {
                let j = choose|j: int| 0 <= j < plan[0].len() && in_slot(#[trigger] plan[0][j], 4);
                let (k, i) = choose|k: int, i: int|
                    0 <= k < plan[0][j].len() && 0 <= i < plan[0][j][k].len() && (
                    #[trigger] plan[0][j][k][i]) == 4;
            }
        }
        assert(then[3] == heights(rects)[3]);
        assert(then[4] == heights(rects)[4]);
        assert(then[plan[0][0][0][0] as int] == 0);
        assert(then[plan[0][1][0][0] as int] == h - h / 2);
        assert(then[plan[0][2][0][0] as int] == 0);
        assert forall|r: int| 0 <= r < frames.len() && !in_phase(plan[1], r) implies (
        #[trigger] then[r]) == 0 by {
            if r == 0 {
                assert(plan[1][1][0][0] == 0);
                assert(in_slot(plan[1][1], 0));
            }
            if r == 3 {
                assert(plan[1][0][0][0] == 3);
                assert(in_slot(plan[1][0], 3));
            }
            if r == 4 {
                assert(plan[1][2][0][0] == 4);
                assert(in_slot(plan[1][2], 4));
            }
        }
    }
    lemma_two_phases(frames, rects, plan, (h / 2) as nat, spare, (h - h / 2) as nat);
}

/// Compositor frame size. Where every region brings a frame of the size
/// of its rectangle, at least one pixel wide, the joined frame has three
/// bytes for each pixel of the canvas.
pub proof fn lemma_complete_frame_size(shape: FrameShape, w: int, h: int, frames: Seq<RawFrame>)
    requires
        shape.has_interleave_rule(),
        0 <= w,
        0 <= h,
        frames_fill(frames, partition(shape, w, h)),
    ensures
        joined(frames, shape.interleave_table()).len() == w * h * 3,
{
    lemma_area(shape, w, h);
    match shape {
        FrameShape::Mono | FrameShape::Dual | FrameShape::Triple => {
            lemma_size_plain(shape, w, h, frames);
        },
        FrameShape::Quad => {
            lemma_size_quad(shape, w, h, frames);
        },
        FrameShape::VertEmph | FrameShape::VertEmph2 => {
            lemma_size_vert(shape, w, h, frames);
        },
        FrameShape::HorizEmph | FrameShape::HorizEmph2 => {
            lemma_size_horiz(shape, w, h, frames);
        },
        FrameShape::SideVert | FrameShape::SideVert2 => {
            lemma_size_side(shape, w, h, frames);
        },
        FrameShape::CentreEmphVert | FrameShape::CentreEmphVert2 => {
            lemma_size_centre(shape, w, h, frames);
        },
        FrameShape::MoreHoriz | FrameShape::MoreHoriz2 => {
            lemma_size_more(shape, w, h, frames);
        },
        FrameShape::ExtendedLandscape => {
            lemma_size_landscape(shape, w, h, frames);
        },
        FrameShape::ExtendedLandscape2 | FrameShape::OffsetVH4x4 => {},
    }
    assert(3 * (w * h) == w * h * 3) by (nonlinear_arith);
}

} // verus!
