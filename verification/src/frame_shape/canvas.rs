//! Where the rows of the regions stand in a whole canvas frame: every row
//! of every region is found in the joined frame at the place of the
//! region's rectangle on the canvas.

use vstd::prelude::*;
use crate::frame_shape::complete::{
    after_phase, frames_fill, heights, in_phase, in_slot, lemma_all_in_phase, lemma_chunk_iff_all,
    lemma_lowered, lemma_other_slot, lemma_phase, lemma_phase_done, lemma_row_step, lemma_row_turn,
    lemma_stage_all, lemma_stage_none, lemma_start_measured, lemma_take_measured, lowered, measured,
    no_spare, phase_distinct, phase_left, phase_ready, phase_small, row_left, slot_distinct,
    slot_ready, stage_distinct, tail_sum, uniform,
};
use crate::frame_shape::frame_join::{
    chunk_len, curs_fit, first_stages, frames_chunkable, has_chunk, joined, lemma_run_row, pending,
    phase_fits, plan_fits, read_stage, run_phase, run_plan, run_row, run_slot, slot_fits,
    stage_fits, start_state, take_chunk, JoinState, RawFrame,
};
use crate::frame_shape::tiling::placement;
use crate::frame_shape::FrameShape;
use crate::video::partition;

verus! {

/// The byte at which row `y` of a canvas `w` pixels wide begins.
pub open spec fn row_base(y: int, w: int) -> int {
    y * w * 3
}

/// Row `c` of the frame stands in `out` at byte `pos`.
pub open spec fn landed(out: Seq<u8>, frame: RawFrame, c: int, pos: int) -> bool {
    &&& 0 <= pos
    &&& pos + chunk_len(frame) <= out.len()
    &&& out.subrange(pos, pos + chunk_len(frame)) == frame.data@.subrange(
        c * chunk_len(frame),
        (c + 1) * chunk_len(frame),
    )
}

/// `rows` tells how many rows each frame has, and no frame has bytes
/// behind its last row.
pub open spec fn whole(frames: Seq<RawFrame>, rows: Seq<int>) -> bool {
    &&& rows.len() == frames.len()
    &&& forall|r: int|
        0 <= r < frames.len() ==> (#[trigger] rows[r]) >= 0 && rows[r] * chunk_len(frames[r])
            == frames[r].data@.len()
}

/// Every row that a frame has given stands in `out` where `land` has it.
pub open spec fn recorded(
    frames: Seq<RawFrame>,
    out: Seq<u8>,
    left: Seq<int>,
    rows: Seq<int>,
    land: spec_fn(int, int) -> int,
) -> bool {
    forall|r: int, c: int|
        0 <= r < frames.len() && 0 <= c < rows[r] - left[r] ==> landed(
            out,
            frames[r],
            c,
            #[trigger] land(r, c),
        )
}

/// The bytes of the chunks of the first `i` regions of a stage together.
pub open spec fn stage_bytes(frames: Seq<RawFrame>, regions: Seq<usize>, i: int) -> int
    decreases i,
{
    if i <= 0 {
        0
    } else {
        stage_bytes(frames, regions, i - 1) + chunk_len(frames[regions[i - 1] as int])
    }
}

/// A chunk taken where `land` has it keeps the record.
proof fn lemma_take_recorded(
    frames: Seq<RawFrame>,
    st: JoinState,
    left: Seq<int>,
    rows: Seq<int>,
    land: spec_fn(int, int) -> int,
    r: int,
)
    requires
        frames_chunkable(frames),
        measured(frames, st.offsets, left),
        whole(frames, rows),
        0 <= r < frames.len(),
        left[r] >= 1,
        recorded(frames, st.out, left, rows, land),
        st.out.len() == land(r, rows[r] - left[r]),
    ensures
        recorded(
            frames,
            take_chunk(frames, st, r).out,
            left.update(r, left[r] - 1),
            rows,
            land,
        ),
        take_chunk(frames, st, r).out.len() == st.out.len() + chunk_len(frames[r]),
        measured(frames, take_chunk(frames, st, r).offsets, left.update(r, left[r] - 1)),
        has_chunk(frames[r], st.offsets[r]),
{
    lemma_take_measured(frames, st, left, r);
    let cl = chunk_len(frames[r]);
    let c = rows[r] - left[r];
    let after = take_chunk(frames, st, r).out;
    let fewer = left.update(r, left[r] - 1);
    assert(frames[r].width > 0);
    assert(st.offsets[r] == c * cl) by {
        assert(rows[r] * cl - left[r] * cl == (rows[r] - left[r]) * cl) by (nonlinear_arith);
    }
    assert((c + 1) * cl == c * cl + cl) by (nonlinear_arith);
    assert forall|q: int, d: int| 0 <= q < frames.len() && 0 <= d < rows[q] - fewer[q] implies landed(
        after,
        frames[q],
        d,
        #[trigger] land(q, d),
    ) by {
        if q == r && d == c {
            assert(after.subrange(land(q, d), land(q, d) + cl) =~= frames[r].data@.subrange(
                c * cl,
                (c + 1) * cl,
            ));
        } else {
            assert(landed(st.out, frames[q], d, land(q, d)));
            let pos = land(q, d);
            assert(after.subrange(pos, pos + chunk_len(frames[q])) =~= st.out.subrange(
                pos,
                pos + chunk_len(frames[q]),
            ));
        }
    }
}

/// A stage whose regions all have a row left writes one row of each, one
/// behind the other, where `land` has them.
pub(crate) proof fn lemma_stage_lands(
    frames: Seq<RawFrame>,
    regions: Seq<usize>,
    k: int,
    last: bool,
    st: JoinState,
    left: Seq<int>,
    rows: Seq<int>,
    land: spec_fn(int, int) -> int,
    base: int,
)
    requires
        frames_chunkable(frames),
        measured(frames, st.offsets, left),
        whole(frames, rows),
        stage_fits(regions, frames.len() as int),
        stage_distinct(regions),
        0 <= k <= regions.len(),
        forall|i: int| k <= i < regions.len() ==> left[(#[trigger] regions[i]) as int] >= 1,
        recorded(frames, st.out, left, rows, land),
        st.out.len() == base + stage_bytes(frames, regions, k),
        forall|i: int|
            k <= i < regions.len() ==> land(
                (#[trigger] regions[i]) as int,
                rows[regions[i] as int] - left[regions[i] as int],
            ) == base + stage_bytes(frames, regions, i),
    ensures
        recorded(
            frames,
            read_stage(frames, regions, k, last, st).0.out,
            lowered(left, regions, k),
            rows,
            land,
        ),
        read_stage(frames, regions, k, last, st).0.out.len() == base + stage_bytes(
            frames,
            regions,
            regions.len() as int,
        ),
    decreases regions.len() - k,
{
    if k < regions.len() {
        let r = regions[k] as int;
        lemma_take_recorded(frames, st, left, rows, land, r);
        let next = left.update(r, left[r] - 1);
        assert forall|i: int| k + 1 <= i < regions.len() implies next[(
        #[trigger] regions[i]) as int] >= 1 && land(
            regions[i] as int,
            rows[regions[i] as int] - next[regions[i] as int],
        ) == base + stage_bytes(frames, regions, i) by {
            assert(regions[k] != regions[i]);
        }
        assert(stage_bytes(frames, regions, k + 1) == stage_bytes(frames, regions, k) + chunk_len(
            frames[r],
        ));
        lemma_stage_lands(
            frames,
            regions,
            k + 1,
            last,
            take_chunk(frames, st, r),
            next,
            rows,
            land,
            base,
        );
    }
}

/// The rows that the stages before stage `k` had at the start of the
/// phase: the row of the phase at which stage `k` takes over.
pub open spec fn stage_start(stages: Seq<Seq<usize>>, k: int, left0: Seq<int>) -> int
    decreases k,
{
    if k <= 0 {
        0
    } else {
        stage_start(stages, k - 1, left0) + left0[stages[k - 1][0] as int]
    }
}

/// A slot at row `t` of its phase: the stages behind the current one are
/// as they were at the start of the phase, and the current stage has given
/// the rows since it took over.
pub open spec fn slot_at(
    stages: Seq<Seq<usize>>,
    cur: int,
    left: Seq<int>,
    left0: Seq<int>,
    t: int,
) -> bool {
    &&& forall|k: int, i: int|
        cur < k < stages.len() && 0 <= i < stages[k].len() ==> left[(
        #[trigger] stages[k][i]) as int] == left0[stages[k][i] as int]
    &&& forall|i: int|
        0 <= i < stages[cur].len() ==> stage_start(stages, cur, left0) + left0[(
        #[trigger] stages[cur][i]) as int] - left[stages[cur][i] as int] == t
    &&& stage_start(stages, cur, left0) <= t
}

/// Row `m` of those that region `i` of stage `k` had at the start of the
/// phase lands in the canvas row in which the stage gives it, behind the
/// slots to the left and the regions of the stage before it.
pub open spec fn lands_at(
    frames: Seq<RawFrame>,
    stages: Seq<Seq<usize>>,
    left0: Seq<int>,
    rows: Seq<int>,
    land: spec_fn(int, int) -> int,
    y0: int,
    w: int,
    xoff: int,
    k: int,
    i: int,
    m: int,
) -> bool {
    let r = stages[k][i] as int;
    land(r, rows[r] - left0[r] + m) == row_base(y0 + stage_start(stages, k, left0) + m, w) + xoff
        + stage_bytes(frames, stages[k], i)
}

/// Every row that the slot gives in the phase lands at its place, and
/// every stage of the slot is `width` bytes wide.
pub open spec fn slot_lands(
    frames: Seq<RawFrame>,
    stages: Seq<Seq<usize>>,
    left0: Seq<int>,
    rows: Seq<int>,
    land: spec_fn(int, int) -> int,
    y0: int,
    w: int,
    xoff: int,
    width: int,
) -> bool {
    &&& forall|k: int, i: int, m: int|
        0 <= k < stages.len() && 0 <= i < stages[k].len() && 0 <= m < left0[stages[k][i] as int]
            ==> #[trigger] lands_at(frames, stages, left0, rows, land, y0, w, xoff, k, i, m)
    &&& forall|k: int|
        0 <= k < stages.len() ==> stage_bytes(
            frames,
            #[trigger] stages[k],
            stages[k].len() as int,
        ) == width
}

/// One turn of a slot in a phase that has rows to run writes one row of
/// the stage that has a row left, at the place of the slot in the canvas
/// row.
pub(crate) proof fn lemma_slot_lands(
    frames: Seq<RawFrame>,
    stages: Seq<Seq<usize>>,
    cur: int,
    st: JoinState,
    left: Seq<int>,
    left0: Seq<int>,
    rows: Seq<int>,
    land: spec_fn(int, int) -> int,
    p: int,
    s: int,
    t: int,
    y0: int,
    w: int,
    xoff: int,
    width: int,
)
    requires
        frames_chunkable(frames),
        measured(frames, st.offsets, left),
        whole(frames, rows),
        left0.len() == frames.len(),
        slot_fits(stages, frames.len() as int),
        slot_distinct(stages),
        slot_ready(stages, cur, left, p, s),
        p >= 1,
        slot_at(stages, cur, left, left0, t),
        recorded(frames, st.out, left, rows, land),
        st.out.len() == row_base(y0 + t, w) + xoff,
        slot_lands(frames, stages, left0, rows, land, y0, w, xoff, width),
    ensures
        ({
            let (after, at, ended) = run_slot(frames, stages, cur, st);
            &&& cur <= at < stages.len()
            &&& recorded(frames, after.out, lowered(left, stages[at], 0), rows, land)
            &&& after.out.len() == st.out.len() + width
            &&& slot_at(stages, at, lowered(left, stages[at], 0), left0, t + 1)
        }),
    decreases stages.len() - cur,
{
    let regions = stages[cur];
    let last = cur + 1 == stages.len();
    assert(stage_fits(regions, frames.len() as int));
    assert(uniform(regions, left));
    assert(stage_distinct(regions)) by {
        assert forall|i: int, j: int| 0 <= i < j < regions.len() implies regions[i]
            != regions[j] by {
            assert(stages[cur][i] != stages[cur][j]);
        }
    }
    if left[regions[0] as int] >= 1 {
        assert forall|i: int| 0 <= i < regions.len() implies left[(
        #[trigger] regions[i]) as int] >= 1 by {}
        lemma_stage_all(frames, regions, 0, last, st, left);
        lemma_lowered(left, regions, 0);
        let base = st.out.len() as int;
        assert forall|i: int| 0 <= i < regions.len() implies land(
            (#[trigger] regions[i]) as int,
            rows[regions[i] as int] - left[regions[i] as int],
        ) == base + stage_bytes(frames, regions, i) by {
            let r = regions[i] as int;
            let m = left0[r] - left[r];
            assert(stage_start(stages, cur, left0) + left0[stages[cur][i] as int]
                - left[stages[cur][i] as int] == t);
            assert(0 <= m < left0[r]);
            assert(lands_at(frames, stages, left0, rows, land, y0, w, xoff, cur, i, m));
        }
        lemma_stage_lands(frames, regions, 0, last, st, left, rows, land, base);
        let fewer = lowered(left, regions, 0);
        assert(slot_at(stages, cur, fewer, left0, t + 1)) by {
            assert forall|k: int, i: int|
                cur < k < stages.len() && 0 <= i < stages[k].len() implies fewer[(
            #[trigger] stages[k][i]) as int] == left0[stages[k][i] as int] by {
                assert(stage_fits(stages[k], frames.len() as int));
                assert(forall|j: int| 0 <= j < regions.len() ==> stages[cur][j] != stages[k][i]);
                assert(left[stages[k][i] as int] == left0[stages[k][i] as int]);
            }
            assert forall|i: int| 0 <= i < stages[cur].len() implies stage_start(
                stages,
                cur,
                left0,
            ) + left0[(#[trigger] stages[cur][i]) as int] - fewer[stages[cur][i] as int] == t
                + 1 by {
                assert(fewer[regions[i] as int] == left[regions[i] as int] - 1);
                assert(stage_start(stages, cur, left0) + left0[stages[cur][i] as int]
                    - left[stages[cur][i] as int] == t);
            }
        }
    } else {
        assert(left[regions[0] as int] == 0) by {
            assert(stage_fits(regions, frames.len() as int));
        }
        assert forall|i: int| 0 <= i < regions.len() implies left[(
        #[trigger] regions[i]) as int] == 0 by {}
        lemma_stage_none(frames, regions, 0, last, st, left);
        if last {
            assert(tail_sum(stages, cur + 1, left) == 0);
        }
        assert(slot_ready(stages, cur + 1, left, p, s)) by {
            assert forall|k: int, i: int|
                0 <= k < cur + 1 && 0 <= i < stages[k].len() implies left[(
            #[trigger] stages[k][i]) as int] == 0 by {
                if k == cur {
                    assert(left[regions[i] as int] == 0);
                }
            }
        }
        assert(slot_at(stages, cur + 1, left, left0, t)) by {
            assert(stage_start(stages, cur, left0) + left0[stages[cur][0] as int]
                - left[stages[cur][0] as int] == t);
            assert(stage_start(stages, cur + 1, left0) == stage_start(stages, cur, left0)
                + left0[stages[cur][0] as int]);
            assert forall|i: int| 0 <= i < stages[cur + 1].len() implies stage_start(
                stages,
                cur + 1,
                left0,
            ) + left0[(#[trigger] stages[cur + 1][i]) as int] - left[stages[cur + 1][i] as int]
                == t by {
                assert(left[stages[cur + 1][i] as int] == left0[stages[cur + 1][i] as int]);
            }
        }
        lemma_slot_lands(
            frames,
            stages,
            cur + 1,
            st,
            left,
            left0,
            rows,
            land,
            p,
            s,
            t,
            y0,
            w,
            xoff,
            width,
        );
    }
}

/// The bytes of the slots before slot `j` together.
pub open spec fn slot_offset(widths: Seq<int>, j: int) -> int
    decreases j,
{
    if j <= 0 {
        0
    } else {
        slot_offset(widths, j - 1) + widths[j - 1]
    }
}

/// Every row that the phase gives lands at its place: the slots stand one
/// behind the other in a canvas row, and together they fill it.
pub open spec fn phase_lands(
    frames: Seq<RawFrame>,
    slots: Seq<Seq<Seq<usize>>>,
    left0: Seq<int>,
    rows: Seq<int>,
    land: spec_fn(int, int) -> int,
    y0: int,
    w: int,
    widths: Seq<int>,
) -> bool {
    &&& widths.len() == slots.len()
    &&& slot_offset(widths, slots.len() as int) == w * 3
    &&& forall|j: int|
        0 <= j < slots.len() ==> slot_lands(
            frames,
            #[trigger] slots[j],
            left0,
            rows,
            land,
            y0,
            w,
            slot_offset(widths, j),
            widths[j],
        )
}

/// The slots before `from` are at row `t + 1` of the phase, those from
/// `from` on at row `t`.
pub open spec fn phase_at(
    slots: Seq<Seq<Seq<usize>>>,
    curs: Seq<usize>,
    left: Seq<int>,
    left0: Seq<int>,
    t: int,
    from: int,
) -> bool {
    forall|j: int|
        0 <= j < slots.len() ==> slot_at(
            #[trigger] slots[j],
            curs[j] as int,
            left,
            left0,
            if j < from {
                t + 1
            } else {
                t
            },
        )
}

/// Where a slot is in its phase depends only on the rows of its own
/// regions.
proof fn lemma_slot_at_same(
    stages: Seq<Seq<usize>>,
    cur: int,
    left: Seq<int>,
    other: Seq<int>,
    left0: Seq<int>,
    t: int,
    n: int,
)
    requires
        slot_fits(stages, n),
        0 <= cur < stages.len(),
        left.len() == n,
        other.len() == n,
        slot_at(stages, cur, left, left0, t),
        forall|r: int| 0 <= r < n && in_slot(stages, r) ==> (#[trigger] other[r]) == left[r],
    ensures
        slot_at(stages, cur, other, left0, t),
{
    assert forall|k: int, i: int| 0 <= k < stages.len() && 0 <= i < stages[k].len() implies other[(
    #[trigger] stages[k][i]) as int] == left[stages[k][i] as int] by {
        assert(stage_fits(stages[k], n));
        assert(in_slot(stages, stages[k][i] as int));
    }
    assert forall|i: int| 0 <= i < stages[cur].len() implies stage_start(stages, cur, left0)
        + left0[(#[trigger] stages[cur][i]) as int] - other[stages[cur][i] as int] == t by {
        assert(other[stages[cur][i] as int] == left[stages[cur][i] as int]);
    }
}

proof fn lemma_next_row(y: int, w: int)
    ensures
        row_base(y + 1, w) == row_base(y, w) + w * 3,
{
    assert((y + 1) * w * 3 == y * w * 3 + w * 3) by (nonlinear_arith);
}

/// One row of a phase that has rows to run fills one canvas row: every
/// slot writes its row behind the slots before it.
proof fn lemma_row_lands(
    frames: Seq<RawFrame>,
    slots: Seq<Seq<Seq<usize>>>,
    j: int,
    curs: Seq<usize>,
    st: JoinState,
    left: Seq<int>,
    left0: Seq<int>,
    rows: Seq<int>,
    land: spec_fn(int, int) -> int,
    p: int,
    spare: Seq<int>,
    t: int,
    y0: int,
    w: int,
    widths: Seq<int>,
)
    requires
        frames_chunkable(frames),
        measured(frames, st.offsets, left),
        whole(frames, rows),
        left0.len() == frames.len(),
        phase_fits(slots, frames.len() as int),
        phase_distinct(slots),
        phase_small(slots),
        0 <= j <= slots.len(),
        p >= 1,
        phase_ready(slots, curs, left, p, spare, j),
        phase_at(slots, curs, left, left0, t, j),
        phase_lands(frames, slots, left0, rows, land, y0, w, widths),
        recorded(frames, st.out, left, rows, land),
        st.out.len() == row_base(y0 + t, w) + slot_offset(widths, j),
    ensures
        ({
            let (after, curs2, ended) = run_row(frames, slots, j, curs, st);
            let left2 = row_left(frames, slots, j, curs, st, left);
            &&& recorded(frames, after.out, left2, rows, land)
            &&& after.out.len() == row_base(y0 + t + 1, w)
            &&& phase_at(slots, curs2, left2, left0, t + 1, 0)
        }),
    decreases slots.len() - j,
{
    let n = frames.len() as int;
    if j < slots.len() {
        lemma_row_turn(frames, slots, j, curs, st, left, p, spare);
        let stages = slots[j];
        assert(slot_at(stages, curs[j] as int, left, left0, t));
        assert(slot_lands(
            frames,
            stages,
            left0,
            rows,
            land,
            y0,
            w,
            slot_offset(widths, j),
            widths[j],
        ));
        lemma_slot_lands(
            frames,
            stages,
            curs[j] as int,
            st,
            left,
            left0,
            rows,
            land,
            p,
            spare[j],
            t,
            y0,
            w,
            slot_offset(widths, j),
            widths[j],
        );
        let (after, at, ended) = run_slot(frames, stages, curs[j] as int, st);
        let fewer = lowered(left, stages[at], 0);
        let curs1 = curs.update(j, at as usize);
        assert(phase_at(slots, curs1, fewer, left0, t, j + 1)) by {
            assert forall|h: int| 0 <= h < slots.len() implies slot_at(
                #[trigger] slots[h],
                curs1[h] as int,
                fewer,
                left0,
                if h < j + 1 {
                    t + 1
                } else {
                    t
                },
            ) by {
                if h != j {
                    assert(slot_fits(slots[h], n));
                    assert(slot_ready(
                        slots[h],
                        curs[h] as int,
                        left,
                        if h < j {
                            p - 1
                        } else {
                            p
                        },
                        spare[h],
                    ));
                    assert forall|r: int| 0 <= r < n && in_slot(slots[h], r) implies (
                    #[trigger] fewer[r]) == left[r] by {
                        lemma_other_slot(slots, j, h, r);
                    }
                    lemma_slot_at_same(
                        slots[h],
                        curs[h] as int,
                        left,
                        fewer,
                        left0,
                        if h < j {
                            t + 1
                        } else {
                            t
                        },
                        n,
                    );
                }
            }
        }
        assert(slot_offset(widths, j + 1) == slot_offset(widths, j) + widths[j]);
        lemma_row_lands(
            frames,
            slots,
            j + 1,
            curs1,
            after,
            fewer,
            left0,
            rows,
            land,
            p,
            spare,
            t,
            y0,
            w,
            widths,
        );
    } else {
        lemma_next_row(y0 + t, w);
        assert forall|h: int| 0 <= h < slots.len() implies slot_at(
            #[trigger] slots[h],
            curs[h] as int,
            left,
            left0,
            t + 1,
        ) by {}
    }
}

/// A phase that runs `p` rows fills `p` canvas rows, each row of each
/// region at its place.
pub(crate) proof fn lemma_phase_lands(
    frames: Seq<RawFrame>,
    slots: Seq<Seq<Seq<usize>>>,
    curs: Seq<usize>,
    st: JoinState,
    left: Seq<int>,
    left0: Seq<int>,
    rows: Seq<int>,
    land: spec_fn(int, int) -> int,
    p: nat,
    spare: Seq<int>,
    t: int,
    y0: int,
    w: int,
    widths: Seq<int>,
)
    requires
        frames_chunkable(frames),
        measured(frames, st.offsets, left),
        whole(frames, rows),
        left0.len() == frames.len(),
        phase_fits(slots, frames.len() as int),
        phase_distinct(slots),
        phase_small(slots),
        phase_ready(slots, curs, left, p as int, spare, 0),
        spare[0] == 0,
        phase_at(slots, curs, left, left0, t, 0),
        phase_lands(frames, slots, left0, rows, land, y0, w, widths),
        recorded(frames, st.out, left, rows, land),
        st.out.len() == row_base(y0 + t, w),
    ensures
        recorded(
            frames,
            run_phase(frames, slots, curs, st).out,
            phase_left(frames, slots, curs, st, left, p),
            rows,
            land,
        ),
        run_phase(frames, slots, curs, st).out.len() == row_base(y0 + t + p, w),
    decreases p,
{
    let n = frames.len() as int;
    if p == 0 {
        lemma_phase_done(frames, slots, curs, st, left, spare);
    } else {
        lemma_chunk_iff_all(frames, st.offsets, left);
        assert(curs_fit(slots, curs)) by {
            assert forall|j: int| 0 <= j < slots.len() implies (#[trigger] curs[j])
                < slots[j].len() by {
                assert(slot_ready(slots[j], curs[j] as int, left, p as int, spare[j]));
            }
        }
        lemma_row_step(frames, slots, 0, curs, st, left, p as int, spare);
        lemma_run_row(frames, slots, 0, curs, st);
        lemma_row_lands(
            frames,
            slots,
            0,
            curs,
            st,
            left,
            left0,
            rows,
            land,
            p as int,
            spare,
            t,
            y0,
            w,
            widths,
        );
        let (after, curs2, ended) = run_row(frames, slots, 0, curs, st);
        let left1 = row_left(frames, slots, 0, curs, st, left);
        assert(pending(frames, after.offsets, n) < pending(frames, st.offsets, n));
        assert(run_phase(frames, slots, curs, st) == run_phase(frames, slots, curs2, after));
        lemma_phase_lands(
            frames,
            slots,
            curs2,
            after,
            left1,
            left0,
            rows,
            land,
            (p - 1) as nat,
            spare,
            t + 1,
            y0,
            w,
            widths,
        );
    }
}

/// The byte at which row `c` of region `r` begins in a whole canvas frame
/// `w` pixels wide, where the regions lie at `at`.
pub open spec fn canvas_place(at: Seq<(int, int)>, w: int) -> spec_fn(int, int) -> int {
    |r: int, c: int| row_base(at[r].1 + c, w) + at[r].0 * 3
}

/// The bytes of each slot of a phase: those of its first stage.
pub open spec fn first_widths(frames: Seq<RawFrame>, slots: Seq<Seq<Seq<usize>>>) -> Seq<int> {
    Seq::new(slots.len(), |j: int| stage_bytes(frames, slots[j][0], slots[j][0].len() as int))
}

/// Every row of every region stands in `out` at the place of the region on
/// the canvas.
pub open spec fn canvas_holds(
    frames: Seq<RawFrame>,
    rects: Seq<(int, int)>,
    at: Seq<(int, int)>,
    w: int,
    out: Seq<u8>,
) -> bool {
    forall|r: int, c: int|
        0 <= r < frames.len() && 0 <= c < rects[r].1 ==> landed(
            out,
            frames[r],
            c,
            #[trigger] canvas_place(at, w)(r, c),
        )
}

/// Frames that fill their rectangles are whole.
proof fn lemma_fill_whole(frames: Seq<RawFrame>, rects: Seq<(int, int)>)
    requires
        frames_fill(frames, rects),
        forall|i: int| 0 <= i < rects.len() ==> (#[trigger] rects[i]).1 >= 0,
    ensures
        whole(frames, heights(rects)),
{
    assert forall|r: int| 0 <= r < frames.len() implies (#[trigger] heights(rects)[r]) >= 0
        && heights(rects)[r] * chunk_len(frames[r]) == frames[r].data@.len() by {
        let wd = rects[r].0;
        let ht = rects[r].1;
        assert(frames[r].width == wd);
        assert(ht * (wd * 3) == wd * ht * 3) by (nonlinear_arith);
    }
}

/// At the start of a phase every slot is at row 0.
proof fn lemma_phase_begins(slots: Seq<Seq<Seq<usize>>>, left: Seq<int>, n: int)
    requires
        phase_fits(slots, n),
    ensures
        phase_at(slots, first_stages(slots), left, left, 0, 0),
{
    assert forall|j: int| 0 <= j < slots.len() implies slot_at(
        #[trigger] slots[j],
        first_stages(slots)[j] as int,
        left,
        left,
        0,
    ) by {
        assert(slot_fits(slots[j], n));
    }
}

/// A layout of one phase in which every slot has as many rows as the
/// canvas, and whose rows land at their places: every row of every region
/// stands in the joined frame at the place of the region.
proof fn lemma_one_phase_canvas(
    frames: Seq<RawFrame>,
    rects: Seq<(int, int)>,
    plan: Seq<Seq<Seq<Seq<usize>>>>,
    at: Seq<(int, int)>,
    w: int,
    h: nat,
)
    requires
        frames_fill(frames, rects),
        forall|i: int| 0 <= i < rects.len() ==> (#[trigger] rects[i]).1 >= 0,
        plan.len() == 1,
        plan_fits(plan, frames.len() as int),
        phase_distinct(plan[0]),
        phase_small(plan[0]),
        phase_ready(
            plan[0],
            first_stages(plan[0]),
            heights(rects),
            h as int,
            no_spare(plan[0].len()),
            0,
        ),
        forall|r: int| 0 <= r < frames.len() ==> in_phase(plan[0], r),
        phase_lands(
            frames,
            plan[0],
            heights(rects),
            heights(rects),
            canvas_place(at, w),
            0,
            w,
            first_widths(frames, plan[0]),
        ),
    ensures
        canvas_holds(frames, rects, at, w, joined(frames, plan)),
{
    let n = frames.len() as int;
    let start = start_state(frames);
    let rows = heights(rects);
    let land = canvas_place(at, w);
    lemma_start_measured(frames, rects);
    lemma_fill_whole(frames, rects);
    assert(phase_fits(plan[0], n));
    lemma_phase_begins(plan[0], rows, n);
    assert(row_base(0, w) == 0) by (nonlinear_arith);
    lemma_phase(frames, plan[0], first_stages(plan[0]), start, rows, h, no_spare(plan[0].len()));
    lemma_phase_lands(
        frames,
        plan[0],
        first_stages(plan[0]),
        start,
        rows,
        rows,
        rows,
        land,
        h,
        no_spare(plan[0].len()),
        0,
        0,
        w,
        first_widths(frames, plan[0]),
    );
    let after = run_phase(frames, plan[0], first_stages(plan[0]), start);
    let left = phase_left(frames, plan[0], first_stages(plan[0]), start, rows, h);
    assert(run_plan(frames, plan, 0, start) == run_plan(frames, plan, 1, after));
    assert(run_plan(frames, plan, 1, after) == after);
    assert forall|r: int| 0 <= r < n implies (#[trigger] left[r]) == 0 by {
        assert(in_phase(plan[0], r));
        let j = choose|j: int| 0 <= j < plan[0].len() && in_slot(#[trigger] plan[0][j], r);
        let (k, i) = choose|k: int, i: int|
            0 <= k < plan[0][j].len() && 0 <= i < plan[0][j][k].len() && (
            #[trigger] plan[0][j][k][i]) == r;
        assert(left[plan[0][j][k][i] as int] == 0);
    }
    assert forall|r: int, c: int| 0 <= r < frames.len() && 0 <= c < rects[r].1 implies landed(
        after.out,
        frames[r],
        c,
        #[trigger] land(r, c),
    ) by {
        assert(left[r] == 0);
        assert(rows[r] == rects[r].1);
    }
}

/// The rows of the layouts of one row of regions stand at their places.
proof fn lemma_canvas_plain(shape: FrameShape, w: int, h: int, frames: Seq<RawFrame>)
    requires
        shape == FrameShape::Mono || shape == FrameShape::Dual || shape == FrameShape::Triple,
        0 <= w,
        0 <= h,
        frames_fill(frames, partition(shape, w, h)),
    ensures
        canvas_holds(
            frames,
            partition(shape, w, h),
            placement(shape, w, h),
            w,
            joined(frames, shape.interleave_table()),
        ),
{
    let plan = shape.interleave_table();
    let rects = partition(shape, w, h);
    let at = placement(shape, w, h);
    shape.lemma_table_fits();
    lemma_all_in_phase(shape);
    reveal_with_fuel(tail_sum, 4);
    reveal_with_fuel(stage_start, 4);
    reveal_with_fuel(slot_offset, 4);
    reveal_with_fuel(stage_bytes, 3);
    assert(phase_distinct(plan[0]));
    assert(phase_small(plan[0]));
    assert(phase_ready(
        plan[0],
        first_stages(plan[0]),
        heights(rects),
        h,
        no_spare(plan[0].len()),
        0,
    ));
    assert(phase_lands(
        frames,
        plan[0],
        heights(rects),
        heights(rects),
        canvas_place(at, w),
        0,
        w,
        first_widths(frames, plan[0]),
    ));
    lemma_one_phase_canvas(frames, rects, plan, at, w, h as nat);
}

/// The rows of the layouts with a split middle column stand at their
/// places.
#[verifier::rlimit(100)]
proof fn lemma_canvas_horiz(shape: FrameShape, w: int, h: int, frames: Seq<RawFrame>)
    requires
        shape == FrameShape::HorizEmph || shape == FrameShape::HorizEmph2,
        0 <= w,
        0 <= h,
        frames_fill(frames, partition(shape, w, h)),
    ensures
        canvas_holds(
            frames,
            partition(shape, w, h),
            placement(shape, w, h),
            w,
            joined(frames, shape.interleave_table()),
        ),
{
    let plan = shape.interleave_table();
    let rects = partition(shape, w, h);
    let at = placement(shape, w, h);
    shape.lemma_table_fits();
    lemma_all_in_phase(shape);
    reveal_with_fuel(tail_sum, 4);
    reveal_with_fuel(stage_start, 4);
    reveal_with_fuel(slot_offset, 4);
    reveal_with_fuel(stage_bytes, 3);
    assert(phase_distinct(plan[0]));
    assert(phase_small(plan[0]));
    assert(phase_ready(
        plan[0],
        first_stages(plan[0]),
        heights(rects),
        h,
        no_spare(plan[0].len()),
        0,
    ));
    assert(phase_lands(
        frames,
        plan[0],
        heights(rects),
        heights(rects),
        canvas_place(at, w),
        0,
        w,
        first_widths(frames, plan[0]),
    ));
    lemma_one_phase_canvas(frames, rects, plan, at, w, h as nat);
}

/// The rows of the layouts with one split side column stand at their
/// places.
#[verifier::rlimit(100)]
proof fn lemma_canvas_side(shape: FrameShape, w: int, h: int, frames: Seq<RawFrame>)
    requires
        shape == FrameShape::SideVert || shape == FrameShape::SideVert2,
        0 <= w,
        0 <= h,
        frames_fill(frames, partition(shape, w, h)),
    ensures
        canvas_holds(
            frames,
            partition(shape, w, h),
            placement(shape, w, h),
            w,
            joined(frames, shape.interleave_table()),
        ),
{
    let plan = shape.interleave_table();
    let rects = partition(shape, w, h);
    let at = placement(shape, w, h);
    shape.lemma_table_fits();
    lemma_all_in_phase(shape);
    reveal_with_fuel(tail_sum, 4);
    reveal_with_fuel(stage_start, 4);
    reveal_with_fuel(slot_offset, 4);
    reveal_with_fuel(stage_bytes, 3);
    assert(phase_distinct(plan[0]));
    assert(phase_small(plan[0]));
    assert(phase_ready(
        plan[0],
        first_stages(plan[0]),
        heights(rects),
        h,
        no_spare(plan[0].len()),
        0,
    ));
    assert(phase_lands(
        frames,
        plan[0],
        heights(rects),
        heights(rects),
        canvas_place(at, w),
        0,
        w,
        first_widths(frames, plan[0]),
    ));
    lemma_one_phase_canvas(frames, rects, plan, at, w, h as nat);
}

/// The rows of the layouts with a pair of regions above or below the
/// centre stand at their places.
#[verifier::rlimit(100)]
proof fn lemma_canvas_centre(shape: FrameShape, w: int, h: int, frames: Seq<RawFrame>)
    requires
        shape == FrameShape::CentreEmphVert || shape == FrameShape::CentreEmphVert2,
        0 <= w,
        0 <= h,
        frames_fill(frames, partition(shape, w, h)),
    ensures
        canvas_holds(
            frames,
            partition(shape, w, h),
            placement(shape, w, h),
            w,
            joined(frames, shape.interleave_table()),
        ),
{
    let plan = shape.interleave_table();
    let rects = partition(shape, w, h);
    let at = placement(shape, w, h);
    shape.lemma_table_fits();
    lemma_all_in_phase(shape);
    reveal_with_fuel(tail_sum, 4);
    reveal_with_fuel(stage_start, 4);
    reveal_with_fuel(slot_offset, 4);
    reveal_with_fuel(stage_bytes, 3);
    assert(phase_distinct(plan[0]));
    assert(phase_small(plan[0]));
    assert(phase_ready(
        plan[0],
        first_stages(plan[0]),
        heights(rects),
        h,
        no_spare(plan[0].len()),
        0,
    ));
    assert(phase_lands(
        frames,
        plan[0],
        heights(rects),
        heights(rects),
        canvas_place(at, w),
        0,
        w,
        first_widths(frames, plan[0]),
    ));
    lemma_one_phase_canvas(frames, rects, plan, at, w, h as nat);
}

/// The rows of the layout of seven regions stand at their places.
#[verifier::rlimit(100)]
proof fn lemma_canvas_more(shape: FrameShape, w: int, h: int, frames: Seq<RawFrame>)
    requires
        shape == FrameShape::MoreHoriz,
        0 <= w,
        0 <= h,
        frames_fill(frames, partition(shape, w, h)),
    ensures
        canvas_holds(
            frames,
            partition(shape, w, h),
            placement(shape, w, h),
            w,
            joined(frames, shape.interleave_table()),
        ),
{
    let plan = shape.interleave_table();
    let rects = partition(shape, w, h);
    let at = placement(shape, w, h);
    shape.lemma_table_fits();
    lemma_all_in_phase(shape);
    reveal_with_fuel(tail_sum, 4);
    reveal_with_fuel(stage_start, 4);
    reveal_with_fuel(slot_offset, 4);
    reveal_with_fuel(stage_bytes, 3);
    assert(phase_distinct(plan[0]));
    assert(phase_small(plan[0]));
    assert(phase_ready(
        plan[0],
        first_stages(plan[0]),
        heights(rects),
        h,
        no_spare(plan[0].len()),
        0,
    ));
    assert(phase_lands(
        frames,
        plan[0],
        heights(rects),
        heights(rects),
        canvas_place(at, w),
        0,
        w,
        first_widths(frames, plan[0]),
    ));
    lemma_one_phase_canvas(frames, rects, plan, at, w, h as nat);
}

/// The rows of the layout of seven regions, turned upside down, stand at
/// their places.
#[verifier::rlimit(100)]
proof fn lemma_canvas_more_turned(shape: FrameShape, w: int, h: int, frames: Seq<RawFrame>)
    requires
        shape == FrameShape::MoreHoriz2,
        0 <= w,
        0 <= h,
        frames_fill(frames, partition(shape, w, h)),
    ensures
        canvas_holds(
            frames,
            partition(shape, w, h),
            placement(shape, w, h),
            w,
            joined(frames, shape.interleave_table()),
        ),
{
    let plan = shape.interleave_table();
    let rects = partition(shape, w, h);
    let at = placement(shape, w, h);
    shape.lemma_table_fits();
    lemma_all_in_phase(shape);
    reveal_with_fuel(tail_sum, 4);
    reveal_with_fuel(stage_start, 4);
    reveal_with_fuel(slot_offset, 4);
    reveal_with_fuel(stage_bytes, 3);
    assert(phase_distinct(plan[0]));
    assert(phase_small(plan[0]));
    assert(phase_ready(
        plan[0],
        first_stages(plan[0]),
        heights(rects),
        h,
        no_spare(plan[0].len()),
        0,
    ));
    assert(phase_lands(
        frames,
        plan[0],
        heights(rects),
        heights(rects),
        canvas_place(at, w),
        0,
        w,
        first_widths(frames, plan[0]),
    ));
    lemma_one_phase_canvas(frames, rects, plan, at, w, h as nat);
}

/// The rows of the layout of nine regions stand at their places.
#[verifier::rlimit(100)]
proof fn lemma_canvas_landscape(shape: FrameShape, w: int, h: int, frames: Seq<RawFrame>)
    requires
        shape == FrameShape::ExtendedLandscape,
        0 <= w,
        0 <= h,
        frames_fill(frames, partition(shape, w, h)),
    ensures
        canvas_holds(
            frames,
            partition(shape, w, h),
            placement(shape, w, h),
            w,
            joined(frames, shape.interleave_table()),
        ),
{
    let plan = shape.interleave_table();
    let rects = partition(shape, w, h);
    let at = placement(shape, w, h);
    shape.lemma_table_fits();
    lemma_all_in_phase(shape);
    reveal_with_fuel(tail_sum, 4);
    reveal_with_fuel(stage_start, 4);
    reveal_with_fuel(slot_offset, 4);
    reveal_with_fuel(stage_bytes, 3);
    assert(phase_distinct(plan[0]));
    assert(phase_small(plan[0]));
    assert(phase_ready(
        plan[0],
        first_stages(plan[0]),
        heights(rects),
        h,
        no_spare(plan[0].len()),
        0,
    ));
    assert(phase_lands(
        frames,
        plan[0],
        heights(rects),
        heights(rects),
        canvas_place(at, w),
        0,
        w,
        first_widths(frames, plan[0]),
    ));
    lemma_one_phase_canvas(frames, rects, plan, at, w, h as nat);
}

/// A layout of two phases, the second of which uses up what the first has
/// left, and whose rows land at their places: every row of every region
/// stands in the joined frame at the place of the region.
proof fn lemma_two_phases_canvas(
    frames: Seq<RawFrame>,
    rects: Seq<(int, int)>,
    plan: Seq<Seq<Seq<Seq<usize>>>>,
    at: Seq<(int, int)>,
    w: int,
    first: nat,
    spare: Seq<int>,
    second: nat,
)
    requires
        frames_fill(frames, rects),
        forall|i: int| 0 <= i < rects.len() ==> (#[trigger] rects[i]).1 >= 0,
        plan.len() == 2,
        plan_fits(plan, frames.len() as int),
        phase_distinct(plan[0]),
        phase_small(plan[0]),
        phase_distinct(plan[1]),
        phase_small(plan[1]),
        phase_ready(plan[0], first_stages(plan[0]), heights(rects), first as int, spare, 0),
        spare[0] == 0,
        phase_lands(
            frames,
            plan[0],
            heights(rects),
            heights(rects),
            canvas_place(at, w),
            0,
            w,
            first_widths(frames, plan[0]),
        ),
        forall|then: Seq<int>|
            #[trigger] after_phase(plan[0], heights(rects), spare, then) ==> {
                &&& phase_ready(
                    plan[1],
                    first_stages(plan[1]),
                    then,
                    second as int,
                    no_spare(plan[1].len()),
                    0,
                )
                &&& forall|r: int|
                    0 <= r < frames.len() && !in_phase(plan[1], r) ==> (#[trigger] then[r]) == 0
                &&& phase_lands(
                    frames,
                    plan[1],
                    then,
                    heights(rects),
                    canvas_place(at, w),
                    first as int,
                    w,
                    first_widths(frames, plan[1]),
                )
            },
    ensures
        canvas_holds(frames, rects, at, w, joined(frames, plan)),
{
    let n = frames.len() as int;
    let start = start_state(frames);
    let rows = heights(rects);
    let land = canvas_place(at, w);
    lemma_start_measured(frames, rects);
    lemma_fill_whole(frames, rects);
    assert(phase_fits(plan[0], n));
    assert(phase_fits(plan[1], n));
    lemma_phase_begins(plan[0], rows, n);
    assert(row_base(0, w) == 0) by (nonlinear_arith);
    lemma_phase(frames, plan[0], first_stages(plan[0]), start, rows, first, spare);
    lemma_phase_lands(
        frames,
        plan[0],
        first_stages(plan[0]),
        start,
        rows,
        rows,
        rows,
        land,
        first,
        spare,
        0,
        0,
        w,
        first_widths(frames, plan[0]),
    );
    let mid = run_phase(frames, plan[0], first_stages(plan[0]), start);
    let then = phase_left(frames, plan[0], first_stages(plan[0]), start, rows, first);
    assert(after_phase(plan[0], rows, spare, then));
    lemma_phase_begins(plan[1], then, n);
    lemma_phase(frames, plan[1], first_stages(plan[1]), mid, then, second, no_spare(plan[1].len()));
    lemma_phase_lands(
        frames,
        plan[1],
        first_stages(plan[1]),
        mid,
        then,
        then,
        rows,
        land,
        second,
        no_spare(plan[1].len()),
        0,
        first as int,
        w,
        first_widths(frames, plan[1]),
    );
    let after = run_phase(frames, plan[1], first_stages(plan[1]), mid);
    let left = phase_left(frames, plan[1], first_stages(plan[1]), mid, then, second);
    assert(run_plan(frames, plan, 0, start) == run_plan(frames, plan, 1, mid));
    assert(run_plan(frames, plan, 1, mid) == run_plan(frames, plan, 2, after));
    assert(run_plan(frames, plan, 2, after) == after);
    assert forall|r: int| 0 <= r < n implies (#[trigger] left[r]) == 0 by {
        if in_phase(plan[1], r) {
            let j = choose|j: int| 0 <= j < plan[1].len() && in_slot(#[trigger] plan[1][j], r);
            let (k, i) = choose|k: int, i: int|
                0 <= k < plan[1][j].len() && 0 <= i < plan[1][j][k].len() && (
                #[trigger] plan[1][j][k][i]) == r;
            assert(left[plan[1][j][k][i] as int] == 0);
        } else {
            assert(then[r] == 0);
        }
    }
    assert forall|r: int, c: int| 0 <= r < frames.len() && 0 <= c < rects[r].1 implies landed(
        after.out,
        frames[r],
        c,
        #[trigger] land(r, c),
    ) by {
        assert(left[r] == 0);
        assert(rows[r] == rects[r].1);
    }
}

/// The rows that the first phase of a layout of two phases leaves of
/// every region, on a canvas `h` pixels high.
pub open spec fn left_after_first(shape: FrameShape, h: int) -> Seq<int> {
    match shape {
        FrameShape::Quad => seq![0int, 0int, h - h / 2, h - h / 2],
        FrameShape::VertEmph | FrameShape::VertEmph2 => seq![
            h - h / 2,
            0int,
            0int,
            h - h / 2,
            h - h / 2,
        ],
        _ => Seq::empty(),
    }
}

/// The first phase of the layout of two rows of two regions: it is ready to run, and its rows land at
/// their places.
#[verifier::rlimit(100)]
proof fn lemma_canvas_quad_first(shape: FrameShape, w: int, h: int, frames: Seq<RawFrame>)
    requires
        shape == FrameShape::Quad,
        0 <= w,
        0 <= h,
        frames_fill(frames, partition(shape, w, h)),
    ensures
        phase_distinct(shape.interleave_table()[0]),
        phase_distinct(shape.interleave_table()[1]),
        phase_ready(
            shape.interleave_table()[0],
            first_stages(shape.interleave_table()[0]),
            heights(partition(shape, w, h)),
            h / 2,
            no_spare(2),
            0,
        ),
        phase_lands(
            frames,
            shape.interleave_table()[0],
            heights(partition(shape, w, h)),
            heights(partition(shape, w, h)),
            canvas_place(placement(shape, w, h), w),
            0,
            w,
            first_widths(frames, shape.interleave_table()[0]),
        ),
{
    let plan = shape.interleave_table();
    let rects = partition(shape, w, h);
    let at = placement(shape, w, h);
    shape.lemma_table_fits();
    reveal_with_fuel(tail_sum, 4);
    reveal_with_fuel(stage_start, 4);
    reveal_with_fuel(slot_offset, 4);
    reveal_with_fuel(stage_bytes, 3);
    assert(phase_distinct(plan[0]));
    assert(phase_distinct(plan[1]));
    assert(phase_ready(plan[0], first_stages(plan[0]), heights(rects), h / 2, no_spare(2), 0));
    assert forall|j: int| 0 <= j < plan[0].len() implies slot_lands(
        frames,
        #[trigger] plan[0][j],
        heights(rects),
        heights(rects),
        canvas_place(at, w),
        0,
        w,
        slot_offset(first_widths(frames, plan[0]), j),
        first_widths(frames, plan[0])[j],
    ) by {}
}

/// What the first phase leaves of every region.
proof fn lemma_canvas_quad_then(shape: FrameShape, w: int, h: int, then: Seq<int>)
    requires
        shape == FrameShape::Quad,
        0 <= w,
        0 <= h,
        after_phase(
            shape.interleave_table()[0],
            heights(partition(shape, w, h)),
            no_spare(2),
            then,
        ),
    ensures
        then == left_after_first(shape, h),
{
    let plan = shape.interleave_table();
    let rects = partition(shape, w, h);
    lemma_not_in_first(plan, 2);
    lemma_not_in_first(plan, 3);
    assert(then[2] == heights(rects)[2]);
    assert(then[3] == heights(rects)[3]);
    assert(then[plan[0][0][0][0] as int] == 0);
    assert(then[plan[0][1][0][0] as int] == 0);
    assert(then =~= left_after_first(shape, h));
}

/// The second phase, begun with what the first has left: it is ready to
/// run, uses up every region, and its rows land at their places.
#[verifier::rlimit(100)]
proof fn lemma_canvas_quad_second(shape: FrameShape, w: int, h: int, frames: Seq<RawFrame>)
    requires
        shape == FrameShape::Quad,
        0 <= w,
        0 <= h,
        frames_fill(frames, partition(shape, w, h)),
    ensures
        phase_ready(
            shape.interleave_table()[1],
            first_stages(shape.interleave_table()[1]),
            left_after_first(shape, h),
            h - h / 2,
            no_spare(shape.interleave_table()[1].len()),
            0,
        ),
        forall|r: int|
            0 <= r < frames.len() && !in_phase(shape.interleave_table()[1], r) ==> (
            #[trigger] left_after_first(shape, h)[r]) == 0,
        phase_lands(
            frames,
            shape.interleave_table()[1],
            left_after_first(shape, h),
            heights(partition(shape, w, h)),
            canvas_place(placement(shape, w, h), w),
            h / 2,
            w,
            first_widths(frames, shape.interleave_table()[1]),
        ),
{
    let plan = shape.interleave_table();
    let rects = partition(shape, w, h);
    let at = placement(shape, w, h);
    let then = left_after_first(shape, h);
    shape.lemma_table_fits();
    reveal_with_fuel(tail_sum, 4);
    reveal_with_fuel(stage_start, 4);
    reveal_with_fuel(slot_offset, 4);
    reveal_with_fuel(stage_bytes, 3);
    assert forall|r: int| 0 <= r < frames.len() && !in_phase(plan[1], r) implies (
    #[trigger] then[r]) == 0 by {
        assert forall|j: int| 0 <= j < plan[1].len() implies in_slot(
            #[trigger] plan[1][j],
            plan[1][j][0][0] as int,
        ) by {}
    }
}


/// The rows of the layout of two rows of two regions stand at their
/// places.
proof fn lemma_canvas_quad(shape: FrameShape, w: int, h: int, frames: Seq<RawFrame>)
    requires
        shape == FrameShape::Quad,
        0 <= w,
        0 <= h,
        frames_fill(frames, partition(shape, w, h)),
    ensures
        canvas_holds(
            frames,
            partition(shape, w, h),
            placement(shape, w, h),
            w,
            joined(frames, shape.interleave_table()),
        ),
{
    let plan = shape.interleave_table();
    let rects = partition(shape, w, h);
    let at = placement(shape, w, h);
    shape.lemma_table_fits();
    let spare = no_spare(2);
    lemma_canvas_quad_first(shape, w, h, frames);
    assert(phase_small(plan[0]));
    assert(phase_small(plan[1]));
    assert forall|then: Seq<int>| #[trigger]
        after_phase(plan[0], heights(rects), spare, then) implies phase_ready(
        plan[1],
        first_stages(plan[1]),
        then,
        h - h / 2,
        no_spare(plan[1].len()),
        0,
    ) && (forall|r: int| 0 <= r < frames.len() && !in_phase(plan[1], r) ==> (#[trigger] then[r])
        == 0) && phase_lands(
        frames,
        plan[1],
        then,
        heights(rects),
        canvas_place(at, w),
        h / 2,
        w,
        first_widths(frames, plan[1]),
    ) by {
        lemma_canvas_quad_then(shape, w, h, then);
        lemma_canvas_quad_second(shape, w, h, frames);
    }
    lemma_two_phases_canvas(frames, rects, plan, at, w, (h / 2) as nat, spare, (h - h / 2) as nat);
}

/// The first phase of the layouts with a centre column between two split side columns: it is ready to run, and its rows land at
/// their places.
#[verifier::rlimit(100)]
proof fn lemma_canvas_vert_first(shape: FrameShape, w: int, h: int, frames: Seq<RawFrame>)
    requires
        shape == FrameShape::VertEmph || shape == FrameShape::VertEmph2,
        0 <= w,
        0 <= h,
        frames_fill(frames, partition(shape, w, h)),
    ensures
        phase_distinct(shape.interleave_table()[0]),
        phase_distinct(shape.interleave_table()[1]),
        phase_ready(
            shape.interleave_table()[0],
            first_stages(shape.interleave_table()[0]),
            heights(partition(shape, w, h)),
            h / 2,
            seq![0int, h - h / 2, 0int],
            0,
        ),
        phase_lands(
            frames,
            shape.interleave_table()[0],
            heights(partition(shape, w, h)),
            heights(partition(shape, w, h)),
            canvas_place(placement(shape, w, h), w),
            0,
            w,
            first_widths(frames, shape.interleave_table()[0]),
        ),
{
    let plan = shape.interleave_table();
    let rects = partition(shape, w, h);
    let at = placement(shape, w, h);
    shape.lemma_table_fits();
    reveal_with_fuel(tail_sum, 4);
    reveal_with_fuel(stage_start, 4);
    reveal_with_fuel(slot_offset, 4);
    reveal_with_fuel(stage_bytes, 3);
    assert(phase_distinct(plan[0]));
    assert(phase_distinct(plan[1]));
    assert(phase_ready(plan[0], first_stages(plan[0]), heights(rects), h / 2, seq![0int, h - h / 2, 0int], 0));
    assert forall|j: int| 0 <= j < plan[0].len() implies slot_lands(
        frames,
        #[trigger] plan[0][j],
        heights(rects),
        heights(rects),
        canvas_place(at, w),
        0,
        w,
        slot_offset(first_widths(frames, plan[0]), j),
        first_widths(frames, plan[0])[j],
    ) by {}
}

/// What the first phase leaves of every region.
proof fn lemma_canvas_vert_then(shape: FrameShape, w: int, h: int, then: Seq<int>)
    requires
        shape == FrameShape::VertEmph || shape == FrameShape::VertEmph2,
        0 <= w,
        0 <= h,
        after_phase(
            shape.interleave_table()[0],
            heights(partition(shape, w, h)),
            seq![0int, h - h / 2, 0int],
            then,
        ),
    ensures
        then == left_after_first(shape, h),
{
    let plan = shape.interleave_table();
    let rects = partition(shape, w, h);
    lemma_not_in_first(plan, 3);
    lemma_not_in_first(plan, 4);
    assert(then[3] == heights(rects)[3]);
    assert(then[4] == heights(rects)[4]);
    assert(then[plan[0][0][0][0] as int] == 0);
    assert(then[plan[0][1][0][0] as int] == h - h / 2);
    assert(then[plan[0][2][0][0] as int] == 0);
    assert(then =~= left_after_first(shape, h));
}

/// The second phase, begun with what the first has left: it is ready to
/// run, uses up every region, and its rows land at their places.
#[verifier::rlimit(100)]
proof fn lemma_canvas_vert_second(shape: FrameShape, w: int, h: int, frames: Seq<RawFrame>)
    requires
        shape == FrameShape::VertEmph || shape == FrameShape::VertEmph2,
        0 <= w,
        0 <= h,
        frames_fill(frames, partition(shape, w, h)),
    ensures
        phase_ready(
            shape.interleave_table()[1],
            first_stages(shape.interleave_table()[1]),
            left_after_first(shape, h),
            h - h / 2,
            no_spare(shape.interleave_table()[1].len()),
            0,
        ),
        forall|r: int|
            0 <= r < frames.len() && !in_phase(shape.interleave_table()[1], r) ==> (
            #[trigger] left_after_first(shape, h)[r]) == 0,
        phase_lands(
            frames,
            shape.interleave_table()[1],
            left_after_first(shape, h),
            heights(partition(shape, w, h)),
            canvas_place(placement(shape, w, h), w),
            h / 2,
            w,
            first_widths(frames, shape.interleave_table()[1]),
        ),
{
    let plan = shape.interleave_table();
    let rects = partition(shape, w, h);
    let at = placement(shape, w, h);
    let then = left_after_first(shape, h);
    shape.lemma_table_fits();
    reveal_with_fuel(tail_sum, 4);
    reveal_with_fuel(stage_start, 4);
    reveal_with_fuel(slot_offset, 4);
    reveal_with_fuel(stage_bytes, 3);
    assert forall|r: int| 0 <= r < frames.len() && !in_phase(plan[1], r) implies (
    #[trigger] then[r]) == 0 by {
        assert forall|j: int| 0 <= j < plan[1].len() implies in_slot(
            #[trigger] plan[1][j],
            plan[1][j][0][0] as int,
        ) by {}
    }
}


/// The rows of the layouts with a centre column between two split side
/// columns stand at their places.
proof fn lemma_canvas_vert(shape: FrameShape, w: int, h: int, frames: Seq<RawFrame>)
    requires
        shape == FrameShape::VertEmph || shape == FrameShape::VertEmph2,
        0 <= w,
        0 <= h,
        frames_fill(frames, partition(shape, w, h)),
    ensures
        canvas_holds(
            frames,
            partition(shape, w, h),
            placement(shape, w, h),
            w,
            joined(frames, shape.interleave_table()),
        ),
{
    let plan = shape.interleave_table();
    let rects = partition(shape, w, h);
    let at = placement(shape, w, h);
    shape.lemma_table_fits();
    let spare = seq![0int, h - h / 2, 0int];
    lemma_canvas_vert_first(shape, w, h, frames);
    assert(phase_small(plan[0]));
    assert(phase_small(plan[1]));
    assert forall|then: Seq<int>| #[trigger]
        after_phase(plan[0], heights(rects), spare, then) implies phase_ready(
        plan[1],
        first_stages(plan[1]),
        then,
        h - h / 2,
        no_spare(plan[1].len()),
        0,
    ) && (forall|r: int| 0 <= r < frames.len() && !in_phase(plan[1], r) ==> (#[trigger] then[r])
        == 0) && phase_lands(
        frames,
        plan[1],
        then,
        heights(rects),
        canvas_place(at, w),
        h / 2,
        w,
        first_widths(frames, plan[1]),
    ) by {
        lemma_canvas_vert_then(shape, w, h, then);
        lemma_canvas_vert_second(shape, w, h, frames);
    }
    lemma_two_phases_canvas(frames, rects, plan, at, w, (h / 2) as nat, spare, (h - h / 2) as nat);
}

/// A region that the first phase of a plan of single regions does not
/// name stands outside that phase.
proof fn lemma_not_in_first(plan: Seq<Seq<Seq<Seq<usize>>>>, r: int)
    requires
        plan.len() > 0,
        forall|j: int, k: int, i: int|
            0 <= j < plan[0].len() && 0 <= k < plan[0][j].len() && 0 <= i < plan[0][j][k].len()
                ==> (#[trigger] plan[0][j][k][i]) != r,
    ensures
        !in_phase(plan[0], r),
{
    if in_phase(plan[0], r) {
        let j = choose|j: int| 0 <= j < plan[0].len() && in_slot(#[trigger] plan[0][j], r);
        let (k, i) = choose|k: int, i: int|
            0 <= k < plan[0][j].len() && 0 <= i < plan[0][j][k].len() && (
            #[trigger] plan[0][j][k][i]) == r;
    }
}

/// The canvas. Where every region brings a frame of the size of its
/// rectangle, at least one pixel wide, every row of every region stands in
/// the joined frame where the rectangle of the region lies on the canvas:
/// row `c` of region `r` begins at the byte of canvas row `y + c` and
/// canvas column `x`, for the corner `(x, y)` of the region.
pub proof fn lemma_canvas(shape: FrameShape, w: int, h: int, frames: Seq<RawFrame>, r: int, c: int)
    requires
        shape.has_interleave_rule(),
        0 <= w,
        0 <= h,
        frames_fill(frames, partition(shape, w, h)),
        0 <= r < frames.len(),
        0 <= c < partition(shape, w, h)[r].1,
    ensures
        landed(
            joined(frames, shape.interleave_table()),
            frames[r],
            c,
            row_base(placement(shape, w, h)[r].1 + c, w) + placement(shape, w, h)[r].0 * 3,
        ),
{
    match shape {
        FrameShape::Mono | FrameShape::Dual | FrameShape::Triple => {
            lemma_canvas_plain(shape, w, h, frames);
        },
        FrameShape::Quad => {
            lemma_canvas_quad(shape, w, h, frames);
        },
        FrameShape::VertEmph | FrameShape::VertEmph2 => {
            lemma_canvas_vert(shape, w, h, frames);
        },
        FrameShape::HorizEmph | FrameShape::HorizEmph2 => {
            lemma_canvas_horiz(shape, w, h, frames);
        },
        FrameShape::SideVert | FrameShape::SideVert2 => {
            lemma_canvas_side(shape, w, h, frames);
        },
        FrameShape::CentreEmphVert | FrameShape::CentreEmphVert2 => {
            lemma_canvas_centre(shape, w, h, frames);
        },
        FrameShape::MoreHoriz => {
            lemma_canvas_more(shape, w, h, frames);
        },
        FrameShape::MoreHoriz2 => {
            lemma_canvas_more_turned(shape, w, h, frames);
        },
        FrameShape::ExtendedLandscape => {
            lemma_canvas_landscape(shape, w, h, frames);
        },
        FrameShape::ExtendedLandscape2 | FrameShape::OffsetVH4x4 => {},
    }
    let at = placement(shape, w, h);
    assert(landed(
        joined(frames, shape.interleave_table()),
        frames[r],
        c,
        canvas_place(at, w)(r, c),
    ));
}

} // verus!
