//! The interleave engine: joins the current frame of every region into one
//! canvas frame, row chunk by row chunk, in the order the layout prescribes.
//!
//! A layout's order is a table of phases. A phase is a loop over canvas rows;
//! its slots are the columns of a row, visited left to right. A slot is a
//! stack of stages, which take turns top to bottom: once the regions of a
//! stage have run out of rows, the next stage of the slot feeds the column.

use vstd::prelude::*;
use crate::frame_shape::FrameShape;
use crate::video::VideoEditData;

verus! {

/// One decoded frame of one region: packed 24-bit RGB, row after row.
#[derive(Clone, Debug)]
pub struct RawFrame {
    pub width: u32,
    pub height: u32,
    pub data: Vec<u8>,
}

/// The regions read together in one turn of a slot.
pub type Stage = Vec<usize>;

/// The stages that feed one column of a row, in the order they take over.
pub type Slot = Vec<Stage>;

/// The slots of one row loop, left to right.
pub type Phase = Vec<Slot>;

/// The row loops of a layout, run one after another.
pub type Plan = Vec<Phase>;

/// Progress of a join: how many bytes of each region's frame are consumed,
/// and the canvas bytes written so far.
pub ghost struct JoinState {
    pub offsets: Seq<usize>,
    pub out: Seq<u8>,
}

/// Bytes in one row chunk of `frame`.
pub open spec fn chunk_len(frame: RawFrame) -> int {
    frame.width as int * 3
}

/// Whether `frame` still holds a whole row chunk at byte offset `offset`.
pub open spec fn has_chunk(frame: RawFrame, offset: usize) -> bool {
    offset as int + chunk_len(frame) <= frame.data@.len()
}

/// The state after the next row chunk of `region` is appended to the canvas.
pub open spec fn take_chunk(frames: Seq<RawFrame>, st: JoinState, region: int) -> JoinState {
    let offset = st.offsets[region] as int;
    let end = offset + chunk_len(frames[region]);
    JoinState {
        offsets: st.offsets.update(region, end as usize),
        out: st.out + frames[region].data@.subrange(offset, end),
    }
}

/// Reads one chunk from each of `regions[k..]`, in order. In the last stage
/// of a slot the first region without a chunk stops the read at once; in an
/// earlier stage the remaining regions are still read. The flag tells whether
/// some region had no chunk.
pub open spec fn read_stage(
    frames: Seq<RawFrame>,
    regions: Seq<usize>,
    k: int,
    last: bool,
    st: JoinState,
) -> (JoinState, bool)
    decreases regions.len() - k,
{
    if k < 0 || k >= regions.len() {
        (st, false)
    } else if has_chunk(frames[regions[k] as int], st.offsets[regions[k] as int]) {
        read_stage(frames, regions, k + 1, last, take_chunk(frames, st, regions[k] as int))
    } else if last {
        (st, true)
    } else {
        (read_stage(frames, regions, k + 1, last, st).0, true)
    }
}

/// One turn of a slot whose current stage is `cur`: the stage is read; where
/// it came up short and is not the last, the next stage takes over in the
/// same turn. Gives the state, the slot's stage afterwards, and whether the
/// last stage came up short, which ends the phase.
pub open spec fn run_slot(
    frames: Seq<RawFrame>,
    stages: Seq<Seq<usize>>,
    cur: int,
    st: JoinState,
) -> (JoinState, int, bool)
    decreases stages.len() - cur,
{
    if cur < 0 || cur >= stages.len() {
        (st, cur, true)
    } else {
        let last = cur + 1 == stages.len();
        let (after, short) = read_stage(frames, stages[cur], 0, last, st);
        if !short {
            (after, cur, false)
        } else if last {
            (after, cur, true)
        } else {
            run_slot(frames, stages, cur + 1, after)
        }
    }
}

/// One canvas row from slot `j` on: each slot takes its turn until one ends
/// the phase.
pub open spec fn run_row(
    frames: Seq<RawFrame>,
    slots: Seq<Seq<Seq<usize>>>,
    j: int,
    curs: Seq<usize>,
    st: JoinState,
) -> (JoinState, Seq<usize>, bool)
    decreases slots.len() - j,
{
    if j < 0 || j >= slots.len() {
        (st, curs, false)
    } else {
        let (after, cur, ended) = run_slot(frames, slots[j], curs[j] as int, st);
        let curs_after = curs.update(j, cur as usize);
        if ended {
            (after, curs_after, true)
        } else {
            run_row(frames, slots, j + 1, curs_after, after)
        }
    }
}

/// Bytes of the first `n` frames that are not consumed yet.
pub open spec fn pending(frames: Seq<RawFrame>, offsets: Seq<usize>, n: int) -> nat
    decreases n,
{
    if n <= 0 {
        0
    } else {
        let rest = frames[n - 1].data@.len() - offsets[n - 1];
        pending(frames, offsets, n - 1) + if rest > 0 {
            rest as nat
        } else {
            0
        }
    }
}

/// Runs canvas rows until a slot ends the phase.
pub open spec fn run_phase(
    frames: Seq<RawFrame>,
    slots: Seq<Seq<Seq<usize>>>,
    curs: Seq<usize>,
    st: JoinState,
) -> JoinState
    decreases pending(frames, st.offsets, frames.len() as int),
{
    let (after, curs_after, ended) = run_row(frames, slots, 0, curs, st);
    if ended || pending(frames, after.offsets, frames.len() as int) >= pending(
        frames,
        st.offsets,
        frames.len() as int,
    ) {
        after
    } else {
        run_phase(frames, slots, curs_after, after)
    }
}

/// Runs the phases `plan[p..]` one after another. The frames' offsets carry
/// over from phase to phase; every slot starts a phase at its first stage.
pub open spec fn run_plan(
    frames: Seq<RawFrame>,
    plan: Seq<Seq<Seq<Seq<usize>>>>,
    p: int,
    st: JoinState,
) -> JoinState
    decreases plan.len() - p,
{
    if p < 0 || p >= plan.len() {
        st
    } else {
        run_plan(
            frames,
            plan,
            p + 1,
            run_phase(frames, plan[p], first_stages(plan[p]), st),
        )
    }
}

/// The state in which nothing is consumed and nothing is written.
pub open spec fn start_state(frames: Seq<RawFrame>) -> JoinState {
    JoinState { offsets: Seq::new(frames.len(), |i: int| 0usize), out: Seq::empty() }
}

/// The canvas bytes that the plan makes of the frames.
pub open spec fn joined(frames: Seq<RawFrame>, plan: Seq<Seq<Seq<Seq<usize>>>>) -> Seq<u8> {
    run_plan(frames, plan, 0, start_state(frames)).out
}

/// Every frame has at least one pixel per row, so that a row chunk is not
/// empty.
pub open spec fn frames_chunkable(frames: Seq<RawFrame>) -> bool {
    forall|i: int| 0 <= i < frames.len() ==> (#[trigger] frames[i]).width > 0
}

/// No offset lies behind the end of its frame.
pub open spec fn offsets_fit(frames: Seq<RawFrame>, offsets: Seq<usize>) -> bool {
    &&& offsets.len() == frames.len()
    &&& forall|i: int| 0 <= i < frames.len() ==> (#[trigger] offsets[i]) <= frames[i].data@.len()
}

/// A stage names at least one region, and only regions below `n`.
pub open spec fn stage_fits(regions: Seq<usize>, n: int) -> bool {
    &&& regions.len() > 0
    &&& forall|k: int| 0 <= k < regions.len() ==> (#[trigger] regions[k]) < n
}

/// A slot has at least one stage, and each of them fits.
pub open spec fn slot_fits(stages: Seq<Seq<usize>>, n: int) -> bool {
    &&& stages.len() > 0
    &&& forall|k: int| 0 <= k < stages.len() ==> stage_fits(#[trigger] stages[k], n)
}

/// A phase has at least one slot, and each of them fits.
pub open spec fn phase_fits(slots: Seq<Seq<Seq<usize>>>, n: int) -> bool {
    &&& slots.len() > 0
    &&& forall|j: int| 0 <= j < slots.len() ==> slot_fits(#[trigger] slots[j], n)
}

/// Every phase of the plan fits `n` regions.
pub open spec fn plan_fits(plan: Seq<Seq<Seq<Seq<usize>>>>, n: int) -> bool {
    forall|p: int| 0 <= p < plan.len() ==> phase_fits(#[trigger] plan[p], n)
}

/// Region `r` stands in the table at phase `p`, slot `j`, stage `k`, place `i`.
pub open spec fn named_at(
    table: Seq<Seq<Seq<Seq<usize>>>>,
    p: int,
    j: int,
    k: int,
    i: int,
    r: int,
) -> bool {
    &&& 0 <= p < table.len()
    &&& 0 <= j < table[p].len()
    &&& 0 <= k < table[p][j].len()
    &&& 0 <= i < table[p][j][k].len()
    &&& table[p][j][k][i] == r
}

/// Region `r` occurs somewhere in the table.
pub open spec fn table_names(table: Seq<Seq<Seq<Seq<usize>>>>, r: int) -> bool {
    exists|p: int, j: int, k: int, i: int| named_at(table, p, j, k, i, r)
}

/// The state that the engine's two buffers stand for.
pub open spec fn state_of(offsets: Seq<usize>, out: Seq<u8>) -> JoinState {
    JoinState { offsets, out }
}

/// A `Vec<usize>` is its own deep view.
proof fn lemma_stage_view(regions: Stage)
    ensures
        regions.deep_view() == regions@,
{
    assert(regions.deep_view() =~= regions@);
}

/// The deep view of a slot lists the views of its stages.
proof fn lemma_slot_view(stages: Slot)
    ensures
        stages.deep_view().len() == stages@.len(),
        forall|k: int| 0 <= k < stages@.len() ==> (#[trigger] stages.deep_view()[k]) == stages@[k]@,
{
    assert forall|k: int| 0 <= k < stages@.len() implies (#[trigger] stages.deep_view()[k])
        == stages@[k]@ by {
        lemma_stage_view(stages@[k]);
    }
}

/// The deep view of a phase lists the deep views of its slots.
proof fn lemma_phase_view(slots: Phase)
    ensures
        slots.deep_view().len() == slots@.len(),
        forall|j: int|
            0 <= j < slots@.len() ==> (#[trigger] slots.deep_view()[j]) == slots@[j].deep_view(),
{
}

/// The deep view of a plan lists the deep views of its phases.
proof fn lemma_plan_view(plan: Plan)
    ensures
        plan.deep_view().len() == plan@.len(),
        forall|p: int|
            0 <= p < plan@.len() ==> (#[trigger] plan.deep_view()[p]) == plan@[p].deep_view(),
{
}

/// Appends the next row chunk of `region` to `out`, if the frame has one.
fn next_chunk(
    frames: &Vec<RawFrame>,
    region: usize,
    offsets: &mut Vec<usize>,
    out: &mut Vec<u8>,
) -> (got: bool)
    requires
        region < frames@.len(),
        frames_chunkable(frames@),
        offsets_fit(frames@, old(offsets)@),
    ensures
        got == has_chunk(frames@[region as int], old(offsets)@[region as int]),
        got ==> state_of(final(offsets)@, final(out)@) == take_chunk(
            frames@,
            state_of(old(offsets)@, old(out)@),
            region as int,
        ),
        !got ==> final(offsets)@ == old(offsets)@ && final(out)@ == old(out)@,
        offsets_fit(frames@, final(offsets)@),
{
    let frame = &frames[region];
    let offset = offsets[region];
    let rest = frame.data.len() - offset;
    let chunk = frame.width as u64 * 3;
    if chunk <= rest as u64 {
        let end = offset + chunk as usize;
        let ghost before = out@;
        out.extend_from_slice(vstd::slice::slice_subrange(frame.data.as_slice(), offset, end));
        offsets.set(region, end);
        proof {
            assert(out@ =~= before + frame.data@.subrange(offset as int, end as int));
        }
        true
    } else {
        false
    }
}

/// Reads one stage of a slot.
fn join_stage(
    frames: &Vec<RawFrame>,
    regions: &Stage,
    last: bool,
    offsets: &mut Vec<usize>,
    out: &mut Vec<u8>,
) -> (short: bool)
    requires
        frames_chunkable(frames@),
        offsets_fit(frames@, old(offsets)@),
        stage_fits(regions@, frames@.len() as int),
    ensures
        (state_of(final(offsets)@, final(out)@), short) == read_stage(
            frames@,
            regions@,
            0,
            last,
            state_of(old(offsets)@, old(out)@),
        ),
        offsets_fit(frames@, final(offsets)@),
{
    let mut short = false;
    let mut k: usize = 0;
    while k < regions.len()
        invariant
            k <= regions@.len(),
            frames_chunkable(frames@),
            offsets_fit(frames@, offsets@),
            stage_fits(regions@, frames@.len() as int),
            short ==> !last,
            read_stage(frames@, regions@, 0, last, state_of(old(offsets)@, old(out)@)) == (
                read_stage(frames@, regions@, k as int, last, state_of(offsets@, out@)).0,
                short || read_stage(frames@, regions@, k as int, last, state_of(offsets@, out@)).1,
            ),
        decreases regions@.len() - k,
    {
        let got = next_chunk(frames, regions[k], offsets, out);
        if !got {
            if last {
                return true;
            }
            short = true;
        }
        k += 1;
    }
    short
}

/// One turn of a slot.
fn join_slot(
    frames: &Vec<RawFrame>,
    stages: &Slot,
    cur: usize,
    offsets: &mut Vec<usize>,
    out: &mut Vec<u8>,
) -> (turn: (usize, bool))
    requires
        frames_chunkable(frames@),
        offsets_fit(frames@, old(offsets)@),
        slot_fits(stages.deep_view(), frames@.len() as int),
        cur < stages@.len(),
    ensures
        (state_of(final(offsets)@, final(out)@), turn.0 as int, turn.1) == run_slot(
            frames@,
            stages.deep_view(),
            cur as int,
            state_of(old(offsets)@, old(out)@),
        ),
        turn.0 < stages@.len(),
        offsets_fit(frames@, final(offsets)@),
{
    proof {
        lemma_slot_view(*stages);
    }
    let ghost start = state_of(offsets@, out@);
    let mut at = cur;
    loop
        invariant
            at < stages@.len(),
            start == state_of(old(offsets)@, old(out)@),
            frames_chunkable(frames@),
            offsets_fit(frames@, offsets@),
            slot_fits(stages.deep_view(), frames@.len() as int),
            stages.deep_view().len() == stages@.len(),
            forall|k: int| 0 <= k < stages@.len() ==> (#[trigger] stages.deep_view()[k]) == stages@[k]@,
            run_slot(frames@, stages.deep_view(), cur as int, start) == run_slot(
                frames@,
                stages.deep_view(),
                at as int,
                state_of(offsets@, out@),
            ),
        decreases stages@.len() - at,
    {
        let last = at == stages.len() - 1;
        let ghost before = state_of(offsets@, out@);
        let short = join_stage(frames, &stages[at], last, offsets, out);
        proof {
            assert(stages.deep_view()[at as int] == stages@[at as int]@);
            assert(read_stage(frames@, stages.deep_view()[at as int], 0, last, before) == (
                state_of(offsets@, out@),
                short,
            ));
        }
        if !short {
            return (at, false);
        }
        if last {
            return (at, true);
        }
        at += 1;
    }
}

/// The bytes written and the bytes pending, together: a join moves bytes
/// from the frames to the canvas, so the sum stays as it is.
pub open spec fn unread(frames: Seq<RawFrame>, st: JoinState) -> int {
    (st.out.len() + pending(frames, st.offsets, frames.len() as int)) as int
}

/// Moving one offset forward inside its frame lowers the pending bytes by
/// as much.
pub(crate) proof fn lemma_pending_update(frames: Seq<RawFrame>, offsets: Seq<usize>, r: int, end: usize, n: int)
    requires
        offsets_fit(frames, offsets),
        0 <= r < frames.len(),
        0 <= n <= frames.len(),
        offsets[r] <= end <= frames[r].data@.len(),
    ensures
        pending(frames, offsets.update(r, end), n) == if r < n {
            pending(frames, offsets, n) - (end - offsets[r])
        } else {
            pending(frames, offsets, n) as int
        },
    decreases n,
{
    if n > 0 {
        lemma_pending_update(frames, offsets, r, end, n - 1);
    }
}

/// Taking a chunk keeps the offsets inside their frames and lowers the
/// pending bytes.
pub(crate) proof fn lemma_take_chunk(frames: Seq<RawFrame>, st: JoinState, r: int)
    requires
        frames_chunkable(frames),
        offsets_fit(frames, st.offsets),
        0 <= r < frames.len(),
        has_chunk(frames[r], st.offsets[r]),
    ensures
        offsets_fit(frames, take_chunk(frames, st, r).offsets),
        pending(frames, take_chunk(frames, st, r).offsets, frames.len() as int) < pending(
            frames,
            st.offsets,
            frames.len() as int,
        ),
        unread(frames, take_chunk(frames, st, r)) == unread(frames, st),
{
    assert(frames[r].data.len() == frames[r].data@.len());
    let end = (st.offsets[r] + chunk_len(frames[r])) as usize;
    lemma_pending_update(frames, st.offsets, r, end, frames.len() as int);
}

/// Reading a stage never raises the pending bytes, and lowers them where a
/// region was read and none came up short.
pub(crate) proof fn lemma_read_stage(frames: Seq<RawFrame>, regions: Seq<usize>, k: int, last: bool, st: JoinState)
    requires
        frames_chunkable(frames),
        offsets_fit(frames, st.offsets),
        stage_fits(regions, frames.len() as int),
        0 <= k <= regions.len(),
    ensures
        offsets_fit(frames, read_stage(frames, regions, k, last, st).0.offsets),
        pending(frames, read_stage(frames, regions, k, last, st).0.offsets, frames.len() as int)
            <= pending(frames, st.offsets, frames.len() as int),
        k < regions.len() && !read_stage(frames, regions, k, last, st).1 ==> pending(
            frames,
            read_stage(frames, regions, k, last, st).0.offsets,
            frames.len() as int,
        ) < pending(frames, st.offsets, frames.len() as int),
        unread(frames, read_stage(frames, regions, k, last, st).0) == unread(frames, st),
    decreases regions.len() - k,
{
    if k < regions.len() {
        let r = regions[k] as int;
        if has_chunk(frames[r], st.offsets[r]) {
            lemma_take_chunk(frames, st, r);
            lemma_read_stage(frames, regions, k + 1, last, take_chunk(frames, st, r));
        } else if !last {
            lemma_read_stage(frames, regions, k + 1, last, st);
        }
    }
}

/// A turn of a slot never raises the pending bytes, and lowers them unless
/// it ends the phase.
pub(crate) proof fn lemma_run_slot(frames: Seq<RawFrame>, stages: Seq<Seq<usize>>, cur: int, st: JoinState)
    requires
        frames_chunkable(frames),
        offsets_fit(frames, st.offsets),
        slot_fits(stages, frames.len() as int),
        0 <= cur < stages.len(),
    ensures
        offsets_fit(frames, run_slot(frames, stages, cur, st).0.offsets),
        cur <= run_slot(frames, stages, cur, st).1 < stages.len(),
        pending(frames, run_slot(frames, stages, cur, st).0.offsets, frames.len() as int)
            <= pending(frames, st.offsets, frames.len() as int),
        !run_slot(frames, stages, cur, st).2 ==> pending(
            frames,
            run_slot(frames, stages, cur, st).0.offsets,
            frames.len() as int,
        ) < pending(frames, st.offsets, frames.len() as int),
        unread(frames, run_slot(frames, stages, cur, st).0) == unread(frames, st),
    decreases stages.len() - cur,
{
    let last = cur + 1 == stages.len();
    lemma_read_stage(frames, stages[cur], 0, last, st);
    let (after, short) = read_stage(frames, stages[cur], 0, last, st);
    if short && !last {
        lemma_run_slot(frames, stages, cur + 1, after);
    }
}

/// The stage of every slot lies inside the slot.
pub open spec fn curs_fit(slots: Seq<Seq<Seq<usize>>>, curs: Seq<usize>) -> bool {
    &&& curs.len() == slots.len()
    &&& forall|j: int| 0 <= j < slots.len() ==> (#[trigger] curs[j]) < slots[j].len()
}

/// A row never raises the pending bytes, and lowers them unless it ends the
/// phase.
pub(crate) proof fn lemma_run_row(
    frames: Seq<RawFrame>,
    slots: Seq<Seq<Seq<usize>>>,
    j: int,
    curs: Seq<usize>,
    st: JoinState,
)
    requires
        frames_chunkable(frames),
        offsets_fit(frames, st.offsets),
        phase_fits(slots, frames.len() as int),
        curs_fit(slots, curs),
        0 <= j <= slots.len(),
    ensures
        offsets_fit(frames, run_row(frames, slots, j, curs, st).0.offsets),
        curs_fit(slots, run_row(frames, slots, j, curs, st).1),
        pending(frames, run_row(frames, slots, j, curs, st).0.offsets, frames.len() as int)
            <= pending(frames, st.offsets, frames.len() as int),
        j < slots.len() && !run_row(frames, slots, j, curs, st).2 ==> pending(
            frames,
            run_row(frames, slots, j, curs, st).0.offsets,
            frames.len() as int,
        ) < pending(frames, st.offsets, frames.len() as int),
        unread(frames, run_row(frames, slots, j, curs, st).0) == unread(frames, st),
    decreases slots.len() - j,
{
    if j < slots.len() {
        lemma_run_slot(frames, slots[j], curs[j] as int, st);
        let (after, cur, ended) = run_slot(frames, slots[j], curs[j] as int, st);
        let curs_after = curs.update(j, cur as usize);
        assert(curs_fit(slots, curs_after));
        if !ended {
            lemma_run_row(frames, slots, j + 1, curs_after, after);
        }
    }
}

/// A phase keeps the offsets inside their frames, and the sum of the bytes
/// written and pending.
pub(crate) proof fn lemma_run_phase(
    frames: Seq<RawFrame>,
    slots: Seq<Seq<Seq<usize>>>,
    curs: Seq<usize>,
    st: JoinState,
)
    requires
        frames_chunkable(frames),
        offsets_fit(frames, st.offsets),
        phase_fits(slots, frames.len() as int),
        curs_fit(slots, curs),
    ensures
        offsets_fit(frames, run_phase(frames, slots, curs, st).offsets),
        unread(frames, run_phase(frames, slots, curs, st)) == unread(frames, st),
    decreases pending(frames, st.offsets, frames.len() as int),
{
    lemma_run_row(frames, slots, 0, curs, st);
    let (after, curs_after, ended) = run_row(frames, slots, 0, curs, st);
    if !(ended || pending(frames, after.offsets, frames.len() as int) >= pending(
        frames,
        st.offsets,
        frames.len() as int,
    )) {
        lemma_run_phase(frames, slots, curs_after, after);
    }
}

/// A plan keeps the offsets inside their frames, and the sum of the bytes
/// written and pending.
pub(crate) proof fn lemma_run_plan(
    frames: Seq<RawFrame>,
    plan: Seq<Seq<Seq<Seq<usize>>>>,
    p: int,
    st: JoinState,
)
    requires
        frames_chunkable(frames),
        offsets_fit(frames, st.offsets),
        plan_fits(plan, frames.len() as int),
        0 <= p <= plan.len(),
    ensures
        offsets_fit(frames, run_plan(frames, plan, p, st).offsets),
        unread(frames, run_plan(frames, plan, p, st)) == unread(frames, st),
    decreases plan.len() - p,
{
    if p < plan.len() {
        assert(phase_fits(plan[p], frames.len() as int));
        assert(curs_fit(plan[p], first_stages(plan[p])));
        lemma_run_phase(frames, plan[p], first_stages(plan[p]), st);
        lemma_run_plan(
            frames,
            plan,
            p + 1,
            run_phase(frames, plan[p], first_stages(plan[p]), st),
        );
    }
}

/// One canvas row.
fn join_row(
    frames: &Vec<RawFrame>,
    slots: &Phase,
    curs: &mut Vec<usize>,
    offsets: &mut Vec<usize>,
    out: &mut Vec<u8>,
) -> (ended: bool)
    requires
        frames_chunkable(frames@),
        offsets_fit(frames@, old(offsets)@),
        phase_fits(slots.deep_view(), frames@.len() as int),
        curs_fit(slots.deep_view(), old(curs)@),
    ensures
        (state_of(final(offsets)@, final(out)@), final(curs)@, ended) == run_row(
            frames@,
            slots.deep_view(),
            0,
            old(curs)@,
            state_of(old(offsets)@, old(out)@),
        ),
        offsets_fit(frames@, final(offsets)@),
        curs_fit(slots.deep_view(), final(curs)@),
{
    proof {
        lemma_phase_view(*slots);
    }
    let ghost start = state_of(offsets@, out@);
    let ghost start_curs = curs@;
    let mut j: usize = 0;
    while j < slots.len()
        invariant
            j <= slots@.len(),
            start == state_of(old(offsets)@, old(out)@),
            start_curs == old(curs)@,
            frames_chunkable(frames@),
            offsets_fit(frames@, offsets@),
            phase_fits(slots.deep_view(), frames@.len() as int),
            curs_fit(slots.deep_view(), curs@),
            slots.deep_view().len() == slots@.len(),
            forall|i: int|
                0 <= i < slots@.len() ==> (#[trigger] slots.deep_view()[i]) == slots@[i].deep_view(),
            run_row(frames@, slots.deep_view(), 0, start_curs, start) == run_row(
                frames@,
                slots.deep_view(),
                j as int,
                curs@,
                state_of(offsets@, out@),
            ),
        decreases slots@.len() - j,
    {
        let ghost before = state_of(offsets@, out@);
        let ghost curs_before = curs@;
        proof {
            assert(slots.deep_view()[j as int] == slots@[j as int].deep_view());
            assert(slot_fits(slots.deep_view()[j as int], frames@.len() as int));
            assert(curs@[j as int] < slots.deep_view()[j as int].len());
            lemma_slot_view(slots@[j as int]);
        }
        let (cur, ended) = join_slot(frames, &slots[j], curs[j], offsets, out);
        curs.set(j, cur);
        proof {
            assert(run_slot(frames@, slots.deep_view()[j as int], curs_before[j as int] as int, before)
                == (state_of(offsets@, out@), cur as int, ended));
            assert(curs@ == curs_before.update(j as int, cur));
        }
        if ended {
            return true;
        }
        j += 1;
    }
    false
}

/// The stages at which the slots of a phase start: the first of each.
pub open spec fn first_stages(slots: Seq<Seq<Seq<usize>>>) -> Seq<usize> {
    Seq::new(slots.len(), |i: int| 0usize)
}

/// One phase: canvas rows until a slot ends it.
fn join_phase(frames: &Vec<RawFrame>, slots: &Phase, offsets: &mut Vec<usize>, out: &mut Vec<u8>)
    requires
        frames_chunkable(frames@),
        offsets_fit(frames@, old(offsets)@),
        phase_fits(slots.deep_view(), frames@.len() as int),
    ensures
        state_of(final(offsets)@, final(out)@) == run_phase(
            frames@,
            slots.deep_view(),
            first_stages(slots.deep_view()),
            state_of(old(offsets)@, old(out)@),
        ),
        offsets_fit(frames@, final(offsets)@),
{
    proof {
        lemma_phase_view(*slots);
    }
    let mut curs: Vec<usize> = Vec::new();
    let mut j: usize = 0;
    while j < slots.len()
        invariant
            j <= slots@.len(),
            curs@.len() == j,
            forall|i: int| 0 <= i < j ==> curs@[i] == 0,
        decreases slots@.len() - j,
    {
        curs.push(0);
        j += 1;
    }
    assert(curs@ =~= first_stages(slots.deep_view()));
    let ghost start = state_of(offsets@, out@);
    let ghost start_curs = curs@;
    loop
        invariant
            start == state_of(old(offsets)@, old(out)@),
            start_curs == first_stages(slots.deep_view()),
            frames_chunkable(frames@),
            offsets_fit(frames@, offsets@),
            phase_fits(slots.deep_view(), frames@.len() as int),
            curs_fit(slots.deep_view(), curs@),
            run_phase(frames@, slots.deep_view(), start_curs, start) == run_phase(
                frames@,
                slots.deep_view(),
                curs@,
                state_of(offsets@, out@),
            ),
        decreases pending(frames@, offsets@, frames@.len() as int),
    {
        let ghost before = state_of(offsets@, out@);
        let ghost curs_before = curs@;
        let ended = join_row(frames, slots, &mut curs, offsets, out);
        proof {
            lemma_run_row(frames@, slots.deep_view(), 0, curs_before, before);
        }
        if ended {
            return ;
        }
    }
}

/// Joins the frames in the order of `plan`: the canvas bytes, row chunk by
/// row chunk. Room for `capacity` bytes is set aside beforehand.
pub fn interleave(frames: &Vec<RawFrame>, plan: &Plan, capacity: usize) -> (out: Vec<u8>)
    requires
        frames_chunkable(frames@),
        plan_fits(plan.deep_view(), frames@.len() as int),
        capacity <= usize::MAX / 2,
    ensures
        out@ == joined(frames@, plan.deep_view()),
{
    proof {
        lemma_plan_view(*plan);
    }
    let mut out: Vec<u8> = Vec::with_capacity(capacity);
    let mut offsets: Vec<usize> = Vec::new();
    let mut i: usize = 0;
    while i < frames.len()
        invariant
            i <= frames@.len(),
            offsets@.len() == i,
            forall|r: int| 0 <= r < i ==> offsets@[r] == 0,
        decreases frames@.len() - i,
    {
        offsets.push(0);
        i += 1;
    }
    assert(offsets@ =~= start_state(frames@).offsets);
    assert(out@ =~= start_state(frames@).out);
    let mut p: usize = 0;
    while p < plan.len()
        invariant
            p <= plan@.len(),
            frames_chunkable(frames@),
            offsets_fit(frames@, offsets@),
            plan_fits(plan.deep_view(), frames@.len() as int),
            plan.deep_view().len() == plan@.len(),
            forall|q: int| 0 <= q < plan@.len() ==> (#[trigger] plan.deep_view()[q]) == plan@[q].deep_view(),
            run_plan(frames@, plan.deep_view(), 0, start_state(frames@)) == run_plan(
                frames@,
                plan.deep_view(),
                p as int,
                state_of(offsets@, out@),
            ),
        decreases plan@.len() - p,
    {
        proof {
            assert(plan.deep_view()[p as int] == plan@[p as int].deep_view());
            assert(phase_fits(plan.deep_view()[p as int], frames@.len() as int));
        }
        join_phase(frames, &plan[p], &mut offsets, &mut out);
        p += 1;
    }
    out
}

impl FrameShape {
    /// The order in which the layout visits its regions: phases of slots of
    /// stages of regions. Empty for a layout that has no interleave rule.
    pub open spec fn interleave_table(self) -> Seq<Seq<Seq<Seq<usize>>>> {
        match self {
            FrameShape::Mono => seq![seq![seq![seq![0usize]]]],
            FrameShape::Dual => seq![seq![seq![seq![0usize]], seq![seq![1usize]]]],
            FrameShape::Triple => seq![
                seq![seq![seq![0usize]], seq![seq![1usize]], seq![seq![2usize]]],
            ],
            FrameShape::Quad => seq![
                seq![seq![seq![0usize]], seq![seq![1usize]]],
                seq![seq![seq![2usize]], seq![seq![3usize]]],
            ],
            FrameShape::VertEmph | FrameShape::VertEmph2 => seq![
                seq![seq![seq![1usize]], seq![seq![0usize]], seq![seq![2usize]]],
                seq![seq![seq![3usize]], seq![seq![0usize]], seq![seq![4usize]]],
            ],
            FrameShape::HorizEmph | FrameShape::HorizEmph2 => seq![
                seq![seq![seq![0usize]], seq![seq![1usize], seq![2usize]], seq![seq![3usize]]],
            ],
            FrameShape::SideVert => seq![
                seq![seq![seq![0usize]], seq![seq![1usize], seq![2usize]]],
            ],
            FrameShape::SideVert2 => seq![
                seq![seq![seq![1usize], seq![2usize]], seq![seq![0usize]]],
            ],
            FrameShape::CentreEmphVert => seq![
                seq![
                    seq![seq![1usize]],
                    seq![seq![0usize], seq![3usize, 4usize]],
                    seq![seq![2usize]],
                ],
            ],
            FrameShape::CentreEmphVert2 => seq![
                seq![
                    seq![seq![1usize]],
                    seq![seq![3usize, 4usize], seq![0usize]],
                    seq![seq![2usize]],
                ],
            ],
            FrameShape::MoreHoriz => seq![
                seq![
                    seq![seq![5usize], seq![1usize]],
                    seq![seq![0usize], seq![3usize, 4usize]],
                    seq![seq![6usize], seq![2usize]],
                ],
            ],
            FrameShape::MoreHoriz2 => seq![
                seq![
                    seq![seq![1usize], seq![5usize]],
                    seq![seq![3usize, 4usize], seq![0usize]],
                    seq![seq![2usize], seq![6usize]],
                ],
            ],
            FrameShape::ExtendedLandscape => seq![
                seq![
                    seq![seq![3usize], seq![5usize], seq![7usize]],
                    seq![seq![0usize], seq![1usize, 2usize]],
                    seq![seq![4usize], seq![6usize], seq![8usize]],
                ],
            ],
            FrameShape::ExtendedLandscape2 | FrameShape::OffsetVH4x4 => seq![],
        }
    }

    /// Whether the layout has an interleave rule.
    pub open spec fn has_interleave_rule(self) -> bool {
        self != FrameShape::ExtendedLandscape2 && self != FrameShape::OffsetVH4x4
    }

    /// Whether the engine can join `frames` for this layout: the layout has
    /// an interleave rule, there is one frame per region, and no frame is
    /// zero pixels wide.
    pub open spec fn joinable(self, frames: Seq<RawFrame>) -> bool {
        &&& self.has_interleave_rule()
        &&& frames.len() == self.region_count()
        &&& frames_chunkable(frames)
    }

    /// Tests whether `frame_joiner` accepts `frames`.
    pub fn can_join(&self, frames: &Vec<RawFrame>) -> (ok: bool)
        ensures
            ok == self.joinable(frames@),
    {
        if matches!(self, FrameShape::ExtendedLandscape2 | FrameShape::OffsetVH4x4) {
            return false;
        }
        if frames.len() != self.count() as usize {
            return false;
        }
        let mut i: usize = 0;
        while i < frames.len()
            invariant
                i <= frames@.len(),
                forall|k: int| 0 <= k < i ==> (#[trigger] frames@[k]).width > 0,
            decreases frames@.len() - i,
        {
            if frames[i].width == 0 {
                return false;
            }
            i += 1;
        }
        true
    }

    /// Joins one frame per region into one canvas frame: the row chunks of
    /// the regions, in the layout's visiting order. A phase stops at the
    /// first region that has no row left where one is required.
    pub fn frame_joiner(&self, frames: Vec<RawFrame>, out_sh: &VideoEditData) -> (out: Vec<u8>)
        requires
            self.joinable(frames@),
        ensures
            out@ == joined(frames@, self.interleave_table()),
    {
        let capacity: usize = match (out_sh.output_height as usize).checked_mul(
            out_sh.output_width as usize,
        ) {
            Some(area) => match area.checked_mul(3) {
                Some(bytes) => if bytes <= usize::MAX / 2 {
                    bytes
                } else {
                    0
                },
                None => 0,
            },
            None => 0,
        };
        let plan = self.interleave_plan();
        proof {
            self.lemma_table_fits();
        }
        interleave(&frames, &plan, capacity)
    }

    /// The interleave table names exactly the regions of the layout: every
    /// index in it lies below the region count, and every region of the
    /// layout occurs in it.
    pub proof fn lemma_table_fits(self)
        ensures
            plan_fits(self.interleave_table(), self.region_count() as int),
            self.has_interleave_rule() ==> forall|r: int|
                0 <= r < self.region_count() ==> table_names(self.interleave_table(), r),
    {
        let table = self.interleave_table();
        let n = self.region_count() as int;
        assert forall|p: int| 0 <= p < table.len() implies phase_fits(#[trigger] table[p], n) by {
            assert forall|j: int| 0 <= j < table[p].len() implies slot_fits(
                #[trigger] table[p][j],
                n,
            ) by {
                assert forall|k: int| 0 <= k < table[p][j].len() implies stage_fits(
                    #[trigger] table[p][j][k],
                    n,
                ) by {}
            }
        }
        if self.has_interleave_rule() {
            assert forall|r: int| 0 <= r < n implies table_names(table, r) by {
                self.lemma_region_named(r);
            }
        }
    }

    /// Where region `r` stands in the interleave table.
    proof fn lemma_region_named(self, r: int)
        requires
            self.has_interleave_rule(),
            0 <= r < self.region_count(),
        ensures
            table_names(self.interleave_table(), r),
    {
        let t = self.interleave_table();
        let (p, j, k, i): (int, int, int, int) = match self {
            FrameShape::Mono => (0, 0, 0, 0),
            FrameShape::Dual | FrameShape::Triple => (0, r, 0, 0),
            FrameShape::Quad => (r / 2, r % 2, 0, 0),
            FrameShape::VertEmph | FrameShape::VertEmph2 => if r == 0 {
                (0, 1, 0, 0)
            } else if r == 1 {
                (0, 0, 0, 0)
            } else if r == 2 {
                (0, 2, 0, 0)
            } else if r == 3 {
                (1, 0, 0, 0)
            } else {
                (1, 2, 0, 0)
            },
            FrameShape::HorizEmph | FrameShape::HorizEmph2 => if r == 0 {
                (0, 0, 0, 0)
            } else if r == 1 {
                (0, 1, 0, 0)
            } else if r == 2 {
                (0, 1, 1, 0)
            } else {
                (0, 2, 0, 0)
            },
            FrameShape::SideVert => if r == 0 {
                (0, 0, 0, 0)
            } else {
                (0, 1, r - 1, 0)
            },
            FrameShape::SideVert2 => if r == 0 {
                (0, 1, 0, 0)
            } else {
                (0, 0, r - 1, 0)
            },
            FrameShape::CentreEmphVert => if r == 0 {
                (0, 1, 0, 0)
            } else if r == 1 {
                (0, 0, 0, 0)
            } else if r == 2 {
                (0, 2, 0, 0)
            } else {
                (0, 1, 1, r - 3)
            },
            FrameShape::CentreEmphVert2 => if r == 0 {
                (0, 1, 1, 0)
            } else if r == 1 {
                (0, 0, 0, 0)
            } else if r == 2 {
                (0, 2, 0, 0)
            } else {
                (0, 1, 0, r - 3)
            },
            FrameShape::MoreHoriz => if r == 0 {
                (0, 1, 0, 0)
            } else if r == 1 {
                (0, 0, 1, 0)
            } else if r == 2 {
                (0, 2, 1, 0)
            } else if r == 3 || r == 4 {
                (0, 1, 1, r - 3)
            } else if r == 5 {
                (0, 0, 0, 0)
            } else {
                (0, 2, 0, 0)
            },
            FrameShape::MoreHoriz2 => if r == 0 {
                (0, 1, 1, 0)
            } else if r == 1 {
                (0, 0, 0, 0)
            } else if r == 2 {
                (0, 2, 0, 0)
            } else if r == 3 || r == 4 {
                (0, 1, 0, r - 3)
            } else if r == 5 {
                (0, 0, 1, 0)
            } else {
                (0, 2, 1, 0)
            },
            FrameShape::ExtendedLandscape => if r == 0 {
                (0, 1, 0, 0)
            } else if r == 1 || r == 2 {
                (0, 1, 1, r - 1)
            } else if r % 2 == 1 {
                (0, 0, (r - 3) / 2, 0)
            } else {
                (0, 2, (r - 4) / 2, 0)
            },
            FrameShape::ExtendedLandscape2 | FrameShape::OffsetVH4x4 => (0, 0, 0, 0),
        };
        assert(named_at(t, p, j, k, i, r));
    }

    /// The layout's visiting order as a table that the engine runs.
    pub fn interleave_plan(&self) -> (plan: Plan)
        ensures
            plan.deep_view() == self.interleave_table(),
    {
        let plan: Plan = match self {
            FrameShape::Mono => vec![vec![vec![vec![0]]]],
            FrameShape::Dual => vec![vec![vec![vec![0]], vec![vec![1]]]],
            FrameShape::Triple => vec![vec![vec![vec![0]], vec![vec![1]], vec![vec![2]]]],
            FrameShape::Quad => vec![
                vec![vec![vec![0]], vec![vec![1]]],
                vec![vec![vec![2]], vec![vec![3]]],
            ],
            FrameShape::VertEmph | FrameShape::VertEmph2 => vec![
                vec![vec![vec![1]], vec![vec![0]], vec![vec![2]]],
                vec![vec![vec![3]], vec![vec![0]], vec![vec![4]]],
            ],
            FrameShape::HorizEmph | FrameShape::HorizEmph2 => vec![
                vec![vec![vec![0]], vec![vec![1], vec![2]], vec![vec![3]]],
            ],
            FrameShape::SideVert => vec![vec![vec![vec![0]], vec![vec![1], vec![2]]]],
            FrameShape::SideVert2 => vec![vec![vec![vec![1], vec![2]], vec![vec![0]]]],
            FrameShape::CentreEmphVert => vec![
                vec![vec![vec![1]], vec![vec![0], vec![3, 4]], vec![vec![2]]],
            ],
            FrameShape::CentreEmphVert2 => vec![
                vec![vec![vec![1]], vec![vec![3, 4], vec![0]], vec![vec![2]]],
            ],
            FrameShape::MoreHoriz => vec![
                vec![
                    vec![vec![5], vec![1]],
                    vec![vec![0], vec![3, 4]],
                    vec![vec![6], vec![2]],
                ],
            ],
            FrameShape::MoreHoriz2 => vec![
                vec![
                    vec![vec![1], vec![5]],
                    vec![vec![3, 4], vec![0]],
                    vec![vec![2], vec![6]],
                ],
            ],
            FrameShape::ExtendedLandscape => vec![
                vec![
                    vec![vec![3], vec![5], vec![7]],
                    vec![vec![0], vec![1, 2]],
                    vec![vec![4], vec![6], vec![8]],
                ],
            ],
            FrameShape::ExtendedLandscape2 | FrameShape::OffsetVH4x4 => Vec::new(),
        };
        assert(plan.deep_view() =~~= self.interleave_table());
        plan
    }
}

} // verus!
