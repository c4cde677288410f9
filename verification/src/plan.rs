//! From the folders of the command line to the clips of each region: which
//! folder feeds which regions, and how its clips are split among them.

use vstd::prelude::*;
use crate::frame_shape::FrameShape;
use crate::group_splitter::{clip_lists, lengths_fit, lengths_of, regrouping};
use crate::helper_functions::{
    clips_usable, lengths_usable, pairs_usable, probed_clips, probed_pairs, probed_videos,
    scan_dir_for_videos_with_len, swap_grouping, video_group_swap, video_group_swap_n,
};
use crate::order::{inverse_order, is_order, take_in_order};
use crate::switches::SortOrder;
use crate::video::{shaped, Video, VideoEditData, VideoGroup, VideoList};

verus! {

/// How the clips of a folder become the clips of regions.
#[derive(Clone, Copy, Debug, PartialEq, Eq, Structural)]
pub enum FolderUse {
    /// All clips of the folder play in one region, probed or not.
    Scan,
    /// The probed clips are grouped by swaps for a layout of two to four
    /// regions.
    Swap(FrameShape),
    /// The probed clips are split into so many groups of nearly equal
    /// length.
    Split(usize),
}

/// What becomes of one folder: how its clips are grouped, and the region
/// that each group plays in.
#[derive(Debug)]
pub struct FolderPlan {
    pub folder: usize,
    pub how: FolderUse,
    pub positions: Vec<u32>,
}

/// Tells whether the clips of a folder have to be probed for their
/// length: where they are grouped by length, or ordered by length.
pub fn probe_needed(how: FolderUse, sorter: SortOrder) -> (needed: bool)
    ensures
        needed == (how != FolderUse::Scan || sorter == SortOrder::ShortestFirst || sorter
            == SortOrder::LongestFirst || sorter == SortOrder::RandomWithLargestLast),
{
    !matches!(how, FolderUse::Scan) || sorter.needs_length()
}

/// What a folder plan is as a value.
pub type PlanEntry = (int, FolderUse, Seq<u32>);

/// The regions from `from` up to, not including, `to`.
pub open spec fn run(from: u32, to: u32) -> Seq<u32> {
    Seq::new((to - from) as nat, |i: int| (from + i) as u32)
}

/// The plan for every pairing of a layout with a number of folders that
/// has one of its own; none where each folder feeds the region of its own
/// number.
pub open spec fn special_plan(screens: FrameShape, folders: int) -> Option<Seq<PlanEntry>> {
    match screens {
        FrameShape::VertEmph | FrameShape::VertEmph2 => if folders == 2 {
            Some(
                seq![
                    (0int, FolderUse::Scan, seq![0u32]),
                    (1int, FolderUse::Swap(FrameShape::Quad), seq![1u32, 2u32, 3u32, 4u32]),
                ],
            )
        } else {
            None
        },
        FrameShape::HorizEmph | FrameShape::HorizEmph2 => if folders == 2 {
            Some(
                seq![
                    (0int, FolderUse::Swap(FrameShape::Dual), seq![0u32, 3u32]),
                    (1int, FolderUse::Swap(FrameShape::Dual), seq![1u32, 2u32]),
                ],
            )
        } else {
            None
        },
        FrameShape::SideVert | FrameShape::SideVert2 => if folders == 2 {
            Some(
                seq![
                    (0int, FolderUse::Scan, seq![0u32]),
                    (1int, FolderUse::Swap(FrameShape::Dual), seq![1u32, 2u32]),
                ],
            )
        } else {
            None
        },
        FrameShape::CentreEmphVert | FrameShape::CentreEmphVert2 => if folders == 3 {
            Some(
                seq![
                    (0int, FolderUse::Scan, seq![0u32]),
                    (1int, FolderUse::Swap(FrameShape::Dual), seq![1u32, 2u32]),
                    (2int, FolderUse::Swap(FrameShape::Dual), seq![3u32, 4u32]),
                ],
            )
        } else if folders == 2 {
            Some(
                seq![
                    (0int, FolderUse::Swap(FrameShape::Dual), seq![1u32, 2u32]),
                    (1int, FolderUse::Swap(FrameShape::Triple), seq![0u32, 3u32, 4u32]),
                ],
            )
        } else {
            None
        },
        FrameShape::MoreHoriz | FrameShape::MoreHoriz2 => if folders == 3 {
            Some(
                seq![
                    (0int, FolderUse::Scan, seq![0u32]),
                    (1int, FolderUse::Swap(FrameShape::Dual), seq![1u32, 2u32]),
                    (2int, FolderUse::Swap(FrameShape::Quad), seq![3u32, 4u32, 5u32, 6u32]),
                ],
            )
        } else {
            None
        },
        FrameShape::ExtendedLandscape => if folders == 2 {
            Some(
                seq![(0int, FolderUse::Scan, seq![0u32]), (1int, FolderUse::Split(8), run(1, 9))],
            )
        } else if folders == 3 {
            Some(
                seq![
                    (0int, FolderUse::Scan, seq![0u32]),
                    (1int, FolderUse::Split(2), run(1, 3)),
                    (2int, FolderUse::Split(6), run(3, 9)),
                ],
            )
        } else if folders == 4 {
            Some(
                seq![
                    (0int, FolderUse::Scan, seq![0u32]),
                    (1int, FolderUse::Swap(FrameShape::Dual), run(1, 3)),
                    (2int, FolderUse::Swap(FrameShape::Triple), run(3, 6)),
                    (3int, FolderUse::Swap(FrameShape::Triple), run(6, 9)),
                ],
            )
        } else {
            None
        },
        FrameShape::ExtendedLandscape2 => if folders == 2 {
            Some(
                seq![(0int, FolderUse::Scan, seq![0u32]), (1int, FolderUse::Split(7), run(1, 8))],
            )
        } else if folders == 3 {
            Some(
                seq![
                    (0int, FolderUse::Scan, seq![0u32]),
                    (1int, FolderUse::Split(3), run(1, 4)),
                    (2int, FolderUse::Split(4), run(4, 8)),
                ],
            )
        } else {
            None
        },
        FrameShape::OffsetVH4x4 => if folders == 2 {
            Some(
                seq![
                    (0int, FolderUse::Split(4), run(0, 4)),
                    (1int, FolderUse::Split(4), run(4, 8)),
                ],
            )
        } else {
            None
        },
        _ => None,
    }
}

/// The plan for a layout and a number of folders: the special plan where
/// there is one; otherwise every folder feeds the region of its number.
pub open spec fn plan_table(screens: FrameShape, folders: int) -> Seq<PlanEntry> {
    match special_plan(screens, folders) {
        Some(plan) => plan,
        None => Seq::new(folders as nat, |i: int| (i, FolderUse::Scan, seq![i as u32])),
    }
}

/// The plan as a value.
pub open spec fn plan_view(plan: Seq<FolderPlan>) -> Seq<PlanEntry> {
    Seq::new(plan.len(), |i: int| (plan[i].folder as int, plan[i].how, plan[i].positions@))
}

/// The regions from `from` up to, not including, `to`.
fn positions_run(from: u32, to: u32) -> (out: Vec<u32>)
    requires
        from <= to,
    ensures
        out@ == run(from, to),
{
    let mut out: Vec<u32> = Vec::new();
    let mut p = from;
    while p < to
        invariant
            from <= p <= to,
            out@.len() == p - from,
            forall|i: int| 0 <= i < out@.len() ==> out@[i] == from + i,
        decreases to - p,
    {
        out.push(p);
        p += 1;
    }
    assert(out@ =~= run(from, to));
    out
}

/// One entry of a plan.
fn entry(folder: usize, how: FolderUse, positions: Vec<u32>) -> (plan: FolderPlan)
    ensures
        plan.folder == folder,
        plan.how == how,
        plan.positions@ == positions@,
{
    FolderPlan { folder, how, positions }
}

/// The plan for a layout and a number of folders.
pub fn folder_plan(screens: FrameShape, folders: usize) -> (plan: Vec<FolderPlan>)
    requires
        folders <= u32::MAX,
    ensures
        plan_view(plan@) == plan_table(screens, folders as int),
{
    let dual = FolderUse::Swap(FrameShape::Dual);
    let triple = FolderUse::Swap(FrameShape::Triple);
    let quad = FolderUse::Swap(FrameShape::Quad);
    let mut plan: Vec<FolderPlan> = Vec::new();
    match (screens, folders) {
        (FrameShape::VertEmph, 2) | (FrameShape::VertEmph2, 2) => {
            plan.push(entry(0, FolderUse::Scan, vec![0]));
            plan.push(entry(1, quad, vec![1, 2, 3, 4]));
        },
        (FrameShape::HorizEmph, 2) | (FrameShape::HorizEmph2, 2) => {
            plan.push(entry(0, dual, vec![0, 3]));
            plan.push(entry(1, dual, vec![1, 2]));
        },
        (FrameShape::SideVert, 2) | (FrameShape::SideVert2, 2) => {
            plan.push(entry(0, FolderUse::Scan, vec![0]));
            plan.push(entry(1, dual, vec![1, 2]));
        },
        (FrameShape::CentreEmphVert, 3) | (FrameShape::CentreEmphVert2, 3) => {
            plan.push(entry(0, FolderUse::Scan, vec![0]));
            plan.push(entry(1, dual, vec![1, 2]));
            plan.push(entry(2, dual, vec![3, 4]));
        },
        (FrameShape::CentreEmphVert, 2) | (FrameShape::CentreEmphVert2, 2) => {
            plan.push(entry(0, dual, vec![1, 2]));
            plan.push(entry(1, triple, vec![0, 3, 4]));
        },
        (FrameShape::MoreHoriz, 3) | (FrameShape::MoreHoriz2, 3) => {
            plan.push(entry(0, FolderUse::Scan, vec![0]));
            plan.push(entry(1, dual, vec![1, 2]));
            plan.push(entry(2, quad, vec![3, 4, 5, 6]));
        },
        (FrameShape::ExtendedLandscape, 2) => {
            plan.push(entry(0, FolderUse::Scan, vec![0]));
            plan.push(entry(1, FolderUse::Split(8), positions_run(1, 9)));
        },
        (FrameShape::ExtendedLandscape, 3) => {
            plan.push(entry(0, FolderUse::Scan, vec![0]));
            plan.push(entry(1, FolderUse::Split(2), positions_run(1, 3)));
            plan.push(entry(2, FolderUse::Split(6), positions_run(3, 9)));
        },
        (FrameShape::ExtendedLandscape, 4) => {
            plan.push(entry(0, FolderUse::Scan, vec![0]));
            plan.push(entry(1, dual, positions_run(1, 3)));
            plan.push(entry(2, triple, positions_run(3, 6)));
            plan.push(entry(3, triple, positions_run(6, 9)));
        },
        (FrameShape::ExtendedLandscape2, 2) => {
            plan.push(entry(0, FolderUse::Scan, vec![0]));
            plan.push(entry(1, FolderUse::Split(7), positions_run(1, 8)));
        },
        (FrameShape::ExtendedLandscape2, 3) => {
            plan.push(entry(0, FolderUse::Scan, vec![0]));
            plan.push(entry(1, FolderUse::Split(3), positions_run(1, 4)));
            plan.push(entry(2, FolderUse::Split(4), positions_run(4, 8)));
        },
        (FrameShape::OffsetVH4x4, 2) => {
            plan.push(entry(0, FolderUse::Split(4), positions_run(0, 4)));
            plan.push(entry(1, FolderUse::Split(4), positions_run(4, 8)));
        },
        (_, _) => {
            let mut i: usize = 0;
            while i < folders
                invariant
                    i <= folders <= u32::MAX,
                    plan@.len() == i,
                    forall|k: int|
                        0 <= k < i ==> (#[trigger] plan_view(plan@)[k]) == (
                            k,
                            FolderUse::Scan,
                            seq![k as u32],
                        ),
                decreases folders - i,
            {
                let ghost before = plan_view(plan@);
                plan.push(entry(i, FolderUse::Scan, vec![i as u32]));
                assert(plan@[i as int].positions@ =~= seq![i as u32]);
                assert forall|k: int| 0 <= k < i + 1 implies (#[trigger] plan_view(plan@)[k]) == (
                    k,
                    FolderUse::Scan,
                    seq![k as u32],
                ) by {
                    if k < i {
                        assert(plan_view(plan@)[k] == before[k]);
                    }
                }
                i += 1;
            }
        },
    }
    assert(plan_view(plan@) =~~= plan_table(screens, folders as int));
    plan
}

/// The regions that a plan feeds, entry after entry.
pub open spec fn fed(plan: Seq<PlanEntry>, n: int) -> Seq<u32>
    decreases n,
{
    if n <= 0 {
        Seq::empty()
    } else {
        fed(plan, n - 1) + plan[n - 1].2
    }
}

/// What every entry of a plan is like: entry `e` is for folder `e`; a
/// scanned folder feeds one region; a folder grouped by swaps feeds the two
/// to four regions of the layout it is grouped for; a folder that is split
/// feeds as many regions as it is split into groups; and every region fed
/// lies below the number of folders or of regions of the layout.
pub proof fn lemma_plan_entry(screens: FrameShape, folders: int, e: int)
    requires
        0 <= folders <= 25,
        0 <= e < plan_table(screens, folders).len(),
    ensures
        plan_table(screens, folders).len() == folders,
        plan_table(screens, folders)[e].0 == e,
        match plan_table(screens, folders)[e].1 {
            FolderUse::Scan => plan_table(screens, folders)[e].2.len() == 1,
            FolderUse::Swap(shape) => (shape == FrameShape::Dual || shape == FrameShape::Triple
                || shape == FrameShape::Quad) && plan_table(screens, folders)[e].2.len()
                == shape.region_count(),
            FolderUse::Split(groups) => groups > 0 && plan_table(screens, folders)[e].2.len()
                == groups,
        },
        plan_table(screens, folders)[e].2.len() <= 25,
        forall|g: int|
            0 <= g < plan_table(screens, folders)[e].2.len() ==> (#[trigger] plan_table(
                screens,
                folders,
            )[e].2[g]) < 25,
{
}

/// The regions that a plan feeds, entry after entry, as places in a list.
pub open spec fn places(plan: Seq<PlanEntry>) -> Seq<usize> {
    Seq::new(fed(plan, plan.len() as int).len(), |i: int| fed(plan, plan.len() as int)[i] as usize)
}

#[verifier::rlimit(60)]
proof fn lemma_places_vert_2(screens: FrameShape)
    requires
        screens == FrameShape::VertEmph || screens == FrameShape::VertEmph2,
    ensures
        is_order(places(plan_table(screens, 2)), places(plan_table(screens, 2)).len() as int),
{
    reveal_with_fuel(fed, 5);
    let order = places(plan_table(screens, 2));
    assert forall|i: int, j: int|
        0 <= i < order.len() && 0 <= j < order.len() && i != j implies order[i] != order[j] by {}
}

#[verifier::rlimit(60)]
proof fn lemma_places_horiz_2(screens: FrameShape)
    requires
        screens == FrameShape::HorizEmph || screens == FrameShape::HorizEmph2,
    ensures
        is_order(places(plan_table(screens, 2)), places(plan_table(screens, 2)).len() as int),
{
    reveal_with_fuel(fed, 5);
    let order = places(plan_table(screens, 2));
    assert forall|i: int, j: int|
        0 <= i < order.len() && 0 <= j < order.len() && i != j implies order[i] != order[j] by {}
}

#[verifier::rlimit(60)]
proof fn lemma_places_side_2(screens: FrameShape)
    requires
        screens == FrameShape::SideVert || screens == FrameShape::SideVert2,
    ensures
        is_order(places(plan_table(screens, 2)), places(plan_table(screens, 2)).len() as int),
{
    reveal_with_fuel(fed, 5);
    let order = places(plan_table(screens, 2));
    assert forall|i: int, j: int|
        0 <= i < order.len() && 0 <= j < order.len() && i != j implies order[i] != order[j] by {}
}

#[verifier::rlimit(60)]
proof fn lemma_places_centre_2(screens: FrameShape)
    requires
        screens == FrameShape::CentreEmphVert || screens == FrameShape::CentreEmphVert2,
    ensures
        is_order(places(plan_table(screens, 2)), places(plan_table(screens, 2)).len() as int),
{
    reveal_with_fuel(fed, 5);
    let order = places(plan_table(screens, 2));
    assert forall|i: int, j: int|
        0 <= i < order.len() && 0 <= j < order.len() && i != j implies order[i] != order[j] by {}
}

#[verifier::rlimit(60)]
proof fn lemma_places_centre_3(screens: FrameShape)
    requires
        screens == FrameShape::CentreEmphVert || screens == FrameShape::CentreEmphVert2,
    ensures
        is_order(places(plan_table(screens, 3)), places(plan_table(screens, 3)).len() as int),
{
    reveal_with_fuel(fed, 5);
    let order = places(plan_table(screens, 3));
    assert forall|i: int, j: int|
        0 <= i < order.len() && 0 <= j < order.len() && i != j implies order[i] != order[j] by {}
}

#[verifier::rlimit(60)]
proof fn lemma_places_more_3(screens: FrameShape)
    requires
        screens == FrameShape::MoreHoriz || screens == FrameShape::MoreHoriz2,
    ensures
        is_order(places(plan_table(screens, 3)), places(plan_table(screens, 3)).len() as int),
{
    reveal_with_fuel(fed, 5);
    let order = places(plan_table(screens, 3));
    assert forall|i: int, j: int|
        0 <= i < order.len() && 0 <= j < order.len() && i != j implies order[i] != order[j] by {}
}

#[verifier::rlimit(60)]
proof fn lemma_places_landscape_2(screens: FrameShape)
    requires
        screens == FrameShape::ExtendedLandscape,
    ensures
        is_order(places(plan_table(screens, 2)), places(plan_table(screens, 2)).len() as int),
{
    reveal_with_fuel(fed, 5);
    let order = places(plan_table(screens, 2));
    assert forall|i: int, j: int|
        0 <= i < order.len() && 0 <= j < order.len() && i != j implies order[i] != order[j] by {}
}

#[verifier::rlimit(60)]
proof fn lemma_places_landscape_3(screens: FrameShape)
    requires
        screens == FrameShape::ExtendedLandscape,
    ensures
        is_order(places(plan_table(screens, 3)), places(plan_table(screens, 3)).len() as int),
{
    reveal_with_fuel(fed, 5);
    let order = places(plan_table(screens, 3));
    assert forall|i: int, j: int|
        0 <= i < order.len() && 0 <= j < order.len() && i != j implies order[i] != order[j] by {}
}

#[verifier::rlimit(60)]
proof fn lemma_places_landscape_4(screens: FrameShape)
    requires
        screens == FrameShape::ExtendedLandscape,
    ensures
        is_order(places(plan_table(screens, 4)), places(plan_table(screens, 4)).len() as int),
{
    reveal_with_fuel(fed, 5);
    let order = places(plan_table(screens, 4));
    assert forall|i: int, j: int|
        0 <= i < order.len() && 0 <= j < order.len() && i != j implies order[i] != order[j] by {}
}

#[verifier::rlimit(60)]
proof fn lemma_places_landscape2_2(screens: FrameShape)
    requires
        screens == FrameShape::ExtendedLandscape2,
    ensures
        is_order(places(plan_table(screens, 2)), places(plan_table(screens, 2)).len() as int),
{
    reveal_with_fuel(fed, 5);
    let order = places(plan_table(screens, 2));
    assert forall|i: int, j: int|
        0 <= i < order.len() && 0 <= j < order.len() && i != j implies order[i] != order[j] by {}
}

#[verifier::rlimit(60)]
proof fn lemma_places_landscape2_3(screens: FrameShape)
    requires
        screens == FrameShape::ExtendedLandscape2,
    ensures
        is_order(places(plan_table(screens, 3)), places(plan_table(screens, 3)).len() as int),
{
    reveal_with_fuel(fed, 5);
    let order = places(plan_table(screens, 3));
    assert forall|i: int, j: int|
        0 <= i < order.len() && 0 <= j < order.len() && i != j implies order[i] != order[j] by {}
}

#[verifier::rlimit(60)]
proof fn lemma_places_offset_2(screens: FrameShape)
    requires
        screens == FrameShape::OffsetVH4x4,
    ensures
        is_order(places(plan_table(screens, 2)), places(plan_table(screens, 2)).len() as int),
{
    reveal_with_fuel(fed, 5);
    let order = places(plan_table(screens, 2));
    assert forall|i: int, j: int|
        0 <= i < order.len() && 0 <= j < order.len() && i != j implies order[i] != order[j] by {}
}

proof fn lemma_default_fed(folders: int, n: int)
    requires
        0 <= n <= folders <= u32::MAX,
    ensures
        fed(Seq::new(folders as nat, |i: int| (i, FolderUse::Scan, seq![i as u32])), n) == Seq::new(
            n as nat,
            |i: int| i as u32,
        ),
    decreases n,
{
    let plan = Seq::new(folders as nat, |i: int| (i, FolderUse::Scan, seq![i as u32]));
    if n > 0 {
        lemma_default_fed(folders, n - 1);
        assert(fed(plan, n) =~= Seq::new(n as nat, |i: int| i as u32));
    } else {
        assert(fed(plan, n) =~= Seq::new(n as nat, |i: int| i as u32));
    }
}

/// The regions that a plan feeds are the first regions, each once.
pub proof fn lemma_places_order(screens: FrameShape, folders: int)
    requires
        0 <= folders <= u32::MAX,
    ensures
        is_order(
            places(plan_table(screens, folders)),
            places(plan_table(screens, folders)).len() as int,
        ),
{
    if (screens == FrameShape::VertEmph || screens == FrameShape::VertEmph2) && folders == 2 {
        lemma_places_vert_2(screens);
    }
    if (screens == FrameShape::HorizEmph || screens == FrameShape::HorizEmph2) && folders == 2 {
        lemma_places_horiz_2(screens);
    }
    if (screens == FrameShape::SideVert || screens == FrameShape::SideVert2) && folders == 2 {
        lemma_places_side_2(screens);
    }
    if (screens == FrameShape::CentreEmphVert || screens == FrameShape::CentreEmphVert2) && folders == 2 {
        lemma_places_centre_2(screens);
    }
    if (screens == FrameShape::CentreEmphVert || screens == FrameShape::CentreEmphVert2) && folders == 3 {
        lemma_places_centre_3(screens);
    }
    if (screens == FrameShape::MoreHoriz || screens == FrameShape::MoreHoriz2) && folders == 3 {
        lemma_places_more_3(screens);
    }
    if (screens == FrameShape::ExtendedLandscape) && folders == 2 {
        lemma_places_landscape_2(screens);
    }
    if (screens == FrameShape::ExtendedLandscape) && folders == 3 {
        lemma_places_landscape_3(screens);
    }
    if (screens == FrameShape::ExtendedLandscape) && folders == 4 {
        lemma_places_landscape_4(screens);
    }
    if (screens == FrameShape::ExtendedLandscape2) && folders == 2 {
        lemma_places_landscape2_2(screens);
    }
    if (screens == FrameShape::ExtendedLandscape2) && folders == 3 {
        lemma_places_landscape2_3(screens);
    }
    if (screens == FrameShape::OffsetVH4x4) && folders == 2 {
        lemma_places_offset_2(screens);
    }
    if special_plan(screens, folders) is None {
        lemma_default_fed(folders, folders);
        let order = places(plan_table(screens, folders));
        assert forall|i: int, j: int|
            0 <= i < order.len() && 0 <= j < order.len() && i != j implies order[i] != order[j] by {}
    }
}

/// The regions fed by the entries before `d` are also fed by the entries
/// before a later `e`, at the same places.
proof fn lemma_fed_grows(plan: Seq<PlanEntry>, d: int, e: int)
    requires
        0 <= d <= e <= plan.len(),
    ensures
        fed(plan, d).len() <= fed(plan, e).len(),
        d < e ==> fed(plan, d).len() + plan[d].2.len() <= fed(plan, e).len(),
    decreases e - d,
{
    if d < e {
        lemma_fed_grows(plan, d, e - 1);
        if d < e - 1 {
        } else {
        }
    }
}

/// Place `g` of entry `d` stands behind the places of the entries before.
proof fn lemma_fed_at(plan: Seq<PlanEntry>, d: int, e: int, g: int)
    requires
        0 <= d < e <= plan.len(),
        0 <= g < plan[d].2.len(),
    ensures
        fed(plan, d).len() + g < fed(plan, e).len(),
        fed(plan, e)[fed(plan, d).len() + g] == plan[d].2[g],
    decreases e - d,
{
    if d < e - 1 {
        lemma_fed_at(plan, d, e - 1, g);
    }
}

/// What is made of an entry stays made when more lists follow.
proof fn lemma_entry_kept(
    plan: Seq<PlanEntry>,
    d: int,
    e: int,
    videos: Seq<Video>,
    sorter: SortOrder,
    before: Seq<VideoList>,
    after: Seq<VideoList>,
)
    requires
        0 <= d < e <= plan.len(),
        entry_made(plan[d], videos, sorter, before, fed(plan, d).len() as int),
        before.len() == fed(plan, e).len(),
        after.len() >= before.len(),
        forall|t: int| 0 <= t < before.len() ==> (#[trigger] after[t]) == before[t],
    ensures
        entry_made(plan[d], videos, sorter, after, fed(plan, d).len() as int),
{
    let from = fed(plan, d).len() as int;
    let groups = choose|groups: Seq<Vec<Video>>|
        {
            &&& #[trigger] folder_groups(plan[d].1, videos, groups)
            &&& groups.len() == plan[d].2.len()
            &&& forall|g: int|
                0 <= g < groups.len() ==> fed_by(#[trigger] before[from + g], groups[g]@, sorter)
        };
    lemma_fed_grows(plan, d, e);
    assert forall|g: int| 0 <= g < groups.len() implies fed_by(
        #[trigger] after[from + g],
        groups[g]@,
        sorter,
    ) by {
        assert(after[from + g] == before[from + g]);
        assert(fed_by(before[from + g], groups[g]@, sorter));
    }
}

/// Why the clips of the folders cannot be made into a group of regions.
#[derive(Clone, Copy, Debug, PartialEq, Eq, Structural)]
pub enum GroupError {
    /// A folder has fewer probed clips than it is to be split into groups.
    TooFewClips,
    /// A clip has a negative length, or the lengths of a folder are too long
    /// together.
    BadLengths,
    /// A region is left without a clip, and the order asks for a longest
    /// one.
    EmptyGroup,
    /// There are more folders than a canvas has rectangles at first.
    TooManyFolders,
}

/// The clips of a folder can be grouped as the plan has it.
pub open spec fn folder_usable(videos: Seq<Video>, how: FolderUse) -> bool {
    match how {
        FolderUse::Scan => true,
        FolderUse::Swap(_) => pairs_usable(probed_pairs(videos, videos.len() as int)),
        FolderUse::Split(groups) => {
            &&& groups <= probed_clips(videos, videos.len() as int).len()
            &&& lengths_fit(lengths_of(probed_clips(videos, videos.len() as int)))
        },
    }
}

/// Every group that is made of the clips of the folder holds a clip: the
/// folder is not empty where it is scanned, and has a probed clip for each
/// group where its clips are swapped or split.
pub open spec fn groups_filled(videos: Seq<Video>, how: FolderUse) -> bool {
    match how {
        FolderUse::Scan => videos.len() > 0,
        FolderUse::Swap(shape) => probed_pairs(videos, videos.len() as int).len()
            >= shape.region_count(),
        FolderUse::Split(groups) => probed_clips(videos, videos.len() as int).len() >= groups,
    }
}

/// The folders before folder `e` can all be used as the plan has them.
pub open spec fn usable_before(srcs: Seq<Vec<Video>>, table: Seq<PlanEntry>, e: int) -> bool {
    forall|d: int| 0 <= d < e ==> folder_usable((#[trigger] srcs[d])@, table[d].1)
}

/// The folder is to be split into more groups than it has probed clips.
pub open spec fn too_few(videos: Seq<Video>, how: FolderUse) -> bool {
    how matches FolderUse::Split(groups) && probed_clips(videos, videos.len() as int).len()
        < groups
}

/// Every list holds a clip.
pub open spec fn lists_filled(lists: Seq<VideoList>) -> bool {
    forall|p: int| 0 <= p < lists.len() ==> (#[trigger] lists[p]).videos@.len() > 0
}

/// A list that is fed by clips holds as many clips as it was fed.
pub proof fn lemma_fed_len(list: VideoList, clips: Seq<Video>, sorter: SortOrder)
    requires
        fed_by(list, clips, sorter),
    ensures
        list.videos@.len() == clips.len(),
{
    let sorted = choose|sorted: Seq<Video>|
        #[trigger] sorter.sorts(clips, sorted) && list.videos@ == shaped(sorted, (5u32, 5u32), 30);
    let order = choose|order: Seq<usize>| crate::switches::in_order(clips, order, sorted);
}

/// The list plays `clips`, in the order that `sorter` gives them, and has
/// played none of them yet.
pub open spec fn fed_by(list: VideoList, clips: Seq<Video>, sorter: SortOrder) -> bool {
    &&& list.complete_videos@ == Seq::<Video>::empty()
    &&& exists|sorted: Seq<Video>|
        #[trigger] sorter.sorts(clips, sorted) && list.videos@ == shaped(sorted, (5u32, 5u32), 30)
}

/// `groups` is what becomes of the clips of a folder: all of them in one
/// group where the folder is scanned; the groups that swapping makes of the
/// probed clips; or a balanced regrouping of the probed clips.
pub open spec fn folder_groups(how: FolderUse, videos: Seq<Video>, groups: Seq<Vec<Video>>) -> bool {
    match how {
        FolderUse::Scan => groups.len() == 1 && groups[0]@ == videos,
        FolderUse::Swap(shape) => groups.len() == shape.region_count() && swap_grouping(
            probed_pairs(videos, videos.len() as int),
            shape,
            groups,
        ),
        FolderUse::Split(count) => groups.len() == count && regrouping(
            probed_clips(videos, videos.len() as int),
            count as int,
            clip_lists(groups),
        ),
    }
}

/// Entry `e` of the plan is carried out in `lists`, which begin at place
/// `from`: the clips of the folder have become groups as the entry has it,
/// and each group plays in the list at its place.
pub open spec fn entry_made(
    entry: PlanEntry,
    videos: Seq<Video>,
    sorter: SortOrder,
    lists: Seq<VideoList>,
    from: int,
) -> bool {
    exists|groups: Seq<Vec<Video>>|
        {
            &&& #[trigger] folder_groups(entry.1, videos, groups)
            &&& groups.len() == entry.2.len()
            &&& forall|g: int|
                0 <= g < groups.len() ==> fed_by(#[trigger] lists[from + g], groups[g]@, sorter)
        }
}

/// Entry `e` of the plan is carried out in the lists of the regions: each
/// group of the folder plays in the region that the entry names for it.
pub open spec fn entry_placed(
    entry: PlanEntry,
    videos: Seq<Video>,
    sorter: SortOrder,
    lists: Seq<VideoList>,
) -> bool {
    exists|groups: Seq<Vec<Video>>|
        {
            &&& #[trigger] folder_groups(entry.1, videos, groups)
            &&& groups.len() == entry.2.len()
            &&& forall|g: int|
                0 <= g < groups.len() ==> fed_by(
                    #[trigger] lists[entry.2[g] as int],
                    groups[g]@,
                    sorter,
                )
        }
}

/// The list of each region is at its place.
pub open spec fn lists_in_place(lists: Seq<VideoList>) -> bool {
    forall|p: int| 0 <= p < lists.len() ==> (#[trigger] lists[p]).position == p
}

/// The regions fed by the entries before `e` and by the first `g` groups
/// of entry `e`.
pub open spec fn places_so_far(plan: Seq<PlanEntry>, e: int, g: int) -> Seq<usize> {
    Seq::new(
        fed(plan, e).len() + g as nat,
        |i: int|
            if i < fed(plan, e).len() {
                fed(plan, e)[i] as usize
            } else {
                plan[e].2[i - fed(plan, e).len()] as usize
            },
    )
}

impl VideoGroup {
    /// A group for the clips of one folder: the probed clips are split into
    /// as many groups of nearly equal length as the layout has regions, and
    /// each group plays in the region of its number. Every region gets a
    /// clip. The folder must hold a probed clip for each region, and the
    /// lengths of its clips must be usable.
    pub fn new_from_folder(
        videos: Vec<Video>,
        src_out: String,
        screens: FrameShape,
        sorter: SortOrder,
    ) -> (made: Result<VideoGroup, GroupError>)
        ensures
            match made {
                Ok(group) => {
                    &&& group.shape_style == screens
                    &&& group.output_target == src_out
                    &&& group.videos@.len() == screens.region_count()
                    &&& lists_in_place(group.videos@)
                    &&& lists_filled(group.videos@)
                    &&& entry_made(
                        (0, FolderUse::Split(screens.region_count() as usize), run(0, screens.region_count() as u32)),
                        videos@,
                        sorter,
                        group.videos@,
                        0,
                    )
                },
                Err(error) => {
                    &&& error == GroupError::TooFewClips <==> probed_clips(
                        videos@,
                        videos@.len() as int,
                    ).len() < screens.region_count()
                    &&& error == GroupError::BadLengths <==> probed_clips(
                        videos@,
                        videos@.len() as int,
                    ).len() >= screens.region_count() && !lengths_fit(
                        lengths_of(probed_clips(videos@, videos@.len() as int)),
                    )
                    &&& error != GroupError::EmptyGroup
                    &&& error != GroupError::TooManyFolders
                },
            },
            made is Ok <==> folder_usable(
                videos@,
                FolderUse::Split(screens.region_count() as usize),
            ),
    {
        let probed = probed_videos(videos);
        let count = screens.count() as usize;
        if probed.len() < count {
            return Err(GroupError::TooFewClips);
        }
        if !clips_usable(&probed) {
            return Err(GroupError::BadLengths);
        }
        let groups = video_group_swap_n(probed, count);
        let ghost made = groups@;
        let mut lists: Vec<VideoList> = Vec::new();
        let mut i: usize = 0;
        for group in it: groups
            invariant
                i == it.index(),
                it.seq() == made,
                made.len() == count,
                count <= 9,
                count == screens.region_count(),
                probed_clips(videos@, videos@.len() as int).len() >= count,
                lists@.len() == i,
                lists_in_place(lists@),
                lists_filled(lists@),
                forall|g: int| 0 <= g < i ==> fed_by(#[trigger] lists@[g], made[g]@, sorter),
                lengths_fit(lengths_of(probed_clips(videos@, videos@.len() as int))),
                forall|g: int| 0 <= g < count ==> (#[trigger] made[g])@.len() > 0,
        {
            assert(made[i as int]@.len() > 0);
            let ghost before = lists@;
            let list = VideoList::from_videos(group, i as u32, sorter);
            assert(fed_by(list, made[i as int]@, sorter));
            proof {
                lemma_fed_len(list, made[i as int]@, sorter);
            }
            lists.push(list);
            assert(lists_filled(lists@)) by {
                assert forall|p: int| 0 <= p < lists@.len() implies lists@[p] == (if p < i {
                    before[p]
                } else {
                    list
                }) by {}
            }
            assert forall|g: int| 0 <= g < i + 1 implies fed_by(
                #[trigger] lists@[g],
                made[g]@,
                sorter,
            ) by {
                if g < i {
                    assert(lists@[g] == before[g]);
                }
            }
            i += 1;
        }
        proof {
            let entry: PlanEntry = (
                0,
                FolderUse::Split(screens.region_count() as usize),
                run(0, screens.region_count() as u32),
            );
            assert(folder_groups(entry.1, videos@, made));
            assert(entry_made(entry, videos@, sorter, lists@, 0));
        }
        Ok(
            VideoGroup {
                videos: lists,
                output_target: src_out,
                video_sizer: VideoEditData::init(),
                shape_style: screens,
            },
        )
    }

    /// A group for the clips of several folders, as the plan for the layout
    /// and the number of folders has it. The list of each region stands at
    /// the place of the region. The folders are taken in turn; the first
    /// that cannot be used as the plan has it gives the error. Where the
    /// order moves a longest clip to the end, a group without a clip is an
    /// error too, and every list of a group that is made holds a clip.
    pub fn new_from_folders(
        srcs: Vec<Vec<Video>>,
        src_out: String,
        screens: FrameShape,
        sorter: SortOrder,
    ) -> (made: Result<VideoGroup, GroupError>)
        ensures
            match made {
                Ok(group) => {
                    &&& group.shape_style == screens
                    &&& group.output_target == src_out
                    &&& group.videos@.len() == places(plan_table(screens, srcs@.len() as int)).len()
                    &&& lists_in_place(group.videos@)
                    &&& sorter == SortOrder::RandomWithLargestLast ==> lists_filled(group.videos@)
                    &&& forall|e: int|
                        0 <= e < srcs@.len() ==> entry_placed(
                            plan_table(screens, srcs@.len() as int)[e],
                            (#[trigger] srcs@[e])@,
                            sorter,
                            group.videos@,
                        )
                },
                Err(error) => {
                    &&& error == GroupError::TooManyFolders <==> srcs@.len() > 25
                    &&& error == GroupError::EmptyGroup ==> sorter
                        == SortOrder::RandomWithLargestLast && exists|e: int|
                        0 <= e < srcs@.len() && usable_before(
                            srcs@,
                            plan_table(screens, srcs@.len() as int),
                            e + 1,
                        ) && !groups_filled(
                            (#[trigger] srcs@[e])@,
                            plan_table(screens, srcs@.len() as int)[e].1,
                        )
                    &&& error == GroupError::TooFewClips ==> exists|e: int|
                        0 <= e < srcs@.len() && usable_before(
                            srcs@,
                            plan_table(screens, srcs@.len() as int),
                            e,
                        ) && too_few(
                            (#[trigger] srcs@[e])@,
                            plan_table(screens, srcs@.len() as int)[e].1,
                        )
                    &&& error == GroupError::BadLengths ==> exists|e: int|
                        0 <= e < srcs@.len() && usable_before(
                            srcs@,
                            plan_table(screens, srcs@.len() as int),
                            e,
                        ) && !folder_usable(
                            (#[trigger] srcs@[e])@,
                            plan_table(screens, srcs@.len() as int)[e].1,
                        ) && !too_few(srcs@[e]@, plan_table(screens, srcs@.len() as int)[e].1)
                },
            },
            srcs@.len() <= 25 && (forall|e: int|
                0 <= e < srcs@.len() ==> folder_usable(
                    (#[trigger] srcs@[e])@,
                    plan_table(screens, srcs@.len() as int)[e].1,
                )) && (sorter != SortOrder::RandomWithLargestLast || forall|e: int|
                0 <= e < srcs@.len() ==> groups_filled(
                    (#[trigger] srcs@[e])@,
                    plan_table(screens, srcs@.len() as int)[e].1,
                )) ==> made is Ok,
    {
        let n = srcs.len();
        if n > 25 {
            return Err(GroupError::TooManyFolders);
        }
        let plan = folder_plan(screens, n);
        let ghost table = plan_table(screens, n as int);
        proof {
            if n > 0 {
                lemma_plan_entry(screens, n as int, 0);
            }
            assert(plan_view(plan@).len() == table.len());
        }
        let mut made: Vec<VideoList> = Vec::new();
        let mut at: Vec<usize> = Vec::new();
        let mut e: usize = 0;
        for folder in it: srcs
            invariant
                e == it.index(),
                it.seq() == srcs@,
                n == srcs@.len(),
                n <= 25,
                table == plan_table(screens, n as int),
                plan_view(plan@) == table,
                plan@.len() == n,
                made@.len() == at@.len(),
                at@ == places_so_far(table, e as int, 0),
                forall|t: int| 0 <= t < made@.len() ==> (#[trigger] made@[t]).position == at@[t],
                sorter == SortOrder::RandomWithLargestLast ==> lists_filled(made@),
                usable_before(srcs@, table, e as int),
                forall|d: int|
                    0 <= d < e ==> entry_made(
                        table[d],
                        (#[trigger] srcs@[d])@,
                        sorter,
                        made@,
                        fed(table, d).len() as int,
                    ),
        {
            proof {
                lemma_plan_entry(screens, n as int, e as int);
                assert(plan_view(plan@)[e as int] == table[e as int]);
            }
            let ghost made_before = made@;
            let entry = &plan[e];
            let groups: Vec<Vec<Video>> = match entry.how {
                FolderUse::Scan => {
                    let mut one: Vec<Vec<Video>> = Vec::new();
                    one.push(folder);
                    one
                },
                FolderUse::Swap(shape) => {
                    let pairs = scan_dir_for_videos_with_len(folder);
                    if !lengths_usable(&pairs) {
                        assert(!folder_usable(srcs@[e as int]@, table[e as int].1));
                        assert(!too_few(srcs@[e as int]@, table[e as int].1));
                        return Err(GroupError::BadLengths);
                    }
                    video_group_swap(pairs, shape)
                },
                FolderUse::Split(count) => {
                    let probed = probed_videos(folder);
                    if probed.len() < count {
                        assert(too_few(srcs@[e as int]@, table[e as int].1));
                        return Err(GroupError::TooFewClips);
                    }
                    if !clips_usable(&probed) {
                        assert(!folder_usable(srcs@[e as int]@, table[e as int].1));
                        assert(!too_few(srcs@[e as int]@, table[e as int].1));
                        return Err(GroupError::BadLengths);
                    }
                    video_group_swap_n(probed, count)
                },
            };
            assert(groups@.len() == entry.positions@.len());
            let ghost parts = groups@;
            assert(groups_filled(srcs@[e as int]@, table[e as int].1) ==> forall|k: int|
                0 <= k < parts.len() ==> (#[trigger] parts[k])@.len() > 0);
            assert(folder_usable(srcs@[e as int]@, table[e as int].1));
            assert(usable_before(srcs@, table, e as int + 1));
            assert(folder_groups(table[e as int].1, srcs@[e as int]@, parts));
            let ghost offset = fed(table, e as int).len() as int;
            let mut g: usize = 0;
            for group in inner: groups
                invariant
                    g == inner.index(),
                    inner.seq() == parts,
                    offset == fed(table, e as int).len(),
                    made@.len() == offset + g,
                    forall|t: int| 0 <= t < offset ==> (#[trigger] made@[t]) == made_before[t],
                    forall|k: int|
                        0 <= k < g ==> fed_by(#[trigger] made@[offset + k], parts[k]@, sorter),
                    inner.seq().len() == entry.positions@.len(),
                    entry.positions@.len() <= 25,
                    e < n,
                    n == srcs@.len(),
                    n <= 25,
                    table.len() == n,
                    entry.positions@ == table[e as int].2,
                    forall|k: int|
                        0 <= k < entry.positions@.len() ==> (#[trigger] entry.positions@[k]) < 25,
                    made@.len() == at@.len(),
                    at@ == places_so_far(table, e as int, g as int),
                    forall|t: int| 0 <= t < made@.len() ==> (#[trigger] made@[t]).position == at@[t],
                    sorter == SortOrder::RandomWithLargestLast ==> lists_filled(made@),
                    usable_before(srcs@, table, e as int + 1),
                    groups_filled(srcs@[e as int]@, table[e as int].1) ==> forall|k: int|
                        0 <= k < parts.len() ==> (#[trigger] parts[k])@.len() > 0,
                    table == plan_table(screens, srcs@.len() as int),
            {
                if matches!(sorter, SortOrder::RandomWithLargestLast) && group.len() == 0 {
                    assert(!groups_filled(srcs@[e as int]@, table[e as int].1)) by {
                        assert(parts[g as int]@.len() == 0);
                    }
                    return Err(GroupError::EmptyGroup);
                }
                let pos = entry.positions[g];
                let ghost before = at@;
                let ghost held = made@;
                let list = VideoList::from_videos(group, pos, sorter);
                assert(fed_by(list, parts[g as int]@, sorter));
                proof {
                    lemma_fed_len(list, parts[g as int]@, sorter);
                }
                made.push(list);
                at.push(pos as usize);
                assert(sorter == SortOrder::RandomWithLargestLast ==> lists_filled(made@)) by {
                    assert forall|p: int| 0 <= p < made@.len() implies made@[p] == (if p
                        < held.len() {
                        held[p]
                    } else {
                        list
                    }) by {}
                }
                assert(at@ =~= places_so_far(table, e as int, g as int + 1));
                assert forall|k: int| 0 <= k < g + 1 implies fed_by(
                    #[trigger] made@[offset + k],
                    parts[k]@,
                    sorter,
                ) by {
                    if k < g {
                        assert(made@[offset + k] == held[offset + k]);
                    }
                }
                g += 1;
            }
            assert(at@ =~= places_so_far(table, e as int + 1, 0)) by {
                assert(fed(table, e as int + 1) == fed(table, e as int) + table[e as int].2);
            }
            proof {
                assert(entry_made(table[e as int], srcs@[e as int]@, sorter, made@, offset));
                assert forall|d: int| 0 <= d < e implies entry_made(
                    table[d],
                    (#[trigger] srcs@[d])@,
                    sorter,
                    made@,
                    fed(table, d).len() as int,
                ) by {
                    lemma_entry_kept(table, d, e as int, srcs@[d]@, sorter, made_before, made@);
                }
            }
            e += 1;
        }
        proof {
            lemma_places_order(screens, n as int);
            assert(at@ =~= places(table));
        }
        let inv = inverse_order(&at);
        let lists = take_in_order(made, &inv);
        proof {
            assert forall|p: int| 0 <= p < lists@.len() implies (#[trigger] lists@[p]).position
                == p by {
                assert(at@[inv@[p] as int] == p);
            }
            if sorter == SortOrder::RandomWithLargestLast {
                assert forall|p: int| 0 <= p < lists@.len() implies (#[trigger] lists@[p]).videos@.len()
                    > 0 by {
                    assert(lists@[p] == made@[inv@[p] as int]);
                }
            }
            assert forall|d: int| 0 <= d < srcs@.len() implies entry_placed(
                table[d],
                (#[trigger] srcs@[d])@,
                sorter,
                lists@,
            ) by {
                let from = fed(table, d).len() as int;
                let groups = choose|groups: Seq<Vec<Video>>|
                    {
                        &&& #[trigger] folder_groups(table[d].1, srcs@[d]@, groups)
                        &&& groups.len() == table[d].2.len()
                        &&& forall|g: int|
                            0 <= g < groups.len() ==> fed_by(
                                #[trigger] made@[from + g],
                                groups[g]@,
                                sorter,
                            )
                    };
                lemma_fed_grows(table, d, n as int);
                assert forall|g: int| 0 <= g < groups.len() implies fed_by(
                    #[trigger] lists@[table[d].2[g] as int],
                    groups[g]@,
                    sorter,
                ) by {
                    lemma_fed_at(table, d, n as int, g);
                    assert(at@[from + g] == table[d].2[g]);
                    assert(inv@[at@[from + g] as int] == from + g);
                    assert(fed_by(made@[from + g], groups[g]@, sorter));
                }
            }
        }
        Ok(
            VideoGroup {
                videos: lists,
                output_target: src_out,
                video_sizer: VideoEditData::init(),
                shape_style: screens,
            },
        )
    }
}

} // verus!
