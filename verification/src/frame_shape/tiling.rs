//! Where each region lies on the canvas, and the proof that the regions of
//! a layout cover the canvas exactly.

use vstd::prelude::*;
use crate::frame_shape::FrameShape;
use crate::video::partition;

verus! {

/// The top left corner (x, then y) of each region of a layout on a canvas
/// of `w` by `h` pixels: the columns of a row from left to right, the
/// regions of a column from top to bottom, in the order in which the layout
/// visits them. Empty for a layout without an interleave rule.
pub open spec fn placement(shape: FrameShape, w: int, h: int) -> Seq<(int, int)> {
    let r = partition(shape, w, h);
    match shape {
        FrameShape::Mono => seq![(0, 0)],
        FrameShape::Dual => seq![(0, 0), (r[0].0, 0)],
        FrameShape::Triple => seq![(0, 0), (r[0].0, 0), (r[0].0 + r[1].0, 0)],
        FrameShape::Quad => seq![(0, 0), (r[0].0, 0), (0, r[0].1), (r[2].0, r[1].1)],
        FrameShape::VertEmph | FrameShape::VertEmph2 => seq![
            (r[1].0, 0),
            (0, 0),
            (r[1].0 + r[0].0, 0),
            (0, r[1].1),
            (r[3].0 + r[0].0, r[2].1),
        ],
        FrameShape::HorizEmph | FrameShape::HorizEmph2 => seq![
            (0, 0),
            (r[0].0, 0),
            (r[0].0, r[1].1),
            (r[0].0 + r[1].0, 0),
        ],
        FrameShape::SideVert => seq![(0, 0), (r[0].0, 0), (r[0].0, r[1].1)],
        FrameShape::SideVert2 => seq![(r[1].0, 0), (0, 0), (0, r[1].1)],
        FrameShape::CentreEmphVert => seq![
            (r[1].0, 0),
            (0, 0),
            (r[1].0 + r[0].0, 0),
            (r[1].0, r[0].1),
            (r[1].0 + r[3].0, r[0].1),
        ],
        FrameShape::CentreEmphVert2 => seq![
            (r[1].0, r[3].1),
            (0, 0),
            (r[1].0 + r[0].0, 0),
            (r[1].0, 0),
            (r[1].0 + r[3].0, 0),
        ],
        FrameShape::MoreHoriz => seq![
            (r[5].0, 0),
            (0, r[5].1),
            (r[5].0 + r[0].0, r[6].1),
            (r[5].0, r[0].1),
            (r[5].0 + r[3].0, r[0].1),
            (0, 0),
            (r[5].0 + r[0].0, 0),
        ],
        FrameShape::MoreHoriz2 => seq![
            (r[1].0, r[3].1),
            (0, 0),
            (r[1].0 + r[0].0, 0),
            (r[1].0, 0),
            (r[1].0 + r[3].0, 0),
            (0, r[1].1),
            (r[1].0 + r[0].0, r[2].1),
        ],
        FrameShape::ExtendedLandscape => seq![
            (r[3].0, 0),
            (r[3].0, r[0].1),
            (r[3].0 + r[1].0, r[0].1),
            (0, 0),
            (r[3].0 + r[0].0, 0),
            (0, r[3].1),
            (r[3].0 + r[0].0, r[4].1),
            (0, r[3].1 + r[5].1),
            (r[3].0 + r[0].0, r[4].1 + r[6].1),
        ],
        FrameShape::ExtendedLandscape2 | FrameShape::OffsetVH4x4 => seq![],
    }
}

/// Region `i` lies inside the canvas.
pub open spec fn inside(rects: Seq<(int, int)>, at: Seq<(int, int)>, i: int, w: int, h: int) -> bool {
    &&& 0 <= at[i].0
    &&& at[i].0 + rects[i].0 <= w
    &&& 0 <= at[i].1
    &&& at[i].1 + rects[i].1 <= h
}

/// Regions `i` and `j` share no pixel: one ends where the other begins, to
/// the side or below.
pub open spec fn apart(rects: Seq<(int, int)>, at: Seq<(int, int)>, i: int, j: int) -> bool {
    ||| at[i].0 + rects[i].0 <= at[j].0
    ||| at[j].0 + rects[j].0 <= at[i].0
    ||| at[i].1 + rects[i].1 <= at[j].1
    ||| at[j].1 + rects[j].1 <= at[i].1
}

/// Pixels of the first `n` rectangles together.
pub open spec fn area(rects: Seq<(int, int)>, n: int) -> int
    decreases n,
{
    if n <= 0 {
        0
    } else {
        area(rects, n - 1) + rects[n - 1].0 * rects[n - 1].1
    }
}

/// The rectangles, drawn at `at`, cover a canvas of `w` by `h` pixels with
/// no gap and no overlap: each lies inside, no two share a pixel, and
/// together they have as many pixels as the canvas.
pub open spec fn tiles_exactly(rects: Seq<(int, int)>, at: Seq<(int, int)>, w: int, h: int) -> bool {
    &&& at.len() == rects.len()
    &&& forall|i: int| 0 <= i < rects.len() ==> inside(rects, at, i, w, h)
    &&& forall|i: int, j: int| 0 <= i < j < rects.len() ==> apart(rects, at, i, j)
    &&& area(rects, rects.len() as int) == w * h
}

proof fn lemma_product_split(a: int, b: int, c: int)
    ensures
        (a + b) * c == a * c + b * c,
        c * (a + b) == c * a + c * b,
{
    assert((a + b) * c == a * c + b * c) by (nonlinear_arith);
    assert(c * (a + b) == c * a + c * b) by (nonlinear_arith);
}

/// The rectangles of every layout that has an interleave rule tile the
/// canvas exactly: each row of the canvas is filled by regions whose widths
/// add up to the canvas width, each column by regions whose heights add up
/// to the canvas height, with no gap and no overlap.
pub proof fn lemma_partition_tiles(shape: FrameShape, w: int, h: int)
    requires
        0 <= w,
        0 <= h,
        shape.has_interleave_rule(),
    ensures
        tiles_exactly(partition(shape, w, h), placement(shape, w, h), w, h),
{
    lemma_area(shape, w, h);
    lemma_inside(shape, w, h);
    lemma_apart(shape, w, h);
}

proof fn lemma_inside(shape: FrameShape, w: int, h: int)
    requires
        0 <= w,
        0 <= h,
        shape.has_interleave_rule(),
    ensures
        placement(shape, w, h).len() == partition(shape, w, h).len(),
        forall|i: int|
            0 <= i < partition(shape, w, h).len() ==> inside(
                partition(shape, w, h),
                placement(shape, w, h),
                i,
                w,
                h,
            ),
{
    let r = partition(shape, w, h);
    let at = placement(shape, w, h);
    assert forall|i: int| 0 <= i < r.len() implies inside(r, at, i, w, h) by {
        lemma_pair(shape, w, h, i, i);
    }
}

proof fn lemma_apart(shape: FrameShape, w: int, h: int)
    requires
        0 <= w,
        0 <= h,
        shape.has_interleave_rule(),
    ensures
        forall|i: int, j: int|
            0 <= i < j < partition(shape, w, h).len() ==> apart(
                partition(shape, w, h),
                placement(shape, w, h),
                i,
                j,
            ),
{
    let r = partition(shape, w, h);
    let at = placement(shape, w, h);
    assert forall|i: int, j: int| 0 <= i < j < r.len() implies apart(r, at, i, j) by {
        lemma_pair(shape, w, h, i, j);
    }
}

/// Regions `i` and `j` of a layout lie inside the canvas, and apart where
/// they are two.
proof fn lemma_pair(shape: FrameShape, w: int, h: int, i: int, j: int)
    requires
        0 <= w,
        0 <= h,
        shape.has_interleave_rule(),
        0 <= i <= j < partition(shape, w, h).len(),
    ensures
        placement(shape, w, h).len() == partition(shape, w, h).len(),
        inside(partition(shape, w, h), placement(shape, w, h), i, w, h),
        i < j ==> apart(partition(shape, w, h), placement(shape, w, h), i, j),
{
    match shape {
        FrameShape::Mono | FrameShape::Dual | FrameShape::Triple | FrameShape::Quad => {
            lemma_pair_plain(shape, w, h, i, j);
        },
        FrameShape::SideVert | FrameShape::SideVert2 => {
            lemma_pair_side(shape, w, h, i, j);
        },
        FrameShape::VertEmph | FrameShape::VertEmph2 => {
            lemma_pair_vert(shape, w, h, i, j);
        },
        FrameShape::HorizEmph | FrameShape::HorizEmph2 => {
            lemma_pair_horiz(shape, w, h, i, j);
        },
        FrameShape::CentreEmphVert | FrameShape::CentreEmphVert2 => {
            lemma_pair_centre(shape, w, h, i, j);
        },
        FrameShape::MoreHoriz => {
            lemma_pair_more(shape, w, h, i, j);
        },
        FrameShape::MoreHoriz2 => {
            lemma_pair_more_turned(shape, w, h, i, j);
        },
        FrameShape::ExtendedLandscape => {
            lemma_pair_landscape(shape, w, h, i, j);
        },
        FrameShape::ExtendedLandscape2 | FrameShape::OffsetVH4x4 => {},
    }
}

#[verifier::rlimit(40)]
proof fn lemma_pair_plain(shape: FrameShape, w: int, h: int, i: int, j: int)
    requires
        0 <= w,
        0 <= h,
        shape == FrameShape::Mono || shape == FrameShape::Dual || shape == FrameShape::Triple || shape == FrameShape::Quad,
        0 <= i <= j < partition(shape, w, h).len(),
    ensures
        placement(shape, w, h).len() == partition(shape, w, h).len(),
        inside(partition(shape, w, h), placement(shape, w, h), i, w, h),
        i < j ==> apart(partition(shape, w, h), placement(shape, w, h), i, j),
{
}

#[verifier::rlimit(40)]
proof fn lemma_pair_side(shape: FrameShape, w: int, h: int, i: int, j: int)
    requires
        0 <= w,
        0 <= h,
        shape == FrameShape::SideVert || shape == FrameShape::SideVert2,
        0 <= i <= j < partition(shape, w, h).len(),
    ensures
        placement(shape, w, h).len() == partition(shape, w, h).len(),
        inside(partition(shape, w, h), placement(shape, w, h), i, w, h),
        i < j ==> apart(partition(shape, w, h), placement(shape, w, h), i, j),
{
}

#[verifier::rlimit(40)]
proof fn lemma_pair_vert(shape: FrameShape, w: int, h: int, i: int, j: int)
    requires
        0 <= w,
        0 <= h,
        shape == FrameShape::VertEmph || shape == FrameShape::VertEmph2,
        0 <= i <= j < partition(shape, w, h).len(),
    ensures
        placement(shape, w, h).len() == partition(shape, w, h).len(),
        inside(partition(shape, w, h), placement(shape, w, h), i, w, h),
        i < j ==> apart(partition(shape, w, h), placement(shape, w, h), i, j),
{
}

#[verifier::rlimit(40)]
proof fn lemma_pair_horiz(shape: FrameShape, w: int, h: int, i: int, j: int)
    requires
        0 <= w,
        0 <= h,
        shape == FrameShape::HorizEmph || shape == FrameShape::HorizEmph2,
        0 <= i <= j < partition(shape, w, h).len(),
    ensures
        placement(shape, w, h).len() == partition(shape, w, h).len(),
        inside(partition(shape, w, h), placement(shape, w, h), i, w, h),
        i < j ==> apart(partition(shape, w, h), placement(shape, w, h), i, j),
{
}

#[verifier::rlimit(40)]
proof fn lemma_pair_centre(shape: FrameShape, w: int, h: int, i: int, j: int)
    requires
        0 <= w,
        0 <= h,
        shape == FrameShape::CentreEmphVert || shape == FrameShape::CentreEmphVert2,
        0 <= i <= j < partition(shape, w, h).len(),
    ensures
        placement(shape, w, h).len() == partition(shape, w, h).len(),
        inside(partition(shape, w, h), placement(shape, w, h), i, w, h),
        i < j ==> apart(partition(shape, w, h), placement(shape, w, h), i, j),
{
}

#[verifier::rlimit(80)]
proof fn lemma_pair_more(shape: FrameShape, w: int, h: int, i: int, j: int)
    requires
        0 <= w,
        0 <= h,
        shape == FrameShape::MoreHoriz,
        0 <= i <= j < partition(shape, w, h).len(),
    ensures
        placement(shape, w, h).len() == partition(shape, w, h).len(),
        inside(partition(shape, w, h), placement(shape, w, h), i, w, h),
        i < j ==> apart(partition(shape, w, h), placement(shape, w, h), i, j),
{
}

#[verifier::rlimit(80)]
proof fn lemma_pair_more_turned(shape: FrameShape, w: int, h: int, i: int, j: int)
    requires
        0 <= w,
        0 <= h,
        shape == FrameShape::MoreHoriz2,
        0 <= i <= j < partition(shape, w, h).len(),
    ensures
        placement(shape, w, h).len() == partition(shape, w, h).len(),
        inside(partition(shape, w, h), placement(shape, w, h), i, w, h),
        i < j ==> apart(partition(shape, w, h), placement(shape, w, h), i, j),
{
}

#[verifier::rlimit(40)]
proof fn lemma_pair_landscape(shape: FrameShape, w: int, h: int, i: int, j: int)
    requires
        0 <= w,
        0 <= h,
        shape == FrameShape::ExtendedLandscape,
        0 <= i <= j < partition(shape, w, h).len(),
    ensures
        placement(shape, w, h).len() == partition(shape, w, h).len(),
        inside(partition(shape, w, h), placement(shape, w, h), i, w, h),
        i < j ==> apart(partition(shape, w, h), placement(shape, w, h), i, j),
{
}

/// The rectangles of a layout have as many pixels together as the canvas.
pub proof fn lemma_area(shape: FrameShape, w: int, h: int)
    requires
        0 <= w,
        0 <= h,
    ensures
        area(partition(shape, w, h), partition(shape, w, h).len() as int) == w * h,
{
    let r = partition(shape, w, h);
    reveal_with_fuel(area, 10);
    let c = w / 5 * 3;
    let l = (w - c) / 2;
    let rr = w - c - l;
    match shape {
        FrameShape::Mono => {},
        FrameShape::Dual => {
            lemma_product_split(w / 2, w - w / 2, h);
        },
        FrameShape::Triple => {
            lemma_product_split(w / 3, w - w / 3 - w / 3, h);
            lemma_product_split(w - w / 3, w / 3, h);
        },
        FrameShape::Quad => {
            lemma_product_split(w / 2, w - w / 2, h / 2);
            lemma_product_split(w / 2, w - w / 2, h - h / 2);
            lemma_product_split(h / 2, h - h / 2, w);
        },
        FrameShape::VertEmph => {
            lemma_product_split(h / 2, h - h / 2, w / 3);
            lemma_product_split(w - w / 3 - w / 3, w / 3, h);
            lemma_product_split(w - w / 3, w / 3, h);
        },
        FrameShape::HorizEmph => {
            lemma_product_split(h / 2, h - h / 2, w - w / 3 - w / 3);
            lemma_product_split(w - w / 3 - w / 3, w / 3, h);
            lemma_product_split(w - w / 3, w / 3, h);
        },
        FrameShape::VertEmph2 => {
            let o = (w - w % 8) / 8;
            lemma_product_split(h / 2, h - h / 2, o * 3);
            lemma_product_split(o * 2 + w % 8, o * 3, h);
            lemma_product_split(o * 5 + w % 8, o * 3, h);
        },
        FrameShape::HorizEmph2 => {
            let o = (w - w % 4) / 4;
            lemma_product_split(h / 2, h - h / 2, o * 2 + w % 4);
            lemma_product_split(o, o * 2 + w % 4, h);
            lemma_product_split(o * 3 + w % 4, o, h);
        },
        FrameShape::SideVert | FrameShape::SideVert2 => {
            let o = (w - w % 3) / 3;
            lemma_product_split(h / 2, h - h / 2, o * 2 + w % 3);
            lemma_product_split(o, o * 2 + w % 3, h);
        },
        FrameShape::CentreEmphVert | FrameShape::CentreEmphVert2 => {
            let t = h / 5 * 3;
            lemma_product_split(c / 2, c - c / 2, h - t);
            lemma_product_split(t, h - t, c);
            lemma_product_split(c, l, h);
            lemma_product_split(c + l, rr, h);
        },
        FrameShape::MoreHoriz | FrameShape::MoreHoriz2 => {
            let t = h / 5 * 3;
            let s = h / 3 * 2;
            lemma_product_split(c / 2, c - c / 2, h - t);
            lemma_product_split(t, h - t, c);
            lemma_product_split(s, h - s, l);
            lemma_product_split(s, h - s, rr);
            lemma_product_split(c, l, h);
            lemma_product_split(c + l, rr, h);
        },
        FrameShape::ExtendedLandscape => {
            let t = h / 5 * 3;
            let a = h / 3;
            lemma_product_split(c / 2, c - c / 2, h - t);
            lemma_product_split(t, h - t, c);
            lemma_product_split(a, a, l);
            lemma_product_split(a + a, h - a - a, l);
            lemma_product_split(a, a, rr);
            lemma_product_split(a + a, h - a - a, rr);
            lemma_product_split(c, l, h);
            lemma_product_split(c + l, rr, h);
        },
        FrameShape::ExtendedLandscape2 => {
            let a = h / 3;
            let b = h - a - a;
            lemma_product_split(a, a, c);
            lemma_product_split(a, a, l);
            lemma_product_split(a, a, rr);
            lemma_product_split(c, l, a + a);
            lemma_product_split(c + l, rr, a + a);
            lemma_product_split(w / 3, w - w / 3 - w / 3, b);
            lemma_product_split(w - w / 3, w / 3, b);
            lemma_product_split(a + a, b, w);
        },
        FrameShape::OffsetVH4x4 => {
            let q = w / 4;
            lemma_product_split(w - q * 3, q, h / 4);
            lemma_product_split(w - q * 2, q, h / 4);
            lemma_product_split(w - q, q, h / 4);
            lemma_product_split(w - q * 3, q, h - h / 4);
            lemma_product_split(w - q * 2, q, h - h / 4);
            lemma_product_split(w - q, q, h - h / 4);
            lemma_product_split(h / 4, h - h / 4, w);
        },
    }
}

} // verus!
