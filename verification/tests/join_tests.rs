use video_mosaic::frame_shape::frame_join::{interleave, RawFrame};
use video_mosaic::frame_shape::FrameShape;
use video_mosaic::video::VideoEditData;

/// A frame whose row `r` is filled with the byte `region * 16 + r`.
fn frame(region: u8, width: u32, rows: u32) -> RawFrame {
    let mut data = Vec::new();
    for r in 0..rows {
        for _ in 0..width * 3 {
            data.push(region * 16 + r as u8);
        }
    }
    RawFrame { width, height: rows, data }
}

/// The chunk that row `r` of `region` brings, `width` pixels wide.
fn chunk(out: &mut Vec<u8>, region: u8, r: u8, width: u32) {
    for _ in 0..width * 3 {
        out.push(region * 16 + r);
    }
}

fn sized(shape: FrameShape, w: u32, h: u32) -> VideoEditData {
    let mut sizer = VideoEditData::init_wxh(w, h, shape.count());
    sizer.set_shape(shape);
    sizer
}

fn frames_for(sizer: &VideoEditData) -> Vec<RawFrame> {
    sizer
        .get_shapes()
        .iter()
        .enumerate()
        .map(|(i, (w, h))| frame(i as u8, *w, *h))
        .collect()
}

const WITH_RULE: [FrameShape; 14] = [
    FrameShape::Mono,
    FrameShape::Dual,
    FrameShape::Triple,
    FrameShape::Quad,
    FrameShape::VertEmph,
    FrameShape::HorizEmph,
    FrameShape::VertEmph2,
    FrameShape::HorizEmph2,
    FrameShape::SideVert,
    FrameShape::SideVert2,
    FrameShape::CentreEmphVert,
    FrameShape::CentreEmphVert2,
    FrameShape::MoreHoriz,
    FrameShape::MoreHoriz2,
];

#[test]
fn dual_rows_alternate_left_right() {
    let sizer = sized(FrameShape::Dual, 4, 2);
    let out = FrameShape::Dual.frame_joiner(frames_for(&sizer), &sizer);
    let mut want = Vec::new();
    for r in 0..2 {
        chunk(&mut want, 0, r, 2);
        chunk(&mut want, 1, r, 2);
    }
    assert_eq!(out, want);
}

#[test]
fn mono_is_the_frame_itself() {
    let sizer = sized(FrameShape::Mono, 3, 2);
    let frames = frames_for(&sizer);
    let want = frames[0].data.clone();
    assert_eq!(FrameShape::Mono.frame_joiner(frames, &sizer), want);
}

#[test]
fn quad_top_pair_then_bottom_pair() {
    let sizer = sized(FrameShape::Quad, 4, 3);
    assert_eq!(sizer.get_shapes().to_vec(), vec![(2, 1), (2, 1), (2, 2), (2, 2)]);
    let out = FrameShape::Quad.frame_joiner(frames_for(&sizer), &sizer);
    let mut want = Vec::new();
    chunk(&mut want, 0, 0, 2);
    chunk(&mut want, 1, 0, 2);
    for r in 0..2 {
        chunk(&mut want, 2, r, 2);
        chunk(&mut want, 3, r, 2);
    }
    assert_eq!(out, want);
}

#[test]
fn vert_emph_centre_runs_through_both_halves() {
    let sizer = sized(FrameShape::VertEmph, 6, 4);
    assert_eq!(sizer.get_shapes().to_vec(), vec![(2, 4), (2, 2), (2, 2), (2, 2), (2, 2)]);
    let out = FrameShape::VertEmph.frame_joiner(frames_for(&sizer), &sizer);
    let mut want = Vec::new();
    for r in 0..2 {
        chunk(&mut want, 1, r, 2);
        chunk(&mut want, 0, r, 2);
        chunk(&mut want, 2, r, 2);
    }
    for r in 0..2 {
        chunk(&mut want, 3, r, 2);
        chunk(&mut want, 0, r + 2, 2);
        chunk(&mut want, 4, r, 2);
    }
    assert_eq!(out, want);
}

#[test]
fn horiz_emph_middle_column_switches_to_lower_region() {
    let sizer = sized(FrameShape::HorizEmph, 6, 3);
    assert_eq!(sizer.get_shapes().to_vec(), vec![(2, 3), (2, 1), (2, 2), (2, 3)]);
    let out = FrameShape::HorizEmph.frame_joiner(frames_for(&sizer), &sizer);
    let mut want = Vec::new();
    chunk(&mut want, 0, 0, 2);
    chunk(&mut want, 1, 0, 2);
    chunk(&mut want, 3, 0, 2);
    chunk(&mut want, 0, 1, 2);
    chunk(&mut want, 2, 0, 2);
    chunk(&mut want, 3, 1, 2);
    chunk(&mut want, 0, 2, 2);
    chunk(&mut want, 2, 1, 2);
    chunk(&mut want, 3, 2, 2);
    assert_eq!(out, want);
}

#[test]
fn side_vert_and_its_mirror() {
    let sizer = sized(FrameShape::SideVert, 6, 3);
    assert_eq!(sizer.get_shapes().to_vec(), vec![(2, 3), (4, 1), (4, 2)]);
    let out = FrameShape::SideVert.frame_joiner(frames_for(&sizer), &sizer);
    let mut want = Vec::new();
    chunk(&mut want, 0, 0, 2);
    chunk(&mut want, 1, 0, 4);
    chunk(&mut want, 0, 1, 2);
    chunk(&mut want, 2, 0, 4);
    chunk(&mut want, 0, 2, 2);
    chunk(&mut want, 2, 1, 4);
    assert_eq!(out, want);

    let out = FrameShape::SideVert2.frame_joiner(frames_for(&sizer), &sizer);
    let mut want = Vec::new();
    chunk(&mut want, 1, 0, 4);
    chunk(&mut want, 0, 0, 2);
    chunk(&mut want, 2, 0, 4);
    chunk(&mut want, 0, 1, 2);
    chunk(&mut want, 2, 1, 4);
    chunk(&mut want, 0, 2, 2);
    assert_eq!(out, want);
}

#[test]
fn centre_emph_vert_top_then_bottom_pair() {
    let sizer = sized(FrameShape::CentreEmphVert, 10, 5);
    assert_eq!(sizer.get_shapes().to_vec(), vec![(6, 3), (2, 5), (2, 5), (3, 2), (3, 2)]);
    let out = FrameShape::CentreEmphVert.frame_joiner(frames_for(&sizer), &sizer);
    let mut want = Vec::new();
    for r in 0..5u8 {
        chunk(&mut want, 1, r, 2);
        if r < 3 {
            chunk(&mut want, 0, r, 6);
        } else {
            chunk(&mut want, 3, r - 3, 3);
            chunk(&mut want, 4, r - 3, 3);
        }
        chunk(&mut want, 2, r, 2);
    }
    assert_eq!(out, want);
}

#[test]
fn centre_emph_vert2_pair_on_top() {
    let sizer = sized(FrameShape::CentreEmphVert2, 10, 5);
    let out = FrameShape::CentreEmphVert2.frame_joiner(frames_for(&sizer), &sizer);
    let mut want = Vec::new();
    for r in 0..5u8 {
        chunk(&mut want, 1, r, 2);
        if r < 2 {
            chunk(&mut want, 3, r, 3);
            chunk(&mut want, 4, r, 3);
        } else {
            chunk(&mut want, 0, r - 2, 6);
        }
        chunk(&mut want, 2, r, 2);
    }
    assert_eq!(out, want);
}

#[test]
fn more_horiz_three_columns_switch_on_their_own() {
    let sizer = sized(FrameShape::MoreHoriz, 10, 15);
    assert_eq!(
        sizer.get_shapes().to_vec(),
        vec![(6, 9), (2, 10), (2, 10), (3, 6), (3, 6), (2, 5), (2, 5)]
    );
    let out = FrameShape::MoreHoriz.frame_joiner(frames_for(&sizer), &sizer);
    let mut want = Vec::new();
    for r in 0..15u8 {
        if r < 5 {
            chunk(&mut want, 5, r, 2);
        } else {
            chunk(&mut want, 1, r - 5, 2);
        }
        if r < 9 {
            chunk(&mut want, 0, r, 6);
        } else {
            chunk(&mut want, 3, r - 9, 3);
            chunk(&mut want, 4, r - 9, 3);
        }
        if r < 5 {
            chunk(&mut want, 6, r, 2);
        } else {
            chunk(&mut want, 2, r - 5, 2);
        }
    }
    assert_eq!(out, want);
}

#[test]
fn more_horiz2_is_more_horiz_upside_down() {
    let sizer = sized(FrameShape::MoreHoriz2, 10, 15);
    let out = FrameShape::MoreHoriz2.frame_joiner(frames_for(&sizer), &sizer);
    let mut want = Vec::new();
    for r in 0..15u8 {
        if r < 10 {
            chunk(&mut want, 1, r, 2);
        } else {
            chunk(&mut want, 5, r - 10, 2);
        }
        if r < 6 {
            chunk(&mut want, 3, r, 3);
            chunk(&mut want, 4, r, 3);
        } else {
            chunk(&mut want, 0, r - 6, 6);
        }
        if r < 10 {
            chunk(&mut want, 2, r, 2);
        } else {
            chunk(&mut want, 6, r - 10, 2);
        }
    }
    assert_eq!(out, want);
}

#[test]
fn extended_landscape_visits_nine_regions() {
    let shape = FrameShape::ExtendedLandscape;
    let sizer = sized(shape, 10, 15);
    assert_eq!(
        sizer.get_shapes().to_vec(),
        vec![(6, 9), (3, 6), (3, 6), (2, 5), (2, 5), (2, 5), (2, 5), (2, 5), (2, 5)]
    );
    let out = shape.frame_joiner(frames_for(&sizer), &sizer);
    let mut want = Vec::new();
    for r in 0..15u8 {
        let (left, right) = if r < 5 { (3, 4) } else if r < 10 { (5, 6) } else { (7, 8) };
        chunk(&mut want, left, r % 5, 2);
        if r < 9 {
            chunk(&mut want, 0, r, 6);
        } else {
            chunk(&mut want, 1, r - 9, 3);
            chunk(&mut want, 2, r - 9, 3);
        }
        chunk(&mut want, right, r % 5, 2);
    }
    assert_eq!(out, want);
}

#[test]
fn complete_frame_has_three_bytes_per_canvas_pixel() {
    for shape in WITH_RULE.iter().chain([FrameShape::ExtendedLandscape].iter()) {
        for (w, h) in [(40u32, 30u32), (37, 23), (64, 7), (2560 / 16, 1440 / 16), (9, 1)] {
            let sizer = sized(*shape, w, h);
            let frames = frames_for(&sizer);
            if !shape.can_join(&frames) {
                continue;
            }
            let out = shape.frame_joiner(frames, &sizer);
            assert_eq!(out.len() as u32, w * h * 3, "{:?} at {}x{}", shape, w, h);
        }
    }
}

#[test]
fn join_stops_where_a_required_region_runs_out() {
    let sizer = sized(FrameShape::Dual, 4, 2);
    let frames = vec![frame(0, 2, 2), frame(1, 2, 1)];
    let out = FrameShape::Dual.frame_joiner(frames, &sizer);
    let mut want = Vec::new();
    chunk(&mut want, 0, 0, 2);
    chunk(&mut want, 1, 0, 2);
    chunk(&mut want, 0, 1, 2);
    assert_eq!(out, want);
}

#[test]
fn ragged_pair_still_reads_its_second_region() {
    // Region 3 runs out one row before region 4: the row of region 4 is
    // still written before the column switches to region 0.
    let sizer = sized(FrameShape::CentreEmphVert2, 10, 5);
    let frames = vec![frame(0, 6, 2), frame(1, 2, 3), frame(2, 2, 3), frame(3, 3, 1), frame(4, 3, 2)];
    let out = FrameShape::CentreEmphVert2.frame_joiner(frames, &sizer);
    let mut want = Vec::new();
    chunk(&mut want, 1, 0, 2);
    chunk(&mut want, 3, 0, 3);
    chunk(&mut want, 4, 0, 3);
    chunk(&mut want, 2, 0, 2);
    chunk(&mut want, 1, 1, 2);
    chunk(&mut want, 4, 1, 3);
    chunk(&mut want, 0, 0, 6);
    chunk(&mut want, 2, 1, 2);
    chunk(&mut want, 1, 2, 2);
    chunk(&mut want, 0, 1, 6);
    chunk(&mut want, 2, 2, 2);
    assert_eq!(out, want);
}

#[test]
fn bytes_behind_the_last_whole_row_are_ignored() {
    let sizer = sized(FrameShape::Mono, 2, 1);
    let mut only = frame(0, 2, 1);
    only.data.extend_from_slice(&[9, 9, 9, 9, 9]);
    let out = FrameShape::Mono.frame_joiner(vec![only], &sizer);
    assert_eq!(out, vec![0u8; 6]);
}

#[test]
fn can_join_needs_a_rule_a_frame_per_region_and_pixels() {
    let two = vec![frame(0, 2, 1), frame(1, 2, 1)];
    assert!(FrameShape::Dual.can_join(&two));
    assert!(!FrameShape::Triple.can_join(&two));
    assert!(!FrameShape::Dual.can_join(&vec![frame(0, 2, 1), frame(1, 0, 1)]));
    let eight: Vec<RawFrame> = (0..8).map(|i| frame(i, 1, 1)).collect();
    assert!(!FrameShape::ExtendedLandscape2.can_join(&eight));
    assert!(!FrameShape::OffsetVH4x4.can_join(&eight));
}

#[test]
fn plan_names_every_region_of_its_layout() {
    for shape in WITH_RULE.iter().chain([FrameShape::ExtendedLandscape].iter()) {
        let plan = shape.interleave_plan();
        let mut seen = vec![false; shape.count() as usize];
        for phase in plan.iter() {
            for slot in phase.iter() {
                for stage in slot.iter() {
                    for region in stage.iter() {
                        assert!(*region < seen.len());
                        seen[*region] = true;
                    }
                }
            }
        }
        assert!(seen.iter().all(|s| *s), "{:?}", shape);
    }
    assert!(FrameShape::OffsetVH4x4.interleave_plan().is_empty());
}

#[test]
fn a_plan_of_ones_own_is_run_as_it_stands() {
    // Two rows of region 1, then region 0 until it runs out.
    let frames = vec![frame(0, 1, 2), frame(1, 2, 2)];
    let plan = vec![vec![vec![vec![1]]], vec![vec![vec![0]]]];
    let mut want = Vec::new();
    chunk(&mut want, 1, 0, 2);
    chunk(&mut want, 1, 1, 2);
    chunk(&mut want, 0, 0, 1);
    chunk(&mut want, 0, 1, 1);
    assert_eq!(interleave(&frames, &plan, 0), want);
    assert_eq!(interleave(&frames, &vec![], 16), Vec::<u8>::new());
}

/// The top left corner of each region, from the sizes of the regions.
fn corners(shape: FrameShape, r: &[(u32, u32)]) -> Vec<(u32, u32)> {
    match shape {
        FrameShape::Mono => vec![(0, 0)],
        FrameShape::Dual => vec![(0, 0), (r[0].0, 0)],
        FrameShape::Triple => vec![(0, 0), (r[0].0, 0), (r[0].0 + r[1].0, 0)],
        FrameShape::Quad => vec![(0, 0), (r[0].0, 0), (0, r[0].1), (r[2].0, r[1].1)],
        FrameShape::VertEmph | FrameShape::VertEmph2 => vec![
            (r[1].0, 0),
            (0, 0),
            (r[1].0 + r[0].0, 0),
            (0, r[1].1),
            (r[3].0 + r[0].0, r[2].1),
        ],
        FrameShape::HorizEmph | FrameShape::HorizEmph2 => {
            vec![(0, 0), (r[0].0, 0), (r[0].0, r[1].1), (r[0].0 + r[1].0, 0)]
        }
        FrameShape::SideVert => vec![(0, 0), (r[0].0, 0), (r[0].0, r[1].1)],
        FrameShape::SideVert2 => vec![(r[1].0, 0), (0, 0), (0, r[1].1)],
        FrameShape::CentreEmphVert => vec![
            (r[1].0, 0),
            (0, 0),
            (r[1].0 + r[0].0, 0),
            (r[1].0, r[0].1),
            (r[1].0 + r[3].0, r[0].1),
        ],
        FrameShape::CentreEmphVert2 => vec![
            (r[1].0, r[3].1),
            (0, 0),
            (r[1].0 + r[0].0, 0),
            (r[1].0, 0),
            (r[1].0 + r[3].0, 0),
        ],
        FrameShape::MoreHoriz => vec![
            (r[5].0, 0),
            (0, r[5].1),
            (r[5].0 + r[0].0, r[6].1),
            (r[5].0, r[0].1),
            (r[5].0 + r[3].0, r[0].1),
            (0, 0),
            (r[5].0 + r[0].0, 0),
        ],
        FrameShape::MoreHoriz2 => vec![
            (r[1].0, r[3].1),
            (0, 0),
            (r[1].0 + r[0].0, 0),
            (r[1].0, 0),
            (r[1].0 + r[3].0, 0),
            (0, r[1].1),
            (r[1].0 + r[0].0, r[2].1),
        ],
        FrameShape::ExtendedLandscape => vec![
            (r[3].0, 0),
            (r[3].0, r[0].1),
            (r[3].0 + r[1].0, r[0].1),
            (0, 0),
            (r[3].0 + r[0].0, 0),
            (0, r[3].1),
            (r[3].0 + r[0].0, r[4].1),
            (0, r[3].1 + r[5].1),
            (r[3].0 + r[0].0, r[4].1 + r[6].1),
        ],
        _ => vec![],
    }
}

#[test]
fn every_row_stands_where_its_region_lies_on_the_canvas() {
    for shape in WITH_RULE.iter().chain([FrameShape::ExtendedLandscape].iter()) {
        for (w, h) in [(40u32, 15u32), (30, 12), (20, 9), (50, 7), (10, 15), (6, 5), (11, 10), (33, 14)] {
            let sizer = sized(*shape, w, h);
            let frames = frames_for(&sizer);
            if !shape.can_join(&frames) {
                continue;
            }
            let rects = sizer.get_shapes().to_vec();
            let at = corners(*shape, &rects);
            let out = shape.frame_joiner(frames, &sizer);
            assert_eq!(out.len() as u32, w * h * 3);
            for (r, (rw, rh)) in rects.iter().enumerate() {
                let (x, y) = at[r];
                for c in 0..*rh {
                    let from = (((y + c) * w + x) * 3) as usize;
                    let row = &out[from..from + (*rw * 3) as usize];
                    let byte = (r as u8) * 16 + c as u8;
                    assert!(
                        row.iter().all(|b| *b == byte),
                        "{:?} at {}x{}: row {} of region {}",
                        shape,
                        w,
                        h,
                        c,
                        r
                    );
                }
            }
        }
    }
}

#[test]
fn quad_pixels_on_the_canvas() {
    let sizer = sized(FrameShape::Quad, 4, 2);
    let out = FrameShape::Quad.frame_joiner(frames_for(&sizer), &sizer);
    assert_eq!(
        out,
        vec![0, 0, 0, 0, 0, 0, 16, 16, 16, 16, 16, 16, 32, 32, 32, 32, 32, 32, 48, 48, 48, 48, 48, 48]
    );
}

#[test]
fn extended_landscape_with_side_columns_of_two_widths() {
    let shape = FrameShape::ExtendedLandscape;
    let sizer = sized(shape, 6, 5);
    assert_eq!(
        sizer.get_shapes().to_vec(),
        vec![(3, 3), (1, 2), (2, 2), (1, 1), (2, 1), (1, 3), (2, 1), (1, 1), (2, 3)]
    );
    let out = shape.frame_joiner(frames_for(&sizer), &sizer);
    assert_eq!(out.len(), 6 * 5 * 3);
    let mut want = Vec::new();
    // Left column: regions 3, 5, 7; right column: regions 4, 6, 8.
    chunk(&mut want, 3, 0, 1);
    chunk(&mut want, 0, 0, 3);
    chunk(&mut want, 4, 0, 2);
    chunk(&mut want, 5, 0, 1);
    chunk(&mut want, 0, 1, 3);
    chunk(&mut want, 6, 0, 2);
    chunk(&mut want, 5, 1, 1);
    chunk(&mut want, 0, 2, 3);
    chunk(&mut want, 8, 0, 2);
    chunk(&mut want, 5, 2, 1);
    chunk(&mut want, 1, 0, 1);
    chunk(&mut want, 2, 0, 2);
    chunk(&mut want, 8, 1, 2);
    chunk(&mut want, 7, 0, 1);
    chunk(&mut want, 1, 1, 1);
    chunk(&mut want, 2, 1, 2);
    chunk(&mut want, 8, 2, 2);
    assert_eq!(out, want);
    for row in out.chunks(18) {
        assert_eq!(row.len(), 18);
    }
}
