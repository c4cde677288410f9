use video_mosaic::frame_shape::FrameShape;
use video_mosaic::video::VideoEditData;

fn shapes_of(shape: FrameShape, w: u32, h: u32) -> Vec<(u32, u32)> {
    let mut sizer = VideoEditData::init_wxh(w, h, shape.count());
    sizer.set_shape(shape);
    sizer.get_shapes().to_vec()
}

#[test]
fn every_layout_reports_its_region_count() {
    let counts = [
        (FrameShape::Mono, 1),
        (FrameShape::Dual, 2),
        (FrameShape::Triple, 3),
        (FrameShape::Quad, 4),
        (FrameShape::VertEmph, 5),
        (FrameShape::HorizEmph, 4),
        (FrameShape::VertEmph2, 5),
        (FrameShape::HorizEmph2, 4),
        (FrameShape::SideVert, 3),
        (FrameShape::SideVert2, 3),
        (FrameShape::CentreEmphVert, 5),
        (FrameShape::CentreEmphVert2, 5),
        (FrameShape::MoreHoriz, 7),
        (FrameShape::MoreHoriz2, 7),
        (FrameShape::ExtendedLandscape, 9),
        (FrameShape::ExtendedLandscape2, 8),
        (FrameShape::OffsetVH4x4, 8),
    ];
    for (shape, count) in counts {
        assert_eq!(shape.count(), count);
        assert_eq!(shapes_of(shape, 2560, 1440).len(), count as usize);
    }
    assert_eq!(FrameShape::all().len(), 17);
}

#[test]
fn init_is_the_default_canvas() {
    let sizer = VideoEditData::init();
    assert_eq!(sizer.output_width, 2550);
    assert_eq!(sizer.output_height, 1440);
    assert_eq!(sizer.fps, 30);
    assert_eq!(sizer.get_shapes().to_vec(), vec![(5, 5); 25]);
}

#[test]
fn init_wxh_cuts_equal_columns() {
    let sizer = VideoEditData::init_wxh(100, 50, 3);
    assert_eq!(sizer.get_shapes().to_vec(), vec![(33, 50); 3]);
    assert_eq!(VideoEditData::init_wxh(100, 50, 0).get_shapes().len(), 0);
}

#[test]
fn init_abc_shape_adds_the_widths() {
    let sizer = VideoEditData::init_abc_shape(vec![10, 20, 30], 40);
    assert_eq!(sizer.output_width, 60);
    assert_eq!(sizer.output_height, 40);
    assert_eq!(sizer.get_shapes().to_vec(), vec![(10, 40), (20, 40), (30, 40)]);
}

#[test]
fn set_fps_changes_only_the_rate() {
    let mut sizer = VideoEditData::init_wxh(100, 50, 2);
    sizer.set_fps(24);
    assert_eq!(sizer.fps, 24);
    assert_eq!(sizer.output_width, 100);
    assert_eq!(sizer.get_shapes().len(), 2);
}

#[test]
fn rectangles_at_the_default_size() {
    assert_eq!(shapes_of(FrameShape::Mono, 2560, 1440), vec![(2560, 1440)]);
    assert_eq!(shapes_of(FrameShape::Dual, 2560, 1440), vec![(1280, 1440), (1280, 1440)]);
    assert_eq!(
        shapes_of(FrameShape::Triple, 2560, 1440),
        vec![(853, 1440), (854, 1440), (853, 1440)]
    );
    assert_eq!(
        shapes_of(FrameShape::Quad, 2561, 1441),
        vec![(1280, 720), (1281, 720), (1280, 721), (1281, 721)]
    );
    assert_eq!(
        shapes_of(FrameShape::VertEmph, 2560, 1441),
        vec![(854, 1441), (853, 720), (853, 720), (853, 721), (853, 721)]
    );
    assert_eq!(
        shapes_of(FrameShape::HorizEmph, 2560, 1441),
        vec![(853, 1441), (854, 720), (854, 721), (853, 1441)]
    );
    assert_eq!(
        shapes_of(FrameShape::VertEmph2, 2563, 1440),
        vec![(643, 1440), (960, 720), (960, 720), (960, 720), (960, 720)]
    );
    assert_eq!(
        shapes_of(FrameShape::HorizEmph2, 2563, 1441),
        vec![(640, 1441), (1283, 720), (1283, 721), (640, 1441)]
    );
    assert_eq!(
        shapes_of(FrameShape::SideVert, 2560, 1440),
        vec![(853, 1440), (1707, 720), (1707, 720)]
    );
    assert_eq!(
        shapes_of(FrameShape::SideVert2, 2560, 1440),
        shapes_of(FrameShape::SideVert, 2560, 1440)
    );
    assert_eq!(
        shapes_of(FrameShape::CentreEmphVert, 2560, 1440),
        vec![(1536, 864), (512, 1440), (512, 1440), (768, 576), (768, 576)]
    );
    assert_eq!(
        shapes_of(FrameShape::MoreHoriz, 2560, 1440),
        vec![(1536, 864), (512, 960), (512, 960), (768, 576), (768, 576), (512, 480), (512, 480)]
    );
    assert_eq!(
        shapes_of(FrameShape::ExtendedLandscape, 2560, 1441),
        vec![
            (1536, 864),
            (768, 577),
            (768, 577),
            (512, 480),
            (512, 480),
            (512, 481),
            (512, 480),
            (512, 480),
            (512, 481)
        ]
    );
    assert_eq!(
        shapes_of(FrameShape::ExtendedLandscape2, 2560, 1441),
        vec![
            (1536, 960),
            (853, 481),
            (854, 481),
            (853, 481),
            (512, 480),
            (512, 480),
            (512, 480),
            (512, 480)
        ]
    );
    assert_eq!(
        shapes_of(FrameShape::OffsetVH4x4, 2562, 1441),
        vec![
            (642, 360),
            (640, 360),
            (640, 360),
            (640, 360),
            (640, 1081),
            (640, 1081),
            (642, 1081),
            (640, 1081)
        ]
    );
}

#[test]
fn uneven_side_columns_of_the_centre_layouts() {
    // 6 pixels: the centre takes 3, the left column 1, the right column 2.
    assert_eq!(
        shapes_of(FrameShape::CentreEmphVert, 6, 5),
        vec![(3, 3), (1, 5), (2, 5), (1, 2), (2, 2)]
    );
}

#[test]
fn rectangles_have_as_many_pixels_as_the_canvas() {
    for shape in FrameShape::all() {
        for (w, h) in [(2560u32, 1440u32), (1920, 1080), (37, 23), (7, 5), (1, 1), (0, 0)] {
            let area: u64 = shapes_of(shape, w, h).iter().map(|(a, b)| *a as u64 * *b as u64).sum();
            assert_eq!(area, w as u64 * h as u64, "{:?} at {}x{}", shape, w, h);
        }
    }
}

#[test]
fn rows_of_the_triple_layout_fill_the_width() {
    for w in 0..50u32 {
        let rects = shapes_of(FrameShape::Triple, w, 10);
        assert_eq!(rects[0].0 + rects[1].0 + rects[2].0, w);
        assert!(rects.iter().all(|r| r.1 == 10));
    }
}

#[test]
fn columns_of_the_quad_layout_fill_the_height() {
    for h in 0..50u32 {
        let rects = shapes_of(FrameShape::Quad, 10, h);
        assert_eq!(rects[0].1 + rects[2].1, h);
        assert_eq!(rects[1].1 + rects[3].1, h);
        assert_eq!(rects[0].0 + rects[1].0, 10);
        assert_eq!(rects[2].0 + rects[3].0, 10);
    }
}

#[test]
fn layouts_are_found_by_any_of_their_names() {
    assert_eq!(FrameShape::from_str_opt("2"), Some(FrameShape::Dual));
    assert_eq!(FrameShape::from_str_opt("Double"), Some(FrameShape::Dual));
    assert_eq!(FrameShape::from_str_opt("d"), Some(FrameShape::Dual));
    assert_eq!(FrameShape::from_str_opt("  TRIPLE \n"), Some(FrameShape::Triple));
    assert_eq!(FrameShape::from_str_opt("quad"), Some(FrameShape::Quad));
    assert_eq!(FrameShape::from_str_opt("v2"), Some(FrameShape::VertEmph2));
    assert_eq!(FrameShape::from_str_opt("ce2"), Some(FrameShape::CentreEmphVert2));
    assert_eq!(FrameShape::from_str_opt("ExtendedLandscape"), Some(FrameShape::ExtendedLandscape));
    assert_eq!(FrameShape::from_str_opt("el2"), Some(FrameShape::ExtendedLandscape2));
    assert_eq!(FrameShape::from_str_opt("4x4"), Some(FrameShape::OffsetVH4x4));
    assert_eq!(FrameShape::from_str_opt("offsetvh"), Some(FrameShape::OffsetVH4x4));
    assert_eq!(FrameShape::from_str_opt("17"), Some(FrameShape::OffsetVH4x4));
    assert_eq!(FrameShape::from_str_opt("1"), Some(FrameShape::Mono));
    assert_eq!(FrameShape::from_str_opt("double up"), None);
    assert_eq!(FrameShape::from_str_opt(""), None);
    assert_eq!(FrameShape::from_str_opt("18"), None);
}

#[test]
fn every_layout_answers_to_its_own_names() {
    for shape in FrameShape::all() {
        for name in shape.names() {
            assert_eq!(FrameShape::from_str_opt(name), Some(shape));
        }
    }
    assert_eq!(FrameShape::Dual.diagram(), "../readme_data/frame_shapes_1.svg");
    assert_eq!(FrameShape::Mono.diagram(), "");
}
