use video_mosaic::cli::{
    can_split_by_itself, canvas_for, canvas_size_arg, decode_filter, folders_to_ask, is_yes,
    source_for, Source,
};
use video_mosaic::frame_shape::FrameShape;
use video_mosaic::plan::{folder_plan, probe_needed, FolderUse, GroupError};
use video_mosaic::settings::{args_of_pairs, set_encoder_args, try_check_local_settings, wants_settings};
use video_mosaic::switches::SortOrder;
use video_mosaic::video::{Video, VideoGroup};

fn strings(v: &[&str]) -> Vec<String> {
    v.iter().map(|s| s.to_string()).collect()
}

fn video(name: &str, millis: Option<i64>) -> Video {
    let mut v = Video::from_path(name.to_string());
    v.length_millis = millis;
    v
}

#[test]
fn settings_section_becomes_encoder_arguments() {
    let text = "[Other]\nkey=value\n[Encoder]\nvideo_encoder=libx264\n-crf=19\n-preset=slow\n";
    assert_eq!(
        try_check_local_settings(text),
        Some(strings(&["-c:v", "libx264", "-crf", "19", "-preset", "slow"]))
    );
    assert_eq!(try_check_local_settings("[Other]\nkey=value\n"), None);
    assert_eq!(try_check_local_settings(""), None);
    assert_eq!(try_check_local_settings("[Encoder]\n"), Some(vec![]));
}

#[test]
fn pairs_keep_their_order() {
    let pairs = vec![
        ("-b:v".to_string(), "4M".to_string()),
        ("video_encoder".to_string(), "av1".to_string()),
        ("Video_Encoder".to_string(), "x".to_string()),
    ];
    assert_eq!(args_of_pairs(pairs), strings(&["-b:v", "4M", "-c:v", "av1", "Video_Encoder", "x"]));
    assert_eq!(args_of_pairs(vec![]), Vec::<String>::new());
}

#[test]
fn switches_pick_the_encoder() {
    let none: Option<&str> = None;
    assert_eq!(
        set_encoder_args(true, false, true, false, false, none),
        Some(strings(&["-c:v", "av1_amf", "-rc", "cqp", "-qp_i", "34", "-qp_p", "34"]))
    );
    assert_eq!(
        set_encoder_args(true, false, false, true, false, none),
        Some(strings(&["-c:v", "hevc_amf", "-rc", "cqp", "-qp_i", "34", "-qp_p", "34"]))
    );
    assert_eq!(
        set_encoder_args(true, true, false, false, true, none),
        Some(strings(&["-c:v", "h264_amf", "-rc", "cqp", "-qp_i", "34", "-qp_p", "34"]))
    );
    assert_eq!(
        set_encoder_args(false, true, true, false, false, none),
        Some(strings(&["-c:v", "av1_nvenc", "-preset", "slow"]))
    );
    assert_eq!(
        set_encoder_args(false, true, false, true, true, none),
        Some(strings(&["-c:v", "hevc_nvenc", "-preset", "slow"]))
    );
    assert_eq!(
        set_encoder_args(false, true, false, false, true, none),
        Some(strings(&["-c:v", "h264_nvenc", "-preset", "slow"]))
    );
    assert_eq!(
        set_encoder_args(false, false, true, true, true, none),
        Some(strings(&["-c:v", "libaom-av1"]))
    );
    assert_eq!(
        set_encoder_args(false, false, false, true, false, none),
        Some(strings(&["-c:v", "libx265", "-speed", "slow", "-crf", "19"]))
    );
    assert_eq!(
        set_encoder_args(false, false, false, false, true, none),
        Some(strings(&["-c:v", "libx264", "-speed", "slow", "-crf", "19"]))
    );
    assert_eq!(set_encoder_args(false, false, false, false, false, none), None);
    assert_eq!(set_encoder_args(true, false, false, false, false, none), None);
    assert_eq!(set_encoder_args(false, true, false, false, false, none), None);
}

#[test]
fn settings_are_used_where_no_codec_is_asked_for() {
    let text = "[Encoder]\nvideo_encoder=libx264\n";
    assert_eq!(
        set_encoder_args(false, false, false, false, false, Some(text)),
        Some(strings(&["-c:v", "libx264"]))
    );
    // The AMD switch alone does not keep the settings from being read.
    assert_eq!(
        set_encoder_args(true, false, false, false, false, Some(text)),
        Some(strings(&["-c:v", "libx264"]))
    );
    assert_eq!(
        set_encoder_args(false, false, false, false, true, Some(text)),
        Some(strings(&["-c:v", "libx264", "-speed", "slow", "-crf", "19"]))
    );
    assert_eq!(set_encoder_args(false, true, false, false, false, Some(text)), None);
    assert_eq!(set_encoder_args(false, false, false, false, false, Some("no section")), None);
    assert!(wants_settings(false, false, false, false));
    assert!(!wants_settings(true, false, false, false));
    assert!(!wants_settings(false, false, false, true));
}

#[test]
fn sources_by_number_of_folders() {
    assert_eq!(source_for(0), None);
    assert_eq!(source_for(1), Some(Source::OneFolder));
    assert_eq!(source_for(2), Some(Source::Folders));
    assert_eq!(source_for(15), Some(Source::Folders));
    assert_eq!(source_for(16), None);
}

#[test]
fn one_folder_is_asked_for_on_yes() {
    assert!(is_yes("yes"));
    assert!(is_yes("Y\n"));
    assert!(is_yes("1"));
    assert!(!is_yes("no"));
    assert!(!is_yes(""));
    assert!(can_split_by_itself(FrameShape::Quad));
    assert!(!can_split_by_itself(FrameShape::Mono));
    assert_eq!(folders_to_ask(FrameShape::Triple, "y"), 1);
    assert_eq!(folders_to_ask(FrameShape::Triple, "n"), 3);
    assert_eq!(folders_to_ask(FrameShape::MoreHoriz, "y"), 7);
    assert_eq!(folders_to_ask(FrameShape::ExtendedLandscape, "1"), 9);
}

#[test]
fn canvas_defaults_to_2560_by_1440() {
    let sizer = canvas_for(None, Some(100), FrameShape::Triple);
    assert_eq!((sizer.output_width, sizer.output_height), (2560, 1440));
    assert_eq!(sizer.get_shapes().to_vec(), vec![(853, 1440); 3]);
    let sizer = canvas_for(Some(300), Some(100), FrameShape::Dual);
    assert_eq!((sizer.output_width, sizer.output_height), (300, 100));
    assert_eq!(sizer.get_shapes().to_vec(), vec![(150, 100); 2]);
}

#[test]
fn decoder_and_encoder_texts() {
    assert_eq!(
        decode_filter(853, 1440, "30"),
        "[0:v]scale=853:1440:force_original_aspect_ratio=increase[a];[a]crop=w=853:h=1440[b];[b]fps=fps=30[output]"
    );
    assert_eq!(canvas_size_arg(2560, 1440), "2560x1440");
    assert_eq!(canvas_size_arg(0, 7), "0x7");
}

fn plan_of(shape: FrameShape, folders: usize) -> Vec<(usize, FolderUse, Vec<u32>)> {
    folder_plan(shape, folders).into_iter().map(|p| (p.folder, p.how, p.positions)).collect()
}

#[test]
fn special_plans() {
    assert_eq!(
        plan_of(FrameShape::VertEmph, 2),
        vec![
            (0, FolderUse::Scan, vec![0]),
            (1, FolderUse::Swap(FrameShape::Quad), vec![1, 2, 3, 4])
        ]
    );
    assert_eq!(
        plan_of(FrameShape::HorizEmph2, 2),
        vec![
            (0, FolderUse::Swap(FrameShape::Dual), vec![0, 3]),
            (1, FolderUse::Swap(FrameShape::Dual), vec![1, 2])
        ]
    );
    assert_eq!(
        plan_of(FrameShape::CentreEmphVert, 2),
        vec![
            (0, FolderUse::Swap(FrameShape::Dual), vec![1, 2]),
            (1, FolderUse::Swap(FrameShape::Triple), vec![0, 3, 4])
        ]
    );
    assert_eq!(
        plan_of(FrameShape::ExtendedLandscape, 3),
        vec![
            (0, FolderUse::Scan, vec![0]),
            (1, FolderUse::Split(2), vec![1, 2]),
            (2, FolderUse::Split(6), vec![3, 4, 5, 6, 7, 8])
        ]
    );
    assert_eq!(
        plan_of(FrameShape::OffsetVH4x4, 2),
        vec![(0, FolderUse::Split(4), vec![0, 1, 2, 3]), (1, FolderUse::Split(4), vec![4, 5, 6, 7])]
    );
    assert_eq!(
        plan_of(FrameShape::Triple, 3),
        vec![
            (0, FolderUse::Scan, vec![0]),
            (1, FolderUse::Scan, vec![1]),
            (2, FolderUse::Scan, vec![2])
        ]
    );
    assert_eq!(plan_of(FrameShape::VertEmph, 5).len(), 5);
}

#[test]
fn every_special_plan_feeds_each_region_once() {
    for shape in FrameShape::all() {
        for folders in 2..=4 {
            let plan = folder_plan(shape, folders);
            if plan.iter().all(|p| p.how == FolderUse::Scan) {
                continue;
            }
            let mut fed: Vec<u32> = plan.iter().flat_map(|p| p.positions.clone()).collect();
            fed.sort();
            assert_eq!(fed, (0..shape.count()).collect::<Vec<u32>>(), "{:?} {}", shape, folders);
        }
    }
}

#[test]
fn folders_feed_the_regions_of_the_plan() {
    let left: Vec<Video> = (0..3).map(|i| video(&format!("l{}", i), None)).collect();
    let lengths = [10, 20, 30, 40];
    let right: Vec<Video> =
        lengths.iter().enumerate().map(|(i, l)| video(&format!("r{}", i), Some(*l))).collect();
    let group = VideoGroup::new_from_folders(
        vec![left, right],
        "out.mp4".to_string(),
        FrameShape::SideVert,
        SortOrder::Nan,
    )
    .unwrap();
    assert_eq!(group.shape_style, FrameShape::SideVert);
    assert_eq!(group.output_target, "out.mp4");
    assert_eq!(group.videos.len(), 3);
    for (p, list) in group.videos.iter().enumerate() {
        assert_eq!(list.position as usize, p);
    }
    let names: Vec<Vec<&str>> =
        group.videos.iter().map(|l| l.videos.iter().map(|v| v.src.as_str()).collect()).collect();
    assert_eq!(names, vec![vec!["l0", "l1", "l2"], vec!["r1", "r2"], vec!["r0", "r3"]]);
}

#[test]
fn horiz_emph_folders_cross_over() {
    let folder = |tag: &str| -> Vec<Video> {
        [10, 20, 30, 40]
            .iter()
            .enumerate()
            .map(|(i, l)| video(&format!("{}{}", tag, i), Some(*l)))
            .collect()
    };
    let group = VideoGroup::new_from_folders(
        vec![folder("x"), folder("y")],
        "o".to_string(),
        FrameShape::HorizEmph,
        SortOrder::Nan,
    )
    .unwrap();
    let names: Vec<Vec<&str>> =
        group.videos.iter().map(|l| l.videos.iter().map(|v| v.src.as_str()).collect()).collect();
    assert_eq!(
        names,
        vec![vec!["x1", "x2"], vec!["y1", "y2"], vec!["y0", "y3"], vec!["x0", "x3"]]
    );
}

#[test]
fn one_folder_is_split_among_all_regions() {
    let lengths = [10, 20, 30, 15, 25, 5, 40];
    let clips: Vec<Video> =
        lengths.iter().enumerate().map(|(i, l)| video(&format!("c{}", i), Some(*l))).collect();
    let group =
        VideoGroup::new_from_folder(clips, "o".to_string(), FrameShape::Triple, SortOrder::Nan)
            .unwrap();
    assert_eq!(group.videos.len(), 3);
    let names: Vec<Vec<&str>> =
        group.videos.iter().map(|l| l.videos.iter().map(|v| v.src.as_str()).collect()).collect();
    assert_eq!(names, vec![vec!["c6", "c0"], vec!["c4", "c1"], vec!["c2", "c3", "c5"]]);
}

#[test]
fn errors_of_group_making() {
    let few = vec![video("a", Some(1)), video("b", None)];
    assert_eq!(
        VideoGroup::new_from_folder(few, "o".to_string(), FrameShape::Dual, SortOrder::Nan).err(),
        Some(GroupError::TooFewClips)
    );
    let long = vec![video("a", Some(i64::MAX)), video("b", Some(1))];
    assert_eq!(
        VideoGroup::new_from_folder(long, "o".to_string(), FrameShape::Dual, SortOrder::Nan).err(),
        Some(GroupError::BadLengths)
    );
    let negative = vec![video("a", Some(-1)), video("b", Some(1))];
    assert_eq!(
        VideoGroup::new_from_folder(negative, "o".to_string(), FrameShape::Dual, SortOrder::Nan)
            .err(),
        Some(GroupError::BadLengths)
    );
    let zero = vec![video("a", Some(0)), video("b", Some(0))];
    let group = VideoGroup::new_from_folder(
        zero,
        "o".to_string(),
        FrameShape::Dual,
        SortOrder::RandomWithLargestLast,
    )
    .unwrap();
    assert_eq!(group.videos.len(), 2);
    assert!(group.videos.iter().all(|list| list.videos.len() == 1));
    let many: Vec<Vec<Video>> = (0..26).map(|i| vec![video(&format!("{}", i), None)]).collect();
    assert_eq!(
        VideoGroup::new_from_folders(many, "o".to_string(), FrameShape::Dual, SortOrder::Nan).err(),
        Some(GroupError::TooManyFolders)
    );
    let split = vec![vec![video("a", None)], vec![video("b", Some(4))]];
    assert_eq!(
        VideoGroup::new_from_folders(
            split,
            "o".to_string(),
            FrameShape::ExtendedLandscape,
            SortOrder::Nan
        )
        .err(),
        Some(GroupError::TooFewClips)
    );
    let swap = vec![vec![video("a", None)], vec![video("b", Some(-4))]];
    assert_eq!(
        VideoGroup::new_from_folders(swap, "o".to_string(), FrameShape::SideVert, SortOrder::Nan)
            .err(),
        Some(GroupError::BadLengths)
    );
}

#[test]
fn folders_are_probed_where_lengths_matter() {
    assert!(!probe_needed(FolderUse::Scan, SortOrder::Nan));
    assert!(!probe_needed(FolderUse::Scan, SortOrder::RandomSeeded(1)));
    assert!(probe_needed(FolderUse::Scan, SortOrder::LongestFirst));
    assert!(probe_needed(FolderUse::Split(2), SortOrder::Nan));
    assert!(probe_needed(FolderUse::Swap(FrameShape::Dual), SortOrder::Random));
    let mut clip = video("a", None);
    assert!(!clip.has_played());
    clip.frame_count = 1;
    assert!(clip.has_played());
}

#[test]
fn the_largest_last_order_needs_a_clip_in_every_group() {
    let both = vec![vec![video("a", Some(3))], vec![video("b", Some(4)), video("c", Some(9))]];
    let group = VideoGroup::new_from_folders(
        both,
        "o".to_string(),
        FrameShape::Dual,
        SortOrder::RandomWithLargestLast,
    )
    .unwrap();
    assert_eq!(group.videos.len(), 2);
    assert_eq!(group.videos[0].videos.len(), 1);
    assert_eq!(group.videos[1].videos.len(), 2);
    assert_eq!(group.videos[1].videos[1].src, "c");

    let one_empty = vec![vec![video("a", Some(3))], vec![]];
    assert_eq!(
        VideoGroup::new_from_folders(
            one_empty,
            "o".to_string(),
            FrameShape::Dual,
            SortOrder::RandomWithLargestLast
        )
        .err(),
        Some(GroupError::EmptyGroup)
    );
    let one_empty = vec![vec![video("a", Some(3))], vec![]];
    let group =
        VideoGroup::new_from_folders(one_empty, "o".to_string(), FrameShape::Dual, SortOrder::Nan)
            .unwrap();
    assert_eq!(group.videos[1].videos.len(), 0);
}
