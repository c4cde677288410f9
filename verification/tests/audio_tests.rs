use video_mosaic::audio::{
    audio_segments, concat_list_text, list_name, pad_filter, segment_name, stream_name,
    temp_video_name,
};
use video_mosaic::frame_shape::audio::{Channel, FfmAudioText, Pan};
use video_mosaic::frame_shape::FrameShape;
use video_mosaic::switches::SortOrder;
use video_mosaic::video::{Video, VideoList};

#[test]
fn inputs_are_labelled_from_a() {
    let graph = FfmAudioText::new().add_input().add_input().add_input();
    assert_eq!(graph.inputs, vec!['a', 'b', 'c']);
    assert_eq!(graph.text, vec!["[1:a]anull[a];", "[2:a]anull[b];", "[3:a]anull[c];"]);
}

#[test]
fn filters_are_appended_to_the_last_input() {
    let graph = FfmAudioText::new().add_input().add_input().volume(-3);
    assert_eq!(graph.text, vec!["[1:a]anull[a];", "[2:a]anull[b];[b]volume=-3dB[b];"]);
    let graph = FfmAudioText::new().add_input().surround(-90);
    assert_eq!(
        graph.text,
        vec!["[1:a]anull[a];[a]surround=chl_out=stereo:chl_in=stereo:angle=270[a];"]
    );
    let graph = FfmAudioText::new().add_input().surround(359).stereo_bal(Pan::Centre);
    assert_eq!(
        graph.text,
        vec!["[1:a]anull[a];[a]surround=chl_out=stereo:chl_in=stereo:angle=359[a];[a]stereotools=balance_in=-0[a];"]
    );
}

#[test]
fn the_five_places_of_the_stereo_field() {
    let line = |g: FfmAudioText| g.text[0].clone();
    assert_eq!(
        line(FfmAudioText::new().add_input().stereo_l(12)),
        "[1:a]anull[a];[a]stereotools=balance_in=-0.9[a];[a]surround=chl_out=stereo:chl_in=stereo:angle=270[a];[a]volume=12dB[a];"
    );
    assert_eq!(
        line(FfmAudioText::new().add_input().stereo_lc(0)),
        "[1:a]anull[a];[a]stereotools=balance_in=-0.45[a];[a]surround=chl_out=stereo:chl_in=stereo:angle=0[a];[a]volume=0dB[a];"
    );
    assert_eq!(
        line(FfmAudioText::new().add_input().stereo_c(-5)),
        "[1:a]anull[a];[a]stereotools=balance_in=-0[a];[a]surround=chl_out=stereo:chl_in=stereo:angle=0[a];[a]volume=-5dB[a];"
    );
    assert_eq!(
        line(FfmAudioText::new().add_input().stereo_rc(0)),
        "[1:a]anull[a];[a]stereotools=balance_in=--0.45[a];[a]surround=chl_out=stereo:chl_in=stereo:angle=0[a];[a]volume=0dB[a];"
    );
    assert_eq!(
        line(FfmAudioText::new().add_input().stereo_r(-2147483648)),
        "[1:a]anull[a];[a]stereotools=balance_in=--0.9[a];[a]surround=chl_out=stereo:chl_in=stereo:angle=90[a];[a]volume=-2147483648dB[a];"
    );
}

#[test]
fn mix_names_every_input() {
    assert_eq!(FfmAudioText::new().mix_out(), "amix=inputs=0[d];[d]loudnorm[d]");
    assert_eq!(
        FfmAudioText::new().add_input().add_input().mix_out(),
        "[1:a]anull[a];[2:a]anull[b];[a][b]amix=inputs=2[d];[d]loudnorm[d]"
    );
}

#[test]
fn dual_graph() {
    assert_eq!(
        FrameShape::Dual.audio_args_with_vid(),
        "[1:a]anull[a];[a]stereotools=balance_in=-0.45[a];[a]surround=chl_out=stereo:chl_in=stereo:angle=0[a];[a]volume=0dB[a];\
[2:a]anull[b];[b]stereotools=balance_in=--0.45[b];[b]surround=chl_out=stereo:chl_in=stereo:angle=0[b];[b]volume=0dB[b];\
[a][b]amix=inputs=2[d];[d]loudnorm[d]"
    );
}

#[test]
fn triple_graph() {
    assert_eq!(
        FrameShape::Triple.audio_args_with_vid(),
        "[1:a]anull[a];[a]stereotools=balance_in=-0.9[a];[a]surround=chl_out=stereo:chl_in=stereo:angle=270[a];[a]volume=-3dB[a];\
[2:a]anull[b];[b]stereotools=balance_in=-0[b];[b]surround=chl_out=stereo:chl_in=stereo:angle=0[b];[b]volume=0dB[b];\
[3:a]anull[c];[c]stereotools=balance_in=--0.9[c];[c]surround=chl_out=stereo:chl_in=stereo:angle=90[c];[c]volume=-3dB[c];\
[a][b][c]amix=inputs=3[d];[d]loudnorm[d]"
    );
}

#[test]
fn extended_landscape2_starts_with_a_turned_input() {
    let text = FrameShape::ExtendedLandscape2.audio_args_with_vid();
    assert!(text.starts_with(
        "[1:a]anull[a];[a]surround=chl_out=stereo:chl_in=stereo:angle=0[a];[2:a]anull[b];[b]stereotools=balance_in=-0.45[b];"
    ));
    assert!(text.ends_with("[a][b][c][d][e][f][g][h]amix=inputs=8[d];[d]loudnorm[d]"));
}

#[test]
fn channels_of_the_layouts() {
    assert_eq!(
        FrameShape::Quad.audio_plan(),
        vec![
            Channel::Placed(Pan::LeftCentre, 0),
            Channel::Placed(Pan::RightCentre, 0),
            Channel::Placed(Pan::Left, -3),
            Channel::Placed(Pan::Right, -3)
        ]
    );
    assert_eq!(
        FrameShape::SideVert2.audio_plan(),
        vec![
            Channel::Placed(Pan::Right, 0),
            Channel::Placed(Pan::LeftCentre, 0),
            Channel::Placed(Pan::LeftCentre, -3)
        ]
    );
    assert_eq!(FrameShape::VertEmph.audio_plan(), FrameShape::VertEmph2.audio_plan());
    assert_eq!(FrameShape::MoreHoriz.audio_plan().len(), 7);
    assert_eq!(FrameShape::ExtendedLandscape.audio_plan().len(), 9);
    assert_eq!(FrameShape::ExtendedLandscape.audio_plan()[7], Channel::Placed(Pan::Left, -3));
    assert_eq!(FrameShape::ExtendedLandscape.audio_plan()[8], Channel::Placed(Pan::Right, -3));
    assert_eq!(FrameShape::ExtendedLandscape2.audio_plan()[0], Channel::Turned(0));
    assert!(FrameShape::Mono.audio_plan().is_empty());
    assert!(!FrameShape::Mono.audible());
    assert!(!FrameShape::OffsetVH4x4.audible());
    assert!(FrameShape::Dual.audible());
}

#[test]
fn concat_list_has_a_line_for_each_file() {
    let none: Vec<String> = vec![];
    assert_eq!(concat_list_text(&none), "");
    assert_eq!(
        concat_list_text(&vec!["a.wav".to_string()]),
        "file 'a.wav'  -fa loudnorm afade=t=in:ss=0:d=2 dynaudnorm=p=0.9:s=5:t=0.4:f=1000:m=2"
    );
    assert_eq!(
        concat_list_text(&vec!["t/g0f0.wav".to_string(), "t/g0f1.wav".to_string()]),
        "file 't/g0f0.wav'  -fa loudnorm afade=t=in:ss=0:d=2 dynaudnorm=p=0.9:s=5:t=0.4:f=1000:m=2\n\
         file 't/g0f1.wav'  -fa loudnorm afade=t=in:ss=0:d=2 dynaudnorm=p=0.9:s=5:t=0.4:f=1000:m=2"
    );
}

#[test]
fn temporary_files_are_named_by_region_and_clip() {
    assert_eq!(segment_name(0, 0), "g0f0.wav");
    assert_eq!(segment_name(2, 13), "g2f13.wav");
    assert_eq!(list_name(4), "temp4.txt");
    assert_eq!(stream_name(10), "g10.wav");
    assert_eq!(temp_video_name("out.mp4"), "__temp__out.mp4");
}

#[test]
fn pad_filter_names_the_length() {
    assert_eq!(pad_filter("12.500000s"), "[0:a]apad=whole_dur=12.500000s[a]");
}

#[test]
fn only_clips_that_gave_a_frame_give_a_segment() {
    let mut list = VideoList::from_videos(Vec::new(), 1, SortOrder::Nan);
    for (name, frames) in [("a.mp4", 30u64), ("b.mp4", 0), ("c.mp4", 7)] {
        let mut clip = Video::from_path(name.to_string());
        clip.frame_count = frames;
        list.complete_videos.push_back(clip);
    }
    let segments = audio_segments(&list, 1);
    let got: Vec<(&str, &str, u64)> =
        segments.iter().map(|s| (s.src.as_str(), s.name.as_str(), s.frames)).collect();
    assert_eq!(got, vec![("a.mp4", "g1f0.wav", 30), ("c.mp4", "g1f2.wav", 7)]);
}

#[test]
fn every_layout_with_an_audio_graph_mixes_one_input_for_each_region() {
    for shape in FrameShape::all() {
        if !shape.audible() {
            continue;
        }
        let n = shape.count();
        assert_eq!(shape.audio_plan().len() as u32, n, "{:?}", shape);
        let text = shape.audio_args_with_vid();
        for k in 1..=n {
            assert!(text.contains(&format!("[{}:a]anull[", k)), "{:?}: input {}", shape, k);
        }
        assert!(!text.contains(&format!("[{}:a]anull[", n + 1)));
        assert!(text.ends_with(&format!("amix=inputs={}[d];[d]loudnorm[d]", n)), "{:?}", shape);
    }
}
