use std::collections::HashMap;
use video_mosaic::frame_shape::frame_join::RawFrame;
use video_mosaic::frame_shape::FrameShape;
use video_mosaic::switches::SortOrder;
use video_mosaic::video::{
    report_due, report_log, ClipStep, CursorStep, DecodeEvent, DecodeState, EventOutcome, LogLevel,
    Tick, Video, VideoEditData, VideoGroup, VideoList, READ_BUDGET, TRY_BUDGET,
};

fn video(name: &str, millis: Option<i64>) -> Video {
    let mut v = Video::from_path(name.to_string());
    v.length_millis = millis;
    v
}

fn list_of(names: &[&str], pos: u32) -> VideoList {
    VideoList::from_videos(names.iter().map(|n| video(n, Some(1000))).collect(), pos, SortOrder::Nan)
}

/// Plays the part of the decoders: every clip has so many frames to give.
struct Decoders {
    frames_left: HashMap<String, u32>,
    launched: Vec<String>,
}

impl Decoders {
    fn next_frame(&mut self, list: &mut VideoList, fc: u64) -> Option<RawFrame> {
        list.begin_frame(fc);
        loop {
            match list.next_step() {
                CursorStep::Ended | CursorStep::Stalled => return None,
                CursorStep::Launch => {
                    self.launched.push(list.videos.front().unwrap().src.clone());
                }
                CursorStep::Read => {
                    let front = list.videos.front().unwrap();
                    let (w, h) = front.width_height;
                    let left = self.frames_left.get_mut(&front.src).unwrap();
                    let event = if *left > 0 {
                        *left -= 1;
                        DecodeEvent::Frame
                    } else {
                        DecodeEvent::End
                    };
                    if list.on_event(event) == EventOutcome::Deliver {
                        return Some(RawFrame {
                            width: w,
                            height: h,
                            data: vec![7; (w * h * 3) as usize],
                        });
                    }
                }
            }
        }
    }
}

#[test]
fn clip_starts_unstarted() {
    let v = Video::from_path("clip.mp4".to_string());
    assert_eq!(v.src, "clip.mp4");
    assert_eq!(v.length_millis, None);
    assert_eq!(v.frame_count, 0);
    assert_eq!(v.state, DecodeState::Unstarted);
    assert_eq!(v.get_length(), Err(()));
    assert_eq!(video("x", Some(5)).get_length(), Ok(5));
}

#[test]
fn clip_is_launched_once_then_read() {
    let mut v = Video::from_path("clip.mp4".to_string());
    v.begin_frame();
    assert_eq!(v.reads_left, READ_BUDGET);
    assert_eq!(v.next_step(), ClipStep::Launch);
    assert_eq!(v.state, DecodeState::Decoding);
    assert_eq!(v.next_step(), ClipStep::Read);
    assert_eq!(v.reads_left, READ_BUDGET - 2);
    assert_eq!(v.on_event(DecodeEvent::Frame), EventOutcome::Deliver);
    assert_eq!(v.frame_count, 1);
    assert_eq!(v.on_event(DecodeEvent::End), EventOutcome::Finished);
    assert_eq!(v.state, DecodeState::Exhausted);
    assert_eq!(v.next_step(), ClipStep::Stop);
}

#[test]
fn log_lines_do_not_end_a_clip() {
    let mut v = Video::from_path("clip.mp4".to_string());
    v.begin_frame();
    v.next_step();
    assert_eq!(v.on_event(DecodeEvent::Log(LogLevel::Info, 40)), EventOutcome::Continue(false));
    assert_eq!(v.on_event(DecodeEvent::Log(LogLevel::Warning, 1)), EventOutcome::Continue(true));
    assert_eq!(v.on_event(DecodeEvent::Log(LogLevel::Error, 0)), EventOutcome::Continue(true));
    assert_eq!(v.on_event(DecodeEvent::Log(LogLevel::Fatal, 0)), EventOutcome::Continue(true));
    assert_eq!(v.on_event(DecodeEvent::Log(LogLevel::Unknown, 2)), EventOutcome::Continue(false));
    assert_eq!(v.on_event(DecodeEvent::Log(LogLevel::Unknown, 3)), EventOutcome::Continue(true));
    assert_eq!(v.on_event(DecodeEvent::Done), EventOutcome::Continue(true));
    assert_eq!(v.on_event(DecodeEvent::Other), EventOutcome::Continue(false));
    assert_eq!(v.state, DecodeState::Decoding);
    assert_eq!(v.frame_count, 0);
    assert!(report_log(LogLevel::Fatal, 0));
    assert!(!report_log(LogLevel::Info, 100));
}

#[test]
fn a_clip_that_only_talks_is_given_up_after_its_budget() {
    let mut v = Video::from_path("clip.mp4".to_string());
    v.begin_frame();
    let mut reads = 0;
    let mut launches = 0;
    loop {
        match v.next_step() {
            ClipStep::Launch => launches += 1,
            ClipStep::Read => {
                reads += 1;
                v.on_event(DecodeEvent::Other);
            }
            ClipStep::Stop => break,
        }
    }
    assert_eq!(launches, 1);
    assert_eq!(reads, READ_BUDGET - 1);
    assert_eq!(v.state, DecodeState::Exhausted);
}

#[test]
fn cursor_crosses_clip_boundaries() {
    let mut list = list_of(&["a", "b"], 0);
    let mut decoders = Decoders {
        frames_left: [("a".to_string(), 2), ("b".to_string(), 1)].into_iter().collect(),
        launched: vec![],
    };
    assert!(decoders.next_frame(&mut list, 1).is_some());
    assert!(decoders.next_frame(&mut list, 2).is_some());
    // The third frame comes from the second clip, in the same call that
    // finds the first clip at its end.
    assert!(decoders.next_frame(&mut list, 3).is_some());
    assert_eq!(decoders.launched, vec!["a".to_string(), "b".to_string()]);
    assert_eq!(list.complete_videos.len(), 1);
    assert_eq!(list.complete_videos[0].frame_count, 2);
    assert_eq!(list.videos[0].frame_start, 3);
    // Only now, with every clip drained, the stream ends.
    assert!(decoders.next_frame(&mut list, 4).is_none());
    assert_eq!(list.videos.len(), 0);
    assert_eq!(list.complete_videos.len(), 2);
    assert_eq!(list.complete_videos[1].frame_count, 1);
    list.begin_frame(5);
    assert_eq!(list.next_step(), CursorStep::Ended);
}

#[test]
fn cursor_stalls_after_ten_empty_clips() {
    let names: Vec<String> = (0..12).map(|i| format!("c{}", i)).collect();
    let refs: Vec<&str> = names.iter().map(|s| s.as_str()).collect();
    let mut list = list_of(&refs, 0);
    let mut decoders =
        Decoders { frames_left: names.iter().map(|n| (n.clone(), 0)).collect(), launched: vec![] };
    assert!(decoders.next_frame(&mut list, 1).is_none());
    assert_eq!(list.complete_videos.len(), TRY_BUDGET as usize);
    assert_eq!(list.videos.len(), 2);
    assert_eq!(list.tries_left, 0);
    list.begin_frame(2);
    assert_eq!(list.tries_left, TRY_BUDGET);
}

#[test]
fn pop_first_vid_passes_one_clip_on() {
    let mut list = list_of(&["a"], 0);
    assert!(list.pop_first_vid());
    assert!(!list.pop_first_vid());
    assert_eq!(list.complete_videos.len(), 1);
}

#[test]
fn from_videos_sets_the_starting_shape() {
    let list = list_of(&["a", "b"], 3);
    assert_eq!(list.position, 3);
    assert!(list.videos.iter().all(|v| v.width_height == (5, 5) && v.fps == 30));
    assert_eq!(list.videos[0].src, "a");
}

#[test]
fn set_video_sizer_gives_each_region_its_rectangle() {
    let mut group = VideoGroup::new_from_folders(
        vec![vec![video("l", None)], vec![video("r1", None), video("r2", None)]],
        "out.mp4".to_string(),
        FrameShape::Dual,
        SortOrder::Nan,
    )
    .unwrap();
    let mut sizer = VideoEditData::init_wxh(101, 50, 2);
    sizer.set_fps(25);
    sizer.set_shape(FrameShape::Dual);
    group.set_video_sizer(sizer);
    assert_eq!(group.videos[0].videos[0].width_height, (50, 50));
    assert_eq!(group.videos[1].videos[0].width_height, (51, 50));
    assert_eq!(group.videos[1].videos[1].width_height, (51, 50));
    assert!(group.videos[1].videos.iter().all(|v| v.fps == 25));
    assert_eq!(group.video_sizer.output_width, 101);
    assert!(group.ready());
}

#[test]
fn group_is_not_ready_without_clips_or_regions() {
    let group = VideoGroup::new_from_folders(
        vec![vec![video("l", None)], vec![]],
        "out.mp4".to_string(),
        FrameShape::Dual,
        SortOrder::Nan,
    )
    .unwrap();
    assert!(!group.ready());
    let mut three = VideoGroup::new_from_folders(
        vec![vec![video("a", None)], vec![video("b", None)], vec![video("c", None)]],
        "out.mp4".to_string(),
        FrameShape::Dual,
        SortOrder::Nan,
    )
    .unwrap();
    let mut sizer = VideoEditData::init_wxh(100, 50, 2);
    sizer.set_shape(FrameShape::Dual);
    three.set_video_sizer(VideoEditData::init());
    assert!(!three.ready());
    let _ = sizer;
}

#[test]
fn a_missing_frame_stops_the_round_without_a_byte() {
    let group = VideoGroup::new_from_folders(
        vec![vec![video("a", None)], vec![video("b", None)]],
        "out.mp4".to_string(),
        FrameShape::Dual,
        SortOrder::Nan,
    )
    .unwrap();
    let frame = |b: u8| RawFrame { width: 1, height: 1, data: vec![b; 3] };
    assert!(matches!(group.tick(vec![Some(frame(1)), None]), Tick::Stop));
    assert!(matches!(group.tick(vec![None, Some(frame(1))]), Tick::Stop));
    assert!(matches!(group.tick(vec![None, None]), Tick::Stop));
    match group.tick(vec![Some(frame(1)), Some(frame(2))]) {
        Tick::Write(bytes) => assert_eq!(bytes, vec![1, 1, 1, 2, 2, 2]),
        Tick::Stop => panic!("both regions brought a frame"),
    }
    assert!(group.batch_joinable(&vec![Some(frame(1)), Some(frame(2))]));
    assert!(group.batch_joinable(&vec![Some(frame(1)), None]));
    assert!(!group.batch_joinable(&vec![Some(frame(1))]));
    assert!(!group.batch_joinable(&vec![
        Some(frame(1)),
        Some(RawFrame { width: 0, height: 1, data: vec![] })
    ]));
}

#[test]
fn shortest_stream_gates_output() {
    // Regions that play 10, 7 and 12 seconds at two frames a second.
    let fps = 2u32;
    let seconds = [10u32, 7, 12];
    let mut group = VideoGroup::new_from_folders(
        vec![
            vec![video("a", Some(10_000))],
            vec![video("b1", Some(3_000)), video("b2", Some(4_000))],
            vec![video("c", Some(12_000))],
        ],
        "out.mp4".to_string(),
        FrameShape::Triple,
        SortOrder::Nan,
    )
    .unwrap();
    let mut sizer = VideoEditData::init_wxh(6, 2, 3);
    sizer.set_fps(fps);
    sizer.set_shape(FrameShape::Triple);
    group.set_video_sizer(sizer);
    assert!(group.ready());
    assert_eq!(group.output_length(), Some(7_000));
    let mut decoders = Decoders {
        frames_left: [
            ("a".to_string(), seconds[0] * fps),
            ("b1".to_string(), 3 * fps),
            ("b2".to_string(), 4 * fps),
            ("c".to_string(), seconds[2] * fps),
        ]
        .into_iter()
        .collect(),
        launched: vec![],
    };
    let mut written = 0u64;
    let mut bytes = 0usize;
    let mut frame_counter = 0u64;
    loop {
        frame_counter += 1;
        let batch: Vec<Option<RawFrame>> =
            group.videos.iter_mut().map(|l| decoders.next_frame(l, frame_counter)).collect();
        assert!(group.batch_joinable(&batch));
        match group.tick(batch) {
            Tick::Stop => break,
            Tick::Write(frame) => {
                assert_eq!(frame.len(), 6 * 2 * 3);
                bytes += frame.len();
                written += 1;
            }
        }
    }
    assert_eq!(written, (7 * fps) as u64);
    assert_eq!(bytes, 14 * 36);
    // The other regions were asked for one frame more, which is dropped.
    assert_eq!(decoders.frames_left["a"], (10 - 7) * fps - 1);
    assert_eq!(decoders.frames_left["c"], (12 - 7) * fps - 1);
    assert_eq!(group.videos[1].complete_videos.len(), 2);
}

#[test]
fn throughput_is_reported_every_thirty_seconds_of_video() {
    assert!(report_due(900, 30));
    assert!(report_due(1800, 30));
    assert!(!report_due(901, 30));
    assert!(report_due(0, 1));
    assert!(report_due(60, 2));
}

#[test]
fn output_is_as_long_as_the_shortest_region() {
    let group = VideoGroup::new_from_folders(
        vec![vec![video("a", Some(10)), video("b", None)], vec![video("c", Some(7))]],
        "out.mp4".to_string(),
        FrameShape::Dual,
        SortOrder::Nan,
    )
    .unwrap();
    assert_eq!(group.videos[0].pending_length(), 10);
    assert_eq!(group.output_length(), Some(7));
}

#[test]
fn a_queue_emptied_by_the_last_try_has_ended() {
    let names: Vec<String> = (0..10).map(|i| format!("c{}", i)).collect();
    let refs: Vec<&str> = names.iter().map(|s| s.as_str()).collect();
    let mut list = list_of(&refs, 0);
    let mut decoders =
        Decoders { frames_left: names.iter().map(|n| (n.clone(), 0)).collect(), launched: vec![] };
    assert!(decoders.next_frame(&mut list, 1).is_none());
    assert_eq!(list.videos.len(), 0);
    assert_eq!(list.tries_left, 0);
    assert_eq!(list.next_step(), CursorStep::Ended);
}

#[test]
fn a_whole_run_writes_as_many_frames_as_the_shortest_stream_has() {
    // Regions that play 10, 7 and 12 seconds at two frames a second.
    let group = VideoGroup::new_from_folders(
        vec![vec![video("a", None)], vec![video("b", None)], vec![video("c", None)]],
        "out.mp4".to_string(),
        FrameShape::Triple,
        SortOrder::Nan,
    )
    .unwrap();
    let stream = |region: u8, frames: usize| -> Vec<RawFrame> {
        (0..frames)
            .map(|t| RawFrame { width: 1, height: 1, data: vec![region * 50 + t as u8; 3] })
            .collect()
    };
    let out = group.play_streams(vec![stream(0, 20), stream(1, 14), stream(2, 24)]);
    assert_eq!(out.len(), 14);
    for (t, frame) in out.iter().enumerate() {
        let t = t as u8;
        assert_eq!(*frame, vec![t, t, t, 50 + t, 50 + t, 50 + t, 100 + t, 100 + t, 100 + t]);
    }
}

#[test]
fn a_run_with_an_empty_stream_writes_nothing() {
    let group = VideoGroup::new_from_folders(
        vec![vec![video("a", None)], vec![video("b", None)]],
        "out.mp4".to_string(),
        FrameShape::Dual,
        SortOrder::Nan,
    )
    .unwrap();
    let frame = |b: u8| RawFrame { width: 1, height: 1, data: vec![b; 3] };
    assert!(group.play_streams(vec![vec![frame(1), frame(2)], vec![]]).is_empty());
    assert_eq!(
        group.play_streams(vec![vec![frame(1)], vec![frame(2), frame(3)]]),
        vec![vec![1, 1, 1, 2, 2, 2]]
    );
}
