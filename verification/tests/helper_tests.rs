use video_mosaic::helper_functions::{seconds_to_hhmmss, FrameTimer, MultiPathBuf};

#[test]
fn frame_timer_counter_check() {
    let mut ft = FrameTimer::new();
    let iters = 20;
    for _ in 0..iters {
        ft.frame();
    }
    assert_eq!(ft._frame_count_, iters);
}

#[test]
fn seconds_to_hhmmss_pads_each_part() {
    assert_eq!(seconds_to_hhmmss(0), "00-00-00");
    assert_eq!(seconds_to_hhmmss(59), "00-00-59");
    assert_eq!(seconds_to_hhmmss(60), "00-01-00");
    assert_eq!(seconds_to_hhmmss(3661), "01-01-01");
    assert_eq!(seconds_to_hhmmss(360000), "100-00-00");
}

#[test]
fn multi_path_splits_at_every_delimiter() {
    let paths = MultiPathBuf::from_str("left|right||", '|');
    assert_eq!(paths.inner, vec!["left".to_string(), "right".to_string(), "".to_string(), "".to_string()]);
    let single = MultiPathBuf::from_str("only", '|');
    assert_eq!(single.inner, vec!["only".to_string()]);
    let empty = MultiPathBuf::from_str("", '|');
    assert_eq!(empty.inner, vec!["".to_string()]);
}
