//! Canvas geometry, clip decode state and the per-region clip cursor.

use vstd::prelude::*;
use std::collections::VecDeque;
use crate::frame_shape::frame_join::{joined, RawFrame};
use crate::frame_shape::FrameShape;
use crate::switches::SortOrder;

verus! {

/// Size of one region in pixels: width, then height.
pub type Rect = (u32, u32);

/// Width and height of region `i` as mathematical integers.
pub open spec fn rect_at(shapes: Seq<Rect>, i: int) -> (int, int) {
    (shapes[i].0 as int, shapes[i].1 as int)
}

/// The rectangles into which a layout divides a canvas of `w` by `h` pixels,
/// in region order.
pub open spec fn partition(shaper: FrameShape, w: int, h: int) -> Seq<(int, int)> {
    match shaper {
        FrameShape::Mono => seq![(w, h)],
        FrameShape::Dual => seq![(w / 2, h), (w - w / 2, h)],
        FrameShape::Triple => seq![(w / 3, h), (w - w / 3 - w / 3, h), (w / 3, h)],
        FrameShape::Quad => seq![
            (w / 2, h / 2),
            (w - w / 2, h / 2),
            (w / 2, h - h / 2),
            (w - w / 2, h - h / 2),
        ],
        FrameShape::VertEmph => seq![
            (w - w / 3 - w / 3, h),
            (w / 3, h / 2),
            (w / 3, h / 2),
            (w / 3, h - h / 2),
            (w / 3, h - h / 2),
        ],
        FrameShape::HorizEmph => seq![
            (w / 3, h),
            (w - w / 3 - w / 3, h / 2),
            (w - w / 3 - w / 3, h - h / 2),
            (w / 3, h),
        ],
        FrameShape::VertEmph2 => seq![
            ((w - w % 8) / 8 * 2 + w % 8, h),
            ((w - w % 8) / 8 * 3, h / 2),
            ((w - w % 8) / 8 * 3, h / 2),
            ((w - w % 8) / 8 * 3, h - h / 2),
            ((w - w % 8) / 8 * 3, h - h / 2),
        ],
        FrameShape::HorizEmph2 => seq![
            ((w - w % 4) / 4, h),
            ((w - w % 4) / 4 * 2 + w % 4, h / 2),
            ((w - w % 4) / 4 * 2 + w % 4, h - h / 2),
            ((w - w % 4) / 4, h),
        ],
        FrameShape::SideVert | FrameShape::SideVert2 => seq![
            ((w - w % 3) / 3, h),
            ((w - w % 3) / 3 * 2 + w % 3, h / 2),
            ((w - w % 3) / 3 * 2 + w % 3, h - h / 2),
        ],
        FrameShape::CentreEmphVert | FrameShape::CentreEmphVert2 => seq![
            (centre_width(w), h / 5 * 3),
            (left_width(w), h),
            (right_width(w), h),
            (centre_width(w) / 2, h - h / 5 * 3),
            (centre_width(w) - centre_width(w) / 2, h - h / 5 * 3),
        ],
        FrameShape::MoreHoriz | FrameShape::MoreHoriz2 => seq![
            (centre_width(w), h / 5 * 3),
            (left_width(w), h / 3 * 2),
            (right_width(w), h / 3 * 2),
            (centre_width(w) / 2, h - h / 5 * 3),
            (centre_width(w) - centre_width(w) / 2, h - h / 5 * 3),
            (left_width(w), h - h / 3 * 2),
            (right_width(w), h - h / 3 * 2),
        ],
        FrameShape::ExtendedLandscape => seq![
            (centre_width(w), h / 5 * 3),
            (centre_width(w) / 2, h - h / 5 * 3),
            (centre_width(w) - centre_width(w) / 2, h - h / 5 * 3),
            (left_width(w), h / 3),
            (right_width(w), h / 3),
            (left_width(w), h - h / 3 - h / 3),
            (right_width(w), h / 3),
            (left_width(w), h / 3),
            (right_width(w), h - h / 3 - h / 3),
        ],
        FrameShape::ExtendedLandscape2 => seq![
            (centre_width(w), h / 3 + h / 3),
            (w / 3, h - h / 3 - h / 3),
            (w - w / 3 - w / 3, h - h / 3 - h / 3),
            (w / 3, h - h / 3 - h / 3),
            (left_width(w), h / 3),
            (right_width(w), h / 3),
            (left_width(w), h / 3),
            (right_width(w), h / 3),
        ],
        FrameShape::OffsetVH4x4 => seq![
            (w - w / 4 * 3, h / 4),
            (w / 4, h / 4),
            (w / 4, h / 4),
            (w / 4, h / 4),
            (w / 4, h - h / 4),
            (w / 4, h - h / 4),
            (w - w / 4 * 3, h - h / 4),
            (w / 4, h - h / 4),
        ],
    }
}

/// Width of the emphasised centre column: three fifths of the canvas.
pub open spec fn centre_width(w: int) -> int {
    w / 5 * 3
}

/// Width of the column left of the centre: half of what the centre leaves.
pub open spec fn left_width(w: int) -> int {
    (w - centre_width(w)) / 2
}

/// Width of the column right of the centre: whatever is left.
pub open spec fn right_width(w: int) -> int {
    w - centre_width(w) - left_width(w)
}

/// Output canvas size, frame rate and the rectangle of each region.
#[derive(Clone, Debug)]
pub struct VideoEditData {
    pub output_height: u32,
    pub output_width: u32,
    pub shapes: Vec<Rect>,
    /// Whole frames per second.
    pub fps: u32,
}

impl VideoEditData {
    /// The region rectangles as pairs of mathematical integers.
    pub open spec fn rects(&self) -> Seq<(int, int)> {
        Seq::new(self.shapes@.len(), |i: int| rect_at(self.shapes@, i))
    }

    /// A 2550 by 1440 canvas at 30 frames per second, with 25 rectangles of
    /// 5 by 5 pixels to begin with.
    pub fn init() -> (sizer: VideoEditData)
        ensures
            sizer.output_height == 1440,
            sizer.output_width == 2550,
            sizer.fps == 30,
            sizer.shapes@.len() == 25,
            forall|i: int| 0 <= i < 25 ==> sizer.shapes@[i] == (5u32, 5u32),
    {
        let mut shapes: Vec<Rect> = Vec::new();
        let mut i: u32 = 0;
        while i < 25
            invariant
                i <= 25,
                shapes@.len() == i,
                forall|j: int| 0 <= j < i ==> shapes@[j] == (5u32, 5u32),
            decreases 25 - i,
        {
            shapes.push((5, 5));
            i += 1;
        }
        VideoEditData { output_height: 1440, output_width: 2550, shapes, fps: 30 }
    }

    /// A `w` by `h` canvas cut into `count` columns of equal width, at 30
    /// frames per second.
    pub fn init_wxh(w: u32, h: u32, count: u32) -> (sizer: VideoEditData)
        ensures
            sizer.output_height == h,
            sizer.output_width == w,
            sizer.fps == 30,
            sizer.shapes@.len() == count,
            forall|i: int| 0 <= i < count ==> sizer.rects()[i] == (w as int / count as int, h as int),
    {
        let mut shapes: Vec<Rect> = Vec::new();
        let mut i: u32 = 0;
        while i < count
            invariant
                i <= count,
                shapes@.len() == i,
                forall|j: int| 0 <= j < i ==> shapes@[j] == ((w / count) as u32, h),
            decreases count - i,
        {
            shapes.push((w / count, h));
            i += 1;
        }
        VideoEditData { output_height: h, output_width: w, shapes, fps: 30 }
    }

    /// A canvas made of columns of the given widths, all `h` pixels high, at
    /// 30 frames per second. The canvas is as wide as the columns together.
    pub fn init_abc_shape(widths: Vec<u32>, h: u32) -> (sizer: VideoEditData)
        requires
            total_width(widths@) <= u32::MAX,
        ensures
            sizer.output_height == h,
            sizer.output_width == total_width(widths@),
            sizer.fps == 30,
            sizer.shapes@.len() == widths@.len(),
            forall|i: int| 0 <= i < widths@.len() ==> sizer.shapes@[i] == (widths@[i], h),
    {
        let mut shapes: Vec<Rect> = Vec::new();
        let mut sum: u32 = 0;
        let mut i: usize = 0;
        while i < widths.len()
            invariant
                i <= widths@.len(),
                shapes@.len() == i,
                sum == total_width(widths@.take(i as int)),
                total_width(widths@) <= u32::MAX,
                forall|j: int| 0 <= j < i ==> shapes@[j] == (widths@[j], h),
            decreases widths@.len() - i,
        {
            proof {
                lemma_total_width_take(widths@, i as int + 1);
                lemma_total_width_monotone(widths@, i as int + 1);
            }
            shapes.push((widths[i], h));
            sum = sum + widths[i];
            i += 1;
        }
        proof {
            assert(widths@.take(widths@.len() as int) =~= widths@);
        }
        VideoEditData { output_height: h, output_width: sum, shapes, fps: 30 }
    }

    /// Sets the frame rate.
    pub fn set_fps(&mut self, fps: u32)
        ensures
            final(self).fps == fps,
            final(self).output_height == old(self).output_height,
            final(self).output_width == old(self).output_width,
            final(self).shapes == old(self).shapes,
    {
        self.fps = fps;
    }

    /// Divides the canvas into the rectangles of the layout `shaper`.
    pub fn set_shape(&mut self, shaper: FrameShape)
        ensures
            final(self).rects() == partition(
                shaper,
                old(self).output_width as int,
                old(self).output_height as int,
            ),
            final(self).shapes@.len() == shaper.region_count(),
            final(self).output_height == old(self).output_height,
            final(self).output_width == old(self).output_width,
            final(self).fps == old(self).fps,
    {
        let w = self.output_width;
        let h = self.output_height;
        match shaper {
            FrameShape::Mono => {
                self.shapes = vec![(w, h)];
            },
            FrameShape::Dual => {
                let w1 = w / 2;
                let w2 = w - w1;
                self.shapes = vec![(w1, h), (w2, h)];
            },
            FrameShape::Triple => {
                let ow = w / 3;
                let mid = w - ow - ow;
                self.shapes = vec![(ow, h), (mid, h), (ow, h)];
            },
            FrameShape::Quad => {
                let (w1, h1) = (w / 2, h / 2);
                let (w2, h2) = (w - w1, h - h1);
                self.shapes = vec![(w1, h1), (w2, h1), (w1, h2), (w2, h2)];
            },
            FrameShape::VertEmph => {
                let w23 = w / 3;
                let h1 = h / 2;
                let h2 = h - h1;
                let wide = w - w23 - w23;
                self.shapes = vec![(wide, h), (w23, h1), (w23, h1), (w23, h2), (w23, h2)];
            },
            FrameShape::HorizEmph => {
                let w23 = w / 3;
                let h1 = h / 2;
                let h2 = h - h1;
                let wide = w - w23 - w23;
                self.shapes = vec![(w23, h), (wide, h1), (wide, h2), (w23, h)];
            },
            FrameShape::VertEmph2 => {
                let owx = w % 8;
                let ow = (w - owx) / 8;
                let h1 = h / 2;
                let h2 = h - h1;
                self.shapes = vec![
                    (ow * 2 + owx, h),
                    (ow * 3, h1),
                    (ow * 3, h1),
                    (ow * 3, h2),
                    (ow * 3, h2),
                ];
            },
            FrameShape::HorizEmph2 => {
                let owx = w % 4;
                let ow = (w - owx) / 4;
                let h1 = h / 2;
                let h2 = h - h1;
                self.shapes = vec![(ow, h), (ow * 2 + owx, h1), (ow * 2 + owx, h2), (ow, h)];
            },
            FrameShape::SideVert | FrameShape::SideVert2 => {
                let owx = w % 3;
                let ow = (w - owx) / 3;
                let h1 = h / 2;
                let h2 = h - h1;
                self.shapes = vec![(ow, h), (ow * 2 + owx, h1), (ow * 2 + owx, h2)];
            },
            FrameShape::CentreEmphVert | FrameShape::CentreEmphVert2 => {
                let wmid = w / 5 * 3;
                let w_l = (w - wmid) / 2;
                let w_r = w - wmid - w_l;
                let wml = wmid / 2;
                let wmr = wmid - wml;
                let htop = h / 5 * 3;
                let hbot = h - htop;
                self.shapes = vec![(wmid, htop), (w_l, h), (w_r, h), (wml, hbot), (wmr, hbot)];
            },
            FrameShape::MoreHoriz | FrameShape::MoreHoriz2 => {
                let wmid = w / 5 * 3;
                let w_l = (w - wmid) / 2;
                let w_r = w - wmid - w_l;
                let wml = wmid / 2;
                let wmr = wmid - wml;
                let h_mid_big = h / 5 * 3;
                let h_mid_small = h - h_mid_big;
                let h_side_big = h / 3 * 2;
                let h_side_small = h - h_side_big;
                self.shapes = vec![
                    (wmid, h_mid_big),
                    (w_l, h_side_big),
                    (w_r, h_side_big),
                    (wml, h_mid_small),
                    (wmr, h_mid_small),
                    (w_l, h_side_small),
                    (w_r, h_side_small),
                ];
            },
            FrameShape::ExtendedLandscape => {
                let v_a = h / 3;
                let v_b = h / 3;
                let v_c = h - v_a - v_b;
                let wmid = w / 5 * 3;
                let w_l = (w - wmid) / 2;
                let w_r = w - wmid - w_l;
                let wml = wmid / 2;
                let wmr = wmid - wml;
                let h_mid_big = h / 5 * 3;
                let h_mid_small = h - h_mid_big;
                self.shapes = vec![
                    (wmid, h_mid_big),
                    (wml, h_mid_small),
                    (wmr, h_mid_small),
                    (w_l, v_a),
                    (w_r, v_b),
                    (w_l, v_c),
                    (w_r, v_a),
                    (w_l, v_b),
                    (w_r, v_c),
                ];
            },
            FrameShape::ExtendedLandscape2 => {
                let third_w = w / 3;
                let third_w_mid = w - third_w - third_w;
                let top_third = h / 3;
                let bottom = h - top_third - top_third;
                let wmid = w / 5 * 3;
                let w_l = (w - wmid) / 2;
                let w_r = w - wmid - w_l;
                self.shapes = vec![
                    (wmid, top_third + top_third),
                    (third_w, bottom),
                    (third_w_mid, bottom),
                    (third_w, bottom),
                    (w_l, top_third),
                    (w_r, top_third),
                    (w_l, top_third),
                    (w_r, top_third),
                ];
            },
            FrameShape::OffsetVH4x4 => {
                let quarter = w / 4;
                let wide = w - quarter * 3;
                let height_min = h / 4;
                let height_max = h - height_min;
                self.shapes = vec![
                    (wide, height_min),
                    (quarter, height_min),
                    (quarter, height_min),
                    (quarter, height_min),
                    (quarter, height_max),
                    (quarter, height_max),
                    (wide, height_max),
                    (quarter, height_max),
                ];
            },
        }
        assert(self.rects() =~= partition(shaper, w as int, h as int));
    }

    /// The region rectangles, in region order.
    pub fn get_shapes(&self) -> (shapes: &[Rect])
        ensures
            shapes@ == self.shapes@,
    {
        self.shapes.as_slice()
    }
}

/// Sum of the widths in `widths`.
pub open spec fn total_width(widths: Seq<u32>) -> int
    decreases widths.len(),
{
    if widths.len() == 0 {
        0
    } else {
        total_width(widths.drop_last()) + widths.last() as int
    }
}

proof fn lemma_total_width_take(widths: Seq<u32>, n: int)
    requires
        0 < n <= widths.len(),
    ensures
        total_width(widths.take(n)) == total_width(widths.take(n - 1)) + widths[n - 1],
{
    assert(widths.take(n).drop_last() =~= widths.take(n - 1));
}

proof fn lemma_total_width_monotone(widths: Seq<u32>, n: int)
    requires
        0 <= n <= widths.len(),
    ensures
        0 <= total_width(widths.take(n)) <= total_width(widths),
    decreases widths.len() - n,
{
    if n == widths.len() {
        assert(widths.take(n) =~= widths);
        lemma_total_width_nonneg(widths);
    } else {
        lemma_total_width_monotone(widths, n + 1);
        lemma_total_width_take(widths, n + 1);
        lemma_total_width_nonneg(widths.take(n));
    }
}

proof fn lemma_total_width_nonneg(widths: Seq<u32>)
    ensures
        0 <= total_width(widths),
    decreases widths.len(),
{
    if widths.len() > 0 {
        lemma_total_width_nonneg(widths.drop_last());
    }
}

/// Where the decoding of a clip stands.
#[derive(Clone, Copy, Debug, PartialEq, Eq, Structural)]
pub enum DecodeState {
    /// No decoder has been launched for the clip yet.
    Unstarted,
    /// A decoder is running and may hand out frames.
    Decoding,
    /// The clip has no more frames.
    Exhausted,
}

/// How grave a line of the decoder's log is.
#[derive(Clone, Copy, Debug, PartialEq, Eq, Structural)]
pub enum LogLevel {
    Info,
    Warning,
    Error,
    Fatal,
    Unknown,
}

/// What a read from a clip's decoder brought.
#[derive(Clone, Copy, Debug, PartialEq, Eq, Structural)]
pub enum DecodeEvent {
    /// A raw frame.
    Frame,
    /// The decoder reports that it is done.
    Done,
    /// A line of the decoder's log, with its level and the length of its
    /// text.
    Log(LogLevel, usize),
    /// Anything else the decoder says.
    Other,
    /// The stream of events has ended.
    End,
}

/// What follows from a decode event.
#[derive(Clone, Copy, Debug, PartialEq, Eq, Structural)]
pub enum EventOutcome {
    /// The frame that was read is the clip's next frame.
    Deliver,
    /// The clip has no more frames.
    Finished,
    /// Nothing to hand out yet; the flag tells whether the event is worth a
    /// line in the log.
    Continue(bool),
}

/// Reads that one call for a frame may spend on a clip.
pub const READ_BUDGET: u32 = 1000;

/// Whether a log line of this level and length is reported: warnings and
/// errors always, lines of unknown level when longer than two bytes.
pub open spec fn log_reported(level: LogLevel, len: int) -> bool {
    match level {
        LogLevel::Info => false,
        LogLevel::Warning | LogLevel::Error | LogLevel::Fatal => true,
        LogLevel::Unknown => len > 2,
    }
}

/// Tells whether a log line of this level and length is reported.
pub fn report_log(level: LogLevel, len: usize) -> (report: bool)
    ensures
        report == log_reported(level, len as int),
{
    match level {
        LogLevel::Info => false,
        LogLevel::Warning | LogLevel::Error | LogLevel::Fatal => true,
        LogLevel::Unknown => len > 2,
    }
}

/// One source clip: where it comes from, its length once probed, and the
/// state of its decoding.
#[derive(Debug)]
pub struct Video {
    pub src: String,
    pub length_millis: Option<i64>,
    pub frame_count: u64,
    pub frame_start: u64,
    pub width_height: Rect,
    /// Whole frames per second.
    pub fps: u32,
    pub state: DecodeState,
    /// Reads left to the running call for a frame.
    pub reads_left: u32,
}

/// What is to be done next to get a frame from a clip.
#[derive(Clone, Copy, Debug, PartialEq, Eq, Structural)]
pub enum ClipStep {
    /// Launch the clip's decoder.
    Launch,
    /// Read the next event from the clip's decoder.
    Read,
    /// Give up: the clip has no frame for this call.
    Stop,
}

impl Video {
    /// A clip at `src`, not probed and not started.
    pub fn from_path(src: String) -> (video: Video)
        ensures
            video.src == src,
            video.length_millis is None,
            video.frame_count == 0,
            video.frame_start == 0,
            video.width_height == (0u32, 0u32),
            video.fps == 0,
            video.state == DecodeState::Unstarted,
            video.reads_left == 0,
    {
        Video {
            src,
            length_millis: None,
            frame_count: 0,
            frame_start: 0,
            width_height: (0, 0),
            fps: 0,
            state: DecodeState::Unstarted,
            reads_left: 0,
        }
    }

    /// Sets the size and the frame rate that the clip is decoded to.
    pub fn set_video_shape(&mut self, wxh: Rect, fps: u32)
        ensures
            *final(self) == (Video { width_height: wxh, fps, ..*old(self) }),
    {
        self.width_height = wxh;
        self.fps = fps;
    }

    /// The clip's length in milliseconds, where it has been probed.
    pub fn get_length(&self) -> (length: Result<i64, ()>)
        ensures
            length == match self.length_millis {
                Some(millis) => Ok::<i64, ()>(millis),
                None => Err::<i64, ()>(()),
            },
    {
        match self.length_millis {
            Some(millis) => Ok(millis),
            None => Err(()),
        }
    }

    /// Tells whether the clip has given a frame to the video, so that its
    /// sound belongs to the video too.
    pub fn has_played(&self) -> (played: bool)
        ensures
            played == (self.frame_count >= 1),
    {
        self.frame_count >= 1
    }

    /// Begins a call for the clip's next frame: the call may spend
    /// `READ_BUDGET` steps.
    pub fn begin_frame(&mut self)
        ensures
            *final(self) == (Video { reads_left: READ_BUDGET, ..*old(self) }),
    {
        self.reads_left = READ_BUDGET;
    }

    /// The state after `next_step`, and the step it names.
    pub open spec fn stepped(self) -> (Video, ClipStep) {
        if self.state == DecodeState::Exhausted {
            (self, ClipStep::Stop)
        } else if self.reads_left == 0 {
            (Video { state: DecodeState::Exhausted, ..self }, ClipStep::Stop)
        } else if self.state == DecodeState::Unstarted {
            (
                Video {
                    state: DecodeState::Decoding,
                    reads_left: (self.reads_left - 1) as u32,
                    ..self
                },
                ClipStep::Launch,
            )
        } else {
            (Video { reads_left: (self.reads_left - 1) as u32, ..self }, ClipStep::Read)
        }
    }

    /// Decides what is to be done next in a call for a frame. Every launch
    /// and every read spends one step of the call's budget. A clip that has
    /// not been started is launched; a clip that is decoding is read; a clip
    /// whose budget is spent counts as exhausted.
    pub fn next_step(&mut self) -> (step: ClipStep)
        ensures
            (*final(self), step) == old(self).stepped(),
    {
        if self.state == DecodeState::Exhausted {
            ClipStep::Stop
        } else if self.reads_left == 0 {
            self.state = DecodeState::Exhausted;
            ClipStep::Stop
        } else if self.state == DecodeState::Unstarted {
            self.state = DecodeState::Decoding;
            self.reads_left = self.reads_left - 1;
            ClipStep::Launch
        } else {
            self.reads_left = self.reads_left - 1;
            ClipStep::Read
        }
    }

    /// The state after `event`, and what follows from it.
    pub open spec fn after_event(self, event: DecodeEvent) -> (Video, EventOutcome) {
        match event {
            DecodeEvent::Frame => (
                Video {
                    frame_count: if self.frame_count < u64::MAX {
                        (self.frame_count + 1) as u64
                    } else {
                        self.frame_count
                    },
                    ..self
                },
                EventOutcome::Deliver,
            ),
            DecodeEvent::End => (
                Video { state: DecodeState::Exhausted, ..self },
                EventOutcome::Finished,
            ),
            DecodeEvent::Done => (self, EventOutcome::Continue(true)),
            DecodeEvent::Log(level, len) => (
                self,
                EventOutcome::Continue(log_reported(level, len as int)),
            ),
            DecodeEvent::Other => (self, EventOutcome::Continue(false)),
        }
    }

    /// Takes in what a read from the decoder brought. A frame is counted and
    /// delivered; the end of the stream exhausts the clip; everything else
    /// is passed over, and the call goes on.
    pub fn on_event(&mut self, event: DecodeEvent) -> (outcome: EventOutcome)
        ensures
            (*final(self), outcome) == old(self).after_event(event),
    {
        match event {
            DecodeEvent::Frame => {
                if self.frame_count < u64::MAX {
                    self.frame_count = self.frame_count + 1;
                }
                EventOutcome::Deliver
            },
            DecodeEvent::End => {
                self.state = DecodeState::Exhausted;
                EventOutcome::Finished
            },
            DecodeEvent::Done => EventOutcome::Continue(true),
            DecodeEvent::Log(level, len) => EventOutcome::Continue(report_log(level, len)),
            DecodeEvent::Other => EventOutcome::Continue(false),
        }
    }
}

/// Clips that one call for a frame may give up on before it gives up
/// itself.
pub const TRY_BUDGET: u32 = 10;

/// The clips of one region: those still to be played, in their order, and
/// those played.
#[derive(Debug)]
pub struct VideoList {
    pub videos: VecDeque<Video>,
    pub complete_videos: VecDeque<Video>,
    pub video_sizer: VideoEditData,
    pub position: u32,
    /// Clips that the running call for a frame may still give up on.
    pub tries_left: u32,
    /// The number of the canvas frame that the running call is for.
    pub tick: u64,
}

/// What a cursor is as a value: the clips to be played, the clips played,
/// and the budget and frame number of the running call.
pub ghost struct Cursor {
    pub pending: Seq<Video>,
    pub complete: Seq<Video>,
    pub tries_left: u32,
    pub tick: u64,
}

/// What is to be done next to get a frame from a region.
#[derive(Clone, Copy, Debug, PartialEq, Eq, Structural)]
pub enum CursorStep {
    /// Launch the decoder of the first clip to be played.
    Launch,
    /// Read the next event from the decoder of the first clip to be played.
    Read,
    /// No clip is left: the region's stream has ended.
    Ended,
    /// The call has given up on as many clips as it may: no frame for this
    /// call, though clips remain.
    Stalled,
}

/// The clip as it is when it becomes the first to be played in the call for
/// frame `tick`.
pub open spec fn fronted(video: Video, tick: u64) -> Video {
    Video { frame_start: tick, reads_left: READ_BUDGET, ..video }
}

/// The clips with the first of them, if any, made ready for frame `tick`.
pub open spec fn with_front(pending: Seq<Video>, tick: u64) -> Seq<Video> {
    if pending.len() == 0 {
        pending
    } else {
        pending.update(0, fronted(pending[0], tick))
    }
}

impl Cursor {
    /// The cursor after its first clip, as `done`, has joined the clips
    /// played: the call has one try less, and the next clip is made ready.
    pub open spec fn retired(self, done: Video) -> Cursor {
        Cursor {
            pending: with_front(self.pending.drop_first(), self.tick),
            complete: self.complete.push(done),
            tries_left: if self.tries_left > 0 {
                (self.tries_left - 1) as u32
            } else {
                0
            },
            ..self
        }
    }

    /// The cursor at the beginning of the call for frame `tick`.
    pub open spec fn begun(self, tick: u64) -> Cursor {
        Cursor { pending: with_front(self.pending, tick), tries_left: TRY_BUDGET, tick, ..self }
    }

    /// The cursor after `next_step`, and the step it names. Clips that have
    /// no frame for this call are passed to the clips played, as long as the
    /// call has tries left.
    pub open spec fn stepped(self) -> (Cursor, CursorStep)
        decreases self.tries_left,
    {
        if self.pending.len() == 0 {
            (self, CursorStep::Ended)
        } else if self.tries_left == 0 {
            (self, CursorStep::Stalled)
        } else {
            let (front, step) = self.pending[0].stepped();
            match step {
                ClipStep::Launch => (
                    Cursor { pending: self.pending.update(0, front), ..self },
                    CursorStep::Launch,
                ),
                ClipStep::Read => (
                    Cursor { pending: self.pending.update(0, front), ..self },
                    CursorStep::Read,
                ),
                ClipStep::Stop => self.retired(front).stepped(),
            }
        }
    }

    /// The cursor after `event` came from the first clip's decoder, and
    /// what follows from it. A clip whose stream has ended joins the clips
    /// played, and the call goes on with the next.
    pub open spec fn after_event(self, event: DecodeEvent) -> (Cursor, EventOutcome) {
        let (front, outcome) = self.pending[0].after_event(event);
        match outcome {
            EventOutcome::Finished => (self.retired(front), EventOutcome::Continue(false)),
            _ => (Cursor { pending: self.pending.update(0, front), ..self }, outcome),
        }
    }
}

impl View for VideoList {
    type V = Cursor;

    open spec fn view(&self) -> Cursor {
        Cursor {
            pending: self.videos@,
            complete: self.complete_videos@,
            tries_left: self.tries_left,
            tick: self.tick,
        }
    }
}

impl VideoList {
    /// Makes the first clip to be played, if any, ready for the running
    /// call.
    fn ready_front(&mut self)
        ensures
            final(self)@ == (Cursor { pending: with_front(old(self)@.pending, old(self).tick), ..old(self)@ }),
            final(self).video_sizer == old(self).video_sizer,
            final(self).position == old(self).position,
    {
        match self.videos.pop_front() {
            Some(mut front) => {
                let ghost rest = self.videos@;
                front.frame_start = self.tick;
                front.begin_frame();
                self.videos.push_front(front);
                assert(self.videos@ =~= with_front(old(self)@.pending, old(self).tick));
            },
            None => {},
        }
    }

    /// Begins the call for the frame of canvas frame `fc`: the call may give
    /// up on `TRY_BUDGET` clips, and the first clip is made ready.
    pub fn begin_frame(&mut self, fc: u64)
        ensures
            final(self)@ == old(self)@.begun(fc),
            final(self).video_sizer == old(self).video_sizer,
            final(self).position == old(self).position,
    {
        self.tick = fc;
        self.tries_left = TRY_BUDGET;
        self.ready_front();
    }

    /// Decides what is to be done next to get the region's frame.
    pub fn next_step(&mut self) -> (step: CursorStep)
        ensures
            (final(self)@, step) == old(self)@.stepped(),
            final(self).video_sizer == old(self).video_sizer,
            final(self).position == old(self).position,
    {
        loop
            invariant
                self@.stepped() == old(self)@.stepped(),
                self.video_sizer == old(self).video_sizer,
                self.position == old(self).position,
            decreases self.tries_left,
        {
            if self.videos.len() == 0 {
                return CursorStep::Ended;
            }
            if self.tries_left == 0 {
                return CursorStep::Stalled;
            }
            let ghost before = self@;
            match self.videos.pop_front() {
                None => {
                    return CursorStep::Ended;
                },
                Some(mut front) => {
                    let step = front.next_step();
                    match step {
                        ClipStep::Launch => {
                            self.videos.push_front(front);
                            assert(self.videos@ =~= before.pending.update(0, front));
                            return CursorStep::Launch;
                        },
                        ClipStep::Read => {
                            self.videos.push_front(front);
                            assert(self.videos@ =~= before.pending.update(0, front));
                            return CursorStep::Read;
                        },
                        ClipStep::Stop => {
                            self.complete_videos.push_back(front);
                            self.tries_left = self.tries_left - 1;
                            assert(self.videos@ =~= before.pending.drop_first());
                            self.ready_front();
                            assert(self@ == before.retired(front));
                        },
                    }
                },
            }
        }
    }

    /// Takes in what a read from the first clip's decoder brought.
    pub fn on_event(&mut self, event: DecodeEvent) -> (outcome: EventOutcome)
        requires
            old(self).videos@.len() > 0,
        ensures
            (final(self)@, outcome) == old(self)@.after_event(event),
            final(self).video_sizer == old(self).video_sizer,
            final(self).position == old(self).position,
    {
        let ghost before = self@;
        match self.videos.pop_front() {
            Some(mut front) => {
                let outcome = front.on_event(event);
                self.videos.push_front(front);
                assert(self.videos@ =~= before.pending.update(0, front));
                match outcome {
                    EventOutcome::Finished => {
                        let ghost held = self@;
                        self.retire_front(Ghost(front));
                        assert(held.pending.drop_first() =~= before.pending.drop_first());
                        EventOutcome::Continue(false)
                    },
                    _ => outcome,
                }
            },
            None => EventOutcome::Continue(false),
        }
    }

    /// Passes the first clip to the clips played.
    fn retire_front(&mut self, Ghost(front): Ghost<Video>)
        requires
            old(self).videos@.len() > 0,
            old(self).videos@[0] == front,
        ensures
            final(self)@ == old(self)@.retired(front),
            final(self).video_sizer == old(self).video_sizer,
            final(self).position == old(self).position,
    {
        let ghost before = self@;
        match self.videos.pop_front() {
            Some(done) => {
                self.complete_videos.push_back(done);
                if self.tries_left > 0 {
                    self.tries_left = self.tries_left - 1;
                }
                assert(self.videos@ =~= before.pending.drop_first());
                self.ready_front();
            },
            None => {},
        }
    }

    /// Passes the first clip to be played, if any, to the clips played.
    pub fn pop_first_vid(&mut self) -> (popped: bool)
        ensures
            popped == (old(self).videos@.len() > 0),
            popped ==> final(self).videos@ == old(self).videos@.drop_first()
                && final(self).complete_videos@ == old(self).complete_videos@.push(old(self).videos@[0]),
            !popped ==> final(self).videos@ == old(self).videos@ && final(self).complete_videos@
                == old(self).complete_videos@,
            final(self).video_sizer == old(self).video_sizer,
            final(self).position == old(self).position,
            final(self).tries_left == old(self).tries_left,
            final(self).tick == old(self).tick,
    {
        let ghost before = self.videos@;
        match self.videos.pop_front() {
            Some(vid) => {
                self.complete_videos.push_back(vid);
                assert(self.videos@ =~= before.drop_first());
                true
            },
            None => false,
        }
    }
}

/// The clips, each set to be decoded to `wxh` at `fps` frames per second.
pub open spec fn shaped(videos: Seq<Video>, wxh: Rect, fps: u32) -> Seq<Video> {
    Seq::new(videos.len(), |i: int| Video { width_height: wxh, fps, ..videos[i] })
}

/// A copy of the canvas data.
pub fn copy_sizer(sizer: &VideoEditData) -> (copy: VideoEditData)
    ensures
        copy.output_height == sizer.output_height,
        copy.output_width == sizer.output_width,
        copy.fps == sizer.fps,
        copy.shapes@ == sizer.shapes@,
{
    let mut shapes: Vec<Rect> = Vec::new();
    let mut i: usize = 0;
    while i < sizer.shapes.len()
        invariant
            i <= sizer.shapes@.len(),
            shapes@ == sizer.shapes@.take(i as int),
        decreases sizer.shapes@.len() - i,
    {
        shapes.push(sizer.shapes[i]);
        assert(sizer.shapes@.take(i as int + 1) =~= sizer.shapes@.take(i as int).push(
            sizer.shapes@[i as int],
        ));
        i += 1;
    }
    assert(sizer.shapes@.take(sizer.shapes@.len() as int) =~= sizer.shapes@);
    VideoEditData {
        output_height: sizer.output_height,
        output_width: sizer.output_width,
        shapes,
        fps: sizer.fps,
    }
}

impl VideoList {
    /// The clips of region `pos`, in the order that `sorter` gives them,
    /// with nothing played yet, on the canvas that `VideoEditData::init`
    /// gives.
    pub fn from_videos(videos: Vec<Video>, pos: u32, sorter: SortOrder) -> (list: VideoList)
        requires
            pos < 25,
            sorter == SortOrder::RandomWithLargestLast ==> videos@.len() > 0,
        ensures
            list.position == pos,
            list.complete_videos@ == Seq::<Video>::empty(),
            list.tries_left == 0,
            list.tick == 0,
            exists|sorted: Seq<Video>|
                sorter.sorts(videos@, sorted) && list.videos@ == shaped(sorted, (5u32, 5u32), 30),
    {
        let sorted = sorter.apply_sort(videos);
        let mut queue: VecDeque<Video> = VecDeque::new();
        for video in it: sorted
            invariant
                it.seq() == sorted@,
                queue@ == sorted@.take(it.index() as int),
        {
            let ghost before = queue@;
            queue.push_back(video);
            assert(sorted@.take(it.index() + 1) =~= before.push(video));
        }
        assert(sorted@.take(sorted@.len() as int) =~= sorted@);
        let mut vl = VideoList {
            videos: queue,
            complete_videos: VecDeque::new(),
            video_sizer: VideoEditData::init(),
            position: pos,
            tries_left: 0,
            tick: 0,
        };
        let sizer = VideoEditData::init();
        vl.set_video_sizer(sizer);
        vl
    }

    /// Sets the canvas: every clip still to be played is decoded to the
    /// rectangle of this region, at the canvas's frame rate.
    pub fn set_video_sizer(&mut self, vs: VideoEditData)
        requires
            old(self).position < vs.shapes@.len(),
        ensures
            final(self).videos@ == shaped(
                old(self).videos@,
                vs.shapes@[old(self).position as int],
                vs.fps,
            ),
            final(self).video_sizer == vs,
            final(self).complete_videos@ == old(self).complete_videos@,
            final(self).position == old(self).position,
            final(self).tries_left == old(self).tries_left,
            final(self).tick == old(self).tick,
    {
        let vid_shape = vs.shapes[self.position as usize];
        let fps = vs.fps;
        self.video_sizer = vs;
        let n = self.videos.len();
        let ghost start = self.videos@;
        let mut i: usize = 0;
        while i < n
            invariant
                i <= n,
                n == start.len(),
                start == old(self).videos@,
                self.videos@ == start.skip(i as int) + shaped(start.take(i as int), vid_shape, fps),
                self.video_sizer == vs,
                self.complete_videos@ == old(self).complete_videos@,
                self.position == old(self).position,
                self.tries_left == old(self).tries_left,
                self.tick == old(self).tick,
            decreases n - i,
        {
            let ghost before = self.videos@;
            match self.videos.pop_front() {
                Some(mut v) => {
                    v.set_video_shape(vid_shape, fps);
                    self.videos.push_back(v);
                },
                None => {},
            }
            assert(self.videos@ =~= start.skip(i as int + 1) + shaped(
                start.take(i as int + 1),
                vid_shape,
                fps,
            ));
            i += 1;
        }
        assert(self.videos@ =~= shaped(start, vid_shape, fps));
    }
}

/// The regions of the canvas, each with its clips, the canvas, the layout
/// and the place of the finished video.
#[derive(Debug)]
pub struct VideoGroup {
    pub videos: Vec<VideoList>,
    pub output_target: String,
    pub video_sizer: VideoEditData,
    pub shape_style: FrameShape,
}

/// What one round of the main loop ends with.
#[derive(Debug)]
pub enum Tick {
    /// A region had no frame: the video has ended, and nothing of this
    /// round goes to the encoder.
    Stop,
    /// One canvas frame, for the encoder.
    Write(Vec<u8>),
}

/// The frames of a round in which every region has one.
pub open spec fn unwrapped(batch: Seq<Option<RawFrame>>) -> Seq<RawFrame> {
    Seq::new(batch.len(), |i: int| batch[i]->Some_0)
}

/// Every region has a frame.
pub open spec fn all_present(batch: Seq<Option<RawFrame>>) -> bool {
    forall|i: int| 0 <= i < batch.len() ==> (#[trigger] batch[i]) is Some
}

impl VideoGroup {
    /// The main loop can begin: the layout has an interleave rule, there is
    /// one region's list of clips for each region of the layout, with a
    /// rectangle on the canvas, and every list has a clip to play.
    pub open spec fn is_ready(&self) -> bool {
        &&& self.shape_style.has_interleave_rule()
        &&& self.videos@.len() == self.shape_style.region_count()
        &&& self.video_sizer.shapes@.len() == self.shape_style.region_count()
        &&& forall|i: int| 0 <= i < self.videos@.len() ==> (#[trigger] self.videos@[i]).videos@.len() > 0
    }

    /// Tests whether the main loop can begin.
    pub fn ready(&self) -> (ok: bool)
        ensures
            ok == self.is_ready(),
    {
        if matches!(self.shape_style, FrameShape::ExtendedLandscape2 | FrameShape::OffsetVH4x4) {
            return false;
        }
        let count = self.shape_style.count() as usize;
        if self.videos.len() != count || self.video_sizer.shapes.len() != count {
            return false;
        }
        let mut i: usize = 0;
        while i < self.videos.len()
            invariant
                i <= self.videos@.len(),
                forall|k: int| 0 <= k < i ==> (#[trigger] self.videos@[k]).videos@.len() > 0,
            decreases self.videos@.len() - i,
        {
            if self.videos[i].videos.len() == 0 {
                return false;
            }
            i += 1;
        }
        true
    }

    /// Sets the canvas, for the group and for the clips of every region.
    pub fn set_video_sizer(&mut self, video_sizer: VideoEditData)
        requires
            forall|i: int|
                0 <= i < old(self).videos@.len() ==> (#[trigger] old(self).videos@[i]).position
                    < video_sizer.shapes@.len(),
        ensures
            final(self).video_sizer == video_sizer,
            final(self).shape_style == old(self).shape_style,
            final(self).output_target == old(self).output_target,
            final(self).videos@.len() == old(self).videos@.len(),
            forall|i: int|
                0 <= i < final(self).videos@.len() ==> {
                    &&& (#[trigger] final(self).videos@[i]).videos@ == shaped(
                        old(self).videos@[i].videos@,
                        video_sizer.shapes@[old(self).videos@[i].position as int],
                        video_sizer.fps,
                    )
                    &&& final(self).videos@[i].position == old(self).videos@[i].position
                    &&& final(self).videos@[i].complete_videos@ == old(self).videos@[i].complete_videos@
                },
    {
        let n = self.videos.len();
        let mut i: usize = 0;
        while i < n
            invariant
                i <= n,
                n == self.videos@.len(),
                n == old(self).videos@.len(),
                self.shape_style == old(self).shape_style,
                self.output_target == old(self).output_target,
                forall|k: int|
                    0 <= k < n ==> (#[trigger] old(self).videos@[k]).position
                        < video_sizer.shapes@.len(),
                forall|k: int| i <= k < n ==> (#[trigger] self.videos@[k]) == old(self).videos@[k],
                forall|k: int|
                    0 <= k < i ==> {
                        &&& (#[trigger] self.videos@[k]).videos@ == shaped(
                            old(self).videos@[k].videos@,
                            video_sizer.shapes@[old(self).videos@[k].position as int],
                            video_sizer.fps,
                        )
                        &&& self.videos@[k].position == old(self).videos@[k].position
                        &&& self.videos@[k].complete_videos@ == old(self).videos@[k].complete_videos@
                    },
            decreases n - i,
        {
            let copy = copy_sizer(&video_sizer);
            self.videos[i].set_video_sizer(copy);
            i += 1;
        }
        self.video_sizer = video_sizer;
    }

    /// One round of the main loop, from the frames that the regions
    /// brought. Where any region brought none, the video ends and nothing
    /// is written. Otherwise the frames are joined into one canvas frame.
    pub fn tick(&self, batch: Vec<Option<RawFrame>>) -> (out: Tick)
        requires
            all_present(batch@) ==> self.shape_style.joinable(unwrapped(batch@)),
        ensures
            !all_present(batch@) ==> out is Stop,
            all_present(batch@) ==> out == Tick::Write(out->Write_0) && out->Write_0@ == joined(
                unwrapped(batch@),
                self.shape_style.interleave_table(),
            ),
    {
        let mut frames: Vec<RawFrame> = Vec::new();
        for frame in it: batch
            invariant
                it.seq() == batch@,
                frames@.len() == it.index(),
                forall|i: int| 0 <= i < it.index() ==> (#[trigger] batch@[i]) == Some(frames@[i]),
        {
            match frame {
                Some(f) => {
                    frames.push(f);
                },
                None => {
                    assert(batch@[it.index() as int] is None);
                    return Tick::Stop;
                },
            }
        }
        assert(frames@ =~= unwrapped(batch@));
        Tick::Write(self.shape_style.frame_joiner(frames, &self.video_sizer))
    }

    /// Tells whether the frames of a round can be joined, if every region
    /// brought one.
    pub fn batch_joinable(&self, batch: &Vec<Option<RawFrame>>) -> (ok: bool)
        ensures
            ok == (all_present(batch@) ==> self.shape_style.joinable(unwrapped(batch@))),
    {
        let mut i: usize = 0;
        while i < batch.len()
            invariant
                i <= batch@.len(),
                forall|k: int| 0 <= k < i ==> (#[trigger] batch@[k]) is Some,
            decreases batch@.len() - i,
        {
            if batch[i].is_none() {
                return true;
            }
            i += 1;
        }
        assert(all_present(batch@));
        if matches!(self.shape_style, FrameShape::ExtendedLandscape2 | FrameShape::OffsetVH4x4) {
            return false;
        }
        if batch.len() != self.shape_style.count() as usize {
            return false;
        }
        let mut k: usize = 0;
        while k < batch.len()
            invariant
                k <= batch@.len(),
                all_present(batch@),
                forall|j: int| 0 <= j < k ==> (#[trigger] unwrapped(batch@)[j]).width > 0,
            decreases batch@.len() - k,
        {
            match &batch[k] {
                Some(frame) => {
                    if frame.width == 0 {
                        assert(unwrapped(batch@)[k as int].width == 0);
                        return false;
                    }
                },
                None => {},
            }
            k += 1;
        }
        true
    }
}

/// Whether the throughput is reported at canvas frame `frame_counter`: every
/// thirty seconds of video.
pub open spec fn report_due_at(frame_counter: u64, fps: u32) -> bool {
    frame_counter as int % (fps as int * 30) == 0
}

/// Tells whether the throughput is reported at canvas frame
/// `frame_counter`.
pub fn report_due(frame_counter: u64, fps: u32) -> (due: bool)
    requires
        fps > 0,
    ensures
        due == report_due_at(frame_counter, fps),
{
    frame_counter % (fps as u64 * 30) == 0
}

/// The length of a clip in milliseconds, 0 where it has not been probed.
pub open spec fn known_length(video: Video) -> int {
    match video.length_millis {
        Some(millis) => millis as int,
        None => 0,
    }
}

/// The lengths of the first `n` clips together.
pub open spec fn clips_millis(videos: Seq<Video>, n: int) -> int
    decreases n,
{
    if n <= 0 {
        0
    } else {
        clips_millis(videos, n - 1) + known_length(videos[n - 1])
    }
}

/// The length of what a region has still to play.
pub open spec fn pending_millis(list: VideoList) -> int {
    clips_millis(list.videos@, list.videos@.len() as int)
}

/// `least` is the shortest of what the first `n` regions have still to
/// play.
pub open spec fn is_shortest(lists: Seq<VideoList>, n: int, least: int) -> bool {
    &&& exists|i: int| 0 <= i < n && pending_millis(#[trigger] lists[i]) == least
    &&& forall|i: int| 0 <= i < n ==> pending_millis(#[trigger] lists[i]) >= least
}

proof fn lemma_clips_millis_bounds(videos: Seq<Video>, n: int)
    requires
        0 <= n,
    ensures
        n * (i64::MIN as int) <= clips_millis(videos, n) <= n * (i64::MAX as int),
    decreases n,
{
    if n > 0 {
        lemma_clips_millis_bounds(videos, n - 1);
    }
}

impl VideoList {
    /// The length of the clips still to be played, together, in
    /// milliseconds. A clip that has not been probed counts as of no
    /// length.
    pub fn pending_length(&self) -> (millis: i128)
        ensures
            millis == pending_millis(*self),
    {
        let mut millis: i128 = 0;
        let mut i: usize = 0;
        while i < self.videos.len()
            invariant
                i <= self.videos@.len(),
                millis == clips_millis(self.videos@, i as int),
            decreases self.videos@.len() - i,
        {
            proof {
                lemma_clips_millis_bounds(self.videos@, i as int);
                lemma_clips_millis_bounds(self.videos@, i as int + 1);
            }
            let len: i64 = match self.videos[i].length_millis {
                Some(m) => m,
                None => 0,
            };
            millis = millis + len as i128;
            i += 1;
        }
        millis
    }
}

impl VideoGroup {
    /// How long the finished video plays, in milliseconds: as long as the
    /// region that has the least to play. None for a group without regions.
    pub fn output_length(&self) -> (millis: Option<i128>)
        ensures
            match millis {
                Some(least) => is_shortest(self.videos@, self.videos@.len() as int, least as int),
                None => self.videos@.len() == 0,
            },
    {
        if self.videos.len() == 0 {
            return None;
        }
        let mut least = self.videos[0].pending_length();
        let mut i: usize = 1;
        while i < self.videos.len()
            invariant
                1 <= i <= self.videos@.len(),
                is_shortest(self.videos@, i as int, least as int),
            decreases self.videos@.len() - i,
        {
            let millis = self.videos[i].pending_length();
            if millis < least {
                least = millis;
            }
            i += 1;
        }
        Some(least)
    }
}

/// Where the clips come from, in their order.
pub open spec fn sources(videos: Seq<Video>) -> Seq<String> {
    Seq::new(videos.len(), |i: int| videos[i].src)
}

/// A cursor reports the end of its stream exactly when every clip is
/// drained, and gives up only when it has no try left; whatever it
/// reports, no clip is lost and the clips keep their order: the clips
/// played, followed by the clips to be played, are the same as before.
pub proof fn lemma_cursor_step(cursor: Cursor)
    ensures
        cursor.stepped().1 == CursorStep::Ended <==> cursor.stepped().0.pending.len() == 0,
        cursor.stepped().1 == CursorStep::Stalled ==> cursor.stepped().0.tries_left == 0,
        cursor.stepped().1 == CursorStep::Launch || cursor.stepped().1 == CursorStep::Read
            ==> cursor.stepped().0.pending.len() > 0 && cursor.stepped().0.pending[0].state
            == DecodeState::Decoding,
        sources(cursor.stepped().0.complete) + sources(cursor.stepped().0.pending) == sources(
            cursor.complete,
        ) + sources(cursor.pending),
    decreases cursor.tries_left,
{
    if cursor.tries_left > 0 && cursor.pending.len() > 0 {
        let (front, step) = cursor.pending[0].stepped();
        assert(cursor.pending.update(0, front).len() > 0);
        if step == ClipStep::Stop {
            let next = cursor.retired(front);
            lemma_cursor_step(next);
            assert(sources(next.complete) + sources(next.pending) =~= sources(cursor.complete)
                + sources(cursor.pending));
        } else {
            let after = cursor.pending.update(0, front);
            assert(sources(after) =~= sources(cursor.pending));
        }
    }
}

/// Whatever a decoder brings, no clip is lost and the clips keep their
/// order; and a frame is delivered for a frame event only.
pub proof fn lemma_cursor_event(cursor: Cursor, event: DecodeEvent)
    requires
        cursor.pending.len() > 0,
    ensures
        cursor.after_event(event).1 == EventOutcome::Deliver <==> event == DecodeEvent::Frame,
        sources(cursor.after_event(event).0.complete) + sources(
            cursor.after_event(event).0.pending,
        ) == sources(cursor.complete) + sources(cursor.pending),
{
    let (front, outcome) = cursor.pending[0].after_event(event);
    if outcome == EventOutcome::Finished {
        let next = cursor.retired(front);
        assert(sources(next.complete) + sources(next.pending) =~= sources(cursor.complete)
            + sources(cursor.pending));
    } else {
        let after = cursor.pending.update(0, front);
        assert(sources(after) =~= sources(cursor.pending));
    }
}

} // verus!
