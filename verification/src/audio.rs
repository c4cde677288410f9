//! The texts of the audio pass: which played clips give a segment of sound,
//! the names of the temporary files, the list handed to the concat demuxer,
//! and the filter that pads the sound of a clip.

use vstd::prelude::*;
use vstd::string::StringExecFns;
use crate::helper_functions::path_texts;
use crate::text::{decimal, push_decimal};
use crate::video::{Video, VideoList};

verus! {

/// What follows each file in the list handed to the concat demuxer: the
/// filters that even out the loudness of a segment and fade it in.
pub open spec fn pre_concat_arg() -> Seq<char> {
    " -fa loudnorm afade=t=in:ss=0:d=2 dynaudnorm=p=0.9:s=5:t=0.4:f=1000:m=2"@
}

/// The line of one file in the list handed to the concat demuxer.
pub open spec fn concat_line(path: Seq<char>) -> Seq<char> {
    "file '"@ + path + "' "@ + pre_concat_arg()
}

/// The lines of the first `n` files, one below the other.
pub open spec fn concat_list(paths: Seq<Seq<char>>, n: int) -> Seq<char>
    decreases n,
{
    if n <= 0 {
        Seq::empty()
    } else if n == 1 {
        concat_line(paths[0])
    } else {
        concat_list(paths, n - 1) + "\n"@ + concat_line(paths[n - 1])
    }
}

/// The list handed to the concat demuxer: a line for each file, in their
/// order, with a line break between two lines and none at the end.
pub fn concat_list_text(paths: &Vec<String>) -> (text: String)
    ensures
        text@ == concat_list(path_texts(paths@), paths@.len() as int),
{
    let mut text = String::new();
    let mut i: usize = 0;
    while i < paths.len()
        invariant
            i <= paths@.len(),
            text@ == concat_list(path_texts(paths@), i as int),
        decreases paths@.len() - i,
    {
        let ghost before = text@;
        if i > 0 {
            text.append("\n");
        }
        text.append("file '");
        text.append(paths[i].as_str());
        text.append("' ");
        text.append(" -fa loudnorm afade=t=in:ss=0:d=2 dynaudnorm=p=0.9:s=5:t=0.4:f=1000:m=2");
        proof {
            assert(path_texts(paths@)[i as int] == paths@[i as int]@);
            if i == 0 {
                assert(before =~= Seq::<char>::empty());
                assert(text@ =~= concat_line(paths@[0]@));
            } else {
                assert(text@ =~= before + "\n"@ + concat_line(paths@[i as int]@));
            }
        }
        i += 1;
    }
    text
}

/// The name of the sound of clip `clip` of region `grp`.
pub open spec fn segment_name_text(grp: nat, clip: nat) -> Seq<char> {
    "g"@ + decimal(grp) + "f"@ + decimal(clip) + ".wav"@
}

/// The name of the file that takes the sound of clip `clip` of region
/// `grp`.
pub fn segment_name(grp: usize, clip: usize) -> (name: String)
    ensures
        name@ == segment_name_text(grp as nat, clip as nat),
{
    let mut name = String::new();
    name.append("g");
    push_decimal(&mut name, grp as u64);
    name.append("f");
    push_decimal(&mut name, clip as u64);
    name.append(".wav");
    proof {
        assert(name@ =~= segment_name_text(grp as nat, clip as nat));
    }
    name
}

/// The name of the file that lists the segments of region `stream`.
pub fn list_name(stream: usize) -> (name: String)
    ensures
        name@ == "temp"@ + decimal(stream as nat) + ".txt"@,
{
    let mut name = String::new();
    name.append("temp");
    push_decimal(&mut name, stream as u64);
    name.append(".txt");
    proof {
        assert(name@ =~= "temp"@ + decimal(stream as nat) + ".txt"@);
    }
    name
}

/// The name of the file that takes the whole sound of region `stream`.
pub fn stream_name(stream: usize) -> (name: String)
    ensures
        name@ == "g"@ + decimal(stream as nat) + ".wav"@,
{
    let mut name = String::new();
    name.append("g");
    push_decimal(&mut name, stream as u64);
    name.append(".wav");
    proof {
        assert(name@ =~= "g"@ + decimal(stream as nat) + ".wav"@);
    }
    name
}

/// The filter that pads the sound of a clip with silence up to `length`.
pub fn pad_filter(length: &str) -> (text: String)
    ensures
        text@ == "[0:a]apad=whole_dur="@ + length@ + "[a]"@,
{
    let mut text = String::new();
    text.append("[0:a]apad=whole_dur=");
    text.append(length);
    text.append("[a]");
    proof {
        assert(text@ =~= "[0:a]apad=whole_dur="@ + length@ + "[a]"@);
    }
    text
}

/// The name under which the picture is written before the sound is joined
/// to it: the name of the output file behind a mark.
pub fn temp_video_name(file_name: &str) -> (name: String)
    ensures
        name@ == "__temp__"@ + file_name@,
{
    let mut name = String::new();
    name.append("__temp__");
    name.append(file_name);
    proof {
        assert(name@ =~= "__temp__"@ + file_name@);
    }
    name
}

/// A segment of sound to export: the clip it is taken from, the name of
/// the file that takes it, and the frames that the clip has given.
pub struct Segment {
    pub src: String,
    pub name: String,
    pub frames: u64,
}

/// What a segment is: the path of its clip, its name and its frames.
pub open spec fn segment_view(segment: Segment) -> (Seq<char>, Seq<char>, u64) {
    (segment.src@, segment.name@, segment.frames)
}

/// The segments of the first `n` clips that a region has played: one for
/// each clip that has given a frame, named by the place of the clip among
/// all that the region has played.
pub open spec fn segments_of(done: Seq<Video>, grp: nat, n: int) -> Seq<(Seq<char>, Seq<char>, u64)>
    decreases n,
{
    if n <= 0 {
        Seq::empty()
    } else if done[n - 1].frame_count >= 1 {
        segments_of(done, grp, n - 1).push(
            (done[n - 1].src@, segment_name_text(grp, (n - 1) as nat), done[n - 1].frame_count),
        )
    } else {
        segments_of(done, grp, n - 1)
    }
}

/// The segments of sound to export for region `grp`: one for each clip
/// that the region has played and that has given a frame.
pub fn audio_segments(list: &VideoList, grp: usize) -> (out: Vec<Segment>)
    ensures
        out@.map_values(|s: Segment| segment_view(s)) == segments_of(
            list.complete_videos@,
            grp as nat,
            list.complete_videos@.len() as int,
        ),
{
    let mut out: Vec<Segment> = Vec::new();
    let mut i: usize = 0;
    while i < list.complete_videos.len()
        invariant
            i <= list.complete_videos@.len(),
            out@.map_values(|s: Segment| segment_view(s)) == segments_of(
                list.complete_videos@,
                grp as nat,
                i as int,
            ),
        decreases list.complete_videos@.len() - i,
    {
        let video = &list.complete_videos[i];
        let ghost before = out@;
        if video.has_played() {
            let segment = Segment {
                src: video.src.clone(),
                name: segment_name(grp, i),
                frames: video.frame_count,
            };
            out.push(segment);
            proof {
                assert(out@.map_values(|s: Segment| segment_view(s)) =~= before.map_values(
                    |s: Segment| segment_view(s),
                ).push(segment_view(segment)));
            }
        }
        i += 1;
    }
    out
}

} // verus!
