//! What the command line decides before any clip is read: the order of the
//! clips, how many folders to ask for, where the clips come from, the
//! canvas, and the texts handed to the decoder and the encoder.

use vstd::prelude::*;
use vstd::string::StringExecFns;
use crate::frame_shape::FrameShape;
use crate::switches::SortOrder;
use crate::text::{
    decimal, is_name, lower, lower_ascii, push_decimal, same_ignoring_case, to_chars, trim, trimmed,
};
use crate::video::VideoEditData;

verus! {

/// The names of the orders: for each order its number, its long name and
/// its short name.
pub open spec fn order_names(which: int) -> Seq<Seq<char>> {
    if which == 0 {
        seq!["0"@, "as_input"@, "none"@]
    } else if which == 1 {
        seq!["1"@, "random"@, "rand"@]
    } else if which == 2 {
        seq!["2"@, "randomseeded"@, "seed"@]
    } else if which == 3 {
        seq!["2r"@, "randomseededr"@, "seedr"@]
    } else if which == 4 {
        seq!["3"@, "shortestfirst"@, "shortest"@]
    } else if which == 5 {
        seq!["4"@, "longestfirst"@, "longest"@]
    } else {
        seq!["5"@, "randomwithlargestlast"@, "rwll"@]
    }
}

/// The order with the given number in the list of names.
pub open spec fn order_at(which: int, seed: u64) -> SortOrder {
    if which == 0 {
        SortOrder::Nan
    } else if which == 1 {
        SortOrder::Random
    } else if which == 2 {
        SortOrder::RandomSeeded(seed)
    } else if which == 3 {
        SortOrder::RandomSeededR(seed)
    } else if which == 4 {
        SortOrder::ShortestFirst
    } else if which == 5 {
        SortOrder::LongestFirst
    } else {
        SortOrder::RandomWithLargestLast
    }
}

/// Whether `text`, without the white space around it, is one of the names
/// of order `which` but for capital and small letters.
pub open spec fn names_order(text: Seq<char>, which: int) -> bool {
    exists|k: int| 0 <= k < 3 && same_ignoring_case(trimmed(text), #[trigger] order_names(which)[k])
}

/// The names of the order with the given number.
fn names_at(which: usize) -> (names: [&'static str; 3])
    requires
        which < 7,
    ensures
        names@.len() == 3,
        forall|k: int| 0 <= k < 3 ==> (#[trigger] names@[k])@ == order_names(which as int)[k],
{
    if which == 0 {
        ["0", "as_input", "none"]
    } else if which == 1 {
        ["1", "random", "rand"]
    } else if which == 2 {
        ["2", "randomseeded", "seed"]
    } else if which == 3 {
        ["2r", "randomseededr", "seedr"]
    } else if which == 4 {
        ["3", "shortestfirst", "shortest"]
    } else if which == 5 {
        ["4", "longestfirst", "longest"]
    } else {
        ["5", "randomwithlargestlast", "rwll"]
    }
}

/// The order that `name` names, with `seed` for the seeded orders; none
/// where `name` names no order.
pub fn sort_order_named(name: &str, seed: u64) -> (order: Option<SortOrder>)
    ensures
        match order {
            Some(found) => exists|which: int|
                {
                    &&& 0 <= which < 7
                    &&& #[trigger] order_at(which, seed) == found
                    &&& names_order(name@, which)
                    &&& forall|other: int| 0 <= other < which ==> !names_order(name@, other)
                },
            None => forall|which: int| 0 <= which < 7 ==> !names_order(name@, which),
        },
{
    let text = trim(&to_chars(name));
    let mut which: usize = 0;
    while which < 7
        invariant
            which <= 7,
            text@ == trimmed(name@),
            forall|other: int| 0 <= other < which ==> !names_order(name@, other),
        decreases 7 - which,
    {
        let names = names_at(which);
        let mut k: usize = 0;
        while k < 3
            invariant
                k <= 3,
                which < 7,
                names@.len() == 3,
                text@ == trimmed(name@),
                forall|other: int| 0 <= other < which ==> !names_order(name@, other),
                forall|l: int|
                    0 <= l < 3 ==> (#[trigger] names@[l])@ == order_names(which as int)[l],
                forall|l: int|
                    0 <= l < k ==> !same_ignoring_case(
                        trimmed(name@),
                        #[trigger] order_names(which as int)[l],
                    ),
            decreases 3 - k,
        {
            if is_name(&text, names[k]) {
                assert(same_ignoring_case(trimmed(name@), order_names(which as int)[k as int]));
                let found = if which == 0 {
                    SortOrder::Nan
                } else if which == 1 {
                    SortOrder::Random
                } else if which == 2 {
                    SortOrder::RandomSeeded(seed)
                } else if which == 3 {
                    SortOrder::RandomSeededR(seed)
                } else if which == 4 {
                    SortOrder::ShortestFirst
                } else if which == 5 {
                    SortOrder::LongestFirst
                } else {
                    SortOrder::RandomWithLargestLast
                };
                assert(order_at(which as int, seed) == found);
                return Some(found);
            }
            k += 1;
        }
        which += 1;
    }
    None
}

/// Where the clips come from, by the number of folders given.
#[derive(Clone, Copy, Debug, PartialEq, Eq, Structural)]
pub enum Source {
    /// One folder, whose clips are split among all regions.
    OneFolder,
    /// Two to fifteen folders, used as the plan for the layout has it.
    Folders,
}

/// Where the clips come from; none for no folder and for more than
/// fifteen.
pub fn source_for(folders: usize) -> (source: Option<Source>)
    ensures
        source == (if folders == 1 {
            Some(Source::OneFolder)
        } else if 2 <= folders <= 15 {
            Some(Source::Folders)
        } else {
            None
        }),
{
    if folders == 1 {
        Some(Source::OneFolder)
    } else if folders >= 2 && folders <= 15 {
        Some(Source::Folders)
    } else {
        None
    }
}

/// Whether the answer says yes: it holds a `y` or a `1`, capital letters
/// counting as small ones.
pub open spec fn says_yes(answer: Seq<char>) -> bool {
    exists|i: int| 0 <= i < answer.len() && (lower(#[trigger] answer[i]) == 'y' || answer[i] == '1')
}

/// Tells whether the answer says yes.
pub fn is_yes(answer: &str) -> (yes: bool)
    ensures
        yes == says_yes(answer@),
{
    let chars = to_chars(answer);
    let mut i: usize = 0;
    while i < chars.len()
        invariant
            i <= chars@.len(),
            chars@ == answer@,
            forall|k: int|
                0 <= k < i ==> !(lower(#[trigger] answer@[k]) == 'y' || answer@[k] == '1'),
        decreases chars@.len() - i,
    {
        if lower_ascii(chars[i]) == 'y' || chars[i] == '1' {
            return true;
        }
        i += 1;
    }
    false
}

/// Whether the layout can take all its clips from one folder: the layouts
/// of two to four equal regions.
pub open spec fn splits_by_itself(shape: FrameShape) -> bool {
    shape == FrameShape::Dual || shape == FrameShape::Triple || shape == FrameShape::Quad
}

/// Tells whether the layout can take all its clips from one folder.
pub fn can_split_by_itself(shape: FrameShape) -> (yes: bool)
    ensures
        yes == splits_by_itself(shape),
{
    matches!(shape, FrameShape::Dual | FrameShape::Triple | FrameShape::Quad)
}

/// How many folders to ask for: one where the layout can take all its
/// clips from one folder and the answer to that question says yes; a
/// folder for each region otherwise.
pub fn folders_to_ask(shape: FrameShape, answer: &str) -> (count: u32)
    ensures
        count == (if splits_by_itself(shape) && says_yes(answer@) {
            1
        } else {
            shape.region_count() as int
        }),
{
    if can_split_by_itself(shape) && is_yes(answer) {
        1
    } else {
        shape.count()
    }
}

/// The canvas for the sizes given on the command line: the given width and
/// height where both are given, 2560 by 1440 otherwise, cut into a column
/// for each region until the layout is set.
pub fn canvas_for(width: Option<u32>, height: Option<u32>, shape: FrameShape) -> (sizer: VideoEditData)
    ensures
        sizer.output_width == (if width is Some && height is Some {
            width->Some_0
        } else {
            2560
        }),
        sizer.output_height == (if width is Some && height is Some {
            height->Some_0
        } else {
            1440
        }),
        sizer.shapes@.len() == shape.region_count(),
        sizer.fps == 30,
{
    match (width, height) {
        (Some(w), Some(h)) => VideoEditData::init_wxh(w, h, shape.count()),
        _ => VideoEditData::init_wxh(2560, 1440, shape.count()),
    }
}

/// The filter graph that scales a clip to cover a rectangle, crops it to
/// the rectangle and sets its frame rate.
pub open spec fn decode_filter_text(w: u32, h: u32, fps: Seq<char>) -> Seq<char> {
    "[0:v]scale="@ + decimal(w as nat) + ":"@ + decimal(h as nat)
        + ":force_original_aspect_ratio=increase[a];[a]crop=w="@ + decimal(w as nat) + ":h="@
        + decimal(h as nat) + "[b];[b]fps=fps="@ + fps + "[output]"@
}

/// The filter graph for the decoder of a clip: scale to cover the
/// rectangle, crop to the rectangle, set the frame rate.
pub fn decode_filter(w: u32, h: u32, fps: &str) -> (text: String)
    ensures
        text@ == decode_filter_text(w, h, fps@),
{
    let mut text = String::new();
    text.append("[0:v]scale=");
    push_decimal(&mut text, w as u64);
    text.append(":");
    push_decimal(&mut text, h as u64);
    text.append(":force_original_aspect_ratio=increase[a];[a]crop=w=");
    push_decimal(&mut text, w as u64);
    text.append(":h=");
    push_decimal(&mut text, h as u64);
    text.append("[b];[b]fps=fps=");
    text.append(fps);
    text.append("[output]");
    proof {
        assert(text@ =~= decode_filter_text(w, h, fps@));
    }
    text
}

/// The size of the canvas as the encoder takes it: width, `x`, height.
pub fn canvas_size_arg(w: u32, h: u32) -> (text: String)
    ensures
        text@ == decimal(w as nat) + "x"@ + decimal(h as nat),
{
    let mut text = String::new();
    push_decimal(&mut text, w as u64);
    text.append("x");
    push_decimal(&mut text, h as u64);
    text
}

} // verus!
