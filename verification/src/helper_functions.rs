//! Small helpers: the frame counter, durations as text, lists of paths, and
//! the two ways from scanned clips to groups.

use vstd::prelude::*;
use vstd::string::StrSliceExecFns;
use std::time::Instant;
use crate::clock::now;
use crate::frame_shape::FrameShape;
use crate::group_split::{
    arranged, count_of, group_of_number, kept_of, lemma_dealt_count, lemma_kept_len, pair_total,
    ItemList, SwapHistory,
};
use crate::group_splitter::{
    all_probed, clip_lists, lengths_fit, lengths_of, regrouper, regrouping, total_length,
};
use crate::text::{push_two_digits, two_digits};
use crate::video::Video;

verus! {

/// Counts the frames written since a point in time.
#[derive(Debug)]
pub struct FrameTimer {
    pub _init_: Instant,
    pub _frame_count_: u128,
}

impl FrameTimer {
    /// A counter at zero, started now.
    pub fn new() -> (timer: FrameTimer)
        ensures
            timer._frame_count_ == 0,
    {
        FrameTimer { _init_: now(), _frame_count_: 0 }
    }

    /// Counts one frame.
    pub fn frame(&mut self)
        requires
            old(self)._frame_count_ < u128::MAX,
        ensures
            final(self)._frame_count_ == old(self)._frame_count_ + 1,
            final(self)._init_ == old(self)._init_,
    {
        self._frame_count_ = self._frame_count_ + 1;
    }
}

/// A duration of `sec` seconds as hours, minutes and seconds, each of at
/// least two digits, with hyphens between.
pub open spec fn hhmmss(sec: nat) -> Seq<char> {
    two_digits(sec / 3600) + seq!['-'] + two_digits(sec / 60 % 60) + seq!['-'] + two_digits(
        sec % 60,
    )
}

/// A duration in seconds as text: hours, minutes and seconds.
pub fn seconds_to_hhmmss(sec: u64) -> (text: String)
    ensures
        text@ == hhmmss(sec as nat),
{
    let (min, sec) = (sec / 60, sec % 60);
    let (hour, min) = (min / 60, min % 60);
    let mut text = String::new();
    push_two_digits(&mut text, hour);
    text.push('-');
    push_two_digits(&mut text, min);
    text.push('-');
    push_two_digits(&mut text, sec);
    proof {
        assert(text@ =~= two_digits(hour as nat) + seq!['-'] + two_digits(min as nat) + seq!['-']
            + two_digits(sec as nat));
    }
    text
}

/// The parts of `s` between the occurrences of `delimiter`: one part more
/// than there are occurrences, empty parts too.
pub open spec fn split_parts(s: Seq<char>, delimiter: char) -> Seq<Seq<char>>
    decreases s.len(),
{
    if s.len() == 0 {
        seq![Seq::<char>::empty()]
    } else {
        let before = split_parts(s.drop_last(), delimiter);
        if s.last() == delimiter {
            before.push(Seq::<char>::empty())
        } else {
            before.update(before.len() - 1, before.last().push(s.last()))
        }
    }
}

/// Several paths that stand for one input.
#[derive(Debug)]
pub struct MultiPathBuf {
    pub inner: Vec<String>,
}

/// The texts of the paths.
pub open spec fn path_texts(paths: Seq<String>) -> Seq<Seq<char>> {
    Seq::new(paths.len(), |i: int| paths[i]@)
}

impl MultiPathBuf {
    /// The paths that `s` names, separated by `delimiter`.
    pub fn from_str(s: &str, delimiter: char) -> (paths: MultiPathBuf)
        ensures
            path_texts(paths.inner@) == split_parts(s@, delimiter),
    {
        let mut inner: Vec<String> = Vec::new();
        let mut part = String::new();
        let n = s.unicode_len();
        let mut i: usize = 0;
        proof {
            assert(s@.take(0) =~= Seq::<char>::empty());
        }
        while i < n
            invariant
                i <= n,
                n == s@.len(),
                path_texts(inner@).push(part@) == split_parts(s@.take(i as int), delimiter),
            decreases n - i,
        {
            let c = s.get_char(i);
            let ghost before = split_parts(s@.take(i as int), delimiter);
            proof {
                assert(s@.take(i as int + 1).drop_last() =~= s@.take(i as int));
                assert(s@.take(i as int + 1).last() == c);
            }
            if c == delimiter {
                let ghost held = inner@;
                inner.push(part);
                part = String::new();
                proof {
                    assert(path_texts(inner@) =~= before);
                }
            } else {
                let ghost held = part@;
                part.push(c);
                proof {
                    assert(path_texts(inner@).push(part@) =~= before.update(
                        before.len() - 1,
                        before.last().push(c),
                    ));
                }
            }
            i += 1;
        }
        proof {
            assert(s@.take(n as int) =~= s@);
        }
        let ghost held = inner@;
        inner.push(part);
        assert(path_texts(inner@) =~= path_texts(held).push(part@));
        MultiPathBuf { inner }
    }
}

/// `out` is what swapping makes of the clips: the clips stand by rising
/// length and are dealt out in turn to the groups of the layout; then,
/// round after round, the best pair of the round is swapped, until no pair
/// may be swapped; `out` holds the clips of each group of the list that is
/// reached. Which of two clips of equal length comes first is not stated.
pub open spec fn swap_grouping(
    data: Seq<(i64, Video)>,
    screens: FrameShape,
    out: Seq<Vec<Video>>,
) -> bool {
    exists|dealt: ItemList<Video>, list: ItemList<Video>, order: Seq<usize>, rounds: nat|
        #![trigger dealt.reached(&list, rounds), arranged(data, dealt.items@, order, screens.region_count() as int)]
        {
            &&& dealt.wf()
            &&& dealt.screens == screens
            &&& dealt.swap_history@ == Seq::<SwapHistory>::empty()
            &&& arranged(data, dealt.items@, order, screens.region_count() as int)
            &&& dealt.reached(&list, rounds)
            &&& !list.can_swap()
            &&& forall|g: int|
                0 <= g < out.len() ==> (#[trigger] out[g])@ == kept_of(
                    list.items@,
                    group_of_number(g),
                )
        }
}

/// Groups the clips, each given with its length, for a layout of two to
/// four regions: dealt out by rising length, then regrouped by swaps until
/// no swap is found. A group holds a clip exactly where there are more
/// clips than groups before it.
pub fn video_group_swap(all_videos: Vec<(i64, Video)>, screens: FrameShape) -> (out: Vec<Vec<Video>>)
    requires
        screens == FrameShape::Dual || screens == FrameShape::Triple || screens == FrameShape::Quad,
        forall|i: int| 0 <= i < all_videos@.len() ==> (#[trigger] all_videos@[i]).0 >= 0,
        pair_total(all_videos@, all_videos@.len() as int) <= i64::MAX,
    ensures
        out@.len() == screens.region_count(),
        swap_grouping(all_videos@, screens, out@),
        forall|g: int|
            0 <= g < out@.len() ==> ((#[trigger] out@[g])@.len() > 0 <==> g < all_videos@.len()),
{
    let mut list_grp = ItemList::new_with_data(all_videos, screens);
    let ghost dealt = list_grp;
    list_grp.run_automatic_swaps();
    let ghost swapped = list_grp;
    let out = list_grp.export_to_data_lists();
    proof {
        let count = screens.region_count() as int;
        let order = choose|order: Seq<usize>| arranged(all_videos@, dealt.items@, order, count);
        let rounds = choose|rounds: nat| dealt.reached(&swapped, rounds);
        assert(dealt.reached(&swapped, rounds));
        let n = dealt.items@.len() as int;
        assert(swapped.items@.len() == n);
        assert(swapped.items@.take(n) =~= swapped.items@);
        assert forall|g: int| 0 <= g < out@.len() implies ((#[trigger] out@[g])@.len() > 0 <==> g
            < all_videos@.len()) by {
            lemma_kept_len(swapped.items@, group_of_number(g), n);
            lemma_dealt_count(dealt.items@, count, g, n);
            assert(count_of(swapped.items@, group_of_number(g), n) == count_of(
                dealt.items@,
                group_of_number(g),
                n,
            ));
        }
    }
    out
}

/// Groups the clips into `groups` groups of nearly equal total length; no
/// group is left without a clip.
pub fn video_group_swap_n(videos: Vec<Video>, groups: usize) -> (out: Vec<Vec<Video>>)
    requires
        0 < groups <= videos@.len(),
        all_probed(videos@),
        lengths_fit(lengths_of(videos@)),
    ensures
        out@.len() == groups,
        regrouping(videos@, groups as int, clip_lists(out@)),
        forall|g: int| 0 <= g < groups ==> (#[trigger] out@[g])@.len() > 0,
{
    regrouper(videos, groups)
}

/// The probed clips among the first `n`, each with its length, in their
/// order.
pub open spec fn probed_pairs(videos: Seq<Video>, n: int) -> Seq<(i64, Video)>
    decreases n,
{
    if n <= 0 {
        Seq::empty()
    } else if videos[n - 1].length_millis is Some {
        probed_pairs(videos, n - 1).push((videos[n - 1].length_millis->Some_0, videos[n - 1]))
    } else {
        probed_pairs(videos, n - 1)
    }
}

/// The probed clips among the first `n`, in their order.
pub open spec fn probed_clips(videos: Seq<Video>, n: int) -> Seq<Video>
    decreases n,
{
    if n <= 0 {
        Seq::empty()
    } else if videos[n - 1].length_millis is Some {
        probed_clips(videos, n - 1).push(videos[n - 1])
    } else {
        probed_clips(videos, n - 1)
    }
}

/// The clips that have been probed, each with its length; a clip whose
/// length is not known is left out.
pub fn scan_dir_for_videos_with_len(videos: Vec<Video>) -> (out: Vec<(i64, Video)>)
    ensures
        out@ == probed_pairs(videos@, videos@.len() as int),
{
    let mut out: Vec<(i64, Video)> = Vec::new();
    let ghost mut done: int = 0;
    for video in it: videos
        invariant
            done == it.index(),
            it.seq() == videos@,
            out@ == probed_pairs(videos@, done),
    {
        match video.length_millis {
            Some(len) => {
                out.push((len, video));
            },
            None => {},
        }
        proof {
            done = done + 1;
        }
    }
    out
}

/// The clips that have been probed; a clip whose length is not known is
/// left out.
pub fn probed_videos(videos: Vec<Video>) -> (out: Vec<Video>)
    ensures
        out@ == probed_clips(videos@, videos@.len() as int),
        all_probed(out@),
{
    let mut out: Vec<Video> = Vec::new();
    let ghost mut done: int = 0;
    for video in it: videos
        invariant
            done == it.index(),
            it.seq() == videos@,
            out@ == probed_clips(videos@, done),
            all_probed(out@),
    {
        if video.length_millis.is_some() {
            out.push(video);
        }
        proof {
            done = done + 1;
        }
    }
    out
}

/// The lengths can be grouped by swaps: none is negative, and together
/// they fit an `i64`.
pub open spec fn pairs_usable(pairs: Seq<(i64, Video)>) -> bool {
    &&& forall|i: int| 0 <= i < pairs.len() ==> (#[trigger] pairs[i]).0 >= 0
    &&& pair_total(pairs, pairs.len() as int) <= i64::MAX
}

proof fn lemma_pair_total_grows(pairs: Seq<(i64, Video)>, n: int, m: int)
    requires
        0 <= n <= m <= pairs.len(),
        forall|i: int| 0 <= i < pairs.len() ==> (#[trigger] pairs[i]).0 >= 0,
    ensures
        0 <= pair_total(pairs, n) <= pair_total(pairs, m),
    decreases m - n,
{
    if n < m {
        lemma_pair_total_grows(pairs, n + 1, m);
    }
    lemma_pair_total_nonneg(pairs, n);
}

proof fn lemma_pair_total_nonneg(pairs: Seq<(i64, Video)>, n: int)
    requires
        0 <= n <= pairs.len(),
        forall|i: int| 0 <= i < pairs.len() ==> (#[trigger] pairs[i]).0 >= 0,
    ensures
        0 <= pair_total(pairs, n),
    decreases n,
{
    if n > 0 {
        lemma_pair_total_nonneg(pairs, n - 1);
    }
}

/// Tells whether the lengths can be grouped by swaps.
pub fn lengths_usable(pairs: &Vec<(i64, Video)>) -> (ok: bool)
    ensures
        ok == pairs_usable(pairs@),
{
    let mut i: usize = 0;
    while i < pairs.len()
        invariant
            i <= pairs@.len(),
            forall|k: int| 0 <= k < i ==> (#[trigger] pairs@[k]).0 >= 0,
        decreases pairs@.len() - i,
    {
        if pairs[i].0 < 0 {
            return false;
        }
        i += 1;
    }
    let mut total: i64 = 0;
    let mut k: usize = 0;
    while k < pairs.len()
        invariant
            k <= pairs@.len(),
            forall|j: int| 0 <= j < pairs@.len() ==> (#[trigger] pairs@[j]).0 >= 0,
            total == pair_total(pairs@, k as int),
            total >= 0,
        decreases pairs@.len() - k,
    {
        match total.checked_add(pairs[k].0) {
            Some(sum) => {
                total = sum;
            },
            None => {
                proof {
                    lemma_pair_total_grows(pairs@, k as int + 1, pairs@.len() as int);
                }
                return false;
            },
        }
        k += 1;
    }
    true
}

/// Tells whether the clips can be split into groups of nearly equal
/// length: no length is negative, and together they fit an `i64`.
pub fn clips_usable(videos: &Vec<Video>) -> (ok: bool)
    requires
        all_probed(videos@),
    ensures
        ok == lengths_fit(lengths_of(videos@)),
{
    let ghost items = lengths_of(videos@);
    let mut i: usize = 0;
    while i < videos.len()
        invariant
            i <= videos@.len(),
            all_probed(videos@),
            items == lengths_of(videos@),
            forall|k: int| 0 <= k < i ==> (#[trigger] items[k]).inner >= 0,
        decreases videos@.len() - i,
    {
        match videos[i].length_millis {
            Some(len) => {
                if len < 0 {
                    assert(items[i as int].inner < 0);
                    return false;
                }
            },
            None => {},
        }
        i += 1;
    }
    let mut total: i64 = 0;
    let mut k: usize = 0;
    while k < videos.len()
        invariant
            k <= videos@.len(),
            all_probed(videos@),
            items == lengths_of(videos@),
            forall|j: int| 0 <= j < items.len() ==> (#[trigger] items[j]).inner >= 0,
            total == total_length(items, k as int),
            total >= 0,
        decreases videos@.len() - k,
    {
        let len = match videos[k].length_millis {
            Some(len) => len,
            None => 0,
        };
        assert(len == items[k as int].inner);
        match total.checked_add(len) {
            Some(sum) => {
                total = sum;
            },
            None => {
                proof {
                    crate::group_splitter::lemma_group_sum_bounds(items, 0, k as int + 1);
                }
                return false;
            },
        }
        k += 1;
    }
    true
}

} // verus!
