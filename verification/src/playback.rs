//! A whole run on decoded streams: round after round one frame of every
//! region is joined and written, until a region has no frame left.

use vstd::prelude::*;
use crate::frame_shape::frame_join::{joined, RawFrame};
use crate::switches::reversed;
use crate::video::{all_present, unwrapped, Tick, VideoGroup};

verus! {

/// The number of frames of the shortest of the first `n` streams.
pub open spec fn shortest_of(streams: Seq<Vec<RawFrame>>, n: int) -> int
    decreases n,
{
    if n <= 1 {
        streams[0]@.len() as int
    } else if streams[n - 1]@.len() < shortest_of(streams, n - 1) {
        streams[n - 1]@.len() as int
    } else {
        shortest_of(streams, n - 1)
    }
}

/// The frames that the regions bring in round `t`.
pub open spec fn batch_at(streams: Seq<Vec<RawFrame>>, t: int) -> Seq<RawFrame> {
    Seq::new(streams.len(), |i: int| streams[i]@[t])
}

/// `rest` holds what a stream has left after `t` rounds, the next frame
/// last.
pub open spec fn rest_of(stream: Seq<RawFrame>, rest: Seq<RawFrame>, t: int) -> bool {
    &&& rest.len() == (if stream.len() >= t {
        stream.len() - t
    } else {
        0
    })
    &&& forall|k: int| 0 <= k < rest.len() ==> rest[k] == stream[stream.len() - 1 - k]
}

/// The shortest stream is no longer than any of the streams, and as long
/// as one of them.
pub proof fn lemma_shortest(streams: Seq<Vec<RawFrame>>, n: int)
    requires
        1 <= n <= streams.len(),
    ensures
        forall|i: int| 0 <= i < n ==> shortest_of(streams, n) <= (#[trigger] streams[i])@.len(),
        exists|i: int| 0 <= i < n && shortest_of(streams, n) == (#[trigger] streams[i])@.len(),
    decreases n,
{
    if n > 1 {
        lemma_shortest(streams, n - 1);
        let i = choose|i: int|
            0 <= i < n - 1 && shortest_of(streams, n - 1) == (#[trigger] streams[i])@.len();
        if streams[n - 1]@.len() < shortest_of(streams, n - 1) {
            assert(shortest_of(streams, n) == streams[n - 1]@.len());
        } else {
            assert(shortest_of(streams, n) == streams[i]@.len());
        }
    } else {
        assert(shortest_of(streams, n) == streams[0]@.len());
    }
}

impl VideoGroup {
    /// The whole run on decoded streams, `streams[i]` holding the frames
    /// that region `i` gives before it ends. A canvas frame is written for
    /// every round in which each region has a frame: as many as the
    /// shortest stream has frames, each the join of the frames of its
    /// round, and nothing after the first round in which a region has
    /// none.
    pub fn play_streams(&self, streams: Vec<Vec<RawFrame>>) -> (out: Vec<Vec<u8>>)
        requires
            streams@.len() > 0,
            forall|t: int|
                0 <= t < shortest_of(streams@, streams@.len() as int)
                    ==> self.shape_style.joinable(#[trigger] batch_at(streams@, t)),
        ensures
            out@.len() == shortest_of(streams@, streams@.len() as int),
            forall|t: int|
                0 <= t < out@.len() ==> (#[trigger] out@[t])@ == joined(
                    batch_at(streams@, t),
                    self.shape_style.interleave_table(),
                ),
    {
        let ghost all = streams@;
        let n = streams.len();
        let ghost least = shortest_of(all, n as int);
        proof {
            lemma_shortest(all, n as int);
        }
        let mut rests: Vec<Vec<RawFrame>> = Vec::new();
        for stream in it: streams
            invariant
                it.seq() == all,
                rests@.len() == it.index(),
                forall|i: int| 0 <= i < it.index() ==> rest_of(all[i]@, (#[trigger] rests@[i])@, 0),
        {
            let ghost before = rests@;
            let ghost whole = stream@;
            let rest = reversed(stream);
            rests.push(rest);
            assert forall|i: int| 0 <= i < rests@.len() implies rest_of(
                all[i]@,
                (#[trigger] rests@[i])@,
                0,
            ) by {
                if i < before.len() {
                    assert(rests@[i] == before[i]);
                } else {
                    assert(rests@[i]@ == whole.reverse());
                }
            }
        }
        let mut out: Vec<Vec<u8>> = Vec::new();
        let mut t: usize = 0;
        loop
            invariant_except_break
                forall|i: int| 0 <= i < n ==> rest_of(all[i]@, (#[trigger] rests@[i])@, t as int),
            invariant
                n == all.len(),
                n > 0,
                least == shortest_of(all, n as int),
                forall|i: int| 0 <= i < n ==> least <= (#[trigger] all[i])@.len(),
                exists|i: int| 0 <= i < n && least == (#[trigger] all[i])@.len(),
                forall|r: int|
                    0 <= r < least ==> self.shape_style.joinable(#[trigger] batch_at(all, r)),
                t <= least,
                rests@.len() == n,
                out@.len() == t,
                forall|r: int|
                    0 <= r < t ==> (#[trigger] out@[r])@ == joined(
                        batch_at(all, r),
                        self.shape_style.interleave_table(),
                    ),
            ensures
                t == least,
            decreases least - t,
        {
            let mut batch: Vec<Option<RawFrame>> = Vec::new();
            let mut i: usize = 0;
            while i < n
                invariant
                    i <= n,
                    n == all.len(),
                    rests@.len() == n,
                    batch@.len() == i,
                    forall|j: int|
                        0 <= j < i ==> (#[trigger] batch@[j]) == (if t < all[j]@.len() {
                            Some(all[j]@[t as int])
                        } else {
                            None::<RawFrame>
                        }),
                    forall|j: int|
                        0 <= j < i ==> rest_of(all[j]@, (#[trigger] rests@[j])@, t as int + 1),
                    forall|j: int| i <= j < n ==> rest_of(all[j]@, (#[trigger] rests@[j])@, t as int),
                decreases n - i,
            {
                let ghost before = rests@;
                let ghost held = batch@;
                let frame = rests[i].pop();
                batch.push(frame);
                proof {
                    assert forall|j: int| 0 <= j < n && j != i implies (#[trigger] rests@[j])
                        == before[j] by {}
                    assert(rest_of(all[i as int]@, before[i as int]@, t as int));
                    assert(rest_of(all[i as int]@, rests@[i as int]@, t as int + 1));
                    assert forall|j: int| 0 <= j < i + 1 implies (#[trigger] batch@[j]) == (if t
                        < all[j]@.len() {
                        Some(all[j]@[t as int])
                    } else {
                        None::<RawFrame>
                    }) by {
                        if j < i {
                            assert(batch@[j] == held[j]);
                        }
                    }
                }
                i += 1;
            }
            proof {
                if t < least {
                    assert(all_present(batch@));
                    assert(unwrapped(batch@) =~= batch_at(all, t as int));
                } else {
                    let short = choose|i: int| 0 <= i < n && least == (#[trigger] all[i])@.len();
                    assert(batch@[short] is None);
                    assert(!all_present(batch@));
                }
            }
            match self.tick(batch) {
                Tick::Stop => {
                    break ;
                },
                Tick::Write(frame) => {
                    assert(t < least);
                    assert(least <= all[0]@.len());
                    assert(all[0]@.len() == all[0].len());
                    let ghost before = out@;
                    out.push(frame);
                    assert forall|r: int| 0 <= r < t + 1 implies (#[trigger] out@[r])@ == joined(
                        batch_at(all, r),
                        self.shape_style.interleave_table(),
                    ) by {
                        if r < t {
                            assert(out@[r] == before[r]);
                        }
                    }
                    t += 1;
                },
            }
        }
        out
    }
}

} // verus!
