//! The order in which the clips of a group are played.

use vstd::prelude::*;
use rand::rngs::StdRng;
use rand::seq::SliceRandom;
use rand::SeedableRng;
use crate::order::{
    identity, identity_order, is_order, lemma_rearranged_order, sort_by_key, take_in_order,
};
use crate::video::Video;

verus! {

/// How the clips of a group are ordered before they are played.
#[derive(Clone, Copy, Debug, PartialEq, Eq, Structural)]
pub enum SortOrder {
    /// Shuffled by chance.
    Random,
    /// Shuffled by the seed: the same seed gives the same order.
    RandomSeeded(u64),
    /// Shuffled by the seed, then reversed.
    RandomSeededR(u64),
    ShortestFirst,
    LongestFirst,
    /// Shuffled by chance, with a longest clip moved to the end.
    RandomWithLargestLast,
    /// As they come.
    Nan,
}

/// The order that the seeded shuffle of `rand` makes of `order`: what
/// `SliceRandom::shuffle` leaves in a slice that held `order`, when drawn
/// from `StdRng::seed_from_u64(seed)`.
pub uninterp spec fn seeded_shuffle(seed: u64, order: Seq<usize>) -> Seq<usize>;

/// Shuffles `order` with `rand`'s `SliceRandom::shuffle`, drawing from the
/// thread's generator `rand::thread_rng()`. The shuffle only swaps entries,
/// so `order` holds the same indices as before, each as often as before;
/// where they stand depends on chance.
#[verifier::external_body]
fn shuffle_random(order: &mut Vec<usize>)
    ensures
        final(order)@.to_multiset() == old(order)@.to_multiset(),
{
    order.shuffle(&mut rand::thread_rng());
}

/// Shuffles `order` with `rand`'s `SliceRandom::shuffle`, drawing from a
/// generator made by `StdRng::seed_from_u64(seed)`. The generator is
/// deterministic, so the outcome depends on the seed and on `order` alone;
/// the shuffle only swaps entries, so `order` holds the same indices as
/// before, each as often as before.
#[verifier::external_body]
fn shuffle_seeded(order: &mut Vec<usize>, seed: u64)
    ensures
        final(order)@ == seeded_shuffle(seed, old(order)@),
        final(order)@.to_multiset() == old(order)@.to_multiset(),
{
    let mut rng = <StdRng as SeedableRng>::seed_from_u64(seed);
    order.shuffle(&mut rng);
}

/// The length by which a clip is sorted: its probed length, 0 where it has
/// none.
pub open spec fn sort_length(video: Video) -> i64 {
    match video.length_millis {
        Some(millis) => millis,
        None => 0,
    }
}

/// `out` holds the clips of `videos` in the order `order`.
pub open spec fn in_order(videos: Seq<Video>, order: Seq<usize>, out: Seq<Video>) -> bool {
    &&& is_order(order, videos.len() as int)
    &&& out.len() == videos.len()
    &&& forall|t: int| 0 <= t < out.len() ==> (#[trigger] out[t]) == videos[order[t] as int]
}

/// `out` holds the clips of `videos`, each once, in some order.
pub open spec fn rearranged(videos: Seq<Video>, out: Seq<Video>) -> bool {
    exists|order: Seq<usize>| in_order(videos, order, out)
}

/// No clip is longer than the one after it.
pub open spec fn shortest_first(out: Seq<Video>) -> bool {
    forall|a: int, b: int| 0 <= a <= b < out.len() ==> sort_length(out[a]) <= sort_length(out[b])
}

/// No clip is shorter than the one after it.
pub open spec fn longest_first(out: Seq<Video>) -> bool {
    forall|a: int, b: int| 0 <= a <= b < out.len() ==> sort_length(out[a]) >= sort_length(out[b])
}

/// The sequence from its last entry to its first.
pub fn reversed<T>(items: Vec<T>) -> (out: Vec<T>)
    ensures
        out@ == items@.reverse(),
{
    let mut items = items;
    let ghost all = items@;
    let mut out: Vec<T> = Vec::new();
    loop
        invariant
            items@.len() + out@.len() == all.len(),
            items@ == all.take(items@.len() as int),
            forall|k: int| 0 <= k < out@.len() ==> out@[k] == all[all.len() - 1 - k],
        ensures
            items@.len() == 0,
        decreases items@.len(),
    {
        match items.pop() {
            Some(item) => {
                out.push(item);
            },
            None => {
                break ;
            },
        }
    }
    assert(out@ =~= all.reverse());
    out
}

/// The place of the last of the longest clips.
fn last_longest(videos: &Vec<Video>) -> (at: usize)
    requires
        videos@.len() > 0,
    ensures
        at < videos@.len(),
        forall|k: int| 0 <= k < videos@.len() ==> sort_length(videos@[k]) <= sort_length(videos@[at as int]),
        forall|k: int| at < k < videos@.len() ==> sort_length(videos@[k]) < sort_length(videos@[at as int]),
{
    let mut at: usize = 0;
    let mut best: i64 = length_or_zero(&videos[0]);
    let mut k: usize = 1;
    while k < videos.len()
        invariant
            1 <= k <= videos@.len(),
            at < k,
            best == sort_length(videos@[at as int]),
            forall|j: int| 0 <= j < k ==> sort_length(videos@[j]) <= best,
            forall|j: int| at < j < k ==> sort_length(videos@[j]) < best,
        decreases videos@.len() - k,
    {
        let len = length_or_zero(&videos[k]);
        if len >= best {
            at = k;
            best = len;
        }
        k += 1;
    }
    at
}

/// The length by which a clip is sorted.
pub fn length_or_zero(video: &Video) -> (len: i64)
    ensures
        len == sort_length(*video),
{
    match video.length_millis {
        Some(millis) => millis,
        None => 0,
    }
}

/// The sort lengths of the clips.
fn sort_keys(videos: &Vec<Video>) -> (keys: Vec<i64>)
    ensures
        keys@.len() == videos@.len(),
        forall|i: int| 0 <= i < keys@.len() ==> (#[trigger] keys@[i]) == sort_length(videos@[i]),
{
    let mut keys: Vec<i64> = Vec::new();
    let mut i: usize = 0;
    while i < videos.len()
        invariant
            i <= videos@.len(),
            keys@.len() == i,
            forall|k: int| 0 <= k < i ==> (#[trigger] keys@[k]) == sort_length(videos@[k]),
        decreases videos@.len() - i,
    {
        keys.push(length_or_zero(&videos[i]));
        i += 1;
    }
    keys
}

impl SortOrder {
    /// Tells whether the order goes by the length of the clips, so that
    /// they have to be probed first.
    pub fn needs_length(&self) -> (needed: bool)
        ensures
            needed == (*self == SortOrder::ShortestFirst || *self == SortOrder::LongestFirst
                || *self == SortOrder::RandomWithLargestLast),
    {
        matches!(
            self,
            SortOrder::ShortestFirst | SortOrder::LongestFirst | SortOrder::RandomWithLargestLast
        )
    }

    /// What this order makes of `videos`: `out` holds every clip once, and
    /// stands as the order asks.
    pub open spec fn sorts(self, videos: Seq<Video>, out: Seq<Video>) -> bool {
        &&& rearranged(videos, out)
        &&& match self {
            SortOrder::Nan => out == videos,
            SortOrder::Random => true,
            SortOrder::RandomSeeded(seed) => in_order(
                videos,
                seeded_shuffle(seed, identity(videos.len())),
                out,
            ),
            SortOrder::RandomSeededR(seed) => in_order(
                videos,
                seeded_shuffle(seed, identity(videos.len())),
                out.reverse(),
            ),
            SortOrder::ShortestFirst => shortest_first(out),
            SortOrder::LongestFirst => longest_first(out),
            SortOrder::RandomWithLargestLast => forall|k: int|
                0 <= k < out.len() ==> sort_length(#[trigger] out[k]) <= sort_length(
                    out[out.len() - 1],
                ),
        }
    }

    /// Orders the clips. However they are ordered, every clip is kept, once.
    pub fn apply_sort(&self, videos: Vec<Video>) -> (out: Vec<Video>)
        requires
            *self == SortOrder::RandomWithLargestLast ==> videos@.len() > 0,
        ensures
            self.sorts(videos@, out@),
    {
        let n = videos.len();
        let mut order = identity_order(n);
        let ghost plain = order@;
        match self {
            SortOrder::Nan => {
                let out = take_in_order(videos, &order);
                assert(out@ =~= videos@);
                assert(in_order(videos@, order@, out@));
                out
            },
            SortOrder::Random => {
                shuffle_random(&mut order);
                proof {
                    lemma_rearranged_order(plain, order@, n as int);
                }
                let out = take_in_order(videos, &order);
                assert(in_order(videos@, order@, out@));
                out
            },
            SortOrder::RandomSeeded(s) => {
                shuffle_seeded(&mut order, *s);
                proof {
                    lemma_rearranged_order(plain, order@, n as int);
                }
                let out = take_in_order(videos, &order);
                assert(in_order(videos@, order@, out@));
                out
            },
            SortOrder::RandomSeededR(s) => {
                shuffle_seeded(&mut order, *s);
                proof {
                    lemma_rearranged_order(plain, order@, n as int);
                }
                let shuffled = take_in_order(videos, &order);
                let out = reversed(shuffled);
                proof {
                    assert(out@.reverse() =~= shuffled@);
                    assert(in_order(videos@, order@, shuffled@));
                    lemma_reversed_order(videos@, order@, shuffled@);
                }
                out
            },
            SortOrder::ShortestFirst => {
                let keys = sort_keys(&videos);
                sort_by_key(&mut order, &keys);
                proof {
                    lemma_rearranged_order(plain, order@, n as int);
                }
                let out = take_in_order(videos, &order);
                proof {
                    assert(in_order(videos@, order@, out@));
                    assert forall|a: int, b: int| 0 <= a <= b < out@.len() implies sort_length(
                        out@[a],
                    ) <= sort_length(out@[b]) by {
                        assert(keys@[order@[a] as int] <= keys@[order@[b] as int]);
                    }
                }
                out
            },
            SortOrder::LongestFirst => {
                let keys = sort_keys(&videos);
                sort_by_key(&mut order, &keys);
                proof {
                    lemma_rearranged_order(plain, order@, n as int);
                }
                let rising = take_in_order(videos, &order);
                let out = reversed(rising);
                proof {
                    assert(out@.reverse() =~= rising@);
                    assert(in_order(videos@, order@, rising@));
                    lemma_reversed_order(videos@, order@, rising@);
                    assert forall|a: int, b: int| 0 <= a <= b < out@.len() implies sort_length(
                        out@[a],
                    ) >= sort_length(out@[b]) by {
                        let ra = out@.len() - 1 - a;
                        let rb = out@.len() - 1 - b;
                        assert(out@[a] == rising@[ra] && out@[b] == rising@[rb]);
                        assert(keys@[order@[rb] as int] <= keys@[order@[ra] as int]);
                    }
                }
                out
            },
            SortOrder::RandomWithLargestLast => {
                shuffle_random(&mut order);
                proof {
                    lemma_rearranged_order(plain, order@, n as int);
                }
                let mut shuffled = take_in_order(videos, &order);
                assert(in_order(videos@, order@, shuffled@));
                let at = last_longest(&shuffled);
                let ghost before = shuffled@;
                let longest = shuffled.remove(at);
                shuffled.push(longest);
                proof {
                    lemma_moved_last(videos@, order@, before, at as int);
                    assert(shuffled@ =~= before.remove(at as int).push(before[at as int]));
                }
                shuffled
            },
        }
    }
}

/// The reverse of an arrangement is an arrangement.
proof fn lemma_reversed_order(videos: Seq<Video>, order: Seq<usize>, out: Seq<Video>)
    requires
        in_order(videos, order, out),
    ensures
        rearranged(videos, out.reverse()),
{
    let back = order.reverse();
    assert(is_order(back, videos.len() as int)) by {
        assert forall|i: int, j: int|
            0 <= i < back.len() && 0 <= j < back.len() && i != j implies back[i] != back[j] by {
            assert(back[i] == order[order.len() - 1 - i]);
            assert(back[j] == order[order.len() - 1 - j]);
        }
    }
    assert(in_order(videos, back, out.reverse()));
}

/// Moving one clip to the end of an arrangement gives an arrangement.
proof fn lemma_moved_last(videos: Seq<Video>, order: Seq<usize>, out: Seq<Video>, at: int)
    requires
        in_order(videos, order, out),
        0 <= at < out.len(),
    ensures
        rearranged(videos, out.remove(at).push(out[at])),
{
    let moved = order.remove(at).push(order[at]);
    let n = order.len() as int;
    assert(is_order(moved, n)) by {
        assert forall|k: int| 0 <= k < moved.len() implies (#[trigger] moved[k]) < n by {
            if k < at {
                assert(moved[k] == order[k]);
            } else if k < n - 1 {
                assert(moved[k] == order[k + 1]);
            } else {
                assert(moved[k] == order[at]);
            }
        }
        assert forall|i: int, j: int|
            0 <= i < moved.len() && 0 <= j < moved.len() && i != j implies moved[i] != moved[j] by {
            let oi = if i < at {
                i
            } else if i < n - 1 {
                i + 1
            } else {
                at
            };
            let oj = if j < at {
                j
            } else if j < n - 1 {
                j + 1
            } else {
                at
            };
            assert(moved[i] == order[oi] && moved[j] == order[oj]);
        }
    }
    let after = out.remove(at).push(out[at]);
    assert forall|t: int| 0 <= t < after.len() implies (#[trigger] after[t]) == videos[moved[t] as int] by {
        if t < at {
            assert(after[t] == out[t] && moved[t] == order[t]);
        } else if t < n - 1 {
            assert(after[t] == out[t + 1] && moved[t] == order[t + 1]);
        } else {
            assert(after[t] == out[at] && moved[t] == order[at]);
        }
    }
    assert(in_order(videos, moved, after));
}

} // verus!
