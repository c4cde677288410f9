//! Regrouping by swaps for two to four groups: one clip of the group with
//! the smallest total changes places with a longer clip of the group with
//! the largest total, as long as a pair is found whose difference in length
//! is at most three quarters of the gap between the two totals.

use vstd::prelude::*;
use std::collections::VecDeque;
use crate::frame_shape::FrameShape;
use crate::order::{
    identity_order, is_order, lemma_order_sum, lemma_rearranged_order, picked_sum, plain_total,
    sort_by_key, take_in_order,
};

verus! {

/// Whether a round of swapping found a pair to swap.
#[derive(Clone, Copy, Debug, PartialEq, Eq, Structural)]
pub enum AutoSwap {
    Continue,
    Done,
}

/// The group of a clip.
#[derive(Clone, Copy, Debug, PartialEq, Eq, Structural)]
pub enum ItemGroup {
    A,
    B,
    C,
    D,
}

/// A swap that was made: the places of the clips and the groups they left.
#[derive(Clone, Copy, Debug, PartialEq, Eq, Structural)]
pub enum SwapHistory {
    Single(usize, ItemGroup),
    Double(usize, ItemGroup, usize, ItemGroup),
}

/// A clip: its length, what the caller keeps with it, and its group.
#[derive(Debug)]
pub struct Item<D> {
    pub data: i64,
    pub _external_data_: D,
    pub group: ItemGroup,
}

impl<D> Item<D> {
    /// A clip of length `data` in group `grp`.
    pub fn from_data_group(data: i64, grp: ItemGroup, ext_data: D) -> (item: Item<D>)
        ensures
            item.data == data,
            item.group == grp,
            item._external_data_ == ext_data,
    {
        Item { data, _external_data_: ext_data, group: grp }
    }
}

/// The number of a group: 0 for A to 3 for D.
pub open spec fn group_number(g: ItemGroup) -> int {
    match g {
        ItemGroup::A => 0,
        ItemGroup::B => 1,
        ItemGroup::C => 2,
        ItemGroup::D => 3,
    }
}

/// The group that clip `place` gets when the clips are dealt out in turn to
/// `count` groups.
pub open spec fn dealt_group(place: int, count: int) -> ItemGroup {
    if place % count == 0 {
        ItemGroup::A
    } else if place % count == 1 {
        ItemGroup::B
    } else if place % count == 2 {
        ItemGroup::C
    } else {
        ItemGroup::D
    }
}

/// Length of the clips of group `g` among the first `n`.
pub open spec fn sum_of<D>(items: Seq<Item<D>>, g: ItemGroup, n: int) -> int
    decreases n,
{
    if n <= 0 {
        0
    } else {
        sum_of(items, g, n - 1) + if items[n - 1].group == g {
            items[n - 1].data as int
        } else {
            0
        }
    }
}

/// Length of the first `n` clips together.
pub open spec fn data_total<D>(items: Seq<Item<D>>, n: int) -> int
    decreases n,
{
    if n <= 0 {
        0
    } else {
        data_total(items, n - 1) + items[n - 1].data
    }
}

/// How many of the first `n` clips are in group `g`.
pub open spec fn count_of<D>(items: Seq<Item<D>>, g: ItemGroup, n: int) -> int
    decreases n,
{
    if n <= 0 {
        0
    } else {
        count_of(items, g, n - 1) + if items[n - 1].group == g {
            1int
        } else {
            0int
        }
    }
}

/// Every group has as many clips in `a` as in `b`.
pub open spec fn sizes_kept<D>(a: Seq<Item<D>>, b: Seq<Item<D>>) -> bool {
    forall|g: ItemGroup| #[trigger] count_of(a, g, a.len() as int) == count_of(b, g, b.len() as int)
}

/// The clips stand by rising length.
pub open spec fn rising<D>(items: Seq<Item<D>>) -> bool {
    forall|i: int, j: int| 0 <= i <= j < items.len() ==> items[i].data <= items[j].data
}

/// The swap of places `idx0` and `idx1` is in the history, in either order.
pub open spec fn in_history(history: Seq<SwapHistory>, idx0: int, idx1: int) -> bool {
    exists|k: int| 0 <= k < history.len() && records(#[trigger] history[k], idx0, idx1)
}

/// The entry records a swap of places `idx0` and `idx1`, in either order.
pub open spec fn records(entry: SwapHistory, idx0: int, idx1: int) -> bool {
    match entry {
        SwapHistory::Double(id0, _, id1, _) => (id0 == idx0 && id1 == idx1) || (id1 == idx0 && id0
            == idx1),
        SwapHistory::Single(_, _) => false,
    }
}

/// The smallest and the largest of the group totals, each with its group.
/// With two groups, A is the smallest only where its total is below B's.
/// With three or four, the first of the smallest and the last of the largest
/// are named.
pub open spec fn extremes(screens: FrameShape, a: int, b: int, c: int, d: int) -> (
    (int, ItemGroup),
    (int, ItemGroup),
) {
    match screens {
        FrameShape::Dual => if a < b {
            ((a, ItemGroup::A), (b, ItemGroup::B))
        } else {
            ((b, ItemGroup::B), (a, ItemGroup::A))
        },
        FrameShape::Triple => (
            if a <= b && a <= c {
                (a, ItemGroup::A)
            } else if b <= c {
                (b, ItemGroup::B)
            } else {
                (c, ItemGroup::C)
            },
            if c >= a && c >= b {
                (c, ItemGroup::C)
            } else if b >= a {
                (b, ItemGroup::B)
            } else {
                (a, ItemGroup::A)
            },
        ),
        _ => (
            if a <= b && a <= c && a <= d {
                (a, ItemGroup::A)
            } else if b <= c && b <= d {
                (b, ItemGroup::B)
            } else if c <= d {
                (c, ItemGroup::C)
            } else {
                (d, ItemGroup::D)
            },
            if d >= a && d >= b && d >= c {
                (d, ItemGroup::D)
            } else if c >= a && c >= b {
                (c, ItemGroup::C)
            } else if b >= a {
                (b, ItemGroup::B)
            } else {
                (a, ItemGroup::A)
            },
        ),
    }
}

/// The clips of a canvas of two to four regions, with the swaps made last.
pub struct ItemList<D> {
    pub items: Vec<Item<D>>,
    pub screens: FrameShape,
    pub swap_history: VecDeque<SwapHistory>,
}

impl<D> ItemList<D> {
    /// The list is well formed: the layout has two to four regions, every
    /// clip is in one of its groups, the clips stand by rising length, none
    /// is of negative length, all lengths together fit an `i64`, and the
    /// history holds no more than the last five swaps.
    pub open spec fn wf(&self) -> bool {
        &&& self.screens == FrameShape::Dual || self.screens == FrameShape::Triple || self.screens
            == FrameShape::Quad
        &&& forall|i: int|
            0 <= i < self.items@.len() ==> group_number((#[trigger] self.items@[i]).group)
                < self.screens.region_count()
        &&& rising(self.items@)
        &&& forall|i: int| 0 <= i < self.items@.len() ==> (#[trigger] self.items@[i]).data >= 0
        &&& data_total(self.items@, self.items@.len() as int) <= i64::MAX
        &&& self.swap_history@.len() <= 5
    }

    /// The totals of the four groups.
    pub open spec fn totals(&self) -> (int, int, int, int) {
        let n = self.items@.len() as int;
        (
            sum_of(self.items@, ItemGroup::A, n),
            sum_of(self.items@, ItemGroup::B, n),
            sum_of(self.items@, ItemGroup::C, n),
            sum_of(self.items@, ItemGroup::D, n),
        )
    }

    /// The smallest and the largest group total, each with its group.
    pub open spec fn ends(&self) -> ((int, ItemGroup), (int, ItemGroup)) {
        let (a, b, c, d) = self.totals();
        extremes(self.screens, a, b, c, d)
    }

    /// The total length of each group.
    pub fn sum_each(&self) -> (abc: (i64, i64, i64, i64))
        requires
            self.wf(),
        ensures
            (abc.0 as int, abc.1 as int, abc.2 as int, abc.3 as int) == self.totals(),
            abc.0 >= 0 && abc.1 >= 0 && abc.2 >= 0 && abc.3 >= 0,
            abc.0 + abc.1 + abc.2 + abc.3 == data_total(self.items@, self.items@.len() as int),
    {
        let mut abc: (i64, i64, i64, i64) = (0, 0, 0, 0);
        let mut i: usize = 0;
        while i < self.items.len()
            invariant
                i <= self.items@.len(),
                self.wf(),
                abc.0 == sum_of(self.items@, ItemGroup::A, i as int),
                abc.1 == sum_of(self.items@, ItemGroup::B, i as int),
                abc.2 == sum_of(self.items@, ItemGroup::C, i as int),
                abc.3 == sum_of(self.items@, ItemGroup::D, i as int),
                abc.0 >= 0 && abc.1 >= 0 && abc.2 >= 0 && abc.3 >= 0,
                abc.0 + abc.1 + abc.2 + abc.3 == data_total(self.items@, i as int),
            decreases self.items@.len() - i,
        {
            proof {
                lemma_data_total_grows(self.items@, i as int + 1);
            }
            let item = &self.items[i];
            match item.group {
                ItemGroup::A => {
                    abc.0 = abc.0 + item.data;
                },
                ItemGroup::B => {
                    abc.1 = abc.1 + item.data;
                },
                ItemGroup::C => {
                    abc.2 = abc.2 + item.data;
                },
                ItemGroup::D => {
                    abc.3 = abc.3 + item.data;
                },
            }
            i += 1;
        }
        abc
    }

    /// Tells whether the swap of places `idx0` and `idx1` is in the history,
    /// in either order.
    pub fn is_item_in_history_double(&self, idx0: usize, idx1: usize) -> (found: bool)
        ensures
            found == in_history(self.swap_history@, idx0 as int, idx1 as int),
    {
        let mut k: usize = 0;
        while k < self.swap_history.len()
            invariant
                k <= self.swap_history@.len(),
                forall|j: int|
                    0 <= j < k ==> !records(#[trigger] self.swap_history@[j], idx0 as int, idx1 as int),
            decreases self.swap_history@.len() - k,
        {
            match self.swap_history[k] {
                SwapHistory::Double(id0, _, id1, _) => {
                    if (id0 == idx0 && id1 == idx1) || (id1 == idx0 && id0 == idx1) {
                        assert(records(self.swap_history@[k as int], idx0 as int, idx1 as int));
                        return true;
                    }
                },
                SwapHistory::Single(_, _) => {},
            }
            k += 1;
        }
        false
    }

    /// Forgets the oldest swaps until at most five are left.
    pub fn reduce_swap_history_length(&mut self)
        ensures
            final(self).items == old(self).items,
            final(self).screens == old(self).screens,
            final(self).swap_history@ == last_five(old(self).swap_history@),
    {
        while self.swap_history.len() > 5
            invariant
                self.items == old(self).items,
                self.screens == old(self).screens,
                last_five(self.swap_history@) == last_five(old(self).swap_history@),
            decreases self.swap_history@.len(),
        {
            let ghost before = self.swap_history@;
            self.swap_history.pop_front();
            proof {
                assert(last_five(self.swap_history@) =~= last_five(before));
            }
        }
    }

    /// The smallest and the largest group total, each with its group.
    pub fn typ_ref_sum_min_max(&self) -> (ends: ((i64, ItemGroup), (i64, ItemGroup)))
        requires
            self.wf(),
        ensures
            ((ends.0.0 as int, ends.0.1), (ends.1.0 as int, ends.1.1)) == self.ends(),
            0 <= ends.0.0 <= ends.1.0,
            ends.0.1 != ends.1.1,
            group_number(ends.0.1) < self.screens.region_count(),
            group_number(ends.1.1) < self.screens.region_count(),
    {
        let (a, b, c, d) = self.sum_each();
        match self.screens {
            FrameShape::Dual => {
                if a < b {
                    ((a, ItemGroup::A), (b, ItemGroup::B))
                } else {
                    ((b, ItemGroup::B), (a, ItemGroup::A))
                }
            },
            FrameShape::Triple => {
                let least = if a <= b && a <= c {
                    (a, ItemGroup::A)
                } else if b <= c {
                    (b, ItemGroup::B)
                } else {
                    (c, ItemGroup::C)
                };
                let most = if c >= a && c >= b {
                    (c, ItemGroup::C)
                } else if b >= a {
                    (b, ItemGroup::B)
                } else {
                    (a, ItemGroup::A)
                };
                (least, most)
            },
            _ => {
                let least = if a <= b && a <= c && a <= d {
                    (a, ItemGroup::A)
                } else if b <= c && b <= d {
                    (b, ItemGroup::B)
                } else if c <= d {
                    (c, ItemGroup::C)
                } else {
                    (d, ItemGroup::D)
                };
                let most = if d >= a && d >= b && d >= c {
                    (d, ItemGroup::D)
                } else if c >= a && c >= b {
                    (c, ItemGroup::C)
                } else if b >= a {
                    (b, ItemGroup::B)
                } else {
                    (a, ItemGroup::A)
                };
                (least, most)
            },
        }
    }
}

/// The last five entries of a history, or all of it where it has fewer.
pub open spec fn last_five(history: Seq<SwapHistory>) -> Seq<SwapHistory> {
    if history.len() > 5 {
        history.subrange(history.len() - 5, history.len() as int)
    } else {
        history
    }
}

proof fn lemma_data_total_grows<D>(items: Seq<Item<D>>, n: int)
    requires
        0 <= n <= items.len(),
        forall|i: int| 0 <= i < items.len() ==> (#[trigger] items[i]).data >= 0,
    ensures
        0 <= data_total(items, n) <= data_total(items, items.len() as int),
    decreases items.len() - n,
{
    lemma_data_total_nonneg(items, n);
    if n < items.len() {
        lemma_data_total_grows(items, n + 1);
    }
}

proof fn lemma_data_total_nonneg<D>(items: Seq<Item<D>>, n: int)
    requires
        0 <= n <= items.len(),
        forall|i: int| 0 <= i < items.len() ==> (#[trigger] items[i]).data >= 0,
    ensures
        0 <= data_total(items, n),
    decreases n,
{
    if n > 0 {
        lemma_data_total_nonneg(items, n - 1);
    }
}

/// The clip with another group.
pub open spec fn with_group<D>(item: Item<D>, g: ItemGroup) -> Item<D> {
    Item { data: item.data, _external_data_: item._external_data_, group: g }
}

/// The clips after the clip at `idx0` moved to group `grp0` and the clip at
/// `idx1` to group `grp1`.
pub open spec fn regrouped<D>(
    items: Seq<Item<D>>,
    idx0: int,
    grp0: ItemGroup,
    idx1: int,
    grp1: ItemGroup,
) -> Seq<Item<D>> {
    items.update(idx0, with_group(items[idx0], grp0)).update(
        idx1,
        with_group(items.update(idx0, with_group(items[idx0], grp0))[idx1], grp1),
    )
}

/// The widest difference in length that a swap may have: three quarters of
/// the gap between the smallest and the largest total.
pub open spec fn swap_bound(least: int, most: int) -> int {
    (most - least) * 3 / 4
}

/// The clips at `i0` and `i1` may be swapped: the first is in the group with
/// the smallest total, the second in the group with the largest, the second
/// is longer, by no more than `bound`, and the pair is not in the history.
pub open spec fn candidate<D>(
    items: Seq<Item<D>>,
    history: Seq<SwapHistory>,
    least: ItemGroup,
    most: ItemGroup,
    bound: int,
    i0: int,
    i1: int,
) -> bool {
    &&& 0 <= i0 < items.len()
    &&& 0 <= i1 < items.len()
    &&& items[i0].group == least
    &&& items[i1].group == most
    &&& items[i0].data < items[i1].data
    &&& items[i1].data - items[i0].data <= bound
    &&& !in_history(history, i0, i1)
}

/// The pair `i` is to be preferred to the pair `j`: its difference in length
/// is larger, or as large while it comes first.
pub open spec fn preferred<D>(items: Seq<Item<D>>, i0: int, i1: int, j0: int, j1: int) -> bool {
    let gi = items[i1].data - items[i0].data;
    let gj = items[j1].data - items[j0].data;
    gi > gj || (gi == gj && (i0 < j0 || (i0 == j0 && i1 <= j1)))
}

/// The pair is the one to swap: it may be swapped, and it is to be preferred
/// to every other pair that may.
pub open spec fn best_pair<D>(
    items: Seq<Item<D>>,
    history: Seq<SwapHistory>,
    least: ItemGroup,
    most: ItemGroup,
    bound: int,
    i0: int,
    i1: int,
) -> bool {
    &&& candidate(items, history, least, most, bound, i0, i1)
    &&& forall|j0: int, j1: int|
        #![trigger candidate(items, history, least, most, bound, j0, j1)]
        candidate(items, history, least, most, bound, j0, j1) ==> preferred(items, i0, i1, j0, j1)
}

/// The square of a number.
pub open spec fn sq(x: int) -> int {
    x * x
}

proof fn lemma_sq(lo: int, hi: int, d: int)
    requires
        0 < d < hi - lo,
    ensures
        sq(lo + d) + sq(hi - d) < sq(lo) + sq(hi),
        sq(lo) >= 0,
        sq(hi) >= 0,
{
    assert((lo + d) * (lo + d) + (hi - d) * (hi - d) < lo * lo + hi * hi) by (nonlinear_arith)
        requires
            0 < d < hi - lo,
    ;
    assert(lo * lo >= 0) by (nonlinear_arith);
    assert(hi * hi >= 0) by (nonlinear_arith);
}

proof fn lemma_sq_nonneg(x: int)
    ensures
        sq(x) >= 0,
{
    assert(x * x >= 0) by (nonlinear_arith);
}

proof fn lemma_regroup_sum<D>(items: Seq<Item<D>>, p: int, to: ItemGroup, g: ItemGroup, n: int)
    requires
        0 <= p < items.len(),
        0 <= n <= items.len(),
    ensures
        sum_of(items.update(p, with_group(items[p], to)), g, n) == sum_of(items, g, n) + (if p < n
            && g == to {
            items[p].data as int
        } else {
            0
        }) - (if p < n && g == items[p].group {
            items[p].data as int
        } else {
            0
        }),
        data_total(items.update(p, with_group(items[p], to)), n) == data_total(items, n),
        count_of(items.update(p, with_group(items[p], to)), g, n) == count_of(items, g, n) + (if p
            < n && g == to {
            1int
        } else {
            0int
        }) - (if p < n && g == items[p].group {
            1int
        } else {
            0int
        }),
    decreases n,
{
    if n > 0 {
        lemma_regroup_sum(items, p, to, g, n - 1);
    }
}

impl<D> ItemList<D> {
    /// How far the group totals are from each other: the sum of their
    /// squares, which a swap lowers.
    pub open spec fn imbalance(&self) -> int {
        let (a, b, c, d) = self.totals();
        sq(a) + sq(b) + sq(c) + sq(d)
    }

    /// The clips are the same as in `other` but for their groups.
    pub open spec fn same_clips(&self, other: &Self) -> bool {
        &&& self.screens == other.screens
        &&& self.items@.len() == other.items@.len()
        &&& forall|i: int|
            0 <= i < self.items@.len() ==> (#[trigger] self.items@[i]).data == other.items@[i].data
                && self.items@[i]._external_data_ == other.items@[i]._external_data_
    }

    /// Some pair of clips may be swapped.
    pub open spec fn can_swap(&self) -> bool {
        let ((least_total, least), (most_total, most)) = self.ends();
        exists|i0: int, i1: int|
            candidate(
                self.items@,
                self.swap_history@,
                least,
                most,
                swap_bound(least_total, most_total),
                i0,
                i1,
            )
    }

    /// `after` is this list after the swap of its best pair.
    pub open spec fn swapped_to(&self, after: &Self) -> bool {
        let ((least_total, least), (most_total, most)) = self.ends();
        exists|i0: int, i1: int|
            {
                &&& best_pair(
                    self.items@,
                    self.swap_history@,
                    least,
                    most,
                    swap_bound(least_total, most_total),
                    i0,
                    i1,
                )
                &&& after.screens == self.screens
                &&& after.items@ == regrouped(self.items@, i0, most, i1, least)
                &&& after.swap_history@ == last_five(
                    self.swap_history@.push(
                        SwapHistory::Double(i0 as usize, least, i1 as usize, most),
                    ),
                )
            }
    }

    /// The gap between the largest and the smallest group total.
    pub open spec fn spread(&self) -> int {
        self.ends().1.0 - self.ends().0.0
    }

    /// `end` is this list after `n` rounds of swapping, each the swap of
    /// the best pair of its round.
    pub open spec fn reached(&self, end: &Self, n: nat) -> bool
        decreases n,
    {
        if n == 0 {
            &&& end.screens == self.screens
            &&& end.items@ == self.items@
            &&& end.swap_history@ == self.swap_history@
        } else {
            exists|mid: Self| self.reached(&mid, (n - 1) as nat) && #[trigger] mid.swapped_to(end)
        }
    }

    /// Moves the clip at `idx0` to group `grp0` and the clip at `idx1` to
    /// group `grp1`, and records the groups they left.
    pub fn update_item_with_history_double(
        &mut self,
        idx0: usize,
        grp0: ItemGroup,
        idx1: usize,
        grp1: ItemGroup,
    )
        requires
            idx0 < old(self).items@.len(),
            idx1 < old(self).items@.len(),
        ensures
            final(self).screens == old(self).screens,
            final(self).items@ == regrouped(old(self).items@, idx0 as int, grp0, idx1 as int, grp1),
            final(self).swap_history@ == last_five(
                old(self).swap_history@.push(
                    SwapHistory::Double(
                        idx0,
                        old(self).items@[idx0 as int].group,
                        idx1,
                        regrouped(old(self).items@, idx0 as int, grp0, idx0 as int, grp0)[idx1 as int].group,
                    ),
                ),
            ),
    {
        let ghost start = self.items@;
        let typ0 = self.items[idx0].group;
        self.items[idx0].group = grp0;
        assert(self.items@ =~= start.update(idx0 as int, with_group(start[idx0 as int], grp0)));
        let ghost middle = self.items@;
        let typ1 = self.items[idx1].group;
        self.items[idx1].group = grp1;
        assert(self.items@ =~= middle.update(idx1 as int, with_group(middle[idx1 as int], grp1)));
        self.swap_history.push_back(SwapHistory::Double(idx0, typ0, idx1, typ1));
        self.reduce_swap_history_length();
    }
}

/// The pair `(j0, j1)` comes before the pair `(r0, r1)` in the search.
pub open spec fn searched(j0: int, j1: int, r0: int, r1: int) -> bool {
    j0 < r0 || (j0 == r0 && j1 < r1)
}

/// `best` is the pair to swap among those searched before `(r0, r1)`, with
/// its difference in length; none where no pair searched may be swapped.
pub open spec fn best_so_far<D>(
    items: Seq<Item<D>>,
    history: Seq<SwapHistory>,
    least: ItemGroup,
    most: ItemGroup,
    bound: int,
    best: Option<(usize, usize, i64)>,
    r0: int,
    r1: int,
) -> bool {
    match best {
        None => forall|j0: int, j1: int|
            #![trigger candidate(items, history, least, most, bound, j0, j1)]
            candidate(items, history, least, most, bound, j0, j1) ==> !searched(j0, j1, r0, r1),
        Some((b0, b1, gap)) => {
            &&& candidate(items, history, least, most, bound, b0 as int, b1 as int)
            &&& searched(b0 as int, b1 as int, r0, r1)
            &&& gap == items[b1 as int].data - items[b0 as int].data
            &&& forall|j0: int, j1: int|
                #![trigger candidate(items, history, least, most, bound, j0, j1)]
                candidate(items, history, least, most, bound, j0, j1) && searched(j0, j1, r0, r1)
                    ==> preferred(items, b0 as int, b1 as int, j0, j1)
        },
    }
}

/// A list reached after `n` rounds, swapped once more, is reached after
/// `n + 1` rounds.
proof fn lemma_reached_more<D>(start: ItemList<D>, mid: ItemList<D>, end: ItemList<D>, n: nat)
    requires
        start.reached(&mid, n),
        mid.swapped_to(&end),
    ensures
        start.reached(&end, n + 1),
{
    assert(start.reached(&mid, ((n + 1) - 1) as nat));
}

/// Whether a list is reached depends only on its layout, its clips and
/// its history.
proof fn lemma_reached_same<D>(start: ItemList<D>, a: ItemList<D>, b: ItemList<D>, n: nat)
    requires
        start.reached(&a, n),
        a.screens == b.screens,
        a.items@ == b.items@,
        a.swap_history@ == b.swap_history@,
    ensures
        start.reached(&b, n),
{
    if n > 0 {
        let mid = choose|mid: ItemList<D>|
            start.reached(&mid, (n - 1) as nat) && #[trigger] mid.swapped_to(&a);
        assert(mid.swapped_to(&b));
    }
}

/// A swap leaves every group as many clips as it had, and does not widen
/// the gap between the largest and the smallest total.
proof fn lemma_swap_effect<D>(before: ItemList<D>, after: ItemList<D>, i0: int, i1: int)
    requires
        before.wf(),
        candidate(
            before.items@,
            before.swap_history@,
            before.ends().0.1,
            before.ends().1.1,
            swap_bound(before.ends().0.0, before.ends().1.0),
            i0,
            i1,
        ),
        after.screens == before.screens,
        after.items@ == regrouped(before.items@, i0, before.ends().1.1, i1, before.ends().0.1),
    ensures
        sizes_kept(after.items@, before.items@),
        after.spread() <= before.spread(),
{
    let items = before.items@;
    let m = items.len() as int;
    let least = before.ends().0.1;
    let most = before.ends().1.1;
    let mid = items.update(i0, with_group(items[i0], most));
    assert(after.items@.len() == m);
    lemma_regroup_sum(items, i0, most, ItemGroup::A, m);
    lemma_regroup_sum(items, i0, most, ItemGroup::B, m);
    lemma_regroup_sum(items, i0, most, ItemGroup::C, m);
    lemma_regroup_sum(items, i0, most, ItemGroup::D, m);
    lemma_regroup_sum(mid, i1, least, ItemGroup::A, m);
    lemma_regroup_sum(mid, i1, least, ItemGroup::B, m);
    lemma_regroup_sum(mid, i1, least, ItemGroup::C, m);
    lemma_regroup_sum(mid, i1, least, ItemGroup::D, m);
    assert(least != most);
    assert(i0 != i1);
    assert(mid[i1].group == most);
    assert forall|g: ItemGroup| #[trigger]
        count_of(after.items@, g, after.items@.len() as int) == count_of(items, g, m) by {
        match g {
            ItemGroup::A => {},
            ItemGroup::B => {},
            ItemGroup::C => {},
            ItemGroup::D => {},
        }
    }
    let d = items[i1].data - items[i0].data;
    assert(0 < d < before.ends().1.0 - before.ends().0.0);
}

impl<D> ItemList<D> {
    /// One round of swapping. Looks for the pair of a clip of the group with
    /// the smallest total and a longer clip of the group with the largest
    /// whose difference in length is the largest that does not exceed three
    /// quarters of the gap between the two totals, leaving out the pairs
    /// swapped last; of several such pairs the first is taken. Swaps the
    /// groups of the two clips and records the swap, or reports that no
    /// pair was found.
    pub fn auto_double_swap(&mut self) -> (result: AutoSwap)
        requires
            old(self).wf(),
        ensures
            final(self).wf(),
            final(self).same_clips(old(self)),
            sizes_kept(final(self).items@, old(self).items@),
            final(self).spread() <= old(self).spread(),
            match result {
                AutoSwap::Done => {
                    &&& !old(self).can_swap()
                    &&& final(self).items@ == old(self).items@
                    &&& final(self).swap_history@ == old(self).swap_history@
                },
                AutoSwap::Continue => {
                    &&& old(self).swapped_to(final(self))
                    &&& 0 <= final(self).imbalance() < old(self).imbalance()
                },
            },
    {
        let ((min_t, min_g), (max_t, max_g)) = self.typ_ref_sum_min_max();
        let min_to_max_diff: i64 = ((max_t as i128 - min_t as i128) * 3 / 4) as i64;
        let ghost items = self.items@;
        let ghost history = self.swap_history@;
        let ghost bound = min_to_max_diff as int;
        assert(bound == swap_bound(min_t as int, max_t as int));
        let n = self.items.len();
        let mut best_swap: Option<(usize, usize, i64)> = None;
        let mut idx0: usize = 0;
        while idx0 < n
            invariant
                idx0 <= n,
                n == self.items@.len(),
                self.wf(),
                *self == *old(self),
                items == self.items@,
                history == self.swap_history@,
                bound == min_to_max_diff,
                best_so_far(items, history, min_g, max_g, bound, best_swap, idx0 as int, 0),
            decreases n - idx0,
        {
            if self.items[idx0].group == min_g {
                let data0 = self.items[idx0].data;
                let mut stop = false;
                let mut idx1: usize = 0;
                while idx1 < n && !stop
                    invariant
                        idx1 <= n,
                        idx0 < n,
                        n == self.items@.len(),
                        self.wf(),
                        *self == *old(self),
                        items == self.items@,
                        history == self.swap_history@,
                        bound == min_to_max_diff,
                        data0 == items[idx0 as int].data,
                        items[idx0 as int].group == min_g,
                        best_so_far(
                            items,
                            history,
                            min_g,
                            max_g,
                            bound,
                            best_swap,
                            idx0 as int,
                            idx1 as int,
                        ),
                        stop ==> forall|j1: int|
                            #![trigger candidate(items, history, min_g, max_g, bound, idx0 as int, j1)]
                            idx1 <= j1 ==> !candidate(
                                items,
                                history,
                                min_g,
                                max_g,
                                bound,
                                idx0 as int,
                                j1,
                            ),
                    decreases n - idx1 + if stop { 0int } else { 1int },
                {
                    let group1 = self.items[idx1].group;
                    let data1 = self.items[idx1].data;
                    if group1 == max_g && data0 < data1 {
                        let i_diff = data1 - data0;
                        if i_diff > min_to_max_diff {
                            stop = true;
                        } else if !self.is_item_in_history_double(idx0, idx1) {
                            best_swap = match best_swap {
                                None => Some((idx0, idx1, i_diff)),
                                Some(best) => if best.2 < i_diff {
                                    Some((idx0, idx1, i_diff))
                                } else {
                                    Some(best)
                                },
                            };
                        }
                    }
                    if !stop {
                        idx1 += 1;
                    }
                }
            }
            idx0 += 1;
        }
        let best_swap = match best_swap {
            None => {
                return AutoSwap::Done;
            },
            Some(x) => x,
        };
        proof {
            let x = items[best_swap.0 as int].data as int;
            let y = items[best_swap.1 as int].data as int;
            let m = self.items@.len() as int;
            lemma_sq(min_t as int, max_t as int, y - x);
            let mid = items.update(best_swap.0 as int, with_group(items[best_swap.0 as int], max_g));
            lemma_regroup_sum(items, best_swap.0 as int, max_g, ItemGroup::A, m);
            lemma_regroup_sum(items, best_swap.0 as int, max_g, ItemGroup::B, m);
            lemma_regroup_sum(items, best_swap.0 as int, max_g, ItemGroup::C, m);
            lemma_regroup_sum(items, best_swap.0 as int, max_g, ItemGroup::D, m);
            lemma_regroup_sum(mid, best_swap.1 as int, min_g, ItemGroup::A, m);
            lemma_regroup_sum(mid, best_swap.1 as int, min_g, ItemGroup::B, m);
            lemma_regroup_sum(mid, best_swap.1 as int, min_g, ItemGroup::C, m);
            lemma_regroup_sum(mid, best_swap.1 as int, min_g, ItemGroup::D, m);
            lemma_sq_nonneg(self.totals().0);
            lemma_sq_nonneg(self.totals().1);
            lemma_sq_nonneg(self.totals().2);
            lemma_sq_nonneg(self.totals().3);
        }
        self.update_item_with_history_double(best_swap.0, max_g, best_swap.1, min_g);
        proof {
            lemma_sq_nonneg(self.totals().0);
            lemma_sq_nonneg(self.totals().1);
            lemma_sq_nonneg(self.totals().2);
            lemma_sq_nonneg(self.totals().3);
            assert(old(self).swapped_to(self)) by {
                assert(best_pair(
                    items,
                    history,
                    min_g,
                    max_g,
                    bound,
                    best_swap.0 as int,
                    best_swap.1 as int,
                ));
            }
            lemma_swap_effect(*old(self), *self, best_swap.0 as int, best_swap.1 as int);
        }
        AutoSwap::Continue
    }

    /// Swaps until no pair is found: round after round the best pair of the
    /// round is swapped. Every group keeps as many clips as it had, the gap
    /// between the largest and the smallest total does not grow, and where
    /// a pair could be swapped at the start the totals end nearer to each
    /// other.
    pub fn run_automatic_swaps(&mut self)
        requires
            old(self).wf(),
        ensures
            final(self).wf(),
            final(self).same_clips(old(self)),
            exists|n: nat| old(self).reached(final(self), n),
            !final(self).can_swap(),
            sizes_kept(final(self).items@, old(self).items@),
            final(self).spread() <= old(self).spread(),
            final(self).imbalance() <= old(self).imbalance(),
            old(self).can_swap() ==> final(self).imbalance() < old(self).imbalance(),
    {
        let ghost mut rounds: nat = 0;
        loop
            invariant
                self.wf(),
                self.same_clips(old(self)),
                old(self).reached(self, rounds),
                sizes_kept(self.items@, old(self).items@),
                self.spread() <= old(self).spread(),
                self.imbalance() <= old(self).imbalance(),
                rounds > 0 ==> self.imbalance() < old(self).imbalance(),
            ensures
                !self.can_swap(),
                old(self).can_swap() ==> rounds > 0,
            decreases self.imbalance(),
        {
            let ghost before = *self;
            match self.auto_double_swap() {
                AutoSwap::Continue => {
                    proof {
                        lemma_reached_more(*old(self), before, *self, rounds);
                        rounds = rounds + 1;
                    }
                },
                AutoSwap::Done => {
                    assert(self.items@ == before.items@);
                    proof {
                        lemma_reached_same(*old(self), before, *self, rounds);
                    }
                    break ;
                },
            }
        }
    }
}

/// As many clips are kept for a group as the group holds.
pub proof fn lemma_kept_len<D>(items: Seq<Item<D>>, g: ItemGroup, n: int)
    requires
        0 <= n <= items.len(),
    ensures
        kept_of(items.take(n), g).len() == count_of(items, g, n),
    decreases n,
{
    reveal_with_fuel(Seq::filter, 2);
    let pred = |item: Item<D>| item.group == g;
    if n > 0 {
        lemma_kept_len(items, g, n - 1);
        let longer = items.take(n);
        let shorter = items.take(n - 1);
        assert(longer.drop_last() =~= shorter);
        assert(longer.last() == items[n - 1]);
        if items[n - 1].group == g {
            assert(longer.filter(pred) == shorter.filter(pred).push(items[n - 1]));
        } else {
            assert(longer.filter(pred) == shorter.filter(pred));
        }
    } else {
        assert(items.take(0).len() == 0);
    }
}

/// Clips dealt out in turn fill group `g` exactly where there are more
/// than `g` clips.
pub proof fn lemma_dealt_count<D>(items: Seq<Item<D>>, count: int, g: int, n: int)
    requires
        2 <= count <= 4,
        0 <= g < count,
        0 <= n <= items.len(),
        forall|t: int| 0 <= t < items.len() ==> (#[trigger] items[t]).group == dealt_group(t, count),
    ensures
        count_of(items, group_of_number(g), n) >= 0,
        count_of(items, group_of_number(g), n) > 0 <==> g < n,
    decreases n,
{
    if n > 0 {
        lemma_dealt_count(items, count, g, n - 1);
        assert(items[n - 1].group == dealt_group(n - 1, count));
        if n - 1 <= g {
            if count == 2 {
                assert((n - 1) % 2 == n - 1);
            } else if count == 3 {
                assert((n - 1) % 3 == n - 1);
            } else {
                assert((n - 1) % 4 == n - 1);
            }
        }
    }
}

/// Length of the first `n` clips of the input together.
pub open spec fn pair_total<D>(data: Seq<(i64, D)>, n: int) -> int
    decreases n,
{
    if n <= 0 {
        0
    } else {
        pair_total(data, n - 1) + data[n - 1].0
    }
}

/// The lengths of the input clips.
pub open spec fn pair_lengths<D>(data: Seq<(i64, D)>) -> Seq<int> {
    Seq::new(data.len(), |i: int| data[i].0 as int)
}

/// `items` holds the clips of `data` in the order `order`, dealt out in
/// turn to `count` groups.
pub open spec fn arranged<D>(
    data: Seq<(i64, D)>,
    items: Seq<Item<D>>,
    order: Seq<usize>,
    count: int,
) -> bool {
    &&& is_order(order, data.len() as int)
    &&& items.len() == data.len()
    &&& forall|t: int|
        0 <= t < items.len() ==> (#[trigger] items[t]) == (Item {
            data: data[order[t] as int].0,
            _external_data_: data[order[t] as int].1,
            group: dealt_group(t, count),
        })
}

/// What the caller keeps with the clips of group `g`, in the order of the
/// clips.
pub open spec fn kept_of<D>(items: Seq<Item<D>>, g: ItemGroup) -> Seq<D> {
    items.filter(|item: Item<D>| item.group == g).map_values(|item: Item<D>| item._external_data_)
}

/// The group with the number `n`.
pub open spec fn group_of_number(n: int) -> ItemGroup {
    if n == 0 {
        ItemGroup::A
    } else if n == 1 {
        ItemGroup::B
    } else if n == 2 {
        ItemGroup::C
    } else {
        ItemGroup::D
    }
}

proof fn lemma_pair_total<D>(data: Seq<(i64, D)>, n: int)
    requires
        0 <= n <= data.len(),
    ensures
        pair_total(data, n) == plain_total(pair_lengths(data), n),
    decreases n,
{
    if n > 0 {
        lemma_pair_total(data, n - 1);
    }
}

proof fn lemma_arranged_total<D>(
    data: Seq<(i64, D)>,
    items: Seq<Item<D>>,
    order: Seq<usize>,
    count: int,
    n: int,
)
    requires
        arranged(data, items, order, count),
        0 <= n <= items.len(),
    ensures
        data_total(items, n) == picked_sum(order, pair_lengths(data), n),
    decreases n,
{
    if n > 0 {
        lemma_arranged_total(data, items, order, count, n - 1);
    }
}

impl<D> ItemList<D> {
    /// The clips by rising length, dealt out in turn to the groups of the
    /// layout, with no swap made yet. Which of two clips of equal length
    /// comes first is not stated.
    pub fn new_with_data(data: Vec<(i64, D)>, screens: FrameShape) -> (list: ItemList<D>)
        requires
            screens == FrameShape::Dual || screens == FrameShape::Triple || screens
                == FrameShape::Quad,
            forall|i: int| 0 <= i < data@.len() ==> (#[trigger] data@[i]).0 >= 0,
            pair_total(data@, data@.len() as int) <= i64::MAX,
        ensures
            list.wf(),
            list.screens == screens,
            list.swap_history@ == Seq::<SwapHistory>::empty(),
            exists|order: Seq<usize>|
                arranged(data@, list.items@, order, screens.region_count() as int),
    {
        let n = data.len();
        let mut keys: Vec<i64> = Vec::new();
        let mut i: usize = 0;
        while i < n
            invariant
                i <= n,
                n == data@.len(),
                keys@.len() == i,
                forall|k: int| 0 <= k < i ==> keys@[k] == data@[k].0,
            decreases n - i,
        {
            keys.push(data[i].0);
            i += 1;
        }
        let mut order = identity_order(n);
        let ghost plain = order@;
        sort_by_key(&mut order, &keys);
        proof {
            lemma_rearranged_order(plain, order@, n as int);
        }
        let sorted = take_in_order(data, &order);
        let sclen = screens.count() as usize;
        let mut v: Vec<Item<D>> = Vec::new();
        let mut idx: usize = 0;
        for pair in it: sorted
            invariant
                idx == it.index(),
                it.seq() == sorted@,
                sorted@.len() == n,
                sclen == screens.region_count(),
                2 <= sclen <= 4,
                v@.len() == idx,
                forall|t: int|
                    0 <= t < idx ==> (#[trigger] v@[t]) == (Item {
                        data: sorted@[t].0,
                        _external_data_: sorted@[t].1,
                        group: dealt_group(t, sclen as int),
                    }),
        {
            let group = match idx % sclen {
                0 => ItemGroup::A,
                1 => ItemGroup::B,
                2 => ItemGroup::C,
                _ => ItemGroup::D,
            };
            v.push(Item::from_data_group(pair.0, group, pair.1));
            idx += 1;
        }
        let list = ItemList { items: v, screens, swap_history: VecDeque::new() };
        proof {
            let count = screens.region_count() as int;
            assert(arranged(data@, list.items@, order@, count));
            lemma_arranged_total(data@, list.items@, order@, count, n as int);
            lemma_order_sum(order@, pair_lengths(data@), n as int);
            lemma_pair_total(data@, n as int);
            assert(rising(list.items@)) by {
                assert forall|i: int, j: int| 0 <= i <= j < list.items@.len() implies list.items@[i].data
                    <= list.items@[j].data by {
                    assert(keys@[order@[i] as int] <= keys@[order@[j] as int]);
                }
            }
            assert forall|t: int| 0 <= t < list.items@.len() implies group_number(
                (#[trigger] list.items@[t]).group,
            ) < count by {
                assert(0 <= t % count < count);
            }
        }
        list
    }

    /// Ends the regrouping: what the caller keeps with the clips, one list
    /// for each group of the layout, in the order of the clips.
    pub fn export_to_data_lists(self) -> (out: Vec<Vec<D>>)
        requires
            self.wf(),
        ensures
            out@.len() == self.screens.region_count(),
            forall|g: int|
                0 <= g < out@.len() ==> (#[trigger] out@[g])@ == kept_of(
                    self.items@,
                    group_of_number(g),
                ),
    {
        let count = self.screens.count() as usize;
        let mut out: Vec<Vec<D>> = Vec::new();
        out.push(Vec::new());
        out.push(Vec::new());
        out.push(Vec::new());
        out.push(Vec::new());
        let ghost items = self.items@;
        proof {
            reveal_with_fuel(Seq::filter, 1);
            assert forall|g: int| 0 <= g < 4 implies (#[trigger] out@[g])@ == kept_of(
                items.take(0),
                group_of_number(g),
            ) by {
                assert(items.take(0).len() == 0);
                assert(kept_of(items.take(0), group_of_number(g)) =~= Seq::<D>::empty());
            }
        }
        let ghost mut done: int = 0;
        for item in it: self.items
            invariant
                done == it.index(),
                it.seq() == items,
                out@.len() == 4,
                forall|g: int|
                    0 <= g < 4 ==> (#[trigger] out@[g])@ == kept_of(
                        items.take(done),
                        group_of_number(g),
                    ),
        {
            let ghost before = out@;
            let to: usize = match item.group {
                ItemGroup::A => 0,
                ItemGroup::B => 1,
                ItemGroup::C => 2,
                ItemGroup::D => 3,
            };
            out[to].push(item._external_data_);
            proof {
                let longer = items.take(done + 1);
                let shorter = items.take(done);
                assert(longer.drop_last() =~= shorter);
                assert(longer.last() == items[done]);
                reveal_with_fuel(Seq::filter, 2);
                assert forall|g: int| 0 <= g < 4 implies (#[trigger] out@[g])@ == kept_of(
                    longer,
                    group_of_number(g),
                ) by {
                    let pred = |item: Item<D>| item.group == group_of_number(g);
                    let keep = |item: Item<D>| item._external_data_;
                    if g == to {
                        assert(longer.filter(pred) == shorter.filter(pred).push(items[done]));
                        assert(out@[g]@ == before[g]@.push(items[done]._external_data_));
                        assert(longer.filter(pred).map_values(keep) =~= shorter.filter(
                            pred,
                        ).map_values(keep).push(items[done]._external_data_));
                    } else {
                        assert(out@[g] == before[g]);
                        assert(longer.filter(pred) == shorter.filter(pred));
                    }
                }
                done = done + 1;
            }
        }
        proof {
            assert(items.take(items.len() as int) =~= items);
        }
        out.truncate(count);
        out
    }
}

impl<D> ItemList<D> {
    /// The smallest total among the groups of the layout: how long the
    /// output plays.
    pub fn group_len_min(&self) -> (least: i64)
        requires
            self.wf(),
        ensures
            least == self.ends().0.0,
    {
        let ends = self.typ_ref_sum_min_max();
        ends.0.0
    }
}

} // verus!
