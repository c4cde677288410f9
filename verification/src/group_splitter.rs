//! Splitting clips into groups of nearly equal total length: a bounded
//! partition search, and a greedy migration heuristic to fall back on.
//!
//! A clip is known here by its index in the caller's list and its length.
//! An assignment gives every clip the number of its group, so no clip can be
//! lost or stand in two groups.

use vstd::prelude::*;
use std::time::Instant;
use crate::clock::{elapsed_nanos, now};
use crate::order::take_by_lists;
use crate::video::Video;
use crate::order::{
    identity, identity_order, is_order, lemma_order_covers, lemma_order_sum, lemma_rearranged_order, picked_sum,
    plain_total, sort_by_key,
};

verus! {

/// One clip as the grouping sees it: the group it is assigned to, and its
/// length in milliseconds.
#[derive(Clone, Copy, Debug)]
pub struct LenV {
    pub group: usize,
    pub inner: i64,
}

/// Length of the clips of group `g` among the first `n`.
pub open spec fn group_sum(items: Seq<LenV>, g: int, n: int) -> int
    decreases n,
{
    if n <= 0 {
        0
    } else {
        group_sum(items, g, n - 1) + if items[n - 1].group == g {
            items[n - 1].inner as int
        } else {
            0
        }
    }
}

/// Length of the first `n` clips together.
pub open spec fn total_length(items: Seq<LenV>, n: int) -> int
    decreases n,
{
    if n <= 0 {
        0
    } else {
        total_length(items, n - 1) + items[n - 1].inner
    }
}

/// No clip has a negative length, and all lengths together fit an `i64`.
pub open spec fn lengths_fit(items: Seq<LenV>) -> bool {
    &&& forall|i: int| 0 <= i < items.len() ==> (#[trigger] items[i]).inner >= 0
    &&& total_length(items, items.len() as int) <= i64::MAX
}

/// Every clip is assigned to one of `groups` groups.
pub open spec fn groups_below(items: Seq<LenV>, groups: int) -> bool {
    forall|i: int| 0 <= i < items.len() ==> (#[trigger] items[i]).group < groups
}

/// The clips are the same but for the groups they are assigned to.
pub open spec fn same_lengths(a: Seq<LenV>, b: Seq<LenV>) -> bool {
    &&& a.len() == b.len()
    &&& forall|i: int| 0 <= i < a.len() ==> (#[trigger] a[i]).inner == b[i].inner
}

/// The total of a group over the first `n` clips is no less than nothing
/// and no more than the length of those clips, which is no more than the
/// length of all clips.
pub proof fn lemma_group_sum_bounds(items: Seq<LenV>, g: int, n: int)
    requires
        0 <= n <= items.len(),
        forall|i: int| 0 <= i < items.len() ==> (#[trigger] items[i]).inner >= 0,
    ensures
        0 <= group_sum(items, g, n) <= total_length(items, n),
        total_length(items, n) <= total_length(items, items.len() as int),
    decreases n,
{
    if n > 0 {
        lemma_group_sum_bounds(items, g, n - 1);
    }
    lemma_total_step(items, n);
}

proof fn lemma_total_step(items: Seq<LenV>, n: int)
    requires
        0 <= n <= items.len(),
        forall|i: int| 0 <= i < items.len() ==> (#[trigger] items[i]).inner >= 0,
    ensures
        0 <= total_length(items, n) <= total_length(items, items.len() as int),
    decreases items.len() - n,
{
    lemma_total_nonneg(items, n);
    if n < items.len() {
        lemma_total_step(items, n + 1);
    }
}

proof fn lemma_total_nonneg(items: Seq<LenV>, n: int)
    requires
        0 <= n <= items.len(),
        forall|i: int| 0 <= i < items.len() ==> (#[trigger] items[i]).inner >= 0,
    ensures
        0 <= total_length(items, n),
    decreases n,
{
    if n > 0 {
        lemma_total_nonneg(items, n - 1);
    }
}

/// The total length of each group.
pub fn position_sums(lst: &Vec<LenV>, groups: usize) -> (counts: Vec<i64>)
    requires
        lengths_fit(lst@),
        groups_below(lst@, groups as int),
    ensures
        counts@.len() == groups,
        forall|g: int| 0 <= g < groups ==> counts@[g] == group_sum(lst@, g, lst@.len() as int),
{
    let mut counts: Vec<i64> = Vec::new();
    let mut g: usize = 0;
    while g < groups
        invariant
            g <= groups,
            counts@.len() == g,
            forall|k: int| 0 <= k < g ==> counts@[k] == 0,
        decreases groups - g,
    {
        counts.push(0);
        g += 1;
    }
    let mut i: usize = 0;
    while i < lst.len()
        invariant
            i <= lst@.len(),
            counts@.len() == groups,
            lengths_fit(lst@),
            groups_below(lst@, groups as int),
            forall|k: int| 0 <= k < groups ==> counts@[k] == group_sum(lst@, k, i as int),
        decreases lst@.len() - i,
    {
        let item = lst[i];
        proof {
            lemma_group_sum_bounds(lst@, item.group as int, i as int + 1);
        }
        let sum = counts[item.group] + item.inner;
        counts.set(item.group, sum);
        i += 1;
    }
    counts
}

/// `i` is the last place at which `sums` is smallest.
pub open spec fn last_min_at(sums: Seq<i64>, i: int) -> bool {
    &&& 0 <= i < sums.len()
    &&& forall|j: int| 0 <= j < i ==> sums[j] >= sums[i]
    &&& forall|j: int| i < j < sums.len() ==> sums[j] > sums[i]
}

/// `i` is the last place at which `sums` is largest.
pub open spec fn last_max_at(sums: Seq<i64>, i: int) -> bool {
    &&& 0 <= i < sums.len()
    &&& forall|j: int| 0 <= j < i ==> sums[j] <= sums[i]
    &&& forall|j: int| i < j < sums.len() ==> sums[j] < sums[i]
}

/// The smallest and the largest of the group totals, each with its group.
/// Among equal totals the last group is named.
pub fn position_sums_min_max(totals: &Vec<i64>) -> (ends: ((usize, i64), (usize, i64)))
    requires
        totals@.len() > 0,
    ensures
        last_min_at(totals@, ends.0.0 as int),
        ends.0.1 == totals@[ends.0.0 as int],
        last_max_at(totals@, ends.1.0 as int),
        ends.1.1 == totals@[ends.1.0 as int],
{
    let mut min_at: usize = 0;
    let mut max_at: usize = 0;
    let mut i: usize = 1;
    while i < totals.len()
        invariant
            1 <= i <= totals@.len(),
            last_min_at(totals@.take(i as int), min_at as int),
            last_max_at(totals@.take(i as int), max_at as int),
        decreases totals@.len() - i,
    {
        if !(totals[min_at] < totals[i]) {
            min_at = i;
        }
        if !(totals[max_at] > totals[i]) {
            max_at = i;
        }
        i += 1;
    }
    assert(totals@.take(totals@.len() as int) =~= totals@);
    ((min_at, totals[min_at]), (max_at, totals[max_at]))
}

/// What the totals lie above their smallest, summed over the first `n`.
pub open spec fn excess(sums: Seq<i64>, least: int, n: int) -> int
    decreases n,
{
    if n <= 0 {
        0
    } else {
        excess(sums, least, n - 1) + (sums[n - 1] - least)
    }
}

/// The smallest of the totals.
pub open spec fn least_of(sums: Seq<i64>) -> int
    recommends
        sums.len() > 0,
{
    sums[choose|i: int| last_min_at(sums, i)] as int
}

/// The average of what each group total lies above the smallest of them;
/// the lower the better.
pub open spec fn spread_avg(sums: Seq<i64>) -> int {
    excess(sums, least_of(sums), sums.len() as int) / (sums.len() as int)
}

proof fn lemma_least_of(sums: Seq<i64>, i: int)
    requires
        last_min_at(sums, i),
    ensures
        least_of(sums) == sums[i],
{
    let c = choose|c: int| last_min_at(sums, c);
    assert(last_min_at(sums, c));
    if c < i {
    } else if c > i {
    }
}

proof fn lemma_excess_bounds(sums: Seq<i64>, least: int, n: int)
    requires
        0 <= n <= sums.len(),
        forall|j: int| 0 <= j < sums.len() ==> sums[j] >= least,
    ensures
        0 <= excess(sums, least, n),
        excess(sums, least, n) == plain_sum(sums, n) - n * least,
    decreases n,
{
    if n > 0 {
        lemma_excess_bounds(sums, least, n - 1);
        assert(n * least == (n - 1) * least + least) by (nonlinear_arith);
    } else {
        assert(n * least == 0) by (nonlinear_arith)
            requires
                n == 0,
        ;
    }
}

/// The first `n` totals together.
pub open spec fn plain_sum(sums: Seq<i64>, n: int) -> int
    decreases n,
{
    if n <= 0 {
        0
    } else {
        plain_sum(sums, n - 1) + sums[n - 1]
    }
}

/// The total length of each of `groups` groups, as the machine holds it.
pub open spec fn group_totals(items: Seq<LenV>, groups: int) -> Seq<i64> {
    Seq::new(groups as nat, |g: int| group_sum(items, g, items.len() as int) as i64)
}

/// The average deviation of an assignment: see `spread_avg`.
pub open spec fn deviation(items: Seq<LenV>, groups: int) -> int {
    spread_avg(group_totals(items, groups))
}

/// Length of the first `n` clips that are assigned to a group below `k`.
pub open spec fn sum_below(items: Seq<LenV>, n: int, k: int) -> int
    decreases k,
{
    if k <= 0 {
        0
    } else {
        sum_below(items, n, k - 1) + group_sum(items, k - 1, n)
    }
}

proof fn lemma_sum_below_step(items: Seq<LenV>, n: int, k: int)
    requires
        0 < n <= items.len(),
        0 <= k,
    ensures
        sum_below(items, n, k) == sum_below(items, n - 1, k) + if items[n - 1].group < k {
            items[n - 1].inner as int
        } else {
            0
        },
    decreases k,
{
    if k > 0 {
        lemma_sum_below_step(items, n, k - 1);
    }
}

proof fn lemma_sum_below_none(items: Seq<LenV>, k: int)
    requires
        0 <= k,
    ensures
        sum_below(items, 0, k) == 0,
    decreases k,
{
    if k > 0 {
        lemma_sum_below_none(items, k - 1);
    }
}

/// The groups' totals add up to the length of all clips.
pub proof fn lemma_sums_add_up(items: Seq<LenV>, n: int, groups: int)
    requires
        0 <= n <= items.len(),
        0 <= groups,
        groups_below(items, groups),
    ensures
        sum_below(items, n, groups) == total_length(items, n),
    decreases n,
{
    if n > 0 {
        lemma_sums_add_up(items, n - 1, groups);
        lemma_sum_below_step(items, n, groups);
    } else {
        lemma_sum_below_none(items, groups);
    }
}

proof fn lemma_plain_sum_totals(items: Seq<LenV>, groups: int, k: int)
    requires
        lengths_fit(items),
        0 <= k <= groups,
    ensures
        plain_sum(group_totals(items, groups), k) == sum_below(items, items.len() as int, k),
    decreases k,
{
    if k > 0 {
        lemma_plain_sum_totals(items, groups, k - 1);
        lemma_group_sum_bounds(items, k - 1, items.len() as int);
    }
}

proof fn lemma_excess_grows(sums: Seq<i64>, least: int, n: int, m: int)
    requires
        0 <= n <= m <= sums.len(),
        forall|j: int| 0 <= j < sums.len() ==> sums[j] >= least,
    ensures
        0 <= excess(sums, least, n) <= excess(sums, least, m),
    decreases m - n,
{
    lemma_excess_bounds(sums, least, n);
    if n < m {
        lemma_excess_grows(sums, least, n + 1, m);
    }
}

/// What the group totals lie above the smallest of them, together: the
/// length of all clips less the smallest total once for each group.
pub proof fn lemma_excess_of_totals(items: Seq<LenV>, groups: int)
    requires
        lengths_fit(items),
        groups_below(items, groups),
        groups > 0,
    ensures
        excess(group_totals(items, groups), least_of(group_totals(items, groups)), groups)
            == total_length(items, items.len() as int) - groups * least_of(
            group_totals(items, groups),
        ),
        0 <= least_of(group_totals(items, groups)),
        0 <= excess(group_totals(items, groups), least_of(group_totals(items, groups)), groups)
            <= total_length(items, items.len() as int),
{
    let sums = group_totals(items, groups);
    let at = choose|i: int| last_min_at(sums, i);
    lemma_last_min_exists(sums, sums.len() as int);
    assert(sums.take(sums.len() as int) =~= sums);
    assert(last_min_at(sums, at));
    let least = least_of(sums);
    lemma_excess_bounds(sums, least, groups);
    lemma_plain_sum_totals(items, groups, groups);
    lemma_sums_add_up(items, items.len() as int, groups);
    lemma_group_sum_bounds(items, at, items.len() as int);
    assert(groups * least >= 0) by (nonlinear_arith)
        requires
            groups > 0,
            least >= 0,
    ;
}

proof fn lemma_last_min_exists(sums: Seq<i64>, n: int)
    requires
        0 < n <= sums.len(),
    ensures
        exists|i: int| last_min_at(sums.take(n), i),
    decreases n,
{
    if n == 1 {
        assert(last_min_at(sums.take(n), 0));
    } else {
        lemma_last_min_exists(sums, n - 1);
        let prev = sums.take(n - 1);
        let i = choose|i: int| last_min_at(prev, i);
        assert(forall|j: int| 0 <= j < n - 1 ==> prev[j] == sums.take(n)[j]);
        if sums[i] < sums[n - 1] {
            assert(last_min_at(sums.take(n), i));
        } else {
            assert(last_min_at(sums.take(n), n - 1));
        }
    }
}

/// The average of what each group's total lies above the smallest total.
pub fn group_diff_avg(lst: &Vec<LenV>, groups: usize) -> (avg: i64)
    requires
        lengths_fit(lst@),
        groups_below(lst@, groups as int),
        groups > 0,
    ensures
        avg == deviation(lst@, groups as int),
        avg >= 0,
{
    let sums = position_sums(lst, groups);
    assert(sums@ =~= group_totals(lst@, groups as int)) by {
        assert forall|g: int| 0 <= g < groups implies sums@[g] == group_totals(
            lst@,
            groups as int,
        )[g] by {
            lemma_group_sum_bounds(lst@, g, lst@.len() as int);
        }
    }
    let ends = position_sums_min_max(&sums);
    let least = ends.0.1;
    proof {
        lemma_least_of(sums@, ends.0.0 as int);
        lemma_excess_of_totals(lst@, groups as int);
    }
    let mut acc: i64 = 0;
    let mut g: usize = 0;
    while g < groups
        invariant
            g <= groups,
            sums@.len() == groups,
            least >= 0,
            forall|j: int| 0 <= j < sums@.len() ==> sums@[j] >= least,
            acc == excess(sums@, least as int, g as int),
            0 <= excess(sums@, least as int, groups as int) <= i64::MAX,
        decreases groups - g,
    {
        proof {
            lemma_excess_grows(sums@, least as int, g as int + 1, groups as int);
            assert(excess(sums@, least as int, g as int + 1) == excess(
                sums@,
                least as int,
                g as int,
            ) + (sums@[g as int] - least));
        }
        acc = acc + (sums[g] - least);
        g += 1;
    }
    proof {
        lemma_excess_bounds(sums@, least as int, groups as int);
        assert(acc as int / groups as int >= 0 && acc as int / groups as int <= acc as int)
            by (nonlinear_arith)
            requires
                acc >= 0,
                groups > 0,
        ;
    }
    (acc as i128 / groups as i128) as i64
}

/// Some clip is assigned to group `g`.
pub open spec fn occupied(items: Seq<LenV>, g: int) -> bool {
    exists|i: int| 0 <= i < items.len() && (#[trigger] items[i]).group == g
}

/// `order` lists the clips from the longest to the shortest.
pub open spec fn longest_first(order: Seq<usize>, items: Seq<LenV>) -> bool {
    forall|a: int, b: int|
        0 <= a <= b < order.len() ==> items[#[trigger] order[a] as int].inner >= items[#[trigger] order[b] as int].inner
}

/// A clip may migrate when it is in group `from` and shorter than `gap`.
pub open spec fn may_migrate(item: LenV, from: int, gap: int) -> bool {
    item.group == from && item.inner < gap
}

proof fn lemma_same_total(a: Seq<LenV>, b: Seq<LenV>, n: int)
    requires
        same_lengths(a, b),
        0 <= n <= a.len(),
    ensures
        total_length(a, n) == total_length(b, n),
    decreases n,
{
    if n > 0 {
        lemma_same_total(a, b, n - 1);
    }
}

/// A group whose total differs from the length of one of its clips holds
/// another clip.
proof fn lemma_not_alone(items: Seq<LenV>, g: int, p: int, n: int)
    requires
        0 <= p < items.len(),
        0 <= n <= items.len(),
        items[p].group == g,
        forall|i: int| 0 <= i < items.len() ==> (#[trigger] items[i]).inner >= 0,
        group_sum(items, g, n) != (if p < n {
            items[p].inner as int
        } else {
            0
        }),
    ensures
        exists|q: int| 0 <= q < n && q != p && (#[trigger] items[q]).group == g,
    decreases n,
{
    if n > 0 {
        if n - 1 != p && items[n - 1].group == g {
        } else {
            lemma_not_alone(items, g, p, n - 1);
        }
    }
}

/// The first place from `k` on at which `order` names a clip that may
/// migrate; none where it names no such clip.
pub open spec fn first_migrant(
    items: Seq<LenV>,
    order: Seq<usize>,
    from: int,
    gap: int,
    k: int,
) -> Option<int>
    decreases order.len() - k,
{
    if k < 0 || k >= order.len() {
        None
    } else if may_migrate(items[order[k] as int], from, gap) {
        Some(k)
    } else {
        first_migrant(items, order, from, gap, k + 1)
    }
}

/// The last group with the smallest total.
pub open spec fn last_min_group(sums: Seq<i64>) -> int {
    choose|i: int| last_min_at(sums, i)
}

/// The last group with the largest total.
pub open spec fn last_max_group(sums: Seq<i64>) -> int {
    choose|i: int| last_max_at(sums, i)
}

/// One round of the migration: the first clip in `order` that is in the
/// group with the largest total and shorter than the gap between the
/// largest and the smallest total goes to the group with the smallest
/// total. None where there is no such clip, or where the migration would
/// raise the average deviation.
pub open spec fn migration_step(items: Seq<LenV>, order: Seq<usize>, groups: int) -> Option<
    Seq<LenV>,
> {
    let sums = group_totals(items, groups);
    let to = last_min_group(sums);
    let from = last_max_group(sums);
    match first_migrant(items, order, from, sums[from] - sums[to], 0) {
        None => None,
        Some(at) => {
            let clip = order[at] as int;
            let moved = items.update(clip, LenV { group: to as usize, inner: items[clip].inner });
            if deviation(items, groups) < deviation(moved, groups) {
                None
            } else {
                Some(moved)
            }
        },
    }
}

/// The clips after at most `rounds` rounds of migration.
pub open spec fn migrated(items: Seq<LenV>, order: Seq<usize>, groups: int, rounds: nat) -> Seq<LenV>
    decreases rounds,
{
    if rounds == 0 {
        items
    } else {
        match migration_step(items, order, groups) {
            None => items,
            Some(next) => migrated(next, order, groups, (rounds - 1) as nat),
        }
    }
}

proof fn lemma_first_migrant(
    items: Seq<LenV>,
    order: Seq<usize>,
    from: int,
    gap: int,
    k: int,
    found: Option<int>,
)
    requires
        0 <= k <= order.len(),
        match found {
            Some(at) => k <= at < order.len() && may_migrate(items[order[at] as int], from, gap)
                && forall|j: int|
                k <= j < at ==> !may_migrate(items[#[trigger] order[j] as int], from, gap),
            None => forall|j: int|
                k <= j < order.len() ==> !may_migrate(items[#[trigger] order[j] as int], from, gap),
        },
    ensures
        first_migrant(items, order, from, gap, k) == found,
    decreases order.len() - k,
{
    if k < order.len() {
        if may_migrate(items[order[k] as int], from, gap) {
            assert(found == Some(k)) by {
                if found is None {
                    assert(!may_migrate(items[order[k] as int], from, gap));
                } else if found->Some_0 != k {
                    assert(!may_migrate(items[order[k] as int], from, gap));
                }
            }
        } else {
            lemma_first_migrant(items, order, from, gap, k + 1, found);
        }
    }
}

proof fn lemma_last_groups(sums: Seq<i64>, lo: int, hi: int)
    requires
        last_min_at(sums, lo),
        last_max_at(sums, hi),
    ensures
        last_min_group(sums) == lo,
        last_max_group(sums) == hi,
{
    let a = last_min_group(sums);
    assert(last_min_at(sums, a));
    if a < lo {
    } else if a > lo {
    }
    let b = last_max_group(sums);
    assert(last_max_at(sums, b));
    if b < hi {
    } else if b > hi {
    }
}

/// The first clip in `order` that is in group `from` and shorter than `gap`.
fn find_migrant(v_list: &Vec<LenV>, order: &Vec<usize>, from: usize, gap: i64) -> (found: Option<usize>)
    requires
        is_order(order@, v_list@.len() as int),
    ensures
        match found {
            Some(at) => {
                &&& at < order@.len()
                &&& may_migrate(v_list@[order@[at as int] as int], from as int, gap as int)
                &&& forall|k: int|
                    0 <= k < at ==> !may_migrate(
                        v_list@[#[trigger] order@[k] as int],
                        from as int,
                        gap as int,
                    )
            },
            None => forall|k: int|
                0 <= k < order@.len() ==> !may_migrate(
                    v_list@[#[trigger] order@[k] as int],
                    from as int,
                    gap as int,
                ),
        },
{
    let mut k: usize = 0;
    while k < order.len()
        invariant
            k <= order@.len(),
            is_order(order@, v_list@.len() as int),
            forall|j: int|
                0 <= j < k ==> !may_migrate(
                    v_list@[#[trigger] order@[j] as int],
                    from as int,
                    gap as int,
                ),
        decreases order@.len() - k,
    {
        let item = v_list[order[k]];
        if item.group == from && item.inner < gap {
            return Some(k);
        }
        k += 1;
    }
    None
}

/// Greedy migration. The clips are taken from the longest to the shortest.
/// Up to 256 times the first clip of the group with the largest total that
/// is shorter than the gap between the largest and the smallest total
/// migrates to the group with the smallest total. A migration that raises
/// the average deviation is undone and ends the search, as does the lack of
/// a clip that may migrate. Gives the clips with their new groups, and the
/// order from the longest to the shortest.
pub fn group_move(v_list: Vec<LenV>, groups: usize) -> (moved: (Vec<LenV>, Vec<usize>))
    requires
        lengths_fit(v_list@),
        groups_below(v_list@, groups as int),
        groups > 0,
    ensures
        same_lengths(moved.0@, v_list@),
        groups_below(moved.0@, groups as int),
        is_order(moved.1@, v_list@.len() as int),
        longest_first(moved.1@, moved.0@),
        moved.0@ == migrated(v_list@, moved.1@, groups as int, 256),
        deviation(moved.0@, groups as int) <= deviation(v_list@, groups as int),
        forall|g: int| occupied(v_list@, g) ==> occupied(moved.0@, g),
{
    let ghost start = v_list@;
    let mut v_list = v_list;
    let n = v_list.len();
    let mut keys: Vec<i64> = Vec::new();
    let mut i: usize = 0;
    while i < n
        invariant
            i <= n,
            n == v_list@.len(),
            keys@.len() == i,
            lengths_fit(v_list@),
            forall|k: int| 0 <= k < i ==> keys@[k] == i64::MAX - v_list@[k].inner,
        decreases n - i,
    {
        keys.push(i64::MAX - v_list[i].inner);
        i += 1;
    }
    let mut order = identity_order(n);
    let ghost plain = order@;
    sort_by_key(&mut order, &keys);
    proof {
        lemma_rearranged_order(plain, order@, n as int);
        assert(longest_first(order@, v_list@)) by {
            assert forall|a: int, b: int| 0 <= a <= b < order@.len() implies v_list@[#[trigger] order@[a] as int].inner
                >= v_list@[#[trigger] order@[b] as int].inner by {
                assert(keys@[order@[a] as int] <= keys@[order@[b] as int]);
            }
        }
    }
    let mut last_avg: i64 = group_diff_avg(&v_list, groups);
    let mut round: u32 = 0;
    while round < 256
        invariant
            same_lengths(v_list@, start),
            lengths_fit(start),
            lengths_fit(v_list@),
            groups_below(v_list@, groups as int),
            groups > 0,
            n == v_list@.len(),
            is_order(order@, n as int),
            longest_first(order@, v_list@),
            last_avg == deviation(v_list@, groups as int),
            last_avg <= deviation(start, groups as int),
            forall|g: int| occupied(start, g) ==> occupied(v_list@, g),
            migrated(start, order@, groups as int, 256) == migrated(
                v_list@,
                order@,
                groups as int,
                (256 - round) as nat,
            ),
            migrated(v_list@, order@, groups as int, 0) == v_list@,
            round <= 256,
        ensures
            v_list@ == migrated(start, order@, groups as int, 256),
            same_lengths(v_list@, start),
            groups_below(v_list@, groups as int),
            n == v_list@.len(),
            is_order(order@, n as int),
            longest_first(order@, v_list@),
            deviation(v_list@, groups as int) <= deviation(start, groups as int),
            forall|g: int| occupied(start, g) ==> occupied(v_list@, g),
        decreases 256 - round,
    {
        let grp_sum = position_sums(&v_list, groups);
        let (grp_min, grp_max) = position_sums_min_max(&grp_sum);
        proof {
            lemma_group_sum_bounds(v_list@, grp_min.0 as int, n as int);
            lemma_group_sum_bounds(v_list@, grp_max.0 as int, n as int);
            assert(grp_sum@ =~= group_totals(v_list@, groups as int)) by {
                assert forall|g: int| 0 <= g < groups implies grp_sum@[g] == group_totals(
                    v_list@,
                    groups as int,
                )[g] by {
                    lemma_group_sum_bounds(v_list@, g, n as int);
                }
            }
            lemma_last_groups(grp_sum@, grp_min.0 as int, grp_max.0 as int);
        }
        let grp_diff = grp_max.1 - grp_min.1;
        let found = find_migrant(&v_list, &order, grp_max.0, grp_diff);
        proof {
            lemma_first_migrant(
                v_list@,
                order@,
                grp_max.0 as int,
                grp_diff as int,
                0,
                match found {
                    Some(at) => Some(at as int),
                    None => None,
                },
            );
        }
        match found {
            Some(at) => {
                let position = order[at];
                let ghost before = v_list@;
                let pre = v_list[position];
                v_list.set(position, LenV { group: grp_min.0, inner: pre.inner });
                proof {
                    lemma_same_total(v_list@, before, n as int);
                    assert(longest_first(order@, v_list@));
                    assert forall|g: int| occupied(before, g) implies occupied(v_list@, g) by {
                        let w = choose|i: int| 0 <= i < before.len() && (#[trigger] before[i]).group == g;
                        if w == position as int {
                            lemma_not_alone(before, g, position as int, n as int);
                            let q = choose|q: int|
                                0 <= q < n && q != position as int && (#[trigger] before[q]).group == g;
                            assert(v_list@[q].group == g);
                        } else {
                            assert(v_list@[w].group == g);
                        }
                    }
                }
                let avg = group_diff_avg(&v_list, groups);
                if last_avg < avg {
                    v_list.set(position, pre);
                    assert(v_list@ =~= before);
                    assert(migration_step(before, order@, groups as int) is None);
                    assert(migrated(before, order@, groups as int, (256 - round) as nat) == before);
                    break ;
                }
                assert(migration_step(before, order@, groups as int) == Some(v_list@));
                assert(migrated(before, order@, groups as int, (256 - round) as nat) == migrated(
                    v_list@,
                    order@,
                    groups as int,
                    (256 - round - 1) as nat,
                ));
                last_avg = avg;
            },
            None => {
                assert(migration_step(v_list@, order@, groups as int) is None);
                assert(migrated(v_list@, order@, groups as int, (256 - round) as nat) == v_list@);
                break ;
            },
        }
        round += 1;
    }
    (v_list, order)
}

/// The indices in `order` whose clip is assigned to group `g`, in the order
/// in which `order` names them.
pub open spec fn members(order: Seq<usize>, items: Seq<LenV>, g: int) -> Seq<usize> {
    order.filter(|i: usize| items[i as int].group == g)
}

/// The clips of each group: group `g` lists the indices that `order` names
/// and that are assigned to it, in the order of `order`.
pub fn collect_groups(v_list: &Vec<LenV>, order: &Vec<usize>, groups: usize) -> (out: Vec<Vec<usize>>)
    requires
        groups_below(v_list@, groups as int),
        forall|k: int| 0 <= k < order@.len() ==> (#[trigger] order@[k]) < v_list@.len(),
    ensures
        out@.len() == groups,
        forall|g: int| 0 <= g < groups ==> (#[trigger] out@[g])@ == members(order@, v_list@, g),
{
    let mut out: Vec<Vec<usize>> = Vec::new();
    let mut g: usize = 0;
    while g < groups
        invariant
            g <= groups,
            out@.len() == g,
            forall|k: int| 0 <= k < g ==> (#[trigger] out@[k])@ == Seq::<usize>::empty(),
        decreases groups - g,
    {
        out.push(Vec::new());
        g += 1;
    }
    let mut t: usize = 0;
    while t < order.len()
        invariant
            t <= order@.len(),
            out@.len() == groups,
            groups_below(v_list@, groups as int),
            forall|k: int| 0 <= k < order@.len() ==> (#[trigger] order@[k]) < v_list@.len(),
            forall|g: int|
                0 <= g < groups ==> (#[trigger] out@[g])@ == members(order@.take(t as int), v_list@, g),
        decreases order@.len() - t,
    {
        let i = order[t];
        let to = v_list[i].group;
        let ghost before = out@;
        out[to].push(i);
        proof {
            assert(order@.take(t as int + 1).drop_last() =~= order@.take(t as int));
            assert forall|g: int| 0 <= g < groups implies (#[trigger] out@[g])@ == members(
                order@.take(t as int + 1),
                v_list@,
                g,
            ) by {
                let longer = order@.take(t as int + 1);
                let shorter = order@.take(t as int);
                assert(longer.drop_last() =~= shorter);
                assert(longer.last() == i);
                reveal_with_fuel(Seq::filter, 2);
                if g == to {
                    assert(out@[g]@ == before[g]@.push(i));
                    assert(members(longer, v_list@, g) == members(shorter, v_list@, g).push(i));
                } else {
                    assert(out@[g] == before[g]);
                    assert(members(longer, v_list@, g) == members(shorter, v_list@, g));
                }
            }
        }
        t += 1;
    }
    assert(order@.take(order@.len() as int) =~= order@);
    out
}

/// The clips with the groups that `placed` gives the first of them.
pub open spec fn with_groups(lengths: Seq<LenV>, placed: Seq<usize>) -> Seq<LenV> {
    Seq::new(placed.len(), |i: int| LenV { group: placed[i], inner: lengths[i].inner })
}

/// How many of the first `n` clips are assigned to group `g`.
pub open spec fn group_size(items: Seq<LenV>, g: int, n: int) -> nat
    decreases n,
{
    if n <= 0 {
        0
    } else {
        group_size(items, g, n - 1) + if items[n - 1].group == g {
            1nat
        } else {
            0nat
        }
    }
}

/// Distance between a group total and the target.
pub open spec fn off_target(sum: int, target: int) -> int {
    if sum >= target {
        sum - target
    } else {
        target - sum
    }
}

/// The distances of the first `k` group totals from the target, together.
pub open spec fn total_off_target(items: Seq<LenV>, target: int, k: int) -> int
    decreases k,
{
    if k <= 0 {
        0
    } else {
        total_off_target(items, target, k - 1) + off_target(
            group_sum(items, k - 1, items.len() as int),
            target,
        )
    }
}

/// Every one of `groups` group totals lies within `bound` of the target.
pub open spec fn within_bound(items: Seq<LenV>, groups: int, target: int, bound: int) -> bool {
    forall|g: int|
        0 <= g < groups ==> off_target(#[trigger] group_sum(items, g, items.len() as int), target)
            <= bound
}

/// The state of a partition search that has placed the first clips: the
/// totals and sizes of the groups are those of the clips placed so far.
pub open spec fn search_state(
    lengths: Seq<LenV>,
    placed: Seq<usize>,
    sums: Seq<i64>,
    sizes: Seq<usize>,
) -> bool {
    &&& placed.len() <= lengths.len()
    &&& sums.len() == sizes.len()
    &&& forall|i: int| 0 <= i < placed.len() ==> (#[trigger] placed[i]) < sums.len()
    &&& forall|g: int|
        0 <= g < sums.len() ==> (#[trigger] sums[g]) == group_sum(
            with_groups(lengths, placed),
            g,
            placed.len() as int,
        )
    &&& forall|g: int|
        0 <= g < sizes.len() ==> (#[trigger] sizes[g]) == group_size(
            with_groups(lengths, placed),
            g,
            placed.len() as int,
        )
}

/// The best whole assignment that the search has met, if any, with the
/// distance from the target that it was kept for.
pub open spec fn best_kept(
    lengths: Seq<LenV>,
    groups: int,
    target: int,
    best: Option<Vec<usize>>,
    best_deviation: i128,
) -> bool {
    best matches Some(b) ==> {
        &&& b@.len() == lengths.len()
        &&& groups_below(with_groups(lengths, b@), groups)
        &&& best_deviation == total_off_target(with_groups(lengths, b@), target, groups)
    }
}

proof fn lemma_total_off_target_bounds(items: Seq<LenV>, target: int, k: int)
    requires
        lengths_fit(items),
        0 <= target <= i64::MAX,
        0 <= k,
    ensures
        0 <= total_off_target(items, target, k) <= k * i64::MAX,
    decreases k,
{
    if k > 0 {
        lemma_total_off_target_bounds(items, target, k - 1);
        lemma_group_sum_bounds(items, k - 1, items.len() as int);
    }
}

proof fn lemma_with_groups_total(lengths: Seq<LenV>, placed: Seq<usize>, n: int)
    requires
        0 <= n <= placed.len() <= lengths.len(),
    ensures
        total_length(with_groups(lengths, placed), n) == total_length(lengths, n),
    decreases n,
{
    if n > 0 {
        lemma_with_groups_total(lengths, placed, n - 1);
    }
}

/// Placing one more clip changes the total and the size of its group only.
proof fn lemma_place(lengths: Seq<LenV>, placed: Seq<usize>, to: usize, g: int, n: int)
    requires
        placed.len() < lengths.len(),
        0 <= n <= placed.len(),
    ensures
        group_sum(with_groups(lengths, placed.push(to)), g, n) == group_sum(
            with_groups(lengths, placed),
            g,
            n,
        ),
        group_size(with_groups(lengths, placed.push(to)), g, n) == group_size(
            with_groups(lengths, placed),
            g,
            n,
        ),
    decreases n,
{
    if n > 0 {
        lemma_place(lengths, placed, to, g, n - 1);
    }
}

/// More than `limit_secs` seconds have passed, `elapsed` nanoseconds after
/// the start.
pub open spec fn past_limit(elapsed: u128, limit_secs: u64) -> bool {
    elapsed > limit_secs * 1_000_000_000
}

/// Tells whether more than `limit_secs` seconds have passed, `elapsed`
/// nanoseconds after the start.
fn time_is_up(elapsed: u128, limit_secs: u64) -> (up: bool)
    ensures
        up == past_limit(elapsed, limit_secs),
{
    elapsed > limit_secs as u128 * 1_000_000_000
}

/// The distances of the group totals from the target, together.
fn sum_off_target(current_sums: &Vec<i64>, target_sum: i64, Ghost(items): Ghost<Seq<LenV>>) -> (off: i128)
    requires
        lengths_fit(items),
        0 <= target_sum,
        forall|g: int|
            0 <= g < current_sums@.len() ==> (#[trigger] current_sums@[g]) == group_sum(
                items,
                g,
                items.len() as int,
            ),
    ensures
        off == total_off_target(items, target_sum as int, current_sums@.len() as int),
{
    let mut off: i128 = 0;
    let mut g: usize = 0;
    while g < current_sums.len()
        invariant
            g <= current_sums@.len(),
            lengths_fit(items),
            0 <= target_sum,
            forall|k: int|
                0 <= k < current_sums@.len() ==> (#[trigger] current_sums@[k]) == group_sum(
                    items,
                    k,
                    items.len() as int,
                ),
            off == total_off_target(items, target_sum as int, g as int),
            0 <= off <= g * i64::MAX,
        decreases current_sums@.len() - g,
    {
        proof {
            lemma_group_sum_bounds(items, g as int, items.len() as int);
        }
        let sum = current_sums[g];
        let d: i64 = if sum >= target_sum {
            sum - target_sum
        } else {
            target_sum - sum
        };
        off = off + d as i128;
        g += 1;
    }
    off
}

/// Tells whether every group total lies within `max_deviation` of the
/// target.
fn all_within(
    current_sums: &Vec<i64>,
    target_sum: i64,
    max_deviation: i64,
    Ghost(items): Ghost<Seq<LenV>>,
) -> (ok: bool)
    requires
        lengths_fit(items),
        0 <= target_sum,
        forall|g: int|
            0 <= g < current_sums@.len() ==> (#[trigger] current_sums@[g]) == group_sum(
                items,
                g,
                items.len() as int,
            ),
    ensures
        ok == within_bound(items, current_sums@.len() as int, target_sum as int, max_deviation as int),
{
    let mut g: usize = 0;
    while g < current_sums.len()
        invariant
            g <= current_sums@.len(),
            lengths_fit(items),
            0 <= target_sum,
            forall|k: int|
                0 <= k < current_sums@.len() ==> (#[trigger] current_sums@[k]) == group_sum(
                    items,
                    k,
                    items.len() as int,
                ),
            forall|k: int|
                0 <= k < g ==> off_target(
                    #[trigger] group_sum(items, k, items.len() as int),
                    target_sum as int,
                ) <= max_deviation,
        decreases current_sums@.len() - g,
    {
        proof {
            lemma_group_sum_bounds(items, g as int, items.len() as int);
        }
        let sum = current_sums[g];
        let d: i64 = if sum >= target_sum {
            sum - target_sum
        } else {
            target_sum - sum
        };
        if d > max_deviation {
            assert(current_sums@[g as int] == group_sum(items, g as int, items.len() as int));
            return false;
        }
        g += 1;
    }
    true
}

proof fn lemma_group_size_bound(items: Seq<LenV>, g: int, n: int)
    requires
        0 <= n,
    ensures
        group_size(items, g, n) <= n,
    decreases n,
{
    if n > 0 {
        lemma_group_size_bound(items, g, n - 1);
    }
}

/// A whole assignment keeps the lengths of the clips.
proof fn lemma_with_groups_fit(lengths: Seq<LenV>, placed: Seq<usize>)
    requires
        lengths_fit(lengths),
        placed.len() == lengths.len(),
    ensures
        lengths_fit(with_groups(lengths, placed)),
        same_lengths(with_groups(lengths, placed), lengths),
{
    lemma_with_groups_total(lengths, placed, lengths.len() as int);
}

/// The state after clip `placed.len()` is placed in group `to`.
proof fn lemma_placed_state(
    lengths: Seq<LenV>,
    placed: Seq<usize>,
    sums: Seq<i64>,
    sizes: Seq<usize>,
    to: usize,
)
    requires
        lengths_fit(lengths),
        search_state(lengths, placed, sums, sizes),
        placed.len() < lengths.len() <= usize::MAX,
        to < sums.len(),
    ensures
        sums[to as int] + lengths[placed.len() as int].inner <= i64::MAX,
        sizes[to as int] + 1 <= usize::MAX,
        search_state(
            lengths,
            placed.push(to),
            sums.update(to as int, (sums[to as int] + lengths[placed.len() as int].inner) as i64),
            sizes.update(to as int, (sizes[to as int] + 1) as usize),
        ),
{
    let n = placed.len() as int;
    let after = with_groups(lengths, placed.push(to));
    assert(after[n].group == to && after[n].inner == lengths[n].inner);
    assert forall|i: int| 0 <= i < after.len() implies (#[trigger] after[i]).inner >= 0 by {
        assert(lengths[i].inner >= 0);
    }
    lemma_group_sum_bounds(after, to as int, n + 1);
    lemma_with_groups_total(lengths, placed.push(to), n + 1);
    lemma_group_sum_bounds(lengths, 0, n + 1);
    lemma_group_size_bound(after, to as int, n + 1);
    assert forall|g: int| 0 <= g < sums.len() implies group_sum(after, g, n + 1) == (if g == to {
        sums[g] + lengths[n].inner
    } else {
        sums[g] as int
    }) && group_size(after, g, n + 1) == (if g == to {
        sizes[g] + 1
    } else {
        sizes[g] as int
    }) by {
        lemma_place(lengths, placed, to, g, n);
    }
    assert(placed.push(to).len() == n + 1);
}

/// What a whole assignment that lies `off` from the target makes of the
/// best so far: it takes its place where it lies nearer to the target, and
/// leaves it as it is otherwise.
pub open spec fn leaf_kept(
    off: int,
    placed: Seq<usize>,
    best: Option<Vec<usize>>,
    best_deviation: i128,
    new_best: Option<Vec<usize>>,
    new_deviation: i128,
) -> bool {
    if off < best_deviation {
        &&& new_deviation == off
        &&& new_best matches Some(kept) && kept@ == placed
    } else {
        &&& new_deviation == best_deviation
        &&& new_best == best
    }
}

/// Exhaustive search for an assignment of the clips from `index` on, given
/// the groups of those before, such that every group total ends within
/// `max_deviation` of the target. A clip is tried group by group in index
/// order, in each group that it does not lift above the target by more than
/// `max_deviation`; once it has been tried in a group that is empty, the
/// groups behind need no try. The search gives up when the time limit has
/// passed. On success `placed` holds the whole assignment; otherwise the
/// state is as before. Every whole assignment that is met is compared with
/// the best so far.
pub fn backtrack(
    vec: &Vec<LenV>,
    index: usize,
    current_sums: &mut Vec<i64>,
    sizes: &mut Vec<usize>,
    placed: &mut Vec<usize>,
    target_sum: i64,
    max_deviation: i64,
    start_time: &Instant,
    time_limit: u64,
    best_solution: &mut Option<Vec<usize>>,
    best_deviation: &mut i128,
) -> (found: bool)
    requires
        lengths_fit(vec@),
        index == old(placed)@.len(),
        search_state(vec@, old(placed)@, old(current_sums)@, old(sizes)@),
        old(current_sums)@.len() > 0,
        0 <= target_sum,
        0 <= max_deviation,
        best_kept(
            vec@,
            old(current_sums)@.len() as int,
            target_sum as int,
            *old(best_solution),
            *old(best_deviation),
        ),
    ensures
        search_state(vec@, final(placed)@, final(current_sums)@, final(sizes)@),
        final(current_sums)@.len() == old(current_sums)@.len(),
        best_kept(
            vec@,
            old(current_sums)@.len() as int,
            target_sum as int,
            *final(best_solution),
            *final(best_deviation),
        ),
        *final(best_deviation) <= *old(best_deviation),
        found ==> {
            &&& final(placed)@.len() == vec@.len()
            &&& final(placed)@.take(index as int) == old(placed)@
            &&& within_bound(
                with_groups(vec@, final(placed)@),
                old(current_sums)@.len() as int,
                target_sum as int,
                max_deviation as int,
            )
        },
        !found ==> {
            &&& final(placed)@ == old(placed)@
            &&& final(current_sums)@ == old(current_sums)@
            &&& final(sizes)@ == old(sizes)@
        },
    decreases vec@.len() - index, 1int,
{
    let elapsed = elapsed_nanos(start_time);
    search_node(
        vec,
        index,
        current_sums,
        sizes,
        placed,
        target_sum,
        max_deviation,
        start_time,
        time_limit,
        elapsed,
        best_solution,
        best_deviation,
    )
}

/// One node of the search, reached `elapsed` nanoseconds after the start
/// of the attempt. Where the time limit has passed, the node gives up:
/// nothing is found and nothing changes. Otherwise, where every clip is
/// placed, the assignment is compared with the best so far and is found
/// exactly if every group total lies within `max_deviation` of the target;
/// where clips are left, the next clip is tried group by group, as
/// `backtrack` says.
pub fn search_node(
    vec: &Vec<LenV>,
    index: usize,
    current_sums: &mut Vec<i64>,
    sizes: &mut Vec<usize>,
    placed: &mut Vec<usize>,
    target_sum: i64,
    max_deviation: i64,
    start_time: &Instant,
    time_limit: u64,
    elapsed: u128,
    best_solution: &mut Option<Vec<usize>>,
    best_deviation: &mut i128,
) -> (found: bool)
    requires
        lengths_fit(vec@),
        index == old(placed)@.len(),
        search_state(vec@, old(placed)@, old(current_sums)@, old(sizes)@),
        old(current_sums)@.len() > 0,
        0 <= target_sum,
        0 <= max_deviation,
        best_kept(
            vec@,
            old(current_sums)@.len() as int,
            target_sum as int,
            *old(best_solution),
            *old(best_deviation),
        ),
    ensures
        search_state(vec@, final(placed)@, final(current_sums)@, final(sizes)@),
        final(current_sums)@.len() == old(current_sums)@.len(),
        best_kept(
            vec@,
            old(current_sums)@.len() as int,
            target_sum as int,
            *final(best_solution),
            *final(best_deviation),
        ),
        *final(best_deviation) <= *old(best_deviation),
        found ==> {
            &&& final(placed)@.len() == vec@.len()
            &&& final(placed)@.take(index as int) == old(placed)@
            &&& within_bound(
                with_groups(vec@, final(placed)@),
                old(current_sums)@.len() as int,
                target_sum as int,
                max_deviation as int,
            )
        },
        !found ==> {
            &&& final(placed)@ == old(placed)@
            &&& final(current_sums)@ == old(current_sums)@
            &&& final(sizes)@ == old(sizes)@
        },
        past_limit(elapsed, time_limit) ==> {
            &&& !found
            &&& *final(best_solution) == *old(best_solution)
            &&& *final(best_deviation) == *old(best_deviation)
        },
        !past_limit(elapsed, time_limit) && index == vec@.len() ==> {
            &&& found == within_bound(
                with_groups(vec@, old(placed)@),
                old(current_sums)@.len() as int,
                target_sum as int,
                max_deviation as int,
            )
            &&& final(placed)@ == old(placed)@
            &&& final(current_sums)@ == old(current_sums)@
            &&& final(sizes)@ == old(sizes)@
            &&& leaf_kept(
                total_off_target(
                    with_groups(vec@, old(placed)@),
                    target_sum as int,
                    old(current_sums)@.len() as int,
                ),
                old(placed)@,
                *old(best_solution),
                *old(best_deviation),
                *final(best_solution),
                *final(best_deviation),
            )
        },
    decreases vec@.len() - index, 0int,
{
    if time_is_up(elapsed, time_limit) {
        return false;
    }
    let groups = current_sums.len();
    if index == vec.len() {
        let ghost items = with_groups(vec@, placed@);
        proof {
            lemma_with_groups_fit(vec@, placed@);
        }
        let current_deviation = sum_off_target(current_sums, target_sum, Ghost(items));
        if current_deviation < *best_deviation {
            *best_deviation = current_deviation;
            let kept = placed.clone();
            assert(kept@ =~= placed@);
            *best_solution = Some(kept);
        }
        assert(placed@.take(index as int) =~= placed@);
        return all_within(current_sums, target_sum, max_deviation, Ghost(items));
    }
    let len = vec[index].inner;
    let mut i: usize = 0;
    while i < groups
        invariant
            i <= groups,
            groups == current_sums@.len(),
            groups > 0,
            index < vec@.len() <= usize::MAX,
            index == placed@.len(),
            !past_limit(elapsed, time_limit),
            len == vec@[index as int].inner,
            lengths_fit(vec@),
            0 <= target_sum,
            0 <= max_deviation,
            placed@ == old(placed)@,
            current_sums@ == old(current_sums)@,
            sizes@ == old(sizes)@,
            search_state(vec@, placed@, current_sums@, sizes@),
            best_kept(vec@, groups as int, target_sum as int, *best_solution, *best_deviation),
            *best_deviation <= *old(best_deviation),
        decreases groups - i,
    {
        if current_sums[i] as i128 + len as i128 <= target_sum as i128 + max_deviation as i128 {
            proof {
                lemma_placed_state(vec@, placed@, current_sums@, sizes@, i);
            }
            let ghost before = placed@;
            let sum = current_sums[i];
            let size = sizes[i];
            placed.push(i);
            current_sums.set(i, sum + len);
            sizes.set(i, size + 1);
            if backtrack(
                vec,
                index + 1,
                current_sums,
                sizes,
                placed,
                target_sum,
                max_deviation,
                start_time,
                time_limit,
                best_solution,
                best_deviation,
            ) {
                assert(placed@.take(index as int) =~= placed@.take(index as int + 1).take(
                    index as int,
                ));
                return true;
            }
            placed.pop();
            current_sums.set(i, sum);
            sizes.set(i, size);
            assert(placed@ =~= before);
            assert(current_sums@ =~= old(current_sums)@);
            assert(sizes@ =~= old(sizes)@);
        }
        if sizes[i] == 0 {
            break ;
        }
        i += 1;
    }
    false
}

/// Length of the first `k` clips that `list` names, together.
pub open spec fn list_total(list: Seq<usize>, items: Seq<LenV>, k: int) -> int
    decreases k,
{
    if k <= 0 {
        0
    } else {
        list_total(list, items, k - 1) + items[list[k - 1] as int].inner
    }
}

/// The lists name every clip below `n` exactly once: no entry is out of
/// range, no clip stands at two places, and none is left out.
pub open spec fn splits(lists: Seq<Seq<usize>>, n: int) -> bool {
    &&& forall|g: int, k: int|
        0 <= g < lists.len() && 0 <= k < lists[g].len() ==> (#[trigger] lists[g][k]) < n
    &&& forall|g: int, k: int, h: int, l: int|
        0 <= g < lists.len() && 0 <= k < lists[g].len() && 0 <= h < lists.len() && 0 <= l
            < lists[h].len() && (g != h || k != l) ==> (#[trigger] lists[g][k])
            != (#[trigger] lists[h][l])
    &&& forall|i: int| 0 <= i < n ==> #[trigger] names(lists, i)
}

/// Some list names clip `i`.
pub open spec fn names(lists: Seq<Seq<usize>>, i: int) -> bool {
    exists|g: int, k: int|
        0 <= g < lists.len() && 0 <= k < lists[g].len() && (#[trigger] lists[g][k]) == i
}

/// List `g` names the clips of group `g`, in the order of `order`.
pub open spec fn lists_follow(
    lists: Seq<Seq<usize>>,
    order: Seq<usize>,
    items: Seq<LenV>,
    groups: int,
) -> bool {
    &&& lists.len() == groups
    &&& forall|g: int| 0 <= g < groups ==> (#[trigger] lists[g]) == members(order, items, g)
}

/// What the members of a group are: they come from the order, belong to the
/// group, stand there once, and none of the group is missing.
proof fn lemma_members(order: Seq<usize>, items: Seq<LenV>, g: int)
    ensures
        forall|k: int|
            0 <= k < members(order, items, g).len() ==> order.contains(
                #[trigger] members(order, items, g)[k],
            ) && items[members(order, items, g)[k] as int].group == g,
        order.no_duplicates() ==> members(order, items, g).no_duplicates(),
        forall|j: int|
            0 <= j < order.len() && items[order[j] as int].group == g ==> members(
                order,
                items,
                g,
            ).contains(#[trigger] order[j]),
    decreases order.len(),
{
    reveal_with_fuel(Seq::filter, 2);
    let all = members(order, items, g);
    if order.len() > 0 {
        let shorter = order.drop_last();
        let fewer = members(shorter, items, g);
        lemma_members(shorter, items, g);
        let last = order.last();
        assert forall|k: int| 0 <= k < all.len() implies order.contains(#[trigger] all[k])
            && items[all[k] as int].group == g by {
            if k < fewer.len() {
                assert(all[k] == fewer[k]);
                let w = choose|w: int| 0 <= w < shorter.len() && shorter[w] == fewer[k];
                assert(order[w] == all[k]);
            } else {
                assert(all[k] == last);
                assert(order[order.len() - 1] == last);
            }
        }
        if order.no_duplicates() {
            assert(shorter.no_duplicates());
            assert forall|i: int, j: int|
                0 <= i < all.len() && 0 <= j < all.len() && i != j implies all[i] != all[j] by {
                if i < fewer.len() && j < fewer.len() {
                    assert(all[i] == fewer[i] && all[j] == fewer[j]);
                } else {
                    let short = if i < fewer.len() {
                        i
                    } else {
                        j
                    };
                    assert(all[short] == fewer[short]);
                    let w = choose|w: int| 0 <= w < shorter.len() && shorter[w] == fewer[short];
                    assert(order[w] == fewer[short]);
                    assert(order[order.len() - 1] == last);
                }
            }
        }
        assert forall|j: int|
            0 <= j < order.len() && items[order[j] as int].group == g implies all.contains(
            #[trigger] order[j],
        ) by {
            if j < shorter.len() {
                assert(shorter[j] == order[j]);
                assert(fewer.contains(shorter[j]));
                let w = choose|w: int| 0 <= w < fewer.len() && fewer[w] == shorter[j];
                assert(all[w] == order[j]);
            } else {
                assert(all[all.len() - 1] == order[j]);
            }
        }
    }
}

/// What each clip adds to the total of group `g`: its length if it is in the
/// group, nothing otherwise.
pub open spec fn shares(items: Seq<LenV>, g: int) -> Seq<int> {
    Seq::new(
        items.len(),
        |i: int|
            if items[i].group == g {
                items[i].inner as int
            } else {
                0
            },
    )
}

proof fn lemma_members_total(order: Seq<usize>, items: Seq<LenV>, g: int, t: int)
    requires
        0 <= t <= order.len(),
        forall|k: int| 0 <= k < order.len() ==> (#[trigger] order[k]) < items.len(),
    ensures
        list_total(
            members(order.take(t), items, g),
            items,
            members(order.take(t), items, g).len() as int,
        ) == picked_sum(order, shares(items, g), t),
    decreases t,
{
    reveal_with_fuel(Seq::filter, 2);
    if t > 0 {
        lemma_members_total(order, items, g, t - 1);
        let longer = order.take(t);
        let shorter = order.take(t - 1);
        assert(longer.drop_last() =~= shorter);
        assert(longer.last() == order[t - 1]);
        let all = members(longer, items, g);
        let fewer = members(shorter, items, g);
        if items[order[t - 1] as int].group == g {
            assert(all == fewer.push(order[t - 1]));
            lemma_list_total_agree(all, fewer, items, fewer.len() as int);
        } else {
            assert(all == fewer);
        }
    } else {
        assert(order.take(0).len() == 0);
    }
}

proof fn lemma_list_total_agree(a: Seq<usize>, b: Seq<usize>, items: Seq<LenV>, k: int)
    requires
        0 <= k <= a.len(),
        k <= b.len(),
        forall|j: int| 0 <= j < k ==> a[j] == b[j],
    ensures
        list_total(a, items, k) == list_total(b, items, k),
    decreases k,
{
    if k > 0 {
        lemma_list_total_agree(a, b, items, k - 1);
    }
}

proof fn lemma_shares_total(items: Seq<LenV>, g: int, n: int)
    requires
        0 <= n <= items.len(),
    ensures
        plain_total(shares(items, g), n) == group_sum(items, g, n),
    decreases n,
{
    if n > 0 {
        lemma_shares_total(items, g, n - 1);
    }
}

/// A group with a positive total holds a clip.
proof fn lemma_positive_occupied(items: Seq<LenV>, g: int, n: int)
    requires
        0 <= n <= items.len(),
        group_sum(items, g, n) > 0,
    ensures
        occupied(items, g),
    decreases n,
{
    if n > 0 {
        if items[n - 1].group == g {
        } else {
            lemma_positive_occupied(items, g, n - 1);
        }
    }
}

/// Lists that follow an assignment along an order of all clips lose no clip
/// and hold none twice; each list's clips are as long together as the
/// group's total; and the list of a group that holds a clip is not empty.
pub proof fn lemma_lists(lists: Seq<Seq<usize>>, order: Seq<usize>, items: Seq<LenV>, groups: int)
    requires
        is_order(order, items.len() as int),
        items.len() <= usize::MAX,
        groups_below(items, groups),
        lists_follow(lists, order, items, groups),
    ensures
        splits(lists, items.len() as int),
        forall|g: int|
            0 <= g < groups ==> list_total(#[trigger] lists[g], items, lists[g].len() as int)
                == group_sum(items, g, items.len() as int),
        forall|g: int, k: int|
            0 <= g < groups && 0 <= k < lists[g].len() ==> items[(#[trigger] lists[g][k]) as int].group
                == g,
        forall|g: int| 0 <= g < groups && occupied(items, g) ==> (#[trigger] lists[g]).len() > 0,
{
    let n = items.len() as int;
    assert forall|g: int| 0 <= g < groups implies list_total(
        #[trigger] lists[g],
        items,
        lists[g].len() as int,
    ) == group_sum(items, g, n) by {
        lemma_members_total(order, items, g, n);
        assert(order.take(n) =~= order);
        lemma_order_sum(order, shares(items, g), n);
        lemma_shares_total(items, g, n);
    }
    assert forall|g: int, k: int| 0 <= g < groups && 0 <= k < lists[g].len() implies items[(
    #[trigger] lists[g][k]) as int].group == g && lists[g][k] < n by {
        lemma_members(order, items, g);
        let w = choose|w: int| 0 <= w < order.len() && order[w] == lists[g][k];
        assert(order[w] < n);
    }
    assert forall|g: int, k: int, h: int, l: int|
        0 <= g < lists.len() && 0 <= k < lists[g].len() && 0 <= h < lists.len() && 0 <= l
            < lists[h].len() && (g != h || k != l) implies (#[trigger] lists[g][k])
        != (#[trigger] lists[h][l]) by {
        lemma_members(order, items, g);
        lemma_members(order, items, h);
    }
    assert forall|i: int| 0 <= i < n implies #[trigger] names(lists, i) by {
        let g = items[i].group as int;
        lemma_order_covers(order, n, i);
        let j = choose|j: int| 0 <= j < n && order[j] == i;
        lemma_members(order, items, g);
        assert(lists[g].contains(order[j]));
        let k = choose|k: int| 0 <= k < lists[g].len() && lists[g][k] == order[j];
        assert(lists[g][k] == i);
    }
    assert forall|g: int| 0 <= g < groups && occupied(items, g) implies (#[trigger] lists[g]).len()
        > 0 by {
        let i = choose|i: int| 0 <= i < items.len() && (#[trigger] items[i]).group == g;
        lemma_order_covers(order, n, i);
        let j = choose|j: int| 0 <= j < n && order[j] == i;
        lemma_members(order, items, g);
        assert(lists[g].contains(order[j]));
    }
}

/// What a partition search ends with.
#[derive(Debug)]
pub enum PartitionSearch {
    /// An assignment whose group totals all lie within the bound of the
    /// target: the group of each clip.
    Within(Vec<usize>),
    /// No such assignment was found in time. The whole assignment closest
    /// to the target that the search met, if it met any.
    Best(Option<Vec<usize>>),
}

/// The total that every group would have if the clips could be cut: the
/// length of all clips divided by the number of groups.
pub open spec fn target_of(items: Seq<LenV>, groups: int) -> int {
    total_length(items, items.len() as int) / groups
}

/// The widest deviation from the target that the search accepts: nine
/// hundredths of the target.
pub open spec fn widest_bound(target: int) -> int {
    9 * (target / 100)
}

/// The deviation from the target that attempt `attempt` of the search
/// accepts: as many hundredths of the target as the attempt has for its
/// number.
pub open spec fn attempt_bound(target: int, attempt: int) -> int {
    attempt * (target / 100)
}

/// The length of all clips together.
pub fn total_of(vec: &Vec<LenV>) -> (total: i64)
    requires
        lengths_fit(vec@),
    ensures
        total == total_length(vec@, vec@.len() as int),
        total >= 0,
{
    let mut total: i64 = 0;
    let mut i: usize = 0;
    while i < vec.len()
        invariant
            i <= vec@.len(),
            lengths_fit(vec@),
            total == total_length(vec@, i as int),
            total >= 0,
        decreases vec@.len() - i,
    {
        proof {
            lemma_group_sum_bounds(vec@, 0, i as int + 1);
        }
        total = total + vec[i].inner;
        i += 1;
    }
    total
}

/// A vector of `n` zeros.
fn zeros(n: usize) -> (v: Vec<i64>)
    ensures
        v@.len() == n,
        forall|i: int| 0 <= i < n ==> v@[i] == 0,
{
    let mut v: Vec<i64> = Vec::new();
    let mut i: usize = 0;
    while i < n
        invariant
            i <= n,
            v@.len() == i,
            forall|k: int| 0 <= k < i ==> v@[k] == 0,
        decreases n - i,
    {
        v.push(0);
        i += 1;
    }
    v
}

/// A vector of `n` zero counts.
fn no_sizes(n: usize) -> (v: Vec<usize>)
    ensures
        v@.len() == n,
        forall|i: int| 0 <= i < n ==> v@[i] == 0,
{
    let mut v: Vec<usize> = Vec::new();
    let mut i: usize = 0;
    while i < n
        invariant
            i <= n,
            v@.len() == i,
            forall|k: int| 0 <= k < i ==> v@[k] == 0,
        decreases n - i,
    {
        v.push(0);
        i += 1;
    }
    v
}

/// Searches for an assignment of the clips to `group_count` groups whose
/// totals all lie near the target. Nine attempts are made; attempt `a`
/// accepts a deviation of `a` hundredths of the target and gives up after
/// `time_limit` less `a` seconds.
pub fn partition_into_groups(vec: &Vec<LenV>, group_count: usize, time_limit: u64) -> (found:
    PartitionSearch)
    requires
        lengths_fit(vec@),
        group_count > 0,
    ensures
        match found {
            PartitionSearch::Within(a) => {
                &&& a@.len() == vec@.len()
                &&& groups_below(with_groups(vec@, a@), group_count as int)
                &&& exists|attempt: int|
                    1 <= attempt <= 9 && within_bound(
                        with_groups(vec@, a@),
                        group_count as int,
                        target_of(vec@, group_count as int),
                        #[trigger] attempt_bound(target_of(vec@, group_count as int), attempt),
                    )
                &&& within_bound(
                    with_groups(vec@, a@),
                    group_count as int,
                    target_of(vec@, group_count as int),
                    widest_bound(target_of(vec@, group_count as int)),
                )
            },
            PartitionSearch::Best(best) => best matches Some(a) ==> {
                &&& a@.len() == vec@.len()
                &&& groups_below(with_groups(vec@, a@), group_count as int)
            },
        },
{
    let total_sum = total_of(vec);
    let target_sum: i64 = (total_sum as i128 / group_count as i128) as i64;
    let deviation_mul: i64 = target_sum / 100;
    let mut best_solution: Option<Vec<usize>> = None;
    let mut best_deviation: i128 = i128::MAX;
    let mut attempt: i64 = 1;
    while attempt < 10
        invariant
            1 <= attempt <= 10,
            lengths_fit(vec@),
            group_count > 0,
            target_sum == target_of(vec@, group_count as int),
            0 <= target_sum,
            deviation_mul == target_sum / 100,
            best_kept(vec@, group_count as int, target_sum as int, best_solution, best_deviation),
        decreases 10 - attempt,
    {
        let limit = time_limit.saturating_sub(attempt as u64);
        let start_time = now();
        assert(0 <= attempt * deviation_mul <= 9 * deviation_mul) by (nonlinear_arith)
            requires
                1 <= attempt <= 9,
                0 <= deviation_mul,
        ;
        let current_max_deviation: i64 = attempt * deviation_mul;
        let mut placed: Vec<usize> = Vec::new();
        let mut current_sums = zeros(group_count);
        let mut sizes = no_sizes(group_count);
        if backtrack(
            vec,
            0,
            &mut current_sums,
            &mut sizes,
            &mut placed,
            target_sum,
            current_max_deviation,
            &start_time,
            limit,
            &mut best_solution,
            &mut best_deviation,
        ) {
            proof {
                let items = with_groups(vec@, placed@);
                assert(groups_below(items, group_count as int));
                assert(current_max_deviation == attempt_bound(target_sum as int, attempt as int));
            }
            return PartitionSearch::Within(placed);
        }
        attempt += 1;
    }
    PartitionSearch::Best(best_solution)
}

/// What the search-based regrouping ends with.
#[derive(Debug)]
pub enum ReGroupStatus {
    /// The clips, each with the group that the search gave it.
    Complete(Vec<LenV>),
    /// The search found no assignment near enough to the target; the clips
    /// as they were.
    Error(Vec<LenV>),
}

/// Regroups by partition search, with a time limit of ten seconds for the
/// first attempt.
pub fn generalized_regrouper(items: Vec<LenV>, group_count: usize) -> (status: ReGroupStatus)
    requires
        lengths_fit(items@),
        group_count > 0,
    ensures
        match status {
            ReGroupStatus::Complete(assigned) => {
                &&& same_lengths(assigned@, items@)
                &&& groups_below(assigned@, group_count as int)
                &&& within_bound(
                    assigned@,
                    group_count as int,
                    target_of(items@, group_count as int),
                    widest_bound(target_of(items@, group_count as int)),
                )
            },
            ReGroupStatus::Error(left) => left@ == items@,
        },
{
    match partition_into_groups(&items, group_count, 10) {
        PartitionSearch::Within(placed) => {
            let mut assigned = items;
            let mut i: usize = 0;
            while i < assigned.len()
                invariant
                    i <= assigned@.len(),
                    assigned@.len() == items@.len(),
                    placed@.len() == items@.len(),
                    forall|k: int|
                        0 <= k < i ==> (#[trigger] assigned@[k]) == with_groups(items@, placed@)[k],
                    forall|k: int| i <= k < assigned@.len() ==> (#[trigger] assigned@[k]) == items@[k],
                decreases assigned@.len() - i,
            {
                let inner = assigned[i].inner;
                assigned.set(i, LenV { group: placed[i], inner });
                i += 1;
            }
            assert(assigned@ =~= with_groups(items@, placed@));
            ReGroupStatus::Complete(assigned)
        },
        PartitionSearch::Best(_) => ReGroupStatus::Error(items),
    }
}

/// The clips dealt out to the groups in turn: clip `i` to group `i` modulo
/// the number of groups.
pub open spec fn round_robin(items: Seq<LenV>, groups: int) -> Seq<LenV> {
    Seq::new(items.len(), |i: int| LenV { group: (i % groups) as usize, inner: items[i].inner })
}

/// The lists agree with the assignment: there is one list for each group,
/// the lists name every clip exactly once, each clip in the list of its
/// group, and the clips of a list are as long together as the group's total.
pub open spec fn grouping(lists: Seq<Seq<usize>>, items: Seq<LenV>, groups: int) -> bool {
    &&& lists.len() == groups
    &&& splits(lists, items.len() as int)
    &&& forall|g: int, k: int|
        0 <= g < groups && 0 <= k < lists[g].len() ==> items[(#[trigger] lists[g][k]) as int].group
            == g
    &&& forall|g: int|
        0 <= g < groups ==> list_total(#[trigger] lists[g], items, lists[g].len() as int)
            == group_sum(items, g, items.len() as int)
}

/// Every list names its clips from the longest to the shortest.
pub open spec fn lists_longest_first(lists: Seq<Seq<usize>>, items: Seq<LenV>) -> bool {
    forall|g: int, k: int, l: int|
        0 <= g < lists.len() && 0 <= k <= l < lists[g].len() ==> items[(
        #[trigger] lists[g][k]) as int].inner >= items[(#[trigger] lists[g][l]) as int].inner
}

/// Every list names its clips by rising index.
pub open spec fn lists_by_index(lists: Seq<Seq<usize>>) -> bool {
    forall|g: int, k: int, l: int|
        0 <= g < lists.len() && 0 <= k < l < lists[g].len() ==> (#[trigger] lists[g][k]) < (
        #[trigger] lists[g][l])
}

/// The members of a group stand in the order in which `order` names them:
/// longest first where `order` is, by rising index where `order` is.
proof fn lemma_members_order(order: Seq<usize>, items: Seq<LenV>, g: int)
    requires
        forall|k: int| 0 <= k < order.len() ==> (#[trigger] order[k]) < items.len(),
    ensures
        longest_first(order, items) ==> longest_first(members(order, items, g), items),
        (forall|a: int, b: int| 0 <= a < b < order.len() ==> order[a] < order[b]) ==> (forall|
            k: int,
            l: int,
        |
            0 <= k < l < members(order, items, g).len() ==> (#[trigger] members(order, items, g)[k])
                < (#[trigger] members(order, items, g)[l])),
    decreases order.len(),
{
    reveal_with_fuel(Seq::filter, 2);
    let all = members(order, items, g);
    if order.len() > 0 {
        let shorter = order.drop_last();
        let fewer = members(shorter, items, g);
        lemma_members_order(shorter, items, g);
        lemma_members(shorter, items, g);
        let last = order.last();
        if longest_first(order, items) {
            assert(longest_first(shorter, items)) by {
                assert forall|a: int, b: int| 0 <= a <= b < shorter.len() implies items[(
                #[trigger] shorter[a]) as int].inner >= items[(#[trigger] shorter[b]) as int].inner by {
                    assert(shorter[a] == order[a] && shorter[b] == order[b]);
                }
            }
            assert forall|k: int, l: int| 0 <= k <= l < all.len() implies items[(
            #[trigger] all[k]) as int].inner >= items[(#[trigger] all[l]) as int].inner by {
                if l < fewer.len() {
                    assert(all[k] == fewer[k] && all[l] == fewer[l]);
                } else if k < fewer.len() {
                    assert(all[k] == fewer[k]);
                    let w = choose|w: int| 0 <= w < shorter.len() && shorter[w] == fewer[k];
                    assert(order[w] == all[k]);
                    assert(order[order.len() - 1] == all[l]);
                }
            }
        }
        if forall|a: int, b: int| 0 <= a < b < order.len() ==> order[a] < order[b] {
            assert forall|a: int, b: int| 0 <= a < b < shorter.len() implies shorter[a]
                < shorter[b] by {
                assert(shorter[a] == order[a] && shorter[b] == order[b]);
            }
            assert forall|k: int, l: int| 0 <= k < l < all.len() implies (#[trigger] all[k]) < (
            #[trigger] all[l]) by {
                if l < fewer.len() {
                    assert(all[k] == fewer[k] && all[l] == fewer[l]);
                } else {
                    assert(all[k] == fewer[k]);
                    let w = choose|w: int| 0 <= w < shorter.len() && shorter[w] == fewer[k];
                    assert(order[w] == all[k]);
                    assert(order[order.len() - 1] == all[l]);
                }
            }
        }
    }
}

/// The deep view of the lists names the views of the lists.
proof fn lemma_lists_view(lists: Vec<Vec<usize>>)
    ensures
        lists.deep_view().len() == lists@.len(),
        forall|g: int| 0 <= g < lists@.len() ==> (#[trigger] lists.deep_view()[g]) == lists@[g]@,
{
    assert forall|g: int| 0 <= g < lists@.len() implies (#[trigger] lists.deep_view()[g])
        == lists@[g]@ by {
        assert(lists@[g].deep_view() =~= lists@[g]@);
    }
}

/// The lists of the groups of an assignment, along `order`.
fn lists_along(v_list: &Vec<LenV>, order: &Vec<usize>, groups: usize) -> (lists: Vec<Vec<usize>>)
    requires
        groups_below(v_list@, groups as int),
        is_order(order@, v_list@.len() as int),
    ensures
        lists_follow(lists.deep_view(), order@, v_list@, groups as int),
        grouping(lists.deep_view(), v_list@, groups as int),
        forall|g: int|
            0 <= g < groups && occupied(v_list@, g) ==> (#[trigger] lists.deep_view()[g]).len() > 0,
{
    let lists = collect_groups(v_list, order, groups);
    proof {
        assert(v_list@.len() == v_list.len());
        lemma_lists_view(lists);
        lemma_lists(lists.deep_view(), order@, v_list@, groups as int);
    }
    lists
}

/// `assigned` and `lists` are what dealing out and migrating makes of the
/// clips: along some order of the clips from the longest to the shortest,
/// the clips dealt out in turn have migrated for at most 256 rounds, and
/// each list names the clips of its group in that order.
pub open spec fn dealt_and_migrated(
    items: Seq<LenV>,
    groups: int,
    assigned: Seq<LenV>,
    lists: Seq<Seq<usize>>,
) -> bool {
    exists|order: Seq<usize>|
        {
            &&& #[trigger] is_order(order, items.len() as int)
            &&& longest_first(order, assigned)
            &&& assigned == migrated(round_robin(items, groups), order, groups, 256)
            &&& lists_follow(lists, order, assigned, groups)
        }
}

/// Regroups by dealing the clips out in turn and then migrating clips from
/// the group with the largest total to the group with the smallest. Gives
/// the clips with their groups, and the list of each group, its clips from
/// the longest to the shortest.
pub fn video_regroup(v_list: Vec<LenV>, groups: usize) -> (out: (Vec<LenV>, Vec<Vec<usize>>))
    requires
        lengths_fit(v_list@),
        groups > 0,
    ensures
        same_lengths(out.0@, v_list@),
        groups_below(out.0@, groups as int),
        grouping(out.1.deep_view(), out.0@, groups as int),
        lists_longest_first(out.1.deep_view(), out.0@),
        dealt_and_migrated(v_list@, groups as int, out.0@, out.1.deep_view()),
        deviation(out.0@, groups as int) <= deviation(
            round_robin(v_list@, groups as int),
            groups as int,
        ),
        groups <= v_list@.len() ==> forall|g: int|
            0 <= g < groups ==> (#[trigger] out.1.deep_view()[g]).len() > 0,
{
    let mut dealt = v_list;
    let mut i: usize = 0;
    while i < dealt.len()
        invariant
            i <= dealt@.len(),
            groups > 0,
            dealt@.len() == v_list@.len(),
            forall|k: int|
                0 <= k < i ==> (#[trigger] dealt@[k]) == round_robin(v_list@, groups as int)[k],
            forall|k: int| i <= k < dealt@.len() ==> (#[trigger] dealt@[k]) == v_list@[k],
        decreases dealt@.len() - i,
    {
        let inner = dealt[i].inner;
        dealt.set(i, LenV { group: i % groups, inner });
        i += 1;
    }
    proof {
        assert(dealt@ =~= round_robin(v_list@, groups as int));
        lemma_same_total(dealt@, v_list@, v_list@.len() as int);
        assert(groups_below(dealt@, groups as int));
        assert forall|g: int| 0 <= g < groups && groups <= v_list@.len() implies occupied(
            dealt@,
            g,
        ) by {
            assert(g % (groups as int) == g) by (nonlinear_arith)
                requires
                    0 <= g < groups,
            ;
            assert(dealt@[g].group == g);
        }
    }
    let ghost dealt_view = dealt@;
    let (moved, order) = group_move(dealt, groups);
    let lists = lists_along(&moved, &order, groups);
    proof {
        assert(is_order(order@, v_list@.len() as int));
        assert(dealt_and_migrated(v_list@, groups as int, moved@, lists.deep_view()));
        assert forall|g: int, k: int, l: int|
            0 <= g < lists.deep_view().len() && 0 <= k <= l < lists.deep_view()[g].len() implies moved@[(
        #[trigger] lists.deep_view()[g][k]) as int].inner >= moved@[(
        #[trigger] lists.deep_view()[g][l]) as int].inner by {
            lemma_members_order(order@, moved@, g);
        }
        assert forall|g: int| 0 <= g < groups && groups <= v_list@.len() implies (
        #[trigger] lists.deep_view()[g]).len() > 0 by {
            assert(occupied(dealt_view, g));
        }
    }
    (moved, lists)
}

/// The assignment is balanced: every group total lies within nine
/// hundredths of the target, or the average deviation is no larger than that
/// of dealing the clips out in turn.
pub open spec fn balanced(before: Seq<LenV>, after: Seq<LenV>, groups: int) -> bool {
    ||| within_bound(
        after,
        groups,
        target_of(before, groups),
        widest_bound(target_of(before, groups)),
    )
    ||| deviation(after, groups) <= deviation(round_robin(before, groups), groups)
}

proof fn lemma_sum_below_zero(items: Seq<LenV>, n: int, k: int)
    requires
        0 <= k,
        forall|g: int| 0 <= g < k ==> group_sum(items, g, n) == 0,
    ensures
        sum_below(items, n, k) == 0,
    decreases k,
{
    if k > 0 {
        lemma_sum_below_zero(items, n, k - 1);
    }
}

/// Where every group total lies within nine hundredths of the target and
/// the clips are not all of length zero, every group holds a clip.
proof fn lemma_within_occupied(before: Seq<LenV>, after: Seq<LenV>, groups: int)
    requires
        lengths_fit(before),
        same_lengths(after, before),
        groups_below(after, groups),
        groups > 0,
        total_length(before, before.len() as int) > 0,
        within_bound(
            after,
            groups,
            target_of(before, groups),
            widest_bound(target_of(before, groups)),
        ),
    ensures
        forall|g: int| 0 <= g < groups ==> occupied(after, g),
{
    let n = before.len() as int;
    let total = total_length(before, n);
    let target = target_of(before, groups);
    lemma_same_total(after, before, n);
    assert(0 <= target <= total) by (nonlinear_arith)
        requires
            total > 0,
            groups > 0,
            target == total / groups,
    ;
    if target == 0 {
        assert forall|g: int| 0 <= g < groups implies group_sum(after, g, n) == 0 by {
            lemma_group_sum_bounds(after, g, n);
            assert(off_target(group_sum(after, g, n), target) <= widest_bound(target));
        }
        lemma_sum_below_zero(after, n, groups);
        lemma_sums_add_up(after, n, groups);
    } else {
        assert forall|g: int| 0 <= g < groups implies occupied(after, g) by {
            assert(off_target(group_sum(after, g, n), target) <= widest_bound(target));
            lemma_positive_occupied(after, g, n);
        }
    }
}

/// The two ways to a regrouping: a search has found an assignment whose
/// group totals all lie within nine hundredths of the target, and each list
/// names the clips of its group by rising index; or the clips were dealt
/// out and have migrated.
pub open spec fn searched_or_migrated(
    items: Seq<LenV>,
    groups: int,
    assigned: Seq<LenV>,
    lists: Seq<Seq<usize>>,
) -> bool {
    ||| {
        &&& within_bound(
            assigned,
            groups,
            target_of(items, groups),
            widest_bound(target_of(items, groups)),
        )
        &&& lists_follow(lists, identity(items.len()), assigned, groups)
    }
    ||| dealt_and_migrated(items, groups, assigned, lists)
}

/// Splits the clips into `group_count` groups of nearly equal total length:
/// by partition search where that finds an assignment near the target in
/// time, by dealing out and migrating otherwise. Clips that have no length
/// together are dealt out without a search. Gives the clips with their
/// groups, and the list of each group; every group holds a clip.
pub fn regroup(items: Vec<LenV>, group_count: usize) -> (out: (Vec<LenV>, Vec<Vec<usize>>))
    requires
        lengths_fit(items@),
        0 < group_count <= items@.len(),
    ensures
        same_lengths(out.0@, items@),
        groups_below(out.0@, group_count as int),
        grouping(out.1.deep_view(), out.0@, group_count as int),
        balanced(items@, out.0@, group_count as int),
        searched_or_migrated(items@, group_count as int, out.0@, out.1.deep_view()),
        lists_longest_first(out.1.deep_view(), out.0@) || lists_by_index(out.1.deep_view()),
        forall|g: int| 0 <= g < group_count ==> (#[trigger] out.1.deep_view()[g]).len() > 0,
{
    if total_of(&items) == 0 {
        return video_regroup(items, group_count);
    }
    match generalized_regrouper(items, group_count) {
        ReGroupStatus::Complete(assigned) => {
            let order = identity_order(assigned.len());
            let lists = lists_along(&assigned, &order, group_count);
            proof {
                assert forall|g: int, k: int, l: int|
                    0 <= g < lists.deep_view().len() && 0 <= k < l
                        < lists.deep_view()[g].len() implies (#[trigger] lists.deep_view()[g][k]) < (
                #[trigger] lists.deep_view()[g][l]) by {
                    lemma_members_order(order@, assigned@, g);
                }
                lemma_within_occupied(items@, assigned@, group_count as int);
            }
            (assigned, lists)
        },
        ReGroupStatus::Error(left) => video_regroup(left, group_count),
    }
}

/// Length of the clips of the first `k` lists together.
pub open spec fn lists_total(lists: Seq<Seq<usize>>, items: Seq<LenV>, k: int) -> int
    decreases k,
{
    if k <= 0 {
        0
    } else {
        lists_total(lists, items, k - 1) + list_total(
            lists[k - 1],
            items,
            lists[k - 1].len() as int,
        )
    }
}

proof fn lemma_lists_total(lists: Seq<Seq<usize>>, items: Seq<LenV>, groups: int, k: int)
    requires
        grouping(lists, items, groups),
        0 <= k <= groups,
    ensures
        lists_total(lists, items, k) == sum_below(items, items.len() as int, k),
    decreases k,
{
    if k > 0 {
        lemma_lists_total(lists, items, groups, k - 1);
    }
}

proof fn lemma_total_at_most(items: Seq<LenV>, longest: int, n: int)
    requires
        0 <= n <= items.len(),
        forall|i: int| 0 <= i < items.len() ==> (#[trigger] items[i]).inner <= longest,
    ensures
        total_length(items, n) <= n * longest,
    decreases n,
{
    if n > 0 {
        lemma_total_at_most(items, longest, n - 1);
        assert(n * longest == (n - 1) * longest + longest) by (nonlinear_arith);
    } else {
        assert(n * longest == 0) by (nonlinear_arith)
            requires
                n == 0,
        ;
    }
}

/// Where every group total lies within a bound of the target, no two
/// totals lie further apart than twice the bound.
pub proof fn lemma_within_spread(items: Seq<LenV>, groups: int, target: int, bound: int)
    requires
        within_bound(items, groups, target, bound),
    ensures
        forall|g: int, h: int|
            0 <= g < groups && 0 <= h < groups ==> #[trigger] group_sum(
                items,
                g,
                items.len() as int,
            ) - #[trigger] group_sum(items, h, items.len() as int) <= 2 * bound,
{
    assert forall|g: int, h: int| 0 <= g < groups && 0 <= h < groups implies #[trigger] group_sum(
        items,
        g,
        items.len() as int,
    ) - #[trigger] group_sum(items, h, items.len() as int) <= 2 * bound by {
        assert(off_target(group_sum(items, g, items.len() as int), target) <= bound);
        assert(off_target(group_sum(items, h, items.len() as int), target) <= bound);
    }
}

/// Grouping balance. Lists that agree with an assignment of clips of no
/// negative length lose no clip and hold none twice; the totals of the lists
/// add up to the length of all clips; and no two totals lie further apart
/// than the number of clips times the length of the longest clip.
pub proof fn lemma_grouping_balance(
    items: Seq<LenV>,
    lists: Seq<Seq<usize>>,
    groups: int,
    longest: int,
)
    requires
        lengths_fit(items),
        groups_below(items, groups),
        grouping(lists, items, groups),
        forall|i: int| 0 <= i < items.len() ==> (#[trigger] items[i]).inner <= longest,
    ensures
        splits(lists, items.len() as int),
        lists_total(lists, items, groups) == total_length(items, items.len() as int),
        forall|g: int, h: int|
            0 <= g < groups && 0 <= h < groups ==> list_total(
                #[trigger] lists[g],
                items,
                lists[g].len() as int,
            ) - list_total(#[trigger] lists[h], items, lists[h].len() as int) <= items.len()
                * longest,
{
    let n = items.len() as int;
    lemma_lists_total(lists, items, groups, groups);
    lemma_sums_add_up(items, n, groups);
    lemma_total_at_most(items, longest, n);
    assert forall|g: int, h: int| 0 <= g < groups && 0 <= h < groups implies list_total(
        #[trigger] lists[g],
        items,
        lists[g].len() as int,
    ) - list_total(#[trigger] lists[h], items, lists[h].len() as int) <= n * longest by {
        lemma_group_sum_bounds(items, g, n);
        lemma_group_sum_bounds(items, h, n);
    }
}

proof fn lemma_last_max_exists(sums: Seq<i64>, n: int)
    requires
        0 < n <= sums.len(),
    ensures
        exists|i: int| last_max_at(sums.take(n), i),
    decreases n,
{
    if n == 1 {
        assert(last_max_at(sums.take(n), 0));
    } else {
        lemma_last_max_exists(sums, n - 1);
        let prev = sums.take(n - 1);
        let i = choose|i: int| last_max_at(prev, i);
        assert(forall|j: int| 0 <= j < n - 1 ==> prev[j] == sums.take(n)[j]);
        if sums[i] > sums[n - 1] {
            assert(last_max_at(sums.take(n), i));
        } else {
            assert(last_max_at(sums.take(n), n - 1));
        }
    }
}

/// Where no migrant is found from `k` on, no clip that `order` names from
/// there on may migrate.
proof fn lemma_no_migrant(items: Seq<LenV>, order: Seq<usize>, from: int, gap: int, k: int)
    requires
        0 <= k,
        first_migrant(items, order, from, gap, k) is None,
    ensures
        forall|j: int| k <= j < order.len() ==> !may_migrate(items[#[trigger] order[j] as int], from, gap),
    decreases order.len() - k,
{
    if k < order.len() {
        lemma_no_migrant(items, order, from, gap, k + 1);
    }
}

/// Migration at rest. Where no clip of the group with the largest total is
/// shorter than the gap between the largest and the smallest total, no two
/// totals lie further apart than the longest clip is long.
pub proof fn lemma_rest_spread(items: Seq<LenV>, order: Seq<usize>, groups: int, longest: int)
    requires
        lengths_fit(items),
        groups_below(items, groups),
        groups > 0,
        items.len() <= usize::MAX,
        is_order(order, items.len() as int),
        0 <= longest,
        forall|i: int| 0 <= i < items.len() ==> (#[trigger] items[i]).inner <= longest,
        first_migrant(
            items,
            order,
            last_max_group(group_totals(items, groups)),
            group_totals(items, groups)[last_max_group(group_totals(items, groups))]
                - group_totals(items, groups)[last_min_group(group_totals(items, groups))],
            0,
        ) is None,
    ensures
        forall|g: int, h: int|
            0 <= g < groups && 0 <= h < groups ==> #[trigger] group_sum(
                items,
                g,
                items.len() as int,
            ) - #[trigger] group_sum(items, h, items.len() as int) <= longest,
{
    let n = items.len() as int;
    let sums = group_totals(items, groups);
    lemma_last_min_exists(sums, groups);
    lemma_last_max_exists(sums, groups);
    assert(sums.take(groups) =~= sums);
    let to = last_min_group(sums);
    let from = last_max_group(sums);
    assert(last_min_at(sums, to));
    assert(last_max_at(sums, from));
    let gap = sums[from] - sums[to];
    assert forall|g: int| 0 <= g < groups implies (#[trigger] sums[g]) == group_sum(items, g, n) by {
        lemma_group_sum_bounds(items, g, n);
    }
    if gap > 0 {
        lemma_group_sum_bounds(items, to, n);
        lemma_positive_occupied(items, from, n);
        let i = choose|i: int| 0 <= i < items.len() && (#[trigger] items[i]).group == from;
        lemma_order_covers(order, n, i);
        let k = choose|k: int| 0 <= k < n && order[k] == i;
        lemma_no_migrant(items, order, from, gap, 0);
        assert(!may_migrate(items[order[k] as int], from, gap));
        assert(items[i].inner >= gap);
    }
    assert forall|g: int, h: int| 0 <= g < groups && 0 <= h < groups implies #[trigger] group_sum(
        items,
        g,
        n,
    ) - #[trigger] group_sum(items, h, n) <= longest by {
        assert(sums[g] <= sums[from]);
        assert(sums[h] >= sums[to]);
    }
}

/// The clips as the grouping sees them: their probed lengths, none
/// assigned to a group yet.
pub open spec fn lengths_of(videos: Seq<Video>) -> Seq<LenV> {
    Seq::new(videos.len(), |i: int| LenV { group: 0, inner: videos[i].length_millis->Some_0 })
}

/// Every clip has been probed for its length.
pub open spec fn all_probed(videos: Seq<Video>) -> bool {
    forall|i: int| 0 <= i < videos.len() ==> (#[trigger] videos[i]).length_millis is Some
}

/// List `g` of `out` holds the clips that list `g` of `lists` names, in
/// that order.
pub open spec fn dealt_by(out: Seq<Seq<Video>>, videos: Seq<Video>, lists: Seq<Seq<usize>>) -> bool {
    &&& out.len() == lists.len()
    &&& forall|g: int| 0 <= g < out.len() ==> (#[trigger] out[g]).len() == lists[g].len()
    &&& forall|g: int, k: int|
        0 <= g < out.len() && 0 <= k < out[g].len() ==> (#[trigger] out[g][k])
            == videos[lists[g][k] as int]
}

/// `out` is a balanced regrouping of `videos` into `groups` groups: its
/// lists hold every clip exactly once, and the assignment behind them is
/// balanced.
pub open spec fn regrouping(videos: Seq<Video>, groups: int, out: Seq<Seq<Video>>) -> bool {
    exists|assigned: Seq<LenV>, lists: Seq<Seq<usize>>|
        {
            &&& same_lengths(assigned, lengths_of(videos))
            &&& groups_below(assigned, groups)
            &&& #[trigger] grouping(lists, assigned, groups)
            &&& balanced(lengths_of(videos), assigned, groups)
            &&& searched_or_migrated(lengths_of(videos), groups, assigned, lists)
            &&& dealt_by(out, videos, lists)
        }
}

/// The views of the lists of clips.
pub open spec fn clip_lists(out: Seq<Vec<Video>>) -> Seq<Seq<Video>> {
    Seq::new(out.len(), |g: int| out[g]@)
}

/// Splits the clips into `group_count` groups of nearly equal total length,
/// so that each region plays for about as long as the others. No clip is
/// lost and none stands in two groups, and no group is left empty.
pub fn regrouper(v_list: Vec<Video>, group_count: usize) -> (out: Vec<Vec<Video>>)
    requires
        0 < group_count <= v_list@.len(),
        all_probed(v_list@),
        lengths_fit(lengths_of(v_list@)),
    ensures
        out@.len() == group_count,
        regrouping(v_list@, group_count as int, clip_lists(out@)),
        forall|g: int| 0 <= g < group_count ==> (#[trigger] out@[g])@.len() > 0,
{
    let mut items: Vec<LenV> = Vec::new();
    let mut i: usize = 0;
    while i < v_list.len()
        invariant
            i <= v_list@.len(),
            all_probed(v_list@),
            items@.len() == i,
            forall|k: int| 0 <= k < i ==> (#[trigger] items@[k]) == lengths_of(v_list@)[k],
        decreases v_list@.len() - i,
    {
        let inner = match v_list[i].length_millis {
            Some(millis) => millis,
            None => 0,
        };
        items.push(LenV { group: 0, inner });
        i += 1;
    }
    assert(items@ =~= lengths_of(v_list@));
    let (assigned, lists) = regroup(items, group_count);
    proof {
        lemma_lists_view(lists);
    }
    let out = take_by_lists(v_list, &lists);
    proof {
        assert(dealt_by(clip_lists(out@), v_list@, lists.deep_view()));
        assert(grouping(lists.deep_view(), assigned@, group_count as int));
        assert forall|g: int| 0 <= g < group_count implies (#[trigger] out@[g])@.len() > 0 by {
            assert(lists.deep_view()[g].len() > 0);
            assert(lists.deep_view()[g] == lists@[g]@);
        }
    }
    out
}

/// The clips after clips `i` and `j` have changed groups with each other.
pub open spec fn exchanged(items: Seq<LenV>, i: int, j: int) -> Seq<LenV> {
    items.update(i, LenV { group: items[j].group, inner: items[i].inner }).update(
        j,
        LenV { group: items[i].group, inner: items[j].inner },
    )
}

/// Clip `i` is in group `from` and clip `j` in group `to`.
pub open spec fn exchange_pair(items: Seq<LenV>, from: int, to: int, i: int, j: int) -> bool {
    &&& 0 <= i < items.len()
    &&& 0 <= j < items.len()
    &&& items[i].group == from
    &&& items[j].group == to
}

/// The exchange of `i` and `j` is to be preferred to that of `k` and `l`:
/// it leaves a smaller average deviation, or the same while it comes first.
pub open spec fn exchange_preferred(
    items: Seq<LenV>,
    groups: int,
    i: int,
    j: int,
    k: int,
    l: int,
) -> bool {
    let here = deviation(exchanged(items, i, j), groups);
    let there = deviation(exchanged(items, k, l), groups);
    here < there || (here == there && (i < k || (i == k && j <= l)))
}

/// The pair is the one to exchange between the two groups: it is to be
/// preferred to every other pair of the two groups.
pub open spec fn best_exchange(
    items: Seq<LenV>,
    groups: int,
    from: int,
    to: int,
    i: int,
    j: int,
) -> bool {
    &&& exchange_pair(items, from, to, i, j)
    &&& forall|k: int, l: int|
        #![trigger exchange_pair(items, from, to, k, l)]
        exchange_pair(items, from, to, k, l) ==> exchange_preferred(items, groups, i, j, k, l)
}

/// One round of exchanging: of all pairs of a clip of the group with the
/// largest total and a clip of the group with the smallest, the one whose
/// exchange leaves the smallest average deviation changes groups. None
/// where there is no pair, or where no exchange lowers the average
/// deviation.
pub open spec fn exchange_step(items: Seq<LenV>, groups: int) -> Option<Seq<LenV>> {
    let sums = group_totals(items, groups);
    let from = last_max_group(sums);
    let to = last_min_group(sums);
    if exists|i: int, j: int| best_exchange(items, groups, from, to, i, j) {
        let (i, j) = choose|i: int, j: int| best_exchange(items, groups, from, to, i, j);
        if deviation(exchanged(items, i, j), groups) < deviation(items, groups) {
            Some(exchanged(items, i, j))
        } else {
            None
        }
    } else {
        None
    }
}

/// The clips after at most `rounds` rounds of exchanging.
pub open spec fn exchanged_rounds(items: Seq<LenV>, groups: int, rounds: nat) -> Seq<LenV>
    decreases rounds,
{
    if rounds == 0 {
        items
    } else {
        match exchange_step(items, groups) {
            None => items,
            Some(next) => exchanged_rounds(next, groups, (rounds - 1) as nat),
        }
    }
}

/// `best` is the pair to exchange among those searched before `(r0, r1)`,
/// with the average deviation that its exchange leaves; none where no pair
/// was searched.
pub open spec fn best_exchange_so_far(
    items: Seq<LenV>,
    groups: int,
    from: int,
    to: int,
    best: Option<(usize, usize, i64)>,
    r0: int,
    r1: int,
) -> bool {
    match best {
        None => forall|k: int, l: int|
            #![trigger exchange_pair(items, from, to, k, l)]
            exchange_pair(items, from, to, k, l) ==> !(k < r0 || (k == r0 && l < r1)),
        Some((b0, b1, left)) => {
            &&& exchange_pair(items, from, to, b0 as int, b1 as int)
            &&& (b0 < r0 || (b0 == r0 && b1 < r1))
            &&& left == deviation(exchanged(items, b0 as int, b1 as int), groups)
            &&& left >= 0
            &&& forall|k: int, l: int|
                #![trigger exchange_pair(items, from, to, k, l)]
                exchange_pair(items, from, to, k, l) && (k < r0 || (k == r0 && l < r1))
                    ==> exchange_preferred(items, groups, b0 as int, b1 as int, k, l)
        },
    }
}

proof fn lemma_rounds_add(items: Seq<LenV>, groups: int, n: nat, next: Seq<LenV>)
    requires
        exchange_step(exchanged_rounds(items, groups, n), groups) == Some(next),
    ensures
        exchanged_rounds(items, groups, n + 1) == next,
    decreases n,
{
    reveal_with_fuel(exchanged_rounds, 2);
    match exchange_step(items, groups) {
        None => {
            assert(exchanged_rounds(items, groups, n) == items);
        },
        Some(first) => {
            if n > 0 {
                assert(exchanged_rounds(items, groups, n) == exchanged_rounds(
                    first,
                    groups,
                    (n - 1) as nat,
                ));
                lemma_rounds_add(first, groups, (n - 1) as nat, next);
                assert(exchanged_rounds(items, groups, n + 1) == exchanged_rounds(
                    first,
                    groups,
                    n,
                ));
            } else {
                assert(exchanged_rounds(items, groups, 0) == items);
                assert(first == next);
            }
        },
    }
}

/// An exchange keeps every group as full as it was.
proof fn lemma_exchange_occupied(items: Seq<LenV>, i: int, j: int, g: int)
    requires
        0 <= i < items.len(),
        0 <= j < items.len(),
        occupied(items, g),
    ensures
        occupied(exchanged(items, i, j), g),
{
    let after = exchanged(items, i, j);
    let w = choose|w: int| 0 <= w < items.len() && (#[trigger] items[w]).group == g;
    if w == i {
        assert(after[j].group == g);
    } else if w == j {
        if i == j {
            assert(after[j].group == g);
        } else {
            assert(after[i].group == g);
        }
    } else {
        assert(after[w].group == g);
    }
}

/// Exchanging. As long as it lowers the average deviation, the pair of a
/// clip of the group with the largest total and a clip of the group with
/// the smallest whose exchange leaves the smallest average deviation
/// changes groups; of several such pairs the first does.
pub fn group_swap(v_list: Vec<LenV>, groups: usize) -> (swapped: Vec<LenV>)
    requires
        lengths_fit(v_list@),
        groups_below(v_list@, groups as int),
        groups > 0,
    ensures
        same_lengths(swapped@, v_list@),
        groups_below(swapped@, groups as int),
        exists|rounds: nat| swapped@ == #[trigger] exchanged_rounds(v_list@, groups as int, rounds),
        exchange_step(swapped@, groups as int) is None,
        deviation(swapped@, groups as int) <= deviation(v_list@, groups as int),
        forall|g: int| occupied(v_list@, g) ==> occupied(swapped@, g),
{
    let ghost start = v_list@;
    let ghost mut rounds: nat = 0;
    let mut v_list = v_list;
    let n = v_list.len();
    let mut current: i64 = group_diff_avg(&v_list, groups);
    loop
        invariant
            n == v_list@.len(),
            groups > 0,
            lengths_fit(start),
            lengths_fit(v_list@),
            same_lengths(v_list@, start),
            groups_below(v_list@, groups as int),
            current == deviation(v_list@, groups as int),
            current >= 0,
            current <= deviation(start, groups as int),
            v_list@ == exchanged_rounds(start, groups as int, rounds),
            forall|g: int| occupied(start, g) ==> occupied(v_list@, g),
        ensures
            n == v_list@.len(),
            same_lengths(v_list@, start),
            groups_below(v_list@, groups as int),
            v_list@ == exchanged_rounds(start, groups as int, rounds),
            exchange_step(v_list@, groups as int) is None,
            deviation(v_list@, groups as int) <= deviation(start, groups as int),
            forall|g: int| occupied(start, g) ==> occupied(v_list@, g),
        decreases current,
    {
        let grp_sum = position_sums(&v_list, groups);
        let (grp_min, grp_max) = position_sums_min_max(&grp_sum);
        let from = grp_max.0;
        let to = grp_min.0;
        let ghost items = v_list@;
        proof {
            assert(grp_sum@ =~= group_totals(items, groups as int)) by {
                assert forall|g: int| 0 <= g < groups implies grp_sum@[g] == group_totals(
                    items,
                    groups as int,
                )[g] by {
                    lemma_group_sum_bounds(items, g, n as int);
                }
            }
            lemma_last_groups(grp_sum@, to as int, from as int);
        }
        let mut best: Option<(usize, usize, i64)> = None;
        let mut i: usize = 0;
        while i < n
            invariant
                i <= n,
                n == v_list@.len(),
                groups > 0,
                from < groups,
                to < groups,
                v_list@ == items,
                lengths_fit(items),
                groups_below(items, groups as int),
                best_exchange_so_far(items, groups as int, from as int, to as int, best, i as int, 0),
            decreases n - i,
        {
            if v_list[i].group == from {
                let mut j: usize = 0;
                while j < n
                    invariant
                        j <= n,
                        i < n,
                        n == v_list@.len(),
                        groups > 0,
                        from < groups,
                        to < groups,
                        v_list@ == items,
                        items[i as int].group == from,
                        lengths_fit(items),
                        groups_below(items, groups as int),
                        best_exchange_so_far(
                            items,
                            groups as int,
                            from as int,
                            to as int,
                            best,
                            i as int,
                            j as int,
                        ),
                    decreases n - j,
                {
                    if v_list[j].group == to {
                        let first = v_list[i];
                        let second = v_list[j];
                        v_list.set(i, LenV { group: second.group, inner: first.inner });
                        v_list.set(j, LenV { group: first.group, inner: second.inner });
                        proof {
                            assert(v_list@ =~= exchanged(items, i as int, j as int));
                            lemma_same_total(v_list@, items, n as int);
                        }
                        let left = group_diff_avg(&v_list, groups);
                        v_list.set(j, second);
                        v_list.set(i, first);
                        assert(v_list@ =~= items);
                        best = match best {
                            None => Some((i, j, left)),
                            Some(held) => if left < held.2 {
                                Some((i, j, left))
                            } else {
                                Some(held)
                            },
                        };
                    }
                    j += 1;
                }
            }
            i += 1;
        }
        match best {
            None => {
                proof {
                    assert(forall|k: int, l: int|
                        !best_exchange(items, groups as int, from as int, to as int, k, l));
                }
                break ;
            },
            Some((b0, b1, left)) => {
                proof {
                    assert(best_exchange(
                        items,
                        groups as int,
                        from as int,
                        to as int,
                        b0 as int,
                        b1 as int,
                    ));
                    let (c0, c1) = choose|c0: int, c1: int|
                        best_exchange(items, groups as int, from as int, to as int, c0, c1);
                    assert(exchange_pair(items, from as int, to as int, c0, c1));
                    assert(exchange_pair(items, from as int, to as int, b0 as int, b1 as int));
                    assert(exchange_preferred(items, groups as int, c0, c1, b0 as int, b1 as int));
                    assert(exchange_preferred(items, groups as int, b0 as int, b1 as int, c0, c1));
                    assert(c0 == b0 && c1 == b1);
                }
                if left < current {
                    let first = v_list[b0];
                    let second = v_list[b1];
                    v_list.set(b0, LenV { group: second.group, inner: first.inner });
                    v_list.set(b1, LenV { group: first.group, inner: second.inner });
                    proof {
                        assert(v_list@ =~= exchanged(items, b0 as int, b1 as int));
                        lemma_same_total(v_list@, items, n as int);
                        assert(exchange_step(items, groups as int) == Some(v_list@));
                        lemma_rounds_add(start, groups as int, rounds, v_list@);
                        assert forall|g: int| occupied(start, g) implies occupied(v_list@, g) by {
                            lemma_exchange_occupied(items, b0 as int, b1 as int, g);
                        }
                        rounds = rounds + 1;
                    }
                    current = left;
                } else {
                    break ;
                }
            },
        }
    }
    v_list
}

/// Regroups by dealing the clips out in turn, migrating clips from the
/// group with the largest total to the group with the smallest, and then
/// exchanging clips between the two. Gives the clips with their groups,
/// and the list of each group, its clips from the longest to the shortest.
pub fn video_regroup_swapping(v_list: Vec<LenV>, groups: usize) -> (out: (Vec<LenV>, Vec<Vec<usize>>))
    requires
        lengths_fit(v_list@),
        groups > 0,
    ensures
        same_lengths(out.0@, v_list@),
        groups_below(out.0@, groups as int),
        grouping(out.1.deep_view(), out.0@, groups as int),
        lists_longest_first(out.1.deep_view(), out.0@),
        exchange_step(out.0@, groups as int) is None,
        deviation(out.0@, groups as int) <= deviation(
            round_robin(v_list@, groups as int),
            groups as int,
        ),
        groups <= v_list@.len() ==> forall|g: int|
            0 <= g < groups ==> (#[trigger] out.1.deep_view()[g]).len() > 0,
{
    let mut dealt = v_list;
    let mut i: usize = 0;
    while i < dealt.len()
        invariant
            i <= dealt@.len(),
            groups > 0,
            dealt@.len() == v_list@.len(),
            forall|k: int|
                0 <= k < i ==> (#[trigger] dealt@[k]) == round_robin(v_list@, groups as int)[k],
            forall|k: int| i <= k < dealt@.len() ==> (#[trigger] dealt@[k]) == v_list@[k],
        decreases dealt@.len() - i,
    {
        let inner = dealt[i].inner;
        dealt.set(i, LenV { group: i % groups, inner });
        i += 1;
    }
    proof {
        assert(dealt@ =~= round_robin(v_list@, groups as int));
        lemma_same_total(dealt@, v_list@, v_list@.len() as int);
        assert(groups_below(dealt@, groups as int));
        assert forall|g: int| 0 <= g < groups && groups <= v_list@.len() implies occupied(
            dealt@,
            g,
        ) by {
            assert(g % (groups as int) == g) by (nonlinear_arith)
                requires
                    0 <= g < groups,
            ;
            assert(dealt@[g].group == g);
        }
    }
    let ghost dealt_view = dealt@;
    let (moved, order) = group_move(dealt, groups);
    let ghost moved_view = moved@;
    proof {
        lemma_same_total(moved@, v_list@, v_list@.len() as int);
    }
    let swapped = group_swap(moved, groups);
    proof {
        assert(longest_first(order@, swapped@)) by {
            assert forall|a: int, b: int| 0 <= a <= b < order@.len() implies swapped@[(
            #[trigger] order@[a]) as int].inner >= swapped@[(#[trigger] order@[b]) as int].inner by {
                assert(moved_view[order@[a] as int].inner >= moved_view[order@[b] as int].inner);
            }
        }
    }
    let lists = lists_along(&swapped, &order, groups);
    proof {
        assert forall|g: int, k: int, l: int|
            0 <= g < lists.deep_view().len() && 0 <= k <= l < lists.deep_view()[g].len() implies swapped@[(
        #[trigger] lists.deep_view()[g][k]) as int].inner >= swapped@[(
        #[trigger] lists.deep_view()[g][l]) as int].inner by {
            lemma_members_order(order@, swapped@, g);
        }
        assert forall|g: int| 0 <= g < groups && groups <= v_list@.len() implies (
        #[trigger] lists.deep_view()[g]).len() > 0 by {
            assert(occupied(dealt_view, g));
            assert(occupied(moved_view, g));
        }
    }
    (swapped, lists)
}

} // verus!
