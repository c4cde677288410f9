use video_mosaic::frame_shape::FrameShape;
use video_mosaic::group_split::{AutoSwap, Item, ItemGroup, ItemList, SwapHistory};
use video_mosaic::group_splitter::{
    collect_groups, generalized_regrouper, group_diff_avg, group_move, group_swap,
    partition_into_groups, position_sums, position_sums_min_max, regroup, regrouper, search_node,
    total_of, video_regroup, video_regroup_swapping, LenV, PartitionSearch, ReGroupStatus,
};
use video_mosaic::helper_functions::{video_group_swap, video_group_swap_n};
use video_mosaic::video::Video;

fn clips(lengths: &[i64]) -> Vec<LenV> {
    lengths.iter().map(|l| LenV { group: 0, inner: *l }).collect()
}

fn totals(items: &[LenV], lists: &[Vec<usize>]) -> Vec<i64> {
    lists.iter().map(|l| l.iter().map(|i| items[*i].inner).sum()).collect()
}

fn each_once(lists: &[Vec<usize>], n: usize) {
    let mut seen = vec![0usize; n];
    for list in lists {
        for i in list {
            seen[*i] += 1;
        }
    }
    assert!(seen.iter().all(|c| *c == 1), "{:?}", lists);
}

fn video(name: &str, millis: Option<i64>) -> Video {
    let mut v = Video::from_path(name.to_string());
    v.length_millis = millis;
    v
}

#[test]
fn position_sums_adds_up_each_group() {
    let items = vec![
        LenV { group: 0, inner: 10 },
        LenV { group: 2, inner: 20 },
        LenV { group: 0, inner: 5 },
        LenV { group: 1, inner: 7 },
    ];
    assert_eq!(position_sums(&items, 3), vec![15, 7, 20]);
    assert_eq!(position_sums(&items, 4), vec![15, 7, 20, 0]);
    assert_eq!(total_of(&items), 42);
}

#[test]
fn min_max_name_the_last_of_equal_totals() {
    assert_eq!(position_sums_min_max(&vec![3, 1, 1, 3]), ((2, 1), (3, 3)));
    assert_eq!(position_sums_min_max(&vec![5]), ((0, 5), (0, 5)));
    assert_eq!(position_sums_min_max(&vec![4, 9, 2]), ((2, 2), (1, 9)));
}

#[test]
fn group_diff_avg_is_the_mean_excess_over_the_smallest() {
    let items = vec![
        LenV { group: 0, inner: 65 },
        LenV { group: 1, inner: 45 },
        LenV { group: 2, inner: 35 },
    ];
    // (30 + 10 + 0) / 3
    assert_eq!(group_diff_avg(&items, 3), 13);
    assert_eq!(group_diff_avg(&items, 4), 145 / 4);
}

#[test]
fn group_move_migrates_from_the_fullest_to_the_emptiest() {
    // Dealt out in turn: 65, 45 and 35 seconds.
    let lengths = [10, 20, 30, 15, 25, 5, 40];
    let items: Vec<LenV> =
        lengths.iter().enumerate().map(|(i, l)| LenV { group: i % 3, inner: *l }).collect();
    let (moved, order) = group_move(items, 3);
    assert_eq!(order, vec![6, 2, 4, 1, 3, 0, 5]);
    assert_eq!(position_sums(&moved, 3), vec![50, 45, 50]);
    let groups: Vec<usize> = moved.iter().map(|m| m.group).collect();
    assert_eq!(groups, vec![0, 1, 2, 2, 1, 2, 0]);
    assert_eq!(collect_groups(&moved, &order, 3), vec![vec![6, 0], vec![4, 1], vec![2, 3, 5]]);
}

#[test]
fn round_trip_clip_accounting() {
    // Seconds: no assignment hits the target of 48 exactly, so the clips are
    // dealt out and migrated.
    let items = clips(&[10, 20, 30, 15, 25, 5, 40]);
    let (assigned, lists) = regroup(items.clone(), 3);
    assert_eq!(lists.len(), 3);
    each_once(&lists, 7);
    let sums = totals(&items, &lists);
    assert_eq!(sums.iter().sum::<i64>(), 145);
    assert_eq!(sums, position_sums(&assigned, 3));
    let spread = sums.iter().max().unwrap() - sums.iter().min().unwrap();
    assert!(spread <= 7 * 40);
    assert_eq!(lists, vec![vec![6, 0], vec![4, 1], vec![2, 3, 5]]);
    assert_eq!(spread, 5);
}

#[test]
fn search_finds_groups_within_nine_hundredths() {
    // Milliseconds: the target is 48333, and 45000 / 50000 / 50000 lies
    // within nine hundredths of it.
    let items = clips(&[10000, 20000, 30000, 15000, 25000, 5000, 40000]);
    match partition_into_groups(&items, 3, 10) {
        PartitionSearch::Within(placed) => {
            assert_eq!(placed.len(), 7);
            let mut sums = [0i64; 3];
            for (i, g) in placed.iter().enumerate() {
                sums[*g] += items[i].inner;
            }
            for s in sums {
                assert!((s - 48333).abs() <= 9 * 483, "{:?}", sums);
            }
        }
        PartitionSearch::Best(_) => panic!("a partition within the bound exists"),
    }
    match generalized_regrouper(items.clone(), 3) {
        ReGroupStatus::Complete(assigned) => {
            let lengths: Vec<i64> = assigned.iter().map(|a| a.inner).collect();
            assert_eq!(lengths, vec![10000, 20000, 30000, 15000, 25000, 5000, 40000]);
            assert!(assigned.iter().all(|a| a.group < 3));
        }
        ReGroupStatus::Error(_) => panic!("a partition within the bound exists"),
    }
    let (_, lists) = regroup(items.clone(), 3);
    each_once(&lists, 7);
    let sums = totals(&items, &lists);
    assert_eq!(sums.iter().sum::<i64>(), 145000);
    assert!(sums.iter().max().unwrap() - sums.iter().min().unwrap() <= 2 * 9 * 483);
    // The search keeps the clips of a group in the order of their indices.
    for list in &lists {
        assert!(list.windows(2).all(|w| w[0] < w[1]));
    }
}

#[test]
fn search_reports_the_best_where_none_is_near_enough() {
    // Three clips for three groups around a target of 1000: each group can
    // only take one clip, and 840 is further off than nine hundredths.
    let items = clips(&[1080, 1080, 840]);
    match partition_into_groups(&items, 3, 10) {
        PartitionSearch::Best(Some(best)) => assert_eq!(best, vec![0, 1, 2]),
        other => panic!("no partition within the bound exists: {:?}", other),
    }
    match generalized_regrouper(items, 3) {
        ReGroupStatus::Error(left) => assert_eq!(left.len(), 3),
        ReGroupStatus::Complete(_) => panic!("no partition within the bound exists"),
    }
}

#[test]
fn search_meets_no_whole_assignment_where_the_clips_do_not_fit() {
    // Seconds: with a target of 48 and no deviation allowed, 145 seconds do
    // not fit into three groups at all.
    let items = clips(&[10, 20, 30, 15, 25, 5, 40]);
    match partition_into_groups(&items, 3, 10) {
        PartitionSearch::Best(None) => {}
        other => panic!("no whole assignment fits: {:?}", other),
    }
}

#[test]
fn equal_clips_split_evenly() {
    let items = clips(&[1000; 12]);
    let (_, lists) = regroup(items.clone(), 4);
    each_once(&lists, 12);
    assert_eq!(totals(&items, &lists), vec![3000; 4]);
}

#[test]
fn as_many_groups_as_clips_gives_one_clip_each() {
    let items = clips(&[7, 3, 9]);
    let (_, lists) = regroup(items, 3);
    each_once(&lists, 3);
    assert!(lists.iter().all(|l| l.len() == 1));
}

#[test]
fn one_group_takes_everything() {
    let items = clips(&[7, 3, 9]);
    let (_, lists) = regroup(items, 1);
    assert_eq!(lists, vec![vec![0, 1, 2]]);
}

#[test]
fn no_group_is_left_empty_when_there_is_something_to_play() {
    for lengths in [vec![0, 0, 5, 0], vec![1, 1, 1, 1, 1, 100], vec![100, 1, 1]] {
        let n = lengths.len();
        for k in 1..=n.min(3) {
            let (_, lists) = regroup(clips(&lengths), k);
            assert_eq!(lists.len(), k);
            each_once(&lists, n);
            assert!(lists.iter().all(|l| !l.is_empty()), "{:?} into {}: {:?}", lengths, k, lists);
        }
    }
}

#[test]
fn clips_of_no_length_are_dealt_out_in_turn() {
    let (assigned, lists) = regroup(clips(&[0, 0]), 2);
    each_once(&lists, 2);
    assert_eq!(lists, vec![vec![0], vec![1]]);
    assert_eq!(assigned.iter().map(|c| (c.group, c.inner)).collect::<Vec<_>>(), vec![(0, 0), (1, 0)]);
    for n in 1..=7usize {
        for k in 1..=n.min(4) {
            let (assigned, lists) = regroup(clips(&vec![0; n]), k);
            assert_eq!(lists.len(), k);
            each_once(&lists, n);
            assert!(lists.iter().all(|l| !l.is_empty()), "{} into {}: {:?}", n, k, lists);
            for (i, clip) in assigned.iter().enumerate() {
                assert_eq!(clip.group, i % k);
            }
        }
    }
    let zero: Vec<Video> = (0..5).map(|i| video(&format!("z{}", i), Some(0))).collect();
    let out = regrouper(zero, 3);
    let sizes: Vec<usize> = out.iter().map(|l| l.len()).collect();
    assert_eq!(sizes, vec![2, 2, 1]);
    let zero: Vec<Video> = (0..3).map(|i| video(&format!("z{}", i), Some(0))).collect();
    assert!(video_group_swap_n(zero, 3).iter().all(|l| l.len() == 1));
}

#[test]
fn video_regroup_deals_out_then_migrates() {
    let (assigned, lists) = video_regroup(clips(&[9, 1, 1, 1]), 2);
    each_once(&lists, 4);
    // Dealt out: 10 and 2; one clip of 1 migrates.
    assert_eq!(position_sums(&assigned, 2), vec![9, 3]);
    let (assigned, _) = video_regroup(clips(&[5, 1, 5, 1, 5, 1]), 2);
    // Dealt out: 15 and 3; one clip of 5 migrates.
    assert_eq!(position_sums(&assigned, 2), vec![10, 8]);
}

#[test]
fn regrouper_moves_the_clips_themselves() {
    let names = ["a", "b", "c", "d", "e", "f", "g"];
    let lengths = [10, 20, 30, 15, 25, 5, 40];
    let videos: Vec<Video> =
        names.iter().zip(lengths.iter()).map(|(n, l)| video(n, Some(*l))).collect();
    let groups = regrouper(videos, 3);
    let got: Vec<Vec<&str>> =
        groups.iter().map(|g| g.iter().map(|v| v.src.as_str()).collect()).collect();
    assert_eq!(got, vec![vec!["g", "a"], vec!["e", "b"], vec!["c", "d", "f"]]);
    let again: Vec<Video> =
        names.iter().zip(lengths.iter()).map(|(n, l)| video(n, Some(*l))).collect();
    let groups = video_group_swap_n(again, 3);
    let sums: Vec<i64> =
        groups.iter().map(|g| g.iter().map(|v| v.length_millis.unwrap()).sum()).collect();
    assert_eq!(sums, vec![50, 45, 50]);
}

#[test]
fn item_is_made_of_its_parts() {
    let item = Item::from_data_group(12, ItemGroup::C, "x");
    assert_eq!(item.data, 12);
    assert_eq!(item.group, ItemGroup::C);
    assert_eq!(item._external_data_, "x");
}

#[test]
fn new_list_sorts_and_deals_out() {
    let list = ItemList::new_with_data(vec![(30, 'c'), (10, 'a'), (40, 'd'), (20, 'b')], FrameShape::Dual);
    let got: Vec<(i64, char, ItemGroup)> =
        list.items.iter().map(|i| (i.data, i._external_data_, i.group)).collect();
    assert_eq!(
        got,
        vec![
            (10, 'a', ItemGroup::A),
            (20, 'b', ItemGroup::B),
            (30, 'c', ItemGroup::A),
            (40, 'd', ItemGroup::B)
        ]
    );
    assert_eq!(list.sum_each(), (40, 60, 0, 0));
    assert_eq!(list.typ_ref_sum_min_max(), ((40, ItemGroup::A), (60, ItemGroup::B)));
    assert_eq!(list.group_len_min(), 40);
    assert!(list.swap_history.is_empty());
    let quad = ItemList::new_with_data((0..6).map(|i| (i, i)).collect(), FrameShape::Quad);
    let groups: Vec<ItemGroup> = quad.items.iter().map(|i| i.group).collect();
    assert_eq!(
        groups,
        vec![ItemGroup::A, ItemGroup::B, ItemGroup::C, ItemGroup::D, ItemGroup::A, ItemGroup::B]
    );
}

#[test]
fn one_swap_evens_out_two_groups() {
    let mut list =
        ItemList::new_with_data(vec![(10, 'a'), (20, 'b'), (30, 'c'), (40, 'd')], FrameShape::Dual);
    // Gap 20, so a swap may differ by 15: 10 and 20 are the first such pair.
    assert_eq!(list.auto_double_swap(), AutoSwap::Continue);
    assert_eq!(list.sum_each(), (50, 50, 0, 0));
    assert_eq!(
        list.swap_history.iter().cloned().collect::<Vec<_>>(),
        vec![SwapHistory::Double(0, ItemGroup::A, 1, ItemGroup::B)]
    );
    assert!(list.is_item_in_history_double(0, 1));
    assert!(list.is_item_in_history_double(1, 0));
    assert!(!list.is_item_in_history_double(0, 2));
    assert_eq!(list.typ_ref_sum_min_max(), ((50, ItemGroup::B), (50, ItemGroup::A)));
    assert_eq!(list.auto_double_swap(), AutoSwap::Done);
    assert_eq!(list.export_to_data_lists(), vec![vec!['b', 'c'], vec!['a', 'd']]);
}

#[test]
fn the_largest_difference_within_the_bound_is_swapped() {
    // A: 1 + 50 = 51, B: 21 + 100 = 121; gap 70, bound 52.
    let mut list =
        ItemList::new_with_data(vec![(1, 'a'), (21, 'b'), (50, 'c'), (100, 'd')], FrameShape::Dual);
    assert_eq!(list.sum_each(), (51, 121, 0, 0));
    assert_eq!(list.auto_double_swap(), AutoSwap::Continue);
    // 50 and 100 differ by 50, more than 1 and 21.
    assert_eq!(list.sum_each(), (101, 71, 0, 0));
    list.run_automatic_swaps();
    let (a, b, _, _) = list.sum_each();
    assert_eq!(a + b, 172);
    assert_eq!(list.auto_double_swap(), AutoSwap::Done);
}

#[test]
fn swaps_take_from_the_largest_of_three_groups() {
    let data: Vec<(i64, usize)> = [5, 6, 7, 50, 60, 700].iter().cloned().zip(0..).collect();
    let mut list = ItemList::new_with_data(data, FrameShape::Triple);
    // A: 5 + 50, B: 6 + 60, C: 7 + 700.
    assert_eq!(list.sum_each(), (55, 66, 707, 0));
    assert_eq!(list.typ_ref_sum_min_max(), ((55, ItemGroup::A), (707, ItemGroup::C)));
    list.run_automatic_swaps();
    let (a, b, c, d) = list.sum_each();
    assert_eq!(a + b + c + d, 828);
    assert_eq!(d, 0);
    assert_eq!(list.auto_double_swap(), AutoSwap::Done);
    let out = list.export_to_data_lists();
    assert_eq!(out.len(), 3);
    let mut all: Vec<usize> = out.into_iter().flatten().collect();
    all.sort();
    assert_eq!(all, vec![0, 1, 2, 3, 4, 5]);
}

#[test]
fn history_keeps_the_last_five_swaps() {
    let mut list = ItemList::new_with_data((0..10).map(|i| (i, i)).collect(), FrameShape::Dual);
    for k in 0..7usize {
        list.update_item_with_history_double(k, ItemGroup::B, k + 1, ItemGroup::A);
    }
    assert_eq!(list.swap_history.len(), 5);
    assert!(!list.is_item_in_history_double(0, 1));
    assert!(!list.is_item_in_history_double(1, 2));
    assert!(list.is_item_in_history_double(2, 3));
    assert!(list.is_item_in_history_double(7, 6));
    list.reduce_swap_history_length();
    assert_eq!(list.swap_history.len(), 5);
}

#[test]
fn video_group_swap_groups_for_two_regions() {
    let data = vec![
        (10, video("a", Some(10))),
        (20, video("b", Some(20))),
        (30, video("c", Some(30))),
        (40, video("d", Some(40))),
    ];
    let groups = video_group_swap(data, FrameShape::Dual);
    let got: Vec<Vec<&str>> =
        groups.iter().map(|g| g.iter().map(|v| v.src.as_str()).collect()).collect();
    assert_eq!(got, vec![vec!["b", "c"], vec!["a", "d"]]);
}

#[test]
fn exchange_takes_the_pair_that_evens_out_best() {
    // 17 against 7: exchanging 10 and 5 leaves 12 against 12.
    let items = vec![
        LenV { group: 0, inner: 10 },
        LenV { group: 1, inner: 5 },
        LenV { group: 0, inner: 7 },
        LenV { group: 1, inner: 2 },
    ];
    let swapped = group_swap(items, 2);
    let groups: Vec<usize> = swapped.iter().map(|s| s.group).collect();
    assert_eq!(groups, vec![1, 0, 0, 1]);
    assert_eq!(position_sums(&swapped, 2), vec![12, 12]);
}

#[test]
fn exchange_stops_where_nothing_gets_better() {
    // 11 against 9: every exchange makes it worse.
    let items = vec![
        LenV { group: 0, inner: 10 },
        LenV { group: 0, inner: 1 },
        LenV { group: 1, inner: 5 },
        LenV { group: 1, inner: 4 },
    ];
    let swapped = group_swap(items, 2);
    assert_eq!(position_sums(&swapped, 2), vec![11, 9]);
    assert!(group_swap(vec![], 3).is_empty());
}

#[test]
fn exchanging_helps_where_migrating_cannot() {
    // Dealt out: 14 against 8, and no clip of the first group is shorter
    // than the gap. Exchanging 8 and 7 leaves 13 against 9.
    let items = clips(&[8, 7, 6, 1]);
    let (migrated, _) = video_regroup(items.clone(), 2);
    assert_eq!(position_sums(&migrated, 2), vec![14, 8]);
    let (swapped, lists) = video_regroup_swapping(items, 2);
    assert_eq!(position_sums(&swapped, 2), vec![13, 9]);
    assert_eq!(lists, vec![vec![1, 2], vec![0, 3]]);
    let (swapped, _) = video_regroup_swapping(clips(&[9, 1, 1, 1]), 2);
    assert_eq!(position_sums(&swapped, 2), vec![9, 3]);
}

#[test]
fn migration_at_rest_leaves_the_totals_within_the_longest_clip() {
    for lengths in [
        vec![9i64, 1, 1, 1],
        vec![10, 20, 30, 15, 25, 5, 40],
        vec![100, 0, 100, 0, 3, 3],
        vec![7, 7, 7, 7, 7],
        vec![50, 1, 2, 3, 4, 5, 6, 7],
    ] {
        for groups in 1..=3usize {
            let (items, _) = video_regroup(clips(&lengths), groups);
            let sums = position_sums(&items, groups);
            let ((_, least), (fullest, most)) = position_sums_min_max(&sums);
            let gap = most - least;
            let at_rest = items.iter().all(|c| c.group != fullest || c.inner >= gap);
            if at_rest {
                let longest = *lengths.iter().max().unwrap();
                assert!(gap <= longest, "{:?} into {}: {:?}", lengths, groups, sums);
            }
        }
    }
    let (items, _) = video_regroup(clips(&[100, 0, 100, 0, 3, 3]), 2);
    let sums = position_sums(&items, 2);
    let ((_, least), (_, most)) = position_sums_min_max(&sums);
    assert!(most - least <= 100);
}

/// One node of the search on the clips 10 and 20, both placed, with the
/// target 15; gives what was found and the best kept.
fn leaf(max_deviation: i64, limit: u64, elapsed: u128, best: i128) -> (bool, Option<Vec<usize>>, i128) {
    let items = clips(&[10, 20]);
    let mut sums = vec![10i64, 20];
    let mut sizes = vec![1usize, 1];
    let mut placed = vec![0usize, 1];
    let mut best_solution = None;
    let mut best_deviation = best;
    let start = std::time::Instant::now();
    let found = search_node(
        &items,
        2,
        &mut sums,
        &mut sizes,
        &mut placed,
        15,
        max_deviation,
        &start,
        limit,
        elapsed,
        &mut best_solution,
        &mut best_deviation,
    );
    assert_eq!(sums, vec![10, 20]);
    assert_eq!(sizes, vec![1, 1]);
    assert_eq!(placed, vec![0, 1]);
    (found, best_solution, best_deviation)
}

#[test]
fn a_leaf_is_found_exactly_when_every_total_is_within_the_bound() {
    assert_eq!(leaf(5, 10, 0, i128::MAX), (true, Some(vec![0, 1]), 10));
    assert_eq!(leaf(4, 10, 0, i128::MAX), (false, Some(vec![0, 1]), 10));
}

#[test]
fn a_leaf_no_nearer_than_the_best_leaves_the_best() {
    assert_eq!(leaf(5, 10, 0, 10), (true, None, 10));
    assert_eq!(leaf(4, 10, 0, 3), (false, None, 3));
}

#[test]
fn a_node_past_the_time_limit_gives_up() {
    assert_eq!(leaf(5, 10, 10_000_000_001, i128::MAX), (false, None, i128::MAX));
    assert_eq!(leaf(5, 0, 1, i128::MAX), (false, None, i128::MAX));
    assert_eq!(leaf(5, 10, 10_000_000_000, i128::MAX), (true, Some(vec![0, 1]), 10));
}

#[test]
fn a_node_with_clips_left_tries_the_groups_in_turn() {
    let items = clips(&[10, 20, 30]);
    let mut sums = vec![0i64, 0];
    let mut sizes = vec![0usize, 0];
    let mut placed = Vec::new();
    let mut best_solution = None;
    let mut best_deviation = i128::MAX;
    let start = std::time::Instant::now();
    let found = search_node(
        &items,
        0,
        &mut sums,
        &mut sizes,
        &mut placed,
        30,
        0,
        &start,
        u64::MAX,
        0,
        &mut best_solution,
        &mut best_deviation,
    );
    assert!(found);
    assert_eq!(placed, vec![0, 0, 1]);
    assert_eq!(sums, vec![30, 30]);
    assert_eq!(sizes, vec![2, 1]);
    assert_eq!(best_solution, Some(vec![0, 0, 1]));
    assert_eq!(best_deviation, 0);
}

#[test]
fn seven_clips_in_three_groups_are_swapped_to_within_five() {
    let data: Vec<(i64, usize)> =
        [10, 20, 30, 15, 25, 5, 40].iter().enumerate().map(|(i, l)| (*l, i)).collect();
    let mut list = ItemList::new_with_data(data, FrameShape::Triple);
    assert_eq!(list.sum_each(), (65, 35, 45, 0));
    list.run_automatic_swaps();
    assert_eq!(list.sum_each(), (50, 50, 45, 0));
    assert_eq!(list.swap_history.len(), 1);
    assert!(matches!(list.auto_double_swap(), AutoSwap::Done));
    let lists = list.export_to_data_lists();
    assert_eq!(lists, vec![vec![5, 1, 4], vec![0, 6], vec![3, 2]]);
    let sizes: Vec<usize> = lists.iter().map(|l| l.len()).collect();
    assert_eq!(sizes, vec![3, 2, 2]);
}

#[test]
fn swapping_with_fewer_clips_than_groups_leaves_the_last_groups_empty() {
    let a = Video::from_path("a".to_string());
    let b = Video::from_path("b".to_string());
    let out = video_group_swap(vec![(9, a), (1, b)], FrameShape::Quad);
    let sizes: Vec<usize> = out.iter().map(|l| l.len()).collect();
    assert_eq!(sizes, vec![1, 1, 0, 0]);
    assert_eq!(out[0][0].src, "b");
    assert_eq!(out[1][0].src, "a");
}

#[test]
fn swaps_keep_the_sizes_of_the_groups_and_never_widen_the_gap() {
    for lengths in [
        vec![10i64, 20, 30, 15, 25, 5, 40],
        vec![1, 1, 1, 50, 60, 70, 80, 90],
        vec![3, 3, 3, 3],
        vec![100, 1, 2, 3, 4, 5, 6, 7, 8, 9],
    ] {
        for shape in [FrameShape::Dual, FrameShape::Triple, FrameShape::Quad] {
            let data: Vec<(i64, usize)> = lengths.iter().enumerate().map(|(i, l)| (*l, i)).collect();
            let mut list = ItemList::new_with_data(data, shape);
            let count = |list: &ItemList<usize>, g: ItemGroup| {
                list.items.iter().filter(|i| i.group == g).count()
            };
            let before: Vec<usize> =
                [ItemGroup::A, ItemGroup::B, ItemGroup::C, ItemGroup::D].iter().map(|g| count(&list, *g)).collect();
            let ((least, _), (most, _)) = list.typ_ref_sum_min_max();
            list.run_automatic_swaps();
            let after: Vec<usize> =
                [ItemGroup::A, ItemGroup::B, ItemGroup::C, ItemGroup::D].iter().map(|g| count(&list, *g)).collect();
            let ((least_after, _), (most_after, _)) = list.typ_ref_sum_min_max();
            assert_eq!(before, after);
            assert!(most_after - least_after <= most - least);
            assert!(list.swap_history.len() <= 5);
        }
    }
}
