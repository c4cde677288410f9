use video_mosaic::cli::sort_order_named;
use video_mosaic::order::{identity_order, inverse_order, take_by_lists, take_in_order};
use video_mosaic::switches::{length_or_zero, reversed, SortOrder};
use video_mosaic::video::Video;

fn videos(lengths: &[Option<i64>]) -> Vec<Video> {
    lengths
        .iter()
        .enumerate()
        .map(|(i, l)| {
            let mut v = Video::from_path(format!("v{}", i));
            v.length_millis = *l;
            v
        })
        .collect()
}

fn names(videos: &[Video]) -> Vec<String> {
    videos.iter().map(|v| v.src.clone()).collect()
}

fn sorted_names(videos: &[Video]) -> Vec<String> {
    let mut n = names(videos);
    n.sort();
    n
}

fn some(lengths: &[i64]) -> Vec<Option<i64>> {
    lengths.iter().map(|l| Some(*l)).collect()
}

#[test]
fn as_input_keeps_the_order() {
    let out = SortOrder::Nan.apply_sort(videos(&some(&[3, 1, 2])));
    assert_eq!(names(&out), vec!["v0", "v1", "v2"]);
}

#[test]
fn shortest_first_sorts_by_rising_length() {
    let out = SortOrder::ShortestFirst.apply_sort(videos(&[Some(30), None, Some(10), Some(20)]));
    assert_eq!(names(&out), vec!["v1", "v2", "v3", "v0"]);
}

#[test]
fn longest_first_sorts_by_falling_length() {
    let out = SortOrder::LongestFirst.apply_sort(videos(&[Some(30), None, Some(10), Some(40)]));
    assert_eq!(names(&out), vec!["v3", "v0", "v2", "v1"]);
    let out = SortOrder::LongestFirst.apply_sort(videos(&[Some(i64::MIN), Some(i64::MAX), Some(0)]));
    assert_eq!(names(&out), vec!["v1", "v2", "v0"]);
}

#[test]
fn random_keeps_every_clip() {
    let input: Vec<i64> = (0..50).collect();
    let out = SortOrder::Random.apply_sort(videos(&some(&input)));
    assert_eq!(sorted_names(&out), sorted_names(&videos(&some(&input))));
    assert_ne!(names(&out), names(&videos(&some(&input))));
}

#[test]
fn the_same_seed_gives_the_same_order() {
    let input: Vec<i64> = (0..30).collect();
    let one = SortOrder::RandomSeeded(1337).apply_sort(videos(&some(&input)));
    let two = SortOrder::RandomSeeded(1337).apply_sort(videos(&some(&input)));
    let other = SortOrder::RandomSeeded(7).apply_sort(videos(&some(&input)));
    assert_eq!(names(&one), names(&two));
    assert_ne!(names(&one), names(&other));
    assert_ne!(names(&one), names(&videos(&some(&input))));
    assert_eq!(sorted_names(&one), sorted_names(&videos(&some(&input))));
}

#[test]
fn the_reversed_seeded_order_is_the_seeded_order_backwards() {
    let input: Vec<i64> = (0..30).collect();
    let forward = SortOrder::RandomSeeded(42).apply_sort(videos(&some(&input)));
    let backward = SortOrder::RandomSeededR(42).apply_sort(videos(&some(&input)));
    let mut turned = names(&forward);
    turned.reverse();
    assert_eq!(names(&backward), turned);
}

#[test]
fn the_longest_clip_goes_last() {
    for _ in 0..20 {
        let out = SortOrder::RandomWithLargestLast
            .apply_sort(videos(&[Some(5), Some(90), None, Some(7), Some(20)]));
        assert_eq!(out.len(), 5);
        assert_eq!(out[4].src, "v1");
        assert_eq!(sorted_names(&out), vec!["v0", "v1", "v2", "v3", "v4"]);
    }
    let single = SortOrder::RandomWithLargestLast.apply_sort(videos(&[None]));
    assert_eq!(names(&single), vec!["v0"]);
}

#[test]
fn empty_lists_stay_empty() {
    for order in [
        SortOrder::Nan,
        SortOrder::Random,
        SortOrder::RandomSeeded(1),
        SortOrder::RandomSeededR(1),
        SortOrder::ShortestFirst,
        SortOrder::LongestFirst,
    ] {
        assert!(order.apply_sort(vec![]).is_empty());
    }
}

#[test]
fn unprobed_clips_sort_as_of_no_length() {
    assert_eq!(length_or_zero(&Video::from_path("x".to_string())), 0);
    let mut v = Video::from_path("x".to_string());
    v.length_millis = Some(-4);
    assert_eq!(length_or_zero(&v), -4);
}

#[test]
fn orders_are_found_by_name() {
    assert_eq!(sort_order_named("0", 9), Some(SortOrder::Nan));
    assert_eq!(sort_order_named("as_input", 9), Some(SortOrder::Nan));
    assert_eq!(sort_order_named("none", 9), Some(SortOrder::Nan));
    assert_eq!(sort_order_named("Random", 9), Some(SortOrder::Random));
    assert_eq!(sort_order_named(" rand ", 9), Some(SortOrder::Random));
    assert_eq!(sort_order_named("2", 9), Some(SortOrder::RandomSeeded(9)));
    assert_eq!(sort_order_named("seed", 1337), Some(SortOrder::RandomSeeded(1337)));
    assert_eq!(sort_order_named("2r", 9), Some(SortOrder::RandomSeededR(9)));
    assert_eq!(sort_order_named("seedR", 9), Some(SortOrder::RandomSeededR(9)));
    assert_eq!(sort_order_named("ShortestFirst", 9), Some(SortOrder::ShortestFirst));
    assert_eq!(sort_order_named("longest", 9), Some(SortOrder::LongestFirst));
    assert_eq!(sort_order_named("rwll", 9), Some(SortOrder::RandomWithLargestLast));
    assert_eq!(sort_order_named("5", 9), Some(SortOrder::RandomWithLargestLast));
    assert_eq!(sort_order_named("6", 9), None);
    assert_eq!(sort_order_named("biggest", 9), None);
}

#[test]
fn reversed_turns_a_list_round() {
    assert_eq!(reversed(vec![1, 2, 3]), vec![3, 2, 1]);
    assert_eq!(reversed(Vec::<u8>::new()), Vec::<u8>::new());
}

#[test]
fn items_are_taken_in_the_order_named() {
    assert_eq!(identity_order(4), vec![0, 1, 2, 3]);
    assert_eq!(take_in_order(vec!['a', 'b', 'c'], &vec![2, 0, 1]), vec!['c', 'a', 'b']);
    assert_eq!(take_in_order(vec!['a', 'b', 'c'], &vec![1]), vec!['b']);
    assert_eq!(
        take_by_lists(vec!['a', 'b', 'c', 'd'], &vec![vec![3, 0], vec![], vec![2]]),
        vec![vec!['d', 'a'], vec![], vec!['c']]
    );
    assert_eq!(inverse_order(&vec![2, 0, 1]), vec![1, 2, 0]);
}

#[test]
fn only_orders_by_length_need_probing() {
    assert!(SortOrder::ShortestFirst.needs_length());
    assert!(SortOrder::LongestFirst.needs_length());
    assert!(SortOrder::RandomWithLargestLast.needs_length());
    assert!(!SortOrder::Nan.needs_length());
    assert!(!SortOrder::Random.needs_length());
    assert!(!SortOrder::RandomSeeded(3).needs_length());
    assert!(!SortOrder::RandomSeededR(3).needs_length());
}
