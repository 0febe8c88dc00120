use benchmark::reducer::combine;
use benchmark::reducer::count_odds_all;
use benchmark::reducer::count_odds_in;
use benchmark::reducer::count_odds_partitioned;
use benchmark::reducer::partition;

#[test]
fn partition_four_workers_tile_ten_thousand() {
    let ranges = partition(10_000, 4);
    assert_eq!(ranges, vec![(0, 2500), (2500, 5000), (5000, 7500), (7500, 10_000)]);
}

#[test]
fn partition_uneven_leaves_shorter_tail() {
    let ranges = partition(10, 3);
    assert_eq!(ranges, vec![(0, 4), (4, 8), (8, 10)]);
}

#[test]
fn partition_more_workers_than_indices() {
    let ranges = partition(3, 5);
    assert_eq!(ranges, vec![(0, 1), (1, 2), (2, 3), (3, 3), (3, 3)]);
}

#[test]
fn partition_empty_index_space() {
    let ranges = partition(0, 3);
    assert_eq!(ranges, vec![(0, 0), (0, 0), (0, 0)]);
}

#[test]
fn partition_is_deterministic() {
    assert_eq!(partition(37, 5), partition(37, 5));
    assert_eq!(partition(10_000, 4), partition(10_000, 4));
}

#[test]
fn count_odds_over_a_range() {
    let buf = vec![1u8, 2, 3, 4, 5];
    assert_eq!(count_odds_in(&buf, 1, 4), 1);
    assert_eq!(count_odds_in(&buf, 0, 5), 3);
    assert_eq!(count_odds_in(&buf, 2, 2), 0);
}

#[test]
fn count_odds_whole_buffer() {
    let buf = vec![0xFFu8, 0x02, 0x07, 0x00];
    assert_eq!(count_odds_all(&buf), 2);
}

#[test]
fn partitioned_count_matches_sequential() {
    let buf: Vec<u8> = (0..100u32).map(|i| (i % 7) as u8).collect();
    let sequential = count_odds_all(&buf);
    for p in 1..=10 {
        assert_eq!(count_odds_partitioned(&buf, p), sequential);
    }
    assert_eq!(count_odds_partitioned(&buf, 100), sequential);
    assert_eq!(count_odds_partitioned(&buf, 1000), sequential);
}

#[test]
fn partitioned_count_of_empty_buffer() {
    let buf: Vec<u8> = Vec::new();
    assert_eq!(count_odds_partitioned(&buf, 3), 0);
}

#[test]
fn combine_sums_partial_results() {
    assert_eq!(combine(&vec![1, 2, 3]), 6);
    assert_eq!(combine(&Vec::new()), 0);
}
