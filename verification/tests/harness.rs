use benchmark::harness::Benchmark;
use benchmark::harness::BenchmarkError;

#[test]
fn report_odd_count_durations() {
    let mut b = Benchmark::new("odd");
    for d in [1u64, 2, 3, 4, 5] {
        b.add(7, d);
    }
    let stats = b.report().unwrap();
    assert_eq!(stats.avg, 3);
    assert_eq!(stats.mid, 3);
    assert_eq!(stats.min, 1);
    assert_eq!(stats.max, 5);
}

#[test]
fn report_even_count_takes_upper_middle() {
    let mut b = Benchmark::new("even");
    for d in [1u64, 2, 3, 4] {
        b.add(0, d);
    }
    let stats = b.report().unwrap();
    assert_eq!(stats.mid, 3);
    assert_eq!(stats.avg, 2);
    assert_eq!(stats.min, 1);
    assert_eq!(stats.max, 4);
}

#[test]
fn report_sorts_unsorted_durations() {
    let mut b = Benchmark::new("unsorted");
    for d in [5u64, 1, 4, 2, 3] {
        b.add(9, d);
    }
    let stats = b.report().unwrap();
    assert_eq!(stats.min, 1);
    assert_eq!(stats.mid, 3);
    assert_eq!(stats.max, 5);
    assert_eq!(stats.avg, 3);
}

#[test]
fn report_empty_dataset() {
    let b = Benchmark::new("empty");
    assert_eq!(b.report(), Err(BenchmarkError::EmptyDataset));
}

#[test]
fn report_correctness_violation() {
    let mut b = Benchmark::new("violated");
    b.add(7, 10);
    b.add(7, 20);
    b.add(8, 30);
    assert_eq!(b.report(), Err(BenchmarkError::CorrectnessViolation));
}

#[test]
fn report_single_record() {
    let mut b = Benchmark::new("single");
    b.add(42, 17);
    let stats = b.report().unwrap();
    assert_eq!(stats.avg, 17);
    assert_eq!(stats.mid, 17);
    assert_eq!(stats.min, 17);
    assert_eq!(stats.max, 17);
}

#[test]
fn report_stats_lie_between_min_and_max() {
    let mut b = Benchmark::new("bounds");
    for d in [10u64, 7, 99] {
        b.add(1, d);
    }
    let stats = b.report().unwrap();
    assert!(stats.min <= stats.mid && stats.mid <= stats.max);
    assert!(stats.min <= stats.avg && stats.avg <= stats.max);
    assert_eq!(stats.min, 7);
    assert_eq!(stats.mid, 10);
    assert_eq!(stats.max, 99);
    assert_eq!(stats.avg, 38);
}

#[test]
fn harness_keeps_its_name() {
    let b = Benchmark::new("count_odds_sequential");
    assert_eq!(b.name(), "count_odds_sequential");
}
