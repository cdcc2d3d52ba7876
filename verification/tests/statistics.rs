use swarm::stats::calculate_stats;

#[test]
fn empty_table_yields_zeros() {
    let stats = calculate_stats(&Vec::new());
    assert_eq!(stats.average, 0);
    assert_eq!(stats.median, 0);
    assert_eq!(stats.p95, 0);
    assert_eq!(stats.p99, 0);
}

#[test]
fn single_sample_stats() {
    let stats = calculate_stats(&vec![(42, 1)]);
    assert_eq!(stats.average, 42);
    assert_eq!(stats.median, 42);
    assert_eq!(stats.p95, 42);
    assert_eq!(stats.p99, 42);
}

#[test]
fn even_sample_count_averages_the_middle_pair() {
    // Samples: 10, 20, 20, 20. Average 70/4 = 17; ranks 2 and 3 are both
    // 20; p95 and p99 ask for rank 4.
    let stats = calculate_stats(&vec![(10, 1), (20, 3)]);
    assert_eq!(stats.average, 17);
    assert_eq!(stats.median, 20);
    assert_eq!(stats.p95, 20);
    assert_eq!(stats.p99, 20);
}

#[test]
fn odd_sample_count_takes_the_middle() {
    // Samples: 1, 2, 3.
    let stats = calculate_stats(&vec![(1, 1), (2, 1), (3, 1)]);
    assert_eq!(stats.average, 2);
    assert_eq!(stats.median, 2);
    assert_eq!(stats.p95, 3);
    assert_eq!(stats.p99, 3);
}

#[test]
fn middle_pair_of_distinct_values_is_averaged() {
    // Samples: 10, 20, 30, 40: the middle pair is 20 and 30.
    let stats = calculate_stats(&vec![(10, 1), (20, 1), (30, 1), (40, 1)]);
    assert_eq!(stats.median, 25);
}

#[test]
fn percentiles_pick_the_tail_of_many_samples() {
    // 100 samples: 1..=100, one each. p95 is the 95th, p99 the 99th.
    let mut table = Vec::new();
    for d in 1..=100usize {
        table.push((d, 1));
    }
    let stats = calculate_stats(&table);
    assert_eq!(stats.p95, 95);
    assert_eq!(stats.p99, 99);
    assert_eq!(stats.median, 50);
    assert_eq!(stats.average, 50);
}

#[test]
fn stats_never_decrease_when_a_larger_sample_arrives() {
    let base = vec![(10, 2), (20, 1), (30, 2)];
    let before = calculate_stats(&base);
    // One more sample at 30, the current maximum, lands on the last row.
    let after_equal = calculate_stats(&vec![(10, 2), (20, 1), (30, 3)]);
    assert!(after_equal.average >= before.average);
    assert!(after_equal.median >= before.median);
    assert!(after_equal.p95 >= before.p95);
    assert!(after_equal.p99 >= before.p99);
    // One more sample above the maximum appends a row.
    let after_larger = calculate_stats(&vec![(10, 2), (20, 1), (30, 2), (99, 1)]);
    assert!(after_larger.average >= before.average);
    assert!(after_larger.median >= before.median);
    assert!(after_larger.p95 >= before.p95);
    assert!(after_larger.p99 >= before.p99);
}
