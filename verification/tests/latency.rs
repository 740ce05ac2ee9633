use ranker_rs::latency::percentiles;

#[test]
fn nearest_rank_percentiles_of_ten_times() {
    // ten per-document times; p50 reads sorted index 5, p95 index 9
    let times: Vec<u64> = vec![10, 9, 8, 7, 6, 5, 4, 3, 2, 1];
    assert_eq!(percentiles(&times), (6, 10));
}

#[test]
fn percentiles_of_an_empty_record_are_zero() {
    let times: Vec<u64> = Vec::new();
    assert_eq!(percentiles(&times), (0, 0));
}

#[test]
fn percentiles_of_a_single_time_read_it_twice() {
    let times: Vec<u64> = vec![7];
    assert_eq!(percentiles(&times), (7, 7));
}

#[test]
fn percentiles_with_duplicate_times() {
    let times: Vec<u64> = vec![4, 2, 4, 2];
    // sorted: [2, 2, 4, 4]; p50 index 2, p95 index 3
    assert_eq!(percentiles(&times), (4, 4));
}
