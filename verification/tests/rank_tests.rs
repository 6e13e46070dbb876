use mbd::binomial_choose_2;
use mbd::extents;
use mbd::partition;
use mbd::partition_scan;

#[test]
fn test_binomial_choose_2() {
    assert_eq!(binomial_choose_2(5), 10);
    assert_eq!(binomial_choose_2(2), 1);
    assert_eq!(binomial_choose_2(3), 3);
    assert_eq!(binomial_choose_2(10_000), 49_995_000);
    assert_eq!(binomial_choose_2(10_001), 50_005_000);
}

#[test]
fn test_binomial_choose_2_degenerate() {
    assert_eq!(binomial_choose_2(0), 0);
    assert_eq!(binomial_choose_2(1), 0);
}

#[test]
fn test_extents() {
    let seq: [i64; 10] = [1, 1, 2, 3, 4, 4, 4, 5, 8, 9];
    assert_eq!(extents(&seq, 4, 4), (4, 7));
    assert_eq!(extents(&seq, 4, 5), (4, 7));
    assert_eq!(extents(&seq, 4, 6), (4, 7));

    assert_eq!(extents(&seq, 1, 0), (0, 2));
    assert_eq!(extents(&seq, 1, 1), (0, 2));

    assert_eq!(extents(&seq, 2, 2), (2, 3));

    assert_eq!(extents(&seq, 9, 9), (9, 10));
}

#[test]
fn test_partition() {
    let seq: [i64; 10] = [1, 1, 2, 3, 4, 4, 4, 5, 8, 9];
    assert_eq!(partition(&seq, 0), (0, 0, 10));
    assert_eq!(partition(&seq, 1), (0, 2, 8));
    assert_eq!(partition(&seq, 2), (2, 1, 7));
    assert_eq!(partition(&seq, 3), (3, 1, 6));
    assert_eq!(partition(&seq, 4), (4, 3, 3));
    assert_eq!(partition(&seq, 5), (7, 1, 2));
    assert_eq!(partition(&seq, 6), (8, 0, 2));
    assert_eq!(partition(&seq, 7), (8, 0, 2));
    assert_eq!(partition(&seq, 8), (8, 1, 1));
    assert_eq!(partition(&seq, 9), (9, 1, 0));
    assert_eq!(partition(&seq, 10), (10, 0, 0));
}

#[test]
fn test_partition_scan_same_values() {
    let seq: [i64; 10] = [1, 1, 2, 3, 4, 4, 4, 5, 8, 9];
    assert_eq!(partition_scan(&seq, 0), (0, 0, 10));
    assert_eq!(partition_scan(&seq, 1), (0, 2, 8));
    assert_eq!(partition_scan(&seq, 2), (2, 1, 7));
    assert_eq!(partition_scan(&seq, 3), (3, 1, 6));
    assert_eq!(partition_scan(&seq, 4), (4, 3, 3));
    assert_eq!(partition_scan(&seq, 5), (7, 1, 2));
    assert_eq!(partition_scan(&seq, 6), (8, 0, 2));
    assert_eq!(partition_scan(&seq, 7), (8, 0, 2));
    assert_eq!(partition_scan(&seq, 8), (8, 1, 1));
    assert_eq!(partition_scan(&seq, 9), (9, 1, 0));
    assert_eq!(partition_scan(&seq, 10), (10, 0, 0));
}

#[test]
fn test_strategies_agree_all_equal() {
    let seq: [i64; 5] = [7, 7, 7, 7, 7];
    for x in 5..10 {
        assert_eq!(partition(&seq, x), partition_scan(&seq, x));
    }
    assert_eq!(partition(&seq, 7), (0, 5, 0));
}

#[test]
fn test_strategies_agree_all_distinct() {
    let seq: [i64; 6] = [-9, -3, 0, 2, 5, 11];
    for x in -12..14 {
        assert_eq!(partition(&seq, x), partition_scan(&seq, x));
    }
}

#[test]
fn test_strategies_agree_mixed_ties() {
    let seq: [i64; 8] = [-2, -2, 0, 0, 0, 3, 3, 9];
    for x in -4..11 {
        let (lt, eq, gt) = partition(&seq, x);
        assert_eq!((lt, eq, gt), partition_scan(&seq, x));
        assert_eq!(lt + eq + gt, seq.len());
    }
}

#[test]
fn test_partition_empty_block() {
    let seq: [i64; 0] = [];
    assert_eq!(partition(&seq, 3), (0, 0, 0));
    assert_eq!(partition_scan(&seq, 3), (0, 0, 0));
}
