use mbd::DepthError;
use mbd::ModifiedBandDepth;

#[test]
fn test_from_samples() {
    let data: Vec<Vec<i64>> = vec![vec![4, 5, 6], vec![1, 2, 3]];
    let mbd = ModifiedBandDepth::from_samples(&data).unwrap();
    assert_eq!(mbd.num_samples(), 2);
    assert_eq!(mbd.num_timepoints(), 3);
    assert_eq!(mbd.sorted_values(), &vec![1, 4, 2, 5, 3, 6]);
}

#[test]
fn test_fully_contained() {
    let data: Vec<Vec<i64>> = vec![vec![4, 5, 6], vec![1, 2, 3]];
    let mbd = ModifiedBandDepth::from_samples(&data).unwrap();
    let score = mbd.query(&[2, 3, 4]).unwrap();
    assert_eq!(score.numerator, score.denominator);
    assert_eq!(score.numerator, 3);
    assert_eq!(score.denominator, 3);
}

#[test]
fn test_query_above_all_curves() {
    let data: Vec<Vec<i64>> = vec![vec![4, 5, 6], vec![1, 2, 3]];
    let mbd = ModifiedBandDepth::from_samples(&data).unwrap();
    let score = mbd.query(&[5, 6, 7]).unwrap();
    assert_eq!(score.numerator, 0);
    assert_eq!(score.denominator, 3);
}

#[test]
fn test_query_below_all_curves() {
    let data: Vec<Vec<i64>> = vec![vec![4, 5, 6], vec![1, 2, 3]];
    let mbd = ModifiedBandDepth::from_samples(&data).unwrap();
    let score = mbd.query(&[0, 1, 2]).unwrap();
    assert_eq!(score.numerator, 0);
    assert_eq!(score.denominator, 3);
}

#[test]
fn test_construction_equivalence() {
    let flat: [i64; 6] = [4, 5, 6, 1, 2, 3];
    let from_matrix = ModifiedBandDepth::from_data_matrix(2, 3, &flat).unwrap();
    let data: Vec<Vec<i64>> = vec![vec![4, 5, 6], vec![1, 2, 3]];
    let from_list = ModifiedBandDepth::from_samples(&data).unwrap();
    assert_eq!(from_matrix.num_samples(), from_list.num_samples());
    assert_eq!(from_matrix.num_timepoints(), from_list.num_timepoints());
    assert_eq!(from_matrix.sorted_values(), from_list.sorted_values());
}

#[test]
fn test_query_with_ties() {
    // One timepoint, reference values 1, 1, 3. Querying 1 hits two tied
    // values: 2 straddling pairs plus 1 tied pair of C(3, 2) = 3 total.
    let data: Vec<Vec<i64>> = vec![vec![1], vec![1], vec![3]];
    let mbd = ModifiedBandDepth::from_samples(&data).unwrap();
    let at_tie = mbd.query(&[1]).unwrap();
    assert_eq!(at_tie.numerator, 3);
    assert_eq!(at_tie.denominator, 3);
    // Querying 2 is enclosed by the two (1, 3) pairs only.
    let between = mbd.query(&[2]).unwrap();
    assert_eq!(between.numerator, 2);
    assert_eq!(between.denominator, 3);
}

#[test]
fn test_query_reference_median_curve() {
    let data: Vec<Vec<i64>> = vec![vec![1, 2], vec![3, 4], vec![5, 6]];
    let mbd = ModifiedBandDepth::from_samples(&data).unwrap();
    let score = mbd.query(&[3, 4]).unwrap();
    assert_eq!(score.numerator, 6);
    assert_eq!(score.denominator, 6);
}

#[test]
fn test_range_property_samples() {
    let data: Vec<Vec<i64>> = vec![vec![10, -4, 7], vec![2, 2, 2], vec![-5, 9, 0], vec![1, 1, 8]];
    let mbd = ModifiedBandDepth::from_samples(&data).unwrap();
    let queries: Vec<Vec<i64>> = vec![
        vec![0, 0, 0],
        vec![-100, 100, 3],
        vec![10, -4, 7],
        vec![2, 2, 2],
        vec![50, 50, 50],
    ];
    for q in &queries {
        let score = mbd.query(q).unwrap();
        assert!(score.numerator <= score.denominator);
        assert_eq!(score.denominator, 18);
    }
}

#[test]
fn test_degenerate_reference_set() {
    let data: Vec<Vec<i64>> = vec![vec![1, 2, 3]];
    let mbd = ModifiedBandDepth::from_samples(&data).unwrap();
    assert_eq!(mbd.num_samples(), 1);
    let r = mbd.query(&[1, 2, 3]);
    assert_eq!(r, Err(DepthError::DegenerateReferenceSet));
}

#[test]
fn test_query_dimension_mismatch() {
    let data: Vec<Vec<i64>> = vec![vec![4, 5, 6], vec![1, 2, 3]];
    let mbd = ModifiedBandDepth::from_samples(&data).unwrap();
    assert_eq!(mbd.query(&[2, 3]), Err(DepthError::DimensionMismatch));
    assert_eq!(mbd.query(&[2, 3, 4, 5]), Err(DepthError::DimensionMismatch));
}

#[test]
fn test_matrix_dimension_mismatch() {
    let flat: [i64; 3] = [1, 2, 3];
    let r = ModifiedBandDepth::from_data_matrix(2, 3, &flat);
    assert_eq!(r, Err(DepthError::DimensionMismatch));
}

#[test]
fn test_empty_ensemble_invalid() {
    let data: Vec<Vec<i64>> = vec![];
    assert_eq!(ModifiedBandDepth::from_samples(&data), Err(DepthError::InvalidInput));
    let flat: [i64; 0] = [];
    assert_eq!(ModifiedBandDepth::from_data_matrix(0, 3, &flat), Err(DepthError::InvalidInput));
}

#[test]
fn test_zero_timepoints_invalid() {
    let data: Vec<Vec<i64>> = vec![vec![], vec![]];
    assert_eq!(ModifiedBandDepth::from_samples(&data), Err(DepthError::InvalidInput));
    let flat: [i64; 0] = [];
    assert_eq!(ModifiedBandDepth::from_data_matrix(2, 0, &flat), Err(DepthError::InvalidInput));
}

#[test]
fn test_inconsistent_curve_lengths_invalid() {
    let data: Vec<Vec<i64>> = vec![vec![1, 2, 3], vec![1, 2]];
    assert_eq!(ModifiedBandDepth::from_samples(&data), Err(DepthError::InvalidInput));
}
