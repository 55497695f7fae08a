//! Tests for baseline record validation, maintenance windows and estimator checks

use chronosynd::audit::StorageError;
use chronosynd::baseline::{
    trimmed_range, validate_batch, validate_batch_for_score, validate_observation, BaselineError,
};
use chronosynd::storage::{check_baseline_dims, decode_baseline_fields, BaselineRowFields};

#[test]
fn put_rejects_mean_dimension_mismatch() {
    let err = check_baseline_dims(4, 3, 4).unwrap_err();
    assert!(matches!(err, StorageError::InvalidArgument(_)));
}

#[test]
fn put_rejects_std_dimension_mismatch() {
    let err = check_baseline_dims(4, 4, 5).unwrap_err();
    assert!(matches!(err, StorageError::InvalidArgument(ref m) if m.contains("std length 5")));
}

#[test]
fn consistent_baseline_dims_pass() {
    assert!(check_baseline_dims(4, 4, 4).is_ok());
}

#[test]
fn fit_rejects_empty_window() {
    assert!(matches!(validate_batch(0, 3, true), Err(BaselineError::EmptyLearningWindow(_))));
}

#[test]
fn fit_rejects_zero_columns() {
    assert!(matches!(validate_batch(5, 0, true), Err(BaselineError::DimensionMismatch(_))));
}

#[test]
fn fit_rejects_non_finite_values() {
    assert!(matches!(validate_batch(5, 2, false), Err(BaselineError::InvalidObservation(_))));
    assert!(validate_batch(5, 2, true).is_ok());
}

#[test]
fn score_rejects_dimension_mismatch() {
    assert!(matches!(validate_observation(10, 2, true), Err(BaselineError::DimensionMismatch(_))));
    assert!(matches!(validate_observation(2, 2, false), Err(BaselineError::InvalidObservation(_))));
    assert!(validate_observation(2, 2, true).is_ok());
    assert!(matches!(validate_batch_for_score(3, 2, true), Err(BaselineError::DimensionMismatch(_))));
    assert!(validate_batch_for_score(2, 2, true).is_ok());
}

#[test]
fn trim_keeps_the_middle_and_needs_a_survivor() {
    assert_eq!(trimmed_range(10, 1), Some((1, 9)));
    assert_eq!(trimmed_range(10, 0), Some((0, 10)));
    assert_eq!(trimmed_range(3, 1), Some((1, 2)));
    assert_eq!(trimmed_range(2, 1), None);
    assert_eq!(trimmed_range(0, 0), None);
}

#[test]
fn negative_width_or_count_is_a_corrupt_row() {
    assert!(matches!(decode_baseline_fields(-1, 0, 5), Err(StorageError::CorruptRow(_))));
    assert!(matches!(decode_baseline_fields(3, 0, -5), Err(StorageError::CorruptRow(_))));
    assert_eq!(
        decode_baseline_fields(3, -1, 500).unwrap(),
        BaselineRowFields {
            feature_dim: 3,
            fitted_at_ns: u64::MAX,
            sample_count: 500
        }
    );
}
