//! Tests for scoring request checks and the per-process table

use chronosynd::scoring::{check_scoring_request, BaselineShape, ProcessTable, ScoringError};

fn shape(dim: usize) -> BaselineShape {
    BaselineShape {
        feature_dim: dim,
        mean_len: dim,
        std_len: dim,
    }
}

#[test]
fn missing_baseline_returns_not_cached_error() {
    let err = check_scoring_request("ghost", None, 4, true).unwrap_err();
    assert!(matches!(err, ScoringError::BaselineNotCached(ref name) if name == "ghost"));
}

#[test]
fn dimension_mismatch_is_rejected() {
    let err = check_scoring_request("nginx", Some(shape(4)), 5, true).unwrap_err();
    assert!(matches!(
        err,
        ScoringError::DimensionMismatch {
            got: 5,
            expected: 4,
            ..
        }
    ));
}

#[test]
fn non_finite_observation_is_rejected() {
    let err = check_scoring_request("nginx", Some(shape(3)), 3, false).unwrap_err();
    assert!(matches!(err, ScoringError::NonFiniteObservation(_)));
}

#[test]
fn corrupt_cached_baseline_fails_closed() {
    let corrupt = BaselineShape {
        feature_dim: 4,
        mean_len: 3,
        std_len: 4,
    };
    let err = check_scoring_request("nginx", Some(corrupt), 4, true).unwrap_err();
    assert!(matches!(
        err,
        ScoringError::DimensionMismatch {
            got: 3,
            expected: 4,
            ..
        }
    ));
    let corrupt_std = BaselineShape {
        feature_dim: 4,
        mean_len: 4,
        std_len: 9,
    };
    assert!(check_scoring_request("nginx", Some(corrupt_std), 4, true).is_err());
}

#[test]
fn well_formed_request_passes() {
    assert!(check_scoring_request("nginx", Some(shape(4)), 4, true).is_ok());
}

#[test]
fn table_reads_back_what_was_written() {
    let mut table: ProcessTable<u32> = ProcessTable::new();
    assert_eq!(table.len(), 0);
    table.insert("nginx".into(), 1);
    table.insert("sshd".into(), 2);
    assert_eq!(table.get("nginx"), Some(&1));
    assert_eq!(table.get("sshd"), Some(&2));
    assert_eq!(table.get("bash"), None);
    assert_eq!(table.len(), 2);
}

#[test]
fn upsert_replaces_existing_value_for_same_key() {
    let mut table: ProcessTable<u32> = ProcessTable::new();
    table.insert("nginx".into(), 1);
    table.insert("nginx".into(), 5);
    assert_eq!(table.len(), 1);
    assert_eq!(table.get("nginx"), Some(&5));
}

#[test]
fn forget_drops_the_key() {
    let mut table: ProcessTable<u32> = ProcessTable::new();
    table.insert("nginx".into(), 1);
    table.insert("sshd".into(), 2);
    table.remove("nginx");
    assert_eq!(table.len(), 1);
    assert_eq!(table.get("nginx"), None);
    assert_eq!(table.get("sshd"), Some(&2));
    table.remove("absent");
    assert_eq!(table.len(), 1);
}
