//! Tests for the shape check on CSV observations and the audit exit status

use chronosynd::audit::{verification_exit_code, AuditVerification, EXIT_CLEAN, EXIT_TAMPERED};
use chronosynd::observations::{observation_shape, CsvRowShape, ObservationShapeError};

#[test]
fn empty_table_has_zero_shape() {
    assert_eq!(observation_shape(&Vec::new()), Ok((0, 0)));
}

#[test]
fn consistent_rows_give_samples_by_features() {
    let rows = vec![CsvRowShape::Columns(3); 4];
    assert_eq!(observation_shape(&rows), Ok((4, 3)));
}

#[test]
fn width_mismatch_reports_row_and_widths() {
    let rows = vec![CsvRowShape::Columns(3), CsvRowShape::Columns(3), CsvRowShape::Columns(2)];
    assert_eq!(
        observation_shape(&rows),
        Err(ObservationShapeError::WidthMismatch { row: 3, got: 2, expected: 3 })
    );
}

#[test]
fn first_bad_row_wins() {
    let rows = vec![
        CsvRowShape::Columns(2),
        CsvRowShape::Columns(5),
        CsvRowShape::FloatError,
    ];
    assert_eq!(
        observation_shape(&rows),
        Err(ObservationShapeError::WidthMismatch { row: 2, got: 5, expected: 2 })
    );
    let rows = vec![CsvRowShape::Columns(2), CsvRowShape::FloatError, CsvRowShape::Columns(5)];
    assert_eq!(observation_shape(&rows), Err(ObservationShapeError::Float { row: 2 }));
    let rows = vec![CsvRowShape::RecordError];
    assert_eq!(observation_shape(&rows), Err(ObservationShapeError::Record { row: 1 }));
}

#[test]
fn zero_column_rows_are_refused() {
    let rows = vec![CsvRowShape::Columns(0), CsvRowShape::Columns(0)];
    assert_eq!(observation_shape(&rows), Err(ObservationShapeError::ZeroColumns));
}

#[test]
fn exit_code_separates_clean_from_tampered() {
    let clean = AuditVerification { valid: true, last_seq: 3, broken_at_seq: None, row_count: 3 };
    let broken = AuditVerification { valid: false, last_seq: 3, broken_at_seq: Some(2), row_count: 3 };
    assert_eq!(verification_exit_code(&clean), EXIT_CLEAN);
    assert_eq!(verification_exit_code(&broken), EXIT_TAMPERED);
    assert_eq!(EXIT_CLEAN, 0);
    assert_eq!(EXIT_TAMPERED, 2);
}
