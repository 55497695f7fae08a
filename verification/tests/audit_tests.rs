//! Tests for the hash-chained audit log

use chronosynd::audit::{
    compute_row_hash, decode_hash, next_audit_row, verify_audit_rows, AuditRow, AuditVerification,
    StorageError,
};
use sha2::{Digest, Sha256};

fn append(rows: &mut Vec<AuditRow>, ts: u64, op: &str, payload: &str) {
    let row = next_audit_row(rows.last(), ts, op.to_string(), payload.to_string()).unwrap();
    rows.push(row);
}

fn sample_chain() -> Vec<AuditRow> {
    let mut rows = Vec::new();
    append(&mut rows, 1_700_000_000_000, "baseline_put", "{\"process_key\":\"a\"}");
    append(&mut rows, 1_700_000_000_000, "baseline_put", "{\"process_key\":\"b\"}");
    append(&mut rows, 10, "maintenance_start", "{\"id\":1,\"note\":\"test\",\"start_ns\":10}");
    append(&mut rows, 20, "maintenance_end", "{\"end_ns\":20,\"id\":1}");
    rows
}

#[test]
fn empty_store_audit_log_verifies_clean() {
    let report = verify_audit_rows(&Vec::new()).unwrap();
    assert!(report.valid);
    assert_eq!(report.row_count, 0);
    assert_eq!(report.broken_at_seq, None);
    assert_eq!(report.last_seq, 0);
}

#[test]
fn populated_audit_log_verifies_clean() {
    let rows = sample_chain();
    let report = verify_audit_rows(&rows).unwrap();
    assert!(report.valid, "audit verification failed: {report:?}");
    assert_eq!(report.row_count, 4);
    assert!(report.last_seq >= 4);
}

#[test]
fn first_row_links_to_the_zero_anchor() {
    let rows = sample_chain();
    assert_eq!(rows[0].seq, 1);
    assert_eq!(rows[0].prev_hash, "00".repeat(32));
    assert_eq!(rows[1].prev_hash, rows[0].hash);
    assert_eq!(rows[3].seq, 4);
    assert_eq!(rows[0].hash.len(), 64);
}

#[test]
fn tampering_with_a_payload_is_detected() {
    let mut rows = sample_chain();
    rows[0].payload = "{\"tampered\": true}".to_string();
    let report = verify_audit_rows(&rows).unwrap();
    assert!(!report.valid);
    assert_eq!(report.broken_at_seq, Some(1));
    assert_eq!(report.row_count, 4);
    assert_eq!(report.last_seq, 4);
}

#[test]
fn tampering_with_a_hash_is_detected() {
    let mut rows = sample_chain();
    rows[1].hash = "00".repeat(32);
    let report = verify_audit_rows(&rows).unwrap();
    assert!(!report.valid);
    assert_eq!(report.broken_at_seq, Some(2));
    assert_eq!(report.last_seq, 4);
}

#[test]
fn deleting_a_row_breaks_the_chain() {
    let mut rows = sample_chain();
    rows.remove(1);
    let report = verify_audit_rows(&rows).unwrap();
    assert!(!report.valid);
    assert_eq!(report.broken_at_seq, Some(3));
    assert_eq!(
        report,
        AuditVerification {
            valid: false,
            last_seq: 4,
            broken_at_seq: Some(3),
            row_count: 3
        }
    );
}

#[test]
fn malformed_stored_hash_is_an_invalid_argument() {
    let mut rows = sample_chain();
    rows[2].prev_hash = "not hex".to_string();
    let err = verify_audit_rows(&rows).unwrap_err();
    assert!(matches!(err, StorageError::InvalidArgument(_)));
}

#[test]
fn decode_hash_requires_thirty_two_bytes() {
    assert_eq!(decode_hash(&"ab".repeat(32)).unwrap(), vec![0xab; 32]);
    assert_eq!(decode_hash(&"AB".repeat(32)).unwrap(), vec![0xab; 32]);
    assert!(matches!(decode_hash(&"ab".repeat(31)), Err(StorageError::InvalidArgument(_))));
    assert!(matches!(decode_hash("abc"), Err(StorageError::InvalidArgument(_))));
    assert!(matches!(decode_hash(&"zz".repeat(32)), Err(StorageError::InvalidArgument(_))));
}

#[test]
fn row_hash_covers_length_prefixed_fields() {
    let prev = [7u8; 32];
    let got = compute_row_hash(3, 99, b"op", b"payload", &prev);
    let mut hasher = Sha256::new();
    hasher.update(3i64.to_le_bytes());
    hasher.update(99u64.to_le_bytes());
    hasher.update(2u64.to_le_bytes());
    hasher.update(b"op");
    hasher.update(7u64.to_le_bytes());
    hasher.update(b"payload");
    hasher.update(prev);
    let expected: [u8; 32] = hasher.finalize().into();
    assert_eq!(got, expected.to_vec());
}

#[test]
fn negative_sequence_numbers_hash_in_twos_complement() {
    let prev = [0u8; 32];
    let got = compute_row_hash(-2, u64::MAX, b"", b"", &prev);
    let mut hasher = Sha256::new();
    hasher.update((-2i64).to_le_bytes());
    hasher.update(u64::MAX.to_le_bytes());
    hasher.update(0u64.to_le_bytes());
    hasher.update(0u64.to_le_bytes());
    hasher.update(prev);
    let expected: [u8; 32] = hasher.finalize().into();
    assert_eq!(got, expected.to_vec());
}

#[test]
fn large_timestamps_survive_storage_as_signed() {
    let mut rows = Vec::new();
    append(&mut rows, u64::MAX - 5, "op", "p");
    assert_eq!(rows[0].ts_ns, -6);
    assert!(verify_audit_rows(&rows).unwrap().valid);
}

#[test]
fn appending_after_a_malformed_hash_fails() {
    let mut rows = sample_chain();
    rows[3].hash = "xyz".into();
    let err = next_audit_row(rows.last(), 1, "op".into(), "p".into()).unwrap_err();
    assert!(matches!(err, StorageError::InvalidArgument(_)));
}
