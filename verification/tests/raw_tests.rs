//! Tests for decoding kernel ring-buffer records

use chronosynd::event::EventKind;
use chronosynd::raw::{decode_raw_event, null_terminated_string, raw_to_event, RAW_EVENT_SIZE};
use chronosynd::source::EventSourceError;

fn ring_item() -> Vec<u8> {
    let mut bytes = Vec::new();
    bytes.extend_from_slice(&123_456_789u64.to_ne_bytes());
    bytes.extend_from_slice(&4242u32.to_ne_bytes());
    bytes.extend_from_slice(&4240u32.to_ne_bytes());
    bytes.extend_from_slice(&33u32.to_ne_bytes());
    bytes.extend_from_slice(&257u32.to_ne_bytes());
    bytes.extend_from_slice(&2u32.to_ne_bytes());
    bytes.extend_from_slice(&0u32.to_ne_bytes());
    let mut comm = [0u8; 16];
    comm[..5].copy_from_slice(b"nginx");
    bytes.extend_from_slice(&comm);
    let mut arg0 = [0u8; 64];
    arg0[..11].copy_from_slice(b"/etc/passwd");
    bytes.extend_from_slice(&arg0);
    bytes
}

#[test]
fn decodes_a_full_ring_item() {
    let bytes = ring_item();
    assert_eq!(bytes.len(), RAW_EVENT_SIZE);
    let raw = decode_raw_event(&bytes).unwrap();
    assert_eq!(raw.ts_ns, 123_456_789);
    assert_eq!(raw.pid, 4242);
    assert_eq!(raw.tgid, 4240);
    assert_eq!(raw.uid, 33);
    assert_eq!(raw.syscall_nr, 257);
    assert_eq!(raw.kind, 2);
    assert_eq!(&raw.comm[..6], b"nginx\0");
    let event = raw_to_event(&raw);
    assert_eq!(event.kind, EventKind::FileOpen);
    assert_eq!(event.comm, "nginx");
    assert_eq!(event.arg0, "/etc/passwd");
    assert_eq!(event.pid, 4242);
}

#[test]
fn short_ring_item_is_a_backend_error() {
    let bytes = ring_item();
    let err = decode_raw_event(&bytes[..111]).unwrap_err();
    assert!(matches!(err, EventSourceError::Backend(ref m) if m.contains("111")));
}

#[test]
fn longer_ring_item_decodes_its_prefix() {
    let mut bytes = ring_item();
    bytes.extend_from_slice(&[9, 9, 9]);
    assert_eq!(decode_raw_event(&bytes).unwrap().syscall_nr, 257);
}

#[test]
fn null_terminated_string_stops_at_first_zero() {
    assert_eq!(null_terminated_string(b"bash\0junk"), "bash");
    assert_eq!(null_terminated_string(b"full-width-comm!"), "full-width-comm!");
    assert_eq!(null_terminated_string(b"\0abc"), "");
    assert_eq!(null_terminated_string(b""), "");
}

#[test]
fn invalid_utf8_becomes_replacement_character() {
    assert_eq!(null_terminated_string(&[b'a', 0xff, b'b', 0]), "a\u{FFFD}b");
}
