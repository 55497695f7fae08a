//! Tests for reading recordings and replaying them through the extractor

use chronosynd::demo::{make_event, synthetic_event_stream};
use chronosynd::event::{EventKind, WireEvent};
use chronosynd::ngram::FeatureError;
use chronosynd::recording::{read_recording, read_recording_filter, RecordedLine, RecordingError};
use chronosynd::replay::extract_windows_from_events;

fn record_lines() -> Vec<RecordedLine> {
    synthetic_event_stream()
        .iter()
        .map(|e| RecordedLine::Record(WireEvent::from_event(e)))
        .collect()
}

#[test]
fn synthetic_stream_has_three_windows_of_sixteen() {
    let events = synthetic_event_stream();
    assert_eq!(events.len(), 48);
    assert!(events.iter().all(|e| e.comm == "nginx"));
    assert_eq!(events[0].syscall_nr, 0);
    assert_eq!(events[8].syscall_nr, 257);
    assert_eq!(events[32].syscall_nr, 59);
    assert_eq!(events[32].kind, EventKind::Exec);
    assert_eq!(events[31].kind, EventKind::FileOpen);
    assert_eq!(events[47].ts_ns, 1_000_000_000 + 47 * 1_000_000);
}

#[test]
fn make_event_builds_a_demo_nginx_event() {
    let e = make_event(9, 3, EventKind::NetConnect);
    assert_eq!((e.ts_ns, e.syscall_nr, e.kind), (9, 3, EventKind::NetConnect));
    assert_eq!((e.pid, e.tgid, e.uid), (4242, 4242, 33));
    assert_eq!(e.comm, "nginx");
    assert_eq!(e.arg0, "");
}

#[test]
fn recorded_events_round_trip_through_read_recording() {
    let events = read_recording(record_lines()).expect("recording reads cleanly");
    assert_eq!(events.len(), 48);
    assert!(events.iter().all(|event| event.comm == "nginx"));
    assert_eq!(events, synthetic_event_stream());
}

#[test]
fn blank_lines_are_skipped() {
    let mut lines = record_lines();
    lines.insert(3, RecordedLine::Blank);
    lines.push(RecordedLine::Blank);
    let events = read_recording(lines).unwrap();
    assert_eq!(events.len(), 48);
}

#[test]
fn malformed_final_line_is_dropped() {
    let mut lines = record_lines();
    lines.push(RecordedLine::Malformed("EOF while parsing".into()));
    let events = read_recording(lines).unwrap();
    assert_eq!(events.len(), 48);
}

#[test]
fn malformed_line_followed_by_more_is_corruption() {
    let mut lines = record_lines();
    lines.insert(10, RecordedLine::Malformed("expected value".into()));
    let err = read_recording(lines).unwrap_err();
    assert_eq!(
        err,
        RecordingError::MidFileCorruption {
            line: 11,
            message: "expected value".into()
        }
    );
}

#[test]
fn malformed_line_followed_by_a_blank_is_corruption() {
    let lines = vec![
        RecordedLine::Malformed("bad".into()),
        RecordedLine::Blank,
    ];
    assert!(read_recording(lines).is_err());
}

#[test]
fn replay_emits_three_observation_rows_at_default_window() {
    let events = synthetic_event_stream();
    let replay = extract_windows_from_events(&events, "nginx", 16).expect("replay succeeds");
    assert_eq!(replay.events_for_process, 48);
    assert_eq!(replay.rows.len(), 3, "48 events at window=16 yield 3 rows");
    let feature_dim = replay.rows[0].len();
    assert!(replay.rows.iter().all(|row| row.len() == feature_dim));
    // first clean window: 7 reads, 5 writes, 2 closes, 2 openats
    assert_eq!(replay.rows[0][0], 7);
    assert_eq!(replay.rows[0][1], 5);
    assert_eq!(replay.rows[0][3], 2);
    assert_eq!(replay.rows[0][25], 2);
    assert_eq!(replay.rows[0], replay.rows[1]);
    // adversarial window: execve 6, connect 6, clone 4
    assert_eq!(replay.rows[2][18], 6);
    assert_eq!(replay.rows[2][11], 6);
    assert_eq!(replay.rows[2][16], 4);
}

#[test]
fn replay_filters_out_non_matching_process_keys() {
    let events = synthetic_event_stream();
    let replay = extract_windows_from_events(&events, "not-this-process", 16)
        .expect("replay handles empty match cleanly");
    assert_eq!(replay.events_for_process, 0);
    assert_eq!(replay.rows.len(), 0);
    assert_eq!(replay.total_events_read, 48);
}

#[test]
fn replay_drops_the_trailing_partial_window() {
    let events = synthetic_event_stream();
    let replay = extract_windows_from_events(&events, "nginx", 20).unwrap();
    assert_eq!(replay.rows.len(), 2);
    let replay = extract_windows_from_events(&events, "nginx", 8).unwrap();
    assert_eq!(replay.rows.len(), 6);
}

#[test]
fn replay_rejects_zero_window() {
    let events = synthetic_event_stream();
    let err = extract_windows_from_events(&events, "nginx", 0).err().unwrap();
    assert!(matches!(err, FeatureError::InvalidParameter(_)));
}

#[test]
fn filter_keeps_accepted_events_in_order() {
    let mut lines = record_lines();
    lines.truncate(5);
    lines.insert(2, RecordedLine::Blank);
    let all = read_recording(lines.clone()).unwrap();
    let kept = read_recording_filter(lines, |e: &chronosynd::event::Event| e.ts_ns % 2 == 0).unwrap();
    let expected: Vec<u64> = all.iter().map(|e| e.ts_ns).filter(|t| t % 2 == 0).collect();
    let got: Vec<u64> = kept.iter().map(|e| e.ts_ns).collect();
    assert_eq!(got, expected);
}

#[test]
fn filter_reports_mid_file_corruption() {
    let mut lines = record_lines();
    lines.truncate(3);
    lines.insert(1, RecordedLine::Malformed("bad".into()));
    let err = read_recording_filter(lines, |_: &chronosynd::event::Event| true).unwrap_err();
    assert_eq!(err, RecordingError::MidFileCorruption { line: 2, message: "bad".into() });
}
