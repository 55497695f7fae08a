//! Unit tests for the synthetic event source and the kind codes

use chronosynd::event::{
    kind_to_code, Event, EventKind, RAW_EVENT_KIND_EXEC, RAW_EVENT_KIND_FILE_OPEN,
    RAW_EVENT_KIND_NET_CONNECT, RAW_EVENT_KIND_OTHER_SYSCALL, RAW_EVENT_KIND_PROCESS_EXIT,
};
use chronosynd::source::{EventSource, EventSourceError, SyntheticSource};

fn sample_events() -> Vec<Event> {
    vec![
        Event {
            ts_ns: 100,
            pid: 1,
            tgid: 1,
            uid: 0,
            syscall_nr: 59,
            kind: EventKind::Exec,
            comm: "init".into(),
            arg0: "/sbin/init".into(),
        },
        Event {
            ts_ns: 200,
            pid: 2,
            tgid: 2,
            uid: 1000,
            syscall_nr: 41,
            kind: EventKind::NetConnect,
            comm: "curl".into(),
            arg0: "1.2.3.4:443".into(),
        },
    ]
}

#[test]
fn yields_events_in_order() {
    let mut source = SyntheticSource::new(sample_events());
    let first = source.next_event().expect("first event");
    let second = source.next_event().expect("second event");
    assert_eq!(first.pid, 1);
    assert_eq!(second.pid, 2);
}

#[test]
fn signals_closed_when_exhausted() {
    let mut source = SyntheticSource::new(sample_events());
    let _ = source.next_event().unwrap();
    let _ = source.next_event().unwrap();
    let err = source.next_event().unwrap_err();
    assert!(matches!(err, EventSourceError::Closed));
}

#[test]
fn empty_source_signals_closed_immediately() {
    let mut source = SyntheticSource::new(Vec::new());
    let err = source.next_event().unwrap_err();
    assert!(matches!(err, EventSourceError::Closed));
}

#[test]
fn remaining_decrements_with_each_event() {
    let mut source = SyntheticSource::new(sample_events());
    assert_eq!(source.remaining(), 2);
    source.next_event().unwrap();
    assert_eq!(source.remaining(), 1);
    source.next_event().unwrap();
    assert_eq!(source.remaining(), 0);
}

#[test]
fn event_kind_from_code_round_trips_known_values() {
    assert_eq!(EventKind::from_code(RAW_EVENT_KIND_EXEC), EventKind::Exec);
    assert_eq!(EventKind::from_code(RAW_EVENT_KIND_FILE_OPEN), EventKind::FileOpen);
    assert_eq!(
        EventKind::from_code(RAW_EVENT_KIND_NET_CONNECT),
        EventKind::NetConnect,
    );
    assert_eq!(
        EventKind::from_code(RAW_EVENT_KIND_PROCESS_EXIT),
        EventKind::ProcessExit,
    );
}

#[test]
fn event_kind_from_code_passes_through_unknown_codes() {
    assert_eq!(EventKind::from_code(9999), EventKind::Unknown(9999));
}

#[test]
fn exhausted_source_stays_closed() {
    let mut source = SyntheticSource::new(sample_events());
    let _ = source.next_event();
    let _ = source.next_event();
    assert!(matches!(source.next_event().unwrap_err(), EventSourceError::Closed));
    assert!(matches!(source.next_event().unwrap_err(), EventSourceError::Closed));
    assert_eq!(source.remaining(), 0);
}

#[test]
fn yielded_event_equals_the_stored_one() {
    let events = sample_events();
    let mut source = SyntheticSource::new(events.clone());
    assert_eq!(source.next_event().unwrap(), events[0]);
    assert_eq!(source.next_event().unwrap(), events[1]);
}

#[test]
fn every_code_survives_decode_then_encode() {
    for code in [0u32, 1, 2, 3, 4, 5, 6, 9999, u32::MAX] {
        assert_eq!(kind_to_code(EventKind::from_code(code)), code);
    }
    assert_eq!(EventKind::from_code(RAW_EVENT_KIND_OTHER_SYSCALL), EventKind::OtherSyscall);
}

#[test]
fn named_kinds_survive_encode_then_decode() {
    for kind in [
        EventKind::Exec,
        EventKind::FileOpen,
        EventKind::NetConnect,
        EventKind::ProcessExit,
        EventKind::OtherSyscall,
        EventKind::Unknown(42),
    ] {
        assert_eq!(EventKind::from_code(kind_to_code(kind)), kind);
    }
}
