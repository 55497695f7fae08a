//! Tests for events, their wire form and log sanitization

use chronosynd::event::{sanitize_for_log, Event, EventKind, WireEvent};

fn sample_event(kind: EventKind) -> Event {
    Event {
        ts_ns: 1_700_000_000_123,
        pid: 77,
        tgid: 70,
        uid: 1000,
        syscall_nr: 257,
        kind,
        comm: "worker".into(),
        arg0: "/etc/passwd".into(),
    }
}

#[test]
fn wire_event_copies_every_field_and_encodes_the_kind() {
    let event = sample_event(EventKind::FileOpen);
    let wire = WireEvent::from_event(&event);
    assert_eq!(wire.ts_ns, 1_700_000_000_123);
    assert_eq!(wire.pid, 77);
    assert_eq!(wire.tgid, 70);
    assert_eq!(wire.uid, 1000);
    assert_eq!(wire.syscall_nr, 257);
    assert_eq!(wire.kind_code, 2);
    assert_eq!(wire.comm, "worker");
    assert_eq!(wire.arg0, "/etc/passwd");
}

#[test]
fn event_round_trips_through_the_wire_form() {
    for kind in [
        EventKind::Exec,
        EventKind::FileOpen,
        EventKind::NetConnect,
        EventKind::ProcessExit,
        EventKind::OtherSyscall,
        EventKind::Unknown(77),
    ] {
        let event = sample_event(kind);
        assert_eq!(WireEvent::from_event(&event).into_event(), event);
    }
}

#[test]
fn unknown_wire_codes_round_trip_cleanly() {
    let wire = WireEvent {
        ts_ns: 5,
        pid: 1,
        tgid: 1,
        uid: 0,
        syscall_nr: 0,
        kind_code: 4242,
        comm: "x".into(),
        arg0: String::new(),
    };
    let event = wire.clone().into_event();
    assert_eq!(event.kind, EventKind::Unknown(4242));
    assert_eq!(WireEvent::from_event(&event), wire);
}

#[test]
fn sanitize_replaces_control_characters() {
    assert_eq!(sanitize_for_log("nginx"), "nginx");
    assert_eq!(sanitize_for_log("evil\n[ALERT] fake"), "evil?[ALERT] fake");
    assert_eq!(sanitize_for_log("a\tb\u{7f}c\u{85}d"), "a?b?c?d");
    assert_eq!(sanitize_for_log(""), "");
}

#[test]
fn sanitize_caps_at_sixty_four_bytes() {
    let long = "x".repeat(100);
    assert_eq!(sanitize_for_log(&long), "x".repeat(64));
    let exact = "y".repeat(64);
    assert_eq!(sanitize_for_log(&exact), exact);
}

#[test]
fn sanitize_cuts_only_between_characters() {
    // 21 three-byte characters fill 63 bytes, the 22nd would exceed 64
    let wide = "€".repeat(30);
    let out = sanitize_for_log(&wide);
    assert_eq!(out, "€".repeat(21));
    assert!(out.len() <= 64);
}

#[test]
fn sanitize_is_idempotent() {
    let input = "proc\r\nname\u{1b}[31m".repeat(10);
    let once = sanitize_for_log(&input);
    assert_eq!(sanitize_for_log(&once), once);
    assert!(!once.chars().any(|c| c.is_control()));
}
