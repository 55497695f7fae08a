//! Behavioral events as the collector hands them to the feature layer, the
//! kernel kind codes, and the flat wire form written to recordings.

use vstd::prelude::*;

verus! {

/// Process spawned a new image via execve
pub const RAW_EVENT_KIND_EXEC: u32 = 1;
/// Process opened a file
pub const RAW_EVENT_KIND_FILE_OPEN: u32 = 2;
/// Process initiated an outbound network connection
pub const RAW_EVENT_KIND_NET_CONNECT: u32 = 3;
/// Process exited
pub const RAW_EVENT_KIND_PROCESS_EXIT: u32 = 4;
/// Any syscall outside the explicitly classified kinds above
pub const RAW_EVENT_KIND_OTHER_SYSCALL: u32 = 5;

/// Behavioral event categories the collector reports
#[derive(Debug, Clone, Copy, PartialEq, Eq, Structural)]
pub enum EventKind {
    /// Process replaced its image via execve
    Exec,
    /// Process opened a file
    FileOpen,
    /// Process initiated an outbound network connection
    NetConnect,
    /// Process exited
    ProcessExit,
    /// Any syscall outside the explicitly classified kinds above
    OtherSyscall,
    /// Kind code did not match any known category
    Unknown(u32),
}

/// The kind a wire code denotes: the five known codes name their category,
/// every other code is carried through as `Unknown`.
pub open spec fn kind_of_code(code: u32) -> EventKind {
    if code == RAW_EVENT_KIND_EXEC {
        EventKind::Exec
    } else if code == RAW_EVENT_KIND_FILE_OPEN {
        EventKind::FileOpen
    } else if code == RAW_EVENT_KIND_NET_CONNECT {
        EventKind::NetConnect
    } else if code == RAW_EVENT_KIND_PROCESS_EXIT {
        EventKind::ProcessExit
    } else if code == RAW_EVENT_KIND_OTHER_SYSCALL {
        EventKind::OtherSyscall
    } else {
        EventKind::Unknown(code)
    }
}

/// The wire code of a kind: a named category maps to its code, `Unknown`
/// carries its own code.
pub open spec fn code_of_kind(kind: EventKind) -> u32 {
    match kind {
        EventKind::Exec => RAW_EVENT_KIND_EXEC,
        EventKind::FileOpen => RAW_EVENT_KIND_FILE_OPEN,
        EventKind::NetConnect => RAW_EVENT_KIND_NET_CONNECT,
        EventKind::ProcessExit => RAW_EVENT_KIND_PROCESS_EXIT,
        EventKind::OtherSyscall => RAW_EVENT_KIND_OTHER_SYSCALL,
        EventKind::Unknown(code) => code,
    }
}

/// A kind in the form `from_code` produces: `Unknown` never carries one of
/// the five known codes.
pub open spec fn is_canonical_kind(kind: EventKind) -> bool {
    match kind {
        EventKind::Unknown(code) => !(1 <= code <= 5),
        _ => true,
    }
}

impl EventKind {
    /// Decode the wire-format kind code into the typed enum
    pub fn from_code(code: u32) -> (kind: EventKind)
        ensures
            kind == kind_of_code(code),
    {
        match code {
            RAW_EVENT_KIND_EXEC => EventKind::Exec,
            RAW_EVENT_KIND_FILE_OPEN => EventKind::FileOpen,
            RAW_EVENT_KIND_NET_CONNECT => EventKind::NetConnect,
            RAW_EVENT_KIND_PROCESS_EXIT => EventKind::ProcessExit,
            RAW_EVENT_KIND_OTHER_SYSCALL => EventKind::OtherSyscall,
            other => EventKind::Unknown(other),
        }
    }
}

/// Encode a typed kind back into its wire-format code
pub fn kind_to_code(kind: EventKind) -> (code: u32)
    ensures
        code == code_of_kind(kind),
{
    match kind {
        EventKind::Exec => RAW_EVENT_KIND_EXEC,
        EventKind::FileOpen => RAW_EVENT_KIND_FILE_OPEN,
        EventKind::NetConnect => RAW_EVENT_KIND_NET_CONNECT,
        EventKind::ProcessExit => RAW_EVENT_KIND_PROCESS_EXIT,
        EventKind::OtherSyscall => RAW_EVENT_KIND_OTHER_SYSCALL,
        EventKind::Unknown(code) => code,
    }
}

/// Every wire code survives decoding and re-encoding unchanged, unknown
/// codes included.
pub proof fn lemma_code_round_trip(code: u32)
    ensures
        code_of_kind(kind_of_code(code)) == code,
        is_canonical_kind(kind_of_code(code)),
{
}

/// A canonical kind survives encoding and decoding unchanged.
pub proof fn lemma_kind_round_trip(kind: EventKind)
    requires
        is_canonical_kind(kind),
    ensures
        kind_of_code(code_of_kind(kind)) == kind,
{
}


/// A behavioral event captured from the kernel by the collector
#[derive(Debug, Clone, PartialEq, Eq)]
pub struct Event {
    /// Monotonic nanosecond timestamp the kernel attached to the event
    pub ts_ns: u64,
    /// Process id the event belongs to
    pub pid: u32,
    /// Thread group id, equals `pid` for single-threaded processes
    pub tgid: u32,
    /// Effective user id at the time of the event
    pub uid: u32,
    /// Syscall number that triggered the event
    pub syscall_nr: u32,
    /// What the kernel observed
    pub kind: EventKind,
    /// Process command name
    pub comm: String,
    /// First syscall argument
    pub arg0: String,
}

/// Plain-data on-disk representation of one captured event, kind is stored
/// as the raw kernel code so unknown future codes round-trip cleanly
#[derive(Debug, Clone, PartialEq, Eq)]
pub struct WireEvent {
    /// Monotonic nanosecond timestamp the kernel attached to the event
    pub ts_ns: u64,
    /// Process id the event belongs to
    pub pid: u32,
    /// Thread group id, equals `pid` for single-threaded processes
    pub tgid: u32,
    /// Effective user id at the time of the event
    pub uid: u32,
    /// Syscall number that triggered the event
    pub syscall_nr: u32,
    /// Raw kernel kind code, decoded into `EventKind` on read
    pub kind_code: u32,
    /// Process command name as captured by the kernel
    pub comm: String,
    /// First syscall argument
    pub arg0: String,
}

/// The wire record of an event: every field copied, the kind encoded.
pub open spec fn wire_of_event(e: Event, w: WireEvent) -> bool {
    &&& w.ts_ns == e.ts_ns
    &&& w.pid == e.pid
    &&& w.tgid == e.tgid
    &&& w.uid == e.uid
    &&& w.syscall_nr == e.syscall_nr
    &&& w.kind_code == code_of_kind(e.kind)
    &&& w.comm@ == e.comm@
    &&& w.arg0@ == e.arg0@
}

/// The event a wire record denotes: every field copied, the code decoded.
pub open spec fn event_of_wire(w: WireEvent, e: Event) -> bool {
    &&& e.ts_ns == w.ts_ns
    &&& e.pid == w.pid
    &&& e.tgid == w.tgid
    &&& e.uid == w.uid
    &&& e.syscall_nr == w.syscall_nr
    &&& e.kind == kind_of_code(w.kind_code)
    &&& e.comm@ == w.comm@
    &&& e.arg0@ == w.arg0@
}

/// Two events agree on every field, strings compared by content.
pub open spec fn same_event(a: Event, b: Event) -> bool {
    &&& a.ts_ns == b.ts_ns
    &&& a.pid == b.pid
    &&& a.tgid == b.tgid
    &&& a.uid == b.uid
    &&& a.syscall_nr == b.syscall_nr
    &&& a.kind == b.kind
    &&& a.comm@ == b.comm@
    &&& a.arg0@ == b.arg0@
}

/// Two wire records agree on every field, strings compared by content.
pub open spec fn same_wire(a: WireEvent, b: WireEvent) -> bool {
    &&& a.ts_ns == b.ts_ns
    &&& a.pid == b.pid
    &&& a.tgid == b.tgid
    &&& a.uid == b.uid
    &&& a.syscall_nr == b.syscall_nr
    &&& a.kind_code == b.kind_code
    &&& a.comm@ == b.comm@
    &&& a.arg0@ == b.arg0@
}

impl Event {
    /// A copy of this event with every field equal
    pub(crate) fn duplicate(&self) -> (copy: Event)
        ensures
            same_event(copy, *self),
    {
        Event {
            ts_ns: self.ts_ns,
            pid: self.pid,
            tgid: self.tgid,
            uid: self.uid,
            syscall_nr: self.syscall_nr,
            kind: self.kind,
            comm: self.comm.clone(),
            arg0: self.arg0.clone(),
        }
    }
}

impl WireEvent {
    /// Build a wire-format record from a normalized in-memory event
    pub fn from_event(event: &Event) -> (wire: WireEvent)
        ensures
            wire_of_event(*event, wire),
    {
        WireEvent {
            ts_ns: event.ts_ns,
            pid: event.pid,
            tgid: event.tgid,
            uid: event.uid,
            syscall_nr: event.syscall_nr,
            kind_code: kind_to_code(event.kind),
            comm: event.comm.clone(),
            arg0: event.arg0.clone(),
        }
    }

    /// Reconstruct a typed in-memory event from a wire-format record
    pub fn into_event(self) -> (event: Event)
        ensures
            event_of_wire(self, event),
    {
        Event {
            ts_ns: self.ts_ns,
            pid: self.pid,
            tgid: self.tgid,
            uid: self.uid,
            syscall_nr: self.syscall_nr,
            kind: EventKind::from_code(self.kind_code),
            comm: self.comm,
            arg0: self.arg0,
        }
    }
}

/// Reading back a written record gives the same record: any wire record,
/// decoded to an event and encoded again, is unchanged, unknown codes
/// included.
pub proof fn lemma_wire_round_trip(w: WireEvent, e: Event, w2: WireEvent)
    requires
        event_of_wire(w, e),
        wire_of_event(e, w2),
    ensures
        same_wire(w2, w),
{
    lemma_code_round_trip(w.kind_code);
}

/// An event whose kind is canonical survives encoding to the wire form and
/// decoding back unchanged.
pub proof fn lemma_event_round_trip(e: Event, w: WireEvent, e2: Event)
    requires
        is_canonical_kind(e.kind),
        wire_of_event(e, w),
        event_of_wire(w, e2),
    ensures
        same_event(e2, e),
{
    lemma_kind_round_trip(e.kind);
}

/// Longest byte length a sanitized log string may have
pub const MAX_LOG_BYTES: usize = 64;

/// A character in the Unicode general category for control codes (Cc),
/// U+0000 to U+001F and U+007F to U+009F.
pub open spec fn is_control_char(c: char) -> bool {
    (c as u32) <= 0x1f || (0x7f <= (c as u32) && (c as u32) <= 0x9f)
}

/// A control character becomes `?`, every other character stays.
pub open spec fn sanitize_char(c: char) -> char {
    if is_control_char(c) {
        '?'
    } else {
        c
    }
}

/// Number of bytes in the UTF-8 encoding of a character
pub open spec fn char_utf8_len(c: char) -> nat {
    if (c as u32) < 0x80 {
        1
    } else if (c as u32) < 0x800 {
        2
    } else if (c as u32) < 0x10000 {
        3
    } else {
        4
    }
}

/// Number of bytes in the UTF-8 encoding of a character sequence
pub open spec fn utf8_len(s: Seq<char>) -> nat
    decreases s.len(),
{
    if s.len() == 0 {
        0
    } else {
        utf8_len(s.drop_last()) + char_utf8_len(s.last())
    }
}

/// Every character of `s` with control characters replaced by `?`
pub open spec fn sanitized_chars(s: Seq<char>) -> Seq<char> {
    s.map_values(|c: char| sanitize_char(c))
}

/// `out` is the longest prefix of `s` with control characters replaced
/// whose UTF-8 encoding fits in `MAX_LOG_BYTES` bytes.
pub open spec fn is_log_safe_form(s: Seq<char>, out: Seq<char>) -> bool {
    let t = sanitized_chars(s);
    &&& out.len() <= t.len()
    &&& out == t.take(out.len() as int)
    &&& utf8_len(out) <= MAX_LOG_BYTES
    &&& out.len() < t.len() ==> utf8_len(out) + char_utf8_len(t[out.len() as int])
        > MAX_LOG_BYTES
}

fn char_len_utf8(c: char) -> (n: usize)
    ensures
        n == char_utf8_len(c),
{
    let v = c as u32;
    if v < 0x80 {
        1
    } else if v < 0x800 {
        2
    } else if v < 0x10000 {
        3
    } else {
        4
    }
}

fn is_control(c: char) -> (b: bool)
    ensures
        b == is_control_char(c),
{
    let v = c as u32;
    v <= 0x1f || (0x7f <= v && v <= 0x9f)
}

/// Appends a character to a string, `String::push`
#[verifier::external_body]
fn push_char(s: &mut String, c: char)
    ensures
        final(s)@ == old(s)@.push(c),
{
    s.push(c);
}

/// Sanitize a user-controlled string before writing it to a log line.
/// Process names come from the kernel's `comm` field, which an unprivileged
/// caller can set to arbitrary bytes, so an attacker could otherwise spoof
/// daemon output by embedding newlines and fake `[ALERT]` prefixes.
/// Replaces every control character with `?` and caps the result at 64
/// bytes, cutting only between characters.
pub fn sanitize_for_log(s: &str) -> (out: String)
    ensures
        is_log_safe_form(s@, out@),
{
    let ghost t = sanitized_chars(s@);
    let mut out = String::new();
    let mut used: usize = 0;
    let mut full = false;
    for c in iter: s.chars()
        invariant
            iter.seq() == s@,
            t == sanitized_chars(s@),
            used == utf8_len(out@),
            used <= MAX_LOG_BYTES,
            out@.len() <= iter.index(),
            out@ == t.take(out@.len() as int),
            !full ==> out@.len() == iter.index(),
            full ==> out@.len() < t.len() && utf8_len(out@) + char_utf8_len(t[out@.len() as int])
                > MAX_LOG_BYTES,
    {
        if !full {
            let r = if is_control(c) {
                '?'
            } else {
                c
            };
            let n = char_len_utf8(r);
            if used + n > MAX_LOG_BYTES {
                full = true;
            } else {
                let ghost before = out@;
                push_char(&mut out, r);
                used = used + n;
                assert(out@.drop_last() == before);
                assert(out@ == t.take(out@.len() as int));
            }
        }
    }
    out
}


/// A sanitized string is free of control characters and fits in
/// `MAX_LOG_BYTES` bytes.
pub proof fn lemma_log_safe_is_clean(s: Seq<char>, out: Seq<char>)
    requires
        is_log_safe_form(s, out),
    ensures
        forall|i: int| 0 <= i < out.len() ==> !is_control_char(#[trigger] out[i]),
        utf8_len(out) <= MAX_LOG_BYTES,
{
    let t = sanitized_chars(s);
    assert forall|i: int| 0 <= i < out.len() implies !is_control_char(#[trigger] out[i]) by {
        assert(out[i] == t[i]);
    }
}

/// Sanitizing is idempotent: a sanitized string sanitizes to itself.
pub proof fn lemma_sanitize_idempotent(s: Seq<char>, out: Seq<char>)
    requires
        is_log_safe_form(s, out),
    ensures
        is_log_safe_form(out, out),
{
    lemma_log_safe_is_clean(s, out);
    let t2 = sanitized_chars(out);
    assert forall|i: int| 0 <= i < out.len() implies t2[i] == out[i] by {
        assert(!is_control_char(out[i]));
    }
    assert(t2 =~= out);
    assert(out.take(out.len() as int) =~= out);
}

/// Only control characters change: in a sanitized string every printable
/// ASCII character and every character from U+00A0 up stands as it was,
/// and each C0 (U+0000 to U+001F) or C1 (U+007F to U+009F) control
/// character has become `?`.
pub proof fn lemma_sanitize_changes_only_controls(s: Seq<char>, out: Seq<char>)
    requires
        is_log_safe_form(s, out),
    ensures
        out.len() <= s.len(),
        forall|i: int|
            0 <= i < out.len() && (0x20 <= (s[i] as u32) <= 0x7e || (s[i] as u32) >= 0xa0) ==> #[trigger] out[i]
                == s[i],
        forall|i: int|
            0 <= i < out.len() && ((s[i] as u32) <= 0x1f || 0x7f <= (s[i] as u32) <= 0x9f) ==> #[trigger] out[i]
                == '?',
{
    let t = sanitized_chars(s);
    assert forall|i: int| 0 <= i < out.len() implies #[trigger] out[i] == t[i] && t[i] == sanitize_char(s[i]) by {
        assert(out[i] == t.take(out.len() as int)[i]);
    }
}

proof fn lemma_sanitized_not_longer(s: Seq<char>)
    ensures
        utf8_len(sanitized_chars(s)) <= utf8_len(s),
        sanitized_chars(s).len() == s.len(),
    decreases s.len(),
{
    if s.len() > 0 {
        lemma_sanitized_not_longer(s.drop_last());
        assert(sanitized_chars(s).drop_last() =~= sanitized_chars(s.drop_last()));
    }
}

proof fn lemma_utf8_len_prefix(t: Seq<char>, k: int)
    requires
        0 <= k <= t.len(),
    ensures
        utf8_len(t.take(k)) <= utf8_len(t),
    decreases t.len(),
{
    if k < t.len() {
        lemma_utf8_len_prefix(t.drop_last(), k);
        assert(t.drop_last().take(k) =~= t.take(k));
    } else {
        assert(t.take(k) =~= t);
    }
}

/// Nothing is cut from a string that already fits: when the UTF-8
/// encoding of `s` is at most `MAX_LOG_BYTES` bytes, the sanitized string
/// has every character of `s`, with only control characters replaced.
pub proof fn lemma_short_input_kept_whole(s: Seq<char>, out: Seq<char>)
    requires
        is_log_safe_form(s, out),
        utf8_len(s) <= MAX_LOG_BYTES,
    ensures
        out.len() == s.len(),
        out == sanitized_chars(s),
{
    let t = sanitized_chars(s);
    lemma_sanitized_not_longer(s);
    if out.len() < t.len() {
        let k = out.len() as int;
        lemma_utf8_len_prefix(t, k + 1);
        assert(t.take(k + 1).drop_last() =~= t.take(k));
        assert(t.take(k + 1).last() == t[k]);
        assert(utf8_len(t.take(k + 1)) == utf8_len(out) + char_utf8_len(t[k]));
    }
    assert(t.take(t.len() as int) =~= t);
}
} // verus!
