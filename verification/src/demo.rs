//! The deterministic demo stream the daemon scores when no kernel source
//! is attached: two windows of clean nginx behavior followed by one window
//! dominated by exec and connect calls a legitimate nginx never makes.

use vstd::prelude::*;

use crate::event::{Event, EventKind};

verus! {

/// Command name every demo event carries
pub open spec fn demo_comm() -> Seq<char> {
    seq!['n', 'g', 'i', 'n', 'x']
}

/// Syscalls of one clean nginx window: read, write, close, openat
pub open spec fn clean_pattern() -> Seq<u32> {
    seq![0u32, 0, 1, 0, 1, 3, 0, 1, 257, 1, 0, 3, 0, 1, 257, 0]
}

/// Syscalls of the adversarial window: execve, connect, clone
pub open spec fn anomalous_pattern() -> Seq<u32> {
    seq![59u32, 42, 59, 56, 42, 59, 56, 42, 59, 42, 56, 59, 42, 56, 59, 42]
}

/// The demo event at position `i` of the stream: clean windows carry
/// `FileOpen`, the adversarial one `Exec`, timestamps advance by 1 ms from
/// 1 s.
pub open spec fn demo_event_ok(i: int, e: Event) -> bool {
    &&& e.ts_ns == 1_000_000_000 + i * 1_000_000
    &&& e.pid == 4242
    &&& e.tgid == 4242
    &&& e.uid == 33
    &&& e.comm@ == demo_comm()
    &&& e.arg0@ == Seq::<char>::empty()
    &&& if i < 32 {
        e.syscall_nr == clean_pattern()[i % 16] && e.kind == EventKind::FileOpen
    } else {
        e.syscall_nr == anomalous_pattern()[i - 32] && e.kind == EventKind::Exec
    }
}

/// One demo event of process `nginx` (pid 4242, uid 33) with an empty argument
pub fn make_event(ts_ns: u64, syscall_nr: u32, kind: EventKind) -> (e: Event)
    ensures
        e.ts_ns == ts_ns,
        e.syscall_nr == syscall_nr,
        e.kind == kind,
        e.pid == 4242,
        e.tgid == 4242,
        e.uid == 33,
        e.comm@ == demo_comm(),
        e.arg0@ == Seq::<char>::empty(),
{
    let comm = String::from_str("nginx");
    proof {
        reveal_strlit("nginx");
    }
    Event { ts_ns, pid: 4242, tgid: 4242, uid: 33, syscall_nr, kind, comm, arg0: String::new() }
}

/// Synthetic deterministic event stream, two windows of clean nginx
/// behavior followed by one window of adversarial behavior
pub fn synthetic_event_stream() -> (events: Vec<Event>)
    ensures
        events@.len() == 48,
        forall|i: int| 0 <= i < 48 ==> demo_event_ok(i, #[trigger] events@[i]),
{
    let clean: [u32; 16] = [0, 0, 1, 0, 1, 3, 0, 1, 257, 1, 0, 3, 0, 1, 257, 0];
    let anomalous: [u32; 16] = [59, 42, 59, 56, 42, 59, 56, 42, 59, 42, 56, 59, 42, 56, 59, 42];
    assert(clean@ =~= clean_pattern());
    assert(anomalous@ =~= anomalous_pattern());
    let mut events: Vec<Event> = Vec::new();
    let mut ts: u64 = 1_000_000_000;
    let mut i: usize = 0;
    while i < 48
        invariant
            i <= 48,
            events@.len() == i,
            ts == 1_000_000_000 + i * 1_000_000,
            clean@ == clean_pattern(),
            anomalous@ == anomalous_pattern(),
            forall|k: int| 0 <= k < i ==> demo_event_ok(k, #[trigger] events@[k]),
        decreases 48 - i,
    {
        let e = if i < 32 {
            make_event(ts, clean[i % 16], EventKind::FileOpen)
        } else {
            make_event(ts, anomalous[i - 32], EventKind::Exec)
        };
        events.push(e);
        ts = ts + 1_000_000;
        i = i + 1;
    }
    events
}

} // verus!
