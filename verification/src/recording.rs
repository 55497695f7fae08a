//! Reading back a recorded event stream. A recording holds one wire record
//! per line; blank lines are skipped, a malformed final line (the
//! daemon-was-killed-mid-write case) is dropped, and a malformed line
//! followed by more lines is corruption that aborts the read.

use vstd::prelude::*;

use crate::event::{event_of_wire, is_canonical_kind, same_event, wire_of_event, lemma_event_round_trip, Event, WireEvent};

verus! {

/// One line of a recording as the line parser classified it
#[derive(Debug, Clone, PartialEq, Eq)]
pub enum RecordedLine {
    /// The line holds only whitespace
    Blank,
    /// The line holds a well-formed wire record
    Record(WireEvent),
    /// The line could not be parsed, with the parser's message
    Malformed(String),
}

/// Why a recording could not be read
#[derive(Debug, Clone, PartialEq, Eq)]
pub enum RecordingError {
    /// A malformed line was followed by more lines
    MidFileCorruption {
        /// One-based number of the malformed line
        line: usize,
        /// The parser's message for that line
        message: String,
    },
}

/// The line is malformed
pub open spec fn is_malformed(l: RecordedLine) -> bool {
    l matches RecordedLine::Malformed(_)
}

/// Line `k` is the first malformed line
pub open spec fn first_malformed_at(lines: Seq<RecordedLine>, k: int) -> bool {
    &&& 0 <= k < lines.len()
    &&& is_malformed(lines[k])
    &&& forall|j: int| 0 <= j < k ==> !is_malformed(#[trigger] lines[j])
}

/// The recording is corrupt: some malformed line has a line after it
pub open spec fn is_corrupt(lines: Seq<RecordedLine>) -> bool {
    exists|k: int| 0 <= k < lines.len() - 1 && is_malformed(#[trigger] lines[k])
}

/// The wire records of the recording, in order
pub open spec fn records_of(lines: Seq<RecordedLine>) -> Seq<WireEvent>
    decreases lines.len(),
{
    if lines.len() == 0 {
        Seq::empty()
    } else {
        let prev = records_of(lines.drop_last());
        match lines.last() {
            RecordedLine::Record(w) => prev.push(w),
            _ => prev,
        }
    }
}

/// `events` are the events the records of `lines` denote, one per record
pub open spec fn events_of_lines(lines: Seq<RecordedLine>, events: Seq<Event>) -> bool {
    let records = records_of(lines);
    &&& events.len() == records.len()
    &&& forall|i: int| 0 <= i < events.len() ==> event_of_wire(records[i], #[trigger] events[i])
}

/// Read every event of a recording. Blank lines are skipped; a malformed
/// final line is dropped; a malformed line followed by any further line is
/// reported as corruption at that line.
pub fn read_recording(lines: Vec<RecordedLine>) -> (r: Result<Vec<Event>, RecordingError>)
    ensures
        r is Err <==> is_corrupt(lines@),
        r matches Err(RecordingError::MidFileCorruption { line, message }) ==> exists|k: int|
            first_malformed_at(lines@, k) && line == k + 1 && lines@[k] == RecordedLine::Malformed(message),
        r matches Ok(events) ==> events_of_lines(lines@, events@),
{
    let ghost all = lines@;
    let n = lines.len();
    let mut events: Vec<Event> = Vec::new();
    let mut pending: Option<(usize, String)> = None;
    let mut idx: usize = 0;
    for line in it: lines.into_iter()
        invariant
            it.seq() == all,
            idx == it.index(),
            idx <= all.len(),
            n == all.len(),
            pending is None ==> forall|j: int| 0 <= j < idx ==> !is_malformed(#[trigger] all[j]),
            pending is None ==> events_of_lines(all.take(idx as int), events@),
            pending matches Some((p, m)) ==> {
                &&& idx == p + 1
                &&& first_malformed_at(all, p as int)
                &&& all[p as int] == RecordedLine::Malformed(m)
                &&& events_of_lines(all.take(idx as int), events@)
            },
    {
        assert(all.take(idx + 1).drop_last() =~= all.take(idx as int));
        if let Some((p, m)) = pending {
            return Err(RecordingError::MidFileCorruption { line: p + 1, message: m });
        }
        match line {
            RecordedLine::Blank => {},
            RecordedLine::Record(w) => {
                let ghost before = events@;
                events.push(w.into_event());
                proof {
                    let recs = records_of(all.take(idx + 1));
                    assert(recs == records_of(all.take(idx as int)).push(all[idx as int]->Record_0));
                    assert forall|i: int| 0 <= i < events@.len() implies event_of_wire(
                        recs[i],
                        #[trigger] events@[i],
                    ) by {
                        if i < before.len() {
                            assert(events@[i] == before[i]);
                        }
                    }
                }
            },
            RecordedLine::Malformed(m) => {
                pending = Some((idx, m));
            },
        }
        assert(idx < n);
        idx = idx + 1;
    }
    assert(all.take(all.len() as int) =~= all);
    Ok(events)
}


proof fn lemma_records_of_all_records(lines: Seq<RecordedLine>)
    requires
        forall|i: int| 0 <= i < lines.len() ==> #[trigger] lines[i] is Record,
    ensures
        records_of(lines).len() == lines.len(),
        forall|i: int| 0 <= i < lines.len() ==> records_of(lines)[i] == #[trigger] lines[i]->Record_0,
    decreases lines.len(),
{
    if lines.len() > 0 {
        let prev = lines.drop_last();
        assert forall|i: int| 0 <= i < prev.len() implies #[trigger] prev[i] is Record by {
            assert(prev[i] == lines[i]);
        }
        lemma_records_of_all_records(prev);
        assert(lines.last() is Record);
        assert forall|i: int| 0 <= i < lines.len() implies records_of(lines)[i]
            == #[trigger] lines[i]->Record_0 by {
            if i < prev.len() {
                assert(prev[i] == lines[i]);
            }
        }
    }
}

/// Reading back what was recorded gives the recorded events: a recording
/// holding one record line per event, each written from its event, reads
/// without error and yields the same events in order (for events whose
/// kind is in canonical form).
pub proof fn lemma_recording_round_trip(events: Seq<Event>, lines: Seq<RecordedLine>, read: Seq<Event>)
    requires
        lines.len() == events.len(),
        forall|i: int|
            0 <= i < lines.len() ==> (#[trigger] lines[i] matches RecordedLine::Record(w)
                && wire_of_event(events[i], w)),
        forall|i: int| 0 <= i < events.len() ==> is_canonical_kind(#[trigger] events[i].kind),
        events_of_lines(lines, read),
    ensures
        !is_corrupt(lines),
        read.len() == events.len(),
        forall|i: int| 0 <= i < read.len() ==> same_event(#[trigger] read[i], events[i]),
{
    assert forall|i: int| 0 <= i < lines.len() implies #[trigger] lines[i] is Record by {}
    lemma_records_of_all_records(lines);
    assert forall|i: int| 0 <= i < read.len() implies same_event(#[trigger] read[i], events[i]) by {
        let w = lines[i]->Record_0;
        assert(records_of(lines)[i] == w);
        lemma_event_round_trip(events[i], w, read[i]);
    }
}

/// A torn final line is tolerated: appending a malformed line to a
/// recording with no malformed line leaves it readable, with the same
/// records.
pub proof fn lemma_torn_tail_dropped(lines: Seq<RecordedLine>, message: String)
    requires
        forall|i: int| 0 <= i < lines.len() ==> !is_malformed(#[trigger] lines[i]),
    ensures
        !is_corrupt(lines.push(RecordedLine::Malformed(message))),
        records_of(lines.push(RecordedLine::Malformed(message))) == records_of(lines),
{
    let l2 = lines.push(RecordedLine::Malformed(message));
    assert(l2.drop_last() =~= lines);
    assert forall|k: int| 0 <= k < l2.len() - 1 implies !is_malformed(#[trigger] l2[k]) by {
        assert(l2[k] == lines[k]);
    }
}

/// The events of `events` whose flag in `keep` is set, in order
pub open spec fn select_by(events: Seq<Event>, keep: Seq<bool>) -> Seq<Event>
    decreases events.len(),
{
    if events.len() == 0 {
        Seq::empty()
    } else {
        let prev = select_by(events.drop_last(), keep.drop_last());
        if keep[events.len() - 1] {
            prev.push(events.last())
        } else {
            prev
        }
    }
}

/// `kept` is what filtering `events` with `predicate` gives: there is one
/// answer of the predicate per event, and `kept` holds, in order, the
/// events it accepted
pub open spec fn filtered_by<F: Fn(&Event) -> bool>(
    events: Seq<Event>,
    predicate: F,
    kept: Seq<Event>,
) -> bool {
    exists|keep: Seq<bool>|
        {
            &&& keep.len() == events.len()
            &&& forall|i: int|
                0 <= i < events.len() ==> call_ensures(predicate, (&events[i],), #[trigger] keep[i])
            &&& kept == select_by(events, keep)
        }
}

/// Keep the events the predicate accepts, in their order
pub fn filter_events<F: Fn(&Event) -> bool>(events: Vec<Event>, predicate: F) -> (kept: Vec<Event>)
    requires
        forall|e: Event| #[trigger] call_requires(predicate, (&e,)),
    ensures
        filtered_by(events@, predicate, kept@),
{
    let ghost all = events@;
    let n = events.len();
    let ghost mut keep: Seq<bool> = Seq::empty();
    let mut kept: Vec<Event> = Vec::new();
    let mut idx: usize = 0;
    for e in it: events.into_iter()
        invariant
            it.seq() == all,
            idx == it.index(),
            idx <= all.len(),
            n == all.len(),
            forall|e: Event| #[trigger] call_requires(predicate, (&e,)),
            keep.len() == idx,
            forall|i: int| 0 <= i < idx ==> call_ensures(predicate, (&all[i],), #[trigger] keep[i]),
            kept@ == select_by(all.take(idx as int), keep),
    {
        assert(all.take(idx + 1).drop_last() =~= all.take(idx as int));
        assert(e == all[idx as int]);
        let accept = predicate(&e);
        let ghost before = keep;
        proof {
            keep = keep.push(accept);
            assert(keep.drop_last() =~= before);
        }
        if accept {
            kept.push(e);
        }
        proof {
            assert(select_by(all.take(idx + 1), keep) == if accept {
                select_by(all.take(idx as int), keep.drop_last()).push(all[idx as int])
            } else {
                select_by(all.take(idx as int), keep.drop_last())
            });
        }
        assert(idx < n);
        idx = idx + 1;
    }
    assert(all.take(all.len() as int) =~= all);
    kept
}

/// Read the events of a recording that the predicate accepts: the
/// recording is read as `read_recording` reads it, and its events are
/// then kept or dropped one by one, in order
pub fn read_recording_filter<F: Fn(&Event) -> bool>(lines: Vec<RecordedLine>, predicate: F) -> (r: Result<Vec<Event>, RecordingError>)
    requires
        forall|e: Event| #[trigger] call_requires(predicate, (&e,)),
    ensures
        r is Err <==> is_corrupt(lines@),
        r matches Err(RecordingError::MidFileCorruption { line, message }) ==> exists|k: int|
            first_malformed_at(lines@, k) && line == k + 1 && lines@[k] == RecordedLine::Malformed(message),
        r matches Ok(kept) ==> exists|events: Seq<Event>|
            events_of_lines(lines@, events) && filtered_by(events, predicate, kept@),
{
    match read_recording(lines) {
        Ok(events) => {
            let ghost all = events@;
            let kept = filter_events(events, predicate);
            assert(events_of_lines(lines@, all) && filtered_by(all, predicate, kept@));
            Ok(kept)
        },
        Err(e) => Err(e),
    }
}

} // verus!
