//! Replay of recorded events through the canonical extractor: the events
//! of one process, fed in order, give one histogram row per closed window,
//! the shape a baseline is fitted from.

use vstd::prelude::*;

use crate::event::Event;
use crate::ngram::{
    counts_match, default_syscall_vocab, default_vocab_seq, lemma_default_vocab_distinct,
    lemma_windows_independent, window_of, FeatureError, SyscallNgramExtractor,
};

verus! {

/// The syscalls of the events whose command name is `key`, in order
pub open spec fn matched_syscalls(events: Seq<Event>, key: Seq<char>) -> Seq<u32>
    decreases events.len(),
{
    if events.len() == 0 {
        Seq::empty()
    } else {
        let prev = matched_syscalls(events.drop_last(), key);
        if events.last().comm@ == key {
            prev.push(events.last().syscall_nr)
        } else {
            prev
        }
    }
}

/// The replayed syscalls are those of the events whose `comm` is the key,
/// in order, whatever the events' kind: none for no events, one more for
/// an event of the key, and no change for an event of another process.
pub proof fn lemma_matched_syscalls_step(events: Seq<Event>, e: Event, key: Seq<char>)
    ensures
        matched_syscalls(Seq::<Event>::empty(), key) == Seq::<u32>::empty(),
        e.comm@ == key ==> matched_syscalls(events.push(e), key) == matched_syscalls(events, key).push(
            e.syscall_nr,
        ),
        e.comm@ != key ==> matched_syscalls(events.push(e), key) == matched_syscalls(events, key),
{
    assert(events.push(e).drop_last() =~= events);
    assert(events.push(e).last() == e);
}

/// The replayed syscalls are, in order, the syscall numbers of exactly the
/// events whose `comm` is the key.
pub proof fn lemma_matched_syscalls_filter(events: Seq<Event>, key: Seq<char>)
    ensures
        matched_syscalls(events, key) == events.filter(|e: Event| e.comm@ == key).map_values(
            |e: Event| e.syscall_nr,
        ),
    decreases events.len(),
{
    reveal(Seq::filter);
    if events.len() > 0 {
        lemma_matched_syscalls_filter(events.drop_last(), key);
        let f = events.drop_last().filter(|e: Event| e.comm@ == key);
        assert(f.push(events.last()).map_values(|e: Event| e.syscall_nr) =~= f.map_values(
            |e: Event| e.syscall_nr,
        ).push(events.last().syscall_nr));
    } else {
        assert(events.filter(|e: Event| e.comm@ == key).map_values(|e: Event| e.syscall_nr)
            =~= Seq::<u32>::empty());
    }
}

/// Replay results scoped to a single process key: one row of histogram
/// counts per closed window, in chronological order, plus counters
pub struct ReplayWindows {
    /// Stable identifier the events were filtered by
    pub process_key: String,
    /// Closed-window histogram counts in chronological order
    pub rows: Vec<Vec<usize>>,
    /// Total events read from the recording before filtering
    pub total_events_read: usize,
    /// Events whose comm matched `process_key` and were fed to the extractor
    pub events_for_process: usize,
}

/// Replay every event whose `comm` equals `process_key` through a fresh
/// extractor over the default vocabulary with windows of `window_size`
/// syscalls. Row `r` is the histogram of matched syscalls
/// `r * window_size .. (r + 1) * window_size`; a trailing partial window
/// gives no row.
pub fn extract_windows_from_events(events: &Vec<Event>, process_key: &str, window_size: usize) -> (r: Result<ReplayWindows, FeatureError>)
    ensures
        window_size == 0 <==> r is Err,
        r matches Err(e) ==> e matches FeatureError::InvalidParameter(_),
        r matches Ok(out) ==> {
            let m = matched_syscalls(events@, process_key@);
            &&& out.process_key@ == process_key@
            &&& out.total_events_read == events@.len()
            &&& out.events_for_process == m.len()
            &&& out.rows@.len() == (m.len() as int) / (window_size as int)
            &&& forall|i: int|
                0 <= i < out.rows@.len() ==> counts_match(
                    default_vocab_seq(),
                    m.subrange(i * window_size, (i + 1) * window_size),
                    #[trigger] out.rows@[i]@,
                )
        },
{
    proof {
        lemma_default_vocab_distinct();
    }
    let mut extractor = match SyscallNgramExtractor::new(default_syscall_vocab(), window_size) {
        Ok(x) => x,
        Err(e) => {
            return Err(e);
        },
    };
    let key = process_key.to_owned();
    let mut rows: Vec<Vec<usize>> = Vec::new();
    let mut matched: usize = 0;
    let ghost w = window_size as int;
    let mut i: usize = 0;
    proof {
        assert(events@.take(0) =~= Seq::<Event>::empty());
        assert(!crate::ngram::has_key(extractor.windows(), key@));
        assert(matched_syscalls(events@.take(0), key@).subrange(0, 0) =~= Seq::<u32>::empty());
        assert(rows@.len() == 0);
        assert(rows@.len() * w == 0) by (nonlinear_arith)
            requires
                rows@.len() == 0,
        ;
        assert(window_of(extractor.windows(), key@) =~= Seq::<u32>::empty());
    }
    while i < events.len()
        invariant
            0 <= i <= events@.len(),
            w == window_size as int,
            w >= 1,
            key@ == process_key@,
            extractor.wf(),
            extractor.vocab() == default_vocab_seq(),
            extractor.window_size() == window_size,
            ({
                let m = matched_syscalls(events@.take(i as int), key@);
                &&& matched == m.len()
                &&& rows@.len() * w <= m.len() < rows@.len() * w + w
                &&& window_of(extractor.windows(), key@) == m.subrange(rows@.len() * w, m.len() as int)
                &&& forall|j: int|
                    0 <= j < rows@.len() ==> counts_match(
                        default_vocab_seq(),
                        m.subrange(j * w, (j + 1) * w),
                        #[trigger] rows@[j]@,
                    )
            }),
        decreases events@.len() - i,
    {
        let ghost m0 = matched_syscalls(events@.take(i as int), key@);
        assert(events@.take(i + 1).drop_last() =~= events@.take(i as int));
        let ev = &events[i];
        proof {
            lemma_matched_len(events@.take(i as int), key@);
        }
        if ev.comm == key {
            let ghost m1 = m0.push(ev.syscall_nr);
            assert(matched_syscalls(events@.take(i + 1), key@) == m1);
            let ghost r0 = rows@.len() as int;
            let ghost ws0 = extractor.windows();
            proof {
                extractor.lemma_wf_keys_distinct();
                lemma_windows_independent(ws0, key@, m1.subrange(r0 * w, m1.len() as int), key@);
                lemma_windows_independent(ws0, key@, Seq::empty(), key@);
                assert(m0.subrange(r0 * w, m0.len() as int).push(ev.syscall_nr) =~= m1.subrange(
                    r0 * w,
                    m1.len() as int,
                ));
            }
            match extractor.accumulate(process_key, ev.syscall_nr) {
                Some(emitted) => {
                    proof {
                        assert(m1.len() == (r0 + 1) * w) by (nonlinear_arith)
                            requires
                                m1.len() - r0 * w >= w,
                                m1.len() - r0 * w <= w,
                        ;
                        assert(m1.subrange(m1.len() as int, m1.len() as int) =~= Seq::<u32>::empty());
                    }
                    let ghost old_rows = rows@;
                    rows.push(emitted.counts);
                    proof {
                        assert forall|j: int| 0 <= j < rows@.len() implies counts_match(
                            default_vocab_seq(),
                            m1.subrange(j * w, (j + 1) * w),
                            #[trigger] rows@[j]@,
                        ) by {
                            if j < r0 {
                                lemma_full_window_stable(m0, ev.syscall_nr, j, w, r0);
                                assert(rows@[j] == old_rows[j]);
                            }
                        }
                        assert((r0 + 1) * w == r0 * w + w) by (nonlinear_arith);
                    }
                },
                None => {
                    proof {
                        assert forall|j: int| 0 <= j < rows@.len() implies counts_match(
                            default_vocab_seq(),
                            m1.subrange(j * w, (j + 1) * w),
                            #[trigger] rows@[j]@,
                        ) by {
                            lemma_full_window_stable(m0, ev.syscall_nr, j, w, r0);
                        }
                    }
                },
            }
            matched = matched + 1;
        }
        else {
            assert(matched_syscalls(events@.take(i + 1), key@) == m0);
        }
        i = i + 1;
    }
    assert(events@.take(events@.len() as int) =~= events@);
    proof {
        let m = matched_syscalls(events@, key@);
        vstd::arithmetic::div_mod::lemma_fundamental_div_mod_converse(
            m.len() as int,
            w,
            rows@.len() as int,
            m.len() - rows@.len() * w,
        );
    }
    Ok(ReplayWindows { process_key: key, rows, total_events_read: events.len(), events_for_process: matched })
}


/// No more syscalls match than there are events
pub proof fn lemma_matched_len(events: Seq<Event>, key: Seq<char>)
    ensures
        matched_syscalls(events, key).len() <= events.len(),
    decreases events.len(),
{
    if events.len() > 0 {
        lemma_matched_len(events.drop_last(), key);
    }
}


/// Extending the matched syscalls leaves every earlier full window as it was
proof fn lemma_full_window_stable(m0: Seq<u32>, x: u32, j: int, w: int, r0: int)
    requires
        0 <= j < r0,
        w >= 1,
        r0 * w <= m0.len(),
    ensures
        m0.push(x).subrange(j * w, (j + 1) * w) == m0.subrange(j * w, (j + 1) * w),
{
    assert((j + 1) * w <= r0 * w) by (nonlinear_arith)
        requires
            j + 1 <= r0,
            w >= 1,
    ;
    assert(0 <= j * w <= (j + 1) * w) by (nonlinear_arith)
        requires
            j >= 0,
            w >= 1,
    ;
    assert(m0.push(x).subrange(j * w, (j + 1) * w) =~= m0.subrange(j * w, (j + 1) * w));
}

} // verus!
