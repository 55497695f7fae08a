//! Syscall 1-gram histogram extractor over per-process disjoint windows,
//! every `window_size` events of a process the extractor emits the
//! histogram of that window over a fixed vocabulary, sized
//! `vocab.len() + 1` (the trailing slot counts out-of-vocabulary syscalls).

use vstd::prelude::*;

verus! {

/// Anything a feature extractor can fail with at construction time
#[derive(Debug, Clone, PartialEq, Eq)]
pub enum FeatureError {
    /// Constructor parameter was out of range
    InvalidParameter(String),
    /// Vocabulary contained duplicate syscall numbers
    DuplicateVocabEntry(u32),
}

/// The default vocabulary: Linux x86_64 syscalls a process-behavior
/// baseline most commonly relies on (process, file, network)
pub open spec fn default_vocab_seq() -> Seq<u32> {
    seq![
        0u32, 1, 2, 3, 4, 5, 9, 10, 11, 21, 41, 42, 43, 44, 45, 47, 56, 57, 59, 60, 62, 87, 90, 92,
        232, 257,
    ]
}

/// Reasonable default syscall vocabulary for Linux x86_64: read, write,
/// open, close, stat, fstat, mmap, mprotect, munmap, access, socket,
/// connect, accept, sendto, recvfrom, recvmsg, clone, fork, execve, exit,
/// kill, unlink, chmod, chown, epoll_wait, openat. Anything outside this
/// set falls into the extractor's catch-all "other" bucket
pub fn default_syscall_vocab() -> (vocab: Vec<u32>)
    ensures
        vocab@ == default_vocab_seq(),
{
    let v: Vec<u32> = vec![
        0, 1, 2, 3, 4, 5, 9, 10, 11, 21, 41, 42, 43, 44, 45, 47, 56, 57, 59, 60, 62, 87, 90, 92,
        232, 257,
    ];
    assert(v@ =~= default_vocab_seq());
    v
}

/// A sequence whose neighbours strictly increase is strictly increasing.
proof fn lemma_steps_increasing(v: Seq<u32>, a: int, b: int)
    requires
        forall|k: int| 0 <= k < v.len() - 1 ==> #[trigger] v[k] < v[k + 1],
        0 <= a < b < v.len(),
    ensures
        v[a] < v[b],
    decreases b - a,
{
    if b - a > 1 {
        lemma_steps_increasing(v, a, b - 1);
        assert(v[b - 1] < v[b]);
    }
}

/// The default vocabulary holds no syscall number twice.
pub proof fn lemma_default_vocab_distinct()
    ensures
        default_vocab_seq().no_duplicates(),
{
    let v = default_vocab_seq();
    assert forall|k: int| 0 <= k < v.len() - 1 implies #[trigger] v[k] < v[k + 1] by {
        if k == 0 {
        } else if k == 1 {
        } else if k == 2 {
        } else if k == 3 {
        } else if k == 4 {
        } else if k == 5 {
        } else if k == 6 {
        } else if k == 7 {
        } else if k == 8 {
        } else if k == 9 {
        } else if k == 10 {
        } else if k == 11 {
        } else if k == 12 {
        } else if k == 13 {
        } else if k == 14 {
        } else if k == 15 {
        } else if k == 16 {
        } else if k == 17 {
        } else if k == 18 {
        } else if k == 19 {
        } else if k == 20 {
        } else if k == 21 {
        } else if k == 22 {
        } else if k == 23 {
        } else if k == 24 {
        }
    }
    assert forall|i: int, j: int| 0 <= i < v.len() && 0 <= j < v.len() && i != j implies v[i]
        != v[j] by {
        if i < j {
            lemma_steps_increasing(v, i, j);
        } else {
            lemma_steps_increasing(v, j, i);
        }
    }
}


/// The histogram slot a syscall falls into: its position in the vocabulary,
/// or the trailing "other" slot `vocab.len()` when it is not in it.
pub open spec fn bucket_of(vocab: Seq<u32>, nr: u32) -> int {
    if vocab.contains(nr) {
        choose|i: int| 0 <= i < vocab.len() && vocab[i] == nr
    } else {
        vocab.len() as int
    }
}

/// Each vocabulary entry has its own slot, at its position in the
/// vocabulary, whatever order the vocabulary is in: for a vocabulary
/// without duplicates, the syscall `vocab[i]` falls into slot `i`.
pub proof fn lemma_vocab_entry_slot(vocab: Seq<u32>, i: int)
    requires
        vocab.no_duplicates(),
        0 <= i < vocab.len(),
    ensures
        bucket_of(vocab, vocab[i]) == i,
{
    assert(vocab.contains(vocab[i]));
    let c = choose|k: int| 0 <= k < vocab.len() && vocab[k] == vocab[i];
    assert(0 <= c < vocab.len() && vocab[c] == vocab[i]);
}

/// A syscall that is no vocabulary entry falls into the trailing "other"
/// slot, `vocab.len()`.
pub proof fn lemma_unknown_syscall_slot(vocab: Seq<u32>, nr: u32)
    requires
        forall|k: int| 0 <= k < vocab.len() ==> vocab[k] != nr,
    ensures
        bucket_of(vocab, nr) == vocab.len(),
{
    assert(!vocab.contains(nr));
}

/// How many syscalls of the window fall into slot `b`
pub open spec fn count_in(vocab: Seq<u32>, window: Seq<u32>, b: int) -> nat
    decreases window.len(),
{
    if window.len() == 0 {
        0
    } else {
        count_in(vocab, window.drop_last(), b) + if bucket_of(vocab, window.last()) == b {
            1nat
        } else {
            0nat
        }
    }
}

/// The count in slot `b` is the number of syscalls of the window whose
/// slot is `b`, each counted once wherever it stands in the window.
pub proof fn lemma_count_is_filter_len(vocab: Seq<u32>, window: Seq<u32>, b: int)
    ensures
        count_in(vocab, window, b) == window.filter(|x: u32| bucket_of(vocab, x) == b).len(),
    decreases window.len(),
{
    reveal(Seq::filter);
    if window.len() > 0 {
        lemma_count_is_filter_len(vocab, window.drop_last(), b);
    }
}

/// The histogram of a window: one count per vocabulary entry plus the
/// trailing out-of-vocabulary count
pub open spec fn histogram(vocab: Seq<u32>, window: Seq<u32>) -> Seq<nat> {
    Seq::new((vocab.len() + 1) as nat, |b: int| count_in(vocab, window, b))
}

/// The per-process windows of an extractor: for each tracked process key,
/// in order of first appearance, the syscalls of its open window.
pub type Windows = Seq<(Seq<char>, Seq<u32>)>;

/// No process key is tracked twice
pub open spec fn keys_distinct(ws: Windows) -> bool {
    forall|i: int, j: int| 0 <= i < ws.len() && 0 <= j < ws.len() && i != j ==> ws[i].0 != ws[j].0
}

/// The key is tracked
pub open spec fn has_key(ws: Windows, key: Seq<char>) -> bool {
    exists|i: int| 0 <= i < ws.len() && ws[i].0 == key
}

/// Position of a tracked key
pub open spec fn key_index(ws: Windows, key: Seq<char>) -> int {
    choose|i: int| 0 <= i < ws.len() && ws[i].0 == key
}

/// The open window of a key, empty when the key is not tracked
pub open spec fn window_of(ws: Windows, key: Seq<char>) -> Seq<u32> {
    if has_key(ws, key) {
        ws[key_index(ws, key)].1
    } else {
        Seq::empty()
    }
}

/// The windows with the key's window replaced, the key appended when it is
/// not yet tracked
pub open spec fn with_window(ws: Windows, key: Seq<char>, w: Seq<u32>) -> Windows {
    if has_key(ws, key) {
        ws.update(key_index(ws, key), (key, w))
    } else {
        ws.push((key, w))
    }
}

/// The windows with the key no longer tracked
pub open spec fn without_key(ws: Windows, key: Seq<char>) -> Windows {
    if has_key(ws, key) {
        ws.remove(key_index(ws, key))
    } else {
        ws
    }
}

/// A window closed by an extractor: the process it belongs to and the
/// count of its syscalls per histogram slot. Dividing each count by the
/// window size gives the normalized histogram the scorer consumes.
#[derive(Debug, Clone, PartialEq, Eq)]
pub struct EmittedWindow {
    /// Stable identifier for the process this window came from
    pub process_key: String,
    /// Syscall count per slot, the trailing slot counts out-of-vocabulary syscalls
    pub counts: Vec<usize>,
}

struct ProcessWindow {
    process_key: String,
    counts: Vec<usize>,
    pending: usize,
    window: Ghost<Seq<u32>>,
}

/// Disjoint-window 1-gram histogram extractor over a fixed syscall vocabulary
pub struct SyscallNgramExtractor {
    vocab: Vec<u32>,
    window_size: usize,
    slots: Vec<ProcessWindow>,
}

/// The counts held for a window are its histogram
pub open spec fn counts_match(vocab: Seq<u32>, window: Seq<u32>, counts: Seq<usize>) -> bool {
    &&& counts.len() == vocab.len() + 1
    &&& forall|b: int| 0 <= b < counts.len() ==> #[trigger] counts[b] == count_in(vocab, window, b)
}

/// One call `accumulate(key, nr)` taking the windows `ws` to `ws2` and
/// returning `r`: the syscall joins the key's open window; a window that
/// reaches `wsize` syscalls is returned as its histogram and the key starts
/// a fresh, empty window
pub open spec fn accumulate_step(
    vocab: Seq<u32>,
    wsize: nat,
    ws: Windows,
    key: Seq<char>,
    nr: u32,
    ws2: Windows,
    r: Option<EmittedWindow>,
) -> bool {
    let w = window_of(ws, key).push(nr);
    if w.len() < wsize {
        &&& r is None
        &&& ws2 == with_window(ws, key, w)
    } else {
        &&& r matches Some(e) && e.process_key@ == key && counts_match(vocab, w, e.counts@)
        &&& ws2 == with_window(ws, key, Seq::empty())
    }
}

/// A slot count never exceeds the window length
proof fn lemma_count_bounded(vocab: Seq<u32>, window: Seq<u32>, b: int)
    ensures
        count_in(vocab, window, b) <= window.len(),
    decreases window.len(),
{
    if window.len() > 0 {
        lemma_count_bounded(vocab, window.drop_last(), b);
    }
}

impl SyscallNgramExtractor {
    /// The vocabulary, in slot order
    pub closed spec fn vocab(&self) -> Seq<u32> {
        self.vocab@
    }

    /// Number of syscalls after which a process's window closes
    pub closed spec fn window_size(&self) -> nat {
        self.window_size as nat
    }

    /// The open window of every tracked process
    pub closed spec fn windows(&self) -> Windows {
        self.slots@.map_values(|s: ProcessWindow| (s.process_key@, s.window@))
    }

    /// Internal consistency: distinct vocabulary and keys, every window
    /// shorter than the window size, and counts equal to its histogram
    pub closed spec fn wf(&self) -> bool {
        &&& self.vocab@.no_duplicates()
        &&& self.vocab@.len() < usize::MAX
        &&& self.window_size >= 1
        &&& keys_distinct(self.windows())
        &&& forall|i: int|
            0 <= i < self.slots@.len() ==> {
                let s = #[trigger] self.slots@[i];
                &&& s.pending == s.window@.len()
                &&& s.pending < self.window_size
                &&& counts_match(self.vocab@, s.window@, s.counts@)
            }
    }

    /// A consistent extractor tracks every process key once
    pub proof fn lemma_wf_keys_distinct(&self)
        requires
            self.wf(),
        ensures
            keys_distinct(self.windows()),
    {
    }

    /// In a consistent extractor every open window is shorter than the
    /// window size: a window is returned and cleared the moment it fills
    pub proof fn lemma_wf_window_short(&self, key: Seq<char>)
        requires
            self.wf(),
        ensures
            window_of(self.windows(), key).len() < self.window_size(),
    {
        let ws = self.windows();
        if has_key(ws, key) {
            let i = key_index(ws, key);
            assert(ws[i].1 == self.slots@[i].window@);
        }
    }

    /// Build with an explicit syscall vocabulary and disjoint window size,
    /// the emitted histogram has dimension `vocab.len() + 1` with the
    /// trailing slot counting out-of-vocab syscalls
    pub fn new(vocab: Vec<u32>, window_size: usize) -> (r: Result<SyscallNgramExtractor, FeatureError>)
        requires
            vocab@.len() < usize::MAX,
        ensures
            window_size == 0 <==> r matches Err(FeatureError::InvalidParameter(_)),
            r matches Err(FeatureError::DuplicateVocabEntry(nr)) ==> window_size > 0
                && is_first_repeat(vocab@, nr),
            window_size > 0 && !vocab@.no_duplicates() ==> r matches Err(
                FeatureError::DuplicateVocabEntry(_),
            ),
            r is Ok <==> window_size > 0 && vocab@.no_duplicates(),
            r matches Ok(x) ==> {
                &&& x.wf()
                &&& x.vocab() == vocab@
                &&& x.window_size() == window_size
                &&& x.windows() == Seq::<(Seq<char>, Seq<u32>)>::empty()
            },
    {
        if window_size == 0 {
            return Err(FeatureError::InvalidParameter(String::from_str("window_size must be at least 1")));
        }
        match first_duplicate(&vocab) {
            Some(nr) => Err(FeatureError::DuplicateVocabEntry(nr)),
            None => {
                let x = SyscallNgramExtractor { vocab, window_size, slots: Vec::new() };
                assert(x.windows() =~= Seq::<(Seq<char>, Seq<u32>)>::empty());
                Ok(x)
            },
        }
    }
}

impl SyscallNgramExtractor {
    /// Dimension of every emitted histogram, stays constant for the
    /// lifetime of the extractor
    pub fn feature_dim(&self) -> (d: usize)
        requires
            self.wf(),
        ensures
            d == self.vocab().len() + 1,
    {
        self.vocab.len() + 1
    }

    /// Index in the histogram reserved for syscalls outside the vocabulary
    pub fn other_bucket_index(&self) -> (i: usize)
        requires
            self.wf(),
        ensures
            i == self.vocab().len(),
    {
        self.vocab.len()
    }

    /// Number of processes the extractor is currently tracking
    pub fn tracked_process_count(&self) -> (n: usize)
        ensures
            n == self.windows().len(),
    {
        self.slots.len()
    }

    fn bucket_index(&self, nr: u32) -> (b: usize)
        requires
            self.wf(),
        ensures
            b == bucket_of(self.vocab(), nr),
            b < self.vocab().len() + 1,
    {
        let mut i: usize = 0;
        while i < self.vocab.len()
            invariant
                self.wf(),
                i <= self.vocab@.len(),
                forall|k: int| 0 <= k < i ==> self.vocab@[k] != nr,
            decreases self.vocab@.len() - i,
        {
            if self.vocab[i] == nr {
                proof {
                    let v = self.vocab@;
                    assert(v.contains(nr));
                    let c = choose|k: int| 0 <= k < v.len() && v[k] == nr;
                    assert(v.no_duplicates());
                    assert(c == i);
                }
                return i;
            }
            i = i + 1;
        }
        assert(!self.vocab@.contains(nr));
        self.vocab.len()
    }

    fn find_slot(&self, key: &String) -> (r: Option<usize>)
        requires
            self.wf(),
        ensures
            r is None <==> !has_key(self.windows(), key@),
            r matches Some(i) ==> i < self.slots@.len() && i == key_index(self.windows(), key@),
    {
        let mut i: usize = 0;
        while i < self.slots.len()
            invariant
                self.wf(),
                i <= self.slots@.len(),
                forall|k: int| 0 <= k < i ==> self.slots@[k].process_key@ != key@,
            decreases self.slots@.len() - i,
        {
            if self.slots[i].process_key == *key {
                proof {
                    let ws = self.windows();
                    assert(ws[i as int].0 == key@);
                    assert(has_key(ws, key@));
                    let c = key_index(ws, key@);
                    assert(keys_distinct(ws));
                    assert(c == i);
                }
                return Some(i);
            }
            i = i + 1;
        }
        proof {
            let ws = self.windows();
            assert forall|k: int| 0 <= k < ws.len() implies ws[k].0 != key@ by {
                assert(ws[k].0 == self.slots@[k].process_key@);
            }
        }
        None
    }

    /// Feed one observed syscall of a process. The syscall joins the
    /// process's open window; when the window reaches `window_size`
    /// syscalls it closes, its histogram is returned and the process starts
    /// a fresh window, otherwise `None` is returned.
    pub fn accumulate(&mut self, process_key: &str, syscall_nr: u32) -> (r: Option<EmittedWindow>)
        requires
            old(self).wf(),
        ensures
            final(self).wf(),
            final(self).vocab() == old(self).vocab(),
            final(self).window_size() == old(self).window_size(),
            accumulate_step(
                old(self).vocab(),
                old(self).window_size(),
                old(self).windows(),
                process_key@,
                syscall_nr,
                final(self).windows(),
                r,
            ),
    {
        let key = process_key.to_owned();
        let bucket = self.bucket_index(syscall_nr);
        let ghost ws0 = self.windows();
        let ghost vocab = self.vocab@;
        let idx = match self.find_slot(&key) {
            Some(i) => i,
            None => {
                let counts = zero_counts(self.vocab.len() + 1);
                assert(counts_match(vocab, Seq::empty(), counts@));
                let slot = ProcessWindow {
                    process_key: key.clone(),
                    counts,
                    pending: 0,
                    window: Ghost(Seq::empty()),
                };
                self.slots.push(slot);
                proof {
                    let ws = self.windows();
                    assert(ws =~= ws0.push((key@, Seq::empty())));
                    assert(keys_distinct(ws)) by {
                        assert forall|i: int, j: int|
                            0 <= i < ws.len() && 0 <= j < ws.len() && i != j implies ws[i].0
                            != ws[j].0 by {
                            if i == ws.len() - 1 {
                                assert(!has_key(ws0, key@));
                            } else if j == ws.len() - 1 {
                                assert(!has_key(ws0, key@));
                            }
                        }
                    }
                }
                self.slots.len() - 1
            },
        };
        let ghost ws1 = self.windows();
        assert(window_of(ws1, key@) == window_of(ws0, key@)) by {
            if !has_key(ws0, key@) {
                assert(ws1[idx as int].0 == key@);
                assert(has_key(ws1, key@));
            }
        };
        assert(key_index(ws1, key@) == idx) by {
            assert(ws1[idx as int].0 == key@);
        };
        let mut slot = self.slots.remove(idx);
        let ghost w = slot.window@.push(syscall_nr);
        proof {
            lemma_count_bounded(vocab, slot.window@, bucket as int);
        }
        let c = slot.counts[bucket];
        slot.counts.set(bucket, c + 1);
        slot.pending = slot.pending + 1;
        slot.window = Ghost(w);
        assert(counts_match(vocab, w, slot.counts@)) by {
            assert forall|b: int| 0 <= b < slot.counts@.len() implies #[trigger] slot.counts@[b]
                == count_in(vocab, w, b) by {
                assert(w.drop_last() == ws1[idx as int].1);
            }
        }
        if slot.pending < self.window_size {
            self.slots.insert(idx, slot);
            proof {
                let ws = self.windows();
                assert(ws =~= ws1.update(idx as int, (key@, w)));
                assert(keys_distinct(ws)) by {
                    assert forall|i: int, j: int|
                        0 <= i < ws.len() && 0 <= j < ws.len() && i != j implies ws[i].0 != ws[j].0 by {
                        assert(ws1[idx as int].0 == key@);
                    }
                }
                assert(with_window(ws0, key@, w) =~= ws) by {
                    if !has_key(ws0, key@) {
                        assert(ws1 =~= ws0.push((key@, Seq::empty())));
                    }
                }
            }
            None
        } else {
            let emitted = EmittedWindow { process_key: key, counts: slot.counts };
            let fresh = ProcessWindow {
                process_key: emitted.process_key.clone(),
                counts: zero_counts(self.vocab.len() + 1),
                pending: 0,
                window: Ghost(Seq::empty()),
            };
            self.slots.insert(idx, fresh);
            proof {
                let ws = self.windows();
                assert(ws =~= ws1.update(idx as int, (key@, Seq::empty())));
                assert(keys_distinct(ws)) by {
                    assert forall|i: int, j: int|
                        0 <= i < ws.len() && 0 <= j < ws.len() && i != j implies ws[i].0 != ws[j].0 by {
                        assert(ws1[idx as int].0 == key@);
                    }
                }
                assert(with_window(ws0, key@, Seq::empty()) =~= ws) by {
                    if !has_key(ws0, key@) {
                        assert(ws1 =~= ws0.push((key@, Seq::empty())));
                    }
                }
            }
            Some(emitted)
        }
    }

    /// Discard any in-progress window for a process, the next event for
    /// that process starts a fresh window
    pub fn reset_process(&mut self, process_key: &str)
        requires
            old(self).wf(),
        ensures
            final(self).wf(),
            final(self).vocab() == old(self).vocab(),
            final(self).window_size() == old(self).window_size(),
            final(self).windows() == without_key(old(self).windows(), process_key@),
    {
        let key = process_key.to_owned();
        let ghost ws0 = self.windows();
        match self.find_slot(&key) {
            Some(i) => {
                let _ = self.slots.remove(i);
                proof {
                    let ws = self.windows();
                    assert(ws =~= ws0.remove(i as int));
                    assert(keys_distinct(ws)) by {
                        assert forall|a: int, b: int|
                            0 <= a < ws.len() && 0 <= b < ws.len() && a != b implies ws[a].0
                            != ws[b].0 by {
                            let a0 = if a < i { a } else { a + 1 };
                            let b0 = if b < i { b } else { b + 1 };
                            assert(ws[a] == ws0[a0]);
                            assert(ws[b] == ws0[b0]);
                        }
                    }
                }
            },
            None => {},
        }
    }
}

fn zero_counts(n: usize) -> (v: Vec<usize>)
    ensures
        v@.len() == n,
        forall|b: int| 0 <= b < n ==> #[trigger] v@[b] == 0,
{
    let mut v: Vec<usize> = Vec::new();
    let mut i: usize = 0;
    while i < n
        invariant
            i <= n,
            v@.len() == i,
            forall|b: int| 0 <= b < i ==> #[trigger] v@[b] == 0,
        decreases n - i,
    {
        v.push(0);
        i = i + 1;
    }
    v
}

/// `nr` is the first vocabulary entry, in order, that repeats an earlier one
pub open spec fn is_first_repeat(vocab: Seq<u32>, nr: u32) -> bool {
    exists|i: int|
        0 <= i < vocab.len() && #[trigger] vocab[i] == nr && vocab.take(i).contains(nr)
            && vocab.take(i).no_duplicates()
}

fn contains_before(vocab: &Vec<u32>, end: usize, nr: u32) -> (found: bool)
    requires
        end <= vocab@.len(),
    ensures
        found == vocab@.take(end as int).contains(nr),
{
    let mut j: usize = 0;
    while j < end
        invariant
            end <= vocab@.len(),
            j <= end,
            forall|k: int| 0 <= k < j ==> vocab@[k] != nr,
        decreases end - j,
    {
        if vocab[j] == nr {
            assert(vocab@.take(end as int)[j as int] == nr);
            return true;
        }
        j = j + 1;
    }
    assert(!vocab@.take(end as int).contains(nr)) by {
        assert forall|k: int| 0 <= k < end implies vocab@.take(end as int)[k] != nr by {}
    }
    false
}

fn first_duplicate(vocab: &Vec<u32>) -> (r: Option<u32>)
    ensures
        r is None <==> vocab@.no_duplicates(),
        r matches Some(nr) ==> is_first_repeat(vocab@, nr),
{
    let mut i: usize = 0;
    while i < vocab.len()
        invariant
            i <= vocab@.len(),
            vocab@.take(i as int).no_duplicates(),
        decreases vocab@.len() - i,
    {
        let nr = vocab[i];
        if contains_before(vocab, i, nr) {
            assert(vocab@[i as int] == nr);
            assert(!vocab@.no_duplicates()) by {
                let k = choose|k: int| 0 <= k < i && vocab@.take(i as int)[k] == nr;
                assert(vocab@[k] == vocab@[i as int]);
            }
            return Some(nr);
        }
        assert(vocab@.take(i + 1).no_duplicates()) by {
            let t = vocab@.take(i + 1);
            assert forall|a: int, b: int| 0 <= a < t.len() && 0 <= b < t.len() && a != b implies t[a]
                != t[b] by {
                if a == i {
                    assert(vocab@.take(i as int)[b] == t[b]);
                } else if b == i {
                    assert(vocab@.take(i as int)[a] == t[a]);
                } else {
                    assert(vocab@.take(i as int)[a] == t[a]);
                    assert(vocab@.take(i as int)[b] == t[b]);
                }
            }
        }
        i = i + 1;
    }
    assert(vocab@.take(vocab@.len() as int) =~= vocab@);
    None
}


/// Sum of a sequence of counts
pub open spec fn count_sum(s: Seq<usize>) -> nat
    decreases s.len(),
{
    if s.len() == 0 {
        0
    } else {
        count_sum(s.drop_last()) + s.last() as nat
    }
}

/// Sum of a histogram
pub open spec fn nat_sum(s: Seq<nat>) -> nat
    decreases s.len(),
{
    if s.len() == 0 {
        0
    } else {
        nat_sum(s.drop_last()) + s.last()
    }
}

proof fn lemma_nat_sum_bump(s: Seq<nat>, k: int)
    requires
        0 <= k < s.len(),
    ensures
        nat_sum(s.update(k, s[k] + 1)) == nat_sum(s) + 1,
    decreases s.len(),
{
    let t = s.update(k, s[k] + 1);
    if k == s.len() - 1 {
        assert(t.drop_last() =~= s.drop_last());
    } else {
        lemma_nat_sum_bump(s.drop_last(), k);
        assert(t.drop_last() =~= s.drop_last().update(k, s[k] + 1));
    }
}

proof fn lemma_bucket_in_range(vocab: Seq<u32>, nr: u32)
    ensures
        0 <= bucket_of(vocab, nr) <= vocab.len(),
{
}

/// The histogram of a window counts every syscall of the window exactly
/// once: its slots add up to the window length.
pub proof fn lemma_histogram_total(vocab: Seq<u32>, window: Seq<u32>)
    ensures
        nat_sum(histogram(vocab, window)) == window.len(),
    decreases window.len(),
{
    if window.len() == 0 {
        let h = histogram(vocab, window);
        assert forall|b: int| 0 <= b < h.len() implies h[b] == 0 by {}
        lemma_zero_sum(h);
    } else {
        let prev = window.drop_last();
        lemma_histogram_total(vocab, prev);
        let k = bucket_of(vocab, window.last());
        lemma_bucket_in_range(vocab, window.last());
        let hp = histogram(vocab, prev);
        assert(histogram(vocab, window) =~= hp.update(k, hp[k] + 1));
        lemma_nat_sum_bump(hp, k);
    }
}

proof fn lemma_zero_sum(s: Seq<nat>)
    requires
        forall|b: int| 0 <= b < s.len() ==> s[b] == 0,
    ensures
        nat_sum(s) == 0,
    decreases s.len(),
{
    if s.len() > 0 {
        lemma_zero_sum(s.drop_last());
    }
}

/// Every emitted window is a full histogram: its counts add up to the
/// number of syscalls in the window, so the normalized histogram sums to
/// one.
pub proof fn lemma_emitted_counts_total(vocab: Seq<u32>, window: Seq<u32>, counts: Seq<usize>)
    requires
        counts_match(vocab, window, counts),
    ensures
        count_sum(counts) == window.len(),
{
    lemma_histogram_total(vocab, window);
    lemma_counts_sum_eq(counts, histogram(vocab, window));
}

proof fn lemma_counts_sum_eq(c: Seq<usize>, h: Seq<nat>)
    requires
        c.len() == h.len(),
        forall|b: int| 0 <= b < c.len() ==> c[b] == h[b],
    ensures
        count_sum(c) == nat_sum(h),
    decreases c.len(),
{
    if c.len() > 0 {
        lemma_counts_sum_eq(c.drop_last(), h.drop_last());
    }
}

/// Processes have independent windows: replacing one process's window
/// leaves every other process's window as it was, and gives the process
/// exactly the new window.
pub proof fn lemma_windows_independent(ws: Windows, key: Seq<char>, w: Seq<u32>, other: Seq<char>)
    requires
        keys_distinct(ws),
    ensures
        keys_distinct(with_window(ws, key, w)),
        window_of(with_window(ws, key, w), key) == w,
        other != key ==> window_of(with_window(ws, key, w), other) == window_of(ws, other),
{
    let ws2 = with_window(ws, key, w);
    let n = if has_key(ws, key) { key_index(ws, key) } else { ws.len() as int };
    assert(ws2[n] == (key, w));
    assert(keys_distinct(ws2)) by {
        assert forall|i: int, j: int| 0 <= i < ws2.len() && 0 <= j < ws2.len() && i != j implies ws2[i].0
            != ws2[j].0 by {
            if i != n && j != n {
                assert(ws2[i] == ws[i] && ws2[j] == ws[j]);
            } else if i == n {
                assert(ws2[j] == ws[j]);
            } else {
                assert(ws2[i] == ws[i]);
            }
        }
    }
    assert(has_key(ws2, key));
    if other != key {
        if has_key(ws, other) {
            let o = key_index(ws, other);
            assert(ws2[o] == ws[o]);
            assert(has_key(ws2, other));
        } else {
            assert forall|i: int| 0 <= i < ws2.len() implies ws2[i].0 != other by {
                if i != n {
                    assert(ws2[i] == ws[i]);
                }
            }
        }
    }
}

/// Resetting a process drops its open window, leaving every other
/// process's window as it was.
pub proof fn lemma_reset_drops_window(ws: Windows, key: Seq<char>, other: Seq<char>)
    requires
        keys_distinct(ws),
    ensures
        keys_distinct(without_key(ws, key)),
        window_of(without_key(ws, key), key) == Seq::<u32>::empty(),
        other != key ==> window_of(without_key(ws, key), other) == window_of(ws, other),
{
    let ws2 = without_key(ws, key);
    if has_key(ws, key) {
        let n = key_index(ws, key);
        assert forall|a: int, b: int| 0 <= a < ws2.len() && 0 <= b < ws2.len() && a != b implies ws2[a].0
            != ws2[b].0 by {
            let a0 = if a < n { a } else { a + 1 };
            let b0 = if b < n { b } else { b + 1 };
            assert(ws2[a] == ws[a0]);
            assert(ws2[b] == ws[b0]);
        }
        assert forall|i: int| 0 <= i < ws2.len() implies ws2[i].0 != key by {
            let i0 = if i < n { i } else { i + 1 };
            assert(ws2[i] == ws[i0]);
        }
        if other != key && has_key(ws, other) {
            let o = key_index(ws, other);
            let o2 = if o < n { o } else { o - 1 };
            assert(ws2[o2] == ws[o]);
            assert(has_key(ws2, other));
        } else if other != key {
            assert forall|i: int| 0 <= i < ws2.len() implies ws2[i].0 != other by {
                let i0 = if i < n { i } else { i + 1 };
                assert(ws2[i] == ws[i0]);
            }
        }
    }
}

/// A call made on an extractor: `(key, Some(nr))` is `accumulate(key, nr)`,
/// `(key, None)` is `reset_process(key)`
pub type ExtractorCall = (Seq<char>, Option<u32>);

/// One call taking the windows `ws` to `ws2` with result `r` (a reset
/// returns nothing and is recorded as `None`)
pub open spec fn extractor_call_step(
    vocab: Seq<u32>,
    wsize: nat,
    ws: Windows,
    call: ExtractorCall,
    ws2: Windows,
    r: Option<EmittedWindow>,
) -> bool {
    match call.1 {
        Some(nr) => accumulate_step(vocab, wsize, ws, call.0, nr, ws2, r),
        None => ws2 == without_key(ws, call.0) && r is None,
    }
}

/// The syscalls fed for `key` since its last reset, in order
pub open spec fn key_trace(calls: Seq<ExtractorCall>, key: Seq<char>) -> Seq<u32>
    decreases calls.len(),
{
    if calls.len() == 0 {
        Seq::empty()
    } else {
        let prev = key_trace(calls.drop_last(), key);
        let c = calls.last();
        if c.0 == key {
            match c.1 {
                Some(nr) => prev.push(nr),
                None => Seq::empty(),
            }
        } else {
            prev
        }
    }
}

/// The part of a trace not yet emitted: the syscalls after the last full
/// window of `wsize`
pub open spec fn open_part(trace: Seq<u32>, wsize: nat) -> Seq<u32> {
    trace.subrange(trace.len() - trace.len() % wsize, trace.len() as int)
}

proof fn lemma_mod_succ(l: int, w: int)
    requires
        l >= 0,
        w >= 1,
    ensures
        0 <= l % w < w,
        l % w <= l,
        l % w + 1 < w ==> (l + 1) % w == l % w + 1,
        l % w + 1 == w ==> (l + 1) % w == 0,
{
    let q = l / w;
    let r = l % w;
    assert(0 <= r < w) by {
        vstd::arithmetic::div_mod::lemma_mod_pos_bound(l, w);
    }
    assert(r <= l) by {
        vstd::arithmetic::div_mod::lemma_mod_decreases(l as nat, w as nat);
    }
    assert(l == w * q + r) by {
        vstd::arithmetic::div_mod::lemma_fundamental_div_mod(l, w);
    }
    assert(w * q == q * w) by {
        vstd::arithmetic::mul::lemma_mul_is_commutative(w, q);
    }
    if r + 1 < w {
        vstd::arithmetic::div_mod::lemma_fundamental_div_mod_converse(l + 1, w, q, r + 1);
    } else if r + 1 == w {
        assert((q + 1) * w == q * w + w) by {
            vstd::arithmetic::mul::lemma_mul_is_distributive_add_other_way(w, q, 1);
        }
        vstd::arithmetic::div_mod::lemma_fundamental_div_mod_converse(l + 1, w, q + 1, 0);
    }
}

/// One more syscall for the key: the open part grows by it, or, when that
/// fills a window, the window is the trace's last `wsize` syscalls and the
/// open part starts empty again
proof fn lemma_open_part_push(trace: Seq<u32>, wsize: nat, nr: u32)
    requires
        wsize >= 1,
    ensures
        open_part(trace, wsize).len() < wsize,
        open_part(trace, wsize).len() + 1 < wsize ==> {
            &&& open_part(trace.push(nr), wsize) == open_part(trace, wsize).push(nr)
            &&& trace.push(nr).len() % wsize != 0
        },
        open_part(trace, wsize).len() + 1 == wsize ==> {
            &&& open_part(trace.push(nr), wsize) == Seq::<u32>::empty()
            &&& trace.push(nr).len() % wsize == 0
            &&& trace.push(nr).len() >= wsize
            &&& open_part(trace, wsize).push(nr) == trace.push(nr).subrange(
                trace.push(nr).len() - wsize,
                trace.push(nr).len() as int,
            )
        },
{
    let l = trace.len() as int;
    let w = wsize as int;
    lemma_mod_succ(l, w);
    let t2 = trace.push(nr);
    let r = l % w;
    assert(trace.len() % wsize == r);
    assert(t2.len() % wsize == (l + 1) % w);
    assert(open_part(trace, wsize) == trace.subrange(l - r, l));
    if r + 1 < w {
        assert(open_part(t2, wsize) == t2.subrange(l - r, l + 1));
        assert(open_part(t2, wsize) =~= open_part(trace, wsize).push(nr));
    } else if r + 1 == w {
        assert(open_part(t2, wsize) == t2.subrange(l + 1, l + 1));
        assert(open_part(t2, wsize) =~= Seq::<u32>::empty());
        assert(l + 1 - w == l - r);
        assert(open_part(trace, wsize).push(nr) =~= t2.subrange(l + 1 - w, l + 1));
    }
}

/// What a run of calls on an extractor does for one process key `p`, from
/// a state where `p` has no open window (as right after construction or
/// `reset_process(p)`). Let `m` be the syscalls fed for `p` since its last
/// reset. Then `p`'s open window is always what follows the last full
/// window of `m`, so it stays shorter than `window_size`; the call
/// `accumulate(p, nr)` returns a window exactly when it makes `m.len()` a
/// multiple of `window_size`, and that window belongs to `p` and holds the
/// histogram of the last `window_size` syscalls of `m`. Calls for other
/// keys never change what `p` sees.
pub proof fn lemma_extractor_run(
    vocab: Seq<u32>,
    wsize: nat,
    p: Seq<char>,
    calls: Seq<ExtractorCall>,
    states: Seq<Windows>,
    results: Seq<Option<EmittedWindow>>,
)
    requires
        wsize >= 1,
        states.len() == calls.len() + 1,
        results.len() == calls.len(),
        keys_distinct(states[0]),
        window_of(states[0], p) == Seq::<u32>::empty(),
        forall|i: int|
            0 <= i < calls.len() ==> #[trigger] extractor_call_step(
                vocab,
                wsize,
                states[i],
                calls[i],
                states[i + 1],
                results[i],
            ),
    ensures
        forall|k: int|
            0 <= k < states.len() ==> {
                &&& keys_distinct(#[trigger] states[k])
                &&& window_of(states[k], p) == open_part(key_trace(calls.take(k), p), wsize)
                &&& window_of(states[k], p).len() < wsize
            },
        forall|i: int|
            0 <= i < calls.len() && (#[trigger] calls[i]).0 == p && calls[i].1 is Some ==> {
                let m = key_trace(calls.take(i + 1), p);
                &&& (results[i] is Some <==> m.len() % wsize == 0)
                &&& results[i] matches Some(e) ==> {
                    &&& e.process_key@ == p
                    &&& m.len() >= wsize
                    &&& counts_match(vocab, m.subrange(m.len() - wsize, m.len() as int), e.counts@)
                }
            },
    decreases calls.len(),
{
    if calls.len() == 0 {
        assert(calls.take(0) =~= Seq::<ExtractorCall>::empty());
        assert(open_part(Seq::<u32>::empty(), wsize) =~= Seq::<u32>::empty());
    } else {
        let n = (calls.len() - 1) as int;
        let pc = calls.take(n);
        let ps = states.take(n + 1);
        let pr = results.take(n);
        assert forall|i: int| 0 <= i < pc.len() implies #[trigger] extractor_call_step(
            vocab,
            wsize,
            ps[i],
            pc[i],
            ps[i + 1],
            pr[i],
        ) by {
            assert(extractor_call_step(vocab, wsize, states[i], calls[i], states[i + 1], results[i]));
        }
        lemma_extractor_run(vocab, wsize, p, pc, ps, pr);
        // the last call
        let ws = states[n];
        let ws2 = states[n + 1];
        let c = calls[n];
        assert(ps[n] == ws);
        assert(pc.take(n) =~= pc);
        assert(calls.take(n) =~= pc);
        assert(calls.take(n + 1) =~= calls);
        assert(calls.drop_last() =~= pc);
        let t = key_trace(pc, p);
        let t2 = key_trace(calls, p);
        assert(keys_distinct(ws) && window_of(ws, p) == open_part(t, wsize));
        assert(extractor_call_step(vocab, wsize, ws, c, ws2, results[n]));
        lemma_open_part_push(t, wsize, 0);
        match c.1 {
            Some(nr) => {
                let w = window_of(ws, c.0).push(nr);
                if w.len() < wsize {
                    lemma_windows_independent(ws, c.0, w, p);
                } else {
                    lemma_windows_independent(ws, c.0, Seq::empty(), p);
                }
                if c.0 == p {
                    assert(t2 == t.push(nr));
                    lemma_open_part_push(t, wsize, nr);
                    assert(results[n] is Some <==> t2.len() % wsize == 0);
                    if w.len() >= wsize {
                        assert(w == t2.subrange(t2.len() - wsize, t2.len() as int));
                    }
                }
            },
            None => {
                lemma_reset_drops_window(ws, c.0, p);
                if c.0 == p {
                    assert(t2 == Seq::<u32>::empty());
                    assert(open_part(t2, wsize) =~= Seq::<u32>::empty());
                }
            },
        }
        assert(keys_distinct(ws2));
        assert(window_of(ws2, p) == open_part(t2, wsize));
        lemma_open_part_push(t2, wsize, 0);
        assert forall|k: int| 0 <= k < states.len() implies {
            &&& keys_distinct(#[trigger] states[k])
            &&& window_of(states[k], p) == open_part(key_trace(calls.take(k), p), wsize)
            &&& window_of(states[k], p).len() < wsize
        } by {
            if k <= n {
                assert(ps[k] == states[k]);
                assert(pc.take(k) =~= calls.take(k));
            }
        }
        assert forall|i: int|
            0 <= i < calls.len() && (#[trigger] calls[i]).0 == p && calls[i].1 is Some implies {
            let m = key_trace(calls.take(i + 1), p);
            &&& (results[i] is Some <==> m.len() % wsize == 0)
            &&& results[i] matches Some(e) ==> {
                &&& e.process_key@ == p
                &&& m.len() >= wsize
                &&& counts_match(vocab, m.subrange(m.len() - wsize, m.len() as int), e.counts@)
            }
        } by {
            if i < n {
                assert(pc[i] == calls[i]);
                assert(pr[i] == results[i]);
                assert(pc.take(i + 1) =~= calls.take(i + 1));
            }
        }
    }
}

} // verus!
