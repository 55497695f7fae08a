//! Tests for the syscall n-gram extractor

use chronosynd::ngram::{default_syscall_vocab, EmittedWindow, FeatureError, SyscallNgramExtractor};

/// The normalized histogram the scorer consumes: each count over the window size
fn feature_vector(emitted: &EmittedWindow, window_size: usize) -> Vec<f64> {
    emitted.counts.iter().map(|c| *c as f64 / window_size as f64).collect()
}

fn default_emit() -> EmittedWindow {
    EmittedWindow {
        process_key: String::new(),
        counts: Vec::new(),
    }
}

#[test]
fn feature_dim_is_vocab_plus_other_bucket() {
    let vocab = vec![0, 1, 2];
    let extractor = SyscallNgramExtractor::new(vocab, 4).unwrap();
    assert_eq!(extractor.feature_dim(), 4);
    assert_eq!(extractor.other_bucket_index(), 3);
}

#[test]
fn accumulating_below_window_size_returns_none() {
    let mut extractor = SyscallNgramExtractor::new(vec![0, 1], 4).unwrap();
    assert!(extractor.accumulate("nginx", 0).is_none());
    assert!(extractor.accumulate("nginx", 1).is_none());
    assert!(extractor.accumulate("nginx", 0).is_none());
}

#[test]
fn closing_window_emits_normalized_histogram() {
    let mut extractor = SyscallNgramExtractor::new(vec![0, 1, 2], 4).unwrap();
    extractor.accumulate("nginx", 0).unwrap_or(default_emit());
    extractor.accumulate("nginx", 0).unwrap_or(default_emit());
    extractor.accumulate("nginx", 1).unwrap_or(default_emit());
    let emitted = extractor.accumulate("nginx", 2).expect("window should close");
    assert_eq!(emitted.process_key, "nginx");
    let fv = feature_vector(&emitted, 4);
    assert_eq!(fv, vec![0.5, 0.25, 0.25, 0.0]);

    let sum: f64 = fv.iter().sum();
    assert!((sum - 1.0).abs() < 1e-12);
}

#[test]
fn out_of_vocabulary_syscalls_go_to_the_other_bucket() {
    let mut extractor = SyscallNgramExtractor::new(vec![0, 1], 4).unwrap();
    let _ = extractor.accumulate("p", 0);
    let _ = extractor.accumulate("p", 999);
    let _ = extractor.accumulate("p", 9999);
    let emitted = extractor.accumulate("p", 0).expect("window should close");
    assert_eq!(feature_vector(&emitted, 4), vec![0.5, 0.0, 0.5]);
}

#[test]
fn each_process_has_its_own_independent_window() {
    let mut extractor = SyscallNgramExtractor::new(vec![0, 1, 2], 2).unwrap();
    assert!(extractor.accumulate("a", 0).is_none());
    assert!(extractor.accumulate("b", 1).is_none());
    let emit_a = extractor.accumulate("a", 1).expect("a should close");
    let emit_b = extractor.accumulate("b", 2).expect("b should close");
    assert_eq!(emit_a.process_key, "a");
    assert_eq!(feature_vector(&emit_a, 2), vec![0.5, 0.5, 0.0, 0.0]);
    assert_eq!(emit_b.process_key, "b");
    assert_eq!(feature_vector(&emit_b, 2), vec![0.0, 0.5, 0.5, 0.0]);
}

#[test]
fn second_window_starts_clean_after_emission() {
    let mut extractor = SyscallNgramExtractor::new(vec![0, 1], 2).unwrap();
    let _ = extractor.accumulate("p", 0);
    let first = extractor.accumulate("p", 0).expect("first close");
    assert_eq!(feature_vector(&first, 2), vec![1.0, 0.0, 0.0]);

    let _ = extractor.accumulate("p", 1);
    let second = extractor.accumulate("p", 1).expect("second close");
    assert_eq!(feature_vector(&second, 2), vec![0.0, 1.0, 0.0]);
}

#[test]
fn reset_process_drops_any_pending_window() {
    let mut extractor = SyscallNgramExtractor::new(vec![0, 1], 3).unwrap();
    let _ = extractor.accumulate("p", 0);
    let _ = extractor.accumulate("p", 0);
    extractor.reset_process("p");
    assert!(extractor.accumulate("p", 0).is_none());
    let _ = extractor.accumulate("p", 0);
    let emitted = extractor.accumulate("p", 0).expect("window should close after reset");
    assert_eq!(feature_vector(&emitted, 3), vec![1.0, 0.0, 0.0]);
}

#[test]
fn tracked_process_count_grows_per_seen_process() {
    let mut extractor = SyscallNgramExtractor::new(vec![0], 4).unwrap();
    assert_eq!(extractor.tracked_process_count(), 0);
    let _ = extractor.accumulate("a", 0);
    let _ = extractor.accumulate("b", 0);
    let _ = extractor.accumulate("a", 0);
    assert_eq!(extractor.tracked_process_count(), 2);
}

#[test]
fn zero_window_size_is_rejected() {
    let err = SyscallNgramExtractor::new(vec![0, 1], 0).err().unwrap();
    assert!(matches!(err, FeatureError::InvalidParameter(_)));
}

#[test]
fn duplicate_vocab_entry_is_rejected() {
    let err = SyscallNgramExtractor::new(vec![0, 1, 0], 4).err().unwrap();
    assert!(matches!(err, FeatureError::DuplicateVocabEntry(0)));
}

#[test]
fn default_vocab_returns_a_meaningful_set() {
    let vocab = default_syscall_vocab();
    assert!(vocab.contains(&0)); // read
    assert!(vocab.contains(&1)); // write
    assert!(vocab.contains(&59)); // execve
    assert!(vocab.contains(&257)); // openat
    let mut sorted = vocab.clone();
    sorted.sort_unstable();
    sorted.dedup();
    assert_eq!(sorted.len(), vocab.len(), "default vocab must be unique");
}

#[test]
fn extractor_built_from_default_vocab_has_consistent_dim() {
    let vocab = default_syscall_vocab();
    let expected = vocab.len() + 1;
    let extractor = SyscallNgramExtractor::new(vocab, 16).unwrap();
    assert_eq!(extractor.feature_dim(), expected);
}

#[test]
fn duplicate_reported_is_the_first_repeat_in_order() {
    let err = SyscallNgramExtractor::new(vec![5, 7, 7, 5], 4).err().unwrap();
    assert!(matches!(err, FeatureError::DuplicateVocabEntry(7)));
}

#[test]
fn zero_window_is_reported_before_duplicates() {
    let err = SyscallNgramExtractor::new(vec![1, 1], 0).err().unwrap();
    assert!(matches!(err, FeatureError::InvalidParameter(_)));
}

#[test]
fn emitted_counts_sum_to_window_size() {
    let mut extractor = SyscallNgramExtractor::new(default_syscall_vocab(), 5).unwrap();
    let mut last = None;
    for nr in [0, 1, 1, 9999, 257] {
        last = extractor.accumulate("proc", nr);
    }
    let emitted = last.expect("fifth event closes the window");
    assert_eq!(emitted.counts.iter().sum::<usize>(), 5);
    assert_eq!(emitted.counts.len(), 27);
    assert_eq!(emitted.counts[0], 1);
    assert_eq!(emitted.counts[1], 2);
    assert_eq!(emitted.counts[25], 1);
    assert_eq!(emitted.counts[26], 1);
}

#[test]
fn reset_of_untracked_process_changes_nothing() {
    let mut extractor = SyscallNgramExtractor::new(vec![0], 2).unwrap();
    let _ = extractor.accumulate("a", 0);
    extractor.reset_process("b");
    assert_eq!(extractor.tracked_process_count(), 1);
    assert!(extractor.accumulate("a", 0).is_some());
}

#[test]
fn run_emits_every_window_size_calls_since_reset() {
    let mut e = SyscallNgramExtractor::new(vec![0, 1, 2], 3).unwrap();
    assert!(e.accumulate("p", 0).is_none());
    assert!(e.accumulate("p", 1).is_none());
    assert!(e.accumulate("q", 2).is_none());
    let first = e.accumulate("p", 1).expect("third call for p closes a window");
    assert_eq!(first.process_key, "p");
    assert_eq!(first.counts, vec![1, 2, 0, 0]);
    assert!(e.accumulate("p", 9).is_none());
    e.reset_process("p");
    assert!(e.accumulate("p", 2).is_none());
    assert!(e.accumulate("q", 2).is_none());
    let q_window = e.accumulate("q", 7).expect("third call for q closes its window");
    assert_eq!(q_window.counts, vec![0, 0, 2, 1]);
    assert!(e.accumulate("p", 2).is_none());
    let second = e.accumulate("p", 0).expect("three calls since the reset");
    assert_eq!(second.counts, vec![1, 0, 2, 0]);
}
