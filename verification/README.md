# chronosynd

Behavioral host intrusion detection: syscall events are grouped into
per-process windows, each closed window becomes a histogram over a syscall
vocabulary, and histograms are scored against fitted per-process baselines
kept in a tamper-evident store.

`src/` is the verified core (Verus):

- `event`, `source`, `raw`: events, kernel kind codes, the wire record,
  log sanitization, the in-memory event source, ring-buffer decoding.
- `ngram`: the disjoint-window syscall histogram extractor.
- `recording`, `replay`: reading recorded event streams back and replaying
  them into one histogram row per closed window.
- `audit`, `storage`: the SHA-256 hash-chained audit log (row hashing,
  appending, verification) and stored-row validation.
- `scoring`, `baseline`: scoring-request checks, the per-process table,
  estimator input checks and trim bounds.
- `observations`: the shape check on CSV training observations.
- `demo`: the deterministic demo event stream.

`app/` is the `chronosynd` program: the CLI, the collector daemon, the
SQLite store, the floating-point estimators and scorer, JSONL recording,
and the Linux BPF event source. This build embeds no compiled probe; on
Linux, `--bpf --bpf-object <PATH>` loads one compiled separately.
