//! Hash-chained audit log: every state-changing operation of the baseline
//! store appends a row whose SHA-256 hash covers the sequence number, the
//! timestamp, the length-prefixed operation and payload, and the previous
//! row's hash, anchored at the all-zero hash. Verification walks the rows
//! in order and reports the first row whose link or hash does not hold.

use sha2::{Digest, Sha256};
use vstd::prelude::*;
use vstd::utf8::encode_utf8;

verus! {

/// The SHA-256 digest of a byte sequence
pub uninterp spec fn sha256_of(data: Seq<u8>) -> Seq<u8>;

/// `Sha256::digest` from the `sha2` crate: the digest is `sha256_of` the
/// input, and is 32 bytes long (the output size `U32` of `Sha256`).
#[verifier::external_body]
fn sha256_digest(data: &[u8]) -> (digest: Vec<u8>)
    ensures
        digest@ == sha256_of(data@),
        digest@.len() == 32,
{
    Sha256::digest(data).to_vec()
}

/// Lowercase hex digit of a value below 16
pub open spec fn hex_digit(n: int) -> char {
    if n < 10 {
        (48 + n) as char
    } else {
        (97 + n - 10) as char
    }
}

/// Value of a hex digit character, either case, or -1 for any other character
pub open spec fn hex_value(c: char) -> int {
    if '0' <= c && c <= '9' {
        (c as int) - 48
    } else if 'a' <= c && c <= 'f' {
        (c as int) - 97 + 10
    } else if 'A' <= c && c <= 'F' {
        (c as int) - 65 + 10
    } else {
        -1
    }
}

/// Lowercase hex encoding: two digits per byte, high nibble first
pub open spec fn hex_lower(bytes: Seq<u8>) -> Seq<char> {
    Seq::new(
        2 * bytes.len(),
        |i: int|
            if i % 2 == 0 {
                hex_digit(bytes[i / 2] as int / 16)
            } else {
                hex_digit(bytes[i / 2] as int % 16)
            },
    )
}

/// Hex decoding: defined when the text has an even number of characters,
/// all hex digits of either case; each pair gives one byte, high nibble
/// first
pub open spec fn hex_decoded(s: Seq<char>) -> Option<Seq<u8>> {
    if s.len() % 2 == 0 && forall|i: int| 0 <= i < s.len() ==> hex_value(#[trigger] s[i]) >= 0 {
        Some(
            Seq::new(
                (s.len() / 2) as nat,
                |i: int| (16 * hex_value(s[2 * i]) + hex_value(s[2 * i + 1])) as u8,
            ),
        )
    } else {
        None
    }
}

/// `hex::encode` from the `hex` crate: two lowercase hex digits per byte,
/// high nibble first (the `HEX_CHARS_LOWER` table).
#[verifier::external_body]
fn hex_encode(bytes: &[u8]) -> (s: String)
    ensures
        s@ == hex_lower(bytes@),
{
    hex::encode(bytes)
}

/// `hex::decode` from the `hex` crate: succeeds exactly when the text has
/// an even length and only hex digits of either case, and then gives one
/// byte per pair of digits. On failure the crate's error message is
/// returned; its wording is not stated.
#[verifier::external_body]
fn hex_decode(s: &str) -> (r: Result<Vec<u8>, String>)
    ensures
        r is Ok <==> hex_decoded(s@) is Some,
        r matches Ok(v) ==> hex_decoded(s@) == Some(v@),
{
    match hex::decode(s) {
        Ok(v) => Ok(v),
        Err(e) => Err(e.to_string()),
    }
}

/// Decoding a lowercase hex encoding gives back the bytes
pub proof fn lemma_hex_round_trip(bytes: Seq<u8>)
    ensures
        hex_decoded(hex_lower(bytes)) == Some(bytes),
{
    let s = hex_lower(bytes);
    assert forall|i: int| 0 <= i < s.len() implies hex_value(#[trigger] s[i]) >= 0 by {
        let b = bytes[i / 2] as int;
        assert(0 <= b / 16 < 16 && 0 <= b % 16 < 16);
    }
    let d = hex_decoded(s)->Some_0;
    assert forall|i: int| 0 <= i < bytes.len() implies d[i] == bytes[i] by {
        let b = bytes[i] as int;
        assert((2 * i) / 2 == i && (2 * i + 1) / 2 == i);
        assert((2 * i) % 2 == 0 && (2 * i + 1) % 2 == 1);
        assert(hex_value(s[2 * i]) == b / 16);
        assert(hex_value(s[2 * i + 1]) == b % 16);
    }
    assert(d =~= bytes);
}


/// The `n` low bytes of `x`, least significant first
pub open spec fn le_bytes(x: nat, n: nat) -> Seq<u8>
    decreases n,
{
    if n == 0 {
        Seq::empty()
    } else {
        seq![(x % 256) as u8] + le_bytes(x / 256, (n - 1) as nat)
    }
}

/// Two's-complement reinterpretation of an `i64` as a `u64`
pub open spec fn i64_bits(x: i64) -> nat {
    if x >= 0 {
        x as nat
    } else {
        (x + 0x1_0000_0000_0000_0000) as nat
    }
}

/// Two's-complement reinterpretation of a `u64` as an `i64`
pub open spec fn u64_as_i64(x: u64) -> i64 {
    if x <= 0x7fff_ffff_ffff_ffff {
        x as i64
    } else {
        (x - 0x1_0000_0000_0000_0000) as i64
    }
}

/// The bytes an audit row's hash covers: sequence number and timestamp
/// as 8 little-endian bytes each, the operation and the payload each
/// preceded by its byte length as 8 little-endian bytes, and the previous
/// row's hash
pub open spec fn row_preimage(seq: i64, ts_ns: u64, operation: Seq<u8>, payload: Seq<u8>, prev_hash: Seq<u8>) -> Seq<u8> {
    le_bytes(i64_bits(seq), 8) + le_bytes(ts_ns as nat, 8) + le_bytes(operation.len(), 8) + operation
        + le_bytes(payload.len(), 8) + payload + prev_hash
}

/// The hash of an audit row
pub open spec fn row_hash(seq: i64, ts_ns: u64, operation: Seq<u8>, payload: Seq<u8>, prev_hash: Seq<u8>) -> Seq<u8> {
    sha256_of(row_preimage(seq, ts_ns, operation, payload, prev_hash))
}

/// A nanosecond timestamp read back from its signed database form, two's complement
pub fn stored_to_ns(x: i64) -> (u: u64)
    ensures
        u == i64_bits(x),
{
    if x >= 0 {
        x as u64
    } else {
        let shifted = (x + 0x7fff_ffff_ffff_ffff + 1) as u64;
        shifted + 0x8000_0000_0000_0000
    }
}

/// The database's signed form of a nanosecond timestamp, two's complement
pub fn ns_to_stored(x: u64) -> (i: i64)
    ensures
        i == u64_as_i64(x),
        i64_bits(i) == x,
{
    if x <= 0x7fff_ffff_ffff_ffff {
        x as i64
    } else {
        let low = (x - 0x8000_0000_0000_0000) as i64;
        low - 0x7fff_ffff_ffff_ffff - 1
    }
}

/// A timestamp stored as `i64` and read back as `u64` is unchanged
pub proof fn lemma_timestamp_round_trip(ts: u64)
    ensures
        i64_bits(u64_as_i64(ts)) == ts,
{
}

fn push_le(out: &mut Vec<u8>, x: u64)
    ensures
        final(out)@ == old(out)@ + le_bytes(x as nat, 8),
{
    let ghost start = out@;
    let mut v = x;
    let mut k: usize = 0;
    while k < 8
        invariant
            k <= 8,
            out@ + le_bytes(v as nat, (8 - k) as nat) == start + le_bytes(x as nat, 8),
        decreases 8 - k,
    {
        let ghost before = out@;
        assert(le_bytes(v as nat, (8 - k) as nat) == seq![(v % 256) as u8] + le_bytes(
            (v / 256) as nat,
            (8 - k - 1) as nat,
        ));
        out.push((v % 256) as u8);
        assert(out@ + le_bytes((v / 256) as nat, (8 - k - 1) as nat) =~= before + (seq![
            (v % 256) as u8,
        ] + le_bytes((v / 256) as nat, (8 - k - 1) as nat)));
        v = v / 256;
        k = k + 1;
    }
    assert(le_bytes(v as nat, 0) =~= Seq::<u8>::empty());
    assert(out@ =~= out@ + le_bytes(v as nat, 0));
}

fn push_all(out: &mut Vec<u8>, bytes: &[u8])
    ensures
        final(out)@ == old(out)@ + bytes@,
{
    let ghost start = out@;
    let mut i: usize = 0;
    while i < bytes.len()
        invariant
            i <= bytes@.len(),
            out@ == start + bytes@.take(i as int),
        decreases bytes@.len() - i,
    {
        out.push(bytes[i]);
        assert(bytes@.take(i + 1) =~= bytes@.take(i as int).push(bytes@[i as int]));
        i = i + 1;
    }
    assert(bytes@.take(bytes@.len() as int) =~= bytes@);
}

/// Hash of one audit row over its sequence number, timestamp, operation,
/// payload and the previous row's hash
pub fn compute_row_hash(seq: i64, ts_ns: u64, operation: &[u8], payload: &[u8], prev_hash: &[u8]) -> (h: Vec<u8>)
    ensures
        h@ == row_hash(seq, ts_ns, operation@, payload@, prev_hash@),
        h@.len() == 32,
{
    let mut pre: Vec<u8> = Vec::new();
    push_le(&mut pre, stored_to_ns(seq));
    push_le(&mut pre, ts_ns);
    push_le(&mut pre, operation.len() as u64);
    push_all(&mut pre, operation);
    push_le(&mut pre, payload.len() as u64);
    push_all(&mut pre, payload);
    push_all(&mut pre, prev_hash);
    assert(pre@ =~= row_preimage(seq, ts_ns, operation@, payload@, prev_hash@));
    sha256_digest(pre.as_slice())
}


/// Anything the storage layer can fail with
#[derive(Debug, Clone, PartialEq, Eq)]
pub enum StorageError {
    /// Underlying SQLite operation failed, with the database's message
    Sqlite(String),
    /// Serializing or deserializing a payload failed, with the serializer's message
    Serialization(String),
    /// A caller-supplied value did not pass validation
    InvalidArgument(String),
    /// The audit log's hash chain is broken at the indicated sequence number
    AuditTampered {
        /// First sequence number where the recomputed hash disagrees with the stored hash
        seq: i64,
    },
    /// A required record was not present in the store
    NotFound(String),
    /// A row read from the database held a value outside its allowed domain
    CorruptRow(String),
}

/// Result of walking the audit log start to end and recomputing every hash
#[derive(Debug, Clone, PartialEq, Eq, Structural)]
pub struct AuditVerification {
    /// Whether every row's hash matched the recomputed value
    pub valid: bool,
    /// Sequence number of the highest row in the log, zero if empty
    pub last_seq: i64,
    /// First row where verification failed, `None` for clean logs
    pub broken_at_seq: Option<i64>,
    /// How many rows the log contained
    pub row_count: u64,
}

/// Process exit status of an audit check that found the log clean
pub const EXIT_CLEAN: i32 = 0;

/// Process exit status of an audit check that found the log tampered with
pub const EXIT_TAMPERED: i32 = 2;

/// The exit status an audit check reports for a verification result:
/// `EXIT_CLEAN` for a clean log, `EXIT_TAMPERED` for a broken one
pub fn verification_exit_code(report: &AuditVerification) -> (code: i32)
    ensures
        code == if report.valid {
            EXIT_CLEAN
        } else {
            EXIT_TAMPERED
        },
{
    if report.valid {
        EXIT_CLEAN
    } else {
        EXIT_TAMPERED
    }
}

/// One row of the audit log as stored: hashes as hex text, the timestamp
/// as the database's signed integer
#[derive(Debug, Clone, PartialEq, Eq)]
pub struct AuditRow {
    /// Position in the chain, starting at 1
    pub seq: i64,
    /// Timestamp of the operation, stored as a signed integer
    pub ts_ns: i64,
    /// Name of the state-changing operation
    pub operation: String,
    /// Serialized description of the operation
    pub payload: String,
    /// Hash of the previous row, hex
    pub prev_hash: String,
    /// Hash of this row, hex
    pub hash: String,
}

/// Sentinel previous hash of the very first audit row, all zeros
pub open spec fn anchor_hash() -> Seq<u8> {
    Seq::new(32, |i: int| 0u8)
}

/// A stored hash: hex text of exactly 32 bytes
pub open spec fn hash_field(s: Seq<char>) -> Option<Seq<u8>> {
    match hex_decoded(s) {
        Some(b) => if b.len() == 32 {
            Some(b)
        } else {
            None
        },
        None => None,
    }
}

/// Both hashes of the row are well-formed
pub open spec fn row_decodes(r: AuditRow) -> bool {
    hash_field(r.prev_hash@) is Some && hash_field(r.hash@) is Some
}

/// The previous hash row `i` must carry: the anchor for the first row,
/// the hash of row `i - 1` otherwise
pub open spec fn expected_prev(rows: Seq<AuditRow>, i: int) -> Seq<u8> {
    if i == 0 {
        anchor_hash()
    } else {
        hash_field(rows[i - 1].hash@)->Some_0
    }
}

/// The hash a row must carry given its previous hash
pub open spec fn recomputed_hash(r: AuditRow, prev: Seq<u8>) -> Seq<u8> {
    row_hash(r.seq, i64_bits(r.ts_ns) as u64, encode_utf8(r.operation@), encode_utf8(r.payload@), prev)
}

/// Row `i` verifies: its hashes are well-formed, it links to the row
/// before it, and its stored hash is the recomputed one
pub open spec fn row_holds(rows: Seq<AuditRow>, i: int) -> bool {
    &&& row_decodes(rows[i])
    &&& hash_field(rows[i].prev_hash@)->Some_0 == expected_prev(rows, i)
    &&& hash_field(rows[i].hash@)->Some_0 == recomputed_hash(rows[i], expected_prev(rows, i))
}

/// Row `k` is the first row that does not verify
pub open spec fn first_failure(rows: Seq<AuditRow>, k: int) -> bool {
    &&& 0 <= k < rows.len()
    &&& !row_holds(rows, k)
    &&& forall|j: int| 0 <= j < k ==> row_holds(rows, j)
}

/// Sequence number of the row before position `k`, zero at the start
pub open spec fn seq_before(rows: Seq<AuditRow>, k: int) -> i64 {
    if k == 0 {
        0
    } else {
        rows[k - 1].seq
    }
}

/// What verifying the rows reports: the number of rows and the highest
/// sequence number, and clean when every row verifies; otherwise, at the
/// first failing row, broken when its hashes are well-formed and nothing
/// (a storage error) when they are not
pub open spec fn verify_outcome(rows: Seq<AuditRow>) -> Option<AuditVerification> {
    if forall|i: int| 0 <= i < rows.len() ==> row_holds(rows, i) {
        Some(
            AuditVerification {
                valid: true,
                last_seq: seq_before(rows, rows.len() as int),
                broken_at_seq: None,
                row_count: rows.len() as u64,
            },
        )
    } else {
        let k = choose|k: int| first_failure(rows, k);
        if row_decodes(rows[k]) {
            Some(
                AuditVerification {
                    valid: false,
                    last_seq: seq_before(rows, rows.len() as int),
                    broken_at_seq: Some(rows[k].seq),
                    row_count: rows.len() as u64,
                },
            )
        } else {
            None
        }
    }
}

/// The all-zero anchor hash
pub fn anchor() -> (h: Vec<u8>)
    ensures
        h@ == anchor_hash(),
{
    let mut h: Vec<u8> = Vec::new();
    let mut i: usize = 0;
    while i < 32
        invariant
            i <= 32,
            h@.len() == i,
            forall|j: int| 0 <= j < i ==> h@[j] == 0u8,
        decreases 32 - i,
    {
        h.push(0);
        i = i + 1;
    }
    assert(h@ =~= anchor_hash());
    h
}

/// Decode a stored hash, failing with `InvalidArgument` unless it is hex
/// text of exactly 32 bytes
pub fn decode_hash(hex_string: &str) -> (r: Result<Vec<u8>, StorageError>)
    ensures
        r is Ok <==> hash_field(hex_string@) is Some,
        r matches Ok(h) ==> hash_field(hex_string@) == Some(h@),
        r matches Err(e) ==> e is InvalidArgument,
{
    match hex_decode(hex_string) {
        Ok(bytes) => {
            if bytes.len() == 32 {
                Ok(bytes)
            } else {
                Err(
                    StorageError::InvalidArgument(
                        String::from_str("audit log hash had unexpected byte length"),
                    ),
                )
            }
        },
        Err(message) => {
            let mut text = String::from_str("audit log hash not hex: ");
            text.append(message.as_str());
            Err(StorageError::InvalidArgument(text))
        },
    }
}

fn bytes_equal(a: &Vec<u8>, b: &Vec<u8>) -> (eq: bool)
    ensures
        eq == (a@ == b@),
{
    if a.len() != b.len() {
        return false;
    }
    let mut i: usize = 0;
    while i < a.len()
        invariant
            a@.len() == b@.len(),
            i <= a@.len(),
            forall|j: int| 0 <= j < i ==> a@[j] == b@[j],
        decreases a@.len() - i,
    {
        if a[i] != b[i] {
            return false;
        }
        i = i + 1;
    }
    assert(a@ =~= b@);
    true
}

fn broken_report(rows: &Vec<AuditRow>, seq: i64) -> (v: AuditVerification)
    ensures
        v == (AuditVerification {
            valid: false,
            last_seq: seq_before(rows@, rows@.len() as int),
            broken_at_seq: Some(seq),
            row_count: rows@.len() as u64,
        }),
{
    let n = rows.len();
    let last_seq = if n == 0 {
        0
    } else {
        rows[n - 1].seq
    };
    AuditVerification { valid: false, last_seq, broken_at_seq: Some(seq), row_count: n as u64 }
}

/// Walk the audit rows in order and report the first row whose hashes do
/// not link or do not match their recomputation
pub fn verify_audit_rows(rows: &Vec<AuditRow>) -> (r: Result<AuditVerification, StorageError>)
    ensures
        r is Err <==> verify_outcome(rows@) is None,
        r matches Ok(v) ==> verify_outcome(rows@) == Some(v),
        r matches Err(e) ==> e is InvalidArgument,
{
    let mut prev = anchor();
    let mut last_seq: i64 = 0;
    let mut i: usize = 0;
    while i < rows.len()
        invariant
            i <= rows@.len(),
            forall|j: int| 0 <= j < i ==> row_holds(rows@, j),
            prev@ == expected_prev(rows@, i as int),
            last_seq == seq_before(rows@, i as int),
        decreases rows@.len() - i,
    {
        let row = &rows[i];
        let stored_prev = match decode_hash(row.prev_hash.as_str()) {
            Ok(h) => h,
            Err(e) => {
                proof {
                    assert(first_failure(rows@, i as int));
                    assert(!(forall|j: int| 0 <= j < rows@.len() ==> row_holds(rows@, j)));
                }
                return Err(e);
            },
        };
        let stored_hash = match decode_hash(row.hash.as_str()) {
            Ok(h) => h,
            Err(e) => {
                proof {
                    assert(first_failure(rows@, i as int));
                    assert(!(forall|j: int| 0 <= j < rows@.len() ==> row_holds(rows@, j)));
                }
                return Err(e);
            },
        };
        if !bytes_equal(&stored_prev, &prev) {
            proof {
                assert(first_failure(rows@, i as int));
                assert(!(forall|j: int| 0 <= j < rows@.len() ==> row_holds(rows@, j)));
            }
            return Ok(broken_report(rows, row.seq));
        }
        let recomputed = compute_row_hash(
            row.seq,
            stored_to_ns(row.ts_ns),
            row.operation.as_str().as_bytes(),
            row.payload.as_str().as_bytes(),
            prev.as_slice(),
        );
        if !bytes_equal(&recomputed, &stored_hash) {
            proof {
                assert(first_failure(rows@, i as int));
                assert(!(forall|j: int| 0 <= j < rows@.len() ==> row_holds(rows@, j)));
            }
            return Ok(broken_report(rows, row.seq));
        }
        assert(row_holds(rows@, i as int));
        prev = stored_hash;
        last_seq = row.seq;
        i = i + 1;
    }
    Ok(
        AuditVerification {
            valid: true,
            last_seq,
            broken_at_seq: None,
            row_count: rows.len() as u64,
        },
    )
}


/// The previous hash a row appended after `last` carries
pub open spec fn prev_for(last: Option<AuditRow>) -> Seq<u8> {
    match last {
        None => anchor_hash(),
        Some(l) => hash_field(l.hash@)->Some_0,
    }
}

/// `row` is the row appended after `last` (or as the first row when there
/// is none): the next sequence number, the previous row's hash as its
/// previous hash, and the hash of its own contents over that previous hash
pub open spec fn is_next_row(last: Option<AuditRow>, row: AuditRow) -> bool {
    let prev = prev_for(last);
    &&& last matches Some(l) ==> hash_field(l.hash@) is Some
    &&& row.seq == match last {
        None => 1,
        Some(l) => l.seq + 1,
    }
    &&& row.prev_hash@ == hex_lower(prev)
    &&& recomputed_hash(row, prev).len() == 32
    &&& row.hash@ == hex_lower(recomputed_hash(row, prev))
}

/// Build the audit row that records `operation` with `payload` at `ts_ns`
/// after `last`, the row with the highest sequence number so far (`None`
/// for an empty log). Fails with `InvalidArgument` when `last` carries a
/// malformed hash.
pub fn next_audit_row(last: Option<&AuditRow>, ts_ns: u64, operation: String, payload: String) -> (r: Result<AuditRow, StorageError>)
    requires
        last matches Some(l) ==> l.seq < i64::MAX,
    ensures
        r is Err <==> (last matches Some(l) && hash_field(l.hash@) is None),
        r matches Err(e) ==> e is InvalidArgument,
        r matches Ok(row) ==> {
            &&& is_next_row(
                match last {
                    None => None,
                    Some(l) => Some(*l),
                },
                row,
            )
            &&& row.operation@ == operation@
            &&& row.payload@ == payload@
            &&& row.ts_ns == u64_as_i64(ts_ns)
            &&& row.hash@ == hex_lower(
                documented_hash(
                    row,
                    match last {
                        None => Seq::new(32, |k: int| 0u8),
                        Some(l) => hash_field(l.hash@)->Some_0,
                    },
                ),
            )
        },
{
    let (prev, seq) = match last {
        None => (anchor(), 1i64),
        Some(l) => {
            let h = match decode_hash(l.hash.as_str()) {
                Ok(h) => h,
                Err(e) => {
                    return Err(e);
                },
            };
            (h, l.seq + 1)
        },
    };
    let stored_ts = ns_to_stored(ts_ns);
    proof {
        lemma_timestamp_round_trip(ts_ns);
    }
    let hash = compute_row_hash(
        seq,
        ts_ns,
        operation.as_str().as_bytes(),
        payload.as_str().as_bytes(),
        prev.as_slice(),
    );
    let prev_hex = hex_encode(prev.as_slice());
    let hash_hex = hex_encode(hash.as_slice());
    let row = AuditRow { seq, ts_ns: stored_ts, operation, payload, prev_hash: prev_hex, hash: hash_hex };
    proof {
        lemma_appended_row_hash(
            match last {
                None => None,
                Some(l) => Some(*l),
            },
            row,
        );
    }
    Ok(row)
}

/// The rows form a chain built by appending: each row is the row appended
/// after the one before it, the first after none
pub open spec fn is_appended_chain(rows: Seq<AuditRow>) -> bool {
    forall|i: int|
        0 <= i < rows.len() ==> is_next_row(
            if i == 0 {
                None
            } else {
                Some(rows[i - 1])
            },
            #[trigger] rows[i],
        )
}

/// An untampered log verifies clean: a chain built only by appending
/// reports valid, with every row counted and the last sequence number
/// equal to the number of rows.
#[verifier::rlimit(40)]
pub proof fn lemma_appended_chain_verifies(rows: Seq<AuditRow>)
    requires
        is_appended_chain(rows),
    ensures
        verify_outcome(rows) == Some(
            AuditVerification {
                valid: true,
                last_seq: rows.len() as i64,
                broken_at_seq: None,
                row_count: rows.len() as u64,
            },
        ),
{
    assert forall|i: int| 0 <= i < rows.len() implies #[trigger] rows[i].seq == i + 1 && row_holds(
        rows,
        i,
    ) by {
        lemma_chain_row(rows, i);
    }
    if rows.len() > 0 {
        assert(rows[rows.len() - 1].seq == rows.len());
    }
}

#[verifier::rlimit(40)]
proof fn lemma_chain_row(rows: Seq<AuditRow>, i: int)
    requires
        is_appended_chain(rows),
        0 <= i < rows.len(),
    ensures
        rows[i].seq == i + 1,
        row_holds(rows, i),
    decreases i,
{
    let last = if i == 0 {
        None
    } else {
        Some(rows[i - 1])
    };
    assert(is_next_row(last, rows[i]));
    if i > 0 {
        lemma_chain_row(rows, i - 1);
    }
    let prev = prev_for(last);
    assert(prev.len() == 32) by {
        if i > 0 {
            assert(hash_field(rows[i - 1].hash@) is Some);
        }
    }
    assert(prev == expected_prev(rows, i));
    lemma_hex_round_trip(prev);
    lemma_hex_round_trip(recomputed_hash(rows[i], prev));
}

/// The documented hash of a row over a previous hash: SHA-256 over the
/// sequence number and the timestamp as 8 little-endian bytes each, then
/// the operation's UTF-8 bytes preceded by their length as 8 little-endian
/// bytes, then the payload's the same way, then the previous hash
pub open spec fn documented_hash(r: AuditRow, prev: Seq<u8>) -> Seq<u8> {
    sha256_of(
        le_bytes(i64_bits(r.seq), 8) + le_bytes(i64_bits(r.ts_ns), 8) + le_bytes(
            encode_utf8(r.operation@).len(),
            8,
        ) + encode_utf8(r.operation@) + le_bytes(encode_utf8(r.payload@).len(), 8) + encode_utf8(
            r.payload@,
        ) + prev,
    )
}

/// The hash row `j` must follow: all zeros for the first row, the stored
/// hash of the row before it otherwise
pub open spec fn link_target(rows: Seq<AuditRow>, j: int) -> Seq<u8> {
    if j == 0 {
        Seq::new(32, |k: int| 0u8)
    } else {
        hash_field(rows[j - 1].hash@)->Some_0
    }
}

/// Row `j` is as appending left it: it links to the hash it must follow and
/// carries its documented hash over it
pub open spec fn row_untouched(rows: Seq<AuditRow>, j: int) -> bool {
    &&& hash_field(rows[j].prev_hash@) is Some
    &&& hash_field(rows[j].hash@) is Some
    &&& hash_field(rows[j].prev_hash@)->Some_0 == link_target(rows, j)
    &&& hash_field(rows[j].hash@)->Some_0 == documented_hash(rows[j], link_target(rows, j))
}

/// The hash a row must carry is its documented hash.
pub proof fn lemma_recomputed_hash_documented(r: AuditRow, prev: Seq<u8>)
    ensures
        recomputed_hash(r, prev) == documented_hash(r, prev),
{
    assert(((i64_bits(r.ts_ns) as u64) as nat) == i64_bits(r.ts_ns));
}

/// An appended row carries, as lowercase hex, the documented hash of its
/// own fields over the hash of the row before it (all zeros for the first
/// row), the operation hashed before the payload.
pub proof fn lemma_appended_row_hash(last: Option<AuditRow>, row: AuditRow)
    requires
        is_next_row(last, row),
    ensures
        row.hash@ == hex_lower(
            documented_hash(
                row,
                match last {
                    None => Seq::new(32, |k: int| 0u8),
                    Some(l) => hash_field(l.hash@)->Some_0,
                },
            ),
        ),
{
    lemma_recomputed_hash_documented(row, prev_for(last));
    assert(anchor_hash() =~= Seq::new(32, |k: int| 0u8));
}

/// Some row at or before `i` is the first that does not verify
proof fn lemma_first_failure_exists(rows: Seq<AuditRow>, i: int)
    requires
        0 <= i < rows.len(),
        !row_holds(rows, i),
    ensures
        exists|k: int| first_failure(rows, k) && k <= i,
    decreases i,
{
    if forall|j: int| 0 <= j < i ==> row_holds(rows, j) {
        assert(first_failure(rows, i));
    } else {
        let j = choose|j: int| 0 <= j < i && !row_holds(rows, j);
        lemma_first_failure_exists(rows, j);
    }
}

/// There is at most one first failing row
proof fn lemma_first_failure_unique(rows: Seq<AuditRow>, a: int, b: int)
    requires
        first_failure(rows, a),
        first_failure(rows, b),
    ensures
        a == b,
{
    if a < b {
        assert(row_holds(rows, a));
    } else if b < a {
        assert(row_holds(rows, b));
    }
}

/// Tampering with any row is reported, the newest row included. In a log
/// whose stored hashes are all well-formed, a row `i` that does not link
/// to the hash it must follow, or whose stored hash is not the documented
/// hash of its fields over it, makes verification report the log as not
/// valid, still counting every row and naming the last sequence number;
/// the report names row `i` when every row before it is as appending left
/// it.
#[verifier::rlimit(40)]
pub proof fn lemma_tampered_row_reported(rows: Seq<AuditRow>, i: int)
    requires
        0 <= i < rows.len(),
        forall|j: int|
            0 <= j < rows.len() ==> hash_field((#[trigger] rows[j]).prev_hash@) is Some
                && hash_field(rows[j].hash@) is Some,
        !row_untouched(rows, i),
    ensures
        verify_outcome(rows) matches Some(v) && !v.valid && v.row_count == rows.len() as u64
            && v.last_seq == rows[rows.len() - 1].seq,
        (forall|j: int| 0 <= j < i ==> #[trigger] row_untouched(rows, j)) ==> (verify_outcome(
            rows,
        ) matches Some(v) && v.broken_at_seq == Some(rows[i].seq)),
{
    assert(anchor_hash() =~= Seq::new(32, |k: int| 0u8));
    assert(expected_prev(rows, i) == link_target(rows, i));
    lemma_recomputed_hash_documented(rows[i], expected_prev(rows, i));
    assert(!row_holds(rows, i)) by {
        if row_holds(rows, i) {
            assert(row_untouched(rows, i));
        }
    }
    lemma_first_failure_exists(rows, i);
    let k = choose|k: int| first_failure(rows, k);
    assert(row_decodes(rows[k]));
    if forall|j: int| 0 <= j < i ==> #[trigger] row_untouched(rows, j) {
        assert forall|j: int| 0 <= j < i implies row_holds(rows, j) by {
            assert(row_untouched(rows, j));
            assert(expected_prev(rows, j) == link_target(rows, j));
            lemma_recomputed_hash_documented(rows[j], expected_prev(rows, j));
        }
        assert(first_failure(rows, i));
        lemma_first_failure_unique(rows, i, k);
    }
}

/// A log every row of which is as appending left it verifies clean,
/// counting every row, with the last row's sequence number.
pub proof fn lemma_untouched_log_verifies(rows: Seq<AuditRow>)
    requires
        forall|j: int| 0 <= j < rows.len() ==> #[trigger] row_untouched(rows, j),
    ensures
        verify_outcome(rows) == Some(
            AuditVerification {
                valid: true,
                last_seq: if rows.len() == 0 {
                    0
                } else {
                    rows[rows.len() - 1].seq
                },
                broken_at_seq: None,
                row_count: rows.len() as u64,
            },
        ),
{
    assert(anchor_hash() =~= Seq::new(32, |k: int| 0u8));
    assert forall|j: int| 0 <= j < rows.len() implies row_holds(rows, j) by {
        assert(row_untouched(rows, j));
        assert(expected_prev(rows, j) == link_target(rows, j));
        lemma_recomputed_hash_documented(rows[j], expected_prev(rows, j));
    }
}
} // verus!
