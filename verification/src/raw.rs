//! The kernel-side contract: the ring-buffer record the BPF probe writes,
//! its decoding from raw bytes, and its normalization into an `Event`.

use vstd::prelude::*;
use vstd::endian::{endianness, Endian};
use vstd::utf8::{decode_utf8, valid_utf8};

use crate::event::{kind_of_code, Event, EventKind};
use crate::source::EventSourceError;

verus! {

/// The compiled syscall probe this build embeds: none, so no bytes
pub open spec fn probe_object_bytes() -> Seq<u8> {
    Seq::empty()
}

/// Compiled bytes of the syscall probe; this build embeds no compiled BPF
/// object, so the slice is empty
pub fn syscall_probe_object() -> (obj: &'static [u8])
    ensures
        obj@ == probe_object_bytes(),
{
    let obj: &'static [u8] = &[];
    assert(obj@ =~= Seq::<u8>::empty());
    obj
}

/// Whether the current build embedded a real compiled BPF object
pub fn syscall_probe_available() -> (available: bool)
    ensures
        available == (probe_object_bytes().len() > 0),
{
    syscall_probe_object().len() > 0
}

/// Wire-format event the kernel writes into the ring buffer, sizes and
/// field order are part of the ABI
#[derive(Debug, Clone, Copy)]
pub struct RawEvent {
    /// Monotonic nanosecond timestamp from the kernel
    pub ts_ns: u64,
    /// Process id
    pub pid: u32,
    /// Thread group id
    pub tgid: u32,
    /// Effective user id at the time of the event
    pub uid: u32,
    /// Syscall number that triggered the event
    pub syscall_nr: u32,
    /// One of the `RAW_EVENT_KIND_*` constants
    pub kind: u32,
    /// Reserved for alignment, always zero
    pub _padding: u32,
    /// Process command name, null-terminated, max 16 bytes
    pub comm: [u8; 16],
    /// First syscall argument captured as a string, max 64 bytes
    pub arg0: [u8; 64],
}

/// Size in bytes of one ring-buffer record
pub const RAW_EVENT_SIZE: usize = 112;

/// Little-endian value of a byte sequence
pub open spec fn le_value(b: Seq<u8>) -> nat
    decreases b.len(),
{
    if b.len() == 0 {
        0
    } else {
        b[0] as nat + 256 * le_value(b.drop_first())
    }
}

/// Big-endian value of a byte sequence
pub open spec fn be_value(b: Seq<u8>) -> nat
    decreases b.len(),
{
    if b.len() == 0 {
        0
    } else {
        b.last() as nat + 256 * be_value(b.drop_last())
    }
}

/// Value of `b` read in the byte order of the hardware this runs on
pub open spec fn native_value(b: Seq<u8>) -> nat {
    match endianness() {
        Endian::Little => le_value(b),
        Endian::Big => be_value(b),
    }
}

/// `u64::from_ne_bytes`: the value of the bytes in the running hardware's
/// byte order, which vstd names `endianness()`. Which order that is on a
/// given machine is not stated, only that every call reads the same one.
#[verifier::external_body]
fn u64_from_ne(b: [u8; 8]) -> (v: u64)
    ensures
        v as nat == native_value(b@),
{
    u64::from_ne_bytes(b)
}

/// `u32::from_ne_bytes`: the value of the bytes in the running hardware's
/// byte order, which vstd names `endianness()`. Which order that is on a
/// given machine is not stated, only that every call reads the same one.
#[verifier::external_body]
fn u32_from_ne(b: [u8; 4]) -> (v: u32)
    ensures
        v as nat == native_value(b@),
{
    u32::from_ne_bytes(b)
}

/// Value of `b` read little-endian when `little` holds, big-endian otherwise
pub open spec fn value_in_order(b: Seq<u8>, little: bool) -> nat {
    if little {
        le_value(b)
    } else {
        be_value(b)
    }
}

/// Every numeric field of `e` is the reading, in the one byte order given
/// by `little`, of its bytes at its ABI offset
pub open spec fn fields_in_order(bytes: Seq<u8>, e: RawEvent, little: bool) -> bool {
    &&& e.ts_ns as nat == value_in_order(bytes.subrange(0, 8), little)
    &&& e.pid as nat == value_in_order(bytes.subrange(8, 12), little)
    &&& e.tgid as nat == value_in_order(bytes.subrange(12, 16), little)
    &&& e.uid as nat == value_in_order(bytes.subrange(16, 20), little)
    &&& e.syscall_nr as nat == value_in_order(bytes.subrange(20, 24), little)
    &&& e.kind as nat == value_in_order(bytes.subrange(24, 28), little)
    &&& e._padding as nat == value_in_order(bytes.subrange(28, 32), little)
}

/// The raw record decoded from a ring item: the numeric fields all in the
/// hardware's byte order at their ABI offsets, `comm` and `arg0` copied
/// byte for byte
pub open spec fn raw_event_from(bytes: Seq<u8>, e: RawEvent) -> bool {
    &&& fields_in_order(bytes, e, endianness() is Little)
    &&& e.comm@ == bytes.subrange(32, 48)
    &&& e.arg0@ == bytes.subrange(48, 112)
}

fn u32_at(bytes: &[u8], off: usize) -> (v: u32)
    requires
        off + 4 <= bytes@.len(),
    ensures
        v as nat == native_value(bytes@.subrange(off as int, off + 4)),
{
    let b = [bytes[off], bytes[off + 1], bytes[off + 2], bytes[off + 3]];
    assert(b@ =~= bytes@.subrange(off as int, off + 4));
    u32_from_ne(b)
}

/// Decode one ring item into the raw record, failing with `Backend` when
/// the item is shorter than `RAW_EVENT_SIZE`
pub fn decode_raw_event(bytes: &[u8]) -> (r: Result<RawEvent, EventSourceError>)
    ensures
        r is Err <==> bytes@.len() < RAW_EVENT_SIZE,
        r matches Err(e) ==> e is Backend,
        r matches Ok(e) ==> raw_event_from(bytes@, e),
        r matches Ok(e) ==> fields_in_order(bytes@, e, true) || fields_in_order(bytes@, e, false),
{
    if bytes.len() < RAW_EVENT_SIZE {
        let mut msg = String::from_str("ring item too small, got ");
        let got = bytes.len().to_string();
        msg.append(got.as_str());
        msg.append(" bytes need 112");
        return Err(EventSourceError::Backend(msg));
    }
    let ts = [bytes[0], bytes[1], bytes[2], bytes[3], bytes[4], bytes[5], bytes[6], bytes[7]];
    assert(ts@ =~= bytes@.subrange(0, 8));
    let comm: [u8; 16] = [bytes[32], bytes[33], bytes[34], bytes[35], bytes[36], bytes[37], bytes[38], bytes[39], bytes[40], bytes[41], bytes[42], bytes[43], bytes[44], bytes[45], bytes[46], bytes[47]];
    let arg0: [u8; 64] = [bytes[48], bytes[49], bytes[50], bytes[51], bytes[52], bytes[53], bytes[54], bytes[55], bytes[56], bytes[57], bytes[58], bytes[59], bytes[60], bytes[61], bytes[62], bytes[63], bytes[64], bytes[65], bytes[66], bytes[67], bytes[68], bytes[69], bytes[70], bytes[71], bytes[72], bytes[73], bytes[74], bytes[75], bytes[76], bytes[77], bytes[78], bytes[79], bytes[80], bytes[81], bytes[82], bytes[83], bytes[84], bytes[85], bytes[86], bytes[87], bytes[88], bytes[89], bytes[90], bytes[91], bytes[92], bytes[93], bytes[94], bytes[95], bytes[96], bytes[97], bytes[98], bytes[99], bytes[100], bytes[101], bytes[102], bytes[103], bytes[104], bytes[105], bytes[106], bytes[107], bytes[108], bytes[109], bytes[110], bytes[111]];
    assert(comm@ =~= bytes@.subrange(32, 48));
    assert(arg0@ =~= bytes@.subrange(48, 112));
    Ok(RawEvent {
        ts_ns: u64_from_ne(ts),
        pid: u32_at(bytes, 8),
        tgid: u32_at(bytes, 12),
        uid: u32_at(bytes, 16),
        syscall_nr: u32_at(bytes, 20),
        kind: u32_at(bytes, 24),
        _padding: u32_at(bytes, 28),
        comm,
        arg0,
    })
}

/// What `String::from_utf8_lossy` gives for a byte sequence: valid UTF-8
/// decodes as is, invalid sequences become U+FFFD
pub uninterp spec fn lossy_utf8(bytes: Seq<u8>) -> Seq<char>;

/// `String::from_utf8_lossy`, owned: the result is `lossy_utf8` of the bytes,
/// and for valid UTF-8 it is the decoded text, as its documentation states.
/// What it gives for invalid input is left to the name.
#[verifier::external_body]
fn utf8_lossy(bytes: &[u8]) -> (s: String)
    ensures
        s@ == lossy_utf8(bytes@),
        valid_utf8(bytes@) ==> s@ == decode_utf8(bytes@),
{
    String::from_utf8_lossy(bytes).into_owned()
}

/// Position of the first zero byte, or the length when there is none
pub open spec fn nul_position(bytes: Seq<u8>) -> int {
    if exists|i: int| 0 <= i < bytes.len() && bytes[i] == 0 {
        choose|i: int| 0 <= i < bytes.len() && bytes[i] == 0 && forall|j: int| 0 <= j < i ==> bytes[j] != 0
    } else {
        bytes.len() as int
    }
}

/// The bytes before the first zero byte, decoded as UTF-8 lossily
pub fn null_terminated_string(bytes: &[u8]) -> (s: String)
    ensures
        s@ == lossy_utf8(bytes@.take(nul_position(bytes@))),
{
    let mut end: usize = 0;
    while end < bytes.len()
        invariant
            end <= bytes@.len(),
            forall|j: int| 0 <= j < end ==> bytes@[j] != 0,
        ensures
            end <= bytes@.len(),
            forall|j: int| 0 <= j < end ==> bytes@[j] != 0,
            end < bytes@.len() ==> bytes@[end as int] == 0,
        decreases bytes@.len() - end,
    {
        if bytes[end] == 0 {
            break;
        }
        end = end + 1;
    }
    proof {
        if end < bytes@.len() {
            assert(bytes@[end as int] == 0);
            let c = nul_position(bytes@);
            assert(0 <= c < bytes@.len() && bytes@[c] == 0 && forall|j: int| 0 <= j < c ==> bytes@[j] != 0);
            if c < end {
                assert(bytes@[c] != 0);
            }
            if c > end {
                assert(bytes@[end as int] != 0);
            }
        }
    }
    let prefix = &bytes[0..end];
    assert(prefix@ =~= bytes@.take(end as int));
    utf8_lossy(prefix)
}

/// Normalize a raw kernel record into an event: numeric fields copied, the
/// kind decoded, `comm` and `arg0` cut at their first zero byte
pub fn raw_to_event(raw: &RawEvent) -> (e: Event)
    ensures
        e.ts_ns == raw.ts_ns,
        e.pid == raw.pid,
        e.tgid == raw.tgid,
        e.uid == raw.uid,
        e.syscall_nr == raw.syscall_nr,
        e.kind == kind_of_code(raw.kind),
        e.comm@ == lossy_utf8(raw.comm@.take(nul_position(raw.comm@))),
        e.arg0@ == lossy_utf8(raw.arg0@.take(nul_position(raw.arg0@))),
{
    Event {
        ts_ns: raw.ts_ns,
        pid: raw.pid,
        tgid: raw.tgid,
        uid: raw.uid,
        syscall_nr: raw.syscall_nr,
        kind: EventKind::from_code(raw.kind),
        comm: null_terminated_string(raw.comm.as_slice()),
        arg0: null_terminated_string(raw.arg0.as_slice()),
    }
}

} // verus!
