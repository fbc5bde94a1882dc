//! The systemd journal file format.
//!
//! A journal is read as a flat sequence of objects, from the end of the header
//! to the last object that the header names; the hash tables and arrays that
//! link the objects are not followed, so a journal with a damaged index still
//! gives up all its entries.
//!
//! Both entry formats are read. In the compact one an item of an entry is a
//! 32-bit offset without a hash, and a data object has eight more bytes before
//! its payload. Of the compression methods only LZ4 is supported; a field that
//! is compressed otherwise stays visible under a name of its own.

use vstd::prelude::*;

use crate::bytes::{copy_range, read_u32, read_u64, u32_at, u64_at};
use crate::json::{insert, json_text, members_view, with_member, Json, JsonView};
use crate::model::{
    opt_text, records_view, skipped_view, ParsedRecord, RecordView, SkippedRecord, SkippedView,
};
use crate::text::{
    debug_quoted, dec, dec_u64, decode_lossy, lossy_text, prefixed_hex, prefixed_hex_u64,
    quote_debug, split_at_first, split_once,
};
use crate::time::{from_micros, instant_of, Timestamp};

verus! {

/// The bytes that a journal begins with.
pub open spec fn has_signature(b: Seq<u8>) -> bool {
    &&& b.len() >= 8
    &&& b[0] == 0x4c
    &&& b[1] == 0x50
    &&& b[2] == 0x4b
    &&& b[3] == 0x53
    &&& b[4] == 0x48
    &&& b[5] == 0x48
    &&& b[6] == 0x52
    &&& b[7] == 0x48
}

/// What is read of the header of a journal.
#[derive(Clone, Copy)]
pub struct Header {
    pub header_size: u64,
    pub tail_object_offset: u64,
    /// Whether entries and data objects are in the compact format.
    pub compact: bool,
}

/// The flags that change the format, of which the low five bits are known.
pub open spec fn incompatible_flags(b: Seq<u8>) -> int {
    u32_at(b, 12)
}

/// The header of a journal, or why there is none.
#[verifier::opaque]
pub open spec fn header_of(b: Seq<u8>) -> Result<Header, Seq<char>> {
    let size = u64_at(b, 88);
    if b.len() < 144 {
        Err(
            "file too small to contain a journal header ("@ + dec(b.len())
                + " bytes, need at least 144)"@,
        )
    } else if !has_signature(b) {
        Err("not a systemd journal file: signature mismatch"@)
    } else if incompatible_flags(b) >= 32 {
        Err(
            "journal file uses unrecognized incompatible feature flags ("@ + prefixed_hex(
                (incompatible_flags(b) - incompatible_flags(b) % 32) as nat,
            ) + ") — refusing to guess at the format rather than risk misreading it"@,
        )
    } else if size < 144 {
        Err(
            "journal header reports an implausibly small header_size ("@ + dec(size as nat)
                + ")"@,
        )
    } else if size > b.len() {
        Err(
            "journal header_size ("@ + dec(size as nat) + ") is larger than the file itself ("@
                + dec(b.len()) + " bytes)"@,
        )
    } else {
        Ok(
            Header {
                header_size: size as u64,
                tail_object_offset: u64_at(b, 136) as u64,
                compact: (incompatible_flags(b) / 16) % 2 == 1,
            },
        )
    }
}

/// The header of an object.
#[derive(Clone, Copy)]
pub struct ObjectHeader {
    pub object_type: u8,
    pub flags: u8,
    pub size: u64,
}

/// The header of the object at `offset`, or why there is none.
#[verifier::opaque]
pub open spec fn object_at(b: Seq<u8>, offset: int) -> Result<ObjectHeader, Seq<char>> {
    let size = u64_at(b, offset + 8);
    if offset + 16 > b.len() {
        Err(
            "object at offset "@ + dec(offset as nat)
                + " is truncated (file ends before its header)"@,
        )
    } else if size < 16 {
        Err(
            "object at offset "@ + dec(offset as nat) + " reports an impossible size ("@ + dec(
                size as nat,
            ) + " bytes)"@,
        )
    } else if offset + size > b.len() {
        Err(
            "object at offset "@ + dec(offset as nat) + " (size "@ + dec(size as nat)
                + ") extends past the end of the file"@,
        )
    } else {
        Ok(ObjectHeader { object_type: b[offset], flags: b[offset + 1], size: size as u64 })
    }
}

/// An object has at least a header, and lies in the file.
pub proof fn lemma_object_fits(b: Seq<u8>, offset: int)
    ensures
        match object_at(b, offset) {
            Ok(object) => 16 <= object.size && offset + object.size <= b.len(),
            Err(_) => true,
        },
{
    reveal(object_at);
}

/// The next multiple of eight.
pub open spec fn aligned8(n: int) -> int {
    ((n + 7) / 8) * 8
}

/// `lz4_flex::block::decompress`: the bytes of an LZ4 block that has at most
/// `size` of them, or the words of its error.
pub uninterp spec fn lz4_block(input: Seq<u8>, size: nat) -> Result<Seq<u8>, Seq<char>>;

/// `lz4_flex::block::decompress` is a function of the block and the size. It
/// allocates a buffer of that size, so a size over `isize::MAX` is left out;
/// which bytes or which error come out is left to the name.
#[verifier::external_body]
fn decompress_block(input: &[u8], size: usize) -> (r: Result<Vec<u8>, String>)
    requires
        size <= isize::MAX,
    ensures
        match r {
            Ok(bytes) => lz4_block(input@, size as nat) == Ok::<Seq<u8>, Seq<char>>(bytes@),
            Err(e) => lz4_block(input@, size as nat) == Err::<Seq<u8>, Seq<char>>(e@),
        },
{
    lz4_flex::block::decompress(input, size).map_err(|e| e.to_string())
}

/// The bytes of a compressed payload: a 64-bit size, then an LZ4 block.
pub open spec fn lz4_payload(payload: Seq<u8>) -> Result<Seq<u8>, Seq<char>> {
    let size = u64_at(payload, 0);
    if payload.len() < 8 {
        Err("LZ4-compressed payload too short to contain a size prefix"@)
    } else if size > isize::MAX {
        Err("uncompressed size overflows usize"@)
    } else {
        match lz4_block(payload.skip(8), size as nat) {
            Ok(bytes) => Ok(bytes),
            Err(e) => Err("LZ4 block decompression failed: "@ + e),
        }
    }
}

/// The name and the value of a field of the form `NAME=VALUE`.
pub open spec fn field_of(payload: Seq<u8>) -> Result<(Seq<char>, Seq<char>), Seq<char>> {
    match split_at_first(lossy_text(payload), '=') {
        Some(field) => Ok(field),
        None => Err(
            "field payload has no '=' separator: "@ + debug_quoted(lossy_text(payload)),
        ),
    }
}

/// Where the payload of the data object at `offset` begins.
pub open spec fn payload_start(offset: int, compact: bool) -> int {
    offset + 64 + (if compact {
        8int
    } else {
        0int
    })
}

/// The field that the data object at `offset` holds.
#[verifier::opaque]
pub open spec fn data_field(b: Seq<u8>, offset: int, compact: bool) -> Result<
    (Seq<char>, Seq<char>),
    Seq<char>,
> {
    match object_at(b, offset) {
        Err(e) => Err(e),
        Ok(object) => {
            let start = payload_start(offset, compact);
            let end = offset + object.size;
            if object.object_type != 1 {
                Err(
                    "expected a DATA object at offset "@ + dec(offset as nat) + ", found type "@
                        + dec(object.object_type as nat),
                )
            } else if start > end {
                Err(
                    "DATA object at offset "@ + dec(offset as nat)
                        + " is smaller than its fixed header"@,
                )
            } else {
                let payload = b.subrange(start, end);
                if (object.flags / 2) % 2 == 1 {
                    match lz4_payload(payload) {
                        Ok(bytes) => field_of(bytes),
                        Err(e) => Err(
                            "DATA object at offset "@ + dec(offset as nat)
                                + ": LZ4 decompression: "@ + e,
                        ),
                    }
                } else if object.flags % 2 == 1 || (object.flags / 4) % 2 == 1 {
                    let method = if object.flags % 2 == 1 {
                        "XZ"@
                    } else {
                        "ZSTD"@
                    };
                    Ok(
                        (
                            "_UNSUPPORTED_COMPRESSED_FIELD@"@ + dec(offset as nat),
                            "<"@ + method + "-compressed field, "@ + dec(payload.len())
                                + " bytes, not decompressed>"@,
                        ),
                    )
                } else {
                    field_of(payload)
                }
            }
        },
    }
}

/// The number of bytes of one item of an entry.
pub open spec fn item_size(compact: bool) -> int {
    if compact {
        4
    } else {
        16
    }
}

/// The offset of the data object that an item names.
pub open spec fn item_target(b: Seq<u8>, at: int, compact: bool) -> int {
    if compact {
        u32_at(b, at)
    } else {
        u64_at(b, at)
    }
}

/// The fields of the first `n` items of an entry whose items begin at `start`.
pub open spec fn item_fields(b: Seq<u8>, start: int, n: int, compact: bool) -> Result<
    Seq<(Seq<char>, JsonView)>,
    Seq<char>,
>
    decreases n,
{
    if n <= 0 {
        Ok(seq![])
    } else {
        match item_fields(b, start, n - 1, compact) {
            Err(e) => Err(e),
            Ok(fields) => {
                let target = item_target(b, start + (n - 1) * item_size(compact), compact);
                match data_field(b, target, compact) {
                    Ok((key, value)) => Ok(with_member(fields, key, JsonView::Text(value))),
                    Err(e) => Err(
                        "entry item "@ + dec((n - 1) as nat)
                            + ": failed to resolve DATA object at "@ + dec(target as nat) + ": "@
                            + e,
                    ),
                }
            },
        }
    }
}

/// The text of the member named `key`.
pub open spec fn member_text(fields: Seq<(Seq<char>, JsonView)>, key: Seq<char>) -> Option<
    Seq<char>,
> {
    match JsonView::Object(fields).get(key) {
        Some(JsonView::Text(s)) => Some(s),
        _ => None,
    }
}

/// The instant of an entry, given in microseconds since the epoch.
pub open spec fn entry_time(realtime: int) -> Result<Timestamp, Seq<char>> {
    if realtime > i64::MAX {
        Err(
            "realtime timestamp overflows i64: out of range integral type conversion attempted"@,
        )
    } else {
        match instant_of(realtime, 1_000_000) {
            Some(t) => Ok(t),
            None => Err(
                "realtime timestamp "@ + dec(realtime as nat) + " microseconds is out of range"@,
            ),
        }
    }
}

/// The fields of an entry: those of its items, then the three of its header.
pub open spec fn entry_fields(b: Seq<u8>, offset: int, items: Seq<(Seq<char>, JsonView)>) -> Seq<
    (Seq<char>, JsonView),
> {
    let with_realtime = with_member(
        items,
        "__REALTIME_TIMESTAMP"@,
        JsonView::Text(dec(u64_at(b, offset + 24) as nat)),
    );
    let with_monotonic = with_member(
        with_realtime,
        "__MONOTONIC_TIMESTAMP"@,
        JsonView::Text(dec(u64_at(b, offset + 32) as nat)),
    );
    with_member(with_monotonic, "__SEQNUM"@, JsonView::Text(dec(u64_at(b, offset + 16) as nat)))
}

/// The record of the entry of `size` bytes at `offset`, or why there is none.
#[verifier::opaque]
pub open spec fn entry_record(b: Seq<u8>, offset: int, size: int, compact: bool) -> Result<
    RecordView,
    Seq<char>,
> {
    let area = size - 64;
    if area < 0 {
        Err(
            "ENTRY object is smaller than the fixed entry header ("@ + dec(size as nat)
                + " bytes)"@,
        )
    } else if area % item_size(compact) != 0 {
        Err(
            "ENTRY object item area ("@ + dec(area as nat)
                + " bytes) isn't a whole number of entry items"@,
        )
    } else {
        match item_fields(b, offset + 64, area / item_size(compact), compact) {
            Err(e) => Err(e),
            Ok(items) => match entry_time(u64_at(b, offset + 24)) {
                Err(e) => Err(
                    "entry seqnum "@ + dec(u64_at(b, offset + 16) as nat)
                        + ": invalid __REALTIME_TIMESTAMP: "@ + e,
                ),
                Ok(timestamp_utc) => {
                    let fields = JsonView::Object(entry_fields(b, offset, items));
                    Ok(
                        RecordView {
                            timestamp_utc,
                            level: member_text(items, "PRIORITY"@),
                            message: member_text(items, "MESSAGE"@),
                            raw: json_text(fields),
                            fields,
                        },
                    )
                },
            },
        }
    }
}

/// What the scan of a journal comes upon.
#[verifier::ext_equal]
pub enum ScanEvent {
    Record(RecordView),
    /// An entry that cannot be read; the scan goes on behind it.
    BadEntry { offset: int, reason: Seq<char> },
    /// An object whose size is not known; the scan ends.
    BadHeader { offset: int, reason: Seq<char> },
}

/// What the scan from `offset` to the object at `tail` comes upon.
pub open spec fn scan(b: Seq<u8>, offset: int, tail: int, compact: bool) -> Seq<ScanEvent>
    decreases b.len() + 8 - offset,
{
    if offset < 0 || offset > tail {
        seq![]
    } else {
        match object_at(b, offset) {
            Err(e) => seq![
                ScanEvent::BadHeader {
                    offset,
                    reason: "failed to read object at offset "@ + dec(offset as nat) + ": "@ + e,
                },
            ],
            Ok(object) => {
                proof {
                    lemma_object_fits(b, offset);
                }
                let rest = scan(b, aligned8(offset + object.size), tail, compact);
                if object.object_type == 3 {
                    seq![entry_event(b, offset, object.size as int, compact)] + rest
                } else {
                    rest
                }
            },
        }
    }
}

/// What comes of one entry.
pub open spec fn entry_event(b: Seq<u8>, offset: int, size: int, compact: bool) -> ScanEvent {
    match entry_record(b, offset, size, compact) {
        Ok(record) => ScanEvent::Record(record),
        Err(e) => ScanEvent::BadEntry {
            offset,
            reason: "failed to parse ENTRY object at offset "@ + dec(offset as nat) + ": "@ + e,
        },
    }
}

/// What the scan of a whole journal comes upon. A journal without a last object
/// has no objects.
#[verifier::opaque]
pub open spec fn journal_events(b: Seq<u8>, header: Header) -> Seq<ScanEvent> {
    if header.tail_object_offset == 0 {
        seq![]
    } else {
        scan(
            b,
            aligned8(header.header_size as int),
            header.tail_object_offset as int,
            header.compact,
        )
    }
}

/// The records among the events.
pub open spec fn event_records(events: Seq<ScanEvent>) -> Seq<RecordView>
    decreases events.len(),
{
    if events.len() == 0 {
        seq![]
    } else {
        match events.last() {
            ScanEvent::Record(r) => event_records(events.drop_last()).push(r),
            _ => event_records(events.drop_last()),
        }
    }
}

/// The note on an object behind which nothing can be read.
pub open spec fn unreadable_reason(reason: Seq<char>, recovered: nat) -> Seq<char> {
    reason + " — journal structure unreadable from this point; "@ + dec(recovered) + " entr"@ + (
    if recovered == 1 {
        "y"@
    } else {
        "ies"@
    }) + " recovered before it, remainder of the file skipped"@
}

/// The notes on what is left out of the events.
pub open spec fn event_skips(events: Seq<ScanEvent>) -> Seq<SkippedView>
    decreases events.len(),
{
    if events.len() == 0 {
        seq![]
    } else {
        let before = event_skips(events.drop_last());
        match events.last() {
            ScanEvent::Record(_) => before,
            ScanEvent::BadEntry { offset, reason } => before.push(
                SkippedView {
                    location: "entry at offset "@ + prefixed_hex(offset as nat),
                    reason,
                },
            ),
            ScanEvent::BadHeader { offset, reason } => before.push(
                SkippedView {
                    location: "offset "@ + prefixed_hex(offset as nat),
                    reason: unreadable_reason(
                        reason,
                        event_records(events.drop_last()).len(),
                    ),
                },
            ),
        }
    }
}

/// The reason of an event that is no record.
pub open spec fn event_reason(e: ScanEvent) -> Seq<char> {
    match e {
        ScanEvent::Record(_) => seq![],
        ScanEvent::BadEntry { reason, .. } => reason,
        ScanEvent::BadHeader { reason, .. } => reason,
    }
}

/// Whether `at` is the first event that is no record.
pub open spec fn is_first_bad_event(events: Seq<ScanEvent>, at: int) -> bool {
    &&& 0 <= at < events.len()
    &&& !(events[at] is Record)
    &&& forall|i: int| 0 <= i < at ==> #[trigger] events[i] is Record
}

/// Whether `reason` is that of the first event that is no record.
pub open spec fn fails_with(events: Seq<ScanEvent>, reason: Seq<char>) -> bool {
    exists|at: int| #[trigger]
        is_first_bad_event(events, at) && reason == event_reason(events[at])
}

fn bytes_signed(bytes: &[u8]) -> (r: bool)
    ensures
        r == has_signature(bytes@),
{
    bytes.len() >= 8 && bytes[0] == 0x4c && bytes[1] == 0x50 && bytes[2] == 0x4b && bytes[3] == 0x53
        && bytes[4] == 0x48 && bytes[5] == 0x48 && bytes[6] == 0x52 && bytes[7] == 0x48
}

/// The header of a journal, or why there is none.
pub fn parse_header(bytes: &[u8]) -> (r: Result<Header, String>)
    ensures
        match r {
            Ok(h) => header_of(bytes@) == Ok::<Header, Seq<char>>(h),
            Err(e) => header_of(bytes@) == Err::<Header, Seq<char>>(e@),
        },
{
    proof {
        reveal(header_of);
    }
    if bytes.len() < 144 {
        let mut e = "file too small to contain a journal header (".to_owned();
        e.append(dec_u64(bytes.len() as u64).as_str());
        e.append(" bytes, need at least 144)");
        return Err(e);
    }
    if !bytes_signed(bytes) {
        return Err("not a systemd journal file: signature mismatch".to_owned());
    }
    let flags: u32 = read_u32(bytes, 12);
    if flags >= 32 {
        let mut e = "journal file uses unrecognized incompatible feature flags (".to_owned();
        e.append(prefixed_hex_u64((flags - flags % 32) as u64).as_str());
        e.append(") — refusing to guess at the format rather than risk misreading it");
        return Err(e);
    }
    let header_size: u64 = read_u64(bytes, 88);
    let tail_object_offset: u64 = read_u64(bytes, 136);
    if header_size < 144 {
        let mut e = "journal header reports an implausibly small header_size (".to_owned();
        e.append(dec_u64(header_size).as_str());
        e.append(")");
        return Err(e);
    }
    if header_size > bytes.len() as u64 {
        let mut e = "journal header_size (".to_owned();
        e.append(dec_u64(header_size).as_str());
        e.append(") is larger than the file itself (");
        e.append(dec_u64(bytes.len() as u64).as_str());
        e.append(" bytes)");
        return Err(e);
    }
    Ok(Header { header_size, tail_object_offset, compact: (flags / 16) % 2 == 1 })
}

fn at_offset(before: &str, offset: u64, after: &str) -> (r: String)
    ensures
        r@ == before@ + dec(offset as nat) + after@,
{
    let mut s = before.to_owned();
    s.append(dec_u64(offset).as_str());
    s.append(after);
    s
}

/// The header of the object at `offset`, or why there is none.
pub fn read_object_header(bytes: &[u8], offset: u64) -> (r: Result<ObjectHeader, String>)
    ensures
        match r {
            Ok(h) => object_at(bytes@, offset as int) == Ok::<ObjectHeader, Seq<char>>(h),
            Err(e) => object_at(bytes@, offset as int) == Err::<ObjectHeader, Seq<char>>(e@),
        },
{
    proof {
        reveal(object_at);
    }
    let len: u64 = bytes.len() as u64;
    if len < 16 || offset > len - 16 {
        return Err(
            at_offset(
                "object at offset ",
                offset,
                " is truncated (file ends before its header)",
            ),
        );
    }
    let at: usize = offset as usize;
    let size: u64 = read_u64(bytes, at + 8);
    if size < 16 {
        let mut e = at_offset("object at offset ", offset, " reports an impossible size (");
        e.append(dec_u64(size).as_str());
        e.append(" bytes)");
        return Err(e);
    }
    if size > len - offset {
        let mut e = at_offset("object at offset ", offset, " (size ");
        e.append(dec_u64(size).as_str());
        e.append(") extends past the end of the file");
        return Err(e);
    }
    Ok(ObjectHeader { object_type: bytes[at], flags: bytes[at + 1], size })
}

/// The next multiple of eight.
pub fn align8(n: u64) -> (r: u64)
    requires
        n <= u64::MAX - 7,
    ensures
        r == aligned8(n as int),
{
    ((n + 7) / 8) * 8
}

/// The name and the value of a field of the form `NAME=VALUE`.
pub fn split_field(payload: &[u8]) -> (r: Result<(String, String), String>)
    ensures
        match r {
            Ok((key, value)) => field_of(payload@) == Ok::<(Seq<char>, Seq<char>), Seq<char>>(
                (key@, value@),
            ),
            Err(e) => field_of(payload@) == Err::<(Seq<char>, Seq<char>), Seq<char>>(e@),
        },
{
    let text = decode_lossy(payload);
    match split_once(text.as_str(), '=') {
        Some(field) => Ok(field),
        None => {
            let mut e = "field payload has no '=' separator: ".to_owned();
            e.append(quote_debug(text.as_str()).as_str());
            Err(e)
        },
    }
}

/// The bytes of a compressed payload.
fn decompress_lz4(payload: &[u8]) -> (r: Result<Vec<u8>, String>)
    ensures
        match r {
            Ok(bytes) => lz4_payload(payload@) == Ok::<Seq<u8>, Seq<char>>(bytes@),
            Err(e) => lz4_payload(payload@) == Err::<Seq<u8>, Seq<char>>(e@),
        },
{
    if payload.len() < 8 {
        return Err("LZ4-compressed payload too short to contain a size prefix".to_owned());
    }
    let size: u64 = read_u64(payload, 0);
    if size > isize::MAX as u64 {
        return Err("uncompressed size overflows usize".to_owned());
    }
    let block = copy_range(payload, 8, payload.len());
    assert(block@ == payload@.skip(8));
    match decompress_block(block.as_slice(), size as usize) {
        Ok(bytes) => Ok(bytes),
        Err(reason) => {
            let mut e = "LZ4 block decompression failed: ".to_owned();
            e.append(reason.as_str());
            Err(e)
        },
    }
}

/// The field that the data object at `offset` holds.
pub fn read_data_object_field(bytes: &[u8], offset: u64, compact: bool) -> (r: Result<
    (String, String),
    String,
>)
    ensures
        match r {
            Ok((key, value)) => data_field(bytes@, offset as int, compact) == Ok::<
                (Seq<char>, Seq<char>),
                Seq<char>,
            >((key@, value@)),
            Err(e) => data_field(bytes@, offset as int, compact) == Err::<
                (Seq<char>, Seq<char>),
                Seq<char>,
            >(e@),
        },
{
    proof {
        reveal(data_field);
        reveal(object_at);
    }
    let object = match read_object_header(bytes, offset) {
        Ok(object) => object,
        Err(e) => {
            return Err(e);
        },
    };
    if object.object_type != 1 {
        let mut e = at_offset("expected a DATA object at offset ", offset, ", found type ");
        e.append(dec_u64(object.object_type as u64).as_str());
        return Err(e);
    }
    let fixed: u64 = if compact {
        72
    } else {
        64
    };
    if fixed > object.size {
        return Err(
            at_offset("DATA object at offset ", offset, " is smaller than its fixed header"),
        );
    }
    let total: usize = bytes.len();
    assert(offset + object.size <= total);
    let start: usize = (offset + fixed) as usize;
    let end: usize = (offset + object.size) as usize;
    let payload = copy_range(bytes, start, end);
    if (object.flags / 2) % 2 == 1 {
        return match decompress_lz4(payload.as_slice()) {
            Ok(plain) => split_field(plain.as_slice()),
            Err(reason) => {
                let mut e = at_offset("DATA object at offset ", offset, ": LZ4 decompression: ");
                e.append(reason.as_str());
                Err(e)
            },
        };
    }
    if object.flags % 2 == 1 || (object.flags / 4) % 2 == 1 {
        let method = if object.flags % 2 == 1 {
            "XZ"
        } else {
            "ZSTD"
        };
        let mut key = "_UNSUPPORTED_COMPRESSED_FIELD@".to_owned();
        key.append(dec_u64(offset).as_str());
        let mut value = "<".to_owned();
        value.append(method);
        value.append("-compressed field, ");
        value.append(dec_u64(payload.len() as u64).as_str());
        value.append(" bytes, not decompressed>");
        return Ok((key, value));
    }
    split_field(payload.as_slice())
}

fn realtime_micros_to_utc(realtime: u64) -> (r: Result<Timestamp, String>)
    ensures
        match r {
            Ok(t) => entry_time(realtime as int) == Ok::<Timestamp, Seq<char>>(t),
            Err(e) => entry_time(realtime as int) == Err::<Timestamp, Seq<char>>(e@),
        },
{
    if realtime > i64::MAX as u64 {
        return Err(
            "realtime timestamp overflows i64: out of range integral type conversion attempted".to_owned(),
        );
    }
    match from_micros(realtime as i64) {
        Some(t) => Ok(t),
        None => Err(
            at_offset("realtime timestamp ", realtime, " microseconds is out of range"),
        ),
    }
}

fn text_of_member(fields: &Vec<(String, Json)>, key: &str) -> (r: Option<String>)
    ensures
        opt_text(r) == member_text(members_view(fields@), key@),
{
    let at: usize = crate::json::find_key(fields, key);
    if at < fields.len() {
        match &fields[at].1 {
            Json::Text(s) => Some(s.clone()),
            _ => None,
        }
    } else {
        None
    }
}

/// The fields of the `n` items of an entry whose items begin at `start`.
fn read_items(bytes: &[u8], start: usize, n: usize, compact: bool) -> (r: Result<
    Vec<(String, Json)>,
    String,
>)
    requires
        start + n * item_size(compact) <= bytes.len(),
    ensures
        match r {
            Ok(fields) => item_fields(bytes@, start as int, n as int, compact) == Ok::<
                Seq<(Seq<char>, JsonView)>,
                Seq<char>,
            >(members_view(fields@)),
            Err(e) => item_fields(bytes@, start as int, n as int, compact) == Err::<
                Seq<(Seq<char>, JsonView)>,
                Seq<char>,
            >(e@),
        },
{
    let mut fields: Vec<(String, Json)> = Vec::new();
    assert(members_view(fields@) =~= seq![]);
    let mut i: usize = 0;
    let mut at: usize = start;
    while i < n
        invariant
            i <= n,
            start + n * item_size(compact) <= bytes.len(),
            at == start + i * item_size(compact),
            item_fields(bytes@, start as int, i as int, compact) == Ok::<
                Seq<(Seq<char>, JsonView)>,
                Seq<char>,
            >(members_view(fields@)),
        decreases n - i,
    {
        assert(at + item_size(compact) <= bytes.len()) by (nonlinear_arith)
            requires
                i + 1 <= n,
                start + n * item_size(compact) <= bytes.len(),
                at == start + i * item_size(compact),
                item_size(compact) >= 0,
        ;
        assert((i + 1) * item_size(compact) == i * item_size(compact) + item_size(compact))
            by (nonlinear_arith);
        let target: u64 = if compact {
            read_u32(bytes, at) as u64
        } else {
            read_u64(bytes, at)
        };
        match read_data_object_field(bytes, target, compact) {
            Ok((key, value)) => {
                insert(&mut fields, key.as_str(), Json::Text(value));
            },
            Err(reason) => {
                let mut e = at_offset(
                    "entry item ",
                    i as u64,
                    ": failed to resolve DATA object at ",
                );
                e.append(dec_u64(target).as_str());
                e.append(": ");
                e.append(reason.as_str());
                proof {
                    lemma_item_error(bytes@, start as int, i + 1, n as int, compact);
                }
                return Err(e);
            },
        }
        i += 1;
        at = at + (if compact {
            4
        } else {
            16
        });
    }
    Ok(fields)
}

/// Where the first items cannot be read, the entry cannot.
proof fn lemma_item_error(b: Seq<u8>, start: int, i: int, n: int, compact: bool)
    requires
        i <= n,
        item_fields(b, start, i, compact) is Err,
    ensures
        item_fields(b, start, n, compact) == item_fields(b, start, i, compact),
    decreases n - i,
{
    if i < n {
        lemma_item_error(b, start, i, n - 1, compact);
    }
}

/// The record of the entry of `size` bytes at `offset`, or why there is none.
pub fn parse_entry_object(bytes: &[u8], offset: u64, size: u64, compact: bool) -> (r: Result<
    ParsedRecord,
    String,
>)
    requires
        size <= bytes.len(),
        offset <= bytes.len() - size,
    ensures
        match r {
            Ok(record) => entry_record(bytes@, offset as int, size as int, compact) == Ok::<
                RecordView,
                Seq<char>,
            >(record@),
            Err(e) => entry_record(bytes@, offset as int, size as int, compact) == Err::<
                RecordView,
                Seq<char>,
            >(e@),
        },
{
    proof {
        reveal(entry_record);
    }
    if size < 64 {
        return Err(
            at_offset("ENTRY object is smaller than the fixed entry header (", size, " bytes)"),
        );
    }
    let at: usize = offset as usize;
    let seqnum: u64 = read_u64(bytes, at + 16);
    let realtime: u64 = read_u64(bytes, at + 24);
    let monotonic: u64 = read_u64(bytes, at + 32);
    let area: u64 = size - 64;
    let width: u64 = if compact {
        4
    } else {
        16
    };
    if area % width != 0 {
        return Err(
            at_offset(
                "ENTRY object item area (",
                area,
                " bytes) isn't a whole number of entry items",
            ),
        );
    }
    let n: usize = (area / width) as usize;
    assert(n * item_size(compact) == area);
    let mut fields = match read_items(bytes, at + 64, n, compact) {
        Ok(fields) => fields,
        Err(e) => {
            return Err(e);
        },
    };
    let message = text_of_member(&fields, "MESSAGE");
    let level = text_of_member(&fields, "PRIORITY");
    insert(&mut fields, "__REALTIME_TIMESTAMP", Json::Text(dec_u64(realtime)));
    insert(&mut fields, "__MONOTONIC_TIMESTAMP", Json::Text(dec_u64(monotonic)));
    insert(&mut fields, "__SEQNUM", Json::Text(dec_u64(seqnum)));
    let timestamp_utc = match realtime_micros_to_utc(realtime) {
        Ok(t) => t,
        Err(reason) => {
            let mut e = at_offset("entry seqnum ", seqnum, ": invalid __REALTIME_TIMESTAMP: ");
            e.append(reason.as_str());
            return Err(e);
        },
    };
    let fields = Json::Object(fields);
    let raw = fields.to_text();
    Ok(ParsedRecord { timestamp_utc, level, message, raw, fields })
}

/// What the scan of a journal comes upon.
enum ScanItem {
    Record(ParsedRecord),
    BadEntry { offset: u64, reason: String },
    BadHeader { offset: u64, reason: String },
}

spec fn item_view(item: ScanItem) -> ScanEvent {
    match item {
        ScanItem::Record(r) => ScanEvent::Record(r@),
        ScanItem::BadEntry { offset, reason } => ScanEvent::BadEntry {
            offset: offset as int,
            reason: reason@,
        },
        ScanItem::BadHeader { offset, reason } => ScanEvent::BadHeader {
            offset: offset as int,
            reason: reason@,
        },
    }
}

spec fn scan_view(items: Seq<ScanItem>) -> Seq<ScanEvent> {
    items.map_values(|item: ScanItem| item_view(item))
}

/// What comes of one entry.
fn scan_entry(bytes: &[u8], offset: u64, size: u64, compact: bool) -> (r: ScanItem)
    requires
        size <= bytes.len(),
        offset <= bytes.len() - size,
    ensures
        item_view(r) == entry_event(bytes@, offset as int, size as int, compact),
{
    match parse_entry_object(bytes, offset, size, compact) {
        Ok(record) => ScanItem::Record(record),
        Err(e) => {
            let mut reason = at_offset("failed to parse ENTRY object at offset ", offset, ": ");
            reason.append(e.as_str());
            ScanItem::BadEntry { offset, reason }
        },
    }
}

/// Scans the objects of a journal.
fn scan_journal(bytes: &[u8], header: Header) -> (items: Vec<ScanItem>)
    ensures
        scan_view(items@) == journal_events(bytes@, header),
{
    proof {
        reveal(journal_events);
    }
    let ghost all = journal_events(bytes@, header);
    let mut items: Vec<ScanItem> = Vec::new();
    let tail: u64 = header.tail_object_offset;
    if tail == 0 || header.header_size > u64::MAX - 7 {
        assert(all =~= seq![]);
        assert(scan_view(items@) =~= seq![]);
        return items;
    }
    let total: usize = bytes.len();
    let mut offset: u64 = align8(header.header_size);
    assert(scan_view(items@) + all =~= all);
    while offset <= tail
        invariant
            total == bytes.len(),
            all == journal_events(bytes@, header),
            all == scan_view(items@) + scan(bytes@, offset as int, tail as int, header.compact),
        decreases total + 8 - offset,
    {
        let ghost before = items@;
        let object = match read_object_header(bytes, offset) {
            Ok(object) => object,
            Err(e) => {
                let mut reason = at_offset("failed to read object at offset ", offset, ": ");
                reason.append(e.as_str());
                let item = ScanItem::BadHeader { offset, reason };
                items.push(item);
                assert(scan_view(items@) =~= scan_view(before).push(item_view(item)));
                return items;
            },
        };
        proof {
            lemma_object_fits(bytes@, offset as int);
        }
        let end: u64 = offset + object.size;
        let ghost rest = scan(bytes@, aligned8(end as int), tail as int, header.compact);
        if object.object_type == 3 {
            let item = scan_entry(bytes, offset, object.size, header.compact);
            items.push(item);
            proof {
                assert(scan_view(items@) =~= scan_view(before).push(item_view(item)));
                assert(scan_view(items@) + rest =~= scan_view(before) + (seq![item_view(item)]
                    + rest));
            }
        }
        if end > u64::MAX - 7 {
            assert(rest =~= seq![]);
            assert(all =~= scan_view(items@));
            return items;
        }
        offset = align8(end);
    }
    assert(all =~= scan_view(items@));
    items
}

/// Parses a whole journal. Where bad records are skipped, an entry that cannot
/// be read is noted and the scan goes on; an object whose size cannot be read
/// is noted with the number of entries before it, and the scan ends. Else the
/// first of either fails the journal.
pub fn parse_bytes(bytes: &[u8], skip_bad_records: bool) -> (r: Result<
    (Vec<ParsedRecord>, Vec<SkippedRecord>),
    String,
>)
    ensures
        match header_of(bytes@) {
            Err(problem) => r is Err && r->Err_0@ == problem,
            Ok(header) => {
                let events = journal_events(bytes@, header);
                match r {
                    Ok((records, skipped)) => {
                        &&& records_view(records@) == event_records(events)
                        &&& skipped_view(skipped@) == event_skips(events)
                        &&& !skip_bad_records ==> skipped@.len() == 0
                    },
                    Err(e) => {
                        &&& !skip_bad_records
                        &&& fails_with(events, e@)
                    },
                }
            },
        },
{
    let header = match parse_header(bytes) {
        Ok(header) => header,
        Err(e) => {
            return Err(e);
        },
    };
    let items = scan_journal(bytes, header);
    let ghost all = items@;
    let ghost events = scan_view(all);
    let mut records: Vec<ParsedRecord> = Vec::new();
    let mut skipped: Vec<SkippedRecord> = Vec::new();
    for item in it: items
        invariant
            header_of(bytes@) == Ok::<Header, Seq<char>>(header),
            events == journal_events(bytes@, header),
            events == scan_view(all),
            it.seq() == all,
            records_view(records@) == event_records(events.take(it.index() as int)),
            skipped_view(skipped@) == event_skips(events.take(it.index() as int)),
            !skip_bad_records ==> skipped@.len() == 0,
            !skip_bad_records ==> forall|i: int|
                0 <= i < it.index() ==> #[trigger] events[i] is Record,
    {
        let ghost records_before = records@;
        let ghost skipped_before = skipped@;
        proof {
            let next = events.take(it.index() + 1);
            assert(next.drop_last() == events.take(it.index() as int));
            assert(next.last() == item_view(item));
            assert(events[it.index() as int] == item_view(item));
            assert(records_view(records@).len() == records@.len());
        }
        match item {
            ScanItem::Record(record) => {
                records.push(record);
                assert(records_view(records@) =~= records_view(records_before).push(record@));
            },
            ScanItem::BadEntry { offset, reason } => {
                if !skip_bad_records {
                    proof {
                        let at = it.index() as int;
                        assert(is_first_bad_event(events, at));
                        assert(reason@ == event_reason(events[at]));
                    }
                    return Err(reason);
                }
                let mut location = "entry at offset ".to_owned();
                location.append(prefixed_hex_u64(offset).as_str());
                let skip = SkippedRecord { location, reason };
                skipped.push(skip);
                assert(skipped_view(skipped@) =~= skipped_view(skipped_before).push(skip@));
            },
            ScanItem::BadHeader { offset, reason } => {
                if !skip_bad_records {
                    proof {
                        let at = it.index() as int;
                        assert(is_first_bad_event(events, at));
                        assert(reason@ == event_reason(events[at]));
                    }
                    return Err(reason);
                }
                let mut location = "offset ".to_owned();
                location.append(prefixed_hex_u64(offset).as_str());
                let mut note = reason;
                note.append(" — journal structure unreadable from this point; ");
                note.append(dec_u64(records.len() as u64).as_str());
                note.append(" entr");
                note.append(
                    if records.len() == 1 {
                        "y"
                    } else {
                        "ies"
                    },
                );
                note.append(" recovered before it, remainder of the file skipped");
                let skip = SkippedRecord { location, reason: note };
                skipped.push(skip);
                assert(skipped_view(skipped@) =~= skipped_view(skipped_before).push(skip@));
            },
        }
    }
    assert(events.take(events.len() as int) == events);
    Ok((records, skipped))
}

/// The parser for systemd journals.
pub struct JournaldFileParser;

impl JournaldFileParser {
    /// The kind of source that the parser is for.
    pub fn sourcetype(&self) -> (r: &'static str)
        ensures
            r@ == "journald"@,
    {
        "journald"
    }
}

/// Every event of a scan is either a record or noted as left out.
pub proof fn lemma_every_event_counts(events: Seq<ScanEvent>)
    ensures
        event_records(events).len() + event_skips(events).len() == events.len(),
    decreases events.len(),
{
    if events.len() > 0 {
        lemma_every_event_counts(events.drop_last());
    }
}

/// A scan ends with an object whose size is not known: nothing comes after it, and
/// what came before it is kept.
pub proof fn lemma_scan_ends_at_bad_header(b: Seq<u8>, offset: int, tail: int, compact: bool, i: int)
    requires
        0 <= i < scan(b, offset, tail, compact).len(),
        scan(b, offset, tail, compact)[i] is BadHeader,
    ensures
        i == scan(b, offset, tail, compact).len() - 1,
    decreases b.len() + 8 - offset,
{
    if let Ok(object) = object_at(b, offset) {
        lemma_object_fits(b, offset);
        let rest = scan(b, aligned8(offset + object.size), tail, compact);
        if object.object_type == 3 {
            if i > 0 {
                assert(scan(b, offset, tail, compact)[i] == rest[i - 1]);
                lemma_scan_ends_at_bad_header(
                    b,
                    aligned8(offset + object.size),
                    tail,
                    compact,
                    i - 1,
                );
            }
        } else {
            lemma_scan_ends_at_bad_header(b, aligned8(offset + object.size), tail, compact, i);
        }
    }
}

} // verus!
