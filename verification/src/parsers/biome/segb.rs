//! The SEGB ("Segmented Biome") envelope that wraps the records of a stream.
//!
//! Two variants exist, told apart by where the magic `SEGB` stands. Only the
//! second is read here; the first is recognized, so that it is never taken for
//! the second.
//!
//! The layout of the second variant:
//!
//! - A file header of 32 bytes: the magic, the number of trailer slots as a
//!   signed 32-bit integer, a creation time that is not used, and 16 bytes of
//!   padding. All integers are little-endian.
//! - A trailer of that many slots of 16 bytes each at the end of the file: the
//!   end offset of an entry relative to the end of the header, the state of the
//!   entry, and its time as the bits of a double.
//! - Between them the entries, walked in ascending order of their end offsets:
//!   a CRC32, four unknown bytes, the payload, and padding up to a multiple of
//!   four.

use vstd::prelude::*;

use crate::bytes::{copy_range, i32_at, read_i32, read_u32, read_u64, u32_at, u64_at};
use crate::parsers::biome::segb_trailer::{come_of_trailer, lemma_outcomes_come_of_slots};
use crate::order::{keys_view, reordered, sorted_positions, stable_order, SortKey, SortKeyView};
use crate::text::{dec_i64, dec_int, hex, hex_encode};
use crate::time::Timestamp;

verus! {

/// The two variants of the envelope.
#[derive(Clone, Copy, Debug, PartialEq, Eq, Structural)]
pub enum SegbVersion {
    V1,
    V2,
}

/// The state of an entry: written and deleted entries hold readable data, an
/// unknown one marks a slot that was never written to.
#[derive(Clone, Copy, Debug, PartialEq, Eq, Structural)]
pub enum EntryState {
    Written,
    Deleted,
    Unknown,
}

/// A problem that concerns the whole file.
#[derive(Clone, Copy, Debug, PartialEq, Eq)]
pub enum SegbError {
    NotSegb,
    TooShort,
    BadMagic { found: (u8, u8, u8, u8) },
    NegativeCount { count: i32 },
    TrailerTooLarge { count: i32 },
    TrailerOverlapsHeader,
}

/// A problem that concerns one record.
#[derive(Debug)]
pub enum RecordError {
    /// The record would be read past the end of the file.
    PastEnd { end_offset: i32 },
    /// The record's time is no instant; the reason says why.
    BadTimestamp(String),
}

/// One record of an envelope.
#[derive(Debug)]
pub struct SegbRecord {
    pub state: EntryState,
    pub timestamp_utc: Timestamp,
    /// The bytes of the message that the record holds.
    pub payload: Vec<u8>,
    /// Where the record begins, counted from the start of the file.
    pub record_offset: u64,
    /// Whether the stored CRC32 is that of `payload`.
    pub crc_valid: bool,
}

/// The view of a [`SegbRecord`].
#[verifier::ext_equal]
pub struct SegbRecordView {
    pub state: EntryState,
    pub timestamp_utc: Timestamp,
    pub payload: Seq<u8>,
    pub record_offset: int,
    pub crc_valid: bool,
}

impl View for SegbRecord {
    type V = SegbRecordView;

    open spec fn view(&self) -> SegbRecordView {
        SegbRecordView {
            state: self.state,
            timestamp_utc: self.timestamp_utc,
            payload: self.payload@,
            record_offset: self.record_offset as int,
            crc_valid: self.crc_valid,
        }
    }
}

/// What comes of one trailer slot, where anything does.
#[verifier::ext_equal]
pub enum EntryOutcome {
    Record(SegbRecordView),
    PastEnd { end_offset: int },
    BadTimestamp(Seq<char>),
}

/// The view of what comes of one trailer slot.
pub open spec fn outcome_view(r: Result<SegbRecord, RecordError>) -> EntryOutcome {
    match r {
        Ok(record) => EntryOutcome::Record(record@),
        Err(RecordError::PastEnd { end_offset }) => EntryOutcome::PastEnd {
            end_offset: end_offset as int,
        },
        Err(RecordError::BadTimestamp(reason)) => EntryOutcome::BadTimestamp(reason@),
    }
}

/// The views of what comes of the trailer slots.
pub open spec fn outcomes_view(v: Seq<Result<SegbRecord, RecordError>>) -> Seq<EntryOutcome> {
    v.map_values(|r: Result<SegbRecord, RecordError>| outcome_view(r))
}

/// The state that a raw value stands for.
pub open spec fn state_of(raw: int) -> Option<EntryState> {
    if raw == 1 {
        Some(EntryState::Written)
    } else if raw == 3 {
        Some(EntryState::Deleted)
    } else if raw == 4 {
        Some(EntryState::Unknown)
    } else {
        None
    }
}

/// The name of a state.
pub open spec fn state_name(state: EntryState) -> Seq<char> {
    match state {
        EntryState::Written => "written"@,
        EntryState::Deleted => "deleted"@,
        EntryState::Unknown => "unknown"@,
    }
}

impl EntryState {
    /// The state that a raw value stands for.
    pub fn from_raw(raw: i32) -> (r: Option<EntryState>)
        ensures
            r == state_of(raw as int),
    {
        if raw == 1 {
            Some(EntryState::Written)
        } else if raw == 3 {
            Some(EntryState::Deleted)
        } else if raw == 4 {
            Some(EntryState::Unknown)
        } else {
            None
        }
    }

    /// The name of the state.
    pub fn as_str(&self) -> (r: &'static str)
        ensures
            r@ == state_name(*self),
    {
        match self {
            EntryState::Written => "written",
            EntryState::Deleted => "deleted",
            EntryState::Unknown => "unknown",
        }
    }
}

/// Whether the magic stands at `at`.
pub open spec fn magic_at(b: Seq<u8>, at: int) -> bool {
    &&& at + 4 <= b.len()
    &&& b[at] == 0x53
    &&& b[at + 1] == 0x45
    &&& b[at + 2] == 0x47
    &&& b[at + 3] == 0x42
}

fn has_magic(bytes: &[u8], at: usize) -> (r: bool)
    requires
        at + 4 <= usize::MAX,
    ensures
        r == magic_at(bytes@, at as int),
{
    at + 4 <= bytes.len() && bytes[at] == 0x53 && bytes[at + 1] == 0x45 && bytes[at + 2] == 0x47
        && bytes[at + 3] == 0x42
}

/// The variant of the envelope, if `bytes` is one. The magic of the first
/// variant, the last four bytes of a header of 56 bytes, is looked for first.
pub open spec fn version_of(b: Seq<u8>) -> Option<SegbVersion> {
    if b.len() >= 56 && magic_at(b, 52) {
        Some(SegbVersion::V1)
    } else if magic_at(b, 0) {
        Some(SegbVersion::V2)
    } else {
        None
    }
}

/// Which variant of the envelope `bytes` is.
pub fn detect_version(bytes: &[u8]) -> (r: Result<SegbVersion, SegbError>)
    ensures
        r == (match version_of(bytes@) {
            Some(v) => Ok(v),
            None => Err(SegbError::NotSegb),
        }),
{
    if has_magic(bytes, 52) {
        Ok(SegbVersion::V1)
    } else if has_magic(bytes, 0) {
        Ok(SegbVersion::V2)
    } else {
        Err(SegbError::NotSegb)
    }
}

/// The number of trailer slots that the header states.
pub open spec fn slot_count(b: Seq<u8>) -> int {
    i32_at(b, 4)
}

/// What is wrong with the file as a whole, if anything is.
pub open spec fn file_problem(b: Seq<u8>) -> Option<SegbError> {
    if b.len() < 32 {
        Some(SegbError::TooShort)
    } else if !magic_at(b, 0) {
        Some(SegbError::BadMagic { found: (b[0], b[1], b[2], b[3]) })
    } else if slot_count(b) < 0 {
        Some(SegbError::NegativeCount { count: slot_count(b) as i32 })
    } else if 16 * slot_count(b) > b.len() {
        Some(SegbError::TrailerTooLarge { count: slot_count(b) as i32 })
    } else if b.len() - 16 * slot_count(b) < 32 {
        Some(SegbError::TrailerOverlapsHeader)
    } else {
        None
    }
}

/// Where the trailer begins.
pub open spec fn trailer_start(b: Seq<u8>) -> int {
    b.len() - 16 * slot_count(b)
}

/// A trailer slot whose state is a known one.
pub struct TrailerEntry {
    pub end_offset: i32,
    pub state: EntryState,
    pub slot: usize,
}

/// The trailer slots before slot `n` whose state is a known one.
pub open spec fn known_slots(b: Seq<u8>, n: int) -> Seq<TrailerEntry>
    decreases n,
{
    if n <= 0 {
        seq![]
    } else {
        let at = trailer_start(b) + 16 * (n - 1);
        let before = known_slots(b, n - 1);
        match state_of(i32_at(b, at + 4)) {
            Some(state) => before.push(
                TrailerEntry {
                    end_offset: i32_at(b, at) as i32,
                    state,
                    slot: (n - 1) as usize,
                },
            ),
            None => before,
        }
    }
}

/// What the slots are sorted by: their end offsets.
pub open spec fn slot_keys(slots: Seq<TrailerEntry>) -> Seq<SortKeyView> {
    slots.map_values(
        |e: TrailerEntry| SortKeyView { rank: e.end_offset as int, text: seq![], minor: 0 },
    )
}

/// The slots with a known state in ascending order of their end offsets; those
/// with equal end offsets in the order of the trailer.
pub open spec fn sorted_slots(b: Seq<u8>) -> Seq<TrailerEntry> {
    let known = known_slots(b, slot_count(b));
    reordered(known, stable_order(slot_keys(known)))
}

/// The time of a slot. A slot that the list does not reach has no time.
pub open spec fn slot_time(times: Seq<Result<Timestamp, String>>, slot: int) -> Result<
    Timestamp,
    Seq<char>,
> {
    if 0 <= slot < times.len() {
        match times[slot] {
            Ok(t) => Ok(t),
            Err(reason) => Err(reason@),
        }
    } else {
        Err(seq![])
    }
}

/// The next multiple of four.
pub open spec fn next_aligned(n: int) -> int {
    if n % 4 == 0 {
        n
    } else {
        n + 4 - n % 4
    }
}

/// The record of a slot that was read at `pos`.
pub open spec fn record_read(b: Seq<u8>, e: TrailerEntry, pos: int, time: Timestamp) -> SegbRecordView {
    let payload = b.subrange(pos + 8, e.end_offset + 32);
    SegbRecordView {
        state: e.state,
        timestamp_utc: time,
        payload,
        record_offset: pos,
        crc_valid: u32_at(b, pos) == crc32(payload),
    }
}

/// The record of a slot that shares its data with the record before it.
pub open spec fn record_shared(e: TrailerEntry, shared: SegbRecordView, time: Timestamp) -> SegbRecordView {
    SegbRecordView { state: e.state, timestamp_utc: time, ..shared }
}

/// What comes of `slots`, in order, where the next entry begins at `pos` and
/// `last` is the record that was read last, with its end offset.
pub open spec fn walk(
    b: Seq<u8>,
    times: Seq<Result<Timestamp, String>>,
    slots: Seq<TrailerEntry>,
    pos: int,
    last: Option<(i32, SegbRecordView)>,
) -> Seq<EntryOutcome>
    decreases slots.len(),
{
    if slots.len() == 0 {
        seq![]
    } else {
        let e = slots[0];
        let rest = slots.drop_first();
        let time = slot_time(times, e.slot as int);
        if e.state == EntryState::Unknown {
            walk(b, times, rest, pos, last)
        } else if last is Some && (last->0).0 == e.end_offset {
            let outcome = match time {
                Ok(t) => EntryOutcome::Record(record_shared(e, (last->0).1, t)),
                Err(reason) => EntryOutcome::BadTimestamp(reason),
            };
            seq![outcome] + walk(b, times, rest, pos, last)
        } else if e.end_offset + 32 - pos < 8 {
            walk(b, times, rest, pos, last)
        } else if e.end_offset + 32 > b.len() {
            seq![EntryOutcome::PastEnd { end_offset: e.end_offset as int }]
        } else {
            let next = next_aligned(e.end_offset + 32);
            match time {
                Ok(t) => {
                    let record = record_read(b, e, pos, t);
                    seq![EntryOutcome::Record(record)] + walk(
                        b,
                        times,
                        rest,
                        next,
                        Some((e.end_offset, record)),
                    )
                },
                Err(reason) => seq![EntryOutcome::BadTimestamp(reason)] + walk(
                    b,
                    times,
                    rest,
                    next,
                    last,
                ),
            }
        }
    }
}

/// The CRC32 of a byte string, as `crc32fast::hash` computes it.
pub uninterp spec fn crc32(b: Seq<u8>) -> u32;

/// `crc32fast::hash` is a function of the bytes it is given.
pub assume_specification[ crc32fast::hash ](buf: &[u8]) -> (r: u32)
    ensures
        r == crc32(buf@),
;

fn check_file(bytes: &[u8]) -> (r: Result<usize, SegbError>)
    ensures
        match r {
            Ok(count) => file_problem(bytes@) is None && count == slot_count(bytes@),
            Err(e) => file_problem(bytes@) == Some(e),
        },
{
    if bytes.len() < 32 {
        return Err(SegbError::TooShort);
    }
    if !has_magic(bytes, 0) {
        return Err(
            SegbError::BadMagic { found: (bytes[0], bytes[1], bytes[2], bytes[3]) },
        );
    }
    let count: i32 = read_i32(bytes, 4);
    if count < 0 {
        return Err(SegbError::NegativeCount { count });
    }
    let trailer_len: u64 = 16 * (count as u64);
    if trailer_len > bytes.len() as u64 {
        return Err(SegbError::TrailerTooLarge { count });
    }
    if (bytes.len() as u64) - trailer_len < 32 {
        return Err(SegbError::TrailerOverlapsHeader);
    }
    Ok(count as usize)
}

/// The times of the trailer slots, each as the bits of a double that counts
/// the seconds since 2001-01-01T00:00:00Z.
pub fn trailer_times(bytes: &[u8]) -> (r: Result<Vec<u64>, SegbError>)
    ensures
        match r {
            Ok(bits) => {
                &&& file_problem(bytes@) is None
                &&& bits.len() == slot_count(bytes@)
                &&& forall|i: int|
                    0 <= i < bits.len() ==> #[trigger] bits@[i] == u64_at(
                        bytes@,
                        trailer_start(bytes@) + 16 * i + 8,
                    )
            },
            Err(e) => file_problem(bytes@) == Some(e),
        },
{
    let count: usize = match check_file(bytes) {
        Ok(count) => count,
        Err(e) => {
            return Err(e);
        },
    };
    let start: usize = bytes.len() - 16 * count;
    let mut bits: Vec<u64> = Vec::new();
    let mut i: usize = 0;
    while i < count
        invariant
            i <= count,
            bits.len() == i,
            count == slot_count(bytes@),
            file_problem(bytes@) is None,
            start == trailer_start(bytes@),
            start + 16 * count == bytes.len(),
            forall|j: int|
                0 <= j < i ==> #[trigger] bits@[j] == u64_at(
                    bytes@,
                    trailer_start(bytes@) + 16 * j + 8,
                ),
        decreases count - i,
    {
        bits.push(read_u64(bytes, start + 16 * i + 8));
        i += 1;
    }
    Ok(bits)
}

fn read_slots(bytes: &[u8], count: usize) -> (slots: Vec<TrailerEntry>)
    requires
        file_problem(bytes@) is None,
        count == slot_count(bytes@),
    ensures
        slots@ == known_slots(bytes@, slot_count(bytes@)),
{
    let start: usize = bytes.len() - 16 * count;
    let mut slots: Vec<TrailerEntry> = Vec::new();
    let mut i: usize = 0;
    while i < count
        invariant
            i <= count,
            count == slot_count(bytes@),
            file_problem(bytes@) is None,
            start == trailer_start(bytes@),
            start + 16 * count == bytes.len(),
            slots@ == known_slots(bytes@, i as int),
        decreases count - i,
    {
        let at: usize = start + 16 * i;
        let end_offset: i32 = read_i32(bytes, at);
        let raw: i32 = read_i32(bytes, at + 4);
        match EntryState::from_raw(raw) {
            Some(state) => {
                slots.push(TrailerEntry { end_offset, state, slot: i });
            },
            None => {},
        }
        i += 1;
    }
    slots
}

fn sort_slots(slots: &Vec<TrailerEntry>) -> (order: Vec<usize>)
    ensures
        order.len() == slots.len(),
        forall|i: int| 0 <= i < order.len() ==> #[trigger] order@[i] < slots.len(),
        order@.map_values(|i: usize| i as int) == stable_order(slot_keys(slots@)),
{
    let mut keys: Vec<SortKey> = Vec::new();
    let mut i: usize = 0;
    while i < slots.len()
        invariant
            i <= slots.len(),
            keys.len() == i,
            forall|j: int| 0 <= j < i ==> (#[trigger] keys@[j])@ == slot_keys(slots@)[j],
        decreases slots.len() - i,
    {
        keys.push(SortKey { rank: slots[i].end_offset as i128, text: String::new(), minor: 0 });
        i += 1;
    }
    assert(keys_view(keys@) =~= slot_keys(slots@));
    let order = sorted_positions(&keys);
    proof {
        let o = order@.map_values(|i: usize| i as int);
        assert forall|i: int| 0 <= i < order.len() implies #[trigger] order@[i] < slots.len() by {
            assert(o[i] < slots.len());
        }
    }
    order
}

fn time_of_slot(times: &Vec<Result<Timestamp, String>>, slot: usize) -> (r: Result<
    Timestamp,
    String,
>)
    ensures
        match r {
            Ok(t) => slot_time(times@, slot as int) == Ok::<Timestamp, Seq<char>>(t),
            Err(reason) => slot_time(times@, slot as int) == Err::<Timestamp, Seq<char>>(reason@),
        },
{
    if slot < times.len() {
        match &times[slot] {
            Ok(t) => Ok(*t),
            Err(reason) => Err(reason.clone()),
        }
    } else {
        Err(String::new())
    }
}

spec fn last_view(end_offset: i32, last: Option<SegbRecord>) -> Option<(i32, SegbRecordView)> {
    match last {
        Some(record) => Some((end_offset, record@)),
        None => None,
    }
}

/// Reads the records of an envelope of the second variant. `times` holds for
/// each trailer slot the instant that its time stands for, or why it is none.
///
/// A slot gives a record, or an error that concerns only that record, or
/// nothing at all: where its raw state is not a known one, where its state is
/// [`EntryState::Unknown`], and where its data would be shorter than an entry's
/// header because a later record has reused its place. A slot with the end
/// offset of the record that was read last shares that record's data. Reading
/// stops at a record that would reach past the end of the file. A record has the time
/// and the state of its own slot.
pub fn read_v2_records(bytes: &[u8], times: &Vec<Result<Timestamp, String>>) -> (r: Result<
    Vec<Result<SegbRecord, RecordError>>,
    SegbError,
>)
    ensures
        match r {
            Ok(records) => {
                &&& file_problem(bytes@) is None
                &&& outcomes_view(records@) == walk(
                    bytes@,
                    times@,
                    sorted_slots(bytes@),
                    32,
                    None,
                )
                &&& come_of_trailer(bytes@, times@, outcomes_view(records@))
            },
            Err(e) => file_problem(bytes@) == Some(e),
        },
{
    let count: usize = match check_file(bytes) {
        Ok(count) => count,
        Err(e) => {
            return Err(e);
        },
    };
    proof {
        let from = lemma_outcomes_come_of_slots(bytes@, times@);
    }
    let slots = read_slots(bytes, count);
    let order = sort_slots(&slots);
    let ghost sorted = sorted_slots(bytes@);
    let ghost all = walk(bytes@, times@, sorted, 32, None);

    let mut records: Vec<Result<SegbRecord, RecordError>> = Vec::new();
    let mut pos: i64 = 32;
    let mut last_end: i32 = 0;
    let mut last: Option<SegbRecord> = None;
    let mut i: usize = 0;
    proof {
        assert(sorted.skip(0) == sorted);
        assert(outcomes_view(records@) + all == all);
    }
    while i < order.len()
        invariant
            i <= order.len(),
            order.len() == slots.len(),
            forall|j: int| 0 <= j < order.len() ==> #[trigger] order@[j] < slots.len(),
            sorted.len() == order.len(),
            forall|j: int|
                0 <= j < order.len() ==> #[trigger] sorted[j] == slots@[order@[j] as int],
            file_problem(bytes@) is None,
            sorted == sorted_slots(bytes@),
            all == walk(bytes@, times@, sorted, 32, None),
            come_of_trailer(bytes@, times@, all),
            32 <= pos <= 0x1_0000_0000,
            all == outcomes_view(records@) + walk(
                bytes@,
                times@,
                sorted.skip(i as int),
                pos as int,
                last_view(last_end, last),
            ),
        decreases order.len() - i,
    {
        let e = &slots[order[i]];
        let ghost before = records@;
        proof {
            let here = sorted.skip(i as int);
            assert(here[0] == *e);
            assert(here.drop_first() == sorted.skip(i + 1));
        }
        i += 1;
        if e.state == EntryState::Unknown {
            continue;
        }
        let time = time_of_slot(times, e.slot);
        let shares: bool = last.is_some() && e.end_offset == last_end;
        if shares {
            if let Some(shared) = &last {
                let outcome = match time {
                    Ok(timestamp_utc) => Ok(
                        SegbRecord {
                            state: e.state,
                            timestamp_utc,
                            payload: copy_range(
                                shared.payload.as_slice(),
                                0,
                                shared.payload.len(),
                            ),
                            record_offset: shared.record_offset,
                            crc_valid: shared.crc_valid,
                        },
                    ),
                    Err(reason) => Err(RecordError::BadTimestamp(reason)),
                };
                proof {
                    assert(shared.payload@.subrange(0, shared.payload@.len() as int)
                        == shared.payload@);
                }
                records.push(outcome);
                proof {
                    assert(outcomes_view(records@) == outcomes_view(before).push(
                        outcome_view(outcome),
                    ));
                }
            }
            continue;
        }
        let length: i64 = e.end_offset as i64 - pos + 32;
        if length < 8 {
            continue;
        }
        let end: i64 = e.end_offset as i64 + 32;
        if end as u64 > bytes.len() as u64 {
            let outcome = Err(RecordError::PastEnd { end_offset: e.end_offset });
            records.push(outcome);
            proof {
                assert(outcomes_view(records@) == outcomes_view(before).push(
                    outcome_view(outcome),
                ));
                assert(all == outcomes_view(records@));
            }
            return Ok(records);
        }
        let start: usize = pos as usize;
        let payload = copy_range(bytes, start + 8, end as usize);
        let stored: u32 = read_u32(bytes, start);
        let crc_valid: bool = stored == crc32fast::hash(payload.as_slice());
        let record_offset: u64 = pos as u64;
        let over: i64 = end % 4;
        pos = if over == 0 {
            end
        } else {
            end + (4 - over)
        };
        match time {
            Ok(timestamp_utc) => {
                let copy = copy_range(payload.as_slice(), 0, payload.len());
                let record = SegbRecord {
                    state: e.state,
                    timestamp_utc,
                    payload,
                    record_offset,
                    crc_valid,
                };
                last_end = e.end_offset;
                last =
                Some(
                    SegbRecord {
                        state: e.state,
                        timestamp_utc,
                        payload: copy,
                        record_offset,
                        crc_valid,
                    },
                );
                records.push(Ok(record));
                proof {
                    assert(record@ == record_read(bytes@, *e, start as int, timestamp_utc));
                    assert(last->0@ == record@);
                    assert(outcomes_view(records@) == outcomes_view(before).push(
                        EntryOutcome::Record(record@),
                    ));
                }
            },
            Err(reason) => {
                records.push(Err(RecordError::BadTimestamp(reason)));
                proof {
                    assert(outcomes_view(records@) == outcomes_view(before).push(
                        EntryOutcome::BadTimestamp(reason@),
                    ));
                }
            },
        }
    }
    proof {
        assert(all == outcomes_view(records@));
    }
    Ok(records)
}

/// Four bytes as a list of hexadecimal numbers.
pub open spec fn four_bytes_text(b: (u8, u8, u8, u8)) -> Seq<char> {
    "["@ + hex(seq![b.0]) + ", "@ + hex(seq![b.1]) + ", "@ + hex(seq![b.2]) + ", "@ + hex(
        seq![b.3],
    ) + "]"@
}

/// What is wrong with a file, in words.
pub open spec fn file_problem_text(e: SegbError) -> Seq<char> {
    match e {
        SegbError::NotSegb =>
        "not a recognized SEGB v1 or v2 file (no matching magic signature found)"@,
        SegbError::TooShort => "file is shorter than the 32-byte SEGB v2 header"@,
        SegbError::BadMagic { found } => "unexpected file magic: expected [53, 45, 47, 42], got "@
            + four_bytes_text(found),
        SegbError::NegativeCount { count } =>
        "SEGB v2 header reports a negative entries_count ("@ + dec_int(count as int) + ")"@,
        SegbError::TrailerTooLarge { count } => "SEGB v2 header's entries_count ("@ + dec_int(
            count as int,
        ) + ") implies a trailer larger than the file itself"@,
        SegbError::TrailerOverlapsHeader =>
        "SEGB v2 trailer overlaps the file header — file is truncated or corrupt"@,
    }
}

/// What is wrong with a record, in words.
pub open spec fn outcome_reason(o: EntryOutcome) -> Seq<char> {
    match o {
        EntryOutcome::Record(_) => seq![],
        EntryOutcome::PastEnd { end_offset } => "record ending at data-area offset "@ + dec_int(
            end_offset,
        ) + " would read past the end of the file"@,
        EntryOutcome::BadTimestamp(reason) => reason,
    }
}

fn one_byte_hex(b: u8) -> (r: String)
    ensures
        r@ == hex(seq![b]),
{
    let mut v: Vec<u8> = Vec::new();
    v.push(b);
    assert(v@ == seq![b]);
    hex_encode(v.as_slice())
}

impl SegbError {
    /// The problem in words.
    pub fn message(&self) -> (r: String)
        ensures
            r@ == file_problem_text(*self),
    {
        match self {
            SegbError::NotSegb =>
            "not a recognized SEGB v1 or v2 file (no matching magic signature found)".to_owned(),
            SegbError::TooShort => "file is shorter than the 32-byte SEGB v2 header".to_owned(),
            SegbError::BadMagic { found } => {
                let mut list = "[".to_owned();
                list.append(one_byte_hex(found.0).as_str());
                list.append(", ");
                list.append(one_byte_hex(found.1).as_str());
                list.append(", ");
                list.append(one_byte_hex(found.2).as_str());
                list.append(", ");
                list.append(one_byte_hex(found.3).as_str());
                list.append("]");
                let mut text =
                    "unexpected file magic: expected [53, 45, 47, 42], got ".to_owned();
                text.append(list.as_str());
                text
            },
            SegbError::NegativeCount { count } => {
                let mut text = "SEGB v2 header reports a negative entries_count (".to_owned();
                text.append(dec_i64(*count as i64).as_str());
                text.append(")");
                text
            },
            SegbError::TrailerTooLarge { count } => {
                let mut text = "SEGB v2 header's entries_count (".to_owned();
                text.append(dec_i64(*count as i64).as_str());
                text.append(") implies a trailer larger than the file itself");
                text
            },
            SegbError::TrailerOverlapsHeader =>
            "SEGB v2 trailer overlaps the file header — file is truncated or corrupt".to_owned(),
        }
    }
}

impl RecordError {
    /// The problem in words.
    pub fn message(&self) -> (r: String)
        ensures
            r@ == outcome_reason(outcome_view(Err(*self))),
    {
        match self {
            RecordError::PastEnd { end_offset } => {
                let mut text = "record ending at data-area offset ".to_owned();
                text.append(dec_i64(*end_offset as i64).as_str());
                text.append(" would read past the end of the file");
                text
            },
            RecordError::BadTimestamp(reason) => reason.clone(),
        }
    }
}

/// Whether a record lies in a file: its payload is a part of the file behind eight
/// bytes, and its mark says whether the first four of them are its checksum.
pub open spec fn lies_in(b: Seq<u8>, r: SegbRecordView) -> bool {
    let start = r.record_offset + 8;
    &&& 0 <= r.record_offset
    &&& start + r.payload.len() <= b.len()
    &&& r.payload == b.subrange(start, start + r.payload.len())
    &&& r.crc_valid == (u32_at(b, r.record_offset) == crc32(r.payload))
}

proof fn lemma_walk_lies_in(
    b: Seq<u8>,
    times: Seq<Result<Timestamp, String>>,
    slots: Seq<TrailerEntry>,
    pos: int,
    last: Option<(i32, SegbRecordView)>,
    i: int,
)
    requires
        0 <= pos,
        last is Some ==> lies_in(b, (last->0).1),
        0 <= i < walk(b, times, slots, pos, last).len(),
        walk(b, times, slots, pos, last)[i] is Record,
    ensures
        lies_in(b, walk(b, times, slots, pos, last)[i]->Record_0),
    decreases slots.len(),
{
    let all = walk(b, times, slots, pos, last);
    let e = slots[0];
    let rest = slots.drop_first();
    let time = slot_time(times, e.slot as int);
    if e.state == EntryState::Unknown {
        lemma_walk_lies_in(b, times, rest, pos, last, i);
    } else if last is Some && (last->0).0 == e.end_offset {
        if i > 0 {
            assert(all[i] == walk(b, times, rest, pos, last)[i - 1]);
            lemma_walk_lies_in(b, times, rest, pos, last, i - 1);
        }
    } else if e.end_offset + 32 - pos < 8 {
        lemma_walk_lies_in(b, times, rest, pos, last, i);
    } else if e.end_offset + 32 <= b.len() {
        let next = next_aligned(e.end_offset + 32);
        match time {
            Ok(t) => {
                let record = record_read(b, e, pos, t);
                assert(lies_in(b, record));
                let after = Some((e.end_offset, record));
                if i > 0 {
                    assert(all[i] == walk(b, times, rest, next, after)[i - 1]);
                    lemma_walk_lies_in(b, times, rest, next, after, i - 1);
                }
            },
            Err(_) => {
                if i > 0 {
                    assert(all[i] == walk(b, times, rest, next, last)[i - 1]);
                    lemma_walk_lies_in(b, times, rest, next, last, i - 1);
                }
            },
        }
    }
}

/// Every record of a file lies in the file. A wrong checksum is marked, and drops no
/// record.
pub proof fn lemma_records_lie_in_file(
    b: Seq<u8>,
    times: Seq<Result<Timestamp, String>>,
    i: int,
)
    requires
        0 <= i < walk(b, times, sorted_slots(b), 32, None).len(),
        walk(b, times, sorted_slots(b), 32, None)[i] is Record,
    ensures
        lies_in(b, walk(b, times, sorted_slots(b), 32, None)[i]->Record_0),
{
    lemma_walk_lies_in(b, times, sorted_slots(b), 32, None, i);
}

} // verus!
