//! What a parser makes of a source: records, and what it had to leave out.

use vstd::prelude::*;

use crate::json::{Json, JsonView};
use crate::time::Timestamp;

verus! {

/// One record of a source, before it gets an identity in a timeline.
#[derive(Debug)]
pub struct ParsedRecord {
    pub timestamp_utc: Timestamp,
    pub level: Option<String>,
    pub message: Option<String>,
    /// The record as the source holds it.
    pub raw: String,
    pub fields: Json,
}

/// The view of a [`ParsedRecord`].
#[verifier::ext_equal]
pub struct RecordView {
    pub timestamp_utc: Timestamp,
    pub level: Option<Seq<char>>,
    pub message: Option<Seq<char>>,
    pub raw: Seq<char>,
    pub fields: JsonView,
}

/// The view of an optional text.
pub open spec fn opt_text(s: Option<String>) -> Option<Seq<char>> {
    match s {
        Some(s) => Some(s@),
        None => None,
    }
}

impl View for ParsedRecord {
    type V = RecordView;

    open spec fn view(&self) -> RecordView {
        RecordView {
            timestamp_utc: self.timestamp_utc,
            level: opt_text(self.level),
            message: opt_text(self.message),
            raw: self.raw@,
            fields: self.fields@,
        }
    }
}

/// The views of a list of records.
pub open spec fn records_view(v: Seq<ParsedRecord>) -> Seq<RecordView> {
    v.map_values(|r: ParsedRecord| r@)
}

/// A part of a source that was left out, and why.
#[derive(Debug)]
pub struct SkippedRecord {
    pub location: String,
    pub reason: String,
}

/// The view of a [`SkippedRecord`].
#[verifier::ext_equal]
pub struct SkippedView {
    pub location: Seq<char>,
    pub reason: Seq<char>,
}

impl View for SkippedRecord {
    type V = SkippedView;

    open spec fn view(&self) -> SkippedView {
        SkippedView { location: self.location@, reason: self.reason@ }
    }
}

/// The views of a list of skipped parts.
pub open spec fn skipped_view(v: Seq<SkippedRecord>) -> Seq<SkippedView> {
    v.map_values(|r: SkippedRecord| r@)
}

/// The identity of an entry: the source it came from, and its number there.
#[derive(Debug, PartialEq, Eq)]
pub struct EventId {
    pub source_file_id: String,
    pub sequence_number: u64,
}

/// The view of an [`EventId`].
#[verifier::ext_equal]
pub struct EventIdView {
    pub source_file_id: Seq<char>,
    pub sequence_number: u64,
}

impl View for EventId {
    type V = EventIdView;

    open spec fn view(&self) -> EventIdView {
        EventIdView {
            source_file_id: self.source_file_id@,
            sequence_number: self.sequence_number,
        }
    }
}

impl Clone for EventId {
    fn clone(&self) -> (r: EventId)
        ensures
            r@ == self@,
    {
        EventId {
            source_file_id: self.source_file_id.clone(),
            sequence_number: self.sequence_number,
        }
    }
}

/// What the text of a UUID is written as, or why it is none (`uuid::Uuid`).
pub uninterp spec fn uuid_text(text: Seq<char>) -> Result<Seq<char>, Seq<char>>;

/// `uuid::Uuid::parse_str`, and the UUID as it is printed: a function of the text. Which
/// texts are UUIDs is left to the name, but that what is printed is read as itself.
#[verifier::external_body]
fn read_uuid(text: &str) -> (r: Result<String, String>)
    ensures
        match r {
            Ok(s) => {
                &&& uuid_text(text@) == Ok::<Seq<char>, Seq<char>>(s@)
                &&& uuid_text(s@) == Ok::<Seq<char>, Seq<char>>(s@)
            },
            Err(e) => uuid_text(text@) == Err::<Seq<char>, Seq<char>>(e@),
        },
{
    uuid::Uuid::parse_str(text).map(|id| id.to_string()).map_err(|e| e.to_string())
}

/// The identity that is stored in two columns, or why it is none.
pub open spec fn stored_event_id(source_file_id: Seq<char>, sequence_number: i64) -> Result<
    EventIdView,
    Seq<char>,
> {
    match uuid_text(source_file_id) {
        Ok(source_file_id) => Ok(
            EventIdView { source_file_id, sequence_number: sequence_number as u64 },
        ),
        Err(e) => Err("invalid source_file_id in database: "@ + e),
    }
}

/// The identity that is stored in two columns, or why it is none.
pub fn read_event_id(source_file_id: &str, sequence_number: i64) -> (r: Result<EventId, String>)
    ensures
        match r {
            Ok(id) => stored_event_id(source_file_id@, sequence_number) == Ok::<
                EventIdView,
                Seq<char>,
            >(id@),
            Err(e) => stored_event_id(source_file_id@, sequence_number) == Err::<
                EventIdView,
                Seq<char>,
            >(e@),
        },
{
    match read_uuid(source_file_id) {
        Ok(source_file_id) => Ok(
            EventId { source_file_id, sequence_number: sequence_number as u64 },
        ),
        Err(reason) => {
            let mut e = "invalid source_file_id in database: ".to_owned();
            e.append(reason.as_str());
            Err(e)
        },
    }
}

/// The views of a list of identities.
pub open spec fn event_ids_view(v: Seq<EventId>) -> Seq<EventIdView> {
    v.map_values(|e: EventId| e@)
}

/// A record with its identity, as it stands in a timeline.
#[derive(Debug)]
pub struct LogEntry {
    pub event_id: EventId,
    pub timestamp_utc: Timestamp,
    pub level: Option<String>,
    pub message: Option<String>,
    pub raw: String,
    pub fields: Json,
}

/// The view of a [`LogEntry`].
#[verifier::ext_equal]
pub struct LogEntryView {
    pub event_id: EventIdView,
    pub record: RecordView,
}

impl View for LogEntry {
    type V = LogEntryView;

    open spec fn view(&self) -> LogEntryView {
        LogEntryView {
            event_id: self.event_id@,
            record: RecordView {
                timestamp_utc: self.timestamp_utc,
                level: opt_text(self.level),
                message: opt_text(self.message),
                raw: self.raw@,
                fields: self.fields@,
            },
        }
    }
}

/// The views of a list of entries.
pub open spec fn log_entries_view(v: Seq<LogEntry>) -> Seq<LogEntryView> {
    v.map_values(|e: LogEntry| e@)
}

/// The entries that the records of a source become: they share the identity of
/// the source, and are numbered from 0 in the order of the records.
pub open spec fn numbered_entries(records: Seq<RecordView>, source: Seq<char>) -> Seq<LogEntryView> {
    Seq::new(
        records.len(),
        |i: int|
            LogEntryView {
                event_id: EventIdView { source_file_id: source, sequence_number: i as u64 },
                record: records[i],
            },
    )
}

/// Gives the records of a source their identities.
pub fn assign_event_ids(records: Vec<ParsedRecord>, source_file_id: &str) -> (r: Vec<LogEntry>)
    ensures
        log_entries_view(r@) == numbered_entries(records_view(records@), source_file_id@),
{
    let ghost all = records@;
    let ghost views = records_view(all);
    let mut entries: Vec<LogEntry> = Vec::new();
    for record in it: records
        invariant
            it.seq() == all,
            views == records_view(all),
            entries.len() == it.index(),
            forall|j: int|
                0 <= j < entries.len() ==> (#[trigger] entries@[j])@ == numbered_entries(
                    views,
                    source_file_id@,
                )[j],
    {
        assert(views[it.index() as int] == record@);
        let sequence_number: u64 = entries.len() as u64;
        entries.push(
            LogEntry {
                event_id: EventId { source_file_id: source_file_id.to_owned(), sequence_number },
                timestamp_utc: record.timestamp_utc,
                level: record.level,
                message: record.message,
                raw: record.raw,
                fields: record.fields,
            },
        );
    }
    assert(log_entries_view(entries@) =~= numbered_entries(views, source_file_id@));
    entries
}

/// One component of a path. The text is missing where the component is not
/// valid Unicode; a component that is not an ordinary name is a root, a prefix,
/// `.` or `..`.
#[derive(Debug)]
pub struct PathPart {
    pub text: Option<String>,
    pub is_name: bool,
}

/// The view of a [`PathPart`].
#[verifier::ext_equal]
pub struct PathPartView {
    pub text: Option<Seq<char>>,
    pub is_name: bool,
}

impl View for PathPart {
    type V = PathPartView;

    open spec fn view(&self) -> PathPartView {
        PathPartView { text: opt_text(self.text), is_name: self.is_name }
    }
}

/// The views of the components of a path.
pub open spec fn parts_view(v: Seq<PathPart>) -> Seq<PathPartView> {
    v.map_values(|p: PathPart| p@)
}

/// The texts of those components that have one.
pub open spec fn part_texts(parts: Seq<PathPartView>) -> Seq<Seq<char>>
    decreases parts.len(),
{
    if parts.len() == 0 {
        seq![]
    } else {
        let before = part_texts(parts.drop_last());
        match parts.last().text {
            Some(text) => before.push(text),
            None => before,
        }
    }
}

/// The name of the file that a path leads to: its last component, where that is
/// an ordinary name in valid Unicode.
pub open spec fn file_name_text(parts: Seq<PathPartView>) -> Option<Seq<char>> {
    if parts.len() > 0 && parts.last().is_name {
        parts.last().text
    } else {
        None
    }
}

/// The texts of those components that have one.
pub fn texts_of_parts(parts: &Vec<PathPart>) -> (r: Vec<String>)
    ensures
        crate::text::texts(r@) == part_texts(parts_view(parts@)),
{
    let ghost all = parts_view(parts@);
    let mut r: Vec<String> = Vec::new();
    let mut i: usize = 0;
    while i < parts.len()
        invariant
            i <= parts.len(),
            all == parts_view(parts@),
            crate::text::texts(r@) == part_texts(all.take(i as int)),
        decreases parts.len() - i,
    {
        let ghost before = r@;
        proof {
            let next = all.take(i + 1);
            assert(next.drop_last() == all.take(i as int));
            assert(next.last() == parts@[i as int]@);
        }
        if let Some(text) = &parts[i].text {
            r.push(text.clone());
            assert(crate::text::texts(r@) =~= crate::text::texts(before).push(text@));
        }
        i += 1;
    }
    assert(all.take(i as int) == all);
    r
}

/// The entries of a source have identities that differ, with numbers that ascend
/// from 0. A number fits in 64 bits where there are not more records than that.
pub proof fn lemma_identities_ascend(records: Seq<RecordView>, source: Seq<char>)
    requires
        records.len() <= u64::MAX,
    ensures
        ({
            let entries = numbered_entries(records, source);
            &&& entries.len() == records.len()
            &&& forall|i: int|
                0 <= i < entries.len() ==> (#[trigger] entries[i]).event_id.source_file_id == source
                    && entries[i].event_id.sequence_number == i && entries[i].record == records[i]
            &&& forall|i: int, j: int|
                0 <= i < j < entries.len() ==> (#[trigger] entries[i]).event_id != (
                #[trigger] entries[j]).event_id
        }),
{
}

} // verus!
