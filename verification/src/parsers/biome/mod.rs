//! Biome streams: files that wrap schema-less protobuf messages (see
//! [`protobuf`]) in an envelope (see [`segb`]). Each file is a source of its
//! own.
//!
//! The fields of a record are the name of the stream, the state of the entry,
//! whether its CRC32 is right, where it begins, its payload in hexadecimal, and
//! the decoded payload.

pub mod concatenation;
pub mod protobuf;
pub mod segb;
pub mod segb_header;
pub mod segb_trailer;
pub mod stream_records;
pub mod wire_format;

use vstd::prelude::*;

use crate::double::{found_text, FloatTexts};
use crate::json::{
    int_view, json_text, lemma_first_place, members_view, path_view, Json, JsonView,
};
use crate::model::{
    file_name_text, opt_text, part_texts, parts_view, records_view, skipped_view, texts_of_parts,
    ParsedRecord, PathPart, PathPartView, RecordView, SkippedRecord, SkippedView,
};
use crate::parsers::biome::protobuf::{
    decode_message, message, message_object, payload_summary, render_payload_summary,
    MAX_DECODE_WORK,
};
use crate::parsers::biome::segb::{
    detect_version, file_problem, file_problem_text, outcome_reason, outcome_view, outcomes_view,
    read_v2_records, sorted_slots, state_name, version_of, walk, EntryOutcome, EntryState,
    SegbError, SegbRecord, SegbRecordView, SegbVersion,
};
use crate::text::{
    dec, dec_i64, dec_int, dec_u64, eq_ignore_ascii_case, hex, hex_encode, same,
    same_ignoring_ascii_case, texts,
};
use crate::time::Timestamp;

verus! {

/// Whether a directory has one of the two names that stream data lies under.
pub open spec fn is_data_dir(name: Seq<char>) -> bool {
    same_ignoring_ascii_case(name, "local"@) || same_ignoring_ascii_case(name, "remote"@)
}

/// Whether a file lies directly in a directory named `local` or `remote`, is
/// not hidden, and has no component named `tombstone`.
pub open spec fn segb_candidate(parts: Seq<PathPartView>) -> bool {
    let names = part_texts(parts);
    &&& names.len() >= 2
    &&& is_data_dir(names[names.len() - 2])
    &&& !(file_name_text(parts) is Some && file_name_text(parts)->0.len() > 0 && file_name_text(
        parts,
    )->0[0] == '.')
    &&& forall|i: int|
        0 <= i < names.len() ==> !same_ignoring_ascii_case(#[trigger] names[i], "tombstone"@)
}

/// The directory that is named after the stream: the one above a `local` or
/// `remote` directory, else the one that the file lies in.
pub open spec fn stream_name(parts: Seq<PathPartView>) -> Option<Seq<char>> {
    let names = part_texts(parts);
    if names.len() < 2 {
        None
    } else if is_data_dir(names[names.len() - 2]) {
        if names.len() >= 3 {
            Some(names[names.len() - 3])
        } else {
            None
        }
    } else {
        Some(names[names.len() - 2])
    }
}

fn names_data_dir(name: &str) -> (r: bool)
    ensures
        r == is_data_dir(name@),
{
    eq_ignore_ascii_case(name, "local") || eq_ignore_ascii_case(name, "remote")
}

fn is_hidden(parts: &Vec<PathPart>) -> (r: bool)
    ensures
        r == (file_name_text(parts_view(parts@)) is Some && file_name_text(
            parts_view(parts@),
        )->0.len() > 0 && file_name_text(parts_view(parts@))->0[0] == '.'),
{
    if parts.len() == 0 {
        return false;
    }
    let last = &parts[parts.len() - 1];
    assert(parts_view(parts@).last() == last@);
    if !last.is_name {
        return false;
    }
    match &last.text {
        Some(name) => {
            let v = crate::text::chars_of(name.as_str());
            v.len() > 0 && v[0] == '.'
        },
        None => false,
    }
}

/// Whether a file is worth opening as an envelope at all. Beside the data,
/// every stream has bookkeeping files, which lie elsewhere.
pub fn is_segb_candidate(path: &Vec<PathPart>) -> (r: bool)
    ensures
        r == segb_candidate(parts_view(path@)),
{
    let names = texts_of_parts(path);
    let ghost nv = texts(names@);
    if names.len() < 2 {
        assert(nv.len() == names.len());
        return false;
    }
    assert(nv[nv.len() - 2] == names@[names@.len() - 2]@);
    if !names_data_dir(names[names.len() - 2].as_str()) {
        return false;
    }
    if is_hidden(path) {
        return false;
    }
    let mut i: usize = 0;
    while i < names.len()
        invariant
            i <= names.len(),
            nv == texts(names@),
            nv == part_texts(parts_view(path@)),
            forall|j: int|
                0 <= j < i ==> !same_ignoring_ascii_case(#[trigger] nv[j], "tombstone"@),
        decreases names.len() - i,
    {
        assert(nv[i as int] == names@[i as int]@);
        if eq_ignore_ascii_case(names[i].as_str(), "tombstone") {
            return false;
        }
        i += 1;
    }
    true
}

/// The name of the stream that a file belongs to, by its path alone.
pub fn stream_name_from_path(file_path: &Vec<PathPart>) -> (r: Option<String>)
    ensures
        opt_text(r) == stream_name(parts_view(file_path@)),
{
    let names = texts_of_parts(file_path);
    let ghost nv = texts(names@);
    assert(nv.len() == names.len());
    if names.len() < 2 {
        return None;
    }
    assert(nv[nv.len() - 2] == names@[names@.len() - 2]@);
    if names_data_dir(names[names.len() - 2].as_str()) {
        if names.len() >= 3 {
            assert(nv[nv.len() - 3] == names@[names@.len() - 3]@);
            Some(names[names.len() - 3].clone())
        } else {
            None
        }
    } else {
        Some(names[names.len() - 2].clone())
    }
}

/// Whether a byte string has bytes, and all of them are zero.
pub open spec fn all_zero(b: Seq<u8>) -> bool {
    b.len() > 0 && forall|i: int| 0 <= i < b.len() ==> b[i] == 0
}

/// Whether a byte string has bytes, and all of them are zero.
pub fn is_all_zero(bytes: &[u8]) -> (r: bool)
    ensures
        r == all_zero(bytes@),
{
    let mut i: usize = 0;
    while i < bytes.len()
        invariant
            i <= bytes.len(),
            forall|j: int| 0 <= j < i ==> bytes@[j] == 0,
        decreases bytes.len() - i,
    {
        if bytes[i] != 0 {
            return false;
        }
        i += 1;
    }
    bytes.len() > 0
}

/// The text of a string that the steps of `path` lead to.
pub open spec fn text_at(payload: JsonView, path: Seq<Seq<char>>) -> Option<Seq<char>> {
    match payload.at(path) {
        Some(JsonView::Text(s)) => Some(s),
        _ => None,
    }
}

/// The label of a field that is 0 or 1; another number is shown as it is.
pub open spec fn label_of(payload: JsonView, field: u64, on: Seq<char>, off: Seq<char>) -> Option<
    Seq<char>,
> {
    match payload.at(seq![dec(field as nat)]) {
        Some(v) => match v.as_i64() {
            Some(n) => if n == 1 {
                Some(on)
            } else if n == 0 {
                Some(off)
            } else {
                Some("state "@ + dec_int(n as int))
            },
            None => None,
        },
        None => None,
    }
}

/// Two optional texts in one: the first with the second behind it, in the given
/// frame, or the one that is there.
pub open spec fn paired(
    first: Option<Seq<char>>,
    second: Option<Seq<char>>,
    between: Seq<char>,
    after: Seq<char>,
) -> Option<Seq<char>> {
    match (first, second) {
        (Some(a), Some(b)) => Some(a + between + b + after),
        (Some(a), None) => Some(a),
        (None, b) => b,
    }
}

/// The summary of a record of one of the streams whose fields are documented.
pub open spec fn named_summary(stream: Seq<char>, payload: JsonView) -> Option<Seq<char>> {
    if stream == "Device.ScreenLocked"@ || stream == "Device.KeybagLocked"@ {
        label_of(payload, 1, "Locked"@, "Unlocked"@)
    } else if stream == "CarPlay.Connected"@ {
        label_of(payload, 1, "Connected"@, "Disconnected"@)
    } else if stream == "Device.Wireless.AirplaneMode"@ || stream == "Device.Power.LowPowerMode"@ {
        label_of(payload, 1, "On"@, "Off"@)
    } else if stream == "Device.Wireless.CellularDataEnabled"@ {
        label_of(payload, 1, "Enabled"@, "Disabled"@)
    } else if stream == "Device.Power.PluggedIn"@ {
        label_of(payload, 1, "Plugged In"@, "Not Plugged In"@)
    } else if stream == "Device.Wireless.WiFi"@ {
        paired(
            text_at(payload, seq!["1"@, "utf8"@]),
            label_of(payload, 2, "Connected"@, "Disconnected"@),
            " ("@,
            ")"@,
        )
    } else if stream == "Device.TimeZone"@ {
        text_at(payload, seq!["2"@, "utf8"@])
    } else if stream == "Safari.Navigations"@ {
        text_at(payload, seq!["1"@, "utf8"@])
    } else if stream == "ProactiveHarvesting.Messages"@ {
        text_at(payload, seq!["10"@, "utf8"@])
    } else if stream == "ProactiveHarvesting.Mail"@ {
        text_at(payload, seq!["11"@, "utf8"@])
    } else if stream == "Messages.Read"@ {
        match payload.at(seq!["1"@]) {
            Some(id) => Some("message id "@ + json_text(id)),
            None => None,
        }
    } else if stream == "Device.Wireless.Bluetooth"@ {
        let mac = text_at(payload, seq!["1"@, "utf8"@]);
        let name = text_at(payload, seq!["2"@, "utf8"@]);
        if name is Some {
            paired(name, mac, " ("@, ")"@)
        } else {
            mac
        }
    } else if stream == "ScreenTime.AppUsage"@ {
        text_at(payload, seq!["3"@, "utf8"@])
    } else if stream == "Keyboard.TokenFrequency"@ {
        text_at(payload, seq!["1"@, "nested"@, "1"@, "utf8"@])
    } else if stream == "App.Intent"@ {
        paired(
            text_at(payload, seq!["2"@, "utf8"@]),
            text_at(payload, seq!["5"@, "utf8"@]),
            ": "@,
            ""@,
        )
    } else {
        None
    }
}

fn string_field(payload: &Json, path: &[&str]) -> (r: Option<String>)
    ensures
        opt_text(r) == text_at(payload@, path_view(path@)),
{
    match payload.text_at(path) {
        Some(s) => Some(s.clone()),
        None => None,
    }
}

fn field1(payload: &Json, a: &str) -> (r: Option<String>)
    ensures
        opt_text(r) == text_at(payload@, seq![a@, "utf8"@]),
{
    let path: [&str; 2] = [a, "utf8"];
    assert(path_view(path@) =~= seq![a@, "utf8"@]);
    string_field(payload, &path)
}

/// The label of a field that is 0 or 1; another number is shown as it is.
pub fn state_label(payload: &Json, field: u64, on: &str, off: &str) -> (r: Option<String>)
    ensures
        opt_text(r) == label_of(payload@, field, on@, off@),
{
    let name = dec_u64(field);
    let path: [&str; 1] = [name.as_str()];
    assert(path_view(path@) =~= seq![dec(field as nat)]);
    match payload.at(&path) {
        Some(v) => match v.as_i64() {
            Some(n) => if n == 1 {
                Some(on.to_owned())
            } else if n == 0 {
                Some(off.to_owned())
            } else {
                let mut text = "state ".to_owned();
                text.append(dec_i64(n).as_str());
                Some(text)
            },
            None => None,
        },
        None => None,
    }
}

fn pair(first: Option<String>, second: Option<String>, between: &str, after: &str) -> (r: Option<
    String,
>)
    ensures
        opt_text(r) == paired(opt_text(first), opt_text(second), between@, after@),
{
    match (first, second) {
        (Some(a), Some(b)) => {
            let mut text = a;
            text.append(between);
            text.append(b.as_str());
            text.append(after);
            Some(text)
        },
        (Some(a), None) => Some(a),
        (None, b) => b,
    }
}

/// The summary of a record of one of the streams whose fields are documented.
pub fn named_message_summary(stream: &str, payload: &Json) -> (r: Option<String>)
    ensures
        opt_text(r) == named_summary(stream@, payload@),
{
    if same(stream, "Device.ScreenLocked") || same(stream, "Device.KeybagLocked") {
        state_label(payload, 1, "Locked", "Unlocked")
    } else if same(stream, "CarPlay.Connected") {
        state_label(payload, 1, "Connected", "Disconnected")
    } else if same(stream, "Device.Wireless.AirplaneMode") || same(
        stream,
        "Device.Power.LowPowerMode",
    ) {
        state_label(payload, 1, "On", "Off")
    } else if same(stream, "Device.Wireless.CellularDataEnabled") {
        state_label(payload, 1, "Enabled", "Disabled")
    } else if same(stream, "Device.Power.PluggedIn") {
        state_label(payload, 1, "Plugged In", "Not Plugged In")
    } else if same(stream, "Device.Wireless.WiFi") {
        let ssid = field1(payload, "1");
        let state = state_label(payload, 2, "Connected", "Disconnected");
        pair(ssid, state, " (", ")")
    } else if same(stream, "Device.TimeZone") {
        field1(payload, "2")
    } else if same(stream, "Safari.Navigations") {
        field1(payload, "1")
    } else if same(stream, "ProactiveHarvesting.Messages") {
        field1(payload, "10")
    } else if same(stream, "ProactiveHarvesting.Mail") {
        field1(payload, "11")
    } else if same(stream, "Messages.Read") {
        let path: [&str; 1] = ["1"];
        assert(path_view(path@) =~= seq!["1"@]);
        match payload.at(&path) {
            Some(id) => {
                let mut text = "message id ".to_owned();
                text.append(id.to_text().as_str());
                Some(text)
            },
            None => None,
        }
    } else if same(stream, "Device.Wireless.Bluetooth") {
        let mac = field1(payload, "1");
        let name = field1(payload, "2");
        if name.is_some() {
            pair(name, mac, " (", ")")
        } else {
            mac
        }
    } else if same(stream, "ScreenTime.AppUsage") {
        field1(payload, "3")
    } else if same(stream, "Keyboard.TokenFrequency") {
        let path: [&str; 4] = ["1", "nested", "1", "utf8"];
        assert(path_view(path@) =~= seq!["1"@, "nested"@, "1"@, "utf8"@]);
        string_field(payload, &path)
    } else if same(stream, "App.Intent") {
        pair(field1(payload, "2"), field1(payload, "5"), ": ", "")
    } else {
        None
    }
}

/// The message of a record: its stream, and what is known of its payload. A
/// payload of zero bytes alone is what a deleted entry leaves behind.
pub open spec fn message_text(
    stream: Option<Seq<char>>,
    state: EntryState,
    bytes: Seq<u8>,
    payload: JsonView,
) -> Seq<char> {
    match stream {
        None => "[Peach] Biome record (stream undetermined from path)"@,
        Some(stream) => if all_zero(bytes) {
            "[Peach] "@ + stream + ": (no data — "@ + state_name(state) + " record, payload is "@
                + dec(bytes.len()) + " zero bytes)"@
        } else {
            let detail = match named_summary(stream, payload) {
                Some(text) => Some(text),
                None => payload_summary(payload),
            };
            match detail {
                Some(text) => "[Peach] "@ + stream + ": "@ + text,
                None => "[Peach] Biome stream: "@ + stream,
            }
        },
    }
}

/// The message of a record.
pub fn biome_message(
    stream: Option<&str>,
    state: EntryState,
    payload_bytes: &[u8],
    payload: &Json,
) -> (r: String)
    ensures
        r@ == message_text(
            match stream {
                Some(s) => Some(s@),
                None => None,
            },
            state,
            payload_bytes@,
            payload@,
        ),
{
    let stream = match stream {
        Some(s) => s,
        None => {
            return "[Peach] Biome record (stream undetermined from path)".to_owned();
        },
    };
    if is_all_zero(payload_bytes) {
        let mut text = "[Peach] ".to_owned();
        text.append(stream);
        text.append(": (no data — ");
        text.append(state.as_str());
        text.append(" record, payload is ");
        text.append(dec_u64(payload_bytes.len() as u64).as_str());
        text.append(" zero bytes)");
        return text;
    }
    let detail = match named_message_summary(stream, payload) {
        Some(text) => Some(text),
        None => render_payload_summary(payload),
    };
    match detail {
        Some(detail) => {
            let mut text = "[Peach] ".to_owned();
            text.append(stream);
            text.append(": ");
            text.append(detail.as_str());
            text
        },
        None => {
            let mut text = "[Peach] Biome stream: ".to_owned();
            text.append(stream);
            text
        },
    }
}

/// The bits of the date of a mail message: field 3 of a record of the mail
/// stream, an integer that holds the bits of a double.
pub open spec fn mail_date_bits_of(stream: Option<Seq<char>>, payload: JsonView) -> Option<u64> {
    if stream == Some("ProactiveHarvesting.Mail"@) {
        match payload.get("3"@) {
            Some(v) => match v.as_i64() {
                Some(n) => Some(
                    if n < 0 {
                        (n + 0x1_0000_0000_0000_0000) as u64
                    } else {
                        n as u64
                    },
                ),
                None => None,
            },
            None => None,
        }
    } else {
        None
    }
}

/// The bits of the date of a mail message, where a record has one.
pub fn mail_date_bits(stream: Option<&str>, payload: &Json) -> (r: Option<u64>)
    ensures
        r == mail_date_bits_of(
            match stream {
                Some(s) => Some(s@),
                None => None,
            },
            payload@,
        ),
{
    match stream {
        Some(stream) => if same(stream, "ProactiveHarvesting.Mail") {
            match payload.get("3") {
                Some(v) => match v.as_i64() {
                    Some(n) => if n < 0 {
                        Some((n as i128 + 0x1_0000_0000_0000_0000) as u64)
                    } else {
                        Some(n as u64)
                    },
                    None => None,
                },
                None => None,
            }
        } else {
            None
        },
        None => None,
    }
}

/// The fields of a record. The date of a mail message is added where `dates`
/// has one for its bits.
pub open spec fn record_fields(
    record: SegbRecordView,
    stream: Option<Seq<char>>,
    payload: JsonView,
    dates: Seq<(u64, Seq<char>)>,
) -> Seq<(Seq<char>, JsonView)> {
    let named = match stream {
        Some(s) => seq![("stream"@, JsonView::Text(s))],
        None => seq![],
    };
    let common = seq![
        ("entry_state"@, JsonView::Text(state_name(record.state))),
        ("crc_valid"@, JsonView::Bool(record.crc_valid)),
        ("record_offset"@, int_view(record.record_offset)),
        ("payload_hex"@, JsonView::Text(hex(record.payload))),
        ("payload"@, payload),
    ];
    let dated = match mail_date_bits_of(stream, payload) {
        Some(bits) => match found_text(dates, bits) {
            Some(date) => seq![("mail_message_date_utc"@, JsonView::Text(date))],
            None => seq![],
        },
        None => seq![],
    };
    named + common + dated
}

/// The record that an entry of a stream becomes.
pub open spec fn parsed_view(
    record: SegbRecordView,
    stream: Option<Seq<char>>,
    floats: Seq<(u64, Seq<char>)>,
    dates: Seq<(u64, Seq<char>)>,
) -> RecordView {
    let payload = message_object(message(record.payload, 0, MAX_DECODE_WORK as nat, floats));
    let fields = JsonView::Object(record_fields(record, stream, payload, dates));
    RecordView {
        timestamp_utc: record.timestamp_utc,
        level: None,
        message: Some(message_text(stream, record.state, record.payload, payload)),
        raw: json_text(fields),
        fields,
    }
}

/// The record that an entry of a stream becomes. `floats` gives the texts of
/// the floating-point numbers in its payload, and `dates` those of the dates of
/// mail messages.
pub fn segb_record_to_parsed_record(
    record: SegbRecord,
    stream: Option<&str>,
    floats: &FloatTexts,
    dates: &FloatTexts,
) -> (r: ParsedRecord)
    ensures
        r@ == parsed_view(
            record@,
            match stream {
                Some(s) => Some(s@),
                None => None,
            },
            floats@,
            dates@,
        ),
{
    let ghost sv = match stream {
        Some(s) => Some(s@),
        None => None,
    };
    let payload = decode_message(record.payload.as_slice(), floats);
    let message = biome_message(stream, record.state, record.payload.as_slice(), &payload);
    let date = match mail_date_bits(stream, &payload) {
        Some(bits) => dates.find(bits),
        None => None,
    };
    let ghost pv = payload@;
    let mut members: Vec<(String, Json)> = Vec::new();
    match stream {
        Some(s) => {
            members.push(("stream".to_owned(), Json::Text(s.to_owned())));
        },
        None => {},
    }
    members.push(("entry_state".to_owned(), Json::Text(record.state.as_str().to_owned())));
    members.push(("crc_valid".to_owned(), Json::Bool(record.crc_valid)));
    members.push(("record_offset".to_owned(), Json::Unsigned(record.record_offset)));
    members.push(("payload_hex".to_owned(), Json::Text(hex_encode(record.payload.as_slice()))));
    members.push(("payload".to_owned(), payload));
    match date {
        Some(date) => {
            members.push(("mail_message_date_utc".to_owned(), Json::Text(date)));
        },
        None => {},
    }
    assert(members_view(members@) =~= record_fields(record@, sv, pv, dates@));
    let fields = Json::Object(members);
    let raw = fields.to_text();
    ParsedRecord {
        timestamp_utc: record.timestamp_utc,
        level: None,
        message: Some(message),
        raw,
        fields,
    }
}

/// Why a file could not be parsed.
#[derive(Debug)]
pub enum BiomeError {
    /// The file is an envelope of the first variant.
    VersionOne,
    File(SegbError),
    /// The record with this number could not be read.
    Record { index: usize, reason: String },
}

/// The view of a [`BiomeError`].
#[verifier::ext_equal]
pub enum BiomeErrorView {
    VersionOne,
    File(SegbError),
    Record { index: int, reason: Seq<char> },
}

impl View for BiomeError {
    type V = BiomeErrorView;

    open spec fn view(&self) -> BiomeErrorView {
        match self {
            BiomeError::VersionOne => BiomeErrorView::VersionOne,
            BiomeError::File(e) => BiomeErrorView::File(*e),
            BiomeError::Record { index, reason } => BiomeErrorView::Record {
                index: *index as int,
                reason: reason@,
            },
        }
    }
}

/// A problem with a file, in words.
pub open spec fn biome_error_text(e: BiomeErrorView) -> Seq<char> {
    match e {
        BiomeErrorView::VersionOne =>
        "SEGB v1 file — not yet supported by Peach (only v2 is currently implemented; see docs/design/biome-rule-pack-research.md)"@,
        BiomeErrorView::File(e) => file_problem_text(e),
        BiomeErrorView::Record { index, reason } => "record "@ + dec(index as nat) + ": "@ + reason,
    }
}

impl BiomeError {
    /// The problem in words.
    pub fn message(&self) -> (r: String)
        ensures
            r@ == biome_error_text(self@),
    {
        match self {
            BiomeError::VersionOne =>
            "SEGB v1 file — not yet supported by Peach (only v2 is currently implemented; see docs/design/biome-rule-pack-research.md)".to_owned(),
            BiomeError::File(e) => e.message(),
            BiomeError::Record { index, reason } => {
                let mut text = "record ".to_owned();
                text.append(dec_u64(*index as u64).as_str());
                text.append(": ");
                text.append(reason.as_str());
                text
            },
        }
    }
}

/// The records among the outcomes.
pub open spec fn good_records(
    outcomes: Seq<EntryOutcome>,
    stream: Option<Seq<char>>,
    floats: Seq<(u64, Seq<char>)>,
    dates: Seq<(u64, Seq<char>)>,
) -> Seq<RecordView>
    decreases outcomes.len(),
{
    if outcomes.len() == 0 {
        seq![]
    } else {
        let before = good_records(outcomes.drop_last(), stream, floats, dates);
        match outcomes.last() {
            EntryOutcome::Record(record) => before.push(
                parsed_view(record, stream, floats, dates),
            ),
            _ => before,
        }
    }
}

/// What is left out of the outcomes, each with its number.
pub open spec fn bad_records(outcomes: Seq<EntryOutcome>) -> Seq<SkippedView>
    decreases outcomes.len(),
{
    if outcomes.len() == 0 {
        seq![]
    } else {
        let before = bad_records(outcomes.drop_last());
        match outcomes.last() {
            EntryOutcome::Record(_) => before,
            bad => before.push(
                SkippedView {
                    location: "record "@ + dec((outcomes.len() - 1) as nat),
                    reason: outcome_reason(bad),
                },
            ),
        }
    }
}

/// Whether `at` is the first outcome that is no record.
pub open spec fn is_first_bad(outcomes: Seq<EntryOutcome>, at: int) -> bool {
    &&& 0 <= at < outcomes.len()
    &&& !(outcomes[at] is Record)
    &&& forall|i: int| 0 <= i < at ==> #[trigger] outcomes[i] is Record
}

/// The parser for Biome streams.
pub struct BiomeParser;

impl BiomeParser {
    /// The kind of source that the parser is for.
    pub fn sourcetype(&self) -> (r: &'static str)
        ensures
            r@ == "biome"@,
    {
        "biome"
    }

    /// Parses one file. Where bad records are skipped, each is listed with its
    /// number; else the first one fails the file.
    pub fn parse(
        &self,
        path: &Vec<PathPart>,
        bytes: &[u8],
        times: &Vec<Result<Timestamp, String>>,
        floats: &FloatTexts,
        dates: &FloatTexts,
        skip_bad_records: bool,
    ) -> (r: Result<(Vec<ParsedRecord>, Vec<SkippedRecord>), BiomeError>)
        ensures
            ({
                let stream = stream_name(parts_view(path@));
                let outcomes = walk(bytes@, times@, sorted_slots(bytes@), 32, None);
                match r {
                    Ok((records, skipped)) => {
                        &&& version_of(bytes@) == Some(SegbVersion::V2)
                        &&& file_problem(bytes@) is None
                        &&& records_view(records@) == good_records(
                            outcomes,
                            stream,
                            floats@,
                            dates@,
                        )
                        &&& skipped_view(skipped@) == bad_records(outcomes)
                        &&& !skip_bad_records ==> skipped@.len() == 0
                    },
                    Err(e) => match e@ {
                        BiomeErrorView::VersionOne => version_of(bytes@) == Some(SegbVersion::V1),
                        BiomeErrorView::File(problem) => if version_of(bytes@) is None {
                            problem == SegbError::NotSegb
                        } else {
                            version_of(bytes@) == Some(SegbVersion::V2) && file_problem(bytes@)
                                == Some(problem)
                        },
                        BiomeErrorView::Record { index, reason } => {
                            &&& version_of(bytes@) == Some(SegbVersion::V2)
                            &&& file_problem(bytes@) is None
                            &&& !skip_bad_records
                            &&& is_first_bad(outcomes, index)
                            &&& reason == outcome_reason(outcomes[index])
                        },
                    },
                }
            }),
    {
        let stream = stream_name_from_path(path);
        match detect_version(bytes) {
            Ok(SegbVersion::V1) => {
                return Err(BiomeError::VersionOne);
            },
            Ok(SegbVersion::V2) => {},
            Err(e) => {
                return Err(BiomeError::File(e));
            },
        }
        let entries = match read_v2_records(bytes, times) {
            Ok(entries) => entries,
            Err(e) => {
                return Err(BiomeError::File(e));
            },
        };
        let ghost sv = opt_text(stream);
        let ghost outcomes = outcomes_view(entries@);
        let mut records: Vec<ParsedRecord> = Vec::new();
        let mut skipped: Vec<SkippedRecord> = Vec::new();
        let ghost all = entries@;
        let total: usize = entries.len();
        let mut index: usize = 0;
        for entry in it: entries
            invariant
                it.seq() == all,
                index == it.index(),
                all.len() == total,
                outcomes == outcomes_view(all),
                sv == opt_text(stream),
                sv == stream_name(parts_view(path@)),
                outcomes == walk(bytes@, times@, sorted_slots(bytes@), 32, None),
                version_of(bytes@) == Some(SegbVersion::V2),
                file_problem(bytes@) is None,
                records_view(records@) == good_records(
                    outcomes.take(index as int),
                    sv,
                    floats@,
                    dates@,
                ),
                skipped_view(skipped@) == bad_records(outcomes.take(index as int)),
                !skip_bad_records ==> skipped@.len() == 0,
                !skip_bad_records ==> forall|i: int|
                    0 <= i < index ==> #[trigger] outcomes[i] is Record,
        {
            let ghost records_before = records@;
            let ghost skipped_before = skipped@;
            proof {
                let next = outcomes.take(index + 1);
                assert(next.drop_last() == outcomes.take(index as int));
                assert(next.last() == outcome_view(all[index as int]));
            }
            match entry {
                Ok(record) => {
                    let stream_ref = match &stream {
                        Some(s) => Some(s.as_str()),
                        None => None,
                    };
                    let parsed = segb_record_to_parsed_record(record, stream_ref, floats, dates);
                    records.push(parsed);
                    assert(records_view(records@) =~= records_view(records_before).push(parsed@));
                },
                Err(e) => {
                    let reason = e.message();
                    if !skip_bad_records {
                        return Err(BiomeError::Record { index, reason });
                    }
                    let mut location = "record ".to_owned();
                    location.append(dec_u64(index as u64).as_str());
                    let bad = SkippedRecord { location, reason };
                    skipped.push(bad);
                    assert(skipped_view(skipped@) =~= skipped_view(skipped_before).push(bad@));
                },
            }
            index += 1;
        }
        assert(outcomes.take(index as int) == outcomes);
        Ok((records, skipped))
    }
}

/// Every outcome is either a record or listed as left out.
pub proof fn lemma_every_outcome_counts(
    outcomes: Seq<EntryOutcome>,
    stream: Option<Seq<char>>,
    floats: Seq<(u64, Seq<char>)>,
    dates: Seq<(u64, Seq<char>)>,
)
    ensures
        good_records(outcomes, stream, floats, dates).len() + bad_records(outcomes).len()
            == outcomes.len(),
    decreases outcomes.len(),
{
    if outcomes.len() > 0 {
        lemma_every_outcome_counts(outcomes.drop_last(), stream, floats, dates);
    }
}

/// The message of every record is marked as one that was made here.
pub proof fn lemma_messages_are_marked(
    record: SegbRecordView,
    stream: Option<Seq<char>>,
    floats: Seq<(u64, Seq<char>)>,
    dates: Seq<(u64, Seq<char>)>,
)
    ensures
        parsed_view(record, stream, floats, dates).message matches Some(m) && m.take(8)
            == "[Peach] "@,
{
    reveal_strlit("[Peach] ");
    reveal_strlit("[Peach] Biome stream: ");
    reveal_strlit("[Peach] Biome record (stream undetermined from path)");
    let m = parsed_view(record, stream, floats, dates).message->0;
    assert(m.take(8) =~= "[Peach] "@);
}

/// Whatever is made of it, the payload of a record is kept whole.
pub proof fn lemma_payload_is_kept(
    record: SegbRecordView,
    stream: Option<Seq<char>>,
    floats: Seq<(u64, Seq<char>)>,
    dates: Seq<(u64, Seq<char>)>,
)
    ensures
        parsed_view(record, stream, floats, dates).fields.get("payload_hex"@) == Some(
            JsonView::Text(hex(record.payload)),
        ),
{
    reveal_strlit("stream");
    reveal_strlit("entry_state");
    reveal_strlit("crc_valid");
    reveal_strlit("record_offset");
    reveal_strlit("payload_hex");
    assert("stream"@.len() == 6);
    assert("entry_state"@.len() == 11 && "entry_state"@[0] == 'e');
    assert("crc_valid"@.len() == 9);
    assert("record_offset"@.len() == 13);
    assert("payload_hex"@.len() == 11 && "payload_hex"@[0] == 'p');
    let fields = parsed_view(record, stream, floats, dates).fields->Object_0;
    let at = if stream is Some { 4int } else { 3int };
    assert(fields[at].0 == "payload_hex"@);
    lemma_first_place(fields, "payload_hex"@, at);
}

} // verus!
