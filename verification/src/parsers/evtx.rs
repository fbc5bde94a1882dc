//! Windows event logs: what the records of a file say.

use vstd::prelude::*;

use crate::json::{
    json_of, json_text, members_view, path_view, value_view, Json, JsonView,
};
use crate::model::{opt_text, records_view, ParsedRecord, RecordView};
use crate::parsers::evtx_templates::{
    event_payload, message_for, payload_of, render_for_event, scalar_of, scalar_text,
    templates_view, EvtxTemplate, TemplateView,
};
use crate::text::{dec, dec_u64};
use crate::time::Timestamp;

verus! {

/// A record of a file of events.
#[derive(Debug)]
pub struct EvtxRecord {
    pub event_record_id: u64,
    /// When it was written, as text in the form of RFC 3339.
    pub timestamp: String,
    pub data: Json,
}

/// The view of an [`EvtxRecord`].
pub struct EvtxRecordView {
    pub event_record_id: u64,
    pub timestamp: Seq<char>,
    pub data: JsonView,
}

impl View for EvtxRecord {
    type V = EvtxRecordView;

    open spec fn view(&self) -> EvtxRecordView {
        EvtxRecordView {
            event_record_id: self.event_record_id,
            timestamp: self.timestamp@,
            data: self.data@,
        }
    }
}

/// The instant of a text in the form of RFC 3339, or why it has none
/// (`chrono::DateTime::parse_from_rfc3339`).
pub uninterp spec fn rfc3339_instant(text: Seq<char>) -> Result<Timestamp, Seq<char>>;

/// `chrono::DateTime::parse_from_rfc3339` is a function of the text; which texts
/// it takes is left to the name.
#[verifier::external_body]
fn read_rfc3339(text: &str) -> (r: Result<Timestamp, String>)
    ensures
        match r {
            Ok(t) => rfc3339_instant(text@) == Ok::<Timestamp, Seq<char>>(t),
            Err(e) => rfc3339_instant(text@) == Err::<Timestamp, Seq<char>>(e@),
        },
{
    chrono::DateTime::parse_from_rfc3339(text)
        .map(|t| Timestamp { seconds: t.timestamp(), nanos: t.timestamp_subsec_nanos() })
        .map_err(|e| e.to_string())
}

/// The instant of a time of a record, or why it has none.
pub open spec fn record_instant(text: Seq<char>) -> Result<Timestamp, Seq<char>> {
    match rfc3339_instant(text) {
        Ok(t) => Ok(t),
        Err(e) => Err("'"@ + text + "' is not valid RFC3339: "@ + e),
    }
}

/// The instant of a time of a record, or why it has none.
pub fn jiff_timestamp_to_utc(text: &str) -> (r: Result<Timestamp, String>)
    ensures
        match r {
            Ok(t) => record_instant(text@) == Ok::<Timestamp, Seq<char>>(t),
            Err(e) => record_instant(text@) == Err::<Timestamp, Seq<char>>(e@),
        },
{
    match read_rfc3339(text) {
        Ok(t) => Ok(t),
        Err(reason) => {
            let mut e = "'".to_owned();
            e.append(text);
            e.append("' is not valid RFC3339: ");
            e.append(reason.as_str());
            Err(e)
        },
    }
}

/// The text of a value on the way that the steps lead, if it has a text of one
/// line.
pub open spec fn scalar_at(data: JsonView, path: Seq<Seq<char>>) -> Option<Seq<char>> {
    match data.at(path) {
        Some(v) => scalar_of(v),
        None => None,
    }
}

/// The message made from a template for a record.
pub open spec fn made_message(templates: Seq<TemplateView>, data: JsonView) -> Option<Seq<char>> {
    match data.at(seq!["Event"@, "System"@, "Provider_attributes"@, "Name"@]) {
        Some(JsonView::Text(provider)) => match data.at(seq!["Event"@, "System"@, "EventID"@]) {
            Some(JsonView::Unsigned(id)) => message_for(
                templates,
                provider,
                id as u32,
                match data.get("Event"@) {
                    Some(event) => payload_of(event),
                    None => None,
                },
            ),
            _ => None,
        },
        _ => None,
    }
}

/// What a record says: the message that it carries, else one made from a
/// template.
pub open spec fn record_message(templates: Seq<TemplateView>, data: JsonView) -> Option<Seq<char>> {
    match scalar_at(data, seq!["Event"@, "RenderingInfo"@, "Message"@]) {
        Some(s) => Some(s),
        None => made_message(templates, data),
    }
}

/// The fields of a record: its number and all of its event.
pub open spec fn record_fields(id: u64, data: JsonView) -> JsonView {
    JsonView::Object(
        seq![
            ("event_record_id"@, JsonView::Unsigned(id)),
            (
                "Event"@,
                match data.get("Event"@) {
                    Some(event) => event,
                    None => JsonView::Null,
                },
            ),
        ],
    )
}

/// `record n: ` and a reason.
pub open spec fn at_record(n: nat, reason: Seq<char>) -> Seq<char> {
    "record "@ + dec(n) + ": "@ + reason
}

/// The record of an event, or why there is none.
pub open spec fn evtx_record(templates: Seq<TemplateView>, record: EvtxRecordView) -> Result<
    RecordView,
    Seq<char>,
> {
    match record_instant(record.timestamp) {
        Err(e) => Err(at_record(record.event_record_id as nat, "invalid timestamp: "@ + e)),
        Ok(timestamp_utc) => Ok(
            RecordView {
                timestamp_utc,
                level: scalar_at(record.data, seq!["Event"@, "System"@, "Level"@]),
                message: record_message(templates, record.data),
                raw: json_text(record_fields(record.event_record_id, record.data)),
                fields: record_fields(record.event_record_id, record.data),
            },
        ),
    }
}

/// The text of a value, if it has a text of one line.
pub fn json_value_to_plain_string(value: &Json) -> (r: Option<String>)
    ensures
        opt_text(r) == scalar_of(value@),
{
    scalar_text(value)
}

fn plain_at(data: &Json, path: &[&str]) -> (r: Option<String>)
    ensures
        opt_text(r) == scalar_at(data@, path_view(path@)),
{
    match data.at(path) {
        Some(v) => json_value_to_plain_string(v),
        None => None,
    }
}

/// The message made from a template for a record.
pub fn template_rendered_message(templates: &Vec<EvtxTemplate>, data: &Json) -> (r: Option<String>)
    ensures
        opt_text(r) == made_message(templates_view(templates@), data@),
{
    let name_path: [&str; 4] = ["Event", "System", "Provider_attributes", "Name"];
    assert(path_view(name_path@) =~= seq![
        "Event"@,
        "System"@,
        "Provider_attributes"@,
        "Name"@,
    ]);
    let id_path: [&str; 3] = ["Event", "System", "EventID"];
    assert(path_view(id_path@) =~= seq!["Event"@, "System"@, "EventID"@]);
    let provider = match data.at(&name_path) {
        Some(Json::Text(provider)) => provider,
        _ => {
            return None;
        },
    };
    let id: u64 = match data.at(&id_path) {
        Some(Json::Unsigned(id)) => *id,
        _ => {
            return None;
        },
    };
    let payload = match data.get("Event") {
        Some(event) => event_payload(event),
        None => None,
    };
    render_for_event(templates, provider.as_str(), id as u32, payload)
}

/// The record of an event, or why there is none.
pub fn to_parsed_record(templates: &Vec<EvtxTemplate>, record: &EvtxRecord) -> (r: Result<
    ParsedRecord,
    String,
>)
    ensures
        match r {
            Ok(p) => evtx_record(templates_view(templates@), record@) == Ok::<
                RecordView,
                Seq<char>,
            >(p@),
            Err(e) => evtx_record(templates_view(templates@), record@) == Err::<
                RecordView,
                Seq<char>,
            >(e@),
        },
{
    let timestamp_utc = match jiff_timestamp_to_utc(record.timestamp.as_str()) {
        Ok(t) => t,
        Err(reason) => {
            let mut e = "record ".to_owned();
            e.append(dec_u64(record.event_record_id).as_str());
            e.append(": ");
            let mut inner = "invalid timestamp: ".to_owned();
            inner.append(reason.as_str());
            e.append(inner.as_str());
            return Err(e);
        },
    };
    let level_path: [&str; 3] = ["Event", "System", "Level"];
    assert(path_view(level_path@) =~= seq!["Event"@, "System"@, "Level"@]);
    let message_path: [&str; 3] = ["Event", "RenderingInfo", "Message"];
    assert(path_view(message_path@) =~= seq!["Event"@, "RenderingInfo"@, "Message"@]);
    let level = plain_at(&record.data, &level_path);
    let message = match plain_at(&record.data, &message_path) {
        Some(s) => Some(s),
        None => template_rendered_message(templates, &record.data),
    };
    let event = match record.data.get("Event") {
        Some(event) => event.clone(),
        None => Json::Null,
    };
    let mut members: Vec<(String, Json)> = Vec::new();
    members.push(("event_record_id".to_owned(), Json::Unsigned(record.event_record_id)));
    members.push(("Event".to_owned(), event));
    let fields = Json::Object(members);
    proof {
        let want = record_fields(record.event_record_id, record.data@);
        assert(members_view(members@) =~= want->Object_0);
    }
    Ok(ParsedRecord { timestamp_utc, level, message, raw: fields.to_text(), fields })
}

/// A record as the `evtx` crate reads it.
pub struct RawEvtxRecord {
    pub event_record_id: u64,
    pub timestamp: String,
    pub data: serde_json::Value,
}

/// The view of a raw record.
pub open spec fn raw_view(r: RawEvtxRecord) -> EvtxRecordView {
    EvtxRecordView {
        event_record_id: r.event_record_id,
        timestamp: r.timestamp@,
        data: value_view(r.data),
    }
}

/// The view of a raw record or of the reason why it cannot be read.
pub open spec fn raw_result_view(r: Result<RawEvtxRecord, String>) -> Result<
    EvtxRecordView,
    Seq<char>,
> {
    match r {
        Ok(r) => Ok(raw_view(r)),
        Err(e) => Err(e@),
    }
}

/// The views of a list of raw records or reasons.
pub open spec fn raws_view(v: Seq<Result<RawEvtxRecord, String>>) -> Seq<
    Result<EvtxRecordView, Seq<char>>,
> {
    v.map_values(|r: Result<RawEvtxRecord, String>| raw_result_view(r))
}

/// The records of a file of events, each read or with the reason why it cannot
/// be, or why the file cannot be opened (`evtx::EvtxParser`, with attributes in
/// members of their own).
pub uninterp spec fn evtx_contents(bytes: Seq<u8>) -> Result<
    Seq<Result<EvtxRecordView, Seq<char>>>,
    Seq<char>,
>;

/// `evtx::EvtxParser::from_buffer` and `records_json_value`, with
/// `separate_json_attributes`: what it reads is a function of the bytes. What
/// the format is, is left to the name, and that the crate comes back from every
/// file that is damaged is left unsaid.
#[verifier::external_body]
fn read_evtx(bytes: Vec<u8>) -> (r: Result<Vec<Result<RawEvtxRecord, String>>, String>)
    ensures
        match r {
            Ok(v) => evtx_contents(bytes@) == Ok::<
                Seq<Result<EvtxRecordView, Seq<char>>>,
                Seq<char>,
            >(raws_view(v@)),
            Err(e) => evtx_contents(bytes@) == Err::<
                Seq<Result<EvtxRecordView, Seq<char>>>,
                Seq<char>,
            >(e@),
        },
{
    let settings = evtx::ParserSettings::new().separate_json_attributes(true);
    let parser = evtx::EvtxParser::from_buffer(bytes).map_err(|e| e.to_string())?;
    let mut parser = parser.with_configuration(settings);
    let record = |r: evtx::SerializedEvtxRecord<serde_json::Value>| RawEvtxRecord {
        event_record_id: r.event_record_id,
        timestamp: r.timestamp.to_string(),
        data: r.data,
    };
    let all = parser.records_json_value();
    Ok(all.map(|r| r.map(record).map_err(|e| e.to_string())).collect())
}

/// The records of a file with these contents, or why one has none. The number of
/// a record that cannot be read is counted from 0.
pub open spec fn contents_records(
    templates: Seq<TemplateView>,
    contents: Seq<Result<EvtxRecordView, Seq<char>>>,
) -> Result<Seq<RecordView>, Seq<char>>
    decreases contents.len(),
{
    if contents.len() == 0 {
        Ok(seq![])
    } else {
        match contents_records(templates, contents.drop_last()) {
            Err(e) => Err(e),
            Ok(before) => match contents.last() {
                Err(e) => Err(at_record((contents.len() - 1) as nat, "failed to parse: "@ + e)),
                Ok(record) => match evtx_record(templates, record) {
                    Err(e) => Err(e),
                    Ok(r) => Ok(before.push(r)),
                },
            },
        }
    }
}

/// The records of a file of events, or why it has none.
pub open spec fn evtx_records(templates: Seq<TemplateView>, bytes: Seq<u8>) -> Result<
    Seq<RecordView>,
    Seq<char>,
> {
    match evtx_contents(bytes) {
        Err(e) => Err("failed to open EVTX file: "@ + e),
        Ok(contents) => contents_records(templates, contents),
    }
}

proof fn lemma_contents_fail(
    templates: Seq<TemplateView>,
    contents: Seq<Result<EvtxRecordView, Seq<char>>>,
    n: int,
)
    requires
        0 <= n <= contents.len(),
        contents_records(templates, contents.take(n)) is Err,
    ensures
        contents_records(templates, contents) == contents_records(templates, contents.take(n)),
    decreases contents.len(),
{
    if n < contents.len() {
        assert(contents.drop_last().take(n) == contents.take(n));
        lemma_contents_fail(templates, contents.drop_last(), n);
    } else {
        assert(contents.take(n) == contents);
    }
}

/// The view of a record or of the reason why it cannot be read.
pub open spec fn result_view(r: Result<EvtxRecord, String>) -> Result<EvtxRecordView, Seq<char>> {
    match r {
        Ok(r) => Ok(r@),
        Err(e) => Err(e@),
    }
}

/// The views of a list of records or reasons.
pub open spec fn results_view(v: Seq<Result<EvtxRecord, String>>) -> Seq<
    Result<EvtxRecordView, Seq<char>>,
> {
    v.map_values(|r: Result<EvtxRecord, String>| result_view(r))
}

/// The records of a file with these contents, or why one has none.
pub fn records_of_contents(
    templates: &Vec<EvtxTemplate>,
    contents: &Vec<Result<EvtxRecord, String>>,
) -> (r: Result<Vec<ParsedRecord>, String>)
    ensures
        match r {
            Ok(v) => contents_records(templates_view(templates@), results_view(contents@)) == Ok::<
                Seq<RecordView>,
                Seq<char>,
            >(records_view(v@)),
            Err(e) => contents_records(templates_view(templates@), results_view(contents@))
                == Err::<Seq<RecordView>, Seq<char>>(e@),
        },
{
    let ghost all = results_view(contents@);
    let ghost tv = templates_view(templates@);
    let mut r: Vec<ParsedRecord> = Vec::new();
    let mut i: usize = 0;
    assert(records_view(r@) =~= seq![]);
    while i < contents.len()
        invariant
            i <= contents.len(),
            all == results_view(contents@),
            tv == templates_view(templates@),
            contents_records(tv, all.take(i as int)) == Ok::<Seq<RecordView>, Seq<char>>(
                records_view(r@),
            ),
        decreases contents.len() - i,
    {
        let ghost before = r@;
        proof {
            let next = all.take(i + 1);
            assert(next.drop_last() == all.take(i as int));
            assert(next.last() == result_view(contents@[i as int]));
        }
        match &contents[i] {
            Err(reason) => {
                let mut e = "record ".to_owned();
                e.append(dec_u64(i as u64).as_str());
                e.append(": ");
                let mut inner = "failed to parse: ".to_owned();
                inner.append(reason.as_str());
                e.append(inner.as_str());
                proof {
                    lemma_contents_fail(tv, all, i + 1);
                }
                return Err(e);
            },
            Ok(record) => match to_parsed_record(templates, record) {
                Ok(parsed) => {
                    let ghost pv = parsed@;
                    r.push(parsed);
                    assert(records_view(r@) =~= records_view(before).push(pv));
                },
                Err(e) => {
                    proof {
                        lemma_contents_fail(tv, all, i + 1);
                    }
                    return Err(e);
                },
            },
        }
        i += 1;
    }
    assert(all.take(i as int) == all);
    Ok(r)
}

/// The parser for Windows event logs.
#[derive(Debug)]
pub struct EvtxFileParser;

impl EvtxFileParser {
    /// The kind of source that the parser is for.
    pub fn sourcetype(&self) -> (r: &'static str)
        ensures
            r@ == "evtx"@,
    {
        "evtx"
    }

    /// Parses the bytes of a file of events.
    pub fn parse(&self, templates: &Vec<EvtxTemplate>, bytes: Vec<u8>) -> (r: Result<
        Vec<ParsedRecord>,
        String,
    >)
        ensures
            match r {
                Ok(v) => evtx_records(templates_view(templates@), bytes@) == Ok::<
                    Seq<RecordView>,
                    Seq<char>,
                >(records_view(v@)),
                Err(e) => evtx_records(templates_view(templates@), bytes@) == Err::<
                    Seq<RecordView>,
                    Seq<char>,
                >(e@),
            },
    {
        let raw = match read_evtx(bytes) {
            Ok(raw) => raw,
            Err(reason) => {
                let mut e = "failed to open EVTX file: ".to_owned();
                e.append(reason.as_str());
                return Err(e);
            },
        };
        let ghost all = raw@;
        let mut contents: Vec<Result<EvtxRecord, String>> = Vec::new();
        for item in it: raw
            invariant
                it.seq() == all,
                contents.len() == it.index(),
                forall|j: int|
                    0 <= j < contents.len() ==> result_view(#[trigger] contents@[j])
                        == raw_result_view(all[j]),
        {
            match item {
                Ok(r) => {
                    contents.push(
                        Ok(
                            EvtxRecord {
                                event_record_id: r.event_record_id,
                                timestamp: r.timestamp,
                                data: json_of(r.data),
                            },
                        ),
                    );
                },
                Err(e) => {
                    contents.push(Err(e));
                },
            }
        }
        assert(results_view(contents@) =~= raws_view(all));
        records_of_contents(templates, &contents)
    }
}

/// A message that an event carries is never replaced by one made from a template.
pub proof fn lemma_carried_message_wins(
    templates: Seq<TemplateView>,
    data: JsonView,
    message: Seq<char>,
)
    requires
        data.at(seq!["Event"@, "RenderingInfo"@, "Message"@]) == Some(JsonView::Text(message)),
    ensures
        record_message(templates, data) == Some(message),
{
}

} // verus!
