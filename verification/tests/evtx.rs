//! Windows event logs.

use peach::json::parse_json;
use peach::parsers::evtx::{
    jiff_timestamp_to_utc, records_of_contents, to_parsed_record, EvtxFileParser, EvtxRecord,
};
use peach::parsers::evtx_templates::{built_in_templates, RENDERED_PREFIX};
use peach::time::Timestamp;

fn sample_record(event_record_id: u64, seconds: i64, data: &str) -> EvtxRecord {
    EvtxRecord {
        event_record_id,
        timestamp: jiff::Timestamp::from_second(seconds).unwrap().to_string(),
        data: parse_json(data).unwrap(),
    }
}

#[test]
fn sourcetype_is_evtx() {
    assert_eq!(EvtxFileParser.sourcetype(), "evtx");
}

#[test]
fn jiff_timestamp_converts_to_the_same_instant_in_utc() {
    let ts = jiff::Timestamp::from_second(1_735_689_600).unwrap(); // 2025-01-01T00:00:00Z
    let converted = jiff_timestamp_to_utc(&ts.to_string()).unwrap();
    let want = chrono::DateTime::parse_from_rfc3339("2025-01-01T00:00:00Z").unwrap();
    assert_eq!(converted, Timestamp { seconds: want.timestamp(), nanos: 0 });
}

#[test]
fn fractions_and_offsets_of_a_time_are_kept() {
    assert_eq!(
        jiff_timestamp_to_utc("2025-01-01T01:00:00.25+01:00").unwrap(),
        Timestamp { seconds: 1_735_689_600, nanos: 250_000_000 }
    );
    let err = jiff_timestamp_to_utc("yesterday").unwrap_err();
    assert!(err.starts_with("'yesterday' is not valid RFC3339: "));
}

#[test]
fn level_is_taken_verbatim_as_a_plain_string() {
    let record = sample_record(1, 0, "{\"Event\": {\"System\": {\"Level\": 2}}}");

    let parsed = to_parsed_record(&built_in_templates().unwrap(), &record).unwrap();

    assert_eq!(parsed.level.as_deref(), Some("2"));
}

#[test]
fn message_is_none_without_rendering_info_or_a_matching_template() {
    let record = sample_record(
        1,
        0,
        "{\"Event\": {\"System\": {}, \"EventData\": {\"TargetUserName\": \"bob\"}}}",
    );

    let parsed = to_parsed_record(&built_in_templates().unwrap(), &record).unwrap();

    assert_eq!(parsed.message, None);
}

#[test]
fn message_falls_back_to_a_built_in_template_when_the_provider_and_event_id_match() {
    let record = sample_record(
        1,
        0,
        "{\"Event\": {\"System\": {\"Provider_attributes\": {\"Name\": \"Microsoft-Windows-Security-Auditing\"}, \"EventID\": 4624}, \"EventData\": {\"TargetUserName\": \"bob\", \"TargetDomainName\": \"CORP\"}}}",
    );

    let parsed = to_parsed_record(&built_in_templates().unwrap(), &record).unwrap();

    let message = parsed.message.expect("expected a template-rendered message");
    assert!(
        message.starts_with(RENDERED_PREFIX),
        "template-rendered messages must be visibly marked as Peach's own \
         reconstruction, not source-provided text: {message}"
    );
    assert!(message.contains("bob"));
    assert!(message.contains("CORP"));
}

#[test]
fn rendering_info_message_takes_precedence_over_a_matching_template() {
    let record = sample_record(
        1,
        0,
        "{\"Event\": {\"System\": {\"Provider_attributes\": {\"Name\": \"Microsoft-Windows-Security-Auditing\"}, \"EventID\": 4624}, \"EventData\": {\"TargetUserName\": \"bob\"}, \"RenderingInfo\": {\"Message\": \"the real, source-provided text\"}}}",
    );

    let parsed = to_parsed_record(&built_in_templates().unwrap(), &record).unwrap();

    assert_eq!(
        parsed.message.as_deref(),
        Some("the real, source-provided text")
    );
}

#[test]
fn message_is_taken_from_rendering_info_when_present() {
    let record = sample_record(
        1,
        0,
        "{\"Event\": {\"System\": {}, \"RenderingInfo\": {\"Message\": \"An account failed to log on.\", \"Level\": \"Information\"}}}",
    );

    let parsed = to_parsed_record(&built_in_templates().unwrap(), &record).unwrap();

    assert_eq!(
        parsed.message.as_deref(),
        Some("An account failed to log on.")
    );
}

#[test]
fn raw_and_fields_carry_the_event_record_id_and_full_event() {
    let record = sample_record(42, 0, "{\"Event\": {\"System\": {\"EventID\": 4625}}}");

    let parsed = to_parsed_record(&built_in_templates().unwrap(), &record).unwrap();

    assert_eq!(parsed.fields.get("event_record_id").and_then(|v| v.as_u64()), Some(42));
    assert_eq!(
        parsed.fields.at(&["Event", "System", "EventID"]).and_then(|v| v.as_u64()),
        Some(4625)
    );
    assert!(parsed.raw.contains("4625"));
    assert_eq!(
        parsed.raw,
        "{\"event_record_id\":42,\"Event\":{\"System\":{\"EventID\":4625}}}"
    );
}

#[test]
fn missing_level_is_none_not_an_error() {
    let record = sample_record(1, 0, "{\"Event\": {\"System\": {}}}");

    let parsed = to_parsed_record(&built_in_templates().unwrap(), &record).unwrap();

    assert_eq!(parsed.level, None);
}

#[test]
fn an_event_without_a_payload_object_uses_the_user_data() {
    let record = sample_record(
        7,
        0,
        "{\"Event\": {\"System\": {\"Provider_attributes\": {\"Name\": \"Microsoft-Windows-TerminalServices-LocalSessionManager\"}, \"EventID\": 23}, \"UserData\": {\"EventXML\": {\"User\": \"H\\\\a\", \"SessionID\": 2}}}}",
    );
    let parsed = to_parsed_record(&built_in_templates().unwrap(), &record).unwrap();
    assert_eq!(parsed.message.as_deref(), Some("[Peach] Session 2 of H\\a closed"));
}

#[test]
fn only_the_lowest_bits_of_an_event_number_count() {
    let record = sample_record(
        1,
        0,
        "{\"Event\": {\"System\": {\"Provider_attributes\": {\"Name\": \"Microsoft-Windows-Security-Auditing\"}, \"EventID\": 4294971930}}}",
    );
    // 4294971930 is 2^32 + 4634.
    let parsed = to_parsed_record(&built_in_templates().unwrap(), &record).unwrap();
    assert!(parsed.message.unwrap().starts_with("[Peach] Logoff of "));
}

#[test]
fn a_record_without_a_valid_time_is_an_error_with_its_number() {
    let mut record = sample_record(9, 0, "{}");
    record.timestamp = "never".to_string();
    let err = to_parsed_record(&built_in_templates().unwrap(), &record).unwrap_err();
    assert!(err.starts_with("record 9: invalid timestamp: 'never' is not valid RFC3339: "));
}

#[test]
fn the_first_record_that_cannot_be_read_fails_the_file() {
    let contents = vec![
        Ok(sample_record(1, 0, "{}")),
        Err("bad chunk".to_string()),
        Ok(sample_record(3, 0, "{}")),
    ];
    let err = records_of_contents(&built_in_templates().unwrap(), &contents).unwrap_err();
    assert_eq!(err, "record 1: failed to parse: bad chunk");
    let good = vec![Ok(sample_record(1, 0, "{}")), Ok(sample_record(3, 5, "{}"))];
    let records = records_of_contents(&built_in_templates().unwrap(), &good).unwrap();
    assert_eq!(records.len(), 2);
    assert_eq!(records[1].timestamp_utc, Timestamp { seconds: 5, nanos: 0 });
    assert_eq!(records[0].raw, "{\"event_record_id\":1,\"Event\":null}");
}

#[test]
fn bytes_that_are_no_event_file_cannot_be_opened() {
    let err = EvtxFileParser.parse(&built_in_templates().unwrap(), b"not an event file".to_vec()).unwrap_err();
    assert!(err.starts_with("failed to open EVTX file: "));
}

#[test]
fn a_file_with_a_header_and_no_chunks_has_no_records() {
    let mut bytes = vec![0u8; 4096];
    bytes[..8].copy_from_slice(b"ElfFile\0");
    bytes[32..36].copy_from_slice(&128u32.to_le_bytes());
    bytes[36..38].copy_from_slice(&1u16.to_le_bytes());
    bytes[38..40].copy_from_slice(&3u16.to_le_bytes());
    bytes[40..42].copy_from_slice(&4096u16.to_le_bytes());
    let records = EvtxFileParser.parse(&built_in_templates().unwrap(), bytes).unwrap();
    assert!(records.is_empty());
}
