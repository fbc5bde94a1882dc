//! Streams of Biome.

use peach::double::FloatTexts;
use peach::json::{parse_json, Json};
use peach::model::{ParsedRecord, PathPart, SkippedRecord};
use peach::parsers::biome::segb::{trailer_times, EntryState, SegbError, SegbRecord};
use peach::parsers::biome::{
    biome_message, is_all_zero, is_segb_candidate, mail_date_bits, named_message_summary,
    segb_record_to_parsed_record, state_label, stream_name_from_path, BiomeError, BiomeParser,
};
use peach::time::Timestamp;

/// The parts of a path with slashes between its steps.
fn path(text: &str) -> Vec<PathPart> {
    text.split('/')
        .map(|step| PathPart { text: Some(step.to_string()), is_name: true })
        .collect()
}

fn json(text: &str) -> Json {
    parse_json(text).unwrap()
}

fn no_texts() -> FloatTexts {
    FloatTexts { entries: Vec::new() }
}

/// The instants of the trailer's times, counted from 2001.
fn times(bytes: &[u8]) -> Vec<Result<Timestamp, String>> {
    match trailer_times(bytes) {
        Ok(all) => all
            .iter()
            .map(|bits| {
                Ok(Timestamp { seconds: f64::from_bits(*bits) as i64 + 978_307_200, nanos: 0 })
            })
            .collect(),
        Err(_) => Vec::new(),
    }
}

fn parse(
    file: &str,
    bytes: &[u8],
    skip: bool,
) -> Result<(Vec<ParsedRecord>, Vec<SkippedRecord>), BiomeError> {
    BiomeParser.parse(&path(file), bytes, &times(bytes), &no_texts(), &no_texts(), skip)
}

fn text_of<'a>(fields: &'a Json, key: &str) -> Option<&'a str> {
    fields.get(key).and_then(|v| v.as_text()).map(|s| s.as_str())
}

/// A file with one record in a given state and one payload.
fn file_with(payload: &[u8], state: i32) -> Vec<u8> {
    let crc = crc32fast::hash(payload);
    let mut entry = Vec::new();
    entry.extend_from_slice(&crc.to_le_bytes());
    entry.extend_from_slice(&0i32.to_le_bytes());
    entry.extend_from_slice(payload);
    let end_offset = entry.len() as i32;

    let mut out = Vec::new();
    out.extend_from_slice(b"SEGB");
    out.extend_from_slice(&1i32.to_le_bytes());
    out.extend_from_slice(&0f64.to_le_bytes());
    out.extend_from_slice(&[0u8; 16]);
    out.extend_from_slice(&entry);
    out.extend_from_slice(&end_offset.to_le_bytes());
    out.extend_from_slice(&state.to_le_bytes());
    out.extend_from_slice(&0f64.to_le_bytes());
    out
}

/// A file with one written record whose payload is one number in field 1.
fn minimal_segb2(value: u64) -> Vec<u8> {
    let mut payload = Vec::new();
    payload.push(0x08);
    let mut v = value;
    loop {
        let byte = (v & 0x7F) as u8;
        v >>= 7;
        if v == 0 {
            payload.push(byte);
            break;
        }
        payload.push(byte | 0x80);
    }
    file_with(&payload, 1)
}

#[test]
fn sourcetype_is_biome() {
    assert_eq!(BiomeParser.sourcetype(), "biome");
}

#[test]
fn stream_name_from_path_derives_from_local_leaf() {
    let path = path("restricted/Device.Wireless.Bluetooth/local/00001.segb");
    assert_eq!(
        stream_name_from_path(&path),
        Some("Device.Wireless.Bluetooth".to_string())
    );
}

#[test]
fn stream_name_from_path_derives_from_remote_leaf_case_insensitively() {
    let path = path("public/App.Activity/REMOTE/00001.segb");
    assert_eq!(
        stream_name_from_path(&path),
        Some("App.Activity".to_string())
    );
}

#[test]
fn stream_name_from_path_falls_back_to_parent_dir_without_a_local_remote_leaf() {
    let path = path("SomeStream/file.segb");
    assert_eq!(stream_name_from_path(&path), Some("SomeStream".to_string()));
}

#[test]
fn stream_name_from_path_is_none_for_too_few_components() {
    assert_eq!(stream_name_from_path(&path("file.segb")), None);
}

#[test]
fn is_segb_candidate_requires_a_local_or_remote_parent() {
    assert!(is_segb_candidate(&path("restricted/Device.ScreenLocked/local/0")));
    assert!(is_segb_candidate(&path("restricted/Device.ScreenLocked/REMOTE/0")));
    assert!(!is_segb_candidate(&path("restricted/Device.ScreenLocked/lock")));
    assert!(!is_segb_candidate(&path("restricted/Device.ScreenLocked/metadata")));
}

#[test]
fn is_segb_candidate_excludes_hidden_and_tombstone_entries() {
    assert!(!is_segb_candidate(&path("restricted/Device.ScreenLocked/local/.DS_Store")));
    assert!(!is_segb_candidate(&path("restricted/Device.ScreenLocked/local/tombstone/0")));
}

#[test]
fn parses_a_single_realistic_segb_file() {
    let (records, skipped) =
        parse("restricted/Device.ScreenLocked/local/0.segb", &minimal_segb2(1), false).unwrap();

    assert!(skipped.is_empty());
    assert_eq!(records.len(), 1);
    assert_eq!(text_of(&records[0].fields, "stream"), Some("Device.ScreenLocked"));
    assert_eq!(text_of(&records[0].fields, "entry_state"), Some("written"));
    assert_eq!(records[0].fields.get("crc_valid"), Some(&Json::Bool(true)));
    assert_eq!(
        records[0].fields.at(&["payload", "1"]).and_then(|v| v.as_i64()),
        Some(1)
    );
    assert_eq!(
        records[0].message.as_deref(),
        Some("[Peach] Device.ScreenLocked: Locked")
    );
    assert_eq!(records[0].timestamp_utc, Timestamp { seconds: 978_307_200, nanos: 0 });
}

#[test]
fn a_non_segb_file_is_a_hard_failure_by_default_and_recorded_when_skipping() {
    let file = "restricted/Some.Stream/local/0.segb";
    let result = parse(file, b"not a segb file at all", false);
    assert!(result.is_err());

    // Skipping bad records does not help a file that is none.
    let result = parse(file, b"not a segb file at all", true);
    assert!(matches!(result, Err(BiomeError::File(SegbError::NotSegb))));
}

#[test]
fn a_segb_v1_file_produces_a_clear_not_yet_supported_error() {
    let mut v1_header = vec![0u8; 56];
    v1_header[52..56].copy_from_slice(b"SEGB");

    let result = parse("restricted/Some.Stream/local/0.segb", &v1_header, false);
    let err = result.unwrap_err();
    assert!(err.message().contains("v1"));
}

#[test]
fn deleted_records_still_appear_rather_than_vanishing() {
    let payload = vec![0x08, 0x01]; // field 1 = 1
    let bytes = file_with(&payload, 3);

    let (records, _) = parse("restricted/Some.Stream/local/0.segb", &bytes, false).unwrap();

    assert_eq!(records.len(), 1);
    assert_eq!(text_of(&records[0].fields, "entry_state"), Some("deleted"));
    // The payload is still decoded even though the record is deleted.
    assert_eq!(
        records[0].fields.at(&["payload", "1"]).and_then(|v| v.as_i64()),
        Some(1)
    );
}

#[test]
fn precompute_derived_fields_decodes_proactive_mail_message_date() {
    let cocoa_seconds = 1_700_000_000f64 - 978_307_200.0;
    let raw_bits = cocoa_seconds.to_bits() as i64;
    let payload = json(&format!("{{\"3\": {raw_bits}}}"));

    let bits = mail_date_bits(Some("ProactiveHarvesting.Mail"), &payload).unwrap();
    assert_eq!(f64::from_bits(bits), cocoa_seconds);

    let mut bytes = vec![0x18]; // field 3, a number
    let mut v = bits;
    while v >= 0x80 {
        bytes.push((v & 0x7F) as u8 | 0x80);
        v >>= 7;
    }
    bytes.push(v as u8);
    let record = SegbRecord {
        state: EntryState::Written,
        timestamp_utc: Timestamp { seconds: 0, nanos: 0 },
        payload: bytes,
        record_offset: 32,
        crc_valid: true,
    };
    let dates = FloatTexts { entries: vec![(bits, "2023-11-14T22:13:20+00:00".to_string())] };
    let parsed =
        segb_record_to_parsed_record(record, Some("ProactiveHarvesting.Mail"), &no_texts(), &dates);
    let stored = text_of(&parsed.fields, "mail_message_date_utc").unwrap();
    let date = chrono::DateTime::parse_from_rfc3339(stored).unwrap();
    assert_eq!(date.timestamp(), 1_700_000_000);
    assert_eq!(parsed.raw, parsed.fields.to_text());
}

#[test]
fn precompute_derived_fields_does_nothing_for_other_streams() {
    let payload = json("{\"3\": 12345}");
    assert_eq!(mail_date_bits(Some("ScreenTime.AppUsage"), &payload), None);
    assert_eq!(mail_date_bits(None, &payload), None);
}

#[test]
fn a_negative_number_holds_the_bits_of_a_negative_date() {
    let payload = json(&format!("{{\"3\": {}}}", (-1.5f64).to_bits() as i64));
    assert_eq!(
        mail_date_bits(Some("ProactiveHarvesting.Mail"), &payload),
        Some((-1.5f64).to_bits())
    );
}

#[test]
fn biome_message_uses_the_named_summary_when_one_exists() {
    let payload = json("{\"1\": 1}");
    assert_eq!(
        biome_message(Some("Device.KeybagLocked"), EntryState::Written, b"\x08\x01", &payload),
        "[Peach] Device.KeybagLocked: Locked"
    );
    assert_eq!(
        biome_message(
            Some("Device.Power.PluggedIn"),
            EntryState::Written,
            b"\x08\x00",
            &json("{\"1\": 0}")
        ),
        "[Peach] Device.Power.PluggedIn: Not Plugged In"
    );
}

#[test]
fn biome_message_falls_back_to_the_generic_renderer_for_unnamed_streams() {
    let payload = json("{\"1\": 42}");
    assert_eq!(
        biome_message(Some("Some.Unmapped.Stream"), EntryState::Written, b"\x08\x2a", &payload),
        "[Peach] Some.Unmapped.Stream: 1: 42"
    );
}

#[test]
fn biome_message_falls_back_to_the_bare_stream_name_when_payload_is_empty() {
    assert_eq!(
        biome_message(Some("Some.Unmapped.Stream"), EntryState::Written, b"", &json("{}")),
        "[Peach] Biome stream: Some.Unmapped.Stream"
    );
}

#[test]
fn biome_message_handles_an_undetermined_stream() {
    assert_eq!(
        biome_message(None, EntryState::Written, b"", &json("{}")),
        "[Peach] Biome record (stream undetermined from path)"
    );
}

#[test]
fn biome_message_gives_an_all_zero_payload_a_clear_message_naming_the_state() {
    assert_eq!(
        biome_message(
            Some("Device.Charging.SmartCharging"),
            EntryState::Deleted,
            &[0u8; 6],
            &json("{\"_decode_error\": \"invalid field number 0 at byte 0\"}")
        ),
        "[Peach] Device.Charging.SmartCharging: (no data — deleted record, payload is 6 zero bytes)"
    );
}

#[test]
fn named_message_summary_combines_ssid_and_state_for_wifi() {
    let payload = json("{\"1\": {\"utf8\": \"HomeNet\", \"nested\": null, \"hex\": \"...\"}, \"2\": 1}");
    assert_eq!(
        named_message_summary("Device.Wireless.WiFi", &payload),
        Some("HomeNet (Connected)".to_string())
    );
}

#[test]
fn named_message_summary_combines_app_id_and_action_for_app_intent() {
    let payload = json(
        "{\"2\": {\"utf8\": \"com.example.app\", \"nested\": null, \"hex\": \"...\"}, \"5\": {\"utf8\": \"SHARE\", \"nested\": null, \"hex\": \"...\"}}",
    );
    assert_eq!(
        named_message_summary("App.Intent", &payload),
        Some("com.example.app: SHARE".to_string())
    );
}

#[test]
fn state_label_shows_the_raw_value_for_anything_other_than_0_or_1() {
    let payload = json("{\"1\": 4}");
    assert_eq!(
        state_label(&payload, 1, "On", "Off"),
        Some("state 4".to_string())
    );
    assert_eq!(state_label(&payload, 2, "On", "Off"), None);
}

#[test]
fn only_bytes_that_are_all_zero_hold_nothing() {
    assert!(is_all_zero(&[0, 0]));
    assert!(!is_all_zero(&[0, 1]));
    assert!(!is_all_zero(&[]));
}

#[test]
fn every_record_is_read_or_passed_over() {
    let mut bytes = minimal_segb2(1);
    let at = bytes.len() - 16;
    bytes[at..at + 4].copy_from_slice(&1000i32.to_le_bytes());
    let file = "a/local/0";
    let (records, skipped) = parse(file, &bytes, true).unwrap();
    assert_eq!((records.len(), skipped.len()), (0, 1));
    assert!(skipped[0].location.contains('0'));
    let err = parse(file, &bytes, false).unwrap_err();
    assert!(matches!(err, BiomeError::Record { index: 0, .. }));

    let good = minimal_segb2(1);
    let bad_time = vec![Err("no such instant".to_string())];
    let (records, skipped) =
        BiomeParser.parse(&path(file), &good, &bad_time, &no_texts(), &no_texts(), true).unwrap();
    assert_eq!((records.len(), skipped.len()), (0, 1));
    assert!(skipped[0].reason.contains("no such instant"));
}

#[test]
fn the_payload_of_a_record_is_kept_whole() {
    let payload = [0x08, 0x01, 0xff, 0x00];
    for name in ["public/App.Intent/local/0", "a/Unnamed.Stream/local/0"] {
        let (records, _) = parse(name, &file_with(&payload, 1), false).unwrap();
        assert_eq!(text_of(&records[0].fields, "payload_hex"), Some("0801ff00"));
        assert!(records[0].message.as_deref().unwrap().starts_with("[Peach] "));
    }
}
