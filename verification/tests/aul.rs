//! Unified logs.

use peach::json::{parse_json, Json};
use peach::parsers::aul::raw_extraction_provider::{normalize_uuid, RawExtractionProvider};
use peach::parsers::aul::stream::{AulStream, StreamAction, StreamEvent};
use peach::parsers::aul::{
    has_direct_string_resolution_data, is_diagnostics_dir, looks_like_flat_bundle, order_entries,
    select_provider, to_parsed_record, AulEntry, AulLayout, AulParser,
};
use peach::time::Timestamp;

fn fields(message: &str) -> Json {
    parse_json(&format!(
        "{{\"subsystem\":\"com.example.peach\",\"thread_id\":1,\"pid\":100,\"message\":\"{message}\"}}"
    ))
    .unwrap()
}

fn sample_entry(time: f64, message: &str, log_type: &str) -> AulEntry {
    AulEntry {
        time_bits: time.to_bits(),
        source_path: "test.tracev3".to_string(),
        index: 0,
        log_type: log_type.to_string(),
        message: message.to_string(),
        fields: fields(message),
    }
}

fn placed(time: f64, source_path: &str, index: u64, message: &str) -> AulEntry {
    AulEntry {
        source_path: source_path.to_string(),
        index,
        ..sample_entry(time, message, "Info")
    }
}

fn names(list: &[&str]) -> Vec<String> {
    list.iter().map(|s| s.to_string()).collect()
}

#[test]
fn sourcetype_is_aul() {
    assert_eq!(AulParser.sourcetype(), "aul");
}

#[test]
fn to_parsed_record_converts_nanosecond_epoch_time_to_utc() {
    // 2022-01-01T00:00:00Z in unix-epoch nanoseconds.
    let entry = sample_entry(1_640_995_200_000_000_000.0, "hello", "Info");

    let record = to_parsed_record(&entry);

    let want = chrono::DateTime::parse_from_rfc3339("2022-01-01T00:00:00Z").unwrap();
    assert_eq!(
        record.timestamp_utc,
        Timestamp { seconds: want.timestamp(), nanos: want.timestamp_subsec_nanos() }
    );
}

#[test]
fn to_parsed_record_uses_log_type_variant_name_as_level() {
    let entry = sample_entry(0.0, "hello", "ProcessSignpostStart");

    let record = to_parsed_record(&entry);

    assert_eq!(record.level.as_deref(), Some("ProcessSignpostStart"));
}

#[test]
fn to_parsed_record_preserves_message_and_full_entry_in_raw_and_fields() {
    let entry = sample_entry(0.0, "something happened", "Error");

    let record = to_parsed_record(&entry);

    assert_eq!(record.message.as_deref(), Some("something happened"));
    assert!(record.raw.contains("something happened"));
    assert!(record.raw.contains("com.example.peach"));
    assert_eq!(
        record.fields.get("subsystem").and_then(|v| v.as_text()).map(|s| s.as_str()),
        Some("com.example.peach")
    );
    assert_eq!(
        record.fields.get("message").and_then(|v| v.as_text()).map(|s| s.as_str()),
        Some("something happened")
    );
}

#[test]
fn raw_is_derived_from_fields_not_reserialized_independently() {
    let entry = sample_entry(0.0, "something happened", "Error");

    let record = to_parsed_record(&entry);

    let raw_reparsed = parse_json(&record.raw).unwrap();
    assert_eq!(raw_reparsed, record.fields);
}

#[test]
fn order_entries_sorts_by_time_then_source_path_then_index() {
    let entries = vec![
        placed(2.0, "b.tracev3", 0, "second"),
        placed(1.0, "a.tracev3", 1, "first-b"),
        placed(1.0, "a.tracev3", 0, "first-a"),
    ];

    let ordered = order_entries(&entries);

    assert_eq!(
        ordered.iter().map(|i| entries[*i].message.as_str()).collect::<Vec<_>>(),
        vec!["first-a", "first-b", "second"]
    );
    assert_eq!(
        AulParser.parse(&entries).iter().map(|r| r.message.clone().unwrap()).collect::<Vec<_>>(),
        vec!["first-a", "first-b", "second"]
    );
}

#[test]
fn negative_times_come_first_and_a_negative_zero_before_zero() {
    let entries = vec![
        placed(0.0, "a", 0, "zero"),
        placed(-0.0, "a", 1, "negative zero"),
        placed(-2.5, "a", 2, "before"),
        placed(-3.0, "a", 3, "long before"),
    ];
    let records = AulParser.parse(&entries);
    assert_eq!(
        records.iter().map(|r| r.message.clone().unwrap()).collect::<Vec<_>>(),
        vec!["long before", "before", "negative zero", "zero"]
    );
    // Halfway between two whole numbers the one farther from zero is taken.
    assert_eq!(records[1].timestamp_utc, Timestamp { seconds: -1, nanos: 999_999_997 });
}

#[test]
fn select_provider_picks_bundle_for_a_flat_logarchive_layout() {
    let root = names(&["Persist", "Special", "dsc", "00"]);
    assert!(looks_like_flat_bundle(Some(&root)));
    let layout = select_provider("/case/system.logarchive", Some(&root), None).unwrap();

    assert!(matches!(layout, AulLayout::Bundle));
}

#[test]
fn select_provider_picks_raw_extraction_when_diagnostics_has_a_sibling_uuidtext() {
    let diagnostics = names(&["Persist", "Special"]);
    let parent = names(&["diagnostics", "uuidtext"]);

    let layout = select_provider("/db/diagnostics", Some(&diagnostics), Some(&parent)).unwrap();

    assert_eq!(layout, AulLayout::Beside { uuidtext: "uuidtext".to_string() });
}

#[test]
fn select_provider_errors_clearly_when_diagnostics_has_no_sibling_uuidtext() {
    let diagnostics = names(&["Persist", "Special"]);
    let parent = names(&["diagnostics"]);

    let err = select_provider("/db/diagnostics", Some(&diagnostics), Some(&parent)).unwrap_err();

    assert!(err.contains("uuidtext"));
    assert!(err.starts_with("/db/diagnostics looks like a raw AUL"));
}

#[test]
fn select_provider_picks_raw_extraction_when_parent_holds_both_children() {
    let parent = names(&["diagnostics", "uuidtext"]);

    let layout = select_provider("/db", Some(&parent), None).unwrap();

    assert_eq!(
        layout,
        AulLayout::Children {
            diagnostics: "diagnostics".to_string(),
            uuidtext: "uuidtext".to_string(),
        }
    );
}

#[test]
fn select_provider_matching_is_case_insensitive_for_uuidtext_and_diagnostics() {
    let parent = names(&["Diagnostics", "UUIDText"]);

    let layout = select_provider("/db", Some(&parent), None).unwrap();

    assert_eq!(
        layout,
        AulLayout::Children {
            diagnostics: "Diagnostics".to_string(),
            uuidtext: "UUIDText".to_string(),
        }
    );
}

#[test]
fn select_provider_falls_back_to_bundle_for_an_unrecognized_layout() {
    let root = names(&["some_other_folder"]);

    assert!(matches!(select_provider("/x", Some(&root), None).unwrap(), AulLayout::Bundle));
    assert!(matches!(select_provider("/x", None, None).unwrap(), AulLayout::Bundle));
}

#[test]
fn one_kind_of_log_directory_is_not_enough() {
    assert!(!is_diagnostics_dir(Some(&names(&["Persist", "Persisted"]))));
    assert!(is_diagnostics_dir(Some(&names(&["TIMESYNC", "highvolume"]))));
    assert!(!is_diagnostics_dir(None));
}

#[test]
fn text_directories_are_dsc_or_two_hexadecimal_digits() {
    assert!(has_direct_string_resolution_data(Some(&names(&["x", "DSC"]))));
    assert!(has_direct_string_resolution_data(Some(&names(&["aF"]))));
    assert!(!has_direct_string_resolution_data(Some(&names(&["0", "000", "gg"]))));
    assert!(!has_direct_string_resolution_data(None));
}

#[test]
fn short_uuids_get_leading_zeroes_restored() {
    assert_eq!(
        normalize_uuid(&"A".repeat(31)).unwrap(),
        format!("0{}", "A".repeat(31))
    );
    assert_eq!(
        normalize_uuid(&"A".repeat(30)).unwrap(),
        format!("00{}", "A".repeat(30))
    );
    assert!(normalize_uuid("too-short").is_err());
}

#[test]
fn uuids_are_measured_in_bytes_and_stable_once_complete() {
    let full = normalize_uuid(&"B".repeat(32)).unwrap();
    assert_eq!(full, "B".repeat(32));
    assert_eq!(normalize_uuid(&full).unwrap(), full);
    // Sixteen characters of two bytes each.
    assert!(normalize_uuid(&"ü".repeat(16)).is_ok());
    assert_eq!(
        normalize_uuid(&"A".repeat(33)).unwrap_err(),
        format!("uuid length not correct: {}", "A".repeat(33))
    );
}

#[test]
fn texts_are_looked_for_under_the_uuidtext_root() {
    let provider = RawExtractionProvider::new("/db/diagnostics".to_string(), "/db/uuidtext".to_string());
    assert_eq!(provider.diagnostics_root(), "/db/diagnostics");
    assert_eq!(provider.uuidtext_root(), "/db/uuidtext");
    assert_eq!(
        provider.uuidtext_path("A3C2D349FD2B370A849F7A36DB0A725D").unwrap(),
        vec!["/db/uuidtext", "A3", "C2D349FD2B370A849F7A36DB0A725D"]
    );
    assert_eq!(
        provider.dsc_path("9D17D0C7902E31B2BC48C62D4C090E90").unwrap(),
        vec!["/db/uuidtext", "dsc", "9D17D0C7902E31B2BC48C62D4C090E90"]
    );
    assert!(provider.dsc_path("short").is_err());
    assert!(provider.uuidtext_path("short").is_err());
}

#[test]
fn a_stream_reports_and_then_hands_over_in_the_order_of_time() {
    let step = |stream, event| AulParser.parse_streaming("/logs", stream, event);
    let second = vec![placed(3e9, "b", 0, "three"), placed(1e9, "b", 1, "one")];
    let (stream, action) = step(
        AulStream::new(),
        StreamEvent::File { entries: vec![placed(2e9, "a", 0, "two")], bytes: 10 },
    );
    assert!(matches!(action, StreamAction::ReportBytes(10)));
    let (stream, action) = step(stream, StreamEvent::File { entries: second, bytes: 7 });
    assert!(matches!(action, StreamAction::ReportBytes(7)));
    let (stream, action) = step(stream, StreamEvent::AllRead);
    assert!(matches!(action, StreamAction::ReportTotal(3)));
    let mut stream = stream;
    for want in ["one", "two", "three"] {
        let (next, action) = step(stream, StreamEvent::Ready);
        match action {
            StreamAction::HandOver(record) => assert_eq!(record.message.as_deref(), Some(want)),
            other => panic!("a record was due: {other:?}"),
        }
        stream = next;
    }
    let (_, action) = step(stream, StreamEvent::Ready);
    assert!(matches!(action, StreamAction::Finish));
}

#[test]
fn a_stream_ends_with_the_first_record_that_is_not_taken() {
    let step = |stream, event| AulParser.parse_streaming("/logs", stream, event);
    let entries = vec![placed(1e9, "a", 0, "one"), placed(2e9, "a", 1, "two")];
    let (stream, _) = step(AulStream::new(), StreamEvent::File { entries, bytes: 1 });
    let (stream, _) = step(stream, StreamEvent::AllRead);
    let (stream, _) = step(stream, StreamEvent::Ready);
    match step(stream, StreamEvent::Refused("full".to_string())).1 {
        StreamAction::Fail(reason) => assert_eq!(reason, "full"),
        other => panic!("the stream fails: {other:?}"),
    }
}

#[test]
fn a_source_without_files_fails() {
    match AulParser.parse_streaming("/logs", AulStream::new(), StreamEvent::AllRead).1 {
        StreamAction::Fail(reason) => assert_eq!(reason, "no .tracev3 files found under /logs"),
        other => panic!("there is no file: {other:?}"),
    }
}
