//! Intrusion logs.

use peach::json::Json;
use peach::parsers::intrusion_log::{
    clean_ip, log_files, parse_line, record_of_value, security_event_display_name,
    security_event_tag, IntrusionLogParser, LogFile,
};
use peach::time::Timestamp;

fn file(label: &str, text: &str) -> LogFile {
    LogFile { label: label.to_string(), text: Ok(text.to_string()) }
}

fn parse(files: &Vec<LogFile>, skip: bool) -> Result<(usize, usize), String> {
    IntrusionLogParser
        .parse("/logs", files, skip)
        .map(|(records, skipped)| (records.len(), skipped.len()))
}

fn text_of<'a>(fields: &'a Json, key: &str) -> Option<&'a str> {
    fields.get(key).and_then(|v| v.as_text()).map(|s| s.as_str())
}

#[test]
fn sourcetype_is_intrusion_log() {
    assert_eq!(IntrusionLogParser.sourcetype(), "intrusion_log");
}

#[test]
fn parses_a_dns_event_with_correct_millisecond_timestamp() {
    let files = vec![file(
        "intrusion-logs-0.txt",
        r#"{"dns_event": {"event_time": 1746979200000, "hostname": "example.com", "ip_addresses": ["93.184.216.34"], "package_name": "com.example.app"}}"#,
    )];

    let (records, skipped) = IntrusionLogParser.parse("/logs", &files, false).unwrap();

    assert!(skipped.is_empty());
    assert_eq!(records.len(), 1);
    let record = &records[0];
    assert_eq!(record.timestamp_utc, Timestamp { seconds: 1_746_979_200, nanos: 0 });
    assert_eq!(
        record.message.as_deref(),
        Some("[Peach] DNS query for example.com by com.example.app [IPs: 93.184.216.34]")
    );
    assert_eq!(text_of(&record.fields, "event_type"), Some("dns_event"));
    assert_eq!(text_of(&record.fields, "hostname"), Some("example.com"));
}

#[test]
fn parses_a_connect_event_with_correct_millisecond_timestamp() {
    let files = vec![file(
        "intrusion-logs-0.txt",
        r#"{"connect_event": {"event_time": 1746979201000, "ip_address": "/93.184.216.34", "port": 443, "package_name": "com.example.app"}}"#,
    )];

    let (records, _) = IntrusionLogParser.parse("/logs", &files, false).unwrap();

    assert_eq!(records.len(), 1);
    assert_eq!(records[0].timestamp_utc, Timestamp { seconds: 1_746_979_201, nanos: 0 });
    assert_eq!(
        records[0].message.as_deref(),
        Some("[Peach] Connection to 93.184.216.34:443 by com.example.app")
    );
}

#[test]
fn parses_a_security_event_with_correct_nanosecond_timestamp_and_derived_tag_field() {
    let files = vec![file(
        "intrusion-logs-0.txt",
        r#"{"security_event": {"event_time": 1746979202123456789, "keyguard_dismiss_auth_attempt": {"success": false, "method_strength": 1}}}"#,
    )];

    let (records, _) = IntrusionLogParser.parse("/logs", &files, false).unwrap();

    assert_eq!(records.len(), 1);
    let record = &records[0];
    assert_eq!(
        record.timestamp_utc,
        Timestamp { seconds: 1746979202, nanos: 123456789 }
    );
    assert_eq!(
        record.message.as_deref(),
        Some("[Peach] Keyguard Dismiss Auth Attempt: method_strength=1, success=false")
    );
    assert_eq!(
        text_of(&record.fields, "security_event_tag"),
        Some("keyguard_dismiss_auth_attempt")
    );
    assert_eq!(text_of(&record.fields, "event_type"), Some("security_event"));
    // The nested structure is kept, not flattened away.
    assert!(record.fields.get("keyguard_dismiss_auth_attempt").is_some());
}

#[test]
fn an_unrecognized_top_level_event_type_is_a_bad_record_not_a_silent_guess() {
    let files = vec![file("intrusion-logs-0.txt", r#"{"some_future_event": {"event_time": 1}}"#)];

    assert!(parse(&files, false).is_err());

    let (records, skipped) = IntrusionLogParser.parse("/logs", &files, true).unwrap();
    assert!(records.is_empty());
    assert_eq!(skipped.len(), 1);
    assert!(skipped[0].reason.contains("some_future_event"));
}

#[test]
fn skip_bad_records_false_still_hard_fails_on_the_first_bad_line() {
    let files = vec![file("intrusion-logs-0.txt", "not valid json\n")];
    let err = parse(&files, false).unwrap_err();
    assert!(err.starts_with("intrusion-logs-0.txt:1: not valid JSON: "));
}

#[test]
fn skip_bad_records_true_keeps_good_lines_and_records_the_bad_one() {
    let files = vec![file(
        "intrusion-logs-0.txt",
        "not valid json\n{\"dns_event\": {\"event_time\": 1746979200000, \"hostname\": \"a\", \"ip_addresses\": [], \"package_name\": \"p\"}}\n",
    )];

    let (records, skipped) = IntrusionLogParser.parse("/logs", &files, true).unwrap();

    assert_eq!(records.len(), 1);
    assert_eq!(skipped.len(), 1);
    assert_eq!(skipped[0].location, "intrusion-logs-0.txt:1");
}

#[test]
fn blank_lines_are_skipped_without_being_counted_as_bad_records() {
    let files = vec![file(
        "intrusion-logs-0.txt",
        "\n   \n{\"dns_event\": {\"event_time\": 1746979200000, \"hostname\": \"a\", \"ip_addresses\": [], \"package_name\": \"p\"}}\n\n",
    )];
    assert_eq!(parse(&files, false), Ok((1, 0)));
    assert_eq!(parse(&files, true), Ok((1, 0)));
}

#[test]
fn recursively_finds_txt_files_in_nested_subdirectories() {
    let files = vec![
        file(
            "2026-08-31/nested.txt",
            r#"{"connect_event": {"event_time": 1746979201000, "ip_address": "1.2.3.4", "port": 80, "package_name": "p"}}"#,
        ),
        file(
            "top.txt",
            r#"{"dns_event": {"event_time": 1746979200000, "hostname": "a", "ip_addresses": [], "package_name": "p"}}"#,
        ),
    ];
    assert_eq!(parse(&files, false), Ok((2, 0)));
}

#[test]
fn a_directory_with_no_txt_files_is_an_error() {
    assert_eq!(
        parse(&Vec::new(), true).unwrap_err(),
        "no intrusion-log .txt files found under /logs"
    );
}

#[test]
fn log_files_are_those_with_the_extension_in_the_order_of_their_steps() {
    let path = |steps: &[&str]| steps.iter().map(|s| s.to_string()).collect::<Vec<String>>();
    let paths = vec![
        path(&["b.txt"]),
        path(&["a-b", "x.TXT"]),
        path(&["a", "z.txt"]),
        path(&["a", "notes.json"]),
        path(&[".txt"]),
        path(&["a", "b.Txt"]),
    ];
    // `a` comes before `a-b` as a step, though `-` comes before the slash.
    assert_eq!(log_files(&paths), vec![5, 2, 1, 0]);
    assert!(log_files(&Vec::new()).is_empty());
}

#[test]
fn an_unreadable_file_fails_even_where_bad_lines_are_skipped() {
    let files = vec![
        file("a.txt", "nonsense"),
        LogFile { label: "b.txt".to_string(), text: Err("denied".to_string()) },
    ];
    assert_eq!(
        parse(&files, true).unwrap_err(),
        "failed to read b.txt as UTF-8 text: denied"
    );
}

#[test]
fn every_kind_of_bad_line_has_its_reason() {
    let reason = |line: &str| parse_line(line).unwrap_err();
    assert_eq!(reason("[1]"), "expected a JSON object");
    assert_eq!(
        reason("{}"),
        "expected exactly one top-level event-type key, found 0"
    );
    assert_eq!(
        reason("{\"a\":1,\"b\":2}"),
        "expected exactly one top-level event-type key, found 2"
    );
    assert_eq!(reason("{\"dns_event\": 3}"), "'dns_event' value is not a JSON object");
    assert_eq!(reason("{\"dns_event\": {}}"), "missing or non-integer 'event_time'");
    assert_eq!(
        reason("{\"dns_event\": {\"event_time\": 9223372036854775807}}"),
        "event_time 9223372036854775807 out of range"
    );
    assert_eq!(
        reason("{\"other\": {}}"),
        "unrecognized intrusion-log event type 'other'"
    );
    assert_eq!(
        record_of_value("x", &Json::Null).unwrap_err(),
        "expected a JSON object"
    );
}

#[test]
fn times_lie_in_the_range_of_dates() {
    let read = |millis: i64| parse_line(&format!("{{\"dns_event\": {{\"event_time\": {millis}}}}}"));
    let first = read(-8_334_601_228_800_000).unwrap();
    assert_eq!(first.timestamp_utc, Timestamp { seconds: -8_334_601_228_800, nanos: 0 });
    assert_eq!(
        read(-8_334_601_228_800_001).unwrap_err(),
        "event_time -8334601228800001 out of range"
    );
    assert!(read(-8_334_601_315_200_000).is_err());
    let last = read(8_210_266_876_799_999).unwrap();
    assert_eq!(last.timestamp_utc, Timestamp { seconds: 8_210_266_876_799, nanos: 999_000_000 });
    assert!(read(8_210_266_876_800_000).is_err());
}

#[test]
fn times_before_the_epoch_are_split_downwards() {
    let record = parse_line("{\"dns_event\": {\"event_time\": -1}}").unwrap();
    assert_eq!(record.timestamp_utc, Timestamp { seconds: -1, nanos: 999_000_000 });
    let record = parse_line("{\"security_event\": {\"event_time\": -1}}").unwrap();
    assert_eq!(record.timestamp_utc, Timestamp { seconds: -1, nanos: 999_999_999 });
    assert_eq!(record.message.as_deref(), Some("[Peach] Security event (no tag)"));
}

#[test]
fn addresses_that_say_nothing_are_left_out() {
    let record = parse_line(
        "{\"dns_event\": {\"event_time\": 0, \"hostname\": \"h\", \"ip_addresses\": [\"/\", \"0.0.0.0\", 3, \"x/::1\", \"1.1.1.1\"]}}",
    )
    .unwrap();
    assert_eq!(
        record.message.as_deref(),
        Some("[Peach] DNS query for h by  [IPs: ::1, 1.1.1.1]")
    );
}

#[test]
fn security_event_tag_finds_the_one_non_metadata_key() {
    let obj = vec![
        ("event_time".to_string(), Json::Unsigned(1)),
        ("wipe_failure".to_string(), Json::Object(Vec::new())),
    ];
    assert_eq!(security_event_tag(&obj).as_deref(), Some("wipe_failure"));
}

#[test]
fn clean_ip_strips_a_leading_slash() {
    assert_eq!(clean_ip("/93.184.216.34"), "93.184.216.34");
    assert_eq!(clean_ip("ip6-localhost/::1"), "::1");
    assert_eq!(clean_ip("93.184.216.34"), "93.184.216.34");
}

#[test]
fn security_event_display_name_title_cases_plain_tag_keys() {
    assert_eq!(
        security_event_display_name("keyguard_dismissed"),
        "Keyguard Dismissed"
    );
    assert_eq!(
        security_event_display_name("keyguard_dismiss_auth_attempt"),
        "Keyguard Dismiss Auth Attempt"
    );
    assert_eq!(
        security_event_display_name("cert_authority_installed"),
        "Cert Authority Installed"
    );
}

#[test]
fn security_event_display_name_keeps_known_acronyms_uppercase() {
    assert_eq!(
        security_event_display_name("adb_shell_interactive"),
        "ADB Shell Interactive"
    );
    assert_eq!(security_event_display_name("os_startup"), "OS Startup");
    assert_eq!(security_event_display_name("nfc_enabled"), "NFC Enabled");
    assert_eq!(security_event_display_name("dns_event"), "DNS Event");
}

#[test]
fn security_event_display_name_falls_back_to_the_raw_key_for_unexpected_input() {
    assert_eq!(
        security_event_display_name("some future.tag!"),
        "some future.tag!"
    );
    assert_eq!(security_event_display_name("__double__under_"), "Double Under");
}

#[test]
fn a_record_keeps_its_line_and_the_members_of_its_event() {
    let line = r#"{"connect_event": {"event_time": 1746979200000, "package_name": "p", "port": 443, "ip_address": "/1.2.3.4", "extra": {"a": [1, null]}}}"#;
    let (records, _) = IntrusionLogParser.parse("/logs", &vec![file("a.txt", line)], false).unwrap();
    let record = &records[0];
    assert_eq!(record.raw, line);
    assert!(record.message.as_deref().unwrap().starts_with("[Peach] "));
    assert_eq!(text_of(&record.fields, "event_type"), Some("connect_event"));
    assert_eq!(text_of(&record.fields, "ip_address"), Some("/1.2.3.4"));
    assert_eq!(record.fields.get("port").and_then(|v| v.as_i64()), Some(443));
    assert!(record.fields.at(&["extra", "a"]).is_some());
}

#[test]
fn every_line_is_a_record_or_is_skipped() {
    let dns = |name: &str| {
        format!(
            "{{\"dns_event\": {{\"event_time\": 1, \"hostname\": \"{name}\", \"ip_addresses\": [], \"package_name\": \"p\"}}}}"
        )
    };
    let files = vec![
        file("a.txt", &format!("bad\n\n{}\n   \n", dns("x"))),
        file("b.txt", &format!("{}\n\n\nworse\n{}", dns("y"), dns("z"))),
    ];
    let (records, skipped) = IntrusionLogParser.parse("/logs", &files, true).unwrap();
    assert_eq!(records.len() + skipped.len(), 5);
    let messages: Vec<&str> = records.iter().filter_map(|r| r.message.as_deref()).collect();
    assert!(messages[0].contains('x') && messages[1].contains('y') && messages[2].contains('z'));
    let places: Vec<&str> = skipped.iter().map(|s| s.location.as_str()).collect();
    assert_eq!(places, ["a.txt:1", "b.txt:4"]);
    let err = IntrusionLogParser.parse("/logs", &files, false).unwrap_err();
    assert_eq!(err, format!("a.txt:1: {}", skipped[0].reason));
}
