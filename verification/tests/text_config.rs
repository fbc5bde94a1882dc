//! Parsers described by a configuration.

use peach::parsers::builtin_text_formats::builtin_text_formats;
use peach::parsers::text_config::{
    mapped_text, parse_timestamp, plan_text_parser, record_from_captures, text_parser_fields,
    LocalTime, TextConfigParser, TimezoneSpec,
};
use peach::model::ParsedRecord;
use peach::parsers::{parse_source, ParserConfig};
use peach::time::Timestamp;

fn instant(text: &str) -> Timestamp {
    let t = chrono::DateTime::parse_from_rfc3339(text).unwrap();
    Timestamp { seconds: t.timestamp(), nanos: t.timestamp_subsec_nanos() }
}

fn fixed(label: &str, offset_seconds: i32) -> TimezoneSpec {
    TimezoneSpec::Fixed { label: label.to_string(), offset_seconds }
}

/// Parses with the zone that the configuration or the parser names. The times
/// of the tests lie in summer.
fn parse(
    parser: &TextConfigParser,
    config: &ParserConfig,
    content: &str,
) -> Result<Vec<ParsedRecord>, String> {
    let label = match text_parser_fields(config) {
        Ok(fields) => parser.assume_offset(&fields),
        Err(_) => None,
    };
    let zone = match label.as_deref() {
        None => None,
        Some("UTC") => Some(fixed("UTC", 0)),
        Some("+02:00") => Some(fixed("+02:00", 7_200)),
        Some("+05:00") => Some(fixed("+05:00", 18_000)),
        Some(label) => Some(TimezoneSpec::Named {
            label: label.to_string(),
            instants: parser
                .local_times(config, content)
                .iter()
                .map(|t| (*t, Timestamp { seconds: t.seconds - 7_200, nanos: t.nanos }))
                .collect(),
        }),
    };
    parser.parse(config, content, zone.as_ref())
}

fn assuming(label: &str) -> TextConfigParser {
    TextConfigParser { default_assume_offset: Some(label.to_string()) }
}

fn config(toml_body: &str) -> ParserConfig {
    let full = format!("[parser]\nname = \"test\"\nsourcetype = \"test\"\n{toml_body}");
    ParserConfig::from_toml_str(&full).unwrap()
}

#[test]
fn single_line_offset_aware_timestamp_is_parsed_and_mapped() {
    let content = "2026-07-28T12:00:00+0200 ERROR something broke\n";
    let cfg = config(
        r#"
[parser.pattern]
regex = '^(?P<timestamp>\S+) (?P<level_raw>\w+) (?P<msg>.*)$'
timestamp_format = "%Y-%m-%dT%H:%M:%S%z"

[parser.field_mapping]
level = "level_raw"
message = "msg"
"#,
    );

    let records = parse(&TextConfigParser::default(), &cfg, content).unwrap();

    assert_eq!(records.len(), 1);
    let record = &records[0];
    assert_eq!(
        record.timestamp_utc,
        instant("2026-07-28T10:00:00Z")
    );
    assert_eq!(record.level.as_deref(), Some("ERROR"));
    assert_eq!(record.message.as_deref(), Some("something broke"));
    assert_eq!(
        record.fields.get("level_raw").and_then(|v| v.as_text()).map(|s| s.as_str()),
        Some("ERROR")
    );
}

#[test]
fn multiline_block_with_assume_offset_is_grouped_and_parsed() {
    let content = "2026-07-28 12:00:00 ERROR something broke\n  at foo.bar()\n  at baz.qux()\n";
    let cfg = config(
        r#"
[parser.pattern]
regex = '^(?P<timestamp>\S+ \S+) (?P<level_raw>\w+) (?P<msg>.*)'
timestamp_format = "%Y-%m-%d %H:%M:%S"
multiline_start_pattern = '^\d{4}-\d{2}-\d{2}'
assume_offset = "+02:00"

[parser.field_mapping]
level = "level_raw"
message = "msg"
"#,
    );

    let records = parse(&TextConfigParser::default(), &cfg, content).unwrap();

    assert_eq!(records.len(), 1);
    let record = &records[0];
    assert_eq!(
        record.raw,
        "2026-07-28 12:00:00 ERROR something broke\n  at foo.bar()\n  at baz.qux()"
    );
    assert_eq!(
        record.timestamp_utc,
        instant("2026-07-28T10:00:00Z")
    );
    assert_eq!(record.message.as_deref(), Some("something broke"));
}

#[test]
fn default_assume_offset_is_used_when_the_source_config_sets_none() {
    let content = "2026-07-28 12:00:00 ERROR something broke\n";
    let cfg = config(
        r#"
[parser.pattern]
regex = '^(?P<timestamp>\S+ \S+) (?P<level_raw>\w+) (?P<msg>.*)$'
timestamp_format = "%Y-%m-%d %H:%M:%S"
"#,
    );

    let parser = TextConfigParser {
        default_assume_offset: Some("Europe/Berlin".to_string()),
    };
    let records = parse(&parser, &cfg, content).unwrap();

    assert_eq!(records.len(), 1);
    assert_eq!(
        records[0].timestamp_utc,
        instant("2026-07-28T10:00:00Z")
    );
}

#[test]
fn a_source_configs_own_assume_offset_takes_precedence_over_the_session_default() {
    let content = "2026-07-28 12:00:00 ERROR something broke\n";
    let cfg = config(
        r#"
[parser.pattern]
regex = '^(?P<timestamp>\S+ \S+) (?P<level_raw>\w+) (?P<msg>.*)$'
timestamp_format = "%Y-%m-%d %H:%M:%S"
assume_offset = "+05:00"

[parser.field_mapping]
level = "level_raw"
message = "msg"
"#,
    );

    // The source's own setting wins.
    let parser = TextConfigParser {
        default_assume_offset: Some("Europe/Berlin".to_string()),
    };
    let records = parse(&parser, &cfg, content).unwrap();

    assert_eq!(records.len(), 1);
    assert_eq!(
        records[0].timestamp_utc,
        instant("2026-07-28T07:00:00Z")
    );
}

#[test]
fn naive_timestamp_without_assume_offset_is_an_error() {
    let content = "2026-07-28 12:00:00 ERROR something broke\n";
    let cfg = config(
        r#"
[parser.pattern]
regex = '^(?P<timestamp>\S+ \S+) (?P<level_raw>\w+) (?P<msg>.*)$'
timestamp_format = "%Y-%m-%d %H:%M:%S"
"#,
    );

    let result = parse(&TextConfigParser::default(), &cfg, content);

    assert!(result.is_err());
}

#[test]
fn yearless_timestamp_without_assume_year_is_an_error() {
    let content = "Jul 28 12:00:00 host proc: something broke\n";
    let cfg = config(
        r#"
[parser.pattern]
regex = '^(?P<timestamp>\w+ +\d+ \d{2}:\d{2}:\d{2}) \S+ (?P<msg>.*)$'
timestamp_format = "%b %e %H:%M:%S"
assume_offset = "UTC"

[parser.field_mapping]
message = "msg"
"#,
    );

    let result = parse(&TextConfigParser::default(), &cfg, content);

    assert!(result.is_err());
}

#[test]
fn yearless_timestamp_with_assume_year_is_parsed() {
    let content = "Jul 28 12:00:00 host proc: something broke\n";
    let cfg = config(
        r#"
[parser.pattern]
regex = '^(?P<timestamp>\w+ +\d+ \d{2}:\d{2}:\d{2}) \S+ (?P<msg>.*)$'
timestamp_format = "%b %e %H:%M:%S"
assume_offset = "UTC"
assume_year = 2026

[parser.field_mapping]
message = "msg"
"#,
    );

    let records = parse(&TextConfigParser::default(), &cfg, content).unwrap();

    assert_eq!(records.len(), 1);
    assert_eq!(
        records[0].timestamp_utc,
        instant("2026-07-28T12:00:00Z")
    );
}

#[test]
fn assume_year_is_ignored_when_the_format_already_has_a_year() {
    let content = "2020-01-01 00:00:00 something broke\n";
    let cfg = config(
        r#"
[parser.pattern]
regex = '^(?P<timestamp>\S+ \S+) (?P<msg>.*)$'
timestamp_format = "%Y-%m-%d %H:%M:%S"
assume_offset = "UTC"
assume_year = 1999

[parser.field_mapping]
message = "msg"
"#,
    );

    let records = parse(&TextConfigParser::default(), &cfg, content).unwrap();

    assert_eq!(
        records[0].timestamp_utc,
        instant("2020-01-01T00:00:00Z")
    );
}

fn builtin_config_with_source_details(sourcetype: &str) -> ParserConfig {
    let format = builtin_text_formats()
        .into_iter()
        .find(|f| f.sourcetype == sourcetype)
        .unwrap_or_else(|| panic!("no built-in format with sourcetype '{sourcetype}'"));
    let with_details = format.toml.replacen(
        "[parser.pattern]",
        "[parser.pattern]\nassume_offset = \"UTC\"\nassume_year = 2026",
        1,
    );
    ParserConfig::from_toml_str(&with_details).unwrap()
}

#[test]
fn builtin_generic_timestamp_format_parses_a_realistic_line() {
    let content = "2026-08-17 14:23:01.500 something happened\n  continuation line\n";
    let cfg = builtin_config_with_source_details("text_generic");

    let records = parse(&TextConfigParser::default(), &cfg, content).unwrap();

    assert_eq!(records.len(), 1);
    assert_eq!(
        records[0].timestamp_utc,
        instant("2026-08-17T14:23:01.5Z")
    );
    assert_eq!(
        records[0].message.as_deref(),
        Some("something happened\n  continuation line")
    );
}

#[test]
fn builtin_syslog_rfc3164_format_parses_a_realistic_line() {
    let content = "Jan  1 00:00:00 myhost sshd[1234]: Accepted password for alice\n";
    let cfg = builtin_config_with_source_details("syslog");

    let records = parse(&TextConfigParser::default(), &cfg, content).unwrap();

    assert_eq!(records.len(), 1);
    assert_eq!(
        records[0].timestamp_utc,
        instant("2026-01-01T00:00:00Z")
    );
    assert_eq!(
        records[0].message.as_deref(),
        Some("Accepted password for alice")
    );
}

#[test]
fn builtin_logcat_brief_format_parses_a_realistic_line() {
    let content = "08-17 14:23:01.123  1234  1234 E ActivityManager: something crashed\n";
    let cfg = builtin_config_with_source_details("logcat");

    let records = parse(&TextConfigParser::default(), &cfg, content).unwrap();

    assert_eq!(records.len(), 1);
    assert_eq!(
        records[0].timestamp_utc,
        instant("2026-08-17T14:23:01.123Z")
    );
    assert_eq!(records[0].level.as_deref(), Some("E"));
    assert_eq!(records[0].message.as_deref(), Some("something crashed"));
}

#[test]
fn builtin_pacman_log_format_parses_a_realistic_line() {
    let content = "[2026-08-15T17:50:10+0200] [ALPM] upgraded brave-browser (1.93.134-1 -> 1.93.136-1)\n";
    let cfg = builtin_config_with_source_details("pacman");

    let records = parse(&TextConfigParser::default(), &cfg, content).unwrap();

    assert_eq!(records.len(), 1);
    assert_eq!(
        records[0].timestamp_utc,
        instant("2026-08-15T15:50:10Z")
    );
    assert_eq!(
        records[0].message.as_deref(),
        Some("upgraded brave-browser (1.93.134-1 -> 1.93.136-1)")
    );
    assert_eq!(
        records[0].fields.get("category").and_then(|v| v.as_text()).map(|s| s.as_str()),
        Some("ALPM")
    );
}

#[test]
fn builtin_apache_common_format_parses_a_realistic_line() {
    let content = "127.0.0.1 - frank [10/Oct/2000:13:55:36 -0700] \"GET /index.html HTTP/1.0\" 200 2326\n";
    let cfg = builtin_config_with_source_details("apache_common");

    let records = parse(&TextConfigParser::default(), &cfg, content).unwrap();

    assert_eq!(records.len(), 1);
    assert_eq!(
        records[0].timestamp_utc,
        instant("2000-10-10T20:55:36Z")
    );
    assert_eq!(records[0].level.as_deref(), Some("200"));
    assert_eq!(
        records[0].message.as_deref(),
        Some("GET /index.html HTTP/1.0")
    );
    assert_eq!(
        records[0].fields.get("ip").and_then(|v| v.as_text()).map(|s| s.as_str()),
        Some("127.0.0.1")
    );
    assert_eq!(
        records[0].fields.get("bytes").and_then(|v| v.as_text()).map(|s| s.as_str()),
        Some("2326")
    );
}

#[test]
fn builtin_apache_combined_format_parses_a_realistic_line() {
    let content = "127.0.0.1 - frank [10/Oct/2000:13:55:36 -0700] \"GET /index.html HTTP/1.0\" 200 2326 \"http://example.com/\" \"Mozilla/5.0\"\n";
    let cfg = builtin_config_with_source_details("apache_combined");

    let records = parse(&TextConfigParser::default(), &cfg, content).unwrap();

    assert_eq!(records.len(), 1);
    assert_eq!(records[0].level.as_deref(), Some("200"));
    assert_eq!(
        records[0].message.as_deref(),
        Some("GET /index.html HTTP/1.0")
    );
    assert_eq!(
        records[0].fields.get("referer").and_then(|v| v.as_text()).map(|s| s.as_str()),
        Some("http://example.com/")
    );
    assert_eq!(
        records[0].fields.get("agent").and_then(|v| v.as_text()).map(|s| s.as_str()),
        Some("Mozilla/5.0")
    );
}

#[test]
fn builtin_nginx_access_format_parses_a_realistic_line() {
    let content = "192.168.1.10 - - [10/Oct/2023:13:55:36 +0000] \"GET /index.html HTTP/1.1\" 404 612 \"-\" \"Mozilla/5.0\"\n";
    let cfg = builtin_config_with_source_details("nginx_access");

    let records = parse(&TextConfigParser::default(), &cfg, content).unwrap();

    assert_eq!(records.len(), 1);
    assert_eq!(
        records[0].timestamp_utc,
        instant("2023-10-10T13:55:36Z")
    );
    assert_eq!(records[0].level.as_deref(), Some("404"));
    assert_eq!(
        records[0].message.as_deref(),
        Some("GET /index.html HTTP/1.1")
    );
}

#[test]
fn malformed_regex_in_config_is_an_error() {
    let content = "irrelevant\n";
    let cfg = config(
        r#"
[parser.pattern]
regex = '(?P<timestamp>['
timestamp_format = "%Y-%m-%d %H:%M:%S"
"#,
    );

    let result = parse(&TextConfigParser::default(), &cfg, content);

    assert!(result.is_err());
}

#[test]
fn line_not_matching_pattern_is_an_error_with_context() {
    let content = "this line matches nothing useful\n";
    let cfg = config(
        r#"
[parser.pattern]
regex = '^(?P<timestamp>\d+)-(?P<level_raw>\w+)$'
timestamp_format = "%Y-%m-%d %H:%M:%S"
assume_offset = "UTC"
"#,
    );

    let result = parse(&TextConfigParser::default(), &cfg, content);

    let err = result.unwrap_err();
    assert!(err.contains("line 1"));
}

#[test]
fn field_mapping_unknown_target_is_an_error() {
    let content = "2026-07-28T12:00:00+0200 hello\n";
    let cfg = config(
        r#"
[parser.pattern]
regex = '^(?P<timestamp>\S+) (?P<msg>.*)$'
timestamp_format = "%Y-%m-%dT%H:%M:%S%z"

[parser.field_mapping]
sourcehost = "msg"
"#,
    );

    let result = parse(&TextConfigParser::default(), &cfg, content);

    assert!(result.is_err());
}

#[test]
fn field_mapping_unknown_capture_group_is_an_error() {
    let content = "2026-07-28T12:00:00+0200 hello\n";
    let cfg = config(
        r#"
[parser.pattern]
regex = '^(?P<timestamp>\S+) (?P<msg>.*)$'
timestamp_format = "%Y-%m-%dT%H:%M:%S%z"

[parser.field_mapping]
message = "does_not_exist"
"#,
    );

    let result = parse(&TextConfigParser::default(), &cfg, content);

    assert!(result.is_err());
}

#[test]
fn missing_timestamp_capture_group_is_an_error() {
    let content = "2026-07-28T12:00:00+0200 hello\n";
    let cfg = config(
        r#"
[parser.pattern]
regex = '^(?P<ts>\S+) (?P<msg>.*)$'
timestamp_format = "%Y-%m-%dT%H:%M:%S%z"
"#,
    );

    let result = parse(&TextConfigParser::default(), &cfg, content);

    assert!(result.is_err());
}

#[test]
fn end_to_end_through_parse_source_assigns_event_ids() {
    let content = "2026-07-28T12:00:00+0200 ERROR first\n2026-07-28T12:00:01+0200 INFO second\n";
    let cfg = config(
        r#"
[parser.pattern]
regex = '^(?P<timestamp>\S+) (?P<level_raw>\w+) (?P<msg>.*)$'
timestamp_format = "%Y-%m-%dT%H:%M:%S%z"

[parser.field_mapping]
level = "level_raw"
message = "msg"
"#,
    );

    let entries = parse_source(parse(&TextConfigParser::default(), &cfg, content), "4b8c").unwrap();

    assert_eq!(entries.len(), 2);
    assert_eq!(
        entries[0].event_id.source_file_id,
        entries[1].event_id.source_file_id
    );
    assert_eq!(entries[0].event_id.sequence_number, 0);
    assert_eq!(entries[1].event_id.sequence_number, 1);
    assert_eq!(entries[0].message.as_deref(), Some("first"));
    assert_eq!(entries[1].message.as_deref(), Some("second"));
}

const DAY: &str = r#"
[parser.pattern]
regex = '^(?P<timestamp>\S+ \S+) (?P<msg>.*)$'
timestamp_format = "%Y-%m-%d %H:%M:%S"

[parser.field_mapping]
message = "msg"
"#;

#[test]
fn a_time_of_its_own_zone_needs_no_other() {
    let zoned = parse_timestamp("2026-07-28 12:00 +0130", "%Y-%m-%d %H:%M %z", None, None).unwrap();
    assert_eq!(zoned, instant("2026-07-28T10:30:00Z"));
    let with_other =
        parse_timestamp("2026-07-28 12:00 +0130", "%Y-%m-%d %H:%M %z", Some(&fixed("UTC", 0)), Some(1999));
    assert_eq!(with_other, Ok(zoned));
}

#[test]
fn a_fixed_zone_is_subtracted() {
    let local = LocalTime { seconds: 100, nanos: 7 };
    assert_eq!(
        fixed("x", -3_600).resolve_local(local),
        Some(Timestamp { seconds: 3_700, nanos: 7 })
    );
}

#[test]
fn a_named_zone_knows_the_instants_of_some_times() {
    let local = LocalTime { seconds: 100, nanos: 0 };
    let zone = TimezoneSpec::Named {
        label: "x".to_string(),
        instants: vec![(local, Timestamp { seconds: 40, nanos: 0 })],
    };
    assert_eq!(zone.resolve_local(local), Some(Timestamp { seconds: 40, nanos: 0 }));
    assert_eq!(zone.resolve_local(LocalTime { seconds: 101, nanos: 0 }), None);
    let first = LocalTime { seconds: -8_334_601_228_800, nanos: 0 };
    assert!(fixed("x", 0).resolve_local(first).is_some());
    assert_eq!(fixed("x", 1).resolve_local(first), None);
}

#[test]
fn a_local_time_without_an_instant_is_an_error() {
    let zone = TimezoneSpec::Named { label: "Mars/Base".to_string(), instants: Vec::new() };
    let err = assuming("Mars/Base")
        .parse(&config(DAY), "2026-07-28 12:00:00 x\n", Some(&zone))
        .unwrap_err();
    assert!(err.contains("line 1"));
    assert!(err.contains("Mars/Base"));
}

#[test]
fn the_local_times_of_a_text_are_those_that_need_a_zone() {
    let content = "2026-07-28 12:00:00 a\nnothing\n1970-01-01 00:00:01 b\n";
    let times = TextConfigParser::default().local_times(&config(DAY), content);
    assert!(times.contains(&LocalTime { seconds: 1, nanos: 0 }));
    let zoned = config(
        "[parser.pattern]\nregex = '^(?P<timestamp>\\S+)'\ntimestamp_format = \"%Y-%m-%dT%H:%M:%S%z\"\n",
    );
    assert!(TextConfigParser::default().local_times(&zoned, "2026-07-28T12:00:00+0200\n").is_empty());
}

#[test]
fn a_blank_line_is_a_line_like_any_other() {
    let zone = fixed("UTC", 0);
    let err = assuming("UTC")
        .parse(&config(DAY), "2026-07-28 12:00:00 a\n\n2026-07-28 12:00:01 b\n", Some(&zone))
        .unwrap_err();
    assert_eq!(err, "line 2: does not match pattern.regex: \"\"");
    let records = assuming("UTC")
        .parse(&config(DAY), "2026-07-28 12:00:00 a\r\n2026-07-28 12:00:01 b", Some(&zone))
        .unwrap();
    assert_eq!(records.len(), 2);
    assert_eq!(records[0].message.as_deref(), Some("a"));
    assert_eq!(records[1].message.as_deref(), Some("b"));
}

#[test]
fn lines_before_the_first_start_make_a_block_of_their_own() {
    let cfg = config(
        r#"
[parser.pattern]
regex = '(?P<timestamp>\d{4}-\d{2}-\d{2} \d{2}:\d{2})'
timestamp_format = "%Y-%m-%d %H:%M"
multiline_start_pattern = '^START'
"#,
    );
    let content = "early 2026-07-28 12:00\nSTART 2026-07-28 12:01\nmore\n";
    let records = assuming("UTC").parse(&cfg, content, Some(&fixed("UTC", 0))).unwrap();
    assert_eq!(records.len(), 2);
    assert_eq!(records[1].raw, "START 2026-07-28 12:01\nmore");
}

#[test]
fn the_captures_of_a_block_make_its_record() {
    let fields = text_parser_fields(&config(DAY)).unwrap();
    assert_eq!(mapped_text(&fields.field_mapping, "message").as_deref(), Some("msg"));
    assert_eq!(mapped_text(&fields.field_mapping, "level"), None);
    let names = vec!["timestamp".to_string(), "msg".to_string(), "other".to_string()];
    let captures = Some(vec![
        Some("2026-07-28 12:00:00".to_string()),
        Some("m".to_string()),
        None,
    ]);
    let zone = fixed("UTC", 0);
    let record =
        record_from_captures(1, "raw".to_string(), &names, captures, &fields, Some(&zone)).unwrap();
    assert_eq!(record.message.as_deref(), Some("m"));
    assert_eq!(record.raw, "raw");
    assert_eq!(record.fields.get("msg").and_then(|v| v.as_text()).map(|s| s.as_str()), Some("m"));
    assert_eq!(record.fields.get("other"), Some(&peach::json::Json::Null));
    let err = record_from_captures(7, "raw".to_string(), &names, None, &fields, Some(&zone)).unwrap_err();
    assert!(err.contains("line 7"));
}

#[test]
fn a_configuration_without_a_pattern_is_an_error() {
    let bare = config("");
    assert!(text_parser_fields(&bare).unwrap_err().contains("pattern"));
    assert!(plan_text_parser(&bare).is_err());
    let no_format = config("[parser.pattern]\nregex = 'x'\n");
    assert!(text_parser_fields(&no_format).unwrap_err().contains("timestamp_format"));
    let no_regex = config("[parser.pattern]\ntimestamp_format = 'x'\n");
    assert!(text_parser_fields(&no_regex).unwrap_err().contains("regex"));
    let bad_year = config("[parser.pattern]\nregex = 'x'\ntimestamp_format = 'x'\nassume_year = 3000000000\n");
    assert!(text_parser_fields(&bad_year).is_err());
    let bad_start = config("[parser.pattern]\nregex = '(?P<timestamp>x)'\ntimestamp_format = 'x'\nmultiline_start_pattern = '('\n");
    assert!(plan_text_parser(&bad_start).is_err());
}

#[test]
fn sourcetype_is_text_config() {
    assert_eq!(TextConfigParser::default().sourcetype(), "text_config");
    assert_eq!(TextConfigParser::default().default_assume_offset, None);
}

#[test]
fn a_year_without_its_century_is_a_year() {
    let short = |format: &str, text: &str, offset: &str| {
        let cfg = config(&format!(
            "\n[parser.pattern]\nregex = '(?P<timestamp>.*)'\ntimestamp_format = \"{format}\"\n{offset}"
        ));
        let zone = fixed("UTC", 0);
        let zone = if offset.is_empty() { None } else { Some(&zone) };
        TextConfigParser::default().parse(&cfg, text, zone).unwrap()[0].timestamp_utc
    };
    // 2026-07-28T12:00:00Z
    let noon = Timestamp { seconds: 1_785_240_000, nanos: 0 };
    assert_eq!(short("%y-%m-%d %H:%M:%S %z", "26-07-28 12:00:00 +0000\n", ""), noon);
    assert_eq!(short("%G-W%V-%u %H:%M:%S %z", "2026-W31-2 12:00:00 +0000\n", ""), noon);
    assert_eq!(
        short("%y-%m-%d %H:%M:%S", "26-07-28 12:00:00\n", "assume_offset = \"UTC\"\nassume_year = 1999\n"),
        noon
    );
    assert_eq!(short("%s", "1785240000\n", ""), noon);
}

#[test]
fn the_year_of_a_week_is_a_year_where_the_day_is_named_by_the_week() {
    let read = |format: &str, text: &str, more: &str| {
        let cfg = config(&format!(
            "\n[parser.pattern]\nregex = '(?P<timestamp>.*)'\ntimestamp_format = \"{format}\"\n{more}"
        ));
        TextConfigParser::default().parse(&cfg, text, None)
    };
    // 2026-07-28T12:00:00Z
    let noon = Timestamp { seconds: 1_785_240_000, nanos: 0 };
    let by_week = ("%G-W%V-%u %H:%M:%S %z", "2026-W31-2 12:00:00 +0000\n");
    let by_month = ("%G-%m-%d %H:%M:%S %z", "2026-07-28 12:00:00 +0000\n");
    assert_eq!(read(by_week.0, by_week.1, "assume_year = 1999\n").unwrap()[0].timestamp_utc, noon);
    assert_eq!(read(by_month.0, by_month.1, "assume_year = 2026\n").unwrap()[0].timestamp_utc, noon);
    assert!(read(by_month.0, by_month.1, "assume_year = 1999\n").is_err());
    assert!(read(by_month.0, by_month.1, "").unwrap_err().contains("has no year"));
}

#[test]
fn groups_without_a_name_are_passed_over() {
    let cfg = config(
        "\n[parser.pattern]\nregex = '(a)(?P<timestamp>\\d+)(b)?(?P<rest>.*)'\ntimestamp_format = \"%s\"\n[parser.field_mapping]\nmessage = \"rest\"\n",
    );
    let records = TextConfigParser::default().parse(&cfg, "a1785240000c d\n", None).unwrap();
    assert_eq!(records[0].timestamp_utc, Timestamp { seconds: 1_785_240_000, nanos: 0 });
    assert_eq!(records[0].message.as_deref(), Some("c d"));
}

#[test]
fn a_pattern_may_be_written_as_a_list() {
    let listed = |more: &str| {
        config(&format!(
            "pattern = ['(?P<timestamp>\\d+:\\d+)', '%H:%M', '^x', 'UTC', 2026{more}]\n"
        ))
    };
    let fields = text_parser_fields(&listed("")).unwrap();
    assert_eq!(fields.pattern.timestamp_format, "%H:%M");
    assert_eq!(fields.pattern.multiline_start_pattern.as_deref(), Some("^x"));
    assert_eq!(fields.pattern.assume_offset.as_deref(), Some("UTC"));
    assert_eq!(fields.pattern.assume_year, Some(2026));
    assert!(text_parser_fields(&listed(", 1")).is_err());
    assert!(text_parser_fields(&config("pattern = ['x', '%H']\n")).is_err());
}
