//! What parsers have in common.

use peach::json::Json;
use peach::model::{assign_event_ids, texts_of_parts, ParsedRecord, PathPart};
use peach::parsers::{config_from_document, parse_source, ParserConfig};
use peach::time::Timestamp;
use peach::toml_doc::Toml;

fn records(count: usize) -> Vec<ParsedRecord> {
    (0..count)
        .map(|i| ParsedRecord {
            timestamp_utc: Timestamp { seconds: 0, nanos: 0 },
            level: None,
            message: Some(format!("entry {i}")),
            raw: format!("raw entry {i}"),
            fields: Json::Null,
        })
        .collect()
}

#[test]
fn parse_source_assigns_consistent_source_file_id_and_ascending_sequence_numbers() {
    let entries = parse_source(Ok(records(3)), "4b8c").unwrap();

    assert_eq!(entries.len(), 3);
    for entry in &entries {
        assert_eq!(entry.event_id.source_file_id, "4b8c");
    }
    assert_eq!(entries[0].event_id.sequence_number, 0);
    assert_eq!(entries[1].event_id.sequence_number, 1);
    assert_eq!(entries[2].event_id.sequence_number, 2);
    assert_eq!(entries[2].message.as_deref(), Some("entry 2"));
    assert_eq!(entries[2].raw, "raw entry 2");
}

#[test]
fn what_a_parser_refuses_is_no_source() {
    assert_eq!(parse_source(Err("bad".to_string()), "4b8c").unwrap_err(), "bad");
    assert!(assign_event_ids(Vec::new(), "x").is_empty());
}

#[test]
fn parser_config_round_trips_the_claude_md_example() {
    let toml_text = r#"
[parser]
name = "nginx_access"
sourcetype = "nginx"

[parser.pattern]
regex = '^(?P<ip>\S+) - - \[(?P<timestamp>[^\]]+)\] "(?P<request>[^"]+)" (?P<status>\d+)'
timestamp_format = "%d/%b/%Y:%H:%M:%S %z"

[parser.field_mapping]
level = "status"
message = "request"
"#;

    let config = ParserConfig::from_toml_str(toml_text).unwrap();

    assert_eq!(config.parser.name, "nginx_access");
    assert_eq!(config.parser.sourcetype, "nginx");
    assert!(config.parser.extra.iter().any(|(key, _)| key == "pattern"));
    assert!(config.parser.extra.iter().any(|(key, _)| key == "field_mapping"));
    assert!(!config.parser.extra.iter().any(|(key, _)| key == "name"));
}

#[test]
fn malformed_parser_config_is_an_error_not_a_panic() {
    let result = ParserConfig::from_toml_str("this is not valid toml [[[");

    assert!(result.is_err());
    let err = result.unwrap_err();
    assert!(err.message().ends_with(&err.reason));
}

#[test]
fn a_configuration_names_its_parser_and_source() {
    assert!(config_from_document(&Toml::Bool(true)).is_err());
    assert!(ParserConfig::from_toml_str("").unwrap_err().reason.contains("parser"));
    assert!(ParserConfig::from_toml_str("[parser]\nname = \"n\"\n").unwrap_err().reason.contains("sourcetype"));
    assert!(ParserConfig::from_toml_str("[parser]\nsourcetype = \"n\"\n").unwrap_err().reason.contains("name"));
    assert!(ParserConfig::from_toml_str("[parser]\nname = 1\nsourcetype = \"n\"\n").is_err());
}

#[test]
fn parts_that_are_no_text_are_left_out() {
    let parts = vec![
        PathPart { text: Some("a".to_string()), is_name: true },
        PathPart { text: None, is_name: true },
        PathPart { text: Some("b".to_string()), is_name: false },
    ];
    assert_eq!(texts_of_parts(&parts), vec!["a", "b"]);
}
