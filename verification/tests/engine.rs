//! Tagging of entries.

use peach::json::{parse_json, Json};
use peach::model::{EventId, LogEntry};
use peach::tagging::engine::{apply_import_time, evaluate_ad_hoc, re_tag, TaggableRow};
use peach::tagging::rule::Rule;
use peach::time::Timestamp;

fn sample_entry(sequence_number: u64, level: Option<&str>, fields: Json) -> LogEntry {
    LogEntry {
        event_id: EventId {
            source_file_id: "4b8c".to_string(),
            sequence_number,
        },
        timestamp_utc: Timestamp { seconds: 0, nanos: 0 },
        level: level.map(str::to_string),
        message: None,
        raw: "raw".to_string(),
        fields,
    }
}

fn sample_row(sequence_number: u64, level: Option<&str>) -> TaggableRow {
    TaggableRow {
        event_id: EventId {
            source_file_id: "4b8c".to_string(),
            sequence_number,
        },
        sourcetype: "aul".to_string(),
        level: level.map(str::to_string),
        message: None,
        fields: Json::Null,
    }
}

fn rule(text: &str) -> Rule {
    Rule::from_toml_str(text).unwrap()
}

fn generic_error() -> Rule {
    rule("[rule]\nname = \"generic_error\"\n[rule.match]\nlevel = \"ERROR\"\n[rule.tag]\nvalue = \"error\"\n")
}

#[test]
fn matching_entries_get_tagged_and_persisted() {
    let matching = sample_entry(0, Some("ERROR"), Json::Null);
    let non_matching = sample_entry(1, Some("INFO"), Json::Null);
    let entries = vec![matching, non_matching];

    let applied = apply_import_time(&vec![generic_error()], &entries, "text_config");

    assert_eq!(applied.len(), 1);
    assert_eq!(applied[0].event_id.source_file_id, "4b8c");
    assert_eq!(applied[0].event_id.sequence_number, 0);
    assert_eq!(applied[0].rule_name, "generic_error");
    assert_eq!(applied[0].tag_value, "error");
}

#[test]
fn one_entry_can_get_multiple_tags_from_multiple_rules() {
    let rule_a =
        rule("[rule]\nname = \"a\"\n[rule.match]\nlevel = \"ERROR\"\n[rule.tag]\nvalue = \"tag_a\"\n");
    let rule_b =
        rule("[rule]\nname = \"b\"\n[rule.match]\nsourcetype = \"aul\"\n[rule.tag]\nvalue = \"tag_b\"\n");
    let entry = sample_entry(0, Some("ERROR"), Json::Null);

    let applied = apply_import_time(&vec![rule_a, rule_b], &vec![entry], "aul");

    assert_eq!(applied.len(), 2);
    assert_eq!(applied[0].tag_value, "tag_a");
    assert_eq!(applied[1].tag_value, "tag_b");
}

#[test]
fn no_rules_or_no_entries_is_a_cheap_no_op() {
    let entry = sample_entry(0, Some("ERROR"), Json::Null);

    assert_eq!(apply_import_time(&Vec::new(), &vec![entry], "aul").len(), 0);
    assert_eq!(apply_import_time(&Vec::new(), &Vec::new(), "aul").len(), 0);
    assert_eq!(apply_import_time(&vec![generic_error()], &Vec::new(), "aul").len(), 0);
}

#[test]
fn re_tag_recomputes_import_tags_from_scratch() {
    let rows = vec![sample_row(0, Some("ERROR")), sample_row(1, Some("INFO"))];

    let tags = re_tag(&vec![generic_error()], &rows);

    assert_eq!(tags.len(), 1);
    assert_eq!(tags[0].event_id.sequence_number, 0);
    assert_eq!(tags[0].tag_value, "error");
}

#[test]
fn re_tag_with_no_rules_clears_all_tags() {
    assert_eq!(re_tag(&Vec::new(), &vec![sample_row(0, None)]).len(), 0);
}

#[test]
fn ad_hoc_matches_are_not_persisted() {
    let rows = vec![sample_row(0, Some("ERROR"))];

    let matched = evaluate_ad_hoc(&vec![generic_error()], &rows);

    assert_eq!(matched.len(), 1);
    assert_eq!(matched[0].source_file_id, "4b8c");
    assert_eq!(matched[0].sequence_number, 0);
}

#[test]
fn an_event_that_two_rules_match_is_found_once() {
    let by_source =
        rule("[rule]\nname = \"b\"\n[rule.match]\nsourcetype = \"aul\"\n[rule.tag]\nvalue = \"t\"\n");
    let rows = vec![sample_row(4, Some("ERROR")), sample_row(7, Some("INFO"))];
    let found = evaluate_ad_hoc(&vec![generic_error(), by_source], &rows);
    assert_eq!(found.iter().map(|e| e.sequence_number).collect::<Vec<_>>(), vec![4, 7]);
    // What is found is what gets a tag.
    let by_level = evaluate_ad_hoc(&vec![generic_error()], &rows);
    let tags = re_tag(&vec![generic_error()], &rows);
    assert_eq!(by_level.len(), 1);
    assert_eq!(tags.len(), 1);
    assert_eq!(by_level[0].sequence_number, tags[0].event_id.sequence_number);
}

#[test]
fn fields_of_the_entry_decide_too() {
    let rule = rule("[rule]\nname = \"s\"\n[rule.match]\nsubsystem = \"com.x\"\n[rule.tag]\nvalue = \"t\"\n");
    let entries = vec![
        sample_entry(0, None, parse_json(r#"{"subsystem": "com.x"}"#).unwrap()),
        sample_entry(1, None, parse_json(r#"{"subsystem": "com.y"}"#).unwrap()),
    ];
    assert_eq!(apply_import_time(&vec![rule], &entries, "aul").len(), 1);
}

#[test]
fn no_entry_gets_the_tag_of_a_rule_twice() {
    let other = "[rule]\nname = \"other\"\n[rule.match]\nsourcetype = \"aul\"\n[rule.tag]\nvalue = \"error\"\n";
    let rules = vec![generic_error(), rule(other)];
    let rows = vec![
        sample_row(0, Some("ERROR")),
        sample_row(1, Some("INFO")),
        sample_row(2, Some("ERROR")),
    ];
    let tags = re_tag(&rules, &rows);
    let mut seen: Vec<(u64, String)> =
        tags.iter().map(|t| (t.event_id.sequence_number, t.rule_name.clone())).collect();
    assert_eq!(seen.len(), 5);
    seen.dedup();
    assert_eq!(seen.len(), 5);
    let again = re_tag(&rules, &rows);
    assert_eq!(tags.len(), again.len());
}
