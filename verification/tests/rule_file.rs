//! Files of rules.

use peach::json::{parse_json, Json};
use peach::tagging::rule::Rule;
use peach::tagging::rule_file::{
    append_message_contains_pattern, create_message_contains_rule, create_rule, escape_toml_string,
    plan_pattern_edit, scan_rules_dir, slugify, DirEntryInfo, PatternEdit, RuleCondition, Slot,
    ValueKind,
};

fn entry(name: &str, is_file: bool) -> DirEntryInfo {
    DirEntryInfo { name: name.to_string(), is_file }
}

#[test]
fn slugify_lowercases_and_collapses_separators() {
    assert_eq!(slugify("Screen Lock!"), "screen_lock");
    assert_eq!(slugify("screen_lock"), "screen_lock");
    assert_eq!(slugify("  wifi -- status  "), "wifi_status");
}

#[test]
fn slugify_never_produces_an_empty_or_trailing_underscore_string() {
    assert_eq!(slugify("!!!"), "rule");
    assert_eq!(slugify(""), "rule");
    assert_eq!(slugify("trailing---"), "trailing");
}

#[test]
fn a_slug_is_its_own_slug() {
    for name in ["Screen Lock!", "ÄÖÜ", "a__b", "", "Über 9 Tage"] {
        let slug = slugify(name);
        assert_eq!(slugify(&slug), slug);
    }
    assert_eq!(slugify("Über 9 Tage"), "ber_9_tage");
}

#[test]
fn create_message_contains_rule_produces_a_parseable_matching_rule() {
    let text = create_message_contains_rule("my_rule", "Screen did lock", "screen_lock");

    let rule = Rule::from_toml_str(&text).unwrap();

    assert_eq!(rule.rule.name, "my_rule");
    assert_eq!(rule.rule.tag.value, "screen_lock");
    assert!(rule.matches("aul", None, Some("Screen did lock now"), &Json::Null));
}

#[test]
fn append_turns_a_bare_string_into_an_array_and_keeps_matching() {
    let text = create_message_contains_rule("my_rule", "Screen did lock", "screen_lock");

    let text = append_message_contains_pattern(&text, "screen is unlocked").unwrap();

    let rule = Rule::from_toml_str(&text).unwrap();
    let null = Json::Null;
    assert!(rule.matches("aul", None, Some("Screen did lock now"), &null));
    assert!(rule.matches("aul", None, Some("the screen is unlocked"), &null));
}

#[test]
fn append_extends_an_existing_array_without_duplicating() {
    let text = "[rule]\nname = \"r\"\n[rule.match]\nsourcetype = \"aul\"\nmessage_contains = [\"a\", \"b\"]\n[rule.tag]\nvalue = \"t\"\n";

    let text = append_message_contains_pattern(text, "c").unwrap();
    let text = append_message_contains_pattern(&text, "a").unwrap(); // already present

    let rule = Rule::from_toml_str(&text).unwrap();
    let null = Json::Null;
    assert!(rule.matches("aul", None, Some("has a in it"), &null));
    assert!(rule.matches("aul", None, Some("has c in it"), &null));
    assert_eq!(
        text.matches("\"a\"").count(),
        1,
        "must not duplicate an existing pattern"
    );
}

#[test]
fn append_preserves_unrelated_comments_in_the_file() {
    let text = "# provenance comment\n[rule]\nname = \"r\"\ndescription = \"d\"\n[rule.match]\nsourcetype = \"aul\"\nmessage_contains = \"a\"\n[rule.tag]\nvalue = \"t\"\n";

    let text = append_message_contains_pattern(text, "b").unwrap();

    assert!(text.contains("# provenance comment"));
}

#[test]
fn create_message_contains_rule_escapes_quotes_and_backslashes_in_the_pattern() {
    let text = create_message_contains_rule("r", r#"say "hi" \ ok"#, "t");

    let rule = Rule::from_toml_str(&text).unwrap();
    assert!(rule.matches(
        "aul",
        None,
        Some(r#"prefix say "hi" \ ok suffix"#),
        &Json::Null
    ));
}

#[test]
fn create_rule_with_message_contains_delegates_to_the_dedicated_function() {
    let text = create_rule(
        "r",
        "aul",
        &RuleCondition::MessageContains("Screen did lock".to_string()),
        "screen_lock",
    );

    let rule = Rule::from_toml_str(&text).unwrap();
    // Not bound to one kind of source.
    assert!(rule.matches("evtx", None, Some("Screen did lock now"), &Json::Null));
    assert_eq!(text, create_message_contains_rule("r", "Screen did lock", "screen_lock"));
}

#[test]
fn create_rule_with_field_equals_scopes_to_sourcetype_and_matches_via_normalized_field() {
    let text = create_rule(
        "logon_success_custom",
        "evtx",
        &RuleCondition::FieldEquals {
            field: "event_id",
            value: "4624".to_string(),
        },
        "my_logon_tag",
    );

    let rule = Rule::from_toml_str(&text).unwrap();
    assert_eq!(rule.rule.tag.value, "my_logon_tag");

    let matching_fields = parse_json(r#"{"Event": {"System": {"EventID": 4624}}}"#).unwrap();
    assert!(rule.matches("evtx", None, None, &matching_fields));

    let wrong_event = parse_json(r#"{"Event": {"System": {"EventID": 4625}}}"#).unwrap();
    assert!(!rule.matches("evtx", None, None, &wrong_event));

    // The same field and value, from another kind of source.
    assert!(!rule.matches("aul", None, None, &matching_fields));
}

#[test]
fn create_rule_with_field_equals_escapes_quotes_in_the_value() {
    let text = create_rule(
        "r",
        "aul",
        &RuleCondition::FieldEquals {
            field: "subsystem",
            value: r#"say "hi""#.to_string(),
        },
        "t",
    );

    let rule = Rule::from_toml_str(&text).unwrap();
    let fields = parse_json(r#"{"subsystem": "say \"hi\""}"#).unwrap();
    assert!(rule.matches("aul", None, None, &fields));
}

#[test]
fn scan_rules_dir_finds_only_toml_files_sorted_and_ignores_subdirectories() {
    let found = scan_rules_dir(&vec![
        entry("b_rule.toml", true),
        entry("a_rule.toml", true),
        entry("notes.txt", true),
        entry("subdir.toml", false),
    ]);

    assert_eq!(found, vec!["a_rule.toml", "b_rule.toml"]);
}

#[test]
fn scan_rules_dir_on_an_empty_directory_returns_an_empty_list() {
    assert_eq!(scan_rules_dir(&Vec::new()), Vec::<String>::new());
}

#[test]
fn a_hidden_file_named_toml_is_no_rule_file() {
    assert_eq!(
        scan_rules_dir(&vec![entry(".toml", true), entry("x.TOML", true), entry("a.b.toml", true)]),
        vec!["a.b.toml"]
    );
}

#[test]
fn escaping_marks_quotes_and_backslashes_only() {
    assert_eq!(escape_toml_string("a\"b\\c"), "a\\\"b\\\\c");
    assert_eq!(escape_toml_string("plain"), "plain");
    assert_eq!(escape_toml_string("\\\""), "\\\\\\\"");
}

#[test]
fn what_an_edit_does_depends_on_the_value_there() {
    let plan = |slot: &Slot| plan_pattern_edit(slot, "p");
    assert!(plan(&Slot::NoTable).unwrap_err().contains("[rule.match]"));
    assert!(matches!(plan(&Slot::Absent), Ok(PatternEdit::Insert)));
    assert!(matches!(plan(&Slot::Text("p".to_string())), Ok(PatternEdit::Keep)));
    assert!(matches!(plan(&Slot::Text("q".to_string())), Ok(PatternEdit::PairWith(q)) if q == "q"));
    assert!(matches!(plan(&Slot::Array(vec![None, Some("p".to_string())])), Ok(PatternEdit::Keep)));
    assert!(matches!(plan(&Slot::Array(vec![Some("q".to_string()), None])), Ok(PatternEdit::Push)));
    assert!(plan(&Slot::Other(ValueKind::Integer)).unwrap_err().contains("integer"));
    assert!(plan(&Slot::Other(ValueKind::Boolean)).unwrap_err().contains("boolean"));
    assert!(plan(&Slot::Other(ValueKind::Float)).unwrap_err().contains("float"));
    assert!(plan(&Slot::Other(ValueKind::Datetime)).unwrap_err().contains("datetime"));
    assert!(plan(&Slot::Other(ValueKind::InlineTable)).unwrap_err().contains("table"));
}

#[test]
fn every_form_of_the_pattern_key_is_edited_in_place() {
    let rule = |middle: &str| {
        format!("[rule]\nname = \"r\"\n[rule.match]\n{middle}[rule.tag]\nvalue = \"t\" # why\n")
    };
    let added = append_message_contains_pattern(&rule(""), "x").unwrap();
    assert_eq!(added, rule("message_contains = [\"x\"]\n"));
    let paired = append_message_contains_pattern(&rule("message_contains = \"a\"\n"), "x").unwrap();
    assert_eq!(paired, rule("message_contains = [\"a\", \"x\"]\n"));
    let pushed = append_message_contains_pattern(&rule("message_contains = [\"a\"]\n"), "x").unwrap();
    assert_eq!(pushed, rule("message_contains = [\"a\", \"x\"]\n"));
    let kept = append_message_contains_pattern(&rule("message_contains = [ \"x\" ]\n"), "x").unwrap();
    assert_eq!(kept, rule("message_contains = [ \"x\" ]\n"));
    assert!(append_message_contains_pattern(&rule("message_contains = 3\n"), "x").is_err());
    assert!(append_message_contains_pattern("[rule]\nname = \"r\"\n", "x").is_err());
    assert!(append_message_contains_pattern("[[[", "x").is_err());
}

#[test]
fn a_new_rule_is_read_back_and_matches_what_was_asked_for() {
    for pattern in ["plain", "with \"quotes\"", "a\\b", "tab\there", "ü = [x] # y", "\u{80}\u{9f}\u{2028}\u{feff}", ""] {
        let rule = Rule::from_toml_str(&create_message_contains_rule("r", pattern, "t")).unwrap();
        assert_eq!(rule.rule.name, "r");
        assert_eq!(rule.rule.tag.value, "t");
        assert_eq!(rule.rule.version, None);
        assert_eq!(rule.message_contains_needles, vec![pattern.to_string()]);
        assert!(rule.matches("any", None, Some(&format!("<{pattern}>")), &Json::Null));
        assert!(!rule.matches("any", None, None, &Json::Null));
    }
    for value in ["-9223372036854775808", "0", "007", "x", "9223372036854775808"] {
        let condition =
            RuleCondition::FieldEquals { field: "event_id", value: value.to_string() };
        let rule = Rule::from_toml_str(&create_rule("r", "evtx", &condition, "t")).unwrap();
        let shown = match value.parse::<i64>() {
            Ok(n) if n.to_string() == value => value.to_string(),
            _ => format!("\"{value}\""),
        };
        let fields = parse_json(&format!("{{\"event_id\": {shown}}}")).unwrap();
        assert!(rule.matches("evtx", None, None, &fields));
        assert!(!rule.matches("aul", None, None, &fields));
    }
}

#[test]
fn an_appended_pattern_leaves_the_rest_of_the_rule() {
    let forms = [
        "[rule]\nname = \"n\"\nversion = \"2\"\n[rule.match]\nlevel = \"ERROR\"\nmessage_contains = \"a\" # why\n[rule.tag]\nvalue = \"t\"\n",
        "[rule]\nname = \"n\"\nversion = \"2\"\nmatch = { level = \"ERROR\", message_contains = [\"a\"] }\ntag.value = \"t\"\n",
        "[rule]\nname = \"n\"\nversion = \"2\"\ntag = { value = \"t\" }\n[rule.match]\nmessage_contains = [\n  \"a\", # first\n]\nlevel = \"ERROR\"\n",
    ];
    for text in forms {
        let before = Rule::from_toml_str(text).unwrap();
        let more = append_message_contains_pattern(text, "b\n\"c\"").unwrap();
        let after = Rule::from_toml_str(&more).unwrap();
        assert_eq!(after.rule.name, before.rule.name);
        assert_eq!(after.rule.version, before.rule.version);
        assert_eq!(after.rule.tag.value, before.rule.tag.value);
        assert_eq!(after.rule.match_fields.len(), before.rule.match_fields.len());
        assert_eq!(
            after.message_contains_needles,
            vec!["a".to_string(), "b\n\"c\"".to_string()]
        );
        assert!(after.matches("x", Some("ERROR"), Some("xax"), &Json::Null));
        assert!(after.matches("x", Some("ERROR"), Some("b\n\"c\""), &Json::Null));
        assert!(!after.matches("x", Some("INFO"), Some("xax"), &Json::Null));

        let again = append_message_contains_pattern(&more, "a").unwrap();
        let same = Rule::from_toml_str(&again).unwrap();
        assert_eq!(same.message_contains_needles, after.message_contains_needles);
    }

    let bare = "[rule]\nname = \"n\"\n[rule.match.other]\nx = 1\n[rule.tag]\nvalue = \"t\"\n";
    let more = append_message_contains_pattern(bare, "p").unwrap();
    let after = Rule::from_toml_str(&more).unwrap();
    assert_eq!(after.message_contains_needles, vec!["p".to_string()]);
    assert_eq!(after.rule.match_fields.len(), 2);
}

#[test]
fn a_value_with_leading_zeros_is_matched_as_it_is() {
    for value in ["007", "+7", "-0"] {
        let condition =
            RuleCondition::FieldEquals { field: "subsystem", value: value.to_string() };
        let rule = Rule::from_toml_str(&create_rule("r", "aul", &condition, "t")).unwrap();
        let fields = |v: &str| parse_json(&format!("{{\"subsystem\": {v}}}")).unwrap();
        assert!(rule.matches("aul", None, None, &fields(&format!("\"{value}\""))));
        assert!(!rule.matches("aul", None, None, &fields("7")));
    }
}

#[test]
fn an_appended_pattern_leaves_every_comment() {
    let text = "# top\n[rule] # one\nname = \"r\"\n\n# above\n[rule.match] # two\n# over\nmessage_contains = \"a\" # note\nlevel = \"x\"\n# below\n\n[rule.tag]\nvalue = \"t\" # last\n# end\n";
    let pair = text.replace("\"a\" # note", "[\"a\", \"b\"] # note");
    let more = append_message_contains_pattern(text, "b").unwrap();
    assert_eq!(more, pair);
    assert_eq!(append_message_contains_pattern(&more, "b").unwrap(), more);
    assert_eq!(
        append_message_contains_pattern(&more, "c").unwrap(),
        text.replace("\"a\" # note", "[\"a\", \"b\", \"c\"] # note")
    );
    assert_eq!(append_message_contains_pattern(text, "a").unwrap(), text);

    let absent = text.replace("message_contains = \"a\" # note\n", "");
    assert_eq!(
        append_message_contains_pattern(&absent, "b").unwrap(),
        absent.replace("level = \"x\"\n", "level = \"x\"\nmessage_contains = [\"b\"]\n")
    );
    let empty = "[rule]\n[rule.match]\n# note\n\n[rule.tag] # tag\nvalue = 1\n";
    assert_eq!(
        append_message_contains_pattern(empty, "b").unwrap(),
        "[rule]\n[rule.match]\nmessage_contains = [\"b\"]\n# note\n\n[rule.tag] # tag\nvalue = 1\n"
    );
    let list = "[rule.match]\nmessage_contains = []\n";
    assert_eq!(
        append_message_contains_pattern(list, "b").unwrap(),
        "[rule.match]\nmessage_contains = [\"b\"]\n"
    );
}

#[test]
fn what_is_no_rule_keeps_its_values_too() {
    let text = "[rule.match]\n\"$__toml_private_datetime\" = \"1979-05-27\"\nmessage_contains = \"a\"\n[other]\nx = 1\n";
    let more = append_message_contains_pattern(text, "b").unwrap();
    assert_eq!(more, text.replace("\"a\"", "[\"a\", \"b\"]"));
}

#[test]
fn carriage_returns_are_written_in_strings_only() {
    let text = "[rule]\r\nname = \"r\"\r\n[rule.match]\r\nmessage_contains = \"a\" # note\r\n[rule.tag]\r\nvalue = \"t\"\r\n";
    let more = append_message_contains_pattern(text, "b").unwrap();
    assert_eq!(
        more,
        "[rule]\nname = \"r\"\n[rule.match]\nmessage_contains = [\"a\", \"b\"] # note\n[rule.tag]\nvalue = \"t\"\n"
    );
    assert_eq!(append_message_contains_pattern(&more, "b").unwrap(), more);

    let long = "[rule]\nname = \"r\"\n[rule.match]\nmessage_contains = \"\"\"a\r\nb\"\"\"\n[rule.tag]\nvalue = \"t\"\n";
    let more = append_message_contains_pattern(long, "c").unwrap();
    let rule = Rule::from_toml_str(&more).unwrap();
    assert_eq!(rule.message_contains_needles, ["a\r\nb", "c"]);
}

#[test]
fn comments_are_kept_whatever_the_file_looks_like() {
    let text = "# top: don't lose it\r\n[rule]\r\nname = \"r \\\"q\\\"\" # the name\r\n[rule.match]\r\n# above\r\nmessage_contains = [\r\n  \"a\", # first\r\n  # between 'quotes'\r\n  \"b\" # second\r\n]\r\n# below\r\n[rule.tag] # the tag\r\nvalue = \"t\"\r\n# end";
    let more = append_message_contains_pattern(text, "c").unwrap();
    for comment in [
        "# top: don't lose it\n",
        " # the name\n",
        "\n# above\n",
        "# first\n",
        "  # between 'quotes'\n",
        "# second\n",
        "\n# below\n",
        "# the tag\n",
        "# end",
    ] {
        assert!(more.contains(comment), "{comment:?} in {more:?}");
    }
    assert_eq!(more, text.replace('\r', "").replace("# second\n]", "# second\n, \"c\"]"));
    let rule = Rule::from_toml_str(&more).unwrap();
    assert_eq!(rule.message_contains_needles, ["a", "b", "c"]);
    assert_eq!(append_message_contains_pattern(&more, "c").unwrap(), more);
}

#[test]
fn a_pattern_is_put_in_at_one_place() {
    let text = "[rule]\nname = \"r\"\nmatch = { level = \"x\" } # inline\n[rule.tag]\nvalue = \"t\" # tag\n";
    assert_eq!(
        append_message_contains_pattern(text, "c").unwrap(),
        text.replace("\"x\" }", "\"x\" , message_contains = [\"c\"] }")
    );
    let dotted = "[rule]\nname = \"r\"\nmatch.level = \"x\" # dotted\n# more\ntag.value = \"t\"\n";
    assert_eq!(
        append_message_contains_pattern(dotted, "c").unwrap(),
        dotted.replace("# dotted\n", "# dotted\nmatch.message_contains = [\"c\"]\n")
    );
    let empty = "[rule]\nname = \"r\"\n[rule.match]\nmessage_contains = [ # none\n]\n[rule.tag]\nvalue = \"t\"\n";
    assert_eq!(
        append_message_contains_pattern(empty, "c").unwrap(),
        empty.replace("[ # none", "[\"c\" # none")
    );
    let moved = "[rule]\nmatch.level = \"x\"\n# the name\nname = \"r\"\n# two\nmatch.host = \"h\"\ntag.value = \"t\"\n";
    assert_eq!(
        append_message_contains_pattern(moved, "c").unwrap(),
        "[rule]\nmatch.level = \"x\"\n# two\nmatch.host = \"h\"\nmatch.message_contains = [\"c\"]\n# the name\nname = \"r\"\ntag.value = \"t\"\n"
    );
    let below = "[rule]\nname = \"r\"\n# sub\n[rule.match.sub]\nx = 1\n[rule.tag]\nvalue = \"t\"\n";
    let more = append_message_contains_pattern(below, "c").unwrap();
    assert_eq!(
        more,
        below.replace("# sub\n", "\n[rule.match]\nmessage_contains = [\"c\"]\n# sub\n")
    );
    assert_eq!(append_message_contains_pattern(&more, "c").unwrap(), more);
}
