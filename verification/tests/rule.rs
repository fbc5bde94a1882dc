//! Tagging rules.

use peach::json::{parse_json, Json};
use peach::tagging::rule::{normalized_field, rule_from_document, Rule};
use peach::toml_doc::Toml;

fn json(text: &str) -> Json {
    parse_json(text).unwrap()
}

fn with_condition(condition: &str) -> Rule {
    Rule::from_toml_str(&format!(
        "[rule]\nname = \"r\"\n[rule.match]\n{condition}\n[rule.tag]\nvalue = \"t\"\n"
    ))
    .unwrap()
}

#[test]
fn parses_the_evtx_style_example() {
    let toml_text = r#"
[rule]
name = "failed_logon"
description = "Windows fehlgeschlagene Anmeldung"

[rule.match]
sourcetype = "evtx"
event_id = 4625

[rule.tag]
value = "auth_failure"
"#;
    let rule = Rule::from_toml_str(toml_text).unwrap();

    assert_eq!(rule.rule.name, "failed_logon");
    assert_eq!(rule.rule.tag.value, "auth_failure");
    assert_eq!(
        rule.rule
            .match_fields
            .iter()
            .find(|(key, _)| key == "sourcetype")
            .map(|(_, value)| matches!(value, Toml::Text(text) if text == "evtx")),
        Some(true)
    );
}

#[test]
fn parses_the_generic_level_example() {
    let toml_text = r#"
[rule]
name = "generic_error"
description = "Cross-Source: alles mit level=ERROR"

[rule.match]
level = "ERROR"

[rule.tag]
value = "error"
"#;
    let rule = Rule::from_toml_str(toml_text).unwrap();

    assert_eq!(rule.rule.name, "generic_error");
    assert_eq!(rule.rule.tag.value, "error");
}

#[test]
fn parses_an_explicit_version_field() {
    let toml_text = r#"
[rule]
name = "aul_airplane_mode"
description = "..."
version = "3"

[rule.match]
sourcetype = "aul"

[rule.tag]
value = "airplane_mode"
"#;
    let rule = Rule::from_toml_str(toml_text).unwrap();
    assert_eq!(rule.rule.version.as_deref(), Some("3"));
}

#[test]
fn version_defaults_to_none_when_absent() {
    let rule = Rule::from_toml_str(
        "[rule]\nname = \"e\"\n[rule.match]\nsourcetype = \"aul\"\n[rule.tag]\nvalue = \"t\"\n",
    )
    .unwrap();
    assert_eq!(rule.rule.version, None);
}

#[test]
fn malformed_rule_toml_is_an_error_not_a_panic() {
    let result = Rule::from_toml_str("this is not valid toml [[[");

    assert!(result.is_err());
}

#[test]
fn matches_on_generic_level_field() {
    let rule = Rule::from_toml_str(
        "[rule]\nname = \"e\"\n[rule.match]\nlevel = \"ERROR\"\n[rule.tag]\nvalue = \"error\"\n",
    )
    .unwrap();

    let null = Json::Null;
    assert!(rule.matches("text_config", Some("ERROR"), None, &null));
    assert!(!rule.matches("text_config", Some("INFO"), None, &null));
    assert!(!rule.matches("text_config", None, None, &null));
}

#[test]
fn matches_on_sourcetype() {
    let rule = Rule::from_toml_str(
        "[rule]\nname = \"e\"\n[rule.match]\nsourcetype = \"aul\"\n[rule.tag]\nvalue = \"t\"\n",
    )
    .unwrap();
    let null = Json::Null;

    assert!(rule.matches("aul", None, None, &null));
    assert!(!rule.matches("evtx", None, None, &null));
}

#[test]
fn matches_on_evtx_event_id_via_nested_json_path() {
    let rule = Rule::from_toml_str(
        "[rule]\nname = \"failed_logon\"\n[rule.match]\nsourcetype = \"evtx\"\nevent_id = 4625\n[rule.tag]\nvalue = \"auth_failure\"\n",
    )
    .unwrap();

    let matching = json(r#"{"Event": {"System": {"EventID": 4625}}}"#);
    let wrong_id = json(r#"{"Event": {"System": {"EventID": 4624}}}"#);
    let missing_field = json(r#"{"Event": {"System": {}}}"#);

    assert!(rule.matches("evtx", None, None, &matching));
    assert!(!rule.matches("evtx", None, None, &wrong_id));
    assert!(!rule.matches("evtx", None, None, &missing_field));
}

#[test]
fn matches_on_evtx_provider_via_nested_json_path() {
    let rule = Rule::from_toml_str(
        "[rule]\nname = \"security_auditing\"\n[rule.match]\nsourcetype = \"evtx\"\nprovider = \"Microsoft-Windows-Security-Auditing\"\n[rule.tag]\nvalue = \"security_auditing\"\n",
    )
    .unwrap();

    let matching = json(r#"{ "Event": {"System": {"Provider_attributes": {"Name": "Microsoft-Windows-Security-Auditing"}}} }"#);
    let other_provider = json(r#"{ "Event": {"System": {"Provider_attributes": {"Name": "Microsoft-Windows-Kernel-General"}}} }"#);

    assert!(rule.matches("evtx", None, None, &matching));
    assert!(!rule.matches("evtx", None, None, &other_provider));
}

#[test]
fn matches_on_evtx_subsystem_via_the_same_nested_path_as_provider() {
    let rule = Rule::from_toml_str(
        "[rule]\nname = \"security_auditing\"\n[rule.match]\nsourcetype = \"evtx\"\nsubsystem = \"Microsoft-Windows-Security-Auditing\"\n[rule.tag]\nvalue = \"security_auditing\"\n",
    )
    .unwrap();

    let matching = json(r#"{ "Event": {"System": {"Provider_attributes": {"Name": "Microsoft-Windows-Security-Auditing"}}} }"#);
    let other_provider = json(r#"{ "Event": {"System": {"Provider_attributes": {"Name": "Microsoft-Windows-Kernel-General"}}} }"#);

    assert!(rule.matches("evtx", None, None, &matching));
    assert!(!rule.matches("evtx", None, None, &other_provider));
}

#[test]
fn matches_on_evtx_host_via_nested_json_path() {
    let rule = Rule::from_toml_str(
        "[rule]\nname = \"h\"\n[rule.match]\nsourcetype = \"evtx\"\nhost = \"WORKSTATION1\"\n[rule.tag]\nvalue = \"t\"\n",
    )
    .unwrap();

    let matching = json(r#"{"Event": {"System": {"Computer": "WORKSTATION1"}}}"#);
    let other_host = json(r#"{"Event": {"System": {"Computer": "WORKSTATION2"}}}"#);

    assert!(rule.matches("evtx", None, None, &matching));
    assert!(!rule.matches("evtx", None, None, &other_host));
}

#[test]
fn matches_on_journald_host_and_process_via_their_actual_field_names() {
    let host_rule = Rule::from_toml_str(
        "[rule]\nname = \"h\"\n[rule.match]\nsourcetype = \"journald\"\nhost = \"web01\"\n[rule.tag]\nvalue = \"t\"\n",
    )
    .unwrap();
    let process_rule = Rule::from_toml_str(
        "[rule]\nname = \"p\"\n[rule.match]\nsourcetype = \"journald\"\nprocess = \"sshd\"\n[rule.tag]\nvalue = \"t\"\n",
    )
    .unwrap();

    let entry = json(r#"{"_HOSTNAME": "web01", "SYSLOG_IDENTIFIER": "sshd"}"#);
    let other_entry = json(r#"{"_HOSTNAME": "web02", "_COMM": "cron"}"#);

    assert!(host_rule.matches("journald", None, None, &entry));
    assert!(!host_rule.matches("journald", None, None, &other_entry));
    assert!(process_rule.matches("journald", None, None, &entry));
    assert!(!process_rule.matches("journald", None, None, &other_entry));

    // `_COMM` fallback when `SYSLOG_IDENTIFIER` is absent.
    let comm_only = json(r#"{"_COMM": "sshd"}"#);
    assert!(process_rule.matches("journald", None, None, &comm_only));
}

#[test]
fn evtx_normalized_fields_never_match_a_non_evtx_sourcetype() {
    let rule = Rule::from_toml_str(
        "[rule]\nname = \"e\"\n[rule.match]\nevent_id = 4625\n[rule.tag]\nvalue = \"t\"\n",
    )
    .unwrap();

    let looks_like_it_could_match = json(r#"{"Event": {"System": {"EventID": 4625}}}"#);

    assert!(!rule.matches("aul", None, None, &looks_like_it_could_match));
    assert!(!rule.matches("text_config", None, None, &looks_like_it_could_match));
}

#[test]
fn matches_on_a_flat_source_specific_field_via_generic_fallback() {
    let rule = Rule::from_toml_str(
        "[rule]\nname = \"mdns\"\n[rule.match]\nsourcetype = \"aul\"\nsubsystem = \"com.apple.mDNSResponder\"\n[rule.tag]\nvalue = \"mdns\"\n",
    )
    .unwrap();

    let matching = json(r#"{"subsystem": "com.apple.mDNSResponder"}"#);
    let other_subsystem = json(r#"{"subsystem": "com.apple.wifi"}"#);

    assert!(rule.matches("aul", None, None, &matching));
    assert!(!rule.matches("aul", None, None, &other_subsystem));
}

#[test]
fn matches_on_biome_stream_via_generic_fallback() {
    let rule = Rule::from_toml_str(
        "[rule]\nname = \"screen_locked\"\n[rule.match]\nsourcetype = \"biome\"\nstream = \"Device.ScreenLocked\"\n[rule.tag]\nvalue = \"screen_locked\"\n",
    )
    .unwrap();

    let matching = json(r#"{"stream": "Device.ScreenLocked"}"#);
    let other_stream = json(r#"{"stream": "Device.Wireless.Bluetooth"}"#);

    assert!(rule.matches("biome", None, None, &matching));
    assert!(!rule.matches("biome", None, None, &other_stream));
}

#[test]
fn matches_on_biome_screentime_bundle_id_via_stream_conditioned_pointer() {
    let rule = Rule::from_toml_str(
        "[rule]\nname = \"app_usage\"\n[rule.match]\nsourcetype = \"biome\"\nstream = \"ScreenTime.AppUsage\"\nbundle_id = \"com.example.app\"\n[rule.tag]\nvalue = \"app_usage\"\n",
    )
    .unwrap();

    let matching = json(r#"{ "stream": "ScreenTime.AppUsage", "payload": {"3": {"utf8": "com.example.app", "nested": null, "hex": "..."}} }"#);
    let other_bundle = json(r#"{ "stream": "ScreenTime.AppUsage", "payload": {"3": {"utf8": "com.other.app", "nested": null, "hex": "..."}} }"#);

    assert!(rule.matches("biome", None, None, &matching));
    assert!(!rule.matches("biome", None, None, &other_bundle));
}

#[test]
fn matches_on_biome_keyboard_token_text_via_nested_pointer() {
    let rule = Rule::from_toml_str(
        "[rule]\nname = \"token\"\n[rule.match]\nsourcetype = \"biome\"\nstream = \"Keyboard.TokenFrequency\"\ntoken_text = \"hello\"\n[rule.tag]\nvalue = \"token\"\n",
    )
    .unwrap();

    let matching = json(r#"{ "stream": "Keyboard.TokenFrequency", "payload": {"1": {"nested": {"1": {"utf8": "hello", "nested": null, "hex": "..."}}, "utf8": null, "hex": "..."}} }"#);

    assert!(rule.matches("biome", None, None, &matching));
}

#[test]
fn biome_bundle_id_from_one_stream_does_not_leak_into_another_streams_field_3() {
    let rule = Rule::from_toml_str(
        "[rule]\nname = \"app_usage\"\n[rule.match]\nsourcetype = \"biome\"\nbundle_id = \"com.example.app\"\n[rule.tag]\nvalue = \"app_usage\"\n",
    )
    .unwrap();

    let mail_record = json(r#"{ "stream": "ProactiveHarvesting.Mail", "payload": {"3": 4868046054186926080} }"#);

    assert!(!rule.matches("biome", None, None, &mail_record));
}

#[test]
fn biome_normalized_fields_never_match_a_non_biome_sourcetype() {
    let rule = Rule::from_toml_str(
        "[rule]\nname = \"b\"\n[rule.match]\nbundle_id = \"com.example.app\"\n[rule.tag]\nvalue = \"t\"\n",
    )
    .unwrap();

    let looks_like_it_could_match = json(r#"{ "stream": "ScreenTime.AppUsage", "payload": {"3": {"utf8": "com.example.app", "nested": null, "hex": "..."}} }"#);

    assert!(!rule.matches("aul", None, None, &looks_like_it_could_match));
}

#[test]
fn matches_on_biome_state_raw_shared_across_streams_with_different_field_numbers() {
    let locked_rule = Rule::from_toml_str(
        "[rule]\nname = \"l\"\n[rule.match]\nsourcetype = \"biome\"\nstream = \"Device.ScreenLocked\"\nstate_raw = 1\n[rule.tag]\nvalue = \"t\"\n",
    )
    .unwrap();
    let wifi_rule = Rule::from_toml_str(
        "[rule]\nname = \"w\"\n[rule.match]\nsourcetype = \"biome\"\nstream = \"Device.Wireless.WiFi\"\nstate_raw = 1\n[rule.tag]\nvalue = \"t\"\n",
    )
    .unwrap();

    let locked = json(r#"{"stream": "Device.ScreenLocked", "payload": {"1": 1}}"#);
    let unlocked = json(r#"{"stream": "Device.ScreenLocked", "payload": {"1": 0}}"#);
    let wifi_connected = json(r#"{"stream": "Device.Wireless.WiFi", "payload": {"1": {"utf8": "HomeNet", "nested": null, "hex": "..."}, "2": 1}}"#);

    assert!(locked_rule.matches("biome", None, None, &locked));
    assert!(!locked_rule.matches("biome", None, None, &unlocked));
    assert!(wifi_rule.matches("biome", None, None, &wifi_connected));
    // The locked rule's field-1 lookup must not accidentally match
    // WiFi's field 1 (the SSID, not a state).
    assert!(!locked_rule.matches("biome", None, None, &wifi_connected));
}

#[test]
fn matches_on_biome_reachable_only_keys_with_no_built_in_rule() {
    let ssid_rule = Rule::from_toml_str(
        "[rule]\nname = \"s\"\n[rule.match]\nsourcetype = \"biome\"\nstream = \"Device.Wireless.WiFi\"\nwifi_ssid = \"HomeNet\"\n[rule.tag]\nvalue = \"t\"\n",
    )
    .unwrap();
    let tz_rule = Rule::from_toml_str(
        "[rule]\nname = \"tz\"\n[rule.match]\nsourcetype = \"biome\"\nstream = \"Device.TimeZone\"\ntimezone_name = \"Europe/Berlin\"\n[rule.tag]\nvalue = \"t\"\n",
    )
    .unwrap();

    let wifi = json(r#"{ "stream": "Device.Wireless.WiFi", "payload": {"1": {"utf8": "HomeNet", "nested": null, "hex": "..."}, "2": 1} }"#);
    let tz = json(r#"{ "stream": "Device.TimeZone", "payload": {"2": {"utf8": "Europe/Berlin", "nested": null, "hex": "..."}} }"#);

    assert!(ssid_rule.matches("biome", None, None, &wifi));
    assert!(tz_rule.matches("biome", None, None, &tz));
}

#[test]
fn matches_on_biome_nested_harvested_message_sender() {
    let rule = Rule::from_toml_str(
        "[rule]\nname = \"m\"\n[rule.match]\nsourcetype = \"biome\"\nstream = \"ProactiveHarvesting.Messages\"\nharvested_message_sender = \"+15551234567\"\n[rule.tag]\nvalue = \"t\"\n",
    )
    .unwrap();

    let matching = json(r#"{ "stream": "ProactiveHarvesting.Messages", "payload": {"11": {"nested": {"1": {"utf8": "+15551234567", "nested": null, "hex": "..."}}, "utf8": null, "hex": "..."}} }"#);

    assert!(rule.matches("biome", None, None, &matching));
}

#[test]
fn matches_message_contains_against_array_of_substrings() {
    let rule = Rule::from_toml_str(
        "[rule]\nname = \"screen_lock\"\n[rule.match]\nmessage_contains = [\"Screen did lock\", \"screen is unlocked\"]\n[rule.tag]\nvalue = \"screen_lock_state\"\n",
    )
    .unwrap();
    let null = Json::Null;

    assert!(rule.matches("aul", None, Some("Screen did lock now"), &null));
    assert!(rule.matches("aul", None, Some("the screen is unlocked"), &null));
    assert!(!rule.matches("aul", None, Some("unrelated message"), &null));
    assert!(!rule.matches("aul", None, None, &null));
}

#[test]
fn matches_message_contains_against_a_single_bare_string() {
    let rule = Rule::from_toml_str(
        "[rule]\nname = \"flashlight\"\n[rule.match]\nmessage_contains = \"[Flashlight Controller]\"\n[rule.tag]\nvalue = \"flashlight\"\n",
    )
    .unwrap();
    let null = Json::Null;

    assert!(rule.matches("aul", None, Some("[Flashlight Controller] on"), &null));
    assert!(!rule.matches("aul", None, Some("unrelated"), &null));
}

#[test]
fn message_contains_needles_are_precomputed_once_at_parse_time() {
    let array_rule = Rule::from_toml_str(
        "[rule]\nname = \"a\"\n[rule.match]\nmessage_contains = [\"foo\", \"bar\"]\n[rule.tag]\nvalue = \"t\"\n",
    )
    .unwrap();
    assert_eq!(array_rule.message_contains_needles, vec!["foo", "bar"]);

    let bare_string_rule = Rule::from_toml_str(
        "[rule]\nname = \"b\"\n[rule.match]\nmessage_contains = \"foo\"\n[rule.tag]\nvalue = \"t\"\n",
    )
    .unwrap();
    assert_eq!(bare_string_rule.message_contains_needles, vec!["foo"]);

    let no_message_contains_rule = Rule::from_toml_str(
        "[rule]\nname = \"c\"\n[rule.match]\nsourcetype = \"aul\"\n[rule.tag]\nvalue = \"t\"\n",
    )
    .unwrap();
    assert!(no_message_contains_rule.message_contains_needles.is_empty());
}

#[test]
fn message_contains_with_non_string_value_never_matches() {
    let rule = Rule::from_toml_str(
        "[rule]\nname = \"bad\"\n[rule.match]\nmessage_contains = 42\n[rule.tag]\nvalue = \"t\"\n",
    )
    .unwrap();

    assert!(!rule.matches("aul", None, Some("anything"), &Json::Null));
}

#[test]
fn all_conditions_must_match() {
    let rule = Rule::from_toml_str(
        "[rule]\nname = \"e\"\n[rule.match]\nsourcetype = \"evtx\"\nlevel = \"ERROR\"\n[rule.tag]\nvalue = \"t\"\n",
    )
    .unwrap();
    let null = Json::Null;

    assert!(rule.matches("evtx", Some("ERROR"), None, &null));
    assert!(!rule.matches("text_config", Some("ERROR"), None, &null));
}

#[test]
fn a_rule_without_conditions_always_holds() {
    let rule = with_condition("");
    assert!(rule.matches("", None, None, &Json::Null));
    assert!(rule.matches("aul", Some("x"), Some("y"), &json("[1]")));
}

#[test]
fn a_number_is_not_its_decimal_text() {
    let as_text = with_condition("event_id = \"4624\"\nsourcetype = \"evtx\"");
    assert!(!as_text.matches("evtx", None, None, &json(r#"{"Event": {"System": {"EventID": 4624}}}"#)));
    let negative = with_condition("offset = -3");
    assert!(negative.matches("aul", None, None, &json(r#"{"offset": -3}"#)));
    assert!(!negative.matches("aul", None, None, &json(r#"{"offset": 3}"#)));
    let number = with_condition("size = 7");
    assert!(number.matches("aul", None, None, &json(r#"{"size": 7}"#)));
    assert!(!number.matches("aul", None, None, &json(r#"{"size": "7"}"#)));
    assert!(!number.matches("aul", None, None, &json(r#"{"size": 7.0}"#)));
}

#[test]
fn booleans_and_floats_compare_by_value() {
    let flag = with_condition("ok = true");
    assert!(flag.matches("aul", None, None, &json(r#"{"ok": true}"#)));
    assert!(!flag.matches("aul", None, None, &json(r#"{"ok": false}"#)));
    let half = with_condition("share = 0.5");
    assert!(half.matches("aul", None, None, &json(r#"{"share": 0.5}"#)));
    assert!(!half.matches("aul", None, None, &json(r#"{"share": 0.25}"#)));
    let two = with_condition("share = 2.0");
    assert!(two.matches("aul", None, None, &json(r#"{"share": 2}"#)));
    let zero = with_condition("share = -0.0");
    assert!(zero.matches("aul", None, None, &json(r#"{"share": 0}"#)));
    let minus_two = with_condition("share = -2.0");
    assert!(minus_two.matches("aul", None, None, &json(r#"{"share": -2}"#)));
}

#[test]
fn a_condition_on_a_list_never_holds() {
    let list = with_condition("tags = [1, 2]");
    assert!(!list.matches("aul", None, None, &json(r#"{"tags": [1, 2]}"#)));
}

#[test]
fn more_conditions_hold_of_no_more() {
    let one = with_condition("level = \"E\"");
    let two = with_condition("level = \"E\"\nsourcetype = \"aul\"");
    for (sourcetype, level) in [("aul", "E"), ("aul", "I"), ("evtx", "E")] {
        if two.matches(sourcetype, Some(level), None, &Json::Null) {
            assert!(one.matches(sourcetype, Some(level), None, &Json::Null));
        }
    }
    assert!(two.matches("aul", Some("E"), None, &Json::Null));
}

#[test]
fn keys_of_every_source_are_found_where_the_source_keeps_them() {
    let fields = json(r#"{"_HOSTNAME": "h", "_COMM": "c", "process": "p"}"#);
    assert_eq!(normalized_field("host", "journald", &fields), Some(&Json::Text("h".to_string())));
    assert_eq!(normalized_field("process", "journald", &fields), Some(&Json::Text("c".to_string())));
    assert_eq!(normalized_field("process", "aul", &fields), None);
    assert_eq!(normalized_field("event_id", "aul", &fields), None);
}

#[test]
fn a_document_that_is_no_rule_names_what_is_wrong() {
    let table = |members: Vec<(&str, Toml)>| {
        Toml::Table(members.into_iter().map(|(k, v)| (k.to_string(), v)).collect())
    };
    let text = |s: &str| Toml::Text(s.to_string());
    assert!(rule_from_document(&Toml::Integer(1)).is_err());
    assert!(rule_from_document(&table(vec![])).unwrap_err().contains("rule"));
    let no_name = table(vec![(
        "rule",
        table(vec![("match", table(vec![])), ("tag", table(vec![("value", text("t"))]))]),
    )]);
    assert!(rule_from_document(&no_name).unwrap_err().contains("name"));
    let no_tag = table(vec![("rule", table(vec![("name", text("n")), ("match", table(vec![]))]))]);
    assert!(rule_from_document(&no_tag).unwrap_err().contains("tag"));
    let no_match = table(vec![(
        "rule",
        table(vec![("name", text("n")), ("tag", table(vec![("value", text("t"))]))]),
    )]);
    assert!(rule_from_document(&no_match).unwrap_err().contains("match"));
    let number_name = table(vec![(
        "rule",
        table(vec![
            ("name", Toml::Integer(3)),
            ("match", table(vec![])),
            ("tag", table(vec![("value", text("t"))])),
        ]),
    )]);
    assert!(rule_from_document(&number_name).is_err());
    let good = table(vec![(
        "rule",
        table(vec![
            ("name", text("n")),
            ("match", table(vec![("level", text("E"))])),
            ("tag", table(vec![("value", text("t"))])),
        ]),
    )]);
    let rule = rule_from_document(&good).unwrap();
    assert_eq!(rule.rule.description, None);
    assert!(rule.matches("x", Some("E"), None, &Json::Null));
}

#[test]
fn an_unreadable_rule_says_so() {
    let err = Rule::from_toml_str("[[[").unwrap_err();
    assert!(err.message().len() > err.reason.len());
    assert!(err.message().ends_with(&err.reason));
}

#[test]
fn a_condition_on_a_field_that_is_not_there_never_holds() {
    let rule = with_condition("provider = \"x\"");
    assert!(!rule.matches("evtx", None, Some("x"), &json(r#"{"Event": {"System": {}}}"#)));
    assert!(!rule.matches("aul", None, Some("x"), &Json::Null));
    assert!(rule.matches("aul", None, None, &json(r#"{"provider": "x"}"#)));
}

#[test]
fn a_rule_may_be_written_as_a_list() {
    let listed = |fields: &str| Rule::from_toml_str(&format!("rule = [{fields}]\n"));
    let rule = listed(r#""n", "d", "1", { message_contains = "a" }, ["t"]"#).unwrap();
    assert_eq!(rule.rule.name, "n");
    assert_eq!(rule.rule.description.as_deref(), Some("d"));
    assert_eq!(rule.rule.version.as_deref(), Some("1"));
    assert_eq!(rule.rule.tag.value, "t");
    assert_eq!(rule.message_contains_needles, ["a"]);
    assert!(listed(r#""n", "d", "1", { message_contains = "a" }, { value = "t" }, 7"#).is_ok());
    assert!(listed(r#""n", "d", "1", { message_contains = "a" }"#).is_err());
    assert!(listed(r#""n", "d", "1", "a", ["t"]"#).is_err());
}
