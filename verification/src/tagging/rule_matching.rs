//! What a rule asks of an entry, condition by condition.

use vstd::prelude::*;

use crate::double::is_nan;
use crate::json::{negative_double, unsigned_double, JsonView};
use crate::model::{EventIdView, LogEntryView};
use crate::tagging::engine::{
    all_tags, any_matches, matched_ids, taggable_entries, tags_of, TagRowView, TaggableView,
};
use crate::tagging::rule::{
    biome_path, condition_holds, is_asked_for, is_binary_state_stream, is_normalized_key,
    needles_of, normalized_value, rule_matches, rule_of, text_items, RuleView, Subject,
};
use crate::tagging::rule_file::{condition_value, RuleCondition};
use crate::text::{occurs_at, occurs_in};
use crate::toml_doc::{entry, TomlView};

verus! {

/// A rule with one condition.
pub open spec fn with_condition(rule: RuleView, key: Seq<char>, value: TomlView) -> RuleView {
    RuleView { match_fields: seq![(key, value)], ..rule }
}

proof fn lemma_special_names()
    ensures
        "sourcetype"@ != "level"@,
        "sourcetype"@ != "message"@,
        "sourcetype"@ != "message_contains"@,
        "level"@ != "message"@,
        "level"@ != "message_contains"@,
        "message"@ != "message_contains"@,
{
    reveal_strlit("message_contains");
    reveal_strlit("sourcetype");
    reveal_strlit("level");
    reveal_strlit("message");
    assert("message_contains"@.len() == 16);
    assert("sourcetype"@.len() == 10);
    assert("level"@.len() == 5);
    assert("message"@.len() == 7);
}

proof fn lemma_only_condition(rule: RuleView, key: Seq<char>, value: TomlView, s: Subject)
    ensures
        rule_matches(with_condition(rule, key, value), s) == condition_holds(
            key,
            value,
            rule.needles,
            s,
        ),
{
    let one = with_condition(rule, key, value);
    assert(one.match_fields[0] == (key, value));
    assert(rule_matches(one, s) ==> condition_holds(
        one.match_fields[0].0,
        one.match_fields[0].1,
        one.needles,
        s,
    ));
}

/// A rule matches an entry if and only if each of its conditions alone does.
pub proof fn lemma_all_conditions_must_hold(rule: RuleView, s: Subject)
    ensures
        rule_matches(rule, s) <==> forall|i: int|
            0 <= i < rule.match_fields.len() ==> rule_matches(
                with_condition(
                    rule,
                    (#[trigger] rule.match_fields[i]).0,
                    rule.match_fields[i].1,
                ),
                s,
            ),
{
    assert forall|i: int| 0 <= i < rule.match_fields.len() implies rule_matches(
        with_condition(rule, (#[trigger] rule.match_fields[i]).0, rule.match_fields[i].1),
        s,
    ) == condition_holds(rule.match_fields[i].0, rule.match_fields[i].1, rule.needles, s) by {
        lemma_only_condition(rule, rule.match_fields[i].0, rule.match_fields[i].1, s);
    }
}

/// The condition `message` asks for the whole message, `level` for the level and
/// `sourcetype` for the kind of source: the text of the condition is that of the entry.
pub proof fn lemma_whole_texts_are_asked_for(rule: RuleView, value: TomlView, s: Subject)
    ensures
        rule_matches(with_condition(rule, "message"@, value), s) <==> (s.message matches Some(m)
            && value == TomlView::Text(m)),
        rule_matches(with_condition(rule, "level"@, value), s) <==> (s.level matches Some(l)
            && value == TomlView::Text(l)),
        rule_matches(with_condition(rule, "sourcetype"@, value), s) <==> value == TomlView::Text(
            s.sourcetype,
        ),
{
    lemma_special_names();
    lemma_only_condition(rule, "message"@, value, s);
    lemma_only_condition(rule, "level"@, value, s);
    lemma_only_condition(rule, "sourcetype"@, value, s);
}

/// The condition `message_contains` asks for a message with one of the texts of the rule
/// in it.
pub proof fn lemma_parts_of_messages_are_asked_for(rule: RuleView, value: TomlView, s: Subject)
    ensures
        rule_matches(with_condition(rule, "message_contains"@, value), s) <==> (
        s.message matches Some(m) && exists|i: int, before: Seq<char>, after: Seq<char>|
            0 <= i < rule.needles.len() && m == #[trigger] (before + rule.needles[i] + after)),
{
    lemma_special_names();
    lemma_only_condition(rule, "message_contains"@, value, s);
    if let Some(m) = s.message {
        if condition_holds("message_contains"@, value, rule.needles, s) {
            let i = choose|i: int|
                0 <= i < rule.needles.len() && occurs_in(m, #[trigger] rule.needles[i]);
            let needle = rule.needles[i];
            let at = choose|at: int| #[trigger] occurs_at(m, needle, at);
            let (before, after) = (m.take(at), m.skip(at + needle.len()));
            assert(m =~= before + rule.needles[i] + after);
        }
        if exists|i: int, before: Seq<char>, after: Seq<char>|
            0 <= i < rule.needles.len() && m == #[trigger] (before + rule.needles[i] + after) {
            let (i, before, after) = choose|i: int, before: Seq<char>, after: Seq<char>|
                0 <= i < rule.needles.len() && m == #[trigger] (before + rule.needles[i] + after);
            let needle = rule.needles[i];
            assert(m.subrange(before.len() as int, (before.len() + needle.len()) as int) =~= needle);
            assert(occurs_at(m, needle, before.len() as int));
            assert(occurs_in(m, rule.needles[i]));
        }
    }
}

/// Whether a value of a field is the one that a condition names: of the same type, and
/// equal.
pub open spec fn is_expected(expected: TomlView, actual: JsonView) -> bool {
    match (expected, actual) {
        (TomlView::Text(e), JsonView::Text(a)) => e == a,
        (TomlView::Bool(e), JsonView::Bool(a)) => e == a,
        (TomlView::Integer(e), JsonView::Unsigned(a)) => e == a,
        (TomlView::Integer(e), JsonView::Negative(a)) => e == a,
        (TomlView::Float { bits }, JsonView::Float { bits: a, .. }) => is_expected_number(bits, a),
        (TomlView::Float { bits }, JsonView::Unsigned(n)) => is_expected_number(
            bits,
            unsigned_double(n),
        ),
        (TomlView::Float { bits }, JsonView::Negative(n)) => is_expected_number(
            bits,
            negative_double(n),
        ),
        _ => false,
    }
}

/// Whether two doubles are the same number: zero is, whatever its sign.
pub open spec fn is_expected_number(a: u64, b: u64) -> bool {
    &&& !is_nan(a)
    &&& !is_nan(b)
    &&& a == b || a % 0x8000_0000_0000_0000 == 0 && b % 0x8000_0000_0000_0000 == 0
}

/// Whether the field of a name stands in a record of a Biome stream where a path leads.
/// What the number of a field means is a matter of the stream.
pub open spec fn is_biome_place(stream: Seq<char>, key: Seq<char>, path: Seq<Seq<char>>) -> bool {
    ||| stream == "ScreenTime.AppUsage"@ && key == "bundle_id"@ && path == seq!["payload"@, "3"@, "utf8"@]
    ||| stream == "Keyboard.TokenFrequency"@ && key == "token_text"@ && path == seq!["payload"@, "1"@, "nested"@, "1"@, "utf8"@]
    ||| stream == "Keyboard.TokenFrequency"@ && key == "token_frequency"@ && path == seq!["payload"@, "3"@]
    ||| stream == "App.Intent"@ && key == "app_id"@ && path == seq!["payload"@, "2"@, "utf8"@]
    ||| stream == "App.Intent"@ && key == "intent_classname"@ && path == seq!["payload"@, "4"@, "utf8"@]
    ||| stream == "App.Intent"@ && key == "intent_action"@ && path == seq!["payload"@, "5"@, "utf8"@]
    ||| stream == "ProactiveHarvesting.Mail"@ && key == "mail_subject"@ && path == seq!["payload"@, "11"@, "utf8"@]
    ||| stream == "ProactiveHarvesting.Mail"@ && key == "mail_message_id"@ && path == seq!["payload"@, "2"@, "utf8"@]
    ||| stream == "Device.ScreenLocked"@ && key == "state_raw"@ && path == seq!["payload"@, "1"@]
    ||| stream == "Device.KeybagLocked"@ && key == "state_raw"@ && path == seq!["payload"@, "1"@]
    ||| stream == "CarPlay.Connected"@ && key == "state_raw"@ && path == seq!["payload"@, "1"@]
    ||| stream == "Device.Wireless.AirplaneMode"@ && key == "state_raw"@ && path == seq!["payload"@, "1"@]
    ||| stream == "Device.Wireless.CellularDataEnabled"@ && key == "state_raw"@ && path == seq!["payload"@, "1"@]
    ||| stream == "Device.Power.LowPowerMode"@ && key == "state_raw"@ && path == seq!["payload"@, "1"@]
    ||| stream == "Device.Power.PluggedIn"@ && key == "state_raw"@ && path == seq!["payload"@, "1"@]
    ||| stream == "Device.Wireless.WiFi"@ && key == "state_raw"@ && path == seq!["payload"@, "2"@]
    ||| stream == "Device.Wireless.WiFi"@ && key == "wifi_ssid"@ && path == seq!["payload"@, "1"@, "utf8"@]
    ||| stream == "Device.TimeZone"@ && key == "timezone_name"@ && path == seq!["payload"@, "2"@, "utf8"@]
    ||| stream == "Safari.Navigations"@ && key == "safari_host"@ && path == seq!["payload"@, "1"@, "utf8"@]
    ||| stream == "Safari.Navigations"@ && key == "safari_url"@ && path == seq!["payload"@, "8"@, "utf8"@]
    ||| stream == "ProactiveHarvesting.Messages"@ && key == "harvested_message_content"@ && path == seq!["payload"@, "10"@, "utf8"@]
    ||| stream == "ProactiveHarvesting.Messages"@ && key == "harvested_message_sender"@ && path == seq!["payload"@, "11"@, "nested"@, "1"@, "utf8"@]
    ||| stream == "Messages.Read"@ && key == "message_id"@ && path == seq!["payload"@, "1"@]
    ||| stream == "Device.Wireless.Bluetooth"@ && key == "bluetooth_mac"@ && path == seq!["payload"@, "1"@, "utf8"@]
    ||| stream == "Device.Wireless.Bluetooth"@ && key == "bluetooth_name"@ && path == seq!["payload"@, "2"@, "utf8"@]
}

proof fn lemma_key_names()
    ensures
        "bundle_id"@ != "token_text"@,
        "bundle_id"@ != "token_frequency"@,
        "token_text"@ != "token_frequency"@,
        "bundle_id"@ != "app_id"@,
        "token_text"@ != "app_id"@,
        "token_frequency"@ != "app_id"@,
        "bundle_id"@ != "intent_classname"@,
        "token_text"@ != "intent_classname"@,
        "token_frequency"@ != "intent_classname"@,
        "app_id"@ != "intent_classname"@,
        "bundle_id"@ != "intent_action"@,
        "token_text"@ != "intent_action"@,
        "token_frequency"@ != "intent_action"@,
        "app_id"@ != "intent_action"@,
        "intent_classname"@ != "intent_action"@,
        "bundle_id"@ != "mail_subject"@,
        "token_text"@ != "mail_subject"@,
        "token_frequency"@ != "mail_subject"@,
        "app_id"@ != "mail_subject"@,
        "intent_classname"@ != "mail_subject"@,
        "intent_action"@ != "mail_subject"@,
        "bundle_id"@ != "mail_message_id"@,
        "token_text"@ != "mail_message_id"@,
        "token_frequency"@ != "mail_message_id"@,
        "app_id"@ != "mail_message_id"@,
        "intent_classname"@ != "mail_message_id"@,
        "intent_action"@ != "mail_message_id"@,
        "mail_subject"@ != "mail_message_id"@,
        "bundle_id"@ != "state_raw"@,
        "token_text"@ != "state_raw"@,
        "token_frequency"@ != "state_raw"@,
        "app_id"@ != "state_raw"@,
        "intent_classname"@ != "state_raw"@,
        "intent_action"@ != "state_raw"@,
        "mail_subject"@ != "state_raw"@,
        "mail_message_id"@ != "state_raw"@,
        "bundle_id"@ != "wifi_ssid"@,
        "token_text"@ != "wifi_ssid"@,
        "token_frequency"@ != "wifi_ssid"@,
        "app_id"@ != "wifi_ssid"@,
        "intent_classname"@ != "wifi_ssid"@,
        "intent_action"@ != "wifi_ssid"@,
        "mail_subject"@ != "wifi_ssid"@,
        "mail_message_id"@ != "wifi_ssid"@,
        "state_raw"@ != "wifi_ssid"@,
        "bundle_id"@ != "timezone_name"@,
        "token_text"@ != "timezone_name"@,
        "token_frequency"@ != "timezone_name"@,
        "app_id"@ != "timezone_name"@,
        "intent_classname"@ != "timezone_name"@,
        "intent_action"@ != "timezone_name"@,
        "mail_subject"@ != "timezone_name"@,
        "mail_message_id"@ != "timezone_name"@,
        "state_raw"@ != "timezone_name"@,
        "wifi_ssid"@ != "timezone_name"@,
        "bundle_id"@ != "safari_host"@,
        "token_text"@ != "safari_host"@,
        "token_frequency"@ != "safari_host"@,
        "app_id"@ != "safari_host"@,
        "intent_classname"@ != "safari_host"@,
        "intent_action"@ != "safari_host"@,
        "mail_subject"@ != "safari_host"@,
        "mail_message_id"@ != "safari_host"@,
        "state_raw"@ != "safari_host"@,
        "wifi_ssid"@ != "safari_host"@,
        "timezone_name"@ != "safari_host"@,
        "bundle_id"@ != "safari_url"@,
        "token_text"@ != "safari_url"@,
        "token_frequency"@ != "safari_url"@,
        "app_id"@ != "safari_url"@,
        "intent_classname"@ != "safari_url"@,
        "intent_action"@ != "safari_url"@,
        "mail_subject"@ != "safari_url"@,
        "mail_message_id"@ != "safari_url"@,
        "state_raw"@ != "safari_url"@,
        "wifi_ssid"@ != "safari_url"@,
        "timezone_name"@ != "safari_url"@,
        "safari_host"@ != "safari_url"@,
        "bundle_id"@ != "harvested_message_content"@,
        "token_text"@ != "harvested_message_content"@,
        "token_frequency"@ != "harvested_message_content"@,
        "app_id"@ != "harvested_message_content"@,
        "intent_classname"@ != "harvested_message_content"@,
        "intent_action"@ != "harvested_message_content"@,
        "mail_subject"@ != "harvested_message_content"@,
        "mail_message_id"@ != "harvested_message_content"@,
        "state_raw"@ != "harvested_message_content"@,
        "wifi_ssid"@ != "harvested_message_content"@,
        "timezone_name"@ != "harvested_message_content"@,
        "safari_host"@ != "harvested_message_content"@,
        "safari_url"@ != "harvested_message_content"@,
        "bundle_id"@ != "harvested_message_sender"@,
        "token_text"@ != "harvested_message_sender"@,
        "token_frequency"@ != "harvested_message_sender"@,
        "app_id"@ != "harvested_message_sender"@,
        "intent_classname"@ != "harvested_message_sender"@,
        "intent_action"@ != "harvested_message_sender"@,
        "mail_subject"@ != "harvested_message_sender"@,
        "mail_message_id"@ != "harvested_message_sender"@,
        "state_raw"@ != "harvested_message_sender"@,
        "wifi_ssid"@ != "harvested_message_sender"@,
        "timezone_name"@ != "harvested_message_sender"@,
        "safari_host"@ != "harvested_message_sender"@,
        "safari_url"@ != "harvested_message_sender"@,
        "harvested_message_content"@ != "harvested_message_sender"@,
        "bundle_id"@ != "message_id"@,
        "token_text"@ != "message_id"@,
        "token_frequency"@ != "message_id"@,
        "app_id"@ != "message_id"@,
        "intent_classname"@ != "message_id"@,
        "intent_action"@ != "message_id"@,
        "mail_subject"@ != "message_id"@,
        "mail_message_id"@ != "message_id"@,
        "state_raw"@ != "message_id"@,
        "wifi_ssid"@ != "message_id"@,
        "timezone_name"@ != "message_id"@,
        "safari_host"@ != "message_id"@,
        "safari_url"@ != "message_id"@,
        "harvested_message_content"@ != "message_id"@,
        "harvested_message_sender"@ != "message_id"@,
        "bundle_id"@ != "bluetooth_mac"@,
        "token_text"@ != "bluetooth_mac"@,
        "token_frequency"@ != "bluetooth_mac"@,
        "app_id"@ != "bluetooth_mac"@,
        "intent_classname"@ != "bluetooth_mac"@,
        "intent_action"@ != "bluetooth_mac"@,
        "mail_subject"@ != "bluetooth_mac"@,
        "mail_message_id"@ != "bluetooth_mac"@,
        "state_raw"@ != "bluetooth_mac"@,
        "wifi_ssid"@ != "bluetooth_mac"@,
        "timezone_name"@ != "bluetooth_mac"@,
        "safari_host"@ != "bluetooth_mac"@,
        "safari_url"@ != "bluetooth_mac"@,
        "harvested_message_content"@ != "bluetooth_mac"@,
        "harvested_message_sender"@ != "bluetooth_mac"@,
        "message_id"@ != "bluetooth_mac"@,
        "bundle_id"@ != "bluetooth_name"@,
        "token_text"@ != "bluetooth_name"@,
        "token_frequency"@ != "bluetooth_name"@,
        "app_id"@ != "bluetooth_name"@,
        "intent_classname"@ != "bluetooth_name"@,
        "intent_action"@ != "bluetooth_name"@,
        "mail_subject"@ != "bluetooth_name"@,
        "mail_message_id"@ != "bluetooth_name"@,
        "state_raw"@ != "bluetooth_name"@,
        "wifi_ssid"@ != "bluetooth_name"@,
        "timezone_name"@ != "bluetooth_name"@,
        "safari_host"@ != "bluetooth_name"@,
        "safari_url"@ != "bluetooth_name"@,
        "harvested_message_content"@ != "bluetooth_name"@,
        "harvested_message_sender"@ != "bluetooth_name"@,
        "message_id"@ != "bluetooth_name"@,
        "bluetooth_mac"@ != "bluetooth_name"@,
{
    reveal_strlit("bundle_id");
    reveal_strlit("token_text");
    reveal_strlit("token_frequency");
    reveal_strlit("app_id");
    reveal_strlit("intent_classname");
    reveal_strlit("intent_action");
    reveal_strlit("mail_subject");
    reveal_strlit("mail_message_id");
    reveal_strlit("state_raw");
    reveal_strlit("wifi_ssid");
    reveal_strlit("timezone_name");
    reveal_strlit("safari_host");
    reveal_strlit("safari_url");
    reveal_strlit("harvested_message_content");
    reveal_strlit("harvested_message_sender");
    reveal_strlit("message_id");
    reveal_strlit("bluetooth_mac");
    reveal_strlit("bluetooth_name");
    assert("app_id"@.len() == 6);
    assert("bluetooth_mac"@.len() == 13);
    assert("bluetooth_mac"@[0] == 'b');
    assert("bluetooth_name"@.len() == 14);
    assert("bundle_id"@.len() == 9);
    assert("bundle_id"@[0] == 'b');
    assert("harvested_message_content"@.len() == 25);
    assert("harvested_message_sender"@.len() == 24);
    assert("intent_action"@.len() == 13);
    assert("intent_action"@[0] == 'i');
    assert("intent_classname"@.len() == 16);
    assert("mail_message_id"@.len() == 15);
    assert("mail_message_id"@[0] == 'm');
    assert("mail_subject"@.len() == 12);
    assert("message_id"@.len() == 10);
    assert("message_id"@[0] == 'm');
    assert("safari_host"@.len() == 11);
    assert("safari_url"@.len() == 10);
    assert("safari_url"@[0] == 's');
    assert("state_raw"@.len() == 9);
    assert("state_raw"@[0] == 's');
    assert("timezone_name"@.len() == 13);
    assert("timezone_name"@[0] == 't');
    assert("token_frequency"@.len() == 15);
    assert("token_frequency"@[0] == 't');
    assert("token_text"@.len() == 10);
    assert("token_text"@[0] == 't');
    assert("wifi_ssid"@.len() == 9);
    assert("wifi_ssid"@[0] == 'w');
}

proof fn lemma_state_streams()
    ensures
        !is_binary_state_stream("Device.Wireless.WiFi"@),
{
    reveal_strlit("CarPlay.Connected");
    reveal_strlit("Device.KeybagLocked");
    reveal_strlit("Device.Power.LowPowerMode");
    reveal_strlit("Device.Power.PluggedIn");
    reveal_strlit("Device.ScreenLocked");
    reveal_strlit("Device.Wireless.AirplaneMode");
    reveal_strlit("Device.Wireless.CellularDataEnabled");
    reveal_strlit("Device.Wireless.WiFi");
    assert("CarPlay.Connected"@.len() == 17);
    assert("Device.KeybagLocked"@.len() == 19);
    assert("Device.Power.LowPowerMode"@.len() == 25);
    assert("Device.Power.PluggedIn"@.len() == 22);
    assert("Device.ScreenLocked"@.len() == 19);
    assert("Device.Wireless.AirplaneMode"@.len() == 28);
    assert("Device.Wireless.CellularDataEnabled"@.len() == 35);
    assert("Device.Wireless.WiFi"@.len() == 20);
}

/// Where the field of a name stands in an entry of a kind of source.
pub open spec fn is_value_of_field(
    key: Seq<char>,
    sourcetype: Seq<char>,
    fields: JsonView,
    value: Option<JsonView>,
) -> bool {
    &&& sourcetype == "evtx"@ ==> {
        &&& key == "event_id"@ ==> value == fields.at(seq!["Event"@, "System"@, "EventID"@])
        &&& key == "provider"@ ==> value == fields.at(
            seq!["Event"@, "System"@, "Provider_attributes"@, "Name"@],
        )
        &&& key == "subsystem"@ ==> value == fields.at(
            seq!["Event"@, "System"@, "Provider_attributes"@, "Name"@],
        )
        &&& key == "host"@ ==> value == fields.at(seq!["Event"@, "System"@, "Computer"@])
        &&& key != "event_id"@ && key != "provider"@ && key != "subsystem"@ && key != "host"@
            ==> value is None
    }
    &&& sourcetype == "journald"@ ==> {
        &&& key == "host"@ ==> value == fields.at(seq!["_HOSTNAME"@])
        &&& key == "process"@ && fields.at(seq!["SYSLOG_IDENTIFIER"@]) is Some ==> value
            == fields.at(seq!["SYSLOG_IDENTIFIER"@])
        &&& key == "process"@ && fields.at(seq!["SYSLOG_IDENTIFIER"@]) is None ==> value
            == fields.at(seq!["_COMM"@])
        &&& key != "host"@ && key != "process"@ ==> value is None
    }
    &&& sourcetype == "biome"@ ==> {
        &&& forall|stream: Seq<char>, path: Seq<Seq<char>>|
            fields.get("stream"@) == Some(JsonView::Text(stream)) && #[trigger] is_biome_place(
                stream,
                key,
                path,
            ) ==> value == fields.at(path)
        &&& value is Some ==> exists|stream: Seq<char>, path: Seq<Seq<char>>|
            fields.get("stream"@) == Some(JsonView::Text(stream)) && #[trigger] is_biome_place(
                stream,
                key,
                path,
            )
    }
    &&& sourcetype != "evtx"@ && sourcetype != "journald"@ && sourcetype != "biome"@ ==> value is None
}

proof fn lemma_biome_places(stream: Seq<char>, key: Seq<char>)
    ensures
        forall|path: Seq<Seq<char>>| #[trigger]
            is_biome_place(stream, key, path) ==> biome_path(stream, key) == Some(path),
        biome_path(stream, key) matches Some(path) ==> is_biome_place(stream, key, path),
{
    lemma_key_names();
    lemma_state_streams();
}

/// The place of a field is a matter of the kind of source.
pub proof fn lemma_fields_have_their_places(key: Seq<char>, sourcetype: Seq<char>, fields: JsonView)
    ensures
        is_value_of_field(
            key,
            sourcetype,
            fields,
            normalized_value(key, sourcetype, fields),
        ),
{
    reveal_strlit("evtx");
    reveal_strlit("journald");
    reveal_strlit("biome");
    reveal_strlit("event_id");
    reveal_strlit("provider");
    reveal_strlit("subsystem");
    reveal_strlit("host");
    reveal_strlit("process");
    assert("evtx"@.len() == 4);
    assert("journald"@.len() == 8);
    assert("biome"@.len() == 5);
    assert("event_id"@.len() == 8 && "event_id"@[0] == 'e');
    assert("provider"@.len() == 8 && "provider"@[0] == 'p');
    assert("subsystem"@.len() == 9);
    assert("host"@.len() == 4);
    assert("process"@.len() == 7);
    if let Some(JsonView::Text(stream)) = fields.get("stream"@) {
        lemma_biome_places(stream, key);
    }
}

/// A condition on any other field asks that the entry has the field with the value: where
/// its kind of source keeps it, or else under its own name.
pub proof fn lemma_fields_are_asked_for(rule: RuleView, key: Seq<char>, value: TomlView, s: Subject)
    requires
        key != "sourcetype"@ && key != "level"@ && key != "message"@ && key != "message_contains"@,
    ensures
        is_value_of_field(
            key,
            s.sourcetype,
            s.fields,
            normalized_value(key, s.sourcetype, s.fields),
        ),
        rule_matches(with_condition(rule, key, value), s) <==> match normalized_value(
            key,
            s.sourcetype,
            s.fields,
        ) {
            Some(v) => is_expected(value, v),
            None => s.fields.get(key) matches Some(v) && is_expected(value, v),
        },
{
    lemma_only_condition(rule, key, value, s);
    lemma_fields_have_their_places(key, s.sourcetype, s.fields);
    if normalized_value(key, s.sourcetype, s.fields) is Some {
        if s.sourcetype == "biome"@ {
            let (stream, path) = choose|stream: Seq<char>, path: Seq<Seq<char>>|
                s.fields.get("stream"@) == Some(JsonView::Text(stream))
                    && #[trigger] is_biome_place(stream, key, path);
            assert(is_biome_place(stream, key, path));
        }
        assert(is_normalized_key(key));
    }
}

/// Whether texts are those that a value stands for: the text that it is, or the texts
/// among its items, in their order.
pub open spec fn are_texts_of(value: TomlView, texts: Seq<Seq<char>>) -> bool {
    match value {
        TomlView::Text(s) => texts == seq![s],
        TomlView::Array(items) => exists|from: Seq<int>| #[trigger] are_items(items, texts, from),
        _ => texts.len() == 0,
    }
}

/// Whether texts are the items at the places `from`, and no other item is a text.
pub open spec fn are_items(items: Seq<TomlView>, texts: Seq<Seq<char>>, from: Seq<int>) -> bool {
    &&& from.len() == texts.len()
    &&& forall|k: int|
        0 <= k < from.len() ==> 0 <= #[trigger] from[k] < items.len() && items[from[k]]
            == TomlView::Text(texts[k])
    &&& forall|j: int, k: int| 0 <= j < k < from.len() ==> #[trigger] from[j] < #[trigger] from[k]
    &&& forall|i: int|
        0 <= i < items.len() && (#[trigger] items[i]) is Text ==> from.contains(i)
}

proof fn lemma_text_items(items: Seq<TomlView>) -> (from: Seq<int>)
    ensures
        are_items(items, text_items(items), from),
    decreases items.len(),
{
    if items.len() == 0 {
        Seq::empty()
    } else {
        let n = items.len() - 1;
        let front = items.drop_last();
        let before = lemma_text_items(front);
        let from = if items.last() is Text {
            before.push(n)
        } else {
            before
        };
        let texts = text_items(items);
        assert forall|k: int| 0 <= k < from.len() implies 0 <= #[trigger] from[k] < items.len()
            && items[from[k]] == TomlView::Text(texts[k]) by {
            if k < before.len() {
                assert(from[k] == before[k]);
                assert(front[before[k]] == items[before[k]]);
            }
        }
        assert forall|j: int, k: int| 0 <= j < k < from.len() implies #[trigger] from[j]
            < #[trigger] from[k] by {
            assert(from[j] == before[j]);
            if k < before.len() {
                assert(from[k] == before[k]);
            }
        }
        assert forall|i: int|
            0 <= i < items.len() && (#[trigger] items[i]) is Text implies from.contains(i) by {
            if i < n {
                assert(front[i] == items[i]);
                let k = choose|k: int| 0 <= k < before.len() && before[k] == i;
                assert(from[k] == i);
            } else {
                assert(from[from.len() - 1] == i);
            }
        }
        from
    }
}

/// The texts that a rule looks for in messages are those of its condition.
pub proof fn lemma_texts_looked_for(match_fields: Seq<(Seq<char>, TomlView)>)
    ensures
        match entry(match_fields, "message_contains"@) {
            Some(value) => are_texts_of(value, needles_of(TomlView::Table(match_fields))),
            None => needles_of(TomlView::Table(match_fields)).len() == 0,
        },
{
    if let Some(TomlView::Array(items)) = entry(match_fields, "message_contains"@) {
        let from = lemma_text_items(items);
    }
}

/// What a document says of a rule is the rule: its name and its tag, its conditions, and
/// the texts that it looks for.
pub proof fn lemma_rule_is_its_document(doc: TomlView, body: Seq<(Seq<char>, TomlView)>)
    requires
        rule_of(doc) is Ok,
        doc.get("rule"@) == Some(TomlView::Table(body)),
    ensures
        ({
            let rule = rule_of(doc)->Ok_0;
            &&& entry(body, "name"@) == Some(TomlView::Text(rule.name))
            &&& match rule.description {
                Some(d) => entry(body, "description"@) == Some(TomlView::Text(d)),
                None => entry(body, "description"@) is None,
            }
            &&& match rule.version {
                Some(v) => entry(body, "version"@) == Some(TomlView::Text(v)),
                None => entry(body, "version"@) is None,
            }
            &&& entry(body, "match"@) == Some(TomlView::Table(rule.match_fields))
            &&& entry(body, "tag"@) matches Some(TomlView::Table(tag)) ==> entry(tag, "value"@)
                == Some(TomlView::Text(rule.tag))
            &&& rule.needles == needles_of(TomlView::Table(rule.match_fields))
        }),
{
}

/// A new rule on the message or the level asks for the whole of it, and for the kind of
/// source that it was made for.
pub proof fn lemma_new_rule_asks_for_whole_texts(
    sourcetype: Seq<char>,
    condition: RuleCondition,
    s: Subject,
)
    requires
        condition is FieldEquals,
    ensures
        ({
            let field = condition->field@;
            let value = condition->value@;
            &&& field == "message"@ && condition_value(value) == TomlView::Text(value) ==> (
            is_asked_for(sourcetype, condition, s) <==> s.sourcetype == sourcetype && s.message
                == Some(value))
            &&& field == "level"@ && condition_value(value) == TomlView::Text(value) ==> (
            is_asked_for(sourcetype, condition, s) <==> s.sourcetype == sourcetype && s.level
                == Some(value))
            &&& is_asked_for(sourcetype, condition, s) ==> s.sourcetype == sourcetype
        }),
{
    lemma_special_names();
}

/// Whether a tag is one that a rule gives an entry that it matches: with the identity of
/// the entry, and the name and the tag of the rule.
pub open spec fn is_tag_of(tag: TagRowView, row: TaggableView, rule: RuleView) -> bool {
    &&& rule_matches(rule, row.subject)
    &&& tag.event_id == row.event_id
    &&& tag.rule_name == rule.name
    &&& tag.tag_value == rule.tag
}

/// Whether tags are those that rules give entries: `from` says of each the entry and the
/// rule. They come by entries and then by rules, and no match is left out.
pub open spec fn are_tags_of(
    tags: Seq<TagRowView>,
    rows: Seq<TaggableView>,
    rules: Seq<RuleView>,
    from: Seq<(int, int)>,
) -> bool {
    &&& from.len() == tags.len()
    &&& forall|k: int|
        0 <= k < from.len() ==> {
            let (i, j) = #[trigger] from[k];
            0 <= i < rows.len() && 0 <= j < rules.len() && is_tag_of(tags[k], rows[i], rules[j])
        }
    &&& forall|k: int, m: int|
        0 <= k < m < from.len() ==> (#[trigger] from[k]).0 < (#[trigger] from[m]).0 || from[k].0
            == from[m].0 && from[k].1 < from[m].1
    &&& forall|i: int, j: int|
        0 <= i < rows.len() && 0 <= j < rules.len() && rule_matches(
            #[trigger] rules[j],
            (#[trigger] rows[i]).subject,
        ) ==> from.contains((i, j))
}

/// The rules that match one entry.
proof fn lemma_tags_of(row: TaggableView, rules: Seq<RuleView>) -> (by: Seq<int>)
    ensures
        by.len() == tags_of(row, rules).len(),
        forall|k: int|
            0 <= k < by.len() ==> 0 <= #[trigger] by[k] < rules.len() && is_tag_of(
                tags_of(row, rules)[k],
                row,
                rules[by[k]],
            ),
        forall|k: int, m: int| 0 <= k < m < by.len() ==> #[trigger] by[k] < #[trigger] by[m],
        forall|j: int|
            0 <= j < rules.len() && rule_matches(#[trigger] rules[j], row.subject) ==> by.contains(
                j,
            ),
    decreases rules.len(),
{
    if rules.len() == 0 {
        Seq::empty()
    } else {
        let n = rules.len() - 1;
        let front = rules.drop_last();
        let before = lemma_tags_of(row, front);
        let by = if rule_matches(rules.last(), row.subject) {
            before.push(n)
        } else {
            before
        };
        let tags = tags_of(row, rules);
        assert forall|k: int| 0 <= k < by.len() implies 0 <= #[trigger] by[k] < rules.len()
            && is_tag_of(tags[k], row, rules[by[k]]) by {
            if k < before.len() {
                assert(by[k] == before[k]);
                assert(front[before[k]] == rules[before[k]]);
                assert(tags[k] == tags_of(row, front)[k]);
            }
        }
        assert forall|k: int, m: int| 0 <= k < m < by.len() implies #[trigger] by[k]
            < #[trigger] by[m] by {
            assert(by[k] == before[k]);
            if m < before.len() {
                assert(by[m] == before[m]);
            }
        }
        assert forall|j: int|
            0 <= j < rules.len() && rule_matches(
                #[trigger] rules[j],
                row.subject,
            ) implies by.contains(j) by {
            if j < n {
                assert(front[j] == rules[j]);
                let k = choose|k: int| 0 <= k < before.len() && before[k] == j;
                assert(by[k] == j);
            } else {
                assert(by[by.len() - 1] == j);
            }
        }
        by
    }
}

/// The tags of a timeline are the matches of rules and entries, one for each, in order.
pub proof fn lemma_tags_are_all_matches(rows: Seq<TaggableView>, rules: Seq<RuleView>) -> (from: Seq<
    (int, int),
>)
    ensures
        are_tags_of(all_tags(rows, rules), rows, rules, from),
    decreases rows.len(),
{
    if rows.len() == 0 {
        Seq::empty()
    } else {
        let n = rows.len() - 1;
        let front = rows.drop_last();
        let before = lemma_tags_are_all_matches(front, rules);
        let by = lemma_tags_of(rows.last(), rules);
        let new = by.map_values(|j: int| (n, j));
        let from = before + new;
        let old = all_tags(front, rules);
        let tags = all_tags(rows, rules);
        assert forall|k: int| 0 <= k < from.len() implies ({
            let (i, j) = #[trigger] from[k];
            0 <= i < rows.len() && 0 <= j < rules.len() && is_tag_of(tags[k], rows[i], rules[j])
        }) by {
            if k < before.len() {
                assert(from[k] == before[k]);
                assert(front[before[k].0] == rows[before[k].0]);
                assert(tags[k] == old[k]);
            } else {
                assert(from[k] == (n, by[k - before.len()]));
                assert(tags[k] == tags_of(rows.last(), rules)[k - before.len()]);
            }
        }
        assert forall|k: int, m: int| 0 <= k < m < from.len() implies (#[trigger] from[k]).0 < (
        #[trigger] from[m]).0 || from[k].0 == from[m].0 && from[k].1 < from[m].1 by {
            if m < before.len() {
                assert(from[k] == before[k] && from[m] == before[m]);
            } else if k < before.len() {
                assert(from[k] == before[k]);
                assert(from[m] == (n, by[m - before.len()]));
            } else {
                assert(by[k - before.len()] < by[m - before.len()]);
            }
        }
        assert forall|i: int, j: int|
            0 <= i < rows.len() && 0 <= j < rules.len() && rule_matches(
                #[trigger] rules[j],
                (#[trigger] rows[i]).subject,
            ) implies from.contains((i, j)) by {
            if i < n {
                assert(front[i] == rows[i]);
                let k = choose|k: int| 0 <= k < before.len() && before[k] == (i, j);
                assert(from[k] == (i, j));
            } else {
                let k = choose|k: int| 0 <= k < by.len() && by[k] == j;
                assert(new[k] == (n, j));
                assert(from[before.len() + k] == (i, j));
            }
        }
        from
    }
}

/// What rules are held against when a source is loaded is what its entries say.
pub proof fn lemma_entries_are_held_against_rules(
    entries: Seq<LogEntryView>,
    sourcetype: Seq<char>,
)
    ensures
        taggable_entries(entries, sourcetype).len() == entries.len(),
        forall|i: int|
            0 <= i < entries.len() ==> {
                let row = #[trigger] taggable_entries(entries, sourcetype)[i];
                &&& row.event_id == entries[i].event_id
                &&& row.subject.sourcetype == sourcetype
                &&& row.subject.level == entries[i].record.level
                &&& row.subject.message == entries[i].record.message
                &&& row.subject.fields == entries[i].record.fields
            },
{
}

/// Whether found identities are those of the entries that a rule matches, in order.
pub open spec fn are_found(
    ids: Seq<EventIdView>,
    rows: Seq<TaggableView>,
    rules: Seq<RuleView>,
    from: Seq<int>,
) -> bool {
    &&& from.len() == ids.len()
    &&& forall|k: int|
        0 <= k < from.len() ==> 0 <= #[trigger] from[k] < rows.len() && ids[k]
            == rows[from[k]].event_id && exists|j: int|
            0 <= j < rules.len() && rule_matches(#[trigger] rules[j], rows[from[k]].subject)
    &&& forall|k: int, m: int| 0 <= k < m < from.len() ==> #[trigger] from[k] < #[trigger] from[m]
    &&& forall|i: int, j: int|
        0 <= i < rows.len() && 0 <= j < rules.len() && rule_matches(
            #[trigger] rules[j],
            (#[trigger] rows[i]).subject,
        ) ==> from.contains(i)
}

/// The entries that are found are those that some rule matches.
pub proof fn lemma_found_are_matched(rows: Seq<TaggableView>, rules: Seq<RuleView>) -> (from: Seq<
    int,
>)
    ensures
        are_found(matched_ids(rows, rules), rows, rules, from),
    decreases rows.len(),
{
    if rows.len() == 0 {
        Seq::empty()
    } else {
        let n = rows.len() - 1;
        let front = rows.drop_last();
        let before = lemma_found_are_matched(front, rules);
        let from = if any_matches(rows.last(), rules) {
            before.push(n)
        } else {
            before
        };
        let ids = matched_ids(rows, rules);
        assert forall|k: int| 0 <= k < from.len() implies 0 <= #[trigger] from[k] < rows.len()
            && ids[k] == rows[from[k]].event_id && exists|j: int|
            0 <= j < rules.len() && rule_matches(#[trigger] rules[j], rows[from[k]].subject) by {
            if k < before.len() {
                assert(from[k] == before[k]);
                assert(front[before[k]] == rows[before[k]]);
                assert(ids[k] == matched_ids(front, rules)[k]);
            }
        }
        assert forall|k: int, m: int| 0 <= k < m < from.len() implies #[trigger] from[k]
            < #[trigger] from[m] by {
            assert(from[k] == before[k]);
            if m < before.len() {
                assert(from[m] == before[m]);
            }
        }
        assert forall|i: int, j: int|
            0 <= i < rows.len() && 0 <= j < rules.len() && rule_matches(
                #[trigger] rules[j],
                (#[trigger] rows[i]).subject,
            ) implies from.contains(i) by {
            if i < n {
                assert(front[i] == rows[i]);
                let k = choose|k: int| 0 <= k < before.len() && before[k] == i;
                assert(from[k] == i);
            } else {
                assert(any_matches(rows.last(), rules));
                assert(from[from.len() - 1] == i);
            }
        }
        from
    }
}

} // verus!
