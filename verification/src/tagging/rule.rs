//! Tagging rules.
//!
//! The conditions of a rule name normalized fields, whose place in an entry
//! depends on its kind of source, or members of the entry's fields. All of them
//! must hold.

use vstd::prelude::*;

use crate::double::{doubles_equal, same_double};
use crate::json::{path_view, Json, JsonView};
use crate::model::opt_text;
use crate::plain_toml::{
    lemma_entry_found, lemma_entry_push, lemma_table_push, same_entries, table_entries,
};
use crate::tagging::rule_file::{
    condition_entries, condition_in_toml, condition_value, is_writable_rule,
    lemma_rule_file_is_plain, new_rule_description, rule_document, rule_file_text, RuleCondition,
};
use crate::text::{contains, occurs_in, same, str_views, texts};
use crate::toml_doc::{
    entry, lemma_entry_at, lemma_toml_entries, may_text, need_record, need_table, need_text,
    optional_text, parse_toml, parsed_toml, required_record, required_table, required_text,
    toml_entries, toml_items, Toml, TomlView,
};

verus! {

/// The tag that a rule gives.
#[derive(Debug)]
pub struct TagSpec {
    pub value: String,
}

/// What a rule file says.
#[derive(Debug)]
pub struct RuleBody {
    pub name: String,
    pub description: Option<String>,
    /// A counter that is raised whenever the meaning of a curated rule changes.
    pub version: Option<String>,
    /// The conditions, each with the name of the field it is about.
    pub match_fields: Vec<(String, Toml)>,
    pub tag: TagSpec,
}

/// A tagging rule.
#[derive(Debug)]
pub struct Rule {
    pub rule: RuleBody,
    /// The substrings that the condition `message_contains` looks for.
    pub message_contains_needles: Vec<String>,
}

/// The view of a [`Rule`].
#[verifier::ext_equal]
pub struct RuleView {
    pub name: Seq<char>,
    pub description: Option<Seq<char>>,
    pub version: Option<Seq<char>>,
    pub match_fields: Seq<(Seq<char>, TomlView)>,
    pub tag: Seq<char>,
    pub needles: Seq<Seq<char>>,
}

impl View for Rule {
    type V = RuleView;

    open spec fn view(&self) -> RuleView {
        RuleView {
            name: self.rule.name@,
            description: opt_text(self.rule.description),
            version: opt_text(self.rule.version),
            match_fields: toml_entries(self.rule.match_fields@),
            tag: self.rule.tag.value@,
            needles: texts(self.message_contains_needles@),
        }
    }
}

/// The views of a list of rules.
pub open spec fn rules_view(rules: Seq<Rule>) -> Seq<RuleView> {
    rules.map_values(|r: Rule| r@)
}

/// Why a text is no rule.
#[derive(Debug)]
pub struct RuleParseError {
    pub reason: String,
}

impl RuleParseError {
    /// The problem in words.
    pub fn message(&self) -> (r: String)
        ensures
            r@ == "invalid tagging rule: "@ + self.reason@,
    {
        let mut s = "invalid tagging rule: ".to_owned();
        s.append(self.reason.as_str());
        s
    }
}

/// The texts among the items of an array.
pub open spec fn text_items(items: Seq<TomlView>) -> Seq<Seq<char>>
    decreases items.len(),
{
    if items.len() == 0 {
        seq![]
    } else {
        match items.last() {
            TomlView::Text(s) => text_items(items.drop_last()).push(s),
            _ => text_items(items.drop_last()),
        }
    }
}

/// The substrings that a value stands for: a text, or the texts of an array.
pub open spec fn substrings(value: TomlView) -> Seq<Seq<char>> {
    match value {
        TomlView::Text(s) => seq![s],
        TomlView::Array(items) => text_items(items),
        _ => seq![],
    }
}

/// The substrings that a rule with these conditions looks for.
pub open spec fn needles_of(match_fields: TomlView) -> Seq<Seq<char>> {
    match match_fields.get("message_contains"@) {
        Some(value) => substrings(value),
        None => seq![],
    }
}

/// The fields of a rule, in their order.
pub open spec fn rule_fields() -> Seq<Seq<char>> {
    seq!["name"@, "description"@, "version"@, "match"@, "tag"@]
}

/// The rule that a document holds, or why it holds none.
pub open spec fn rule_of(doc: TomlView) -> Result<RuleView, Seq<char>> {
    match required_record(doc, "rule"@, rule_fields(), 5, true) {
        Err(e) => Err(e),
        Ok(entries) => {
            let body = TomlView::Table(entries);
            match (
                required_text(body, "name"@),
                optional_text(body, "description"@),
                optional_text(body, "version"@),
                required_table(body, "match"@),
                required_record(body, "tag"@, seq!["value"@], 1, true),
            ) {
                (Ok(name), Ok(description), Ok(version), Ok(match_fields), Ok(tag)) => {
                    match required_text(TomlView::Table(tag), "value"@) {
                        Ok(value) => Ok(
                            RuleView {
                                name,
                                description,
                                version,
                                match_fields,
                                tag: value,
                                needles: needles_of(TomlView::Table(match_fields)),
                            },
                        ),
                        Err(e) => Err(e),
                    }
                },
                (Err(e), _, _, _, _) => Err(e),
                (_, Err(e), _, _, _) => Err(e),
                (_, _, Err(e), _, _) => Err(e),
                (_, _, _, Err(e), _) => Err(e),
                (_, _, _, _, Err(e)) => Err(e),
            }
        },
    }
}

/// The rule that a text holds, or why it holds none.
pub open spec fn rule_of_text(text: Seq<char>) -> Result<RuleView, Seq<char>> {
    match parsed_toml(text) {
        Ok(doc) => rule_of(doc),
        Err(e) => Err(e),
    }
}

fn toml_value_as_strings(value: &Toml) -> (r: Vec<String>)
    ensures
        texts(r@) == substrings(value@),
{
    let mut out: Vec<String> = Vec::new();
    match value {
        Toml::Text(s) => {
            out.push(s.clone());
            assert(texts(out@) =~= seq![s@]);
        },
        Toml::Array(items) => {
            let ghost all = toml_items(items@);
            let mut i: usize = 0;
            while i < items.len()
                invariant
                    i <= items.len(),
                    all == toml_items(items@),
                    texts(out@) == text_items(all.take(i as int)),
                decreases items.len() - i,
            {
                let ghost before = out@;
                proof {
                    let next = all.take(i + 1);
                    assert(next.drop_last() == all.take(i as int));
                    assert(next.last() == items@[i as int]@);
                }
                if let Toml::Text(s) = &items[i] {
                    out.push(s.clone());
                    assert(texts(out@) =~= texts(before).push(s@));
                }
                i += 1;
            }
            assert(all.take(i as int) == all);
        },
        _ => {
            assert(texts(out@) =~= seq![]);
        },
    }
    out
}

/// The rule that a document holds, or why it holds none.
pub fn rule_from_document(doc: &Toml) -> (r: Result<Rule, String>)
    ensures
        match r {
            Ok(rule) => rule_of(doc@) == Ok::<RuleView, Seq<char>>(rule@),
            Err(e) => rule_of(doc@) == Err::<RuleView, Seq<char>>(e@),
        },
{
    let fields: [&'static str; 5] = ["name", "description", "version", "match", "tag"];
    let tag_fields: [&'static str; 1] = ["value"];
    assert(str_views(fields@) =~= rule_fields());
    assert(str_views(tag_fields@) =~= seq!["value"@]);
    let body = match need_record(doc, "rule", &fields, 5, true) {
        Ok(body) => body,
        Err(e) => {
            return Err(e);
        },
    };
    let body = &body;
    let name = match need_text(body, "name") {
        Ok(name) => name,
        Err(e) => {
            return Err(e);
        },
    };
    let description = match may_text(body, "description") {
        Ok(description) => description,
        Err(e) => {
            return Err(e);
        },
    };
    let version = match may_text(body, "version") {
        Ok(version) => version,
        Err(e) => {
            return Err(e);
        },
    };
    let conditions = match need_table(body, "match") {
        Ok(conditions) => conditions,
        Err(e) => {
            return Err(e);
        },
    };
    let tag = match need_record(body, "tag", &tag_fields, 1, true) {
        Ok(tag) => tag,
        Err(e) => {
            return Err(e);
        },
    };
    let value = match need_text(&tag, "value") {
        Ok(value) => value,
        Err(e) => {
            return Err(e);
        },
    };
    let message_contains_needles = match conditions.get("message_contains") {
        Some(value) => toml_value_as_strings(value),
        None => {
            let none: Vec<String> = Vec::new();
            assert(texts(none@) =~= seq![]);
            none
        },
    };
    let match_fields = match conditions.clone() {
        Toml::Table(entries) => entries,
        _ => Vec::new(),
    };
    Ok(
        Rule {
            rule: RuleBody { name, description, version, match_fields, tag: TagSpec { value } },
            message_contains_needles,
        },
    )
}

/// Whether a field is one whose place depends on the kind of source.
pub open spec fn is_normalized_key(key: Seq<char>) -> bool {
    ||| key == "event_id"@
    ||| key == "provider"@
    ||| key == "host"@
    ||| key == "process"@
    ||| key == "subsystem"@
    ||| key == "category"@
    ||| key == "bundle_id"@
    ||| key == "app_id"@
    ||| key == "intent_classname"@
    ||| key == "intent_action"@
    ||| key == "token_text"@
    ||| key == "token_frequency"@
    ||| key == "mail_subject"@
    ||| key == "mail_message_id"@
    ||| key == "state_raw"@
    ||| key == "wifi_ssid"@
    ||| key == "timezone_name"@
    ||| key == "safari_host"@
    ||| key == "safari_url"@
    ||| key == "harvested_message_content"@
    ||| key == "harvested_message_sender"@
    ||| key == "message_id"@
    ||| key == "bluetooth_mac"@
    ||| key == "bluetooth_name"@
}

fn names_normalized_key(key: &str) -> (r: bool)
    ensures
        r == is_normalized_key(key@),
{
    same(key, "event_id") ||
    same(key, "provider") ||
    same(key, "host") ||
    same(key, "process") ||
    same(key, "subsystem") ||
    same(key, "category") ||
    same(key, "bundle_id") ||
    same(key, "app_id") ||
    same(key, "intent_classname") ||
    same(key, "intent_action") ||
    same(key, "token_text") ||
    same(key, "token_frequency") ||
    same(key, "mail_subject") ||
    same(key, "mail_message_id") ||
    same(key, "state_raw") ||
    same(key, "wifi_ssid") ||
    same(key, "timezone_name") ||
    same(key, "safari_host") ||
    same(key, "safari_url") ||
    same(key, "harvested_message_content") ||
    same(key, "harvested_message_sender") ||
    same(key, "message_id") ||
    same(key, "bluetooth_mac") ||
    same(key, "bluetooth_name")
}

/// Whether the only interesting content of a stream is a state that is 0 or 1.
pub open spec fn is_binary_state_stream(stream: Seq<char>) -> bool {
    ||| stream == "Device.ScreenLocked"@
    ||| stream == "Device.KeybagLocked"@
    ||| stream == "CarPlay.Connected"@
    ||| stream == "Device.Wireless.AirplaneMode"@
    ||| stream == "Device.Wireless.CellularDataEnabled"@
    ||| stream == "Device.Power.LowPowerMode"@
    ||| stream == "Device.Power.PluggedIn"@
}

fn names_binary_state_stream(stream: &str) -> (r: bool)
    ensures
        r == is_binary_state_stream(stream@),
{
    same(stream, "Device.ScreenLocked") ||
    same(stream, "Device.KeybagLocked") ||
    same(stream, "CarPlay.Connected") ||
    same(stream, "Device.Wireless.AirplaneMode") ||
    same(stream, "Device.Wireless.CellularDataEnabled") ||
    same(stream, "Device.Power.LowPowerMode") ||
    same(stream, "Device.Power.PluggedIn")
}

/// Where a normalized field stands in a record of a Biome stream. The number of
/// a field means something else in every stream.
pub open spec fn biome_path(stream: Seq<char>, key: Seq<char>) -> Option<Seq<Seq<char>>> {
    if stream == "ScreenTime.AppUsage"@ && key == "bundle_id"@ {
        Some(seq!["payload"@, "3"@, "utf8"@])
    } else if stream == "Keyboard.TokenFrequency"@ && key == "token_text"@ {
        Some(seq!["payload"@, "1"@, "nested"@, "1"@, "utf8"@])
    } else if stream == "Keyboard.TokenFrequency"@ && key == "token_frequency"@ {
        Some(seq!["payload"@, "3"@])
    } else if stream == "App.Intent"@ && key == "app_id"@ {
        Some(seq!["payload"@, "2"@, "utf8"@])
    } else if stream == "App.Intent"@ && key == "intent_classname"@ {
        Some(seq!["payload"@, "4"@, "utf8"@])
    } else if stream == "App.Intent"@ && key == "intent_action"@ {
        Some(seq!["payload"@, "5"@, "utf8"@])
    } else if stream == "ProactiveHarvesting.Mail"@ && key == "mail_subject"@ {
        Some(seq!["payload"@, "11"@, "utf8"@])
    } else if stream == "ProactiveHarvesting.Mail"@ && key == "mail_message_id"@ {
        Some(seq!["payload"@, "2"@, "utf8"@])
    } else if is_binary_state_stream(stream) && key == "state_raw"@ {
        Some(seq!["payload"@, "1"@])
    } else if stream == "Device.Wireless.WiFi"@ && key == "state_raw"@ {
        Some(seq!["payload"@, "2"@])
    } else if stream == "Device.Wireless.WiFi"@ && key == "wifi_ssid"@ {
        Some(seq!["payload"@, "1"@, "utf8"@])
    } else if stream == "Device.TimeZone"@ && key == "timezone_name"@ {
        Some(seq!["payload"@, "2"@, "utf8"@])
    } else if stream == "Safari.Navigations"@ && key == "safari_host"@ {
        Some(seq!["payload"@, "1"@, "utf8"@])
    } else if stream == "Safari.Navigations"@ && key == "safari_url"@ {
        Some(seq!["payload"@, "8"@, "utf8"@])
    } else if stream == "ProactiveHarvesting.Messages"@ && key == "harvested_message_content"@ {
        Some(seq!["payload"@, "10"@, "utf8"@])
    } else if stream == "ProactiveHarvesting.Messages"@ && key == "harvested_message_sender"@ {
        Some(seq!["payload"@, "11"@, "nested"@, "1"@, "utf8"@])
    } else if stream == "Messages.Read"@ && key == "message_id"@ {
        Some(seq!["payload"@, "1"@])
    } else if stream == "Device.Wireless.Bluetooth"@ && key == "bluetooth_mac"@ {
        Some(seq!["payload"@, "1"@, "utf8"@])
    } else if stream == "Device.Wireless.Bluetooth"@ && key == "bluetooth_name"@ {
        Some(seq!["payload"@, "2"@, "utf8"@])
    } else {
        None
    }
}

/// The value of a normalized field in the fields of an entry.
pub open spec fn normalized_value(key: Seq<char>, sourcetype: Seq<char>, fields: JsonView) -> Option<
    JsonView,
> {
    if sourcetype == "evtx"@ {
        if key == "event_id"@ {
            fields.at(seq!["Event"@, "System"@, "EventID"@])
        } else if key == "provider"@ || key == "subsystem"@ {
            fields.at(seq!["Event"@, "System"@, "Provider_attributes"@, "Name"@])
        } else if key == "host"@ {
            fields.at(seq!["Event"@, "System"@, "Computer"@])
        } else {
            None
        }
    } else if sourcetype == "journald"@ {
        if key == "host"@ {
            fields.at(seq!["_HOSTNAME"@])
        } else if key == "process"@ {
            match fields.at(seq!["SYSLOG_IDENTIFIER"@]) {
                Some(v) => Some(v),
                None => fields.at(seq!["_COMM"@]),
            }
        } else {
            None
        }
    } else if sourcetype == "biome"@ {
        match fields.get("stream"@) {
            Some(JsonView::Text(stream)) => match biome_path(stream, key) {
                Some(path) => fields.at(path),
                None => None,
            },
            _ => None,
        }
    } else {
        None
    }
}

fn biome_field<'a>(stream: &str, key: &str, fields: &'a Json) -> (r: Option<&'a Json>)
    ensures
        match biome_path(stream@, key@) {
            Some(path) => match r {
                Some(v) => fields@.at(path) == Some(v@),
                None => fields@.at(path) is None,
            },
            None => r is None,
        },
{
    if same(stream, "ScreenTime.AppUsage") && same(key, "bundle_id") {
        let path: [&str; 3] = ["payload", "3", "utf8"];
        assert(path_view(path@) =~= seq!["payload"@, "3"@, "utf8"@]);
        fields.at(&path)
    } else if same(stream, "Keyboard.TokenFrequency") && same(key, "token_text") {
        let path: [&str; 5] = ["payload", "1", "nested", "1", "utf8"];
        assert(path_view(path@) =~= seq!["payload"@, "1"@, "nested"@, "1"@, "utf8"@]);
        fields.at(&path)
    } else if same(stream, "Keyboard.TokenFrequency") && same(key, "token_frequency") {
        let path: [&str; 2] = ["payload", "3"];
        assert(path_view(path@) =~= seq!["payload"@, "3"@]);
        fields.at(&path)
    } else if same(stream, "App.Intent") && same(key, "app_id") {
        let path: [&str; 3] = ["payload", "2", "utf8"];
        assert(path_view(path@) =~= seq!["payload"@, "2"@, "utf8"@]);
        fields.at(&path)
    } else if same(stream, "App.Intent") && same(key, "intent_classname") {
        let path: [&str; 3] = ["payload", "4", "utf8"];
        assert(path_view(path@) =~= seq!["payload"@, "4"@, "utf8"@]);
        fields.at(&path)
    } else if same(stream, "App.Intent") && same(key, "intent_action") {
        let path: [&str; 3] = ["payload", "5", "utf8"];
        assert(path_view(path@) =~= seq!["payload"@, "5"@, "utf8"@]);
        fields.at(&path)
    } else if same(stream, "ProactiveHarvesting.Mail") && same(key, "mail_subject") {
        let path: [&str; 3] = ["payload", "11", "utf8"];
        assert(path_view(path@) =~= seq!["payload"@, "11"@, "utf8"@]);
        fields.at(&path)
    } else if same(stream, "ProactiveHarvesting.Mail") && same(key, "mail_message_id") {
        let path: [&str; 3] = ["payload", "2", "utf8"];
        assert(path_view(path@) =~= seq!["payload"@, "2"@, "utf8"@]);
        fields.at(&path)
    } else if names_binary_state_stream(stream) && same(key, "state_raw") {
        let path: [&str; 2] = ["payload", "1"];
        assert(path_view(path@) =~= seq!["payload"@, "1"@]);
        fields.at(&path)
    } else if same(stream, "Device.Wireless.WiFi") && same(key, "state_raw") {
        let path: [&str; 2] = ["payload", "2"];
        assert(path_view(path@) =~= seq!["payload"@, "2"@]);
        fields.at(&path)
    } else if same(stream, "Device.Wireless.WiFi") && same(key, "wifi_ssid") {
        let path: [&str; 3] = ["payload", "1", "utf8"];
        assert(path_view(path@) =~= seq!["payload"@, "1"@, "utf8"@]);
        fields.at(&path)
    } else if same(stream, "Device.TimeZone") && same(key, "timezone_name") {
        let path: [&str; 3] = ["payload", "2", "utf8"];
        assert(path_view(path@) =~= seq!["payload"@, "2"@, "utf8"@]);
        fields.at(&path)
    } else if same(stream, "Safari.Navigations") && same(key, "safari_host") {
        let path: [&str; 3] = ["payload", "1", "utf8"];
        assert(path_view(path@) =~= seq!["payload"@, "1"@, "utf8"@]);
        fields.at(&path)
    } else if same(stream, "Safari.Navigations") && same(key, "safari_url") {
        let path: [&str; 3] = ["payload", "8", "utf8"];
        assert(path_view(path@) =~= seq!["payload"@, "8"@, "utf8"@]);
        fields.at(&path)
    } else if same(stream, "ProactiveHarvesting.Messages") && same(key, "harvested_message_content") {
        let path: [&str; 3] = ["payload", "10", "utf8"];
        assert(path_view(path@) =~= seq!["payload"@, "10"@, "utf8"@]);
        fields.at(&path)
    } else if same(stream, "ProactiveHarvesting.Messages") && same(key, "harvested_message_sender") {
        let path: [&str; 5] = ["payload", "11", "nested", "1", "utf8"];
        assert(path_view(path@) =~= seq!["payload"@, "11"@, "nested"@, "1"@, "utf8"@]);
        fields.at(&path)
    } else if same(stream, "Messages.Read") && same(key, "message_id") {
        let path: [&str; 2] = ["payload", "1"];
        assert(path_view(path@) =~= seq!["payload"@, "1"@]);
        fields.at(&path)
    } else if same(stream, "Device.Wireless.Bluetooth") && same(key, "bluetooth_mac") {
        let path: [&str; 3] = ["payload", "1", "utf8"];
        assert(path_view(path@) =~= seq!["payload"@, "1"@, "utf8"@]);
        fields.at(&path)
    } else if same(stream, "Device.Wireless.Bluetooth") && same(key, "bluetooth_name") {
        let path: [&str; 3] = ["payload", "2", "utf8"];
        assert(path_view(path@) =~= seq!["payload"@, "2"@, "utf8"@]);
        fields.at(&path)
    } else {
        None
    }
}

/// The value of a normalized field in the fields of an entry.
pub fn normalized_field<'a>(key: &str, sourcetype: &str, fields: &'a Json) -> (r: Option<&'a Json>)
    ensures
        match r {
            Some(v) => normalized_value(key@, sourcetype@, fields@) == Some(v@),
            None => normalized_value(key@, sourcetype@, fields@) is None,
        },
{
    if same(sourcetype, "evtx") {
        if same(key, "event_id") {
            let path: [&str; 3] = ["Event", "System", "EventID"];
            assert(path_view(path@) =~= seq!["Event"@, "System"@, "EventID"@]);
            fields.at(&path)
        } else if same(key, "provider") || same(key, "subsystem") {
            let path: [&str; 4] = ["Event", "System", "Provider_attributes", "Name"];
            assert(path_view(path@) =~= seq![
                "Event"@,
                "System"@,
                "Provider_attributes"@,
                "Name"@,
            ]);
            fields.at(&path)
        } else if same(key, "host") {
            let path: [&str; 3] = ["Event", "System", "Computer"];
            assert(path_view(path@) =~= seq!["Event"@, "System"@, "Computer"@]);
            fields.at(&path)
        } else {
            None
        }
    } else if same(sourcetype, "journald") {
        if same(key, "host") {
            let path: [&str; 1] = ["_HOSTNAME"];
            assert(path_view(path@) =~= seq!["_HOSTNAME"@]);
            fields.at(&path)
        } else if same(key, "process") {
            let path: [&str; 1] = ["SYSLOG_IDENTIFIER"];
            assert(path_view(path@) =~= seq!["SYSLOG_IDENTIFIER"@]);
            match fields.at(&path) {
                Some(v) => Some(v),
                None => {
                    let path: [&str; 1] = ["_COMM"];
                    assert(path_view(path@) =~= seq!["_COMM"@]);
                    fields.at(&path)
                },
            }
        } else {
            None
        }
    } else if same(sourcetype, "biome") {
        match fields.get("stream") {
            Some(Json::Text(stream)) => biome_field(stream.as_str(), key, fields),
            _ => None,
        }
    } else {
        None
    }
}

/// Whether a value is the expected one. Values of different types are never
/// equal; integers and floats are compared as numbers.
pub open spec fn value_equals(expected: TomlView, actual: JsonView) -> bool {
    match expected {
        TomlView::Text(e) => actual == JsonView::Text(e),
        TomlView::Integer(e) => actual.as_i64() == Some(e),
        TomlView::Float { bits } => match actual.as_double() {
            Some(a) => doubles_equal(a, bits),
            None => false,
        },
        TomlView::Bool(e) => actual == JsonView::Bool(e),
        _ => false,
    }
}

fn toml_matches_json(expected: &Toml, actual: &Json) -> (r: bool)
    ensures
        r == value_equals(expected@, actual@),
{
    match expected {
        Toml::Text(e) => match actual {
            Json::Text(a) => same(e.as_str(), a.as_str()),
            _ => false,
        },
        Toml::Integer(e) => match actual.as_i64() {
            Some(a) => a == *e,
            None => false,
        },
        Toml::Float { bits } => match actual.as_double() {
            Some(a) => same_double(a, *bits),
            None => false,
        },
        Toml::Bool(e) => match actual {
            Json::Bool(a) => *e == *a,
            _ => false,
        },
        _ => false,
    }
}

/// What a rule is held against: the pieces of an entry that matching needs.
#[verifier::ext_equal]
pub struct Subject {
    pub sourcetype: Seq<char>,
    pub level: Option<Seq<char>>,
    pub message: Option<Seq<char>>,
    pub fields: JsonView,
}

/// Whether one condition of a rule holds of an entry.
pub open spec fn condition_holds(
    key: Seq<char>,
    expected: TomlView,
    needles: Seq<Seq<char>>,
    s: Subject,
) -> bool {
    if key == "sourcetype"@ {
        expected == TomlView::Text(s.sourcetype)
    } else if key == "level"@ {
        s.level is Some && expected == TomlView::Text(s.level->0)
    } else if key == "message"@ {
        s.message is Some && expected == TomlView::Text(s.message->0)
    } else if key == "message_contains"@ {
        s.message is Some && exists|i: int|
            0 <= i < needles.len() && occurs_in(s.message->0, #[trigger] needles[i])
    } else {
        let nested = if is_normalized_key(key) {
            normalized_value(key, s.sourcetype, s.fields)
        } else {
            None
        };
        let actual = match nested {
            Some(v) => Some(v),
            None => s.fields.get(key),
        };
        actual is Some && value_equals(expected, actual->0)
    }
}

/// Whether a rule matches an entry: all its conditions hold.
pub open spec fn rule_matches(rule: RuleView, s: Subject) -> bool {
    forall|i: int|
        0 <= i < rule.match_fields.len() ==> condition_holds(
            (#[trigger] rule.match_fields[i]).0,
            rule.match_fields[i].1,
            rule.needles,
            s,
        )
}

/// The subject of an entry given by references.
pub open spec fn subject_of(
    sourcetype: &str,
    level: Option<&str>,
    message: Option<&str>,
    fields: &Json,
) -> Subject {
    Subject {
        sourcetype: sourcetype@,
        level: match level {
            Some(s) => Some(s@),
            None => None,
        },
        message: match message {
            Some(s) => Some(s@),
            None => None,
        },
        fields: fields@,
    }
}

fn is_text(value: &Toml, text: &str) -> (r: bool)
    ensures
        r == (value@ == TomlView::Text(text@)),
{
    match value {
        Toml::Text(s) => same(s.as_str(), text),
        _ => false,
    }
}

fn contains_any(message: &str, needles: &Vec<String>) -> (r: bool)
    ensures
        r == exists|i: int|
            0 <= i < texts(needles@).len() && occurs_in(message@, #[trigger] texts(needles@)[i]),
{
    let mut i: usize = 0;
    while i < needles.len()
        invariant
            i <= needles.len(),
            forall|j: int|
                0 <= j < i ==> !occurs_in(message@, #[trigger] texts(needles@)[j]),
        decreases needles.len() - i,
    {
        assert(texts(needles@)[i as int] == needles@[i as int]@);
        if contains(message, needles[i].as_str()) {
            return true;
        }
        i += 1;
    }
    false
}

/// Whether an entry is one that a new rule is to match.
pub open spec fn is_asked_for(sourcetype: Seq<char>, condition: RuleCondition, s: Subject) -> bool {
    match condition {
        RuleCondition::MessageContains(pattern) => {
            s.message is Some && occurs_in(s.message->0, pattern@)
        },
        RuleCondition::FieldEquals { field, value } => {
            let expected = condition_value(value@);
            let needles = if field@ == "message_contains"@ {
                substrings(expected)
            } else {
                seq![]
            };
            s.sourcetype == sourcetype && condition_holds(field@, expected, needles, s)
        },
    }
}

/// Whether a rule is the one that was written: it has the name and the tag that it
/// was given, and matches the entries that it was to match, and no others.
pub open spec fn is_new_rule(
    rule: RuleView,
    name: Seq<char>,
    sourcetype: Seq<char>,
    condition: RuleCondition,
    tag: Seq<char>,
) -> bool {
    &&& rule.name == name
    &&& rule.description == Some(new_rule_description())
    &&& rule.version is None
    &&& rule.tag == tag
    &&& forall|s: Subject|
        #[trigger] rule_matches(rule, s) == is_asked_for(sourcetype, condition, s)
}

/// Conditions in another order match the same entries.
proof fn lemma_same_conditions(rule: RuleView, written: Seq<(Seq<char>, TomlView)>, s: Subject)
    requires
        same_entries(rule.match_fields, written),
        forall|i: int, j: int|
            0 <= i < j < written.len() ==> (#[trigger] written[i]).0 != (#[trigger] written[j]).0,
    ensures
        rule_matches(rule, s) == rule_matches(RuleView { match_fields: written, ..rule }, s),
{
    let other = RuleView { match_fields: written, ..rule };
    let found = rule.match_fields;
    if rule_matches(rule, s) {
        assert forall|i: int| 0 <= i < written.len() implies condition_holds(
            (#[trigger] written[i]).0,
            written[i].1,
            rule.needles,
            s,
        ) by {
            lemma_entry_at(written, i);
            let j = lemma_entry_found(found, written[i].0);
            assert(found[j].0 == written[i].0 && found[j].1 == written[i].1);
        }
        assert(rule_matches(other, s));
    }
    if rule_matches(other, s) {
        assert forall|i: int| 0 <= i < found.len() implies condition_holds(
            (#[trigger] found[i]).0,
            found[i].1,
            rule.needles,
            s,
        ) by {
            lemma_entry_at(found, i);
            let j = lemma_entry_found(written, found[i].0);
            assert(other.match_fields[j].0 == found[i].0 && other.match_fields[j].1 == found[i].1);
        }
        assert(rule_matches(rule, s));
    }
}

/// What is found in the file of a new rule.
proof fn lemma_rule_entries(
    name: Seq<char>,
    sourcetype: Seq<char>,
    condition: RuleCondition,
    tag: Seq<char>,
)
    ensures
        ({
            let doc = rule_document(name, sourcetype, condition, tag);
            let value = Seq::empty().push(("value"@, TomlView::Text(tag)));
            &&& doc.name == "rule"@
            &&& entry(doc.entries, "name"@) == Some(TomlView::Text(name))
            &&& entry(doc.entries, "description"@) == Some(TomlView::Text(new_rule_description()))
            &&& entry(doc.entries, "version"@) is None
            &&& entry(doc.entries, "match"@) is None
            &&& entry(doc.entries, "tag"@) is None
            &&& table_entries(doc.tables, "version"@) is None
            &&& table_entries(doc.tables, "match"@) == Some(condition_entries(sourcetype, condition))
            &&& table_entries(doc.tables, "tag"@) == Some(value)
            &&& entry(value, "value"@) == Some(TomlView::Text(tag))
        }),
{
    let none = Seq::<(Seq<char>, TomlView)>::empty();
    let first = ("name"@, TomlView::Text(name));
    let second = ("description"@, TomlView::Text(new_rule_description()));
    let value = ("value"@, TomlView::Text(tag));
    let no_tables = Seq::<(Seq<char>, Seq<(Seq<char>, TomlView)>)>::empty();
    let matching = ("match"@, condition_entries(sourcetype, condition));
    let tagging = ("tag"@, none.push(value));
    reveal_strlit("name");
    reveal_strlit("description");
    reveal_strlit("version");
    reveal_strlit("match");
    reveal_strlit("tag");
    assert("name"@.len() == 4);
    assert("description"@.len() == 11);
    assert("version"@.len() == 7);
    assert("match"@.len() == 5);
    assert("tag"@.len() == 3);
    lemma_entry_push(none, first, "name"@);
    lemma_entry_push(none.push(first), second, "name"@);
    lemma_entry_push(none, first, "description"@);
    lemma_entry_push(none.push(first), second, "description"@);
    lemma_entry_push(none, first, "version"@);
    lemma_entry_push(none.push(first), second, "version"@);
    lemma_entry_push(none, first, "match"@);
    lemma_entry_push(none.push(first), second, "match"@);
    lemma_entry_push(none, first, "tag"@);
    lemma_entry_push(none.push(first), second, "tag"@);
    lemma_entry_push(none, value, "value"@);
    lemma_table_push(no_tables, matching, "version"@);
    lemma_table_push(no_tables.push(matching), tagging, "version"@);
    lemma_table_push(no_tables, matching, "match"@);
    lemma_table_push(no_tables.push(matching), tagging, "match"@);
    lemma_table_push(no_tables, matching, "tag"@);
    lemma_table_push(no_tables.push(matching), tagging, "tag"@);
}

/// What the conditions of a new rule ask for.
proof fn lemma_conditions_asked(
    rule: RuleView,
    sourcetype: Seq<char>,
    condition: RuleCondition,
    s: Subject,
)
    requires
        rule.match_fields == condition_entries(sourcetype, condition),
        rule.needles == needles_of(TomlView::Table(condition_entries(sourcetype, condition))),
        condition matches RuleCondition::FieldEquals { field, .. } ==> field@ != "sourcetype"@,
    ensures
        rule_matches(rule, s) == is_asked_for(sourcetype, condition, s),
{
    let none = Seq::<(Seq<char>, TomlView)>::empty();
    reveal_strlit("message_contains");
    reveal_strlit("sourcetype");
    reveal_strlit("level");
    reveal_strlit("message");
    assert("message_contains"@.len() == 16);
    assert("sourcetype"@.len() == 10);
    assert("level"@.len() == 5);
    assert("message"@.len() == 7);
    let all = rule.match_fields;
    match condition {
        RuleCondition::MessageContains(pattern) => {
            let only = ("message_contains"@, TomlView::Text(pattern@));
            lemma_entry_push(none, only, "message_contains"@);
            assert(rule.needles == seq![pattern@]);
            assert(rule.needles[0] == pattern@);
            assert(all.len() == 1 && all[0] == only);
            if is_asked_for(sourcetype, condition, s) {
                assert(occurs_in(s.message->0, rule.needles[0]));
            }
            assert(rule_matches(rule, s) == condition_holds(all[0].0, all[0].1, rule.needles, s));
        },
        RuleCondition::FieldEquals { field, value } => {
            let kind = ("sourcetype"@, TomlView::Text(sourcetype));
            let other = (field@, condition_value(value@));
            lemma_entry_push(none, kind, "message_contains"@);
            lemma_entry_push(none.push(kind), other, "message_contains"@);
            assert(all.len() == 2 && all[0] == kind && all[1] == other);
            assert(rule_matches(rule, s) == (condition_holds(
                all[0].0,
                all[0].1,
                rule.needles,
                s,
            ) && condition_holds(all[1].0, all[1].1, rule.needles, s)));
        },
    }
}

/// A document that holds what the file of a new rule says holds the rule.
proof fn lemma_new_rule_reads_back(
    v: TomlView,
    name: Seq<char>,
    sourcetype: Seq<char>,
    condition: RuleCondition,
    tag: Seq<char>,
)
    requires
        is_writable_rule(name, sourcetype, condition, tag),
        rule_document(name, sourcetype, condition, tag).is_held_by(v),
    ensures
        rule_of(v) matches Ok(rule) && is_new_rule(rule, name, sourcetype, condition, tag),
{
    let doc = rule_document(name, sourcetype, condition, tag);
    let written = condition_entries(sourcetype, condition);
    lemma_rule_file_is_plain(name, sourcetype, condition, tag);
    lemma_rule_entries(name, sourcetype, condition, tag);
    let body = v.get("rule"@)->0->Table_0;
    assert(entry(body, "name"@) == Some(TomlView::Text(name)));
    assert(entry(body, "description"@) == Some(TomlView::Text(new_rule_description())));
    assert(entry(body, "version"@) is None);
    assert(entry(body, "match"@) matches Some(TomlView::Table(inner)) && same_entries(
        inner,
        written,
    ));
    assert(entry(body, "tag"@) matches Some(TomlView::Table(inner)) && same_entries(
        inner,
        Seq::empty().push(("value"@, TomlView::Text(tag))),
    ));
    let given = entry(body, "tag"@)->0->Table_0;
    assert(entry(given, "value"@) == Some(TomlView::Text(tag)));
    let rule = rule_of(v)->Ok_0;
    let found = rule.match_fields;
    assert(entry(found, "message_contains"@) == entry(written, "message_contains"@));
    assert(doc.tables[0].1 == written);
    assert forall|s: Subject| #[trigger] rule_matches(rule, s) == is_asked_for(
        sourcetype,
        condition,
        s,
    ) by {
        lemma_same_conditions(rule, written, s);
        lemma_conditions_asked(
            RuleView { match_fields: written, ..rule },
            sourcetype,
            condition,
            s,
        );
    }
}

impl Rule {
    /// The rule that a text holds, or why it holds none. The text of a new rule holds
    /// the rule that was asked for.
    pub fn from_toml_str(s: &str) -> (r: Result<Rule, RuleParseError>)
        ensures
            match r {
                Ok(rule) => rule_of_text(s@) == Ok::<RuleView, Seq<char>>(rule@),
                Err(e) => rule_of_text(s@) == Err::<RuleView, Seq<char>>(e.reason@),
            },
            forall|
                name: Seq<char>,
                sourcetype: Seq<char>,
                condition: RuleCondition,
                tag: Seq<char>,
            |
                s@ == #[trigger] rule_file_text(
                    name,
                    condition_in_toml(sourcetype, condition),
                    tag,
                ) && is_writable_rule(name, sourcetype, condition, tag) ==> match r {
                    Ok(rule) => is_new_rule(rule@, name, sourcetype, condition, tag),
                    Err(_) => false,
                },
    {
        let parsed = parse_toml(s);
        let ghost tree = parsed->Ok_0@;
        let r = match parsed {
            Ok(doc) => match rule_from_document(&doc) {
                Ok(rule) => Ok(rule),
                Err(reason) => Err(RuleParseError { reason }),
            },
            Err(reason) => Err(RuleParseError { reason }),
        };
        proof {
            assert forall|
                name: Seq<char>,
                sourcetype: Seq<char>,
                condition: RuleCondition,
                tag: Seq<char>,
            |
                s@ == #[trigger] rule_file_text(
                    name,
                    condition_in_toml(sourcetype, condition),
                    tag,
                ) && is_writable_rule(name, sourcetype, condition, tag) implies match r {
                Ok(rule) => is_new_rule(rule@, name, sourcetype, condition, tag),
                Err(_) => false,
            } by {
                lemma_rule_file_is_plain(name, sourcetype, condition, tag);
                assert(s@ == rule_document(name, sourcetype, condition, tag).text());
                lemma_new_rule_reads_back(tree, name, sourcetype, condition, tag);
            }
        }
        r
    }

    fn holds(
        &self,
        key: &str,
        expected: &Toml,
        sourcetype: &str,
        level: Option<&str>,
        message: Option<&str>,
        fields: &Json,
    ) -> (r: bool)
        ensures
            r == condition_holds(
                key@,
                expected@,
                self@.needles,
                subject_of(sourcetype, level, message, fields),
            ),
    {
        if same(key, "sourcetype") {
            is_text(expected, sourcetype)
        } else if same(key, "level") {
            match level {
                Some(actual) => is_text(expected, actual),
                None => false,
            }
        } else if same(key, "message") {
            match message {
                Some(actual) => is_text(expected, actual),
                None => false,
            }
        } else if same(key, "message_contains") {
            match message {
                Some(actual) => contains_any(actual, &self.message_contains_needles),
                None => false,
            }
        } else {
            let nested = if names_normalized_key(key) {
                normalized_field(key, sourcetype, fields)
            } else {
                None
            };
            let actual = match nested {
                Some(v) => Some(v),
                None => fields.get(key),
            };
            match actual {
                Some(v) => toml_matches_json(expected, v),
                None => false,
            }
        }
    }

    /// Whether the rule matches an entry with these pieces.
    pub fn matches(
        &self,
        sourcetype: &str,
        level: Option<&str>,
        message: Option<&str>,
        fields: &Json,
    ) -> (r: bool)
        ensures
            r == rule_matches(self@, subject_of(sourcetype, level, message, fields)),
    {
        let ghost s = subject_of(sourcetype, level, message, fields);
        let conditions = &self.rule.match_fields;
        let mut i: usize = 0;
        proof {
            lemma_toml_entries(conditions@);
        }
        while i < conditions.len()
            invariant
                i <= conditions.len(),
                conditions == self.rule.match_fields,
                s == subject_of(sourcetype, level, message, fields),
                forall|j: int|
                    0 <= j < conditions.len() ==> #[trigger] self@.match_fields[j] == (
                        conditions@[j].0@,
                        conditions@[j].1@,
                    ),
                forall|j: int|
                    0 <= j < i ==> condition_holds(
                        (#[trigger] self@.match_fields[j]).0,
                        self@.match_fields[j].1,
                        self@.needles,
                        s,
                    ),
            decreases conditions.len() - i,
        {
            assert(self@.match_fields[i as int] == (
                conditions@[i as int].0@,
                conditions@[i as int].1@,
            ));
            if !self.holds(
                conditions[i].0.as_str(),
                &conditions[i].1,
                sourcetype,
                level,
                message,
                fields,
            ) {
                return false;
            }
            i += 1;
        }
        true
    }
}

/// A rule with more conditions matches no more entries: what it matches, the
/// rule without its last condition matches too.
pub proof fn lemma_conditions_narrow(rule: RuleView, s: Subject)
    requires
        rule.match_fields.len() > 0,
        rule_matches(rule, s),
    ensures
        rule_matches(RuleView { match_fields: rule.match_fields.drop_last(), ..rule }, s),
{
    let fewer = RuleView { match_fields: rule.match_fields.drop_last(), ..rule };
    assert forall|i: int| 0 <= i < fewer.match_fields.len() implies condition_holds(
        (#[trigger] fewer.match_fields[i]).0,
        fewer.match_fields[i].1,
        fewer.needles,
        s,
    ) by {
        assert(fewer.match_fields[i] == rule.match_fields[i]);
    }
}

/// A rule with a condition on texts in the message that names no text holds of
/// nothing.
pub proof fn lemma_no_needles_never_match(rule: RuleView, i: int, s: Subject)
    requires
        0 <= i < rule.match_fields.len(),
        rule.match_fields[i].0 == "message_contains"@,
        rule.needles.len() == 0,
    ensures
        !rule_matches(rule, s),
{
    reveal_strlit("message_contains");
    reveal_strlit("sourcetype");
    reveal_strlit("level");
    reveal_strlit("message");
    assert("message_contains"@.len() == 16);
    assert("sourcetype"@.len() == 10);
    assert("level"@.len() == 5);
    assert("message"@.len() == 7);
    assert(!condition_holds(
        rule.match_fields[i].0,
        rule.match_fields[i].1,
        rule.needles,
        s,
    ));
}

/// A rule with a condition on a field that an entry has neither where its source
/// keeps it nor under its own name does not hold of the entry.
pub proof fn lemma_absent_field_never_matches(rule: RuleView, i: int, s: Subject)
    requires
        0 <= i < rule.match_fields.len(),
        ({
            let key = rule.match_fields[i].0;
            &&& key != "sourcetype"@ && key != "level"@
            &&& key != "message"@ && key != "message_contains"@
            &&& normalized_value(key, s.sourcetype, s.fields) is None
            &&& s.fields.get(key) is None
        }),
    ensures
        !rule_matches(rule, s),
{
    assert(!condition_holds(
        rule.match_fields[i].0,
        rule.match_fields[i].1,
        rule.needles,
        s,
    ));
}

/// The number of an event is looked for in its place only where the entry is of the
/// kind that has such numbers.
pub proof fn lemma_event_numbers_are_of_event_logs(key: Seq<char>, s: Subject)
    requires
        key == "event_id"@ || key == "provider"@,
        s.sourcetype != "evtx"@ && s.sourcetype != "biome"@,
    ensures
        normalized_value(key, s.sourcetype, s.fields) is None,
{
    reveal_strlit("event_id");
    reveal_strlit("provider");
    reveal_strlit("host");
    reveal_strlit("process");
    assert("event_id"@.len() == 8);
    assert("provider"@.len() == 8);
    assert("host"@.len() == 4);
    assert("process"@.len() == 7);
}

} // verus!
