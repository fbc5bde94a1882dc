//! Messages made from templates.

use peach::json::{parse_json, Json};
use peach::parsers::evtx_templates::{
    built_in_templates, event_payload, parse_templates, render, render_for_event, RENDERED_PREFIX,
};

fn json(text: &str) -> Json {
    parse_json(text).unwrap()
}

fn for_event(provider: &str, event_id: u32, payload: Option<&Json>) -> Option<String> {
    render_for_event(&built_in_templates().unwrap(), provider, event_id, payload)
}

#[test]
fn embeds_every_shipped_template_file_and_all_parse() {
    let total = built_in_templates().unwrap().len();
    assert!(
        total >= 15,
        "expected at least 15 embedded EVTX templates, got {total}"
    );
    assert_eq!(total, 24);
}

#[test]
fn render_substitutes_a_known_field() {
    let event_data = json("{\"TargetUserName\": \"bob\"}");
    assert_eq!(
        render("Account: {TargetUserName}", Some(&event_data)),
        "Account: bob"
    );
}

#[test]
fn render_leaves_an_unresolved_placeholder_literal() {
    let event_data = json("{\"TargetUserName\": \"bob\"}");
    assert_eq!(
        render(
            "Account: {TargetUserName}, group: {GroupName}",
            Some(&event_data)
        ),
        "Account: bob, group: {GroupName}"
    );
}

#[test]
fn render_leaves_every_placeholder_literal_without_event_data() {
    assert_eq!(
        render("Account: {TargetUserName}", None),
        "Account: {TargetUserName}"
    );
}

#[test]
fn render_for_event_returns_none_for_an_unknown_combination() {
    assert_eq!(for_event("Some Other Provider", 9999, None), None);
}

#[test]
fn render_for_event_is_prefixed_and_uses_event_data() {
    let event_data = json(
        "{\"TargetUserName\": \"bob\", \"TargetDomainName\": \"CORP\", \"LogonType\": 3, \"WorkstationName\": \"WS01\", \"IpAddress\": \"10.0.0.5\", \"IpPort\": \"49222\", \"LogonProcessName\": \"NtLmSsp\", \"AuthenticationPackageName\": \"NTLM\"}",
    );

    let rendered = for_event(
        "Microsoft-Windows-Security-Auditing",
        4624,
        Some(&event_data),
    )
    .unwrap();

    assert!(rendered.starts_with(RENDERED_PREFIX));
    assert!(rendered.contains("bob"));
    assert!(rendered.contains("CORP"));
    assert!(
        !rendered.contains('{'),
        "no placeholder should be left unresolved: {rendered}"
    );
}

#[test]
fn render_resolves_numbers_and_bools_but_not_null_or_structures() {
    let payload = json(
        "{\"LogonType\": 10, \"Elevated\": true, \"Empty\": null, \"Nested\": {\"a\": 1}, \"List\": [1, 2]}",
    );
    assert_eq!(render("{LogonType}/{Elevated}", Some(&payload)), "10/true");
    assert_eq!(
        render("{Empty}|{Nested}|{List}", Some(&payload)),
        "{Empty}|{Nested}|{List}"
    );
}

/// A record without `EventData`, with its fields in `UserData/EventXML`.
fn local_session_manager_event() -> Json {
    json(
        "{\"System\": {\"EventID\": 21}, \"UserData\": {\"EventXML_attributes\": {\"xmlns\": \"Event_NS\"}, \"EventXML\": {\"User\": \"HOST\\\\alice\", \"SessionID\": 1, \"Address\": \"LOCAL\"}}}",
    )
}

#[test]
fn event_payload_reads_the_user_data_element_and_skips_its_attributes() {
    let event = local_session_manager_event();
    let payload = event_payload(&event).unwrap();
    assert_eq!(payload.get("Address"), Some(&Json::Text("LOCAL".to_string())));
    assert_eq!(payload.get("SessionID"), Some(&Json::Unsigned(1)));
}

#[test]
fn event_payload_prefers_event_data_when_it_is_an_object() {
    let event = json(
        "{\"EventData\": {\"TargetUserName\": \"bob\"}, \"UserData\": {\"EventXML\": {\"User\": \"ignored\"}}}",
    );
    assert_eq!(
        event_payload(&event).unwrap().get("TargetUserName"),
        Some(&Json::Text("bob".to_string()))
    );
}

#[test]
fn event_payload_falls_through_a_null_event_data_and_is_none_without_fields() {
    let with_user_data =
        json("{\"EventData\": null, \"UserData\": {\"EventXML\": {\"User\": \"alice\"}}}");
    assert_eq!(
        event_payload(&with_user_data).unwrap().get("User"),
        Some(&Json::Text("alice".to_string()))
    );

    // No fields at all: null EventData, or nothing but an xmlns.
    assert_eq!(event_payload(&json("{\"EventData\": null}")), None);
    assert_eq!(
        event_payload(&json("{\"UserData\": {\"EventXML_attributes\": {\"xmlns\": \"x\"}}}")),
        None
    );
    assert_eq!(event_payload(&json("{}")), None);
}

#[test]
fn event_payload_is_none_when_user_data_is_ambiguous() {
    let event = json("{\"UserData\": {\"First\": {\"a\": 1}, \"Second\": {\"b\": 2}}}");
    assert_eq!(event_payload(&event), None);
}

#[test]
fn a_local_session_manager_record_renders_from_user_data() {
    let event = local_session_manager_event();
    let rendered = for_event(
        "Microsoft-Windows-TerminalServices-LocalSessionManager",
        21,
        event_payload(&event),
    )
    .unwrap();

    assert!(rendered.starts_with(RENDERED_PREFIX));
    assert!(rendered.contains("HOST\\alice"), "{rendered}");
    assert!(rendered.contains("LOCAL"), "{rendered}");
    assert!(
        !rendered.contains('{'),
        "no placeholder should be left unresolved: {rendered}"
    );
}

#[test]
fn render_for_event_does_not_cross_wires_between_providers_sharing_an_event_id() {
    assert_eq!(for_event("Some Other Provider", 4624, None), None);
}

#[test]
fn braces_that_make_no_placeholder_stay() {
    let payload = json("{\"a\": \"x\", \"b_1\": \"y\"}");
    assert_eq!(render("{{a}} {} { a } {a {b_1}", Some(&payload)), "{x} {} { a } {a y");
    assert_eq!(render("", Some(&payload)), "");
    assert_eq!(render("{a}{a}", Some(&payload)), "xx");
}

#[test]
fn a_file_of_templates_must_be_complete() {
    let one = "[[template]]\nprovider = \"P\"\nevent_id = 7\nmessage = \"m {x}\"\n";
    let templates = parse_templates(one).unwrap();
    assert_eq!(templates.len(), 1);
    assert_eq!(
        render_for_event(&templates, "P", 7, Some(&json("{\"x\": -5}"))),
        Some("[Peach] m -5".to_string())
    );
    assert!(parse_templates("x = 1\n").unwrap_err().contains("template"));
    assert!(parse_templates("template = 3\n").is_err());
    assert!(parse_templates("[[template]]\nprovider = \"P\"\nmessage = \"m\"\n").unwrap_err().contains("event_id"));
    assert!(parse_templates("[[template]]\nprovider = \"P\"\nevent_id = -1\nmessage = \"m\"\n").is_err());
    assert!(parse_templates("[[template]]\nevent_id = 1\nmessage = \"m\"\n").unwrap_err().contains("provider"));
    assert!(parse_templates("[[template]]\nprovider = \"P\"\nevent_id = 1\n").unwrap_err().contains("message"));
    assert!(parse_templates("[[[").is_err());
}

#[test]
fn a_template_may_be_written_as_a_list() {
    let templates = parse_templates("template = [[\"p\", 7, \"m {X}\"]]\n").unwrap();
    assert_eq!(templates.len(), 1);
    assert_eq!(templates[0].provider, "p");
    assert_eq!(templates[0].event_id, 7);
    assert_eq!(templates[0].message, "m {X}");
    assert!(parse_templates("template = [[\"p\", 7]]\n").is_err());
}
