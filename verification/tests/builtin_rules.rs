//! Rules that come in packs.

use peach::json::{parse_json, Json};
use peach::tagging::builtin::{
    all_builtin_rules, aul_pattern_of_life_rules, evtx_security_auditing_rules,
    journald_login_rules, BuiltinPacks,
};

fn rule(name: &str, conditions: &str, tag: &str) -> String {
    format!("[rule]\nname = \"{name}\"\n[rule.match]\n{conditions}\n[rule.tag]\nvalue = \"{tag}\"\n")
}

fn packs() -> BuiltinPacks {
    BuiltinPacks {
        aul: vec![
            rule("aul_wifi", "sourcetype = \"aul\"\nmessage_contains = \"wifi\"", "wifi_status"),
            rule(
                "aul_dialed_number_recovery",
                "sourcetype = \"aul\"\nmessage_contains = \"kPhoneNumber\"",
                "dialed_number_recovery",
            ),
        ],
        evtx: vec![rule(
            "evtx_logon_success",
            "sourcetype = \"evtx\"\nevent_id = 4624",
            "logon_success",
        )],
        journald: vec![
            rule(
                "journald_ssh_logon_success",
                "sourcetype = \"journald\"\nprocess = \"sshd\"\nmessage_contains = \"Accepted \"",
                "logon_success",
            ),
            rule(
                "journald_kernel_boot",
                "sourcetype = \"journald\"\n_TRANSPORT = \"kernel\"\nmessage_contains = \"Linux version\"",
                "system_boot",
            ),
        ],
    }
}

#[test]
fn embedded_dialed_number_recovery_rule_matches_a_realistic_message() {
    let rules = aul_pattern_of_life_rules(&packs()).unwrap();
    let dialed_number = rules
        .iter()
        .find(|r| r.rule.tag.value == "dialed_number_recovery")
        .expect("expected an embedded rule tagging dialed_number_recovery");

    let message = "kPhoneNumber\": \"0652441234\", kActionType\": 0";
    assert!(dialed_number.matches("aul", None, Some(message), &Json::Null));

    let unrelated = "Started tracking call";
    assert!(!dialed_number.matches("aul", None, Some(unrelated), &Json::Null));
}

#[test]
fn embedded_evtx_logon_success_rule_matches_a_realistic_nested_record() {
    let rules = evtx_security_auditing_rules(&packs()).unwrap();
    let logon_success = rules
        .iter()
        .find(|r| r.rule.tag.value == "logon_success")
        .expect("expected an embedded rule tagging logon_success");

    let fields = parse_json(r#"{"Event": {"System": {"EventID": 4624}}}"#).unwrap();
    assert!(logon_success.matches("evtx", None, None, &fields));

    let wrong_event = parse_json(r#"{"Event": {"System": {"EventID": 4625}}}"#).unwrap();
    assert!(!logon_success.matches("evtx", None, None, &wrong_event));
}

#[test]
fn embedded_journald_ssh_logon_success_rule_matches_a_realistic_record() {
    let rules = journald_login_rules(&packs()).unwrap();
    let logon_success = rules
        .iter()
        .find(|r| r.rule.tag.value == "logon_success")
        .expect("expected an embedded rule tagging logon_success");

    let fields = parse_json(r#"{"SYSLOG_IDENTIFIER": "sshd"}"#).unwrap();
    let message = "Accepted password for alice from 10.0.0.5 port 51000 ssh2";
    assert!(logon_success.matches("journald", None, Some(message), &fields));

    let wrong_process = parse_json(r#"{"SYSLOG_IDENTIFIER": "cron"}"#).unwrap();
    assert!(!logon_success.matches("journald", None, Some(message), &wrong_process));

    let wrong_message = "Failed password for alice from 10.0.0.5 port 51000 ssh2";
    assert!(!logon_success.matches("journald", None, Some(wrong_message), &fields));
}

#[test]
fn embedded_journald_kernel_boot_rule_matches_a_realistic_record() {
    let rules = journald_login_rules(&packs()).unwrap();
    let boot = rules
        .iter()
        .find(|r| r.rule.tag.value == "system_boot")
        .expect("expected an embedded rule tagging system_boot");

    let fields = parse_json(r#"{"_TRANSPORT": "kernel"}"#).unwrap();
    let message = "Linux version 6.8.0-generic (buildd@host) #1 SMP";
    assert!(boot.matches("journald", None, Some(message), &fields));

    let wrong_transport = parse_json(r#"{"_TRANSPORT": "syslog"}"#).unwrap();
    assert!(!boot.matches("journald", None, Some(message), &wrong_transport));

    let wrong_message = "Linux CPU throttling active";
    assert!(!boot.matches("journald", None, Some(wrong_message), &fields));
}

#[test]
fn all_builtin_rules_combines_all_three_packs() {
    let packs = packs();
    let all = all_builtin_rules(&packs).unwrap();
    let aul_count = aul_pattern_of_life_rules(&packs).unwrap().len();
    let evtx_count = evtx_security_auditing_rules(&packs).unwrap().len();
    let journald_count = journald_login_rules(&packs).unwrap().len();

    assert_eq!(all.len(), aul_count + evtx_count + journald_count);
    assert!(all.iter().any(|r| r.rule.tag.value == "wifi_status"));
    assert!(all.iter().any(|r| r.rule.tag.value == "logon_success"));
}

#[test]
fn a_pack_with_a_broken_rule_is_refused() {
    let mut broken = packs();
    broken.evtx.push("[[[".to_string());
    assert!(evtx_security_auditing_rules(&broken).is_err());
    assert!(all_builtin_rules(&broken).is_err());
    assert!(journald_login_rules(&broken).is_ok());
}
