//! What a session keeps.

use peach::session::persist::{
    activity_row, group_by_event, imported_from_text, loaded_sources_text, new_import_session_id,
    new_session_dir_for_import, new_session_id, read_activity_row, read_event_texts,
    read_imported_from, read_loaded_sources, ActivityFileCount, ActivityLogEntry, ActivityRow, ActivityRuleCount,
    ActivitySkippedFile, EventRow, ImportDirStep, ImportedFrom, LoadedSource, MakeDirOutcome,
    NewActivityLogEntry, SessionPaths, MAX_ATTEMPTS,
};
use peach::time::Timestamp;

#[test]
fn session_paths_derive_matching_duckdb_and_sqlite_files_in_their_own_subdir() {
    let paths = SessionPaths::new_in("/sessions", "session-20260729-153000");
    assert_eq!(
        paths.duckdb_path,
        "/sessions/session-20260729-153000/session-20260729-153000.duckdb"
    );
    assert_eq!(
        paths.sqlite_path,
        "/sessions/session-20260729-153000/session-20260729-153000.sqlite"
    );
    assert_eq!(paths.session_dir().as_deref(), Some("/sessions/session-20260729-153000"));
}

#[test]
fn from_sqlite_path_round_trips_the_id() {
    let paths = SessionPaths::from_sqlite_path(
        "/sessions/session-20260729-153000/session-20260729-153000.sqlite",
    )
    .unwrap();
    assert_eq!(paths.id, "session-20260729-153000");
    assert_eq!(
        paths.duckdb_path,
        "/sessions/session-20260729-153000/session-20260729-153000.duckdb"
    );
}

#[test]
fn a_session_is_found_again_by_its_file() {
    for (dir, id) in [("/sessions", "a"), ("rel", "b.c"), ("", "d"), ("/", "e")] {
        let paths = SessionPaths::new_in(dir, id);
        let again = SessionPaths::from_sqlite_path(&paths.sqlite_path).unwrap();
        assert_eq!(again, paths);
    }
}

#[test]
fn a_path_without_a_name_or_directories_is_no_session_file() {
    assert!(SessionPaths::from_sqlite_path("").is_err());
    assert!(SessionPaths::from_sqlite_path("/").is_err());
    assert!(SessionPaths::from_sqlite_path("..").is_err());
}

#[test]
fn new_session_id_is_stable_length_and_prefixed() {
    let id = new_session_id(1_785_339_000).unwrap();
    assert!(id.starts_with("session-"));
    assert_eq!(id, "session-20260729-153000");
    assert_eq!(new_session_id(0).unwrap(), "session-19700101-000000");
    assert_eq!(new_session_id(i64::MAX), None);
}

#[test]
fn a_session_is_named_by_its_day_and_second() {
    let named = |second: i64| new_session_id(second).unwrap();
    assert_eq!(named(951_827_696), "session-20000229-123456");
    assert_eq!(named(-1), "session-19691231-235959");
    assert_eq!(named(-62_167_219_200), "session-00000101-000000");
    assert_eq!(named(-62_167_219_201), "session--00011231-235959");
    assert_eq!(named(253_402_300_800), "session-+100000101-000000");
    assert_eq!(named(-8_334_601_228_800), "session--2621430101-000000");
    assert_eq!(new_session_id(-8_334_601_228_801), None);
    assert_eq!(named(8_210_266_876_799), "session-+2621421231-235959");
    assert_eq!(new_session_id(8_210_266_876_800), None);
}

#[test]
fn an_import_is_told_apart_by_the_beginning_of_a_random_text() {
    assert_eq!(new_import_session_id("session-1", "0123456789"), "session-1-01234567");
}

#[test]
fn loaded_sources_round_trip_through_session_state() {
    assert_eq!(read_loaded_sources(None).unwrap(), Vec::new());

    let sources = vec![
        LoadedSource {
            path: "/evidence/a.log".to_string(),
            sourcetype: "syslog".to_string(),
            parser_config_path: Some("/configs/syslog.toml".to_string()),
            source_file_id: "11111111-1111-1111-1111-111111111111".to_string(),
        },
        LoadedSource {
            path: "/evidence/b.logarchive".to_string(),
            sourcetype: "aul".to_string(),
            parser_config_path: None,
            source_file_id: "22222222-2222-2222-2222-222222222222".to_string(),
        },
    ];
    let stored = loaded_sources_text(&sources);

    assert_eq!(read_loaded_sources(Some(&stored)).unwrap(), sources);
}

#[test]
fn sources_are_stored_as_a_list_of_objects() {
    let sources = vec![LoadedSource {
        path: "/a \"b\"\n".to_string(),
        sourcetype: "aul".to_string(),
        parser_config_path: None,
        source_file_id: String::new(),
    }];
    assert_eq!(
        loaded_sources_text(&sources),
        "[{\"path\":\"/a \\\"b\\\"\\n\",\"sourcetype\":\"aul\",\"parser_config_path\":null,\"source_file_id\":\"\"}]"
    );
    assert_eq!(loaded_sources_text(&Vec::new()), "[]");
}

#[test]
fn loaded_sources_without_a_source_file_id_deserialize_as_a_pre_upgrade_session_would() {
    let stored = "[{\"path\":\"/evidence/old.log\",\"sourcetype\":\"syslog\",\"parser_config_path\":null}]";

    let loaded = read_loaded_sources(Some(stored)).unwrap();

    assert_eq!(loaded.len(), 1);
    assert_eq!(loaded[0].path, "/evidence/old.log");
    assert_eq!(loaded[0].source_file_id, "");
}

#[test]
fn a_stored_list_of_another_shape_is_an_error() {
    assert!(read_loaded_sources(Some("nonsense")).is_err());
    assert!(read_loaded_sources(Some("{}")).is_err());
    assert!(read_loaded_sources(Some("[1]")).is_err());
    assert!(read_loaded_sources(Some("[{\"path\":\"p\"}]")).unwrap_err().contains("sourcetype"));
    assert!(read_loaded_sources(Some("[{\"path\":1,\"sourcetype\":\"s\"}]")).is_err());
}

#[test]
fn imported_from_round_trips_and_defaults_to_none() {
    assert_eq!(read_imported_from(None).unwrap(), None);

    let exported_at = chrono::DateTime::parse_from_rfc3339("2026-08-26T14:00:00Z").unwrap();
    let info = ImportedFrom {
        original_session_id: "session-20260801-120000".to_string(),
        exported_at: Timestamp { seconds: exported_at.timestamp(), nanos: 0 },
        exporting_peach_version: "0.2.1".to_string(),
        filter_query: "level=ERROR".to_string(),
    };
    let stored = imported_from_text(&info).unwrap();
    assert!(stored.contains("\"exported_at\":\"2026-08-26T14:00:00Z\""));

    assert_eq!(read_imported_from(Some(&stored)).unwrap(), Some(info));
}

#[test]
fn an_origin_of_another_shape_is_an_error() {
    assert!(read_imported_from(Some("nonsense")).is_err());
    assert!(read_imported_from(Some("[]")).is_err());
    assert!(read_imported_from(Some(
        "{\"original_session_id\":\"s\",\"exported_at\":\"yesterday\",\"exporting_peach_version\":\"v\",\"filter_query\":\"\"}"
    ))
    .is_err());
    let no_instant = ImportedFrom {
        original_session_id: String::new(),
        exported_at: Timestamp { seconds: i64::MAX, nanos: 0 },
        exporting_peach_version: String::new(),
        filter_query: String::new(),
    };
    assert_eq!(imported_from_text(&no_instant), None);
}

#[test]
fn new_session_dir_for_import_creates_the_directory() {
    let step = new_session_dir_for_import("/s", 0, "session-a", MakeDirOutcome::Created);
    match step {
        ImportDirStep::Found(paths) => assert_eq!(paths, SessionPaths::new_in("/s", "session-a")),
        _ => panic!("the directory was made"),
    }
}

#[test]
fn new_session_dir_with_id_fn_retries_past_a_colliding_id() {
    let taken = ["session-collide"];
    let ids = ["session-collide", "session-collide", "session-unique"];
    let mut found = None;
    for (attempt, id) in ids.iter().enumerate() {
        let outcome = if taken.contains(id) {
            MakeDirOutcome::AlreadyExists
        } else {
            MakeDirOutcome::Created
        };
        match new_session_dir_for_import("/s", attempt as u32, id, outcome) {
            ImportDirStep::Retry => {}
            ImportDirStep::Found(paths) => found = Some(paths),
            ImportDirStep::GiveUp(reason) => panic!("{reason}"),
        }
    }
    assert_eq!(found.unwrap().id, "session-unique");
}

#[test]
fn imports_in_turn_get_different_directories() {
    let mut taken: Vec<String> = Vec::new();
    let mut import = |ids: &[&str]| {
        for (attempt, id) in ids.iter().enumerate() {
            let outcome = if taken.iter().any(|name| name == id) {
                MakeDirOutcome::AlreadyExists
            } else {
                MakeDirOutcome::Created
            };
            match new_session_dir_for_import("/s", attempt as u32, id, outcome) {
                ImportDirStep::Retry => {}
                ImportDirStep::Found(paths) => {
                    taken.push(paths.id.clone());
                    return paths;
                }
                ImportDirStep::GiveUp(reason) => panic!("{reason}"),
            }
        }
        panic!("a name was free");
    };
    let a = import(&["x", "y"]);
    let b = import(&["x", "y"]);
    assert_eq!((a.id.as_str(), b.id.as_str()), ("x", "y"));
    assert_ne!(a.sqlite_path, b.sqlite_path);
    assert_ne!(a.duckdb_path, b.duckdb_path);
}

#[test]
fn the_search_for_a_directory_ends() {
    let step = |attempt, outcome| new_session_dir_for_import("/s", attempt, "id", outcome);
    assert!(matches!(step(MAX_ATTEMPTS - 2, MakeDirOutcome::AlreadyExists), ImportDirStep::Retry));
    assert!(matches!(step(MAX_ATTEMPTS - 1, MakeDirOutcome::AlreadyExists), ImportDirStep::GiveUp(_)));
    match step(0, MakeDirOutcome::Failed("denied".to_string())) {
        ImportDirStep::GiveUp(reason) => assert!(reason.contains("denied")),
        _ => panic!("another failure ends the search"),
    }
}

fn row(source: &str, sequence_number: i64, text: &str) -> EventRow {
    EventRow { source_file_id: source.to_string(), sequence_number, text: text.to_string() }
}

#[test]
fn all_analyst_tags_groups_by_event_id() {
    let by_event = group_by_event(&vec![
        row("s", 0, "reviewed"),
        row("s", 0, "follow_up"),
        row("s", 1, "reviewed"),
    ]);

    assert_eq!(by_event.len(), 2);
    let mut a_tags = by_event[0].texts.clone();
    a_tags.sort();
    assert_eq!(a_tags, vec!["follow_up", "reviewed"]);
    assert_eq!(by_event[1].event_id.sequence_number, 1);
    assert_eq!(by_event[1].texts, vec!["reviewed".to_string()]);
}

#[test]
fn all_analyst_tags_is_empty_when_none_recorded() {
    assert!(group_by_event(&Vec::new()).is_empty());
}

#[test]
fn all_event_notes_orders_multiple_notes_on_one_event_oldest_first() {
    let by_event = group_by_event(&vec![
        row("s", 0, "first observation"),
        row("t", 0, "of another source"),
        row("s", 0, "second observation"),
    ]);

    assert_eq!(by_event.len(), 2);
    assert_eq!(by_event[0].texts, vec!["first observation", "second observation"]);
    assert_eq!(by_event[1].event_id.source_file_id, "t");
}

#[test]
fn all_event_notes_is_empty_when_none_recorded() {
    assert!(group_by_event(&Vec::new()).is_empty());
}

fn sample_load_entry(source_path: &str, status: &str) -> NewActivityLogEntry {
    NewActivityLogEntry {
        operation: "load".to_string(),
        started_at: 1_753_704_000,
        finished_at: 1_753_704_010,
        source_path: Some(source_path.to_string()),
        sourcetype: Some("evtx".to_string()),
        status: status.to_string(),
        error: if status == "failed" {
            Some("boom".to_string())
        } else {
            None
        },
        entries_inserted: Some(1000),
        tags_applied: Some(12),
        skipped: vec![ActivitySkippedFile {
            path: "/evidence/bad.evtx".to_string(),
            reason: "not a valid EVTX file".to_string(),
        }],
        per_file: vec![ActivityFileCount {
            path: source_path.to_string(),
            inserted: 1000,
            records_skipped: 3,
        }],
        tags_by_rule: vec![ActivityRuleCount {
            rule_name: "evtx_logon_success".to_string(),
            count: 12,
            version: Some("2".to_string()),
        }],
        skip_bad_records_enabled: true,
    }
}

/// The entry as it is read back from its row.
fn stored(entry: NewActivityLogEntry) -> ActivityLogEntry {
    read_activity_row(activity_row(7, entry)).unwrap()
}

#[test]
fn insert_activity_log_entry_round_trips_every_field() {
    let entry = stored(sample_load_entry("/evidence/system.evtx", "ok"));

    assert_eq!(entry.id, 7);
    assert_eq!(entry.operation, "load");
    assert_eq!(entry.started_at, 1_753_704_000);
    assert_eq!(entry.finished_at, 1_753_704_010);
    assert_eq!(entry.source_path.as_deref(), Some("/evidence/system.evtx"));
    assert_eq!(entry.sourcetype.as_deref(), Some("evtx"));
    assert_eq!(entry.status, "ok");
    assert_eq!(entry.error, None);
    assert_eq!(entry.entries_inserted, Some(1000));
    assert_eq!(entry.tags_applied, Some(12));
    assert_eq!(
        entry.skipped,
        vec![ActivitySkippedFile {
            path: "/evidence/bad.evtx".to_string(),
            reason: "not a valid EVTX file".to_string(),
        }]
    );
    assert_eq!(
        entry.per_file,
        vec![ActivityFileCount {
            path: "/evidence/system.evtx".to_string(),
            inserted: 1000,
            records_skipped: 3,
        }]
    );
    assert_eq!(
        entry.tags_by_rule,
        vec![ActivityRuleCount {
            rule_name: "evtx_logon_success".to_string(),
            count: 12,
            version: Some("2".to_string()),
        }]
    );
    assert!(entry.skip_bad_records_enabled);
}

#[test]
fn insert_activity_log_entry_records_a_failure_with_its_error() {
    let entry = stored(sample_load_entry("/evidence/broken.evtx", "failed"));

    assert_eq!(entry.status, "failed");
    assert_eq!(entry.error.as_deref(), Some("boom"));
}

#[test]
fn activity_log_entry_with_no_skipped_files_round_trips_as_an_empty_list() {
    let mut entry = sample_load_entry("/evidence/clean.evtx", "ok");
    entry.skipped = Vec::new();

    assert!(stored(entry).skipped.is_empty());
}

#[test]
fn retag_activity_log_entry_has_no_source_path_or_skipped_files() {
    let entry = stored(NewActivityLogEntry {
        operation: "retag".to_string(),
        started_at: 1_753_704_000,
        finished_at: 1_753_704_005,
        source_path: None,
        sourcetype: None,
        status: "ok".to_string(),
        error: None,
        entries_inserted: None,
        tags_applied: Some(42),
        skipped: Vec::new(),
        per_file: Vec::new(),
        tags_by_rule: vec![ActivityRuleCount {
            rule_name: "generic_error".to_string(),
            count: 42,
            version: None,
        }],
        skip_bad_records_enabled: false,
    });

    assert_eq!(entry.operation, "retag");
    assert_eq!(entry.source_path, None);
    assert_eq!(entry.entries_inserted, None);
    assert_eq!(entry.tags_applied, Some(42));
    assert!(entry.per_file.is_empty());
    assert_eq!(
        entry.tags_by_rule,
        vec![ActivityRuleCount {
            rule_name: "generic_error".to_string(),
            count: 42,
            version: None,
        }]
    );
}

fn stored_row(skipped: &str, per_file: &str, tags_by_rule: &str) -> ActivityRow {
    ActivityRow {
        id: 1,
        operation: "retag".to_string(),
        started_at: 1,
        finished_at: 2,
        source_path: None,
        sourcetype: None,
        status: "ok".to_string(),
        error: None,
        entries_inserted: None,
        tags_applied: Some(1),
        skipped: skipped.to_string(),
        per_file: per_file.to_string(),
        tags_by_rule: tags_by_rule.to_string(),
        skip_bad_records_enabled: false,
    }
}

#[test]
fn tags_by_rule_without_a_version_key_deserializes_as_none() {
    let entry =
        read_activity_row(stored_row("[]", "[]", "[{\"rule_name\": \"generic_error\", \"count\": 1}]"))
            .unwrap();

    assert_eq!(
        entry.tags_by_rule,
        vec![ActivityRuleCount {
            rule_name: "generic_error".to_string(),
            count: 1,
            version: None,
        }]
    );
}

#[test]
fn a_damaged_row_is_an_error() {
    assert!(read_activity_row(stored_row("x", "[]", "[]")).is_err());
    assert!(read_activity_row(stored_row("[]", "[{\"path\":\"p\",\"inserted\":-1}]", "[]")).is_err());
    assert!(read_activity_row(stored_row("[]", "[]", "[{\"rule_name\":\"r\"}]")).is_err());
    let old = read_activity_row(stored_row("[]", "[{\"path\":\"p\",\"inserted\":4}]", "[]")).unwrap();
    assert_eq!(old.per_file[0].records_skipped, 0);
}

#[test]
fn the_other_file_is_the_one_beside_the_chosen_file() {
    let paths = SessionPaths::from_sqlite_path("/sessions/renamed/session-1.sqlite").unwrap();
    assert_eq!(paths.id, "session-1");
    assert_eq!(paths.duckdb_path, "/sessions/renamed/session-1.duckdb");
    assert_eq!(paths.sqlite_path, "/sessions/renamed/session-1.sqlite");
    assert_eq!(paths.session_dir().unwrap(), "/sessions/renamed");
    assert!(SessionPaths::from_sqlite_path("/case.sqlite").is_err());
}

#[test]
fn what_is_stored_may_be_written_as_lists() {
    let sources = read_loaded_sources(Some("[[\"/a\", \"aul\", null], [\"/b\", \"text\", \"c\", \"id\"]]")).unwrap();
    assert_eq!(sources[0].path, "/a");
    assert_eq!(sources[0].parser_config_path, None);
    assert_eq!(sources[0].source_file_id, "");
    assert_eq!(sources[1].parser_config_path.as_deref(), Some("c"));
    assert_eq!(sources[1].source_file_id, "id");
    assert!(read_loaded_sources(Some("[[\"/a\", \"aul\"]]")).is_err());
    assert!(read_loaded_sources(Some("[[\"/a\", \"aul\", null, \"id\", 1]]")).is_err());
    let origin = read_imported_from(Some("[\"s\", \"2026-08-26T14:00:00Z\", \"0.2.1\", \"q\"]"));
    assert_eq!(origin.unwrap().unwrap().filter_query, "q");
}

#[test]
fn stored_rows_belong_to_the_sources_that_their_identities_are() {
    let row = |source: &str, text: &str| EventRow {
        source_file_id: source.to_string(),
        sequence_number: -1,
        text: text.to_string(),
    };
    let id = "550e8400-e29b-41d4-a716-446655440000";
    let groups = read_event_texts(&vec![
        row(id, "a"),
        row("550E8400E29B41D4A716446655440000", "b"),
        row("{550e8400-e29b-41d4-a716-446655440000}", "c"),
    ])
    .unwrap();
    assert_eq!(groups.len(), 1);
    assert_eq!(groups[0].event_id.source_file_id, id);
    assert_eq!(groups[0].event_id.sequence_number, u64::MAX);
    assert_eq!(groups[0].texts, ["a", "b", "c"]);
    assert!(read_event_texts(&Vec::new()).unwrap().is_empty());

    let problem = read_event_texts(&vec![row(id, "a"), row("s", "b"), row("", "c")]).unwrap_err();
    let reason = uuid::Uuid::parse_str("s").unwrap_err();
    assert_eq!(problem, format!("invalid source_file_id in database: {reason}"));
}
