//! Files of text formats.

use peach::parsers::text_config_file::{
    escape, list_saved_configs, save, ConfigFile, TextFormatDraft,
};
use peach::parsers::ParserConfig;

fn sample_draft() -> TextFormatDraft {
    TextFormatDraft {
        name: "Nginx Access".to_string(),
        sourcetype: "nginx".to_string(),
        regex: r"^(?P<timestamp>\S+) (?P<level_raw>\w+) (?P<msg>.*)$".to_string(),
        timestamp_format: "%Y-%m-%dT%H:%M:%S%z".to_string(),
        multiline_start_pattern: String::new(),
        assume_offset: String::new(),
        level_group: "level_raw".to_string(),
        message_group: "msg".to_string(),
    }
}

#[test]
fn save_writes_a_config_the_real_parser_config_loader_accepts() {
    let draft = sample_draft();
    let file = save(&draft);
    assert!(file.file_name.ends_with("nginx_access.toml"));

    let config = ParserConfig::from_toml_str(&file.text).unwrap();
    assert_eq!(config.parser.name, "Nginx Access");
    assert_eq!(config.parser.sourcetype, "nginx");
}

#[test]
fn save_then_from_file_round_trips_every_field() {
    let draft = sample_draft();
    let file = save(&draft);
    let loaded = TextFormatDraft::from_toml_str(&file.text).unwrap();
    assert_eq!(loaded, draft);
}

#[test]
fn round_trip_preserves_optional_fields_when_set() {
    let mut draft = sample_draft();
    draft.multiline_start_pattern = r"^\d{4}-\d{2}-\d{2}".to_string();
    draft.assume_offset = "+02:00".to_string();
    let file = save(&draft);
    let loaded = TextFormatDraft::from_toml_str(&file.text).unwrap();
    assert_eq!(loaded, draft);
}

#[test]
fn escapes_backslashes_and_quotes_so_the_file_stays_valid_toml() {
    let mut draft = sample_draft();
    draft.regex = r#"^(?P<timestamp>\S+) "(?P<msg>.*)"$"#.to_string();
    let file = save(&draft);
    let loaded = TextFormatDraft::from_toml_str(&file.text).unwrap();
    assert_eq!(loaded.regex, draft.regex);
}

#[test]
fn is_saveable_requires_name_sourcetype_regex_and_timestamp_format() {
    let draft = sample_draft();
    assert!(draft.is_saveable());

    let mut missing_name = draft.clone();
    missing_name.name = "   ".to_string();
    assert!(!missing_name.is_saveable());

    let mut bad_regex = draft.clone();
    bad_regex.regex = "(unclosed".to_string();
    assert!(!bad_regex.is_saveable());

    let mut missing_ts_format = draft.clone();
    missing_ts_format.timestamp_format = String::new();
    assert!(!missing_ts_format.is_saveable());
}

#[test]
fn list_saved_configs_skips_unparsable_files_and_sorts_by_name() {
    let mut zebra = sample_draft();
    zebra.name = "Zebra".to_string();
    let mut apple = sample_draft();
    apple.name = "Apple".to_string();
    let mut files: Vec<ConfigFile> = [save(&zebra), save(&apple)]
        .into_iter()
        .map(|file| ConfigFile { file_name: file.file_name, text: Some(file.text) })
        .collect();
    // A document without a `[parser]` table is no configuration.
    files.push(ConfigFile {
        file_name: "not_a_config.toml".to_string(),
        text: Some("not = \"a parser config\"\n".to_string()),
    });

    let configs = list_saved_configs(&files);
    assert_eq!(
        configs.iter().map(|c| c.name.as_str()).collect::<Vec<_>>(),
        vec!["Apple", "Zebra"]
    );
}

#[test]
fn files_of_another_kind_and_unreadable_ones_are_passed_over() {
    let file = save(&sample_draft());
    let files = vec![
        ConfigFile { file_name: "copy.txt".to_string(), text: Some(file.text.clone()) },
        ConfigFile { file_name: "gone.toml".to_string(), text: None },
        ConfigFile { file_name: "kept.toml".to_string(), text: Some(file.text) },
    ];
    let configs = list_saved_configs(&files);
    assert_eq!(configs.len(), 1);
    assert_eq!(configs[0].path, "kept.toml");
    assert_eq!(configs[0].sourcetype, "nginx");
}

#[test]
fn a_draft_is_written_key_by_key() {
    let mut draft = sample_draft();
    draft.regex = "x".to_string();
    draft.level_group = String::new();
    assert_eq!(
        draft.to_toml(),
        "[parser]\nname = \"Nginx Access\"\nsourcetype = \"nginx\"\n\n[parser.pattern]\nregex = \"x\"\ntimestamp_format = \"%Y-%m-%dT%H:%M:%S%z\"\n\n[parser.field_mapping]\nmessage = \"msg\"\n"
    );
    assert_eq!(escape("a\"b\\"), "a\\\"b\\\\");
}

#[test]
fn a_text_that_is_no_configuration_is_no_draft() {
    assert!(TextFormatDraft::from_toml_str("[[[").is_err());
    assert!(TextFormatDraft::from_toml_str("[parser]\nname = \"n\"\n").is_err());
}

#[test]
fn a_saved_draft_is_read_back_without_the_blanks_around_its_texts() {
    let draft = TextFormatDraft {
        name: "  My \"Format\" ".to_string(),
        sourcetype: "x".to_string(),
        regex: "^(?P<a>\\d+)\t(?P<b>.*)$\n".to_string(),
        timestamp_format: "%s".to_string(),
        multiline_start_pattern: " \n".to_string(),
        assume_offset: " +01:00".to_string(),
        level_group: String::new(),
        message_group: " b ".to_string(),
    };
    let loaded = TextFormatDraft::from_toml_str(&draft.to_toml()).unwrap();
    assert_eq!(
        loaded,
        TextFormatDraft {
            name: "My \"Format\"".to_string(),
            sourcetype: "x".to_string(),
            regex: "^(?P<a>\\d+)\t(?P<b>.*)$".to_string(),
            timestamp_format: "%s".to_string(),
            multiline_start_pattern: String::new(),
            assume_offset: "+01:00".to_string(),
            level_group: String::new(),
            message_group: "b".to_string(),
        }
    );

    let empty = TextFormatDraft::default();
    assert_eq!(TextFormatDraft::from_toml_str(&empty.to_toml()).unwrap(), empty);
}
