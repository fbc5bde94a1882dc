//! The formats that come with the library.

use peach::parsers::builtin_text_formats::builtin_text_formats;
use peach::parsers::text_config_file::TextFormatDraft;

#[test]
fn embeds_every_built_in_text_format_and_all_parse() {
    let formats = builtin_text_formats();
    assert!(
        formats.len() >= 3,
        "expected at least 3 embedded text formats, got {}",
        formats.len()
    );
    assert_eq!(formats.len(), 7);
}

#[test]
fn every_built_in_format_name_is_unique() {
    let names: Vec<String> = builtin_text_formats().iter().map(|f| f.name.clone()).collect();
    let mut sorted = names.clone();
    sorted.sort_unstable();
    sorted.dedup();
    assert_eq!(
        sorted.len(),
        names.len(),
        "duplicate name found among built-in text formats"
    );
}

#[test]
fn the_text_of_a_format_holds_it() {
    for format in builtin_text_formats() {
        let draft = TextFormatDraft::from_toml_str(&format.toml).unwrap();
        assert_eq!(draft.name, format.name);
        assert_eq!(draft.sourcetype, format.sourcetype);
        assert!(draft.is_saveable());
        assert_eq!(draft.to_toml(), format.toml);
    }
    let pacman = builtin_text_formats().remove(5);
    assert_eq!(pacman.name, "Arch Linux pacman log");
    assert_eq!(
        pacman.toml,
        "[parser]\nname = \"Arch Linux pacman log\"\nsourcetype = \"pacman\"\n\n[parser.pattern]\nregex = \"^\\\\[(?P<timestamp>[^\\\\]]+)\\\\] \\\\[(?P<category>[^\\\\]]+)\\\\] (?P<msg>.*)$\"\ntimestamp_format = \"%Y-%m-%dT%H:%M:%S%z\"\n\n[parser.field_mapping]\nmessage = \"msg\"\n"
    );
}
