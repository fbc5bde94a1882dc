//! Cases that are handed on.

use peach::digest::{sha256_hex, FileHash};
use peach::session::portable_case::{
    bundle_files, bundled_config_name, case_document, case_from_document, case_text, check_files,
    check_format, collect_parser_configs, export_manifest, import_activity, import_portable_case, imported_from,
    open_case, parse_case_manifest, sql_quote_path, BundleFile, CaseFile, PortableCaseHashes,
    PortableCaseManifest, PortableCaseSourceEntry, SourceRow, PORTABLE_CASE_FORMAT_VERSION,
};
use peach::tagging::pack_bundle::PEACH_VERSION;
use peach::time::Timestamp;
use peach::toml_doc::Toml;

fn sample_manifest() -> PortableCaseManifest {
    let exported_at = chrono::DateTime::parse_from_rfc3339("2026-08-26T14:00:00Z").unwrap();
    PortableCaseManifest {
        format_version: PORTABLE_CASE_FORMAT_VERSION,
        peach_version: "0.2.1".to_string(),
        exported_at: Timestamp { seconds: exported_at.timestamp(), nanos: 0 },
        original_session_id: "session-20260801-120000".to_string(),
        display_name: Some("Suspect laptop".to_string()),
        filter_query: "level=ERROR".to_string(),
        hashes: PortableCaseHashes {
            duckdb_sha256: "a".repeat(64),
            sqlite_sha256: "b".repeat(64),
        },
        sources: vec![PortableCaseSourceEntry {
            source_file_id: "4b8c".to_string(),
            original_path: "/evidence/system.log".to_string(),
            sourcetype: "syslog".to_string(),
            parser_config: Some("parser_configs/xyz-syslog.toml".to_string()),
            parser_config_missing: false,
        }],
    }
}

fn text(s: &str) -> toml::Value {
    toml::Value::String(s.to_string())
}

/// The text of a manifest.
fn to_toml(manifest: &PortableCaseManifest) -> String {
    let instant =
        chrono::DateTime::from_timestamp(manifest.exported_at.seconds, manifest.exported_at.nanos)
            .unwrap();
    let mut hashes = toml::Table::new();
    hashes.insert("duckdb_sha256".to_string(), text(&manifest.hashes.duckdb_sha256));
    hashes.insert("sqlite_sha256".to_string(), text(&manifest.hashes.sqlite_sha256));
    let mut sources = Vec::new();
    for source in &manifest.sources {
        let mut table = toml::Table::new();
        table.insert("source_file_id".to_string(), text(&source.source_file_id));
        table.insert("original_path".to_string(), text(&source.original_path));
        table.insert("sourcetype".to_string(), text(&source.sourcetype));
        if let Some(config) = &source.parser_config {
            table.insert("parser_config".to_string(), text(config));
        }
        table.insert(
            "parser_config_missing".to_string(),
            toml::Value::Boolean(source.parser_config_missing),
        );
        sources.push(toml::Value::Table(table));
    }
    let mut table = toml::Table::new();
    table.insert(
        "format_version".to_string(),
        toml::Value::Integer(manifest.format_version as i64),
    );
    table.insert("peach_version".to_string(), text(&manifest.peach_version));
    table.insert(
        "exported_at".to_string(),
        text(&instant.to_rfc3339_opts(chrono::SecondsFormat::AutoSi, true)),
    );
    table.insert("original_session_id".to_string(), text(&manifest.original_session_id));
    if let Some(name) = &manifest.display_name {
        table.insert("display_name".to_string(), text(name));
    }
    table.insert("filter_query".to_string(), text(&manifest.filter_query));
    table.insert("hashes".to_string(), toml::Value::Table(hashes));
    table.insert("sources".to_string(), toml::Value::Array(sources));
    toml::to_string_pretty(&table).unwrap()
}

/// A manifest with the digests of the databases below.
fn true_manifest() -> PortableCaseManifest {
    let mut manifest = sample_manifest();
    manifest.hashes.duckdb_sha256 = sha256_hex(b"timeline");
    manifest.hashes.sqlite_sha256 = sha256_hex(b"session");
    manifest
}

fn present(bytes: &[u8]) -> CaseFile {
    CaseFile::Present(FileHash::new().update(bytes))
}

fn timeline() -> CaseFile {
    present(b"timeline")
}

fn session() -> CaseFile {
    present(b"session")
}

#[test]
fn manifest_round_trips_through_toml() {
    let manifest = sample_manifest();
    let toml_text = to_toml(&manifest);
    let parsed = parse_case_manifest(&toml_text).unwrap();
    assert_eq!(parsed, manifest);
}

#[test]
fn a_manifest_without_its_optional_keys_is_read() {
    let mut manifest = sample_manifest();
    manifest.display_name = None;
    manifest.sources[0].parser_config = None;
    manifest.sources[0].parser_config_missing = true;
    assert_eq!(parse_case_manifest(&to_toml(&manifest)).unwrap(), manifest);
}

#[test]
fn a_manifest_lacking_a_needed_key_is_refused() {
    assert!(parse_case_manifest("[[[").is_err());
    assert!(parse_case_manifest("").unwrap_err().contains("format_version"));
    assert!(case_from_document(&Toml::Integer(3)).is_err());
    let whole = to_toml(&sample_manifest());
    for key in ["peach_version", "exported_at", "original_session_id", "filter_query", "duckdb_sha256", "sqlite_sha256"] {
        let without: String =
            whole.lines().filter(|line| !line.starts_with(key)).map(|line| format!("{line}\n")).collect();
        assert!(parse_case_manifest(&without).is_err(), "{key} is needed");
    }
    let bad_time = whole.replace("2026-08-26T14:00:00Z", "then");
    assert!(parse_case_manifest(&bad_time).is_err());
    let bad_version = whole.replace("format_version = 1", "format_version = -1");
    assert!(parse_case_manifest(&bad_version).is_err());
}

#[test]
fn an_intact_case_is_imported() {
    let manifest =
        import_portable_case(Ok(to_toml(&true_manifest())), timeline(), session()).unwrap();
    assert_eq!(manifest, true_manifest());
}

#[test]
fn import_rejects_a_bundle_with_a_tampered_duckdb_file() {
    let result =
        import_portable_case(Ok(to_toml(&true_manifest())), present(b"tampered"), session());
    assert!(result.is_err());
    assert!(
        result.unwrap_err().contains("integrity"),
        "expected an integrity-check failure message"
    );
}

#[test]
fn import_rejects_a_manifest_with_a_newer_format_version() {
    let mut manifest = sample_manifest();
    manifest.format_version = PORTABLE_CASE_FORMAT_VERSION + 1;
    let manifest_toml = to_toml(&manifest);

    // The version is refused before the files are looked for.
    let result = import_portable_case(Ok(manifest_toml), CaseFile::Missing, CaseFile::Missing);
    assert!(result.is_err());
    assert!(result.unwrap_err().contains("newer version"));
}

#[test]
fn import_rejects_a_zip_with_no_manifest() {
    let result = import_portable_case(
        Err("specified file not found in archive".to_string()),
        CaseFile::Missing,
        CaseFile::Missing,
    );
    assert!(result.is_err());
}

#[test]
fn each_file_is_checked_in_turn() {
    let manifest = true_manifest();
    assert_eq!(check_files(&manifest, timeline(), session()), None);
    assert!(check_files(&manifest, CaseFile::Missing, session()).unwrap().contains("case.duckdb"));
    assert!(check_files(&manifest, timeline(), CaseFile::Missing).unwrap().contains("case.sqlite"));
    assert!(check_files(&manifest, timeline(), present(b"x")).unwrap().contains("case.sqlite"));
    assert!(check_files(&manifest, CaseFile::Unreadable("worn out".to_string()), session())
        .unwrap()
        .contains("worn out"));
    assert_eq!(check_format(PORTABLE_CASE_FORMAT_VERSION), None);
    assert_eq!(check_format(0), None);
    assert!(check_format(2).unwrap().contains("newer version"));
}

fn source(id: &str, config: Option<&str>) -> SourceRow {
    SourceRow {
        source_file_id: id.to_string(),
        path: "/evidence/a.log".to_string(),
        sourcetype: "text".to_string(),
        parser_config: config.map(str::to_string),
    }
}

#[test]
fn parser_config_is_bundled_and_missing_config_is_flagged_not_dropped() {
    let sources = vec![
        source("present", Some("/configs/real.toml")),
        source("missing", Some("/nonexistent/gone.toml")),
        source("none", None),
    ];
    let entries = collect_parser_configs(&sources, &vec![true, false, false]);

    assert_eq!(entries.len(), 3);
    assert!(!entries[0].parser_config_missing);
    assert!(entries[0].parser_config.is_some());
    assert!(entries[1].parser_config_missing);
    assert!(entries[1].parser_config.is_none());
    assert!(!entries[2].parser_config_missing);
    assert!(entries[2].parser_config.is_none());

    let bundled: Vec<String> = sources
        .iter()
        .zip([true, false, false])
        .filter_map(|(row, readable)| bundled_config_name(row, readable))
        .collect();
    assert_eq!(bundled.len(), 1, "only the readable config is bundled");
    assert!(entries[0].parser_config.as_ref().unwrap().ends_with(&bundled[0]));
    assert_eq!(bundled[0], "present-real.toml");
}

#[test]
fn quotes_in_a_path_are_doubled() {
    assert_eq!(sql_quote_path("/a'b"), "/a''b");
    assert_eq!(sql_quote_path("''"), "''''");
    assert_eq!(sql_quote_path("plain"), "plain");
}

#[test]
fn what_is_written_says_which_version_wrote_it() {
    let given = sample_manifest();
    let manifest = export_manifest(
        given.exported_at,
        "orig",
        None,
        "hello",
        FileHash::new().update(b"time").update(b"line"),
        FileHash::new().update(b"session"),
        given.sources,
    );
    assert_eq!(manifest.hashes, true_manifest().hashes);
    assert_eq!(manifest.format_version, PORTABLE_CASE_FORMAT_VERSION);
    assert_eq!(manifest.peach_version, PEACH_VERSION);
    assert_eq!(manifest.original_session_id, "orig");
    assert_eq!(manifest.filter_query, "hello");
    assert_eq!(manifest.sources.len(), 1);
    assert_eq!(parse_case_manifest(&to_toml(&manifest)).unwrap(), manifest);
}

#[test]
fn an_exported_case_is_imported_with_the_same_databases_only() {
    let export = || {
        to_toml(&export_manifest(
            sample_manifest().exported_at,
            "orig",
            None,
            "",
            FileHash::new().update(b"timeline"),
            FileHash::new().update(b"session"),
            Vec::new(),
        ))
    };
    assert!(import_portable_case(Ok(export()), timeline(), session()).is_ok());
    assert!(import_portable_case(Ok(export()), session(), timeline()).is_err());
    assert!(import_portable_case(Ok(export()), present(b""), session()).is_err());
    assert_eq!(open_case(Ok(export())).unwrap().original_session_id, "orig");
}

#[test]
fn a_digest_does_not_depend_on_the_pieces() {
    let whole = FileHash::new().update(b"abc").finish();
    assert_eq!(whole, "ba7816bf8f01cfea414140de5dae2223b00361a396177a9cb410ff61f20015ad");
    assert_eq!(FileHash::new().update(b"a").update(b"").update(b"bc").finish(), whole);
    assert_eq!(FileHash::new().finish(), sha256_hex(b""));
}

#[test]
fn the_databases_are_stored_as_they_are() {
    let files = bundle_files(&vec!["x-a.toml".to_string()]);
    assert!(files.contains(&BundleFile { name: "case.duckdb".to_string(), stored: true }));
    assert!(files.contains(&BundleFile { name: "case.sqlite".to_string(), stored: true }));
    assert!(files.iter().any(|f| f.name == "manifest.toml" && !f.stored));
    assert!(files.iter().any(|f| f.name == "parser_configs/x-a.toml" && !f.stored));
    assert_eq!(files.len(), 4);
}

#[test]
fn an_import_leaves_its_trace() {
    let case = sample_manifest();
    let origin = imported_from(&case);
    assert_eq!(origin.original_session_id, "session-20260801-120000");
    assert_eq!(origin.exporting_peach_version, "0.2.1");
    assert_eq!(origin.filter_query, "level=ERROR");
    assert_eq!(origin.exported_at, case.exported_at);
    let entry = import_activity(&case, 99);
    assert_eq!(entry.operation, "import");
    assert_eq!((entry.started_at, entry.finished_at), (99, 99));
    assert_eq!(entry.status, "ok");
}

#[test]
fn the_document_of_a_case_is_the_case() {
    let mut manifest = sample_manifest();
    let document = case_document(&manifest).unwrap();
    assert_eq!(case_from_document(&document).unwrap(), manifest);

    manifest.display_name = None;
    manifest.exported_at = Timestamp { seconds: 1, nanos: 120_000_000 };
    manifest.sources[0].parser_config = None;
    manifest.sources[0].parser_config_missing = true;
    let document = case_document(&manifest).unwrap();
    assert_eq!(document.get("display_name"), None);
    assert_eq!(
        document.get("exported_at"),
        Some(&Toml::Text("1970-01-01T00:00:01.120Z".to_string()))
    );
    assert_eq!(case_from_document(&document).unwrap(), manifest);
}

#[test]
fn the_text_of_a_case_is_read_as_the_case() {
    let mut manifest = sample_manifest();
    let text = case_text(&manifest).unwrap();
    assert!(text.contains("\n[[sources]]\n"));
    assert!(text.contains("format_version = 1\n"));
    assert_eq!(parse_case_manifest(&text).unwrap(), manifest);

    for odd in [
        "",
        "C:\\logs\\it's \"here\".log",
        "a\nb\r\nc\t\u{1}\u{7f}",
        "''' \"\"\" \\ ''",
        "\"\"\"\"\"",
        "\n\n",
        "ends in \\''",
        "ends in \n\"\"",
        "# no comment = [x]",
        "\u{feff}\u{2028}é😀",
    ] {
        manifest.filter_query = odd.to_string();
        manifest.display_name = Some(odd.to_string());
        manifest.sources[0].original_path = odd.to_string();
        let text = case_text(&manifest).unwrap();
        assert_eq!(parse_case_manifest(&text).unwrap(), manifest, "{odd:?}");
    }
    manifest.sources.clear();
    manifest.display_name = None;
    let text = case_text(&manifest).unwrap();
    assert_eq!(parse_case_manifest(&text).unwrap(), manifest);
    manifest.exported_at = Timestamp { seconds: i64::MAX, nanos: 0 };
    assert_eq!(case_text(&manifest), None);
}

#[test]
fn a_case_that_was_written_is_imported() {
    let hash = |bytes: &[u8]| FileHash::new().update(bytes);
    let mut manifest = sample_manifest();
    manifest.hashes.duckdb_sha256 = hash(b"timeline").finish();
    manifest.hashes.sqlite_sha256 = hash(b"tags").finish();
    let text = case_text(&manifest).unwrap();
    let found = |bytes: &[u8]| CaseFile::Present(hash(bytes));
    assert_eq!(
        import_portable_case(Ok(text.clone()), found(b"timeline"), found(b"tags")).unwrap(),
        manifest
    );
    assert!(import_portable_case(Ok(text), found(b"timeline"), found(b"other")).is_err());
}

#[test]
fn what_a_case_says_may_be_written_as_lists() {
    let manifest = sample_manifest();
    let listed = format!(
        "format_version = 1\npeach_version = \"0.2.1\"\nexported_at = \"2026-08-26T14:00:00Z\"\n\
         original_session_id = \"session-20260801-120000\"\ndisplay_name = \"Suspect laptop\"\n\
         filter_query = \"level=ERROR\"\nhashes = [\"{}\", \"{}\"]\n\
         sources = [[\"4b8c\", \"/evidence/system.log\", \"syslog\", \"parser_configs/xyz-syslog.toml\", false]]\n",
        manifest.hashes.duckdb_sha256, manifest.hashes.sqlite_sha256
    );
    assert_eq!(parse_case_manifest(&listed).unwrap(), manifest);
}
