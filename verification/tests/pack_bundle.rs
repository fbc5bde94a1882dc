//! Bundles of rules.

use peach::digest::sha256_hex;
use peach::tagging::pack_bundle::{
    load_pack_bundle, manifest_from_document, parse_manifest, parse_plain_version,
    peach_version_satisfies, read_applied_manifest, verify_manifest, BundleEntry,
    LoadedPackBundle, PackError, PackFileEntry, PackInfo, PackManifest, PEACH_VERSION,
};
use peach::toml_doc::Toml;

fn bundle(entries: &[(&str, &[u8])]) -> Vec<BundleEntry> {
    entries
        .iter()
        .map(|(name, contents)| BundleEntry {
            name: name.to_string(),
            bytes: Some(contents.to_vec()),
        })
        .collect()
}

fn load(entries: &[(&str, &[u8])]) -> Result<LoadedPackBundle, PackError> {
    load_pack_bundle(bundle(entries))
}

fn sample_manifest_toml(entries: &[(&str, &[u8])]) -> String {
    let mut manifest = String::from(
        "[pack]\npack_version = 1\nreleased_at = \"2026-09-01\"\nmin_peach_version = \"0.0.1\"\n\n",
    );
    for (name, contents) in entries {
        manifest.push_str(&format!(
            "[[files]]\nname = \"{name}\"\nsha256 = \"{}\"\nrule_name = \"{name}\"\nrule_version = \"1\"\n\n",
            sha256_hex(contents),
        ));
    }
    manifest
}

#[test]
fn loads_a_well_formed_bundle() {
    let rule_a: &[u8] = b"[rule]\nname = \"a\"\n";
    let rule_b: &[u8] = b"[rule]\nname = \"b\"\n";
    let entries: Vec<(&str, &[u8])> = vec![("aul_a.toml", rule_a), ("aul_b.toml", rule_b)];
    let manifest_toml = sample_manifest_toml(&entries);

    let mut zip_entries = entries.clone();
    let manifest_bytes = manifest_toml.as_bytes();
    zip_entries.push(("manifest.toml", manifest_bytes));

    let bundle = load(&zip_entries).unwrap();
    assert_eq!(bundle.manifest.pack.pack_version, 1);
    assert_eq!(bundle.manifest.files.len(), 2);
    assert!(bundle.entries.iter().any(|e| e.name == "aul_a.toml" && e.bytes.is_some()));
    assert!(bundle.entries.iter().any(|e| e.name == "aul_b.toml" && e.bytes.is_some()));
}

#[test]
fn rejects_a_bundle_with_no_manifest() {
    let result = load(&[("aul_a.toml", b"[rule]\nname = \"a\"\n")]);

    assert!(result.is_err());
    assert!(result.unwrap_err().message().contains("manifest.toml"));
}

#[test]
fn rejects_an_unparseable_manifest() {
    let result = load(&[("manifest.toml", b"this is not valid toml [[[")]);

    assert!(result.is_err());
    assert!(matches!(result.unwrap_err(), PackError::BadManifest(_)));
}

#[test]
fn rejects_a_bundle_requiring_a_newer_peach() {
    let manifest_toml = "\
[pack]
pack_version = 1
released_at = \"2026-09-01\"
min_peach_version = \"9999.0.0\"
";
    let result = load(&[("manifest.toml", manifest_toml.as_bytes())]);

    assert!(result.is_err());
    let err = result.unwrap_err();
    assert!(
        err.message().contains("newer"),
        "expected a min_peach_version rejection message"
    );
    assert!(matches!(err, PackError::NeedsNewerPeach { required } if required == "9999.0.0"));
}

#[test]
fn rejects_a_bundle_missing_a_listed_file() {
    let manifest_toml = "\
[pack]
pack_version = 1
released_at = \"2026-09-01\"
min_peach_version = \"0.0.1\"

[[files]]
name = \"aul_missing.toml\"
sha256 = \"0000000000000000000000000000000000000000000000000000000000000000\"
rule_name = \"aul_missing\"
rule_version = \"1\"
";
    let result = load(&[("manifest.toml", manifest_toml.as_bytes())]);

    assert!(result.is_err());
    let err = result.unwrap_err();
    assert!(
        err.message().contains("missing"),
        "expected a missing-file rejection message"
    );
    assert!(matches!(err, PackError::MissingFile(name) if name == "aul_missing.toml"));
}

#[test]
fn rejects_a_bundle_with_a_tampered_file() {
    let rule_a: &[u8] = b"[rule]\nname = \"a\"\n";
    let entries: Vec<(&str, &[u8])> = vec![("aul_a.toml", rule_a)];
    let manifest_toml = sample_manifest_toml(&entries);

    let result = load(&[
        ("manifest.toml", manifest_toml.as_bytes()),
        // Other bytes than the manifest's digest was made from.
        ("aul_a.toml", b"[rule]\nname = \"tampered\"\n"),
    ]);

    assert!(result.is_err());
    let err = result.unwrap_err();
    assert!(
        err.message().contains("integrity"),
        "expected an integrity-check failure message"
    );
    assert!(matches!(err, PackError::TamperedFile(name) if name == "aul_a.toml"));
}

#[test]
fn rejects_a_bundle_with_an_extra_unlisted_file() {
    let rule_a: &[u8] = b"[rule]\nname = \"a\"\n";
    let entries: Vec<(&str, &[u8])> = vec![("aul_a.toml", rule_a)];
    let manifest_toml = sample_manifest_toml(&entries);

    let result = load(&[
        ("manifest.toml", manifest_toml.as_bytes()),
        ("aul_a.toml", rule_a),
        // Not in the manifest at all.
        ("aul_sneaky.toml", b"[rule]\nname = \"sneaky\"\n"),
    ]);

    assert!(result.is_err());
    let err = result.unwrap_err();
    assert!(
        err.message().contains("aul_sneaky.toml"),
        "expected the unaccounted-for file to be named in the error"
    );
    assert!(matches!(err, PackError::UnlistedFile(_)));
}

#[test]
fn rejects_a_manifest_with_a_duplicate_file_name() {
    let manifest_toml = "\
[pack]
pack_version = 1
released_at = \"2026-09-01\"
min_peach_version = \"0.0.1\"

[[files]]
name = \"aul_a.toml\"
sha256 = \"a\"
rule_name = \"aul_a\"
rule_version = \"1\"

[[files]]
name = \"aul_a.toml\"
sha256 = \"b\"
rule_name = \"aul_a\"
rule_version = \"2\"
";
    let result = load(&[("manifest.toml", manifest_toml.as_bytes())]);

    assert!(result.is_err());
    assert!(matches!(result.unwrap_err(), PackError::DuplicateName));
}

#[test]
fn parse_plain_version_accepts_dotted_integers_and_rejects_garbage() {
    assert_eq!(parse_plain_version("0.3.0"), Some(vec![0, 3, 0]));
    assert_eq!(parse_plain_version("12.34.56"), Some(vec![12, 34, 56]));
    assert_eq!(parse_plain_version("0.3.0-beta"), None);
    assert_eq!(parse_plain_version("not.a.version"), None);
    assert_eq!(parse_plain_version(""), None);
}

#[test]
fn peach_version_satisfies_compares_dotted_versions() {
    assert!(peach_version_satisfies("0.0.1"));
    assert!(peach_version_satisfies(PEACH_VERSION));
    assert!(!peach_version_satisfies("9999.0.0"));
    assert!(!peach_version_satisfies("not a version"));
}

#[test]
fn a_version_is_three_numbers_of_digits() {
    for other in ["0.3", "0", "0.3.0.0", "0.10", "+0.3.0", "0.+3.0", "0.3.0+1", "0. 3.0", "0.3."] {
        assert_eq!(parse_plain_version(other), None, "{other}");
        assert!(!peach_version_satisfies(other), "{other}");
    }
    assert!(!peach_version_satisfies("0.3.1"));
    assert!(peach_version_satisfies("0.2.99"));
    assert_eq!(parse_plain_version("00.03.4294967295"), Some(vec![0, 3, u32::MAX]));
}

#[test]
fn manifest_rule_versions_maps_rule_name_to_rule_version() {
    let manifest = PackManifest {
        pack: PackInfo {
            pack_version: 1,
            released_at: "2026-09-01".to_string(),
            min_peach_version: "0.0.1".to_string(),
        },
        files: vec![
            PackFileEntry {
                name: "aul_a.toml".to_string(),
                sha256: "x".to_string(),
                rule_name: "aul_a".to_string(),
                rule_version: "3".to_string(),
            },
            PackFileEntry {
                name: "aul_b.toml".to_string(),
                sha256: "y".to_string(),
                rule_name: "aul_b".to_string(),
                rule_version: "1".to_string(),
            },
        ],
    };

    let versions = manifest.rule_versions();

    assert_eq!(versions.get("aul_a"), Some(&"3".to_string()));
    assert_eq!(versions.get("aul_b"), Some(&"1".to_string()));
    assert_eq!(versions.len(), 2);
}

#[test]
fn read_applied_manifest_returns_none_for_a_directory_with_no_manifest() {
    assert_eq!(read_applied_manifest(None), None);
}

#[test]
fn read_applied_manifest_reads_a_valid_manifest() {
    let manifest = read_applied_manifest(Some(
        "[pack]\npack_version = 5\nreleased_at = \"2026-09-01\"\nmin_peach_version = \"0.0.1\"\n",
    ))
    .unwrap();

    assert_eq!(manifest.pack.pack_version, 5);
    assert_eq!(read_applied_manifest(Some("nonsense [")), None);
}

#[test]
fn digests_are_those_of_the_hash_function() {
    assert_eq!(
        sha256_hex(b""),
        "e3b0c44298fc1c149afbf4c8996fb92427ae41e4649b934ca495991b7852b855"
    );
    assert_eq!(
        sha256_hex(b"abc"),
        "ba7816bf8f01cfea414140de5dae2223b00361a396177a9cb410ff61f20015ad"
    );
}

#[test]
fn a_manifest_lacking_a_key_is_refused_with_its_name() {
    let missing = |text: &str| parse_manifest(text).unwrap_err();
    assert!(missing("").contains("pack"));
    assert!(missing("[pack]\nreleased_at = \"d\"\nmin_peach_version = \"1\"\n").contains("pack_version"));
    assert!(missing("[pack]\npack_version = 1\nmin_peach_version = \"1\"\n").contains("released_at"));
    assert!(missing("[pack]\npack_version = 1\nreleased_at = \"d\"\n").contains("min_peach_version"));
    assert!(missing("[pack]\npack_version = -1\nreleased_at = \"d\"\nmin_peach_version = \"1\"\n").contains("pack_version"));
    assert!(missing("[pack]\npack_version = 4294967296\nreleased_at = \"d\"\nmin_peach_version = \"1\"\n").contains("pack_version"));
    assert!(missing("files = 1\n[pack]\npack_version = 1\nreleased_at = \"d\"\nmin_peach_version = \"1\"\n").contains("files"));
    assert!(missing("[pack]\npack_version = 1\nreleased_at = \"d\"\nmin_peach_version = \"1\"\n[[files]]\nname = \"n\"\n").contains("sha256"));
    assert!(manifest_from_document(&Toml::Bool(true)).is_err());
}

#[test]
fn a_bundle_is_checked_against_the_manifest_given() {
    let manifest = parse_manifest(&sample_manifest_toml(&[("a.toml", b"a")])).unwrap();
    assert!(verify_manifest(&bundle(&[("a.toml", b"a"), ("manifest.toml", b"")]), &manifest).is_none());
    assert!(matches!(
        verify_manifest(&bundle(&[("a.toml", b"b")]), &manifest),
        Some(PackError::TamperedFile(_))
    ));
    let mut entries = bundle(&[("a.toml", b"a")]);
    entries.push(BundleEntry { name: "sub".to_string(), bytes: None });
    assert!(matches!(
        verify_manifest(&entries, &manifest),
        None | Some(PackError::UnlistedFile(_))
    ));
}

#[test]
fn a_demand_that_is_no_version_is_never_met() {
    for required in ["", "latest", "1.x", "0.0.1-beta"] {
        assert!(!peach_version_satisfies(required));
    }
}

#[test]
fn what_a_manifest_says_may_be_written_as_lists() {
    let manifest =
        parse_manifest("pack = [5, \"d\", \"0.1.0\"]\nfiles = [[\"a.toml\", \"x\", \"r\", \"1\"]]\n")
            .unwrap();
    assert_eq!(manifest.pack.pack_version, 5);
    assert_eq!(manifest.pack.min_peach_version, "0.1.0");
    assert_eq!(manifest.files[0].rule_version, "1");
    assert!(parse_manifest("pack = [5, \"d\"]\n").is_err());
    assert!(parse_manifest("pack = [5, \"d\", \"1\"]\nfiles = [[\"a.toml\"]]\n").is_err());
}

#[test]
fn a_listed_file_in_a_directory_does_not_excuse_the_directory() {
    let manifest = format!(
        "[pack]\npack_version = 1\nreleased_at = \"d\"\nmin_peach_version = \"0.0.1\"\n\
         [[files]]\nname = \"sub/a.toml\"\nsha256 = \"{}\"\nrule_name = \"a\"\nrule_version = \"1\"\n",
        sha256_hex(b"a")
    );
    let entries = vec![
        BundleEntry { name: "manifest.toml".to_string(), bytes: Some(manifest.into_bytes()) },
        BundleEntry { name: "sub".to_string(), bytes: None },
        BundleEntry { name: "sub/a.toml".to_string(), bytes: Some(b"a".to_vec()) },
    ];
    match load_pack_bundle(entries) {
        Err(PackError::UnlistedFile(name)) => assert_eq!(name, "sub"),
        other => panic!("the directory is not listed: {other:?}"),
    }
}
