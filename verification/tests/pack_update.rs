//! Updates of the rule pack.

use peach::tagging::pack_update::{
    check_for_update, parse_releases, pick_latest_update, tag_pack_version, GithubRelease,
    GithubReleaseAsset,
};

fn release(tag_name: &str, asset_names: &[&str]) -> GithubRelease {
    GithubRelease {
        tag_name: tag_name.to_string(),
        assets: asset_names
            .iter()
            .map(|name| GithubReleaseAsset {
                name: name.to_string(),
                browser_download_url: format!("https://example.com/{name}"),
            })
            .collect(),
    }
}

#[test]
fn tag_pack_version_parses_the_rules_tag_scheme() {
    assert_eq!(tag_pack_version("v1"), Some(1));
    assert_eq!(tag_pack_version("v42"), Some(42));
}

#[test]
fn tag_pack_version_rejects_dotted_and_non_numeric_tags() {
    assert_eq!(tag_pack_version("v0.3.0"), None);
    assert_eq!(tag_pack_version("nightly"), None);
    assert_eq!(tag_pack_version("vbeta"), None);
    assert_eq!(tag_pack_version("rules-v1"), None);
}

#[test]
fn a_tag_with_more_than_digits_is_no_pack() {
    assert_eq!(tag_pack_version("v+1"), None);
    assert_eq!(tag_pack_version("v-1"), None);
    assert_eq!(tag_pack_version("v1 "), None);
    assert_eq!(tag_pack_version("v"), None);
    assert_eq!(tag_pack_version("v007"), Some(7));
}

#[test]
fn no_releases_at_all_means_no_update() {
    assert_eq!(pick_latest_update(&Vec::new(), None), None);
}

#[test]
fn a_single_valid_release_is_picked_when_nothing_is_currently_applied() {
    let releases = vec![release("v1", &["peach-rules-v1.zip"])];

    let update = pick_latest_update(&releases, None).unwrap();

    assert_eq!(update.pack_version, 1);
    assert_eq!(update.tag_name, "v1");
    assert_eq!(
        update.download_url,
        "https://example.com/peach-rules-v1.zip"
    );
}

#[test]
fn picks_the_highest_pack_version_among_several_releases() {
    let releases = vec![
        release("v1", &["peach-rules-v1.zip"]),
        release("v3", &["peach-rules-v3.zip"]),
        release("v2", &["peach-rules-v2.zip"]),
    ];

    let update = pick_latest_update(&releases, None).unwrap();

    assert_eq!(update.pack_version, 3);
}

#[test]
fn a_stray_non_matching_tag_in_the_list_is_ignored() {
    let releases = vec![
        release("nightly", &["something.tar.gz"]),
        release("v1", &["peach-rules-v1.zip"]),
    ];

    let update = pick_latest_update(&releases, None).unwrap();

    assert_eq!(update.pack_version, 1);
}

#[test]
fn a_release_with_a_tag_but_no_matching_asset_is_ignored() {
    let releases = vec![
        release("v2", &["something-else.zip"]),
        release("v1", &["peach-rules-v1.zip"]),
    ];

    let update = pick_latest_update(&releases, None).unwrap();

    assert_eq!(update.pack_version, 1);
}

#[test]
fn nothing_newer_than_the_current_pack_version_is_no_update() {
    let releases = vec![release("v3", &["peach-rules-v3.zip"])];

    assert_eq!(pick_latest_update(&releases, Some(3)), None);
    assert_eq!(pick_latest_update(&releases, Some(5)), None);
}

#[test]
fn only_releases_newer_than_current_are_offered() {
    let releases = vec![
        release("v1", &["peach-rules-v1.zip"]),
        release("v2", &["peach-rules-v2.zip"]),
        release("v3", &["peach-rules-v3.zip"]),
    ];

    let update = pick_latest_update(&releases, Some(1)).unwrap();

    assert_eq!(update.pack_version, 3);
}

#[test]
fn of_two_releases_with_one_number_the_later_is_taken() {
    let mut other = release("v2", &["peach-rules-v2.zip"]);
    other.assets[0].browser_download_url = "https://example.com/other".to_string();
    let releases = vec![release("v2", &["peach-rules-v2.zip"]), other];
    let update = pick_latest_update(&releases, Some(1)).unwrap();
    assert_eq!(update.download_url, "https://example.com/other");
}

#[test]
fn numbers_of_packs_fit_in_four_bytes() {
    assert_eq!(tag_pack_version("v4294967295"), Some(u32::MAX));
    assert_eq!(tag_pack_version("v4294967296"), None);
    assert_eq!(tag_pack_version("v"), None);
    assert_eq!(tag_pack_version("1"), None);
}

#[test]
fn the_answer_of_the_server_is_read_as_a_list_of_releases() {
    let text = r#"[{"tag_name": "v2", "draft": false, "assets": [
        {"name": "peach-rules-v2.zip", "browser_download_url": "https://example.com/z", "size": 1}]}]"#;
    let releases = parse_releases(text).unwrap();
    assert_eq!(releases.len(), 1);
    assert_eq!(releases[0].tag_name, "v2");
    assert_eq!(releases[0].assets[0].browser_download_url, "https://example.com/z");
    let update = check_for_update(Ok(text.to_string()), Some(1)).unwrap().unwrap();
    assert_eq!(update.pack_version, 2);
    assert_eq!(check_for_update(Ok(text.to_string()), Some(2)), Ok(None));
}

#[test]
fn an_answer_of_another_shape_is_an_error() {
    assert!(parse_releases("nonsense").is_err());
    assert!(parse_releases("{}").is_err());
    assert!(parse_releases("[3]").is_err());
    assert!(parse_releases("[{}]").is_err());
    assert!(parse_releases(r#"[{"tag_name": "v1"}]"#).unwrap()[0].assets.is_empty());
    assert!(parse_releases(r#"[{"tag_name": "v1", "assets": 3}]"#).is_err());
    assert!(parse_releases(r#"[{"tag_name": "v1", "assets": [{"name": "n"}]}]"#).is_err());
    assert!(check_for_update(Ok("nonsense".to_string()), None).is_err());
    assert!(check_for_update(Err("no network".to_string()), None).unwrap_err().contains("no network"));
}

#[test]
fn a_release_may_be_written_as_a_list() {
    let releases = parse_releases(r#"[["v2", [["a.zip", "https://example.com/a"]]], ["v3"]]"#).unwrap();
    assert_eq!(releases[0].tag_name, "v2");
    assert_eq!(releases[0].assets[0].browser_download_url, "https://example.com/a");
    assert!(releases[1].assets.is_empty());
    assert!(parse_releases("[[]]").is_err());
    assert!(parse_releases(r#"[["v2", [], 1]]"#).is_err());
}
