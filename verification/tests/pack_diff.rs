//! What one pack changes of another.

use peach::tagging::pack_diff::{diff, RuleVersions};

fn versions(pairs: &[(&str, &str)]) -> RuleVersions {
    let list: Vec<(String, String)> = pairs
        .iter()
        .map(|(name, version)| (name.to_string(), version.to_string()))
        .collect();
    RuleVersions::from_pairs(&list)
}

#[test]
fn identical_maps_produce_an_empty_diff() {
    let active = versions(&[("a", "1"), ("b", "2")]);
    let candidate = versions(&[("a", "1"), ("b", "2")]);

    let result = diff(&active, &candidate);

    assert!(result.is_empty());
}

#[test]
fn a_name_only_in_the_candidate_is_new() {
    let active = versions(&[("a", "1")]);
    let candidate = versions(&[("a", "1"), ("b", "1")]);

    let result = diff(&active, &candidate);

    assert_eq!(result.new, vec!["b"]);
    assert!(result.modified.is_empty());
    assert!(result.removed.is_empty());
}

#[test]
fn a_name_in_both_with_a_different_version_is_modified() {
    let active = versions(&[("a", "1")]);
    let candidate = versions(&[("a", "2")]);

    let result = diff(&active, &candidate);

    assert_eq!(result.modified, vec!["a"]);
    assert!(result.new.is_empty());
    assert!(result.removed.is_empty());
}

#[test]
fn a_name_only_in_active_is_removed() {
    let active = versions(&[("a", "1"), ("b", "1")]);
    let candidate = versions(&[("a", "1")]);

    let result = diff(&active, &candidate);

    assert_eq!(result.removed, vec!["b"]);
    assert!(result.new.is_empty());
    assert!(result.modified.is_empty());
}

#[test]
fn a_name_in_both_with_the_same_version_is_unchanged_and_not_reported() {
    let active = versions(&[("a", "1")]);
    let candidate = versions(&[("a", "1")]);

    let result = diff(&active, &candidate);

    assert!(result.is_empty());
}

#[test]
fn mixed_new_modified_and_removed_all_at_once() {
    // "kept_same" unchanged, "kept_bumped" modified, "gone" removed,
    // "fresh" new.
    let active = versions(&[("kept_same", "1"), ("kept_bumped", "1"), ("gone", "1")]);
    let candidate = versions(&[("kept_same", "1"), ("kept_bumped", "2"), ("fresh", "1")]);

    let result = diff(&active, &candidate);

    assert_eq!(result.new, vec!["fresh"]);
    assert_eq!(result.modified, vec!["kept_bumped"]);
    assert_eq!(result.removed, vec!["gone"]);
}

#[test]
fn output_lists_are_name_sorted() {
    let active = RuleVersions::new();
    let candidate = versions(&[("zebra", "1"), ("apple", "1"), ("mango", "1")]);

    let result = diff(&active, &candidate);

    assert_eq!(result.new, vec!["apple", "mango", "zebra"]);
}

#[test]
fn empty_active_and_candidate_is_an_empty_diff() {
    let result = diff(&RuleVersions::new(), &RuleVersions::new());
    assert!(result.is_empty());
}

#[test]
fn a_later_version_of_the_same_name_takes_its_place() {
    let mut all = versions(&[("a", "1"), ("a", "2")]);
    assert_eq!(all.len(), 1);
    assert_eq!(all.get("a"), Some(&"2".to_string()));
    all.insert("a".to_string(), "3".to_string());
    assert_eq!(all.get("a"), Some(&"3".to_string()));
    assert_eq!(all.get("b"), None);
    assert_eq!(all.len(), 1);
}

#[test]
fn going_back_removes_what_going_forth_added() {
    let one = versions(&[("a", "1"), ("b", "1"), ("c", "1")]);
    let other = versions(&[("b", "2"), ("c", "1"), ("d", "1")]);
    let forth = diff(&one, &other);
    let back = diff(&other, &one);
    assert_eq!(forth.new, back.removed);
    assert_eq!(forth.removed, back.new);
    assert_eq!(forth.modified, back.modified);
    assert_eq!(forth.new, vec!["d"]);
    assert_eq!(forth.removed, vec!["a"]);
    assert_eq!(forth.modified, vec!["b"]);
    assert!(!forth.is_empty());
}
