use gitscribe::bucket::bucket_changes;
use gitscribe::change::get_changes;
use gitscribe::change::Change;
use gitscribe::change::ChangeType;
use gitscribe::change::ClassifierRules;
use gitscribe::config::Config;
use gitscribe::errors::ChangelogError;
use gitscribe::strutil::chars_of;
use gitscribe::timestamp::Timestamp;
use gitscribe::version::Version;

fn ts(year: u32, month: u32, day: u32) -> Timestamp {
    Timestamp {
        year,
        month,
        day,
        hour: 0,
        minute: 0,
        second: 0,
        offset_minutes: 0,
    }
}

fn record(message: &str, change_type: ChangeType, date: Timestamp) -> Change {
    Change {
        message: message.to_string(),
        commit_id: "c".to_string(),
        link: None,
        author: "a".to_string(),
        change_type,
        date,
    }
}

fn default_rules() -> ClassifierRules {
    ClassifierRules {
        release_prefix: "chore: 📝 update changelog and bump version to ".to_string(),
        substitutions: vec![
            (":sparkles:".to_string(), "✨".to_string()),
            (":bug:".to_string(), "🐛".to_string()),
        ],
    }
}

#[test]
fn test_pending_release_scenario() {
    // One release marker at 2024-01-01 tagged 1.0.0, one feature commit at
    // 2023-12-15, and a pending marker for 1.1.0 stamped later: the feature
    // lands under 1.0.0 and 1.1.0 comes first, with an empty list.
    let releases = vec![
        record("bump version to 1.0.0", ChangeType::Version, ts(2024, 1, 1)),
        record("bump version to 1.1.0", ChangeType::Version, ts(2024, 6, 1)),
    ];
    let changes = vec![record(
        "feat: new thing",
        ChangeType::Feature,
        ts(2023, 12, 15),
    )];
    let group = bucket_changes(releases, changes).unwrap();
    assert_eq!(group.entries.len(), 2);
    assert_eq!(group.entries[0].0, "1.1.0");
    assert!(group.entries[0].1.is_empty());
    assert_eq!(group.entries[1].0, "1.0.0");
    assert_eq!(group.entries[1].1.len(), 1);
    assert_eq!(group.entries[1].1[0].message, "feat: new thing");
}

#[test]
fn test_missing_version_suffix_aborts() {
    let releases = vec![record(
        "bump version but forgot the number",
        ChangeType::Version,
        ts(2024, 1, 1),
    )];
    let r = bucket_changes(releases, vec![]);
    assert_eq!(r.unwrap_err(), ChangelogError::MissingVersionSuffix);
}

#[test]
fn test_change_after_every_release_aborts() {
    let releases = vec![record("1.0.0", ChangeType::Version, ts(2024, 1, 1))];
    let changes = vec![record("feat: late", ChangeType::Feature, ts(2024, 2, 1))];
    let r = bucket_changes(releases, changes);
    assert_eq!(r.unwrap_err(), ChangelogError::InconsistentVersionState);
}

#[test]
fn test_nearest_future_assignment() {
    // Both releases shipped after the change; it lands under the earlier one.
    let releases = vec![
        record("v 3.0.0", ChangeType::Version, ts(2024, 3, 1)),
        record("v 2.0.0", ChangeType::Version, ts(2024, 2, 1)),
    ];
    let changes = vec![record("fix: old", ChangeType::Fix, ts(2024, 1, 15))];
    let group = bucket_changes(releases, changes).unwrap();
    assert_eq!(group.entries[0].0, "3.0.0");
    assert!(group.entries[0].1.is_empty());
    assert_eq!(group.entries[1].0, "2.0.0");
    assert_eq!(group.entries[1].1.len(), 1);
}

#[test]
fn test_bucket_completeness_empty_releases_kept() {
    // Releases with no changes still get exactly one key each, newest first.
    let releases = vec![
        record("v 1.0.0", ChangeType::Version, ts(2024, 1, 1)),
        record("v 3.0.0", ChangeType::Version, ts(2024, 3, 1)),
        record("v 2.0.0", ChangeType::Version, ts(2024, 2, 1)),
    ];
    let group = bucket_changes(releases, vec![]).unwrap();
    let keys: Vec<&str> = group.entries.iter().map(|e| e.0.as_str()).collect();
    assert_eq!(keys, vec!["3.0.0", "2.0.0", "1.0.0"]);
    assert!(group.entries.iter().all(|e| e.1.is_empty()));
}

#[test]
fn test_order_ties_keep_input_order() {
    // Two releases at the same instant keep their original relative order.
    let releases = vec![
        record("v 1.4.0", ChangeType::Version, ts(2024, 1, 1)),
        record("v 1.5.0", ChangeType::Version, ts(2024, 1, 1)),
        record("v 2.0.0", ChangeType::Version, ts(2024, 2, 1)),
    ];
    let group = bucket_changes(releases, vec![]).unwrap();
    let keys: Vec<&str> = group.entries.iter().map(|e| e.0.as_str()).collect();
    assert_eq!(keys, vec!["2.0.0", "1.4.0", "1.5.0"]);
}

#[test]
fn test_changes_keep_input_order_within_bucket() {
    let releases = vec![record("v 1.0.0", ChangeType::Version, ts(2024, 2, 1))];
    let changes = vec![
        record("feat: first", ChangeType::Feature, ts(2024, 1, 10)),
        record("fix: second", ChangeType::Fix, ts(2024, 1, 5)),
        record("feat: third", ChangeType::Feature, ts(2024, 1, 20)),
    ];
    let group = bucket_changes(releases, changes).unwrap();
    let msgs: Vec<&str> = group.entries[0].1.iter().map(|c| c.message.as_str()).collect();
    assert_eq!(msgs, vec!["feat: first", "fix: second", "feat: third"]);
}

#[test]
fn test_version_suffix_is_longest_trailing_match() {
    // The extracted version is the full trailing MAJOR.MINOR.PATCH: a
    // multi-digit first component is not truncated.
    let releases = vec![record("v 11.2.3", ChangeType::Version, ts(2024, 1, 1))];
    let group = bucket_changes(releases, vec![]).unwrap();
    assert_eq!(group.entries[0].0, "11.2.3");
}

#[test]
fn test_pending_version_with_multidigit_major_is_a_key() {
    let config = Config::create_default();
    let rules = default_rules();
    let lines = vec![
        "COMMIT_ID:a2 AUTHOR:dev MESSAGE:chore: 📝 update changelog and bump version to 10.2.2 DATE:2024-01-01T00:00:00Z --date=iso-strict".to_string(),
    ];
    let group = get_changes(&config, &Version::new("10.2.3".to_string()), &lines, &rules).unwrap();
    let keys: Vec<&str> = group.entries.iter().map(|e| e.0.as_str()).collect();
    assert_eq!(keys, vec!["10.2.3", "10.2.2"]);
}

#[test]
fn test_get_changes() {
    let config = Config::create_default();
    let rules = default_rules();
    let lines = vec![
        "COMMIT_ID:a1 AUTHOR:dev MESSAGE:feat: :sparkles: shiny DATE:2023-12-15T00:00:00Z --date=iso-strict".to_string(),
        "COMMIT_ID:a2 AUTHOR:dev MESSAGE:chore: 📝 update changelog and bump version to 1.0.0 DATE:2024-01-01T00:00:00Z --date=iso-strict".to_string(),
    ];
    let changes = get_changes(&config, &Version::new("1.0.0".to_string()), &lines, &rules);
    assert_eq!(changes.unwrap().entries.len() > 0, true);
}

#[test]
fn test_get_changes_pending_bucket_first() {
    let config = Config::create_default();
    let rules = default_rules();
    let lines = vec![
        "COMMIT_ID:a1 AUTHOR:dev MESSAGE:feat: one DATE:2023-12-15T00:00:00Z --date=iso-strict".to_string(),
        "COMMIT_ID:a2 AUTHOR:dev MESSAGE:chore: 📝 update changelog and bump version to 1.0.0 DATE:2024-01-01T00:00:00Z --date=iso-strict".to_string(),
        "COMMIT_ID:a3 AUTHOR:dev MESSAGE:docs: ignored DATE:2024-01-02T00:00:00Z --date=iso-strict".to_string(),
        "".to_string(),
    ];
    let group = get_changes(&config, &Version::new("1.1.0".to_string()), &lines, &rules).unwrap();
    // The pending 1.1.0 bucket is stamped "now", so it comes first and holds
    // nothing; the feature lands under 1.0.0; the docs line appears nowhere.
    assert_eq!(group.entries[0].0, "1.1.0");
    assert!(group.entries[0].1.is_empty());
    assert_eq!(group.entries[1].0, "1.0.0");
    assert_eq!(group.entries[1].1.len(), 1);
    assert_eq!(group.entries[1].1[0].message, "feat: one");
    for entry in &group.entries {
        for c in &entry.1 {
            assert!(c.change_type != ChangeType::Unknown);
            assert!(!c.message.contains("docs:"));
        }
    }
}

#[test]
fn test_get_changes_missing_suffix_aborts() {
    let config = Config::create_default();
    let rules = default_rules();
    let lines = vec![
        "COMMIT_ID:a2 AUTHOR:dev MESSAGE:chore: 📝 update changelog and bump version to nothing DATE:2024-01-01T00:00:00Z --date=iso-strict".to_string(),
    ];
    let r = get_changes(&config, &Version::new("1.1.0".to_string()), &lines, &rules);
    assert_eq!(r.unwrap_err(), ChangelogError::MissingVersionSuffix);
}

#[test]
fn test_get_changes_malformed_line_aborts() {
    let config = Config::create_default();
    let rules = default_rules();
    let lines = vec!["not a log line".to_string()];
    let r = get_changes(&config, &Version::new("1.1.0".to_string()), &lines, &rules);
    assert_eq!(r.unwrap_err(), ChangelogError::MalformedLogLine);
}
