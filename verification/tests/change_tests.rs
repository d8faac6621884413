use gitscribe::change::classify_message;
use gitscribe::change::parse_log_line;
use gitscribe::change::resolve_link;
use gitscribe::change::ChangeType;
use gitscribe::change::ClassifierRules;
use gitscribe::errors::ChangelogError;
use gitscribe::strutil::chars_of;
use gitscribe::timestamp::parse_iso_timestamp;
use gitscribe::timestamp::Timestamp;
use gitscribe::util::classify_status_line;

fn default_rules() -> ClassifierRules {
    ClassifierRules {
        release_prefix: "chore: 📝 update changelog and bump version to ".to_string(),
        substitutions: vec![
            (":sparkles:".to_string(), "✨".to_string()),
            (":bug:".to_string(), "🐛".to_string()),
        ],
    }
}

#[test]
fn test_parse_change() {
    let rules = default_rules();
    let change = parse_log_line(
        &chars_of(
            "COMMIT_ID:123abc AUTHOR:John Doe MESSAGE:feat: :sparkles: add new feature DATE:2024-02-10T00:40:40-05:00 --date=iso-strict",
        ),
        &rules,
        &None,
    )
    .unwrap();
    assert_eq!(change.message, "feat: ✨ add new feature");
    assert_eq!(change.commit_id, "123abc");
    assert_eq!(change.author, "John Doe");
    assert_eq!(change.link, None);
    assert_eq!(change.change_type, ChangeType::Feature);
    assert_eq!(
        change.date,
        Timestamp {
            year: 2024,
            month: 2,
            day: 10,
            hour: 0,
            minute: 40,
            second: 40,
            offset_minutes: -300,
        }
    );
}

#[test]
fn test_parse_change_with_link() {
    let rules = default_rules();
    let repo = Some("https://github.com/example/project/".to_string());
    let change = parse_log_line(
        &chars_of(
            "COMMIT_ID:abc123 AUTHOR:Jane MESSAGE:fix: :bug: squash DATE:2024-03-01T12:00:00Z --date=iso-strict",
        ),
        &rules,
        &repo,
    )
    .unwrap();
    assert_eq!(change.message, "fix: 🐛 squash");
    assert_eq!(change.change_type, ChangeType::Fix);
    assert_eq!(
        change.link,
        Some("https://github.com/example/project/commit/abc123".to_string())
    );
}

#[test]
fn test_parse_change_malformed_line() {
    let rules = default_rules();
    let r = parse_log_line(
        &chars_of("COMMIT_ID:123 AUTHOR:me DATE:2024-03-01T12:00:00Z --date=iso-strict"),
        &rules,
        &None,
    );
    assert_eq!(r.unwrap_err(), ChangelogError::MalformedLogLine);
}

#[test]
fn test_parse_change_malformed_timestamp() {
    let rules = default_rules();
    let r = parse_log_line(
        &chars_of("COMMIT_ID:123 AUTHOR:me MESSAGE:feat: x DATE:Sat Feb 10 2024 --date=iso-strict"),
        &rules,
        &None,
    );
    assert_eq!(r.unwrap_err(), ChangelogError::MalformedTimestamp);
}

#[test]
fn test_classification_precedence() {
    let prefix = "chore: 📝 update changelog and bump version to ";
    assert_eq!(
        classify_message("feat: add thing", prefix),
        ChangeType::Feature
    );
    assert_eq!(classify_message("fix: mend thing", prefix), ChangeType::Fix);
    assert_eq!(
        classify_message(
            "chore: 📝 update changelog and bump version to 1.2.3",
            prefix
        ),
        ChangeType::Version
    );
    // The release marker wins even when a feature marker is also present.
    assert_eq!(
        classify_message(
            "feat: chore: 📝 update changelog and bump version to 1.2.3",
            prefix
        ),
        ChangeType::Version
    );
    // The feature marker wins over the fix marker.
    assert_eq!(
        classify_message("feat: then fix: both", prefix),
        ChangeType::Feature
    );
    assert_eq!(classify_message("docs: readme", prefix), ChangeType::Unknown);
}

#[test]
fn test_link_resolution_github() {
    let repo = Some("https://github.com/example/project".to_string());
    let link = resolve_link(&repo, &chars_of("abc123"));
    assert_eq!(
        link,
        Some("https://github.com/example/project/commit/abc123".to_string())
    );
}

#[test]
fn test_link_resolution_strips_trailing_slash() {
    let repo = Some("https://github.com/example/project/".to_string());
    let link = resolve_link(&repo, &chars_of("abc123"));
    assert_eq!(
        link,
        Some("https://github.com/example/project/commit/abc123".to_string())
    );
}

#[test]
fn test_link_resolution_stash() {
    let repo = Some("https://git.example.com/stash/projects/ex/repos/project".to_string());
    let link = resolve_link(&repo, &chars_of("abc123"));
    assert_eq!(
        link,
        Some("https://git.example.com/stash/projects/ex/repos/project/commits/abc123".to_string())
    );
}

#[test]
fn test_link_resolution_unknown_provider() {
    let repo = Some("https://gitlab.example.com/project".to_string());
    assert_eq!(resolve_link(&repo, &chars_of("abc123")), None);
    assert_eq!(resolve_link(&None, &chars_of("abc123")), None);
}

#[test]
fn test_parse_iso_timestamp_forms() {
    let t = parse_iso_timestamp(&chars_of("2024-01-01T00:00:00Z")).unwrap();
    assert_eq!(t.year, 2024);
    assert_eq!(t.month, 1);
    assert_eq!(t.day, 1);
    assert_eq!(t.offset_minutes, 0);
    let t = parse_iso_timestamp(&chars_of("2023-12-31T23:59:59+05:30")).unwrap();
    assert_eq!(t.offset_minutes, 330);
    assert!(parse_iso_timestamp(&chars_of("2024-13-01T00:00:00Z")).is_none());
    assert!(parse_iso_timestamp(&chars_of("2024-01-01 00:00:00")).is_none());
    assert!(parse_iso_timestamp(&chars_of("2024-01-01T00:00:00")).is_none());
}

#[test]
fn test_timestamp_ordering_across_offsets() {
    // 00:30 at +01:00 is earlier than 00:00 at Z of the same date.
    let a = parse_iso_timestamp(&chars_of("2024-01-01T00:30:00+01:00")).unwrap();
    let b = parse_iso_timestamp(&chars_of("2024-01-01T00:00:00Z")).unwrap();
    assert!(a.instant_val() < b.instant_val());
}

#[test]
fn test_classify_status_line() {
    let r = classify_status_line(" M src/lib.rs").unwrap();
    assert_eq!(r.0, "Modified:");
    assert_eq!(r.1, " src/lib.rs");
    let r = classify_status_line("?? notes.txt").unwrap();
    assert_eq!(r.0, "Untracked:");
    assert_eq!(r.1, "? notes.txt");
    assert!(classify_status_line("").is_none());
}
