use gitscribe::config::Config;
use gitscribe::strutil::chars_of;
use gitscribe::version::increment_version;
use gitscribe::version::parse_version;
use gitscribe::version::release_branch_version;
use gitscribe::version::Version;
use gitscribe::version::VersionDesignation;

#[test]
fn test_version() {
    let version = Version::new("0.0.1".to_string());
    assert_eq!(version.major, 0);
    assert_eq!(version.minor, 0);
    assert_eq!(version.patch, 1);
}

#[test]
fn test_increment_version_patch() {
    let config = Config::create_default();
    let version = increment_version(&config, VersionDesignation::Patch);
    assert_eq!(version.major, 0);
    assert_eq!(version.minor, 0);
    assert_eq!(version.patch, 2);
}

#[test]
fn test_increment_version_minor() {
    let config = Config::create_default();
    let version = increment_version(&config, VersionDesignation::Minor);
    assert_eq!(version.major, 0);
    assert_eq!(version.minor, 1);
    assert_eq!(version.patch, 0);
}

#[test]
fn test_increment_version_major() {
    let mut config = Config::create_default();
    config.version = "0.1.1".to_string();
    let version = increment_version(&config, VersionDesignation::Major);
    assert_eq!(version.major, 1);
    assert_eq!(version.minor, 0);
    assert_eq!(version.patch, 0);
}

#[test]
fn test_to_version_string() {
    let version = Version::new("12.34.56".to_string());
    assert_eq!(version.to_version_string(), "12.34.56");
    let version = Version::new("0.0.1".to_string());
    assert_eq!(version.to_version_string(), "0.0.1");
}

#[test]
fn test_parse_version_accepts_the_grammar() {
    let v = parse_version(&chars_of("1.2.3")).unwrap();
    assert_eq!((v.major, v.minor, v.patch), (1, 2, 3));
    assert!(parse_version(&chars_of("1.2")).is_none());
    assert!(parse_version(&chars_of("1.2.3.4")).is_none());
    assert!(parse_version(&chars_of("a.b.c")).is_none());
    assert!(parse_version(&chars_of("1..3")).is_none());
    assert!(parse_version(&chars_of("")).is_none());
    assert!(parse_version(&chars_of("99999999999.0.0")).is_none());
}

#[test]
fn test_release_branch_version_masks() {
    let v = Version::new("1.2.3".to_string());
    assert_eq!(release_branch_version(&v, true, true), "1.2.3");
    assert_eq!(release_branch_version(&v, true, false), "1.2.X");
    assert_eq!(release_branch_version(&v, false, false), "1.X.X");
}

#[test]
fn test_default_config() {
    let config = Config::create_default();
    assert_eq!(config.version, "0.0.1");
    assert_eq!(config.changelog_output_selections.len(), 1);
    assert_eq!(
        config.changelog_output_selections[0].output_filepath,
        "CHANGELOG.md"
    );
    assert!(config.project_repo.is_none());
    assert!(config.version_sync_files.is_none());
}

#[test]
fn test_with_version_replaces_only_the_version() {
    let config = Config::create_default();
    let v = Version::new("2.5.0".to_string());
    let updated = config.with_version(&v);
    assert_eq!(updated.version, "2.5.0");
    assert_eq!(updated.changelog_output_selections.len(), 1);
    assert!(updated.project_repo.is_none());
}
