use gitscribe::change::ChangeType;
use gitscribe::changelog::TemplateOption;
use gitscribe::errors::ChangelogError;
use gitscribe::version_file_sync::SupportedSyncFileFormat;

#[test]
fn test_template_option_values() {
    let values = TemplateOption::values();
    assert_eq!(values.len(), 1);
    assert_eq!(values[0].label(), "Markdown");
}

#[test]
fn test_sync_file_format_values() {
    let values = SupportedSyncFileFormat::values();
    let labels: Vec<String> = values.iter().map(|f| f.label()).collect();
    assert_eq!(labels, vec!["Json", "CargoToml", "PoetryToml", "Yaml"]);
}

#[test]
fn test_sync_file_format_table_paths() {
    assert!(SupportedSyncFileFormat::Json.table_path().is_empty());
    assert!(SupportedSyncFileFormat::Yaml.table_path().is_empty());
    assert_eq!(
        SupportedSyncFileFormat::CargoToml.table_path(),
        vec!["package".to_string()]
    );
    assert_eq!(
        SupportedSyncFileFormat::PoetryToml.table_path(),
        vec!["tool".to_string(), "poetry".to_string()]
    );
}

#[test]
fn test_change_type_labels() {
    assert_eq!(ChangeType::Feature.label(), "Feature");
    assert_eq!(ChangeType::Fix.label(), "Fix");
    assert_eq!(ChangeType::Version.label(), "Version");
    assert_eq!(ChangeType::Unknown.label(), "Unknown");
}

#[test]
fn test_error_labels() {
    assert_eq!(ChangelogError::MalformedLogLine.label(), "MalformedLogLine");
    assert_eq!(
        ChangelogError::MalformedTimestamp.label(),
        "MalformedTimestamp"
    );
    assert_eq!(
        ChangelogError::MissingVersionSuffix.label(),
        "MissingVersionSuffix"
    );
    assert_eq!(
        ChangelogError::InconsistentVersionState.label(),
        "InconsistentVersionState"
    );
}
