//! The tool's configuration: the stored version, the changelog outputs to
//! produce, an optional repository base URL for commit links, and the files
//! the version number is synced into.

use vstd::prelude::*;
use crate::changelog::TemplateOption;
use crate::version::Version;
use crate::version::version_string;
use crate::version_file_sync::VersionSyncFile;

verus! {

/// One changelog output: a template and the file it is written to.
#[derive(Clone, Debug)]
pub struct ChangelogOutputOption {
    pub template_option: TemplateOption,
    pub output_filepath: String,
}

/// The configuration the engine runs under.
#[derive(Clone, Debug)]
pub struct Config {
    pub version: String,
    pub changelog_output_selections: Vec<ChangelogOutputOption>,
    pub project_repo: Option<String>,
    pub version_sync_files: Option<Vec<VersionSyncFile>>,
}

impl Config {
    /// The configuration a fresh project starts from: version `0.0.1`, one
    /// Markdown changelog at `CHANGELOG.md`, no repository URL, no sync files.
    pub fn create_default() -> (r: Self)
        ensures
            r.version@ == "0.0.1"@,
            r.changelog_output_selections@.len() == 1,
            r.changelog_output_selections@[0].template_option is Markdown,
            r.changelog_output_selections@[0].output_filepath@ == "CHANGELOG.md"@,
            r.project_repo is None,
            r.version_sync_files is None,
    {
        let mut selections: Vec<ChangelogOutputOption> = Vec::new();
        selections.push(
            ChangelogOutputOption {
                template_option: TemplateOption::Markdown,
                output_filepath: "CHANGELOG.md".to_owned(),
            },
        );
        Config {
            version: "0.0.1".to_owned(),
            changelog_output_selections: selections,
            project_repo: None,
            version_sync_files: None,
        }
    }

    /// The same configuration with its stored version replaced by the string
    /// form of `version`.
    pub fn with_version(self, version: &Version) -> (r: Self)
        requires
            version.wf(),
        ensures
            r.version@ == version_string(*version),
            r.changelog_output_selections == self.changelog_output_selections,
            r.project_repo == self.project_repo,
            r.version_sync_files == self.version_sync_files,
    {
        Config {
            version: version.to_version_string(),
            changelog_output_selections: self.changelog_output_selections,
            project_repo: self.project_repo,
            version_sync_files: self.version_sync_files,
        }
    }
}

} // verus!
