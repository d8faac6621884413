//! The fatal errors the changelog engine can abort with.  Every one of them
//! aborts the whole generation run; there is no partial changelog.

use vstd::prelude::*;

verus! {

/// Why a changelog-generation run was aborted.
#[derive(Clone, Copy, Debug, PartialEq, Eq, Structural)]
pub enum ChangelogError {
    /// A history line lacks one of its expected field delimiters.
    MalformedLogLine,
    /// A date field does not parse as ISO-8601-strict.
    MalformedTimestamp,
    /// A release-marker message has no trailing `MAJOR.MINOR.PATCH`.
    MissingVersionSuffix,
    /// Bucketing resolved a release absent from the pre-seeded mapping.
    InconsistentVersionState,
}

impl ChangelogError {
    /// The display name of the error.
    pub fn label(&self) -> (r: String)
        ensures
            self is MalformedLogLine ==> r@ == "MalformedLogLine"@,
            self is MalformedTimestamp ==> r@ == "MalformedTimestamp"@,
            self is MissingVersionSuffix ==> r@ == "MissingVersionSuffix"@,
            self is InconsistentVersionState ==> r@ == "InconsistentVersionState"@,
    {
        match self {
            ChangelogError::MalformedLogLine => "MalformedLogLine".to_owned(),
            ChangelogError::MalformedTimestamp => "MalformedTimestamp".to_owned(),
            ChangelogError::MissingVersionSuffix => "MissingVersionSuffix".to_owned(),
            ChangelogError::InconsistentVersionState => "InconsistentVersionState".to_owned(),
        }
    }
}

} // verus!
