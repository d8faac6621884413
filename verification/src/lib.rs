//! A release-automation engine: it parses a repository's commit history into
//! typed records, classifies each commit's intent, groups every change under
//! the release that first shipped it (newest release first, with a synthetic
//! pending release for the version about to be stamped), and carries the
//! version-bump and link-resolution rules the surrounding tool relies on.

pub mod bucket;
pub mod change;
pub mod changelog;
pub mod config;
pub mod errors;
pub mod group;
pub mod strutil;
pub mod timestamp;
pub mod util;
pub mod version;
pub mod version_file_sync;
