//! Descriptions of sibling manifest files that the stored version number is
//! propagated into, and the table path each file format keeps its version
//! under.  Reading and rewriting those files is the caller's work; the
//! decisions live here.

use vstd::prelude::*;

verus! {

/// The file formats a version can be synced into.
#[derive(Clone, Copy, Debug, PartialEq, Eq, Structural)]
pub enum SupportedSyncFileFormat {
    Json,
    CargoToml,
    PoetryToml,
    Yaml,
}

impl SupportedSyncFileFormat {
    /// Every supported format, in the order offered.
    pub fn values() -> (r: Vec<Self>)
        ensures
            r@.len() == 4,
            r@[0] is Json,
            r@[1] is CargoToml,
            r@[2] is PoetryToml,
            r@[3] is Yaml,
    {
        let mut r: Vec<Self> = Vec::new();
        r.push(SupportedSyncFileFormat::Json);
        r.push(SupportedSyncFileFormat::CargoToml);
        r.push(SupportedSyncFileFormat::PoetryToml);
        r.push(SupportedSyncFileFormat::Yaml);
        r
    }

    /// The display name of the format.
    pub fn label(&self) -> (r: String)
        ensures
            self is Json ==> r@ == "Json"@,
            self is CargoToml ==> r@ == "CargoToml"@,
            self is PoetryToml ==> r@ == "PoetryToml"@,
            self is Yaml ==> r@ == "Yaml"@,
    {
        match self {
            SupportedSyncFileFormat::Json => "Json".to_owned(),
            SupportedSyncFileFormat::CargoToml => "CargoToml".to_owned(),
            SupportedSyncFileFormat::PoetryToml => "PoetryToml".to_owned(),
            SupportedSyncFileFormat::Yaml => "Yaml".to_owned(),
        }
    }

    /// The chain of nested tables under which this format keeps its version
    /// key: the document root for `Json` and `Yaml`, the `package` table for a
    /// Cargo manifest, and the `tool.poetry` table for a Poetry manifest.
    pub fn table_path(&self) -> (r: Vec<String>)
        ensures
            self is Json ==> r@.len() == 0,
            self is Yaml ==> r@.len() == 0,
            self is CargoToml ==> r@.len() == 1 && r@[0]@ == "package"@,
            self is PoetryToml ==> r@.len() == 2 && r@[0]@ == "tool"@ && r@[1]@ == "poetry"@,
    {
        let mut r: Vec<String> = Vec::new();
        match self {
            SupportedSyncFileFormat::Json => {},
            SupportedSyncFileFormat::Yaml => {},
            SupportedSyncFileFormat::CargoToml => {
                r.push("package".to_owned());
            },
            SupportedSyncFileFormat::PoetryToml => {
                r.push("tool".to_owned());
                r.push("poetry".to_owned());
            },
        }
        r
    }
}

/// A sibling file whose version entry this tool keeps up to date.
#[derive(Clone, Debug)]
pub struct VersionSyncFile {
    pub file_format: SupportedSyncFileFormat,
    pub file_path: String,
    pub version_key: String,
}

} // verus!
