//! The ways in which a run can fail.

use vstd::prelude::*;

verus! {

/// Why a step of a run failed. Every failure ends the run.
#[derive(Clone, Copy, Debug, PartialEq, Eq, Structural)]
pub enum EpubError {
    /// The input archive or the manifest cannot be opened or read.
    Open,
    /// The output archive or an unpacked file cannot be created.
    Create,
    /// Reading, writing or copying failed part-way.
    Io,
    /// The manifest has no line that holds the marker.
    MarkerNotFound,
    /// The path of an entry cannot be resolved safely under its root.
    UnsafeEntryName,
}

impl EpubError {
    /// A one-line description for the user.
    pub fn message(&self) -> (text: String)
        ensures
            text@ == match *self {
                EpubError::Open => "cannot open the archive or the manifest"@,
                EpubError::Create => "cannot create the output"@,
                EpubError::Io => "reading or writing failed"@,
                EpubError::MarkerNotFound => "the manifest has no <manifest> line"@,
                EpubError::UnsafeEntryName => "an entry does not lie under its root"@,
            },
    {
        match self {
            EpubError::Open => String::from_str("cannot open the archive or the manifest"),
            EpubError::Create => String::from_str("cannot create the output"),
            EpubError::Io => String::from_str("reading or writing failed"),
            EpubError::MarkerNotFound => String::from_str("the manifest has no <manifest> line"),
            EpubError::UnsafeEntryName => String::from_str("an entry does not lie under its root"),
        }
    }
}

} // verus!
