//! The failures that the library reports.

use vstd::prelude::*;

verus! {

/// Why an operation failed.
#[derive(Clone, Copy, Debug, PartialEq, Eq, Structural)]
pub enum LabsError {
    /// A directory or file could not be created or written.
    Io,
    /// A query found no record.
    NotFound,
    /// The session root is missing or invalid.
    Config,
}

impl LabsError {
    /// A one-line message for the user.
    pub fn message(&self) -> (r: &'static str)
        ensures
            *self == LabsError::Io ==> r@ == "could not write the record"@,
            *self == LabsError::NotFound ==> r@ == "no history"@,
            *self == LabsError::Config ==> r@ == "session root missing or not found"@,
    {
        match self {
            LabsError::Io => "could not write the record",
            LabsError::NotFound => "no history",
            LabsError::Config => "session root missing or not found",
        }
    }
}

} // verus!
