//! The ways in which reading a region file can fail.

use vstd::prelude::*;

verus! {

/// Why a region file could not be read. Every one of these ends the
/// operation in progress; nothing is tried again.
#[derive(Clone, Copy, Debug, PartialEq, Eq, Hash, Structural)]
pub enum Error {
    /// The signature at the start of the stream is not that of a region file.
    FormatMismatch,
    /// The file was written in an older version of the format.
    OutdatedFile,
    /// The file was written in a newer version of the format.
    OutdatedProgram,
    /// The body ends in the middle of a record.
    TruncatedRecord,
    /// The stream ended, or failed, where more bytes were due.
    Io,
    /// A text that should name a coordinate is not of the form `x,y,z`.
    CoordinateGrammar,
}

impl Error {
    /// A sentence for the operator.
    pub fn message(self) -> (text: &'static str)
        ensures
            text@ == match self {
                Error::FormatMismatch => "Invalid file format (signature does not match)"@,
                Error::OutdatedFile => "Outdated file format (try using an older version of mcutils)"@,
                Error::OutdatedProgram => "Outdated program (try updating mcutils)"@,
                Error::TruncatedRecord => "Truncated data in file"@,
                Error::Io => "Unexpected end of file"@,
                Error::CoordinateGrammar => "Must be of the form `x,y,z`"@,
            },
    {
        match self {
            Error::FormatMismatch => "Invalid file format (signature does not match)",
            Error::OutdatedFile => "Outdated file format (try using an older version of mcutils)",
            Error::OutdatedProgram => "Outdated program (try updating mcutils)",
            Error::TruncatedRecord => "Truncated data in file",
            Error::Io => "Unexpected end of file",
            Error::CoordinateGrammar => "Must be of the form `x,y,z`",
        }
    }
}

} // verus!
