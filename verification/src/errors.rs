//! The error taxonomy shared by the codec and the planning helpers.

use vstd::prelude::*;

verus! {

/// Everything that can go wrong while building or reading an archive.
///
/// Every failure aborts the whole operation; there is no partial-record
/// recovery. The variants mirror the causes:
/// - `Io`: an underlying read, write, open or flush failed (including a
///   compressed stream the decompressor refuses).
/// - `Path`: an output path could not be derived from the input path.
/// - `AlreadyExists`: the output target exists; nothing is ever overwritten.
/// - `Structure`: a source directory entry is not a regular file; the format
///   has no representation for hierarchy.
/// - `Encoding`: filename bytes do not form valid UTF-16.
/// - `TruncatedStream`: end of stream hit in the middle of a record.
/// - `SizeLimit`: a filename or file does not fit the 32-bit length field.
#[derive(Debug, Clone, Copy, PartialEq, Eq, Structural)]
pub enum ArchiveError {
    Io,
    Path,
    AlreadyExists,
    Structure,
    Encoding,
    TruncatedStream,
    SizeLimit,
}

impl ArchiveError {
    /// A short description, for callers that print errors.
    pub fn message(&self) -> &'static str {
        match self {
            ArchiveError::Io => "input/output failure",
            ArchiveError::Path => "could not derive an output path from the input path",
            ArchiveError::AlreadyExists => "output target already exists",
            ArchiveError::Structure => "source directory entry is not a regular file",
            ArchiveError::Encoding => "filename is not valid UTF-16",
            ArchiveError::TruncatedStream => "reached end of stream in the middle of a record",
            ArchiveError::SizeLimit => "filename or file exceeds the 32-bit length field",
        }
    }
}

} // verus!
