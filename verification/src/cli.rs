//! The command-line surface: one input path, and the choice of operation.

use vstd::prelude::*;

use crate::errors::ArchiveError;

verus! {

/// The command-line arguments: a single input path. A file is
/// decompressed; a directory is compressed.
#[derive(Debug, Clone, PartialEq, Eq)]
pub struct CliArgs {
    /// Input file or directory.
    pub input: String,
}

/// The operation chosen from what the input path names.
#[derive(Debug, Clone, Copy, PartialEq, Eq, Structural)]
pub enum Operation {
    /// The input is an archive file: unpack it.
    Decompress,
    /// The input is a directory: pack it.
    Compress,
}

/// Choose the operation from what the filesystem says the input is:
/// decompress a regular file, compress a directory, and fail where the
/// input is neither.
pub fn handle_args(input_is_file: bool, input_is_dir: bool) -> (r: Result<
    Operation,
    ArchiveError,
>)
    ensures
        input_is_file ==> r == Ok::<Operation, ArchiveError>(Operation::Decompress),
        !input_is_file && input_is_dir ==> r == Ok::<Operation, ArchiveError>(Operation::Compress),
        !input_is_file && !input_is_dir ==> r == Err::<Operation, ArchiveError>(ArchiveError::Path),
{
    if input_is_file {
        Ok(Operation::Decompress)
    } else if input_is_dir {
        Ok(Operation::Compress)
    } else {
        Err(ArchiveError::Path)
    }
}

} // verus!
