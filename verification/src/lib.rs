//! A verified codec for flat-directory save archives.
//!
//! An archive is a gzip-compressed stream of records; each record frames one
//! file as a length-prefixed UTF-16LE filename followed by a length-prefixed
//! byte blob. This crate verifies the framing protocol, the UTF-16 transcoding,
//! and the decisions the command-line tool takes; file and process I/O live in
//! the surrounding binary.

pub mod archive;
pub mod cli;
pub mod codec;
pub mod errors;
pub mod gzip;
pub mod record;
pub mod utf16;

pub use archive::{compress, decompress, plan_compress, plan_decompress, EntryKind};
pub use cli::{handle_args, CliArgs, Operation};
pub use codec::{decode_records, encode_records};
pub use errors::ArchiveError;
pub use record::Record;
