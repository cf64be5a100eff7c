//! The two archive pipelines and the checks that guard them.
//!
//! [`compress`] frames records and wraps them in one gzip container;
//! [`decompress`] unwraps the container and decodes the records. The plan
//! functions take the decisions the filesystem layer must obey before
//! touching anything: never overwrite, and only pack flat directories of
//! regular files.

use vstd::prelude::*;

use crate::codec::{
    archive_bytes, decode_records, encode_records, lemma_archive_round_trip, parse_archive,
    valid_record,
};
use crate::errors::ArchiveError;
use crate::gzip::{gunzip_of, gzip_compress, gzip_decompress};
use crate::record::{records_view, Record, RecordView};

verus! {

/// Pack records into a compressed archive.
///
/// Fails with `SizeLimit` exactly when some record's name or content
/// overflows its 32-bit length prefix. Otherwise the result is a gzip
/// container whose decompressed body is exactly the framed records, so a
/// decompress of the result yields them back; `Io` only where the
/// compressor itself fails.
pub fn compress(records: &Vec<Record>) -> (r: Result<Vec<u8>, ArchiveError>)
    ensures
        r is Ok ==> gunzip_of(r.unwrap()@) == Some(archive_bytes(records_view(records@))),
        !(forall|i: int| 0 <= i < records@.len() ==> valid_record(#[trigger] records@[i]@)) ==> r
            == Err::<Vec<u8>, ArchiveError>(ArchiveError::SizeLimit),
        (forall|i: int| 0 <= i < records@.len() ==> valid_record(#[trigger] records@[i]@)) ==> (
        r is Ok || r == Err::<Vec<u8>, ArchiveError>(ArchiveError::Io)),
{
    let body = match encode_records(records) {
        Ok(body) => body,
        Err(e) => {
            return Err(e);
        },
    };
    match gzip_compress(&body) {
        Some(archive) => Ok(archive),
        None => Err(ArchiveError::Io),
    }
}

/// Unpack a compressed archive into its records.
///
/// Fails with `Io` exactly when the container is not well-formed gzip;
/// otherwise the result is exactly what decoding the decompressed body
/// yields: the records, or the truncation or encoding error the
/// malformation calls for.
pub fn decompress(archive: &Vec<u8>) -> (r: Result<Vec<Record>, ArchiveError>)
    ensures
        gunzip_of(archive@) is None ==> r == Err::<Vec<Record>, ArchiveError>(ArchiveError::Io),
        gunzip_of(archive@) matches Some(body) ==> match parse_archive(body) {
            Ok(v) => r is Ok && records_view(r.unwrap()@) == v,
            Err(e) => r is Err && r.unwrap_err() == e,
        },
{
    let body = match gzip_decompress(archive) {
        Some(body) => body,
        None => {
            return Err(ArchiveError::Io);
        },
    };
    decode_records(&body)
}

/// Law: decompressing what compress produced yields the original records.
///
/// Of every archive it returns, [`compress`] guarantees that the gzip
/// layer holds exactly the framed records. This law says any such archive
/// parses back to exactly those records, in their order — which is then
/// what [`decompress`] returns for it.
pub proof fn lemma_compress_decompress_round_trip(records: Seq<RecordView>, archive: Seq<u8>)
    requires
        forall|i: int| 0 <= i < records.len() ==> valid_record(#[trigger] records[i]),
        gunzip_of(archive) == Some(archive_bytes(records)),
    ensures
        parse_archive(gunzip_of(archive).unwrap()) == Ok::<Seq<RecordView>, ArchiveError>(records),
{
    lemma_archive_round_trip(records);
}

/// What the filesystem reports a source directory entry to be.
#[derive(Debug, Clone, Copy, PartialEq, Eq, Structural)]
pub enum EntryKind {
    /// A regular file: the only kind an archive can hold.
    RegularFile,
    /// A nested directory; the format has no representation for hierarchy.
    Directory,
    /// Anything else: symlink, device, socket and the like.
    Other,
}

/// Decide whether packing a directory may begin, before any output exists.
///
/// Rejects a source with any entry that is not a regular file, then an
/// output target that already exists; succeeds exactly when neither holds.
pub fn plan_compress(entry_kinds: &Vec<EntryKind>, target_exists: bool) -> (r: Result<
    (),
    ArchiveError,
>)
    ensures
        r is Ok <==> ((forall|i: int|
            0 <= i < entry_kinds@.len() ==> #[trigger] entry_kinds@[i] is RegularFile)
            && !target_exists),
        (exists|i: int|
            0 <= i < entry_kinds@.len() && !(#[trigger] entry_kinds@[i] is RegularFile)) ==> r
            == Err::<(), ArchiveError>(ArchiveError::Structure),
        (forall|i: int|
            0 <= i < entry_kinds@.len() ==> #[trigger] entry_kinds@[i] is RegularFile)
            && target_exists ==> r == Err::<(), ArchiveError>(ArchiveError::AlreadyExists),
{
    let mut i: usize = 0;
    while i < entry_kinds.len()
        invariant
            i <= entry_kinds@.len(),
            forall|k: int| 0 <= k < i ==> #[trigger] entry_kinds@[k] is RegularFile,
        decreases entry_kinds@.len() - i,
    {
        match entry_kinds[i] {
            EntryKind::RegularFile => {},
            _ => {
                return Err(ArchiveError::Structure);
            },
        }
        i = i + 1;
    }
    if target_exists {
        return Err(ArchiveError::AlreadyExists);
    }
    Ok(())
}

/// Decide whether unpacking an archive may begin, before any output exists.
///
/// The output directory is the archive path minus its extension, so the
/// path must have a parent and a stem; and the directory must not already
/// exist. Succeeds exactly when all three hold.
pub fn plan_decompress(has_parent: bool, has_stem: bool, dest_exists: bool) -> (r: Result<
    (),
    ArchiveError,
>)
    ensures
        r is Ok <==> (has_parent && has_stem && !dest_exists),
        !(has_parent && has_stem) ==> r == Err::<(), ArchiveError>(ArchiveError::Path),
        has_parent && has_stem && dest_exists ==> r == Err::<(), ArchiveError>(
            ArchiveError::AlreadyExists,
        ),
{
    if !has_parent || !has_stem {
        return Err(ArchiveError::Path);
    }
    if dest_exists {
        return Err(ArchiveError::AlreadyExists);
    }
    Ok(())
}

} // verus!
