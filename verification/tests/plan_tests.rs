//! Tests of the guard decisions: no clobbering, flat directories only,
//! and the choice between the two operations.

use barotrauma_compress::{
    handle_args, plan_compress, plan_decompress, ArchiveError, EntryKind, Operation,
};

#[test]
fn compress_refuses_existing_target() {
    let kinds = vec![EntryKind::RegularFile, EntryKind::RegularFile];
    assert_eq!(plan_compress(&kinds, true).unwrap_err(), ArchiveError::AlreadyExists);
    assert!(plan_compress(&kinds, false).is_ok());
}

#[test]
fn decompress_refuses_existing_directory() {
    assert_eq!(plan_decompress(true, true, true).unwrap_err(), ArchiveError::AlreadyExists);
    assert!(plan_decompress(true, true, false).is_ok());
}

#[test]
fn compress_refuses_subdirectories() {
    let kinds = vec![EntryKind::RegularFile, EntryKind::Directory];
    assert_eq!(plan_compress(&kinds, false).unwrap_err(), ArchiveError::Structure);

    let kinds2 = vec![EntryKind::Other];
    assert_eq!(plan_compress(&kinds2, false).unwrap_err(), ArchiveError::Structure);
}

#[test]
fn structure_error_beats_clobber_error() {
    // the source is validated before the target is looked at
    let kinds = vec![EntryKind::Directory];
    assert_eq!(plan_compress(&kinds, true).unwrap_err(), ArchiveError::Structure);
}

#[test]
fn empty_directory_passes_the_plan() {
    let kinds: Vec<EntryKind> = Vec::new();
    assert!(plan_compress(&kinds, false).is_ok());
}

#[test]
fn unusable_path_is_a_path_error() {
    assert_eq!(plan_decompress(false, true, false).unwrap_err(), ArchiveError::Path);
    assert_eq!(plan_decompress(true, false, false).unwrap_err(), ArchiveError::Path);
}

#[test]
fn operation_follows_what_the_input_is() {
    assert_eq!(handle_args(true, false).unwrap(), Operation::Decompress);
    // a path cannot be both; the file check wins
    assert_eq!(handle_args(true, true).unwrap(), Operation::Decompress);
    assert_eq!(handle_args(false, true).unwrap(), Operation::Compress);
    assert_eq!(handle_args(false, false).unwrap_err(), ArchiveError::Path);
}

#[test]
fn errors_describe_themselves() {
    assert!(ArchiveError::AlreadyExists.message().contains("already exists"));
    assert!(ArchiveError::TruncatedStream.message().contains("end of stream"));
}
