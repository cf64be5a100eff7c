//! The in-memory shape of one archive entry.

use vstd::prelude::*;

verus! {

/// One archive entry: a filename and the file's bytes.
///
/// The filename is held as the characters it is made of; the wire format
/// stores it as length-prefixed UTF-16LE code units.
#[derive(Debug, Clone, PartialEq, Eq)]
pub struct Record {
    /// The filename, unique within an archive.
    pub name: Vec<char>,
    /// The file content, an opaque byte blob.
    pub content: Vec<u8>,
}

/// The mathematical shape of a record: its name and content as sequences.
#[verifier::ext_equal]
pub struct RecordView {
    pub name: Seq<char>,
    pub content: Seq<u8>,
}

impl View for Record {
    type V = RecordView;

    open spec fn view(&self) -> RecordView {
        RecordView { name: self.name@, content: self.content@ }
    }
}

/// The record views of a sequence of records.
pub open spec fn records_view(rs: Seq<Record>) -> Seq<RecordView> {
    rs.map_values(|r: Record| r@)
}

} // verus!
