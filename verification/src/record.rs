//! The change-record data model: one file-level difference between two
//! directory trees.

use vstd::prelude::*;

verus! {

/// The three kinds of change a diff can record for a file.
#[derive(Clone, Copy, PartialEq, Eq, Structural, Debug)]
pub enum ChangeType {
    Add,
    Delete,
    Modify,
}

/// One file-level change: the file's path relative to the tree root (as the
/// bytes of a `/`-separated path string), the kind of change, and the raw
/// byte payload. For `Add` and `Modify` the payload is the full new content;
/// for `Delete` it is the full old content, carried but never replayed.
#[derive(Clone, Debug, PartialEq, Eq)]
pub struct FileDiff {
    pub path: Vec<u8>,
    pub change_type: ChangeType,
    pub change_contents: Vec<u8>,
}

/// Mathematical model of a `FileDiff`.
pub struct RecordModel {
    pub path: Seq<u8>,
    pub kind: ChangeType,
    pub contents: Seq<u8>,
}

impl View for FileDiff {
    type V = RecordModel;

    open spec fn view(&self) -> RecordModel {
        RecordModel { path: self.path@, kind: self.change_type, contents: self.change_contents@ }
    }
}

/// The models of a sequence of records.
pub open spec fn models_of(s: Seq<FileDiff>) -> Seq<RecordModel> {
    s.map_values(|d: FileDiff| d@)
}

} // verus!
