//! Raw directory-enumeration records: what the filesystem collaborator
//! reports for one directory, before filtering, sorting and rendering.

use vstd::prelude::*;

use crate::entry::{EntryKind, EntryModel, Timestamp};

verus! {

/// One raw record of a directory enumeration: the final path component,
/// the file kind, the size in bytes, the two timestamps and the raw
/// POSIX mode bits.
pub struct RawEntry {
    pub name: String,
    pub kind: EntryKind,
    pub size: u64,
    pub mtime: Timestamp,
    pub ctime: Timestamp,
    pub mode: u32,
}

impl RawEntry {
    /// The entry model this record gives rise to: the same data with no
    /// children attached yet.
    pub open spec fn model(self) -> EntryModel {
        EntryModel {
            kind: self.kind,
            name: self.name@,
            size: self.size,
            mtime: self.mtime,
            ctime: self.ctime,
            permissions: self.mode,
            children: Seq::empty(),
        }
    }
}

/// A raw enumeration of a whole directory tree: one record together with
/// the enumeration of the subdirectory it names. `entries` is meaningful
/// only for records of kind `Dir`; for the rest it stays empty.
pub struct RawNode {
    pub entry: RawEntry,
    pub entries: Vec<RawNode>,
}

} // verus!
