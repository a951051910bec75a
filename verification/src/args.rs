//! The configuration of one listing run, handed in by the caller.

use vstd::prelude::*;
use vstd::string::StringExecFns;

use crate::entries_handler::SortKey;

verus! {

/// Every switch of one run: the root path, the filter, sort and display
/// flags, and the sort key. Immutable once built.
pub struct Args {
    pub path: String,
    pub show_hidden: bool,
    pub show_created_ts: bool,
    pub show_only_dirs: bool,
    pub show_emoji_icon: bool,
    pub show_only_files: bool,
    pub show_modified_ts: bool,
    pub show_permissions: bool,
    pub recursive: bool,
    pub reverse: bool,
    pub show_size: bool,
    pub sort_by: SortKey,
}

impl Args {
    /// The default configuration: list the current directory with every
    /// switch off, sorted by name.
    pub fn default() -> (r: Args)
        ensures
            r.path@ == "."@,
            r.show_hidden == false,
            r.show_created_ts == false,
            r.show_only_dirs == false,
            r.show_emoji_icon == false,
            r.show_only_files == false,
            r.show_modified_ts == false,
            r.show_permissions == false,
            r.recursive == false,
            r.reverse == false,
            r.show_size == false,
            r.sort_by == SortKey::Name,
    {
        Args {
            path: String::from_str("."),
            show_hidden: false,
            show_created_ts: false,
            show_only_dirs: false,
            show_emoji_icon: false,
            show_only_files: false,
            show_modified_ts: false,
            show_permissions: false,
            recursive: false,
            reverse: false,
            show_size: false,
            sort_by: SortKey::Name,
        }
    }
}

} // verus!
