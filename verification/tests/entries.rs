use shikibetsu::args::Args;
use shikibetsu::entries_handler::{EntriesHandler, FilterOptions, SortKey, SortOptions};
use shikibetsu::entry::{EntryKind, Timestamp};
use shikibetsu::raw::RawEntry;

fn ts(secs: u64) -> Timestamp {
    Timestamp { secs, nanos: 0 }
}

fn record(name: &str, kind: EntryKind, size: u64, stamp: u64) -> RawEntry {
    RawEntry {
        name: String::from(name),
        kind,
        size,
        mtime: ts(stamp),
        ctime: ts(stamp),
        mode: 0o100644,
    }
}

#[test]
fn it_should_create_filter_options() {
    let args = Args::default();
    let filter_options = FilterOptions::from(&args);

    assert_eq!(filter_options.show_hidden, false);
    assert_eq!(filter_options.show_only_dirs, false);
    assert_eq!(filter_options.show_only_files, false);
}

#[test]
fn it_should_create_sort_options() {
    let args = Args::default();
    let sort_options = SortOptions::from(&args);

    assert_eq!(sort_options.reverse, false);
    assert_eq!(sort_options.sort_key, SortKey::Name);
}

#[test]
fn it_should_create_entries_handler() {
    let args = Args::default();
    let entries_handler = EntriesHandler::new(&args);

    assert_eq!(entries_handler.filter_options.show_hidden, false);
    assert_eq!(entries_handler.filter_options.show_only_dirs, false);
    assert_eq!(entries_handler.filter_options.show_only_files, false);
    assert_eq!(entries_handler.sort_options.reverse, false);
    assert_eq!(entries_handler.sort_options.sort_key, SortKey::Name);
}

#[test]
fn it_should_parse_sort_keys() {
    assert_eq!("n", SortKey::Name.code());
    assert_eq!("c", SortKey::Created.code());
    assert_eq!("m", SortKey::Modified.code());
    assert_eq!("s", SortKey::Size.code());
}

#[test]
fn it_should_get_entries() {
    let listing = vec![
        record("file1", EntryKind::File, 0, 0),
        record("file2", EntryKind::File, 0, 0),
        record("file3", EntryKind::File, 0, 0),
    ];

    let args = Args::default();
    let entries_handler = EntriesHandler::new(&args);
    let entries = entries_handler.get_entries(&listing);

    assert_eq!(entries.len(), 3);
}

#[test]
fn it_should_not_include_hidden_files() {
    let listing = vec![
        record("not_hidden", EntryKind::File, 0, 0),
        record(".hidden", EntryKind::File, 0, 0),
    ];

    let args = Args::default();
    let entries = EntriesHandler::new(&args).get_entries(&listing);

    assert_eq!(entries.len(), 1);
    assert_eq!(entries[0].name, "not_hidden");
}

#[test]
fn it_should_include_hidden_files() {
    let listing = vec![
        record("not_hidden", EntryKind::File, 0, 0),
        record(".hidden", EntryKind::File, 0, 0),
    ];

    let mut args = Args::default();
    args.show_hidden = true;
    let entries = EntriesHandler::new(&args).get_entries(&listing);

    assert_eq!(entries.len(), 2);
    assert!(entries.iter().any(|e| e.name == "not_hidden"));
    assert!(entries.iter().any(|e| e.name == ".hidden"));
}

#[test]
fn both_kind_filters_yield_empty_result() {
    let listing = vec![
        record("dir", EntryKind::Dir, 0, 0),
        record("file", EntryKind::File, 0, 0),
        record("link", EntryKind::Symlink, 0, 0),
    ];

    let mut args = Args::default();
    args.show_only_dirs = true;
    args.show_only_files = true;
    let entries = EntriesHandler::new(&args).get_entries(&listing);

    assert_eq!(entries.len(), 0);
}

#[test]
fn dirs_only_keeps_directories() {
    let listing = vec![
        record("dir", EntryKind::Dir, 0, 0),
        record("file", EntryKind::File, 0, 0),
        record("link", EntryKind::Symlink, 0, 0),
    ];

    let mut args = Args::default();
    args.show_only_dirs = true;
    let entries = EntriesHandler::new(&args).get_entries(&listing);

    assert_eq!(entries.len(), 1);
    assert_eq!(entries[0].name, "dir");
    assert_eq!(entries[0].kind, EntryKind::Dir);
}

#[test]
fn files_only_keeps_regular_files() {
    let listing = vec![
        record("dir", EntryKind::Dir, 0, 0),
        record("file", EntryKind::File, 0, 0),
        record("link", EntryKind::Symlink, 0, 0),
    ];

    let mut args = Args::default();
    args.show_only_files = true;
    let entries = EntriesHandler::new(&args).get_entries(&listing);

    assert_eq!(entries.len(), 1);
    assert_eq!(entries[0].name, "file");
}

#[test]
fn sort_by_name_orders_lexicographically() {
    let listing = vec![
        record("pear", EntryKind::File, 1, 0),
        record("apple", EntryKind::File, 2, 0),
        record("banana", EntryKind::File, 3, 0),
    ];

    let args = Args::default();
    let entries = EntriesHandler::new(&args).get_entries(&listing);

    let names: Vec<&str> = entries.iter().map(|e| e.name.as_str()).collect();
    assert_eq!(names, vec!["apple", "banana", "pear"]);
}

#[test]
fn sort_by_size_is_stable_for_ties() {
    let listing = vec![
        record("c_big", EntryKind::File, 10, 0),
        record("b_small", EntryKind::File, 1, 0),
        record("a_small", EntryKind::File, 1, 0),
    ];

    let mut args = Args::default();
    args.sort_by = SortKey::Size;
    let entries = EntriesHandler::new(&args).get_entries(&listing);

    let names: Vec<&str> = entries.iter().map(|e| e.name.as_str()).collect();
    // the two one-byte files keep their enumeration order
    assert_eq!(names, vec!["b_small", "a_small", "c_big"]);
}

#[test]
fn reverse_reverses_the_sorted_sequence() {
    let listing = vec![
        record("c_big", EntryKind::File, 10, 0),
        record("b_small", EntryKind::File, 1, 0),
        record("a_small", EntryKind::File, 1, 0),
    ];

    let mut args = Args::default();
    args.sort_by = SortKey::Size;
    args.reverse = true;
    let entries = EntriesHandler::new(&args).get_entries(&listing);

    let names: Vec<&str> = entries.iter().map(|e| e.name.as_str()).collect();
    // ties end up in reverse enumeration order: the whole sequence flips
    assert_eq!(names, vec!["c_big", "a_small", "b_small"]);
}

#[test]
fn sort_by_modified_orders_chronologically() {
    let listing = vec![
        record("newest", EntryKind::File, 0, 30),
        record("oldest", EntryKind::File, 0, 10),
        record("middle", EntryKind::File, 0, 20),
    ];

    let mut args = Args::default();
    args.sort_by = SortKey::Modified;
    let entries = EntriesHandler::new(&args).get_entries(&listing);

    let names: Vec<&str> = entries.iter().map(|e| e.name.as_str()).collect();
    assert_eq!(names, vec!["oldest", "middle", "newest"]);
}

#[test]
fn empty_listing_yields_empty_result() {
    let args = Args::default();
    let handler = EntriesHandler::new(&args);

    assert_eq!(handler.get_entries(&vec![]).len(), 0);
    assert_eq!(handler.get_entries_recursive(&vec![]).len(), 0);
}

#[test]
fn largest_size_sorts_last() {
    let listing = vec![
        record("huge", EntryKind::File, u64::MAX, 0),
        record("small", EntryKind::File, 1, 0),
        record("empty", EntryKind::File, 0, 0),
    ];

    let mut args = Args::default();
    args.sort_by = SortKey::Size;
    let entries = EntriesHandler::new(&args).get_entries(&listing);

    let names: Vec<&str> = entries.iter().map(|e| e.name.as_str()).collect();
    assert_eq!(names, vec!["empty", "small", "huge"]);
}

#[test]
fn sort_by_created_orders_chronologically() {
    let mut early = record("early", EntryKind::File, 0, 0);
    early.ctime = Timestamp { secs: 5, nanos: 2 };
    let mut late = record("late", EntryKind::File, 0, 0);
    late.ctime = Timestamp { secs: 5, nanos: 7 };

    let listing = vec![late, early];
    let mut args = Args::default();
    args.sort_by = SortKey::Created;
    let entries = EntriesHandler::new(&args).get_entries(&listing);

    let names: Vec<&str> = entries.iter().map(|e| e.name.as_str()).collect();
    assert_eq!(names, vec!["early", "late"]);
}
