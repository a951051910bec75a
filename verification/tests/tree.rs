use shikibetsu::args::Args;
use shikibetsu::entries_handler::EntriesHandler;
use shikibetsu::entry::{DisplayOptions, Entry, EntryKind, Timestamp};
use shikibetsu::raw::{RawEntry, RawNode};

fn ts(secs: u64) -> Timestamp {
    Timestamp { secs, nanos: 0 }
}

fn record(name: &str, kind: EntryKind) -> RawEntry {
    RawEntry {
        name: String::from(name),
        kind,
        size: 0,
        mtime: ts(1_700_000_000),
        ctime: ts(1_700_000_000),
        mode: 0o100644,
    }
}

fn leaf(name: &str, kind: EntryKind) -> RawNode {
    RawNode { entry: record(name, kind), entries: vec![] }
}

#[test]
fn it_should_create_entry_from_dir_entry() {
    let records = vec![
        record("child_dir", EntryKind::Dir),
        record("file", EntryKind::File),
        record("symlink", EntryKind::Symlink),
    ];
    let entries = records.iter().map(Entry::from_record).collect::<Vec<Entry>>();

    assert_eq!(entries.len(), 3);
    assert_eq!(entries.iter().any(|e| e.kind == EntryKind::Dir), true);
    assert_eq!(entries.iter().any(|e| e.kind == EntryKind::File), true);
    assert_eq!(entries.iter().any(|e| e.kind == EntryKind::Symlink), true);
    assert_eq!(entries.iter().any(|e| e.name == "child_dir"), true);
    assert_eq!(entries.iter().any(|e| e.name == "file"), true);
    assert_eq!(entries.iter().any(|e| e.name == "symlink"), true);
}

#[test]
fn entry_kind_comes_from_file_type_flags() {
    assert_eq!(EntryKind::from_flags(true, false, false), Some(EntryKind::Dir));
    assert_eq!(EntryKind::from_flags(false, true, false), Some(EntryKind::File));
    assert_eq!(EntryKind::from_flags(false, false, true), Some(EntryKind::Symlink));
    // a directory flag wins over the others, as the source order says
    assert_eq!(EntryKind::from_flags(true, true, true), Some(EntryKind::Dir));
}

#[test]
fn unknown_file_kind_is_rejected() {
    assert_eq!(EntryKind::from_flags(false, false, false), None);
}

#[test]
fn recursive_build_expands_subdirectories() {
    // root/{a.txt, sub/{b.txt}}
    let tree = vec![
        leaf("a.txt", EntryKind::File),
        RawNode {
            entry: record("sub", EntryKind::Dir),
            entries: vec![leaf("b.txt", EntryKind::File)],
        },
    ];

    let args = Args::default();
    let entries = EntriesHandler::new(&args).get_entries_recursive(&tree);

    assert_eq!(entries.len(), 2);
    assert_eq!(entries[0].name, "a.txt");
    assert_eq!(entries[0].children.len(), 0);
    assert_eq!(entries[1].name, "sub");
    assert_eq!(entries[1].kind, EntryKind::Dir);
    assert_eq!(entries[1].children.len(), 1);
    assert_eq!(entries[1].children[0].name, "b.txt");
    assert_eq!(entries[1].children[0].kind, EntryKind::File);
}

#[test]
fn recursive_build_filters_every_level() {
    let tree = vec![RawNode {
        entry: record("sub", EntryKind::Dir),
        entries: vec![leaf(".hidden", EntryKind::File), leaf("shown", EntryKind::File)],
    }];

    let args = Args::default();
    let entries = EntriesHandler::new(&args).get_entries_recursive(&tree);

    assert_eq!(entries.len(), 1);
    assert_eq!(entries[0].children.len(), 1);
    assert_eq!(entries[0].children[0].name, "shown");
}

#[test]
fn non_directories_are_never_expanded() {
    // even a node that wrongly carries entries stays a leaf when it is a file
    let tree = vec![RawNode {
        entry: record("plain", EntryKind::File),
        entries: vec![leaf("ghostly", EntryKind::File)],
    }];

    let args = Args::default();
    let entries = EntriesHandler::new(&args).get_entries_recursive(&tree);

    assert_eq!(entries.len(), 1);
    assert_eq!(entries[0].children.len(), 0);
}

#[test]
fn recursive_display_indents_children() {
    let tree = vec![
        leaf("a.txt", EntryKind::File),
        RawNode {
            entry: record("sub", EntryKind::Dir),
            entries: vec![leaf("b.txt", EntryKind::File)],
        },
    ];

    let args = Args::default();
    let entries = EntriesHandler::new(&args).get_entries_recursive(&tree);
    let display_options = DisplayOptions::from(&args);

    let now = ts(1_700_000_000);
    let mut block = String::new();
    for entry in entries.iter() {
        block.push_str(&entry.display_recursive(&display_options, now, 0));
    }

    assert_eq!(block, "[F]─[a.txt]\n[D]─[sub]\n └[F]─[b.txt]\n");
}
