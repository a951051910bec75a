use regex::Regex;
use shikibetsu::args::Args;
use shikibetsu::entries_handler::EntriesHandler;
use shikibetsu::entry::{DisplayOptions, Entry, EntryKind, Timestamp};
use shikibetsu::raw::RawEntry;

fn ts(secs: u64) -> Timestamp {
    Timestamp { secs, nanos: 0 }
}

fn file_record(name: &str) -> RawEntry {
    RawEntry {
        name: String::from(name),
        kind: EntryKind::File,
        size: 0,
        mtime: ts(1_700_000_000),
        ctime: ts(1_700_000_000),
        mode: 0o100644,
    }
}

fn plain_options() -> DisplayOptions {
    DisplayOptions {
        show_emoji_icon: false,
        show_modified_ts: false,
        show_created_ts: false,
        show_size: false,
        show_permissions: false,
    }
}

#[test]
fn it_should_create_display_options() {
    let args = Args::default();
    let display_options = DisplayOptions::from(&args);
    assert_eq!(display_options.show_emoji_icon, false);
    assert_eq!(display_options.show_modified_ts, false);
    assert_eq!(display_options.show_created_ts, false);
    assert_eq!(display_options.show_size, false);
    assert_eq!(display_options.show_permissions, false);
}

#[test]
fn it_should_format_st_mode() {
    assert_eq!(Entry::format_st_mode(0o644), "[rw-|r--|r--]");
    assert_eq!(Entry::format_st_mode(0o755), "[rwx|r-x|r-x]");
    assert_eq!(Entry::format_st_mode(0o777), "[rwx|rwx|rwx]");
}

#[test]
fn format_st_mode_shows_unset_bits_as_dashes() {
    assert_eq!(Entry::format_st_mode(0o000), "[---|---|---]");
    assert_eq!(Entry::format_st_mode(0o100600), "[rw-|---|---]");
}

#[test]
fn it_should_display_permissions() {
    let display_options = DisplayOptions {
        show_emoji_icon: false,
        show_modified_ts: false,
        show_created_ts: false,
        show_size: false,
        show_permissions: true,
    };

    let file_entry = Entry::from_record(&file_record("file"));

    let re =
        Regex::new(r"^\[F\]─\[(r|-)(w|-)(x|-)\|(r|-)(w|-)(x|-)\|(r|-)(w|-)(x|-)\]─\[file\]$")
            .unwrap();

    assert!(re.is_match(
        file_entry.display(&display_options, ts(1_700_000_000)).as_str()
    ));
}

#[test]
fn it_should_display_modified_ts() {
    let display_options = DisplayOptions {
        show_emoji_icon: false,
        show_modified_ts: true,
        show_created_ts: false,
        show_size: false,
        show_permissions: false,
    };

    let file_entry = Entry::from_record(&file_record("file"));
    assert_eq!(
        file_entry.display(&display_options, ts(1_700_000_000)),
        "[F]─[M: now           ]─[file]"
    );
}

#[test]
fn it_should_display_created_ts() {
    let display_options = DisplayOptions {
        show_emoji_icon: false,
        show_modified_ts: false,
        show_created_ts: true,
        show_size: false,
        show_permissions: false,
    };

    let file_entry = Entry::from_record(&file_record("file"));
    assert_eq!(
        file_entry.display(&display_options, ts(1_700_000_000)),
        "[F]─[C: now           ]─[file]"
    );
}

#[test]
fn it_should_display_size() {
    let display_options = DisplayOptions {
        show_emoji_icon: false,
        show_modified_ts: false,
        show_created_ts: false,
        show_size: true,
        show_permissions: false,
    };

    let file_entry = Entry::from_record(&file_record("file"));
    assert_eq!(
        file_entry.display(&display_options, ts(1_700_000_000)),
        "[F]─[S: 0 B       ]─[file]"
    );
}

#[test]
fn it_should_display_default_icons() {
    let display_options = plain_options();

    let mut dir_record = file_record("dir");
    dir_record.kind = EntryKind::Dir;
    let mut link_record = file_record("symlink");
    link_record.kind = EntryKind::Symlink;

    let now = ts(1_700_000_000);
    let mut actual_display = String::new();
    for record in [file_record("file"), dir_record, link_record].iter() {
        let entry = Entry::from_record(record);
        actual_display.push_str(&entry.display(&display_options, now));
        actual_display.push('\n');
    }

    assert!(actual_display.contains("[F]─[file]"));
    assert!(actual_display.contains("[D]─[dir]"));
    assert!(actual_display.contains("[L]─[symlink]"));
}

#[test]
fn entry_it_should_display_emoji_icons() {
    let mut display_options = plain_options();
    display_options.show_emoji_icon = true;

    let mut dir_record = file_record("dir");
    dir_record.kind = EntryKind::Dir;
    let mut link_record = file_record("symlink");
    link_record.kind = EntryKind::Symlink;

    let now = ts(1_700_000_000);
    let mut actual_display = String::new();
    for record in [file_record("file"), dir_record, link_record].iter() {
        let entry = Entry::from_record(record);
        actual_display.push_str(&entry.display(&display_options, now));
        actual_display.push('\n');
    }

    assert!(actual_display.contains("[📄]─[file]"));
    assert!(actual_display.contains("[📁]─[dir]"));
    assert!(actual_display.contains("[🔗]─[symlink]"));
}

#[test]
fn lib_it_should_display_emoji_icons() {
    let mut dir_record = file_record("dir");
    dir_record.kind = EntryKind::Dir;
    let mut link_record = file_record("link_to_file");
    link_record.kind = EntryKind::Symlink;
    let listing = vec![dir_record, file_record("file"), link_record];

    let mut args = Args::default();
    args.show_emoji_icon = true;
    let handler = EntriesHandler::new(&args);
    let display_options = DisplayOptions::from(&args);

    let now = ts(1_700_000_000);
    let mut output = String::new();
    for entry in handler.get_entries(&listing).iter() {
        output.push_str(&entry.display(&display_options, now));
        output.push('\n');
    }

    assert!(output.contains("📄"));
    assert!(output.contains("📁"));
    assert!(output.contains("🔗"));
}

#[test]
fn fresh_file_with_no_options_renders_icon_and_name_only() {
    let entry = Entry::from_record(&file_record("notes.txt"));
    assert_eq!(entry.display(&plain_options(), ts(1_700_000_000)), "[F]─[notes.txt]");
}

#[test]
fn clock_drift_moves_only_the_time_segment() {
    let mut display_options = plain_options();
    display_options.show_modified_ts = true;
    display_options.show_size = true;
    display_options.show_permissions = true;

    let entry = Entry::from_record(&file_record("file"));
    let early = entry.display(&display_options, ts(1_700_000_000));
    let late = entry.display(&display_options, ts(1_700_000_000 + 3600));

    // same shape: everything before and after the time block agrees
    let prefix = "[F]─[rw-|r--|r--]─[M: ";
    assert!(early.starts_with(prefix));
    assert!(late.starts_with(prefix));
    assert!(early.ends_with("]─[S: 0 B       ]─[file]"));
    assert!(late.ends_with("]─[S: 0 B       ]─[file]"));
    // only the clock moved: the early rendering says "now", the late one does not
    assert!(early.contains("[M: now           ]"));
    assert!(late.contains("[M: 1 hour ago    ]"));
}
