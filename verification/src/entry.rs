//! The data model: one filesystem node as an immutable typed snapshot.

use vstd::prelude::*;
use vstd::string::{StrSliceExecFns, StringExecFns};

use crate::args::Args;
use crate::humanize::{format_size, format_time_ago, size_text, time_ago_text};
use crate::raw::RawEntry;

verus! {

/// The closed set of file kinds the listing represents.
#[derive(Debug, PartialEq, Eq, Structural, Clone, Copy)]
pub enum EntryKind {
    Dir,
    File,
    Symlink,
}

/// A point in time, as a whole number of seconds since some fixed epoch
/// plus a sub-second part in nanoseconds.
#[derive(Debug, PartialEq, Eq, Structural, Clone, Copy)]
pub struct Timestamp {
    pub secs: u64,
    pub nanos: u32,
}

/// A well-formed timestamp keeps its sub-second part below one second.
pub open spec fn ts_wf(t: Timestamp) -> bool {
    t.nanos < 1_000_000_000
}

/// Chronological order on timestamps.
pub open spec fn ts_le(a: Timestamp, b: Timestamp) -> bool {
    a.secs < b.secs || (a.secs == b.secs && a.nanos <= b.nanos)
}

/// One filesystem node: kind, final path component, size in bytes,
/// modification and creation times, raw permission bits, and the child
/// entries populated only when a directory is expanded recursively.
pub struct Entry {
    pub kind: EntryKind,
    pub name: String,
    pub size: u64,
    pub mtime: Timestamp,
    pub ctime: Timestamp,
    pub permissions: u32,
    pub children: Vec<Entry>,
}

/// The mathematical model of an [`Entry`]: strings become character
/// sequences and the child vector becomes a sequence of models.
pub ghost struct EntryModel {
    pub kind: EntryKind,
    pub name: Seq<char>,
    pub size: u64,
    pub mtime: Timestamp,
    pub ctime: Timestamp,
    pub permissions: u32,
    pub children: Seq<EntryModel>,
}

impl Entry {
    /// The model of this entry, with all children modelled recursively.
    pub open spec fn model(self) -> EntryModel
        decreases self,
    {
        EntryModel {
            kind: self.kind,
            name: self.name@,
            size: self.size,
            mtime: self.mtime,
            ctime: self.ctime,
            permissions: self.permissions,
            children: models_of(self.children@),
        }
    }
}

/// The models of every entry of a sequence, in order.
pub open spec fn models_of(entries: Seq<Entry>) -> Seq<EntryModel>
    decreases entries,
{
    if entries.len() == 0 {
        Seq::empty()
    } else {
        seq![entries[0].model()] + models_of(entries.drop_first())
    }
}

pub broadcast proof fn lemma_models_of_len(entries: Seq<Entry>)
    ensures
        #[trigger] models_of(entries).len() == entries.len(),
    decreases entries.len(),
{
    if entries.len() > 0 {
        lemma_models_of_len(entries.drop_first());
    }
}

pub broadcast proof fn lemma_models_of_index(entries: Seq<Entry>, i: int)
    requires
        0 <= i < entries.len(),
    ensures
        #[trigger] models_of(entries)[i] == entries[i].model(),
    decreases entries.len(),
{
    lemma_models_of_len(entries.drop_first());
    if i > 0 {
        lemma_models_of_index(entries.drop_first(), i - 1);
    }
}

/// Taking models commutes with every structural operation the pipeline
/// uses; these two index facts carry all of them.
pub broadcast group group_models_of {
    lemma_models_of_len,
    lemma_models_of_index,
}

pub proof fn lemma_models_of_push(entries: Seq<Entry>, e: Entry)
    ensures
        models_of(entries.push(e)) == models_of(entries).push(e.model()),
{
    lemma_models_of_len(entries.push(e));
    lemma_models_of_len(entries);
    assert forall|i: int| 0 <= i < models_of(entries.push(e)).len() implies models_of(
        entries.push(e),
    )[i] == models_of(entries).push(e.model())[i] by {
        lemma_models_of_index(entries.push(e), i);
        if i < entries.len() {
            lemma_models_of_index(entries, i);
        }
    }
    assert(models_of(entries.push(e)) =~= models_of(entries).push(e.model()));
}

/// What kind a raw record of the given file-type tests represents: a
/// directory wins over a file, a file over a symlink, and a record that
/// answers none of the three is unrepresentable.
pub open spec fn kind_from_flags(is_dir: bool, is_file: bool, is_symlink: bool) -> Option<
    EntryKind,
> {
    if is_dir {
        Some(EntryKind::Dir)
    } else if is_file {
        Some(EntryKind::File)
    } else if is_symlink {
        Some(EntryKind::Symlink)
    } else {
        None
    }
}

impl EntryKind {
    /// Derives the kind from the three file-type tests of a raw record.
    /// A record that is neither directory, regular file nor symlink is
    /// rejected rather than coerced.
    pub fn from_flags(is_dir: bool, is_file: bool, is_symlink: bool) -> (r: Option<EntryKind>)
        ensures
            r == kind_from_flags(is_dir, is_file, is_symlink),
    {
        if is_dir {
            Some(EntryKind::Dir)
        } else if is_file {
            Some(EntryKind::File)
        } else if is_symlink {
            Some(EntryKind::Symlink)
        } else {
            None
        }
    }
}

/// Which optional parts of an entry the renderer shows.
#[derive(Clone, Copy, Debug, PartialEq, Eq, Structural)]
pub struct DisplayOptions {
    pub show_emoji_icon: bool,
    pub show_modified_ts: bool,
    pub show_created_ts: bool,
    pub show_size: bool,
    pub show_permissions: bool,
}

impl DisplayOptions {
    /// The display switches of a configuration.
    pub fn from(item: &Args) -> (r: DisplayOptions)
        ensures
            r == (DisplayOptions {
                show_emoji_icon: item.show_emoji_icon,
                show_modified_ts: item.show_modified_ts,
                show_created_ts: item.show_created_ts,
                show_size: item.show_size,
                show_permissions: item.show_permissions,
            }),
    {
        DisplayOptions {
            show_emoji_icon: item.show_emoji_icon,
            show_modified_ts: item.show_modified_ts,
            show_created_ts: item.show_created_ts,
            show_size: item.show_size,
            show_permissions: item.show_permissions,
        }
    }
}

/// The icon shown for a kind, in its emoji or its letter form.
pub open spec fn icon_chars(kind: EntryKind, emoji: bool) -> Seq<char> {
    match kind {
        EntryKind::Dir => if emoji {
            "📁"@
        } else {
            "D"@
        },
        EntryKind::File => if emoji {
            "📄"@
        } else {
            "F"@
        },
        EntryKind::Symlink => if emoji {
            "🔗"@
        } else {
            "L"@
        },
    }
}

/// One permission character: the glyph when the bit is set, '-' otherwise.
pub open spec fn perm_chunk(mode: u32, bit: u32, glyph: Seq<char>) -> Seq<char> {
    if mode & bit != 0 {
        glyph
    } else {
        "-"@
    }
}

/// The bracketed permission block of a mode: its low nine bits as three
/// r/w/x triples joined by '|'; mode 0o644 gives "[rw-|r--|r--]".
pub open spec fn mode_chars(mode: u32) -> Seq<char> {
    "["@ + perm_chunk(mode, 0o400, "r"@) + perm_chunk(mode, 0o200, "w"@) + perm_chunk(
        mode,
        0o100,
        "x"@,
    ) + "|"@ + perm_chunk(mode, 0o040, "r"@) + perm_chunk(mode, 0o020, "w"@) + perm_chunk(
        mode,
        0o010,
        "x"@,
    ) + "|"@ + perm_chunk(mode, 0o004, "r"@) + perm_chunk(mode, 0o002, "w"@) + perm_chunk(
        mode,
        0o001,
        "x"@,
    ) + "]"@
}

/// `text` padded on the right with spaces to at least `width` characters;
/// longer text is kept whole, never truncated.
pub open spec fn padded(text: Seq<char>, width: int) -> Seq<char> {
    if text.len() >= width {
        text
    } else {
        text + Seq::new((width - text.len()) as nat, |i: int| ' ')
    }
}

/// The elapsed time from `from` to `now`, as the seconds and the
/// sub-second nanoseconds a duration holds.
pub open spec fn elapsed_parts(from: Timestamp, now: Timestamp) -> (u64, u32)
    recommends
        ts_wf(from),
        ts_wf(now),
        ts_le(from, now),
{
    if now.nanos >= from.nanos {
        ((now.secs - from.secs) as u64, (now.nanos - from.nanos) as u32)
    } else {
        ((now.secs - from.secs - 1) as u64, (now.nanos + 1_000_000_000 - from.nanos) as u32)
    }
}

/// The part of a rendered line before any time block: the bracketed
/// icon, then the permission block when enabled.
pub open spec fn line_prefix(m: EntryModel, o: DisplayOptions) -> Seq<char> {
    "["@ + icon_chars(m.kind, o.show_emoji_icon) + "]"@ + (if o.show_permissions {
        "─"@ + mode_chars(m.permissions)
    } else {
        Seq::empty()
    })
}

/// The modified-time block: the relative phrase padded to 14 characters,
/// or nothing when the block is disabled.
pub open spec fn mtime_seg(m: EntryModel, o: DisplayOptions, now: Timestamp) -> Seq<char> {
    if o.show_modified_ts {
        "─[M: "@ + padded(
            time_ago_text(elapsed_parts(m.mtime, now).0, elapsed_parts(m.mtime, now).1),
            14,
        ) + "]"@
    } else {
        Seq::empty()
    }
}

/// The created-time block, built like the modified-time block.
pub open spec fn ctime_seg(m: EntryModel, o: DisplayOptions, now: Timestamp) -> Seq<char> {
    if o.show_created_ts {
        "─[C: "@ + padded(
            time_ago_text(elapsed_parts(m.ctime, now).0, elapsed_parts(m.ctime, now).1),
            14,
        ) + "]"@
    } else {
        Seq::empty()
    }
}

/// The part of a rendered line after the time blocks: the size block
/// when enabled, then the bracketed name.
pub open spec fn line_suffix(m: EntryModel, o: DisplayOptions) -> Seq<char> {
    (if o.show_size {
        "─[S: "@ + padded(size_text(m.size), 10) + "]"@
    } else {
        Seq::empty()
    }) + "─["@ + m.name + "]"@
}

/// The one rendered line of an entry: icon, the enabled metadata blocks
/// in their fixed order (permissions, modified, created, size), then the
/// name. No newline.
pub open spec fn render_line(m: EntryModel, o: DisplayOptions, now: Timestamp) -> Seq<char> {
    line_prefix(m, o) + mtime_seg(m, o, now) + ctime_seg(m, o, now) + line_suffix(m, o)
}

/// What one rendered line needs of the clock: every enabled time block
/// reads a well-formed timestamp that lies at or before `now`.
pub open spec fn line_renderable(m: EntryModel, o: DisplayOptions, now: Timestamp) -> bool {
    (o.show_modified_ts ==> ts_wf(m.mtime) && ts_wf(now) && ts_le(m.mtime, now))
        && (o.show_created_ts ==> ts_wf(m.ctime) && ts_wf(now) && ts_le(m.ctime, now))
}

/// Purity law: rendering is a function of the entry, the options and
/// the clock, and the clock moves only the two time blocks. The blocks
/// before and after them do not mention `now` at all, so two renderings
/// of one entry under one option set can differ only there.
pub proof fn lemma_render_time_drift(
    m: EntryModel,
    o: DisplayOptions,
    n1: Timestamp,
    n2: Timestamp,
)
    ensures
        render_line(m, o, n1) == line_prefix(m, o) + mtime_seg(m, o, n1) + ctime_seg(m, o, n1)
            + line_suffix(m, o),
        render_line(m, o, n2) == line_prefix(m, o) + mtime_seg(m, o, n2) + ctime_seg(m, o, n2)
            + line_suffix(m, o),
        !o.show_modified_ts && !o.show_created_ts ==> render_line(m, o, n1) == render_line(
            m,
            o,
            n2,
        ),
{
}

/// The leading spaces of a line at `depth`.
pub open spec fn indent(depth: int) -> Seq<char> {
    Seq::new(if depth >= 0 {
        depth as nat
    } else {
        0
    }, |i: int| ' ')
}

/// The connector before an indented line: the corner glyph below the
/// root, nothing at the root itself.
pub open spec fn connector(depth: int) -> Seq<char> {
    if depth > 0 {
        "└"@
    } else {
        Seq::empty()
    }
}

/// The rendered block of a whole entry tree: the entry's own line at
/// `depth`, then each child's block at `depth + 1`, depth-first, every
/// line closed by a newline.
pub open spec fn render_tree(m: EntryModel, o: DisplayOptions, now: Timestamp, depth: int) -> Seq<
    char,
>
    decreases m, 0int,
{
    indent(depth) + connector(depth) + render_line(m, o, now) + "\n"@ + render_forest(
        m.children,
        o,
        now,
        depth + 1,
    )
}

/// The concatenated blocks of a sequence of sibling trees, all at one
/// depth.
pub open spec fn render_forest(
    ms: Seq<EntryModel>,
    o: DisplayOptions,
    now: Timestamp,
    depth: int,
) -> Seq<char>
    decreases ms, 1int,
{
    if ms.len() == 0 {
        Seq::empty()
    } else {
        render_tree(ms[0], o, now, depth) + render_forest(ms.drop_first(), o, now, depth)
    }
}

/// What a whole tree needs of the clock: `line_renderable` at the root
/// and in every subtree.
pub open spec fn tree_renderable(m: EntryModel, o: DisplayOptions, now: Timestamp) -> bool
    decreases m, 0int,
{
    line_renderable(m, o, now) && forest_renderable(m.children, o, now)
}

pub open spec fn forest_renderable(ms: Seq<EntryModel>, o: DisplayOptions, now: Timestamp) -> bool
    decreases ms, 1int,
{
    ms.len() == 0 || (tree_renderable(ms[0], o, now) && forest_renderable(
        ms.drop_first(),
        o,
        now,
    ))
}

/// The height of an entry tree: one for the entry itself plus its
/// tallest child.
pub open spec fn tree_height(m: EntryModel) -> nat
    decreases m, 0int,
{
    1 + forest_height(m.children)
}

pub open spec fn forest_height(ms: Seq<EntryModel>) -> nat
    decreases ms, 1int,
{
    if ms.len() == 0 {
        0
    } else if tree_height(ms[0]) >= forest_height(ms.drop_first()) {
        tree_height(ms[0])
    } else {
        forest_height(ms.drop_first())
    }
}

proof fn lemma_forest_height_bound(ms: Seq<EntryModel>, i: int)
    requires
        0 <= i < ms.len(),
    ensures
        tree_height(ms[i]) <= forest_height(ms),
    decreases ms.len(),
{
    if i > 0 {
        lemma_forest_height_bound(ms.drop_first(), i - 1);
    }
}

proof fn lemma_forest_renderable_index(
    ms: Seq<EntryModel>,
    o: DisplayOptions,
    now: Timestamp,
    i: int,
)
    requires
        forest_renderable(ms, o, now),
        0 <= i < ms.len(),
    ensures
        tree_renderable(ms[i], o, now),
    decreases ms.len(),
{
    if i > 0 {
        lemma_forest_renderable_index(ms.drop_first(), o, now, i - 1);
    }
}

proof fn lemma_render_forest_take_step(
    ms: Seq<EntryModel>,
    o: DisplayOptions,
    now: Timestamp,
    depth: int,
    i: int,
)
    requires
        0 <= i < ms.len(),
    ensures
        render_forest(ms.take(i + 1), o, now, depth) == render_forest(ms.take(i), o, now, depth)
            + render_tree(ms[i], o, now, depth),
    decreases i,
{
    let lhs = render_forest(ms.take(i + 1), o, now, depth);
    if i == 0 {
        assert(ms.take(1)[0] == ms[0]);
        assert(ms.take(1).drop_first() =~= Seq::<EntryModel>::empty());
        assert(ms.take(0) =~= Seq::<EntryModel>::empty());
        assert(lhs =~= render_forest(ms.take(0), o, now, depth) + render_tree(
            ms[0],
            o,
            now,
            depth,
        ));
    } else {
        lemma_render_forest_take_step(ms.drop_first(), o, now, depth, i - 1);
        assert(ms.take(i + 1).drop_first() =~= ms.drop_first().take(i));
        assert(ms.take(i).drop_first() =~= ms.drop_first().take(i - 1));
        assert(ms.take(i + 1)[0] == ms[0]);
        assert(ms.take(i)[0] == ms[0]);
        assert(ms.drop_first()[i - 1] == ms[i]);
        assert(render_tree(ms[0], o, now, depth) + (render_forest(
            ms.drop_first().take(i - 1),
            o,
            now,
            depth,
        ) + render_tree(ms[i], o, now, depth)) =~= (render_tree(ms[0], o, now, depth)
            + render_forest(ms.drop_first().take(i - 1), o, now, depth)) + render_tree(
            ms[i],
            o,
            now,
            depth,
        ));
    }
}

/// The elapsed duration between two timestamps.
fn elapsed(from: Timestamp, now: Timestamp) -> (r: (u64, u32))
    requires
        ts_wf(from),
        ts_wf(now),
        ts_le(from, now),
    ensures
        r == elapsed_parts(from, now),
        r.1 < 1_000_000_000,
{
    if now.nanos >= from.nanos {
        (now.secs - from.secs, now.nanos - from.nanos)
    } else {
        (now.secs - from.secs - 1, now.nanos + 1_000_000_000 - from.nanos)
    }
}

/// Appends spaces until the string holds at least `width` characters.
fn pad_string(s: String, width: usize) -> (r: String)
    ensures
        r@ == padded(s@, width as int),
{
    let ghost orig = s@;
    let mut r = s;
    let mut n = r.as_str().unicode_len();
    while n < width
        invariant
            orig.len() <= n,
            n == r@.len(),
            n <= width || n == orig.len(),
            r@ == orig + Seq::new((n - orig.len()) as nat, |i: int| ' '),
        decreases width - n,
    {
        r.append(" ");
        proof {
            reveal_strlit(" ");
            assert(r@ =~= orig + Seq::new((n + 1 - orig.len()) as nat, |i: int| ' '));
        }
        n = n + 1;
    }
    proof {
        assert(r@ =~= padded(orig, width as int));
    }
    r
}

/// Appends one time block: the label, the relative phrase padded to 14
/// characters, and the closing bracket.
fn append_time_block(out: &mut String, label: &str, from: Timestamp, now: Timestamp)
    requires
        ts_wf(from),
        ts_wf(now),
        ts_le(from, now),
    ensures
        final (out)@ == old(out)@ + label@ + padded(
            time_ago_text(elapsed_parts(from, now).0, elapsed_parts(from, now).1),
            14,
        ) + "]"@,
{
    out.append(label);
    let parts = elapsed(from, now);
    let phrase = pad_string(format_time_ago(parts.0, parts.1), 14);
    out.append(phrase.as_str());
    out.append("]");
}

/// Appends the glyph of one permission bit: `glyph` when set, "-" when not.
fn append_perm(s: &mut String, set: bool, glyph: &str)
    ensures
        final (s)@ == old(s)@ + (if set {
            glyph@
        } else {
            "-"@
        }),
{
    if set {
        s.append(glyph);
    } else {
        s.append("-");
    }
}

impl Entry {
    /// Formats raw mode bits as the bracketed permission block.
    pub fn format_st_mode(st_mode: u32) -> (r: String)
        ensures
            r@ == mode_chars(st_mode),
    {
        let mut s = String::new();
        s.append("[");
        append_perm(&mut s, st_mode & 0o400 != 0, "r");
        append_perm(&mut s, st_mode & 0o200 != 0, "w");
        append_perm(&mut s, st_mode & 0o100 != 0, "x");
        s.append("|");
        append_perm(&mut s, st_mode & 0o040 != 0, "r");
        append_perm(&mut s, st_mode & 0o020 != 0, "w");
        append_perm(&mut s, st_mode & 0o010 != 0, "x");
        s.append("|");
        append_perm(&mut s, st_mode & 0o004 != 0, "r");
        append_perm(&mut s, st_mode & 0o002 != 0, "w");
        append_perm(&mut s, st_mode & 0o001 != 0, "x");
        s.append("]");
        proof {
            assert(s@ =~= mode_chars(st_mode));
        }
        s
    }

    /// The icon of this entry's kind.
    pub fn get_icon(&self, use_emoji_icon: bool) -> (r: &'static str)
        ensures
            r@ == icon_chars(self.kind, use_emoji_icon),
    {
        match self.kind {
            EntryKind::Dir => if use_emoji_icon {
                "📁"
            } else {
                "D"
            },
            EntryKind::File => if use_emoji_icon {
                "📄"
            } else {
                "F"
            },
            EntryKind::Symlink => if use_emoji_icon {
                "🔗"
            } else {
                "L"
            },
        }
    }

    /// Renders this entry as its one line of text.
    #[verifier::rlimit(50)]
    pub fn display(&self, display_options: &DisplayOptions, now: Timestamp) -> (r: String)
        requires
            line_renderable(self.model(), *display_options, now),
        ensures
            r@ == render_line(self.model(), *display_options, now),
    {
        let mut out = String::new();
        out.append("[");
        out.append(self.get_icon(display_options.show_emoji_icon));
        out.append("]");
        if display_options.show_permissions {
            out.append("─");
            let mode = Self::format_st_mode(self.permissions);
            out.append(mode.as_str());
        }
        proof {
            assert(out@ =~= line_prefix(self.model(), *display_options));
        }
        if display_options.show_modified_ts {
            append_time_block(&mut out, "─[M: ", self.mtime, now);
        }
        proof {
            assert(out@ =~= line_prefix(self.model(), *display_options) + mtime_seg(
                self.model(),
                *display_options,
                now,
            ));
        }
        if display_options.show_created_ts {
            append_time_block(&mut out, "─[C: ", self.ctime, now);
        }
        proof {
            assert(out@ =~= line_prefix(self.model(), *display_options) + mtime_seg(
                self.model(),
                *display_options,
                now,
            ) + ctime_seg(self.model(), *display_options, now));
        }
        let ghost head = out@;
        if display_options.show_size {
            out.append("─[S: ");
            let phrase = pad_string(format_size(self.size), 10);
            out.append(phrase.as_str());
            out.append("]");
        }
        proof {
            assert(out@ =~= head + (if display_options.show_size {
                "─[S: "@ + padded(size_text(self.model().size), 10) + "]"@
            } else {
                Seq::<char>::empty()
            }));
        }
        let ghost with_size = out@;
        out.append("─[");
        out.append(self.name.as_str());
        out.append("]");
        proof {
            assert(out@ =~= with_size + "─["@ + self.model().name + "]"@);
            assert(out@ =~= head + line_suffix(self.model(), *display_options));
            assert(out@ =~= render_line(self.model(), *display_options, now));
        }
        out
    }

    /// Renders this entry and, depth-first, each of its children: one
    /// line per entry, indented by one space per depth level, every
    /// line closed by a newline.
    #[verifier::rlimit(50)]
    pub fn display_recursive(
        &self,
        display_options: &DisplayOptions,
        now: Timestamp,
        depth: usize,
    ) -> (r: String)
        requires
            tree_renderable(self.model(), *display_options, now),
            depth + tree_height(self.model()) <= usize::MAX,
        ensures
            r@ == render_tree(self.model(), *display_options, now, depth as int),
        decreases *self,
    {
        broadcast use group_models_of;

        let mut out = String::new();
        let mut d: usize = 0;
        proof {
            assert(out@ =~= indent(0));
        }
        while d < depth
            invariant
                d <= depth,
                out@ == indent(d as int),
            decreases depth - d,
        {
            out.append(" ");
            proof {
                reveal_strlit(" ");
                assert(out@ =~= indent(d as int + 1));
            }
            d = d + 1;
        }
        if depth > 0 {
            out.append("└");
        }
        proof {
            assert(out@ =~= indent(depth as int) + connector(depth as int));
        }
        let line = self.display(display_options, now);
        out.append(line.as_str());
        out.append("\n");
        let ghost head = indent(depth as int) + connector(depth as int) + render_line(
            self.model(),
            *display_options,
            now,
        ) + "\n"@;
        proof {
            assert(out@ =~= head);
            assert(render_forest(
                self.model().children.take(0),
                *display_options,
                now,
                depth as int + 1,
            ) =~= Seq::<char>::empty());
            assert(out@ =~= head + render_forest(
                self.model().children.take(0),
                *display_options,
                now,
                depth as int + 1,
            ));
        }
        let mut i: usize = 0;
        while i < self.children.len()
            invariant
                i <= self.children@.len(),
                tree_renderable(self.model(), *display_options, now),
                depth + tree_height(self.model()) <= usize::MAX,
                head == indent(depth as int) + connector(depth as int) + render_line(
                    self.model(),
                    *display_options,
                    now,
                ) + "\n"@,
                out@ == head + render_forest(
                    self.model().children.take(i as int),
                    *display_options,
                    now,
                    depth as int + 1,
                ),
            decreases self.children@.len() - i,
        {
            broadcast use group_models_of;

            let child = &self.children[i];
            proof {
                lemma_models_of_len(self.children@);
                lemma_models_of_index(self.children@, i as int);
                lemma_forest_renderable_index(
                    self.model().children,
                    *display_options,
                    now,
                    i as int,
                );
                lemma_forest_height_bound(self.model().children, i as int);
                assert(child.model() == self.model().children[i as int]);
                assert(decreases_to!(*self => self.children@[i as int]));
            }
            let block = child.display_recursive(display_options, now, depth + 1);
            out.append(block.as_str());
            proof {
                lemma_render_forest_take_step(
                    self.model().children,
                    *display_options,
                    now,
                    depth as int + 1,
                    i as int,
                );
                assert(out@ =~= head + render_forest(
                    self.model().children.take(i as int + 1),
                    *display_options,
                    now,
                    depth as int + 1,
                ));
            }
            i = i + 1;
        }
        proof {
            lemma_models_of_len(self.children@);
            assert(self.model().children.take(self.children@.len() as int)
                =~= self.model().children);
        }
        out
    }

    /// Builds the entry of one raw record, with no children attached.
    pub fn from_record(record: &RawEntry) -> (e: Entry)
        ensures
            e.model() == record.model(),
            e.children@.len() == 0,
    {
        let e = Entry {
            kind: record.kind,
            name: record.name.clone(),
            size: record.size,
            mtime: record.mtime,
            ctime: record.ctime,
            permissions: record.mode,
            children: Vec::new(),
        };
        proof {
            assert(models_of(e.children@) =~= Seq::<EntryModel>::empty());
            assert(e.model().children =~= record.model().children);
        }
        e
    }
}

} // verus!
