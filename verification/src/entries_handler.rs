//! The filter and sort engines: which raw records become entries, and in
//! what order they are handed on.

use vstd::prelude::*;
use vstd::string::StrSliceExecFns;

use crate::args::Args;
use crate::entry::{group_models_of, lemma_models_of_push, models_of, Entry, EntryKind, EntryModel};
use crate::raw::{RawEntry, RawNode};
use crate::sort::{
    key_le, lemma_filter_none, lemma_filter_subset, lemma_sort_by_key_elems,
    lemma_sort_by_key_sorted, lemma_sort_by_key_stable, lemma_sort_reverse_stable,
    reverse_entries, sort_by_key, sort_entries, sorted_by_key, tied_with,
};

verus! {

/// Which entries of a directory are kept.
#[derive(Clone, Copy, Debug, PartialEq, Eq, Structural)]
pub struct FilterOptions {
    pub show_hidden: bool,
    pub show_only_dirs: bool,
    pub show_only_files: bool,
}

impl FilterOptions {
    /// The filter switches of a configuration.
    pub fn from(item: &Args) -> (r: FilterOptions)
        ensures
            r == (FilterOptions {
                show_hidden: item.show_hidden,
                show_only_dirs: item.show_only_dirs,
                show_only_files: item.show_only_files,
            }),
    {
        FilterOptions {
            show_hidden: item.show_hidden,
            show_only_dirs: item.show_only_dirs,
            show_only_files: item.show_only_files,
        }
    }
}

/// The key a listing is ordered by.
#[derive(Clone, Copy, Debug, PartialEq, Eq, Structural)]
pub enum SortKey {
    Name,
    Created,
    Modified,
    Size,
}

/// The one-letter code of a sort key, as the command line spells it.
pub open spec fn sort_key_code(k: SortKey) -> Seq<char> {
    match k {
        SortKey::Name => "n"@,
        SortKey::Created => "c"@,
        SortKey::Modified => "m"@,
        SortKey::Size => "s"@,
    }
}

impl SortKey {
    /// The one-letter code of this sort key.
    pub fn code(&self) -> (r: &'static str)
        ensures
            r@ == sort_key_code(*self),
    {
        match self {
            SortKey::Name => "n",
            SortKey::Created => "c",
            SortKey::Modified => "m",
            SortKey::Size => "s",
        }
    }
}

/// How a listing is ordered: by which key, and whether the sorted
/// sequence is reversed afterwards.
#[derive(Clone, Copy, Debug, PartialEq, Eq, Structural)]
pub struct SortOptions {
    pub reverse: bool,
    pub sort_key: SortKey,
}

impl SortOptions {
    /// The sort switches of a configuration.
    pub fn from(item: &Args) -> (r: SortOptions)
        ensures
            r == (SortOptions { reverse: item.reverse, sort_key: item.sort_by }),
    {
        SortOptions { reverse: item.reverse, sort_key: item.sort_by }
    }
}

/// A name the hidden-file rule hides: one that begins with a dot.
pub open spec fn is_hidden(name: Seq<char>) -> bool {
    name.len() > 0 && name[0] == '.'
}

/// Whether the filter keeps an entry: a hidden name needs `show_hidden`,
/// and each kind restriction that is switched on must hold.
pub open spec fn keep(m: EntryModel, f: FilterOptions) -> bool {
    (f.show_hidden || !is_hidden(m.name)) && (f.show_only_dirs ==> m.kind == EntryKind::Dir) && (
    f.show_only_files ==> m.kind == EntryKind::File)
}

/// The filter of one option set, as a predicate on entry models.
pub open spec fn keep_by(f: FilterOptions) -> spec_fn(EntryModel) -> bool {
    |m: EntryModel| keep(m, f)
}

/// The models of a raw enumeration, in enumeration order.
pub open spec fn raw_models(listing: Seq<RawEntry>) -> Seq<EntryModel> {
    listing.map_values(|r: RawEntry| r.model())
}

/// What one directory's raw enumeration becomes: the kept entries,
/// stably sorted by the chosen key, reversed afterwards when asked.
pub open spec fn pipeline(listing: Seq<RawEntry>, f: FilterOptions, s: SortOptions) -> Seq<
    EntryModel,
> {
    let sorted = sort_by_key(raw_models(listing).filter(keep_by(f)), s.sort_key);
    if s.reverse {
        sorted.reverse()
    } else {
        sorted
    }
}

/// The fully expanded model of one raw node: its record's entry, with
/// the children built by the same pipeline when it is a directory.
pub open spec fn node_model(node: RawNode, f: FilterOptions, s: SortOptions) -> EntryModel
    decreases node, 0int,
{
    EntryModel {
        kind: node.entry.kind,
        name: node.entry.name@,
        size: node.entry.size,
        mtime: node.entry.mtime,
        ctime: node.entry.ctime,
        permissions: node.entry.mode,
        children: if node.entry.kind == EntryKind::Dir {
            tree_pipeline(node.entries@, f, s)
        } else {
            Seq::empty()
        },
    }
}

/// The expanded models of a sequence of raw nodes, in enumeration order.
pub open spec fn node_models(nodes: Seq<RawNode>, f: FilterOptions, s: SortOptions) -> Seq<
    EntryModel,
>
    decreases nodes, 0int,
{
    if nodes.len() == 0 {
        Seq::empty()
    } else {
        seq![node_model(nodes[0], f, s)] + node_models(nodes.drop_first(), f, s)
    }
}

/// What one directory tree's raw enumeration becomes under the recursive
/// pipeline: filter, expand directories depth-first, sort, reverse.
pub open spec fn tree_pipeline(nodes: Seq<RawNode>, f: FilterOptions, s: SortOptions) -> Seq<
    EntryModel,
>
    decreases nodes, 1int,
{
    let sorted = sort_by_key(node_models(nodes, f, s).filter(keep_by(f)), s.sort_key);
    if s.reverse {
        sorted.reverse()
    } else {
        sorted
    }
}

pub broadcast proof fn lemma_node_models_len(nodes: Seq<RawNode>, f: FilterOptions, s: SortOptions)
    ensures
        #[trigger] node_models(nodes, f, s).len() == nodes.len(),
    decreases nodes.len(),
{
    if nodes.len() > 0 {
        lemma_node_models_len(nodes.drop_first(), f, s);
    }
}

pub broadcast proof fn lemma_node_models_index(
    nodes: Seq<RawNode>,
    f: FilterOptions,
    s: SortOptions,
    i: int,
)
    requires
        0 <= i < nodes.len(),
    ensures
        #[trigger] node_models(nodes, f, s)[i] == node_model(nodes[i], f, s),
    decreases nodes.len(),
{
    lemma_node_models_len(nodes.drop_first(), f, s);
    if i > 0 {
        lemma_node_models_index(nodes.drop_first(), f, s, i - 1);
    }
}

/// The two index facts of `node_models` carry every structural step the
/// tree builder needs.
pub broadcast group group_node_models {
    lemma_node_models_len,
    lemma_node_models_index,
}

proof fn lemma_node_models_take_step(nodes: Seq<RawNode>, f: FilterOptions, s: SortOptions, i: int)
    requires
        0 <= i < nodes.len(),
    ensures
        node_models(nodes.take(i + 1), f, s) == node_models(nodes.take(i), f, s).push(
            node_model(nodes[i], f, s),
        ),
{
    lemma_node_models_len(nodes.take(i + 1), f, s);
    lemma_node_models_len(nodes.take(i), f, s);
    assert forall|m: int| 0 <= m < node_models(nodes.take(i + 1), f, s).len() implies node_models(
        nodes.take(i + 1),
        f,
        s,
    )[m] == node_models(nodes.take(i), f, s).push(node_model(nodes[i], f, s))[m] by {
        lemma_node_models_index(nodes.take(i + 1), f, s, m);
        assert(nodes.take(i + 1)[m] == nodes[m]);
        if m < i {
            lemma_node_models_index(nodes.take(i), f, s, m);
            assert(nodes.take(i)[m] == nodes[m]);
        }
    }
    assert(node_models(nodes.take(i + 1), f, s) =~= node_models(nodes.take(i), f, s).push(
        node_model(nodes[i], f, s),
    ));
}

/// Decides whether a name begins with a dot.
fn name_is_hidden(name: &String) -> (r: bool)
    ensures
        r == is_hidden(name@),
{
    if name.as_str().unicode_len() == 0 {
        false
    } else {
        name.as_str().get_char(0) == '.'
    }
}

/// Decides the filter for one raw record: whether it becomes an entry.
pub fn keep_record(record: &RawEntry, f: &FilterOptions) -> (r: bool)
    ensures
        r == keep(record.model(), *f),
{
    let hidden_ok = f.show_hidden || !name_is_hidden(&record.name);
    let dirs_ok = !f.show_only_dirs || record.kind == EntryKind::Dir;
    let files_ok = !f.show_only_files || record.kind == EntryKind::File;
    hidden_ok && dirs_ok && files_ok
}

/// The entry pipeline: filters a raw enumeration and orders what is kept.
pub struct EntriesHandler {
    pub filter_options: FilterOptions,
    pub sort_options: SortOptions,
}

impl EntriesHandler {
    /// Builds the pipeline for one configuration.
    pub fn new(args: &Args) -> (r: Self)
        ensures
            r.filter_options == (FilterOptions {
                show_hidden: args.show_hidden,
                show_only_dirs: args.show_only_dirs,
                show_only_files: args.show_only_files,
            }),
            r.sort_options == (SortOptions { reverse: args.reverse, sort_key: args.sort_by }),
    {
        let filter_options = FilterOptions::from(args);
        let sort_options = SortOptions::from(args);

        Self { filter_options, sort_options }
    }

    /// Runs the filter and the sort over one directory's raw enumeration
    /// and returns the entries to show, in display order.
    pub fn get_entries(&self, listing: &Vec<RawEntry>) -> (r: Vec<Entry>)
        ensures
            models_of(r@) == pipeline(listing@, self.filter_options, self.sort_options),
    {
        broadcast use group_models_of;

        let p = Ghost(keep_by(self.filter_options));
        let mut kept: Vec<Entry> = Vec::new();
        let mut i: usize = 0;
        proof {
            reveal(Seq::filter);
            assert(raw_models(listing@.take(0)) =~= Seq::<EntryModel>::empty());
            assert(models_of(kept@) =~= raw_models(listing@.take(0)).filter(p@));
        }
        while i < listing.len()
            invariant
                i <= listing@.len(),
                p@ == keep_by(self.filter_options),
                models_of(kept@) == raw_models(listing@.take(i as int)).filter(p@),
            decreases listing@.len() - i,
        {
            let record = &listing[i];
            let ghost prev = models_of(kept@);
            if keep_record(record, &self.filter_options) {
                let e = Entry::from_record(record);
                let ghost kv = kept@;
                kept.push(e);
                proof {
                    lemma_models_of_push(kv, e);
                    assert(models_of(kept@) == prev.push(e.model()));
                }
            }
            proof {
                broadcast use Seq::lemma_filter_push;

                assert(raw_models(listing@.take(i + 1)) =~= raw_models(
                    listing@.take(i as int),
                ).push(record.model()));
            }
            i = i + 1;
        }
        proof {
            assert(listing@.take(listing@.len() as int) =~= listing@);
        }
        let sorted = sort_entries(kept, self.sort_options.sort_key);
        if self.sort_options.reverse {
            reverse_entries(sorted)
        } else {
            sorted
        }
    }

    /// Runs the whole pipeline over a raw enumeration of a directory
    /// tree: keeps and orders the entries as `get_entries` does, and
    /// expands every kept directory the same way, depth-first.
    pub fn get_entries_recursive(&self, nodes: &Vec<RawNode>) -> (r: Vec<Entry>)
        ensures
            models_of(r@) == tree_pipeline(nodes@, self.filter_options, self.sort_options),
        decreases nodes@,
    {
        broadcast use group_models_of, group_node_models;

        let p = Ghost(keep_by(self.filter_options));
        let mut kept: Vec<Entry> = Vec::new();
        let mut i: usize = 0;
        proof {
            reveal(Seq::filter);
            assert(node_models(nodes@.take(0), self.filter_options, self.sort_options)
                =~= Seq::<EntryModel>::empty());
            assert(models_of(kept@) =~= node_models(
                nodes@.take(0),
                self.filter_options,
                self.sort_options,
            ).filter(p@));
        }
        while i < nodes.len()
            invariant
                i <= nodes@.len(),
                p@ == keep_by(self.filter_options),
                models_of(kept@) == node_models(
                    nodes@.take(i as int),
                    self.filter_options,
                    self.sort_options,
                ).filter(p@),
            decreases nodes@.len() - i,
        {
            let node = &nodes[i];
            let ghost prev = models_of(kept@);
            if keep_record(&node.entry, &self.filter_options) {
                let mut e = Entry::from_record(&node.entry);
                if node.entry.kind == EntryKind::Dir {
                    proof {
                        assert(decreases_to!(nodes@ => nodes@[i as int].entries@));
                    }
                    let children = self.get_entries_recursive(&node.entries);
                    e.children = children;
                }
                let ghost kv = kept@;
                kept.push(e);
                proof {
                    assert(e.model() == node_model(
                        nodes@[i as int],
                        self.filter_options,
                        self.sort_options,
                    ));
                    lemma_models_of_push(kv, e);
                    assert(models_of(kept@) == prev.push(e.model()));
                }
            }
            proof {
                broadcast use Seq::lemma_filter_push;

                lemma_node_models_take_step(
                    nodes@,
                    self.filter_options,
                    self.sort_options,
                    i as int,
                );
            }
            i = i + 1;
        }
        proof {
            assert(nodes@.take(nodes@.len() as int) =~= nodes@);
        }
        let sorted = sort_entries(kept, self.sort_options.sort_key);
        if self.sort_options.reverse {
            reverse_entries(sorted)
        } else {
            sorted
        }
    }
}

/// Hidden-file law: without `show_hidden`, no entry of the result bears
/// a name that begins with a dot.
pub proof fn lemma_hidden_absent(listing: Seq<RawEntry>, f: FilterOptions, s: SortOptions)
    requires
        !f.show_hidden,
    ensures
        forall|i: int|
            0 <= i < pipeline(listing, f, s).len() ==> !is_hidden(
                #[trigger] pipeline(listing, f, s)[i].name,
            ),
{
    broadcast use Seq::lemma_filter_pred;

    let kept = raw_models(listing).filter(keep_by(f));
    let sorted = sort_by_key(kept, s.sort_key);
    lemma_sort_by_key_elems(kept, s.sort_key);
    assert forall|i: int|
        0 <= i < pipeline(listing, f, s).len() implies !is_hidden(
        pipeline(listing, f, s)[i].name,
    ) by {
        let m = pipeline(listing, f, s)[i];
        if s.reverse {
            assert(m == sorted[sorted.len() - 1 - i]);
            assert(kept.contains(m));
        } else {
            assert(kept.contains(m));
        }
        let j = choose|j: int| 0 <= j < kept.len() && kept[j] == m;
        assert(keep_by(f)(kept[j]));
    }
}

/// Both-kind-filters law: with dirs-only and files-only both switched
/// on, the pipeline keeps nothing at all.
pub proof fn lemma_both_filters_empty(listing: Seq<RawEntry>, f: FilterOptions, s: SortOptions)
    requires
        f.show_only_dirs,
        f.show_only_files,
    ensures
        pipeline(listing, f, s) == Seq::<EntryModel>::empty(),
{
    let kept = raw_models(listing).filter(keep_by(f));
    assert forall|i: int|
        0 <= i < raw_models(listing).len() implies !(keep_by(f)(
        #[trigger] raw_models(listing)[i],
    )) by {}
    lemma_filter_none(raw_models(listing), keep_by(f));
    assert(pipeline(listing, f, s) =~= Seq::<EntryModel>::empty());
}

/// The same law through the recursive pipeline: with both kind filters
/// on, even a whole tree yields nothing.
pub proof fn lemma_tree_both_filters_empty(nodes: Seq<RawNode>, f: FilterOptions, s: SortOptions)
    requires
        f.show_only_dirs,
        f.show_only_files,
    ensures
        tree_pipeline(nodes, f, s) == Seq::<EntryModel>::empty(),
{
    assert forall|i: int|
        0 <= i < node_models(nodes, f, s).len() implies !(keep_by(f)(
        #[trigger] node_models(nodes, f, s)[i],
    )) by {}
    lemma_filter_none(node_models(nodes, f, s), keep_by(f));
    assert(tree_pipeline(nodes, f, s) =~= Seq::<EntryModel>::empty());
}

/// Stability law at the pipeline: among entries tied under the sort
/// key, the result keeps the kept records' enumeration order, or its
/// exact reverse when the reverse pass runs.
pub proof fn lemma_pipeline_stable(
    listing: Seq<RawEntry>,
    f: FilterOptions,
    s: SortOptions,
    e0: EntryModel,
)
    ensures
        !s.reverse ==> pipeline(listing, f, s).filter(tied_with(s.sort_key, e0)) == raw_models(
            listing,
        ).filter(keep_by(f)).filter(tied_with(s.sort_key, e0)),
        s.reverse ==> pipeline(listing, f, s).filter(tied_with(s.sort_key, e0)) == raw_models(
            listing,
        ).filter(keep_by(f)).filter(tied_with(s.sort_key, e0)).reverse(),
{
    let kept = raw_models(listing).filter(keep_by(f));
    if s.reverse {
        lemma_sort_reverse_stable(kept, s.sort_key, e0);
    } else {
        lemma_sort_by_key_stable(kept, s.sort_key, e0);
    }
}

/// Ordering law at the pipeline: the result is ordered by the sort key,
/// or exactly reverse-ordered when the reverse pass runs.
pub proof fn lemma_pipeline_sorted(listing: Seq<RawEntry>, f: FilterOptions, s: SortOptions)
    ensures
        !s.reverse ==> sorted_by_key(s.sort_key, pipeline(listing, f, s)),
        s.reverse ==> forall|i: int, j: int|
            0 <= i < j < pipeline(listing, f, s).len() ==> key_le(
                s.sort_key,
                pipeline(listing, f, s)[j],
                pipeline(listing, f, s)[i],
            ),
{
    let kept = raw_models(listing).filter(keep_by(f));
    let sorted = sort_by_key(kept, s.sort_key);
    lemma_sort_by_key_sorted(kept, s.sort_key);
    if s.reverse {
        assert forall|i: int, j: int|
            0 <= i < j < pipeline(listing, f, s).len() implies key_le(
            s.sort_key,
            pipeline(listing, f, s)[j],
            pipeline(listing, f, s)[i],
        ) by {
            assert(pipeline(listing, f, s)[i] == sorted[sorted.len() - 1 - i]);
            assert(pipeline(listing, f, s)[j] == sorted[sorted.len() - 1 - j]);
        }
    }
}

/// Shape law of the flat listing: entries come out of `get_entries`
/// with no children attached.
pub proof fn lemma_flat_children_empty(listing: Seq<RawEntry>, f: FilterOptions, s: SortOptions)
    ensures
        forall|i: int|
            0 <= i < pipeline(listing, f, s).len() ==> (#[trigger] pipeline(
                listing,
                f,
                s,
            )[i]).children == Seq::<EntryModel>::empty(),
{
    let all = raw_models(listing);
    let kept = all.filter(keep_by(f));
    let sorted = sort_by_key(kept, s.sort_key);
    lemma_sort_by_key_elems(kept, s.sort_key);
    lemma_filter_subset(all, keep_by(f));
    assert forall|i: int| 0 <= i < pipeline(listing, f, s).len() implies (#[trigger] pipeline(
        listing,
        f,
        s,
    )[i]).children == Seq::<EntryModel>::empty() by {
        let m = pipeline(listing, f, s)[i];
        if s.reverse {
            assert(m == sorted[sorted.len() - 1 - i]);
        }
        assert(kept.contains(m));
        let j1 = choose|j1: int| 0 <= j1 < kept.len() && kept[j1] == m;
        assert(all.contains(m));
        let j = choose|j: int| 0 <= j < all.len() && all[j] == m;
        assert(m == listing[j].model());
    }
}

/// Shape law of the tree: at every level of the recursive result, only
/// a directory ever carries children.
pub proof fn lemma_only_dirs_expanded(nodes: Seq<RawNode>, f: FilterOptions, s: SortOptions)
    ensures
        forall|i: int|
            0 <= i < tree_pipeline(nodes, f, s).len() ==> ((#[trigger] tree_pipeline(
                nodes,
                f,
                s,
            )[i]).kind != EntryKind::Dir ==> tree_pipeline(nodes, f, s)[i].children == Seq::<
                EntryModel,
            >::empty()),
{
    broadcast use group_node_models;

    let all = node_models(nodes, f, s);
    let kept = all.filter(keep_by(f));
    let sorted = sort_by_key(kept, s.sort_key);
    lemma_sort_by_key_elems(kept, s.sort_key);
    lemma_filter_subset(all, keep_by(f));
    assert forall|i: int| 0 <= i < tree_pipeline(nodes, f, s).len() implies ((
    #[trigger] tree_pipeline(nodes, f, s)[i]).kind != EntryKind::Dir ==> tree_pipeline(
        nodes,
        f,
        s,
    )[i].children == Seq::<EntryModel>::empty()) by {
        let m = tree_pipeline(nodes, f, s)[i];
        if s.reverse {
            assert(m == sorted[sorted.len() - 1 - i]);
        }
        assert(kept.contains(m));
        let j1 = choose|j1: int| 0 <= j1 < kept.len() && kept[j1] == m;
        assert(all.contains(m));
        let j = choose|j: int| 0 <= j < all.len() && all[j] == m;
        assert(m == node_model(nodes[j], f, s));
    }
}

/// No entry of a rendered tree, at any depth, bears a hidden name.
pub open spec fn no_hidden_tree(m: EntryModel) -> bool
    decreases m, 0int,
{
    !is_hidden(m.name) && no_hidden_forest(m.children)
}

pub open spec fn no_hidden_forest(ms: Seq<EntryModel>) -> bool
    decreases ms, 1int,
{
    ms.len() == 0 || (no_hidden_tree(ms[0]) && no_hidden_forest(ms.drop_first()))
}

proof fn lemma_no_hidden_forest_index(ms: Seq<EntryModel>)
    requires
        forall|i: int| 0 <= i < ms.len() ==> no_hidden_tree(#[trigger] ms[i]),
    ensures
        no_hidden_forest(ms),
    decreases ms.len(),
{
    if ms.len() > 0 {
        assert forall|i: int| 0 <= i < ms.drop_first().len() implies no_hidden_tree(
            #[trigger] ms.drop_first()[i],
        ) by {
            assert(ms.drop_first()[i] == ms[i + 1]);
        }
        lemma_no_hidden_forest_index(ms.drop_first());
    }
}

/// Hidden-file law through the whole tree: without `show_hidden`, no
/// entry at any depth of the recursive result bears a hidden name.
pub proof fn lemma_tree_hidden_absent(nodes: Seq<RawNode>, f: FilterOptions, s: SortOptions)
    requires
        !f.show_hidden,
    ensures
        no_hidden_forest(tree_pipeline(nodes, f, s)),
    decreases nodes,
{
    broadcast use group_node_models;
    broadcast use Seq::lemma_filter_pred;

    let all = node_models(nodes, f, s);
    let kept = all.filter(keep_by(f));
    let sorted = sort_by_key(kept, s.sort_key);
    let result = tree_pipeline(nodes, f, s);
    lemma_sort_by_key_elems(kept, s.sort_key);
    lemma_filter_subset(all, keep_by(f));
    assert forall|i: int| 0 <= i < result.len() implies no_hidden_tree(#[trigger] result[i]) by {
        let m = result[i];
        if s.reverse {
            assert(m == sorted[sorted.len() - 1 - i]);
        }
        assert(kept.contains(m));
        let j1 = choose|j1: int| 0 <= j1 < kept.len() && kept[j1] == m;
        assert(keep_by(f)(kept[j1]));
        assert(all.contains(m));
        let j = choose|j: int| 0 <= j < all.len() && all[j] == m;
        assert(m == node_model(nodes[j], f, s));
        if nodes[j].entry.kind == EntryKind::Dir {
            lemma_tree_hidden_absent(nodes[j].entries@, f, s);
        }
    }
    lemma_no_hidden_forest_index(result);
}

} // verus!
