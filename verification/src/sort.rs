//! The sort engine: a stable insertion sort of entry models by a chosen
//! key, with the reverse pass applied afterwards.

use vstd::prelude::*;
use vstd::string::StrSliceExecFns;

use crate::entries_handler::SortKey;
use crate::entry::{group_models_of, models_of, ts_le, Entry, EntryModel, Timestamp};

verus! {

/// Lexicographic order on character sequences, by code point.
pub open spec fn lex_le(a: Seq<char>, b: Seq<char>) -> bool
    decreases a.len(),
{
    if a.len() == 0 {
        true
    } else if b.len() == 0 {
        false
    } else if (a[0] as u32) < (b[0] as u32) {
        true
    } else if (a[0] as u32) > (b[0] as u32) {
        false
    } else {
        lex_le(a.drop_first(), b.drop_first())
    }
}

proof fn lemma_lex_le_total(a: Seq<char>, b: Seq<char>)
    ensures
        lex_le(a, b) || lex_le(b, a),
    decreases a.len(),
{
    if a.len() > 0 && b.len() > 0 && (a[0] as u32) == (b[0] as u32) {
        lemma_lex_le_total(a.drop_first(), b.drop_first());
    }
}

proof fn lemma_lex_le_trans(a: Seq<char>, b: Seq<char>, c: Seq<char>)
    requires
        lex_le(a, b),
        lex_le(b, c),
    ensures
        lex_le(a, c),
    decreases a.len(),
{
    if a.len() > 0 && b.len() > 0 && c.len() > 0 && (a[0] as u32) == (b[0] as u32) && (b[0] as u32)
        == (c[0] as u32) {
        lemma_lex_le_trans(a.drop_first(), b.drop_first(), c.drop_first());
    }
}

/// `a` sorts no later than `b` under the key `k`.
pub open spec fn key_le(k: SortKey, a: EntryModel, b: EntryModel) -> bool {
    match k {
        SortKey::Name => lex_le(a.name, b.name),
        SortKey::Created => ts_le(a.ctime, b.ctime),
        SortKey::Modified => ts_le(a.mtime, b.mtime),
        SortKey::Size => a.size <= b.size,
    }
}

/// `a` and `b` are tied under `k`: neither sorts strictly before the other.
pub open spec fn same_key(k: SortKey, a: EntryModel, b: EntryModel) -> bool {
    key_le(k, a, b) && key_le(k, b, a)
}

/// The entries tied with `e0` under `k`: the subsequence a stable sort
/// must keep in enumeration order.
pub open spec fn tied_with(k: SortKey, e0: EntryModel) -> spec_fn(EntryModel) -> bool {
    |e: EntryModel| same_key(k, e, e0)
}

pub proof fn lemma_key_le_total(k: SortKey, a: EntryModel, b: EntryModel)
    ensures
        key_le(k, a, b) || key_le(k, b, a),
{
    if k == SortKey::Name {
        lemma_lex_le_total(a.name, b.name);
    }
}

pub proof fn lemma_key_le_trans(k: SortKey, a: EntryModel, b: EntryModel, c: EntryModel)
    requires
        key_le(k, a, b),
        key_le(k, b, c),
    ensures
        key_le(k, a, c),
{
    if k == SortKey::Name {
        lemma_lex_le_trans(a.name, b.name, c.name);
    }
}

/// The sequence is ordered by `k`.
pub open spec fn sorted_by_key(k: SortKey, s: Seq<EntryModel>) -> bool {
    forall|i: int, j: int| 0 <= i < j < s.len() ==> key_le(k, s[i], s[j])
}

/// `x` placed into `s` behind every element that sorts no later than `x`.
pub open spec fn insert_sorted(s: Seq<EntryModel>, x: EntryModel, k: SortKey) -> Seq<EntryModel>
    decreases s.len(),
{
    if s.len() > 0 && key_le(k, s[0], x) {
        seq![s[0]] + insert_sorted(s.drop_first(), x, k)
    } else {
        seq![x] + s
    }
}

/// The stable sort of `s` by `k`: every element inserted, in enumeration
/// order, behind all of its ties.
pub open spec fn sort_by_key(s: Seq<EntryModel>, k: SortKey) -> Seq<EntryModel>
    decreases s.len(),
{
    if s.len() == 0 {
        Seq::empty()
    } else {
        insert_sorted(sort_by_key(s.drop_last(), k), s.last(), k)
    }
}

proof fn lemma_sorted_drop_first(k: SortKey, s: Seq<EntryModel>)
    requires
        sorted_by_key(k, s),
        s.len() > 0,
    ensures
        sorted_by_key(k, s.drop_first()),
{
    assert forall|i: int, j: int|
        0 <= i < j < s.drop_first().len() implies key_le(
        k,
        s.drop_first()[i],
        s.drop_first()[j],
    ) by {
        assert(s.drop_first()[i] == s[i + 1]);
        assert(s.drop_first()[j] == s[j + 1]);
    }
}

proof fn lemma_insert_sorted_elems(s: Seq<EntryModel>, x: EntryModel, k: SortKey)
    ensures
        insert_sorted(s, x, k).len() == s.len() + 1,
        forall|i: int|
            0 <= i < insert_sorted(s, x, k).len() ==> (s.contains(
                #[trigger] insert_sorted(s, x, k)[i],
            ) || insert_sorted(s, x, k)[i] == x),
    decreases s.len(),
{
    let r = insert_sorted(s, x, k);
    if s.len() > 0 && key_le(k, s[0], x) {
        lemma_insert_sorted_elems(s.drop_first(), x, k);
        let r1 = insert_sorted(s.drop_first(), x, k);
        assert forall|i: int| 0 <= i < r.len() implies (s.contains(r[i]) || r[i] == x) by {
            if i == 0 {
                assert(s[0] == r[0]);
            } else {
                assert(r[i] == r1[i - 1]);
                if s.drop_first().contains(r1[i - 1]) {
                    let m = choose|m: int|
                        0 <= m < s.drop_first().len() && s.drop_first()[m] == r1[i - 1];
                    assert(s[m + 1] == r1[i - 1]);
                }
            }
        }
    } else {
        assert forall|i: int| 0 <= i < r.len() implies (s.contains(r[i]) || r[i] == x) by {
            if i > 0 {
                assert(r[i] == s[i - 1]);
            }
        }
    }
}

proof fn lemma_insert_sorted_sorted(s: Seq<EntryModel>, x: EntryModel, k: SortKey)
    requires
        sorted_by_key(k, s),
    ensures
        sorted_by_key(k, insert_sorted(s, x, k)),
    decreases s.len(),
{
    let r = insert_sorted(s, x, k);
    if s.len() > 0 && key_le(k, s[0], x) {
        lemma_sorted_drop_first(k, s);
        lemma_insert_sorted_sorted(s.drop_first(), x, k);
        lemma_insert_sorted_elems(s.drop_first(), x, k);
        let r1 = insert_sorted(s.drop_first(), x, k);
        assert forall|i: int, j: int| 0 <= i < j < r.len() implies key_le(k, r[i], r[j]) by {
            if i == 0 {
                assert(r[j] == r1[j - 1]);
                if r1[j - 1] == x {
                } else {
                    assert(s.drop_first().contains(r1[j - 1]));
                    let m = choose|m: int|
                        0 <= m < s.drop_first().len() && s.drop_first()[m] == r1[j - 1];
                    assert(s[m + 1] == r1[j - 1]);
                    assert(key_le(k, s[0], s[m + 1]));
                }
            } else {
                assert(r[i] == r1[i - 1]);
                assert(r[j] == r1[j - 1]);
            }
        }
    } else {
        assert forall|i: int, j: int| 0 <= i < j < r.len() implies key_le(k, r[i], r[j]) by {
            if i == 0 {
                assert(r[j] == s[j - 1]);
                lemma_key_le_total(k, s[0], x);
                if j > 1 {
                    assert(key_le(k, s[0], s[j - 1]));
                    lemma_key_le_trans(k, x, s[0], s[j - 1]);
                }
            } else {
                assert(r[i] == s[i - 1]);
                assert(r[j] == s[j - 1]);
            }
        }
    }
}

/// Every element a filter keeps comes from the filtered sequence.
pub proof fn lemma_filter_subset(s: Seq<EntryModel>, p: spec_fn(EntryModel) -> bool)
    ensures
        forall|i: int| 0 <= i < s.filter(p).len() ==> s.contains(#[trigger] s.filter(p)[i]),
    decreases s.len(),
{
    reveal(Seq::filter);
    if s.len() > 0 {
        lemma_filter_subset(s.drop_last(), p);
        let r = s.filter(p);
        let sub = s.drop_last().filter(p);
        assert forall|i: int| 0 <= i < r.len() implies s.contains(r[i]) by {
            if i < sub.len() {
                assert(sub.contains(sub[i]));
                let j = choose|j: int| 0 <= j < s.drop_last().len() && s.drop_last()[j] == sub[i];
                assert(s[j] == sub[i]);
            } else {
                assert(r[i] == s.last());
                assert(s[s.len() - 1] == s.last());
            }
        }
    }
}

/// A filter whose predicate holds of no element keeps nothing.
pub proof fn lemma_filter_none(s: Seq<EntryModel>, p: spec_fn(EntryModel) -> bool)
    requires
        forall|i: int| 0 <= i < s.len() ==> !p(#[trigger] s[i]),
    ensures
        s.filter(p) == Seq::<EntryModel>::empty(),
    decreases s.len(),
{
    reveal(Seq::filter);
    if s.len() > 0 {
        lemma_filter_none(s.drop_last(), p);
    } else {
        assert(s.filter(p) =~= Seq::<EntryModel>::empty());
    }
}

proof fn lemma_insert_sorted_filter(s: Seq<EntryModel>, x: EntryModel, k: SortKey, e0: EntryModel)
    requires
        sorted_by_key(k, s),
    ensures
        insert_sorted(s, x, k).filter(tied_with(k, e0)) == s.filter(tied_with(k, e0)) + (if same_key(
            k,
            x,
            e0,
        ) {
            seq![x]
        } else {
            Seq::<EntryModel>::empty()
        }),
    decreases s.len(),
{
    broadcast use Seq::lemma_filter_prepend;

    let p = tied_with(k, e0);
    let tail: Seq<EntryModel> = if same_key(k, x, e0) {
        seq![x]
    } else {
        Seq::empty()
    };
    let r = insert_sorted(s, x, k);
    if s.len() > 0 && key_le(k, s[0], x) {
        lemma_sorted_drop_first(k, s);
        lemma_insert_sorted_filter(s.drop_first(), x, k, e0);
        let head: Seq<EntryModel> = if p(s[0]) {
            seq![s[0]]
        } else {
            Seq::empty()
        };
        let r1 = insert_sorted(s.drop_first(), x, k);
        assert(r == seq![s[0]] + r1);
        assert(r.filter(p) == head + r1.filter(p));
        assert(s =~= seq![s[0]] + s.drop_first());
        assert(s.filter(p) == head + s.drop_first().filter(p));
        assert((head + s.drop_first().filter(p)) + tail =~= head + (s.drop_first().filter(p)
            + tail));
    } else {
        assert(r == seq![x] + s);
        if same_key(k, x, e0) {
            assert forall|i: int| 0 <= i < s.len() implies !p(#[trigger] s[i]) by {
                if p(s[i]) {
                    lemma_key_le_trans(k, s[i], e0, x);
                    if i > 0 {
                        assert(key_le(k, s[0], s[i]));
                        lemma_key_le_trans(k, s[0], s[i], x);
                    }
                    assert(false);
                }
            }
            lemma_filter_none(s, p);
            assert(r.filter(p) == seq![x] + s.filter(p));
            assert(seq![x] + s.filter(p) =~= s.filter(p) + seq![x]);
        } else {
            assert(r.filter(p) == Seq::<EntryModel>::empty() + s.filter(p));
            assert(Seq::<EntryModel>::empty() + s.filter(p) =~= s.filter(p) + tail);
        }
    }
}

/// Ordering law: the sort leaves the sequence ordered by the chosen key.
pub proof fn lemma_sort_by_key_sorted(s: Seq<EntryModel>, k: SortKey)
    ensures
        sorted_by_key(k, sort_by_key(s, k)),
    decreases s.len(),
{
    if s.len() > 0 {
        lemma_sort_by_key_sorted(s.drop_last(), k);
        lemma_insert_sorted_sorted(sort_by_key(s.drop_last(), k), s.last(), k);
    }
}

/// Permutation law: every entry of the sorted sequence comes from the
/// input, and the lengths agree.
pub proof fn lemma_sort_by_key_elems(s: Seq<EntryModel>, k: SortKey)
    ensures
        sort_by_key(s, k).len() == s.len(),
        forall|i: int|
            0 <= i < sort_by_key(s, k).len() ==> s.contains(#[trigger] sort_by_key(s, k)[i]),
    decreases s.len(),
{
    let r = sort_by_key(s, k);
    if s.len() > 0 {
        lemma_sort_by_key_elems(s.drop_last(), k);
        lemma_insert_sorted_elems(sort_by_key(s.drop_last(), k), s.last(), k);
        let r1 = sort_by_key(s.drop_last(), k);
        assert forall|i: int| 0 <= i < r.len() implies s.contains(r[i]) by {
            if r[i] == s.last() {
                assert(s[s.len() - 1] == s.last());
            } else {
                assert(r1.contains(r[i]));
                let m = choose|m: int| 0 <= m < r1.len() && r1[m] == r[i];
                assert(s.drop_last().contains(r1[m]));
                let n = choose|n: int| 0 <= n < s.drop_last().len() && s.drop_last()[n] == r1[m];
                assert(s[n] == r[i]);
            }
        }
    }
}

/// Stability law: under every sort key, entries that compare equal keep
/// their relative enumeration order through the sort.
pub proof fn lemma_sort_by_key_stable(s: Seq<EntryModel>, k: SortKey, e0: EntryModel)
    ensures
        sort_by_key(s, k).filter(tied_with(k, e0)) == s.filter(tied_with(k, e0)),
    decreases s.len(),
{
    broadcast use Seq::lemma_filter_push;

    let p = tied_with(k, e0);
    if s.len() == 0 {
        reveal(Seq::filter);
        assert(sort_by_key(s, k).filter(p) =~= s.filter(p));
    } else {
        lemma_sort_by_key_stable(s.drop_last(), k, e0);
        lemma_sort_by_key_sorted(s.drop_last(), k);
        lemma_insert_sorted_filter(sort_by_key(s.drop_last(), k), s.last(), k, e0);
        assert(s =~= s.drop_last().push(s.last()));
        assert(s.filter(p) == if p(s.last()) {
            s.drop_last().filter(p).push(s.last())
        } else {
            s.drop_last().filter(p)
        });
        if p(s.last()) {
            assert(s.drop_last().filter(p) + seq![s.last()] =~= s.drop_last().filter(p).push(
                s.last(),
            ));
        } else {
            assert(s.drop_last().filter(p) + Seq::<EntryModel>::empty() =~= s.drop_last().filter(
                p,
            ));
        }
    }
}

proof fn lemma_filter_reverse(s: Seq<EntryModel>, p: spec_fn(EntryModel) -> bool)
    ensures
        s.reverse().filter(p) == s.filter(p).reverse(),
    decreases s.len(),
{
    broadcast use Seq::lemma_filter_prepend, Seq::lemma_filter_push;

    if s.len() == 0 {
        reveal(Seq::filter);
        assert(s.reverse().filter(p) =~= s.filter(p).reverse());
    } else {
        lemma_filter_reverse(s.drop_last(), p);
        assert(s.reverse() =~= seq![s.last()] + s.drop_last().reverse());
        assert(s =~= s.drop_last().push(s.last()));
        if p(s.last()) {
            assert(s.filter(p).reverse() =~= seq![s.last()] + s.drop_last().filter(p).reverse());
        } else {
            assert(s.filter(p).reverse() =~= s.drop_last().filter(p).reverse());
            assert(Seq::<EntryModel>::empty() + s.drop_last().reverse().filter(p)
                =~= s.drop_last().reverse().filter(p));
        }
    }
}

/// Stability past the reverse pass: with `reverse` set, entries that
/// compare equal come out in reverse enumeration order.
pub proof fn lemma_sort_reverse_stable(s: Seq<EntryModel>, k: SortKey, e0: EntryModel)
    ensures
        sort_by_key(s, k).reverse().filter(tied_with(k, e0)) == s.filter(
            tied_with(k, e0),
        ).reverse(),
{
    lemma_sort_by_key_stable(s, k, e0);
    lemma_filter_reverse(sort_by_key(s, k), tied_with(k, e0));
}

proof fn lemma_insert_sorted_at(s: Seq<EntryModel>, x: EntryModel, k: SortKey, j: int)
    requires
        0 <= j <= s.len(),
        forall|m: int| 0 <= m < j ==> key_le(k, #[trigger] s[m], x),
        j == s.len() || !key_le(k, s[j], x),
    ensures
        insert_sorted(s, x, k) == s.insert(j, x),
    decreases s.len(),
{
    if j == 0 {
        assert(seq![x] + s =~= s.insert(0, x));
    } else {
        lemma_insert_sorted_at(s.drop_first(), x, k, j - 1);
        assert(seq![s[0]] + s.drop_first().insert(j - 1, x) =~= s.insert(j, x));
    }
}

/// Decides `lex_le` on the characters of two strings.
fn str_le(a: &String, b: &String) -> (r: bool)
    ensures
        r == lex_le(a@, b@),
{
    let alen = a.as_str().unicode_len();
    let blen = b.as_str().unicode_len();
    let mut i: usize = 0;
    proof {
        assert(a@.skip(0) =~= a@);
        assert(b@.skip(0) =~= b@);
    }
    loop
        invariant
            i <= alen,
            i <= blen,
            alen == a@.len(),
            blen == b@.len(),
            lex_le(a@, b@) == lex_le(a@.skip(i as int), b@.skip(i as int)),
        decreases alen - i,
    {
        if i >= alen {
            return true;
        }
        if i >= blen {
            return false;
        }
        let ca = a.as_str().get_char(i);
        let cb = b.as_str().get_char(i);
        proof {
            assert(a@.skip(i as int)[0] == a@[i as int]);
            assert(b@.skip(i as int)[0] == b@[i as int]);
            assert(a@.skip(i as int).drop_first() =~= a@.skip(i as int + 1));
            assert(b@.skip(i as int).drop_first() =~= b@.skip(i as int + 1));
        }
        if (ca as u32) < (cb as u32) {
            return true;
        }
        if (ca as u32) > (cb as u32) {
            return false;
        }
        i = i + 1;
    }
}

/// Decides `ts_le`.
fn ts_le_exec(a: Timestamp, b: Timestamp) -> (r: bool)
    ensures
        r == ts_le(a, b),
{
    a.secs < b.secs || (a.secs == b.secs && a.nanos <= b.nanos)
}

/// Decides `key_le` on two entries.
fn entry_le(k: SortKey, a: &Entry, b: &Entry) -> (r: bool)
    ensures
        r == key_le(k, a.model(), b.model()),
{
    match k {
        SortKey::Name => str_le(&a.name, &b.name),
        SortKey::Created => ts_le_exec(a.ctime, b.ctime),
        SortKey::Modified => ts_le_exec(a.mtime, b.mtime),
        SortKey::Size => a.size <= b.size,
    }
}

/// Places `x` into the sorted vector behind every element that sorts no
/// later than `x`.
fn insert_entry(out: &mut Vec<Entry>, x: Entry, k: SortKey)
    ensures
        models_of(final (out)@) == insert_sorted(models_of(old(out)@), x.model(), k),
{
    broadcast use group_models_of;

    let mut j: usize = 0;
    while j < out.len() && entry_le(k, &out[j], &x)
        invariant
            j <= out@.len(),
            out@ == old(out)@,
            forall|m: int| 0 <= m < j ==> key_le(k, #[trigger] out@[m].model(), x.model()),
        decreases out@.len() - j,
    {
        j = j + 1;
    }
    let ghost before = models_of(out@);
    proof {
        assert forall|m: int| 0 <= m < j implies key_le(k, #[trigger] before[m], x.model()) by {}
        lemma_insert_sorted_at(before, x.model(), k, j as int);
    }
    out.insert(j, x);
    proof {
        assert forall|i: int| 0 <= i < models_of(out@).len() implies models_of(out@)[i]
            == before.insert(j as int, x.model())[i] by {
            assert(models_of(out@)[i] == out@[i].model());
        }
        assert(models_of(out@) =~= before.insert(j as int, x.model()));
    }
}

/// The sort pass: returns the entries stably sorted by `k`.
pub fn sort_entries(entries: Vec<Entry>, k: SortKey) -> (r: Vec<Entry>)
    ensures
        models_of(r@) == sort_by_key(models_of(entries@), k),
{
    broadcast use group_models_of;

    let ghost orig = models_of(entries@);
    let mut rest = entries;
    let mut out: Vec<Entry> = Vec::new();
    let ghost mut done: Seq<EntryModel> = Seq::empty();
    proof {
        assert(models_of(out@) =~= sort_by_key(done, k));
        assert(done + models_of(rest@) =~= orig);
    }
    while rest.len() > 0
        invariant
            done + models_of(rest@) == orig,
            models_of(out@) == sort_by_key(done, k),
        decreases rest@.len(),
    {
        let ghost rest_before = models_of(rest@);
        let ghost done_before = done;
        let x = rest.remove(0);
        insert_entry(&mut out, x, k);
        proof {
            assert(models_of(rest@) =~= rest_before.drop_first());
            assert(x.model() == rest_before[0]);
            done = done.push(x.model());
            assert(done.drop_last() =~= done_before);
            assert(sort_by_key(done, k) == insert_sorted(
                sort_by_key(done_before, k),
                x.model(),
                k,
            ));
            assert(done + models_of(rest@) =~= done_before + rest_before);
        }
    }
    proof {
        assert(models_of(rest@) =~= Seq::<EntryModel>::empty());
        assert(done + models_of(rest@) =~= done);
    }
    out
}

/// The reverse pass: returns the entries in reverse order.
pub fn reverse_entries(entries: Vec<Entry>) -> (r: Vec<Entry>)
    ensures
        models_of(r@) == models_of(entries@).reverse(),
{
    let ghost orig = entries@;
    let mut rest = entries;
    let mut out: Vec<Entry> = Vec::new();
    while rest.len() > 0
        invariant
            rest@ == orig.take(rest@.len() as int),
            out@.len() + rest@.len() == orig.len(),
            forall|m: int| 0 <= m < out@.len() ==> #[trigger] out@[m] == orig[orig.len() - 1 - m],
        decreases rest@.len(),
    {
        let x = rest.pop().unwrap();
        out.push(x);
        proof {
            assert(rest@ =~= orig.take(rest@.len() as int));
        }
    }
    proof {
        broadcast use group_models_of;

        assert(models_of(out@) =~= models_of(orig).reverse());
    }
    out
}

} // verus!
