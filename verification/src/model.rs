//! What a traversal shows, stated over the listings of the directories: the
//! rows of a tree as a recursive definition, and the proof that a
//! [`Walker`](crate::walker::Walker) that is handed those listings shows
//! exactly these rows, in this order.
//!
//! The listings are a map from a directory's path to its entries. A path that
//! the map does not hold is a directory that cannot be read.

use crate::config::{
    lemma_visible, lemma_visible_ignores_listing_order, shown, shown_by, visible, ConfigView,
};
use crate::entry::EntryView;
use crate::order::{ascending, distinct_paths};
use crate::render::{segment, RowView};
use crate::stats::{empty_tally, file_bytes, lemma_tally_from, tally_from, Tally};
use crate::walker::{
    frame_ok, initial, inv, lemma_segment_len, lemma_settled, next_of, settled, supplied,
    FrameView, StepView, WalkerView,
};
use vstd::prelude::*;

verus! {

/// The listing of a directory, if it can be read.
pub open spec fn lookup(fs: Map<Seq<char>, Seq<EntryView>>, path: Seq<char>) -> Option<
    Seq<EntryView>,
> {
    if fs.dom().contains(path) {
        Some(fs[path])
    } else {
        None
    }
}

/// The rows below the directory at `path`, whose entries are at `level` and
/// drawn behind `prefix`: none at the depth limit, none if the directory
/// cannot be read, else the rows of its shown entries.
pub open spec fn subtree(
    fs: Map<Seq<char>, Seq<EntryView>>,
    c: ConfigView,
    path: Seq<char>,
    prefix: Seq<char>,
    level: nat,
) -> Seq<RowView>
    decreases c.depth - level, 1nat, 0nat,
{
    if level >= c.depth || !fs.dom().contains(path) {
        Seq::empty()
    } else {
        siblings(fs, c, visible(fs[path], c), 0, prefix, level)
    }
}

/// The rows of the siblings `entries` from the one at `i` on: for each, its
/// own row and, if it is a directory, the rows below it.
pub open spec fn siblings(
    fs: Map<Seq<char>, Seq<EntryView>>,
    c: ConfigView,
    entries: Seq<EntryView>,
    i: nat,
    prefix: Seq<char>,
    level: nat,
) -> Seq<RowView>
    decreases c.depth - level, 0nat, entries.len() - i,
{
    if level >= c.depth || i >= entries.len() {
        Seq::empty()
    } else {
        let e = entries[i as int];
        let last = i + 1 == entries.len();
        let below = if e.is_dir {
            subtree(fs, c, e.path, prefix + segment(last), level + 1)
        } else {
            Seq::empty()
        };
        seq![RowView { entry: e, prefix, last, level }] + below + siblings(
            fs,
            c,
            entries,
            i + 1,
            prefix,
            level,
        )
    }
}

/// The rows of the whole tree below the root.
pub open spec fn tree_rows(fs: Map<Seq<char>, Seq<EntryView>>, c: ConfigView) -> Seq<RowView> {
    subtree(fs, c, c.root, Seq::empty(), 0)
}

/// The entries of a sequence of rows.
pub open spec fn entries_of(rows: Seq<RowView>) -> Seq<EntryView> {
    rows.map_values(|r: RowView| r.entry)
}

/// What is counted when `rows` are shown.
pub open spec fn tally_rows(rows: Seq<RowView>) -> Tally {
    tally_from(empty_tally(), entries_of(rows))
}

/// The rows that the open directories still have to show, innermost first.
pub open spec fn open_rows(
    fs: Map<Seq<char>, Seq<EntryView>>,
    c: ConfigView,
    stack: Seq<FrameView>,
) -> Seq<RowView>
    decreases stack.len(),
{
    if stack.len() == 0 {
        Seq::empty()
    } else {
        let f = stack.last();
        siblings(fs, c, f.entries, f.next, f.prefix, f.level) + open_rows(
            fs,
            c,
            stack.drop_last(),
        )
    }
}

/// The rows that a walker still has to show if its listings come from `fs`.
pub open spec fn remaining(fs: Map<Seq<char>, Seq<EntryView>>, w: WalkerView) -> Seq<RowView> {
    let awaited = match w.awaiting {
        Some(p) => subtree(fs, w.config, p.path, p.prefix, p.level),
        None => Seq::empty(),
    };
    awaited + open_rows(fs, w.config, w.stack)
}

/// A walker at its start has the whole tree to show.
pub proof fn lemma_remaining_initial(fs: Map<Seq<char>, Seq<EntryView>>, c: ConfigView)
    ensures
        remaining(fs, initial(c)) == tree_rows(fs, c),
{
}

proof fn lemma_open_rows_settled(
    fs: Map<Seq<char>, Seq<EntryView>>,
    c: ConfigView,
    stack: Seq<FrameView>,
)
    ensures
        open_rows(fs, c, settled(stack)) == open_rows(fs, c, stack),
    decreases stack.len(),
{
    if stack.len() > 0 && stack.last().next >= stack.last().entries.len() {
        lemma_open_rows_settled(fs, c, stack.drop_last());
    }
}

/// A step takes the first of the remaining rows, and nothing else: a shown
/// row is the first that remained, the others remain; a walker that asks for
/// a listing stays as it is; a walker that is done had no row left.
pub proof fn lemma_step_refines(fs: Map<Seq<char>, Seq<EntryView>>, w: WalkerView)
    requires
        inv(w),
    ensures
        match next_of(w).1 {
            StepView::Read(path) => next_of(w).0 == w && w.awaiting.is_some()
                && w.awaiting.unwrap().path == path,
            StepView::Show(row) => w.awaiting.is_none() && remaining(fs, w) == seq![row]
                + remaining(fs, next_of(w).0),
            StepView::Done => w.awaiting.is_none() && remaining(fs, w) == Seq::<RowView>::empty()
                && remaining(fs, next_of(w).0) == Seq::<RowView>::empty(),
        },
{
    let c = w.config;
    let stack = settled(w.stack);
    lemma_settled(w.stack, c.depth);
    lemma_open_rows_settled(fs, c, w.stack);
    if w.awaiting.is_none() && stack.len() > 0 {
        let f = stack.last();
        let e = f.entries[f.next as int];
        let last = f.next + 1 == f.entries.len();
        let row = RowView { entry: e, prefix: f.prefix, last, level: f.level };
        let below = if e.is_dir {
            subtree(fs, c, e.path, f.prefix + segment(last), f.level + 1)
        } else {
            Seq::empty()
        };
        let later = siblings(fs, c, f.entries, f.next + 1, f.prefix, f.level);
        // the innermost directory shows `row`, what lies below it, and the rest
        assert(siblings(fs, c, f.entries, f.next, f.prefix, f.level) == seq![row] + below
            + later);
        // after the step it has `later` left, and `below` is awaited or empty
        assert(next_of(w).0.stack.drop_last() =~= stack.drop_last());
    }
}

/// Handing a walker the listing that it asked for, as `fs` has it, leaves the
/// remaining rows as they were.
pub proof fn lemma_supply_refines(fs: Map<Seq<char>, Seq<EntryView>>, w: WalkerView)
    requires
        inv(w),
        w.awaiting.is_some(),
    ensures
        remaining(fs, supplied(w, lookup(fs, w.awaiting.unwrap().path))) == remaining(fs, w),
{
    let p = w.awaiting.unwrap();
    let after = supplied(w, lookup(fs, p.path));
    if fs.dom().contains(p.path) {
        assert(after.stack.drop_last() =~= w.stack);
    }
}

/// What holds of a row below a directory whose entries are at `level`: it
/// lies at that level or deeper and above the depth limit, its prefix has one
/// segment of four for each level, and the filter keeps its entry.
pub open spec fn row_ok(r: RowView, c: ConfigView, level: nat) -> bool {
    &&& level <= r.level < c.depth
    &&& r.prefix.len() == 4 * r.level
    &&& shown(r.entry, c)
}

proof fn lemma_subtree_shape(
    fs: Map<Seq<char>, Seq<EntryView>>,
    c: ConfigView,
    path: Seq<char>,
    prefix: Seq<char>,
    level: nat,
)
    requires
        prefix.len() == 4 * level,
    ensures
        forall|k: int|
            0 <= k < subtree(fs, c, path, prefix, level).len() ==> row_ok(
                #[trigger] subtree(fs, c, path, prefix, level)[k],
                c,
                level,
            ),
    decreases c.depth - level, 1nat, 0nat,
{
    if level >= c.depth || !fs.dom().contains(path) {
    } else {
        let entries = visible(fs[path], c);
        lemma_visible(fs[path], c);
        lemma_siblings_shape(fs, c, entries, 0, prefix, level);
        assert(subtree(fs, c, path, prefix, level) == siblings(fs, c, entries, 0, prefix, level));
    }
}

proof fn lemma_siblings_shape(
    fs: Map<Seq<char>, Seq<EntryView>>,
    c: ConfigView,
    entries: Seq<EntryView>,
    i: nat,
    prefix: Seq<char>,
    level: nat,
)
    requires
        prefix.len() == 4 * level,
        forall|j: int| 0 <= j < entries.len() ==> shown(#[trigger] entries[j], c),
    ensures
        forall|k: int|
            0 <= k < siblings(fs, c, entries, i, prefix, level).len() ==> row_ok(
                #[trigger] siblings(fs, c, entries, i, prefix, level)[k],
                c,
                level,
            ),
    decreases c.depth - level, 0nat, entries.len() - i,
{
    if level >= c.depth || i >= entries.len() {
    } else {
        let e = entries[i as int];
        let last = i + 1 == entries.len();
        let row = RowView { entry: e, prefix, last, level };
        let below = if e.is_dir {
            subtree(fs, c, e.path, prefix + segment(last), level + 1)
        } else {
            Seq::empty()
        };
        let later = siblings(fs, c, entries, i + 1, prefix, level);
        let all = siblings(fs, c, entries, i, prefix, level);
        if e.is_dir {
            lemma_segment_len(last);
            lemma_subtree_shape(fs, c, e.path, prefix + segment(last), level + 1);
        }
        lemma_siblings_shape(fs, c, entries, i + 1, prefix, level);
        assert forall|k: int| 0 <= k < all.len() implies row_ok(#[trigger] all[k], c, level) by {
            if k == 0 {
                assert(all[k] == row);
            } else if k < 1 + below.len() {
                assert(all[k] == below[k - 1]);
            } else {
                assert(all[k] == later[k - 1 - below.len()]);
            }
        }
    }
}

/// No row lies at or below the depth limit: every row of the tree has a level
/// under the limit, a prefix of one segment for each level, and an entry that
/// the filter keeps. With a limit of zero the tree has no rows.
pub proof fn lemma_tree_rows_shape(fs: Map<Seq<char>, Seq<EntryView>>, c: ConfigView)
    ensures
        forall|k: int|
            0 <= k < tree_rows(fs, c).len() ==> row_ok(#[trigger] tree_rows(fs, c)[k], c, 0),
        c.depth == 0 ==> tree_rows(fs, c).len() == 0,
{
    lemma_subtree_shape(fs, c, c.root, Seq::empty(), 0);
}

/// The rows at a given level.
pub open spec fn on_level(level: nat) -> spec_fn(RowView) -> bool {
    |r: RowView| r.level == level
}

proof fn lemma_deeper_rows_filtered(rows: Seq<RowView>, c: ConfigView, level: nat)
    requires
        forall|k: int| 0 <= k < rows.len() ==> row_ok(#[trigger] rows[k], c, level + 1),
    ensures
        rows.filter(on_level(level)) == Seq::<RowView>::empty(),
    decreases rows.len(),
{
    reveal(Seq::filter);
    if rows.len() > 0 {
        let rest = rows.drop_last();
        assert forall|k: int| 0 <= k < rest.len() implies row_ok(
            #[trigger] rest[k],
            c,
            level + 1,
        ) by {
            assert(rest[k] == rows[k]);
        }
        lemma_deeper_rows_filtered(rest, c, level);
    }
}

proof fn lemma_filter_none(level: nat)
    ensures
        Seq::<RowView>::empty().filter(on_level(level)) == Seq::<RowView>::empty(),
{
    reveal(Seq::filter);
}

proof fn lemma_filter_one(row: RowView)
    ensures
        seq![row].filter(on_level(row.level)) == seq![row],
{
    reveal(Seq::filter);
    lemma_filter_none(row.level);
}

proof fn lemma_siblings_in_order(
    fs: Map<Seq<char>, Seq<EntryView>>,
    c: ConfigView,
    entries: Seq<EntryView>,
    i: nat,
    prefix: Seq<char>,
    level: nat,
)
    requires
        prefix.len() == 4 * level,
        level < c.depth,
        i <= entries.len(),
    ensures
        entries_of(siblings(fs, c, entries, i, prefix, level).filter(on_level(level)))
            == entries.skip(i as int),
    decreases entries.len() - i,
{
    let keep = on_level(level);
    let all = siblings(fs, c, entries, i, prefix, level);
    if i >= entries.len() {
        lemma_filter_none(level);
    } else {
        let e = entries[i as int];
        let last = i + 1 == entries.len();
        let row = RowView { entry: e, prefix, last, level };
        let below = if e.is_dir {
            subtree(fs, c, e.path, prefix + segment(last), level + 1)
        } else {
            Seq::empty()
        };
        let later = siblings(fs, c, entries, i + 1, prefix, level);
        assert(below.filter(keep) == Seq::<RowView>::empty()) by {
            if e.is_dir {
                lemma_segment_len(last);
                lemma_subtree_shape(fs, c, e.path, prefix + segment(last), level + 1);
            }
            lemma_deeper_rows_filtered(below, c, level);
        }
        lemma_siblings_in_order(fs, c, entries, i + 1, prefix, level);
        lemma_filter_one(row);
        let kept = later.filter(keep);
        assert(all.filter(keep) == seq![row] + kept) by {
            Seq::filter_distributes_over_add(seq![row], below, keep);
            Seq::filter_distributes_over_add(seq![row] + below, later, keep);
        }
        assert(entries_of(seq![row] + kept) =~= seq![e] + entries_of(kept));
    }
}

/// The entries of a directory come out in the order in which they are
/// shown: among the rows below a directory that can be read, those of its own
/// level are its shown entries, ascending by path, whatever lies below them.
pub proof fn lemma_children_in_order(
    fs: Map<Seq<char>, Seq<EntryView>>,
    c: ConfigView,
    path: Seq<char>,
    prefix: Seq<char>,
    level: nat,
)
    requires
        prefix.len() == 4 * level,
        level < c.depth,
        fs.dom().contains(path),
    ensures
        entries_of(subtree(fs, c, path, prefix, level).filter(on_level(level))) == visible(
            fs[path],
            c,
        ),
        ascending(visible(fs[path], c)),
{
    let entries = visible(fs[path], c);
    lemma_visible(fs[path], c);
    lemma_siblings_in_order(fs, c, entries, 0, prefix, level);
}

/// Every row is counted once, as a directory or as a file, and the bytes are
/// those of the files whose size could be read: the two counts add up to the
/// number of rows.
pub proof fn lemma_tally_counts_rows(rows: Seq<RowView>)
    ensures
        tally_rows(rows).dirs + tally_rows(rows).files == rows.len(),
        tally_rows(rows).dirs == entries_of(rows).filter(|e: EntryView| e.is_dir).len(),
        tally_rows(rows).files == entries_of(rows).filter(|e: EntryView| !e.is_dir).len(),
        tally_rows(rows).bytes == entries_of(rows).fold_left(
            0nat,
            |sum: nat, e: EntryView| sum + file_bytes(e),
        ),
{
    lemma_tally_from(empty_tally(), entries_of(rows));
}

/// Two settings that differ only in whether they count.
pub open spec fn same_but_counting(c: ConfigView, d: ConfigView) -> bool {
    &&& c.root == d.root
    &&& c.depth == d.depth
    &&& c.show_all == d.show_all
    &&& c.ignores == d.ignores
    &&& c.includes == d.includes
}

proof fn lemma_subtree_ignores_counting(
    fs: Map<Seq<char>, Seq<EntryView>>,
    c: ConfigView,
    d: ConfigView,
    path: Seq<char>,
    prefix: Seq<char>,
    level: nat,
)
    requires
        same_but_counting(c, d),
    ensures
        subtree(fs, c, path, prefix, level) == subtree(fs, d, path, prefix, level),
    decreases c.depth - level, 1nat, 0nat,
{
    if level >= c.depth || !fs.dom().contains(path) {
    } else {
        assert(shown_by(c) =~= shown_by(d));
        lemma_siblings_ignore_counting(fs, c, d, visible(fs[path], c), 0, prefix, level);
    }
}

proof fn lemma_siblings_ignore_counting(
    fs: Map<Seq<char>, Seq<EntryView>>,
    c: ConfigView,
    d: ConfigView,
    entries: Seq<EntryView>,
    i: nat,
    prefix: Seq<char>,
    level: nat,
)
    requires
        same_but_counting(c, d),
    ensures
        siblings(fs, c, entries, i, prefix, level) == siblings(fs, d, entries, i, prefix, level),
    decreases c.depth - level, 0nat, entries.len() - i,
{
    if level >= c.depth || i >= entries.len() {
    } else {
        let e = entries[i as int];
        let last = i + 1 == entries.len();
        if e.is_dir {
            lemma_subtree_ignores_counting(fs, c, d, e.path, prefix + segment(last), level + 1);
        }
        lemma_siblings_ignore_counting(fs, c, d, entries, i + 1, prefix, level);
    }
}

/// The rows of a tree are a function of the listings and of the settings
/// that choose and order entries: counting changes none of them.
pub proof fn lemma_rows_ignore_counting(
    fs: Map<Seq<char>, Seq<EntryView>>,
    c: ConfigView,
    d: ConfigView,
)
    requires
        same_but_counting(c, d),
    ensures
        tree_rows(fs, c) == tree_rows(fs, d),
{
    lemma_subtree_ignores_counting(fs, c, d, c.root, Seq::empty(), 0);
}

/// Two sets of listings that list the same directories with the same
/// entries, in whatever order, no two entries of a directory with the same
/// path.
pub open spec fn same_entries(
    a: Map<Seq<char>, Seq<EntryView>>,
    b: Map<Seq<char>, Seq<EntryView>>,
) -> bool {
    &&& forall|p: Seq<char>| a.dom().contains(p) == b.dom().contains(p)
    &&& forall|p: Seq<char>|
        a.dom().contains(p) ==> distinct_paths(#[trigger] a[p]) && a[p].to_multiset()
            == b[p].to_multiset()
}

proof fn lemma_subtree_ignores_listing_order(
    a: Map<Seq<char>, Seq<EntryView>>,
    b: Map<Seq<char>, Seq<EntryView>>,
    c: ConfigView,
    path: Seq<char>,
    prefix: Seq<char>,
    level: nat,
)
    requires
        same_entries(a, b),
    ensures
        subtree(a, c, path, prefix, level) == subtree(b, c, path, prefix, level),
    decreases c.depth - level, 1nat, 0nat,
{
    if level < c.depth && a.dom().contains(path) {
        assert(distinct_paths(a[path]));
        lemma_visible_ignores_listing_order(a[path], b[path], c);
        lemma_siblings_ignore_listing_order(a, b, c, visible(a[path], c), 0, prefix, level);
    }
}

proof fn lemma_siblings_ignore_listing_order(
    a: Map<Seq<char>, Seq<EntryView>>,
    b: Map<Seq<char>, Seq<EntryView>>,
    c: ConfigView,
    entries: Seq<EntryView>,
    i: nat,
    prefix: Seq<char>,
    level: nat,
)
    requires
        same_entries(a, b),
    ensures
        siblings(a, c, entries, i, prefix, level) == siblings(b, c, entries, i, prefix, level),
    decreases c.depth - level, 0nat, entries.len() - i,
{
    if level < c.depth && i < entries.len() {
        let e = entries[i as int];
        let last = i + 1 == entries.len();
        if e.is_dir {
            lemma_subtree_ignores_listing_order(
                a,
                b,
                c,
                e.path,
                prefix + segment(last),
                level + 1,
            );
        }
        lemma_siblings_ignore_listing_order(a, b, c, entries, i + 1, prefix, level);
    }
}

/// The rows of a tree do not depend on the order in which the directories
/// list their entries: two sets of listings with the same entries, no two
/// entries of a directory with the same path, give the same rows.
pub proof fn lemma_rows_ignore_listing_order(
    a: Map<Seq<char>, Seq<EntryView>>,
    b: Map<Seq<char>, Seq<EntryView>>,
    c: ConfigView,
)
    requires
        same_entries(a, b),
    ensures
        tree_rows(a, c) == tree_rows(b, c),
{
    lemma_subtree_ignores_listing_order(a, b, c, c.root, Seq::empty(), 0);
}

} // verus!
