//! A traversal over listings that are held in memory.
//!
//! A [`Snapshot`] maps paths to listings. [`walk`] drives a walker over it to
//! the end and returns the rows of the tree and what was counted.

use crate::config::Config;
use crate::entry::{views, Entry, EntryView};
use crate::model::{
    entries_of, lemma_remaining_initial, lemma_step_refines, lemma_supply_refines,
    lemma_tally_counts_rows, lemma_tree_rows_shape, lookup, remaining, row_ok, tally_rows,
    tree_rows,
};
use crate::render::{row_views, Row, RowView};
use crate::stats::{
    counted, empty_tally, fits, lemma_tally_from_concat, lemma_tally_from_grows, stats_view,
    Stats, Tally,
};
use crate::text::str_eq;
use crate::walker::{inv, listing_view, next_of, Step, Walker};
use vstd::prelude::*;

verus! {

/// The listing of one directory.
struct Listing {
    path: String,
    entries: Vec<Entry>,
}

/// The listings of the directories that can be read, by path.
pub struct Snapshot {
    dirs: Vec<Listing>,
}

/// The map that a sequence of listings stands for: a later listing of a path
/// replaces an earlier one.
spec fn map_of(dirs: Seq<Listing>) -> Map<Seq<char>, Seq<EntryView>>
    decreases dirs.len(),
{
    if dirs.len() == 0 {
        Map::empty()
    } else {
        map_of(dirs.drop_last()).insert(dirs.last().path@, views(dirs.last().entries@))
    }
}

impl View for Snapshot {
    type V = Map<Seq<char>, Seq<EntryView>>;

    closed spec fn view(&self) -> Map<Seq<char>, Seq<EntryView>> {
        map_of(self.dirs@)
    }
}

/// A copy of the entries, each with the same value.
pub fn duplicate_entries(entries: &Vec<Entry>) -> (out: Vec<Entry>)
    ensures
        views(out@) == views(entries@),
{
    let mut out: Vec<Entry> = Vec::new();
    let mut i: usize = 0;
    while i < entries.len()
        invariant
            i <= entries.len(),
            views(out@) == views(entries@).take(i as int),
        decreases entries.len() - i,
    {
        out.push(entries[i].duplicate());
        assert(views(entries@).take(i + 1) =~= views(entries@).take(i as int).push(
            entries@[i as int]@,
        ));
        i += 1;
    }
    out
}

impl Snapshot {
    /// A snapshot in which no directory can be read.
    pub fn new() -> (s: Snapshot)
        ensures
            s@ == Map::<Seq<char>, Seq<EntryView>>::empty(),
    {
        Snapshot { dirs: Vec::new() }
    }

    /// Sets the listing of the directory at `path`.
    pub fn add(&mut self, path: String, entries: Vec<Entry>)
        ensures
            final(self)@ == old(self)@.insert(path@, views(entries@)),
    {
        let ghost before = self.dirs@;
        self.dirs.push(Listing { path, entries });
        assert(self.dirs@.drop_last() =~= before);
    }

    /// The listing of the directory at `path`: `None` if it cannot be read.
    pub fn list(&self, path: &str) -> (listing: Option<Vec<Entry>>)
        ensures
            listing_view(listing) == lookup(self@, path@),
    {
        let mut i: usize = self.dirs.len();
        assert(self.dirs@.take(i as int) =~= self.dirs@);
        while i > 0
            invariant
                i <= self.dirs.len(),
                lookup(self@, path@) == lookup(map_of(self.dirs@.take(i as int)), path@),
            decreases i,
        {
            let ghost part = self.dirs@.take(i as int);
            assert(part.drop_last() =~= self.dirs@.take(i - 1));
            if str_eq(self.dirs[i - 1].path.as_str(), path) {
                return Some(duplicate_entries(&self.dirs[i - 1].entries));
            }
            i -= 1;
        }
        None
    }
}

/// The end of a traversal.
#[derive(Debug)]
pub struct Outcome {
    /// The rows of the tree, in the order in which they are shown.
    pub rows: Vec<Row>,
    /// What was counted, if the traversal was asked to count.
    pub stats: Option<Stats>,
}

/// What a traversal that shows `rows` has counted: their tally if it counts,
/// else nothing.
pub open spec fn counted_for(collect: bool, rows: Seq<RowView>) -> Option<Tally> {
    if collect {
        Some(tally_rows(rows))
    } else {
        None
    }
}

proof fn lemma_tally_push(rows: Seq<RowView>, row: RowView)
    ensures
        tally_rows(rows.push(row)) == counted(tally_rows(rows), row.entry),
{
    assert(entries_of(rows.push(row)).drop_last() =~= entries_of(rows));
}

proof fn lemma_tally_prefix(done: Seq<RowView>, rest: Seq<RowView>)
    ensures
        fits(tally_rows(done + rest)) ==> fits(tally_rows(done)),
{
    assert(entries_of(done + rest) =~= entries_of(done) + entries_of(rest));
    lemma_tally_from_concat(empty_tally(), entries_of(done), entries_of(rest));
    lemma_tally_from_grows(tally_rows(done), entries_of(rest));
}

/// Walks the tree below the root of `config` with the listings of `snapshot`.
///
/// The outcome holds the rows of the tree and, if the traversal counts, their
/// tally. There is none exactly when the traversal counts and the tally of
/// the tree does not fit the counters.
pub fn walk(snapshot: &Snapshot, config: Config) -> (outcome: Option<Outcome>)
    ensures
        outcome is Some <==> (config@.collect_stats ==> fits(
            tally_rows(tree_rows(snapshot@, config@)),
        )),
        outcome matches Some(o) ==> {
            &&& row_views(o.rows@) == tree_rows(snapshot@, config@)
            &&& stats_view(o.stats) == counted_for(config@.collect_stats, row_views(o.rows@))
            &&& forall|k: int| 0 <= k < o.rows.len() ==> row_ok(#[trigger] o.rows[k]@, config@, 0)
            &&& o.stats matches Some(s) ==> s.dir_count + s.file_count == o.rows.len()
        },
{
    let ghost fs = snapshot@;
    let ghost c = config@;
    let ghost total = tree_rows(fs, c);
    let mut walker = Walker::new(config);
    let mut rows: Vec<Row> = Vec::new();
    proof {
        lemma_remaining_initial(fs, c);
    }
    loop
        invariant
            fs == snapshot@,
            c == config@,
            inv(walker@),
            walker@.config == c,
            total == tree_rows(fs, c),
            row_views(rows@) + remaining(fs, walker@) == total,
            walker@.stats == counted_for(c.collect_stats, row_views(rows@)),
        decreases
            remaining(fs, walker@).len(),
            if walker@.awaiting.is_some() {
                1nat
            } else {
                0nat
            },
    {
        let ghost done = row_views(rows@);
        let ghost w = walker@;
        proof {
            lemma_step_refines(fs, w);
        }
        let step = match walker.try_next() {
            Some(step) => step,
            None => {
                proof {
                    // the entry that does not fit is among the rows of the tree
                    let row = next_of(w).1->Show_0;
                    let rest = remaining(fs, next_of(w).0);
                    lemma_tally_push(done, row);
                    assert(done + (seq![row] + rest) =~= done.push(row) + rest);
                    lemma_tally_prefix(done.push(row), rest);
                }
                return None;
            },
        };
        match step {
            Step::Read(path) => {
                let listing = snapshot.list(path.as_str());
                proof {
                    lemma_supply_refines(fs, w);
                }
                walker.supply(listing);
            },
            Step::Show(row) => {
                proof {
                    lemma_tally_push(done, row@);
                    assert(row_views(rows@.push(row)) =~= done.push(row@));
                }
                rows.push(row);
            },
            Step::Done => {
                proof {
                    lemma_tree_rows_shape(fs, c);
                    lemma_tally_counts_rows(total);
                    assert forall|k: int| 0 <= k < rows.len() implies row_ok(
                        #[trigger] rows[k]@,
                        c,
                        0,
                    ) by {
                        assert(rows[k]@ == done[k]);
                    }
                }
                let stats = walker.stats();
                return Some(Outcome { rows, stats });
            },
        }
    }
}

} // verus!
