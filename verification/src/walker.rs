//! The traversal as a machine that never touches the file system itself.
//!
//! A [`Walker`] is asked for its next [`Step`]. It answers with a directory
//! to list, with a row to show, or that it is done. When it asks for a
//! directory, the caller lists it and hands the listing over, or says that the
//! directory could not be read, which counts as a directory without entries.
//!
//! The walker goes depth first. It keeps one frame for each directory that is
//! open: the entries that are shown, in their order, and how many of them have
//! been shown. A directory at the depth limit is shown and never asked for.

use crate::config::{visible, Config, ConfigView};
use crate::entry::{views, Entry, EntryView};
use crate::render::{child_prefix, segment, Row, RowView};
use crate::stats::{counted, empty_tally, fits, stats_view, Stats, Tally};
use vstd::prelude::*;

verus! {

/// An open directory.
struct Frame {
    entries: Vec<Entry>,
    next: usize,
    prefix: String,
    level: usize,
}

/// The mathematical value of an open directory: the entries that are shown,
/// how many of them have been shown, the prefix of their rows and their level.
pub struct FrameView {
    pub entries: Seq<EntryView>,
    pub next: nat,
    pub prefix: Seq<char>,
    pub level: nat,
}

impl View for Frame {
    type V = FrameView;

    closed spec fn view(&self) -> FrameView {
        FrameView {
            entries: views(self.entries@),
            next: self.next as nat,
            prefix: self.prefix@,
            level: self.level as nat,
        }
    }
}

/// A directory whose listing the walker waits for.
struct Pending {
    path: String,
    prefix: String,
    level: usize,
}

/// The mathematical value of an awaited directory: its path, and the prefix
/// and level of the rows of its entries.
pub struct PendingView {
    pub path: Seq<char>,
    pub prefix: Seq<char>,
    pub level: nat,
}

impl View for Pending {
    type V = PendingView;

    closed spec fn view(&self) -> PendingView {
        PendingView { path: self.path@, prefix: self.prefix@, level: self.level as nat }
    }
}

/// What the walker wants done next.
#[derive(Debug)]
pub enum Step {
    /// List the directory at this path and hand the listing to
    /// [`Walker::supply`].
    Read(String),
    /// Show this row.
    Show(Row),
    /// Nothing is left.
    Done,
}

/// The mathematical value of a [`Step`].
pub enum StepView {
    Read(Seq<char>),
    Show(RowView),
    Done,
}

impl View for Step {
    type V = StepView;

    open spec fn view(&self) -> StepView {
        match self {
            Step::Read(path) => StepView::Read(path@),
            Step::Show(row) => StepView::Show(row@),
            Step::Done => StepView::Done,
        }
    }
}

/// A traversal in progress.
pub struct Walker {
    config: Config,
    stack: Vec<Frame>,
    awaiting: Option<Pending>,
    stats: Option<Stats>,
}

/// The mathematical value of a [`Walker`]: the open directories, innermost
/// last; the directory it waits for, if any; the tally, if it keeps one.
pub struct WalkerView {
    pub config: ConfigView,
    pub stack: Seq<FrameView>,
    pub awaiting: Option<PendingView>,
    pub stats: Option<Tally>,
}

impl View for Walker {
    type V = WalkerView;

    closed spec fn view(&self) -> WalkerView {
        WalkerView {
            config: self.config@,
            stack: self.stack@.map_values(|f: Frame| f@),
            awaiting: match self.awaiting {
                Some(p) => Some(p@),
                None => None,
            },
            stats: stats_view(self.stats),
        }
    }
}

/// What holds of every frame: it has not gone past its entries, it lies above
/// the depth limit, and its prefix has one segment of four for each level.
pub open spec fn frame_ok(f: FrameView, depth: nat) -> bool {
    &&& f.next <= f.entries.len()
    &&& f.level < depth
    &&& f.prefix.len() == 4 * f.level
}

/// What holds of every walker.
pub open spec fn inv(w: WalkerView) -> bool {
    &&& forall|i: int| 0 <= i < w.stack.len() ==> frame_ok(#[trigger] w.stack[i], w.config.depth)
    &&& w.awaiting matches Some(p) ==> p.level < w.config.depth && p.prefix.len() == 4 * p.level
    &&& w.stats.is_some() == w.config.collect_stats
}

/// The walker at its start: it waits for the listing of the root, unless the
/// depth limit is zero.
pub open spec fn initial(c: ConfigView) -> WalkerView {
    WalkerView {
        config: c,
        stack: Seq::empty(),
        awaiting: if 0 < c.depth {
            Some(PendingView { path: c.root, prefix: Seq::empty(), level: 0 })
        } else {
            None
        },
        stats: if c.collect_stats {
            Some(empty_tally())
        } else {
            None
        },
    }
}

/// The open directories without the innermost ones that are used up.
pub open spec fn settled(stack: Seq<FrameView>) -> Seq<FrameView>
    decreases stack.len(),
{
    if stack.len() > 0 && stack.last().next >= stack.last().entries.len() {
        settled(stack.drop_last())
    } else {
        stack
    }
}

/// The entry that is shown next, if the walker waits for no listing and an
/// entry is left.
pub open spec fn upcoming(w: WalkerView) -> Option<EntryView> {
    let stack = settled(w.stack);
    if w.awaiting.is_some() || stack.len() == 0 {
        None
    } else {
        Some(stack.last().entries[stack.last().next as int])
    }
}

/// Whether the tally can take the entry that is shown next.
pub open spec fn room(w: WalkerView) -> bool {
    match (upcoming(w), w.stats) {
        (Some(e), Some(t)) => fits(counted(t, e)),
        _ => true,
    }
}

/// The step that the walker takes, and the walker after it.
///
/// A walker that waits for a listing asks for it, again if need be. Otherwise
/// the next entry of the innermost directory that has one left is counted and
/// shown; if it is a directory above the depth limit, its listing is awaited.
pub open spec fn next_of(w: WalkerView) -> (WalkerView, StepView) {
    let stack = settled(w.stack);
    match w.awaiting {
        Some(p) => (w, StepView::Read(p.path)),
        None => if stack.len() == 0 {
            (WalkerView { stack, ..w }, StepView::Done)
        } else {
            let f = stack.last();
            let e = f.entries[f.next as int];
            let last = f.next + 1 == f.entries.len();
            let row = RowView { entry: e, prefix: f.prefix, last, level: f.level };
            (
                WalkerView {
                    stack: stack.drop_last().push(FrameView { next: f.next + 1, ..f }),
                    awaiting: if e.is_dir && f.level + 1 < w.config.depth {
                        Some(
                            PendingView {
                                path: e.path,
                                prefix: f.prefix + segment(last),
                                level: f.level + 1,
                            },
                        )
                    } else {
                        None
                    },
                    stats: match w.stats {
                        Some(t) => Some(counted(t, e)),
                        None => None,
                    },
                    ..w
                },
                StepView::Show(row),
            )
        },
    }
}

/// The walker after a listing was handed over: `None` for a directory that
/// could not be read. The entries that are shown become the innermost open
/// directory. A walker that waits for nothing stays as it is.
pub open spec fn supplied(w: WalkerView, listing: Option<Seq<EntryView>>) -> WalkerView {
    match (w.awaiting, listing) {
        (None, _) => w,
        (Some(_), None) => WalkerView { awaiting: None, ..w },
        (Some(p), Some(entries)) => WalkerView {
            awaiting: None,
            stack: w.stack.push(
                FrameView {
                    entries: visible(entries, w.config),
                    next: 0,
                    prefix: p.prefix,
                    level: p.level,
                },
            ),
            ..w
        },
    }
}

/// The value of a listing as it is handed over.
pub open spec fn listing_view(listing: Option<Vec<Entry>>) -> Option<Seq<EntryView>> {
    match listing {
        Some(entries) => Some(views(entries@)),
        None => None,
    }
}

/// The length of a segment.
pub proof fn lemma_segment_len(last: bool)
    ensures
        segment(last).len() == 4,
{
    reveal_strlit("    ");
    reveal_strlit("│   ");
}

/// Every step and every listing leaves the walker as every walker is.
pub proof fn lemma_inv_preserved(w: WalkerView, listing: Option<Seq<EntryView>>)
    requires
        inv(w),
    ensures
        inv(initial(w.config)),
        inv(next_of(w).0),
        inv(supplied(w, listing)),
{
    lemma_settled(w.stack, w.config.depth);
    let stack = settled(w.stack);
    if w.awaiting.is_none() && stack.len() > 0 {
        let f = stack.last();
        lemma_segment_len(f.next + 1 == f.entries.len());
    }
}

/// A row that is shown lies above the depth limit and has a prefix of one
/// segment for each level; a directory is asked for only above the limit.
pub proof fn lemma_steps_stay_above_the_limit(w: WalkerView)
    requires
        inv(w),
    ensures
        next_of(w).1 matches StepView::Show(row) ==> row.level < w.config.depth
            && row.prefix.len() == 4 * row.level,
        next_of(w).0.awaiting matches Some(p) ==> p.level < w.config.depth,
{
    lemma_settled(w.stack, w.config.depth);
    lemma_inv_preserved(w, None);
}

/// Settling leaves a part of the stack, and its innermost directory, if any,
/// has an entry left.
pub proof fn lemma_settled(stack: Seq<FrameView>, depth: nat)
    requires
        forall|i: int| 0 <= i < stack.len() ==> frame_ok(#[trigger] stack[i], depth),
    ensures
        settled(stack).len() <= stack.len(),
        settled(stack) == stack.take(settled(stack).len() as int),
        settled(stack).len() > 0 ==> settled(stack).last().next < settled(
            stack,
        ).last().entries.len(),
        forall|i: int|
            0 <= i < settled(stack).len() ==> frame_ok(#[trigger] settled(stack)[i], depth),
    decreases stack.len(),
{
    if stack.len() > 0 && stack.last().next >= stack.last().entries.len() {
        let rest = stack.drop_last();
        assert forall|i: int| 0 <= i < rest.len() implies frame_ok(#[trigger] rest[i], depth) by {
            assert(rest[i] == stack[i]);
        }
        lemma_settled(rest, depth);
    }
}

impl Walker {
    /// A walker at its start.
    pub fn new(config: Config) -> (w: Walker)
        ensures
            w@ == initial(config@),
            inv(w@),
    {
        let awaiting = if 0 < config.depth() {
            Some(Pending { path: config.root.clone(), prefix: String::new(), level: 0 })
        } else {
            None
        };
        let stats = if config.collect_stats {
            Some(Stats::new())
        } else {
            None
        };
        let w = Walker { config, stack: Vec::new(), awaiting, stats };
        assert(w@.stack =~= Seq::empty());
        w
    }

    /// The settings of the traversal.
    pub fn config(&self) -> (c: &Config)
        ensures
            c@ == self@.config,
    {
        &self.config
    }

    /// The counters as they stand, if the traversal keeps any.
    pub fn stats(&self) -> (s: Option<Stats>)
        ensures
            stats_view(s) == self@.stats,
    {
        self.stats
    }

    /// Drops the innermost directories that are used up.
    fn settle(&mut self)
        requires
            inv(old(self)@),
        ensures
            final(self)@ == (WalkerView { stack: settled(old(self)@.stack), ..old(self)@ }),
            inv(final(self)@),
    {
        proof {
            lemma_settled(self@.stack, self@.config.depth);
        }
        while self.stack.len() > 0 && self.stack[self.stack.len() - 1].next
            >= self.stack[self.stack.len() - 1].entries.len()
            invariant
                inv(self@),
                self@.config == old(self)@.config,
                self@.awaiting == old(self)@.awaiting,
                self@.stats == old(self)@.stats,
                settled(self@.stack) == settled(old(self)@.stack),
            decreases self.stack.len(),
        {
            let ghost before = self@.stack;
            self.stack.pop();
            assert(self@.stack =~= before.drop_last());
        }
    }

    /// Whether the counters can take the entry that is shown next. Where they
    /// cannot, [`Walker::next`] must not be called; [`Walker::try_next`] makes
    /// this test itself.
    pub fn can_step(&self) -> (r: bool)
        requires
            inv(self@),
        ensures
            r == room(self@),
    {
        if self.awaiting.is_some() {
            return true;
        }
        let mut n: usize = self.stack.len();
        proof {
            assert(self@.stack.take(n as int) =~= self@.stack);
        }
        while n > 0 && self.stack[n - 1].next >= self.stack[n - 1].entries.len()
            invariant
                n <= self.stack.len(),
                settled(self@.stack) == settled(self@.stack.take(n as int)),
            decreases n,
        {
            proof {
                let part = self@.stack.take(n as int);
                assert(part.drop_last() =~= self@.stack.take(n - 1));
            }
            n -= 1;
        }
        if n == 0 {
            return true;
        }
        let f = &self.stack[n - 1];
        match &self.stats {
            Some(s) => s.has_room(&f.entries[f.next]),
            None => true,
        }
    }

    /// Takes the next step.
    pub fn next(&mut self) -> (step: Step)
        requires
            inv(old(self)@),
            room(old(self)@),
        ensures
            (final(self)@, step@) == next_of(old(self)@),
            inv(final(self)@),
    {
        proof {
            lemma_inv_preserved(self@, None);
        }
        if let Some(p) = &self.awaiting {
            return Step::Read(p.path.clone());
        }
        self.settle();
        proof {
            lemma_settled(old(self)@.stack, old(self)@.config.depth);
        }
        if self.stack.len() == 0 {
            return Step::Done;
        }
        let ghost stack = self@.stack;
        let mut f = self.stack.pop().unwrap();
        let ghost top = f@;
        let count = f.entries.len();
        let e = f.entries[f.next].duplicate();
        let last = f.next + 1 == count;
        f.next += 1;
        if let Some(mut s) = self.stats {
            s.record(&e);
            self.stats = Some(s);
        }
        if e.is_dir && f.level + 1 < self.config.depth() {
            self.awaiting = Some(
                Pending {
                    path: e.path.clone(),
                    prefix: child_prefix(f.prefix.as_str(), last),
                    level: f.level + 1,
                },
            );
        }
        let row = Row { entry: e, prefix: f.prefix.clone(), last, level: f.level };
        self.stack.push(f);
        assert(self@.stack =~= stack.drop_last().push(FrameView { next: top.next + 1, ..top }));
        Step::Show(row)
    }

    /// Takes the next step if the counters can take the entry that it shows.
    /// Where they cannot, there is no step and the walker stays as it is.
    pub fn try_next(&mut self) -> (step: Option<Step>)
        requires
            inv(old(self)@),
        ensures
            inv(final(self)@),
            step is Some <==> room(old(self)@),
            step matches Some(s) ==> (final(self)@, s@) == next_of(old(self)@),
            step is None ==> final(self)@ == old(self)@,
    {
        if self.can_step() {
            Some(self.next())
        } else {
            None
        }
    }

    /// Takes the listing of the directory that the walker asked for: `None`
    /// if it could not be read.
    pub fn supply(&mut self, listing: Option<Vec<Entry>>)
        requires
            inv(old(self)@),
        ensures
            final(self)@ == supplied(old(self)@, listing_view(listing)),
            inv(final(self)@),
    {
        proof {
            lemma_inv_preserved(self@, listing_view(listing));
        }
        let awaited = self.awaiting.take();
        match (awaited, listing) {
            (Some(p), Some(entries)) => {
                let ghost stack = self@.stack;
                let shown = self.config.visible_entries(&entries);
                let f = Frame { entries: shown, next: 0, prefix: p.prefix, level: p.level };
                self.stack.push(f);
                assert(self@.stack =~= stack.push(f@));
            },
            _ => {},
        }
    }
}

} // verus!
