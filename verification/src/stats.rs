//! What a traversal counts: directories, files, and the bytes of the files
//! whose size could be read.

use crate::entry::{Entry, EntryView};
use crate::number::{decimal, decimal_string};
use vstd::prelude::*;

verus! {

/// The counters of one traversal.
#[derive(Clone, Copy, Debug)]
pub struct Stats {
    /// Entries shown that are no directories.
    pub file_count: usize,
    /// Entries shown that are directories.
    pub dir_count: usize,
    /// The sizes of the counted files, added up.
    pub total_size: u64,
}

/// Counts as numbers without a bound.
pub struct Tally {
    pub dirs: nat,
    pub files: nat,
    pub bytes: nat,
}

impl View for Stats {
    type V = Tally;

    open spec fn view(&self) -> Tally {
        Tally {
            dirs: self.dir_count as nat,
            files: self.file_count as nat,
            bytes: self.total_size as nat,
        }
    }
}

/// The value of counters that may be absent.
pub open spec fn stats_view(stats: Option<Stats>) -> Option<Tally> {
    match stats {
        Some(s) => Some(s@),
        None => None,
    }
}

/// Nothing counted yet.
pub open spec fn empty_tally() -> Tally {
    Tally { dirs: 0, files: 0, bytes: 0 }
}

/// What an entry adds to the byte total: its size if it is a file whose size
/// could be read, else nothing.
pub open spec fn file_bytes(e: EntryView) -> nat {
    match e.size {
        Some(n) if !e.is_dir => n as nat,
        _ => 0,
    }
}

/// The tally after one more entry: a directory adds to the directories, any
/// other entry to the files and, where its size could be read, to the bytes.
pub open spec fn counted(t: Tally, e: EntryView) -> Tally {
    if e.is_dir {
        Tally { dirs: t.dirs + 1, files: t.files, bytes: t.bytes }
    } else {
        Tally { dirs: t.dirs, files: t.files + 1, bytes: t.bytes + file_bytes(e) }
    }
}

/// The tally of a sequence of entries, counted on top of `start`.
pub open spec fn tally_from(start: Tally, entries: Seq<EntryView>) -> Tally
    decreases entries.len(),
{
    if entries.len() == 0 {
        start
    } else {
        counted(tally_from(start, entries.drop_last()), entries.last())
    }
}

/// Whether a tally can be held in the counters.
pub open spec fn fits(t: Tally) -> bool {
    t.dirs <= usize::MAX && t.files <= usize::MAX && t.bytes <= u64::MAX
}

/// Every entry is counted once, as a directory or as a file; the bytes are
/// those of the files. Counting never takes anything away.
pub proof fn lemma_tally_from(start: Tally, entries: Seq<EntryView>)
    ensures
        tally_from(start, entries).dirs + tally_from(start, entries).files == start.dirs
            + start.files + entries.len(),
        tally_from(start, entries).dirs == start.dirs + entries.filter(
            |e: EntryView| e.is_dir,
        ).len(),
        tally_from(start, entries).files == start.files + entries.filter(
            |e: EntryView| !e.is_dir,
        ).len(),
        tally_from(start, entries).bytes == start.bytes + entries.fold_left(
            0nat,
            |sum: nat, e: EntryView| sum + file_bytes(e),
        ),
    decreases entries.len(),
{
    reveal(Seq::filter);
    if entries.len() > 0 {
        lemma_tally_from(start, entries.drop_last());
    }
}

/// Counting two sequences one after the other is counting them joined.
pub proof fn lemma_tally_from_concat(start: Tally, a: Seq<EntryView>, b: Seq<EntryView>)
    ensures
        tally_from(start, a + b) == tally_from(tally_from(start, a), b),
    decreases b.len(),
{
    if b.len() > 0 {
        lemma_tally_from_concat(start, a, b.drop_last());
        assert((a + b).drop_last() =~= a + b.drop_last());
    }
}

/// A tally only grows: what fits after more entries fits before them.
pub proof fn lemma_tally_from_grows(start: Tally, entries: Seq<EntryView>)
    ensures
        start.dirs <= tally_from(start, entries).dirs,
        start.files <= tally_from(start, entries).files,
        start.bytes <= tally_from(start, entries).bytes,
        fits(tally_from(start, entries)) ==> fits(start),
    decreases entries.len(),
{
    if entries.len() > 0 {
        lemma_tally_from_grows(start, entries.drop_last());
    }
}

/// The size `bytes` in decimal units, as `humansize::format_size` writes it
/// with the options `humansize::DECIMAL`.
pub uninterp spec fn human_size(bytes: u64) -> Seq<char>;

/// `humansize::format_size` with the options `humansize::DECIMAL`: the size
/// in units of a thousand, a space between number and unit. The text is a
/// function of the number alone.
#[verifier::external_body]
fn format_size_decimal(bytes: u64) -> (text: String)
    ensures
        text@ == human_size(bytes),
{
    humansize::format_size(bytes, humansize::DECIMAL)
}

/// The report of a tally, with the byte total written as `size`.
pub open spec fn report_text(t: Tally, size: Seq<char>) -> Seq<char> {
    "\n📁 "@ + decimal(t.dirs) + " directories, 📄 "@ + decimal(t.files)
        + " files\n📦 Total size: "@ + size
}

impl Stats {
    /// Counters at zero.
    pub fn new() -> (s: Stats)
        ensures
            s@ == empty_tally(),
    {
        Stats { file_count: 0, dir_count: 0, total_size: 0 }
    }

    /// Whether the counters can take `e` as well.
    pub fn has_room(&self, e: &Entry) -> (r: bool)
        ensures
            r == fits(counted(self@, e@)),
    {
        if e.is_dir {
            self.dir_count < usize::MAX
        } else {
            self.file_count < usize::MAX && match e.size {
                Some(n) => n <= u64::MAX - self.total_size,
                None => true,
            }
        }
    }

    /// Counts one entry.
    pub fn record(&mut self, e: &Entry)
        requires
            fits(counted(old(self)@, e@)),
        ensures
            final(self)@ == counted(old(self)@, e@),
    {
        if e.is_dir {
            self.dir_count += 1;
        } else {
            self.file_count += 1;
            if let Some(n) = e.size {
                self.total_size += n;
            }
        }
    }

    /// The report of the counters, with the byte total written as `size`.
    pub fn report_with(&self, size: &str) -> (text: String)
        ensures
            text@ == report_text(self@, size@),
    {
        let mut text = String::from_str("\n📁 ");
        text.append(decimal_string(self.dir_count as u64).as_str());
        text.append(" directories, 📄 ");
        text.append(decimal_string(self.file_count as u64).as_str());
        text.append(" files\n📦 Total size: ");
        text.append(size);
        text
    }

    /// The report of the counters: directories, files, and the byte total in
    /// decimal units.
    pub fn report(&self) -> (text: String)
        ensures
            text@ == report_text(self@, human_size(self.total_size)),
    {
        let size = format_size_decimal(self.total_size);
        self.report_with(size.as_str())
    }
}

impl Default for Stats {
    fn default() -> (s: Stats)
        ensures
            s@ == empty_tally(),
    {
        Stats::new()
    }
}

} // verus!
