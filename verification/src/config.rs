//! What a traversal is asked to do, and which entries of a listing it shows.

use crate::entry::{sort_key, views, Entry, EntryView};
use crate::filter::{ignored, is_ignored, names_of};
use crate::order::{
    ascending, distinct_paths, lemma_ascending_is_unique, lemma_sorted_by_path, sort_by_path,
    sorted_by_path,
};
use vstd::prelude::*;

verus! {

/// The settings of one traversal. They do not change while it runs.
#[derive(Debug)]
pub struct Config {
    /// The directory whose tree is listed.
    pub root: String,
    /// How many levels are shown below the root; `None` sets no limit.
    pub max_depth: Option<usize>,
    /// Shows the names that the built-in list would leave out.
    pub show_all: bool,
    /// Names that are always left out.
    pub ignores: Vec<String>,
    /// Names that are shown although the built-in list holds them.
    pub includes: Vec<String>,
    /// Whether directories, files and bytes are counted.
    pub collect_stats: bool,
}

/// The mathematical value of a [`Config`].
pub struct ConfigView {
    pub root: Seq<char>,
    /// The first level that is not shown.
    pub depth: nat,
    pub show_all: bool,
    pub ignores: Set<Seq<char>>,
    pub includes: Set<Seq<char>>,
    pub collect_stats: bool,
}

/// The first level that is not shown: the limit if there is one, else the
/// largest number a level can be.
pub open spec fn depth_of(max_depth: Option<usize>) -> nat {
    match max_depth {
        Some(k) => k as nat,
        None => usize::MAX as nat,
    }
}

impl View for Config {
    type V = ConfigView;

    open spec fn view(&self) -> ConfigView {
        ConfigView {
            root: self.root@,
            depth: depth_of(self.max_depth),
            show_all: self.show_all,
            ignores: names_of(self.ignores@),
            includes: names_of(self.includes@),
            collect_stats: self.collect_stats,
        }
    }
}

/// Whether the traversal shows entry `e`.
pub open spec fn shown(e: EntryView, c: ConfigView) -> bool {
    !ignored(e.name, c.show_all, c.ignores, c.includes)
}

/// [`shown`] as a predicate on entries.
pub open spec fn shown_by(c: ConfigView) -> spec_fn(EntryView) -> bool {
    |e: EntryView| shown(e, c)
}

/// The entries of a listing that are shown, in the order in which they are
/// shown: those that the filter keeps, ascending by path.
pub open spec fn visible(listing: Seq<EntryView>, c: ConfigView) -> Seq<EntryView> {
    sorted_by_path(listing.filter(shown_by(c)))
}

/// What is shown of a listing: exactly its entries that the filter keeps,
/// each as often as it is listed, in ascending order of path.
pub proof fn lemma_visible(listing: Seq<EntryView>, c: ConfigView)
    ensures
        ascending(visible(listing, c)),
        visible(listing, c).to_multiset() == listing.filter(shown_by(c)).to_multiset(),
        visible(listing, c).len() == listing.filter(shown_by(c)).len(),
        visible(listing, c).len() <= listing.len(),
        forall|i: int|
            0 <= i < visible(listing, c).len() ==> shown(#[trigger] visible(listing, c)[i], c)
                && listing.contains(visible(listing, c)[i]),
        forall|i: int|
            0 <= i < listing.len() && shown(listing[i], c) ==> visible(listing, c).contains(
                #[trigger] listing[i],
            ),
{
    broadcast use vstd::seq_lib::group_to_multiset_ensures;

    let kept = listing.filter(shown_by(c));
    let v = visible(listing, c);
    lemma_sorted_by_path(kept);
    listing.lemma_filter_len(shown_by(c));
    v.to_multiset_ensures();
    kept.to_multiset_ensures();
    assert forall|i: int| 0 <= i < v.len() implies shown(#[trigger] v[i], c) && listing.contains(
        v[i],
    ) by {
        assert(v.to_multiset().count(v[i]) > 0);
        assert(kept.contains(v[i]));
        let k = choose|k: int| 0 <= k < kept.len() && kept[k] == v[i];
        listing.lemma_filter_pred(shown_by(c), k);
        listing.lemma_filter_contains_rev(shown_by(c), kept[k]);
    }
    assert forall|i: int| 0 <= i < listing.len() && shown(listing[i], c) implies v.contains(
        #[trigger] listing[i],
    ) by {
        listing.lemma_filter_contains(shown_by(c), i);
        assert(kept.to_multiset().count(listing[i]) > 0);
        assert(v.to_multiset().count(listing[i]) > 0);
    }
}

/// Where no two entries of a listing have the same path, what is shown is
/// the one ascending arrangement of the entries that the filter keeps.
pub proof fn lemma_visible_is_the_ascending_order(
    listing: Seq<EntryView>,
    c: ConfigView,
    other: Seq<EntryView>,
)
    requires
        distinct_paths(listing),
        ascending(other),
        other.to_multiset() == listing.filter(shown_by(c)).to_multiset(),
    ensures
        other == visible(listing, c),
{
    broadcast use vstd::seq_lib::group_to_multiset_ensures;

    let v = visible(listing, c);
    lemma_visible(listing, c);
    v.to_multiset_ensures();
    listing.to_multiset_ensures();
    assert(distinct_paths(v)) by {
        assert forall|i: int, j: int| 0 <= i < j < v.len() implies sort_key(v[i]) != sort_key(
            v[j],
        ) by {
            if sort_key(v[i]) == sort_key(v[j]) {
                // both are entries of the listing, at one place or at two
                let a = choose|a: int| 0 <= a < listing.len() && listing[a] == v[i];
                let b = choose|b: int| 0 <= b < listing.len() && listing[b] == v[j];
                assert(a == b);
                // one entry of the listing is shown twice
                lemma_kept_once(listing, c, a);
                assert(v.to_multiset().count(v[i]) <= 1);
                lemma_twice(v, i, j);
            }
        }
    }
    lemma_ascending_is_unique(v, other);
}

/// The filter keeps an entry as often as it is listed, or not at all.
proof fn lemma_kept_count(listing: Seq<EntryView>, c: ConfigView, e: EntryView)
    ensures
        listing.filter(shown_by(c)).to_multiset().count(e) == if shown(e, c) {
            listing.to_multiset().count(e)
        } else {
            0
        },
    decreases listing.len(),
{
    broadcast use vstd::seq_lib::group_to_multiset_ensures;

    reveal(Seq::filter);
    if listing.len() > 0 {
        let rest = listing.drop_last();
        lemma_kept_count(rest, c, e);
        assert(listing =~= rest.push(listing.last()));
    }
}

/// What is shown of a listing does not depend on the order in which its
/// entries are listed, where no two of them have the same path.
pub proof fn lemma_visible_ignores_listing_order(
    a: Seq<EntryView>,
    b: Seq<EntryView>,
    c: ConfigView,
)
    requires
        distinct_paths(a),
        a.to_multiset() == b.to_multiset(),
    ensures
        visible(a, c) == visible(b, c),
{
    assert(a.filter(shown_by(c)).to_multiset() =~= b.filter(shown_by(c)).to_multiset()) by {
        assert forall|e: EntryView|
            a.filter(shown_by(c)).to_multiset().count(e) == b.filter(
                shown_by(c),
            ).to_multiset().count(e) by {
            lemma_kept_count(a, c, e);
            lemma_kept_count(b, c, e);
        }
    }
    lemma_visible(b, c);
    lemma_visible_is_the_ascending_order(a, c, visible(b, c));
}

/// An entry that stands at two places of a sequence occurs in it twice.
proof fn lemma_twice(s: Seq<EntryView>, i: int, j: int)
    requires
        0 <= i < j < s.len(),
        s[i] == s[j],
    ensures
        s.to_multiset().count(s[i]) >= 2,
    decreases s.len(),
{
    broadcast use vstd::seq_lib::group_to_multiset_ensures;

    let t = s.drop_last();
    assert(s =~= t.push(s.last()));
    t.to_multiset_ensures();
    if j == s.len() - 1 {
        assert(t[i] == s[i]);
        assert(t.to_multiset().count(s[i]) > 0);
    } else {
        assert(t[i] == s[i] && t[j] == s[j]);
        lemma_twice(t, i, j);
    }
}

/// With distinct paths, the filter keeps the entry at `a` at most once.
proof fn lemma_kept_once(listing: Seq<EntryView>, c: ConfigView, a: int)
    requires
        distinct_paths(listing),
        0 <= a < listing.len(),
    ensures
        listing.filter(shown_by(c)).to_multiset().count(listing[a]) <= 1,
    decreases listing.len(),
{
    broadcast use vstd::seq_lib::group_to_multiset_ensures;

    reveal(Seq::filter);
    let rest = listing.drop_last();
    let kept = rest.filter(shown_by(c));
    assert(distinct_paths(rest)) by {
        assert forall|i: int, j: int| 0 <= i < j < rest.len() implies sort_key(rest[i])
            != sort_key(rest[j]) by {
            assert(sort_key(listing[i]) != sort_key(listing[j]));
        }
    }
    if a < listing.len() - 1 {
        assert(rest[a] == listing[a]);
        lemma_kept_once(rest, c, a);
        assert(sort_key(listing[a]) != sort_key(listing.last()));
    } else {
        // the last entry does not occur before
        kept.to_multiset_ensures();
        if kept.to_multiset().count(listing[a]) > 0 {
            assert(kept.contains(listing[a]));
            rest.lemma_filter_contains_rev(shown_by(c), listing[a]);
            let k = choose|k: int| 0 <= k < rest.len() && rest[k] == listing[a];
            assert(sort_key(listing[k]) != sort_key(listing[a]));
        }
    }
}

impl Config {
    /// The first level that is not shown.
    pub fn depth(&self) -> (d: usize)
        ensures
            d == self@.depth,
    {
        match self.max_depth {
            Some(k) => k,
            None => usize::MAX,
        }
    }

    /// Whether the traversal shows `e`.
    pub fn shows(&self, e: &Entry) -> (r: bool)
        ensures
            r == shown(e@, self@),
    {
        !is_ignored(
            e.name.as_str(),
            self.show_all,
            self.ignores.as_slice(),
            self.includes.as_slice(),
        )
    }

    /// The entries of `listing` that the filter keeps, in their listed order.
    pub fn kept_entries(&self, listing: &Vec<Entry>) -> (out: Vec<Entry>)
        ensures
            views(out@) == views(listing@).filter(shown_by(self@)),
    {
        let ghost all = views(listing@);
        let ghost keep = shown_by(self@);
        let mut out: Vec<Entry> = Vec::new();
        let mut i: usize = 0;
        proof {
            reveal(Seq::filter);
            assert(all.take(0) =~= Seq::empty());
            assert(views(out@) =~= Seq::empty());
        }
        while i < listing.len()
            invariant
                i <= listing.len(),
                all == views(listing@),
                keep == shown_by(self@),
                views(out@) == all.take(i as int).filter(keep),
            decreases listing.len() - i,
        {
            proof {
                reveal(Seq::filter);
                assert(all.take(i + 1).drop_last() =~= all.take(i as int));
                assert(all.take(i + 1).last() == listing@[i as int]@);
            }
            if self.shows(&listing[i]) {
                let ghost before = views(out@);
                out.push(listing[i].duplicate());
                assert(views(out@) =~= before.push(listing@[i as int]@));
            }
            i += 1;
        }
        assert(all.take(i as int) =~= all);
        out
    }

    /// The entries of `listing` that are shown, in the order in which they are
    /// shown.
    pub fn visible_entries(&self, listing: &Vec<Entry>) -> (out: Vec<Entry>)
        ensures
            views(out@) == visible(views(listing@), self@),
    {
        let kept = self.kept_entries(listing);
        sort_by_path(&kept)
    }
}

} // verus!
