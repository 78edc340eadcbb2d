//! The order of siblings: ascending by full path, byte by byte, whatever the
//! kind of the entries. Entries with equal paths keep their listed order.
//!
//! The bytes of a path are those of [`sort_key`]: the path as the file system
//! holds it.

use crate::entry::{sort_key, views, Entry, EntryView};
use crate::text::{
    bytes_le, lemma_lex_le_antisym, lemma_lex_le_refl, lemma_lex_le_total, lemma_lex_le_trans,
    lex_le,
};
use vstd::prelude::*;

verus! {

/// `a` sorts at or before `b`.
pub open spec fn path_le(a: EntryView, b: EntryView) -> bool {
    lex_le(sort_key(a), sort_key(b))
}

/// Every entry sorts at or before the entries after it.
pub open spec fn ascending(s: Seq<EntryView>) -> bool {
    forall|i: int, j: int| 0 <= i < j < s.len() ==> path_le(s[i], s[j])
}

/// No two entries have the same path.
pub open spec fn distinct_paths(s: Seq<EntryView>) -> bool {
    forall|i: int, j: int| 0 <= i < j < s.len() ==> sort_key(s[i]) != sort_key(s[j])
}

/// `e` put into the ascending sequence `s`, behind every entry that sorts at
/// or before it.
pub open spec fn insert_by_path(s: Seq<EntryView>, e: EntryView) -> Seq<EntryView>
    decreases s.len(),
{
    if s.len() == 0 {
        seq![e]
    } else if path_le(s.last(), e) {
        s.push(e)
    } else {
        insert_by_path(s.drop_last(), e).push(s.last())
    }
}

/// The entries of `s` in ascending order of path.
pub open spec fn sorted_by_path(s: Seq<EntryView>) -> Seq<EntryView>
    decreases s.len(),
{
    if s.len() == 0 {
        Seq::empty()
    } else {
        insert_by_path(sorted_by_path(s.drop_last()), s.last())
    }
}

proof fn lemma_insert_props(s: Seq<EntryView>, e: EntryView)
    requires
        ascending(s),
    ensures
        ascending(insert_by_path(s, e)),
        insert_by_path(s, e).to_multiset() == s.to_multiset().insert(e),
        insert_by_path(s, e).len() == s.len() + 1,
    decreases s.len(),
{
    broadcast use vstd::seq_lib::group_to_multiset_ensures;

    let r = insert_by_path(s, e);
    if s.len() == 0 {
    } else if path_le(s.last(), e) {
        assert forall|i: int, j: int| 0 <= i < j < r.len() implies path_le(r[i], r[j]) by {
            if j == s.len() {
                if i < s.len() - 1 {
                    assert(path_le(s[i], s[s.len() - 1]));
                    lemma_lex_le_trans(
                        sort_key(s[i]),
                        sort_key(s.last()),
                        sort_key(e),
                    );
                }
            }
        }
    } else {
        let t = s.drop_last();
        let last = s.last();
        lemma_insert_props(t, e);
        let u = insert_by_path(t, e);
        assert(s =~= t.push(last));
        lemma_lex_le_total(sort_key(last), sort_key(e));
        assert forall|i: int, j: int| 0 <= i < j < r.len() implies path_le(r[i], r[j]) by {
            if j == u.len() {
                // `u[i]` is `e` or an entry of `t`, and `last` sorts behind both
                assert(u.to_multiset().count(u[i]) > 0);
            }
        }
    }
}

/// The sorted sequence is ascending and holds the same entries, each as
/// often as the listing does.
pub proof fn lemma_sorted_by_path(s: Seq<EntryView>)
    ensures
        ascending(sorted_by_path(s)),
        sorted_by_path(s).to_multiset() == s.to_multiset(),
        sorted_by_path(s).len() == s.len(),
    decreases s.len(),
{
    broadcast use vstd::seq_lib::group_to_multiset_ensures;

    if s.len() == 0 {
    } else {
        lemma_sorted_by_path(s.drop_last());
        lemma_insert_props(sorted_by_path(s.drop_last()), s.last());
        assert(s =~= s.drop_last().push(s.last()));
    }
}

/// Where no two paths are equal, there is only one ascending order: any
/// ascending sequence that holds the same entries is the sorted one.
pub proof fn lemma_ascending_is_unique(s: Seq<EntryView>, t: Seq<EntryView>)
    requires
        ascending(s),
        ascending(t),
        distinct_paths(s),
        s.to_multiset() == t.to_multiset(),
    ensures
        s == t,
    decreases s.len(),
{
    broadcast use vstd::seq_lib::group_to_multiset_ensures;

    s.to_multiset_ensures();
    t.to_multiset_ensures();
    assert(s.len() == t.len());
    if s.len() == 0 {
        assert(s =~= t);
    } else {
        let n = s.len() - 1;
        let x = s[n];
        let y = t[n];
        // each last entry occurs in the other sequence
        assert(s.to_multiset().count(y) > 0);
        assert(t.to_multiset().count(x) > 0);
        let m = choose|m: int| 0 <= m < s.len() && s[m] == y;
        let k = choose|k: int| 0 <= k < t.len() && t[k] == x;
        if m < n {
            assert(path_le(s[m], s[n]));
        } else {
            lemma_lex_le_refl(sort_key(x));
        }
        if k < n {
            assert(path_le(t[k], t[n]));
        } else {
            lemma_lex_le_refl(sort_key(x));
        }
        lemma_lex_le_antisym(sort_key(x), sort_key(y));
        assert(m == n);
        assert(x == y);
        let s0 = s.drop_last();
        let t0 = t.drop_last();
        assert(s =~= s0.push(x));
        assert(t =~= t0.push(x));
        assert(s0.to_multiset() =~= t0.to_multiset()) by {
            assert forall|e: EntryView| s0.to_multiset().count(e) == t0.to_multiset().count(
                e,
            ) by {
                assert(s.to_multiset().count(e) == s0.to_multiset().insert(x).count(e));
                assert(t.to_multiset().count(e) == t0.to_multiset().insert(x).count(e));
            }
        }
        assert(ascending(s0)) by {
            assert forall|i: int, j: int| 0 <= i < j < s0.len() implies path_le(s0[i], s0[j]) by {
                assert(path_le(s[i], s[j]));
            }
        }
        assert(ascending(t0)) by {
            assert forall|i: int, j: int| 0 <= i < j < t0.len() implies path_le(t0[i], t0[j]) by {
                assert(path_le(t[i], t[j]));
            }
        }
        assert(distinct_paths(s0)) by {
            assert forall|i: int, j: int| 0 <= i < j < s0.len() implies sort_key(s0[i])
                != sort_key(s0[j]) by {
                assert(sort_key(s[i]) != sort_key(s[j]));
            }
        }
        lemma_ascending_is_unique(s0, t0);
    }
}

/// The paths of entries as bytes, in order.
pub open spec fn paths_of(s: Seq<EntryView>) -> Seq<Seq<u8>> {
    s.map_values(|e: EntryView| sort_key(e))
}

proof fn lemma_insert_by_paths_only(a: Seq<EntryView>, b: Seq<EntryView>, e: EntryView, f: EntryView)
    requires
        paths_of(a) == paths_of(b),
        sort_key(e) == sort_key(f),
    ensures
        paths_of(insert_by_path(a, e)) == paths_of(insert_by_path(b, f)),
    decreases a.len(),
{
    assert(a.len() == paths_of(a).len());
    if a.len() == 0 {
    } else {
        assert(sort_key(a.last()) == paths_of(a)[a.len() - 1]);
        if path_le(a.last(), e) {
            assert(paths_of(a.push(e)) =~= paths_of(a).push(sort_key(e)));
        } else {
            assert(paths_of(a.drop_last()) =~= paths_of(a).drop_last());
            assert(paths_of(b.drop_last()) =~= paths_of(b).drop_last());
            lemma_insert_by_paths_only(a.drop_last(), b.drop_last(), e, f);
            let x = insert_by_path(a.drop_last(), e);
            let y = insert_by_path(b.drop_last(), f);
            assert(paths_of(x.push(a.last())) =~= paths_of(x).push(sort_key(a.last())));
        }
    }
}

/// The order looks at paths alone: two listings with the same paths in the
/// same places come out with the same paths in the same places, whatever the
/// kinds, sizes and names of their entries.
pub proof fn lemma_order_by_paths_only(s: Seq<EntryView>, t: Seq<EntryView>)
    requires
        paths_of(s) == paths_of(t),
    ensures
        paths_of(sorted_by_path(s)) == paths_of(sorted_by_path(t)),
    decreases s.len(),
{
    assert(s.len() == paths_of(s).len());
    if s.len() == 0 {
    } else {
        assert(paths_of(s.drop_last()) =~= paths_of(s).drop_last());
        assert(paths_of(t.drop_last()) =~= paths_of(t).drop_last());
        assert(sort_key(s.last()) == paths_of(s)[s.len() - 1]);
        lemma_order_by_paths_only(s.drop_last(), t.drop_last());
        lemma_insert_by_paths_only(
            sorted_by_path(s.drop_last()),
            sorted_by_path(t.drop_last()),
            s.last(),
            t.last(),
        );
    }
}

/// Two ascending sequences put together into one. Of two entries that sort
/// alike, the one from `x` comes first.
spec fn merged(x: Seq<EntryView>, y: Seq<EntryView>) -> Seq<EntryView>
    decreases x.len() + y.len(),
{
    if x.len() == 0 {
        y
    } else if y.len() == 0 {
        x
    } else if path_le(x.last(), y.last()) {
        merged(x, y.drop_last()).push(y.last())
    } else {
        merged(x.drop_last(), y).push(x.last())
    }
}

proof fn lemma_insert_into_merged(x: Seq<EntryView>, y: Seq<EntryView>, e: EntryView)
    ensures
        insert_by_path(merged(x, y), e) == merged(x, insert_by_path(y, e)),
    decreases x.len() + y.len(),
{
    let m = merged(x, y);
    let y1 = insert_by_path(y, e);
    if x.len() == 0 {
    } else if y.len() == 0 {
        if path_le(x.last(), e) {
            assert(merged(x, y1) == merged(x, y1.drop_last()).push(e));
        } else {
            lemma_insert_into_merged(x.drop_last(), y, e);
            assert(merged(x.drop_last(), y) == x.drop_last());
        }
    } else {
        let xl = x.last();
        let yl = y.last();
        if path_le(xl, yl) {
            assert(m.drop_last() =~= merged(x, y.drop_last()));
            if path_le(yl, e) {
                lemma_lex_le_trans(sort_key(xl), sort_key(yl), sort_key(e));
                assert(y1.drop_last() =~= y);
            } else {
                lemma_insert_into_merged(x, y.drop_last(), e);
                assert(y1.drop_last() =~= insert_by_path(y.drop_last(), e));
            }
        } else {
            lemma_lex_le_total(sort_key(xl), sort_key(yl));
            assert(m.drop_last() =~= merged(x.drop_last(), y));
            if path_le(xl, e) {
                lemma_lex_le_trans(sort_key(yl), sort_key(xl), sort_key(e));
                assert(y1.drop_last() =~= y);
            } else {
                lemma_insert_into_merged(x.drop_last(), y, e);
            }
        }
    }
}

/// Sorting two listings and merging them is sorting the two joined.
proof fn lemma_merged_sorted(a: Seq<EntryView>, b: Seq<EntryView>)
    ensures
        merged(sorted_by_path(a), sorted_by_path(b)) == sorted_by_path(a + b),
    decreases b.len(),
{
    if b.len() == 0 {
    } else {
        lemma_merged_sorted(a, b.drop_last());
        lemma_insert_into_merged(sorted_by_path(a), sorted_by_path(b.drop_last()), b.last());
        assert((a + b).drop_last() =~= a + b.drop_last());
    }
}

/// The entries that a sequence of indices picks, in its order.
spec fn picked(entries: Seq<Entry>, order: Seq<usize>) -> Seq<EntryView> {
    order.map_values(|i: usize| entries[i as int]@)
}

/// Every index points into a sequence of length `len`.
spec fn in_range(order: Seq<usize>, len: nat) -> bool {
    forall|k: int| 0 <= k < order.len() ==> #[trigger] order[k] < len
}

proof fn lemma_merged_step(x: Seq<EntryView>, y: Seq<EntryView>)
    ensures
        x.len() == 0 && y.len() > 0 ==> merged(x, y) == merged(x, y.drop_last()).push(y.last()),
        x.len() > 0 && y.len() == 0 ==> merged(x, y) == merged(x.drop_last(), y).push(x.last()),
{
}

/// Merges two ascending runs of indices into one.
fn merge_runs(entries: &Vec<Entry>, left: &Vec<usize>, right: &Vec<usize>) -> (out: Vec<usize>)
    requires
        in_range(left@, entries@.len()),
        in_range(right@, entries@.len()),
        left.len() + right.len() <= usize::MAX,
    ensures
        in_range(out@, entries@.len()),
        out.len() == left.len() + right.len(),
        picked(entries@, out@) == merged(picked(entries@, left@), picked(entries@, right@)),
{
    let n: usize = left.len() + right.len();
    let mut out: Vec<usize> = vec![0usize; n];
    let mut i: usize = left.len();
    let mut j: usize = right.len();
    let mut k: usize = n;
    let ghost x = picked(entries@, left@);
    let ghost y = picked(entries@, right@);
    proof {
        assert(x.take(i as int) =~= x);
        assert(y.take(j as int) =~= y);
    }
    while k > 0
        invariant
            in_range(left@, entries@.len()),
            in_range(right@, entries@.len()),
            x == picked(entries@, left@),
            y == picked(entries@, right@),
            n == left.len() + right.len(),
            out.len() == n,
            i <= left.len(),
            j <= right.len(),
            k == i + j,
            forall|m: int| k <= m < n ==> #[trigger] out@[m] < entries@.len(),
            merged(x, y) == merged(x.take(i as int), y.take(j as int)) + picked(
                entries@,
                out@.subrange(k as int, n as int),
            ),
        decreases k,
    {
        let ghost xs = x.take(i as int);
        let ghost ys = y.take(j as int);
        let from_right = if i == 0 {
            true
        } else if j == 0 {
            false
        } else {
            bytes_le(entries[left[i - 1]].key(), entries[right[j - 1]].key())
        };
        proof {
            lemma_merged_step(xs, ys);
        }
        if from_right {
            let v = right[j - 1];
            proof {
                assert(ys.drop_last() =~= y.take(j - 1));
            }
            out.set(k - 1, v);
            j -= 1;
        } else {
            let v = left[i - 1];
            proof {
                assert(xs.drop_last() =~= x.take(i - 1));
            }
            out.set(k - 1, v);
            i -= 1;
        }
        k -= 1;
    }
    out
}

/// The indices from `lo` up to `hi`, in ascending order of the paths of their
/// entries.
fn sort_range(entries: &Vec<Entry>, lo: usize, hi: usize) -> (out: Vec<usize>)
    requires
        lo <= hi <= entries.len(),
    ensures
        in_range(out@, entries@.len()),
        out.len() == hi - lo,
        picked(entries@, out@) == sorted_by_path(views(entries@).subrange(lo as int, hi as int)),
    decreases hi - lo,
{
    let ghost part = views(entries@).subrange(lo as int, hi as int);
    if hi - lo == 0 {
        Vec::new()
    } else if hi - lo == 1 {
        let mut out: Vec<usize> = Vec::new();
        out.push(lo);
        proof {
            assert(sorted_by_path(part.drop_last()) =~= Seq::<EntryView>::empty());
        }
        out
    } else {
        let mid = lo + (hi - lo) / 2;
        let left = sort_range(entries, lo, mid);
        let right = sort_range(entries, mid, hi);
        proof {
            let a = views(entries@).subrange(lo as int, mid as int);
            let b = views(entries@).subrange(mid as int, hi as int);
            assert(a + b =~= part);
            lemma_merged_sorted(a, b);
        }
        merge_runs(entries, &left, &right)
    }
}

/// The entries in ascending order of path.
pub fn sort_by_path(entries: &Vec<Entry>) -> (out: Vec<Entry>)
    ensures
        views(out@) == sorted_by_path(views(entries@)),
{
    let order = sort_range(entries, 0, entries.len());
    let ghost sorted = sorted_by_path(views(entries@));
    assert(views(entries@).subrange(0, entries@.len() as int) =~= views(entries@));
    let mut out: Vec<Entry> = Vec::new();
    let mut k: usize = 0;
    while k < order.len()
        invariant
            k <= order.len(),
            in_range(order@, entries@.len()),
            sorted == picked(entries@, order@),
            views(out@) == sorted.take(k as int),
        decreases order.len() - k,
    {
        let ghost before = views(out@);
        out.push(entries[order[k]].duplicate());
        assert(views(out@) =~= before.push(sorted[k as int]));
        k += 1;
    }
    out
}

} // verus!
