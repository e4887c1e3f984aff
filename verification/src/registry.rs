//! The window registry.
//!
//! A snapshot of the windows the operating system reports is turned into a
//! canonical, user-presentable list: windows that are invisible, whose title
//! buffer does not decode, or whose title is empty are discarded; the rest
//! are sorted by title ascending; and entries with equal titles are
//! collapsed to a single representative. The result is deterministic
//! regardless of the order the enumeration happened to report windows in,
//! and its order is the contract used for numbered-list selection.

use vstd::prelude::*;
use crate::text::{
    decode_title, lemma_lex_lt_irrefl, lemma_lex_lt_trans, lemma_lex_le_lt_trans, lex_lt, str_eq,
    title_lt, title_of_buffer,
};

verus! {

/// An opaque, operating-system-assigned identifier for a top-level window.
/// A weak reference: the window may close at any time, so every use must
/// tolerate the handle no longer being valid.
#[derive(Clone, Copy, PartialEq, Eq, Structural, Debug)]
pub struct WindowHandle {
    pub id: u64,
}

/// One window as the enumeration pass reports it: its handle, its raw
/// NUL-terminated UTF-16 title buffer, and whether it is currently visible.
pub struct RawWindow {
    pub handle: WindowHandle,
    pub title_buffer: Vec<u16>,
    pub visible: bool,
}

/// One registry entry: a handle and the decoded title it had at enumeration
/// time. Never mutated; discarded when the selection cycle ends.
pub struct WindowEntry {
    pub handle: WindowHandle,
    pub title: String,
}

/// The mathematical value of an entry: its handle and its title text.
pub open spec fn entry_view(e: WindowEntry) -> (WindowHandle, Seq<char>) {
    (e.handle, e.title@)
}

/// The mathematical value of a sequence of entries.
pub open spec fn entries_view(s: Seq<WindowEntry>) -> Seq<(WindowHandle, Seq<char>)> {
    s.map_values(|e: WindowEntry| entry_view(e))
}

/// The candidates a raw enumeration yields, in enumeration order: every
/// visible window whose title buffer decodes to a non-empty title.
pub open spec fn candidates(raws: Seq<RawWindow>) -> Seq<(WindowHandle, Seq<char>)>
    decreases raws.len(),
{
    if raws.len() == 0 {
        Seq::empty()
    } else {
        let rest = candidates(raws.skip(1));
        match title_of_buffer(raws[0].title_buffer@) {
            Some(t) => if raws[0].visible && t.len() > 0 {
                seq![(raws[0].handle, t)] + rest
            } else {
                rest
            },
            None => rest,
        }
    }
}

/// Candidate extraction distributes over concatenation of enumerations.
pub proof fn lemma_candidates_concat(s: Seq<RawWindow>, t: Seq<RawWindow>)
    ensures
        candidates(s + t) == candidates(s) + candidates(t),
    decreases s.len(),
{
    if s.len() == 0 {
        assert(s + t =~= t);
        assert(candidates(s) + candidates(t) =~= candidates(t));
    } else {
        assert((s + t)[0] == s[0]);
        assert((s + t).skip(1) =~= s.skip(1) + t);
        lemma_candidates_concat(s.skip(1), t);
        match title_of_buffer(s[0].title_buffer@) {
            Some(tt) => {
                if s[0].visible && tt.len() > 0 {
                    assert(seq![(s[0].handle, tt)] + (candidates(s.skip(1)) + candidates(t))
                        =~= candidates(s) + candidates(t));
                }
            },
            None => {},
        }
    }
}

/// Insert a candidate into a title-sorted sequence, before the first
/// element whose title is not below the candidate's. Inserting each
/// candidate of a later enumeration position this way keeps earlier
/// positions first among equal titles.
pub open spec fn insert_by_title(
    x: (WindowHandle, Seq<char>),
    s: Seq<(WindowHandle, Seq<char>)>,
) -> Seq<(WindowHandle, Seq<char>)>
    decreases s.len(),
{
    if s.len() == 0 {
        seq![x]
    } else if !lex_lt(s[0].1, x.1) {
        seq![x] + s
    } else {
        seq![s[0]] + insert_by_title(x, s.skip(1))
    }
}

/// Sort candidates by title ascending, stably.
pub open spec fn sort_by_title(s: Seq<(WindowHandle, Seq<char>)>) -> Seq<
    (WindowHandle, Seq<char>),
>
    decreases s.len(),
{
    if s.len() == 0 {
        s
    } else {
        insert_by_title(s[0], sort_by_title(s.skip(1)))
    }
}

/// Drop every element whose title equals `prev`, then keep the first of
/// each remaining run of equal titles.
pub open spec fn dedup_tail(
    s: Seq<(WindowHandle, Seq<char>)>,
    prev: Seq<char>,
) -> Seq<(WindowHandle, Seq<char>)>
    decreases s.len(),
{
    if s.len() == 0 {
        s
    } else if s[0].1 == prev {
        dedup_tail(s.skip(1), prev)
    } else {
        seq![s[0]] + dedup_tail(s.skip(1), s[0].1)
    }
}

/// Collapse adjacent candidates with equal titles, keeping the first.
pub open spec fn dedup_keep_first(s: Seq<(WindowHandle, Seq<char>)>) -> Seq<
    (WindowHandle, Seq<char>),
> {
    if s.len() == 0 {
        s
    } else {
        seq![s[0]] + dedup_tail(s.skip(1), s[0].1)
    }
}

/// The registry a raw enumeration canonically yields: its candidates,
/// sorted by title ascending, adjacent duplicates collapsed.
pub open spec fn registry_spec(raws: Seq<RawWindow>) -> Seq<(WindowHandle, Seq<char>)> {
    dedup_keep_first(sort_by_title(candidates(raws)))
}

/// Titles never descend: every earlier element's title is at or below
/// every later one's.
pub open spec fn sorted_le(s: Seq<(WindowHandle, Seq<char>)>) -> bool {
    forall|i: int, j: int| 0 <= i < j < s.len() ==> !lex_lt(s[j].1, s[i].1)
}

/// Titles strictly ascend: in particular they are all distinct.
pub open spec fn sorted_lt(s: Seq<(WindowHandle, Seq<char>)>) -> bool {
    forall|i: int, j: int| 0 <= i < j < s.len() ==> lex_lt(s[i].1, s[j].1)
}

/// Inserting into a title-sorted sequence keeps it sorted; every element
/// of the result is the inserted candidate or one of the originals.
pub proof fn lemma_insert_sorted(x: (WindowHandle, Seq<char>), s: Seq<(WindowHandle, Seq<char>)>)
    requires
        sorted_le(s),
    ensures
        sorted_le(insert_by_title(x, s)),
        insert_by_title(x, s).len() == s.len() + 1,
        forall|k: int| 0 <= k < insert_by_title(x, s).len()
            ==> insert_by_title(x, s)[k] == x || s.contains(#[trigger] insert_by_title(x, s)[k]),
    decreases s.len(),
{
    let r = insert_by_title(x, s);
    if s.len() == 0 {
    } else if !lex_lt(s[0].1, x.1) {
        assert forall|i: int, j: int| 0 <= i < j < r.len() implies !lex_lt(r[j].1, r[i].1) by {
            if i == 0 {
                // r[j] is s[j - 1]; s[0] is at or above x, s[j - 1] at or above s[0].
                if lex_lt(s[j - 1].1, x.1) {
                    if j - 1 > 0 {
                        lemma_lex_le_lt_trans(s[0].1, s[j - 1].1, x.1);
                    }
                    assert(lex_lt(s[0].1, x.1));
                }
            }
        }
        assert forall|k: int| 0 <= k < r.len() implies r[k] == x || s.contains(r[k]) by {
            if k > 0 {
                assert(r[k] == s[k - 1]);
            }
        }
    } else {
        lemma_insert_sorted(x, s.skip(1));
        let rr = insert_by_title(x, s.skip(1));
        assert forall|i: int, j: int| 0 <= i < j < r.len() implies !lex_lt(r[j].1, r[i].1) by {
            if i == 0 {
                assert(r[j] == rr[j - 1]);
                if rr[j - 1] == x {
                    // s[0] is strictly below x.
                    if lex_lt(x.1, s[0].1) {
                        lemma_lex_lt_trans(s[0].1, x.1, s[0].1);
                        lemma_lex_lt_irrefl(s[0].1);
                    }
                } else {
                    let m = choose|m: int| 0 <= m < s.skip(1).len() && s.skip(1)[m] == rr[j - 1];
                    assert(s.skip(1)[m] == s[m + 1]);
                }
            } else {
                assert(r[i] == rr[i - 1] && r[j] == rr[j - 1]);
            }
        }
        assert forall|k: int| 0 <= k < r.len() implies r[k] == x || s.contains(r[k]) by {
            if k == 0 {
                assert(s.contains(s[0]));
            } else {
                assert(r[k] == rr[k - 1]);
                if rr[k - 1] != x {
                    let m = choose|m: int| 0 <= m < s.skip(1).len() && s.skip(1)[m] == rr[k - 1];
                    assert(s.skip(1)[m] == s[m + 1]);
                }
            }
        }
    }
}

/// Sorting yields a title-sorted sequence of the same candidates.
pub proof fn lemma_sort_sorted(s: Seq<(WindowHandle, Seq<char>)>)
    ensures
        sorted_le(sort_by_title(s)),
        sort_by_title(s).len() == s.len(),
        forall|k: int| 0 <= k < sort_by_title(s).len()
            ==> s.contains(#[trigger] sort_by_title(s)[k]),
    decreases s.len(),
{
    if s.len() > 0 {
        lemma_sort_sorted(s.skip(1));
        lemma_insert_sorted(s[0], sort_by_title(s.skip(1)));
        let r = sort_by_title(s);
        assert forall|k: int| 0 <= k < r.len() implies s.contains(r[k]) by {
            if r[k] == s[0] {
                assert(s.contains(s[0]));
            } else {
                assert(sort_by_title(s.skip(1)).contains(r[k]));
                let m = choose|m: int|
                    0 <= m < sort_by_title(s.skip(1)).len() && sort_by_title(s.skip(1))[m] == r[k];
                let n = choose|n: int| 0 <= n < s.skip(1).len() && s.skip(1)[n] == r[k];
                assert(s.skip(1)[n] == s[n + 1]);
            }
        }
    }
}

/// Collapsing a title-sorted tail below `prev` yields strictly ascending
/// titles, all strictly above `prev`.
pub proof fn lemma_dedup_tail(s: Seq<(WindowHandle, Seq<char>)>, prev: Seq<char>)
    requires
        sorted_le(s),
        forall|k: int| 0 <= k < s.len() ==> !lex_lt(#[trigger] s[k].1, prev),
    ensures
        sorted_lt(dedup_tail(s, prev)),
        forall|k: int| 0 <= k < dedup_tail(s, prev).len()
            ==> lex_lt(prev, #[trigger] dedup_tail(s, prev)[k].1),
    decreases s.len(),
{
    if s.len() == 0 {
    } else if s[0].1 == prev {
        assert(forall|k: int| 0 <= k < s.skip(1).len() ==> s.skip(1)[k] == s[k + 1]);
        lemma_dedup_tail(s.skip(1), prev);
    } else {
        // prev is at or below s[0] and differs from it, so prev is strictly below.
        if !lex_lt(prev, s[0].1) {
            crate::text::lemma_lex_lt_connex(s[0].1, prev);
        }
        assert(forall|k: int| 0 <= k < s.skip(1).len() ==> s.skip(1)[k] == s[k + 1]);
        lemma_dedup_tail(s.skip(1), s[0].1);
        let d = dedup_tail(s, prev);
        let dd = dedup_tail(s.skip(1), s[0].1);
        assert forall|i: int, j: int| 0 <= i < j < d.len() implies lex_lt(d[i].1, d[j].1) by {
            if i == 0 {
                assert(d[j] == dd[j - 1]);
            } else {
                assert(d[i] == dd[i - 1] && d[j] == dd[j - 1]);
            }
        }
        assert forall|k: int| 0 <= k < d.len() implies lex_lt(prev, d[k].1) by {
            if k > 0 {
                assert(d[k] == dd[k - 1]);
                lemma_lex_lt_trans(prev, s[0].1, dd[k - 1].1);
            }
        }
    }
}

/// Collapsing a title-sorted sequence yields strictly ascending titles.
pub proof fn lemma_dedup_strict(s: Seq<(WindowHandle, Seq<char>)>)
    requires
        sorted_le(s),
    ensures
        sorted_lt(dedup_keep_first(s)),
{
    if s.len() > 0 {
        assert(forall|k: int| 0 <= k < s.skip(1).len() ==> s.skip(1)[k] == s[k + 1]);
        lemma_dedup_tail(s.skip(1), s[0].1);
        let d = dedup_keep_first(s);
        let dd = dedup_tail(s.skip(1), s[0].1);
        assert forall|i: int, j: int| 0 <= i < j < d.len() implies lex_lt(d[i].1, d[j].1) by {
            if i == 0 {
                assert(d[j] == dd[j - 1]);
            } else {
                assert(d[i] == dd[i - 1] && d[j] == dd[j - 1]);
            }
        }
    }
}

/// The canonical registry of any enumeration has strictly ascending —
/// hence pairwise distinct — titles.
pub proof fn lemma_registry_sorted_unique(raws: Seq<RawWindow>)
    ensures
        sorted_lt(registry_spec(raws)),
        forall|i: int, j: int|
            0 <= i < registry_spec(raws).len() && 0 <= j < registry_spec(raws).len() && i != j
                ==> registry_spec(raws)[i].1 != registry_spec(raws)[j].1,
{
    lemma_sort_sorted(candidates(raws));
    lemma_dedup_strict(sort_by_title(candidates(raws)));
    let r = registry_spec(raws);
    assert forall|i: int, j: int| 0 <= i < r.len() && 0 <= j < r.len() && i != j implies r[i].1
        != r[j].1 by {
        if i < j {
            if r[i].1 == r[j].1 {
                lemma_lex_lt_irrefl(r[i].1);
            }
        } else {
            if r[i].1 == r[j].1 {
                lemma_lex_lt_irrefl(r[i].1);
            }
        }
    }
}

/// Insertion loses nothing: the candidate and every original element
/// appear in the result.
pub proof fn lemma_insert_contains(x: (WindowHandle, Seq<char>), s: Seq<(WindowHandle, Seq<char>)>)
    ensures
        insert_by_title(x, s).contains(x),
        forall|e: (WindowHandle, Seq<char>)| s.contains(e) ==> insert_by_title(x, s).contains(e),
    decreases s.len(),
{
    let r = insert_by_title(x, s);
    if s.len() == 0 {
        assert(r[0] == x);
    } else if !lex_lt(s[0].1, x.1) {
        assert(r[0] == x);
        assert forall|e: (WindowHandle, Seq<char>)| s.contains(e) implies r.contains(e) by {
            let m = choose|m: int| 0 <= m < s.len() && s[m] == e;
            assert(r[m + 1] == e);
        }
    } else {
        lemma_insert_contains(x, s.skip(1));
        let rr = insert_by_title(x, s.skip(1));
        let m = choose|m: int| 0 <= m < rr.len() && rr[m] == x;
        assert(r[m + 1] == x);
        assert forall|e: (WindowHandle, Seq<char>)| s.contains(e) implies r.contains(e) by {
            let n = choose|n: int| 0 <= n < s.len() && s[n] == e;
            if n == 0 {
                assert(r[0] == e);
            } else {
                assert(s.skip(1)[n - 1] == e);
                assert(s.skip(1).contains(e));
                let p = choose|p: int| 0 <= p < rr.len() && rr[p] == e;
                assert(r[p + 1] == e);
            }
        }
    }
}

/// Sorting loses nothing: every candidate appears in the sorted sequence.
pub proof fn lemma_sort_contains(s: Seq<(WindowHandle, Seq<char>)>)
    ensures
        forall|e: (WindowHandle, Seq<char>)| s.contains(e) ==> sort_by_title(s).contains(e),
    decreases s.len(),
{
    if s.len() > 0 {
        lemma_sort_contains(s.skip(1));
        lemma_insert_contains(s[0], sort_by_title(s.skip(1)));
        assert forall|e: (WindowHandle, Seq<char>)| s.contains(e) implies sort_by_title(
            s,
        ).contains(e) by {
            let n = choose|n: int| 0 <= n < s.len() && s[n] == e;
            if n > 0 {
                assert(s.skip(1)[n - 1] == e);
                assert(s.skip(1).contains(e));
            }
        }
    }
}

/// Collapsing keeps every element among the originals, and keeps at least
/// one entry of every title other than the one already emitted.
pub proof fn lemma_dedup_tail_titles(s: Seq<(WindowHandle, Seq<char>)>, prev: Seq<char>)
    ensures
        forall|k: int| 0 <= k < dedup_tail(s, prev).len()
            ==> s.contains(#[trigger] dedup_tail(s, prev)[k]),
        forall|k: int| 0 <= k < s.len() && (#[trigger] s[k]).1 != prev
            ==> exists|m: int| 0 <= m < dedup_tail(s, prev).len()
                && (#[trigger] dedup_tail(s, prev)[m]).1 == s[k].1,
    decreases s.len(),
{
    let d = dedup_tail(s, prev);
    if s.len() == 0 {
    } else if s[0].1 == prev {
        lemma_dedup_tail_titles(s.skip(1), prev);
        assert forall|k: int| 0 <= k < d.len() implies s.contains(d[k]) by {
            assert(d == dedup_tail(s.skip(1), prev));
            assert(s.skip(1).contains(dedup_tail(s.skip(1), prev)[k]));
            assert(s.skip(1).contains(d[k]));
            let m = choose|m: int| 0 <= m < s.skip(1).len() && s.skip(1)[m] == d[k];
            assert(s[m + 1] == d[k]);
        }
        assert forall|k: int| 0 <= k < s.len() && (s[k]).1 != prev implies exists|m: int|
            0 <= m < d.len() && (#[trigger] d[m]).1 == s[k].1 by {
            assert(s.skip(1)[k - 1] == s[k]);
        }
    } else {
        lemma_dedup_tail_titles(s.skip(1), s[0].1);
        let dd = dedup_tail(s.skip(1), s[0].1);
        assert forall|k: int| 0 <= k < d.len() implies s.contains(d[k]) by {
            if k == 0 {
                assert(s[0] == d[0]);
            } else {
                assert(dd[k - 1] == d[k]);
                assert(s.skip(1).contains(dd[k - 1]));
                let m = choose|m: int| 0 <= m < s.skip(1).len() && s.skip(1)[m] == d[k];
                assert(s[m + 1] == d[k]);
            }
        }
        assert forall|k: int| 0 <= k < s.len() && (s[k]).1 != prev implies exists|m: int|
            0 <= m < d.len() && (#[trigger] d[m]).1 == s[k].1 by {
            if s[k].1 == s[0].1 {
                assert(d[0].1 == s[k].1);
            } else if k > 0 {
                assert(s.skip(1)[k - 1] == s[k]);
                let m = choose|m: int| 0 <= m < dd.len() && (#[trigger] dd[m]).1 == s[k].1;
                assert(d[m + 1].1 == s[k].1);
            }
        }
    }
}

/// The registry lists exactly the candidate windows' titles: every entry
/// is one of the candidates, and every candidate's title is listed.
pub proof fn lemma_registry_lists_all_candidates(raws: Seq<RawWindow>)
    ensures
        forall|k: int| 0 <= k < registry_spec(raws).len()
            ==> candidates(raws).contains(#[trigger] registry_spec(raws)[k]),
        forall|k: int| 0 <= k < candidates(raws).len()
            ==> exists|m: int| 0 <= m < registry_spec(raws).len()
                && (#[trigger] registry_spec(raws)[m]).1 == (#[trigger] candidates(raws)[k]).1,
{
    let c = candidates(raws);
    let s = sort_by_title(c);
    let d = registry_spec(raws);
    lemma_sort_sorted(c);
    lemma_sort_contains(c);
    if s.len() > 0 {
        lemma_dedup_tail_titles(s.skip(1), s[0].1);
        let dd = dedup_tail(s.skip(1), s[0].1);
        assert forall|k: int| 0 <= k < d.len() implies c.contains(d[k]) by {
            if k == 0 {
                assert(d[0] == s[0]);
                assert(s.contains(s[0]));
            } else {
                assert(d[k] == dd[k - 1]);
                assert(s.skip(1).contains(dd[k - 1]));
                let m = choose|m: int| 0 <= m < s.skip(1).len() && s.skip(1)[m] == d[k];
                assert(s[m + 1] == d[k]);
            }
        }
        assert forall|k: int| 0 <= k < c.len() implies exists|m: int|
            0 <= m < d.len() && (#[trigger] d[m]).1 == (#[trigger] c[k]).1 by {
            assert(c.contains(c[k]));
            assert(s.contains(c[k]));
            let n = choose|n: int| 0 <= n < s.len() && s[n] == c[k];
            if s[n].1 == s[0].1 {
                assert(d[0].1 == c[k].1);
            } else {
                assert(s.skip(1)[n - 1] == s[n]);
                let m = choose|m: int| 0 <= m < dd.len() && (#[trigger] dd[m]).1 == s[n].1;
                assert(d[m + 1].1 == c[k].1);
            }
        }
    }
}

/// Sorting an already title-sorted sequence changes nothing.
pub proof fn lemma_sort_of_sorted(s: Seq<(WindowHandle, Seq<char>)>)
    requires
        sorted_le(s),
    ensures
        sort_by_title(s) == s,
    decreases s.len(),
{
    if s.len() > 0 {
        assert(forall|k: int| 0 <= k < s.skip(1).len() ==> s.skip(1)[k] == s[k + 1]);
        lemma_sort_of_sorted(s.skip(1));
        if s.len() > 1 {
            assert(!lex_lt(s.skip(1)[0].1, s[0].1));
        }
        assert(seq![s[0]] + s.skip(1) =~= s);
    }
}

/// The canonical registry is idempotent under re-sorting: its strictly
/// ascending order is already the sorted order.
pub proof fn lemma_registry_resort_identity(raws: Seq<RawWindow>)
    ensures
        sort_by_title(registry_spec(raws)) == registry_spec(raws),
{
    lemma_registry_sorted_unique(raws);
    let r = registry_spec(raws);
    assert forall|i: int, j: int| 0 <= i < j < r.len() implies !lex_lt(r[j].1, r[i].1) by {
        if lex_lt(r[j].1, r[i].1) {
            lemma_lex_lt_trans(r[i].1, r[j].1, r[i].1);
            lemma_lex_lt_irrefl(r[i].1);
        }
    }
    lemma_sort_of_sorted(r);
}

/// Why no snapshot could be taken: the operating system refused to
/// enumerate windows at all. Fatal to the current invocation — the caller
/// reports it and abandons the selection cycle, with no window affected.
#[derive(Clone, Copy, PartialEq, Eq, Structural, Debug)]
pub enum EnumerationError {
    Refused,
}

/// The deduplicated, title-sorted registry of one enumeration pass.
pub struct Registry {
    pub entries: Vec<WindowEntry>,
}

impl View for Registry {
    type V = Seq<(WindowHandle, Seq<char>)>;

    open spec fn view(&self) -> Seq<(WindowHandle, Seq<char>)> {
        entries_view(self.entries@)
    }
}

impl Registry {
    /// The registry invariant: titles strictly ascend, so they are unique
    /// and the listing order is deterministic.
    pub open spec fn well_formed(self) -> bool {
        sorted_lt(self@)
    }

    /// How many windows the registry lists.
    pub fn len(&self) -> (n: usize)
        ensures
            n == self@.len(),
    {
        self.entries.len()
    }

    /// The titles, in listing order — the numbered listing shown to the
    /// user, whose index `i` names the window of `self@[i]`.
    pub fn numbered_titles(&self) -> (r: Vec<String>)
        ensures
            r@.len() == self@.len(),
            forall|i: int| 0 <= i < r@.len() ==> #[trigger] r@[i]@ == self@[i].1,
    {
        let mut r: Vec<String> = Vec::new();
        let mut i: usize = 0;
        while i < self.entries.len()
            invariant
                i <= self.entries@.len(),
                r@.len() == i,
                forall|j: int| 0 <= j < i ==> #[trigger] r@[j]@ == entries_view(self.entries@)[j].1,
            decreases self.entries@.len() - i,
        {
            r.push(self.entries[i].title.clone());
            i += 1;
        }
        r
    }

    /// Resolve a numbered-listing index back to the handle it names:
    /// `Some` of the handle of `self@[index]` exactly when the index is in
    /// range.
    pub fn select(&self, index: usize) -> (r: Option<WindowHandle>)
        ensures
            index < self@.len() ==> r == Some(self@[index as int].0),
            index >= self@.len() ==> r is None,
    {
        if index < self.entries.len() {
            Some(self.entries[index].handle)
        } else {
            None
        }
    }

    /// Resolve a title back to a handle: `Some` of the handle of an entry
    /// carrying exactly that title, `None` when no entry does.
    pub fn resolve_title(&self, title: &str) -> (r: Option<WindowHandle>)
        ensures
            r matches Some(h) ==> exists|i: int|
                0 <= i < self@.len() && (#[trigger] self@[i]).1 == title@ && self@[i].0 == h,
            r is None ==> forall|i: int| 0 <= i < self@.len() ==> #[trigger] self@[i].1 != title@,
    {
        let mut i: usize = 0;
        while i < self.entries.len()
            invariant
                i <= self.entries@.len(),
                forall|j: int| 0 <= j < i ==> #[trigger] entries_view(self.entries@)[j].1
                    != title@,
            decreases self.entries@.len() - i,
        {
            if str_eq(self.entries[i].title.as_str(), title) {
                proof {
                    assert(self@[i as int] == entry_view(self.entries@[i as int]));
                    assert(0 <= (i as int) < self@.len() && self@[i as int].1 == title@
                        && self@[i as int].0 == self.entries@[i as int].handle);
                }
                return Some(self.entries[i].handle);
            }
            i += 1;
        }
        None
    }
}

/// In a well-formed registry, equal titles mean the same entry: a title
/// resolved through `resolve_title` names exactly one handle, so selecting
/// a listed title always reaches the window that was listed under it.
pub proof fn lemma_titles_unique(r: Registry, i: int, j: int)
    requires
        r.well_formed(),
        0 <= i < r@.len(),
        0 <= j < r@.len(),
        r@[i].1 == r@[j].1,
    ensures
        i == j,
{
    if i < j {
        lemma_lex_lt_irrefl(r@[i].1);
    }
    if j < i {
        lemma_lex_lt_irrefl(r@[i].1);
    }
}

/// Round trip through the numbered listing: in a well-formed registry the
/// title listed at index `i` is carried by no other entry, so resolving
/// that title — by index or by text — reaches exactly the handle of entry
/// `i`, the one `select(i)` returns.
pub proof fn lemma_selection_round_trip(r: Registry, i: int)
    requires
        r.well_formed(),
        0 <= i < r@.len(),
    ensures
        forall|j: int| 0 <= j < r@.len() && (#[trigger] r@[j]).1 == r@[i].1 ==> r@[j].0
            == r@[i].0,
{
    assert forall|j: int| 0 <= j < r@.len() && (r@[j]).1 == r@[i].1 implies r@[j].0 == r@[i].0 by {
        lemma_titles_unique(r, i, j);
    }
}

/// Find the position a candidate title belongs at: the first entry whose
/// title is not below it.
fn find_insert_pos(v: &Vec<WindowEntry>, title: &str) -> (j: usize)
    ensures
        j <= v@.len(),
        forall|k: int| 0 <= k < j ==> lex_lt(#[trigger] entries_view(v@)[k].1, title@),
        j < v@.len() ==> !lex_lt(entries_view(v@)[j as int].1, title@),
{
    let mut j: usize = 0;
    while j < v.len()
        invariant
            j <= v@.len(),
            forall|k: int| 0 <= k < j ==> lex_lt(#[trigger] entries_view(v@)[k].1, title@),
        decreases v@.len() - j,
    {
        if !title_lt(v[j].title.as_str(), title) {
            return j;
        }
        j += 1;
    }
    j
}

/// Position-wise insertion agrees with the recursive insertion order.
proof fn lemma_insert_at(
    x: (WindowHandle, Seq<char>),
    s: Seq<(WindowHandle, Seq<char>)>,
    j: int,
)
    requires
        0 <= j <= s.len(),
        forall|k: int| 0 <= k < j ==> lex_lt(#[trigger] s[k].1, x.1),
        j < s.len() ==> !lex_lt(s[j].1, x.1),
    ensures
        insert_by_title(x, s) == s.take(j) + seq![x] + s.skip(j),
    decreases j,
{
    if j == 0 {
        assert(insert_by_title(x, s) =~= s.take(0) + seq![x] + s.skip(0));
    } else {
        assert(forall|k: int| 0 <= k < s.skip(1).len() ==> s.skip(1)[k] == s[k + 1]);
        lemma_insert_at(x, s.skip(1), j - 1);
        assert(seq![s[0]] + (s.skip(1).take(j - 1) + seq![x] + s.skip(1).skip(j - 1)) =~= s.take(
            j,
        ) + seq![x] + s.skip(j));
    }
}

/// Insert one entry into a title-sorted vector at its place.
fn insert_entry(v: &mut Vec<WindowEntry>, x: WindowEntry)
    ensures
        entries_view(final(v)@) == insert_by_title(entry_view(x), entries_view(old(v)@)),
{
    let j = find_insert_pos(v, x.title.as_str());
    proof {
        lemma_insert_at(entry_view(x), entries_view(v@), j as int);
    }
    v.insert(j, x);
    proof {
        assert(entries_view(final(v)@) =~= entries_view(old(v)@).take(j as int) + seq![
            entry_view(x),
        ] + entries_view(old(v)@).skip(j as int));
    }
}

/// Build the registry of one enumeration pass: decode titles, discard
/// invisible windows and empty or undecodable titles, sort by title
/// ascending, and collapse adjacent equal titles keeping the first. The
/// result is exactly the canonical registry of the raw enumeration, and it
/// is well-formed.
pub fn build_registry(raws: &Vec<RawWindow>) -> (r: Registry)
    ensures
        r@ == registry_spec(raws@),
        r.well_formed(),
{
    // Decode and filter.
    let mut cand: Vec<WindowEntry> = Vec::new();
    let mut i: usize = 0;
    while i < raws.len()
        invariant
            i <= raws@.len(),
            entries_view(cand@) == candidates(raws@.take(i as int)),
        decreases raws@.len() - i,
    {
        let w = &raws[i];
        let ghost pre = cand@;
        let mut keep = false;
        if w.visible {
            match decode_title(&w.title_buffer) {
                Some(t) => {
                    if !t.as_str().is_empty() {
                        keep = true;
                        cand.push(WindowEntry { handle: w.handle, title: t });
                    }
                },
                None => {},
            }
        }
        proof {
            reveal_with_fuel(candidates, 2);
            let one = seq![raws@[i as int]];
            assert(one.skip(1) =~= Seq::<RawWindow>::empty());
            lemma_candidates_concat(raws@.take(i as int), one);
            assert(raws@.take(i + 1) =~= raws@.take(i as int) + one);
            if keep {
                assert(candidates(one) =~= seq![entry_view(cand@[cand@.len() - 1])]);
                assert(entries_view(cand@) =~= entries_view(pre) + candidates(one));
            } else {
                assert(candidates(one) =~= Seq::<(WindowHandle, Seq<char>)>::empty());
                assert(entries_view(cand@) =~= entries_view(pre) + candidates(one));
            }
        }
        i += 1;
    }
    proof {
        assert(raws@.take(raws@.len() as int) =~= raws@);
    }

    // Sort by title, stably: insert candidates from the last enumeration
    // position to the first, each before the run of titles equal to its own.
    let ghost cand0 = cand@;
    let mut sorted: Vec<WindowEntry> = Vec::new();
    while cand.len() > 0
        invariant
            cand@.len() <= cand0.len(),
            cand@ == cand0.take(cand@.len() as int),
            entries_view(sorted@) == sort_by_title(
                entries_view(cand0.skip(cand@.len() as int)),
            ),
        decreases cand@.len(),
    {
        let ghost k = cand@.len() as int;
        let e = cand.pop().unwrap();
        proof {
            assert(cand0.take(k).subrange(0, k - 1) =~= cand0.take(k - 1));
            assert(cand0.take(k)[k - 1] == cand0[k - 1]);
        }
        insert_entry(&mut sorted, e);
        proof {
            let tail = entries_view(cand0.skip(k - 1));
            assert(tail[0] == entry_view(cand0[k - 1]));
            assert(cand0.skip(k - 1).skip(1) =~= cand0.skip(k));
            assert(entries_view(cand0.skip(k - 1)).skip(1) =~= entries_view(cand0.skip(k)));
        }
    }
    proof {
        assert(cand0.skip(0) =~= cand0);
    }

    // Collapse adjacent equal titles, keeping the first of each run.
    let ghost sorted0 = entries_view(sorted@);
    let mut out: Vec<WindowEntry> = Vec::new();
    while sorted.len() > 0
        invariant
            out@.len() == 0 ==> entries_view(sorted@) == sorted0,
            out@.len() > 0 ==> dedup_keep_first(sorted0) == entries_view(out@) + dedup_tail(
                entries_view(sorted@),
                entries_view(out@)[out@.len() - 1].1,
            ),
        decreases sorted@.len(),
    {
        let ghost pre_out = entries_view(out@);
        let ghost pre_sorted = entries_view(sorted@);
        let e = sorted.remove(0);
        proof {
            assert(entries_view(sorted@) =~= pre_sorted.skip(1));
            assert(pre_sorted[0] == entry_view(e));
        }
        if out.len() == 0 {
            out.push(e);
            proof {
                assert(entries_view(out@) =~= seq![pre_sorted[0]]);
                assert(dedup_keep_first(sorted0) =~= entries_view(out@) + dedup_tail(
                    pre_sorted.skip(1),
                    pre_sorted[0].1,
                ));
            }
        } else {
            let last = out.len() - 1;
            let dup = str_eq(out[last].title.as_str(), e.title.as_str());
            let ghost prev = pre_out[pre_out.len() - 1].1;
            if !dup {
                out.push(e);
                proof {
                    assert(dedup_tail(pre_sorted, prev) =~= seq![pre_sorted[0]] + dedup_tail(
                        pre_sorted.skip(1),
                        pre_sorted[0].1,
                    ));
                    assert(entries_view(out@) =~= pre_out + seq![pre_sorted[0]]);
                    assert(pre_out + (seq![pre_sorted[0]] + dedup_tail(
                        pre_sorted.skip(1),
                        pre_sorted[0].1,
                    )) =~= entries_view(out@) + dedup_tail(pre_sorted.skip(1), pre_sorted[0].1));
                }
            } else {
                proof {
                    assert(dedup_tail(pre_sorted, prev) =~= dedup_tail(pre_sorted.skip(1), prev));
                }
            }
        }
    }
    proof {
        if out@.len() == 0 {
            assert(entries_view(sorted@) =~= Seq::<(WindowHandle, Seq<char>)>::empty());
            assert(entries_view(out@) =~= dedup_keep_first(sorted0));
        } else {
            assert(entries_view(sorted@) =~= Seq::<(WindowHandle, Seq<char>)>::empty());
            assert(entries_view(out@) + dedup_tail(
                entries_view(sorted@),
                entries_view(out@)[out@.len() - 1].1,
            ) =~= entries_view(out@));
        }
    }

    let r = Registry { entries: out };
    proof {
        lemma_sort_sorted(candidates(raws@));
        lemma_dedup_strict(sort_by_title(candidates(raws@)));
    }
    r
}

/// Take the snapshot of one enumeration pass: `raws` holds the raw
/// enumeration when the operating system delivered one, and nothing when
/// it refused to enumerate. Succeeds with the canonical registry exactly
/// in the first case, and fails with `EnumerationError` exactly in the
/// second.
pub fn snapshot(raws: Option<&Vec<RawWindow>>) -> (r: Result<Registry, EnumerationError>)
    ensures
        r matches Ok(reg) ==> raws matches Some(v) && reg@ == registry_spec(v@)
            && reg.well_formed(),
        r matches Err(e) ==> raws is None && e == EnumerationError::Refused,
        raws is Some <==> r is Ok,
{
    match raws {
        Some(v) => Ok(build_registry(v)),
        None => Err(EnumerationError::Refused),
    }
}

} // verus!
