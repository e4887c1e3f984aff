//! Fuzzy ranking of window titles against a query.
//!
//! A query matches a title when its characters appear, in order, within the
//! title (a fuzzy subsequence match, case-insensitively under the matcher's
//! smart-case rule); the score rewards contiguous runs and matches anchored
//! at word boundaries. The scoring itself is the `fuzzy_matcher` crate's
//! skim algorithm, reached through one trusted wrapper; everything around it
//! — which titles are kept, and the descending, tie-stable order they are
//! listed in — is verified. An empty query matches every title with the
//! score the matcher assigns to an empty pattern, so the full registry is
//! listed until the user types.

use vstd::prelude::*;
use fuzzy_matcher::FuzzyMatcher;
use fuzzy_matcher::skim::SkimMatcherV2;

verus! {

/// What `fuzzy_matcher`'s skim algorithm (in its default configuration)
/// scores a title at for a query: `None` when the query does not match the
/// title, `Some` of the score when it does. A function of the two texts
/// alone.
pub uninterp spec fn skim_score(title: Seq<char>, query: Seq<char>) -> Option<i64>;

/// Relies on `SkimMatcherV2::default` and `FuzzyMatcher::fuzzy_match` of
/// the `fuzzy_matcher` crate: the score is computed from the two strings
/// alone, and an empty pattern matches anything with score zero.
#[verifier::external_body]
fn skim_fuzzy_match(title: &str, query: &str) -> (r: Option<i64>)
    ensures
        r == skim_score(title@, query@),
        query@.len() == 0 ==> r == Some(0i64),
{
    SkimMatcherV2::default().fuzzy_match(title, query)
}

/// The texts of a sequence of titles.
pub open spec fn titles_view(titles: Seq<String>) -> Seq<Seq<char>> {
    titles.map_values(|t: String| t@)
}

/// One ranked match: a matching title and the score the query earned on it.
pub struct RankedMatch {
    pub title: String,
    pub score: i64,
}

/// The scored candidates among `titles[from..]`, in listing order: each
/// matching title's index paired with its score.
pub open spec fn scored(titles: Seq<Seq<char>>, query: Seq<char>, from: int) -> Seq<(int, i64)>
    decreases titles.len() - from,
    when 0 <= from <= titles.len()
{
    if from >= titles.len() {
        Seq::empty()
    } else {
        let rest = scored(titles, query, from + 1);
        match skim_score(titles[from], query) {
            Some(s) => seq![(from, s)] + rest,
            None => rest,
        }
    }
}

/// Insert a scored candidate into a descending-sorted sequence, before the
/// first element whose score does not exceed the candidate's. Inserting
/// each candidate of an earlier listing position this way keeps earlier
/// positions first among equal scores.
pub open spec fn insert_desc(x: (int, i64), s: Seq<(int, i64)>) -> Seq<(int, i64)>
    decreases s.len(),
{
    if s.len() == 0 {
        seq![x]
    } else if x.1 >= s[0].1 {
        seq![x] + s
    } else {
        seq![s[0]] + insert_desc(x, s.skip(1))
    }
}

/// Sort scored candidates by descending score, stably.
pub open spec fn sort_desc(s: Seq<(int, i64)>) -> Seq<(int, i64)>
    decreases s.len(),
{
    if s.len() == 0 {
        s
    } else {
        insert_desc(s[0], sort_desc(s.skip(1)))
    }
}

/// The ranking of `titles` against `query`: every matching title's index
/// and score, ordered by descending score, ties kept in listing order.
pub open spec fn ranked(titles: Seq<Seq<char>>, query: Seq<char>) -> Seq<(int, i64)> {
    sort_desc(scored(titles, query, 0))
}

/// Scores never ascend along the sequence.
pub open spec fn sorted_desc(s: Seq<(int, i64)>) -> bool {
    forall|i: int, j: int| 0 <= i < j < s.len() ==> s[i].1 >= s[j].1
}

/// Ties are stable: equal scores keep ascending listing positions.
pub open spec fn stable_ties(s: Seq<(int, i64)>) -> bool {
    forall|i: int, j: int| 0 <= i < j < s.len() && s[i].1 == s[j].1 ==> s[i].0 < s[j].0
}

/// Every scored candidate carries an in-range index at or past `from`,
/// the score the query earns on its title, and indices strictly ascend.
pub proof fn lemma_scored_bounds(titles: Seq<Seq<char>>, query: Seq<char>, from: int)
    requires
        0 <= from <= titles.len(),
    ensures
        forall|k: int| 0 <= k < scored(titles, query, from).len()
            ==> from <= (#[trigger] scored(titles, query, from)[k]).0 < titles.len()
                && skim_score(titles[scored(titles, query, from)[k].0], query) == Some(
                scored(titles, query, from)[k].1,
            ),
        forall|a: int, b: int| 0 <= a < b < scored(titles, query, from).len()
            ==> (#[trigger] scored(titles, query, from)[a]).0 < (#[trigger] scored(
                titles,
                query,
                from,
            )[b]).0,
    decreases titles.len() - from,
{
    if from < titles.len() {
        lemma_scored_bounds(titles, query, from + 1);
    }
}

/// Inserting a candidate whose listing position is below every position in
/// a descending, tie-stable sequence keeps it descending and tie-stable;
/// every element of the result is the candidate or one of the originals.
pub proof fn lemma_insert_desc(x: (int, i64), s: Seq<(int, i64)>)
    requires
        sorted_desc(s),
        stable_ties(s),
        forall|k: int| 0 <= k < s.len() ==> x.0 < (#[trigger] s[k]).0,
    ensures
        sorted_desc(insert_desc(x, s)),
        stable_ties(insert_desc(x, s)),
        insert_desc(x, s).len() == s.len() + 1,
        forall|k: int| 0 <= k < insert_desc(x, s).len()
            ==> insert_desc(x, s)[k] == x || s.contains(#[trigger] insert_desc(x, s)[k]),
    decreases s.len(),
{
    let r = insert_desc(x, s);
    if s.len() == 0 {
    } else if x.1 >= s[0].1 {
        assert forall|k: int| 0 <= k < r.len() implies r[k] == x || s.contains(r[k]) by {
            if k > 0 {
                assert(r[k] == s[k - 1]);
            }
        }
    } else {
        assert(forall|k: int| 0 <= k < s.skip(1).len() ==> s.skip(1)[k] == s[k + 1]);
        lemma_insert_desc(x, s.skip(1));
        let rr = insert_desc(x, s.skip(1));
        assert forall|k: int| 0 <= k < r.len() implies r[k] == x || s.contains(r[k]) by {
            if k == 0 {
                assert(s.contains(s[0]));
            } else {
                assert(r[k] == rr[k - 1]);
                if rr[k - 1] != x {
                    let m = choose|m: int| 0 <= m < s.skip(1).len() && s.skip(1)[m] == rr[k - 1];
                    assert(s.skip(1)[m] == s[m + 1]);
                }
            }
        }
        assert forall|i: int, j: int| 0 <= i < j < r.len() implies r[i].1 >= r[j].1 by {
            if i == 0 {
                assert(r[j] == rr[j - 1]);
            } else {
                assert(r[i] == rr[i - 1] && r[j] == rr[j - 1]);
            }
        }
        assert forall|i: int, j: int| 0 <= i < j < r.len() && r[i].1 == r[j].1 implies r[i].0
            < r[j].0 by {
            if i == 0 {
                assert(r[j] == rr[j - 1]);
                // x's score is strictly below s[0]'s, so an equal-scored
                // element of the tail is not x and keeps its position order.
                if rr[j - 1] != x {
                    let m = choose|m: int| 0 <= m < s.skip(1).len() && s.skip(1)[m] == rr[j - 1];
                }
            } else {
                assert(r[i] == rr[i - 1] && r[j] == rr[j - 1]);
            }
        }
    }
}

/// Sorting candidates with strictly ascending listing positions yields a
/// descending, tie-stable sequence of the same candidates.
pub proof fn lemma_sort_desc(s: Seq<(int, i64)>)
    requires
        forall|a: int, b: int| 0 <= a < b < s.len() ==> (#[trigger] s[a]).0 < (#[trigger] s[b]).0,
    ensures
        sorted_desc(sort_desc(s)),
        stable_ties(sort_desc(s)),
        sort_desc(s).len() == s.len(),
        forall|k: int| 0 <= k < sort_desc(s).len() ==> s.contains(#[trigger] sort_desc(s)[k]),
    decreases s.len(),
{
    if s.len() > 0 {
        assert(forall|k: int| 0 <= k < s.skip(1).len() ==> s.skip(1)[k] == s[k + 1]);
        lemma_sort_desc(s.skip(1));
        let rest = sort_desc(s.skip(1));
        assert forall|k: int| 0 <= k < rest.len() implies s[0].0 < (#[trigger] rest[k]).0 by {
            let m = choose|m: int| 0 <= m < s.skip(1).len() && s.skip(1)[m] == rest[k];
            assert(s.skip(1)[m] == s[m + 1]);
        }
        lemma_insert_desc(s[0], rest);
        let r = sort_desc(s);
        assert forall|k: int| 0 <= k < r.len() implies s.contains(r[k]) by {
            if r[k] == s[0] {
                assert(s.contains(s[0]));
            } else {
                assert(rest.contains(r[k]));
                let m = choose|m: int| 0 <= m < rest.len() && rest[m] == r[k];
                let n = choose|n: int| 0 <= n < s.skip(1).len() && s.skip(1)[n] == r[k];
                assert(s.skip(1)[n] == s[n + 1]);
            }
        }
    }
}

/// The ranking of any titles against any query is sorted by descending
/// score, and stable on ties with respect to the listing order: equal
/// scores appear in ascending listing position.
pub proof fn lemma_rank_sorted_stable(titles: Seq<Seq<char>>, query: Seq<char>)
    ensures
        sorted_desc(ranked(titles, query)),
        stable_ties(ranked(titles, query)),
        ranked(titles, query).len() == scored(titles, query, 0).len(),
        forall|k: int| 0 <= k < ranked(titles, query).len()
            ==> 0 <= (#[trigger] ranked(titles, query)[k]).0 < titles.len()
                && skim_score(titles[ranked(titles, query)[k].0], query) == Some(
                ranked(titles, query)[k].1,
            ),
{
    lemma_scored_bounds(titles, query, 0);
    lemma_sort_desc(scored(titles, query, 0));
    let sc = scored(titles, query, 0);
    let r = ranked(titles, query);
    assert forall|k: int| 0 <= k < r.len() implies 0 <= (#[trigger] r[k]).0 < titles.len()
        && skim_score(titles[r[k].0], query) == Some(r[k].1) by {
        assert(sc.contains(r[k]));
        let m = choose|m: int| 0 <= m < sc.len() && sc[m] == r[k];
    }
}

/// Insertion loses nothing: the candidate and every original element
/// appear in the result.
pub proof fn lemma_insert_desc_contains(x: (int, i64), s: Seq<(int, i64)>)
    ensures
        insert_desc(x, s).contains(x),
        forall|e: (int, i64)| s.contains(e) ==> insert_desc(x, s).contains(e),
    decreases s.len(),
{
    let r = insert_desc(x, s);
    if s.len() == 0 {
        assert(r[0] == x);
    } else if x.1 >= s[0].1 {
        assert(r[0] == x);
        assert forall|e: (int, i64)| s.contains(e) implies r.contains(e) by {
            let m = choose|m: int| 0 <= m < s.len() && s[m] == e;
            assert(r[m + 1] == e);
        }
    } else {
        lemma_insert_desc_contains(x, s.skip(1));
        let rr = insert_desc(x, s.skip(1));
        let m = choose|m: int| 0 <= m < rr.len() && rr[m] == x;
        assert(r[m + 1] == x);
        assert forall|e: (int, i64)| s.contains(e) implies r.contains(e) by {
            let n = choose|n: int| 0 <= n < s.len() && s[n] == e;
            if n == 0 {
                assert(r[0] == e);
            } else {
                assert(s.skip(1)[n - 1] == e);
                assert(s.skip(1).contains(e));
                let p = choose|p: int| 0 <= p < rr.len() && rr[p] == e;
                assert(r[p + 1] == e);
            }
        }
    }
}

/// Sorting loses nothing: every scored candidate appears in the ranking.
pub proof fn lemma_sort_desc_contains(s: Seq<(int, i64)>)
    ensures
        forall|e: (int, i64)| s.contains(e) ==> sort_desc(s).contains(e),
    decreases s.len(),
{
    if s.len() > 0 {
        lemma_sort_desc_contains(s.skip(1));
        lemma_insert_desc_contains(s[0], sort_desc(s.skip(1)));
        assert forall|e: (int, i64)| s.contains(e) implies sort_desc(s).contains(e) by {
            let n = choose|n: int| 0 <= n < s.len() && s[n] == e;
            if n > 0 {
                assert(s.skip(1)[n - 1] == e);
                assert(s.skip(1).contains(e));
            }
        }
    }
}

/// Scoring loses nothing: every title the query matches contributes a
/// scored candidate.
pub proof fn lemma_scored_complete(titles: Seq<Seq<char>>, query: Seq<char>, from: int, idx: int)
    requires
        0 <= from <= idx < titles.len(),
        skim_score(titles[idx], query) is Some,
    ensures
        scored(titles, query, from).contains(
            (idx, skim_score(titles[idx], query).unwrap()),
        ),
    decreases titles.len() - from,
{
    let sc = scored(titles, query, from);
    if from == idx {
        assert(sc[0] == (idx, skim_score(titles[idx], query).unwrap()));
    } else {
        lemma_scored_complete(titles, query, from + 1, idx);
        let rest = scored(titles, query, from + 1);
        let m = choose|m: int|
            0 <= m < rest.len() && rest[m] == (idx, skim_score(titles[idx], query).unwrap());
        match skim_score(titles[from], query) {
            Some(s) => {
                assert(sc[m + 1] == (idx, skim_score(titles[idx], query).unwrap()));
            },
            None => {},
        }
    }
}

/// The ranking includes every matching title: whenever the query earns a
/// score on a title, that title's index appears in `ranked` with exactly
/// that score.
pub proof fn lemma_rank_complete(titles: Seq<Seq<char>>, query: Seq<char>, idx: int)
    requires
        0 <= idx < titles.len(),
        skim_score(titles[idx], query) is Some,
    ensures
        exists|k: int| 0 <= k < ranked(titles, query).len()
            && (#[trigger] ranked(titles, query)[k]).0 == idx
            && Some(ranked(titles, query)[k].1) == skim_score(titles[idx], query),
{
    lemma_scored_complete(titles, query, 0, idx);
    lemma_sort_desc_contains(scored(titles, query, 0));
    let r = ranked(titles, query);
    let x = (idx, skim_score(titles[idx], query).unwrap());
    assert(r.contains(x));
    let k = choose|k: int| 0 <= k < r.len() && r[k] == x;
    assert(r[k].0 == idx && Some(r[k].1) == skim_score(titles[idx], query));
}

/// The scored-candidate view of an index-and-score vector.
pub open spec fn pairs_view(s: Seq<(usize, i64)>) -> Seq<(int, i64)> {
    s.map_values(|p: (usize, i64)| (p.0 as int, p.1))
}

/// Find the position a scored candidate belongs at: the first element whose
/// score does not exceed it.
fn find_desc_pos(v: &Vec<(usize, i64)>, score: i64) -> (j: usize)
    ensures
        j <= v@.len(),
        forall|k: int| 0 <= k < j ==> score < (#[trigger] pairs_view(v@)[k]).1,
        j < v@.len() ==> score >= pairs_view(v@)[j as int].1,
{
    let mut j: usize = 0;
    while j < v.len()
        invariant
            j <= v@.len(),
            forall|k: int| 0 <= k < j ==> score < (#[trigger] pairs_view(v@)[k]).1,
        decreases v@.len() - j,
    {
        if score >= v[j].1 {
            return j;
        }
        j += 1;
    }
    j
}

/// Position-wise insertion agrees with the recursive insertion order.
proof fn lemma_insert_desc_at(x: (int, i64), s: Seq<(int, i64)>, j: int)
    requires
        0 <= j <= s.len(),
        forall|k: int| 0 <= k < j ==> x.1 < (#[trigger] s[k]).1,
        j < s.len() ==> x.1 >= s[j].1,
    ensures
        insert_desc(x, s) == s.take(j) + seq![x] + s.skip(j),
    decreases j,
{
    if j == 0 {
        assert(insert_desc(x, s) =~= s.take(0) + seq![x] + s.skip(0));
    } else {
        assert(forall|k: int| 0 <= k < s.skip(1).len() ==> s.skip(1)[k] == s[k + 1]);
        lemma_insert_desc_at(x, s.skip(1), j - 1);
        assert(seq![s[0]] + (s.skip(1).take(j - 1) + seq![x] + s.skip(1).skip(j - 1)) =~= s.take(
            j,
        ) + seq![x] + s.skip(j));
    }
}

/// Insert one scored candidate into a descending-sorted vector at its place.
fn insert_scored(v: &mut Vec<(usize, i64)>, x: (usize, i64))
    ensures
        pairs_view(final(v)@) == insert_desc((x.0 as int, x.1), pairs_view(old(v)@)),
{
    let j = find_desc_pos(v, x.1);
    proof {
        lemma_insert_desc_at((x.0 as int, x.1), pairs_view(v@), j as int);
    }
    v.insert(j, x);
    proof {
        assert(pairs_view(final(v)@) =~= pairs_view(old(v)@).take(j as int) + seq![
            (x.0 as int, x.1),
        ] + pairs_view(old(v)@).skip(j as int));
    }
}

/// Rank `titles` against `query`: exactly the matching titles, each with
/// its score, ordered by descending score and stable on ties with respect
/// to the listing order of `titles`.
pub fn rank(titles: &Vec<String>, query: &str) -> (r: Vec<RankedMatch>)
    ensures
        ({
            let rk = ranked(titles_view(titles@), query@);
            &&& r@.len() == rk.len()
            &&& forall|j: int| 0 <= j < rk.len() ==> {
                &&& 0 <= rk[j].0 < titles@.len()
                &&& (#[trigger] r@[j]).score == rk[j].1
                &&& r@[j].title@ == titles_view(titles@)[rk[j].0]
            }
        }),
{
    let ghost tv = titles_view(titles@);

    // Score every title against the query, in listing order.
    let mut cands: Vec<(usize, i64)> = Vec::new();
    let mut i: usize = 0;
    while i < titles.len()
        invariant
            i <= titles@.len(),
            tv == titles_view(titles@),
            tv.len() == titles@.len(),
            forall|k: int| 0 <= k < cands@.len() ==> (#[trigger] cands@[k]).0 < titles@.len(),
            pairs_view(cands@) + scored(tv, query@, i as int) == scored(tv, query@, 0),
        decreases titles@.len() - i,
    {
        let ghost pre = pairs_view(cands@);
        match skim_fuzzy_match(titles[i].as_str(), query) {
            Some(s) => {
                cands.push((i, s));
                proof {
                    assert(pairs_view(cands@) =~= pre + seq![(i as int, s)]);
                    assert((pre + seq![(i as int, s)]) + scored(tv, query@, i + 1) =~= pre + (seq![
                        (i as int, s),
                    ] + scored(tv, query@, i + 1)));
                    assert(tv[i as int] == titles@[i as int]@);
                }
            },
            None => {
                proof {
                    assert(tv[i as int] == titles@[i as int]@);
                }
            },
        }
        i += 1;
    }
    proof {
        assert(pairs_view(cands@) + scored(tv, query@, titles@.len() as int) =~= pairs_view(
            cands@,
        ));
    }

    // Sort by descending score, stably: insert candidates from the last
    // listing position to the first, each before the run of scores equal
    // to its own.
    let ghost cands0 = pairs_view(cands@);
    let mut sorted: Vec<(usize, i64)> = Vec::new();
    while cands.len() > 0
        invariant
            cands@.len() <= cands0.len(),
            pairs_view(cands@) == cands0.take(cands@.len() as int),
            pairs_view(sorted@) == sort_desc(cands0.skip(cands@.len() as int)),
        decreases cands@.len(),
    {
        let ghost k = cands@.len() as int;
        let e = cands.pop().unwrap();
        proof {
            assert(pairs_view(cands@) =~= cands0.take(k).subrange(0, k - 1));
            assert(cands0.take(k).subrange(0, k - 1) =~= cands0.take(k - 1));
            assert(cands0.take(k)[k - 1] == cands0[k - 1]);
        }
        insert_scored(&mut sorted, e);
        proof {
            let tail = cands0.skip(k - 1);
            assert(tail[0] == cands0[k - 1]);
            assert(cands0.skip(k - 1).skip(1) =~= cands0.skip(k));
        }
    }
    proof {
        assert(cands0.skip(0) =~= cands0);
    }

    // Resolve indices back to titles.
    let ghost rk = ranked(tv, query@);
    proof {
        assert(pairs_view(sorted@) == rk);
        lemma_rank_sorted_stable(tv, query@);
    }
    let mut r: Vec<RankedMatch> = Vec::new();
    let mut j: usize = 0;
    while j < sorted.len()
        invariant
            j <= sorted@.len(),
            pairs_view(sorted@) == rk,
            tv == titles_view(titles@),
            tv.len() == titles@.len(),
            forall|k: int| 0 <= k < rk.len() ==> 0 <= (#[trigger] rk[k]).0 < titles@.len(),
            r@.len() == j,
            forall|m: int| 0 <= m < j ==> {
                &&& (#[trigger] r@[m]).score == rk[m].1
                &&& r@[m].title@ == tv[rk[m].0]
            },
        decreases sorted@.len() - j,
    {
        let (idx, score) = sorted[j];
        proof {
            assert(rk[j as int] == (idx as int, score));
            assert(tv[idx as int] == titles@[idx as int]@);
        }
        r.push(RankedMatch { title: titles[idx].clone(), score });
        j += 1;
    }
    proof {
        lemma_rank_sorted_stable(tv, query@);
    }
    r
}

/// The live-completion helper around the ranker: it holds the registry's
/// titles and lists, for the text typed so far, the matching titles best
/// first.
pub struct ReadlineHelper {
    pub window_names: Vec<String>,
}

impl ReadlineHelper {
    /// The matching window names for `input`, best match first: the titles
    /// of `ranked`, in its order.
    pub fn get_matches(&self, input: &str) -> (r: Vec<String>)
        ensures
            ({
                let rk = ranked(titles_view(self.window_names@), input@);
                &&& r@.len() == rk.len()
                &&& forall|j: int| 0 <= j < rk.len() ==> (#[trigger] r@[j])@ == titles_view(
                    self.window_names@,
                )[rk[j].0]
            }),
    {
        let ranked_matches = rank(&self.window_names, input);
        let mut r: Vec<String> = Vec::new();
        let mut j: usize = 0;
        while j < ranked_matches.len()
            invariant
                j <= ranked_matches@.len(),
                r@.len() == j,
                forall|m: int| 0 <= m < j ==> (#[trigger] r@[m])@ == ranked_matches@[m].title@,
            decreases ranked_matches@.len() - j,
        {
            r.push(ranked_matches[j].title.clone());
            j += 1;
        }
        r
    }
}

} // verus!
