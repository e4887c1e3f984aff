use winswitch::ranker::{rank, ReadlineHelper};

fn names(v: &[&str]) -> Vec<String> {
    v.iter().map(|s| s.to_string()).collect()
}

#[test]
fn query_ranks_best_match_first_and_excludes_non_matches() {
    // "cod" is a subsequence of "Code — main.rs" alone: "Notepad" has no
    // 'c' and "Calculator" has no 'd', so both are excluded entirely.
    let registry = names(&["Notepad", "Calculator", "Code — main.rs"]);
    let helper = ReadlineHelper { window_names: registry };
    let matches = helper.get_matches("cod");
    assert_eq!(matches, vec!["Code — main.rs"]);
}

#[test]
fn empty_query_matches_every_title_in_listing_order() {
    let registry = names(&["bb", "aa", "cc"]);
    let helper = ReadlineHelper { window_names: registry };
    let matches = helper.get_matches("");
    assert_eq!(matches, vec!["bb", "aa", "cc"]);
}

#[test]
fn scores_never_ascend_and_ties_keep_listing_order() {
    let registry = names(&["xx ab", "ab", "zz ab", "ab"]);
    let ranked = rank(&registry, "ab");
    assert_eq!(ranked.len(), 4);
    for w in ranked.windows(2) {
        assert!(w[0].score >= w[1].score);
    }
    // The two identical titles score equally; the earlier one stays first.
    let equal: Vec<&str> = ranked
        .iter()
        .filter(|m| m.title == "ab")
        .map(|m| m.title.as_str())
        .collect();
    assert_eq!(equal.len(), 2);
    let lead = ranked.iter().position(|m| m.title == "ab").unwrap();
    assert_eq!(ranked[lead + 1].title, "ab");
}

#[test]
fn anchored_match_outranks_buried_match() {
    let registry = names(&["xab", "ab"]);
    let ranked = rank(&registry, "ab");
    assert_eq!(ranked.len(), 2);
    assert_eq!(ranked[0].title, "ab");
    assert_eq!(ranked[1].title, "xab");
    assert!(ranked[0].score > ranked[1].score);
}

#[test]
fn non_matching_query_yields_nothing() {
    let registry = names(&["abc", "def"]);
    let ranked = rank(&registry, "zzz");
    assert!(ranked.is_empty());
}

#[test]
fn matching_is_case_insensitive_for_lowercase_queries() {
    let registry = names(&["NOTEPAD"]);
    let ranked = rank(&registry, "notepad");
    assert_eq!(ranked.len(), 1);
    assert_eq!(ranked[0].title, "NOTEPAD");
}
