use fuzzy_rust::scorer::score;

#[test]
fn empty_query_scores_baseline() {
    assert_eq!(score("", "anything"), Some(16));
    assert_eq!(score("", ""), Some(16));
}

#[test]
fn simple_match_exact_value() {
    // g at the string start: match 16 + boundary 8 + exact case 1 = 25;
    // one skipped character: -2; t with exact case: 17; plus baseline 16.
    assert_eq!(score("gt", "git"), Some(56));
}

#[test]
fn non_match_is_none() {
    assert_eq!(score("gt", "go"), None);
    assert_eq!(score("abc", "cba"), None);
    assert_eq!(score("a", ""), None);
}

#[test]
fn query_longer_than_candidate_is_none() {
    assert_eq!(score("abcd", "abc"), None);
}

#[test]
fn match_is_case_insensitive() {
    assert!(score("GT", "git").is_some());
    assert!(score("gt", "GIT").is_some());
    assert!(score("A", "a").is_some());
    assert!(score("a", "A").is_some());
}

#[test]
fn exact_case_outscores_folded_case() {
    assert!(score("g", "g").unwrap() > score("G", "g").unwrap());
}

#[test]
fn scattered_match_exact_value() {
    // Three exact-case matches of 17 each, three skipped characters at -2
    // each, plus baseline 16.
    assert_eq!(score("abc", "xaxbxc"), Some(61));
}

#[test]
fn tight_match_outscores_scattered_match() {
    assert!(score("abc", "abc").unwrap() > score("abc", "xaxbxc").unwrap());
}

#[test]
fn consecutive_matches_outscore_gapped_matches() {
    assert!(score("ab", "ab").unwrap() > score("ab", "axb").unwrap());
}

#[test]
fn separator_boundary_outscores_plain_position() {
    assert!(score("b", "a_b").unwrap() > score("b", "ab").unwrap());
}

#[test]
fn case_transition_counts_as_boundary() {
    assert!(score("b", "aB").unwrap() > score("b", "ab").unwrap());
}

#[test]
fn appending_characters_never_decreases_score() {
    let base = score("ab", "ab").unwrap();
    assert!(score("ab", "abxyz").unwrap() >= base);
    assert!(score("ab", "ab_tail").unwrap() >= base);
    let scattered = score("abc", "xaxbxc").unwrap();
    assert!(score("abc", "xaxbxcqqq").unwrap() >= scattered);
}

#[test]
fn best_alignment_is_chosen() {
    // The first b sits right after a, the second one after a separator;
    // the scorer must pick whichever alignment scores higher, so the score
    // is at least that of the consecutive alignment.
    let s = score("ab", "ab_b").unwrap();
    assert!(s >= score("ab", "ab").unwrap());
}
