use fuzzy_rust::extract_bests;

fn strings(items: &[&str]) -> Vec<String> {
    items.iter().map(|s| s.to_string()).collect()
}

#[test]
fn git_and_gettext_match_go_does_not() {
    let candidates = strings(&["git", "go", "gettext"]);
    let r = extract_bests("gt", &candidates, 3);
    assert_eq!(r.len(), 2);
    assert_eq!(r[0].0, "git");
    assert_eq!(r[1].0, "gettext");
    assert!(r[0].1 >= r[1].1);
}

#[test]
fn empty_query_matches_everything_first_wins_ties() {
    let candidates = strings(&["a", "b"]);
    let r = extract_bests("", &candidates, 1);
    assert_eq!(r.len(), 1);
    assert_eq!(r[0].0, "a");
    assert_eq!(r[0].1, 16);
}

#[test]
fn scattered_single_match() {
    let candidates = strings(&["xaxbxc"]);
    let r = extract_bests("abc", &candidates, 5);
    assert_eq!(r.len(), 1);
    assert_eq!(r[0].0, "xaxbxc");
    assert_eq!(r[0].1, 61);
}

#[test]
fn large_input_returns_only_the_matches() {
    let mut candidates: Vec<String> = Vec::new();
    for i in 0..10_000usize {
        if i == 5 || i == 2_500 || i == 9_000 {
            candidates.push(format!("xqz{}", i));
        } else {
            candidates.push("aaa".to_string());
        }
    }
    let r = extract_bests("qz", &candidates, 100);
    assert_eq!(r.len(), 3);
    for pair in &r {
        assert!(pair.0.starts_with("xqz"));
    }
}

#[test]
fn zero_limit_gives_empty_list() {
    let candidates = strings(&["a", "b", "c"]);
    let r = extract_bests("a", &candidates, 0);
    assert!(r.is_empty());
}

#[test]
fn limit_caps_the_result_length() {
    let candidates = strings(&["abc", "aabc", "xabc", "abcd"]);
    let r = extract_bests("abc", &candidates, 2);
    assert_eq!(r.len(), 2);
}

#[test]
fn limit_beyond_matches_returns_all_matches() {
    let candidates = strings(&["abc", "nope", "cab"]);
    let r = extract_bests("ab", &candidates, 10);
    assert_eq!(r.len(), 2);
}

#[test]
fn scores_descend_and_ties_keep_input_order() {
    let candidates = strings(&["twin", "abXtwin", "twin", "t_w_i_n"]);
    let r = extract_bests("twin", &candidates, 10);
    for k in 0..r.len() - 1 {
        assert!(r[k].1 >= r[k + 1].1);
    }
    // The two identical candidates score the same; the earlier one first.
    assert_eq!(r[0].0, "twin");
    assert_eq!(r[1].0, "twin");
}

#[test]
fn no_matches_is_empty_not_an_error() {
    let candidates = strings(&["alpha", "beta"]);
    let r = extract_bests("zzz", &candidates, 5);
    assert!(r.is_empty());
}

#[test]
fn empty_candidate_list_gives_empty_result() {
    let candidates: Vec<String> = Vec::new();
    let r = extract_bests("abc", &candidates, 5);
    assert!(r.is_empty());
}

#[test]
fn repeated_calls_agree() {
    let candidates = strings(&["git", "go", "gettext", "grep", "GiT", "g t"]);
    let first = extract_bests("gt", &candidates, 4);
    let second = extract_bests("gt", &candidates, 4);
    assert_eq!(first, second);
}

#[test]
fn denser_match_ranks_first() {
    let candidates = strings(&["a_x_b", "axb", "ab"]);
    let r = extract_bests("ab", &candidates, 3);
    assert_eq!(r[0].0, "ab");
}
