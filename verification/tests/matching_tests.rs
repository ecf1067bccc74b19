use fuzzy_pick::matching::compute_matches;
use fuzzy_pick::matching::first_match;
use fuzzy_pick::text::trim;

fn mk(v: &[&str]) -> Vec<String> {
    v.iter().map(|s| s.to_string()).collect()
}

#[test]
fn subsequence_membership() {
    let c = mk(&["BRIDGE", "bright", "cucumber", "README.md"]);
    let r = compute_matches(&c, "br");
    assert!(r.contains(&"BRIDGE".to_string()));
    assert!(r.contains(&"bright".to_string()));
    assert!(r.contains(&"cucumber".to_string()));
    assert!(!r.contains(&"README.md".to_string()));
}

#[test]
fn non_matching_candidates_absent() {
    let c = mk(&["alpha", "beta", "gamma"]);
    let r = compute_matches(&c, "ph");
    assert_eq!(r, mk(&["alpha"]));
}

#[test]
fn empty_query_identity() {
    let c = mk(&["one", "two", "three", "four", "five"]);
    let r = compute_matches(&c, "");
    assert_eq!(r, c);
}

#[test]
fn identical_inputs_identical_outputs() {
    let c = mk(&["apple", "banana", "grape"]);
    let r1 = compute_matches(&c, "ae");
    let r2 = compute_matches(&c, "ae");
    assert_eq!(r1, r2);
}

#[test]
fn scenario_ap_ranks_apple_over_grape() {
    let c = mk(&["apple", "banana", "grape"]);
    let r = compute_matches(&c, "ap");
    assert_eq!(r, mk(&["apple", "grape"]));
}

#[test]
fn scenario_no_match_gives_empty_list() {
    let c = mk(&["apple", "banana", "grape"]);
    let r = compute_matches(&c, "xyz");
    assert!(r.is_empty());
}

#[test]
fn empty_candidate_list_gives_empty_result() {
    let c: Vec<String> = Vec::new();
    let r = compute_matches(&c, "a");
    assert!(r.is_empty());
    let r2 = compute_matches(&c, "");
    assert!(r2.is_empty());
}

#[test]
fn earlier_start_ranks_first_on_equal_span() {
    let c = mk(&["xxab", "abxx"]);
    let r = compute_matches(&c, "ab");
    assert_eq!(r, mk(&["abxx", "xxab"]));
}

#[test]
fn tighter_span_beats_earlier_start() {
    let c = mk(&["a--b", "xxxxab"]);
    let r = compute_matches(&c, "ab");
    assert_eq!(r, mk(&["xxxxab", "a--b"]));
}

#[test]
fn minimal_span_alignment_is_found() {
    // The leftmost alignment of "ab" in "axxb ab" spans four characters;
    // the engine must find the tight two-character one near the end, which
    // ties with "ab" on span and loses on start.
    let c = mk(&["axxb ab", "ab"]);
    let r = compute_matches(&c, "ab");
    assert_eq!(r, mk(&["ab", "axxb ab"]));
}

#[test]
fn tied_matches_keep_input_order() {
    let c = mk(&["ab one", "ab two"]);
    let r = compute_matches(&c, "ab");
    assert_eq!(r, mk(&["ab one", "ab two"]));
}

#[test]
fn tie_order_survives_appending_a_character() {
    let c = mk(&["abc one", "abc two"]);
    let before = compute_matches(&c, "ab");
    assert_eq!(before, mk(&["abc one", "abc two"]));
    let after = compute_matches(&c, "abc");
    assert_eq!(after, mk(&["abc one", "abc two"]));
}

#[test]
fn case_insensitive_both_ways() {
    let c = mk(&["MAKEFILE", "makefile"]);
    let r = compute_matches(&c, "MkF");
    assert_eq!(r, mk(&["MAKEFILE", "makefile"]));
}

#[test]
fn first_match_picks_top_ranked() {
    let c = mk(&["apple", "banana", "grape"]);
    assert_eq!(first_match(&c, "ap"), Some("apple".to_string()));
    assert_eq!(first_match(&c, ""), Some("apple".to_string()));
}

#[test]
fn first_match_none_without_matches() {
    let c = mk(&["apple", "banana", "grape"]);
    assert_eq!(first_match(&c, "zz"), None);
}

#[test]
fn non_ascii_candidates_are_matched_by_character() {
    let c = mk(&["héllo", "world"]);
    let r = compute_matches(&c, "llo");
    assert_eq!(r, mk(&["héllo"]));
}

#[test]
fn case_folding_is_ascii_only() {
    let c = mk(&["Äx"]);
    assert!(compute_matches(&c, "ä").is_empty());
    assert_eq!(compute_matches(&c, "x"), mk(&["Äx"]));
}

#[test]
fn trim_strips_trailing_newlines() {
    let mut s = "abc\n\n".to_string();
    trim(&mut s);
    assert_eq!(s, "abc");
}

#[test]
fn trim_leaves_inner_newlines() {
    let mut s = "a\nb\n".to_string();
    trim(&mut s);
    assert_eq!(s, "a\nb");
}

#[test]
fn trim_of_only_newlines_is_empty() {
    let mut s = "\n\n".to_string();
    trim(&mut s);
    assert_eq!(s, "");
}

#[test]
fn trim_without_newline_is_unchanged() {
    let mut s = "abc".to_string();
    trim(&mut s);
    assert_eq!(s, "abc");
}
