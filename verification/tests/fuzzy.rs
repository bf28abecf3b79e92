use faust::fuzzy::Fuzzy;

#[test]
fn subsequences_match_and_rank_sensibly() {
    let mut fuzzy = Fuzzy::new();
    let pattern = Fuzzy::pattern("dnote");
    let exact = fuzzy.score(&pattern, "notes/daily/dnote.md");
    let spread = fuzzy.score(&pattern, "d/other/n/o/t/e.md");
    assert!(exact.is_some());
    assert!(exact > spread);
    assert!(fuzzy.score(&pattern, "unrelated.md").is_none());
}

#[test]
fn an_empty_query_matches_everything() {
    let mut fuzzy = Fuzzy::new();
    let pattern = Fuzzy::pattern("");
    assert!(fuzzy.score(&pattern, "anything").is_some());
}

#[test]
fn a_blank_query_scores_zero() {
    let mut fuzzy = Fuzzy::new();
    let pattern = Fuzzy::pattern("   ");
    assert_eq!(fuzzy.score(&pattern, "anything"), Some(0));
}
