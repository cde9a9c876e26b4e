use query_normalizer::normalize::optimize_search_query;

fn norm(q: &str) -> (String, String) {
    optimize_search_query(q)
}

#[test]
fn empty_input_is_original() {
    assert_eq!(norm(""), ("".to_string(), "original".to_string()));
}

#[test]
fn whitespace_only_input_is_original() {
    assert_eq!(norm("  "), ("".to_string(), "original".to_string()));
    assert_eq!(norm("\t\n"), ("".to_string(), "original".to_string()));
    assert_eq!(norm("\u{3000}\u{00A0}"), ("".to_string(), "original".to_string()));
}

#[test]
fn single_token_is_focused() {
    assert_eq!(norm("rust"), ("rust".to_string(), "focused".to_string()));
}

#[test]
fn duplicate_tokens_collapse() {
    assert_eq!(
        norm("rust rust programming"),
        ("rust programming".to_string(), "balanced".to_string())
    );
}

#[test]
fn four_distinct_tokens_are_broad() {
    assert_eq!(
        norm("東京 天気 予報 明日"),
        ("東京 天気 予報 明日".to_string(), "broad".to_string())
    );
}

#[test]
fn latin_and_kanji_mix_is_balanced() {
    assert_eq!(norm("C++ 入門"), ("C++ 入門".to_string(), "balanced".to_string()));
}

#[test]
fn connector_boundary_scenarios() {
    assert_eq!(norm("C++"), ("C++".to_string(), "focused".to_string()));
    assert_eq!(norm("end."), ("end".to_string(), "focused".to_string()));
    assert_eq!(norm("v1.2"), ("v1.2".to_string(), "focused".to_string()));
}

#[test]
fn strategy_buckets_by_distinct_count() {
    assert_eq!(norm("one").1, "focused");
    assert_eq!(norm("one two").1, "balanced");
    assert_eq!(norm("one two three").1, "balanced");
    assert_eq!(norm("one two three four").1, "broad");
    assert_eq!(norm("one two three four five").1, "broad");
}

#[test]
fn dedup_keeps_first_occurrence_order() {
    assert_eq!(norm("b a b c"), ("b a c".to_string(), "balanced".to_string()));
    assert_eq!(norm("x y x y"), ("x y".to_string(), "balanced".to_string()));
}

#[test]
fn extra_whitespace_between_tokens_changes_nothing() {
    assert_eq!(norm("a  b"), norm("a b"));
    assert_eq!(norm("a \t b"), norm("a b"));
    assert_eq!(norm("rust \u{3000} book"), norm("rust book"));
}

#[test]
fn input_is_trimmed_before_tokenizing() {
    assert_eq!(norm("  rust  "), ("rust".to_string(), "focused".to_string()));
    assert_eq!(norm("\u{00A0}rust\u{00A0}"), ("rust".to_string(), "focused".to_string()));
}

#[test]
fn separator_only_input_falls_back_to_original() {
    assert_eq!(norm("???"), ("???".to_string(), "original".to_string()));
    assert_eq!(norm(" + "), ("+".to_string(), "original".to_string()));
    assert_eq!(norm("...!"), ("...!".to_string(), "original".to_string()));
}

#[test]
fn mixed_script_runs_split_and_join() {
    assert_eq!(norm("日本語です"), ("日本語 です".to_string(), "balanced".to_string()));
    assert_eq!(norm("C言語 入門"), ("C 言語 入門".to_string(), "balanced".to_string()));
}

#[test]
fn duplicates_across_scripts_stay_distinct() {
    // case- and width-sensitive: no folding at the dedup stage
    assert_eq!(norm("Rust rust"), ("Rust rust".to_string(), "balanced".to_string()));
    assert_eq!(norm("ａ a"), ("ａ a".to_string(), "balanced".to_string()));
}
