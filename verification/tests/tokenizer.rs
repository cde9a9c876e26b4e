use query_normalizer::tokenizer::split_query_tokens;

fn tokens(q: &str) -> Vec<String> {
    split_query_tokens(q)
}

#[test]
fn plus_and_hash_always_extend_latin() {
    assert_eq!(tokens("C++"), vec!["C++"]);
    assert_eq!(tokens("C#"), vec!["C#"]);
    assert_eq!(tokens("a+b"), vec!["a+b"]);
}

#[test]
fn trailing_period_is_not_absorbed() {
    assert_eq!(tokens("end."), vec!["end"]);
    assert_eq!(tokens("end. next"), vec!["end", "next"]);
}

#[test]
fn connector_with_latin_lookahead_is_absorbed() {
    assert_eq!(tokens("v1.2"), vec!["v1.2"]);
    assert_eq!(tokens("foo-bar"), vec!["foo-bar"]);
    assert_eq!(tokens("a@b"), vec!["a@b"]);
    assert_eq!(tokens("a:b"), vec!["a:b"]);
    // a doubled colon is not absorbed: the lookahead after the first colon
    // is the second colon, not an alphanumeric
    assert_eq!(tokens("std::vec"), vec!["std", "vec"]);
    assert_eq!(tokens("a/b"), vec!["a/b"]);
    assert_eq!(tokens("snake_case"), vec!["snake_case"]);
}

#[test]
fn chained_connectors_are_fully_absorbed() {
    assert_eq!(tokens("a-b-c"), vec!["a-b-c"]);
}

#[test]
fn connector_without_open_latin_token_is_discarded() {
    assert_eq!(tokens("-abc"), vec!["abc"]);
    assert_eq!(tokens("+"), Vec::<String>::new());
    assert_eq!(tokens("a..."), vec!["a"]);
}

#[test]
fn connector_after_non_latin_token_is_discarded() {
    // a period after a Kanji token separates; it never extends it
    assert_eq!(tokens("東京.大阪"), vec!["東京", "大阪"]);
}

#[test]
fn whitespace_separates_tokens() {
    assert_eq!(tokens("one two"), vec!["one", "two"]);
    assert_eq!(tokens("one\ttwo\nthree"), vec!["one", "two", "three"]);
    assert_eq!(tokens("東京\u{3000}大阪"), vec!["東京", "大阪"]);
}

#[test]
fn script_boundaries_split_tokens() {
    assert_eq!(tokens("日本語です"), vec!["日本語", "です"]);
    assert_eq!(tokens("ひらカタ"), vec!["ひら", "カタ"]);
    assert_eq!(tokens("C言語"), vec!["C", "言語"]);
    assert_eq!(tokens("アニメ見る"), vec!["アニメ", "見", "る"]);
}

#[test]
fn fullwidth_alphanumerics_are_latin() {
    assert_eq!(tokens("ＡＢＣ１２３"), vec!["ＡＢＣ１２３"]);
    assert_eq!(tokens("ab１２"), vec!["ab１２"]);
}

#[test]
fn kanji_iteration_mark_extends_kanji() {
    assert_eq!(tokens("人々"), vec!["人々"]);
}

#[test]
fn katakana_phonetic_extensions_are_katakana() {
    assert_eq!(tokens("ア\u{31F0}"), vec!["ア\u{31F0}"]);
}

#[test]
fn unmapped_characters_separate() {
    assert_eq!(tokens("a,b"), vec!["a", "b"]);
    assert_eq!(tokens("???"), Vec::<String>::new());
    assert_eq!(tokens("a(b)c"), vec!["a", "b", "c"]);
}

#[test]
fn empty_input_has_no_tokens() {
    assert_eq!(tokens(""), Vec::<String>::new());
}
