use query_normalizer::script::{
    CharClass, char_class, is_ascii_connector, is_ascii_or_fullwidth_alnum, is_hiragana,
    is_kanji, is_katakana, is_unicode_whitespace,
};

#[test]
fn ascii_alphanumerics_are_latin() {
    assert!(is_ascii_or_fullwidth_alnum('0'));
    assert!(is_ascii_or_fullwidth_alnum('9'));
    assert!(is_ascii_or_fullwidth_alnum('A'));
    assert!(is_ascii_or_fullwidth_alnum('Z'));
    assert!(is_ascii_or_fullwidth_alnum('a'));
    assert!(is_ascii_or_fullwidth_alnum('z'));
    assert!(!is_ascii_or_fullwidth_alnum(' '));
    assert!(!is_ascii_or_fullwidth_alnum('-'));
    assert!(!is_ascii_or_fullwidth_alnum('@'));
}

#[test]
fn fullwidth_forms_are_latin() {
    assert!(is_ascii_or_fullwidth_alnum('\u{FF10}')); // ０
    assert!(is_ascii_or_fullwidth_alnum('\u{FF19}')); // ９
    assert!(is_ascii_or_fullwidth_alnum('\u{FF21}')); // Ａ
    assert!(is_ascii_or_fullwidth_alnum('\u{FF3A}')); // Ｚ
    assert!(is_ascii_or_fullwidth_alnum('\u{FF41}')); // ａ
    assert!(is_ascii_or_fullwidth_alnum('\u{FF5A}')); // ｚ
    // the fullwidth colon sits just past the fullwidth digits
    assert!(!is_ascii_or_fullwidth_alnum('\u{FF1A}'));
    // halfwidth katakana are not Latin
    assert!(!is_ascii_or_fullwidth_alnum('\u{FF66}'));
}

#[test]
fn hiragana_block_boundaries() {
    assert!(is_hiragana('\u{3040}'));
    assert!(is_hiragana('あ'));
    assert!(is_hiragana('\u{309F}'));
    assert!(!is_hiragana('\u{303F}'));
    assert!(!is_hiragana('\u{30A0}'));
}

#[test]
fn katakana_block_boundaries() {
    assert!(is_katakana('\u{30A0}'));
    assert!(is_katakana('ア'));
    assert!(is_katakana('\u{30FF}'));
    assert!(is_katakana('\u{31F0}'));
    assert!(is_katakana('\u{31FF}'));
    assert!(!is_katakana('\u{309F}'));
    assert!(!is_katakana('\u{31EF}'));
}

#[test]
fn kanji_ranges_and_iteration_mark() {
    assert!(is_kanji('\u{3005}')); // 々
    assert!(is_kanji('\u{3400}'));
    assert!(is_kanji('\u{4DBF}'));
    assert!(is_kanji('\u{4E00}'));
    assert!(is_kanji('漢'));
    assert!(is_kanji('\u{9FFF}'));
    assert!(is_kanji('\u{F900}'));
    assert!(is_kanji('\u{FAFF}'));
    assert!(!is_kanji('\u{3006}'));
    assert!(!is_kanji('\u{4DC0}'));
    assert!(!is_kanji('\u{FB00}'));
}

#[test]
fn connector_set_is_exact() {
    for c in ['+', '#', '-', '_', '.', ':', '/', '@'] {
        assert!(is_ascii_connector(c));
    }
    assert!(!is_ascii_connector(','));
    assert!(!is_ascii_connector('!'));
    assert!(!is_ascii_connector(' '));
}

#[test]
fn whitespace_matches_unicode_white_space() {
    for c in ['\t', '\n', '\u{0B}', '\u{0C}', '\r', ' ', '\u{85}', '\u{A0}', '\u{1680}',
        '\u{2000}', '\u{200A}', '\u{2028}', '\u{2029}', '\u{202F}', '\u{205F}', '\u{3000}'] {
        assert!(is_unicode_whitespace(c), "expected whitespace: {:?}", c);
        assert!(c.is_whitespace(), "differs from the standard library: {:?}", c);
    }
    // the zero-width space has no White_Space property
    assert!(!is_unicode_whitespace('\u{200B}'));
    assert!(!'\u{200B}'.is_whitespace());
}

#[test]
fn classification_is_total_and_disjoint() {
    assert_eq!(char_class('a'), Some(CharClass::Latin));
    assert_eq!(char_class('あ'), Some(CharClass::Hiragana));
    assert_eq!(char_class('ア'), Some(CharClass::Katakana));
    assert_eq!(char_class('漢'), Some(CharClass::Kanji));
    assert_eq!(char_class(' '), None);
    assert_eq!(char_class('-'), None);
    assert_eq!(char_class('\u{3000}'), None);
    assert_eq!(char_class('😀'), None);
}
