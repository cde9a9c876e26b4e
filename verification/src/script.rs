//! Character classification: which script class, if any, a character belongs
//! to, and the auxiliary predicates for whitespace and connector punctuation.

use vstd::prelude::*;

verus! {

/// The script class of a character that can start or extend a token.
#[derive(Copy, Clone, PartialEq, Eq, Structural, Debug)]
pub enum CharClass {
    Latin,
    Hiragana,
    Katakana,
    Kanji,
}

/// ASCII letters and digits, together with the fullwidth digits
/// (U+FF10..U+FF19) and fullwidth Latin letters (U+FF21..U+FF3A,
/// U+FF41..U+FF5A).
pub open spec fn is_latin_char(c: char) -> bool {
    let u = c as u32;
    (0x30 <= u && u <= 0x39) || (0x41 <= u && u <= 0x5A) || (0x61 <= u && u <= 0x7A)
        || (0xFF10 <= u && u <= 0xFF19) || (0xFF21 <= u && u <= 0xFF3A) || (0xFF41 <= u && u
        <= 0xFF5A)
}

/// The Hiragana block U+3040..U+309F.
pub open spec fn is_hiragana_char(c: char) -> bool {
    let u = c as u32;
    0x3040 <= u && u <= 0x309F
}

/// The Katakana block U+30A0..U+30FF and the phonetic extensions
/// U+31F0..U+31FF.
pub open spec fn is_katakana_char(c: char) -> bool {
    let u = c as u32;
    (0x30A0 <= u && u <= 0x30FF) || (0x31F0 <= u && u <= 0x31FF)
}

/// The iteration mark U+3005 and the unified ideograph blocks
/// U+3400..U+4DBF, U+4E00..U+9FFF, U+F900..U+FAFF.
pub open spec fn is_kanji_char(c: char) -> bool {
    let u = c as u32;
    u == 0x3005 || (0x3400 <= u && u <= 0x4DBF) || (0x4E00 <= u && u <= 0x9FFF) || (0xF900 <= u
        && u <= 0xFAFF)
}

/// The punctuation characters that may extend a Latin token.
pub open spec fn is_connector_char(c: char) -> bool {
    c == '+' || c == '#' || c == '-' || c == '_' || c == '.' || c == ':' || c == '/' || c == '@'
}

/// The Unicode characters with the White_Space property: what `str::trim`
/// strips and what always separates tokens.
pub open spec fn is_space_char(c: char) -> bool {
    let u = c as u32;
    (0x09 <= u && u <= 0x0D) || u == 0x20 || u == 0x85 || u == 0xA0 || u == 0x1680 || (0x2000 <= u
        && u <= 0x200A) || u == 0x2028 || u == 0x2029 || u == 0x202F || u == 0x205F || u == 0x3000
}

/// The total classification: the script class of `c`, or `None` when `c` is
/// a separator (whitespace, punctuation, any unmapped character).
pub open spec fn char_class_spec(c: char) -> Option<CharClass> {
    if is_latin_char(c) {
        Some(CharClass::Latin)
    } else if is_hiragana_char(c) {
        Some(CharClass::Hiragana)
    } else if is_katakana_char(c) {
        Some(CharClass::Katakana)
    } else if is_kanji_char(c) {
        Some(CharClass::Kanji)
    } else {
        None
    }
}

/// A whitespace character belongs to no script class and is no connector.
pub proof fn lemma_space_is_separator(c: char)
    requires
        is_space_char(c),
    ensures
        char_class_spec(c) == None::<CharClass>,
        !is_latin_char(c),
        !is_connector_char(c),
{
}

pub fn is_ascii_or_fullwidth_alnum(c: char) -> (r: bool)
    ensures
        r == is_latin_char(c),
{
    let u = c as u32;
    (0x30 <= u && u <= 0x39) || (0x41 <= u && u <= 0x5A) || (0x61 <= u && u <= 0x7A)
        || (0xFF10 <= u && u <= 0xFF19) || (0xFF21 <= u && u <= 0xFF3A) || (0xFF41 <= u && u
        <= 0xFF5A)
}

pub fn is_hiragana(c: char) -> (r: bool)
    ensures
        r == is_hiragana_char(c),
{
    let u = c as u32;
    0x3040 <= u && u <= 0x309F
}

pub fn is_katakana(c: char) -> (r: bool)
    ensures
        r == is_katakana_char(c),
{
    let u = c as u32;
    (0x30A0 <= u && u <= 0x30FF) || (0x31F0 <= u && u <= 0x31FF)
}

pub fn is_kanji(c: char) -> (r: bool)
    ensures
        r == is_kanji_char(c),
{
    let u = c as u32;
    u == 0x3005 || (0x3400 <= u && u <= 0x4DBF) || (0x4E00 <= u && u <= 0x9FFF) || (0xF900 <= u
        && u <= 0xFAFF)
}

pub fn is_ascii_connector(c: char) -> (r: bool)
    ensures
        r == is_connector_char(c),
{
    c == '+' || c == '#' || c == '-' || c == '_' || c == '.' || c == ':' || c == '/' || c == '@'
}

/// Whether `c` has the Unicode White_Space property.
pub fn is_unicode_whitespace(c: char) -> (r: bool)
    ensures
        r == is_space_char(c),
{
    let u = c as u32;
    (0x09 <= u && u <= 0x0D) || u == 0x20 || u == 0x85 || u == 0xA0 || u == 0x1680 || (0x2000 <= u
        && u <= 0x200A) || u == 0x2028 || u == 0x2029 || u == 0x202F || u == 0x205F || u == 0x3000
}

pub fn char_class(c: char) -> (r: Option<CharClass>)
    ensures
        r == char_class_spec(c),
{
    if is_ascii_or_fullwidth_alnum(c) {
        Some(CharClass::Latin)
    } else if is_hiragana(c) {
        Some(CharClass::Hiragana)
    } else if is_katakana(c) {
        Some(CharClass::Katakana)
    } else if is_kanji(c) {
        Some(CharClass::Kanji)
    } else {
        None
    }
}

} // verus!
