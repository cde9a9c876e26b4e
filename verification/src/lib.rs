//! Search-query normalization.
//!
//! A raw user query is segmented into script-homogeneous tokens
//! (Latin/fullwidth alphanumerics, Hiragana, Katakana, Kanji), the tokens are
//! deduplicated preserving first occurrence, and a search strategy label is
//! derived from the number of distinct tokens.

pub mod script;
pub mod tokenizer;
pub mod normalize;
