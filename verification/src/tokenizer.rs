//! Segmentation of a query into script-homogeneous tokens.
//!
//! The scan walks the characters left to right, keeping a current token and
//! its script class.  Whitespace and unclassified characters end the current
//! token; a character of a new class starts a new token; connector
//! punctuation may extend a Latin token, `+` and `#` unconditionally, the
//! rest only when the very next character is itself Latin.

use vstd::prelude::*;
use crate::script::{
    CharClass, char_class, char_class_spec, is_ascii_connector, is_ascii_or_fullwidth_alnum,
    is_connector_char, is_latin_char, is_space_char, is_unicode_whitespace,
    lemma_space_is_separator,
};

verus! {

/// The pending token as a sequence of its own: one token when non-empty,
/// nothing otherwise.
pub open spec fn flushed(cur: Seq<char>) -> Seq<Seq<char>> {
    if cur.len() > 0 {
        seq![cur]
    } else {
        Seq::empty()
    }
}

/// Whether a connector character `c`, met while a Latin token is open, is
/// absorbed into that token: `+` and `#` always are, the others only when
/// the next character (the lookahead into `rest`) is itself Latin.
pub open spec fn connector_absorbed(c: char, rest: Seq<char>) -> bool {
    c == '+' || c == '#' || (rest.len() > 0 && is_latin_char(rest[0]))
}

/// One left-to-right pass over `s`, starting with the pending token `cur`
/// of class `cls`: the sequence of tokens it emits, the pending token at
/// the end of input included.
pub open spec fn scan(s: Seq<char>, cur: Seq<char>, cls: Option<CharClass>) -> Seq<Seq<char>>
    decreases s.len(),
{
    if s.len() == 0 {
        flushed(cur)
    } else {
        let c = s[0];
        let rest = s.drop_first();
        if is_space_char(c) {
            flushed(cur) + scan(rest, Seq::empty(), None)
        } else {
            match char_class_spec(c) {
                Some(k) => if cls == Some(k) {
                    scan(rest, cur.push(c), cls)
                } else {
                    flushed(cur) + scan(rest, seq![c], Some(k))
                },
                None => if cls == Some(CharClass::Latin) && is_connector_char(c)
                    && connector_absorbed(c, rest) {
                    scan(rest, cur.push(c), cls)
                } else {
                    flushed(cur) + scan(rest, Seq::empty(), None)
                },
            }
        }
    }
}

/// The token sequence of `s`: the scan started with no pending token.
pub open spec fn tokens_spec(s: Seq<char>) -> Seq<Seq<char>> {
    scan(s, Seq::empty(), None)
}

/// The characters of the open token: `s[start..i]` while a token is open,
/// nothing otherwise.
pub open spec fn cur_token(s: Seq<char>, start: int, i: int, cls: Option<CharClass>) -> Seq<char> {
    if cls.is_some() {
        s.subrange(start, i)
    } else {
        Seq::empty()
    }
}

/// A token of Latin characters, possibly with connector punctuation.
pub open spec fn latin_token(t: Seq<char>) -> bool {
    forall|j: int| 0 <= j < t.len() ==> is_latin_char(#[trigger] t[j]) || is_connector_char(t[j])
}

/// A token whose characters all belong to the one script class `k`.
pub open spec fn pure_token(t: Seq<char>, k: CharClass) -> bool {
    forall|j: int| 0 <= j < t.len() ==> char_class_spec(#[trigger] t[j]) == Some(k)
}

/// A well-formed token: all of one script class, or Latin extended with
/// connectors.
pub open spec fn homogeneous_token(t: Seq<char>) -> bool {
    ||| latin_token(t)
    ||| pure_token(t, CharClass::Hiragana)
    ||| pure_token(t, CharClass::Katakana)
    ||| pure_token(t, CharClass::Kanji)
}

/// The pending token fits its recorded class: absent it is empty, present
/// it is non-empty and homogeneous in that class.
pub open spec fn state_ok(cur: Seq<char>, cls: Option<CharClass>) -> bool {
    match cls {
        None => cur.len() == 0,
        Some(CharClass::Latin) => cur.len() > 0 && latin_token(cur),
        Some(k) => cur.len() > 0 && pure_token(cur, k),
    }
}

/// Every token the scan emits from a well-formed state is non-empty and
/// homogeneous.
proof fn lemma_scan_wf(s: Seq<char>, cur: Seq<char>, cls: Option<CharClass>)
    requires
        state_ok(cur, cls),
    ensures
        forall|i: int|
            0 <= i < scan(s, cur, cls).len() ==> (#[trigger] scan(s, cur, cls)[i]).len() > 0
                && homogeneous_token(scan(s, cur, cls)[i]),
    decreases s.len(),
{
    if s.len() == 0 {
        if cur.len() > 0 {
            assert(scan(s, cur, cls) == seq![cur]);
            assert(scan(s, cur, cls)[0] == cur);
            assert(homogeneous_token(cur));
        }
    } else {
        let c = s[0];
        let rest = s.drop_first();
        if is_space_char(c) {
            assert(scan(s, cur, cls) == flushed(cur) + scan(rest, Seq::empty(), None));
            lemma_scan_wf(rest, Seq::empty(), None);
            lemma_scan_concat_wf(cur, cls, scan(rest, Seq::empty(), None), scan(s, cur, cls));
        } else {
            match char_class_spec(c) {
                Some(k) => if cls == Some(k) {
                    assert(scan(s, cur, cls) == scan(rest, cur.push(c), cls));
                    assert(state_ok(cur.push(c), cls)) by {
                        assert(forall|j: int|
                            0 <= j < cur.len() ==> cur.push(c)[j] == #[trigger] cur[j]);
                        assert(cur.push(c)[cur.len() as int] == c);
                    }
                    lemma_scan_wf(rest, cur.push(c), cls);
                } else {
                    assert(scan(s, cur, cls) == flushed(cur) + scan(rest, seq![c], Some(k)));
                    assert(state_ok(seq![c], Some(k))) by {
                        assert(seq![c][0] == c);
                    }
                    lemma_scan_wf(rest, seq![c], Some(k));
                    lemma_scan_concat_wf(cur, cls, scan(rest, seq![c], Some(k)), scan(s, cur, cls));
                },
                None => if cls == Some(CharClass::Latin) && is_connector_char(c)
                    && connector_absorbed(c, rest) {
                    assert(scan(s, cur, cls) == scan(rest, cur.push(c), cls));
                    assert(state_ok(cur.push(c), cls)) by {
                        assert(forall|j: int|
                            0 <= j < cur.len() ==> cur.push(c)[j] == #[trigger] cur[j]);
                        assert(cur.push(c)[cur.len() as int] == c);
                    }
                    lemma_scan_wf(rest, cur.push(c), cls);
                } else {
                    assert(scan(s, cur, cls) == flushed(cur) + scan(rest, Seq::empty(), None));
                    lemma_scan_wf(rest, Seq::empty(), None);
                    lemma_scan_concat_wf(cur, cls, scan(rest, Seq::empty(), None), scan(s, cur, cls));
                },
            }
        }
    }
}

/// Tokens of `flushed(cur) + tail` are well formed when the state and the
/// tokens of `tail` are.
proof fn lemma_scan_concat_wf(
    cur: Seq<char>,
    cls: Option<CharClass>,
    tail: Seq<Seq<char>>,
    whole: Seq<Seq<char>>,
)
    requires
        state_ok(cur, cls),
        forall|i: int|
            0 <= i < tail.len() ==> (#[trigger] tail[i]).len() > 0 && homogeneous_token(tail[i]),
        whole == flushed(cur) + tail,
    ensures
        forall|i: int|
            0 <= i < whole.len() ==> (#[trigger] whole[i]).len() > 0 && homogeneous_token(whole[i]),
{
    let fl = flushed(cur);
    assert forall|i: int| 0 <= i < whole.len() implies (#[trigger] whole[i]).len() > 0
        && homogeneous_token(whole[i]) by {
        if i < fl.len() {
            assert(whole[i] == cur);
        } else {
            assert(whole[i] == tail[i - fl.len()]);
        }
    }
}

/// Token homogeneity: every token the tokenizer produces is non-empty, and
/// its characters all belong to one script class, except that a Latin token
/// may also hold connector punctuation.
pub proof fn lemma_token_homogeneity(s: Seq<char>)
    ensures
        forall|i: int|
            0 <= i < tokens_spec(s).len() ==> (#[trigger] tokens_spec(s)[i]).len() > 0
                && homogeneous_token(tokens_spec(s)[i]),
{
    lemma_scan_wf(s, Seq::empty(), None);
}

/// From any state, the scan treats `a + [c] + b` and `a + b` alike when
/// `c` is whitespace standing right before more whitespace: the extra
/// separator flushes a token that the following separator would have
/// flushed anyway.
proof fn lemma_scan_extra_space(
    a: Seq<char>,
    c: char,
    b: Seq<char>,
    cur: Seq<char>,
    cls: Option<CharClass>,
)
    requires
        is_space_char(c),
        b.len() > 0,
        is_space_char(b[0]),
    ensures
        scan(a + seq![c] + b, cur, cls) == scan(a + b, cur, cls),
    decreases a.len(),
{
    let s1 = a + seq![c] + b;
    let s2 = a + b;
    if a.len() == 0 {
        assert(s1 =~= seq![c] + b);
        assert(s1[0] == c);
        assert(s1.drop_first() =~= b);
        assert(scan(s1, cur, cls) == flushed(cur) + scan(b, Seq::empty(), None));
        assert(s2 =~= b);
        assert(scan(b, cur, cls) == flushed(cur) + scan(b.drop_first(), Seq::empty(), None));
        assert(scan(b, Seq::empty(), None) == flushed(Seq::empty()) + scan(
            b.drop_first(),
            Seq::empty(),
            None,
        ));
        assert(flushed(Seq::empty()) + scan(b.drop_first(), Seq::empty(), None) =~= scan(
            b.drop_first(),
            Seq::empty(),
            None,
        ));
        assert(flushed(cur) + scan(b, Seq::empty(), None) =~= flushed(cur) + scan(
            b.drop_first(),
            Seq::empty(),
            None,
        ));
    } else {
        let h = a[0];
        let a1 = a.drop_first();
        assert(s1.len() > 1 && s2.len() > 1);
        assert(s1[0] == h && s2[0] == h);
        assert(s1.drop_first() =~= a1 + seq![c] + b);
        assert(s2.drop_first() =~= a1 + b);
        // the lookahead sees the same kind of character on both sides
        assert(is_latin_char(s1[1]) == is_latin_char(s2[1])) by {
            if a.len() == 1 {
                assert(s1[1] == c);
                assert(s2[1] == b[0]);
                lemma_space_is_separator(c);
                lemma_space_is_separator(b[0]);
            } else {
                assert(s1[1] == a[1]);
                assert(s2[1] == a[1]);
            }
        }
        assert(connector_absorbed(h, s1.drop_first()) == connector_absorbed(h, s2.drop_first()))
            by {
            assert(s1.drop_first().len() > 0 && s2.drop_first().len() > 0);
            assert(s1.drop_first()[0] == s1[1] && s2.drop_first()[0] == s2[1]);
        }
        if is_space_char(h) {
            lemma_scan_extra_space(a1, c, b, Seq::empty(), None);
            assert(scan(s1, cur, cls) == flushed(cur) + scan(a1 + seq![c] + b, Seq::empty(), None));
            assert(scan(s2, cur, cls) == flushed(cur) + scan(a1 + b, Seq::empty(), None));
        } else {
            match char_class_spec(h) {
                Some(k) => if cls == Some(k) {
                    lemma_scan_extra_space(a1, c, b, cur.push(h), cls);
                    assert(scan(s1, cur, cls) == scan(a1 + seq![c] + b, cur.push(h), cls));
                    assert(scan(s2, cur, cls) == scan(a1 + b, cur.push(h), cls));
                } else {
                    lemma_scan_extra_space(a1, c, b, seq![h], Some(k));
                    assert(scan(s1, cur, cls) == flushed(cur) + scan(
                        a1 + seq![c] + b,
                        seq![h],
                        Some(k),
                    ));
                    assert(scan(s2, cur, cls) == flushed(cur) + scan(a1 + b, seq![h], Some(k)));
                },
                None => if cls == Some(CharClass::Latin) && is_connector_char(h)
                    && connector_absorbed(h, s1.drop_first()) {
                    lemma_scan_extra_space(a1, c, b, cur.push(h), cls);
                    assert(scan(s1, cur, cls) == scan(a1 + seq![c] + b, cur.push(h), cls));
                    assert(scan(s2, cur, cls) == scan(a1 + b, cur.push(h), cls));
                } else {
                    lemma_scan_extra_space(a1, c, b, Seq::empty(), None);
                    assert(scan(s1, cur, cls) == flushed(cur) + scan(
                        a1 + seq![c] + b,
                        Seq::empty(),
                        None,
                    ));
                    assert(scan(s2, cur, cls) == flushed(cur) + scan(a1 + b, Seq::empty(), None));
                },
            }
        }
    }
}

/// Separator independence: an extra whitespace character inserted right
/// before existing whitespace never changes the token sequence.
pub proof fn lemma_separator_independence(a: Seq<char>, c: char, b: Seq<char>)
    requires
        is_space_char(c),
        b.len() > 0,
        is_space_char(b[0]),
    ensures
        tokens_spec(a + seq![c] + b) == tokens_spec(a + b),
{
    lemma_scan_extra_space(a, c, b, Seq::empty(), None);
}

/// Close the current token: when one is open (`current_class` is `Some`),
/// its characters are `src[start..end]` and that substring is appended to
/// `tokens`; either way no token is open afterwards.
pub fn flush_token(
    tokens: &mut Vec<String>,
    src: &str,
    start: usize,
    end: usize,
    current_class: &mut Option<CharClass>,
)
    requires
        start <= end <= src@.len(),
        old(current_class).is_some() ==> start < end,
    ensures
        final(current_class).is_none(),
        final(tokens).deep_view() == old(tokens).deep_view() + flushed(
            cur_token(src@, start as int, end as int, *old(current_class)),
        ),
{
    let ghost cur = cur_token(src@, start as int, end as int, *current_class);
    if current_class.is_some() {
        let t = String::from_str(src.substring_char(start, end));
        tokens.push(t);
        proof {
            assert(tokens.deep_view() =~= old(tokens).deep_view() + flushed(cur));
        }
    } else {
        proof {
            assert(tokens.deep_view() =~= old(tokens).deep_view() + flushed(cur));
        }
    }
    *current_class = None;
}

/// Segment `query` into its ordered sequence of tokens.
pub fn split_query_tokens(query: &str) -> (tokens: Vec<String>)
    ensures
        tokens.deep_view() == tokens_spec(query@),
{
    let ghost s = query@;
    let n = query.unicode_len();
    let mut tokens: Vec<String> = Vec::new();
    let mut current_class: Option<CharClass> = None;
    let mut start: usize = 0;
    let mut i: usize = 0;
    proof {
        assert(s.subrange(0, n as int) =~= s);
        assert(tokens.deep_view() =~= Seq::<Seq<char>>::empty());
        assert(tokens.deep_view() + tokens_spec(s) =~= tokens_spec(s));
    }
    while i < n
        invariant
            n == s.len(),
            s == query@,
            i <= n,
            start <= i,
            current_class.is_some() ==> start < i,
            tokens.deep_view() + scan(
                s.subrange(i as int, n as int),
                cur_token(s, start as int, i as int, current_class),
                current_class,
            ) == tokens_spec(s),
        decreases n - i,
    {
        let ghost rest = s.subrange(i as int, n as int);
        let ghost rest1 = s.subrange(i as int + 1, n as int);
        let ghost cur = cur_token(s, start as int, i as int, current_class);
        let ghost cls = current_class;
        let ghost pre = tokens.deep_view();
        proof {
            assert(rest.len() > 0);
            assert(rest[0] == s[i as int]);
            assert(rest.drop_first() =~= rest1);
        }
        let c = query.get_char(i);
        if is_unicode_whitespace(c) {
            proof {
                assert(scan(rest, cur, cls) == flushed(cur) + scan(rest1, Seq::empty(), None));
            }
            flush_token(&mut tokens, query, start, i, &mut current_class);
            proof {
                assert(tokens.deep_view() + scan(rest1, Seq::empty(), None) =~= pre + scan(
                    rest,
                    cur,
                    cls,
                ));
            }
        } else {
            match char_class(c) {
                Some(k) => {
                    let same = match current_class {
                        Some(k0) => k0 == k,
                        None => false,
                    };
                    if same {
                        proof {
                            assert(scan(rest, cur, cls) == scan(rest1, cur.push(c), cls));
                            assert(cur_token(s, start as int, i as int + 1, current_class)
                                =~= cur.push(c));
                        }
                    } else {
                        proof {
                            assert(scan(rest, cur, cls) == flushed(cur) + scan(
                                rest1,
                                seq![c],
                                Some(k),
                            ));
                        }
                        flush_token(&mut tokens, query, start, i, &mut current_class);
                        start = i;
                        current_class = Some(k);
                        proof {
                            assert(cur_token(s, i as int, i as int + 1, current_class)
                                =~= seq![c]);
                            assert(tokens.deep_view() + scan(rest1, seq![c], Some(k)) =~= pre
                                + scan(rest, cur, cls));
                        }
                    }
                },
                None => {
                    let mut absorbed = false;
                    let is_latin_run = match current_class {
                        Some(k0) => k0 == CharClass::Latin,
                        None => false,
                    };
                    if is_latin_run && is_ascii_connector(c) {
                        if c == '+' || c == '#' {
                            absorbed = true;
                        } else if i + 1 < n && is_ascii_or_fullwidth_alnum(query.get_char(i + 1)) {
                            proof {
                                assert(rest1.len() > 0 && rest1[0] == s[i as int + 1]);
                            }
                            absorbed = true;
                        }
                    }
                    if absorbed {
                        proof {
                            assert(connector_absorbed(c, rest1));
                            assert(scan(rest, cur, cls) == scan(rest1, cur.push(c), cls));
                            assert(cur_token(s, start as int, i as int + 1, current_class)
                                =~= cur.push(c));
                        }
                    } else {
                        proof {
                            assert(!(cls == Some(CharClass::Latin) && is_connector_char(c)
                                && connector_absorbed(c, rest1)));
                            assert(scan(rest, cur, cls) == flushed(cur) + scan(
                                rest1,
                                Seq::empty(),
                                None,
                            ));
                        }
                        flush_token(&mut tokens, query, start, i, &mut current_class);
                        proof {
                            assert(tokens.deep_view() + scan(rest1, Seq::empty(), None) =~= pre
                                + scan(rest, cur, cls));
                        }
                    }
                },
            }
        }
        i = i + 1;
    }
    let ghost cur = cur_token(s, start as int, n as int, current_class);
    let ghost pre = tokens.deep_view();
    proof {
        assert(s.subrange(n as int, n as int) =~= Seq::<char>::empty());
        assert(scan(s.subrange(n as int, n as int), cur, current_class) == flushed(cur));
    }
    flush_token(&mut tokens, query, start, n, &mut current_class);
    proof {
        assert(tokens.deep_view() =~= pre + flushed(cur));
    }
    tokens
}

} // verus!
