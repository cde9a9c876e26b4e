//! Deduplication and strategy derivation: the trimmed query is tokenized,
//! the tokens are deduplicated keeping the first occurrence of each, and the
//! distinct-token count picks the strategy label.

use vstd::prelude::*;
use crate::script::is_space_char;
use crate::script::is_unicode_whitespace;
use crate::tokenizer::split_query_tokens;
use crate::tokenizer::tokens_spec;
use crate::tokenizer::lemma_separator_independence;

verus! {

/// `s` without its leading whitespace.
pub open spec fn drop_leading_spaces(s: Seq<char>) -> Seq<char>
    decreases s.len(),
{
    if s.len() > 0 && is_space_char(s[0]) {
        drop_leading_spaces(s.drop_first())
    } else {
        s
    }
}

/// `s` without its trailing whitespace.
pub open spec fn drop_trailing_spaces(s: Seq<char>) -> Seq<char>
    decreases s.len(),
{
    if s.len() > 0 && is_space_char(s.last()) {
        drop_trailing_spaces(s.drop_last())
    } else {
        s
    }
}

/// `s` without leading and trailing whitespace: what `str::trim` returns.
pub open spec fn trim_spec(s: Seq<char>) -> Seq<char> {
    drop_trailing_spaces(drop_leading_spaces(s))
}

/// The distinct elements of `ts` in order of first occurrence.
pub open spec fn dedup_spec(ts: Seq<Seq<char>>) -> Seq<Seq<char>>
    decreases ts.len(),
{
    if ts.len() == 0 {
        Seq::empty()
    } else {
        let prefix = dedup_spec(ts.drop_last());
        if prefix.contains(ts.last()) {
            prefix
        } else {
            prefix.push(ts.last())
        }
    }
}

/// The elements of `ts` joined with a single space.
pub open spec fn join_spec(ts: Seq<Seq<char>>) -> Seq<char>
    decreases ts.len(),
{
    if ts.len() == 0 {
        Seq::empty()
    } else if ts.len() == 1 {
        ts[0]
    } else {
        join_spec(ts.drop_last()) + seq![' '] + ts.last()
    }
}

/// The normalized form of the raw query `s`: the distinct tokens of the
/// trimmed query joined with single spaces, or the trimmed query itself
/// when it has no tokens (it is empty or all separators).
pub open spec fn normalized_query_spec(s: Seq<char>) -> Seq<char> {
    let t = trim_spec(s);
    let d = dedup_spec(tokens_spec(t));
    if d.len() == 0 {
        t
    } else {
        join_spec(d)
    }
}

/// The strategy label of the raw query `s`, from its distinct-token count:
/// none gives `original`, one gives `focused`, two or three give
/// `balanced`, four or more give `broad`.
pub open spec fn strategy_spec(s: Seq<char>) -> Seq<char> {
    let d = dedup_spec(tokens_spec(trim_spec(s)));
    if d.len() == 0 {
        "original"@
    } else if d.len() == 1 {
        "focused"@
    } else if d.len() <= 3 {
        "balanced"@
    } else {
        "broad"@
    }
}

/// All characters of `s` before `lo` are whitespace, so dropping leading
/// whitespace may as well start at `lo`.
proof fn lemma_drop_leading_from(s: Seq<char>, lo: int)
    requires
        0 <= lo <= s.len(),
        forall|j: int| 0 <= j < lo ==> is_space_char(s[j]),
    ensures
        drop_leading_spaces(s) == drop_leading_spaces(s.subrange(lo, s.len() as int)),
    decreases lo,
{
    if lo == 0 {
        assert(s.subrange(0, s.len() as int) =~= s);
    } else {
        assert(is_space_char(s[0]));
        let s1 = s.drop_first();
        assert(drop_leading_spaces(s) == drop_leading_spaces(s1));
        lemma_drop_leading_from(s1, lo - 1);
        assert(s1.subrange(lo - 1, s1.len() as int) =~= s.subrange(lo, s.len() as int));
    }
}

/// All characters of `s` from `hi` on are whitespace, so dropping trailing
/// whitespace may as well stop at `hi`.
proof fn lemma_drop_trailing_from(s: Seq<char>, hi: int)
    requires
        0 <= hi <= s.len(),
        forall|j: int| hi <= j < s.len() ==> is_space_char(s[j]),
    ensures
        drop_trailing_spaces(s) == drop_trailing_spaces(s.subrange(0, hi)),
    decreases s.len() - hi,
{
    if hi == s.len() {
        assert(s.subrange(0, s.len() as int) =~= s);
    } else {
        assert(is_space_char(s.last()));
        let s1 = s.drop_last();
        assert(drop_trailing_spaces(s) == drop_trailing_spaces(s1));
        lemma_drop_trailing_from(s1, hi);
        assert(s1.subrange(0, hi) =~= s.subrange(0, hi));
    }
}

/// Trimming a string whose ends are not whitespace changes nothing.
pub proof fn lemma_trim_identity(s: Seq<char>)
    requires
        s.len() == 0 || (!is_space_char(s[0]) && !is_space_char(s[s.len() - 1])),
    ensures
        trim_spec(s) == s,
{
}

/// Deduplicating a non-empty sequence leaves something.
proof fn lemma_dedup_nonempty(ts: Seq<Seq<char>>)
    requires
        ts.len() > 0,
    ensures
        dedup_spec(ts).len() > 0,
    decreases ts.len(),
{
    if ts.len() > 1 {
        lemma_dedup_nonempty(ts.drop_last());
    }
}

/// Every element of the deduplicated sequence occurs in the original.
proof fn lemma_dedup_subset(ts: Seq<Seq<char>>)
    ensures
        forall|i: int| 0 <= i < dedup_spec(ts).len() ==> ts.contains(#[trigger] dedup_spec(ts)[i]),
    decreases ts.len(),
{
    if ts.len() > 0 {
        let prefix = dedup_spec(ts.drop_last());
        lemma_dedup_subset(ts.drop_last());
        assert forall|i: int| 0 <= i < dedup_spec(ts).len() implies ts.contains(
            #[trigger] dedup_spec(ts)[i],
        ) by {
            if i < prefix.len() {
                assert(dedup_spec(ts)[i] == prefix[i]);
                let w = choose|w: int|
                    0 <= w < ts.drop_last().len() && ts.drop_last()[w] == prefix[i];
                assert(ts[w] == prefix[i]);
            } else {
                assert(dedup_spec(ts)[i] == ts.last());
                assert(ts[ts.len() - 1] == ts.last());
            }
        }
    }
}

/// Deduplication leaves no duplicates: the elements that remain are
/// pairwise distinct.
pub proof fn lemma_dedup_distinct(ts: Seq<Seq<char>>)
    ensures
        forall|i: int, j: int|
            0 <= i < j < dedup_spec(ts).len() ==> dedup_spec(ts)[i] != dedup_spec(ts)[j],
    decreases ts.len(),
{
    if ts.len() > 0 {
        let prefix = dedup_spec(ts.drop_last());
        lemma_dedup_distinct(ts.drop_last());
        if !prefix.contains(ts.last()) {
            assert forall|i: int, j: int| 0 <= i < j < dedup_spec(ts).len() implies dedup_spec(
                ts,
            )[i] != dedup_spec(ts)[j] by {
                if j < prefix.len() {
                    assert(dedup_spec(ts)[i] == prefix[i] && dedup_spec(ts)[j] == prefix[j]);
                } else {
                    assert(dedup_spec(ts)[i] == prefix[i] && dedup_spec(ts)[j] == ts.last());
                    assert(prefix.contains(prefix[i]));
                }
            }
        }
    }
}

/// Deduplication keeps exactly the elements of the original sequence.
pub proof fn lemma_dedup_same_elements(ts: Seq<Seq<char>>)
    ensures
        forall|x: Seq<char>| dedup_spec(ts).contains(x) <==> ts.contains(x),
    decreases ts.len(),
{
    lemma_dedup_subset(ts);
    if ts.len() == 0 {
        assert forall|x: Seq<char>| !ts.contains(x) by {}
    } else {
        let prefix = dedup_spec(ts.drop_last());
        lemma_dedup_same_elements(ts.drop_last());
        assert forall|x: Seq<char>| dedup_spec(ts).contains(x) <==> ts.contains(x) by {
            if dedup_spec(ts).contains(x) {
                let w = choose|w: int|
                    0 <= w < dedup_spec(ts).len() && dedup_spec(ts)[w] == x;
                assert(ts.contains(dedup_spec(ts)[w]));
            }
            if ts.contains(x) {
                let w = choose|w: int| 0 <= w < ts.len() && ts[w] == x;
                if w < ts.len() - 1 {
                    assert(ts.drop_last()[w] == x);
                    assert(ts.drop_last().contains(x));
                    let v = choose|v: int| 0 <= v < prefix.len() && prefix[v] == x;
                    if prefix.contains(ts.last()) {
                        assert(dedup_spec(ts)[v] == x);
                    } else {
                        assert(dedup_spec(ts)[v] == x);
                    }
                    assert(dedup_spec(ts).contains(x));
                } else {
                    assert(ts.last() == x);
                    if prefix.contains(ts.last()) {
                        let v = choose|v: int| 0 <= v < prefix.len() && prefix[v] == x;
                        assert(dedup_spec(ts)[v] == x);
                    } else {
                        assert(dedup_spec(ts)[prefix.len() as int] == x);
                    }
                    assert(dedup_spec(ts).contains(x));
                }
            }
        }
    }
}

/// Strategy bucketing: with `k` distinct tokens in the trimmed query, the
/// strategy is `focused` exactly when `k` is one, `balanced` exactly when
/// `k` is two or three, `broad` exactly when `k` is at least four, and
/// `original` exactly when there are no tokens at all.
pub proof fn lemma_strategy_bucketing(s: Seq<char>)
    ensures
        ({
            let k = dedup_spec(tokens_spec(trim_spec(s))).len();
            &&& (strategy_spec(s) == "focused"@ <==> k == 1)
            &&& (strategy_spec(s) == "balanced"@ <==> (k == 2 || k == 3))
            &&& (strategy_spec(s) == "broad"@ <==> k >= 4)
            &&& (strategy_spec(s) == "original"@ <==> k == 0)
        }),
{
    reveal_strlit("original");
    reveal_strlit("focused");
    reveal_strlit("balanced");
    reveal_strlit("broad");
    assert("original"@.len() == 8 && "focused"@.len() == 7 && "balanced"@.len() == 8
        && "broad"@.len() == 5);
    assert("original"@[0] == 'o' && "balanced"@[0] == 'b');
    assert("original"@ != "balanced"@);
}

/// Empty or whitespace-only input: the output is the trimmed input with
/// the `original` strategy, and no token is produced.
pub proof fn lemma_empty_input(s: Seq<char>)
    requires
        trim_spec(s).len() == 0,
    ensures
        normalized_query_spec(s) == trim_spec(s),
        strategy_spec(s) == "original"@,
{
    assert(tokens_spec(trim_spec(s)).len() == 0);
    assert(dedup_spec(tokens_spec(trim_spec(s))).len() == 0);
}

/// Dedup order preservation: a token sequence `[t1, t2, t1, t3]` of three
/// distinct tokens deduplicates to `[t1, t2, t3]` — the first occurrence
/// stays in place, the later duplicate is dropped.
pub proof fn lemma_dedup_order(t1: Seq<char>, t2: Seq<char>, t3: Seq<char>)
    requires
        t1 != t2,
        t1 != t3,
        t2 != t3,
    ensures
        dedup_spec(seq![t1, t2, t1, t3]) == seq![t1, t2, t3],
{
    reveal_with_fuel(dedup_spec, 5);
    let ts = seq![t1, t2, t1, t3];
    assert(ts.drop_last() =~= seq![t1, t2, t1]);
    assert(seq![t1, t2, t1].drop_last() =~= seq![t1, t2]);
    assert(seq![t1, t2].drop_last() =~= seq![t1]);
    assert(seq![t1].drop_last() =~= Seq::<Seq<char>>::empty());
    assert(!Seq::<Seq<char>>::empty().contains(t1));
    assert(dedup_spec(seq![t1]) =~= seq![t1]);
    assert(!seq![t1].contains(t2)) by {
        assert forall|i: int| 0 <= i < seq![t1].len() implies seq![t1][i] != t2 by {
            assert(seq![t1][i] == t1);
        }
    }
    assert(dedup_spec(seq![t1, t2]) =~= seq![t1].push(t2));
    assert(seq![t1].push(t2) =~= seq![t1, t2]);
    assert(seq![t1, t2].contains(t1)) by {
        assert(seq![t1, t2][0] == t1);
    }
    assert(dedup_spec(seq![t1, t2, t1]) =~= seq![t1, t2]);
    assert(!seq![t1, t2].contains(t3)) by {
        assert forall|i: int| 0 <= i < seq![t1, t2].len() implies seq![t1, t2][i] != t3 by {
            assert(i == 0 || i == 1);
        }
    }
    assert(dedup_spec(ts) =~= seq![t1, t2].push(t3));
    assert(seq![t1, t2].push(t3) =~= seq![t1, t2, t3]);
}

/// Separator independence at the output: inserting an extra whitespace
/// character beside existing interior whitespace changes neither the
/// normalized query nor the strategy, for a query whose ends are not
/// whitespace and that produces at least one token.
pub proof fn lemma_separator_independence_query(a: Seq<char>, c: char, b: Seq<char>)
    requires
        is_space_char(c),
        a.len() > 0,
        !is_space_char(a[0]),
        b.len() > 0,
        is_space_char(b[0]),
        !is_space_char(b[b.len() - 1]),
        tokens_spec(a + b).len() > 0,
    ensures
        normalized_query_spec(a + seq![c] + b) == normalized_query_spec(a + b),
        strategy_spec(a + seq![c] + b) == strategy_spec(a + b),
{
    let s1 = a + seq![c] + b;
    let s2 = a + b;
    assert(s1[0] == a[0]);
    assert(s2[0] == a[0]);
    assert(s1[s1.len() - 1] == b[b.len() - 1]);
    assert(s2[s2.len() - 1] == b[b.len() - 1]);
    lemma_trim_identity(s1);
    lemma_trim_identity(s2);
    lemma_separator_independence(a, c, b);
    lemma_dedup_nonempty(tokens_spec(s2));
}

/// `str::trim`, with the trimmed span located by scanning the character
/// indices in from both ends.
pub fn trim_str<'a>(s: &'a str) -> (r: &'a str)
    ensures
        r@ == trim_spec(s@),
{
    let n = s.unicode_len();
    let mut lo: usize = 0;
    while lo < n && is_unicode_whitespace(s.get_char(lo))
        invariant
            n == s@.len(),
            lo <= n,
            forall|j: int| 0 <= j < lo ==> is_space_char(s@[j]),
        decreases n - lo,
    {
        lo = lo + 1;
    }
    proof {
        lemma_drop_leading_from(s@, lo as int);
    }
    if lo == n {
        proof {
            assert(s@.subrange(lo as int, n as int) =~= Seq::<char>::empty());
        }
        let r = s.substring_char(n, n);
        proof {
            assert(r@ =~= Seq::<char>::empty());
        }
        return r;
    }
    let mut hi: usize = n;
    while hi > lo && is_unicode_whitespace(s.get_char(hi - 1))
        invariant
            n == s@.len(),
            lo <= hi <= n,
            lo < n,
            !is_space_char(s@[lo as int]),
            forall|j: int| hi <= j < n ==> is_space_char(s@[j]),
        decreases hi,
    {
        hi = hi - 1;
    }
    proof {
        assert(hi > lo);
        let tail = s@.subrange(lo as int, n as int);
        lemma_drop_trailing_from(tail, hi as int - lo as int);
        assert(tail.subrange(0, hi as int - lo as int) =~= s@.subrange(lo as int, hi as int));
        let span = s@.subrange(lo as int, hi as int);
        assert(!is_space_char(span[0]));
        assert(!is_space_char(span.last()));
    }
    s.substring_char(lo, hi)
}

/// Whether some element of `seen` has the same characters as `t`.
fn contains_string(seen: &Vec<String>, t: &String) -> (r: bool)
    ensures
        r == seen.deep_view().contains(t@),
{
    let mut j: usize = 0;
    while j < seen.len()
        invariant
            j <= seen.len(),
            forall|p: int| 0 <= p < j ==> seen.deep_view()[p] != t@,
        decreases seen.len() - j,
    {
        if seen[j] == *t {
            proof {
                assert(seen.deep_view()[j as int] == t@);
            }
            return true;
        }
        j = j + 1;
    }
    proof {
        assert(!seen.deep_view().contains(t@));
    }
    false
}

/// The elements of `tokens` joined with a single space.
fn join_tokens(tokens: &Vec<String>) -> (r: String)
    ensures
        r@ == join_spec(tokens.deep_view()),
{
    let ghost ts = tokens.deep_view();
    let mut out = String::new();
    let mut j: usize = 0;
    proof {
        reveal_strlit(" ");
        assert(ts.subrange(0, 0) =~= Seq::<Seq<char>>::empty());
    }
    while j < tokens.len()
        invariant
            ts == tokens.deep_view(),
            j <= tokens.len(),
            out@ == join_spec(ts.subrange(0, j as int)),
        decreases tokens.len() - j,
    {
        proof {
            reveal_strlit(" ");
            assert(" "@ =~= seq![' ']);
            assert(ts.subrange(0, j as int + 1).drop_last() =~= ts.subrange(0, j as int));
            assert(ts.subrange(0, j as int + 1).last() == ts[j as int]);
        }
        if j > 0 {
            out.append(" ");
        }
        out.append(tokens[j].as_str());
        j = j + 1;
    }
    proof {
        assert(ts.subrange(0, tokens.len() as int) =~= ts);
    }
    out
}

/// Normalize the raw query and derive the search strategy.
///
/// The query is trimmed; when nothing is left the trimmed query comes back
/// with the `original` label and no tokenization is done.  Otherwise the
/// trimmed query is segmented into tokens, the tokens are deduplicated
/// keeping first occurrences, and the result is the tokens joined with
/// single spaces together with the label picked by the distinct-token
/// count: `focused` for one, `balanced` for two or three, `broad` for
/// more.  A query with no tokens at all (only separators) also comes back
/// trimmed, with `original`.
pub fn optimize_search_query(raw_query: &str) -> (r: (String, String))
    ensures
        r.0@ == normalized_query_spec(raw_query@),
        r.1@ == strategy_spec(raw_query@),
{
    let trimmed = trim_str(raw_query);
    if trimmed.is_empty() {
        proof {
            assert(tokens_spec(trimmed@).len() == 0);
            assert(dedup_spec(tokens_spec(trimmed@)).len() == 0);
        }
        return (String::from_str(trimmed), String::from_str("original"));
    }

    let base_tokens = split_query_tokens(trimmed);
    let ghost ts = tokens_spec(trimmed@);

    let mut seen: Vec<String> = Vec::new();
    let mut idx: usize = 0;
    proof {
        assert(ts.subrange(0, 0) =~= Seq::<Seq<char>>::empty());
        assert(seen.deep_view() =~= Seq::<Seq<char>>::empty());
    }
    while idx < base_tokens.len()
        invariant
            base_tokens.deep_view() == ts,
            idx <= base_tokens.len(),
            seen.deep_view() == dedup_spec(ts.subrange(0, idx as int)),
        decreases base_tokens.len() - idx,
    {
        proof {
            assert(ts.subrange(0, idx as int + 1).drop_last() =~= ts.subrange(0, idx as int));
            assert(ts.subrange(0, idx as int + 1).last() == ts[idx as int]);
        }
        let token = &base_tokens[idx];
        if !contains_string(&seen, token) {
            seen.push(token.clone());
            proof {
                assert(seen.deep_view() =~= dedup_spec(ts.subrange(0, idx as int)).push(
                    ts[idx as int],
                ));
            }
        }
        idx = idx + 1;
    }
    proof {
        assert(ts.subrange(0, base_tokens.len() as int) =~= ts);
    }

    if seen.len() == 0 {
        return (String::from_str(trimmed), String::from_str("original"));
    }

    let method = if seen.len() == 1 {
        String::from_str("focused")
    } else if seen.len() <= 3 {
        String::from_str("balanced")
    } else {
        String::from_str("broad")
    };

    (join_tokens(&seen), method)
}

} // verus!
