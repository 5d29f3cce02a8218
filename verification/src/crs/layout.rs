//! The layout of a WKT definition says nothing: neither the kind of its brackets nor
//! the white space between its tokens.
use vstd::prelude::*;

use super::wkt::{ends_word, quote_end, tokens, tokens_from, word_end, Tok};
use crate::text::is_ascii_white;

verus! {

/// Whether the place `i` of a text stands between quotes: whether the quotes before
/// it are odd in number.
pub open spec fn in_quotes(s: Seq<char>, i: int) -> bool
    decreases i,
{
    if i <= 0 {
        false
    } else if s[i - 1] == '"' {
        !in_quotes(s, i - 1)
    } else {
        in_quotes(s, i - 1)
    }
}

/// Between an opening quote and the next one every place stands between quotes.
proof fn lemma_inside_quotes(s: Seq<char>, p: int, i: int)
    requires
        0 <= p < s.len(),
        s[p] == '"',
        !in_quotes(s, p),
        p < i <= quote_end(s, p + 1),
    ensures
        in_quotes(s, i),
        i < quote_end(s, p + 1) ==> s[i] != '"',
    decreases i,
{
    if i < quote_end(s, p + 1) {
        lemma_no_quote_ahead(s, p + 1, i);
    }
    if i > p + 1 {
        lemma_no_quote_ahead(s, p + 1, i - 1);
        lemma_inside_quotes(s, p, i - 1);
    }
}

proof fn lemma_no_quote_ahead(s: Seq<char>, p: int, i: int)
    requires
        0 <= p <= i < quote_end(s, p),
    ensures
        i < s.len() && s[i] != '"',
    decreases i - p,
{
    if p < i {
        lemma_no_quote_ahead(s, p + 1, i);
    }
}

/// No place inside a word is its end.
proof fn lemma_inside_word(s: Seq<char>, p: int, i: int)
    requires
        0 <= p <= i < word_end(s, p),
    ensures
        i < s.len() && !ends_word(s[i]),
    decreases i - p,
{
    if p < i {
        lemma_inside_word(s, p + 1, i);
    }
}

/// A word ends at most at the end of the text, at what ends it.
proof fn lemma_word_stops(s: Seq<char>, p: int)
    requires
        0 <= p <= s.len(),
    ensures
        p <= word_end(s, p) <= s.len(),
        word_end(s, p) < s.len() ==> ends_word(s[word_end(s, p)]),
    decreases s.len() - p,
{
    if p < s.len() && !ends_word(s[p]) {
        lemma_word_stops(s, p + 1);
    }
}

proof fn lemma_quote_stops(s: Seq<char>, p: int)
    requires
        0 <= p <= s.len(),
    ensures
        p <= quote_end(s, p) <= s.len(),
        quote_end(s, p) < s.len() ==> s[quote_end(s, p)] == '"',
    decreases s.len() - p,
{
    if p < s.len() && s[p] != '"' {
        lemma_quote_stops(s, p + 1);
    }
}

/// A place that is reached inside a word is no more between quotes than its start.
proof fn lemma_word_keeps_quotes(s: Seq<char>, p: int, i: int)
    requires
        0 <= p <= i <= word_end(s, p),
    ensures
        in_quotes(s, i) == in_quotes(s, p),
    decreases i - p,
{
    if p < i {
        lemma_word_keeps_quotes(s, p, i - 1);
        lemma_inside_word(s, p, i - 1);
    }
}

/// Where a word that has no end before `q` ends.
pub proof fn lemma_word_end_is(s: Seq<char>, p: int, q: int)
    requires
        0 <= p <= q <= s.len(),
        forall|i: int| p <= i < q ==> !ends_word(#[trigger] s[i]),
        q < s.len() ==> ends_word(s[q]),
    ensures
        word_end(s, p) == q,
    decreases q - p,
{
    if p < q {
        assert(!ends_word(s[p]));
        lemma_word_end_is(s, p + 1, q);
    }
}

proof fn lemma_quote_end_is(s: Seq<char>, p: int, q: int)
    requires
        0 <= p <= q <= s.len(),
        forall|i: int| p <= i < q ==> #[trigger] s[i] != '"',
        q < s.len() ==> s[q] == '"',
    ensures
        quote_end(s, p) == q,
    decreases q - p,
{
    if p < q {
        assert(s[p] != '"');
        lemma_quote_end_is(s, p + 1, q);
    }
}

// --- brackets ------------------------------------------------------------------------------

/// Whether two characters are brackets that open, or that close.
pub open spec fn are_alike(a: char, b: char) -> bool {
    ||| (a == '[' || a == '(') && (b == '[' || b == '(')
    ||| (a == ']' || a == ')') && (b == ']' || b == ')')
}

/// Whether `t` is `s` with brackets outside quotes written as those of the other
/// kind.
pub open spec fn is_rebracketed(s: Seq<char>, t: Seq<char>) -> bool {
    &&& s.len() == t.len()
    &&& forall|i: int|
        0 <= i < s.len() ==> #[trigger] t[i] == s[i] || (!in_quotes(s, i) && are_alike(s[i], t[i]))
}

proof fn lemma_rebracketed_from(s: Seq<char>, t: Seq<char>, p: int)
    requires
        is_rebracketed(s, t),
        0 <= p <= s.len(),
        !in_quotes(s, p),
    ensures
        tokens_from(t, p) == tokens_from(s, p),
    decreases s.len() - p,
{
    if p < s.len() {
        assert(t[p] == s[p] || are_alike(s[p], t[p]));
        if s[p] == '"' {
            let q = quote_end(s, p + 1);
            lemma_quote_stops(s, p + 1);
            assert forall|i: int| p + 1 <= i < q implies #[trigger] t[i] != '"' && t[i] == s[i] by {
                lemma_inside_quotes(s, p, i);
            }
            lemma_quote_end_is(t, p + 1, q);
            if q < s.len() {
                lemma_inside_quotes(s, p, q);
                assert(t[q] == s[q]);
                assert(!in_quotes(s, q + 1));
                lemma_rebracketed_from(s, t, q + 1);
                assert(t.subrange(p + 1, q) =~= s.subrange(p + 1, q));
            } else {
                assert(t.skip(p + 1) =~= s.skip(p + 1));
            }
        } else if ends_word(s[p]) {
            assert(in_quotes(s, p + 1) == in_quotes(s, p));
            lemma_rebracketed_from(s, t, p + 1);
        } else {
            let q = word_end(s, p);
            lemma_word_stops(s, p);
            assert forall|i: int| p <= i < q implies !ends_word(#[trigger] t[i]) && t[i] == s[i] by {
                lemma_inside_word(s, p, i);
                assert(t[i] == s[i] || are_alike(s[i], t[i]));
            }
            if q < s.len() {
                assert(t[q] == s[q] || are_alike(s[q], t[q]));
            }
            lemma_word_end_is(t, p, q);
            lemma_word_keeps_quotes(s, p, q);
            assert(p < q);
            lemma_rebracketed_from(s, t, q);
            assert(t.subrange(p, q) =~= s.subrange(p, q));
        }
    }
}

/// Brackets of both kinds are the same: a definition has the same tokens with any
/// bracket outside quotes written as that of the other kind.
pub proof fn law_brackets_are_alike(s: Seq<char>, t: Seq<char>)
    requires
        is_rebracketed(s, t),
    ensures
        tokens(t) == tokens(s),
{
    lemma_rebracketed_from(s, t, 0);
}

// --- white space ---------------------------------------------------------------------------

/// Whether every character is white space.
pub open spec fn is_blank(gap: Seq<char>) -> bool {
    forall|i: int| 0 <= i < gap.len() ==> is_ascii_white(#[trigger] gap[i])
}

/// Whether white space can be put in at a place: it is outside quotes, and not in
/// the middle of a word.
pub open spec fn is_gap(s: Seq<char>, i: int) -> bool {
    &&& !in_quotes(s, i)
    &&& i <= 0 || i >= s.len() || ends_word(s[i - 1]) || ends_word(s[i])
}

/// What follows a place has the tokens that it has alone.
pub proof fn lemma_tokens_of_suffix(a: Seq<char>, b: Seq<char>, k: int)
    requires
        0 <= k <= b.len(),
    ensures
        tokens_from(a + b, a.len() + k) == tokens_from(b, k),
    decreases b.len() - k,
{
    let s = a + b;
    let n = a.len() as int;
    if k < b.len() {
        assert(s[n + k] == b[k]);
        if b[k] == '"' {
            let q = quote_end(b, k + 1);
            lemma_quote_stops(b, k + 1);
            assert forall|i: int| n + k + 1 <= i < n + q implies #[trigger] s[i] != '"' by {
                lemma_no_quote_ahead(b, k + 1, i - n);
                assert(s[i] == b[i - n]);
            }
            if q < b.len() {
                assert(s[n + q] == b[q]);
            }
            lemma_quote_end_is(s, n + k + 1, n + q);
            if q < b.len() {
                lemma_tokens_of_suffix(a, b, q + 1);
                assert(s.subrange(n + k + 1, n + q) =~= b.subrange(k + 1, q));
            } else {
                assert(s.skip(n + k + 1) =~= b.skip(k + 1));
            }
        } else if ends_word(b[k]) {
            lemma_tokens_of_suffix(a, b, k + 1);
        } else {
            let q = word_end(b, k);
            lemma_word_stops(b, k);
            assert forall|i: int| n + k <= i < n + q implies !ends_word(#[trigger] s[i]) by {
                lemma_inside_word(b, k, i - n);
                assert(s[i] == b[i - n]);
            }
            if q < b.len() {
                assert(s[n + q] == b[q]);
            }
            lemma_word_end_is(s, n + k, n + q);
            assert(k < q);
            lemma_tokens_of_suffix(a, b, q);
            assert(s.subrange(n + k, n + q) =~= b.subrange(k, q));
        }
    }
}

/// White space has no tokens.
proof fn lemma_blank_has_no_tokens(gap: Seq<char>, b: Seq<char>, k: int)
    requires
        is_blank(gap),
        0 <= k <= gap.len(),
    ensures
        tokens_from(gap + b, k) == tokens_from(b, 0),
    decreases gap.len() - k,
{
    if k < gap.len() {
        assert((gap + b)[k] == gap[k]);
        assert(is_ascii_white(gap[k]));
        lemma_blank_has_no_tokens(gap, b, k + 1);
    } else {
        lemma_tokens_of_suffix(gap, b, 0);
    }
}

proof fn lemma_gap_from(a: Seq<char>, gap: Seq<char>, b: Seq<char>, p: int)
    requires
        is_blank(gap),
        gap.len() > 0,
        is_gap(a + b, a.len() as int),
        0 <= p <= a.len(),
        !in_quotes(a + b, p),
    ensures
        tokens_from(a + gap + b, p) == tokens_from(a + b, p),
    decreases a.len() - p,
{
    let s = a + b;
    let t = a + gap + b;
    let n = a.len() as int;
    assert forall|i: int| 0 <= i < n implies #[trigger] t[i] == s[i] by {
        assert(t[i] == a[i] && s[i] == a[i]);
    }
    if p == n {
        assert(t =~= a + (gap + b));
        lemma_tokens_of_suffix(a, gap + b, 0);
        lemma_tokens_of_suffix(a, b, 0);
        lemma_blank_has_no_tokens(gap, b, 0);
    } else if s[p] == '"' {
        let q = quote_end(s, p + 1);
        lemma_quote_stops(s, p + 1);
        if q >= n {
            lemma_inside_quotes(s, p, n);
        }
        assert forall|i: int| p + 1 <= i < q implies #[trigger] t[i] != '"' by {
            lemma_no_quote_ahead(s, p + 1, i);
            assert(t[i] == s[i]);
        }
        assert(t[q] == s[q]);
        lemma_quote_end_is(t, p + 1, q);
        lemma_inside_quotes(s, p, q);
        assert(!in_quotes(s, q + 1));
        lemma_gap_from(a, gap, b, q + 1);
        assert(t.subrange(p + 1, q) =~= s.subrange(p + 1, q));
    } else if ends_word(s[p]) {
        assert(t[p] == s[p]);
        assert(in_quotes(s, p + 1) == in_quotes(s, p));
        lemma_gap_from(a, gap, b, p + 1);
    } else {
        let q = word_end(s, p);
        lemma_word_stops(s, p);
        if q > n {
            lemma_inside_word(s, p, n - 1);
            lemma_inside_word(s, p, n);
        }
        assert forall|i: int| p <= i < q implies !ends_word(#[trigger] t[i]) by {
            lemma_inside_word(s, p, i);
            assert(t[i] == s[i]);
        }
        assert(ends_word(t[q])) by {
            if q == n {
                assert(t[q] == gap[0]);
                assert(is_ascii_white(gap[0]));
            } else {
                assert(t[q] == s[q]);
            }
        }
        lemma_word_end_is(t, p, q);
        lemma_word_keeps_quotes(s, p, q);
        assert(t[p] == s[p]);
        assert(p < q);
        lemma_gap_from(a, gap, b, q);
        assert(t.subrange(p, q) =~= s.subrange(p, q));
    }
}

/// A text with white space put in before each of its characters from the one
/// numbered `i` on, and at its end.
pub open spec fn spread_from(s: Seq<char>, gaps: Seq<Seq<char>>, i: int) -> Seq<char>
    decreases s.len() - i,
{
    if i < 0 || i >= s.len() {
        gaps[s.len() as int]
    } else {
        gaps[i] + seq![s[i]] + spread_from(s, gaps, i + 1)
    }
}

/// Whether white space is put in only where it can be.
pub open spec fn are_gaps(s: Seq<char>, gaps: Seq<Seq<char>>) -> bool {
    &&& gaps.len() == s.len() + 1
    &&& forall|i: int| 0 <= i < gaps.len() ==> is_blank(#[trigger] gaps[i])
    &&& forall|i: int| 0 <= i < gaps.len() && (#[trigger] gaps[i]).len() > 0 ==> is_gap(s, i)
}

/// Places are between quotes by what stands before them.
proof fn lemma_quotes_by_prefix(s: Seq<char>, t: Seq<char>, i: int)
    requires
        0 <= i <= s.len(),
        i <= t.len(),
        forall|k: int| 0 <= k < i ==> #[trigger] s[k] == t[k],
    ensures
        in_quotes(s, i) == in_quotes(t, i),
    decreases i,
{
    if i > 0 {
        lemma_quotes_by_prefix(s, t, i - 1);
        assert(s[i - 1] == t[i - 1]);
    }
}

proof fn lemma_spread_from(s: Seq<char>, gaps: Seq<Seq<char>>, i: int)
    requires
        are_gaps(s, gaps),
        0 <= i <= s.len(),
    ensures
        tokens(s.take(i) + spread_from(s, gaps, i)) == tokens(s),
    decreases s.len() - i,
{
    let a = s.take(i);
    let gap = gaps[i];
    let b = if i < s.len() {
        seq![s[i]] + spread_from(s, gaps, i + 1)
    } else {
        Seq::empty()
    };
    assert(is_blank(gap));
    assert(s.take(i) + spread_from(s, gaps, i) =~= a + gap + b);
    assert(tokens(a + b) == tokens(s)) by {
        if i < s.len() {
            lemma_spread_from(s, gaps, i + 1);
            assert(s.take(i + 1) + spread_from(s, gaps, i + 1) =~= a + b);
        } else {
            assert(a + b =~= s);
        }
    }
    if gap.len() > 0 {
        assert(is_gap(s, i));
        assert forall|k: int| 0 <= k < i implies #[trigger] s[k] == (a + b)[k] by {
            assert(a[k] == s[k]);
        }
        lemma_quotes_by_prefix(s, a + b, i);
        if i < s.len() {
            assert((a + b)[i] == s[i]);
        }
        if 0 < i {
            assert((a + b)[i - 1] == s[i - 1]);
        }
        lemma_gap_from(a, gap, b, 0);
    } else {
        assert(a + gap + b =~= a + b);
    }
}

/// White space between tokens says nothing: a definition has the same tokens with
/// any of it put in outside quotes, anywhere but in the middle of a word.
pub proof fn law_white_space_is_free(s: Seq<char>, gaps: Seq<Seq<char>>)
    requires
        are_gaps(s, gaps),
    ensures
        tokens(spread_from(s, gaps, 0)) == tokens(s),
{
    lemma_spread_from(s, gaps, 0);
    assert(s.take(0) + spread_from(s, gaps, 0) =~= spread_from(s, gaps, 0));
}

/// The layout of a definition says nothing: it has the same tokens with brackets of
/// the other kind and with white space put in.
pub proof fn law_layout_says_nothing(s: Seq<char>, t: Seq<char>, gaps: Seq<Seq<char>>)
    requires
        is_rebracketed(s, t),
        are_gaps(t, gaps),
    ensures
        tokens(spread_from(t, gaps, 0)) == tokens(s),
{
    law_white_space_is_free(t, gaps);
    law_brackets_are_alike(s, t);
}

/// Text between quotes is one token, as it is, whatever follows.
pub proof fn law_quoted_text_is_one_token(text: Seq<char>, rest: Seq<char>)
    requires
        !text.contains('"'),
    ensures
        tokens(seq!['"'] + text + seq!['"'] + rest) == seq![Tok::Str(text)] + tokens(rest),
{
    let s = seq!['"'] + text + seq!['"'] + rest;
    let q = text.len() + 1;
    assert forall|i: int| 1 <= i < q implies #[trigger] s[i] != '"' by {
        assert(s[i] == text[i - 1]);
    }
    assert(s[q as int] == '"');
    lemma_quote_end_is(s, 1, q as int);
    assert(s.subrange(1, q as int) =~= text);
    let front = seq!['"'] + text + seq!['"'];
    lemma_tokens_of_suffix(front, rest, 0);
}

} // verus!
