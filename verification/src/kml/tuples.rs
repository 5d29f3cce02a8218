//! What the text of coordinates is read as.
use vstd::prelude::*;

use super::reader::{part_end, tuple_of, tuples_from, word_end};
use crate::error::Failure;
use crate::geometry::Position;
use crate::number::is_float_text;
use crate::text::{first_place, is_ascii_white};
use crate::xml::parser::white_end;

verus! {

/// Whether a text is a number without a comma.
pub open spec fn is_part(t: Seq<char>) -> bool {
    is_float_text(t) && !t.contains(',')
}

proof fn lemma_part_end(t: Seq<char>, p: int, q: int)
    requires
        0 <= p <= q <= t.len(),
        forall|i: int| p <= i < q ==> #[trigger] t[i] != ',',
        q < t.len() ==> t[q] == ',',
    ensures
        part_end(t, p) == q,
{
    lemma_first_place(t, p, q);
}

proof fn lemma_first_place(t: Seq<char>, p: int, q: int)
    requires
        0 <= p <= q <= t.len(),
        forall|i: int| p <= i < q ==> #[trigger] t[i] != ',',
        q < t.len() ==> t[q] == ',',
    ensures
        first_place(t, ',', p) == if q < t.len() {
            Some(q)
        } else {
            None
        },
    decreases q - p,
{
    if p < q {
        assert(t[p] != ',');
        lemma_first_place(t, p + 1, q);
    }
}

/// Two numbers with a comma between them are a longitude and a latitude.
pub proof fn law_pair_is_a_position(x: Seq<char>, y: Seq<char>)
    requires
        is_part(x),
        is_part(y),
    ensures
        tuple_of(x + seq![','] + y) == Some(Position { x, y, z: None, m: None }),
{
    let t = x + seq![','] + y;
    let a = x.len() as int;
    let n = t.len() as int;
    lemma_no_comma(t, 0, x);
    lemma_no_comma(t, a + 1, y);
    lemma_part_end(t, 0, a);
    lemma_part_end(t, a + 1, n);
    assert(t.subrange(0, a) =~= x);
    assert(t.subrange(a + 1, n) =~= y);
}

/// Three numbers with commas between them are a longitude, a latitude and an altitude,
/// whatever stands behind a further comma.
pub proof fn law_triple_is_a_position(x: Seq<char>, y: Seq<char>, z: Seq<char>, rest: Seq<char>)
    requires
        is_part(x),
        is_part(y),
        is_part(z),
        rest.len() == 0 || rest[0] == ',',
    ensures
        tuple_of(x + seq![','] + y + seq![','] + z + rest) == Some(
            Position { x, y, z: Some(z), m: None },
        ),
{
    let t = x + seq![','] + y + seq![','] + z + rest;
    let a = x.len() as int;
    let b = a + 1 + y.len();
    let c = b + 1 + z.len();
    lemma_no_comma(t, 0, x);
    lemma_no_comma(t, a + 1, y);
    lemma_no_comma(t, b + 1, z);
    lemma_part_end(t, 0, a);
    lemma_part_end(t, a + 1, b);
    if rest.len() > 0 {
        assert(t[c] == rest[0]);
    }
    lemma_part_end(t, b + 1, c);
    assert(t.subrange(0, a) =~= x);
    assert(t.subrange(a + 1, b) =~= y);
    assert(t.subrange(b + 1, c) =~= z);
}

proof fn lemma_no_comma(t: Seq<char>, p: int, x: Seq<char>)
    requires
        0 <= p,
        p + x.len() <= t.len(),
        forall|i: int| 0 <= i < x.len() ==> t[p + i] == #[trigger] x[i],
        !x.contains(','),
    ensures
        forall|i: int| p <= i < p + x.len() ==> #[trigger] t[i] != ',',
{
    assert forall|i: int| p <= i < p + x.len() implies #[trigger] t[i] != ',' by {
        assert(t[p + (i - p)] == x[i - p]);
    }
}

// --- runs ----------------------------------------------------------------------------------

/// Whether a text is white space.
pub open spec fn is_gap(t: Seq<char>) -> bool {
    forall|i: int| 0 <= i < t.len() ==> is_ascii_white(#[trigger] t[i])
}

/// Whether a text is a tuple, without white space in it.
#[verifier::opaque]
pub open spec fn is_tuple(t: Seq<char>) -> bool {
    t.len() > 0 && tuple_of(t) is Some && forall|i: int|
        0 <= i < t.len() ==> !is_ascii_white(#[trigger] t[i])
}

/// Tuples with white space before and between them, and behind the last.
pub open spec fn spaced(gaps: Seq<Seq<char>>, words: Seq<Seq<char>>, i: int) -> Seq<char>
    decreases words.len() - i,
{
    if i < 0 || i >= words.len() {
        gaps[i]
    } else {
        gaps[i] + words[i] + spaced(gaps, words, i + 1)
    }
}

proof fn lemma_white_end(s: Seq<char>, p: int, q: int)
    requires
        0 <= p <= q <= s.len(),
        forall|i: int| p <= i < q ==> is_ascii_white(#[trigger] s[i]),
        q < s.len() ==> !is_ascii_white(s[q]),
    ensures
        white_end(s, p) == q,
    decreases q - p,
{
    if p < q {
        assert(is_ascii_white(s[p]));
        lemma_white_end(s, p + 1, q);
    }
}

proof fn lemma_word_end(s: Seq<char>, p: int, q: int)
    requires
        0 <= p <= q <= s.len(),
        forall|i: int| p <= i < q ==> !is_ascii_white(#[trigger] s[i]),
        q < s.len() ==> is_ascii_white(s[q]),
    ensures
        word_end(s, p) == q,
    decreases q - p,
{
    if p < q {
        assert(!is_ascii_white(s[p]));
        lemma_word_end(s, p + 1, q);
    }
}

/// Tuples with white space between them are positions, all of them and in their order.
pub proof fn law_every_tuple_is_a_position(gaps: Seq<Seq<char>>, words: Seq<Seq<char>>)
    requires
        gaps.len() == words.len() + 1,
        forall|i: int| 0 <= i < gaps.len() ==> is_gap(#[trigger] gaps[i]),
        forall|i: int| 0 < i < words.len() ==> (#[trigger] gaps[i]).len() > 0,
        forall|i: int| 0 <= i < words.len() ==> is_tuple(#[trigger] words[i]),
    ensures
        tuples_from(spaced(gaps, words, 0), 0, Seq::empty()) == Ok::<
            Seq<Position<Seq<char>>>,
            Failure,
        >(words.map_values(|w: Seq<char>| tuple_of(w)->0)),
{
    let s = spaced(gaps, words, 0);
    lemma_tuples(s, Seq::empty(), gaps, words, 0, Seq::empty());
    let all = words.map_values(|w: Seq<char>| tuple_of(w)->0);
    assert(Seq::empty() + s =~= s);
    assert(Seq::empty() + all.skip(0) =~= all);
}

proof fn lemma_tuple(w: Seq<char>)
    requires
        is_tuple(w),
    ensures
        w.len() > 0,
        forall|i: int| 0 <= i < w.len() ==> !is_ascii_white(#[trigger] w[i]),
{
    reveal(is_tuple);
}

/// One tuple is read, and then what follows it.
proof fn lemma_step(s: Seq<char>, p: int, q: int, e: int, so_far: Seq<Position<Seq<char>>>)
    requires
        0 <= p <= q < e <= s.len(),
        white_end(s, p) == q,
        word_end(s, q) == e,
        is_tuple(s.subrange(q, e)),
    ensures
        tuples_from(s, p, so_far) == tuples_from(
            s,
            e,
            so_far.push(tuple_of(s.subrange(q, e))->0),
        ),
{
    reveal(is_tuple);
}

/// Where a tuple and the white space before it end.
proof fn lemma_places(before: Seq<char>, gap: Seq<char>, w: Seq<char>, rest: Seq<char>)
    requires
        is_gap(gap),
        is_tuple(w),
        rest.len() > 0 ==> is_ascii_white(rest[0]),
    ensures
        ({
            let s = before + (gap + w + rest);
            let p = before.len() as int;
            let q = p + gap.len();
            let e = q + w.len();
            &&& q < e <= s.len()
            &&& white_end(s, p) == q
            &&& word_end(s, q) == e
            &&& s.subrange(q, e) == w
            &&& s == (before + gap + w) + rest
        }),
{
    let s = before + (gap + w + rest);
    let p = before.len() as int;
    let q = p + gap.len();
    let e = q + w.len();
    lemma_tuple(w);
    assert forall|i: int| p <= i < q implies is_ascii_white(#[trigger] s[i]) by {
        assert(s[i] == gap[i - p]);
    }
    assert(s[q] == w[0]);
    lemma_white_end(s, p, q);
    assert forall|i: int| q <= i < e implies !is_ascii_white(#[trigger] s[i]) by {
        assert(s[i] == w[i - q]);
    }
    if e < s.len() {
        assert(s[e] == rest[0]);
    }
    lemma_word_end(s, q, e);
    assert(s.subrange(q, e) =~= w);
    assert(s =~= (before + gap + w) + rest);
}

/// White space at the end of the tuples ends them.
proof fn lemma_no_more(before: Seq<char>, gap: Seq<char>, so_far: Seq<Position<Seq<char>>>)
    requires
        is_gap(gap),
    ensures
        tuples_from(before + gap, before.len() as int, so_far) == Ok::<
            Seq<Position<Seq<char>>>,
            Failure,
        >(so_far),
{
    let s = before + gap;
    let p = before.len() as int;
    assert forall|i: int| p <= i < s.len() implies is_ascii_white(#[trigger] s[i]) by {
        assert(s[i] == gap[i - p]);
    }
    lemma_white_end(s, p, s.len() as int);
}

proof fn lemma_tuples(
    s: Seq<char>,
    before: Seq<char>,
    gaps: Seq<Seq<char>>,
    words: Seq<Seq<char>>,
    k: int,
    so_far: Seq<Position<Seq<char>>>,
)
    requires
        0 <= k <= words.len(),
        gaps.len() == words.len() + 1,
        forall|i: int| 0 <= i < gaps.len() ==> is_gap(#[trigger] gaps[i]),
        forall|i: int| 0 < i < words.len() ==> (#[trigger] gaps[i]).len() > 0,
        forall|i: int| 0 <= i < words.len() ==> is_tuple(#[trigger] words[i]),
        s == before + spaced(gaps, words, k),
    ensures
        tuples_from(s, before.len() as int, so_far) == Ok::<Seq<Position<Seq<char>>>, Failure>(
            so_far + words.map_values(|w: Seq<char>| tuple_of(w)->0).skip(k),
        ),
    decreases words.len() - k,
{
    let f = |w: Seq<char>| tuple_of(w)->0;
    let all = words.map_values(f);
    let p = before.len() as int;
    let gap = gaps[k];
    assert(is_gap(gap));
    if k == words.len() {
        assert(spaced(gaps, words, k) == gap);
        lemma_no_more(before, gap, so_far);
        assert(so_far + all.skip(k) =~= so_far);
    } else {
        let w = words[k];
        let rest = spaced(gaps, words, k + 1);
        assert(is_tuple(w));
        let next = gaps[k + 1];
        assert(is_gap(next));
        assert(rest.len() > 0 ==> is_ascii_white(rest[0])) by {
            if k + 1 < words.len() {
                assert(next.len() > 0);
                assert(rest[0] == next[0]);
            } else {
                assert(rest == next);
            }
        }
        assert(spaced(gaps, words, k) == gap + w + rest);
        lemma_places(before, gap, w, rest);
        let q = p + gap.len();
        let longer = so_far.push(tuple_of(w)->0);
        lemma_step(s, p, q, q + w.len(), so_far);
        lemma_tuples(s, before + gap + w, gaps, words, k + 1, longer);
        assert(longer + all.skip(k + 1) =~= so_far + all.skip(k));
    }
}

} // verus!
