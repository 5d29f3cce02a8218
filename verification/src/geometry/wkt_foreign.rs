//! Well-known text by other hands: letters of either case, any white space, and coordinates with
//! or without letters that say what they hold.
use vstd::prelude::*;

use super::wkb::Dim;
use super::wkt::{
    coord_at, dim_at, dim_end, further_at, is_dim_letter, is_letter, is_number_mark, keyword_at,
    letters_end, number_at, number_end, ws_end,
};
use crate::error::Failure;
use crate::number::is_float_text;
use crate::text::{is_ascii_white, upper_text};
use crate::xml::foreign::is_gap;

verus! {

// --- words ---------------------------------------------------------------------------

/// Whether a word is another one, of capitals, with some of its letters small.
pub open spec fn is_same_word(word: Seq<char>, capitals: Seq<char>) -> bool {
    &&& word.len() == capitals.len()
    &&& forall|i: int|
        0 <= i < word.len() ==> {
            &&& 'A' <= #[trigger] capitals[i] <= 'Z'
            &&& word[i] == capitals[i] || word[i] as int == capitals[i] as int + 32
        }
}

proof fn lemma_gap(before: Seq<char>, gap: Seq<char>, tail: Seq<char>, i: int)
    requires
        is_gap(gap),
        0 <= i <= gap.len(),
        tail.len() > 0,
        !is_ascii_white(tail[0]),
    ensures
        ws_end(before + gap + tail, before.len() + i) == before.len() + gap.len(),
    decreases gap.len() - i,
{
    let s = before + gap + tail;
    if i < gap.len() {
        assert(s[before.len() + i] == gap[i]);
        lemma_gap(before, gap, tail, i + 1);
    } else {
        assert(s[before.len() + i] == tail[0]);
    }
}

proof fn lemma_letters(before: Seq<char>, word: Seq<char>, tail: Seq<char>, i: int)
    requires
        0 <= i <= word.len(),
        forall|k: int| 0 <= k < word.len() ==> is_letter(#[trigger] word[k]),
        tail.len() > 0 ==> !is_letter(tail[0]),
    ensures
        letters_end(before + word + tail, before.len() + i) == before.len() + word.len(),
    decreases word.len() - i,
{
    let s = before + word + tail;
    if i < word.len() {
        assert(s[before.len() + i] == word[i]);
        lemma_letters(before, word, tail, i + 1);
    } else if tail.len() > 0 {
        assert(s[before.len() + i] == tail[0]);
    }
}

proof fn lemma_dim_letters(before: Seq<char>, word: Seq<char>, tail: Seq<char>, i: int)
    requires
        0 <= i <= word.len(),
        forall|k: int| 0 <= k < word.len() ==> is_dim_letter(#[trigger] word[k]),
        tail.len() > 0 ==> !is_dim_letter(tail[0]),
    ensures
        dim_end(before + word + tail, before.len() + i) == before.len() + word.len(),
    decreases word.len() - i,
{
    let s = before + word + tail;
    if i < word.len() {
        assert(s[before.len() + i] == word[i]);
        lemma_dim_letters(before, word, tail, i + 1);
    } else if tail.len() > 0 {
        assert(s[before.len() + i] == tail[0]);
    }
}

proof fn lemma_same_word(word: Seq<char>, capitals: Seq<char>)
    requires
        is_same_word(word, capitals),
    ensures
        upper_text(word) == capitals,
        forall|k: int|
            0 <= k < word.len() ==> is_letter(#[trigger] word[k]) && !is_ascii_white(word[k]),
{
    assert forall|i: int| 0 <= i < word.len() implies upper_text(word)[i] == #[trigger] capitals[i]
        && is_letter(word[i]) && !is_ascii_white(word[i]) by {}
    assert forall|k: int| 0 <= k < word.len() implies is_letter(#[trigger] word[k])
        && !is_ascii_white(word[k]) by {
        assert('A' <= capitals[k] <= 'Z');
    }
    assert(upper_text(word) =~= capitals);
}

/// The name of a kind is taken in letters of either case, behind any white space.
pub proof fn law_kind_is_named_in_any_case(
    before: Seq<char>,
    gap: Seq<char>,
    word: Seq<char>,
    capitals: Seq<char>,
    tail: Seq<char>,
)
    requires
        is_gap(gap),
        word.len() > 0,
        is_same_word(word, capitals),
        tail.len() > 0 ==> !is_letter(tail[0]),
    ensures
        keyword_at(before + gap + word + tail, before.len() as int) == Ok::<
            (Seq<char>, int),
            Failure,
        >((capitals, (before.len() + gap.len() + word.len()) as int)),
{
    let s = before + gap + word + tail;
    let front = before + gap;
    lemma_same_word(word, capitals);
    assert(s =~= before + gap + (word + tail));
    assert((word + tail)[0] == word[0]);
    lemma_gap(before, gap, word + tail, 0);
    lemma_letters(front, word, tail, 0);
    assert(s.subrange(front.len() as int, (front.len() + word.len()) as int) =~= word);
}

/// The letters that say which ordinates there are beside X and Y.
pub open spec fn letters_of(z: bool, m: bool) -> Seq<char> {
    (if z {
        seq!['Z']
    } else {
        Seq::empty()
    }) + (if m {
        seq!['M']
    } else {
        Seq::empty()
    })
}

/// The letters behind the name of a kind say which ordinates there are, in either case; without
/// any, nothing is said.
pub proof fn law_letters_say_the_ordinates(
    before: Seq<char>,
    gap: Seq<char>,
    word: Seq<char>,
    z: bool,
    m: bool,
    tail: Seq<char>,
)
    requires
        is_gap(gap),
        is_same_word(word, letters_of(z, m)),
        tail.len() > 0,
        !is_dim_letter(tail[0]),
        !is_ascii_white(tail[0]),
    ensures
        dim_at(before + gap + word + tail, before.len() as int) == Ok::<
            (Option<Dim>, int),
            Failure,
        >(
            (
                if z || m {
                    Some(Dim { z, m })
                } else {
                    None
                },
                (before.len() + gap.len() + word.len()) as int,
            ),
        ),
{
    let s = before + gap + word + tail;
    let front = before + gap;
    let capitals = letters_of(z, m);
    lemma_same_word(word, capitals);
    assert(s =~= before + gap + (word + tail));
    assert(!is_ascii_white((word + tail)[0])) by {
        if word.len() > 0 {
            assert((word + tail)[0] == word[0]);
        } else {
            assert((word + tail)[0] == tail[0]);
        }
    }
    lemma_gap(before, gap, word + tail, 0);
    assert forall|k: int| 0 <= k < word.len() implies is_dim_letter(#[trigger] word[k]) by {
        assert(capitals[k] == 'Z' || capitals[k] == 'M');
    }
    lemma_dim_letters(front, word, tail, 0);
    assert(s.subrange(front.len() as int, (front.len() + word.len()) as int) =~= word);
    reveal_strlit("Z");
    reveal_strlit("M");
    reveal_strlit("ZM");
    assert("Z"@ =~= letters_of(true, false));
    assert("M"@ =~= letters_of(false, true));
    assert("ZM"@ =~= letters_of(true, true));
    assert(letters_of(false, true)[0] == 'M');
    assert(letters_of(true, false).len() == 1);
    assert(letters_of(true, true).len() == 2);
}

// --- coordinates ---------------------------------------------------------------------

/// Whether a text is a number.
pub open spec fn is_numeral(t: Seq<char>) -> bool {
    &&& t.len() > 0
    &&& forall|k: int| 0 <= k < t.len() ==> is_number_mark(#[trigger] t[k])
    &&& is_float_text(t)
}

/// Numbers from the `i`th on, each behind its white space.
pub open spec fn spaced(numbers: Seq<Seq<char>>, gaps: Seq<Seq<char>>, i: int) -> Seq<char>
    decreases numbers.len() - i,
{
    if i < 0 || i >= numbers.len() {
        Seq::empty()
    } else {
        gaps[i] + numbers[i] + spaced(numbers, gaps, i + 1)
    }
}

/// Whether white space stands between any two of some numbers, which are all numbers.
pub open spec fn are_spaced(numbers: Seq<Seq<char>>, gaps: Seq<Seq<char>>) -> bool {
    &&& gaps.len() == numbers.len()
    &&& forall|i: int| 0 <= i < numbers.len() ==> is_numeral(#[trigger] numbers[i])
    &&& forall|i: int| 0 <= i < gaps.len() ==> is_gap(#[trigger] gaps[i])
    &&& forall|i: int| 0 < i < gaps.len() ==> (#[trigger] gaps[i]).len() > 0
}

proof fn lemma_number_end(before: Seq<char>, t: Seq<char>, tail: Seq<char>, i: int)
    requires
        0 <= i <= t.len(),
        forall|k: int| 0 <= k < t.len() ==> is_number_mark(#[trigger] t[k]),
        tail.len() > 0,
        !is_number_mark(tail[0]),
    ensures
        number_end(before + t + tail, before.len() + i) == before.len() + t.len(),
    decreases t.len() - i,
{
    let s = before + t + tail;
    if i < t.len() {
        assert(s[before.len() + i] == t[i]);
        lemma_number_end(before, t, tail, i + 1);
    } else {
        assert(s[before.len() + i] == tail[0]);
    }
}

proof fn lemma_number(before: Seq<char>, gap: Seq<char>, t: Seq<char>, tail: Seq<char>)
    requires
        is_gap(gap),
        is_numeral(t),
        tail.len() > 0,
        !is_number_mark(tail[0]),
    ensures
        ({
            let s = before + gap + t + tail;
            let at = (before.len() + gap.len()) as int;
            let found = Ok::<(Seq<char>, int), Failure>((t, at + t.len()));
            &&& ws_end(s, before.len() as int) == at
            &&& s[at] == t[0]
            &&& number_at(s, before.len() as int) == found
            &&& number_at(s, at) == found
        }),
{
    let s = before + gap + t + tail;
    let front = before + gap;
    let at = front.len() as int;
    assert(s =~= before + gap + (t + tail));
    assert((t + tail)[0] == t[0]);
    assert(is_number_mark(t[0]));
    lemma_gap(before, gap, t + tail, 0);
    assert(s =~= front + Seq::<char>::empty() + (t + tail));
    lemma_gap(front, Seq::empty(), t + tail, 0);
    lemma_number_end(front, t, tail, 0);
    assert(s.subrange(at, at + t.len()) =~= t);
}

proof fn lemma_rest(numbers: Seq<Seq<char>>, gaps: Seq<Seq<char>>, i: int, close: Seq<char>)
    requires
        are_spaced(numbers, gaps),
        0 < i <= numbers.len(),
        close.len() > 0,
        !is_number_mark(close[0]),
    ensures
        ({
            let rest = spaced(numbers, gaps, i) + close;
            rest.len() > 0 && !is_number_mark(rest[0])
        }),
{
    let rest = spaced(numbers, gaps, i) + close;
    if i < numbers.len() {
        assert(gaps[i].len() > 0);
        assert(is_gap(gaps[i]));
        assert(rest[0] == gaps[i][0]);
        assert(is_ascii_white(gaps[i][0]));
    } else {
        assert(rest[0] == close[0]);
    }
}

proof fn lemma_further(
    before: Seq<char>,
    numbers: Seq<Seq<char>>,
    gaps: Seq<Seq<char>>,
    i: int,
    last: Seq<char>,
    tail: Seq<char>,
    so_far: Seq<Seq<char>>,
)
    requires
        are_spaced(numbers, gaps),
        0 < i <= numbers.len(),
        is_gap(last),
        tail.len() > 0,
        tail[0] == ',' || tail[0] == ')',
    ensures
        further_at(
            before + spaced(numbers, gaps, i) + (last + tail),
            before.len() as int,
            so_far,
        ) == Ok::<(Seq<Seq<char>>, int), Failure>(
            (
                so_far + numbers.skip(i),
                (before.len() + spaced(numbers, gaps, i).len() + last.len()) as int,
            ),
        ),
    decreases numbers.len() - i,
{
    let close = last + tail;
    let s = before + spaced(numbers, gaps, i) + close;
    lemma_close(last, tail);
    if i == numbers.len() {
        assert(s =~= before + last + tail);
        lemma_gap(before, last, tail, 0);
        assert(s[(before.len() + last.len()) as int] == tail[0]);
        assert(so_far + numbers.skip(i) =~= so_far);
    } else {
        let gap = gaps[i];
        let t = numbers[i];
        let rest = spaced(numbers, gaps, i + 1) + close;
        assert(is_gap(gap));
        assert(is_numeral(t));
        assert(s =~= before + gap + t + rest);
        lemma_rest(numbers, gaps, i + 1, close);
        lemma_number(before, gap, t, rest);
        assert(is_number_mark(t[0]));
        let front = before + gap + t;
        assert(s =~= front + spaced(numbers, gaps, i + 1) + close);
        lemma_further(front, numbers, gaps, i + 1, last, tail, so_far.push(t));
        assert(so_far.push(t) + numbers.skip(i + 1) =~= so_far + numbers.skip(i));
    }
}

proof fn lemma_close(last: Seq<char>, tail: Seq<char>)
    requires
        is_gap(last),
        tail.len() > 0,
        tail[0] == ',' || tail[0] == ')',
    ensures
        (last + tail).len() > 0,
        !is_number_mark((last + tail)[0]),
{
    if last.len() > 0 {
        assert((last + tail)[0] == last[0]);
        assert(is_ascii_white(last[0]));
    } else {
        assert((last + tail)[0] == tail[0]);
    }
}

/// A coordinate is its numbers: X, Y, and behind them the ordinates that the letters say, or,
/// where they say nothing, Z and M. A number beyond those is passed over.
pub proof fn law_coordinate_is_its_numbers(
    before: Seq<char>,
    numbers: Seq<Seq<char>>,
    gaps: Seq<Seq<char>>,
    last: Seq<char>,
    tail: Seq<char>,
    dim: Option<Dim>,
)
    requires
        are_spaced(numbers, gaps),
        numbers.len() >= 2,
        is_gap(last),
        tail.len() > 0,
        tail[0] == ',' || tail[0] == ')',
    ensures
        ({
            let s = before + spaced(numbers, gaps, 0) + (last + tail);
            let end = (before.len() + spaced(numbers, gaps, 0).len() + last.len()) as int;
            let third = if numbers.len() > 2 {
                Some(numbers[2])
            } else {
                None
            };
            let fourth = if numbers.len() > 3 {
                Some(numbers[3])
            } else {
                None
            };
            &&& coord_at(s, before.len() as int, dim) matches Ok((p, to))
            &&& to == end
            &&& p.x == numbers[0]
            &&& p.y == numbers[1]
            &&& dim == Some(Dim { z: true, m: false }) ==> p.z == third && p.m is None
            &&& dim == Some(Dim { z: false, m: true }) ==> p.z is None && p.m == third
            &&& dim is None || dim == Some(Dim { z: true, m: true }) ==> p.z == third && p.m
                == fourth
        }),
{
    let close = last + tail;
    let s = before + spaced(numbers, gaps, 0) + close;
    lemma_close(last, tail);
    let r1 = spaced(numbers, gaps, 1) + close;
    let r2 = spaced(numbers, gaps, 2) + close;
    let b1 = before + gaps[0] + numbers[0];
    let b2 = b1 + gaps[1] + numbers[1];
    assert(is_gap(gaps[0]) && is_gap(gaps[1]));
    assert(is_numeral(numbers[0]) && is_numeral(numbers[1]));
    assert(s =~= b1 + r1);
    assert(s =~= b2 + r2);
    assert(s =~= b2 + spaced(numbers, gaps, 2) + close);
    lemma_rest(numbers, gaps, 1, close);
    lemma_number(before, gaps[0], numbers[0], r1);
    lemma_rest(numbers, gaps, 2, close);
    lemma_number(b1, gaps[1], numbers[1], r2);
    lemma_further(b2, numbers, gaps, 2, last, tail, Seq::empty());
    let more = Seq::empty() + numbers.skip(2);
    assert(more =~= numbers.skip(2));
    assert(numbers.len() > 2 ==> more[0] == numbers[2]);
    assert(numbers.len() > 3 ==> more[1] == numbers[3]);
}

} // verus!
