//! Documents by other hands: references, sections, comments and attributes.
use vstd::prelude::*;

use super::parser::{
    aside_end, content_from, ends_name, name_end, next_place, referred, spelled as
    number_spelled, stands, tag_from, text_end, unescaped, white_end,
};
use super::Element;
use crate::error::Failure;
use crate::json::escapes::is_digit_for;
use crate::text::{after_last, is_ascii_white, lemma_after_last_extends};

verus! {

// --- spellings -----------------------------------------------------------------------

/// The characters that have a name.
pub open spec fn named() -> Seq<(Seq<char>, char)> {
    seq![
        (seq!['a', 'm', 'p'], '&'),
        (seq!['l', 't'], '<'),
        (seq!['g', 't'], '>'),
        (seq!['q', 'u', 'o', 't'], '"'),
        (seq!['a', 'p', 'o', 's'], '\''),
    ]
}

/// Whether digits say a number in a base.
pub open spec fn says(digits: Seq<char>, base: int, n: int) -> bool
    decreases digits.len(),
{
    if digits.len() == 0 {
        n == 0
    } else {
        n >= 0 && is_digit_for(digits.last(), n % base) && says(
            digits.drop_last(),
            base,
            n / base,
        )
    }
}

/// A way to spell a character.
pub enum Spelling {
    /// The character itself.
    Plain,
    /// One of the names.
    Named(int),
    /// The digits of its number in base ten.
    Decimal(Seq<char>),
    /// The mark of base sixteen, and the digits of its number in it.
    Hexadecimal(char, Seq<char>),
}

impl Spelling {
    #[verifier::opaque]
    pub open spec fn spells(self, c: char) -> bool {
        match self {
            Spelling::Plain => c != '&',
            Spelling::Named(k) => 0 <= k < named().len() && named()[k].1 == c,
            Spelling::Decimal(digits) => digits.len() > 0 && says(digits, 10, c as int),
            Spelling::Hexadecimal(mark, digits) => (mark == 'x' || mark == 'X') && digits.len() > 0
                && says(digits, 16, c as int),
        }
    }

    /// What stands between `&` and `;`.
    pub open spec fn name(self) -> Seq<char> {
        match self {
            Spelling::Plain => Seq::empty(),
            Spelling::Named(k) => named()[k].0,
            Spelling::Decimal(digits) => seq!['#'] + digits,
            Spelling::Hexadecimal(mark, digits) => seq!['#', mark] + digits,
        }
    }

    #[verifier::opaque]
    pub open spec fn text(self, c: char) -> Seq<char> {
        if self is Plain {
            seq![c]
        } else {
            seq!['&'] + self.name() + seq![';']
        }
    }
}

/// A text with each of its characters spelled in a way of its own.
pub open spec fn spelled(value: Seq<char>, ways: Seq<Spelling>, i: int) -> Seq<char>
    decreases value.len() - i,
{
    if i < 0 || i >= value.len() {
        Seq::empty()
    } else {
        ways[i].text(value[i]) + spelled(value, ways, i + 1)
    }
}

/// Whether each way spells its character.
pub open spec fn all_spell(value: Seq<char>, ways: Seq<Spelling>) -> bool {
    ways.len() == value.len() && forall|k: int|
        0 <= k < value.len() ==> (#[trigger] ways[k]).spells(value[k])
}

proof fn lemma_digit(c: char, d: int, base: nat)
    requires
        is_digit_for(c, d),
        d < base,
        base == 10 || base == 16,
    ensures
        super::parser::digit_in(c, base) == Some(d as nat),
        c != ';',
        c != 'x' && c != 'X',
{
    reveal(is_digit_for);
}

proof fn lemma_says(digits: Seq<char>, base: nat, n: int)
    requires
        base == 10 || base == 16,
        says(digits, base as int, n),
        n <= 0x10_FFFF,
    ensures
        number_spelled(digits, base) == Some(n as nat),
        forall|i: int|
            0 <= i < digits.len() ==> #[trigger] digits[i] != ';' && digits[i] != 'x' && digits[i]
                != 'X',
    decreases digits.len(),
{
    if digits.len() > 0 {
        let b = base as int;
        let shorter = digits.drop_last();
        lemma_says(shorter, base, n / b);
        lemma_digit(digits.last(), n % b, base);
        assert forall|i: int| 0 <= i < digits.len() implies #[trigger] digits[i] != ';' && digits[i]
            != 'x' && digits[i] != 'X' by {
            if i < shorter.len() {
                assert(shorter[i] == digits[i]);
            }
        }
        if base == 10 {
            assert(n / 10 * 10 + n % 10 == n);
        } else {
            assert(n / 16 * 16 + n % 16 == n);
        }
    }
}

/// What a name between `&` and `;` refers to.
proof fn lemma_name(way: Spelling, c: char)
    requires
        way.spells(c),
        way !is Plain,
    ensures
        referred(way.name()) == Some(c),
        forall|i: int| 0 <= i < way.name().len() ==> #[trigger] way.name()[i] != ';',
{
    reveal(Spelling::spells);
    reveal_strlit("amp");
    reveal_strlit("lt");
    reveal_strlit("gt");
    reveal_strlit("quot");
    reveal_strlit("apos");
    let name = way.name();
    match way {
        Spelling::Plain => {},
        Spelling::Named(k) => {
            assert(k == 0 ==> name =~= "amp"@);
            assert(k == 1 ==> name =~= "lt"@);
            assert(k == 2 ==> name =~= "gt"@);
            assert(k == 3 ==> name =~= "quot"@);
            assert(k == 4 ==> name =~= "apos"@);
            assert(k == 1 ==> name.len() == 2);
            assert(k == 3 ==> name[0] == 'q');
            assert(k == 4 ==> name[0] == 'a');
        },
        Spelling::Decimal(digits) => {
            lemma_says(digits, 10, c as int);
            assert(name[0] == '#');
            assert(name[1] == digits[0]);
            assert(name.subrange(1, name.len() as int) =~= digits);
            assert forall|i: int| 0 <= i < name.len() implies #[trigger] name[i] != ';' by {
                if i > 0 {
                    assert(name[i] == digits[i - 1]);
                }
            }
        },
        Spelling::Hexadecimal(mark, digits) => {
            lemma_says(digits, 16, c as int);
            assert(name[0] == '#');
            assert(name[1] == mark);
            assert(name.subrange(2, name.len() as int) =~= digits);
            assert forall|i: int| 0 <= i < name.len() implies #[trigger] name[i] != ';' by {
                if i > 1 {
                    assert(name[i] == digits[i - 2]);
                }
            }
        },
    }
}

proof fn lemma_next(s: Seq<char>, p: int, q: int, t: Seq<char>)
    requires
        0 <= p <= q < s.len(),
        stands(s, q, t),
        forall|i: int| p <= i < q ==> !#[trigger] stands(s, i, t),
    ensures
        next_place(s, p, t) == Some(q),
    decreases q - p,
{
    if p < q {
        assert(!stands(s, p, t));
        lemma_next(s, p + 1, q, t);
    }
}

proof fn lemma_next_char(s: Seq<char>, p: int, q: int, c: char)
    requires
        0 <= p <= q < s.len(),
        s[q] == c,
        forall|i: int| p <= i < q ==> #[trigger] s[i] != c,
    ensures
        next_place(s, p, seq![c]) == Some(q),
{
    let t = seq![c];
    assert(s.subrange(q, q + 1) =~= t);
    assert forall|i: int| p <= i < q implies !#[trigger] stands(s, i, t) by {
        assert(s.subrange(i, i + 1)[0] == s[i]);
        assert(t[0] == c);
    }
    lemma_next(s, p, q, t);
}

proof fn lemma_char(
    before: Seq<char>,
    way: Spelling,
    c: char,
    tail: Seq<char>,
    end: int,
    so_far: Seq<char>,
)
    requires
        way.spells(c),
        before.len() + way.text(c).len() <= end <= before.len() + way.text(c).len() + tail.len(),
    ensures
        unescaped(before + way.text(c) + tail, before.len() as int, end, so_far) == unescaped(
            before + way.text(c) + tail,
            (before.len() + way.text(c).len()) as int,
            end,
            so_far.push(c),
        ),
{
    reveal(Spelling::text);
    let t = way.text(c);
    let s = before + t + tail;
    let p = before.len() as int;
    assert(s[p] == t[0]);
    if way is Plain {
        reveal(Spelling::spells);
    } else {
        let name = way.name();
        let q = p + 1 + name.len();
        lemma_name(way, c);
        reveal_strlit(";");
        assert(";"@ =~= seq![';']);
        assert(s[q] == ';');
        assert forall|i: int| p <= i < q implies #[trigger] s[i] != ';' by {
            if i > p {
                assert(s[i] == name[i - p - 1]);
            }
        }
        lemma_next_char(s, p, q, ';');
        assert(s.subrange(p + 1, q) =~= name);
    }
}

proof fn lemma_spelled(
    before: Seq<char>,
    value: Seq<char>,
    ways: Seq<Spelling>,
    i: int,
    tail: Seq<char>,
    so_far: Seq<char>,
)
    requires
        0 <= i <= value.len(),
        all_spell(value, ways),
    ensures
        unescaped(
            before + spelled(value, ways, i) + tail,
            before.len() as int,
            (before.len() + spelled(value, ways, i).len()) as int,
            so_far + value.take(i),
        ) == Ok::<Seq<char>, Failure>(so_far + value),
    decreases value.len() - i,
{
    let all = spelled(value, ways, i);
    let s = before + all + tail;
    let end = (before.len() + all.len()) as int;
    if i == value.len() {
        assert(value.take(i) =~= value);
    } else {
        let c = value[i];
        let way = ways[i];
        let t = way.text(c);
        let rest = spelled(value, ways, i + 1);
        assert(way.spells(c));
        assert(s =~= before + t + (rest + tail));
        assert(s =~= (before + t) + rest + tail);
        assert((so_far + value.take(i)).push(c) =~= so_far + value.take(i + 1));
        lemma_char(before, way, c, rest + tail, end, so_far + value.take(i));
        lemma_spelled(before + t, value, ways, i + 1, tail, so_far);
    }
}

/// Text is read as what it spells, whether its characters stand for themselves or are referred to
/// by a name or by a number.
pub proof fn law_references_are_read(
    before: Seq<char>,
    value: Seq<char>,
    ways: Seq<Spelling>,
    tail: Seq<char>,
    so_far: Seq<char>,
)
    requires
        all_spell(value, ways),
    ensures
        unescaped(
            before + spelled(value, ways, 0) + tail,
            before.len() as int,
            (before.len() + spelled(value, ways, 0).len()) as int,
            so_far,
        ) == Ok::<Seq<char>, Failure>(so_far + value),
{
    assert(so_far + value.take(0) =~= so_far);
    lemma_spelled(before, value, ways, 0, tail, so_far);
}

// --- content -------------------------------------------------------------------------

/// Text up to the next tag is added to an element's text as what it spells.
pub proof fn law_text_is_taken(
    before: Seq<char>,
    value: Seq<char>,
    ways: Seq<Spelling>,
    tail: Seq<char>,
    name: Seq<char>,
    text: Seq<char>,
    children: Seq<Element>,
)
    requires
        all_spell(value, ways),
        spelled(value, ways, 0).len() > 0,
        !spelled(value, ways, 0).contains('<'),
        tail.len() > 0,
        tail[0] == '<',
    ensures
        ({
            let s = before + spelled(value, ways, 0) + tail;
            let end = (before.len() + spelled(value, ways, 0).len()) as int;
            content_from(s, before.len() as int, name, text, children) == content_from(
                s,
                end,
                name,
                text + value,
                children,
            )
        }),
{
    let t = spelled(value, ways, 0);
    let s = before + t + tail;
    let p = before.len() as int;
    let end = (before.len() + t.len()) as int;
    law_references_are_read(before, value, ways, tail, text);
    assert(s[end] == '<');
    assert forall|i: int| p <= i < end implies #[trigger] s[i] != '<' by {
        assert(s[i] == t[i - p]);
        assert(t.contains(t[i - p]));
    }
    reveal_strlit("<");
    assert("<"@ =~= seq!['<']);
    lemma_next_char(s, p, end, '<');
    assert(text_end(s, p) == end);
}

/// Whether a mark stands in a text for the first time at its end.
pub open spec fn ends_with(t: Seq<char>, mark: Seq<char>) -> bool {
    forall|i: int| 0 <= i < t.len() ==> !#[trigger] stands(t + mark, i, mark)
}

proof fn lemma_first_end(before: Seq<char>, t: Seq<char>, mark: Seq<char>, tail: Seq<char>)
    requires
        mark.len() > 0,
        ends_with(t, mark),
    ensures
        next_place(before + t + mark + tail, before.len() as int, mark) == Some(
            (before.len() + t.len()) as int,
        ),
{
    let s = before + t + mark + tail;
    let p = before.len() as int;
    let q = (before.len() + t.len()) as int;
    assert(s.subrange(q, q + mark.len()) =~= mark);
    assert forall|i: int| p <= i < q implies !#[trigger] stands(s, i, mark) by {
        assert(!stands(t + mark, i - p, mark));
        assert(s.subrange(i, i + mark.len()) =~= (t + mark).subrange(i - p, i - p + mark.len()));
    }
    lemma_next(s, p, q, mark);
}

/// A section is added to an element's text as it stands.
pub proof fn law_section_is_taken(
    before: Seq<char>,
    t: Seq<char>,
    tail: Seq<char>,
    name: Seq<char>,
    text: Seq<char>,
    children: Seq<Element>,
)
    requires
        ends_with(t, "]]>"@),
    ensures
        ({
            let s = before + ("<![CDATA["@ + t + "]]>"@) + tail;
            content_from(s, before.len() as int, name, text, children) == content_from(
                s,
                (before.len() + t.len() + 12) as int,
                name,
                text + t,
                children,
            )
        }),
{
    reveal_strlit("<![CDATA[");
    reveal_strlit("]]>");
    let s = before + ("<![CDATA["@ + t + "]]>"@) + tail;
    let p = before.len() as int;
    let front = before + "<![CDATA["@;
    assert(s =~= front + t + "]]>"@ + tail);
    lemma_first_end(front, t, "]]>"@, tail);
    assert(s[p] == '<');
    assert(s.subrange(p, p + 9) =~= "<![CDATA["@);
    assert(s.subrange(p + 9, p + 9 + t.len()) =~= t);
}

/// A comment says nothing.
pub proof fn law_comment_says_nothing(
    before: Seq<char>,
    t: Seq<char>,
    tail: Seq<char>,
    name: Seq<char>,
    text: Seq<char>,
    children: Seq<Element>,
)
    requires
        ends_with(t, "-->"@),
    ensures
        ({
            let s = before + ("<!--"@ + t + "-->"@) + tail;
            content_from(s, before.len() as int, name, text, children) == content_from(
                s,
                (before.len() + t.len() + 7) as int,
                name,
                text,
                children,
            )
        }),
{
    reveal_strlit("<!--");
    reveal_strlit("-->");
    reveal_strlit("<![CDATA[");
    let s = before + ("<!--"@ + t + "-->"@) + tail;
    let p = before.len() as int;
    let front = before + "<!--"@;
    assert(s =~= front + t + "-->"@ + tail);
    lemma_first_end(front, t, "-->"@, tail);
    assert(s[p] == '<');
    assert(s[p + 2] == '-');
    assert(s.subrange(p, p + 4) =~= "<!--"@);
    assert(!stands(s, p, "<![CDATA["@)) by {
        if stands(s, p, "<![CDATA["@) {
            assert(s.subrange(p, p + 9)[2] == s[p + 2]);
            assert("<![CDATA["@[2] == '[');
        }
    }
    assert(aside_end(s, p) == Some(Ok::<int, Failure>((p + t.len() + 7) as int)));
}

/// An instruction says nothing.
pub proof fn law_instruction_says_nothing(
    before: Seq<char>,
    t: Seq<char>,
    tail: Seq<char>,
    name: Seq<char>,
    text: Seq<char>,
    children: Seq<Element>,
)
    requires
        ends_with(t, "?>"@),
    ensures
        ({
            let s = before + ("<?"@ + t + "?>"@) + tail;
            content_from(s, before.len() as int, name, text, children) == content_from(
                s,
                (before.len() + t.len() + 4) as int,
                name,
                text,
                children,
            )
        }),
{
    reveal_strlit("<?");
    reveal_strlit("?>");
    reveal_strlit("<!--");
    reveal_strlit("<![CDATA[");
    let s = before + ("<?"@ + t + "?>"@) + tail;
    let p = before.len() as int;
    let front = before + "<?"@;
    assert(s =~= front + t + "?>"@ + tail);
    lemma_first_end(front, t, "?>"@, tail);
    assert(s[p] == '<');
    assert(s[p + 1] == '?');
    assert(s.subrange(p, p + 2) =~= "<?"@);
    assert(!stands(s, p, "<![CDATA["@)) by {
        if stands(s, p, "<![CDATA["@) {
            assert(s.subrange(p, p + 9)[1] == s[p + 1]);
            assert("<![CDATA["@[1] == '!');
        }
    }
    assert(!stands(s, p, "<!--"@)) by {
        if stands(s, p, "<!--"@) {
            assert(s.subrange(p, p + 4)[1] == s[p + 1]);
            assert("<!--"@[1] == '!');
        }
    }
    assert(aside_end(s, p) == Some(Ok::<int, Failure>((p + t.len() + 4) as int)));
}

// --- attributes ----------------------------------------------------------------------

/// Whether a text is white space alone.
pub open spec fn is_gap(t: Seq<char>) -> bool {
    forall|i: int| 0 <= i < t.len() ==> is_ascii_white(#[trigger] t[i])
}

/// Whether no character of a text ends a name.
pub open spec fn is_plain_name(t: Seq<char>) -> bool {
    t.len() > 0 && forall|i: int| 0 <= i < t.len() ==> !ends_name(#[trigger] t[i])
}

proof fn lemma_gap(before: Seq<char>, gap: Seq<char>, tail: Seq<char>, i: int)
    requires
        is_gap(gap),
        0 <= i <= gap.len(),
        tail.len() > 0,
        !is_ascii_white(tail[0]),
    ensures
        white_end(before + gap + tail, before.len() + i) == before.len() + gap.len(),
    decreases gap.len() - i,
{
    let s = before + gap + tail;
    if i < gap.len() {
        assert(s[before.len() + i] == gap[i]);
        lemma_gap(before, gap, tail, i + 1);
    } else {
        assert(s[before.len() + i] == tail[0]);
    }
}

proof fn lemma_name_end(before: Seq<char>, name: Seq<char>, tail: Seq<char>, i: int)
    requires
        is_plain_name(name),
        0 <= i <= name.len(),
        tail.len() > 0,
        ends_name(tail[0]),
    ensures
        name_end(before + name + tail, before.len() + i) == before.len() + name.len(),
    decreases name.len() - i,
{
    let s = before + name + tail;
    if i < name.len() {
        assert(s[before.len() + i] == name[i]);
        lemma_name_end(before, name, tail, i + 1);
    } else {
        assert(s[before.len() + i] == tail[0]);
    }
}

/// An attribute's text: white space, the name, white space about the equals sign, and the value in
/// quotes of either kind.
pub open spec fn attribute_text(
    gaps: (Seq<char>, Seq<char>, Seq<char>),
    name: Seq<char>,
    quote: char,
    value: Seq<char>,
) -> Seq<char> {
    gaps.0 + (name + (gaps.1 + (seq!['='] + (gaps.2 + (seq![quote] + (value + seq![quote]))))))
}

/// A name behind a colon, or without one, is the name without what is before the colon.
pub proof fn law_prefix_says_nothing(prefix: Seq<char>, local: Seq<char>)
    requires
        !local.contains(':'),
    ensures
        after_last(prefix + seq![':'] + local, ':') == local,
        after_last(local, ':') == local,
{
    let p = prefix + seq![':'];
    lemma_after_last_extends(p, local, ':');
    assert(p.last() == ':');
    assert(Seq::<char>::empty() + local =~= local);
    lemma_after_last_extends(Seq::empty(), local, ':');
}

/// One attribute of which the parts are known to stand where they do.
proof fn lemma_attribute_step(
    s: Seq<char>,
    p: int,
    places: (int, int, int, int, int),
    quote: char,
    name: Seq<char>,
    value: Seq<char>,
    so_far: Seq<(Seq<char>, Seq<char>)>,
)
    requires
        ({
            let (q, n, eq, open, close) = places;
            &&& 0 <= p <= q < n <= eq < open < close < s.len()
            &&& white_end(s, p) == q
            &&& !ends_name(s[q])
            &&& name_end(s, q) == n
            &&& s.subrange(q, n) == name
            &&& white_end(s, n) == eq
            &&& s[eq] == '='
            &&& white_end(s, eq + 1) == open
            &&& s[open] == quote
            &&& next_place(s, open + 1, seq![quote]) == Some(close)
            &&& unescaped(s, open + 1, close, Seq::empty()) == Ok::<Seq<char>, Failure>(value)
        }),
        quote == '"' || quote == '\'',
    ensures
        tag_from(s, p, so_far) == tag_from(
            s,
            places.4 + 1,
            so_far.push((after_last(name, ':'), value)),
        ),
{
    let q = places.0;
    reveal_strlit("/>");
    assert(!stands(s, q, "/>"@)) by {
        if stands(s, q, "/>"@) {
            assert(s.subrange(q, q + 2)[0] == s[q]);
        }
    }
}

proof fn lemma_quoted(
    front: Seq<char>,
    quote: char,
    value: Seq<char>,
    ways: Seq<Spelling>,
    tail: Seq<char>,
)
    requires
        all_spell(value, ways),
        !spelled(value, ways, 0).contains(quote),
    ensures
        ({
            let v = spelled(value, ways, 0);
            let s = front + v + (seq![quote] + tail);
            let close = (front.len() + v.len()) as int;
            &&& s[close] == quote
            &&& next_place(s, front.len() as int, seq![quote]) == Some(close)
            &&& unescaped(s, front.len() as int, close, Seq::empty()) == Ok::<Seq<char>, Failure>(
                value,
            )
        }),
{
    let v = spelled(value, ways, 0);
    let s = front + v + (seq![quote] + tail);
    let p = front.len() as int;
    let close = (front.len() + v.len()) as int;
    assert(s[close] == quote);
    assert forall|i: int| p <= i < close implies #[trigger] s[i] != quote by {
        assert(s[i] == v[i - p]);
        assert(v.contains(v[i - p]));
    }
    lemma_next_char(s, p, close, quote);
    law_references_are_read(front, value, ways, seq![quote] + tail, Seq::empty());
    assert(Seq::<char>::empty() + value =~= value);
}

proof fn lemma_before_value(
    before: Seq<char>,
    gaps: (Seq<char>, Seq<char>, Seq<char>),
    name: Seq<char>,
    quote: char,
    rest: Seq<char>,
)
    requires
        is_gap(gaps.0),
        is_gap(gaps.1),
        is_gap(gaps.2),
        is_plain_name(name),
        quote == '"' || quote == '\'',
    ensures
        ({
            let s = before + (gaps.0 + (name + (gaps.1 + (seq!['='] + (gaps.2 + (seq![quote]
                + rest))))));
            let q = (before.len() + gaps.0.len()) as int;
            let n = q + name.len();
            let eq = n + gaps.1.len();
            let open = eq + 1 + gaps.2.len();
            &&& white_end(s, before.len() as int) == q
            &&& !ends_name(s[q])
            &&& name_end(s, q) == n
            &&& s.subrange(q, n) == name
            &&& white_end(s, n) == eq
            &&& s[eq] == '='
            &&& white_end(s, eq + 1) == open
            &&& s[open] == quote
        }),
{
    let t5 = seq![quote] + rest;
    let t4 = gaps.2 + t5;
    let t3 = seq!['='] + t4;
    let t2 = gaps.1 + t3;
    let t1 = name + t2;
    let s = before + (gaps.0 + t1);
    let b1 = before + gaps.0;
    let b2 = b1 + name;
    let b4 = b2 + gaps.1 + seq!['='];
    assert(s =~= before + gaps.0 + t1);
    assert(s =~= b1 + name + t2);
    assert(s =~= b2 + gaps.1 + t3);
    assert(s =~= b4 + gaps.2 + t5);
    assert(!ends_name(name[0]));
    assert(t1[0] == name[0]);
    lemma_gap(before, gaps.0, t1, 0);
    assert(ends_name(t2[0])) by {
        if gaps.1.len() > 0 {
            assert(t2[0] == gaps.1[0]);
        } else {
            assert(t2[0] == '=');
        }
    }
    lemma_name_end(b1, name, t2, 0);
    assert(t3[0] == '=');
    lemma_gap(b2, gaps.1, t3, 0);
    assert(t5[0] == quote);
    lemma_gap(b4, gaps.2, t5, 0);
    assert(s[b1.len() as int] == name[0]);
    assert(s[(b2.len() + gaps.1.len()) as int] == t3[0]);
    assert(s[(b4.len() + gaps.2.len()) as int] == t5[0]);
    assert(s.subrange(b1.len() as int, b2.len() as int) =~= name);
}

proof fn lemma_attribute_joins(
    before: Seq<char>,
    gaps: (Seq<char>, Seq<char>, Seq<char>),
    name: Seq<char>,
    quote: char,
    v: Seq<char>,
    tail: Seq<char>,
)
    ensures
        ({
            let t = attribute_text(gaps, name, quote, v);
            let s = before + t + tail;
            let rest = v + (seq![quote] + tail);
            let front = before + gaps.0 + name + gaps.1 + seq!['='] + gaps.2 + seq![quote];
            &&& s == before + (gaps.0 + (name + (gaps.1 + (seq!['='] + (gaps.2 + (seq![quote]
                + rest))))))
            &&& s == front + v + (seq![quote] + tail)
            &&& before.len() + t.len() == front.len() + v.len() + 1
        }),
{
    let mark = seq![quote];
    let rest = v + (mark + tail);
    let t6 = v + mark;
    let t5 = mark + t6;
    let t4 = gaps.2 + t5;
    let t3 = seq!['='] + t4;
    let t2 = gaps.1 + t3;
    let t1 = name + t2;
    let t = gaps.0 + t1;
    assert(t6 + tail =~= rest);
    assert(t5 + tail =~= mark + rest);
    assert(t4 + tail =~= gaps.2 + (mark + rest));
    assert(t3 + tail =~= seq!['='] + (gaps.2 + (mark + rest)));
    assert(t2 + tail =~= gaps.1 + (seq!['='] + (gaps.2 + (mark + rest))));
    assert(t1 + tail =~= name + (gaps.1 + (seq!['='] + (gaps.2 + (mark + rest)))));
    assert(t + tail =~= gaps.0 + (name + (gaps.1 + (seq!['='] + (gaps.2 + (mark + rest))))));
    assert(before + t + tail =~= before + (t + tail));
    let b1 = before + gaps.0;
    let b2 = b1 + name;
    let b3 = b2 + gaps.1;
    let b4 = b3 + seq!['='];
    let b5 = b4 + gaps.2;
    assert(before + (gaps.0 + (t1 + tail)) =~= b1 + (t1 + tail));
    assert(b1 + (name + (t2 + tail)) =~= b2 + (t2 + tail));
    assert(b2 + (gaps.1 + (t3 + tail)) =~= b3 + (t3 + tail));
    assert(b3 + (seq!['='] + (t4 + tail)) =~= b4 + (t4 + tail));
    assert(b4 + (gaps.2 + (t5 + tail)) =~= b5 + (t5 + tail));
    assert(b5 + (mark + rest) =~= (b5 + mark) + rest);
    assert((b5 + mark) + rest =~= (b5 + mark) + v + (mark + tail));
}

proof fn lemma_attribute(
    before: Seq<char>,
    gaps: (Seq<char>, Seq<char>, Seq<char>),
    name: Seq<char>,
    quote: char,
    value: Seq<char>,
    ways: Seq<Spelling>,
    tail: Seq<char>,
    so_far: Seq<(Seq<char>, Seq<char>)>,
)
    requires
        is_gap(gaps.0),
        is_gap(gaps.1),
        is_gap(gaps.2),
        is_plain_name(name),
        quote == '"' || quote == '\'',
        all_spell(value, ways),
        !spelled(value, ways, 0).contains(quote),
    ensures
        ({
            let t = attribute_text(gaps, name, quote, spelled(value, ways, 0));
            tag_from(before + t + tail, before.len() as int, so_far) == tag_from(
                before + t + tail,
                (before.len() + t.len()) as int,
                so_far.push((after_last(name, ':'), value)),
            )
        }),
{
    let v = spelled(value, ways, 0);
    let t = attribute_text(gaps, name, quote, v);
    let s = before + t + tail;
    let rest = v + (seq![quote] + tail);
    let front = before + gaps.0 + name + gaps.1 + seq!['='] + gaps.2 + seq![quote];
    lemma_attribute_joins(before, gaps, name, quote, v, tail);
    lemma_before_value(before, gaps, name, quote, rest);
    lemma_quoted(front, quote, value, ways, tail);
    let q = (before.len() + gaps.0.len()) as int;
    let n = q + name.len();
    let eq = n + gaps.1.len();
    let open = eq + 1 + gaps.2.len();
    lemma_attribute_step(
        s,
        before.len() as int,
        (q, n, eq, open, open + 1 + v.len()),
        quote,
        name,
        value,
        so_far,
    );
}

/// An attribute is taken under its name, as what its value spells, whichever quotes it stands in
/// and whatever white space stands about it.
pub proof fn law_attribute_is_taken(
    before: Seq<char>,
    gaps: (Seq<char>, Seq<char>, Seq<char>),
    prefix: Option<Seq<char>>,
    local: Seq<char>,
    quote: char,
    value: Seq<char>,
    ways: Seq<Spelling>,
    tail: Seq<char>,
    so_far: Seq<(Seq<char>, Seq<char>)>,
)
    requires
        is_gap(gaps.0),
        is_gap(gaps.1),
        is_gap(gaps.2),
        is_plain_name(local),
        !local.contains(':'),
        prefix matches Some(x) ==> is_plain_name(x),
        quote == '"' || quote == '\'',
        all_spell(value, ways),
        !spelled(value, ways, 0).contains(quote),
    ensures
        ({
            let name = match prefix {
                Some(x) => x + seq![':'] + local,
                None => local,
            };
            let t = attribute_text(gaps, name, quote, spelled(value, ways, 0));
            tag_from(before + t + tail, before.len() as int, so_far) == tag_from(
                before + t + tail,
                (before.len() + t.len()) as int,
                so_far.push((local, value)),
            )
        }),
{
    let name = match prefix {
        Some(x) => x + seq![':'] + local,
        None => local,
    };
    match prefix {
        Some(x) => {
            law_prefix_says_nothing(x, local);
            assert forall|i: int| 0 <= i < name.len() implies !ends_name(#[trigger] name[i]) by {
                if i < x.len() {
                    assert(name[i] == x[i]);
                } else if i > x.len() {
                    assert(name[i] == local[i - x.len() - 1]);
                }
            }
        },
        None => {
            law_prefix_says_nothing(Seq::empty(), local);
        },
    }
    lemma_attribute(before, gaps, name, quote, value, ways, tail, so_far);
}

} // verus!
