//! The ways in which a string may be spelled.
use vstd::prelude::*;

use super::parser::{escape_at, hex_at, hex_value, string_at, string_body};
use crate::error::Failure;

verus! {

/// The digits of base sixteen, in order, with small letters.
pub open spec fn small_digits() -> Seq<char> {
    seq!['0', '1', '2', '3', '4', '5', '6', '7', '8', '9', 'a', 'b', 'c', 'd', 'e', 'f']
}

/// The digits of base sixteen, in order, with capitals.
pub open spec fn capital_digits() -> Seq<char> {
    seq!['0', '1', '2', '3', '4', '5', '6', '7', '8', '9', 'A', 'B', 'C', 'D', 'E', 'F']
}

/// Whether a character is the digit of a number below sixteen.
#[verifier::opaque]
pub open spec fn is_digit_for(c: char, d: int) -> bool {
    0 <= d < 16 && (small_digits()[d] == c || capital_digits()[d] == c)
}

/// Whether four characters are the digits of a number below 65536.
pub open spec fn is_unit(t: Seq<char>, n: int) -> bool {
    &&& t.len() == 4
    &&& 0 <= n < 65536
    &&& is_digit_for(t[0], n / 4096)
    &&& is_digit_for(t[1], n / 256 % 16)
    &&& is_digit_for(t[2], n / 16 % 16)
    &&& is_digit_for(t[3], n % 16)
}

/// The letters that stand for a character behind a backslash.
pub open spec fn short_forms() -> Seq<(char, char)> {
    seq![
        ('"', '"'),
        ('\\', '\\'),
        ('/', '/'),
        ('b', '\u{08}'),
        ('f', '\u{0C}'),
        ('n', '\n'),
        ('r', '\r'),
        ('t', '\t'),
    ]
}

/// A way to spell a character.
pub enum Spelling {
    /// The character itself.
    Plain,
    /// A backslash and the letter of one of the short forms.
    Short(int),
    /// The digits of the character's number.
    Unit(Seq<char>),
    /// The digits of the two halves of the character's number.
    Pair(Seq<char>, Seq<char>),
}

impl Spelling {
    #[verifier::opaque]
    pub open spec fn spells(self, c: char) -> bool {
        match self {
            Spelling::Plain => c != '"' && c != '\\' && c as int >= 32,
            Spelling::Short(k) => 0 <= k < short_forms().len() && short_forms()[k].1 == c,
            Spelling::Unit(t) => is_unit(t, c as int),
            Spelling::Pair(a, b) => c as int >= 65536 && is_unit(
                a,
                0xD800 + (c as int - 65536) / 1024,
            ) && is_unit(b, 0xDC00 + (c as int - 65536) % 1024),
        }
    }

    #[verifier::opaque]
    pub open spec fn text(self, c: char) -> Seq<char> {
        match self {
            Spelling::Plain => seq![c],
            Spelling::Short(k) => seq!['\\', short_forms()[k].0],
            Spelling::Unit(t) => seq!['\\', 'u'] + t,
            Spelling::Pair(a, b) => seq!['\\', 'u'] + a + seq!['\\', 'u'] + b,
        }
    }
}

/// A text with each of its characters spelled in a way of its own.
pub open spec fn spelled(value: Seq<char>, ways: Seq<Spelling>, i: int) -> Seq<char>
    decreases value.len() - i,
{
    if i < 0 || i >= value.len() {
        Seq::empty()
    } else {
        ways[i].text(value[i]) + spelled(value, ways, i + 1)
    }
}

proof fn lemma_digit(c: char, d: int)
    requires
        is_digit_for(c, d),
    ensures
        0 <= d < 16,
        hex_value(c) == Some(d as nat),
{
    reveal(is_digit_for);
}

proof fn lemma_unit(before: Seq<char>, t: Seq<char>, tail: Seq<char>, n: int)
    requires
        is_unit(t, n),
    ensures
        hex_at(before + t + tail, before.len() as int, 4) == Ok::<nat, Failure>(n as nat),
{
    let s = before + t + tail;
    let p = before.len() as int;
    assert(s[p] == t[0]);
    assert(s[p + 1] == t[1]);
    assert(s[p + 2] == t[2]);
    assert(s[p + 3] == t[3]);
    lemma_digit(t[0], n / 4096);
    lemma_digit(t[1], n / 256 % 16);
    lemma_digit(t[2], n / 16 % 16);
    lemma_digit(t[3], n % 16);
    assert(hex_at(s, p, 0) == Ok::<nat, Failure>(0));
    assert(hex_at(s, p, 1) == Ok::<nat, Failure>((n / 4096) as nat));
    assert(hex_at(s, p, 2) == Ok::<nat, Failure>((n / 256) as nat));
    assert(hex_at(s, p, 3) == Ok::<nat, Failure>((n / 16) as nat));
}

proof fn lemma_escape(before: Seq<char>, way: Spelling, c: char, tail: Seq<char>)
    requires
        way.spells(c),
        way !is Plain,
    ensures
        escape_at(before + way.text(c) + tail, before.len() as int + 1) == Ok::<(char, int), Failure>(
            (c, (before.len() + way.text(c).len()) as int),
        ),
{
    reveal(Spelling::spells);
    reveal(Spelling::text);
    let s = before + way.text(c) + tail;
    let p = before.len() as int;
    match way {
        Spelling::Plain => {},
        Spelling::Short(k) => {
            assert(s[p + 1] == short_forms()[k].0);
        },
        Spelling::Unit(t) => {
            let front = before + seq!['\\', 'u'];
            assert(s =~= front + t + tail);
            assert(s[p + 1] == 'u');
            lemma_unit(front, t, tail, c as int);
        },
        Spelling::Pair(a, b) => {
            let front = before + seq!['\\', 'u'];
            let mid = front + a + seq!['\\', 'u'];
            assert(s =~= front + a + (seq!['\\', 'u'] + b + tail));
            assert(s =~= mid + b + tail);
            assert(s[p + 1] == 'u');
            lemma_unit(front, a, seq!['\\', 'u'] + b + tail, 0xD800 + (c as int - 65536) / 1024);
            lemma_unit(mid, b, tail, 0xDC00 + (c as int - 65536) % 1024);
            assert(s[p + 6] == '\\');
            assert(s[p + 7] == 'u');
        },
    }
}

proof fn lemma_char(
    before: Seq<char>,
    way: Spelling,
    c: char,
    tail: Seq<char>,
    so_far: Seq<char>,
)
    requires
        way.spells(c),
    ensures
        string_body(before + way.text(c) + tail, before.len() as int, so_far) == string_body(
            before + way.text(c) + tail,
            (before.len() + way.text(c).len()) as int,
            so_far.push(c),
        ),
{
    reveal(Spelling::spells);
    reveal(Spelling::text);
    let s = before + way.text(c) + tail;
    let p = before.len() as int;
    assert(s[p] == way.text(c)[0]);
    if way !is Plain {
        lemma_escape(before, way, c, tail);
    }
}

proof fn lemma_body(
    before: Seq<char>,
    value: Seq<char>,
    ways: Seq<Spelling>,
    i: int,
    tail: Seq<char>,
)
    requires
        0 <= i <= value.len() == ways.len(),
        forall|k: int| 0 <= k < value.len() ==> (#[trigger] ways[k]).spells(value[k]),
    ensures
        string_body(
            before + spelled(value, ways, i) + seq!['"'] + tail,
            before.len() as int,
            value.take(i),
        ) == Ok::<(Seq<char>, int), Failure>(
            (value, (before.len() + spelled(value, ways, i).len() + 1) as int),
        ),
    decreases value.len() - i,
{
    let s = before + spelled(value, ways, i) + seq!['"'] + tail;
    let p = before.len() as int;
    if i == value.len() {
        assert(s[p] == '"');
        assert(value.take(i) =~= value);
    } else {
        let c = value[i];
        let way = ways[i];
        let t = way.text(c);
        let rest = spelled(value, ways, i + 1);
        assert(way.spells(c));
        assert(s =~= before + t + (rest + seq!['"'] + tail));
        assert((before + t) + rest + seq!['"'] + tail =~= s);
        assert(value.take(i).push(c) =~= value.take(i + 1));
        lemma_char(before, way, c, rest + seq!['"'] + tail, value.take(i));
        lemma_body(before + t, value, ways, i + 1, tail);
    }
}

/// A string is read as the text that it spells, whichever way each of its characters is spelled.
pub proof fn law_spelled_string_is_read(
    before: Seq<char>,
    value: Seq<char>,
    ways: Seq<Spelling>,
    tail: Seq<char>,
)
    requires
        ways.len() == value.len(),
        forall|k: int| 0 <= k < value.len() ==> (#[trigger] ways[k]).spells(value[k]),
    ensures
        ({
            let s = before + (seq!['"'] + spelled(value, ways, 0) + seq!['"']) + tail;
            string_at(s, before.len() as int) == Ok::<(Seq<char>, int), Failure>(
                (value, (before.len() + spelled(value, ways, 0).len() + 2) as int),
            )
        }),
{
    let s = before + (seq!['"'] + spelled(value, ways, 0) + seq!['"']) + tail;
    let front = before + seq!['"'];
    assert(s =~= front + spelled(value, ways, 0) + seq!['"'] + tail);
    assert(s[before.len() as int] == '"');
    assert(value.take(0) =~= Seq::empty());
    lemma_body(front, value, ways, 0, tail);
}

} // verus!
