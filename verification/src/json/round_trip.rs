//! What the parser reads of what the serializer writes.
use vstd::prelude::*;

use super::parser::all_digits;
use super::parser::document;
use super::parser::escape_at;
use super::parser::hex_at;
use super::parser::hex_value;
use super::parser::is_number_mark;
use super::parser::items_from;
use super::parser::lemma_value_advances;
use super::parser::member_key;
use super::parser::members_from;
use super::parser::number_at;
use super::parser::number_end;
use super::parser::stands;
use super::parser::starts_at;
use super::parser::string_at;
use super::parser::string_body;
use super::parser::unicode_escape;
use super::parser::value_at;
use super::parser::ws_end;
use super::value::escape_of;
use super::value::escaped;
use super::value::hex_digit;
use super::value::items_text;
use super::value::json_text;
use super::value::members_text;
use super::value::number_text;
use super::value::string_text;
use super::value::Json;
use crate::error::Failure;
use crate::number::is_float_text;

verus! {

/// Whether the character can be part of a number.
pub open spec fn in_number(c: char) -> bool {
    '0' <= c <= '9' || is_number_mark(c)
}

/// Whether a text is that of a JSON number, and `is_int` says truly whether it
/// has a fraction or an exponent.
pub open spec fn is_number_token(text: Seq<char>, is_int: bool) -> bool {
    let first: int = if text.len() > 0 && text[0] == '-' {
        1
    } else {
        0
    };
    &&& text.len() > 0
    &&& text[0] == '-' || '0' <= text[0] <= '9'
    &&& forall|i: int| 0 <= i < text.len() ==> in_number(#[trigger] text[i])
    &&& is_float_text(text)
    &&& is_int == all_digits(text, first, text.len() as int)
}

/// Whether every number in the value is the text of a JSON number.
pub open spec fn has_number_tokens(v: Json) -> bool
    decreases v,
{
    match v {
        Json::Number { text, is_int } => is_number_token(text, is_int),
        Json::Array(items) => forall|i: int|
            0 <= i < items.len() ==> has_number_tokens(#[trigger] items[i]),
        Json::Object(members) => forall|i: int|
            0 <= i < members.len() ==> has_number_tokens((#[trigger] members[i]).1),
        _ => true,
    }
}

/// Whether every number in the value is the text of a JSON number, written
/// plainly.
pub open spec fn well_numbered(v: Json) -> bool
    decreases v,
{
    match v {
        Json::Number { text, is_int } => is_number_token(text, is_int) && number_text(
            text,
            is_int,
        ) == text,
        Json::Array(items) => forall|i: int|
            0 <= i < items.len() ==> well_numbered(#[trigger] items[i]),
        Json::Object(members) => forall|i: int|
            0 <= i < members.len() ==> well_numbered((#[trigger] members[i]).1),
        _ => true,
    }
}

/// Whether `w` is what is read where `v` was written: the same, with each number as
/// it was written, and said to be an integer where that is the text of one.
pub open spec fn reads_as(v: Json, w: Json) -> bool
    decreases v,
{
    match v {
        Json::Number { text, is_int } => w is Number && w->text == number_text(text, is_int)
            && is_number_token(w->text, w->is_int),
        Json::Array(items) => w is Array && items.len() == w->Array_0.len() && forall|i: int|
            0 <= i < items.len() ==> reads_as(#[trigger] items[i], w->Array_0[i]),
        Json::Object(members) => w is Object && members.len() == w->Object_0.len() && forall|i: int|
            0 <= i < members.len() ==> (#[trigger] members[i]).0 == w->Object_0[i].0 && reads_as(
                members[i].1,
                w->Object_0[i].1,
            ),
        _ => w == v,
    }
}

/// Whether `read` are what is read where members were written.
pub open spec fn are_read_as(
    members: Seq<(Seq<char>, Json)>,
    read: Seq<(Seq<char>, Json)>,
) -> bool {
    &&& members.len() == read.len()
    &&& forall|i: int|
        0 <= i < members.len() ==> (#[trigger] members[i]).0 == read[i].0 && reads_as(
            members[i].1,
            read[i].1,
        )
}

/// A value whose numbers are written plainly is read as itself.
pub proof fn lemma_reads_as_itself(v: Json)
    requires
        well_numbered(v),
    ensures
        reads_as(v, v),
    decreases v,
{
    match v {
        Json::Array(items) => {
            assert forall|i: int| 0 <= i < items.len() implies reads_as(
                #[trigger] items[i],
                items[i],
            ) by {
                lemma_reads_as_itself(items[i]);
            }
        },
        Json::Object(members) => {
            assert forall|i: int| 0 <= i < members.len() implies reads_as(
                (#[trigger] members[i]).1,
                members[i].1,
            ) by {
                lemma_reads_as_itself(members[i].1);
            }
        },
        _ => {},
    }
}

/// A value whose numbers are written plainly is read as nothing else.
pub proof fn lemma_reads_only_as_itself(v: Json, w: Json)
    requires
        well_numbered(v),
        reads_as(v, w),
    ensures
        w == v,
    decreases v,
{
    match v {
        Json::Array(items) => {
            assert forall|i: int| 0 <= i < items.len() implies #[trigger] items[i]
                == w->Array_0[i] by {
                lemma_reads_only_as_itself(items[i], w->Array_0[i]);
            }
            assert(items =~= w->Array_0);
        },
        Json::Object(members) => {
            assert forall|i: int| 0 <= i < members.len() implies #[trigger] members[i]
                == w->Object_0[i] by {
                lemma_reads_only_as_itself(members[i].1, w->Object_0[i].1);
            }
            assert(members =~= w->Object_0);
        },
        _ => {},
    }
}

/// Whether two values differ at most in which of their numbers are said to be integers.
pub open spec fn are_alike(v: Json, w: Json) -> bool
    decreases v,
{
    match v {
        Json::Number { text, .. } => w is Number && w->text == text,
        Json::Array(items) => w is Array && items.len() == w->Array_0.len() && forall|i: int|
            0 <= i < items.len() ==> are_alike(#[trigger] items[i], w->Array_0[i]),
        Json::Object(members) => w is Object && members.len() == w->Object_0.len() && forall|i: int|
            0 <= i < members.len() ==> (#[trigger] members[i]).0 == w->Object_0[i].0 && are_alike(
                members[i].1,
                w->Object_0[i].1,
            ),
        _ => w == v,
    }
}

pub proof fn lemma_alike_itself(v: Json)
    ensures
        are_alike(v, v),
    decreases v,
{
    match v {
        Json::Array(items) => {
            assert forall|i: int| 0 <= i < items.len() implies are_alike(
                #[trigger] items[i],
                items[i],
            ) by {
                lemma_alike_itself(items[i]);
            }
        },
        Json::Object(members) => {
            assert forall|i: int| 0 <= i < members.len() implies are_alike(
                (#[trigger] members[i]).1,
                members[i].1,
            ) by {
                lemma_alike_itself(members[i].1);
            }
        },
        _ => {},
    }
}

/// Whether every number in the value is written as the text that it has, whether or not
/// it is said to be an integer.
pub open spec fn is_plainly_numbered(v: Json) -> bool
    decreases v,
{
    match v {
        Json::Number { text, is_int } => number_text(text, is_int) == text && (is_number_token(
            text,
            true,
        ) || is_number_token(text, false)),
        Json::Array(items) => forall|i: int|
            0 <= i < items.len() ==> is_plainly_numbered(#[trigger] items[i]),
        Json::Object(members) => forall|i: int|
            0 <= i < members.len() ==> is_plainly_numbered((#[trigger] members[i]).1),
        _ => true,
    }
}

pub proof fn lemma_well_is_plainly_numbered(v: Json)
    requires
        well_numbered(v),
    ensures
        is_plainly_numbered(v),
    decreases v,
{
    match v {
        Json::Array(items) => {
            assert forall|i: int| 0 <= i < items.len() implies is_plainly_numbered(
                #[trigger] items[i],
            ) by {
                lemma_well_is_plainly_numbered(items[i]);
            }
        },
        Json::Object(members) => {
            assert forall|i: int| 0 <= i < members.len() implies is_plainly_numbered(
                (#[trigger] members[i]).1,
            ) by {
                lemma_well_is_plainly_numbered(members[i].1);
            }
        },
        _ => {},
    }
}

/// What is read where a value was written whose numbers are written as they are: a value
/// like it.
pub proof fn lemma_what_is_read(v: Json) -> (w: Json)
    requires
        is_plainly_numbered(v),
    ensures
        reads_as(v, w),
        are_alike(v, w),
    decreases v,
{
    match v {
        Json::Number { text, .. } => Json::Number { text, is_int: is_number_token(text, true) },
        Json::Array(items) => {
            assert forall|i: int| 0 <= i < items.len() implies exists|w: Json|
                reads_as(#[trigger] items[i], w) && are_alike(items[i], w) by {
                let w = lemma_what_is_read(items[i]);
                assert(reads_as(items[i], w) && are_alike(items[i], w));
            }
            Json::Array(
                Seq::new(
                    items.len(),
                    |i: int| choose|w: Json| reads_as(items[i], w) && are_alike(items[i], w),
                ),
            )
        },
        Json::Object(members) => {
            assert forall|i: int| 0 <= i < members.len() implies exists|w: Json|
                reads_as((#[trigger] members[i]).1, w) && are_alike(members[i].1, w) by {
                let w = lemma_what_is_read(members[i].1);
                assert(reads_as(members[i].1, w) && are_alike(members[i].1, w));
            }
            Json::Object(
                Seq::new(
                    members.len(),
                    |i: int|
                        (
                            members[i].0,
                            choose|w: Json|
                                reads_as(members[i].1, w) && are_alike(members[i].1, w),
                        ),
                ),
            )
        },
        _ => v,
    }
}

/// Whether what follows a value cannot be taken for more of a number.
pub open spec fn ends_number(after: Seq<char>) -> bool {
    after.len() == 0 || !in_number(after[0])
}

proof fn lemma_hex_digit(d: int)
    requires
        0 <= d < 16,
    ensures
        hex_value(hex_digit(d)) == Some(d as nat),
{
}

/// An escaped character is read back as that character.
proof fn lemma_escape_reads(s: Seq<char>, p: int, c: char, so_far: Seq<char>)
    requires
        0 <= p,
        p + escape_of(c).len() <= s.len(),
        s.subrange(p, p + escape_of(c).len()) == escape_of(c),
    ensures
        string_body(s, p, so_far) == string_body(s, p + escape_of(c).len(), so_far.push(c)),
{
    let e = escape_of(c);
    assert forall|i: int| 0 <= i < e.len() implies s[p + i] == e[i] by {
        assert(s.subrange(p, p + e.len())[i] == s[p + i]);
    }
    if e.len() == 6 {
        let hi = c as int / 16;
        let lo = c as int % 16;
        lemma_hex_digit(hi);
        lemma_hex_digit(lo);
        lemma_hex_digit(0);
        reveal_with_fuel(hex_at, 5);
        assert(s[p + 1] == 'u');
        assert(s[p + 2] == '0' && s[p + 3] == '0');
        assert(hex_value('0') == Some(0nat));
        assert(hex_at(s, p + 2, 4) == Ok::<nat, Failure>((16 * hi + lo) as nat));
        assert(unicode_escape(s, p + 2) == Ok::<(char, int), Failure>((c, p + 6)));
        assert(escape_at(s, p + 1) == Ok::<(char, int), Failure>((c, p + 6)));
    } else if e.len() == 2 {
        assert(s[p] == '\\');
        assert(escape_at(s, p + 1) == Ok::<(char, int), Failure>((c, p + 2)));
    } else {
        assert(e == seq![c]);
        assert(s[p + 0] == e[0]);
    }
}

proof fn lemma_body_reads(
    s: Seq<char>,
    before: Seq<char>,
    text: Seq<char>,
    after: Seq<char>,
    so_far: Seq<char>,
)
    requires
        s == before + escaped(text) + seq!['"'] + after,
    ensures
        string_body(s, before.len() as int, so_far) == Ok::<(Seq<char>, int), Failure>(
            (so_far + text, (before.len() + escaped(text).len() + 1) as int),
        ),
    decreases text.len(),
{
    let p = before.len() as int;
    if text.len() == 0 {
        assert(s[p] == '"');
        assert(so_far + text =~= so_far);
    } else {
        let e = escape_of(text[0]);
        let rest = text.drop_first();
        assert(s =~= (before + e) + escaped(rest) + seq!['"'] + after);
        assert(s.subrange(p, p + e.len()) =~= e);
        lemma_escape_reads(s, p, text[0], so_far);
        lemma_body_reads(s, before + e, rest, after, so_far.push(text[0]));
        assert(so_far.push(text[0]) + rest =~= so_far + text);
    }
}

/// A string written as JSON is read back as that string.
pub proof fn law_string_reads_back(
    s: Seq<char>,
    before: Seq<char>,
    text: Seq<char>,
    after: Seq<char>,
)
    requires
        s == before + string_text(text) + after,
    ensures
        string_at(s, before.len() as int) == Ok::<(Seq<char>, int), Failure>(
            (text, (before.len() + string_text(text).len()) as int),
        ),
{
    assert(s[before.len() as int] == '"');
    assert(s =~= before.push('"') + escaped(text) + seq!['"'] + after);
    lemma_body_reads(s, before.push('"'), text, after, Seq::empty());
    assert(Seq::empty() + text =~= text);
}

proof fn lemma_number_end_at(s: Seq<char>, p: int, q: int)
    requires
        0 <= p <= q <= s.len(),
        forall|i: int| p <= i < q ==> in_number(#[trigger] s[i]),
        q < s.len() ==> !in_number(s[q]),
    ensures
        number_end(s, p) == q,
    decreases q - p,
{
    if p < q {
        assert(in_number(s[p]));
        lemma_number_end_at(s, p + 1, q);
    }
}

proof fn lemma_number_reads(
    s: Seq<char>,
    before: Seq<char>,
    text: Seq<char>,
    is_int: bool,
    after: Seq<char>,
)
    requires
        s == before + text + after,
        is_number_token(text, is_int),
        ends_number(after),
    ensures
        value_at(s, before.len() as int) == Ok::<(Json, int), Failure>(
            (Json::Number { text, is_int }, (before.len() + text.len()) as int),
        ),
{
    let p = before.len() as int;
    let q = p + text.len();
    assert(s[p] == text[0]);
    assert(s.subrange(p, q) =~= text);
    let first = if text[0] == '-' {
        p + 1
    } else {
        p
    };
    assert forall|i: int| p <= i < q implies in_number(#[trigger] s[i]) by {
        assert(s[i] == text[i - p]);
    }
    if q < s.len() {
        assert(s[q] == after[0]);
    }
    lemma_number_end_at(s, first, q);
    if is_int {
        assert forall|i: int| first <= i < q implies !is_number_mark(#[trigger] s[i]) by {
            assert(!is_number_mark(text[i - p]));
        }
    } else {
        let i = choose|i: int| first - p <= i < text.len() && is_number_mark(#[trigger] text[i]);
        assert(is_number_mark(s[p + i]));
    }
}

proof fn lemma_word_stands(s: Seq<char>, before: Seq<char>, word: Seq<char>, after: Seq<char>)
    requires
        s == before + word + after,
    ensures
        starts_at(s, before.len() as int, word),
{
    assert(s.subrange(before.len() as int, (before.len() + word.len()) as int) =~= word);
}

/// The compact JSON of a value, wherever it stands, is read as the value with each
/// number as it was written.
pub proof fn law_value_reads_as_written(
    s: Seq<char>,
    before: Seq<char>,
    v: Json,
    w: Json,
    after: Seq<char>,
)
    requires
        s == before + json_text(v) + after,
        reads_as(v, w),
        ends_number(after),
    ensures
        value_at(s, before.len() as int) == Ok::<(Json, int), Failure>(
            (w, (before.len() + json_text(v).len()) as int),
        ),
{
    lemma_value_reads(s, before, v, w, after);
}

/// A value written as JSON is read back as that value wherever it stands, and
/// reading stops exactly at its end.
pub proof fn law_value_reads_back(s: Seq<char>, before: Seq<char>, v: Json, after: Seq<char>)
    requires
        s == before + json_text(v) + after,
        well_numbered(v),
        ends_number(after),
    ensures
        value_at(s, before.len() as int) == Ok::<(Json, int), Failure>(
            (v, (before.len() + json_text(v).len()) as int),
        ),
{
    lemma_reads_as_itself(v);
    lemma_value_reads(s, before, v, v, after);
}

#[verifier::spinoff_prover]
#[verifier::rlimit(50)]
proof fn lemma_value_reads(s: Seq<char>, before: Seq<char>, v: Json, w: Json, after: Seq<char>)
    requires
        s == before + json_text(v) + after,
        reads_as(v, w),
        ends_number(after),
    ensures
        value_at(s, before.len() as int) == Ok::<(Json, int), Failure>(
            (w, (before.len() + json_text(v).len()) as int),
        ),
    decreases v, 0nat,
{
    let p = before.len() as int;
    match v {
        Json::Null => {
            lemma_word_stands(s, before, seq!['n', 'u', 'l', 'l'], after);
            assert(s[p] == 'n');
        },
        Json::Bool(b) => {
            if b {
                lemma_word_stands(s, before, seq!['t', 'r', 'u', 'e'], after);
                assert(s[p] == 't');
            } else {
                lemma_word_stands(s, before, seq!['f', 'a', 'l', 's', 'e'], after);
                assert(s[p] == 'f');
                assert(s.subrange(p, p + 5)[0] == 'f');
                if p + 4 <= s.len() {
                    assert(s.subrange(p, p + 4)[0] == 'f');
                    assert(seq!['t', 'r', 'u', 'e'][0] == 't');
                }
            }
        },
        Json::Number { text, is_int } => {
            lemma_number_reads(s, before, w->text, w->is_int, after);
        },
        Json::String(text) => {
            law_string_reads_back(s, before, text, after);
            assert(s[p] == '"');
        },
        Json::Array(items) => {
            lemma_array_reads(s, before, items, w->Array_0, after);
        },
        Json::Object(members) => {
            lemma_object_reads(s, before, members, w->Object_0, after);
        },
    }
}

#[verifier::spinoff_prover]
#[verifier::rlimit(50)]
proof fn lemma_array_reads(
    s: Seq<char>,
    before: Seq<char>,
    items: Seq<Json>,
    read: Seq<Json>,
    after: Seq<char>,
)
    requires
        s == before + json_text(Json::Array(items)) + after,
        items.len() == read.len(),
        forall|i: int| 0 <= i < items.len() ==> reads_as(#[trigger] items[i], read[i]),
    ensures
        value_at(s, before.len() as int) == Ok::<(Json, int), Failure>(
            (
                Json::Array(read),
                (before.len() + json_text(Json::Array(items)).len()) as int,
            ),
        ),
    decreases items, 1nat,
{
    let p = before.len() as int;
    assert(s[p] == '[');
    if items.len() == 0 {
        assert(s[p + 1] == ']');
        assert(read =~= Seq::<Json>::empty());
    } else {
        assert(s =~= before.push('[') + items_text(items) + seq![']'] + after);
        lemma_items_read(s, before.push('['), items, read, after, Seq::empty());
        lemma_first_char(items[0], read[0]);
        lemma_items_start(items);
        assert(s[p + 1] == items_text(items)[0]);
        assert(Seq::empty() + read =~= read);
    }
}

#[verifier::spinoff_prover]
#[verifier::rlimit(50)]
proof fn lemma_object_reads(
    s: Seq<char>,
    before: Seq<char>,
    members: Seq<(Seq<char>, Json)>,
    read: Seq<(Seq<char>, Json)>,
    after: Seq<char>,
)
    requires
        s == before + json_text(Json::Object(members)) + after,
        are_read_as(members, read),
    ensures
        value_at(s, before.len() as int) == Ok::<(Json, int), Failure>(
            (
                Json::Object(read),
                (before.len() + json_text(Json::Object(members)).len()) as int,
            ),
        ),
    decreases members, 1nat,
{
    let p = before.len() as int;
    assert(s[p] == '{');
    if members.len() == 0 {
        assert(s[p + 1] == '}');
        assert(read =~= Seq::<(Seq<char>, Json)>::empty());
    } else {
        assert(s =~= before.push('{') + members_text(members) + seq!['}'] + after);
        lemma_members_read(s, before.push('{'), members, read, after, Seq::empty());
        assert(s[p + 1] == members_text(members)[0]);
        assert(members_text(members)[0] == '"');
        assert(Seq::empty() + read =~= read);
    }
}

/// The compact JSON of a value is not empty and starts with no white space.
proof fn lemma_first_char(v: Json, w: Json)
    requires
        reads_as(v, w),
    ensures
        json_text(v).len() > 0,
        json_text(v)[0] != ' ',
        json_text(v)[0] != '\t',
        json_text(v)[0] != '\n',
        json_text(v)[0] != '\r',
        json_text(v)[0] != ']',
{
}

proof fn lemma_items_start(items: Seq<Json>)
    requires
        items.len() > 0,
        json_text(items[0]).len() > 0,
    ensures
        items_text(items).len() > 0,
        items_text(items)[0] == json_text(items[0])[0],
{
}

#[verifier::spinoff_prover]
#[verifier::rlimit(50)]
proof fn lemma_items_read(
    s: Seq<char>,
    before: Seq<char>,
    items: Seq<Json>,
    read: Seq<Json>,
    after: Seq<char>,
    so_far: Seq<Json>,
)
    requires
        s == before + items_text(items) + seq![']'] + after,
        items.len() > 0,
        items.len() == read.len(),
        forall|i: int| 0 <= i < items.len() ==> reads_as(#[trigger] items[i], read[i]),
    ensures
        items_from(s, before.len() as int, so_far) == Ok::<(Seq<Json>, int), Failure>(
            (so_far + read, (before.len() + items_text(items).len() + 1) as int),
        ),
    decreases items, 0nat,
{
    let first = json_text(items[0]);
    let p = before.len() as int;
    let q = p + first.len();
    lemma_first_char(items[0], read[0]);
    if items.len() == 1 {
        assert(s =~= before + first + (seq![']'] + after));
        lemma_value_reads(s, before, items[0], read[0], seq![']'] + after);
        assert(s[q] == ']');
        assert(so_far.push(read[0]) =~= so_far + read);
    } else {
        let rest = items.drop_first();
        let tail = seq![','] + items_text(rest) + seq![']'] + after;
        assert(s =~= before + first + tail);
        lemma_value_reads(s, before, items[0], read[0], tail);
        assert(s[q] == ',');
        assert(s =~= (before + first).push(',') + items_text(rest) + seq![']'] + after);
        let read_rest = read.drop_first();
        assert forall|i: int| 0 <= i < rest.len() implies reads_as(
            #[trigger] rest[i],
            read_rest[i],
        ) by {
            assert(rest[i] == items[i + 1]);
        }
        lemma_items_read(
            s,
            (before + first).push(','),
            rest,
            read_rest,
            after,
            so_far.push(read[0]),
        );
        assert(so_far.push(read[0]) + read_rest =~= so_far + read);
    }
}

proof fn lemma_key_reads(s: Seq<char>, before: Seq<char>, key: Seq<char>, after: Seq<char>)
    requires
        s == before + string_text(key) + seq![':'] + after,
    ensures
        member_key(s, before.len() as int) == Ok::<(Seq<char>, int), Failure>(
            (key, (before.len() + string_text(key).len() + 1) as int),
        ),
{
    let p = before.len() as int;
    assert(s =~= before + string_text(key) + (seq![':'] + after));
    law_string_reads_back(s, before, key, seq![':'] + after);
    assert(s[p] == '"');
    assert(s[p + string_text(key).len()] == ':');
}

/// One member is read, and what follows it decides how reading goes on.
proof fn lemma_member_step(
    s: Seq<char>,
    p: int,
    so_far: Seq<(Seq<char>, Json)>,
    key: Seq<char>,
    v0: int,
    v: Json,
    q: int,
)
    requires
        member_key(s, p) == Ok::<(Seq<char>, int), Failure>((key, v0)),
        value_at(s, v0) == Ok::<(Json, int), Failure>((v, q)),
        0 <= v0 < q < s.len(),
        s[q] == ',' || s[q] == '}',
    ensures
        s[q] == ',' ==> members_from(s, p, so_far) == members_from(
            s,
            q + 1,
            so_far.push((key, v)),
        ),
        s[q] == '}' ==> members_from(s, p, so_far) == Ok::<(Seq<(Seq<char>, Json)>, int), Failure>(
            (so_far.push((key, v)), q + 1),
        ),
{
    assert(ws_end(s, q) == q);
}

/// A member with its key and colon is read back.
#[verifier::spinoff_prover]
#[verifier::rlimit(50)]
proof fn lemma_member_reads(
    s: Seq<char>,
    before: Seq<char>,
    key: Seq<char>,
    v: Json,
    w: Json,
    tail: Seq<char>,
)
    requires
        s == before + (string_text(key) + seq![':'] + json_text(v)) + tail,
        reads_as(v, w),
        tail.len() > 0,
        tail[0] == ',' || tail[0] == '}',
    ensures
        ({
            let v0 = before.len() + string_text(key).len() + 1;
            let q = v0 + json_text(v).len();
            &&& member_key(s, before.len() as int) == Ok::<(Seq<char>, int), Failure>(
                (key, v0 as int),
            )
            &&& value_at(s, v0 as int) == Ok::<(Json, int), Failure>((w, q as int))
            &&& v0 < q < s.len()
            &&& s[q as int] == tail[0]
        }),
    decreases v, 1nat,
{
    let k = string_text(key);
    let first = json_text(v);
    let colon = before + k + seq![':'];
    lemma_first_char(v, w);
    assert(s =~= before + k + seq![':'] + (first + tail));
    lemma_key_reads(s, before, key, first + tail);
    assert(s =~= colon + first + tail);
    lemma_value_reads(s, colon, v, w, tail);
    assert(s[(colon.len() + first.len()) as int] == tail[0]);
}

#[verifier::spinoff_prover]
#[verifier::rlimit(50)]
proof fn lemma_members_read(
    s: Seq<char>,
    before: Seq<char>,
    members: Seq<(Seq<char>, Json)>,
    read: Seq<(Seq<char>, Json)>,
    after: Seq<char>,
    so_far: Seq<(Seq<char>, Json)>,
)
    requires
        s == before + members_text(members) + seq!['}'] + after,
        members.len() > 0,
        are_read_as(members, read),
    ensures
        members_from(s, before.len() as int, so_far) == Ok::<(Seq<(Seq<char>, Json)>, int), Failure>(
            (so_far + read, (before.len() + members_text(members).len() + 1) as int),
        ),
    decreases members, 0nat,
{
    let (key, v) = members[0];
    let member = string_text(key) + seq![':'] + json_text(v);
    let p = before.len() as int;
    let v0 = p + string_text(key).len() + 1;
    let q = v0 + json_text(v).len();
    let rest = members.drop_first();
    let tail = lemma_members_split(before, members, after);
    assert(decreases_to!(members => members[0]));
    let w = read[0].1;
    assert(read[0] == (key, w));
    lemma_member_reads(s, before, key, v, w, tail);
    lemma_member_step(s, p, so_far, key, v0, w, q);
    assert(q == p + member.len());
    if members.len() == 1 {
        assert(so_far.push(read[0]) =~= so_far + read);
    } else {
        let read_rest = read.drop_first();
        assert forall|i: int| 0 <= i < rest.len() implies (#[trigger] rest[i]).0 == read_rest[i].0
            && reads_as(rest[i].1, read_rest[i].1) by {
            assert(rest[i] == members[i + 1]);
        }
        lemma_members_read(
            s,
            (before + member).push(','),
            rest,
            read_rest,
            after,
            so_far.push(read[0]),
        );
        assert(so_far.push(read[0]) + read_rest =~= so_far + read);
    }
}

/// The text of members is that of the first one and of what follows it.
proof fn lemma_members_split(
    before: Seq<char>,
    members: Seq<(Seq<char>, Json)>,
    after: Seq<char>,
) -> (tail: Seq<char>)
    requires
        members.len() > 0,
    ensures
        ({
            let whole = before + members_text(members) + seq!['}'] + after;
            let member = string_text(members[0].0) + seq![':'] + json_text(members[0].1);
            let rest = members.drop_first();
            &&& whole == before + member + tail
            &&& tail.len() > 0
            &&& members.len() == 1 ==> tail[0] == '}' && members_text(members) == member
            &&& members.len() > 1 ==> tail[0] == ',' && whole == (before + member).push(',')
                + members_text(rest) + seq!['}'] + after && members_text(members).len()
                == member.len() + 1 + members_text(rest).len()
        }),
{
    let member = string_text(members[0].0) + seq![':'] + json_text(members[0].1);
    let whole = before + members_text(members) + seq!['}'] + after;
    let rest = members.drop_first();
    if members.len() == 1 {
        let tail = seq!['}'] + after;
        assert(whole =~= before + member + tail);
        tail
    } else {
        let tail = seq![','] + members_text(rest) + seq!['}'] + after;
        assert(whole =~= before + member + tail);
        assert(whole =~= (before + member).push(',') + members_text(rest) + seq!['}'] + after);
        tail
    }
}

/// Parsing a value's compact JSON gives the value with each number as it was written.
pub proof fn law_json_reads_as_written(v: Json, w: Json)
    requires
        reads_as(v, w),
    ensures
        document(json_text(v)) == Ok::<Json, Failure>(w),
{
    let none = Seq::<char>::empty();
    assert(json_text(v) =~= none + json_text(v) + none);
    lemma_value_reads(json_text(v), none, v, w, none);
}

/// Parsing a value's compact JSON gives the value back.
pub proof fn law_json_round_trip(v: Json)
    requires
        well_numbered(v),
    ensures
        document(json_text(v)) == Ok::<Json, Failure>(v),
{
    let none = Seq::<char>::empty();
    assert(json_text(v) =~= none + json_text(v) + none);
    law_value_reads_back(json_text(v), none, v, none);
}

/// Every value that the parser gives has the texts of JSON numbers for numbers,
/// and says truly which of them are integers.
pub proof fn law_parsed_numbers_are_tokens(s: Seq<char>)
    ensures
        document(s) is Ok ==> has_number_tokens(document(s)->Ok_0),
{
    lemma_value_has_tokens(s, 0);
}

proof fn lemma_number_run(s: Seq<char>, p: int)
    requires
        0 <= p <= s.len(),
    ensures
        p <= number_end(s, p) <= s.len(),
        forall|i: int| p <= i < number_end(s, p) ==> in_number(#[trigger] s[i]),
    decreases s.len() - p,
{
    if p < s.len() && in_number(s[p]) {
        lemma_number_run(s, p + 1);
    }
}

proof fn lemma_number_has_token(s: Seq<char>, at: int)
    requires
        0 <= at < s.len(),
        s[at] == '-' || '0' <= s[at] <= '9',
    ensures
        number_at(s, at) is Ok ==> has_number_tokens((number_at(s, at)->Ok_0).0),
{
    if number_at(s, at) is Ok {
        let first = if s[at] == '-' {
            at + 1
        } else {
            at
        };
        lemma_number_run(s, first);
        let end = number_end(s, first);
        let text = s.subrange(at, end);
        if end > at {
            assert(text[0] == s[at]);
        } else {
            assert(text =~= Seq::<char>::empty());
            assert(!is_float_text(text));
        }
        assert forall|i: int| 0 <= i < text.len() implies in_number(#[trigger] text[i]) by {
            assert(text[i] == s[at + i]);
        }
        let is_int = all_digits(s, first, end);
        if is_int {
            assert forall|i: int| first - at <= i < text.len() implies !is_number_mark(
                #[trigger] text[i],
            ) by {
                assert(text[i] == s[at + i]);
            }
        } else {
            let i = choose|i: int| first <= i < end && is_number_mark(#[trigger] s[i]);
            assert(is_number_mark(text[i - at]));
        }
    }
}

proof fn lemma_value_has_tokens(s: Seq<char>, p: int)
    requires
        0 <= p <= s.len(),
    ensures
        value_at(s, p) is Ok ==> has_number_tokens((value_at(s, p)->Ok_0).0),
    decreases s.len() - p, 0nat,
{
    super::parser::lemma_ws_end(s, p);
    let at = ws_end(s, p);
    if at < s.len() {
        super::parser::lemma_ws_end(s, at + 1);
        if s[at] == '{' {
            lemma_members_have_tokens(s, ws_end(s, at + 1), Seq::empty());
        } else if s[at] == '[' {
            lemma_items_have_tokens(s, ws_end(s, at + 1), Seq::empty());
        } else if s[at] == '-' || '0' <= s[at] <= '9' {
            lemma_number_has_token(s, at);
            assert(value_at(s, p) == number_at(s, at));
        }
    }
}

proof fn lemma_items_have_tokens(s: Seq<char>, p: int, so_far: Seq<Json>)
    requires
        0 <= p <= s.len(),
        forall|i: int| 0 <= i < so_far.len() ==> has_number_tokens(#[trigger] so_far[i]),
    ensures
        items_from(s, p, so_far) is Ok ==> forall|i: int|
            0 <= i < (items_from(s, p, so_far)->Ok_0).0.len() ==> has_number_tokens(
                #[trigger] (items_from(s, p, so_far)->Ok_0).0[i],
            ),
    decreases s.len() - p, 1nat,
{
    lemma_value_has_tokens(s, p);
    lemma_value_advances(s, p);
    if value_at(s, p) is Ok {
        let (v, q) = value_at(s, p)->Ok_0;
        super::parser::lemma_ws_end(s, q);
        let r = ws_end(s, q);
        if stands(s, r, ',') {
            lemma_items_have_tokens(s, r + 1, so_far.push(v));
        }
    }
}

proof fn lemma_members_have_tokens(s: Seq<char>, p: int, so_far: Seq<(Seq<char>, Json)>)
    requires
        0 <= p <= s.len(),
        forall|i: int| 0 <= i < so_far.len() ==> has_number_tokens((#[trigger] so_far[i]).1),
    ensures
        members_from(s, p, so_far) is Ok ==> forall|i: int|
            0 <= i < (members_from(s, p, so_far)->Ok_0).0.len() ==> has_number_tokens(
                (#[trigger] (members_from(s, p, so_far)->Ok_0).0[i]).1,
            ),
    decreases s.len() - p, 1nat,
{
    super::parser::lemma_member_key_advances(s, p);
    if member_key(s, p) is Ok {
        let (key, v0) = member_key(s, p)->Ok_0;
        lemma_value_has_tokens(s, v0);
        lemma_value_advances(s, v0);
        if value_at(s, v0) is Ok {
            let (v, q) = value_at(s, v0)->Ok_0;
            super::parser::lemma_ws_end(s, q);
            let r = ws_end(s, q);
            if stands(s, r, ',') {
                lemma_members_have_tokens(s, r + 1, so_far.push((key, v)));
            }
        }
    }
}

} // verus!
