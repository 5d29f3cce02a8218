//! Texts that are JSON values, put together piece by piece.
use vstd::prelude::*;

use super::parser::document;
use super::round_trip::{law_json_round_trip, well_numbered};
use super::value::{
    escape_of, escaped, items_text, json_text, members_text, number_text, string_text, Json,
};
use crate::decimal::{
    is_finite_text, law_numeral_is_plain, law_plain_is_plain, plain_number, unsigned_plain,
};
use crate::json::parser::{all_digits, is_number_mark};
use crate::json::round_trip::{in_number, is_number_token};
use crate::number::{is_digit, is_float_text, law_numeral_spells_its_number, lemma_decimal_digits};
use crate::text::{decimal, signed_decimal};

verus! {

/// Whether a text is the compact JSON of a value.
pub open spec fn is_value(t: Seq<char>) -> bool {
    exists|v: Json| well_numbered(v) && #[trigger] json_text(v) == t
}

/// Whether every number of the members is one.
pub open spec fn are_numbered(members: Seq<(Seq<char>, Json)>) -> bool {
    forall|i: int| 0 <= i < members.len() ==> well_numbered((#[trigger] members[i]).1)
}

/// A key with the colon behind it.
pub open spec fn key_text(key: Seq<char>) -> Seq<char> {
    string_text(key) + seq![':']
}

/// Whether a text is a member of an object.
pub open spec fn is_member(t: Seq<char>) -> bool {
    exists|key: Seq<char>, x: Seq<char>| is_value(x) && t == #[trigger] (key_text(key) + x)
}

/// Whether a text is an object with a member or more, but for its closing bracket.
pub open spec fn is_open(t: Seq<char>) -> bool {
    exists|members: Seq<(Seq<char>, Json)>|
        members.len() > 0 && are_numbered(members) && t == seq!['{'] + #[trigger] members_text(
            members,
        )
}

/// Whether a text is nothing, or a member behind a comma.
pub open spec fn is_tail(t: Seq<char>) -> bool {
    t.len() == 0 || exists|m: Seq<char>| #[trigger] is_member(m) && t == seq![','] + m
}

/// Whether a text is one value or more, with commas between them.
pub open spec fn is_list(t: Seq<char>) -> bool {
    exists|items: Seq<Json>|
        items.len() > 0 && (forall|i: int| 0 <= i < items.len() ==> well_numbered(items[i])) && t
            == #[trigger] items_text(items)
}

// --- what the texts hold -------------------------------------------------------------------

/// The value that a text is the JSON of.
#[verifier::opaque]
pub open spec fn value_of(t: Seq<char>) -> Json {
    document(t)->Ok_0
}

/// The members of an object that is not closed yet.
#[verifier::opaque]
pub open spec fn members_of(t: Seq<char>) -> Seq<(Seq<char>, Json)> {
    value_of(t + seq!['}'])->Object_0
}

/// The key and the value of a member.
#[verifier::opaque]
pub open spec fn pair_of(m: Seq<char>) -> (Seq<char>, Json) {
    members_of(seq!['{'] + m)[0]
}

/// The members that a tail adds.
pub open spec fn pairs_of(tail: Seq<char>) -> Seq<(Seq<char>, Json)> {
    if tail.len() == 0 {
        Seq::empty()
    } else {
        seq![pair_of(tail.skip(1))]
    }
}

/// The values of a list.
#[verifier::opaque]
pub open spec fn values_of(t: Seq<char>) -> Seq<Json> {
    value_of(seq!['['] + t + seq![']'])->Array_0
}

/// A text that is a value is the JSON of what is read of it.
pub proof fn lemma_value_of(t: Seq<char>)
    requires
        is_value(t),
    ensures
        document(t) is Ok,
        well_numbered(value_of(t)),
        json_text(value_of(t)) == t,
{
    reveal(value_of);
    let v = choose|v: Json| well_numbered(v) && #[trigger] json_text(v) == t;
    law_json_round_trip(v);
}

proof fn lemma_members_of(t: Seq<char>, members: Seq<(Seq<char>, Json)>)
    requires
        members.len() > 0,
        are_numbered(members),
        t == seq!['{'] + members_text(members),
    ensures
        is_open(t),
        members_of(t) == members,
        is_value(t + seq!['}']),
        value_of(t + seq!['}']) == Json::Object(members),
{
    reveal(value_of);
    reveal(members_of);
    let v = Json::Object(members);
    assert(well_numbered(v));
    assert(json_text(v) =~= t + seq!['}']);
    law_json_round_trip(v);
}

/// The members of an open object are those that its text holds.
proof fn lemma_open_members(t: Seq<char>)
    requires
        is_open(t),
    ensures
        members_of(t).len() > 0,
        are_numbered(members_of(t)),
        t == seq!['{'] + members_text(members_of(t)),
{
    let members = choose|members: Seq<(Seq<char>, Json)>|
        members.len() > 0 && are_numbered(members) && t == seq!['{'] + #[trigger] members_text(
            members,
        );
    lemma_members_of(t, members);
}

proof fn lemma_values_of(t: Seq<char>, items: Seq<Json>)
    requires
        items.len() > 0,
        forall|i: int| 0 <= i < items.len() ==> well_numbered(items[i]),
        t == items_text(items),
    ensures
        is_list(t),
        values_of(t) == items,
        is_value(seq!['['] + t + seq![']']),
        value_of(seq!['['] + t + seq![']']) == Json::Array(items),
{
    reveal(value_of);
    reveal(values_of);
    let v = Json::Array(items);
    assert(well_numbered(v));
    assert(json_text(v) == seq!['['] + t + seq![']']);
    law_json_round_trip(v);
}

proof fn lemma_list_values(t: Seq<char>)
    requires
        is_list(t),
    ensures
        values_of(t).len() > 0,
        forall|i: int| 0 <= i < values_of(t).len() ==> well_numbered(values_of(t)[i]),
        t == items_text(values_of(t)),
{
    let items = choose|items: Seq<Json>|
        items.len() > 0 && (forall|i: int| 0 <= i < items.len() ==> well_numbered(items[i])) && t
            == #[trigger] items_text(items);
    lemma_values_of(t, items);
}

// --- values --------------------------------------------------------------------------------

pub proof fn lemma_string(s: Seq<char>)
    ensures
        is_value(string_text(s)),
        value_of(string_text(s)) == Json::String(s),
{
    reveal(value_of);
    let v = Json::String(s);
    assert(json_text(v) == string_text(s));
    assert(well_numbered(v));
    law_json_round_trip(v);
}

/// A text without marks of JSON stands in quotes as it is.
pub proof fn lemma_quoted(s: Seq<char>)
    requires
        forall|i: int| 0 <= i < s.len() ==> escape_of(#[trigger] s[i]) == seq![s[i]],
    ensures
        string_text(s) == seq!['"'] + s + seq!['"'],
{
    lemma_escaped(s);
}

proof fn lemma_escaped(s: Seq<char>)
    requires
        forall|i: int| 0 <= i < s.len() ==> escape_of(#[trigger] s[i]) == seq![s[i]],
    ensures
        escaped(s) == s,
    decreases s.len(),
{
    if s.len() > 0 {
        let rest = s.drop_first();
        assert forall|i: int| 0 <= i < rest.len() implies escape_of(#[trigger] rest[i]) == seq![
            rest[i],
        ] by {
            assert(rest[i] == s[i + 1]);
        }
        lemma_escaped(rest);
        assert(escape_of(s[0]) == seq![s[0]]);
        assert(s =~= seq![s[0]] + rest);
    } else {
        assert(s =~= Seq::<char>::empty());
    }
}

/// The plain text of a finite number is a value.
pub proof fn lemma_number(t: Seq<char>)
    requires
        is_finite_text(t),
    ensures
        is_value(unsigned_plain(t)),
        value_of(unsigned_plain(t)) is Number,
        value_of(unsigned_plain(t))->text == unsigned_plain(t),
{
    reveal(value_of);
    law_plain_is_plain(t);
    reveal(number_text);
    reveal_strlit("0");
    reveal_strlit("-0");
    let u = unsigned_plain(t);
    if u == "0"@ {
        law_numeral_is_plain(0);
        assert(signed_decimal(0) =~= "0"@);
        lemma_integer(0);
    } else {
        let first: int = if u[0] == '-' {
            1
        } else {
            0
        };
        let is_int = all_digits(u, first, u.len() as int);
        assert forall|i: int| 0 <= i < u.len() implies in_number(#[trigger] u[i]) by {
            assert(plain_number(t)[i] == u[i]);
        }
        assert(is_number_token(u, is_int));
        let v = Json::Number { text: u, is_int };
        assert(well_numbered(v));
        assert(json_text(v) == u);
        law_json_round_trip(v);
    }
}

/// The numeral of an integer is a value.
pub proof fn lemma_integer(n: int)
    requires
        i64::MIN <= n <= i64::MAX,
    ensures
        is_value(signed_decimal(n)),
        value_of(signed_decimal(n)) == (Json::Number { text: signed_decimal(n), is_int: true }),
{
    reveal(value_of);
    let u = signed_decimal(n);
    let m = if n < 0 {
        (-n) as nat
    } else {
        n as nat
    };
    let d = decimal(m);
    law_numeral_is_plain(n);
    law_numeral_spells_its_number(n);
    lemma_decimal_digits(m);
    reveal(number_text);
    reveal_strlit("-0");
    let first: int = if n < 0 {
        1
    } else {
        0
    };
    assert forall|i: int| first <= i < u.len() implies is_digit(#[trigger] u[i]) by {
        assert(u[i] == d[i - first]);
    }
    assert(is_digit(d[0]));
    assert(u != "-0"@) by {
        if u == "-0"@ {
            assert(u =~= seq!['-', '0']);
            assert(d =~= seq!['0']);
            if m >= 10 {
                assert(d.len() == decimal(m / 10).len() + 1);
                lemma_decimal_digits(m / 10);
            }
        }
    }
    assert(is_number_token(u, true)) by {
        assert forall|i: int| first <= i < u.len() implies !is_number_mark(#[trigger] u[i]) by {
            assert(is_digit(u[i]));
        }
        assert(is_float_text(u)) by {
            crate::number::lemma_digits_reach(u, first);
        }
    }
    let v = Json::Number { text: u, is_int: true };
    assert(json_text(v) == u);
    law_json_round_trip(v);
}

// --- objects -------------------------------------------------------------------------------

proof fn lemma_members_push(members: Seq<(Seq<char>, Json)>, key: Seq<char>, v: Json)
    requires
        members.len() > 0,
    ensures
        members_text(members.push((key, v))) == members_text(members) + seq![','] + (key_text(key)
            + json_text(v)),
    decreases members.len(),
{
    let longer = members.push((key, v));
    let first = string_text(members[0].0) + seq![':'] + json_text(members[0].1);
    let last = key_text(key) + json_text(v);
    if members.len() == 1 {
        assert(longer.drop_first() =~= seq![(key, v)]);
        assert(members_text(seq![(key, v)]) =~= last);
        assert(members_text(longer) =~= first + seq![','] + last);
    } else {
        let rest = members.drop_first();
        lemma_members_push(rest, key, v);
        assert(longer.drop_first() =~= rest.push((key, v)));
        assert(members_text(longer) =~= members_text(members) + seq![','] + last);
    }
}

/// An object is opened with its first member.
pub proof fn lemma_open_first(mark: Seq<char>, key: Seq<char>, x: Seq<char>)
    requires
        mark == seq!['{'] + key_text(key),
        is_value(x),
    ensures
        is_open(mark + x),
        members_of(mark + x) == seq![(key, value_of(x))],
{
    let v = value_of(x);
    lemma_value_of(x);
    let members = seq![(key, v)];
    assert(members_text(members) =~= key_text(key) + x);
    assert(mark + x =~= seq!['{'] + members_text(members));
    lemma_members_of(mark + x, members);
}

/// An open object gets a further member.
pub proof fn lemma_open_more(t: Seq<char>, mark: Seq<char>, key: Seq<char>, x: Seq<char>)
    requires
        is_open(t),
        mark == seq![','] + key_text(key),
        is_value(x),
    ensures
        is_open(t + mark + x),
        members_of(t + mark + x) == members_of(t).push((key, value_of(x))),
{
    lemma_open_members(t);
    lemma_value_of(x);
    let members = members_of(t);
    let v = value_of(x);
    let longer = members.push((key, v));
    lemma_members_push(members, key, v);
    assert(are_numbered(longer)) by {
        assert forall|i: int| 0 <= i < longer.len() implies well_numbered(
            (#[trigger] longer[i]).1,
        ) by {
            if i < members.len() {
                assert(longer[i] == members[i]);
            }
        }
    }
    assert(t + mark + x =~= seq!['{'] + members_text(longer));
    lemma_members_of(t + mark + x, longer);
}

/// An open object gets a member that is written out.
pub proof fn lemma_open_member(t: Seq<char>, m: Seq<char>)
    requires
        is_open(t),
        is_member(m),
    ensures
        is_open(t + seq![','] + m),
        members_of(t + seq![','] + m) == members_of(t).push(pair_of(m)),
{
    let (key, x) = choose|key: Seq<char>, x: Seq<char>|
        is_value(x) && m == #[trigger] (key_text(key) + x);
    lemma_member(key, x);
    lemma_open_more(t, seq![','] + key_text(key), key, x);
    assert(t + (seq![','] + key_text(key)) + x =~= t + seq![','] + m);
}

pub proof fn lemma_open_tail(t: Seq<char>, tail: Seq<char>)
    requires
        is_open(t),
        is_tail(tail),
    ensures
        is_open(t + tail),
        members_of(t + tail) == members_of(t) + pairs_of(tail),
{
    if tail.len() == 0 {
        assert(t + tail =~= t);
        assert(members_of(t) + pairs_of(tail) =~= members_of(t));
    } else {
        let m = choose|m: Seq<char>| #[trigger] is_member(m) && tail == seq![','] + m;
        lemma_open_member(t, m);
        assert(t + seq![','] + m =~= t + tail);
        assert(tail.skip(1) =~= m);
        assert(members_of(t) + pairs_of(tail) =~= members_of(t).push(pair_of(m)));
    }
}

/// An open object is closed.
pub proof fn lemma_close(t: Seq<char>)
    requires
        is_open(t),
    ensures
        is_value(t + seq!['}']),
        value_of(t + seq!['}']) == Json::Object(members_of(t)),
{
    lemma_open_members(t);
    lemma_members_of(t, members_of(t));
}

pub proof fn lemma_member(key: Seq<char>, x: Seq<char>)
    requires
        is_value(x),
    ensures
        is_member(key_text(key) + x),
        pair_of(key_text(key) + x) == (key, value_of(x)),
{
    reveal(pair_of);
    lemma_open_first(seq!['{'] + key_text(key), key, x);
    assert(seq!['{'] + key_text(key) + x =~= seq!['{'] + (key_text(key) + x));
}

// --- arrays --------------------------------------------------------------------------------

proof fn lemma_items_push(items: Seq<Json>, v: Json)
    requires
        items.len() > 0,
    ensures
        items_text(items.push(v)) == items_text(items) + seq![','] + json_text(v),
    decreases items.len(),
{
    let longer = items.push(v);
    if items.len() == 1 {
        assert(longer.drop_first() =~= seq![v]);
        assert(items_text(seq![v]) == json_text(v));
        assert(items_text(longer) =~= json_text(items[0]) + seq![','] + json_text(v));
    } else {
        let rest = items.drop_first();
        lemma_items_push(rest, v);
        assert(longer.drop_first() =~= rest.push(v));
        assert(items_text(longer) =~= items_text(items) + seq![','] + json_text(v));
    }
}

pub proof fn lemma_list_first(x: Seq<char>)
    requires
        is_value(x),
    ensures
        is_list(x),
        values_of(x) == seq![value_of(x)],
{
    lemma_value_of(x);
    let items = seq![value_of(x)];
    assert(items_text(items) == x);
    lemma_values_of(x, items);
}

pub proof fn lemma_list_more(t: Seq<char>, x: Seq<char>)
    requires
        is_list(t),
        is_value(x),
    ensures
        is_list(t + seq![','] + x),
        values_of(t + seq![','] + x) == values_of(t).push(value_of(x)),
{
    lemma_list_values(t);
    lemma_value_of(x);
    let items = values_of(t);
    let v = value_of(x);
    lemma_items_push(items, v);
    let longer = items.push(v);
    assert forall|i: int| 0 <= i < longer.len() implies well_numbered(longer[i]) by {
        if i < items.len() {
            assert(longer[i] == items[i]);
        }
    }
    lemma_values_of(t + seq![','] + x, longer);
}

pub proof fn lemma_array(t: Seq<char>)
    requires
        is_list(t),
    ensures
        is_value(seq!['['] + t + seq![']']),
        value_of(seq!['['] + t + seq![']']) == Json::Array(values_of(t)),
{
    lemma_list_values(t);
    lemma_values_of(t, values_of(t));
}

/// A text that is a value is a document.
pub proof fn lemma_value_is_document(t: Seq<char>)
    requires
        is_value(t),
    ensures
        document(t) is Ok,
        t.len() > 0 && t[0] == '{' ==> document(t)->Ok_0 is Object,
{
    let v = choose|v: Json| well_numbered(v) && #[trigger] json_text(v) == t;
    law_json_round_trip(v);
    reveal_with_fuel(json_text, 2);
    if let Json::Number { text, is_int } = v {
        assert(number_text(text, is_int) == text);
        assert(text[0] != '{');
    }
}

} // verus!
