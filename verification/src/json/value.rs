//! The JSON value model and its compact serialization.
//!
//! Object members are kept in order. A number is kept as the text it is
//! written with.
use vstd::prelude::*;

use crate::decimal::{plain, plain_number, plain_unsigned, unsigned_plain};
use crate::text::same_text;

verus! {

/// A JSON value.
#[derive(Debug, PartialEq)]
pub enum JsonValue {
    Null,
    Bool(bool),
    /// A number. `is_int` records that the text has no fraction or exponent.
    Number { text: String, is_int: bool },
    String(String),
    Array(Vec<JsonValue>),
    Object(Vec<(String, JsonValue)>),
}

/// What a JSON value is: the view of a [`JsonValue`].
pub enum Json {
    Null,
    Bool(bool),
    Number { text: Seq<char>, is_int: bool },
    String(Seq<char>),
    Array(Seq<Json>),
    Object(Seq<(Seq<char>, Json)>),
}

impl JsonValue {
    pub open spec fn model(&self) -> Json
        decreases self,
    {
        match self {
            JsonValue::Null => Json::Null,
            JsonValue::Bool(b) => Json::Bool(*b),
            JsonValue::Number { text, is_int } => Json::Number { text: text@, is_int: *is_int },
            JsonValue::String(s) => Json::String(s@),
            JsonValue::Array(items) => Json::Array(
                Seq::new(
                    items@.len(),
                    |i: int|
                        if 0 <= i < items@.len() {
                            items@[i].model()
                        } else {
                            Json::Null
                        },
                ),
            ),
            JsonValue::Object(members) => Json::Object(
                Seq::new(
                    members@.len(),
                    |i: int|
                        if 0 <= i < members@.len() {
                            (members@[i].0@, members@[i].1.model())
                        } else {
                            (Seq::empty(), Json::Null)
                        },
                ),
            ),
        }
    }
}

impl View for JsonValue {
    type V = Json;

    open spec fn view(&self) -> Json {
        self.model()
    }
}

/// The views of a list of values.
pub open spec fn items_view(items: Seq<JsonValue>) -> Seq<Json> {
    items.map_values(|v: JsonValue| v@)
}

/// The views of a list of members.
pub open spec fn members_view(members: Seq<(String, JsonValue)>) -> Seq<(Seq<char>, Json)> {
    members.map_values(|m: (String, JsonValue)| (m.0@, m.1@))
}

pub proof fn lemma_array_view(items: Vec<JsonValue>)
    ensures
        JsonValue::Array(items)@ == Json::Array(items_view(items@)),
{
    assert(JsonValue::Array(items)@->Array_0 =~= items_view(items@));
}

pub proof fn lemma_object_view(members: Vec<(String, JsonValue)>)
    ensures
        JsonValue::Object(members)@ == Json::Object(members_view(members@)),
{
    assert(JsonValue::Object(members)@->Object_0 =~= members_view(members@));
}

/// The value of the first member with this key.
pub open spec fn first_member(members: Seq<(Seq<char>, Json)>, key: Seq<char>) -> Option<Json>
    decreases members.len(),
{
    if members.len() == 0 {
        None
    } else if members[0].0 == key {
        Some(members[0].1)
    } else {
        first_member(members.drop_first(), key)
    }
}

impl Json {
    /// The member of an object with this key; the first one counts.
    pub open spec fn member(self, key: Seq<char>) -> Option<Json> {
        match self {
            Json::Object(members) => first_member(members, key),
            _ => None,
        }
    }
}

// --- serialization -------------------------------------------------------------

/// A hexadecimal digit, in lower case.
pub open spec fn hex_digit(d: int) -> char {
    if d < 10 {
        ((d + 48) as u8) as char
    } else {
        ((d + 87) as u8) as char
    }
}

/// How one character is written inside a JSON string.
pub open spec fn escape_of(c: char) -> Seq<char> {
    if c == '"' {
        seq!['\\', '"']
    } else if c == '\\' {
        seq!['\\', '\\']
    } else if c == '\n' {
        seq!['\\', 'n']
    } else if c == '\r' {
        seq!['\\', 'r']
    } else if c == '\t' {
        seq!['\\', 't']
    } else if c == '\u{08}' {
        seq!['\\', 'b']
    } else if c == '\u{0C}' {
        seq!['\\', 'f']
    } else if (c as u32) < 0x20 {
        seq!['\\', 'u', '0', '0', hex_digit(c as int / 16), hex_digit(c as int % 16)]
    } else {
        seq![c]
    }
}

/// How a text is written inside a JSON string.
pub open spec fn escaped(s: Seq<char>) -> Seq<char>
    decreases s.len(),
{
    if s.len() == 0 {
        Seq::empty()
    } else {
        escape_of(s[0]) + escaped(s.drop_first())
    }
}

/// A text as a JSON string, in quotes.
pub open spec fn string_text(s: Seq<char>) -> Seq<char> {
    seq!['"'] + escaped(s) + seq!['"']
}

/// A number as it is written: plainly, and an integer's zero without a sign.
#[verifier::opaque]
pub open spec fn number_text(text: Seq<char>, is_int: bool) -> Seq<char> {
    if is_int {
        unsigned_plain(text)
    } else {
        plain_number(text)
    }
}

/// A number as it is written.
pub fn written_number(text: &str, is_int: bool) -> (r: String)
    ensures
        r@ == number_text(text@, is_int),
{
    proof {
        reveal(number_text);
    }
    let chars = crate::text::chars_of(text);
    if is_int {
        plain_unsigned(chars.as_slice())
    } else {
        plain(chars.as_slice())
    }
}

/// The compact JSON of a value. Numbers are written plainly.
pub open spec fn json_text(v: Json) -> Seq<char>
    decreases v,
{
    match v {
        Json::Null => seq!['n', 'u', 'l', 'l'],
        Json::Bool(b) => if b {
            seq!['t', 'r', 'u', 'e']
        } else {
            seq!['f', 'a', 'l', 's', 'e']
        },
        Json::Number { text, is_int } => number_text(text, is_int),
        Json::String(s) => string_text(s),
        Json::Array(items) => seq!['['] + items_text(items) + seq![']'],
        Json::Object(members) => seq!['{'] + members_text(members) + seq!['}'],
    }
}

/// The elements of an array, with commas between them.
pub open spec fn items_text(items: Seq<Json>) -> Seq<char>
    decreases items,
{
    if items.len() == 0 {
        Seq::empty()
    } else if items.len() == 1 {
        json_text(items[0])
    } else {
        json_text(items[0]) + seq![','] + items_text(items.drop_first())
    }
}

/// The members of an object, with commas between them.
pub open spec fn members_text(members: Seq<(Seq<char>, Json)>) -> Seq<char>
    decreases members,
{
    if members.len() == 0 {
        Seq::empty()
    } else if members.len() == 1 {
        string_text(members[0].0) + seq![':'] + json_text(members[0].1)
    } else {
        string_text(members[0].0) + seq![':'] + json_text(members[0].1) + seq![',']
            + members_text(members.drop_first())
    }
}

fn hex_char(d: u32) -> (c: char)
    requires
        d < 16,
    ensures
        c == hex_digit(d as int),
{
    if d < 10 {
        (d as u8 + 48) as char
    } else {
        (d as u8 + 87) as char
    }
}

fn push_escaped(out: &mut String, c: char)
    ensures
        final(out)@ == old(out)@ + escape_of(c),
{
    let ghost start = out@;
    if c == '"' {
        out.push('\\');
        out.push('"');
    } else if c == '\\' {
        out.push('\\');
        out.push('\\');
    } else if c == '\n' {
        out.push('\\');
        out.push('n');
    } else if c == '\r' {
        out.push('\\');
        out.push('r');
    } else if c == '\t' {
        out.push('\\');
        out.push('t');
    } else if c == '\u{08}' {
        out.push('\\');
        out.push('b');
    } else if c == '\u{0C}' {
        out.push('\\');
        out.push('f');
    } else if (c as u32) < 0x20 {
        let code: u32 = c as u32;
        out.push('\\');
        out.push('u');
        out.push('0');
        out.push('0');
        out.push(hex_char(code / 16));
        out.push(hex_char(code % 16));
    } else {
        out.push(c);
    }
    assert(out@ =~= start + escape_of(c));
}

/// Append `s` as a quoted, escaped JSON string.
pub fn escape_into(s: &str, out: &mut String)
    ensures
        final(out)@ == old(out)@ + string_text(s@),
{
    let ghost start = out@;
    let chars = crate::text::chars_of(s);
    out.push('"');
    let mut i: usize = 0;
    assert(s@.skip(0) =~= s@);
    assert(start.push('"') + escaped(s@) =~= start + seq!['"'] + escaped(s@));
    while i < chars.len()
        invariant
            i <= chars@.len(),
            chars@ == s@,
            start + seq!['"'] + escaped(s@) == out@ + escaped(s@.skip(i as int)),
        decreases chars@.len() - i,
    {
        let ghost before = out@;
        let ghost left = s@.skip(i as int);
        push_escaped(out, chars[i]);
        i += 1;
        assert(left.drop_first() =~= s@.skip(i as int));
        assert(before + escaped(left) =~= out@ + escaped(s@.skip(i as int)));
    }
    assert(out@ + escaped(s@.skip(i as int)) =~= out@);
    out.push('"');
    assert(out@ =~= start + string_text(s@));
}

impl JsonValue {
    /// Members of an object, or `None` if this is not an object.
    pub fn as_object(&self) -> (r: Option<&[(String, JsonValue)]>)
        ensures
            match self@ {
                Json::Object(members) => r is Some && members_view(r->0@) == members,
                _ => r is None,
            },
    {
        match self {
            JsonValue::Object(members) => {
                proof {
                    lemma_object_view(*members);
                }
                Some(members.as_slice())
            },
            _ => None,
        }
    }

    /// Elements of an array, or `None` if this is not an array.
    pub fn as_array(&self) -> (r: Option<&[JsonValue]>)
        ensures
            match self@ {
                Json::Array(items) => r is Some && items_view(r->0@) == items,
                _ => r is None,
            },
    {
        match self {
            JsonValue::Array(items) => {
                proof {
                    lemma_array_view(*items);
                }
                Some(items.as_slice())
            },
            _ => None,
        }
    }

    /// The string contents, or `None` if this is not a string.
    pub fn as_str(&self) -> (r: Option<&str>)
        ensures
            match self@ {
                Json::String(s) => r is Some && r->0@ == s,
                _ => r is None,
            },
    {
        match self {
            JsonValue::String(s) => Some(s.as_str()),
            _ => None,
        }
    }

    /// The number's text, or `None` if this is not a number.
    pub fn as_number(&self) -> (r: Option<&str>)
        ensures
            match self@ {
                Json::Number { text, is_int } => r is Some && r->0@ == text,
                _ => r is None,
            },
    {
        match self {
            JsonValue::Number { text, is_int } => Some(text.as_str()),
            _ => None,
        }
    }

    /// Look up a member of an object. The first match counts.
    pub fn get(&self, key: &str) -> (r: Option<&JsonValue>)
        ensures
            match self@.member(key@) {
                Some(v) => r is Some && r->0@ == v,
                None => r is None,
            },
    {
        match self {
            JsonValue::Object(members) => {
                proof {
                    lemma_object_view(*members);
                }
                let ghost all = members_view(members@);
                assert(all.skip(0) =~= all);
                let mut i: usize = 0;
                while i < members.len()
                    invariant
                        i <= members@.len(),
                        all == members_view(members@),
                        self@ == Json::Object(all),
                        first_member(all, key@) == first_member(all.skip(i as int), key@),
                    decreases members@.len() - i,
                {
                    assert(all.skip(i as int).drop_first() =~= all.skip(i + 1));
                    assert(all.skip(i as int)[0] == all[i as int]);
                    let member = &members[i];
                    if same_text(member.0.as_str(), key) {
                        return Some(&member.1);
                    }
                    i += 1;
                }
                None
            },
            _ => None,
        }
    }

    /// Serialize to compact JSON.
    pub fn to_json_string(&self) -> (text: String)
        ensures
            text@ == json_text(self@),
    {
        let mut out = String::new();
        self.write_json_to(&mut out);
        assert(out@ =~= json_text(self@));
        out
    }

    /// Append this value's compact JSON to `out`.
    #[verifier::rlimit(30)]
    pub fn write_json_to(&self, out: &mut String)
        ensures
            final(out)@ == old(out)@ + json_text(self@),
        decreases self,
    {
        let ghost start = out@;
        match self {
            JsonValue::Null => {
                out.push('n');
                out.push('u');
                out.push('l');
                out.push('l');
                assert(out@ =~= start + json_text(self@));
            },
            JsonValue::Bool(b) => {
                if *b {
                    out.push('t');
                    out.push('r');
                    out.push('u');
                    out.push('e');
                } else {
                    out.push('f');
                    out.push('a');
                    out.push('l');
                    out.push('s');
                    out.push('e');
                }
                assert(out@ =~= start + json_text(self@));
            },
            JsonValue::Number { text, is_int } => {
                out.append(written_number(text.as_str(), *is_int).as_str());
            },
            JsonValue::String(s) => {
                escape_into(s.as_str(), out);
            },
            JsonValue::Array(items) => {
                proof {
                    lemma_array_view(*items);
                }
                let ghost all = items_view(items@);
                out.push('[');
                let ghost open = out@;
                let mut i: usize = 0;
                assert(all.skip(0) =~= all);
                while i < items.len()
                    invariant
                        i <= items@.len(),
                        self is Array,
                        items == self->Array_0,
                        all == items_view(items@),
                        open + items_text(all) == out@ + (if 0 < i < all.len() {
                            seq![',']
                        } else {
                            Seq::empty()
                        }) + items_text(all.skip(i as int)),
                    decreases items@.len() - i,
                {
                    let ghost left = all.skip(i as int);
                    let ghost before = out@;
                    if i > 0 {
                        out.push(',');
                        assert(before + seq![','] =~= out@);
                    } else {
                        assert(before + Seq::<char>::empty() =~= out@);
                    }
                    assert(open + items_text(all) == out@ + items_text(left));
                    let ghost mid = out@;
                    items[i].write_json_to(out);
                    i += 1;
                    proof {
                        assert(left[0] == items@[i - 1]@);
                        assert(left.drop_first() =~= all.skip(i as int));
                        if left.len() == 1 {
                            assert(all.skip(i as int) =~= Seq::<Json>::empty());
                            assert(mid + items_text(left) =~= out@ + Seq::<char>::empty()
                                + items_text(all.skip(i as int)));
                        } else {
                            assert(mid + items_text(left) =~= out@ + seq![','] + items_text(
                                all.skip(i as int),
                            ));
                        }
                    }
                }
                proof {
                    assert(all.skip(i as int) =~= Seq::<Json>::empty());
                    assert(out@ + Seq::<char>::empty() + items_text(all.skip(i as int)) =~= out@);
                }
                out.push(']');
                assert(out@ =~= start + json_text(self@));
            },
            JsonValue::Object(members) => {
                proof {
                    lemma_object_view(*members);
                }
                let ghost all = members_view(members@);
                out.push('{');
                let ghost open = out@;
                let mut i: usize = 0;
                assert(all.skip(0) =~= all);
                while i < members.len()
                    invariant
                        i <= members@.len(),
                        self is Object,
                        members == self->Object_0,
                        all == members_view(members@),
                        open + members_text(all) == out@ + (if 0 < i < all.len() {
                            seq![',']
                        } else {
                            Seq::empty()
                        }) + members_text(all.skip(i as int)),
                    decreases members@.len() - i,
                {
                    let ghost left = all.skip(i as int);
                    let ghost before = out@;
                    if i > 0 {
                        out.push(',');
                        assert(before + seq![','] =~= out@);
                    } else {
                        assert(before + Seq::<char>::empty() =~= out@);
                    }
                    assert(open + members_text(all) == out@ + members_text(left));
                    let ghost mid = out@;
                    let member = &members[i];
                    escape_into(member.0.as_str(), out);
                    out.push(':');
                    member.1.write_json_to(out);
                    i += 1;
                    proof {
                        assert(left[0] == (members@[i - 1].0@, members@[i - 1].1@));
                        assert(left.drop_first() =~= all.skip(i as int));
                        if left.len() == 1 {
                            assert(all.skip(i as int) =~= Seq::<(Seq<char>, Json)>::empty());
                            assert(mid + members_text(left) =~= out@ + Seq::<char>::empty()
                                + members_text(all.skip(i as int)));
                        } else {
                            assert(mid + members_text(left) =~= out@ + seq![','] + members_text(
                                all.skip(i as int),
                            ));
                        }
                    }
                }
                proof {
                    assert(all.skip(i as int) =~= Seq::<(Seq<char>, Json)>::empty());
                    assert(out@ + Seq::<char>::empty() + members_text(all.skip(i as int))
                        =~= out@);
                }
                out.push('}');
                assert(out@ =~= start + json_text(self@));
            },
        }
    }
}

impl Clone for JsonValue {
    fn clone(&self) -> (r: JsonValue)
        ensures
            r@ == self@,
        decreases self,
    {
        match self {
            JsonValue::Null => JsonValue::Null,
            JsonValue::Bool(b) => JsonValue::Bool(*b),
            JsonValue::Number { text, is_int } => JsonValue::Number {
                text: String::from_str(text.as_str()),
                is_int: *is_int,
            },
            JsonValue::String(s) => JsonValue::String(String::from_str(s.as_str())),
            JsonValue::Array(items) => {
                let mut out: Vec<JsonValue> = Vec::new();
                let mut i: usize = 0;
                while i < items.len()
                    invariant
                        i <= items@.len(),
                        self is Array,
                        items == self->Array_0,
                        out@.len() == i,
                        forall|j: int| 0 <= j < i ==> (#[trigger] out@[j])@ == items@[j]@,
                    decreases items@.len() - i,
                {
                    out.push(items[i].clone());
                    i += 1;
                }
                proof {
                    lemma_array_view(*items);
                    lemma_array_view(out);
                    assert(items_view(out@) =~= items_view(items@));
                }
                JsonValue::Array(out)
            },
            JsonValue::Object(members) => {
                let mut out: Vec<(String, JsonValue)> = Vec::new();
                let mut i: usize = 0;
                while i < members.len()
                    invariant
                        i <= members@.len(),
                        self is Object,
                        members == self->Object_0,
                        out@.len() == i,
                        forall|j: int|
                            0 <= j < i ==> (#[trigger] out@[j]).0@ == members@[j].0@
                                && out@[j].1@ == members@[j].1@,
                    decreases members@.len() - i,
                {
                    let member = &members[i];
                    out.push((String::from_str(member.0.as_str()), member.1.clone()));
                    i += 1;
                }
                proof {
                    lemma_object_view(*members);
                    lemma_object_view(out);
                    assert(members_view(out@) =~= members_view(members@));
                }
                JsonValue::Object(out)
            },
        }
    }
}

} // verus!
