//! A recursive-descent JSON parser. Errors carry the byte offset where parsing
//! failed.
//!
//! The grammar is given over the characters of the text: a rule takes the
//! place where it starts and gives the value read and the place after it.
use vstd::prelude::*;
use vstd::utf8::*;

use super::value::items_view;
use super::value::lemma_array_view;
use super::value::lemma_object_view;
use super::value::members_view;
use super::value::Json;
use super::value::JsonValue;
use crate::error::Error;
use crate::error::Failure;
use crate::number::is_float;
use crate::number::is_float_text;
use crate::text::chars_of;
use crate::text::text_between;

verus! {

// --- places and failures ---------------------------------------------------------

/// The byte offset of the character at `p`.
pub open spec fn offset(s: Seq<char>, p: int) -> int {
    encode_utf8(s.take(p)).len() as int
}

/// A failure at the character at `p`.
pub open spec fn fail(s: Seq<char>, p: int, message: Seq<char>) -> Failure {
    Failure::Json { offset: offset(s, p), message }
}

/// A failure after the first byte of the character at `p` was read, or at the
/// end where there is no such character.
pub open spec fn fail_past(s: Seq<char>, p: int, message: Seq<char>) -> Failure {
    Failure::Json {
        offset: if p < s.len() {
            offset(s, p) + 1
        } else {
            offset(s, p)
        },
        message,
    }
}

pub proof fn lemma_encode_concat(a: Seq<char>, b: Seq<char>)
    ensures
        encode_utf8(a + b) == encode_utf8(a) + encode_utf8(b),
    decreases a.len(),
{
    if a.len() == 0 {
        assert(a + b =~= b);
        assert(encode_utf8(a) + encode_utf8(b) =~= encode_utf8(b));
    } else {
        assert((a + b).drop_first() =~= a.drop_first() + b);
        lemma_encode_concat(a.drop_first(), b);
        assert(encode_utf8(a + b) =~= encode_utf8(a) + encode_utf8(b));
    }
}

proof fn lemma_offset_step(s: Seq<char>, p: int)
    requires
        0 <= p < s.len(),
    ensures
        offset(s, p + 1) == offset(s, p) + encode_scalar(s[p] as u32).len(),
        offset(s, p) < offset(s, p + 1) <= encode_utf8(s).len(),
{
    lemma_encode_concat(s.take(p), seq![s[p]]);
    assert(s.take(p + 1) =~= s.take(p) + seq![s[p]]);
    assert(seq![s[p]].drop_first() =~= Seq::<char>::empty());
    assert(encode_utf8(Seq::<char>::empty()) =~= Seq::<u8>::empty());
    assert(encode_utf8(seq![s[p]]) =~= encode_scalar(s[p] as u32));
    lemma_encode_concat(s.take(p + 1), s.skip(p + 1));
    assert(s =~= s.take(p + 1) + s.skip(p + 1));
}

// --- the grammar -----------------------------------------------------------------

pub open spec fn is_ws(c: char) -> bool {
    c == ' ' || c == '\t' || c == '\n' || c == '\r'
}

/// The place after white space.
pub open spec fn ws_end(s: Seq<char>, p: int) -> int
    decreases s.len() - p,
{
    if 0 <= p < s.len() && is_ws(s[p]) {
        ws_end(s, p + 1)
    } else {
        p
    }
}

pub proof fn lemma_ws_end(s: Seq<char>, p: int)
    requires
        0 <= p <= s.len(),
    ensures
        p <= ws_end(s, p) <= s.len(),
        ws_end(s, p) < s.len() ==> !is_ws(s[ws_end(s, p)]),
    decreases s.len() - p,
{
    if p < s.len() && is_ws(s[p]) {
        lemma_ws_end(s, p + 1);
    }
}

/// Whether the character at `p` is `c`.
pub open spec fn stands(s: Seq<char>, p: int, c: char) -> bool {
    0 <= p < s.len() && s[p] == c
}

/// The place after the character `c`, which must stand at `p`.
pub open spec fn expect_at(s: Seq<char>, p: int, c: char) -> Result<int, Failure> {
    if stands(s, p, c) {
        Ok(p + 1)
    } else {
        Err(fail(s, p, "expected '"@ + seq![c] + "'"@))
    }
}

/// Whether `word` stands at `p`.
pub open spec fn starts_at(s: Seq<char>, p: int, word: Seq<char>) -> bool {
    0 <= p && p + word.len() <= s.len() && s.subrange(p, p + word.len()) == word
}

/// The value of a hexadecimal digit.
pub open spec fn hex_value(c: char) -> Option<nat> {
    if '0' <= c <= '9' {
        Some((c as int - 48) as nat)
    } else if 'a' <= c <= 'f' {
        Some((c as int - 87) as nat)
    } else if 'A' <= c <= 'F' {
        Some((c as int - 55) as nat)
    } else {
        None
    }
}

/// The failure of a bad hexadecimal escape.
pub open spec fn bad_hex(s: Seq<char>, p: int) -> Failure {
    fail_past(s, p, "invalid \\u escape"@)
}

/// The number that the first `n` of the hexadecimal digits at `p` spell.
pub open spec fn hex_at(s: Seq<char>, p: int, n: nat) -> Result<nat, Failure>
    decreases n,
{
    if n == 0 {
        Ok(0)
    } else {
        match hex_at(s, p, (n - 1) as nat) {
            Err(e) => Err(e),
            Ok(high) => {
                let q = p + n - 1;
                if q >= s.len() || hex_value(s[q]) is None {
                    Err(bad_hex(s, q))
                } else {
                    Ok(16 * high + hex_value(s[q])->0)
                }
            },
        }
    }
}

/// The character that a `\u` escape stands for, its digits starting at `p`,
/// and the place after the escape: one unit, or a pair of surrogates.
pub open spec fn unicode_escape(s: Seq<char>, p: int) -> Result<(char, int), Failure> {
    match hex_at(s, p, 4) {
        Err(e) => Err(e),
        Ok(hi) => if 0xD800 <= hi <= 0xDBFF {
            if !stands(s, p + 4, '\\') {
                Err(fail_past(s, p + 4, "expected low surrogate"@))
            } else if !stands(s, p + 5, 'u') {
                Err(fail_past(s, p + 5, "expected low surrogate"@))
            } else {
                match hex_at(s, p + 6, 4) {
                    Err(e) => Err(e),
                    Ok(lo) => if 0xDC00 <= lo <= 0xDFFF {
                        Ok(
                            (
                                (0x10000 + (hi - 0xD800) * 0x400 + (lo - 0xDC00)) as char,
                                p + 10,
                            ),
                        )
                    } else {
                        Err(fail(s, p + 10, "invalid low surrogate"@))
                    },
                }
            }
        } else if 0xDC00 <= hi <= 0xDFFF {
            Err(fail(s, p + 4, "unexpected low surrogate"@))
        } else {
            Ok((hi as char, p + 4))
        },
    }
}

/// The character that the escape after a backslash stands for, and the place
/// after it.
pub open spec fn escape_at(s: Seq<char>, p: int) -> Result<(char, int), Failure> {
    if stands(s, p, '"') {
        Ok(('"', p + 1))
    } else if stands(s, p, '\\') {
        Ok(('\\', p + 1))
    } else if stands(s, p, '/') {
        Ok(('/', p + 1))
    } else if stands(s, p, 'b') {
        Ok(('\u{08}', p + 1))
    } else if stands(s, p, 'f') {
        Ok(('\u{0C}', p + 1))
    } else if stands(s, p, 'n') {
        Ok(('\n', p + 1))
    } else if stands(s, p, 'r') {
        Ok(('\r', p + 1))
    } else if stands(s, p, 't') {
        Ok(('\t', p + 1))
    } else if stands(s, p, 'u') {
        unicode_escape(s, p + 1)
    } else {
        Err(fail_past(s, p, "invalid escape"@))
    }
}

/// The rest of a string from `p`, after what was already read of it, and the
/// place after its closing quote.
pub open spec fn string_body(s: Seq<char>, p: int, so_far: Seq<char>) -> Result<
    (Seq<char>, int),
    Failure,
>
    decreases s.len() - p,
{
    if p < 0 || p >= s.len() {
        Err(fail(s, p, "unterminated string"@))
    } else if s[p] == '"' {
        Ok((so_far, p + 1))
    } else if s[p] == '\\' {
        match escape_at(s, p + 1) {
            Err(e) => Err(e),
            Ok((c, q)) => if q <= p {
                Err(fail(s, p, "unterminated string"@))
            } else {
                string_body(s, q, so_far.push(c))
            },
        }
    } else if (s[p] as u32) < 0x20 {
        Err(fail_past(s, p, "control character in string"@))
    } else {
        string_body(s, p + 1, so_far.push(s[p]))
    }
}

/// A string at `p` and the place after it.
pub open spec fn string_at(s: Seq<char>, p: int) -> Result<(Seq<char>, int), Failure> {
    match expect_at(s, p, '"') {
        Err(e) => Err(e),
        Ok(q) => string_body(s, q, Seq::empty()),
    }
}

pub proof fn lemma_hex_in_bounds(s: Seq<char>, p: int, n: nat)
    requires
        0 <= p <= s.len(),
    ensures
        hex_at(s, p, n) is Ok ==> p + n <= s.len() && hex_at(s, p, n)->Ok_0 < pow16(n),
    decreases n,
{
    if n > 0 {
        lemma_hex_in_bounds(s, p, (n - 1) as nat);
    }
}

/// 16 to the power `n`.
pub open spec fn pow16(n: nat) -> nat
    decreases n,
{
    if n == 0 {
        1
    } else {
        16 * pow16((n - 1) as nat)
    }
}

pub proof fn lemma_escape_advances(s: Seq<char>, p: int)
    requires
        0 <= p <= s.len(),
    ensures
        escape_at(s, p) is Ok ==> p < (escape_at(s, p)->Ok_0).1 <= s.len(),
{
    if p + 1 <= s.len() {
        lemma_hex_in_bounds(s, p + 1, 4);
    }
    if p + 7 <= s.len() {
        lemma_hex_in_bounds(s, p + 7, 4);
    }
}

pub proof fn lemma_string_advances(s: Seq<char>, p: int, so_far: Seq<char>)
    requires
        0 <= p <= s.len(),
    ensures
        string_body(s, p, so_far) is Ok ==> p < (string_body(s, p, so_far)->Ok_0).1 <= s.len(),
    decreases s.len() - p,
{
    if p < s.len() && s[p] != '"' {
        if s[p] == '\\' {
            lemma_escape_advances(s, p + 1);
            if escape_at(s, p + 1) is Ok {
                let (c, q) = escape_at(s, p + 1)->Ok_0;
                lemma_string_advances(s, q, so_far.push(c));
            }
        } else if (s[p] as u32) >= 0x20 {
            lemma_string_advances(s, p + 1, so_far.push(s[p]));
        }
    }
}

/// The characters that other than digits occur in numbers.
pub open spec fn is_number_mark(c: char) -> bool {
    c == '.' || c == 'e' || c == 'E' || c == '+' || c == '-'
}

/// Where the run of digits and number marks from `p` ends.
pub open spec fn number_end(s: Seq<char>, p: int) -> int
    decreases s.len() - p,
{
    if 0 <= p < s.len() && ('0' <= s[p] <= '9' || is_number_mark(s[p])) {
        number_end(s, p + 1)
    } else {
        p
    }
}

pub proof fn lemma_number_end(s: Seq<char>, p: int)
    requires
        0 <= p <= s.len(),
    ensures
        p <= number_end(s, p) <= s.len(),
    decreases s.len() - p,
{
    if p < s.len() && ('0' <= s[p] <= '9' || is_number_mark(s[p])) {
        lemma_number_end(s, p + 1);
    }
}

/// Whether `s[p..q]` has no number mark.
pub open spec fn all_digits(s: Seq<char>, p: int, q: int) -> bool {
    forall|i: int| p <= i < q ==> !is_number_mark(#[trigger] s[i])
}

/// A number at `p` and the place after it.
pub open spec fn number_at(s: Seq<char>, p: int) -> Result<(Json, int), Failure> {
    let first = if stands(s, p, '-') {
        p + 1
    } else {
        p
    };
    let end = number_end(s, first);
    let text = s.subrange(p, end);
    if is_float_text(text) {
        Ok((Json::Number { text, is_int: all_digits(s, first, end) }, end))
    } else {
        Err(fail(s, p, "invalid number"@))
    }
}

/// A value at `p`, after optional white space, and the place after it.
pub open spec fn value_at(s: Seq<char>, p: int) -> Result<(Json, int), Failure>
    decreases s.len() - p, 0nat,
{
    proof {
        if 0 <= p <= s.len() {
            lemma_ws_end(s, p);
            if ws_end(s, p) < s.len() {
                lemma_ws_end(s, ws_end(s, p) + 1);
            }
        }
    }
    let at = ws_end(s, p);
    if p < 0 || at >= s.len() {
        Err(fail(s, at, "unexpected end of input"@))
    } else if s[at] == '{' {
        let q = ws_end(s, at + 1);
        if stands(s, q, '}') {
            Ok((Json::Object(Seq::empty()), q + 1))
        } else {
            match members_from(s, q, Seq::empty()) {
                Err(e) => Err(e),
                Ok((members, end)) => Ok((Json::Object(members), end)),
            }
        }
    } else if s[at] == '[' {
        let q = ws_end(s, at + 1);
        if stands(s, q, ']') {
            Ok((Json::Array(Seq::empty()), q + 1))
        } else {
            match items_from(s, q, Seq::empty()) {
                Err(e) => Err(e),
                Ok((items, end)) => Ok((Json::Array(items), end)),
            }
        }
    } else if s[at] == '"' {
        match string_at(s, at) {
            Err(e) => Err(e),
            Ok((text, end)) => Ok((Json::String(text), end)),
        }
    } else if s[at] == 't' || s[at] == 'f' {
        if starts_at(s, at, seq!['t', 'r', 'u', 'e']) {
            Ok((Json::Bool(true), at + 4))
        } else if starts_at(s, at, seq!['f', 'a', 'l', 's', 'e']) {
            Ok((Json::Bool(false), at + 5))
        } else {
            Err(fail(s, at, "invalid literal"@))
        }
    } else if s[at] == 'n' {
        if starts_at(s, at, seq!['n', 'u', 'l', 'l']) {
            Ok((Json::Null, at + 4))
        } else {
            Err(fail(s, at, "invalid literal"@))
        }
    } else if s[at] == '-' || '0' <= s[at] <= '9' {
        number_at(s, at)
    } else {
        Err(fail(s, at, "unexpected character"@))
    }
}

/// The elements of an array from `p`, after those already read, and the place
/// after its closing bracket. A value is never empty, so reading one always
/// advances.
pub open spec fn items_from(s: Seq<char>, p: int, so_far: Seq<Json>) -> Result<
    (Seq<Json>, int),
    Failure,
>
    decreases s.len() - p, 1nat,
{
    match value_at(s, p) {
        Err(e) => Err(e),
        Ok((v, q)) => {
            proof {
                if 0 <= q <= s.len() {
                    lemma_ws_end(s, q);
                }
            }
            let r = ws_end(s, q);
            if q <= p || q > s.len() || p < 0 {
                Err(fail(s, p, "unexpected end of input"@))
            } else if stands(s, r, ',') {
                items_from(s, r + 1, so_far.push(v))
            } else if stands(s, r, ']') {
                Ok((so_far.push(v), r + 1))
            } else {
                Err(fail_past(s, r, "expected ',' or ']'"@))
            }
        },
    }
}

/// The members of an object from `p`, after those already read, and the place
/// after its closing brace.
pub open spec fn members_from(s: Seq<char>, p: int, so_far: Seq<(Seq<char>, Json)>) -> Result<
    (Seq<(Seq<char>, Json)>, int),
    Failure,
>
    decreases s.len() - p, 1nat,
{
    proof {
        lemma_member_key_advances(s, p);
    }
    match member_key(s, p) {
        Err(e) => Err(e),
        Ok((key, v0)) => match value_at(s, v0) {
            Err(e) => Err(e),
            Ok((v, q)) => {
                proof {
                    if 0 <= q <= s.len() {
                        lemma_ws_end(s, q);
                    }
                }
                let r = ws_end(s, q);
                if q <= v0 || q > s.len() {
                    Err(fail(s, p, "unexpected end of input"@))
                } else if stands(s, r, ',') {
                    members_from(s, r + 1, so_far.push((key, v)))
                } else if stands(s, r, '}') {
                    Ok((so_far.push((key, v)), r + 1))
                } else {
                    Err(fail_past(s, r, "expected ',' or '}'"@))
                }
            },
        },
    }
}

/// The key of a member at `p`, after optional white space, and the place after
/// its colon.
pub open spec fn member_key(s: Seq<char>, p: int) -> Result<(Seq<char>, int), Failure> {
    let at = ws_end(s, p);
    if p < 0 || !stands(s, at, '"') {
        Err(fail(s, at, "expected string key"@))
    } else {
        match string_at(s, at) {
            Err(e) => Err(e),
            Ok((key, q)) => match expect_at(s, ws_end(s, q), ':') {
                Err(e) => Err(e),
                Ok(end) => Ok((key, end)),
            },
        }
    }
}

pub proof fn lemma_member_key_advances(s: Seq<char>, p: int)
    ensures
        member_key(s, p) is Ok ==> 0 <= p < (member_key(s, p)->Ok_0).1 <= s.len(),
{
    if 0 <= p <= s.len() {
        lemma_ws_end(s, p);
        let at = ws_end(s, p);
        if stands(s, at, '"') {
            lemma_string_advances(s, at + 1, Seq::empty());
            if string_at(s, at) is Ok {
                lemma_ws_end(s, (string_at(s, at)->Ok_0).1);
            }
        }
    } else if p > s.len() {
        assert(ws_end(s, p) == p);
    }
}

/// The value of a complete document.
pub open spec fn document(s: Seq<char>) -> Result<Json, Failure> {
    match value_at(s, 0) {
        Err(e) => Err(e),
        Ok((v, q)) => if ws_end(s, q) == s.len() {
            Ok(v)
        } else {
            Err(fail(s, ws_end(s, q), "unexpected trailing characters"@))
        },
    }
}

proof fn lemma_items_advance(s: Seq<char>, p: int, so_far: Seq<Json>)
    requires
        0 <= p <= s.len(),
    ensures
        items_from(s, p, so_far) is Ok ==> p < (items_from(s, p, so_far)->Ok_0).1 <= s.len(),
    decreases s.len() - p,
{
    if value_at(s, p) is Ok {
        let (v, q) = value_at(s, p)->Ok_0;
        if p < q <= s.len() {
            lemma_ws_end(s, q);
            let r = ws_end(s, q);
            if stands(s, r, ',') {
                lemma_items_advance(s, r + 1, so_far.push(v));
            }
        }
    }
}

proof fn lemma_members_advance(s: Seq<char>, p: int, so_far: Seq<(Seq<char>, Json)>)
    requires
        0 <= p <= s.len(),
    ensures
        members_from(s, p, so_far) is Ok ==> p < (members_from(s, p, so_far)->Ok_0).1 <= s.len(),
    decreases s.len() - p,
{
    lemma_member_key_advances(s, p);
    if member_key(s, p) is Ok {
        let (key, v0) = member_key(s, p)->Ok_0;
        if value_at(s, v0) is Ok {
            let (v, q) = value_at(s, v0)->Ok_0;
            if v0 < q <= s.len() {
                lemma_ws_end(s, q);
                let r = ws_end(s, q);
                if stands(s, r, ',') {
                    lemma_members_advance(s, r + 1, so_far.push((key, v)));
                }
            }
        }
    }
}

pub proof fn lemma_value_advances(s: Seq<char>, p: int)
    requires
        0 <= p <= s.len(),
    ensures
        value_at(s, p) is Ok ==> p < (value_at(s, p)->Ok_0).1 <= s.len(),
{
    lemma_ws_end(s, p);
    let at = ws_end(s, p);
    if at < s.len() {
        lemma_ws_end(s, at + 1);
        let q = ws_end(s, at + 1);
        lemma_members_advance(s, q, Seq::empty());
        lemma_items_advance(s, q, Seq::empty());
        lemma_string_advances(s, at + 1, Seq::empty());
        lemma_number_end(s, at);
        lemma_number_end(s, at + 1);
        if '0' <= s[at] <= '9' {
            assert(number_end(s, at) == number_end(s, at + 1));
        }
    }
}

// --- the parser ------------------------------------------------------------------

/// `char::from_u32` gives the character with this scalar value, and nothing
/// for surrogates and values beyond the last one.
pub assume_specification[ std::char::from_u32 ](i: u32) -> (r: Option<char>)
    ensures
        r == (if i < 0xD800 || 0xE000 <= i <= 0x10FFFF {
            Some(i as char)
        } else {
            None
        }),
;

/// A JSON text to be read from given places.
pub struct Parser {
    chars: Vec<char>,
}

impl View for Parser {
    type V = Seq<char>;

    closed spec fn view(&self) -> Seq<char> {
        self.chars@
    }
}

impl Parser {
    /// Byte offsets into the text are machine numbers.
    pub closed spec fn wf(&self) -> bool {
        encode_utf8(self.chars@).len() <= usize::MAX
    }

    pub fn new(input: &str) -> (p: Self)
        ensures
            p@ == input@,
            p.wf(),
    {
        let bytes = input.as_bytes();
        assert(bytes.len() == encode_utf8(input@).len());
        Parser { chars: chars_of(input) }
    }

    /// How many characters there are.
    pub fn count(&self) -> (n: usize)
        ensures
            n == self@.len(),
    {
        self.chars.len()
    }

    /// Whether the character at `at` is `c`.
    pub fn stands(&self, at: usize, c: char) -> (r: bool)
        ensures
            r == stands(self@, at as int, c),
            r ==> at < self@.len() <= usize::MAX,
    {
        assert(self.chars@.len() == self.chars.len());
        at < self.chars.len() && self.chars[at] == c
    }

    fn byte_offset(&self, at: usize) -> (r: usize)
        requires
            self.wf(),
            at <= self@.len(),
        ensures
            r == offset(self@, at as int),
    {
        let mut total: usize = 0;
        let mut i: usize = 0;
        assert(self@.take(0) =~= Seq::<char>::empty());
        while i < at
            invariant
                i <= at <= self@.len(),
                self.wf(),
                total == offset(self@, i as int),
            decreases at - i,
        {
            proof {
                lemma_offset_step(self@, i as int);
            }
            let c: u32 = self.chars[i] as u32;
            let width: usize = if c < 0x80 {
                1
            } else if c < 0x800 {
                2
            } else if c < 0x10000 {
                3
            } else {
                4
            };
            proof {
                char_is_scalar(self@[i as int]);
                assert(width == encode_scalar(c).len());
            }
            total += width;
            i += 1;
        }
        total
    }

    /// The error of a failure at `at`.
    pub fn err(&self, at: usize, message: &str) -> (e: Error)
        requires
            self.wf(),
            at <= self@.len(),
        ensures
            e@ == fail(self@, at as int, message@),
    {
        Error::Json { offset: self.byte_offset(at), message: String::from_str(message) }
    }

    /// The error of a failure after reading from `at`.
    pub fn err_past(&self, at: usize, message: &str) -> (e: Error)
        requires
            self.wf(),
            at <= self@.len(),
        ensures
            e@ == fail_past(self@, at as int, message@),
    {
        let mut offset = self.byte_offset(at);
        if at < self.chars.len() {
            proof {
                lemma_offset_step(self@, at as int);
            }
            offset += 1;
        }
        Error::Json { offset, message: String::from_str(message) }
    }

    /// The place after white space.
    pub fn skip_ws(&self, at: usize) -> (r: usize)
        requires
            at <= self@.len(),
        ensures
            r == ws_end(self@, at as int),
            at <= r <= self@.len(),
    {
        let mut i: usize = at;
        while i < self.chars.len() && (self.chars[i] == ' ' || self.chars[i] == '\t'
            || self.chars[i] == '\n' || self.chars[i] == '\r')
            invariant
                at <= i <= self@.len(),
                ws_end(self@, at as int) == ws_end(self@, i as int),
            decreases self@.len() - i,
        {
            i += 1;
        }
        i
    }

    /// Whether only white space remains.
    pub fn at_end(&self, at: usize) -> (r: bool)
        requires
            at <= self@.len(),
        ensures
            r == (ws_end(self@, at as int) == self@.len()),
    {
        self.skip_ws(at) == self.chars.len()
    }

    /// The place after `expected`, which must stand at `at`.
    pub fn expect(&self, at: usize, expected: char) -> (r: Result<usize, Error>)
        requires
            self.wf(),
            at <= self@.len(),
        ensures
            match expect_at(self@, at as int, expected) {
                Ok(q) => r is Ok && r->Ok_0 == q && q <= self@.len(),
                Err(e) => r is Err && r->Err_0@ == e,
            },
    {
        if self.stands(at, expected) {
            Ok(at + 1)
        } else {
            let mut message = String::from_str("expected '");
            message.push(expected);
            message.append("'");
            assert(message@ =~= "expected '"@ + seq![expected] + "'"@);
            Err(self.err(at, message.as_str()))
        }
    }

    fn starts(&self, at: usize, word: &[char]) -> (r: bool)
        requires
            at <= self@.len(),
        ensures
            r == starts_at(self@, at as int, word@),
    {
        if self.chars.len() - at < word.len() {
            return false;
        }
        let mut i: usize = 0;
        while i < word.len()
            invariant
                i <= word@.len(),
                at + word@.len() <= self.chars.len(),
                forall|j: int| 0 <= j < i ==> self@[at + j] == word@[j],
            decreases word@.len() - i,
        {
            if self.chars[at + i] != word[i] {
                assert(self@.subrange(at as int, at + word@.len())[i as int] != word@[i as int]);
                return false;
            }
            i += 1;
        }
        assert(self@.subrange(at as int, at + word@.len()) =~= word@);
        true
    }

    fn parse_hex4(&self, at: usize) -> (r: Result<u32, Error>)
        requires
            self.wf(),
            at <= self@.len(),
        ensures
            match hex_at(self@, at as int, 4) {
                Ok(v) => r == Ok::<u32, Error>(v as u32) && v <= 0xFFFF && at + 4 <= self@.len(),
                Err(e) => r is Err && r->Err_0@ == e,
            },
    {
        let mut v: u32 = 0;
        let mut i: usize = 0;
        proof {
            lemma_hex_in_bounds(self@, at as int, 4);
            reveal_with_fuel(pow16, 5);
        }
        while i < 4
            invariant
                i <= 4,
                self.wf(),
                at + i <= self.chars.len(),
                hex_at(self@, at as int, i as nat) == Ok::<nat, Failure>(v as nat),
                i == 0 ==> v == 0,
                i == 1 ==> v < 0x10,
                i == 2 ==> v < 0x100,
                i == 3 ==> v < 0x1000,
                i == 4 ==> v < 0x10000,
            decreases 4 - i,
        {
            let q: usize = at + i;
            if q >= self.chars.len() {
                proof {
                    self.lemma_hex_fails(at, i);
                }
                return Err(self.err_past(q, "invalid \\u escape"));
            }
            let c = self.chars[q];
            let d: u32 = if '0' <= c && c <= '9' {
                c as u32 - 48
            } else if 'a' <= c && c <= 'f' {
                c as u32 - 87
            } else if 'A' <= c && c <= 'F' {
                c as u32 - 55
            } else {
                proof {
                    self.lemma_hex_fails(at, i);
                }
                return Err(self.err_past(q, "invalid \\u escape"));
            };
            v = 16 * v + d;
            i += 1;
        }
        Ok(v)
    }

    /// A bad digit fails the whole escape.
    proof fn lemma_hex_fails(&self, at: usize, i: usize)
        requires
            i < 4,
            hex_at(self@, at as int, i as nat) is Ok,
            hex_at(self@, at as int, (i + 1) as nat) is Err,
        ensures
            hex_at(self@, at as int, 4) == hex_at(self@, at as int, (i + 1) as nat),
    {
        reveal_with_fuel(hex_at, 5);
    }

    fn parse_unicode_escape(&self, at: usize) -> (r: Result<(char, usize), Error>)
        requires
            self.wf(),
            at <= self@.len(),
        ensures
            match unicode_escape(self@, at as int) {
                Ok((c, q)) => r is Ok && (r->Ok_0).0 == c && (r->Ok_0).1 == q && at <= q
                    <= self@.len(),
                Err(e) => r is Err && r->Err_0@ == e,
            },
    {
        let hi = self.parse_hex4(at)?;
        assert(self.chars@.len() == self.chars.len());
        let mut cp: u32 = hi;
        let mut q: usize = at + 4;
        if 0xD800 <= hi && hi <= 0xDBFF {
            if !self.stands(q, '\\') {
                return Err(self.err_past(q, "expected low surrogate"));
            }
            if !self.stands(q + 1, 'u') {
                return Err(self.err_past(q + 1, "expected low surrogate"));
            }
            let lo = self.parse_hex4(q + 2)?;
            if !(0xDC00 <= lo && lo <= 0xDFFF) {
                return Err(self.err(q + 6, "invalid low surrogate"));
            }
            cp = 0x10000 + (hi - 0xD800) * 0x400 + (lo - 0xDC00);
            q = q + 6;
        } else if 0xDC00 <= hi && hi <= 0xDFFF {
            return Err(self.err(q, "unexpected low surrogate"));
        }
        match std::char::from_u32(cp) {
            Some(c) => Ok((c, q)),
            None => Err(self.err(q, "invalid code point")),
        }
    }

    /// The character that the escape after a backslash stands for.
    fn parse_escape(&self, at: usize) -> (r: Result<(char, usize), Error>)
        requires
            self.wf(),
            at <= self@.len(),
        ensures
            match escape_at(self@, at as int) {
                Ok((c, q)) => r is Ok && (r->Ok_0).0 == c && (r->Ok_0).1 == q && at < q
                    <= self@.len(),
                Err(e) => r is Err && r->Err_0@ == e,
            },
    {
        if self.stands(at, '"') {
            Ok(('"', at + 1))
        } else if self.stands(at, '\\') {
            Ok(('\\', at + 1))
        } else if self.stands(at, '/') {
            Ok(('/', at + 1))
        } else if self.stands(at, 'b') {
            Ok(('\u{08}', at + 1))
        } else if self.stands(at, 'f') {
            Ok(('\u{0C}', at + 1))
        } else if self.stands(at, 'n') {
            Ok(('\n', at + 1))
        } else if self.stands(at, 'r') {
            Ok(('\r', at + 1))
        } else if self.stands(at, 't') {
            Ok(('\t', at + 1))
        } else if self.stands(at, 'u') {
            self.parse_unicode_escape(at + 1)
        } else {
            Err(self.err_past(at, "invalid escape"))
        }
    }

    /// Parse a string at `at`, and give the place after it.
    pub fn parse_string(&self, at: usize) -> (r: Result<(String, usize), Error>)
        requires
            self.wf(),
            at <= self@.len(),
        ensures
            match string_at(self@, at as int) {
                Ok((text, q)) => r is Ok && (r->Ok_0).0@ == text && (r->Ok_0).1 == q && at < q
                    <= self@.len(),
                Err(e) => r is Err && r->Err_0@ == e,
            },
    {
        let mut q = self.expect(at, '"')?;
        let mut out = String::new();
        while q < self.chars.len()
            invariant
                self.wf(),
                at < q <= self@.len(),
                string_at(self@, at as int) == string_body(self@, q as int, out@),
            decreases self@.len() - q,
        {
            let c = self.chars[q];
            if c == '"' {
                return Ok((out, q + 1));
            } else if c == '\\' {
                let (escaped, next) = self.parse_escape(q + 1)?;
                out.push(escaped);
                q = next;
            } else if (c as u32) < 0x20 {
                return Err(self.err_past(q, "control character in string"));
            } else {
                out.push(c);
                q += 1;
            }
        }
        Err(self.err(q, "unterminated string"))
    }

    /// Parse a number at `at`, and give the place after it.
    pub fn parse_number(&self, at: usize) -> (r: Result<(JsonValue, usize), Error>)
        requires
            self.wf(),
            at <= self@.len(),
        ensures
            match number_at(self@, at as int) {
                Ok((v, q)) => r is Ok && (r->Ok_0).0@ == v && (r->Ok_0).1 == q && at <= q
                    <= self@.len(),
                Err(e) => r is Err && r->Err_0@ == e,
            },
    {
        let first: usize = if self.stands(at, '-') {
            at + 1
        } else {
            at
        };
        let mut end: usize = first;
        let mut is_int = true;
        while end < self.chars.len()
            invariant
                at <= first <= end <= self@.len(),
                number_end(self@, first as int) == number_end(self@, end as int),
                is_int == all_digits(self@, first as int, end as int),
            ensures
                end == number_end(self@, first as int),
            decreases self@.len() - end,
        {
            let c = self.chars[end];
            if '0' <= c && c <= '9' {
                assert(!is_number_mark(self@[end as int]));
            } else if c == '.' || c == 'e' || c == 'E' || c == '+' || c == '-' {
                assert(is_number_mark(self@[end as int]));
                is_int = false;
            } else {
                break;
            }
            end += 1;
        }
        let token = vstd::slice::slice_subrange(self.chars.as_slice(), at, end);
        if !is_float(token) {
            return Err(self.err(at, "invalid number"));
        }
        let text = text_between(self.chars.as_slice(), at, end);
        Ok((JsonValue::Number { text, is_int }, end))
    }

    /// Parse a value at `at`, and give the place after it.
    pub fn parse_value(&self, at: usize) -> (r: Result<(JsonValue, usize), Error>)
        requires
            self.wf(),
            at <= self@.len(),
        ensures
            match value_at(self@, at as int) {
                Ok((v, q)) => r is Ok && (r->Ok_0).0@ == v && (r->Ok_0).1 == q && at < q
                    <= self@.len(),
                Err(e) => r is Err && r->Err_0@ == e,
            },
        decreases self@.len() - at, 0nat,
    {
        proof {
            lemma_value_advances(self@, at as int);
        }
        let p = self.skip_ws(at);
        if p >= self.chars.len() {
            return Err(self.err(p, "unexpected end of input"));
        }
        let c = self.chars[p];
        if c == '{' {
            let q = self.skip_ws(p + 1);
            if self.stands(q, '}') {
                let members: Vec<(String, JsonValue)> = Vec::new();
                proof {
                    lemma_object_view(members);
                    assert(members_view(members@) =~= Seq::empty());
                }
                return Ok((JsonValue::Object(members), q + 1));
            }
            let (members, end) = self.parse_members(q)?;
            proof {
                lemma_object_view(members);
            }
            Ok((JsonValue::Object(members), end))
        } else if c == '[' {
            let q = self.skip_ws(p + 1);
            if self.stands(q, ']') {
                let items: Vec<JsonValue> = Vec::new();
                proof {
                    lemma_array_view(items);
                    assert(items_view(items@) =~= Seq::empty());
                }
                return Ok((JsonValue::Array(items), q + 1));
            }
            let (items, end) = self.parse_items(q)?;
            proof {
                lemma_array_view(items);
            }
            Ok((JsonValue::Array(items), end))
        } else if c == '"' {
            let (text, end) = self.parse_string(p)?;
            Ok((JsonValue::String(text), end))
        } else if c == 't' || c == 'f' {
            let yes = ['t', 'r', 'u', 'e'];
            let no = ['f', 'a', 'l', 's', 'e'];
            proof {
                assert(yes@ =~= seq!['t', 'r', 'u', 'e']);
                assert(no@ =~= seq!['f', 'a', 'l', 's', 'e']);
            }
            if self.starts(p, &yes) {
                Ok((JsonValue::Bool(true), p + 4))
            } else if self.starts(p, &no) {
                Ok((JsonValue::Bool(false), p + 5))
            } else {
                Err(self.err(p, "invalid literal"))
            }
        } else if c == 'n' {
            let null = ['n', 'u', 'l', 'l'];
            assert(null@ =~= seq!['n', 'u', 'l', 'l']);
            if self.starts(p, &null) {
                Ok((JsonValue::Null, p + 4))
            } else {
                Err(self.err(p, "invalid literal"))
            }
        } else if c == '-' || ('0' <= c && c <= '9') {
            self.parse_number(p)
        } else {
            Err(self.err(p, "unexpected character"))
        }
    }

    fn parse_items(&self, at: usize) -> (r: Result<(Vec<JsonValue>, usize), Error>)
        requires
            self.wf(),
            at <= self@.len(),
        ensures
            match items_from(self@, at as int, Seq::empty()) {
                Ok((items, q)) => r is Ok && items_view((r->Ok_0).0@) == items && (r->Ok_0).1 == q
                    && at <= q <= self@.len(),
                Err(e) => r is Err && r->Err_0@ == e,
            },
        decreases self@.len() - at, 1nat,
    {
        let mut items: Vec<JsonValue> = Vec::new();
        let mut p: usize = at;
        assert(items_view(items@) =~= Seq::empty());
        loop
            invariant
                self.wf(),
                at <= p <= self@.len(),
                items_from(self@, at as int, Seq::empty()) == items_from(
                    self@,
                    p as int,
                    items_view(items@),
                ),
            decreases self@.len() - p,
        {
            let ghost before = items_view(items@);
            let (value, q) = self.parse_value(p)?;
            items.push(value);
            assert(items_view(items@) =~= before.push(value@));
            let r = self.skip_ws(q);
            if self.stands(r, ',') {
                p = r + 1;
            } else if self.stands(r, ']') {
                return Ok((items, r + 1));
            } else {
                return Err(self.err_past(r, "expected ',' or ']'"));
            }
        }
    }

    /// Parse the key of a member and its colon.
    pub fn parse_key(&self, at: usize) -> (r: Result<(String, usize), Error>)
        requires
            self.wf(),
            at <= self@.len(),
        ensures
            match member_key(self@, at as int) {
                Ok((key, q)) => r is Ok && (r->Ok_0).0@ == key && (r->Ok_0).1 == q && at < q
                    <= self@.len(),
                Err(e) => r is Err && r->Err_0@ == e,
            },
    {
        let p = self.skip_ws(at);
        if !self.stands(p, '"') {
            return Err(self.err(p, "expected string key"));
        }
        let (key, q) = self.parse_string(p)?;
        let colon = self.skip_ws(q);
        let end = self.expect(colon, ':')?;
        Ok((key, end))
    }

    fn parse_members(&self, at: usize) -> (r: Result<(Vec<(String, JsonValue)>, usize), Error>)
        requires
            self.wf(),
            at <= self@.len(),
        ensures
            match members_from(self@, at as int, Seq::empty()) {
                Ok((members, q)) => r is Ok && members_view((r->Ok_0).0@) == members
                    && (r->Ok_0).1 == q && at <= q <= self@.len(),
                Err(e) => r is Err && r->Err_0@ == e,
            },
        decreases self@.len() - at, 1nat,
    {
        let mut members: Vec<(String, JsonValue)> = Vec::new();
        let mut p: usize = at;
        assert(members_view(members@) =~= Seq::empty());
        loop
            invariant
                self.wf(),
                at <= p <= self@.len(),
                members_from(self@, at as int, Seq::empty()) == members_from(
                    self@,
                    p as int,
                    members_view(members@),
                ),
            decreases self@.len() - p,
        {
            let ghost before = members_view(members@);
            let (key, v0) = self.parse_key(p)?;
            let (value, q) = self.parse_value(v0)?;
            members.push((key, value));
            assert(members_view(members@) =~= before.push((key@, value@)));
            let r = self.skip_ws(q);
            if self.stands(r, ',') {
                p = r + 1;
            } else if self.stands(r, '}') {
                return Ok((members, r + 1));
            } else {
                return Err(self.err_past(r, "expected ',' or '}'"));
            }
        }
    }
}

/// Parse a complete JSON document. Trailing content other than white space is
/// rejected.
pub fn parse(input: &str) -> (r: Result<JsonValue, Error>)
    ensures
        match document(input@) {
            Ok(v) => r is Ok && r->Ok_0@ == v,
            Err(e) => r is Err && r->Err_0@ == e,
        },
{
    let p = Parser::new(input);
    let (value, q) = p.parse_value(0)?;
    let end = p.skip_ws(q);
    if end != p.count() {
        return Err(p.err(end, "unexpected trailing characters"));
    }
    Ok(value)
}

/// The value of a complete document, and the part of the text that is the value.
pub open spec fn root_text(s: Seq<char>) -> Result<(Json, Seq<char>), Failure> {
    match document(s) {
        Err(e) => Err(e),
        Ok(v) => Ok((v, s.subrange(ws_end(s, 0), (value_at(s, 0)->Ok_0).1))),
    }
}

/// Parse a complete JSON document and hand out the part of the text that is its
/// value: all of it but the white space around.
pub fn take_root(input: &str) -> (r: Result<(JsonValue, String), Error>)
    ensures
        match root_text(input@) {
            Ok((v, raw)) => r is Ok && (r->Ok_0).0@ == v && (r->Ok_0).1@ == raw,
            Err(e) => r is Err && r->Err_0@ == e,
        },
{
    let value = parse(input)?;
    let p = Parser::new(input);
    let start = p.skip_ws(0);
    let (_, end) = p.parse_value(0)?;
    proof {
        lemma_value_advances(input@, 0);
        lemma_root_starts(input@);
    }
    let chars = crate::text::chars_of(input);
    Ok((value, crate::text::text_between(chars.as_slice(), start, end)))
}

proof fn lemma_root_starts(s: Seq<char>)
    ensures
        value_at(s, 0) matches Ok((v, q)) ==> ws_end(s, 0) <= q,
{
    lemma_ws_end(s, 0);
    let a = ws_end(s, 0);
    if a < s.len() {
        assert(ws_end(s, a) == a);
        assert(value_at(s, a) == value_at(s, 0));
        lemma_value_advances(s, a);
    }
}

} // verus!
