//! Text helpers shared by the text formats: character vectors, comparison,
//! ASCII case, white space and decimal numerals.
use vstd::prelude::*;
use vstd::utf8::*;

verus! {

/// `String::push` appends the character to the end of the string.
pub assume_specification[ std::string::String::push ](s: &mut std::string::String, c: char)
    ensures
        final(s)@ == old(s)@.push(c),
;

/// `std::str::from_utf8` accepts exactly the valid UTF-8 byte strings, and the
/// text it returns is what those bytes encode.
#[verifier::external_body]
pub(crate) fn utf8_text(bytes: &[u8]) -> (text: Option<&str>)
    ensures
        text is Some <==> valid_utf8(bytes@),
        text is Some ==> text->0@ == decode_utf8(bytes@),
{
    std::str::from_utf8(bytes).ok()
}

/// The characters of a text, in order.
pub fn chars_of(text: &str) -> (chars: Vec<char>)
    ensures
        chars@ == text@,
{
    let mut chars: Vec<char> = Vec::new();
    for c in it: text.chars()
        invariant
            chars@ == it.seq().take(it.index()),
            it.seq() == text@,
    {
        chars.push(c);
        assert(it.seq().take(it.index() + 1) == it.seq().take(it.index()).push(c));
    }
    assert(text@.take(text@.len() as int) == text@);
    chars
}

/// The text made of `chars[from..to]`.
pub fn text_between(chars: &[char], from: usize, to: usize) -> (text: String)
    requires
        from <= to <= chars@.len(),
    ensures
        text@ == chars@.subrange(from as int, to as int),
{
    let mut text = String::new();
    let mut i: usize = from;
    while i < to
        invariant
            from <= i <= to <= chars@.len(),
            text@ == chars@.subrange(from as int, i as int),
        decreases to - i,
    {
        text.push(chars[i]);
        i += 1;
        assert(chars@.subrange(from as int, i as int) == chars@.subrange(
            from as int,
            i - 1,
        ).push(chars@[i - 1]));
    }
    text
}

/// Whether two texts hold the same characters.
pub fn same_text(a: &str, b: &str) -> (same: bool)
    ensures
        same == (a@ == b@),
{
    let x = a.as_bytes();
    let y = b.as_bytes();
    proof {
        encode_utf8_decode_utf8(a@);
        encode_utf8_decode_utf8(b@);
    }
    if x.len() != y.len() {
        return false;
    }
    let mut i: usize = 0;
    while i < x.len()
        invariant
            i <= x@.len() == y@.len(),
            x@ == encode_utf8(a@),
            y@ == encode_utf8(b@),
            forall|j: int| 0 <= j < i ==> x@[j] == y@[j],
        decreases x@.len() - i,
    {
        if x[i] != y[i] {
            return false;
        }
        i += 1;
    }
    assert(x@ =~= y@);
    true
}

/// ASCII lower case of one character.
pub open spec fn lower(c: char) -> char {
    if 'A' <= c <= 'Z' {
        ((c as u8) + 32) as u8 as char
    } else {
        c
    }
}

/// ASCII lower case of a text.
pub open spec fn lower_text(s: Seq<char>) -> Seq<char> {
    s.map_values(|c: char| lower(c))
}

pub fn lower_char(c: char) -> (r: char)
    ensures
        r == lower(c),
{
    if 'A' <= c && c <= 'Z' {
        (c as u8 + 32) as char
    } else {
        c
    }
}

/// The ASCII-lower-cased text.
pub fn to_lower(text: &str) -> (r: String)
    ensures
        r@ == lower_text(text@),
{
    let chars = chars_of(text);
    let mut r = String::new();
    let mut i: usize = 0;
    while i < chars.len()
        invariant
            i <= chars@.len(),
            chars@ == text@,
            r@ == lower_text(text@.take(i as int)),
        decreases chars@.len() - i,
    {
        r.push(lower_char(chars[i]));
        i += 1;
        assert(lower_text(text@.take(i as int)) == lower_text(text@.take(i - 1)).push(
            lower(text@[i - 1]),
        ));
    }
    assert(text@.take(i as int) == text@);
    r
}

/// The decimal numeral of a natural number, without leading zeros.
pub open spec fn decimal(n: nat) -> Seq<char>
    decreases n,
{
    if n < 10 {
        seq![digit_char(n)]
    } else {
        decimal(n / 10).push(digit_char(n % 10))
    }
}

/// The character of a decimal digit.
pub open spec fn digit_char(d: nat) -> char {
    ((d + 48) as u8) as char
}

/// The decimal numeral of an integer, with a leading minus sign below zero.
pub open spec fn signed_decimal(n: int) -> Seq<char> {
    if n < 0 {
        seq!['-'] + decimal((-n) as nat)
    } else {
        decimal(n as nat)
    }
}

/// The decimal numeral of `n`.
pub fn decimal_text(n: u64) -> (r: String)
    ensures
        r@ == decimal(n as nat),
    decreases n,
{
    if n < 10 {
        let mut r = String::new();
        r.push((n as u8 + 48) as char);
        r
    } else {
        let mut r = decimal_text(n / 10);
        r.push(((n % 10) as u8 + 48) as char);
        r
    }
}

/// The decimal numeral of `n`, with its sign.
pub fn signed_decimal_text(n: i64) -> (r: String)
    ensures
        r@ == signed_decimal(n as int),
{
    if n < 0 {
        let magnitude: u64 = if n == i64::MIN { 0x8000_0000_0000_0000 } else { (-n) as u64 };
        let mut r = String::new();
        r.push('-');
        let digits = decimal_text(magnitude);
        r.append(digits.as_str());
        assert(r@ == signed_decimal(n as int));
        r
    } else {
        decimal_text(n as u64)
    }
}

/// What follows the last `mark` in `s`, or all of `s` where there is none.
pub open spec fn after_last(s: Seq<char>, mark: char) -> Seq<char>
    decreases s.len(),
{
    if s.len() == 0 {
        s
    } else if s.last() == mark {
        Seq::empty()
    } else {
        after_last(s.drop_last(), mark).push(s.last())
    }
}

/// Appending text without the mark extends what follows the last mark.
pub proof fn lemma_after_last_extends(s: Seq<char>, tail: Seq<char>, mark: char)
    requires
        !tail.contains(mark),
    ensures
        after_last(s + tail, mark) == after_last(s, mark) + tail,
    decreases tail.len(),
{
    if tail.len() == 0 {
        assert(s + tail == s);
        assert(after_last(s, mark) + tail == after_last(s, mark));
    } else {
        let whole = s + tail;
        assert(whole.last() == tail.last());
        assert(whole.drop_last() == s + tail.drop_last());
        assert forall|i: int| 0 <= i < tail.len() - 1 implies tail.drop_last()[i] != mark by {
            assert(tail.drop_last()[i] == tail[i]);
        }
        assert(tail.contains(tail.last()));
        lemma_after_last_extends(s, tail.drop_last(), mark);
        assert(after_last(s, mark) + tail == (after_last(s, mark) + tail.drop_last()).push(
            tail.last(),
        ));
    }
}

/// Whether `mark` occurs in `text`.
pub fn holds_char(text: &str, mark: char) -> (r: bool)
    ensures
        r == text@.contains(mark),
{
    let chars = chars_of(text);
    let mut i: usize = 0;
    while i < chars.len()
        invariant
            i <= chars@.len(),
            chars@ == text@,
            forall|k: int| 0 <= k < i ==> text@[k] != mark,
        decreases chars@.len() - i,
    {
        if chars[i] == mark {
            assert(text@[i as int] == mark);
            return true;
        }
        i += 1;
    }
    false
}

/// The part of `text` after its last `mark`, or all of it.
pub fn text_after_last(text: &str, mark: char) -> (r: String)
    ensures
        r@ == after_last(text@, mark),
{
    let chars = chars_of(text);
    let mut i: usize = chars.len();
    proof {
        assert(text@.subrange(i as int, i as int) =~= Seq::<char>::empty());
        assert(text@.take(i as int) == text@);
        assert(after_last(text@, mark) + text@.subrange(i as int, i as int) == after_last(
            text@,
            mark,
        ));
    }
    while i > 0
        invariant
            i <= chars@.len(),
            chars@ == text@,
            after_last(text@, mark) == after_last(text@.take(i as int), mark) + text@.subrange(
                i as int,
                text@.len() as int,
            ),
        decreases i,
    {
        let ghost before = text@.take(i as int);
        let ghost rest = text@.subrange(i as int, text@.len() as int);
        assert(before.last() == text@[i - 1]);
        assert(before.drop_last() == text@.take(i - 1));
        if chars[i - 1] == mark {
            assert(after_last(text@, mark) == rest);
            return text_between(chars.as_slice(), i, chars.len());
        }
        i -= 1;
        let ghost earlier = after_last(text@.take(i as int), mark);
        assert(earlier.push(text@[i as int]) + rest == earlier + text@.subrange(
            i as int,
            text@.len() as int,
        ));
    }
    assert(after_last(text@, mark) == text@);
    text_between(chars.as_slice(), 0, chars.len())
}

/// Whether a character is white space: the Unicode White_Space property.
pub open spec fn is_white(c: char) -> bool {
    let v = c as u32;
    ||| 0x09 <= v <= 0x0D
    ||| v == 0x20
    ||| v == 0x85
    ||| v == 0xA0
    ||| v == 0x1680
    ||| 0x2000 <= v <= 0x200A
    ||| v == 0x2028
    ||| v == 0x2029
    ||| v == 0x202F
    ||| v == 0x205F
    ||| v == 0x3000
}

pub fn white(c: char) -> (r: bool)
    ensures
        r == is_white(c),
{
    let v: u32 = c as u32;
    (0x09 <= v && v <= 0x0D) || v == 0x20 || v == 0x85 || v == 0xA0 || v == 0x1680 || (0x2000 <= v
        && v <= 0x200A) || v == 0x2028 || v == 0x2029 || v == 0x202F || v == 0x205F || v == 0x3000
}

/// Whether a character is ASCII white space.
pub open spec fn is_ascii_white(c: char) -> bool {
    c == ' ' || c == '\t' || c == '\n' || c == '\r' || c == '\u{0C}'
}

pub fn ascii_white(c: char) -> (r: bool)
    ensures
        r == is_ascii_white(c),
{
    c == ' ' || c == '\t' || c == '\n' || c == '\r' || c == '\u{0C}'
}

/// The text without leading white space.
pub open spec fn trim_start(s: Seq<char>) -> Seq<char>
    decreases s.len(),
{
    if s.len() > 0 && is_white(s[0]) {
        trim_start(s.drop_first())
    } else {
        s
    }
}

/// The text without trailing white space.
pub open spec fn trim_end(s: Seq<char>) -> Seq<char>
    decreases s.len(),
{
    if s.len() > 0 && is_white(s.last()) {
        trim_end(s.drop_last())
    } else {
        s
    }
}

/// The text without leading and trailing white space.
pub open spec fn trimmed(s: Seq<char>) -> Seq<char> {
    trim_end(trim_start(s))
}

proof fn lemma_trim_start(s: Seq<char>)
    ensures
        trim_start(s).len() > 0 ==> !is_white(trim_start(s)[0]) && trim_start(s).last() == s.last(),
    decreases s.len(),
{
    if s.len() > 0 && is_white(s[0]) {
        lemma_trim_start(s.drop_first());
    }
}

proof fn lemma_trim_end(s: Seq<char>)
    ensures
        trim_end(s).len() > 0 ==> !is_white(trim_end(s).last()) && trim_end(s)[0] == s[0],
    decreases s.len(),
{
    if s.len() > 0 && is_white(s.last()) {
        lemma_trim_end(s.drop_last());
    }
}

/// A trimmed text has nothing more to trim.
pub proof fn lemma_trimmed_stays(s: Seq<char>)
    ensures
        trimmed(trimmed(s)) == trimmed(s),
        trimmed(s).len() > 0 ==> !is_white(trimmed(s)[0]) && !is_white(trimmed(s).last()),
{
    lemma_trim_start(s);
    lemma_trim_end(trim_start(s));
}

/// White space behind a text is trimmed with it.
pub proof fn lemma_trimmed_extends(s: Seq<char>, c: char)
    requires
        is_white(c),
    ensures
        trimmed(s.push(c)) == trimmed(s),
{
    lemma_trim_start_extends(s, c);
    if trim_start(s).len() > 0 {
        assert(trim_start(s).push(c).drop_last() =~= trim_start(s));
    }
}

proof fn lemma_trim_start_extends(s: Seq<char>, c: char)
    requires
        is_white(c),
    ensures
        trim_start(s).len() > 0 ==> trim_start(s.push(c)) == trim_start(s).push(c),
        trim_start(s).len() == 0 ==> trim_start(s.push(c)).len() == 0,
    decreases s.len(),
{
    let longer = s.push(c);
    if s.len() == 0 {
        assert(longer[0] == c);
        assert(longer.drop_first() =~= Seq::<char>::empty());
        assert(trim_start(longer.drop_first()).len() == 0);
    } else if is_white(s[0]) {
        assert(longer.drop_first() =~= s.drop_first().push(c));
        lemma_trim_start_extends(s.drop_first(), c);
    }
}

/// Where `chars[from..to]` starts and ends without its white space around it.
pub fn trim_range(chars: &[char], from: usize, to: usize) -> (r: (usize, usize))
    requires
        from <= to <= chars@.len(),
    ensures
        from <= r.0 <= r.1 <= to,
        chars@.subrange(r.0 as int, r.1 as int) == trimmed(
            chars@.subrange(from as int, to as int),
        ),
{
    let ghost whole = chars@.subrange(from as int, to as int);
    let mut a: usize = from;
    while a < to && white(chars[a])
        invariant
            from <= a <= to <= chars@.len(),
            whole == chars@.subrange(from as int, to as int),
            trim_start(whole) == trim_start(chars@.subrange(a as int, to as int)),
        decreases to - a,
    {
        assert(chars@.subrange(a as int, to as int).drop_first() =~= chars@.subrange(
            a + 1,
            to as int,
        ));
        a += 1;
    }
    let ghost started = chars@.subrange(a as int, to as int);
    assert(trim_start(whole) == started);
    let mut b: usize = to;
    while b > a && white(chars[b - 1])
        invariant
            from <= a <= b <= to <= chars@.len(),
            started == chars@.subrange(a as int, to as int),
            trim_end(started) == trim_end(chars@.subrange(a as int, b as int)),
        decreases b,
    {
        assert(chars@.subrange(a as int, b as int).drop_last() =~= chars@.subrange(
            a as int,
            b - 1,
        ));
        b -= 1;
    }
    (a, b)
}

/// The text without leading and trailing white space.
pub fn trim_text(text: &str) -> (r: String)
    ensures
        r@ == trimmed(text@),
{
    let chars = chars_of(text);
    let n: usize = chars.len();
    let (a, b) = trim_range(chars.as_slice(), 0, n);
    assert(chars@.subrange(0, n as int) =~= text@);
    text_between(chars.as_slice(), a, b)
}

/// Whether two texts are the same but for ASCII case.
pub fn same_ignoring_case(a: &str, b: &str) -> (r: bool)
    ensures
        r == (lower_text(a@) == lower_text(b@)),
{
    let x = to_lower(a);
    let y = to_lower(b);
    same_text(x.as_str(), y.as_str())
}

/// The view of an optional text.
pub open spec fn opt_view(o: Option<String>) -> Option<Seq<char>> {
    match o {
        Some(s) => Some(s@),
        None => None,
    }
}

/// A copy of an optional text.
pub fn opt_clone(o: &Option<String>) -> (r: Option<String>)
    ensures
        opt_view(r) == opt_view(*o),
{
    match o {
        Some(s) => Some(String::from_str(s.as_str())),
        None => None,
    }
}

/// Where `c` first stands in `s` from `p` on.
pub open spec fn first_place(s: Seq<char>, c: char, p: int) -> Option<int>
    decreases s.len() - p,
{
    if p < 0 || p >= s.len() {
        None
    } else if s[p] == c {
        Some(p)
    } else {
        first_place(s, c, p + 1)
    }
}

/// Where `c` last stands among the first `n` characters of `s`.
pub open spec fn last_place(s: Seq<char>, c: char, n: int) -> Option<int>
    decreases n,
{
    if n <= 0 || n > s.len() {
        None
    } else if s[n - 1] == c {
        Some(n - 1)
    } else {
        last_place(s, c, n - 1)
    }
}

pub fn find_first(s: &[char], c: char, p: usize) -> (r: Option<usize>)
    requires
        p <= s@.len(),
    ensures
        match r {
            Some(i) => first_place(s@, c, p as int) == Some(i as int) && p <= i < s@.len(),
            None => first_place(s@, c, p as int) is None,
        },
{
    let mut i: usize = p;
    while i < s.len()
        invariant
            p <= i <= s@.len(),
            first_place(s@, c, p as int) == first_place(s@, c, i as int),
        decreases s@.len() - i,
    {
        if s[i] == c {
            return Some(i);
        }
        i += 1;
    }
    None
}

pub fn find_last(s: &[char], c: char) -> (r: Option<usize>)
    ensures
        match r {
            Some(i) => last_place(s@, c, s@.len() as int) == Some(i as int) && i < s@.len(),
            None => last_place(s@, c, s@.len() as int) is None,
        },
{
    let mut i: usize = s.len();
    while i > 0
        invariant
            i <= s@.len(),
            last_place(s@, c, s@.len() as int) == last_place(s@, c, i as int),
        decreases i,
    {
        if s[i - 1] == c {
            return Some(i - 1);
        }
        i -= 1;
    }
    None
}

/// The uppercase form of a character, which can be several characters: the
/// result of `char::to_uppercase`.
pub uninterp spec fn uppercase_of(c: char) -> Seq<char>;

/// The uppercase form of an ASCII character.
pub open spec fn ascii_upper(c: char) -> char {
    if 'a' <= c <= 'z' {
        (c as u32 - 32) as char
    } else {
        c
    }
}

/// `char::to_uppercase`, its characters collected. Claimed of it: the result is
/// a function of the character (Unicode's tables, fixed by the library), and
/// for an ASCII character it is the one ASCII uppercase character.
#[verifier::external_body]
pub(crate) fn to_upper(c: char) -> (r: String)
    ensures
        r@ == uppercase_of(c),
        (c as u32) < 128 ==> r@ == seq![ascii_upper(c)],
{
    c.to_uppercase().collect()
}

/// The text in ASCII upper case.
pub open spec fn upper_text(s: Seq<char>) -> Seq<char> {
    s.map_values(|c: char| ascii_upper(c))
}

/// The characters from `from` to `to` in ASCII upper case.
pub fn upper_between(chars: &[char], from: usize, to: usize) -> (r: String)
    requires
        from <= to <= chars@.len(),
    ensures
        r@ == upper_text(chars@.subrange(from as int, to as int)),
{
    let mut out = String::new();
    let mut i: usize = from;
    assert(out@ =~= upper_text(chars@.subrange(from as int, from as int)));
    while i < to
        invariant
            from <= i <= to <= chars@.len(),
            out@ == upper_text(chars@.subrange(from as int, i as int)),
        decreases to - i,
    {
        let c = chars[i];
        let up = if 'a' <= c && c <= 'z' {
            (c as u8 - 32) as char
        } else {
            c
        };
        assert(up == ascii_upper(c));
        out.push(up);
        assert(upper_text(chars@.subrange(from as int, i + 1)) =~= upper_text(
            chars@.subrange(from as int, i as int),
        ).push(ascii_upper(c)));
        i += 1;
    }
    out
}

} // verus!
