//! The texts that are numbers, as the standard library's conversion from text
//! to double defines them.
//!
//! ```text
//! Float  ::= Sign? ( 'inf' | 'infinity' | 'nan' | Number )
//! Number ::= ( Digit+ | Digit+ '.' Digit* | Digit* '.' Digit+ ) Exp?
//! Exp    ::= 'e' Sign? Digit+
//! ```
//!
//! Letters are taken without regard to case.
use vstd::prelude::*;

use crate::text::{decimal, digit_char, lower, lower_char, signed_decimal};

verus! {

pub open spec fn is_digit(c: char) -> bool {
    '0' <= c <= '9'
}

pub open spec fn is_sign(c: char) -> bool {
    c == '+' || c == '-'
}

/// Where the run of digits from `p` ends.
pub open spec fn digits_end(s: Seq<char>, p: int) -> int
    decreases s.len() - p,
{
    if 0 <= p < s.len() && is_digit(s[p]) {
        digits_end(s, p + 1)
    } else {
        p
    }
}

/// Where the mantissa from `p` ends: digits, and a point and further digits.
pub open spec fn mantissa_end(s: Seq<char>, p: int) -> int {
    let a = digits_end(s, p);
    if a < s.len() && s[a] == '.' {
        digits_end(s, a + 1)
    } else {
        a
    }
}

/// Whether the mantissa from `p` has a digit.
pub open spec fn mantissa_has_digit(s: Seq<char>, p: int) -> bool {
    let a = digits_end(s, p);
    a > p || (a < s.len() && s[a] == '.' && digits_end(s, a + 1) > a + 1)
}

/// Where the digits of an exponent start, its letter standing at `e`.
pub open spec fn exponent_digits(s: Seq<char>, e: int) -> int {
    if e + 1 < s.len() && is_sign(s[e + 1]) {
        e + 2
    } else {
        e + 1
    }
}

/// Whether all of `s` from `p` on is a number.
pub open spec fn is_number_from(s: Seq<char>, p: int) -> bool {
    let b = mantissa_end(s, p);
    &&& mantissa_has_digit(s, p)
    &&& {
        ||| b == s.len()
        ||| {
            &&& s[b] == 'e' || s[b] == 'E'
            &&& digits_end(s, exponent_digits(s, b)) == s.len()
            &&& exponent_digits(s, b) < s.len()
        }
    }
}

/// Whether `s` from `p` on spells `word`, in any case.
pub open spec fn spells_from(s: Seq<char>, p: int, word: Seq<char>) -> bool {
    &&& s.len() - p == word.len()
    &&& forall|i: int| 0 <= i < word.len() ==> lower(s[p + i]) == #[trigger] word[i]
}

/// Where the text after an optional sign starts.
pub open spec fn after_sign(s: Seq<char>) -> int {
    if s.len() > 0 && is_sign(s[0]) {
        1
    } else {
        0
    }
}

/// Whether `s` is the text of a double.
pub open spec fn is_float_text(s: Seq<char>) -> bool {
    let p = after_sign(s);
    ||| is_number_from(s, p)
    ||| spells_from(s, p, seq!['i', 'n', 'f'])
    ||| spells_from(s, p, seq!['i', 'n', 'f', 'i', 'n', 'i', 't', 'y'])
    ||| spells_from(s, p, seq!['n', 'a', 'n'])
}

pub proof fn lemma_digits_end(s: Seq<char>, p: int)
    requires
        0 <= p <= s.len(),
    ensures
        p <= digits_end(s, p) <= s.len(),
        forall|i: int| p <= i < digits_end(s, p) ==> is_digit(#[trigger] s[i]),
        digits_end(s, p) < s.len() ==> !is_digit(s[digits_end(s, p)]),
    decreases s.len() - p,
{
    if p < s.len() && is_digit(s[p]) {
        lemma_digits_end(s, p + 1);
    }
}

pub fn skip_digits(s: &[char], p: usize) -> (r: usize)
    requires
        p <= s@.len(),
    ensures
        r == digits_end(s@, p as int),
        p <= r <= s@.len(),
{
    let mut i: usize = p;
    while i < s.len() && '0' <= s[i] && s[i] <= '9'
        invariant
            p <= i <= s@.len(),
            digits_end(s@, p as int) == digits_end(s@, i as int),
        decreases s@.len() - i,
    {
        i += 1;
    }
    i
}

fn number_from(s: &[char], p: usize) -> (r: bool)
    requires
        p <= s@.len(),
    ensures
        r == is_number_from(s@, p as int),
{
    let a = skip_digits(s, p);
    let mut b: usize = a;
    let mut digits = a > p;
    if a < s.len() && s[a] == '.' {
        b = skip_digits(s, a + 1);
        if b > a + 1 {
            digits = true;
        }
    }
    if !digits {
        return false;
    }
    if b == s.len() {
        return true;
    }
    if s[b] != 'e' && s[b] != 'E' {
        return false;
    }
    let mut c: usize = b + 1;
    if c < s.len() && (s[c] == '+' || s[c] == '-') {
        c += 1;
    }
    let d = skip_digits(s, c);
    d == s.len() && c < s.len()
}

pub fn spells(s: &[char], p: usize, word: &[char]) -> (r: bool)
    requires
        p <= s@.len(),
    ensures
        r == spells_from(s@, p as int, word@),
{
    if s.len() - p != word.len() {
        return false;
    }
    let mut i: usize = 0;
    while i < word.len()
        invariant
            i <= word@.len(),
            s.len() - p == word@.len(),
            p <= s@.len(),
            forall|j: int| 0 <= j < i ==> lower(s@[p + j]) == #[trigger] word@[j],
        decreases word@.len() - i,
    {
        if lower_char(s[p + i]) != word[i] {
            assert(lower(s@[p + i as int]) != word@[i as int]);
            return false;
        }
        i += 1;
    }
    true
}

/// Whether the characters are a number, after an optional sign.
pub fn is_number(s: &[char]) -> (r: bool)
    ensures
        r == is_number_from(s@, after_sign(s@)),
{
    let p: usize = if s.len() > 0 && (s[0] == '+' || s[0] == '-') {
        1
    } else {
        0
    };
    number_from(s, p)
}

/// Whether the characters are the text of a double.
pub fn is_float(s: &[char]) -> (r: bool)
    ensures
        r == is_float_text(s@),
{
    let p: usize = if s.len() > 0 && (s[0] == '+' || s[0] == '-') {
        1
    } else {
        0
    };
    let inf = ['i', 'n', 'f'];
    let infinity = ['i', 'n', 'f', 'i', 'n', 'i', 't', 'y'];
    let nan = ['n', 'a', 'n'];
    proof {
        assert(inf@ =~= seq!['i', 'n', 'f']);
        assert(infinity@ =~= seq!['i', 'n', 'f', 'i', 'n', 'i', 't', 'y']);
        assert(nan@ =~= seq!['n', 'a', 'n']);
    }
    number_from(s, p) || spells(s, p, &inf) || spells(s, p, &infinity) || spells(s, p, &nan)
}

pub proof fn lemma_mantissa_end(s: Seq<char>, p: int)
    requires
        0 <= p <= s.len(),
    ensures
        p <= digits_end(s, p) <= mantissa_end(s, p) <= s.len(),
{
    lemma_digits_end(s, p);
    let a = digits_end(s, p);
    if a < s.len() {
        lemma_digits_end(s, a + 1);
    }
}

// --- integers --------------------------------------------------------------------------

/// The number that the digits of `s` from `p` to `q` spell.
pub open spec fn digits_value(s: Seq<char>, p: int, q: int) -> nat
    decreases q - p,
{
    if q <= p {
        0
    } else {
        10 * digits_value(s, p, q - 1) + (s[q - 1] as int - 48) as nat
    }
}

/// Whether `s` from `p` on is digits, at least one.
pub open spec fn is_digits_from(s: Seq<char>, p: int) -> bool {
    p < s.len() && digits_end(s, p) == s.len()
}

/// The integer that `s` is the text of, where it is one that fits 64 bits with
/// sign: an optional sign and digits.
pub open spec fn integer_of(s: Seq<char>) -> Option<int> {
    let p = after_sign(s);
    if !is_digits_from(s, p) {
        None
    } else {
        let v = digits_value(s, p, s.len() as int);
        let n = if s[0] == '-' {
            -(v as int)
        } else {
            v as int
        };
        if i64::MIN <= n <= i64::MAX {
            Some(n)
        } else {
            None
        }
    }
}

proof fn lemma_digits_value_grows(s: Seq<char>, p: int, q: int, r: int)
    requires
        0 <= p <= q <= r <= s.len(),
        forall|i: int| p <= i < r ==> is_digit(#[trigger] s[i]),
    ensures
        digits_value(s, p, q) <= digits_value(s, p, r),
    decreases r - q,
{
    if q < r {
        assert(is_digit(s[r - 1]));
        lemma_digits_value_grows(s, p, q, r - 1);
    }
}

/// The integer that a text spells, where it fits.
pub fn parse_integer(text: &str) -> (r: Option<i64>)
    ensures
        match integer_of(text@) {
            Some(n) => r is Some && r->0 == n,
            None => r is None,
        },
{
    let chars = crate::text::chars_of(text);
    let s = chars.as_slice();
    let p: usize = if s.len() > 0 && (s[0] == '+' || s[0] == '-') {
        1
    } else {
        0
    };
    if p >= s.len() || skip_digits(s, p) != s.len() {
        return None;
    }
    proof {
        lemma_digits_end(text@, p as int);
    }
    let mut v: u64 = 0;
    let mut i: usize = p;
    while i < s.len()
        invariant
            p <= i <= s@.len(),
            s@ == text@,
            p == after_sign(text@),
            is_digits_from(text@, p as int),
            forall|j: int| p <= j < text@.len() ==> is_digit(#[trigger] text@[j]),
            v == digits_value(text@, p as int, i as int),
            v <= 0x8000_0000_0000_0000,
        decreases s@.len() - i,
    {
        assert(is_digit(text@[i as int]));
        let d: u64 = (s[i] as u32 - 48) as u64;
        let next: u128 = 10 * (v as u128) + d as u128;
        proof {
            assert(next == digits_value(text@, p as int, i + 1));
            lemma_digits_value_grows(text@, p as int, i + 1, text@.len() as int);
        }
        if next > 0x8000_0000_0000_0000 {
            return None;
        }
        v = next as u64;
        i += 1;
    }
    if s[0] == '-' {
        if v == 0x8000_0000_0000_0000 {
            Some(i64::MIN)
        } else {
            Some(-(v as i64))
        }
    } else if v == 0x8000_0000_0000_0000 {
        None
    } else {
        Some(v as i64)
    }
}

pub proof fn lemma_digits_reach(s: Seq<char>, p: int)
    requires
        0 <= p <= s.len(),
        forall|i: int| p <= i < s.len() ==> is_digit(#[trigger] s[i]),
    ensures
        digits_end(s, p) == s.len(),
    decreases s.len() - p,
{
    if p < s.len() {
        assert(is_digit(s[p]));
        lemma_digits_reach(s, p + 1);
    }
}

proof fn lemma_digits_value_kept(s: Seq<char>, t: Seq<char>, q: int)
    requires
        0 <= q <= s.len() <= t.len(),
        forall|i: int| 0 <= i < q ==> s[i] == t[i],
    ensures
        digits_value(s, 0, q) == digits_value(t, 0, q),
    decreases q,
{
    if q > 0 {
        lemma_digits_value_kept(s, t, q - 1);
    }
}

pub proof fn lemma_decimal_digits(n: nat)
    ensures
        decimal(n).len() > 0,
        forall|i: int| 0 <= i < decimal(n).len() ==> is_digit(#[trigger] decimal(n)[i]),
        digits_value(decimal(n), 0, decimal(n).len() as int) == n,
    decreases n,
{
    let s = decimal(n);
    reveal_with_fuel(digits_value, 2);
    if n >= 10 {
        let t = decimal(n / 10);
        lemma_decimal_digits(n / 10);
        assert(s.last() == digit_char(n % 10));
        lemma_digits_value_kept(t, s, t.len() as int);
        assert forall|i: int| 0 <= i < s.len() implies is_digit(#[trigger] s[i]) by {
            if i < t.len() {
                assert(s[i] == t[i]);
            }
        }
    }
}

proof fn lemma_digits_value_shifted(s: Seq<char>, t: Seq<char>, q: int)
    requires
        0 <= q <= s.len(),
        t == seq!['-'] + s,
    ensures
        digits_value(s, 0, q) == digits_value(t, 1, q + 1),
    decreases q,
{
    if q > 0 {
        lemma_digits_value_shifted(s, t, q - 1);
        assert(t[q] == s[q - 1]);
    }
}

/// The numeral of a number spells it.
pub proof fn law_numeral_spells_its_number(n: int)
    requires
        i64::MIN <= n <= i64::MAX,
    ensures
        integer_of(signed_decimal(n)) == Some(n),
{
    let s = signed_decimal(n);
    if n < 0 {
        let d = decimal((-n) as nat);
        lemma_decimal_digits((-n) as nat);
        lemma_digits_value_shifted(d, s, d.len() as int);
        assert forall|i: int| 1 <= i < s.len() implies is_digit(#[trigger] s[i]) by {
            assert(s[i] == d[i - 1]);
        }
        lemma_digits_reach(s, 1);
    } else {
        lemma_decimal_digits(n as nat);
        assert(is_digit(s[0]));
        lemma_digits_reach(s, 0);
    }
}

} // verus!
