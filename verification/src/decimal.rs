//! The plain decimal that a number's text stands for: no exponent, no leading
//! or trailing zeros.
//!
//! No rounding to a binary format is done. A value beyond the range of a double
//! is written as a double would be: `inf` above it, `0` below it. Zero keeps the
//! sign it has.
use vstd::prelude::*;

use crate::number::{
    after_sign, digits_end, digits_value, exponent_digits, is_digit, is_float_text, is_number_from,
    lemma_decimal_digits, lemma_digits_end, lemma_digits_reach, lemma_mantissa_end, mantissa_end,
    spells_from,
};
use crate::number::{is_float, is_number, skip_digits, spells};
use crate::text::{decimal, signed_decimal};

verus! {

/// A decimal number: its digits without leading and trailing zeros, and how
/// many of them stand before the decimal point. Zero has no digits.
pub struct Decimal {
    pub negative: bool,
    pub digits: Seq<char>,
    pub point: int,
}

/// The digits of the mantissa of `s` from `p`, without the point.
pub open spec fn mantissa_digits(s: Seq<char>, p: int) -> Seq<char> {
    let a = digits_end(s, p);
    let b = mantissa_end(s, p);
    if b > a {
        s.subrange(p, a) + s.subrange(a + 1, b)
    } else {
        s.subrange(p, a)
    }
}

/// The exponent of ten that `s` states from `e` on; zero where it states none.
pub open spec fn exponent_value(s: Seq<char>, e: int) -> int {
    if e >= s.len() {
        0
    } else {
        let d = exponent_digits(s, e);
        let v = digits_value(s, d, s.len() as int);
        if s[e + 1] == '-' {
            -(v as int)
        } else {
            v as int
        }
    }
}

/// How many zeros `s` starts with.
pub open spec fn leading_zeros(s: Seq<char>) -> nat
    decreases s.len(),
{
    if s.len() > 0 && s[0] == '0' {
        1 + leading_zeros(s.drop_first())
    } else {
        0
    }
}

/// `s` without the zeros at its end.
pub open spec fn without_trailing_zeros(s: Seq<char>) -> Seq<char>
    decreases s.len(),
{
    if s.len() > 0 && s.last() == '0' {
        without_trailing_zeros(s.drop_last())
    } else {
        s
    }
}

/// The number that `s` is the text of.
pub open spec fn decimal_of(s: Seq<char>) -> Decimal {
    let p = after_sign(s);
    let all = mantissa_digits(s, p);
    let k = leading_zeros(all);
    Decimal {
        negative: s.len() > 0 && s[0] == '-',
        digits: without_trailing_zeros(all.skip(k as int)),
        point: digits_end(s, p) - p + exponent_value(s, mantissa_end(s, p)) - k,
    }
}

/// `n` zeros.
pub open spec fn zeros(n: int) -> Seq<char> {
    Seq::new(
        if n > 0 {
            n as nat
        } else {
            0
        },
        |i: int| '0',
    )
}

/// A decimal number without its sign, written plainly.
pub open spec fn magnitude_text(digits: Seq<char>, point: int) -> Seq<char> {
    if point > 309 {
        "inf"@
    } else if point <= 0 {
        "0."@ + zeros(-point) + digits
    } else if point >= digits.len() {
        digits + zeros(point - digits.len())
    } else {
        digits.subrange(0, point) + "."@ + digits.skip(point)
    }
}

/// A decimal number written plainly.
pub open spec fn decimal_text(d: Decimal) -> Seq<char> {
    if d.digits.len() == 0 || d.point < -323 {
        if d.negative {
            "-0"@
        } else {
            "0"@
        }
    } else if d.negative {
        "-"@ + magnitude_text(d.digits, d.point)
    } else {
        magnitude_text(d.digits, d.point)
    }
}

/// The plain text of the number that `s` is the text of.
pub open spec fn plain_number(s: Seq<char>) -> Seq<char> {
    if is_number_from(s, after_sign(s)) {
        decimal_text(decimal_of(s))
    } else if spells_from(s, after_sign(s), seq!['n', 'a', 'n']) {
        "NaN"@
    } else if s.len() > 0 && s[0] == '-' {
        "-inf"@
    } else {
        "inf"@
    }
}

/// The plain text of the number that `s` is the text of, zero without a sign.
pub open spec fn unsigned_plain(s: Seq<char>) -> Seq<char> {
    if plain_number(s) == "-0"@ {
        "0"@
    } else {
        plain_number(s)
    }
}

/// Whether the number that `s` is the text of is at least three.
pub open spec fn is_three_or_more(s: Seq<char>) -> bool {
    if is_number_from(s, after_sign(s)) {
        let d = decimal_of(s);
        &&& !d.negative
        &&& d.digits.len() > 0
        &&& d.point > 1 || (d.point == 1 && d.digits[0] >= '3')
    } else {
        &&& is_float_text(s)
        &&& !spells_from(s, after_sign(s), seq!['n', 'a', 'n'])
        &&& s[0] != '-'
    }
}

/// A decimal number as the functions here hold it. Beyond a limit that no
/// decision depends on, `point` is only known to be beyond it.
struct Parts {
    negative: bool,
    digits: Vec<char>,
    point: i128,
}

/// An exponent that stands for every larger one.
const FAR: i128 = 1_000_000_000_000_000_000_000_000_000_000;

/// Whether two places of the decimal point are the same, or both far out on
/// the same side.
pub open spec fn same_place(a: int, b: int) -> bool {
    ||| a == b
    ||| a > 100_000 && b > 100_000
    ||| a < -100_000 && b < -100_000
}

proof fn lemma_value_grows(s: Seq<char>, p: int, q: int, r: int)
    requires
        0 <= p <= q <= r <= s.len(),
        forall|i: int| p <= i < r ==> is_digit(#[trigger] s[i]),
    ensures
        digits_value(s, p, q) <= digits_value(s, p, r),
    decreases r - q,
{
    if q < r {
        assert(is_digit(s[r - 1]));
        lemma_value_grows(s, p, q, r - 1);
    }
}

/// The value of the digits from `p` to the end, or the limit where it is
/// beyond that.
fn value_of_digits(s: &[char], p: usize) -> (r: i128)
    requires
        p <= s@.len(),
        forall|i: int| p <= i < s@.len() ==> is_digit(#[trigger] s@[i]),
    ensures
        0 <= r <= FAR,
        r < FAR ==> r == digits_value(s@, p as int, s@.len() as int),
        r == FAR ==> digits_value(s@, p as int, s@.len() as int) >= FAR,
{
    let mut v: i128 = 0;
    let mut i: usize = p;
    while i < s.len()
        invariant
            p <= i <= s@.len(),
            forall|j: int| p <= j < s@.len() ==> is_digit(#[trigger] s@[j]),
            0 <= v < FAR,
            v == digits_value(s@, p as int, i as int),
        decreases s@.len() - i,
    {
        assert(is_digit(s@[i as int]));
        let d: i128 = (s[i] as u32 - 48) as i128;
        let next: i128 = 10 * v + d;
        proof {
            assert(next == digits_value(s@, p as int, i + 1));
            lemma_value_grows(s@, p as int, i + 1, s@.len() as int);
        }
        if next >= FAR {
            return FAR;
        }
        v = next;
        i += 1;
    }
    v
}

fn push_digits(s: &[char], from: usize, to: usize, out: &mut Vec<char>)
    requires
        from <= to <= s@.len(),
    ensures
        final(out)@ == old(out)@ + s@.subrange(from as int, to as int),
{
    let mut i: usize = from;
    let ghost start = out@;
    while i < to
        invariant
            from <= i <= to <= s@.len(),
            out@ == start + s@.subrange(from as int, i as int),
        decreases to - i,
    {
        out.push(s[i]);
        assert(s@.subrange(from as int, i + 1) =~= s@.subrange(from as int, i as int).push(
            s@[i as int],
        ));
        i += 1;
    }
}

fn count_leading_zeros(s: &Vec<char>) -> (r: usize)
    ensures
        r == leading_zeros(s@),
        r <= s@.len(),
{
    let mut i: usize = 0;
    assert(s@.skip(0) =~= s@);
    while i < s.len() && s[i] == '0'
        invariant
            i <= s@.len(),
            leading_zeros(s@) == i + leading_zeros(s@.skip(i as int)),
        decreases s@.len() - i,
    {
        assert(s@.skip(i as int).drop_first() =~= s@.skip(i + 1));
        i += 1;
    }
    i
}

fn trimmed_digits(s: &Vec<char>, from: usize) -> (r: Vec<char>)
    requires
        from <= s@.len(),
    ensures
        r@ == without_trailing_zeros(s@.skip(from as int)),
{
    let mut end: usize = s.len();
    assert(s@.subrange(from as int, end as int) =~= s@.skip(from as int));
    while end > from && s[end - 1] == '0'
        invariant
            from <= end <= s@.len(),
            without_trailing_zeros(s@.skip(from as int)) == without_trailing_zeros(
                s@.subrange(from as int, end as int),
            ),
        decreases end,
    {
        assert(s@.subrange(from as int, end as int).drop_last() =~= s@.subrange(
            from as int,
            end - 1,
        ));
        end -= 1;
    }
    let mut out: Vec<char> = Vec::new();
    push_digits(s.as_slice(), from, end, &mut out);
    assert(out@ =~= s@.subrange(from as int, end as int));
    out
}

/// The parts of the number that the characters are the text of.
#[verifier::spinoff_prover]
#[verifier::rlimit(50)]
fn parts_of(s: &[char]) -> (r: Parts)
    requires
        is_number_from(s@, after_sign(s@)),
    ensures
        r.negative == decimal_of(s@).negative,
        r.digits@ == decimal_of(s@).digits,
        same_place(r.point as int, decimal_of(s@).point),
{
    let negative = s.len() > 0 && s[0] == '-';
    let p: usize = if s.len() > 0 && (s[0] == '+' || s[0] == '-') {
        1
    } else {
        0
    };
    proof {
        lemma_mantissa_end(s@, p as int);
        lemma_digits_end(s@, p as int);
    }
    let a = skip_digits(s, p);
    let mut digits: Vec<char> = Vec::new();
    push_digits(s, p, a, &mut digits);
    let mut b: usize = a;
    if a < s.len() && s[a] == '.' {
        b = skip_digits(s, a + 1);
        push_digits(s, a + 1, b, &mut digits);
    }
    assert(digits@ =~= mantissa_digits(s@, p as int));
    let mut exponent: i128 = 0;
    if b < s.len() {
        let mut d: usize = b + 1;
        if d < s.len() && (s[d] == '+' || s[d] == '-') {
            d += 1;
        }
        proof {
            lemma_digits_end(s@, d as int);
        }
        let v: i128 = value_of_digits(s, d);
        exponent = if s[b + 1] == '-' {
            -v
        } else {
            v
        };
    }
    let k = count_leading_zeros(&digits);
    assert(s.len() <= usize::MAX);
    assert(digits.len() <= usize::MAX);
    let point: i128 = (a - p) as i128 + exponent - k as i128;
    let rest = trimmed_digits(&digits, k);
    Parts { negative, digits: rest, point }
}

fn push_zeros(out: &mut String, n: usize)
    ensures
        final(out)@ == old(out)@ + zeros(n as int),
{
    let ghost start = out@;
    let mut i: usize = 0;
    assert(zeros(0) =~= Seq::<char>::empty());
    while i < n
        invariant
            i <= n,
            out@ == start + zeros(i as int),
        decreases n - i,
    {
        out.push('0');
        assert(zeros(i + 1) =~= zeros(i as int).push('0'));
        i += 1;
    }
}

fn push_run(out: &mut String, s: &Vec<char>, from: usize, to: usize)
    requires
        from <= to <= s@.len(),
    ensures
        final(out)@ == old(out)@ + s@.subrange(from as int, to as int),
{
    let text = crate::text::text_between(s.as_slice(), from, to);
    out.append(text.as_str());
}

/// The plain text of the number that the characters are the text of.
pub fn plain(s: &[char]) -> (r: String)
    ensures
        r@ == plain_number(s@),
{
    if !is_number(s) {
        let p: usize = if s.len() > 0 && (s[0] == '+' || s[0] == '-') {
            1
        } else {
            0
        };
        let nan = ['n', 'a', 'n'];
        assert(nan@ =~= seq!['n', 'a', 'n']);
        return if spells(s, p, &nan) {
            String::from_str("NaN")
        } else if s.len() > 0 && s[0] == '-' {
            String::from_str("-inf")
        } else {
            String::from_str("inf")
        };
    }
    let d = parts_of(s);
    let ghost want = decimal_of(s@);
    let n: usize = d.digits.len();
    if n == 0 || d.point < -323 {
        return String::from_str(
            if d.negative {
                "-0"
            } else {
                "0"
            },
        );
    }
    let mut out = String::from_str(
        if d.negative {
            "-"
        } else {
            ""
        },
    );
    proof {
        reveal_strlit("");
        reveal_strlit("-");
    }
    let ghost start = out@;
    if d.point > 309 {
        out.append("inf");
    } else {
        assert(d.point == want.point);
        assert(n <= usize::MAX);
        if d.point <= 0 {
            out.append("0.");
            let count: usize = (-d.point) as usize;
            push_zeros(&mut out, count);
            push_run(&mut out, &d.digits, 0, n);
            assert(d.digits@.subrange(0, n as int) =~= d.digits@);
        } else {
            let point: usize = d.point as usize;
            if point >= n {
                push_run(&mut out, &d.digits, 0, n);
                push_zeros(&mut out, point - n);
                assert(d.digits@.subrange(0, n as int) =~= d.digits@);
            } else {
                push_run(&mut out, &d.digits, 0, point);
                out.append(".");
                push_run(&mut out, &d.digits, point, n);
                assert(d.digits@.subrange(point as int, n as int) =~= d.digits@.skip(
                    point as int,
                ));
            }
        }
    }
    proof {
        assert(out@ =~= start + magnitude_text(want.digits, want.point));
        if !d.negative {
            assert(out@ =~= magnitude_text(want.digits, want.point));
        }
    }
    out
}

/// The plain text of the number that the characters are the text of, zero without
/// a sign.
pub fn plain_unsigned(s: &[char]) -> (r: String)
    ensures
        r@ == unsigned_plain(s@),
{
    let r = plain(s);
    if crate::text::same_text(r.as_str(), "-0") {
        String::from_str("0")
    } else {
        r
    }
}

/// Whether the number that the characters are the text of is at least three.
pub fn three_or_more(s: &[char]) -> (r: bool)
    ensures
        r == is_three_or_more(s@),
{
    if !is_number(s) {
        let p: usize = if s.len() > 0 && (s[0] == '+' || s[0] == '-') {
            1
        } else {
            0
        };
        let nan = ['n', 'a', 'n'];
        assert(nan@ =~= seq!['n', 'a', 'n']);
        return is_float(s) && !spells(s, p, &nan) && s[0] != '-';
    }
    let d = parts_of(s);
    !d.negative && d.digits.len() > 0 && (d.point > 1 || (d.point == 1 && d.digits[0] >= '3'))
}

/// Whether `s` is the text of a number within the range of a double.
pub open spec fn is_finite_text(s: Seq<char>) -> bool {
    is_number_from(s, after_sign(s)) && (decimal_of(s).digits.len() == 0 || decimal_of(s).point
        <= 309)
}

/// Whether the characters are the text of a number within the range of a double.
pub fn is_finite(s: &[char]) -> (r: bool)
    ensures
        r == is_finite_text(s@),
{
    if !is_number(s) {
        return false;
    }
    let d = parts_of(s);
    d.digits.len() == 0 || d.point <= 309
}

// --- laws ----------------------------------------------------------------------------

proof fn lemma_digits_end_at(s: Seq<char>, p: int, q: int)
    requires
        0 <= p <= q <= s.len(),
        forall|i: int| p <= i < q ==> is_digit(#[trigger] s[i]),
        q < s.len() ==> !is_digit(s[q]),
    ensures
        digits_end(s, p) == q,
    decreases q - p,
{
    if p < q {
        assert(is_digit(s[p]));
        lemma_digits_end_at(s, p + 1, q);
    }
}

proof fn lemma_leading_zeros(s: Seq<char>)
    ensures
        leading_zeros(s) <= s.len(),
        forall|i: int| 0 <= i < leading_zeros(s) ==> s[i] == '0',
        leading_zeros(s) < s.len() ==> s[leading_zeros(s) as int] != '0',
    decreases s.len(),
{
    if s.len() > 0 && s[0] == '0' {
        lemma_leading_zeros(s.drop_first());
        assert forall|i: int| 0 <= i < leading_zeros(s) implies s[i] == '0' by {
            if i > 0 {
                assert(s.drop_first()[i - 1] == s[i]);
            }
        }
    }
}

proof fn lemma_leading_zeros_at(s: Seq<char>, n: int)
    requires
        0 <= n <= s.len(),
        forall|i: int| 0 <= i < n ==> s[i] == '0',
        n < s.len() ==> s[n] != '0',
    ensures
        leading_zeros(s) == n,
    decreases n,
{
    if n > 0 {
        assert forall|i: int| 0 <= i < n - 1 implies s.drop_first()[i] == '0' by {
            assert(s.drop_first()[i] == s[i + 1]);
        }
        lemma_leading_zeros_at(s.drop_first(), n - 1);
    }
}

proof fn lemma_trailing_zeros(s: Seq<char>)
    ensures
        without_trailing_zeros(s).len() <= s.len(),
        without_trailing_zeros(s) == s.take(without_trailing_zeros(s).len() as int),
        without_trailing_zeros(s).len() > 0 ==> without_trailing_zeros(s).last() != '0',
        s.len() > 0 && s[0] != '0' ==> without_trailing_zeros(s).len() > 0,
    decreases s.len(),
{
    if s.len() > 0 && s.last() == '0' {
        lemma_trailing_zeros(s.drop_last());
        let w = without_trailing_zeros(s);
        assert(s.drop_last().take(w.len() as int) =~= s.take(w.len() as int));
    } else {
        assert(s.take(s.len() as int) =~= s);
    }
}

proof fn lemma_zeros_trimmed(d: Seq<char>, n: int)
    requires
        n >= 0,
        d.len() > 0,
        d.last() != '0',
    ensures
        without_trailing_zeros(d + zeros(n)) == d,
    decreases n,
{
    let s = d + zeros(n);
    if n == 0 {
        assert(s =~= d);
    } else {
        assert(s.last() == '0');
        assert(s.drop_last() =~= d + zeros(n - 1));
        lemma_zeros_trimmed(d, n - 1);
    }
}

/// Whether `d` is how the digits of a number are held: not empty, and without
/// zeros at its ends.
spec fn is_trimmed(d: Seq<char>) -> bool {
    &&& d.len() > 0
    &&& d[0] != '0'
    &&& d.last() != '0'
    &&& forall|i: int| 0 <= i < d.len() ==> is_digit(#[trigger] d[i])
}

proof fn lemma_digits_are_trimmed(s: Seq<char>)
    requires
        is_number_from(s, after_sign(s)),
        decimal_of(s).digits.len() > 0,
    ensures
        is_trimmed(decimal_of(s).digits),
{
    let p = after_sign(s);
    lemma_mantissa_end(s, p);
    lemma_digits_end(s, p);
    let a = digits_end(s, p);
    if a < s.len() {
        lemma_digits_end(s, a + 1);
    }
    let all = mantissa_digits(s, p);
    let k = leading_zeros(all) as int;
    let rest = all.skip(k);
    let d = without_trailing_zeros(rest);
    lemma_leading_zeros(all);
    lemma_trailing_zeros(rest);
    assert(d[0] == rest[0]);
    assert forall|i: int| 0 <= i < d.len() implies is_digit(#[trigger] d[i]) by {
        assert(d[i] == rest[i]);
        assert(rest[i] == all[k + i]);
        let at = if k + i < a - p {
            p + k + i
        } else {
            p + k + i + 1
        };
        assert(all[k + i] == s[at]);
        assert(is_digit(s[at]));
    }
}

/// Whether `t` is the text of the number with these digits and this point, after
/// a sign of so many characters.
spec fn reads_as(t: Seq<char>, sign: Seq<char>, d: Seq<char>, point: int) -> bool {
    &&& after_sign(t) == sign.len()
    &&& is_number_from(t, sign.len() as int)
    &&& decimal_of(t).digits == d
    &&& decimal_of(t).point == point
    &&& decimal_of(t).negative == (sign.len() == 1)
    &&& is_digit(t[sign.len() as int])
    &&& forall|i: int|
        0 <= i < t.len() ==> is_digit(#[trigger] t[i]) || t[i] == '.' || t[i] == '-'
}

spec fn is_sign_text(sign: Seq<char>) -> bool {
    sign == Seq::<char>::empty() || sign == seq!['-']
}

proof fn lemma_small_reads(sign: Seq<char>, d: Seq<char>, point: int)
    requires
        is_trimmed(d),
        point <= 0,
        is_sign_text(sign),
    ensures
        reads_as(sign + seq!['0', '.'] + zeros(-point) + d, sign, d, point),
{
    let z = zeros(-point);
    let t = sign + seq!['0', '.'] + z + d;
    let p = sign.len() as int;
    let n = t.len() as int;
    let all = seq!['0'] + z + d;
    assert(t[p] == '0');
    assert(t[p + 1] == '.');
    assert forall|i: int| p + 2 <= i < n implies is_digit(#[trigger] t[i]) by {
        if i >= p + 2 + z.len() {
            assert(t[i] == d[i - p - 2 - z.len()]);
        }
    }
    lemma_digits_end_at(t, p, p + 1);
    lemma_digits_end_at(t, p + 2, n);
    assert(mantissa_digits(t, p) =~= all);
    assert(all[1 + z.len() as int] == d[0]);
    lemma_leading_zeros_at(all, 1 + z.len() as int);
    assert(all.skip(1 + z.len() as int) =~= d);
    assert(without_trailing_zeros(d) == d);
}

proof fn lemma_large_reads(sign: Seq<char>, d: Seq<char>, point: int)
    requires
        is_trimmed(d),
        point >= d.len(),
        is_sign_text(sign),
    ensures
        reads_as(sign + (d + zeros(point - d.len())), sign, d, point),
{
    let z = zeros(point - d.len());
    let all = d + z;
    let t = sign + all;
    let p = sign.len() as int;
    let n = t.len() as int;
    assert forall|i: int| p <= i < n implies is_digit(#[trigger] t[i]) by {
        if i < p + d.len() {
            assert(t[i] == d[i - p]);
        }
    }
    assert(t[p] == d[0]);
    assert(is_digit(d[0]));
    lemma_digits_end_at(t, p, n);
    assert(mantissa_digits(t, p) =~= all);
    assert(all[0] == d[0]);
    lemma_leading_zeros_at(all, 0);
    assert(all.skip(0) =~= all);
    lemma_zeros_trimmed(d, point - d.len());
}

proof fn lemma_middle_reads(sign: Seq<char>, d: Seq<char>, point: int)
    requires
        is_trimmed(d),
        0 < point < d.len(),
        is_sign_text(sign),
    ensures
        reads_as(sign + d.subrange(0, point) + seq!['.'] + d.skip(point), sign, d, point),
{
    let t = sign + d.subrange(0, point) + seq!['.'] + d.skip(point);
    let p = sign.len() as int;
    let n = t.len() as int;
    assert(t[p] == d[0]);
    assert(is_digit(d[0]));
    assert(t[p + point] == '.');
    assert forall|i: int| p <= i < n && i != p + point implies is_digit(#[trigger] t[i]) by {
        if i < p + point {
            assert(t[i] == d[i - p]);
        } else {
            assert(t[i] == d[i - p - 1]);
        }
    }
    lemma_digits_end_at(t, p, p + point);
    lemma_digits_end_at(t, p + point + 1, n);
    assert(mantissa_digits(t, p) =~= d);
    lemma_leading_zeros_at(d, 0);
    assert(d.skip(0) =~= d);
    assert(without_trailing_zeros(d) == d);
}

/// What the plain text of a magnitude is read as, after `sign`.
#[verifier::rlimit(40)]
proof fn lemma_magnitude_reads(sign: Seq<char>, d: Seq<char>, point: int)
    requires
        is_trimmed(d),
        -323 <= point <= 309,
        is_sign_text(sign),
    ensures
        reads_as(sign + magnitude_text(d, point), sign, d, point),
{
    let t = sign + magnitude_text(d, point);
    if point <= 0 {
        assert(t == sign + seq!['0', '.'] + zeros(-point) + d) by {
            reveal_strlit("0.");
            assert("0."@ =~= seq!['0', '.']);
            assert(t =~= sign + seq!['0', '.'] + zeros(-point) + d);
        }
        lemma_small_reads(sign, d, point);
    } else if point >= d.len() {
        lemma_large_reads(sign, d, point);
    } else {
        assert(t == sign + d.subrange(0, point) + seq!['.'] + d.skip(point)) by {
            reveal_strlit(".");
            assert("."@ =~= seq!['.']);
            assert(t =~= sign + d.subrange(0, point) + seq!['.'] + d.skip(point));
        }
        lemma_middle_reads(sign, d, point);
    }
}

/// The plain text of a number within the range of a double is one itself, is its
/// own plain text, and has no characters but digits, a point and a minus sign, of
/// which it does not start with the point.
pub proof fn law_plain_is_plain(s: Seq<char>)
    requires
        is_finite_text(s),
    ensures
        is_finite_text(plain_number(s)),
        plain_number(plain_number(s)) == plain_number(s),
        plain_number(s).len() > 0,
        is_digit(plain_number(s)[0]) || plain_number(s)[0] == '-',
        forall|i: int|
            0 <= i < plain_number(s).len() ==> is_digit(#[trigger] plain_number(s)[i])
                || plain_number(s)[i] == '.' || plain_number(s)[i] == '-',
{
    let d = decimal_of(s);
    let t = plain_number(s);
    if d.digits.len() == 0 || d.point < -323 {
        reveal_strlit("0");
        reveal_strlit("-0");
        let p: int = if d.negative {
            1
        } else {
            0
        };
        if d.negative {
            assert(t =~= seq!['-', '0']);
        } else {
            assert(t =~= seq!['0']);
        }
        lemma_digits_end_at(t, p, p + 1);
        assert(mantissa_digits(t, p) =~= seq!['0']);
        lemma_leading_zeros_at(seq!['0'], 1);
        assert(seq!['0'].skip(1) =~= Seq::<char>::empty());
        assert(decimal_of(t).digits.len() == 0);
    } else {
        lemma_digits_are_trimmed(s);
        reveal_strlit("-");
        let sign = if d.negative {
            seq!['-']
        } else {
            Seq::empty()
        };
        assert("-"@ =~= seq!['-']);
        assert(t =~= sign + magnitude_text(d.digits, d.point));
        lemma_magnitude_reads(sign, d.digits, d.point);
    }
}

/// A number written plainly, zero without a sign, is written as it is.
pub proof fn law_unsigned_is_plain(s: Seq<char>)
    requires
        is_finite_text(s),
    ensures
        is_finite_text(unsigned_plain(s)),
        plain_number(unsigned_plain(s)) == unsigned_plain(s),
        unsigned_plain(unsigned_plain(s)) == unsigned_plain(s),
        unsigned_plain(s).len() > 0,
        forall|i: int|
            0 <= i < unsigned_plain(s).len() ==> is_digit(#[trigger] unsigned_plain(s)[i])
                || unsigned_plain(s)[i] == '.' || unsigned_plain(s)[i] == '-',
{
    law_plain_is_plain(s);
    if plain_number(s) == "-0"@ {
        reveal_strlit("0");
        reveal_strlit("-0");
        let t = "0"@;
        assert(t =~= seq!['0']);
        lemma_digits_end_at(t, 0, 1);
        assert(mantissa_digits(t, 0) =~= seq!['0']);
        lemma_leading_zeros_at(seq!['0'], 1);
        assert(seq!['0'].skip(1) =~= Seq::<char>::empty());
        assert(decimal_of(t).digits.len() == 0);
    }
}

proof fn lemma_zeros_come_back(s: Seq<char>)
    ensures
        without_trailing_zeros(s).len() <= s.len(),
        s == without_trailing_zeros(s) + zeros(s.len() - without_trailing_zeros(s).len()),
    decreases s.len(),
{
    let w = without_trailing_zeros(s);
    if s.len() > 0 && s.last() == '0' {
        let t = s.drop_last();
        lemma_zeros_come_back(t);
        assert(zeros(s.len() - w.len()) =~= zeros(t.len() - w.len()).push('0'));
        assert(s =~= t.push('0'));
        assert(t.push('0') =~= w + zeros(t.len() - w.len()).push('0'));
    } else {
        assert(s =~= w + zeros(0));
    }
}

spec fn tens(k: nat) -> nat
    decreases k,
{
    if k == 0 {
        1
    } else {
        10 * tens((k - 1) as nat)
    }
}

proof fn lemma_numeral_size(n: nat, k: nat)
    requires
        n < tens(k),
        k > 0,
    ensures
        decimal(n).len() <= k,
        n > 0 ==> decimal(n)[0] != '0',
    decreases n,
{
    if n >= 10 {
        if k == 1 {
            assert(tens(1) == 10) by {
                reveal_with_fuel(tens, 2);
            }
        }
        lemma_numeral_size(n / 10, (k - 1) as nat);
    }
}

/// The numeral of a number is its plain text.
pub proof fn law_numeral_is_plain(n: int)
    requires
        i64::MIN <= n <= i64::MAX,
    ensures
        plain_number(signed_decimal(n)) == signed_decimal(n),
{
    let m = if n < 0 {
        (-n) as nat
    } else {
        n as nat
    };
    let d = decimal(m);
    let s = signed_decimal(n);
    let p: int = if n < 0 {
        1
    } else {
        0
    };
    lemma_decimal_digits(m);
    assert(tens(20) > 0x8000_0000_0000_0000) by {
        reveal_with_fuel(tens, 21);
    }
    lemma_numeral_size(m, 20);
    reveal_strlit("0");
    reveal_strlit("-");
    assert("-"@ =~= seq!['-']);
    assert forall|i: int| p <= i < s.len() implies is_digit(#[trigger] s[i]) by {
        assert(s[i] == d[i - p]);
    }
    assert(is_digit(d[0]));
    lemma_digits_reach(s, p);
    assert(mantissa_digits(s, p) =~= d);
    if m == 0 {
        assert(d =~= seq!['0']);
        lemma_leading_zeros_at(d, 1);
        assert(d.skip(1) =~= Seq::<char>::empty());
        assert(s =~= "0"@);
    } else {
        lemma_leading_zeros_at(d, 0);
        assert(d.skip(0) =~= d);
        lemma_trailing_zeros(d);
        lemma_zeros_come_back(d);
        let w = without_trailing_zeros(d);
        assert(magnitude_text(w, d.len() as int) =~= d);
    }
}

} // verus!
