//! The number that a numeral stands for, and that writing it another way keeps it.
use vstd::prelude::*;

use crate::decimal::{
    decimal_of, exponent_value, is_finite_text, leading_zeros, magnitude_text, mantissa_digits,
    plain_number, unsigned_plain, without_trailing_zeros, zeros,
};
use crate::number::{
    after_sign, digits_end, digits_value, exponent_digits, integer_of, is_digit, is_number_from,
    is_sign, lemma_decimal_digits, lemma_digits_end, mantissa_end,
};
use crate::text::{decimal, digit_char, signed_decimal};

verus! {

// --- numerals ------------------------------------------------------------------------------

/// A numeral by its parts: a sign or none, the digits before the point, those after it
/// where there is a point, and the letter, the sign and the digits of an exponent.
pub struct Numeral {
    pub sign: Seq<char>,
    pub whole: Seq<char>,
    pub fraction: Option<Seq<char>>,
    pub exponent: Option<(char, Seq<char>, Seq<char>)>,
}

pub open spec fn are_digits(s: Seq<char>) -> bool {
    forall|i: int| 0 <= i < s.len() ==> '0' <= #[trigger] s[i] <= '9'
}

pub open spec fn is_sign_or_none(s: Seq<char>) -> bool {
    s.len() == 0 || s == seq!['-'] || s == seq!['+']
}

/// The number whose digits are `s`, the last one counting once, and each other ten times
/// what the next one does.
pub open spec fn count(s: Seq<char>) -> nat
    decreases s.len(),
{
    if s.len() == 0 {
        0
    } else {
        10 * count(s.drop_last()) + (s.last() as int - '0' as int) as nat
    }
}

/// Ten to the power `k`.
pub open spec fn ten(k: nat) -> nat
    decreases k,
{
    if k == 0 {
        1
    } else {
        10 * ten((k - 1) as nat)
    }
}

impl Numeral {
    pub open spec fn is_numeral(self) -> bool {
        &&& is_sign_or_none(self.sign)
        &&& are_digits(self.whole)
        &&& self.fraction matches Some(f) ==> are_digits(f)
        &&& self.whole.len() > 0 || (self.fraction matches Some(f) && f.len() > 0)
        &&& self.exponent matches Some((letter, sign, digits)) ==> {
            &&& letter == 'e' || letter == 'E'
            &&& is_sign_or_none(sign)
            &&& are_digits(digits)
            &&& digits.len() > 0
        }
    }

    pub open spec fn fraction_text(self) -> Seq<char> {
        match self.fraction {
            Some(f) => seq!['.'] + f,
            None => Seq::empty(),
        }
    }

    pub open spec fn exponent_text(self) -> Seq<char> {
        match self.exponent {
            Some((letter, sign, digits)) => seq![letter] + sign + digits,
            None => Seq::empty(),
        }
    }

    pub open spec fn text(self) -> Seq<char> {
        self.sign + self.whole + self.fraction_text() + self.exponent_text()
    }

    /// All digits before the exponent.
    pub open spec fn digits(self) -> Seq<char> {
        match self.fraction {
            Some(f) => self.whole + f,
            None => self.whole,
        }
    }

    /// The exponent that is stated.
    pub open spec fn stated(self) -> int {
        match self.exponent {
            Some((_, sign, digits)) => if sign == seq!['-'] {
                -(count(digits) as int)
            } else {
                count(digits) as int
            },
            None => 0,
        }
    }

    /// The integer which, times ten to the `power`, is the number.
    pub open spec fn mantissa(self) -> int {
        if self.sign == seq!['-'] {
            -(count(self.digits()) as int)
        } else {
            count(self.digits()) as int
        }
    }

    pub open spec fn power(self) -> int {
        self.stated() - match self.fraction {
            Some(f) => f.len() as int,
            None => 0,
        }
    }
}

/// Whether two numerals stand for the same number: for the same integer times the same
/// power of ten.
pub open spec fn same_worth(a: Numeral, b: Numeral) -> bool {
    exists|c: int, x: int| #[trigger] is_worth(a, c, x) && is_worth(b, c, x)
}

/// Whether a numeral stands for an integer times ten to a power.
pub open spec fn is_worth(a: Numeral, c: int, x: int) -> bool {
    x >= a.power() && a.mantissa() == c * ten((x - a.power()) as nat)
}

/// Whether two texts are numerals of the same number.
pub open spec fn same_number(s: Seq<char>, t: Seq<char>) -> bool {
    exists|a: Numeral, b: Numeral|
        #![trigger a.text(), b.text()]
        a.is_numeral() && a.text() == s && b.is_numeral() && b.text() == t && same_worth(a, b)
}

/// Whether a numeral stands for a number that is not zero and less than 1e-324.
pub open spec fn is_tiny(a: Numeral) -> bool {
    &&& a.mantissa() != 0
    &&& a.power() < -324
    &&& (if a.mantissa() < 0 {
        -a.mantissa()
    } else {
        a.mantissa()
    }) < ten((-324 - a.power()) as nat)
}

/// Whether a text is the numeral of a number that is not zero and less than 1e-324.
pub open spec fn is_tiny_text(s: Seq<char>) -> bool {
    exists|a: Numeral| a.is_numeral() && #[trigger] a.text() == s && is_tiny(a)
}

// --- counting ------------------------------------------------------------------------------

proof fn lemma_ten_sum(a: nat, b: nat)
    ensures
        ten(a + b) == ten(a) * ten(b),
    decreases a,
{
    if a == 0 {
        assert(1 * ten(b) == ten(b));
    } else {
        lemma_ten_sum((a - 1) as nat, b);
        let x = ten((a - 1) as nat);
        let y = ten(b);
        assert((a - 1 + b) as nat == (a + b - 1) as nat);
        assert(10 * (x * y) == (10 * x) * y) by (nonlinear_arith);
    }
}

proof fn lemma_ten_grows(a: nat, b: nat)
    requires
        a <= b,
    ensures
        1 <= ten(a) <= ten(b),
    decreases b,
{
    if a < b {
        lemma_ten_grows(a, (b - 1) as nat);
    } else if a > 0 {
        lemma_ten_grows((a - 1) as nat, (a - 1) as nat);
    }
}

proof fn lemma_count_sum(a: Seq<char>, b: Seq<char>)
    ensures
        count(a + b) == count(a) * ten(b.len()) + count(b),
    decreases b.len(),
{
    if b.len() == 0 {
        assert(a + b =~= a);
        assert(count(a) * 1 == count(a));
    } else {
        lemma_count_sum(a, b.drop_last());
        assert((a + b).drop_last() =~= a + b.drop_last());
        assert((a + b).last() == b.last());
        let x = count(a);
        let y = ten((b.len() - 1) as nat);
        let z = count(b.drop_last());
        assert(10 * (x * y + z) == x * (10 * y) + 10 * z) by (nonlinear_arith);
    }
}

proof fn lemma_count_zeros(s: Seq<char>)
    requires
        forall|i: int| 0 <= i < s.len() ==> s[i] == '0',
    ensures
        count(s) == 0,
    decreases s.len(),
{
    if s.len() > 0 {
        lemma_count_zeros(s.drop_last());
    }
}

proof fn lemma_count_less(s: Seq<char>)
    requires
        are_digits(s),
    ensures
        count(s) < ten(s.len()),
    decreases s.len(),
{
    if s.len() > 0 {
        assert forall|i: int| 0 <= i < s.drop_last().len() implies '0' <= #[trigger] s.drop_last()[i]
            <= '9' by {
            assert(s.drop_last()[i] == s[i]);
        }
        lemma_count_less(s.drop_last());
        assert('0' <= s[s.len() - 1] <= '9');
    }
}

proof fn lemma_count_is_value(s: Seq<char>, p: int, q: int)
    requires
        0 <= p <= q <= s.len(),
    ensures
        digits_value(s, p, q) == count(s.subrange(p, q)),
    decreases q - p,
{
    if p < q {
        lemma_count_is_value(s, p, q - 1);
        assert(s.subrange(p, q).drop_last() =~= s.subrange(p, q - 1));
        assert(s.subrange(p, q).last() == s[q - 1]);
    } else {
        assert(s.subrange(p, q) =~= Seq::empty());
    }
}

// --- the parts of a text -------------------------------------------------------------------

proof fn lemma_run_ends(s: Seq<char>, p: int, q: int)
    requires
        0 <= p <= q <= s.len(),
        forall|i: int| p <= i < q ==> is_digit(#[trigger] s[i]),
        q < s.len() ==> !is_digit(s[q]),
    ensures
        digits_end(s, p) == q,
    decreases q - p,
{
    if p < q {
        assert(is_digit(s[p]));
        lemma_run_ends(s, p + 1, q);
    }
}

/// Where the parts of a numeral stand in its text.
proof fn lemma_parts(a: Numeral)
    requires
        a.is_numeral(),
    ensures
        ({
            let s = a.text();
            let p = a.sign.len() as int;
            let m = p + a.whole.len() + a.fraction_text().len();
            &&& after_sign(s) == p
            &&& digits_end(s, p) == p + a.whole.len()
            &&& mantissa_end(s, p) == m
            &&& is_number_from(s, p)
            &&& mantissa_digits(s, p) == a.digits()
            &&& exponent_value(s, m) == a.stated()
            &&& (s.len() > 0 && s[0] == '-') == (a.sign == seq!['-'])
        }),
{
    let s = a.text();
    let p = a.sign.len() as int;
    let w = p + a.whole.len();
    let m = w + a.fraction_text().len();
    let e = a.exponent_text();
    assert(p <= 1);
    assert forall|i: int| p <= i < w implies is_digit(#[trigger] s[i]) by {
        assert(s[i] == a.whole[i - p]);
    }
    if e.len() > 0 {
        assert(s[m] == e[0]);
        assert(!is_digit(s[m]) && s[m] != '.');
    } else {
        assert(m == s.len());
    }
    if let Some(f) = a.fraction {
        assert(a.fraction_text()[0] == '.');
        assert(s[w] == '.');
        assert forall|i: int| w + 1 <= i < m implies is_digit(#[trigger] s[i]) by {
            assert(s[i] == a.fraction_text()[i - w]);
            assert(s[i] == f[i - w - 1]);
        }
        lemma_run_ends(s, p, w);
        lemma_run_ends(s, w + 1, m);
        assert(s.subrange(p, w) =~= a.whole);
        assert(s.subrange(w + 1, m) =~= f);
        if f.len() == 0 {
            assert(a.whole + f =~= a.whole);
        }
    } else {
        assert(w == m);
        lemma_run_ends(s, p, w);
        assert(s.subrange(p, w) =~= a.whole);
    }
    if p == 1 {
        assert(s[0] == a.sign[0]);
        assert(is_sign(s[0]));
        assert(seq!['-'][0] == '-' && seq!['+'][0] == '+');
    } else {
        assert(a.sign =~= Seq::empty());
        assert(s.len() > 0);
        if a.whole.len() > 0 {
            assert(is_digit(s[0]));
        } else {
            assert(s[0] == '.');
        }
    }
    if let Some((letter, sign, digits)) = a.exponent {
        let d = m + 1 + sign.len();
        assert forall|i: int| d <= i < s.len() implies is_digit(#[trigger] s[i]) by {
            assert(s[i] == e[i - m]);
            assert(s[i] == digits[i - d]);
        }
        assert(d < s.len());
        if sign.len() == 1 {
            assert(s[m + 1] == e[1]);
            assert(e[1] == sign[0]);
            assert(is_sign(s[m + 1]));
        } else {
            assert(is_digit(s[d]));
        }
        assert(exponent_digits(s, m) == d);
        lemma_run_ends(s, d, s.len() as int);
        lemma_count_is_value(s, d, s.len() as int);
        assert(s.subrange(d, s.len() as int) =~= digits);
        assert((s[m + 1] == '-') == (sign == seq!['-'])) by {
            if sign.len() == 1 {
                assert(seq!['-'][0] == '-' && seq!['+'][0] == '+');
            } else {
                assert(seq!['-'].len() == 1);
            }
        }
    }
}

/// Every text that is a number is a numeral.
pub proof fn lemma_numeral_of(s: Seq<char>) -> (a: Numeral)
    requires
        is_number_from(s, after_sign(s)),
    ensures
        a.is_numeral(),
        a.text() == s,
{
    let p = after_sign(s);
    let w = digits_end(s, p);
    let m = mantissa_end(s, p);
    lemma_digits_end(s, p);
    if w < s.len() {
        lemma_digits_end(s, w + 1);
    }
    let fraction = if w < s.len() && s[w] == '.' {
        Some(s.subrange(w + 1, m))
    } else {
        None
    };
    let exponent = if m < s.len() {
        let d = exponent_digits(s, m);
        Some((s[m], s.subrange(m + 1, d), s.subrange(d, s.len() as int)))
    } else {
        None
    };
    let a = Numeral { sign: s.subrange(0, p), whole: s.subrange(p, w), fraction, exponent };
    if p == 1 {
        assert(a.sign =~= seq![s[0]]);
    }
    assert(are_digits(a.whole)) by {
        assert forall|i: int| 0 <= i < a.whole.len() implies '0' <= #[trigger] a.whole[i] <= '9' by {
            assert(is_digit(s[p + i]));
        }
    }
    if let Some(f) = fraction {
        assert forall|i: int| 0 <= i < f.len() implies '0' <= #[trigger] f[i] <= '9' by {
            assert(is_digit(s[w + 1 + i]));
        }
    }
    if let Some((letter, sign, digits)) = exponent {
        let d = exponent_digits(s, m);
        lemma_digits_end(s, d);
        assert forall|i: int| 0 <= i < digits.len() implies '0' <= #[trigger] digits[i] <= '9' by {
            assert(is_digit(s[d + i]));
        }
        if d == m + 2 {
            assert(sign =~= seq![s[m + 1]]);
        }
        assert(a.exponent_text() =~= s.subrange(m, s.len() as int));
    } else {
        assert(a.exponent_text() =~= s.subrange(m, s.len() as int));
    }
    assert(a.fraction_text() =~= s.subrange(w, m));
    assert(a.text() =~= s);
    a
}

// --- what a decimal is worth ---------------------------------------------------------------

/// The digits of a decimal are those of the text, without zeros at the ends.
proof fn lemma_trimmed_count(all: Seq<char>)
    requires
        are_digits(all),
    ensures
        ({
            let k = leading_zeros(all) as int;
            let d = without_trailing_zeros(all.skip(k));
            let j = all.len() - k - d.len();
            &&& 0 <= k
            &&& 0 <= j
            &&& are_digits(d)
            &&& count(all) == count(d) * ten(j as nat)
            &&& d.len() > 0 ==> count(d) > 0
        }),
{
    let k = leading_zeros(all) as int;
    lemma_leading(all);
    let rest = all.skip(k);
    lemma_trailing(rest);
    let d = without_trailing_zeros(rest);
    let j = rest.len() - d.len();
    let front = all.take(k);
    let tail = rest.skip(d.len() as int);
    assert(all =~= front + rest);
    assert(rest =~= d + tail);
    lemma_count_sum(front, rest);
    lemma_count_sum(d, tail);
    lemma_count_zeros(front);
    lemma_count_zeros(tail);
    assert(0 * ten(rest.len()) == 0) by (nonlinear_arith);
    assert forall|i: int| 0 <= i < d.len() implies '0' <= #[trigger] d[i] <= '9' by {
        assert(d[i] == all[k + i]);
    }
    if d.len() > 0 {
        assert(d.last() != '0');
        assert('0' <= d[d.len() - 1] <= '9');
    }
}

proof fn lemma_leading(s: Seq<char>)
    ensures
        leading_zeros(s) <= s.len(),
        forall|i: int| 0 <= i < leading_zeros(s) ==> s[i] == '0',
    decreases s.len(),
{
    if s.len() > 0 && s[0] == '0' {
        lemma_leading(s.drop_first());
        assert forall|i: int| 0 <= i < leading_zeros(s) implies s[i] == '0' by {
            if i > 0 {
                assert(s.drop_first()[i - 1] == s[i]);
            }
        }
    }
}

proof fn lemma_trailing(s: Seq<char>)
    ensures
        without_trailing_zeros(s).len() <= s.len(),
        without_trailing_zeros(s) == s.take(without_trailing_zeros(s).len() as int),
        forall|i: int| without_trailing_zeros(s).len() <= i < s.len() ==> s[i] == '0',
        without_trailing_zeros(s).len() > 0 ==> without_trailing_zeros(s).last() != '0',
    decreases s.len(),
{
    let w = without_trailing_zeros(s);
    if s.len() > 0 && s.last() == '0' {
        let t = s.drop_last();
        lemma_trailing(t);
        assert(s.take(w.len() as int) =~= t.take(w.len() as int));
        assert forall|i: int| w.len() <= i < s.len() implies s[i] == '0' by {
            if i < t.len() {
                assert(t[i] == s[i]);
            }
        }
    } else {
        assert(s.take(s.len() as int) =~= s);
    }
}

/// The signed count of some digits.
spec fn signed_count(negative: bool, d: Seq<char>) -> int {
    if negative {
        -(count(d) as int)
    } else {
        count(d) as int
    }
}

proof fn lemma_decimal_worth(a: Numeral)
    requires
        a.is_numeral(),
    ensures
        ({
            let d = decimal_of(a.text());
            &&& are_digits(d.digits)
            &&& d.negative == (a.sign == seq!['-'])
            &&& d.digits.len() > 0 ==> is_worth(
                a,
                signed_count(d.negative, d.digits),
                d.point - d.digits.len(),
            )
            &&& d.digits.len() == 0 <==> a.mantissa() == 0
            &&& d.digits.len() > 0 && d.point < -323 ==> is_tiny(a)
        }),
{
    let s = a.text();
    let d = decimal_of(s);
    let all = a.digits();
    lemma_parts(a);
    assert(are_digits(all)) by {
        assert forall|i: int| 0 <= i < all.len() implies '0' <= #[trigger] all[i] <= '9' by {
            if i < a.whole.len() {
                assert(all[i] == a.whole[i]);
            } else {
                assert(all[i] == a.fraction->0[i - a.whole.len()]);
            }
        }
    }
    lemma_trimmed_count(all);
    let k = leading_zeros(all) as int;
    let j = all.len() - k - d.digits.len();
    let x = d.point - d.digits.len();
    assert(x - a.power() == j);
    let c = count(d.digits) as int;
    let y = ten(j as nat) as int;
    assert(-(c * y) == (-c) * y) by (nonlinear_arith);
    if d.digits.len() == 0 {
        assert(count(d.digits) == 0);
        assert(0 * ten(j as nat) == 0) by (nonlinear_arith);
    } else {
        lemma_ten_grows(0, j as nat);
        assert(c * y > 0) by (nonlinear_arith)
            requires
                c > 0,
                y >= 1,
        ;
        if d.point < -323 {
            lemma_count_less(d.digits);
            let n = d.digits.len();
            lemma_ten_sum(n, j as nat);
            assert(c * y < ten(n) * ten(j as nat)) by (nonlinear_arith)
                requires
                    c < ten(n),
                    y == ten(j as nat),
                    y >= 1,
            ;
            lemma_ten_grows(n + j as nat, (-324 - a.power()) as nat);
        }
    }
}

/// A text is one numeral.
proof fn lemma_numeral_is_one(a: Numeral, b: Numeral)
    requires
        a.is_numeral(),
        b.is_numeral(),
        a.text() == b.text(),
    ensures
        a.mantissa() == b.mantissa(),
        a.power() == b.power(),
{
    lemma_parts(a);
    lemma_parts(b);
    assert(a.digits() == b.digits());
    assert(a.whole.len() == b.whole.len());
}

/// Two texts of the number that a third one has are of one number.
pub proof fn lemma_same_number_joins(s: Seq<char>, t: Seq<char>, u: Seq<char>)
    requires
        same_number(s, t),
        same_number(t, u),
    ensures
        same_number(s, u),
{
    let (a, b) = choose|a: Numeral, b: Numeral|
        #![trigger a.text(), b.text()]
        a.is_numeral() && a.text() == s && b.is_numeral() && b.text() == t && same_worth(a, b);
    let (e, f) = choose|e: Numeral, f: Numeral|
        #![trigger e.text(), f.text()]
        e.is_numeral() && e.text() == t && f.is_numeral() && f.text() == u && same_worth(e, f);
    lemma_numeral_is_one(b, e);
    let (c, x) = choose|c: int, x: int| #[trigger] is_worth(a, c, x) && is_worth(b, c, x);
    let (d, y) = choose|d: int, y: int| #[trigger] is_worth(e, d, y) && is_worth(f, d, y);
    assert(is_worth(b, d, y));
    if x >= y {
        lemma_worth_moves(b, c, x, d, y);
        lemma_more_worth(f, c, x, d, y);
        assert(is_worth(a, c, x) && is_worth(f, c, x));
    } else {
        lemma_worth_moves(b, d, y, c, x);
        lemma_more_worth(a, d, y, c, x);
        assert(is_worth(a, d, y) && is_worth(f, d, y));
    }
    assert(a.text() == s && f.text() == u);
}

/// What a numeral is worth at two powers.
proof fn lemma_worth_moves(b: Numeral, c: int, x: int, d: int, y: int)
    requires
        is_worth(b, c, x),
        is_worth(b, d, y),
        x >= y,
    ensures
        d == c * ten((x - y) as nat),
{
    let p = b.power();
    let u = ten((x - y) as nat) as int;
    let v = ten((y - p) as nat) as int;
    lemma_ten_sum((x - y) as nat, (y - p) as nat);
    assert((x - y) as nat + (y - p) as nat == (x - p) as nat);
    lemma_ten_grows(0, (y - p) as nat);
    assert(c * (u * v) == (c * u) * v) by (nonlinear_arith);
    assert(d == c * u) by (nonlinear_arith)
        requires
            (c * u) * v == d * v,
            v >= 1,
    ;
}

/// What is worth an integer at a power, and that a multiple of a power of ten, is worth the
/// factor at a higher power.
proof fn lemma_more_worth(a: Numeral, c: int, x: int, d: int, y: int)
    requires
        is_worth(a, d, y),
        x >= y,
        d == c * ten((x - y) as nat),
    ensures
        is_worth(a, c, x),
{
    let p = a.power();
    let u = ten((x - y) as nat) as int;
    let v = ten((y - p) as nat) as int;
    lemma_ten_sum((x - y) as nat, (y - p) as nat);
    assert((x - y) as nat + (y - p) as nat == (x - p) as nat);
    assert(c * (u * v) == (c * u) * v) by (nonlinear_arith);
}

// --- plain texts ---------------------------------------------------------------------------

/// The numeral that a plain text is.
spec fn plain_numeral(negative: bool, d: Seq<char>, point: int) -> Numeral {
    let sign = if negative {
        seq!['-']
    } else {
        Seq::empty()
    };
    if point <= 0 {
        Numeral { sign, whole: seq!['0'], fraction: Some(zeros(-point) + d), exponent: None }
    } else if point >= d.len() {
        Numeral { sign, whole: d + zeros(point - d.len()), fraction: None, exponent: None }
    } else {
        Numeral {
            sign,
            whole: d.subrange(0, point),
            fraction: Some(d.skip(point)),
            exponent: None,
        }
    }
}

proof fn lemma_digits_join(a: Seq<char>, b: Seq<char>)
    requires
        are_digits(a),
        are_digits(b),
    ensures
        are_digits(a + b),
{
    assert forall|i: int| 0 <= i < (a + b).len() implies '0' <= #[trigger] (a + b)[i] <= '9' by {
        if i < a.len() {
            assert((a + b)[i] == a[i]);
        } else {
            assert((a + b)[i] == b[i - a.len()]);
        }
    }
}

proof fn lemma_plain_numeral(negative: bool, d: Seq<char>, point: int)
    requires
        are_digits(d),
        d.len() > 0,
        point <= 309,
    ensures
        ({
            let b = plain_numeral(negative, d, point);
            &&& b.is_numeral()
            &&& b.text() == (if negative {
                seq!['-']
            } else {
                Seq::empty()
            }) + magnitude_text(d, point)
            &&& is_worth(b, signed_count(negative, d), point - d.len())
        }),
{
    let b = plain_numeral(negative, d, point);
    let c = count(d) as int;
    reveal_strlit("0.");
    reveal_strlit(".");
    assert("0."@ =~= seq!['0', '.']);
    assert("."@ =~= seq!['.']);
    assert(Seq::<char>::empty() != seq!['-']) by {
        assert(seq!['-'].len() == 1);
    }
    if point <= 0 {
        let z = zeros(-point);
        assert(are_digits(z));
        lemma_digits_join(z, d);
        lemma_count_zeros(seq!['0'] + z);
        lemma_count_sum(seq!['0'] + z, d);
        assert(b.digits() =~= (seq!['0'] + z) + d);
        assert(0 * ten(d.len()) == 0) by (nonlinear_arith);
        assert(b.text() =~= b.sign + magnitude_text(d, point));
        assert(c * 1 == c && (-c) * 1 == -c);
    } else if point >= d.len() {
        let z = zeros(point - d.len());
        assert(are_digits(z));
        lemma_digits_join(d, z);
        lemma_count_zeros(z);
        lemma_count_sum(d, z);
        assert(b.text() =~= b.sign + magnitude_text(d, point));
        let y = ten(z.len()) as int;
        assert(-(c * y) == (-c) * y) by (nonlinear_arith);
    } else {
        let front = d.subrange(0, point);
        let back = d.skip(point);
        assert forall|i: int| 0 <= i < front.len() implies '0' <= #[trigger] front[i] <= '9' by {
            assert(front[i] == d[i]);
        }
        assert forall|i: int| 0 <= i < back.len() implies '0' <= #[trigger] back[i] <= '9' by {
            assert(back[i] == d[point + i]);
        }
        assert(b.digits() =~= d);
        assert(b.text() =~= b.sign + magnitude_text(d, point));
        assert(c * 1 == c && (-c) * 1 == -c);
    }
}

/// A numeral of zero.
spec fn zero_numeral(negative: bool) -> Numeral {
    Numeral {
        sign: if negative {
            seq!['-']
        } else {
            Seq::empty()
        },
        whole: seq!['0'],
        fraction: None,
        exponent: None,
    }
}

proof fn lemma_zero_numeral(negative: bool)
    ensures
        zero_numeral(negative).is_numeral(),
        zero_numeral(negative).text() == (if negative {
            "-0"@
        } else {
            "0"@
        }),
        zero_numeral(negative).mantissa() == 0,
        zero_numeral(negative).power() == 0,
{
    let b = zero_numeral(negative);
    reveal_strlit("0");
    reveal_strlit("-0");
    lemma_count_zeros(seq!['0']);
    assert(b.text() =~= if negative {
        "-0"@
    } else {
        "0"@
    });
}

/// Two numerals of zero stand for the same number.
proof fn lemma_zeros_are_one(a: Numeral, b: Numeral)
    requires
        a.mantissa() == 0,
        b.mantissa() == 0,
    ensures
        same_worth(a, b),
{
    let x = if a.power() > b.power() {
        a.power()
    } else {
        b.power()
    };
    assert(0 * ten((x - a.power()) as nat) == 0) by (nonlinear_arith);
    assert(0 * ten((x - b.power()) as nat) == 0) by (nonlinear_arith);
    assert(is_worth(a, 0, x) && is_worth(b, 0, x));
}

/// A number written plainly is the same number, sign and all, whatever way it was written
/// before. Left out are numbers beyond the range of a double, above and below.
pub proof fn law_plain_text_is_the_same_number(s: Seq<char>)
    requires
        is_finite_text(s),
        !is_tiny_text(s),
    ensures
        same_number(s, plain_number(s)),
        s[0] == '-' <==> plain_number(s)[0] == '-',
{
    let a = lemma_numeral_of(s);
    let d = decimal_of(s);
    lemma_decimal_worth(a);
    lemma_parts(a);
    assert(a.text() == s);
    assert(s.len() > 0);
    if d.digits.len() == 0 || d.point < -323 {
        assert(d.digits.len() == 0);
        let b = zero_numeral(d.negative);
        lemma_zero_numeral(d.negative);
        lemma_zeros_are_one(a, b);
        reveal_strlit("0");
        reveal_strlit("-0");
        assert(a.text() == s && b.text() == plain_number(s));
    } else {
        let b = plain_numeral(d.negative, d.digits, d.point);
        lemma_plain_numeral(d.negative, d.digits, d.point);
        reveal_strlit("-");
        assert("-"@ =~= seq!['-']);
        assert(b.text() =~= plain_number(s));
        let c = signed_count(d.negative, d.digits);
        let x = d.point - d.digits.len();
        assert(is_worth(a, c, x) && is_worth(b, c, x));
        assert(a.text() == s && b.text() == plain_number(s));
        lemma_parts(b);
    }
}

/// The same holds where a zero is written without its sign.
pub proof fn law_unsigned_text_is_the_same_number(s: Seq<char>)
    requires
        is_finite_text(s),
        !is_tiny_text(s),
    ensures
        same_number(s, unsigned_plain(s)),
{
    law_plain_text_is_the_same_number(s);
    if plain_number(s) == "-0"@ {
        let (a, c) = choose|a: Numeral, c: Numeral|
            #![trigger a.text(), c.text()]
            a.is_numeral() && a.text() == s && c.is_numeral() && c.text() == plain_number(s)
                && same_worth(a, c);
        let minus = zero_numeral(true);
        let b = zero_numeral(false);
        lemma_zero_numeral(true);
        lemma_zero_numeral(false);
        lemma_decimal_worth(a);
        lemma_decimal_worth(minus);
        let d = decimal_of(s);
        assert(d.digits.len() == 0) by {
            lemma_plain_zero(s);
        }
        lemma_zeros_are_one(a, b);
        assert(a.text() == s && b.text() == "0"@);
    }
}

/// Only a number without digits is written as a zero with a sign.
proof fn lemma_plain_zero(s: Seq<char>)
    requires
        is_finite_text(s),
        !is_tiny_text(s),
        plain_number(s) == "-0"@,
    ensures
        decimal_of(s).digits.len() == 0,
{
    let a = lemma_numeral_of(s);
    let d = decimal_of(s);
    lemma_decimal_worth(a);
    assert(a.text() == s);
    if d.digits.len() > 0 {
        let b = plain_numeral(d.negative, d.digits, d.point);
        lemma_plain_numeral(d.negative, d.digits, d.point);
        reveal_strlit("-");
        assert("-"@ =~= seq!['-']);
        assert(b.text() =~= plain_number(s));
        lemma_decimal_worth(b);
        lemma_zero_numeral(true);
        lemma_decimal_worth(zero_numeral(true));
        assert(b.mantissa() != 0) by {
            let c = signed_count(d.negative, d.digits);
            let x = d.point - d.digits.len();
            lemma_ten_grows(0, (x - b.power()) as nat);
            lemma_ten_grows(0, (x - a.power()) as nat);
            let y = ten((x - b.power()) as nat) as int;
            assert(c != 0) by {
                let z = ten((x - a.power()) as nat) as int;
                assert(a.mantissa() == c * z);
                assert(c == 0 ==> c * z == 0) by (nonlinear_arith);
            }
            assert(c * y != 0) by (nonlinear_arith)
                requires
                    c != 0,
                    y >= 1,
            ;
        }
        assert(false);
    }
}

/// An integer's numeral stands for the integer.
pub proof fn law_integer_is_its_numeral(s: Seq<char>)
    requires
        integer_of(s) is Some,
    ensures
        same_number(s, signed_decimal(integer_of(s)->0)),
        exists|a: Numeral|
            #[trigger] a.text() == s && a.is_numeral() && a.power() == 0 && a.mantissa()
                == integer_of(s)->0,
{
    let n = integer_of(s)->0;
    let p = after_sign(s);
    lemma_digits_end(s, p);
    let a = Numeral {
        sign: s.subrange(0, p),
        whole: s.subrange(p, s.len() as int),
        fraction: None,
        exponent: None,
    };
    assert forall|i: int| 0 <= i < a.whole.len() implies '0' <= #[trigger] a.whole[i] <= '9' by {
        assert(is_digit(s[p + i]));
    }
    if p == 1 {
        assert(a.sign =~= seq![s[0]]);
        assert(seq!['-'][0] == '-' && seq!['+'][0] == '+');
    } else {
        assert(a.sign =~= Seq::empty());
        assert(seq!['-'].len() == 1);
        assert(is_digit(s[0]));
    }
    lemma_count_is_value(s, p, s.len() as int);
    assert(a.text() =~= s);
    assert((a.sign == seq!['-']) == (s[0] == '-'));
    assert(a.mantissa() == n);
    let b = lemma_integer_numeral(n);
    assert(ten(0) == 1);
    assert(n * 1 == n);
    assert(is_worth(a, n, 0) && is_worth(b, n, 0));
    assert(a.text() == s && b.text() == signed_decimal(n));
}

/// The numeral that is written for an integer stands for it.
pub proof fn lemma_integer_numeral(n: int) -> (b: Numeral)
    ensures
        b.is_numeral(),
        b.text() == signed_decimal(n),
        b.power() == 0,
        b.mantissa() == n,
{
    let m = if n < 0 {
        (-n) as nat
    } else {
        n as nat
    };
    lemma_decimal_digits(m);
    lemma_decimal_count(m);
    let b = Numeral {
        sign: if n < 0 {
            seq!['-']
        } else {
            Seq::empty()
        },
        whole: decimal(m),
        fraction: None,
        exponent: None,
    };
    assert(seq!['-'].len() == 1);
    assert(are_digits(b.whole)) by {
        assert forall|i: int| 0 <= i < b.whole.len() implies '0' <= #[trigger] b.whole[i]
            <= '9' by {
            assert(is_digit(decimal(m)[i]));
        }
    }
    assert(b.text() =~= signed_decimal(n));
    b
}

proof fn lemma_decimal_count(m: nat)
    ensures
        count(decimal(m)) == m,
        decimal(m).len() > 0,
    decreases m,
{
    assert(decimal(m).last() as int - '0' as int == m % 10) by {
        assert(decimal(m).last() == digit_char(m % 10));
    }
    if m < 10 {
        assert(decimal(m).drop_last() =~= Seq::<char>::empty());
        assert(count(Seq::<char>::empty()) == 0);
    } else {
        lemma_decimal_count(m / 10);
        assert(decimal(m).drop_last() =~= decimal(m / 10));
    }
}

} // verus!
