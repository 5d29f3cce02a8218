//! What a stream of codes expands to.
use vstd::prelude::*;
use vstd::arithmetic::power2::{lemma2_to64, lemma_pow2_pos, lemma_pow2_unfold, pow2};

use super::gzip::{
    bit, block_body, blocks, decode_from, decode_symbol, field, first_code, fixed_distance_lengths,
    fixed_literal_lengths, matched, symbols_below, symbols_of, word, DIST_BASE, DIST_EXTRA,
    LENGTH_BASE, LENGTH_EXTRA,
};
use super::window::{copied, law_copy_is_periodic};
use crate::error::Failure;

verus! {

// --- bits ----------------------------------------------------------------------------------

/// The bit at a place, of which each byte has its lowest first.
pub open spec fn bit_at(data: Seq<u8>, p: int) -> nat {
    (data[p / 8] as nat / pow2((p % 8) as nat)) % 2
}

/// The number in `n` bits, of which the first counts least.
pub open spec fn low_first(data: Seq<u8>, p: int, n: nat) -> nat
    decreases n,
{
    if n == 0 {
        0
    } else {
        bit_at(data, p) + 2 * low_first(data, p + 1, (n - 1) as nat)
    }
}

/// The number in `n` bits, of which the first counts most.
pub open spec fn high_first(data: Seq<u8>, p: int, n: nat) -> nat
    decreases n,
{
    if n == 0 {
        0
    } else {
        2 * high_first(data, p, (n - 1) as nat) + bit_at(data, p + n - 1)
    }
}

pub proof fn lemma_bit(data: Seq<u8>, p: int)
    requires
        0 <= p < 8 * data.len(),
    ensures
        bit(data, p) == bit_at(data, p),
{
    let b = data[p / 8];
    let s = (p % 8) as u32;
    lemma2_to64();
    assert((s == 0 ==> (b >> s) & 1u8 == b % 2) && (s == 1 ==> (b >> s) & 1u8 == (b / 2) % 2) && (s
        == 2 ==> (b >> s) & 1u8 == (b / 4) % 2) && (s == 3 ==> (b >> s) & 1u8 == (b / 8) % 2) && (s
        == 4 ==> (b >> s) & 1u8 == (b / 16) % 2) && (s == 5 ==> (b >> s) & 1u8 == (b / 32) % 2) && (s
        == 6 ==> (b >> s) & 1u8 == (b / 64) % 2) && (s == 7 ==> (b >> s) & 1u8 == (b / 128) % 2))
        by (bit_vector);
    let y = pow2((p % 8) as nat);
    assert(y == 1 || y == 2 || y == 4 || y == 8 || y == 16 || y == 32 || y == 64 || y == 128);
    assert(p % 8 == 0 ==> b as nat / y == b as nat / 1);
    assert(p % 8 == 1 ==> b as nat / y == b as nat / 2);
    assert(p % 8 == 2 ==> b as nat / y == b as nat / 4);
    assert(p % 8 == 3 ==> b as nat / y == b as nat / 8);
    assert(p % 8 == 4 ==> b as nat / y == b as nat / 16);
    assert(p % 8 == 5 ==> b as nat / y == b as nat / 32);
    assert(p % 8 == 6 ==> b as nat / y == b as nat / 64);
    assert(p % 8 == 7 ==> b as nat / y == b as nat / 128);
}

proof fn lemma_low_last(data: Seq<u8>, p: int, n: nat)
    requires
        n > 0,
    ensures
        low_first(data, p, n) == low_first(data, p, (n - 1) as nat) + bit_at(data, p + n - 1) * pow2(
            (n - 1) as nat,
        ),
    decreases n,
{
    lemma2_to64();
    if n > 1 {
        lemma_low_last(data, p + 1, (n - 1) as nat);
        lemma_pow2_unfold((n - 1) as nat);
        let x = bit_at(data, p + n - 1) as int;
        let y = pow2((n - 2) as nat) as int;
        assert(2 * (x * y) == x * (2 * y)) by (nonlinear_arith);
    } else {
        assert(low_first(data, p + 1, 0) == 0);
        assert(bit_at(data, p) * 1 == bit_at(data, p));
    }
}

pub proof fn lemma_field(data: Seq<u8>, p: int, n: nat)
    requires
        0 <= p,
        p + n <= 8 * data.len(),
    ensures
        field(data, p, n) == low_first(data, p, n),
    decreases n,
{
    if n > 0 {
        lemma_field(data, p, (n - 1) as nat);
        lemma_bit(data, p + n - 1);
        lemma_low_last(data, p, n);
    }
}

proof fn lemma_word(data: Seq<u8>, p: int, n: nat)
    requires
        0 <= p,
        p + n <= 8 * data.len(),
    ensures
        word(data, p, n) == high_first(data, p, n),
    decreases n,
{
    if n > 0 {
        lemma_word(data, p, (n - 1) as nat);
        lemma_bit(data, p + n - 1);
    }
}

// --- codes ---------------------------------------------------------------------------------

/// How many of the first `n` symbols have a code of a length.
pub open spec fn count_below(lengths: Seq<u8>, l: int, n: int) -> nat
    decreases n,
{
    if n <= 0 {
        0
    } else {
        count_below(lengths, l, n - 1) + if lengths[n - 1] == l {
            1nat
        } else {
            0
        }
    }
}

/// How many codes of length `l` those of the lengths up to `j` leave behind them.
pub open spec fn used(lengths: Seq<u8>, l: int, j: int) -> nat
    decreases j,
{
    if j <= 0 {
        0
    } else {
        used(lengths, l, j - 1) + count_below(lengths, j, lengths.len() as int) * pow2(
            (l - j) as nat,
        )
    }
}

/// The code of a symbol: codes of one length follow one another in the order of the
/// symbols, behind all that the shorter codes use up.
pub open spec fn code_of(lengths: Seq<u8>, s: int) -> nat {
    let l = lengths[s] as int;
    used(lengths, l, l - 1) + count_below(lengths, l, s)
}

/// Whether the code of a symbol stands from `p` to `q`.
pub open spec fn is_code(lengths: Seq<u8>, data: Seq<u8>, p: int, q: int, s: int) -> bool {
    &&& 0 <= s < lengths.len()
    &&& 1 <= lengths[s] <= 15
    &&& 0 <= p
    &&& q == p + lengths[s] <= 8 * data.len()
    &&& high_first(data, p, lengths[s] as nat) == code_of(lengths, s)
}

proof fn lemma_symbols(lengths: Seq<u8>, l: int, n: nat)
    requires
        n <= lengths.len() <= 65535,
    ensures
        symbols_below(lengths, l, n).len() == count_below(lengths, l, n as int),
        forall|s: int|
            0 <= s < n && lengths[s] == l ==> symbols_below(lengths, l, n)[#[trigger] count_below(
                lengths,
                l,
                s,
            ) as int] == s,
        forall|s: int|
            0 <= s < n && lengths[s] == l ==> #[trigger] count_below(lengths, l, s) < count_below(
                lengths,
                l,
                n as int,
            ),
    decreases n,
{
    if n > 0 {
        lemma_symbols(lengths, l, (n - 1) as nat);
    }
}

proof fn lemma_used_doubles(lengths: Seq<u8>, l: int, j: int)
    requires
        0 <= j < l,
    ensures
        used(lengths, l + 1, j) == 2 * used(lengths, l, j),
    decreases j,
{
    if j > 0 {
        lemma_used_doubles(lengths, l, j - 1);
        lemma_pow2_unfold((l + 1 - j) as nat);
        let c = count_below(lengths, j, lengths.len() as int) as int;
        let y = pow2((l - j) as nat) as int;
        assert(c * (2 * y) == 2 * (c * y)) by (nonlinear_arith);
    }
}

proof fn lemma_first_code(lengths: Seq<u8>, l: nat)
    requires
        1 <= l,
        lengths.len() <= 65535,
    ensures
        first_code(lengths, l) == used(lengths, l as int, l - 1),
    decreases l,
{
    if l > 1 {
        let k = (l - 1) as nat;
        lemma_first_code(lengths, k);
        lemma_symbols(lengths, k as int, lengths.len());
        lemma_used_doubles(lengths, k as int, k - 1);
        lemma2_to64();
        let c = count_below(lengths, k as int, lengths.len() as int) as int;
        assert(pow2((l - k) as nat) == 2);
        assert(used(lengths, l as int, k as int) == used(lengths, l as int, k - 1) + c * 2);
    }
}

/// The codes of a length start behind all that a shorter length uses up.
proof fn lemma_start_is_behind(lengths: Seq<u8>, k: nat, l: nat)
    requires
        1 <= k < l,
    ensures
        first_code(lengths, l) >= (first_code(lengths, k) + symbols_of(lengths, k as int).len())
            * pow2((l - k) as nat),
    decreases l,
{
    let a = (first_code(lengths, k) + symbols_of(lengths, k as int).len()) as int;
    if l == k + 1 {
        lemma2_to64();
        assert(pow2((l - k) as nat) == 2);
        assert(a * pow2((l - k) as nat) == a * 2);
    } else {
        lemma_start_is_behind(lengths, k, (l - 1) as nat);
        lemma_pow2_unfold((l - k) as nat);
        let y = pow2((l - 1 - k) as nat) as int;
        assert(a * (2 * y) == 2 * (a * y)) by (nonlinear_arith);
        assert(pow2((l - k) as nat) == 2 * y);
        assert(first_code(lengths, l) >= 2 * first_code(lengths, (l - 1) as nat));
        assert(a * pow2((l - k) as nat) == a * (2 * y));
    }
}

/// The first bits of a number of bits.
proof fn lemma_word_front(data: Seq<u8>, p: int, k: nat, l: nat)
    requires
        k <= l,
    ensures
        word(data, p, k) * pow2((l - k) as nat) <= word(data, p, l) < (word(data, p, k) + 1) * pow2(
            (l - k) as nat,
        ),
    decreases l,
{
    lemma2_to64();
    if k < l {
        lemma_word_front(data, p, k, (l - 1) as nat);
        lemma_pow2_unfold((l - k) as nat);
        let w = word(data, p, k) as int;
        let v = word(data, p, (l - 1) as nat) as int;
        let y = pow2((l - 1 - k) as nat) as int;
        let b = data[(p + l - 1) / 8];
        let s = ((p + l - 1) % 8) as u32;
        assert((b >> s) & 1u8 <= 1u8) by (bit_vector);
        assert(w * (2 * y) == 2 * (w * y)) by (nonlinear_arith);
        assert((w + 1) * (2 * y) == 2 * ((w + 1) * y)) by (nonlinear_arith);
    } else {
        assert(word(data, p, k) * 1 == word(data, p, k));
        assert((word(data, p, k) + 1) * 1 == word(data, p, k) + 1);
    }
}

proof fn lemma_decode(lengths: Seq<u8>, data: Seq<u8>, p: int, q: int, s: int, k: nat)
    requires
        lengths.len() <= 65535,
        is_code(lengths, data, p, q, s),
        1 <= k <= lengths[s],
    ensures
        decode_from(lengths, data, p, k) == Ok::<(u16, int), Failure>((s as u16, q)),
    decreases lengths[s] - k,
{
    let l = lengths[s] as nat;
    lemma_word(data, p, l);
    lemma_first_code(lengths, l);
    lemma_symbols(lengths, l as int, lengths.len());
    if k < l {
        lemma_start_is_behind(lengths, k, l);
        lemma_word_front(data, p, k, l);
        let a = (first_code(lengths, k) + symbols_of(lengths, k as int).len()) as int;
        let w = word(data, p, k) as int;
        let y = pow2((l - k) as nat) as int;
        assert(a <= w) by (nonlinear_arith)
            requires
                a * y < (w + 1) * y,
                y >= 0,
        ;
        lemma_decode(lengths, data, p, q, s, k + 1);
    }
}

/// A code is decoded as the symbol whose code it is, and no bit more is read.
pub proof fn law_code_is_decoded(lengths: Seq<u8>, data: Seq<u8>, p: int, q: int, s: int)
    requires
        lengths.len() <= 65535,
        is_code(lengths, data, p, q, s),
    ensures
        decode_symbol(lengths, data, p) == Ok::<(u16, int), Failure>((s as u16, q)),
{
    lemma_decode(lengths, data, p, q, s, 1);
}

// --- lengths and distances -----------------------------------------------------------------

/// How many bits follow the symbol of a length.
pub open spec fn length_bits(i: int) -> nat {
    if i < 8 || i == 28 {
        0
    } else {
        ((i - 4) / 4) as nat
    }
}

/// The least length that a symbol stands for.
pub open spec fn least_length(i: int) -> int {
    if i == 28 {
        258
    } else if i < 8 {
        3 + i
    } else {
        3 + (4 + i % 4) * pow2(length_bits(i))
    }
}

/// How many bits follow the symbol of a distance.
pub open spec fn distance_bits(d: int) -> nat {
    if d < 4 {
        0
    } else {
        ((d - 2) / 2) as nat
    }
}

/// The least distance that a symbol stands for.
pub open spec fn least_distance(d: int) -> int {
    if d < 4 {
        1 + d
    } else {
        1 + (2 + d % 2) * pow2(distance_bits(d))
    }
}

proof fn lemma_length_table(i: int)
    requires
        0 <= i < 29,
    ensures
        LENGTH_EXTRA[i] == length_bits(i),
        LENGTH_BASE[i] == least_length(i),
{
    lemma2_to64();
    if i >= 8 && i < 28 {
        let k = (i - 4) / 4;
        let r = 4 + i % 4;
        assert(k == 1 || k == 2 || k == 3 || k == 4 || k == 5);
        assert(k == 1 ==> r * pow2(length_bits(i)) == r * 2);
        assert(k == 2 ==> r * pow2(length_bits(i)) == r * 4);
        assert(k == 3 ==> r * pow2(length_bits(i)) == r * 8);
        assert(k == 4 ==> r * pow2(length_bits(i)) == r * 16);
        assert(k == 5 ==> r * pow2(length_bits(i)) == r * 32);
    }
}

proof fn lemma_distance_table(d: int)
    requires
        0 <= d < 30,
    ensures
        DIST_EXTRA[d] == distance_bits(d),
        DIST_BASE[d] == least_distance(d),
{
    lemma2_to64();
    if d >= 4 {
        let k = (d - 2) / 2;
        let r = 2 + d % 2;
        assert(1 <= k <= 13);
        assert(k == 1 ==> r * pow2(distance_bits(d)) == r * 2);
        assert(k == 2 ==> r * pow2(distance_bits(d)) == r * 4);
        assert(k == 3 ==> r * pow2(distance_bits(d)) == r * 8);
        assert(k == 4 ==> r * pow2(distance_bits(d)) == r * 16);
        assert(k == 5 ==> r * pow2(distance_bits(d)) == r * 32);
        assert(k == 6 ==> r * pow2(distance_bits(d)) == r * 64);
        assert(k == 7 ==> r * pow2(distance_bits(d)) == r * 128);
        assert(k == 8 ==> r * pow2(distance_bits(d)) == r * 256);
        assert(k == 9 ==> r * pow2(distance_bits(d)) == r * 512);
        assert(k == 10 ==> r * pow2(distance_bits(d)) == r * 1024);
        assert(k == 11 ==> r * pow2(distance_bits(d)) == r * 2048);
        assert(k == 12 ==> r * pow2(distance_bits(d)) == r * 4096);
        assert(k == 13 ==> r * pow2(distance_bits(d)) == r * 8192);
    }
}

// --- tokens --------------------------------------------------------------------------------

/// A byte, or a copy of bytes from a distance back.
pub enum Token {
    Byte(u8),
    Copy { length: int, distance: int },
}

/// What a token makes of what was there.
pub open spec fn after(out: Seq<u8>, t: Token) -> Seq<u8> {
    match t {
        Token::Byte(b) => out.push(b),
        Token::Copy { length, distance } => out + Seq::new(
            length as nat,
            |k: int| out[out.len() - distance + k % distance],
        ),
    }
}

/// What tokens from the `i`th on make of what was there.
pub open spec fn expanded(out: Seq<u8>, tokens: Seq<Token>, i: int) -> Seq<u8>
    decreases tokens.len() - i,
{
    if i < 0 || i >= tokens.len() {
        out
    } else {
        expanded(after(out, tokens[i]), tokens, i + 1)
    }
}

/// Whether no token from the `i`th on reaches back before the start.
pub open spec fn reaches(out: Seq<u8>, tokens: Seq<Token>, i: int) -> bool
    decreases tokens.len() - i,
{
    i < 0 || i >= tokens.len() || {
        &&& tokens[i] matches Token::Copy { length, distance } ==> 0 < distance <= out.len()
        &&& reaches(after(out, tokens[i]), tokens, i + 1)
    }
}

/// Whether a copy stands from `p` to `q`: the code of the symbol of its length, what the
/// length is above the least, and the same of its distance.
pub open spec fn is_copy(
    lit: Seq<u8>,
    dist: Seq<u8>,
    data: Seq<u8>,
    p: int,
    q: int,
    i: int,
    d: int,
    length: int,
    distance: int,
) -> bool {
    let a = p + lit[257 + i];
    let b = a + length_bits(i);
    let c = b + dist[d];
    &&& 0 <= i < 29
    &&& 0 <= d < 30
    &&& is_code(lit, data, p, a, 257 + i)
    &&& b <= 8 * data.len()
    &&& length == least_length(i) + low_first(data, a, length_bits(i))
    &&& is_code(dist, data, b, c, d)
    &&& q == c + distance_bits(d) <= 8 * data.len()
    &&& distance == least_distance(d) + low_first(data, c, distance_bits(d))
}

/// Whether a token stands from `p` to `q`.
pub open spec fn is_token(
    lit: Seq<u8>,
    dist: Seq<u8>,
    data: Seq<u8>,
    p: int,
    q: int,
    t: Token,
) -> bool {
    match t {
        Token::Byte(b) => is_code(lit, data, p, q, b as int),
        Token::Copy { length, distance } => exists|i: int, d: int| #[trigger]
            is_copy(lit, dist, data, p, q, i, d, length, distance),
    }
}

pub proof fn lemma_copied(out: Seq<u8>, distance: int, count: nat)
    requires
        0 < distance <= out.len(),
    ensures
        copied(out, distance, count) == out + Seq::new(
            count,
            |k: int| out[out.len() - distance + k % distance],
        ),
{
    let r = copied(out, distance, count);
    let n = out.len() as int;
    law_copy_is_periodic(out, distance, count);
    assert forall|i: int| 0 <= i < n implies r[i] == out[i] by {
        assert(r.take(n)[i] == out[i]);
    }
    assert forall|i: int| n <= i < r.len() implies #[trigger] is_repeated(r, i, distance) by {
        assert(r[i] == r[i - distance]);
    }
    assert forall|k: int| 0 <= k < count implies #[trigger] r[n + k] == out[n - distance + k
        % distance] by {
        lemma_period(out, r, distance, k);
    }
    let all = out + Seq::new(count, |k: int| out[out.len() - distance + k % distance]);
    assert forall|i: int| 0 <= i < r.len() implies r[i] == all[i] by {
        if i >= n {
            assert(r[n + (i - n)] == out[n - distance + (i - n) % distance]);
        }
    }
    assert(r =~= all);
}

/// Whether a byte is the one at a distance before it.
spec fn is_repeated(r: Seq<u8>, i: int, distance: int) -> bool {
    r[i] == r[i - distance]
}

proof fn lemma_period(out: Seq<u8>, r: Seq<u8>, distance: int, k: int)
    requires
        0 < distance <= out.len(),
        0 <= k < r.len() - out.len(),
        forall|i: int| 0 <= i < out.len() ==> r[i] == out[i],
        forall|i: int| out.len() <= i < r.len() ==> #[trigger] is_repeated(r, i, distance),
    ensures
        r[out.len() + k] == out[out.len() - distance + k % distance],
    decreases k,
{
    let n = out.len() as int;
    assert(is_repeated(r, n + k, distance));
    if k < distance {
        vstd::arithmetic::div_mod::lemma_small_mod(k as nat, distance as nat);
    } else {
        lemma_period(out, r, distance, k - distance);
        vstd::arithmetic::div_mod::lemma_mod_sub_multiples_vanish(k, distance);
    }
}

/// A copy is read.
proof fn lemma_matched(
    lit: Seq<u8>,
    dist: Seq<u8>,
    data: Seq<u8>,
    p: int,
    q: int,
    i: int,
    d: int,
    length: int,
    distance: int,
    out: Seq<u8>,
)
    requires
        dist.len() <= 65535,
        is_copy(lit, dist, data, p, q, i, d, length, distance),
        0 < distance <= out.len(),
    ensures
        matched(dist, data, p + lit[257 + i], 257 + i, out) == Ok::<(int, Seq<u8>), Failure>(
            (q, after(out, Token::Copy { length, distance })),
        ),
{
    let a = p + lit[257 + i];
    let b = a + length_bits(i);
    let c = b + dist[d];
    lemma_length_table(i);
    lemma_distance_table(d);
    lemma_field(data, a, length_bits(i));
    law_code_is_decoded(dist, data, b, c, d);
    lemma_field(data, c, distance_bits(d));
    lemma_copied(out, distance, length as nat);
    lemma2_to64();
    lemma_pow2_pos(length_bits(i));
}

/// The codes of tokens, one behind the other, and of the end of the block are what the
/// tokens expand to.
pub proof fn law_tokens_expand(
    lit: Seq<u8>,
    dist: Seq<u8>,
    data: Seq<u8>,
    tokens: Seq<Token>,
    places: Seq<int>,
    end: int,
    k: int,
    out: Seq<u8>,
)
    requires
        lit.len() <= 65535,
        dist.len() <= 65535,
        places.len() == tokens.len() + 1,
        forall|i: int|
            0 <= i < tokens.len() ==> is_token(
                lit,
                dist,
                data,
                #[trigger] places[i],
                places[i + 1],
                tokens[i],
            ),
        is_code(lit, data, places.last(), end, 256),
        0 <= k <= tokens.len(),
        reaches(out, tokens, k),
    ensures
        block_body(lit, dist, data, places[k], out) == Ok::<(int, Seq<u8>), Failure>(
            (end, expanded(out, tokens, k)),
        ),
    decreases tokens.len() - k,
{
    let p = places[k];
    if k == tokens.len() {
        law_code_is_decoded(lit, data, p, end, 256);
    } else {
        let q = places[k + 1];
        let t = tokens[k];
        assert(is_token(lit, dist, data, places[k], places[k + 1], t));
        law_tokens_expand(lit, dist, data, tokens, places, end, k + 1, after(out, t));
        match t {
            Token::Byte(b) => {
                law_code_is_decoded(lit, data, p, q, b as int);
            },
            Token::Copy { length, distance } => {
                let (i, d) = choose|i: int, d: int| #[trigger]
                    is_copy(lit, dist, data, p, q, i, d, length, distance);
                let a = p + lit[257 + i];
                law_code_is_decoded(lit, data, p, a, 257 + i);
                lemma_matched(lit, dist, data, p, q, i, d, length, distance, out);
            },
        }
    }
}

// --- the fixed codes -----------------------------------------------------------------------

/// The lengths of the fixed codes of bytes and lengths.
pub open spec fn is_fixed(lit: Seq<u8>) -> bool {
    &&& lit.len() == 288
    &&& forall|s: int| 0 <= s < 144 ==> #[trigger] lit[s] == 8
    &&& forall|s: int| 144 <= s < 256 ==> #[trigger] lit[s] == 9
    &&& forall|s: int| 256 <= s < 280 ==> #[trigger] lit[s] == 7
    &&& forall|s: int| 280 <= s < 288 ==> #[trigger] lit[s] == 8
}

/// A final block with the fixed codes, those of distances having five bits each, is what its
/// tokens expand to.
pub proof fn law_fixed_block_expands(
    lit: Seq<u8>,
    data: Seq<u8>,
    tokens: Seq<Token>,
    places: Seq<int>,
    end: int,
)
    requires
        is_fixed(lit),
        data.len() > 0,
        bit_at(data, 0) == 1,
        low_first(data, 1, 2) == 1,
        places.len() == tokens.len() + 1,
        places[0] == 3,
        forall|i: int|
            0 <= i < tokens.len() ==> is_token(
                lit,
                Seq::new(30, |s: int| 5u8),
                data,
                #[trigger] places[i],
                places[i + 1],
                tokens[i],
            ),
        is_code(lit, data, places.last(), end, 256),
        reaches(Seq::empty(), tokens, 0),
    ensures
        blocks(data, 0, Seq::empty()) == Ok::<Seq<u8>, Failure>(
            expanded(Seq::empty(), tokens, 0),
        ),
{
    assert(lit =~= fixed_literal_lengths());
    assert(Seq::new(30, |s: int| 5u8) =~= fixed_distance_lengths());
    lemma_bit(data, 0);
    lemma_field(data, 1, 2);
    law_tokens_expand(
        lit,
        fixed_distance_lengths(),
        data,
        tokens,
        places,
        end,
        0,
        Seq::empty(),
    );
}

} // verus!
