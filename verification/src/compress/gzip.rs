//! GZIP, zlib and raw DEFLATE decompression.
//!
//! The specification reads the stream as a sequence of bits: byte by byte,
//! each byte from its least significant bit up. A place in the stream is a bit
//! index. Canonical Huffman codes are given by the code length of each symbol.
use vstd::arithmetic::power2::*;
use vstd::prelude::*;

use super::window::copied;
use super::window::copy_back;
use super::window::law_copy_is_periodic;
use crate::error::outcome;
use crate::error::tagged;
use crate::error::Error;
use crate::error::Failure;

verus! {

/// The failure that carries this message.
pub open spec fn failure(message: Seq<char>) -> Failure {
    Failure::Parquet("gzip: "@ + message)
}

fn err(message: &str) -> (e: Error)
    ensures
        e@ == failure(message@),
{
    Error::Parquet(tagged("gzip: ", message))
}

// --- containers --------------------------------------------------------------

/// The place after the zero byte that ends the string at `at`.
pub open spec fn after_cstring(input: Seq<u8>, at: int) -> Option<int>
    decreases input.len() - at,
{
    if at < 0 || at >= input.len() {
        None
    } else if input[at] == 0 {
        Some(at + 1)
    } else {
        after_cstring(input, at + 1)
    }
}

/// Where the fields after the fixed gzip header end: the extra field, the
/// name, the comment and the header check, each where its flag is set.
pub open spec fn gzip_body_start(input: Seq<u8>) -> Option<int> {
    let flags = input[3];
    let extra = if flags & 4 == 0 {
        Some(10int)
    } else if input.len() < 12 {
        None
    } else {
        Some(12 + input[10] + 256 * input[11])
    };
    let name = match extra {
        None => None,
        Some(at) => if flags & 8 == 0 {
            Some(at)
        } else {
            after_cstring(input, at)
        },
    };
    let comment = match name {
        None => None,
        Some(at) => if flags & 16 == 0 {
            Some(at)
        } else {
            after_cstring(input, at)
        },
    };
    match comment {
        None => None,
        Some(at) => {
            let end = if flags & 2 == 0 {
                at
            } else {
                at + 2
            };
            if end <= input.len() {
                Some(end)
            } else {
                None
            }
        },
    }
}

/// Whether the first two bytes are a zlib header.
pub open spec fn is_zlib(input: Seq<u8>) -> bool {
    input.len() >= 2 && input[0] & 15 == 8 && (256 * input[0] + input[1]) % 31 == 0
}

/// The raw DEFLATE stream inside a gzip member, a zlib stream or itself.
pub open spec fn deflate_stream(input: Seq<u8>) -> Result<Seq<u8>, Failure> {
    if input.len() >= 2 && input[0] == 0x1f && input[1] == 0x8b {
        if input.len() < 10 {
            Err(failure("truncated gzip header"@))
        } else if input[2] != 8 {
            Err(failure("unsupported gzip compression method"@))
        } else {
            match gzip_body_start(input) {
                None => Err(failure("truncated header"@)),
                Some(at) => Ok(input.skip(at)),
            }
        }
    } else if is_zlib(input) {
        let start: int = if input[1] & 0x20 != 0 {
            6
        } else {
            2
        };
        if start <= input.len() {
            Ok(input.skip(start))
        } else {
            Err(failure("short zlib header"@))
        }
    } else {
        Ok(input)
    }
}

proof fn lemma_cstring_end(input: Seq<u8>, at: int)
    requires
        0 <= at,
    ensures
        after_cstring(input, at) is Some ==> at < after_cstring(input, at)->0 <= input.len(),
    decreases input.len() - at,
{
    if at < input.len() && input[at] != 0 {
        lemma_cstring_end(input, at + 1);
    }
}

fn skip_cstring(input: &[u8], at: usize) -> (r: Option<usize>)
    ensures
        match after_cstring(input@, at as int) {
            Some(end) => r == Some(end as usize) && at < end <= input@.len(),
            None => r is None,
        },
{
    let mut i: usize = at;
    proof {
        lemma_cstring_end(input@, at as int);
    }
    while i < input.len()
        invariant
            at <= i,
            i == at || i <= input@.len(),
            after_cstring(input@, at as int) == after_cstring(input@, i as int),
            after_cstring(input@, at as int) is Some ==> at < after_cstring(input@, at as int)->0
                <= input@.len(),
        decreases input@.len() - i,
    {
        if input[i] == 0 {
            return Some(i + 1);
        }
        i += 1;
    }
    None
}

fn strip_gzip(input: &[u8]) -> (r: Result<usize, Error>)
    requires
        input@.len() >= 2,
        input@[0] == 0x1f,
        input@[1] == 0x8b,
    ensures
        match deflate_stream(input@) {
            Ok(body) => r is Ok && r->Ok_0 <= input@.len() && body == input@.skip(r->Ok_0 as int),
            Err(e) => r is Err && r->Err_0@ == e,
        },
{
    if input.len() < 10 {
        return Err(err("truncated gzip header"));
    }
    if input[2] != 8 {
        return Err(err("unsupported gzip compression method"));
    }
    let flags = input[3];
    let mut at: usize = 10;
    if flags & 4 != 0 {
        if input.len() < 12 {
            return Err(err("truncated header"));
        }
        at = 12 + input[10] as usize + 256 * (input[11] as usize);
    }
    if flags & 8 != 0 {
        match skip_cstring(input, at) {
            Some(end) => {
                at = end;
            },
            None => {
                return Err(err("truncated header"));
            },
        }
    }
    if flags & 16 != 0 {
        match skip_cstring(input, at) {
            Some(end) => {
                at = end;
            },
            None => {
                return Err(err("truncated header"));
            },
        }
    }
    if at > input.len() {
        return Err(err("truncated header"));
    }
    if flags & 2 != 0 {
        if input.len() - at < 2 {
            return Err(err("truncated header"));
        }
        at += 2;
    }
    Ok(at)
}

/// Find where the raw DEFLATE stream begins, skipping a gzip or zlib wrapper.
fn strip_container(input: &[u8]) -> (r: Result<usize, Error>)
    ensures
        match deflate_stream(input@) {
            Ok(body) => r is Ok && r->Ok_0 <= input@.len() && body == input@.skip(r->Ok_0 as int),
            Err(e) => r is Err && r->Err_0@ == e,
        },
{
    if input.len() >= 2 && input[0] == 0x1f && input[1] == 0x8b {
        return strip_gzip(input);
    }
    if input.len() >= 2 && input[0] & 15 == 8 && (256 * (input[0] as u32) + input[1] as u32) % 31
        == 0 {
        let start: usize = if input[1] & 0x20 != 0 {
            6
        } else {
            2
        };
        if start > input.len() {
            return Err(err("short zlib header"));
        }
        return Ok(start);
    }
    assert(input@.skip(0) =~= input@);
    Ok(0)
}

// --- bits --------------------------------------------------------------------

/// The bit at place `p`.
pub open spec fn bit(data: Seq<u8>, p: int) -> nat {
    ((data[p / 8] >> ((p % 8) as u32)) & 1u8) as nat
}

/// The number in the `n` bits from `p`, the first bit least significant.
pub open spec fn field(data: Seq<u8>, p: int, n: nat) -> nat
    decreases n,
{
    if n == 0 {
        0
    } else {
        field(data, p, (n - 1) as nat) + bit(data, p + n - 1) * pow2((n - 1) as nat)
    }
}

/// The number in the `n` bits from `p`, the first bit most significant.
pub open spec fn word(data: Seq<u8>, p: int, n: nat) -> nat
    decreases n,
{
    if n == 0 {
        0
    } else {
        2 * word(data, p, (n - 1) as nat) + bit(data, p + n - 1)
    }
}

/// The failure of a read past the end of the stream.
pub open spec fn end_of_stream() -> Failure {
    failure("unexpected end of deflate stream"@)
}

/// The field of `n` bits at `p`, where the stream is long enough.
pub open spec fn take_bits(data: Seq<u8>, p: int, n: nat) -> Result<nat, Failure> {
    if p + n <= 8 * data.len() {
        Ok(field(data, p, n))
    } else {
        Err(end_of_stream())
    }
}

proof fn lemma_bit_is_binary(data: Seq<u8>, p: int)
    ensures
        bit(data, p) <= 1,
{
    let b = data[p / 8];
    let s = (p % 8) as u32;
    assert((b >> s) & 1u8 <= 1u8) by (bit_vector);
}

proof fn lemma_field_bound(data: Seq<u8>, p: int, n: nat)
    ensures
        field(data, p, n) < pow2(n),
    decreases n,
{
    lemma2_to64();
    if n > 0 {
        lemma_field_bound(data, p, (n - 1) as nat);
        lemma_bit_is_binary(data, p + n - 1);
        lemma_pow2_unfold(n);
        let b = bit(data, p + n - 1);
        let w = pow2((n - 1) as nat);
        assert(b * w <= w) by (nonlinear_arith)
            requires
                b <= 1,
        ;
    }
}

/// Forward bit reader, least significant bit of each byte first.
struct BitReader<'a> {
    data: &'a [u8],
    byte: usize,
    bit: u32,
}

impl<'a> BitReader<'a> {
    spec fn wf(&self) -> bool {
        &&& self.bit < 8
        &&& self.byte <= self.data@.len()
        &&& self.byte == self.data@.len() ==> self.bit == 0
    }

    /// The place of the next bit.
    spec fn at(&self) -> int {
        self.byte * 8 + self.bit
    }

    fn new(data: &'a [u8]) -> (r: Self)
        ensures
            r.wf(),
            r.data == data,
            r.at() == 0,
    {
        BitReader { data, byte: 0, bit: 0 }
    }

    fn read_bit(&mut self) -> (r: Result<u32, Error>)
        requires
            old(self).wf(),
        ensures
            final(self).wf(),
            final(self).data == old(self).data,
            match r {
                Ok(v) => old(self).at() < 8 * old(self).data@.len() && v == bit(
                    old(self).data@,
                    old(self).at(),
                ) && final(self).at() == old(self).at() + 1,
                Err(e) => old(self).at() >= 8 * old(self).data@.len() && e@ == end_of_stream(),
            },
    {
        if self.byte >= self.data.len() {
            return Err(err("unexpected end of deflate stream"));
        }
        let b = self.data[self.byte];
        let v: u8 = (b >> self.bit) & 1u8;
        proof {
            assert(self.at() / 8 == self.byte && self.at() % 8 == self.bit);
        }
        self.bit += 1;
        if self.bit == 8 {
            self.bit = 0;
            self.byte += 1;
        }
        Ok(v as u32)
    }

    /// Read `n` bits, the first bit read being the least significant.
    fn read_bits(&mut self, n: u32) -> (r: Result<u32, Error>)
        requires
            old(self).wf(),
            n <= 13,
        ensures
            final(self).wf(),
            final(self).data == old(self).data,
            match take_bits(old(self).data@, old(self).at(), n as nat) {
                Ok(v) => r is Ok && r->Ok_0 == v && v < pow2(n as nat) && final(self).at() == old(
                    self,
                ).at() + n,
                Err(e) => r is Err && r->Err_0@ == e,
            },
    {
        let mut v: u32 = 0;
        let mut weight: u32 = 1;
        let mut i: u32 = 0;
        proof {
            lemma2_to64();
        }
        while i < n
            invariant
                i <= n <= 13,
                self.wf(),
                self.data == old(self).data,
                self.at() == old(self).at() + i,
                v == field(old(self).data@, old(self).at(), i as nat),
                weight == pow2(i as nat),
                v < weight,
                weight <= 8192,
            decreases n - i,
        {
            match self.read_bit() {
                Ok(b) => {
                    proof {
                        lemma_bit_is_binary(old(self).data@, old(self).at() + i);
                        lemma_pow2_unfold((i + 1) as nat);
                        lemma_field_bound(old(self).data@, old(self).at(), (i + 1) as nat);
                        lemma2_to64();
                        if i + 1 < 13 {
                            lemma_pow2_strictly_increases((i + 1) as nat, 13);
                        }
                        assert(b * weight <= weight) by (nonlinear_arith)
                            requires
                                b <= 1,
                        ;
                    }
                    v = v + b * weight;
                    if i + 1 < n {
                        weight = weight * 2;
                    } else {
                        proof {
                            lemma_field_bound(old(self).data@, old(self).at(), n as nat);
                        }
                        return Ok(v);
                    }
                },
                Err(e) => {
                    return Err(e);
                },
            }
            i += 1;
        }
        Ok(v)
    }

    /// Discard bits up to the next byte boundary.
    fn align(&mut self)
        requires
            old(self).wf(),
        ensures
            final(self).wf(),
            final(self).data == old(self).data,
            final(self).bit == 0,
            final(self).byte == (old(self).at() + 7) / 8,
    {
        if self.bit != 0 {
            assert(self.byte < self.data.len());
            self.bit = 0;
            self.byte += 1;
        }
    }
}

// --- canonical Huffman codes -------------------------------------------------

/// The symbols below `n` whose code has length `l`, in increasing order.
pub open spec fn symbols_below(lengths: Seq<u8>, l: int, n: nat) -> Seq<u16>
    decreases n,
{
    if n == 0 {
        Seq::empty()
    } else {
        let before = symbols_below(lengths, l, (n - 1) as nat);
        if lengths[n - 1] == l {
            before.push((n - 1) as u16)
        } else {
            before
        }
    }
}

/// The symbols whose code has length `l`, in the order of their codes.
pub open spec fn symbols_of(lengths: Seq<u8>, l: int) -> Seq<u16> {
    symbols_below(lengths, l, lengths.len())
}

/// The first code of length `l`: codes of one length are consecutive, and
/// start where those of the length before it left off, one bit longer.
pub open spec fn first_code(lengths: Seq<u8>, l: nat) -> nat
    decreases l,
{
    if l <= 1 {
        0
    } else {
        2 * (first_code(lengths, (l - 1) as nat) + symbols_of(lengths, l - 1).len())
    }
}

/// The symbol whose code stands at `p`, looking at lengths from `l` up, and
/// the place after the code.
pub open spec fn decode_from(lengths: Seq<u8>, data: Seq<u8>, p: int, l: nat) -> Result<
    (u16, int),
    Failure,
>
    decreases 16 - l,
{
    if l > 15 {
        Err(failure("invalid Huffman code"@))
    } else if p + l > 8 * data.len() {
        Err(end_of_stream())
    } else {
        let rank = word(data, p, l) - first_code(lengths, l);
        if 0 <= rank < symbols_of(lengths, l as int).len() {
            Ok((symbols_of(lengths, l as int)[rank], p + l))
        } else {
            decode_from(lengths, data, p, l + 1)
        }
    }
}

/// The symbol whose code stands at `p`, and the place after the code.
pub open spec fn decode_symbol(lengths: Seq<u8>, data: Seq<u8>, p: int) -> Result<
    (u16, int),
    Failure,
> {
    decode_from(lengths, data, p, 1)
}

pub proof fn lemma_decode_advances(lengths: Seq<u8>, data: Seq<u8>, p: int, l: nat)
    requires
        1 <= l,
    ensures
        decode_from(lengths, data, p, l) is Ok ==> {
            let (sym, q) = decode_from(lengths, data, p, l)->Ok_0;
            &&& p < q <= 8 * data.len()
        },
    decreases 16 - l,
{
    if l <= 15 {
        lemma_decode_advances(lengths, data, p, l + 1);
    }
}

proof fn lemma_symbols_len(lengths: Seq<u8>, l: int, n: nat)
    ensures
        symbols_below(lengths, l, n).len() <= n,
    decreases n,
{
    if n > 0 {
        lemma_symbols_len(lengths, l, (n - 1) as nat);
    }
}

/// How many symbols have a code shorter than `l`.
spec fn shorter(lengths: Seq<u8>, l: int) -> nat
    decreases l,
{
    if l <= 1 {
        0
    } else {
        shorter(lengths, l - 1) + symbols_of(lengths, l - 1).len()
    }
}

/// A decoder for the canonical code of the given lengths: the symbols grouped
/// by code length, and the size of each group.
struct Huffman {
    lengths: Ghost<Seq<u8>>,
    counts: Vec<u16>,
    symbols: Vec<u16>,
}

impl Huffman {
    spec fn wf(&self) -> bool {
        &&& self.lengths@.len() <= 65535
        &&& self.counts@.len() == 16
        &&& self.counts@[0] == 0
        &&& self.symbols@.len() == shorter(self.lengths@, 16)
        &&& forall|l: int|
            1 <= l <= 15 ==> #[trigger] self.counts@[l] == symbols_of(self.lengths@, l).len()
        &&& forall|l: int, k: int|
            1 <= l <= 15 && 0 <= k < symbols_of(self.lengths@, l).len()
                ==> self.symbols@[shorter(self.lengths@, l) + k]
                == #[trigger] symbols_of(self.lengths@, l)[k]
        &&& forall|l: int|
            1 <= l <= 15 ==> #[trigger] shorter(self.lengths@, l) + symbols_of(
                self.lengths@,
                l,
            ).len() <= self.symbols@.len()
    }

    fn new(lengths: &[u8]) -> (r: Result<Huffman, Error>)
        requires
            lengths@.len() <= 65535,
        ensures
            (exists|i: int| 0 <= i < lengths@.len() && #[trigger] lengths@[i] > 15) <==> r is Err,
            r is Ok ==> r->Ok_0.wf() && r->Ok_0.lengths@ == lengths@,
            r is Err ==> r->Err_0@ == failure("code length exceeds 15"@),
    {
        let mut i: usize = 0;
        while i < lengths.len()
            invariant
                i <= lengths@.len(),
                forall|j: int| 0 <= j < i ==> lengths@[j] <= 15,
            decreases lengths@.len() - i,
        {
            if lengths[i] > 15 {
                return Err(err("code length exceeds 15"));
            }
            i += 1;
        }
        let mut counts: Vec<u16> = Vec::new();
        counts.push(0);
        let mut symbols: Vec<u16> = Vec::new();
        let mut l: u8 = 1;
        while l <= 15
            invariant
                1 <= l <= 16,
                lengths@.len() <= 65535,
                counts@.len() == l,
                counts@[0] == 0,
                symbols@.len() == shorter(lengths@, l as int),
                forall|m: int|
                    1 <= m < l ==> #[trigger] counts@[m] == symbols_of(lengths@, m).len(),
                forall|m: int, k: int|
                    1 <= m < l && 0 <= k < symbols_of(lengths@, m).len() ==> symbols@[shorter(
                        lengths@,
                        m,
                    ) + k] == #[trigger] symbols_of(lengths@, m)[k],
                forall|m: int|
                    1 <= m < l ==> #[trigger] shorter(lengths@, m) + symbols_of(lengths@, m).len()
                        <= symbols@.len(),
            decreases 16 - l,
        {
            let ghost base = symbols@;
            let mut count: u16 = 0;
            let mut sym: usize = 0;
            while sym < lengths.len()
                invariant
                    sym <= lengths@.len() <= 65535,
                    count <= sym,
                    count == symbols_below(lengths@, l as int, sym as nat).len(),
                    symbols@ == base + symbols_below(lengths@, l as int, sym as nat),
                decreases lengths@.len() - sym,
            {
                if lengths[sym] == l {
                    symbols.push(sym as u16);
                    count += 1;
                    assert(symbols@ == base + symbols_below(
                        lengths@,
                        l as int,
                        (sym + 1) as nat,
                    ));
                }
                sym += 1;
            }
            counts.push(count);
            proof {
                let group = symbols_of(lengths@, l as int);
                assert(symbols@ == base + group);
                assert forall|m: int, k: int|
                    1 <= m < l + 1 && 0 <= k < symbols_of(lengths@, m).len() implies symbols@[shorter(
                lengths@, m) + k] == #[trigger] symbols_of(lengths@, m)[k] by {
                    if m < l {
                        assert(shorter(lengths@, m) + symbols_of(lengths@, m).len() <= base.len());
                        assert(symbols@[shorter(lengths@, m) + k] == base[shorter(lengths@, m)
                            + k]);
                    }
                }
            }
            l += 1;
        }
        Ok(Huffman { lengths: Ghost(lengths@), counts, symbols })
    }

    /// Decode one symbol, reading its code's bits most significant first.
    fn decode(&self, bits: &mut BitReader) -> (r: Result<u16, Error>)
        requires
            self.wf(),
            old(bits).wf(),
        ensures
            final(bits).wf(),
            final(bits).data == old(bits).data,
            match decode_symbol(self.lengths@, old(bits).data@, old(bits).at()) {
                Ok((sym, q)) => r == Ok::<u16, Error>(sym) && final(bits).at() == q,
                Err(e) => r is Err && r->Err_0@ == e,
            },
    {
        let ghost lengths = self.lengths@;
        let ghost data = bits.data@;
        let ghost p = bits.at();
        let mut code: u32 = 0;
        let mut first: u32 = 0;
        let mut index: usize = 0;
        let mut l: u32 = 1;
        let mut limit: u32 = 1;
        proof {
            lemma2_to64();
        }
        while l <= 15
            invariant
                1 <= l <= 16,
                self.wf(),
                lengths == self.lengths@,
                bits.wf(),
                bits.data == old(bits).data,
                data == bits.data@,
                p == old(bits).at(),
                bits.at() == p + l - 1,
                code == 2 * word(data, p, (l - 1) as nat),
                first == first_code(lengths, l as nat),
                first <= code,
                limit <= 32768,
                l <= 15 ==> limit * 32768 <= 0x4000_0000,
                code < 2 * limit,
                limit == pow2((l - 1) as nat),
                index == shorter(lengths, l as int),
                index <= self.symbols@.len(),
                decode_symbol(lengths, data, p) == decode_from(lengths, data, p, l as nat),
            decreases 16 - l,
        {
            let b = match bits.read_bit() {
                Ok(b) => b,
                Err(e) => {
                    return Err(e);
                },
            };
            proof {
                lemma_bit_is_binary(data, p + l - 1);
                lemma_symbols_len(lengths, l as int, lengths.len());
            }
            code = code + b;
            let count: u32 = self.counts[l as usize] as u32;
            assert(code == word(data, p, l as nat));
            assert(count == symbols_of(lengths, l as int).len());
            assert(shorter(lengths, l as int) + symbols_of(lengths, l as int).len()
                <= self.symbols.len());
            if code - first < count {
                let k: usize = index + (code - first) as usize;
                assert(self.symbols@[k as int] == symbols_of(lengths, l as int)[code - first]);
                return Ok(self.symbols[k]);
            }
            index += count as usize;
            first = 2 * (first + count);
            code = 2 * code;
            limit = 2 * limit;
            l += 1;
            proof {
                lemma_pow2_unfold((l - 1) as nat);
                lemma2_to64();
                if l <= 15 {
                    if l - 1 < 14 {
                        lemma_pow2_strictly_increases((l - 1) as nat, 14);
                    }
                } else {
                    assert(pow2(15) == 32768);
                }
            }
        }
        Err(err("invalid Huffman code"))
    }
}

// --- inflate -----------------------------------------------------------------

pub const LENGTH_BASE: [u16; 29] = [
    3, 4, 5, 6, 7, 8, 9, 10, 11, 13, 15, 17, 19, 23, 27, 31, 35, 43, 51, 59, 67, 83, 99, 115, 131,
    163, 195, 227, 258,
];

pub const LENGTH_EXTRA: [u32; 29] = [
    0, 0, 0, 0, 0, 0, 0, 0, 1, 1, 1, 1, 2, 2, 2, 2, 3, 3, 3, 3, 4, 4, 4, 4, 5, 5, 5, 5, 0,
];

pub const DIST_BASE: [u16; 30] = [
    1, 2, 3, 4, 5, 7, 9, 13, 17, 25, 33, 49, 65, 97, 129, 193, 257, 385, 513, 769, 1025, 1537,
    2049, 3073, 4097, 6145, 8193, 12289, 16385, 24577,
];

pub const DIST_EXTRA: [u32; 30] = [
    0, 0, 0, 0, 1, 1, 2, 2, 3, 3, 4, 4, 5, 5, 6, 6, 7, 7, 8, 8, 9, 9, 10, 10, 11, 11, 12, 12, 13,
    13,
];

/// The order in which the code lengths of the code-length code are stored.
pub const CL_ORDER: [usize; 19] = [
    16, 17, 18, 0, 8, 7, 9, 6, 10, 5, 11, 4, 12, 3, 13, 2, 14, 1, 15,
];

/// The match that length symbol `sym` and the bits from `p` describe: the
/// place after it, and the output extended by it.
pub open spec fn matched(dist: Seq<u8>, data: Seq<u8>, p: int, sym: int, out: Seq<u8>) -> Result<
    (int, Seq<u8>),
    Failure,
> {
    let i = sym - 257;
    match take_bits(data, p, LENGTH_EXTRA[i] as nat) {
        Err(e) => Err(e),
        Ok(extra) => match decode_symbol(dist, data, p + LENGTH_EXTRA[i]) {
            Err(e) => Err(e),
            Ok((d, q)) => if d >= 30 {
                Err(failure("invalid distance symbol"@))
            } else {
                match take_bits(data, q, DIST_EXTRA[d as int] as nat) {
                    Err(e) => Err(e),
                    Ok(more) => {
                        let distance = DIST_BASE[d as int] + more;
                        if distance > out.len() {
                            Err(failure("match distance before start of output"@))
                        } else {
                            Ok(
                                (
                                    q + DIST_EXTRA[d as int],
                                    copied(out, distance, (LENGTH_BASE[i] + extra) as nat),
                                ),
                            )
                        }
                    },
                }
            },
        },
    }
}

/// The symbols from `p` to the end of their block, under the two codes: the
/// place after the block, and the output extended by it.
pub open spec fn block_body(
    lit: Seq<u8>,
    dist: Seq<u8>,
    data: Seq<u8>,
    p: int,
    out: Seq<u8>,
) -> Result<(int, Seq<u8>), Failure>
    decreases 8 * data.len() - p,
{
    proof {
        lemma_symbol_advances(lit, dist, data, p, out);
    }
    match decode_symbol(lit, data, p) {
        Err(e) => Err(e),
        Ok((sym, q)) => if sym < 256 {
            block_body(lit, dist, data, q, out.push(sym as u8))
        } else if sym == 256 {
            Ok((q, out))
        } else if sym <= 285 {
            match matched(dist, data, q, sym as int, out) {
                Err(e) => Err(e),
                Ok((r, extended)) => block_body(lit, dist, data, r, extended),
            }
        } else {
            Err(failure("invalid literal/length symbol"@))
        },
    }
}

pub proof fn lemma_symbol_advances(
    lit: Seq<u8>,
    dist: Seq<u8>,
    data: Seq<u8>,
    p: int,
    out: Seq<u8>,
)
    ensures
        decode_symbol(lit, data, p) is Ok ==> {
            let (sym, q) = decode_symbol(lit, data, p)->Ok_0;
            &&& p < q <= 8 * data.len()
            &&& 257 <= sym <= 285 && matched(dist, data, q, sym as int, out) is Ok ==> q
                < (matched(dist, data, q, sym as int, out)->Ok_0).0 <= 8 * data.len()
        },
{
    lemma_decode_advances(lit, data, p, 1);
    if decode_symbol(lit, data, p) is Ok {
        let (sym, q) = decode_symbol(lit, data, p)->Ok_0;
        lemma_decode_advances(dist, data, q + LENGTH_EXTRA[sym - 257], 1);
    }
}

/// The code lengths of the code-length code: `n` fields of three bits from
/// `p`, in their scrambled order, the others zero.
pub open spec fn code_length_lengths(data: Seq<u8>, p: int, n: nat) -> Seq<u8>
    decreases n,
{
    if n == 0 {
        Seq::new(19, |i: int| 0u8)
    } else {
        code_length_lengths(data, p, (n - 1) as nat).update(
            CL_ORDER[n - 1] as int,
            field(data, p + 3 * (n - 1), 3) as u8,
        )
    }
}

/// `n` copies of `v`.
pub open spec fn run_of(v: u8, n: nat) -> Seq<u8> {
    Seq::new(n, |i: int| v)
}

/// What one code-length symbol at `p` appends to the lengths so far, and the
/// place after it.
pub open spec fn length_run(cl: Seq<u8>, data: Seq<u8>, p: int, so_far: Seq<u8>) -> Result<
    (int, Seq<u8>),
    Failure,
> {
    match decode_symbol(cl, data, p) {
        Err(e) => Err(e),
        Ok((sym, q)) => if sym <= 15 {
            Ok((q, seq![sym as u8]))
        } else if sym == 16 {
            if so_far.len() == 0 {
                Err(failure("repeat with no previous length"@))
            } else {
                match take_bits(data, q, 2) {
                    Err(e) => Err(e),
                    Ok(n) => Ok((q + 2, run_of(so_far.last(), 3 + n))),
                }
            }
        } else if sym == 17 {
            match take_bits(data, q, 3) {
                Err(e) => Err(e),
                Ok(n) => Ok((q + 3, run_of(0, 3 + n))),
            }
        } else if sym == 18 {
            match take_bits(data, q, 7) {
                Err(e) => Err(e),
                Ok(n) => Ok((q + 7, run_of(0, 11 + n))),
            }
        } else {
            Err(failure("invalid code-length symbol"@))
        },
    }
}

pub proof fn lemma_length_run_advances(cl: Seq<u8>, data: Seq<u8>, p: int, so_far: Seq<u8>)
    ensures
        length_run(cl, data, p, so_far) is Ok ==> p < (length_run(cl, data, p, so_far)->Ok_0).0
            <= 8 * data.len(),
{
    lemma_decode_advances(cl, data, p, 1);
}

/// The code lengths from `p`, until there are at least `total` of them.
pub open spec fn length_table(
    cl: Seq<u8>,
    data: Seq<u8>,
    p: int,
    so_far: Seq<u8>,
    total: nat,
) -> Result<(int, Seq<u8>), Failure>
    decreases 8 * data.len() - p,
{
    if so_far.len() >= total {
        Ok((p, so_far))
    } else {
        proof {
            lemma_length_run_advances(cl, data, p, so_far);
        }
        match length_run(cl, data, p, so_far) {
            Err(e) => Err(e),
            Ok((q, run)) => length_table(cl, data, q, so_far + run, total),
        }
    }
}

/// The two codes of a dynamic block, as their code lengths, and the place
/// after their description.
pub open spec fn dynamic_codes(data: Seq<u8>, p: int) -> Result<
    (int, Seq<u8>, Seq<u8>),
    Failure,
> {
    if p + 14 > 8 * data.len() {
        Err(end_of_stream())
    } else {
        let hlit = field(data, p, 5) + 257;
        let hdist = field(data, p + 5, 5) + 1;
        let hclen = field(data, p + 10, 4) + 4;
        if p + 14 + 3 * hclen > 8 * data.len() {
            Err(end_of_stream())
        } else {
            let cl = code_length_lengths(data, p + 14, hclen);
            match length_table(cl, data, p + 14 + 3 * hclen, Seq::empty(), hlit + hdist) {
                Err(e) => Err(e),
                Ok((q, lengths)) => if lengths.len() != hlit + hdist {
                    Err(failure("code-length run overran the table"@))
                } else {
                    Ok((q, lengths.take(hlit as int), lengths.skip(hlit as int)))
                },
            }
        }
    }
}

/// The code lengths of the fixed literal/length code.
pub open spec fn fixed_literal_lengths() -> Seq<u8> {
    Seq::new(
        288,
        |s: int|
            if s <= 143 {
                8u8
            } else if s <= 255 {
                9u8
            } else if s <= 279 {
                7u8
            } else {
                8u8
            },
    )
}

/// The code lengths of the fixed distance code.
pub open spec fn fixed_distance_lengths() -> Seq<u8> {
    Seq::new(30, |s: int| 5u8)
}

/// A stored block at `p`, after its header bits: a length, its complement and
/// that many bytes, from the next byte boundary on.
pub open spec fn stored_block(data: Seq<u8>, p: int, out: Seq<u8>) -> Result<
    (int, Seq<u8>),
    Failure,
> {
    let b = (p + 7) / 8;
    if b + 4 > data.len() {
        Err(failure("unexpected end of stored block"@))
    } else {
        let len = data[b] + 256 * data[b + 1];
        let check = data[b + 2] + 256 * data[b + 3];
        if len + check != 65535 {
            Err(failure("stored block length check failed"@))
        } else if b + 4 + len > data.len() {
            Err(failure("unexpected end of stored block"@))
        } else {
            Ok((8 * (b + 4 + len), out + data.subrange(b + 4, b + 4 + len)))
        }
    }
}

/// One block at `p`, its final-block flag read: the place after it and the
/// output extended by it.
pub open spec fn one_block(data: Seq<u8>, p: int, out: Seq<u8>) -> Result<
    (int, Seq<u8>),
    Failure,
> {
    match take_bits(data, p, 2) {
        Err(e) => Err(e),
        Ok(kind) => if kind == 0 {
            stored_block(data, p + 2, out)
        } else if kind == 1 {
            block_body(fixed_literal_lengths(), fixed_distance_lengths(), data, p + 2, out)
        } else if kind == 2 {
            match dynamic_codes(data, p + 2) {
                Err(e) => Err(e),
                Ok((q, lit, dist)) => block_body(lit, dist, data, q, out),
            }
        } else {
            Err(failure("reserved DEFLATE block type"@))
        },
    }
}

/// What the blocks from `p` up to the final one append to `out`.
pub open spec fn blocks(data: Seq<u8>, p: int, out: Seq<u8>) -> Result<Seq<u8>, Failure>
    decreases 8 * data.len() - p,
{
    proof {
        lemma_block_advances(data, p + 1, out);
    }
    if p + 1 > 8 * data.len() {
        Err(end_of_stream())
    } else {
        match one_block(data, p + 1, out) {
            Err(e) => Err(e),
            Ok((q, extended)) => if bit(data, p) == 1 {
                Ok(extended)
            } else {
                blocks(data, q, extended)
            },
        }
    }
}

pub proof fn lemma_block_advances(data: Seq<u8>, p: int, out: Seq<u8>)
    ensures
        one_block(data, p, out) is Ok ==> p < (one_block(data, p, out)->Ok_0).0 <= 8 * data.len(),
{
    lemma_body_advances(
        fixed_literal_lengths(),
        fixed_distance_lengths(),
        data,
        p + 2,
        out,
    );
    if dynamic_codes(data, p + 2) is Ok {
        let (q, lit, dist) = dynamic_codes(data, p + 2)->Ok_0;
        let hlit = field(data, p + 2, 5) + 257;
        let hdist = field(data, p + 7, 5) + 1;
        let hclen = field(data, p + 12, 4) + 4;
        lemma_table_advances(
            code_length_lengths(data, p + 16, hclen),
            data,
            p + 16 + 3 * hclen,
            Seq::empty(),
            hlit + hdist,
        );
        lemma_body_advances(lit, dist, data, q, out);
    }
}

proof fn lemma_body_advances(lit: Seq<u8>, dist: Seq<u8>, data: Seq<u8>, p: int, out: Seq<u8>)
    ensures
        block_body(lit, dist, data, p, out) is Ok ==> p < (block_body(
            lit,
            dist,
            data,
            p,
            out,
        )->Ok_0).0 <= 8 * data.len(),
    decreases 8 * data.len() - p,
{
    lemma_symbol_advances(lit, dist, data, p, out);
    if decode_symbol(lit, data, p) is Ok {
        let (sym, q) = decode_symbol(lit, data, p)->Ok_0;
        if sym < 256 {
            lemma_body_advances(lit, dist, data, q, out.push(sym as u8));
        } else if 257 <= sym <= 285 && matched(dist, data, q, sym as int, out) is Ok {
            let (r, extended) = matched(dist, data, q, sym as int, out)->Ok_0;
            lemma_body_advances(lit, dist, data, r, extended);
        }
    }
}

proof fn lemma_table_advances(cl: Seq<u8>, data: Seq<u8>, p: int, so_far: Seq<u8>, total: nat)
    ensures
        length_table(cl, data, p, so_far, total) is Ok ==> p <= (length_table(
            cl,
            data,
            p,
            so_far,
            total,
        )->Ok_0).0,
        length_table(cl, data, p, so_far, total) is Ok && so_far.len() < total ==> (length_table(
            cl,
            data,
            p,
            so_far,
            total,
        )->Ok_0).0 <= 8 * data.len(),
    decreases 8 * data.len() - p,
{
    if so_far.len() < total {
        lemma_length_run_advances(cl, data, p, so_far);
        if length_run(cl, data, p, so_far) is Ok {
            let (q, run) = length_run(cl, data, p, so_far)->Ok_0;
            lemma_table_advances(cl, data, q, so_far + run, total);
        }
    }
}

/// The stream's expansion, which must have the stated size.
pub open spec fn expansion(input: Seq<u8>, expected_size: nat) -> Result<Seq<u8>, Failure> {
    match deflate_stream(input) {
        Err(e) => Err(e),
        Ok(stream) => match blocks(stream, 0, Seq::empty()) {
            Err(e) => Err(e),
            Ok(out) => if out.len() == expected_size {
                Ok(out)
            } else {
                Err(failure("inflated size does not match the page header"@))
            },
        },
    }
}

struct Inflater<'a> {
    bits: BitReader<'a>,
    out: Vec<u8>,
}

impl<'a> Inflater<'a> {
    fn new(data: &'a [u8]) -> (r: Self)
        ensures
            r.bits.wf(),
            r.bits.data == data,
            r.bits.at() == 0,
            r.out@ == Seq::<u8>::empty(),
    {
        Inflater { bits: BitReader::new(data), out: Vec::new() }
    }

    fn run(&mut self) -> (r: Result<(), Error>)
        requires
            old(self).bits.wf(),
        ensures
            match blocks(old(self).bits.data@, old(self).bits.at(), old(self).out@) {
                Ok(out) => r is Ok && final(self).out@ == out,
                Err(e) => r is Err && r->Err_0@ == e,
            },
    {
        let ghost data = self.bits.data@;
        loop
            invariant
                self.bits.wf(),
                self.bits.data@ == data,
                data == old(self).bits.data@,
                blocks(old(self).bits.data@, old(self).bits.at(), old(self).out@) == blocks(
                    data,
                    self.bits.at(),
                    self.out@,
                ),
            decreases 8 * data.len() - self.bits.at(),
        {
            let ghost p = self.bits.at();
            proof {
                lemma_block_advances(data, p + 1, self.out@);
            }
            let last = self.bits.read_bit()?;
            let kind = self.bits.read_bits(2)?;
            if kind == 0 {
                self.stored()?;
            } else if kind == 1 {
                let (lit, dist) = fixed_tables()?;
                self.inflate_block(&lit, &dist)?;
            } else if kind == 2 {
                let (lit, dist) = self.dynamic_tables()?;
                self.inflate_block(&lit, &dist)?;
            } else {
                return Err(err("reserved DEFLATE block type"));
            }
            if last == 1 {
                return Ok(());
            }
        }
    }

    fn stored(&mut self) -> (r: Result<(), Error>)
        requires
            old(self).bits.wf(),
        ensures
            final(self).bits.wf(),
            final(self).bits.data == old(self).bits.data,
            match stored_block(old(self).bits.data@, old(self).bits.at(), old(self).out@) {
                Ok((q, out)) => r is Ok && final(self).bits.at() == q && final(self).out@ == out,
                Err(e) => r is Err && r->Err_0@ == e,
            },
    {
        self.bits.align();
        let data = self.bits.data;
        let b: usize = self.bits.byte;
        if data.len() - b < 4 {
            return Err(err("unexpected end of stored block"));
        }
        let len: usize = data[b] as usize + 256 * (data[b + 1] as usize);
        let check: usize = data[b + 2] as usize + 256 * (data[b + 3] as usize);
        if len + check != 65535 {
            return Err(err("stored block length check failed"));
        }
        if data.len() - b - 4 < len {
            return Err(err("unexpected end of stored block"));
        }
        let mut i: usize = 0;
        while i < len
            invariant
                i <= len,
                b + 4 + len <= data.len(),
                self.bits.data == data,
                self.out@ == old(self).out@ + data@.subrange(b + 4, b + 4 + i),
            decreases len - i,
        {
            self.out.push(data[b + 4 + i]);
            i += 1;
            assert(old(self).out@ + data@.subrange(b + 4, b + 4 + i) == (old(self).out@
                + data@.subrange(b + 4, b + 4 + i - 1)).push(data@[b + 4 + i - 1]));
        }
        self.bits.byte = b + 4 + len;
        self.bits.bit = 0;
        Ok(())
    }

    fn dynamic_tables(&mut self) -> (r: Result<(Huffman, Huffman), Error>)
        requires
            old(self).bits.wf(),
        ensures
            final(self).bits.wf(),
            final(self).bits.data == old(self).bits.data,
            final(self).out == old(self).out,
            match dynamic_codes(old(self).bits.data@, old(self).bits.at()) {
                Ok((q, lit, dist)) => r is Ok && final(self).bits.at() == q && (r->Ok_0).0.wf()
                    && (r->Ok_0).1.wf() && (r->Ok_0).0.lengths@ == lit && (r->Ok_0).1.lengths@
                    == dist,
                Err(e) => r is Err && r->Err_0@ == e,
            },
    {
        let ghost data = self.bits.data@;
        let ghost p = self.bits.at();
        proof {
            lemma2_to64();
        }
        let hlit: usize = self.bits.read_bits(5)? as usize + 257;
        let hdist: usize = self.bits.read_bits(5)? as usize + 1;
        let hclen: usize = self.bits.read_bits(4)? as usize + 4;

        let mut cl_lengths: Vec<u8> = vec![0u8; 19];
        assert(cl_lengths@ =~= code_length_lengths(data, p + 14, 0));
        let mut i: usize = 0;
        while i < hclen
            invariant
                i <= hclen <= 19,
                cl_lengths@.len() == 19,
                self.bits.wf(),
                self.bits.data@ == data,
                self.bits.data == old(self).bits.data,
                self.out == old(self).out,
                self.bits.at() == p + 14 + 3 * i,
                cl_lengths@ == code_length_lengths(data, p + 14, i as nat),
                forall|j: int| 0 <= j < 19 ==> cl_lengths@[j] <= 7,
                p + 14 <= 8 * data.len(),
                hclen == field(data, p + 10, 4) + 4,
                p == old(self).bits.at(),
                data == old(self).bits.data@,
            decreases hclen - i,
        {
            proof {
                lemma2_to64();
            }
            let v = self.bits.read_bits(3)?;
            let slot = CL_ORDER[i];
            assert(slot < 19);
            cl_lengths.set(slot, v as u8);
            i += 1;
        }
        let cl_huf = Huffman::new(cl_lengths.as_slice())?;

        let total: usize = hlit + hdist;
        let mut lengths: Vec<u8> = Vec::new();
        let ghost cl = cl_lengths@;
        while lengths.len() < total
            invariant
                total == hlit + hdist,
                hlit <= 288,
                hdist <= 32,
                lengths@.len() <= total + 138,
                forall|j: int| 0 <= j < lengths@.len() ==> lengths@[j] <= 15,
                cl_huf.wf(),
                cl_huf.lengths@ == cl,
                self.bits.wf(),
                self.bits.data@ == data,
                self.bits.data == old(self).bits.data,
                self.out == old(self).out,
                p == old(self).bits.at(),
                data == old(self).bits.data@,
                hlit == field(data, p, 5) + 257,
                hdist == field(data, p + 5, 5) + 1,
                hclen == field(data, p + 10, 4) + 4,
                p + 14 + 3 * hclen <= 8 * data.len(),
                cl == code_length_lengths(data, p + 14, hclen as nat),
                length_table(cl, data, p + 14 + 3 * hclen, Seq::empty(), total as nat)
                    == length_table(cl, data, self.bits.at(), lengths@, total as nat),
            decreases 8 * data.len() - self.bits.at(),
        {
            let ghost q = self.bits.at();
            let ghost so_far = lengths@;
            proof {
                lemma_length_run_advances(cl, data, q, so_far);
                lemma2_to64();
            }
            let sym = cl_huf.decode(&mut self.bits)?;
            if sym <= 15 {
                lengths.push(sym as u8);
                assert(lengths@ == so_far + seq![sym as u8]);
            } else if sym == 16 {
                if lengths.len() == 0 {
                    return Err(err("repeat with no previous length"));
                }
                let prev = lengths[lengths.len() - 1];
                let n = self.bits.read_bits(2)?;
                push_run(&mut lengths, prev, 3 + n as usize);
            } else if sym == 17 {
                let n = self.bits.read_bits(3)?;
                push_run(&mut lengths, 0, 3 + n as usize);
            } else if sym == 18 {
                let n = self.bits.read_bits(7)?;
                push_run(&mut lengths, 0, 11 + n as usize);
            } else {
                return Err(err("invalid code-length symbol"));
            }
        }
        if lengths.len() != total {
            return Err(err("code-length run overran the table"));
        }
        let lit_lengths = vstd::slice::slice_subrange(lengths.as_slice(), 0, hlit);
        let dist_lengths = vstd::slice::slice_subrange(lengths.as_slice(), hlit, total);
        proof {
            assert(lit_lengths@ =~= lengths@.take(hlit as int));
            assert(dist_lengths@ =~= lengths@.skip(hlit as int));
        }
        let lit = Huffman::new(lit_lengths)?;
        let dist = Huffman::new(dist_lengths)?;
        Ok((lit, dist))
    }

    fn inflate_block(&mut self, lit: &Huffman, dist: &Huffman) -> (r: Result<(), Error>)
        requires
            old(self).bits.wf(),
            lit.wf(),
            dist.wf(),
        ensures
            final(self).bits.wf(),
            final(self).bits.data == old(self).bits.data,
            match block_body(
                lit.lengths@,
                dist.lengths@,
                old(self).bits.data@,
                old(self).bits.at(),
                old(self).out@,
            ) {
                Ok((q, out)) => r is Ok && final(self).bits.at() == q && final(self).out@ == out,
                Err(e) => r is Err && r->Err_0@ == e,
            },
    {
        let ghost data = self.bits.data@;
        loop
            invariant
                lit.wf(),
                dist.wf(),
                self.bits.wf(),
                self.bits.data == old(self).bits.data,
                self.bits.data@ == data,
                block_body(
                    lit.lengths@,
                    dist.lengths@,
                    old(self).bits.data@,
                    old(self).bits.at(),
                    old(self).out@,
                ) == block_body(lit.lengths@, dist.lengths@, data, self.bits.at(), self.out@),
            decreases 8 * data.len() - self.bits.at(),
        {
            proof {
                lemma_symbol_advances(lit.lengths@, dist.lengths@, data, self.bits.at(), self.out@);
            }
            let sym = lit.decode(&mut self.bits)?;
            if sym < 256 {
                self.out.push(sym as u8);
            } else if sym == 256 {
                return Ok(());
            } else if sym <= 285 {
                self.read_match(sym, dist)?;
            } else {
                return Err(err("invalid literal/length symbol"));
            }
        }
    }

    /// Read the rest of a match after its length symbol, and copy it.
    fn read_match(&mut self, sym: u16, dist: &Huffman) -> (r: Result<(), Error>)
        requires
            old(self).bits.wf(),
            dist.wf(),
            257 <= sym <= 285,
        ensures
            final(self).bits.wf(),
            final(self).bits.data == old(self).bits.data,
            match matched(
                dist.lengths@,
                old(self).bits.data@,
                old(self).bits.at(),
                sym as int,
                old(self).out@,
            ) {
                Ok((q, out)) => r is Ok && final(self).bits.at() == q && final(self).out@ == out,
                Err(e) => r is Err && r->Err_0@ == e && final(self).out@ == old(self).out@,
            },
    {
        let i: usize = sym as usize - 257;
        proof {
            lemma2_to64();
            lemma_table_bounds();
        }
        let extra = self.bits.read_bits(LENGTH_EXTRA[i])?;
        let length: u128 = LENGTH_BASE[i] as u128 + extra as u128;
        let d = dist.decode(&mut self.bits)? as usize;
        if d >= 30 {
            return Err(err("invalid distance symbol"));
        }
        let more = self.bits.read_bits(DIST_EXTRA[d])?;
        let distance: usize = DIST_BASE[d] as usize + more as usize;
        self.copy_match(distance, length)
    }

    /// Append `length` bytes from `distance` bytes back, those just appended among
    /// them. Where the distance is nothing or leads before the output, the output
    /// stays as it is.
    fn copy_match(&mut self, distance: usize, length: u128) -> (r: Result<(), Error>)
        ensures
            final(self).bits == old(self).bits,
            if distance == 0 || distance > old(self).out@.len() {
                &&& r is Err
                &&& r->Err_0@ == failure("match distance before start of output"@)
                &&& final(self).out@ == old(self).out@
            } else {
                let n = old(self).out@.len();
                &&& r is Ok
                &&& final(self).out@ == copied(old(self).out@, distance as int, length as nat)
                &&& final(self).out@.len() == n + length
                &&& final(self).out@.take(n as int) == old(self).out@
                &&& forall|k: int|
                    0 <= k < length ==> #[trigger] final(self).out@[n + k] == final(self).out@[n + k
                        - distance]
            },
    {
        if distance == 0 || distance > self.out.len() {
            return Err(err("match distance before start of output"));
        }
        let ghost before = self.out@;
        copy_back(&mut self.out, distance, length);
        proof {
            law_copy_is_periodic(before, distance as int, length as nat);
        }
        Ok(())
    }
}

proof fn lemma_table_bounds()
    ensures
        forall|i: int| 0 <= i < 29 ==> #[trigger] LENGTH_EXTRA[i] <= 5,
        forall|i: int| 0 <= i < 30 ==> #[trigger] DIST_EXTRA[i] <= 13,
        forall|i: int| 0 <= i < 30 ==> #[trigger] DIST_BASE[i] >= 1,
{
}

/// Append `n` copies of `v`.
fn push_run(lengths: &mut Vec<u8>, v: u8, n: usize)
    ensures
        final(lengths)@ == old(lengths)@ + run_of(v, n as nat),
{
    let mut k: usize = 0;
    assert(lengths@ =~= lengths@ + run_of(v, 0));
    while k < n
        invariant
            k <= n,
            lengths@ == old(lengths)@ + run_of(v, k as nat),
        decreases n - k,
    {
        lengths.push(v);
        k += 1;
        assert(lengths@ =~= old(lengths)@ + run_of(v, k as nat));
    }
}

/// The two fixed codes.
fn fixed_tables() -> (r: Result<(Huffman, Huffman), Error>)
    ensures
        r is Ok,
        (r->Ok_0).0.wf(),
        (r->Ok_0).1.wf(),
        (r->Ok_0).0.lengths@ == fixed_literal_lengths(),
        (r->Ok_0).1.lengths@ == fixed_distance_lengths(),
{
    let mut lit: Vec<u8> = Vec::new();
    push_run(&mut lit, 8, 144);
    push_run(&mut lit, 9, 112);
    push_run(&mut lit, 7, 24);
    push_run(&mut lit, 8, 8);
    assert(lit@ =~= fixed_literal_lengths());
    let mut dist: Vec<u8> = Vec::new();
    push_run(&mut dist, 5, 30);
    assert(dist@ =~= fixed_distance_lengths());
    let a = Huffman::new(lit.as_slice())?;
    let b = Huffman::new(dist.as_slice())?;
    Ok((a, b))
}

/// Decompress a GZIP, zlib or raw DEFLATE stream to exactly `expected_size`
/// bytes.
pub fn decompress(input: &[u8], expected_size: usize) -> (r: Result<Vec<u8>, Error>)
    ensures
        outcome(r) == expansion(input@, expected_size as nat),
{
    let start = strip_container(input)?;
    let stream = vstd::slice::slice_subrange(input, start, input.len());
    assert(stream@ =~= input@.skip(start as int));
    let mut inflater = Inflater::new(stream);
    inflater.run()?;
    if inflater.out.len() != expected_size {
        return Err(err("inflated size does not match the page header"));
    }
    Ok(inflater.out)
}

/// `data` as one final stored block.
pub open spec fn stored_stream(data: Seq<u8>) -> Seq<u8> {
    let lo = (data.len() % 256) as u8;
    let hi = (data.len() / 256) as u8;
    seq![1u8, lo, hi, (255 - lo) as u8, (255 - hi) as u8] + data
}

/// A stored block expands to the bytes it stores.
#[verifier::spinoff_prover]
#[verifier::rlimit(60)]
pub proof fn law_stored_bytes_come_back(data: Seq<u8>)
    requires
        data.len() <= 65535,
    ensures
        expansion(stored_stream(data), data.len()) == Ok::<Seq<u8>, Failure>(data),
{
    let stream = stored_stream(data);
    assert(1u8 & 15 == 1u8) by (bit_vector);
    assert((1u8 >> 0u32) & 1u8 == 1u8) by (bit_vector);
    assert((1u8 >> 1u32) & 1u8 == 0u8) by (bit_vector);
    assert((1u8 >> 2u32) & 1u8 == 0u8) by (bit_vector);
    assert(bit(stream, 0) == 1);
    assert(bit(stream, 1) == 0);
    assert(bit(stream, 2) == 0);
    reveal_with_fuel(field, 3);
    assert(field(stream, 1, 2) == 0) by (nonlinear_arith)
        requires
            field(stream, 1, 2) == 0 + 0 * pow2(0) + 0 * pow2(1),
    ;
    assert(stream.subrange(5, 5 + data.len() as int) =~= data);
    assert(Seq::<u8>::empty() + data =~= data);
}

/// A gzip member without optional fields holds the stream that follows its
/// ten-byte header.
pub proof fn law_plain_gzip_header_is_transparent(header: Seq<u8>, stream: Seq<u8>)
    requires
        header.len() == 10,
        header[0] == 0x1f,
        header[1] == 0x8b,
        header[2] == 8,
        header[3] == 0,
    ensures
        deflate_stream(header + stream) == Ok::<Seq<u8>, Failure>(stream),
{
    let input = header + stream;
    assert(0u8 & 2 == 0 && 0u8 & 4 == 0 && 0u8 & 8 == 0 && 0u8 & 16 == 0) by (bit_vector);
    assert(input.skip(10) =~= stream);
}

} // verus!
