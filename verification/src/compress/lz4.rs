//! LZ4 block decompression.
//!
//! A block is a series of sequences. Each begins with a token byte: the high
//! nibble is the literal length, the low nibble is the match length minus the
//! four-byte minimum. A nibble of 15 continues in further length bytes, summed
//! and terminated by a byte below 255. After the literals comes a two-byte
//! little-endian match offset, unless the sequence is the final, literals-only
//! one at the end of the block.
use vstd::prelude::*;

use super::window::copied;
use super::window::copy_back;
use crate::error::outcome;
use crate::error::tagged;
use crate::error::Error;
use crate::error::Failure;

verus! {

/// The failure that carries this message.
pub open spec fn failure(message: Seq<char>) -> Failure {
    Failure::Parquet("lz4: "@ + message)
}

fn err(message: &str) -> (e: Error)
    ensures
        e@ == failure(message@),
{
    Error::Parquet(tagged("lz4: ", message))
}

/// A length extension at `at`: bytes of 255 accumulate and a lower one ends
/// it. The sum and the place after it, or nothing where the input runs out.
pub open spec fn extension(input: Seq<u8>, at: int) -> Option<(nat, int)>
    decreases input.len() - at,
{
    if at < 0 || at >= input.len() {
        None
    } else if input[at] != 255 {
        Some((input[at] as nat, at + 1))
    } else {
        match extension(input, at + 1) {
            Some((rest, end)) => Some((255 + rest, end)),
            None => None,
        }
    }
}

/// A length: the nibble itself, and the extension at `at` where it is 15.
pub open spec fn length(nibble: u8, input: Seq<u8>, at: int) -> Option<(nat, int)> {
    if nibble == 15 {
        match extension(input, at) {
            Some((rest, end)) => Some((15 + rest, end)),
            None => None,
        }
    } else {
        Some((nibble as nat, at))
    }
}

proof fn lemma_length_advances(nibble: u8, input: Seq<u8>, at: int)
    requires
        0 <= at <= input.len(),
    ensures
        length(nibble, input, at) is Some ==> at <= (length(nibble, input, at)->0).1 <= input.len(),
{
    lemma_extension_advances(input, at);
}

proof fn lemma_extension_advances(input: Seq<u8>, at: int)
    requires
        0 <= at <= input.len(),
    ensures
        extension(input, at) is Some ==> at < (extension(input, at)->0).1 <= input.len(),
    decreases input.len() - at,
{
    if at < input.len() && input[at] == 255 {
        lemma_extension_advances(input, at + 1);
    }
}

/// What the sequences from `at` to the end of the block append to `out`.
pub open spec fn sequences(input: Seq<u8>, at: int, out: Seq<u8>) -> Result<Seq<u8>, Failure>
    decreases input.len() - at,
{
    if at < 0 || at >= input.len() {
        Ok(out)
    } else {
        proof {
            lemma_sequence_advances(input, at);
        }
        let token = input[at];
        match length(token >> 4, input, at + 1) {
            None => Err(failure("truncated block"@)),
            Some((literals, from)) => if from + literals > input.len() {
                Err(failure("literal run out of range"@))
            } else {
                let end = from + literals;
                let written = out + input.subrange(from, end);
                if end == input.len() {
                    Ok(written)
                } else if end + 2 > input.len() {
                    Err(failure("truncated block"@))
                } else {
                    let offset = input[end] + 256 * input[end + 1];
                    if offset == 0 || offset > written.len() {
                        Err(failure("match offset out of range"@))
                    } else {
                        match length(token & 15, input, end + 2) {
                            None => Err(failure("truncated block"@)),
                            Some((extra, next)) => sequences(
                                input,
                                next,
                                copied(written, offset, extra + 4),
                            ),
                        }
                    }
                }
            },
        }
    }
}

pub proof fn lemma_sequence_advances(input: Seq<u8>, at: int)
    requires
        0 <= at < input.len(),
    ensures
        forall|nibble: u8, from: int|
            at < from <= input.len() && (#[trigger] length(nibble, input, from)) is Some ==> from
                <= (length(nibble, input, from)->0).1 <= input.len(),
{
    assert forall|nibble: u8, from: int|
        at < from <= input.len() && (#[trigger] length(nibble, input, from)) is Some implies from
        <= (length(nibble, input, from)->0).1 <= input.len() by {
        lemma_length_advances(nibble, input, from);
    }
}

/// The block's expansion, which must have the stated size.
pub open spec fn expansion(input: Seq<u8>, expected_size: nat) -> Result<Seq<u8>, Failure> {
    match sequences(input, 0, Seq::empty()) {
        Err(e) => Err(e),
        Ok(out) => if out.len() == expected_size {
            Ok(out)
        } else {
            Err(failure("decompressed size does not match the page header"@))
        },
    }
}

/// Decompress one raw LZ4 block to exactly `expected_size` bytes.
pub fn decompress(input: &[u8], expected_size: usize) -> (r: Result<Vec<u8>, Error>)
    ensures
        outcome(r) == expansion(input@, expected_size as nat),
{
    let mut out: Vec<u8> = Vec::new();
    let mut ip: usize = 0;
    while ip < input.len()
        invariant
            ip <= input@.len(),
            sequences(input@, 0, Seq::empty()) == sequences(input@, ip as int, out@),
        decreases input@.len() - ip,
    {
        let ghost at = ip as int;
        let ghost before = out@;
        let token = input[ip];
        ip += 1;
        proof {
            lemma_length_advances(token >> 4, input@, ip as int);
        }
        let (literals, from) = match read_length(token >> 4, input, ip) {
            Some(found) => found,
            None => {
                return Err(err("truncated block"));
            },
        };
        if literals > (input.len() - from) as u128 {
            return Err(err("literal run out of range"));
        }
        let end: usize = from + literals as usize;
        append_bytes(&mut out, input, from, end);
        if end == input.len() {
            ip = end;
            assert(sequences(input@, at, before) == Ok::<Seq<u8>, Failure>(out@));
            assert(sequences(input@, ip as int, out@) == Ok::<Seq<u8>, Failure>(out@));
            continue;
        }
        if end + 1 >= input.len() {
            return Err(err("truncated block"));
        }
        let offset: usize = input[end] as usize + 256 * (input[end + 1] as usize);
        if offset == 0 || offset > out.len() {
            return Err(err("match offset out of range"));
        }
        proof {
            lemma_length_advances(token & 15, input@, end + 2);
        }
        let (extra, next) = match read_length(token & 15, input, end + 2) {
            Some(found) => found,
            None => {
                return Err(err("truncated block"));
            },
        };
        copy_back(&mut out, offset, extra + 4);
        ip = next;
    }
    if out.len() != expected_size {
        return Err(err("decompressed size does not match the page header"));
    }
    Ok(out)
}

/// Append `input[from..to]` to `out`.
fn append_bytes(out: &mut Vec<u8>, input: &[u8], from: usize, to: usize)
    requires
        from <= to <= input@.len(),
    ensures
        final(out)@ == old(out)@ + input@.subrange(from as int, to as int),
{
    let mut i: usize = from;
    while i < to
        invariant
            from <= i <= to <= input@.len(),
            out@ == old(out)@ + input@.subrange(from as int, i as int),
        decreases to - i,
    {
        out.push(input[i]);
        i += 1;
        assert(old(out)@ + input@.subrange(from as int, i as int) == (old(out)@ + input@.subrange(
            from as int,
            i - 1,
        )).push(input@[i - 1]));
    }
}

/// Read a length whose first part is `nibble` and whose extension, if it has
/// one, starts at `at`.
fn read_length(nibble: u8, input: &[u8], at: usize) -> (r: Option<(u128, usize)>)
    requires
        at <= input@.len(),
    ensures
        match length(nibble, input@, at as int) {
            Some((n, end)) => r is Some && (r->0).0 == n && (r->0).1 == end && at <= end <= input@.len(),
            None => r is None,
        },
        r is Some ==> (r->0).0 <= 255 * (input@.len() + 1),
{
    if nibble != 15 {
        return Some((nibble as u128, at));
    }
    let mut sum: u128 = 15;
    let mut i: usize = at;
    proof {
        lemma_extension_advances(input@, at as int);
    }
    while i < input.len()
        invariant
            at <= i <= input@.len(),
            nibble == 15,
            sum <= 15 + 255 * (i - at),
            match extension(input@, at as int) {
                Some((n, end)) => extension(input@, i as int) is Some && 15 + n == sum + (extension(
                    input@,
                    i as int,
                )->0).0 && end == (extension(input@, i as int)->0).1,
                None => extension(input@, i as int) is None,
            },
        decreases input@.len() - i,
    {
        let b = input[i];
        sum += b as u128;
        i += 1;
        if b != 255 {
            return Some((sum, i));
        }
    }
    None
}

/// The block that holds `data` as one run of literals.
pub open spec fn literal_block(data: Seq<u8>) -> Seq<u8> {
    if data.len() < 15 {
        seq![(data.len() * 16) as u8] + data
    } else {
        seq![240u8] + extension_bytes((data.len() - 15) as nat) + data
    }
}

/// The extension bytes for `n`.
pub open spec fn extension_bytes(n: nat) -> Seq<u8>
    decreases n,
{
    if n < 255 {
        seq![n as u8]
    } else {
        seq![255u8] + extension_bytes((n - 255) as nat)
    }
}

pub proof fn lemma_extension_bytes_read_back(n: nat, before: Seq<u8>, after: Seq<u8>)
    ensures
        extension(before + extension_bytes(n) + after, before.len() as int) == Some(
            (n, (before.len() + extension_bytes(n).len()) as int),
        ),
    decreases n,
{
    let whole = before + extension_bytes(n) + after;
    assert(whole[before.len() as int] == extension_bytes(n)[0]);
    if n >= 255 {
        let rest = extension_bytes((n - 255) as nat);
        lemma_extension_bytes_read_back((n - 255) as nat, before.push(255u8), after);
        assert(before.push(255u8) + rest + after =~= whole);
    }
}

/// A block of literals alone expands to those literals.
pub proof fn law_literals_come_back(data: Seq<u8>)
    ensures
        expansion(literal_block(data), data.len()) == Ok::<Seq<u8>, Failure>(data),
{
    let block = literal_block(data);
    let token = block[0];
    if data.len() < 15 {
        let n = data.len() as u8;
        assert((mul_sixteen(n) >> 4) == n && n * 16 == mul_sixteen(n)) by (bit_vector)
            requires
                n < 15,
        ;
        assert(token >> 4 == n);
        assert(block.subrange(1, 1 + data.len() as int) =~= data);
    } else {
        assert(240u8 >> 4 == 15u8) by (bit_vector);
        let ext = extension_bytes((data.len() - 15) as nat);
        lemma_extension_bytes_read_back((data.len() - 15) as nat, seq![240u8], data);
        assert(block.subrange((1 + ext.len()) as int, block.len() as int) =~= data);
    }
    assert(Seq::<u8>::empty() + data =~= data);
    assert(sequences(block, 0, Seq::empty()) == Ok::<Seq<u8>, Failure>(data));
}

spec fn mul_sixteen(n: u8) -> u8 {
    n << 4
}

} // verus!
