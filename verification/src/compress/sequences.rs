//! What a block of sequences expands to.
use vstd::prelude::*;

use super::lz4::{
    expansion, extension_bytes, length, lemma_extension_bytes_read_back, sequences,
};
use super::tokens::{after, lemma_copied, Token};
use super::window::copied;
use crate::error::Failure;

verus! {

/// Bytes as they are, and a copy of bytes from a distance back.
pub struct Sequence {
    pub literals: Seq<u8>,
    pub distance: int,
    pub length: nat,
}

/// The half of a byte that says a number, where it is below fifteen.
pub open spec fn half(n: nat) -> int {
    if n < 15 {
        n as int
    } else {
        15
    }
}

/// What a number has above fifteen, in bytes that are all full but the last.
pub open spec fn surplus(n: nat) -> Seq<u8> {
    if n < 15 {
        Seq::empty()
    } else {
        extension_bytes((n - 15) as nat)
    }
}

impl Sequence {
    pub open spec fn is_sequence(self) -> bool {
        1 <= self.distance <= 65535 && self.length >= 4
    }

    /// The sequence in bytes: the two halves of the lengths, the surplus of the first, the
    /// literals, the distance with its lower byte first, and the surplus of the second, which
    /// counts from four.
    pub open spec fn form(self) -> Seq<u8> {
        seq![(16 * half(self.literals.len()) + half((self.length - 4) as nat)) as u8] + surplus(
            self.literals.len(),
        ) + self.literals + seq![(self.distance % 256) as u8, (self.distance / 256) as u8] + surplus(
            (self.length - 4) as nat,
        )
    }

    /// What the sequence makes of what was there.
    pub open spec fn made(self, out: Seq<u8>) -> Seq<u8> {
        after(
            out + self.literals,
            Token::Copy { length: self.length as int, distance: self.distance },
        )
    }
}

/// Sequences from the `i`th on, and literals at the end.
pub open spec fn block_form(parts: Seq<Sequence>, i: int, last: Seq<u8>) -> Seq<u8>
    decreases parts.len() - i,
{
    if i < 0 || i >= parts.len() {
        seq![(16 * half(last.len())) as u8] + surplus(last.len()) + last
    } else {
        parts[i].form() + block_form(parts, i + 1, last)
    }
}

/// What sequences from the `i`th on, and literals at the end, make of what was there.
pub open spec fn block_made(out: Seq<u8>, parts: Seq<Sequence>, i: int, last: Seq<u8>) -> Seq<u8>
    decreases parts.len() - i,
{
    if i < 0 || i >= parts.len() {
        out + last
    } else {
        block_made(parts[i].made(out), parts, i + 1, last)
    }
}

/// Whether no copy reaches back before the start.
pub open spec fn stays_within(out: Seq<u8>, parts: Seq<Sequence>, i: int) -> bool
    decreases parts.len() - i,
{
    i < 0 || i >= parts.len() || {
        &&& parts[i].is_sequence()
        &&& parts[i].distance <= out.len() + parts[i].literals.len()
        &&& stays_within(parts[i].made(out), parts, i + 1)
    }
}

proof fn lemma_halves(t: u8, a: int, b: int)
    requires
        0 <= a < 16,
        0 <= b < 16,
        t == 16 * a + b,
    ensures
        t >> 4 == a,
        t & 15 == b,
{
    let x = a as u8;
    let y = b as u8;
    assert(t >> 4 == x && t & 15 == y) by (bit_vector)
        requires
            t == 16 * x + y,
            x < 16,
            y < 16,
    ;
}

proof fn lemma_length(n: nat, nibble: u8, before: Seq<u8>, rest: Seq<u8>)
    requires
        nibble == half(n),
    ensures
        length(nibble, before + surplus(n) + rest, before.len() as int) == Some(
            (n, (before.len() + surplus(n).len()) as int),
        ),
{
    if n >= 15 {
        lemma_extension_bytes_read_back((n - 15) as nat, before, rest);
    }
}

/// One sequence of which the parts are known to stand where they do.
proof fn lemma_step(
    input: Seq<u8>,
    at: int,
    out: Seq<u8>,
    q: Sequence,
    from: int,
    next: int,
)
    requires
        0 <= at < input.len(),
        q.is_sequence(),
        q.distance <= out.len() + q.literals.len(),
        length(input[at] >> 4, input, at + 1) == Some((q.literals.len(), from)),
        0 <= from,
        from + q.literals.len() + 2 <= input.len(),
        input.subrange(from, from + q.literals.len()) == q.literals,
        input[from + q.literals.len()] == q.distance % 256,
        input[from + q.literals.len() + 1] == q.distance / 256,
        length(input[at] & 15, input, from + q.literals.len() + 2) == Some(
            ((q.length - 4) as nat, next),
        ),
    ensures
        sequences(input, at, out) == sequences(input, next, q.made(out)),
{
    let written = out + q.literals;
    lemma_copied(written, q.distance, q.length);
    assert(copied(written, q.distance, q.length) == q.made(out));
}

/// Where the parts of a sequence stand, with anything before it and behind it.
proof fn lemma_places(before: Seq<u8>, q: Sequence, tail: Seq<u8>)
    requires
        q.is_sequence(),
    ensures
        ({
            let input = before + q.form() + tail;
            let at = before.len() as int;
            let from = (before.len() + 1 + surplus(q.literals.len()).len()) as int;
            let end = from + q.literals.len();
            let next = (before.len() + q.form().len()) as int;
            &&& length(input[at] >> 4, input, at + 1) == Some((q.literals.len(), from))
            &&& end + 2 <= input.len()
            &&& input.subrange(from, end) == q.literals
            &&& input[end] == q.distance % 256
            &&& input[end + 1] == q.distance / 256
            &&& length(input[at] & 15, input, end + 2) == Some(((q.length - 4) as nat, next))
        }),
{
    let input = before + q.form() + tail;
    let at = before.len() as int;
    let lits = q.literals;
    let extra = (q.length - 4) as nat;
    let first = surplus(lits.len());
    let second = surplus(extra);
    let t = (16 * half(lits.len()) + half(extra)) as u8;
    let pair = seq![(q.distance % 256) as u8, (q.distance / 256) as u8];
    let head = before + seq![t];
    let front = head + first + lits + pair;
    let from = (head.len() + first.len()) as int;
    let end = from + lits.len();
    assert(input[at] == t);
    lemma_halves(t, half(lits.len()), half(extra));
    assert(input =~= head + first + (lits + pair + second + tail));
    lemma_length(lits.len(), t >> 4, head, lits + pair + second + tail);
    assert(input =~= front + second + tail);
    lemma_length(extra, t & 15, front, tail);
    assert(input.subrange(from, end) =~= lits);
    assert(input[end] == pair[0]);
    assert(input[end + 1] == pair[1]);
}

proof fn lemma_last(before: Seq<u8>, last: Seq<u8>, out: Seq<u8>)
    ensures
        sequences(
            before + (seq![(16 * half(last.len())) as u8] + surplus(last.len()) + last),
            before.len() as int,
            out,
        ) == Ok::<Seq<u8>, Failure>(out + last),
{
    let t = (16 * half(last.len())) as u8;
    let input = before + (seq![t] + surplus(last.len()) + last);
    assert(input[before.len() as int] == t);
    lemma_halves(t, half(last.len()), 0);
    let head = before + seq![t];
    assert(input =~= head + surplus(last.len()) + last);
    lemma_length(last.len(), t >> 4, head, last);
    let from = (head.len() + surplus(last.len()).len()) as int;
    assert(input.subrange(from, input.len() as int) =~= last);
}

proof fn lemma_block(
    before: Seq<u8>,
    parts: Seq<Sequence>,
    i: int,
    last: Seq<u8>,
    out: Seq<u8>,
)
    requires
        0 <= i <= parts.len(),
        stays_within(out, parts, i),
    ensures
        sequences(before + block_form(parts, i, last), before.len() as int, out) == Ok::<
            Seq<u8>,
            Failure,
        >(block_made(out, parts, i, last)),
    decreases parts.len() - i,
{
    if i == parts.len() {
        lemma_last(before, last, out);
    } else {
        let q = parts[i];
        let tail = block_form(parts, i + 1, last);
        let input = before + block_form(parts, i, last);
        let done = before + q.form();
        assert(input =~= done + tail);
        lemma_places(before, q, tail);
        let from = (before.len() + 1 + surplus(q.literals.len()).len()) as int;
        lemma_step(input, before.len() as int, out, q, from, done.len() as int);
        lemma_block(done, parts, i + 1, last, q.made(out));
    }
}

/// A block of sequences, with literals at its end, is what they expand to.
pub proof fn law_sequences_expand(parts: Seq<Sequence>, last: Seq<u8>)
    requires
        stays_within(Seq::empty(), parts, 0),
    ensures
        ({
            let made = block_made(Seq::empty(), parts, 0, last);
            expansion(block_form(parts, 0, last), made.len()) == Ok::<Seq<u8>, Failure>(made)
        }),
{
    lemma_block(Seq::empty(), parts, 0, last, Seq::empty());
    assert(Seq::empty() + block_form(parts, 0, last) =~= block_form(parts, 0, last));
}

} // verus!
