//! What follows the last block of a stream changes nothing.
use vstd::prelude::*;

use super::gzip::{
    bit, block_body, blocks, code_length_lengths, decode_from, decode_symbol, deflate_stream,
    dynamic_codes, expansion, field, fixed_distance_lengths, fixed_literal_lengths, is_zlib,
    law_plain_gzip_header_is_transparent, lemma_block_advances, lemma_decode_advances,
    lemma_length_run_advances, lemma_symbol_advances, length_run, length_table, matched, one_block,
    stored_block, take_bits, word, DIST_EXTRA, LENGTH_EXTRA,
};
use crate::error::Failure;

verus! {

// --- bits ----------------------------------------------------------------------------------

proof fn lemma_bit_stays(data: Seq<u8>, tail: Seq<u8>, p: int)
    requires
        0 <= p < 8 * data.len(),
    ensures
        bit(data + tail, p) == bit(data, p),
{
    assert((data + tail)[p / 8] == data[p / 8]);
}

proof fn lemma_field_stays(data: Seq<u8>, tail: Seq<u8>, p: int, n: nat)
    requires
        0 <= p,
        p + n <= 8 * data.len(),
    ensures
        field(data + tail, p, n) == field(data, p, n),
    decreases n,
{
    if n > 0 {
        lemma_field_stays(data, tail, p, (n - 1) as nat);
        lemma_bit_stays(data, tail, p + n - 1);
    }
}

proof fn lemma_word_stays(data: Seq<u8>, tail: Seq<u8>, p: int, n: nat)
    requires
        0 <= p,
        p + n <= 8 * data.len(),
    ensures
        word(data + tail, p, n) == word(data, p, n),
    decreases n,
{
    if n > 0 {
        lemma_word_stays(data, tail, p, (n - 1) as nat);
        lemma_bit_stays(data, tail, p + n - 1);
    }
}

proof fn lemma_bits_stay(data: Seq<u8>, tail: Seq<u8>, p: int, n: nat)
    requires
        0 <= p,
        take_bits(data, p, n) is Ok,
    ensures
        take_bits(data + tail, p, n) == take_bits(data, p, n),
{
    lemma_field_stays(data, tail, p, n);
}

// --- codes ---------------------------------------------------------------------------------

proof fn lemma_code_stays(lengths: Seq<u8>, data: Seq<u8>, tail: Seq<u8>, p: int, l: nat)
    requires
        0 <= p,
        1 <= l,
        decode_from(lengths, data, p, l) is Ok,
    ensures
        decode_from(lengths, data + tail, p, l) == decode_from(lengths, data, p, l),
    decreases 16 - l,
{
    if l <= 15 && p + l <= 8 * data.len() {
        lemma_word_stays(data, tail, p, l);
        if decode_from(lengths, data, p, l) == decode_from(lengths, data, p, l + 1) {
            lemma_code_stays(lengths, data, tail, p, l + 1);
        }
    }
}

proof fn lemma_match_stays(
    dist: Seq<u8>,
    data: Seq<u8>,
    tail: Seq<u8>,
    p: int,
    sym: int,
    out: Seq<u8>,
)
    requires
        0 <= p,
        257 <= sym <= 285,
        matched(dist, data, p, sym, out) is Ok,
    ensures
        matched(dist, data + tail, p, sym, out) == matched(dist, data, p, sym, out),
{
    let extra = LENGTH_EXTRA[sym - 257];
    lemma_bits_stay(data, tail, p, extra as nat);
    lemma_code_stays(dist, data, tail, p + extra, 1);
    lemma_decode_advances(dist, data, p + extra, 1);
    let (d, q) = decode_symbol(dist, data, p + extra)->Ok_0;
    lemma_bits_stay(data, tail, q, DIST_EXTRA[d as int] as nat);
}

proof fn lemma_body_stays(
    lit: Seq<u8>,
    dist: Seq<u8>,
    data: Seq<u8>,
    tail: Seq<u8>,
    p: int,
    out: Seq<u8>,
)
    requires
        0 <= p,
        block_body(lit, dist, data, p, out) is Ok,
    ensures
        block_body(lit, dist, data + tail, p, out) == block_body(lit, dist, data, p, out),
    decreases 8 * data.len() - p,
{
    lemma_symbol_advances(lit, dist, data, p, out);
    lemma_code_stays(lit, data, tail, p, 1);
    let (sym, q) = decode_symbol(lit, data, p)->Ok_0;
    if sym < 256 {
        lemma_body_stays(lit, dist, data, tail, q, out.push(sym as u8));
    } else if sym > 256 {
        lemma_match_stays(dist, data, tail, q, sym as int, out);
        let (r, extended) = matched(dist, data, q, sym as int, out)->Ok_0;
        lemma_body_stays(lit, dist, data, tail, r, extended);
    }
}

// --- dynamic codes -------------------------------------------------------------------------

proof fn lemma_code_lengths_stay(data: Seq<u8>, tail: Seq<u8>, p: int, n: nat)
    requires
        0 <= p,
        p + 3 * n <= 8 * data.len(),
    ensures
        code_length_lengths(data + tail, p, n) == code_length_lengths(data, p, n),
    decreases n,
{
    if n > 0 {
        lemma_code_lengths_stay(data, tail, p, (n - 1) as nat);
        lemma_field_stays(data, tail, p + 3 * (n - 1), 3);
    }
}

proof fn lemma_run_stays(cl: Seq<u8>, data: Seq<u8>, tail: Seq<u8>, p: int, so_far: Seq<u8>)
    requires
        0 <= p,
        length_run(cl, data, p, so_far) is Ok,
    ensures
        length_run(cl, data + tail, p, so_far) == length_run(cl, data, p, so_far),
{
    lemma_code_stays(cl, data, tail, p, 1);
    lemma_decode_advances(cl, data, p, 1);
    let (sym, q) = decode_symbol(cl, data, p)->Ok_0;
    if sym == 16 {
        lemma_bits_stay(data, tail, q, 2);
    } else if sym == 17 {
        lemma_bits_stay(data, tail, q, 3);
    } else if sym == 18 {
        lemma_bits_stay(data, tail, q, 7);
    }
}

proof fn lemma_table_stays(
    cl: Seq<u8>,
    data: Seq<u8>,
    tail: Seq<u8>,
    p: int,
    so_far: Seq<u8>,
    total: nat,
)
    requires
        0 <= p,
        length_table(cl, data, p, so_far, total) is Ok,
    ensures
        length_table(cl, data + tail, p, so_far, total) == length_table(
            cl,
            data,
            p,
            so_far,
            total,
        ),
        p <= (length_table(cl, data, p, so_far, total)->Ok_0).0,
    decreases 8 * data.len() - p,
{
    if so_far.len() < total {
        lemma_length_run_advances(cl, data, p, so_far);
        lemma_run_stays(cl, data, tail, p, so_far);
        let (q, run) = length_run(cl, data, p, so_far)->Ok_0;
        lemma_table_stays(cl, data, tail, q, so_far + run, total);
    }
}

proof fn lemma_dynamic_codes_stay(data: Seq<u8>, tail: Seq<u8>, p: int)
    requires
        0 <= p,
        dynamic_codes(data, p) is Ok,
    ensures
        dynamic_codes(data + tail, p) == dynamic_codes(data, p),
        p <= (dynamic_codes(data, p)->Ok_0).0,
{
    lemma_field_stays(data, tail, p, 5);
    lemma_field_stays(data, tail, p + 5, 5);
    lemma_field_stays(data, tail, p + 10, 4);
    let hlit = field(data, p, 5) + 257;
    let hdist = field(data, p + 5, 5) + 1;
    let hclen = field(data, p + 10, 4) + 4;
    lemma_code_lengths_stay(data, tail, p + 14, hclen);
    let cl = code_length_lengths(data, p + 14, hclen);
    lemma_table_stays(cl, data, tail, p + 14 + 3 * hclen, Seq::empty(), hlit + hdist);
}

// --- blocks --------------------------------------------------------------------------------

proof fn lemma_stored_stays(data: Seq<u8>, tail: Seq<u8>, p: int, out: Seq<u8>)
    requires
        0 <= p,
        stored_block(data, p, out) is Ok,
    ensures
        stored_block(data + tail, p, out) == stored_block(data, p, out),
{
    let b = (p + 7) / 8;
    let all = data + tail;
    assert(all[b] == data[b] && all[b + 1] == data[b + 1] && all[b + 2] == data[b + 2] && all[b + 3]
        == data[b + 3]);
    let len = data[b] + 256 * data[b + 1];
    assert(all.subrange(b + 4, b + 4 + len) =~= data.subrange(b + 4, b + 4 + len));
}

proof fn lemma_block_stays(data: Seq<u8>, tail: Seq<u8>, p: int, out: Seq<u8>)
    requires
        0 <= p,
        one_block(data, p, out) is Ok,
    ensures
        one_block(data + tail, p, out) == one_block(data, p, out),
{
    lemma_bits_stay(data, tail, p, 2);
    let kind = field(data, p, 2);
    if kind == 0 {
        lemma_stored_stays(data, tail, p + 2, out);
    } else if kind == 1 {
        lemma_body_stays(
            fixed_literal_lengths(),
            fixed_distance_lengths(),
            data,
            tail,
            p + 2,
            out,
        );
    } else {
        lemma_dynamic_codes_stay(data, tail, p + 2);
        let (q, lit, dist) = dynamic_codes(data, p + 2)->Ok_0;
        lemma_body_stays(lit, dist, data, tail, q, out);
    }
}

proof fn lemma_blocks_stay(data: Seq<u8>, tail: Seq<u8>, p: int, out: Seq<u8>)
    requires
        0 <= p,
        blocks(data, p, out) is Ok,
    ensures
        blocks(data + tail, p, out) == blocks(data, p, out),
    decreases 8 * data.len() - p,
{
    lemma_block_advances(data, p + 1, out);
    lemma_block_stays(data, tail, p + 1, out);
    lemma_bit_stays(data, tail, p);
    let (q, extended) = one_block(data, p + 1, out)->Ok_0;
    if bit(data, p) != 1 {
        lemma_blocks_stay(data, tail, q, extended);
    }
}

/// Bytes after the final block of a stream change nothing of what it expands to.
pub proof fn law_trailing_bytes_are_ignored(stream: Seq<u8>, trailer: Seq<u8>)
    requires
        blocks(stream, 0, Seq::empty()) is Ok,
    ensures
        blocks(stream + trailer, 0, Seq::empty()) == blocks(stream, 0, Seq::empty()),
{
    lemma_blocks_stay(stream, trailer, 0, Seq::empty());
}

/// A gzip member without optional fields expands to what its bare stream expands
/// to, whatever checksum and length follow.
pub proof fn law_gzip_member_expands_as_its_stream(
    header: Seq<u8>,
    stream: Seq<u8>,
    trailer: Seq<u8>,
    size: nat,
)
    requires
        header.len() == 10,
        header[0] == 0x1f,
        header[1] == 0x8b,
        header[2] == 8,
        header[3] == 0,
        deflate_stream(stream) == Ok::<Seq<u8>, Failure>(stream),
        expansion(stream, size) is Ok,
    ensures
        expansion(header + stream + trailer, size) == expansion(stream, size),
{
    assert(header + stream + trailer =~= header + (stream + trailer));
    law_plain_gzip_header_is_transparent(header, stream + trailer);
    law_trailing_bytes_are_ignored(stream, trailer);
}

/// A zlib stream without a dictionary expands to what its bare stream expands to,
/// whatever checksum follows.
pub proof fn law_zlib_stream_expands_as_its_stream(
    header: Seq<u8>,
    stream: Seq<u8>,
    trailer: Seq<u8>,
    size: nat,
)
    requires
        header.len() == 2,
        is_zlib(header),
        header[1] & 0x20 == 0,
        deflate_stream(stream) == Ok::<Seq<u8>, Failure>(stream),
        expansion(stream, size) is Ok,
    ensures
        expansion(header + stream + trailer, size) == expansion(stream, size),
{
    let input = header + stream + trailer;
    assert(0x1fu8 & 15 == 15) by (bit_vector);
    assert(input[0] == header[0] && input[1] == header[1]);
    assert(input.skip(2) =~= stream + trailer);
    law_trailing_bytes_are_ignored(stream, trailer);
}

} // verus!
