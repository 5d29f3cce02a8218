//! What a reader finds of the objects that a builder put at the end of a buffer.
//!
//! A builder puts each object before the last, so what has been written stays at
//! the end, at the same distance from it.
use vstd::prelude::*;
use vstd::utf8::*;

use super::reader::places_from;
use super::writer::with_optional;
use crate::bytes::{le_bytes, lemma_le_bytes_len, lemma_pow256_values, pow256};
use crate::error::Failure;
use crate::flatbuffers::{
    bytes_at, element_scalar, element_table, field_place, field_pointee, field_scalar, field_text,
    law_byte_vector_reads_back, law_number_block_reads_back, law_offset_points_to_target,
    law_string_reads_back, law_table_fields_are_found, lemma_number_block_len,
    lemma_padding_completes, lemma_scalar_in_place, lemma_used_slots_bound, number_block, padding, pointee, scalar, zeros,
    Draft,
};

verus! {

/// Whether a buffer ends with bytes.
pub open spec fn ends_with(buf: Seq<u8>, tail: Seq<u8>) -> bool {
    &&& tail.len() <= buf.len()
    &&& buf.subrange(buf.len() - tail.len(), buf.len() as int) == tail
}

/// Whether a draft has been added to since another.
pub open spec fn grown(after: Draft, before: Draft) -> bool {
    ends_with(after.bytes, before.bytes)
}

pub proof fn lemma_ends_with_parts(front: Seq<u8>, tail: Seq<u8>)
    ensures
        ends_with(front + tail, tail),
{
    let buf = front + tail;
    assert(buf.subrange(buf.len() - tail.len(), buf.len() as int) =~= tail);
}

pub proof fn lemma_ends_with_itself(buf: Seq<u8>)
    ensures
        ends_with(buf, buf),
{
    assert(buf.subrange(0, buf.len() as int) =~= buf);
}

pub proof fn lemma_ends_with_trans(a: Seq<u8>, b: Seq<u8>, c: Seq<u8>)
    requires
        ends_with(a, b),
        ends_with(b, c),
    ensures
        ends_with(a, c),
{
    let mine = a.subrange(a.len() - c.len(), a.len() as int);
    assert forall|i: int| 0 <= i < c.len() implies mine[i] == c[i] by {
        let bi = b.len() - c.len() + i;
        assert(a.subrange(a.len() - b.len(), a.len() as int)[bi] == b[bi]);
        assert(b.subrange(b.len() - c.len(), b.len() as int)[i] == c[i]);
    }
    assert(mine =~= c);
}

/// A buffer that ends with bytes is those bytes after others.
pub proof fn lemma_ends_with_front(buf: Seq<u8>, tail: Seq<u8>) -> (front: Seq<u8>)
    requires
        ends_with(buf, tail),
    ensures
        buf == front + tail,
{
    let front = buf.subrange(0, buf.len() - tail.len());
    assert(buf =~= front + buf.subrange(buf.len() - tail.len(), buf.len() as int));
    front
}

// --- growth --------------------------------------------------------------------------------

pub proof fn lemma_prepped_grows(d: Draft, size: nat, additional: nat)
    ensures
        grown(d.prepped(size, additional), d),
{
    lemma_ends_with_parts(zeros(padding(d.bytes.len() + additional, size)), d.bytes);
}

pub proof fn lemma_scalar_grows(d: Draft, v: nat, n: nat)
    requires
        n == 1 || n == 2 || n == 4 || n == 8,
    ensures
        grown(d.with_scalar(v, n), d),
        d.bytes.len() + n <= d.with_scalar(v, n).bytes.len() < d.bytes.len() + 2 * n,
{
    lemma_prepped_grows(d, n, 0);
    let p = d.prepped(n, 0);
    lemma_padding_completes(d.bytes.len(), n);
    lemma_le_bytes_len(v, n);
    lemma_ends_with_parts(le_bytes(v, n), p.bytes);
    lemma_ends_with_trans(d.with_scalar(v, n).bytes, p.bytes, d.bytes);
}

pub proof fn lemma_offset_grows(d: Draft, target: nat)
    ensures
        grown(d.with_offset(target), d),
        d.bytes.len() + 4 <= d.with_offset(target).bytes.len() < d.bytes.len() + 8,
{
    lemma_prepped_grows(d, 4, 0);
    let p = d.prepped(4, 0);
    let v = (p.bytes.len() + 4 - target) as nat;
    lemma_padding_completes(d.bytes.len(), 4);
    lemma_le_bytes_len(v, 4);
    lemma_ends_with_parts(le_bytes(v, 4), p.bytes);
    lemma_ends_with_trans(d.with_offset(target).bytes, p.bytes, d.bytes);
}

pub proof fn lemma_byte_vector_grows(d: Draft, bytes: Seq<u8>)
    ensures
        grown(d.with_byte_vector(bytes), d),
        d.with_byte_vector(bytes).bytes.len() >= d.bytes.len() + bytes.len() + 4,
{
    let p = d.prepped(4, bytes.len());
    let w = p.with(bytes);
    lemma_prepped_grows(d, 4, bytes.len());
    lemma_ends_with_parts(bytes, p.bytes);
    lemma_ends_with_trans(w.bytes, p.bytes, d.bytes);
    lemma_scalar_grows(w, bytes.len(), 4);
    lemma_ends_with_trans(d.with_byte_vector(bytes).bytes, w.bytes, d.bytes);
}

pub proof fn lemma_string_grows(d: Draft, text: Seq<char>)
    ensures
        grown(d.with_string(text), d),
        d.with_string(text).bytes.len() >= d.bytes.len() + encode_utf8(text).len() + 4,
{
    let z = d.with_scalar(0, 1);
    lemma_scalar_grows(d, 0, 1);
    lemma_byte_vector_grows(z, encode_utf8(text));
    lemma_ends_with_trans(d.with_string(text).bytes, z.bytes, d.bytes);
}

/// A block of numbers after its count, as vectors of numbers are written.
proof fn lemma_counted_block_grows(d: Draft, p: Draft, block: Seq<u8>, count: nat)
    requires
        grown(p, d),
    ensures
        grown(p.with(block).with_scalar(count, 4), d),
        p.with(block).with_scalar(count, 4).bytes.len() >= d.bytes.len() + block.len() + 4,
{
    let w = p.with(block);
    lemma_ends_with_parts(block, p.bytes);
    lemma_ends_with_trans(w.bytes, p.bytes, d.bytes);
    lemma_scalar_grows(w, count, 4);
    lemma_ends_with_trans(w.with_scalar(count, 4).bytes, w.bytes, d.bytes);
}

pub proof fn lemma_u32_vector_grows(d: Draft, vals: Seq<u32>)
    ensures
        grown(d.with_u32_vector(vals), d),
        d.with_u32_vector(vals).bytes.len() >= d.bytes.len() + 4 * vals.len() + 4,
{
    let nats = vals.map_values(|v: u32| v as nat);
    let block = number_block(nats, 4);
    lemma_number_block_len(nats, 4);
    lemma_prepped_grows(d, 4, block.len());
    lemma_counted_block_grows(d, d.prepped(4, block.len()), block, vals.len());
}

pub proof fn lemma_f64_vector_grows(d: Draft, vals: Seq<u64>)
    ensures
        grown(d.with_f64_vector(vals), d),
        d.with_f64_vector(vals).bytes.len() >= d.bytes.len() + 8 * vals.len() + 4,
{
    let nats = vals.map_values(|v: u64| v as nat);
    let block = number_block(nats, 8);
    let p4 = d.prepped(4, block.len());
    let p8 = p4.prepped(8, block.len());
    lemma_number_block_len(nats, 8);
    lemma_prepped_grows(d, 4, block.len());
    lemma_prepped_grows(p4, 8, block.len());
    lemma_ends_with_trans(p8.bytes, p4.bytes, d.bytes);
    lemma_counted_block_grows(d, p8, block, vals.len());
}

pub proof fn lemma_offsets_from_grow(d: Draft, targets: Seq<nat>, k: int)
    ensures
        grown(d.with_offsets_from(targets, k), d),
    decreases targets.len() - k,
{
    if k >= targets.len() || k < 0 {
        lemma_ends_with_itself(d.bytes);
    } else {
        let next = d.with_offsets_from(targets, k + 1);
        lemma_offsets_from_grow(d, targets, k + 1);
        lemma_offset_grows(next, targets[k]);
        lemma_ends_with_trans(next.with_offset(targets[k]).bytes, next.bytes, d.bytes);
    }
}

pub proof fn lemma_offset_vector_grows(d: Draft, targets: Seq<nat>)
    ensures
        grown(d.with_offset_vector(targets), d),
        d.with_offset_vector(targets).bytes.len() >= d.bytes.len() + 4,
{
    let p = d.prepped(4, 4 * targets.len());
    let w = p.with_offsets_from(targets, 0);
    lemma_prepped_grows(d, 4, 4 * targets.len());
    lemma_offsets_from_grow(p, targets, 0);
    lemma_ends_with_trans(w.bytes, p.bytes, d.bytes);
    lemma_scalar_grows(w, targets.len(), 4);
    lemma_ends_with_trans(d.with_offset_vector(targets).bytes, w.bytes, d.bytes);
}

pub proof fn lemma_field_grows(d: Draft, field: int, v: nat, n: nat, default: nat)
    requires
        n == 1 || n == 2 || n == 4 || n == 8,
    ensures
        grown(d.with_field(field, v, n, default), d),
        d.with_field(field, v, n, default).bytes.len() < d.bytes.len() + 2 * n,
{
    lemma_ends_with_itself(d.bytes);
    lemma_scalar_grows(d, v, n);
}

pub proof fn lemma_reference_grows(d: Draft, field: int, target: nat)
    ensures
        grown(d.with_reference(field, target), d),
        d.with_reference(field, target).bytes.len() < d.bytes.len() + 8,
{
    lemma_ends_with_itself(d.bytes);
    lemma_offset_grows(d, target);
}

pub proof fn lemma_optional_grows(d: Draft, field: int, target: Option<nat>)
    ensures
        grown(with_optional(d, field, target), d),
        with_optional(d, field, target).bytes.len() < d.bytes.len() + 8,
{
    lemma_ends_with_itself(d.bytes);
    if let Some(t) = target {
        lemma_reference_grows(d, field, t);
    }
}

pub proof fn lemma_table_ended_grows(d: Draft)
    ensures
        grown(d.table_ended(), d),
        d.bytes.len() + 4 <= d.table_rev() < d.bytes.len() + 8,
        d.table_rev() <= d.table_ended().bytes.len(),
{
    let size = 2 * (crate::flatbuffers::used_slots(d.slots) + 2);
    let s = d.with_scalar(size, 4);
    lemma_scalar_grows(d, size, 4);
    let n = crate::flatbuffers::used_slots(d.slots);
    let t = d.table_rev();
    let e = s.with(crate::flatbuffers::vtable_entries(d.slots, n, t));
    let i = e.with(le_bytes((t - d.object_end) as nat, 2));
    lemma_ends_with_parts(crate::flatbuffers::vtable_entries(d.slots, n, t), s.bytes);
    lemma_ends_with_parts(le_bytes((t - d.object_end) as nat, 2), e.bytes);
    lemma_ends_with_parts(le_bytes(size, 2), i.bytes);
    lemma_ends_with_trans(d.table_ended().bytes, i.bytes, e.bytes);
    lemma_ends_with_trans(d.table_ended().bytes, e.bytes, s.bytes);
    lemma_ends_with_trans(d.table_ended().bytes, s.bytes, d.bytes);
    lemma_padding_completes(d.bytes.len(), 4);
    lemma_le_bytes_len(size, 4);
}

pub proof fn lemma_finished_grows(d: Draft, root: nat)
    ensures
        ends_with(d.finished(root), d.bytes),
{
    let align = if d.min_align > 4 {
        d.min_align
    } else {
        4
    };
    let p = d.prepped(align, 4);
    lemma_prepped_grows(d, align, 4);
    lemma_offset_grows(p, root);
    lemma_ends_with_trans(d.finished(root), p.bytes, d.bytes);
}

// --- fields --------------------------------------------------------------------------------

/// Where something that far from the end stands.
pub open spec fn place_of(buf: Seq<u8>, rev: Option<nat>) -> Option<int> {
    match rev {
        Some(r) => Some(buf.len() - r),
        None => None,
    }
}

/// Whether only the slot of a field may differ.
pub open spec fn differs_at(after: Draft, before: Draft, field: int) -> bool {
    &&& after.slots.len() == before.slots.len()
    &&& forall|k: int|
        0 <= k < before.slots.len() && k != field ==> #[trigger] after.slots[k] == before.slots[k]
}

pub proof fn lemma_optional_differs(d: Draft, field: int, target: Option<nat>)
    requires
        0 <= field < d.slots.len(),
    ensures
        differs_at(with_optional(d, field, target), d, field),
{
}

/// A field that was noted is found where it was noted.
pub proof fn lemma_noted_field(open: Draft, buf: Seq<u8>, field: int, rev: nat)
    requires
        ends_with(buf, open.table_ended().bytes),
        0 <= field < open.slots.len() < 0x7000,
        open.slots[field] == rev,
        0 < rev <= open.bytes.len(),
        open.bytes.len() - rev < 60000,
    ensures
        field_place(buf, buf.len() - open.table_rev(), field as nat) == Ok::<Option<int>, Failure>(
            Some(buf.len() - rev),
        ),
{
    let front = lemma_ends_with_front(buf, open.table_ended().bytes);
    lemma_table_ended_grows(open);
    lemma_used_slots_bound(open.slots);
    law_table_fields_are_found(open, front, field, rev);
}

/// A field that was not noted is absent.
pub proof fn lemma_absent_field(open: Draft, buf: Seq<u8>, field: int)
    requires
        ends_with(buf, open.table_ended().bytes),
        0 <= field < open.slots.len() < 0x7000,
        open.slots[field] == 0,
    ensures
        field_place(buf, buf.len() - open.table_rev(), field as nat) == Ok::<Option<int>, Failure>(
            None,
        ),
{
    let front = lemma_ends_with_front(buf, open.table_ended().bytes);
    lemma_used_slots_bound(open.slots);
    law_table_fields_are_found(open, front, field, 0);
}

/// A number is found where it was written.
pub proof fn lemma_scalar_found(d: Draft, v: nat, n: nat, buf: Seq<u8>)
    requires
        n == 1 || n == 2 || n == 4 || n == 8,
        v < pow256(n),
        ends_with(buf, d.with_scalar(v, n).bytes),
    ensures
        scalar(buf, buf.len() - d.with_scalar(v, n).bytes.len(), n) == Ok::<nat, Failure>(v),
{
    let front = lemma_ends_with_front(buf, d.with_scalar(v, n).bytes);
    let rest = d.prepped(n, 0).bytes;
    assert(buf =~= front + le_bytes(v, n) + rest);
    lemma_scalar_in_place(buf, front, v, n, rest);
    lemma_le_bytes_len(v, n);
}

/// An offset leads to what it was made for.
pub proof fn lemma_offset_found(d: Draft, target: nat, buf: Seq<u8>)
    requires
        target <= d.bytes.len(),
        buf.len() < 0x1_0000_0000,
        ends_with(buf, d.with_offset(target).bytes),
    ensures
        pointee(buf, buf.len() - d.with_offset(target).bytes.len()) == Ok::<int, Failure>(
            buf.len() - target,
        ),
{
    let front = lemma_ends_with_front(buf, d.with_offset(target).bytes);
    law_offset_points_to_target(d, target, front);
}

/// A scalar field is read back, where the field before it in the table was `d`.
pub proof fn lemma_field_found(
    d: Draft,
    field: int,
    v: nat,
    n: nat,
    default: nat,
    open: Draft,
    buf: Seq<u8>,
)
    requires
        ends_with(buf, open.table_ended().bytes),
        grown(open, d.with_field(field, v, n, default)),
        0 <= field < open.slots.len() < 0x7000,
        d.slots.len() == open.slots.len(),
        d.slots[field] == 0,
        open.slots[field] == d.with_field(field, v, n, default).slots[field],
        n == 1 || n == 2 || n == 4 || n == 8,
        v < pow256(n),
        open.bytes.len() - d.bytes.len() < 60000,
    ensures
        field_scalar(buf, buf.len() - open.table_rev(), field as nat, n, default) == Ok::<
            nat,
            Failure,
        >(v),
        v != default ==> forall|other: nat|
            #[trigger] field_scalar(buf, buf.len() - open.table_rev(), field as nat, n, other)
                == Ok::<nat, Failure>(v),
{
    lemma_table_ended_grows(open);
    if v == default {
        lemma_absent_field(open, buf, field);
    } else {
        let w = d.with_scalar(v, n);
        lemma_scalar_grows(d, v, n);
        lemma_noted_field(open, buf, field, w.bytes.len());
        lemma_ends_with_trans(buf, open.table_ended().bytes, open.bytes);
        lemma_ends_with_trans(buf, open.bytes, w.bytes);
        lemma_scalar_found(d, v, n, buf);
    }
}

/// A reference field leads to what it refers to.
pub proof fn lemma_reference_found(d: Draft, field: int, target: Option<nat>, open: Draft, buf: Seq<u8>)
    requires
        ends_with(buf, open.table_ended().bytes),
        grown(open, with_optional(d, field, target)),
        0 <= field < open.slots.len() < 0x7000,
        d.slots.len() == open.slots.len(),
        d.slots[field] == 0,
        open.slots[field] == with_optional(d, field, target).slots[field],
        target matches Some(t) ==> 0 < t <= d.bytes.len(),
        open.bytes.len() - d.bytes.len() < 60000,
        buf.len() < 0x1_0000_0000,
    ensures
        field_pointee(buf, buf.len() - open.table_rev(), field as nat) == Ok::<
            Option<int>,
            Failure,
        >(place_of(buf, target)),
{
    lemma_table_ended_grows(open);
    match target {
        None => {
            lemma_absent_field(open, buf, field);
        },
        Some(t) => {
            let w = d.with_offset(t);
            lemma_offset_grows(d, t);
            lemma_noted_field(open, buf, field, w.bytes.len());
            lemma_ends_with_trans(buf, open.table_ended().bytes, open.bytes);
            lemma_ends_with_trans(buf, open.bytes, w.bytes);
            lemma_offset_found(d, t, buf);
        },
    }
}

// --- vectors -------------------------------------------------------------------------------

/// Numbers after their count are read back.
proof fn lemma_counted_block_found(p: Draft, nats: Seq<nat>, n: nat, buf: Seq<u8>)
    requires
        n == 4 || n == 8,
        forall|k: int| 0 <= k < nats.len() ==> nats[k] < pow256(n),
        (p.bytes.len() + nats.len() * n) % 4 == 0,
        ends_with(buf, p.with(number_block(nats, n)).with_scalar(nats.len(), 4).bytes),
        buf.len() < 0x1_0000_0000,
    ensures
        ({
            let q = buf.len() - p.with(number_block(nats, n)).with_scalar(nats.len(), 4).bytes.len();
            &&& scalar(buf, q, 4) == Ok::<nat, Failure>(nats.len())
            &&& forall|i: nat|
                i < nats.len() ==> #[trigger] element_scalar(buf, q + 4, nats.len(), i, n) == Ok::<
                    nat,
                    Failure,
                >(nats[i as int])
        }),
{
    let block = number_block(nats, n);
    let w = p.with(block);
    let object = w.with_scalar(nats.len(), 4).bytes;
    let count = le_bytes(nats.len(), 4);
    lemma_number_block_len(nats, n);
    lemma_pow256_values();
    lemma_le_bytes_len(nats.len(), 4);
    assert(padding(w.bytes.len(), 4) == 0);
    assert(zeros(0) + w.bytes =~= w.bytes);
    assert(object =~= count + w.bytes);
    let front = lemma_ends_with_front(buf, object);
    assert(nats.len() * n >= nats.len()) by (nonlinear_arith)
        requires
            n == 4 || n == 8,
    ;
    assert(buf =~= front + count + w.bytes);
    lemma_scalar_in_place(buf, front, nats.len(), 4, w.bytes);
    let q = front.len() as int;
    assert forall|i: nat| i < nats.len() implies #[trigger] element_scalar(
        buf,
        q + 4,
        nats.len(),
        i,
        n,
    ) == Ok::<nat, Failure>(nats[i as int]) by {
        law_number_block_reads_back(nats, n, i as int, front + count, p.bytes);
        assert(front + count + block + p.bytes =~= buf);
    }
}

/// A vector of doubles is read back.
pub proof fn lemma_f64_vector_found(d: Draft, vals: Seq<u64>, buf: Seq<u8>)
    requires
        ends_with(buf, d.with_f64_vector(vals).bytes),
        buf.len() < 0x1_0000_0000,
    ensures
        ({
            let q = buf.len() - d.with_f64_vector(vals).bytes.len();
            &&& scalar(buf, q, 4) == Ok::<nat, Failure>(vals.len())
            &&& forall|i: nat|
                i < vals.len() ==> #[trigger] element_scalar(buf, q + 4, vals.len(), i, 8) == Ok::<
                    nat,
                    Failure,
                >(vals[i as int] as nat)
        }),
{
    let nats = vals.map_values(|v: u64| v as nat);
    let block = number_block(nats, 8);
    let p4 = d.prepped(4, block.len());
    let p8 = p4.prepped(8, block.len());
    lemma_number_block_len(nats, 8);
    lemma_pow256_values();
    lemma_padding_completes(p4.bytes.len() + block.len(), 8);
    lemma_counted_block_found(p8, nats, 8, buf);
}

/// A vector of 32-bit numbers is read back.
pub proof fn lemma_u32_vector_found(d: Draft, vals: Seq<u32>, buf: Seq<u8>)
    requires
        ends_with(buf, d.with_u32_vector(vals).bytes),
        buf.len() < 0x1_0000_0000,
    ensures
        ({
            let q = buf.len() - d.with_u32_vector(vals).bytes.len();
            &&& scalar(buf, q, 4) == Ok::<nat, Failure>(vals.len())
            &&& forall|i: nat|
                i < vals.len() ==> #[trigger] element_scalar(buf, q + 4, vals.len(), i, 4) == Ok::<
                    nat,
                    Failure,
                >(vals[i as int] as nat)
        }),
{
    let nats = vals.map_values(|v: u32| v as nat);
    let block = number_block(nats, 4);
    lemma_number_block_len(nats, 4);
    lemma_pow256_values();
    lemma_padding_completes(d.bytes.len() + block.len(), 4);
    lemma_counted_block_found(d.prepped(4, block.len()), nats, 4, buf);
}

/// The offsets of a vector stand one after another.
proof fn lemma_offsets_are_packed(p: Draft, targets: Seq<nat>, k: int)
    requires
        p.bytes.len() % 4 == 0,
        0 <= k <= targets.len(),
    ensures
        p.with_offsets_from(targets, k).bytes.len() == p.bytes.len() + 4 * (targets.len() - k),
    decreases targets.len() - k,
{
    if k < targets.len() {
        lemma_offsets_are_packed(p, targets, k + 1);
        let next = p.with_offsets_from(targets, k + 1);
        let v = (next.prepped(4, 0).bytes.len() + 4 - targets[k]) as nat;
        assert(padding(next.bytes.len(), 4) == 0);
        lemma_le_bytes_len(v, 4);
    }
}

/// Element `k` of a vector of offsets leads to what it was made for.
proof fn lemma_packed_offset_found(p: Draft, targets: Seq<nat>, k: int, upto: int, buf: Seq<u8>)
    requires
        p.bytes.len() % 4 == 0,
        0 <= upto <= k < targets.len(),
        targets[k] <= p.bytes.len(),
        ends_with(buf, p.with_offsets_from(targets, upto).bytes),
        buf.len() < 0x1_0000_0000,
    ensures
        pointee(
            buf,
            buf.len() - p.with_offsets_from(targets, upto).bytes.len() + 4 * (k - upto),
        ) == Ok::<int, Failure>(buf.len() - targets[k]),
    decreases k - upto,
{
    let next = p.with_offsets_from(targets, upto + 1);
    lemma_offsets_are_packed(p, targets, upto);
    lemma_offsets_are_packed(p, targets, upto + 1);
    lemma_offset_grows(next, targets[upto]);
    if k == upto {
        lemma_offset_found(next, targets[k], buf);
    } else {
        lemma_ends_with_trans(buf, p.with_offsets_from(targets, upto).bytes, next.bytes);
        lemma_packed_offset_found(p, targets, k, upto + 1, buf);
    }
}

/// A vector of offsets is read back as the tables that they lead to.
pub proof fn lemma_offset_vector_found(d: Draft, targets: Seq<nat>, buf: Seq<u8>)
    requires
        ends_with(buf, d.with_offset_vector(targets).bytes),
        buf.len() < 0x1_0000_0000,
        forall|k: int| 0 <= k < targets.len() ==> 4 <= #[trigger] targets[k] <= d.bytes.len(),
    ensures
        ({
            let q = buf.len() - d.with_offset_vector(targets).bytes.len();
            &&& scalar(buf, q, 4) == Ok::<nat, Failure>(targets.len())
            &&& forall|i: nat|
                i < targets.len() ==> #[trigger] element_table(buf, q + 4, targets.len(), i) == Ok::<
                    int,
                    Failure,
                >(buf.len() - targets[i as int])
        }),
{
    let n = targets.len();
    let p = d.prepped(4, 4 * n);
    let w = p.with_offsets_from(targets, 0);
    lemma_padding_completes(d.bytes.len() + 4 * n, 4);
    lemma_prepped_grows(d, 4, 4 * n);
    assert(p.bytes.len() % 4 == 0);
    lemma_offsets_are_packed(p, targets, 0);
    let count = le_bytes(n, 4);
    lemma_le_bytes_len(n, 4);
    lemma_pow256_values();
    assert(padding(w.bytes.len(), 4) == 0);
    assert(zeros(0) + w.bytes =~= w.bytes);
    assert(w.with_scalar(n, 4).bytes =~= count + w.bytes);
    lemma_scalar_found(w, n, 4, buf);
    lemma_scalar_grows(w, n, 4);
    lemma_ends_with_trans(buf, w.with_scalar(n, 4).bytes, w.bytes);
    let q = buf.len() - w.with_scalar(n, 4).bytes.len();
    assert forall|i: nat| i < n implies #[trigger] element_table(buf, q + 4, n, i) == Ok::<
        int,
        Failure,
    >(buf.len() - targets[i as int]) by {
        lemma_packed_offset_found(p, targets, i as int, 0, buf);
    }
}

/// A vector of bytes is read back.
pub proof fn lemma_byte_vector_found(d: Draft, bytes: Seq<u8>, buf: Seq<u8>)
    requires
        ends_with(buf, d.with_byte_vector(bytes).bytes),
        buf.len() < 0x1_0000_0000,
    ensures
        ({
            let q = buf.len() - d.with_byte_vector(bytes).bytes.len();
            &&& scalar(buf, q, 4) == Ok::<nat, Failure>(bytes.len())
            &&& bytes_at(buf, q + 4, bytes.len()) == Ok::<Seq<u8>, Failure>(bytes)
        }),
{
    let front = lemma_ends_with_front(buf, d.with_byte_vector(bytes).bytes);
    lemma_byte_vector_grows(d, bytes);
    law_byte_vector_reads_back(d, bytes, front);
}

/// A text field is read back, where its reference leads to the text.
pub proof fn lemma_text_found(d: Draft, text: Seq<char>, buf: Seq<u8>, pos: int, field: nat)
    requires
        ends_with(buf, d.with_string(text).bytes),
        buf.len() < 0x1_0000_0000,
        field_pointee(buf, pos, field) == Ok::<Option<int>, Failure>(
            Some(buf.len() - d.with_string(text).bytes.len()),
        ),
    ensures
        field_text(buf, pos, field) == Ok::<Option<Seq<char>>, Failure>(Some(text)),
{
    let front = lemma_ends_with_front(buf, d.with_string(text).bytes);
    lemma_string_grows(d, text);
    law_string_reads_back(d, text, front);
}

/// The places of a vector's tables are those that its offsets lead to.
pub proof fn lemma_places_found(buf: Seq<u8>, start: int, targets: Seq<nat>, i: nat)
    requires
        i <= targets.len(),
        forall|k: nat|
            k < targets.len() ==> #[trigger] element_table(buf, start, targets.len(), k) == Ok::<
                int,
                Failure,
            >(buf.len() - targets[k as int]),
    ensures
        ({
            let all = Seq::new(targets.len(), |k: int| buf.len() - targets[k]);
            places_from(buf, start, targets.len(), i, all.take(i as int)) == Ok::<
                Seq<int>,
                Failure,
            >(all)
        }),
    decreases targets.len() - i,
{
    let all = Seq::new(targets.len(), |k: int| buf.len() - targets[k]);
    if i < targets.len() {
        assert(element_table(buf, start, targets.len(), i) == Ok::<int, Failure>(
            buf.len() - targets[i as int],
        ));
        lemma_places_found(buf, start, targets, i + 1);
        assert(all.take((i + 1) as int) =~= all.take(i as int).push(all[i as int]));
    } else {
        assert(all.take(i as int) =~= all);
    }
}

} // verus!
