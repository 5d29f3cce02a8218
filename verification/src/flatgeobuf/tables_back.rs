//! The fields of a table that was built are read back from the finished buffer.
use vstd::prelude::*;

use super::placed::{
    ends_with, grown, lemma_byte_vector_found, lemma_ends_with_front, lemma_ends_with_itself,
    lemma_ends_with_trans, lemma_f64_vector_found, lemma_field_grows, lemma_finished_grows,
    lemma_offset_found, lemma_offset_grows, lemma_reference_grows, lemma_scalar_found,
    lemma_scalar_grows, lemma_table_ended_grows, lemma_text_found, lemma_u32_vector_found,
};
use crate::bytes::{lemma_le_bytes_len, pow256};
use crate::error::Failure;
use crate::flatbuffers::{
    bytes_at, element_scalar, field_place, field_pointee, field_scalar, field_text, field_vector,
    index_out_of_range, law_root_is_found, law_table_fields_are_found, lemma_padding_completes,
    padding, root_place, used_slots, Draft,
};

verus! {

// --- tables --------------------------------------------------------------------------------

/// What is added to an open table: a number, which is left out where it has its
/// default, or a reference to an object that has been written.
pub enum Entry {
    Number { field: int, value: nat, size: nat, default: nat },
    Reference { field: int, target: nat },
}

impl Entry {
    pub open spec fn place(self) -> int {
        match self {
            Entry::Number { field, .. } => field,
            Entry::Reference { field, .. } => field,
        }
    }

    pub open spec fn added_to(self, d: Draft) -> Draft {
        match self {
            Entry::Number { field, value, size, default } => d.with_field(
                field,
                value,
                size,
                default,
            ),
            Entry::Reference { field, target } => d.with_reference(field, target),
        }
    }

    /// Whether an entry can be added to a table of `n` fields that is opened in `d`.
    pub open spec fn fits(self, d: Draft, n: nat) -> bool {
        &&& 0 <= self.place() < n
        &&& match self {
            Entry::Number { value, size, .. } => (size == 1 || size == 2 || size == 4 || size == 8)
                && value < pow256(size),
            Entry::Reference { target, .. } => 0 < target <= d.bytes.len(),
        }
    }
}

/// A draft with entries added to its open table, one after another.
pub open spec fn with_entries(d: Draft, entries: Seq<Entry>) -> Draft
    decreases entries.len(),
{
    if entries.len() == 0 {
        d
    } else {
        entries.last().added_to(with_entries(d, entries.drop_last()))
    }
}

/// Whether entries can be added to a table of `n` fields that is opened in `d`, each
/// field at most once.
pub open spec fn are_entries(d: Draft, n: nat, entries: Seq<Entry>) -> bool {
    &&& forall|k: int| 0 <= k < entries.len() ==> (#[trigger] entries[k]).fits(d, n)
    &&& forall|j: int, k: int|
        0 <= j < k < entries.len() ==> (#[trigger] entries[j]).place() != (
        #[trigger] entries[k]).place()
}

/// The open table of `n` fields with entries.
pub open spec fn opened(d: Draft, n: nat, entries: Seq<Entry>) -> Draft {
    with_entries(d.table_started(n), entries)
}

/// The finished buffer whose root is a table of `n` fields with entries, after the
/// objects in `d`.
pub open spec fn table_buffer(d: Draft, n: nat, entries: Seq<Entry>) -> Seq<u8> {
    let open = opened(d, n, entries);
    open.table_ended().finished(open.table_rev())
}

/// Where the root table of a finished buffer stands.
pub open spec fn table_start(d: Draft, n: nat, entries: Seq<Entry>) -> int {
    table_buffer(d, n, entries).len() - opened(d, n, entries).table_rev()
}

/// Whether the offsets of a finished buffer are within the range of their numbers: those
/// in the buffer within thirty-two bits, and those in its root table, and the size of
/// the table's vtable, within sixteen.
pub open spec fn is_in_range(d: Draft, n: nat, entries: Seq<Entry>) -> bool {
    let open = opened(d, n, entries);
    &&& table_buffer(d, n, entries).len() < 0x1_0000_0000
    &&& open.table_rev() - d.bytes.len() < 0x1_0000
    &&& used_slots(open.slots) <= 0x7ffd
}

// --- entries -------------------------------------------------------------------------------

proof fn lemma_entry_grows(d: Draft, base: Draft, n: nat, e: Entry)
    requires
        e.fits(base, n),
        d.slots.len() == n,
    ensures
        grown(e.added_to(d), d),
        e.added_to(d).slots.len() == n,
        e.added_to(d).min_align >= d.min_align,
        forall|f: int|
            0 <= f < n && f != e.place() ==> #[trigger] e.added_to(d).slots[f] == d.slots[f],
{
    match e {
        Entry::Number { field, value, size, default } => {
            lemma_field_grows(d, field, value, size, default);
        },
        Entry::Reference { field, target } => {
            lemma_reference_grows(d, field, target);
        },
    }
}

proof fn lemma_entries_grow(s: Draft, base: Draft, n: nat, entries: Seq<Entry>)
    requires
        s.slots.len() == n,
        are_entries(base, n, entries),
    ensures
        grown(with_entries(s, entries), s),
        with_entries(s, entries).slots.len() == n,
        with_entries(s, entries).min_align >= s.min_align,
    decreases entries.len(),
{
    lemma_ends_with_itself(s.bytes);
    if entries.len() > 0 {
        let before = with_entries(s, entries.drop_last());
        lemma_entries_grow(s, base, n, entries.drop_last());
        lemma_entry_grows(before, base, n, entries.last());
        lemma_ends_with_trans(with_entries(s, entries).bytes, before.bytes, s.bytes);
    }
}

/// A field that no entry has is not set.
proof fn lemma_field_stays_unset(s: Draft, base: Draft, n: nat, entries: Seq<Entry>, field: int)
    requires
        s.slots.len() == n,
        are_entries(base, n, entries),
        0 <= field < n,
        forall|k: int| 0 <= k < entries.len() ==> (#[trigger] entries[k]).place() != field,
    ensures
        with_entries(s, entries).slots.len() == n,
        with_entries(s, entries).slots[field] == s.slots[field],
    decreases entries.len(),
{
    if entries.len() > 0 {
        let rest = entries.drop_last();
        assert forall|k: int| 0 <= k < rest.len() implies (#[trigger] rest[k]).place() != field by {
            assert(rest[k] == entries[k]);
        }
        lemma_field_stays_unset(s, base, n, rest, field);
        lemma_entry_grows(with_entries(s, rest), base, n, entries.last());
        assert(entries.last() == entries[entries.len() - 1]);
    }
}

/// What an entry wrote stays as it is while others are added.
proof fn lemma_entry_stays(s: Draft, base: Draft, n: nat, entries: Seq<Entry>, k: int)
    requires
        s.slots.len() == n,
        are_entries(base, n, entries),
        0 <= k < entries.len(),
    ensures
        ({
            let before = with_entries(s, entries.take(k));
            let after = entries[k].added_to(before);
            let open = with_entries(s, entries);
            let f = entries[k].place();
            &&& grown(open, after)
            &&& grown(after, before)
            &&& grown(before, s)
            &&& open.slots.len() == n
            &&& open.slots[f] == after.slots[f]
            &&& before.slots[f] == s.slots[f]
            &&& open.min_align >= after.min_align
        }),
    decreases entries.len(),
{
    let before = with_entries(s, entries.take(k));
    let after = entries[k].added_to(before);
    let open = with_entries(s, entries);
    let f = entries[k].place();
    let rest = entries.drop_last();
    assert(are_entries(base, n, entries.take(k)));
    lemma_entries_grow(s, base, n, entries.take(k));
    lemma_entry_grows(before, base, n, entries[k]);
    if k == entries.len() - 1 {
        assert(rest =~= entries.take(k));
        assert forall|j: int| 0 <= j < rest.len() implies (#[trigger] rest[j]).place() != f by {
            assert(rest[j] == entries[j]);
            assert(entries[j].place() != entries[k].place());
        }
        lemma_field_stays_unset(s, base, n, rest, f);
        lemma_ends_with_itself(after.bytes);
    } else {
        assert(rest.take(k) =~= entries.take(k));
        assert(rest[k] == entries[k]);
        lemma_entry_stays(s, base, n, rest, k);
        let shorter = with_entries(s, rest);
        let last = entries[entries.len() - 1];
        assert(last.place() != entries[k].place());
        lemma_entry_grows(shorter, base, n, last);
        lemma_ends_with_trans(open.bytes, shorter.bytes, after.bytes);
    }
}

/// A finished buffer ends with its table, and what was written before it; its root is
/// the table.
proof fn lemma_table_stands(d: Draft, n: nat, entries: Seq<Entry>)
    requires
        are_entries(d, n, entries),
        is_in_range(d, n, entries),
    ensures
        ({
            let open = opened(d, n, entries);
            let buf = table_buffer(d, n, entries);
            &&& ends_with(buf, open.table_ended().bytes)
            &&& ends_with(buf, open.bytes)
            &&& ends_with(buf, d.bytes)
            &&& root_place(buf) == Ok::<int, Failure>(table_start(d, n, entries))
            &&& open.table_rev() <= buf.len()
        }),
{
    let open = opened(d, n, entries);
    let buf = table_buffer(d, n, entries);
    lemma_entries_grow(d.table_started(n), d, n, entries);
    lemma_table_ended_grows(open);
    lemma_finished_grows(open.table_ended(), open.table_rev());
    lemma_ends_with_trans(buf, open.table_ended().bytes, open.bytes);
    lemma_ends_with_trans(buf, open.bytes, d.bytes);
    law_root_is_found(open.table_ended(), open.table_rev());
}

/// Where an entry's field stands: at its distance from the end.
proof fn lemma_entry_place(d: Draft, n: nat, entries: Seq<Entry>, k: int)
    requires
        are_entries(d, n, entries),
        is_in_range(d, n, entries),
        0 <= k < entries.len(),
    ensures
        ({
            let before = with_entries(d.table_started(n), entries.take(k));
            let after = entries[k].added_to(before);
            let buf = table_buffer(d, n, entries);
            let slot = after.slots[entries[k].place()];
            &&& ends_with(buf, after.bytes)
            &&& before.slots[entries[k].place()] == 0
            &&& grown(before, d)
            &&& slot == 0 || slot == after.bytes.len()
            &&& field_place(buf, table_start(d, n, entries), entries[k].place() as nat) == Ok::<
                Option<int>,
                Failure,
            >(
                if slot == 0 {
                    None
                } else {
                    Some(buf.len() - slot)
                },
            )
        }),
{
    let s = d.table_started(n);
    let open = opened(d, n, entries);
    let buf = table_buffer(d, n, entries);
    let before = with_entries(s, entries.take(k));
    let after = entries[k].added_to(before);
    let f = entries[k].place();
    lemma_table_stands(d, n, entries);
    lemma_entry_stays(s, d, n, entries, k);
    lemma_ends_with_trans(buf, open.bytes, after.bytes);
    lemma_table_ended_grows(open);
    assert(entries[k].fits(d, n));
    assert(are_entries(d, n, entries.take(k)));
    lemma_entries_grow(s, d, n, entries.take(k));
    assert(before.slots.len() == n);
    let front = lemma_ends_with_front(buf, open.table_ended().bytes);
    let slot = after.slots[f];
    assert(slot == 0 || slot == after.bytes.len());
    law_table_fields_are_found(open, front, f, slot);
}

// --- what is read --------------------------------------------------------------------------

/// A number is read back from its field of the root table of the finished buffer,
/// whatever else is in the table; one with its default is the default.
pub proof fn law_number_reads_back(d: Draft, n: nat, entries: Seq<Entry>, k: int)
    requires
        are_entries(d, n, entries),
        is_in_range(d, n, entries),
        0 <= k < entries.len(),
        entries[k] is Number,
    ensures
        root_place(table_buffer(d, n, entries)) == Ok::<int, Failure>(table_start(d, n, entries)),
        entries[k] matches Entry::Number { field, value, size, default } ==> field_scalar(
            table_buffer(d, n, entries),
            table_start(d, n, entries),
            field as nat,
            size,
            default,
        ) == Ok::<nat, Failure>(value),
{
    let before = with_entries(d.table_started(n), entries.take(k));
    let buf = table_buffer(d, n, entries);
    lemma_table_stands(d, n, entries);
    lemma_entry_place(d, n, entries, k);
    assert(entries[k].fits(d, n));
    if let Entry::Number { field, value, size, default } = entries[k] {
        assert(are_entries(d, n, entries.take(k)));
        lemma_entries_grow(d.table_started(n), d, n, entries.take(k));
        if value != default {
            lemma_scalar_grows(before, value, size);
            lemma_scalar_found(before, value, size, buf);
        }
    }
}

/// A number that has not its default stands at a multiple of its size.
pub proof fn law_number_is_aligned(d: Draft, n: nat, entries: Seq<Entry>, k: int)
    requires
        are_entries(d, n, entries),
        is_in_range(d, n, entries),
        d.min_align == 1 || d.min_align == 2 || d.min_align == 4 || d.min_align == 8,
        0 <= k < entries.len(),
    ensures
        entries[k] matches Entry::Number { field, value, size, default } ==> value != default ==> {
            let place = field_place(
                table_buffer(d, n, entries),
                table_start(d, n, entries),
                field as nat,
            );
            &&& place is Ok
            &&& place->Ok_0 is Some
            &&& place->Ok_0->0 % (size as int) == 0
        },
{
    let s = d.table_started(n);
    let before = with_entries(s, entries.take(k));
    let buf = table_buffer(d, n, entries);
    let open = opened(d, n, entries);
    let ended = open.table_ended();
    assert(entries[k].fits(d, n));
    if let Entry::Number { field, value, size, default } = entries[k] {
        if value != default {
            let w = before.with_scalar(value, size);
            lemma_entry_place(d, n, entries, k);
            lemma_scalar_is_aligned(before, value, size);
            assert(entries[k].added_to(before) == w.noted(field));
            assert(w.noted(field).slots[field] == w.bytes.len()) by {
                assert(are_entries(d, n, entries.take(k)));
                lemma_entries_grow(s, d, n, entries.take(k));
            }
            assert(open.min_align >= size) by {
                lemma_entry_stays(s, d, n, entries, k);
            }
            lemma_alignments(s, d, n, entries);
            let align: nat = if ended.min_align > 4 {
                ended.min_align
            } else {
                4
            };
            lemma_finished_is_aligned(ended, open.table_rev(), align);
            lemma_multiples(buf.len(), w.bytes.len(), align, size);
        }
    }
}

/// A number that is added stands a multiple of its size from the end.
proof fn lemma_scalar_is_aligned(d: Draft, value: nat, size: nat)
    requires
        size == 1 || size == 2 || size == 4 || size == 8,
    ensures
        d.with_scalar(value, size).bytes.len() % size == 0,
        d.with_scalar(value, size).bytes.len() > 0,
        d.with_scalar(value, size).min_align >= size,
{
    lemma_padding_completes(d.bytes.len(), size);
    lemma_le_bytes_len(value, size);
    assert(d.with_scalar(value, size).bytes.len() == size + (padding(d.bytes.len(), size)
        + d.bytes.len()));
}

proof fn lemma_multiples(a: nat, b: nat, align: nat, size: nat)
    requires
        align == 4 || align == 8,
        size == 1 || size == 2 || size == 4 || size == 8,
        size <= align,
        a % align == 0,
        b % size == 0,
    ensures
        (a - b) % (size as int) == 0,
{
}

/// The alignment of a draft stays one of the sizes of numbers.
proof fn lemma_alignments(s: Draft, base: Draft, n: nat, entries: Seq<Entry>)
    requires
        s.slots.len() == n,
        are_entries(base, n, entries),
        s.min_align == 1 || s.min_align == 2 || s.min_align == 4 || s.min_align == 8,
    ensures
        ({
            let a = with_entries(s, entries).min_align;
            let b = with_entries(s, entries).table_ended().min_align;
            &&& a == 1 || a == 2 || a == 4 || a == 8
            &&& b == 4 || b == 8
            &&& b >= a
        }),
    decreases entries.len(),
{
    if entries.len() > 0 {
        lemma_alignments(s, base, n, entries.drop_last());
        assert(entries[entries.len() - 1].fits(base, n));
    }
}

/// A finished buffer is a multiple of the largest alignment long.
proof fn lemma_finished_is_aligned(d: Draft, root: nat, align: nat)
    requires
        align == 4 || align == 8,
        align == if d.min_align > 4 {
            d.min_align
        } else {
            4
        },
    ensures
        d.finished(root).len() % align == 0,
{
    let p = d.prepped(align, 4);
    let len = p.bytes.len();
    lemma_padding_completes(d.bytes.len() + 4, align);
    assert(len == padding(d.bytes.len() + 4, align) + d.bytes.len());
    lemma_four_short(len, align);
    let inner = p.prepped(4, 0).bytes;
    assert(inner.len() == len);
    lemma_le_bytes_len((inner.len() + 4 - root) as nat, 4);
    assert(d.finished(root).len() == len + 4);
}

proof fn lemma_four_short(len: nat, align: nat)
    requires
        align == 4 || align == 8,
        (len + 4) % align == 0,
    ensures
        padding(len, 4) == 0,
{
}

/// A field that was never added is absent: its number is the default, and it refers to
/// nothing.
pub proof fn law_absent_field_reads_as_none(d: Draft, n: nat, entries: Seq<Entry>, field: nat)
    requires
        are_entries(d, n, entries),
        is_in_range(d, n, entries),
        forall|k: int| 0 <= k < entries.len() ==> (#[trigger] entries[k]).place() != field,
    ensures
        ({
            let buf = table_buffer(d, n, entries);
            let at = table_start(d, n, entries);
            &&& field_pointee(buf, at, field) == Ok::<Option<int>, Failure>(None)
            &&& field_text(buf, at, field) == Ok::<Option<Seq<char>>, Failure>(None)
            &&& field_vector(buf, at, field) == Ok::<Option<(int, nat)>, Failure>(None)
            &&& forall|size: nat, default: nat| #[trigger]
                field_scalar(buf, at, field, size, default) == Ok::<nat, Failure>(default)
        }),
{
    let open = opened(d, n, entries);
    let buf = table_buffer(d, n, entries);
    lemma_table_stands(d, n, entries);
    lemma_entries_grow(d.table_started(n), d, n, entries);
    if field < n {
        lemma_field_stays_unset(d.table_started(n), d, n, entries, field as int);
    }
    let front = lemma_ends_with_front(buf, open.table_ended().bytes);
    law_table_fields_are_found(open, front, field as int, 0);
}

/// A reference leads to what it refers to.
pub proof fn law_reference_leads_to_its_target(d: Draft, n: nat, entries: Seq<Entry>, k: int)
    requires
        are_entries(d, n, entries),
        is_in_range(d, n, entries),
        0 <= k < entries.len(),
    ensures
        entries[k] matches Entry::Reference { field, target } ==> field_pointee(
            table_buffer(d, n, entries),
            table_start(d, n, entries),
            field as nat,
        ) == Ok::<Option<int>, Failure>(Some(table_buffer(d, n, entries).len() - target)),
{
    let before = with_entries(d.table_started(n), entries.take(k));
    let buf = table_buffer(d, n, entries);
    lemma_entry_place(d, n, entries, k);
    assert(entries[k].fits(d, n));
    if let Entry::Reference { field, target } = entries[k] {
        assert(are_entries(d, n, entries.take(k)));
        lemma_entries_grow(d.table_started(n), d, n, entries.take(k));
        lemma_offset_grows(before, target);
        lemma_offset_found(before, target, buf);
    }
}

/// A string that was written before the table is read back from the field that refers
/// to it.
pub proof fn law_string_field_reads_back(
    start: Draft,
    text: Seq<char>,
    d: Draft,
    n: nat,
    entries: Seq<Entry>,
    k: int,
)
    requires
        grown(d, start.with_string(text)),
        are_entries(d, n, entries),
        is_in_range(d, n, entries),
        0 <= k < entries.len(),
        entries[k] is Reference,
        entries[k]->target == start.with_string(text).bytes.len(),
    ensures
        field_text(
            table_buffer(d, n, entries),
            table_start(d, n, entries),
            entries[k].place() as nat,
        ) == Ok::<Option<Seq<char>>, Failure>(Some(text)),
{
    let buf = table_buffer(d, n, entries);
    lemma_table_stands(d, n, entries);
    law_reference_leads_to_its_target(d, n, entries, k);
    lemma_ends_with_trans(buf, d.bytes, start.with_string(text).bytes);
    lemma_text_found(
        start,
        text,
        buf,
        table_start(d, n, entries),
        entries[k].place() as nat,
    );
}

/// A vector of bytes is read back, byte for byte.
pub proof fn law_byte_vector_field_reads_back(
    start: Draft,
    bytes: Seq<u8>,
    d: Draft,
    n: nat,
    entries: Seq<Entry>,
    k: int,
)
    requires
        grown(d, start.with_byte_vector(bytes)),
        are_entries(d, n, entries),
        is_in_range(d, n, entries),
        0 <= k < entries.len(),
        entries[k] is Reference,
        entries[k]->target == start.with_byte_vector(bytes).bytes.len(),
    ensures
        ({
            let buf = table_buffer(d, n, entries);
            let v = field_vector(buf, table_start(d, n, entries), entries[k].place() as nat);
            &&& v is Ok
            &&& v->Ok_0 is Some
            &&& (v->Ok_0->0).1 == bytes.len()
            &&& bytes_at(buf, (v->Ok_0->0).0, (v->Ok_0->0).1) == Ok::<Seq<u8>, Failure>(bytes)
        }),
{
    let buf = table_buffer(d, n, entries);
    lemma_table_stands(d, n, entries);
    law_reference_leads_to_its_target(d, n, entries, k);
    lemma_ends_with_trans(buf, d.bytes, start.with_byte_vector(bytes).bytes);
    lemma_byte_vector_found(start, bytes, buf);
}

/// A vector of 32-bit numbers is read back, number for number, and nothing after its
/// end.
pub proof fn law_u32_vector_field_reads_back(
    start: Draft,
    vals: Seq<u32>,
    d: Draft,
    n: nat,
    entries: Seq<Entry>,
    k: int,
)
    requires
        grown(d, start.with_u32_vector(vals)),
        are_entries(d, n, entries),
        is_in_range(d, n, entries),
        0 <= k < entries.len(),
        entries[k] is Reference,
        entries[k]->target == start.with_u32_vector(vals).bytes.len(),
    ensures
        ({
            let buf = table_buffer(d, n, entries);
            let v = field_vector(buf, table_start(d, n, entries), entries[k].place() as nat);
            &&& v is Ok
            &&& v->Ok_0 is Some
            &&& (v->Ok_0->0).1 == vals.len()
            &&& forall|i: nat| #[trigger]
                element_scalar(buf, (v->Ok_0->0).0, (v->Ok_0->0).1, i, 4) == (if i < vals.len() {
                    Ok::<nat, Failure>(vals[i as int] as nat)
                } else {
                    Err(index_out_of_range())
                })
        }),
{
    let buf = table_buffer(d, n, entries);
    lemma_table_stands(d, n, entries);
    law_reference_leads_to_its_target(d, n, entries, k);
    lemma_ends_with_trans(buf, d.bytes, start.with_u32_vector(vals).bytes);
    lemma_u32_vector_found(start, vals, buf);
}

/// A vector of doubles is read back, bit for bit, and nothing after its end.
pub proof fn law_f64_vector_field_reads_back(
    start: Draft,
    vals: Seq<u64>,
    d: Draft,
    n: nat,
    entries: Seq<Entry>,
    k: int,
)
    requires
        grown(d, start.with_f64_vector(vals)),
        are_entries(d, n, entries),
        is_in_range(d, n, entries),
        0 <= k < entries.len(),
        entries[k] is Reference,
        entries[k]->target == start.with_f64_vector(vals).bytes.len(),
    ensures
        ({
            let buf = table_buffer(d, n, entries);
            let v = field_vector(buf, table_start(d, n, entries), entries[k].place() as nat);
            &&& v is Ok
            &&& v->Ok_0 is Some
            &&& (v->Ok_0->0).1 == vals.len()
            &&& forall|i: nat| #[trigger]
                element_scalar(buf, (v->Ok_0->0).0, (v->Ok_0->0).1, i, 8) == (if i < vals.len() {
                    Ok::<nat, Failure>(vals[i as int] as nat)
                } else {
                    Err(index_out_of_range())
                })
        }),
{
    let buf = table_buffer(d, n, entries);
    lemma_table_stands(d, n, entries);
    law_reference_leads_to_its_target(d, n, entries, k);
    lemma_ends_with_trans(buf, d.bytes, start.with_f64_vector(vals).bytes);
    lemma_f64_vector_found(start, vals, buf);
}

} // verus!
