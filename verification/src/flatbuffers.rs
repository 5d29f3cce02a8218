//! FlatBuffers tables: a reader and a builder.
//!
//! A table is located by a forward offset. It starts with a signed offset back
//! to its vtable, `[u16 vtable size][u16 table size][u16 field offset]*`; a
//! field's value sits that far into the table, and a zero offset, or a vtable
//! too short to have the slot, means the field is absent. Scalars are inline;
//! strings, vectors and sub-tables are reached through a further offset.
//!
//! The builder works back to front: every object is written before the tables
//! that refer to it, and is known by its distance from the end of the buffer,
//! which later writes never change.
use vstd::arithmetic::div_mod::lemma_add_mod_noop;
use vstd::prelude::*;
use vstd::slice::slice_subrange;
use vstd::utf8::*;

use crate::bytes::le_bytes;
use crate::bytes::le_value;
use crate::bytes::le_vec;
use crate::bytes::law_le_bytes_read_back;
use crate::bytes::lemma_le_bytes_len;
use crate::bytes::lemma_pow256_values;
use crate::bytes::pow256;
use crate::bytes::push_le;
use crate::bytes::read_le;
use crate::bytes::signed;
use crate::bytes::signed32;
use crate::bytes::unsigned;
use crate::bytes::unsigned32;
use crate::error::tagged;
use crate::error::Error;
use crate::error::Failure;
use crate::text::utf8_text;

verus! {

/// The failure that carries this message.
pub open spec fn failure(message: Seq<char>) -> Failure {
    Failure::FlatGeobuf("flatbuffers: "@ + message)
}

fn err(message: &str) -> (e: Error)
    ensures
        e@ == failure(message@),
{
    Error::FlatGeobuf(tagged("flatbuffers: ", message))
}

/// The failure of a read outside the buffer.
pub open spec fn out_of_bounds() -> Failure {
    failure("read out of bounds"@)
}

fn oob() -> (e: Error)
    ensures
        e@ == out_of_bounds(),
{
    err("read out of bounds")
}

// --- reading -----------------------------------------------------------------

/// The little-endian number of `n` bytes at `at`.
pub open spec fn scalar(buf: Seq<u8>, at: int, n: nat) -> Result<nat, Failure> {
    if 0 <= at && at + n <= buf.len() {
        Ok(le_value(buf.subrange(at, at + n)))
    } else {
        Err(out_of_bounds())
    }
}

/// Where field `i` of the table at `pos` has its value, if it has one.
pub open spec fn field_place(buf: Seq<u8>, pos: int, i: nat) -> Result<Option<int>, Failure> {
    match scalar(buf, pos, 4) {
        Err(e) => Err(e),
        Ok(back) => {
            let vtable = pos - signed(back, 0x1_0000_0000);
            match scalar(buf, vtable, 2) {
                Err(e) => Err(e),
                Ok(size) => if 4 + 2 * i >= size {
                    Ok(None)
                } else {
                    match scalar(buf, vtable + 4 + 2 * i, 2) {
                        Err(e) => Err(e),
                        Ok(offset) => if offset == 0 {
                            Ok(None)
                        } else {
                            Ok(Some(pos + offset))
                        },
                    }
                },
            }
        },
    }
}

/// The scalar of `n` bytes in field `i`, or the default where it is absent.
pub open spec fn field_scalar(buf: Seq<u8>, pos: int, i: nat, n: nat, default: nat) -> Result<
    nat,
    Failure,
> {
    match field_place(buf, pos, i) {
        Err(e) => Err(e),
        Ok(None) => Ok(default),
        Ok(Some(p)) => scalar(buf, p, n),
    }
}

/// What the offset at `p` points to.
pub open spec fn pointee(buf: Seq<u8>, p: int) -> Result<int, Failure> {
    match scalar(buf, p, 4) {
        Err(e) => Err(e),
        Ok(off) => Ok(p + off),
    }
}

/// What the offset in field `i` points to, where the field is present.
pub open spec fn field_pointee(buf: Seq<u8>, pos: int, i: nat) -> Result<Option<int>, Failure> {
    match field_place(buf, pos, i) {
        Err(e) => Err(e),
        Ok(None) => Ok(None),
        Ok(Some(p)) => match pointee(buf, p) {
            Err(e) => Err(e),
            Ok(q) => Ok(Some(q)),
        },
    }
}

/// A table can stand at `pos` only where its vtable offset fits.
pub open spec fn table_place(buf: Seq<u8>, pos: int) -> Result<int, Failure> {
    if pos + 4 > buf.len() {
        Err(failure("table position out of range"@))
    } else {
        Ok(pos)
    }
}

/// The place of the root table.
pub open spec fn root_place(buf: Seq<u8>) -> Result<int, Failure> {
    match scalar(buf, 0, 4) {
        Err(e) => Err(e),
        Ok(off) => table_place(buf, off as int),
    }
}

/// The place of the sub-table in field `i`.
pub open spec fn field_table(buf: Seq<u8>, pos: int, i: nat) -> Result<Option<int>, Failure> {
    match field_pointee(buf, pos, i) {
        Err(e) => Err(e),
        Ok(None) => Ok(None),
        Ok(Some(q)) => match table_place(buf, q) {
            Err(e) => Err(e),
            Ok(t) => Ok(Some(t)),
        },
    }
}

/// The place of the elements of the vector in field `i`, and their number.
pub open spec fn field_vector(buf: Seq<u8>, pos: int, i: nat) -> Result<
    Option<(int, nat)>,
    Failure,
> {
    match field_pointee(buf, pos, i) {
        Err(e) => Err(e),
        Ok(None) => Ok(None),
        Ok(Some(q)) => match scalar(buf, q, 4) {
            Err(e) => Err(e),
            Ok(len) => Ok(Some((q + 4, len))),
        },
    }
}

/// The `len` bytes at `at`.
pub open spec fn bytes_at(buf: Seq<u8>, at: int, len: nat) -> Result<Seq<u8>, Failure> {
    if 0 <= at && at + len <= buf.len() {
        Ok(buf.subrange(at, at + len))
    } else {
        Err(out_of_bounds())
    }
}

/// The text in field `i`.
pub open spec fn field_text(buf: Seq<u8>, pos: int, i: nat) -> Result<Option<Seq<char>>, Failure> {
    match field_vector(buf, pos, i) {
        Err(e) => Err(e),
        Ok(None) => Ok(None),
        Ok(Some((start, len))) => match bytes_at(buf, start, len) {
            Err(e) => Err(e),
            Ok(bytes) => if valid_utf8(bytes) {
                Ok(Some(decode_utf8(bytes)))
            } else {
                Err(failure("invalid utf-8 string"@))
            },
        },
    }
}

fn read_scalar(buf: &[u8], at: u128, n: usize) -> (r: Result<u64, Error>)
    requires
        n <= 8,
    ensures
        match scalar(buf@, at as int, n as nat) {
            Ok(v) => r is Ok && r->Ok_0 == v && v < pow256(n as nat),
            Err(e) => r is Err && r->Err_0@ == e,
        },
{
    let len: u128 = buf.len() as u128;
    if at > len || len - at < n as u128 {
        return Err(oob());
    }
    Ok(read_le(buf, at as usize, n))
}

/// A view onto a table in a buffer.
#[derive(Clone, Copy)]
pub struct Table<'a> {
    buf: &'a [u8],
    pos: usize,
}

impl<'a> Table<'a> {
    /// The bytes the table is part of.
    pub closed spec fn buffer(&self) -> Seq<u8> {
        self.buf@
    }

    /// Where the table stands in them.
    pub closed spec fn place(&self) -> int {
        self.pos as int
    }

    /// The root table of a buffer.
    pub fn root(buf: &'a [u8]) -> (r: Result<Table<'a>, Error>)
        ensures
            match root_place(buf@) {
                Ok(p) => r is Ok && r->Ok_0.buffer() == buf@ && r->Ok_0.place() == p,
                Err(e) => r is Err && r->Err_0@ == e,
            },
    {
        let off = read_scalar(buf, 0, 4)?;
        Table::at(buf, off as u128)
    }

    fn at(buf: &'a [u8], pos: u128) -> (r: Result<Table<'a>, Error>)
        requires
            pos < 0x1_0000_0000_0000_0000_0000,
        ensures
            match table_place(buf@, pos as int) {
                Ok(p) => r is Ok && r->Ok_0.buffer() == buf@ && r->Ok_0.place() == p,
                Err(e) => r is Err && r->Err_0@ == e,
            },
    {
        if pos + 4 > buf.len() as u128 {
            return Err(err("table position out of range"));
        }
        Ok(Table { buf, pos: pos as usize })
    }

    /// Where field `i` has its value, or `None` where it is absent.
    fn field(&self, i: usize) -> (r: Result<Option<u128>, Error>)
        ensures
            match field_place(self.buffer(), self.place(), i as nat) {
                Ok(None) => r == Ok::<Option<u128>, Error>(None),
                Ok(Some(p)) => r == Ok::<Option<u128>, Error>(Some(p as u128)) && 0 <= p
                    < 0x2_0000_0000_0000_0000,
                Err(e) => r is Err && r->Err_0@ == e,
            },
    {
        proof {
            lemma_pow256_values();
        }
        let back = read_scalar(self.buf, self.pos as u128, 4)?;
        let vtable: i128 = self.pos as i128 - signed32(back as u32) as i128;
        if vtable < 0 {
            return Err(oob());
        }
        let size = read_scalar(self.buf, vtable as u128, 2)?;
        let slot: u128 = 4 + 2 * (i as u128);
        if slot >= size as u128 {
            return Ok(None);
        }
        let offset = read_scalar(self.buf, vtable as u128 + slot, 2)?;
        if offset == 0 {
            return Ok(None);
        }
        Ok(Some(self.pos as u128 + offset as u128))
    }

    pub fn read_u8(&self, i: usize, default: u8) -> (r: Result<u8, Error>)
        ensures
            match field_scalar(self.buffer(), self.place(), i as nat, 1, default as nat) {
                Ok(v) => r is Ok && r->Ok_0 == v,
                Err(e) => r is Err && r->Err_0@ == e,
            },
    {
        proof {
            lemma_pow256_values();
        }
        match self.field(i)? {
            Some(p) => Ok(read_scalar(self.buf, p, 1)? as u8),
            None => Ok(default),
        }
    }

    pub fn read_u16(&self, i: usize, default: u16) -> (r: Result<u16, Error>)
        ensures
            match field_scalar(self.buffer(), self.place(), i as nat, 2, default as nat) {
                Ok(v) => r is Ok && r->Ok_0 == v,
                Err(e) => r is Err && r->Err_0@ == e,
            },
    {
        proof {
            lemma_pow256_values();
        }
        match self.field(i)? {
            Some(p) => Ok(read_scalar(self.buf, p, 2)? as u16),
            None => Ok(default),
        }
    }

    /// Read a signed 32-bit scalar field.
    pub fn read_i32(&self, i: usize, default: i32) -> (r: Result<i32, Error>)
        ensures
            match field_scalar(
                self.buffer(),
                self.place(),
                i as nat,
                4,
                unsigned(default as int, 0x1_0000_0000),
            ) {
                Ok(v) => r is Ok && r->Ok_0 == signed(v, 0x1_0000_0000),
                Err(e) => r is Err && r->Err_0@ == e,
            },
    {
        proof {
            lemma_pow256_values();
        }
        match self.field(i)? {
            Some(p) => Ok(signed32(read_scalar(self.buf, p, 4)? as u32)),
            None => Ok(default),
        }
    }

    pub fn read_u64(&self, i: usize, default: u64) -> (r: Result<u64, Error>)
        ensures
            match field_scalar(self.buffer(), self.place(), i as nat, 8, default as nat) {
                Ok(v) => r is Ok && r->Ok_0 == v,
                Err(e) => r is Err && r->Err_0@ == e,
            },
    {
        match self.field(i)? {
            Some(p) => read_scalar(self.buf, p, 8),
            None => Ok(default),
        }
    }

    /// Read a sub-table field.
    pub fn read_table(&self, i: usize) -> (r: Result<Option<Table<'a>>, Error>)
        ensures
            match field_table(self.buffer(), self.place(), i as nat) {
                Ok(None) => r == Ok::<Option<Table<'a>>, Error>(None),
                Ok(Some(p)) => r is Ok && r->Ok_0 is Some && r->Ok_0->0.buffer() == self.buffer()
                    && r->Ok_0->0.place() == p,
                Err(e) => r is Err && r->Err_0@ == e,
            },
    {
        proof {
            lemma_pow256_values();
        }
        match self.field(i)? {
            Some(p) => {
                let off = read_scalar(self.buf, p, 4)?;
                let t = Table::at(self.buf, p + off as u128)?;
                Ok(Some(t))
            },
            None => Ok(None),
        }
    }

    /// Read a string field.
    pub fn read_str(&self, i: usize) -> (r: Result<Option<&'a str>, Error>)
        ensures
            match field_text(self.buffer(), self.place(), i as nat) {
                Ok(None) => r == Ok::<Option<&'a str>, Error>(None),
                Ok(Some(s)) => r is Ok && r->Ok_0 is Some && r->Ok_0->0@ == s,
                Err(e) => r is Err && r->Err_0@ == e,
            },
    {
        match self.read_vector(i)? {
            Some(v) => match utf8_text(v.bytes()?) {
                Some(text) => Ok(Some(text)),
                None => Err(err("invalid utf-8 string")),
            },
            None => Ok(None),
        }
    }

    /// Read a vector field; `None` if absent.
    pub fn read_vector(&self, i: usize) -> (r: Result<Option<Vector<'a>>, Error>)
        ensures
            match field_vector(self.buffer(), self.place(), i as nat) {
                Ok(None) => r == Ok::<Option<Vector<'a>>, Error>(None),
                Ok(Some((start, len))) => r is Ok && r->Ok_0 is Some && r->Ok_0->0.buffer()
                    == self.buffer() && r->Ok_0->0.place() == start && r->Ok_0->0.count() == len,
                Err(e) => r is Err && r->Err_0@ == e,
            },
    {
        proof {
            lemma_pow256_values();
        }
        match self.field(i)? {
            Some(p) => {
                let off = read_scalar(self.buf, p, 4)?;
                let q: u128 = p + off as u128;
                let len = read_scalar(self.buf, q, 4)?;
                assert(q + 4 <= self.buf.len());
                Ok(Some(Vector { buf: self.buf, start: (q + 4) as usize, len: len as u32 }))
            },
            None => Ok(None),
        }
    }
}

/// A view onto a vector in a buffer. The caller says what its elements are.
#[derive(Clone, Copy)]
pub struct Vector<'a> {
    buf: &'a [u8],
    start: usize,
    len: u32,
}

/// The failure of an index beyond the vector's length.
pub open spec fn index_out_of_range() -> Failure {
    failure("vector index out of range"@)
}

/// Element `i` of a vector of `n`-byte scalars.
pub open spec fn element_scalar(buf: Seq<u8>, start: int, len: nat, i: nat, n: nat) -> Result<
    nat,
    Failure,
> {
    if i >= len {
        Err(index_out_of_range())
    } else {
        scalar(buf, start + i * n, n)
    }
}

/// The place of element `i` of a vector of tables.
pub open spec fn element_table(buf: Seq<u8>, start: int, len: nat, i: nat) -> Result<
    int,
    Failure,
> {
    if i >= len {
        Err(index_out_of_range())
    } else {
        match pointee(buf, start + i * 4) {
            Err(e) => Err(e),
            Ok(q) => table_place(buf, q),
        }
    }
}

impl<'a> Vector<'a> {
    /// The bytes the vector is part of.
    pub closed spec fn buffer(&self) -> Seq<u8> {
        self.buf@
    }

    /// Where its elements stand in them.
    pub closed spec fn place(&self) -> int {
        self.start as int
    }

    /// How many elements it has.
    pub closed spec fn count(&self) -> nat {
        self.len as nat
    }

    pub fn len(&self) -> (r: usize)
        ensures
            r == self.count(),
    {
        self.len as usize
    }

    pub fn is_empty(&self) -> (r: bool)
        ensures
            r == (self.count() == 0),
    {
        self.len == 0
    }

    /// The elements of a vector of bytes.
    pub fn bytes(&self) -> (r: Result<&'a [u8], Error>)
        ensures
            match bytes_at(self.buffer(), self.place(), self.count()) {
                Ok(s) => r is Ok && r->Ok_0@ == s,
                Err(e) => r is Err && r->Err_0@ == e,
            },
    {
        let end: u128 = self.start as u128 + self.len as u128;
        if end > self.buf.len() as u128 {
            return Err(oob());
        }
        Ok(slice_subrange(self.buf, self.start, end as usize))
    }

    pub fn get_u32(&self, i: usize) -> (r: Result<u32, Error>)
        ensures
            match element_scalar(self.buffer(), self.place(), self.count(), i as nat, 4) {
                Ok(v) => r is Ok && r->Ok_0 == v,
                Err(e) => r is Err && r->Err_0@ == e,
            },
    {
        proof {
            lemma_pow256_values();
        }
        self.check(i)?;
        Ok(read_scalar(self.buf, self.start as u128 + i as u128 * 4, 4)? as u32)
    }

    /// Element `i` of a vector of doubles, as its bit pattern.
    pub fn get_f64(&self, i: usize) -> (r: Result<u64, Error>)
        ensures
            match element_scalar(self.buffer(), self.place(), self.count(), i as nat, 8) {
                Ok(v) => r is Ok && r->Ok_0 == v,
                Err(e) => r is Err && r->Err_0@ == e,
            },
    {
        self.check(i)?;
        read_scalar(self.buf, self.start as u128 + i as u128 * 8, 8)
    }

    /// Element `i` of a vector of tables.
    pub fn get_table(&self, i: usize) -> (r: Result<Table<'a>, Error>)
        ensures
            match element_table(self.buffer(), self.place(), self.count(), i as nat) {
                Ok(p) => r is Ok && r->Ok_0.buffer() == self.buffer() && r->Ok_0.place() == p,
                Err(e) => r is Err && r->Err_0@ == e,
            },
    {
        proof {
            lemma_pow256_values();
        }
        self.check(i)?;
        let p: u128 = self.start as u128 + i as u128 * 4;
        let off = read_scalar(self.buf, p, 4)?;
        Table::at(self.buf, p + off as u128)
    }

    fn check(&self, i: usize) -> (r: Result<(), Error>)
        ensures
            r is Ok <==> i < self.count(),
            r is Err ==> r->Err_0@ == index_out_of_range(),
    {
        if i as u64 >= self.len as u64 {
            return Err(err("vector index out of range"));
        }
        Ok(())
    }
}

// --- writing -----------------------------------------------------------------

/// A buffer under construction: the view of a [`Builder`].
pub struct Draft {
    /// The bytes written so far, in their final order.
    pub bytes: Seq<u8>,
    /// The largest alignment asked for so far.
    pub min_align: nat,
    /// For each field of the open table, the distance of its value from the
    /// end of the buffer; zero where it is not set.
    pub slots: Seq<nat>,
    /// The number of bytes written when the open table was started.
    pub object_end: nat,
}

/// How many zero bytes bring `len` up to a multiple of `size`.
pub open spec fn padding(len: nat, size: nat) -> nat {
    ((size - len % size) % size as int) as nat
}

/// `n` zero bytes.
pub open spec fn zeros(n: nat) -> Seq<u8> {
    Seq::new(n, |i: int| 0u8)
}

/// The vtable entry for a slot of the table `table_rev` from the end.
pub open spec fn vtable_entry(slot: nat, table_rev: nat) -> nat {
    if slot == 0 {
        0
    } else {
        ((table_rev - slot) % 65536) as nat
    }
}

/// The first `n` vtable entries.
pub open spec fn vtable_entries(slots: Seq<nat>, n: nat, table_rev: nat) -> Seq<u8>
    decreases n,
{
    if n == 0 {
        Seq::empty()
    } else {
        vtable_entries(slots, (n - 1) as nat, table_rev) + le_bytes(
            vtable_entry(slots[n - 1], table_rev),
            2,
        )
    }
}

/// How many slots there are up to the last one set.
pub open spec fn used_slots(slots: Seq<nat>) -> nat
    decreases slots.len(),
{
    if slots.len() == 0 {
        0
    } else if slots.last() != 0 {
        slots.len()
    } else {
        used_slots(slots.drop_last())
    }
}

/// `n`-byte numbers one after another.
pub open spec fn number_block(vals: Seq<nat>, n: nat) -> Seq<u8>
    decreases vals.len(),
{
    if vals.len() == 0 {
        Seq::empty()
    } else {
        number_block(vals.drop_last(), n) + le_bytes(vals.last(), n)
    }
}

impl Draft {
    /// Padded so that a write of `size` bytes after `additional` more is
    /// aligned to `size`.
    pub open spec fn prepped(self, size: nat, additional: nat) -> Draft {
        Draft {
            bytes: zeros(padding(self.bytes.len() + additional, size)) + self.bytes,
            min_align: if size > self.min_align {
                size
            } else {
                self.min_align
            },
            ..self
        }
    }

    /// With `front` put before what is there.
    pub open spec fn with(self, front: Seq<u8>) -> Draft {
        Draft { bytes: front + self.bytes, ..self }
    }

    /// With an aligned number of `n` bytes put before what is there.
    pub open spec fn with_scalar(self, v: nat, n: nat) -> Draft {
        self.prepped(n, 0).with(le_bytes(v, n))
    }

    /// With an offset to the object `target` from the end.
    pub open spec fn with_offset(self, target: nat) -> Draft {
        let d = self.prepped(4, 0);
        d.with(le_bytes((d.bytes.len() + 4 - target) as nat, 4))
    }

    /// Whether an offset put here can reach the object `target` from the end.
    pub open spec fn reaches(self, target: nat) -> bool {
        target <= self.prepped(4, 0).bytes.len() + 4
    }

    /// With a string object.
    pub open spec fn with_string(self, text: Seq<char>) -> Draft {
        self.with_scalar(0, 1).with_byte_vector(encode_utf8(text))
    }

    /// With a vector of bytes.
    pub open spec fn with_byte_vector(self, bytes: Seq<u8>) -> Draft {
        self.prepped(4, bytes.len()).with(bytes).with_scalar(bytes.len(), 4)
    }

    /// With a vector of 32-bit numbers.
    pub open spec fn with_u32_vector(self, vals: Seq<u32>) -> Draft {
        let block = number_block(vals.map_values(|v: u32| v as nat), 4);
        self.prepped(4, block.len()).with(block).with_scalar(vals.len(), 4)
    }

    /// With a vector of doubles, given as bit patterns.
    pub open spec fn with_f64_vector(self, vals: Seq<u64>) -> Draft {
        let block = number_block(vals.map_values(|v: u64| v as nat), 8);
        self.prepped(4, block.len()).prepped(8, block.len()).with(block).with_scalar(vals.len(), 4)
    }

    /// With offsets to the last objects of `targets`, from index `k` on.
    pub open spec fn with_offsets_from(self, targets: Seq<nat>, k: int) -> Draft
        decreases targets.len() - k,
    {
        if k >= targets.len() || k < 0 {
            self
        } else {
            self.with_offsets_from(targets, k + 1).with_offset(targets[k])
        }
    }

    /// With a vector of offsets.
    pub open spec fn with_offset_vector(self, targets: Seq<nat>) -> Draft {
        self.prepped(4, 4 * targets.len()).with_offsets_from(targets, 0).with_scalar(
            targets.len(),
            4,
        )
    }

    /// Whether every target can be reached from its place in the vector.
    pub open spec fn reaches_all(self, targets: Seq<nat>) -> bool {
        forall|k: int|
            0 <= k < targets.len() ==> self.prepped(4, 4 * targets.len()).with_offsets_from(
                targets,
                k + 1,
            ).reaches(#[trigger] targets[k])
    }

    /// With a table of `num_fields` fields opened.
    pub open spec fn table_started(self, num_fields: nat) -> Draft {
        Draft {
            slots: Seq::new(num_fields, |i: int| 0nat),
            object_end: self.bytes.len(),
            ..self
        }
    }

    /// With what was last written noted as the value of `field`.
    pub open spec fn noted(self, field: int) -> Draft {
        Draft { slots: self.slots.update(field, self.bytes.len()), ..self }
    }

    /// With a scalar field, which is left out where it has its default.
    pub open spec fn with_field(self, field: int, v: nat, n: nat, default: nat) -> Draft {
        if v == default {
            self
        } else {
            self.with_scalar(v, n).noted(field)
        }
    }

    /// With a reference field, which is left out where the target is zero.
    pub open spec fn with_reference(self, field: int, target: nat) -> Draft {
        if target == 0 {
            self
        } else {
            self.with_offset(target).noted(field)
        }
    }

    /// Where a table ended now would stand, from the end.
    pub open spec fn table_rev(self) -> nat {
        self.prepped(4, 0).bytes.len() + 4
    }

    /// With the open table ended: the offset to its vtable before the fields,
    /// and the vtable before that.
    pub open spec fn table_ended(self) -> Draft {
        let n = used_slots(self.slots);
        let t = self.table_rev();
        self.with_scalar(2 * (n + 2), 4).with(vtable_entries(self.slots, n, t)).with(
            le_bytes((t - self.object_end) as nat, 2),
        ).with(le_bytes(2 * (n + 2), 2))
    }

    /// The finished bytes, with the table `root` from the end as the root.
    pub open spec fn finished(self, root: nat) -> Seq<u8> {
        let align = if self.min_align > 4 {
            self.min_align
        } else {
            4
        };
        self.prepped(align, 4).with_offset(root).bytes
    }
}

/// A FlatBuffers builder. The bytes are stored last first, so that putting
/// bytes before what is there is a push.
pub struct Builder {
    stored: Vec<u8>,
    min_align: usize,
    vtable: Vec<usize>,
    object_end: usize,
}

/// The distances noted for the fields.
pub open spec fn slots_view(slots: Seq<usize>) -> Seq<nat> {
    slots.map_values(|v: usize| v as nat)
}

impl View for Builder {
    type V = Draft;

    closed spec fn view(&self) -> Draft {
        Draft {
            bytes: self.stored@.reverse(),
            min_align: self.min_align as nat,
            slots: slots_view(self.vtable@),
            object_end: self.object_end as nat,
        }
    }
}

impl Builder {
    /// A table cannot have been started after the present, nor a field noted
    /// there, and alignments are those of the scalars.
    pub closed spec fn wf(&self) -> bool {
        &&& self.object_end <= self.stored@.len()
        &&& forall|i: int|
            0 <= i < self.vtable@.len() ==> #[trigger] self.vtable@[i] <= self.stored@.len()
        &&& (self.min_align == 1 || self.min_align == 2 || self.min_align == 4 || self.min_align
            == 8)
    }

    pub fn new() -> (b: Builder)
        ensures
            b.wf(),
            b@ == (Draft {
                bytes: Seq::empty(),
                min_align: 1,
                slots: Seq::empty(),
                object_end: 0,
            }),
    {
        let b = Builder { stored: Vec::new(), min_align: 1, vtable: Vec::new(), object_end: 0 };
        assert(b.stored@.reverse() =~= Seq::<u8>::empty());
        assert(b@.slots =~= Seq::<nat>::empty());
        b
    }

    /// The number of bytes written so far.
    fn offset(&self) -> (r: usize)
        ensures
            r == self@.bytes.len(),
            r == self.stored@.len(),
    {
        self.stored.len()
    }

    fn write_raw(&mut self, bytes: &[u8])
        requires
            old(self).wf(),
        ensures
            final(self).wf(),
            final(self)@ == old(self)@.with(bytes@),
            final(self).stored@.len() == old(self).stored@.len() + bytes@.len(),
    {
        let mut i: usize = bytes.len();
        assert(bytes@.skip(i as int) + self.stored@.reverse() =~= self.stored@.reverse());
        while i > 0
            invariant
                i <= bytes@.len(),
                self.wf(),
                self.min_align == old(self).min_align,
                self.vtable == old(self).vtable,
                self.object_end == old(self).object_end,
                self.stored@.len() == old(self).stored@.len() + bytes@.len() - i,
                self.stored@.reverse() == bytes@.skip(i as int) + old(self).stored@.reverse(),
            decreases i,
        {
            i -= 1;
            let ghost before = self.stored@;
            self.stored.push(bytes[i]);
            assert(self.stored@.reverse() =~= seq![bytes@[i as int]] + before.reverse());
            assert(bytes@.skip(i as int) =~= seq![bytes@[i as int]] + bytes@.skip(i + 1));
            assert(self.stored@.reverse() =~= bytes@.skip(i as int) + old(self).stored@.reverse());
        }
        assert(bytes@.skip(0) =~= bytes@);
    }

    /// Pad so that a write of `size` bytes after `additional` more bytes is
    /// aligned to `size`.
    fn prep(&mut self, size: usize, additional: usize)
        requires
            old(self).wf(),
            size == 1 || size == 2 || size == 4 || size == 8,
        ensures
            final(self).wf(),
            final(self)@ == old(self)@.prepped(size as nat, additional as nat),
            final(self).stored@.len() == old(self)@.prepped(
                size as nat,
                additional as nat,
            ).bytes.len(),
    {
        if size > self.min_align {
            self.min_align = size;
        }
        let over: usize = (self.stored.len() % size + additional % size) % size;
        let pad: usize = (size - over) % size;
        proof {
            let len = self.stored@.len();
            lemma_add_mod_noop(len as int, additional as int, size as int);
        }
        let mut k: usize = 0;
        assert(zeros(0) + self.stored@.reverse() =~= self.stored@.reverse());
        let ghost align = self.min_align;
        while k < pad
            invariant
                k <= pad,
                self.wf(),
                self.min_align == align,
                self.vtable == old(self).vtable,
                self.object_end == old(self).object_end,
                self.stored@.len() == old(self).stored@.len() + k,
                self.stored@.reverse() == zeros(k as nat) + old(self).stored@.reverse(),
            decreases pad - k,
        {
            let ghost before = self.stored@;
            self.stored.push(0);
            k += 1;
            assert(self.stored@.reverse() =~= seq![0u8] + before.reverse());
            assert(self.stored@.reverse() =~= zeros(k as nat) + old(self).stored@.reverse());
        }
    }

    /// Put an aligned number of `n` bytes before what is there.
    fn push_scalar(&mut self, v: u64, n: usize)
        requires
            old(self).wf(),
            n == 1 || n == 2 || n == 4 || n == 8,
        ensures
            final(self).wf(),
            final(self)@ == old(self)@.with_scalar(v as nat, n as nat),
            final(self).stored@.len() == final(self)@.bytes.len(),
    {
        self.prep(n, 0);
        let bytes = le_vec(v, n);
        self.write_raw(bytes.as_slice());
    }

    fn push_uoffset(&mut self, target: usize)
        requires
            old(self).wf(),
            old(self)@.reaches(target as nat),
        ensures
            final(self).wf(),
            final(self)@ == old(self)@.with_offset(target as nat),
    {
        self.prep(4, 0);
        let distance: u128 = self.offset() as u128 + 4 - target as u128;
        let bytes = le_vec((distance % 0x1_0000_0000) as u64, 4);
        proof {
            lemma_le_bytes_low(distance as nat);
        }
        self.write_raw(bytes.as_slice());
    }

    // --- strings and vectors: each returns its distance from the end ---

    pub fn create_string(&mut self, s: &str) -> (rev: usize)
        requires
            old(self).wf(),
        ensures
            final(self).wf(),
            final(self)@ == old(self)@.with_string(s@),
            rev == final(self)@.bytes.len(),
    {
        self.push_scalar(0, 1);
        self.create_byte_vector(s.as_bytes())
    }

    pub fn create_byte_vector(&mut self, bytes: &[u8]) -> (rev: usize)
        requires
            old(self).wf(),
        ensures
            final(self).wf(),
            final(self)@ == old(self)@.with_byte_vector(bytes@),
            rev == final(self)@.bytes.len(),
    {
        self.prep(4, bytes.len());
        self.write_raw(bytes);
        self.push_scalar(bytes.len() as u64, 4);
        self.offset()
    }

    /// A vector of doubles, given as bit patterns.
    pub fn create_f64_vector(&mut self, vals: &[u64]) -> (rev: usize)
        requires
            old(self).wf(),
        ensures
            final(self).wf(),
            final(self)@ == old(self)@.with_f64_vector(vals@),
            rev == final(self)@.bytes.len(),
    {
        let ghost numbers = vals@.map_values(|v: u64| v as nat);
        let mut block: Vec<u8> = Vec::new();
        let mut i: usize = 0;
        while i < vals.len()
            invariant
                i <= vals@.len(),
                numbers == vals@.map_values(|v: u64| v as nat),
                block@ == number_block(numbers.take(i as int), 8),
            decreases vals@.len() - i,
        {
            push_le(&mut block, vals[i], 8);
            i += 1;
            assert(numbers.take(i as int).drop_last() =~= numbers.take(i - 1));
            assert(numbers.take(i as int).last() == numbers[i - 1]);
        }
        assert(numbers.take(i as int) =~= numbers);
        self.prep(4, block.len());
        self.prep(8, block.len());
        self.write_raw(block.as_slice());
        self.push_scalar(vals.len() as u64, 4);
        self.offset()
    }

    pub fn create_u32_vector(&mut self, vals: &[u32]) -> (rev: usize)
        requires
            old(self).wf(),
        ensures
            final(self).wf(),
            final(self)@ == old(self)@.with_u32_vector(vals@),
            rev == final(self)@.bytes.len(),
    {
        let ghost numbers = vals@.map_values(|v: u32| v as nat);
        let mut block: Vec<u8> = Vec::new();
        let mut i: usize = 0;
        while i < vals.len()
            invariant
                i <= vals@.len(),
                numbers == vals@.map_values(|v: u32| v as nat),
                block@ == number_block(numbers.take(i as int), 4),
            decreases vals@.len() - i,
        {
            push_le(&mut block, vals[i] as u64, 4);
            i += 1;
            assert(numbers.take(i as int).drop_last() =~= numbers.take(i - 1));
            assert(numbers.take(i as int).last() == numbers[i - 1]);
        }
        assert(numbers.take(i as int) =~= numbers);
        self.prep(4, block.len());
        self.write_raw(block.as_slice());
        self.push_scalar(vals.len() as u64, 4);
        self.offset()
    }

    /// A vector of table offsets, each target given by its distance from the
    /// end.
    pub fn create_offset_vector(&mut self, targets: &[usize]) -> (rev: usize)
        requires
            old(self).wf(),
            old(self)@.reaches_all(targets@.map_values(|t: usize| t as nat)),
        ensures
            final(self).wf(),
            final(self)@ == old(self)@.with_offset_vector(targets@.map_values(|t: usize| t as nat)),
            rev == final(self)@.bytes.len(),
    {
        let ghost numbers = targets@.map_values(|t: usize| t as nat);
        proof {
            assert((old(self)@.bytes.len() + 4 * numbers.len()) % 4 == old(self)@.bytes.len() % 4);
            assert(old(self)@.prepped(4, 0) == old(self)@.prepped(4, 4 * numbers.len()));
        }
        self.prep(4, 0);
        let ghost start = self@;
        let mut k: usize = targets.len();
        while k > 0
            invariant
                k <= targets@.len(),
                numbers == targets@.map_values(|t: usize| t as nat),
                start == old(self)@.prepped(4, 4 * numbers.len()),
                old(self)@.reaches_all(numbers),
                self.wf(),
                self@ == start.with_offsets_from(numbers, k as int),
            decreases k,
        {
            k -= 1;
            proof {
                let t = numbers[k as int];
                assert(start.with_offsets_from(numbers, k + 1).reaches(t));
            }
            self.push_uoffset(targets[k]);
        }
        self.push_scalar(targets.len() as u64, 4);
        self.offset()
    }

    // --- tables ---

    pub fn start_table(&mut self, num_fields: usize)
        requires
            old(self).wf(),
        ensures
            final(self).wf(),
            final(self)@ == old(self)@.table_started(num_fields as nat),
    {
        let mut slots: Vec<usize> = Vec::new();
        let mut i: usize = 0;
        while i < num_fields
            invariant
                i <= num_fields,
                slots@ == Seq::new(i as nat, |j: int| 0usize),
            decreases num_fields - i,
        {
            slots.push(0);
            i += 1;
            assert(slots@ =~= Seq::new(i as nat, |j: int| 0usize));
        }
        self.vtable = slots;
        self.object_end = self.stored.len();
        assert(self@.slots =~= Seq::new(num_fields as nat, |j: int| 0nat));
    }

    fn slot(&mut self, field: usize)
        requires
            old(self).wf(),
            field < old(self)@.slots.len(),
        ensures
            final(self).wf(),
            final(self)@ == old(self)@.noted(field as int),
    {
        let at: usize = self.stored.len();
        self.vtable.set(field, at);
        assert(self@.slots =~= old(self)@.slots.update(field as int, at as nat));
    }

    pub fn add_u8(&mut self, field: usize, v: u8, default: u8)
        requires
            old(self).wf(),
            v != default ==> field < old(self)@.slots.len(),
        ensures
            final(self).wf(),
            final(self)@ == old(self)@.with_field(field as int, v as nat, 1, default as nat),
    {
        if v != default {
            self.push_scalar(v as u64, 1);
            self.slot(field);
        }
    }

    pub fn add_u16(&mut self, field: usize, v: u16, default: u16)
        requires
            old(self).wf(),
            v != default ==> field < old(self)@.slots.len(),
        ensures
            final(self).wf(),
            final(self)@ == old(self)@.with_field(field as int, v as nat, 2, default as nat),
    {
        if v != default {
            self.push_scalar(v as u64, 2);
            self.slot(field);
        }
    }

    pub fn add_u64(&mut self, field: usize, v: u64, default: u64)
        requires
            old(self).wf(),
            v != default ==> field < old(self)@.slots.len(),
        ensures
            final(self).wf(),
            final(self)@ == old(self)@.with_field(field as int, v as nat, 8, default as nat),
    {
        if v != default {
            self.push_scalar(v, 8);
            self.slot(field);
        }
    }

    pub fn add_i32(&mut self, field: usize, v: i32, default: i32)
        requires
            old(self).wf(),
            v != default ==> field < old(self)@.slots.len(),
        ensures
            final(self).wf(),
            final(self)@ == old(self)@.with_field(
                field as int,
                unsigned(v as int, 0x1_0000_0000),
                4,
                unsigned(default as int, 0x1_0000_0000),
            ),
    {
        if v != default {
            self.push_scalar(unsigned32(v) as u64, 4);
            self.slot(field);
        }
    }

    /// Add a reference field (string, vector or sub-table) by its distance
    /// from the end.
    pub fn add_offset(&mut self, field: usize, target: usize)
        requires
            old(self).wf(),
            target != 0 ==> field < old(self)@.slots.len() && old(self)@.reaches(target as nat),
        ensures
            final(self).wf(),
            final(self)@ == old(self)@.with_reference(field as int, target as nat),
    {
        if target != 0 {
            self.push_uoffset(target);
            self.slot(field);
        }
    }

    /// Finish the current table, writing its vtable; returns its distance from
    /// the end.
    pub fn end_table(&mut self) -> (rev: usize)
        requires
            old(self).wf(),
        ensures
            final(self).wf(),
            final(self)@ == old(self)@.table_ended(),
            rev == old(self)@.table_rev(),
    {
        let mut n: usize = self.vtable.len();
        let ghost slots = slots_view(self.vtable@);
        assert(slots.take(n as int) =~= slots);
        while n > 0 && self.vtable[n - 1] == 0
            invariant
                n <= self.vtable@.len(),
                slots == slots_view(self.vtable@),
                *self == *old(self),
                used_slots(slots) == used_slots(slots.take(n as int)),
            decreases n,
        {
            assert(slots.take(n as int).drop_last() =~= slots.take(n - 1));
            n -= 1;
        }
        proof {
            if n > 0 {
                assert(slots.take(n as int).last() == slots[n - 1]);
            }
            assert(used_slots(slots) == n);
            assert(n <= self.vtable.len());
        }
        let size: u128 = 2 * (n as u128 + 2);
        let low: u64 = (size % 0x1_0000_0000) as u64;
        proof {
            lemma_le_bytes_low(size as nat);
            lemma_le_bytes_len(size as nat, 4);
        }
        self.push_scalar(low, 4);
        let table_rev = self.offset();
        let ghost base = self@;
        assert(base == old(self)@.with_scalar(2 * (n as nat + 2), 4));
        let mut i: usize = n;
        let ghost entries = vtable_entries(slots, n as nat, table_rev as nat);
        proof {
            lemma_vtable_entries_len(slots, n as nat, table_rev as nat);
            assert(entries.skip(2 * n as int) + base.bytes =~= base.bytes);
        }
        while i > 0
            invariant
                i <= n <= slots.len(),
                self.wf(),
                slots_view(self.vtable@) == slots,
                forall|j: int| 0 <= j < slots.len() ==> #[trigger] slots[j] <= table_rev,
                self.object_end == old(self).object_end,
                self.object_end <= table_rev,
                self@ == base.with(entries.skip(2 * i as int)),
                entries == vtable_entries(slots, n as nat, table_rev as nat),
                entries.len() == 2 * n,
            decreases i,
        {
            i -= 1;
            assert(self.vtable@.len() == slots.len());
            let slot = self.vtable[i];
            assert(slots[i as int] == slot);
            let entry: u64 = if slot == 0 {
                0
            } else {
                ((table_rev - slot) % 65536) as u64
            };
            proof {
                lemma_vtable_entry_bytes(slots, n as nat, table_rev as nat, i as int);
            }
            let bytes = le_vec(entry, 2);
            self.write_raw(bytes.as_slice());
            assert(entries.skip(2 * i as int) =~= bytes@ + entries.skip(2 * (i + 1)));
            assert(self@.bytes =~= entries.skip(2 * i as int) + base.bytes);
        }
        assert(entries.skip(0) =~= entries);
        let inline = le_vec((table_rev - self.object_end) as u64, 2);
        self.write_raw(inline.as_slice());
        let header = le_vec(low, 2);
        proof {
            lemma_le_bytes_low16(size as nat);
        }
        self.write_raw(header.as_slice());
        table_rev
    }

    /// Finish the buffer with the table `root` from the end as the root,
    /// returning the finished bytes.
    pub fn finish(self, root: usize) -> (bytes: Vec<u8>)
        requires
            self.wf(),
            self@.prepped(
                if self@.min_align > 4 {
                    self@.min_align
                } else {
                    4
                },
                4,
            ).reaches(root as nat),
        ensures
            bytes@ == self@.finished(root as nat),
    {
        let mut b = self;
        let align: usize = if b.min_align > 4 {
            b.min_align
        } else {
            4
        };
        b.prep(align, 4);
        b.push_uoffset(root);
        let mut bytes: Vec<u8> = Vec::new();
        let mut i: usize = b.stored.len();
        while i > 0
            invariant
                i <= b.stored@.len(),
                bytes@ == b.stored@.reverse().take(b.stored@.len() - i),
            decreases i,
        {
            i -= 1;
            bytes.push(b.stored[i]);
            assert(bytes@ =~= b.stored@.reverse().take(b.stored@.len() - i));
        }
        assert(bytes@ =~= b.stored@.reverse());
        bytes
    }
}

pub proof fn lemma_vtable_entries_len(slots: Seq<nat>, n: nat, table_rev: nat)
    ensures
        vtable_entries(slots, n, table_rev).len() == 2 * n,
    decreases n,
{
    if n > 0 {
        lemma_vtable_entries_len(slots, (n - 1) as nat, table_rev);
        lemma_le_bytes_len(vtable_entry(slots[n - 1], table_rev), 2);
    }
}

proof fn lemma_vtable_entry_bytes(slots: Seq<nat>, n: nat, table_rev: nat, i: int)
    requires
        0 <= i < n,
    ensures
        vtable_entries(slots, n, table_rev).len() == 2 * n,
        vtable_entries(slots, n, table_rev).subrange(2 * i, 2 * i + 2) == le_bytes(
            vtable_entry(slots[i], table_rev),
            2,
        ),
    decreases n,
{
    lemma_vtable_entries_len(slots, n, table_rev);
    lemma_vtable_entries_len(slots, (n - 1) as nat, table_rev);
    let all = vtable_entries(slots, n, table_rev);
    if i == n - 1 {
        assert(all.subrange(2 * i, 2 * i + 2) =~= le_bytes(vtable_entry(slots[i], table_rev), 2));
    } else {
        lemma_vtable_entry_bytes(slots, (n - 1) as nat, table_rev, i);
        assert(all.subrange(2 * i, 2 * i + 2) =~= vtable_entries(
            slots,
            (n - 1) as nat,
            table_rev,
        ).subrange(2 * i, 2 * i + 2));
    }
}

/// Only the low four bytes of a number are in its four-byte form.
proof fn lemma_le_bytes_low(v: nat)
    ensures
        le_bytes(v % 0x1_0000_0000, 4) == le_bytes(v, 4),
{
    reveal_with_fuel(le_bytes, 5);
    let w = v % 0x1_0000_0000;
    assert(w % 256 == v % 256);
    assert((w / 256) % 256 == (v / 256) % 256);
    assert((w / 256 / 256) % 256 == (v / 256 / 256) % 256);
    assert((w / 256 / 256 / 256) % 256 == (v / 256 / 256 / 256) % 256);
}

proof fn lemma_le_bytes_low16(v: nat)
    ensures
        le_bytes(v % 0x1_0000_0000, 2) == le_bytes(v, 2),
{
    reveal_with_fuel(le_bytes, 3);
    let w = v % 0x1_0000_0000;
    assert(w % 256 == v % 256);
    assert((w / 256) % 256 == (v / 256) % 256);
}

// --- what can be reached --------------------------------------------------------

/// Whatever has been written can be reached.
pub proof fn lemma_reach(d: Draft, target: nat)
    requires
        target <= d.bytes.len(),
    ensures
        d.reaches(target),
{
}

proof fn lemma_offsets_grow(d: Draft, targets: Seq<nat>, k: int)
    ensures
        d.with_offsets_from(targets, k).bytes.len() >= d.bytes.len(),
    decreases targets.len() - k,
{
    if 0 <= k < targets.len() {
        lemma_offsets_grow(d, targets, k + 1);
    }
}

/// Whatever has been written can be reached from a vector of offsets.
pub proof fn lemma_reach_all(d: Draft, targets: Seq<nat>)
    requires
        forall|k: int| 0 <= k < targets.len() ==> #[trigger] targets[k] <= d.bytes.len(),
    ensures
        d.reaches_all(targets),
        d.with_offset_vector(targets).bytes.len() >= d.bytes.len(),
{
    let p = d.prepped(4, 4 * targets.len());
    assert forall|k: int| 0 <= k < targets.len() implies p.with_offsets_from(
        targets,
        k + 1,
    ).reaches(#[trigger] targets[k]) by {
        lemma_offsets_grow(p, targets, k + 1);
        lemma_reach(p.with_offsets_from(targets, k + 1), targets[k]);
    }
    lemma_offsets_grow(p, targets, 0);
}

/// A table ended is part of what has been written.
pub proof fn lemma_table_is_written(d: Draft)
    ensures
        d.bytes.len() <= d.table_rev() <= d.table_ended().bytes.len(),
        d.table_rev() >= 4,
{
    lemma_le_bytes_len(2 * (used_slots(d.slots) + 2), 4);
}

// --- what the reader finds of what the builder wrote ---------------------------

/// A number that stands in the buffer is read from its place.
pub proof fn lemma_scalar_in_place(buf: Seq<u8>, before: Seq<u8>, v: nat, n: nat, after: Seq<u8>)
    requires
        buf == before + le_bytes(v, n) + after,
        v < pow256(n),
    ensures
        scalar(buf, before.len() as int, n) == Ok::<nat, Failure>(v),
{
    law_le_bytes_read_back(v, n);
    assert(buf.subrange(before.len() as int, (before.len() + n) as int) =~= le_bytes(v, n));
}

proof fn lemma_set_slot_is_used(slots: Seq<nat>, i: int)
    requires
        0 <= i < slots.len(),
        slots[i] != 0,
    ensures
        i < used_slots(slots) <= slots.len(),
    decreases slots.len(),
{
    lemma_used_slots_bound(slots);
    if slots.last() == 0 {
        lemma_set_slot_is_used(slots.drop_last(), i);
        lemma_used_slots_bound(slots.drop_last());
    }
}

pub proof fn lemma_used_slots_bound(slots: Seq<nat>)
    ensures
        used_slots(slots) <= slots.len(),
    decreases slots.len(),
{
    if slots.len() > 0 && slots.last() == 0 {
        lemma_used_slots_bound(slots.drop_last());
    }
}

/// The reader follows a table's vtable to exactly the slots the builder noted:
/// a field noted at `slots[field]` is found at that distance from the end, and
/// one not noted is absent. The table and its vtable must be smaller than their
/// sixteen bits can say.
#[verifier::spinoff_prover]
#[verifier::rlimit(60)]
pub proof fn law_table_fields_are_found(d: Draft, front: Seq<u8>, field: int, value_rev: nat)
    requires
        0 <= field,
        used_slots(d.slots) <= 0x7ffd,
        value_rev == if field < d.slots.len() {
            d.slots[field]
        } else {
            0
        },
        value_rev != 0 ==> value_rev <= d.bytes.len() && d.table_rev() - value_rev < 65536,
    ensures
        ({
            let buf = front + d.table_ended().bytes;
            let pos = buf.len() - d.table_rev();
            field_place(buf, pos, field as nat) == Ok::<Option<int>, Failure>(
                if value_rev == 0 {
                    None
                } else {
                    Some(buf.len() - value_rev)
                },
            )
        }),
{
    let n = used_slots(d.slots);
    let t = d.table_rev();
    let size = 2 * (n + 2);
    let base = d.prepped(4, 0).bytes;
    let entries = vtable_entries(d.slots, n, t);
    let header = le_bytes(size, 2);
    let inline = le_bytes((t - d.object_end) as nat, 2);
    let back = le_bytes(size, 4);
    let buf = front + d.table_ended().bytes;
    let pos = buf.len() - t;
    lemma_used_slots_bound(d.slots);
    lemma_pow256_values();
    lemma_le_bytes_len(size, 2);
    lemma_le_bytes_len((t - d.object_end) as nat, 2);
    lemma_le_bytes_len(size, 4);
    lemma_vtable_entries_len(d.slots, n, t);
    assert(buf =~= front + header + (inline + entries + back + base));
    assert(buf =~= (front + header + inline + entries) + back + base);
    lemma_scalar_in_place(buf, front, size, 2, inline + entries + back + base);
    lemma_scalar_in_place(buf, front + header + inline + entries, size, 4, base);
    assert(pos == (front + header + inline + entries).len());
    assert(signed(size, 0x1_0000_0000) == size);
    if value_rev != 0 {
        lemma_set_slot_is_used(d.slots, field);
    }
    if field < n {
        lemma_vtable_entry_bytes(d.slots, n, t, field);
        let entry = vtable_entry(d.slots[field], t);
        let before = front + header + inline + entries.take(2 * field);
        let after = entries.skip(2 * field + 2) + back + base;
        assert(entries =~= entries.take(2 * field) + entries.subrange(2 * field, 2 * field + 2)
            + entries.skip(2 * field + 2));
        assert(buf =~= before + le_bytes(entry, 2) + after);
        lemma_scalar_in_place(buf, before, entry, 2, after);
        if value_rev != 0 {
            assert(entry == t - value_rev);
        }
    }
}

/// A scalar field is read back with the value it was given, whatever is added
/// to the table after it and whatever stands before the table.
pub proof fn law_scalar_field_reads_back(
    d: Draft,
    field: int,
    v: nat,
    n: nat,
    default: nat,
    later: Draft,
    added: Seq<u8>,
    front: Seq<u8>,
)
    requires
        0 <= field < d.slots.len(),
        n == 1 || n == 2 || n == 4 || n == 8,
        v < pow256(n),
        d.slots[field] == 0,
        later.bytes == added + d.with_field(field, v, n, default).bytes,
        used_slots(later.slots) <= 0x7ffd,
        field < later.slots.len(),
        later.slots[field] == d.with_field(field, v, n, default).slots[field],
        later.table_rev() - d.bytes.len() < 65536,
    ensures
        ({
            let buf = front + later.table_ended().bytes;
            field_scalar(buf, buf.len() - later.table_rev(), field as nat, n, default) == Ok::<
                nat,
                Failure,
            >(v)
        }),
{
    let buf = front + later.table_ended().bytes;
    if v == default {
        law_table_fields_are_found(later, front, field, 0);
    } else {
        let rest = d.prepped(n, 0).bytes;
        let rev = n + rest.len();
        lemma_le_bytes_len(v, n);
        assert(d.with_scalar(v, n).bytes.len() == rev);
        assert(rev >= d.bytes.len());
        law_table_fields_are_found(later, front, field, rev);
        lemma_table_ended_ends_with(later, front);
        lemma_scalar_kept(buf, later.bytes, added, v, n, rest);
    }
}

/// A number near the end of the buffer is read from its place there.
proof fn lemma_scalar_kept(
    buf: Seq<u8>,
    tail: Seq<u8>,
    added: Seq<u8>,
    v: nat,
    n: nat,
    rest: Seq<u8>,
)
    requires
        tail.len() <= buf.len(),
        buf.skip(buf.len() - tail.len()) == tail,
        tail == added + (le_bytes(v, n) + rest),
        v < pow256(n),
    ensures
        scalar(buf, buf.len() - (n + rest.len()), n) == Ok::<nat, Failure>(v),
{
    lemma_le_bytes_len(v, n);
    let before = buf.take(buf.len() - tail.len()) + added;
    assert(buf =~= buf.take(buf.len() - tail.len()) + tail);
    assert(buf =~= before + le_bytes(v, n) + rest);
    lemma_scalar_in_place(buf, before, v, n, rest);
}

/// Ending a table leaves what was written before it at the end of the buffer.
proof fn lemma_table_ended_ends_with(d: Draft, front: Seq<u8>)
    ensures
        ({
            let buf = front + d.table_ended().bytes;
            &&& d.bytes.len() <= buf.len()
            &&& buf.skip(buf.len() - d.bytes.len()) == d.bytes
        }),
{
    let buf = front + d.table_ended().bytes;
    assert(buf.skip(buf.len() - d.bytes.len()) =~= d.bytes);
}

/// A byte vector is read back, byte for byte, through an offset to it.
pub proof fn law_byte_vector_reads_back(d: Draft, content: Seq<u8>, front: Seq<u8>)
    requires
        content.len() < 0x1_0000_0000,
    ensures
        ({
            let object = d.with_byte_vector(content).bytes;
            let buf = front + object;
            &&& scalar(buf, buf.len() - object.len(), 4) == Ok::<nat, Failure>(content.len())
            &&& bytes_at(buf, buf.len() - object.len() + 4, content.len()) == Ok::<
                Seq<u8>,
                Failure,
            >(content)
        }),
{
    let inner = d.prepped(4, content.len()).bytes;
    let body = content + inner;
    let object = d.with_byte_vector(content).bytes;
    let buf = front + object;
    let count = le_bytes(content.len(), 4);
    lemma_le_bytes_len(content.len(), 4);
    lemma_pow256_values();
    lemma_padding_completes(d.bytes.len() + content.len(), 4);
    assert(inner.len() + content.len() == d.bytes.len() + content.len() + padding(
        d.bytes.len() + content.len(),
        4,
    ));
    assert(body.len() % 4 == 0);
    assert(padding(body.len(), 4) == 0);
    assert(zeros(0) + body =~= body);
    assert(object =~= count + body);
    assert(buf =~= front + count + body);
    lemma_scalar_in_place(buf, front, content.len(), 4, body);
    assert(buf.subrange(front.len() + 4int, front.len() + 4int + content.len()) =~= content);
}

pub proof fn lemma_padding_completes(len: nat, size: nat)
    requires
        size == 1 || size == 2 || size == 4 || size == 8,
    ensures
        (len + padding(len, size)) % size == 0,
        padding(len, size) < size,
{
}

/// A string field is read back as the text it was given.
pub proof fn law_string_reads_back(d: Draft, text: Seq<char>, front: Seq<u8>)
    requires
        encode_utf8(text).len() < 0x1_0000_0000,
    ensures
        ({
            let object = d.with_string(text).bytes;
            let buf = front + object;
            let start = buf.len() - object.len();
            &&& scalar(buf, start, 4) == Ok::<nat, Failure>(encode_utf8(text).len())
            &&& bytes_at(buf, start + 4, encode_utf8(text).len()) == Ok::<Seq<u8>, Failure>(
                encode_utf8(text),
            )
            &&& valid_utf8(encode_utf8(text))
            &&& decode_utf8(encode_utf8(text)) == text
        }),
{
    law_byte_vector_reads_back(d.with_scalar(0, 1), encode_utf8(text), front);
    encode_utf8_valid_utf8(text);
    encode_utf8_decode_utf8(text);
}

/// An offset points to the object it was made for.
pub proof fn law_offset_points_to_target(d: Draft, target: nat, front: Seq<u8>)
    requires
        target <= d.bytes.len(),
        d.with_offset(target).bytes.len() - target < 0x1_0000_0000,
    ensures
        ({
            let written = d.with_offset(target).bytes;
            let buf = front + written;
            pointee(buf, buf.len() - written.len()) == Ok::<int, Failure>(buf.len() - target)
        }),
{
    let inner = d.prepped(4, 0).bytes;
    let v = (inner.len() + 4 - target) as nat;
    lemma_le_bytes_len(v, 4);
    lemma_pow256_values();
    let buf = front + d.with_offset(target).bytes;
    assert(buf =~= front + le_bytes(v, 4) + inner);
    lemma_scalar_in_place(buf, front, v, 4, inner);
}

/// The root of a finished buffer is the table it was finished with.
pub proof fn law_root_is_found(d: Draft, root: nat)
    requires
        4 <= root <= d.bytes.len(),
        d.finished(root).len() < 0x1_0000_0000,
    ensures
        root_place(d.finished(root)) == Ok::<int, Failure>(d.finished(root).len() - root),
{
    let align = if d.min_align > 4 {
        d.min_align
    } else {
        4
    };
    let p = d.prepped(align, 4);
    law_offset_points_to_target(p, root, Seq::empty());
    assert(Seq::<u8>::empty() + p.with_offset(root).bytes =~= p.with_offset(root).bytes);
}

/// Element `i` of a block of `n`-byte numbers stands `i * n` bytes into it.
pub proof fn law_number_block_reads_back(
    vals: Seq<nat>,
    n: nat,
    i: int,
    before: Seq<u8>,
    after: Seq<u8>,
)
    requires
        0 <= i < vals.len(),
        n == 4 || n == 8,
        forall|k: int| 0 <= k < vals.len() ==> vals[k] < pow256(n),
    ensures
        number_block(vals, n).len() == vals.len() * n,
        scalar(before + number_block(vals, n) + after, before.len() + i * n, n) == Ok::<
            nat,
            Failure,
        >(vals[i]),
    decreases vals.len(),
{
    let shorter = number_block(vals.drop_last(), n);
    let last = le_bytes(vals.last(), n);
    let buf = before + number_block(vals, n) + after;
    lemma_number_block_len(vals, n);
    lemma_number_block_len(vals.drop_last(), n);
    lemma_le_bytes_len(vals.last(), n);
    if i == vals.len() - 1 {
        assert(buf =~= (before + shorter) + last + after);
        lemma_scalar_in_place(buf, before + shorter, vals[i], n, after);
    } else {
        law_number_block_reads_back(vals.drop_last(), n, i, before, last + after);
        assert(before + shorter + (last + after) =~= buf);
    }
}

pub proof fn lemma_number_block_len(vals: Seq<nat>, n: nat)
    requires
        n == 4 || n == 8,
    ensures
        number_block(vals, n).len() == vals.len() * n,
    decreases vals.len(),
{
    if vals.len() > 0 {
        lemma_number_block_len(vals.drop_last(), n);
        lemma_le_bytes_len(vals.last(), n);
    }
}

} // verus!
