//! Headers that were written are read back.
use vstd::prelude::*;

use super::placed::{
    ends_with, grown, lemma_ends_with_itself, lemma_ends_with_trans, lemma_f64_vector_grows,
    lemma_field_found, lemma_field_grows, lemma_finished_grows, lemma_offset_vector_found,
    lemma_offset_vector_grows, lemma_optional_grows, lemma_reference_found, lemma_reference_grows,
    lemma_string_grows, lemma_table_ended_grows, lemma_text_found, place_of,
};
use super::reader::{
    column_at, columns_at, columns_from, crs_at, header_of, recorded_system, system_at, Header,
};
use super::round_trip::stored_columns;
use super::shapes_back::are_tables;
use super::writer::{
    code_bits, column_code, column_fields, columns_drawn, crs_drawn, crs_fields, doubles_drawn,
    empty_draft, envelope_of, flag, header_bytes, header_drawn, header_fields, recordable,
    text_drawn, with_optional, HeaderTargets, Summary, NO_COLUMN_TYPE,
};
use super::{
    COLUMN_FIELDS, COLUMN_NAME, COLUMN_TYPE, CRS_CODE, CRS_FIELDS, CRS_ORG, CRS_WKT,
    HEADER_COLUMNS, HEADER_CRS, HEADER_ENVELOPE, HEADER_FEATURES_COUNT, HEADER_FIELDS,
    HEADER_GEOMETRY_TYPE, HEADER_HAS_M, HEADER_HAS_Z, HEADER_INDEX_NODE_SIZE, HEADER_NAME, UNKNOWN,
};
use crate::bytes::{lemma_pow256_values, signed};
use crate::crs::system::System;
use crate::error::Failure;
use crate::flatbuffers::{
    element_table, field_pointee, field_scalar, field_text, law_root_is_found, Draft,
};
use crate::geometry::Bbox;
use crate::schema::{ColumnType, Field};

verus! {

// --- columns -------------------------------------------------------------------------------

proof fn lemma_column_grows(d: Draft, name: Seq<char>, ty: ColumnType)
    ensures
        ({
            let open = column_fields(d, name, ty);
            &&& grown(open.table_ended(), d)
            &&& 4 <= open.table_rev() <= open.table_ended().bytes.len()
        }),
{
    let named = d.with_string(name);
    let started = named.table_started(COLUMN_FIELDS as nat);
    let r = started.with_reference(COLUMN_NAME as int, named.bytes.len());
    let open = column_fields(d, name, ty);
    let code = column_code(ty) as nat;
    lemma_string_grows(d, name);
    lemma_reference_grows(started, COLUMN_NAME as int, named.bytes.len());
    lemma_field_grows(r, COLUMN_TYPE as int, code, 1, NO_COLUMN_TYPE as nat);
    lemma_table_ended_grows(open);
    lemma_ends_with_trans(r.bytes, named.bytes, d.bytes);
    lemma_ends_with_trans(open.bytes, r.bytes, d.bytes);
    lemma_ends_with_trans(open.table_ended().bytes, open.bytes, d.bytes);
}

/// A column is read back.
#[verifier::spinoff_prover]
proof fn lemma_column_found(d: Draft, name: Seq<char>, ty: ColumnType, buf: Seq<u8>)
    requires
        ends_with(buf, column_fields(d, name, ty).table_ended().bytes),
        buf.len() < 0x1_0000_0000,
    ensures
        column_at(buf, buf.len() - column_fields(d, name, ty).table_rev()) == Ok::<
            (Seq<char>, nat),
            Failure,
        >((name, column_code(ty) as nat)),
{
    let named = d.with_string(name);
    let started = named.table_started(COLUMN_FIELDS as nat);
    let target = Some(named.bytes.len());
    let r = with_optional(started, COLUMN_NAME as int, target);
    let open = column_fields(d, name, ty);
    let code = column_code(ty) as nat;
    lemma_pow256_values();
    lemma_string_grows(d, name);
    lemma_optional_grows(started, COLUMN_NAME as int, target);
    lemma_field_grows(r, COLUMN_TYPE as int, code, 1, NO_COLUMN_TYPE as nat);
    lemma_table_ended_grows(open);
    lemma_ends_with_itself(open.bytes);
    lemma_reference_found(started, COLUMN_NAME as int, target, open, buf);
    lemma_field_found(r, COLUMN_TYPE as int, code, 1, NO_COLUMN_TYPE as nat, open, buf);
    lemma_ends_with_trans(buf, open.table_ended().bytes, open.bytes);
    lemma_ends_with_trans(buf, open.bytes, r.bytes);
    lemma_ends_with_trans(buf, r.bytes, named.bytes);
    let pos = buf.len() - open.table_rev();
    lemma_text_found(d, name, buf, pos, COLUMN_NAME as nat);
    assert(field_scalar(buf, pos, COLUMN_TYPE as nat, 1, super::COLUMN_STRING as nat) == Ok::<
        nat,
        Failure,
    >(code));
}

proof fn lemma_columns_grow(d: Draft, columns: Seq<Field<u64>>, n: int)
    requires
        0 <= n <= columns.len(),
    ensures
        grown(columns_drawn(d, columns, n).0, d),
        columns_drawn(d, columns, n).1.len() == n,
        are_tables(columns_drawn(d, columns, n).1, columns_drawn(d, columns, n).0),
    decreases n,
{
    if n <= 0 {
        lemma_ends_with_itself(d.bytes);
    } else {
        let (before, revs) = columns_drawn(d, columns, n - 1);
        lemma_columns_grow(d, columns, n - 1);
        let open = column_fields(before, columns[n - 1].name, columns[n - 1].ty);
        lemma_column_grows(before, columns[n - 1].name, columns[n - 1].ty);
        let after = open.table_ended();
        let rev = open.table_rev();
        lemma_ends_with_trans(after.bytes, before.bytes, d.bytes);
        assert forall|k: int| 0 <= k < n implies 4 <= #[trigger] revs.push(rev)[k]
            <= after.bytes.len() by {
            if k < n - 1 {
                assert(revs.push(rev)[k] == revs[k]);
            }
        }
    }
}

/// Each column is read back.
proof fn lemma_column_reads_back(
    d: Draft,
    columns: Seq<Field<u64>>,
    n: int,
    k: int,
    buf: Seq<u8>,
)
    requires
        0 <= k < n <= columns.len(),
        ends_with(buf, columns_drawn(d, columns, n).0.bytes),
        buf.len() < 0x1_0000_0000,
    ensures
        column_at(buf, buf.len() - columns_drawn(d, columns, n).1[k]) == Ok::<
            (Seq<char>, nat),
            Failure,
        >(stored_columns(columns)[k]),
    decreases n,
{
    let (before, revs) = columns_drawn(d, columns, n - 1);
    let c = columns[n - 1];
    let open = column_fields(before, c.name, c.ty);
    let rev = open.table_rev();
    lemma_columns_grow(d, columns, n - 1);
    if k == n - 1 {
        lemma_column_found(before, c.name, c.ty, buf);
        assert(revs.push(rev)[k] == rev);
    } else {
        lemma_column_grows(before, c.name, c.ty);
        lemma_ends_with_trans(buf, open.table_ended().bytes, before.bytes);
        lemma_column_reads_back(d, columns, n - 1, k, buf);
        assert(revs.push(rev)[k] == revs[k]);
    }
}

/// Columns whose tables are read back make up the list.
proof fn lemma_columns_found(
    buf: Seq<u8>,
    start: int,
    revs: Seq<nat>,
    all: Seq<(Seq<char>, nat)>,
    i: nat,
)
    requires
        i <= all.len() == revs.len(),
        forall|k: nat|
            k < revs.len() ==> #[trigger] element_table(buf, start, revs.len(), k) == Ok::<
                int,
                Failure,
            >(buf.len() - revs[k as int]),
        forall|k: int|
            0 <= k < revs.len() ==> column_at(buf, buf.len() - #[trigger] revs[k]) == Ok::<
                (Seq<char>, nat),
                Failure,
            >(all[k]),
    ensures
        columns_from(buf, start, revs.len(), i, all.take(i as int)) == Ok::<
            Seq<(Seq<char>, nat)>,
            Failure,
        >(all),
    decreases all.len() - i,
{
    if i < all.len() {
        assert(element_table(buf, start, revs.len(), i) == Ok::<int, Failure>(
            buf.len() - revs[i as int],
        ));
        assert(column_at(buf, buf.len() - revs[i as int]) == Ok::<(Seq<char>, nat), Failure>(
            all[i as int],
        ));
        lemma_columns_found(buf, start, revs, all, i + 1);
        assert(all.take((i + 1) as int) =~= all.take(i as int).push(all[i as int]));
    } else {
        assert(all.take(i as int) =~= all);
    }
}

// --- the reference system ------------------------------------------------------------------

/// What a system's table is read as.
pub open spec fn read_system(crs: Option<System>) -> Option<System> {
    match crs {
        None => None,
        Some(s) => {
            let (org, code, wkt) = recordable(s);
            recorded_system(org, signed(code_bits(code), 0x1_0000_0000), wkt)
        },
    }
}

proof fn lemma_text_drawn_grows(d: Draft, text: Option<Seq<char>>)
    ensures
        grown(text_drawn(d, text).0, d),
        text_drawn(d, text).1 matches Some(t) ==> 0 < t <= text_drawn(d, text).0.bytes.len(),
{
    lemma_ends_with_itself(d.bytes);
    if let Some(s) = text {
        lemma_string_grows(d, s);
    }
}

pub proof fn lemma_crs_grows(d: Draft, crs: Option<System>)
    ensures
        grown(crs_drawn(d, crs).0, d),
        crs_drawn(d, crs).1 matches Some(t) ==> 4 <= t <= crs_drawn(d, crs).0.bytes.len(),
{
    reveal(crs_drawn);
    lemma_ends_with_itself(d.bytes);
    if let Some(s) = crs {
        let (org, code, wkt) = recordable(s);
        let (d1, o) = text_drawn(d, org);
        let (d2, w) = text_drawn(d1, wkt);
        let started = d2.table_started(CRS_FIELDS as nat);
        let d3 = with_optional(started, CRS_ORG as int, o);
        let d4 = d3.with_field(CRS_CODE as int, code_bits(code), 4, 0);
        let open = with_optional(d4, CRS_WKT as int, w);
        lemma_text_drawn_grows(d, org);
        lemma_text_drawn_grows(d1, wkt);
        lemma_ends_with_trans(d2.bytes, d1.bytes, d.bytes);
        lemma_optional_grows(started, CRS_ORG as int, o);
        lemma_ends_with_trans(d3.bytes, started.bytes, d.bytes);
        lemma_field_grows(d3, CRS_CODE as int, code_bits(code), 4, 0);
        lemma_ends_with_trans(d4.bytes, d3.bytes, d.bytes);
        lemma_optional_grows(d4, CRS_WKT as int, w);
        lemma_ends_with_trans(open.bytes, d4.bytes, d.bytes);
        lemma_table_ended_grows(open);
        lemma_ends_with_trans(open.table_ended().bytes, open.bytes, d.bytes);
    }
}

/// A text field is read back, where there is one.
proof fn lemma_text_drawn_found(d: Draft, text: Option<Seq<char>>, buf: Seq<u8>, pos: int, field: nat)
    requires
        ends_with(buf, text_drawn(d, text).0.bytes),
        buf.len() < 0x1_0000_0000,
        field_pointee(buf, pos, field) == Ok::<Option<int>, Failure>(
            place_of(buf, text_drawn(d, text).1),
        ),
    ensures
        field_text(buf, pos, field) == Ok::<Option<Seq<char>>, Failure>(text),
{
    if let Some(s) = text {
        lemma_text_found(d, s, buf, pos, field);
    }
}

/// A system's table is read back.
#[verifier::spinoff_prover]
#[verifier::rlimit(60)]
proof fn lemma_crs_found(d: Draft, s: System, buf: Seq<u8>)
    requires
        crs_drawn(d, Some(s)).1 is Some,
        ends_with(buf, crs_drawn(d, Some(s)).0.bytes),
        buf.len() < 0x1_0000_0000,
    ensures
        system_at(buf, buf.len() - crs_drawn(d, Some(s)).1->0) == Ok::<Option<System>, Failure>(
            read_system(Some(s)),
        ),
{
    reveal(crs_drawn);
    lemma_pow256_values();
    let (org, code, wkt) = recordable(s);
    let (d1, o) = text_drawn(d, org);
    let (d2, w) = text_drawn(d1, wkt);
    let started = d2.table_started(CRS_FIELDS as nat);
    let d3 = with_optional(started, CRS_ORG as int, o);
    let d4 = d3.with_field(CRS_CODE as int, code_bits(code), 4, 0);
    let open = with_optional(d4, CRS_WKT as int, w);
    assert(open == crs_fields(d, org, code, wkt));
    lemma_text_drawn_grows(d, org);
    lemma_text_drawn_grows(d1, wkt);
    lemma_optional_grows(started, CRS_ORG as int, o);
    lemma_field_grows(d3, CRS_CODE as int, code_bits(code), 4, 0);
    lemma_optional_grows(d4, CRS_WKT as int, w);
    lemma_table_ended_grows(open);
    lemma_ends_with_itself(open.bytes);
    lemma_ends_with_trans(open.bytes, d4.bytes, d3.bytes);
    lemma_reference_found(started, CRS_ORG as int, o, open, buf);
    lemma_field_found(d3, CRS_CODE as int, code_bits(code), 4, 0, open, buf);
    lemma_reference_found(d4, CRS_WKT as int, w, open, buf);
    lemma_ends_with_trans(buf, open.table_ended().bytes, open.bytes);
    lemma_ends_with_trans(buf, open.bytes, d3.bytes);
    lemma_ends_with_trans(buf, d3.bytes, d2.bytes);
    lemma_ends_with_trans(buf, d2.bytes, d1.bytes);
    let pos = buf.len() - open.table_rev();
    lemma_text_drawn_found(d, org, buf, pos, CRS_ORG as nat);
    lemma_text_drawn_found(d1, wkt, buf, pos, CRS_WKT as nat);
}

// --- the header ----------------------------------------------------------------------------

/// What a reader finds in a header's table.
#[verifier::spinoff_prover]
#[verifier::rlimit(80)]
pub proof fn lemma_header_table_found(d: Draft, s: Summary, t: HeaderTargets, buf: Seq<u8>)
    requires
        0 < t.columns <= d.bytes.len(),
        t.crs matches Some(r) ==> 0 < r <= d.bytes.len(),
        ends_with(buf, header_fields(d, s, t).table_ended().bytes),
        buf.len() < 0x1_0000_0000,
    ensures
        ({
            let pos = buf.len() - header_fields(d, s, t).table_rev();
            &&& field_scalar(buf, pos, HEADER_GEOMETRY_TYPE as nat, 1, 0) == Ok::<nat, Failure>(
                s.ty as nat,
            )
            &&& field_scalar(buf, pos, HEADER_FEATURES_COUNT as nat, 8, 0) == Ok::<nat, Failure>(
                s.count as nat,
            )
            &&& field_scalar(buf, pos, HEADER_INDEX_NODE_SIZE as nat, 2, 16) == Ok::<nat, Failure>(
                s.node_size as nat,
            )
            &&& field_pointee(buf, pos, HEADER_COLUMNS as nat) == Ok::<Option<int>, Failure>(
                Some(buf.len() - t.columns),
            )
            &&& field_pointee(buf, pos, HEADER_CRS as nat) == Ok::<Option<int>, Failure>(
                place_of(buf, t.crs),
            )
        }),
{
    reveal(header_fields);
    lemma_pow256_values();
    let columns = Some(t.columns);
    let started = d.table_started(HEADER_FIELDS as nat);
    let d0 = started.with_reference(HEADER_NAME as int, t.name);
    let d1 = with_optional(d0, HEADER_ENVELOPE as int, t.envelope);
    let d2 = d1.with_field(HEADER_GEOMETRY_TYPE as int, s.ty as nat, 1, UNKNOWN as nat);
    let d3 = d2.with_field(HEADER_HAS_Z as int, flag(s.has_z), 1, 0);
    let d4 = d3.with_field(HEADER_HAS_M as int, flag(s.has_m), 1, 0);
    let d5 = with_optional(d4, HEADER_COLUMNS as int, columns);
    let d6 = d5.with_field(HEADER_FEATURES_COUNT as int, s.count as nat, 8, 0);
    let d7 = d6.with_field(HEADER_INDEX_NODE_SIZE as int, s.node_size as nat, 2, 16);
    let open = with_optional(d7, HEADER_CRS as int, t.crs);
    assert(open == header_fields(d, s, t));
    lemma_reference_grows(started, HEADER_NAME as int, t.name);
    lemma_optional_grows(d0, HEADER_ENVELOPE as int, t.envelope);
    lemma_field_grows(d1, HEADER_GEOMETRY_TYPE as int, s.ty as nat, 1, UNKNOWN as nat);
    lemma_field_grows(d2, HEADER_HAS_Z as int, flag(s.has_z), 1, 0);
    lemma_field_grows(d3, HEADER_HAS_M as int, flag(s.has_m), 1, 0);
    lemma_optional_grows(d4, HEADER_COLUMNS as int, columns);
    lemma_field_grows(d5, HEADER_FEATURES_COUNT as int, s.count as nat, 8, 0);
    lemma_field_grows(d6, HEADER_INDEX_NODE_SIZE as int, s.node_size as nat, 2, 16);
    lemma_optional_grows(d7, HEADER_CRS as int, t.crs);
    lemma_ends_with_itself(open.bytes);
    lemma_ends_with_trans(open.bytes, d7.bytes, d6.bytes);
    lemma_ends_with_trans(open.bytes, d6.bytes, d5.bytes);
    lemma_ends_with_trans(open.bytes, d5.bytes, d4.bytes);
    lemma_ends_with_trans(open.bytes, d4.bytes, d3.bytes);
    lemma_ends_with_trans(open.bytes, d3.bytes, d2.bytes);
    lemma_field_found(d1, HEADER_GEOMETRY_TYPE as int, s.ty as nat, 1, UNKNOWN as nat, open, buf);
    lemma_reference_found(d4, HEADER_COLUMNS as int, columns, open, buf);
    lemma_field_found(d5, HEADER_FEATURES_COUNT as int, s.count as nat, 8, 0, open, buf);
    lemma_field_found(d6, HEADER_INDEX_NODE_SIZE as int, s.node_size as nat, 2, 16, open, buf);
    lemma_reference_found(d7, HEADER_CRS as int, t.crs, open, buf);
}

pub proof fn lemma_header_table_grows(d: Draft, s: Summary, t: HeaderTargets)
    ensures
        grown(header_fields(d, s, t), d),
{
    reveal(header_fields);
    let started = d.table_started(HEADER_FIELDS as nat);
    let d0 = started.with_reference(HEADER_NAME as int, t.name);
    let d1 = with_optional(d0, HEADER_ENVELOPE as int, t.envelope);
    let d2 = d1.with_field(HEADER_GEOMETRY_TYPE as int, s.ty as nat, 1, UNKNOWN as nat);
    let d3 = d2.with_field(HEADER_HAS_Z as int, flag(s.has_z), 1, 0);
    let d4 = d3.with_field(HEADER_HAS_M as int, flag(s.has_m), 1, 0);
    let d5 = d4.with_reference(HEADER_COLUMNS as int, t.columns);
    let d6 = d5.with_field(HEADER_FEATURES_COUNT as int, s.count as nat, 8, 0);
    let d7 = d6.with_field(HEADER_INDEX_NODE_SIZE as int, s.node_size as nat, 2, 16);
    let open = with_optional(d7, HEADER_CRS as int, t.crs);
    lemma_reference_grows(started, HEADER_NAME as int, t.name);
    lemma_optional_grows(d0, HEADER_ENVELOPE as int, t.envelope);
    lemma_field_grows(d1, HEADER_GEOMETRY_TYPE as int, s.ty as nat, 1, UNKNOWN as nat);
    lemma_field_grows(d2, HEADER_HAS_Z as int, flag(s.has_z), 1, 0);
    lemma_field_grows(d3, HEADER_HAS_M as int, flag(s.has_m), 1, 0);
    lemma_reference_grows(d4, HEADER_COLUMNS as int, t.columns);
    lemma_field_grows(d5, HEADER_FEATURES_COUNT as int, s.count as nat, 8, 0);
    lemma_field_grows(d6, HEADER_INDEX_NODE_SIZE as int, s.node_size as nat, 2, 16);
    lemma_optional_grows(d7, HEADER_CRS as int, t.crs);
    lemma_ends_with_trans(d1.bytes, d0.bytes, started.bytes);
    lemma_ends_with_trans(d2.bytes, d1.bytes, started.bytes);
    lemma_ends_with_trans(d3.bytes, d2.bytes, started.bytes);
    lemma_ends_with_trans(d4.bytes, d3.bytes, started.bytes);
    lemma_ends_with_trans(d5.bytes, d4.bytes, started.bytes);
    lemma_ends_with_trans(d6.bytes, d5.bytes, started.bytes);
    lemma_ends_with_trans(d7.bytes, d6.bytes, started.bytes);
    lemma_ends_with_trans(open.bytes, d7.bytes, started.bytes);
}

/// The draft before a header's reference system.
pub open spec fn before_crs(columns: Seq<Field<u64>>, bbox: Bbox) -> Draft {
    let (d1, revs) = columns_drawn(empty_draft(), columns, columns.len() as int);
    doubles_drawn(
        d1.with_offset_vector(revs).with_string("geosetta"@),
        envelope_of(bbox),
    ).0
}

/// What a header refers to, and how it grew.
pub proof fn lemma_header_drawn(columns: Seq<Field<u64>>, bbox: Bbox, crs: Option<System>)
    ensures
        ({
            let (d1, revs) = columns_drawn(empty_draft(), columns, columns.len() as int);
            let d2 = d1.with_offset_vector(revs);
            let d4 = before_crs(columns, bbox);
            let (d, t) = header_drawn(columns, bbox, crs);
            &&& grown(d2, d1)
            &&& grown(d, d2)
            &&& d == crs_drawn(d4, crs).0
            &&& t.crs == crs_drawn(d4, crs).1
            &&& t.columns == d2.bytes.len()
            &&& 0 < t.columns <= d.bytes.len()
            &&& t.crs matches Some(r) ==> 4 <= r <= d.bytes.len()
        }),
{
    reveal(header_drawn);
    let (d1, revs) = columns_drawn(empty_draft(), columns, columns.len() as int);
    let d2 = d1.with_offset_vector(revs);
    let d3 = d2.with_string("geosetta"@);
    let (d4, e) = doubles_drawn(d3, envelope_of(bbox));
    let (d5, c) = crs_drawn(d4, crs);
    lemma_offset_vector_grows(d1, revs);
    lemma_string_grows(d2, "geosetta"@);
    lemma_ends_with_itself(d3.bytes);
    if let Some(v) = envelope_of(bbox) {
        lemma_f64_vector_grows(d3, v);
    }
    lemma_ends_with_trans(d4.bytes, d3.bytes, d2.bytes);
    lemma_crs_grows(d4, crs);
    lemma_ends_with_trans(d5.bytes, d4.bytes, d2.bytes);
}

/// A header that was written is read back: the shared type, the number of
/// features, the index's node size, the columns, and what is recorded of the
/// reference system.
#[verifier::spinoff_prover]
#[verifier::rlimit(60)]
pub proof fn law_header_reads_back(columns: Seq<Field<u64>>, s: Summary, crs: Option<System>)
    requires
        header_bytes(columns, s, crs).len() < 0x1_0000_0000,
    ensures
        header_of(header_bytes(columns, s, crs)) == Ok::<Header, Failure>(
            Header {
                default_type: s.ty as nat,
                count: s.count as nat,
                node_size: s.node_size as nat,
                columns: stored_columns(columns),
                crs: read_system(crs),
            },
        ),
{
    let n = columns.len() as int;
    let (d1, revs) = columns_drawn(empty_draft(), columns, n);
    let d2 = d1.with_offset_vector(revs);
    let d4 = before_crs(columns, s.bbox);
    let (d, t) = header_drawn(columns, s.bbox, crs);
    let open = header_fields(d, s, t);
    let buf = header_bytes(columns, s, crs);
    lemma_header_drawn(columns, s.bbox, crs);
    lemma_header_table_grows(d, s, t);
    lemma_table_ended_grows(open);
    lemma_finished_grows(open.table_ended(), open.table_rev());
    law_root_is_found(open.table_ended(), open.table_rev());
    lemma_header_table_found(d, s, t, buf);
    lemma_ends_with_trans(buf, open.table_ended().bytes, open.bytes);
    lemma_ends_with_trans(buf, open.bytes, d.bytes);
    lemma_ends_with_trans(buf, d.bytes, d2.bytes);
    lemma_ends_with_trans(buf, d2.bytes, d1.bytes);
    let pos = buf.len() - open.table_rev();
    assert(columns_at(buf, pos) == Ok::<Seq<(Seq<char>, nat)>, Failure>(stored_columns(columns)))
        by {
        lemma_columns_grow(empty_draft(), columns, n);
        lemma_offset_vector_found(d1, revs, buf);
        assert forall|k: int| 0 <= k < revs.len() implies column_at(
            buf,
            buf.len() - #[trigger] revs[k],
        ) == Ok::<(Seq<char>, nat), Failure>(stored_columns(columns)[k]) by {
            lemma_column_reads_back(empty_draft(), columns, n, k, buf);
        }
        let start = buf.len() - d2.bytes.len() + 4;
        lemma_columns_found(buf, start, revs, stored_columns(columns), 0);
        assert(stored_columns(columns).take(0) =~= Seq::empty());
    }
    assert(crs_at(buf, pos) == Ok::<Option<System>, Failure>(read_system(crs))) by {
        if let Some(system) = crs {
            if t.crs is Some {
                lemma_crs_found(d4, system, buf);
            } else {
                reveal(crs_drawn);
            }
        } else {
            reveal(crs_drawn);
        }
    }
}

} // verus!
