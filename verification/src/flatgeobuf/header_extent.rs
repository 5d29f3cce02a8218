//! What a header states of the features as a whole.
use vstd::prelude::*;

use super::header_back::{
    lemma_crs_grows, lemma_header_drawn, lemma_header_table_found, lemma_header_table_grows,
};
use super::placed::{
    ends_with, grown, lemma_ends_with_itself, lemma_ends_with_trans, lemma_f64_vector_found,
    lemma_f64_vector_grows, lemma_field_found, lemma_field_grows, lemma_finished_grows,
    lemma_optional_grows, lemma_reference_found, lemma_reference_grows, lemma_table_ended_grows,
    place_of,
};
use super::writer::{
    columns_drawn, doubles_drawn, empty_draft, envelope_of, flag, header_bytes, header_drawn,
    header_fields, with_optional, HeaderTargets, Summary,
};
use super::{
    HEADER_COLUMNS, HEADER_CRS, HEADER_ENVELOPE, HEADER_FEATURES_COUNT, HEADER_FIELDS,
    HEADER_GEOMETRY_TYPE, HEADER_HAS_M, HEADER_HAS_Z, HEADER_INDEX_NODE_SIZE, HEADER_NAME, UNKNOWN,
};
use crate::bytes::lemma_pow256_values;
use crate::crs::system::System;
use crate::error::Failure;
use crate::flatbuffers::{
    element_scalar, field_pointee, field_scalar, field_vector, law_root_is_found, root_place, scalar, Draft,
};
use crate::geometry::ordinate::is_above;
use crate::geometry::Bbox;
use crate::schema::Field;

verus! {

#[verifier::spinoff_prover]
#[verifier::rlimit(60)]
proof fn lemma_more_found(d: Draft, s: Summary, t: HeaderTargets, buf: Seq<u8>)
    requires
        t.envelope matches Some(r) ==> 0 < r <= d.bytes.len(),
        ends_with(buf, header_fields(d, s, t).table_ended().bytes),
        buf.len() < 0x1_0000_0000,
    ensures
        ({
            let pos = buf.len() - header_fields(d, s, t).table_rev();
            &&& field_scalar(buf, pos, 3, 1, 0) == Ok::<nat, Failure>(flag(s.has_z))
            &&& field_scalar(buf, pos, 4, 1, 0) == Ok::<nat, Failure>(flag(s.has_m))
            &&& field_pointee(buf, pos, 1) == Ok::<Option<int>, Failure>(
                place_of(buf, t.envelope),
            )
        }),
{
    reveal(header_fields);
    lemma_pow256_values();
    let columns = Some(t.columns);
    let started = d.table_started(HEADER_FIELDS as nat);
    let d0 = started.with_reference(HEADER_NAME as int, t.name);
    let d1 = with_optional(d0, HEADER_ENVELOPE as int, t.envelope);
    let d2 = d1.with_field(HEADER_GEOMETRY_TYPE as int, s.ty as nat, 1, UNKNOWN as nat);
    let d3 = d2.with_field(HEADER_HAS_Z as int, flag(s.has_z), 1, 0);
    let d4 = d3.with_field(HEADER_HAS_M as int, flag(s.has_m), 1, 0);
    let d5 = with_optional(d4, HEADER_COLUMNS as int, columns);
    let d6 = d5.with_field(HEADER_FEATURES_COUNT as int, s.count as nat, 8, 0);
    let d7 = d6.with_field(HEADER_INDEX_NODE_SIZE as int, s.node_size as nat, 2, 16);
    let open = with_optional(d7, HEADER_CRS as int, t.crs);
    assert(open == header_fields(d, s, t));
    lemma_reference_grows(started, HEADER_NAME as int, t.name);
    lemma_optional_grows(d0, HEADER_ENVELOPE as int, t.envelope);
    lemma_field_grows(d1, HEADER_GEOMETRY_TYPE as int, s.ty as nat, 1, UNKNOWN as nat);
    lemma_field_grows(d2, HEADER_HAS_Z as int, flag(s.has_z), 1, 0);
    lemma_field_grows(d3, HEADER_HAS_M as int, flag(s.has_m), 1, 0);
    lemma_optional_grows(d4, HEADER_COLUMNS as int, columns);
    lemma_field_grows(d5, HEADER_FEATURES_COUNT as int, s.count as nat, 8, 0);
    lemma_field_grows(d6, HEADER_INDEX_NODE_SIZE as int, s.node_size as nat, 2, 16);
    lemma_optional_grows(d7, HEADER_CRS as int, t.crs);
    lemma_ends_with_itself(open.bytes);
    lemma_ends_with_trans(open.bytes, d7.bytes, d6.bytes);
    lemma_ends_with_trans(open.bytes, d6.bytes, d5.bytes);
    lemma_ends_with_trans(open.bytes, d5.bytes, d4.bytes);
    lemma_ends_with_trans(open.bytes, d4.bytes, d3.bytes);
    lemma_ends_with_trans(open.bytes, d3.bytes, d2.bytes);
    lemma_ends_with_trans(open.bytes, d2.bytes, d1.bytes);
    lemma_reference_found(d0, HEADER_ENVELOPE as int, t.envelope, open, buf);
    lemma_field_found(d2, HEADER_HAS_Z as int, flag(s.has_z), 1, 0, open, buf);
    lemma_field_found(d3, HEADER_HAS_M as int, flag(s.has_m), 1, 0, open, buf);
}

/// The envelope that a header refers to.
proof fn lemma_envelope_drawn(columns: Seq<Field<u64>>, bbox: Bbox, crs: Option<System>)
    ensures
        ({
            let (d1, revs) = columns_drawn(empty_draft(), columns, columns.len() as int);
            let d3 = d1.with_offset_vector(revs).with_string("geosetta"@);
            let (d, t) = header_drawn(columns, bbox, crs);
            match envelope_of(bbox) {
                Some(vals) => grown(d, d3.with_f64_vector(vals)) && t.envelope == Some(
                    d3.with_f64_vector(vals).bytes.len(),
                ) && 0 < d3.with_f64_vector(vals).bytes.len() <= d.bytes.len(),
                None => t.envelope is None,
            }
        }),
{
    reveal(header_drawn);
    let (d1, revs) = columns_drawn(empty_draft(), columns, columns.len() as int);
    let d3 = d1.with_offset_vector(revs).with_string("geosetta"@);
    let d4 = doubles_drawn(d3, envelope_of(bbox)).0;
    lemma_crs_grows(d4, crs);
    if let Some(vals) = envelope_of(bbox) {
        lemma_f64_vector_grows(d3, vals);
    }
}

/// The envelope is read where the header refers to it.
proof fn lemma_envelope_found(
    columns: Seq<Field<u64>>,
    b: Bbox,
    crs: Option<System>,
    buf: Seq<u8>,
)
    requires
        ends_with(buf, header_drawn(columns, b, crs).0.bytes),
        buf.len() < 0x1_0000_0000,
    ensures
        ({
            let place = place_of(buf, header_drawn(columns, b, crs).1.envelope);
            if is_above(b.min_x, b.max_x) {
                place is None
            } else {
                place matches Some(q) && scalar(buf, q, 4) == Ok::<nat, Failure>(4)
                    && element_scalar(buf, q + 4, 4, 0, 8) == Ok::<nat, Failure>(b.min_x as nat)
                    && element_scalar(buf, q + 4, 4, 1, 8) == Ok::<nat, Failure>(b.min_y as nat)
                    && element_scalar(buf, q + 4, 4, 2, 8) == Ok::<nat, Failure>(b.max_x as nat)
                    && element_scalar(buf, q + 4, 4, 3, 8) == Ok::<nat, Failure>(b.max_y as nat)
            }
        }),
{
    let d = header_drawn(columns, b, crs).0;
    lemma_envelope_drawn(columns, b, crs);
    if let Some(vals) = envelope_of(b) {
        let (d1, revs) = columns_drawn(empty_draft(), columns, columns.len() as int);
        let d3 = d1.with_offset_vector(revs).with_string("geosetta"@);
        let d4 = d3.with_f64_vector(vals);
        lemma_ends_with_trans(buf, d.bytes, d4.bytes);
        lemma_f64_vector_found(d3, vals, buf);
        let q = buf.len() - d4.bytes.len();
        assert(vals.len() == 4);
        assert(element_scalar(buf, q + 4, vals.len(), 0, 8) == Ok::<nat, Failure>(vals[0] as nat));
        assert(element_scalar(buf, q + 4, vals.len(), 1, 8) == Ok::<nat, Failure>(vals[1] as nat));
        assert(element_scalar(buf, q + 4, vals.len(), 2, 8) == Ok::<nat, Failure>(vals[2] as nat));
        assert(element_scalar(buf, q + 4, vals.len(), 3, 8) == Ok::<nat, Failure>(vals[3] as nat));
    }
}

/// A header states, in the fields that the format numbers so, the type that the features
/// share, whether they have heights and measures, how many they are, the size of the
/// index's nodes, and the box around them: the lower x and y, and then the upper ones.
#[verifier::spinoff_prover]
#[verifier::rlimit(60)]
pub proof fn law_header_states_the_extent(
    columns: Seq<Field<u64>>,
    s: Summary,
    crs: Option<System>,
)
    requires
        header_bytes(columns, s, crs).len() < 0x1_0000_0000,
    ensures
        ({
            let buf = header_bytes(columns, s, crs);
            let b = s.bbox;
            root_place(buf) matches Ok(t) && {
                &&& field_scalar(buf, t, 2, 1, 0) == Ok::<nat, Failure>(s.ty as nat)
                &&& field_scalar(buf, t, 3, 1, 0) == Ok::<nat, Failure>(
                    if s.has_z {
                        1
                    } else {
                        0
                    },
                )
                &&& field_scalar(buf, t, 4, 1, 0) == Ok::<nat, Failure>(
                    if s.has_m {
                        1
                    } else {
                        0
                    },
                )
                &&& field_scalar(buf, t, 8, 8, 0) == Ok::<nat, Failure>(s.count as nat)
                &&& field_scalar(buf, t, 9, 2, 16) == Ok::<nat, Failure>(s.node_size as nat)
                &&& is_above(b.min_x, b.max_x) ==> field_vector(buf, t, 1) == Ok::<
                    Option<(int, nat)>,
                    Failure,
                >(None)
                &&& !is_above(b.min_x, b.max_x) ==> (field_vector(buf, t, 1) matches Ok(Some(v))
                    && v.1 == 4 && element_scalar(buf, v.0, 4, 0, 8) == Ok::<nat, Failure>(
                    b.min_x as nat,
                ) && element_scalar(buf, v.0, 4, 1, 8) == Ok::<nat, Failure>(b.min_y as nat)
                    && element_scalar(buf, v.0, 4, 2, 8) == Ok::<nat, Failure>(b.max_x as nat)
                    && element_scalar(buf, v.0, 4, 3, 8) == Ok::<nat, Failure>(b.max_y as nat))
            }
        }),
{
    let (d, t) = header_drawn(columns, s.bbox, crs);
    let open = header_fields(d, s, t);
    let buf = header_bytes(columns, s, crs);
    lemma_header_drawn(columns, s.bbox, crs);
    lemma_envelope_drawn(columns, s.bbox, crs);
    lemma_header_table_grows(d, s, t);
    lemma_table_ended_grows(open);
    lemma_finished_grows(open.table_ended(), open.table_rev());
    law_root_is_found(open.table_ended(), open.table_rev());
    lemma_header_table_found(d, s, t, buf);
    lemma_more_found(d, s, t, buf);
    lemma_ends_with_trans(buf, open.table_ended().bytes, open.bytes);
    lemma_ends_with_trans(buf, open.bytes, d.bytes);
    lemma_envelope_found(columns, s.bbox, crs, buf);
}

} // verus!
