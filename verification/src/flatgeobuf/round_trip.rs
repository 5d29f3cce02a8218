//! Files that were written are read back.
use vstd::prelude::*;
use vstd::utf8::*;

use super::header_back::{law_header_reads_back, read_system};
use super::index::{index_bytes, law_index_size_is_tree_size};
use super::placed::{
    grown, lemma_byte_vector_found, lemma_byte_vector_grows, lemma_ends_with_itself,
    lemma_ends_with_trans, lemma_finished_grows, lemma_optional_grows, lemma_reference_found,
    lemma_table_ended_grows,
};
use super::reader::{
    collection_of, feature_geometry, feature_of, feature_properties, features_from, header_of,
    number_at, properties_from, property_at, shape_at, starts_as_file, Header,
};
use super::shapes_back::{is_regular, law_shape_reads_back, lemma_shape_grows};
use super::writer::{
    code_bits, column_code, datum_bytes, empty_draft, feature_box, feature_buffer, feature_bytes,
    feature_fields, file_of, file_order, header_bytes, index_of, is_indexed, is_order, magic,
    properties_blob, section, shape_drawn, summary_of, with_optional, NODE_SIZE,
};
use super::{FEATURE_FIELDS, FEATURE_GEOMETRY, FEATURE_PROPERTIES};
use crate::bytes::{
    law_le_bytes_read_back, le_bytes, le_value, lemma_le_bytes_len, lemma_pow256_values, signed,
    unsigned,
};
use crate::crs::system::{is_wgs84, law_wgs84_spellings_collapse, Record, System};
use crate::error::Failure;
use crate::feature::{Item, Items};
use crate::flatbuffers::{law_root_is_found, Draft};
use crate::geometry::Shape;
use crate::number::law_numeral_spells_its_number;
use crate::property::Prop;
use crate::schema::{fits, ColumnType, Datum, Field};
use crate::text::{decimal, lower_text, signed_decimal};

verus! {

// --- properties ----------------------------------------------------------------------------

/// The property that a cell is read as.
pub open spec fn prop_of(d: Datum<u64>) -> Prop {
    match d {
        Datum::Null => Prop::Null,
        Datum::Bool(v) => Prop::Bool(v),
        Datum::Int(v) => Prop::Int(v),
        Datum::Double(v) => Prop::Double(v),
        Datum::Str(s) => Prop::Text(s),
    }
}

/// The properties that a row's cells of the first `n` columns are read as: those
/// that are not null.
pub open spec fn row_properties(columns: Seq<Field<u64>>, row: int, n: int) -> Seq<(Seq<char>, Prop)>
    decreases n,
{
    if n <= 0 {
        Seq::empty()
    } else {
        let before = row_properties(columns, row, n - 1);
        let d = columns[n - 1].values[row];
        if d is Null {
            before
        } else {
            before.push((columns[n - 1].name, prop_of(d)))
        }
    }
}

/// The columns as a header says them.
pub open spec fn stored_columns(columns: Seq<Field<u64>>) -> Seq<(Seq<char>, nat)> {
    columns.map_values(|c: Field<u64>| (c.name, column_code(c.ty) as nat))
}

/// Whether a cell can be stored: an integer has 64 bits, and the size of a text
/// 32.
pub open spec fn is_storable(d: Datum<u64>) -> bool {
    match d {
        Datum::Int(v) => i64::MIN <= v <= i64::MAX,
        Datum::Str(s) => encode_utf8(s).len() < 0x1_0000_0000,
        _ => true,
    }
}

proof fn lemma_blob_prefix(columns: Seq<Field<u64>>, row: int, k: int, n: int)
    requires
        0 <= k <= n,
    ensures
        properties_blob(columns, row, k).len() <= properties_blob(columns, row, n).len(),
        properties_blob(columns, row, n).take(properties_blob(columns, row, k).len() as int)
            == properties_blob(columns, row, k),
    decreases n - k,
{
    let shorter = properties_blob(columns, row, k);
    if k == n {
        assert(shorter.take(shorter.len() as int) =~= shorter);
    } else {
        lemma_blob_prefix(columns, row, k, n - 1);
        let before = properties_blob(columns, row, n - 1);
        let all = properties_blob(columns, row, n);
        assert(all.take(shorter.len() as int) =~= before.take(shorter.len() as int));
    }
}

/// A cell is read back from its place.
proof fn lemma_property_found(blob: Seq<u8>, pos: int, d: Datum<u64>, ty: ColumnType)
    requires
        0 <= pos,
        !(d is Null),
        fits(d, ty),
        is_storable(d),
        pos + datum_bytes(d).len() <= blob.len(),
        blob.subrange(pos, pos + datum_bytes(d).len()) == datum_bytes(d),
    ensures
        property_at(blob, pos, column_code(ty) as nat) == Ok::<(Prop, int), Failure>(
            (prop_of(d), pos + datum_bytes(d).len()),
        ),
{
    lemma_pow256_values();
    let bytes = datum_bytes(d);
    match d {
        Datum::Bool(v) => {
            let one = blob.subrange(pos, pos + 1);
            assert(one == bytes);
            assert(one.len() == 1);
            assert(le_value(one.drop_first()) == 0) by {
                assert(one.drop_first() =~= Seq::empty());
            }
            assert(le_value(one) == bytes[0] as nat);
        },
        Datum::Int(v) => {
            law_le_bytes_read_back(unsigned(v, 0x1_0000_0000_0000_0000), 8);
        },
        Datum::Double(v) => {
            law_le_bytes_read_back(v as nat, 8);
        },
        Datum::Str(s) => {
            let text = encode_utf8(s);
            law_le_bytes_read_back(text.len(), 4);
            let size = le_bytes(text.len(), 4);
            assert(blob.subrange(pos, pos + 4) =~= bytes.subrange(0, 4));
            assert(bytes.subrange(0, 4) =~= size);
            assert(blob.subrange(pos + 4, pos + 4 + text.len()) =~= bytes.subrange(
                4,
                4int + text.len(),
            ));
            assert(bytes.subrange(4, 4int + text.len()) =~= text);
            encode_utf8_valid_utf8(s);
            encode_utf8_decode_utf8(s);
        },
        Datum::Null => {},
    }
}

/// Whether every cell of a row can be stored and is of its column's type, and the
/// columns can be numbered.
pub open spec fn is_row(columns: Seq<Field<u64>>, row: int) -> bool {
    &&& columns.len() <= 0x1_0000
    &&& forall|k: int|
        0 <= k < columns.len() ==> fits((#[trigger] columns[k]).values[row], columns[k].ty)
            && is_storable(columns[k].values[row])
}

/// The cells of a row are read back, but for those that are null.
pub proof fn law_properties_read_back(columns: Seq<Field<u64>>, row: int, k: int)
    requires
        0 <= k <= columns.len(),
        is_row(columns, row),
    ensures
        properties_from(
            properties_blob(columns, row, columns.len() as int),
            properties_blob(columns, row, k).len() as int,
            stored_columns(columns),
            row_properties(columns, row, k),
        ) == Ok::<Seq<(Seq<char>, Prop)>, Failure>(
            row_properties(columns, row, columns.len() as int),
        ),
    decreases columns.len() - k,
{
    let n = columns.len() as int;
    let blob = properties_blob(columns, row, n);
    let before = properties_blob(columns, row, k);
    let pos = before.len() as int;
    if k < n {
        law_properties_read_back(columns, row, k + 1);
        let d = columns[k].values[row];
        assert(fits(columns[k].values[row], columns[k].ty));
        if !(d is Null) {
            lemma_pow256_values();
            law_le_bytes_read_back(k as nat, 2);
            lemma_blob_prefix(columns, row, k + 1, n);
            let longer = properties_blob(columns, row, k + 1);
            let number = le_bytes(k as nat, 2);
            let bytes = datum_bytes(d);
            assert(longer == before + (number + bytes));
            assert(blob.subrange(pos, pos + 2) =~= longer.subrange(pos, pos + 2));
            assert(longer.subrange(pos, pos + 2) =~= number);
            assert(blob.subrange(pos + 2, pos + 2 + bytes.len()) =~= longer.subrange(
                pos + 2,
                pos + 2 + bytes.len(),
            ));
            assert(longer.subrange(pos + 2, pos + 2 + bytes.len()) =~= bytes);
            lemma_property_found(blob, pos + 2, d, columns[k].ty);
            assert(stored_columns(columns)[k] == (columns[k].name, column_code(columns[k].ty) as nat));
        }
    }
}

// --- features ------------------------------------------------------------------------------

/// What a feature's table refers to, written.
pub open spec fn feature_parts(geometry: Option<Shape<u64>>, blob: Seq<u8>) -> (
    Draft,
    Option<nat>,
    Option<nat>,
) {
    let (d1, g) = match geometry {
        Some(s) => {
            let (d, rev) = shape_drawn(empty_draft(), s);
            (d, Some(rev))
        },
        None => (empty_draft(), None),
    };
    if blob.len() > 0 {
        (d1.with_byte_vector(blob), g, Some(d1.with_byte_vector(blob).bytes.len()))
    } else {
        (d1, g, None)
    }
}

/// A feature that was written is read back, with the cells of its row that are
/// not null.
#[verifier::spinoff_prover]
#[verifier::rlimit(60)]
pub proof fn law_feature_reads_back(
    geometry: Option<Shape<u64>>,
    columns: Seq<Field<u64>>,
    row: int,
    default: nat,
)
    requires
        is_row(columns, row),
        geometry matches Some(s) ==> is_regular(s),
        feature_bytes(geometry, properties_blob(columns, row, columns.len() as int)).len()
            < 0x1_0000_0000,
    ensures
        feature_of(
            feature_bytes(geometry, properties_blob(columns, row, columns.len() as int)),
            stored_columns(columns),
            default,
        ) == Ok::<Item<u64, Prop>, Failure>(
            Item { geometry, properties: row_properties(columns, row, columns.len() as int) },
        ),
{
    reveal(feature_bytes);
    reveal(feature_of);
    let n = columns.len() as int;
    let blob = properties_blob(columns, row, n);
    let open = feature_fields(geometry, blob);
    let buf = feature_bytes(geometry, blob);
    let (d2, g, p) = feature_parts(geometry, blob);
    let started = d2.table_started(FEATURE_FIELDS as nat);
    let d3 = with_optional(started, FEATURE_GEOMETRY as int, g);
    assert(open == with_optional(d3, FEATURE_PROPERTIES as int, p));
    let d1 = match geometry {
        Some(s) => shape_drawn(empty_draft(), s).0,
        None => empty_draft(),
    };
    if let Some(s) = geometry {
        lemma_shape_grows(empty_draft(), s);
    }
    lemma_ends_with_itself(d1.bytes);
    if blob.len() > 0 {
        lemma_byte_vector_grows(d1, blob);
    }
    assert(grown(d2, d1));
    lemma_optional_grows(started, FEATURE_GEOMETRY as int, g);
    lemma_optional_grows(d3, FEATURE_PROPERTIES as int, p);
    lemma_ends_with_itself(open.bytes);
    lemma_table_ended_grows(open);
    lemma_finished_grows(open.table_ended(), open.table_rev());
    lemma_ends_with_trans(buf, open.table_ended().bytes, open.bytes);
    lemma_ends_with_trans(buf, open.bytes, d3.bytes);
    lemma_ends_with_trans(buf, d3.bytes, d2.bytes);
    lemma_ends_with_trans(buf, d2.bytes, d1.bytes);
    law_root_is_found(open.table_ended(), open.table_rev());
    let t = buf.len() - open.table_rev();
    lemma_reference_found(started, FEATURE_GEOMETRY as int, g, open, buf);
    lemma_reference_found(d3, FEATURE_PROPERTIES as int, p, open, buf);
    assert(feature_geometry(buf, t, default) == Ok::<Option<Shape<u64>>, Failure>(geometry)) by {
        if let Some(s) = geometry {
            law_shape_reads_back(empty_draft(), s, buf);
            let at = buf.len() - shape_drawn(empty_draft(), s).1;
            assert(shape_at(buf, at, default) == Ok::<Shape<u64>, Failure>(s));
        }
    }
    assert(feature_properties(buf, t, stored_columns(columns)) == Ok::<
        Seq<(Seq<char>, Prop)>,
        Failure,
    >(row_properties(columns, row, n))) by {
        law_properties_read_back(columns, row, 0);
        if blob.len() > 0 {
            lemma_byte_vector_found(d1, blob, buf);
        }
    }
}

/// Whether the feature numbered `row` can be read back.
pub open spec fn is_kept<W>(features: Seq<Item<u64, W>>, columns: Seq<Field<u64>>, row: int) -> bool {
    let blob = properties_blob(columns, row, columns.len() as int);
    &&& is_row(columns, row)
    &&& features[row].geometry matches Some(s) ==> is_regular(s)
    &&& feature_buffer(features, columns, row).len() < 0x1_0000_0000
}

/// The features in an order, as they are read.
pub open spec fn read_features<W>(
    features: Seq<Item<u64, W>>,
    columns: Seq<Field<u64>>,
    order: Seq<int>,
) -> Seq<Item<u64, Prop>> {
    order.map_values(
        |row: int|
            Item {
                geometry: features[row].geometry,
                properties: row_properties(columns, row, columns.len() as int),
            },
    )
}

pub proof fn lemma_section_prefix<W>(
    features: Seq<Item<u64, W>>,
    columns: Seq<Field<u64>>,
    order: Seq<int>,
    k: int,
    n: int,
)
    requires
        0 <= k <= n,
    ensures
        section(features, columns, order, k).len() <= section(features, columns, order, n).len(),
        section(features, columns, order, n).take(
            section(features, columns, order, k).len() as int,
        ) == section(features, columns, order, k),
    decreases n - k,
{
    let shorter = section(features, columns, order, k);
    if k == n {
        assert(shorter.take(shorter.len() as int) =~= shorter);
    } else {
        lemma_section_prefix(features, columns, order, k, n - 1);
        let before = section(features, columns, order, n - 1);
        let all = section(features, columns, order, n);
        assert(all.take(shorter.len() as int) =~= before.take(shorter.len() as int));
    }
}

/// What was added to the front part of a whole stands in it.
proof fn lemma_chunk_in_place(front: Seq<u8>, all: Seq<u8>, before: Seq<u8>, chunk: Seq<u8>)
    requires
        before.len() + chunk.len() <= all.len(),
        all.take((before + chunk).len() as int) == before + chunk,
    ensures
        (front + all).subrange(
            (front.len() + before.len()) as int,
            (front.len() + before.len() + chunk.len()) as int,
        ) == chunk,
{
    let data = front + all;
    let pos = (front.len() + before.len()) as int;
    let mine = data.subrange(pos, pos + chunk.len());
    assert forall|i: int| 0 <= i < chunk.len() implies #[trigger] mine[i] == chunk[i] by {
        let at = before.len() + i;
        assert(mine[i] == data[pos + i]);
        assert(data[pos + i] == all[at]);
        let part = all.take((before + chunk).len() as int);
        assert(part[at] == all[at]);
        assert((before + chunk)[at] == chunk[i]);
    }
    assert(mine =~= chunk);
}

/// A feature after its size is found in its place.
pub proof fn lemma_feature_in_place(front: Seq<u8>, all: Seq<u8>, before: Seq<u8>, bytes: Seq<u8>)
    requires
        bytes.len() < 0x1_0000_0000,
        before.len() + 4 + bytes.len() <= all.len(),
        all.take(before.len() + 4int + bytes.len()) == before + (le_bytes(bytes.len(), 4) + bytes),
    ensures
        ({
            let data = front + all;
            let pos = (front.len() + before.len()) as int;
            &&& number_at(data, pos, 4) == Ok::<nat, Failure>(bytes.len())
            &&& data.subrange(pos + 4, pos + 4 + bytes.len()) == bytes
        }),
{
    let size = le_bytes(bytes.len(), 4);
    let chunk = size + bytes;
    let data = front + all;
    let pos = (front.len() + before.len()) as int;
    lemma_pow256_values();
    law_le_bytes_read_back(bytes.len(), 4);
    lemma_chunk_in_place(front, all, before, chunk);
    let mine = data.subrange(pos, pos + chunk.len());
    assert(data.subrange(pos, pos + 4) =~= mine.subrange(0, 4));
    assert(mine.subrange(0, 4) =~= size);
    assert(data.subrange(pos + 4, pos + 4 + bytes.len()) =~= mine.subrange(4, 4int + bytes.len()));
    assert(mine.subrange(4, 4int + bytes.len()) =~= bytes);
}

/// The features of a file are read back in the order in which they stand.
pub proof fn law_features_read_back<W>(
    front: Seq<u8>,
    features: Seq<Item<u64, W>>,
    columns: Seq<Field<u64>>,
    order: Seq<int>,
    default: nat,
    k: int,
)
    requires
        0 <= k <= order.len(),
        forall|i: int| 0 <= i < order.len() ==> is_kept(features, columns, #[trigger] order[i]),
    ensures
        features_from(
            front + section(features, columns, order, order.len() as int),
            (front.len() + section(features, columns, order, k).len()) as int,
            stored_columns(columns),
            default,
            read_features(features, columns, order).take(k),
        ) == Ok::<Seq<Item<u64, Prop>>, Failure>(read_features(features, columns, order)),
    decreases order.len() - k,
{
    let n = order.len() as int;
    let all = section(features, columns, order, n);
    let data = front + all;
    let read = read_features(features, columns, order);
    let before = section(features, columns, order, k);
    let pos = (front.len() + before.len()) as int;
    lemma_section_prefix(features, columns, order, k, n);
    if k < n {
        law_features_read_back(front, features, columns, order, default, k + 1);
        lemma_section_prefix(features, columns, order, k + 1, n);
        let row = order[k];
        assert(is_kept(features, columns, order[k]));
        let bytes = feature_buffer(features, columns, row);
        lemma_le_bytes_len(bytes.len(), 4);
        lemma_feature_in_place(front, all, before, bytes);
        law_feature_reads_back(features[row].geometry, columns, row, default);
        assert(read.take(k + 1) =~= read.take(k).push(read[k]));
    } else {
        assert(read.take(k) =~= read);
    }
}

// --- files ---------------------------------------------------------------------------------

/// Whether a collection can be read back from its file: each feature can, and so
/// can the header.
pub open spec fn is_restorable<W>(
    features: Seq<Item<u64, W>>,
    crs: Option<System>,
    columns: Seq<Field<u64>>,
) -> bool {
    let s = summary_of(features);
    &&& features.len() <= u64::MAX
    &&& forall|row: int| 0 <= row < features.len() ==> #[trigger] is_kept(features, columns, row)
    &&& header_bytes(columns, s, crs).len() < 0x1_0000_0000
}

/// What stands before the features of a file.
pub open spec fn file_front<W>(
    features: Seq<Item<u64, W>>,
    crs: Option<System>,
    columns: Seq<Field<u64>>,
    order: Seq<int>,
) -> Seq<u8> {
    let o = file_order(features, order);
    let header = header_bytes(columns, summary_of(features), crs);
    magic() + le_bytes(header.len(), 4) + header + (if is_indexed(features) {
        index_of(features, columns, o)
    } else {
        Seq::empty()
    })
}

/// The index of a file is as long as its header says.
proof fn lemma_index_len<W>(features: Seq<Item<u64, W>>, columns: Seq<Field<u64>>, order: Seq<int>)
    requires
        features.len() <= u64::MAX,
        is_indexed(features) ==> order.len() == features.len(),
    ensures
        (if is_indexed(features) {
            index_of(features, columns, order).len()
        } else {
            0
        }) == index_bytes(
            summary_of(features).count as nat,
            summary_of(features).node_size as nat,
        ),
{
    if is_indexed(features) {
        let boxes = Seq::new(order.len(), |i: int| feature_box(features[order[i]]));
        let offsets = Seq::new(
            order.len(),
            |i: int| section(features, columns, order, i).len() as u64,
        );
        law_index_size_is_tree_size(boxes, offsets, NODE_SIZE as nat);
    }
}

/// A file is read by its parts: the magic, the header after its length, the
/// index, and the features.
#[verifier::spinoff_prover]
#[verifier::rlimit(60)]
proof fn lemma_file_is_read(
    header: Seq<u8>,
    index: Seq<u8>,
    all: Seq<u8>,
    h: Header,
    read: Seq<Item<u64, Prop>>,
)
    requires
        header.len() < 0x1_0000_0000,
        header_of(header) == Ok::<Header, Failure>(h),
        index.len() == index_bytes(h.count, h.node_size),
        ({
            let front = magic() + le_bytes(header.len(), 4) + header + index;
            features_from(
                front + all,
                front.len() as int,
                h.columns,
                h.default_type,
                Seq::empty(),
            ) == Ok::<Seq<Item<u64, Prop>>, Failure>(read)
        }),
    ensures
        collection_of(magic() + le_bytes(header.len(), 4) + header + index + all) == Ok::<
            Items<u64, Prop>,
            Failure,
        >(Items { features: read, crs: h.crs }),
{
    let size = le_bytes(header.len(), 4);
    let data = magic() + size + header + index + all;
    let len = header.len() as int;
    lemma_pow256_values();
    lemma_le_bytes_len(header.len(), 4);
    law_le_bytes_read_back(header.len(), 4);
    assert(magic().len() == 8);
    assert(data.subrange(8, 12) =~= size);
    assert(data.subrange(12, 12 + len) =~= header);
    assert(starts_as_file(data)) by {
        assert(forall|i: int| 0 <= i < 8 ==> data[i] == magic()[i]);
    }
}

/// A collection that was written is read back: its features in the order in which
/// they were written, with the cells of their rows that are not null, and what
/// is recorded of its reference system.
#[verifier::spinoff_prover]
#[verifier::rlimit(60)]
pub proof fn law_flatgeobuf_round_trip<W>(
    features: Seq<Item<u64, W>>,
    crs: Option<System>,
    columns: Seq<Field<u64>>,
    order: Seq<int>,
)
    requires
        is_restorable(features, crs, columns),
        is_indexed(features) ==> is_order(order, features.len()),
    ensures
        collection_of(file_of(features, crs, columns, order)) == Ok::<Items<u64, Prop>, Failure>(
            Items {
                features: read_features(features, columns, file_order(features, order)),
                crs: read_system(crs),
            },
        ),
{
    let o = file_order(features, order);
    let s = summary_of(features);
    let header = header_bytes(columns, s, crs);
    let front = file_front(features, crs, columns, order);
    let all = section(features, columns, o, o.len() as int);
    let index = if is_indexed(features) {
        index_of(features, columns, o)
    } else {
        Seq::empty()
    };
    let h = Header {
        default_type: s.ty as nat,
        count: s.count as nat,
        node_size: s.node_size as nat,
        columns: stored_columns(columns),
        crs: read_system(crs),
    };
    let read = read_features(features, columns, o);
    lemma_index_len(features, columns, o);
    law_header_reads_back(columns, s, crs);
    assert forall|i: int| 0 <= i < o.len() implies is_kept(features, columns, #[trigger] o[i]) by {
        assert(0 <= o[i] < features.len());
    }
    law_features_read_back(front, features, columns, o, s.ty as nat, 0);
    assert(section(features, columns, o, 0).len() == 0);
    assert(read.take(0) =~= Seq::empty());
    lemma_file_is_read(header, index, all, h, read);
}

/// WGS 84 is recorded by its code, and comes back.
pub proof fn law_wgs84_is_restored()
    ensures
        read_system(Some(System::Wgs84)) == Some(System::Wgs84),
        read_system(None) == None::<System>,
{
    assert(code_bits(Some(4326)) == 4326);
    assert(signed(4326, 0x1_0000_0000) == 4326);
    assert(signed_decimal(4326) == "4326"@) by {
        reveal_strlit("4326");
        reveal_with_fuel(decimal, 5);
        assert(signed_decimal(4326) =~= "4326"@);
    }
    assert(lower_text("EPSG"@) == "epsg"@) by {
        reveal_strlit("EPSG");
        reveal_strlit("epsg");
        assert(lower_text("EPSG"@) =~= "epsg"@);
    }
    law_wgs84_spellings_collapse("EPSG"@, None, None);
}

/// A system with an authority, a positive code of 31 bits and a WKT definition
/// comes back with them. PROJJSON is not recorded.
#[verifier::spinoff_prover]
#[verifier::rlimit(60)]
pub proof fn law_coded_system_is_restored(r: Record, code: nat)
    requires
        0 < code < 0x8000_0000,
        r.authority is Some,
        r.code == Some(decimal(code)),
        r.wkt is Some,
        !is_wgs84(r.authority, r.code),
    ensures
        read_system(Some(System::Named(r))) == Some(
            System::Named(
                Record { authority: r.authority, code: r.code, wkt: r.wkt, projjson: None },
            ),
        ),
{
    law_numeral_spells_its_number(code as int);
}

} // verus!
