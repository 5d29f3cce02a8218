//! Searching a file for the features in a rectangle.
//!
//! A file is read here by its bytes: after the eight of the magic number four that say how
//! long the header is, then the header, the index, and the features, each after the four
//! bytes of its size.
use vstd::prelude::*;

use super::reader::feature_of;
use super::round_trip::{
    is_kept, is_restorable, law_feature_reads_back, lemma_feature_in_place, lemma_section_prefix,
    row_properties, stored_columns,
};
use super::search::{
    at_most, finds, law_search_finds_what_meets, lemma_index_len, meets, rect_of, start_of, Rect,
};
use super::writer::{
    feature_box, feature_buffer, file_of, header_bytes, index_of, is_indexed, is_order, magic,
    section, summary_of,
};
use crate::bytes::{le_bytes, lemma_le_bytes_len};
use crate::crs::system::System;
use crate::error::Failure;
use crate::feature::Item;
use crate::geometry::{empty_bbox, law_bbox_holds_every_position, lemma_folded_is_number, positions};
use crate::property::Prop;
use crate::schema::Field;

verus! {

/// The number in the four bytes at `p`, the least significant first.
pub open spec fn size_in(b: Seq<u8>, p: int) -> int {
    b[p] + 0x100 * b[p + 1] + 0x1_0000 * b[p + 2] + 0x100_0000 * b[p + 3]
}

/// Where the index of a file begins.
pub open spec fn index_start(file: Seq<u8>) -> int {
    12 + size_in(file, 8)
}

/// Where the features of a file with an index over `n` of them begin.
pub open spec fn features_start(file: Seq<u8>, n: int) -> int {
    index_start(file) + 40 * (start_of(n, 16, 0) + n)
}

/// The index of a file over `n` features.
pub open spec fn index_in(file: Seq<u8>, n: int) -> Seq<u8> {
    file.subrange(index_start(file), features_start(file, n))
}

/// Whether a feature stands at a place in a file.
pub open spec fn stands_at(
    file: Seq<u8>,
    place: int,
    columns: Seq<Field<u64>>,
    default: nat,
    f: Item<u64, Prop>,
) -> bool {
    feature_of(
        file.subrange(place + 4, place + 4 + size_in(file, place)),
        stored_columns(columns),
        default,
    ) == Ok::<Item<u64, Prop>, Failure>(f)
}

/// A feature as it is read: its geometry, and the cells of its row that are not null.
pub open spec fn read_feature<W>(
    features: Seq<Item<u64, W>>,
    columns: Seq<Field<u64>>,
    row: int,
) -> Item<u64, Prop> {
    Item {
        geometry: features[row].geometry,
        properties: row_properties(columns, row, columns.len() as int),
    }
}

proof fn lemma_size_in(b: Seq<u8>, before: Seq<u8>, v: nat, after: Seq<u8>)
    requires
        b == before + le_bytes(v, 4) + after,
        v < 0x1_0000_0000,
    ensures
        size_in(b, before.len() as int) == v,
{
    let p = before.len() as int;
    reveal_with_fuel(le_bytes, 5);
    lemma_le_bytes_len(v, 4);
    let s = le_bytes(v, 4);
    let d1 = v / 256;
    let d2 = d1 / 256;
    let d3 = d2 / 256;
    assert(s =~= seq![
        (v % 256) as u8,
        (d1 % 256) as u8,
        (d2 % 256) as u8,
        (d3 % 256) as u8,
    ]);
    assert(b[p] == s[0] && b[p + 1] == s[1] && b[p + 2] == s[2] && b[p + 3] == s[3]);
    assert(d3 < 256);
}

/// A feature stands where the features before it end.
proof fn lemma_feature_stands<W>(
    features: Seq<Item<u64, W>>,
    columns: Seq<Field<u64>>,
    order: Seq<int>,
    front: Seq<u8>,
    default: nat,
    k: int,
)
    requires
        0 <= k < order.len(),
        is_kept(features, columns, order[k]),
    ensures
        stands_at(
            front + section(features, columns, order, order.len() as int),
            (front.len() + section(features, columns, order, k).len()) as int,
            columns,
            default,
            read_feature(features, columns, order[k]),
        ),
{
    let n = order.len() as int;
    let all = section(features, columns, order, n);
    let before = section(features, columns, order, k);
    let row = order[k];
    let bytes = feature_buffer(features, columns, row);
    let file = front + all;
    let place = (front.len() + before.len()) as int;
    lemma_section_prefix(features, columns, order, k + 1, n);
    lemma_le_bytes_len(bytes.len(), 4);
    let through = before + (le_bytes(bytes.len(), 4) + bytes);
    assert(section(features, columns, order, k + 1) == through);
    lemma_feature_in_place(front, all, before, bytes);
    let rest = all.skip(through.len() as int);
    assert(all =~= through + rest) by {
        assert(all =~= all.take(through.len() as int) + rest);
    }
    assert(file =~= (front + before) + le_bytes(bytes.len(), 4) + (bytes + rest));
    lemma_size_in(file, front + before, bytes.len(), bytes + rest);
    law_feature_reads_back(features[row].geometry, columns, row, default);
}

/// Where the parts of a file stand.
proof fn lemma_parts_stand<W>(
    features: Seq<Item<u64, W>>,
    crs: Option<System>,
    columns: Seq<Field<u64>>,
    order: Seq<int>,
) -> (front: Seq<u8>)
    requires
        is_indexed(features),
        is_restorable(features, crs, columns),
        is_order(order, features.len()),
        features.len() < 0x1000_0000_0000_0000,
    ensures
        ({
            let file = file_of(features, crs, columns, order);
            let n = features.len() as int;
            &&& index_in(file, n) == index_of(features, columns, order)
            &&& features_start(file, n) == front.len()
            &&& file == front + section(features, columns, order, n)
        }),
{
    let n = features.len() as int;
    let file = file_of(features, crs, columns, order);
    let header = header_bytes(columns, summary_of(features), crs);
    let size = le_bytes(header.len(), 4);
    let index = index_of(features, columns, order);
    let all = section(features, columns, order, n);
    let front = magic() + size + header + index;
    lemma_le_bytes_len(header.len(), 4);
    assert(file =~= front + all);
    assert(file =~= magic() + size + (header + index + all));
    assert(magic().len() == 8);
    lemma_size_in(file, magic(), header.len(), header + index + all);
    let boxes = Seq::new(order.len(), |i: int| feature_box(features[order[i]]));
    let offsets = Seq::new(
        order.len(),
        |i: int| section(features, columns, order, i).len() as u64,
    );
    lemma_index_len(boxes, offsets, 16);
    assert(index.len() == 40 * (start_of(n, 16, 0) + n));
    assert(index_in(file, n) =~= index);
    front
}

/// A search of a file for what is in a rectangle finds every feature whose box meets the
/// rectangle, where it stands.
pub proof fn law_features_in_a_rectangle_are_found<W>(
    features: Seq<Item<u64, W>>,
    crs: Option<System>,
    columns: Seq<Field<u64>>,
    order: Seq<int>,
    wanted: Rect,
    default: nat,
    row: int,
) -> (found: int)
    requires
        is_indexed(features),
        is_restorable(features, crs, columns),
        is_order(order, features.len()),
        file_of(features, crs, columns, order).len() < 0x1000_0000_0000_0000,
        features.len() < 0x1000_0000_0000_0000,
        0 <= row < features.len(),
        meets(rect_of(feature_box(features[row])), wanted),
    ensures
        ({
            let file = file_of(features, crs, columns, order);
            let n = features.len() as int;
            &&& finds(index_in(file, n), n, 16, wanted, found)
            &&& stands_at(
                file,
                features_start(file, n) + found,
                columns,
                default,
                read_feature(features, columns, row),
            )
        }),
{
    let n = features.len() as int;
    let boxes = Seq::new(order.len(), |i: int| feature_box(features[order[i]]));
    let offsets = Seq::new(
        order.len(),
        |i: int| section(features, columns, order, i).len() as u64,
    );
    let front = lemma_parts_stand(features, crs, columns, order);
    let k = lemma_order_reaches(order, row);
    let found = section(features, columns, order, k).len() as int;
    lemma_section_prefix(features, columns, order, k, n);
    assert(offsets[k] == found);
    assert(boxes[k] == feature_box(features[row]));
    law_search_finds_what_meets(boxes, offsets, 16, wanted, found);
    assert(is_kept(features, columns, order[k]));
    lemma_feature_stands(features, columns, order, front, default, k);
    found
}

/// What a search of a file for what is in a rectangle finds is where a feature stands whose
/// box meets the rectangle.
pub proof fn law_what_is_found_is_in_the_rectangle<W>(
    features: Seq<Item<u64, W>>,
    crs: Option<System>,
    columns: Seq<Field<u64>>,
    order: Seq<int>,
    wanted: Rect,
    default: nat,
    found: int,
) -> (row: int)
    requires
        is_indexed(features),
        is_restorable(features, crs, columns),
        is_order(order, features.len()),
        file_of(features, crs, columns, order).len() < 0x1000_0000_0000_0000,
        features.len() < 0x1000_0000_0000_0000,
        finds(
            index_in(file_of(features, crs, columns, order), features.len() as int),
            features.len() as int,
            16,
            wanted,
            found,
        ),
    ensures
        ({
            let file = file_of(features, crs, columns, order);
            let n = features.len() as int;
            &&& 0 <= row < n
            &&& meets(rect_of(feature_box(features[row])), wanted)
            &&& stands_at(
                file,
                features_start(file, n) + found,
                columns,
                default,
                read_feature(features, columns, row),
            )
        }),
{
    let n = features.len() as int;
    let boxes = Seq::new(order.len(), |i: int| feature_box(features[order[i]]));
    let offsets = Seq::new(
        order.len(),
        |i: int| section(features, columns, order, i).len() as u64,
    );
    let front = lemma_parts_stand(features, crs, columns, order);
    law_search_finds_what_meets(boxes, offsets, 16, wanted, found);
    let k = choose|k: int|
        0 <= k < boxes.len() && meets(rect_of(#[trigger] boxes[k]), wanted) && offsets[k] == found;
    lemma_section_prefix(features, columns, order, k, n);
    assert(offsets[k] == section(features, columns, order, k).len());
    assert(is_kept(features, columns, order[k]));
    lemma_feature_stands(features, columns, order, front, default, k);
    order[k]
}

/// An order has every number below its length.
proof fn lemma_order_reaches(order: Seq<int>, row: int) -> (k: int)
    requires
        is_order(order, order.len()),
        0 <= row < order.len(),
    ensures
        0 <= k < order.len(),
        order[k] == row,
{
    let n = order.len() as int;
    order.unique_seq_to_set();
    let all = vstd::set_lib::set_int_range(0, n);
    vstd::set_lib::lemma_int_range(0, n);
    assert(order.to_set().subset_of(all));
    vstd::set_lib::lemma_subset_equality(order.to_set(), all);
    assert(order.to_set().contains(row));
    choose|k: int| 0 <= k < order.len() && order[k] == row
}

/// A box meets every rectangle that has one of its geometry's positions in it.
pub proof fn law_position_in_a_rectangle_is_met<W>(f: Item<u64, W>, i: int, wanted: Rect)
    requires
        f.geometry is Some,
        0 <= i < positions(f.geometry->0).len(),
        ({
            let p = positions(f.geometry->0)[i];
            &&& at_most(wanted.min_x, p.x)
            &&& at_most(p.x, wanted.max_x)
            &&& at_most(wanted.min_y, p.y)
            &&& at_most(p.y, wanted.max_y)
        }),
    ensures
        meets(rect_of(feature_box(f)), wanted),
{
    law_bbox_holds_every_position(f.geometry->0, i);
    lemma_folded_is_number(empty_bbox(), positions(f.geometry->0));
}

} // verus!
