//! Where the parts of a stored geometry lie, and what is recorded of a layer.
use vstd::prelude::*;

use super::writer::{
    contents_plan, contents_row, doubles_bytes, envelope_bounds, envelope_flags, geometry_blob,
    stored_box, LayerModel,
};
use crate::bytes::{le_bytes, lemma_le_bytes_len, unsigned};
use crate::flatgeobuf::search::{lemma_number_at, number_at};
use crate::flatgeobuf::writer::{box_around, geometries};
use crate::geometry::ordinate::is_above;
use crate::geometry::wkb::wkb_bytes;
use crate::geometry::wkb_layout::{count_at, lemma_count_at};
use crate::geometry::{empty_bbox, folded, positions, Shape};
use crate::sqlite::Stored;

verus! {

proof fn lemma_double_in_place(vals: Seq<u64>, i: int) -> (r: (Seq<u8>, Seq<u8>))
    requires
        0 <= i < vals.len(),
    ensures
        doubles_bytes(vals) == r.0 + le_bytes(vals[i] as nat, 8) + r.1,
        r.0.len() == 8 * i,
    decreases vals.len(),
{
    let front = doubles_bytes(vals.drop_last());
    let last = le_bytes(vals.last() as nat, 8);
    if i == vals.len() - 1 {
        lemma_doubles_len(vals.drop_last());
        assert(doubles_bytes(vals) =~= front + last + Seq::empty());
        (front, Seq::empty())
    } else {
        let (a, c) = lemma_double_in_place(vals.drop_last(), i);
        assert(doubles_bytes(vals) =~= a + le_bytes(vals[i] as nat, 8) + (c + last));
        (a, c + last)
    }
}

proof fn lemma_doubles_len(vals: Seq<u64>)
    ensures
        doubles_bytes(vals).len() == 8 * vals.len(),
    decreases vals.len(),
{
    if vals.len() > 0 {
        lemma_doubles_len(vals.drop_last());
        lemma_le_bytes_len(vals.last() as nat, 8);
    }
}

/// A number of the envelope stands in its place.
proof fn lemma_bound(s: Shape<u64>, srs_id: int, boxed: bool, i: int)
    requires
        0 <= i < envelope_bounds(stored_box(s, boxed)).len(),
    ensures
        number_at(geometry_blob(s, srs_id, boxed), 8 + 8 * i) == envelope_bounds(
            stored_box(s, boxed),
        )[i],
{
    let b = stored_box(s, boxed);
    let blob = geometry_blob(s, srs_id, boxed);
    let vals = envelope_bounds(b);
    let head = seq![0x47u8, 0x50, 0, envelope_flags(b)];
    let id = le_bytes(unsigned(srs_id, 0x1_0000_0000_0000_0000), 4);
    lemma_le_bytes_len(unsigned(srs_id, 0x1_0000_0000_0000_0000), 4);
    let (front, rest) = lemma_double_in_place(vals, i);
    let before = head + id + front;
    let after = rest + wkb_bytes(s);
    assert(blob =~= before + le_bytes(vals[i] as nat, 8) + after);
    lemma_number_at(blob, before, vals[i], after);
}

/// A stored geometry starts with the letters G and P and a zero, states in its flags that
/// its numbers have their least significant bytes first and what its envelope bounds, and
/// then the number of its system. The envelope is the box of its positions: the lower and
/// the upper x, those of y, and those of the height and of the measure where it has them.
pub proof fn law_blob_is_laid_out(s: Shape<u64>, srs_id: int, boxed: bool)
    requires
        0 <= srs_id < 0x1_0000_0000,
    ensures
        ({
            let blob = geometry_blob(s, srs_id, boxed);
            let b = folded(empty_bbox(), positions(s));
            let z = b.z is Some;
            let m = b.m is Some;
            &&& blob[0] == 0x47 && blob[1] == 0x50 && blob[2] == 0
            &&& count_at(blob, 4) == srs_id
            &&& blob[3] == 1 + 2 * (if !boxed || is_above(b.min_x, b.max_x) {
                0int
            } else if z && m {
                4
            } else if m {
                3
            } else if z {
                2
            } else {
                1
            })
            &&& boxed && !is_above(b.min_x, b.max_x) ==> {
                &&& number_at(blob, 8) == b.min_x
                &&& number_at(blob, 16) == b.max_x
                &&& number_at(blob, 24) == b.min_y
                &&& number_at(blob, 32) == b.max_y
                &&& z ==> number_at(blob, 40) == (b.z->0).0 && number_at(blob, 48) == (b.z->0).1
                &&& m && !z ==> number_at(blob, 40) == (b.m->0).0 && number_at(blob, 48) == (b.m->0).1
                &&& m && z ==> number_at(blob, 56) == (b.m->0).0 && number_at(blob, 64) == (b.m->0).1
            }
        }),
{
    let c = stored_box(s, boxed);
    let blob = geometry_blob(s, srs_id, boxed);
    let vals = envelope_bounds(c);
    let head = seq![0x47u8, 0x50, 0, envelope_flags(c)];
    let id = le_bytes(unsigned(srs_id, 0x1_0000_0000_0000_0000), 4);
    let rest = doubles_bytes(vals) + wkb_bytes(s);
    lemma_le_bytes_len(unsigned(srs_id, 0x1_0000_0000_0000_0000), 4);
    assert(blob =~= head + id + rest);
    lemma_count_at(blob, head, srs_id as nat, rest);
    assert(blob[0] == head[0] && blob[1] == head[1] && blob[2] == head[2] && blob[3] == head[3]);
    assert(is_above(empty_bbox().min_x, empty_bbox().max_x));
    if vals.len() > 0 {
        lemma_bound(s, srs_id, boxed, 0);
        lemma_bound(s, srs_id, boxed, 1);
        lemma_bound(s, srs_id, boxed, 2);
        lemma_bound(s, srs_id, boxed, 3);
        if vals.len() > 4 {
            lemma_bound(s, srs_id, boxed, 4);
            lemma_bound(s, srs_id, boxed, 5);
        }
        if vals.len() > 6 {
            lemma_bound(s, srs_id, boxed, 6);
            lemma_bound(s, srs_id, boxed, 7);
        }
    }
}

/// The contents list every layer under its name, with the box around its features, the
/// lower x and y and then the upper ones, and the number of its system.
pub proof fn law_contents_list_every_layer<W>(layers: Seq<LayerModel<W>>, ids: Seq<int>, i: int)
    requires
        0 <= i < layers.len(),
        ids.len() == layers.len(),
    ensures
        ({
            let rows = contents_plan(layers, ids).rows;
            let row = rows[i].1;
            let b = box_around(geometries(layers[i].items.features));
            &&& rows.len() == layers.len()
            &&& row.len() == 10
            &&& row[0] == Stored::Text(layers[i].name)
            &&& row[1] == Stored::Text("features"@)
            &&& row[9] == Stored::Int(ids[i])
            &&& !is_above(b.min_x, b.max_x) ==> row[5] == Stored::Real(b.min_x) && row[6]
                == Stored::Real(b.min_y) && row[7] == Stored::Real(b.max_x) && row[8]
                == Stored::Real(b.max_y)
            &&& is_above(b.min_x, b.max_x) ==> row[5] is Null && row[6] is Null && row[7] is Null
                && row[8] is Null
        }),
{
    let row = contents_row(layers[i], ids[i]);
    assert(contents_plan(layers, ids).rows[i].1 == row);
}

} // verus!
