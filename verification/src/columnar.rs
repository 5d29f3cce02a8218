//! Columnar files: what becomes of their rows.
use vstd::prelude::*;

use crate::convert::{
    dim_suffix, geometries_from, is_present, law_rank_names_the_type, ranked_type, row_of,
    rows_to_items, type_rank, types_below, wkb_of,
};
use crate::error::Failure;
use crate::feature::Item;
use crate::geometry::evened::{evened, is_counted, law_wkb_is_read_evened};
use crate::geometry::wkb::decoded;
use crate::geometry::{shape_name, Shape};
use crate::property::Prop;

verus! {

/// Whether a geometry is what bytes say, or is missing where they are.
pub open spec fn is_read(bytes: Option<Seq<u8>>, geometry: Option<Shape<u64>>) -> bool {
    match (bytes, geometry) {
        (None, None) => true,
        (Some(b), Some(s)) => decoded(b) == Ok::<Shape<u64>, Failure>(s),
        _ => false,
    }
}

proof fn lemma_geometries(
    wkb: Seq<Option<Seq<u8>>>,
    shapes: Seq<Option<Shape<u64>>>,
    i: int,
    so_far: Seq<Option<Shape<u64>>>,
)
    requires
        shapes.len() == wkb.len(),
        forall|k: int| 0 <= k < wkb.len() ==> is_read(wkb[k], #[trigger] shapes[k]),
        0 <= i <= wkb.len(),
        so_far == shapes.take(i),
    ensures
        geometries_from(wkb, i, so_far) == Ok::<Seq<Option<Shape<u64>>>, Failure>(shapes),
    decreases wkb.len() - i,
{
    if i == wkb.len() {
        assert(so_far =~= shapes);
    } else {
        assert(is_read(wkb[i], shapes[i]));
        assert(so_far.push(shapes[i]) =~= shapes.take(i + 1));
        lemma_geometries(wkb, shapes, i + 1, so_far.push(shapes[i]));
    }
}

proof fn lemma_row(columns: Seq<(Seq<char>, Seq<Prop>)>, row: int, n: int)
    requires
        0 <= n <= columns.len(),
        0 <= row,
        forall|j: int| 0 <= j < columns.len() ==> row < (#[trigger] columns[j]).1.len(),
    ensures
        row_of(columns, row, n) == Seq::new(
            n as nat,
            |j: int| (columns[j].0, columns[j].1[row]),
        ),
    decreases n,
{
    if n > 0 {
        lemma_row(columns, row, n - 1);
        assert(row < columns[n - 1].1.len());
    }
    assert(row_of(columns, row, n) =~= Seq::new(
        n as nat,
        |j: int| (columns[j].0, columns[j].1[row]),
    ));
}

/// Every row is a feature: its geometry is what its bytes say, and its properties are the values
/// that the columns have for it, in their order.
pub proof fn law_every_row_is_a_feature(
    wkb: Seq<Option<Seq<u8>>>,
    shapes: Seq<Option<Shape<u64>>>,
    columns: Seq<(Seq<char>, Seq<Prop>)>,
)
    requires
        shapes.len() == wkb.len(),
        forall|k: int| 0 <= k < wkb.len() ==> is_read(wkb[k], #[trigger] shapes[k]),
        forall|j: int| 0 <= j < columns.len() ==> (#[trigger] columns[j]).1.len() == wkb.len(),
    ensures
        rows_to_items(wkb, columns) matches Ok(items) && items.len() == wkb.len() && forall|i: int|
            0 <= i < items.len() ==> {
                &&& (#[trigger] items[i]).geometry == shapes[i]
                &&& items[i].properties.len() == columns.len()
                &&& forall|j: int|
                    0 <= j < columns.len() ==> #[trigger] items[i].properties[j] == (
                        columns[j].0,
                        columns[j].1[i],
                    )
            },
{
    assert(shapes.take(0) =~= Seq::empty());
    lemma_geometries(wkb, shapes, 0, Seq::empty());
    let items = rows_to_items(wkb, columns)->Ok_0;
    assert forall|i: int| 0 <= i < items.len() implies {
        &&& (#[trigger] items[i]).geometry == shapes[i]
        &&& items[i].properties.len() == columns.len()
        &&& forall|j: int|
            0 <= j < columns.len() ==> #[trigger] items[i].properties[j] == (
                columns[j].0,
                columns[j].1[i],
            )
    } by {
        lemma_row(columns, i, columns.len() as int);
    }
}

/// Whether a feature has the values of some columns, and no other property.
pub open spec fn has_columns(f: Item<u64, Prop>, names: Seq<Seq<char>>) -> bool {
    f.properties.len() == names.len() && forall|j: int|
        0 <= j < names.len() ==> (#[trigger] f.properties[j]).0 == names[j]
}

/// The columns of features that have the same properties.
pub open spec fn columns_of(items: Seq<Item<u64, Prop>>, names: Seq<Seq<char>>) -> Seq<
    (Seq<char>, Seq<Prop>),
> {
    Seq::new(
        names.len(),
        |j: int| (names[j], Seq::new(items.len(), |i: int| items[i].properties[j].1)),
    )
}

/// A feature with its geometry as it comes back from its bytes.
pub open spec fn as_read(f: Item<u64, Prop>) -> Item<u64, Prop> {
    Item {
        geometry: match f.geometry {
            Some(s) => Some(evened(s)),
            None => None,
        },
        properties: f.properties,
    }
}

/// Features that are put into columns come back from them, one for one and in order.
pub proof fn law_columns_read_back(items: Seq<Item<u64, Prop>>, names: Seq<Seq<char>>)
    requires
        forall|i: int| 0 <= i < items.len() ==> has_columns(#[trigger] items[i], names),
        forall|i: int|
            0 <= i < items.len() ==> ((#[trigger] items[i]).geometry matches Some(s)
                ==> is_counted(s)),
    ensures
        rows_to_items(
            items.map_values(|f: Item<u64, Prop>| wkb_of(f)),
            columns_of(items, names),
        ) == Ok::<Seq<Item<u64, Prop>>, Failure>(
            items.map_values(|f: Item<u64, Prop>| as_read(f)),
        ),
{
    let wkb = items.map_values(|f: Item<u64, Prop>| wkb_of(f));
    let columns = columns_of(items, names);
    let shapes = items.map_values(|f: Item<u64, Prop>| as_read(f).geometry);
    assert forall|k: int| 0 <= k < wkb.len() implies is_read(wkb[k], #[trigger] shapes[k]) by {
        assert(items[k].geometry is Some ==> is_counted(items[k].geometry->0));
        if let Some(s) = items[k].geometry {
            law_wkb_is_read_evened(s);
        }
    }
    law_every_row_is_a_feature(wkb, shapes, columns);
    let found = rows_to_items(wkb, columns)->Ok_0;
    let wanted = items.map_values(|f: Item<u64, Prop>| as_read(f));
    assert forall|i: int| 0 <= i < items.len() implies #[trigger] found[i] == wanted[i] by {
        assert(has_columns(items[i], names));
        assert(found[i].geometry == shapes[i]);
        assert(found[i].properties =~= items[i].properties) by {
            assert forall|j: int| 0 <= j < names.len() implies #[trigger] found[i].properties[j]
                == items[i].properties[j] by {
                assert(columns[j].0 == items[i].properties[j].0);
            }
        }
    }
    assert(found =~= wanted);
}

proof fn lemma_types(shapes: Seq<Shape<u64>>, rank: int, t: Seq<char>)
    requires
        0 <= rank,
    ensures
        types_below(shapes, rank).contains(t) <==> exists|r: int|
            0 <= r < rank && is_present(shapes, r) && #[trigger] ranked_type(r) == t,
    decreases rank,
{
    if rank > 0 {
        let before = types_below(shapes, rank - 1);
        let last = ranked_type(rank - 1);
        lemma_types(shapes, rank - 1, t);
        if is_present(shapes, rank - 1) {
            let all = before.push(last);
            assert(all[before.len() as int] == last);
            if before.contains(t) {
                let i = choose|i: int| 0 <= i < before.len() && before[i] == t;
                assert(all[i] == t);
            }
            if all.contains(t) {
                let i = choose|i: int| 0 <= i < all.len() && all[i] == t;
                if i < before.len() {
                    assert(before[i] == t);
                }
            }
        }
    }
}

/// The types that are listed are those of the geometries: the kind of each, with the letters of
/// the ordinates that it has.
pub proof fn law_types_are_those_present(shapes: Seq<Shape<u64>>, t: Seq<char>)
    ensures
        types_below(shapes, 28).contains(t) <==> exists|i: int|
            0 <= i < shapes.len() && shape_name(#[trigger] shapes[i]) + dim_suffix(shapes[i]) == t,
{
    lemma_types(shapes, 28, t);
    if types_below(shapes, 28).contains(t) {
        let r = choose|r: int|
            0 <= r < 28 && is_present(shapes, r) && #[trigger] ranked_type(r) == t;
        let i = choose|i: int| 0 <= i < shapes.len() && type_rank(#[trigger] shapes[i]) == r;
        law_rank_names_the_type(shapes[i]);
    }
    if exists|i: int|
        0 <= i < shapes.len() && shape_name(#[trigger] shapes[i]) + dim_suffix(shapes[i]) == t {
        let i = choose|i: int|
            0 <= i < shapes.len() && shape_name(#[trigger] shapes[i]) + dim_suffix(shapes[i]) == t;
        law_rank_names_the_type(shapes[i]);
        let r = type_rank(shapes[i]);
        assert(is_present(shapes, r));
        assert(ranked_type(r) == t);
    }
}

} // verus!
