//! What is read of KML that others wrote.
//!
//! The laws go by the elements of a document alone, in whatever order and number they
//! stand.
use vstd::prelude::*;

use super::reader::{
    data_from, feature_of, geometry_place, inner_from, is_geometry, placemarks, placemarks_from,
    polygon_of, properties_of, ring_of, schema_from, shape_of, shapes_from, simple_from,
};
use crate::error::Failure;
use crate::feature::Item;
use crate::geometry::{Position, Shape};
use crate::json::value::Json;
use crate::text::trimmed;
use crate::xml::Element;

verus! {

// --- elements ------------------------------------------------------------------------------

/// The elements of a name that have a `name` attribute, in their order.
pub open spec fn keyed(elements: Seq<Element>, name: Seq<char>) -> Seq<Element> {
    elements.filter(|e: Element| e.name == name && e.attr("name"@) is Some)
}

/// The elements of a name, in their order.
pub open spec fn all_named(elements: Seq<Element>, name: Seq<char>) -> Seq<Element> {
    elements.filter(|e: Element| e.name == name)
}

/// The property of a `Data` element: its name, and the text of its value.
pub open spec fn data_property(e: Element) -> (Seq<char>, Json) {
    (
        e.attr("name"@)->0,
        Json::String(
            match e.child("value"@) {
                Some(v) => trimmed(v.text),
                None => Seq::empty(),
            },
        ),
    )
}

/// The property of a `SimpleData` element: its name, and its text.
pub open spec fn simple_property(e: Element) -> (Seq<char>, Json) {
    (e.attr("name"@)->0, Json::String(trimmed(e.text)))
}

/// The text of a child as a property, where there is such a child.
pub open spec fn child_property(e: Element, name: Seq<char>) -> Seq<(Seq<char>, Json)> {
    match e.child(name) {
        Some(c) => seq![(name, Json::String(trimmed(c.text)))],
        None => Seq::empty(),
    }
}

/// Of the elements from the one numbered `i` on, the one that stands there comes first.
proof fn lemma_filter_from(elements: Seq<Element>, i: int, pred: spec_fn(Element) -> bool)
    requires
        0 <= i < elements.len(),
    ensures
        elements.skip(i).filter(pred) == (if pred(elements[i]) {
            seq![elements[i]]
        } else {
            Seq::empty()
        }) + elements.skip(i + 1).filter(pred),
{
    let one = seq![elements[i]];
    assert(elements.skip(i) =~= one + elements.skip(i + 1));
    Seq::filter_distributes_over_add(one, elements.skip(i + 1), pred);
    reveal(Seq::filter);
    assert(one.drop_last() =~= Seq::empty());
    assert(Seq::<Element>::empty().filter(pred) =~= Seq::empty());
    assert(one.filter(pred) =~= if pred(elements[i]) {
        one
    } else {
        Seq::empty()
    });
}

proof fn lemma_filter_none(elements: Seq<Element>, i: int, pred: spec_fn(Element) -> bool)
    requires
        i >= elements.len(),
    ensures
        elements.skip(elements.len() as int).filter(pred) == Seq::<Element>::empty(),
{
    reveal(Seq::filter);
}

// --- properties ----------------------------------------------------------------------------

proof fn lemma_data(children: Seq<Element>, i: int, so_far: Seq<(Seq<char>, Json)>)
    requires
        0 <= i <= children.len(),
    ensures
        data_from(children, i, so_far) == so_far + keyed(children.skip(i), "Data"@).map_values(
            |e: Element| data_property(e),
        ),
    decreases children.len() - i,
{
    let f = |e: Element| data_property(e);
    let pred = |e: Element| e.name == "Data"@ && e.attr("name"@) is Some;
    let all = keyed(children.skip(i), "Data"@);
    if i < children.len() {
        let c = children[i];
        let rest = keyed(children.skip(i + 1), "Data"@);
        lemma_filter_from(children, i, pred);
        if pred(c) {
            lemma_data(children, i + 1, so_far.push(data_property(c)));
            assert(so_far.push(data_property(c)) + rest.map_values(f) =~= so_far + all.map_values(
                f,
            ));
        } else {
            lemma_data(children, i + 1, so_far);
            assert(all =~= rest);
        }
    } else {
        lemma_filter_none(children, i, pred);
        assert(so_far + all.map_values(f) =~= so_far);
    }
}

proof fn lemma_simple(children: Seq<Element>, i: int, so_far: Seq<(Seq<char>, Json)>)
    requires
        0 <= i <= children.len(),
    ensures
        simple_from(children, i, so_far) == so_far + keyed(
            children.skip(i),
            "SimpleData"@,
        ).map_values(|e: Element| simple_property(e)),
    decreases children.len() - i,
{
    let f = |e: Element| simple_property(e);
    let pred = |e: Element| e.name == "SimpleData"@ && e.attr("name"@) is Some;
    let all = keyed(children.skip(i), "SimpleData"@);
    if i < children.len() {
        let c = children[i];
        let rest = keyed(children.skip(i + 1), "SimpleData"@);
        lemma_filter_from(children, i, pred);
        if pred(c) {
            lemma_simple(children, i + 1, so_far.push(simple_property(c)));
            assert(so_far.push(simple_property(c)) + rest.map_values(f) =~= so_far + all.map_values(
                f,
            ));
        } else {
            lemma_simple(children, i + 1, so_far);
            assert(all =~= rest);
        }
    } else {
        lemma_filter_none(children, i, pred);
        assert(so_far + all.map_values(f) =~= so_far);
    }
}

/// The named `SimpleData` elements in all of some elements.
pub open spec fn simple_data(schemas: Seq<Element>) -> Seq<Element> {
    schemas.flat_map(|s: Element| keyed(s.children, "SimpleData"@))
}

proof fn lemma_simple_data_from(first: Element, rest: Seq<Element>)
    ensures
        simple_data(seq![first] + rest) == keyed(first.children, "SimpleData"@) + simple_data(rest),
{
    let f = |s: Element| keyed(s.children, "SimpleData"@);
    let all = seq![first] + rest;
    assert(all.map_values(f).drop_first() =~= rest.map_values(f));
    assert(all.map_values(f).first() == f(first));
}

proof fn lemma_schema(children: Seq<Element>, i: int, so_far: Seq<(Seq<char>, Json)>)
    requires
        0 <= i <= children.len(),
    ensures
        schema_from(children, i, so_far) == so_far + simple_data(
            all_named(children.skip(i), "SchemaData"@),
        ).map_values(|e: Element| simple_property(e)),
    decreases children.len() - i,
{
    let f = |e: Element| simple_property(e);
    let pred = |e: Element| e.name == "SchemaData"@;
    let all = all_named(children.skip(i), "SchemaData"@);
    if i < children.len() {
        let c = children[i];
        let rest = all_named(children.skip(i + 1), "SchemaData"@);
        lemma_filter_from(children, i, pred);
        if pred(c) {
            let longer = simple_from(c.children, 0, so_far);
            lemma_simple(c.children, 0, so_far);
            assert(c.children.skip(0) =~= c.children);
            lemma_schema(children, i + 1, longer);
            lemma_simple_data_from(c, rest);
            assert(longer + simple_data(rest).map_values(f) =~= so_far + simple_data(
                all,
            ).map_values(f));
        } else {
            lemma_schema(children, i + 1, so_far);
            assert(all =~= rest);
        }
    } else {
        lemma_filter_none(children, i, pred);
        assert(simple_data(all) =~= Seq::empty()) by {
            assert(all.map_values(|s: Element| keyed(s.children, "SimpleData"@)) =~= Seq::empty());
        }
        assert(so_far + simple_data(all).map_values(f) =~= so_far);
    }
}

/// The properties of a placemark are its name, its description, and then, of its extended
/// data, every named `Data` element and every named `SimpleData` element of every
/// `SchemaData`, in their order, each with its text.
pub proof fn law_every_datum_is_a_property(e: Element)
    ensures
        properties_of(e) == child_property(e, "name"@) + child_property(e, "description"@) + match e.child(
            "ExtendedData"@,
        ) {
            None => Seq::empty(),
            Some(x) => keyed(x.children, "Data"@).map_values(|d: Element| data_property(d))
                + simple_data(all_named(x.children, "SchemaData"@)).map_values(
                |s: Element| simple_property(s),
            ),
        },
{
    let texts = child_property(e, "name"@) + child_property(e, "description"@);
    match e.child("ExtendedData"@) {
        None => {
            assert(properties_of(e) =~= texts + Seq::empty());
        },
        Some(x) => {
            let cs = x.children;
            assert(cs.skip(0) =~= cs);
            lemma_data(cs, 0, texts);
            let data = keyed(cs, "Data"@).map_values(|d: Element| data_property(d));
            let simple = simple_data(all_named(cs, "SchemaData"@)).map_values(
                |s: Element| simple_property(s),
            );
            lemma_schema(cs, 0, texts + data);
            let named = super::reader::text_property(e, "name"@, Seq::empty());
            assert(named =~= child_property(e, "name"@));
            assert(super::reader::text_property(e, "description"@, named) =~= texts);
            assert(texts + data + simple =~= texts + (data + simple));
        },
    }
}

// --- placemarks ----------------------------------------------------------------------------

/// The placemarks in an element, at whatever depth, in the order of the document. What is
/// in a placemark is its own.
pub open spec fn placemarks_in(e: Element) -> Seq<Element>
    decreases e, 1int,
{
    if e.name == "Placemark"@ {
        seq![e]
    } else {
        placemarks_among(e.children, e.children.len() as int)
    }
}

/// The placemarks in the first `n` of some elements.
pub open spec fn placemarks_among(elements: Seq<Element>, n: int) -> Seq<Element>
    decreases elements, n,
{
    if n <= 0 || n > elements.len() {
        Seq::empty()
    } else {
        placemarks_among(elements, n - 1) + placemarks_in(elements[n - 1])
    }
}

/// Whether features are those of elements, one by one.
pub open spec fn are_features_of(features: Seq<Item<Seq<char>, Json>>, marks: Seq<Element>) -> bool {
    &&& features.len() == marks.len()
    &&& forall|i: int|
        0 <= i < marks.len() ==> feature_of(#[trigger] marks[i]) == Ok::<
            Item<Seq<char>, Json>,
            Failure,
        >(features[i])
}

/// What is read after some features: they, and the features of the placemarks; or the
/// failure of one of them.
pub open spec fn is_read_of(
    read: Result<Seq<Item<Seq<char>, Json>>, Failure>,
    so_far: Seq<Item<Seq<char>, Json>>,
    marks: Seq<Element>,
) -> bool {
    match read {
        Ok(all) => {
            &&& all.len() == so_far.len() + marks.len()
            &&& all.take(so_far.len() as int) == so_far
            &&& are_features_of(all.skip(so_far.len() as int), marks)
        },
        Err(x) => exists|i: int|
            0 <= i < marks.len() && feature_of(#[trigger] marks[i]) == Err::<
                Item<Seq<char>, Json>,
                Failure,
            >(x),
    }
}

proof fn lemma_placemarks(e: Element, so_far: Seq<Item<Seq<char>, Json>>)
    ensures
        is_read_of(placemarks(e, so_far), so_far, placemarks_in(e)),
    decreases e, 1int, 0int,
{
    let marks = placemarks_in(e);
    if e.name == "Placemark"@ {
        assert(marks[0] == e);
        if let Ok(f) = feature_of(e) {
            let all = so_far.push(f);
            assert(all.take(so_far.len() as int) =~= so_far);
            assert(all.skip(so_far.len() as int) =~= seq![f]);
        }
    } else {
        lemma_placemarks_from(e.children, 0, so_far, so_far);
        if placemarks(e, so_far) is Ok {
            let all = placemarks(e, so_far)->Ok_0;
            assert(so_far.skip(so_far.len() as int) =~= Seq::empty());
        }
    }
}

/// After the placemarks of the first `i` elements were read, those of the others are.
proof fn lemma_placemarks_from(
    elements: Seq<Element>,
    i: int,
    start: Seq<Item<Seq<char>, Json>>,
    so_far: Seq<Item<Seq<char>, Json>>,
)
    requires
        0 <= i <= elements.len(),
        is_read_of(
            Ok::<Seq<Item<Seq<char>, Json>>, Failure>(so_far),
            start,
            placemarks_among(elements, i),
        ) || (i == 0 && so_far == start),
    ensures
        is_read_of(
            placemarks_from(elements, i, so_far),
            start,
            placemarks_among(elements, elements.len() as int),
        ),
    decreases elements, elements.len() - i, 1int,
{
    let n = start.len() as int;
    let before = placemarks_among(elements, i);
    if i == 0 {
        assert(before =~= Seq::empty());
        assert(so_far.take(n) =~= start || !(so_far == start));
    }
    if i < elements.len() {
        let more = placemarks_in(elements[i]);
        let marks = placemarks_among(elements, i + 1);
        lemma_placemarks(elements[i], so_far);
        assert(marks == before + more);
        match placemarks(elements[i], so_far) {
            Ok(all) => {
                assert(all.take(n) =~= so_far.take(n)) by {
                    assert(all.take(so_far.len() as int) =~= so_far);
                    assert forall|k: int| 0 <= k < n implies all[k] == so_far[k] by {
                        assert(all.take(so_far.len() as int)[k] == so_far[k]);
                    }
                }
                let got = all.skip(n);
                let first = so_far.skip(n);
                let rest = all.skip(so_far.len() as int);
                assert(got =~= first + rest) by {
                    assert forall|k: int| 0 <= k < so_far.len() implies all[k] == so_far[k] by {
                        assert(all.take(so_far.len() as int)[k] == so_far[k]);
                    }
                }
                assert forall|k: int| 0 <= k < marks.len() implies feature_of(#[trigger] marks[k])
                    == Ok::<Item<Seq<char>, Json>, Failure>(got[k]) by {
                    if k < before.len() {
                        assert(marks[k] == before[k]);
                        assert(got[k] == first[k]);
                    } else {
                        assert(marks[k] == more[k - before.len()]);
                        assert(got[k] == rest[k - before.len()]);
                    }
                }
                lemma_placemarks_from(elements, i + 1, start, all);
            },
            Err(x) => {
                let k = choose|k: int|
                    0 <= k < more.len() && feature_of(#[trigger] more[k]) == Err::<
                        Item<Seq<char>, Json>,
                        Failure,
                    >(x);
                lemma_among_grows(elements, i + 1, elements.len() as int);
                let all = placemarks_among(elements, elements.len() as int);
                assert(all.take(marks.len() as int)[before.len() + k] == marks[before.len() + k]);
                assert(marks[before.len() + k] == more[k]);
                assert(all[before.len() + k] == more[k]);
            },
        }
    }
}

proof fn lemma_among_grows(elements: Seq<Element>, i: int, n: int)
    requires
        0 <= i <= n <= elements.len(),
    ensures
        placemarks_among(elements, i).len() <= placemarks_among(elements, n).len(),
        placemarks_among(elements, n).take(placemarks_among(elements, i).len() as int)
            == placemarks_among(elements, i),
    decreases n - i,
{
    let small = placemarks_among(elements, i);
    if i < n {
        lemma_among_grows(elements, i, n - 1);
        let middle = placemarks_among(elements, n - 1);
        let all = placemarks_among(elements, n);
        assert(all.take(small.len() as int) =~= middle.take(small.len() as int));
    } else {
        assert(small.take(small.len() as int) =~= small);
    }
}

/// Every placemark of a document, at whatever depth, is a feature, in the order of the
/// document, and there are no others. Reading fails only where one of them does.
pub proof fn law_every_placemark_is_a_feature(root: Element)
    ensures
        match placemarks(root, Seq::empty()) {
            Ok(features) => are_features_of(features, placemarks_in(root)),
            Err(x) => exists|i: int|
                0 <= i < placemarks_in(root).len() && feature_of(#[trigger] placemarks_in(root)[i])
                    == Err::<Item<Seq<char>, Json>, Failure>(x),
        },
{
    let none = Seq::<Item<Seq<char>, Json>>::empty();
    lemma_placemarks(root, none);
    if let Ok(all) = placemarks(root, none) {
        assert(all.skip(0) =~= all);
    }
}

/// The feature of a placemark has the geometry of the first child that is one, wherever it
/// stands among the others, and the properties of the placemark.
pub proof fn law_first_geometry_is_the_features(e: Element, i: int)
    requires
        0 <= i < e.children.len(),
        is_geometry(e.children[i].name),
        forall|k: int| 0 <= k < i ==> !is_geometry((#[trigger] e.children[k]).name),
    ensures
        match shape_of(e.children[i]) {
            Ok(s) => feature_of(e) == Ok::<Item<Seq<char>, Json>, Failure>(
                Item { geometry: Some(s), properties: properties_of(e) },
            ),
            Err(x) => feature_of(e) == Err::<Item<Seq<char>, Json>, Failure>(x),
        },
{
    lemma_first_place(e.children, 0, i);
}

proof fn lemma_first_place(children: Seq<Element>, from: int, i: int)
    requires
        0 <= from <= i < children.len(),
        is_geometry(children[i].name),
        forall|k: int| 0 <= k < i ==> !is_geometry((#[trigger] children[k]).name),
    ensures
        geometry_place(children, from) == i,
    decreases i - from,
{
    if from < i {
        assert(!is_geometry(children[from].name));
        lemma_first_place(children, from + 1, i);
    }
}

// --- geometries ----------------------------------------------------------------------------

proof fn lemma_inner(
    children: Seq<Element>,
    i: int,
    so_far: Seq<Seq<Position<Seq<char>>>>,
)
    requires
        0 <= i <= children.len(),
    ensures
        inner_from(children, i, so_far) matches Ok(rings) ==> {
            let inner = all_named(children.skip(i), "innerBoundaryIs"@);
            &&& rings.len() == so_far.len() + inner.len()
            &&& rings.take(so_far.len() as int) == so_far
            &&& forall|k: int|
                0 <= k < inner.len() ==> ring_of(#[trigger] inner[k]) == Ok::<
                    Seq<Position<Seq<char>>>,
                    Failure,
                >(rings[so_far.len() + k])
        },
        (forall|k: int|
            i <= k < children.len() && (#[trigger] children[k]).name == "innerBoundaryIs"@
                ==> ring_of(children[k]) is Ok) ==> inner_from(children, i, so_far) is Ok,
    decreases children.len() - i,
{
    let pred = |e: Element| e.name == "innerBoundaryIs"@;
    let all = all_named(children.skip(i), "innerBoundaryIs"@);
    if i < children.len() {
        let rest = all_named(children.skip(i + 1), "innerBoundaryIs"@);
        lemma_filter_from(children, i, pred);
        if pred(children[i]) {
            assert(children[i].name == "innerBoundaryIs"@);
            if let Ok(ring) = ring_of(children[i]) {
                let longer = so_far.push(ring);
                lemma_inner(children, i + 1, longer);
                if let Ok(rings) = inner_from(children, i, so_far) {
                    assert(rings.take(so_far.len() as int) =~= so_far) by {
                        assert forall|k: int| 0 <= k < so_far.len() implies rings[k]
                            == so_far[k] by {
                            assert(rings.take(longer.len() as int)[k] == longer[k]);
                        }
                    }
                    assert(rings.take(longer.len() as int)[so_far.len() as int] == ring);
                    assert forall|k: int| 0 <= k < all.len() implies ring_of(#[trigger] all[k])
                        == Ok::<Seq<Position<Seq<char>>>, Failure>(rings[so_far.len() + k]) by {
                        if k > 0 {
                            assert(all[k] == rest[k - 1]);
                        }
                    }
                }
            }
        } else {
            lemma_inner(children, i + 1, so_far);
            assert(all =~= rest);
        }
    } else {
        lemma_filter_none(children, i, pred);
        assert(so_far.take(so_far.len() as int) =~= so_far);
    }
}

/// A polygon has the ring of its outer boundary first, and then the rings of all its inner
/// boundaries, in their order.
pub proof fn law_every_boundary_is_a_ring(e: Element)
    ensures
        polygon_of(e) matches Ok(rings) ==> {
            let inner = all_named(e.children, "innerBoundaryIs"@);
            &&& rings.len() == 1 + inner.len()
            &&& e.child("outerBoundaryIs"@) matches Some(o) && ring_of(o) == Ok::<
                Seq<Position<Seq<char>>>,
                Failure,
            >(rings[0])
            &&& forall|k: int|
                0 <= k < inner.len() ==> ring_of(#[trigger] inner[k]) == Ok::<
                    Seq<Position<Seq<char>>>,
                    Failure,
                >(rings[1 + k])
        },
        (e.child("outerBoundaryIs"@) matches Some(o) && ring_of(o) is Ok && (forall|k: int|
            0 <= k < e.children.len() && (#[trigger] e.children[k]).name == "innerBoundaryIs"@
                ==> ring_of(e.children[k]) is Ok)) ==> polygon_of(e) is Ok,
{
    if let Some(o) = e.child("outerBoundaryIs"@) {
        if let Ok(ring) = ring_of(o) {
            lemma_inner(e.children, 0, seq![ring]);
            assert(e.children.skip(0) =~= e.children);
            if let Ok(rings) = polygon_of(e) {
                assert(rings.take(1)[0] == seq![ring][0]);
            }
        }
    }
}

proof fn lemma_shapes(children: Seq<Element>, i: int, so_far: Seq<Shape<Seq<char>>>)
    requires
        0 <= i <= children.len(),
    ensures
        shapes_from(children, i, so_far) matches Ok(shapes) ==> {
            let parts = children.skip(i).filter(|e: Element| is_geometry(e.name));
            &&& shapes.len() == so_far.len() + parts.len()
            &&& shapes.take(so_far.len() as int) == so_far
            &&& forall|k: int|
                0 <= k < parts.len() ==> shape_of(#[trigger] parts[k]) == Ok::<
                    Shape<Seq<char>>,
                    Failure,
                >(shapes[so_far.len() + k])
        },
    decreases children.len() - i,
{
    let pred = |e: Element| is_geometry(e.name);
    let all = children.skip(i).filter(pred);
    if i < children.len() {
        let rest = children.skip(i + 1).filter(pred);
        lemma_filter_from(children, i, pred);
        if pred(children[i]) {
            if let Ok(s) = shape_of(children[i]) {
                let longer = so_far.push(s);
                lemma_shapes(children, i + 1, longer);
                if let Ok(shapes) = shapes_from(children, i, so_far) {
                    assert(shapes.take(so_far.len() as int) =~= so_far) by {
                        assert forall|k: int| 0 <= k < so_far.len() implies shapes[k]
                            == so_far[k] by {
                            assert(shapes.take(longer.len() as int)[k] == longer[k]);
                        }
                    }
                    assert(shapes.take(longer.len() as int)[so_far.len() as int] == s);
                    assert forall|k: int| 0 <= k < all.len() implies shape_of(#[trigger] all[k])
                        == Ok::<Shape<Seq<char>>, Failure>(shapes[so_far.len() + k]) by {
                        if k > 0 {
                            assert(all[k] == rest[k - 1]);
                        }
                    }
                }
            }
        } else {
            lemma_shapes(children, i + 1, so_far);
            assert(all =~= rest);
        }
    } else {
        lemma_filter_none(children, i, pred);
        assert(so_far.take(so_far.len() as int) =~= so_far);
    }
}

/// The parts of a geometry that has several: its points, its lines, its polygons, or its
/// members.
pub open spec fn parts_of(s: Shape<Seq<char>>) -> Seq<Shape<Seq<char>>> {
    match s {
        Shape::MultiPoint(run) => run.map_values(|p: Position<Seq<char>>| Shape::Point(p)),
        Shape::MultiLineString(lines) => lines.map_values(
            |l: Seq<Position<Seq<char>>>| Shape::LineString(l),
        ),
        Shape::MultiPolygon(polygons) => polygons.map_values(
            |r: Seq<Seq<Position<Seq<char>>>>| Shape::Polygon(r),
        ),
        Shape::GeometryCollection(parts) => parts,
        _ => Seq::empty(),
    }
}

/// A geometry of several has all of them, in their order: one part for every child that is
/// a geometry.
pub proof fn law_every_part_is_a_geometry(e: Element)
    requires
        e.name == "MultiGeometry"@,
    ensures
        shape_of(e) matches Ok(s) ==> {
            let parts = e.children.filter(|c: Element| is_geometry(c.name));
            &&& parts_of(s).len() == parts.len() > 0
            &&& forall|k: int|
                0 <= k < parts.len() ==> shape_of(#[trigger] parts[k]) == Ok::<
                    Shape<Seq<char>>,
                    Failure,
                >(parts_of(s)[k])
        },
{
    reveal_strlit("MultiGeometry");
    reveal_strlit("Point");
    reveal_strlit("LineString");
    reveal_strlit("Polygon");
    assert("MultiGeometry"@.len() == 13 && "Point"@.len() == 5 && "LineString"@.len() == 10
        && "Polygon"@.len() == 7);
    let none = Seq::<Shape<Seq<char>>>::empty();
    lemma_shapes(e.children, 0, none);
    assert(e.children.skip(0) =~= e.children);
    if let Ok(s) = shape_of(e) {
        let shapes = shapes_from(e.children, 0, none)->Ok_0;
        assert(parts_of(s) =~= shapes);
    }
}

} // verus!
