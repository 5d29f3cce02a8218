//! Features that were written are read back.
use vstd::prelude::*;
use vstd::utf8::*;

use super::{archive_collection, archived_from, is_kml_name};
use super::reader::{
    collection_of, combined, coordinates_of, data_from, feature_of, finished, geometry_place,
    inner_from, is_geometry, part_end, placemarks, placemarks_from, properties_of, ring_of,
    schema_from, shape_of, shapes_from, text_property, tuple_of, tuples_from, word_end,
};
use super::writer::{
    boundary, coordinates, data_elements, data_of, document_of, geometry_element, is_own, line_of,
    own_elements, placemark_of, point_of, property_text, tuple_text, tuples,
};
use crate::decimal::{is_finite_text, law_plain_is_plain, plain_number};
use crate::error::Failure;
use crate::feature::{Item, Items};
use crate::geometry::{Position, Shape};
use crate::json::value::Json;
use crate::text::{is_ascii_white, is_white, lower_text, trimmed};
use crate::xml::parser::white_end;
use crate::xml::round_trip::{have_names, is_name, is_well_formed, law_document_reads_back};
use crate::xml::writer::document_text;
use crate::xml::{attr_from, leaf_of, parent_of, place_named, Element};

verus! {

// --- what is read --------------------------------------------------------------------------

/// A position as it is read: X, Y and Z as plain numbers.
pub open spec fn plain_position(p: Position<Seq<char>>) -> Position<Seq<char>> {
    Position {
        x: plain_number(p.x),
        y: plain_number(p.y),
        z: match p.z {
            Some(z) => Some(plain_number(z)),
            None => None,
        },
        m: None,
    }
}

pub open spec fn plain_run(ps: Seq<Position<Seq<char>>>) -> Seq<Position<Seq<char>>> {
    ps.map_values(|p: Position<Seq<char>>| plain_position(p))
}

pub open spec fn plain_runs(runs: Seq<Seq<Position<Seq<char>>>>) -> Seq<Seq<Position<Seq<char>>>> {
    runs.map_values(|ps: Seq<Position<Seq<char>>>| plain_run(ps))
}

/// A geometry as it is read. A collection of geometries of one kind becomes the
/// plural of the kind.
pub open spec fn read_as(s: Shape<Seq<char>>) -> Shape<Seq<char>>
    decreases s,
{
    match s {
        Shape::Point(p) => Shape::Point(plain_position(p)),
        Shape::LineString(ps) => Shape::LineString(plain_run(ps)),
        Shape::Polygon(rings) => Shape::Polygon(plain_runs(rings)),
        Shape::MultiPoint(ps) => Shape::MultiPoint(plain_run(ps)),
        Shape::MultiLineString(lines) => Shape::MultiLineString(plain_runs(lines)),
        Shape::MultiPolygon(polygons) => Shape::MultiPolygon(
            polygons.map_values(|rings: Seq<Seq<Position<Seq<char>>>>| plain_runs(rings)),
        ),
        Shape::GeometryCollection(parts) => combined(parts_read_as(parts)),
    }
}

/// Geometries as they are read.
pub open spec fn parts_read_as(parts: Seq<Shape<Seq<char>>>) -> Seq<Shape<Seq<char>>>
    decreases parts,
{
    if parts.len() == 0 {
        Seq::empty()
    } else {
        parts_read_as(parts.drop_last()).push(read_as(parts[parts.len() - 1]))
    }
}

proof fn lemma_parts_read_as(parts: Seq<Shape<Seq<char>>>, i: int)
    ensures
        parts_read_as(parts).len() == parts.len(),
        0 <= i < parts.len() ==> parts_read_as(parts)[i] == read_as(parts[i]),
    decreases parts.len(),
{
    if parts.len() > 0 {
        lemma_parts_read_as(parts.drop_last(), i);
    }
}

/// Whether the ordinates of a position are numbers.
pub open spec fn is_located(p: Position<Seq<char>>) -> bool {
    is_finite_text(p.x) && is_finite_text(p.y) && (p.z matches Some(z) ==> is_finite_text(z))
}

pub open spec fn run_is_located(ps: Seq<Position<Seq<char>>>) -> bool {
    forall|i: int| 0 <= i < ps.len() ==> is_located(#[trigger] ps[i])
}

pub open spec fn runs_are_located(runs: Seq<Seq<Position<Seq<char>>>>) -> bool {
    forall|i: int| 0 <= i < runs.len() ==> run_is_located(#[trigger] runs[i])
}

/// Whether a geometry has an element that can be read: its ordinates are numbers,
/// and what has rings or parts has at least one.
pub open spec fn is_drawable(s: Shape<Seq<char>>) -> bool
    decreases s,
{
    match s {
        Shape::Point(p) => is_located(p),
        Shape::LineString(ps) => run_is_located(ps),
        Shape::Polygon(rings) => rings.len() > 0 && runs_are_located(rings),
        Shape::MultiPoint(ps) => ps.len() > 0 && run_is_located(ps),
        Shape::MultiLineString(lines) => lines.len() > 0 && runs_are_located(lines),
        Shape::MultiPolygon(polygons) => polygons.len() > 0 && forall|i: int|
            0 <= i < polygons.len() ==> (#[trigger] polygons[i]).len() > 0 && runs_are_located(
                polygons[i],
            ),
        Shape::GeometryCollection(parts) => parts.len() > 0 && forall|i: int|
            0 <= i < parts.len() ==> is_drawable(#[trigger] parts[i]),
    }
}

// --- coordinates ---------------------------------------------------------------------------

proof fn lemma_no_comma_ahead(t: Seq<char>, p: int, q: int)
    requires
        0 <= p <= q <= t.len(),
        forall|i: int| p <= i < q ==> t[i] != ',',
        q < t.len() ==> t[q] == ',',
    ensures
        part_end(t, p) == q,
    decreases q - p,
{
    if p < q {
        lemma_no_comma_ahead(t, p + 1, q);
    }
}

/// A tuple is read as its position, and has no white space.
proof fn lemma_tuple_is_read(p: Position<Seq<char>>)
    requires
        is_located(p),
    ensures
        tuple_of(tuple_text(p)) == Some(plain_position(p)),
        tuple_text(p).len() > 0,
        forall|i: int|
            0 <= i < tuple_text(p).len() ==> !is_ascii_white(#[trigger] tuple_text(p)[i])
                && !is_white(tuple_text(p)[i]),
{
    reveal_strlit(",");
    law_plain_is_plain(p.x);
    law_plain_is_plain(p.y);
    let x = plain_number(p.x);
    let y = plain_number(p.y);
    let t = tuple_text(p);
    let a = x.len() as int;
    let b = a + 1 + y.len();
    assert forall|i: int| 0 <= i < a implies t[i] != ',' by {
        assert(t[i] == x[i]);
    }
    assert(t[a] == ',');
    lemma_no_comma_ahead(t, 0, a);
    assert forall|i: int| a + 1 <= i < b implies t[i] != ',' by {
        assert(t[i] == y[i - a - 1]);
    }
    assert(t.subrange(0, a) =~= x);
    assert(t.subrange(a + 1, b) =~= y);
    match p.z {
        None => {
            assert(t.len() == b);
            lemma_no_comma_ahead(t, a + 1, b);
        },
        Some(text) => {
            law_plain_is_plain(text);
            let z = plain_number(text);
            assert(t.len() == b + 1 + z.len());
            assert(t[b] == ',');
            lemma_no_comma_ahead(t, a + 1, b);
            assert forall|i: int| b + 1 <= i < t.len() implies t[i] != ',' by {
                assert(t[i] == z[i - b - 1]);
            }
            lemma_no_comma_ahead(t, b + 1, t.len() as int);
            assert(t.subrange(b + 1, t.len() as int) =~= z);
        },
    }
    assert forall|i: int| 0 <= i < t.len() implies !is_ascii_white(#[trigger] t[i]) && !is_white(
        t[i],
    ) by {
        if i < a {
            assert(t[i] == x[i]);
        } else if a < i < b {
            assert(t[i] == y[i - a - 1]);
        } else if i > b {
            assert(t[i] == plain_number(p.z->0)[i - b - 1]);
        }
    }
}

proof fn lemma_tuples_next(ps: Seq<Position<Seq<char>>>, k: int)
    requires
        0 <= k < ps.len(),
    ensures
        tuples(ps.take(k + 1)) == tuples(ps.take(k)) + (if k > 0 {
            " "@
        } else {
            Seq::empty()
        }) + tuple_text(ps[k]),
{
    let longer = ps.take(k + 1);
    assert(longer.drop_last() =~= ps.take(k));
    assert(longer.last() == ps[k]);
    assert(tuples(longer) =~= tuples(ps.take(k)) + (if k > 0 {
        " "@
    } else {
        Seq::empty()
    }) + tuple_text(ps[k]));
}

proof fn lemma_tuples_prefix(ps: Seq<Position<Seq<char>>>, k: int)
    requires
        0 <= k <= ps.len(),
    ensures
        tuples(ps.take(k)).len() <= tuples(ps).len(),
        tuples(ps).take(tuples(ps.take(k)).len() as int) == tuples(ps.take(k)),
    decreases ps.len() - k,
{
    let shorter = tuples(ps.take(k));
    if k == ps.len() {
        assert(ps.take(k) =~= ps);
        assert(shorter.take(shorter.len() as int) =~= shorter);
    } else {
        lemma_tuples_prefix(ps, k + 1);
        lemma_tuples_next(ps, k);
        let longer = tuples(ps.take(k + 1));
        assert(tuples(ps).take(shorter.len() as int) =~= longer.take(shorter.len() as int));
        assert(longer.take(shorter.len() as int) =~= shorter);
    }
}

proof fn lemma_word_end(s: Seq<char>, p: int, q: int)
    requires
        0 <= p <= q <= s.len(),
        forall|i: int| p <= i < q ==> !is_ascii_white(#[trigger] s[i]),
        q < s.len() ==> is_ascii_white(s[q]),
    ensures
        word_end(s, p) == q,
    decreases q - p,
{
    if p < q {
        assert(!is_ascii_white(s[p]));
        lemma_word_end(s, p + 1, q);
    }
}

/// Where tuple `k` stands among others.
proof fn lemma_tuple_stands(ps: Seq<Position<Seq<char>>>, k: int)
    requires
        0 <= k < ps.len(),
    ensures
        ({
            let s = tuples(ps);
            let e = tuples(ps.take(k + 1)).len() as int;
            let q = e - tuple_text(ps[k]).len();
            &&& 0 <= q <= e <= s.len()
            &&& s.subrange(q, e) == tuple_text(ps[k])
            &&& k > 0 ==> q == tuples(ps.take(k)).len() + 1 && s[q - 1] == ' '
            &&& k == 0 ==> q == 0
            &&& e < s.len() ==> s[e] == ' '
        }),
{
    reveal_strlit(" ");
    let s = tuples(ps);
    lemma_tuples_prefix(ps, k + 1);
    lemma_tuples_next(ps, k);
    let longer = tuples(ps.take(k + 1));
    let e = longer.len() as int;
    let q = e - tuple_text(ps[k]).len();
    let part = s.take(e);
    assert(s.subrange(q, e) =~= part.subrange(q, e));
    assert(longer.subrange(q, e) =~= tuple_text(ps[k]));
    if k == 0 {
        assert(ps.take(0) =~= Seq::empty());
        assert(tuples(ps.take(0)).len() == 0);
    } else {
        assert(part[q - 1] == s[q - 1]);
        assert(longer[q - 1] == ' ');
    }
    if e < s.len() {
        if k + 1 == ps.len() {
            assert(ps.take(k + 1) =~= ps);
        } else {
            lemma_tuples_prefix(ps, k + 2);
            lemma_tuples_next(ps, k + 1);
            let next = tuples(ps.take(k + 2));
            assert(s.take(next.len() as int)[e] == s[e]);
            assert(next[e] == ' ');
        }
    }
}

/// Positions are read back from their tuples.
proof fn lemma_tuples_are_read(ps: Seq<Position<Seq<char>>>, k: int)
    requires
        run_is_located(ps),
        0 <= k <= ps.len(),
    ensures
        tuples_from(tuples(ps), tuples(ps.take(k)).len() as int, plain_run(ps).take(k)) == Ok::<
            Seq<Position<Seq<char>>>,
            Failure,
        >(plain_run(ps)),
    decreases ps.len() - k,
{
    let s = tuples(ps);
    let all = plain_run(ps);
    let p = tuples(ps.take(k)).len() as int;
    if k == ps.len() {
        assert(ps.take(k) =~= ps);
        assert(all.take(k) =~= all);
        assert(white_end(s, p) == p);
    } else {
        let t = tuple_text(ps[k]);
        let e = tuples(ps.take(k + 1)).len() as int;
        let q = e - t.len();
        assert(is_located(ps[k]));
        lemma_tuple_is_read(ps[k]);
        lemma_tuple_stands(ps, k);
        if k == 0 {
            assert(ps.take(0) =~= Seq::empty());
        }
        assert(s[q] == t[0]) by {
            assert(s.subrange(q, e)[0] == s[q]);
        }
        assert(white_end(s, q) == q);
        assert(white_end(s, p) == q);
        assert forall|i: int| q <= i < e implies !is_ascii_white(#[trigger] s[i]) by {
            assert(s.subrange(q, e)[i - q] == s[i]);
            assert(!is_ascii_white(t[i - q]));
        }
        lemma_word_end(s, q, e);
        lemma_tuples_are_read(ps, k + 1);
        assert(all.take(k + 1) =~= all.take(k).push(all[k]));
    }
}

/// The tuples of a run have no white space around them.
proof fn lemma_tuples_are_trimmed(ps: Seq<Position<Seq<char>>>)
    requires
        run_is_located(ps),
    ensures
        trimmed(tuples(ps)) == tuples(ps),
{
    let s = tuples(ps);
    if ps.len() > 0 {
        let n = ps.len() as int;
        assert(is_located(ps[0]));
        assert(is_located(ps[n - 1]));
        lemma_tuple_is_read(ps[0]);
        lemma_tuple_is_read(ps[n - 1]);
        lemma_tuple_stands(ps, 0);
        lemma_tuple_stands(ps, n - 1);
        assert(ps.take(n) =~= ps);
        let first = tuple_text(ps[0]);
        assert(s.subrange(0, first.len() as int)[0] == s[0]);
        assert(!is_white(first[0]));
        let last = tuple_text(ps[n - 1]);
        let q = s.len() - last.len();
        assert(s.subrange(q, s.len() as int)[last.len() - 1] == s[s.len() - 1]);
        assert(!is_white(last[last.len() - 1]));
    }
}

/// The positions of an element whose only child has their coordinates.
proof fn lemma_coordinates_are_read(name: Seq<char>, ps: Seq<Position<Seq<char>>>)
    requires
        run_is_located(ps),
    ensures
        coordinates_of(parent_of(name, seq![coordinates(ps)])) == Ok::<
            Seq<Position<Seq<char>>>,
            Failure,
        >(plain_run(ps)),
{
    let e = parent_of(name, seq![coordinates(ps)]);
    assert(place_named(e.children, "coordinates"@, 0) == 0);
    lemma_tuples_are_trimmed(ps);
    lemma_tuples_are_read(ps, 0);
    assert(ps.take(0) =~= Seq::empty());
    assert(tuples(ps.take(0)).len() == 0);
    assert(plain_run(ps).take(0) =~= Seq::empty());
}

// --- geometries ----------------------------------------------------------------------------

proof fn lemma_ring_is_read(tag: Seq<char>, ring: Seq<Position<Seq<char>>>)
    requires
        run_is_located(ring),
    ensures
        ring_of(boundary(tag, ring)) == Ok::<Seq<Position<Seq<char>>>, Failure>(plain_run(ring)),
{
    let e = boundary(tag, ring);
    assert(place_named(e.children, "LinearRing"@, 0) == 0);
    lemma_coordinates_are_read("LinearRing"@, ring);
}

proof fn lemma_inner_rings_are_read(rings: Seq<Seq<Position<Seq<char>>>>, i: int)
    requires
        1 <= i <= rings.len(),
        runs_are_located(rings),
    ensures
        inner_from(
            super::writer::polygon_of(rings).children,
            i,
            plain_runs(rings).take(i),
        ) == Ok::<Seq<Seq<Position<Seq<char>>>>, Failure>(plain_runs(rings)),
    decreases rings.len() - i,
{
    let e = super::writer::polygon_of(rings);
    let all = plain_runs(rings);
    if i < rings.len() {
        assert(run_is_located(rings[i]));
        assert(e.children[i] == boundary("innerBoundaryIs"@, rings[i]));
        lemma_ring_is_read("innerBoundaryIs"@, rings[i]);
        lemma_inner_rings_are_read(rings, i + 1);
        assert(all.take(i + 1) =~= all.take(i).push(all[i]));
    } else {
        assert(all.take(i) =~= all);
    }
}

proof fn lemma_polygon_is_read(rings: Seq<Seq<Position<Seq<char>>>>)
    requires
        rings.len() > 0,
        runs_are_located(rings),
    ensures
        super::reader::polygon_of(super::writer::polygon_of(rings)) == Ok::<
            Seq<Seq<Position<Seq<char>>>>,
            Failure,
        >(plain_runs(rings)),
{
    let e = super::writer::polygon_of(rings);
    let all = plain_runs(rings);
    assert(run_is_located(rings[0]));
    assert(e.children[0] == boundary("outerBoundaryIs"@, rings[0]));
    assert(place_named(e.children, "outerBoundaryIs"@, 0) == 0);
    lemma_ring_is_read("outerBoundaryIs"@, rings[0]);
    reveal_strlit("outerBoundaryIs");
    reveal_strlit("innerBoundaryIs");
    assert("outerBoundaryIs"@[0] != "innerBoundaryIs"@[0]);
    lemma_inner_rings_are_read(rings, 1);
    assert(all.take(1) =~= seq![plain_run(rings[0])]);
}

/// The names of the elements of geometries differ.
proof fn lemma_geometry_names()
    ensures
        "Point"@ != "LineString"@,
        "Point"@ != "Polygon"@,
        "Point"@ != "MultiGeometry"@,
        "LineString"@ != "Polygon"@,
        "LineString"@ != "MultiGeometry"@,
        "Polygon"@ != "MultiGeometry"@,
{
    reveal_strlit("Point");
    reveal_strlit("LineString");
    reveal_strlit("Polygon");
    reveal_strlit("MultiGeometry");
    assert("Point"@.len() == 5 && "LineString"@.len() == 10 && "Polygon"@.len() == 7
        && "MultiGeometry"@.len() == 13);
}

/// Geometries whose elements are read make up the list.
proof fn lemma_shapes_are_read(children: Seq<Element>, shapes: Seq<Shape<Seq<char>>>, i: int)
    requires
        0 <= i <= children.len() == shapes.len(),
        forall|k: int|
            0 <= k < children.len() ==> is_geometry((#[trigger] children[k]).name) && shape_of(
                children[k],
            ) == Ok::<Shape<Seq<char>>, Failure>(shapes[k]),
    ensures
        shapes_from(children, i, shapes.take(i)) == Ok::<Seq<Shape<Seq<char>>>, Failure>(shapes),
    decreases shapes.len() - i,
{
    if i < shapes.len() {
        assert(is_geometry(children[i].name));
        lemma_shapes_are_read(children, shapes, i + 1);
        assert(shapes.take(i + 1) =~= shapes.take(i).push(shapes[i]));
    } else {
        assert(shapes.take(i) =~= shapes);
    }
}

/// An element with parts is read as its parts combined.
proof fn lemma_parts_are_read(children: Seq<Element>, shapes: Seq<Shape<Seq<char>>>)
    requires
        0 < children.len() == shapes.len(),
        forall|k: int|
            0 <= k < children.len() ==> is_geometry((#[trigger] children[k]).name) && shape_of(
                children[k],
            ) == Ok::<Shape<Seq<char>>, Failure>(shapes[k]),
    ensures
        shape_of(parent_of("MultiGeometry"@, children)) == Ok::<Shape<Seq<char>>, Failure>(
            combined(shapes),
        ),
{
    lemma_geometry_names();
    lemma_shapes_are_read(children, shapes, 0);
    assert(shapes.take(0) =~= Seq::empty());
}

proof fn lemma_point_is_read(p: Position<Seq<char>>)
    requires
        is_located(p),
    ensures
        shape_of(point_of(p)) == Ok::<Shape<Seq<char>>, Failure>(Shape::Point(plain_position(p))),
        is_geometry(point_of(p).name),
{
    assert(run_is_located(seq![p]));
    lemma_coordinates_are_read("Point"@, seq![p]);
}

proof fn lemma_line_is_read(ps: Seq<Position<Seq<char>>>)
    requires
        run_is_located(ps),
    ensures
        shape_of(line_of(ps)) == Ok::<Shape<Seq<char>>, Failure>(Shape::LineString(plain_run(ps))),
        is_geometry(line_of(ps).name),
{
    lemma_geometry_names();
    lemma_coordinates_are_read("LineString"@, ps);
}

proof fn lemma_polygon_element_is_read(rings: Seq<Seq<Position<Seq<char>>>>)
    requires
        rings.len() > 0,
        runs_are_located(rings),
    ensures
        shape_of(super::writer::polygon_of(rings)) == Ok::<Shape<Seq<char>>, Failure>(
            Shape::Polygon(plain_runs(rings)),
        ),
        is_geometry(super::writer::polygon_of(rings).name),
{
    lemma_geometry_names();
    lemma_polygon_is_read(rings);
}

/// A geometry is read back from its element, with X and Y as plain numbers, and
/// a collection of one kind as the plural of the kind.
pub proof fn law_geometry_reads_back(s: Shape<Seq<char>>)
    requires
        is_drawable(s),
    ensures
        shape_of(geometry_element(s)) == Ok::<Shape<Seq<char>>, Failure>(read_as(s)),
        is_geometry(geometry_element(s).name),
    decreases s,
{
    match s {
        Shape::Point(p) => {
            lemma_point_is_read(p);
        },
        Shape::LineString(ps) => {
            lemma_line_is_read(ps);
        },
        Shape::Polygon(rings) => {
            lemma_polygon_element_is_read(rings);
        },
        Shape::MultiPoint(ps) => {
            let e = geometry_element(s);
            let shapes = ps.map_values(|p: Position<Seq<char>>| Shape::Point(plain_position(p)));
            assert forall|k: int| 0 <= k < e.children.len() implies is_geometry(
                (#[trigger] e.children[k]).name,
            ) && shape_of(e.children[k]) == Ok::<Shape<Seq<char>>, Failure>(shapes[k]) by {
                assert(is_located(ps[k]));
                lemma_point_is_read(ps[k]);
            }
            lemma_parts_are_read(e.children, shapes);
            assert(combined(shapes)->MultiPoint_0 =~= plain_run(ps));
        },
        Shape::MultiLineString(lines) => {
            let e = geometry_element(s);
            let shapes = lines.map_values(
                |ps: Seq<Position<Seq<char>>>| Shape::LineString(plain_run(ps)),
            );
            assert forall|k: int| 0 <= k < e.children.len() implies is_geometry(
                (#[trigger] e.children[k]).name,
            ) && shape_of(e.children[k]) == Ok::<Shape<Seq<char>>, Failure>(shapes[k]) by {
                assert(run_is_located(lines[k]));
                lemma_line_is_read(lines[k]);
            }
            lemma_parts_are_read(e.children, shapes);
            assert(!(shapes[0] is Point));
            assert(combined(shapes)->MultiLineString_0 =~= plain_runs(lines));
        },
        Shape::MultiPolygon(polygons) => {
            let e = geometry_element(s);
            let shapes = polygons.map_values(
                |rings: Seq<Seq<Position<Seq<char>>>>| Shape::Polygon(plain_runs(rings)),
            );
            assert forall|k: int| 0 <= k < e.children.len() implies is_geometry(
                (#[trigger] e.children[k]).name,
            ) && shape_of(e.children[k]) == Ok::<Shape<Seq<char>>, Failure>(shapes[k]) by {
                assert(polygons[k].len() > 0 && runs_are_located(polygons[k]));
                lemma_polygon_element_is_read(polygons[k]);
            }
            lemma_parts_are_read(e.children, shapes);
            assert(!(shapes[0] is Point) && !(shapes[0] is LineString));
            assert(combined(shapes)->MultiPolygon_0 =~= read_as(s)->MultiPolygon_0);
        },
        Shape::GeometryCollection(parts) => {
            let e = geometry_element(s);
            let shapes = parts_read_as(parts);
            lemma_parts_read_as(parts, 0);
            assert forall|k: int| 0 <= k < e.children.len() implies is_geometry(
                (#[trigger] e.children[k]).name,
            ) && shape_of(e.children[k]) == Ok::<Shape<Seq<char>>, Failure>(shapes[k]) by {
                assert(is_drawable(parts[k]));
                law_geometry_reads_back(parts[k]);
                lemma_parts_read_as(parts, k);
                assert(e.children[k] == geometry_element(parts[k]));
            }
            lemma_parts_are_read(e.children, shapes);
        },
    }
}

// --- properties ----------------------------------------------------------------------------

/// The value of the first property of a name, of the first `n`.
pub open spec fn first_value(properties: Seq<(Seq<char>, Json)>, key: Seq<char>, n: int) -> Option<Json>
    decreases n,
{
    if n <= 0 {
        None
    } else {
        let before = first_value(properties, key, n - 1);
        if before is Some {
            before
        } else if properties[n - 1].0 == key {
            Some(properties[n - 1].1)
        } else {
            None
        }
    }
}

/// A value as it is read: its text, without white space around it.
pub open spec fn read_value(v: Json) -> Json {
    Json::String(trimmed(property_text(v)))
}

/// A property with an element of its own, as it is read.
pub open spec fn read_own(properties: Seq<(Seq<char>, Json)>, key: Seq<char>) -> Seq<
    (Seq<char>, Json),
> {
    match first_value(properties, key, properties.len() as int) {
        Some(v) => seq![(key, read_value(v))],
        None => Seq::empty(),
    }
}

/// The first `n` properties without an element of their own, as they are read.
pub open spec fn read_data(properties: Seq<(Seq<char>, Json)>, n: int) -> Seq<(Seq<char>, Json)>
    decreases n,
{
    if n <= 0 {
        Seq::empty()
    } else {
        let before = read_data(properties, n - 1);
        let (key, value) = properties[n - 1];
        if is_own(key) {
            before
        } else {
            before.push((key, read_value(value)))
        }
    }
}

/// Properties as they are read: the name and the description first, then the
/// others, and each as text.
pub open spec fn read_properties(properties: Seq<(Seq<char>, Json)>) -> Seq<(Seq<char>, Json)> {
    read_own(properties, "name"@) + read_own(properties, "description"@) + read_data(
        properties,
        properties.len() as int,
    )
}

/// The first element of a name among elements and others that do not have it.
proof fn lemma_place_before(a: Seq<Element>, b: Seq<Element>, name: Seq<char>, i: int)
    requires
        0 <= i <= a.len(),
        forall|k: int| 0 <= k < b.len() ==> (#[trigger] b[k]).name != name,
    ensures
        place_named(a, name, i) < a.len() ==> place_named(a + b, name, i) == place_named(a, name, i),
        place_named(a, name, i) >= a.len() ==> place_named(a + b, name, i) == (a + b).len(),
        i <= place_named(a, name, i) <= a.len(),
    decreases a.len() - i,
{
    if i < a.len() {
        assert((a + b)[i] == a[i]);
        lemma_place_before(a, b, name, i + 1);
    } else {
        lemma_place_none(a + b, name, i);
    }
}

proof fn lemma_place_none(a: Seq<Element>, name: Seq<char>, i: int)
    requires
        0 <= i <= a.len(),
        forall|k: int| i <= k < a.len() ==> (#[trigger] a[k]).name != name,
    ensures
        place_named(a, name, i) == a.len(),
    decreases a.len() - i,
{
    if i < a.len() {
        assert(a[i].name != name);
        lemma_place_none(a, name, i + 1);
    }
}

proof fn lemma_place_last(a: Seq<Element>, last: Element, name: Seq<char>, i: int)
    requires
        0 <= i <= a.len(),
    ensures
        place_named(a, name, i) < a.len() ==> place_named(a.push(last), name, i) == place_named(
            a,
            name,
            i,
        ),
        place_named(a, name, i) >= a.len() && last.name == name ==> place_named(
            a.push(last),
            name,
            i,
        ) == a.len(),
        place_named(a, name, i) >= a.len() && last.name != name ==> place_named(
            a.push(last),
            name,
            i,
        ) == a.len() + 1,
        i <= place_named(a, name, i) <= a.len(),
    decreases a.len() - i,
{
    let longer = a.push(last);
    if i < a.len() {
        assert(longer[i] == a[i]);
        lemma_place_last(a, last, name, i + 1);
    } else {
        assert(longer[i] == last);
        if last.name != name {
            assert(place_named(longer, name, i + 1) == longer.len());
        }
    }
}

/// The first element of its own of a property.
proof fn lemma_own_element_found(properties: Seq<(Seq<char>, Json)>, key: Seq<char>, n: int)
    requires
        0 <= n <= properties.len(),
        is_own(key),
    ensures
        ({
            let own = own_elements(properties, n);
            let i = place_named(own, key, 0);
            match first_value(properties, key, n) {
                Some(v) => 0 <= i < own.len() && own[i] == leaf_of(key, property_text(v)),
                None => i == own.len(),
            }
        }),
    decreases n,
{
    if n > 0 {
        lemma_own_element_found(properties, key, n - 1);
        let before = own_elements(properties, n - 1);
        let (k, v) = properties[n - 1];
        if is_own(k) {
            lemma_place_last(before, leaf_of(k, property_text(v)), key, 0);
        }
    }
}

proof fn lemma_own_names(properties: Seq<(Seq<char>, Json)>, n: int)
    ensures
        forall|i: int|
            0 <= i < own_elements(properties, n).len() ==> is_own(
                (#[trigger] own_elements(properties, n)[i]).name,
            ),
    decreases n,
{
    if n > 0 {
        lemma_own_names(properties, n - 1);
        let before = own_elements(properties, n - 1);
        let after = own_elements(properties, n);
        assert forall|i: int| 0 <= i < after.len() implies is_own((#[trigger] after[i]).name) by {
            if i < before.len() {
                assert(after[i] == before[i]);
            }
        }
    }
}

/// The names in a placemark differ.
proof fn lemma_placemark_names()
    ensures
        "name"@ != "description"@,
        !is_own("ExtendedData"@),
        !is_geometry("ExtendedData"@),
        !is_geometry("name"@),
        !is_geometry("description"@),
        !is_own("Point"@),
        !is_own("LineString"@),
        !is_own("Polygon"@),
        !is_own("MultiGeometry"@),
        "Data"@ != "SchemaData"@,
        "kml"@ != "Placemark"@,
        "Document"@ != "Placemark"@,
{
    reveal_strlit("name");
    reveal_strlit("description");
    reveal_strlit("ExtendedData");
    reveal_strlit("Point");
    reveal_strlit("LineString");
    reveal_strlit("Polygon");
    reveal_strlit("MultiGeometry");
    reveal_strlit("Data");
    reveal_strlit("SchemaData");
    reveal_strlit("kml");
    reveal_strlit("Placemark");
    reveal_strlit("Document");
    assert("name"@.len() == 4 && "description"@.len() == 11 && "ExtendedData"@.len() == 12
        && "Point"@.len() == 5 && "LineString"@.len() == 10 && "Polygon"@.len() == 7
        && "MultiGeometry"@.len() == 13 && "Data"@.len() == 4 && "SchemaData"@.len() == 10
        && "kml"@.len() == 3 && "Placemark"@.len() == 9 && "Document"@.len() == 8);
}

/// How many properties there are among the first `n` without an element of their
/// own, and what stands for each.
proof fn lemma_data_elements(properties: Seq<(Seq<char>, Json)>, n: int)
    ensures
        data_elements(properties, n).len() == read_data(properties, n).len(),
        forall|i: int|
            0 <= i < data_elements(properties, n).len() ==> is_data_for(
                #[trigger] data_elements(properties, n)[i],
                read_data(properties, n)[i],
            ),
    decreases n,
{
    if n > 0 {
        lemma_data_elements(properties, n - 1);
        let (key, value) = properties[n - 1];
        if !is_own(key) {
            lemma_data_is_read(key, value);
            let before = data_elements(properties, n - 1);
            let read = read_data(properties, n - 1);
            let after = before.push(data_of(key, value));
            assert forall|i: int| 0 <= i < after.len() implies is_data_for(
                #[trigger] after[i],
                read.push((key, read_value(value)))[i],
            ) by {
                if i < before.len() {
                    assert(is_data_for(before[i], read[i]));
                }
            }
        }
    }
}

/// Whether an element is read as a property.
pub open spec fn is_data_for(e: Element, p: (Seq<char>, Json)) -> bool {
    &&& e.name == "Data"@
    &&& e.attr("name"@) == Some(p.0)
    &&& e.child("value"@) is Some
    &&& p.1 == Json::String(trimmed(e.child("value"@)->0.text))
}

proof fn lemma_data_is_read(key: Seq<char>, value: Json)
    ensures
        is_data_for(data_of(key, value), (key, read_value(value))),
{
    let e = data_of(key, value);
    assert(attr_from(e.attrs, "name"@, 0) == Some(key));
    assert(place_named(e.children, "value"@, 0) == 0);
}

proof fn lemma_data_from(
    children: Seq<Element>,
    read: Seq<(Seq<char>, Json)>,
    i: int,
    so_far: Seq<(Seq<char>, Json)>,
)
    requires
        0 <= i <= children.len() == read.len(),
        forall|k: int| 0 <= k < children.len() ==> is_data_for(#[trigger] children[k], read[k]),
    ensures
        data_from(children, i, so_far + read.take(i)) == so_far + read,
    decreases children.len() - i,
{
    if i < children.len() {
        assert(is_data_for(children[i], read[i]));
        lemma_data_from(children, read, i + 1, so_far);
        assert((so_far + read.take(i)).push(read[i]) =~= so_far + read.take(i + 1));
    } else {
        assert(read.take(i) =~= read);
    }
}

proof fn lemma_no_schema(children: Seq<Element>, i: int, so_far: Seq<(Seq<char>, Json)>)
    requires
        0 <= i <= children.len(),
        forall|k: int| 0 <= k < children.len() ==> (#[trigger] children[k]).name == "Data"@,
    ensures
        schema_from(children, i, so_far) == so_far,
    decreases children.len() - i,
{
    lemma_placemark_names();
    if i < children.len() {
        assert(children[i].name == "Data"@);
        lemma_no_schema(children, i + 1, so_far);
    }
}

// --- placemarks ----------------------------------------------------------------------------

/// What stands in a placemark behind the elements of properties of their own.
pub open spec fn placemark_rest(f: Item<Seq<char>, Json>) -> Seq<Element> {
    let data = data_elements(f.properties, f.properties.len() as int);
    (if data.len() == 0 {
        Seq::empty()
    } else {
        seq![parent_of("ExtendedData"@, data)]
    }) + (match f.geometry {
        Some(s) => seq![geometry_element(s)],
        None => Seq::empty(),
    })
}

proof fn lemma_geometry_element_name(s: Shape<Seq<char>>)
    ensures
        is_geometry(geometry_element(s).name),
{
}

proof fn lemma_rest_names(f: Item<Seq<char>, Json>)
    ensures
        forall|k: int|
            0 <= k < placemark_rest(f).len() ==> !is_own((#[trigger] placemark_rest(f)[k]).name),
{
    lemma_placemark_names();
    if let Some(s) = f.geometry {
        lemma_geometry_element_name(s);
    }
}

/// The properties of a placemark are read back.
#[verifier::spinoff_prover]
proof fn lemma_properties_are_read(f: Item<Seq<char>, Json>)
    ensures
        properties_of(placemark_of(f)) == read_properties(f.properties),
{
    let n = f.properties.len() as int;
    let own = own_elements(f.properties, n);
    let rest = placemark_rest(f);
    let e = placemark_of(f);
    let data = data_elements(f.properties, n);
    let read = read_data(f.properties, n);
    assert(e.children =~= own + rest);
    lemma_placemark_names();
    lemma_rest_names(f);
    lemma_own_names(f.properties, n);
    lemma_own_element_found(f.properties, "name"@, n);
    lemma_own_element_found(f.properties, "description"@, n);
    assert forall|k: int| 0 <= k < rest.len() implies (#[trigger] rest[k]).name != "name"@
        && rest[k].name != "description"@ by {
        assert(!is_own(rest[k].name));
    }
    lemma_place_before(own, rest, "name"@, 0);
    lemma_place_before(own, rest, "description"@, 0);
    let named = text_property(e, "name"@, Seq::empty());
    assert(named =~= read_own(f.properties, "name"@));
    let described = text_property(e, "description"@, named);
    assert(described =~= named + read_own(f.properties, "description"@));
    lemma_data_elements(f.properties, n);
    if data.len() == 0 {
        assert forall|k: int| 0 <= k < e.children.len() implies (#[trigger] e.children[k]).name
            != "ExtendedData"@ by {
            if k < own.len() {
                assert(is_own(own[k].name));
            } else if let Some(s) = f.geometry {
                lemma_geometry_element_name(s);
            }
        }
        lemma_place_none(e.children, "ExtendedData"@, 0);
        assert(read =~= Seq::empty());
        assert(described =~= read_properties(f.properties));
    } else {
        let x = parent_of("ExtendedData"@, data);
        assert(e.children[own.len() as int] == x);
        lemma_extended_place(own, e.children, own.len() as int, 0);
        lemma_data_from(data, read, 0, described);
        assert(described + read.take(0) =~= described);
        assert forall|k: int| 0 <= k < data.len() implies (#[trigger] data[k]).name == "Data"@ by {
            assert(is_data_for(data[k], read[k]));
        }
        lemma_no_schema(data, 0, described + read);
        assert(described + read =~= read_properties(f.properties));
    }
}

proof fn lemma_extended_place(own: Seq<Element>, children: Seq<Element>, at: int, i: int)
    requires
        0 <= i <= at == own.len() < children.len(),
        forall|k: int| 0 <= k < at ==> children[k] == #[trigger] own[k] && is_own(own[k].name),
        children[at].name == "ExtendedData"@,
    ensures
        place_named(children, "ExtendedData"@, i) == at,
    decreases at - i,
{
    lemma_placemark_names();
    if i < at {
        assert(children[i] == own[i]);
        lemma_extended_place(own, children, at, i + 1);
    }
}

proof fn lemma_geometry_place(children: Seq<Element>, at: int, i: int)
    requires
        0 <= i <= at <= children.len(),
        forall|k: int| 0 <= k < at ==> !is_geometry((#[trigger] children[k]).name),
        at < children.len() ==> is_geometry(children[at].name),
    ensures
        geometry_place(children, i) == at,
    decreases at - i,
{
    if i < at {
        assert(!is_geometry(children[i].name));
        lemma_geometry_place(children, at, i + 1);
    }
}

/// A feature as it is read.
pub open spec fn read_feature(f: Item<Seq<char>, Json>) -> Item<Seq<char>, Json> {
    Item {
        geometry: match f.geometry {
            Some(s) => Some(read_as(s)),
            None => None,
        },
        properties: read_properties(f.properties),
    }
}

/// A feature is read back from its placemark.
pub proof fn law_feature_reads_back(f: Item<Seq<char>, Json>)
    requires
        f.geometry matches Some(s) ==> is_drawable(s),
    ensures
        feature_of(placemark_of(f)) == Ok::<Item<Seq<char>, Json>, Failure>(read_feature(f)),
{
    let n = f.properties.len() as int;
    let own = own_elements(f.properties, n);
    let rest = placemark_rest(f);
    let e = placemark_of(f);
    assert(e.children =~= own + rest);
    lemma_placemark_names();
    lemma_own_names(f.properties, n);
    lemma_properties_are_read(f);
    let at = if f.geometry is Some {
        e.children.len() - 1
    } else {
        e.children.len() as int
    };
    assert forall|k: int| 0 <= k < at implies !is_geometry((#[trigger] e.children[k]).name) by {
        if k < own.len() {
            assert(is_own(own[k].name));
        }
    }
    if let Some(s) = f.geometry {
        law_geometry_reads_back(s);
        assert(e.children[at] == geometry_element(s));
    }
    lemma_geometry_place(e.children, at, 0);
}

proof fn lemma_placemarks_are_read(
    children: Seq<Element>,
    features: Seq<Item<Seq<char>, Json>>,
    i: int,
)
    requires
        0 <= i <= features.len() == children.len(),
        forall|k: int| 0 <= k < features.len() ==> #[trigger] children[k] == placemark_of(features[k]),
        forall|k: int|
            0 <= k < features.len() ==> ((#[trigger] features[k]).geometry matches Some(s)
                ==> is_drawable(s)),
    ensures
        placemarks_from(
            children,
            i,
            features.map_values(|f: Item<Seq<char>, Json>| read_feature(f)).take(i),
        ) == Ok::<Seq<Item<Seq<char>, Json>>, Failure>(
            features.map_values(|f: Item<Seq<char>, Json>| read_feature(f)),
        ),
    decreases features.len() - i,
{
    let all = features.map_values(|f: Item<Seq<char>, Json>| read_feature(f));
    if i < features.len() {
        let f = features[i];
        assert(children[i] == placemark_of(features[i]));
        assert(features[i].geometry matches Some(s) ==> is_drawable(s));
        law_feature_reads_back(f);
        assert(placemarks(children[i], all.take(i)) == Ok::<
            Seq<Item<Seq<char>, Json>>,
            Failure,
        >(all.take(i).push(read_feature(f))));
        lemma_placemarks_are_read(children, features, i + 1);
        assert(all.take(i + 1) =~= all.take(i).push(all[i]));
    } else {
        assert(all.take(i) =~= all);
    }
}

/// Whether every feature's geometry can be read back.
pub open spec fn are_drawable(features: Seq<Item<Seq<char>, Json>>) -> bool {
    forall|k: int|
        0 <= k < features.len() ==> ((#[trigger] features[k]).geometry matches Some(s)
            ==> is_drawable(s))
}

/// The features of a document are read back from its elements.
pub proof fn law_document_elements_read_back(features: Seq<Item<Seq<char>, Json>>)
    requires
        are_drawable(features),
    ensures
        placemarks(document_of(features), Seq::empty()) == Ok::<
            Seq<Item<Seq<char>, Json>>,
            Failure,
        >(features.map_values(|f: Item<Seq<char>, Json>| read_feature(f))),
{
    let e = document_of(features);
    let d = e.children[0];
    let all = features.map_values(|f: Item<Seq<char>, Json>| read_feature(f));
    lemma_placemark_names();
    assert forall|k: int| 0 <= k < features.len() implies #[trigger] d.children[k] == placemark_of(
        features[k],
    ) by {}
    lemma_placemarks_are_read(d.children, features, 0);
    assert(all.take(0) =~= Seq::empty());
    assert(placemarks(d, Seq::empty()) == Ok::<Seq<Item<Seq<char>, Json>>, Failure>(all));
    reveal_with_fuel(placemarks_from, 3);
    assert(placemarks_from(e.children, 1, all) == Ok::<Seq<Item<Seq<char>, Json>>, Failure>(all));
    assert(placemarks_from(e.children, 0, Seq::empty()) == placemarks_from(e.children, 1, all));
}

// --- names ---------------------------------------------------------------------------------

proof fn lemma_names_are_names()
    ensures
        is_name("kml"@),
        is_name("xmlns"@),
        is_name("Document"@),
        is_name("Placemark"@),
        is_name("name"@),
        is_name("description"@),
        is_name("ExtendedData"@),
        is_name("Data"@),
        is_name("value"@),
{
    reveal_strlit("kml");
    reveal_strlit("xmlns");
    reveal_strlit("Document");
    reveal_strlit("Placemark");
    reveal_strlit("name");
    reveal_strlit("description");
    reveal_strlit("ExtendedData");
    reveal_strlit("Data");
    reveal_strlit("value");
}

proof fn lemma_geometry_names_are_names()
    ensures
        is_name("Point"@),
        is_name("LineString"@),
        is_name("Polygon"@),
        is_name("MultiGeometry"@),
        is_name("LinearRing"@),
        is_name("coordinates"@),
        is_name("outerBoundaryIs"@),
        is_name("innerBoundaryIs"@),
{
    reveal_strlit("Point");
    reveal_strlit("LineString");
    reveal_strlit("Polygon");
    reveal_strlit("MultiGeometry");
    reveal_strlit("LinearRing");
    reveal_strlit("coordinates");
    reveal_strlit("outerBoundaryIs");
    reveal_strlit("innerBoundaryIs");
}

proof fn lemma_leaf_is_well_formed(name: Seq<char>, text: Seq<char>)
    requires
        is_name(name),
    ensures
        is_well_formed(leaf_of(name, text)),
{
}

proof fn lemma_parent_is_well_formed(name: Seq<char>, children: Seq<Element>)
    requires
        is_name(name),
        forall|i: int| 0 <= i < children.len() ==> is_well_formed(#[trigger] children[i]),
    ensures
        is_well_formed(parent_of(name, children)),
{
    let e = parent_of(name, children);
    assert forall|i: int| 0 <= i < e.children.len() implies is_well_formed(
        #[trigger] e.children[i],
    ) by {
        assert(e.children[i] == children[i]);
    }
}

proof fn lemma_only_child_is_well_formed(name: Seq<char>, child: Element)
    requires
        is_name(name),
        is_well_formed(child),
    ensures
        is_well_formed(parent_of(name, seq![child])),
{
    lemma_parent_is_well_formed(name, seq![child]);
}

proof fn lemma_run_is_well_formed(name: Seq<char>, ps: Seq<Position<Seq<char>>>)
    requires
        is_name(name),
    ensures
        is_well_formed(parent_of(name, seq![coordinates(ps)])),
{
    lemma_geometry_names_are_names();
    lemma_leaf_is_well_formed("coordinates"@, tuples(ps));
    lemma_only_child_is_well_formed(name, coordinates(ps));
}

proof fn lemma_polygon_is_well_formed(rings: Seq<Seq<Position<Seq<char>>>>)
    ensures
        is_well_formed(super::writer::polygon_of(rings)),
{
    lemma_geometry_names_are_names();
    let e = super::writer::polygon_of(rings);
    assert forall|i: int| 0 <= i < e.children.len() implies is_well_formed(
        #[trigger] e.children[i],
    ) by {
        let tag = if i == 0 {
            "outerBoundaryIs"@
        } else {
            "innerBoundaryIs"@
        };
        assert(e.children[i] == boundary(tag, rings[i]));
        lemma_run_is_well_formed("LinearRing"@, rings[i]);
        lemma_only_child_is_well_formed(tag, parent_of("LinearRing"@, seq![coordinates(rings[i])]));
    }
    lemma_parent_is_well_formed("Polygon"@, e.children);
}

proof fn lemma_geometry_is_well_formed(s: Shape<Seq<char>>)
    ensures
        is_well_formed(geometry_element(s)),
    decreases s,
{
    lemma_geometry_names_are_names();
    let e = geometry_element(s);
    match s {
        Shape::Point(p) => {
            lemma_run_is_well_formed("Point"@, seq![p]);
        },
        Shape::LineString(ps) => {
            lemma_run_is_well_formed("LineString"@, ps);
        },
        Shape::Polygon(rings) => {
            lemma_polygon_is_well_formed(rings);
        },
        Shape::MultiPoint(ps) => {
            assert forall|i: int| 0 <= i < e.children.len() implies is_well_formed(
                #[trigger] e.children[i],
            ) by {
                assert(e.children[i] == point_of(ps[i]));
                lemma_run_is_well_formed("Point"@, seq![ps[i]]);
            }
            lemma_parent_is_well_formed("MultiGeometry"@, e.children);
        },
        Shape::MultiLineString(lines) => {
            assert forall|i: int| 0 <= i < e.children.len() implies is_well_formed(
                #[trigger] e.children[i],
            ) by {
                assert(e.children[i] == line_of(lines[i]));
                lemma_run_is_well_formed("LineString"@, lines[i]);
            }
            lemma_parent_is_well_formed("MultiGeometry"@, e.children);
        },
        Shape::MultiPolygon(polygons) => {
            assert forall|i: int| 0 <= i < e.children.len() implies is_well_formed(
                #[trigger] e.children[i],
            ) by {
                assert(e.children[i] == super::writer::polygon_of(polygons[i]));
                lemma_polygon_is_well_formed(polygons[i]);
            }
            lemma_parent_is_well_formed("MultiGeometry"@, e.children);
        },
        Shape::GeometryCollection(parts) => {
            assert forall|i: int| 0 <= i < e.children.len() implies is_well_formed(
                #[trigger] e.children[i],
            ) by {
                assert(e.children[i] == geometry_element(parts[i]));
                lemma_geometry_is_well_formed(parts[i]);
            }
            lemma_parent_is_well_formed("MultiGeometry"@, e.children);
        },
    }
}

proof fn lemma_own_elements_are_well_formed(properties: Seq<(Seq<char>, Json)>, n: int)
    ensures
        forall|i: int|
            0 <= i < own_elements(properties, n).len() ==> is_well_formed(
                #[trigger] own_elements(properties, n)[i],
            ),
    decreases n,
{
    if n > 0 {
        lemma_own_elements_are_well_formed(properties, n - 1);
        lemma_names_are_names();
        let (key, value) = properties[n - 1];
        if is_own(key) {
            lemma_leaf_is_well_formed(key, property_text(value));
        }
        let before = own_elements(properties, n - 1);
        let after = own_elements(properties, n);
        assert forall|i: int| 0 <= i < after.len() implies is_well_formed(#[trigger] after[i]) by {
            if i < before.len() {
                assert(after[i] == before[i]);
            }
        }
    }
}

proof fn lemma_data_elements_are_well_formed(properties: Seq<(Seq<char>, Json)>, n: int)
    ensures
        forall|i: int|
            0 <= i < data_elements(properties, n).len() ==> is_well_formed(
                #[trigger] data_elements(properties, n)[i],
            ),
    decreases n,
{
    if n > 0 {
        lemma_data_elements_are_well_formed(properties, n - 1);
        lemma_names_are_names();
        let (key, value) = properties[n - 1];
        if !is_own(key) {
            let e = data_of(key, value);
            lemma_leaf_is_well_formed("value"@, property_text(value));
            assert(have_names(e.attrs));
            assert(is_well_formed(e)) by {
                assert forall|i: int| 0 <= i < e.children.len() implies is_well_formed(
                    #[trigger] e.children[i],
                ) by {}
            }
        }
        let before = data_elements(properties, n - 1);
        let after = data_elements(properties, n);
        assert forall|i: int| 0 <= i < after.len() implies is_well_formed(#[trigger] after[i]) by {
            if i < before.len() {
                assert(after[i] == before[i]);
            }
        }
    }
}

proof fn lemma_placemark_is_well_formed(f: Item<Seq<char>, Json>)
    ensures
        is_well_formed(placemark_of(f)),
{
    let n = f.properties.len() as int;
    let own = own_elements(f.properties, n);
    let data = data_elements(f.properties, n);
    let rest = placemark_rest(f);
    let e = placemark_of(f);
    assert(e.children =~= own + rest);
    lemma_names_are_names();
    lemma_own_elements_are_well_formed(f.properties, n);
    lemma_data_elements_are_well_formed(f.properties, n);
    lemma_parent_is_well_formed("ExtendedData"@, data);
    if let Some(s) = f.geometry {
        lemma_geometry_is_well_formed(s);
    }
    assert forall|i: int| 0 <= i < e.children.len() implies is_well_formed(
        #[trigger] e.children[i],
    ) by {
        if i < own.len() {
            assert(e.children[i] == own[i]);
        } else {
            assert(e.children[i] == rest[i - own.len()]);
        }
    }
    lemma_parent_is_well_formed("Placemark"@, e.children);
}

proof fn lemma_document_is_well_formed(features: Seq<Item<Seq<char>, Json>>)
    ensures
        is_well_formed(document_of(features)),
{
    let e = document_of(features);
    let d = e.children[0];
    lemma_names_are_names();
    assert forall|i: int| 0 <= i < d.children.len() implies is_well_formed(
        #[trigger] d.children[i],
    ) by {
        assert(d.children[i] == placemark_of(features[i]));
        lemma_placemark_is_well_formed(features[i]);
    }
    lemma_parent_is_well_formed("Document"@, d.children);
    assert(have_names(e.attrs));
    assert forall|i: int| 0 <= i < e.children.len() implies is_well_formed(
        #[trigger] e.children[i],
    ) by {
        assert(e.children[i] == d);
    }
}

/// A collection that was written is read back, in WGS 84: its geometries with X,
/// Y and Z as plain numbers, and its properties as text. Not read back are
/// measures, and geometries without a ring or a part.
pub proof fn law_kml_round_trip(features: Seq<Item<Seq<char>, Json>>)
    requires
        are_drawable(features),
    ensures
        collection_of(encode_utf8(document_text(document_of(features)))) == Ok::<
            Items<Seq<char>, Json>,
            Failure,
        >(finished(features.map_values(|f: Item<Seq<char>, Json>| read_feature(f)))),
{
    let text = document_text(document_of(features));
    encode_utf8_valid_utf8(text);
    encode_utf8_decode_utf8(text);
    lemma_document_is_well_formed(features);
    law_document_reads_back(document_of(features));
    law_document_elements_read_back(features);
}

/// What is read of the archive that a collection is written as is what is read
/// of its KML text.
pub proof fn law_archive_reads_as_its_text(features: Seq<Item<Seq<char>, Json>>)
    ensures
        archive_collection(
            seq![("doc.kml"@, encode_utf8(document_text(document_of(features))))],
        ) == collection_of(encode_utf8(document_text(document_of(features)))),
{
    let bytes = encode_utf8(document_text(document_of(features)));
    let entries = seq![("doc.kml"@, bytes)];
    let name = lower_text("doc.kml"@);
    reveal_strlit("doc.kml");
    reveal_strlit(".kml");
    assert(name.len() == 7 && name[3] == '.' && name[4] == 'k' && name[5] == 'm' && name[6] == 'l');
    assert(name.subrange(3, 7) =~= ".kml"@);
    assert(is_kml_name(entries[0].0));
    encode_utf8_valid_utf8(document_text(document_of(features)));
    reveal_with_fuel(archived_from, 3);
}

} // verus!
