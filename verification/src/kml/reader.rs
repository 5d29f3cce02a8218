//! Reading KML.
//!
//! Coordinates are always longitude and latitude in WGS 84. Documents and folders
//! only group placemarks, and are flattened. A third ordinate is the altitude, and
//! has to be a number.
use vstd::prelude::*;
use vstd::utf8::*;

use super::level::{drop_altitudes, leveled_items};
use crate::crs::system::{Crs, System};
use crate::error::{tagged, Error, Failure};
use crate::feature::{features_view, properties_view, Feature, FeatureCollection, Item, Items};
use crate::geometry::{
    lemma_collection_view, polygons_view, run_view, runs_view, shapes_view, Geometry, Position,
    Shape,
};
use crate::json::value::{Json, JsonValue};
use crate::number::{is_float, is_float_text};
use crate::text::{
    ascii_white, chars_of, find_first, first_place, is_ascii_white, same_text, text_between,
    trimmed, utf8_text,
};
use crate::xml::parser::{parse, root_of, skip_white, white_end};
use crate::xml::{elements_view, lemma_children_view, Element, XmlElement};

verus! {

/// The failure that carries this message.
pub open spec fn failure(message: Seq<char>) -> Failure {
    Failure::Convert("kml: "@ + message)
}

fn err(message: &str) -> (e: Error)
    ensures
        e@ == failure(message@),
{
    Error::Convert(tagged("kml: ", message))
}

/// The failure of an element that lacks another.
pub open spec fn missing(name: Seq<char>, part: Seq<char>) -> Failure {
    failure("<"@ + name + "> missing <"@ + part + ">"@)
}

fn missing_part(name: &str, part: &str) -> (e: Error)
    ensures
        e@ == missing(name@, part@),
{
    let mut m = String::from_str("<");
    m.append(name);
    m.append("> missing <");
    m.append(part);
    m.append(">");
    err(m.as_str())
}

// --- coordinates ---------------------------------------------------------------------

/// The end of the word at `p`.
pub open spec fn word_end(s: Seq<char>, p: int) -> int
    decreases s.len() - p,
{
    if p < 0 || p >= s.len() || is_ascii_white(s[p]) {
        p
    } else {
        word_end(s, p + 1)
    }
}

/// The end of the part that starts at `p`: the next comma, or the end.
pub open spec fn part_end(t: Seq<char>, p: int) -> int {
    match first_place(t, ',', p) {
        Some(q) => q,
        None => t.len() as int,
    }
}

/// The position of a tuple: longitude, latitude and, where it has one, altitude,
/// separated by commas. More parts are left aside.
pub open spec fn tuple_of(t: Seq<char>) -> Option<Position<Seq<char>>> {
    let a = part_end(t, 0);
    let b = part_end(t, a + 1);
    let c = part_end(t, b + 1);
    if a >= t.len() || !is_float_text(t.subrange(0, a)) || !is_float_text(t.subrange(a + 1, b)) || (
    b < t.len() && !is_float_text(t.subrange(b + 1, c))) {
        None
    } else {
        Some(
            Position {
                x: t.subrange(0, a),
                y: t.subrange(a + 1, b),
                z: if b < t.len() {
                    Some(t.subrange(b + 1, c))
                } else {
                    None
                },
                m: None,
            },
        )
    }
}

/// The positions of the tuples from `p` on, which white space separates.
pub open spec fn tuples_from(s: Seq<char>, p: int, so_far: Seq<Position<Seq<char>>>) -> Result<
    Seq<Position<Seq<char>>>,
    Failure,
>
    decreases s.len() - p,
{
    let q = white_end(s, p);
    let e = word_end(s, q);
    if p < 0 || q < p || q >= s.len() || e <= q || e > s.len() {
        Ok(so_far)
    } else {
        match tuple_of(s.subrange(q, e)) {
            Some(position) => tuples_from(s, e, so_far.push(position)),
            None => Err(failure("invalid coordinate tuple \""@ + s.subrange(q, e) + "\""@)),
        }
    }
}

fn skip_word(s: &[char], p: usize) -> (r: usize)
    requires
        p <= s@.len(),
    ensures
        r == word_end(s@, p as int),
        p <= r <= s@.len(),
        p < s@.len() && !is_ascii_white(s@[p as int]) ==> r > p,
{
    let mut r: usize = p;
    while r < s.len() && !ascii_white(s[r])
        invariant
            p <= r <= s@.len(),
            word_end(s@, p as int) == word_end(s@, r as int),
        decreases s@.len() - r,
    {
        r += 1;
    }
    r
}

fn skip_part(t: &[char], p: usize) -> (r: usize)
    requires
        p <= t@.len(),
    ensures
        r == part_end(t@, p as int),
        p <= r <= t@.len(),
{
    match find_first(t, ',', p) {
        Some(q) => q,
        None => t.len(),
    }
}

fn is_float_between(t: &[char], from: usize, to: usize) -> (r: bool)
    requires
        from <= to <= t@.len(),
    ensures
        r == is_float_text(t@.subrange(from as int, to as int)),
{
    let part = vstd::slice::slice_subrange(t, from, to);
    is_float(part)
}

fn parse_tuple(t: &[char]) -> (r: Option<Position<String>>)
    ensures
        match tuple_of(t@) {
            Some(p) => r matches Some(q) && q@ == p,
            None => r is None,
        },
{
    let n: usize = t.len();
    let a = skip_part(t, 0);
    if a >= n {
        return None;
    }
    let b = skip_part(t, a + 1);
    if !is_float_between(t, 0, a) || !is_float_between(t, a + 1, b) {
        return None;
    }
    let z = if b < n {
        let c = skip_part(t, b + 1);
        if !is_float_between(t, b + 1, c) {
            return None;
        }
        Some(text_between(t, b + 1, c))
    } else {
        None
    };
    Some(Position { x: text_between(t, 0, a), y: text_between(t, a + 1, b), z, m: None })
}

/// White space ends at what is not white space, or at the end.
proof fn lemma_white_end_stops(s: Seq<char>, p: int)
    requires
        0 <= p <= s.len(),
    ensures
        white_end(s, p) < s.len() ==> !is_ascii_white(s[white_end(s, p)]),
    decreases s.len() - p,
{
    if p < s.len() && is_ascii_white(s[p]) {
        lemma_white_end_stops(s, p + 1);
    }
}

fn parse_coordinates(text: &str) -> (r: Result<Vec<Position<String>>, Error>)
    ensures
        match tuples_from(text@, 0, Seq::empty()) {
            Ok(ps) => r matches Ok(v) && run_view(v@) == ps,
            Err(e) => r matches Err(f) && f@ == e,
        },
{
    let chars = chars_of(text);
    let s = chars.as_slice();
    let ghost all = tuples_from(s@, 0, Seq::empty());
    let mut out: Vec<Position<String>> = Vec::new();
    let mut p: usize = 0;
    assert(run_view(out@) =~= Seq::empty());
    loop
        invariant
            p <= s@.len(),
            s@ == text@,
            all == tuples_from(s@, 0, Seq::empty()),
            all == tuples_from(s@, p as int, run_view(out@)),
        decreases s@.len() - p,
    {
        let q = skip_white(s, p);
        if q >= s.len() {
            return Ok(out);
        }
        proof {
            lemma_white_end_stops(s@, p as int);
        }
        let e = skip_word(s, q);
        let word = vstd::slice::slice_subrange(s, q, e);
        match parse_tuple(word) {
            Some(position) => {
                let ghost before = run_view(out@);
                out.push(position);
                assert(run_view(out@) =~= before.push(position@));
            },
            None => {
                let mut m = String::from_str("invalid coordinate tuple \"");
                m.append(text_between(s, q, e).as_str());
                m.append("\"");
                return Err(err(m.as_str()));
            },
        }
        p = e;
    }
}

// --- geometry ------------------------------------------------------------------------

/// The positions of an element's coordinates.
pub open spec fn coordinates_of(e: Element) -> Result<Seq<Position<Seq<char>>>, Failure> {
    match e.child("coordinates"@) {
        None => Err(missing(e.name, "coordinates"@)),
        Some(c) => tuples_from(trimmed(c.text), 0, Seq::empty()),
    }
}

/// The ring of a boundary.
pub open spec fn ring_of(boundary: Element) -> Result<Seq<Position<Seq<char>>>, Failure> {
    match boundary.child("LinearRing"@) {
        None => Err(missing(boundary.name, "LinearRing"@)),
        Some(ring) => coordinates_of(ring),
    }
}

/// The rings of the inner boundaries from the child numbered `i` on.
pub open spec fn inner_from(
    children: Seq<Element>,
    i: int,
    so_far: Seq<Seq<Position<Seq<char>>>>,
) -> Result<Seq<Seq<Position<Seq<char>>>>, Failure>
    decreases children.len() - i,
{
    if i < 0 || i >= children.len() {
        Ok(so_far)
    } else if children[i].name != "innerBoundaryIs"@ {
        inner_from(children, i + 1, so_far)
    } else {
        match ring_of(children[i]) {
            Err(e) => Err(e),
            Ok(ring) => inner_from(children, i + 1, so_far.push(ring)),
        }
    }
}

/// The rings of a polygon: the outer boundary, then the inner ones.
pub open spec fn polygon_of(e: Element) -> Result<Seq<Seq<Position<Seq<char>>>>, Failure> {
    match e.child("outerBoundaryIs"@) {
        None => Err(failure("<Polygon> missing <outerBoundaryIs>"@)),
        Some(outer) => match ring_of(outer) {
            Err(e) => Err(e),
            Ok(ring) => inner_from(e.children, 0, seq![ring]),
        },
    }
}

/// Whether an element of a name is a geometry.
pub open spec fn is_geometry(name: Seq<char>) -> bool {
    name == "Point"@ || name == "LineString"@ || name == "Polygon"@ || name == "MultiGeometry"@
}

/// The geometry of an element.
pub open spec fn shape_of(e: Element) -> Result<Shape<Seq<char>>, Failure>
    decreases e, 0int,
{
    if e.name == "Point"@ {
        match coordinates_of(e) {
            Err(e) => Err(e),
            Ok(ps) => if ps.len() == 0 {
                Err(failure("<Point><coordinates> is empty"@))
            } else {
                Ok(Shape::Point(ps[0]))
            },
        }
    } else if e.name == "LineString"@ {
        match coordinates_of(e) {
            Err(e) => Err(e),
            Ok(ps) => Ok(Shape::LineString(ps)),
        }
    } else if e.name == "Polygon"@ {
        match polygon_of(e) {
            Err(e) => Err(e),
            Ok(rings) => Ok(Shape::Polygon(rings)),
        }
    } else {
        match shapes_from(e.children, 0, Seq::empty()) {
            Err(e) => Err(e),
            Ok(shapes) => if shapes.len() == 0 {
                Err(failure("<MultiGeometry> has no recognized child geometries"@))
            } else {
                Ok(combined(shapes))
            },
        }
    }
}

/// The geometries among elements, from the one numbered `i` on.
pub open spec fn shapes_from(children: Seq<Element>, i: int, so_far: Seq<Shape<Seq<char>>>) -> Result<
    Seq<Shape<Seq<char>>>,
    Failure,
>
    decreases children, children.len() - i,
{
    if i < 0 || i >= children.len() {
        Ok(so_far)
    } else if !is_geometry(children[i].name) {
        shapes_from(children, i + 1, so_far)
    } else {
        match shape_of(children[i]) {
            Err(e) => Err(e),
            Ok(s) => shapes_from(children, i + 1, so_far.push(s)),
        }
    }
}

pub open spec fn all_points(shapes: Seq<Shape<Seq<char>>>) -> bool {
    forall|i: int| 0 <= i < shapes.len() ==> (#[trigger] shapes[i]) is Point
}

pub open spec fn all_lines(shapes: Seq<Shape<Seq<char>>>) -> bool {
    forall|i: int| 0 <= i < shapes.len() ==> (#[trigger] shapes[i]) is LineString
}

pub open spec fn all_polygons(shapes: Seq<Shape<Seq<char>>>) -> bool {
    forall|i: int| 0 <= i < shapes.len() ==> (#[trigger] shapes[i]) is Polygon
}

/// Geometries as one: those of one kind become the plural of the kind, others a
/// collection.
pub open spec fn combined(shapes: Seq<Shape<Seq<char>>>) -> Shape<Seq<char>> {
    if all_points(shapes) {
        Shape::MultiPoint(shapes.map_values(|s: Shape<Seq<char>>| s->Point_0))
    } else if all_lines(shapes) {
        Shape::MultiLineString(shapes.map_values(|s: Shape<Seq<char>>| s->LineString_0))
    } else if all_polygons(shapes) {
        Shape::MultiPolygon(shapes.map_values(|s: Shape<Seq<char>>| s->Polygon_0))
    } else {
        Shape::GeometryCollection(shapes)
    }
}

fn element_coordinates(e: &XmlElement) -> (r: Result<Vec<Position<String>>, Error>)
    ensures
        match coordinates_of(e@) {
            Ok(ps) => r matches Ok(v) && run_view(v@) == ps,
            Err(x) => r matches Err(f) && f@ == x,
        },
{
    match e.child("coordinates") {
        Some(c) => parse_coordinates(c.text_trimmed().as_str()),
        None => Err(missing_part(e.name.as_str(), "coordinates")),
    }
}

fn parse_ring(boundary: &XmlElement) -> (r: Result<Vec<Position<String>>, Error>)
    ensures
        match ring_of(boundary@) {
            Ok(ps) => r matches Ok(v) && run_view(v@) == ps,
            Err(x) => r matches Err(f) && f@ == x,
        },
{
    match boundary.child("LinearRing") {
        Some(ring) => element_coordinates(ring),
        None => Err(missing_part(boundary.name.as_str(), "LinearRing")),
    }
}

fn parse_polygon(e: &XmlElement) -> (r: Result<Vec<Vec<Position<String>>>, Error>)
    ensures
        match polygon_of(e@) {
            Ok(rings) => r matches Ok(v) && runs_view(v@) == rings,
            Err(x) => r matches Err(f) && f@ == x,
        },
{
    let ghost all = polygon_of(e@);
    let outer = match e.child("outerBoundaryIs") {
        Some(o) => o,
        None => {
            return Err(err("<Polygon> missing <outerBoundaryIs>"));
        },
    };
    let mut rings: Vec<Vec<Position<String>>> = Vec::new();
    let ring = parse_ring(outer)?;
    let ghost first = run_view(ring@);
    rings.push(ring);
    assert(runs_view(rings@) =~= seq![first]);
    proof {
        lemma_children_view(*e);
    }
    let mut i: usize = 0;
    while i < e.children.len()
        invariant
            i <= e.children@.len(),
            e@.children == elements_view(e.children@),
            all == polygon_of(e@),
            all == inner_from(e@.children, i as int, runs_view(rings@)),
        decreases e.children@.len() - i,
    {
        assert(e@.children[i as int] == e.children@[i as int]@);
        if same_text(e.children[i].name.as_str(), "innerBoundaryIs") {
            let ring = parse_ring(&e.children[i])?;
            let ghost before = runs_view(rings@);
            rings.push(ring);
            assert(runs_view(rings@) =~= before.push(run_view(ring@)));
        }
        i += 1;
    }
    Ok(rings)
}

fn names_geometry(name: &str) -> (r: bool)
    ensures
        r == is_geometry(name@),
{
    same_text(name, "Point") || same_text(name, "LineString") || same_text(name, "Polygon")
        || same_text(name, "MultiGeometry")
}

fn parse_geometry(e: &XmlElement) -> (r: Result<Geometry<String>, Error>)
    ensures
        match shape_of(e@) {
            Ok(s) => r matches Ok(g) && g@ == s,
            Err(x) => r matches Err(f) && f@ == x,
        },
    decreases e,
{
    if same_text(e.name.as_str(), "Point") {
        let ps = element_coordinates(e)?;
        let mut ps = ps;
        if ps.len() == 0 {
            return Err(err("<Point><coordinates> is empty"));
        }
        let ghost first = run_view(ps@)[0];
        let p = ps.swap_remove(0);
        assert(p@ == first);
        return Ok(Geometry::Point(p));
    }
    if same_text(e.name.as_str(), "LineString") {
        return Ok(Geometry::LineString(element_coordinates(e)?));
    }
    if same_text(e.name.as_str(), "Polygon") {
        return Ok(Geometry::Polygon(parse_polygon(e)?));
    }
    let ghost wanted = shapes_from(e@.children, 0, Seq::empty());
    let mut geoms: Vec<Geometry<String>> = Vec::new();
    assert(shapes_view(geoms@) =~= Seq::empty());
    proof {
        lemma_children_view(*e);
    }
    let mut i: usize = 0;
    while i < e.children.len()
        invariant
            i <= e.children@.len(),
            e@.children == elements_view(e.children@),
            e@.name != "Point"@ && e@.name != "LineString"@ && e@.name != "Polygon"@,
            wanted == shapes_from(e@.children, 0, Seq::empty()),
            wanted == shapes_from(e@.children, i as int, shapes_view(geoms@)),
        decreases e.children@.len() - i,
    {
        assert(e@.children[i as int] == e.children@[i as int]@);
        if names_geometry(e.children[i].name.as_str()) {
            let g = parse_geometry(&e.children[i])?;
            let ghost before = shapes_view(geoms@);
            geoms.push(g);
            assert(shapes_view(geoms@) =~= before.push(g@));
        }
        i += 1;
    }
    if geoms.len() == 0 {
        return Err(err("<MultiGeometry> has no recognized child geometries"));
    }
    Ok(combine(geoms))
}

fn combine_points(geoms: Vec<Geometry<String>>) -> (r: Vec<Position<String>>)
    requires
        all_points(shapes_view(geoms@)),
    ensures
        run_view(r@) == shapes_view(geoms@).map_values(|s: Shape<Seq<char>>| s->Point_0),
{
    let ghost shapes = shapes_view(geoms@);
    let ghost all = shapes.map_values(|s: Shape<Seq<char>>| s->Point_0);
    let mut r: Vec<Position<String>> = Vec::new();
    let mut i: usize = 0;
    while i < geoms.len()
        invariant
            i <= geoms@.len(),
            shapes == shapes_view(geoms@),
            all == shapes.map_values(|s: Shape<Seq<char>>| s->Point_0),
            all_points(shapes),
            run_view(r@) == all.take(i as int),
        decreases geoms@.len() - i,
    {
        assert(shapes[i as int] == geoms@[i as int]@);
        assert(shapes[i as int] is Point);
        if let Geometry::Point(p) = &geoms[i] {
            let copy = copy_position(p);
            let ghost before = run_view(r@);
            r.push(copy);
            assert(run_view(r@) =~= before.push(p@));
            assert(all.take(i + 1) =~= all.take(i as int).push(p@));
        }
        i += 1;
    }
    assert(all.take(i as int) =~= all);
    r
}

fn copy_position(p: &Position<String>) -> (r: Position<String>)
    ensures
        r@ == p@,
{
    Position {
        x: String::from_str(p.x.as_str()),
        y: String::from_str(p.y.as_str()),
        z: crate::text::opt_clone(&p.z),
        m: crate::text::opt_clone(&p.m),
    }
}

fn copy_run(run: &Vec<Position<String>>) -> (r: Vec<Position<String>>)
    ensures
        run_view(r@) == run_view(run@),
{
    let mut r: Vec<Position<String>> = Vec::new();
    let mut i: usize = 0;
    while i < run.len()
        invariant
            i <= run@.len(),
            run_view(r@) == run_view(run@).take(i as int),
        decreases run@.len() - i,
    {
        let p = copy_position(&run[i]);
        let ghost before = run_view(r@);
        r.push(p);
        assert(run_view(r@) =~= before.push(p@));
        assert(run_view(run@).take(i + 1) =~= run_view(run@).take(i as int).push(run@[i as int]@));
        i += 1;
    }
    assert(run_view(run@).take(i as int) =~= run_view(run@));
    r
}

fn copy_runs(runs: &Vec<Vec<Position<String>>>) -> (r: Vec<Vec<Position<String>>>)
    ensures
        runs_view(r@) == runs_view(runs@),
{
    let mut r: Vec<Vec<Position<String>>> = Vec::new();
    let mut i: usize = 0;
    while i < runs.len()
        invariant
            i <= runs@.len(),
            runs_view(r@) == runs_view(runs@).take(i as int),
        decreases runs@.len() - i,
    {
        let run = copy_run(&runs[i]);
        let ghost before = runs_view(r@);
        r.push(run);
        assert(runs_view(r@) =~= before.push(run_view(run@)));
        assert(runs_view(runs@).take(i + 1) =~= runs_view(runs@).take(i as int).push(
            run_view(runs@[i as int]@),
        ));
        i += 1;
    }
    assert(runs_view(runs@).take(i as int) =~= runs_view(runs@));
    r
}

fn combine_lines(geoms: Vec<Geometry<String>>) -> (r: Vec<Vec<Position<String>>>)
    requires
        all_lines(shapes_view(geoms@)),
    ensures
        runs_view(r@) == shapes_view(geoms@).map_values(|s: Shape<Seq<char>>| s->LineString_0),
{
    let ghost shapes = shapes_view(geoms@);
    let ghost all = shapes.map_values(|s: Shape<Seq<char>>| s->LineString_0);
    let mut r: Vec<Vec<Position<String>>> = Vec::new();
    let mut i: usize = 0;
    while i < geoms.len()
        invariant
            i <= geoms@.len(),
            shapes == shapes_view(geoms@),
            all == shapes.map_values(|s: Shape<Seq<char>>| s->LineString_0),
            all_lines(shapes),
            runs_view(r@) == all.take(i as int),
        decreases geoms@.len() - i,
    {
        assert(shapes[i as int] == geoms@[i as int]@);
        assert(shapes[i as int] is LineString);
        if let Geometry::LineString(run) = &geoms[i] {
            let copy = copy_run(run);
            let ghost before = runs_view(r@);
            r.push(copy);
            assert(runs_view(r@) =~= before.push(run_view(run@)));
            assert(all.take(i + 1) =~= all.take(i as int).push(run_view(run@)));
        }
        i += 1;
    }
    assert(all.take(i as int) =~= all);
    r
}

fn combine_polygons(geoms: Vec<Geometry<String>>) -> (r: Vec<Vec<Vec<Position<String>>>>)
    requires
        all_polygons(shapes_view(geoms@)),
    ensures
        polygons_view(r@) == shapes_view(geoms@).map_values(|s: Shape<Seq<char>>| s->Polygon_0),
{
    let ghost shapes = shapes_view(geoms@);
    let ghost all = shapes.map_values(|s: Shape<Seq<char>>| s->Polygon_0);
    let mut r: Vec<Vec<Vec<Position<String>>>> = Vec::new();
    let mut i: usize = 0;
    while i < geoms.len()
        invariant
            i <= geoms@.len(),
            shapes == shapes_view(geoms@),
            all == shapes.map_values(|s: Shape<Seq<char>>| s->Polygon_0),
            all_polygons(shapes),
            polygons_view(r@) == all.take(i as int),
        decreases geoms@.len() - i,
    {
        assert(shapes[i as int] == geoms@[i as int]@);
        assert(shapes[i as int] is Polygon);
        if let Geometry::Polygon(rings) = &geoms[i] {
            let copy = copy_runs(rings);
            let ghost before = polygons_view(r@);
            r.push(copy);
            assert(polygons_view(r@) =~= before.push(runs_view(rings@)));
            assert(all.take(i + 1) =~= all.take(i as int).push(runs_view(rings@)));
        }
        i += 1;
    }
    assert(all.take(i as int) =~= all);
    r
}

fn combine(geoms: Vec<Geometry<String>>) -> (r: Geometry<String>)
    ensures
        r@ == combined(shapes_view(geoms@)),
{
    let ghost shapes = shapes_view(geoms@);
    let mut points = true;
    let mut lines = true;
    let mut polygons = true;
    let mut i: usize = 0;
    while i < geoms.len()
        invariant
            i <= geoms@.len(),
            shapes == shapes_view(geoms@),
            points == all_points(shapes.take(i as int)),
            lines == all_lines(shapes.take(i as int)),
            polygons == all_polygons(shapes.take(i as int)),
        decreases geoms@.len() - i,
    {
        let ghost s = shapes[i as int];
        assert(s == geoms@[i as int]@);
        let (a, b, c) = match &geoms[i] {
            Geometry::Point(_) => (true, false, false),
            Geometry::LineString(_) => (false, true, false),
            Geometry::Polygon(_) => (false, false, true),
            _ => (false, false, false),
        };
        proof {
            lemma_kinds_of_one_more(shapes, i as int);
        }
        points = points && a;
        lines = lines && b;
        polygons = polygons && c;
        i += 1;
    }
    assert(shapes.take(i as int) =~= shapes);
    if points {
        Geometry::MultiPoint(combine_points(geoms))
    } else if lines {
        Geometry::MultiLineString(combine_lines(geoms))
    } else if polygons {
        Geometry::MultiPolygon(combine_polygons(geoms))
    } else {
        proof {
            lemma_collection_view(geoms);
        }
        Geometry::GeometryCollection(geoms)
    }
}

proof fn lemma_kinds_of_one_more(shapes: Seq<Shape<Seq<char>>>, i: int)
    requires
        0 <= i < shapes.len(),
    ensures
        all_points(shapes.take(i + 1)) == (all_points(shapes.take(i)) && shapes[i] is Point),
        all_lines(shapes.take(i + 1)) == (all_lines(shapes.take(i)) && shapes[i] is LineString),
        all_polygons(shapes.take(i + 1)) == (all_polygons(shapes.take(i)) && shapes[i] is Polygon),
{
    let a = shapes.take(i);
    let b = shapes.take(i + 1);
    assert(b[i] == shapes[i]);
    assert forall|k: int| 0 <= k < i implies #[trigger] a[k] == b[k] by {}
    if all_points(b) {
        assert forall|k: int| 0 <= k < a.len() implies (#[trigger] a[k]) is Point by {
            assert(b[k] is Point);
        }
    }
    if all_lines(b) {
        assert forall|k: int| 0 <= k < a.len() implies (#[trigger] a[k]) is LineString by {
            assert(b[k] is LineString);
        }
    }
    if all_polygons(b) {
        assert forall|k: int| 0 <= k < a.len() implies (#[trigger] a[k]) is Polygon by {
            assert(b[k] is Polygon);
        }
    }
    if all_points(a) && shapes[i] is Point {
        assert forall|k: int| 0 <= k < b.len() implies (#[trigger] b[k]) is Point by {
            if k < i {
                assert(a[k] is Point);
            }
        }
    }
    if all_lines(a) && shapes[i] is LineString {
        assert forall|k: int| 0 <= k < b.len() implies (#[trigger] b[k]) is LineString by {
            if k < i {
                assert(a[k] is LineString);
            }
        }
    }
    if all_polygons(a) && shapes[i] is Polygon {
        assert forall|k: int| 0 <= k < b.len() implies (#[trigger] b[k]) is Polygon by {
            if k < i {
                assert(a[k] is Polygon);
            }
        }
    }
}

// --- properties ----------------------------------------------------------------------

/// The trimmed text of a child, as a property of the child's name.
pub open spec fn text_property(e: Element, name: Seq<char>, so_far: Seq<(Seq<char>, Json)>) -> Seq<
    (Seq<char>, Json),
> {
    match e.child(name) {
        Some(c) => so_far.push((name, Json::String(trimmed(c.text)))),
        None => so_far,
    }
}

/// The properties of the `Data` elements from the one numbered `i` on. One
/// without a name is left aside.
pub open spec fn data_from(children: Seq<Element>, i: int, so_far: Seq<(Seq<char>, Json)>) -> Seq<
    (Seq<char>, Json),
>
    decreases children.len() - i,
{
    if i < 0 || i >= children.len() {
        so_far
    } else if children[i].name != "Data"@ {
        data_from(children, i + 1, so_far)
    } else {
        match children[i].attr("name"@) {
            None => data_from(children, i + 1, so_far),
            Some(key) => data_from(
                children,
                i + 1,
                so_far.push(
                    (
                        key,
                        Json::String(
                            match children[i].child("value"@) {
                                Some(v) => trimmed(v.text),
                                None => Seq::empty(),
                            },
                        ),
                    ),
                ),
            ),
        }
    }
}

/// The properties of the `SimpleData` elements from the one numbered `i` on.
pub open spec fn simple_from(children: Seq<Element>, i: int, so_far: Seq<(Seq<char>, Json)>) -> Seq<
    (Seq<char>, Json),
>
    decreases children.len() - i,
{
    if i < 0 || i >= children.len() {
        so_far
    } else if children[i].name != "SimpleData"@ {
        simple_from(children, i + 1, so_far)
    } else {
        match children[i].attr("name"@) {
            None => simple_from(children, i + 1, so_far),
            Some(key) => simple_from(
                children,
                i + 1,
                so_far.push((key, Json::String(trimmed(children[i].text)))),
            ),
        }
    }
}

/// The properties in the `SchemaData` elements from the one numbered `i` on.
pub open spec fn schema_from(children: Seq<Element>, i: int, so_far: Seq<(Seq<char>, Json)>) -> Seq<
    (Seq<char>, Json),
>
    decreases children.len() - i,
{
    if i < 0 || i >= children.len() {
        so_far
    } else if children[i].name != "SchemaData"@ {
        schema_from(children, i + 1, so_far)
    } else {
        schema_from(children, i + 1, simple_from(children[i].children, 0, so_far))
    }
}

/// The properties of a placemark.
pub open spec fn properties_of(e: Element) -> Seq<(Seq<char>, Json)> {
    let named = text_property(e, "name"@, Seq::empty());
    let described = text_property(e, "description"@, named);
    match e.child("ExtendedData"@) {
        None => described,
        Some(x) => schema_from(x.children, 0, data_from(x.children, 0, described)),
    }
}

fn push_text(e: &XmlElement, name: &str, properties: &mut Vec<(String, JsonValue)>)
    ensures
        properties_view(final(properties)@) == text_property(
            e@,
            name@,
            properties_view(old(properties)@),
        ),
{
    if let Some(c) = e.child(name) {
        let v = JsonValue::String(c.text_trimmed());
        let ghost before = properties_view(properties@);
        let ghost pair = (name@, v@);
        properties.push((String::from_str(name), v));
        assert(properties_view(properties@) =~= before.push(pair));
    }
}

fn push_data(x: &XmlElement, properties: &mut Vec<(String, JsonValue)>)
    ensures
        properties_view(final(properties)@) == data_from(
            x@.children,
            0,
            properties_view(old(properties)@),
        ),
{
    let ghost all = data_from(x@.children, 0, properties_view(properties@));
    proof {
        lemma_children_view(*x);
    }
    let mut i: usize = 0;
    while i < x.children.len()
        invariant
            i <= x.children@.len(),
            x@.children == elements_view(x.children@),
            all == data_from(x@.children, 0, properties_view(old(properties)@)),
            all == data_from(x@.children, i as int, properties_view(properties@)),
        decreases x.children@.len() - i,
    {
        assert(x@.children[i as int] == x.children@[i as int]@);
        let data = &x.children[i];
        if same_text(data.name.as_str(), "Data") {
            if let Some(key) = data.attr("name") {
                let text = match data.child("value") {
                    Some(v) => v.text_trimmed(),
                    None => String::new(),
                };
                let v = JsonValue::String(text);
                let ghost before = properties_view(properties@);
                let ghost pair = (key@, v@);
                properties.push((String::from_str(key), v));
                assert(properties_view(properties@) =~= before.push(pair));
            }
        }
        i += 1;
    }
}

fn push_simple(x: &XmlElement, properties: &mut Vec<(String, JsonValue)>)
    ensures
        properties_view(final(properties)@) == simple_from(
            x@.children,
            0,
            properties_view(old(properties)@),
        ),
{
    let ghost all = simple_from(x@.children, 0, properties_view(properties@));
    proof {
        lemma_children_view(*x);
    }
    let mut i: usize = 0;
    while i < x.children.len()
        invariant
            i <= x.children@.len(),
            x@.children == elements_view(x.children@),
            all == simple_from(x@.children, 0, properties_view(old(properties)@)),
            all == simple_from(x@.children, i as int, properties_view(properties@)),
        decreases x.children@.len() - i,
    {
        assert(x@.children[i as int] == x.children@[i as int]@);
        let simple = &x.children[i];
        if same_text(simple.name.as_str(), "SimpleData") {
            if let Some(key) = simple.attr("name") {
                let v = JsonValue::String(simple.text_trimmed());
                let ghost before = properties_view(properties@);
                let ghost pair = (key@, v@);
                properties.push((String::from_str(key), v));
                assert(properties_view(properties@) =~= before.push(pair));
            }
        }
        i += 1;
    }
}

fn collect_extended_data(x: &XmlElement, properties: &mut Vec<(String, JsonValue)>)
    ensures
        properties_view(final(properties)@) == schema_from(
            x@.children,
            0,
            data_from(x@.children, 0, properties_view(old(properties)@)),
        ),
{
    push_data(x, properties);
    let ghost start = properties_view(properties@);
    let ghost all = schema_from(x@.children, 0, start);
    proof {
        lemma_children_view(*x);
    }
    let mut i: usize = 0;
    while i < x.children.len()
        invariant
            i <= x.children@.len(),
            x@.children == elements_view(x.children@),
            start == data_from(x@.children, 0, properties_view(old(properties)@)),
            all == schema_from(x@.children, 0, start),
            all == schema_from(x@.children, i as int, properties_view(properties@)),
        decreases x.children@.len() - i,
    {
        assert(x@.children[i as int] == x.children@[i as int]@);
        if same_text(x.children[i].name.as_str(), "SchemaData") {
            push_simple(&x.children[i], properties);
        }
        i += 1;
    }
}

// --- placemarks ----------------------------------------------------------------------

/// Where the first geometry stands, from `i` on.
pub open spec fn geometry_place(children: Seq<Element>, i: int) -> int
    decreases children.len() - i,
{
    if i < 0 || i >= children.len() {
        children.len() as int
    } else if is_geometry(children[i].name) {
        i
    } else {
        geometry_place(children, i + 1)
    }
}

/// The feature of a placemark: its first geometry, and its properties.
pub open spec fn feature_of(e: Element) -> Result<Item<Seq<char>, Json>, Failure> {
    let i = geometry_place(e.children, 0);
    if 0 <= i < e.children.len() {
        match shape_of(e.children[i]) {
            Err(x) => Err(x),
            Ok(s) => Ok(Item { geometry: Some(s), properties: properties_of(e) }),
        }
    } else {
        Ok(Item { geometry: None, properties: properties_of(e) })
    }
}

/// The features of the placemarks anywhere in an element.
pub open spec fn placemarks(e: Element, so_far: Seq<Item<Seq<char>, Json>>) -> Result<
    Seq<Item<Seq<char>, Json>>,
    Failure,
>
    decreases e, 0int,
{
    if e.name == "Placemark"@ {
        match feature_of(e) {
            Err(x) => Err(x),
            Ok(f) => Ok(so_far.push(f)),
        }
    } else {
        placemarks_from(e.children, 0, so_far)
    }
}

/// The features of the placemarks in elements, from the one numbered `i` on.
pub open spec fn placemarks_from(
    children: Seq<Element>,
    i: int,
    so_far: Seq<Item<Seq<char>, Json>>,
) -> Result<Seq<Item<Seq<char>, Json>>, Failure>
    decreases children, children.len() - i,
{
    if i < 0 || i >= children.len() {
        Ok(so_far)
    } else {
        match placemarks(children[i], so_far) {
            Err(e) => Err(e),
            Ok(features) => placemarks_from(children, i + 1, features),
        }
    }
}

/// The features of a document, after others.
pub open spec fn placemarks_of_text(text: Seq<char>, so_far: Seq<Item<Seq<char>, Json>>) -> Result<
    Seq<Item<Seq<char>, Json>>,
    Failure,
> {
    match root_of(text) {
        Err(e) => Err(e),
        Ok(root) => placemarks(root, so_far),
    }
}

/// Features as a collection, in WGS 84.
pub open spec fn finished(features: Seq<Item<Seq<char>, Json>>) -> Items<Seq<char>, Json> {
    Items { features, crs: Some(System::Wgs84) }
}

/// The collection of a file.
pub open spec fn collection_of(input: Seq<u8>) -> Result<Items<Seq<char>, Json>, Failure> {
    if !valid_utf8(input) {
        Err(failure("input is not valid utf-8"@))
    } else {
        match placemarks_of_text(decode_utf8(input), Seq::empty()) {
            Err(e) => Err(e),
            Ok(features) => Ok(finished(features)),
        }
    }
}

fn placemark_to_feature(e: &XmlElement) -> (r: Result<Feature<String, JsonValue>, Error>)
    ensures
        match feature_of(e@) {
            Ok(f) => r matches Ok(x) && x@ == f,
            Err(x) => r matches Err(f) && f@ == x,
        },
{
    let mut properties: Vec<(String, JsonValue)> = Vec::new();
    assert(properties_view(properties@) =~= Seq::empty());
    push_text(e, "name", &mut properties);
    push_text(e, "description", &mut properties);
    if let Some(x) = e.child("ExtendedData") {
        collect_extended_data(x, &mut properties);
    }
    assert(properties_view(properties@) == properties_of(e@));
    proof {
        lemma_children_view(*e);
    }
    let mut i: usize = 0;
    while i < e.children.len() && !names_geometry(e.children[i].name.as_str())
        invariant
            i <= e.children@.len(),
            e@.children == elements_view(e.children@),
            geometry_place(e@.children, 0) == geometry_place(e@.children, i as int),
        decreases e.children@.len() - i,
    {
        assert(e@.children[i as int] == e.children@[i as int]@);
        i += 1;
    }
    if i < e.children.len() {
        assert(e@.children[i as int] == e.children@[i as int]@);
        let g = parse_geometry(&e.children[i])?;
        Ok(Feature { geometry: Some(g), properties })
    } else {
        Ok(Feature { geometry: None, properties })
    }
}

/// Append the features of the placemarks anywhere in an element.
fn collect_placemarks(e: &XmlElement, out: &mut Vec<Feature<String, JsonValue>>) -> (r: Result<
    (),
    Error,
>)
    ensures
        match placemarks(e@, features_view(old(out)@)) {
            Ok(features) => r is Ok && features_view(final(out)@) == features,
            Err(x) => r matches Err(f) && f@ == x,
        },
    decreases e,
{
    let ghost start = features_view(out@);
    if same_text(e.name.as_str(), "Placemark") {
        let f = placemark_to_feature(e)?;
        out.push(f);
        assert(features_view(out@) =~= start.push(f@));
        return Ok(());
    }
    let ghost all = placemarks_from(e@.children, 0, start);
    proof {
        lemma_children_view(*e);
    }
    let mut i: usize = 0;
    while i < e.children.len()
        invariant
            i <= e.children@.len(),
            e@.name != "Placemark"@,
            e@.children == elements_view(e.children@),
            start == features_view(old(out)@),
            all == placemarks_from(e@.children, 0, start),
            all == placemarks_from(e@.children, i as int, features_view(out@)),
        decreases e.children@.len() - i,
    {
        assert(e@.children[i as int] == e.children@[i as int]@);
        collect_placemarks(&e.children[i], out)?;
        i += 1;
    }
    Ok(())
}

/// Append the features of a document.
pub fn collect_features(text: &str, out: &mut Vec<Feature<String, JsonValue>>) -> (r: Result<
    (),
    Error,
>)
    ensures
        match placemarks_of_text(text@, features_view(old(out)@)) {
            Ok(features) => r is Ok && features_view(final(out)@) == features,
            Err(x) => r matches Err(f) && f@ == x,
        },
{
    let root = parse(text)?;
    collect_placemarks(&root, out)
}

/// Features as a collection, in WGS 84.
pub fn finish(features: Vec<Feature<String, JsonValue>>) -> (r: FeatureCollection<String, JsonValue>)
    ensures
        r@ == finished(features_view(features@)),
{
    FeatureCollection { features, crs: Some(Crs::Wgs84) }
}

/// Read the features of a file, with their altitudes as Z.
pub fn read_with_altitudes(input: &[u8]) -> (r: Result<FeatureCollection<String, JsonValue>, Error>)
    ensures
        match collection_of(input@) {
            Ok(c) => r matches Ok(fc) && fc@ == c,
            Err(e) => r matches Err(f) && f@ == e,
        },
{
    let text = match utf8_text(input) {
        Some(t) => t,
        None => {
            return Err(err("input is not valid utf-8"));
        },
    };
    let mut features: Vec<Feature<String, JsonValue>> = Vec::new();
    assert(features_view(features@) =~= Seq::empty());
    collect_features(text, &mut features)?;
    Ok(finish(features))
}

/// Read the features of a file as a map has them: an altitude has to be a number,
/// and is left aside.
pub fn read(input: &[u8]) -> (r: Result<FeatureCollection<String, JsonValue>, Error>)
    ensures
        match collection_of(input@) {
            Ok(c) => r matches Ok(fc) && fc@ == leveled_items(c),
            Err(e) => r matches Err(f) && f@ == e,
        },
{
    let mut fc = read_with_altitudes(input)?;
    drop_altitudes(&mut fc);
    Ok(fc)
}

} // verus!
