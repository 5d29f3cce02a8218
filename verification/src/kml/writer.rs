//! Writing KML: a document with a placemark for each feature. Coordinates are
//! longitude, latitude and, where a position has Z, altitude.
use vstd::prelude::*;
use vstd::utf8::*;

use crate::decimal::{plain, plain_number};
use crate::feature::{features_view, properties_view, Feature, FeatureCollection, Item};
use crate::geometry::{
    lemma_collection_view, polygons_view, run_view, runs_view, shapes_view, Geometry, Position,
    Shape,
};
use crate::json::value::{json_text, number_text, written_number, Json, JsonValue};
use crate::text::{chars_of, same_text};
use crate::xml::writer::{document_text, to_document};
use crate::xml::{elements_view, leaf_of, parent_of, Element, XmlElement};

verus! {

/// A property's value as text. Arrays and objects are JSON.
pub open spec fn property_text(v: Json) -> Seq<char> {
    match v {
        Json::String(s) => s,
        Json::Null => Seq::empty(),
        Json::Bool(b) => if b {
            "true"@
        } else {
            "false"@
        },
        Json::Number { text, is_int } => number_text(text, is_int),
        _ => json_text(v),
    }
}

/// The tuple of a position: longitude, latitude and, where there is one, altitude.
pub open spec fn tuple_text(p: Position<Seq<char>>) -> Seq<char> {
    plain_number(p.x) + ","@ + plain_number(p.y) + (match p.z {
        Some(z) => ","@ + plain_number(z),
        None => Seq::empty(),
    })
}

/// The tuples of a run, which spaces separate.
pub open spec fn tuples(ps: Seq<Position<Seq<char>>>) -> Seq<char>
    decreases ps.len(),
{
    if ps.len() == 0 {
        Seq::empty()
    } else {
        tuples(ps.drop_last()) + (if ps.len() > 1 {
            " "@
        } else {
            Seq::empty()
        }) + tuple_text(ps.last())
    }
}

pub open spec fn coordinates(ps: Seq<Position<Seq<char>>>) -> Element {
    leaf_of("coordinates"@, tuples(ps))
}

pub open spec fn point_of(p: Position<Seq<char>>) -> Element {
    parent_of("Point"@, seq![coordinates(seq![p])])
}

pub open spec fn line_of(ps: Seq<Position<Seq<char>>>) -> Element {
    parent_of("LineString"@, seq![coordinates(ps)])
}

pub open spec fn boundary(tag: Seq<char>, ring: Seq<Position<Seq<char>>>) -> Element {
    parent_of(tag, seq![parent_of("LinearRing"@, seq![coordinates(ring)])])
}

/// A polygon: the first ring is the outer boundary.
pub open spec fn polygon_of(rings: Seq<Seq<Position<Seq<char>>>>) -> Element {
    parent_of(
        "Polygon"@,
        Seq::new(
            rings.len(),
            |i: int|
                boundary(
                    if i == 0 {
                        "outerBoundaryIs"@
                    } else {
                        "innerBoundaryIs"@
                    },
                    rings[i],
                ),
        ),
    )
}

/// A geometry. What has parts is a `MultiGeometry`.
pub open spec fn geometry_element(s: Shape<Seq<char>>) -> Element
    decreases s,
{
    match s {
        Shape::Point(p) => point_of(p),
        Shape::LineString(ps) => line_of(ps),
        Shape::Polygon(rings) => polygon_of(rings),
        Shape::MultiPoint(ps) => parent_of(
            "MultiGeometry"@,
            ps.map_values(|p: Position<Seq<char>>| point_of(p)),
        ),
        Shape::MultiLineString(lines) => parent_of(
            "MultiGeometry"@,
            lines.map_values(|ps: Seq<Position<Seq<char>>>| line_of(ps)),
        ),
        Shape::MultiPolygon(polygons) => parent_of(
            "MultiGeometry"@,
            polygons.map_values(|rings: Seq<Seq<Position<Seq<char>>>>| polygon_of(rings)),
        ),
        Shape::GeometryCollection(parts) => parent_of(
            "MultiGeometry"@,
            Seq::new(
                parts.len(),
                |i: int|
                    if 0 <= i < parts.len() {
                        geometry_element(parts[i])
                    } else {
                        arbitrary()
                    },
            ),
        ),
    }
}

/// Whether a property has an element of its own.
pub open spec fn is_own(key: Seq<char>) -> bool {
    key == "name"@ || key == "description"@
}

/// The elements of the first `n` properties that have one of their own.
pub open spec fn own_elements(properties: Seq<(Seq<char>, Json)>, n: int) -> Seq<Element>
    decreases n,
{
    if n <= 0 {
        Seq::empty()
    } else {
        let before = own_elements(properties, n - 1);
        let (key, value) = properties[n - 1];
        if is_own(key) {
            before.push(leaf_of(key, property_text(value)))
        } else {
            before
        }
    }
}

/// The element of any other property.
pub open spec fn data_of(key: Seq<char>, value: Json) -> Element {
    Element {
        name: "Data"@,
        attrs: seq![("name"@, key)],
        text: Seq::empty(),
        children: seq![leaf_of("value"@, property_text(value))],
    }
}

/// The elements of the first `n` properties that have none of their own.
pub open spec fn data_elements(properties: Seq<(Seq<char>, Json)>, n: int) -> Seq<Element>
    decreases n,
{
    if n <= 0 {
        Seq::empty()
    } else {
        let before = data_elements(properties, n - 1);
        let (key, value) = properties[n - 1];
        if is_own(key) {
            before
        } else {
            before.push(data_of(key, value))
        }
    }
}

/// A feature.
pub open spec fn placemark_of(f: Item<Seq<char>, Json>) -> Element {
    let n = f.properties.len() as int;
    let data = data_elements(f.properties, n);
    let extended = if data.len() == 0 {
        Seq::empty()
    } else {
        seq![parent_of("ExtendedData"@, data)]
    };
    let geometry = match f.geometry {
        Some(s) => seq![geometry_element(s)],
        None => Seq::empty(),
    };
    parent_of("Placemark"@, own_elements(f.properties, n) + extended + geometry)
}

/// A document of features.
pub open spec fn document_of(features: Seq<Item<Seq<char>, Json>>) -> Element {
    Element {
        name: "kml"@,
        attrs: seq![("xmlns"@, "http://www.opengis.net/kml/2.2"@)],
        text: Seq::empty(),
        children: seq![
            parent_of(
                "Document"@,
                features.map_values(|f: Item<Seq<char>, Json>| placemark_of(f)),
            ),
        ],
    }
}

fn value_text(v: &JsonValue) -> (r: String)
    ensures
        r@ == property_text(v@),
{
    match v {
        JsonValue::String(s) => String::from_str(s.as_str()),
        JsonValue::Null => String::new(),
        JsonValue::Bool(b) => String::from_str(
            if *b {
                "true"
            } else {
                "false"
            },
        ),
        JsonValue::Number { text, is_int } => written_number(text.as_str(), *is_int),
        _ => v.to_json_string(),
    }
}

fn one(e: XmlElement) -> (r: Vec<XmlElement>)
    ensures
        elements_view(r@) == seq![e@],
{
    let mut r: Vec<XmlElement> = Vec::new();
    r.push(e);
    assert(elements_view(r@) =~= seq![e@]);
    r
}

fn tuple_into(p: &Position<String>, out: &mut String)
    ensures
        final(out)@ == old(out)@ + tuple_text(p@),
{
    out.append(plain(chars_of(p.x.as_str()).as_slice()).as_str());
    out.append(",");
    out.append(plain(chars_of(p.y.as_str()).as_slice()).as_str());
    if let Some(z) = &p.z {
        out.append(",");
        out.append(plain(chars_of(z.as_str()).as_slice()).as_str());
    }
    assert(out@ =~= old(out)@ + tuple_text(p@));
}

fn coordinates_element(points: &Vec<Position<String>>) -> (r: XmlElement)
    ensures
        r@ == coordinates(run_view(points@)),
{
    let ghost ps = run_view(points@);
    let mut text = String::new();
    let mut i: usize = 0;
    assert(text@ =~= tuples(ps.take(0)));
    while i < points.len()
        invariant
            i <= points@.len(),
            ps == run_view(points@),
            text@ == tuples(ps.take(i as int)),
        decreases points@.len() - i,
    {
        if i > 0 {
            text.append(" ");
        }
        let ghost before = text@;
        tuple_into(&points[i], &mut text);
        assert(ps.take(i + 1).drop_last() =~= ps.take(i as int));
        assert(ps.take(i + 1).last() == points@[i as int]@);
        assert(text@ =~= tuples(ps.take(i + 1)));
        i += 1;
    }
    assert(ps.take(i as int) =~= ps);
    XmlElement::leaf("coordinates", text)
}

fn point_element(p: &Position<String>) -> (r: XmlElement)
    ensures
        r@ == point_of(p@),
{
    let mut text = String::new();
    tuple_into(p, &mut text);
    proof {
        reveal_with_fuel(tuples, 2);
        assert(seq![p@].drop_last() =~= Seq::empty());
        assert(text@ =~= tuples(seq![p@]));
    }
    XmlElement::with_children("Point", one(XmlElement::leaf("coordinates", text)))
}

fn line_string_element(ps: &Vec<Position<String>>) -> (r: XmlElement)
    ensures
        r@ == line_of(run_view(ps@)),
{
    XmlElement::with_children("LineString", one(coordinates_element(ps)))
}

fn boundary_element(tag: &str, ring: &Vec<Position<String>>) -> (r: XmlElement)
    ensures
        r@ == boundary(tag@, run_view(ring@)),
{
    XmlElement::with_children(
        tag,
        one(XmlElement::with_children("LinearRing", one(coordinates_element(ring)))),
    )
}

fn polygon_element(rings: &Vec<Vec<Position<String>>>) -> (r: XmlElement)
    ensures
        r@ == polygon_of(runs_view(rings@)),
{
    let ghost all = polygon_of(runs_view(rings@)).children;
    let mut children: Vec<XmlElement> = Vec::new();
    let mut i: usize = 0;
    while i < rings.len()
        invariant
            i <= rings@.len(),
            all == polygon_of(runs_view(rings@)).children,
            elements_view(children@) == all.take(i as int),
        decreases rings@.len() - i,
    {
        let tag = if i == 0 {
            "outerBoundaryIs"
        } else {
            "innerBoundaryIs"
        };
        let e = boundary_element(tag, &rings[i]);
        assert(all[i as int] == e@);
        let ghost before = elements_view(children@);
        children.push(e);
        assert(elements_view(children@) =~= before.push(e@));
        assert(all.take(i + 1) =~= all.take(i as int).push(e@));
        i += 1;
    }
    assert(all.take(i as int) =~= all);
    XmlElement::with_children("Polygon", children)
}

fn geometry_to_element(g: &Geometry<String>) -> (r: XmlElement)
    ensures
        r@ == geometry_element(g@),
    decreases g,
{
    let ghost all = geometry_element(g@).children;
    let mut children: Vec<XmlElement> = Vec::new();
    let mut i: usize = 0;
    match g {
        Geometry::Point(p) => {
            return point_element(p);
        },
        Geometry::LineString(ps) => {
            return line_string_element(ps);
        },
        Geometry::Polygon(rings) => {
            return polygon_element(rings);
        },
        Geometry::MultiPoint(ps) => {
            while i < ps.len()
                invariant
                    i <= ps@.len(),
                    all == run_view(ps@).map_values(|p: Position<Seq<char>>| point_of(p)),
                    elements_view(children@) == all.take(i as int),
                decreases ps@.len() - i,
            {
                let e = point_element(&ps[i]);
                assert(all[i as int] == e@);
                let ghost before = elements_view(children@);
                children.push(e);
                assert(elements_view(children@) =~= before.push(e@));
                assert(all.take(i + 1) =~= all.take(i as int).push(e@));
                i += 1;
            }
        },
        Geometry::MultiLineString(lines) => {
            while i < lines.len()
                invariant
                    i <= lines@.len(),
                    all == runs_view(lines@).map_values(
                        |ps: Seq<Position<Seq<char>>>| line_of(ps),
                    ),
                    elements_view(children@) == all.take(i as int),
                decreases lines@.len() - i,
            {
                let e = line_string_element(&lines[i]);
                assert(all[i as int] == e@);
                let ghost before = elements_view(children@);
                children.push(e);
                assert(elements_view(children@) =~= before.push(e@));
                assert(all.take(i + 1) =~= all.take(i as int).push(e@));
                i += 1;
            }
        },
        Geometry::MultiPolygon(polygons) => {
            while i < polygons.len()
                invariant
                    i <= polygons@.len(),
                    all == polygons_view(polygons@).map_values(
                        |rings: Seq<Seq<Position<Seq<char>>>>| polygon_of(rings),
                    ),
                    elements_view(children@) == all.take(i as int),
                decreases polygons@.len() - i,
            {
                let e = polygon_element(&polygons[i]);
                assert(all[i as int] == e@);
                let ghost before = elements_view(children@);
                children.push(e);
                assert(elements_view(children@) =~= before.push(e@));
                assert(all.take(i + 1) =~= all.take(i as int).push(e@));
                i += 1;
            }
        },
        Geometry::GeometryCollection(parts) => {
            let ghost shapes = shapes_view(parts@);
            proof {
                lemma_collection_view(*parts);
            }
            while i < parts.len()
                invariant
                    i <= parts@.len(),
                    g is GeometryCollection,
                    parts == g->GeometryCollection_0,
                    shapes == shapes_view(parts@),
                    all.len() == parts@.len(),
                    forall|k: int|
                        0 <= k < all.len() ==> #[trigger] all[k] == geometry_element(shapes[k]),
                    elements_view(children@) == all.take(i as int),
                decreases parts@.len() - i,
            {
                let e = geometry_to_element(&parts[i]);
                assert(all[i as int] == e@);
                let ghost before = elements_view(children@);
                children.push(e);
                assert(elements_view(children@) =~= before.push(e@));
                assert(all.take(i + 1) =~= all.take(i as int).push(e@));
                i += 1;
            }
        },
    }
    assert(all.take(i as int) =~= all);
    XmlElement::with_children("MultiGeometry", children)
}

fn feature_to_placemark(f: &Feature<String, JsonValue>) -> (r: XmlElement)
    ensures
        r@ == placemark_of(f@),
{
    let ghost ps = properties_view(f.properties@);
    let mut children: Vec<XmlElement> = Vec::new();
    let mut data: Vec<XmlElement> = Vec::new();
    let mut i: usize = 0;
    assert(elements_view(children@) =~= Seq::empty());
    assert(elements_view(data@) =~= Seq::empty());
    while i < f.properties.len()
        invariant
            i <= f.properties@.len(),
            ps == properties_view(f.properties@),
            elements_view(children@) == own_elements(ps, i as int),
            elements_view(data@) == data_elements(ps, i as int),
        decreases f.properties@.len() - i,
    {
        let key = &f.properties[i].0;
        let value = &f.properties[i].1;
        assert(ps[i as int] == (key@, value@));
        let text = value_text(value);
        if same_text(key.as_str(), "name") || same_text(key.as_str(), "description") {
            let e = XmlElement::leaf(key.as_str(), text);
            let ghost before = elements_view(children@);
            children.push(e);
            assert(elements_view(children@) =~= before.push(e@));
        } else {
            let inner = one(XmlElement::leaf("value", text));
            let e = XmlElement::with_children("Data", inner).with_attr("name", key.as_str());
            assert(e@.attrs =~= seq![("name"@, key@)]);
            assert(e@ == data_of(key@, value@));
            let ghost before = elements_view(data@);
            data.push(e);
            assert(elements_view(data@) =~= before.push(e@));
        }
        i += 1;
    }
    let ghost own = elements_view(children@);
    let ghost mut extended: Seq<Element> = Seq::empty();
    if data.len() > 0 {
        let e = XmlElement::with_children("ExtendedData", data);
        proof {
            extended = seq![e@];
        }
        children.push(e);
    }
    assert(elements_view(children@) =~= own + extended);
    let ghost mut geometry: Seq<Element> = Seq::empty();
    if let Some(g) = &f.geometry {
        let e = geometry_to_element(g);
        proof {
            geometry = seq![e@];
        }
        children.push(e);
    }
    assert(elements_view(children@) =~= own + extended + geometry);
    XmlElement::with_children("Placemark", children)
}

/// Encode a collection.
pub fn write(fc: &FeatureCollection<String, JsonValue>) -> (r: Vec<u8>)
    ensures
        r@ == encode_utf8(document_text(document_of(fc@.features))),
{
    let ghost all = features_view(fc.features@).map_values(
        |f: Item<Seq<char>, Json>| placemark_of(f),
    );
    let mut placemarks: Vec<XmlElement> = Vec::new();
    let mut i: usize = 0;
    while i < fc.features.len()
        invariant
            i <= fc.features@.len(),
            all == features_view(fc.features@).map_values(
                |f: Item<Seq<char>, Json>| placemark_of(f),
            ),
            elements_view(placemarks@) == all.take(i as int),
        decreases fc.features@.len() - i,
    {
        let e = feature_to_placemark(&fc.features[i]);
        assert(all[i as int] == e@);
        let ghost before = elements_view(placemarks@);
        placemarks.push(e);
        assert(elements_view(placemarks@) =~= before.push(e@));
        assert(all.take(i + 1) =~= all.take(i as int).push(e@));
        i += 1;
    }
    assert(all.take(i as int) =~= all);
    let document = XmlElement::with_children("Document", placemarks);
    let root = XmlElement::with_children("kml", one(document)).with_attr(
        "xmlns",
        "http://www.opengis.net/kml/2.2",
    );
    assert(root@.attrs =~= seq![("xmlns"@, "http://www.opengis.net/kml/2.2"@)]);
    assert(root@ == document_of(fc@.features));
    to_document(&root).as_str().as_bytes_vec()
}

} // verus!
