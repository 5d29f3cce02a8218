//! Features as GeoJSON text.
//!
//! The text is that of a JSON value, which is not built: the members are written
//! one after another. There is no place for M, and Z is the third ordinate.
use vstd::prelude::*;

use crate::decimal::{plain, plain_number};
use crate::feature::{properties_view, Feature, FeatureCollection, Item};
use crate::geometry::{
    lemma_collection_view, polygons_view, run_view, runs_view, shapes_view, Geometry, Position,
    Shape,
};
use crate::json::parser::all_digits;
use crate::json::value::{
    escape_into, items_text, json_text, members_text, number_text, string_text, Json, JsonValue,
};
use crate::text::chars_of;

verus! {

// --- the value -----------------------------------------------------------------------

/// Whether a number's text has neither a fraction nor an exponent.
pub open spec fn is_integral(t: Seq<char>) -> bool {
    let first: int = if t.len() > 0 && t[0] == '-' {
        1
    } else {
        0
    };
    all_digits(t, first, t.len() as int)
}

/// An ordinate. Zero keeps its sign.
pub open spec fn ordinate_json(t: Seq<char>) -> Json {
    Json::Number { text: t, is_int: is_integral(t) && plain_number(t) != "-0"@ }
}

/// A position: two or three numbers.
pub open spec fn position_json(p: Position<Seq<char>>) -> Json {
    Json::Array(
        match p.z {
            Some(z) => seq![ordinate_json(p.x), ordinate_json(p.y), ordinate_json(z)],
            None => seq![ordinate_json(p.x), ordinate_json(p.y)],
        },
    )
}

/// An array of positions.
pub open spec fn run_json(run: Seq<Position<Seq<char>>>) -> Json {
    Json::Array(run.map_values(|p: Position<Seq<char>>| position_json(p)))
}

/// An array of arrays of positions.
pub open spec fn runs_json(runs: Seq<Seq<Position<Seq<char>>>>) -> Json {
    Json::Array(runs.map_values(|r: Seq<Position<Seq<char>>>| run_json(r)))
}

/// An array of polygons.
pub open spec fn polygons_json(polygons: Seq<Seq<Seq<Position<Seq<char>>>>>) -> Json {
    Json::Array(polygons.map_values(|p: Seq<Seq<Position<Seq<char>>>>| runs_json(p)))
}

/// The name of a geometry's type.
pub open spec fn shape_type(s: Shape<Seq<char>>) -> Seq<char> {
    match s {
        Shape::Point(_) => "Point"@,
        Shape::LineString(_) => "LineString"@,
        Shape::Polygon(_) => "Polygon"@,
        Shape::MultiPoint(_) => "MultiPoint"@,
        Shape::MultiLineString(_) => "MultiLineString"@,
        Shape::MultiPolygon(_) => "MultiPolygon"@,
        Shape::GeometryCollection(_) => "GeometryCollection"@,
    }
}

/// The coordinates of a geometry, or the members of a collection.
pub open spec fn coordinates_json(s: Shape<Seq<char>>) -> Json
    decreases s,
{
    match s {
        Shape::Point(p) => position_json(p),
        Shape::LineString(run) => run_json(run),
        Shape::MultiPoint(run) => run_json(run),
        Shape::Polygon(rings) => runs_json(rings),
        Shape::MultiLineString(lines) => runs_json(lines),
        Shape::MultiPolygon(polygons) => polygons_json(polygons),
        Shape::GeometryCollection(parts) => Json::Array(
            Seq::new(
                parts.len(),
                |i: int|
                    if 0 <= i < parts.len() {
                        object_json(parts[i], coordinates_json(parts[i]))
                    } else {
                        Json::Null
                    },
            ),
        ),
    }
}

/// A geometry object with given coordinates or members.
pub open spec fn object_json(s: Shape<Seq<char>>, inside: Json) -> Json {
    Json::Object(
        seq![
            ("type"@, Json::String(shape_type(s))),
            (
                if s is GeometryCollection {
                    "geometries"@
                } else {
                    "coordinates"@
                },
                inside,
            ),
        ],
    )
}

/// A geometry.
pub open spec fn shape_json(s: Shape<Seq<char>>) -> Json {
    object_json(s, coordinates_json(s))
}

/// A feature.
pub open spec fn feature_json(f: Item<Seq<char>, Json>) -> Json {
    Json::Object(
        seq![
            ("type"@, Json::String("Feature"@)),
            (
                "geometry"@,
                match f.geometry {
                    Some(s) => shape_json(s),
                    None => Json::Null,
                },
            ),
            ("properties"@, Json::Object(f.properties)),
        ],
    )
}

/// A collection.
pub open spec fn collection_json(features: Seq<Item<Seq<char>, Json>>) -> Json {
    Json::Object(
        seq![
            ("type"@, Json::String("FeatureCollection"@)),
            (
                "features"@,
                Json::Array(features.map_values(|f: Item<Seq<char>, Json>| feature_json(f))),
            ),
        ],
    )
}

// --- lists in text -------------------------------------------------------------------

/// The elements of an array from the `i`th on, with the commas before them.
spec fn items_rest(items: Seq<Json>, i: int) -> Seq<char>
    decreases items.len() - i,
{
    if i < 0 || i >= items.len() {
        Seq::empty()
    } else if i == 0 {
        json_text(items[i]) + items_rest(items, i + 1)
    } else {
        seq![','] + json_text(items[i]) + items_rest(items, i + 1)
    }
}

proof fn lemma_items_rest(items: Seq<Json>, i: int)
    requires
        0 <= i <= items.len(),
    ensures
        items_rest(items, i) == (if 0 < i < items.len() {
            seq![','] + items_text(items.skip(i))
        } else {
            items_text(items.skip(i))
        }),
    decreases items.len() - i,
{
    if i < items.len() {
        lemma_items_rest(items, i + 1);
        let left = items.skip(i);
        assert(left.drop_first() =~= items.skip(i + 1));
        assert(left[0] == items[i]);
        if i + 1 == items.len() {
            assert(items.skip(i + 1) =~= Seq::<Json>::empty());
            assert(items_rest(items, i) =~= (if i > 0 {
                seq![','] + json_text(items[i])
            } else {
                json_text(items[i])
            }));
        } else {
            assert(items_rest(items, i) =~= (if i > 0 {
                seq![','] + items_text(left)
            } else {
                items_text(left)
            }));
        }
    }
}

/// An array as the elements from its first on.
proof fn lemma_array_text(items: Seq<Json>)
    ensures
        json_text(Json::Array(items)) == seq!['['] + items_rest(items, 0) + seq![']'],
{
    lemma_items_rest(items, 0);
    assert(items.skip(0) =~= items);
}

/// The members of an object from the `i`th on, with the commas before them.
spec fn members_rest(members: Seq<(Seq<char>, Json)>, i: int) -> Seq<char>
    decreases members.len() - i,
{
    if i < 0 || i >= members.len() {
        Seq::empty()
    } else if i == 0 {
        string_text(members[i].0) + seq![':'] + json_text(members[i].1) + members_rest(
            members,
            i + 1,
        )
    } else {
        seq![','] + string_text(members[i].0) + seq![':'] + json_text(members[i].1) + members_rest(
            members,
            i + 1,
        )
    }
}

proof fn lemma_members_rest(members: Seq<(Seq<char>, Json)>, i: int)
    requires
        0 <= i <= members.len(),
    ensures
        members_rest(members, i) == (if 0 < i < members.len() {
            seq![','] + members_text(members.skip(i))
        } else {
            members_text(members.skip(i))
        }),
    decreases members.len() - i,
{
    if i < members.len() {
        lemma_members_rest(members, i + 1);
        let left = members.skip(i);
        assert(left.drop_first() =~= members.skip(i + 1));
        assert(left[0] == members[i]);
        if i + 1 == members.len() {
            assert(members.skip(i + 1) =~= Seq::<(Seq<char>, Json)>::empty());
        }
        assert(members_rest(members, i) =~= (if i > 0 {
            seq![','] + members_text(left)
        } else {
            members_text(left)
        }));
    }
}

/// An object as the members from its first on.
proof fn lemma_object_text(members: Seq<(Seq<char>, Json)>)
    ensures
        json_text(Json::Object(members)) == seq!['{'] + members_rest(members, 0) + seq!['}'],
{
    lemma_members_rest(members, 0);
    assert(members.skip(0) =~= members);
}

/// An object of two members.
proof fn lemma_two_members(a: (Seq<char>, Json), b: (Seq<char>, Json))
    ensures
        json_text(Json::Object(seq![a, b])) == seq!['{'] + string_text(a.0) + seq![':'] + json_text(
            a.1,
        ) + seq![','] + string_text(b.0) + seq![':'] + json_text(b.1) + seq!['}'],
{
    let m = seq![a, b];
    lemma_object_text(m);
    reveal_with_fuel(members_rest, 4);
    assert(json_text(Json::Object(m)) =~= seq!['{'] + string_text(a.0) + seq![':'] + json_text(a.1)
        + seq![','] + string_text(b.0) + seq![':'] + json_text(b.1) + seq!['}']);
}

/// An object of three members.
proof fn lemma_three_members(a: (Seq<char>, Json), b: (Seq<char>, Json), c: (Seq<char>, Json))
    ensures
        json_text(Json::Object(seq![a, b, c])) == seq!['{'] + string_text(a.0) + seq![':']
            + json_text(a.1) + seq![','] + string_text(b.0) + seq![':'] + json_text(b.1) + seq![',']
            + string_text(c.0) + seq![':'] + json_text(c.1) + seq!['}'],
{
    let m = seq![a, b, c];
    lemma_object_text(m);
    reveal_with_fuel(members_rest, 5);
    assert(json_text(Json::Object(m)) =~= seq!['{'] + string_text(a.0) + seq![':'] + json_text(a.1)
        + seq![','] + string_text(b.0) + seq![':'] + json_text(b.1) + seq![','] + string_text(c.0)
        + seq![':'] + json_text(c.1) + seq!['}']);
}

// --- writing -------------------------------------------------------------------------

fn write_number(out: &mut String, text: &str)
    ensures
        final(out)@ == old(out)@ + plain_number(text@),
{
    let chars = chars_of(text);
    out.append(plain(chars.as_slice()).as_str());
}

fn write_position(out: &mut String, p: &Position<String>)
    ensures
        final(out)@ == old(out)@ + json_text(position_json(p@)),
{
    let ghost start = out@;
    out.push('[');
    write_number(out, p.x.as_str());
    out.push(',');
    write_number(out, p.y.as_str());
    if let Some(z) = &p.z {
        out.push(',');
        write_number(out, z.as_str());
    }
    out.push(']');
    proof {
        reveal(number_text);
        let items = position_json(p@)->Array_0;
        lemma_array_text(items);
        reveal_with_fuel(items_rest, 5);
        assert(out@ =~= start + json_text(position_json(p@)));
    }
}

/// What is appended for the `i`th element of an array.
proof fn lemma_item_step(before: Seq<char>, after: Seq<char>, items: Seq<Json>, i: int)
    requires
        0 <= i < items.len(),
        after == before + (if i > 0 {
            seq![',']
        } else {
            Seq::empty()
        }) + json_text(items[i]),
    ensures
        after + items_rest(items, i + 1) == before + items_rest(items, i),
{
    assert(after + items_rest(items, i + 1) =~= before + items_rest(items, i));
}

fn write_comma(out: &mut String, i: usize)
    ensures
        final(out)@ == old(out)@ + (if i > 0 {
            seq![',']
        } else {
            Seq::<char>::empty()
        }),
{
    let ghost start = out@;
    if i > 0 {
        out.push(',');
    }
    assert(out@ =~= start + (if i > 0 {
        seq![',']
    } else {
        Seq::<char>::empty()
    }));
}

fn write_positions(out: &mut String, run: &Vec<Position<String>>)
    ensures
        final(out)@ == old(out)@ + json_text(run_json(run_view(run@))),
{
    let ghost start = out@;
    let ghost items = run_json(run_view(run@))->Array_0;
    out.push('[');
    let ghost open = out@;
    let mut i: usize = 0;
    while i < run.len()
        invariant
            i <= run@.len(),
            items == run_json(run_view(run@))->Array_0,
            out@ + items_rest(items, i as int) == open + items_rest(items, 0),
        decreases run@.len() - i,
    {
        let ghost before = out@;
        write_comma(out, i);
        write_position(out, &run[i]);
        assert(items[i as int] == position_json(run@[i as int]@));
        proof {
            lemma_item_step(before, out@, items, i as int);
        }
        i += 1;
    }
    out.push(']');
    proof {
        lemma_array_text(items);
        assert(out@ =~= start + json_text(Json::Array(items)));
    }
}

fn write_rings(out: &mut String, runs: &Vec<Vec<Position<String>>>)
    ensures
        final(out)@ == old(out)@ + json_text(runs_json(runs_view(runs@))),
{
    let ghost start = out@;
    let ghost items = runs_json(runs_view(runs@))->Array_0;
    out.push('[');
    let ghost open = out@;
    let mut i: usize = 0;
    while i < runs.len()
        invariant
            i <= runs@.len(),
            items == runs_json(runs_view(runs@))->Array_0,
            out@ + items_rest(items, i as int) == open + items_rest(items, 0),
        decreases runs@.len() - i,
    {
        let ghost before = out@;
        write_comma(out, i);
        write_positions(out, &runs[i]);
        assert(items[i as int] == run_json(run_view(runs@[i as int]@)));
        proof {
            lemma_item_step(before, out@, items, i as int);
        }
        i += 1;
    }
    out.push(']');
    proof {
        lemma_array_text(items);
        assert(out@ =~= start + json_text(Json::Array(items)));
    }
}

fn write_polygons(out: &mut String, polygons: &Vec<Vec<Vec<Position<String>>>>)
    ensures
        final(out)@ == old(out)@ + json_text(polygons_json(polygons_view(polygons@))),
{
    let ghost start = out@;
    let ghost items = polygons_json(polygons_view(polygons@))->Array_0;
    out.push('[');
    let ghost open = out@;
    let mut i: usize = 0;
    while i < polygons.len()
        invariant
            i <= polygons@.len(),
            items == polygons_json(polygons_view(polygons@))->Array_0,
            out@ + items_rest(items, i as int) == open + items_rest(items, 0),
        decreases polygons@.len() - i,
    {
        let ghost before = out@;
        write_comma(out, i);
        write_rings(out, &polygons[i]);
        assert(items[i as int] == runs_json(runs_view(polygons@[i as int]@)));
        proof {
            lemma_item_step(before, out@, items, i as int);
        }
        i += 1;
    }
    out.push(']');
    proof {
        lemma_array_text(items);
        assert(out@ =~= start + json_text(Json::Array(items)));
    }
}

fn type_text(g: &Geometry<String>) -> (r: &'static str)
    ensures
        r@ == shape_type(g@),
{
    match g {
        Geometry::Point(_) => "Point",
        Geometry::LineString(_) => "LineString",
        Geometry::Polygon(_) => "Polygon",
        Geometry::MultiPoint(_) => "MultiPoint",
        Geometry::MultiLineString(_) => "MultiLineString",
        Geometry::MultiPolygon(_) => "MultiPolygon",
        Geometry::GeometryCollection(_) => "GeometryCollection",
    }
}

/// The coordinates of a collection are its members.
proof fn lemma_parts_json(parts: Seq<Shape<Seq<char>>>)
    ensures
        coordinates_json(Shape::GeometryCollection(parts)) == Json::Array(
            parts.map_values(|s: Shape<Seq<char>>| shape_json(s)),
        ),
{
    assert(coordinates_json(Shape::GeometryCollection(parts))->Array_0 =~= parts.map_values(
        |s: Shape<Seq<char>>| shape_json(s),
    ));
}

#[verifier::spinoff_prover]
#[verifier::rlimit(30)]
fn write_geometry(out: &mut String, g: &Geometry<String>)
    ensures
        final(out)@ == old(out)@ + json_text(shape_json(g@)),
    decreases g,
{
    let ghost start = out@;
    out.push('{');
    escape_into("type", out);
    out.push(':');
    escape_into(type_text(g), out);
    out.push(',');
    match g {
        Geometry::GeometryCollection(_) => escape_into("geometries", out),
        _ => escape_into("coordinates", out),
    }
    out.push(':');
    let ghost head = out@;
    match g {
        Geometry::Point(p) => write_position(out, p),
        Geometry::LineString(run) => write_positions(out, run),
        Geometry::MultiPoint(run) => write_positions(out, run),
        Geometry::Polygon(rings) => write_rings(out, rings),
        Geometry::MultiLineString(lines) => write_rings(out, lines),
        Geometry::MultiPolygon(polygons) => write_polygons(out, polygons),
        Geometry::GeometryCollection(parts) => {
            let ghost shapes = shapes_view(parts@);
            let ghost items = shapes.map_values(|s: Shape<Seq<char>>| shape_json(s));
            proof {
                lemma_collection_view(*parts);
                lemma_parts_json(shapes);
            }
            out.push('[');
            let ghost open = out@;
            let mut i: usize = 0;
            while i < parts.len()
                invariant
                    i <= parts@.len(),
                    g is GeometryCollection,
                    parts == g->GeometryCollection_0,
                    shapes == shapes_view(parts@),
                    items == shapes.map_values(|s: Shape<Seq<char>>| shape_json(s)),
                    out@ + items_rest(items, i as int) == open + items_rest(items, 0),
                decreases parts@.len() - i,
            {
                let ghost before = out@;
                write_comma(out, i);
                write_geometry(out, &parts[i]);
                assert(shapes[i as int] == parts@[i as int]@);
                assert(items[i as int] == shape_json(parts@[i as int]@));
                proof {
                    lemma_item_step(before, out@, items, i as int);
                }
                i += 1;
            }
            out.push(']');
            proof {
                lemma_array_text(items);
                assert(out@ =~= head + json_text(Json::Array(items)));
            }
        },
    }
    out.push('}');
    proof {
        let inside = coordinates_json(g@);
        let key = if g@ is GeometryCollection {
            "geometries"@
        } else {
            "coordinates"@
        };
        lemma_two_members(("type"@, Json::String(shape_type(g@))), (key, inside));
        assert(out@ =~= start + json_text(shape_json(g@)));
    }
}

fn write_properties(out: &mut String, properties: &Vec<(String, JsonValue)>)
    ensures
        final(out)@ == old(out)@ + json_text(Json::Object(properties_view(properties@))),
{
    let ghost start = out@;
    let ghost members = properties_view(properties@);
    out.push('{');
    let ghost open = out@;
    let mut i: usize = 0;
    while i < properties.len()
        invariant
            i <= properties@.len(),
            members == properties_view(properties@),
            out@ + members_rest(members, i as int) == open + members_rest(members, 0),
        decreases properties@.len() - i,
    {
        let ghost before = out@;
        let entry = &properties[i];
        assert(members[i as int] == (entry.0@, entry.1@));
        write_comma(out, i);
        escape_into(entry.0.as_str(), out);
        out.push(':');
        entry.1.write_json_to(out);
        assert(out@ + members_rest(members, i + 1) =~= before + members_rest(members, i as int));
        i += 1;
    }
    out.push('}');
    proof {
        lemma_object_text(members);
        assert(out@ =~= start + json_text(Json::Object(members)));
    }
}

#[verifier::spinoff_prover]
#[verifier::rlimit(30)]
fn write_feature(out: &mut String, f: &Feature<String, JsonValue>)
    ensures
        final(out)@ == old(out)@ + json_text(feature_json(f@)),
{
    let ghost start = out@;
    out.push('{');
    escape_into("type", out);
    out.push(':');
    escape_into("Feature", out);
    out.push(',');
    escape_into("geometry", out);
    out.push(':');
    let ghost head = out@;
    match &f.geometry {
        Some(g) => write_geometry(out, g),
        None => JsonValue::Null.write_json_to(out),
    }
    let ghost geometry = match f@.geometry {
        Some(s) => shape_json(s),
        None => Json::Null,
    };
    assert(out@ == head + json_text(geometry));
    out.push(',');
    escape_into("properties", out);
    out.push(':');
    write_properties(out, &f.properties);
    out.push('}');
    proof {
        lemma_three_members(
            ("type"@, Json::String("Feature"@)),
            ("geometry"@, geometry),
            ("properties"@, Json::Object(f@.properties)),
        );
        let members = seq![
            ("type"@, Json::String("Feature"@)),
            ("geometry"@, geometry),
            ("properties"@, Json::Object(f@.properties)),
        ];
        assert(feature_json(f@)->Object_0 =~= members);
        assert(json_text(Json::String("Feature"@)) == string_text("Feature"@));
        assert(out@ =~= start + json_text(Json::Object(members)));
    }
}

/// The GeoJSON text of a collection: the compact JSON of its features.
pub fn to_geojson_string(fc: &FeatureCollection<String, JsonValue>) -> (text: String)
    ensures
        text@ == json_text(collection_json(fc@.features)),
{
    let ghost features = fc@.features;
    let ghost items = features.map_values(|f: Item<Seq<char>, Json>| feature_json(f));
    let mut out = String::new();
    let ghost start = out@;
    assert(start =~= Seq::<char>::empty());
    out.push('{');
    escape_into("type", &mut out);
    out.push(':');
    escape_into("FeatureCollection", &mut out);
    out.push(',');
    escape_into("features", &mut out);
    out.push(':');
    let ghost head = out@;
    out.push('[');
    let ghost open = out@;
    let mut i: usize = 0;
    while i < fc.features.len()
        invariant
            i <= fc.features@.len(),
            features == fc@.features,
            items == features.map_values(|f: Item<Seq<char>, Json>| feature_json(f)),
            out@ + items_rest(items, i as int) == open + items_rest(items, 0),
        decreases fc.features@.len() - i,
    {
        let ghost before = out@;
        write_comma(&mut out, i);
        write_feature(&mut out, &fc.features[i]);
        assert(features[i as int] == fc.features@[i as int]@);
        assert(items[i as int] == feature_json(fc.features@[i as int]@));
        proof {
            lemma_item_step(before, out@, items, i as int);
        }
        i += 1;
    }
    out.push(']');
    out.push('}');
    proof {
        lemma_array_text(items);
        lemma_two_members(
            ("type"@, Json::String("FeatureCollection"@)),
            ("features"@, Json::Array(items)),
        );
        assert(out@ =~= json_text(collection_json(features)));
    }
    out
}

} // verus!
