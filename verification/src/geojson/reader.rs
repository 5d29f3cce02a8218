//! Features as JSON values.
//!
//! A collection, a single feature and a bare geometry are all read as a
//! collection. Coordinates are longitude and latitude in WGS 84, as there is no
//! other system in GeoJSON, and a third ordinate is Z. Further ordinates are
//! dropped, and there is no place for M.
use vstd::prelude::*;

use crate::crs::system::System;
use crate::crs::Crs;
use crate::error::{Error, Failure};
use crate::feature::{features_view, properties_view, Feature, FeatureCollection, Item, Items};
use crate::geometry::{
    lemma_collection_view, polygons_view, run_view, runs_view, shapes_view, Geometry, Position,
    Shape,
};
use crate::json::parser::{document, parse};
use crate::json::value::{items_view, members_view, Json, JsonValue};
use crate::text::same_text;

verus! {

// --- reading -------------------------------------------------------------------------

/// The type that a JSON object states.
pub open spec fn type_member(v: Json) -> Option<Seq<char>> {
    match v.member("type"@) {
        Some(Json::String(s)) => Some(s),
        _ => None,
    }
}

/// The text of a number.
pub open spec fn number_text(v: Json) -> Option<Seq<char>> {
    match v {
        Json::Number { text, is_int } => Some(text),
        _ => None,
    }
}

/// A position: two numbers, and a third one that is Z where it is a number.
pub open spec fn position_of(v: Json) -> Result<Position<Seq<char>>, Failure> {
    match v {
        Json::Array(a) => if a.len() < 2 {
            Err(Failure::GeoJson("coordinate needs at least 2 numbers"@))
        } else {
            match (number_text(a[0]), number_text(a[1])) {
                (None, _) => Err(Failure::GeoJson("coordinate x is not a number"@)),
                (Some(_), None) => Err(Failure::GeoJson("coordinate y is not a number"@)),
                (Some(x), Some(y)) => Ok(
                    Position {
                        x,
                        y,
                        z: if a.len() > 2 {
                            number_text(a[2])
                        } else {
                            None
                        },
                        m: None,
                    },
                ),
            }
        },
        _ => Err(Failure::GeoJson("coordinate is not an array"@)),
    }
}

/// What `item` gives for the values from `i` on, after what it gave before; its
/// first failure where it has one.
pub open spec fn each_from<T>(
    values: Seq<Json>,
    i: int,
    item: spec_fn(Json) -> Result<T, Failure>,
    so_far: Seq<T>,
) -> Result<Seq<T>, Failure>
    decreases values.len() - i,
{
    if i < 0 || i >= values.len() {
        Ok(so_far)
    } else {
        match item(values[i]) {
            Err(e) => Err(e),
            Ok(t) => each_from(values, i + 1, item, so_far.push(t)),
        }
    }
}

/// What `item` gives for the elements of an array.
pub open spec fn each_of<T>(v: Json, item: spec_fn(Json) -> Result<T, Failure>) -> Result<
    Seq<T>,
    Failure,
> {
    match v {
        Json::Array(a) => each_from(a, 0, item, Seq::empty()),
        _ => Err(Failure::GeoJson("expected a coordinate array"@)),
    }
}

/// An array of positions.
pub open spec fn run_of(v: Json) -> Result<Seq<Position<Seq<char>>>, Failure> {
    each_of(v, |i: Json| position_of(i))
}

/// An array of arrays of positions.
pub open spec fn runs_of(v: Json) -> Result<Seq<Seq<Position<Seq<char>>>>, Failure> {
    each_of(v, |i: Json| run_of(i))
}

/// An array of polygons.
pub open spec fn polygons_of(v: Json) -> Result<Seq<Seq<Seq<Position<Seq<char>>>>>, Failure> {
    each_of(v, |i: Json| runs_of(i))
}

/// A geometry of a type with given coordinates.
pub open spec fn shape_of_coordinates(ty: Seq<char>, v: Json) -> Result<Shape<Seq<char>>, Failure> {
    if ty == "Point"@ {
        match position_of(v) {
            Ok(p) => Ok(Shape::Point(p)),
            Err(e) => Err(e),
        }
    } else if ty == "LineString"@ {
        match run_of(v) {
            Ok(r) => Ok(Shape::LineString(r)),
            Err(e) => Err(e),
        }
    } else if ty == "Polygon"@ {
        match runs_of(v) {
            Ok(r) => Ok(Shape::Polygon(r)),
            Err(e) => Err(e),
        }
    } else if ty == "MultiPoint"@ {
        match run_of(v) {
            Ok(r) => Ok(Shape::MultiPoint(r)),
            Err(e) => Err(e),
        }
    } else if ty == "MultiLineString"@ {
        match runs_of(v) {
            Ok(r) => Ok(Shape::MultiLineString(r)),
            Err(e) => Err(e),
        }
    } else if ty == "MultiPolygon"@ {
        match polygons_of(v) {
            Ok(r) => Ok(Shape::MultiPolygon(r)),
            Err(e) => Err(e),
        }
    } else {
        Err(Failure::GeoJson("unknown geometry type \""@ + ty + "\""@))
    }
}

/// The first member with a key, as a value that is part of the object.
pub open spec fn member_place(members: Seq<(Seq<char>, Json)>, key: Seq<char>, i: int) -> int
    decreases members.len() - i,
{
    if i < 0 || i >= members.len() || members[i].0 == key {
        i
    } else {
        member_place(members, key, i + 1)
    }
}

/// The geometry that a JSON value is.
pub open spec fn shape_of(v: Json) -> Result<Shape<Seq<char>>, Failure>
    decreases v, 0nat, 0nat,
{
    match type_member(v) {
        None => Err(Failure::GeoJson("geometry missing \"type\""@)),
        Some(ty) => if ty == "GeometryCollection"@ {
            match v {
                Json::Object(members) => {
                    let k = member_place(members, "geometries"@, 0);
                    if 0 <= k < members.len() && members[k].1 is Array {
                        match shapes_from(members[k].1->Array_0, 0, Seq::empty()) {
                            Ok(parts) => Ok(Shape::GeometryCollection(parts)),
                            Err(e) => Err(e),
                        }
                    } else {
                        Err(Failure::GeoJson("GeometryCollection missing \"geometries\""@))
                    }
                },
                _ => Err(Failure::GeoJson("GeometryCollection missing \"geometries\""@)),
            }
        } else {
            match v.member("coordinates"@) {
                None => Err(Failure::GeoJson(ty + " missing \"coordinates\""@)),
                Some(c) => shape_of_coordinates(ty, c),
            }
        },
    }
}

/// The geometries that the values from `i` on are, after those before.
pub open spec fn shapes_from(values: Seq<Json>, i: int, so_far: Seq<Shape<Seq<char>>>) -> Result<
    Seq<Shape<Seq<char>>>,
    Failure,
>
    decreases values, (values.len() - i) as nat, 1nat,
{
    if i < 0 || i >= values.len() {
        Ok(so_far)
    } else {
        match shape_of(values[i]) {
            Err(e) => Err(e),
            Ok(g) => shapes_from(values, i + 1, so_far.push(g)),
        }
    }
}

/// The feature that a JSON value is. A geometry that is missing or null is none,
/// and properties that are no object are none.
pub open spec fn feature_of(v: Json) -> Result<Item<Seq<char>, Json>, Failure> {
    let properties = match v.member("properties"@) {
        Some(Json::Object(members)) => members,
        _ => Seq::empty(),
    };
    match v.member("geometry"@) {
        None | Some(Json::Null) => Ok(Item { geometry: None, properties }),
        Some(g) => match shape_of(g) {
            Ok(s) => Ok(Item { geometry: Some(s), properties }),
            Err(e) => Err(e),
        },
    }
}

/// The features that a JSON document holds: those of a collection, a single one,
/// or one with a bare geometry.
pub open spec fn features_of(v: Json) -> Result<Seq<Item<Seq<char>, Json>>, Failure> {
    match type_member(v) {
        None => Err(Failure::GeoJson("missing \"type\" member"@)),
        Some(ty) => if ty == "FeatureCollection"@ {
            match v.member("features"@) {
                Some(Json::Array(a)) => each_from(a, 0, |i: Json| feature_of(i), Seq::empty()),
                _ => Err(Failure::GeoJson("FeatureCollection missing \"features\" array"@)),
            }
        } else if ty == "Feature"@ {
            match feature_of(v) {
                Ok(f) => Ok(seq![f]),
                Err(e) => Err(e),
            }
        } else {
            match shape_of(v) {
                Ok(s) => Ok(seq![Item { geometry: Some(s), properties: Seq::empty() }]),
                Err(e) => Err(e),
            }
        },
    }
}

/// The collection that a JSON document is, in WGS 84.
pub open spec fn collection_of(v: Json) -> Result<Items<Seq<char>, Json>, Failure> {
    match features_of(v) {
        Ok(features) => Ok(Items { features, crs: Some(System::Wgs84) }),
        Err(e) => Err(e),
    }
}

/// The collection that a GeoJSON text is.
pub open spec fn collection_of_text(s: Seq<char>) -> Result<Items<Seq<char>, Json>, Failure> {
    match document(s) {
        Ok(v) => collection_of(v),
        Err(e) => Err(e),
    }
}

fn err<T>(message: &str) -> (r: Result<T, Error>)
    ensures
        r matches Err(e) && e@ == Failure::GeoJson(message@),
{
    Err(Error::GeoJson(String::from_str(message)))
}

fn copy_number(v: &JsonValue) -> (r: Option<String>)
    ensures
        crate::text::opt_view(r) == number_text(v@),
{
    match v.as_number() {
        Some(t) => Some(String::from_str(t)),
        None => None,
    }
}

fn position(v: &JsonValue) -> (r: Result<Position<String>, Error>)
    ensures
        match position_of(v@) {
            Ok(p) => r matches Ok(w) && w@ == p,
            Err(e) => r matches Err(w) && w@ == e,
        },
{
    let a = match v.as_array() {
        Some(a) => a,
        None => {
            return err("coordinate is not an array");
        },
    };
    assert(items_view(a@).len() == a@.len());
    if a.len() < 2 {
        return err("coordinate needs at least 2 numbers");
    }
    assert(items_view(a@)[0] == a@[0]@);
    assert(items_view(a@)[1] == a@[1]@);
    let x = match copy_number(&a[0]) {
        Some(x) => x,
        None => {
            return err("coordinate x is not a number");
        },
    };
    let y = match copy_number(&a[1]) {
        Some(y) => y,
        None => {
            return err("coordinate y is not a number");
        },
    };
    let z = if a.len() > 2 {
        assert(items_view(a@)[2] == a@[2]@);
        copy_number(&a[2])
    } else {
        None
    };
    Ok(Position { x, y, z, m: None })
}

fn array(v: &JsonValue) -> (r: Result<&[JsonValue], Error>)
    ensures
        match v@ {
            Json::Array(items) => r matches Ok(a) && items_view(a@) == items,
            _ => r matches Err(e) && e@ == Failure::GeoJson("expected a coordinate array"@),
        },
{
    match v.as_array() {
        Some(a) => Ok(a),
        None => err("expected a coordinate array"),
    }
}

fn positions(v: &JsonValue) -> (r: Result<Vec<Position<String>>, Error>)
    ensures
        match run_of(v@) {
            Ok(p) => r matches Ok(w) && run_view(w@) == p,
            Err(e) => r matches Err(w) && w@ == e,
        },
{
    let a = array(v)?;
    let ghost all = items_view(a@);
    let ghost item = |i: Json| position_of(i);
    let mut out: Vec<Position<String>> = Vec::new();
    let mut i: usize = 0;
    assert(run_view(out@) =~= Seq::<Position<Seq<char>>>::empty());
    while i < a.len()
        invariant
            i <= a@.len(),
            all == items_view(a@),
            item == (|i: Json| position_of(i)),
            run_of(v@) == each_from(all, i as int, item, run_view(out@)),
        decreases a@.len() - i,
    {
        assert(all[i as int] == a@[i as int]@);
        let p = position(&a[i])?;
        let ghost before = out@;
        let ghost view = p@;
        out.push(p);
        assert(run_view(out@) =~= run_view(before).push(view));
        i += 1;
    }
    Ok(out)
}

fn rings(v: &JsonValue) -> (r: Result<Vec<Vec<Position<String>>>, Error>)
    ensures
        match runs_of(v@) {
            Ok(p) => r matches Ok(w) && runs_view(w@) == p,
            Err(e) => r matches Err(w) && w@ == e,
        },
{
    let a = array(v)?;
    let ghost all = items_view(a@);
    let ghost item = |i: Json| run_of(i);
    let mut out: Vec<Vec<Position<String>>> = Vec::new();
    let mut i: usize = 0;
    assert(runs_view(out@) =~= Seq::<Seq<Position<Seq<char>>>>::empty());
    while i < a.len()
        invariant
            i <= a@.len(),
            all == items_view(a@),
            item == (|i: Json| run_of(i)),
            runs_of(v@) == each_from(all, i as int, item, runs_view(out@)),
        decreases a@.len() - i,
    {
        assert(all[i as int] == a@[i as int]@);
        let p = positions(&a[i])?;
        let ghost before = out@;
        let ghost view = run_view(p@);
        out.push(p);
        assert(runs_view(out@) =~= runs_view(before).push(view));
        i += 1;
    }
    Ok(out)
}

fn polygons(v: &JsonValue) -> (r: Result<Vec<Vec<Vec<Position<String>>>>, Error>)
    ensures
        match polygons_of(v@) {
            Ok(p) => r matches Ok(w) && polygons_view(w@) == p,
            Err(e) => r matches Err(w) && w@ == e,
        },
{
    let a = array(v)?;
    let ghost all = items_view(a@);
    let ghost item = |i: Json| runs_of(i);
    let mut out: Vec<Vec<Vec<Position<String>>>> = Vec::new();
    let mut i: usize = 0;
    assert(polygons_view(out@) =~= Seq::<Seq<Seq<Position<Seq<char>>>>>::empty());
    while i < a.len()
        invariant
            i <= a@.len(),
            all == items_view(a@),
            item == (|i: Json| runs_of(i)),
            polygons_of(v@) == each_from(all, i as int, item, polygons_view(out@)),
        decreases a@.len() - i,
    {
        assert(all[i as int] == a@[i as int]@);
        let p = rings(&a[i])?;
        let ghost before = out@;
        let ghost view = runs_view(p@);
        out.push(p);
        assert(polygons_view(out@) =~= polygons_view(before).push(view));
        i += 1;
    }
    Ok(out)
}

fn geometry_from_coords(ty: &str, coords: &JsonValue) -> (r: Result<Geometry<String>, Error>)
    ensures
        match shape_of_coordinates(ty@, coords@) {
            Ok(s) => r matches Ok(g) && g@ == s,
            Err(e) => r matches Err(w) && w@ == e,
        },
{
    if same_text(ty, "Point") {
        Ok(Geometry::Point(position(coords)?))
    } else if same_text(ty, "LineString") {
        Ok(Geometry::LineString(positions(coords)?))
    } else if same_text(ty, "Polygon") {
        Ok(Geometry::Polygon(rings(coords)?))
    } else if same_text(ty, "MultiPoint") {
        Ok(Geometry::MultiPoint(positions(coords)?))
    } else if same_text(ty, "MultiLineString") {
        Ok(Geometry::MultiLineString(rings(coords)?))
    } else if same_text(ty, "MultiPolygon") {
        Ok(Geometry::MultiPolygon(polygons(coords)?))
    } else {
        let mut message = String::from_str("unknown geometry type \"");
        message.append(ty);
        message.append("\"");
        err(message.as_str())
    }
}

fn stated_type(v: &JsonValue) -> (r: Option<&str>)
    ensures
        match r {
            Some(s) => type_member(v@) == Some(s@),
            None => type_member(v@) is None,
        },
{
    match v.get("type") {
        Some(t) => t.as_str(),
        None => None,
    }
}

fn find_place(members: &Vec<(String, JsonValue)>, key: &str) -> (r: usize)
    ensures
        r == member_place(members_view(members@), key@, 0),
        r <= members@.len(),
{
    let ghost all = members_view(members@);
    let mut i: usize = 0;
    while i < members.len()
        invariant
            i <= members@.len(),
            all == members_view(members@),
            member_place(all, key@, 0) == member_place(all, key@, i as int),
        decreases members@.len() - i,
    {
        assert(all[i as int].0 == members@[i as int].0@);
        if same_text(members[i].0.as_str(), key) {
            return i;
        }
        i += 1;
    }
    i
}

fn parse_geometry(v: &JsonValue) -> (r: Result<Geometry<String>, Error>)
    ensures
        match shape_of(v@) {
            Ok(s) => r matches Ok(g) && g@ == s,
            Err(e) => r matches Err(w) && w@ == e,
        },
    decreases v,
{
    let ty = match stated_type(v) {
        Some(t) => t,
        None => {
            return err("geometry missing \"type\"");
        },
    };
    if same_text(ty, "GeometryCollection") {
        if let JsonValue::Object(members) = v {
            proof {
                crate::json::value::lemma_object_view(*members);
            }
            let ghost all = members_view(members@);
            let k = find_place(members, "geometries");
            if k < members.len() {
                assert(all[k as int].1 == members@[k as int].1@);
                if let JsonValue::Array(items) = &members[k].1 {
                    proof {
                        crate::json::value::lemma_array_view(*items);
                    }
                    let ghost values = items_view(items@);
                    let mut parts: Vec<Geometry<String>> = Vec::new();
                    let mut i: usize = 0;
                    assert(shapes_view(parts@) =~= Seq::<Shape<Seq<char>>>::empty());
                    while i < items.len()
                        invariant
                            i <= items@.len(),
                            k < members@.len(),
                            v is Object,
                            members == v->Object_0,
                            members@[k as int].1 is Array,
                            *items == members@[k as int].1->Array_0,
                            values == items_view(items@),
                            shape_of(v@) == (match shapes_from(values, 0, Seq::empty()) {
                                Ok(parts) => Ok::<Shape<Seq<char>>, Failure>(
                                    Shape::GeometryCollection(parts),
                                ),
                                Err(e) => Err(e),
                            }),
                            shapes_from(values, 0, Seq::empty()) == shapes_from(
                                values,
                                i as int,
                                shapes_view(parts@),
                            ),
                        decreases items@.len() - i,
                    {
                        assert(values[i as int] == items@[i as int]@);
                        assert(decreases_to!(v => items@[i as int]));
                        let g = parse_geometry(&items[i])?;
                        let ghost before = parts@;
                        let ghost view = g@;
                        parts.push(g);
                        assert(shapes_view(parts@) =~= shapes_view(before).push(view));
                        i += 1;
                    }
                    proof {
                        lemma_collection_view(parts);
                    }
                    return Ok(Geometry::GeometryCollection(parts));
                }
            }
        }
        return err("GeometryCollection missing \"geometries\"");
    }
    match v.get("coordinates") {
        None => {
            let mut message = String::from_str(ty);
            message.append(" missing \"coordinates\"");
            err(message.as_str())
        },
        Some(coords) => geometry_from_coords(ty, coords),
    }
}

fn copy_members(members: &[(String, JsonValue)]) -> (r: Vec<(String, JsonValue)>)
    ensures
        properties_view(r@) == members_view(members@),
{
    let mut out: Vec<(String, JsonValue)> = Vec::new();
    let mut i: usize = 0;
    while i < members.len()
        invariant
            i <= members@.len(),
            out@.len() == i,
            forall|j: int|
                0 <= j < i ==> (#[trigger] out@[j]).0@ == members@[j].0@ && out@[j].1@
                    == members@[j].1@,
        decreases members@.len() - i,
    {
        let member = &members[i];
        out.push((String::from_str(member.0.as_str()), member.1.clone()));
        i += 1;
    }
    assert(properties_view(out@) =~= members_view(members@));
    out
}

fn parse_feature(v: &JsonValue) -> (r: Result<Feature<String, JsonValue>, Error>)
    ensures
        match feature_of(v@) {
            Ok(f) => r matches Ok(w) && w@ == f,
            Err(e) => r matches Err(w) && w@ == e,
        },
{
    let geometry = match v.get("geometry") {
        None => None,
        Some(g) => match g {
            JsonValue::Null => None,
            _ => Some(parse_geometry(g)?),
        },
    };
    let none: Vec<(String, JsonValue)> = Vec::new();
    assert(properties_view(none@) =~= Seq::<(Seq<char>, Json)>::empty());
    let properties = match v.get("properties") {
        Some(p) => match p.as_object() {
            Some(members) => copy_members(members),
            None => none,
        },
        None => none,
    };
    Ok(Feature { geometry, properties })
}

fn wgs84(features: Vec<Feature<String, JsonValue>>) -> (r: FeatureCollection<String, JsonValue>)
    ensures
        r@ == (Items { features: features_view(features@), crs: Some(System::Wgs84) }),
{
    FeatureCollection { features, crs: Some(Crs::Wgs84) }
}

fn one(feature: Feature<String, JsonValue>) -> (r: Vec<Feature<String, JsonValue>>)
    ensures
        features_view(r@) == seq![feature@],
{
    let mut out: Vec<Feature<String, JsonValue>> = Vec::new();
    out.push(feature);
    assert(features_view(out@) =~= seq![feature@]);
    out
}

/// The collection that a JSON document is.
pub fn from_json(value: &JsonValue) -> (r: Result<FeatureCollection<String, JsonValue>, Error>)
    ensures
        match collection_of(value@) {
            Ok(c) => r matches Ok(w) && w@ == c,
            Err(e) => r matches Err(w) && w@ == e,
        },
{
    let ty = match stated_type(value) {
        Some(t) => t,
        None => {
            return err("missing \"type\" member");
        },
    };
    if same_text(ty, "FeatureCollection") {
        let items = match value.get("features") {
            Some(f) => f.as_array(),
            None => None,
        };
        let items = match items {
            Some(a) => a,
            None => {
                return err("FeatureCollection missing \"features\" array");
            },
        };
        let ghost all = items_view(items@);
        let ghost item = |i: Json| feature_of(i);
        let mut features: Vec<Feature<String, JsonValue>> = Vec::new();
        let mut i: usize = 0;
        assert(features_view(features@) =~= Seq::<Item<Seq<char>, Json>>::empty());
        while i < items.len()
            invariant
                i <= items@.len(),
                all == items_view(items@),
                item == (|i: Json| feature_of(i)),
                features_of(value@) == each_from(all, i as int, item, features_view(features@)),
            decreases items@.len() - i,
        {
            assert(all[i as int] == items@[i as int]@);
            let f = parse_feature(&items[i])?;
            let ghost before = features@;
            let ghost view = f@;
            features.push(f);
            assert(features_view(features@) =~= features_view(before).push(view));
            i += 1;
        }
        return Ok(wgs84(features));
    }
    if same_text(ty, "Feature") {
        let f = parse_feature(value)?;
        return Ok(wgs84(one(f)));
    }
    let g = parse_geometry(value)?;
    let feature = Feature { geometry: Some(g), properties: Vec::new() };
    assert(properties_view(feature.properties@) =~= Seq::<(Seq<char>, Json)>::empty());
    Ok(wgs84(one(feature)))
}

/// The collection that a GeoJSON text is: that of its JSON document.
pub fn from_geojson_str(input: &str) -> (r: Result<FeatureCollection<String, JsonValue>, Error>)
    ensures
        match collection_of_text(input@) {
            Ok(c) => r matches Ok(w) && w@ == c,
            Err(e) => r matches Err(w) && w@ == e,
        },
{
    let value = parse(input)?;
    from_json(&value)
}

} // verus!
