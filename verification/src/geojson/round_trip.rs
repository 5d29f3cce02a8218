//! Reading GeoJSON that was written gives the features back.
use vstd::prelude::*;

use super::reader::{
    collection_of, collection_of_text, each_from, feature_of, member_place, polygons_of,
    position_of, run_of, runs_of, shape_of, shapes_from,
};
use super::writer::{
    collection_json, coordinates_json, feature_json, ordinate_json, polygons_json, position_json,
    run_json, runs_json, shape_json, shape_type,
};
use crate::crs::system::System;
use crate::decimal::{is_finite_text, law_plain_is_plain, plain_number};
use crate::error::Failure;
use crate::feature::{Item, Items};
use crate::geometry::{Position, Shape};
use crate::json::parser::all_digits;
use crate::json::round_trip::{
    are_alike, in_number, is_number_token, is_plainly_numbered, law_json_reads_as_written,
    lemma_alike_itself, lemma_reads_only_as_itself, lemma_well_is_plainly_numbered,
    lemma_what_is_read, reads_as, well_numbered,
};
use crate::json::value::{first_member, json_text, number_text, Json};

verus! {

// --- geometries without M, of plain numbers ------------------------------------------

/// Whether an ordinate is a number within the range of a double, written plainly.
pub open spec fn is_plain_ordinate(t: Seq<char>) -> bool {
    is_finite_text(t) && plain_number(t) == t
}

/// Whether a position has no M, and ordinates written plainly.
pub open spec fn is_writable(p: Position<Seq<char>>) -> bool {
    &&& p.m is None
    &&& is_plain_ordinate(p.x)
    &&& is_plain_ordinate(p.y)
    &&& p.z is Some ==> is_plain_ordinate(p.z->0)
}

pub open spec fn is_writable_run(run: Seq<Position<Seq<char>>>) -> bool {
    forall|i: int| 0 <= i < run.len() ==> is_writable(#[trigger] run[i])
}

pub open spec fn are_writable_runs(runs: Seq<Seq<Position<Seq<char>>>>) -> bool {
    forall|i: int| 0 <= i < runs.len() ==> is_writable_run(#[trigger] runs[i])
}

/// Whether every position of a geometry has no M, and ordinates written plainly.
pub open spec fn is_writable_shape(s: Shape<Seq<char>>) -> bool
    decreases s,
{
    match s {
        Shape::Point(p) => is_writable(p),
        Shape::LineString(run) => is_writable_run(run),
        Shape::MultiPoint(run) => is_writable_run(run),
        Shape::Polygon(rings) => are_writable_runs(rings),
        Shape::MultiLineString(lines) => are_writable_runs(lines),
        Shape::MultiPolygon(polygons) => forall|i: int|
            0 <= i < polygons.len() ==> are_writable_runs(#[trigger] polygons[i]),
        Shape::GeometryCollection(parts) => forall|i: int|
            0 <= i < parts.len() ==> is_writable_shape(#[trigger] parts[i]),
    }
}

/// Whether a feature can be written without loss: its geometry has no M, and its
/// numbers are written plainly.
pub open spec fn is_writable_feature(f: Item<Seq<char>, Json>) -> bool {
    &&& f.geometry is Some ==> is_writable_shape(f.geometry->0)
    &&& well_numbered(Json::Object(f.properties))
}

// --- the tree ------------------------------------------------------------------------

proof fn lemma_keys_differ()
    ensures
        "type"@ != "coordinates"@,
        "type"@ != "geometries"@,
        "type"@ != "features"@,
        "type"@ != "geometry"@,
        "type"@ != "properties"@,
        "geometry"@ != "properties"@,
        "FeatureCollection"@ != "Feature"@,
{
    reveal_strlit("type");
    reveal_strlit("coordinates");
    reveal_strlit("geometries");
    reveal_strlit("features");
    reveal_strlit("geometry");
    reveal_strlit("properties");
    reveal_strlit("FeatureCollection");
    reveal_strlit("Feature");
    assert("type"@.len() == 4);
    assert("coordinates"@.len() == 11);
    assert("geometries"@.len() == 10);
    assert("features"@.len() == 8);
    assert("geometry"@.len() == 8);
    assert("properties"@.len() == 10);
    assert("FeatureCollection"@.len() == 17);
    assert("Feature"@.len() == 7);
}

proof fn lemma_types_differ()
    ensures
        "Point"@ != "LineString"@,
        "Point"@ != "Polygon"@,
        "Point"@ != "MultiPoint"@,
        "Point"@ != "MultiLineString"@,
        "Point"@ != "MultiPolygon"@,
        "Point"@ != "GeometryCollection"@,
        "LineString"@ != "Polygon"@,
        "LineString"@ != "MultiPoint"@,
        "LineString"@ != "MultiLineString"@,
        "LineString"@ != "MultiPolygon"@,
        "LineString"@ != "GeometryCollection"@,
        "Polygon"@ != "MultiPoint"@,
        "Polygon"@ != "MultiLineString"@,
        "Polygon"@ != "MultiPolygon"@,
        "Polygon"@ != "GeometryCollection"@,
        "MultiPoint"@ != "MultiLineString"@,
        "MultiPoint"@ != "MultiPolygon"@,
        "MultiPoint"@ != "GeometryCollection"@,
        "MultiLineString"@ != "MultiPolygon"@,
        "MultiLineString"@ != "GeometryCollection"@,
        "MultiPolygon"@ != "GeometryCollection"@,
{
    reveal_strlit("Point");
    reveal_strlit("LineString");
    reveal_strlit("Polygon");
    reveal_strlit("MultiPoint");
    reveal_strlit("MultiLineString");
    reveal_strlit("MultiPolygon");
    reveal_strlit("GeometryCollection");
    assert("Point"@.len() == 5);
    assert("LineString"@.len() == 10);
    assert("Polygon"@.len() == 7);
    assert("MultiPoint"@.len() == 10);
    assert("MultiLineString"@.len() == 15);
    assert("MultiPolygon"@.len() == 12);
    assert("GeometryCollection"@.len() == 18);
    assert("LineString"@[0] == 'L');
    assert("MultiPoint"@[0] == 'M');
}

/// The members of an object of two.
proof fn lemma_first_of_two(a: (Seq<char>, Json), b: (Seq<char>, Json), key: Seq<char>)
    ensures
        key == a.0 ==> Json::Object(seq![a, b]).member(key) == Some(a.1) && member_place(
            seq![a, b],
            key,
            0,
        ) == 0,
        key != a.0 && key == b.0 ==> Json::Object(seq![a, b]).member(key) == Some(b.1)
            && member_place(seq![a, b], key, 0) == 1,
{
    let m = seq![a, b];
    reveal_with_fuel(first_member, 3);
    reveal_with_fuel(member_place, 3);
    assert(m.drop_first() =~= seq![b]);
    assert(m[0] == a);
    assert(m[1] == b);
    assert(seq![b][0] == b);
}

/// The members of an object of three.
proof fn lemma_first_of_three(
    a: (Seq<char>, Json),
    b: (Seq<char>, Json),
    c: (Seq<char>, Json),
    key: Seq<char>,
)
    ensures
        key == a.0 ==> Json::Object(seq![a, b, c]).member(key) == Some(a.1),
        key != a.0 && key == b.0 ==> Json::Object(seq![a, b, c]).member(key) == Some(b.1),
        key != a.0 && key != b.0 && key == c.0 ==> Json::Object(seq![a, b, c]).member(key) == Some(
            c.1,
        ),
{
    let m = seq![a, b, c];
    reveal_with_fuel(first_member, 4);
    assert(m.drop_first() =~= seq![b, c]);
    assert(seq![b, c].drop_first() =~= seq![c]);
    assert(m[0] == a);
    assert(seq![b, c][0] == b);
    assert(seq![c][0] == c);
}

/// What `item` gives for each value of a list is what it gives for the list.
proof fn lemma_each<T>(
    values: Seq<Json>,
    i: int,
    item: spec_fn(Json) -> Result<T, Failure>,
    all: Seq<T>,
)
    requires
        0 <= i <= values.len(),
        all.len() == values.len(),
        forall|k: int| 0 <= k < values.len() ==> item(#[trigger] values[k]) == Ok::<T, Failure>(
            all[k],
        ),
    ensures
        each_from(values, i, item, all.take(i)) == Ok::<Seq<T>, Failure>(all),
    decreases values.len() - i,
{
    if i < values.len() {
        assert(item(values[i]) == Ok::<T, Failure>(all[i]));
        assert(all.take(i).push(all[i]) =~= all.take(i + 1));
        lemma_each(values, i + 1, item, all);
    } else {
        assert(all.take(i) =~= all);
    }
}

proof fn lemma_position_reads(p: Position<Seq<char>>, v: Json)
    requires
        p.m is None,
        are_alike(position_json(p), v),
    ensures
        position_of(v) == Ok::<Position<Seq<char>>, Failure>(p),
{
    let items = position_json(p)->Array_0;
    let values = v->Array_0;
    assert(are_alike(items[0], values[0]));
    assert(are_alike(items[1], values[1]));
    if p.z is Some {
        assert(are_alike(items[2], values[2]));
    }
}

proof fn lemma_run_reads(run: Seq<Position<Seq<char>>>, v: Json)
    requires
        is_writable_run(run),
        are_alike(run_json(run), v),
    ensures
        run_of(v) == Ok::<Seq<Position<Seq<char>>>, Failure>(run),
{
    let items = run_json(run)->Array_0;
    let values = v->Array_0;
    let item = |i: Json| position_of(i);
    assert forall|k: int| 0 <= k < values.len() implies item(#[trigger] values[k]) == Ok::<
        Position<Seq<char>>,
        Failure,
    >(run[k]) by {
        assert(is_writable(run[k]));
        assert(are_alike(items[k], values[k]));
        lemma_position_reads(run[k], values[k]);
    }
    lemma_each(values, 0, item, run);
    assert(run.take(0) =~= Seq::<Position<Seq<char>>>::empty());
}

proof fn lemma_runs_read(runs: Seq<Seq<Position<Seq<char>>>>, v: Json)
    requires
        are_writable_runs(runs),
        are_alike(runs_json(runs), v),
    ensures
        runs_of(v) == Ok::<Seq<Seq<Position<Seq<char>>>>, Failure>(runs),
{
    let items = runs_json(runs)->Array_0;
    let values = v->Array_0;
    let item = |i: Json| run_of(i);
    assert forall|k: int| 0 <= k < values.len() implies item(#[trigger] values[k]) == Ok::<
        Seq<Position<Seq<char>>>,
        Failure,
    >(runs[k]) by {
        assert(is_writable_run(runs[k]));
        assert(are_alike(items[k], values[k]));
        lemma_run_reads(runs[k], values[k]);
    }
    lemma_each(values, 0, item, runs);
    assert(runs.take(0) =~= Seq::<Seq<Position<Seq<char>>>>::empty());
}

proof fn lemma_polygons_read(polygons: Seq<Seq<Seq<Position<Seq<char>>>>>, v: Json)
    requires
        forall|i: int| 0 <= i < polygons.len() ==> are_writable_runs(#[trigger] polygons[i]),
        are_alike(polygons_json(polygons), v),
    ensures
        polygons_of(v) == Ok::<Seq<Seq<Seq<Position<Seq<char>>>>>, Failure>(polygons),
{
    let items = polygons_json(polygons)->Array_0;
    let values = v->Array_0;
    let item = |i: Json| runs_of(i);
    assert forall|k: int| 0 <= k < values.len() implies item(#[trigger] values[k]) == Ok::<
        Seq<Seq<Position<Seq<char>>>>,
        Failure,
    >(polygons[k]) by {
        assert(are_writable_runs(polygons[k]));
        assert(are_alike(items[k], values[k]));
        lemma_runs_read(polygons[k], values[k]);
    }
    lemma_each(values, 0, item, polygons);
    assert(polygons.take(0) =~= Seq::<Seq<Seq<Position<Seq<char>>>>>::empty());
}

/// A geometry that has no M is read back from its JSON value.
pub proof fn law_shape_reads_back(s: Shape<Seq<char>>)
    requires
        is_writable_shape(s),
    ensures
        shape_of(shape_json(s)) == Ok::<Shape<Seq<char>>, Failure>(s),
{
    lemma_alike_itself(shape_json(s));
    lemma_shape_reads(s, shape_json(s));
}

/// A geometry that has no M is read from what is like its JSON value.
proof fn lemma_shape_reads(s: Shape<Seq<char>>, v: Json)
    requires
        is_writable_shape(s),
        are_alike(shape_json(s), v),
    ensures
        shape_of(v) == Ok::<Shape<Seq<char>>, Failure>(s),
    decreases s, 0nat,
{
    let key = if s is GeometryCollection {
        "geometries"@
    } else {
        "coordinates"@
    };
    let written = shape_json(s)->Object_0;
    let members = v->Object_0;
    let a = members[0];
    let b = members[1];
    assert(written.len() == 2);
    assert(written[0] == ("type"@, Json::String(shape_type(s))));
    assert(written[1] == (key, coordinates_json(s)));
    assert(a.0 == written[0].0 && are_alike(written[0].1, a.1));
    assert(b.0 == written[1].0 && are_alike(written[1].1, b.1));
    assert(members =~= seq![a, b]);
    lemma_keys_differ();
    lemma_types_differ();
    lemma_first_of_two(a, b, "type"@);
    lemma_first_of_two(a, b, key);
    match s {
        Shape::Point(p) => lemma_position_reads(p, b.1),
        Shape::LineString(run) => lemma_run_reads(run, b.1),
        Shape::MultiPoint(run) => lemma_run_reads(run, b.1),
        Shape::Polygon(rings) => lemma_runs_read(rings, b.1),
        Shape::MultiLineString(lines) => lemma_runs_read(lines, b.1),
        Shape::MultiPolygon(polygons) => lemma_polygons_read(polygons, b.1),
        Shape::GeometryCollection(parts) => {
            let items = coordinates_json(s)->Array_0;
            let values = b.1->Array_0;
            assert forall|k: int| 0 <= k < parts.len() implies are_alike(
                shape_json(parts[k]),
                #[trigger] values[k],
            ) by {
                assert(are_alike(items[k], values[k]));
            }
            lemma_parts_read(parts, values, 0);
            assert(parts.take(0) =~= Seq::<Shape<Seq<char>>>::empty());
        },
    }
}

proof fn lemma_parts_read(parts: Seq<Shape<Seq<char>>>, values: Seq<Json>, i: int)
    requires
        0 <= i <= parts.len(),
        values.len() == parts.len(),
        forall|k: int|
            0 <= k < parts.len() ==> are_alike(shape_json(parts[k]), #[trigger] values[k]),
        forall|k: int| 0 <= k < parts.len() ==> is_writable_shape(#[trigger] parts[k]),
    ensures
        shapes_from(values, i, parts.take(i)) == Ok::<Seq<Shape<Seq<char>>>, Failure>(parts),
    decreases parts, (parts.len() - i) as nat,
{
    if i < parts.len() {
        assert(are_alike(shape_json(parts[i]), values[i]));
        lemma_shape_reads(parts[i], values[i]);
        assert(parts.take(i).push(parts[i]) =~= parts.take(i + 1));
        lemma_parts_read(parts, values, i + 1);
    } else {
        assert(parts.take(i) =~= parts);
    }
}

/// A feature whose geometry has no M is read back from its JSON value.
pub proof fn law_feature_reads_back(f: Item<Seq<char>, Json>)
    requires
        is_writable_feature(f),
    ensures
        feature_of(feature_json(f)) == Ok::<Item<Seq<char>, Json>, Failure>(f),
{
    lemma_alike_itself(feature_json(f));
    lemma_feature_reads(f, feature_json(f));
}

/// A feature is read from what is like its JSON value, with the same properties.
proof fn lemma_feature_reads(f: Item<Seq<char>, Json>, v: Json)
    requires
        is_writable_feature(f),
        are_alike(feature_json(f), v),
        v->Object_0[2].1 == Json::Object(f.properties),
    ensures
        feature_of(v) == Ok::<Item<Seq<char>, Json>, Failure>(f),
{
    let written = feature_json(f)->Object_0;
    let members = v->Object_0;
    let a = members[0];
    let b = members[1];
    let c = members[2];
    assert(written.len() == 3);
    assert(a.0 == written[0].0);
    assert(b.0 == written[1].0);
    assert(c.0 == written[2].0);
    assert(are_alike(written[1].1, b.1));
    assert(members =~= seq![a, b, c]);
    lemma_keys_differ();
    lemma_first_of_three(a, b, c, "geometry"@);
    lemma_first_of_three(a, b, c, "properties"@);
    if let Some(s) = f.geometry {
        lemma_shape_reads(s, b.1);
    }
}

/// Features whose geometries have no M are read back from the JSON value of their
/// collection, in WGS 84.
pub proof fn law_collection_reads_back(features: Seq<Item<Seq<char>, Json>>)
    requires
        forall|i: int| 0 <= i < features.len() ==> is_writable_feature(#[trigger] features[i]),
    ensures
        collection_of(collection_json(features)) == Ok::<Items<Seq<char>, Json>, Failure>(
            Items { features, crs: Some(System::Wgs84) },
        ),
{
    let values = collection_json(features)->Object_0[1].1->Array_0;
    assert forall|k: int| 0 <= k < values.len() implies feature_of(#[trigger] values[k]) == Ok::<
        Item<Seq<char>, Json>,
        Failure,
    >(features[k]) by {
        assert(is_writable_feature(features[k]));
        law_feature_reads_back(features[k]);
    }
    lemma_collection_reads(features, collection_json(features));
}

/// Features are read from a collection of values that they are read from.
proof fn lemma_collection_reads(features: Seq<Item<Seq<char>, Json>>, v: Json)
    requires
        v is Object,
        v->Object_0.len() == 2,
        v->Object_0[0] == ("type"@, Json::String("FeatureCollection"@)),
        v->Object_0[1].0 == "features"@,
        v->Object_0[1].1 is Array,
        v->Object_0[1].1->Array_0.len() == features.len(),
        forall|k: int|
            0 <= k < features.len() ==> feature_of(#[trigger] v->Object_0[1].1->Array_0[k]) == Ok::<
                Item<Seq<char>, Json>,
                Failure,
            >(features[k]),
    ensures
        collection_of(v) == Ok::<Items<Seq<char>, Json>, Failure>(
            Items { features, crs: Some(System::Wgs84) },
        ),
{
    let a = v->Object_0[0];
    let b = v->Object_0[1];
    let values = b.1->Array_0;
    assert(v->Object_0 =~= seq![a, b]);
    lemma_keys_differ();
    lemma_first_of_two(a, b, "type"@);
    lemma_first_of_two(a, b, "features"@);
    let item = |i: Json| feature_of(i);
    assert forall|k: int| 0 <= k < values.len() implies item(#[trigger] values[k]) == Ok::<
        Item<Seq<char>, Json>,
        Failure,
    >(features[k]) by {
        assert(feature_of(v->Object_0[1].1->Array_0[k]) == Ok::<Item<Seq<char>, Json>, Failure>(
            features[k],
        ));
    }
    lemma_each(values, 0, item, features);
    assert(features.take(0) =~= Seq::<Item<Seq<char>, Json>>::empty());
}

// --- the text ------------------------------------------------------------------------

proof fn lemma_ordinate_is_numbered(t: Seq<char>)
    requires
        is_plain_ordinate(t),
    ensures
        is_plainly_numbered(ordinate_json(t)),
{
    reveal(number_text);
    law_plain_is_plain(t);
    let first: int = if t[0] == '-' {
        1
    } else {
        0
    };
    assert forall|i: int| 0 <= i < t.len() implies in_number(#[trigger] t[i]) by {
        assert(plain_number(t)[i] == t[i]);
    }
    assert(is_number_token(t, all_digits(t, first, t.len() as int)));
}

proof fn lemma_position_is_numbered(p: Position<Seq<char>>)
    requires
        is_writable(p),
    ensures
        is_plainly_numbered(position_json(p)),
{
    lemma_ordinate_is_numbered(p.x);
    lemma_ordinate_is_numbered(p.y);
    if let Some(z) = p.z {
        lemma_ordinate_is_numbered(z);
    }
}

proof fn lemma_run_is_numbered(run: Seq<Position<Seq<char>>>)
    requires
        is_writable_run(run),
    ensures
        is_plainly_numbered(run_json(run)),
{
    let items = run_json(run)->Array_0;
    assert forall|i: int| 0 <= i < items.len() implies is_plainly_numbered(#[trigger] items[i]) by {
        assert(is_writable(run[i]));
        lemma_position_is_numbered(run[i]);
    }
}

proof fn lemma_runs_are_numbered(runs: Seq<Seq<Position<Seq<char>>>>)
    requires
        are_writable_runs(runs),
    ensures
        is_plainly_numbered(runs_json(runs)),
{
    let items = runs_json(runs)->Array_0;
    assert forall|i: int| 0 <= i < items.len() implies is_plainly_numbered(#[trigger] items[i]) by {
        assert(is_writable_run(runs[i]));
        lemma_run_is_numbered(runs[i]);
    }
}

proof fn lemma_shape_is_numbered(s: Shape<Seq<char>>)
    requires
        is_writable_shape(s),
    ensures
        is_plainly_numbered(shape_json(s)),
    decreases s,
{
    let inside = coordinates_json(s);
    match s {
        Shape::Point(p) => lemma_position_is_numbered(p),
        Shape::LineString(run) => lemma_run_is_numbered(run),
        Shape::MultiPoint(run) => lemma_run_is_numbered(run),
        Shape::Polygon(rings) => lemma_runs_are_numbered(rings),
        Shape::MultiLineString(lines) => lemma_runs_are_numbered(lines),
        Shape::MultiPolygon(polygons) => {
            let items = polygons_json(polygons)->Array_0;
            assert forall|i: int| 0 <= i < items.len() implies is_plainly_numbered(
                #[trigger] items[i],
            ) by {
                assert(are_writable_runs(polygons[i]));
                lemma_runs_are_numbered(polygons[i]);
            }
        },
        Shape::GeometryCollection(parts) => {
            let items = inside->Array_0;
            assert forall|i: int| 0 <= i < items.len() implies is_plainly_numbered(
                #[trigger] items[i],
            ) by {
                assert(is_writable_shape(parts[i]));
                lemma_shape_is_numbered(parts[i]);
                assert(items[i] == shape_json(parts[i]));
            }
        },
    }
    assert(is_plainly_numbered(inside));
    let members = shape_json(s)->Object_0;
    assert forall|i: int| 0 <= i < members.len() implies is_plainly_numbered(
        (#[trigger] members[i]).1,
    ) by {
        assert(i == 0 || i == 1);
    }
}

/// The JSON value of a feature has numbers that are written as they are.
proof fn lemma_feature_is_numbered(f: Item<Seq<char>, Json>)
    requires
        is_writable_feature(f),
    ensures
        is_plainly_numbered(feature_json(f)),
{
    if let Some(s) = f.geometry {
        lemma_shape_is_numbered(s);
    }
    lemma_well_is_plainly_numbered(Json::Object(f.properties));
    let members = feature_json(f)->Object_0;
    assert forall|i: int| 0 <= i < members.len() implies is_plainly_numbered(
        (#[trigger] members[i]).1,
    ) by {
        assert(i == 0 || i == 1 || i == 2);
    }
}

/// A feature is read from what is read where its JSON value was written.
proof fn lemma_written_feature_reads(f: Item<Seq<char>, Json>, v: Json)
    requires
        is_writable_feature(f),
        reads_as(feature_json(f), v),
        are_alike(feature_json(f), v),
    ensures
        feature_of(v) == Ok::<Item<Seq<char>, Json>, Failure>(f),
{
    let written = feature_json(f)->Object_0;
    assert(written[2].1 == Json::Object(f.properties));
    assert(reads_as(written[2].1, v->Object_0[2].1));
    lemma_reads_only_as_itself(written[2].1, v->Object_0[2].1);
    lemma_feature_reads(f, v);
}

/// Reading the text of a collection whose geometries have no M gives its features
/// back, in WGS 84.
pub proof fn law_geojson_round_trip(features: Seq<Item<Seq<char>, Json>>)
    requires
        forall|i: int| 0 <= i < features.len() ==> is_writable_feature(#[trigger] features[i]),
    ensures
        collection_of_text(json_text(collection_json(features))) == Ok::<
            Items<Seq<char>, Json>,
            Failure,
        >(Items { features, crs: Some(System::Wgs84) }),
{
    let v = collection_json(features);
    let written = v->Object_0;
    let items = written[1].1->Array_0;
    assert forall|i: int| 0 <= i < items.len() implies is_plainly_numbered(#[trigger] items[i]) by {
        assert(is_writable_feature(features[i]));
        lemma_feature_is_numbered(features[i]);
    }
    assert(is_plainly_numbered(Json::Array(items)));
    assert forall|i: int| 0 <= i < written.len() implies is_plainly_numbered(
        (#[trigger] written[i]).1,
    ) by {
        assert(i == 0 || i == 1);
    }
    let w = lemma_what_is_read(v);
    law_json_reads_as_written(v, w);
    let members = w->Object_0;
    assert(members[0].0 == written[0].0 && are_alike(written[0].1, members[0].1));
    assert(members[1].0 == written[1].0 && are_alike(written[1].1, members[1].1));
    assert(reads_as(written[1].1, members[1].1));
    let values = members[1].1->Array_0;
    assert forall|k: int| 0 <= k < features.len() implies feature_of(#[trigger] values[k]) == Ok::<
        Item<Seq<char>, Json>,
        Failure,
    >(features[k]) by {
        assert(is_writable_feature(features[k]));
        assert(items[k] == feature_json(features[k]));
        assert(reads_as(items[k], values[k]));
        assert(are_alike(items[k], values[k]));
        lemma_written_feature_reads(features[k], values[k]);
    }
    lemma_collection_reads(features, w);
}

} // verus!
