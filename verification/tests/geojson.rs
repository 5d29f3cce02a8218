//! GeoJSON.
use geosetta::geojson::{from_geojson_str, from_json, to_geojson_string};
use geosetta::geometry::{Geometry, Position};
use geosetta::json::parse;


#[test]
fn parses_feature_collection() {
    let doc = r#"{
        "type": "FeatureCollection",
        "features": [
            {"type": "Feature",
             "geometry": {"type": "Point", "coordinates": [1.0, 2.0]},
             "properties": {"name": "a", "n": 3}}
        ]
    }"#;
    let fc = from_json(&parse(doc).unwrap()).unwrap();
    assert_eq!(fc.features.len(), 1);
    assert_eq!(fc.features[0].geometry, Some(Geometry::Point(Position::new("1.0".to_string(), "2.0".to_string()))));
    assert_eq!(fc.features[0].properties[0].0, "name");
}

#[test]
fn wraps_bare_geometry_and_feature() {
    let g = from_json(&parse(r#"{"type":"Point","coordinates":[0,0]}"#).unwrap()).unwrap();
    assert_eq!(g.features.len(), 1);
    let f = from_json(
        &parse(r#"{"type":"Feature","geometry":null,"properties":null}"#).unwrap(),
    )
    .unwrap();
    assert!(f.features[0].geometry.is_none());
    assert!(f.features[0].properties.is_empty());
}

#[test]
fn streaming_reader_matches_tree_reader() {
    let docs = [
        r#"{"type":"FeatureCollection","features":[
            {"type":"Feature","geometry":{"type":"Point","coordinates":[-73.9857,40.7484,12.5]},
             "properties":{"name":"Café ☕","h":381,"ok":true,"r":4.7,"tags":["a",{"b":1}],"z":null}},
            {"type":"Feature","geometry":{"coordinates":[[0,0],[1.5,2.25]],"type":"LineString"},
             "properties":null},
            {"type":"Feature","properties":{"only":"props"},"geometry":null},
            {"geometry":{"type":"MultiPolygon","coordinates":[[[[0,0],[1,0],[1,1],[0,0]]]]},"type":"Feature","id":7},
            {"type":"Feature","geometry":{"type":"GeometryCollection","geometries":[
                {"type":"Point","coordinates":[1,2]},
                {"type":"MultiPoint","coordinates":[[3,4],[5,6]]}]},"properties":{}}
        ],"bbox":[0,0,1,1]}"#,
        r#"{"type":"Feature","geometry":{"type":"Point","coordinates":[1,2]},"properties":{"a":1}}"#,
        r#"{"type":"Polygon","coordinates":[[[0,0],[1,0],[1,1],[0,0]]]}"#,
        r#"{"type":"FeatureCollection","features":[]}"#,
        "{\n  \"type\": \"FeatureCollection\",\n  \"features\": [\n    {\n      \"type\": \"Feature\",\n      \"geometry\": { \"type\": \"Point\", \"coordinates\": [ 1.0, 2.0 ] },\n      \"properties\": { \"a\": 1 }\n    }\n  ]\n}",
    ];
    for doc in docs {
        let streamed = from_geojson_str(doc).unwrap();
        let treed = from_json(&parse(doc).unwrap()).unwrap();
        assert_eq!(streamed, treed, "mismatch for: {doc}");
    }
}

#[test]
fn streaming_reader_rejects_malformed() {
    assert!(from_geojson_str(r#"{"type":"FeatureCollection","features":[]} garbage"#).is_err());
    assert!(from_geojson_str(r#"{"type":"FeatureCollection","features":[{"type":"Feature""#).is_err());
    assert!(from_geojson_str(r#"{"type":"FeatureCollection","features":[{"type":"Feature","geometry":{"type":"Point","coordinates":[1]}}]}"#).is_err());
}

#[test]
fn direct_writer_matches_tree_serialization() {
    let doc = r#"{
        "type": "FeatureCollection",
        "features": [
            {"type":"Feature","geometry":{"type":"Point","coordinates":[-73.9857,40.7484]},
             "properties":{"name":"Café ☕","h":381,"ok":true,"r":4.7,"tags":["a","b"],"z":null}},
            {"type":"Feature","geometry":{"type":"LineString","coordinates":[[0,0],[1.5,2.25]]},
             "properties":{}},
            {"type":"Feature","geometry":{"type":"Polygon","coordinates":[[[0,0],[1,0],[1,1],[0,0]]]},
             "properties":{"n":12}},
            {"type":"Feature","geometry":{"type":"MultiPolygon","coordinates":[[[[0,0],[1,0],[1,1],[0,0]]]]},
             "properties":{}},
            {"type":"Feature","geometry":null,"properties":{"only":"props"}}
        ]
    }"#;
    let fc = from_json(&parse(doc).unwrap()).unwrap();
    let written = to_geojson_string(&fc);
    assert_eq!(written, parse(&written).unwrap().to_json_string());
    assert_eq!(from_geojson_str(&written).unwrap(), fc);
}

#[test]
fn parses_polygon_rings() {
    let doc = r#"{"type":"Polygon","coordinates":[[[0,0],[1,0],[1,1],[0,0]]]}"#;
    let fc = from_json(&parse(doc).unwrap()).unwrap();
    match &fc.features[0].geometry {
        Some(Geometry::Polygon(rings)) => {
            assert_eq!(rings.len(), 1);
            assert_eq!(rings[0].len(), 4);
        }
        _ => panic!(),
    }
}

#[test]
fn geojson_failures_say_what_is_missing() {
    let sentence = |text: &str| from_geojson_str(text).unwrap_err().message();
    assert_eq!(sentence("{}"), "invalid geojson: missing \"type\" member");
    assert_eq!(
        sentence(r#"{"type":"FeatureCollection"}"#),
        "invalid geojson: FeatureCollection missing \"features\" array"
    );
    assert_eq!(
        sentence(r#"{"type":"Point"}"#),
        "invalid geojson: Point missing \"coordinates\""
    );
    assert_eq!(
        sentence(r#"{"type":"Point","coordinates":[1]}"#),
        "invalid geojson: coordinate needs at least 2 numbers"
    );
    assert_eq!(
        sentence(r#"{"type":"Point","coordinates":["a",1]}"#),
        "invalid geojson: coordinate x is not a number"
    );
    assert_eq!(
        sentence(r#"{"type":"Blob","coordinates":[]}"#),
        "invalid geojson: unknown geometry type \"Blob\""
    );
    assert_eq!(
        sentence(r#"{"type":"GeometryCollection"}"#),
        "invalid geojson: GeometryCollection missing \"geometries\""
    );
}

#[test]
fn a_collection_is_read_back_from_geojson() {
    let text = r#"{"type":"FeatureCollection","features":[{"type":"Feature","geometry":{"type":"Point","coordinates":[1.5,2,3]},"properties":{"a":1}},{"type":"Feature","geometry":null,"properties":{}}]}"#;
    let fc = from_geojson_str(text).unwrap();
    assert_eq!(from_geojson_str(&to_geojson_string(&fc)).unwrap(), fc);
}
