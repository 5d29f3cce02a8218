//! Conversions between formats.
use geosetta::convert::{
    convert, geometry_column, geoparquet_dim_suffix, read_features, reorder_hilbert,
    rows_to_features, write_features, PropertyColumn,
};
use geosetta::crs::{Crs, NamedCrs};
use geosetta::feature::{Feature, FeatureCollection};
use geosetta::flatgeobuf;
use geosetta::format::Format;
use geosetta::geojson;
use geosetta::geometry::{to_wkb, Geometry, Position};
use geosetta::json::{self, JsonValue};
use geosetta::kml;
use geosetta::property::PropValue;

const SAMPLE: &str = r#"{
    "type": "FeatureCollection",
    "features": [
        {"type": "Feature",
         "geometry": {"type": "Point", "coordinates": [-73.9857, 40.7484]},
         "properties": {"name": "Empire State", "height_m": 381, "landmark": true, "rating": 4.7}},
        {"type": "Feature",
         "geometry": {"type": "LineString", "coordinates": [[-73.99, 40.75],[-73.98, 40.76]]},
         "properties": {"name": "A Path", "landmark": false, "rating": 3.2}},
        {"type": "Feature",
         "geometry": {"type": "Polygon", "coordinates": [[[-74,40.7],[-73.95, 40.7],[-73.95, 40.75],[-74,40.7]]]},
         "properties": {"name": "A Zone", "height_m": 12, "rating": 5}},
        {"type": "Feature",
         "geometry": {"type": "Point", "coordinates": [-73.968, 40.7851]},
         "properties": {"name": "Café ☕", "landmark": true, "tags": ["a", "b"]}}
    ]
}"#;

fn xy(x: f64, y: f64) -> Position<u64> {
    Position::new(x.to_bits(), y.to_bits())
}

fn text_features(doc: &str) -> FeatureCollection<String, JsonValue> {
    geojson::from_json(&json::parse(doc).unwrap()).unwrap()
}

fn bits(p: &Position<String>) -> Position<u64> {
    let n = |t: &String| t.parse::<f64>().unwrap().to_bits();
    Position { x: n(&p.x), y: n(&p.y), z: p.z.as_ref().map(n), m: p.m.as_ref().map(n) }
}

fn as_bits(fc: FeatureCollection<String, JsonValue>) -> FeatureCollection<u64, JsonValue> {
    let features = fc
        .features
        .into_iter()
        .map(|f| Feature {
            geometry: f.geometry.map(|g| g.map_positions(&bits)),
            properties: f.properties,
        })
        .collect();
    FeatureCollection { features, crs: fc.crs }
}

fn sorted_geoms<N: std::fmt::Debug, P>(fc: &FeatureCollection<N, P>) -> Vec<String> {
    let mut all: Vec<String> = fc.features.iter().map(|f| format!("{:?}", f.geometry)).collect();
    all.sort();
    all
}

fn text_of(bytes: Vec<u8>) -> String {
    String::from_utf8(bytes).unwrap()
}

fn geometry_types(doc: &str) -> Vec<String> {
    geometry_column(&as_bits(text_features(doc))).types
}

#[test]
fn geojson_to_flatgeobuf_preserves_features() {
    let orig = as_bits(text_features(SAMPLE));
    let order = (0..orig.features.len()).collect();
    let fgb = flatgeobuf::writer::write(&orig, &vec![], &order);
    let back = flatgeobuf::read(&fgb).unwrap();
    assert_eq!(back.features.len(), orig.features.len());
    assert_eq!(sorted_geoms(&orig), sorted_geoms(&back));
}

#[test]
fn hilbert_reorder_preserves_the_feature_set() {
    let mut fc: FeatureCollection<u64, JsonValue> = FeatureCollection::new(vec![
        Feature { geometry: Some(Geometry::Point(xy(100.0, 100.0))), properties: vec![] },
        Feature { geometry: Some(Geometry::Point(xy(0.0, 0.0))), properties: vec![] },
        Feature { geometry: Some(Geometry::Point(xy(1.0, 1.0))), properties: vec![] },
    ]);
    let before = sorted_geoms(&fc);
    reorder_hilbert(&mut fc, &vec![1, 2, 0]);
    assert_eq!(sorted_geoms(&fc), before);
    assert_eq!(fc.features.last().unwrap().geometry, Some(Geometry::Point(xy(100.0, 100.0))));
}

#[test]
fn geoparquet_z_bearing_point_gets_the_z_suffix_in_geometry_types() {
    let doc = r#"{"type":"FeatureCollection","features":[
        {"type":"Feature","geometry":{"type":"Point","coordinates":[1.0,2.0,3.0]},"properties":{}}
    ]}"#;
    assert_eq!(geometry_types(doc), ["Point Z"]);
}

#[test]
fn geoparquet_mixed_2d_and_3d_points_get_both_type_entries() {
    let doc = r#"{"type":"FeatureCollection","features":[
        {"type":"Feature","geometry":{"type":"Point","coordinates":[1.0,2.0]},"properties":{}},
        {"type":"Feature","geometry":{"type":"Point","coordinates":[1.0,2.0,3.0]},"properties":{}}
    ]}"#;
    assert_eq!(geometry_types(doc), ["Point", "Point Z"]);
}

#[test]
fn geoparquet_2d_only_point_gets_no_suffix() {
    let doc = r#"{"type":"FeatureCollection","features":[
        {"type":"Feature","geometry":{"type":"Point","coordinates":[1.0,2.0]},"properties":{}}
    ]}"#;
    assert_eq!(geometry_types(doc), ["Point"]);
}

#[test]
fn geoparquet_m_and_zm_geometries_get_the_correct_suffix() {
    let n = |v: f64| v.to_bits();
    let fc: FeatureCollection<u64, JsonValue> = FeatureCollection::new(vec![
        Feature {
            geometry: Some(Geometry::Point(Position::with_m(n(1.0), n(2.0), n(5.0)))),
            properties: vec![],
        },
        Feature {
            geometry: Some(Geometry::Point(Position::with_zm(n(3.0), n(4.0), n(5.0), n(6.0)))),
            properties: vec![],
        },
    ]);
    assert_eq!(geometry_column(&fc).types, ["Point M", "Point ZM"]);
}

#[test]
fn flatgeobuf_wkt_only_crs_recovers_authority_code() {
    let wkt = "GEOGCRS[\"GDA2020\",DATUM[\"GDA2020\",ELLIPSOID[\"GRS 1980\",6378137,298.257222101,ID[\"EPSG\",7019]]],CS[ellipsoidal,2],ID[\"EPSG\",7844]]";
    let mut fc: FeatureCollection<u64, JsonValue> = FeatureCollection::new(vec![Feature {
        geometry: Some(Geometry::Point(xy(1.0, 2.0))),
        properties: vec![],
    }]);
    fc.crs = Some(Crs::Named(NamedCrs {
        authority: None,
        code: None,
        wkt: Some(wkt.into()),
        projjson: None,
    }));
    let fgb = flatgeobuf::writer::write(&fc, &vec![], &vec![0]);
    match flatgeobuf::read(&fgb).unwrap().crs {
        Some(Crs::Named(n)) => {
            assert_eq!(n.authority.as_deref(), Some("EPSG"));
            assert_eq!(n.code.as_deref(), Some("7844"));
        }
        other => panic!("expected recovered EPSG:7844, got {other:?}"),
    }
}

#[test]
fn wkt_lines_round_trip() {
    let orig = text_features(SAMPLE);
    let wkt = convert(Format::GeoJson, Format::Wkt, SAMPLE.as_bytes()).unwrap();
    let back = text_features(&text_of(convert(Format::Wkt, Format::GeoJson, &wkt).unwrap()));
    let geoms: Vec<_> = orig.features.iter().map(|f| &f.geometry).collect();
    let back_geoms: Vec<_> = back.features.iter().map(|f| &f.geometry).collect();
    assert_eq!(geoms, back_geoms);
}

#[test]
fn kml_writer_round_trips_geometry_and_properties() {
    let kml = convert(Format::GeoJson, Format::Kml, SAMPLE.as_bytes()).unwrap();
    let back = text_features(&text_of(convert(Format::Kml, Format::GeoJson, &kml).unwrap()));
    let orig = text_features(SAMPLE);
    assert_eq!(back.features.len(), orig.features.len());
    assert_eq!(sorted_geoms(&orig), sorted_geoms(&back));
}

#[test]
fn kmz_writer_round_trips_through_our_own_reader() {
    let orig = text_features(SAMPLE);
    let back = kml::read_kmz(&kml::write_kmz(&orig)).unwrap();
    assert_eq!(back.features.len(), orig.features.len());
    assert_eq!(sorted_geoms(&orig), sorted_geoms(&back));
}

#[test]
fn text_formats_keep_numbers_and_features() {
    let csv = convert(Format::GeoJson, Format::Csv, SAMPLE.as_bytes()).unwrap();
    let text = text_of(csv.clone());
    assert!(text.starts_with("name,height_m,landmark,rating,tags,geometry\n"), "{text}");
    let back = read_features(Format::Csv, &csv).unwrap();
    let orig = text_features(SAMPLE);
    assert_eq!(sorted_geoms(&orig), sorted_geoms(&back));
    let again = write_features(Format::GeoJson, &orig).unwrap();
    assert_eq!(text_features(&text_of(again)), orig);
}

#[test]
fn formats_that_are_read_elsewhere_are_refused() {
    let read = |f: Format| read_features(f, b"").unwrap_err().message();
    let write = |f: Format| write_features(f, &text_features(SAMPLE)).unwrap_err().message();
    assert_eq!(
        read(Format::Gpkg),
        "GeoPackage input is handled per-layer; this path should not be reached"
    );
    assert_eq!(
        read(Format::Shapefile),
        "Shapefile input is handled via its sibling files; this path should not be reached"
    );
    assert_eq!(write(Format::Gpkg), "writing GeoPackage is not supported yet");
    assert_eq!(
        write(Format::Shapefile),
        "Shapefile output is handled via its sibling files; this path should not be reached"
    );
}

#[test]
fn broken_inputs_are_errors() {
    let sentence = |f: Format, b: &[u8]| read_features(f, b).unwrap_err().message();
    assert_eq!(sentence(Format::GeoJson, &[0xff]), "invalid geojson: input is not valid utf-8");
    assert_eq!(sentence(Format::Csv, &[0xff]), "conversion error: csv: input is not valid utf-8");
    assert_eq!(sentence(Format::Wkt, &[0xff]), "conversion error: wkt: input is not valid utf-8");
    assert!(sentence(Format::Wkt, b"POINT(1 2) x").starts_with("conversion error: wkt: "));
    assert!(sentence(Format::GeoJson, b"{").starts_with("json parse error at byte "));
}

#[test]
fn rows_become_features() {
    let wkb = to_wkb(&Geometry::Point(xy(1.0, 2.0)));
    let columns = vec![
        PropertyColumn { name: "a".into(), values: vec![PropValue::Int(1), PropValue::Null] },
        PropertyColumn { name: "b".into(), values: vec![PropValue::Bool(true)] },
    ];
    let fc = rows_to_features(&vec![Some(wkb), None], &columns, Some(Crs::Wgs84)).unwrap();
    assert_eq!(fc.crs, Some(Crs::Wgs84));
    assert_eq!(fc.features[0].geometry, Some(Geometry::Point(xy(1.0, 2.0))));
    assert_eq!(
        fc.features[0].properties,
        vec![("a".to_string(), PropValue::Int(1)), ("b".to_string(), PropValue::Bool(true))]
    );
    assert_eq!(fc.features[1].geometry, None);
    assert_eq!(fc.features[1].properties, vec![("a".to_string(), PropValue::Null)]);
    let e = rows_to_features(&vec![Some(vec![1, 2])], &vec![], None).unwrap_err().message();
    assert_eq!(e, "conversion error: truncated WKB geometry");
}

#[test]
fn features_are_put_into_an_order() {
    let mut fc = text_features(SAMPLE);
    let first = format!("{:?}", fc.features[0]);
    let last = format!("{:?}", fc.features[3]);
    reorder_hilbert(&mut fc, &vec![3, 1, 2, 0]);
    assert_eq!(format!("{:?}", fc.features[0]), last);
    assert_eq!(format!("{:?}", fc.features[3]), first);
}

#[test]
fn dimensions_are_those_of_the_first_position() {
    let p = |z: Option<u64>, m: Option<u64>| Geometry::Point(Position { x: 0, y: 0, z, m });
    assert_eq!(geoparquet_dim_suffix(&p(None, None)), "");
    assert_eq!(geoparquet_dim_suffix(&p(Some(0), None)), " Z");
    assert_eq!(geoparquet_dim_suffix(&p(None, Some(0))), " M");
    assert_eq!(geoparquet_dim_suffix(&p(Some(0), Some(0))), " ZM");
}

#[test]
fn wkt_lines_hold_the_geometries_alone() {
    let mut fc = text_features(SAMPLE);
    fc.features[1].geometry = None;
    let bytes = write_features(Format::Wkt, &fc).unwrap();
    let text = text_of(bytes.clone());
    assert_eq!(text.lines().count(), 4);
    assert_eq!(text.lines().nth(1), Some(""));
    let back = read_features(Format::Wkt, &bytes).unwrap();
    assert_eq!(back.features.len(), 3);
    assert_eq!(back.features[0].geometry, fc.features[0].geometry);
    assert_eq!(back.features[1].geometry, fc.features[2].geometry);
    assert!(back.features.iter().all(|f| f.properties.is_empty()));
}

#[test]
fn altitudes_travel_through_kml() {
    let doc = r#"{"type":"FeatureCollection","features":[{"type":"Feature","geometry":{"type":"Point","coordinates":[1.5,2,3]},"properties":{}}]}"#;
    let kml = convert(Format::GeoJson, Format::Kml, doc.as_bytes()).unwrap();
    let back = convert(Format::Kml, Format::GeoJson, &kml).unwrap();
    assert_eq!(String::from_utf8(back).unwrap(), doc);
}

#[test]
fn heights_are_kept_through_wkt_and_zeros_have_no_sign_there() {
    let doc = r#"{"type":"FeatureCollection","features":[
        {"type":"Feature","geometry":{"type":"Point","coordinates":[-0,-0.0,-5e-1]},"properties":{}},
        {"type":"Feature","geometry":null,"properties":{}},
        {"type":"Feature","geometry":{"type":"LineString","coordinates":[[0,1],[-1,-0]]},"properties":{}}]}"#;
    let lines = convert(Format::GeoJson, Format::Wkt, doc.as_bytes()).unwrap();
    assert_eq!(
        String::from_utf8(lines.clone()).unwrap(),
        "POINT Z (0 0 -0.5)\n\nLINESTRING (0 1, -1 0)\n"
    );
    let back = convert(Format::Wkt, Format::GeoJson, &lines).unwrap();
    assert_eq!(
        String::from_utf8(back).unwrap(),
        r#"{"type":"FeatureCollection","features":[{"type":"Feature","geometry":{"type":"Point","coordinates":[0,0,-0.5]},"properties":{}},{"type":"Feature","geometry":{"type":"LineString","coordinates":[[0,1],[-1,0]]},"properties":{}}]}"#
    );
}

#[test]
fn geojson_keeps_the_sign_of_a_zero() {
    let doc = r#"{"type":"FeatureCollection","features":[{"type":"Feature","geometry":{"type":"Point","coordinates":[-0,0]},"properties":{}}]}"#;
    let back = convert(Format::GeoJson, Format::GeoJson, doc.as_bytes()).unwrap();
    assert_eq!(String::from_utf8(back).unwrap(), doc);
}

#[test]
fn a_document_keeps_its_geometries_through_wkt() {
    let doc = r#"{"type":"FeatureCollection","features":[
        {"type":"Feature","geometry":{"type":"Point","coordinates":[1.50,2e1]},"properties":{"a":1}},
        {"type":"Feature","geometry":{"type":"GeometryCollection","geometries":[
            {"type":"MultiPolygon","coordinates":[[[[0,0],[1,0],[1,1],[0,0]]]]}]},"properties":null}]}"#;
    let lines = convert(Format::GeoJson, Format::Wkt, doc.as_bytes()).unwrap();
    let back = convert(Format::Wkt, Format::GeoJson, &lines).unwrap();
    assert_eq!(
        String::from_utf8(back).unwrap(),
        r#"{"type":"FeatureCollection","features":[{"type":"Feature","geometry":{"type":"Point","coordinates":[1.5,20]},"properties":{}},{"type":"Feature","geometry":{"type":"GeometryCollection","geometries":[{"type":"MultiPolygon","coordinates":[[[[0,0],[1,0],[1,1],[0,0]]]]}]},"properties":{}}]}"#
    );
}
