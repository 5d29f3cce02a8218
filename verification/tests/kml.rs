//! KML, read and written.
use geosetta::crs::Crs;
use geosetta::feature::{Feature, FeatureCollection};
use geosetta::geojson::from_json;
use geosetta::geometry::{Geometry, Position};
use geosetta::json::{parse, JsonValue};
use geosetta::kml::read_kmz;
use geosetta::kml::reader::{read, read_with_altitudes};

fn xy(x: f64, y: f64) -> Position<String> {
    Position::new(x.to_string(), y.to_string())
}



#[test]
fn reads_a_point_with_name_and_description() {
    let kml = r#"<kml><Document><Placemark>
        <name>Empire State</name>
        <description>A building</description>
        <Point><coordinates>-73.9857,40.7484,10</coordinates></Point>
    </Placemark></Document></kml>"#;
    let fc = read(kml.as_bytes()).unwrap();
    assert_eq!(fc.crs, Some(Crs::Wgs84));
    assert_eq!(fc.features.len(), 1);
    let f = &fc.features[0];
    assert_eq!(f.geometry, Some(Geometry::Point(xy(-73.9857, 40.7484))));
    let prop = |k: &str| f.properties.iter().find(|(n, _)| n == k).map(|(_, v)| v);
    assert_eq!(prop("name").unwrap().as_str(), Some("Empire State"));
    assert_eq!(prop("description").unwrap().as_str(), Some("A building"));
}

#[test]
fn reads_line_string_and_polygon_with_hole() {
    let kml = r#"<kml>
        <Placemark><LineString><coordinates>0,0 1,1 2,0</coordinates></LineString></Placemark>
        <Placemark><Polygon>
            <outerBoundaryIs><LinearRing><coordinates>0,0 4,0 4,4 0,4 0,0</coordinates></LinearRing></outerBoundaryIs>
            <innerBoundaryIs><LinearRing><coordinates>1,1 2,1 2,2 1,2 1,1</coordinates></LinearRing></innerBoundaryIs>
        </Polygon></Placemark>
    </kml>"#;
    let fc = read(kml.as_bytes()).unwrap();
    assert_eq!(fc.features.len(), 2);
    assert_eq!(
        fc.features[0].geometry,
        Some(Geometry::LineString(vec![xy(0.0, 0.0), xy(1.0, 1.0), xy(2.0, 0.0)]))
    );
    assert_eq!(
        fc.features[1].geometry,
        Some(Geometry::Polygon(vec![
            vec![xy(0.0, 0.0), xy(4.0, 0.0), xy(4.0, 4.0), xy(0.0, 4.0), xy(0.0, 0.0)],
            vec![xy(1.0, 1.0), xy(2.0, 1.0), xy(2.0, 2.0), xy(1.0, 2.0), xy(1.0, 1.0)],
        ]))
    );
}

#[test]
fn multi_geometry_same_type_collapses_to_multi_variant() {
    let kml = r#"<kml><Placemark><MultiGeometry>
        <Point><coordinates>0,0</coordinates></Point>
        <Point><coordinates>1,1</coordinates></Point>
    </MultiGeometry></Placemark></kml>"#;
    let fc = read(kml.as_bytes()).unwrap();
    assert_eq!(fc.features[0].geometry, Some(Geometry::MultiPoint(vec![xy(0.0, 0.0), xy(1.0, 1.0)])));
}

#[test]
fn multi_geometry_mixed_type_becomes_geometry_collection() {
    let kml = r#"<kml><Placemark><MultiGeometry>
        <Point><coordinates>0,0</coordinates></Point>
        <LineString><coordinates>0,0 1,1</coordinates></LineString>
    </MultiGeometry></Placemark></kml>"#;
    let fc = read(kml.as_bytes()).unwrap();
    assert_eq!(
        fc.features[0].geometry,
        Some(Geometry::GeometryCollection(vec![
            Geometry::Point(xy(0.0, 0.0)),
            Geometry::LineString(vec![xy(0.0, 0.0), xy(1.0, 1.0)]),
        ]))
    );
}

#[test]
fn reads_extended_data_both_forms() {
    let kml = r#"<kml><Placemark>
        <ExtendedData>
            <Data name="population"><value>8000000</value></Data>
            <SchemaData><SimpleData name="rank">1</SimpleData></SchemaData>
        </ExtendedData>
        <Point><coordinates>0,0</coordinates></Point>
    </Placemark></kml>"#;
    let fc = read(kml.as_bytes()).unwrap();
    let prop = |k: &str| {
        fc.features[0]
            .properties
            .iter()
            .find(|(n, _)| n == k)
            .map(|(_, v)| v)
    };
    assert_eq!(prop("population").unwrap().as_str(), Some("8000000"));
    assert_eq!(prop("rank").unwrap().as_str(), Some("1"));
}

#[test]
fn flattens_folders_and_nested_documents() {
    let kml = r#"<kml><Document><Folder><Folder>
        <Placemark><Point><coordinates>0,0</coordinates></Point></Placemark>
    </Folder></Folder></Document></kml>"#;
    let fc = read(kml.as_bytes()).unwrap();
    assert_eq!(fc.features.len(), 1);
}

#[test]
fn placemark_with_no_geometry_has_none() {
    let kml = r#"<kml><Placemark><name>No shape</name></Placemark></kml>"#;
    let fc = read(kml.as_bytes()).unwrap();
    assert_eq!(fc.features[0].geometry, None);
}

#[test]
fn tolerates_newline_separated_coordinates() {
    let kml = "<kml><Placemark><LineString><coordinates>\n0,0\n1,1\n</coordinates></LineString></Placemark></kml>";
    let fc = read(kml.as_bytes()).unwrap();
    assert_eq!(fc.features[0].geometry, Some(Geometry::LineString(vec![xy(0.0, 0.0), xy(1.0, 1.0)])));
}

#[test]
fn rejects_malformed_coordinates() {
    let kml = "<kml><Placemark><Point><coordinates>not-a-number,0</coordinates></Point></Placemark></kml>";
    assert!(read(kml.as_bytes()).is_err());
}

fn feature(
    geometry: Option<Geometry<String>>,
    properties: Vec<(&str, JsonValue)>,
) -> Feature<String, JsonValue> {
    Feature {
        geometry,
        properties: properties.into_iter().map(|(k, v)| (k.to_string(), v)).collect(),
    }
}

#[test]
fn writes_name_description_and_extended_data() {
    let fc = FeatureCollection::new(vec![feature(
        Some(Geometry::Point(xy(1.0, 2.0))),
        vec![
            ("name", JsonValue::String("A Point".into())),
            ("description", JsonValue::String("desc".into())),
            ("height_m", JsonValue::Number { text: "381".into(), is_int: true }),
        ],
    )]);
    let bytes = geosetta::kml::writer::write(&fc);
    let text = std::str::from_utf8(&bytes).unwrap();
    assert!(text.contains("<name>A Point</name>"));
    assert!(text.contains("<description>desc</description>"));
    assert!(text.contains("<Data name=\"height_m\"><value>381</value></Data>"));
    assert!(text.contains("<Point><coordinates>1,2</coordinates></Point>"));
}

#[test]
fn writes_polygon_with_hole() {
    let fc = FeatureCollection::new(vec![feature(
        Some(Geometry::Polygon(vec![
            vec![xy(0.0, 0.0), xy(4.0, 0.0), xy(4.0, 4.0), xy(0.0, 4.0), xy(0.0, 0.0)],
            vec![xy(1.0, 1.0), xy(2.0, 1.0), xy(2.0, 2.0), xy(1.0, 2.0), xy(1.0, 1.0)],
        ])),
        vec![],
    )]);
    let text = String::from_utf8(geosetta::kml::writer::write(&fc)).unwrap();
    assert!(text.contains("<outerBoundaryIs><LinearRing><coordinates>0,0 4,0 4,4 0,4 0,0</coordinates></LinearRing></outerBoundaryIs>"));
    assert!(text.contains("<innerBoundaryIs><LinearRing><coordinates>1,1 2,1 2,2 1,2 1,1</coordinates></LinearRing></innerBoundaryIs>"));
}

#[test]
fn writes_multi_point_as_multi_geometry() {
    let fc = FeatureCollection::new(vec![feature(
        Some(Geometry::MultiPoint(vec![xy(0.0, 0.0), xy(1.0, 1.0)])),
        vec![],
    )]);
    let text = String::from_utf8(geosetta::kml::writer::write(&fc)).unwrap();
    assert!(text.contains("<MultiGeometry><Point><coordinates>0,0</coordinates></Point><Point><coordinates>1,1</coordinates></Point></MultiGeometry>"));
}

#[test]
fn geojson_to_kml_to_geojson_round_trips_geometry_and_properties() {
    let src = r#"{"type":"FeatureCollection","features":[
        {"type":"Feature","geometry":{"type":"Point","coordinates":[-73.9857,40.7484]},
         "properties":{"name":"Empire State","height_m":381,"landmark":true}},
        {"type":"Feature","geometry":{"type":"LineString","coordinates":[[-73.99,40.75],[-73.98,40.76]]},
         "properties":{"name":"A Path"}}
    ]}"#;
    let original = from_json(&parse(src).unwrap()).unwrap();
    let kml_bytes = geosetta::kml::writer::write(&original);
    let back = read(&kml_bytes).unwrap();
    assert_eq!(back.features.len(), original.features.len());
    for (a, b) in original.features.iter().zip(back.features.iter()) {
        assert_eq!(a.geometry, b.geometry);
        let name = |f: &Feature<String, JsonValue>| {
            let (_, v) = f.properties.iter().find(|(k, _)| k == "name").unwrap();
            v.as_str().unwrap().to_string()
        };
        assert_eq!(name(a), name(b));
    }
}

#[test]
fn escapes_special_characters_in_name() {
    let fc = FeatureCollection::new(vec![feature(
        None,
        vec![("name", JsonValue::String("Fish & Chips <Shop>".into()))],
    )]);
    let text = String::from_utf8(geosetta::kml::writer::write(&fc)).unwrap();
    assert!(text.contains("<name>Fish &amp; Chips &lt;Shop&gt;</name>"));
}

#[test]
fn a_collection_is_read_back_flat_and_as_text() {
    let fc = FeatureCollection::new(vec![feature(
        Some(Geometry::LineString(vec![
            Position::with_zm("1.50".into(), "2".into(), "9".into(), "8".into()),
            Position::new("1e1".into(), "-0.5".into()),
        ])),
        vec![
            ("n", JsonValue::Number { text: "3".into(), is_int: true }),
            ("description", JsonValue::String("  d ".into())),
            ("name", JsonValue::String("<a & b>".into())),
        ],
    )]);
    let back = read(&geosetta::kml::writer::write(&fc)).unwrap();
    assert_eq!(back.crs, Some(Crs::Wgs84));
    assert_eq!(
        back.features[0].geometry,
        Some(Geometry::LineString(vec![
            Position::new("1.5".into(), "2".into()),
            Position::new("10".into(), "-0.5".into()),
        ]))
    );
    assert_eq!(
        back.features[0].properties,
        vec![
            ("name".to_string(), JsonValue::String("<a & b>".into())),
            ("description".to_string(), JsonValue::String("d".into())),
            ("n".to_string(), JsonValue::String("3".into())),
        ]
    );
}

#[test]
fn broken_placemarks_and_archives_are_errors() {
    let of = |body: &str| {
        read(format!("<kml><Placemark>{body}</Placemark></kml>").as_bytes()).unwrap_err().message()
    };
    assert_eq!(of("<Polygon></Polygon>"), "conversion error: kml: <Polygon> missing <outerBoundaryIs>");
    assert_eq!(
        of("<Point><coordinates> </coordinates></Point>"),
        "conversion error: kml: <Point><coordinates> is empty"
    );
    assert_eq!(
        of("<MultiGeometry></MultiGeometry>"),
        "conversion error: kml: <MultiGeometry> has no recognized child geometries"
    );
    assert_eq!(
        read(&[0xff]).unwrap_err().message(),
        "conversion error: kml: input is not valid utf-8"
    );
    assert_eq!(
        read_kmz(&vec![("readme.txt".into(), vec![])]).unwrap_err().message(),
        "conversion error: kmz: no .kml entry found in the archive"
    );
    assert_eq!(
        read_kmz(&vec![("doc.KML".into(), vec![0xff])]).unwrap_err().message(),
        "conversion error: kmz: entry \"doc.KML\" is not valid utf-8"
    );
}

#[test]
fn every_kml_file_of_an_archive_is_read() {
    let one = |name: &str| {
        format!("<kml><Placemark><name>{name}</name></Placemark></kml>").into_bytes()
    };
    let entries = vec![
        ("a.kml".to_string(), one("a")),
        ("image.png".to_string(), vec![0xff, 0x00]),
        ("sub/b.kml".to_string(), one("b")),
    ];
    let names: Vec<JsonValue> = read_kmz(&entries)
        .unwrap()
        .features
        .into_iter()
        .map(|mut f| f.properties.remove(0).1)
        .collect();
    assert_eq!(names, vec![JsonValue::String("a".into()), JsonValue::String("b".into())]);
}

#[test]
fn altitudes_are_written_and_read_as_z() {
    let z = |x: &str, y: &str, z: &str| Position::with_z(x.into(), y.into(), z.into());
    let fc = FeatureCollection::new(vec![
        Feature { geometry: Some(Geometry::Point(z("1", "2", "3.50"))), properties: vec![] },
        Feature {
            geometry: Some(Geometry::LineString(vec![z("0", "0", "-1"), xy(1.0, 1.0)])),
            properties: vec![],
        },
    ]);
    let bytes = geosetta::kml::writer::write(&fc);
    let text = String::from_utf8(bytes.clone()).unwrap();
    assert!(text.contains("<coordinates>1,2,3.5</coordinates>"), "{text}");
    assert!(text.contains("<coordinates>0,0,-1 1,1</coordinates>"), "{text}");

    let back = read_with_altitudes(&bytes).unwrap();
    assert_eq!(back.features[0].geometry, Some(Geometry::Point(z("1", "2", "3.5"))));
    assert_eq!(
        back.features[1].geometry,
        Some(Geometry::LineString(vec![z("0", "0", "-1"), xy(1.0, 1.0)]))
    );
    let level = read(&bytes).unwrap();
    assert_eq!(level.features[0].geometry, Some(Geometry::Point(xy(1.0, 2.0))));
    assert_eq!(
        level.features[1].geometry,
        Some(Geometry::LineString(vec![xy(0.0, 0.0), xy(1.0, 1.0)]))
    );
    let archived = read_kmz(&vec![("doc.kml".to_string(), bytes)]).unwrap();
    assert_eq!(archived.features[0].geometry, back.features[0].geometry);
}

#[test]
fn an_altitude_that_is_no_number_is_an_error() {
    let kml = b"<kml><Placemark><Point><coordinates>1,2,high</coordinates></Point></Placemark></kml>";
    assert!(read(kml).is_err());
    assert!(read_with_altitudes(kml).is_err());
}
