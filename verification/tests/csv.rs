//! Comma-separated values.
use geosetta::csv::read;
use geosetta::feature::{Feature, FeatureCollection};
use geosetta::geometry::{Geometry, Position};
use geosetta::json::JsonValue;

fn xy(x: f64, y: f64) -> Position<String> {
    Position::new(x.to_string(), y.to_string())
}



#[test]
fn reads_wkt_and_typed_properties() {
    let text = "name,pop,geometry\nA,100,\"POINT (1 2)\"\n\"B, city\",50,\"LINESTRING (0 0, 1 1)\"\n";
    let fc = read(text.as_bytes()).unwrap();
    assert_eq!(fc.features.len(), 2);
    assert_eq!(fc.features[0].geometry, Some(Geometry::Point(xy(1.0, 2.0))));
    assert_eq!(fc.features[0].properties[0], ("name".into(), JsonValue::String("A".into())));
    assert_eq!(
        fc.features[0].properties[1],
        ("pop".into(), JsonValue::Number { text: "100".into(), is_int: true })
    );
    assert_eq!(fc.features[1].properties[0].1.as_str(), Some("B, city"));
}

#[test]
fn round_trips_through_csv() {
    let fc = FeatureCollection::new(vec![
            Feature {
                geometry: Some(Geometry::Point(xy(-73.9, 40.7))),
                properties: vec![
                    ("name".into(), JsonValue::String("x".into())),
                    ("n".into(), JsonValue::Number { text: "3".into(), is_int: true }),
                ],
            },
            Feature {
                geometry: Some(Geometry::Polygon(vec![vec![
                    xy(0.0, 0.0),
                    xy(1.0, 0.0),
                    xy(1.0, 1.0),
                    xy(0.0, 0.0),
                ]])),
                properties: vec![
                    ("name".into(), JsonValue::String("y".into())),
                    ("n".into(), JsonValue::Null),
                ],
            },
        ]);
    let bytes = geosetta::csv::write(&fc);
    let back = read(&bytes).unwrap();
    assert_eq!(back.features.len(), 2);
    assert_eq!(back.features[0].geometry, fc.features[0].geometry);
    assert_eq!(back.features[1].geometry, fc.features[1].geometry);
    assert_eq!(back.features[0].properties[1].1, JsonValue::Number { text: "3".into(), is_int: true });
}

#[test]
fn no_geometry_column_is_ok() {
    let fc = read(b"a,b\n1,2\n").unwrap();
    assert_eq!(fc.features.len(), 1);
    assert!(fc.features[0].geometry.is_none());
    assert_eq!(fc.features[0].properties.len(), 2);
}

#[test]
fn cells_are_read_as_what_their_text_stands_for() {
    let number = |text: &str, is_int: bool| JsonValue::Number { text: text.into(), is_int };
    let cells = vec![
        ("flag", JsonValue::Bool(false), JsonValue::Bool(false)),
        ("count", number("-12", true), number("-12", true)),
        ("ratio", number("2.50", false), number("2.5", false)),
        ("note", JsonValue::String("a \"b\", c\nd".into()), JsonValue::String("a \"b\", c\nd".into())),
        ("zip", JsonValue::String("01234".into()), number("1234", true)),
        ("none", JsonValue::Null, JsonValue::Null),
    ];
    let properties = cells.iter().map(|c| (c.0.to_string(), c.1.clone())).collect();
    let fc = FeatureCollection::new(vec![Feature { geometry: None, properties }]);
    let back = read(&geosetta::csv::write(&fc)).unwrap();
    let wanted: Vec<(String, JsonValue)> =
        cells.into_iter().map(|c| (c.0.to_string(), c.2)).collect();
    assert_eq!(back.features[0].properties, wanted);
    assert_eq!(back.features[0].geometry, None);
    assert_eq!(back.crs, None);
}

#[test]
fn the_geometry_column_is_found_by_any_of_its_names() {
    for name in ["geometry", "GEOM", " wkt ", "the_geom"] {
        let fc = read(format!("a,{name}\n1,POINT (1 2)\n\n").as_bytes()).unwrap();
        assert_eq!(fc.features.len(), 1);
        assert_eq!(fc.features[0].geometry, Some(Geometry::Point(xy(1.0, 2.0))));
        assert_eq!(fc.features[0].properties.len(), 1);
    }
}
