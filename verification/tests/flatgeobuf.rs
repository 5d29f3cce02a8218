//! FlatGeobuf files, written and read back.
use geosetta::crs::{Crs, NamedCrs};
use geosetta::feature::{Feature, FeatureCollection};
use geosetta::flatgeobuf::index::{index_size, packed_rtree};
use geosetta::flatgeobuf::read;
use geosetta::format::Format;
use geosetta::geometry::{Bbox, Geometry, Position};
use geosetta::json::JsonValue;
use geosetta::property::PropValue;
use geosetta::schema::{infer_columns, Cell, Column};

fn xy(x: f64, y: f64) -> Position<u64> {
    Position::new(x.to_bits(), y.to_bits())
}

fn xyz(x: f64, y: f64, z: f64) -> Position<u64> {
    Position::with_z(x.to_bits(), y.to_bits(), z.to_bits())
}

fn xyzm(x: f64, y: f64, z: f64, m: f64) -> Position<u64> {
    Position::with_zm(x.to_bits(), y.to_bits(), z.to_bits(), m.to_bits())
}

fn columns(features: &Vec<Feature<u64, JsonValue>>) -> Vec<Column<u64>> {
    infer_columns(features)
        .into_iter()
        .map(|c| Column {
            name: c.name,
            ty: c.ty,
            values: c
                .values
                .into_iter()
                .map(|v| match v {
                    Cell::Null => Cell::Null,
                    Cell::Bool(b) => Cell::Bool(b),
                    Cell::Int(n) => Cell::Int(n),
                    Cell::Double(t) => Cell::Double(t.parse::<f64>().unwrap().to_bits()),
                    Cell::Str(s) => Cell::Str(s),
                })
                .collect(),
        })
        .collect()
}

fn write(fc: &FeatureCollection<u64, JsonValue>) -> Vec<u8> {
    let order = (0..fc.features.len()).collect();
    geosetta::flatgeobuf::writer::write(fc, &columns(&fc.features), &order)
}

#[test]
fn indexed_round_trip_many_points() {
    let features: Vec<Feature<u64, JsonValue>> = (0..50)
        .map(|i| Feature {
            geometry: Some(Geometry::Point(xy((i % 10) as f64, (i / 10) as f64))),
            properties: vec![(
                "id".into(),
                JsonValue::Number { text: i.to_string(), is_int: true },
            )],
        })
        .collect();
    let bytes = write(&FeatureCollection::new(features));

    let back = read(&bytes).unwrap();
    assert_eq!(back.features.len(), 50);
    let mut ids: Vec<i64> = back
        .features
        .iter()
        .map(|f| match f.properties.iter().find(|(k, _)| k == "id").unwrap().1 {
            PropValue::Int(n) => n,
            _ => panic!("expected an integer"),
        })
        .collect();
    ids.sort_unstable();
    assert_eq!(ids, (0..50).collect::<Vec<_>>());
}

#[test]
fn z_bearing_point_round_trips() {
    let fc = FeatureCollection::new(vec![Feature {
        geometry: Some(Geometry::Point(xyz(1.0, 2.0, 381.0))),
        properties: vec![],
    }]);
    let bytes = write(&fc);
    let back = read(&bytes).unwrap();
    assert_eq!(back.features[0].geometry, Some(Geometry::Point(xyz(1.0, 2.0, 381.0))));
}

#[test]
fn zm_bearing_line_string_round_trips() {
    let fc = FeatureCollection::new(vec![Feature {
        geometry: Some(Geometry::LineString(vec![
            xyzm(0.0, 0.0, 1.0, 10.0),
            xyzm(1.0, 1.0, 2.0, 20.0),
        ])),
        properties: vec![],
    }]);
    let bytes = write(&fc);
    let back = read(&bytes).unwrap();
    assert_eq!(
        back.features[0].geometry,
        Some(Geometry::LineString(vec![
            xyzm(0.0, 0.0, 1.0, 10.0),
            xyzm(1.0, 1.0, 2.0, 20.0),
        ]))
    );
}

#[test]
fn z_bearing_polygon_with_hole_round_trips() {
    let fc = FeatureCollection::new(vec![Feature {
        geometry: Some(Geometry::Polygon(vec![
            vec![
                xyz(0.0, 0.0, 1.0),
                xyz(4.0, 0.0, 1.0),
                xyz(4.0, 4.0, 1.0),
                xyz(0.0, 4.0, 1.0),
                xyz(0.0, 0.0, 1.0),
            ],
            vec![
                xyz(1.0, 1.0, 2.0),
                xyz(2.0, 1.0, 2.0),
                xyz(2.0, 2.0, 2.0),
                xyz(1.0, 2.0, 2.0),
                xyz(1.0, 1.0, 2.0),
            ],
        ])),
        properties: vec![],
    }]);
    let bytes = write(&fc);
    let back = read(&bytes).unwrap();
    assert_eq!(back.features[0].geometry, fc.features[0].geometry);
}

#[test]
fn z_bearing_multipolygon_round_trips_independent_part_dimensionality() {
    let fc = FeatureCollection::new(vec![Feature {
        geometry: Some(Geometry::MultiPolygon(vec![
            vec![vec![
                xyz(0.0, 0.0, 5.0),
                xyz(1.0, 0.0, 5.0),
                xyz(1.0, 1.0, 5.0),
                xyz(0.0, 0.0, 5.0),
            ]],
            vec![vec![
                xy(5.0, 5.0),
                xy(6.0, 5.0),
                xy(6.0, 6.0),
                xy(5.0, 5.0),
            ]],
        ])),
        properties: vec![],
    }]);
    let bytes = write(&fc);
    let back = read(&bytes).unwrap();
    assert_eq!(back.features[0].geometry, fc.features[0].geometry);
}

#[test]
fn a_2d_point_writes_no_z_or_m_vector() {
    let fc = FeatureCollection::new(vec![Feature {
        geometry: Some(Geometry::Point(xy(1.0, 2.0))),
        properties: vec![],
    }]);
    let bytes = write(&fc);
    let back = read(&bytes).unwrap();
    assert_eq!(back.features[0].geometry, Some(Geometry::Point(xy(1.0, 2.0))));
}

fn one_point(crs: Option<Crs>) -> FeatureCollection<u64, JsonValue> {
    let mut fc = FeatureCollection::new(vec![Feature {
        geometry: Some(Geometry::Point(xy(1.0, 2.0))),
        properties: vec![],
    }]);
    fc.crs = crs;
    fc
}

#[test]
fn wgs84_crs_round_trips() {
    let bytes = write(&one_point(Some(Crs::Wgs84)));
    assert_eq!(read(&bytes).unwrap().crs, Some(Crs::Wgs84));
}

#[test]
fn named_crs_round_trips() {
    let crs = Crs::Named(NamedCrs {
        authority: Some("EPSG".into()),
        code: Some("3857".into()),
        wkt: Some("PROJCS[\"Web Mercator\"]".into()),
        projjson: None,
    });
    let bytes = write(&one_point(Some(crs)));
    match read(&bytes).unwrap().crs {
        Some(Crs::Named(n)) => {
            assert_eq!(n.authority.as_deref(), Some("EPSG"));
            assert_eq!(n.code.as_deref(), Some("3857"));
            assert_eq!(n.wkt.as_deref(), Some("PROJCS[\"Web Mercator\"]"));
        }
        other => panic!("expected Named, got {other:?}"),
    }
}

#[test]
fn no_crs_stays_none() {
    let bytes = write(&one_point(None));
    assert_eq!(read(&bytes).unwrap().crs, None);
}

#[test]
fn alphanumeric_code_is_dropped_but_org_and_wkt_survive() {
    let crs = Crs::Named(NamedCrs {
        authority: Some("IGNF".into()),
        code: Some("LAMB93".into()),
        wkt: Some("PROJCS[\"RGF93 Lambert 93\"]".into()),
        projjson: None,
    });
    let bytes = write(&one_point(Some(crs)));
    match read(&bytes).unwrap().crs {
        Some(Crs::Named(n)) => {
            assert_eq!(n.authority.as_deref(), Some("IGNF"));
            assert_eq!(n.code, None);
            assert_eq!(n.wkt.as_deref(), Some("PROJCS[\"RGF93 Lambert 93\"]"));
        }
        other => panic!("expected Named, got {other:?}"),
    }
}

#[test]
fn id_less_projjson_round_trips_via_structural_translation() {
    let pj = r#"{"type":"GeographicCRS","name":"custom","datum":{"type":"GeodeticReferenceFrame","name":"custom datum","ellipsoid":{"name":"custom ellipsoid","semi_major_axis":6378137,"inverse_flattening":298.257223563}}}"#;
    let crs = Crs::Named(NamedCrs {
        authority: None,
        code: None,
        wkt: None,
        projjson: Some(pj.into()),
    });
    let bytes = write(&one_point(Some(crs)));
    match read(&bytes).unwrap().crs {
        Some(Crs::Named(n)) => {
            let wkt = n.wkt.expect("structural translation produced a WKT string");
            assert!(wkt.starts_with("GEOGCS[\"custom\""), "{wkt}");
            assert!(wkt.contains("SPHEROID[\"custom ellipsoid\",6378137,298.257223563]"), "{wkt}");
        }
        other => panic!("expected Named, got {other:?}"),
    }
}

#[test]
fn properties_of_every_type_are_read_back() {
    let number = |text: &str, is_int: bool| JsonValue::Number { text: text.into(), is_int };
    let feature = |x: f64, properties: Vec<(String, JsonValue)>| Feature {
        geometry: Some(Geometry::Point(xy(x, 0.0))),
        properties,
    };
    let fc = FeatureCollection::new(vec![
        feature(
            0.0,
            vec![
                ("flag".into(), JsonValue::Bool(true)),
                ("count".into(), number("-7", true)),
                ("ratio".into(), number("2.5", false)),
                ("name".into(), JsonValue::String("é".into())),
            ],
        ),
        feature(1.0, vec![("name".into(), JsonValue::Null), ("flag".into(), JsonValue::Bool(false))]),
    ]);
    let back = read(&write(&fc)).unwrap();
    assert_eq!(
        back.features[0].properties,
        vec![
            ("flag".to_string(), PropValue::Bool(true)),
            ("count".to_string(), PropValue::Int(-7)),
            ("ratio".to_string(), PropValue::Double(2.5f64.to_bits())),
            ("name".to_string(), PropValue::Text("é".into())),
        ]
    );
    assert_eq!(back.features[1].properties, vec![("flag".to_string(), PropValue::Bool(false))]);
}

#[test]
fn features_are_written_in_the_given_order_where_there_is_an_index() {
    let point = |x: f64| Feature {
        geometry: Some(Geometry::Point(xy(x, 0.0))),
        properties: vec![],
    };
    let fc: FeatureCollection<u64, JsonValue> =
        FeatureCollection::new(vec![point(0.0), point(1.0), point(2.0)]);
    let bytes = geosetta::flatgeobuf::writer::write(&fc, &vec![], &vec![2, 0, 1]);
    let xs: Vec<f64> = read(&bytes)
        .unwrap()
        .features
        .iter()
        .map(|f| match &f.geometry {
            Some(Geometry::Point(p)) => f64::from_bits(p.x),
            _ => panic!("expected a point"),
        })
        .collect();
    assert_eq!(xs, vec![2.0, 0.0, 1.0]);
}

#[test]
fn what_is_no_flatgeobuf_is_an_error() {
    assert_eq!(
        read(b"not flatgeobuf at all").unwrap_err().message(),
        "invalid flatgeobuf: not a flatgeobuf file (bad magic)"
    );
    let bytes = write(&one_point(None));
    assert_eq!(
        read(&bytes[..12]).unwrap_err().message(),
        "invalid flatgeobuf: truncated header"
    );
    assert_eq!(
        read(&bytes[..bytes.len() - 1]).unwrap_err().message(),
        "invalid flatgeobuf: truncated feature"
    );
}

#[test]
fn the_index_has_forty_bytes_for_every_node() {
    assert_eq!(index_size(0, 16), 0);
    assert_eq!(index_size(1, 16), 80);
    assert_eq!(index_size(16, 16), 17 * 40);
    assert_eq!(index_size(17, 16), (17 + 2 + 1) * 40);
    let mut b = Bbox::empty();
    b.add(xy(1.0, 2.0));
    let tree = packed_rtree(&vec![b; 17], &(0..17).collect(), 16);
    assert_eq!(tree.len() as u128, index_size(17, 16));
    assert_eq!(tree[..8], 1.0f64.to_le_bytes());
    assert_eq!(tree[8..16], 2.0f64.to_le_bytes());
}

#[test]
fn geometries_of_any_size_keep_their_positions() {
    for n in [2usize, 4090, 4091, 4092, 4093, 4094, 4095, 4096, 4097, 8191, 8192] {
        let run: Vec<Position<u64>> = (0..n).map(|i| xy(i as f64, -(i as f64))).collect();
        let fc = FeatureCollection::new(vec![Feature {
            geometry: Some(Geometry::LineString(run.clone())),
            properties: vec![],
        }]);
        let back = read(&write(&fc)).unwrap();
        assert_eq!(back.features[0].geometry, Some(Geometry::LineString(run)), "{n} positions");
    }
}

#[test]
fn a_code_that_does_not_fit_is_left_out_and_announced() {
    let named = |code: &str| {
        Crs::Named(NamedCrs {
            authority: Some("EPSG".into()),
            code: Some(code.into()),
            wkt: Some("PROJCS[\"A\"]".into()),
            projjson: None,
        })
    };
    let stored = |code: &str| {
        let mut fc = FeatureCollection::new(vec![Feature {
            geometry: Some(Geometry::Point(xy(1.0, 2.0))),
            properties: vec![],
        }]);
        fc.crs = Some(named(code));
        read(&write(&fc)).unwrap().crs
    };
    assert_eq!(stored("2147483647"), Some(named("2147483647")));
    // Its low 32 bits are those of another code.
    match stored("4294971622") {
        Some(Crs::Named(n)) => {
            assert_eq!(n.code, None);
            assert_eq!(n.wkt.as_deref(), Some("PROJCS[\"A\"]"));
        }
        other => panic!("expected a named system, got {other:?}"),
    }
    assert_eq!(named("2147483647").downgrade_warning(Format::FlatGeobuf), None);
    let w = named("4294971622").downgrade_warning(Format::FlatGeobuf).unwrap();
    assert!(w.starts_with("EPSG:4294971622's authority code does not fit in 32 bits; FlatGeobuf"), "{w}");
    assert_eq!(named("4294971622").downgrade_warning(Format::Gpkg), None);
}
