//! The tables of GeoPackages, written and read back.
use geosetta::crs::{Crs, NamedCrs};
use geosetta::feature::{Feature, FeatureCollection};
use geosetta::geometry::{to_wkb, Bbox, Geometry, Position};
use geosetta::geopackage::narrow::{leaf_rows, round_down, round_out, round_up};
use geosetta::geopackage::reader::{read_layers, strip_gpkg_header};
use geosetta::geopackage::rtree::{build, indexed_rows, Cell, MAX_CELLS};
use geosetta::geopackage::writer::{gpkg_geometry, resolve_srs, upsert, write_layers, Layer};
use geosetta::json::JsonValue;
use geosetta::property::PropValue;
use geosetta::schema::{self, infer_columns, Column};
use geosetta::sqlite::{Table, TableSpec, Value};

fn xy(x: f64, y: f64) -> Position<u64> {
    Position::new(x.to_bits(), y.to_bits())
}

fn xyz(x: f64, y: f64, z: f64) -> Position<u64> {
    Position::with_z(x.to_bits(), y.to_bits(), z.to_bits())
}

fn point(x: f64, y: f64) -> Option<Geometry<u64>> {
    Some(Geometry::Point(Position::new(x.to_bits(), y.to_bits())))
}

fn point_feat(x: f64, y: f64) -> Feature<u64, JsonValue> {
    Feature { geometry: point(x, y), properties: vec![] }
}

fn fc(features: Vec<Feature<u64, JsonValue>>) -> FeatureCollection<u64, JsonValue> {
    FeatureCollection::new(features)
}

fn columns(features: &Vec<Feature<u64, JsonValue>>) -> Vec<Column<u64>> {
    infer_columns(features)
        .into_iter()
        .map(|c| Column {
            name: c.name,
            ty: c.ty,
            values: c
                .values
                .into_iter()
                .map(|v| match v {
                    schema::Cell::Null => schema::Cell::Null,
                    schema::Cell::Bool(b) => schema::Cell::Bool(b),
                    schema::Cell::Int(n) => schema::Cell::Int(n),
                    schema::Cell::Double(t) => {
                        schema::Cell::Double(t.parse::<f64>().unwrap().to_bits())
                    }
                    schema::Cell::Str(s) => schema::Cell::Str(s),
                })
                .collect(),
        })
        .collect()
}

fn layer_of(name: &str, collection: FeatureCollection<u64, JsonValue>) -> Layer<JsonValue> {
    let columns = columns(&collection.features);
    Layer { name: name.into(), collection, columns }
}

/// The boxes of a layer's rows, in the order of the rows.
fn cells(fc: &FeatureCollection<u64, JsonValue>) -> Vec<(i64, Cell)> {
    let rows = indexed_rows(fc);
    let order = (0..rows.len()).collect();
    leaf_rows(&rows, &order)
}

/// The column definitions of a table, and its constraints.
fn definitions(sql: &str) -> Vec<String> {
    let inner = &sql[sql.find('(').unwrap() + 1..sql.rfind(')').unwrap()];
    let mut parts = vec![String::new()];
    let (mut depth, mut quoted) = (0, false);
    for c in inner.chars() {
        match c {
            '"' => quoted = !quoted,
            '(' if !quoted => depth += 1,
            ')' if !quoted => depth -= 1,
            _ => {}
        }
        if c == ',' && depth == 0 && !quoted {
            parts.push(String::new());
        } else {
            parts.last_mut().unwrap().push(c);
        }
    }
    parts.into_iter().map(|p| p.trim().to_string()).collect()
}

/// A table as it is read from the file that it was written to.
fn as_read(spec: TableSpec) -> Table {
    let mut columns = Vec::new();
    let mut rowid_alias = None;
    for d in definitions(&spec.sql) {
        let name = match d.strip_prefix('"') {
            Some(rest) => rest[..rest.find('"').unwrap()].to_string(),
            None => d.split(' ').next().unwrap().to_string(),
        };
        let is_constraint = ["CONSTRAINT", "PRIMARY", "FOREIGN", "UNIQUE"]
            .iter()
            .any(|k| name.eq_ignore_ascii_case(k));
        if is_constraint {
            continue;
        }
        let rest = d.to_ascii_uppercase();
        if rest.contains("INTEGER") && rest.contains("PRIMARY KEY") {
            rowid_alias = Some(columns.len());
        }
        columns.push(name);
    }
    let rows = spec
        .rows
        .into_iter()
        .map(|(rowid, mut values)| {
            if let Some(i) = rowid_alias {
                values[i] = Value::Int(rowid);
            }
            values
        })
        .collect();
    Table { name: spec.name, columns, rowid_alias, rows }
}

fn write(existing: Vec<Layer<JsonValue>>, new: Vec<Layer<JsonValue>>, rtree: bool) -> Vec<Table> {
    let layers = upsert(existing, new);
    let indexes = if rtree {
        Some(layers.iter().map(|l| cells(&l.collection)).collect())
    } else {
        None
    };
    write_layers(&layers, &indexes, false).tables.into_iter().map(as_read).collect()
}

/// The layers of tables whose features have no properties.
fn reread(tables: &Vec<Table>) -> Vec<Layer<JsonValue>> {
    read_layers(tables)
        .unwrap()
        .into_iter()
        .map(|(name, c)| {
            let features = c
                .features
                .into_iter()
                .map(|f| Feature { geometry: f.geometry, properties: vec![] })
                .collect();
            layer_of(&name, FeatureCollection { features, crs: c.crs })
        })
        .collect()
}

#[test]
fn strip_gpkg_header_skips_every_envelope_size_per_the_spec_table() {
    let wkb = to_wkb(&Geometry::Point(xyz(1.0, 2.0, 3.0)));
    for (indicator, envelope_len) in [(0u8, 0usize), (1, 32), (2, 48), (3, 48), (4, 64)] {
        let mut blob = Vec::new();
        blob.extend_from_slice(b"GP");
        blob.push(0); // version
        blob.push(0x01 | (indicator << 1)); // flags: LE + this envelope size
        blob.extend_from_slice(&0i32.to_le_bytes()); // srs_id
        blob.resize(blob.len() + envelope_len, 0); // dummy envelope bytes
        blob.extend_from_slice(&wkb);
        let stripped = strip_gpkg_header(&blob).unwrap();
        assert_eq!(stripped, wkb.as_slice(), "indicator {indicator} (envelope {envelope_len} bytes)");
    }
}
#[test]
fn empty_layer_still_has_a_root_node() {
    let fc = fc(vec![]);
    let rt = build("empty", &cells(&fc));
    let node = rt.tables.iter().find(|t| t.name == "rtree_empty_geom_node").unwrap();
    assert_eq!(node.rows.len(), 1); // the (empty) root
    assert_eq!(node.rows[0].0, 1); // nodeno 1
}

#[test]
fn single_leaf_holds_every_feature() {
    let fc = fc((0..10).map(|i| point_feat(i as f64, i as f64)).collect());
    let rt = build("pts", &cells(&fc));
    let node = rt.tables.iter().find(|t| t.name == "rtree_pts_geom_node").unwrap();
    let rowid = rt.tables.iter().find(|t| t.name == "rtree_pts_geom_rowid").unwrap();
    assert_eq!(node.rows.len(), 1);
    assert_eq!(rowid.rows.len(), 10);
    let Value::Blob(blob) = &node.rows[0].1[1] else { panic!() };
    assert_eq!(u16::from_be_bytes([blob[0], blob[1]]), 0);
    assert_eq!(u16::from_be_bytes([blob[2], blob[3]]), 10);
}

#[test]
fn many_features_build_interior_levels() {
    let n = MAX_CELLS * 3 + 5;
    let fc = fc((0..n).map(|i| point_feat(i as f64, (i * 7 % 13) as f64)).collect());
    let rt = build("big", &cells(&fc));
    let node = rt.tables.iter().find(|t| t.name == "rtree_big_geom_node").unwrap();
    let parent = rt.tables.iter().find(|t| t.name == "rtree_big_geom_parent").unwrap();
    let rowid = rt.tables.iter().find(|t| t.name == "rtree_big_geom_rowid").unwrap();

    assert_eq!(rowid.rows.len(), n); // every feature indexed
    assert_eq!(node.rows.len(), 5);
    assert_eq!(parent.rows.len(), 4);
    let root = node.rows.iter().find(|(k, _)| *k == 1).unwrap();
    let Value::Blob(blob) = &root.1[1] else { panic!() };
    assert_eq!(u16::from_be_bytes([blob[0], blob[1]]), 1); // depth
    assert_eq!(u16::from_be_bytes([blob[2], blob[3]]), 4); // four children
}
#[test]
fn write_then_read_round_trips() {
    let layer = fc(vec![
        Feature {
            geometry: point(1.0, 2.0),
            properties: vec![
                ("name".into(), JsonValue::String("a".into())),
                ("n".into(), JsonValue::Number { text: "5".into(), is_int: true }),
            ],
        },
        Feature {
            geometry: point(3.0, 4.0),
            properties: vec![
                ("name".into(), JsonValue::String("b".into())),
                ("n".into(), JsonValue::Null),
            ],
        },
    ]);
    let tables = write(vec![], vec![layer_of("places", layer)], false);
    let back = read_layers(&tables).unwrap();

    assert_eq!(back.len(), 1);
    assert_eq!(back[0].0, "places");
    assert_eq!(back[0].1.features.len(), 2);
    assert_eq!(back[0].1.features[0].geometry, point(1.0, 2.0));
    let names: Vec<&str> = back[0].1.features[0].properties.iter().map(|(k, _)| k.as_str()).collect();
    assert_eq!(names, vec!["name", "n"]);
    assert_eq!(back[0].1.features[0].properties[1].1, PropValue::Int(5));
}

#[test]
fn geographic_3d_crs_gets_wkt2_extension_column() {

    let mut layer = fc(vec![Feature { geometry: point(1.0, 2.0), properties: vec![] }]);
    layer.crs = Some(Crs::Named(NamedCrs {
        authority: Some("EPSG".into()),
        code: Some("4979".into()),
        wkt: None,
        projjson: None,
    }));
    let tables = write(vec![], vec![layer_of("pts", layer)], false);

    let table = tables.into_iter().find(|t| t.name == "gpkg_spatial_ref_sys").unwrap();
    let def_col = table.columns.iter().position(|c| c == "definition").unwrap();
    let def2_col = table
        .columns
        .iter()
        .position(|c| c == "definition_12_063")
        .expect("definition_12_063 column present");

    let target = table
        .rows
        .iter()
        .find(|r| matches!(r.get(def2_col), Some(Value::Text(t)) if t.contains("EPSG\",4979")))
        .expect("EPSG:4979 row present with a populated definition_12_063");
    assert_eq!(target[def_col], Value::Text("undefined".into()), "no WKT1 for a Geographic 3D CRS");
    let Value::Text(wkt2) = &target[def2_col] else { panic!("definition_12_063 not text") };
    assert!(wkt2.starts_with("GEOGCRS[") || wkt2.starts_with("GEOGCS["), "{wkt2}");
    assert!(wkt2.contains("ID[\"EPSG\",4979]"), "{wkt2}");
}

#[test]
fn rtree_index_is_emitted_and_round_trips() {
    let feats: Vec<Feature<u64, JsonValue>> = (0..120)
        .map(|i| Feature { geometry: point(i as f64, (i % 7) as f64), properties: vec![] })
        .collect();
    let tables = write(vec![], vec![layer_of("grid", fc(feats))], true);

    let names: Vec<&String> = tables.iter().map(|t| &t.name).collect();
    assert!(names.iter().any(|n| *n == "gpkg_extensions"));
    assert!(names.iter().any(|n| *n == "rtree_grid_geom_node"));
    assert!(names.iter().any(|n| *n == "rtree_grid_geom_rowid"));
    assert!(names.iter().any(|n| *n == "rtree_grid_geom_parent"));
    let back = read_layers(&tables).unwrap();
    assert_eq!(back.len(), 1);
    assert_eq!(back[0].0, "grid");
    assert_eq!(back[0].1.features.len(), 120);
}

#[test]
fn wgs84_layer_round_trips_as_wgs84() {
    let mut layer = fc(vec![Feature { geometry: point(1.0, 2.0), properties: vec![] }]);
    layer.crs = Some(Crs::Wgs84);
    let tables = write(vec![], vec![layer_of("p", layer)], false);
    let back = read_layers(&tables).unwrap();
    assert_eq!(back[0].1.crs, Some(Crs::Wgs84));
}

#[test]
fn no_crs_layer_round_trips_as_none() {
    let layer = fc(vec![Feature { geometry: point(1.0, 2.0), properties: vec![] }]);
    let tables = write(vec![], vec![layer_of("p", layer)], false);
    let back = read_layers(&tables).unwrap();
    assert_eq!(back[0].1.crs, None);
}

#[test]
fn named_crs_is_registered_and_round_trips() {
    let mut layer = fc(vec![Feature { geometry: point(1.0, 2.0), properties: vec![] }]);
    layer.crs = Some(Crs::Named(NamedCrs {
        authority: Some("EPSG".into()),
        code: Some("3857".into()),
        wkt: Some("PROJCS[\"WGS 84 / Pseudo-Mercator\"]".into()),
        projjson: None,
    }));
    let tables = write(vec![], vec![layer_of("web", layer)], false);

    let back = read_layers(&tables).unwrap();
    match &back[0].1.crs {
        Some(Crs::Named(n)) => {
            assert_eq!(n.authority.as_deref(), Some("EPSG"));
            assert_eq!(n.code.as_deref(), Some("3857"));
            assert!(n.wkt.is_some());
        }
        other => panic!("expected Named EPSG:3857, got {other:?}"),
    }
}

#[test]
fn alphanumeric_code_falls_back_to_a_synthetic_srs_id() {
    let mut layer = fc(vec![Feature { geometry: point(1.0, 2.0), properties: vec![] }]);
    layer.crs = Some(Crs::Named(NamedCrs {
        authority: Some("IGNF".into()),
        code: Some("LAMB93".into()),
        wkt: Some("PROJCS[\"RGF93 Lambert 93\"]".into()),
        projjson: None,
    }));
    let tables = write(vec![], vec![layer_of("fr", layer)], false);

    let back = read_layers(&tables).unwrap();
    match &back[0].1.crs {
        Some(Crs::Named(n)) => {
            assert_eq!(n.authority.as_deref(), Some("IGNF"));
            assert!(n.wkt.is_some());
            assert!(n.code.as_deref().is_some_and(|c| c.parse::<i64>().is_ok()));
        }
        other => panic!("expected Named IGNF, got {other:?}"),
    }
}

#[test]
fn id_less_projjson_writes_definition_via_structural_translation() {
    let pj = r#"{"type":"GeographicCRS","name":"custom","datum":{"type":"GeodeticReferenceFrame","name":"custom datum","ellipsoid":{"name":"custom ellipsoid","semi_major_axis":6378137,"inverse_flattening":298.257223563}}}"#;
    let mut layer = fc(vec![Feature { geometry: point(1.0, 2.0), properties: vec![] }]);
    layer.crs = Some(Crs::Named(NamedCrs {
        authority: None,
        code: None,
        wkt: None,
        projjson: Some(pj.into()),
    }));
    let tables = write(vec![], vec![layer_of("custom", layer)], false);

    let back = read_layers(&tables).unwrap();
    match &back[0].1.crs {
        Some(Crs::Named(n)) => {
            let wkt = n.wkt.as_deref().expect("structural translation produced a WKT string");
            assert!(wkt.starts_with("GEOGCS[\"custom\""), "{wkt}");
            assert!(wkt.contains("SPHEROID[\"custom ellipsoid\",6378137,298.257223563]"), "{wkt}");
        }
        other => panic!("expected Named, got {other:?}"),
    }
}

#[test]
fn append_adds_a_layer_then_upsert_replaces() {
    let a = fc(vec![Feature { geometry: point(0.0, 0.0), properties: vec![] }]);
    let b = fc(vec![
        Feature { geometry: point(1.0, 1.0), properties: vec![] },
        Feature { geometry: point(2.0, 2.0), properties: vec![] },
    ]);

    let g1 = write(vec![], vec![layer_of("a", a)], false);
    let g2 = write(reread(&g1), vec![layer_of("b", b)], false);
    let layers = read_layers(&g2).unwrap();
    assert_eq!(layers.len(), 2);
    assert!(layers.iter().any(|(n, _)| n == "a"));
    assert!(layers.iter().any(|(n, l)| n == "b" && l.features.len() == 2));

    let a2 = fc((0..3).map(|_| point_feat(9.0, 9.0)).collect());
    let g3 = write(reread(&g2), vec![layer_of("a", a2)], false);
    let layers = read_layers(&g3).unwrap();
    assert_eq!(layers.len(), 2);
    assert_eq!(layers.iter().find(|(n, _)| n == "a").unwrap().1.features.len(), 3);
}

#[test]
fn rounds_boxes_outward() {
    let mut b = Bbox::empty();
    b.add(Position::new(0.1f64.to_bits(), 0.1f64.to_bits()));
    let c = round_out(&b);
    let value = |bits: u32| f32::from_bits(bits) as f64;
    assert!(value(c.min_x) <= 0.1 && value(c.max_x) >= 0.1);
    assert!(value(c.min_y) <= 0.1 && value(c.max_y) >= 0.1);
}

/// The nearest single, moved down or up where it lies on the wrong side.
fn expected(v: f64) -> (u32, u32) {
    let f = v as f32;
    let down = if f as f64 > v { f.next_down() } else { f };
    let up = if (f as f64) < v { f.next_up() } else { f };
    (down.to_bits(), up.to_bits())
}

#[test]
fn narrowing_agrees_with_the_machine() {
    let mut values = vec![
        0.0,
        1.0,
        0.1,
        1.0 / 3.0,
        16777217.0,
        3.4028234663852886e38,
        3.4028234663852887e38,
        3.4028235677973366e38,
        1e300,
        f64::MAX,
        f64::INFINITY,
        f64::MIN_POSITIVE,
        5e-324,
        1e-45,
        1.4e-45,
        2.0e-45,
        1.1754943508222875e-38,
        1.1754943508222874e-38,
        1.17549421069244e-38,
        1e-310,
    ];
    let mut bits: u64 = 0x3690_0000_0000_0001;
    while bits < 0x4800_0000_0000_0000 {
        values.push(f64::from_bits(bits));
        bits += 0x0007_3571_2468_ace1;
    }
    for v in values {
        for v in [v, -v] {
            let (down, up) = expected(v);
            assert_eq!(round_down(v.to_bits()), down, "{v} down");
            assert_eq!(round_up(v.to_bits()), up, "{v} up");
        }
    }
    assert!(f32::from_bits(round_down(f64::NAN.to_bits())).is_nan());
    assert!(f32::from_bits(round_up(f64::NAN.to_bits())).is_nan());
}

#[test]
fn leaves_take_rows_in_the_given_order() {
    let c = fc(vec![
        point_feat(0.1, 0.2),
        Feature { geometry: None, properties: vec![] },
        point_feat(5.0, 6.0),
    ]);
    let rows = indexed_rows(&c);
    assert_eq!(rows.iter().map(|r| r.0).collect::<Vec<_>>(), vec![1, 3]);
    let leaves = leaf_rows(&rows, &vec![1, 0]);
    assert_eq!(leaves.iter().map(|r| r.0).collect::<Vec<_>>(), vec![3, 1]);
    assert_eq!(leaves[0].1.min_x, 5.0f32.to_bits());
    assert!((f32::from_bits(leaves[1].1.min_x) as f64) < 0.1);
    assert!((f32::from_bits(leaves[1].1.max_x) as f64) > 0.1);
}

#[test]
fn envelopes_are_written_on_request_and_skipped_when_read() {
    let line = Geometry::LineString(vec![xyz(1.0, 5.0, 9.0), xyz(3.0, -2.0, 7.0)]);
    let plain = gpkg_geometry(&line, 4326, false);
    let boxed = gpkg_geometry(&line, 4326, true);
    assert_eq!(plain[..2], *b"GP");
    assert_eq!(plain[3], 0b0000_0001);
    let wkb = to_wkb(&line);
    assert_eq!(strip_gpkg_header(&plain).unwrap(), &wkb[..]);
    assert_eq!(strip_gpkg_header(&boxed).unwrap(), &wkb[..]);
    let envelope: Vec<f64> = boxed[8..boxed.len() - wkb.len()]
        .chunks(8)
        .map(|c| f64::from_le_bytes(c.try_into().unwrap()))
        .collect();
    assert_eq!(envelope[..4], [1.0, 3.0, -2.0, 5.0]);

    let layer = layer_of(
        "lines",
        fc(vec![Feature { geometry: Some(line), properties: vec![] }]),
    );
    let schema = write_layers(&vec![layer], &None, true);
    let tables: Vec<Table> = schema.tables.into_iter().map(as_read).collect();
    let back = read_layers(&tables).unwrap();
    assert_eq!(
        back[0].1.features[0].geometry,
        Some(Geometry::LineString(vec![xyz(1.0, 5.0, 9.0), xyz(3.0, -2.0, 7.0)]))
    );
}

#[test]
fn layers_of_several_systems_are_read_back_with_their_own() {
    let with = |name: &str, crs: Option<Crs>| {
        let mut c = fc(vec![point_feat(1.0, 2.0)]);
        c.crs = crs;
        layer_of(name, c)
    };
    let mercator = || {
        Crs::Named(NamedCrs {
            authority: Some("EPSG".into()),
            code: Some("3857".into()),
            wkt: Some("PROJCS[\"M\"]".into()),
            projjson: None,
        })
    };
    let own = || {
        Crs::Named(NamedCrs {
            authority: Some("IGNF".into()),
            code: Some("LAMB93".into()),
            wkt: Some("PROJCS[\"L\"]".into()),
            projjson: None,
        })
    };
    let tables = write(
        vec![],
        vec![
            with("a", Some(mercator())),
            with("b", None),
            with("c", Some(own())),
            with("d", Some(Crs::Wgs84)),
            with("e", Some(mercator())),
        ],
        true,
    );
    let back = read_layers(&tables).unwrap();
    let names: Vec<&str> = back.iter().map(|l| l.0.as_str()).collect();
    assert_eq!(names, vec!["a", "b", "c", "d", "e"]);
    let code = |i: usize| match &back[i].1.crs {
        Some(Crs::Named(n)) => n.code.clone(),
        _ => None,
    };
    assert_eq!(code(0).as_deref(), Some("3857"));
    assert_eq!(back[1].1.crs, None);
    assert!(matches!(&back[2].1.crs, Some(Crs::Named(_))));
    assert_ne!(code(2), code(0));
    assert_eq!(back[3].1.crs, Some(Crs::Wgs84));
    assert_eq!(code(4).as_deref(), Some("3857"));
}

#[test]
fn broken_geometries_and_missing_tables_are_errors() {
    assert_eq!(
        read_layers(&vec![]).unwrap_err().message(),
        "conversion error: geopackage: missing gpkg_contents"
    );
    assert_eq!(
        strip_gpkg_header(b"XP\0\x01\0\0\0\0").unwrap_err().message(),
        "conversion error: geopackage: bad geometry blob header"
    );
    assert_eq!(
        strip_gpkg_header(b"GP\0\x0b\0\0\0\0").unwrap_err().message(),
        "conversion error: geopackage: invalid envelope flag"
    );
    assert_eq!(
        strip_gpkg_header(b"GP\0\x03\0\0\0\0").unwrap_err().message(),
        "conversion error: geopackage: truncated geometry blob"
    );
}

/// A layer of one point in a system.
fn in_system(name: &str, authority: Option<&str>, code: Option<&str>, wkt: &str) -> Layer<JsonValue> {
    let mut c = fc(vec![point_feat(1.0, 2.0)]);
    c.crs = Some(Crs::Named(NamedCrs {
        authority: authority.map(String::from),
        code: code.map(String::from),
        wkt: Some(wkt.into()),
        projjson: None,
    }));
    layer_of(name, c)
}

fn system_of(tables: &Vec<Table>, i: usize) -> NamedCrs {
    match read_layers(tables).unwrap().remove(i).1.crs {
        Some(Crs::Named(n)) => n,
        other => panic!("expected a named system, got {other:?}"),
    }
}

#[test]
fn a_layer_is_never_given_the_system_of_another() {
    let a = "PROJCS[\"A\"]";
    let b = "PROJCS[\"B\"]";
    let tables = write(
        vec![],
        vec![
            in_system("one", Some("NONE"), Some("100000"), a),
            in_system("two", None, None, b),
        ],
        false,
    );
    assert_eq!(system_of(&tables, 0).wkt.as_deref(), Some(a));
    assert_eq!(system_of(&tables, 0).code.as_deref(), Some("100000"));
    assert_eq!(system_of(&tables, 1).wkt.as_deref(), Some(b));
    assert_eq!(system_of(&tables, 1).code.as_deref(), Some("100001"));

    // The number is kept free also for a layer that comes later.
    let tables = write(
        vec![],
        vec![
            in_system("two", None, None, b),
            in_system("one", Some("NONE"), Some("100000"), a),
        ],
        false,
    );
    assert_eq!(system_of(&tables, 0).code.as_deref(), Some("100001"));
    assert_eq!(system_of(&tables, 0).wkt.as_deref(), Some(b));
    assert_eq!(system_of(&tables, 1).wkt.as_deref(), Some(a));
}

#[test]
fn appending_a_layer_keeps_every_definition() {
    let a = "PROJCS[\"A\"]";
    let b = "PROJCS[\"B\"]";
    let first = write(vec![], vec![in_system("one", None, None, a)], false);
    let both = write(reread(&first), vec![in_system("two", None, None, b)], false);
    assert_eq!(system_of(&both, 0).wkt.as_deref(), Some(a));
    assert_eq!(system_of(&both, 1).wkt.as_deref(), Some(b));
}

#[test]
fn layers_of_one_code_share_its_number() {
    let a = "PROJCS[\"A\"]";
    let mut bare = in_system("two", Some("EPSG"), Some("3857"), a);
    if let Some(Crs::Named(n)) = &mut bare.collection.crs {
        n.wkt = None;
    }
    let layers = vec![
        in_system("one", Some("EPSG"), Some("3857"), a),
        bare,
        in_system("three", None, Some("3857"), a),
        in_system("four", Some("epsg"), Some("3857"), "PROJCS[\"B\"]"),
        in_system("five", None, Some("LAMB93"), a),
        in_system("six", None, None, a),
    ];
    let wkt2s = vec![None, None, None, None, None, None];
    let resolved = resolve_srs(&layers, &wkt2s);
    assert_eq!(resolved.per_layer, vec![3857, 3857, 3857, 3857, 100_000, 100_001]);
    assert_eq!(resolved.registrations.len(), 3);
    assert_eq!(resolved.registrations[0].name, "EPSG:3857");
    assert_eq!(resolved.registrations[0].definition, a);

    // What stands under the number is what the first of them registered.
    let tables = write(vec![], layers, false);
    for i in 0..4 {
        let system = system_of(&tables, i);
        assert_eq!(system.authority.as_deref(), Some("EPSG"));
        assert_eq!(system.code.as_deref(), Some("3857"));
        assert_eq!(system.wkt.as_deref(), Some(a));
    }
}

#[test]
fn layers_are_listed_whatever_their_geometries_and_names() {
    let mixed = Geometry::LineString(vec![xyz(1.0, 2.0, 3.0), xy(4.0, 5.0)]);
    let late = Geometry::LineString(vec![xy(1.0, 2.0), xyz(3.0, 4.0, 5.0)]);
    let of = |g: Geometry<u64>| fc(vec![Feature { geometry: Some(g), properties: vec![] }]);
    let tables = write(
        vec![],
        vec![
            layer_of("mixed", of(mixed)),
            layer_of("late", of(late)),
            layer_of("gpkg_contents", fc(vec![])),
        ],
        false,
    );
    let back = read_layers(&tables).unwrap();
    let names: Vec<&str> = back.iter().map(|l| l.0.as_str()).collect();
    assert_eq!(names, vec!["mixed", "late", "gpkg_contents"]);
    assert_eq!(
        back[0].1.features[0].geometry,
        Some(Geometry::LineString(vec![xyz(1.0, 2.0, 3.0), xyz(4.0, 5.0, 0.0)]))
    );
    assert_eq!(
        back[1].1.features[0].geometry,
        Some(Geometry::LineString(vec![xy(1.0, 2.0), xy(3.0, 4.0)]))
    );
}

#[test]
fn two_organizations_can_share_a_code() {
    let a = "PROJCS[\"A\"]";
    let b = "PROJCS[\"B\"]";
    let tables = write(
        vec![],
        vec![
            in_system("one", Some("EPSG"), Some("3395"), a),
            in_system("two", Some("ESRI"), Some("3395"), b),
            in_system("three", Some("EPSG"), Some("3395"), a),
        ],
        false,
    );
    let one = system_of(&tables, 0);
    let two = system_of(&tables, 1);
    assert_eq!((one.authority.as_deref(), one.code.as_deref()), (Some("EPSG"), Some("3395")));
    assert_eq!((two.authority.as_deref(), two.code.as_deref()), (Some("ESRI"), Some("3395")));
    assert_eq!(one.wkt.as_deref(), Some(a));
    assert_eq!(two.wkt.as_deref(), Some(b));
    assert_eq!(system_of(&tables, 2), one);
    let systems = tables.iter().find(|t| t.name == "gpkg_spatial_ref_sys").unwrap();
    assert_eq!(systems.rows.len(), 5);
}

#[test]
fn layers_put_in_follow_those_kept() {
    let named = |n: &str| layer_of(n, fc(vec![point_feat(1.0, 2.0)]));
    let first = write(vec![], vec![named("a"), named("b"), named("c"), named("d")], false);
    let second = write(reread(&first), vec![named("c"), named("e"), named("a")], false);
    let names: Vec<String> =
        read_layers(&second).unwrap().into_iter().map(|l| l.0).collect();
    assert_eq!(names, vec!["b", "d", "c", "e", "a"]);
}

#[test]
fn the_number_of_wgs84_is_only_its_own() {
    let a = "GEOGCS[\"A\"]";
    let tables = write(
        vec![],
        vec![
            in_system("other", Some("IAU"), Some("4326"), a),
            in_system("same", Some("epsg"), Some("4326"), a),
            in_system("bare", None, Some("4326"), a),
        ],
        false,
    );
    let other = system_of(&tables, 0);
    assert_eq!((other.authority.as_deref(), other.code.as_deref()), (Some("IAU"), Some("4326")));
    assert_eq!(other.wkt.as_deref(), Some(a));
    let back = read_layers(&tables).unwrap();
    assert_eq!(back[1].1.crs, Some(Crs::Wgs84));
    assert_eq!(back[2].1.crs, Some(Crs::Wgs84));
}
