//! Collections of features.
use std::cell::RefCell;

use geosetta::feature::{Feature, FeatureCollection};
use geosetta::format::Format;
use geosetta::geometry::{Geometry, Position};
use geosetta::json::JsonValue;

fn collection(features: Vec<Feature<i64, JsonValue>>) -> FeatureCollection<i64, JsonValue> {
    FeatureCollection::new(features)
}

fn doubles(features: Vec<Feature<f64, JsonValue>>) -> FeatureCollection<f64, JsonValue> {
    FeatureCollection { features, crs: None }
}

fn tenfold(p: &Position<f64>) -> Position<f64> {
    Position { x: p.x * 10.0, y: p.y * 10.0, z: p.z, m: p.m }
}


#[test]
fn m_downgrade_warning_fires_only_for_m_incapable_targets_with_real_m() {
    let fc = collection(vec![Feature {
        geometry: Some(Geometry::Point(Position::with_m(1, 2, 5))),
        properties: vec![],
    }]);
    for target in [Format::GeoJson, Format::Kml, Format::Kmz] {
        let w = fc.m_downgrade_warning(target).unwrap();
        assert!(w.contains('M'), "{w}");
        assert!(w.contains("dropped"), "{w}");
        assert!(w.contains(target.display_name()), "{w}");
    }
    for target in [Format::Parquet, Format::FlatGeobuf, Format::Csv, Format::Wkt, Format::Gpkg, Format::Shapefile]
    {
        assert_eq!(fc.m_downgrade_warning(target), None, "{target:?} should not warn");
    }
}

#[test]
fn m_downgrade_warning_stays_silent_for_2d_and_z_only_sources() {
    let two_d = collection(vec![Feature {
        geometry: Some(Geometry::Point(Position::new(1, 2))),
        properties: vec![],
    }]);
    let z_only = collection(vec![Feature {
        geometry: Some(Geometry::Point(Position::with_z(1, 2, 3))),
        properties: vec![],
    }]);
    for target in [Format::GeoJson, Format::Kml, Format::Kmz] {
        assert_eq!(two_d.m_downgrade_warning(target), None);
        assert_eq!(z_only.m_downgrade_warning(target), None);
    }
}

#[test]
fn for_each_position_mut_rewrites_every_feature_and_skips_geometryless_ones() {
    let mut fc = doubles(vec![
        Feature { geometry: Some(Geometry::Point(Position::new(1.0, 2.0))), properties: vec![] },
        Feature { geometry: None, properties: vec![] },
        Feature { geometry: Some(Geometry::Point(Position::new(3.0, 4.0))), properties: vec![] },
    ]);
    fc.for_each_position_mut(&tenfold);
    assert_eq!(fc.features[0].geometry, Some(Geometry::Point(Position::new(10.0, 20.0))));
    assert_eq!(fc.features[1].geometry, None);
    assert_eq!(fc.features[2].geometry, Some(Geometry::Point(Position::new(30.0, 40.0))));
}

#[test]
fn for_each_position_run_mut_rewrites_every_feature_and_skips_geometryless_ones() {
    let mut fc = doubles(vec![
        Feature {
            geometry: Some(Geometry::LineString(vec![Position::new(1.0, 2.0), Position::new(3.0, 4.0)])),
            properties: vec![],
        },
        Feature { geometry: None, properties: vec![] },
        Feature { geometry: Some(Geometry::Point(Position::new(5.0, 6.0))), properties: vec![] },
    ]);
    let run_lengths = RefCell::new(Vec::new());
    fc.for_each_position_run_mut(&|ps: &Vec<Position<f64>>| {
        run_lengths.borrow_mut().push(ps.len());
        ps.iter().map(tenfold).collect()
    });
    assert_eq!(run_lengths.into_inner(), vec![2, 1]);
    assert_eq!(
        fc.features[0].geometry,
        Some(Geometry::LineString(vec![Position::new(10.0, 20.0), Position::new(30.0, 40.0)]))
    );
    assert_eq!(fc.features[1].geometry, None);
    assert_eq!(fc.features[2].geometry, Some(Geometry::Point(Position::new(50.0, 60.0))));
}
