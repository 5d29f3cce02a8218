//! Well-known text.
use geosetta::geometry::wkt::{decode, encode};
use geosetta::geometry::{Geometry, Position};

fn xy(x: f64, y: f64) -> Position<String> {
    Position::new(x.to_string(), y.to_string())
}

fn xyz(x: f64, y: f64, z: f64) -> Position<String> {
    Position::with_z(x.to_string(), y.to_string(), z.to_string())
}

fn xym(x: f64, y: f64, m: f64) -> Position<String> {
    Position::with_m(x.to_string(), y.to_string(), m.to_string())
}

fn xyzm(x: f64, y: f64, z: f64, m: f64) -> Position<String> {
    Position::with_zm(x.to_string(), y.to_string(), z.to_string(), m.to_string())
}


fn round_trip(g: Geometry<String>) {
    let text = encode(&g);
    assert_eq!(decode(&text).unwrap(), g, "wkt round trip: {text}");
}

#[test]
fn round_trips_all_types() {
    round_trip(Geometry::Point(xy(1.0, 2.5)));
    round_trip(Geometry::LineString(vec![xy(0.0, 0.0), xy(1.0, 1.0), xy(2.0, 0.0)]));
    round_trip(Geometry::Polygon(vec![
        vec![xy(0.0, 0.0), xy(4.0, 0.0), xy(4.0, 4.0), xy(0.0, 4.0), xy(0.0, 0.0)],
        vec![xy(1.0, 1.0), xy(2.0, 1.0), xy(2.0, 2.0), xy(1.0, 2.0), xy(1.0, 1.0)],
    ]));
    round_trip(Geometry::MultiPoint(vec![xy(0.0, 0.0), xy(1.0, 1.0)]));
    round_trip(Geometry::MultiLineString(vec![
        vec![xy(0.0, 0.0), xy(1.0, 1.0)],
        vec![xy(2.0, 2.0), xy(3.0, 3.0)],
    ]));
    round_trip(Geometry::MultiPolygon(vec![vec![vec![
        xy(0.0, 0.0),
        xy(1.0, 0.0),
        xy(1.0, 1.0),
        xy(0.0, 0.0),
    ]]]));
    round_trip(Geometry::GeometryCollection(vec![
        Geometry::Point(xy(5.0, 6.0)),
        Geometry::LineString(vec![xy(0.0, 0.0), xy(1.0, 1.0)]),
    ]));
}

#[test]
fn parses_gdal_style_input() {
    assert_eq!(
        decode("point (1 2)").unwrap(),
        Geometry::Point(xy(1.0, 2.0))
    );
    assert_eq!(
        decode("MULTIPOINT ((1 2), (3 4))").unwrap(),
        Geometry::MultiPoint(vec![xy(1.0, 2.0), xy(3.0, 4.0)])
    );
    assert_eq!(
        decode("POLYGON  (( 0 0, 1 0 , 1 1, 0 0 ))").unwrap(),
        Geometry::Polygon(vec![vec![xy(0.0, 0.0), xy(1.0, 0.0), xy(1.0, 1.0), xy(0.0, 0.0)]])
    );
}

#[test]
fn wkt_rejects_garbage() {
    assert!(decode("").is_err());
    assert!(decode("POINT (1)").is_err());
    assert!(decode("NONSENSE (1 2)").is_err());
    assert!(decode("POINT (1 2) extra").is_err());
}

#[test]
fn decodes_explicit_z_m_zm_keywords() {
    assert_eq!(decode("POINT Z (1 2 3)").unwrap(), Geometry::Point(xyz(1.0, 2.0, 3.0)));
    assert_eq!(decode("POINT M (1 2 4)").unwrap(), Geometry::Point(xym(1.0, 2.0, 4.0)));
    assert_eq!(decode("POINT ZM (1 2 3 4)").unwrap(), Geometry::Point(xyzm(1.0, 2.0, 3.0, 4.0)));
    assert_eq!(decode("point z (1 2 3)").unwrap(), Geometry::Point(xyz(1.0, 2.0, 3.0)));
}

#[test]
fn decodes_bare_extra_ordinate_as_z_matching_gdal_plain_wkt() {
    assert_eq!(decode("POINT (1 2 3)").unwrap(), Geometry::Point(xyz(1.0, 2.0, 3.0)));
    assert_eq!(decode("POINT (1 2 3 4)").unwrap(), Geometry::Point(xyzm(1.0, 2.0, 3.0, 4.0)));
}

#[test]
fn encodes_point_z_m_zm_matching_duckdb_and_gdal() {
    assert_eq!(encode(&Geometry::Point(xyz(1.0, 2.0, 3.0))), "POINT Z (1 2 3)");
    assert_eq!(encode(&Geometry::Point(xym(1.0, 2.0, 4.0))), "POINT M (1 2 4)");
    assert_eq!(encode(&Geometry::Point(xyzm(1.0, 2.0, 3.0, 4.0))), "POINT ZM (1 2 3 4)");
    assert_eq!(encode(&Geometry::Point(xy(1.0, 2.0))), "POINT (1 2)");
}

#[test]
fn encodes_linestring_and_polygon_z_matching_duckdb() {
    let line = Geometry::LineString(vec![xyz(0.0, 0.0, 0.0), xyz(1.0, 1.0, 1.0)]);
    assert_eq!(encode(&line), "LINESTRING Z (0 0 0, 1 1 1)");

    let poly = Geometry::Polygon(vec![vec![
        xyz(0.0, 0.0, 0.0),
        xyz(4.0, 0.0, 0.0),
        xyz(4.0, 4.0, 0.0),
        xyz(0.0, 0.0, 0.0),
    ]]);
    assert_eq!(encode(&poly), "POLYGON Z ((0 0 0, 4 0 0, 4 4 0, 0 0 0))");
}

#[test]
fn multipoint_z_does_not_repeat_keyword_per_member_matching_duckdb() {
    let g = Geometry::MultiPoint(vec![xyz(0.0, 0.0, 0.0), xyz(1.0, 1.0, 1.0)]);
    assert_eq!(encode(&g), "MULTIPOINT Z (0 0 0, 1 1 1)");
}

#[test]
fn geometrycollection_z_repeats_keyword_on_each_member_matching_duckdb() {
    let g = Geometry::GeometryCollection(vec![Geometry::Point(xyz(1.0, 2.0, 3.0))]);
    assert_eq!(encode(&g), "GEOMETRYCOLLECTION Z (POINT Z (1 2 3))");
}

#[test]
fn wkt_round_trips_z_m_and_zm_across_every_variant() {
    round_trip(Geometry::Point(xyz(1.0, 2.0, 3.0)));
    round_trip(Geometry::Point(xym(1.0, 2.0, 4.0)));
    round_trip(Geometry::Point(xyzm(1.0, 2.0, 3.0, 4.0)));
    round_trip(Geometry::LineString(vec![
        xyz(0.0, 0.0, 0.0),
        xyz(1.0, 1.0, 2.0),
    ]));
    round_trip(Geometry::Polygon(vec![vec![
        xyz(0.0, 0.0, 0.0),
        xyz(4.0, 0.0, 0.0),
        xyz(4.0, 4.0, 1.0),
        xyz(0.0, 0.0, 0.0),
    ]]));
    round_trip(Geometry::MultiPoint(vec![xyz(0.0, 0.0, 1.0), xyz(1.0, 1.0, 2.0)]));
    round_trip(Geometry::MultiLineString(vec![
        vec![xyz(0.0, 0.0, 0.0), xyz(1.0, 1.0, 1.0)],
        vec![xyz(2.0, 2.0, 2.0), xyz(3.0, 3.0, 3.0)],
    ]));
    round_trip(Geometry::MultiPolygon(vec![vec![vec![
        xyz(0.0, 0.0, 0.0),
        xyz(1.0, 0.0, 0.0),
        xyz(1.0, 1.0, 0.0),
        xyz(0.0, 0.0, 0.0),
    ]]]));
    round_trip(Geometry::GeometryCollection(vec![
        Geometry::Point(xyz(5.0, 6.0, 7.0)),
        Geometry::LineString(vec![xyz(0.0, 0.0, 0.0), xyz(1.0, 1.0, 1.0)]),
    ]));
}

#[test]
fn rejects_unknown_dimension_token() {
    assert!(decode("POINT ZZZ (1 2 3)").is_err());
}
