//! Well-known binary.
use geosetta::geometry::wkb::{decode, encode, wkb_size};
use geosetta::geometry::{Geometry, Position};

fn xy(x: f64, y: f64) -> Position<u64> {
    Position::new(x.to_bits(), y.to_bits())
}

fn xyz(x: f64, y: f64, z: f64) -> Position<u64> {
    Position::with_z(x.to_bits(), y.to_bits(), z.to_bits())
}

fn xym(x: f64, y: f64, m: f64) -> Position<u64> {
    Position::with_m(x.to_bits(), y.to_bits(), m.to_bits())
}

fn xyzm(x: f64, y: f64, z: f64, m: f64) -> Position<u64> {
    Position::with_zm(x.to_bits(), y.to_bits(), z.to_bits(), m.to_bits())
}


#[test]
fn encodes_point_byte_for_byte() {
    let wkb = encode(&Geometry::Point(xy(1.0, 2.0)));
    let mut expected = vec![0x01];
    expected.extend_from_slice(&1u32.to_le_bytes());
    expected.extend_from_slice(&1.0f64.to_le_bytes());
    expected.extend_from_slice(&2.0f64.to_le_bytes());
    assert_eq!(wkb, expected);
    assert_eq!(wkb.len(), 21);
}

#[test]
fn encodes_linestring_length() {
    let g = Geometry::LineString(vec![xy(0.0, 0.0), xy(1.0, 1.0), xy(2.0, 0.0)]);
    assert_eq!(encode(&g).len(), 5 + 4 + 3 * 16);
}

#[test]
fn encodes_polygon_with_hole_length() {
    let outer = vec![xy(0.0, 0.0), xy(4.0, 0.0), xy(4.0, 4.0), xy(0.0, 4.0), xy(0.0, 0.0)];
    let hole = vec![xy(1.0, 1.0), xy(2.0, 1.0), xy(2.0, 2.0), xy(1.0, 2.0), xy(1.0, 1.0)];
    let g = Geometry::Polygon(vec![outer, hole]);
    assert_eq!(encode(&g).len(), 5 + 4 + 2 * (4 + 5 * 16));
}

fn round_trip(g: Geometry<u64>) {
    assert_eq!(decode(&encode(&g)).unwrap(), g);
}

#[test]
fn decodes_every_variant() {
    round_trip(Geometry::Point(xy(-73.9857, 40.7484)));
    round_trip(Geometry::LineString(vec![xy(0.0, 0.0), xy(1.0, 1.0), xy(2.0, 0.0)]));
    round_trip(Geometry::Polygon(vec![
        vec![xy(0.0, 0.0), xy(4.0, 0.0), xy(4.0, 4.0), xy(0.0, 4.0), xy(0.0, 0.0)],
        vec![xy(1.0, 1.0), xy(2.0, 1.0), xy(2.0, 2.0), xy(1.0, 2.0), xy(1.0, 1.0)],
    ]));
    round_trip(Geometry::MultiPoint(vec![xy(0.0, 0.0), xy(1.0, 1.0)]));
    round_trip(Geometry::MultiLineString(vec![
        vec![xy(0.0, 0.0), xy(1.0, 1.0)],
        vec![xy(2.0, 2.0), xy(3.0, 3.0)],
    ]));
    round_trip(Geometry::MultiPolygon(vec![vec![vec![
        xy(0.0, 0.0),
        xy(1.0, 0.0),
        xy(1.0, 1.0),
        xy(0.0, 0.0),
    ]]]));
    round_trip(Geometry::GeometryCollection(vec![
        Geometry::Point(xy(5.0, 6.0)),
        Geometry::LineString(vec![xy(0.0, 0.0), xy(1.0, 1.0)]),
    ]));
}

#[test]
fn wkb_size_matches_encoded_length() {
    for g in [
        Geometry::Point(xy(-73.9857, 40.7484)),
        Geometry::LineString(vec![xy(0.0, 0.0), xy(1.0, 1.0), xy(2.0, 0.0)]),
        Geometry::Polygon(vec![
            vec![xy(0.0, 0.0), xy(4.0, 0.0), xy(4.0, 4.0), xy(0.0, 0.0)],
            vec![xy(1.0, 1.0), xy(2.0, 1.0), xy(2.0, 2.0), xy(1.0, 1.0)],
        ]),
        Geometry::MultiPoint(vec![xy(0.0, 0.0), xy(1.0, 1.0)]),
        Geometry::MultiLineString(vec![vec![xy(0.0, 0.0), xy(1.0, 1.0)], vec![xy(2.0, 2.0)]]),
        Geometry::MultiPolygon(vec![vec![vec![xy(0.0, 0.0), xy(1.0, 0.0), xy(1.0, 1.0), xy(0.0, 0.0)]]]),
        Geometry::GeometryCollection(vec![
            Geometry::Point(xy(5.0, 6.0)),
            Geometry::LineString(vec![xy(0.0, 0.0), xy(1.0, 1.0)]),
        ]),
    ] {
        assert_eq!(wkb_size(&g), Some(encode(&g).len()), "size mismatch for {g:?}");
    }
}

#[test]
fn rejects_truncated_and_unknown() {
    assert!(decode(&[]).is_err());
    assert!(decode(&[0x01, 0x01, 0x00]).is_err()); // point, missing coords
    assert!(decode(&[0x00, 0x00, 0x00, 0x00, 0x01]).is_err());
    assert!(decode(&[0x01, 99, 0x00, 0x00, 0x00]).is_err());
}

#[test]
fn multipoint_embeds_sub_wkb() {
    let g = Geometry::MultiPoint(vec![xy(0.0, 0.0), xy(1.0, 1.0)]);
    let wkb = encode(&g);
    assert_eq!(wkb.len(), 5 + 4 + 2 * 21);
    assert_eq!(&wkb[1..5], &4u32.to_le_bytes());
    assert_eq!(wkb[9], 0x01);
    assert_eq!(&wkb[10..14], &1u32.to_le_bytes());
}

#[test]
fn encodes_point_z_matching_duckdb_and_gdal() {
    let wkb = encode(&Geometry::Point(xyz(1.0, 2.0, 3.0)));
    let mut expected = vec![0x01];
    expected.extend_from_slice(&1001u32.to_le_bytes());
    expected.extend_from_slice(&1.0f64.to_le_bytes());
    expected.extend_from_slice(&2.0f64.to_le_bytes());
    expected.extend_from_slice(&3.0f64.to_le_bytes());
    assert_eq!(wkb, expected);
}

#[test]
fn encodes_point_m_with_2000_offset() {
    let wkb = encode(&Geometry::Point(xym(1.0, 2.0, 4.0)));
    assert_eq!(&wkb[1..5], &2001u32.to_le_bytes());
    assert_eq!(&wkb[21..29], &4.0f64.to_le_bytes());
}

#[test]
fn encodes_point_zm_with_3000_offset_and_z_then_m_order() {
    let wkb = encode(&Geometry::Point(xyzm(1.0, 2.0, 3.0, 4.0)));
    assert_eq!(&wkb[1..5], &3001u32.to_le_bytes());
    assert_eq!(&wkb[21..29], &3.0f64.to_le_bytes()); // z
    assert_eq!(&wkb[29..37], &4.0f64.to_le_bytes()); // m
}

#[test]
fn encodes_linestring_z_matching_duckdb() {
    let g = Geometry::LineString(vec![xyz(0.0, 0.0, 0.0), xyz(1.0, 1.0, 1.0)]);
    let wkb = encode(&g);
    assert_eq!(&wkb[1..5], &1002u32.to_le_bytes());
    assert_eq!(&wkb[5..9], &2u32.to_le_bytes());
    assert_eq!(wkb.len(), 5 + 4 + 2 * 24);
}

#[test]
fn wkb_round_trips_z_m_and_zm_across_every_variant() {
    round_trip(Geometry::Point(xyz(1.0, 2.0, 3.0)));
    round_trip(Geometry::Point(xym(1.0, 2.0, 4.0)));
    round_trip(Geometry::Point(xyzm(1.0, 2.0, 3.0, 4.0)));
    round_trip(Geometry::LineString(vec![
        xyz(0.0, 0.0, 0.0),
        xyz(1.0, 1.0, 2.0),
    ]));
    round_trip(Geometry::Polygon(vec![vec![
        xyz(0.0, 0.0, 0.0),
        xyz(4.0, 0.0, 0.0),
        xyz(4.0, 4.0, 1.0),
        xyz(0.0, 0.0, 0.0),
    ]]));
    round_trip(Geometry::MultiPoint(vec![
        xyz(0.0, 0.0, 1.0),
        xyz(1.0, 1.0, 2.0),
    ]));
    round_trip(Geometry::MultiLineString(vec![
        vec![xyz(0.0, 0.0, 0.0), xyz(1.0, 1.0, 1.0)],
        vec![xyz(2.0, 2.0, 2.0), xyz(3.0, 3.0, 3.0)],
    ]));
    round_trip(Geometry::MultiPolygon(vec![vec![vec![
        xyz(0.0, 0.0, 0.0),
        xyz(1.0, 0.0, 0.0),
        xyz(1.0, 1.0, 0.0),
        xyz(0.0, 0.0, 0.0),
    ]]]));
    round_trip(Geometry::GeometryCollection(vec![
        Geometry::Point(xyz(5.0, 6.0, 7.0)),
        Geometry::LineString(vec![xyz(0.0, 0.0, 0.0), xyz(1.0, 1.0, 1.0)]),
    ]));
}

#[test]
fn multipoint_z_outer_and_inner_type_codes_are_both_z_suffixed() {
    let g = Geometry::MultiPoint(vec![xyz(0.0, 0.0, 0.0), xyz(1.0, 1.0, 1.0)]);
    let wkb = encode(&g);
    assert_eq!(&wkb[1..5], &1004u32.to_le_bytes());
    assert_eq!(wkb[9], 0x01);
    assert_eq!(&wkb[10..14], &1001u32.to_le_bytes());
}

#[test]
fn mixed_dimensionality_within_one_geometry_falls_back_to_zero_rather_than_panicking() {
    let g = Geometry::LineString(vec![xyz(0.0, 0.0, 5.0), xy(1.0, 1.0)]);
    let wkb = encode(&g);
    let decoded = decode(&wkb).unwrap();
    match decoded {
        Geometry::LineString(ps) => {
            assert_eq!(ps[0].z, Some(5.0f64.to_bits()));
            assert_eq!(ps[1].z, Some(0.0f64.to_bits()));
        }
        other => panic!("expected LineString, got {other:?}"),
    }
}

fn from_hex(hex: &str) -> Vec<u8> {
    (0..hex.len())
        .step_by(2)
        .map(|i| u8::from_str_radix(&hex[i..i + 2], 16).unwrap())
        .collect()
}

#[test]
fn decodes_real_duckdb_and_gdal_bytes_directly() {
    let point_z = from_hex("01e9030000000000000000f03f00000000000000400000000000000840");
    assert_eq!(decode(&point_z).unwrap(), Geometry::Point(xyz(1.0, 2.0, 3.0)));

    let point_m = from_hex("01d1070000000000000000f03f00000000000000400000000000001040");
    assert_eq!(decode(&point_m).unwrap(), Geometry::Point(xym(1.0, 2.0, 4.0)));

    let point_zm = from_hex(
        "01b90b0000000000000000f03f000000000000004000000000000008400000000000001040",
    );
    assert_eq!(decode(&point_zm).unwrap(), Geometry::Point(xyzm(1.0, 2.0, 3.0, 4.0)));

    let line_z = from_hex(
        "01ea03000002000000000000000000000000000000000000000000000000000000000000000000f03f000000000000f03f000000000000f03f",
    );
    assert_eq!(
        decode(&line_z).unwrap(),
        Geometry::LineString(vec![xyz(0.0, 0.0, 0.0), xyz(1.0, 1.0, 1.0)])
    );

    let multipoint_z = from_hex(
        "01ec0300000200000001e903000000000000000000000000000000000000000000000000000001e9030000000000000000f03f000000000000f03f000000000000f03f",
    );
    assert_eq!(
        decode(&multipoint_z).unwrap(),
        Geometry::MultiPoint(vec![xyz(0.0, 0.0, 0.0), xyz(1.0, 1.0, 1.0)])
    );
}

#[test]
fn rejects_ewkb_style_high_bit_flag_type_codes() {
    let mut bytes = vec![0x01];
    bytes.extend_from_slice(&0x80000001u32.to_le_bytes());
    assert!(decode(&bytes).is_err());
}
