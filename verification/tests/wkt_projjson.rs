//! WKT definitions as PROJJSON.
use geosetta::crs::wkt_to_projjson;
use geosetta::json::{parse, JsonValue};

const GDA2020_WKT1: &str = r#"GEOGCS["GDA2020",DATUM["Geocentric_Datum_of_Australia_2020",SPHEROID["GRS 1980",6378137,298.257222101,AUTHORITY["EPSG","7019"]],AUTHORITY["EPSG","6283"]],PRIMEM["Greenwich",0,AUTHORITY["EPSG","8901"]],UNIT["degree",0.0174532925199433,AUTHORITY["EPSG","9122"]],AUTHORITY["EPSG","7844"]]"#;

#[test]
fn translates_wkt1_geographic_faithfully() {
    let pj = wkt_to_projjson(GDA2020_WKT1).unwrap();
    assert!(pj.contains("\"type\":\"GeographicCRS\""), "{pj}");
    assert!(pj.contains("\"name\":\"GDA2020\""), "{pj}");
    assert!(pj.contains("\"name\":\"Geocentric_Datum_of_Australia_2020\""), "{pj}");
    assert!(pj.contains("\"semi_major_axis\":6378137"), "{pj}");
    assert!(pj.contains("\"inverse_flattening\":298.257222101"), "{pj}");
    assert!(pj.contains("\"id\":{\"authority\":\"EPSG\",\"code\":7844}"), "{pj}");
    assert!(geosetta::json::parse(&pj).is_ok(), "{pj}");
}

#[test]
fn uses_authoritative_latitude_first_axis_order() {
    let pj = wkt_to_projjson(GDA2020_WKT1).unwrap();
    let lat = pj.find("Geodetic latitude").expect("latitude axis present");
    let lon = pj.find("Geodetic longitude").expect("longitude axis present");
    assert!(lat < lon, "latitude axis must come first: {pj}");
}

#[test]
fn translates_wkt2_geographic() {
    let wkt = r#"GEOGCRS["GDA2020",DATUM["GDA2020",ELLIPSOID["GRS 1980",6378137,298.257222101,LENGTHUNIT["metre",1]]],CS[ellipsoidal,2],ID["EPSG",7844]]"#;
    let pj = wkt_to_projjson(wkt).unwrap();
    assert!(pj.contains("\"type\":\"GeographicCRS\""), "{pj}");
    assert!(pj.contains("\"code\":7844"), "{pj}");
    assert!(geosetta::json::parse(&pj).is_ok(), "{pj}");
}

#[test]
fn no_id_still_produces_valid_projjson() {
    let wkt = r#"GEOGCS["custom",DATUM["custom datum",SPHEROID["custom",6378137,298.25]]]"#;
    let pj = wkt_to_projjson(wkt).unwrap();
    assert!(!pj.contains("\"id\""), "{pj}");
    assert!(pj.contains("\"semi_major_axis\":6378137"), "{pj}");
    assert!(geosetta::json::parse(&pj).is_ok(), "{pj}");
}

const UTM55S_WKT2: &str = r#"PROJCRS["WGS 84 / UTM zone 55S",BASEGEOGCRS["WGS 84",ENSEMBLE["World Geodetic System 1984 ensemble",MEMBER["World Geodetic System 1984 (Transit)"],MEMBER["World Geodetic System 1984 (G2296)"],ELLIPSOID["WGS 84",6378137,298.257223563,LENGTHUNIT["metre",1]],ENSEMBLEACCURACY[2.0]],PRIMEM["Greenwich",0,ANGLEUNIT["degree",0.0174532925199433]],ID["EPSG",4326]],CONVERSION["UTM zone 55S",METHOD["Transverse Mercator",ID["EPSG",9807]],PARAMETER["Latitude of natural origin",0,ANGLEUNIT["degree",0.0174532925199433],ID["EPSG",8801]],PARAMETER["Longitude of natural origin",147,ANGLEUNIT["degree",0.0174532925199433],ID["EPSG",8802]],PARAMETER["Scale factor at natural origin",0.9996,SCALEUNIT["unity",1],ID["EPSG",8805]],PARAMETER["False easting",500000,LENGTHUNIT["metre",1],ID["EPSG",8806]],PARAMETER["False northing",10000000,LENGTHUNIT["metre",1],ID["EPSG",8807]]],CS[Cartesian,2],AXIS["(E)",east,ORDER[1],LENGTHUNIT["metre",1]],AXIS["(N)",north,ORDER[2],LENGTHUNIT["metre",1]],ID["EPSG",32755]]"#;

const MGA55_WKT2: &str = r#"PROJCRS["GDA2020 / MGA zone 55",BASEGEOGCRS["GDA2020",DATUM["Geocentric Datum of Australia 2020",ELLIPSOID["GRS 1980",6378137,298.257222101,LENGTHUNIT["metre",1]]],PRIMEM["Greenwich",0,ANGLEUNIT["degree",0.0174532925199433]],ID["EPSG",7844]],CONVERSION["Map Grid of Australia zone 55",METHOD["Transverse Mercator",ID["EPSG",9807]],PARAMETER["Latitude of natural origin",0,ANGLEUNIT["degree",0.0174532925199433],ID["EPSG",8801]],PARAMETER["Longitude of natural origin",147,ANGLEUNIT["degree",0.0174532925199433],ID["EPSG",8802]],PARAMETER["Scale factor at natural origin",0.9996,SCALEUNIT["unity",1],ID["EPSG",8805]],PARAMETER["False easting",500000,LENGTHUNIT["metre",1],ID["EPSG",8806]],PARAMETER["False northing",10000000,LENGTHUNIT["metre",1],ID["EPSG",8807]]],CS[Cartesian,2],AXIS["(E)",east,ORDER[1],LENGTHUNIT["metre",1]],AXIS["(N)",north,ORDER[2],LENGTHUNIT["metre",1]],ID["EPSG",7855]]"#;

#[test]
fn translates_wkt2_projected_ensemble_base() {
    let pj = wkt_to_projjson(UTM55S_WKT2).unwrap();
    assert!(pj.contains("\"type\":\"ProjectedCRS\""), "{pj}");
    assert!(pj.contains("\"name\":\"WGS 84 / UTM zone 55S\""), "{pj}");
    assert!(pj.contains("\"datum_ensemble\":{\"name\":\"World Geodetic System 1984 ensemble\""), "{pj}");
    assert!(pj.contains("\"accuracy\":\"2.0\""), "accuracy required on ensemble: {pj}");
    assert!(!pj.contains("\"members\""), "members should be omitted: {pj}");
    assert!(pj.contains("\"method\":{\"name\":\"Transverse Mercator\",\"id\":{\"authority\":\"EPSG\",\"code\":9807}}"), "{pj}");
    assert!(pj.contains("\"name\":\"Longitude of natural origin\",\"value\":147,\"unit\":\"degree\",\"id\":{\"authority\":\"EPSG\",\"code\":8802}"), "{pj}");
    assert!(pj.contains("\"name\":\"Scale factor at natural origin\",\"value\":0.9996,\"unit\":\"unity\""), "{pj}");
    assert!(pj.contains("\"name\":\"False easting\",\"value\":500000,\"unit\":\"metre\""), "{pj}");
    assert!(pj.contains("\"subtype\":\"Cartesian\""), "{pj}");
    assert!(pj.ends_with("\"id\":{\"authority\":\"EPSG\",\"code\":32755}}"), "{pj}");
    assert!(geosetta::json::parse(&pj).is_ok(), "{pj}");
}

#[test]
fn translates_wkt2_projected_plain_datum_base() {
    let pj = wkt_to_projjson(MGA55_WKT2).unwrap();
    assert!(pj.contains("\"type\":\"ProjectedCRS\""), "{pj}");
    assert!(pj.contains("\"datum\":{\"type\":\"GeodeticReferenceFrame\",\"name\":\"Geocentric Datum of Australia 2020\""), "{pj}");
    assert!(pj.contains("\"id\":{\"authority\":\"EPSG\",\"code\":7844}"), "{pj}");
    assert!(pj.ends_with("\"id\":{\"authority\":\"EPSG\",\"code\":7855}}"), "{pj}");
    assert!(geosetta::json::parse(&pj).is_ok(), "{pj}");
}

const CALIF1_WKT1: &str = r#"PROJCS["NAD83 / California zone 1 (ftUS)",GEOGCS["NAD83",DATUM["North_American_Datum_1983",SPHEROID["GRS 1980",6378137,298.257222101,AUTHORITY["EPSG","7019"]],AUTHORITY["EPSG","6269"]],PRIMEM["Greenwich",0,AUTHORITY["EPSG","8901"]],UNIT["degree",0.0174532925199433,AUTHORITY["EPSG","9122"]],AUTHORITY["EPSG","4269"]],PROJECTION["Lambert_Conformal_Conic_2SP"],PARAMETER["latitude_of_origin",39.3333333333333],PARAMETER["central_meridian",-122],PARAMETER["standard_parallel_1",41.6666666666667],PARAMETER["standard_parallel_2",40],PARAMETER["false_easting",6561666.667],PARAMETER["false_northing",1640416.667],UNIT["US survey foot",0.304800609601219,AUTHORITY["EPSG","9003"]],AXIS["Easting",EAST],AXIS["Northing",NORTH],AUTHORITY["EPSG","2225"]]"#;

#[test]
fn translates_wkt1_projected_via_crosswalk_tables() {
    let pj = wkt_to_projjson(CALIF1_WKT1).unwrap();
    assert!(pj.contains("\"type\":\"ProjectedCRS\""), "{pj}");
    assert!(pj.contains("\"method\":{\"name\":\"Lambert Conic Conformal (2SP)\",\"id\":{\"authority\":\"EPSG\",\"code\":9802}}"), "{pj}");
    assert!(pj.contains("\"name\":\"Latitude of false origin\",\"value\":39.3333333333333,\"unit\":\"degree\",\"id\":{\"authority\":\"EPSG\",\"code\":8821}"), "{pj}");
    assert!(pj.contains("\"name\":\"Easting at false origin\",\"value\":6561666.667,\"unit\":{\"type\":\"LinearUnit\",\"name\":\"US survey foot\""), "{pj}");
    assert!(pj.contains("\"subtype\":\"Cartesian\""), "{pj}");
    assert!(pj.ends_with("\"id\":{\"authority\":\"EPSG\",\"code\":2225}}"), "{pj}");
    assert!(geosetta::json::parse(&pj).is_ok(), "{pj}");
}

#[test]
fn wkt1_unknown_method_falls_back() {
    let wkt1 = r#"PROJCS["x",GEOGCS["WGS 84",DATUM["WGS_1984",SPHEROID["WGS 84",6378137,298.257223563]],PRIMEM["Greenwich",0],UNIT["degree",0.0174532925199433]],PROJECTION["Polar_Stereographic"],PARAMETER["latitude_of_origin",-71],PARAMETER["central_meridian",0],PARAMETER["false_easting",0],PARAMETER["false_northing",0],UNIT["metre",1]]"#;
    assert_eq!(wkt_to_projjson(wkt1), None);
}

#[test]
fn declines_incomplete_or_unsupported_wkt() {
    assert_eq!(wkt_to_projjson("GEOGCS[\"anonymous\"]"), None);
    assert_eq!(
        wkt_to_projjson("PROJCS[\"WGS 84 / UTM zone 55S\",GEOGCS[\"WGS 84\"]]"),
        None
    );
    assert_eq!(
        wkt_to_projjson(r#"PROJCRS["x",BASEGEOGCRS["WGS 84",DATUM["d",ELLIPSOID["e",6378137,298.257223563]]],CONVERSION["c",METHOD["Transverse Mercator"],PARAMETER["False easting",500000,LENGTHUNIT["metre",1]]]]"#),
        None
    );
    assert_eq!(wkt_to_projjson("not wkt"), None);
}

#[test]
fn rendered_definitions_are_json_objects() {
    for wkt in [GDA2020_WKT1, UTM55S_WKT2, MGA55_WKT2, CALIF1_WKT1] {
        let text = wkt_to_projjson(wkt).unwrap();
        let value = parse(&text).unwrap();
        assert!(matches!(value, JsonValue::Object(_)), "{text}");
        assert!(value.get("coordinate_system").is_some(), "{text}");
    }
    let value = parse(&wkt_to_projjson(MGA55_WKT2).unwrap()).unwrap();
    let conversion = value.get("conversion").unwrap();
    assert!(conversion.get("method").unwrap().get("id").is_some());
    assert!(!conversion.get("parameters").unwrap().as_array().unwrap().is_empty());
}
