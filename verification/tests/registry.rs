//! The registry of reference systems.
use geosetta::crs::registry::{
    def_projjson, def_wkt, def_wkt2, first_confirmed, geographic_candidates, projected_candidates, wkt_crs_name,
    wkt_ellipsoid_params, Ellipsoid, Flattening, Search,
};

fn approx_eq(a: f64, b: f64) -> bool {
    (a - b).abs() <= 1e-6 * a.abs().max(b.abs()).max(1.0)
}

fn dimensions(e: &Ellipsoid) -> (f64, f64) {
    let a: f64 = e.semi_major_axis.parse().unwrap();
    match &e.flattening {
        Flattening::Inverse(rf) => (a, rf.parse().unwrap()),
        Flattening::SemiMinorAxis(b) => {
            let b: f64 = b.parse().unwrap();
            (a, if a == b { 0.0 } else { a / (a - b) })
        }
    }
}

fn confirmed(search: Option<Search>) -> Option<&'static str> {
    let search = search?;
    let a: f64 = search.semi_major_axis.parse().unwrap();
    let rf: f64 = search.inverse_flattening.parse().unwrap();
    let hits: Vec<bool> = search
        .candidates
        .iter()
        .map(|c| {
            let (reg_a, reg_rf) = dimensions(&c.ellipsoid);
            approx_eq(a, reg_a) && approx_eq(rf, reg_rf)
        })
        .collect();
    first_confirmed(&search.candidates, &hits)
}

fn resolve_geographic_by_name(wkt: &str) -> Option<&'static str> {
    confirmed(geographic_candidates(wkt))
}

fn resolve_projected_by_name(wkt: &str) -> Option<&'static str> {
    confirmed(projected_candidates(wkt))
}


#[test]
fn resolves_epsg_3857() {
    let pj = def_projjson("EPSG", "3857").expect("EPSG:3857 present");
    assert!(pj.contains("\"id\":{\"authority\":\"EPSG\",\"code\":3857}"), "{pj}");
    assert!(geosetta::json::parse(pj).is_ok(), "{pj}");
}

const ESRI_WGS84: &str = r#"GEOGCS["GCS_WGS_1984",DATUM["D_WGS_1984",SPHEROID["WGS_1984",6378137.0,298.257223563]],PRIMEM["Greenwich",0.0],UNIT["Degree",0.0174532925199433]]"#;
const ESRI_NAD83: &str = r#"GEOGCS["GCS_North_American_1983",DATUM["D_North_American_1983",SPHEROID["GRS_1980",6378137.0,298.257222101]],PRIMEM["Greenwich",0.0],UNIT["Degree",0.0174532925199433]]"#;
const ESRI_NAD27: &str = r#"GEOGCS["GCS_North_American_1927",DATUM["D_North_American_1927",SPHEROID["Clarke_1866",6378206.4,294.978698213898]],PRIMEM["Greenwich",0.0],UNIT["Degree",0.0174532925199433]]"#;

#[test]
fn resolve_geographic_by_name_recovers_esri_wgs84() {
    let pj = resolve_geographic_by_name(ESRI_WGS84).expect("resolves to EPSG:4326");
    assert!(pj.contains("\"id\":{\"authority\":\"EPSG\",\"code\":4326}"), "{pj}");
}

#[test]
fn resolve_geographic_by_name_recovers_esri_nad83() {
    let pj = resolve_geographic_by_name(ESRI_NAD83).expect("resolves to EPSG:4269");
    assert!(pj.contains("\"id\":{\"authority\":\"EPSG\",\"code\":4269}"), "{pj}");
}

#[test]
fn resolve_geographic_by_name_recovers_esri_nad27() {
    let pj = resolve_geographic_by_name(ESRI_NAD27).expect("resolves to EPSG:4267");
    assert!(pj.contains("\"id\":{\"authority\":\"EPSG\",\"code\":4267}"), "{pj}");
}

#[test]
fn resolve_geographic_by_name_rejects_a_lying_name() {
    let lying = r#"GEOGCS["GCS_WGS_1984",DATUM["D_WGS_1984",SPHEROID["WGS_1984",6300000.0,290.0]],PRIMEM["Greenwich",0.0],UNIT["Degree",0.0174532925199433]]"#;
    assert_eq!(resolve_geographic_by_name(lying), None);
}

#[test]
fn resolve_geographic_by_name_declines_an_unknown_name() {
    let wkt = r#"GEOGCS["Totally Made Up Datum XYZ",DATUM["d",SPHEROID["e",6378137.0,298.257223563]]]"#;
    assert_eq!(resolve_geographic_by_name(wkt), None);
}

const ESRI_NAD83_2011_UTM10N: &str = r#"PROJCS["NAD_1983_2011_UTM_Zone_10N",GEOGCS["GCS_NAD_1983_2011",DATUM["D_NAD_1983_2011",SPHEROID["GRS_1980",6378137.0,298.257222101]],PRIMEM["Greenwich",0.0],UNIT["Degree",0.0174532925199433]],PROJECTION["Transverse_Mercator"],PARAMETER["False_Easting",500000.0],PARAMETER["False_Northing",0.0],PARAMETER["Central_Meridian",-123.0],PARAMETER["Scale_Factor",0.9996],PARAMETER["Latitude_Of_Origin",0.0],UNIT["Meter",1.0]]"#;

#[test]
fn resolve_projected_by_name_recovers_esri_nad83_2011_utm10n() {
    let pj = resolve_projected_by_name(ESRI_NAD83_2011_UTM10N).expect("resolves to EPSG:6339");
    assert!(pj.contains("\"id\":{\"authority\":\"EPSG\",\"code\":6339}"), "{pj}");
}

#[test]
fn resolve_projected_by_name_rejects_a_lying_ellipsoid() {
    let lying = r#"PROJCS["NAD_1983_2011_UTM_Zone_10N",GEOGCS["GCS_NAD_1983_2011",DATUM["D_NAD_1983_2011",SPHEROID["GRS_1980",6300000.0,290.0]],PRIMEM["Greenwich",0.0],UNIT["Degree",0.0174532925199433]],PROJECTION["Transverse_Mercator"],PARAMETER["False_Easting",500000.0],PARAMETER["False_Northing",0.0],PARAMETER["Central_Meridian",-123.0],PARAMETER["Scale_Factor",0.9996],PARAMETER["Latitude_Of_Origin",0.0],UNIT["Meter",1.0]]"#;
    assert_eq!(resolve_projected_by_name(lying), None);
}

#[test]
fn resolve_projected_by_name_declines_an_unknown_name() {
    let wkt = r#"PROJCS["Totally Made Up Projection XYZ",GEOGCS["g",DATUM["d",SPHEROID["e",6378137.0,298.257223563]]],PROJECTION["Transverse_Mercator"]]"#;
    assert_eq!(resolve_projected_by_name(wkt), None);
}

#[test]
fn wkt_ellipsoid_params_reads_the_first_spheroid() {
    assert_eq!(wkt_ellipsoid_params(ESRI_WGS84), Some(("6378137.0".to_string(), "298.257223563".to_string())));
    assert_eq!(wkt_ellipsoid_params("GEOGCRS[\"x\"]"), None);
}

#[test]
fn wkt_crs_name_reads_the_outer_name() {
    assert_eq!(wkt_crs_name(ESRI_WGS84).as_deref(), Some("GCS_WGS_1984"));
    assert_eq!(wkt_crs_name(""), None);
}

#[test]
fn definitions_are_those_of_the_registry() {
    let wkt = def_wkt("EPSG", "3857").expect("EPSG:3857 present");
    assert!(wkt.starts_with("PROJCS["), "{wkt}");
    let wkt2 = def_wkt2("EPSG", "4326").expect("EPSG:4326 present");
    assert!(wkt2.starts_with("GEOG"), "{wkt2}");
    assert_eq!(def_wkt("EPSG", "99999999"), None);
    assert_eq!(def_projjson("NOBODY", "1"), None);
}

#[test]
fn the_first_confirmed_candidate_is_taken() {
    let search = geographic_candidates(ESRI_WGS84).expect("candidates");
    assert_eq!(search.semi_major_axis, "6378137.0");
    let none = vec![false; search.candidates.len()];
    assert_eq!(first_confirmed(&search.candidates, &none), None);
    let all = vec![true; search.candidates.len()];
    let first = first_confirmed(&search.candidates, &all).expect("the first one");
    assert_eq!(first, search.candidates[0].projjson);
}
