//! What the program prints.
use geosetta::crs::{Crs, NamedCrs};
use geosetta::feature::{Feature, FeatureCollection};
use geosetta::format::Format;
use geosetta::geometry::{Geometry, Position};
use geosetta::json::JsonValue;
use geosetta::report::{
    apply_crs_override, collect_conversion_warnings, collect_layer_warnings, crs_code_lines,
    crs_definition_text, escape_control_bytes, fan_out, install_crs_override, io_label, layer_stem,
    no_stdio_for_multifile, nothing_to_print, route, select_layer, sibling_paths,
    strip_shp_extension, Fan, Route,
};


#[test]
fn escape_renders_the_bytes_that_would_act_on_a_terminal() {
    assert_eq!(
        escape_control_bytes("GEOGCRS[\"EVIL\u{1b}]0;PWNED\u{7}NAME\"]"),
        "GEOGCRS[\"EVIL^[]0;PWNED^GNAME\"]"
    );
    assert_eq!(escape_control_bytes("\u{0}\u{1}\u{1f}\u{7f}"), "^@^A^_^?");
}

#[test]
fn escape_leaves_tab_and_newline_alone() {
    let pretty = "{\n\t\"type\": \"GeographicCRS\",\n\t\"name\": \"WGS 84\"\n}";
    assert_eq!(escape_control_bytes(pretty), pretty);
    assert_eq!(escape_control_bytes("a\rb"), "a^Mb");
}

#[test]
fn escape_renders_high_bit_bytes_in_m_notation() {
    assert_eq!(escape_control_bytes("Réunion"), "RM-CM-)union");
    assert_eq!(escape_control_bytes("\u{80}"), "M-BM-^@");
}

#[test]
fn escape_is_the_identity_on_ordinary_definition_text() {
    let wkt = r#"GEOGCS["GCS_WGS_1984",DATUM["D_WGS_1984",SPHEROID["WGS_1984",6378137.0,298.257223563]]]"#;
    assert_eq!(escape_control_bytes(wkt), wkt);
}

fn named(authority: &str, code: &str, wkt: Option<&str>) -> Crs {
    Crs::Named(NamedCrs {
        authority: Some(authority.into()),
        code: Some(code.into()),
        wkt: wkt.map(|w| w.to_string()),
        projjson: None,
    })
}

fn body(wkt: &str) -> Crs {
    Crs::Named(NamedCrs { authority: None, code: None, wkt: Some(wkt.into()), projjson: None })
}

fn collection(crs: Option<Crs>, m: bool) -> FeatureCollection<i64, JsonValue> {
    let p = if m { Position::with_m(1, 2, 3) } else { Position::new(1, 2) };
    FeatureCollection {
        features: vec![Feature { geometry: Some(Geometry::Point(p)), properties: vec![] }],
        crs,
    }
}

#[test]
fn a_dash_is_labelled_by_its_direction() {
    assert_eq!(io_label("-", "stdin"), "stdin");
    assert_eq!(io_label("roads.shp", "stdin"), "roads.shp");
    assert!(no_stdio_for_multifile("Shapefile").message().starts_with("Shapefile is multi-file; "));
}

#[test]
fn a_layer_is_named_after_its_file() {
    assert_eq!(layer_stem("data/roads.geojson"), "roads");
    assert_eq!(layer_stem("archive.tar.gz"), "archive.tar");
    assert_eq!(layer_stem(".hidden"), ".hidden");
    assert_eq!(layer_stem("dir/roads/"), "roads");
    assert_eq!(layer_stem("-"), "layer");
    assert_eq!(layer_stem(".."), "layer");
    assert_eq!(layer_stem(""), "layer");
    assert_eq!(layer_stem("/"), "layer");
}

#[test]
fn only_a_shp_extension_is_stripped() {
    assert_eq!(strip_shp_extension("out/roads.shp"), "out/roads");
    assert_eq!(strip_shp_extension("ROADS.SHP"), "ROADS");
    assert_eq!(strip_shp_extension("roads.v2"), "roads.v2");
    assert_eq!(strip_shp_extension("roads"), "roads");
}

#[test]
fn siblings_follow_the_case_of_the_shapefile() {
    assert_eq!(sibling_paths("a/roads.shp", "dbf"), vec!["a/roads.dbf", "a/roads.DBF"]);
    assert_eq!(sibling_paths("ROADS.SHP", "dbf"), vec!["ROADS.DBF", "ROADS.dbf"]);
    assert_eq!(sibling_paths("roads", "prj"), vec!["roads.prj", "roads.PRJ"]);
    assert!(sibling_paths("..", "dbf").is_empty());
}

#[test]
fn codes_are_reported_once_each_in_order() {
    let sources = vec![
        (Some("a".to_string()), Some(named("EPSG", "3857", None))),
        (Some("b".to_string()), None),
        (Some("c".to_string()), Some(Crs::Wgs84)),
        (Some("d".to_string()), Some(named("EPSG", "3857", Some("PROJCS[]")))),
    ];
    assert_eq!(crs_code_lines("in.gpkg", &sources).unwrap(), vec!["EPSG:3857", "OGC:CRS84"]);
    let none = crs_code_lines("-", &vec![(None, None)]).unwrap_err().message();
    assert!(none.starts_with("stdin: no CRS authority code to report"), "{none}");
}

#[test]
fn one_definition_is_printed_as_it_stands() {
    let wkt = "GEOGCS[\"Évil\u{1b}\"]";
    let sources = vec![
        (Some("a".to_string()), Some(body(wkt))),
        (Some("b".to_string()), Some(body(wkt))),
        (Some("c".to_string()), None),
    ];
    assert_eq!(crs_definition_text("x", &sources, false).unwrap(), wkt);
    assert_eq!(crs_definition_text("x", &sources, true).unwrap(), "GEOGCS[\"M-CM-^Ivil^[\"]");
}

#[test]
fn several_definitions_are_an_error_that_names_the_layers() {
    let sources = vec![
        (Some("a".to_string()), Some(body("GEOGCS[\"A\"]"))),
        (Some("b".to_string()), Some(body("GEOGCS[\"B\"]"))),
    ];
    let e = crs_definition_text("x.gpkg", &sources, false).unwrap_err().message();
    assert!(e.starts_with("x.gpkg: the selected layers carry 2 different CRS definitions"), "{e}");
    assert!(e.ends_with("--layer (\"a\", \"b\")."), "{e}");
}

#[test]
fn a_missing_definition_says_which_case_it_is() {
    let implicit = nothing_to_print("x.geojson", &vec![(None, Some(Crs::Wgs84))]).message();
    assert!(implicit.contains("implicit WGS 84 default"), "{implicit}");
    assert!(implicit.contains("(prints OGC:CRS84)"), "{implicit}");
    let code_only = nothing_to_print("x.fgb", &vec![(None, Some(named("EPSG", "1", None)))]);
    assert!(code_only.message().contains("only an authority and code"));
    assert_eq!(
        crs_definition_text("x.fgb", &vec![(None, None)], false).unwrap_err().message(),
        nothing_to_print("x.fgb", &vec![(None, None)]).message()
    );
}

#[test]
fn an_override_replaces_every_system_and_warns_where_they_differed() {
    let mut layers = vec![
        ("a".to_string(), collection(Some(Crs::Wgs84), false)),
        ("b".to_string(), collection(None, false)),
        ("c".to_string(), collection(Some(Crs::Wgs84), false)),
    ];
    let crs = named("EPSG", "7844", None);
    let warnings = apply_crs_override(&mut layers, &crs);
    assert_eq!(
        warnings,
        vec!["--crs relabels all 3 layers as EPSG:7844, but the source declared 2 different CRSes; the override replaces every one of them."]
    );
    assert!(layers.iter().all(|(_, c)| c.crs == Some(named("EPSG", "7844", None))));
    assert!(apply_crs_override(&mut layers, &body("GEOGCS[]")).is_empty());

    let mut one = collection(None, false);
    install_crs_override(&mut one, &crs);
    assert_eq!(one.crs, Some(crs));
}

#[test]
fn warnings_are_given_once_for_all_layers() {
    let layers = vec![
        ("a".to_string(), collection(Some(named("EPSG", "3857", None)), true)),
        ("b".to_string(), collection(Some(named("EPSG", "3857", None)), true)),
    ];
    let single = collect_conversion_warnings(&layers[0].1, Format::GeoJson);
    assert_eq!(single.len(), 2);
    assert!(single[1].starts_with("source geometry carries M (measure) values; GeoJSON"));
    assert_eq!(collect_layer_warnings(&layers, Format::GeoJson), single);
    let quiet = collection(Some(Crs::Wgs84), false);
    for target in [Format::GeoJson, Format::Csv, Format::FlatGeobuf, Format::Gpkg, Format::Kml] {
        assert!(collect_conversion_warnings(&quiet, target).is_empty());
    }
}

#[test]
fn routes_go_by_the_container() {
    assert_eq!(route(Format::GeoJson, Format::Gpkg).unwrap(), Route::IntoGeoPackage);
    assert_eq!(route(Format::Gpkg, Format::Gpkg).unwrap(), Route::IntoGeoPackage);
    assert_eq!(route(Format::Gpkg, Format::Csv).unwrap(), Route::OutOfGeoPackage);
    assert_eq!(route(Format::Csv, Format::Kml).unwrap(), Route::Plain);
    assert_eq!(
        route(Format::GeoJson, Format::GeoJson).unwrap_err().message(),
        "input and output are the same format (GeoJson); nothing to convert"
    );
}

#[test]
fn layers_fan_out_into_a_directory_only() {
    assert_eq!(fan_out(1, false).unwrap(), Fan::Single);
    assert_eq!(fan_out(1, true).unwrap(), Fan::Directory);
    assert_eq!(fan_out(3, true).unwrap(), Fan::Directory);
    assert_eq!(fan_out(0, true).unwrap_err().message(), "GeoPackage has no feature layers");
    assert_eq!(
        fan_out(2, false).unwrap_err().message(),
        "GeoPackage has multiple layers: give an output directory (trailing '/') or --layer NAME"
    );
}

#[test]
fn a_layer_is_selected_by_name() {
    let layers = || vec![("a".to_string(), 1), ("b".to_string(), 2), ("a".to_string(), 3)];
    assert_eq!(select_layer(layers(), &None).unwrap().len(), 3);
    assert_eq!(
        select_layer(layers(), &Some("a".to_string())).unwrap(),
        vec![("a".to_string(), 1), ("a".to_string(), 3)]
    );
    assert_eq!(
        select_layer(layers(), &Some("z".to_string())).unwrap_err().message(),
        "no layer named \"z\""
    );
}
