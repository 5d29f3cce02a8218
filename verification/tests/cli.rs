//! The command line.
use geosetta::cli::{parse, Args, Mode};
use geosetta::error::Error;
use geosetta::format::Format;


fn args(items: &[&str]) -> Result<Args, Error> {
    parse(&items.iter().map(|s| s.to_string()).collect())
}

fn convert_parts(a: &Args) -> (&str, Format) {
    match &a.mode {
        Mode::Convert { output, to } => (output.as_str(), *to),
        Mode::PrintCrsCode => panic!("expected a conversion, got --print-crs-code"),
        Mode::PrintCrs => panic!("expected a conversion, got --print-crs"),
    }
}

#[test]
fn infers_formats_from_extensions() {
    let a = args(&["geosetta", "in.geojson", "out.parquet"]).unwrap();
    assert_eq!(a.from, Format::GeoJson);
    assert_eq!(convert_parts(&a).1, Format::Parquet);
    assert_eq!(a.input, "in.geojson");
}

#[test]
fn explicit_flags_override() {
    let a = args(&["geosetta", "in.txt", "out.bin", "--from", "geojson", "--to", "parquet"])
        .unwrap();
    assert_eq!(a.from, Format::GeoJson);
    assert_eq!(convert_parts(&a).1, Format::Parquet);
}

#[test]
fn parses_envelope_flag() {
    let a = args(&["geosetta", "in.geojson", "out.gpkg", "--envelope"]).unwrap();
    assert!(a.envelope);
    let b = args(&["geosetta", "in.geojson", "out.gpkg"]).unwrap();
    assert!(!b.envelope, "off by default — it is an opt-in optimization");
}

#[test]
fn parses_rtree_flag() {
    let a = args(&["geosetta", "in.geojson", "out.gpkg", "--rtree"]).unwrap();
    assert!(a.rtree);
    let b = args(&["geosetta", "in.geojson", "out.gpkg"]).unwrap();
    assert!(!b.rtree);
}

#[test]
fn parses_progress_flag() {
    let a = args(&["geosetta", "in.geojson", "out.parquet", "--progress"]).unwrap();
    assert!(a.progress);
    let b = args(&["geosetta", "in.geojson", "out.parquet"]).unwrap();
    assert!(!b.progress);
}

#[test]
fn parses_quiet_flag() {
    assert!(!args(&["geosetta", "in.gpkg", "out.geojson"]).unwrap().quiet);
    assert!(args(&["geosetta", "in.gpkg", "out.geojson", "--quiet"]).unwrap().quiet);
    assert!(args(&["geosetta", "in.gpkg", "out.geojson", "--no-warn"]).unwrap().quiet);
}

#[test]
fn errors_on_bad_usage() {
    assert!(args(&["geosetta", "only-one.geojson"]).is_err());
    assert!(args(&["geosetta", "a.xyz", "b.parquet"]).is_err()); // unknown input ext
    assert!(args(&["geosetta", "--help"]).is_err());
}

#[test]
fn bare_dash_is_a_positional_not_an_unknown_option() {
    let a = args(&["geosetta", "-", "-", "--from", "geojson", "--to", "wkt"]).unwrap();
    assert_eq!(a.input, "-");
    assert_eq!(convert_parts(&a), ("-", Format::Wkt));
    assert_eq!(a.from, Format::GeoJson);
}

#[test]
fn dash_input_requires_explicit_from() {
    let err = args(&["geosetta", "-", "out.geojson"]).unwrap_err();
    assert!(matches!(err, Error::Usage(m) if m.contains("--from") && m.contains("stdin")));
    let a = args(&["geosetta", "-", "out.geojson", "--from", "wkt"]).unwrap();
    assert_eq!(a.from, Format::Wkt);
    assert_eq!(convert_parts(&a).1, Format::GeoJson);
}

#[test]
fn dash_output_requires_explicit_to() {
    let err = args(&["geosetta", "in.geojson", "-"]).unwrap_err();
    assert!(matches!(err, Error::Usage(m) if m.contains("--to") && m.contains("stdout")));
    let a = args(&["geosetta", "in.geojson", "-", "--to", "wkt"]).unwrap();
    assert_eq!(convert_parts(&a).1, Format::Wkt);
}

#[test]
fn parses_crs_override_path() {
    let a = args(&["geosetta", "in.parquet", "out.shp", "--crs", "gda2020.wkt"]).unwrap();
    assert_eq!(a.crs.as_deref(), Some("gda2020.wkt"));
    assert!(args(&["geosetta", "in.parquet", "out.shp", "--crs"]).is_err());
    assert_eq!(args(&["geosetta", "in.parquet", "out.shp"]).unwrap().crs, None);
}

#[test]
fn print_crs_code_takes_an_input_and_no_output() {
    let a = args(&["geosetta", "in.parquet", "--print-crs-code"]).unwrap();
    assert_eq!(a.input, "in.parquet");
    assert_eq!(a.from, Format::Parquet);
    assert!(matches!(a.mode, Mode::PrintCrsCode));
    let err = args(&["geosetta", "in.parquet", "out.shp", "--print-crs-code"]).unwrap_err();
    assert!(matches!(err, Error::Usage(m) if m.contains("no output")));
}

#[test]
fn print_crs_code_still_needs_a_knowable_input_format() {
    assert!(args(&["geosetta", "mystery.xyz", "--print-crs-code"]).is_err());
    let a = args(&["geosetta", "-", "--print-crs-code", "--from", "parquet"]).unwrap();
    assert_eq!(a.from, Format::Parquet);
}

#[test]
fn print_crs_code_and_crs_override_are_mutually_exclusive() {
    let err = args(&["geosetta", "in.parquet", "--print-crs-code", "--crs", "x.wkt"])
        .unwrap_err();
    assert!(matches!(err, Error::Usage(m) if m.contains("--crs")));
}

#[test]
fn print_crs_takes_an_input_and_no_output() {
    let a = args(&["geosetta", "in.parquet", "--print-crs"]).unwrap();
    assert_eq!(a.input, "in.parquet");
    assert_eq!(a.from, Format::Parquet);
    assert!(matches!(a.mode, Mode::PrintCrs));
    let err = args(&["geosetta", "in.parquet", "out.shp", "--print-crs"]).unwrap_err();
    assert!(
        matches!(&err, Error::Usage(m) if m.contains("no output")),
        "{err:?}"
    );
    assert!(
        matches!(&err, Error::Usage(m) if m.contains("--print-crs takes")),
        "{err:?}"
    );
}

#[test]
fn print_crs_still_needs_a_knowable_input_format() {
    assert!(args(&["geosetta", "mystery.xyz", "--print-crs"]).is_err());
    let a = args(&["geosetta", "-", "--print-crs", "--from", "parquet"]).unwrap();
    assert_eq!(a.from, Format::Parquet);
}

#[test]
fn print_crs_and_crs_override_are_mutually_exclusive() {
    let err = args(&["geosetta", "in.parquet", "--print-crs", "--crs", "x.wkt"]).unwrap_err();
    assert!(
        matches!(&err, Error::Usage(m) if m.contains("--crs")),
        "{err:?}"
    );
    assert!(
        matches!(&err, Error::Usage(m) if m.contains("--print-crs ")),
        "{err:?}"
    );
}

#[test]
fn the_two_printing_flags_are_mutually_exclusive() {
    let err = args(&["geosetta", "in.parquet", "--print-crs", "--print-crs-code"]).unwrap_err();
    assert!(
        matches!(&err, Error::Usage(m) if m.contains("one or the other")),
        "{err:?}"
    );
    assert!(args(&["geosetta", "in.parquet", "--print-crs-code", "--print-crs"]).is_err());
}

#[test]
fn print_crs_accepts_the_flags_that_narrow_what_it_reads() {
    let a = args(&["geosetta", "in.gpkg", "--print-crs", "--layer", "roads"]).unwrap();
    assert!(matches!(a.mode, Mode::PrintCrs));
    assert_eq!(a.layer.as_deref(), Some("roads"));
    assert!(a.crs.is_none());
}

#[test]
fn escape_is_valid_only_alongside_print_crs() {
    let a = args(&["geosetta", "in.parquet", "--print-crs", "--escape"]).unwrap();
    assert!(matches!(a.mode, Mode::PrintCrs));
    assert!(a.escape);

    for bad in [
        vec!["geosetta", "in.parquet", "out.shp", "--escape"],
        vec!["geosetta", "in.parquet", "--print-crs-code", "--escape"],
        vec!["geosetta", "in.parquet", "--escape"],
    ] {
        let err = args(&bad).unwrap_err();
        assert!(
            matches!(&err, Error::Usage(m) if m.contains("--escape")),
            "for {bad:?}: {err:?}"
        );
    }
}

#[test]
fn escape_defaults_off() {
    assert!(
        !args(&["geosetta", "in.parquet", "--print-crs"])
            .unwrap()
            .escape
    );
    assert!(!args(&["geosetta", "in.parquet", "out.shp"]).unwrap().escape);
}

#[test]
fn crs_from_stdin_conflicts_with_input_from_stdin() {
    let err = args(&["geosetta", "-", "out.shp", "--from", "fgb", "--crs", "-"]).unwrap_err();
    assert!(matches!(err, Error::Usage(m) if m.contains("stdin")));
    assert!(args(&["geosetta", "-", "out.shp", "--from", "fgb", "--crs", "c.wkt"]).is_ok());
    assert!(args(&["geosetta", "in.fgb", "out.shp", "--crs", "-"]).is_ok());
}

#[test]
fn a_path_without_a_dot_has_no_format() {
    let e = args(&["geosetta", "csv", "out.kml"]).unwrap_err();
    assert!(e.message().contains("cannot infer input format from \"csv\""), "{}", e.message());
    let e = args(&["geosetta", "in.csv", "kml"]).unwrap_err();
    assert!(e.message().contains("cannot infer output format from \"kml\""), "{}", e.message());
    assert!(args(&["geosetta", "csv", "out.kml", "--from", "csv"]).is_ok());
}
