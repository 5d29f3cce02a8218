//! Formats.
use geosetta::format::Format;


#[test]
fn display_name_uses_each_format_s_own_spelling() {
    let expected = [
        (Format::GeoJson, "GeoJSON"),
        (Format::Parquet, "GeoParquet"),
        (Format::FlatGeobuf, "FlatGeobuf"),
        (Format::Csv, "CSV"),
        (Format::Wkt, "WKT"),
        (Format::Gpkg, "GeoPackage"),
        (Format::Shapefile, "Shapefile"),
        (Format::Kml, "KML"),
        (Format::Kmz, "KMZ"),
    ];
    for (format, name) in expected {
        assert_eq!(format.display_name(), name, "{format:?}");
    }
}

#[test]
fn names_and_extensions_stand_for_formats() {
    assert_eq!(Format::parse("ESRI Shapefile").unwrap(), Format::Shapefile);
    assert_eq!(Format::parse("GeoPackage").unwrap(), Format::Gpkg);
    assert_eq!(Format::parse("dwg").unwrap_err().message(), "unknown format \"dwg\"");
    for f in [
        Format::GeoJson,
        Format::Parquet,
        Format::FlatGeobuf,
        Format::Csv,
        Format::Wkt,
        Format::Gpkg,
        Format::Shapefile,
        Format::Kml,
        Format::Kmz,
    ] {
        assert_eq!(Format::from_path(&format!("a.b/c.{}", f.extension())), Some(f));
        assert_eq!(Format::parse(f.extension()).unwrap(), f);
    }
    assert_eq!(Format::from_path("README"), None);
    assert_eq!(Format::from_path("csv"), None);
    assert_eq!(Format::from_path("KML"), None);
    assert_eq!(Format::from_path(".csv"), Some(Format::Csv));
}
