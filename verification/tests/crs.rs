//! Reference systems.
use geosetta::crs::wkt::{tokenize_wkt, wkt_authority_code, WktTok};
use geosetta::crs::{Crs, NamedCrs, SYNTHETIC_AUTHORITY, WGS84_CRS_CODE};
use geosetta::error::Error;
use geosetta::format::Format;


fn gda2020() -> Crs {
    Crs::Named(NamedCrs {
        authority: Some("EPSG".into()),
        code: Some("7844".into()),
        wkt: None,
        projjson: None,
    })
}

#[test]
fn wgs84_never_warns() {
    for target in [
        Format::GeoJson,
        Format::Csv,
        Format::Wkt,
        Format::Parquet,
        Format::FlatGeobuf,
        Format::Gpkg,
    ] {
        assert_eq!(Crs::Wgs84.downgrade_warning(target), None);
    }
}

#[test]
fn wkt_dialect_targets_dont_warn_for_a_portable_code() {
    for target in [Format::FlatGeobuf, Format::Gpkg] {
        assert_eq!(gda2020().downgrade_warning(target), None);
    }
}

#[test]
fn parquet_warns_for_a_code_only_crs() {
    let w = gda2020().downgrade_warning(Format::Parquet).unwrap();
    assert!(w.contains("EPSG:7844"), "{w}");
    assert!(w.contains("resolv"), "{w}");
    assert!(w.contains("id reference"), "{w}");
    assert!(w.contains("--crs"), "{w}");
}

#[test]
fn parquet_does_not_warn_for_a_translatable_wkt() {
    let crs = Crs::Named(NamedCrs {
        wkt: Some(
            "GEOGCS[\"GDA2020\",DATUM[\"GDA2020\",SPHEROID[\"GRS 1980\",6378137,298.257222101]],\
             AUTHORITY[\"EPSG\",\"7844\"]]"
                .into(),
        ),
        ..Default::default()
    });
    assert_eq!(crs.downgrade_warning(Format::Parquet), None);
}

#[test]
fn definition_text_accepts_both_dialects() {
    let wkt1 = "GEOGCS[\"GDA2020\",DATUM[\"GDA2020\",SPHEROID[\"GRS 1980\",6378137,298.257222101]],\
                AUTHORITY[\"EPSG\",\"7844\"]]";
    match Crs::from_definition_text(wkt1).unwrap() {
        Crs::Named(n) => {
            assert_eq!(n.authority_code(), Some(("EPSG", "7844")));
            assert!(n.wkt.is_some() && n.projjson.is_none());
        }
        other => panic!("expected Named, got {other:?}"),
    }

    let wkt2 = "PROJCRS[\"custom grid\",BASEGEOGCRS[\"x\"],ID[\"EPSG\",\"3857\"]]";
    match Crs::from_definition_text(wkt2).unwrap() {
        Crs::Named(n) => assert_eq!(n.authority_code(), Some(("EPSG", "3857"))),
        other => panic!("expected Named, got {other:?}"),
    }

    let projjson = "\n  {\"type\":\"GeographicCRS\",\"name\":\"GDA2020\",\
                    \"id\":{\"authority\":\"EPSG\",\"code\":7844}}\n";
    match Crs::from_definition_text(projjson).unwrap() {
        Crs::Named(n) => {
            assert_eq!(n.authority_code(), Some(("EPSG", "7844")));
            assert!(n.projjson.is_some() && n.wkt.is_none());
        }
        other => panic!("expected Named, got {other:?}"),
    }
}

#[test]
fn a_synthetic_none_authority_is_not_reported_as_an_identity() {
    let synthetic = Crs::Named(NamedCrs {
        authority: Some(SYNTHETIC_AUTHORITY.into()),
        code: Some("100000".into()),
        wkt: Some("GEOGCS[\"Datum A\"]".into()),
        projjson: None,
    });
    assert_eq!(
        synthetic.authority_code(),
        None,
        "not a resolvable identity"
    );
    assert_eq!(synthetic.definition_body(), Some("GEOGCS[\"Datum A\"]"));

    let lowercase = Crs::Named(NamedCrs {
        authority: Some("none".into()),
        code: Some("100000".into()),
        ..Default::default()
    });
    assert_eq!(lowercase.authority_code(), None);
}

#[test]
fn a_real_authority_is_still_reported() {
    let real = Crs::Named(NamedCrs {
        authority: Some("EPSG".into()),
        code: Some("7844".into()),
        ..Default::default()
    });
    assert_eq!(real.authority_code().as_deref(), Some("EPSG:7844"));
    let synthetic = NamedCrs {
        authority: Some(SYNTHETIC_AUTHORITY.into()),
        code: Some("100000".into()),
        ..Default::default()
    };
    assert_eq!(synthetic.authority.as_deref(), Some("NONE"));
    assert_eq!(synthetic.code.as_deref(), Some("100000"));
}

#[test]
fn definition_body_prefers_projjson_when_both_dialects_are_present() {
    let both = Crs::Named(NamedCrs {
        authority: None,
        code: None,
        wkt: Some("GEOGCS[\"D\"]".into()),
        projjson: Some(r#"{"type":"GeographicCRS","name":"D"}"#.into()),
    });
    assert_eq!(
        both.definition_body(),
        Some(r#"{"type":"GeographicCRS","name":"D"}"#)
    );
}

#[test]
fn definition_body_falls_back_to_wkt_and_reports_nothing_when_there_is_none() {
    let wkt_only = Crs::Named(NamedCrs {
        wkt: Some("GEOGCS[\"D\"]".into()),
        ..Default::default()
    });
    assert_eq!(wkt_only.definition_body(), Some("GEOGCS[\"D\"]"));

    let code_only = Crs::Named(NamedCrs {
        authority: Some("EPSG".into()),
        code: Some("7844".into()),
        ..Default::default()
    });
    assert_eq!(code_only.definition_body(), None);
    assert_eq!(code_only.authority_code().as_deref(), Some("EPSG:7844"));

    assert_eq!(Crs::Wgs84.definition_body(), None);
    assert_eq!(Crs::Wgs84.authority_code().as_deref(), Some(WGS84_CRS_CODE));
}

#[test]
fn an_override_keeps_the_definition_the_user_supplied() {
    let pretty = "{\n  \"type\": \"GeographicCRS\",\n  \"name\": \"GDA2020\",\n  \
                  \"id\": {\n    \"authority\": \"EPSG\",\n    \"code\": 7844\n  }\n}";
    let padded = format!("\n  {pretty}\n\n");
    match Crs::from_definition_text(&padded).unwrap() {
        Crs::Named(n) => {
            assert_eq!(n.projjson.as_deref(), Some(pretty), "not byte-identical");
            assert_eq!(n.authority_code(), Some(("EPSG", "7844")));
        }
        other => panic!("expected Named, got {other:?}"),
    }
}

#[test]
fn definition_text_lifts_identity_exactly_like_a_reader() {
    let wkt = "GEOGCS[\"WGS 84\",DATUM[\"WGS_1984\",SPHEROID[\"WGS 84\",6378137,298.257223563]],\
               AUTHORITY[\"EPSG\",\"4326\"]]";
    assert_eq!(Crs::from_definition_text(wkt).unwrap(), Crs::Wgs84);
    let projjson = "{\"type\":\"GeographicCRS\",\"id\":{\"authority\":\"OGC\",\"code\":\"CRS84\"}}";
    assert_eq!(Crs::from_definition_text(projjson).unwrap(), Crs::Wgs84);
}

#[test]
fn definition_text_rejects_what_is_neither_dialect() {
    for bad in ["", "   \n ", "EPSG:7844", "<gml:ProjectedCRS/>", "not wkt at all"] {
        assert!(
            matches!(Crs::from_definition_text(bad), Err(Error::Usage(_))),
            "should have rejected {bad:?}",
        );
    }
    let odd = Crs::from_definition_text("{\"hello\":\"world\"}").unwrap();
    assert!(matches!(&odd, Crs::Named(n) if n.authority_code().is_none()));
}

#[test]
fn authority_code_reports_wgs84_by_its_lon_lat_spelling() {
    assert_eq!(Crs::Wgs84.authority_code().as_deref(), Some(WGS84_CRS_CODE));
    assert_eq!(Crs::Wgs84.authority_code().as_deref(), Some("OGC:CRS84"));
    assert_eq!(
        Crs::from_definition_text(
            "{\"type\":\"GeographicCRS\",\"id\":{\"authority\":\"OGC\",\"code\":\"CRS84\"}}"
        )
        .unwrap(),
        Crs::Wgs84,
    );
}

#[test]
fn authority_code_needs_both_halves() {
    assert_eq!(gda2020().authority_code().as_deref(), Some("EPSG:7844"));
    let code_only = Crs::Named(NamedCrs { code: Some("3857".into()), ..Default::default() });
    assert_eq!(code_only.authority_code(), None);
    let auth_only = Crs::Named(NamedCrs { authority: Some("EPSG".into()), ..Default::default() });
    assert_eq!(auth_only.authority_code(), None);
    assert_eq!(wkt_only().authority_code(), None);
}

fn wkt_only() -> Crs {
    Crs::Named(NamedCrs { wkt: Some("GEOGCRS[\"custom\"]".into()), ..Default::default() })
}

fn projjson_only() -> Crs {
    Crs::Named(NamedCrs {
        projjson: Some("{\"type\":\"GeographicCRS\",\"name\":\"custom\"}".into()),
        ..Default::default()
    })
}

#[test]
fn parquet_warns_for_an_untranslatable_wkt() {
    let w = wkt_only().downgrade_warning(Format::Parquet).unwrap();
    assert!(w.contains("WKT definition"), "{w}");
    assert!(w.contains("resolv"), "{w}");
    assert_eq!(projjson_only().downgrade_warning(Format::Parquet), None);
}

#[test]
fn wkt_targets_warn_for_a_projjson_only_crs() {
    for (target, name) in [(Format::FlatGeobuf, "FlatGeobuf"), (Format::Gpkg, "GeoPackage")] {
        let w = projjson_only().downgrade_warning(target).unwrap();
        assert!(w.contains("PROJJSON definition"), "{w}");
        assert!(w.contains(name), "{w}");
        assert!(w.contains("dropped"), "{w}");
        assert_eq!(wkt_only().downgrade_warning(target), None);
    }
}

#[test]
fn wkt_targets_warn_for_an_alphanumeric_code_even_with_wkt_present() {
    let lamb93 = Crs::Named(NamedCrs {
        authority: Some("IGNF".into()),
        code: Some("LAMB93".into()),
        wkt: Some("PROJCS[\"RGF93 Lambert 93\"]".into()),
        projjson: None,
    });
    for (target, name) in [(Format::FlatGeobuf, "FlatGeobuf"), (Format::Gpkg, "GeoPackage")] {
        let w = lamb93.downgrade_warning(target).unwrap();
        assert!(w.contains("not a positive integer"), "{w}");
        assert!(w.contains(name), "{w}");
        assert!(w.contains("synthetic"), "{w}");
    }
    let numeric = Crs::Named(NamedCrs {
        authority: Some("ESRI".into()),
        code: Some("102100".into()),
        wkt: Some("PROJCS[\"WGS_1984_Web_Mercator\"]".into()),
        projjson: None,
    });
    assert_eq!(numeric.downgrade_warning(Format::FlatGeobuf), None);
    assert_eq!(numeric.downgrade_warning(Format::Gpkg), None);
}

#[test]
fn geojson_warns_about_mislabeling() {
    let w = gda2020().downgrade_warning(Format::GeoJson).unwrap();
    assert!(w.contains("EPSG:7844"), "{w}");
    assert!(w.contains("WGS 84"), "{w}");
    assert!(w.contains("Reproject"), "{w}");
}

#[test]
fn csv_and_wkt_warn_about_a_dropped_label() {
    for (target, name) in [(Format::Csv, "CSV"), (Format::Wkt, "WKT")] {
        let w = gda2020().downgrade_warning(target).unwrap();
        assert!(w.contains(name), "{w}");
        assert!(w.contains("EPSG:7844"), "{w}");
        assert!(w.contains("dropped"), "{w}");
    }
}

#[test]
fn label_falls_back_when_fields_are_missing() {
    let code_only =
        Crs::Named(NamedCrs { authority: None, code: Some("3857".into()), ..Default::default() });
    assert!(code_only.downgrade_warning(Format::GeoJson).unwrap().contains("code 3857"));

    let wkt_only = Crs::Named(NamedCrs {
        wkt: Some("PROJCS[..]".into()),
        ..Default::default()
    });
    assert!(wkt_only
        .downgrade_warning(Format::GeoJson)
        .unwrap()
        .contains("the source CRS"));
}

const GDA2020_WKT2: &str = r#"GEOGCRS["GDA2020",
    DATUM["Geocentric Datum of Australia 2020",
        ELLIPSOID["GRS 1980",6378137,298.257222101,
            LENGTHUNIT["metre",1],
            ID["EPSG",7019]]],
    CS[ellipsoidal,2],
        AXIS["geodetic latitude (Lat)",north],
        AXIS["geodetic longitude (Lon)",east],
        ANGLEUNIT["degree",0.0174532925199433],
    ID["EPSG",7844]]"#;

const GDA2020_WKT1: &str = r#"GEOGCS["GDA2020",DATUM["GDA2020",SPHEROID["GRS 1980",6378137,298.257222101,AUTHORITY["EPSG","7019"]],AUTHORITY["EPSG","6283"]],PRIMEM["Greenwich",0,AUTHORITY["EPSG","8901"]],UNIT["degree",0.0174532925199433,AUTHORITY["EPSG","9122"]],AUTHORITY["EPSG","7844"]]"#;

#[test]
fn extracts_root_id_from_wkt2() {
    assert_eq!(wkt_authority_code(GDA2020_WKT2), Some(("EPSG".into(), "7844".into())));
}

#[test]
fn extracts_root_authority_from_wkt1() {
    assert_eq!(wkt_authority_code(GDA2020_WKT1), Some(("EPSG".into(), "7844".into())));
}

#[test]
fn no_id_in_wkt_yields_none() {
    assert_eq!(wkt_authority_code("GEOGCRS[\"anonymous\",DATUM[\"d\"]]"), None);
    assert_eq!(wkt_authority_code(""), None);
}

#[test]
fn alphanumeric_code_is_captured() {
    assert_eq!(
        wkt_authority_code("GEOGCRS[\"x\",ID[\"OGC\",\"CRS84\"]]"),
        Some(("OGC".into(), "CRS84".into()))
    );
}

#[test]
fn from_authority_code_recovers_a_wkt_only_crs() {
    match Crs::from_authority_code(None, None, Some(GDA2020_WKT2.into()), None) {
        Crs::Named(n) => {
            assert_eq!(n.authority.as_deref(), Some("EPSG"));
            assert_eq!(n.code.as_deref(), Some("7844"));
            assert!(n.wkt.is_some()); // the definition is still carried through
        }
        other => panic!("expected Named EPSG:7844, got {other:?}"),
    }
}

#[test]
fn wkt_only_wgs84_collapses_to_the_default() {
    let wkt = "GEOGCS[\"WGS 84\",DATUM[\"WGS_1984\",SPHEROID[\"WGS 84\",6378137,298.257223563]],AUTHORITY[\"EPSG\",\"4326\"]]";
    assert_eq!(Crs::from_authority_code(None, None, Some(wkt.into()), None), Crs::Wgs84);
}

#[test]
fn wkt_only_ogc_crs84_collapses_to_the_default() {
    let wkt = "GEOGCRS[\"WGS 84 (CRS84)\",DATUM[\"World Geodetic System 1984\",ELLIPSOID[\"WGS 84\",6378137,298.257223563]],ID[\"OGC\",\"CRS84\"]]";
    assert_eq!(Crs::from_authority_code(None, None, Some(wkt.into()), None), Crs::Wgs84);
}

#[test]
fn supplied_authority_code_is_not_overridden_by_wkt() {
    match Crs::from_authority_code(
        Some("EPSG".into()),
        Some("3857".into()),
        Some(GDA2020_WKT2.into()),
        None,
    ) {
        Crs::Named(n) => assert_eq!(n.code.as_deref(), Some("3857")),
        other => panic!("expected Named EPSG:3857, got {other:?}"),
    }
}

#[test]
fn a_printed_definition_is_taken_back() {
    let wkt = "PROJCS[\"P\",AUTHORITY[\"EPSG\",\"3857\"]]";
    let projjson = "{ \"type\": \"GeographicCRS\", \"name\": \"X\" }";
    for text in [wkt, projjson] {
        let crs = Crs::from_definition_text(&format!("  {text}\n\n")).unwrap();
        assert_eq!(crs.definition_body(), Some(text));
        let printed = format!("{}\n", crs.definition_body().unwrap());
        assert_eq!(Crs::from_definition_text(&printed).unwrap(), crs);
    }
}

#[test]
fn the_layout_of_a_definition_says_nothing() {
    let plain = r#"GEOGCS["a [b] (c)",DATUM["d"],AUTHORITY["EPSG","1234"]]"#;
    let loose = "GEOGCS ( \"a [b] (c)\" ,\n DATUM[\"d\"] , AUTHORITY( \"EPSG\",\t\"1234\" ] )";
    let words = |s: &str| -> Vec<String> {
        tokenize_wkt(s)
            .into_iter()
            .map(|t| match t {
                WktTok::Open => "[".to_string(),
                WktTok::Close => "]".to_string(),
                WktTok::Comma => ",".to_string(),
                WktTok::Str(s) => format!("'{s}"),
                WktTok::Word(s) => s,
            })
            .collect()
    };
    assert_eq!(words(plain), words(loose));
    assert_eq!(words(plain)[2], "'a [b] (c)");
    assert_ne!(words("AB[1]"), words("A B[1]"));
}
