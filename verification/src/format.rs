//! The vector formats, their names and their file extensions.
use vstd::prelude::*;

use crate::error::tagged;
use crate::error::Error;
use crate::error::Failure;
use crate::text::after_last;
use crate::text::holds_char;
use crate::text::lemma_after_last_extends;
use crate::text::lower_text;
use crate::text::same_text;
use crate::text::text_after_last;
use crate::text::to_lower;

verus! {

/// A supported vector format.
#[derive(Debug, Clone, Copy, PartialEq, Eq, Structural)]
pub enum Format {
    GeoJson,
    Parquet,
    FlatGeobuf,
    Csv,
    Wkt,
    Gpkg,
    Shapefile,
    Kml,
    Kmz,
}

/// The format that a lower-case name stands for.
pub open spec fn named_format(n: Seq<char>) -> Option<Format> {
    if n == "geojson"@ || n == "json"@ {
        Some(Format::GeoJson)
    } else if n == "parquet"@ || n == "geoparquet"@ {
        Some(Format::Parquet)
    } else if n == "flatgeobuf"@ || n == "fgb"@ {
        Some(Format::FlatGeobuf)
    } else if n == "csv"@ {
        Some(Format::Csv)
    } else if n == "wkt"@ {
        Some(Format::Wkt)
    } else if n == "gpkg"@ || n == "geopackage"@ {
        Some(Format::Gpkg)
    } else if n == "shapefile"@ || n == "shp"@ || n == "esri shapefile"@ {
        Some(Format::Shapefile)
    } else if n == "kml"@ {
        Some(Format::Kml)
    } else if n == "kmz"@ {
        Some(Format::Kmz)
    } else {
        None
    }
}

/// The format that a lower-case file extension stands for.
pub open spec fn format_of_extension(n: Seq<char>) -> Option<Format> {
    if n == "geojson"@ || n == "json"@ {
        Some(Format::GeoJson)
    } else if n == "parquet"@ {
        Some(Format::Parquet)
    } else if n == "fgb"@ {
        Some(Format::FlatGeobuf)
    } else if n == "csv"@ {
        Some(Format::Csv)
    } else if n == "wkt"@ {
        Some(Format::Wkt)
    } else if n == "gpkg"@ {
        Some(Format::Gpkg)
    } else if n == "shp"@ {
        Some(Format::Shapefile)
    } else if n == "kml"@ {
        Some(Format::Kml)
    } else if n == "kmz"@ {
        Some(Format::Kmz)
    } else {
        None
    }
}

/// The format of a file by its path's extension, which is what follows the last
/// dot. A path without a dot has none.
pub open spec fn inferred_format(path: Seq<char>) -> Option<Format> {
    if path.contains('.') {
        format_of_extension(lower_text(after_last(path, '.')))
    } else {
        None
    }
}

impl Format {
    /// The canonical file extension.
    pub open spec fn spec_extension(self) -> Seq<char> {
        match self {
            Format::GeoJson => "geojson"@,
            Format::Parquet => "parquet"@,
            Format::FlatGeobuf => "fgb"@,
            Format::Csv => "csv"@,
            Format::Wkt => "wkt"@,
            Format::Gpkg => "gpkg"@,
            Format::Shapefile => "shp"@,
            Format::Kml => "kml"@,
            Format::Kmz => "kmz"@,
        }
    }

    /// The spelling used in messages.
    pub open spec fn spec_display_name(self) -> Seq<char> {
        match self {
            Format::GeoJson => "GeoJSON"@,
            Format::Parquet => "GeoParquet"@,
            Format::FlatGeobuf => "FlatGeobuf"@,
            Format::Csv => "CSV"@,
            Format::Wkt => "WKT"@,
            Format::Gpkg => "GeoPackage"@,
            Format::Shapefile => "Shapefile"@,
            Format::Kml => "KML"@,
            Format::Kmz => "KMZ"@,
        }
    }

    /// Whether the format has a place for a measure ordinate.
    pub open spec fn spec_supports_m(self) -> bool {
        !(self is GeoJson || self is Kml || self is Kmz)
    }

    /// Parse an explicit format name, without regard to ASCII case.
    pub fn parse(name: &str) -> (r: Result<Format, Error>)
        ensures
            match named_format(lower_text(name@)) {
                Some(f) => r == Ok::<Format, Error>(f),
                None => r is Err && r->Err_0@ == Failure::Usage(
                    "unknown format \""@ + lower_text(name@) + "\""@,
                ),
            },
    {
        let lowered = to_lower(name);
        let n = lowered.as_str();
        if same_text(n, "geojson") || same_text(n, "json") {
            Ok(Format::GeoJson)
        } else if same_text(n, "parquet") || same_text(n, "geoparquet") {
            Ok(Format::Parquet)
        } else if same_text(n, "flatgeobuf") || same_text(n, "fgb") {
            Ok(Format::FlatGeobuf)
        } else if same_text(n, "csv") {
            Ok(Format::Csv)
        } else if same_text(n, "wkt") {
            Ok(Format::Wkt)
        } else if same_text(n, "gpkg") || same_text(n, "geopackage") {
            Ok(Format::Gpkg)
        } else if same_text(n, "shapefile") || same_text(n, "shp") || same_text(n, "esri shapefile") {
            Ok(Format::Shapefile)
        } else if same_text(n, "kml") {
            Ok(Format::Kml)
        } else if same_text(n, "kmz") {
            Ok(Format::Kmz)
        } else {
            let mut message = tagged("unknown format \"", n);
            message.append("\"");
            Err(Error::Usage(message))
        }
    }

    /// Infer a format from a file path's extension: what follows its last dot.
    /// A path without a dot has none.
    pub fn from_path(path: &str) -> (r: Option<Format>)
        ensures
            r == inferred_format(path@),
    {
        if !holds_char(path, '.') {
            return None;
        }
        let suffix = text_after_last(path, '.');
        let lowered = to_lower(suffix.as_str());
        let n = lowered.as_str();
        if same_text(n, "geojson") || same_text(n, "json") {
            Some(Format::GeoJson)
        } else if same_text(n, "parquet") {
            Some(Format::Parquet)
        } else if same_text(n, "fgb") {
            Some(Format::FlatGeobuf)
        } else if same_text(n, "csv") {
            Some(Format::Csv)
        } else if same_text(n, "wkt") {
            Some(Format::Wkt)
        } else if same_text(n, "gpkg") {
            Some(Format::Gpkg)
        } else if same_text(n, "shp") {
            Some(Format::Shapefile)
        } else if same_text(n, "kml") {
            Some(Format::Kml)
        } else if same_text(n, "kmz") {
            Some(Format::Kmz)
        } else {
            None
        }
    }

    /// The canonical file extension.
    pub fn extension(self) -> (r: &'static str)
        ensures
            r@ == self.spec_extension(),
    {
        match self {
            Format::GeoJson => "geojson",
            Format::Parquet => "parquet",
            Format::FlatGeobuf => "fgb",
            Format::Csv => "csv",
            Format::Wkt => "wkt",
            Format::Gpkg => "gpkg",
            Format::Shapefile => "shp",
            Format::Kml => "kml",
            Format::Kmz => "kmz",
        }
    }

    /// The format's own spelling of its name, for messages a user reads.
    pub fn display_name(self) -> (r: &'static str)
        ensures
            r@ == self.spec_display_name(),
    {
        match self {
            Format::GeoJson => "GeoJSON",
            Format::Parquet => "GeoParquet",
            Format::FlatGeobuf => "FlatGeobuf",
            Format::Csv => "CSV",
            Format::Wkt => "WKT",
            Format::Gpkg => "GeoPackage",
            Format::Shapefile => "Shapefile",
            Format::Kml => "KML",
            Format::Kmz => "KMZ",
        }
    }

    /// Whether the format has a place for a measure ordinate.
    pub fn supports_m(self) -> (r: bool)
        ensures
            r == self.spec_supports_m(),
    {
        !matches!(self, Format::GeoJson | Format::Kml | Format::Kmz)
    }
}

/// Makes the spellings of the extensions known.
proof fn lemma_extension_letters(f: Format)
    ensures
        !f.spec_extension().contains('.'),
        lower_text(f.spec_extension()) == f.spec_extension(),
        format_of_extension(f.spec_extension()) == Some(f),
        named_format(f.spec_extension()) == Some(f),
{
    reveal_strlit("csv");
    reveal_strlit("esri shapefile");
    reveal_strlit("fgb");
    reveal_strlit("flatgeobuf");
    reveal_strlit("geojson");
    reveal_strlit("geopackage");
    reveal_strlit("geoparquet");
    reveal_strlit("gpkg");
    reveal_strlit("json");
    reveal_strlit("kml");
    reveal_strlit("kmz");
    reveal_strlit("parquet");
    reveal_strlit("shapefile");
    reveal_strlit("shp");
    reveal_strlit("wkt");
    assert(lower_text(f.spec_extension()) =~= f.spec_extension());
    assert("json"@.len() == 4 && "geojson"@.len() == 7 && "parquet"@.len() == 7);
    assert("geojson"@[0] == 'g' && "parquet"@[0] == 'p');
    assert("csv"@[0] == 'c' && "fgb"@[0] == 'f' && "wkt"@[0] == 'w' && "shp"@[0] == 's');
    assert("kml"@[0] == 'k' && "kml"@[2] == 'l' && "kmz"@[2] == 'z' && "kmz"@[0] == 'k');
    assert("gpkg"@[0] == 'g' && "json"@[0] == 'j');
}

/// A file named with a format's canonical extension is inferred to be of that
/// format, whatever stands before the dot.
pub proof fn law_extension_infers_format(stem: Seq<char>, f: Format)
    ensures
        inferred_format(stem + "."@ + f.spec_extension()) == Some(f),
{
    reveal_strlit(".");
    lemma_extension_letters(f);
    let dotted = stem + "."@;
    lemma_after_last_extends(dotted, f.spec_extension(), '.');
    assert(dotted.last() == '.');
    assert(after_last(dotted, '.') + f.spec_extension() =~= f.spec_extension());
    assert((dotted + f.spec_extension())[stem.len() as int] == '.');
}

/// A format's canonical extension is also one of its explicit names.
pub proof fn law_extension_is_a_name(f: Format)
    ensures
        named_format(lower_text(f.spec_extension())) == Some(f),
{
    lemma_extension_letters(f);
}

} // verus!
