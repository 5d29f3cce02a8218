//! Conversions between formats, through collections of features.
//!
//! The text formats share collections whose numbers are texts. What a columnar
//! file's geometry column needs is worked out here from collections whose
//! ordinates are bit patterns.
use vstd::prelude::*;
use vstd::utf8::*;

use crate::crs::system::{crs_view, Crs, System};
use crate::csv;
use crate::error::{Error, Failure};
use crate::feature::{
    features_view, geometry_view, properties_view, Feature, FeatureCollection, Item, Items,
};
use crate::flatgeobuf::writer::{
    box_around, geometries, is_order, order_view, shape_has_m, shape_has_z,
};
use crate::format::Format;
use crate::geojson::reader::{collection_of_text, from_geojson_str};
use crate::geojson::round_trip::{is_writable_feature, law_geojson_round_trip};
use crate::geojson::writer::{collection_json, to_geojson_string};
use crate::geometry::plain::{is_uniform_shape, lemma_uniform_shape, plain_shape};
use crate::geometry::wkb::{self, wkb_bytes};
use crate::geometry::wkt::{self, wkt_text};
use crate::geometry::wkt_round_trip::{is_regular_shape, law_wkt_is_one_line, law_wkt_round_trip};
use crate::geometry::{shape_name, Bbox, Geometry, Shape};
use crate::json::round_trip::well_numbered;
use crate::json::value::{json_text, Json, JsonValue};
use crate::kml;
use crate::property::{Prop, PropValue};
use crate::text::{chars_of, text_between, trim_range, trimmed, utf8_text};
use crate::xml::writer::document_text;

verus! {

// --- WKT lines -------------------------------------------------------------------------

/// The end of the line at `p`.
pub open spec fn line_end(s: Seq<char>, p: int) -> int
    decreases s.len() - p,
{
    if p < 0 || p >= s.len() || s[p] == '\n' {
        p
    } else {
        line_end(s, p + 1)
    }
}

/// The features of the lines from `p` on: each line that is not blank is a
/// geometry.
pub open spec fn lines_from(s: Seq<char>, p: int, so_far: Seq<Item<Seq<char>, Json>>) -> Result<
    Seq<Item<Seq<char>, Json>>,
    Failure,
>
    decreases s.len() + 1 - p,
{
    let e = line_end(s, p);
    if p < 0 || p >= s.len() || e < p || e > s.len() {
        Ok(so_far)
    } else {
        let line = trimmed(s.subrange(p, e));
        if line.len() == 0 {
            lines_from(s, e + 1, so_far)
        } else {
            match wkt::decoded(line) {
                Err(x) => Err(x),
                Ok(g) => lines_from(
                    s,
                    e + 1,
                    so_far.push(Item { geometry: Some(g), properties: Seq::empty() }),
                ),
            }
        }
    }
}

/// The collection of a file of WKT lines.
pub open spec fn wkt_collection(input: Seq<u8>) -> Result<Items<Seq<char>, Json>, Failure> {
    if !valid_utf8(input) {
        Err(Failure::Convert("wkt: input is not valid utf-8"@))
    } else {
        match lines_from(decode_utf8(input), 0, Seq::empty()) {
            Err(e) => Err(e),
            Ok(features) => Ok(Items { features, crs: None }),
        }
    }
}

/// The lines of the first `n` features: the WKT of the geometry, where there is
/// one.
pub open spec fn wkt_lines(features: Seq<Item<Seq<char>, Json>>, n: int) -> Seq<char>
    decreases n,
{
    if n <= 0 {
        Seq::empty()
    } else {
        wkt_lines(features, n - 1) + (match features[n - 1].geometry {
            Some(g) => wkt_text(g),
            None => Seq::empty(),
        }) + "\n"@
    }
}

fn find_line_end(s: &[char], p: usize) -> (r: usize)
    requires
        p <= s@.len(),
    ensures
        r == line_end(s@, p as int),
        p <= r <= s@.len(),
{
    let mut r: usize = p;
    while r < s.len() && s[r] != '\n'
        invariant
            p <= r <= s@.len(),
            line_end(s@, p as int) == line_end(s@, r as int),
        decreases s@.len() - r,
    {
        r += 1;
    }
    r
}

/// Read one WKT geometry per line that is not blank.
pub fn read_wkt_lines(input: &[u8]) -> (r: Result<FeatureCollection<String, JsonValue>, Error>)
    ensures
        match wkt_collection(input@) {
            Ok(c) => r matches Ok(fc) && fc@ == c,
            Err(e) => r matches Err(f) && f@ == e,
        },
{
    let text = match utf8_text(input) {
        Some(t) => t,
        None => {
            return Err(Error::Convert(String::from_str("wkt: input is not valid utf-8")));
        },
    };
    let chars = chars_of(text);
    let s = chars.as_slice();
    let ghost all = lines_from(s@, 0, Seq::empty());
    let mut features: Vec<Feature<String, JsonValue>> = Vec::new();
    assert(features_view(features@) =~= Seq::empty());
    let n: usize = s.len();
    let mut p: usize = 0;
    while p < n
        invariant
            p <= n == s@.len(),
            s@ == decode_utf8(input@),
            valid_utf8(input@),
            all == lines_from(s@, 0, Seq::empty()),
            all == lines_from(s@, p as int, features_view(features@)),
        decreases n - p,
    {
        let e = find_line_end(s, p);
        let (a, b) = trim_range(s, p, e);
        if a < b {
            let line = text_between(s, a, b);
            let g = wkt::decode(line.as_str())?;
            let f = Feature { geometry: Some(g), properties: Vec::new() };
            assert(f@.properties =~= Seq::empty());
            let ghost before = features_view(features@);
            features.push(f);
            assert(features_view(features@) =~= before.push(f@));
        }
        if e >= n {
            assert(lines_from(s@, e + 1, features_view(features@)) == Ok::<
                Seq<Item<Seq<char>, Json>>,
                Failure,
            >(features_view(features@)));
            return Ok(FeatureCollection { features, crs: None });
        }
        p = e + 1;
    }
    Ok(FeatureCollection { features, crs: None })
}

/// Write one WKT geometry per line. Properties are not written.
pub fn write_wkt_lines(fc: &FeatureCollection<String, JsonValue>) -> (r: Vec<u8>)
    ensures
        r@ == encode_utf8(wkt_lines(fc@.features, fc@.features.len() as int)),
{
    let ghost items = features_view(fc.features@);
    let mut out = String::new();
    let mut i: usize = 0;
    assert(out@ =~= Seq::empty());
    while i < fc.features.len()
        invariant
            i <= fc.features@.len(),
            items == features_view(fc.features@),
            out@ == wkt_lines(items, i as int),
        decreases fc.features@.len() - i,
    {
        let ghost before = out@;
        assert(items[i as int] == fc.features@[i as int]@);
        if let Some(g) = &fc.features[i].geometry {
            out.append(wkt::encode(g).as_str());
        }
        out.append("\n");
        assert(out@ =~= wkt_lines(items, i + 1));
        i += 1;
    }
    out.as_str().as_bytes_vec()
}

/// The features with a geometry among the first `n`, without their properties.
pub open spec fn bare_geometries(features: Seq<Item<Seq<char>, Json>>, n: int) -> Seq<
    Item<Seq<char>, Json>,
>
    decreases n,
{
    if n <= 0 {
        Seq::empty()
    } else {
        let before = bare_geometries(features, n - 1);
        match features[n - 1].geometry {
            Some(g) => before.push(Item { geometry: Some(g), properties: Seq::empty() }),
            None => before,
        }
    }
}

/// The line of a feature.
pub open spec fn line_of(f: Item<Seq<char>, Json>) -> Seq<char> {
    match f.geometry {
        Some(g) => wkt_text(g),
        None => Seq::empty(),
    }
}

proof fn lemma_lines_start(features: Seq<Item<Seq<char>, Json>>, k: int, n: int)
    requires
        0 <= k <= n,
    ensures
        wkt_lines(features, k).len() <= wkt_lines(features, n).len(),
        wkt_lines(features, n).take(wkt_lines(features, k).len() as int) == wkt_lines(features, k),
    decreases n - k,
{
    let whole = wkt_lines(features, n);
    let start = wkt_lines(features, k);
    if k < n {
        lemma_lines_start(features, k, n - 1);
        let before = wkt_lines(features, n - 1);
        assert(whole.take(start.len() as int) =~= before.take(start.len() as int));
    } else {
        assert(whole.take(start.len() as int) =~= start);
    }
}

proof fn lemma_line_ends(s: Seq<char>, p: int, e: int)
    requires
        0 <= p <= e < s.len(),
        s[e] == '\n',
        forall|i: int| p <= i < e ==> #[trigger] s[i] != '\n',
    ensures
        line_end(s, p) == e,
    decreases e - p,
{
    if p < e {
        lemma_line_ends(s, p + 1, e);
    }
}

proof fn lemma_lines_are_read(features: Seq<Item<Seq<char>, Json>>, k: int)
    requires
        0 <= k <= features.len(),
        forall|i: int|
            0 <= i < features.len() ==> ((#[trigger] features[i]).geometry matches Some(g)
                ==> is_regular_shape(g)),
    ensures
        lines_from(
            wkt_lines(features, features.len() as int),
            wkt_lines(features, k).len() as int,
            bare_geometries(features, k),
        ) == Ok::<Seq<Item<Seq<char>, Json>>, Failure>(
            bare_geometries(features, features.len() as int),
        ),
    decreases features.len() - k,
{
    let n = features.len() as int;
    let s = wkt_lines(features, n);
    let p = wkt_lines(features, k).len() as int;
    if k < n {
        let f = features[k];
        let t = line_of(f);
        let e = p + t.len();
        let next = wkt_lines(features, k + 1);
        reveal_strlit("\n");
        assert(f.geometry matches Some(g) ==> is_regular_shape(g));
        lemma_lines_start(features, k + 1, n);
        assert(next =~= wkt_lines(features, k) + t + "\n"@);
        assert forall|i: int| 0 <= i < next.len() implies #[trigger] s[i] == next[i] by {
            assert(s.take(next.len() as int)[i] == next[i]);
        }
        if let Some(g) = f.geometry {
            law_wkt_is_one_line(g);
            law_wkt_round_trip(g);
        }
        assert forall|i: int| p <= i < e implies #[trigger] s[i] != '\n' by {
            assert(next[i] == t[i - p]);
        }
        assert(next[e] == '\n');
        lemma_line_ends(s, p, e);
        assert(s.subrange(p, e) =~= t);
        if f.geometry is None {
            assert(trimmed(t) == t);
        }
        lemma_lines_are_read(features, k + 1);
    }
}

/// Lines that were written are read back: the geometries, in order. Not read back
/// are properties, and features without a geometry.
pub proof fn law_wkt_lines_round_trip(features: Seq<Item<Seq<char>, Json>>)
    requires
        forall|i: int|
            0 <= i < features.len() ==> ((#[trigger] features[i]).geometry matches Some(g)
                ==> is_regular_shape(g)),
    ensures
        wkt_collection(encode_utf8(wkt_lines(features, features.len() as int))) == Ok::<
            Items<Seq<char>, Json>,
            Failure,
        >(Items { features: bare_geometries(features, features.len() as int), crs: None }),
{
    let s = wkt_lines(features, features.len() as int);
    encode_utf8_valid_utf8(s);
    encode_utf8_decode_utf8(s);
    lemma_lines_are_read(features, 0);
}

// --- the text formats --------------------------------------------------------------------

/// Whether a format is a single text.
pub open spec fn is_text_format(f: Format) -> bool {
    f is GeoJson || f is Csv || f is Wkt || f is Kml
}

/// Whether a format is read and written elsewhere, as it has layers or several
/// files.
pub open spec fn is_apart(f: Format) -> bool {
    f is Gpkg || f is Shapefile
}

/// The collection of an input in a text format.
pub open spec fn collection_in(format: Format, input: Seq<u8>) -> Result<
    Items<Seq<char>, Json>,
    Failure,
> {
    match format {
        Format::GeoJson => if valid_utf8(input) {
            collection_of_text(decode_utf8(input))
        } else {
            Err(Failure::GeoJson("input is not valid utf-8"@))
        },
        Format::Csv => if valid_utf8(input) {
            csv::collection_of(decode_utf8(input))
        } else {
            Err(csv::not_text())
        },
        Format::Wkt => wkt_collection(input),
        Format::Kml => kml::reader::collection_of(input),
        Format::Gpkg => Err(
            Failure::Usage(
                "GeoPackage input is handled per-layer; this path should not be reached"@,
            ),
        ),
        _ => Err(
            Failure::Usage(
                "Shapefile input is handled via its sibling files; this path should not be reached"@,
            ),
        ),
    }
}

/// The output of a collection in a text format.
pub open spec fn output_in(format: Format, c: Items<Seq<char>, Json>) -> Result<
    Seq<u8>,
    Failure,
> {
    match format {
        Format::GeoJson => Ok(encode_utf8(json_text(collection_json(c.features)))),
        Format::Csv => Ok(encode_utf8(csv::table_text(csv::table_of(c.features)))),
        Format::Wkt => Ok(encode_utf8(wkt_lines(c.features, c.features.len() as int))),
        Format::Kml => Ok(encode_utf8(document_text(kml::writer::document_of(c.features)))),
        Format::Gpkg => Err(Failure::Usage("writing GeoPackage is not supported yet"@)),
        _ => Err(
            Failure::Usage(
                "Shapefile output is handled via its sibling files; this path should not be reached"@,
            ),
        ),
    }
}

/// Read a collection in a text format. A format that is read elsewhere is an
/// error.
pub fn read_features(format: Format, input: &[u8]) -> (r: Result<
    FeatureCollection<String, JsonValue>,
    Error,
>)
    requires
        is_text_format(format) || is_apart(format),
    ensures
        match collection_in(format, input@) {
            Ok(c) => r matches Ok(fc) && fc@ == c,
            Err(e) => r matches Err(f) && f@ == e,
        },
{
    match format {
        Format::GeoJson => match utf8_text(input) {
            Some(text) => from_geojson_str(text),
            None => Err(Error::GeoJson(String::from_str("input is not valid utf-8"))),
        },
        Format::Csv => csv::read(input),
        Format::Wkt => read_wkt_lines(input),
        Format::Kml => kml::reader::read_with_altitudes(input),
        Format::Gpkg => Err(
            Error::Usage(
                String::from_str(
                    "GeoPackage input is handled per-layer; this path should not be reached",
                ),
            ),
        ),
        _ => Err(
            Error::Usage(
                String::from_str(
                    "Shapefile input is handled via its sibling files; this path should not be reached",
                ),
            ),
        ),
    }
}

/// Write a collection in a text format. A format that is written elsewhere is an
/// error.
pub fn write_features(format: Format, fc: &FeatureCollection<String, JsonValue>) -> (r: Result<
    Vec<u8>,
    Error,
>)
    requires
        is_text_format(format) || is_apart(format),
    ensures
        match output_in(format, fc@) {
            Ok(bytes) => r matches Ok(v) && v@ == bytes,
            Err(e) => r matches Err(f) && f@ == e,
        },
{
    match format {
        Format::GeoJson => Ok(to_geojson_string(fc).as_str().as_bytes_vec()),
        Format::Csv => Ok(csv::write(fc)),
        Format::Wkt => Ok(write_wkt_lines(fc)),
        Format::Kml => Ok(kml::writer::write(fc)),
        Format::Gpkg => Err(
            Error::Usage(String::from_str("writing GeoPackage is not supported yet")),
        ),
        _ => Err(
            Error::Usage(
                String::from_str(
                    "Shapefile output is handled via its sibling files; this path should not be reached",
                ),
            ),
        ),
    }
}

/// Convert between text formats.
pub fn convert(from: Format, to: Format, input: &[u8]) -> (r: Result<Vec<u8>, Error>)
    requires
        is_text_format(from) || is_apart(from),
        is_text_format(to) || is_apart(to),
    ensures
        match collection_in(from, input@) {
            Ok(c) => match output_in(to, c) {
                Ok(bytes) => r matches Ok(v) && v@ == bytes,
                Err(e) => r matches Err(f) && f@ == e,
            },
            Err(e) => r matches Err(f) && f@ == e,
        },
{
    let fc = read_features(from, input)?;
    write_features(to, &fc)
}

// --- a document through lines ------------------------------------------------------------

/// A feature as it comes back through WKT: its geometry, with its ordinates written
/// plainly, zero without a sign, and no properties.
pub open spec fn bare_feature(f: Item<Seq<char>, Json>) -> Item<Seq<char>, Json> {
    Item {
        geometry: match f.geometry {
            Some(g) => Some(plain_shape(g)),
            None => None,
        },
        properties: Seq::empty(),
    }
}

/// Whether every geometry of the features is uniform.
pub open spec fn are_uniform(features: Seq<Item<Seq<char>, Json>>) -> bool {
    forall|i: int|
        0 <= i < features.len() ==> ((#[trigger] features[i]).geometry matches Some(g)
            ==> is_uniform_shape(g))
}

/// Whether every feature can be written as GeoJSON without loss.
spec fn are_writable(features: Seq<Item<Seq<char>, Json>>) -> bool {
    forall|i: int| 0 <= i < features.len() ==> is_writable_feature(#[trigger] features[i])
}

proof fn lemma_bare_lines(features: Seq<Item<Seq<char>, Json>>, n: int)
    requires
        are_uniform(features),
        0 <= n <= features.len(),
    ensures
        ({
            let bare = features.map_values(|f: Item<Seq<char>, Json>| bare_feature(f));
            &&& wkt_lines(bare, n) == wkt_lines(features, n)
            &&& are_writable(bare_geometries(bare, n))
        }),
    decreases n,
{
    let bare = features.map_values(|f: Item<Seq<char>, Json>| bare_feature(f));
    if n > 0 {
        lemma_bare_lines(features, n - 1);
        assert(bare[n - 1] == bare_feature(features[n - 1]));
        if let Some(g) = features[n - 1].geometry {
            lemma_uniform_shape(g);
            let last = Item {
                geometry: Some(plain_shape(g)),
                properties: Seq::<(Seq<char>, Json)>::empty(),
            };
            assert(well_numbered(Json::Object(last.properties)));
            assert(is_writable_feature(last));
            let before = bare_geometries(bare, n - 1);
            assert(bare_geometries(bare, n) == before.push(last));
        }
    }
}

/// A GeoJSON document keeps its geometries, in order, when it is converted to WKT and
/// back. Not kept are the properties, and the features without a geometry. Left out are
/// ordinates beyond the range of a double, empty lists, and geometries in which some
/// positions have a Z and others have none.
pub proof fn law_geojson_wkt_round_trip(doc: Seq<u8>)
    requires
        collection_in(Format::GeoJson, doc) is Ok,
        are_uniform(collection_in(Format::GeoJson, doc)->Ok_0.features),
    ensures
        ({
            let features = collection_in(Format::GeoJson, doc)->Ok_0.features;
            let bare = features.map_values(|f: Item<Seq<char>, Json>| bare_feature(f));
            let lines = output_in(Format::Wkt, collection_in(Format::GeoJson, doc)->Ok_0)->Ok_0;
            let between = collection_in(Format::Wkt, lines);
            &&& between is Ok
            &&& output_in(Format::GeoJson, between->Ok_0) is Ok
            &&& collection_in(
                Format::GeoJson,
                output_in(Format::GeoJson, between->Ok_0)->Ok_0,
            ) == Ok::<Items<Seq<char>, Json>, Failure>(
                Items {
                    features: bare_geometries(bare, bare.len() as int),
                    crs: Some(System::Wgs84),
                },
            )
        }),
{
    let features = collection_in(Format::GeoJson, doc)->Ok_0.features;
    let bare = features.map_values(|f: Item<Seq<char>, Json>| bare_feature(f));
    let n = features.len() as int;
    lemma_bare_lines(features, n);
    assert forall|i: int| 0 <= i < bare.len() implies ((#[trigger] bare[i]).geometry matches Some(g)
        ==> is_regular_shape(g)) by {
        assert(bare[i] == bare_feature(features[i]));
        if let Some(g) = features[i].geometry {
            lemma_uniform_shape(g);
        }
    }
    law_wkt_lines_round_trip(bare);
    let kept = bare_geometries(bare, n);
    law_geojson_round_trip(kept);
    let text = json_text(collection_json(kept));
    encode_utf8_valid_utf8(text);
    encode_utf8_decode_utf8(text);
}

// --- order -------------------------------------------------------------------------------

/// Put features into an order: the order along a Hilbert curve, so that features
/// that are close in space are close in the file.
pub fn reorder_hilbert<N, P>(fc: &mut FeatureCollection<N, P>, order: &Vec<usize>)
    requires
        is_order(order_view(order@), old(fc).features@.len()),
    ensures
        final(fc).crs == old(fc).crs,
        final(fc).features@ == Seq::new(
            order@.len(),
            |i: int| old(fc).features@[order@[i] as int],
        ),
{
    let ghost all = fc.features@;
    let ghost o = order_view(order@);
    let mut features: Vec<Feature<N, P>> = Vec::new();
    std::mem::swap(&mut features, &mut fc.features);
    let mut slots: Vec<Option<Feature<N, P>>> = Vec::new();
    let mut k: usize = 0;
    let n: usize = features.len();
    while k < n
        invariant
            k <= n == all.len(),
            features@ == all.take(n - k),
            slots@.len() == k,
            forall|i: int| 0 <= i < k ==> #[trigger] slots@[i] == Some(all[n - 1 - i]),
        decreases n - k,
    {
        if let Some(f) = features.pop() {
            assert(f == all[n - 1 - k]);
            assert(features@ =~= all.take(n - k - 1));
            slots.push(Some(f));
        }
        k += 1;
    }
    assert forall|j: int| 0 <= j < order@.len() implies slots@[n - 1 - #[trigger] o[j]] == Some(
        all[o[j]],
    ) by {
        let at = o[j];
        assert(0 <= at < n);
        assert(slots@[n - 1 - at] == Some(all[n - 1 - (n - 1 - at)]));
    }
    let mut out: Vec<Feature<N, P>> = Vec::new();
    let mut i: usize = 0;
    while i < order.len()
        invariant
            i <= order@.len() == all.len(),
            o == order_view(order@),
            is_order(o, all.len()),
            slots@.len() == all.len() == n,
            out@ == Seq::new(i as nat, |j: int| all[order@[j] as int]),
            forall|j: int|
                i <= j < order@.len() ==> slots@[n - 1 - #[trigger] o[j]] == Some(all[o[j]]),
        decreases order@.len() - i,
    {
        assert(o[i as int] == order@[i as int]);
        let at: usize = n - 1 - order[i];
        let mut slot: Option<Feature<N, P>> = None;
        let ghost before = slots@;
        std::mem::swap(&mut slot, &mut slots[at]);
        assert(slots@ =~= before.update(at as int, None));
        assert forall|j: int| i + 1 <= j < order@.len() implies slots@[n - 1 - #[trigger] o[j]]
            == Some(all[o[j]]) by {
            assert(o[j] != o[i as int]);
        }
        if let Some(f) = slot {
            out.push(f);
        }
        assert(out@ =~= Seq::new((i + 1) as nat, |j: int| all[order@[j] as int]));
        i += 1;
    }
    fc.features = out;
}

// --- the geometry column of a columnar file ------------------------------------------------

/// The suffix of a geometry type: which ordinates the first position has beside X
/// and Y.
pub open spec fn dim_suffix(s: Shape<u64>) -> Seq<char> {
    match (shape_has_z(s), shape_has_m(s)) {
        (true, true) => " ZM"@,
        (true, false) => " Z"@,
        (false, true) => " M"@,
        (false, false) => ""@,
    }
}

/// The suffix of a geometry's type.
pub fn geoparquet_dim_suffix(g: &Geometry<u64>) -> (r: &'static str)
    ensures
        r@ == dim_suffix(g@),
{
    let (z, m) = crate::flatgeobuf::writer::dim_of_geometry(g);
    if z && m {
        " ZM"
    } else if z {
        " Z"
    } else if m {
        " M"
    } else {
        ""
    }
}

/// Where the type of a geometry stands in the alphabetical list of all types: the
/// seven kinds, each plain, with M, with Z and with both.
pub open spec fn type_rank(s: Shape<u64>) -> int {
    let kind = match s {
        Shape::GeometryCollection(_) => 0int,
        Shape::LineString(_) => 1,
        Shape::MultiLineString(_) => 2,
        Shape::MultiPoint(_) => 3,
        Shape::MultiPolygon(_) => 4,
        Shape::Point(_) => 5,
        Shape::Polygon(_) => 6,
    };
    let dim = match (shape_has_z(s), shape_has_m(s)) {
        (false, false) => 0int,
        (false, true) => 1,
        (true, false) => 2,
        (true, true) => 3,
    };
    4 * kind + dim
}

/// The kind at a rank.
pub open spec fn kind_name(kind: int) -> Seq<char> {
    if kind == 0 {
        "GeometryCollection"@
    } else if kind == 1 {
        "LineString"@
    } else if kind == 2 {
        "MultiLineString"@
    } else if kind == 3 {
        "MultiPoint"@
    } else if kind == 4 {
        "MultiPolygon"@
    } else if kind == 5 {
        "Point"@
    } else {
        "Polygon"@
    }
}

/// The type at a rank.
pub open spec fn ranked_type(rank: int) -> Seq<char> {
    kind_name(rank / 4) + (if rank % 4 == 0 {
        ""@
    } else if rank % 4 == 1 {
        " M"@
    } else if rank % 4 == 2 {
        " Z"@
    } else {
        " ZM"@
    })
}

/// Whether a geometry has the type at a rank.
pub open spec fn is_present(shapes: Seq<Shape<u64>>, rank: int) -> bool {
    exists|i: int| 0 <= i < shapes.len() && type_rank(#[trigger] shapes[i]) == rank
}

/// The types below a rank that geometries have, in alphabetical order.
pub open spec fn types_below(shapes: Seq<Shape<u64>>, rank: int) -> Seq<Seq<char>>
    decreases rank,
{
    if rank <= 0 {
        Seq::empty()
    } else if is_present(shapes, rank - 1) {
        types_below(shapes, rank - 1).push(ranked_type(rank - 1))
    } else {
        types_below(shapes, rank - 1)
    }
}

/// The type at a geometry's rank is its kind with its suffix.
pub proof fn law_rank_names_the_type(s: Shape<u64>)
    ensures
        0 <= type_rank(s) < 28,
        ranked_type(type_rank(s)) == shape_name(s) + dim_suffix(s),
{
}

fn rank_of(g: &Geometry<u64>) -> (r: usize)
    ensures
        r == type_rank(g@),
        r < 28,
{
    let (z, m) = crate::flatgeobuf::writer::dim_of_geometry(g);
    let dim: usize = if z && m {
        3
    } else if z {
        2
    } else if m {
        1
    } else {
        0
    };
    let kind: usize = match g {
        Geometry::GeometryCollection(_) => 0,
        Geometry::LineString(_) => 1,
        Geometry::MultiLineString(_) => 2,
        Geometry::MultiPoint(_) => 3,
        Geometry::MultiPolygon(_) => 4,
        Geometry::Point(_) => 5,
        Geometry::Polygon(_) => 6,
    };
    4 * kind + dim
}

fn type_at(rank: usize) -> (r: String)
    requires
        rank < 28,
    ensures
        r@ == ranked_type(rank as int),
{
    let kind: usize = rank / 4;
    let mut r = String::from_str(
        if kind == 0 {
            "GeometryCollection"
        } else if kind == 1 {
            "LineString"
        } else if kind == 2 {
            "MultiLineString"
        } else if kind == 3 {
            "MultiPoint"
        } else if kind == 4 {
            "MultiPolygon"
        } else if kind == 5 {
            "Point"
        } else {
            "Polygon"
        },
    );
    let dim: usize = rank % 4;
    r.append(
        if dim == 0 {
            ""
        } else if dim == 1 {
            " M"
        } else if dim == 2 {
            " Z"
        } else {
            " ZM"
        },
    );
    r
}

/// A feature's geometry as WKB.
pub open spec fn wkb_of<W>(f: Item<u64, W>) -> Option<Seq<u8>> {
    match f.geometry {
        Some(s) => Some(wkb_bytes(s)),
        None => None,
    }
}

pub open spec fn blobs_view(blobs: Seq<Option<Vec<u8>>>) -> Seq<Option<Seq<u8>>> {
    blobs.map_values(
        |b: Option<Vec<u8>>|
            match b {
                Some(v) => Some(v@),
                None => None,
            },
    )
}

/// What the geometry column of a columnar file holds and records: a WKB for each
/// feature, the types in alphabetical order and the box around all.
#[derive(Debug, PartialEq)]
pub struct GeometryColumn {
    pub wkb: Vec<Option<Vec<u8>>>,
    pub types: Vec<String>,
    pub bbox: Bbox,
}

fn count_types<P: View>(features: &Vec<Feature<u64, P>>) -> (types: Vec<String>)
    ensures
        crate::sqlite::texts_view(types@) == types_below(geometries(features_view(features@)), 28),
{
    let ghost items = features_view(features@);
    let ghost shapes = geometries(items);
    let mut present: Vec<bool> = Vec::new();
    let mut r: usize = 0;
    while r < 28
        invariant
            r <= 28,
            present@.len() == r,
            forall|k: int| 0 <= k < r ==> !#[trigger] present@[k],
        decreases 28 - r,
    {
        present.push(false);
        r += 1;
    }
    let mut i: usize = 0;
    assert(items.take(0) =~= Seq::empty());
    while i < features.len()
        invariant
            i <= features@.len(),
            items == features_view(features@),
            present@.len() == 28,
            forall|k: int|
                0 <= k < 28 ==> #[trigger] present@[k] == is_present(
                    geometries(items.take(i as int)),
                    k,
                ),
        decreases features@.len() - i,
    {
        let ghost before = geometries(items.take(i as int));
        let ghost was = present@;
        assert(items.take(i + 1).drop_last() =~= items.take(i as int));
        assert(items.take(i + 1).last() == features@[i as int]@);
        if let Some(g) = &features[i].geometry {
            let rank = rank_of(g);
            present.set(rank, true);
            let ghost after = before.push(g@);
            assert forall|k: int| 0 <= k < 28 implies #[trigger] present@[k] == is_present(
                after,
                k,
            ) by {
                assert(after[before.len() as int] == g@);
                if is_present(before, k) {
                    let w = choose|w: int|
                        0 <= w < before.len() && type_rank(#[trigger] before[w]) == k;
                    assert(after[w] == before[w]);
                }
                if is_present(after, k) && k != rank {
                    let w = choose|w: int|
                        0 <= w < after.len() && type_rank(#[trigger] after[w]) == k;
                    assert(after[w] == before[w]);
                }
                assert(was[k] == is_present(before, k));
            }
        }
        i += 1;
    }
    assert(items.take(i as int) =~= items);
    let mut types: Vec<String> = Vec::new();
    let mut k: usize = 0;
    assert(crate::sqlite::texts_view(types@) =~= Seq::empty());
    while k < 28
        invariant
            k <= 28,
            present@.len() == 28,
            forall|k: int| 0 <= k < 28 ==> #[trigger] present@[k] == is_present(shapes, k),
            crate::sqlite::texts_view(types@) == types_below(shapes, k as int),
        decreases 28 - k,
    {
        if present[k] {
            let t = type_at(k);
            let ghost before = crate::sqlite::texts_view(types@);
            types.push(t);
            assert(crate::sqlite::texts_view(types@) =~= before.push(t@));
        }
        k += 1;
    }
    types
}

/// What the geometry column of a columnar file holds and records.
pub fn geometry_column<P: View>(fc: &FeatureCollection<u64, P>) -> (r: GeometryColumn)
    ensures
        blobs_view(r.wkb@) == fc@.features.map_values(|f: Item<u64, P::V>| wkb_of(f)),
        crate::sqlite::texts_view(r.types@) == types_below(geometries(fc@.features), 28),
        r.bbox == box_around(geometries(fc@.features)),
{
    let ghost items = features_view(fc.features@);
    let ghost all = items.map_values(|f: Item<u64, P::V>| wkb_of(f));
    let mut wkb: Vec<Option<Vec<u8>>> = Vec::new();
    let mut i: usize = 0;
    while i < fc.features.len()
        invariant
            i <= fc.features@.len(),
            items == features_view(fc.features@),
            all == items.map_values(|f: Item<u64, P::V>| wkb_of(f)),
            blobs_view(wkb@) == all.take(i as int),
        decreases fc.features@.len() - i,
    {
        assert(items[i as int] == fc.features@[i as int]@);
        let blob = match &fc.features[i].geometry {
            Some(g) => Some(wkb::encode(g)),
            None => None,
        };
        let ghost before = blobs_view(wkb@);
        let ghost new = wkb_of(items[i as int]);
        wkb.push(blob);
        assert(blobs_view(wkb@) =~= before.push(new));
        assert(all.take(i + 1) =~= all.take(i as int).push(new));
        i += 1;
    }
    assert(all.take(i as int) =~= all);
    GeometryColumn {
        wkb,
        types: count_types(&fc.features),
        bbox: crate::geopackage::writer::features_bbox(&fc.features),
    }
}

// --- the columns of a columnar file ----------------------------------------------------------

/// A column of a columnar file: a name and a value for each row.
#[derive(Debug, PartialEq)]
pub struct PropertyColumn {
    pub name: String,
    pub values: Vec<PropValue>,
}

pub open spec fn props_view(values: Seq<PropValue>) -> Seq<Prop> {
    values.map_values(|v: PropValue| v@)
}

pub open spec fn property_columns(columns: Seq<PropertyColumn>) -> Seq<(Seq<char>, Seq<Prop>)> {
    columns.map_values(|c: PropertyColumn| (c.name@, props_view(c.values@)))
}

/// The properties of a row: the values of the first `n` columns that have one for
/// the row.
pub open spec fn row_of(columns: Seq<(Seq<char>, Seq<Prop>)>, row: int, n: int) -> Seq<
    (Seq<char>, Prop),
>
    decreases n,
{
    if n <= 0 {
        Seq::empty()
    } else {
        let before = row_of(columns, row, n - 1);
        let (name, values) = columns[n - 1];
        if row < values.len() {
            before.push((name, values[row]))
        } else {
            before
        }
    }
}

/// The geometries of the rows from the one numbered `i` on.
pub open spec fn geometries_from(
    wkb: Seq<Option<Seq<u8>>>,
    i: int,
    so_far: Seq<Option<Shape<u64>>>,
) -> Result<Seq<Option<Shape<u64>>>, Failure>
    decreases wkb.len() - i,
{
    if i < 0 || i >= wkb.len() {
        Ok(so_far)
    } else {
        match wkb[i] {
            None => geometries_from(wkb, i + 1, so_far.push(None)),
            Some(bytes) => match wkb::decoded(bytes) {
                Err(e) => Err(e),
                Ok(s) => geometries_from(wkb, i + 1, so_far.push(Some(s))),
            },
        }
    }
}

/// The features of a columnar file's rows.
pub open spec fn rows_to_items(
    wkb: Seq<Option<Seq<u8>>>,
    columns: Seq<(Seq<char>, Seq<Prop>)>,
) -> Result<Seq<Item<u64, Prop>>, Failure> {
    match geometries_from(wkb, 0, Seq::empty()) {
        Err(e) => Err(e),
        Ok(shapes) => Ok(
            Seq::new(
                shapes.len(),
                |i: int|
                    Item {
                        geometry: shapes[i],
                        properties: row_of(columns, i, columns.len() as int),
                    },
            ),
        ),
    }
}

fn copy_property(v: &PropValue) -> (r: PropValue)
    ensures
        r@ == v@,
{
    match v {
        PropValue::Null => PropValue::Null,
        PropValue::Bool(b) => PropValue::Bool(*b),
        PropValue::Int(n) => PropValue::Int(*n),
        PropValue::Single(s) => PropValue::Single(*s),
        PropValue::Double(d) => PropValue::Double(*d),
        PropValue::Text(s) => PropValue::Text(String::from_str(s.as_str())),
    }
}

fn row_properties(columns: &Vec<PropertyColumn>, row: usize) -> (r: Vec<(String, PropValue)>)
    ensures
        properties_view(r@) == row_of(
            property_columns(columns@),
            row as int,
            columns@.len() as int,
        ),
{
    let ghost cs = property_columns(columns@);
    let mut r: Vec<(String, PropValue)> = Vec::new();
    let mut i: usize = 0;
    assert(properties_view(r@) =~= Seq::empty());
    while i < columns.len()
        invariant
            i <= columns@.len(),
            cs == property_columns(columns@),
            properties_view(r@) == row_of(cs, row as int, i as int),
        decreases columns@.len() - i,
    {
        assert(cs[i as int] == (columns@[i as int].name@, props_view(columns@[i as int].values@)));
        if row < columns[i].values.len() {
            let name = String::from_str(columns[i].name.as_str());
            let v = copy_property(&columns[i].values[row]);
            let ghost before = properties_view(r@);
            let ghost pair = (name@, v@);
            r.push((name, v));
            assert(properties_view(r@) =~= before.push(pair));
        }
        i += 1;
    }
    r
}

/// The features of a columnar file: the geometries, which are WKB, and the
/// columns turned into rows.
pub fn rows_to_features(
    wkb: &Vec<Option<Vec<u8>>>,
    columns: &Vec<PropertyColumn>,
    crs: Option<Crs>,
) -> (r: Result<FeatureCollection<u64, PropValue>, Error>)
    ensures
        match rows_to_items(blobs_view(wkb@), property_columns(columns@)) {
            Ok(features) => r matches Ok(fc) && fc@ == (Items { features, crs: crs_view(crs) }),
            Err(e) => r matches Err(f) && f@ == e,
        },
{
    let ghost blobs = blobs_view(wkb@);
    let ghost cs = property_columns(columns@);
    let ghost all = geometries_from(blobs, 0, Seq::empty());
    let ghost mut shapes: Seq<Option<Shape<u64>>> = Seq::empty();
    let mut features: Vec<Feature<u64, PropValue>> = Vec::new();
    let mut i: usize = 0;
    assert(features_view(features@) =~= Seq::empty());
    while i < wkb.len()
        invariant
            i <= wkb@.len(),
            blobs == blobs_view(wkb@),
            cs == property_columns(columns@),
            all == geometries_from(blobs, 0, Seq::empty()),
            all == geometries_from(blobs, i as int, shapes),
            shapes.len() == i,
            features_view(features@) == Seq::new(
                shapes.len(),
                |k: int|
                    Item {
                        geometry: shapes[k],
                        properties: row_of(cs, k, cs.len() as int),
                    },
            ),
        decreases wkb@.len() - i,
    {
        let geometry = match &wkb[i] {
            Some(b) => Some(wkb::decode(b.as_slice())?),
            None => None,
        };
        let properties = row_properties(columns, i);
        let f = Feature { geometry, properties };
        let ghost before = features_view(features@);
        features.push(f);
        proof {
            shapes = shapes.push(geometry_view(f.geometry));
            assert(features_view(features@) =~= before.push(f@));
            assert(features_view(features@) =~= Seq::new(
                shapes.len(),
                |k: int|
                    Item {
                        geometry: shapes[k],
                        properties: row_of(cs, k, cs.len() as int),
                    },
            ));
        }
        i += 1;
    }
    Ok(FeatureCollection { features, crs })
}

} // verus!
