//! What is known of a coordinate reference system.
//!
//! Formats record a system differently: as an authority's code, as WKT, as
//! PROJJSON. A [`Crs`] holds every form that a reader found, and a writer uses
//! the one that its format speaks. Nothing is reprojected and nothing is looked
//! up, so where a format cannot express what it is given there is a warning.
use vstd::prelude::*;

use crate::crs::projjson_wkt::{projjson_to_wkt, structural_wkt_of, text_in, text_member};
use crate::crs::wkt::{is_crs_wkt, own_identifier, starts_as_crs, tokens, wkt_authority_code};
use crate::crs::wkt_projjson::{translated, wkt_to_projjson};
use crate::decimal::{plain_unsigned, unsigned_plain};
use crate::error::{Error, Failure};
use crate::format::Format;
use crate::json::parser::{lemma_value_advances, root_text, take_root, value_at, ws_end};
use crate::json::value::{Json, JsonValue};
use crate::number::{integer_of, parse_integer};
use crate::text::{
    chars_of, is_white, lemma_trimmed_extends, lemma_trimmed_stays, lower_text, opt_clone, opt_view,
    same_ignoring_case, same_text, text_between, trim_text, trimmed,
};

verus! {

/// The coordinate reference system of a collection.
#[derive(Debug, PartialEq)]
pub enum Crs {
    /// WGS 84, longitude before latitude: what GeoJSON and GeoParquet take a
    /// collection to be in where nothing is said.
    Wgs84,
    /// Any other system, as far as its source recorded it.
    Named(NamedCrs),
}

/// What a source recorded of a system. Formats record different parts.
#[derive(Debug, PartialEq)]
pub struct NamedCrs {
    /// The authority's name, such as `EPSG`.
    pub authority: Option<String>,
    /// The authority's code. Some authorities use letters.
    pub code: Option<String>,
    /// The WKT definition, as it was written.
    pub wkt: Option<String>,
    /// The PROJJSON definition, as it was written.
    pub projjson: Option<String>,
}

/// The mathematical form of what a source recorded.
pub struct Record {
    pub authority: Option<Seq<char>>,
    pub code: Option<Seq<char>>,
    pub wkt: Option<Seq<char>>,
    pub projjson: Option<Seq<char>>,
}

/// The mathematical form of a system.
pub enum System {
    Wgs84,
    Named(Record),
}

/// How WGS 84 is reported: with the code that stands for longitude before
/// latitude.
pub const WGS84_CRS_CODE: &'static str = "OGC:CRS84";

/// The name that stands where a system has no authority. It is a placeholder:
/// no code under it names anything.
pub const SYNTHETIC_AUTHORITY: &'static str = "NONE";

impl View for NamedCrs {
    type V = Record;

    open spec fn view(&self) -> Record {
        Record {
            authority: opt_view(self.authority),
            code: opt_view(self.code),
            wkt: opt_view(self.wkt),
            projjson: opt_view(self.projjson),
        }
    }
}

impl View for Crs {
    type V = System;

    open spec fn view(&self) -> System {
        match self {
            Crs::Wgs84 => System::Wgs84,
            Crs::Named(n) => System::Named(n@),
        }
    }
}

/// The view of an optional system.
pub open spec fn crs_view(crs: Option<Crs>) -> Option<System> {
    match crs {
        Some(c) => Some(c@),
        None => None,
    }
}

impl Default for NamedCrs {
    fn default() -> (r: NamedCrs)
        ensures
            r@ == (Record { authority: None, code: None, wkt: None, projjson: None }),
    {
        NamedCrs { authority: None, code: None, wkt: None, projjson: None }
    }
}

impl Clone for NamedCrs {
    fn clone(&self) -> (r: NamedCrs)
        ensures
            r@ == self@,
    {
        NamedCrs {
            authority: opt_clone(&self.authority),
            code: opt_clone(&self.code),
            wkt: opt_clone(&self.wkt),
            projjson: opt_clone(&self.projjson),
        }
    }
}

impl Clone for Crs {
    fn clone(&self) -> (r: Crs)
        ensures
            r@ == self@,
    {
        match self {
            Crs::Wgs84 => Crs::Wgs84,
            Crs::Named(n) => Crs::Named(n.clone()),
        }
    }
}

// --- identity ------------------------------------------------------------------------

/// Whether an authority and a code are a spelling of WGS 84.
pub open spec fn is_wgs84(authority: Option<Seq<char>>, code: Option<Seq<char>>) -> bool {
    match (authority, code) {
        (Some(a), Some(c)) => {
            ||| lower_text(a) == "epsg"@ && c == "4326"@
            ||| lower_text(a) == "ogc"@ && c == "CRS84"@
        },
        _ => false,
    }
}

/// The authority and code of a system: those given, and where neither is given
/// those that its WKT definition states of itself.
pub open spec fn identity(
    authority: Option<Seq<char>>,
    code: Option<Seq<char>>,
    wkt: Option<Seq<char>>,
) -> (Option<Seq<char>>, Option<Seq<char>>) {
    if authority is Some || code is Some || wkt is None {
        (authority, code)
    } else {
        match own_identifier(tokens(wkt->0)) {
            Some((a, c)) => (Some(a), Some(c)),
            None => (None, None),
        }
    }
}

/// The system with an authority, a code and definitions.
pub open spec fn system_of(
    authority: Option<Seq<char>>,
    code: Option<Seq<char>>,
    wkt: Option<Seq<char>>,
    projjson: Option<Seq<char>>,
) -> System {
    let (a, c) = identity(authority, code, wkt);
    if is_wgs84(a, c) {
        System::Wgs84
    } else {
        System::Named(Record { authority: a, code: c, wkt, projjson })
    }
}

/// A code in PROJJSON: a string, or a number, which is written plainly.
pub open spec fn code_text(v: Option<Json>) -> Option<Seq<char>> {
    match v {
        Some(Json::String(s)) => Some(s),
        Some(Json::Number { text, is_int }) => Some(unsigned_plain(text)),
        _ => None,
    }
}

/// The system that a PROJJSON object describes, its text being `raw`.
pub open spec fn system_of_projjson(v: Json, raw: Seq<char>) -> System {
    let (authority, code) = match v.member("id"@) {
        Some(id) => (text_member(id, "authority"@), code_text(id.member("code"@))),
        None => (None, None),
    };
    system_of(authority, code, None, Some(raw))
}

/// The system that a PROJJSON text describes.
pub open spec fn system_of_projjson_text(text: Seq<char>) -> Result<System, Failure> {
    match root_text(text) {
        Ok((v, raw)) => Ok(system_of_projjson(v, raw)),
        Err(e) => Err(e),
    }
}

/// The first characters of a text.
pub open spec fn beginning(s: Seq<char>, n: nat) -> Seq<char> {
    if s.len() <= n {
        s
    } else {
        s.subrange(0, n as int)
    }
}

/// The system that a definition describes: PROJJSON where it opens with a brace,
/// and else WKT.
pub open spec fn system_of_text(text: Seq<char>) -> Result<System, Failure> {
    let t = trimmed(text);
    if t.len() == 0 {
        Err(
            Failure::Usage(
                "--crs: the CRS definition is empty; expected WKT or PROJJSON text"@,
            ),
        )
    } else if t[0] == '{' {
        system_of_projjson_text(t)
    } else if starts_as_crs(tokens(t)) {
        Ok(system_of(None, None, Some(t), None))
    } else {
        Err(
            Failure::Usage(
                "--crs: expected a CRS definition — PROJJSON (a JSON object) or WKT (GEOGCS/PROJCS/GEOGCRS/PROJCRS/…) — but the text starts with \""@
                    + beginning(t, 24) + "\""@,
            ),
        )
    }
}

fn spells_wgs84(authority: &Option<String>, code: &Option<String>) -> (r: bool)
    ensures
        r == is_wgs84(opt_view(*authority), opt_view(*code)),
{
    match (authority, code) {
        (Some(a), Some(c)) => {
            let a = crate::text::to_lower(a.as_str());
            (same_text(a.as_str(), "epsg") && same_text(c.as_str(), "4326")) || (same_text(
                a.as_str(),
                "ogc",
            ) && same_text(c.as_str(), "CRS84"))
        },
        _ => false,
    }
}

/// The system that a PROJJSON object describes. `raw` is the object's own text,
/// which is kept as it is.
pub fn crs_from_projjson(crs: &JsonValue, raw: &str) -> (r: Crs)
    ensures
        r@ == system_of_projjson(crs@, raw@),
{
    let (authority, code) = match crs.get("id") {
        Some(id) => {
            let authority = match text_in(id, "authority") {
                Some(a) => Some(String::from_str(a)),
                None => None,
            };
            let code = match id.get("code") {
                Some(c) => json_code_as_string(c),
                None => None,
            };
            (authority, code)
        },
        None => (None, None),
    };
    Crs::from_authority_code(authority, code, None, Some(String::from_str(raw)))
}

fn json_code_as_string(v: &JsonValue) -> (r: Option<String>)
    ensures
        opt_view(r) == code_text(Some(v@)),
{
    match v.as_str() {
        Some(s) => Some(String::from_str(s)),
        None => match v.as_number() {
            Some(text) => {
                let chars = chars_of(text);
                Some(plain_unsigned(chars.as_slice()))
            },
            None => None,
        },
    }
}

/// The system that a PROJJSON text describes. What is kept of the text is what
/// was written, less the white space around it.
pub fn crs_from_projjson_text(text: &str) -> (r: Result<Crs, Error>)
    ensures
        match system_of_projjson_text(text@) {
            Ok(c) => r is Ok && r->Ok_0@ == c,
            Err(e) => r is Err && r->Err_0@ == e,
        },
{
    let (value, raw) = take_root(text)?;
    Ok(crs_from_projjson(&value, raw.as_str()))
}

impl Crs {
    /// The system with an authority and a code. The spellings of WGS 84 become
    /// [`Crs::Wgs84`]. Where neither is given, the WKT definition's own
    /// identifier takes their place.
    pub fn from_authority_code(
        authority: Option<String>,
        code: Option<String>,
        wkt: Option<String>,
        projjson: Option<String>,
    ) -> (r: Crs)
        ensures
            r@ == system_of(opt_view(authority), opt_view(code), opt_view(wkt), opt_view(projjson)),
    {
        let mut authority = authority;
        let mut code = code;
        if authority.is_none() && code.is_none() {
            if let Some(w) = &wkt {
                if let Some((a, c)) = wkt_authority_code(w.as_str()) {
                    authority = Some(a);
                    code = Some(c);
                }
            }
        }
        if spells_wgs84(&authority, &code) {
            Crs::Wgs84
        } else {
            Crs::Named(NamedCrs { authority, code, wkt, projjson })
        }
    }

    /// The system that a definition describes: PROJJSON where it opens with a
    /// brace, and else WKT. Text that is neither is refused.
    pub fn from_definition_text(text: &str) -> (r: Result<Crs, Error>)
        ensures
            match system_of_text(text@) {
                Ok(c) => r is Ok && r->Ok_0@ == c,
                Err(e) => r is Err && r->Err_0@ == e,
            },
    {
        let t = trim_text(text);
        let chars = chars_of(t.as_str());
        if chars.len() == 0 {
            return Err(
                Error::Usage(
                    String::from_str(
                        "--crs: the CRS definition is empty; expected WKT or PROJJSON text",
                    ),
                ),
            );
        }
        if chars[0] == '{' {
            return crs_from_projjson_text(t.as_str());
        }
        if is_crs_wkt(t.as_str()) {
            return Ok(Crs::from_authority_code(None, None, Some(t), None));
        }
        let n: usize = if chars.len() <= 24 {
            chars.len()
        } else {
            24
        };
        assert(t@.subrange(0, t@.len() as int) =~= t@);
        let mut message = String::from_str(
            "--crs: expected a CRS definition — PROJJSON (a JSON object) or WKT (GEOGCS/PROJCS/GEOGCRS/PROJCRS/…) — but the text starts with \"",
        );
        message.append(text_between(chars.as_slice(), 0, n).as_str());
        message.append("\"");
        Err(Error::Usage(message))
    }
}

/// The authority and code under which a system can be looked up: both have to be
/// there, and the authority has to be one.
pub open spec fn portable_identity(r: Record) -> Option<(Seq<char>, Seq<char>)> {
    match (r.authority, r.code) {
        (Some(a), Some(c)) => if lower_text(a) == lower_text(SYNTHETIC_AUTHORITY@) {
            None
        } else {
            Some((a, c))
        },
        _ => None,
    }
}

/// How a system is reported: `AUTHORITY:CODE`.
pub open spec fn reported(s: System) -> Option<Seq<char>> {
    match s {
        System::Wgs84 => Some(WGS84_CRS_CODE@),
        System::Named(r) => match portable_identity(r) {
            Some((a, c)) => Some(a + ":"@ + c),
            None => None,
        },
    }
}

/// The definition that a source recorded: PROJJSON where there is one, else WKT.
pub open spec fn definition(s: System) -> Option<Seq<char>> {
    match s {
        System::Wgs84 => None,
        System::Named(r) => if r.projjson is Some {
            r.projjson
        } else {
            r.wkt
        },
    }
}

impl Crs {
    /// The system's `AUTHORITY:CODE`, where it has both.
    pub fn authority_code(&self) -> (r: Option<String>)
        ensures
            opt_view(r) == reported(self@),
    {
        match self {
            Crs::Wgs84 => Some(String::from_str(WGS84_CRS_CODE)),
            Crs::Named(n) => match n.authority_code() {
                Some((a, c)) => {
                    let mut out = String::from_str(a);
                    out.append(":");
                    out.append(c);
                    Some(out)
                },
                None => None,
            },
        }
    }

    /// The definition that the source recorded, as it was written. WGS 84 has a
    /// code and no definition: where it is implied nothing was written.
    pub fn definition_body(&self) -> (r: Option<&str>)
        ensures
            match r {
                Some(s) => definition(self@) == Some(s@),
                None => definition(self@) is None,
            },
    {
        match self {
            Crs::Wgs84 => None,
            Crs::Named(n) => match &n.projjson {
                Some(s) => Some(s.as_str()),
                None => match &n.wkt {
                    Some(s) => Some(s.as_str()),
                    None => None,
                },
            },
        }
    }
}

// --- what a format can express -------------------------------------------------------

impl Record {
    /// A short name for messages.
    pub open spec fn spec_label(self) -> Seq<char> {
        match (self.authority, self.code) {
            (Some(a), Some(c)) => a + ":"@ + c,
            (None, Some(c)) => "code "@ + c,
            (Some(a), None) => "authority "@ + a,
            (None, None) => "the source CRS"@,
        }
    }

    /// Whether GeoParquet can record the system so that it can be resolved: it
    /// has PROJJSON, or WKT that translates into it.
    pub open spec fn in_parquet(self) -> bool {
        self.projjson is Some || (self.wkt is Some && translated(self.wkt->0) is Some)
    }

    /// The WKT definition that the system's PROJJSON translates into.
    pub open spec fn spec_structural_wkt(self) -> Option<Seq<char>> {
        match self.projjson {
            Some(p) => structural_wkt_of(p),
            None => None,
        }
    }

    /// Whether a format that records WKT and a code can record the system.
    pub open spec fn in_wkt(self) -> bool {
        self.wkt is Some || self.code is Some || self.spec_structural_wkt() is Some
    }

    /// Whether a format that records WKT alone can record the system.
    pub open spec fn in_shapefile(self) -> bool {
        self.wkt is Some || self.spec_structural_wkt() is Some
    }

    /// The dialect of the definition.
    pub open spec fn dialect(self) -> Seq<char> {
        if self.wkt is Some {
            "WKT"@
        } else if self.projjson is Some {
            "PROJJSON"@
        } else {
            "CRS"@
        }
    }

    /// Whether there is a code, and it is no positive integer.
    pub open spec fn odd_code(self) -> bool {
        match self.code {
            Some(c) => match integer_of(c) {
                Some(n) => n <= 0,
                None => true,
            },
            None => false,
        }
    }

    /// Whether there is a code, and it is an integer of more than 31 bits.
    pub open spec fn wide_code(self) -> bool {
        match self.code {
            Some(c) => integer_of(c) matches Some(n) && n > i32::MAX,
            None => false,
        }
    }

    /// What keeps the code from being recorded as an integer, where something does.
    pub open spec fn code_trouble(self, target: Format) -> Option<Seq<char>> {
        if self.odd_code() {
            Some("'s authority code is not a positive integer; "@)
        } else if target is FlatGeobuf && self.wide_code() {
            Some("'s authority code does not fit in 32 bits; "@)
        } else {
            None
        }
    }
}

/// The advice on how to supply what is missing.
pub open spec fn supply_hint() -> Seq<char> {
    " Supply the definition with `--crs <path|->` (`--print-crs-code` prints the code to resolve)."@
}

/// What is lost of a system in a format, where something is.
pub open spec fn warning(s: System, target: Format) -> Option<Seq<char>> {
    match s {
        System::Wgs84 => None,
        System::Named(r) => match target {
            Format::GeoJson | Format::Kml | Format::Kmz => Some(
                r.spec_label() + " is not WGS 84; "@ + target.spec_display_name()
                    + " is always WGS 84 — output coordinates will be mislabeled. Reproject to EPSG:4326 before converting."@,
            ),
            Format::Csv | Format::Wkt => Some(
                target.spec_display_name() + " cannot record a CRS; "@ + r.spec_label()
                    + " will be dropped from the output."@,
            ),
            Format::Parquet => if r.in_parquet() {
                None
            } else {
                Some(
                    r.spec_label() + " will not be resolvable in the GeoParquet output — "@ + (
                    if r.wkt is Some {
                        "Geosetta cannot translate this WKT definition to PROJJSON (its projection is unsupported or ambiguous in WKT1)"@
                    } else {
                        "Geosetta has only an authority code, not a full definition to translate"@
                    })
                        + ", so it is written only as an id reference that PROJ/GDAL/QGIS read as unknown."@
                        + supply_hint(),
                )
            },
            Format::FlatGeobuf | Format::Gpkg => if !r.in_wkt() {
                Some(
                    "source CRS is a "@ + r.dialect()
                        + " definition with no authority code, and "@ + target.spec_display_name()
                        + " records CRS as WKT; Geosetta cannot translate this particular definition, so the CRS will be dropped from the output."@,
                )
            } else if r.code_trouble(target) is Some {
                Some(
                    r.spec_label() + r.code_trouble(target)->0 + target.spec_display_name()
                        + " records CRS codes as a native integer id, so the output will carry a synthetic/placeholder id instead of the original code (the authority and WKT definition still carry through)."@,
                )
            } else {
                None
            },
            Format::Shapefile => if r.in_shapefile() {
                None
            } else {
                Some(
                    r.spec_label() + " will not be recorded in the Shapefile output — "@ + (
                    if r.projjson is Some {
                        "Geosetta has only a non-WKT (PROJJSON) definition it cannot translate for this CRS, and .prj records CRS as WKT text"@
                    } else {
                        "Geosetta has only an authority code, not a WKT definition to write"@
                    }) + ", so no .prj will be written."@ + supply_hint(),
                )
            },
        },
    }
}

impl NamedCrs {
    fn label(&self) -> (r: String)
        ensures
            r@ == self@.spec_label(),
    {
        match (&self.authority, &self.code) {
            (Some(a), Some(c)) => {
                let mut out = String::from_str(a.as_str());
                out.append(":");
                out.append(c.as_str());
                out
            },
            (None, Some(c)) => {
                let mut out = String::from_str("code ");
                out.append(c.as_str());
                out
            },
            (Some(a), None) => {
                let mut out = String::from_str("authority ");
                out.append(a.as_str());
                out
            },
            (None, None) => String::from_str("the source CRS"),
        }
    }

    /// The authority and code under which the system can be looked up, where it
    /// has both. The placeholder for a missing authority does not count.
    pub fn authority_code(&self) -> (r: Option<(&str, &str)>)
        ensures
            match r {
                Some((a, c)) => portable_identity(self@) == Some((a@, c@)),
                None => portable_identity(self@) is None,
            },
    {
        match (&self.authority, &self.code) {
            (Some(a), Some(c)) => {
                if same_ignoring_case(a.as_str(), SYNTHETIC_AUTHORITY) {
                    None
                } else {
                    Some((a.as_str(), c.as_str()))
                }
            },
            _ => None,
        }
    }

    fn parquet_expressible(&self) -> (r: bool)
        ensures
            r == self@.in_parquet(),
    {
        if self.projjson.is_some() {
            return true;
        }
        match &self.wkt {
            Some(w) => wkt_to_projjson(w.as_str()).is_some(),
            None => false,
        }
    }

    fn wkt_expressible(&self) -> (r: bool)
        ensures
            r == self@.in_wkt(),
    {
        self.wkt.is_some() || self.code.is_some() || self.structural_wkt().is_some()
    }

    fn shapefile_expressible(&self) -> (r: bool)
        ensures
            r == self@.in_shapefile(),
    {
        self.wkt.is_some() || self.structural_wkt().is_some()
    }

    /// The WKT definition that the system's PROJJSON translates into.
    pub fn structural_wkt(&self) -> (r: Option<String>)
        ensures
            opt_view(r) == self@.spec_structural_wkt(),
    {
        match &self.projjson {
            Some(p) => projjson_to_wkt(p.as_str()),
            None => None,
        }
    }

    fn definition_dialect(&self) -> (r: &'static str)
        ensures
            r@ == self@.dialect(),
    {
        if self.wkt.is_some() {
            "WKT"
        } else if self.projjson.is_some() {
            "PROJJSON"
        } else {
            "CRS"
        }
    }

    fn find_code_trouble(&self, target: Format) -> (r: Option<&'static str>)
        ensures
            match self@.code_trouble(target) {
                Some(t) => r matches Some(x) && x@ == t,
                None => r is None,
            },
    {
        match &self.code {
            Some(c) => match parse_integer(c.as_str()) {
                Some(n) => if n <= 0 {
                    Some("'s authority code is not a positive integer; ")
                } else if n > 0x7fff_ffff && matches!(target, Format::FlatGeobuf) {
                    Some("'s authority code does not fit in 32 bits; ")
                } else {
                    None
                },
                None => Some("'s authority code is not a positive integer; "),
            },
            None => None,
        }
    }
}

impl Crs {
    /// What is lost where a collection in this system is written as `target`, or
    /// nothing where the format can record it.
    pub fn downgrade_warning(&self, target: Format) -> (r: Option<String>)
        ensures
            opt_view(r) == warning(self@, target),
    {
        let named = match self {
            Crs::Named(n) => n,
            Crs::Wgs84 => {
                return None;
            },
        };
        let label = named.label();
        match target {
            Format::GeoJson | Format::Kml | Format::Kmz => {
                let mut out = label;
                out.append(" is not WGS 84; ");
                out.append(target.display_name());
                out.append(
                    " is always WGS 84 — output coordinates will be mislabeled. Reproject to EPSG:4326 before converting.",
                );
                Some(out)
            },
            Format::Csv | Format::Wkt => {
                let mut out = String::from_str(target.display_name());
                out.append(" cannot record a CRS; ");
                out.append(label.as_str());
                out.append(" will be dropped from the output.");
                Some(out)
            },
            Format::Parquet => {
                if named.parquet_expressible() {
                    return None;
                }
                let mut out = label;
                out.append(" will not be resolvable in the GeoParquet output — ");
                out.append(
                    if named.wkt.is_some() {
                        "Geosetta cannot translate this WKT definition to PROJJSON (its projection is unsupported or ambiguous in WKT1)"
                    } else {
                        "Geosetta has only an authority code, not a full definition to translate"
                    },
                );
                out.append(
                    ", so it is written only as an id reference that PROJ/GDAL/QGIS read as unknown.",
                );
                out.append(
                    " Supply the definition with `--crs <path|->` (`--print-crs-code` prints the code to resolve).",
                );
                Some(out)
            },
            Format::FlatGeobuf | Format::Gpkg => {
                if !named.wkt_expressible() {
                    let mut out = String::from_str("source CRS is a ");
                    out.append(named.definition_dialect());
                    out.append(" definition with no authority code, and ");
                    out.append(target.display_name());
                    out.append(
                        " records CRS as WKT; Geosetta cannot translate this particular definition, so the CRS will be dropped from the output.",
                    );
                    return Some(out);
                }
                if let Some(trouble) = named.find_code_trouble(target) {
                    let mut out = label;
                    out.append(trouble);
                    out.append(target.display_name());
                    out.append(
                        " records CRS codes as a native integer id, so the output will carry a synthetic/placeholder id instead of the original code (the authority and WKT definition still carry through).",
                    );
                    return Some(out);
                }
                None
            },
            Format::Shapefile => {
                if named.shapefile_expressible() {
                    return None;
                }
                let mut out = label;
                out.append(" will not be recorded in the Shapefile output — ");
                out.append(
                    if named.projjson.is_some() {
                        "Geosetta has only a non-WKT (PROJJSON) definition it cannot translate for this CRS, and .prj records CRS as WKT text"
                    } else {
                        "Geosetta has only an authority code, not a WKT definition to write"
                    },
                );
                out.append(", so no .prj will be written.");
                out.append(
                    " Supply the definition with `--crs <path|->` (`--print-crs-code` prints the code to resolve).",
                );
                Some(out)
            },
        }
    }
}

// --- laws ----------------------------------------------------------------------------

/// WGS 84 is written in every format without a warning.
pub proof fn law_wgs84_never_warns(target: Format)
    ensures
        warning(System::Wgs84, target) is None,
{
}

/// Every other system is announced as lost in a format without a place for one.
pub proof fn law_formats_without_crs_always_warn(r: Record, target: Format)
    requires
        target is GeoJson || target is Kml || target is Kmz || target is Csv || target is Wkt,
    ensures
        warning(System::Named(r), target) is Some,
{
}

/// A definition in the format's own dialect is written without a warning; in a
/// format with a number for a code, where the code is a positive integer or
/// there is none.
pub proof fn law_own_dialect_never_warns(r: Record)
    ensures
        r.projjson is Some ==> warning(System::Named(r), Format::Parquet) is None,
        r.wkt is Some ==> warning(System::Named(r), Format::Shapefile) is None,
        r.wkt is Some && !r.odd_code() ==> warning(System::Named(r), Format::Gpkg) is None,
        r.wkt is Some && !r.odd_code() && !r.wide_code() ==> warning(
            System::Named(r),
            Format::FlatGeobuf,
        ) is None,
{
}

/// A positive integer code carries over to the formats that have a place for it, which
/// in FlatGeobuf is one of 32 bits.
pub proof fn law_integer_code_never_warns(r: Record)
    requires
        r.code is Some,
        integer_of(r.code->0) matches Some(n) && n > 0,
    ensures
        integer_of(r.code->0)->0 <= i32::MAX ==> warning(System::Named(r), Format::FlatGeobuf) is None,
        warning(System::Named(r), Format::Gpkg) is None,
{
}

/// Both spellings of WGS 84 are the same system, whatever definitions come with
/// them.
pub proof fn law_wgs84_spellings_collapse(
    authority: Seq<char>,
    wkt: Option<Seq<char>>,
    projjson: Option<Seq<char>>,
)
    ensures
        lower_text(authority) == "epsg"@ ==> system_of(
            Some(authority),
            Some("4326"@),
            wkt,
            projjson,
        ) == System::Wgs84,
        lower_text(authority) == "ogc"@ ==> system_of(
            Some(authority),
            Some("CRS84"@),
            wkt,
            projjson,
        ) == System::Wgs84,
{
}

/// An authority or a code that is given is not replaced by what a definition
/// states of itself.
pub proof fn law_given_identity_is_kept(
    authority: Option<Seq<char>>,
    code: Option<Seq<char>>,
    wkt: Option<Seq<char>>,
    projjson: Option<Seq<char>>,
)
    requires
        authority is Some || code is Some,
        !is_wgs84(authority, code),
    ensures
        system_of(authority, code, wkt, projjson) == System::Named(
            Record { authority, code, wkt, projjson },
        ),
{
}

/// The identifier of a definition that comes without authority and code becomes
/// the system's own, and the definition is kept.
pub proof fn law_definition_identity_is_lifted(wkt: Seq<char>, projjson: Option<Seq<char>>)
    requires
        own_identifier(tokens(wkt)) is Some,
    ensures
        ({
            let (a, c) = own_identifier(tokens(wkt))->0;
            system_of(None, None, Some(wkt), projjson) == system_of(
                Some(a),
                Some(c),
                Some(wkt),
                projjson,
            )
        }),
{
}

/// A system is reported only with both halves of its identity, and never under
/// the placeholder.
pub proof fn law_report_needs_both_halves(r: Record)
    ensures
        reported(System::Named(r)) is Some <==> r.authority is Some && r.code is Some && lower_text(
            r.authority->0,
        ) != lower_text(SYNTHETIC_AUTHORITY@),
        reported(System::Named(r)) matches Some(s) ==> s == r.authority->0 + ":"@ + r.code->0,
{
}

/// The PROJJSON definition is the one that is quoted where there are both.
pub proof fn law_projjson_is_quoted_first(r: Record)
    requires
        r.projjson is Some,
    ensures
        definition(System::Named(r)) == r.projjson,
{
}

/// Whether a system's recorded definition says all that is recorded of it.
pub open spec fn describes_itself(s: System) -> bool {
    definition(s) matches Some(b) && system_of_text(b) == Ok::<System, Failure>(s)
}

/// A system that a definition describes has that definition recorded, without the
/// white space around it, unless it is WGS 84.
pub proof fn law_definition_is_kept(text: Seq<char>)
    requires
        system_of_text(text) is Ok,
    ensures
        ({
            let s = system_of_text(text)->Ok_0;
            s == System::Wgs84 || (definition(s) == Some(trimmed(text)) && describes_itself(s))
        }),
{
    let t = trimmed(text);
    lemma_trimmed_stays(text);
    if t[0] == '{' {
        let (v, q) = value_at(t, 0)->Ok_0;
        lemma_value_advances(t, 0);
        assert(q == t.len()) by {
            if q < t.len() {
                lemma_white_to_end(t, q);
            }
        }
        assert(t.subrange(0, t.len() as int) =~= t);
    }
}

proof fn lemma_white_to_end(s: Seq<char>, p: int)
    requires
        0 <= p < s.len(),
        ws_end(s, p) == s.len(),
    ensures
        is_white(s.last()),
    decreases s.len() - p,
{
    if p + 1 < s.len() {
        lemma_white_to_end(s, p + 1);
    }
}

/// A definition that is printed, on a line of its own, and taken back is the same
/// system.
pub proof fn law_printed_definition_is_taken_back(s: System)
    requires
        describes_itself(s),
    ensures
        system_of_text(definition(s)->0.push('\n')) == Ok::<System, Failure>(s),
{
    lemma_trimmed_extends(definition(s)->0, '\n');
}

} // verus!
