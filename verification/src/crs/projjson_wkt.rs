//! From a PROJJSON object to a WKT definition.
//!
//! Geographic systems only: a plain datum, an ellipsoid whose axis is in metres,
//! and coordinates in degrees. Everything else is not rendered.
use vstd::prelude::*;

use crate::decimal::{plain_unsigned, unsigned_plain};
use crate::json::parser::{document, parse};
use crate::json::value::{items_view, Json, JsonValue};
use crate::text::{chars_of, find_first, first_place, same_text};

verus! {

/// The text of a member that is a string.
pub open spec fn text_member(v: Json, key: Seq<char>) -> Option<Seq<char>> {
    match v.member(key) {
        Some(Json::String(s)) => Some(s),
        _ => None,
    }
}

/// The text of a member that is a string without quotes, as WKT needs it.
pub open spec fn name_member(v: Json, key: Seq<char>) -> Option<Seq<char>> {
    match text_member(v, key) {
        Some(s) => if first_place(s, '"', 0) is None {
            Some(s)
        } else {
            None
        },
        None => None,
    }
}

/// The text of a member that is a number.
pub open spec fn number_member(v: Json, key: Seq<char>) -> Option<Seq<char>> {
    match v.member(key) {
        Some(Json::Number { text, is_int }) => Some(unsigned_plain(text)),
        _ => None,
    }
}

/// Reads a member that is a string.
pub fn text_in<'a>(v: &'a JsonValue, key: &str) -> (r: Option<&'a str>)
    ensures
        match r {
            Some(s) => text_member(v@, key@) == Some(s@),
            None => text_member(v@, key@) is None,
        },
{
    match v.get(key) {
        Some(m) => m.as_str(),
        None => None,
    }
}

fn name_in<'a>(v: &'a JsonValue, key: &str) -> (r: Option<&'a str>)
    ensures
        match r {
            Some(s) => name_member(v@, key@) == Some(s@),
            None => name_member(v@, key@) is None,
        },
{
    match text_in(v, key) {
        Some(s) => {
            let chars = chars_of(s);
            if find_first(chars.as_slice(), '"', 0).is_none() {
                Some(s)
            } else {
                None
            }
        },
        None => None,
    }
}

/// Reads a member that is a number, as the plain decimal that it is.
pub fn number_in(v: &JsonValue, key: &str) -> (r: Option<String>)
    ensures
        match r {
            Some(s) => number_member(v@, key@) == Some(s@),
            None => number_member(v@, key@) is None,
        },
{
    match v.get(key) {
        Some(m) => match m.as_number() {
            Some(text) => {
                let chars = chars_of(text);
                Some(plain_unsigned(chars.as_slice()))
            },
            None => None,
        },
        None => None,
    }
}

/// `KEYWORD["name",first,second]`.
pub open spec fn node3(
    keyword: Seq<char>,
    name: Seq<char>,
    first: Seq<char>,
    second: Seq<char>,
) -> Seq<char> {
    keyword + "[\""@ + name + "\","@ + first + ","@ + second + "]"@
}

/// The ellipsoid of a datum.
pub open spec fn spheroid_wkt(datum: Json) -> Option<Seq<char>> {
    match datum.member("ellipsoid"@) {
        None => None,
        Some(e) => match (
            name_member(e, "name"@),
            number_member(e, "semi_major_axis"@),
            number_member(e, "inverse_flattening"@),
        ) {
            (Some(name), Some(a), Some(rf)) => Some(node3("SPHEROID"@, name, a, rf)),
            _ => None,
        },
    }
}

fn render_spheroid(datum: &JsonValue) -> (r: Option<String>)
    ensures
        match r {
            Some(s) => spheroid_wkt(datum@) == Some(s@),
            None => spheroid_wkt(datum@) is None,
        },
{
    match datum.get("ellipsoid") {
        None => None,
        Some(e) => match (
            name_in(e, "name"),
            number_in(e, "semi_major_axis"),
            number_in(e, "inverse_flattening"),
        ) {
            (Some(name), Some(a), Some(rf)) => {
                let mut out = String::from_str("SPHEROID");
                out.append("[\"");
                out.append(name);
                out.append("\",");
                out.append(a.as_str());
                out.append(",");
                out.append(rf.as_str());
                out.append("]");
                Some(out)
            },
            _ => None,
        },
    }
}

/// The prime meridian of a datum: Greenwich's where it states none.
pub open spec fn primem_wkt(datum: Json) -> Option<Seq<char>> {
    match datum.member("prime_meridian"@) {
        None => Some("PRIMEM[\"Greenwich\",0]"@),
        Some(pm) => match (name_member(pm, "name"@), number_member(pm, "longitude"@)) {
            (Some(name), Some(longitude)) => Some(
                "PRIMEM[\""@ + name + "\","@ + longitude + "]"@,
            ),
            _ => None,
        },
    }
}

fn render_primem(datum: &JsonValue) -> (r: Option<String>)
    ensures
        match r {
            Some(s) => primem_wkt(datum@) == Some(s@),
            None => primem_wkt(datum@) is None,
        },
{
    match datum.get("prime_meridian") {
        None => Some(String::from_str("PRIMEM[\"Greenwich\",0]")),
        Some(pm) => match (name_in(pm, "name"), number_in(pm, "longitude")) {
            (Some(name), Some(longitude)) => {
                let mut out = String::from_str("PRIMEM[\"");
                out.append(name);
                out.append("\",");
                out.append(longitude.as_str());
                out.append("]");
                Some(out)
            },
            _ => None,
        },
    }
}

/// Whether a system counts in degrees: it states no coordinate system, or one
/// whose first axis does.
pub open spec fn in_degrees(v: Json) -> bool {
    match v.member("coordinate_system"@) {
        None => true,
        Some(cs) => match cs.member("axis"@) {
            Some(Json::Array(axes)) => axes.len() > 0 && text_member(axes[0], "unit"@) == Some(
                "degree"@,
            ),
            _ => false,
        },
    }
}

fn counts_in_degrees(v: &JsonValue) -> (r: bool)
    ensures
        r == in_degrees(v@),
{
    match v.get("coordinate_system") {
        None => true,
        Some(cs) => match cs.get("axis") {
            None => false,
            Some(axis) => match axis.as_array() {
                None => false,
                Some(axes) => {
                    if axes.len() == 0 {
                        return false;
                    }
                    assert(items_view(axes@)[0] == axes@[0]@);
                    match text_in(&axes[0], "unit") {
                        Some(unit) => same_text(unit, "degree"),
                        None => false,
                    }
                },
            },
        },
    }
}

/// The WKT definition of a PROJJSON object.
pub open spec fn geographic_wkt(v: Json) -> Option<Seq<char>> {
    if text_member(v, "type"@) != Some("GeographicCRS"@) || !in_degrees(v) {
        None
    } else {
        match (name_member(v, "name"@), v.member("datum"@)) {
            (Some(name), Some(datum)) => match (
                name_member(datum, "name"@),
                spheroid_wkt(datum),
                primem_wkt(datum),
            ) {
                (Some(datum_name), Some(spheroid), Some(primem)) => Some(
                    "GEOGCS[\""@ + name + "\",DATUM[\""@ + datum_name + "\","@ + spheroid + "],"@
                        + primem + ",UNIT[\"degree\",0.0174532925199433]]"@,
                ),
                _ => None,
            },
            _ => None,
        }
    }
}

/// The WKT definition of a PROJJSON text.
pub open spec fn structural_wkt_of(text: Seq<char>) -> Option<Seq<char>> {
    match document(text) {
        Ok(v) => geographic_wkt(v),
        Err(_) => None,
    }
}

/// The WKT definition of a PROJJSON text, or nothing where the text is not a
/// system that can be rendered faithfully.
pub fn projjson_to_wkt(text: &str) -> (r: Option<String>)
    ensures
        match r {
            Some(s) => structural_wkt_of(text@) == Some(s@),
            None => structural_wkt_of(text@) is None,
        },
{
    let v = match parse(text) {
        Ok(v) => v,
        Err(_) => {
            return None;
        },
    };
    let geographic = match text_in(&v, "type") {
        Some(t) => same_text(t, "GeographicCRS"),
        None => false,
    };
    if !geographic || !counts_in_degrees(&v) {
        return None;
    }
    match (name_in(&v, "name"), v.get("datum")) {
        (Some(name), Some(datum)) => match (
            name_in(datum, "name"),
            render_spheroid(datum),
            render_primem(datum),
        ) {
            (Some(datum_name), Some(spheroid), Some(primem)) => {
                let mut out = String::from_str("GEOGCS[\"");
                out.append(name);
                out.append("\",DATUM[\"");
                out.append(datum_name);
                out.append("\",");
                out.append(spheroid.as_str());
                out.append("],");
                out.append(primem.as_str());
                out.append(",UNIT[\"degree\",0.0174532925199433]]");
                Some(out)
            },
            _ => None,
        },
        _ => None,
    }
}

} // verus!
