//! From a WKT definition to a PROJJSON object.
//!
//! The translation is one of structure: every field is taken over from the
//! definition, and nothing is computed. A definition that cannot be rendered
//! faithfully is not rendered: readers trust the object that they are given.
use vstd::prelude::*;

use crate::crs::node::{
    child1, child2, child4, children_of, identifier_of, name_of, name_or, number_of, trees_view,
    word_of,
};
use crate::crs::wkt::{lemma_node_view, parse_wkt, tree_of, Node, Tree};
use crate::crs::wkt1_tables::{method, method_entry, param, param_entry, UnitKind};
use crate::decimal::{is_three_or_more, plain_unsigned, three_or_more, unsigned_plain};
use crate::json::value::{escape_into, string_text};
use crate::text::{
    chars_of, decimal, decimal_text, find_first, find_last, first_place, last_place, lower_text,
    same_text, signed_decimal, signed_decimal_text, text_between, to_lower, to_upper, trim_range,
    trimmed, uppercase_of,
};

verus! {

// --- pieces --------------------------------------------------------------------------

/// A name as a JSON string.
fn q(s: &str) -> (r: String)
    ensures
        r@ == string_text(s@),
{
    let mut out = String::new();
    escape_into(s, &mut out);
    assert(out@ =~= string_text(s@));
    out
}

/// A number's text as JSON writes it.
fn number(text: &str) -> (r: String)
    ensures
        r@ == unsigned_plain(text@),
{
    let chars = chars_of(text);
    plain_unsigned(chars.as_slice())
}

/// `{"authority":..,"code":..}`.
pub open spec fn id_object(authority: Seq<char>, code: Seq<char>) -> Seq<char> {
    "{\"authority\":"@ + string_text(authority) + ",\"code\":"@ + code + "}"@
}

fn render_id_object(authority: &str, code: &str) -> (r: String)
    ensures
        r@ == id_object(authority@, code@),
{
    let mut out = String::from_str("{\"authority\":");
    out.append(q(authority).as_str());
    out.append(",\"code\":");
    out.append(code);
    out.append("}");
    out
}

/// The `id` member of a node that states an identifier; nothing of one that
/// does not.
pub open spec fn id_member(t: Tree) -> Seq<char> {
    match identifier_of(t) {
        Some((authority, code)) => ",\"id\":"@ + id_object(authority, signed_decimal(code)),
        None => Seq::empty(),
    }
}

fn render_id_member(node: &Node) -> (r: String)
    ensures
        r@ == id_member(node@),
{
    match node.authority_code() {
        Some((authority, code)) => {
            let mut out = String::from_str(",\"id\":");
            out.append(render_id_object(authority, signed_decimal_text(code).as_str()).as_str());
            out
        },
        None => {
            let out = String::new();
            assert(out@ =~= Seq::<char>::empty());
            out
        },
    }
}

// --- units ---------------------------------------------------------------------------

/// A unit node as PROJJSON writes it: the name of a standard unit, and an object
/// with the conversion factor for another one. None where such a factor is
/// missing.
pub open spec fn unit_text(unit: Tree) -> Option<Seq<char>> {
    let name = name_or(unit, ""@);
    let n = lower_text(name);
    if n == "degree"@ {
        Some("\"degree\""@)
    } else if n == "metre"@ || n == "meter"@ {
        Some("\"metre\""@)
    } else if n == "unity"@ {
        Some("\"unity\""@)
    } else {
        match number_of(unit, 0) {
            None => None,
            Some(factor) => Some(
                "{\"type\":\""@ + unit_kind(unit.keyword) + "\",\"name\":"@ + string_text(name)
                    + ",\"conversion_factor\":"@ + unsigned_plain(factor) + "}"@,
            ),
        }
    }
}

/// The type of unit that a keyword stands for.
pub open spec fn unit_kind(keyword: Seq<char>) -> Seq<char> {
    let k = lower_text(keyword);
    if k == "angleunit"@ {
        "AngularUnit"@
    } else if k == "scaleunit"@ {
        "ScaleUnit"@
    } else {
        "LinearUnit"@
    }
}

/// A unit node as PROJJSON writes it.
fn unit_fragment(unit: &Node) -> (r: Option<String>)
    ensures
        match r {
            Some(s) => unit_text(unit@) == Some(s@),
            None => unit_text(unit@) is None,
        },
{
    proof {
        lemma_node_view(*unit);
    }
    let name = unit.first_str_or("");
    let lower = to_lower(name);
    let n = lower.as_str();
    if same_text(n, "degree") {
        return Some(String::from_str("\"degree\""));
    }
    if same_text(n, "metre") || same_text(n, "meter") {
        return Some(String::from_str("\"metre\""));
    }
    if same_text(n, "unity") {
        return Some(String::from_str("\"unity\""));
    }
    match unit.number(0) {
        None => None,
        Some(factor) => {
            let keyword = to_lower(unit.keyword.as_str());
            let kind = if same_text(keyword.as_str(), "angleunit") {
                "AngularUnit"
            } else if same_text(keyword.as_str(), "scaleunit") {
                "ScaleUnit"
            } else {
                "LinearUnit"
            };
            let mut out = String::from_str("{\"type\":\"");
            out.append(kind);
            out.append("\",\"name\":");
            out.append(q(name).as_str());
            out.append(",\"conversion_factor\":");
            out.append(number(factor).as_str());
            out.append("}");
            Some(out)
        },
    }
}

/// The unit of an optional node.
pub open spec fn unit_text_of(unit: Option<Tree>) -> Option<Seq<char>> {
    match unit {
        Some(u) => unit_text(u),
        None => None,
    }
}

fn unit_fragment_of(unit: Option<&Node>) -> (r: Option<String>)
    ensures
        match r {
            Some(s) => unit is Some && unit_text(unit->0@) == Some(s@),
            None => unit is None || unit_text(unit->0@) is None,
        },
{
    match unit {
        Some(u) => unit_fragment(u),
        None => None,
    }
}

/// The angular unit of a geographic system: its own, else its prime meridian's,
/// else degrees.
pub open spec fn angular_unit_text(geo: Tree) -> Seq<char> {
    let unit = match child2(geo, "ANGLEUNIT"@, "UNIT"@) {
        Some(u) => Some(u),
        None => match child2(geo, "PRIMEM"@, "PRIMEMERIDIAN"@) {
            Some(pm) => child2(pm, "ANGLEUNIT"@, "UNIT"@),
            None => None,
        },
    };
    match unit_text_of(unit) {
        Some(s) => s,
        None => "\"degree\""@,
    }
}

fn angular_unit(geo: &Node) -> (r: String)
    ensures
        r@ == angular_unit_text(geo@),
{
    let unit = match geo.child_of_two("ANGLEUNIT", "UNIT") {
        Some(u) => Some(u),
        None => match geo.child_of_two("PRIMEM", "PRIMEMERIDIAN") {
            Some(pm) => pm.child_of_two("ANGLEUNIT", "UNIT"),
            None => None,
        },
    };
    match unit_fragment_of(unit) {
        Some(s) => s,
        None => String::from_str("\"degree\""),
    }
}

/// A measure: its bare number where its unit is the expected one or not stated,
/// and an object with its unit otherwise.
pub open spec fn measure_text(
    value: Seq<char>,
    unit: Option<Seq<char>>,
    expected: Seq<char>,
) -> Seq<char> {
    match unit {
        Some(u) if u != expected => "{\"value\":"@ + unsigned_plain(value) + ",\"unit\":"@ + u + "}"@,
        _ => unsigned_plain(value),
    }
}

fn measure(value: &str, unit: &Option<String>, expected: &str) -> (r: String)
    ensures
        r@ == measure_text(value@, crate::text::opt_view(*unit), expected@),
{
    match unit {
        Some(u) => {
            if same_text(u.as_str(), expected) {
                number(value)
            } else {
                let mut out = String::from_str("{\"value\":");
                out.append(number(value).as_str());
                out.append(",\"unit\":");
                out.append(u.as_str());
                out.append("}");
                out
            }
        },
        None => number(value),
    }
}

// --- geographic systems --------------------------------------------------------------

/// The `ellipsoid` member of a datum or an ensemble. None where it has no
/// ellipsoid, or one without its two dimensions.
pub open spec fn ellipsoid_text(datum: Tree) -> Option<Seq<char>> {
    match child2(datum, "SPHEROID"@, "ELLIPSOID"@) {
        None => None,
        Some(e) => match (number_of(e, 0), number_of(e, 1)) {
            (Some(semi_major), Some(inverse_flattening)) => Some(
                "\"ellipsoid\":{\"name\":"@ + string_text(name_or(e, "unknown"@))
                    + ",\"semi_major_axis\":"@ + measure_text(
                    semi_major,
                    unit_text_of(child2(e, "LENGTHUNIT"@, "UNIT"@)),
                    "\"metre\""@,
                ) + ",\"inverse_flattening\":"@ + unsigned_plain(inverse_flattening) + "}"@,
            ),
            _ => None,
        },
    }
}

fn render_ellipsoid(datum: &Node) -> (r: Option<String>)
    ensures
        match r {
            Some(s) => ellipsoid_text(datum@) == Some(s@),
            None => ellipsoid_text(datum@) is None,
        },
{
    match datum.child_of_two("SPHEROID", "ELLIPSOID") {
        None => None,
        Some(e) => match (e.number(0), e.number(1)) {
            (Some(semi_major), Some(inverse_flattening)) => {
                let unit = unit_fragment_of(e.child_of_two("LENGTHUNIT", "UNIT"));
                let mut out = String::from_str("\"ellipsoid\":{\"name\":");
                out.append(q(e.first_str_or("unknown")).as_str());
                out.append(",\"semi_major_axis\":");
                out.append(measure(semi_major, &unit, "\"metre\"").as_str());
                out.append(",\"inverse_flattening\":");
                out.append(number(inverse_flattening).as_str());
                out.append("}");
                Some(out)
            },
            _ => None,
        },
    }
}

/// The `prime_meridian` member of a geographic system, where its prime meridian
/// is not Greenwich's, which is the default.
pub open spec fn prime_meridian_text(geo: Tree) -> Seq<char> {
    match child2(geo, "PRIMEM"@, "PRIMEMERIDIAN"@) {
        None => Seq::empty(),
        Some(pm) => match number_of(pm, 0) {
            None => Seq::empty(),
            Some(longitude) => {
                let unit = unit_text_of(child2(pm, "ANGLEUNIT"@, "UNIT"@));
                let in_degrees = unit is None || unit->0 == "\"degree\""@;
                if unsigned_plain(longitude) == "0"@ && in_degrees {
                    Seq::empty()
                } else {
                    ",\"prime_meridian\":{\"name\":"@ + string_text(name_or(pm, "unknown"@))
                        + ",\"longitude\":"@ + measure_text(longitude, unit, "\"degree\""@) + "}"@
                }
            },
        },
    }
}

fn prime_meridian(geo: &Node) -> (r: String)
    ensures
        r@ == prime_meridian_text(geo@),
{
    let none = String::new();
    assert(none@ =~= Seq::<char>::empty());
    match geo.child_of_two("PRIMEM", "PRIMEMERIDIAN") {
        None => none,
        Some(pm) => match pm.number(0) {
            None => none,
            Some(longitude) => {
                let unit = unit_fragment_of(pm.child_of_two("ANGLEUNIT", "UNIT"));
                let in_degrees = match &unit {
                    Some(u) => same_text(u.as_str(), "\"degree\""),
                    None => true,
                };
                if same_text(number(longitude).as_str(), "0") && in_degrees {
                    return none;
                }
                let mut out = String::from_str(",\"prime_meridian\":{\"name\":");
                out.append(q(pm.first_str_or("unknown")).as_str());
                out.append(",\"longitude\":");
                out.append(measure(longitude, &unit, "\"degree\"").as_str());
                out.append("}");
                out
            },
        },
    }
}

/// The `datum` or `datum_ensemble` member of a geographic system. An ensemble
/// without its accuracy is rendered as a datum, as the accuracy is required.
pub open spec fn datum_text(geo: Tree) -> Option<Seq<char>> {
    match child4(geo, "DATUM"@, "GEODETICDATUM"@, "TRF"@, "TRF"@) {
        Some(datum) => match ellipsoid_text(datum) {
            None => None,
            Some(e) => Some(
                "\"datum\":{\"type\":\"GeodeticReferenceFrame\",\"name\":"@ + string_text(
                    name_or(datum, "unknown"@),
                ) + ","@ + e + prime_meridian_text(geo) + "}"@,
            ),
        },
        None => match child1(geo, "ENSEMBLE"@) {
            None => None,
            Some(ensemble) => match ellipsoid_text(ensemble) {
                None => None,
                Some(e) => Some(ensemble_text(ensemble, e)),
            },
        },
    }
}

/// How accurate an ensemble is, as its definition writes it.
pub open spec fn accuracy_of(ensemble: Tree) -> Option<Seq<char>> {
    match child1(ensemble, "ENSEMBLEACCURACY"@) {
        Some(a) => word_of(a),
        None => None,
    }
}

pub open spec fn ensemble_text(ensemble: Tree, ellipsoid: Seq<char>) -> Seq<char> {
    let name = string_text(name_or(ensemble, "unknown"@));
    match accuracy_of(ensemble) {
        Some(accuracy) => "\"datum_ensemble\":{\"name\":"@ + name + ","@ + ellipsoid
            + ",\"accuracy\":"@ + string_text(accuracy) + "}"@,
        None => "\"datum\":{\"type\":\"GeodeticReferenceFrame\",\"name\":"@ + name + ","@
            + ellipsoid + "}"@,
    }
}

fn render_ensemble(ensemble: &Node, ellipsoid: &str) -> (r: String)
    ensures
        r@ == ensemble_text(ensemble@, ellipsoid@),
{
    let name = q(ensemble.first_str_or("unknown"));
    let accuracy = match ensemble.child("ENSEMBLEACCURACY") {
        Some(a) => a.first_word(),
        None => None,
    };
    match accuracy {
        Some(accuracy) => {
            let mut out = String::from_str("\"datum_ensemble\":{\"name\":");
            out.append(name.as_str());
            out.append(",");
            out.append(ellipsoid);
            out.append(",\"accuracy\":");
            out.append(q(accuracy).as_str());
            out.append("}");
            out
        },
        None => {
            let mut out = String::from_str(
                "\"datum\":{\"type\":\"GeodeticReferenceFrame\",\"name\":",
            );
            out.append(name.as_str());
            out.append(",");
            out.append(ellipsoid);
            out.append("}");
            out
        },
    }
}

fn render_datum(geo: &Node) -> (r: Option<String>)
    ensures
        match r {
            Some(s) => datum_text(geo@) == Some(s@),
            None => datum_text(geo@) is None,
        },
{
    match geo.child_of_four("DATUM", "GEODETICDATUM", "TRF", "TRF") {
        Some(datum) => match render_ellipsoid(datum) {
            None => None,
            Some(e) => {
                let mut out = String::from_str(
                    "\"datum\":{\"type\":\"GeodeticReferenceFrame\",\"name\":",
                );
                out.append(q(datum.first_str_or("unknown")).as_str());
                out.append(",");
                out.append(e.as_str());
                out.append(prime_meridian(geo).as_str());
                out.append("}");
                Some(out)
            },
        },
        None => match geo.child("ENSEMBLE") {
            None => None,
            Some(ensemble) => match render_ellipsoid(ensemble) {
                None => None,
                Some(e) => Some(render_ensemble(ensemble, e.as_str())),
            },
        },
    }
}

/// The coordinate system of a geographic system: latitude first, as the
/// authorities define it, and with a height where it has three dimensions.
pub open spec fn ellipsoidal_cs_text(geo: Tree, three: bool) -> Seq<char> {
    let unit = angular_unit_text(geo);
    let axes =
        "{\"name\":\"Geodetic latitude\",\"abbreviation\":\"Lat\",\"direction\":\"north\",\"unit\":"@
        + unit
        + "},{\"name\":\"Geodetic longitude\",\"abbreviation\":\"Lon\",\"direction\":\"east\",\"unit\":"@
        + unit + "}"@;
    let height =
        ",{\"name\":\"Ellipsoidal height\",\"abbreviation\":\"h\",\"direction\":\"up\",\"unit\":\"metre\"}"@;
    if three {
        "{\"subtype\":\"ellipsoidal\",\"axis\":["@ + axes + height + "]}"@
    } else {
        "{\"subtype\":\"ellipsoidal\",\"axis\":["@ + axes + "]}"@
    }
}

fn ellipsoidal_cs(geo: &Node, three: bool) -> (r: String)
    ensures
        r@ == ellipsoidal_cs_text(geo@, three),
{
    let unit = angular_unit(geo);
    let mut axes = String::from_str(
        "{\"name\":\"Geodetic latitude\",\"abbreviation\":\"Lat\",\"direction\":\"north\",\"unit\":",
    );
    axes.append(unit.as_str());
    axes.append(
        "},{\"name\":\"Geodetic longitude\",\"abbreviation\":\"Lon\",\"direction\":\"east\",\"unit\":",
    );
    axes.append(unit.as_str());
    axes.append("}");
    let mut out = String::from_str("{\"subtype\":\"ellipsoidal\",\"axis\":[");
    out.append(axes.as_str());
    if three {
        out.append(
            ",{\"name\":\"Ellipsoidal height\",\"abbreviation\":\"h\",\"direction\":\"up\",\"unit\":\"metre\"}",
        );
    }
    out.append("]}");
    out
}

/// Whether a geographic system states three dimensions or more.
pub open spec fn has_three_dimensions(t: Tree) -> bool {
    match child1(t, "CS"@) {
        Some(cs) => match number_of(cs, 0) {
            Some(n) => is_three_or_more(n),
            None => false,
        },
        None => false,
    }
}

fn geo_dimension(node: &Node) -> (r: bool)
    ensures
        r == has_three_dimensions(node@),
{
    match node.child("CS") {
        Some(cs) => match cs.number(0) {
            Some(n) => {
                let chars = chars_of(n);
                three_or_more(chars.as_slice())
            },
            None => false,
        },
        None => false,
    }
}

/// A geographic system as a PROJJSON object, with two or three axes.
pub open spec fn geographic_text(t: Tree, three: bool) -> Option<Seq<char>> {
    match (name_of(t), datum_text(t)) {
        (Some(name), Some(datum)) => Some(
            "{\"type\":\"GeographicCRS\",\"name\":"@ + string_text(name) + ","@ + datum
                + ",\"coordinate_system\":"@ + ellipsoidal_cs_text(t, three) + id_member(t) + "}"@,
        ),
        _ => None,
    }
}

fn render_geographic_dim(node: &Node, three: bool) -> (r: Option<String>)
    ensures
        match r {
            Some(s) => geographic_text(node@, three) == Some(s@),
            None => geographic_text(node@, three) is None,
        },
{
    match (node.first_str(), render_datum(node)) {
        (Some(name), Some(datum)) => {
            let mut out = String::from_str("{\"type\":\"GeographicCRS\",\"name\":");
            out.append(q(name).as_str());
            out.append(",");
            out.append(datum.as_str());
            out.append(",\"coordinate_system\":");
            out.append(ellipsoidal_cs(node, three).as_str());
            out.append(render_id_member(node).as_str());
            out.append("}");
            Some(out)
        },
        _ => None,
    }
}

// --- axes of projected systems -------------------------------------------------------

/// The name of an axis that is only known by its direction.
pub open spec fn default_name(direction: Seq<char>) -> Seq<char> {
    let d = lower_text(direction);
    if d == "east"@ {
        "Easting"@
    } else if d == "north"@ {
        "Northing"@
    } else if d == "west"@ {
        "Westing"@
    } else if d == "south"@ {
        "Southing"@
    } else {
        d
    }
}

fn default_axis_name(direction: &str) -> (r: String)
    ensures
        r@ == default_name(direction@),
{
    let d = to_lower(direction);
    if same_text(d.as_str(), "east") {
        String::from_str("Easting")
    } else if same_text(d.as_str(), "north") {
        String::from_str("Northing")
    } else if same_text(d.as_str(), "west") {
        String::from_str("Westing")
    } else if same_text(d.as_str(), "south") {
        String::from_str("Southing")
    } else {
        d
    }
}

/// The abbreviation of an axis that is only known by its direction: the letter
/// of a cardinal point, else the direction's first character.
pub open spec fn default_abbreviation(direction: Seq<char>) -> Seq<char> {
    let d = lower_text(direction);
    if d == "east"@ {
        "E"@
    } else if d == "north"@ {
        "N"@
    } else if d == "west"@ {
        "W"@
    } else if d == "south"@ {
        "S"@
    } else if d.len() > 0 {
        d.subrange(0, 1)
    } else {
        d
    }
}

fn default_axis_abbreviation(direction: &str) -> (r: String)
    ensures
        r@ == default_abbreviation(direction@),
{
    let d = to_lower(direction);
    if same_text(d.as_str(), "east") {
        String::from_str("E")
    } else if same_text(d.as_str(), "north") {
        String::from_str("N")
    } else if same_text(d.as_str(), "west") {
        String::from_str("W")
    } else if same_text(d.as_str(), "south") {
        String::from_str("S")
    } else {
        let chars = chars_of(d.as_str());
        if chars.len() > 0 {
            text_between(chars.as_slice(), 0, 1)
        } else {
            d
        }
    }
}

/// What an axis label says before its brackets and inside them: `name (ABBR)`.
pub open spec fn label_parts(label: Seq<char>) -> (Seq<char>, Seq<char>) {
    match (first_place(label, '(', 0), last_place(label, ')', label.len() as int)) {
        (Some(open), Some(close)) if close > open => (
            trimmed(label.subrange(0, open)),
            trimmed(label.subrange(open + 1, close)),
        ),
        _ => (trimmed(label), Seq::empty()),
    }
}

/// A text with its first character in upper case.
pub open spec fn capitalized(s: Seq<char>) -> Seq<char> {
    uppercase_of(s[0]) + s.skip(1)
}

/// The name and the abbreviation of an axis.
pub open spec fn axis_names(label: Seq<char>, direction: Seq<char>) -> (Seq<char>, Seq<char>) {
    let (name, abbreviation) = label_parts(label);
    (
        if name.len() == 0 {
            default_name(direction)
        } else {
            capitalized(name)
        },
        if abbreviation.len() == 0 {
            default_abbreviation(direction)
        } else {
            abbreviation
        },
    )
}

fn axis_name_abbreviation(label: &str, direction: &str) -> (r: (String, String))
    ensures
        (r.0@, r.1@) == axis_names(label@, direction@),
{
    let chars = chars_of(label);
    let s = chars.as_slice();
    let n: usize = s.len();
    let mut name_at: (usize, usize) = trim_range(s, 0, n);
    let mut abbr_at: (usize, usize) = (0, 0);
    proof {
        assert(s@.subrange(0, n as int) =~= label@);
        assert(s@.subrange(0, 0) =~= Seq::<char>::empty());
    }
    if let (Some(open), Some(close)) = (find_first(s, '(', 0), find_last(s, ')')) {
        if close > open {
            name_at = trim_range(s, 0, open);
            abbr_at = trim_range(s, open + 1, close);
        }
    }
    let ghost parts = label_parts(label@);
    assert(s@.subrange(name_at.0 as int, name_at.1 as int) == parts.0);
    assert(s@.subrange(abbr_at.0 as int, abbr_at.1 as int) == parts.1);
    let name = if name_at.0 == name_at.1 {
        default_axis_name(direction)
    } else {
        let mut name = to_upper(s[name_at.0]);
        name.append(text_between(s, name_at.0 + 1, name_at.1).as_str());
        assert(parts.0.skip(1) =~= s@.subrange(name_at.0 + 1, name_at.1 as int));
        name
    };
    let abbreviation = if abbr_at.0 == abbr_at.1 {
        default_axis_abbreviation(direction)
    } else {
        text_between(s, abbr_at.0, abbr_at.1)
    };
    (name, abbreviation)
}

/// The opening members of an axis object.
pub open spec fn axis_head(name: Seq<char>, abbreviation: Seq<char>, direction: Seq<char>) -> Seq<
    char,
> {
    "{\"name\":"@ + string_text(name) + ",\"abbreviation\":"@ + string_text(abbreviation)
        + ",\"direction\":"@ + string_text(direction)
}

fn render_axis_head(name: &str, abbreviation: &str, direction: &str) -> (r: String)
    ensures
        r@ == axis_head(name@, abbreviation@, direction@),
{
    let mut out = String::from_str("{\"name\":");
    out.append(q(name).as_str());
    out.append(",\"abbreviation\":");
    out.append(q(abbreviation).as_str());
    out.append(",\"direction\":");
    out.append(q(direction).as_str());
    out
}

/// The meridian along which an axis points, as a member of its object.
pub open spec fn meridian_member(axis: Tree) -> Seq<char> {
    match child1(axis, "MERIDIAN"@) {
        Some(m) => match number_of(m, 0) {
            Some(longitude) => ",\"meridian\":{\"longitude\":"@ + unsigned_plain(longitude) + "}"@,
            None => Seq::empty(),
        },
        None => Seq::empty(),
    }
}

fn render_meridian(axis: &Node) -> (r: String)
    ensures
        r@ == meridian_member(axis@),
{
    let none = String::new();
    assert(none@ =~= Seq::<char>::empty());
    match axis.child("MERIDIAN") {
        Some(m) => match m.number(0) {
            Some(longitude) => {
                let mut out = String::from_str(",\"meridian\":{\"longitude\":");
                out.append(number(longitude).as_str());
                out.append("}");
                out
            },
            None => none,
        },
        None => none,
    }
}

/// An axis as PROJJSON writes it, in WKT's second version (`linear` is None) with
/// its direction, meridian and unit as it states them, and in the first version
/// with its direction in lower case and the system's linear unit. None where it
/// has no direction.
pub open spec fn axis_text(axis: Tree, linear: Option<Seq<char>>) -> Option<Seq<char>> {
    match word_of(axis) {
        None => None,
        Some(word) => Some(
            match linear {
                Some(unit) => {
                    let direction = lower_text(word);
                    let names = axis_names(name_or(axis, ""@), direction);
                    axis_head(names.0, names.1, direction) + ",\"unit\":"@ + unit + "}"@
                },
                None => {
                    let names = axis_names(name_or(axis, ""@), word);
                    let unit = match unit_text_of(child2(axis, "LENGTHUNIT"@, "UNIT"@)) {
                        Some(u) => u,
                        None => "\"metre\""@,
                    };
                    axis_head(names.0, names.1, word) + meridian_member(axis) + ",\"unit\":"@ + unit
                        + "}"@
                },
            },
        ),
    }
}

fn render_axis(axis: &Node, linear: Option<&str>) -> (r: Option<String>)
    ensures
        match r {
            Some(s) => axis_text(axis@, linear_view(linear)) == Some(s@),
            None => axis_text(axis@, linear_view(linear)) is None,
        },
{
    match axis.first_word() {
        None => None,
        Some(word) => match linear {
            Some(unit) => {
                let direction = to_lower(word);
                let names = axis_name_abbreviation(axis.first_str_or(""), direction.as_str());
                let mut out = render_axis_head(
                    names.0.as_str(),
                    names.1.as_str(),
                    direction.as_str(),
                );
                out.append(",\"unit\":");
                out.append(unit);
                out.append("}");
                Some(out)
            },
            None => {
                let names = axis_name_abbreviation(axis.first_str_or(""), word);
                let unit = match unit_fragment_of(axis.child_of_two("LENGTHUNIT", "UNIT")) {
                    Some(u) => u,
                    None => String::from_str("\"metre\""),
                };
                let mut out = render_axis_head(names.0.as_str(), names.1.as_str(), word);
                out.append(render_meridian(axis).as_str());
                out.append(",\"unit\":");
                out.append(unit.as_str());
                out.append("}");
                Some(out)
            },
        },
    }
}

pub open spec fn linear_view(linear: Option<&str>) -> Option<Seq<char>> {
    match linear {
        Some(s) => Some(s@),
        None => None,
    }
}

/// The axes from `i` on, with commas between them, after those before; None
/// where one of them cannot be rendered.
pub open spec fn axes_from(
    axes: Seq<Tree>,
    i: int,
    linear: Option<Seq<char>>,
    so_far: Seq<char>,
) -> Option<Seq<char>>
    decreases axes.len() - i,
{
    if i < 0 || i >= axes.len() {
        Some(so_far)
    } else {
        match axis_text(axes[i], linear) {
            None => None,
            Some(t) => axes_from(
                axes,
                i + 1,
                linear,
                if i == 0 {
                    so_far + t
                } else {
                    so_far + ","@ + t
                },
            ),
        }
    }
}

/// The coordinate system of a projected system: its own axes where there are two
/// or more and all can be rendered, and else easting and northing.
pub open spec fn cartesian_text(t: Tree, linear: Option<Seq<char>>) -> Seq<char> {
    let axes = children_of(t, "AXIS"@);
    let own = axes_from(axes, 0, linear, Seq::empty());
    let unit = match linear {
        Some(u) => u,
        None => "\"metre\""@,
    };
    if axes.len() >= 2 && own is Some {
        "{\"subtype\":\"Cartesian\",\"axis\":["@ + own->0 + "]}"@
    } else {
        "{\"subtype\":\"Cartesian\",\"axis\":[{\"name\":\"Easting\",\"abbreviation\":\"E\",\"direction\":\"east\",\"unit\":"@
            + unit
            + "},{\"name\":\"Northing\",\"abbreviation\":\"N\",\"direction\":\"north\",\"unit\":"@
            + unit + "}]}"@
    }
}

fn render_axes(axes: &Vec<&Node>, linear: Option<&str>) -> (r: Option<String>)
    ensures
        match r {
            Some(s) => axes_from(trees_view(axes@), 0, linear_view(linear), Seq::empty()) == Some(
                s@,
            ),
            None => axes_from(trees_view(axes@), 0, linear_view(linear), Seq::empty()) is None,
        },
{
    let mut out = String::new();
    let mut i: usize = 0;
    assert(out@ =~= Seq::<char>::empty());
    while i < axes.len()
        invariant
            i <= axes@.len(),
            axes_from(trees_view(axes@), 0, linear_view(linear), Seq::empty()) == axes_from(
                trees_view(axes@),
                i as int,
                linear_view(linear),
                out@,
            ),
        decreases axes@.len() - i,
    {
        assert(trees_view(axes@)[i as int] == axes@[i as int]@);
        match render_axis(axes[i], linear) {
            None => {
                return None;
            },
            Some(t) => {
                if i > 0 {
                    out.append(",");
                }
                out.append(t.as_str());
            },
        }
        i += 1;
    }
    Some(out)
}

fn render_cartesian(root: &Node, linear: Option<&str>) -> (r: String)
    ensures
        r@ == cartesian_text(root@, linear_view(linear)),
{
    let axes = root.children("AXIS");
    assert(trees_view(axes@).len() == axes@.len());
    if axes.len() >= 2 {
        if let Some(own) = render_axes(&axes, linear) {
            let mut out = String::from_str("{\"subtype\":\"Cartesian\",\"axis\":[");
            out.append(own.as_str());
            out.append("]}");
            return out;
        }
    }
    let unit = match linear {
        Some(u) => u,
        None => "\"metre\"",
    };
    let mut out = String::from_str(
        "{\"subtype\":\"Cartesian\",\"axis\":[{\"name\":\"Easting\",\"abbreviation\":\"E\",\"direction\":\"east\",\"unit\":",
    );
    out.append(unit);
    out.append("},{\"name\":\"Northing\",\"abbreviation\":\"N\",\"direction\":\"north\",\"unit\":");
    out.append(unit);
    out.append("}]}");
    out
}

// --- parameters ----------------------------------------------------------------------

/// A parameter as PROJJSON writes it.
pub open spec fn parameter_object(
    name: Seq<char>,
    value: Seq<char>,
    unit: Seq<char>,
    id: Seq<char>,
) -> Seq<char> {
    "{\"name\":"@ + string_text(name) + ",\"value\":"@ + unsigned_plain(value) + ",\"unit\":"@ + unit
        + ",\"id\":"@ + id + "}"@
}

fn render_parameter_object(name: &str, value: &str, unit: &str, id: &str) -> (r: String)
    ensures
        r@ == parameter_object(name@, value@, unit@, id@),
{
    let mut out = String::from_str("{\"name\":");
    out.append(q(name).as_str());
    out.append(",\"value\":");
    out.append(number(value).as_str());
    out.append(",\"unit\":");
    out.append(unit);
    out.append(",\"id\":");
    out.append(id);
    out.append("}");
    out
}

/// What the parameters of WKT's first version take from their surroundings: the
/// projection method, and the units of angles and of lengths.
struct Setting {
    method: u64,
    angular: String,
    linear: String,
}

/// The mathematical form of what parameters take from their surroundings.
pub struct Around {
    pub method: int,
    pub angular: Seq<char>,
    pub linear: Seq<char>,
}

/// The unit that a kind of parameter is in.
pub open spec fn unit_of_kind(kind: UnitKind, around: Around) -> Seq<char> {
    match kind {
        UnitKind::Angular => around.angular,
        UnitKind::Linear => around.linear,
        UnitKind::Scale => "\"unity\""@,
    }
}

/// A parameter as PROJJSON writes it: in WKT's second version (`around` is None)
/// with the unit and identifier that it states, and in the first version with
/// those that the tables give it. None where something of it is missing.
pub open spec fn parameter_text(p: Tree, around: Option<Around>) -> Option<Seq<char>> {
    match (name_of(p), number_of(p, 0)) {
        (Some(name), Some(value)) => match around {
            None => match (
                unit_text_of(child4(p, "ANGLEUNIT"@, "LENGTHUNIT"@, "SCALEUNIT"@, "UNIT"@)),
                identifier_of(p),
            ) {
                (Some(unit), Some((authority, code))) => Some(
                    parameter_object(name, value, unit, id_object(authority, signed_decimal(code))),
                ),
                _ => None,
            },
            Some(a) => match param_entry(a.method, name) {
                Some((canonical, code, kind)) => Some(
                    parameter_object(
                        canonical,
                        value,
                        unit_of_kind(kind, a),
                        id_object("EPSG"@, decimal(code as nat)),
                    ),
                ),
                None => None,
            },
        },
        _ => None,
    }
}

spec fn setting_view(setting: Option<&Setting>) -> Option<Around> {
    match setting {
        Some(s) => Some(
            Around { method: s.method as int, angular: s.angular@, linear: s.linear@ },
        ),
        None => None,
    }
}

fn render_parameter(p: &Node, setting: Option<&Setting>) -> (r: Option<String>)
    ensures
        match r {
            Some(s) => parameter_text(p@, setting_view(setting)) == Some(s@),
            None => parameter_text(p@, setting_view(setting)) is None,
        },
{
    match (p.first_str(), p.number(0)) {
        (Some(name), Some(value)) => match setting {
            None => {
                let unit = unit_fragment_of(
                    p.child_of_four("ANGLEUNIT", "LENGTHUNIT", "SCALEUNIT", "UNIT"),
                );
                match (unit, p.authority_code()) {
                    (Some(unit), Some((authority, code))) => {
                        let id = render_id_object(authority, signed_decimal_text(code).as_str());
                        Some(render_parameter_object(name, value, unit.as_str(), id.as_str()))
                    },
                    _ => None,
                }
            },
            Some(s) => match param(s.method, name) {
                Some(entry) => {
                    let id = render_id_object("EPSG", decimal_text(entry.code).as_str());
                    let unit = match entry.kind {
                        UnitKind::Angular => s.angular.as_str(),
                        UnitKind::Linear => s.linear.as_str(),
                        UnitKind::Scale => "\"unity\"",
                    };
                    Some(render_parameter_object(entry.name, value, unit, id.as_str()))
                },
                None => None,
            },
        },
        _ => None,
    }
}

/// The parameters from `i` on, with commas between them, after those before;
/// None where one of them cannot be rendered.
pub open spec fn parameters_from(
    params: Seq<Tree>,
    i: int,
    around: Option<Around>,
    so_far: Seq<char>,
) -> Option<Seq<char>>
    decreases params.len() - i,
{
    if i < 0 || i >= params.len() {
        Some(so_far)
    } else {
        match parameter_text(params[i], around) {
            None => None,
            Some(t) => parameters_from(
                params,
                i + 1,
                around,
                if i == 0 {
                    so_far + t
                } else {
                    so_far + ","@ + t
                },
            ),
        }
    }
}

/// The parameters of a node; None where it has none, or one that cannot be
/// rendered.
pub open spec fn parameters_text(t: Tree, around: Option<Around>) -> Option<Seq<char>> {
    let params = children_of(t, "PARAMETER"@);
    if params.len() == 0 {
        None
    } else {
        parameters_from(params, 0, around, Seq::empty())
    }
}

fn render_parameters(node: &Node, setting: Option<&Setting>) -> (r: Option<String>)
    ensures
        match r {
            Some(s) => parameters_text(node@, setting_view(setting)) == Some(s@),
            None => parameters_text(node@, setting_view(setting)) is None,
        },
{
    let params = node.children("PARAMETER");
    let ghost all = trees_view(params@);
    assert(all.len() == params@.len());
    if params.len() == 0 {
        return None;
    }
    let mut out = String::new();
    let mut i: usize = 0;
    assert(out@ =~= Seq::<char>::empty());
    while i < params.len()
        invariant
            i <= params@.len(),
            all == trees_view(params@),
            parameters_from(all, 0, setting_view(setting), Seq::empty()) == parameters_from(
                all,
                i as int,
                setting_view(setting),
                out@,
            ),
            all == children_of(node@, "PARAMETER"@),
            all.len() > 0,
        decreases params@.len() - i,
    {
        assert(all[i as int] == params@[i as int]@);
        match render_parameter(params[i], setting) {
            None => {
                return None;
            },
            Some(t) => {
                if i > 0 {
                    out.append(",");
                }
                out.append(t.as_str());
            },
        }
        i += 1;
    }
    Some(out)
}

// --- projected systems ---------------------------------------------------------------

/// The parts of a projected system, put together.
pub open spec fn projected_object(
    name: Seq<char>,
    base: Seq<char>,
    conversion: Seq<char>,
    method_name: Seq<char>,
    method_id: Seq<char>,
    parameters: Seq<char>,
    axes: Seq<char>,
    id: Seq<char>,
) -> Seq<char> {
    "{\"type\":\"ProjectedCRS\",\"name\":"@ + string_text(name) + ",\"base_crs\":"@ + base
        + ",\"conversion\":{\"name\":"@ + string_text(conversion) + ",\"method\":{\"name\":"@
        + string_text(method_name) + ",\"id\":"@ + method_id + "},\"parameters\":["@ + parameters
        + "]},\"coordinate_system\":"@ + axes + id + "}"@
}

fn render_projected_object(
    name: &str,
    base: &str,
    conversion: &str,
    method_name: &str,
    method_id: &str,
    parameters: &str,
    axes: &str,
    id: &str,
) -> (r: String)
    ensures
        r@ == projected_object(
            name@,
            base@,
            conversion@,
            method_name@,
            method_id@,
            parameters@,
            axes@,
            id@,
        ),
{
    let mut out = String::from_str("{\"type\":\"ProjectedCRS\",\"name\":");
    out.append(q(name).as_str());
    out.append(",\"base_crs\":");
    out.append(base);
    out.append(",\"conversion\":{\"name\":");
    out.append(q(conversion).as_str());
    out.append(",\"method\":{\"name\":");
    out.append(q(method_name).as_str());
    out.append(",\"id\":");
    out.append(method_id);
    out.append("},\"parameters\":[");
    out.append(parameters);
    out.append("]},\"coordinate_system\":");
    out.append(axes);
    out.append(id);
    out.append("}");
    out
}

/// The base of a projected system: it has as many axes as the projected system.
pub open spec fn base_text(t: Tree, base: Option<Tree>) -> Option<Seq<char>> {
    match base {
        Some(b) => geographic_text(b, children_of(t, "AXIS"@).len() >= 3),
        None => None,
    }
}

fn render_base(root: &Node, base: Option<&Node>) -> (r: Option<String>)
    ensures
        match r {
            Some(s) => base is Some && base_text(root@, Some(base->0@)) == Some(s@),
            None => base is None || base_text(root@, Some(base->0@)) is None,
        },
{
    match base {
        Some(b) => {
            let axes = root.children("AXIS");
            assert(trees_view(axes@).len() == axes@.len());
            render_geographic_dim(b, axes.len() >= 3)
        },
        None => None,
    }
}

/// A projected system of WKT's second version as a PROJJSON object: its base,
/// its conversion, whose method and parameters state their identifiers, and its
/// axes. None where something of it is missing.
pub open spec fn projected_text(t: Tree) -> Option<Seq<char>> {
    let base = base_text(t, child4(t, "BASEGEOGCRS"@, "BASEGEODCRS"@, "GEOGCS"@, "GEOGCRS"@));
    match (name_of(t), base, child2(t, "CONVERSION"@, "DERIVINGCONVERSION"@)) {
        (Some(name), Some(base), Some(conversion)) => match child2(
            conversion,
            "METHOD"@,
            "PROJECTION"@,
        ) {
            None => None,
            Some(m) => match (
                name_of(m),
                identifier_of(m),
                parameters_text(conversion, None),
            ) {
                (Some(method_name), Some((authority, code)), Some(parameters)) => Some(
                    projected_object(
                        name,
                        base,
                        name_or(conversion, "unnamed"@),
                        method_name,
                        id_object(authority, signed_decimal(code)),
                        parameters,
                        cartesian_text(t, None),
                        id_member(t),
                    ),
                ),
                _ => None,
            },
        },
        _ => None,
    }
}

fn render_projected(root: &Node) -> (r: Option<String>)
    ensures
        match r {
            Some(s) => projected_text(root@) == Some(s@),
            None => projected_text(root@) is None,
        },
{
    let base = render_base(
        root,
        root.child_of_four("BASEGEOGCRS", "BASEGEODCRS", "GEOGCS", "GEOGCRS"),
    );
    match (root.first_str(), base, root.child_of_two("CONVERSION", "DERIVINGCONVERSION")) {
        (Some(name), Some(base), Some(conversion)) => match conversion.child_of_two(
            "METHOD",
            "PROJECTION",
        ) {
            None => None,
            Some(m) => match (
                m.first_str(),
                m.authority_code(),
                render_parameters(conversion, None),
            ) {
                (Some(method_name), Some((authority, code)), Some(parameters)) => Some(
                    render_projected_object(
                        name,
                        base.as_str(),
                        conversion.first_str_or("unnamed"),
                        method_name,
                        render_id_object(authority, signed_decimal_text(code).as_str()).as_str(),
                        parameters.as_str(),
                        render_cartesian(root, None).as_str(),
                        render_id_member(root).as_str(),
                    ),
                ),
                _ => None,
            },
        },
        _ => None,
    }
}

/// The linear unit of a projected system of WKT's first version; metres where it
/// states none.
pub open spec fn linear_unit_text(t: Tree) -> Seq<char> {
    match unit_text_of(child1(t, "UNIT"@)) {
        Some(u) => u,
        None => "\"metre\""@,
    }
}

fn linear_unit(root: &Node) -> (r: String)
    ensures
        r@ == linear_unit_text(root@),
{
    match unit_fragment_of(root.child("UNIT")) {
        Some(u) => u,
        None => String::from_str("\"metre\""),
    }
}

/// A projected system of WKT's first version as a PROJJSON object. Its method
/// and parameters get their names and identifiers from the tables. None where
/// the tables lack one of them, where something is missing, and where axes are
/// not stated and cannot be taken to be easting and northing.
pub open spec fn projected_wkt1_text(t: Tree) -> Option<Seq<char>> {
    let geo = child2(t, "GEOGCS"@, "GEOGCRS"@);
    match (name_of(t), geo, child1(t, "PROJECTION"@)) {
        (Some(name), Some(geo), Some(projection)) => match name_of(projection) {
            None => None,
            Some(p) => match method_entry(p) {
                None => None,
                Some((method_name, code, safe)) => if children_of(t, "AXIS"@).len() == 0 && !safe {
                    None
                } else {
                    match (
                        base_text(t, Some(geo)),
                        parameters_text(
                            t,
                            Some(
                                (Around {
                                    method: code,
                                    angular: angular_unit_text(geo),
                                    linear: linear_unit_text(t),
                                }),
                            ),
                        ),
                    ) {
                        (Some(base), Some(parameters)) => Some(
                            projected_object(
                                name,
                                base,
                                "unnamed"@,
                                method_name,
                                id_object("EPSG"@, decimal(code as nat)),
                                parameters,
                                cartesian_text(t, Some(linear_unit_text(t))),
                                id_member(t),
                            ),
                        ),
                        _ => None,
                    }
                },
            },
        },
        _ => None,
    }
}

fn render_projected_wkt1(root: &Node) -> (r: Option<String>)
    ensures
        match r {
            Some(s) => projected_wkt1_text(root@) == Some(s@),
            None => projected_wkt1_text(root@) is None,
        },
{
    match (root.first_str(), root.child_of_two("GEOGCS", "GEOGCRS"), root.child("PROJECTION")) {
        (Some(name), Some(geo), Some(projection)) => {
            let m = match projection.first_str() {
                None => {
                    return None;
                },
                Some(p) => match method(p) {
                    None => {
                        return None;
                    },
                    Some(m) => m,
                },
            };
            let axes = root.children("AXIS");
            assert(trees_view(axes@).len() == axes@.len());
            if axes.len() == 0 && !m.en_default_safe {
                return None;
            }
            let setting = Setting {
                method: m.code,
                angular: angular_unit(geo),
                linear: linear_unit(root),
            };
            match (render_base(root, Some(geo)), render_parameters(root, Some(&setting))) {
                (Some(base), Some(parameters)) => Some(
                    render_projected_object(
                        name,
                        base.as_str(),
                        "unnamed",
                        m.name,
                        render_id_object("EPSG", decimal_text(m.code).as_str()).as_str(),
                        parameters.as_str(),
                        render_cartesian(root, Some(setting.linear.as_str())).as_str(),
                        render_id_member(root).as_str(),
                    ),
                ),
                _ => None,
            }
        },
        _ => None,
    }
}

/// The PROJJSON object that a WKT tree is rendered as: geographic systems of
/// both versions, and projected ones of each. Nothing else is rendered.
pub open spec fn rendered(t: Tree) -> Option<Seq<char>> {
    let k = lower_text(t.keyword);
    if k == "geogcs"@ || k == "geogcrs"@ {
        geographic_text(t, has_three_dimensions(t))
    } else if k == "projcrs"@ || k == "projectedcrs"@ {
        projected_text(t)
    } else if k == "projcs"@ {
        projected_wkt1_text(t)
    } else {
        None
    }
}

/// The PROJJSON object that a WKT text is rendered as.
pub open spec fn translated(wkt: Seq<char>) -> Option<Seq<char>> {
    match tree_of(wkt) {
        Some(t) => rendered(t),
        None => None,
    }
}

/// The PROJJSON object of a WKT definition, or nothing where the definition is
/// not one that can be rendered faithfully.
pub fn wkt_to_projjson(wkt: &str) -> (r: Option<String>)
    ensures
        match r {
            Some(s) => translated(wkt@) == Some(s@),
            None => translated(wkt@) is None,
        },
{
    match parse_wkt(wkt) {
        None => None,
        Some(root) => {
            proof {
                lemma_node_view(root);
            }
            let keyword = to_lower(root.keyword.as_str());
            let k = keyword.as_str();
            if same_text(k, "geogcs") || same_text(k, "geogcrs") {
                let three = geo_dimension(&root);
                render_geographic_dim(&root, three)
            } else if same_text(k, "projcrs") || same_text(k, "projectedcrs") {
                render_projected(&root)
            } else if same_text(k, "projcs") {
                render_projected_wkt1(&root)
            } else {
                None
            }
        },
    }
}

} // verus!
