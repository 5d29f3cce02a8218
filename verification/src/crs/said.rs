//! What a PROJJSON object says of the definition that it was rendered of.
use vstd::prelude::*;

use super::node::{
    child1, child2, child4, children_of, identifier_of, name_of, name_or, number_of, word_of,
};
use super::rendered_json::{is_finite_tree, law_rendered_definition_is_an_object};
use super::wkt::{tree_of, Tree};
use super::wkt1_tables::{method_entry, param_entry, UnitKind};
use super::wkt_projjson::{axis_names, translated};
use crate::json::parser::document;
use crate::json::value::Json;
use crate::text::{lower_text, signed_decimal};
use crate::worth::{is_tiny_text, same_number};

verus! {

// --- values --------------------------------------------------------------------------------

/// Whether a member is a string.
pub open spec fn has_text(v: Json, key: Seq<char>, s: Seq<char>) -> bool {
    v.member(key) == Some(Json::String(s))
}

/// Whether a value is the number that a text stands for. Of a number below 1e-324 it is
/// only said that it is one.
#[verifier::opaque]
pub open spec fn is_number(v: Json, t: Seq<char>) -> bool {
    v is Number && (is_tiny_text(t) || same_number(t, v->text))
}

/// Whether a member is the number that a text stands for.
pub open spec fn has_number(v: Json, key: Seq<char>, t: Seq<char>) -> bool {
    v.member(key) matches Some(n) && is_number(n, t)
}

/// Whether a value names an authority and its code.
#[verifier::opaque]
pub open spec fn is_id(v: Json, authority: Seq<char>, code: int) -> bool {
    &&& has_text(v, "authority"@, authority)
    &&& v.member("code"@) == Some((Json::Number { text: signed_decimal(code), is_int: true }))
}

/// Whether an object has the identifier that a node states, and none where it states none.
pub open spec fn has_id(v: Json, t: Tree) -> bool {
    match identifier_of(t) {
        Some((authority, code)) => v.member("id"@) matches Some(o) && is_id(o, authority, code),
        None => v.member("id"@) is None,
    }
}

// --- units ---------------------------------------------------------------------------------

/// Whether a unit has a name, in any case and either spelling.
pub open spec fn is_called(u: Tree, name: Seq<char>) -> bool {
    let n = lower_text(name_or(u, ""@));
    n == name || (name == "metre"@ && n == "meter"@)
}

/// Whether a unit is one that PROJJSON has a name for.
pub open spec fn is_standard(u: Tree) -> bool {
    is_called(u, "degree"@) || is_called(u, "metre"@) || is_called(u, "unity"@)
}

/// Whether a unit is there, and one that PROJJSON has a name for or one with a factor.
pub open spec fn is_stated(u: Option<Tree>) -> bool {
    u matches Some(u) && (is_standard(u) || number_of(u, 0) is Some)
}

/// Whether a value is a unit: the name of one that PROJJSON has a name for, and else an
/// object with the unit's own name and its own factor.
#[verifier::opaque]
pub open spec fn is_unit(v: Json, u: Tree) -> bool {
    match v {
        Json::String(s) => is_called(u, s) && (s == "degree"@ || s == "metre"@ || s == "unity"@),
        Json::Object(_) => {
            &&& !is_standard(u)
            &&& has_text(v, "name"@, name_or(u, ""@))
            &&& number_of(u, 0) matches Some(factor) && has_number(v, "conversion_factor"@, factor)
            &&& has_text(
                v,
                "type"@,
                if lower_text(u.keyword) == "angleunit"@ {
                    "AngularUnit"@
                } else if lower_text(u.keyword) == "scaleunit"@ {
                    "ScaleUnit"@
                } else {
                    "LinearUnit"@
                },
            )
        },
        _ => false,
    }
}

/// Whether a value is a unit that is stated, and another one where none is.
pub open spec fn is_unit_or(v: Json, u: Option<Tree>, other: Seq<char>) -> bool {
    if is_stated(u) {
        is_unit(v, u->0)
    } else {
        v == Json::String(other)
    }
}

/// The unit of angles that a geographic system states: its own, else its prime meridian's.
pub open spec fn stated_angle(geo: Tree) -> Option<Tree> {
    match child2(geo, "ANGLEUNIT"@, "UNIT"@) {
        Some(u) => Some(u),
        None => match child2(geo, "PRIMEM"@, "PRIMEMERIDIAN"@) {
            Some(pm) => child2(pm, "ANGLEUNIT"@, "UNIT"@),
            None => None,
        },
    }
}

/// Whether a value is a number in a unit: bare in the expected one, and else with its unit.
pub open spec fn is_measure(
    v: Json,
    value: Seq<char>,
    unit: Option<Tree>,
    expected: Seq<char>,
) -> bool {
    if is_stated(unit) && !is_called(unit->0, expected) {
        has_number(v, "value"@, value) && (v.member("unit"@) matches Some(u) && is_unit(u, unit->0))
    } else {
        is_number(v, value)
    }
}

// --- geographic systems --------------------------------------------------------------------

/// Whether a value is an ellipsoid: its name, its larger axis and its inverse flattening.
pub open spec fn is_ellipsoid(v: Json, e: Tree) -> bool {
    &&& has_text(v, "name"@, name_or(e, "unknown"@))
    &&& number_of(e, 0) matches Some(axis) && (v.member("semi_major_axis"@) matches Some(m)
        && is_measure(m, axis, child2(e, "LENGTHUNIT"@, "UNIT"@), "metre"@))
    &&& number_of(e, 1) matches Some(flattening) && has_number(
        v,
        "inverse_flattening"@,
        flattening,
    )
}

/// Whether an object has the ellipsoid of a datum.
pub open spec fn has_ellipsoid(v: Json, datum: Tree) -> bool {
    child2(datum, "SPHEROID"@, "ELLIPSOID"@) matches Some(e) && (v.member("ellipsoid"@) matches Some(
        o,
    ) && is_ellipsoid(o, e))
}

/// Whether a number is zero, or too small to be told from it.
pub open spec fn is_zero(t: Seq<char>) -> bool {
    is_tiny_text(t) || same_number(t, "0"@)
}

/// Whether an object has the prime meridian of a geographic system, which may be left out
/// only where there is none or it is the one of Greenwich.
pub open spec fn has_prime_meridian(v: Json, geo: Tree) -> bool {
    let pm = child2(geo, "PRIMEM"@, "PRIMEMERIDIAN"@);
    match v.member("prime_meridian"@) {
        Some(m) => pm matches Some(pm) && (number_of(pm, 0) matches Some(longitude) && has_text(
            m,
            "name"@,
            name_or(pm, "unknown"@),
        ) && (m.member("longitude"@) matches Some(x) && is_measure(
            x,
            longitude,
            child2(pm, "ANGLEUNIT"@, "UNIT"@),
            "degree"@,
        ))),
        None => pm matches Some(pm) ==> number_of(pm, 0) matches Some(longitude) ==> {
            let unit = child2(pm, "ANGLEUNIT"@, "UNIT"@);
            is_zero(longitude) && (is_stated(unit) ==> is_called(unit->0, "degree"@))
        },
    }
}

/// Whether a value is a datum with a name and the ellipsoid of a node.
pub open spec fn is_frame(v: Json, datum: Tree) -> bool {
    &&& has_text(v, "type"@, "GeodeticReferenceFrame"@)
    &&& has_text(v, "name"@, name_or(datum, "unknown"@))
    &&& has_ellipsoid(v, datum)
}

/// Whether an object has the datum of a geographic system, or the ensemble of datums that
/// stands for it.
pub open spec fn has_datum(v: Json, geo: Tree) -> bool {
    match child4(geo, "DATUM"@, "GEODETICDATUM"@, "TRF"@, "TRF"@) {
        Some(datum) => v.member("datum"@) matches Some(o) && is_frame(o, datum)
            && has_prime_meridian(o, geo),
        None => child1(geo, "ENSEMBLE"@) matches Some(ensemble) && {
            let accuracy = match child1(ensemble, "ENSEMBLEACCURACY"@) {
                Some(a) => word_of(a),
                None => None,
            };
            match accuracy {
                Some(a) => v.member("datum_ensemble"@) matches Some(o) && has_text(
                    o,
                    "name"@,
                    name_or(ensemble, "unknown"@),
                ) && has_ellipsoid(o, ensemble) && has_text(o, "accuracy"@, a),
                None => v.member("datum"@) matches Some(o) && is_frame(o, ensemble),
            }
        },
    }
}

/// Whether a value is an axis with a name, an abbreviation and a direction.
pub open spec fn is_axis(
    v: Json,
    name: Seq<char>,
    abbreviation: Seq<char>,
    direction: Seq<char>,
    unit: Json,
) -> bool {
    &&& has_text(v, "name"@, name)
    &&& has_text(v, "abbreviation"@, abbreviation)
    &&& has_text(v, "direction"@, direction)
    &&& v.member("unit"@) == Some(unit)
}

/// Whether a value is a coordinate system of a kind with axes.
pub open spec fn has_axes(v: Json, kind: Seq<char>, axes: Seq<Json>) -> bool {
    has_text(v, "subtype"@, kind) && v.member("axis"@) == Some(Json::Array(axes))
}

/// Whether a value is latitude and longitude in a unit, and a height where there are three.
pub open spec fn is_ellipsoidal(v: Json, unit: Json, three: bool) -> bool {
    exists|axes: Seq<Json>| #[trigger]
        has_axes(v, "ellipsoidal"@, axes) && axes.len() == (if three {
            3nat
        } else {
            2nat
        }) && is_axis(axes[0], "Geodetic latitude"@, "Lat"@, "north"@, unit) && is_axis(
            axes[1],
            "Geodetic longitude"@,
            "Lon"@,
            "east"@,
            unit,
        ) && (three ==> is_axis(
            axes[2],
            "Ellipsoidal height"@,
            "h"@,
            "up"@,
            Json::String("metre"@),
        ))
}

/// Whether a value says what a geographic system does.
pub open spec fn is_geographic(v: Json, t: Tree, three: bool) -> bool {
    &&& has_text(v, "type"@, "GeographicCRS"@)
    &&& name_of(t) matches Some(name) && has_text(v, "name"@, name)
    &&& has_datum(v, t)
    &&& v.member("coordinate_system"@) matches Some(cs) && exists|unit: Json| #[trigger]
        is_ellipsoidal(cs, unit, three) && is_unit_or(unit, stated_angle(t), "degree"@)
    &&& has_id(v, t)
}

// --- projected systems ---------------------------------------------------------------------

/// Whether an axis has the meridian along which it points.
pub open spec fn has_meridian(v: Json, axis: Tree) -> bool {
    let longitude = match child1(axis, "MERIDIAN"@) {
        Some(m) => number_of(m, 0),
        None => None,
    };
    match longitude {
        Some(x) => v.member("meridian"@) matches Some(m) && has_number(m, "longitude"@, x),
        None => v.member("meridian"@) is None,
    }
}

/// Whether a value says what an axis does: in the first version of WKT its direction in
/// lower case and the unit of the system, and in the second one what it states itself.
pub open spec fn says_axis(v: Json, axis: Tree, unit: Option<Json>) -> bool {
    word_of(axis) matches Some(word) && {
        let direction = match unit {
            Some(_) => lower_text(word),
            None => word,
        };
        let names = axis_names(name_or(axis, ""@), direction);
        &&& has_text(v, "direction"@, direction)
        &&& has_text(v, "name"@, names.0)
        &&& has_text(v, "abbreviation"@, names.1)
        &&& v.member("unit"@) matches Some(own) && match unit {
            Some(u) => own == u,
            None => is_unit_or(own, child2(axis, "LENGTHUNIT"@, "UNIT"@), "metre"@),
        }
        &&& match unit {
            Some(_) => v.member("meridian"@) is None,
            None => has_meridian(v, axis),
        }
    }
}

/// Whether a system states its axes: two or more, and the direction of each.
pub open spec fn states_axes(t: Tree) -> bool {
    let axes = children_of(t, "AXIS"@);
    axes.len() >= 2 && forall|i: int| 0 <= i < axes.len() ==> word_of(#[trigger] axes[i]) is Some
}

/// Whether values are the axes of a system in their order, or easting and northing where
/// it does not state them.
pub open spec fn are_axes(items: Seq<Json>, t: Tree, unit: Option<Json>) -> bool {
    let axes = children_of(t, "AXIS"@);
    let u = match unit {
        Some(u) => u,
        None => Json::String("metre"@),
    };
    if states_axes(t) {
        items.len() == axes.len() && forall|i: int|
            0 <= i < items.len() ==> says_axis(#[trigger] items[i], axes[i], unit)
    } else {
        items.len() == 2 && is_axis(items[0], "Easting"@, "E"@, "east"@, u) && is_axis(
            items[1],
            "Northing"@,
            "N"@,
            "north"@,
            u,
        )
    }
}

/// Whether an object has the axes of a projected system.
pub open spec fn has_coordinates(v: Json, t: Tree, unit: Option<Json>) -> bool {
    v.member("coordinate_system"@) matches Some(cs) && exists|axes: Seq<Json>| #[trigger]
        has_axes(cs, "Cartesian"@, axes) && are_axes(axes, t, unit)
}

/// The units that parameters of the first version of WKT are in, and their method.
pub struct Units {
    pub method: int,
    pub angular: Json,
    pub linear: Json,
}

/// Whether a value says what a parameter does: in the second version of WKT with the unit
/// and identifier that it states, and in the first one with those of its kind.
pub open spec fn says_parameter(v: Json, p: Tree, units: Option<Units>) -> bool {
    &&& number_of(p, 0) matches Some(x) && has_number(v, "value"@, x)
    &&& name_of(p) matches Some(name) && match units {
        None => {
            let unit = child4(p, "ANGLEUNIT"@, "LENGTHUNIT"@, "SCALEUNIT"@, "UNIT"@);
            &&& has_text(v, "name"@, name)
            &&& is_stated(unit)
            &&& v.member("unit"@) matches Some(u) && is_unit(u, unit->0)
            &&& identifier_of(p) is Some
            &&& has_id(v, p)
        },
        Some(a) => param_entry(a.method, name) matches Some((canonical, code, kind)) && {
            &&& has_text(v, "name"@, canonical)
            &&& v.member("unit"@) == Some(
                match kind {
                    UnitKind::Angular => a.angular,
                    UnitKind::Linear => a.linear,
                    UnitKind::Scale => Json::String("unity"@),
                },
            )
            &&& v.member("id"@) matches Some(o) && is_id(o, "EPSG"@, code)
        },
    }
}

/// Whether values are the parameters of a node, in their order.
pub open spec fn are_parameters(items: Seq<Json>, t: Tree, units: Option<Units>) -> bool {
    let params = children_of(t, "PARAMETER"@);
    items.len() == params.len() && forall|i: int|
        0 <= i < items.len() ==> says_parameter(#[trigger] items[i], params[i], units)
}

/// Whether an object has a conversion of a name, by a method, with parameters.
pub open spec fn has_conversion(
    v: Json,
    name: Seq<char>,
    method: Seq<char>,
    authority: Seq<char>,
    code: int,
    parameters: Seq<Json>,
) -> bool {
    v.member("conversion"@) matches Some(c) && {
        &&& has_text(c, "name"@, name)
        &&& c.member("method"@) matches Some(m) && has_text(m, "name"@, method) && (m.member("id"@)
            matches Some(o) && is_id(o, authority, code))
        &&& c.member("parameters"@) == Some(Json::Array(parameters))
    }
}

/// Whether a value is a projected system with the name and the identifier of a node, and
/// with a base.
pub open spec fn is_projected_on(v: Json, t: Tree, base: Tree) -> bool {
    &&& has_text(v, "type"@, "ProjectedCRS"@)
    &&& name_of(t) matches Some(name) && has_text(v, "name"@, name)
    &&& v.member("base_crs"@) matches Some(b) && is_geographic(
        b,
        base,
        children_of(t, "AXIS"@).len() >= 3,
    )
    &&& has_id(v, t)
}

/// Whether a value says what a projected system of the second version of WKT does.
pub open spec fn is_projected(v: Json, t: Tree) -> bool {
    &&& child4(t, "BASEGEOGCRS"@, "BASEGEODCRS"@, "GEOGCS"@, "GEOGCRS"@) matches Some(base)
        && is_projected_on(v, t, base)
    &&& has_coordinates(v, t, None)
    &&& child2(t, "CONVERSION"@, "DERIVINGCONVERSION"@) matches Some(c) && (child2(
        c,
        "METHOD"@,
        "PROJECTION"@,
    ) matches Some(m) && (name_of(m) matches Some(method) && (identifier_of(m) matches Some(id)
        && exists|items: Seq<Json>| #[trigger]
        has_conversion(v, name_or(c, "unnamed"@), method, id.0, id.1, items) && are_parameters(
            items,
            c,
            None,
        ))))
}

/// Whether a value says what a projected system of the first version of WKT does.
pub open spec fn is_projected_wkt1(v: Json, t: Tree) -> bool {
    child2(t, "GEOGCS"@, "GEOGCRS"@) matches Some(geo) && is_projected_on(v, t, geo)
        && exists|units: Units| #[trigger] is_wkt1_in(v, t, geo, units)
}

/// Whether a value says what a projected system of the first version of WKT does, in units
/// that are those that it states.
pub open spec fn is_wkt1_in(v: Json, t: Tree, geo: Tree, units: Units) -> bool {
    &&& is_unit_or(units.linear, child1(t, "UNIT"@), "metre"@)
    &&& is_unit_or(units.angular, stated_angle(geo), "degree"@)
    &&& has_coordinates(v, t, Some(units.linear))
    &&& child1(t, "PROJECTION"@) matches Some(p) && (name_of(p) matches Some(name) && (method_entry(
        name,
    ) matches Some((method, code, safe)) && units.method == code && exists|items: Seq<Json>| #[trigger]
        has_conversion(v, "unnamed"@, method, "EPSG"@, code, items) && are_parameters(
            items,
            t,
            Some(units),
        )))
}

// --- axes ----------------------------------------------------------------------------------

/// The axes of a projected system of the first version of WKT are as many as it states,
/// each with the direction of its own and in the system's own unit: metres where that is
/// what the unit is called, and else a unit of its name and its factor.
pub proof fn law_axes_say_what_is_stated(wkt: Seq<char>, t: Tree, i: int)
    requires
        tree_of(wkt) == Some(t),
        is_finite_tree(t),
        lower_text(t.keyword) == "projcs"@,
        translated(wkt) is Some,
        states_axes(t),
        0 <= i < children_of(t, "AXIS"@).len(),
    ensures
        document(translated(wkt)->0) matches Ok(v) && (v.member("coordinate_system"@) matches Some(
            cs,
        ) && (cs.member("axis"@) matches Some(Json::Array(axes)) && {
            let stated = children_of(t, "AXIS"@);
            &&& axes.len() == stated.len()
            &&& axes[i].member("direction"@) == Some(
                Json::String(lower_text(word_of(stated[i])->0)),
            )
            &&& axes[i].member("unit"@) matches Some(unit) && match child1(t, "UNIT"@) {
                None => unit == Json::String("metre"@),
                Some(u) => {
                    let name = lower_text(name_or(u, ""@));
                    if name == "metre"@ || name == "meter"@ {
                        unit == Json::String("metre"@)
                    } else if name != "degree"@ && name != "unity"@ && number_of(u, 0) is Some {
                        &&& unit.member("name"@) == Some(Json::String(name_or(u, ""@)))
                        &&& unit.member("conversion_factor"@) matches Some(f) && f is Number && (
                        is_tiny_text(number_of(u, 0)->0) || same_number(
                            number_of(u, 0)->0,
                            f->text,
                        ))
                    } else {
                        true
                    }
                },
            }
        })),
{
    law_rendered_definition_is_an_object(wkt);
    let v = document(translated(wkt)->0)->Ok_0;
    assert(is_projected_wkt1(v, t)) by {
        reveal_strlit("projcs");
        reveal_strlit("geogcs");
    }
    let geo = child2(t, "GEOGCS"@, "GEOGCRS"@)->0;
    let units = choose|units: Units| #[trigger] is_wkt1_in(v, t, geo, units);
    let cs = v.member("coordinate_system"@)->0;
    let axes = choose|axes: Seq<Json>| #[trigger]
        has_axes(cs, "Cartesian"@, axes) && are_axes(axes, t, Some(units.linear));
    assert(says_axis(axes[i], children_of(t, "AXIS"@)[i], Some(units.linear)));
    reveal(is_unit);
    reveal(is_number);
    reveal_strlit("metre");
    reveal_strlit("meter");
    reveal_strlit("degree");
    reveal_strlit("unity");
    assert("metre"@[3] == 'r' && "meter"@[3] == 'e');
    assert("unity"@[0] == 'u' && "meter"@[0] == 'm' && "metre"@[0] == 'm');
}

} // verus!
