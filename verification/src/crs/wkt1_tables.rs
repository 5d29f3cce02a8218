//! The projection methods and parameters that the first version of WKT names
//! without identifiers, and the names and EPSG codes that they stand for.
//!
//! Only methods whose name stands for one EPSG method are here.
use vstd::prelude::*;

use crate::text::{lower_text, same_text, to_lower};

verus! {

/// What a parameter measures, and so which unit its value is in: the base
/// system's angular unit, the projected system's linear unit, or none.
#[derive(Clone, Copy, PartialEq, Eq, Structural)]
pub enum UnitKind {
    Angular,
    Linear,
    Scale,
}

/// A projection method.
pub struct Method {
    pub name: &'static str,
    pub code: u64,
    /// Whether every system of the method counts eastward and northward, so
    /// that axes that are not stated can be taken to do so.
    pub en_default_safe: bool,
}

/// A parameter of a projection method.
pub struct Param {
    pub name: &'static str,
    pub code: u64,
    pub kind: UnitKind,
}

/// The name, code and safety of the method with a name in WKT's first version.
pub open spec fn method_entry(name: Seq<char>) -> Option<(Seq<char>, int, bool)> {
    let n = lower_text(name);
    if n == "transverse_mercator"@ {
        Some(("Transverse Mercator"@, 9807, true))
    } else if n == "lambert_conformal_conic_1sp"@ {
        Some(("Lambert Conic Conformal (1SP)"@, 9801, true))
    } else if n == "lambert_conformal_conic_2sp"@ {
        Some(("Lambert Conic Conformal (2SP)"@, 9802, true))
    } else if n == "albers_conic_equal_area"@ {
        Some(("Albers Equal Area"@, 9822, true))
    } else if n == "oblique_stereographic"@ {
        Some(("Oblique Stereographic"@, 9809, true))
    } else if n == "polyconic"@ {
        Some(("American Polyconic"@, 9818, true))
    } else if n == "lambert_azimuthal_equal_area"@ {
        Some(("Lambert Azimuthal Equal Area"@, 9820, false))
    } else {
        None
    }
}

/// The name, code and kind of a method's parameter with a name in WKT's first
/// version.
pub open spec fn param_entry(method: int, name: Seq<char>) -> Option<(Seq<char>, int, UnitKind)> {
    let n = lower_text(name);
    if method == 9807 {
        if n == "latitude_of_origin"@ {
            Some(("Latitude of natural origin"@, 8801, UnitKind::Angular))
        } else if n == "central_meridian"@ {
            Some(("Longitude of natural origin"@, 8802, UnitKind::Angular))
        } else if n == "scale_factor"@ {
            Some(("Scale factor at natural origin"@, 8805, UnitKind::Scale))
        } else if n == "false_easting"@ {
            Some(("False easting"@, 8806, UnitKind::Linear))
        } else if n == "false_northing"@ {
            Some(("False northing"@, 8807, UnitKind::Linear))
        } else {
            None
        }
    } else if method == 9801 {
        if n == "latitude_of_origin"@ {
            Some(("Latitude of natural origin"@, 8801, UnitKind::Angular))
        } else if n == "central_meridian"@ {
            Some(("Longitude of natural origin"@, 8802, UnitKind::Angular))
        } else if n == "scale_factor"@ {
            Some(("Scale factor at natural origin"@, 8805, UnitKind::Scale))
        } else if n == "false_easting"@ {
            Some(("False easting"@, 8806, UnitKind::Linear))
        } else if n == "false_northing"@ {
            Some(("False northing"@, 8807, UnitKind::Linear))
        } else {
            None
        }
    } else if method == 9802 {
        if n == "latitude_of_origin"@ {
            Some(("Latitude of false origin"@, 8821, UnitKind::Angular))
        } else if n == "central_meridian"@ {
            Some(("Longitude of false origin"@, 8822, UnitKind::Angular))
        } else if n == "standard_parallel_1"@ {
            Some(("Latitude of 1st standard parallel"@, 8823, UnitKind::Angular))
        } else if n == "standard_parallel_2"@ {
            Some(("Latitude of 2nd standard parallel"@, 8824, UnitKind::Angular))
        } else if n == "false_easting"@ {
            Some(("Easting at false origin"@, 8826, UnitKind::Linear))
        } else if n == "false_northing"@ {
            Some(("Northing at false origin"@, 8827, UnitKind::Linear))
        } else {
            None
        }
    } else if method == 9822 {
        if n == "latitude_of_center"@ {
            Some(("Latitude of false origin"@, 8821, UnitKind::Angular))
        } else if n == "longitude_of_center"@ {
            Some(("Longitude of false origin"@, 8822, UnitKind::Angular))
        } else if n == "standard_parallel_1"@ {
            Some(("Latitude of 1st standard parallel"@, 8823, UnitKind::Angular))
        } else if n == "standard_parallel_2"@ {
            Some(("Latitude of 2nd standard parallel"@, 8824, UnitKind::Angular))
        } else if n == "false_easting"@ {
            Some(("Easting at false origin"@, 8826, UnitKind::Linear))
        } else if n == "false_northing"@ {
            Some(("Northing at false origin"@, 8827, UnitKind::Linear))
        } else {
            None
        }
    } else if method == 9809 {
        if n == "latitude_of_origin"@ {
            Some(("Latitude of natural origin"@, 8801, UnitKind::Angular))
        } else if n == "central_meridian"@ {
            Some(("Longitude of natural origin"@, 8802, UnitKind::Angular))
        } else if n == "scale_factor"@ {
            Some(("Scale factor at natural origin"@, 8805, UnitKind::Scale))
        } else if n == "false_easting"@ {
            Some(("False easting"@, 8806, UnitKind::Linear))
        } else if n == "false_northing"@ {
            Some(("False northing"@, 8807, UnitKind::Linear))
        } else {
            None
        }
    } else if method == 9818 {
        if n == "latitude_of_origin"@ {
            Some(("Latitude of natural origin"@, 8801, UnitKind::Angular))
        } else if n == "central_meridian"@ {
            Some(("Longitude of natural origin"@, 8802, UnitKind::Angular))
        } else if n == "false_easting"@ {
            Some(("False easting"@, 8806, UnitKind::Linear))
        } else if n == "false_northing"@ {
            Some(("False northing"@, 8807, UnitKind::Linear))
        } else {
            None
        }
    } else if method == 9820 {
        if n == "latitude_of_center"@ {
            Some(("Latitude of natural origin"@, 8801, UnitKind::Angular))
        } else if n == "longitude_of_center"@ {
            Some(("Longitude of natural origin"@, 8802, UnitKind::Angular))
        } else if n == "false_easting"@ {
            Some(("False easting"@, 8806, UnitKind::Linear))
        } else if n == "false_northing"@ {
            Some(("False northing"@, 8807, UnitKind::Linear))
        } else {
            None
        }
    } else {
        None
    }
}

/// The method with a name in WKT's first version, in any ASCII case.
pub fn method(name: &str) -> (r: Option<Method>)
    ensures
        match r {
            Some(m) => method_entry(name@) == Some((m.name@, m.code as int, m.en_default_safe)),
            None => method_entry(name@) is None,
        },
{
    let lower = to_lower(name);
    let n = lower.as_str();
    if same_text(n, "transverse_mercator") {
        Some(
            Method { name: "Transverse Mercator", code: 9807, en_default_safe: true },
        )
    } else if same_text(n, "lambert_conformal_conic_1sp") {
        Some(
            Method { name: "Lambert Conic Conformal (1SP)", code: 9801, en_default_safe: true },
        )
    } else if same_text(n, "lambert_conformal_conic_2sp") {
        Some(
            Method { name: "Lambert Conic Conformal (2SP)", code: 9802, en_default_safe: true },
        )
    } else if same_text(n, "albers_conic_equal_area") {
        Some(
            Method { name: "Albers Equal Area", code: 9822, en_default_safe: true },
        )
    } else if same_text(n, "oblique_stereographic") {
        Some(
            Method { name: "Oblique Stereographic", code: 9809, en_default_safe: true },
        )
    } else if same_text(n, "polyconic") {
        Some(
            Method { name: "American Polyconic", code: 9818, en_default_safe: true },
        )
    } else if same_text(n, "lambert_azimuthal_equal_area") {
        Some(
            Method { name: "Lambert Azimuthal Equal Area", code: 9820, en_default_safe: false },
        )
    } else {
        None
    }
}

fn angular(name: &'static str, code: u64) -> (r: Option<Param>)
    ensures
        r matches Some(p) && p.name@ == name@ && p.code == code && p.kind == UnitKind::Angular,
{
    Some(Param { name, code, kind: UnitKind::Angular })
}

fn linear(name: &'static str, code: u64) -> (r: Option<Param>)
    ensures
        r matches Some(p) && p.name@ == name@ && p.code == code && p.kind == UnitKind::Linear,
{
    Some(Param { name, code, kind: UnitKind::Linear })
}

fn scale(name: &'static str, code: u64) -> (r: Option<Param>)
    ensures
        r matches Some(p) && p.name@ == name@ && p.code == code && p.kind == UnitKind::Scale,
{
    Some(Param { name, code, kind: UnitKind::Scale })
}

/// A method's parameter with a name in WKT's first version, in any ASCII case.
pub fn param(method: u64, name: &str) -> (r: Option<Param>)
    ensures
        match r {
            Some(p) => param_entry(method as int, name@) == Some((p.name@, p.code as int, p.kind)),
            None => param_entry(method as int, name@) is None,
        },
{
    let lower = to_lower(name);
    let n = lower.as_str();
    if method == 9807 {
        if same_text(n, "latitude_of_origin") {
            angular("Latitude of natural origin", 8801)
        } else if same_text(n, "central_meridian") {
            angular("Longitude of natural origin", 8802)
        } else if same_text(n, "scale_factor") {
            scale("Scale factor at natural origin", 8805)
        } else if same_text(n, "false_easting") {
            linear("False easting", 8806)
        } else if same_text(n, "false_northing") {
            linear("False northing", 8807)
        } else {
            None
        }
    } else if method == 9801 {
        if same_text(n, "latitude_of_origin") {
            angular("Latitude of natural origin", 8801)
        } else if same_text(n, "central_meridian") {
            angular("Longitude of natural origin", 8802)
        } else if same_text(n, "scale_factor") {
            scale("Scale factor at natural origin", 8805)
        } else if same_text(n, "false_easting") {
            linear("False easting", 8806)
        } else if same_text(n, "false_northing") {
            linear("False northing", 8807)
        } else {
            None
        }
    } else if method == 9802 {
        if same_text(n, "latitude_of_origin") {
            angular("Latitude of false origin", 8821)
        } else if same_text(n, "central_meridian") {
            angular("Longitude of false origin", 8822)
        } else if same_text(n, "standard_parallel_1") {
            angular("Latitude of 1st standard parallel", 8823)
        } else if same_text(n, "standard_parallel_2") {
            angular("Latitude of 2nd standard parallel", 8824)
        } else if same_text(n, "false_easting") {
            linear("Easting at false origin", 8826)
        } else if same_text(n, "false_northing") {
            linear("Northing at false origin", 8827)
        } else {
            None
        }
    } else if method == 9822 {
        if same_text(n, "latitude_of_center") {
            angular("Latitude of false origin", 8821)
        } else if same_text(n, "longitude_of_center") {
            angular("Longitude of false origin", 8822)
        } else if same_text(n, "standard_parallel_1") {
            angular("Latitude of 1st standard parallel", 8823)
        } else if same_text(n, "standard_parallel_2") {
            angular("Latitude of 2nd standard parallel", 8824)
        } else if same_text(n, "false_easting") {
            linear("Easting at false origin", 8826)
        } else if same_text(n, "false_northing") {
            linear("Northing at false origin", 8827)
        } else {
            None
        }
    } else if method == 9809 {
        if same_text(n, "latitude_of_origin") {
            angular("Latitude of natural origin", 8801)
        } else if same_text(n, "central_meridian") {
            angular("Longitude of natural origin", 8802)
        } else if same_text(n, "scale_factor") {
            scale("Scale factor at natural origin", 8805)
        } else if same_text(n, "false_easting") {
            linear("False easting", 8806)
        } else if same_text(n, "false_northing") {
            linear("False northing", 8807)
        } else {
            None
        }
    } else if method == 9818 {
        if same_text(n, "latitude_of_origin") {
            angular("Latitude of natural origin", 8801)
        } else if same_text(n, "central_meridian") {
            angular("Longitude of natural origin", 8802)
        } else if same_text(n, "false_easting") {
            linear("False easting", 8806)
        } else if same_text(n, "false_northing") {
            linear("False northing", 8807)
        } else {
            None
        }
    } else if method == 9820 {
        if same_text(n, "latitude_of_center") {
            angular("Latitude of natural origin", 8801)
        } else if same_text(n, "longitude_of_center") {
            angular("Longitude of natural origin", 8802)
        } else if same_text(n, "false_easting") {
            linear("False easting", 8806)
        } else if same_text(n, "false_northing") {
            linear("False northing", 8807)
        } else {
            None
        }
    } else {
        None
    }
}

} // verus!
