//! What a definition is rendered as is a JSON object.
use vstd::prelude::*;

use super::node::{
    child1, child2, child4, child_from, children_from, children_of, identifier_of, name_of, name_or,
    number_from, number_of, word_of,
};
use super::said::{
    are_axes, are_parameters, has_axes, has_conversion, has_coordinates, has_datum, has_ellipsoid,
    has_id, has_meridian, has_prime_meridian, has_text, is_axis, is_called, is_ellipsoid,
    is_ellipsoidal, is_frame, is_geographic, is_id, is_measure, is_number, is_projected,
    is_projected_on, is_projected_wkt1, is_standard, is_stated, is_unit, is_unit_or, is_wkt1_in,
    is_zero, says_axis, says_parameter, stated_angle, states_axes, Units,
};
use super::wkt::{tree_of, Branch, Tree};
use super::wkt1_tables::{method_entry, param_entry};
use super::wkt_projjson::{
    accuracy_of, angular_unit_text, axes_from, axis_head, axis_names, axis_text, base_text,
    cartesian_text, datum_text, ellipsoid_text, ellipsoidal_cs_text, ensemble_text, geographic_text,
    has_three_dimensions, id_member, id_object, linear_unit_text, measure_text, meridian_member,
    parameter_object, parameter_text, parameters_from, parameters_text, prime_meridian_text,
    projected_object, projected_text, projected_wkt1_text, translated, unit_kind, unit_of_kind,
    unit_text, unit_text_of, Around,
};
use crate::decimal::{is_finite_text, unsigned_plain};
use crate::geojson::documents::{law_first_member_counts, law_missing_member_is_none};
use crate::json::parser::document;
use crate::json::pieces::{
    is_list, is_member, is_open, is_tail, is_value, key_text, lemma_array, lemma_close,
    lemma_integer, lemma_list_first, lemma_list_more, lemma_member, lemma_number, lemma_open_first,
    lemma_open_member, lemma_open_more, lemma_open_tail, lemma_quoted, lemma_string,
    lemma_value_is_document, members_of, pair_of, pairs_of, value_of, values_of,
};
use crate::json::value::{string_text, Json};
use crate::number::is_float_text;
use crate::text::{decimal, lower_text, signed_decimal};
use crate::worth::{is_tiny_text, law_unsigned_text_is_the_same_number};

verus! {

/// The mark that opens an object with a key.
pub open spec fn open_mark(key: Seq<char>) -> Seq<char> {
    seq!['{'] + key_text(key)
}

/// The mark before a further member.
pub open spec fn more_mark(key: Seq<char>) -> Seq<char> {
    seq![','] + key_text(key)
}

// --- marks ---------------------------------------------------------------------------------

proof fn lemma_mark_authority()
    ensures
        "{\"authority\":"@ == open_mark("authority"@),
{
    reveal_strlit("{\"authority\":");
    reveal_strlit("authority");
    lemma_quoted("authority"@);
    assert("{\"authority\":"@ =~= open_mark("authority"@));
}

proof fn lemma_mark_code()
    ensures
        ",\"code\":"@ == more_mark("code"@),
{
    reveal_strlit(",\"code\":");
    reveal_strlit("code");
    lemma_quoted("code"@);
    assert(",\"code\":"@ =~= more_mark("code"@));
}

proof fn lemma_mark_id()
    ensures
        ",\"id\":"@ == more_mark("id"@),
{
    reveal_strlit(",\"id\":");
    reveal_strlit("id");
    lemma_quoted("id"@);
    assert(",\"id\":"@ =~= more_mark("id"@));
}

proof fn lemma_mark_kind()
    ensures
        "{\"type\":\""@ == open_mark("type"@) + seq!['"'],
{
    reveal_strlit("{\"type\":\"");
    reveal_strlit("type");
    lemma_quoted("type"@);
    assert("{\"type\":\""@ =~= open_mark("type"@) + seq!['"']);
}

proof fn lemma_mark_kind_name()
    ensures
        "\",\"name\":"@ == seq!['"'] + more_mark("name"@),
{
    reveal_strlit("\",\"name\":");
    reveal_strlit("name");
    lemma_quoted("name"@);
    assert("\",\"name\":"@ =~= seq!['"'] + more_mark("name"@));
}

proof fn lemma_mark_factor()
    ensures
        ",\"conversion_factor\":"@ == more_mark("conversion_factor"@),
{
    reveal_strlit(",\"conversion_factor\":");
    reveal_strlit("conversion_factor");
    lemma_quoted("conversion_factor"@);
    assert(",\"conversion_factor\":"@ =~= more_mark("conversion_factor"@));
}

proof fn lemma_mark_value_first()
    ensures
        "{\"value\":"@ == open_mark("value"@),
{
    reveal_strlit("{\"value\":");
    reveal_strlit("value");
    lemma_quoted("value"@);
    assert("{\"value\":"@ =~= open_mark("value"@));
}

proof fn lemma_mark_unit()
    ensures
        ",\"unit\":"@ == more_mark("unit"@),
{
    reveal_strlit(",\"unit\":");
    reveal_strlit("unit");
    lemma_quoted("unit"@);
    assert(",\"unit\":"@ =~= more_mark("unit"@));
}

proof fn lemma_mark_ellipsoid()
    ensures
        "\"ellipsoid\":{\"name\":"@ == key_text("ellipsoid"@) + open_mark("name"@),
{
    reveal_strlit("\"ellipsoid\":{\"name\":");
    reveal_strlit("ellipsoid");
    lemma_quoted("ellipsoid"@);
    reveal_strlit("name");
    lemma_quoted("name"@);
    assert("\"ellipsoid\":{\"name\":"@ =~= key_text("ellipsoid"@) + open_mark("name"@));
}

proof fn lemma_mark_semi_major()
    ensures
        ",\"semi_major_axis\":"@ == more_mark("semi_major_axis"@),
{
    reveal_strlit(",\"semi_major_axis\":");
    reveal_strlit("semi_major_axis");
    lemma_quoted("semi_major_axis"@);
    assert(",\"semi_major_axis\":"@ =~= more_mark("semi_major_axis"@));
}

proof fn lemma_mark_flattening()
    ensures
        ",\"inverse_flattening\":"@ == more_mark("inverse_flattening"@),
{
    reveal_strlit(",\"inverse_flattening\":");
    reveal_strlit("inverse_flattening");
    lemma_quoted("inverse_flattening"@);
    assert(",\"inverse_flattening\":"@ =~= more_mark("inverse_flattening"@));
}

proof fn lemma_mark_prime_meridian()
    ensures
        ",\"prime_meridian\":{\"name\":"@ == more_mark("prime_meridian"@) + open_mark("name"@),
{
    reveal_strlit(",\"prime_meridian\":{\"name\":");
    reveal_strlit("prime_meridian");
    lemma_quoted("prime_meridian"@);
    reveal_strlit("name");
    lemma_quoted("name"@);
    assert(",\"prime_meridian\":{\"name\":"@ =~= more_mark("prime_meridian"@) + open_mark("name"@));
}

proof fn lemma_mark_longitude()
    ensures
        ",\"longitude\":"@ == more_mark("longitude"@),
{
    reveal_strlit(",\"longitude\":");
    reveal_strlit("longitude");
    lemma_quoted("longitude"@);
    assert(",\"longitude\":"@ =~= more_mark("longitude"@));
}

proof fn lemma_mark_datum()
    ensures
        "\"datum\":{\"type\":\"GeodeticReferenceFrame\",\"name\":"@ == key_text("datum"@) + open_mark("type"@) + string_text("GeodeticReferenceFrame"@) + more_mark("name"@),
{
    reveal_strlit("\"datum\":{\"type\":\"GeodeticReferenceFrame\",\"name\":");
    reveal_strlit("datum");
    lemma_quoted("datum"@);
    reveal_strlit("type");
    lemma_quoted("type"@);
    reveal_strlit("GeodeticReferenceFrame");
    lemma_quoted("GeodeticReferenceFrame"@);
    reveal_strlit("name");
    lemma_quoted("name"@);
    assert("\"datum\":{\"type\":\"GeodeticReferenceFrame\",\"name\":"@ =~= key_text("datum"@) + open_mark("type"@) + string_text("GeodeticReferenceFrame"@) + more_mark("name"@));
}

proof fn lemma_mark_ensemble()
    ensures
        "\"datum_ensemble\":{\"name\":"@ == key_text("datum_ensemble"@) + open_mark("name"@),
{
    reveal_strlit("\"datum_ensemble\":{\"name\":");
    reveal_strlit("datum_ensemble");
    lemma_quoted("datum_ensemble"@);
    reveal_strlit("name");
    lemma_quoted("name"@);
    assert("\"datum_ensemble\":{\"name\":"@ =~= key_text("datum_ensemble"@) + open_mark("name"@));
}

proof fn lemma_mark_accuracy()
    ensures
        ",\"accuracy\":"@ == more_mark("accuracy"@),
{
    reveal_strlit(",\"accuracy\":");
    reveal_strlit("accuracy");
    lemma_quoted("accuracy"@);
    assert(",\"accuracy\":"@ =~= more_mark("accuracy"@));
}

proof fn lemma_mark_latitude_axis()
    ensures
        "{\"name\":\"Geodetic latitude\",\"abbreviation\":\"Lat\",\"direction\":\"north\",\"unit\":"@ == open_mark("name"@) + string_text("Geodetic latitude"@) + more_mark("abbreviation"@) + string_text("Lat"@) + more_mark("direction"@) + string_text("north"@) + more_mark("unit"@),
{
    reveal_strlit("{\"name\":\"Geodetic latitude\",\"abbreviation\":\"Lat\",\"direction\":\"north\",\"unit\":");
    reveal_strlit("name");
    lemma_quoted("name"@);
    reveal_strlit("Geodetic latitude");
    lemma_quoted("Geodetic latitude"@);
    reveal_strlit("abbreviation");
    lemma_quoted("abbreviation"@);
    reveal_strlit("Lat");
    lemma_quoted("Lat"@);
    reveal_strlit("direction");
    lemma_quoted("direction"@);
    reveal_strlit("north");
    lemma_quoted("north"@);
    reveal_strlit("unit");
    lemma_quoted("unit"@);
    assert("{\"name\":\"Geodetic latitude\",\"abbreviation\":\"Lat\",\"direction\":\"north\",\"unit\":"@ =~= open_mark("name"@) + string_text("Geodetic latitude"@) + more_mark("abbreviation"@) + string_text("Lat"@) + more_mark("direction"@) + string_text("north"@) + more_mark("unit"@));
}

proof fn lemma_mark_longitude_axis()
    ensures
        "},{\"name\":\"Geodetic longitude\",\"abbreviation\":\"Lon\",\"direction\":\"east\",\"unit\":"@ == seq!['}'] + seq![','] + open_mark("name"@) + string_text("Geodetic longitude"@) + more_mark("abbreviation"@) + string_text("Lon"@) + more_mark("direction"@) + string_text("east"@) + more_mark("unit"@),
{
    reveal_strlit("},{\"name\":\"Geodetic longitude\",\"abbreviation\":\"Lon\",\"direction\":\"east\",\"unit\":");
    reveal_strlit("name");
    lemma_quoted("name"@);
    reveal_strlit("Geodetic longitude");
    lemma_quoted("Geodetic longitude"@);
    reveal_strlit("abbreviation");
    lemma_quoted("abbreviation"@);
    reveal_strlit("Lon");
    lemma_quoted("Lon"@);
    reveal_strlit("direction");
    lemma_quoted("direction"@);
    reveal_strlit("east");
    lemma_quoted("east"@);
    reveal_strlit("unit");
    lemma_quoted("unit"@);
    assert("},{\"name\":\"Geodetic longitude\",\"abbreviation\":\"Lon\",\"direction\":\"east\",\"unit\":"@ =~= seq!['}'] + seq![','] + open_mark("name"@) + string_text("Geodetic longitude"@) + more_mark("abbreviation"@) + string_text("Lon"@) + more_mark("direction"@) + string_text("east"@) + more_mark("unit"@));
}

proof fn lemma_mark_height_axis()
    ensures
        ",{\"name\":\"Ellipsoidal height\",\"abbreviation\":\"h\",\"direction\":\"up\",\"unit\":\"metre\"}"@ == seq![','] + open_mark("name"@) + string_text("Ellipsoidal height"@) + more_mark("abbreviation"@) + string_text("h"@) + more_mark("direction"@) + string_text("up"@) + more_mark("unit"@) + string_text("metre"@) + seq!['}'],
{
    reveal_strlit(",{\"name\":\"Ellipsoidal height\",\"abbreviation\":\"h\",\"direction\":\"up\",\"unit\":\"metre\"}");
    reveal_strlit("name");
    lemma_quoted("name"@);
    reveal_strlit("Ellipsoidal height");
    lemma_quoted("Ellipsoidal height"@);
    reveal_strlit("abbreviation");
    lemma_quoted("abbreviation"@);
    reveal_strlit("h");
    lemma_quoted("h"@);
    reveal_strlit("direction");
    lemma_quoted("direction"@);
    reveal_strlit("up");
    lemma_quoted("up"@);
    reveal_strlit("unit");
    lemma_quoted("unit"@);
    reveal_strlit("metre");
    lemma_quoted("metre"@);
    assert(",{\"name\":\"Ellipsoidal height\",\"abbreviation\":\"h\",\"direction\":\"up\",\"unit\":\"metre\"}"@ =~= seq![','] + open_mark("name"@) + string_text("Ellipsoidal height"@) + more_mark("abbreviation"@) + string_text("h"@) + more_mark("direction"@) + string_text("up"@) + more_mark("unit"@) + string_text("metre"@) + seq!['}']);
}

proof fn lemma_mark_ellipsoidal()
    ensures
        "{\"subtype\":\"ellipsoidal\",\"axis\":["@ == open_mark("subtype"@) + string_text("ellipsoidal"@) + more_mark("axis"@) + seq!['['],
{
    reveal_strlit("{\"subtype\":\"ellipsoidal\",\"axis\":[");
    reveal_strlit("subtype");
    lemma_quoted("subtype"@);
    reveal_strlit("ellipsoidal");
    lemma_quoted("ellipsoidal"@);
    reveal_strlit("axis");
    lemma_quoted("axis"@);
    assert("{\"subtype\":\"ellipsoidal\",\"axis\":["@ =~= open_mark("subtype"@) + string_text("ellipsoidal"@) + more_mark("axis"@) + seq!['[']);
}

proof fn lemma_mark_list_end()
    ensures
        "]}"@ == seq![']'] + seq!['}'],
{
    reveal_strlit("]}");
    assert("]}"@ =~= seq![']'] + seq!['}']);
}

proof fn lemma_mark_geographic()
    ensures
        "{\"type\":\"GeographicCRS\",\"name\":"@ == open_mark("type"@) + string_text("GeographicCRS"@) + more_mark("name"@),
{
    reveal_strlit("{\"type\":\"GeographicCRS\",\"name\":");
    reveal_strlit("type");
    lemma_quoted("type"@);
    reveal_strlit("GeographicCRS");
    lemma_quoted("GeographicCRS"@);
    reveal_strlit("name");
    lemma_quoted("name"@);
    assert("{\"type\":\"GeographicCRS\",\"name\":"@ =~= open_mark("type"@) + string_text("GeographicCRS"@) + more_mark("name"@));
}

proof fn lemma_mark_system()
    ensures
        ",\"coordinate_system\":"@ == more_mark("coordinate_system"@),
{
    reveal_strlit(",\"coordinate_system\":");
    reveal_strlit("coordinate_system");
    lemma_quoted("coordinate_system"@);
    assert(",\"coordinate_system\":"@ =~= more_mark("coordinate_system"@));
}

proof fn lemma_mark_name_first()
    ensures
        "{\"name\":"@ == open_mark("name"@),
{
    reveal_strlit("{\"name\":");
    reveal_strlit("name");
    lemma_quoted("name"@);
    assert("{\"name\":"@ =~= open_mark("name"@));
}

proof fn lemma_mark_abbreviation()
    ensures
        ",\"abbreviation\":"@ == more_mark("abbreviation"@),
{
    reveal_strlit(",\"abbreviation\":");
    reveal_strlit("abbreviation");
    lemma_quoted("abbreviation"@);
    assert(",\"abbreviation\":"@ =~= more_mark("abbreviation"@));
}

proof fn lemma_mark_direction()
    ensures
        ",\"direction\":"@ == more_mark("direction"@),
{
    reveal_strlit(",\"direction\":");
    reveal_strlit("direction");
    lemma_quoted("direction"@);
    assert(",\"direction\":"@ =~= more_mark("direction"@));
}

proof fn lemma_mark_meridian()
    ensures
        ",\"meridian\":{\"longitude\":"@ == more_mark("meridian"@) + open_mark("longitude"@),
{
    reveal_strlit(",\"meridian\":{\"longitude\":");
    reveal_strlit("meridian");
    lemma_quoted("meridian"@);
    reveal_strlit("longitude");
    lemma_quoted("longitude"@);
    assert(",\"meridian\":{\"longitude\":"@ =~= more_mark("meridian"@) + open_mark("longitude"@));
}

proof fn lemma_mark_cartesian()
    ensures
        "{\"subtype\":\"Cartesian\",\"axis\":["@ == open_mark("subtype"@) + string_text("Cartesian"@) + more_mark("axis"@) + seq!['['],
{
    reveal_strlit("{\"subtype\":\"Cartesian\",\"axis\":[");
    reveal_strlit("subtype");
    lemma_quoted("subtype"@);
    reveal_strlit("Cartesian");
    lemma_quoted("Cartesian"@);
    reveal_strlit("axis");
    lemma_quoted("axis"@);
    assert("{\"subtype\":\"Cartesian\",\"axis\":["@ =~= open_mark("subtype"@) + string_text("Cartesian"@) + more_mark("axis"@) + seq!['[']);
}

proof fn lemma_mark_easting()
    ensures
        "{\"subtype\":\"Cartesian\",\"axis\":[{\"name\":\"Easting\",\"abbreviation\":\"E\",\"direction\":\"east\",\"unit\":"@ == open_mark("subtype"@) + string_text("Cartesian"@) + more_mark("axis"@) + seq!['['] + open_mark("name"@) + string_text("Easting"@) + more_mark("abbreviation"@) + string_text("E"@) + more_mark("direction"@) + string_text("east"@) + more_mark("unit"@),
{
    reveal_strlit("{\"subtype\":\"Cartesian\",\"axis\":[{\"name\":\"Easting\",\"abbreviation\":\"E\",\"direction\":\"east\",\"unit\":");
    reveal_strlit("subtype");
    lemma_quoted("subtype"@);
    reveal_strlit("Cartesian");
    lemma_quoted("Cartesian"@);
    reveal_strlit("axis");
    lemma_quoted("axis"@);
    reveal_strlit("name");
    lemma_quoted("name"@);
    reveal_strlit("Easting");
    lemma_quoted("Easting"@);
    reveal_strlit("abbreviation");
    lemma_quoted("abbreviation"@);
    reveal_strlit("E");
    lemma_quoted("E"@);
    reveal_strlit("direction");
    lemma_quoted("direction"@);
    reveal_strlit("east");
    lemma_quoted("east"@);
    reveal_strlit("unit");
    lemma_quoted("unit"@);
    assert("{\"subtype\":\"Cartesian\",\"axis\":[{\"name\":\"Easting\",\"abbreviation\":\"E\",\"direction\":\"east\",\"unit\":"@ =~= open_mark("subtype"@) + string_text("Cartesian"@) + more_mark("axis"@) + seq!['['] + open_mark("name"@) + string_text("Easting"@) + more_mark("abbreviation"@) + string_text("E"@) + more_mark("direction"@) + string_text("east"@) + more_mark("unit"@));
}

proof fn lemma_mark_northing()
    ensures
        "},{\"name\":\"Northing\",\"abbreviation\":\"N\",\"direction\":\"north\",\"unit\":"@ == seq!['}'] + seq![','] + open_mark("name"@) + string_text("Northing"@) + more_mark("abbreviation"@) + string_text("N"@) + more_mark("direction"@) + string_text("north"@) + more_mark("unit"@),
{
    reveal_strlit("},{\"name\":\"Northing\",\"abbreviation\":\"N\",\"direction\":\"north\",\"unit\":");
    reveal_strlit("name");
    lemma_quoted("name"@);
    reveal_strlit("Northing");
    lemma_quoted("Northing"@);
    reveal_strlit("abbreviation");
    lemma_quoted("abbreviation"@);
    reveal_strlit("N");
    lemma_quoted("N"@);
    reveal_strlit("direction");
    lemma_quoted("direction"@);
    reveal_strlit("north");
    lemma_quoted("north"@);
    reveal_strlit("unit");
    lemma_quoted("unit"@);
    assert("},{\"name\":\"Northing\",\"abbreviation\":\"N\",\"direction\":\"north\",\"unit\":"@ =~= seq!['}'] + seq![','] + open_mark("name"@) + string_text("Northing"@) + more_mark("abbreviation"@) + string_text("N"@) + more_mark("direction"@) + string_text("north"@) + more_mark("unit"@));
}

proof fn lemma_mark_axes_end()
    ensures
        "}]}"@ == seq!['}'] + seq![']'] + seq!['}'],
{
    reveal_strlit("}]}");
    assert("}]}"@ =~= seq!['}'] + seq![']'] + seq!['}']);
}

proof fn lemma_mark_value()
    ensures
        ",\"value\":"@ == more_mark("value"@),
{
    reveal_strlit(",\"value\":");
    reveal_strlit("value");
    lemma_quoted("value"@);
    assert(",\"value\":"@ =~= more_mark("value"@));
}

proof fn lemma_mark_projected()
    ensures
        "{\"type\":\"ProjectedCRS\",\"name\":"@ == open_mark("type"@) + string_text("ProjectedCRS"@) + more_mark("name"@),
{
    reveal_strlit("{\"type\":\"ProjectedCRS\",\"name\":");
    reveal_strlit("type");
    lemma_quoted("type"@);
    reveal_strlit("ProjectedCRS");
    lemma_quoted("ProjectedCRS"@);
    reveal_strlit("name");
    lemma_quoted("name"@);
    assert("{\"type\":\"ProjectedCRS\",\"name\":"@ =~= open_mark("type"@) + string_text("ProjectedCRS"@) + more_mark("name"@));
}

proof fn lemma_mark_base()
    ensures
        ",\"base_crs\":"@ == more_mark("base_crs"@),
{
    reveal_strlit(",\"base_crs\":");
    reveal_strlit("base_crs");
    lemma_quoted("base_crs"@);
    assert(",\"base_crs\":"@ =~= more_mark("base_crs"@));
}

proof fn lemma_mark_conversion()
    ensures
        ",\"conversion\":{\"name\":"@ == more_mark("conversion"@) + open_mark("name"@),
{
    reveal_strlit(",\"conversion\":{\"name\":");
    reveal_strlit("conversion");
    lemma_quoted("conversion"@);
    reveal_strlit("name");
    lemma_quoted("name"@);
    assert(",\"conversion\":{\"name\":"@ =~= more_mark("conversion"@) + open_mark("name"@));
}

proof fn lemma_mark_method()
    ensures
        ",\"method\":{\"name\":"@ == more_mark("method"@) + open_mark("name"@),
{
    reveal_strlit(",\"method\":{\"name\":");
    reveal_strlit("method");
    lemma_quoted("method"@);
    reveal_strlit("name");
    lemma_quoted("name"@);
    assert(",\"method\":{\"name\":"@ =~= more_mark("method"@) + open_mark("name"@));
}

proof fn lemma_mark_parameters()
    ensures
        "},\"parameters\":["@ == seq!['}'] + more_mark("parameters"@) + seq!['['],
{
    reveal_strlit("},\"parameters\":[");
    reveal_strlit("parameters");
    lemma_quoted("parameters"@);
    assert("},\"parameters\":["@ =~= seq!['}'] + more_mark("parameters"@) + seq!['[']);
}

proof fn lemma_mark_parameters_end()
    ensures
        "]},\"coordinate_system\":"@ == seq![']'] + seq!['}'] + more_mark("coordinate_system"@),
{
    reveal_strlit("]},\"coordinate_system\":");
    reveal_strlit("coordinate_system");
    lemma_quoted("coordinate_system"@);
    assert("]},\"coordinate_system\":"@ =~= seq![']'] + seq!['}'] + more_mark("coordinate_system"@));
}

proof fn lemma_brackets()
    ensures
        "}"@ == seq!['}'],
        ","@ == seq![','],
{
    reveal_strlit("}");
    reveal_strlit(",");
    assert("}"@ =~= seq!['}']);
    assert(","@ =~= seq![',']);
}

// --- members -------------------------------------------------------------------------------

/// The keys by which members are told apart.
proof fn lemma_keys()
    ensures
        "type"@.len() == 4 && "type"@[0] == 't',
        "name"@.len() == 4 && "name"@[0] == 'n',
        "datum"@.len() == 5 && "datum"@[0] == 'd',
        "datum_ensemble"@.len() == 14 && "datum_ensemble"@[0] == 'd',
        "ellipsoid"@.len() == 9 && "ellipsoid"@[0] == 'e',
        "prime_meridian"@.len() == 14 && "prime_meridian"@[0] == 'p',
        "accuracy"@.len() == 8 && "accuracy"@[0] == 'a',
        "coordinate_system"@.len() == 17 && "coordinate_system"@[0] == 'c',
        "id"@.len() == 2 && "id"@[0] == 'i',
        "base_crs"@.len() == 8 && "base_crs"@[0] == 'b',
        "conversion"@.len() == 10 && "conversion"@[0] == 'c',
        "method"@.len() == 6 && "method"@[0] == 'm',
        "parameters"@.len() == 10 && "parameters"@[0] == 'p',
        "subtype"@.len() == 7 && "subtype"@[0] == 's',
        "axis"@.len() == 4 && "axis"@[0] == 'a',
        "abbreviation"@.len() == 12 && "abbreviation"@[0] == 'a',
        "direction"@.len() == 9 && "direction"@[0] == 'd',
        "unit"@.len() == 4 && "unit"@[0] == 'u',
        "meridian"@.len() == 8 && "meridian"@[0] == 'm',
        "value"@.len() == 5 && "value"@[0] == 'v',
        "authority"@.len() == 9 && "authority"@[0] == 'a',
        "code"@.len() == 4 && "code"@[0] == 'c',
        "semi_major_axis"@.len() == 15 && "semi_major_axis"@[0] == 's',
        "inverse_flattening"@.len() == 18 && "inverse_flattening"@[0] == 'i',
        "longitude"@.len() == 9 && "longitude"@[0] == 'l',
        "conversion_factor"@.len() == 17 && "conversion_factor"@[0] == 'c',
{
    reveal_strlit("type");
    reveal_strlit("name");
    reveal_strlit("datum");
    reveal_strlit("datum_ensemble");
    reveal_strlit("ellipsoid");
    reveal_strlit("prime_meridian");
    reveal_strlit("accuracy");
    reveal_strlit("coordinate_system");
    reveal_strlit("id");
    reveal_strlit("base_crs");
    reveal_strlit("conversion");
    reveal_strlit("method");
    reveal_strlit("parameters");
    reveal_strlit("subtype");
    reveal_strlit("axis");
    reveal_strlit("abbreviation");
    reveal_strlit("direction");
    reveal_strlit("unit");
    reveal_strlit("meridian");
    reveal_strlit("value");
    reveal_strlit("authority");
    reveal_strlit("code");
    reveal_strlit("semi_major_axis");
    reveal_strlit("inverse_flattening");
    reveal_strlit("longitude");
    reveal_strlit("conversion_factor");
}

/// A member is found by its key where no other before it has that.
proof fn lemma_found(members: Seq<(Seq<char>, Json)>, i: int)
    requires
        0 <= i < members.len(),
        forall|k: int| 0 <= k < i ==> (#[trigger] members[k]).0 != members[i].0,
    ensures
        Json::Object(members).member(members[i].0) == Some(members[i].1),
{
    law_first_member_counts(members, members[i].0, i);
}

/// Every member is found by its key where the keys differ.
proof fn lemma_all_found(members: Seq<(Seq<char>, Json)>)
    requires
        forall|i: int, k: int|
            0 <= k < i < members.len() ==> (#[trigger] members[k]).0 != (#[trigger] members[i]).0,
    ensures
        forall|i: int|
            0 <= i < members.len() ==> Json::Object(members).member((#[trigger] members[i]).0)
                == Some(members[i].1),
{
    assert forall|i: int| 0 <= i < members.len() implies Json::Object(members).member(
        (#[trigger] members[i]).0,
    ) == Some(members[i].1) by {
        lemma_found(members, i);
    }
}

// --- numbers of a tree ---------------------------------------------------------------------

/// Whether every number in a tree is a finite one.
pub open spec fn is_finite_tree(t: Tree) -> bool
    decreases t,
{
    forall|i: int|
        0 <= i < t.items.len() ==> (match #[trigger] t.items[i] {
            Branch::Node(n) => is_finite_tree(n),
            Branch::Word(w) => is_float_text(w) ==> is_finite_text(w),
            Branch::Str(_) => true,
        })
}

proof fn lemma_child_from(
    t: Tree,
    p: int,
    a: Seq<char>,
    b: Seq<char>,
    c: Seq<char>,
    d: Seq<char>,
)
    requires
        is_finite_tree(t),
        0 <= p <= t.items.len(),
    ensures
        child_from(t.items, p, a, b, c, d) matches Some(n) ==> is_finite_tree(n),
    decreases t.items.len() - p,
{
    if p < t.items.len() {
        let item = t.items[p];
        lemma_child_from(t, p + 1, a, b, c, d);
    }
}

proof fn lemma_child(t: Tree, a: Seq<char>, b: Seq<char>, c: Seq<char>, d: Seq<char>)
    requires
        is_finite_tree(t),
    ensures
        child4(t, a, b, c, d) matches Some(n) ==> is_finite_tree(n),
{
    lemma_child_from(t, 0, a, b, c, d);
}

proof fn lemma_children_from(t: Tree, p: int, keyword: Seq<char>)
    requires
        is_finite_tree(t),
        0 <= p <= t.items.len(),
    ensures
        forall|i: int|
            0 <= i < children_from(t.items, p, keyword).len() ==> is_finite_tree(
                #[trigger] children_from(t.items, p, keyword)[i],
            ),
    decreases t.items.len() - p,
{
    if p < t.items.len() {
        let item = t.items[p];
        lemma_children_from(t, p + 1, keyword);
        let rest = children_from(t.items, p + 1, keyword);
        let all = children_from(t.items, p, keyword);
        assert forall|i: int| 0 <= i < all.len() implies is_finite_tree(#[trigger] all[i]) by {
            if all.len() == rest.len() {
                assert(all[i] == rest[i]);
            } else if i > 0 {
                assert(all[i] == rest[i - 1]);
            }
        }
    }
}

proof fn lemma_number_from(t: Tree, p: int, n: nat)
    requires
        is_finite_tree(t),
        0 <= p <= t.items.len(),
    ensures
        number_from(t.items, p, n) matches Some(x) ==> is_finite_text(x),
    decreases t.items.len() - p,
{
    if p < t.items.len() {
        let item = t.items[p];
        lemma_number_from(t, p + 1, n);
        if n > 0 {
            lemma_number_from(t, p + 1, (n - 1) as nat);
        }
    }
}

/// A node's number is a value.
proof fn lemma_number_of(t: Tree, n: nat)
    requires
        is_finite_tree(t),
    ensures
        number_of(t, n) matches Some(x) ==> is_finite_text(x) && is_value(unsigned_plain(x))
            && is_number(value_of(unsigned_plain(x)), x),
{
    reveal(is_number);
    lemma_number_from(t, 0, n);
    if let Some(x) = number_of(t, n) {
        lemma_number(x);
        if !is_tiny_text(x) {
            law_unsigned_text_is_the_same_number(x);
        }
    }
}

// --- pieces --------------------------------------------------------------------------------

proof fn lemma_id(authority: Seq<char>, code: Seq<char>)
    requires
        is_value(code),
    ensures
        is_value(id_object(authority, code)),
        has_text(value_of(id_object(authority, code)), "authority"@, authority),
        value_of(id_object(authority, code)).member("code"@) == Some(value_of(code)),
{
    lemma_mark_authority();
    lemma_mark_code();
    lemma_brackets();
    lemma_string(authority);
    let first = "{\"authority\":"@ + string_text(authority);
    lemma_open_first("{\"authority\":"@, "authority"@, string_text(authority));
    lemma_open_more(first, ",\"code\":"@, "code"@, code);
    lemma_close(first + ",\"code\":"@ + code);
    let members = members_of(first + ",\"code\":"@ + code);
    lemma_keys();
    lemma_found(members, 0);
    lemma_found(members, 1);
}

proof fn lemma_identifier(t: Tree)
    ensures
        identifier_of(t) matches Some((authority, code)) ==> is_value(
            id_object(authority, signed_decimal(code)),
        ) && is_id(value_of(id_object(authority, signed_decimal(code))), authority, code),
{
    reveal(is_id);
    if let Some((authority, code)) = identifier_of(t) {
        lemma_integer(code);
        lemma_id(authority, signed_decimal(code));
    }
}

proof fn lemma_id_member(t: Tree)
    ensures
        is_tail(id_member(t)),
        match identifier_of(t) {
            Some((authority, code)) => pairs_of(id_member(t)).len() == 1 && pairs_of(
                id_member(t),
            )[0].0 == "id"@ && is_id(pairs_of(id_member(t))[0].1, authority, code),
            None => pairs_of(id_member(t)).len() == 0,
        },
{
    lemma_identifier(t);
    lemma_mark_id();
    if let Some((authority, code)) = identifier_of(t) {
        let x = id_object(authority, signed_decimal(code));
        lemma_member("id"@, x);
        assert(id_member(t) =~= seq![','] + (key_text("id"@) + x));
        assert(id_member(t).skip(1) =~= key_text("id"@) + x);
    }
}

proof fn lemma_standard_units()
    ensures
        is_value("\"degree\""@),
        is_value("\"metre\""@),
        is_value("\"unity\""@),
        value_of("\"degree\""@) == Json::String("degree"@),
        value_of("\"metre\""@) == Json::String("metre"@),
        value_of("\"unity\""@) == Json::String("unity"@),
        "degree"@ != "metre"@ && "degree"@ != "meter"@ && "degree"@ != "unity"@,
        "metre"@ != "meter"@ && "metre"@ != "unity"@ && "meter"@ != "unity"@,
{
    reveal_strlit("degree");
    reveal_strlit("metre");
    reveal_strlit("unity");
    reveal_strlit("meter");
    assert("metre"@[3] == 'r' && "meter"@[3] == 'e');
    assert("unity"@[0] == 'u' && "meter"@[0] == 'm' && "metre"@[0] == 'm');
    reveal_strlit("\"degree\"");
    reveal_strlit("\"metre\"");
    reveal_strlit("\"unity\"");
    lemma_quoted("degree"@);
    lemma_quoted("metre"@);
    lemma_quoted("unity"@);
    lemma_string("degree"@);
    lemma_string("metre"@);
    lemma_string("unity"@);
    assert("\"degree\""@ =~= string_text("degree"@));
    assert("\"metre\""@ =~= string_text("metre"@));
    assert("\"unity\""@ =~= string_text("unity"@));
}

proof fn lemma_unit_kind(keyword: Seq<char>)
    ensures
        string_text(unit_kind(keyword)) == seq!['"'] + unit_kind(keyword) + seq!['"'],
{
    reveal_strlit("AngularUnit");
    reveal_strlit("ScaleUnit");
    reveal_strlit("LinearUnit");
    lemma_quoted("AngularUnit"@);
    lemma_quoted("ScaleUnit"@);
    lemma_quoted("LinearUnit"@);
}

proof fn lemma_unit(unit: Tree)
    requires
        is_finite_tree(unit),
    ensures
        unit_text(unit) is Some <==> is_stated(Some(unit)),
        unit_text(unit) matches Some(u) ==> is_value(u) && is_unit(value_of(u), unit),
        unit_text(unit) == Some("\"metre\""@) <==> is_called(unit, "metre"@),
        unit_text(unit) == Some("\"degree\""@) <==> is_called(unit, "degree"@),
{
    reveal(is_unit);
    lemma_standard_units();
    lemma_number_of(unit, 0);
    if let Some(factor) = number_of(unit, 0) {
        let kind = unit_kind(unit.keyword);
        let name = string_text(name_or(unit, ""@));
        let x = unsigned_plain(factor);
        lemma_mark_kind();
        lemma_mark_kind_name();
        lemma_mark_factor();
        lemma_brackets();
        lemma_unit_kind(unit.keyword);
        lemma_string(kind);
        lemma_string(name_or(unit, ""@));
        let first = open_mark("type"@) + string_text(kind);
        lemma_open_first(open_mark("type"@), "type"@, string_text(kind));
        let second = first + more_mark("name"@) + name;
        lemma_open_more(first, more_mark("name"@), "name"@, name);
        assert("{\"type\":\""@ + kind + "\",\"name\":"@ + name =~= second);
        lemma_open_more(second, ",\"conversion_factor\":"@, "conversion_factor"@, x);
        let third = second + ",\"conversion_factor\":"@ + x;
        lemma_close(third);
        lemma_keys();
        lemma_all_found(members_of(third));
        let members = members_of(third);
        assert(members[0].0 == "type"@ && members[1].0 == "name"@);
        assert(members[2].0 == "conversion_factor"@);
        if !is_standard(unit) {
            assert(unit_text(unit) == Some(third + seq!['}']));
            assert(value_of(third + seq!['}']) is Object);
        }
    }
    if is_called(unit, "metre"@) {
        assert(unit_text(unit) == Some("\"metre\""@));
    }
    if is_called(unit, "degree"@) {
        assert(unit_text(unit) == Some("\"degree\""@));
    }
    if is_called(unit, "unity"@) {
        assert(unit_text(unit) == Some("\"unity\""@));
    }
}

proof fn lemma_unit_of(unit: Option<Tree>)
    requires
        unit matches Some(u) ==> is_finite_tree(u),
    ensures
        unit_text_of(unit) is Some <==> is_stated(unit),
        unit_text_of(unit) matches Some(u) ==> is_value(u) && is_unit(value_of(u), unit->0),
        unit_text_of(unit) == Some("\"metre\""@) <==> unit is Some && is_called(unit->0, "metre"@),
        unit_text_of(unit) == Some("\"degree\""@) <==> unit is Some && is_called(
            unit->0,
            "degree"@,
        ),
{
    if let Some(u) = unit {
        lemma_unit(u);
    }
}

proof fn lemma_angular_unit(geo: Tree)
    requires
        is_finite_tree(geo),
    ensures
        is_value(angular_unit_text(geo)),
        is_unit_or(value_of(angular_unit_text(geo)), stated_angle(geo), "degree"@),
{
    lemma_standard_units();
    lemma_child(geo, "ANGLEUNIT"@, "UNIT"@, "ANGLEUNIT"@, "UNIT"@);
    lemma_child(geo, "PRIMEM"@, "PRIMEMERIDIAN"@, "PRIMEM"@, "PRIMEMERIDIAN"@);
    lemma_unit_of(child2(geo, "ANGLEUNIT"@, "UNIT"@));
    if let Some(pm) = child2(geo, "PRIMEM"@, "PRIMEMERIDIAN"@) {
        lemma_child(pm, "ANGLEUNIT"@, "UNIT"@, "ANGLEUNIT"@, "UNIT"@);
        lemma_unit_of(child2(pm, "ANGLEUNIT"@, "UNIT"@));
    }
}

proof fn lemma_measure(value: Seq<char>, unit: Option<Seq<char>>, expected: Seq<char>)
    requires
        is_value(unsigned_plain(value)),
        unit matches Some(u) ==> is_value(u),
    ensures
        is_value(measure_text(value, unit, expected)),
        unit is None || unit->0 == expected ==> measure_text(value, unit, expected)
            == unsigned_plain(value),
        unit matches Some(u) ==> u != expected ==> {
            let m = value_of(measure_text(value, unit, expected));
            m.member("value"@) == Some(value_of(unsigned_plain(value))) && m.member("unit"@) == Some(
                value_of(u),
            )
        },
{
    if let Some(u) = unit {
        if u != expected {
            let x = unsigned_plain(value);
            lemma_mark_value_first();
            lemma_mark_unit();
            lemma_brackets();
            lemma_open_first("{\"value\":"@, "value"@, x);
            lemma_open_more("{\"value\":"@ + x, ",\"unit\":"@, "unit"@, u);
            let text = "{\"value\":"@ + x + ",\"unit\":"@ + u;
            lemma_close(text);
            lemma_keys();
            lemma_found(members_of(text), 0);
            lemma_found(members_of(text), 1);
        }
    }
}

/// What a measure in metres or in degrees says.
proof fn lemma_is_measure(value: Seq<char>, unit: Option<Tree>)
    requires
        is_value(unsigned_plain(value)),
        is_number(value_of(unsigned_plain(value)), value),
        unit matches Some(u) ==> is_finite_tree(u),
    ensures
        is_value(measure_text(value, unit_text_of(unit), "\"metre\""@)),
        is_measure(
            value_of(measure_text(value, unit_text_of(unit), "\"metre\""@)),
            value,
            unit,
            "metre"@,
        ),
        is_value(measure_text(value, unit_text_of(unit), "\"degree\""@)),
        is_measure(
            value_of(measure_text(value, unit_text_of(unit), "\"degree\""@)),
            value,
            unit,
            "degree"@,
        ),
{
    lemma_unit_of(unit);
    lemma_measure(value, unit_text_of(unit), "\"metre\""@);
    lemma_measure(value, unit_text_of(unit), "\"degree\""@);
}

// --- geographic systems --------------------------------------------------------------------

proof fn lemma_ellipsoid(datum: Tree)
    requires
        is_finite_tree(datum),
    ensures
        ellipsoid_text(datum) matches Some(e) ==> is_member(e) && pair_of(e).0 == "ellipsoid"@
            && child2(datum, "SPHEROID"@, "ELLIPSOID"@) is Some && is_ellipsoid(
            pair_of(e).1,
            child2(datum, "SPHEROID"@, "ELLIPSOID"@)->0,
        ),
{
    lemma_child(datum, "SPHEROID"@, "ELLIPSOID"@, "SPHEROID"@, "ELLIPSOID"@);
    if let Some(e) = child2(datum, "SPHEROID"@, "ELLIPSOID"@) {
        lemma_number_of(e, 0);
        lemma_number_of(e, 1);
        lemma_child(e, "LENGTHUNIT"@, "UNIT"@, "LENGTHUNIT"@, "UNIT"@);
        let unit = unit_text_of(child2(e, "LENGTHUNIT"@, "UNIT"@));
        lemma_unit_of(child2(e, "LENGTHUNIT"@, "UNIT"@));
        if let (Some(semi_major), Some(inverse)) = (number_of(e, 0), number_of(e, 1)) {
            let name = string_text(name_or(e, "unknown"@));
            let axis = measure_text(semi_major, unit, "\"metre\""@);
            let x = unsigned_plain(inverse);
            lemma_is_measure(semi_major, child2(e, "LENGTHUNIT"@, "UNIT"@));
            lemma_mark_ellipsoid();
            lemma_mark_semi_major();
            lemma_mark_flattening();
            lemma_brackets();
            lemma_string(name_or(e, "unknown"@));
            let first = open_mark("name"@) + name;
            lemma_open_first(open_mark("name"@), "name"@, name);
            let second = first + ",\"semi_major_axis\":"@ + axis;
            lemma_open_more(first, ",\"semi_major_axis\":"@, "semi_major_axis"@, axis);
            let third = second + ",\"inverse_flattening\":"@ + x;
            lemma_open_more(second, ",\"inverse_flattening\":"@, "inverse_flattening"@, x);
            lemma_close(third);
            lemma_member("ellipsoid"@, third + seq!['}']);
            lemma_keys();
            lemma_all_found(members_of(third));
            let members = members_of(third);
            assert(members[0].0 == "name"@ && members[1].0 == "semi_major_axis"@);
            assert(members[2].0 == "inverse_flattening"@);
            assert(is_ellipsoid(value_of(third + seq!['}']), e));
            assert(ellipsoid_text(datum)->0 =~= key_text("ellipsoid"@) + (third + seq!['}']));
        }
    }
}

/// A number that is written as zero is zero.
proof fn lemma_zero(t: Seq<char>)
    requires
        is_finite_text(t),
        unsigned_plain(t) == "0"@,
    ensures
        is_zero(t),
{
    if !is_tiny_text(t) {
        law_unsigned_text_is_the_same_number(t);
    }
}

#[verifier::rlimit(30)]
proof fn lemma_prime_meridian(geo: Tree)
    requires
        is_finite_tree(geo),
    ensures
        is_tail(prime_meridian_text(geo)),
        pairs_of(prime_meridian_text(geo)).len() > 0 ==> pairs_of(
            prime_meridian_text(geo),
        )[0].0 == "prime_meridian"@,
        forall|o: Json|
            (pairs_of(prime_meridian_text(geo)).len() == 0 ==> o.member("prime_meridian"@) is None)
                && (pairs_of(prime_meridian_text(geo)).len() > 0 ==> o.member("prime_meridian"@)
                == Some(pairs_of(prime_meridian_text(geo))[0].1)) ==> #[trigger] has_prime_meridian(
                o,
                geo,
            ),
{
    lemma_child(geo, "PRIMEM"@, "PRIMEMERIDIAN"@, "PRIMEM"@, "PRIMEMERIDIAN"@);
    if let Some(pm) = child2(geo, "PRIMEM"@, "PRIMEMERIDIAN"@) {
        lemma_number_of(pm, 0);
        lemma_child(pm, "ANGLEUNIT"@, "UNIT"@, "ANGLEUNIT"@, "UNIT"@);
        let unit = unit_text_of(child2(pm, "ANGLEUNIT"@, "UNIT"@));
        lemma_unit_of(child2(pm, "ANGLEUNIT"@, "UNIT"@));
        if let Some(longitude) = number_of(pm, 0) {
            let name = string_text(name_or(pm, "unknown"@));
            let x = measure_text(longitude, unit, "\"degree\""@);
            lemma_is_measure(longitude, child2(pm, "ANGLEUNIT"@, "UNIT"@));
            lemma_mark_prime_meridian();
            lemma_mark_longitude();
            lemma_brackets();
            lemma_string(name_or(pm, "unknown"@));
            let first = open_mark("name"@) + name;
            lemma_open_first(open_mark("name"@), "name"@, name);
            let second = first + ",\"longitude\":"@ + x;
            lemma_open_more(first, ",\"longitude\":"@, "longitude"@, x);
            lemma_close(second);
            let m = key_text("prime_meridian"@) + (second + seq!['}']);
            lemma_member("prime_meridian"@, second + seq!['}']);
            assert(",\"prime_meridian\":{\"name\":"@ + name + ",\"longitude\":"@ + x + "}"@
                =~= seq![','] + m);
            assert((seq![','] + m).skip(1) =~= m);
            lemma_keys();
            lemma_all_found(members_of(second));
            assert(members_of(second)[0].0 == "name"@ && members_of(second)[1].0 == "longitude"@);
            if prime_meridian_text(geo).len() == 0 {
                assert((seq![','] + m).len() > 0);
                lemma_zero(longitude);
            }
        }
    }
}

/// The members of a datum.
spec fn frame_members(name: Seq<char>, e: Seq<char>, tail: Seq<char>) -> Seq<(Seq<char>, Json)> {
    seq![("type"@, Json::String("GeodeticReferenceFrame"@))].push(
        ("name"@, Json::String(name)),
    ).push(pair_of(e)) + pairs_of(tail)
}

/// What a datum with these members says.
proof fn lemma_frame_members(name: Seq<char>, e: Seq<char>, tail: Seq<char>)
    requires
        pair_of(e).0 == "ellipsoid"@,
        pairs_of(tail).len() > 0 ==> pairs_of(tail)[0].0 == "prime_meridian"@,
    ensures
        ({
            let o = Json::Object(frame_members(name, e, tail));
            &&& has_text(o, "type"@, "GeodeticReferenceFrame"@)
            &&& has_text(o, "name"@, name)
            &&& o.member("ellipsoid"@) == Some(pair_of(e).1)
            &&& pairs_of(tail).len() == 0 ==> o.member("prime_meridian"@) is None
            &&& pairs_of(tail).len() > 0 ==> o.member("prime_meridian"@) == Some(
                pairs_of(tail)[0].1,
            )
        }),
{
    let members = frame_members(name, e, tail);
    lemma_keys();
    assert(members[0].0 == "type"@ && members[1].0 == "name"@ && members[2].0 == "ellipsoid"@);
    assert(pairs_of(tail).len() > 0 ==> members[3].0 == "prime_meridian"@ && members.len() == 4);
    lemma_all_found(members);
    if pairs_of(tail).len() == 0 {
        law_missing_member_is_none(members, "prime_meridian"@);
    }
}

/// The text of a datum.
proof fn lemma_frame_text(name: Seq<char>, e: Seq<char>, tail: Seq<char>)
    requires
        is_member(e),
        is_tail(tail),
    ensures
        ({
            let text = "\"datum\":{\"type\":\"GeodeticReferenceFrame\",\"name\":"@ + string_text(name)
                + ","@ + e + tail + "}"@;
            is_member(text) && pair_of(text) == ("datum"@, Json::Object(frame_members(name, e, tail)))
        }),
{
    let q = string_text(name);
    let kind = string_text("GeodeticReferenceFrame"@);
    lemma_mark_datum();
    lemma_brackets();
    lemma_string(name);
    lemma_string("GeodeticReferenceFrame"@);
    let first = open_mark("type"@) + kind;
    lemma_open_first(open_mark("type"@), "type"@, kind);
    let second = first + more_mark("name"@) + q;
    lemma_open_more(first, more_mark("name"@), "name"@, q);
    let third = second + seq![','] + e;
    lemma_open_member(second, e);
    lemma_open_tail(third, tail);
    lemma_close(third + tail);
    lemma_member("datum"@, third + tail + seq!['}']);
    assert("\"datum\":{\"type\":\"GeodeticReferenceFrame\",\"name\":"@ + q + ","@ + e + tail
        + "}"@ =~= key_text("datum"@) + (third + tail + seq!['}']));
}

/// A datum with a name, an ellipsoid and what follows it.
proof fn lemma_frame(name: Seq<char>, e: Seq<char>, tail: Seq<char>)
    requires
        is_member(e),
        is_tail(tail),
        pair_of(e).0 == "ellipsoid"@,
        pairs_of(tail).len() > 0 ==> pairs_of(tail)[0].0 == "prime_meridian"@,
    ensures
        is_member(
            "\"datum\":{\"type\":\"GeodeticReferenceFrame\",\"name\":"@ + string_text(name) + ","@
                + e + tail + "}"@,
        ),
        ({
            let text = "\"datum\":{\"type\":\"GeodeticReferenceFrame\",\"name\":"@ + string_text(name)
                + ","@ + e + tail + "}"@;
            let o = pair_of(text).1;
            &&& pair_of(text).0 == "datum"@
            &&& has_text(o, "type"@, "GeodeticReferenceFrame"@)
            &&& has_text(o, "name"@, name)
            &&& o.member("ellipsoid"@) == Some(pair_of(e).1)
            &&& pairs_of(tail).len() == 0 ==> o.member("prime_meridian"@) is None
            &&& pairs_of(tail).len() > 0 ==> o.member("prime_meridian"@) == Some(
                pairs_of(tail)[0].1,
            )
        }),
{
    lemma_frame_text(name, e, tail);
    lemma_frame_members(name, e, tail);
}

proof fn lemma_ensemble(ensemble: Tree, e: Seq<char>)
    requires
        is_member(e),
        pair_of(e).0 == "ellipsoid"@,
        child2(ensemble, "SPHEROID"@, "ELLIPSOID"@) is Some,
        is_ellipsoid(pair_of(e).1, child2(ensemble, "SPHEROID"@, "ELLIPSOID"@)->0),
    ensures
        is_member(ensemble_text(ensemble, e)),
        ({
            let o = pair_of(ensemble_text(ensemble, e)).1;
            match accuracy_of(ensemble) {
                Some(a) => pair_of(ensemble_text(ensemble, e)).0 == "datum_ensemble"@ && has_text(
                    o,
                    "name"@,
                    name_or(ensemble, "unknown"@),
                ) && has_ellipsoid(o, ensemble) && has_text(o, "accuracy"@, a),
                None => pair_of(ensemble_text(ensemble, e)).0 == "datum"@ && is_frame(o, ensemble),
            }
        }),
{
    let name = name_or(ensemble, "unknown"@);
    let q = string_text(name);
    match accuracy_of(ensemble) {
        Some(accuracy) => {
            lemma_mark_ensemble();
            lemma_mark_accuracy();
            lemma_brackets();
            lemma_string(name);
            lemma_string(accuracy);
            let first = open_mark("name"@) + q;
            lemma_open_first(open_mark("name"@), "name"@, q);
            let second = first + seq![','] + e;
            lemma_open_member(first, e);
            let third = second + ",\"accuracy\":"@ + string_text(accuracy);
            lemma_open_more(second, ",\"accuracy\":"@, "accuracy"@, string_text(accuracy));
            lemma_close(third);
            let members = members_of(third);
            lemma_keys();
            assert(members[0].0 == "name"@ && members[1].0 == "ellipsoid"@);
            assert(members[2].0 == "accuracy"@);
            lemma_all_found(members);
            lemma_member("datum_ensemble"@, third + seq!['}']);
            assert(ensemble_text(ensemble, e) =~= key_text("datum_ensemble"@) + (third + seq!['}']));
        },
        None => {
            lemma_frame(name, e, Seq::empty());
            let head = "\"datum\":{\"type\":\"GeodeticReferenceFrame\",\"name\":"@ + q + ","@ + e;
            assert(head + Seq::empty() =~= head);
        },
    }
}

proof fn lemma_datum(geo: Tree)
    requires
        is_finite_tree(geo),
    ensures
        datum_text(geo) matches Some(d) ==> is_member(d) && (pair_of(d).0 == "datum"@ || pair_of(
            d,
        ).0 == "datum_ensemble"@) && forall|v: Json|
            v.member(pair_of(d).0) == Some(pair_of(d).1) ==> #[trigger] has_datum(v, geo),
{
    lemma_child(geo, "DATUM"@, "GEODETICDATUM"@, "TRF"@, "TRF"@);
    lemma_child(geo, "ENSEMBLE"@, "ENSEMBLE"@, "ENSEMBLE"@, "ENSEMBLE"@);
    match child4(geo, "DATUM"@, "GEODETICDATUM"@, "TRF"@, "TRF"@) {
        Some(datum) => {
            lemma_ellipsoid(datum);
            lemma_prime_meridian(geo);
            if let Some(e) = ellipsoid_text(datum) {
                lemma_frame(name_or(datum, "unknown"@), e, prime_meridian_text(geo));
            }
        },
        None => {
            if let Some(ensemble) = child1(geo, "ENSEMBLE"@) {
                lemma_ellipsoid(ensemble);
                if let Some(e) = ellipsoid_text(ensemble) {
                    lemma_ensemble(ensemble, e);
                }
            }
        },
    }
}

/// What stands before the unit of an axis.
spec fn axis_mark(name: Seq<char>, abbreviation: Seq<char>, direction: Seq<char>) -> Seq<char> {
    open_mark("name"@) + string_text(name) + more_mark("abbreviation"@) + string_text(abbreviation)
        + more_mark("direction"@) + string_text(direction) + more_mark("unit"@)
}

/// An axis with a name, an abbreviation, a direction and a unit.
proof fn lemma_plain_axis(
    name: Seq<char>,
    abbreviation: Seq<char>,
    direction: Seq<char>,
    u: Seq<char>,
)
    requires
        is_value(u),
    ensures
        is_value(axis_mark(name, abbreviation, direction) + u + seq!['}']),
        is_axis(
            value_of(axis_mark(name, abbreviation, direction) + u + seq!['}']),
            name,
            abbreviation,
            direction,
            value_of(u),
        ),
{
    lemma_string(name);
    lemma_string(abbreviation);
    lemma_string(direction);
    let first = open_mark("name"@) + string_text(name);
    lemma_open_first(open_mark("name"@), "name"@, string_text(name));
    let second = first + more_mark("abbreviation"@) + string_text(abbreviation);
    lemma_open_more(
        first,
        more_mark("abbreviation"@),
        "abbreviation"@,
        string_text(abbreviation),
    );
    let third = second + more_mark("direction"@) + string_text(direction);
    lemma_open_more(second, more_mark("direction"@), "direction"@, string_text(direction));
    lemma_open_more(third, more_mark("unit"@), "unit"@, u);
    lemma_close(third + more_mark("unit"@) + u);
    let members = members_of(third + more_mark("unit"@) + u);
    lemma_keys();
    assert(members[0].0 == "name"@ && members[1].0 == "abbreviation"@);
    assert(members[2].0 == "direction"@ && members[3].0 == "unit"@);
    lemma_all_found(members);
}

/// A mark behind others, put together from its parts.
proof fn lemma_behind(
    before: Seq<char>,
    name: Seq<char>,
    abbreviation: Seq<char>,
    direction: Seq<char>,
)
    ensures
        before + open_mark("name"@) + string_text(name) + more_mark("abbreviation"@) + string_text(
            abbreviation,
        ) + more_mark("direction"@) + string_text(direction) + more_mark("unit"@) == before
            + axis_mark(name, abbreviation, direction),
{
    let a = open_mark("name"@);
    let b = string_text(name);
    let c = more_mark("abbreviation"@);
    let d = string_text(abbreviation);
    let e = more_mark("direction"@);
    let f = string_text(direction);
    let g = more_mark("unit"@);
    assert(before + a + b =~= before + (a + b));
    assert(before + (a + b) + c =~= before + (a + b + c));
    assert(before + (a + b + c) + d =~= before + (a + b + c + d));
    assert(before + (a + b + c + d) + e =~= before + (a + b + c + d + e));
    assert(before + (a + b + c + d + e) + f =~= before + (a + b + c + d + e + f));
    assert(before + (a + b + c + d + e + f) + g =~= before + (a + b + c + d + e + f + g));
}

/// A coordinate system with axes.
proof fn lemma_coordinate_system(mark: Seq<char>, subtype: Seq<char>, axes: Seq<char>)
    requires
        is_list(axes),
        mark == open_mark("subtype"@) + string_text(subtype) + more_mark("axis"@) + seq!['['],
    ensures
        is_value(mark + axes + (seq![']'] + seq!['}'])),
        has_axes(value_of(mark + axes + (seq![']'] + seq!['}'])), subtype, values_of(axes)),
{
    lemma_string(subtype);
    lemma_array(axes);
    let first = open_mark("subtype"@) + string_text(subtype);
    let list = seq!['['] + axes + seq![']'];
    let more = more_mark("axis"@);
    lemma_open_first(open_mark("subtype"@), "subtype"@, string_text(subtype));
    lemma_open_more(first, more, "axis"@, list);
    lemma_close(first + more + list);
    let members = members_of(first + more + list);
    lemma_keys();
    assert(members[0].0 == "subtype"@ && members[1].0 == "axis"@);
    lemma_all_found(members);
    assert(mark + axes + (seq![']'] + seq!['}']) =~= first + more + list + seq!['}']);
}

/// Two axes, one behind the other.
proof fn lemma_two_axes(a: Seq<char>, b: Seq<char>, u: Seq<char>)
    requires
        is_value(a + u + seq!['}']),
        is_value(b + u + seq!['}']),
    ensures
        is_list(a + u + (seq!['}'] + seq![','] + b) + u + seq!['}']),
        values_of(a + u + (seq!['}'] + seq![','] + b) + u + seq!['}']) == seq![
            value_of(a + u + seq!['}']),
            value_of(b + u + seq!['}']),
        ],
{
    let one = a + u + seq!['}'];
    let other = b + u + seq!['}'];
    lemma_list_first(one);
    lemma_list_more(one, other);
    assert(seq![value_of(one)].push(value_of(other)) =~= seq![value_of(one), value_of(other)]);
    assert(a + u + (seq!['}'] + seq![','] + b) + u + seq!['}'] =~= one + seq![','] + other);
}

proof fn lemma_ellipsoidal_axes(u: Seq<char>)
    requires
        is_value(u),
    ensures
        is_list(
            "{\"name\":\"Geodetic latitude\",\"abbreviation\":\"Lat\",\"direction\":\"north\",\"unit\":"@
                + u
                + "},{\"name\":\"Geodetic longitude\",\"abbreviation\":\"Lon\",\"direction\":\"east\",\"unit\":"@
                + u + "}"@,
        ),
        ({
            let axes = values_of(
                "{\"name\":\"Geodetic latitude\",\"abbreviation\":\"Lat\",\"direction\":\"north\",\"unit\":"@
                    + u
                    + "},{\"name\":\"Geodetic longitude\",\"abbreviation\":\"Lon\",\"direction\":\"east\",\"unit\":"@
                    + u + "}"@,
            );
            &&& axes.len() == 2
            &&& is_axis(axes[0], "Geodetic latitude"@, "Lat"@, "north"@, value_of(u))
            &&& is_axis(axes[1], "Geodetic longitude"@, "Lon"@, "east"@, value_of(u))
        }),
{
    lemma_plain_axis("Geodetic latitude"@, "Lat"@, "north"@, u);
    lemma_plain_axis("Geodetic longitude"@, "Lon"@, "east"@, u);
    lemma_mark_latitude_axis();
    lemma_mark_longitude_axis();
    lemma_brackets();
    lemma_behind(seq!['}'] + seq![','], "Geodetic longitude"@, "Lon"@, "east"@);
    lemma_two_axes(
        axis_mark("Geodetic latitude"@, "Lat"@, "north"@),
        axis_mark("Geodetic longitude"@, "Lon"@, "east"@),
        u,
    );
}

proof fn lemma_height_axis()
    ensures
        ",{\"name\":\"Ellipsoidal height\",\"abbreviation\":\"h\",\"direction\":\"up\",\"unit\":\"metre\"}"@
            == seq![','] + (axis_mark("Ellipsoidal height"@, "h"@, "up"@) + string_text("metre"@)
            + seq!['}']),
        is_value(
            axis_mark("Ellipsoidal height"@, "h"@, "up"@) + string_text("metre"@) + seq!['}'],
        ),
        is_axis(
            value_of(
                axis_mark("Ellipsoidal height"@, "h"@, "up"@) + string_text("metre"@) + seq!['}'],
            ),
            "Ellipsoidal height"@,
            "h"@,
            "up"@,
            Json::String("metre"@),
        ),
{
    let metre = string_text("metre"@);
    let mark = axis_mark("Ellipsoidal height"@, "h"@, "up"@);
    lemma_string("metre"@);
    lemma_plain_axis("Ellipsoidal height"@, "h"@, "up"@, metre);
    lemma_mark_height_axis();
    lemma_behind(seq![','], "Ellipsoidal height"@, "h"@, "up"@);
    assert(seq![','] + mark + metre + seq!['}'] =~= seq![','] + (mark + metre + seq!['}']));
}

proof fn lemma_ellipsoidal_cs(geo: Tree, three: bool)
    requires
        is_finite_tree(geo),
    ensures
        is_value(ellipsoidal_cs_text(geo, three)),
        is_ellipsoidal(
            value_of(ellipsoidal_cs_text(geo, three)),
            value_of(angular_unit_text(geo)),
            three,
        ),
        is_unit_or(value_of(angular_unit_text(geo)), stated_angle(geo), "degree"@),
{
    let u = angular_unit_text(geo);
    let mark = "{\"subtype\":\"ellipsoidal\",\"axis\":["@;
    let axes =
        "{\"name\":\"Geodetic latitude\",\"abbreviation\":\"Lat\",\"direction\":\"north\",\"unit\":"@
        + u
        + "},{\"name\":\"Geodetic longitude\",\"abbreviation\":\"Lon\",\"direction\":\"east\",\"unit\":"@
        + u + "}"@;
    lemma_angular_unit(geo);
    lemma_ellipsoidal_axes(u);
    lemma_height_axis();
    lemma_mark_ellipsoidal();
    lemma_mark_list_end();
    if three {
        let height = axis_mark("Ellipsoidal height"@, "h"@, "up"@) + string_text("metre"@) + seq![
            '}',
        ];
        let text =
            ",{\"name\":\"Ellipsoidal height\",\"abbreviation\":\"h\",\"direction\":\"up\",\"unit\":\"metre\"}"@;
        lemma_list_more(axes, height);
        assert(axes + text =~= axes + seq![','] + height);
        lemma_coordinate_system(mark, "ellipsoidal"@, axes + text);
        assert(mark + axes + text =~= mark + (axes + text));
        assert(has_axes(
            value_of(ellipsoidal_cs_text(geo, three)),
            "ellipsoidal"@,
            values_of(axes + text),
        ));
    } else {
        lemma_coordinate_system(mark, "ellipsoidal"@, axes);
        assert(has_axes(
            value_of(ellipsoidal_cs_text(geo, three)),
            "ellipsoidal"@,
            values_of(axes),
        ));
    }
}

/// What a geographic system with these members says.
proof fn lemma_geographic_members(t: Tree, three: bool, cs: Json, unit: Json)
    requires
        name_of(t) is Some,
        datum_text(t) is Some,
        is_finite_tree(t),
        is_ellipsoidal(cs, unit, three),
        is_unit_or(unit, stated_angle(t), "degree"@),
    ensures
        is_geographic(Json::Object(geographic_members(t, cs)), t, three),
{
    let members = geographic_members(t, cs);
    lemma_id_member(t);
    lemma_datum(t);
    lemma_keys();
    assert(members[0].0 == "type"@ && members[1].0 == "name"@);
    assert(members[2] == pair_of(datum_text(t)->0) && members[3].0 == "coordinate_system"@);
    if identifier_of(t) is Some {
        assert(members[4] == pairs_of(id_member(t))[0]);
    }
    lemma_all_found(members);
    if identifier_of(t) is None {
        assert(members.len() == 4);
        law_missing_member_is_none(members, "id"@);
    }
    let v = Json::Object(members);
    assert(has_datum(v, t));
    assert(has_id(v, t));
}

/// The members of a geographic system.
spec fn geographic_members(t: Tree, cs: Json) -> Seq<(Seq<char>, Json)> {
    seq![("type"@, Json::String("GeographicCRS"@))].push(
        ("name"@, Json::String(name_of(t)->0)),
    ).push(pair_of(datum_text(t)->0)).push(("coordinate_system"@, cs)) + pairs_of(id_member(t))
}

proof fn lemma_geographic(t: Tree, three: bool)
    requires
        is_finite_tree(t),
    ensures
        geographic_text(t, three) matches Some(x) ==> is_value(x) && x[0] == '{'
            && is_geographic(value_of(x), t, three),
{
    if let (Some(name), Some(datum)) = (name_of(t), datum_text(t)) {
        let cs = ellipsoidal_cs_text(t, three);
        lemma_ellipsoidal_cs(t, three);
        lemma_geographic_text(t, three);
        lemma_geographic_members(t, three, value_of(cs), value_of(angular_unit_text(t)));
    }
}

/// The text of a geographic system.
proof fn lemma_geographic_text(t: Tree, three: bool)
    requires
        is_finite_tree(t),
        name_of(t) is Some,
        datum_text(t) is Some,
        is_value(ellipsoidal_cs_text(t, three)),
    ensures
        geographic_text(t, three) matches Some(x) && is_value(x) && x[0] == '{' && value_of(x)
            == Json::Object(geographic_members(t, value_of(ellipsoidal_cs_text(t, three)))),
{
    let name = name_of(t)->0;
    let datum = datum_text(t)->0;
    let q = string_text(name);
    let kind = string_text("GeographicCRS"@);
    let cs = ellipsoidal_cs_text(t, three);
    assert(is_member(datum)) by {
        lemma_datum(t);
    }
    assert(is_tail(id_member(t))) by {
        lemma_id_member(t);
    }
    lemma_mark_geographic();
    lemma_mark_system();
    lemma_brackets();
    lemma_string(name);
    lemma_string("GeographicCRS"@);
    let first = open_mark("type"@) + kind;
    lemma_open_first(open_mark("type"@), "type"@, kind);
    let second = first + more_mark("name"@) + q;
    lemma_open_more(first, more_mark("name"@), "name"@, q);
    let third = second + seq![','] + datum;
    lemma_open_member(second, datum);
    let fourth = third + ",\"coordinate_system\":"@ + cs;
    lemma_open_more(third, ",\"coordinate_system\":"@, "coordinate_system"@, cs);
    lemma_open_tail(fourth, id_member(t));
    lemma_close(fourth + id_member(t));
    let x = geographic_text(t, three)->0;
    assert(x =~= fourth + id_member(t) + seq!['}']);
    assert(x[0] == open_mark("type"@)[0]);
}

// --- projected systems ---------------------------------------------------------------------

/// An axis up to its direction.
proof fn lemma_axis_head(name: Seq<char>, abbreviation: Seq<char>, direction: Seq<char>)
    ensures
        is_open(axis_head(name, abbreviation, direction)),
        members_of(axis_head(name, abbreviation, direction)) == seq![
            ("name"@, Json::String(name)),
            ("abbreviation"@, Json::String(abbreviation)),
            ("direction"@, Json::String(direction)),
        ],
{
    lemma_mark_name_first();
    lemma_mark_abbreviation();
    lemma_mark_direction();
    lemma_string(name);
    lemma_string(abbreviation);
    lemma_string(direction);
    let first = "{\"name\":"@ + string_text(name);
    lemma_open_first("{\"name\":"@, "name"@, string_text(name));
    let second = first + ",\"abbreviation\":"@ + string_text(abbreviation);
    lemma_open_more(first, ",\"abbreviation\":"@, "abbreviation"@, string_text(abbreviation));
    lemma_open_more(second, ",\"direction\":"@, "direction"@, string_text(direction));
    assert(members_of(axis_head(name, abbreviation, direction)) =~= seq![
        ("name"@, Json::String(name)),
        ("abbreviation"@, Json::String(abbreviation)),
        ("direction"@, Json::String(direction)),
    ]);
}

proof fn lemma_meridian(axis: Tree)
    requires
        is_finite_tree(axis),
    ensures
        is_tail(meridian_member(axis)),
        pairs_of(meridian_member(axis)).len() > 0 ==> pairs_of(meridian_member(axis))[0].0
            == "meridian"@,
        forall|v: Json|
            (pairs_of(meridian_member(axis)).len() == 0 ==> v.member("meridian"@) is None) && (
            pairs_of(meridian_member(axis)).len() > 0 ==> v.member("meridian"@) == Some(
                pairs_of(meridian_member(axis))[0].1,
            )) ==> #[trigger] has_meridian(v, axis),
{
    lemma_child(axis, "MERIDIAN"@, "MERIDIAN"@, "MERIDIAN"@, "MERIDIAN"@);
    if let Some(m) = child1(axis, "MERIDIAN"@) {
        lemma_number_of(m, 0);
        if let Some(longitude) = number_of(m, 0) {
            let x = unsigned_plain(longitude);
            lemma_mark_meridian();
            lemma_brackets();
            let object = open_mark("longitude"@) + x;
            lemma_open_first(open_mark("longitude"@), "longitude"@, x);
            lemma_close(object);
            lemma_member("meridian"@, object + seq!['}']);
            lemma_keys();
            lemma_found(members_of(object), 0);
            assert(meridian_member(axis) =~= seq![','] + (key_text("meridian"@) + (object + seq![
                '}',
            ])));
            assert(meridian_member(axis).skip(1) =~= key_text("meridian"@) + (object + seq!['}']));
        }
    }
}

proof fn lemma_axis(axis: Tree, linear: Option<Seq<char>>)
    requires
        is_finite_tree(axis),
        linear matches Some(u) ==> is_value(u),
    ensures
        axis_text(axis, linear) is Some <==> word_of(axis) is Some,
        axis_text(axis, linear) matches Some(x) ==> is_value(x) && says_axis(
            value_of(x),
            axis,
            value_in(linear),
        ),
{
    if let Some(word) = word_of(axis) {
        match linear {
            Some(unit) => {
                lemma_axis_wkt1(axis, word, unit);
            },
            None => {
                lemma_axis_wkt2(axis, word);
            },
        }
    }
}

/// The value of an optional text.
spec fn value_in(t: Option<Seq<char>>) -> Option<Json> {
    match t {
        Some(t) => Some(value_of(t)),
        None => None,
    }
}

proof fn lemma_axis_wkt1(axis: Tree, word: Seq<char>, unit: Seq<char>)
    requires
        word_of(axis) == Some(word),
        is_value(unit),
    ensures
        axis_text(axis, Some(unit)) matches Some(x) && is_value(x) && says_axis(
            value_of(x),
            axis,
            Some(value_of(unit)),
        ),
{
    let direction = lower_text(word);
    let names = axis_names(name_or(axis, ""@), direction);
    let head = axis_head(names.0, names.1, direction);
    let all = head + ",\"unit\":"@ + unit;
    lemma_mark_unit();
    lemma_brackets();
    lemma_axis_head(names.0, names.1, direction);
    lemma_open_more(head, ",\"unit\":"@, "unit"@, unit);
    lemma_close(all);
    let members = members_of(all);
    lemma_keys();
    assert(members[0].0 == "name"@ && members[1].0 == "abbreviation"@);
    assert(members[2].0 == "direction"@ && members[3] == ("unit"@, value_of(unit)));
    lemma_all_found(members);
    law_missing_member_is_none(members, "meridian"@);
}

proof fn lemma_axis_wkt2(axis: Tree, word: Seq<char>)
    requires
        is_finite_tree(axis),
        word_of(axis) == Some(word),
    ensures
        axis_text(axis, None) matches Some(x) && is_value(x) && says_axis(value_of(x), axis, None),
{
    let names = axis_names(name_or(axis, ""@), word);
    let head = axis_head(names.0, names.1, word);
    let stated = child2(axis, "LENGTHUNIT"@, "UNIT"@);
    let unit = match unit_text_of(stated) {
        Some(u) => u,
        None => "\"metre\""@,
    };
    lemma_standard_units();
    lemma_mark_unit();
    lemma_brackets();
    lemma_child(axis, "LENGTHUNIT"@, "UNIT"@, "LENGTHUNIT"@, "UNIT"@);
    lemma_unit_of(stated);
    lemma_axis_head(names.0, names.1, word);
    lemma_meridian(axis);
    lemma_open_tail(head, meridian_member(axis));
    let longer = head + meridian_member(axis);
    let all = longer + ",\"unit\":"@ + unit;
    lemma_open_more(longer, ",\"unit\":"@, "unit"@, unit);
    lemma_close(all);
    let members = members_of(all);
    let extra = pairs_of(meridian_member(axis));
    lemma_keys();
    assert(members[0].0 == "name"@ && members[1].0 == "abbreviation"@);
    assert(members[2].0 == "direction"@);
    if extra.len() == 0 {
        assert(members[3] == ("unit"@, value_of(unit)));
    } else {
        assert(members[3] == extra[0] && members[4] == ("unit"@, value_of(unit)));
    }
    lemma_all_found(members);
    if extra.len() == 0 {
        assert(members.len() == 4);
        law_missing_member_is_none(members, "meridian"@);
    }
    assert(has_meridian(Json::Object(members), axis));
}

proof fn lemma_axes(axes: Seq<Tree>, i: int, linear: Option<Seq<char>>, so_far: Seq<char>)
    requires
        0 <= i <= axes.len(),
        forall|k: int| 0 <= k < axes.len() ==> is_finite_tree(#[trigger] axes[k]),
        linear matches Some(u) ==> is_value(u),
        i == 0 ==> so_far.len() == 0,
        i > 0 ==> is_list(so_far) && values_of(so_far).len() == i,
        i > 0 ==> forall|k: int|
            0 <= k < i ==> says_axis(
                #[trigger] values_of(so_far)[k],
                axes[k],
                value_in(linear),
            ),
    ensures
        axes_from(axes, i, linear, so_far) is Some <==> forall|k: int|
            i <= k < axes.len() ==> word_of(#[trigger] axes[k]) is Some,
        axes_from(axes, i, linear, so_far) matches Some(x) ==> axes.len() > 0 ==> is_list(x)
            && values_of(x).len() == axes.len() && forall|k: int|
            0 <= k < axes.len() ==> says_axis(
                #[trigger] values_of(x)[k],
                axes[k],
                value_in(linear),
            ),
    decreases axes.len() - i,
{
    if i < axes.len() {
        lemma_axis(axes[i], linear);
        lemma_brackets();
        if let Some(t) = axis_text(axes[i], linear) {
            if i == 0 {
                assert(so_far + t =~= t);
                lemma_list_first(t);
                lemma_axes(axes, 1, linear, so_far + t);
            } else {
                lemma_list_more(so_far, t);
                lemma_axes(axes, i + 1, linear, so_far + ","@ + t);
            }
            assert(word_of(axes[i]) is Some);
        } else {
            assert(word_of(axes[i]) is None);
        }
    }
}

/// Easting and northing in a unit.
proof fn lemma_easting_northing(u: Seq<char>)
    requires
        is_value(u),
    ensures
        is_value(easting_northing(u)),
        exists|axes: Seq<Json>| #[trigger]
            has_axes(value_of(easting_northing(u)), "Cartesian"@, axes) && axes.len() == 2
                && is_axis(axes[0], "Easting"@, "E"@, "east"@, value_of(u)) && is_axis(
                axes[1],
                "Northing"@,
                "N"@,
                "north"@,
                value_of(u),
            ),
{
    let mark = open_mark("subtype"@) + string_text("Cartesian"@) + more_mark("axis"@) + seq!['['];
    let a = axis_mark("Easting"@, "E"@, "east"@);
    let b = axis_mark("Northing"@, "N"@, "north"@);
    lemma_plain_axis("Easting"@, "E"@, "east"@, u);
    lemma_plain_axis("Northing"@, "N"@, "north"@, u);
    lemma_two_axes(a, b, u);
    let axes = a + u + (seq!['}'] + seq![','] + b) + u + seq!['}'];
    lemma_coordinate_system(mark, "Cartesian"@, axes);
    assert(has_axes(value_of(easting_northing(u)), "Cartesian"@, values_of(axes)));
}

/// Easting and northing in a unit, put together from their parts.
spec fn easting_northing(u: Seq<char>) -> Seq<char> {
    open_mark("subtype"@) + string_text("Cartesian"@) + more_mark("axis"@) + seq!['['] + (axis_mark(
        "Easting"@,
        "E"@,
        "east"@,
    ) + u + (seq!['}'] + seq![','] + axis_mark("Northing"@, "N"@, "north"@)) + u + seq!['}']) + (seq![
        ']',
    ] + seq!['}'])
}

/// Easting and northing in a unit, as they are written.
proof fn lemma_default_axes(u: Seq<char>)
    requires
        is_value(u),
    ensures
        is_value(
            "{\"subtype\":\"Cartesian\",\"axis\":[{\"name\":\"Easting\",\"abbreviation\":\"E\",\"direction\":\"east\",\"unit\":"@
                + u
                + "},{\"name\":\"Northing\",\"abbreviation\":\"N\",\"direction\":\"north\",\"unit\":"@
                + u + "}]}"@,
        ),
        ({
            let cs = value_of(
                "{\"subtype\":\"Cartesian\",\"axis\":[{\"name\":\"Easting\",\"abbreviation\":\"E\",\"direction\":\"east\",\"unit\":"@
                    + u
                    + "},{\"name\":\"Northing\",\"abbreviation\":\"N\",\"direction\":\"north\",\"unit\":"@
                    + u + "}]}"@,
            );
            exists|axes: Seq<Json>| #[trigger]
                has_axes(cs, "Cartesian"@, axes) && axes.len() == 2 && is_axis(
                    axes[0],
                    "Easting"@,
                    "E"@,
                    "east"@,
                    value_of(u),
                ) && is_axis(axes[1], "Northing"@, "N"@, "north"@, value_of(u))
        }),
{
    let mark = open_mark("subtype"@) + string_text("Cartesian"@) + more_mark("axis"@) + seq!['['];
    let a = axis_mark("Easting"@, "E"@, "east"@);
    let b = axis_mark("Northing"@, "N"@, "north"@);
    let middle = seq!['}'] + seq![','] + b;
    let end = seq!['}'] + seq![']'] + seq!['}'];
    lemma_mark_easting();
    lemma_mark_northing();
    lemma_mark_axes_end();
    lemma_behind(mark, "Easting"@, "E"@, "east"@);
    lemma_behind(seq!['}'] + seq![','], "Northing"@, "N"@, "north"@);
    let axes = a + u + middle + u + seq!['}'];
    assert((mark + a) + u + middle + u + end =~= mark + axes + (seq![']'] + seq!['}']));
    lemma_easting_northing(u);
}

proof fn lemma_cartesian(t: Tree, linear: Option<Seq<char>>)
    requires
        is_finite_tree(t),
        linear matches Some(u) ==> is_value(u),
    ensures
        is_value(cartesian_text(t, linear)),
        exists|axes: Seq<Json>| #[trigger]
            has_axes(value_of(cartesian_text(t, linear)), "Cartesian"@, axes) && are_axes(
                axes,
                t,
                value_in(linear),
            ),
{
    let axes = children_of(t, "AXIS"@);
    let unit = match linear {
        Some(u) => u,
        None => "\"metre\""@,
    };
    lemma_children_from(t, 0, "AXIS"@);
    lemma_standard_units();
    lemma_default_axes(unit);
    if axes.len() >= 2 {
        lemma_axes(axes, 0, linear, Seq::empty());
        lemma_mark_cartesian();
        lemma_mark_list_end();
        if let Some(own) = axes_from(axes, 0, linear, Seq::empty()) {
            lemma_coordinate_system("{\"subtype\":\"Cartesian\",\"axis\":["@, "Cartesian"@, own);
            assert(states_axes(t));
            assert(has_axes(value_of(cartesian_text(t, linear)), "Cartesian"@, values_of(own)));
            assert(are_axes(values_of(own), t, value_in(linear)));
        }
    }
}

proof fn lemma_parameter_object(
    name: Seq<char>,
    value: Seq<char>,
    unit: Seq<char>,
    id: Seq<char>,
)
    requires
        is_value(unsigned_plain(value)),
        is_value(unit),
        is_value(id),
    ensures
        is_value(parameter_object(name, value, unit, id)),
        ({
            let v = value_of(parameter_object(name, value, unit, id));
            &&& has_text(v, "name"@, name)
            &&& v.member("value"@) == Some(value_of(unsigned_plain(value)))
            &&& v.member("unit"@) == Some(value_of(unit))
            &&& v.member("id"@) == Some(value_of(id))
        }),
{
    let q = string_text(name);
    let x = unsigned_plain(value);
    lemma_mark_name_first();
    lemma_mark_value();
    lemma_mark_unit();
    lemma_mark_id();
    lemma_brackets();
    lemma_string(name);
    let first = "{\"name\":"@ + q;
    lemma_open_first("{\"name\":"@, "name"@, q);
    let second = first + ",\"value\":"@ + x;
    lemma_open_more(first, ",\"value\":"@, "value"@, x);
    let third = second + ",\"unit\":"@ + unit;
    lemma_open_more(second, ",\"unit\":"@, "unit"@, unit);
    lemma_open_more(third, ",\"id\":"@, "id"@, id);
    lemma_close(third + ",\"id\":"@ + id);
    let members = members_of(third + ",\"id\":"@ + id);
    lemma_keys();
    assert(members[0].0 == "name"@ && members[1].0 == "value"@);
    assert(members[2].0 == "unit"@ && members[3].0 == "id"@);
    lemma_all_found(members);
}

/// The identifier of an entry of the tables.
proof fn lemma_table_id(code: int)
    requires
        0 <= code <= 99999,
    ensures
        is_value(id_object("EPSG"@, decimal(code as nat))),
        is_id(value_of(id_object("EPSG"@, decimal(code as nat))), "EPSG"@, code),
{
    reveal(is_id);
    lemma_integer(code);
    assert(signed_decimal(code) == decimal(code as nat));
    lemma_id("EPSG"@, decimal(code as nat));
}

/// Whether what parameters take from their surroundings are values.
spec fn is_around(around: Option<Around>) -> bool {
    around matches Some(a) ==> is_value(a.angular) && is_value(a.linear)
}

/// The units of what parameters take from their surroundings.
spec fn units_in(around: Option<Around>) -> Option<Units> {
    match around {
        Some(a) => Some(
            Units { method: a.method, angular: value_of(a.angular), linear: value_of(a.linear) },
        ),
        None => None,
    }
}

proof fn lemma_parameter(p: Tree, around: Option<Around>)
    requires
        is_finite_tree(p),
        is_around(around),
    ensures
        parameter_text(p, around) matches Some(x) ==> is_value(x) && says_parameter(
            value_of(x),
            p,
            units_in(around),
        ),
{
    lemma_number_of(p, 0);
    lemma_standard_units();
    if let (Some(name), Some(value)) = (name_of(p), number_of(p, 0)) {
        match around {
            None => {
                let unit = child4(p, "ANGLEUNIT"@, "LENGTHUNIT"@, "SCALEUNIT"@, "UNIT"@);
                lemma_child(p, "ANGLEUNIT"@, "LENGTHUNIT"@, "SCALEUNIT"@, "UNIT"@);
                lemma_unit_of(unit);
                lemma_identifier(p);
                if let (Some(u), Some((authority, code))) = (unit_text_of(unit), identifier_of(p)) {
                    lemma_parameter_object(
                        name,
                        value,
                        u,
                        id_object(authority, signed_decimal(code)),
                    );
                }
            },
            Some(a) => {
                if let Some((canonical, code, kind)) = param_entry(a.method, name) {
                    lemma_table_id(code);
                    lemma_parameter_object(
                        canonical,
                        value,
                        unit_of_kind(kind, a),
                        id_object("EPSG"@, decimal(code as nat)),
                    );
                }
            },
        }
    }
}

proof fn lemma_parameters(params: Seq<Tree>, i: int, around: Option<Around>, so_far: Seq<char>)
    requires
        0 <= i <= params.len(),
        forall|k: int| 0 <= k < params.len() ==> is_finite_tree(#[trigger] params[k]),
        is_around(around),
        i == 0 ==> so_far.len() == 0,
        i > 0 ==> is_list(so_far) && values_of(so_far).len() == i,
        i > 0 ==> forall|k: int|
            0 <= k < i ==> says_parameter(
                #[trigger] values_of(so_far)[k],
                params[k],
                units_in(around),
            ),
    ensures
        parameters_from(params, i, around, so_far) matches Some(x) ==> params.len() > 0 ==> is_list(
            x,
        ) && values_of(x).len() == params.len() && forall|k: int|
            0 <= k < params.len() ==> says_parameter(
                #[trigger] values_of(x)[k],
                params[k],
                units_in(around),
            ),
    decreases params.len() - i,
{
    if i < params.len() {
        lemma_parameter(params[i], around);
        lemma_brackets();
        if let Some(t) = parameter_text(params[i], around) {
            if i == 0 {
                assert(so_far + t =~= t);
                lemma_list_first(t);
                lemma_parameters(params, 1, around, so_far + t);
            } else {
                lemma_list_more(so_far, t);
                lemma_parameters(params, i + 1, around, so_far + ","@ + t);
            }
        }
    }
}

proof fn lemma_parameters_of(t: Tree, around: Option<Around>)
    requires
        is_finite_tree(t),
        is_around(around),
    ensures
        parameters_text(t, around) matches Some(x) ==> is_list(x) && are_parameters(
            values_of(x),
            t,
            units_in(around),
        ),
{
    lemma_children_from(t, 0, "PARAMETER"@);
    lemma_parameters(children_of(t, "PARAMETER"@), 0, around, Seq::empty());
}

/// The conversion of a projected system.
proof fn lemma_conversion(
    conversion: Seq<char>,
    method_name: Seq<char>,
    method_id: Seq<char>,
    parameters: Seq<char>,
)
    requires
        is_value(method_id),
        is_list(parameters),
    ensures
        is_value(
            open_mark("name"@) + string_text(conversion) + more_mark("method"@) + (open_mark(
                "name"@,
            ) + string_text(method_name) + more_mark("id"@) + method_id + seq!['}']) + more_mark(
                "parameters"@,
            ) + (seq!['['] + parameters + seq![']']) + seq!['}'],
        ),
        ({
            let c = value_of(
                open_mark("name"@) + string_text(conversion) + more_mark("method"@) + (open_mark(
                    "name"@,
                ) + string_text(method_name) + more_mark("id"@) + method_id + seq!['}'])
                    + more_mark("parameters"@) + (seq!['['] + parameters + seq![']']) + seq!['}'],
            );
            &&& has_text(c, "name"@, conversion)
            &&& c.member("method"@) matches Some(m) && has_text(m, "name"@, method_name)
                && m.member("id"@) == Some(value_of(method_id))
            &&& c.member("parameters"@) == Some(Json::Array(values_of(parameters)))
        }),
{
    lemma_string(conversion);
    lemma_string(method_name);
    lemma_array(parameters);
    let head = open_mark("name"@) + string_text(method_name);
    lemma_open_first(open_mark("name"@), "name"@, string_text(method_name));
    lemma_open_more(head, more_mark("id"@), "id"@, method_id);
    let method = head + more_mark("id"@) + method_id + seq!['}'];
    lemma_close(head + more_mark("id"@) + method_id);
    lemma_keys();
    let inner = members_of(head + more_mark("id"@) + method_id);
    assert(inner[0].0 == "name"@ && inner[1].0 == "id"@);
    lemma_all_found(inner);
    let list = seq!['['] + parameters + seq![']'];
    let first = open_mark("name"@) + string_text(conversion);
    lemma_open_first(open_mark("name"@), "name"@, string_text(conversion));
    let second = first + more_mark("method"@) + method;
    lemma_open_more(first, more_mark("method"@), "method"@, method);
    lemma_open_more(second, more_mark("parameters"@), "parameters"@, list);
    lemma_close(second + more_mark("parameters"@) + list);
    let members = members_of(second + more_mark("parameters"@) + list);
    assert(members[0].0 == "name"@ && members[1].0 == "method"@ && members[2].0 == "parameters"@);
    lemma_all_found(members);
}

/// The inside of a projected system, with its parts side by side, is its parts put
/// together.
proof fn lemma_conversion_parts(
    a: Seq<char>,
    c: Seq<char>,
    m: Seq<char>,
    i: Seq<char>,
    p: Seq<char>,
)
    ensures
        ({
            let open = open_mark("name"@);
            a + (more_mark("conversion"@) + open) + c + (more_mark("method"@) + open) + m + more_mark(
                "id"@,
            ) + i + (seq!['}'] + more_mark("parameters"@) + seq!['[']) + p + (seq![']'] + seq!['}'])
                == a + more_mark("conversion"@) + (open + c + more_mark("method"@) + (open + m
                + more_mark("id"@) + i + seq!['}']) + more_mark("parameters"@) + (seq!['['] + p
                + seq![']']) + seq!['}'])
        }),
{
    let open = open_mark("name"@);
    let conv = more_mark("conversion"@);
    let meth = more_mark("method"@);
    let id = more_mark("id"@);
    let pars = more_mark("parameters"@);
    let method = open + m + id + i + seq!['}'];
    let list = seq!['['] + p + seq![']'];
    let before = a + conv;
    let inner = open + c + meth + method;
    assert(a + (conv + open) + c =~= before + (open + c));
    assert(before + (open + c) + (meth + open) + m =~= before + (open + c + meth) + (open + m));
    assert(before + (open + c + meth) + (open + m) + id + i =~= before + (open + c + meth) + (open + m
        + id + i));
    assert(before + (open + c + meth) + (open + m + id + i) + (seq!['}'] + pars + seq!['['])
        =~= before + inner + pars + seq!['[']);
    assert(before + inner + pars + seq!['['] + p + (seq![']'] + seq!['}']) =~= before + inner + pars
        + list + seq!['}']);
    assert(before + inner + pars + list + seq!['}'] =~= before + (inner + pars + list + seq!['}']));
}

/// The members of a projected system.
spec fn projected_members(
    name: Seq<char>,
    base: Json,
    conversion: Json,
    axes: Json,
    id: Seq<char>,
) -> Seq<(Seq<char>, Json)> {
    seq![("type"@, Json::String("ProjectedCRS"@))].push(("name"@, Json::String(name))).push(
        ("base_crs"@, base),
    ).push(("conversion"@, conversion)).push(("coordinate_system"@, axes)) + pairs_of(id)
}

/// The members of an object.
spec fn members_at(x: Seq<char>) -> Seq<(Seq<char>, Json)> {
    value_of(x)->Object_0
}

proof fn lemma_projected_object(
    name: Seq<char>,
    base: Seq<char>,
    conversion: Seq<char>,
    method_name: Seq<char>,
    method_id: Seq<char>,
    parameters: Seq<char>,
    axes: Seq<char>,
    id: Seq<char>,
)
    requires
        is_value(base),
        is_value(method_id),
        is_list(parameters),
        is_value(axes),
        is_tail(id),
    ensures
        ({
            let x = projected_object(
                name,
                base,
                conversion,
                method_name,
                method_id,
                parameters,
                axes,
                id,
            );
            &&& is_value(x)
            &&& x[0] == '{'
            &&& exists|c: Json| #[trigger]
                projected_members(name, value_of(base), c, value_of(axes), id) == members_at(x)
                    && value_of(x) == Json::Object(members_at(x)) && has_text(c, "name"@, conversion)
                    && (c.member("method"@) matches Some(m) && has_text(m, "name"@, method_name)
                    && m.member("id"@) == Some(value_of(method_id))) && c.member("parameters"@)
                    == Some(Json::Array(values_of(parameters)))
        }),
{
    let q = string_text(name);
    let kind = string_text("ProjectedCRS"@);
    let c = string_text(conversion);
    let m = string_text(method_name);
    lemma_mark_projected();
    lemma_mark_base();
    lemma_mark_conversion();
    lemma_mark_method();
    lemma_mark_id();
    lemma_mark_parameters();
    lemma_mark_parameters_end();
    lemma_brackets();
    lemma_string(name);
    lemma_string("ProjectedCRS"@);
    let first = open_mark("type"@) + kind;
    lemma_open_first(open_mark("type"@), "type"@, kind);
    let second = first + more_mark("name"@) + q;
    lemma_open_more(first, more_mark("name"@), "name"@, q);
    let third = second + ",\"base_crs\":"@ + base;
    lemma_open_more(second, ",\"base_crs\":"@, "base_crs"@, base);
    let open = open_mark("name"@);
    let object = open + c + more_mark("method"@) + (open + m + more_mark("id"@) + method_id + seq![
        '}',
    ]) + more_mark("parameters"@) + (seq!['['] + parameters + seq![']']) + seq!['}'];
    lemma_conversion(conversion, method_name, method_id, parameters);
    let fourth = third + more_mark("conversion"@) + object;
    lemma_open_more(third, more_mark("conversion"@), "conversion"@, object);
    let fifth = fourth + more_mark("coordinate_system"@) + axes;
    lemma_open_more(fourth, more_mark("coordinate_system"@), "coordinate_system"@, axes);
    lemma_open_tail(fifth, id);
    lemma_close(fifth + id);
    assert(members_of(fifth + id) == projected_members(
        name,
        value_of(base),
        value_of(object),
        value_of(axes),
        id,
    ));
    lemma_conversion_parts(third, c, m, method_id, parameters);
    let inner = third + (more_mark("conversion"@) + open) + c + (more_mark("method"@) + open) + m
        + more_mark("id"@) + method_id + (seq!['}'] + more_mark("parameters"@) + seq!['['])
        + parameters;
    assert(inner + (seq![']'] + seq!['}']) == fourth);
    let end = seq![']'] + seq!['}'] + more_mark("coordinate_system"@);
    assert(inner + end =~= inner + (seq![']'] + seq!['}']) + more_mark("coordinate_system"@));
    let x = projected_object(
        name,
        base,
        conversion,
        method_name,
        method_id,
        parameters,
        axes,
        id,
    );
    assert(x == inner + end + axes + id + seq!['}']);
    assert(x == fifth + id + seq!['}']);
    assert(first[0] == '{');
    assert(x[0] == first[0]);
}

/// What a projected system with these members says.
proof fn lemma_projected_members(t: Tree, base: Tree, b: Json, conversion: Json, axes: Json)
    requires
        name_of(t) is Some,
        is_geographic(b, base, children_of(t, "AXIS"@).len() >= 3),
    ensures
        ({
            let v = Json::Object(
                projected_members(name_of(t)->0, b, conversion, axes, id_member(t)),
            );
            &&& is_projected_on(v, t, base)
            &&& v.member("conversion"@) == Some(conversion)
            &&& v.member("coordinate_system"@) == Some(axes)
        }),
{
    let members = projected_members(name_of(t)->0, b, conversion, axes, id_member(t));
    lemma_id_member(t);
    lemma_keys();
    assert(members[0].0 == "type"@ && members[1].0 == "name"@ && members[2].0 == "base_crs"@);
    assert(members[3].0 == "conversion"@ && members[4].0 == "coordinate_system"@);
    if identifier_of(t) is Some {
        assert(members[5] == pairs_of(id_member(t))[0]);
    }
    lemma_all_found(members);
    if identifier_of(t) is None {
        assert(members.len() == 5);
        law_missing_member_is_none(members, "id"@);
    }
    assert(has_id(Json::Object(members), t));
}

proof fn lemma_base(t: Tree, base: Option<Tree>)
    requires
        base matches Some(b) ==> is_finite_tree(b),
    ensures
        base_text(t, base) matches Some(x) ==> base is Some && is_value(x) && is_geographic(
            value_of(x),
            base->0,
            children_of(t, "AXIS"@).len() >= 3,
        ),
{
    if let Some(b) = base {
        lemma_geographic(b, children_of(t, "AXIS"@).len() >= 3);
    }
}

/// The parts of a projected system, and what they say together.
proof fn lemma_projected_parts(
    t: Tree,
    base: Tree,
    conversion: Seq<char>,
    method_name: Seq<char>,
    authority: Seq<char>,
    code: int,
    method_id: Seq<char>,
    parameters: Seq<char>,
    linear: Option<Seq<char>>,
)
    requires
        is_finite_tree(t),
        is_finite_tree(base),
        name_of(t) is Some,
        base_text(t, Some(base)) is Some,
        is_value(method_id),
        is_id(value_of(method_id), authority, code),
        is_list(parameters),
        linear matches Some(u) ==> is_value(u),
    ensures
        ({
            let x = projected_object(
                name_of(t)->0,
                base_text(t, Some(base))->0,
                conversion,
                method_name,
                method_id,
                parameters,
                cartesian_text(t, linear),
                id_member(t),
            );
            let v = value_of(x);
            &&& is_value(x)
            &&& x[0] == '{'
            &&& is_projected_on(v, t, base)
            &&& has_coordinates(v, t, value_in(linear))
            &&& has_conversion(v, conversion, method_name, authority, code, values_of(parameters))
        }),
{
    let b = base_text(t, Some(base))->0;
    let axes = cartesian_text(t, linear);
    lemma_base(t, Some(base));
    lemma_cartesian(t, linear);
    assert(is_tail(id_member(t))) by {
        lemma_id_member(t);
    }
    lemma_projected_object(
        name_of(t)->0,
        b,
        conversion,
        method_name,
        method_id,
        parameters,
        axes,
        id_member(t),
    );
    let x = projected_object(
        name_of(t)->0,
        b,
        conversion,
        method_name,
        method_id,
        parameters,
        axes,
        id_member(t),
    );
    let c = choose|c: Json| #[trigger]
        projected_members(name_of(t)->0, value_of(b), c, value_of(axes), id_member(t))
            == members_at(x) && value_of(x) == Json::Object(members_at(x)) && has_text(
            c,
            "name"@,
            conversion,
        ) && (c.member("method"@) matches Some(m) && has_text(m, "name"@, method_name) && m.member(
            "id"@,
        ) == Some(value_of(method_id))) && c.member("parameters"@) == Some(
            Json::Array(values_of(parameters)),
        );
    lemma_projected_members(t, base, value_of(b), c, value_of(axes));
}

proof fn lemma_projected(t: Tree)
    requires
        is_finite_tree(t),
    ensures
        projected_text(t) matches Some(x) ==> is_value(x) && x[0] == '{' && is_projected(
            value_of(x),
            t,
        ),
{
    if projected_text(t) is Some {
        let base = child4(t, "BASEGEOGCRS"@, "BASEGEODCRS"@, "GEOGCS"@, "GEOGCRS"@)->0;
        let conversion = child2(t, "CONVERSION"@, "DERIVINGCONVERSION"@)->0;
        let m = child2(conversion, "METHOD"@, "PROJECTION"@)->0;
        let (authority, code) = identifier_of(m)->0;
        let parameters = parameters_text(conversion, None)->0;
        lemma_child(t, "BASEGEOGCRS"@, "BASEGEODCRS"@, "GEOGCS"@, "GEOGCRS"@);
        lemma_child(t, "CONVERSION"@, "DERIVINGCONVERSION"@, "CONVERSION"@, "DERIVINGCONVERSION"@);
        lemma_parameters_of(conversion, None);
        lemma_identifier(m);
        lemma_projected_parts(
            t,
            base,
            name_or(conversion, "unnamed"@),
            name_of(m)->0,
            authority,
            code,
            id_object(authority, signed_decimal(code)),
            parameters,
            None,
        );
        let v = value_of(projected_text(t)->0);
        assert(has_conversion(
            v,
            name_or(conversion, "unnamed"@),
            name_of(m)->0,
            authority,
            code,
            values_of(parameters),
        ));
    }
}

/// The linear unit of a projected system of WKT's first version.
proof fn lemma_linear_unit(t: Tree)
    requires
        is_finite_tree(t),
    ensures
        is_value(linear_unit_text(t)),
        is_unit_or(value_of(linear_unit_text(t)), child1(t, "UNIT"@), "metre"@),
{
    lemma_child(t, "UNIT"@, "UNIT"@, "UNIT"@, "UNIT"@);
    lemma_unit_of(child1(t, "UNIT"@));
    lemma_standard_units();
}

proof fn lemma_projected_wkt1(t: Tree)
    requires
        is_finite_tree(t),
    ensures
        projected_wkt1_text(t) matches Some(x) ==> is_value(x) && x[0] == '{' && is_projected_wkt1(
            value_of(x),
            t,
        ),
{
    if projected_wkt1_text(t) is Some {
        let geo = child2(t, "GEOGCS"@, "GEOGCRS"@)->0;
        let projection = child1(t, "PROJECTION"@)->0;
        let (method_name, code, safe) = method_entry(name_of(projection)->0)->0;
        let linear = linear_unit_text(t);
        let around = Around { method: code, angular: angular_unit_text(geo), linear };
        let parameters = parameters_text(t, Some(around))->0;
        lemma_child(t, "GEOGCS"@, "GEOGCRS"@, "GEOGCS"@, "GEOGCRS"@);
        lemma_linear_unit(t);
        lemma_angular_unit(geo);
        lemma_parameters_of(t, Some(around));
        lemma_table_id(code);
        lemma_projected_parts(
            t,
            geo,
            "unnamed"@,
            method_name,
            "EPSG"@,
            code,
            id_object("EPSG"@, decimal(code as nat)),
            parameters,
            Some(linear),
        );
        let v = value_of(projected_wkt1_text(t)->0);
        let units = units_in(Some(around))->0;
        assert(has_conversion(
            v,
            "unnamed"@,
            method_name,
            "EPSG"@,
            code,
            values_of(parameters),
        ));
        assert(is_wkt1_in(v, t, geo, units));
    }
}

/// What a definition is rendered as is a JSON object that says what the definition does,
/// unless a number in it is infinite or none.
pub proof fn law_rendered_definition_is_an_object(wkt: Seq<char>)
    requires
        tree_of(wkt) matches Some(t) ==> is_finite_tree(t),
    ensures
        translated(wkt) matches Some(x) ==> tree_of(wkt) matches Some(t) && {
            let k = lower_text(t.keyword);
            &&& document(x) matches Ok(v) && {
                &&& v is Object
                &&& k == "geogcs"@ || k == "geogcrs"@ ==> is_geographic(
                    v,
                    t,
                    has_three_dimensions(t),
                )
                &&& k == "projcrs"@ || k == "projectedcrs"@ ==> is_projected(v, t)
                &&& k == "projcs"@ ==> is_projected_wkt1(v, t)
            }
            &&& k == "geogcs"@ || k == "geogcrs"@ || k == "projcrs"@ || k == "projectedcrs"@ || k
                == "projcs"@
        },
{
    if let Some(t) = tree_of(wkt) {
        lemma_geographic(t, has_three_dimensions(t));
        lemma_projected(t);
        lemma_projected_wkt1(t);
        lemma_keywords();
        if let Some(x) = translated(wkt) {
            lemma_value_is_document(x);
            reveal(value_of);
        }
    }
}

/// The keywords of definitions differ.
proof fn lemma_keywords()
    ensures
        "geogcs"@.len() == 6 && "geogcs"@[0] == 'g',
        "geogcrs"@.len() == 7 && "geogcrs"@[0] == 'g',
        "projcs"@.len() == 6 && "projcs"@[0] == 'p',
        "projcrs"@.len() == 7 && "projcrs"@[0] == 'p',
        "projectedcrs"@.len() == 12 && "projectedcrs"@[0] == 'p',
{
    reveal_strlit("geogcs");
    reveal_strlit("geogcrs");
    reveal_strlit("projcs");
    reveal_strlit("projcrs");
    reveal_strlit("projectedcrs");
}

} // verus!
