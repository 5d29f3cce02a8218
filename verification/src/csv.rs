//! CSV: rows with a column of WKT geometries and columns of properties.
//!
//! When reading, the geometry column is the first one named `geometry`, `geom`,
//! `wkt` or `the_geom`, and the types of the other cells are inferred. When
//! writing, the property columns come first and the geometry column last.
use vstd::prelude::*;

use crate::decimal::{is_finite, is_finite_text, plain, plain_number};
use crate::error::{Error, Failure};
use crate::feature::{
    features_view, geometry_view, properties_view, Feature, FeatureCollection, Item, Items,
};
use crate::geometry::wkt::{decode, decoded, encode, wkt_text};
use crate::geometry::{Geometry, Shape};
use crate::json::value::{Json, JsonValue};
use crate::geometry::wkt_round_trip::{is_regular_shape, law_wkt_is_one_line, law_wkt_round_trip};
use crate::number::{integer_of, is_digit, law_numeral_spells_its_number, parse_integer};
use crate::schema::{
    columns_view, inferred, infer_columns, law_cells_fit_their_column, rows_of, Cell, Column,
    Datum, Field,
};
use crate::text::{
    chars_of, lower_text, same_text, signed_decimal, signed_decimal_text, to_lower, trim_text,
    trimmed, utf8_text,
};
use vstd::utf8::{decode_utf8, encode_utf8, valid_utf8};

verus! {

// --- rows and fields -----------------------------------------------------------------

/// The rows of `s` from `p` on, after the rows, the fields of the current row and
/// the characters of the current field that were read before. A quoted field may
/// hold commas and line breaks, and a doubled quote in it stands for one.
pub open spec fn rows_from(
    s: Seq<char>,
    p: int,
    quoted: bool,
    field: Seq<char>,
    row: Seq<Seq<char>>,
    rows: Seq<Seq<Seq<char>>>,
) -> Seq<Seq<Seq<char>>>
    decreases s.len() - p,
{
    if p < 0 || p >= s.len() {
        if field.len() > 0 || row.len() > 0 {
            rows.push(row.push(field))
        } else {
            rows
        }
    } else if quoted {
        if s[p] != '"' {
            rows_from(s, p + 1, true, field.push(s[p]), row, rows)
        } else if p + 1 < s.len() && s[p + 1] == '"' {
            rows_from(s, p + 2, true, field.push('"'), row, rows)
        } else {
            rows_from(s, p + 1, false, field, row, rows)
        }
    } else if s[p] == '"' {
        rows_from(s, p + 1, true, field, row, rows)
    } else if s[p] == ',' {
        rows_from(s, p + 1, false, Seq::empty(), row.push(field), rows)
    } else if s[p] == '\r' {
        rows_from(s, p + 1, false, field, row, rows)
    } else if s[p] == '\n' {
        rows_from(s, p + 1, false, Seq::empty(), Seq::empty(), rows.push(row.push(field)))
    } else {
        rows_from(s, p + 1, false, field.push(s[p]), row, rows)
    }
}

/// The rows of a text.
pub open spec fn rows(s: Seq<char>) -> Seq<Seq<Seq<char>>> {
    rows_from(s, 0, false, Seq::empty(), Seq::empty(), Seq::empty())
}

pub open spec fn fields_view(fields: Seq<String>) -> Seq<Seq<char>> {
    fields.map_values(|s: String| s@)
}

pub open spec fn rows_view(rows: Seq<Vec<String>>) -> Seq<Seq<Seq<char>>> {
    rows.map_values(|r: Vec<String>| fields_view(r@))
}

fn close_field(row: Vec<String>, field: String) -> (r: Vec<String>)
    ensures
        fields_view(r@) == fields_view(row@).push(field@),
{
    let mut row = row;
    let ghost before = row@;
    row.push(field);
    assert(fields_view(row@) =~= fields_view(before).push(field@));
    row
}

fn close_row(rows: Vec<Vec<String>>, row: Vec<String>) -> (r: Vec<Vec<String>>)
    ensures
        rows_view(r@) == rows_view(rows@).push(fields_view(row@)),
{
    let mut rows = rows;
    let ghost before = rows@;
    rows.push(row);
    assert(rows_view(rows@) =~= rows_view(before).push(fields_view(row@)));
    rows
}

/// The rows of a text, each a list of fields.
pub fn parse(text: &str) -> (r: Vec<Vec<String>>)
    ensures
        rows_view(r@) == rows(text@),
{
    let s = chars_of(text);
    let mut out: Vec<Vec<String>> = Vec::new();
    let mut row: Vec<String> = Vec::new();
    let mut field = String::new();
    let mut quoted = false;
    let mut p: usize = 0;
    proof {
        assert(rows_view(out@) =~= Seq::<Seq<Seq<char>>>::empty());
        assert(fields_view(row@) =~= Seq::<Seq<char>>::empty());
        assert(field@ =~= Seq::<char>::empty());
    }
    while p < s.len()
        invariant
            s@ == text@,
            p <= s@.len(),
            rows(text@) == rows_from(
                text@,
                p as int,
                quoted,
                field@,
                fields_view(row@),
                rows_view(out@),
            ),
        decreases s@.len() - p,
    {
        let c = s[p];
        if quoted {
            if c != '"' {
                field.push(c);
            } else if p + 1 < s.len() && s[p + 1] == '"' {
                field.push('"');
                p += 1;
            } else {
                quoted = false;
            }
        } else if c == '"' {
            quoted = true;
        } else if c == ',' {
            row = close_field(row, field);
            field = String::new();
            assert(field@ =~= Seq::<char>::empty());
        } else if c == '\r' {
        } else if c == '\n' {
            let full = close_field(row, field);
            out = close_row(out, full);
            row = Vec::new();
            field = String::new();
            assert(field@ =~= Seq::<char>::empty());
            assert(fields_view(row@) =~= Seq::<Seq<char>>::empty());
        } else {
            field.push(c);
        }
        p += 1;
    }
    let left = chars_of(field.as_str());
    assert(fields_view(row@).len() == row@.len());
    if left.len() > 0 || row.len() > 0 {
        let full = close_field(row, field);
        out = close_row(out, full);
    }
    out
}

/// Whether a character makes a field quoted.
pub open spec fn needs_quotes(c: char) -> bool {
    c == ',' || c == '"' || c == '\n' || c == '\r'
}

/// Whether some character of `s` makes it quoted.
pub open spec fn is_quoted(s: Seq<char>) -> bool {
    exists|i: int| 0 <= i < s.len() && needs_quotes(#[trigger] s[i])
}

/// `s` with every quote doubled.
pub open spec fn doubled(s: Seq<char>) -> Seq<char>
    decreases s.len(),
{
    if s.len() == 0 {
        Seq::empty()
    } else if s[0] == '"' {
        seq!['"', '"'] + doubled(s.drop_first())
    } else {
        seq![s[0]] + doubled(s.drop_first())
    }
}

/// A field as it is written.
pub open spec fn field_text(s: Seq<char>) -> Seq<char> {
    if is_quoted(s) {
        seq!['"'] + doubled(s) + seq!['"']
    } else {
        s
    }
}

fn has_marks(s: &Vec<char>) -> (r: bool)
    ensures
        r == is_quoted(s@),
{
    let mut i: usize = 0;
    while i < s.len()
        invariant
            i <= s@.len(),
            forall|j: int| 0 <= j < i ==> !needs_quotes(#[trigger] s@[j]),
        decreases s@.len() - i,
    {
        if s[i] == ',' || s[i] == '"' || s[i] == '\n' || s[i] == '\r' {
            assert(needs_quotes(s@[i as int]));
            return true;
        }
        i += 1;
    }
    false
}

/// Append a field, in quotes where it holds a comma, a quote or a line break.
fn push_field(out: &mut String, text: &str)
    ensures
        final(out)@ == old(out)@ + field_text(text@),
{
    let s = chars_of(text);
    if !has_marks(&s) {
        out.append(text);
        return ;
    }
    let ghost start = out@;
    out.push('"');
    let ghost head = out@;
    let mut i: usize = 0;
    assert(text@.skip(0) =~= text@);
    while i < s.len()
        invariant
            s@ == text@,
            i <= s@.len(),
            out@ + doubled(text@.skip(i as int)) == head + doubled(text@),
        decreases s@.len() - i,
    {
        let ghost before = out@;
        let ghost left = text@.skip(i as int);
        if s[i] == '"' {
            out.push('"');
        }
        out.push(s[i]);
        i += 1;
        assert(left.drop_first() =~= text@.skip(i as int));
        assert(out@ + doubled(text@.skip(i as int)) =~= before + doubled(left));
    }
    assert(doubled(text@.skip(i as int)) =~= Seq::<char>::empty());
    out.push('"');
    assert(out@ =~= start + field_text(text@));
}

/// The fields of a row from the `i`th on, and the line break after them.
pub open spec fn row_rest(fields: Seq<Seq<char>>, i: int) -> Seq<char>
    decreases fields.len() - i,
{
    if i < 0 || i >= fields.len() {
        seq!['\n']
    } else if i == 0 {
        field_text(fields[i]) + row_rest(fields, i + 1)
    } else {
        seq![','] + field_text(fields[i]) + row_rest(fields, i + 1)
    }
}

/// A row as it is written.
pub open spec fn row_text(fields: Seq<Seq<char>>) -> Seq<char> {
    row_rest(fields, 0)
}

/// The rows of a table from the `i`th on.
pub open spec fn table_rest(table: Seq<Seq<Seq<char>>>, i: int) -> Seq<char>
    decreases table.len() - i,
{
    if i < 0 || i >= table.len() {
        Seq::empty()
    } else {
        row_text(table[i]) + table_rest(table, i + 1)
    }
}

/// A table as it is written.
pub open spec fn table_text(table: Seq<Seq<Seq<char>>>) -> Seq<char> {
    table_rest(table, 0)
}

fn push_row(out: &mut String, fields: &Vec<String>)
    ensures
        final(out)@ == old(out)@ + row_text(fields_view(fields@)),
{
    let ghost start = out@;
    let ghost all = fields_view(fields@);
    let mut i: usize = 0;
    while i < fields.len()
        invariant
            i <= fields@.len(),
            all == fields_view(fields@),
            out@ + row_rest(all, i as int) == start + row_text(all),
        decreases fields@.len() - i,
    {
        let ghost before = out@;
        if i > 0 {
            out.push(',');
        }
        push_field(out, fields[i].as_str());
        assert(all[i as int] == fields@[i as int]@);
        assert(out@ + row_rest(all, i + 1) =~= before + row_rest(all, i as int));
        i += 1;
    }
    out.push('\n');
    assert(out@ =~= start + row_text(all));
}

// --- reading -------------------------------------------------------------------------

/// Whether a column's name is that of the geometry column.
pub open spec fn is_geometry_name(name: Seq<char>) -> bool {
    let n = lower_text(trimmed(name));
    n == "geometry"@ || n == "geom"@ || n == "wkt"@ || n == "the_geom"@
}

/// Which column from `i` on is the first geometry column.
pub open spec fn geometry_column(header: Seq<Seq<char>>, i: int) -> Option<int>
    decreases header.len() - i,
{
    if i < 0 || i >= header.len() {
        None
    } else if is_geometry_name(header[i]) {
        Some(i)
    } else {
        geometry_column(header, i + 1)
    }
}

/// The value that a cell's text stands for. Only what starts like a number is
/// taken for one.
pub open spec fn inferred_value(cell: Seq<char>) -> Json {
    if cell.len() == 0 {
        Json::Null
    } else if lower_text(cell) == "true"@ {
        Json::Bool(true)
    } else if lower_text(cell) == "false"@ {
        Json::Bool(false)
    } else if !(is_digit(cell[0]) || cell[0] == '-' || cell[0] == '+' || cell[0] == '.') {
        Json::String(cell)
    } else if let Some(n) = integer_of(cell) {
        Json::Number { text: signed_decimal(n), is_int: true }
    } else if is_finite_text(cell) {
        Json::Number { text: plain_number(cell), is_int: false }
    } else {
        Json::String(cell)
    }
}

/// The field of a row, empty where the row is shorter.
pub open spec fn field_or_empty(row: Seq<Seq<char>>, i: int) -> Seq<char> {
    if 0 <= i < row.len() {
        row[i]
    } else {
        Seq::empty()
    }
}

/// The properties of a row from the `i`th column on.
pub open spec fn row_properties(
    header: Seq<Seq<char>>,
    row: Seq<Seq<char>>,
    geom: Option<int>,
    i: int,
) -> Seq<(Seq<char>, Json)>
    decreases header.len() - i,
{
    if i < 0 || i >= header.len() {
        Seq::empty()
    } else if geom == Some(i) {
        row_properties(header, row, geom, i + 1)
    } else {
        seq![(header[i], inferred_value(field_or_empty(row, i)))] + row_properties(
            header,
            row,
            geom,
            i + 1,
        )
    }
}

/// The geometry of a row: none where it has no geometry column or an empty cell
/// in it.
pub open spec fn row_geometry(row: Seq<Seq<char>>, geom: Option<int>) -> Result<
    Option<Shape<Seq<char>>>,
    Failure,
> {
    match geom {
        None => Ok(None),
        Some(g) => {
            let w = trimmed(field_or_empty(row, g));
            if w.len() == 0 {
                Ok(None)
            } else {
                match decoded(w) {
                    Ok(s) => Ok(Some(s)),
                    Err(e) => Err(e),
                }
            }
        },
    }
}

/// Whether a row has no text at all.
pub open spec fn is_blank(row: Seq<Seq<char>>) -> bool {
    forall|i: int| 0 <= i < row.len() ==> (#[trigger] row[i]).len() == 0
}

/// The features of the rows from the `i`th on, after those before. Blank rows
/// are passed over.
pub open spec fn features_from(
    table: Seq<Seq<Seq<char>>>,
    i: int,
    so_far: Seq<Item<Seq<char>, Json>>,
) -> Result<Seq<Item<Seq<char>, Json>>, Failure>
    decreases table.len() - i,
{
    if i < 0 || i >= table.len() {
        Ok(so_far)
    } else if is_blank(table[i]) {
        features_from(table, i + 1, so_far)
    } else {
        let geom = geometry_column(table[0], 0);
        match row_geometry(table[i], geom) {
            Err(e) => Err(e),
            Ok(geometry) => features_from(
                table,
                i + 1,
                so_far.push(
                    Item { geometry, properties: row_properties(table[0], table[i], geom, 0) },
                ),
            ),
        }
    }
}

/// The collection that a CSV text is. It records no reference system.
pub open spec fn collection_of(text: Seq<char>) -> Result<Items<Seq<char>, Json>, Failure> {
    let table = rows(text);
    match features_from(table, 1, Seq::empty()) {
        Ok(features) => Ok(Items { features, crs: None }),
        Err(e) => Err(e),
    }
}

fn find_geometry_column(header: &Vec<String>) -> (r: Option<usize>)
    ensures
        match r {
            Some(i) => geometry_column(fields_view(header@), 0) == Some(i as int) && i
                < header@.len(),
            None => geometry_column(fields_view(header@), 0) is None,
        },
{
    let ghost all = fields_view(header@);
    let mut i: usize = 0;
    while i < header.len()
        invariant
            i <= header@.len(),
            all == fields_view(header@),
            geometry_column(all, 0) == geometry_column(all, i as int),
        decreases header@.len() - i,
    {
        assert(all[i as int] == header@[i as int]@);
        let name = trim_text(header[i].as_str());
        let name = to_lower(name.as_str());
        let n = name.as_str();
        if same_text(n, "geometry") || same_text(n, "geom") || same_text(n, "wkt") || same_text(
            n,
            "the_geom",
        ) {
            return Some(i);
        }
        i += 1;
    }
    None
}

/// The value that a cell's text stands for.
pub fn infer_value(cell: &str) -> (r: JsonValue)
    ensures
        r@ == inferred_value(cell@),
{
    let chars = chars_of(cell);
    if chars.len() == 0 {
        return JsonValue::Null;
    }
    let lower = to_lower(cell);
    if same_text(lower.as_str(), "true") {
        return JsonValue::Bool(true);
    }
    if same_text(lower.as_str(), "false") {
        return JsonValue::Bool(false);
    }
    let c = chars[0];
    if !(('0' <= c && c <= '9') || c == '-' || c == '+' || c == '.') {
        return JsonValue::String(String::from_str(cell));
    }
    if let Some(n) = parse_integer(cell) {
        return JsonValue::Number { text: signed_decimal_text(n), is_int: true };
    }
    if is_finite(chars.as_slice()) {
        return JsonValue::Number { text: plain(chars.as_slice()), is_int: false };
    }
    JsonValue::String(String::from_str(cell))
}

fn read_geometry(row: &Vec<String>, geom: Option<usize>) -> (r: Result<
    Option<Geometry<String>>,
    Error,
>)
    ensures
        match row_geometry(
            fields_view(row@),
            match geom {
                Some(g) => Some(g as int),
                None => None,
            },
        ) {
            Ok(g) => r matches Ok(v) && geometry_view(v) == g,
            Err(e) => r matches Err(v) && v@ == e,
        },
{
    match geom {
        None => Ok(None),
        Some(g) => {
            assert(trimmed(Seq::<char>::empty()) =~= Seq::<char>::empty());
            if g >= row.len() {
                return Ok(None);
            }
            assert(fields_view(row@)[g as int] == row@[g as int]@);
            let w = trim_text(row[g].as_str());
            let chars = chars_of(w.as_str());
            if chars.len() == 0 {
                return Ok(None);
            }
            let shape = decode(w.as_str())?;
            Ok(Some(shape))
        },
    }
}

fn read_properties(header: &Vec<String>, row: &Vec<String>, geom: Option<usize>) -> (r: Vec<
    (String, JsonValue),
>)
    ensures
        properties_view(r@) == row_properties(
            fields_view(header@),
            fields_view(row@),
            match geom {
                Some(g) => Some(g as int),
                None => None,
            },
            0,
        ),
{
    let ghost names = fields_view(header@);
    let ghost cells = fields_view(row@);
    let ghost g = match geom {
        Some(g) => Some(g as int),
        None => None,
    };
    let mut out: Vec<(String, JsonValue)> = Vec::new();
    let mut i: usize = 0;
    assert(properties_view(out@) =~= Seq::<(Seq<char>, Json)>::empty());
    while i < header.len()
        invariant
            i <= header@.len(),
            names == fields_view(header@),
            cells == fields_view(row@),
            g == (match geom {
                Some(g) => Some(g as int),
                None => None,
            }),
            properties_view(out@) + row_properties(names, cells, g, i as int) == row_properties(
                names,
                cells,
                g,
                0,
            ),
        decreases header@.len() - i,
    {
        let ghost before = out@;
        let here = match geom {
            Some(k) => k == i,
            None => false,
        };
        if !here {
            let cell = if i < row.len() {
                row[i].as_str()
            } else {
                ""
            };
            proof {
                reveal_strlit("");
                assert(names[i as int] == header@[i as int]@);
                if i < row@.len() {
                    assert(cells[i as int] == row@[i as int]@);
                }
                assert(cell@ =~= field_or_empty(cells, i as int));
            }
            let value = infer_value(cell);
            let ghost view = value@;
            out.push((String::from_str(header[i].as_str()), value));
            assert(properties_view(out@) =~= properties_view(before) + seq![
                (names[i as int], view),
            ]);
        }
        proof {
            assert(properties_view(out@) + row_properties(names, cells, g, i + 1)
                =~= properties_view(before) + row_properties(names, cells, g, i as int));
        }
        i += 1;
    }
    assert(row_properties(names, cells, g, i as int) =~= Seq::<(Seq<char>, Json)>::empty());
    out
}

fn blank(row: &Vec<String>) -> (r: bool)
    ensures
        r == is_blank(fields_view(row@)),
{
    let mut i: usize = 0;
    while i < row.len()
        invariant
            i <= row@.len(),
            forall|j: int| 0 <= j < i ==> (#[trigger] fields_view(row@)[j]).len() == 0,
        decreases row@.len() - i,
    {
        let chars = chars_of(row[i].as_str());
        assert(fields_view(row@)[i as int] == row@[i as int]@);
        if chars.len() > 0 {
            return false;
        }
        i += 1;
    }
    true
}

/// Read a CSV text into a collection.
pub fn read_text(text: &str) -> (r: Result<FeatureCollection<String, JsonValue>, Error>)
    ensures
        match collection_of(text@) {
            Ok(c) => r matches Ok(v) && v@ == c,
            Err(e) => r matches Err(v) && v@ == e,
        },
{
    let table = parse(text);
    let ghost all = rows_view(table@);
    let mut features: Vec<Feature<String, JsonValue>> = Vec::new();
    assert(features_view(features@) =~= Seq::<Item<Seq<char>, Json>>::empty());
    if table.len() == 0 {
        return Ok(FeatureCollection::new(features));
    }
    assert(all[0] == fields_view(table@[0]@));
    let geom = find_geometry_column(&table[0]);
    let ghost column = geometry_column(all[0], 0);
    let mut i: usize = 1;
    while i < table.len()
        invariant
            1 <= i <= table@.len(),
            all == rows_view(table@),
            all == rows(text@),
            all[0] == fields_view(table@[0]@),
            column == geometry_column(all[0], 0),
            column == (match geom {
                Some(g) => Some(g as int),
                None => None,
            }),
            features_from(all, 1, Seq::empty()) == features_from(
                all,
                i as int,
                features_view(features@),
            ),
        decreases table@.len() - i,
    {
        assert(all[i as int] == fields_view(table@[i as int]@));
        if !blank(&table[i]) {
            let geometry = read_geometry(&table[i], geom)?;
            let properties = read_properties(&table[0], &table[i], geom);
            let ghost before = features@;
            let feature = Feature { geometry, properties };
            let ghost view = feature@;
            features.push(feature);
            assert(features_view(features@) =~= features_view(before).push(view));
        }
        i += 1;
    }
    Ok(FeatureCollection::new(features))
}

/// What is said of bytes that are no text.
pub open spec fn not_text() -> Failure {
    Failure::Convert("csv: input is not valid utf-8"@)
}

/// Read CSV bytes into a collection.
pub fn read(bytes: &[u8]) -> (r: Result<FeatureCollection<String, JsonValue>, Error>)
    ensures
        if valid_utf8(bytes@) {
            match collection_of(decode_utf8(bytes@)) {
                Ok(c) => r matches Ok(v) && v@ == c,
                Err(e) => r matches Err(v) && v@ == e,
            }
        } else {
            r matches Err(v) && v@ == not_text()
        },
{
    match utf8_text(bytes) {
        Some(text) => read_text(text),
        None => Err(Error::Convert(String::from_str("csv: input is not valid utf-8"))),
    }
}

// --- writing -------------------------------------------------------------------------

/// A cell as text.
pub open spec fn cell_text(d: Datum<Seq<char>>) -> Seq<char> {
    match d {
        Datum::Null => Seq::empty(),
        Datum::Bool(b) => if b {
            "true"@
        } else {
            "false"@
        },
        Datum::Int(n) => signed_decimal(n),
        Datum::Double(t) => plain_number(t),
        Datum::Str(s) => s,
    }
}

/// The fields of the header.
pub open spec fn header_fields(columns: Seq<Field<Seq<char>>>) -> Seq<Seq<char>> {
    columns.map_values(|c: Field<Seq<char>>| c.name).push("geometry"@)
}

/// A geometry as text, empty where there is none.
pub open spec fn geometry_text(g: Option<Shape<Seq<char>>>) -> Seq<char> {
    match g {
        Some(s) => wkt_text(s),
        None => Seq::empty(),
    }
}

/// The fields of a row.
pub open spec fn row_fields(
    columns: Seq<Field<Seq<char>>>,
    g: Option<Shape<Seq<char>>>,
    i: int,
) -> Seq<Seq<char>> {
    columns.map_values(|c: Field<Seq<char>>| cell_text(c.values[i])).push(geometry_text(g))
}

/// The table that a collection is written as.
pub open spec fn table_of(features: Seq<Item<Seq<char>, Json>>) -> Seq<Seq<Seq<char>>> {
    let columns = inferred(features.map_values(|f: Item<Seq<char>, Json>| f.properties));
    seq![header_fields(columns)] + Seq::new(
        features.len(),
        |i: int| row_fields(columns, features[i].geometry, i),
    )
}

fn text_of_cell(cell: &Cell<String>) -> (r: String)
    ensures
        r@ == cell_text(cell@),
{
    match cell {
        Cell::Null => {
            let out = String::new();
            assert(out@ =~= Seq::<char>::empty());
            out
        },
        Cell::Bool(b) => String::from_str(
            if *b {
                "true"
            } else {
                "false"
            },
        ),
        Cell::Int(n) => signed_decimal_text(*n),
        Cell::Double(t) => {
            let chars = chars_of(t.as_str());
            plain(chars.as_slice())
        },
        Cell::Str(s) => String::from_str(s.as_str()),
    }
}

fn make_header(columns: &Vec<Column<String>>) -> (r: Vec<String>)
    ensures
        fields_view(r@) == header_fields(columns_view(columns@)),
{
    let mut out: Vec<String> = Vec::new();
    let mut i: usize = 0;
    while i < columns.len()
        invariant
            i <= columns@.len(),
            out@.len() == i,
            forall|j: int| 0 <= j < i ==> (#[trigger] out@[j])@ == columns@[j].name@,
        decreases columns@.len() - i,
    {
        out.push(String::from_str(columns[i].name.as_str()));
        i += 1;
    }
    out.push(String::from_str("geometry"));
    assert(fields_view(out@) =~= header_fields(columns_view(columns@)));
    out
}

fn make_row(columns: &Vec<Column<String>>, geometry: &Option<Geometry<String>>, row: usize) -> (r:
    Vec<String>)
    requires
        forall|k: int| 0 <= k < columns@.len() ==> row < (#[trigger] columns@[k]).values@.len(),
    ensures
        fields_view(r@) == row_fields(
            columns_view(columns@),
            geometry_view(*geometry),
            row as int,
        ),
{
    let mut out: Vec<String> = Vec::new();
    let mut i: usize = 0;
    while i < columns.len()
        invariant
            i <= columns@.len(),
            out@.len() == i,
            forall|k: int| 0 <= k < columns@.len() ==> row < (#[trigger] columns@[k]).values@.len(),
            forall|j: int|
                0 <= j < i ==> (#[trigger] out@[j])@ == cell_text(columns@[j].values@[row as int]@),
        decreases columns@.len() - i,
    {
        out.push(text_of_cell(&columns[i].values[row]));
        i += 1;
    }
    let text = match geometry {
        Some(g) => encode(g),
        None => String::new(),
    };
    assert(text@ =~= geometry_text(geometry_view(*geometry)));
    out.push(text);
    assert(fields_view(out@) =~= row_fields(
        columns_view(columns@),
        geometry_view(*geometry),
        row as int,
    ));
    out
}

/// Write a collection as CSV text: the property columns, then the geometry
/// column.
pub fn write_text(fc: &FeatureCollection<String, JsonValue>) -> (text: String)
    ensures
        text@ == table_text(table_of(fc@.features)),
{
    let columns = infer_columns(&fc.features);
    let ghost fields = columns_view(columns@);
    let ghost lists = rows_of(fc.features@);
    let ghost features = fc@.features;
    let ghost table = table_of(features);
    proof {
        assert(lists =~= features.map_values(|f: Item<Seq<char>, Json>| f.properties));
        assert forall|k: int| 0 <= k < columns@.len() implies (#[trigger] columns@[k]).values@.len()
            == fc.features@.len() by {
            law_cells_fit_their_column(lists, k);
            assert(fields[k] == columns@[k]@);
        }
        assert(table.len() == features.len() + 1);
    }
    let mut out = String::new();
    assert(out@ =~= Seq::<char>::empty());
    push_row(&mut out, &make_header(&columns));
    assert(table[0] == header_fields(fields));
    assert(out@ + table_rest(table, 1) =~= table_text(table));
    let mut i: usize = 0;
    while i < fc.features.len()
        invariant
            i <= fc.features@.len(),
            features == fc@.features,
            fields == columns_view(columns@),
            table == seq![header_fields(fields)] + Seq::new(
                features.len(),
                |i: int| row_fields(fields, features[i].geometry, i),
            ),
            forall|k: int|
                0 <= k < columns@.len() ==> (#[trigger] columns@[k]).values@.len()
                    == fc.features@.len(),
            out@ + table_rest(table, i + 1) == table_text(table),
        decreases fc.features@.len() - i,
    {
        let ghost before = out@;
        let row = make_row(&columns, &fc.features[i].geometry, i);
        assert(features[i as int] == fc.features@[i as int]@);
        assert(table[i + 1] == fields_view(row@));
        push_row(&mut out, &row);
        assert(out@ + table_rest(table, i + 2) =~= before + table_rest(table, i + 1));
        i += 1;
    }
    assert(table_rest(table, i + 1) =~= Seq::<char>::empty());
    assert(out@ =~= table_text(table));
    out
}

/// Write a collection as CSV bytes.
pub fn write(fc: &FeatureCollection<String, JsonValue>) -> (bytes: Vec<u8>)
    ensures
        bytes@ == encode_utf8(table_text(table_of(fc@.features))),
{
    let text = write_text(fc);
    text.as_str().as_bytes_vec()
}

// --- laws ----------------------------------------------------------------------------

/// Whether `t` stands in `s` at `p`.
pub open spec fn stands(s: Seq<char>, p: int, t: Seq<char>) -> bool {
    0 <= p && p + t.len() <= s.len() && s.subrange(p, p + t.len()) == t
}

pub proof fn lemma_split(s: Seq<char>, p: int, a: Seq<char>, b: Seq<char>)
    requires
        stands(s, p, a + b),
    ensures
        stands(s, p, a),
        stands(s, p + a.len(), b),
{
    assert(s.subrange(p, p + a.len()) =~= a) by {
        assert forall|i: int| 0 <= i < a.len() implies s.subrange(p, p + a.len())[i] == a[i] by {
            assert(s.subrange(p, p + (a + b).len())[i] == (a + b)[i]);
        }
    }
    assert(s.subrange(p + a.len(), p + a.len() + b.len()) =~= b) by {
        assert forall|i: int| 0 <= i < b.len() implies s.subrange(
            p + a.len(),
            p + a.len() + b.len(),
        )[i] == b[i] by {
            assert(s.subrange(p, p + (a + b).len())[a.len() + i] == (a + b)[a.len() + i]);
        }
    }
}

pub proof fn lemma_first(s: Seq<char>, p: int, t: Seq<char>)
    requires
        stands(s, p, t),
        t.len() > 0,
    ensures
        s[p] == t[0],
        p < s.len(),
{
    assert(s.subrange(p, p + t.len())[0] == t[0]);
}

/// A field without marks is read character by character.
pub proof fn lemma_plain_reads(
    s: Seq<char>,
    p: int,
    f: Seq<char>,
    so_far: Seq<char>,
    row: Seq<Seq<char>>,
    done: Seq<Seq<Seq<char>>>,
)
    requires
        stands(s, p, f),
        forall|i: int| 0 <= i < f.len() ==> !needs_quotes(#[trigger] f[i]),
    ensures
        rows_from(s, p, false, so_far, row, done) == rows_from(
            s,
            p + f.len(),
            false,
            so_far + f,
            row,
            done,
        ),
    decreases f.len(),
{
    if f.len() == 0 {
        assert(so_far + f =~= so_far);
    } else {
        let rest = f.drop_first();
        assert(f =~= seq![f[0]] + rest);
        lemma_split(s, p, seq![f[0]], rest);
        lemma_first(s, p, seq![f[0]]);
        assert(!needs_quotes(f[0]));
        assert forall|i: int| 0 <= i < rest.len() implies !needs_quotes(#[trigger] rest[i]) by {
            assert(rest[i] == f[i + 1]);
        }
        lemma_plain_reads(s, p + 1, rest, so_far.push(f[0]), row, done);
        assert(so_far.push(f[0]) + rest =~= so_far + f);
    }
}

/// The inside of a quoted field is read up to its closing quote.
pub proof fn lemma_quoted_reads(
    s: Seq<char>,
    p: int,
    f: Seq<char>,
    so_far: Seq<char>,
    row: Seq<Seq<char>>,
    done: Seq<Seq<Seq<char>>>,
)
    requires
        stands(s, p, doubled(f) + seq!['"']),
        p + doubled(f).len() + 1 < s.len() ==> s[p + doubled(f).len() + 1] != '"',
    ensures
        rows_from(s, p, true, so_far, row, done) == rows_from(
            s,
            p + doubled(f).len() + 1,
            false,
            so_far + f,
            row,
            done,
        ),
    decreases f.len(),
{
    let tail = seq!['"'];
    if f.len() == 0 {
        assert(doubled(f) + tail =~= tail);
        lemma_first(s, p, tail);
        assert(so_far + f =~= so_far);
    } else {
        let rest = f.drop_first();
        let head = if f[0] == '"' {
            seq!['"', '"']
        } else {
            seq![f[0]]
        };
        assert(doubled(f) + tail =~= head + (doubled(rest) + tail));
        lemma_split(s, p, head, doubled(rest) + tail);
        lemma_first(s, p, head);
        if f[0] == '"' {
            assert(s.subrange(p, p + head.len())[1] == head[1]);
            assert(s[p + 1] == '"');
            lemma_quoted_reads(s, p + 2, rest, so_far.push('"'), row, done);
        } else {
            lemma_quoted_reads(s, p + 1, rest, so_far.push(f[0]), row, done);
        }
        assert(so_far.push(f[0]) + rest =~= so_far + f);
    }
}

/// A field is read back, whatever it holds.
proof fn lemma_field_reads(
    s: Seq<char>,
    p: int,
    f: Seq<char>,
    row: Seq<Seq<char>>,
    done: Seq<Seq<Seq<char>>>,
)
    requires
        stands(s, p, field_text(f)),
        p + field_text(f).len() < s.len(),
        s[p + field_text(f).len()] != '"',
    ensures
        rows_from(s, p, false, Seq::empty(), row, done) == rows_from(
            s,
            p + field_text(f).len(),
            false,
            f,
            row,
            done,
        ),
{
    if is_quoted(f) {
        let inside = doubled(f) + seq!['"'];
        assert(field_text(f) =~= seq!['"'] + inside);
        lemma_split(s, p, seq!['"'], inside);
        lemma_first(s, p, seq!['"']);
        lemma_quoted_reads(s, p + 1, f, Seq::empty(), row, done);
        assert(Seq::<char>::empty() + f =~= f);
    } else {
        lemma_plain_reads(s, p, f, Seq::empty(), row, done);
        assert(Seq::<char>::empty() + f =~= f);
    }
}

proof fn lemma_row_rest_starts(fields: Seq<Seq<char>>, i: int)
    requires
        0 < i <= fields.len(),
    ensures
        row_rest(fields, i).len() > 0,
        i == fields.len() ==> row_rest(fields, i)[0] == '\n',
        i < fields.len() ==> row_rest(fields, i)[0] == ',',
{
}

proof fn lemma_row_reads(
    s: Seq<char>,
    p: int,
    fields: Seq<Seq<char>>,
    i: int,
    done: Seq<Seq<Seq<char>>>,
)
    requires
        0 <= i < fields.len(),
        stands(s, p, field_text(fields[i]) + row_rest(fields, i + 1)),
    ensures
        rows_from(s, p, false, Seq::empty(), fields.take(i), done) == rows_from(
            s,
            p + field_text(fields[i]).len() + row_rest(fields, i + 1).len(),
            false,
            Seq::empty(),
            Seq::empty(),
            done.push(fields),
        ),
    decreases fields.len() - i,
{
    let t = field_text(fields[i]);
    let rest = row_rest(fields, i + 1);
    lemma_split(s, p, t, rest);
    lemma_row_rest_starts(fields, i + 1);
    let q = p + t.len();
    lemma_first(s, q, rest);
    lemma_field_reads(s, p, fields[i], fields.take(i), done);
    assert(fields.take(i).push(fields[i]) =~= fields.take(i + 1));
    if i + 1 == fields.len() {
        assert(fields.take(i + 1) =~= fields);
        assert(rest =~= seq!['\n']);
    } else {
        let next = field_text(fields[i + 1]) + row_rest(fields, i + 2);
        assert(rest =~= seq![','] + next);
        lemma_split(s, q, seq![','], next);
        lemma_row_reads(s, q + 1, fields, i + 1, done);
    }
}

proof fn lemma_table_reads(s: Seq<char>, p: int, table: Seq<Seq<Seq<char>>>, i: int)
    requires
        0 <= i <= table.len(),
        stands(s, p, table_rest(table, i)),
        p + table_rest(table, i).len() == s.len(),
        forall|k: int| 0 <= k < table.len() ==> (#[trigger] table[k]).len() > 0,
    ensures
        rows_from(s, p, false, Seq::empty(), Seq::empty(), table.take(i)) == table,
    decreases table.len() - i,
{
    if i == table.len() {
        assert(table.take(i) =~= table);
    } else {
        let fields = table[i];
        let rest = table_rest(table, i + 1);
        let row = row_text(fields);
        lemma_split(s, p, row, rest);
        assert(row =~= field_text(fields[0]) + row_rest(fields, 1));
        lemma_row_reads(s, p, fields, 0, table.take(i));
        assert(fields.take(0) =~= Seq::<Seq<char>>::empty());
        assert(table.take(i).push(fields) =~= table.take(i + 1));
        lemma_table_reads(s, p + row.len(), table, i + 1);
    }
}

/// Reading a table that was written gives every field back, whatever characters
/// it holds.
pub proof fn law_table_reads_back(table: Seq<Seq<Seq<char>>>)
    requires
        forall|k: int| 0 <= k < table.len() ==> (#[trigger] table[k]).len() > 0,
    ensures
        rows(table_text(table)) == table,
{
    let s = table_text(table);
    assert(s.subrange(0, s.len() as int) =~= s);
    lemma_table_reads(s, 0, table, 0);
    assert(table.take(0) =~= Seq::<Seq<Seq<char>>>::empty());
}

/// The last column that is written is the geometry column, and a property column
/// never takes its place unless it has one of its names.
pub proof fn law_geometry_column_is_found(columns: Seq<Field<Seq<char>>>)
    requires
        forall|k: int| 0 <= k < columns.len() ==> !is_geometry_name((#[trigger] columns[k]).name),
    ensures
        geometry_column(header_fields(columns), 0) == Some(columns.len() as int),
{
    let header = header_fields(columns);
    assert(header[columns.len() as int] == "geometry"@);
    assert(is_geometry_name("geometry"@)) by {
        reveal_strlit("geometry");
        let g = "geometry"@;
        assert(crate::text::trim_start(g) == g);
        assert(crate::text::trim_end(g) == g);
        assert(lower_text(g) =~= g);
    }
    lemma_geometry_column(columns, 0);
}

proof fn lemma_geometry_column(columns: Seq<Field<Seq<char>>>, i: int)
    requires
        0 <= i <= columns.len(),
        forall|k: int| 0 <= k < columns.len() ==> !is_geometry_name((#[trigger] columns[k]).name),
        is_geometry_name("geometry"@),
    ensures
        geometry_column(header_fields(columns), i) == Some(columns.len() as int),
    decreases columns.len() - i,
{
    let header = header_fields(columns);
    if i < columns.len() {
        assert(header[i] == columns[i].name);
        lemma_geometry_column(columns, i + 1);
    } else {
        assert(header[i] == "geometry"@);
    }
}

/// The value that is read of a cell that was written.
pub open spec fn read_cell(d: Datum<Seq<char>>) -> Json {
    inferred_value(cell_text(d))
}

/// The properties that are read of a row that was written: one for every column.
pub open spec fn read_row(columns: Seq<Field<Seq<char>>>, i: int) -> Seq<(Seq<char>, Json)> {
    columns.map_values(|c: Field<Seq<char>>| (c.name, read_cell(c.values[i])))
}

/// The features that are read of those that were written.
pub open spec fn recovered(features: Seq<Item<Seq<char>, Json>>) -> Seq<Item<Seq<char>, Json>> {
    let columns = inferred(features.map_values(|f: Item<Seq<char>, Json>| f.properties));
    Seq::new(
        features.len(),
        |i: int| Item { geometry: features[i].geometry, properties: read_row(columns, i) },
    )
}

/// Whether features can be read back: no property has a name of the geometry
/// column, every geometry has a text that is read back, and no row is blank.
pub open spec fn are_recoverable(features: Seq<Item<Seq<char>, Json>>) -> bool {
    let table = table_of(features);
    let columns = inferred(features.map_values(|f: Item<Seq<char>, Json>| f.properties));
    &&& forall|k: int| 0 <= k < columns.len() ==> !is_geometry_name((#[trigger] columns[k]).name)
    &&& forall|i: int|
        0 <= i < features.len() ==> ((#[trigger] features[i]).geometry matches Some(g)
            ==> is_regular_shape(g))
    &&& forall|i: int| 1 <= i < table.len() ==> !is_blank(#[trigger] table[i])
}

proof fn lemma_row_is_read(
    columns: Seq<Field<Seq<char>>>,
    g: Option<Shape<Seq<char>>>,
    row: int,
    k: int,
)
    requires
        0 <= k <= columns.len(),
    ensures
        row_properties(
            header_fields(columns),
            row_fields(columns, g, row),
            Some(columns.len() as int),
            k,
        ) == read_row(columns, row).skip(k),
    decreases columns.len() - k,
{
    let header = header_fields(columns);
    let fields = row_fields(columns, g, row);
    let n = columns.len() as int;
    let all = read_row(columns, row);
    if k < n {
        lemma_row_is_read(columns, g, row, k + 1);
        assert(header[k] == columns[k].name);
        assert(fields[k] == cell_text(columns[k].values[row]));
        assert(all.skip(k) =~= seq![all[k]] + all.skip(k + 1));
    } else {
        assert(row_properties(header, fields, Some(n), n + 1) =~= Seq::empty());
        assert(all.skip(k) =~= Seq::empty());
    }
}

proof fn lemma_features_are_read(features: Seq<Item<Seq<char>, Json>>, i: int)
    requires
        are_recoverable(features),
        0 <= i <= features.len(),
    ensures
        features_from(table_of(features), i + 1, recovered(features).take(i)) == Ok::<
            Seq<Item<Seq<char>, Json>>,
            Failure,
        >(recovered(features)),
    decreases features.len() - i,
{
    let columns = inferred(features.map_values(|f: Item<Seq<char>, Json>| f.properties));
    let table = table_of(features);
    let all = recovered(features);
    if i < features.len() {
        let n = columns.len() as int;
        let f = features[i];
        assert(table[0] == header_fields(columns));
        assert(table[i + 1] == row_fields(columns, f.geometry, i));
        assert(!is_blank(table[i + 1]));
        law_geometry_column_is_found(columns);
        let text = field_or_empty(table[i + 1], n);
        assert(text == geometry_text(f.geometry));
        if let Some(g) = f.geometry {
            assert(is_regular_shape(g));
            law_wkt_is_one_line(g);
            law_wkt_round_trip(g);
        } else {
            assert(trimmed(text) == text);
        }
        lemma_row_is_read(columns, f.geometry, i, 0);
        assert(read_row(columns, i).skip(0) =~= read_row(columns, i));
        lemma_features_are_read(features, i + 1);
        assert(all.take(i + 1) =~= all.take(i).push(all[i]));
    } else {
        assert(all.take(i) =~= all);
    }
}

/// A collection that was written is read back: its geometries as they are, and a
/// property for every column, with the value that the cell's text stands for. Not
/// read back are the reference system, and features without any text.
pub proof fn law_csv_round_trip(features: Seq<Item<Seq<char>, Json>>)
    requires
        are_recoverable(features),
    ensures
        collection_of(table_text(table_of(features))) == Ok::<Items<Seq<char>, Json>, Failure>(
            Items { features: recovered(features), crs: None },
        ),
{
    let table = table_of(features);
    law_table_reads_back(table);
    lemma_features_are_read(features, 0);
    assert(recovered(features).take(0) =~= Seq::empty());
}

/// Whether a text is not taken for anything but a text.
pub open spec fn is_evident(s: Seq<char>) -> bool {
    &&& s.len() > 0
    &&& lower_text(s) != "true"@
    &&& lower_text(s) != "false"@
    &&& integer_of(s) is None
    &&& !is_finite_text(s)
}

/// What is read of a cell is what was written: nothing, a truth value, an integer,
/// and a text that looks like none of these nor like a number.
pub proof fn law_cell_reads_back(d: Datum<Seq<char>>)
    requires
        d matches Datum::Int(n) ==> i64::MIN <= n <= i64::MAX,
        d matches Datum::Str(s) ==> is_evident(s),
        d !is Double,
    ensures
        read_cell(d) == (match d {
            Datum::Null => Json::Null,
            Datum::Bool(b) => Json::Bool(b),
            Datum::Int(n) => Json::Number { text: signed_decimal(n), is_int: true },
            Datum::Double(t) => Json::Null,
            Datum::Str(s) => Json::String(s),
        }),
{
    reveal_strlit("true");
    reveal_strlit("false");
    match d {
        Datum::Bool(b) => {
            assert(lower_text("true"@) =~= "true"@);
            assert(lower_text("false"@) =~= "false"@);
            assert("true"@.len() == 4 && "false"@.len() == 5);
        },
        Datum::Int(n) => {
            law_numeral_spells_its_number(n);
            let t = signed_decimal(n);
            assert(t.len() > 0 && (is_digit(t[0]) || t[0] == '-' || t[0] == '+'));
            assert(lower_text(t)[0] == t[0]);
            assert("true"@[0] == 't' && "false"@[0] == 'f');
        },
        _ => {},
    }
}

} // verus!
