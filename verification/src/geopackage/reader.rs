//! Reading GeoPackage layers out of the tables of a database.
use vstd::prelude::*;
use vstd::slice::slice_subrange;

use crate::crs::system::{crs_view, system_of, Crs, System};
use crate::error::{Error, Failure};
use crate::feature::{
    features_view, geometry_view, properties_view, Feature, FeatureCollection, Item, Items,
};
use crate::geometry::wkb::{decode, decoded};
use crate::geometry::{Geometry, Shape};
use crate::property::{Prop, PropValue};
use crate::sqlite::{
    is_relation, rows_view, tables_view, texts_view, values_view, Relation, Stored, Table, Value,
};
use crate::text::{same_text, signed_decimal, signed_decimal_text};

verus! {

/// The failure that carries this message.
pub open spec fn failure(message: Seq<char>) -> Failure {
    Failure::Convert("geopackage: "@ + message)
}

fn err(message: &str) -> (e: Error)
    ensures
        e@ == failure(message@),
{
    Error::Convert(crate::error::tagged("geopackage: ", message))
}

// --- looking up ------------------------------------------------------------------------

/// Where a text first stands in a list, from `i` on.
pub open spec fn place_of(texts: Seq<Seq<char>>, text: Seq<char>, i: int) -> Option<int>
    decreases texts.len() - i,
{
    if i < 0 || i >= texts.len() {
        None
    } else if texts[i] == text {
        Some(i)
    } else {
        place_of(texts, text, i + 1)
    }
}

/// Where the first table of a name stands, from `i` on.
pub open spec fn table_place(tables: Seq<Relation>, name: Seq<char>, i: int) -> Option<int>
    decreases tables.len() - i,
{
    if i < 0 || i >= tables.len() {
        None
    } else if tables[i].name == name {
        Some(i)
    } else {
        table_place(tables, name, i + 1)
    }
}

/// The first table of a name.
pub open spec fn table_named(tables: Seq<Relation>, name: Seq<char>) -> Option<Relation> {
    match table_place(tables, name, 0) {
        Some(i) => Some(tables[i]),
        None => None,
    }
}

/// The column of a name, which the table must have.
pub open spec fn column_of(t: Relation, name: Seq<char>) -> Result<int, Failure> {
    match place_of(t.columns, name, 0) {
        Some(i) => Ok(i),
        None => Err(failure(t.name + " has no "@ + name + " column"@)),
    }
}

/// The value of a row in a column, where the row has one.
pub open spec fn value_in(row: Seq<Stored>, i: int) -> Option<Stored> {
    if 0 <= i < row.len() {
        Some(row[i])
    } else {
        None
    }
}

/// The text of a row in a column; the empty one where it is no text.
pub open spec fn text_in(row: Seq<Stored>, i: int) -> Seq<char> {
    match value_in(row, i) {
        Some(Stored::Text(s)) => s,
        _ => Seq::empty(),
    }
}

/// The integer of a row in a column, or another where it is none.
pub open spec fn int_in(row: Seq<Stored>, i: int, otherwise: int) -> int {
    match value_in(row, i) {
        Some(Stored::Int(n)) => n,
        _ => otherwise,
    }
}

fn find_text(texts: &Vec<String>, text: &str) -> (r: Option<usize>)
    ensures
        match place_of(texts_view(texts@), text@, 0) {
            Some(i) => r matches Some(x) && x == i && x < texts@.len(),
            None => r is None,
        },
{
    let ghost all = texts_view(texts@);
    let mut i: usize = 0;
    while i < texts.len()
        invariant
            i <= texts@.len(),
            all == texts_view(texts@),
            place_of(all, text@, 0) == place_of(all, text@, i as int),
        decreases texts@.len() - i,
    {
        assert(all[i as int] == texts@[i as int]@);
        if same_text(texts[i].as_str(), text) {
            return Some(i);
        }
        i += 1;
    }
    None
}

fn find_table<'a>(tables: &'a Vec<Table>, name: &str) -> (r: Option<&'a Table>)
    ensures
        match table_named(tables_view(tables@), name@) {
            Some(t) => r matches Some(x) && x@ == t && tables@.contains(*x),
            None => r is None,
        },
{
    let ghost all = tables_view(tables@);
    let mut i: usize = 0;
    while i < tables.len()
        invariant
            i <= tables@.len(),
            all == tables_view(tables@),
            table_place(all, name@, 0) == table_place(all, name@, i as int),
        decreases tables@.len() - i,
    {
        assert(all[i as int] == tables@[i as int]@);
        if same_text(tables[i].name.as_str(), name) {
            return Some(&tables[i]);
        }
        i += 1;
    }
    None
}

fn column_index(table: &Table, name: &str) -> (r: Result<usize, Error>)
    ensures
        match column_of(table@, name@) {
            Ok(i) => r matches Ok(x) && x == i && 0 <= i < table.columns@.len(),
            Err(e) => r matches Err(f) && f@ == e,
        },
{
    match find_text(&table.columns, name) {
        Some(i) => Ok(i),
        None => {
            let mut m = String::from_str(table.name.as_str());
            m.append(" has no ");
            m.append(name);
            m.append(" column");
            Err(err(m.as_str()))
        },
    }
}

fn row_text(row: &Vec<Value>, i: usize) -> (r: Option<&String>)
    ensures
        match r {
            Some(s) => value_in(values_view(row@), i as int) == Some(Stored::Text(s@)),
            None => !(value_in(values_view(row@), i as int) matches Some(Stored::Text(_))),
        },
{
    if i < row.len() {
        assert(values_view(row@)[i as int] == row@[i as int]@);
        match &row[i] {
            Value::Text(s) => Some(s),
            _ => None,
        }
    } else {
        None
    }
}

fn row_int(row: &Vec<Value>, i: usize) -> (r: Option<i64>)
    ensures
        match r {
            Some(n) => value_in(values_view(row@), i as int) == Some(Stored::Int(n as int)),
            None => !(value_in(values_view(row@), i as int) matches Some(Stored::Int(_))),
        },
{
    if i < row.len() {
        assert(values_view(row@)[i as int] == row@[i as int]@);
        match &row[i] {
            Value::Int(n) => Some(*n),
            _ => None,
        }
    } else {
        None
    }
}

fn owned_text(row: &Vec<Value>, i: usize) -> (r: String)
    ensures
        r@ == text_in(values_view(row@), i as int),
{
    match row_text(row, i) {
        Some(s) => String::from_str(s.as_str()),
        None => String::new(),
    }
}

// --- the catalogue ---------------------------------------------------------------------

/// The names among the rows from the one numbered `i` on whose kind is
/// `features`.
pub open spec fn names_from(
    rows: Seq<Seq<Stored>>,
    i: int,
    name_col: int,
    type_col: int,
    so_far: Seq<Seq<char>>,
) -> Seq<Seq<char>>
    decreases rows.len() - i,
{
    if i < 0 || i >= rows.len() {
        so_far
    } else {
        match (value_in(rows[i], name_col), value_in(rows[i], type_col)) {
            (Some(Stored::Text(name)), Some(Stored::Text(kind))) => if kind == "features"@ {
                names_from(rows, i + 1, name_col, type_col, so_far.push(name))
            } else {
                names_from(rows, i + 1, name_col, type_col, so_far)
            },
            _ => names_from(rows, i + 1, name_col, type_col, so_far),
        }
    }
}

/// The names of the layers.
pub open spec fn layer_names(tables: Seq<Relation>) -> Result<Seq<Seq<char>>, Failure> {
    match table_named(tables, "gpkg_contents"@) {
        None => Err(failure("missing gpkg_contents"@)),
        Some(t) => match column_of(t, "table_name"@) {
            Err(e) => Err(e),
            Ok(name_col) => match column_of(t, "data_type"@) {
                Err(e) => Err(e),
                Ok(type_col) => Ok(names_from(t.rows, 0, name_col, type_col, Seq::empty())),
            },
        },
    }
}

/// Which column of which table has the geometries, and in which system.
pub struct GeometryColumn {
    pub table: Seq<char>,
    pub column: Seq<char>,
    pub srs_id: int,
}

/// The geometry columns among the rows from the one numbered `i` on. A system
/// that is not given is the one numbered zero.
pub open spec fn geometry_columns_from(
    rows: Seq<Seq<Stored>>,
    i: int,
    cols: (int, int, int),
    so_far: Seq<GeometryColumn>,
) -> Seq<GeometryColumn>
    decreases rows.len() - i,
{
    if i < 0 || i >= rows.len() {
        so_far
    } else {
        match (value_in(rows[i], cols.0), value_in(rows[i], cols.1)) {
            (Some(Stored::Text(table)), Some(Stored::Text(column))) => geometry_columns_from(
                rows,
                i + 1,
                cols,
                so_far.push(
                    GeometryColumn { table, column, srs_id: int_in(rows[i], cols.2, 0) },
                ),
            ),
            _ => geometry_columns_from(rows, i + 1, cols, so_far),
        }
    }
}

/// The geometry columns; none where there is no table of them.
pub open spec fn geometry_columns_of(tables: Seq<Relation>) -> Result<
    Seq<GeometryColumn>,
    Failure,
> {
    match table_named(tables, "gpkg_geometry_columns"@) {
        None => Ok(Seq::empty()),
        Some(t) => match column_of(t, "table_name"@) {
            Err(e) => Err(e),
            Ok(a) => match column_of(t, "column_name"@) {
                Err(e) => Err(e),
                Ok(b) => match column_of(t, "srs_id"@) {
                    Err(e) => Err(e),
                    Ok(c) => Ok(geometry_columns_from(t.rows, 0, (a, b, c), Seq::empty())),
                },
            },
        },
    }
}

/// A row of the table of systems.
pub struct Srs {
    pub srs_id: int,
    pub organization: Seq<char>,
    pub organization_coordsys_id: int,
    pub definition: Seq<char>,
}

/// The systems among the rows from the one numbered `i` on. A row without a
/// number is left aside.
pub open spec fn systems_from(
    rows: Seq<Seq<Stored>>,
    i: int,
    cols: (int, int, int, int),
    so_far: Seq<Srs>,
) -> Seq<Srs>
    decreases rows.len() - i,
{
    if i < 0 || i >= rows.len() {
        so_far
    } else {
        match value_in(rows[i], cols.0) {
            Some(Stored::Int(srs_id)) => systems_from(
                rows,
                i + 1,
                cols,
                so_far.push(
                    Srs {
                        srs_id,
                        organization: text_in(rows[i], cols.1),
                        organization_coordsys_id: int_in(rows[i], cols.2, srs_id),
                        definition: text_in(rows[i], cols.3),
                    },
                ),
            ),
            _ => systems_from(rows, i + 1, cols, so_far),
        }
    }
}

/// The systems; none where there is no table of them.
pub open spec fn systems_of(tables: Seq<Relation>) -> Result<Seq<Srs>, Failure> {
    match table_named(tables, "gpkg_spatial_ref_sys"@) {
        None => Ok(Seq::empty()),
        Some(t) => match column_of(t, "srs_id"@) {
            Err(e) => Err(e),
            Ok(a) => match column_of(t, "organization"@) {
                Err(e) => Err(e),
                Ok(b) => match column_of(t, "organization_coordsys_id"@) {
                    Err(e) => Err(e),
                    Ok(c) => match column_of(t, "definition"@) {
                        Err(e) => Err(e),
                        Ok(d) => Ok(systems_from(t.rows, 0, (a, b, c, d), Seq::empty())),
                    },
                },
            },
        },
    }
}

/// The first system of a number, from `i` on.
pub open spec fn system_place(systems: Seq<Srs>, srs_id: int, i: int) -> Option<Srs>
    decreases systems.len() - i,
{
    if i < 0 || i >= systems.len() {
        None
    } else if systems[i].srs_id == srs_id {
        Some(systems[i])
    } else {
        system_place(systems, srs_id, i + 1)
    }
}

/// The definition of a system, where it has one.
pub open spec fn definition_of(s: Srs) -> Option<Seq<char>> {
    if s.definition == "undefined"@ || s.definition.len() == 0 {
        None
    } else {
        Some(s.definition)
    }
}

/// The system of a number. The numbers zero and minus one stand for undefined
/// systems.
pub open spec fn resolved(srs_id: int, systems: Seq<Srs>) -> Option<System> {
    if srs_id == 0 || srs_id == -1 {
        None
    } else {
        match system_place(systems, srs_id, 0) {
            None => None,
            Some(s) => Some(
                system_of(
                    Some(s.organization),
                    Some(signed_decimal(s.organization_coordsys_id)),
                    definition_of(s),
                    None,
                ),
            ),
        }
    }
}

struct GeomColumn {
    table: String,
    column: String,
    srs_id: i64,
}

impl View for GeomColumn {
    type V = GeometryColumn;

    closed spec fn view(&self) -> GeometryColumn {
        GeometryColumn {
            table: self.table@,
            column: self.column@,
            srs_id: self.srs_id as int,
        }
    }
}

spec fn geom_columns_view(columns: Seq<GeomColumn>) -> Seq<GeometryColumn> {
    columns.map_values(|c: GeomColumn| c@)
}

struct SrsRow {
    srs_id: i64,
    organization: String,
    organization_coordsys_id: i64,
    definition: String,
}

impl View for SrsRow {
    type V = Srs;

    closed spec fn view(&self) -> Srs {
        Srs {
            srs_id: self.srs_id as int,
            organization: self.organization@,
            organization_coordsys_id: self.organization_coordsys_id as int,
            definition: self.definition@,
        }
    }
}

spec fn srs_view(rows: Seq<SrsRow>) -> Seq<Srs> {
    rows.map_values(|r: SrsRow| r@)
}

fn feature_layer_names(tables: &Vec<Table>) -> (r: Result<Vec<String>, Error>)
    ensures
        match layer_names(tables_view(tables@)) {
            Ok(names) => r matches Ok(v) && texts_view(v@) == names,
            Err(e) => r matches Err(f) && f@ == e,
        },
{
    let t = match find_table(tables, "gpkg_contents") {
        Some(t) => t,
        None => {
            return Err(err("missing gpkg_contents"));
        },
    };
    let name_col = column_index(t, "table_name")?;
    let type_col = column_index(t, "data_type")?;
    let ghost rows = rows_view(t.rows@);
    let ghost all = names_from(rows, 0, name_col as int, type_col as int, Seq::empty());
    let mut names: Vec<String> = Vec::new();
    assert(texts_view(names@) =~= Seq::empty());
    let mut i: usize = 0;
    while i < t.rows.len()
        invariant
            i <= t.rows@.len(),
            rows == rows_view(t.rows@),
            all == names_from(
                rows,
                i as int,
                name_col as int,
                type_col as int,
                texts_view(names@),
            ),
        decreases t.rows@.len() - i,
    {
        assert(rows[i as int] == values_view(t.rows@[i as int]@));
        if let (Some(name), Some(kind)) = (row_text(&t.rows[i], name_col), row_text(
            &t.rows[i],
            type_col,
        )) {
            if same_text(kind.as_str(), "features") {
                let copy = String::from_str(name.as_str());
                let ghost before = texts_view(names@);
                names.push(copy);
                assert(texts_view(names@) =~= before.push(name@));
            }
        }
        i += 1;
    }
    Ok(names)
}

fn geometry_columns(tables: &Vec<Table>) -> (r: Result<Vec<GeomColumn>, Error>)
    ensures
        match geometry_columns_of(tables_view(tables@)) {
            Ok(columns) => r matches Ok(v) && geom_columns_view(v@) == columns,
            Err(e) => r matches Err(f) && f@ == e,
        },
{
    let mut out: Vec<GeomColumn> = Vec::new();
    assert(geom_columns_view(out@) =~= Seq::empty());
    let t = match find_table(tables, "gpkg_geometry_columns") {
        Some(t) => t,
        None => {
            return Ok(out);
        },
    };
    let a = column_index(t, "table_name")?;
    let b = column_index(t, "column_name")?;
    let c = column_index(t, "srs_id")?;
    let ghost rows = rows_view(t.rows@);
    let ghost cols = (a as int, b as int, c as int);
    let ghost all = geometry_columns_from(rows, 0, cols, Seq::empty());
    let mut i: usize = 0;
    while i < t.rows.len()
        invariant
            i <= t.rows@.len(),
            rows == rows_view(t.rows@),
            cols == (a as int, b as int, c as int),
            all == geometry_columns_from(rows, i as int, cols, geom_columns_view(out@)),
        decreases t.rows@.len() - i,
    {
        assert(rows[i as int] == values_view(t.rows@[i as int]@));
        let row = &t.rows[i];
        if let (Some(table), Some(column)) = (row_text(row, a), row_text(row, b)) {
            let srs_id: i64 = match row_int(row, c) {
                Some(n) => n,
                None => 0,
            };
            let g = GeomColumn {
                table: String::from_str(table.as_str()),
                column: String::from_str(column.as_str()),
                srs_id,
            };
            let ghost before = geom_columns_view(out@);
            out.push(g);
            assert(geom_columns_view(out@) =~= before.push(g@));
        }
        i += 1;
    }
    Ok(out)
}

fn spatial_ref_systems(tables: &Vec<Table>) -> (r: Result<Vec<SrsRow>, Error>)
    ensures
        match systems_of(tables_view(tables@)) {
            Ok(systems) => r matches Ok(v) && srs_view(v@) == systems,
            Err(e) => r matches Err(f) && f@ == e,
        },
{
    let mut out: Vec<SrsRow> = Vec::new();
    assert(srs_view(out@) =~= Seq::empty());
    let t = match find_table(tables, "gpkg_spatial_ref_sys") {
        Some(t) => t,
        None => {
            return Ok(out);
        },
    };
    let a = column_index(t, "srs_id")?;
    let b = column_index(t, "organization")?;
    let c = column_index(t, "organization_coordsys_id")?;
    let d = column_index(t, "definition")?;
    let ghost rows = rows_view(t.rows@);
    let ghost cols = (a as int, b as int, c as int, d as int);
    let ghost all = systems_from(rows, 0, cols, Seq::empty());
    let mut i: usize = 0;
    while i < t.rows.len()
        invariant
            i <= t.rows@.len(),
            rows == rows_view(t.rows@),
            cols == (a as int, b as int, c as int, d as int),
            all == systems_from(rows, i as int, cols, srs_view(out@)),
        decreases t.rows@.len() - i,
    {
        assert(rows[i as int] == values_view(t.rows@[i as int]@));
        let row = &t.rows[i];
        if let Some(srs_id) = row_int(row, a) {
            let org_id: i64 = match row_int(row, c) {
                Some(n) => n,
                None => srs_id,
            };
            let s = SrsRow {
                srs_id,
                organization: owned_text(row, b),
                organization_coordsys_id: org_id,
                definition: owned_text(row, d),
            };
            let ghost before = srs_view(out@);
            out.push(s);
            assert(srs_view(out@) =~= before.push(s@));
        }
        i += 1;
    }
    Ok(out)
}

/// The reference system of a number.
fn resolve_crs(srs_id: i64, srs: &Vec<SrsRow>) -> (r: Option<Crs>)
    ensures
        crs_view(r) == resolved(srs_id as int, srs_view(srs@)),
{
    if srs_id == 0 || srs_id == -1 {
        return None;
    }
    let ghost all = srs_view(srs@);
    let mut i: usize = 0;
    while i < srs.len()
        invariant
            i <= srs@.len(),
            srs_id != 0 && srs_id != -1,
            all == srs_view(srs@),
            system_place(all, srs_id as int, 0) == system_place(all, srs_id as int, i as int),
        decreases srs@.len() - i,
    {
        let row = &srs[i];
        assert(all[i as int] == row@);
        if row.srs_id == srs_id {
            let wkt = if same_text(row.definition.as_str(), "undefined") || same_text(
                row.definition.as_str(),
                "",
            ) {
                None
            } else {
                Some(String::from_str(row.definition.as_str()))
            };
            proof {
                reveal_strlit("");
                if row.definition@.len() == 0 {
                    assert(row.definition@ =~= ""@);
                }
            }
            return Some(
                Crs::from_authority_code(
                    Some(String::from_str(row.organization.as_str())),
                    Some(signed_decimal_text(row.organization_coordsys_id)),
                    wkt,
                    None,
                ),
            );
        }
        i += 1;
    }
    None
}

// --- features --------------------------------------------------------------------------

/// The size of the envelope that the flags of a geometry's header announce.
pub open spec fn envelope_size(flags: u8) -> Option<int> {
    let indicator = flags as int / 2 % 8;
    if indicator == 0 {
        Some(0)
    } else if indicator == 1 {
        Some(32)
    } else if indicator == 2 || indicator == 3 {
        Some(48)
    } else if indicator == 4 {
        Some(64)
    } else {
        None
    }
}

/// The WKB in a geometry: after `GP`, a version, flags, a system's number and
/// the envelope.
pub open spec fn wkb_in(blob: Seq<u8>) -> Result<Seq<u8>, Failure> {
    if blob.len() < 8 || blob[0] != 0x47 || blob[1] != 0x50 {
        Err(failure("bad geometry blob header"@))
    } else {
        match envelope_size(blob[3]) {
            None => Err(failure("invalid envelope flag"@)),
            Some(n) => if 8 + n > blob.len() {
                Err(failure("truncated geometry blob"@))
            } else {
                Ok(blob.skip(8 + n))
            },
        }
    }
}

/// The geometry that a value holds; none where it is no bytes.
pub open spec fn geometry_in(v: Option<Stored>) -> Result<Option<Shape<u64>>, Failure> {
    match v {
        Some(Stored::Blob(b)) => match wkb_in(b) {
            Err(e) => Err(e),
            Ok(wkb) => match decoded(wkb) {
                Err(e) => Err(e),
                Ok(s) => Ok(Some(s)),
            },
        },
        _ => Ok(None),
    }
}

/// A stored value as a property. Bytes have no form as one.
pub open spec fn property_of(v: Stored) -> Prop {
    match v {
        Stored::Null => Prop::Null,
        Stored::Int(n) => Prop::Int(n),
        Stored::Real(d) => Prop::Double(d),
        Stored::Text(s) => Prop::Text(s),
        Stored::Blob(_) => Prop::Null,
    }
}

/// The properties of a row from the column numbered `i` on: every column but the
/// geometry and the one that stands for the row number.
pub open spec fn properties_from(
    columns: Seq<Seq<char>>,
    row: Seq<Stored>,
    geom: Option<int>,
    alias: Option<int>,
    i: int,
    so_far: Seq<(Seq<char>, Prop)>,
) -> Seq<(Seq<char>, Prop)>
    decreases columns.len() - i,
{
    if i < 0 || i >= columns.len() {
        so_far
    } else if geom == Some(i) || alias == Some(i) {
        properties_from(columns, row, geom, alias, i + 1, so_far)
    } else {
        properties_from(
            columns,
            row,
            geom,
            alias,
            i + 1,
            so_far.push((columns[i], property_of(row[i]))),
        )
    }
}

/// The feature of a row.
pub open spec fn feature_in(t: Relation, row: Seq<Stored>, geom: Option<int>) -> Result<
    Item<u64, Prop>,
    Failure,
> {
    match geometry_in(
        match geom {
            Some(i) => value_in(row, i),
            None => None,
        },
    ) {
        Err(e) => Err(e),
        Ok(geometry) => Ok(
            Item {
                geometry,
                properties: properties_from(
                    t.columns,
                    row,
                    geom,
                    t.rowid_alias,
                    0,
                    Seq::empty(),
                ),
            },
        ),
    }
}

/// The features of the rows from the one numbered `i` on.
pub open spec fn features_in(
    t: Relation,
    geom: Option<int>,
    i: int,
    so_far: Seq<Item<u64, Prop>>,
) -> Result<Seq<Item<u64, Prop>>, Failure>
    decreases t.rows.len() - i,
{
    if i < 0 || i >= t.rows.len() {
        Ok(so_far)
    } else {
        match feature_in(t, t.rows[i], geom) {
            Err(e) => Err(e),
            Ok(f) => features_in(t, geom, i + 1, so_far.push(f)),
        }
    }
}

/// The first geometry column of a table, from `i` on.
pub open spec fn geometry_column(columns: Seq<GeometryColumn>, table: Seq<char>, i: int) -> Option<
    GeometryColumn,
>
    decreases columns.len() - i,
{
    if i < 0 || i >= columns.len() {
        None
    } else if columns[i].table == table {
        Some(columns[i])
    } else {
        geometry_column(columns, table, i + 1)
    }
}

/// The collection of a layer's table.
pub open spec fn layer_in(t: Relation, geom: Option<GeometryColumn>, systems: Seq<Srs>) -> Result<
    Items<u64, Prop>,
    Failure,
> {
    let place = match geom {
        Some(g) => place_of(t.columns, g.column, 0),
        None => None,
    };
    match features_in(t, place, 0, Seq::empty()) {
        Err(e) => Err(e),
        Ok(features) => Ok(
            Items {
                features,
                crs: match geom {
                    Some(g) => resolved(g.srs_id, systems),
                    None => None,
                },
            },
        ),
    }
}

/// The layers of the names from the one numbered `i` on. A name without a table
/// is left aside.
pub open spec fn layers_from(
    tables: Seq<Relation>,
    names: Seq<Seq<char>>,
    columns: Seq<GeometryColumn>,
    systems: Seq<Srs>,
    i: int,
    so_far: Seq<(Seq<char>, Items<u64, Prop>)>,
) -> Result<Seq<(Seq<char>, Items<u64, Prop>)>, Failure>
    decreases names.len() - i,
{
    if i < 0 || i >= names.len() {
        Ok(so_far)
    } else {
        match table_named(tables, names[i]) {
            None => layers_from(tables, names, columns, systems, i + 1, so_far),
            Some(t) => match layer_in(t, geometry_column(columns, names[i], 0), systems) {
                Err(e) => Err(e),
                Ok(c) => layers_from(
                    tables,
                    names,
                    columns,
                    systems,
                    i + 1,
                    so_far.push((names[i], c)),
                ),
            },
        }
    }
}

/// The layers of a database.
pub open spec fn layers_of(tables: Seq<Relation>) -> Result<
    Seq<(Seq<char>, Items<u64, Prop>)>,
    Failure,
> {
    match layer_names(tables) {
        Err(e) => Err(e),
        Ok(names) => match geometry_columns_of(tables) {
            Err(e) => Err(e),
            Ok(columns) => match systems_of(tables) {
                Err(e) => Err(e),
                Ok(systems) => layers_from(tables, names, columns, systems, 0, Seq::empty()),
            },
        },
    }
}

/// The WKB in a geometry.
pub fn strip_gpkg_header(blob: &[u8]) -> (r: Result<&[u8], Error>)
    ensures
        match wkb_in(blob@) {
            Ok(wkb) => r matches Ok(b) && b@ == wkb,
            Err(e) => r matches Err(f) && f@ == e,
        },
{
    if blob.len() < 8 || blob[0] != 0x47 || blob[1] != 0x50 {
        return Err(err("bad geometry blob header"));
    }
    let indicator: u8 = blob[3] / 2 % 8;
    let envelope: usize = if indicator == 0 {
        0
    } else if indicator == 1 {
        32
    } else if indicator == 2 || indicator == 3 {
        48
    } else if indicator == 4 {
        64
    } else {
        return Err(err("invalid envelope flag"));
    };
    if blob.len() < 8 + envelope {
        return Err(err("truncated geometry blob"));
    }
    let r = slice_subrange(blob, 8 + envelope, blob.len());
    assert(r@ =~= blob@.skip(8 + envelope as int));
    Ok(r)
}

fn value_to_property(v: &Value) -> (r: PropValue)
    ensures
        r@ == property_of(v@),
{
    match v {
        Value::Null => PropValue::Null,
        Value::Int(n) => PropValue::Int(*n),
        Value::Real(d) => PropValue::Double(*d),
        Value::Text(s) => PropValue::Text(String::from_str(s.as_str())),
        Value::Blob(_) => PropValue::Null,
    }
}

pub open spec fn index_view(i: Option<usize>) -> Option<int> {
    match i {
        Some(i) => Some(i as int),
        None => None,
    }
}

fn row_geometry(row: &Vec<Value>, geom_idx: Option<usize>) -> (r: Result<
    Option<Geometry<u64>>,
    Error,
>)
    ensures
        match geometry_in(
            match geom_idx {
                Some(i) => value_in(values_view(row@), i as int),
                None => None,
            },
        ) {
            Ok(g) => r matches Ok(x) && geometry_view(x) == g,
            Err(e) => r matches Err(f) && f@ == e,
        },
{
    if let Some(i) = geom_idx {
        if i < row.len() {
            assert(values_view(row@)[i as int] == row@[i as int]@);
            if let Value::Blob(b) = &row[i] {
                let wkb = strip_gpkg_header(b.as_slice())?;
                return Ok(Some(decode(wkb)?));
            }
        }
    }
    Ok(None)
}

fn row_properties(table: &Table, row: &Vec<Value>, geom_idx: Option<usize>) -> (r: Vec<
    (String, PropValue),
>)
    requires
        row@.len() == table.columns@.len(),
    ensures
        properties_view(r@) == properties_from(
            table@.columns,
            values_view(row@),
            index_view(geom_idx),
            table@.rowid_alias,
            0,
            Seq::empty(),
        ),
{
    let ghost all = properties_from(
        table@.columns,
        values_view(row@),
        index_view(geom_idx),
        table@.rowid_alias,
        0,
        Seq::empty(),
    );
    let mut out: Vec<(String, PropValue)> = Vec::new();
    assert(properties_view(out@) =~= Seq::empty());
    let mut i: usize = 0;
    while i < table.columns.len()
        invariant
            i <= table.columns@.len(),
            row@.len() == table.columns@.len(),
            all == properties_from(
                table@.columns,
                values_view(row@),
                index_view(geom_idx),
                table@.rowid_alias,
                i as int,
                properties_view(out@),
            ),
        decreases table.columns@.len() - i,
    {
        assert(values_view(row@)[i as int] == row@[i as int]@);
        assert(table@.columns[i as int] == table.columns@[i as int]@);
        let is_geometry = match geom_idx {
            Some(g) => g == i,
            None => false,
        };
        let is_alias = match table.rowid_alias {
            Some(a) => a == i,
            None => false,
        };
        if !is_geometry && !is_alias {
            let name = String::from_str(table.columns[i].as_str());
            let v = value_to_property(&row[i]);
            let ghost before = properties_view(out@);
            let ghost pair = (name@, v@);
            out.push((name, v));
            assert(properties_view(out@) =~= before.push(pair));
        }
        i += 1;
    }
    out
}

fn read_layer(table: &Table, geom_idx: Option<usize>) -> (r: Result<
    Vec<Feature<u64, PropValue>>,
    Error,
>)
    requires
        is_relation(table@),
    ensures
        match features_in(table@, index_view(geom_idx), 0, Seq::empty()) {
            Ok(features) => r matches Ok(v) && features_view(v@) == features,
            Err(e) => r matches Err(f) && f@ == e,
        },
{
    let ghost all = features_in(table@, index_view(geom_idx), 0, Seq::empty());
    let mut features: Vec<Feature<u64, PropValue>> = Vec::new();
    assert(features_view(features@) =~= Seq::empty());
    let mut i: usize = 0;
    while i < table.rows.len()
        invariant
            i <= table.rows@.len(),
            is_relation(table@),
            all == features_in(table@, index_view(geom_idx), 0, Seq::empty()),
            all == features_in(table@, index_view(geom_idx), i as int, features_view(features@)),
        decreases table.rows@.len() - i,
    {
        let row = &table.rows[i];
        assert(table@.rows[i as int] == values_view(row@));
        let geometry = row_geometry(row, geom_idx)?;
        let properties = row_properties(table, row, geom_idx);
        let f = Feature { geometry, properties };
        let ghost before = features_view(features@);
        features.push(f);
        assert(features_view(features@) =~= before.push(f@));
        i += 1;
    }
    Ok(features)
}

fn find_geometry_column<'a>(columns: &'a Vec<GeomColumn>, table: &str) -> (r: Option<
    &'a GeomColumn,
>)
    ensures
        match geometry_column(geom_columns_view(columns@), table@, 0) {
            Some(g) => r matches Some(x) && x@ == g,
            None => r is None,
        },
{
    let ghost all = geom_columns_view(columns@);
    let mut i: usize = 0;
    while i < columns.len()
        invariant
            i <= columns@.len(),
            all == geom_columns_view(columns@),
            geometry_column(all, table@, 0) == geometry_column(all, table@, i as int),
        decreases columns@.len() - i,
    {
        assert(all[i as int] == columns@[i as int]@);
        if same_text(columns[i].table.as_str(), table) {
            return Some(&columns[i]);
        }
        i += 1;
    }
    None
}

pub open spec fn layers_view(layers: Seq<(String, FeatureCollection<u64, PropValue>)>) -> Seq<
    (Seq<char>, Items<u64, Prop>),
> {
    layers.map_values(|l: (String, FeatureCollection<u64, PropValue>)| (l.0@, l.1@))
}

/// Read every layer of features out of a database's tables, by name.
pub fn read_layers(tables: &Vec<Table>) -> (r: Result<
    Vec<(String, FeatureCollection<u64, PropValue>)>,
    Error,
>)
    requires
        forall|i: int| 0 <= i < tables@.len() ==> is_relation((#[trigger] tables@[i])@),
    ensures
        match layers_of(tables_view(tables@)) {
            Ok(layers) => r matches Ok(v) && layers_view(v@) == layers,
            Err(e) => r matches Err(f) && f@ == e,
        },
{
    let ghost ts = tables_view(tables@);
    let names = feature_layer_names(tables)?;
    let columns = geometry_columns(tables)?;
    let srs = spatial_ref_systems(tables)?;
    let ghost ns = texts_view(names@);
    let ghost gs = geom_columns_view(columns@);
    let ghost ss = srs_view(srs@);
    let ghost all = layers_from(ts, ns, gs, ss, 0, Seq::empty());
    let mut layers: Vec<(String, FeatureCollection<u64, PropValue>)> = Vec::new();
    assert(layers_view(layers@) =~= Seq::empty());
    let mut i: usize = 0;
    while i < names.len()
        invariant
            i <= names@.len(),
            ts == tables_view(tables@),
            ns == texts_view(names@),
            gs == geom_columns_view(columns@),
            ss == srs_view(srs@),
            forall|i: int| 0 <= i < tables@.len() ==> is_relation((#[trigger] tables@[i])@),
            all == layers_of(ts),
            all == layers_from(ts, ns, gs, ss, i as int, layers_view(layers@)),
        decreases names@.len() - i,
    {
        assert(ns[i as int] == names@[i as int]@);
        if let Some(table) = find_table(tables, names[i].as_str()) {
            let geom = find_geometry_column(&columns, names[i].as_str());
            let geom_idx = match geom {
                Some(g) => find_text(&table.columns, g.column.as_str()),
                None => None,
            };
            assert(is_relation(table@));
            let features = read_layer(table, geom_idx)?;
            let crs = match geom {
                Some(g) => resolve_crs(g.srs_id, &srs),
                None => None,
            };
            let fc = FeatureCollection { features, crs };
            let ghost before = layers_view(layers@);
            let name = String::from_str(names[i].as_str());
            let ghost pair = (name@, fc@);
            layers.push((name, fc));
            assert(layers_view(layers@) =~= before.push(pair));
        }
        i += 1;
    }
    Ok(layers)
}

} // verus!
