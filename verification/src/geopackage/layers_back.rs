//! The layers of a GeoPackage that was written are read back from its tables.
use vstd::prelude::*;

use super::reader::{
    feature_in, features_in, geometry_column, geometry_columns_from, geometry_columns_of,
    layer_in, layer_names, layers_from, layers_of, names_from, place_of, properties_from, property_of,
    int_in, resolved, system_place, systems_from, systems_of, table_named, table_place, text_in,
    GeometryColumn, Srs,
};
use super::round_trip::{
    are_apart, are_distinct, are_one, first_with, kept, law_geometry_is_read_evened,
    law_layer_is_registered, law_registered_numbers_are_distinct, law_system_rows_ascend,
    law_upsert_keeps_the_order, lemma_kept_is_apart, lemma_kept_is_of, lemma_place_splits,
    to_register,
};
use super::writer::{
    assigned, contents_plan, contents_row, default_systems, feature_plan, feature_row,
    geometry_plan, geometry_row, is_default, numeric_code, place_for, registration_of,
    registration_row, stored_cell, system_rows, systems_plan, systems_view, upserted, layer_models,
    Assignment, Layer, LayerModel, Registration, WGS84_WKT,
};
use crate::crs::system::{is_wgs84, law_wgs84_spellings_collapse, system_of, Record, System};
use crate::error::Failure;
use crate::feature::{Item, Items};
use crate::geometry::evened::{evened, is_counted, law_uniform_stays};
use crate::geometry::wkb::uniform;
use crate::number::law_numeral_spells_its_number;
use crate::property::Prop;
use crate::schema::Field;
use crate::sqlite::{ascends, Plan, Relation, Stored};
use crate::text::{decimal, lower_text, signed_decimal};

verus! {

// --- tables as they are read ---------------------------------------------------------------

/// A row as it is read: the column that stands for the row number has it.
pub open spec fn numbered(row: (int, Seq<Stored>), alias: Option<int>) -> Seq<Stored> {
    match alias {
        Some(i) => row.1.update(i, Stored::Int(row.0)),
        None => row.1,
    }
}

/// A table as it is read from a database that it was written to, where its
/// definition names these columns.
pub open spec fn as_read(p: Plan, columns: Seq<Seq<char>>, alias: Option<int>) -> Relation {
    Relation {
        name: p.name,
        columns,
        rowid_alias: alias,
        rows: p.rows.map_values(|r: (int, Seq<Stored>)| numbered(r, alias)),
    }
}

/// The columns of the table of systems.
pub open spec fn systems_columns() -> Seq<Seq<char>> {
    seq![
        "srs_name"@,
        "srs_id"@,
        "organization"@,
        "organization_coordsys_id"@,
        "definition"@,
        "description"@,
        "definition_12_063"@,
    ]
}

/// The columns of the table of contents.
pub open spec fn contents_columns() -> Seq<Seq<char>> {
    seq![
        "table_name"@,
        "data_type"@,
        "identifier"@,
        "description"@,
        "last_change"@,
        "min_x"@,
        "min_y"@,
        "max_x"@,
        "max_y"@,
        "srs_id"@,
    ]
}

/// The columns of the table of geometry columns.
pub open spec fn geometry_columns() -> Seq<Seq<char>> {
    seq!["table_name"@, "column_name"@, "geometry_type_name"@, "srs_id"@, "z"@, "m"@]
}

/// The columns of the table of extensions.
pub open spec fn extensions_columns() -> Seq<Seq<char>> {
    seq!["table_name"@, "column_name"@, "extension_name"@, "definition"@, "scope"@]
}

/// The columns of a layer's table.
pub open spec fn feature_columns(columns: Seq<Field<u64>>) -> Seq<Seq<char>> {
    seq!["fid"@, "geom"@] + columns.map_values(|c: Field<u64>| c.name)
}

/// Whether tables are those of layers as they are read. Behind the layers' tables
/// there may be others, such as those of indexes.
pub open spec fn are_tables_of<W>(
    tables: Seq<Relation>,
    layers: Seq<LayerModel<W>>,
    a: Assignment,
    wgs84_wkt2: Seq<char>,
    boxed: bool,
) -> bool {
    &&& tables.len() >= 4 + layers.len()
    &&& tables[0] == as_read(
        systems_plan(wgs84_wkt2, a.registrations),
        systems_columns(),
        Some(1int),
    )
    &&& tables[1] == as_read(contents_plan(layers, a.per_layer), contents_columns(), None)
    &&& tables[2] == as_read(geometry_plan(layers, a.per_layer), geometry_columns(), None)
    &&& tables[3].name == "gpkg_extensions"@
    &&& tables[3].columns == extensions_columns()
    &&& forall|i: int|
        0 <= i < layers.len() ==> #[trigger] tables[4 + i] == as_read(
            feature_plan(layers[i], a.per_layer[i], boxed),
            feature_columns(layers[i].columns),
            Some(0int),
        )
}

/// Whether a name is that of a table that every GeoPackage has.
pub open spec fn is_reserved(name: Seq<char>) -> bool {
    name == "gpkg_spatial_ref_sys"@ || name == "gpkg_contents"@ || name == "gpkg_geometry_columns"@
        || name == "gpkg_extensions"@
}

/// Whether layers have different names, none of them reserved.
pub open spec fn are_named<W>(layers: Seq<LayerModel<W>>) -> bool {
    &&& forall|i: int| 0 <= i < layers.len() ==> !is_reserved((#[trigger] layers[i]).name)
    &&& forall|i: int, j: int|
        0 <= i < j < layers.len() ==> (#[trigger] layers[i]).name != (#[trigger] layers[j]).name
}

// --- what is read --------------------------------------------------------------------------

/// The properties of a feature, as they are read: every column has one.
pub open spec fn read_properties(columns: Seq<Field<u64>>, row: int) -> Seq<(Seq<char>, Prop)> {
    columns.map_values(|c: Field<u64>| (c.name, property_of(stored_cell(c.values[row]))))
}

/// The features of a layer, as they are read: every line and list of rings of their
/// geometries has the dimensionality of its first position.
pub open spec fn read_features<W>(l: LayerModel<W>) -> Seq<Item<u64, Prop>> {
    Seq::new(
        l.items.features.len(),
        |i: int|
            Item {
                geometry: match l.items.features[i].geometry {
                    Some(s) => Some(evened(s)),
                    None => None,
                },
                properties: read_properties(l.columns, i),
            },
    )
}

/// The system of a registration, as it is read.
pub open spec fn registered_system(r: Registration) -> System {
    system_of(
        Some(r.organization),
        Some(signed_decimal(r.organization_coordsys_id)),
        if r.definition == "undefined"@ || r.definition.len() == 0 {
            None
        } else {
            Some(r.definition)
        },
        None,
    )
}

/// A layer's system, as it is read: that of its registration under the layer's
/// number. WGS 84, also by its code alone, is WGS 84.
pub open spec fn read_system(s: Option<System>, number: int) -> Option<System> {
    match s {
        None => None,
        Some(System::Wgs84) => Some(System::Wgs84),
        Some(System::Named(r)) => if is_default(r) {
            Some(System::Wgs84)
        } else {
            Some(registered_system(registration_of(r, None, number)))
        },
    }
}

/// Whether a system is what is read of the layer numbered `i`: that of the first layer
/// with its number, as it is registered. This is the layer itself, or one of the same
/// code of the same organization.
pub open spec fn is_read_system(
    read: Option<System>,
    crs: Seq<Option<System>>,
    ids: Seq<int>,
    i: int,
) -> bool {
    let j = first_with(ids, ids[i], 0);
    &&& 0 <= j <= i
    &&& ids[j] == ids[i]
    &&& read == read_system(crs[j], ids[i])
    &&& match to_register(crs[i]) {
        Some(r) => to_register(crs[j]) matches Some(q) && are_one(q, r),
        None => read == read_system(crs[i], ids[i]),
    }
}

// --- features ------------------------------------------------------------------------------

proof fn lemma_geom_place(columns: Seq<Field<u64>>)
    ensures
        place_of(feature_columns(columns), "geom"@, 0) == Some(1int),
{
    reveal_strlit("fid");
    reveal_strlit("geom");
    reveal_with_fuel(place_of, 3);
    let all = feature_columns(columns);
    assert(all[0] == "fid"@);
    assert(all[1] == "geom"@);
    assert("fid"@.len() != "geom"@.len());
}

proof fn lemma_properties_from<W>(
    l: LayerModel<W>,
    row: Seq<Stored>,
    r: int,
    i: int,
)
    requires
        2 <= i <= l.columns.len() + 2,
        row.len() == l.columns.len() + 2,
        forall|k: int| 0 <= k < l.columns.len() ==> row[k + 2] == stored_cell(
            (#[trigger] l.columns[k]).values[r],
        ),
    ensures
        properties_from(
            feature_columns(l.columns),
            row,
            Some(1int),
            Some(0int),
            i,
            read_properties(l.columns, r).take(i - 2),
        ) == read_properties(l.columns, r),
    decreases l.columns.len() + 2 - i,
{
    let columns = feature_columns(l.columns);
    let all = read_properties(l.columns, r);
    if i < l.columns.len() + 2 {
        let c = l.columns[i - 2];
        assert(columns[i] == c.name);
        assert(row[i] == stored_cell(l.columns[i - 2].values[r]));
        lemma_properties_from(l, row, r, i + 1);
        assert(all.take(i - 1) =~= all.take(i - 2).push(all[i - 2]));
    } else {
        assert(all.take(i - 2) =~= all);
    }
}

/// A feature is read back from its row.
proof fn lemma_feature_found<W>(l: LayerModel<W>, id: int, boxed: bool, i: int)
    requires
        0 <= i < l.items.features.len(),
        l.items.features[i].geometry matches Some(s) ==> is_counted(s),
    ensures
        ({
            let t = as_read(
                feature_plan(l, id, boxed),
                feature_columns(l.columns),
                Some(0int),
            );
            feature_in(t, t.rows[i], Some(1int)) == Ok::<Item<u64, Prop>, Failure>(
                read_features(l)[i],
            )
        }),
{
    let t = as_read(feature_plan(l, id, boxed), feature_columns(l.columns), Some(0int));
    let stored = feature_row(l, id, boxed, i);
    let row = t.rows[i];
    assert(row == stored.update(0, Stored::Int(i + 1)));
    assert(row[1] == stored[1]);
    if let Some(s) = l.items.features[i].geometry {
        law_geometry_is_read_evened(s, id, boxed);
    }
    let all = read_properties(l.columns, i);
    assert forall|k: int| 0 <= k < l.columns.len() implies row[k + 2] == stored_cell(
        (#[trigger] l.columns[k]).values[i],
    ) by {
        assert(stored[k + 2] == stored_cell(l.columns[k].values[i]));
    }
    lemma_properties_from(l, row, i, 2);
    assert(all.take(0) =~= Seq::empty());
    let columns = feature_columns(l.columns);
    assert(columns.len() >= 2);
    reveal_with_fuel(properties_from, 3);
    assert(properties_from(columns, row, Some(1int), Some(0int), 0, Seq::empty())
        == properties_from(columns, row, Some(1int), Some(0int), 2, Seq::empty()));
}

/// The features of a layer are read back from the rows of its table.
proof fn lemma_features_found<W>(l: LayerModel<W>, id: int, boxed: bool, i: int)
    requires
        0 <= i <= l.items.features.len(),
        forall|k: int|
            0 <= k < l.items.features.len() ==> ((#[trigger] l.items.features[k]).geometry matches Some(
                s,
            ) ==> is_counted(s)),
    ensures
        features_in(
            as_read(feature_plan(l, id, boxed), feature_columns(l.columns), Some(0int)),
            Some(1int),
            i,
            read_features(l).take(i),
        ) == Ok::<Seq<Item<u64, Prop>>, Failure>(read_features(l)),
    decreases l.items.features.len() - i,
{
    let all = read_features(l);
    if i < l.items.features.len() {
        assert(l.items.features[i].geometry matches Some(s) ==> is_counted(s));
        lemma_feature_found(l, id, boxed, i);
        lemma_features_found(l, id, boxed, i + 1);
        assert(all.take(i + 1) =~= all.take(i).push(all[i]));
    } else {
        assert(all.take(i) =~= all);
    }
}

// --- the table of systems ------------------------------------------------------------------

/// The system of a row.
pub open spec fn srs_of(row: (int, Seq<Stored>)) -> Srs {
    Srs {
        srs_id: row.0,
        organization: text_in(row.1, 2),
        organization_coordsys_id: int_in(row.1, 3, row.0),
        definition: text_in(row.1, 4),
    }
}

pub open spec fn all_srs(rows: Seq<(int, Seq<Stored>)>) -> Seq<Srs> {
    rows.map_values(|r: (int, Seq<Stored>)| srs_of(r))
}

proof fn lemma_system_rows_are_wide(wgs84_wkt2: Seq<char>, regs: Seq<Registration>, n: int)
    requires
        0 <= n <= regs.len(),
        are_distinct(regs),
    ensures
        forall|k: int|
            0 <= k < system_rows(wgs84_wkt2, regs, n).len() ==> (#[trigger] system_rows(
                wgs84_wkt2,
                regs,
                n,
            )[k]).1.len() == 7,
    decreases n,
{
    if n > 0 {
        lemma_system_rows_are_wide(wgs84_wkt2, regs, n - 1);
        law_system_rows_ascend(wgs84_wkt2, regs, n - 1);
        let before = system_rows(wgs84_wkt2, regs, n - 1);
        let row = registration_row(regs[n - 1]);
        lemma_place_splits(before, row.0, 0);
        let p = place_for(before, row.0, 0);
        let after = before.insert(p, row);
        assert forall|k: int| 0 <= k < after.len() implies (#[trigger] after[k]).1.len() == 7 by {
            if k < p {
                assert(after[k] == before[k]);
            } else if k > p {
                assert(after[k] == before[k - 1]);
            }
        }
    }
}

proof fn lemma_systems_found(rows: Seq<(int, Seq<Stored>)>, i: int)
    requires
        0 <= i <= rows.len(),
        forall|k: int| 0 <= k < rows.len() ==> (#[trigger] rows[k]).1.len() == 7,
    ensures
        systems_from(
            rows.map_values(|r: (int, Seq<Stored>)| numbered(r, Some(1int))),
            i,
            (1, 2, 3, 4),
            all_srs(rows).take(i),
        ) == all_srs(rows),
    decreases rows.len() - i,
{
    let read = rows.map_values(|r: (int, Seq<Stored>)| numbered(r, Some(1int)));
    let all = all_srs(rows);
    if i < rows.len() {
        let row = rows[i];
        assert(row.1.len() == 7);
        assert(read[i] == row.1.update(1, Stored::Int(row.0)));
        assert(read[i][2] == row.1[2] && read[i][3] == row.1[3] && read[i][4] == row.1[4]);
        lemma_systems_found(rows, i + 1);
        assert(all.take(i + 1) =~= all.take(i).push(all[i]));
    } else {
        assert(all.take(i) =~= all);
    }
}

/// The system of a number is found, as numbers are distinct.
proof fn lemma_system_place(rows: Seq<(int, Seq<Stored>)>, k: int, i: int)
    requires
        0 <= i <= k < rows.len(),
        ascends(rows),
    ensures
        system_place(all_srs(rows), rows[k].0, i) == Some(srs_of(rows[k])),
    decreases k - i,
{
    if i < k {
        assert(rows[i].0 < rows[k].0);
        lemma_system_place(rows, k, i + 1);
    }
}

/// Where a registration's row stands.
proof fn lemma_registration_stands(
    wgs84_wkt2: Seq<char>,
    regs: Seq<Registration>,
    n: int,
    j: int,
) -> (k: int)
    requires
        0 <= j < n <= regs.len(),
        are_distinct(regs),
    ensures
        0 <= k < system_rows(wgs84_wkt2, regs, n).len(),
        system_rows(wgs84_wkt2, regs, n)[k] == registration_row(regs[j]),
    decreases n,
{
    let before = system_rows(wgs84_wkt2, regs, n - 1);
    let row = registration_row(regs[n - 1]);
    law_system_rows_ascend(wgs84_wkt2, regs, n - 1);
    lemma_place_splits(before, row.0, 0);
    let p = place_for(before, row.0, 0);
    if j == n - 1 {
        p
    } else {
        let k = lemma_registration_stands(wgs84_wkt2, regs, n - 1, j);
        if k < p {
            k
        } else {
            k + 1
        }
    }
}

/// Where the row of WGS 84 stands.
proof fn lemma_wgs84_stands(wgs84_wkt2: Seq<char>, regs: Seq<Registration>, n: int) -> (k: int)
    requires
        0 <= n <= regs.len(),
        are_distinct(regs),
    ensures
        0 <= k < system_rows(wgs84_wkt2, regs, n).len(),
        system_rows(wgs84_wkt2, regs, n)[k] == default_systems(wgs84_wkt2)[2],
    decreases n,
{
    if n == 0 {
        2
    } else {
        let before = system_rows(wgs84_wkt2, regs, n - 1);
        let row = registration_row(regs[n - 1]);
        law_system_rows_ascend(wgs84_wkt2, regs, n - 1);
        lemma_place_splits(before, row.0, 0);
        let p = place_for(before, row.0, 0);
        let k = lemma_wgs84_stands(wgs84_wkt2, regs, n - 1);
        if k < p {
            k
        } else {
            k + 1
        }
    }
}

proof fn lemma_wgs84_row_is_wgs84()
    ensures
        system_of(Some("EPSG"@), Some(signed_decimal(4326)), Some(WGS84_WKT@), None)
            == System::Wgs84,
{
    assert(signed_decimal(4326) == "4326"@) by {
        reveal_strlit("4326");
        reveal_with_fuel(decimal, 5);
        assert(signed_decimal(4326) =~= "4326"@);
    }
    assert(lower_text("EPSG"@) == "epsg"@) by {
        reveal_strlit("EPSG");
        reveal_strlit("epsg");
        assert(lower_text("EPSG"@) =~= "epsg"@);
    }
    law_wgs84_spellings_collapse("EPSG"@, Some(WGS84_WKT@), None);
}

/// The number of WGS 84 leads to it.
proof fn lemma_wgs84_resolves(wgs84_wkt2: Seq<char>, regs: Seq<Registration>)
    requires
        are_distinct(regs),
    ensures
        resolved(4326, all_srs(system_rows(wgs84_wkt2, regs, regs.len() as int))) == Some(
            System::Wgs84,
        ),
{
    let n = regs.len() as int;
    let rows = system_rows(wgs84_wkt2, regs, n);
    law_system_rows_ascend(wgs84_wkt2, regs, n);
    let k = lemma_wgs84_stands(wgs84_wkt2, regs, n);
    lemma_system_place(rows, k, 0);
    lemma_wgs84_row_is_wgs84();
    reveal_strlit("undefined");
    assert(WGS84_WKT@.len() > 9) by {
        lemma_wgs84_wkt_is_long();
    }
}

/// A number that is registered leads to the system of its registration.
proof fn lemma_registration_resolves(wgs84_wkt2: Seq<char>, regs: Seq<Registration>, j: int)
    requires
        are_distinct(regs),
        0 <= j < regs.len(),
    ensures
        resolved(
            regs[j].srs_id,
            all_srs(system_rows(wgs84_wkt2, regs, regs.len() as int)),
        ) == Some(registered_system(regs[j])),
{
    let n = regs.len() as int;
    let rows = system_rows(wgs84_wkt2, regs, n);
    law_system_rows_ascend(wgs84_wkt2, regs, n);
    assert(regs[j].srs_id > 0);
    let k = lemma_registration_stands(wgs84_wkt2, regs, n, j);
    lemma_system_place(rows, k, 0);
    assert(srs_of(rows[k]).definition == regs[j].definition);
}

proof fn lemma_wgs84_wkt_is_long()
    ensures
        WGS84_WKT@.len() > 9,
{
    reveal_strlit(
        "GEOGCS[\"WGS 84\",DATUM[\"WGS_1984\",SPHEROID[\"WGS 84\",6378137,298.257223563,AUTHORITY[\"EPSG\",\"7030\"]],AUTHORITY[\"EPSG\",\"6326\"]],PRIMEM[\"Greenwich\",0,AUTHORITY[\"EPSG\",\"8901\"]],UNIT[\"degree\",0.0174532925199433,AUTHORITY[\"EPSG\",\"9122\"]],AUTHORITY[\"EPSG\",\"4326\"]]",
    );
}

// --- the other tables ----------------------------------------------------------------------

proof fn lemma_systems_columns_found()
    ensures
        place_of(systems_columns(), "srs_id"@, 0) == Some(1int),
        place_of(systems_columns(), "organization"@, 0) == Some(2int),
        place_of(systems_columns(), "organization_coordsys_id"@, 0) == Some(3int),
        place_of(systems_columns(), "definition"@, 0) == Some(4int),
{
    reveal_strlit("srs_name");
    reveal_strlit("srs_id");
    reveal_strlit("organization");
    reveal_strlit("organization_coordsys_id");
    reveal_strlit("definition");
    reveal_with_fuel(place_of, 6);
    let all = systems_columns();
    assert(all[0].len() == 8 && all[1].len() == 6 && all[2].len() == 12 && all[3].len() == 24
        && all[4].len() == 10);
}

proof fn lemma_contents_columns_found()
    ensures
        place_of(contents_columns(), "table_name"@, 0) == Some(0int),
        place_of(contents_columns(), "data_type"@, 0) == Some(1int),
{
    reveal_strlit("table_name");
    reveal_strlit("data_type");
    reveal_with_fuel(place_of, 3);
    let all = contents_columns();
    assert(all[0].len() == 10 && all[1].len() == 9);
}

proof fn lemma_geometry_columns_found()
    ensures
        place_of(geometry_columns(), "table_name"@, 0) == Some(0int),
        place_of(geometry_columns(), "column_name"@, 0) == Some(1int),
        place_of(geometry_columns(), "srs_id"@, 0) == Some(3int),
{
    reveal_strlit("table_name");
    reveal_strlit("column_name");
    reveal_strlit("geometry_type_name");
    reveal_strlit("srs_id");
    reveal_with_fuel(place_of, 5);
    let all = geometry_columns();
    assert(all[0].len() == 10 && all[1].len() == 11 && all[2].len() == 18 && all[3].len() == 6);
}

/// The names of layers.
pub open spec fn names_of<W>(layers: Seq<LayerModel<W>>) -> Seq<Seq<char>> {
    layers.map_values(|l: LayerModel<W>| l.name)
}

proof fn lemma_names_found<W>(layers: Seq<LayerModel<W>>, ids: Seq<int>, i: int)
    requires
        0 <= i <= layers.len(),
    ensures
        names_from(
            as_read(contents_plan(layers, ids), contents_columns(), None).rows,
            i,
            0,
            1,
            names_of(layers).take(i),
        ) == names_of(layers),
    decreases layers.len() - i,
{
    let t = as_read(contents_plan(layers, ids), contents_columns(), None);
    let all = names_of(layers);
    if i < layers.len() {
        assert(t.rows[i] == contents_row(layers[i], ids[i]));
        assert(t.rows[i][0] == Stored::Text(layers[i].name));
        assert(t.rows[i][1] == Stored::Text("features"@));
        lemma_names_found(layers, ids, i + 1);
        assert(all.take(i + 1) =~= all.take(i).push(all[i]));
    } else {
        assert(all.take(i) =~= all);
    }
}

/// The geometry columns of layers.
pub open spec fn columns_of<W>(layers: Seq<LayerModel<W>>, ids: Seq<int>) -> Seq<GeometryColumn> {
    Seq::new(
        layers.len(),
        |i: int| GeometryColumn { table: layers[i].name, column: "geom"@, srs_id: ids[i] },
    )
}

proof fn lemma_columns_found<W>(layers: Seq<LayerModel<W>>, ids: Seq<int>, i: int)
    requires
        0 <= i <= layers.len(),
    ensures
        geometry_columns_from(
            as_read(geometry_plan(layers, ids), geometry_columns(), None).rows,
            i,
            (0, 1, 3),
            columns_of(layers, ids).take(i),
        ) == columns_of(layers, ids),
    decreases layers.len() - i,
{
    let t = as_read(geometry_plan(layers, ids), geometry_columns(), None);
    let all = columns_of(layers, ids);
    if i < layers.len() {
        assert(t.rows[i] == geometry_row(layers[i].name, ids[i]));
        assert(t.rows[i][0] == Stored::Text(layers[i].name));
        assert(t.rows[i][1] == Stored::Text("geom"@));
        assert(t.rows[i][3] == Stored::Int(ids[i]));
        lemma_columns_found(layers, ids, i + 1);
        assert(all.take(i + 1) =~= all.take(i).push(all[i]));
    } else {
        assert(all.take(i) =~= all);
    }
}

proof fn lemma_column_found<W>(layers: Seq<LayerModel<W>>, ids: Seq<int>, k: int, i: int)
    requires
        are_named(layers),
        0 <= i <= k < layers.len(),
    ensures
        geometry_column(columns_of(layers, ids), layers[k].name, i) == Some(
            columns_of(layers, ids)[k],
        ),
    decreases k - i,
{
    if i < k {
        assert(layers[i].name != layers[k].name);
        lemma_column_found(layers, ids, k, i + 1);
    }
}

proof fn lemma_own_tables_found<W>(
    tables: Seq<Relation>,
    layers: Seq<LayerModel<W>>,
    a: Assignment,
    wgs84_wkt2: Seq<char>,
    boxed: bool,
)
    requires
        are_tables_of(tables, layers, a, wgs84_wkt2, boxed),
    ensures
        table_named(tables, "gpkg_spatial_ref_sys"@) == Some(tables[0]),
        table_named(tables, "gpkg_contents"@) == Some(tables[1]),
        table_named(tables, "gpkg_geometry_columns"@) == Some(tables[2]),
{
    reveal_strlit("gpkg_spatial_ref_sys");
    reveal_strlit("gpkg_contents");
    reveal_strlit("gpkg_geometry_columns");
    reveal_with_fuel(table_place, 4);
    assert(tables[0].name.len() == 20 && tables[1].name.len() == 13 && tables[2].name.len() == 21);
}

proof fn lemma_layer_table_found<W>(
    tables: Seq<Relation>,
    layers: Seq<LayerModel<W>>,
    a: Assignment,
    wgs84_wkt2: Seq<char>,
    boxed: bool,
    k: int,
    i: int,
)
    requires
        are_tables_of(tables, layers, a, wgs84_wkt2, boxed),
        are_named(layers),
        0 <= k < layers.len(),
        0 <= i <= 4 + k,
    ensures
        table_place(tables, layers[k].name, i) == Some(4 + k),
    decreases 4 + k - i,
{
    assert(!is_reserved(layers[k].name));
    assert(tables[4 + k].name == layers[k].name);
    if i < 4 + k {
        assert(tables[i].name != layers[k].name) by {
            if i >= 4 {
                assert(tables[4 + (i - 4)].name == layers[i - 4].name);
                assert(layers[i - 4].name != layers[k].name);
            }
        }
        lemma_layer_table_found(tables, layers, a, wgs84_wkt2, boxed, k, i + 1);
    }
}

// --- layers --------------------------------------------------------------------------------

/// The layers as they are read.
pub open spec fn read_layers<W>(
    layers: Seq<LayerModel<W>>,
    ids: Seq<int>,
    systems: Seq<Srs>,
) -> Seq<(Seq<char>, Items<u64, Prop>)> {
    Seq::new(
        layers.len(),
        |i: int|
            (
                layers[i].name,
                Items { features: read_features(layers[i]), crs: resolved(ids[i], systems) },
            ),
    )
}

/// Whether the counts in the geometries of layers fit their four bytes.
pub open spec fn have_counts<W>(layers: Seq<LayerModel<W>>) -> bool {
    forall|i: int, k: int|
        0 <= i < layers.len() && 0 <= k < layers[i].items.features.len() ==> ((
        #[trigger] layers[i].items.features[k]).geometry matches Some(s) ==> is_counted(s))
}

proof fn lemma_layers_found<W>(
    tables: Seq<Relation>,
    layers: Seq<LayerModel<W>>,
    a: Assignment,
    wgs84_wkt2: Seq<char>,
    boxed: bool,
    systems: Seq<Srs>,
    i: int,
)
    requires
        are_tables_of(tables, layers, a, wgs84_wkt2, boxed),
        are_named(layers),
        have_counts(layers),
        0 <= i <= layers.len(),
    ensures
        layers_from(
            tables,
            names_of(layers),
            columns_of(layers, a.per_layer),
            systems,
            i,
            read_layers(layers, a.per_layer, systems).take(i),
        ) == Ok::<Seq<(Seq<char>, Items<u64, Prop>)>, Failure>(
            read_layers(layers, a.per_layer, systems),
        ),
    decreases layers.len() - i,
{
    let all = read_layers(layers, a.per_layer, systems);
    if i < layers.len() {
        let l = layers[i];
        lemma_layer_table_found(tables, layers, a, wgs84_wkt2, boxed, i, 0);
        assert(tables[4 + i] == as_read(
            feature_plan(l, a.per_layer[i], boxed),
            feature_columns(l.columns),
            Some(0int),
        ));
        lemma_column_found(layers, a.per_layer, i, 0);
        lemma_geom_place(l.columns);
        assert forall|k: int| 0 <= k < l.items.features.len() implies ((
        #[trigger] l.items.features[k]).geometry matches Some(s) ==> is_counted(s)) by {
            assert(layers[i].items.features[k] == l.items.features[k]);
        }
        lemma_features_found(l, a.per_layer[i], boxed, 0);
        assert(read_features(l).take(0) =~= Seq::empty());
        lemma_layers_found(tables, layers, a, wgs84_wkt2, boxed, systems, i + 1);
        assert(all.take(i + 1) =~= all.take(i).push(all[i]));
    } else {
        assert(all.take(i) =~= all);
    }
}

/// What the tables that every GeoPackage has say.
proof fn lemma_tables_are_read<W>(
    tables: Seq<Relation>,
    layers: Seq<LayerModel<W>>,
    a: Assignment,
    wgs84_wkt2: Seq<char>,
    boxed: bool,
)
    requires
        are_tables_of(tables, layers, a, wgs84_wkt2, boxed),
        are_distinct(a.registrations),
    ensures
        layer_names(tables) == Ok::<Seq<Seq<char>>, Failure>(names_of(layers)),
        geometry_columns_of(tables) == Ok::<Seq<GeometryColumn>, Failure>(
            columns_of(layers, a.per_layer),
        ),
        systems_of(tables) == Ok::<Seq<Srs>, Failure>(
            all_srs(system_rows(wgs84_wkt2, a.registrations, a.registrations.len() as int)),
        ),
{
    let rows = system_rows(wgs84_wkt2, a.registrations, a.registrations.len() as int);
    lemma_own_tables_found(tables, layers, a, wgs84_wkt2, boxed);
    lemma_contents_columns_found();
    lemma_names_found(layers, a.per_layer, 0);
    assert(names_of(layers).take(0) =~= Seq::empty());
    lemma_geometry_columns_found();
    lemma_columns_found(layers, a.per_layer, 0);
    assert(columns_of(layers, a.per_layer).take(0) =~= Seq::empty());
    lemma_systems_columns_found();
    lemma_system_rows_are_wide(wgs84_wkt2, a.registrations, a.registrations.len() as int);
    lemma_systems_found(rows, 0);
    assert(all_srs(rows).take(0) =~= Seq::empty());
}

/// The layers of a GeoPackage that was written are read back from its tables:
/// their names, geometries and properties, and the system of each one, as it is
/// registered: where an earlier layer has the same code of the same organization, as
/// that one's is. Of a truth value the number is read. Not read back are layers whose
/// names are reserved or not distinct.
pub proof fn law_layers_read_back<W>(
    tables: Seq<Relation>,
    layers: Seq<LayerModel<W>>,
    crs: Seq<Option<System>>,
    wkt2s: Seq<Option<Seq<char>>>,
    wgs84_wkt2: Seq<char>,
    boxed: bool,
)
    requires
        crs.len() == layers.len(),
        are_tables_of(
            tables,
            layers,
            assigned(crs, wkt2s, layers.len() as int),
            wgs84_wkt2,
            boxed,
        ),
        are_named(layers),
        have_counts(layers),
    ensures
        ({
            let a = assigned(crs, wkt2s, layers.len() as int);
            let read = layers_of(tables);
            &&& read is Ok
            &&& read->Ok_0.len() == layers.len()
            &&& forall|i: int|
                0 <= i < layers.len() ==> {
                    &&& (#[trigger] read->Ok_0[i]).0 == layers[i].name
                    &&& read->Ok_0[i].1.features == read_features(layers[i])
                    &&& is_read_system(read->Ok_0[i].1.crs, crs, a.per_layer, i)
                }
        }),
{
    let n = layers.len() as int;
    let a = assigned(crs, wkt2s, n);
    let rows = system_rows(wgs84_wkt2, a.registrations, a.registrations.len() as int);
    let systems = all_srs(rows);
    law_registered_numbers_are_distinct(crs, wkt2s, n);
    lemma_tables_are_read(tables, layers, a, wgs84_wkt2, boxed);
    lemma_layers_found(tables, layers, a, wgs84_wkt2, boxed, systems, 0);
    let all = read_layers(layers, a.per_layer, systems);
    assert(all.take(0) =~= Seq::empty());
    assert forall|i: int| 0 <= i < n implies is_read_system(
        (#[trigger] all[i]).1.crs,
        crs,
        a.per_layer,
        i,
    ) by {
        lemma_system_is_read(crs, wkt2s, wgs84_wkt2, i);
    }
}

/// A layer's number leads to the system that stands under it.
proof fn lemma_system_is_read(
    crs: Seq<Option<System>>,
    wkt2s: Seq<Option<Seq<char>>>,
    wgs84_wkt2: Seq<char>,
    i: int,
)
    requires
        0 <= i < crs.len(),
    ensures
        ({
            let a = assigned(crs, wkt2s, crs.len() as int);
            let rows = system_rows(wgs84_wkt2, a.registrations, a.registrations.len() as int);
            is_read_system(resolved(a.per_layer[i], all_srs(rows)), crs, a.per_layer, i)
        }),
{
    let n = crs.len() as int;
    let a = assigned(crs, wkt2s, n);
    let number = a.per_layer[i];
    let j = first_with(a.per_layer, number, 0);
    law_registered_numbers_are_distinct(crs, wkt2s, n);
    law_layer_is_registered(crs, wkt2s, n, i);
    law_layer_is_registered(crs, wkt2s, n, j);
    lemma_wgs84_resolves(wgs84_wkt2, a.registrations);
    if let Some(r) = to_register(crs[i]) {
        let q = to_register(crs[j])->0;
        let stands = registration_of(q, wkt2s[j], number);
        let k = choose|k: int| 0 <= k < a.registrations.len() && a.registrations[k] == stands;
        lemma_registration_resolves(wgs84_wkt2, a.registrations, k);
        assert(registered_system(stands) == registered_system(registration_of(q, None, number)));
    } else if let Some(q) = to_register(crs[j]) {
        let stands = registration_of(
            to_register(crs[first_with(a.per_layer, a.per_layer[j], 0)])->0,
            wkt2s[first_with(a.per_layer, a.per_layer[j], 0)],
            number,
        );
        let k = choose|k: int| 0 <= k < a.registrations.len() && a.registrations[k] == stands;
        assert(a.registrations[k].srs_id > 0 && a.registrations[k].srs_id != 4326);
    }
}

// --- the list of layers --------------------------------------------------------------------

/// The names of layers that were read.
pub open spec fn names_read(layers: Seq<(Seq<char>, Items<u64, Prop>)>) -> Seq<Seq<char>> {
    layers.map_values(|l: (Seq<char>, Items<u64, Prop>)| l.0)
}

/// The tables that every GeoPackage has have no column of geometries.
proof fn lemma_no_geometries()
    ensures
        place_of(systems_columns(), "geom"@, 0) is None,
        place_of(contents_columns(), "geom"@, 0) is None,
        place_of(geometry_columns(), "geom"@, 0) is None,
        place_of(extensions_columns(), "geom"@, 0) is None,
{
    reveal_strlit("geom");
    reveal_strlit("srs_name");
    reveal_strlit("srs_id");
    reveal_strlit("organization");
    reveal_strlit("organization_coordsys_id");
    reveal_strlit("definition");
    reveal_strlit("description");
    reveal_strlit("definition_12_063");
    reveal_strlit("table_name");
    reveal_strlit("data_type");
    reveal_strlit("identifier");
    reveal_strlit("last_change");
    reveal_strlit("min_x");
    reveal_strlit("min_y");
    reveal_strlit("max_x");
    reveal_strlit("max_y");
    reveal_strlit("column_name");
    reveal_strlit("geometry_type_name");
    reveal_strlit("z");
    reveal_strlit("m");
    reveal_strlit("extension_name");
    reveal_strlit("scope");
    let a = systems_columns();
    let b = contents_columns();
    let c = geometry_columns();
    let d = extensions_columns();
    assert forall|i: int| 0 <= i < a.len() implies #[trigger] a[i] != "geom"@ by {
        assert(a[i].len() != 4);
    }
    assert forall|i: int| 0 <= i < b.len() implies #[trigger] b[i] != "geom"@ by {
        assert(b[i].len() != 4);
    }
    assert forall|i: int| 0 <= i < c.len() implies #[trigger] c[i] != "geom"@ by {
        assert(c[i].len() != 4);
    }
    assert forall|i: int| 0 <= i < d.len() implies #[trigger] d[i] != "geom"@ by {
        assert(d[i].len() != 4);
    }
    lemma_no_place(a, "geom"@, 0);
    lemma_no_place(b, "geom"@, 0);
    lemma_no_place(c, "geom"@, 0);
    lemma_no_place(d, "geom"@, 0);
}

proof fn lemma_no_place(texts: Seq<Seq<char>>, text: Seq<char>, i: int)
    requires
        0 <= i,
        forall|k: int| 0 <= k < texts.len() ==> #[trigger] texts[k] != text,
    ensures
        place_of(texts, text, i) is None,
    decreases texts.len() - i,
{
    if i < texts.len() {
        lemma_no_place(texts, text, i + 1);
    }
}

/// The rows of a table without geometries are read.
proof fn lemma_rows_are_read(t: Relation, i: int, so_far: Seq<Item<u64, Prop>>)
    requires
        0 <= i,
    ensures
        features_in(t, None, i, so_far) is Ok,
    decreases t.rows.len() - i,
{
    if i < t.rows.len() {
        lemma_rows_are_read(t, i + 1, so_far.push(feature_in(t, t.rows[i], None)->Ok_0));
    }
}

/// The first table of a name.
proof fn lemma_table_place(tables: Seq<Relation>, name: Seq<char>, i: int, k: int)
    requires
        0 <= i <= k < tables.len(),
        tables[k].name == name,
    ensures
        table_place(tables, name, i) is Some,
        i <= table_place(tables, name, i)->0 <= k,
        tables[table_place(tables, name, i)->0].name == name,
    decreases k - i,
{
    if tables[i].name != name {
        lemma_table_place(tables, name, i + 1, k);
    }
}

proof fn lemma_some_column<W>(layers: Seq<LayerModel<W>>, ids: Seq<int>, k: int, i: int)
    requires
        0 <= i <= k < layers.len(),
    ensures
        geometry_column(columns_of(layers, ids), layers[k].name, i) matches Some(g) && g.column
            == "geom"@,
    decreases k - i,
{
    let all = columns_of(layers, ids);
    if all[i].table != layers[k].name {
        lemma_some_column(layers, ids, k, i + 1);
    }
}

/// The first table of a layer's name is read.
proof fn lemma_layer_is_read<W>(
    tables: Seq<Relation>,
    layers: Seq<LayerModel<W>>,
    a: Assignment,
    wgs84_wkt2: Seq<char>,
    boxed: bool,
    systems: Seq<Srs>,
    i: int,
)
    requires
        are_tables_of(tables, layers, a, wgs84_wkt2, boxed),
        have_counts(layers),
        0 <= i < layers.len(),
    ensures
        table_named(tables, layers[i].name) matches Some(t) && layer_in(
            t,
            geometry_column(columns_of(layers, a.per_layer), layers[i].name, 0),
            systems,
        ) is Ok,
{
    let name = layers[i].name;
    assert(tables[4 + i].name == name);
    lemma_table_place(tables, name, 0, 4 + i);
    lemma_some_column(layers, a.per_layer, i, 0);
    let q = table_place(tables, name, 0)->0;
    let t = tables[q];
    if q < 4 {
        lemma_no_geometries();
        assert(q == 0 || q == 1 || q == 2 || q == 3);
        lemma_rows_are_read(t, 0, Seq::empty());
    } else {
        let l = layers[q - 4];
        assert(tables[4 + (q - 4)] == as_read(
            feature_plan(l, a.per_layer[q - 4], boxed),
            feature_columns(l.columns),
            Some(0int),
        ));
        lemma_geom_place(l.columns);
        assert forall|k: int| 0 <= k < l.items.features.len() implies ((
        #[trigger] l.items.features[k]).geometry matches Some(s) ==> is_counted(s)) by {
            assert(layers[q - 4].items.features[k] == l.items.features[k]);
        }
        lemma_features_found(l, a.per_layer[q - 4], boxed, 0);
        assert(read_features(l).take(0) =~= Seq::empty());
    }
}

proof fn lemma_layers_listed<W>(
    tables: Seq<Relation>,
    layers: Seq<LayerModel<W>>,
    a: Assignment,
    wgs84_wkt2: Seq<char>,
    boxed: bool,
    systems: Seq<Srs>,
    i: int,
    so_far: Seq<(Seq<char>, Items<u64, Prop>)>,
)
    requires
        are_tables_of(tables, layers, a, wgs84_wkt2, boxed),
        have_counts(layers),
        0 <= i <= layers.len(),
        names_read(so_far) == names_of(layers).take(i),
    ensures
        layers_from(
            tables,
            names_of(layers),
            columns_of(layers, a.per_layer),
            systems,
            i,
            so_far,
        ) matches Ok(all) && names_read(all) == names_of(layers),
    decreases layers.len() - i,
{
    let names = names_of(layers);
    if i < layers.len() {
        lemma_layer_is_read(tables, layers, a, wgs84_wkt2, boxed, systems, i);
        let c = layer_in(
            table_named(tables, names[i])->0,
            geometry_column(columns_of(layers, a.per_layer), names[i], 0),
            systems,
        )->Ok_0;
        let longer = so_far.push((names[i], c));
        assert(names_read(longer) =~= names_read(so_far).push(names[i]));
        assert(names.take(i + 1) =~= names.take(i).push(names[i]));
        lemma_layers_listed(tables, layers, a, wgs84_wkt2, boxed, systems, i + 1, longer);
    } else {
        assert(names.take(i) =~= names);
    }
}

/// Whatever geometries and names the layers of a GeoPackage that was written have,
/// reading it succeeds, and lists the layers by name, in their order.
pub proof fn law_layers_are_listed<W>(
    tables: Seq<Relation>,
    layers: Seq<LayerModel<W>>,
    crs: Seq<Option<System>>,
    wkt2s: Seq<Option<Seq<char>>>,
    wgs84_wkt2: Seq<char>,
    boxed: bool,
)
    requires
        are_tables_of(
            tables,
            layers,
            assigned(crs, wkt2s, layers.len() as int),
            wgs84_wkt2,
            boxed,
        ),
        have_counts(layers),
    ensures
        layers_of(tables) matches Ok(all) && names_read(all) == names_of(layers),
{
    let n = layers.len() as int;
    let a = assigned(crs, wkt2s, n);
    let systems = all_srs(
        system_rows(wgs84_wkt2, a.registrations, a.registrations.len() as int),
    );
    law_registered_numbers_are_distinct(crs, wkt2s, n);
    lemma_tables_are_read(tables, layers, a, wgs84_wkt2, boxed);
    let none = Seq::<(Seq<char>, Items<u64, Prop>)>::empty();
    assert(names_read(none) =~= names_of(layers).take(0));
    lemma_layers_listed(tables, layers, a, wgs84_wkt2, boxed, systems, 0, none);
}

// --- after new layers are put in -----------------------------------------------------------

/// The layers that a GeoPackage has after new ones are put in: those whose names no new
/// one has, in their order, and then the new ones.
pub open spec fn after_upsert<P>(existing: Seq<Layer<P>>, new: Seq<Layer<P>>) -> Seq<Layer<P>> {
    kept(existing, new, new.len() as int, 0) + new
}

proof fn lemma_after_upsert_named<P: View>(existing: Seq<Layer<P>>, new: Seq<Layer<P>>)
    requires
        are_named(layer_models(existing)),
        are_named(layer_models(new)),
        have_counts(layer_models(existing)),
        have_counts(layer_models(new)),
    ensures
        are_apart(new),
        are_named(layer_models(after_upsert(existing, new))),
        have_counts(layer_models(after_upsert(existing, new))),
{
    let n = new.len() as int;
    let old = kept(existing, new, n, 0);
    let all = after_upsert(existing, new);
    let models = layer_models(all);
    assert forall|i: int, j: int| 0 <= i < j < existing.len() implies (#[trigger] existing[i]).name@
        != (#[trigger] existing[j]).name@ by {
        assert(layer_models(existing)[i].name != layer_models(existing)[j].name);
    }
    assert forall|i: int, j: int| 0 <= i < j < new.len() implies (#[trigger] new[i]).name@ != (
    #[trigger] new[j]).name@ by {
        assert(layer_models(new)[i].name != layer_models(new)[j].name);
    }
    lemma_kept_is_apart(existing, new, n, 0);
    assert forall|i: int| 0 <= i < models.len() implies !is_reserved((#[trigger] models[i]).name)
        && (forall|k: int|
        0 <= k < models[i].items.features.len() ==> ((
        #[trigger] models[i].items.features[k]).geometry matches Some(s) ==> is_counted(s))) by {
        if i < old.len() {
            lemma_kept_is_of(existing, new, n, 0, i);
            let m = choose|m: int| 0 + i <= m < existing.len() && #[trigger] existing[m] == old[i];
            assert(models[i] == layer_models(existing)[m]);
        } else {
            assert(models[i] == layer_models(new)[i - old.len()]);
        }
    }
    assert forall|i: int, j: int| 0 <= i < j < models.len() implies (#[trigger] models[i]).name != (
    #[trigger] models[j]).name by {
        if j < old.len() {
            assert(old[i].name@ != old[j].name@);
        } else if i < old.len() {
            lemma_kept_is_of(existing, new, n, 0, i);
            assert(new[j - old.len()].name@ == models[j].name);
        } else {
            assert(new[i - old.len()].name@ != new[j - old.len()].name@);
        }
    }
}

/// After new layers are put in and everything is written, what is read are the layers
/// that were there and whose names no new one has, in their order, and then the new
/// ones in theirs, each with its geometries and properties. A layer of the same name is
/// replaced, never doubled.
pub proof fn law_upserted_layers_read_back<P: View>(
    tables: Seq<Relation>,
    existing: Seq<Layer<P>>,
    new: Seq<Layer<P>>,
    wkt2s: Seq<Option<Seq<char>>>,
    wgs84_wkt2: Seq<char>,
    boxed: bool,
)
    requires
        are_named(layer_models(existing)),
        are_named(layer_models(new)),
        have_counts(layer_models(existing)),
        have_counts(layer_models(new)),
        ({
            let written = upserted(existing, new, new.len() as int);
            are_tables_of(
                tables,
                layer_models(written),
                assigned(systems_view(written), wkt2s, written.len() as int),
                wgs84_wkt2,
                boxed,
            )
        }),
    ensures
        ({
            let all = after_upsert(existing, new);
            let a = assigned(systems_view(all), wkt2s, all.len() as int);
            let read = layers_of(tables);
            &&& upserted(existing, new, new.len() as int) == all
            &&& read is Ok
            &&& read->Ok_0.len() == all.len()
            &&& forall|i: int|
                0 <= i < all.len() ==> {
                    &&& (#[trigger] read->Ok_0[i]).0 == all[i].name@
                    &&& read->Ok_0[i].1.features == read_features(layer_models(all)[i])
                    &&& is_read_system(read->Ok_0[i].1.crs, systems_view(all), a.per_layer, i)
                }
        }),
{
    let all = after_upsert(existing, new);
    lemma_after_upsert_named(existing, new);
    law_upsert_keeps_the_order(existing, new, new.len() as int);
    assert(new.take(new.len() as int) =~= new);
    assert(layer_models(all).len() == all.len());
    law_layers_read_back(
        tables,
        layer_models(all),
        systems_view(all),
        wkt2s,
        wgs84_wkt2,
        boxed,
    );
    let read = layers_of(tables);
    assert forall|i: int| 0 <= i < all.len() implies (#[trigger] read->Ok_0[i]).0 == all[i].name@ by {
        assert(layer_models(all)[i].name == all[i].name@);
    }
}

/// After new layers of different names are put in and everything is written, reading
/// succeeds, whatever the geometries and the names, and lists the layers that were there
/// and whose names no new one has, in their order, and then the new ones in theirs. A
/// layer of the same name is replaced, never doubled.
pub proof fn law_upserted_layers_are_listed<P: View>(
    tables: Seq<Relation>,
    existing: Seq<Layer<P>>,
    new: Seq<Layer<P>>,
    wkt2s: Seq<Option<Seq<char>>>,
    wgs84_wkt2: Seq<char>,
    boxed: bool,
)
    requires
        are_apart(new),
        have_counts(layer_models(existing)),
        have_counts(layer_models(new)),
        ({
            let written = upserted(existing, new, new.len() as int);
            are_tables_of(
                tables,
                layer_models(written),
                assigned(systems_view(written), wkt2s, written.len() as int),
                wgs84_wkt2,
                boxed,
            )
        }),
    ensures
        layers_of(tables) matches Ok(all) && names_read(all) == names_of(
            layer_models(kept(existing, new, new.len() as int, 0)),
        ) + names_of(layer_models(new)),
{
    let n = new.len() as int;
    let old = kept(existing, new, n, 0);
    let all = after_upsert(existing, new);
    let models = layer_models(all);
    law_upsert_keeps_the_order(existing, new, n);
    assert(new.take(n) =~= new);
    assert(models.len() == all.len());
    assert forall|i: int, k: int| 0 <= i < models.len() && 0 <= k
        < models[i].items.features.len() implies ((
    #[trigger] models[i].items.features[k]).geometry matches Some(s) ==> is_counted(s)) by {
        if i < old.len() {
            lemma_kept_is_of(existing, new, n, 0, i);
            let m = choose|m: int| 0 + i <= m < existing.len() && #[trigger] existing[m] == old[i];
            assert(models[i] == layer_models(existing)[m]);
        } else {
            assert(models[i] == layer_models(new)[i - old.len()]);
        }
    }
    law_layers_are_listed(tables, models, systems_view(all), wkt2s, wgs84_wkt2, boxed);
    assert(names_of(models) =~= names_of(layer_models(old)) + names_of(layer_models(new)));
}

/// The features of a layer are read back with their own geometries, where every line and
/// list of rings in them has one dimensionality.
pub proof fn law_uniform_geometries_read_back<W>(l: LayerModel<W>, i: int)
    requires
        0 <= i < l.items.features.len(),
        l.items.features[i].geometry matches Some(s) ==> uniform(s),
    ensures
        read_features(l)[i].geometry == l.items.features[i].geometry,
        l.items.features[i].geometry matches Some(s) ==> is_counted(s),
{
    if let Some(s) = l.items.features[i].geometry {
        law_uniform_stays(s);
    }
}

/// A system with an authority, a code that is a positive numeral and a WKT
/// definition comes back with them where it is the one registered, whatever number its
/// layer has. PROJJSON is not recorded.
pub proof fn law_coded_system_is_restored(r: Record, code: int, number: int)
    requires
        0 < code <= i64::MAX,
        r.authority is Some,
        r.code == Some(signed_decimal(code)),
        r.wkt matches Some(w) && w.len() > 0 && w != "undefined"@,
        !is_wgs84(r.authority, r.code),
    ensures
        read_system(Some(System::Named(r)), number) == Some(
            System::Named(
                Record { authority: r.authority, code: r.code, wkt: r.wkt, projjson: None },
            ),
        ),
{
    law_numeral_spells_its_number(code);
    if code == 4326 {
        reveal_strlit("4326");
        reveal_with_fuel(decimal, 5);
        assert(signed_decimal(4326) =~= "4326"@);
    }
}

/// The definition of a system without a usable code comes back, under the number
/// that its layer has.
pub proof fn law_definition_is_restored(r: Record, number: int)
    requires
        numeric_code(r) is None,
        r.wkt matches Some(w) && w.len() > 0 && w != "undefined"@,
    ensures
        read_system(Some(System::Named(r)), number) == Some(
            system_of(
                Some(
                    match r.authority {
                        Some(a) => a,
                        None => "NONE"@,
                    },
                ),
                Some(signed_decimal(number)),
                r.wkt,
                None,
            ),
        ),
{
}

} // verus!
