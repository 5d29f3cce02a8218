//! The columns that a table of features has.
//!
//! A property that occurs in any feature is a column. A column's type is the
//! narrowest that holds every value of it: integers widen to doubles, and
//! whatever else is mixed becomes text. A feature without the property, or with
//! null, has an empty cell.
use vstd::prelude::*;

use crate::feature::{properties_view, Feature};
use crate::json::value::{first_member, json_text, Json};
use crate::json::JsonValue;
use crate::number::{integer_of, parse_integer};
use crate::text::same_text;

verus! {

/// The type of a column.
#[derive(Debug, Clone, Copy, PartialEq, Eq, Structural)]
pub enum ColumnType {
    Bool,
    Int64,
    Double,
    String,
}

/// A cell of a column. A double is its decimal text or its bit pattern,
/// depending on the format.
#[derive(Debug, PartialEq)]
pub enum Cell<D> {
    Null,
    Bool(bool),
    Int(i64),
    Double(D),
    Str(String),
}

/// A column, with one cell for each feature.
#[derive(Debug, PartialEq)]
pub struct Column<D> {
    pub name: String,
    pub ty: ColumnType,
    pub values: Vec<Cell<D>>,
}

/// The mathematical form of a cell.
pub enum Datum<W> {
    Null,
    Bool(bool),
    Int(int),
    Double(W),
    Str(Seq<char>),
}

/// The mathematical form of a column.
pub struct Field<W> {
    pub name: Seq<char>,
    pub ty: ColumnType,
    pub values: Seq<Datum<W>>,
}

impl<D: View> View for Cell<D> {
    type V = Datum<D::V>;

    open spec fn view(&self) -> Datum<D::V> {
        match self {
            Cell::Null => Datum::Null,
            Cell::Bool(b) => Datum::Bool(*b),
            Cell::Int(n) => Datum::Int(*n as int),
            Cell::Double(d) => Datum::Double(d@),
            Cell::Str(s) => Datum::Str(s@),
        }
    }
}

pub open spec fn cells_view<D: View>(cells: Seq<Cell<D>>) -> Seq<Datum<D::V>> {
    cells.map_values(|c: Cell<D>| c@)
}

impl<D: View> View for Column<D> {
    type V = Field<D::V>;

    open spec fn view(&self) -> Field<D::V> {
        Field { name: self.name@, ty: self.ty, values: cells_view(self.values@) }
    }
}

pub open spec fn columns_view<D: View>(columns: Seq<Column<D>>) -> Seq<Field<D::V>> {
    columns.map_values(|c: Column<D>| c@)
}

/// Whether a cell can stand in a column of a type.
pub open spec fn fits<W>(d: Datum<W>, ty: ColumnType) -> bool {
    match d {
        Datum::Null => true,
        Datum::Bool(_) => ty == ColumnType::Bool,
        Datum::Int(_) => ty == ColumnType::Int64,
        Datum::Double(_) => ty == ColumnType::Double,
        Datum::Str(_) => ty == ColumnType::String,
    }
}

/// Whether a column has so many cells, and each is of the column's type.
pub open spec fn is_column<W>(f: Field<W>, rows: nat) -> bool {
    &&& f.values.len() == rows
    &&& forall|i: int| 0 <= i < rows ==> fits(#[trigger] f.values[i], f.ty)
}

// --- inference -----------------------------------------------------------------------

/// The type of a value; none of null.
pub open spec fn type_of(v: Json) -> Option<ColumnType> {
    match v {
        Json::Null => None,
        Json::Bool(_) => Some(ColumnType::Bool),
        Json::Number { text, is_int } => if is_int && integer_of(text) is Some {
            Some(ColumnType::Int64)
        } else {
            Some(ColumnType::Double)
        },
        _ => Some(ColumnType::String),
    }
}

/// The narrowest type that holds values of two types.
pub open spec fn widened(a: Option<ColumnType>, b: Option<ColumnType>) -> Option<ColumnType> {
    match (a, b) {
        (None, t) => t,
        (t, None) => t,
        (Some(x), Some(y)) => if x == y {
            Some(x)
        } else if (x == ColumnType::Int64 && y == ColumnType::Double) || (x == ColumnType::Double
            && y == ColumnType::Int64) {
            Some(ColumnType::Double)
        } else {
            Some(ColumnType::String)
        },
    }
}

/// The type of a property of a row; none where the row lacks it.
pub open spec fn type_in(row: Seq<(Seq<char>, Json)>, name: Seq<char>) -> Option<ColumnType> {
    match first_member(row, name) {
        Some(v) => type_of(v),
        None => None,
    }
}

/// The narrowest type that holds a property of the first `n` rows.
pub open spec fn type_among(rows: Seq<Seq<(Seq<char>, Json)>>, name: Seq<char>, n: int) -> Option<
    ColumnType,
>
    decreases n,
{
    if n <= 0 {
        None
    } else {
        widened(type_among(rows, name, n - 1), type_in(rows[n - 1], name))
    }
}

/// The type of a column: that of its values, and text where there are none.
pub open spec fn column_type(rows: Seq<Seq<(Seq<char>, Json)>>, name: Seq<char>) -> ColumnType {
    match type_among(rows, name, rows.len() as int) {
        Some(t) => t,
        None => ColumnType::String,
    }
}

/// A value as text: a string as it is, anything else as JSON.
pub open spec fn value_text(v: Json) -> Seq<char> {
    match v {
        Json::String(s) => s,
        _ => json_text(v),
    }
}

/// The cell of a value in a column of a type.
pub open spec fn cell_of(v: Option<Json>, ty: ColumnType) -> Datum<Seq<char>> {
    match v {
        None => Datum::Null,
        Some(v) => match (v, ty) {
            (Json::Null, _) => Datum::Null,
            (Json::Bool(b), ColumnType::Bool) => Datum::Bool(b),
            (Json::Number { text, is_int }, ColumnType::Int64) => match integer_of(text) {
                Some(n) => Datum::Int(n),
                None => Datum::Null,
            },
            (Json::Number { text, is_int }, ColumnType::Double) => Datum::Double(text),
            (_, ColumnType::String) => Datum::Str(value_text(v)),
            _ => Datum::Null,
        },
    }
}

/// The cells of a column.
pub open spec fn column_cells(
    rows: Seq<Seq<(Seq<char>, Json)>>,
    name: Seq<char>,
    ty: ColumnType,
) -> Seq<Datum<Seq<char>>> {
    Seq::new(rows.len(), |i: int| cell_of(first_member(rows[i], name), ty))
}

/// Names with those of the first `n` properties of a row added that are new.
pub open spec fn names_with(names: Seq<Seq<char>>, row: Seq<(Seq<char>, Json)>, n: int) -> Seq<
    Seq<char>,
>
    decreases n,
{
    if n <= 0 {
        names
    } else {
        let before = names_with(names, row, n - 1);
        if before.contains(row[n - 1].0) {
            before
        } else {
            before.push(row[n - 1].0)
        }
    }
}

/// The names of the properties of the first `n` rows, in the order in which they
/// first occur.
pub open spec fn names_among(rows: Seq<Seq<(Seq<char>, Json)>>, n: int) -> Seq<Seq<char>>
    decreases n,
{
    if n <= 0 {
        Seq::empty()
    } else {
        names_with(names_among(rows, n - 1), rows[n - 1], rows[n - 1].len() as int)
    }
}

/// The columns of a table.
pub open spec fn inferred(rows: Seq<Seq<(Seq<char>, Json)>>) -> Seq<Field<Seq<char>>> {
    let names = names_among(rows, rows.len() as int);
    Seq::new(
        names.len(),
        |i: int|
            Field {
                name: names[i],
                ty: column_type(rows, names[i]),
                values: column_cells(rows, names[i], column_type(rows, names[i])),
            },
    )
}

/// The properties of the features.
pub open spec fn rows_of<N>(features: Seq<Feature<N, JsonValue>>) -> Seq<Seq<(Seq<char>, Json)>> {
    features.map_values(|f: Feature<N, JsonValue>| properties_view(f.properties@))
}

pub open spec fn names_view(names: Seq<String>) -> Seq<Seq<char>> {
    names.map_values(|s: String| s@)
}

fn position_of(names: &Vec<String>, name: &str) -> (r: bool)
    ensures
        r == names_view(names@).contains(name@),
{
    let mut i: usize = 0;
    while i < names.len()
        invariant
            i <= names@.len(),
            forall|j: int| 0 <= j < i ==> names_view(names@)[j] != name@,
        decreases names@.len() - i,
    {
        assert(names_view(names@)[i as int] == names@[i as int]@);
        if same_text(names[i].as_str(), name) {
            return true;
        }
        i += 1;
    }
    false
}

fn collect_names<N>(features: &Vec<Feature<N, JsonValue>>) -> (r: Vec<String>)
    ensures
        names_view(r@) == names_among(rows_of(features@), features@.len() as int),
{
    let ghost rows = rows_of(features@);
    let mut names: Vec<String> = Vec::new();
    let mut i: usize = 0;
    assert(names_view(names@) =~= Seq::<Seq<char>>::empty());
    while i < features.len()
        invariant
            i <= features@.len(),
            rows == rows_of(features@),
            names_view(names@) == names_among(rows, i as int),
        decreases features@.len() - i,
    {
        let ghost start = names_view(names@);
        let properties = &features[i].properties;
        let ghost row = properties_view(properties@);
        assert(rows[i as int] == row);
        let mut j: usize = 0;
        while j < properties.len()
            invariant
                j <= properties@.len(),
                row == properties_view(properties@),
                names_view(names@) == names_with(start, row, j as int),
            decreases properties@.len() - j,
        {
            let name = properties[j].0.as_str();
            assert(row[j as int].0 == name@);
            if !position_of(&names, name) {
                let ghost before = names@;
                names.push(String::from_str(name));
                assert(names_view(names@) =~= names_view(before).push(name@));
            }
            j += 1;
        }
        i += 1;
    }
    names
}

/// The value of a property of a feature; the first one counts.
pub fn property<'a, N>(feature: &'a Feature<N, JsonValue>, name: &str) -> (r: Option<&'a JsonValue>)
    ensures
        match r {
            Some(v) => first_member(properties_view(feature.properties@), name@) == Some(v@),
            None => first_member(properties_view(feature.properties@), name@) is None,
        },
{
    let ghost all = properties_view(feature.properties@);
    let mut i: usize = 0;
    assert(all.skip(0) =~= all);
    while i < feature.properties.len()
        invariant
            i <= feature.properties@.len(),
            all == properties_view(feature.properties@),
            first_member(all, name@) == first_member(all.skip(i as int), name@),
        decreases feature.properties@.len() - i,
    {
        let entry = &feature.properties[i];
        assert(all.skip(i as int).drop_first() =~= all.skip(i + 1));
        assert(all.skip(i as int)[0] == (entry.0@, entry.1@));
        if same_text(entry.0.as_str(), name) {
            return Some(&entry.1);
        }
        i += 1;
    }
    None
}

fn value_type(v: &JsonValue) -> (r: Option<ColumnType>)
    ensures
        r == type_of(v@),
{
    match v {
        JsonValue::Null => None,
        JsonValue::Bool(_) => Some(ColumnType::Bool),
        JsonValue::Number { text, is_int } => {
            if *is_int && parse_integer(text.as_str()).is_some() {
                Some(ColumnType::Int64)
            } else {
                Some(ColumnType::Double)
            }
        },
        _ => Some(ColumnType::String),
    }
}

fn widen(a: Option<ColumnType>, b: Option<ColumnType>) -> (r: Option<ColumnType>)
    ensures
        r == widened(a, b),
{
    match (a, b) {
        (None, t) => t,
        (t, None) => t,
        (Some(x), Some(y)) => {
            if x == y {
                Some(x)
            } else if (x == ColumnType::Int64 && y == ColumnType::Double) || (x
                == ColumnType::Double && y == ColumnType::Int64) {
                Some(ColumnType::Double)
            } else {
                Some(ColumnType::String)
            }
        },
    }
}

fn find_type<N>(features: &Vec<Feature<N, JsonValue>>, name: &str) -> (r: ColumnType)
    ensures
        r == column_type(rows_of(features@), name@),
{
    let ghost rows = rows_of(features@);
    let mut found: Option<ColumnType> = None;
    let mut i: usize = 0;
    while i < features.len()
        invariant
            i <= features@.len(),
            rows == rows_of(features@),
            found == type_among(rows, name@, i as int),
        decreases features@.len() - i,
    {
        assert(rows[i as int] == properties_view(features@[i as int].properties@));
        let here = match property(&features[i], name) {
            Some(v) => value_type(v),
            None => None,
        };
        found = widen(found, here);
        i += 1;
    }
    match found {
        Some(t) => t,
        None => ColumnType::String,
    }
}

fn make_cell(v: Option<&JsonValue>, ty: ColumnType) -> (r: Cell<String>)
    ensures
        r@ == cell_of(
            match v {
                Some(v) => Some(v@),
                None => None,
            },
            ty,
        ),
{
    match v {
        None => Cell::Null,
        Some(v) => match (v, ty) {
            (JsonValue::Null, _) => Cell::Null,
            (JsonValue::Bool(b), ColumnType::Bool) => Cell::Bool(*b),
            (JsonValue::Number { text, is_int }, ColumnType::Int64) => match parse_integer(
                text.as_str(),
            ) {
                Some(n) => Cell::Int(n),
                None => Cell::Null,
            },
            (JsonValue::Number { text, is_int }, ColumnType::Double) => Cell::Double(
                String::from_str(text.as_str()),
            ),
            (_, ColumnType::String) => match v {
                JsonValue::String(s) => Cell::Str(String::from_str(s.as_str())),
                _ => Cell::Str(v.to_json_string()),
            },
            _ => Cell::Null,
        },
    }
}

fn make_column<N>(features: &Vec<Feature<N, JsonValue>>, name: String) -> (r: Column<String>)
    ensures
        r@ == (Field {
            name: name@,
            ty: column_type(rows_of(features@), name@),
            values: column_cells(
                rows_of(features@),
                name@,
                column_type(rows_of(features@), name@),
            ),
        }),
{
    let ghost rows = rows_of(features@);
    let ty = find_type(features, name.as_str());
    let mut values: Vec<Cell<String>> = Vec::new();
    let mut i: usize = 0;
    while i < features.len()
        invariant
            i <= features@.len(),
            rows == rows_of(features@),
            values@.len() == i,
            forall|j: int|
                0 <= j < i ==> (#[trigger] values@[j])@ == cell_of(first_member(rows[j], name@), ty),
        decreases features@.len() - i,
    {
        assert(rows[i as int] == properties_view(features@[i as int].properties@));
        values.push(make_cell(property(&features[i], name.as_str()), ty));
        i += 1;
    }
    assert(cells_view(values@) =~= column_cells(rows, name@, ty));
    Column { name, ty, values }
}

/// The columns of a table of features.
pub fn infer_columns<N>(features: &Vec<Feature<N, JsonValue>>) -> (r: Vec<Column<String>>)
    ensures
        columns_view(r@) == inferred(rows_of(features@)),
{
    let ghost rows = rows_of(features@);
    let names = collect_names(features);
    let mut columns: Vec<Column<String>> = Vec::new();
    let mut i: usize = 0;
    while i < names.len()
        invariant
            i <= names@.len(),
            rows == rows_of(features@),
            rows.len() == features@.len(),
            names_view(names@) == names_among(rows, rows.len() as int),
            columns@.len() == i,
            forall|j: int| 0 <= j < i ==> (#[trigger] columns@[j])@ == inferred(rows)[j],
        decreases names@.len() - i,
    {
        assert(names_view(names@)[i as int] == names@[i as int]@);
        columns.push(make_column(features, String::from_str(names[i].as_str())));
        i += 1;
    }
    assert(columns_view(columns@) =~= inferred(rows));
    columns
}

// --- laws ----------------------------------------------------------------------------

proof fn lemma_type_covers(rows: Seq<Seq<(Seq<char>, Json)>>, name: Seq<char>, i: int, n: int)
    requires
        0 <= i < n <= rows.len(),
    ensures
        widened(type_among(rows, name, n), type_in(rows[i], name)) == type_among(rows, name, n),
    decreases n,
{
    if i < n - 1 {
        lemma_type_covers(rows, name, i, n - 1);
    }
}

/// Every cell of an inferred column is of the column's type, and there is one for
/// each feature.
pub proof fn law_cells_fit_their_column(rows: Seq<Seq<(Seq<char>, Json)>>, k: int)
    requires
        0 <= k < inferred(rows).len(),
    ensures
        is_column(inferred(rows)[k], rows.len()),
{
    let f = inferred(rows)[k];
    assert forall|i: int| 0 <= i < rows.len() implies fits(#[trigger] f.values[i], f.ty) by {
        lemma_type_covers(rows, f.name, i, rows.len() as int);
    }
}

/// No value is lost: a cell is empty only where the feature lacks the property or
/// has null.
pub proof fn law_cells_keep_values(rows: Seq<Seq<(Seq<char>, Json)>>, k: int, i: int)
    requires
        0 <= k < inferred(rows).len(),
        0 <= i < rows.len(),
    ensures
        inferred(rows)[k].values[i] is Null <==> (match first_member(
            rows[i],
            inferred(rows)[k].name,
        ) {
            Some(v) => v is Null,
            None => true,
        }),
{
    lemma_type_covers(rows, inferred(rows)[k].name, i, rows.len() as int);
}

} // verus!
