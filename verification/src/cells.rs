//! What a table says of the features that it was made of.
use vstd::prelude::*;

use crate::csv::{
    are_recoverable, cell_text, collection_of, inferred_value, is_evident, law_cell_reads_back,
    law_csv_round_trip, read_cell, recovered, table_of, table_text,
};
use crate::decimal::{is_finite_text, law_numeral_is_plain, law_plain_is_plain, plain_number};
use crate::feature::Item;
use crate::json::value::{first_member, json_text, number_text, Json};
use crate::number::integer_of;
use crate::schema::{
    column_type, inferred, law_cells_keep_values, names_among, names_with, type_among, type_in,
    type_of, ColumnType, Datum, Field,
};
use crate::text::{lower_text, signed_decimal};
use crate::worth::{
    is_tiny_text, law_integer_is_its_numeral, law_plain_text_is_the_same_number,
    law_unsigned_text_is_the_same_number, lemma_same_number_joins, same_number, Numeral,
};

verus! {

// --- columns -------------------------------------------------------------------------------

/// Whether a feature has a property of a name.
pub open spec fn has_property(row: Seq<(Seq<char>, Json)>, name: Seq<char>) -> bool {
    exists|j: int| 0 <= j < row.len() && (#[trigger] row[j]).0 == name
}

/// The names of the columns.
pub open spec fn column_names(rows: Seq<Seq<(Seq<char>, Json)>>) -> Seq<Seq<char>> {
    inferred(rows).map_values(|f: Field<Seq<char>>| f.name)
}

proof fn lemma_names_with(names: Seq<Seq<char>>, row: Seq<(Seq<char>, Json)>, n: int, name: Seq<char>)
    requires
        0 <= n <= row.len(),
        names.no_duplicates(),
    ensures
        names_with(names, row, n).no_duplicates(),
        names_with(names, row, n).contains(name) <==> names.contains(name) || exists|j: int|
            0 <= j < n && (#[trigger] row[j]).0 == name,
        names.len() <= names_with(names, row, n).len(),
        names_with(names, row, n).take(names.len() as int) == names,
    decreases n,
{
    if n > 0 {
        lemma_names_with(names, row, n - 1, name);
        lemma_names_with(names, row, n - 1, row[n - 1].0);
        let before = names_with(names, row, n - 1);
        let after = names_with(names, row, n);
        let last = row[n - 1].0;
        if !before.contains(last) {
            assert(after == before.push(last));
            assert(after.contains(name) <==> before.contains(name) || name == last) by {
                if before.contains(name) {
                    let i = choose|i: int| 0 <= i < before.len() && before[i] == name;
                    assert(after[i] == name);
                }
                if name == last {
                    assert(after[before.len() as int] == name);
                }
                if after.contains(name) {
                    let i = choose|i: int| 0 <= i < after.len() && after[i] == name;
                    if i < before.len() {
                        assert(before[i] == name);
                    }
                }
            }
            assert(after.take(names.len() as int) =~= before.take(names.len() as int));
        }
        if exists|j: int| 0 <= j < n && (#[trigger] row[j]).0 == name {
            let j = choose|j: int| 0 <= j < n && (#[trigger] row[j]).0 == name;
            if j < n - 1 {
                assert(0 <= j < n - 1 && row[j].0 == name);
            }
        }
        if exists|j: int| 0 <= j < n - 1 && (#[trigger] row[j]).0 == name {
            let j = choose|j: int| 0 <= j < n - 1 && (#[trigger] row[j]).0 == name;
            assert(0 <= j < n && row[j].0 == name);
        }
        if name == last {
            assert(row[n - 1].0 == name);
        }
    } else {
        assert(names.take(names.len() as int) =~= names);
    }
}

proof fn lemma_names_among(rows: Seq<Seq<(Seq<char>, Json)>>, n: int, name: Seq<char>)
    requires
        0 <= n <= rows.len(),
    ensures
        names_among(rows, n).no_duplicates(),
        names_among(rows, n).contains(name) <==> exists|i: int|
            0 <= i < n && has_property(#[trigger] rows[i], name),
    decreases n,
{
    if n > 0 {
        let before = names_among(rows, n - 1);
        let row = rows[n - 1];
        lemma_names_among(rows, n - 1, name);
        lemma_names_with(before, row, row.len() as int, name);
        if exists|i: int| 0 <= i < n && has_property(#[trigger] rows[i], name) {
            let i = choose|i: int| 0 <= i < n && has_property(#[trigger] rows[i], name);
            if i < n - 1 {
                assert(0 <= i < n - 1 && has_property(rows[i], name));
            }
        }
        if before.contains(name) {
            let i = choose|i: int| 0 <= i < n - 1 && has_property(#[trigger] rows[i], name);
            assert(0 <= i < n && has_property(rows[i], name));
        }
        if has_property(row, name) {
            assert(has_property(rows[n - 1], name));
        }
    }
}

/// The properties that any feature has are the columns, each once.
pub proof fn law_properties_are_the_columns(rows: Seq<Seq<(Seq<char>, Json)>>, name: Seq<char>)
    ensures
        column_names(rows).no_duplicates(),
        column_names(rows).contains(name) <==> exists|i: int|
            0 <= i < rows.len() && has_property(#[trigger] rows[i], name),
{
    lemma_names_among(rows, rows.len() as int, name);
    assert(column_names(rows) =~= names_among(rows, rows.len() as int));
}

/// Further features add their columns behind those that are there.
pub proof fn law_columns_keep_their_order(
    rows: Seq<Seq<(Seq<char>, Json)>>,
    row: Seq<(Seq<char>, Json)>,
)
    ensures
        column_names(rows).len() <= column_names(rows.push(row)).len(),
        column_names(rows.push(row)).take(column_names(rows).len() as int) == column_names(rows),
{
    let all = rows.push(row);
    let n = rows.len() as int;
    lemma_names_among(rows, n, Seq::empty());
    lemma_prefix_names(rows, row, n);
    lemma_names_with(names_among(rows, n), row, row.len() as int, Seq::empty());
    assert(column_names(rows) =~= names_among(rows, n));
    assert(column_names(all) =~= names_among(all, n + 1));
}

proof fn lemma_prefix_names(
    rows: Seq<Seq<(Seq<char>, Json)>>,
    row: Seq<(Seq<char>, Json)>,
    n: int,
)
    requires
        0 <= n <= rows.len(),
    ensures
        names_among(rows.push(row), n) == names_among(rows, n),
    decreases n,
{
    if n > 0 {
        lemma_prefix_names(rows, row, n - 1);
        assert(rows.push(row)[n - 1] == rows[n - 1]);
    }
}

/// The columns of one feature are its properties in their order, where they have different
/// names.
pub proof fn law_columns_of_one_are_its_properties(row: Seq<(Seq<char>, Json)>)
    requires
        forall|i: int, j: int|
            0 <= i < j < row.len() ==> (#[trigger] row[i]).0 != (#[trigger] row[j]).0,
    ensures
        column_names(seq![row]) == row.map_values(|p: (Seq<char>, Json)| p.0),
{
    let rows = seq![row];
    assert(names_among(rows, 0) =~= Seq::empty());
    lemma_own_names(row, row.len() as int);
    assert(rows[0] == row);
    assert(row.take(row.len() as int) =~= row);
    assert(column_names(rows) =~= names_among(rows, 1));
}

proof fn lemma_own_names(row: Seq<(Seq<char>, Json)>, n: int)
    requires
        0 <= n <= row.len(),
        forall|i: int, j: int|
            0 <= i < j < row.len() ==> (#[trigger] row[i]).0 != (#[trigger] row[j]).0,
    ensures
        names_with(Seq::empty(), row, n) == row.take(n).map_values(|p: (Seq<char>, Json)| p.0),
    decreases n,
{
    let f = |p: (Seq<char>, Json)| p.0;
    if n > 0 {
        lemma_own_names(row, n - 1);
        let before = names_with(Seq::empty(), row, n - 1);
        if before.contains(row[n - 1].0) {
            let i = choose|i: int| 0 <= i < before.len() && before[i] == row[n - 1].0;
            assert(before[i] == row[i].0);
            assert(row[i].0 != row[n - 1].0);
        }
        assert(row.take(n).map_values(f) =~= before.push(row[n - 1].0));
    } else {
        assert(row.take(n).map_values(f) =~= Seq::empty());
    }
}

// --- types ---------------------------------------------------------------------------------

/// Whether a value is an integer of 64 bits.
pub open spec fn is_integer(v: Json) -> bool {
    v matches Json::Number { text, is_int } && is_int && integer_of(text) is Some
}

/// Whether some feature has a value of a property, other than null, that `p` says of.
pub open spec fn some_value(
    rows: Seq<Seq<(Seq<char>, Json)>>,
    name: Seq<char>,
    p: spec_fn(Json) -> bool,
) -> bool {
    exists|i: int|
        0 <= i < rows.len() && (first_member(#[trigger] rows[i], name) matches Some(v) && v !is Null
            && p(v))
}

/// Whether `p` says of all values of a property, other than null.
pub open spec fn all_values(
    rows: Seq<Seq<(Seq<char>, Json)>>,
    name: Seq<char>,
    p: spec_fn(Json) -> bool,
) -> bool {
    forall|i: int|
        0 <= i < rows.len() ==> (first_member(#[trigger] rows[i], name) matches Some(v) ==> v !is Null
            ==> p(v))
}

/// Whether a type occurs among the first `n` rows.
spec fn occurs(rows: Seq<Seq<(Seq<char>, Json)>>, name: Seq<char>, n: int, ty: ColumnType) -> bool {
    exists|i: int| 0 <= i < n && type_in(#[trigger] rows[i], name) == Some(ty)
}

proof fn lemma_occurs_step(
    rows: Seq<Seq<(Seq<char>, Json)>>,
    name: Seq<char>,
    n: int,
    ty: ColumnType,
)
    requires
        0 < n <= rows.len(),
    ensures
        occurs(rows, name, n, ty) <==> occurs(rows, name, n - 1, ty) || type_in(rows[n - 1], name)
            == Some(ty),
{
    if occurs(rows, name, n, ty) {
        let i = choose|i: int| 0 <= i < n && type_in(#[trigger] rows[i], name) == Some(ty);
        if i < n - 1 {
            assert(0 <= i < n - 1 && type_in(rows[i], name) == Some(ty));
        }
    }
    if occurs(rows, name, n - 1, ty) {
        let i = choose|i: int| 0 <= i < n - 1 && type_in(#[trigger] rows[i], name) == Some(ty);
        assert(0 <= i < n && type_in(rows[i], name) == Some(ty));
    }
    if type_in(rows[n - 1], name) == Some(ty) {
        assert(0 <= n - 1 < n);
    }
}

proof fn lemma_type_among(rows: Seq<Seq<(Seq<char>, Json)>>, name: Seq<char>, n: int)
    requires
        0 <= n <= rows.len(),
    ensures
        ({
            let b = occurs(rows, name, n, ColumnType::Bool);
            let i = occurs(rows, name, n, ColumnType::Int64);
            let d = occurs(rows, name, n, ColumnType::Double);
            let s = occurs(rows, name, n, ColumnType::String);
            type_among(rows, name, n) == if !b && !i && !d && !s {
                None
            } else if b && !i && !d && !s {
                Some(ColumnType::Bool)
            } else if i && !b && !d && !s {
                Some(ColumnType::Int64)
            } else if d && !b && !s {
                Some(ColumnType::Double)
            } else {
                Some(ColumnType::String)
            }
        }),
    decreases n,
{
    if n > 0 {
        lemma_type_among(rows, name, n - 1);
        lemma_occurs_step(rows, name, n, ColumnType::Bool);
        lemma_occurs_step(rows, name, n, ColumnType::Int64);
        lemma_occurs_step(rows, name, n, ColumnType::Double);
        lemma_occurs_step(rows, name, n, ColumnType::String);
    }
}

proof fn lemma_occurs_is_some(
    rows: Seq<Seq<(Seq<char>, Json)>>,
    name: Seq<char>,
    ty: ColumnType,
    p: spec_fn(Json) -> bool,
)
    requires
        forall|v: Json| v !is Null ==> (#[trigger] p(v) <==> type_of(v) == Some(ty)),
    ensures
        occurs(rows, name, rows.len() as int, ty) <==> some_value(rows, name, p),
{
    if occurs(rows, name, rows.len() as int, ty) {
        let i = choose|i: int| 0 <= i < rows.len() && type_in(#[trigger] rows[i], name) == Some(ty);
        let v = first_member(rows[i], name)->0;
        assert(p(v));
    }
    if some_value(rows, name, p) {
        let i = choose|i: int|
            0 <= i < rows.len() && (first_member(#[trigger] rows[i], name) matches Some(v)
                && v !is Null && p(v));
        let v = first_member(rows[i], name)->0;
        assert(p(v));
        assert(type_in(rows[i], name) == Some(ty));
    }
}

/// A column's type is the narrowest that holds its values: a truth value where all are, an
/// integer where all are, a double where all are numbers and not all integers, and text
/// otherwise.
pub proof fn law_column_type_is_the_narrowest(rows: Seq<Seq<(Seq<char>, Json)>>, name: Seq<char>)
    ensures
        ({
            let any = some_value(rows, name, |v: Json| true);
            let bools = all_values(rows, name, |v: Json| v is Bool);
            let ints = all_values(rows, name, |v: Json| is_integer(v));
            let numbers = all_values(rows, name, |v: Json| v is Number);
            column_type(rows, name) == if any && bools {
                ColumnType::Bool
            } else if any && ints {
                ColumnType::Int64
            } else if any && numbers {
                ColumnType::Double
            } else {
                ColumnType::String
            }
        }),
{
    let n = rows.len() as int;
    lemma_type_among(rows, name, n);
    let is_bool = |v: Json| v is Bool;
    let is_int = |v: Json| is_integer(v);
    let is_double = |v: Json| v is Number && !is_integer(v);
    let is_text = |v: Json| !(v is Bool) && !(v is Number);
    let is_number = |v: Json| v is Number;
    let is_any = |v: Json| true;
    lemma_occurs_is_some(rows, name, ColumnType::Bool, is_bool);
    lemma_occurs_is_some(rows, name, ColumnType::Int64, is_int);
    lemma_occurs_is_some(rows, name, ColumnType::Double, is_double);
    lemma_occurs_is_some(rows, name, ColumnType::String, is_text);
    lemma_some_of(rows, name, is_bool, is_any);
    lemma_some_of(rows, name, is_int, is_any);
    lemma_some_of(rows, name, is_double, is_any);
    lemma_some_of(rows, name, is_text, is_any);
    if some_value(rows, name, is_any) {
        let i = choose|i: int|
            0 <= i < rows.len() && (first_member(#[trigger] rows[i], name) matches Some(v)
                && v !is Null && is_any(v));
        let v = first_member(rows[i], name)->0;
        assert(is_bool(v) || is_int(v) || is_double(v) || is_text(v));
    }
    lemma_all_or_some(rows, name, is_bool, |v: Json| !is_bool(v));
    lemma_all_or_some(rows, name, is_int, |v: Json| !is_int(v));
    lemma_all_or_some(rows, name, is_number, |v: Json| !is_number(v));
    lemma_some_either(rows, name, |v: Json| !is_bool(v), is_int, is_double, is_text);
    lemma_some_either(rows, name, |v: Json| !is_int(v), is_bool, is_double, is_text);
    lemma_some_either(rows, name, |v: Json| !is_number(v), is_bool, is_text, is_text);
}

proof fn lemma_some_of(
    rows: Seq<Seq<(Seq<char>, Json)>>,
    name: Seq<char>,
    p: spec_fn(Json) -> bool,
    q: spec_fn(Json) -> bool,
)
    requires
        forall|v: Json| #[trigger] p(v) ==> q(v),
    ensures
        some_value(rows, name, p) ==> some_value(rows, name, q),
{
    if some_value(rows, name, p) {
        let i = choose|i: int|
            0 <= i < rows.len() && (first_member(#[trigger] rows[i], name) matches Some(v)
                && v !is Null && p(v));
        let v = first_member(rows[i], name)->0;
        assert(q(v));
    }
}

proof fn lemma_all_or_some(
    rows: Seq<Seq<(Seq<char>, Json)>>,
    name: Seq<char>,
    p: spec_fn(Json) -> bool,
    q: spec_fn(Json) -> bool,
)
    requires
        forall|v: Json| #![trigger p(v)] #![trigger q(v)] p(v) <==> !q(v),
    ensures
        all_values(rows, name, p) <==> !some_value(rows, name, q),
{
    if some_value(rows, name, q) {
        let i = choose|i: int|
            0 <= i < rows.len() && (first_member(#[trigger] rows[i], name) matches Some(v)
                && v !is Null && q(v));
        let v = first_member(rows[i], name)->0;
        assert(!p(v));
    }
    if !some_value(rows, name, q) {
        assert forall|i: int| 0 <= i < rows.len() implies (first_member(
            #[trigger] rows[i],
            name,
        ) matches Some(v) ==> v !is Null ==> p(v)) by {
            if let Some(v) = first_member(rows[i], name) {
                if v !is Null && !p(v) {
                    assert(q(v));
                }
            }
        }
    }
}

proof fn lemma_some_either(
    rows: Seq<Seq<(Seq<char>, Json)>>,
    name: Seq<char>,
    p: spec_fn(Json) -> bool,
    a: spec_fn(Json) -> bool,
    b: spec_fn(Json) -> bool,
    c: spec_fn(Json) -> bool,
)
    requires
        forall|v: Json| #[trigger] p(v) && v !is Null ==> a(v) || b(v) || c(v),
        forall|v: Json| #[trigger] a(v) ==> p(v),
        forall|v: Json| #[trigger] b(v) ==> p(v),
        forall|v: Json| #[trigger] c(v) ==> p(v),
    ensures
        some_value(rows, name, p) <==> some_value(rows, name, a) || some_value(rows, name, b)
            || some_value(rows, name, c),
{
    lemma_some_of(rows, name, a, p);
    lemma_some_of(rows, name, b, p);
    lemma_some_of(rows, name, c, p);
    if some_value(rows, name, p) {
        let i = choose|i: int|
            0 <= i < rows.len() && (first_member(#[trigger] rows[i], name) matches Some(v)
                && v !is Null && p(v));
        let v = first_member(rows[i], name)->0;
        assert(a(v) || b(v) || c(v));
    }
}

// --- cells ---------------------------------------------------------------------------------

/// A cell holds the value of the property that it stands for: a truth value, the integer
/// that the numeral is, the number by its own text, a string by its own characters, and
/// anything else in a column of text as JSON.
pub proof fn law_cell_holds_its_value(rows: Seq<Seq<(Seq<char>, Json)>>, k: int, i: int)
    requires
        0 <= k < inferred(rows).len(),
        0 <= i < rows.len(),
        first_member(rows[i], inferred(rows)[k].name) is Some,
    ensures
        ({
            let v = first_member(rows[i], inferred(rows)[k].name)->0;
            let cell = inferred(rows)[k].values[i];
            match cell {
                Datum::Null => v is Null,
                Datum::Bool(b) => v == Json::Bool(b),
                Datum::Int(n) => {
                    &&& v is Number
                    &&& same_number(v->text, signed_decimal(n))
                    &&& exists|a: Numeral|
                        #[trigger] a.text() == v->text && a.is_numeral() && a.power() == 0
                            && a.mantissa() == n
                },
                Datum::Double(t) => v is Number && t == v->text,
                Datum::Str(s) => v !is Null && (v is String ==> s == v->String_0) && (v !is String
                    ==> s == json_text(v)),
            }
        }),
{
    let name = inferred(rows)[k].name;
    let v = first_member(rows[i], name)->0;
    law_cells_keep_values(rows, k, i);
    if let Datum::Int(n) = inferred(rows)[k].values[i] {
        law_integer_is_its_numeral(v->text);
    }
}

// --- through CSV ---------------------------------------------------------------------------

/// The text of a number within the range of a double is read from a CSV cell as a number of
/// equal worth.
proof fn lemma_number_cell(t: Seq<char>)
    requires
        is_finite_text(t),
        !is_tiny_text(t),
    ensures
        inferred_value(plain_number(t)) is Number,
        same_number(t, inferred_value(plain_number(t))->text),
{
    let s = plain_number(t);
    law_plain_is_plain(t);
    law_plain_text_is_the_same_number(t);
    reveal_strlit("true");
    reveal_strlit("false");
    assert(lower_text(s)[0] == s[0]);
    assert("true"@[0] == 't' && "false"@[0] == 'f');
    assert(lower_text(s) != "true"@ && lower_text(s) != "false"@);
    if let Some(n) = integer_of(s) {
        law_integer_is_its_numeral(s);
        lemma_same_number_joins(t, s, signed_decimal(n));
    }
}

/// The same of a number as JSON writes it.
proof fn lemma_written_cell(t: Seq<char>, is_int: bool)
    requires
        is_finite_text(t),
        !is_tiny_text(t),
    ensures
        inferred_value(number_text(t, is_int)) is Number,
        same_number(t, inferred_value(number_text(t, is_int))->text),
{
    reveal(number_text);
    lemma_number_cell(t);
    if is_int && plain_number(t) == "-0"@ {
        law_unsigned_text_is_the_same_number(t);
        law_cell_reads_back(Datum::Int(0));
        law_numeral_is_plain(0);
        reveal_strlit("0");
        reveal_strlit("-0");
        assert(signed_decimal(0) =~= "0"@);
    }
}

/// A property comes back from CSV, of the feature that stands in the same place and under
/// the same name: a number as a number of equal worth, a truth value, a text that is not
/// taken for another value, and nothing as nothing.
pub proof fn law_property_comes_back(
    features: Seq<Item<Seq<char>, Json>>,
    i: int,
    name: Seq<char>,
) -> (k: int)
    requires
        are_recoverable(features),
        0 <= i < features.len(),
        first_member(features[i].properties, name) is Some,
    ensures
        collection_of(table_text(table_of(features))) matches Ok(c) && {
            let v = first_member(features[i].properties, name)->0;
            let p = c.features[i].properties;
            &&& c.features.len() == features.len()
            &&& c.features[i].geometry == features[i].geometry
            &&& 0 <= k < p.len()
            &&& p[k].0 == name
            &&& forall|j: int| 0 <= j < p.len() && j != k ==> (#[trigger] p[j]).0 != name
            &&& v matches Json::Number { text, is_int } ==> is_finite_text(text) ==> !is_tiny_text(
                text,
            ) ==> p[k].1 is Number && same_number(text, p[k].1->text)
            &&& v is Bool ==> p[k].1 == v
            &&& v is Null ==> p[k].1 == v
            &&& v matches Json::String(s) ==> is_evident(s) ==> p[k].1 == v
        },
{
    let rows = features.map_values(|f: Item<Seq<char>, Json>| f.properties);
    let columns = inferred(rows);
    law_csv_round_trip(features);
    assert(rows[i] == features[i].properties);
    let v = first_member(rows[i], name)->0;
    lemma_member_is_property(rows[i], name);
    law_properties_are_the_columns(rows, name);
    let k = choose|k: int| 0 <= k < column_names(rows).len() && column_names(rows)[k] == name;
    assert(columns[k].name == name);
    let p = recovered(features)[i].properties;
    assert(p[k] == (name, read_cell(columns[k].values[i])));
    assert forall|j: int| 0 <= j < p.len() && j != k implies (#[trigger] p[j]).0 != name by {
        assert(p[j].0 == column_names(rows)[j]);
    }
    law_cell_holds_its_value(rows, k, i);
    law_cells_keep_values(rows, k, i);
    match columns[k].values[i] {
        Datum::Null => {
            law_cell_reads_back(Datum::Null);
        },
        Datum::Bool(b) => {
            law_cell_reads_back(Datum::Bool(b));
        },
        Datum::Int(n) => {
            lemma_integer_cell(rows, k, i);
        },
        Datum::Double(t) => {
            if is_finite_text(t) && !is_tiny_text(t) {
                lemma_number_cell(t);
            }
        },
        Datum::Str(s) => {
            match v {
                Json::Number { text, is_int } => {
                    if is_finite_text(text) && !is_tiny_text(text) {
                        lemma_written_cell(text, is_int);
                    }
                },
                Json::Bool(b) => {
                    law_cell_reads_back(Datum::Bool(b));
                    reveal_strlit("true");
                    reveal_strlit("false");
                    assert(json_text(v) =~= cell_text(Datum::Bool(b)));
                },
                Json::String(t) => {
                    if is_evident(t) {
                        law_cell_reads_back(Datum::Str(t));
                    }
                },
                _ => {},
            }
        },
    }
    k
}

proof fn lemma_integer_cell(rows: Seq<Seq<(Seq<char>, Json)>>, k: int, i: int)
    requires
        0 <= k < inferred(rows).len(),
        0 <= i < rows.len(),
        first_member(rows[i], inferred(rows)[k].name) is Some,
        inferred(rows)[k].values[i] is Int,
    ensures
        ({
            let v = first_member(rows[i], inferred(rows)[k].name)->0;
            let r = read_cell(inferred(rows)[k].values[i]);
            r is Number && same_number(v->text, r->text)
        }),
{
    law_cell_holds_its_value(rows, k, i);
    let n = inferred(rows)[k].values[i]->Int_0;
    law_cell_reads_back(inferred(rows)[k].values[i]);
}

proof fn lemma_member_is_property(row: Seq<(Seq<char>, Json)>, name: Seq<char>)
    requires
        first_member(row, name) is Some,
    ensures
        has_property(row, name),
    decreases row.len(),
{
    if row[0].0 == name {
        assert(0 <= 0 < row.len() && row[0].0 == name);
    } else {
        let rest = row.drop_first();
        lemma_member_is_property(rest, name);
        let j = choose|j: int| 0 <= j < rest.len() && (#[trigger] rest[j]).0 == name;
        assert(row[j + 1].0 == name);
    }
}

} // verus!
