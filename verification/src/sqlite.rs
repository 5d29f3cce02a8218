//! What a database of tables holds, as far as a GeoPackage needs it.
use vstd::prelude::*;

verus! {

/// A stored value. A real is its bit pattern.
#[derive(Debug, PartialEq)]
pub enum Value {
    Null,
    Int(i64),
    Real(u64),
    Text(String),
    Blob(Vec<u8>),
}

/// The mathematical form of a stored value.
pub enum Stored {
    Null,
    Int(int),
    Real(u64),
    Text(Seq<char>),
    Blob(Seq<u8>),
}

impl View for Value {
    type V = Stored;

    open spec fn view(&self) -> Stored {
        match self {
            Value::Null => Stored::Null,
            Value::Int(n) => Stored::Int(*n as int),
            Value::Real(d) => Stored::Real(*d),
            Value::Text(s) => Stored::Text(s@),
            Value::Blob(b) => Stored::Blob(b@),
        }
    }
}

/// The view of a row.
pub open spec fn values_view(values: Seq<Value>) -> Seq<Stored> {
    values.map_values(|v: Value| v@)
}

/// The view of texts.
pub open spec fn texts_view(texts: Seq<String>) -> Seq<Seq<char>> {
    texts.map_values(|t: String| t@)
}

/// A table that was read: its name and columns, which column stands for the row
/// number, where one does, and its rows.
#[derive(Debug, PartialEq)]
pub struct Table {
    pub name: String,
    pub columns: Vec<String>,
    pub rowid_alias: Option<usize>,
    pub rows: Vec<Vec<Value>>,
}

/// The mathematical form of a table.
pub struct Relation {
    pub name: Seq<char>,
    pub columns: Seq<Seq<char>>,
    pub rowid_alias: Option<int>,
    pub rows: Seq<Seq<Stored>>,
}

pub open spec fn rows_view(rows: Seq<Vec<Value>>) -> Seq<Seq<Stored>> {
    rows.map_values(|r: Vec<Value>| values_view(r@))
}

impl View for Table {
    type V = Relation;

    open spec fn view(&self) -> Relation {
        Relation {
            name: self.name@,
            columns: texts_view(self.columns@),
            rowid_alias: match self.rowid_alias {
                Some(i) => Some(i as int),
                None => None,
            },
            rows: rows_view(self.rows@),
        }
    }
}

pub open spec fn tables_view(tables: Seq<Table>) -> Seq<Relation> {
    tables.map_values(|t: Table| t@)
}

/// Whether every row has a value for every column.
pub open spec fn is_relation(t: Relation) -> bool {
    forall|i: int| 0 <= i < t.rows.len() ==> (#[trigger] t.rows[i]).len() == t.columns.len()
}

/// A table to be written: its name and definition, and its rows, each with its
/// row number. Row numbers ascend.
#[derive(Debug, PartialEq)]
pub struct TableSpec {
    pub name: String,
    pub sql: String,
    pub rows: Vec<(i64, Vec<Value>)>,
}

/// The mathematical form of a table to be written.
pub struct Plan {
    pub name: Seq<char>,
    pub sql: Seq<char>,
    pub rows: Seq<(int, Seq<Stored>)>,
}

pub open spec fn numbered_view(rows: Seq<(i64, Vec<Value>)>) -> Seq<(int, Seq<Stored>)> {
    rows.map_values(|r: (i64, Vec<Value>)| (r.0 as int, values_view(r.1@)))
}

impl View for TableSpec {
    type V = Plan;

    open spec fn view(&self) -> Plan {
        Plan { name: self.name@, sql: self.sql@, rows: numbered_view(self.rows@) }
    }
}

pub open spec fn plans_view(specs: Seq<TableSpec>) -> Seq<Plan> {
    specs.map_values(|t: TableSpec| t@)
}

/// A schema entry without a table of its own: a virtual table or a trigger.
#[derive(Debug, PartialEq)]
pub struct MasterEntry {
    pub kind: String,
    pub name: String,
    pub tbl_name: String,
    pub sql: String,
}

/// The mathematical form of a schema entry.
pub struct Declaration {
    pub kind: Seq<char>,
    pub name: Seq<char>,
    pub tbl_name: Seq<char>,
    pub sql: Seq<char>,
}

impl View for MasterEntry {
    type V = Declaration;

    open spec fn view(&self) -> Declaration {
        Declaration {
            kind: self.kind@,
            name: self.name@,
            tbl_name: self.tbl_name@,
            sql: self.sql@,
        }
    }
}

pub open spec fn declarations_view(entries: Seq<MasterEntry>) -> Seq<Declaration> {
    entries.map_values(|e: MasterEntry| e@)
}

/// Whether row numbers ascend.
pub open spec fn ascends(rows: Seq<(int, Seq<Stored>)>) -> bool {
    forall|i: int, j: int| 0 <= i < j < rows.len() ==> (#[trigger] rows[i]).0 < (#[trigger] rows[j]).0
}

} // verus!
