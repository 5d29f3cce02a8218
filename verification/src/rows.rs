//! What a table of any other writer is read as.
use vstd::prelude::*;

use crate::csv::{
    collection_of, doubled, features_from, field_or_empty, geometry_column, inferred_value, is_blank,
    is_geometry_name, lemma_first, lemma_plain_reads, lemma_quoted_reads, lemma_split, needs_quotes,
    row_geometry, row_properties, rows, rows_from, stands,
};
use crate::decimal::is_finite_text;
use crate::error::Failure;
use crate::feature::Item;
use crate::json::value::Json;
use crate::number::integer_of;
use crate::text::lower_text;
use crate::worth::{
    is_tiny_text, law_integer_is_its_numeral, law_plain_text_is_the_same_number, same_number,
};

verus! {

// --- text ----------------------------------------------------------------------------------

/// A field as it may be written: bare, or in quotes.
pub struct Cell {
    pub text: Seq<char>,
    pub quoted: bool,
}

/// A text with every quote twice.
pub open spec fn twice(s: Seq<char>) -> Seq<char>
    decreases s.len(),
{
    if s.len() == 0 {
        Seq::empty()
    } else {
        twice(s.drop_last()) + (if s.last() == '"' {
            seq!['"', '"']
        } else {
            seq![s.last()]
        })
    }
}

impl Cell {
    pub open spec fn form(self) -> Seq<char> {
        if self.quoted {
            seq!['"'] + twice(self.text) + seq!['"']
        } else {
            self.text
        }
    }

    /// Whether the field can be written so: bare only where it has no comma, quote or line
    /// break.
    pub open spec fn is_written(self) -> bool {
        self.quoted || forall|i: int|
            0 <= i < self.text.len() ==> !(self.text[i] == ',' || self.text[i] == '"'
                || self.text[i] == '\n' || #[trigger] self.text[i] == '\r')
    }
}

/// Fields from the `i`th on with commas between them, and what ends the row.
pub open spec fn row_form(cells: Seq<Cell>, i: int, end: Seq<char>) -> Seq<char>
    decreases cells.len() - i,
{
    if i < 0 || i >= cells.len() - 1 {
        cells[i].form() + end
    } else {
        cells[i].form() + seq![','] + row_form(cells, i + 1, end)
    }
}

/// Rows from the `i`th on, each with what ends it.
pub open spec fn table_form(table: Seq<Seq<Cell>>, ends: Seq<Seq<char>>, i: int) -> Seq<char>
    decreases table.len() - i,
{
    if i < 0 || i >= table.len() {
        Seq::empty()
    } else {
        row_form(table[i], 0, ends[i]) + table_form(table, ends, i + 1)
    }
}

/// The texts of fields.
pub open spec fn texts(cells: Seq<Cell>) -> Seq<Seq<char>> {
    cells.map_values(|c: Cell| c.text)
}

/// Whether a text ends a row: a line feed, with a carriage return before it or not.
pub open spec fn is_end(t: Seq<char>) -> bool {
    t == seq!['\n'] || t == seq!['\r', '\n']
}

proof fn lemma_doubled_last(s: Seq<char>)
    requires
        s.len() > 0,
    ensures
        doubled(s) == doubled(s.drop_last()) + (if s.last() == '"' {
            seq!['"', '"']
        } else {
            seq![s.last()]
        }),
    decreases s.len(),
{
    if s.len() == 1 {
        assert(s.drop_first() =~= Seq::empty());
        assert(s.drop_last() =~= Seq::empty());
        assert(doubled(s) =~= doubled(s.drop_last()) + (if s.last() == '"' {
            seq!['"', '"']
        } else {
            seq![s.last()]
        }));
    } else {
        let rest = s.drop_first();
        lemma_doubled_last(rest);
        assert(rest.drop_last() =~= s.drop_last().drop_first());
        assert(doubled(s) =~= doubled(s.drop_last()) + (if s.last() == '"' {
            seq!['"', '"']
        } else {
            seq![s.last()]
        }));
    }
}

proof fn lemma_twice(s: Seq<char>)
    ensures
        twice(s) == doubled(s),
    decreases s.len(),
{
    if s.len() > 0 {
        lemma_twice(s.drop_last());
        lemma_doubled_last(s);
    }
}

/// A field is read, however it is written.
proof fn lemma_cell_reads(
    s: Seq<char>,
    p: int,
    c: Cell,
    row: Seq<Seq<char>>,
    done: Seq<Seq<Seq<char>>>,
)
    requires
        c.is_written(),
        stands(s, p, c.form()),
        p + c.form().len() < s.len() ==> s[p + c.form().len()] != '"',
    ensures
        rows_from(s, p, false, Seq::empty(), row, done) == rows_from(
            s,
            p + c.form().len(),
            false,
            c.text,
            row,
            done,
        ),
{
    let f = c.text;
    lemma_twice(f);
    if c.quoted {
        let inside = doubled(f) + seq!['"'];
        assert(c.form() =~= seq!['"'] + inside);
        lemma_split(s, p, seq!['"'], inside);
        lemma_first(s, p, seq!['"']);
        lemma_quoted_reads(s, p + 1, f, Seq::empty(), row, done);
        assert(Seq::<char>::empty() + f =~= f);
    } else {
        assert forall|i: int| 0 <= i < f.len() implies !needs_quotes(#[trigger] f[i]) by {}
        lemma_plain_reads(s, p, f, Seq::empty(), row, done);
        assert(Seq::<char>::empty() + f =~= f);
    }
}

/// The end of a row is read.
proof fn lemma_end_reads(
    s: Seq<char>,
    p: int,
    end: Seq<char>,
    field: Seq<char>,
    row: Seq<Seq<char>>,
    done: Seq<Seq<Seq<char>>>,
)
    requires
        is_end(end),
        stands(s, p, end),
    ensures
        rows_from(s, p, false, field, row, done) == rows_from(
            s,
            p + end.len(),
            false,
            Seq::empty(),
            Seq::empty(),
            done.push(row.push(field)),
        ),
{
    lemma_first(s, p, end);
    if end == seq!['\r', '\n'] {
        assert(end =~= seq!['\r'] + seq!['\n']);
        lemma_split(s, p, seq!['\r'], seq!['\n']);
        lemma_first(s, p + 1, seq!['\n']);
        assert(s[p] == '\r' && s[p + 1] == '\n');
        assert(rows_from(s, p, false, field, row, done) == rows_from(
            s,
            p + 1,
            false,
            field,
            row,
            done,
        ));
    }
}

/// What stands behind the fields of a row from the `i`th on.
proof fn lemma_row_reads(
    s: Seq<char>,
    p: int,
    cells: Seq<Cell>,
    i: int,
    end: Seq<char>,
    done: Seq<Seq<Seq<char>>>,
)
    requires
        0 <= i < cells.len(),
        forall|k: int| 0 <= k < cells.len() ==> (#[trigger] cells[k]).is_written(),
        stands(s, p, row_form(cells, i, end)),
        is_end(end) || (end.len() == 0 && p + row_form(cells, i, end).len() == s.len() && (
        cells.len() > 1 || cells[0].text.len() > 0)),
    ensures
        rows_from(s, p, false, Seq::empty(), texts(cells).take(i), done) == if end.len() == 0 {
            done.push(texts(cells))
        } else {
            rows_from(
                s,
                p + row_form(cells, i, end).len(),
                false,
                Seq::empty(),
                Seq::empty(),
                done.push(texts(cells)),
            )
        },
    decreases cells.len() - i,
{
    let all = texts(cells);
    let c = cells[i];
    let t = c.form();
    let q = p + t.len();
    assert(c.is_written());
    if i == cells.len() - 1 {
        lemma_split(s, p, t, end);
        if end.len() > 0 {
            lemma_first(s, q, end);
        } else {
            assert(q == s.len());
        }
        lemma_cell_reads(s, p, c, all.take(i), done);
        assert(all.take(i).push(c.text) =~= all);
        if end.len() > 0 {
            lemma_end_reads(s, q, end, c.text, all.take(i), done);
        }
    } else {
        let rest = row_form(cells, i + 1, end);
        assert(row_form(cells, i, end) =~= t + (seq![','] + rest));
        lemma_split(s, p, t, seq![','] + rest);
        lemma_split(s, q, seq![','], rest);
        lemma_first(s, q, seq![',']);
        lemma_cell_reads(s, p, c, all.take(i), done);
        assert(all.take(i).push(c.text) =~= all.take(i + 1));
        lemma_row_reads(s, q + 1, cells, i + 1, end, done);
    }
}

proof fn lemma_table_reads(
    s: Seq<char>,
    p: int,
    table: Seq<Seq<Cell>>,
    ends: Seq<Seq<char>>,
    i: int,
)
    requires
        0 <= i <= table.len(),
        ends.len() == table.len(),
        forall|k: int| 0 <= k < table.len() ==> (#[trigger] table[k]).len() > 0,
        forall|k: int, j: int|
            0 <= k < table.len() && 0 <= j < table[k].len() ==> (
            #[trigger] table[k][j]).is_written(),
        forall|k: int| 0 <= k < table.len() - 1 ==> is_end(#[trigger] ends[k]),
        table.len() > 0 ==> is_end(ends.last()) || (ends.last().len() == 0 && (table.last().len() > 1
            || table.last()[0].text.len() > 0)),
        stands(s, p, table_form(table, ends, i)),
        p + table_form(table, ends, i).len() == s.len(),
    ensures
        rows_from(
            s,
            p,
            false,
            Seq::empty(),
            Seq::empty(),
            table.map_values(|r: Seq<Cell>| texts(r)).take(i),
        ) == table.map_values(|r: Seq<Cell>| texts(r)),
    decreases table.len() - i,
{
    let all = table.map_values(|r: Seq<Cell>| texts(r));
    if i == table.len() {
        assert(all.take(i) =~= all);
    } else {
        let cells = table[i];
        let rest = table_form(table, ends, i + 1);
        let row = row_form(cells, 0, ends[i]);
        lemma_split(s, p, row, rest);
        assert forall|k: int| 0 <= k < cells.len() implies (#[trigger] cells[k]).is_written() by {
            assert(table[i][k].is_written());
        }
        if i == table.len() - 1 {
            assert(rest =~= Seq::empty());
        }
        lemma_row_reads(s, p, cells, 0, ends[i], all.take(i));
        assert(texts(cells).take(0) =~= Seq::empty());
        assert(all.take(i).push(texts(cells)) =~= all.take(i + 1));
        if ends[i].len() == 0 {
            assert(all.take(i + 1) =~= all);
        } else {
            lemma_table_reads(s, p + row.len(), table, ends, i + 1);
        }
    }
}

/// A table is read as its fields, whichever of them are in quotes, with line feeds alone or
/// behind carriage returns, and with or without one behind the last row.
pub proof fn law_table_is_its_fields(table: Seq<Seq<Cell>>, ends: Seq<Seq<char>>)
    requires
        ends.len() == table.len(),
        forall|k: int| 0 <= k < table.len() ==> (#[trigger] table[k]).len() > 0,
        forall|k: int, j: int|
            0 <= k < table.len() && 0 <= j < table[k].len() ==> (
            #[trigger] table[k][j]).is_written(),
        forall|k: int| 0 <= k < table.len() - 1 ==> is_end(#[trigger] ends[k]),
        table.len() > 0 ==> is_end(ends.last()) || (ends.last().len() == 0 && (table.last().len() > 1
            || table.last()[0].text.len() > 0)),
    ensures
        rows(table_form(table, ends, 0)) == table.map_values(|r: Seq<Cell>| texts(r)),
{
    let s = table_form(table, ends, 0);
    assert(s.subrange(0, s.len() as int) =~= s);
    lemma_table_reads(s, 0, table, ends, 0);
    assert(table.map_values(|r: Seq<Cell>| texts(r)).take(0) =~= Seq::empty());
}

// --- features ------------------------------------------------------------------------------

/// The rows with a text in them, behind the first one.
pub open spec fn filled_rows(table: Seq<Seq<Seq<char>>>) -> Seq<Seq<Seq<char>>> {
    table.skip(1).filter(|row: Seq<Seq<char>>| is_filled(row))
}

/// Whether some field of a row has a text.
pub open spec fn is_filled(row: Seq<Seq<char>>) -> bool {
    exists|i: int| 0 <= i < row.len() && (#[trigger] row[i]).len() > 0
}

/// Every row with a text in it is a feature, in their order.
pub proof fn law_every_row_is_a_feature(text: Seq<char>)
    requires
        rows(text).len() > 0,
        forall|i: int|
            0 <= i < filled_rows(rows(text)).len() ==> row_geometry(
                #[trigger] filled_rows(rows(text))[i],
                geometry_column(rows(text)[0], 0),
            ) is Ok,
    ensures
        ({
            let table = rows(text);
            let geom = geometry_column(table[0], 0);
            collection_of(text) matches Ok(c) && c.features == filled_rows(table).map_values(
                |row: Seq<Seq<char>>|
                    Item {
                        geometry: row_geometry(row, geom)->Ok_0,
                        properties: row_properties(table[0], row, geom, 0),
                    },
            )
        }),
{
    let table = rows(text);
    lemma_features(table, 1, Seq::empty());
    let f = |row: Seq<Seq<char>>| is_filled(row);
    let geom = geometry_column(table[0], 0);
    let g = |row: Seq<Seq<char>>|
        Item {
            geometry: row_geometry(row, geom)->Ok_0,
            properties: row_properties(table[0], row, geom, 0),
        };
    let all = table.skip(1).filter(f).map_values(g);
    assert(Seq::empty() + all =~= all);
}

#[verifier::rlimit(30)]
proof fn lemma_features(table: Seq<Seq<Seq<char>>>, i: int, so_far: Seq<Item<Seq<char>, Json>>)
    requires
        1 <= i <= table.len(),
        ({
            let f = |row: Seq<Seq<char>>| is_filled(row);
            forall|k: int|
                0 <= k < table.skip(i).filter(f).len() ==> row_geometry(
                    #[trigger] table.skip(i).filter(f)[k],
                    geometry_column(table[0], 0),
                ) is Ok
        }),
    ensures
        ({
            let geom = geometry_column(table[0], 0);
            let f = |row: Seq<Seq<char>>| is_filled(row);
            let g = |row: Seq<Seq<char>>|
                Item {
                    geometry: row_geometry(row, geom)->Ok_0,
                    properties: row_properties(table[0], row, geom, 0),
                };
            features_from(table, i, so_far) == Ok::<Seq<Item<Seq<char>, Json>>, Failure>(
                so_far + table.skip(i).filter(f).map_values(g),
            )
        }),
    decreases table.len() - i,
{
    let geom = geometry_column(table[0], 0);
    let f = |row: Seq<Seq<char>>| is_filled(row);
    let g = |row: Seq<Seq<char>>|
        Item {
            geometry: row_geometry(row, geom)->Ok_0,
            properties: row_properties(table[0], row, geom, 0),
        };
    reveal(Seq::filter);
    if i == table.len() {
        assert(table.skip(i) =~= Seq::empty());
        assert(so_far + table.skip(i).filter(f).map_values(g) =~= so_far);
    } else {
        let row = table[i];
        let one = seq![row];
        let rest = table.skip(i + 1);
        assert(table.skip(i) =~= one + rest);
        Seq::filter_distributes_over_add(one, rest, f);
        assert(one.drop_last() =~= Seq::empty());
        assert(Seq::<Seq<Seq<char>>>::empty().filter(f) =~= Seq::empty());
        let head = one.filter(f);
        assert(head =~= if f(row) {
            one
        } else {
            Seq::empty()
        });
        let all = head + rest.filter(f);
        assert forall|k: int| 0 <= k < rest.filter(f).len() implies row_geometry(
            #[trigger] rest.filter(f)[k],
            geom,
        ) is Ok by {
            assert(all[head.len() + k] == rest.filter(f)[k]);
        }
        if f(row) {
            assert(!is_blank(row));
            assert(all[0] == row);
            let longer = so_far.push(g(row));
            lemma_features(table, i + 1, longer);
            assert(longer + rest.filter(f).map_values(g) =~= so_far + all.map_values(g));
        } else {
            assert(is_blank(row));
            lemma_features(table, i + 1, so_far);
            assert(all =~= rest.filter(f));
        }
    }
}

/// The properties of a row are its fields under the names of their columns, but for the
/// first column that is named as a geometry.
pub proof fn law_every_field_is_a_property(header: Seq<Seq<char>>, row: Seq<Seq<char>>, g: int)
    requires
        0 <= g <= header.len(),
        forall|k: int| 0 <= k < g ==> !is_geometry_name(#[trigger] header[k]),
        g < header.len() ==> is_geometry_name(header[g]),
    ensures
        ({
            let geom = geometry_column(header, 0);
            let properties = row_properties(header, row, geom, 0);
            &&& geom == if g < header.len() {
                Some(g)
            } else {
                None
            }
            &&& properties.len() == header.len() - (if g < header.len() {
                1int
            } else {
                0
            })
            &&& forall|k: int|
                0 <= k < g ==> #[trigger] properties[k] == property_at(header, row, k)
            &&& forall|k: int|
                g <= k < properties.len() ==> #[trigger] properties[k] == property_at(
                    header,
                    row,
                    k + 1,
                )
        }),
{
    lemma_column(header, 0, g);
    let geom = geometry_column(header, 0);
    lemma_properties(header, row, geom, g, 0);
    let properties = row_properties(header, row, geom, 0);
    assert forall|k: int| 0 <= k < g implies #[trigger] properties[k] == property_at(
        header,
        row,
        k,
    ) by {
        assert(column_at(g, 0, k) == k);
    }
    assert forall|k: int| g <= k < properties.len() implies #[trigger] properties[k] == property_at(
        header,
        row,
        k + 1,
    ) by {
        assert(column_at(g, 0, k) == k + 1);
    }
}

proof fn lemma_column(header: Seq<Seq<char>>, i: int, g: int)
    requires
        0 <= i <= g <= header.len(),
        forall|k: int| 0 <= k < g ==> !is_geometry_name(#[trigger] header[k]),
        g < header.len() ==> is_geometry_name(header[g]),
    ensures
        geometry_column(header, i) == if g < header.len() {
            Some(g)
        } else {
            None
        },
    decreases g - i,
{
    if i < g {
        assert(!is_geometry_name(header[i]));
        lemma_column(header, i + 1, g);
    }
}

/// Which column is the `k`th from `i` on that is not the one numbered `g`.
spec fn column_at(g: int, i: int, k: int) -> int {
    if i + k < g || i > g {
        i + k
    } else {
        i + k + 1
    }
}

/// The property of a column.
pub open spec fn property_at(header: Seq<Seq<char>>, row: Seq<Seq<char>>, c: int) -> (
    Seq<char>,
    Json,
) {
    (
        header[c],
        inferred_value(
            if 0 <= c < row.len() {
                row[c]
            } else {
                Seq::empty()
            },
        ),
    )
}

proof fn lemma_properties(
    header: Seq<Seq<char>>,
    row: Seq<Seq<char>>,
    geom: Option<int>,
    g: int,
    i: int,
)
    requires
        0 <= g <= header.len(),
        0 <= i <= header.len(),
        geom == if g < header.len() {
            Some(g)
        } else {
            None
        },
    ensures
        row_properties(header, row, geom, i).len() == header.len() - i - (if i <= g && g
            < header.len() {
            1int
        } else {
            0
        }),
        forall|k: int|
            0 <= k < row_properties(header, row, geom, i).len() ==> #[trigger] row_properties(
                header,
                row,
                geom,
                i,
            )[k] == property_at(header, row, column_at(g, i, k)),
    decreases header.len() - i,
{
    if i < header.len() {
        lemma_properties(header, row, geom, g, i + 1);
        let p = row_properties(header, row, geom, i);
        let rest = row_properties(header, row, geom, i + 1);
        assert forall|k: int| 0 <= k < p.len() implies #[trigger] p[k] == property_at(
            header,
            row,
            column_at(g, i, k),
        ) by {
            if geom == Some(i) {
                assert(p == rest);
                assert(rest[k] == property_at(header, row, column_at(g, i + 1, k)));
            } else if k > 0 {
                assert(p[k] == rest[k - 1]);
                assert(rest[k - 1] == property_at(header, row, column_at(g, i + 1, k - 1)));
            } else {
                assert(p[0] == (header[i], inferred_value(field_or_empty(row, i))));
            }
        }
    }
}

/// A cell is read as what it says: nothing, a truth value in any case, a number by its
/// worth, and else its own text.
pub proof fn law_cell_is_its_value(cell: Seq<char>)
    ensures
        ({
            let is_sign = |c: char| c == '-' || c == '+' || c == '.';
            let is_numeral = cell.len() > 0 && ('0' <= cell[0] <= '9' || is_sign(cell[0])) && (
            integer_of(cell) is Some || is_finite_text(cell));
            match inferred_value(cell) {
                Json::Null => cell.len() == 0,
                Json::Bool(b) => cell.len() > 0 && lower_text(cell) == (if b {
                    "true"@
                } else {
                    "false"@
                }),
                Json::Number { text, is_int } => is_numeral && (is_tiny_text(cell) || same_number(
                    cell,
                    text,
                )),
                Json::String(s) => s == cell && cell.len() > 0 && !is_numeral && lower_text(cell)
                    != "true"@ && lower_text(cell) != "false"@,
                _ => false,
            }
        }),
{
    if integer_of(cell) is Some {
        law_integer_is_its_numeral(cell);
    }
    if is_finite_text(cell) && !is_tiny_text(cell) {
        law_plain_text_is_the_same_number(cell);
    }
    reveal_strlit("true");
    reveal_strlit("false");
}

} // verus!
