//! What a search of a layer's spatial index finds.
use vstd::prelude::*;

use super::rtree::{
    boxed, cell_bytes, cells_bytes, cells_of, depth_of, first_number, is_nan32,
    law_every_node_is_in_its_parent, law_every_row_is_in_its_leaf, law_leaf_holds_its_rows,
    law_node_holds_the_nodes_below, leaves, level_above, lemma_level_is_spanned,
    lemma_node_rows_count, lemma_numbers_bounded, levels_of, node_bytes, node_count, node_row,
    node_rows, order32, tower, Cell,
};
use crate::bytes::{be_bytes, le_bytes, lemma_le_bytes_len, unsigned};
use crate::feature::Item;
use crate::geometry::ordinate::is_above;
use crate::geometry::{empty_bbox, folded, positions, Bbox};
use crate::sqlite::Stored;

verus! {

// --- reading -------------------------------------------------------------------------------

/// The number in the two bytes at `p`, the most significant first.
#[verifier::opaque]
pub open spec fn short_at(b: Seq<u8>, p: int) -> int {
    0x100 * b[p] + b[p + 1]
}

/// The number in the four bytes at `p`, the most significant first.
#[verifier::opaque]
pub open spec fn word_at(b: Seq<u8>, p: int) -> int {
    0x100_0000 * b[p] + 0x1_0000 * b[p + 1] + 0x100 * b[p + 2] + b[p + 3]
}

/// The signed number in the eight bytes at `p`, the most significant first.
pub open spec fn signed_at(b: Seq<u8>, p: int) -> int {
    let n = 0x1_0000_0000 * word_at(b, p) + word_at(b, p + 4);
    if n < 0x8000_0000_0000_0000 {
        n
    } else {
        n - 0x1_0000_0000_0000_0000
    }
}

/// The number in a cell.
pub open spec fn id_at(b: Seq<u8>, k: int) -> int {
    signed_at(b, 4 + 24 * k)
}

/// The box in a cell: the low and the high x, and the low and the high y.
pub open spec fn box_at(b: Seq<u8>, k: int) -> Cell {
    Cell {
        min_x: word_at(b, 12 + 24 * k) as u32,
        max_x: word_at(b, 16 + 24 * k) as u32,
        min_y: word_at(b, 20 + 24 * k) as u32,
        max_y: word_at(b, 24 + 24 * k) as u32,
    }
}

/// Whether a node has a cell.
pub open spec fn is_cell(b: Seq<u8>, k: int) -> bool {
    0 <= k < short_at(b, 2)
}

/// Whether one number is at most another.
pub open spec fn at_most(a: u32, b: u32) -> bool {
    !is_nan32(a) && !is_nan32(b) && order32(a) <= order32(b)
}

/// Whether two boxes meet.
pub open spec fn meets(a: Cell, b: Cell) -> bool {
    at_most(a.min_x, b.max_x) && at_most(b.min_x, a.max_x) && at_most(a.min_y, b.max_y) && at_most(
        b.min_y,
        a.max_y,
    )
}

/// The node of a number.
pub open spec fn node_of(rows: Seq<(int, Seq<Stored>)>, number: int) -> Seq<u8> {
    let i = choose|i: int| 0 <= i < rows.len() && (#[trigger] rows[i]).0 == number;
    rows[i].1[1]->Blob_0
}

/// Whether a search from a node down finds a row.
pub open spec fn comes_to(
    rows: Seq<(int, Seq<Stored>)>,
    number: int,
    height: nat,
    wanted: Cell,
    row: int,
) -> bool
    decreases height,
{
    let b = node_of(rows, number);
    if height == 0 {
        exists|k: int| #[trigger] is_cell(b, k) && meets(box_at(b, k), wanted) && id_at(b, k) == row
    } else {
        exists|k: int| #[trigger]
            is_cell(b, k) && meets(box_at(b, k), wanted) && comes_to(
                rows,
                id_at(b, k),
                (height - 1) as nat,
                wanted,
                row,
            )
    }
}

/// Whether a search of the nodes finds a row: from the root, which is the node numbered one
/// and states how many levels are below it.
pub open spec fn finds(rows: Seq<(int, Seq<Stored>)>, wanted: Cell, row: int) -> bool {
    comes_to(rows, 1, short_at(node_of(rows, 1), 0) as nat, wanted, row)
}

// --- bytes ---------------------------------------------------------------------------------

proof fn lemma_short(b: Seq<u8>, before: Seq<u8>, n: nat, after: Seq<u8>)
    requires
        b == before + be_bytes(n, 2) + after,
        n < 0x1_0000,
    ensures
        short_at(b, before.len() as int) == n,
        be_bytes(n, 2).len() == 2,
{
    let p = before.len() as int;
    reveal(short_at);
    reveal_with_fuel(le_bytes, 3);
    lemma_le_bytes_len(n, 2);
    let s = le_bytes(n, 2);
    assert(s =~= seq![(n % 256) as u8, (n / 256 % 256) as u8]);
    assert(b[p] == s[1] && b[p + 1] == s[0]);
}

proof fn lemma_word(b: Seq<u8>, before: Seq<u8>, n: nat, after: Seq<u8>)
    requires
        b == before + be_bytes(n, 4) + after,
        n < 0x1_0000_0000,
    ensures
        word_at(b, before.len() as int) == n,
        be_bytes(n, 4).len() == 4,
{
    let p = before.len() as int;
    reveal(word_at);
    reveal_with_fuel(le_bytes, 5);
    lemma_le_bytes_len(n, 4);
    let s = le_bytes(n, 4);
    let d1 = n / 256;
    let d2 = d1 / 256;
    let d3 = d2 / 256;
    assert(s =~= seq![(n % 256) as u8, (d1 % 256) as u8, (d2 % 256) as u8, (d3 % 256) as u8]);
    assert(b[p] == s[3] && b[p + 1] == s[2] && b[p + 2] == s[1] && b[p + 3] == s[0]);
    assert(d3 < 256);
}

proof fn lemma_signed(b: Seq<u8>, before: Seq<u8>, v: int, after: Seq<u8>)
    requires
        b == before + be_bytes(unsigned(v, 0x1_0000_0000_0000_0000), 8) + after,
        i64::MIN <= v <= i64::MAX,
    ensures
        signed_at(b, before.len() as int) == v,
        be_bytes(unsigned(v, 0x1_0000_0000_0000_0000), 8).len() == 8,
{
    let p = before.len() as int;
    let n = unsigned(v, 0x1_0000_0000_0000_0000);
    reveal(word_at);
    reveal_with_fuel(le_bytes, 9);
    lemma_le_bytes_len(n, 8);
    let s = le_bytes(n, 8);
    let d1 = n / 256;
    let d2 = d1 / 256;
    let d3 = d2 / 256;
    let d4 = d3 / 256;
    let d5 = d4 / 256;
    let d6 = d5 / 256;
    let d7 = d6 / 256;
    assert(s =~= seq![
        (n % 256) as u8,
        (d1 % 256) as u8,
        (d2 % 256) as u8,
        (d3 % 256) as u8,
        (d4 % 256) as u8,
        (d5 % 256) as u8,
        (d6 % 256) as u8,
        (d7 % 256) as u8,
    ]);
    assert(b[p] == s[7] && b[p + 1] == s[6] && b[p + 2] == s[5] && b[p + 3] == s[4]);
    assert(b[p + 4] == s[3] && b[p + 5] == s[2] && b[p + 6] == s[1] && b[p + 7] == s[0]);
    assert(d7 < 256);
}

/// Where a cell stands among those of a node.
proof fn lemma_cell_in_place(cells: Seq<(int, Cell)>, k: int) -> (r: (Seq<u8>, Seq<u8>))
    requires
        0 <= k < cells.len(),
    ensures
        cells_bytes(cells) == r.0 + cell_bytes(cells[k].0, cells[k].1) + r.1,
        r.0.len() == 24 * k,
    decreases cells.len(),
{
    let last = cells.last();
    let front = cells_bytes(cells.drop_last());
    if k == cells.len() - 1 {
        lemma_cells_len(cells.drop_last());
        assert(cells_bytes(cells) =~= front + cell_bytes(last.0, last.1) + Seq::empty());
        (front, Seq::empty())
    } else {
        let (a, c) = lemma_cell_in_place(cells.drop_last(), k);
        assert(cells_bytes(cells) =~= a + cell_bytes(cells[k].0, cells[k].1) + (c + cell_bytes(
            last.0,
            last.1,
        )));
        (a, c + cell_bytes(last.0, last.1))
    }
}

proof fn lemma_cells_len(cells: Seq<(int, Cell)>)
    ensures
        cells_bytes(cells).len() == 24 * cells.len(),
    decreases cells.len(),
{
    if cells.len() > 0 {
        let c = cells.last();
        lemma_cells_len(cells.drop_last());
        lemma_le_bytes_len(unsigned(c.0, 0x1_0000_0000_0000_0000), 8);
        lemma_le_bytes_len(c.1.min_x as nat, 4);
        lemma_le_bytes_len(c.1.max_x as nat, 4);
        lemma_le_bytes_len(c.1.min_y as nat, 4);
        lemma_le_bytes_len(c.1.max_y as nat, 4);
    }
}

/// A node is stored as it is read.
proof fn lemma_node_is_stored(depth: nat, cells: Seq<(int, Cell)>, k: int)
    requires
        depth < 0x1_0000,
        cells.len() <= 51,
        0 <= k < cells.len() ==> i64::MIN <= cells[k].0 <= i64::MAX,
    ensures
        short_at(node_bytes(depth, cells), 0) == depth,
        short_at(node_bytes(depth, cells), 2) == cells.len(),
        0 <= k < cells.len() ==> id_at(node_bytes(depth, cells), k) == cells[k].0 && box_at(
            node_bytes(depth, cells),
            k,
        ) == cells[k].1,
{
    let b = node_bytes(depth, cells);
    let d = be_bytes(depth, 2);
    let n = be_bytes(cells.len(), 2);
    let all = cells_bytes(cells);
    let used = d + n + all;
    let pad = Seq::new((1228 - used.len()) as nat, |i: int| 0u8);
    let none = Seq::<u8>::empty();
    assert(b =~= none + d + (n + all + pad));
    lemma_short(b, none, depth, n + all + pad);
    assert(b =~= d + n + (all + pad));
    lemma_short(b, d, cells.len(), all + pad);
    if 0 <= k < cells.len() {
        let (front, rest) = lemma_cell_in_place(cells, k);
        let id = be_bytes(unsigned(cells[k].0, 0x1_0000_0000_0000_0000), 8);
        let c = cells[k].1;
        let x0 = be_bytes(c.min_x as nat, 4);
        let x1 = be_bytes(c.max_x as nat, 4);
        let y0 = be_bytes(c.min_y as nat, 4);
        let y1 = be_bytes(c.max_y as nat, 4);
        let a = d + n + front;
        let z = rest + pad;
        assert(b =~= a + id + (x0 + x1 + y0 + y1 + z));
        lemma_signed(b, a, cells[k].0, x0 + x1 + y0 + y1 + z);
        assert(b =~= (a + id) + x0 + (x1 + y0 + y1 + z));
        lemma_word(b, a + id, c.min_x as nat, x1 + y0 + y1 + z);
        assert(b =~= (a + id + x0) + x1 + (y0 + y1 + z));
        lemma_word(b, a + id + x0, c.max_x as nat, y0 + y1 + z);
        assert(b =~= (a + id + x0 + x1) + y0 + (y1 + z));
        lemma_word(b, a + id + x0 + x1, c.min_y as nat, y1 + z);
        assert(b =~= (a + id + x0 + x1 + y0) + y1 + z);
        lemma_word(b, a + id + x0 + x1 + y0, c.max_y as nat, z);
    }
}

// --- nodes ---------------------------------------------------------------------------------

proof fn lemma_rows_below(levels: Seq<Seq<Cell>>, entries: Seq<(i64, Cell)>, l: int, i: int)
    requires
        0 <= l < levels.len(),
        0 <= i < node_rows(levels, entries, l).len(),
    ensures
        i < node_rows(levels, entries, 0).len(),
        node_rows(levels, entries, 0)[i] == node_rows(levels, entries, l)[i],
    decreases l,
{
    if l > 0 {
        let above = node_rows(levels, entries, l);
        assert(node_rows(levels, entries, l - 1)[i] == above[i]);
        lemma_rows_below(levels, entries, l - 1, i);
    }
}

/// The levels, and how many nodes there are.
proof fn lemma_levels(entries: Seq<(i64, Cell)>)
    requires
        entries.len() < 0x1000_0000_0000_0000,
    ensures
        ({
            let levels = levels_of(entries);
            &&& 1 <= levels.len() <= 64
            &&& levels[0] == leaves(entries)
            &&& levels.last().len() == 1
            &&& node_rows(levels, entries, 0).len() <= 2 * entries.len() + 4
            &&& first_number(levels, levels.len() - 1) == 1
        }),
{
    let levels = levels_of(entries);
    lemma_numbers_bounded(leaves(entries));
    lemma_node_rows_count(levels, entries, 0);
    assert(doubling(61) == 0x2000_0000_0000_0000) by {
        reveal_with_fuel(doubling, 62);
    }
    lemma_tower_height(leaves(entries), 61);
}

spec fn doubling(k: nat) -> nat
    decreases k,
{
    if k == 0 {
        1
    } else {
        2 * doubling((k - 1) as nat)
    }
}

/// A tree over so many cells has not more levels than they have binary digits.
proof fn lemma_tower_height(cells: Seq<Cell>, k: nat)
    requires
        1 <= cells.len() <= doubling(k),
    ensures
        tower(cells).len() <= k + 1,
    decreases k,
{
    if cells.len() > 1 && node_count(cells.len()) < cells.len() {
        let up = level_above(cells);
        assert(up.len() <= (cells.len() + 50) / 51);
        assert(k > 0);
        lemma_tower_height(up, (k - 1) as nat);
    }
}

/// How many cells a node has, and where they are from.
proof fn lemma_chunk(entries: Seq<(i64, Cell)>, l: int, j: int)
    requires
        0 <= l < levels_of(entries).len(),
        0 <= j < levels_of(entries)[l].len(),
    ensures
        ({
            let levels = levels_of(entries);
            let n = if l == 0 {
                entries.len()
            } else {
                levels[l - 1].len()
            };
            &&& cells_of(levels, entries, l, j).len() <= 51
            &&& j * 51 + cells_of(levels, entries, l, j).len() <= n
        }),
{
    let levels = levels_of(entries);
    lemma_numbers_bounded(leaves(entries));
    if l > 0 {
        lemma_level_is_spanned(leaves(entries), l - 1);
    }
}

/// The node of a level is stored under its number.
proof fn lemma_node_row(entries: Seq<(i64, Cell)>, l: int, j: int)
    requires
        entries.len() < 0x1000_0000_0000_0000,
        0 <= l < levels_of(entries).len(),
        0 <= j < levels_of(entries)[l].len(),
    ensures
        ({
            let levels = levels_of(entries);
            node_of(node_rows(levels, entries, 0), first_number(levels, l) + j) == node_bytes(
                depth_of(levels, l),
                cells_of(levels, entries, l, j),
            )
        }),
{
    let levels = levels_of(entries);
    let rows = node_rows(levels, entries, 0);
    let number = first_number(levels, l) + j;
    lemma_numbers_bounded(leaves(entries));
    lemma_node_rows_count(levels, entries, 0);
    lemma_node_rows_count(levels, entries, l);
    let at = number - 1;
    let here = node_rows(levels, entries, l);
    if l == levels.len() - 1 {
        assert(node_rows(levels, entries, l + 1) =~= Seq::empty());
    } else {
        lemma_node_rows_count(levels, entries, l + 1);
    }
    assert(here[at] == node_row(levels, entries, l, j));
    lemma_rows_below(levels, entries, l, at);
    let i = choose|i: int| 0 <= i < rows.len() && (#[trigger] rows[i]).0 == number;
    assert(rows[at].0 == number);
    assert(rows[i].0 == 1 + i);
    assert(i == at);
}

/// What is read of a node of a level.
proof fn lemma_node(entries: Seq<(i64, Cell)>, l: int, j: int, k: int)
    requires
        entries.len() < 0x1000_0000_0000_0000,
        0 <= l < levels_of(entries).len(),
        0 <= j < levels_of(entries)[l].len(),
    ensures
        ({
            let levels = levels_of(entries);
            let rows = node_rows(levels, entries, 0);
            let b = node_of(rows, first_number(levels, l) + j);
            let cells = cells_of(levels, entries, l, j);
            &&& is_cell(b, k) <==> 0 <= k < cells.len()
            &&& is_cell(b, k) ==> id_at(b, k) == cells[k].0 && box_at(b, k) == cells[k].1
            &&& l == levels.len() - 1 ==> short_at(b, 0) == l
        }),
{
    let levels = levels_of(entries);
    let cells = cells_of(levels, entries, l, j);
    lemma_levels(entries);
    lemma_chunk(entries, l, j);
    if 0 <= k < cells.len() {
        lemma_cell_numbers(entries, l, j, k);
    }
    lemma_node_row(entries, l, j);
    lemma_node_is_stored(depth_of(levels, l), cells, k);
}

/// The numbers in cells fit their bytes.
proof fn lemma_cell_numbers(entries: Seq<(i64, Cell)>, l: int, j: int, k: int)
    requires
        entries.len() < 0x1000_0000_0000_0000,
        0 <= l < levels_of(entries).len(),
        0 <= j < levels_of(entries)[l].len(),
        0 <= k < cells_of(levels_of(entries), entries, l, j).len(),
    ensures
        i64::MIN <= cells_of(levels_of(entries), entries, l, j)[k].0 <= i64::MAX,
{
    let levels = levels_of(entries);
    if l > 0 {
        lemma_levels(entries);
        lemma_chunk(entries, l, j);
        lemma_node_rows_count(levels, entries, l - 1);
        let at = first_number(levels, l - 1) - 1 + j * 51 + k;
        lemma_node_rows_count(levels, entries, l);
        lemma_rows_below(levels, entries, l - 1, at);
    }
}

// --- completeness --------------------------------------------------------------------------

/// The node of level `l` that has a row below it.
spec fn above(i: int, l: nat) -> int
    decreases l,
{
    if l == 0 {
        i / 51
    } else {
        above(i, (l - 1) as nat) / 51
    }
}

proof fn lemma_above(entries: Seq<(i64, Cell)>, i: int, l: nat, wanted: Cell)
    requires
        0 <= i < entries.len(),
        l < levels_of(entries).len(),
        meets(entries[i].1, wanted),
    ensures
        0 <= above(i, l) < levels_of(entries)[l as int].len(),
        meets(levels_of(entries)[l as int][above(i, l)], wanted),
    decreases l,
{
    if l == 0 {
        law_every_row_is_in_its_leaf(entries, i);
        law_leaf_holds_its_rows(entries, i);
    } else {
        lemma_above(entries, i, (l - 1) as nat, wanted);
        let j = above(i, (l - 1) as nat);
        law_every_node_is_in_its_parent(entries, l - 1, j);
        law_node_holds_the_nodes_below(entries, l - 1, j);
    }
}

proof fn lemma_comes_to(entries: Seq<(i64, Cell)>, i: int, l: nat, wanted: Cell)
    requires
        entries.len() < 0x1000_0000_0000_0000,
        0 <= i < entries.len(),
        l < levels_of(entries).len(),
        meets(entries[i].1, wanted),
    ensures
        comes_to(
            node_rows(levels_of(entries), entries, 0),
            first_number(levels_of(entries), l as int) + above(i, l),
            l,
            wanted,
            entries[i].0 as int,
        ),
    decreases l,
{
    let levels = levels_of(entries);
    let rows = node_rows(levels, entries, 0);
    let b = node_of(rows, first_number(levels, l as int) + above(i, l));
    lemma_above(entries, i, l, wanted);
    if l == 0 {
        let k = i % 51;
        law_every_row_is_in_its_leaf(entries, i);
        lemma_node(entries, 0, i / 51, k);
        assert(is_cell(b, k));
    } else {
        let j = above(i, (l - 1) as nat);
        let k = j % 51;
        lemma_above(entries, i, (l - 1) as nat, wanted);
        lemma_comes_to(entries, i, (l - 1) as nat, wanted);
        law_every_node_is_in_its_parent(entries, l - 1, j);
        lemma_node(entries, l as int, above(i, l), k);
        assert(is_cell(b, k));
    }
}

// --- soundness -----------------------------------------------------------------------------

/// Whether a row is one of those indexed, with a box that meets another.
pub open spec fn is_met(entries: Seq<(i64, Cell)>, wanted: Cell, row: int) -> bool {
    exists|i: int|
        0 <= i < entries.len() && (#[trigger] entries[i]).0 == row && meets(entries[i].1, wanted)
}

proof fn lemma_is_met(entries: Seq<(i64, Cell)>, l: nat, j: int, wanted: Cell, row: int)
    requires
        entries.len() < 0x1000_0000_0000_0000,
        l < levels_of(entries).len(),
        0 <= j < levels_of(entries)[l as int].len(),
        comes_to(
            node_rows(levels_of(entries), entries, 0),
            first_number(levels_of(entries), l as int) + j,
            l,
            wanted,
            row,
        ),
    ensures
        is_met(entries, wanted, row),
    decreases l,
{
    let levels = levels_of(entries);
    let rows = node_rows(levels, entries, 0);
    let b = node_of(rows, first_number(levels, l as int) + j);
    if l == 0 {
        let k = choose|k: int| #[trigger]
            is_cell(b, k) && meets(box_at(b, k), wanted) && id_at(b, k) == row;
        lemma_node(entries, 0, j, k);
        lemma_chunk(entries, 0, j);
        let i = j * 51 + k;
        assert(entries[i].0 == row);
    } else {
        let k = choose|k: int| #[trigger]
            is_cell(b, k) && meets(box_at(b, k), wanted) && comes_to(
                rows,
                id_at(b, k),
                (l - 1) as nat,
                wanted,
                row,
            );
        lemma_node(entries, l as int, j, k);
        lemma_chunk(entries, l as int, j);
        lemma_is_met(entries, (l - 1) as nat, j * 51 + k, wanted, row);
    }
}

/// A search of the nodes, as they are stored, finds a row where its box meets the one that
/// is searched for, and no other row.
pub proof fn law_search_finds_what_meets(entries: Seq<(i64, Cell)>, wanted: Cell, row: int)
    requires
        entries.len() < 0x1000_0000_0000_0000,
    ensures
        finds(node_rows(levels_of(entries), entries, 0), wanted, row) <==> is_met(
            entries,
            wanted,
            row,
        ),
{
    let levels = levels_of(entries);
    let rows = node_rows(levels, entries, 0);
    let top = levels.len() - 1;
    lemma_levels(entries);
    lemma_node(entries, top, 0, 0);
    if finds(rows, wanted, row) {
        lemma_is_met(entries, top as nat, 0, wanted, row);
    }
    if is_met(entries, wanted, row) {
        let i = choose|i: int|
            0 <= i < entries.len() && (#[trigger] entries[i]).0 == row && meets(
                entries[i].1,
                wanted,
            );
        lemma_above(entries, i, top as nat, wanted);
        lemma_comes_to(entries, i, top as nat, wanted);
        assert(above(i, top as nat) == 0);
    }
}

// --- features ------------------------------------------------------------------------------

/// Every feature whose geometry has a box is indexed under its own number, which counts from
/// one, and nothing else is.
pub proof fn law_features_with_a_box_are_indexed<W>(
    features: Seq<Item<u64, W>>,
    row: int,
    b: Bbox,
)
    ensures
        boxed(features, features.len() as int).contains((row, b)) <==> {
            &&& 1 <= row <= features.len()
            &&& features[row - 1].geometry matches Some(s) && b == folded(
                empty_bbox(),
                positions(s),
            ) && !is_above(b.min_x, b.max_x)
        },
{
    lemma_boxed(features, features.len() as int, row, b);
}

proof fn lemma_boxed<W>(features: Seq<Item<u64, W>>, n: int, row: int, b: Bbox)
    requires
        0 <= n <= features.len(),
    ensures
        boxed(features, n).contains((row, b)) <==> {
            &&& 1 <= row <= n
            &&& features[row - 1].geometry matches Some(s) && b == folded(
                empty_bbox(),
                positions(s),
            ) && !is_above(b.min_x, b.max_x)
        },
    decreases n,
{
    if n > 0 {
        lemma_boxed(features, n - 1, row, b);
        let before = boxed(features, n - 1);
        let after = boxed(features, n);
        if before != after {
            let last = after.last();
            assert(after == before.push(last));
            if before.contains((row, b)) {
                let i = choose|i: int| 0 <= i < before.len() && before[i] == (row, b);
                assert(after[i] == (row, b));
            }
            if last == (row, b) {
                assert(after[before.len() as int] == (row, b));
            }
            if after.contains((row, b)) {
                let i = choose|i: int| 0 <= i < after.len() && after[i] == (row, b);
                if i < before.len() {
                    assert(before[i] == (row, b));
                }
            }
        }
        match features[n - 1].geometry {
            Some(s) => {
                let c = folded(empty_bbox(), positions(s));
                if !is_above(c.min_x, c.max_x) {
                    assert(after == before.push((n, c)));
                    assert(after.len() != before.len());
                }
            },
            None => {},
        }
    }
}

} // verus!
