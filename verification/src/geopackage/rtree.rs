//! The spatial index of a layer: an R*Tree as SQLite stores one.
//!
//! The index of a table is a virtual table, whose tree is in three others: the
//! nodes, which node has each row, and the parent of each node. The tree is
//! packed from the leaves up. The root is the node numbered one; the other nodes
//! are numbered level by level from the root down.
//!
//! A node is stored as a fixed number of bytes: the depth of the tree, which is
//! only given at the root, the number of cells, and the cells. A cell is a number
//! and a box of four single-precision numbers, the low and high X and then Y. All
//! are big-endian.
use vstd::prelude::*;

use crate::bytes::{be_bytes, push_be, unsigned, unsigned64};
use crate::feature::{features_view, FeatureCollection, Item};
use crate::geometry::ordinate::is_above;
use crate::geometry::{empty_bbox, folded, positions, Bbox};
use crate::sort::{is_sorting_of, sorted};
use crate::sqlite::{
    ascends, declarations_view, numbered_view, texts_view, values_view, Declaration, MasterEntry,
    Plan, Stored, TableSpec, Value,
};

verus! {

/// The size of a node.
pub const NODE_SIZE: usize = 1228;

/// How many cells a node has room for.
pub const MAX_CELLS: usize = 51;

/// The bit patterns of the single-precision infinities.
pub const INFINITY_32: u32 = 0x7f80_0000;

pub const NEG_INFINITY_32: u32 = 0xff80_0000;

pub const SIGN_32: u32 = 0x8000_0000;

// --- boxes -----------------------------------------------------------------------------

/// A box of single-precision bit patterns.
#[derive(Debug, Clone, Copy, PartialEq)]
pub struct Cell {
    pub min_x: u32,
    pub max_x: u32,
    pub min_y: u32,
    pub max_y: u32,
}

/// Whether a single-precision pattern is not a number.
pub open spec fn is_nan32(bits: u32) -> bool {
    bits % SIGN_32 > INFINITY_32
}

/// An integer that orders the patterns of numbers as the numbers are ordered.
pub open spec fn order32(bits: u32) -> int {
    if bits >= SIGN_32 {
        SIGN_32 - bits
    } else {
        bits as int
    }
}

/// The smaller of two numbers; the other one where one is not a number.
pub open spec fn lesser32(a: u32, b: u32) -> u32 {
    if is_nan32(a) || (!is_nan32(b) && order32(b) < order32(a)) {
        b
    } else {
        a
    }
}

/// The larger of two numbers; the other one where one is not a number.
pub open spec fn greater32(a: u32, b: u32) -> u32 {
    if is_nan32(a) || (!is_nan32(b) && order32(b) > order32(a)) {
        b
    } else {
        a
    }
}

/// A box without anything in it.
pub open spec fn empty_cell() -> Cell {
    Cell {
        min_x: INFINITY_32,
        max_x: NEG_INFINITY_32,
        min_y: INFINITY_32,
        max_y: NEG_INFINITY_32,
    }
}

/// The box around two boxes.
pub open spec fn union_of(a: Cell, b: Cell) -> Cell {
    Cell {
        min_x: lesser32(a.min_x, b.min_x),
        max_x: greater32(a.max_x, b.max_x),
        min_y: lesser32(a.min_y, b.min_y),
        max_y: greater32(a.max_y, b.max_y),
    }
}

/// The box around boxes.
pub open spec fn around(cells: Seq<Cell>) -> Cell
    decreases cells.len(),
{
    if cells.len() == 0 {
        empty_cell()
    } else {
        union_of(around(cells.drop_last()), cells.last())
    }
}

fn order_of32(bits: u32) -> (r: i64)
    ensures
        r == order32(bits),
{
    if bits >= SIGN_32 {
        SIGN_32 as i64 - bits as i64
    } else {
        bits as i64
    }
}

fn not_a_number32(bits: u32) -> (r: bool)
    ensures
        r == is_nan32(bits),
{
    bits % SIGN_32 > INFINITY_32
}

fn min32(a: u32, b: u32) -> (r: u32)
    ensures
        r == lesser32(a, b),
{
    if not_a_number32(a) || (!not_a_number32(b) && order_of32(b) < order_of32(a)) {
        b
    } else {
        a
    }
}

fn max32(a: u32, b: u32) -> (r: u32)
    ensures
        r == greater32(a, b),
{
    if not_a_number32(a) || (!not_a_number32(b) && order_of32(b) > order_of32(a)) {
        b
    } else {
        a
    }
}

fn union(a: Cell, b: Cell) -> (r: Cell)
    ensures
        r == union_of(a, b),
{
    Cell {
        min_x: min32(a.min_x, b.min_x),
        max_x: max32(a.max_x, b.max_x),
        min_y: min32(a.min_y, b.min_y),
        max_y: max32(a.max_y, b.max_y),
    }
}

// --- what is indexed -------------------------------------------------------------------

/// The rows of the first `n` features that have a box, with their boxes. The
/// number of a row is one more than the feature's.
pub open spec fn boxed<W>(features: Seq<Item<u64, W>>, n: int) -> Seq<(int, Bbox)>
    decreases n,
{
    if n <= 0 {
        Seq::empty()
    } else {
        let before = boxed(features, n - 1);
        match features[n - 1].geometry {
            None => before,
            Some(s) => {
                let b = folded(empty_bbox(), positions(s));
                if is_above(b.min_x, b.max_x) {
                    before
                } else {
                    before.push((n, b))
                }
            },
        }
    }
}

pub open spec fn boxed_view(entries: Seq<(i64, Bbox)>) -> Seq<(int, Bbox)> {
    entries.map_values(|e: (i64, Bbox)| (e.0 as int, e.1))
}

/// The rows to be indexed, with the boxes of their features.
pub fn indexed_rows<P: View>(fc: &FeatureCollection<u64, P>) -> (r: Vec<(i64, Bbox)>)
    requires
        fc.features@.len() < 0x1000_0000_0000_0000,
    ensures
        boxed_view(r@) == boxed(fc@.features, fc@.features.len() as int),
{
    let ghost items = features_view(fc.features@);
    let mut r: Vec<(i64, Bbox)> = Vec::new();
    assert(boxed_view(r@) =~= Seq::empty());
    let mut i: usize = 0;
    while i < fc.features.len()
        invariant
            i <= fc.features@.len() < 0x1000_0000_0000_0000,
            items == features_view(fc.features@),
            boxed_view(r@) == boxed(items, i as int),
        decreases fc.features@.len() - i,
    {
        assert(items[i as int] == fc.features@[i as int]@);
        if let Some(g) = &fc.features[i].geometry {
            let b = g.bbox();
            if !b.is_empty() {
                let ghost before = boxed_view(r@);
                r.push(((i + 1) as i64, b));
                assert(boxed_view(r@) =~= before.push((i + 1, b)));
            }
        }
        i += 1;
    }
    r
}

// --- the tree --------------------------------------------------------------------------

/// How many nodes it takes to hold `n` cells.
pub open spec fn node_count(n: nat) -> nat {
    (n + 50) as nat / 51
}

/// Where the cells of node `j` end.
pub open spec fn chunk_end(n: nat, j: int) -> int {
    if (j + 1) * 51 < n {
        (j + 1) * 51
    } else {
        n as int
    }
}

/// The boxes of the nodes above a level.
pub open spec fn level_above(cells: Seq<Cell>) -> Seq<Cell> {
    Seq::new(
        node_count(cells.len()),
        |j: int| around(cells.subrange(j * 51, chunk_end(cells.len(), j))),
    )
}

/// The levels of the tree over a level, from it up to the root.
pub open spec fn tower(cells: Seq<Cell>) -> Seq<Seq<Cell>>
    decreases cells.len(),
{
    if cells.len() <= 1 || node_count(cells.len()) >= cells.len() {
        seq![cells]
    } else {
        seq![cells] + tower(level_above(cells))
    }
}

/// The boxes of rows.
pub open spec fn entry_cells(entries: Seq<(i64, Cell)>) -> Seq<Cell> {
    entries.map_values(|e: (i64, Cell)| e.1)
}

/// The boxes of the leaves. Over no rows there is one leaf.
pub open spec fn leaves(entries: Seq<(i64, Cell)>) -> Seq<Cell> {
    if entries.len() == 0 {
        seq![Cell { min_x: 0, max_x: 0, min_y: 0, max_y: 0 }]
    } else {
        level_above(entry_cells(entries))
    }
}

/// The levels of the tree over rows, from the leaves up to the root.
pub open spec fn levels_of(entries: Seq<(i64, Cell)>) -> Seq<Seq<Cell>> {
    tower(leaves(entries))
}

/// The number of the first node of a level.
pub open spec fn first_number(levels: Seq<Seq<Cell>>, l: int) -> int
    decreases levels.len() - l,
{
    if l < 0 || l >= levels.len() - 1 {
        1
    } else {
        first_number(levels, l + 1) + levels[l + 1].len()
    }
}

fn level_over(cells: &Vec<Cell>) -> (r: Vec<Cell>)
    ensures
        r@ == level_above(cells@),
{
    let ghost all = level_above(cells@);
    let n: usize = cells.len();
    let mut r: Vec<Cell> = Vec::new();
    let mut i: usize = 0;
    while i < n
        invariant
            i <= n == cells@.len(),
            all == level_above(cells@),
            all.len() == node_count(n as nat),
            r@.len() <= all.len(),
            i == if r@.len() < all.len() {
                r@.len() * 51
            } else {
                n as nat
            },
            r@ == all.take(r@.len() as int),
        decreases n - i,
    {
        let ghost j = r@.len() as int;
        let to: usize = if n - i > MAX_CELLS {
            i + MAX_CELLS
        } else {
            n
        };
        let mut b = Cell {
            min_x: INFINITY_32,
            max_x: NEG_INFINITY_32,
            min_y: INFINITY_32,
            max_y: NEG_INFINITY_32,
        };
        let mut k: usize = i;
        assert(cells@.subrange(i as int, i as int) =~= Seq::empty());
        while k < to
            invariant
                i <= k <= to <= cells@.len(),
                b == around(cells@.subrange(i as int, k as int)),
            decreases to - k,
        {
            b = union(b, cells[k]);
            assert(cells@.subrange(i as int, k + 1).drop_last() =~= cells@.subrange(
                i as int,
                k as int,
            ));
            k += 1;
        }
        r.push(b);
        assert(chunk_end(n as nat, j) == to);
        assert(all[j] == b);
        assert(r@ =~= all.take(j + 1));
        i = to;
    }
    assert(r@ =~= all);
    r
}

pub open spec fn levels_view(levels: Seq<Vec<Cell>>) -> Seq<Seq<Cell>> {
    levels.map_values(|l: Vec<Cell>| l@)
}

fn copied(cells: &Vec<Cell>) -> (r: Vec<Cell>)
    ensures
        r@ == cells@,
{
    let mut r: Vec<Cell> = Vec::new();
    let mut i: usize = 0;
    while i < cells.len()
        invariant
            i <= cells@.len(),
            r@ == cells@.take(i as int),
        decreases cells@.len() - i,
    {
        r.push(cells[i]);
        i += 1;
        assert(r@ =~= cells@.take(i as int));
    }
    assert(cells@.take(i as int) =~= cells@);
    r
}

/// Pack rows into a tree: the boxes of its nodes, level by level from the leaves
/// up to the root.
pub fn pack(entries: &Vec<(i64, Cell)>) -> (levels: Vec<Vec<Cell>>)
    ensures
        levels_view(levels@) == levels_of(entries@),
{
    let mut cells: Vec<Cell> = Vec::new();
    if entries.len() == 0 {
        cells.push(Cell { min_x: 0, max_x: 0, min_y: 0, max_y: 0 });
        assert(cells@ =~= leaves(entries@));
    } else {
        let ghost all = entry_cells(entries@);
        let mut i: usize = 0;
        while i < entries.len()
            invariant
                i <= entries@.len(),
                all == entry_cells(entries@),
                cells@ == all.take(i as int),
            decreases entries@.len() - i,
        {
            cells.push(entries[i].1);
            assert(cells@ =~= all.take(i + 1));
            i += 1;
        }
        assert(cells@ =~= all);
        cells = level_over(&cells);
    }
    let ghost wanted = levels_of(entries@);
    let mut levels: Vec<Vec<Cell>> = Vec::new();
    assert(levels_view(levels@) =~= Seq::empty());
    assert(levels_view(levels@) + tower(cells@) =~= wanted);
    while cells.len() > 1
        invariant
            levels_view(levels@) + tower(cells@) == wanted,
        decreases cells@.len(),
    {
        let up = level_over(&cells);
        let ghost before = levels_view(levels@);
        let ghost below = cells@;
        levels.push(copied(&cells));
        assert(levels_view(levels@) =~= before.push(below));
        cells = up;
        assert(levels_view(levels@) + tower(cells@) =~= before + tower(below));
    }
    let ghost before = levels_view(levels@);
    levels.push(cells);
    assert(levels_view(levels@) =~= before + tower(cells@));
    levels
}

// --- the nodes -------------------------------------------------------------------------

/// A cell as it is stored.
pub open spec fn cell_bytes(id: int, c: Cell) -> Seq<u8> {
    be_bytes(unsigned(id, 0x1_0000_0000_0000_0000), 8) + be_bytes(c.min_x as nat, 4) + be_bytes(
        c.max_x as nat,
        4,
    ) + be_bytes(c.min_y as nat, 4) + be_bytes(c.max_y as nat, 4)
}

/// Cells as they are stored.
pub open spec fn cells_bytes(cells: Seq<(int, Cell)>) -> Seq<u8>
    decreases cells.len(),
{
    if cells.len() == 0 {
        Seq::empty()
    } else {
        cells_bytes(cells.drop_last()) + cell_bytes(cells.last().0, cells.last().1)
    }
}

/// A node as it is stored, with zeros to its fixed size.
pub open spec fn node_bytes(depth: nat, cells: Seq<(int, Cell)>) -> Seq<u8> {
    let used = be_bytes(depth, 2) + be_bytes(cells.len(), 2) + cells_bytes(cells);
    used + Seq::new((1228 - used.len()) as nat, |i: int| 0u8)
}

/// The cells of a node: the rows of a leaf, and else the nodes below with their
/// numbers.
pub open spec fn cells_of(
    levels: Seq<Seq<Cell>>,
    entries: Seq<(i64, Cell)>,
    l: int,
    j: int,
) -> Seq<(int, Cell)> {
    if l <= 0 {
        Seq::new(
            (chunk_end(entries.len(), j) - j * 51) as nat,
            |k: int| (entries[j * 51 + k].0 as int, entries[j * 51 + k].1),
        )
    } else {
        Seq::new(
            (chunk_end(levels[l - 1].len(), j) - j * 51) as nat,
            |k: int| (first_number(levels, l - 1) + j * 51 + k, levels[l - 1][j * 51 + k]),
        )
    }
}

/// The depth that a node of a level gives.
pub open spec fn depth_of(levels: Seq<Seq<Cell>>, l: int) -> nat {
    if l == levels.len() - 1 {
        l as nat
    } else {
        0
    }
}

/// The stored node `j` of level `l`.
pub open spec fn node_row(
    levels: Seq<Seq<Cell>>,
    entries: Seq<(i64, Cell)>,
    l: int,
    j: int,
) -> (int, Seq<Stored>) {
    (
        first_number(levels, l) + j,
        seq![
            Stored::Null,
            Stored::Blob(node_bytes(depth_of(levels, l), cells_of(levels, entries, l, j))),
        ],
    )
}

/// The stored nodes from the root down to level `l`.
pub open spec fn node_rows(
    levels: Seq<Seq<Cell>>,
    entries: Seq<(i64, Cell)>,
    l: int,
) -> Seq<(int, Seq<Stored>)>
    decreases levels.len() - l,
{
    if l < 0 || l >= levels.len() {
        Seq::empty()
    } else {
        node_rows(levels, entries, l + 1) + Seq::new(
            levels[l].len(),
            |j: int| node_row(levels, entries, l, j),
        )
    }
}

/// The parents of the nodes below the root down to level `l`.
pub open spec fn parent_rows(levels: Seq<Seq<Cell>>, l: int) -> Seq<(int, Seq<Stored>)>
    decreases levels.len() - l,
{
    if l < 0 || l >= levels.len() - 1 {
        Seq::empty()
    } else {
        parent_rows(levels, l + 1) + Seq::new(
            levels[l].len(),
            |j: int|
                (
                    first_number(levels, l) + j,
                    seq![Stored::Null, Stored::Int(first_number(levels, l + 1) + j / 51)],
                ),
        )
    }
}

/// Which leaf has each row.
pub open spec fn leaf_pairs(levels: Seq<Seq<Cell>>, entries: Seq<(i64, Cell)>) -> Seq<(i64, i64)> {
    Seq::new(
        entries.len(),
        |i: int| (entries[i].0, (first_number(levels, 0) + i / 51) as i64),
    )
}

/// Pairs of numbers as rows.
pub open spec fn pair_rows(pairs: Seq<(i64, i64)>) -> Seq<(int, Seq<Stored>)> {
    pairs.map_values(
        |p: (i64, i64)| (p.0 as int, seq![Stored::Null, Stored::Int(p.1 as int)]),
    )
}


proof fn lemma_numbers_shift(cells: Seq<Cell>, above: Seq<Seq<Cell>>, l: int)
    requires
        0 <= l < above.len(),
    ensures
        first_number(seq![cells] + above, l + 1) == first_number(above, l),
    decreases above.len() - l,
{
    let all = seq![cells] + above;
    if l < above.len() - 1 {
        lemma_numbers_shift(cells, above, l + 1);
        assert(all[l + 2] == above[l + 1]);
    }
}

/// There are fewer nodes above a level than twice the level.
pub proof fn lemma_numbers_bounded(cells: Seq<Cell>)
    requires
        cells.len() >= 1,
    ensures
        tower(cells).len() >= 1,
        tower(cells)[0] == cells,
        tower(cells).last().len() == 1,
        first_number(tower(cells), 0) <= cells.len() + 1,
    decreases cells.len(),
{
    if cells.len() > 1 {
        let up = level_above(cells);
        lemma_numbers_bounded(up);
        lemma_numbers_shift(cells, tower(up), 0);
        let all = seq![cells] + tower(up);
        assert(all[1] == tower(up)[0]);
        assert(all.last() == tower(up).last());
    }
}

/// Levels nearer to the root have smaller numbers, of one or more.
proof fn lemma_numbers_descend(levels: Seq<Seq<Cell>>, l: int)
    requires
        0 <= l < levels.len(),
    ensures
        1 <= first_number(levels, l) <= first_number(levels, 0),
        l + 1 < levels.len() ==> first_number(levels, l + 1) + levels[l + 1].len() == first_number(
            levels,
            l,
        ),
    decreases l,
{
    lemma_number_is_positive(levels, l);
    if l > 0 {
        lemma_numbers_descend(levels, l - 1);
    }
}

proof fn lemma_number_is_positive(levels: Seq<Seq<Cell>>, l: int)
    ensures
        first_number(levels, l) >= 1,
    decreases levels.len() - l,
{
    if 0 <= l < levels.len() - 1 {
        lemma_number_is_positive(levels, l + 1);
    }
}

/// Whether levels are those of a tree over rows, of which there are not more
/// than memory can hold.
pub open spec fn is_tree(levels: Seq<Seq<Cell>>, entries: Seq<(i64, Cell)>) -> bool {
    levels == levels_of(entries) && entries.len() < 0x1000_0000_0000_0000
}

proof fn lemma_tree_is_bounded(levels: Seq<Seq<Cell>>, entries: Seq<(i64, Cell)>)
    requires
        is_tree(levels, entries),
    ensures
        levels.len() >= 1,
        levels[0] == leaves(entries),
        1 <= levels[0].len() <= entries.len() + 1,
        levels.last().len() == 1,
        first_number(levels, 0) <= entries.len() + 2,
{
    lemma_numbers_bounded(leaves(entries));
}

/// Each level of a tree is spanned by the one above it.
pub proof fn lemma_level_is_spanned(cells: Seq<Cell>, l: int)
    requires
        cells.len() >= 1,
        0 <= l < tower(cells).len() - 1,
    ensures
        tower(cells)[l + 1] == level_above(tower(cells)[l]),
        tower(cells)[l].len() >= 2,
        tower(cells)[l].len() <= cells.len(),
    decreases cells.len(),
{
    let up = level_above(cells);
    lemma_numbers_bounded(up);
    if l > 0 {
        lemma_level_is_spanned(up, l - 1);
        assert(tower(cells)[l] == tower(up)[l - 1]);
        assert(tower(cells)[l + 1] == tower(up)[l]);
    } else {
        assert(tower(cells)[1] == tower(up)[0]);
    }
}

fn first_node_number(levels: &Vec<Vec<Cell>>, entries: &Vec<(i64, Cell)>, l: usize) -> (r: i64)
    requires
        l < levels@.len(),
        is_tree(levels_view(levels@), entries@),
    ensures
        r == first_number(levels_view(levels@), l as int),
        1 <= r <= entries@.len() + 2,
    decreases levels@.len() - l,
{
    let ghost ls = levels_view(levels@);
    proof {
        lemma_tree_is_bounded(ls, entries@);
        lemma_numbers_descend(ls, l as int);
    }
    if l >= levels.len() - 1 {
        1
    } else {
        assert(ls[l + 1] == levels@[l + 1]@);
        first_node_number(levels, entries, l + 1) + levels[l + 1].len() as i64
    }
}

proof fn lemma_cells_bytes_len(cells: Seq<(int, Cell)>)
    ensures
        cells_bytes(cells).len() == 24 * cells.len(),
    decreases cells.len(),
{
    if cells.len() > 0 {
        let (id, c) = cells.last();
        lemma_cells_bytes_len(cells.drop_last());
        crate::bytes::lemma_le_bytes_len(unsigned(id, 0x1_0000_0000_0000_0000), 8);
        crate::bytes::lemma_le_bytes_len(c.min_x as nat, 4);
        crate::bytes::lemma_le_bytes_len(c.max_x as nat, 4);
        crate::bytes::lemma_le_bytes_len(c.min_y as nat, 4);
        crate::bytes::lemma_le_bytes_len(c.max_y as nat, 4);
    }
}

pub open spec fn cells_view(cells: Seq<(i64, Cell)>) -> Seq<(int, Cell)> {
    cells.map_values(|c: (i64, Cell)| (c.0 as int, c.1))
}

/// A node as it is stored.
fn node_blob(depth: u16, cells: &Vec<(i64, Cell)>) -> (out: Vec<u8>)
    requires
        cells@.len() <= 51,
    ensures
        out@ == node_bytes(depth as nat, cells_view(cells@)),
        out@.len() == NODE_SIZE,
{
    let ghost all = cells_view(cells@);
    let mut out: Vec<u8> = Vec::new();
    push_be(&mut out, depth as u64, 2);
    push_be(&mut out, cells.len() as u64, 2);
    let ghost head = out@;
    assert(head =~= be_bytes(depth as nat, 2) + be_bytes(all.len(), 2));
    let mut i: usize = 0;
    assert(head + cells_bytes(all.take(0)) =~= head);
    while i < cells.len()
        invariant
            i <= cells@.len(),
            all == cells_view(cells@),
            out@ == head + cells_bytes(all.take(i as int)),
        decreases cells@.len() - i,
    {
        let ghost before = out@;
        let (id, c) = cells[i];
        push_be(&mut out, unsigned64(id), 8);
        push_be(&mut out, c.min_x as u64, 4);
        push_be(&mut out, c.max_x as u64, 4);
        push_be(&mut out, c.min_y as u64, 4);
        push_be(&mut out, c.max_y as u64, 4);
        assert(out@ =~= before + cell_bytes(id as int, c));
        assert(all.take(i + 1).drop_last() =~= all.take(i as int));
        assert(all.take(i + 1).last() == (id as int, c));
        assert(out@ =~= head + cells_bytes(all.take(i + 1)));
        i += 1;
    }
    assert(all.take(i as int) =~= all);
    let ghost used = out@;
    proof {
        lemma_cells_bytes_len(all);
    }
    let ghost pad = Seq::new((1228 - used.len()) as nat, |i: int| 0u8);
    assert(out@ =~= used + pad.take(0));
    while out.len() < NODE_SIZE
        invariant
            used.len() <= out@.len() <= 1228,
            pad == Seq::new((1228 - used.len()) as nat, |i: int| 0u8),
            out@ == used + pad.take(out@.len() - used.len()),
        decreases 1228 - out@.len(),
    {
        let ghost before = out@;
        out.push(0);
        assert(pad.take(out@.len() - used.len()) =~= pad.take(before.len() - used.len()).push(0u8));
        assert(out@ =~= used + pad.take(out@.len() - used.len()));
    }
    assert(pad.take(out@.len() - used.len()) =~= pad);
    out
}

fn chunk_stop(n: usize, j: usize) -> (r: usize)
    requires
        j * 51 <= n,
    ensures
        r == chunk_end(n as nat, j as int),
        j * 51 <= r <= n,
        r - j * 51 <= 51,
{
    if n - j * 51 > 51 {
        j * 51 + 51
    } else {
        n
    }
}

/// The cells of node `j` of level `l`.
fn node_cells(
    levels: &Vec<Vec<Cell>>,
    entries: &Vec<(i64, Cell)>,
    l: usize,
    j: usize,
) -> (r: Vec<(i64, Cell)>)
    requires
        l < levels@.len(),
        j < levels@[l as int]@.len(),
        is_tree(levels_view(levels@), entries@),
    ensures
        cells_view(r@) == cells_of(levels_view(levels@), entries@, l as int, j as int),
        r@.len() <= 51,
{
    let ghost ls = levels_view(levels@);
    let ghost wanted = cells_of(ls, entries@, l as int, j as int);
    proof {
        lemma_tree_is_bounded(ls, entries@);
        assert(ls[l as int] == levels@[l as int]@);
        if l > 0 {
            lemma_level_is_spanned(leaves(entries@), l - 1);
            assert(ls[l - 1] == levels@[l - 1]@);
        }
    }
    let mut r: Vec<(i64, Cell)> = Vec::new();
    if l == 0 {
        let n: usize = entries.len();
        let stop = chunk_stop(n, j);
        let start: usize = j * 51;
        let mut i: usize = start;
        while i < stop
            invariant
                start == j * 51,
                start <= i <= stop <= entries@.len(),
                wanted == cells_of(ls, entries@, 0, j as int),
                wanted.len() == stop - start,
                cells_view(r@) == wanted.take(i - start),
            decreases stop - i,
        {
            let ghost before = cells_view(r@);
            r.push(entries[i]);
            assert(cells_view(r@) =~= before.push(wanted[i - start]));
            assert(wanted.take(i + 1 - start) =~= wanted.take(i - start).push(wanted[i - start]));
            i += 1;
        }
        assert(cells_view(r@) =~= wanted);
    } else {
        let below = &levels[l - 1];
        let first = first_node_number(levels, entries, l - 1);
        let n: usize = below.len();
        let stop = chunk_stop(n, j);
        let start: usize = j * 51;
        let mut i: usize = start;
        while i < stop
            invariant
                start == j * 51,
                0 < l < levels@.len(),
                start <= i <= stop <= below@.len(),
                below@.len() <= entries@.len() + 1,
                entries@.len() < 0x1000_0000_0000_0000,
                1 <= first <= entries@.len() + 2,
                ls == levels_view(levels@),
                below@ == ls[l - 1],
                first == first_number(ls, l - 1),
                wanted == cells_of(ls, entries@, l as int, j as int),
                wanted.len() == stop - start,
                cells_view(r@) == wanted.take(i - start),
            decreases stop - i,
        {
            let ghost before = cells_view(r@);
            r.push((first + i as i64, below[i]));
            assert(cells_view(r@) =~= before.push(wanted[i - start]));
            assert(wanted.take(i + 1 - start) =~= wanted.take(i - start).push(wanted[i - start]));
            i += 1;
        }
        assert(cells_view(r@) =~= wanted);
    }
    r
}

fn two_values(v: Value) -> (r: Vec<Value>)
    ensures
        values_view(r@) == seq![Stored::Null, v@],
{
    let mut r: Vec<Value> = Vec::new();
    r.push(Value::Null);
    r.push(v);
    assert(values_view(r@) =~= seq![Stored::Null, v@]);
    r
}

/// The rows of the nodes.
fn build_node_rows(levels: &Vec<Vec<Cell>>, entries: &Vec<(i64, Cell)>) -> (rows: Vec<
    (i64, Vec<Value>),
>)
    requires
        is_tree(levels_view(levels@), entries@),
        levels@.len() < 0x1_0000,
    ensures
        numbered_view(rows@) == node_rows(levels_view(levels@), entries@, 0),
{
    let ghost ls = levels_view(levels@);
    let mut rows: Vec<(i64, Vec<Value>)> = Vec::new();
    let mut l: usize = levels.len();
    assert(numbered_view(rows@) =~= Seq::empty());
    while l > 0
        invariant
            l <= levels@.len() < 0x1_0000,
            ls == levels_view(levels@),
            is_tree(ls, entries@),
            numbered_view(rows@) == node_rows(ls, entries@, l as int),
        decreases l,
    {
        l -= 1;
        let ghost above = numbered_view(rows@);
        let ghost level_rows = Seq::new(
            ls[l as int].len(),
            |j: int| node_row(ls, entries@, l as int, j),
        );
        let first = first_node_number(levels, entries, l);
        let depth: u16 = if l + 1 == levels.len() {
            l as u16
        } else {
            0
        };
        proof {
            lemma_tree_is_bounded(ls, entries@);
            lemma_numbers_descend(ls, l as int);
            if l > 0 {
                lemma_level_is_spanned(leaves(entries@), l - 1);
            }
            assert(ls[l as int] == levels@[l as int]@);
        }
        let mut j: usize = 0;
        while j < levels[l].len()
            invariant
                l < levels@.len() < 0x1_0000,
                j <= levels@[l as int]@.len() <= entries@.len() + 1,
                ls == levels_view(levels@),
                is_tree(ls, entries@),
                first == first_number(ls, l as int),
                1 <= first <= entries@.len() + 2,
                depth == depth_of(ls, l as int),
                level_rows == Seq::new(
                    levels@[l as int]@.len(),
                    |j: int| node_row(ls, entries@, l as int, j),
                ),
                numbered_view(rows@) == above + level_rows.take(j as int),
            decreases levels@[l as int]@.len() - j,
        {
            let cells = node_cells(levels, entries, l, j);
            let row = two_values(Value::Blob(node_blob(depth, &cells)));
            let ghost before = numbered_view(rows@);
            let ghost new = ((first + j) as int, values_view(row@));
            rows.push((first + j as i64, row));
            assert(numbered_view(rows@) =~= before.push(new));
            assert(level_rows[j as int] == new);
            assert(level_rows.take(j + 1) =~= level_rows.take(j as int).push(new));
            j += 1;
        }
        assert(level_rows.take(j as int) =~= level_rows);
        assert(numbered_view(rows@) =~= node_rows(ls, entries@, l as int));
    }
    rows
}

/// The rows of the parents.
fn build_parent_rows(levels: &Vec<Vec<Cell>>, entries: &Vec<(i64, Cell)>) -> (rows: Vec<
    (i64, Vec<Value>),
>)
    requires
        is_tree(levels_view(levels@), entries@),
    ensures
        numbered_view(rows@) == parent_rows(levels_view(levels@), 0),
{
    let ghost ls = levels_view(levels@);
    proof {
        lemma_tree_is_bounded(ls, entries@);
    }
    let mut rows: Vec<(i64, Vec<Value>)> = Vec::new();
    let mut l: usize = levels.len() - 1;
    assert(numbered_view(rows@) =~= Seq::empty());
    while l > 0
        invariant
            l < levels@.len(),
            ls == levels_view(levels@),
            is_tree(ls, entries@),
            numbered_view(rows@) == parent_rows(ls, l as int),
        decreases l,
    {
        l -= 1;
        let ghost above = numbered_view(rows@);
        let ghost level_rows = Seq::new(
            ls[l as int].len(),
            |j: int|
                (
                    first_number(ls, l as int) + j,
                    seq![Stored::Null, Stored::Int(first_number(ls, l + 1) + j / 51)],
                ),
        );
        let first = first_node_number(levels, entries, l);
        let parent = first_node_number(levels, entries, l + 1);
        proof {
            lemma_tree_is_bounded(ls, entries@);
            lemma_level_is_spanned(leaves(entries@), l as int);
            assert(ls[l as int] == levels@[l as int]@);
        }
        let mut j: usize = 0;
        while j < levels[l].len()
            invariant
                l + 1 < levels@.len(),
                j <= levels@[l as int]@.len() <= entries@.len() + 1,
                entries@.len() < 0x1000_0000_0000_0000,
                first == first_number(ls, l as int),
                parent == first_number(ls, l + 1),
                1 <= first <= entries@.len() + 2,
                1 <= parent <= entries@.len() + 2,
                level_rows == Seq::new(
                    levels@[l as int]@.len(),
                    |j: int|
                        (
                            first_number(ls, l as int) + j,
                            seq![Stored::Null, Stored::Int(first_number(ls, l + 1) + j / 51)],
                        ),
                ),
                numbered_view(rows@) == above + level_rows.take(j as int),
            decreases levels@[l as int]@.len() - j,
        {
            let row = two_values(Value::Int(parent + (j / 51) as i64));
            let ghost before = numbered_view(rows@);
            let ghost new = ((first + j) as int, values_view(row@));
            rows.push((first + j as i64, row));
            assert(numbered_view(rows@) =~= before.push(new));
            assert(level_rows[j as int] == new);
            assert(level_rows.take(j + 1) =~= level_rows.take(j as int).push(new));
            j += 1;
        }
        assert(level_rows.take(j as int) =~= level_rows);
        assert(numbered_view(rows@) =~= parent_rows(ls, l as int));
    }
    rows
}

/// Which leaf has each row, in the order of the rows' numbers.
fn build_rowid_rows(levels: &Vec<Vec<Cell>>, entries: &Vec<(i64, Cell)>) -> (rows: Vec<
    (i64, Vec<Value>),
>)
    requires
        is_tree(levels_view(levels@), entries@),
    ensures
        exists|pairs: Seq<(i64, i64)>| #[trigger]
            is_sorting_of(pairs, leaf_pairs(levels_view(levels@), entries@)) && numbered_view(rows@)
                == pair_rows(pairs),
{
    let ghost ls = levels_view(levels@);
    proof {
        lemma_tree_is_bounded(ls, entries@);
    }
    let first = first_node_number(levels, entries, 0);
    let ghost all = leaf_pairs(ls, entries@);
    let mut pairs: Vec<(i64, i64)> = Vec::new();
    let mut i: usize = 0;
    while i < entries.len()
        invariant
            i <= entries@.len() < 0x1000_0000_0000_0000,
            1 <= first <= entries@.len() + 2,
            first == first_number(ls, 0),
            all == leaf_pairs(ls, entries@),
            pairs@ == all.take(i as int),
        decreases entries@.len() - i,
    {
        pairs.push((entries[i].0, first + (i / 51) as i64));
        assert(pairs@ =~= all.take(i + 1));
        i += 1;
    }
    assert(pairs@ =~= all);
    let in_order = sorted(&pairs);
    let ghost wanted = pair_rows(in_order@);
    let mut rows: Vec<(i64, Vec<Value>)> = Vec::new();
    let mut k: usize = 0;
    while k < in_order.len()
        invariant
            k <= in_order@.len(),
            wanted == pair_rows(in_order@),
            numbered_view(rows@) == wanted.take(k as int),
        decreases in_order@.len() - k,
    {
        let (id, node) = in_order[k];
        let row = two_values(Value::Int(node));
        let ghost before = numbered_view(rows@);
        let ghost new = (id as int, values_view(row@));
        rows.push((id, row));
        assert(numbered_view(rows@) =~= before.push(new));
        assert(wanted[k as int] == new);
        assert(wanted.take(k + 1) =~= wanted.take(k as int).push(new));
        k += 1;
    }
    assert(wanted.take(k as int) =~= wanted);
    rows
}


/// The powers of the number of cells.
pub open spec fn pow51(k: nat) -> nat
    decreases k,
{
    if k == 0 {
        1
    } else {
        51 * pow51((k - 1) as nat)
    }
}

/// A tree has few levels.
proof fn lemma_depth(cells: Seq<Cell>, k: nat)
    requires
        cells.len() >= 1,
        cells.len() <= pow51(k),
    ensures
        tower(cells).len() <= k + 1,
    decreases k,
{
    if cells.len() > 1 {
        assert(k > 0);
        let up = level_above(cells);
        assert(up.len() <= pow51((k - 1) as nat));
        lemma_depth(up, (k - 1) as nat);
    }
}

// --- the tables and triggers -----------------------------------------------------------

/// The spatial index of a layer: its tables, and the schema entries of the
/// virtual table and the triggers.
#[derive(Debug, PartialEq)]
pub struct Rtree {
    pub tables: Vec<TableSpec>,
    pub master: Vec<MasterEntry>,
}

/// The name of the virtual table.
pub open spec fn rtree_name(table: Seq<char>) -> Seq<char> {
    "rtree_"@ + table + "_geom"@
}

/// The definition of one of the tables that hold the tree.
pub open spec fn shadow_sql(name: Seq<char>, columns: Seq<char>) -> Seq<char> {
    "CREATE TABLE \""@ + name + "\"("@ + columns + ")"@
}

/// A trigger.
pub open spec fn trigger_sql(
    name: Seq<char>,
    event: Seq<char>,
    table: Seq<char>,
    condition: Seq<char>,
    body: Seq<char>,
) -> Seq<char> {
    "CREATE TRIGGER \""@ + name + "\" AFTER "@ + event + " ON \""@ + table + "\" WHEN "@ + condition
        + " BEGIN "@ + body + " END"@
}

/// The statement that puts a changed row into the index.
pub open spec fn insert_sql(rtree: Seq<char>) -> Seq<char> {
    "INSERT OR REPLACE INTO \""@ + rtree
        + "\" VALUES (NEW.\"fid\",ST_MinX(NEW.\"geom\"),ST_MaxX(NEW.\"geom\"),ST_MinY(NEW.\"geom\"),ST_MaxY(NEW.\"geom\"));"@
}

/// The statement that takes rows out of the index.
pub open spec fn delete_sql(rtree: Seq<char>, condition: Seq<char>) -> Seq<char> {
    "DELETE FROM \""@ + rtree + "\" WHERE "@ + condition + ";"@
}

/// A trigger's schema entry.
pub open spec fn trigger_of(
    table: Seq<char>,
    suffix: Seq<char>,
    event: Seq<char>,
    condition: Seq<char>,
    body: Seq<char>,
) -> Declaration {
    let name = rtree_name(table) + "_"@ + suffix;
    Declaration {
        kind: "trigger"@,
        name,
        tbl_name: table,
        sql: trigger_sql(name, event, table, condition, body),
    }
}

/// The triggers that keep the index in step with the table: after an insertion,
/// after a change that keeps or moves the row and leaves it with or without a
/// geometry, and after a deletion.
pub open spec fn triggers_of(table: Seq<char>) -> Seq<Declaration> {
    let rtree = rtree_name(table);
    let old_row = delete_sql(rtree, "id=OLD.\"fid\""@);
    seq![
        trigger_of(
            table,
            "insert"@,
            "INSERT"@,
            "(new.\"geom\" NOT NULL AND NOT ST_IsEmpty(NEW.\"geom\"))"@,
            insert_sql(rtree),
        ),
        trigger_of(
            table,
            "update1"@,
            "UPDATE OF \"geom\""@,
            "OLD.\"fid\"=NEW.\"fid\" AND (NEW.\"geom\" NOTNULL AND NOT ST_IsEmpty(NEW.\"geom\"))"@,
            insert_sql(rtree),
        ),
        trigger_of(
            table,
            "update2"@,
            "UPDATE OF \"geom\""@,
            "OLD.\"fid\"=NEW.\"fid\" AND (NEW.\"geom\" ISNULL OR ST_IsEmpty(NEW.\"geom\"))"@,
            old_row,
        ),
        trigger_of(
            table,
            "update3"@,
            "UPDATE"@,
            "OLD.\"fid\"!=NEW.\"fid\" AND (NEW.\"geom\" NOTNULL AND NOT ST_IsEmpty(NEW.\"geom\"))"@,
            old_row + " "@ + insert_sql(rtree),
        ),
        trigger_of(
            table,
            "update4"@,
            "UPDATE"@,
            "OLD.\"fid\"!=NEW.\"fid\" AND (NEW.\"geom\" ISNULL OR ST_IsEmpty(NEW.\"geom\"))"@,
            delete_sql(rtree, "id IN (OLD.\"fid\",NEW.\"fid\")"@),
        ),
        trigger_of(table, "delete"@, "DELETE"@, "old.\"geom\" NOT NULL"@, old_row),
    ]
}

/// The schema entry of the virtual table.
pub open spec fn virtual_table(table: Seq<char>) -> Declaration {
    let name = rtree_name(table);
    Declaration {
        kind: "table"@,
        name,
        tbl_name: name,
        sql: "CREATE VIRTUAL TABLE \""@ + name + "\" USING rtree(id, minx, maxx, miny, maxy)"@,
    }
}

/// The schema entries of an index.
pub open spec fn declarations_of(table: Seq<char>) -> Seq<Declaration> {
    seq![virtual_table(table)] + triggers_of(table)
}

/// The table of nodes.
pub open spec fn node_plan(table: Seq<char>, entries: Seq<(i64, Cell)>) -> Plan {
    let name = rtree_name(table) + "_node"@;
    Plan {
        name,
        sql: shadow_sql(name, "nodeno INTEGER PRIMARY KEY,data"@),
        rows: node_rows(levels_of(entries), entries, 0),
    }
}

/// The table of which leaf has each row.
pub open spec fn is_rowid_plan(plan: Plan, table: Seq<char>, entries: Seq<(i64, Cell)>) -> bool {
    let name = rtree_name(table) + "_rowid"@;
    &&& plan.name == name
    &&& plan.sql == shadow_sql(name, "rowid INTEGER PRIMARY KEY,nodeno"@)
    &&& exists|pairs: Seq<(i64, i64)>| #[trigger]
        is_sorting_of(pairs, leaf_pairs(levels_of(entries), entries)) && plan.rows == pair_rows(
            pairs,
        )
}

/// The table of the parents.
pub open spec fn parent_plan(table: Seq<char>, entries: Seq<(i64, Cell)>) -> Plan {
    let name = rtree_name(table) + "_parent"@;
    Plan {
        name,
        sql: shadow_sql(name, "nodeno INTEGER PRIMARY KEY,parentnode"@),
        rows: parent_rows(levels_of(entries), 0),
    }
}

fn name_of(table: &str) -> (r: String)
    ensures
        r@ == rtree_name(table@),
{
    let mut r = String::from_str("rtree_");
    r.append(table);
    r.append("_geom");
    r
}

fn shadow_table(name: &str, suffix: &str, columns: &str, rows: Vec<(i64, Vec<Value>)>) -> (r:
    TableSpec)
    ensures
        r@ == (Plan {
            name: name@ + suffix@,
            sql: shadow_sql(name@ + suffix@, columns@),
            rows: numbered_view(rows@),
        }),
{
    let mut full = String::from_str(name);
    full.append(suffix);
    let mut sql = String::from_str("CREATE TABLE \"");
    sql.append(full.as_str());
    sql.append("\"(");
    sql.append(columns);
    sql.append(")");
    TableSpec { name: full, sql, rows }
}

fn insert_text(rtree: &str) -> (r: String)
    ensures
        r@ == insert_sql(rtree@),
{
    let mut r = String::from_str("INSERT OR REPLACE INTO \"");
    r.append(rtree);
    r.append(
        "\" VALUES (NEW.\"fid\",ST_MinX(NEW.\"geom\"),ST_MaxX(NEW.\"geom\"),ST_MinY(NEW.\"geom\"),ST_MaxY(NEW.\"geom\"));",
    );
    r
}

fn delete_text(rtree: &str, condition: &str) -> (r: String)
    ensures
        r@ == delete_sql(rtree@, condition@),
{
    let mut r = String::from_str("DELETE FROM \"");
    r.append(rtree);
    r.append("\" WHERE ");
    r.append(condition);
    r.append(";");
    r
}

fn trigger(table: &str, suffix: &str, event: &str, condition: &str, body: &str) -> (r: MasterEntry)
    ensures
        r@ == trigger_of(table@, suffix@, event@, condition@, body@),
{
    let mut name = name_of(table);
    name.append("_");
    name.append(suffix);
    let mut sql = String::from_str("CREATE TRIGGER \"");
    sql.append(name.as_str());
    sql.append("\" AFTER ");
    sql.append(event);
    sql.append(" ON \"");
    sql.append(table);
    sql.append("\" WHEN ");
    sql.append(condition);
    sql.append(" BEGIN ");
    sql.append(body);
    sql.append(" END");
    MasterEntry {
        kind: String::from_str("trigger"),
        name,
        tbl_name: String::from_str(table),
        sql,
    }
}

/// The schema entries of an index.
fn declarations(table: &str) -> (r: Vec<MasterEntry>)
    ensures
        declarations_view(r@) == declarations_of(table@),
{
    let rtree = name_of(table);
    let insert = insert_text(rtree.as_str());
    let old_row = delete_text(rtree.as_str(), "id=OLD.\"fid\"");
    let both = delete_text(rtree.as_str(), "id IN (OLD.\"fid\",NEW.\"fid\")");
    let mut moved = String::from_str(old_row.as_str());
    moved.append(" ");
    moved.append(insert.as_str());
    let mut sql = String::from_str("CREATE VIRTUAL TABLE \"");
    sql.append(rtree.as_str());
    sql.append("\" USING rtree(id, minx, maxx, miny, maxy)");
    let head = MasterEntry {
        kind: String::from_str("table"),
        name: String::from_str(rtree.as_str()),
        tbl_name: String::from_str(rtree.as_str()),
        sql,
    };
    let a = trigger(
        table,
        "insert",
        "INSERT",
        "(new.\"geom\" NOT NULL AND NOT ST_IsEmpty(NEW.\"geom\"))",
        insert.as_str(),
    );
    let b = trigger(
        table,
        "update1",
        "UPDATE OF \"geom\"",
        "OLD.\"fid\"=NEW.\"fid\" AND (NEW.\"geom\" NOTNULL AND NOT ST_IsEmpty(NEW.\"geom\"))",
        insert.as_str(),
    );
    let c = trigger(
        table,
        "update2",
        "UPDATE OF \"geom\"",
        "OLD.\"fid\"=NEW.\"fid\" AND (NEW.\"geom\" ISNULL OR ST_IsEmpty(NEW.\"geom\"))",
        old_row.as_str(),
    );
    let d = trigger(
        table,
        "update3",
        "UPDATE",
        "OLD.\"fid\"!=NEW.\"fid\" AND (NEW.\"geom\" NOTNULL AND NOT ST_IsEmpty(NEW.\"geom\"))",
        moved.as_str(),
    );
    let e = trigger(
        table,
        "update4",
        "UPDATE",
        "OLD.\"fid\"!=NEW.\"fid\" AND (NEW.\"geom\" ISNULL OR ST_IsEmpty(NEW.\"geom\"))",
        both.as_str(),
    );
    let f = trigger(table, "delete", "DELETE", "old.\"geom\" NOT NULL", old_row.as_str());
    let ghost all = seq![head@, a@, b@, c@, d@, e@, f@];
    let mut r: Vec<MasterEntry> = Vec::new();
    r.push(head);
    r.push(a);
    r.push(b);
    r.push(c);
    r.push(d);
    r.push(e);
    r.push(f);
    assert(declarations_view(r@) =~= all);
    assert(declarations_of(table@) =~= all);
    r
}

/// Build the index of a table over rows, which are in the order that the leaves
/// take them in: the order of their boxes along a Hilbert curve.
pub fn build(table: &str, entries: &Vec<(i64, Cell)>) -> (r: Rtree)
    requires
        entries@.len() < 0x1000_0000_0000_0000,
    ensures
        r.tables@.len() == 3,
        r.tables@[0]@ == node_plan(table@, entries@),
        is_rowid_plan(r.tables@[1]@, table@, entries@),
        r.tables@[2]@ == parent_plan(table@, entries@),
        declarations_view(r.master@) == declarations_of(table@),
{
    let levels = pack(entries);
    proof {
        lemma_tree_is_bounded(levels_view(levels@), entries@);
        reveal_with_fuel(pow51, 12);
        lemma_depth(leaves(entries@), 11);
    }
    let name = name_of(table);
    let node = shadow_table(
        name.as_str(),
        "_node",
        "nodeno INTEGER PRIMARY KEY,data",
        build_node_rows(&levels, entries),
    );
    let rowid = shadow_table(
        name.as_str(),
        "_rowid",
        "rowid INTEGER PRIMARY KEY,nodeno",
        build_rowid_rows(&levels, entries),
    );
    let parent = shadow_table(
        name.as_str(),
        "_parent",
        "nodeno INTEGER PRIMARY KEY,parentnode",
        build_parent_rows(&levels, entries),
    );
    let mut tables: Vec<TableSpec> = Vec::new();
    tables.push(node);
    tables.push(rowid);
    tables.push(parent);
    Rtree { tables, master: declarations(table) }
}

/// The row that registers the index of a layer.
pub open spec fn extension_row(name: Seq<char>) -> Seq<Stored> {
    seq![
        Stored::Text(name),
        Stored::Text("geom"@),
        Stored::Text("gpkg_rtree_index"@),
        Stored::Text("http://www.geopackage.org/spec120/#extension_rtree"@),
        Stored::Text("write-only"@),
    ]
}

/// The table of extensions, with the index of each layer.
pub open spec fn extensions_plan(layers: Seq<Seq<char>>) -> Plan {
    Plan {
        name: "gpkg_extensions"@,
        sql:
            "CREATE TABLE gpkg_extensions (table_name TEXT, column_name TEXT, extension_name TEXT NOT NULL, definition TEXT NOT NULL, scope TEXT NOT NULL)"@,
        rows: Seq::new(layers.len(), |i: int| (i + 1, extension_row(layers[i]))),
    }
}

/// A row of five texts.
pub(crate) fn five_texts(a: &str, b: &str, c: &str, d: &str, e: &str) -> (r: Vec<Value>)
    ensures
        values_view(r@) == seq![
            Stored::Text(a@),
            Stored::Text(b@),
            Stored::Text(c@),
            Stored::Text(d@),
            Stored::Text(e@),
        ],
{
    let mut r: Vec<Value> = Vec::new();
    r.push(Value::Text(String::from_str(a)));
    r.push(Value::Text(String::from_str(b)));
    r.push(Value::Text(String::from_str(c)));
    r.push(Value::Text(String::from_str(d)));
    r.push(Value::Text(String::from_str(e)));
    assert(values_view(r@) =~= seq![
        Stored::Text(a@),
        Stored::Text(b@),
        Stored::Text(c@),
        Stored::Text(d@),
        Stored::Text(e@),
    ]);
    r
}

/// The row that registers the index of a layer.
pub fn registration(name: &str) -> (r: Vec<Value>)
    ensures
        values_view(r@) == extension_row(name@),
{
    five_texts(
        name,
        "geom",
        "gpkg_rtree_index",
        "http://www.geopackage.org/spec120/#extension_rtree",
        "write-only",
    )
}

/// The table of extensions, with the index of each layer.
pub fn extensions_table(layers: &Vec<String>) -> (r: TableSpec)
    requires
        layers@.len() < 0x1000_0000_0000_0000,
    ensures
        r@ == extensions_plan(texts_view(layers@)),
{
    let ghost all = extensions_plan(texts_view(layers@)).rows;
    let mut rows: Vec<(i64, Vec<Value>)> = Vec::new();
    let mut i: usize = 0;
    while i < layers.len()
        invariant
            i <= layers@.len() < 0x1000_0000_0000_0000,
            all == extensions_plan(texts_view(layers@)).rows,
            numbered_view(rows@) == all.take(i as int),
        decreases layers@.len() - i,
    {
        let row = registration(layers[i].as_str());
        let ghost before = numbered_view(rows@);
        let ghost new = (i + 1, values_view(row@));
        rows.push(((i + 1) as i64, row));
        assert(numbered_view(rows@) =~= before.push(new));
        assert(all[i as int] == new);
        assert(all.take(i + 1) =~= all.take(i as int).push(new));
        i += 1;
    }
    assert(all.take(i as int) =~= all);
    TableSpec {
        name: String::from_str("gpkg_extensions"),
        sql: String::from_str(
            "CREATE TABLE gpkg_extensions (table_name TEXT, column_name TEXT, extension_name TEXT NOT NULL, definition TEXT NOT NULL, scope TEXT NOT NULL)",
        ),
        rows,
    }
}

// --- laws ------------------------------------------------------------------------------

/// Rows numbered from one number up to another, one by one.
pub open spec fn counts(rows: Seq<(int, Seq<Stored>)>, first: int) -> bool {
    forall|i: int| 0 <= i < rows.len() ==> (#[trigger] rows[i]).0 == first + i
}

/// The nodes are stored in the order of their numbers: the root, numbered one,
/// comes first, and no number is left out.
pub proof fn law_nodes_are_numbered_in_order(entries: Seq<(i64, Cell)>)
    ensures
        counts(node_rows(levels_of(entries), entries, 0), 1),
        ascends(node_rows(levels_of(entries), entries, 0)),
        node_rows(levels_of(entries), entries, 0).len() >= 1,
{
    let levels = levels_of(entries);
    lemma_numbers_bounded(leaves(entries));
    lemma_node_rows_count(levels, entries, 0);
}

pub proof fn lemma_node_rows_count(levels: Seq<Seq<Cell>>, entries: Seq<(i64, Cell)>, l: int)
    requires
        0 <= l < levels.len(),
        levels.last().len() == 1,
    ensures
        counts(node_rows(levels, entries, l), 1),
        node_rows(levels, entries, l).len() == first_number(levels, l) - 1 + levels[l].len(),
        ascends(node_rows(levels, entries, l)),
    decreases levels.len() - l,
{
    let above = node_rows(levels, entries, l + 1);
    let here = Seq::new(levels[l].len(), |j: int| node_row(levels, entries, l, j));
    if l < levels.len() - 1 {
        lemma_node_rows_count(levels, entries, l + 1);
    } else {
        assert(above =~= Seq::empty());
    }
    assert forall|i: int| 0 <= i < (above + here).len() implies (#[trigger] (above + here)[i]).0
        == 1 + i by {
        if i < above.len() {
            assert((above + here)[i] == above[i]);
        } else {
            assert((above + here)[i] == here[i - above.len()]);
        }
    }
}

/// The nodes below the root are listed with their parents in the order of their
/// numbers, each once.
pub proof fn law_parents_are_numbered_in_order(entries: Seq<(i64, Cell)>)
    ensures
        counts(parent_rows(levels_of(entries), 0), 2),
        ascends(parent_rows(levels_of(entries), 0)),
        parent_rows(levels_of(entries), 0).len() + 1 == node_rows(
            levels_of(entries),
            entries,
            0,
        ).len(),
{
    let levels = levels_of(entries);
    lemma_numbers_bounded(leaves(entries));
    lemma_node_rows_count(levels, entries, 0);
    lemma_parent_rows_count(levels, 0);
}

proof fn lemma_parent_rows_count(levels: Seq<Seq<Cell>>, l: int)
    requires
        0 <= l < levels.len(),
        levels.last().len() == 1,
    ensures
        counts(parent_rows(levels, l), 2),
        parent_rows(levels, l).len() == first_number(levels, l) - 2 + levels[l].len(),
        ascends(parent_rows(levels, l)),
    decreases levels.len() - l,
{
    if l < levels.len() - 1 {
        let above = parent_rows(levels, l + 1);
        let here = Seq::new(
            levels[l].len(),
            |j: int|
                (
                    first_number(levels, l) + j,
                    seq![Stored::Null, Stored::Int(first_number(levels, l + 1) + j / 51)],
                ),
        );
        lemma_parent_rows_count(levels, l + 1);
        assert forall|i: int| 0 <= i < (above + here).len() implies (#[trigger] (above + here)[i]).0
            == 2 + i by {
            if i < above.len() {
                assert((above + here)[i] == above[i]);
            } else {
                assert((above + here)[i] == here[i - above.len()]);
            }
        }
    } else {
        assert(parent_rows(levels, l) =~= Seq::empty());
    }
}

/// Row `i` is in a cell of leaf `i / 51`, with its box.
pub proof fn law_every_row_is_in_its_leaf(entries: Seq<(i64, Cell)>, i: int)
    requires
        0 <= i < entries.len(),
    ensures
        ({
            let levels = levels_of(entries);
            let j = i / 51;
            let cells = cells_of(levels, entries, 0, j);
            &&& 0 <= j < levels[0].len()
            &&& 0 <= i % 51 < cells.len() <= 51
            &&& cells[i % 51] == (entries[i].0 as int, entries[i].1)
        }),
{
    lemma_numbers_bounded(leaves(entries));
}

/// Every node below the root is in a cell of its parent, with its number and its
/// box.
pub proof fn law_every_node_is_in_its_parent(entries: Seq<(i64, Cell)>, l: int, j: int)
    requires
        0 <= l < levels_of(entries).len() - 1,
        0 <= j < levels_of(entries)[l].len(),
    ensures
        ({
            let levels = levels_of(entries);
            let cells = cells_of(levels, entries, l + 1, j / 51);
            &&& 0 <= j / 51 < levels[l + 1].len()
            &&& 0 <= j % 51 < cells.len() <= 51
            &&& cells[j % 51] == (first_number(levels, l) + j, levels[l][j])
        }),
{
    lemma_numbers_bounded(leaves(entries));
    lemma_level_is_spanned(leaves(entries), l);
}

/// Whether a box, in each bound that is a number, lies within another.
pub open spec fn lies_within(inner: Cell, outer: Cell) -> bool {
    &&& !is_nan32(inner.min_x) ==> !is_nan32(outer.min_x) && order32(outer.min_x) <= order32(
        inner.min_x,
    )
    &&& !is_nan32(inner.max_x) ==> !is_nan32(outer.max_x) && order32(outer.max_x) >= order32(
        inner.max_x,
    )
    &&& !is_nan32(inner.min_y) ==> !is_nan32(outer.min_y) && order32(outer.min_y) <= order32(
        inner.min_y,
    )
    &&& !is_nan32(inner.max_y) ==> !is_nan32(outer.max_y) && order32(outer.max_y) >= order32(
        inner.max_y,
    )
}

proof fn lemma_around_holds(cells: Seq<Cell>, i: int)
    requires
        0 <= i < cells.len(),
    ensures
        lies_within(cells[i], around(cells)),
    decreases cells.len(),
{
    if i < cells.len() - 1 {
        lemma_around_holds(cells.drop_last(), i);
    }
}

/// The box of a node holds the boxes of the nodes below it.
pub proof fn law_node_holds_the_nodes_below(entries: Seq<(i64, Cell)>, l: int, j: int)
    requires
        0 <= l < levels_of(entries).len() - 1,
        0 <= j < levels_of(entries)[l].len(),
    ensures
        lies_within(levels_of(entries)[l][j], levels_of(entries)[l + 1][j / 51]),
{
    lemma_numbers_bounded(leaves(entries));
    lemma_level_is_spanned(leaves(entries), l);
    let cells = levels_of(entries)[l];
    let chunk = cells.subrange(j / 51 * 51, chunk_end(cells.len(), j / 51));
    assert(chunk[j % 51] == cells[j]);
    lemma_around_holds(chunk, j % 51);
}

/// The box of a leaf holds the boxes of its rows.
pub proof fn law_leaf_holds_its_rows(entries: Seq<(i64, Cell)>, i: int)
    requires
        0 <= i < entries.len(),
    ensures
        lies_within(entries[i].1, levels_of(entries)[0][i / 51]),
{
    lemma_numbers_bounded(leaves(entries));
    let cells = entry_cells(entries);
    let chunk = cells.subrange(i / 51 * 51, chunk_end(cells.len(), i / 51));
    assert(chunk[i % 51] == entries[i].1);
    lemma_around_holds(chunk, i % 51);
}

} // verus!
