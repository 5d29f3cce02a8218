//! The packed Hilbert R-tree.
//!
//! The tree is an array of nodes, level after level from the root down to the
//! leaves. A leaf is a feature's box and the place of the feature; a node above
//! the leaves spans so many nodes of the level below, and has the index of the
//! first.
use vstd::prelude::*;

use crate::bytes::{le_bytes, lemma_le_bytes_len, push_le};
use crate::geometry::ordinate::{
    greater, greater_of, is_nan, lesser, lesser_of, order, INFINITY, NEG_INFINITY,
};
use crate::geometry::Bbox;

verus! {

/// The stored size of a node: a box of four doubles and a 64-bit number.
pub const NODE_ITEM_SIZE: u64 = 40;

/// A quotient rounded up.
pub open spec fn ceiling(n: nat, k: nat) -> nat
    recommends
        k > 0,
{
    (n + k - 1) as nat / k
}

proof fn lemma_ceiling_shrinks(n: nat, k: nat)
    requires
        k >= 2,
        n >= 1,
    ensures
        1 <= ceiling(n, k) <= n,
        n >= 2 ==> ceiling(n, k) < n,
        ceiling(n, k) * k >= n,
        (ceiling(n, k) - 1) * k < n,
{
    let q = ceiling(n, k);
    let r = (n + k - 1) as nat % k;
    assert(n + k - 1 == q * k + r && r < k) by (nonlinear_arith)
        requires
            q == (n + k - 1) as nat / k,
            r == (n + k - 1) as nat % k,
            k >= 2,
    ;
    assert((q - 1) * k == q * k - k) by (nonlinear_arith);
    assert(q >= 1) by (nonlinear_arith)
        requires
            q * k >= n,
            n >= 1,
    ;
    assert(n >= 2 ==> q < n) by (nonlinear_arith)
        requires
            q * k == n + k - 1 - r,
            k >= 2,
            r >= 0,
            q >= 1,
            n >= 1,
    ;
    assert(n == 1 ==> q <= 1) by (nonlinear_arith)
        requires
            (q - 1) * k < n,
            k >= 2,
    ;
}

/// How many nodes stand above a level of `n`, where each spans up to `k`.
pub open spec fn nodes_above(n: nat, k: nat) -> nat
    decreases n,
{
    let up = ceiling(n, k);
    if up <= 1 || up >= n {
        up
    } else {
        up + nodes_above(up, k)
    }
}

/// How many nodes a tree over `n` items has.
pub open spec fn tree_nodes(n: nat, k: nat) -> nat {
    n + nodes_above(n, k)
}

/// How many nodes a node spans at most: what is stored, but no fewer than two.
pub open spec fn fan_out(node_size: nat) -> nat {
    if node_size < 2 {
        2
    } else {
        node_size
    }
}

/// The size of the index over `n` features; there is none over no features, nor
/// where the node size is zero.
pub open spec fn index_bytes(n: nat, node_size: nat) -> nat {
    if n == 0 || node_size == 0 {
        0
    } else {
        tree_nodes(n, fan_out(node_size)) * 40
    }
}

proof fn lemma_nodes_above_bound(n: nat, k: nat)
    requires
        k >= 2,
        n >= 1,
    ensures
        1 <= nodes_above(n, k) <= 2 * n,
    decreases n,
{
    lemma_ceiling_shrinks(n, k);
    let up = ceiling(n, k);
    if up > 1 && up < n {
        lemma_nodes_above_bound(up, k);
        lemma_nodes_above_half(n, k);
    }
}

/// Each level above is at most about half of the one below.
proof fn lemma_nodes_above_half(n: nat, k: nat)
    requires
        k >= 2,
        n >= 2,
    ensures
        nodes_above(n, k) <= 2 * n,
        ceiling(n, k) >= 2 ==> nodes_above(n, k) <= 2 * n - 2,
    decreases n,
{
    lemma_ceiling_shrinks(n, k);
    let up = ceiling(n, k);
    assert(2 * up <= n + 1) by (nonlinear_arith)
        requires
            (up - 1) * k < n,
            k >= 2,
            up >= 1,
    ;
    if up > 1 && up < n {
        lemma_nodes_above_half(up, k);
        lemma_ceiling_shrinks(up, k);
        if ceiling(up, k) <= 1 {
            assert(nodes_above(up, k) <= 1);
        }
    }
}

fn div_ceil(n: u128, k: u128) -> (r: u128)
    requires
        k > 0,
        n + k < 0x1_0000_0000_0000_0000_0000_0000_0000_0000,
    ensures
        r == ceiling(n as nat, k as nat),
{
    (n + (k - 1)) / k
}

/// The size of the index over so many features, so that it can be skipped.
pub fn index_size(num_items: u64, node_size: u16) -> (r: u128)
    ensures
        r == index_bytes(num_items as nat, node_size as nat),
        r < 0x1_0000_0000_0000_0000_0000,
{
    if num_items == 0 || node_size == 0 {
        return 0;
    }
    let k: u128 = if node_size < 2 {
        2
    } else {
        node_size as u128
    };
    let mut n: u128 = num_items as u128;
    let mut num_nodes: u128 = num_items as u128;
    let ghost all = nodes_above(num_items as nat, k as nat);
    proof {
        lemma_nodes_above_bound(num_items as nat, k as nat);
    }
    loop
        invariant_except_break
            num_nodes + nodes_above(n as nat, k as nat) == num_items + all,
        invariant
            2 <= k <= 65535,
            1 <= n <= num_items,
            all == nodes_above(num_items as nat, k as nat),
            all <= 2 * num_items,
        ensures
            num_nodes == num_items + all,
        decreases n,
    {
        let up: u128 = div_ceil(n, k);
        proof {
            lemma_ceiling_shrinks(n as nat, k as nat);
        }
        num_nodes = num_nodes + up;
        if up == 1 {
            break;
        }
        n = up;
    }
    num_nodes * NODE_ITEM_SIZE as u128
}

// --- building --------------------------------------------------------------------

/// A node: a box, and where what it stands for begins.
#[derive(Debug, Clone, Copy, PartialEq)]
pub struct Node {
    pub min_x: u64,
    pub min_y: u64,
    pub max_x: u64,
    pub max_y: u64,
    pub offset: u64,
}

/// The leaf of a feature.
pub open spec fn leaf(b: Bbox, offset: u64) -> Node {
    Node { min_x: b.min_x, min_y: b.min_y, max_x: b.max_x, max_y: b.max_y, offset }
}

/// The node that spans some nodes, the first of which has the index `offset`.
pub open spec fn spanning(nodes: Seq<Node>, offset: u64) -> Node
    decreases nodes.len(),
{
    if nodes.len() == 0 {
        Node {
            min_x: INFINITY,
            min_y: INFINITY,
            max_x: NEG_INFINITY,
            max_y: NEG_INFINITY,
            offset,
        }
    } else {
        let so_far = spanning(nodes.drop_last(), offset);
        let last = nodes.last();
        Node {
            min_x: lesser(so_far.min_x, last.min_x),
            min_y: lesser(so_far.min_y, last.min_y),
            max_x: greater(so_far.max_x, last.max_x),
            max_y: greater(so_far.max_y, last.max_y),
            offset,
        }
    }
}

/// The nodes that node `j` of the level above spans.
pub open spec fn children(level: Seq<Node>, k: nat, j: int) -> Seq<Node> {
    level.subrange(
        j * k,
        if (j + 1) * k < level.len() {
            (j + 1) * k
        } else {
            level.len() as int
        },
    )
}

/// The level above a level of which the first node has the index `first`.
pub open spec fn level_above(level: Seq<Node>, k: nat, first: int) -> Seq<Node> {
    Seq::new(
        ceiling(level.len(), k),
        |j: int| spanning(children(level, k, j), (first + j * k) as u64),
    )
}

/// The nodes of the tree over a level, from the root down to the level.
pub open spec fn tree(level: Seq<Node>, k: nat) -> Seq<Node>
    decreases level.len(),
{
    let up = level_above(level, k, nodes_above(level.len(), k) as int);
    if up.len() <= 1 || up.len() >= level.len() {
        up + level
    } else {
        tree(up, k) + level
    }
}

/// The leaves of features.
pub open spec fn leaves(boxes: Seq<Bbox>, offsets: Seq<u64>) -> Seq<Node> {
    Seq::new(boxes.len(), |i: int| leaf(boxes[i], offsets[i]))
}

/// A node as it is stored.
pub open spec fn node_bytes(n: Node) -> Seq<u8> {
    le_bytes(n.min_x as nat, 8) + le_bytes(n.min_y as nat, 8) + le_bytes(n.max_x as nat, 8)
        + le_bytes(n.max_y as nat, 8) + le_bytes(n.offset as nat, 8)
}

/// Nodes as they are stored.
pub open spec fn nodes_bytes(nodes: Seq<Node>) -> Seq<u8>
    decreases nodes.len(),
{
    if nodes.len() == 0 {
        Seq::empty()
    } else {
        nodes_bytes(nodes.drop_last()) + node_bytes(nodes.last())
    }
}

fn span(level: &Vec<Node>, from: usize, to: usize, offset: u64) -> (r: Node)
    requires
        from <= to <= level@.len(),
    ensures
        r == spanning(level@.subrange(from as int, to as int), offset),
{
    let mut r = Node {
        min_x: INFINITY,
        min_y: INFINITY,
        max_x: NEG_INFINITY,
        max_y: NEG_INFINITY,
        offset,
    };
    let mut i: usize = from;
    while i < to
        invariant
            from <= i <= to <= level@.len(),
            r == spanning(level@.subrange(from as int, i as int), offset),
        decreases to - i,
    {
        let n = &level[i];
        r = Node {
            min_x: lesser_of(r.min_x, n.min_x),
            min_y: lesser_of(r.min_y, n.min_y),
            max_x: greater_of(r.max_x, n.max_x),
            max_y: greater_of(r.max_y, n.max_y),
            offset,
        };
        assert(level@.subrange(from as int, i + 1).drop_last() =~= level@.subrange(
            from as int,
            i as int,
        ));
        assert(level@.subrange(from as int, i + 1).last() == level@[i as int]);
        i += 1;
    }
    r
}

fn count_above(n: usize, k: usize) -> (r: u128)
    requires
        k >= 2,
        n >= 1,
    ensures
        r == nodes_above(n as nat, k as nat),
        r <= 2 * n,
    decreases n,
{
    proof {
        lemma_ceiling_shrinks(n as nat, k as nat);
        lemma_nodes_above_bound(n as nat, k as nat);
    }
    let up: u128 = div_ceil(n as u128, k as u128);
    if up <= 1 {
        up
    } else {
        up + count_above(up as usize, k)
    }
}

/// The level above.
fn parents(level: &Vec<Node>, k: usize) -> (r: Vec<Node>)
    requires
        k >= 2,
        level@.len() >= 1,
    ensures
        r@ == level_above(level@, k as nat, nodes_above(level@.len(), k as nat) as int),
{
    let first: u128 = count_above(level.len(), k);
    let ghost up = level_above(level@, k as nat, first as int);
    let mut r: Vec<Node> = Vec::new();
    let mut i: usize = 0;
    proof {
        assert(0 * k == 0) by (nonlinear_arith);
        lemma_ceiling_shrinks(level@.len(), k as nat);
    }
    while i < level.len()
        invariant
            k >= 2,
            level@.len() >= 1,
            first <= 2 * level@.len(),
            up == level_above(level@, k as nat, first as int),
            up.len() == ceiling(level@.len(), k as nat),
            i == if r@.len() < up.len() {
                r@.len() * k
            } else {
                level@.len() as int
            },
            r@.len() <= up.len(),
            r@ == up.take(r@.len() as int),
            up.len() * k >= level@.len(),
            (up.len() - 1) * k < level@.len(),
        decreases level@.len() - i,
    {
        let ghost j = r@.len() as int;
        let to: usize = if level.len() - i > k {
            i + k
        } else {
            level.len()
        };
        let offset: u128 = first + i as u128;
        proof {
            assert((j + 1) * k == j * k + k) by (nonlinear_arith);
            if (j + 1) * k < level@.len() {
                assert(j + 1 < up.len()) by (nonlinear_arith)
                    requires
                        (j + 1) * k < level@.len(),
                        up.len() * k >= level@.len(),
                        k >= 2,
                ;
            } else {
                assert(j + 1 >= up.len()) by (nonlinear_arith)
                    requires
                        (j + 1) * k >= level@.len(),
                        (up.len() - 1) * k < level@.len(),
                        k >= 2,
                ;
            }
            assert(children(level@, k as nat, j) == level@.subrange(i as int, to as int));
        }
        r.push(span(level, i, to, offset as u64));
        assert(up[j] == r@[j]);
        assert(r@ =~= up.take(j + 1));
        i = to;
    }
    proof {
        if r@.len() < up.len() {
            assert(r@.len() * k <= (up.len() - 1) * k) by (nonlinear_arith)
                requires
                    r@.len() <= up.len() - 1,
                    k >= 2,
            ;
        }
    }
    assert(r@ =~= up);
    r
}

/// The nodes of the tree over a level.
fn nodes_over(level: Vec<Node>, k: usize) -> (r: Vec<Node>)
    requires
        k >= 2,
        level@.len() >= 1,
    ensures
        r@ == tree(level@, k as nat),
    decreases level@.len(),
{
    let mut level = level;
    proof {
        lemma_ceiling_shrinks(level@.len(), k as nat);
    }
    let up = parents(&level, k);
    let mut r = if up.len() <= 1 {
        up
    } else {
        nodes_over(up, k)
    };
    r.append(&mut level);
    r
}

/// The packed tree over features' boxes, which are in the order of the features
/// in the file; `offsets` are the places of the features.
pub fn packed_rtree(bboxes: &Vec<Bbox>, offsets: &Vec<u64>, node_size: u16) -> (out: Vec<u8>)
    requires
        bboxes@.len() >= 1,
        offsets@.len() == bboxes@.len(),
    ensures
        out@ == nodes_bytes(tree(leaves(bboxes@, offsets@), fan_out(node_size as nat))),
{
    let k: usize = if node_size < 2 {
        2
    } else {
        node_size as usize
    };
    let mut level: Vec<Node> = Vec::new();
    let ghost all = leaves(bboxes@, offsets@);
    let mut i: usize = 0;
    while i < bboxes.len()
        invariant
            i <= bboxes@.len() == offsets@.len(),
            all == leaves(bboxes@, offsets@),
            level@ == all.take(i as int),
        decreases bboxes@.len() - i,
    {
        let b = &bboxes[i];
        level.push(
            Node {
                min_x: b.min_x,
                min_y: b.min_y,
                max_x: b.max_x,
                max_y: b.max_y,
                offset: offsets[i],
            },
        );
        assert(level@ =~= all.take(i + 1));
        i += 1;
    }
    assert(level@ =~= all);
    let nodes = nodes_over(level, k);
    let mut out: Vec<u8> = Vec::new();
    let mut j: usize = 0;
    while j < nodes.len()
        invariant
            j <= nodes@.len(),
            out@ == nodes_bytes(nodes@.take(j as int)),
        decreases nodes@.len() - j,
    {
        let n = &nodes[j];
        let ghost before = out@;
        push_le(&mut out, n.min_x, 8);
        push_le(&mut out, n.min_y, 8);
        push_le(&mut out, n.max_x, 8);
        push_le(&mut out, n.max_y, 8);
        push_le(&mut out, n.offset, 8);
        assert(out@ =~= before + node_bytes(*n));
        assert(nodes@.take(j + 1).drop_last() =~= nodes@.take(j as int));
        j += 1;
    }
    assert(nodes@.take(j as int) =~= nodes@);
    out
}

// --- laws ------------------------------------------------------------------------

proof fn lemma_tree_len(level: Seq<Node>, k: nat)
    requires
        k >= 2,
        level.len() >= 1,
    ensures
        tree(level, k).len() == tree_nodes(level.len(), k),
    decreases level.len(),
{
    lemma_ceiling_shrinks(level.len(), k);
    let up = level_above(level, k, nodes_above(level.len(), k) as int);
    if up.len() > 1 && up.len() < level.len() {
        lemma_tree_len(up, k);
    }
}

proof fn lemma_nodes_bytes_len(nodes: Seq<Node>)
    ensures
        nodes_bytes(nodes).len() == 40 * nodes.len(),
    decreases nodes.len(),
{
    if nodes.len() > 0 {
        let n = nodes.last();
        lemma_nodes_bytes_len(nodes.drop_last());
        lemma_le_bytes_len(n.min_x as nat, 8);
        lemma_le_bytes_len(n.min_y as nat, 8);
        lemma_le_bytes_len(n.max_x as nat, 8);
        lemma_le_bytes_len(n.max_y as nat, 8);
        lemma_le_bytes_len(n.offset as nat, 8);
    }
}

/// A reader that skips as many bytes as an index over so many features has skips
/// exactly the index that was written.
pub proof fn law_index_size_is_tree_size(boxes: Seq<Bbox>, offsets: Seq<u64>, node_size: nat)
    requires
        boxes.len() >= 1,
        node_size >= 1,
    ensures
        nodes_bytes(tree(leaves(boxes, offsets), fan_out(node_size))).len() == index_bytes(
            boxes.len(),
            node_size,
        ),
{
    let level = leaves(boxes, offsets);
    lemma_tree_len(level, fan_out(node_size));
    lemma_nodes_bytes_len(tree(level, fan_out(node_size)));
}

/// Whether a box, in each bound that is a number, lies within another.
pub open spec fn lies_within(inner: Node, outer: Node) -> bool {
    &&& !is_nan(inner.min_x) ==> !is_nan(outer.min_x) && order(outer.min_x) <= order(inner.min_x)
    &&& !is_nan(inner.min_y) ==> !is_nan(outer.min_y) && order(outer.min_y) <= order(inner.min_y)
    &&& !is_nan(inner.max_x) ==> !is_nan(outer.max_x) && order(outer.max_x) >= order(inner.max_x)
    &&& !is_nan(inner.max_y) ==> !is_nan(outer.max_y) && order(outer.max_y) >= order(inner.max_y)
}

/// A node's box holds the boxes of all that it spans, so a search that leaves a
/// node aside misses none of them.
pub proof fn law_node_spans_its_children(nodes: Seq<Node>, offset: u64, i: int)
    requires
        0 <= i < nodes.len(),
    ensures
        lies_within(nodes[i], spanning(nodes, offset)),
    decreases nodes.len(),
{
    if i < nodes.len() - 1 {
        law_node_spans_its_children(nodes.drop_last(), offset, i);
    }
}

/// Each node of a level is spanned by exactly one node of the level above: the
/// one whose stored index and the next one's enclose it.
pub proof fn law_every_node_is_spanned(level: Seq<Node>, k: nat, i: int)
    requires
        k >= 2,
        0 <= i < level.len(),
    ensures
        ({
            let j = i / k as int;
            &&& 0 <= j < ceiling(level.len(), k)
            &&& j * k <= i < (j + 1) * k
            &&& i - j * k < children(level, k, j).len()
            &&& children(level, k, j)[i - j * k] == level[i]
        }),
{
    let j = i / k as int;
    lemma_ceiling_shrinks(level.len(), k);
    let q = ceiling(level.len(), k);
    assert(j * k <= i < (j + 1) * k && j >= 0) by (nonlinear_arith)
        requires
            j == i / k as int,
            i >= 0,
            k >= 2,
    ;
    assert(j < q) by (nonlinear_arith)
        requires
            j * k <= i,
            i < q * k,
            k >= 2,
    ;
    assert((j + 1) * k == j * k + k) by (nonlinear_arith);
}

} // verus!
