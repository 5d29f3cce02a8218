//! Searching the stored index of a file.
//!
//! The search goes by the bytes alone, as any reader of the format does: a node is forty
//! bytes, a box of four doubles and a 64-bit number, all with the least significant byte
//! first. The levels stand one after another, the root first and the leaves last.
use vstd::prelude::*;

use super::index::{
    ceiling, children, fan_out, law_every_node_is_spanned, law_node_spans_its_children, leaf,
    leaves, level_above, lies_within, node_bytes, nodes_above, nodes_bytes, spanning, tree, Node,
};
use crate::bytes::{le_bytes, lemma_le_bytes_len};
use crate::geometry::ordinate::{is_nan, order};
use crate::geometry::Bbox;

verus! {

// --- stored nodes --------------------------------------------------------------------------

/// The number in the eight bytes at `p`, the least significant first.
#[verifier::opaque]
pub open spec fn number_at(b: Seq<u8>, p: int) -> int {
    b[p] + 0x100 * b[p + 1] + 0x1_0000 * b[p + 2] + 0x100_0000 * b[p + 3] + 0x1_0000_0000 * b[p + 4]
        + 0x100_0000_0000 * b[p + 5] + 0x1_0000_0000_0000 * b[p + 6] + 0x100_0000_0000_0000 * b[p
        + 7]
}

/// A rectangle, given by bit patterns of doubles.
pub struct Rect {
    pub min_x: u64,
    pub min_y: u64,
    pub max_x: u64,
    pub max_y: u64,
}

/// The rectangle of a box.
pub open spec fn rect_of(b: Bbox) -> Rect {
    Rect { min_x: b.min_x, min_y: b.min_y, max_x: b.max_x, max_y: b.max_y }
}

/// The box that a stored node has: minimum x and y, then maximum x and y.
pub open spec fn stored_box(b: Seq<u8>, node: int) -> Rect {
    Rect {
        min_x: number_at(b, 40 * node) as u64,
        min_y: number_at(b, 40 * node + 8) as u64,
        max_x: number_at(b, 40 * node + 16) as u64,
        max_y: number_at(b, 40 * node + 24) as u64,
    }
}

/// The number behind a stored node's box: of a leaf the place of its feature, of another
/// node the index of the first node below it.
pub open spec fn stored_number(b: Seq<u8>, node: int) -> int {
    number_at(b, 40 * node + 32)
}

/// Whether one double is at most another.
pub open spec fn at_most(a: u64, b: u64) -> bool {
    !is_nan(a) && !is_nan(b) && order(a) <= order(b)
}

/// Whether two boxes meet.
pub open spec fn meets(a: Rect, b: Rect) -> bool {
    &&& at_most(a.min_x, b.max_x)
    &&& at_most(b.min_x, a.max_x)
    &&& at_most(a.min_y, b.max_y)
    &&& at_most(b.min_y, a.max_y)
}

// --- levels --------------------------------------------------------------------------------

/// How many nodes a level has at a height above the leaves, of which there are `n`: one for
/// every `k` of the level below, and one for what is left over.
pub open spec fn size_at(n: int, k: int, height: nat) -> int
    decreases height,
{
    if height == 0 {
        n
    } else {
        (size_at(n, k, (height - 1) as nat) + k - 1) / k
    }
}

/// The height of the root above `n` leaves. It is never itself a leaf.
pub open spec fn root_height(n: int, k: int) -> nat
    decreases n,
{
    if n <= k || k < 2 {
        1
    } else {
        proof {
            lemma_fewer_above(n, k);
        }
        1 + root_height((n + k - 1) / k, k)
    }
}

pub proof fn lemma_fewer_above(n: int, k: int)
    requires
        n > k >= 2,
    ensures
        0 <= (n + k - 1) / k < n,
{
    let q = (n + k - 1) / k;
    assert(0 <= q < n) by (nonlinear_arith)
        requires
            q == (n + k - 1) / k,
            n > k,
            k >= 2,
    ;
}

/// Where the level at a height begins: after those above it.
pub open spec fn start_of(n: int, k: int, height: nat) -> int
    decreases root_height(n, k) - height,
{
    if height >= root_height(n, k) {
        0
    } else {
        start_of(n, k, height + 1) + size_at(n, k, height + 1)
    }
}

// --- the search ----------------------------------------------------------------------------

/// Whether a node stands below another one, which is at a height above the leaves: among
/// the `k` from the one whose index is stored there, as far as the level goes.
pub open spec fn is_below(b: Seq<u8>, n: int, k: int, node: int, height: nat, below: int) -> bool {
    let level = (height - 1) as nat;
    &&& stored_number(b, node) <= below < stored_number(b, node) + k
    &&& below < start_of(n, k, level) + size_at(n, k, level)
}

/// Whether a search for what meets a box that is at a node, at a height above the leaves,
/// comes to a leaf with the number `found`. It goes on only below nodes whose stored boxes
/// meet the box that is searched for.
pub open spec fn comes_to(
    b: Seq<u8>,
    n: int,
    k: int,
    wanted: Rect,
    node: int,
    height: nat,
    found: int,
) -> bool
    decreases height,
{
    &&& meets(stored_box(b, node), wanted)
    &&& if height == 0 {
        stored_number(b, node) == found
    } else {
        exists|below: int|
            #[trigger] is_below(b, n, k, node, height, below) && comes_to(
                b,
                n,
                k,
                wanted,
                below,
                (height - 1) as nat,
                found,
            )
    }
}

/// Whether a search of an index over `n` features from its root finds a number.
pub open spec fn finds(b: Seq<u8>, n: int, node_size: int, wanted: Rect, found: int) -> bool {
    let k = if node_size < 2 {
        2
    } else {
        node_size
    };
    comes_to(b, n, k, wanted, 0, root_height(n, k), found)
}

// --- nodes are stored ----------------------------------------------------------------------

/// Eight bytes of a number are those of the number.
pub proof fn lemma_number_at(b: Seq<u8>, before: Seq<u8>, v: u64, after: Seq<u8>)
    requires
        b == before + le_bytes(v as nat, 8) + after,
    ensures
        number_at(b, before.len() as int) == v,
{
    let p = before.len() as int;
    let n = v as nat;
    reveal(number_at);
    reveal_with_fuel(le_bytes, 9);
    lemma_le_bytes_len(n, 8);
    let s = le_bytes(n, 8);
    let d1 = n / 256;
    let d2 = d1 / 256;
    let d3 = d2 / 256;
    let d4 = d3 / 256;
    let d5 = d4 / 256;
    let d6 = d5 / 256;
    let d7 = d6 / 256;
    assert(s =~= seq![
        (n % 256) as u8,
        (d1 % 256) as u8,
        (d2 % 256) as u8,
        (d3 % 256) as u8,
        (d4 % 256) as u8,
        (d5 % 256) as u8,
        (d6 % 256) as u8,
        (d7 % 256) as u8,
    ]);
    assert(forall|i: int| 0 <= i < 8 ==> b[p + i] == s[i]);
    assert(b[p] == s[0] && b[p + 1] == s[1] && b[p + 2] == s[2] && b[p + 3] == s[3] && b[p + 4]
        == s[4] && b[p + 5] == s[5] && b[p + 6] == s[6] && b[p + 7] == s[7]);
    assert(d7 < 256);
}

proof fn lemma_bytes_at(nodes: Seq<Node>, i: int) -> (r: (Seq<u8>, Seq<u8>))
    requires
        0 <= i < nodes.len(),
    ensures
        r.0.len() == 40 * i,
        nodes_bytes(nodes) == r.0 + node_bytes(nodes[i]) + r.1,
    decreases nodes.len(),
{
    let n = nodes.last();
    let front = nodes_bytes(nodes.drop_last());
    if i == nodes.len() - 1 {
        lemma_stored_len(nodes.drop_last());
        assert(nodes_bytes(nodes) =~= front + node_bytes(n) + Seq::empty());
        (front, Seq::empty())
    } else {
        let (a, c) = lemma_bytes_at(nodes.drop_last(), i);
        assert(nodes_bytes(nodes) =~= a + node_bytes(nodes[i]) + (c + node_bytes(n)));
        (a, c + node_bytes(n))
    }
}

proof fn lemma_stored_len(nodes: Seq<Node>)
    ensures
        nodes_bytes(nodes).len() == 40 * nodes.len(),
    decreases nodes.len(),
{
    if nodes.len() > 0 {
        let n = nodes.last();
        lemma_stored_len(nodes.drop_last());
        lemma_le_bytes_len(n.min_x as nat, 8);
        lemma_le_bytes_len(n.min_y as nat, 8);
        lemma_le_bytes_len(n.max_x as nat, 8);
        lemma_le_bytes_len(n.max_y as nat, 8);
        lemma_le_bytes_len(n.offset as nat, 8);
    }
}

/// The box of a node.
pub open spec fn box_of(n: Node) -> Rect {
    Rect { min_x: n.min_x, min_y: n.min_y, max_x: n.max_x, max_y: n.max_y }
}

/// A node is stored with its box and its number.
proof fn lemma_node_is_stored(nodes: Seq<Node>, i: int)
    requires
        0 <= i < nodes.len(),
    ensures
        stored_box(nodes_bytes(nodes), i) == box_of(nodes[i]),
        stored_number(nodes_bytes(nodes), i) == nodes[i].offset,
{
    let b = nodes_bytes(nodes);
    let n = nodes[i];
    let (front, after) = lemma_bytes_at(nodes, i);
    let x0 = le_bytes(n.min_x as nat, 8);
    let y0 = le_bytes(n.min_y as nat, 8);
    let x1 = le_bytes(n.max_x as nat, 8);
    let y1 = le_bytes(n.max_y as nat, 8);
    let o = le_bytes(n.offset as nat, 8);
    lemma_le_bytes_len(n.min_x as nat, 8);
    lemma_le_bytes_len(n.min_y as nat, 8);
    lemma_le_bytes_len(n.max_x as nat, 8);
    lemma_le_bytes_len(n.max_y as nat, 8);
    lemma_le_bytes_len(n.offset as nat, 8);
    assert(b =~= front + x0 + (y0 + x1 + y1 + o + after));
    lemma_number_at(b, front, n.min_x, y0 + x1 + y1 + o + after);
    assert(b =~= (front + x0) + y0 + (x1 + y1 + o + after));
    lemma_number_at(b, front + x0, n.min_y, x1 + y1 + o + after);
    assert(b =~= (front + x0 + y0) + x1 + (y1 + o + after));
    lemma_number_at(b, front + x0 + y0, n.max_x, y1 + o + after);
    assert(b =~= (front + x0 + y0 + x1) + y1 + (o + after));
    lemma_number_at(b, front + x0 + y0 + x1, n.max_y, o + after);
    assert(b =~= (front + x0 + y0 + x1 + y1) + o + after);
    lemma_number_at(b, front + x0 + y0 + x1 + y1, n.offset, after);
}

// --- the shape of the tree -----------------------------------------------------------------

proof fn lemma_up(n: int, k: int)
    requires
        k >= 2,
        n >= 1,
    ensures
        ceiling(n as nat, k as nat) == (n + k - 1) / k,
        1 <= (n + k - 1) / k <= n,
        n <= k <==> (n + k - 1) / k == 1,
        n > k ==> (n + k - 1) / k < n,
        (n + k - 1) / k * k >= n,
        ((n + k - 1) / k - 1) * k < n,
{
    let q = (n + k - 1) / k;
    let r = (n + k - 1) % k;
    assert(n + k - 1 == q * k + r && 0 <= r < k) by (nonlinear_arith)
        requires
            q == (n + k - 1) / k,
            r == (n + k - 1) % k,
            k >= 2,
    ;
    assert((q - 1) * k == q * k - k) by (nonlinear_arith);
    assert(q >= 1) by (nonlinear_arith)
        requires
            q * k >= n,
            n >= 1,
            k >= 2,
    ;
    assert(n <= k ==> q <= 1) by (nonlinear_arith)
        requires
            (q - 1) * k < n,
            k >= 2,
    ;
    assert(q <= 1 ==> n <= k) by (nonlinear_arith)
        requires
            q * k >= n,
            k >= 2,
    ;
    assert(q <= n && (n > k ==> q < n)) by (nonlinear_arith)
        requires
            (q - 1) * k < n,
            k >= 2,
            n >= 1,
            q >= 1,
    ;
}

/// The levels above one are those of a tree over the level above it.
proof fn lemma_levels_above(n: int, k: int, height: nat)
    requires
        k >= 2,
        n > k,
    ensures
        size_at(n, k, height + 1) == size_at((n + k - 1) / k, k, height),
        root_height(n, k) == root_height((n + k - 1) / k, k) + 1,
        start_of(n, k, height + 1) == start_of((n + k - 1) / k, k, height),
    decreases height, root_height(n, k) - height,
{
    let up = (n + k - 1) / k;
    lemma_up(n, k);
    lemma_sizes_above(n, k, height);
    lemma_starts_above(n, k, height);
}

proof fn lemma_sizes_above(n: int, k: int, height: nat)
    ensures
        size_at(n, k, height + 1) == size_at((n + k - 1) / k, k, height),
    decreases height,
{
    if height > 0 {
        lemma_sizes_above(n, k, (height - 1) as nat);
    } else {
        assert(size_at(n, k, 0) == n);
    }
}

proof fn lemma_starts_above(n: int, k: int, height: nat)
    requires
        k >= 2,
        n > k,
    ensures
        start_of(n, k, height + 1) == start_of((n + k - 1) / k, k, height),
    decreases root_height(n, k) - height,
{
    let up = (n + k - 1) / k;
    lemma_up(n, k);
    if height + 1 < root_height(n, k) {
        lemma_starts_above(n, k, height + 1);
        lemma_sizes_above(n, k, height + 1);
    }
}

/// Whether a node at a height lies within the one above it.
pub open spec fn is_under(nodes: Seq<Node>, n: int, k: int, h: nat, j: int) -> bool {
    &&& 0 <= j / k < size_at(n, k, h + 1)
    &&& lies_within(nodes[start_of(n, k, h) + j], nodes[start_of(n, k, h + 1) + j / k])
}

/// What the nodes of a tree hold, by height.
#[verifier::opaque]
pub open spec fn is_layered(nodes: Seq<Node>, n: int, k: int) -> bool {
    let top = root_height(n, k);
    &&& nodes.len() == start_of(n, k, 0) + n
    &&& start_of(n, k, top) == 0
    &&& size_at(n, k, top) == 1
    &&& forall|h: nat|
        h <= top ==> 0 <= #[trigger] start_of(n, k, h) && 1 <= size_at(n, k, h) && start_of(n, k, h)
            + size_at(n, k, h) <= nodes.len()
    &&& forall|h: nat, j: int|
        #![trigger nodes[start_of(n, k, h) + j]]
        1 <= h <= top && 0 <= j < size_at(n, k, h) ==> nodes[start_of(n, k, h) + j].offset
            == start_of(n, k, (h - 1) as nat) + j * k
    &&& forall|h: nat, j: int|
        h < top && 0 <= j < size_at(n, k, h) ==> #[trigger] is_under(nodes, n, k, h, j)
}

/// Where the level at a height stands.
proof fn lemma_layer(nodes: Seq<Node>, n: int, k: int, h: nat)
    requires
        is_layered(nodes, n, k),
        h <= root_height(n, k),
    ensures
        0 <= start_of(n, k, h),
        1 <= size_at(n, k, h),
        start_of(n, k, h) + size_at(n, k, h) <= nodes.len(),
        size_at(n, k, 0) == n,
        h == root_height(n, k) ==> start_of(n, k, h) == 0 && size_at(n, k, h) == 1,
{
    reveal(is_layered);
    assert(0 <= start_of(n, k, h));
}

/// The number of a node is the index of the first one below it.
proof fn lemma_layer_number(nodes: Seq<Node>, n: int, k: int, h: nat, j: int)
    requires
        is_layered(nodes, n, k),
        1 <= h <= root_height(n, k),
        0 <= j < size_at(n, k, h),
    ensures
        nodes[start_of(n, k, h) + j].offset == start_of(n, k, (h - 1) as nat) + j * k,
{
    reveal(is_layered);
}

/// A node lies within the one above it.
proof fn lemma_layer_within(nodes: Seq<Node>, n: int, k: int, h: nat, j: int)
    requires
        is_layered(nodes, n, k),
        h < root_height(n, k),
        0 <= j < size_at(n, k, h),
    ensures
        0 <= j / k < size_at(n, k, h + 1),
        lies_within(nodes[start_of(n, k, h) + j], nodes[start_of(n, k, h + 1) + j / k]),
{
    reveal(is_layered);
    assert(is_under(nodes, n, k, h, j));
}

proof fn lemma_count(n: int, k: int)
    requires
        k >= 2,
        n >= 1,
    ensures
        start_of(n, k, 0) == nodes_above(n as nat, k as nat),
        root_height(n, k) >= 1,
    decreases n,
{
    lemma_up(n, k);
    let up = (n + k - 1) / k;
    if n > k {
        lemma_count(up, k);
        lemma_levels_above(n, k, 0);
        lemma_levels_above(n, k, 1);
        assert(size_at(n, k, 0) == n);
        assert(size_at(n, k, 1) == up);
    } else {
        assert(size_at(n, k, 0) == n);
        assert(size_at(n, k, 1) == 1);
        assert(start_of(n, k, 1) == 0);
    }
}

/// The node above one spans it.
proof fn lemma_parent(level: Seq<Node>, k: nat, first: int, j: int)
    requires
        k >= 2,
        0 <= j < level.len(),
    ensures
        0 <= j / k as int,
        j / (k as int) < level_above(level, k, first).len(),
        lies_within(level[j], level_above(level, k, first)[j / k as int]),
{
    law_every_node_is_spanned(level, k, j);
    let p = j / k as int;
    let below = children(level, k, p);
    law_node_spans_its_children(below, (first + p * k) as u64, j - p * k);
}

/// The nodes of a tree stand level by level.
#[verifier::spinoff_prover]
#[verifier::rlimit(60)]
proof fn lemma_tree_is_layered(level: Seq<Node>, k: nat)
    requires
        k >= 2,
        1 <= level.len() < 0x1000_0000_0000_0000,
    ensures
        is_layered(tree(level, k), level.len() as int, k as int),
        forall|i: int|
            0 <= i < level.len() ==> #[trigger] tree(level, k)[start_of(
                level.len() as int,
                k as int,
                0,
            ) + i] == level[i],
    decreases level.len(),
{
    let n = level.len() as int;
    let w = k as int;
    let first = nodes_above(level.len(), k) as int;
    let up = level_above(level, k, first);
    let m = (n + w - 1) / w;
    let all = tree(level, k);
    let top = root_height(n, w);
    lemma_up(n, w);
    lemma_count(n, w);
    lemma_above_bound(n, w);
    assert(up.len() == m);
    assert(size_at(n, w, 0) == n);
    assert(size_at(n, w, 1) == m);
    assert forall|j: int| 0 <= j < up.len() implies (#[trigger] up[j]).offset == first + j * w by {
        assert(j * w < n) by (nonlinear_arith)
            requires
                0 <= j <= m - 1,
                (m - 1) * w < n,
                w >= 2,
        ;
        assert(0 <= j * w) by (nonlinear_arith)
            requires
                0 <= j,
                w >= 2,
        ;
        lemma_spanning_number(children(level, k, j), (first + j * w) as u64);
    }
    assert forall|j: int| 0 <= j < n implies 0 <= #[trigger] (j / w) < m && lies_within(
        level[j],
        up[j / w],
    ) by {
        lemma_parent(level, k, first, j);
    }
    if n <= w {
        assert(all == up + level);
        assert(start_of(n, w, 1) == 0);
        assert(up[0].offset == first + 0 * w);
        assert(0 * w == 0) by (nonlinear_arith);
        lemma_small_tree_is_layered(up, level, w);
    } else {
        lemma_tree_is_layered(up, k);
        assert(all == tree(up, k) + level);
        lemma_larger_tree_is_layered(up, tree(up, k), level, w);
    }
}

/// A tree of a root and its leaves is layered.
proof fn lemma_small_tree_is_layered(up: Seq<Node>, level: Seq<Node>, w: int)
    requires
        1 <= level.len() <= w,
        w >= 2,
        up.len() == 1,
        up[0].offset == 1,
        forall|j: int|
            0 <= j < level.len() ==> 0 <= #[trigger] (j / w) < 1 && lies_within(level[j], up[j / w]),
    ensures
        is_layered(up + level, level.len() as int, w),
        start_of(level.len() as int, w, 0) == 1,
{
    let n = level.len() as int;
    let all = up + level;
    lemma_up(n, w);
    reveal(is_layered);
    assert(root_height(n, w) == 1);
    assert(size_at(n, w, 0) == n);
    assert(size_at(n, w, 1) == 1);
    assert(start_of(n, w, 1) == 0);
    assert(start_of(n, w, 0) == 1);
    assert forall|h: nat| h <= 1 implies 0 <= #[trigger] start_of(n, w, h) && 1 <= size_at(n, w, h)
        && start_of(n, w, h) + size_at(n, w, h) <= all.len() by {
        assert(h == 0 || h == 1);
    }
    assert forall|h: nat, j: int|
        #![trigger all[start_of(n, w, h) + j]]
        1 <= h <= 1 && 0 <= j < size_at(n, w, h) implies all[start_of(n, w, h) + j].offset
        == start_of(n, w, (h - 1) as nat) + j * w by {
        assert(h == 1 && j == 0);
        assert(j * w == 0) by (nonlinear_arith)
            requires
                j == 0,
        ;
    }
    assert forall|h: nat, j: int| h < 1 && 0 <= j < size_at(n, w, h) implies #[trigger] is_under(
        all,
        n,
        w,
        h,
        j,
    ) by {
        assert(h == 0);
        assert(0 <= j / w < 1);
        assert(all[start_of(n, w, 0) + j] == level[j]);
        assert(all[start_of(n, w, 1) + j / w] == up[j / w]);
    }
}

/// A level below a layered tree over the level above makes a layered tree.
#[verifier::spinoff_prover]
#[verifier::rlimit(60)]
proof fn lemma_larger_tree_is_layered(
    up: Seq<Node>,
    above: Seq<Node>,
    level: Seq<Node>,
    w: int,
)
    requires
        level.len() > w >= 2,
        up.len() == (level.len() + w - 1) / w,
        is_layered(above, up.len() as int, w),
        forall|i: int|
            0 <= i < up.len() ==> #[trigger] above[start_of(up.len() as int, w, 0) + i] == up[i],
        forall|j: int|
            0 <= j < up.len() ==> (#[trigger] up[j]).offset == start_of(level.len() as int, w, 0) + j
                * w,
        forall|j: int|
            0 <= j < level.len() ==> 0 <= #[trigger] (j / w) < up.len() && lies_within(
                level[j],
                up[j / w],
            ),
    ensures
        is_layered(above + level, level.len() as int, w),
        start_of(level.len() as int, w, 0) == above.len(),
{
    let n = level.len() as int;
    let m = up.len() as int;
    let all = above + level;
    let top = root_height(n, w);
    lemma_up(n, w);
    lemma_levels_above(n, w, 0);
    lemma_layer(above, m, w, 0);
    assert(size_at(n, w, 0) == n);
    assert(size_at(n, w, 1) == m);
    assert(start_of(n, w, 0) == start_of(n, w, 1) + size_at(n, w, 1));
    assert(above.len() == start_of(m, w, 0) + m) by {
        reveal(is_layered);
    }
    assert forall|h: nat| h <= top implies 0 <= #[trigger] start_of(n, w, h) && 1 <= size_at(
        n,
        w,
        h,
    ) && start_of(n, w, h) + size_at(n, w, h) <= all.len() by {
        if h > 0 {
            lemma_levels_above(n, w, (h - 1) as nat);
            lemma_layer(above, m, w, (h - 1) as nat);
        }
    }
    assert(start_of(n, w, top) == 0 && size_at(n, w, top) == 1) by {
        lemma_levels_above(n, w, (top - 1) as nat);
        lemma_layer(above, m, w, (top - 1) as nat);
    }
    assert forall|h: nat, j: int|
        #![trigger all[start_of(n, w, h) + j]]
        1 <= h <= top && 0 <= j < size_at(n, w, h) implies all[start_of(n, w, h) + j].offset
        == start_of(n, w, (h - 1) as nat) + j * w by {
        let g = (h - 1) as nat;
        lemma_levels_above(n, w, g);
        lemma_layer(above, m, w, g);
        assert(all[start_of(n, w, h) + j] == above[start_of(m, w, g) + j]);
        if h > 1 {
            lemma_levels_above(n, w, (h - 2) as nat);
            lemma_layer_number(above, m, w, g, j);
        } else {
            assert(above[start_of(m, w, 0) + j] == up[j]);
        }
    }
    assert forall|h: nat, j: int| h < top && 0 <= j < size_at(n, w, h) implies #[trigger] is_under(
        all,
        n,
        w,
        h,
        j,
    ) by {
        lemma_levels_above(n, w, h);
        lemma_layer(above, m, w, h);
        if h == 0 {
            assert(all[start_of(n, w, 0) + j] == level[j]);
            assert(0 <= j / w < m);
            assert(all[start_of(n, w, 1) + j / w] == above[start_of(m, w, 0) + j / w]);
            assert(above[start_of(m, w, 0) + j / w] == up[j / w]);
        } else {
            let g = (h - 1) as nat;
            lemma_levels_above(n, w, g);
            lemma_layer(above, m, w, g);
            lemma_layer_within(above, m, w, g, j);
            assert(all[start_of(n, w, h) + j] == above[start_of(m, w, g) + j]);
            assert(all[start_of(n, w, h + 1) + j / w] == above[start_of(m, w, h) + j / w]);
        }
    }
    assert(is_layered(all, n, w)) by {
        reveal(is_layered);
    }
}

proof fn lemma_spanning_number(nodes: Seq<Node>, offset: u64)
    ensures
        spanning(nodes, offset).offset == offset,
    decreases nodes.len(),
{
}

proof fn lemma_above_bound(n: int, k: int)
    requires
        k >= 2,
        n >= 1,
    ensures
        start_of(n, k, 0) <= 2 * n,
    decreases n,
{
    lemma_up(n, k);
    let up = (n + k - 1) / k;
    assert(2 * up <= n + 1) by (nonlinear_arith)
        requires
            (up - 1) * k < n,
            k >= 2,
            up >= 1,
    ;
    assert(size_at(n, k, 1) == up) by {
        assert(size_at(n, k, 0) == n);
    }
    if n > k {
        lemma_above_bound(up, k);
        lemma_levels_above(n, k, 0);
        lemma_above_less(up, k);
    } else {
        assert(start_of(n, k, 1) == 0);
    }
}

proof fn lemma_above_less(n: int, k: int)
    requires
        k >= 2,
        n >= 2,
    ensures
        start_of(n, k, 0) <= 2 * n - 2,
    decreases n,
{
    lemma_up(n, k);
    let up = (n + k - 1) / k;
    assert(2 * up <= n + 1) by (nonlinear_arith)
        requires
            (up - 1) * k < n,
            k >= 2,
            up >= 1,
    ;
    assert(size_at(n, k, 1) == up) by {
        assert(size_at(n, k, 0) == n);
    }
    if n > k {
        lemma_levels_above(n, k, 0);
        lemma_above_less(up, k);
    } else {
        assert(start_of(n, k, 1) == 0);
    }
}

/// The stored index has forty bytes for every node of the levels.
pub proof fn lemma_index_len(boxes: Seq<Bbox>, offsets: Seq<u64>, node_size: nat)
    requires
        1 <= boxes.len() < 0x1000_0000_0000_0000,
        offsets.len() == boxes.len(),
        node_size >= 2,
    ensures
        nodes_bytes(tree(leaves(boxes, offsets), fan_out(node_size))).len() == 40 * (start_of(
            boxes.len() as int,
            node_size as int,
            0,
        ) + boxes.len()),
{
    let level = leaves(boxes, offsets);
    lemma_tree_is_layered(level, node_size);
    reveal(is_layered);
    lemma_stored_len(tree(level, node_size));
}

// --- the law -------------------------------------------------------------------------------

/// The node above a leaf, at a height.
pub open spec fn above(i: int, k: int, height: nat) -> int
    decreases height,
{
    if height == 0 {
        i
    } else {
        above(i, k, (height - 1) as nat) / k
    }
}

/// What meets a box within another meets the other.
proof fn lemma_wider_meets(inner: Node, outer: Node, wanted: Rect)
    requires
        lies_within(inner, outer),
        meets(box_of(inner), wanted),
    ensures
        meets(box_of(outer), wanted),
{
}

proof fn lemma_comes_down(
    nodes: Seq<Node>,
    n: int,
    k: int,
    wanted: Rect,
    i: int,
    height: nat,
)
    requires
        k >= 2,
        n >= 1,
        is_layered(nodes, n, k),
        0 <= i < n,
        height <= root_height(n, k),
        meets(box_of(nodes[start_of(n, k, 0) + i]), wanted),
    ensures
        0 <= above(i, k, height) < size_at(n, k, height),
        meets(box_of(nodes[start_of(n, k, height) + above(i, k, height)]), wanted),
        comes_to(
            nodes_bytes(nodes),
            n,
            k,
            wanted,
            start_of(n, k, height) + above(i, k, height),
            height,
            nodes[start_of(n, k, 0) + i].offset as int,
        ),
    decreases height,
{
    let b = nodes_bytes(nodes);
    let found = nodes[start_of(n, k, 0) + i].offset as int;
    if height == 0 {
        lemma_layer(nodes, n, k, 0);
        lemma_node_is_stored(nodes, start_of(n, k, 0) + i);
    } else {
        let g = (height - 1) as nat;
        let j = above(i, k, g);
        let p = j / k;
        lemma_comes_down(nodes, n, k, wanted, i, g);
        let below = start_of(n, k, g) + j;
        let node = start_of(n, k, height) + p;
        lemma_layer(nodes, n, k, g);
        lemma_layer(nodes, n, k, height);
        lemma_layer_within(nodes, n, k, g, j);
        lemma_wider_meets(nodes[below], nodes[node], wanted);
        lemma_node_is_stored(nodes, node);
        lemma_layer_number(nodes, n, k, height, p);
        assert(p * k <= j < p * k + k) by (nonlinear_arith)
            requires
                p == j / k,
                k >= 2,
                j >= 0,
        ;
        assert(is_below(b, n, k, node, height, below));
    }
}

proof fn lemma_comes_up(
    nodes: Seq<Node>,
    n: int,
    k: int,
    wanted: Rect,
    j: int,
    height: nat,
    found: int,
) -> (i: int)
    requires
        k >= 2,
        n >= 1,
        is_layered(nodes, n, k),
        height <= root_height(n, k),
        0 <= j < size_at(n, k, height),
        comes_to(
            nodes_bytes(nodes),
            n,
            k,
            wanted,
            start_of(n, k, height) + j,
            height,
            found,
        ),
    ensures
        0 <= i < n,
        meets(box_of(nodes[start_of(n, k, 0) + i]), wanted),
        nodes[start_of(n, k, 0) + i].offset == found,
    decreases height,
{
    let b = nodes_bytes(nodes);
    let node = start_of(n, k, height) + j;
    lemma_layer(nodes, n, k, height);
    lemma_node_is_stored(nodes, node);
    if height == 0 {
        j
    } else {
        let g = (height - 1) as nat;
        let below = choose|below: int|
            #[trigger] is_below(b, n, k, node, height, below) && comes_to(
                b,
                n,
                k,
                wanted,
                below,
                g,
                found,
            );
        lemma_layer_number(nodes, n, k, height, j);
        assert(j * k >= 0) by (nonlinear_arith)
            requires
                j >= 0,
                k >= 2,
        ;
        lemma_comes_up(nodes, n, k, wanted, below - start_of(n, k, g), g, found)
    }
}

/// A search of the stored index for what meets a box finds the places of the features
/// whose boxes meet it, all of them and no others.
pub proof fn law_search_finds_what_meets(
    boxes: Seq<Bbox>,
    offsets: Seq<u64>,
    node_size: nat,
    wanted: Rect,
    found: int,
)
    requires
        1 <= boxes.len() < 0x1000_0000_0000_0000,
        offsets.len() == boxes.len(),
    ensures
        ({
            let index = nodes_bytes(tree(leaves(boxes, offsets), fan_out(node_size)));
            finds(index, boxes.len() as int, node_size as int, wanted, found) <==> exists|i: int|
                0 <= i < boxes.len() && meets(rect_of(#[trigger] boxes[i]), wanted) && offsets[i] == found
        }),
{
    let level = leaves(boxes, offsets);
    let k = fan_out(node_size);
    let w = if node_size < 2 {
        2
    } else {
        node_size as int
    };
    let n = boxes.len() as int;
    let nodes = tree(level, k);
    let top = root_height(n, w);
    let start = start_of(n, w, 0);
    assert(k == w);
    lemma_tree_is_layered(level, k);
    assert forall|i: int| 0 <= i < n implies box_of(#[trigger] nodes[start + i]) == rect_of(boxes[i])
        && nodes[start + i].offset == offsets[i] by {
        assert(nodes[start + i] == level[i]);
        assert(level[i] == leaf(boxes[i], offsets[i]));
    }
    lemma_layer(nodes, n, w, top);
    if finds(nodes_bytes(nodes), n, node_size as int, wanted, found) {
        let i = lemma_comes_up(nodes, n, w, wanted, 0, top, found);
        assert(box_of(nodes[start + i]) == rect_of(boxes[i]));
    }
    if exists|i: int|
        0 <= i < boxes.len() && meets(rect_of(#[trigger] boxes[i]), wanted) && offsets[i] == found {
        let i = choose|i: int|
            0 <= i < boxes.len() && meets(rect_of(#[trigger] boxes[i]), wanted) && offsets[i] == found;
        assert(box_of(nodes[start + i]) == rect_of(boxes[i]));
        lemma_comes_down(nodes, n, w, wanted, i, top);
    }
}

} // verus!
