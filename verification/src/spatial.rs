//! Places along a Hilbert curve, which takes what is close in the plane close to
//! each other.
use vstd::arithmetic::power2::*;
use vstd::multiset::*;
use vstd::prelude::*;
use vstd::seq_lib::*;

use crate::flatgeobuf::writer::{is_order, order_view};
use crate::sort::{in_turn, is_sorting_of, sorted};

verus! {

/// The number of bits of a coordinate of the grid.
pub const GRID_BITS: u32 = 16;

/// Which quarter of the square the curve is in: it starts at the origin and ends
/// at the far end of the X axis.
pub open spec fn quarter(right: bool, above: bool) -> int {
    match (right, above) {
        (false, false) => 0,
        (false, true) => 1,
        (true, true) => 2,
        (true, false) => 3,
    }
}

/// A cell of a quarter as the curve within it sees it.
pub open spec fn turned(right: bool, above: bool, half: int, x: int, y: int) -> (int, int) {
    if above {
        (x, y)
    } else if right {
        (half - 1 - y, half - 1 - x)
    } else {
        (y, x)
    }
}

/// The place of a cell along the curve through a square grid whose side has
/// `bits` bits.
pub open spec fn place(bits: nat, x: int, y: int) -> int
    decreases bits,
{
    if bits == 0 {
        0
    } else {
        let half = pow2((bits - 1) as nat) as int;
        let right = x >= half;
        let above = y >= half;
        let inner = turned(
            right,
            above,
            half,
            if right {
                x - half
            } else {
                x
            },
            if above {
                y - half
            } else {
                y
            },
        );
        quarter(right, above) * (half * half) + place((bits - 1) as nat, inner.0, inner.1)
    }
}

/// Whether a cell is in the grid.
pub open spec fn in_grid(bits: nat, x: int, y: int) -> bool {
    0 <= x < pow2(bits) && 0 <= y < pow2(bits)
}

proof fn lemma_half(bits: nat)
    requires
        bits > 0,
    ensures
        pow2(bits) == 2 * pow2((bits - 1) as nat),
        pow2((bits - 1) as nat) > 0,
        pow2(bits) * pow2(bits) == 4 * (pow2((bits - 1) as nat) * pow2((bits - 1) as nat)),
{
    lemma_pow2_unfold(bits);
    lemma_pow2_pos((bits - 1) as nat);
    let h = pow2((bits - 1) as nat);
    assert((2 * h) * (2 * h) == 4 * (h * h)) by (nonlinear_arith);
}

proof fn lemma_place_is_bounded(bits: nat, x: int, y: int)
    requires
        in_grid(bits, x, y),
    ensures
        0 <= place(bits, x, y) < pow2(bits) * pow2(bits),
    decreases bits,
{
    if bits == 0 {
        lemma2_to64();
    } else {
        lemma_half(bits);
        let half = pow2((bits - 1) as nat) as int;
        let right = x >= half;
        let above = y >= half;
        let inner = turned(
            right,
            above,
            half,
            if right {
                x - half
            } else {
                x
            },
            if above {
                y - half
            } else {
                y
            },
        );
        lemma_place_is_bounded((bits - 1) as nat, inner.0, inner.1);
    }
}

/// The curve visits no two cells at one place.
pub proof fn law_cells_have_places_of_their_own(bits: nat, x: int, y: int, u: int, v: int)
    requires
        in_grid(bits, x, y),
        in_grid(bits, u, v),
        place(bits, x, y) == place(bits, u, v),
    ensures
        x == u,
        y == v,
    decreases bits,
{
    if bits == 0 {
        lemma2_to64();
    } else {
        lemma_half(bits);
        let half = pow2((bits - 1) as nat) as int;
        let a = turned(
            x >= half,
            y >= half,
            half,
            if x >= half {
                x - half
            } else {
                x
            },
            if y >= half {
                y - half
            } else {
                y
            },
        );
        let b = turned(
            u >= half,
            v >= half,
            half,
            if u >= half {
                u - half
            } else {
                u
            },
            if v >= half {
                v - half
            } else {
                v
            },
        );
        lemma_place_is_bounded((bits - 1) as nat, a.0, a.1);
        lemma_place_is_bounded((bits - 1) as nat, b.0, b.1);
        let n = half * half;
        let p = quarter(x >= half, y >= half);
        let q = quarter(u >= half, v >= half);
        if p != q {
            assert(p * n + n <= q * n || q * n + n <= p * n) by (nonlinear_arith)
                requires
                    p < q || q < p,
                    n >= 0,
            ;
        }
        law_cells_have_places_of_their_own((bits - 1) as nat, a.0, a.1, b.0, b.1);
    }
}

/// The curve takes one step at a time: cells at consecutive places are neighbours.
pub proof fn law_consecutive_cells_are_neighbours(bits: nat, x: int, y: int, u: int, v: int)
    requires
        in_grid(bits, x, y),
        in_grid(bits, u, v),
        place(bits, x, y) + 1 == place(bits, u, v),
    ensures
        (x == u && (y == v + 1 || v == y + 1)) || (y == v && (x == u + 1 || u == x + 1)),
    decreases bits,
{
    if bits == 0 {
        lemma2_to64();
    } else {
        lemma_half(bits);
        let half = pow2((bits - 1) as nat) as int;
        let a = turned(
            x >= half,
            y >= half,
            half,
            if x >= half {
                x - half
            } else {
                x
            },
            if y >= half {
                y - half
            } else {
                y
            },
        );
        let b = turned(
            u >= half,
            v >= half,
            half,
            if u >= half {
                u - half
            } else {
                u
            },
            if v >= half {
                v - half
            } else {
                v
            },
        );
        lemma_place_is_bounded((bits - 1) as nat, a.0, a.1);
        lemma_place_is_bounded((bits - 1) as nat, b.0, b.1);
        let n = half * half;
        let p = quarter(x >= half, y >= half);
        let q = quarter(u >= half, v >= half);
        if p == q {
            law_consecutive_cells_are_neighbours((bits - 1) as nat, a.0, a.1, b.0, b.1);
        } else {
            assert(p + 1 == q) by {
                if p > q {
                    assert(q * n + n <= p * n) by (nonlinear_arith)
                        requires
                            q < p,
                            n >= 0,
                    ;
                } else if p + 1 < q {
                    assert(p * n + n + n <= q * n) by (nonlinear_arith)
                        requires
                            p + 2 <= q,
                            n >= 0,
                    ;
                }
            }
            assert(q * n == p * n + n) by (nonlinear_arith)
                requires
                    q == p + 1,
            ;
            lemma_curve_ends((bits - 1) as nat);
            law_cells_have_places_of_their_own((bits - 1) as nat, a.0, a.1, half - 1, 0);
            law_cells_have_places_of_their_own((bits - 1) as nat, b.0, b.1, 0, 0);
        }
    }
}

/// The curve starts at the origin and ends at the far end of the X axis.
proof fn lemma_curve_ends(bits: nat)
    ensures
        in_grid(bits, 0, 0),
        in_grid(bits, pow2(bits) - 1, 0),
        place(bits, 0, 0) == 0,
        place(bits, pow2(bits) - 1, 0) == pow2(bits) * pow2(bits) - 1,
    decreases bits,
{
    lemma_pow2_pos(bits);
    if bits == 0 {
        lemma2_to64();
    } else {
        lemma_half(bits);
        lemma_curve_ends((bits - 1) as nat);
    }
}

/// The place of a cell along the curve.
fn place_of(bits: u32, x: u32, y: u32) -> (r: u64)
    requires
        bits <= GRID_BITS,
        in_grid(bits as nat, x as int, y as int),
    ensures
        r == place(bits as nat, x as int, y as int),
        r < 0x1_0000_0000,
    decreases bits,
{
    proof {
        lemma_place_is_bounded(bits as nat, x as int, y as int);
        lemma2_to64();
        if bits < 16 {
            lemma_pow2_strictly_increases(bits as nat, 16);
        }
        let p = pow2(bits as nat);
        assert(p * p <= 0x1_0000 * 0x1_0000) by (nonlinear_arith)
            requires
                p <= 0x1_0000,
        ;
    }
    if bits == 0 {
        return 0;
    }
    proof {
        lemma_half(bits as nat);
        vstd::bits::lemma_u32_shl_is_mul(1, (bits - 1) as u32);
    }
    let half: u32 = 1u32 << (bits - 1);
    let right = x >= half;
    let above = y >= half;
    let u: u32 = if right {
        x - half
    } else {
        x
    };
    let v: u32 = if above {
        y - half
    } else {
        y
    };
    let (a, b): (u32, u32) = if above {
        (u, v)
    } else if right {
        (half - 1 - v, half - 1 - u)
    } else {
        (v, u)
    };
    let inner = place_of(bits - 1, a, b);
    let q: u64 = match (right, above) {
        (false, false) => 0,
        (false, true) => 1,
        (true, true) => 2,
        (true, false) => 3,
    };
    let ghost h = half as int;
    assert(0 <= h * h <= 0x8000 * 0x8000) by (nonlinear_arith)
        requires
            0 <= h <= 0x8000,
    ;
    assert(0 <= q * (h * h) <= 3 * (h * h)) by (nonlinear_arith)
        requires
            0 <= q <= 3,
            0 <= h * h,
    ;
    let area: u64 = half as u64 * half as u64;
    q * area + inner
}

/// The place of a cell along the curve through a grid of sixteen bits.
pub fn hilbert_place(x: u16, y: u16) -> (r: u64)
    ensures
        r == place(16, x as int, y as int),
        r < 0x1_0000_0000,
{
    proof {
        lemma2_to64();
    }
    place_of(GRID_BITS, x as u32, y as u32)
}

/// The order of things whose cells have these places: by their places, and those
/// at one place in the order they have.
pub fn hilbert_order(places: &Vec<u64>) -> (r: Vec<usize>)
    requires
        places@.len() < 0x1000_0000_0000_0000,
        forall|i: int| 0 <= i < places@.len() ==> #[trigger] places@[i] < 0x1_0000_0000,
    ensures
        is_order(order_view(r@), places@.len()),
        forall|i: int, j: int|
            0 <= i < j < r@.len() ==> places@[#[trigger] r@[i] as int] < places@[#[trigger] r@[j] as int]
                || (places@[r@[i] as int] == places@[r@[j] as int] && r@[i] < r@[j]),
{
    let ghost all = Seq::new(places@.len(), |i: int| (places@[i] as i64, i as i64));
    let mut pairs: Vec<(i64, i64)> = Vec::new();
    let mut i: usize = 0;
    while i < places.len()
        invariant
            i <= places@.len() < 0x1000_0000_0000_0000,
            all == Seq::new(places@.len(), |i: int| (places@[i] as i64, i as i64)),
            forall|i: int| 0 <= i < places@.len() ==> #[trigger] places@[i] < 0x1_0000_0000,
            pairs@ == all.take(i as int),
        decreases places@.len() - i,
    {
        let p: u64 = places[i];
        pairs.push((p as i64, i as i64));
        assert(pairs@ =~= all.take(i + 1));
        i += 1;
    }
    assert(pairs@ =~= all);
    let turns = sorted(&pairs);
    proof {
        assert(all.no_duplicates()) by {
            assert forall|i: int, j: int|
                0 <= i < all.len() && 0 <= j < all.len() && i != j implies all[i] != all[j] by {
                assert(all[i].1 == i && all[j].1 == j);
            }
        }
        lemma_turns(all, turns@, places@);
    }
    let mut r: Vec<usize> = Vec::new();
    let mut k: usize = 0;
    while k < turns.len()
        invariant
            k <= turns@.len() == places@.len(),
            r@.len() == k,
            forall|i: int| 0 <= i < turns@.len() ==> 0 <= (#[trigger] turns@[i]).1 < places@.len(),
            forall|i: int| 0 <= i < k ==> #[trigger] r@[i] == turns@[i].1,
        decreases turns@.len() - k,
    {
        let at: i64 = turns[k].1;
        r.push(at as usize);
        k += 1;
    }
    proof {
        let o = order_view(r@);
        assert forall|i: int, j: int| 0 <= i < j < o.len() implies o[i] != o[j] by {
            assert(o[i] == turns@[i].1 && o[j] == turns@[j].1);
            assert(turns@[i] != turns@[j]);
        }
        assert forall|i: int, j: int| 0 <= i < j < r@.len() implies places@[#[trigger] r@[i] as int]
            < places@[#[trigger] r@[j] as int] || (places@[r@[i] as int] == places@[r@[j] as int]
            && r@[i] < r@[j]) by {
            assert(in_turn(turns@[i], turns@[j]));
            assert(turns@[i] != turns@[j]);
        }
    }
    r
}

/// What a sorting of numbered places holds.
proof fn lemma_turns(all: Seq<(i64, i64)>, turns: Seq<(i64, i64)>, places: Seq<u64>)
    requires
        places.len() < 0x1000_0000_0000_0000,
        forall|i: int| 0 <= i < places.len() ==> #[trigger] places[i] < 0x1_0000_0000,
        all == Seq::new(places.len(), |i: int| (places[i] as i64, i as i64)),
        all.no_duplicates(),
        is_sorting_of(turns, all),
    ensures
        turns.len() == places.len(),
        turns.no_duplicates(),
        forall|i: int|
            0 <= i < turns.len() ==> 0 <= (#[trigger] turns[i]).1 < places.len() && turns[i].0
                == places[turns[i].1 as int],
{
    broadcast use group_to_multiset_ensures;

    assert(turns.to_multiset().len() == turns.len());
    assert(all.to_multiset().len() == all.len());
    all.lemma_multiset_has_no_duplicates();
    turns.lemma_multiset_has_no_duplicates_conv();
    assert forall|i: int| 0 <= i < turns.len() implies 0 <= (#[trigger] turns[i]).1 < places.len()
        && turns[i].0 == places[turns[i].1 as int] by {
        assert(turns.contains(turns[i]));
        assert(all.to_multiset().count(turns[i]) > 0);
        assert(all.contains(turns[i]));
        let k = choose|k: int| 0 <= k < all.len() && all[k] == turns[i];
    }
}

} // verus!
