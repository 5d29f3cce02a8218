//! Doubles narrowed to singles, outward, so that a narrowed box contains the box.
use vstd::arithmetic::div_mod::*;
use vstd::arithmetic::mul::*;
use vstd::arithmetic::power2::*;
use vstd::bits::*;
use vstd::prelude::*;

use super::rtree::{is_nan32, Cell, INFINITY_32, SIGN_32};
use crate::geometry::ordinate::{is_nan, order, INFINITY, SIGN};
use crate::geometry::{
    empty_bbox, folded, law_bbox_holds_every_position, lemma_folded_is_number, positions, Bbox, Shape,
};

verus! {

// --- values --------------------------------------------------------------------------------

/// The number of fractions of a double between two powers of two.
pub const FRACTIONS: u64 = 0x10_0000_0000_0000;

/// The number of fractions of a single between two powers of two.
pub const FRACTIONS_32: u32 = 0x80_0000;

/// The absolute value of a double, in units of the smallest one, of a pattern
/// without its sign. Infinity stands above every finite value.
pub open spec fn double_size(magnitude: int) -> int {
    if magnitude < FRACTIONS {
        magnitude
    } else {
        (FRACTIONS + magnitude % (FRACTIONS as int)) * pow2(
            (magnitude / (FRACTIONS as int) - 1) as nat,
        )
    }
}

/// The value of a double, in units of the smallest one.
pub open spec fn double_value(bits: u64) -> int {
    if bits >= SIGN {
        -double_size(bits - SIGN)
    } else {
        double_size(bits as int)
    }
}

/// The absolute value of a single, in units of the smallest double, of a pattern
/// without its sign. Infinity is that of the doubles.
pub open spec fn single_size(magnitude: int) -> int {
    if magnitude >= INFINITY_32 {
        double_size(INFINITY as int)
    } else if magnitude < FRACTIONS_32 {
        magnitude * pow2(925)
    } else {
        (FRACTIONS_32 + magnitude % (FRACTIONS_32 as int)) * pow2(
            (magnitude / (FRACTIONS_32 as int) + 924) as nat,
        )
    }
}

/// The value of a single, in units of the smallest double.
pub open spec fn single_value(bits: u32) -> int {
    if bits >= SIGN_32 {
        -single_size(bits - SIGN_32)
    } else {
        single_size(bits as int)
    }
}

/// Whether a single is the largest that is not above a double. A zero has the
/// double's sign.
pub open spec fn is_greatest_below(s: u32, v: u64) -> bool {
    &&& !is_nan32(s)
    &&& single_value(s) <= double_value(v)
    &&& forall|t: u32|
        !is_nan32(t) && #[trigger] single_value(t) <= double_value(v) ==> single_value(t)
            <= single_value(s)
    &&& s >= SIGN_32 <==> v >= SIGN
}

/// Whether a single is the smallest that is not below a double. A zero has the
/// double's sign.
pub open spec fn is_least_above(s: u32, v: u64) -> bool {
    &&& !is_nan32(s)
    &&& double_value(v) <= single_value(s)
    &&& forall|t: u32|
        !is_nan32(t) && double_value(v) <= #[trigger] single_value(t) ==> single_value(s)
            <= single_value(t)
    &&& s >= SIGN_32 <==> v >= SIGN
}

// --- sizes ---------------------------------------------------------------------------------

/// The next single is larger, by one step.
proof fn lemma_next_single(a: int)
    requires
        0 <= a,
        a + 1 < INFINITY_32,
    ensures
        a < FRACTIONS_32 ==> single_size(a + 1) == single_size(a) + pow2(925),
        a >= FRACTIONS_32 ==> single_size(a + 1) == single_size(a) + pow2(
            (a / (FRACTIONS_32 as int) + 924) as nat,
        ),
        single_size(a) < single_size(a + 1),
{
    let n = FRACTIONS_32 as int;
    lemma_pow2_pos(925);
    if a + 1 < n {
        assert((a + 1) * pow2(925) == a * pow2(925) + pow2(925)) by (nonlinear_arith);
    } else if a + 1 == n {
        assert((a + 1) % n == 0 && (a + 1) / n == 1);
        assert((a + 1) * pow2(925) == a * pow2(925) + pow2(925)) by (nonlinear_arith);
    } else {
        let e = a / n;
        let f = a % n;
        let p = pow2((e + 924) as nat) as int;
        lemma_fundamental_div_mod(a, n);
        lemma_pow2_pos((e + 924) as nat);
        if f + 1 < n {
            lemma_fundamental_div_mod_converse(a + 1, n, e, f + 1);
            assert((n + (f + 1)) * p == (n + f) * p + p) by (nonlinear_arith);
        } else {
            assert(n * (e + 1) == n * e + n) by (nonlinear_arith);
            lemma_fundamental_div_mod_converse(a + 1, n, e + 1, 0);
            lemma_pow2_unfold((e + 925) as nat);
            let q = pow2((e + 925) as nat) as int;
            assert(q == 2 * p);
            assert((n + 0) * q == (n + f) * p + p) by (nonlinear_arith)
                requires
                    q == 2 * p,
                    f + 1 == n,
            ;
        }
    }
}

/// Every finite single is below infinity.
proof fn lemma_single_is_finite(a: int)
    requires
        0 <= a < INFINITY_32,
    ensures
        single_size(a) < pow2(1202),
        pow2(1202) <= single_size(INFINITY_32 as int),
{
    let n = FRACTIONS_32 as int;
    lemma_infinity();
    lemma_pow2_below(1202, 2098);
    lemma2_to64();
    if a < n {
        lemma_pow2_adds(23, 925);
        lemma_pow2_pos(925);
        assert(a * pow2(925) < n * pow2(925)) by (nonlinear_arith)
            requires
                a < n,
                pow2(925) > 0,
        ;
        lemma_pow2_below(948, 1202);
    } else {
        let e = a / n;
        let p = pow2((e + 924) as nat) as int;
        lemma_fundamental_div_mod(a, n);
        assert(e <= 254) by {
            lemma_div_is_ordered(a, INFINITY_32 - 1, n);
        }
        lemma_pow2_pos((e + 924) as nat);
        lemma_pow2_adds(24, (e + 924) as nat);
        assert((n + a % n) * p < (2 * n) * p) by (nonlinear_arith)
            requires
                a % n < n,
                p > 0,
        ;
        lemma_pow2_below((e + 948) as nat, 1202);
    }
}

proof fn lemma_pow2_below(a: nat, b: nat)
    requires
        a <= b,
    ensures
        pow2(a) <= pow2(b),
{
    if a < b {
        lemma_pow2_strictly_increases(a, b);
    }
}

proof fn lemma_infinity()
    ensures
        double_size(INFINITY as int) == pow2(2098),
{
    lemma2_to64();
    lemma2_to64_rest();
    lemma_pow2_adds(52, 2046);
}

/// A larger single's pattern is of a larger single.
proof fn lemma_singles_ascend(a: int, b: int)
    requires
        0 <= a < b <= INFINITY_32,
    ensures
        single_size(a) < single_size(b),
    decreases b - a,
{
    if b == INFINITY_32 {
        lemma_single_is_finite(a);
    } else {
        lemma_next_single(b - 1);
        if a < b - 1 {
            lemma_singles_ascend(a, b - 1);
        }
    }
}

/// Zero is the smallest size.
proof fn lemma_sizes_are_sizes(a: int)
    requires
        0 <= a <= INFINITY_32,
    ensures
        0 <= single_size(a),
        single_size(0) == 0,
{
    if a > 0 {
        lemma_singles_ascend(0, a);
    }
}

// --- narrowing -----------------------------------------------------------------------------

/// The largest single that is not larger than a double, both without signs, and
/// whether it is that double.
fn toward_zero(magnitude: u64) -> (r: (u32, bool))
    requires
        magnitude <= INFINITY,
    ensures
        r.0 <= INFINITY_32,
        r.1 ==> single_size(r.0 as int) == double_size(magnitude as int),
        !r.1 ==> r.0 < INFINITY_32 && single_size(r.0 as int) < double_size(magnitude as int)
            && double_size(magnitude as int) < single_size(r.0 + 1),
{
    let exponent: u64 = magnitude / FRACTIONS;
    let fraction: u64 = magnitude % FRACTIONS;
    let ghost e = exponent as int;
    let ghost f = fraction as int;
    proof {
        lemma_fundamental_div_mod(magnitude as int, FRACTIONS as int);
        lemma2_to64();
        lemma2_to64_rest();
    }
    if magnitude == INFINITY {
        (INFINITY_32, true)
    } else if exponent >= 1151 {
        proof {
            assert(e <= 2046);
            lemma_infinity();
            lemma_single_is_finite(INFINITY_32 - 1);
            lemma_pow2_adds(52, (e - 1) as nat);
            lemma_pow2_adds(53, (e - 1) as nat);
            lemma_pow2_below(1202, (e + 51) as nat);
            lemma_pow2_below((e + 52) as nat, 2098);
            let p = pow2((e - 1) as nat) as int;
            lemma_pow2_pos((e - 1) as nat);
            assert(FRACTIONS * p <= (FRACTIONS + f) * p < (2 * FRACTIONS) * p) by (nonlinear_arith)
                requires
                    0 <= f < FRACTIONS,
                    p > 0,
            ;
        }
        (INFINITY_32 - 1, false)
    } else if exponent >= 897 {
        let high: u64 = fraction / 0x2000_0000;
        let low: u64 = fraction % 0x2000_0000;
        let r: u32 = (exponent - 896) as u32 * FRACTIONS_32 + high as u32;
        proof {
            let q = high as int;
            let p = pow2((e - 1) as nat) as int;
            let step = pow2((e + 28) as nat) as int;
            let n = FRACTIONS_32 as int;
            lemma_fundamental_div_mod(f, 0x2000_0000);
            lemma_pow2_pos((e - 1) as nat);
            lemma_pow2_adds(29, (e - 1) as nat);
            assert(step == 0x2000_0000 * p);
            assert(r == n * (e - 896) + q) by (nonlinear_arith)
                requires
                    r == (e - 896) * n + q,
            ;
            lemma_fundamental_div_mod_converse(r as int, n, e - 896, q);
            assert(r < INFINITY_32);
            assert(r >= n) by (nonlinear_arith)
                requires
                    r == n * (e - 896) + q,
                    e >= 897,
                    q >= 0,
                    n > 0,
            ;
            assert(single_size(r as int) == (n + q) * step);
            assert((FRACTIONS + f) * p == (n + q) * step + low * p) by (nonlinear_arith)
                requires
                    f == 0x2000_0000 * q + low,
                    step == 0x2000_0000 * p,
                    n == 0x80_0000,
            ;
            assert(low * p < step) by (nonlinear_arith)
                requires
                    low < 0x2000_0000,
                    step == 0x2000_0000 * p,
                    p > 0,
            ;
            assert(low > 0 ==> low * p > 0) by (nonlinear_arith)
                requires
                    p > 0,
            ;
            assert(low == 0 ==> low * p == 0) by (nonlinear_arith);
            if r + 1 < INFINITY_32 {
                lemma_next_single(r as int);
            } else {
                lemma_singles_ascend(r as int, INFINITY_32 as int);
                lemma_single_is_finite(r as int);
                assert((n + q + 1) * step == (n + q) * step + step) by (nonlinear_arith);
                assert(e == 1150 && q + 1 == n);
                lemma_pow2_adds(24, (e + 28) as nat);
            }
        }
        (r, low == 0)
    } else if exponent >= 874 {
        let whole: u64 = FRACTIONS + fraction;
        let shift: u64 = 926 - exponent;
        let q: u64 = whole >> shift;
        let ghost k = pow2(shift as nat) as int;
        proof {
            lemma_u64_shr_is_div(whole, shift);
            lemma_pow2_pos(shift as nat);
            lemma_pow2_below(30, shift as nat);
            lemma_pow2_below(shift as nat, 52);
            lemma_fundamental_div_mod(whole as int, k);
            assert(q < FRACTIONS_32) by (nonlinear_arith)
                requires
                    whole == k * q + whole as int % k,
                    0 <= whole as int % k,
                    whole < 0x20_0000_0000_0000,
                    k >= 0x4000_0000,
            ;
            assert(k * q <= whole && k * q >= 0) by (nonlinear_arith)
                requires
                    whole == k * q + whole as int % k,
                    0 <= whole as int % k,
                    k > 0,
                    q >= 0,
            ;
            assert((q << shift) == q * k) by {
                lemma_u64_shl_is_mul(q, shift);
            }
        }
        let back: u64 = q << shift;
        let r: u32 = q as u32;
        proof {
            let p = pow2((e - 1) as nat) as int;
            let low = whole as int % k;
            lemma_pow2_pos((e - 1) as nat);
            lemma_pow2_adds(shift as nat, (e - 1) as nat);
            assert(pow2(925) == k * p);
            assert(whole * p == q * (k * p) + low * p) by (nonlinear_arith)
                requires
                    whole == k * q + low,
            ;
            assert(low * p < k * p) by (nonlinear_arith)
                requires
                    low < k,
                    p > 0,
            ;
            assert(low > 0 ==> low * p > 0) by (nonlinear_arith)
                requires
                    p > 0,
            ;
            assert(low == 0 ==> low * p == 0) by (nonlinear_arith);
            assert(k * q == q * k) by (nonlinear_arith);
            lemma_next_single(r as int);
        }
        (r, back == whole)
    } else {
        proof {
            lemma_next_single(0);
            lemma_pow2_pos(925);
            if e == 0 {
                lemma_pow2_below(52, 925);
            } else {
                let p = pow2((e - 1) as nat) as int;
                lemma_pow2_pos((e - 1) as nat);
                lemma_pow2_adds(53, (e - 1) as nat);
                lemma_pow2_below((e + 52) as nat, 925);
                assert(0 < (FRACTIONS + f) * p < (2 * FRACTIONS) * p) by (nonlinear_arith)
                    requires
                        0 <= f < FRACTIONS,
                        p > 0,
                ;
            }
        }
        (0, magnitude == 0)
    }
}

/// The smallest single that is not smaller than a double, both without signs.
fn from_zero(magnitude: u64) -> (r: u32)
    requires
        magnitude <= INFINITY,
    ensures
        r <= INFINITY_32,
        double_size(magnitude as int) <= single_size(r as int),
        forall|t: int|
            0 <= t <= INFINITY_32 && double_size(magnitude as int) <= #[trigger] single_size(t)
                ==> single_size(r as int) <= single_size(t),
{
    let (inner, exact) = toward_zero(magnitude);
    let r: u32 = if exact {
        inner
    } else {
        inner + 1
    };
    proof {
        assert forall|t: int|
            0 <= t <= INFINITY_32 && double_size(magnitude as int)
                <= #[trigger] single_size(t) implies single_size(r as int) <= single_size(t) by {
            if t < r {
                lemma_singles_ascend(t, r as int);
                if t < inner {
                    lemma_singles_ascend(t, inner as int);
                }
            } else if r < t {
                lemma_singles_ascend(r as int, t);
            }
        }
    }
    r
}

/// What `toward_zero` gives is the largest.
proof fn lemma_is_largest(size: int, inner: int, exact: bool, t: int)
    requires
        0 <= inner <= INFINITY_32,
        exact ==> single_size(inner) == size,
        !exact ==> inner < INFINITY_32 && single_size(inner) < size < single_size(inner + 1),
        0 <= t <= INFINITY_32,
        single_size(t) <= size,
    ensures
        single_size(t) <= single_size(inner),
{
    if t > inner {
        lemma_singles_ascend(inner, t);
        if !exact && t > inner + 1 {
            lemma_singles_ascend(inner + 1, t);
        }
    } else if t < inner {
        lemma_singles_ascend(t, inner);
    }
}

proof fn lemma_double_size_is_size(magnitude: int)
    requires
        0 <= magnitude,
    ensures
        0 <= double_size(magnitude),
{
    if magnitude >= FRACTIONS {
        let p = pow2((magnitude / (FRACTIONS as int) - 1) as nat);
        lemma_pow2_pos((magnitude / (FRACTIONS as int) - 1) as nat);
        lemma_mul_nonnegative(FRACTIONS + magnitude % (FRACTIONS as int), p as int);
    }
}

/// The largest single that is not above a double.
pub fn round_down(v: u64) -> (r: u32)
    ensures
        is_nan(v) ==> is_nan32(r),
        !is_nan(v) ==> is_greatest_below(r, v),
{
    let magnitude: u64 = v % SIGN;
    if magnitude > INFINITY {
        return 0x7fc0_0000;
    }
    proof {
        lemma_double_size_is_size(magnitude as int);
    }
    if v < SIGN {
        let (inner, exact) = toward_zero(magnitude);
        proof {
            assert forall|t: u32|
                !is_nan32(t) && #[trigger] single_value(t) <= double_value(v) implies single_value(t)
                <= single_value(inner) by {
                lemma_sizes_are_sizes(inner as int);
                if t >= SIGN_32 {
                    lemma_sizes_are_sizes(t - SIGN_32);
                } else {
                    lemma_is_largest(double_size(magnitude as int), inner as int, exact, t as int);
                }
            }
        }
        inner
    } else {
        let outer = from_zero(magnitude);
        proof {
            assert forall|t: u32|
                !is_nan32(t) && #[trigger] single_value(t) <= double_value(v) implies single_value(t)
                <= single_value((SIGN_32 + outer) as u32) by {
                if t >= SIGN_32 {
                    assert(single_size(outer as int) <= single_size(t - SIGN_32));
                } else {
                    lemma_sizes_are_sizes(t as int);
                    assert(double_size(magnitude as int) <= single_size(0));
                }
            }
        }
        SIGN_32 + outer
    }
}

/// The smallest single that is not below a double.
pub fn round_up(v: u64) -> (r: u32)
    ensures
        is_nan(v) ==> is_nan32(r),
        !is_nan(v) ==> is_least_above(r, v),
{
    let magnitude: u64 = v % SIGN;
    if magnitude > INFINITY {
        return 0x7fc0_0000;
    }
    proof {
        lemma_double_size_is_size(magnitude as int);
    }
    if v < SIGN {
        let outer = from_zero(magnitude);
        proof {
            assert forall|t: u32|
                !is_nan32(t) && double_value(v) <= #[trigger] single_value(t) implies single_value(
                outer,
            ) <= single_value(t) by {
                if t >= SIGN_32 {
                    lemma_sizes_are_sizes(t - SIGN_32);
                    assert(double_size(magnitude as int) <= single_size(0));
                } else {
                    assert(single_size(outer as int) <= single_size(t as int));
                }
            }
        }
        outer
    } else {
        let (inner, exact) = toward_zero(magnitude);
        proof {
            assert forall|t: u32|
                !is_nan32(t) && double_value(v) <= #[trigger] single_value(t) implies single_value(
                (SIGN_32 + inner) as u32,
            ) <= single_value(t) by {
                lemma_sizes_are_sizes(inner as int);
                if t >= SIGN_32 {
                    lemma_is_largest(
                        double_size(magnitude as int),
                        inner as int,
                        exact,
                        t - SIGN_32,
                    );
                } else {
                    lemma_sizes_are_sizes(t as int);
                }
            }
        }
        SIGN_32 + inner
    }
}

/// Whether a double narrows down to a single.
pub open spec fn narrows_down(v: u64, s: u32) -> bool {
    if is_nan(v) {
        is_nan32(s)
    } else {
        is_greatest_below(s, v)
    }
}

/// Whether a double narrows up to a single.
pub open spec fn narrows_up(v: u64, s: u32) -> bool {
    if is_nan(v) {
        is_nan32(s)
    } else {
        is_least_above(s, v)
    }
}

/// Whether a box of singles is the smallest around a box of doubles.
pub open spec fn is_narrowed(c: Cell, b: Bbox) -> bool {
    &&& narrows_down(b.min_x, c.min_x)
    &&& narrows_up(b.max_x, c.max_x)
    &&& narrows_down(b.min_y, c.min_y)
    &&& narrows_up(b.max_y, c.max_y)
}

/// Narrow a box to singles, outward: the minima down, the maxima up.
pub fn round_out(b: &Bbox) -> (c: Cell)
    ensures
        is_narrowed(c, *b),
{
    Cell {
        min_x: round_down(b.min_x),
        max_x: round_up(b.max_x),
        min_y: round_down(b.min_y),
        max_y: round_up(b.max_y),
    }
}

/// The rows of an index, in the order that its leaves take them in, with their
/// boxes narrowed.
pub fn leaf_rows(entries: &Vec<(i64, Bbox)>, order: &Vec<usize>) -> (r: Vec<(i64, Cell)>)
    requires
        forall|i: int| 0 <= i < order@.len() ==> #[trigger] order@[i] < entries@.len(),
    ensures
        r@.len() == order@.len(),
        forall|i: int|
            0 <= i < r@.len() ==> (#[trigger] r@[i]).0 == entries@[order@[i] as int].0
                && is_narrowed(r@[i].1, entries@[order@[i] as int].1),
{
    let mut r: Vec<(i64, Cell)> = Vec::new();
    let mut i: usize = 0;
    while i < order.len()
        invariant
            i <= order@.len(),
            r@.len() == i,
            forall|i: int| 0 <= i < order@.len() ==> #[trigger] order@[i] < entries@.len(),
            forall|k: int|
                0 <= k < i ==> (#[trigger] r@[k]).0 == entries@[order@[k] as int].0 && is_narrowed(
                    r@[k].1,
                    entries@[order@[k] as int].1,
                ),
        decreases order@.len() - i,
    {
        let at: usize = order[i];
        let number: i64 = entries[at].0;
        r.push((number, round_out(&entries[at].1)));
        i += 1;
    }
    r
}

// --- laws ----------------------------------------------------------------------------------

/// A larger double's pattern is of a larger double.
proof fn lemma_doubles_ascend(a: int, b: int)
    requires
        0 <= a <= b,
    ensures
        double_size(a) <= double_size(b),
    decreases b - a,
{
    if a < b {
        lemma_doubles_ascend(a, b - 1);
        let n = FRACTIONS as int;
        let c = b - 1;
        if b < n {
        } else if b == n {
            lemma2_to64();
            assert(b % n == 0 && b / n == 1);
            assert(double_size(b) == n * pow2(0));
            lemma_mul_basics(n);
        } else {
            let e = c / n;
            let f = c % n;
            let p = pow2((e - 1) as nat) as int;
            lemma_fundamental_div_mod(c, n);
            lemma_pow2_pos((e - 1) as nat);
            if f + 1 < n {
                lemma_fundamental_div_mod_converse(b, n, e, f + 1);
                assert((n + f) * p <= (n + (f + 1)) * p) by (nonlinear_arith)
                    requires
                        p > 0,
                ;
            } else {
                assert(n * (e + 1) == n * e + n) by (nonlinear_arith);
                lemma_fundamental_div_mod_converse(b, n, e + 1, 0);
                lemma_pow2_unfold(e as nat);
                let q = pow2(e as nat) as int;
                assert((n + f) * p <= (n + 0) * q) by (nonlinear_arith)
                    requires
                        q == 2 * p,
                        f + 1 == n,
                        p > 0,
                ;
            }
        }
    }
}

/// The values of doubles are ordered as their patterns are.
pub proof fn law_values_follow_the_order(a: u64, b: u64)
    requires
        !is_nan(a),
        !is_nan(b),
        order(a) <= order(b),
    ensures
        double_value(a) <= double_value(b),
{
    if a >= SIGN && b >= SIGN {
        lemma_doubles_ascend(b - SIGN, a - SIGN);
    } else if a >= SIGN {
        lemma_double_size_is_size(a - SIGN);
        lemma_double_size_is_size(b as int);
    } else if b >= SIGN {
        lemma_doubles_ascend(a as int, b - SIGN);
        lemma_doubles_ascend(b - SIGN, a as int);
    } else {
        lemma_doubles_ascend(a as int, b as int);
    }
}

/// The narrowed box of a geometry still holds every position of it.
pub proof fn law_narrowed_box_holds_every_position(s: Shape<u64>, i: int, c: Cell)
    requires
        0 <= i < positions(s).len(),
        is_narrowed(c, folded(empty_bbox(), positions(s))),
    ensures
        ({
            let p = positions(s)[i];
            &&& !is_nan(p.x) ==> single_value(c.min_x) <= double_value(p.x) <= single_value(c.max_x)
            &&& !is_nan(p.y) ==> single_value(c.min_y) <= double_value(p.y) <= single_value(c.max_y)
        }),
{
    let p = positions(s)[i];
    let b = folded(empty_bbox(), positions(s));
    law_bbox_holds_every_position(s, i);
    lemma_folded_is_number(empty_bbox(), positions(s));
    if !is_nan(p.x) {
        law_values_follow_the_order(b.min_x, p.x);
        law_values_follow_the_order(p.x, b.max_x);
    }
    if !is_nan(p.y) {
        law_values_follow_the_order(b.min_y, p.y);
        law_values_follow_the_order(p.y, b.max_y);
    }
}

} // verus!
