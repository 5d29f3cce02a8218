//! Which positions a geometry has, and what its box says of them.
use vstd::prelude::*;

use super::ordinate::{is_nan, order, INFINITY, NEG_INFINITY};
use super::{
    empty_bbox, folded, joined, joined_polygons, lemma_folded_is_number, part_positions, positions,
    Position, Shape,
};

verus! {

/// Whether a position is in one of some runs.
pub open spec fn in_runs<V>(runs: Seq<Seq<Position<V>>>, p: Position<V>) -> bool {
    exists|i: int| 0 <= i < runs.len() && (#[trigger] runs[i]).contains(p)
}

/// Whether a position is one of a geometry's, in whatever part of it.
pub open spec fn has_position<V>(s: Shape<V>, p: Position<V>) -> bool
    decreases s,
{
    match s {
        Shape::Point(q) => p == q,
        Shape::LineString(run) => run.contains(p),
        Shape::MultiPoint(run) => run.contains(p),
        Shape::Polygon(rings) => in_runs(rings, p),
        Shape::MultiLineString(lines) => in_runs(lines, p),
        Shape::MultiPolygon(polygons) => exists|i: int|
            0 <= i < polygons.len() && in_runs(#[trigger] polygons[i], p),
        Shape::GeometryCollection(parts) => exists|i: int|
            0 <= i < parts.len() && has_position(#[trigger] parts[i], p),
    }
}

proof fn lemma_sum_has<V>(a: Seq<Position<V>>, b: Seq<Position<V>>, p: Position<V>)
    ensures
        (a + b).contains(p) <==> a.contains(p) || b.contains(p),
{
    if a.contains(p) {
        let i = choose|i: int| 0 <= i < a.len() && a[i] == p;
        assert((a + b)[i] == p);
    }
    if b.contains(p) {
        let i = choose|i: int| 0 <= i < b.len() && b[i] == p;
        assert((a + b)[a.len() + i] == p);
    }
    if (a + b).contains(p) {
        let i = choose|i: int| 0 <= i < (a + b).len() && (a + b)[i] == p;
        if i < a.len() {
            assert(a[i] == p);
        } else {
            assert(b[i - a.len()] == p);
        }
    }
}

proof fn lemma_joined_has<V>(runs: Seq<Seq<Position<V>>>, p: Position<V>)
    ensures
        joined(runs).contains(p) <==> in_runs(runs, p),
    decreases runs.len(),
{
    if runs.len() > 0 {
        let rest = runs.drop_last();
        lemma_joined_has(rest, p);
        lemma_sum_has(joined(rest), runs.last(), p);
        if in_runs(runs, p) {
            let i = choose|i: int| 0 <= i < runs.len() && (#[trigger] runs[i]).contains(p);
            if i < rest.len() {
                assert(rest[i].contains(p));
            }
        }
        if in_runs(rest, p) {
            let i = choose|i: int| 0 <= i < rest.len() && (#[trigger] rest[i]).contains(p);
            assert(runs[i].contains(p));
        }
        assert(runs[runs.len() - 1] == runs.last());
    }
}

proof fn lemma_joined_polygons_has<V>(polygons: Seq<Seq<Seq<Position<V>>>>, p: Position<V>)
    ensures
        joined_polygons(polygons).contains(p) <==> exists|i: int|
            0 <= i < polygons.len() && in_runs(#[trigger] polygons[i], p),
    decreases polygons.len(),
{
    if polygons.len() > 0 {
        let rest = polygons.drop_last();
        lemma_joined_polygons_has(rest, p);
        lemma_joined_has(polygons.last(), p);
        lemma_sum_has(joined_polygons(rest), joined(polygons.last()), p);
        if exists|i: int| 0 <= i < polygons.len() && in_runs(#[trigger] polygons[i], p) {
            let i = choose|i: int| 0 <= i < polygons.len() && in_runs(#[trigger] polygons[i], p);
            if i < rest.len() {
                assert(in_runs(rest[i], p));
            }
        }
        if exists|i: int| 0 <= i < rest.len() && in_runs(#[trigger] rest[i], p) {
            let i = choose|i: int| 0 <= i < rest.len() && in_runs(#[trigger] rest[i], p);
            assert(in_runs(polygons[i], p));
        }
        assert(polygons[polygons.len() - 1] == polygons.last());
    }
}

proof fn lemma_parts_have<V>(parts: Seq<Shape<V>>, p: Position<V>)
    ensures
        part_positions(parts).contains(p) <==> exists|i: int|
            0 <= i < parts.len() && has_position(#[trigger] parts[i], p),
    decreases parts, 0nat,
{
    if parts.len() > 0 {
        let rest = parts.drop_last();
        lemma_parts_have(rest, p);
        law_positions_are_all(parts[parts.len() - 1], p);
        lemma_sum_has(part_positions(rest), positions(parts[parts.len() - 1]), p);
        if exists|i: int| 0 <= i < parts.len() && has_position(#[trigger] parts[i], p) {
            let i = choose|i: int| 0 <= i < parts.len() && has_position(#[trigger] parts[i], p);
            if i < rest.len() {
                assert(has_position(rest[i], p));
            }
        }
        if exists|i: int| 0 <= i < rest.len() && has_position(#[trigger] rest[i], p) {
            let i = choose|i: int| 0 <= i < rest.len() && has_position(#[trigger] rest[i], p);
            assert(has_position(parts[i], p));
        }
    }
}

/// The positions of a geometry are those of all its parts, and no others.
pub proof fn law_positions_are_all<V>(s: Shape<V>, p: Position<V>)
    ensures
        positions(s).contains(p) <==> has_position(s, p),
    decreases s, 0nat,
{
    match s {
        Shape::Point(q) => {
            assert(seq![q][0] == q);
            assert(positions(s) =~= seq![q]);
        },
        Shape::LineString(run) => {},
        Shape::MultiPoint(run) => {},
        Shape::Polygon(rings) => lemma_joined_has(rings, p),
        Shape::MultiLineString(lines) => lemma_joined_has(lines, p),
        Shape::MultiPolygon(polygons) => lemma_joined_polygons_has(polygons, p),
        Shape::GeometryCollection(parts) => lemma_parts_have(parts, p),
    }
}

/// Whether a range is that of the numbers that some positions have: it holds each of them,
/// and each end is one of them, where there are any.
pub open spec fn is_range(lo: u64, hi: u64, has: spec_fn(u64) -> bool) -> bool {
    &&& forall|v: u64|
        #![trigger has(v)]
        has(v) && !is_nan(v) ==> order(lo) <= order(v) <= order(hi)
    &&& lo == INFINITY || has(lo)
    &&& hi == NEG_INFINITY || has(hi)
}

pub proof fn lemma_ranges(ps: Seq<Position<u64>>)
    ensures
        ({
            let b = folded(empty_bbox(), ps);
            &&& is_range(b.min_x, b.max_x, |v: u64| exists|i: int| 0 <= i < ps.len() && ps[i].x == v)
            &&& is_range(b.min_y, b.max_y, |v: u64| exists|i: int| 0 <= i < ps.len() && ps[i].y == v)
        }),
    decreases ps.len(),
{
    let b = folded(empty_bbox(), ps);
    let has_x = |v: u64| exists|i: int| 0 <= i < ps.len() && ps[i].x == v;
    let has_y = |v: u64| exists|i: int| 0 <= i < ps.len() && ps[i].y == v;
    if ps.len() > 0 {
        let rest = ps.drop_last();
        let before = folded(empty_bbox(), rest);
        let old_x = |v: u64| exists|i: int| 0 <= i < rest.len() && rest[i].x == v;
        let old_y = |v: u64| exists|i: int| 0 <= i < rest.len() && rest[i].y == v;
        lemma_ranges(rest);
        lemma_folded_is_number(empty_bbox(), rest);
        let p = ps[ps.len() - 1];
        assert(ps.last() == p);
        assert(has_x(p.x) && has_y(p.y));
        assert forall|v: u64| #[trigger] has_x(v) implies v == p.x || old_x(v) by {
            let i = choose|i: int| 0 <= i < ps.len() && ps[i].x == v;
            if i < rest.len() {
                assert(rest[i].x == v);
            }
        }
        assert forall|v: u64| #[trigger] has_y(v) implies v == p.y || old_y(v) by {
            let i = choose|i: int| 0 <= i < ps.len() && ps[i].y == v;
            if i < rest.len() {
                assert(rest[i].y == v);
            }
        }
        assert forall|v: u64| #[trigger] old_x(v) implies has_x(v) by {
            let i = choose|i: int| 0 <= i < rest.len() && rest[i].x == v;
            assert(ps[i].x == v);
        }
        assert forall|v: u64| #[trigger] old_y(v) implies has_y(v) by {
            let i = choose|i: int| 0 <= i < rest.len() && rest[i].y == v;
            assert(ps[i].y == v);
        }
        assert(is_range(before.min_x, before.max_x, old_x));
        assert(is_range(before.min_y, before.max_y, old_y));
    }
    assert(is_range(b.min_x, b.max_x, has_x));
    assert(is_range(b.min_y, b.max_y, has_y));
}

/// The box of a geometry is the least one around all its positions: it holds each of them,
/// and each bound is an ordinate of one of them, where the geometry has any.
pub proof fn law_box_is_the_least(s: Shape<u64>)
    ensures
        ({
            let b = folded(empty_bbox(), positions(s));
            &&& is_range(
                b.min_x,
                b.max_x,
                |v: u64| exists|p: Position<u64>| #[trigger] has_position(s, p) && p.x == v,
            )
            &&& is_range(
                b.min_y,
                b.max_y,
                |v: u64| exists|p: Position<u64>| #[trigger] has_position(s, p) && p.y == v,
            )
        }),
{
    let ps = positions(s);
    let b = folded(empty_bbox(), ps);
    lemma_ranges(ps);
    let in_x = |v: u64| exists|i: int| 0 <= i < ps.len() && ps[i].x == v;
    let in_y = |v: u64| exists|i: int| 0 <= i < ps.len() && ps[i].y == v;
    let has_x = |v: u64| exists|p: Position<u64>| #[trigger] has_position(s, p) && p.x == v;
    let has_y = |v: u64| exists|p: Position<u64>| #[trigger] has_position(s, p) && p.y == v;
    assert forall|v: u64| #[trigger] has_x(v) == in_x(v) by {
        if has_x(v) {
            let p = choose|p: Position<u64>| #[trigger] has_position(s, p) && p.x == v;
            law_positions_are_all(s, p);
            let i = choose|i: int| 0 <= i < ps.len() && ps[i] == p;
            assert(ps[i].x == v);
        }
        if in_x(v) {
            let i = choose|i: int| 0 <= i < ps.len() && ps[i].x == v;
            law_positions_are_all(s, ps[i]);
            assert(ps.contains(ps[i]));
            assert(has_position(s, ps[i]));
        }
    }
    assert forall|v: u64| #[trigger] has_y(v) == in_y(v) by {
        if has_y(v) {
            let p = choose|p: Position<u64>| #[trigger] has_position(s, p) && p.y == v;
            law_positions_are_all(s, p);
            let i = choose|i: int| 0 <= i < ps.len() && ps[i] == p;
            assert(ps[i].y == v);
        }
        if in_y(v) {
            let i = choose|i: int| 0 <= i < ps.len() && ps[i].y == v;
            law_positions_are_all(s, ps[i]);
            assert(ps.contains(ps[i]));
            assert(has_position(s, ps[i]));
        }
    }
    assert(is_range(b.min_x, b.max_x, in_x));
    assert(is_range(b.min_y, b.max_y, in_y));
    assert(is_range(b.min_x, b.max_x, has_x));
    assert(is_range(b.min_y, b.max_y, has_y));
}

} // verus!
