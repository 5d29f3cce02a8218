//! The box around features.
use vstd::prelude::*;

use crate::feature::Item;
use crate::flatgeobuf::writer::{box_around, geometries};
use crate::geometry::bounds::{has_position, is_range, law_positions_are_all, lemma_ranges};
use crate::geometry::{empty_bbox, folded, lemma_folded_concat, positions, Position};

verus! {

/// Whether some feature's geometry has a position.
pub open spec fn some_has<W>(features: Seq<Item<u64, W>>, p: Position<u64>) -> bool {
    exists|i: int|
        0 <= i < features.len() && ((#[trigger] features[i]).geometry matches Some(s)
            && has_position(s, p))
}

/// All positions of features.
spec fn all_positions<W>(features: Seq<Item<u64, W>>) -> Seq<Position<u64>>
    decreases features.len(),
{
    if features.len() == 0 {
        Seq::empty()
    } else {
        all_positions(features.drop_last()) + match features.last().geometry {
            Some(s) => positions(s),
            None => Seq::empty(),
        }
    }
}

proof fn lemma_box_of_all<W>(features: Seq<Item<u64, W>>)
    ensures
        box_around(geometries(features)) == folded(empty_bbox(), all_positions(features)),
    decreases features.len(),
{
    if features.len() > 0 {
        let rest = features.drop_last();
        lemma_box_of_all(rest);
        let before = geometries(rest);
        match features.last().geometry {
            Some(s) => {
                assert(before.push(s).drop_last() =~= before);
                lemma_folded_concat(empty_bbox(), all_positions(rest), positions(s));
            },
            None => {
                assert(all_positions(rest) + Seq::empty() =~= all_positions(rest));
            },
        }
    }
}

proof fn lemma_all_positions<W>(features: Seq<Item<u64, W>>, p: Position<u64>)
    ensures
        all_positions(features).contains(p) <==> some_has(features, p),
    decreases features.len(),
{
    let all = all_positions(features);
    if features.len() > 0 {
        let rest = features.drop_last();
        let n = features.len() - 1;
        let before = all_positions(rest);
        lemma_all_positions(rest, p);
        assert(features.last() == features[n]);
        let own = match features[n].geometry {
            Some(s) => positions(s),
            None => Seq::empty(),
        };
        assert(all == before + own);
        if let Some(s) = features[n].geometry {
            law_positions_are_all(s, p);
        }
        if some_has(features, p) {
            let i = choose|i: int|
                0 <= i < features.len() && ((#[trigger] features[i]).geometry matches Some(s)
                    && has_position(s, p));
            if i < n {
                assert(rest[i] == features[i]);
                assert(some_has(rest, p));
            }
        }
        if some_has(rest, p) {
            let i = choose|i: int|
                0 <= i < rest.len() && ((#[trigger] rest[i]).geometry matches Some(s)
                    && has_position(s, p));
            assert(features[i] == rest[i]);
        }
        if before.contains(p) {
            let i = choose|i: int| 0 <= i < before.len() && before[i] == p;
            assert(all[i] == p);
        }
        if own.contains(p) {
            let i = choose|i: int| 0 <= i < own.len() && own[i] == p;
            assert(all[before.len() + i] == p);
        }
        if all.contains(p) {
            let i = choose|i: int| 0 <= i < all.len() && all[i] == p;
            if i < before.len() {
                assert(before[i] == p);
            } else {
                assert(own[i - before.len()] == p);
            }
        }
    }
}

/// The box around features is the least one around all positions of them: it holds each of
/// them, and each bound is an ordinate of one of them, where there are any.
pub proof fn law_box_around_is_the_least<W>(features: Seq<Item<u64, W>>)
    ensures
        ({
            let b = box_around(geometries(features));
            &&& is_range(
                b.min_x,
                b.max_x,
                |v: u64| exists|p: Position<u64>| #[trigger] some_has(features, p) && p.x == v,
            )
            &&& is_range(
                b.min_y,
                b.max_y,
                |v: u64| exists|p: Position<u64>| #[trigger] some_has(features, p) && p.y == v,
            )
        }),
{
    let ps = all_positions(features);
    let b = box_around(geometries(features));
    lemma_box_of_all(features);
    lemma_ranges(ps);
    let in_x = |v: u64| exists|i: int| 0 <= i < ps.len() && ps[i].x == v;
    let in_y = |v: u64| exists|i: int| 0 <= i < ps.len() && ps[i].y == v;
    let has_x = |v: u64| exists|p: Position<u64>| #[trigger] some_has(features, p) && p.x == v;
    let has_y = |v: u64| exists|p: Position<u64>| #[trigger] some_has(features, p) && p.y == v;
    assert forall|v: u64| #[trigger] has_x(v) == in_x(v) by {
        if has_x(v) {
            let p = choose|p: Position<u64>| #[trigger] some_has(features, p) && p.x == v;
            lemma_all_positions(features, p);
            let i = choose|i: int| 0 <= i < ps.len() && ps[i] == p;
            assert(ps[i].x == v);
        }
        if in_x(v) {
            let i = choose|i: int| 0 <= i < ps.len() && ps[i].x == v;
            lemma_all_positions(features, ps[i]);
            assert(ps.contains(ps[i]));
            assert(some_has(features, ps[i]));
        }
    }
    assert forall|v: u64| #[trigger] has_y(v) == in_y(v) by {
        if has_y(v) {
            let p = choose|p: Position<u64>| #[trigger] some_has(features, p) && p.y == v;
            lemma_all_positions(features, p);
            let i = choose|i: int| 0 <= i < ps.len() && ps[i] == p;
            assert(ps[i].y == v);
        }
        if in_y(v) {
            let i = choose|i: int| 0 <= i < ps.len() && ps[i].y == v;
            lemma_all_positions(features, ps[i]);
            assert(ps.contains(ps[i]));
            assert(some_has(features, ps[i]));
        }
    }
    assert(is_range(b.min_x, b.max_x, in_x));
    assert(is_range(b.min_y, b.max_y, in_y));
    assert(is_range(b.min_x, b.max_x, has_x));
    assert(is_range(b.min_y, b.max_y, has_y));
}

} // verus!
