//! Where the positions of a rewritten geometry come from.
use vstd::prelude::*;

use super::rewrite::{replaced, rewritten, run_rewritten, runs_replaced, runs_rewritten};
use super::{
    joined, joined_polygons, part_positions, polygons_view, positions, run_view, runs_view,
    shapes_view, Geometry, Position, Shape,
};

verus! {

pub open spec fn moved(
    ps: Seq<Position<u64>>,
    g: spec_fn(Position<u64>) -> Position<u64>,
) -> Seq<Position<u64>> {
    ps.map_values(g)
}

pub open spec fn runs_moved(
    runs: Seq<Seq<Position<u64>>>,
    g: spec_fn(Position<u64>) -> Position<u64>,
) -> Seq<Seq<Position<u64>>> {
    runs.map_values(|run: Seq<Position<u64>>| moved(run, g))
}

proof fn lemma_joined(
    runs: Seq<Seq<Position<u64>>>,
    g: spec_fn(Position<u64>) -> Position<u64>,
)
    ensures
        joined(runs_moved(runs, g)) == moved(joined(runs), g),
    decreases runs.len(),
{
    if runs.len() == 0 {
        assert(joined(runs_moved(runs, g)) =~= moved(joined(runs), g));
    } else {
        lemma_joined(runs.drop_last(), g);
        assert(runs_moved(runs, g).drop_last() =~= runs_moved(runs.drop_last(), g));
        assert(joined(runs_moved(runs, g)) =~= moved(joined(runs), g));
    }
}

pub open spec fn polygons_moved(
    polygons: Seq<Seq<Seq<Position<u64>>>>,
    g: spec_fn(Position<u64>) -> Position<u64>,
) -> Seq<Seq<Seq<Position<u64>>>> {
    polygons.map_values(|rings: Seq<Seq<Position<u64>>>| runs_moved(rings, g))
}

proof fn lemma_joined_polygons(
    polygons: Seq<Seq<Seq<Position<u64>>>>,
    g: spec_fn(Position<u64>) -> Position<u64>,
)
    ensures
        joined_polygons(polygons_moved(polygons, g)) == moved(joined_polygons(polygons), g),
    decreases polygons.len(),
{
    if polygons.len() == 0 {
        assert(joined_polygons(polygons_moved(polygons, g)) =~= moved(
            joined_polygons(polygons),
            g,
        ));
    } else {
        lemma_joined_polygons(polygons.drop_last(), g);
        assert(polygons_moved(polygons, g).drop_last() =~= polygons_moved(
            polygons.drop_last(),
            g,
        ));
        lemma_joined(polygons.last(), g);
        assert(joined_polygons(polygons_moved(polygons, g)) =~= moved(
            joined_polygons(polygons),
            g,
        ));
    }
}

/// Whether a geometry is another with each position put in its place, kind for kind, run for
/// run and part for part.
pub open spec fn is_moved(
    a: Shape<u64>,
    b: Shape<u64>,
    g: spec_fn(Position<u64>) -> Position<u64>,
) -> bool
    decreases a,
{
    match a {
        Shape::Point(p) => b == Shape::Point(g(p)),
        Shape::LineString(run) => b == Shape::LineString(moved(run, g)),
        Shape::MultiPoint(run) => b == Shape::MultiPoint(moved(run, g)),
        Shape::Polygon(rings) => b == Shape::Polygon(runs_moved(rings, g)),
        Shape::MultiLineString(lines) => b == Shape::MultiLineString(runs_moved(lines, g)),
        Shape::MultiPolygon(polygons) => b == Shape::MultiPolygon(polygons_moved(polygons, g)),
        Shape::GeometryCollection(parts) => {
            &&& b matches Shape::GeometryCollection(others)
            &&& others.len() == parts.len()
            &&& forall|i: int| 0 <= i < parts.len() ==> is_moved(parts[i], #[trigger] others[i], g)
        },
    }
}

proof fn lemma_parts(
    parts: Seq<Shape<u64>>,
    others: Seq<Shape<u64>>,
    g: spec_fn(Position<u64>) -> Position<u64>,
)
    requires
        others.len() == parts.len(),
        forall|i: int| 0 <= i < parts.len() ==> is_moved(parts[i], #[trigger] others[i], g),
    ensures
        part_positions(others) == moved(part_positions(parts), g),
    decreases parts, 1nat,
{
    if parts.len() == 0 {
        assert(part_positions(others) =~= moved(part_positions(parts), g));
    } else {
        let n = parts.len() - 1;
        assert forall|i: int| 0 <= i < n implies is_moved(
            parts.drop_last()[i],
            #[trigger] others.drop_last()[i],
            g,
        ) by {
            assert(is_moved(parts[i], others[i], g));
        }
        lemma_parts(parts.drop_last(), others.drop_last(), g);
        assert(is_moved(parts[n], others[n], g));
        lemma_moved(parts[n], others[n], g);
        assert(part_positions(others) =~= moved(part_positions(parts), g));
    }
}

proof fn lemma_moved(
    a: Shape<u64>,
    b: Shape<u64>,
    g: spec_fn(Position<u64>) -> Position<u64>,
)
    requires
        is_moved(a, b, g),
    ensures
        positions(b) == moved(positions(a), g),
    decreases a, 0nat,
{
    match a {
        Shape::Point(p) => {
            assert(positions(b) =~= moved(positions(a), g));
        },
        Shape::LineString(run) => {},
        Shape::MultiPoint(run) => {},
        Shape::Polygon(rings) => lemma_joined(rings, g),
        Shape::MultiLineString(lines) => lemma_joined(lines, g),
        Shape::MultiPolygon(polygons) => lemma_joined_polygons(polygons, g),
        Shape::GeometryCollection(parts) => lemma_parts(parts, b->GeometryCollection_0, g),
    }
}

// --- one by one ----------------------------------------------------------------------

/// Whether a function gives for each position what another one says.
pub open spec fn gives<F: Fn(&Position<u64>) -> Position<u64>>(
    f: F,
    g: spec_fn(Position<u64>) -> Position<u64>,
) -> bool {
    forall|p: &Position<u64>, q: Position<u64>| #[trigger]
        call_ensures(f, (p,), q) ==> q@ == g(p@)
}

proof fn lemma_run<F: Fn(&Position<u64>) -> Position<u64>>(
    f: F,
    g: spec_fn(Position<u64>) -> Position<u64>,
    a: Seq<Position<u64>>,
    b: Seq<Position<u64>>,
)
    requires
        gives(f, g),
        run_rewritten(f, a, b),
    ensures
        run_view(b) == moved(run_view(a), g),
{
    assert forall|i: int| 0 <= i < a.len() implies #[trigger] run_view(b)[i] == moved(
        run_view(a),
        g,
    )[i] by {
        assert(call_ensures(f, (&a[i],), b[i]));
    }
    assert(run_view(b) =~= moved(run_view(a), g));
}

proof fn lemma_runs<F: Fn(&Position<u64>) -> Position<u64>>(
    f: F,
    g: spec_fn(Position<u64>) -> Position<u64>,
    a: Seq<Vec<Position<u64>>>,
    b: Seq<Vec<Position<u64>>>,
)
    requires
        gives(f, g),
        runs_rewritten(f, a, b),
    ensures
        runs_view(b) == runs_moved(runs_view(a), g),
{
    assert forall|i: int| 0 <= i < a.len() implies #[trigger] runs_view(b)[i] == runs_moved(
        runs_view(a),
        g,
    )[i] by {
        assert(run_rewritten(f, a[i]@, b[i]@));
        lemma_run(f, g, a[i]@, b[i]@);
    }
    assert(runs_view(b) =~= runs_moved(runs_view(a), g));
}

proof fn lemma_rewritten<F: Fn(&Position<u64>) -> Position<u64>>(
    f: F,
    g: spec_fn(Position<u64>) -> Position<u64>,
    a: Geometry<u64>,
    b: Geometry<u64>,
)
    requires
        gives(f, g),
        rewritten(f, a, b),
    ensures
        is_moved(a@, b@, g),
    decreases a,
{
    match (a, b) {
        (Geometry::Point(p), Geometry::Point(q)) => {},
        (Geometry::LineString(p), Geometry::LineString(q)) => lemma_run(f, g, p@, q@),
        (Geometry::MultiPoint(p), Geometry::MultiPoint(q)) => lemma_run(f, g, p@, q@),
        (Geometry::Polygon(p), Geometry::Polygon(q)) => lemma_runs(f, g, p@, q@),
        (Geometry::MultiLineString(p), Geometry::MultiLineString(q)) => lemma_runs(f, g, p@, q@),
        (Geometry::MultiPolygon(p), Geometry::MultiPolygon(q)) => {
            assert forall|i: int| 0 <= i < p@.len() implies #[trigger] polygons_view(q@)[i]
                == polygons_moved(polygons_view(p@), g)[i] by {
                assert(runs_rewritten(f, p@[i]@, q@[i]@));
                lemma_runs(f, g, p@[i]@, q@[i]@);
            }
            assert(polygons_view(q@) =~= polygons_moved(polygons_view(p@), g));
        },
        (Geometry::GeometryCollection(p), Geometry::GeometryCollection(q)) => {
            super::lemma_collection_view(p);
            super::lemma_collection_view(q);
            assert forall|i: int| 0 <= i < p@.len() implies is_moved(
                shapes_view(p@)[i],
                #[trigger] shapes_view(q@)[i],
                g,
            ) by {
                assert(rewritten(f, p@[i], q@[i]));
                lemma_rewritten(f, g, p@[i], q@[i]);
            }
        },
        _ => {},
    }
}

/// A geometry that is rewritten position by position has each position of the first one put in
/// its place, in the same order, and no other.
pub proof fn law_every_position_is_rewritten<F: Fn(&Position<u64>) -> Position<u64>>(
    f: F,
    g: spec_fn(Position<u64>) -> Position<u64>,
    a: Geometry<u64>,
    b: Geometry<u64>,
)
    requires
        gives(f, g),
        rewritten(f, a, b),
    ensures
        is_moved(a@, b@, g),
        positions(b@) == positions(a@).map_values(g),
{
    lemma_rewritten(f, g, a, b);
    lemma_moved(a@, b@, g);
}

// --- run by run ----------------------------------------------------------------------

/// Whether a function gives for each run the run of what another one says of its positions.
pub open spec fn gives_runs<F: Fn(&Vec<Position<u64>>) -> Vec<Position<u64>>>(
    f: F,
    g: spec_fn(Position<u64>) -> Position<u64>,
) -> bool {
    forall|p: &Vec<Position<u64>>, q: Vec<Position<u64>>| #[trigger]
        call_ensures(f, (p,), q) ==> run_view(q@) == moved(run_view(p@), g)
}

proof fn lemma_runs_replaced<F: Fn(&Vec<Position<u64>>) -> Vec<Position<u64>>>(
    f: F,
    g: spec_fn(Position<u64>) -> Position<u64>,
    a: Seq<Vec<Position<u64>>>,
    b: Seq<Vec<Position<u64>>>,
)
    requires
        gives_runs(f, g),
        runs_replaced(f, a, b),
    ensures
        runs_view(b) == runs_moved(runs_view(a), g),
{
    assert forall|i: int| 0 <= i < a.len() implies #[trigger] runs_view(b)[i] == runs_moved(
        runs_view(a),
        g,
    )[i] by {
        assert(call_ensures(f, (&a[i],), b[i]));
    }
    assert(runs_view(b) =~= runs_moved(runs_view(a), g));
}

proof fn lemma_replaced<F: Fn(&Vec<Position<u64>>) -> Vec<Position<u64>>>(
    f: F,
    g: spec_fn(Position<u64>) -> Position<u64>,
    a: Geometry<u64>,
    b: Geometry<u64>,
)
    requires
        gives_runs(f, g),
        replaced(f, a, b),
    ensures
        is_moved(a@, b@, g),
    decreases a,
{
    match (a, b) {
        (Geometry::Point(p), Geometry::Point(q)) => {
            let (u, v) = choose|u: Vec<Position<u64>>, v: Vec<Position<u64>>|
                u@ == seq![p] && v@ == seq![q] && #[trigger] call_ensures(f, (&u,), v);
            assert(run_view(v@)[0] == q@);
            assert(moved(run_view(u@), g)[0] == g(p@));
        },
        (Geometry::LineString(p), Geometry::LineString(q)) => {},
        (Geometry::MultiPoint(p), Geometry::MultiPoint(q)) => {},
        (Geometry::Polygon(p), Geometry::Polygon(q)) => lemma_runs_replaced(f, g, p@, q@),
        (Geometry::MultiLineString(p), Geometry::MultiLineString(q)) => lemma_runs_replaced(
            f,
            g,
            p@,
            q@,
        ),
        (Geometry::MultiPolygon(p), Geometry::MultiPolygon(q)) => {
            assert forall|i: int| 0 <= i < p@.len() implies #[trigger] polygons_view(q@)[i]
                == polygons_moved(polygons_view(p@), g)[i] by {
                assert(runs_replaced(f, p@[i]@, q@[i]@));
                lemma_runs_replaced(f, g, p@[i]@, q@[i]@);
            }
            assert(polygons_view(q@) =~= polygons_moved(polygons_view(p@), g));
        },
        (Geometry::GeometryCollection(p), Geometry::GeometryCollection(q)) => {
            super::lemma_collection_view(p);
            super::lemma_collection_view(q);
            assert forall|i: int| 0 <= i < p@.len() implies is_moved(
                shapes_view(p@)[i],
                #[trigger] shapes_view(q@)[i],
                g,
            ) by {
                assert(replaced(f, p@[i], q@[i]));
                lemma_replaced(f, g, p@[i], q@[i]);
            }
        },
        _ => {},
    }
}

/// A geometry that is rewritten run by run, by a function that rewrites a run position by
/// position, has each position of the first one put in its place.
pub proof fn law_every_run_is_rewritten<F: Fn(&Vec<Position<u64>>) -> Vec<Position<u64>>>(
    f: F,
    g: spec_fn(Position<u64>) -> Position<u64>,
    a: Geometry<u64>,
    b: Geometry<u64>,
)
    requires
        gives_runs(f, g),
        replaced(f, a, b),
    ensures
        is_moved(a@, b@, g),
        positions(b@) == positions(a@).map_values(g),
{
    lemma_replaced(f, g, a, b);
    lemma_moved(a@, b@, g);
}

} // verus!
