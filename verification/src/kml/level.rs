//! Collections without their altitudes.
use vstd::prelude::*;

use crate::feature::{feature_rewritten, features_view, FeatureCollection, Item, Items};
use crate::geometry::rewrite::{polygons_rewritten, rewritten, run_rewritten, runs_rewritten};
use crate::geometry::{
    lemma_collection_view, polygons_view, run_view, runs_view, shapes_view, Geometry, Position,
    Shape,
};
use crate::json::value::{Json, JsonValue};

verus! {

/// A position without its altitude.
pub open spec fn level(p: Position<Seq<char>>) -> Position<Seq<char>> {
    Position { x: p.x, y: p.y, z: None, m: p.m }
}

pub open spec fn level_run(ps: Seq<Position<Seq<char>>>) -> Seq<Position<Seq<char>>> {
    ps.map_values(|p: Position<Seq<char>>| level(p))
}

pub open spec fn level_runs(runs: Seq<Seq<Position<Seq<char>>>>) -> Seq<Seq<Position<Seq<char>>>> {
    runs.map_values(|ps: Seq<Position<Seq<char>>>| level_run(ps))
}

/// A geometry without its altitudes.
pub open spec fn leveled(s: Shape<Seq<char>>) -> Shape<Seq<char>>
    decreases s,
{
    match s {
        Shape::Point(p) => Shape::Point(level(p)),
        Shape::LineString(ps) => Shape::LineString(level_run(ps)),
        Shape::Polygon(rings) => Shape::Polygon(level_runs(rings)),
        Shape::MultiPoint(ps) => Shape::MultiPoint(level_run(ps)),
        Shape::MultiLineString(lines) => Shape::MultiLineString(level_runs(lines)),
        Shape::MultiPolygon(polygons) => Shape::MultiPolygon(
            polygons.map_values(|rings: Seq<Seq<Position<Seq<char>>>>| level_runs(rings)),
        ),
        Shape::GeometryCollection(parts) => Shape::GeometryCollection(
            Seq::new(
                parts.len(),
                |i: int|
                    if 0 <= i < parts.len() {
                        leveled(parts[i])
                    } else {
                        arbitrary()
                    },
            ),
        ),
    }
}

/// A feature without its altitudes.
pub open spec fn leveled_feature(f: Item<Seq<char>, Json>) -> Item<Seq<char>, Json> {
    Item {
        geometry: match f.geometry {
            Some(s) => Some(leveled(s)),
            None => None,
        },
        properties: f.properties,
    }
}

/// A collection without its altitudes.
pub open spec fn leveled_items(c: Items<Seq<char>, Json>) -> Items<Seq<char>, Json> {
    Items {
        features: c.features.map_values(|f: Item<Seq<char>, Json>| leveled_feature(f)),
        crs: c.crs,
    }
}

/// Whether a function gives positions without their altitudes.
spec fn levels<F: Fn(&Position<String>) -> Position<String>>(f: F) -> bool {
    forall|p: &Position<String>, q: Position<String>| #[trigger]
        call_ensures(f, (p,), q) ==> q@ == level(p@)
}

proof fn lemma_run_is_leveled<F: Fn(&Position<String>) -> Position<String>>(
    f: F,
    a: Seq<Position<String>>,
    b: Seq<Position<String>>,
)
    requires
        levels(f),
        run_rewritten(f, a, b),
    ensures
        run_view(b) == level_run(run_view(a)),
{
    assert forall|i: int| 0 <= i < a.len() implies run_view(b)[i] == level_run(run_view(a))[i] by {
        assert(call_ensures(f, (&a[i],), b[i]));
    }
    assert(run_view(b) =~= level_run(run_view(a)));
}

proof fn lemma_runs_are_leveled<F: Fn(&Position<String>) -> Position<String>>(
    f: F,
    a: Seq<Vec<Position<String>>>,
    b: Seq<Vec<Position<String>>>,
)
    requires
        levels(f),
        runs_rewritten(f, a, b),
    ensures
        runs_view(b) == level_runs(runs_view(a)),
{
    assert forall|i: int| 0 <= i < a.len() implies runs_view(b)[i] == level_runs(runs_view(a))[i] by {
        assert(run_rewritten(f, a[i]@, b[i]@));
        lemma_run_is_leveled(f, a[i]@, b[i]@);
    }
    assert(runs_view(b) =~= level_runs(runs_view(a)));
}

proof fn lemma_polygons_are_leveled<F: Fn(&Position<String>) -> Position<String>>(
    f: F,
    a: Seq<Vec<Vec<Position<String>>>>,
    b: Seq<Vec<Vec<Position<String>>>>,
)
    requires
        levels(f),
        polygons_rewritten(f, a, b),
    ensures
        polygons_view(b) == polygons_view(a).map_values(
            |rings: Seq<Seq<Position<Seq<char>>>>| level_runs(rings),
        ),
{
    let all = polygons_view(a).map_values(
        |rings: Seq<Seq<Position<Seq<char>>>>| level_runs(rings),
    );
    assert forall|i: int| 0 <= i < a.len() implies polygons_view(b)[i] == all[i] by {
        assert(runs_rewritten(f, a[i]@, b[i]@));
        lemma_runs_are_leveled(f, a[i]@, b[i]@);
    }
    assert(polygons_view(b) =~= all);
}

proof fn lemma_geometry_is_leveled<F: Fn(&Position<String>) -> Position<String>>(
    f: F,
    a: Geometry<String>,
    b: Geometry<String>,
)
    requires
        levels(f),
        rewritten(f, a, b),
    ensures
        b@ == leveled(a@),
    decreases a,
{
    match (a, b) {
        (Geometry::Point(p), Geometry::Point(q)) => {
            assert(call_ensures(f, (&p,), q));
        },
        (Geometry::LineString(p), Geometry::LineString(q)) => {
            lemma_run_is_leveled(f, p@, q@);
        },
        (Geometry::MultiPoint(p), Geometry::MultiPoint(q)) => {
            lemma_run_is_leveled(f, p@, q@);
        },
        (Geometry::Polygon(p), Geometry::Polygon(q)) => {
            lemma_runs_are_leveled(f, p@, q@);
        },
        (Geometry::MultiLineString(p), Geometry::MultiLineString(q)) => {
            lemma_runs_are_leveled(f, p@, q@);
        },
        (Geometry::MultiPolygon(p), Geometry::MultiPolygon(q)) => {
            lemma_polygons_are_leveled(f, p@, q@);
        },
        (Geometry::GeometryCollection(p), Geometry::GeometryCollection(q)) => {
            lemma_collection_view(p);
            lemma_collection_view(q);
            let all = leveled(a@)->GeometryCollection_0;
            assert forall|i: int| 0 <= i < p@.len() implies shapes_view(q@)[i] == all[i] by {
                assert(rewritten(f, p@[i], q@[i]));
                lemma_geometry_is_leveled(f, p@[i], q@[i]);
                assert(shapes_view(p@)[i] == p@[i]@);
            }
            assert(shapes_view(q@) =~= all);
        },
        _ => {},
    }
}

/// Leave the altitudes of every feature aside.
pub fn drop_altitudes(fc: &mut FeatureCollection<String, JsonValue>)
    ensures
        final(fc)@ == leveled_items(old(fc)@),
{
    let f = |p: &Position<String>| -> (q: Position<String>)
        ensures
            q@ == level(p@),
        {
            Position {
                x: String::from_str(p.x.as_str()),
                y: String::from_str(p.y.as_str()),
                z: None,
                m: match &p.m {
                    Some(m) => Some(String::from_str(m.as_str())),
                    None => None,
                },
            }
        };
    let ghost before = fc.features@;
    fc.for_each_position_mut(&f);
    proof {
        let all = leveled_items(old(fc)@).features;
        assert forall|i: int| 0 <= i < before.len() implies features_view(fc.features@)[i]
            == all[i] by {
            let a = before[i];
            let b = fc.features@[i];
            assert(feature_rewritten(f, a, b));
            if let (Some(g), Some(h)) = (a.geometry, b.geometry) {
                lemma_geometry_is_leveled(f, g, h);
            }
            assert(features_view(before)[i] == a@);
            assert(features_view(fc.features@)[i] == b@);
        }
        assert(features_view(fc.features@) =~= all);
    }
}

} // verus!
