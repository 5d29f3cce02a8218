//! Geometries of which every line and every list of rings has one dimensionality, as
//! Well-Known Binary has them.
use vstd::prelude::*;

use super::wkb::{
    coord_bytes, coords_bytes, decoded, law_wkb_round_trip, line_bytes, members, parts_bytes,
    rings_bytes, run_dim, run_is, runs_dim, shape_dim, simple_bytes, simple_uniform, simples_bytes,
    uniform, wkb_bytes, Dim,
};
use super::{Position, Shape};
use crate::error::Failure;

verus! {

/// An ordinate where one is wanted: zero where it is missing.
pub open spec fn evened_ordinate(wanted: bool, v: Option<u64>) -> Option<u64> {
    if wanted {
        match v {
            Some(v) => Some(v),
            None => Some(0),
        }
    } else {
        None
    }
}

/// A position with the ordinates that a dimensionality asks for.
pub open spec fn evened_position(p: Position<u64>, dim: Dim) -> Position<u64> {
    Position { x: p.x, y: p.y, z: evened_ordinate(dim.z, p.z), m: evened_ordinate(dim.m, p.m) }
}

pub open spec fn evened_run(run: Seq<Position<u64>>, dim: Dim) -> Seq<Position<u64>> {
    run.map_values(|p: Position<u64>| evened_position(p, dim))
}

pub open spec fn evened_rings(rings: Seq<Seq<Position<u64>>>, dim: Dim) -> Seq<
    Seq<Position<u64>>,
> {
    rings.map_values(|r: Seq<Position<u64>>| evened_run(r, dim))
}

/// A geometry as it comes back from its encoding: every line, and every list of rings,
/// has the dimensionality of its first position. An ordinate that a position lacks is
/// zero, and one that the first position lacks is gone.
pub open spec fn evened(s: Shape<u64>) -> Shape<u64>
    decreases s,
{
    match s {
        Shape::Point(p) => Shape::Point(p),
        Shape::LineString(run) => Shape::LineString(evened_run(run, run_dim(run))),
        Shape::Polygon(rings) => Shape::Polygon(evened_rings(rings, runs_dim(rings))),
        Shape::MultiPoint(run) => Shape::MultiPoint(run),
        Shape::MultiLineString(lines) => Shape::MultiLineString(
            lines.map_values(|l: Seq<Position<u64>>| evened_run(l, run_dim(l))),
        ),
        Shape::MultiPolygon(polygons) => Shape::MultiPolygon(
            polygons.map_values(|r: Seq<Seq<Position<u64>>>| evened_rings(r, runs_dim(r))),
        ),
        Shape::GeometryCollection(parts) => Shape::GeometryCollection(
            Seq::new(
                parts.len(),
                |i: int|
                    if 0 <= i < parts.len() {
                        evened(parts[i])
                    } else {
                        arbitrary()
                    },
            ),
        ),
    }
}

/// Whether a count fits its four bytes.
pub open spec fn is_count(n: nat) -> bool {
    n < 0x1_0000_0000
}

pub open spec fn are_counted(rings: Seq<Seq<Position<u64>>>) -> bool {
    &&& is_count(rings.len())
    &&& forall|i: int| 0 <= i < rings.len() ==> is_count((#[trigger] rings[i]).len())
}

/// Whether every count of a geometry fits its four bytes.
pub open spec fn is_counted(s: Shape<u64>) -> bool
    decreases s,
{
    match s {
        Shape::Point(_) => true,
        Shape::LineString(run) => is_count(run.len()),
        Shape::MultiPoint(run) => is_count(run.len()),
        Shape::Polygon(rings) => are_counted(rings),
        Shape::MultiLineString(lines) => are_counted(lines),
        Shape::MultiPolygon(polygons) => {
            &&& is_count(polygons.len())
            &&& forall|i: int| 0 <= i < polygons.len() ==> are_counted(#[trigger] polygons[i])
        },
        Shape::GeometryCollection(parts) => {
            &&& is_count(parts.len())
            &&& forall|i: int| 0 <= i < parts.len() ==> is_counted(#[trigger] parts[i])
        },
    }
}

// --- the same bytes ------------------------------------------------------------------------

proof fn lemma_run_bytes(run: Seq<Position<u64>>, dim: Dim)
    ensures
        coords_bytes(evened_run(run, dim), dim) == coords_bytes(run, dim),
        line_bytes(evened_run(run, dim), dim) == line_bytes(run, dim),
    decreases run.len(),
{
    let even = evened_run(run, dim);
    if run.len() > 0 {
        lemma_run_bytes(run.drop_last(), dim);
        assert(even.drop_last() =~= evened_run(run.drop_last(), dim));
        assert(even.last() == evened_position(run.last(), dim));
        assert(coord_bytes(even.last(), dim) == coord_bytes(run.last(), dim));
    }
}

proof fn lemma_rings_bytes(rings: Seq<Seq<Position<u64>>>, dim: Dim)
    ensures
        rings_bytes(evened_rings(rings, dim), dim) == rings_bytes(rings, dim),
    decreases rings.len(),
{
    let even = evened_rings(rings, dim);
    if rings.len() > 0 {
        lemma_rings_bytes(rings.drop_last(), dim);
        lemma_run_bytes(rings.last(), dim);
        assert(even.drop_last() =~= evened_rings(rings.drop_last(), dim));
        assert(even.last() == evened_run(rings.last(), dim));
    }
}

proof fn lemma_run_is_even(run: Seq<Position<u64>>, dim: Dim)
    requires
        is_count(run.len()),
    ensures
        run_is(evened_run(run, dim), dim),
{
}

proof fn lemma_first_is_even(run: Seq<Position<u64>>)
    ensures
        run_dim(evened_run(run, run_dim(run))) == run_dim(run),
{
    let even = evened_run(run, run_dim(run));
    if run.len() > 0 {
        assert(even[0] == evened_position(run[0], run_dim(run)));
    }
}

proof fn lemma_first_ring_is_even(rings: Seq<Seq<Position<u64>>>)
    ensures
        runs_dim(evened_rings(rings, runs_dim(rings))) == runs_dim(rings),
{
    let even = evened_rings(rings, runs_dim(rings));
    if rings.len() > 0 {
        assert(even[0] == evened_run(rings[0], runs_dim(rings)));
        lemma_first_is_even(rings[0]);
    }
}

/// A point, a line or a polygon has the bytes of what it is evened to.
proof fn lemma_simple_bytes(s: Shape<u64>)
    requires
        s is Point || s is LineString || s is Polygon,
        is_counted(s),
    ensures
        simple_bytes(evened(s)) == simple_bytes(s),
        simple_uniform(evened(s)),
        shape_dim(evened(s)) == shape_dim(s),
{
    match s {
        Shape::LineString(run) => {
            lemma_run_bytes(run, run_dim(run));
            lemma_first_is_even(run);
            lemma_run_is_even(run, run_dim(run));
        },
        Shape::Polygon(rings) => {
            let dim = runs_dim(rings);
            let even = evened_rings(rings, dim);
            lemma_rings_bytes(rings, dim);
            lemma_first_ring_is_even(rings);
            assert forall|i: int| 0 <= i < even.len() implies run_is(#[trigger] even[i], dim) by {
                assert(is_count(rings[i].len()));
                lemma_run_is_even(rings[i], dim);
            }
        },
        _ => {},
    }
}

proof fn lemma_simples_bytes(a: Seq<Shape<u64>>, b: Seq<Shape<u64>>)
    requires
        a.len() == b.len(),
        forall|i: int| 0 <= i < a.len() ==> simple_bytes(#[trigger] a[i]) == simple_bytes(b[i]),
    ensures
        simples_bytes(a) == simples_bytes(b),
    decreases a.len(),
{
    if a.len() > 0 {
        let x = a.drop_last();
        let y = b.drop_last();
        assert forall|i: int| 0 <= i < x.len() implies simple_bytes(#[trigger] x[i])
            == simple_bytes(y[i]) by {
            assert(x[i] == a[i]);
        }
        lemma_simples_bytes(x, y);
        assert(simple_bytes(a[a.len() - 1]) == simple_bytes(b[a.len() - 1]));
    }
}

proof fn lemma_parts_bytes(a: Seq<Shape<u64>>, b: Seq<Shape<u64>>)
    requires
        a.len() == b.len(),
        forall|i: int| 0 <= i < a.len() ==> wkb_bytes(#[trigger] a[i]) == wkb_bytes(b[i]),
    ensures
        parts_bytes(a) == parts_bytes(b),
    decreases a.len(),
{
    if a.len() > 0 {
        let x = a.drop_last();
        let y = b.drop_last();
        assert forall|i: int| 0 <= i < x.len() implies wkb_bytes(#[trigger] x[i]) == wkb_bytes(
            y[i],
        ) by {
            assert(x[i] == a[i]);
        }
        lemma_parts_bytes(x, y);
        assert(wkb_bytes(a[a.len() - 1]) == wkb_bytes(b[a.len() - 1]));
    }
}

/// The members of a multi-geometry are evened one by one.
proof fn lemma_members_are_evened(s: Shape<u64>)
    requires
        s is MultiPoint || s is MultiLineString || s is MultiPolygon,
        is_counted(s),
    ensures
        members(evened(s)).len() == members(s).len(),
        forall|i: int|
            0 <= i < members(s).len() ==> {
                &&& #[trigger] members(evened(s))[i] == evened(members(s)[i])
                &&& members(s)[i] is Point || members(s)[i] is LineString || members(
                    s,
                )[i] is Polygon
                &&& is_counted(members(s)[i])
            },
        members(s).len() > 0 ==> shape_dim(s) == shape_dim(members(s)[0]),
        members(s).len() > 0 ==> shape_dim(evened(s)) == shape_dim(members(evened(s))[0]),
        members(s).len() == 0 ==> shape_dim(s) == shape_dim(evened(s)),
        is_count(members(s).len()),
{
    match s {
        Shape::MultiPoint(run) => {},
        Shape::MultiLineString(lines) => {
            let even = evened(s)->MultiLineString_0;
            assert forall|i: int| 0 <= i < lines.len() implies {
                &&& #[trigger] members(evened(s))[i] == evened(members(s)[i])
                &&& is_counted(members(s)[i])
            } by {
                assert(is_count(lines[i].len()));
                assert(even[i] == evened_run(lines[i], run_dim(lines[i])));
            }
        },
        Shape::MultiPolygon(polygons) => {
            let even = evened(s)->MultiPolygon_0;
            assert forall|i: int| 0 <= i < polygons.len() implies {
                &&& #[trigger] members(evened(s))[i] == evened(members(s)[i])
                &&& is_counted(members(s)[i])
            } by {
                assert(are_counted(polygons[i]));
                assert(even[i] == evened_rings(polygons[i], runs_dim(polygons[i])));
            }
        },
        _ => {},
    }
}

/// A geometry has the bytes of what it is evened to, which can be read back.
proof fn lemma_evened_bytes(s: Shape<u64>)
    requires
        is_counted(s),
    ensures
        wkb_bytes(evened(s)) == wkb_bytes(s),
        uniform(evened(s)),
        shape_dim(evened(s)) == shape_dim(s),
    decreases s,
{
    match s {
        Shape::GeometryCollection(parts) => {
            let even = evened(s)->GeometryCollection_0;
            assert forall|i: int| 0 <= i < parts.len() implies wkb_bytes(#[trigger] even[i])
                == wkb_bytes(parts[i]) && uniform(even[i]) && shape_dim(even[i]) == shape_dim(
                parts[i],
            ) by {
                assert(is_counted(parts[i]));
                lemma_evened_bytes(parts[i]);
            }
            lemma_parts_bytes(even, parts);
            if parts.len() > 0 {
                assert(shape_dim(even[0]) == shape_dim(parts[0]));
            }
        },
        Shape::MultiPoint(_) | Shape::MultiLineString(_) | Shape::MultiPolygon(_) => {
            let a = members(evened(s));
            let b = members(s);
            lemma_members_are_evened(s);
            assert forall|i: int| 0 <= i < a.len() implies simple_bytes(#[trigger] a[i])
                == simple_bytes(b[i]) && simple_uniform(a[i]) && shape_dim(a[i]) == shape_dim(
                b[i],
            ) by {
                lemma_simple_bytes(b[i]);
            }
            lemma_simples_bytes(a, b);
            if a.len() > 0 {
                assert(shape_dim(a[0]) == shape_dim(b[0]));
            }
        },
        _ => {
            lemma_simple_bytes(s);
        },
    }
}

/// Decoding the encoding of any geometry gives the geometry with every line and list of
/// rings at the dimensionality of its first position.
pub proof fn law_wkb_is_read_evened(s: Shape<u64>)
    requires
        is_counted(s),
    ensures
        decoded(wkb_bytes(s)) == Ok::<Shape<u64>, Failure>(evened(s)),
{
    lemma_evened_bytes(s);
    law_wkb_round_trip(evened(s));
}

// --- what is even stays --------------------------------------------------------------------

proof fn lemma_even_run_stays(run: Seq<Position<u64>>, dim: Dim)
    requires
        run_is(run, dim),
    ensures
        evened_run(run, dim) == run,
{
    assert forall|i: int| 0 <= i < run.len() implies #[trigger] evened_run(run, dim)[i]
        == run[i] by {
        assert(Dim::spec_of(run[i]) == dim);
    }
    assert(evened_run(run, dim) =~= run);
}

proof fn lemma_even_simple_stays(s: Shape<u64>)
    requires
        simple_uniform(s),
    ensures
        evened(s) == s,
        is_counted(s),
{
    match s {
        Shape::LineString(run) => {
            lemma_even_run_stays(run, run_dim(run));
        },
        Shape::Polygon(rings) => {
            let even = evened_rings(rings, runs_dim(rings));
            assert forall|i: int| 0 <= i < rings.len() implies #[trigger] even[i] == rings[i]
                && is_count(rings[i].len()) by {
                assert(run_is(rings[i], runs_dim(rings)));
                lemma_even_run_stays(rings[i], runs_dim(rings));
            }
            assert(even =~= rings);
        },
        _ => {},
    }
}

/// A geometry whose lines and lists of rings each have one dimensionality is evened to
/// itself.
pub proof fn law_uniform_stays(s: Shape<u64>)
    requires
        uniform(s),
    ensures
        evened(s) == s,
        is_counted(s),
    decreases s,
{
    match s {
        Shape::GeometryCollection(parts) => {
            let even = evened(s)->GeometryCollection_0;
            assert forall|i: int| 0 <= i < parts.len() implies #[trigger] even[i] == parts[i]
                && is_counted(parts[i]) by {
                assert(uniform(parts[i]));
                law_uniform_stays(parts[i]);
            }
            assert(even =~= parts);
        },
        Shape::MultiPoint(run) => {
            assert(members(s).len() == run.len());
        },
        Shape::MultiLineString(lines) => {
            let even = evened(s)->MultiLineString_0;
            assert(members(s).len() == lines.len());
            assert forall|i: int| 0 <= i < lines.len() implies #[trigger] even[i] == lines[i]
                && is_count(lines[i].len()) by {
                assert(simple_uniform(members(s)[i]));
                lemma_even_simple_stays(members(s)[i]);
            }
            assert(even =~= lines);
        },
        Shape::MultiPolygon(polygons) => {
            let even = evened(s)->MultiPolygon_0;
            assert(members(s).len() == polygons.len());
            assert forall|i: int| 0 <= i < polygons.len() implies #[trigger] even[i] == polygons[i]
                && are_counted(polygons[i]) by {
                assert(simple_uniform(members(s)[i]));
                lemma_even_simple_stays(members(s)[i]);
            }
            assert(even =~= polygons);
        },
        _ => {
            lemma_even_simple_stays(s);
        },
    }
}

} // verus!
