//! Uniform geometries, with their ordinates written plainly.
use vstd::prelude::*;

use super::wkb::Dim;
use super::wkt::{
    body_text, coord_text, dim_of, header_text, parts_rest, polygons_dim, polygons_rest, run_dim,
    run_rest, runs_dim, runs_rest, shape_dim, wkt_text,
};
use super::wkt_round_trip::{
    are_regular_runs, is_plain, is_regular, is_regular_run, is_regular_shape,
};
use super::{Position, Shape};
use crate::decimal::{is_finite_text, law_unsigned_is_plain, unsigned_plain};
use crate::geojson::round_trip::{
    are_writable_runs, is_writable, is_writable_run, is_writable_shape,
};

verus! {

// --- plain ordinates -----------------------------------------------------------------------

/// A position without its M, its ordinates written plainly, zero without a sign.
pub open spec fn plain_position(p: Position<Seq<char>>) -> Position<Seq<char>> {
    Position {
        x: unsigned_plain(p.x),
        y: unsigned_plain(p.y),
        z: match p.z {
            Some(z) => Some(unsigned_plain(z)),
            None => None,
        },
        m: None,
    }
}

pub open spec fn plain_run(run: Seq<Position<Seq<char>>>) -> Seq<Position<Seq<char>>> {
    run.map_values(|p: Position<Seq<char>>| plain_position(p))
}

pub open spec fn plain_runs(runs: Seq<Seq<Position<Seq<char>>>>) -> Seq<Seq<Position<Seq<char>>>> {
    runs.map_values(|run: Seq<Position<Seq<char>>>| plain_run(run))
}

/// A geometry without its Ms, its ordinates written plainly.
pub open spec fn plain_shape(s: Shape<Seq<char>>) -> Shape<Seq<char>>
    decreases s,
{
    match s {
        Shape::Point(p) => Shape::Point(plain_position(p)),
        Shape::LineString(run) => Shape::LineString(plain_run(run)),
        Shape::MultiPoint(run) => Shape::MultiPoint(plain_run(run)),
        Shape::Polygon(rings) => Shape::Polygon(plain_runs(rings)),
        Shape::MultiLineString(lines) => Shape::MultiLineString(plain_runs(lines)),
        Shape::MultiPolygon(polygons) => Shape::MultiPolygon(
            polygons.map_values(|rings: Seq<Seq<Position<Seq<char>>>>| plain_runs(rings)),
        ),
        Shape::GeometryCollection(parts) => Shape::GeometryCollection(
            Seq::new(
                parts.len(),
                |i: int|
                    if 0 <= i < parts.len() {
                        plain_shape(parts[i])
                    } else {
                        arbitrary()
                    },
            ),
        ),
    }
}

// --- uniform geometries --------------------------------------------------------------------

/// Whether a position has no M, a Z or none as the dimensionality says, and ordinates
/// within the range of a double.
pub open spec fn is_uniform(p: Position<Seq<char>>, dim: Dim) -> bool {
    &&& dim_of(p) == dim
    &&& p.m is None
    &&& is_finite_text(p.x)
    &&& is_finite_text(p.y)
    &&& p.z is Some ==> is_finite_text(p.z->0)
}

pub open spec fn is_uniform_run(run: Seq<Position<Seq<char>>>, dim: Dim) -> bool {
    &&& run.len() > 0
    &&& forall|i: int| 0 <= i < run.len() ==> is_uniform(#[trigger] run[i], dim)
}

pub open spec fn are_uniform_runs(runs: Seq<Seq<Position<Seq<char>>>>, dim: Dim) -> bool {
    &&& runs.len() > 0
    &&& forall|i: int| 0 <= i < runs.len() ==> is_uniform_run(#[trigger] runs[i], dim)
}

/// Whether no position of a geometry has an M, all have a Z or none has, the members of
/// a collection apart, and no list in it is empty.
pub open spec fn is_uniform_shape(s: Shape<Seq<char>>) -> bool
    decreases s,
{
    match s {
        Shape::Point(p) => is_uniform(p, dim_of(p)),
        Shape::LineString(run) => is_uniform_run(run, run_dim(run)),
        Shape::MultiPoint(run) => is_uniform_run(run, run_dim(run)),
        Shape::Polygon(rings) => are_uniform_runs(rings, runs_dim(rings)),
        Shape::MultiLineString(lines) => are_uniform_runs(lines, runs_dim(lines)),
        Shape::MultiPolygon(polygons) => {
            &&& polygons.len() > 0
            &&& forall|i: int|
                0 <= i < polygons.len() ==> are_uniform_runs(
                    #[trigger] polygons[i],
                    polygons_dim(polygons),
                )
        },
        Shape::GeometryCollection(parts) => {
            &&& parts.len() > 0
            &&& forall|i: int| 0 <= i < parts.len() ==> is_uniform_shape(#[trigger] parts[i])
        },
    }
}

// --- the same text -------------------------------------------------------------------------

proof fn lemma_uniform_position(p: Position<Seq<char>>, dim: Dim)
    requires
        is_uniform(p, dim),
    ensures
        coord_text(plain_position(p)) == coord_text(p),
        is_regular(plain_position(p), dim),
        is_writable(plain_position(p)),
{
    law_unsigned_is_plain(p.x);
    law_unsigned_is_plain(p.y);
    assert(is_plain(unsigned_plain(p.x)));
    assert(is_plain(unsigned_plain(p.y)));
    if let Some(z) = p.z {
        law_unsigned_is_plain(z);
        assert(is_plain(unsigned_plain(z)));
    }
}

proof fn lemma_uniform_run(run: Seq<Position<Seq<char>>>, dim: Dim, i: int)
    requires
        is_uniform_run(run, dim),
        0 <= i,
    ensures
        run_rest(plain_run(run), i) == run_rest(run, i),
        is_regular_run(plain_run(run), dim),
        is_writable_run(plain_run(run)),
        run_dim(run) == dim,
        run_dim(plain_run(run)) == dim,
    decreases run.len() - i,
{
    let plain = plain_run(run);
    assert forall|k: int| 0 <= k < plain.len() implies is_regular(
        #[trigger] plain[k],
        dim,
    ) && is_writable(plain[k]) && coord_text(plain[k]) == coord_text(run[k]) by {
        assert(is_uniform(run[k], dim));
        lemma_uniform_position(run[k], dim);
    }
    assert(is_uniform(run[0], dim));
    assert(plain[0] == plain_position(run[0]));
    if i < run.len() {
        lemma_uniform_run(run, dim, i + 1);
        assert(is_regular(plain[i], dim));
    }
}

proof fn lemma_uniform_runs(runs: Seq<Seq<Position<Seq<char>>>>, dim: Dim, i: int)
    requires
        are_uniform_runs(runs, dim),
        0 <= i,
    ensures
        runs_rest(plain_runs(runs), i) == runs_rest(runs, i),
        are_regular_runs(plain_runs(runs), dim),
        are_writable_runs(plain_runs(runs)),
        runs_dim(runs) == dim,
        runs_dim(plain_runs(runs)) == dim,
    decreases runs.len() - i,
{
    let plain = plain_runs(runs);
    assert forall|k: int| 0 <= k < plain.len() implies is_regular_run(
        #[trigger] plain[k],
        dim,
    ) && is_writable_run(plain[k]) by {
        assert(is_uniform_run(runs[k], dim));
        lemma_uniform_run(runs[k], dim, 0);
    }
    assert(is_uniform_run(runs[0], dim));
    lemma_uniform_run(runs[0], dim, 0);
    assert(plain[0] == plain_run(runs[0]));
    if i < runs.len() {
        lemma_uniform_runs(runs, dim, i + 1);
        assert(is_uniform_run(runs[i], dim));
        lemma_uniform_run(runs[i], dim, 0);
        assert(plain[i] == plain_run(runs[i]));
    }
}

proof fn lemma_uniform_polygons(
    polygons: Seq<Seq<Seq<Position<Seq<char>>>>>,
    dim: Dim,
    i: int,
)
    requires
        polygons.len() > 0,
        forall|k: int| 0 <= k < polygons.len() ==> are_uniform_runs(#[trigger] polygons[k], dim),
        0 <= i,
    ensures
        ({
            let plain = polygons.map_values(
                |rings: Seq<Seq<Position<Seq<char>>>>| plain_runs(rings),
            );
            &&& polygons_rest(plain, i) == polygons_rest(polygons, i)
            &&& polygons_dim(polygons) == dim
            &&& polygons_dim(plain) == dim
            &&& forall|k: int|
                0 <= k < plain.len() ==> are_regular_runs(
                    #[trigger] plain[k],
                    dim,
                ) && are_writable_runs(plain[k])
        }),
    decreases polygons.len() - i,
{
    let plain = polygons.map_values(|rings: Seq<Seq<Position<Seq<char>>>>| plain_runs(rings));
    assert forall|k: int| 0 <= k < plain.len() implies are_regular_runs(
        #[trigger] plain[k],
        dim,
    ) && are_writable_runs(plain[k]) by {
        assert(are_uniform_runs(polygons[k], dim));
        lemma_uniform_runs(polygons[k], dim, 0);
    }
    assert(are_uniform_runs(polygons[0], dim));
    lemma_uniform_runs(polygons[0], dim, 0);
    assert(plain[0] == plain_runs(polygons[0]));
    if i < polygons.len() {
        lemma_uniform_polygons(polygons, dim, i + 1);
        assert(are_uniform_runs(polygons[i], dim));
        lemma_uniform_runs(polygons[i], dim, 0);
        assert(plain[i] == plain_runs(polygons[i]));
    }
}

/// A uniform geometry has the text of the same geometry with its ordinates written plainly,
/// which can be read from WKT and from GeoJSON.
pub proof fn lemma_uniform_shape(s: Shape<Seq<char>>)
    requires
        is_uniform_shape(s),
    ensures
        wkt_text(plain_shape(s)) == wkt_text(s),
        header_text(plain_shape(s)) == header_text(s),
        body_text(plain_shape(s)) == body_text(s),
        shape_dim(plain_shape(s)) == shape_dim(s),
        is_regular_shape(plain_shape(s)),
        is_writable_shape(plain_shape(s)),
    decreases s, 0nat,
{
    let dim = shape_dim(s);
    match s {
        Shape::Point(p) => {
            lemma_uniform_position(p, dim);
        },
        Shape::LineString(run) => {
            lemma_uniform_run(run, dim, 0);
        },
        Shape::MultiPoint(run) => {
            lemma_uniform_run(run, dim, 0);
        },
        Shape::Polygon(rings) => {
            lemma_uniform_runs(rings, dim, 0);
        },
        Shape::MultiLineString(lines) => {
            lemma_uniform_runs(lines, dim, 0);
        },
        Shape::MultiPolygon(polygons) => {
            lemma_uniform_polygons(polygons, dim, 0);
        },
        Shape::GeometryCollection(parts) => {
            let plain = plain_shape(s)->GeometryCollection_0;
            assert forall|k: int| 0 <= k < parts.len() implies is_regular_shape(#[trigger] plain[k])
                && is_writable_shape(plain[k]) && header_text(plain[k]) == header_text(parts[k])
                && body_text(plain[k]) == body_text(parts[k]) && shape_dim(plain[k]) == shape_dim(
                parts[k],
            ) by {
                assert(is_uniform_shape(parts[k]));
                lemma_uniform_shape(parts[k]);
            }
            lemma_parts_text(plain, parts, 0);
            assert(plain[0] == plain_shape(parts[0]));
        },
    }
}

proof fn lemma_parts_text(a: Seq<Shape<Seq<char>>>, b: Seq<Shape<Seq<char>>>, i: int)
    requires
        a.len() == b.len(),
        0 <= i,
        forall|k: int|
            0 <= k < a.len() ==> header_text(#[trigger] a[k]) == header_text(b[k]) && body_text(a[k])
                == body_text(b[k]),
    ensures
        parts_rest(a, i) == parts_rest(b, i),
    decreases a.len() - i,
{
    if i < a.len() {
        lemma_parts_text(a, b, i + 1);
        assert(header_text(a[i]) == header_text(b[i]));
    }
}

} // verus!
