//! Writing FlatGeobuf.
use vstd::prelude::*;
use vstd::utf8::*;

use super::index::{fan_out, leaves, nodes_bytes, packed_rtree, tree};
use super::{
    COLUMN_BOOL, COLUMN_DOUBLE, COLUMN_FIELDS, COLUMN_LONG, COLUMN_NAME, COLUMN_STRING, COLUMN_TYPE,
    CRS_CODE, CRS_FIELDS, CRS_ORG, CRS_WKT, FEATURE_FIELDS, FEATURE_GEOMETRY, FEATURE_PROPERTIES,
    GEOMETRYCOLLECTION, GEOMETRY_ENDS, GEOMETRY_FIELDS, GEOMETRY_M, GEOMETRY_PARTS, GEOMETRY_TYPE,
    GEOMETRY_XY, GEOMETRY_Z, HEADER_COLUMNS, HEADER_CRS, HEADER_ENVELOPE, HEADER_FEATURES_COUNT,
    HEADER_FIELDS, HEADER_GEOMETRY_TYPE, HEADER_HAS_M, HEADER_HAS_Z, HEADER_INDEX_NODE_SIZE,
    HEADER_NAME, LINESTRING, MULTILINESTRING, MULTIPOINT, MULTIPOLYGON, POINT, POLYGON, UNKNOWN,
};
use crate::bytes::{le_bytes, push_le, unsigned, unsigned64};
use crate::crs::system::{crs_view, Crs, System};
use crate::feature::{features_view, Feature, FeatureCollection, Item};
use crate::flatbuffers::{
    lemma_reach, lemma_reach_all, lemma_table_is_written, Builder, Draft,
};
use crate::geometry::ordinate::is_above;
use crate::geometry::{
    empty_bbox, folded, joined, lemma_collection_view, polygons_view, positions, run_view,
    runs_view, shapes_view, Bbox, Geometry, Position, Shape,
};
use crate::number::{integer_of, parse_integer};
use crate::schema::{columns_view, is_column, Cell, Column, ColumnType, Datum, Field};
use crate::text::{opt_clone, opt_view};

verus! {

/// The fan-out of the index: the format's default.
pub const NODE_SIZE: u16 = 16;

/// The value before which an absent column type would be read: no type has it,
/// so that the type is always written.
pub const NO_COLUMN_TYPE: u8 = 255;

// --- geometry ------------------------------------------------------------------------

/// The type of a geometry.
pub open spec fn shape_code(s: Shape<u64>) -> u8 {
    match s {
        Shape::Point(_) => POINT,
        Shape::LineString(_) => LINESTRING,
        Shape::Polygon(_) => POLYGON,
        Shape::MultiPoint(_) => MULTIPOINT,
        Shape::MultiLineString(_) => MULTILINESTRING,
        Shape::MultiPolygon(_) => MULTIPOLYGON,
        Shape::GeometryCollection(_) => GEOMETRYCOLLECTION,
    }
}

/// X and Y of positions, in turn.
pub open spec fn xy_of(ps: Seq<Position<u64>>) -> Seq<u64> {
    Seq::new(
        2 * ps.len(),
        |i: int|
            if i % 2 == 0 {
                ps[i / 2].x
            } else {
                ps[i / 2].y
            },
    )
}

/// An ordinate, or zero where there is none: the vectors have no mark for a
/// position that lacks one.
pub open spec fn or_zero(v: Option<u64>) -> u64 {
    match v {
        Some(v) => v,
        None => 0,
    }
}

pub open spec fn z_of(ps: Seq<Position<u64>>) -> Seq<u64> {
    ps.map_values(|p: Position<u64>| or_zero(p.z))
}

pub open spec fn m_of(ps: Seq<Position<u64>>) -> Seq<u64> {
    ps.map_values(|p: Position<u64>| or_zero(p.m))
}

/// Whether a run has Z and M: whether its first position has.
pub open spec fn dims_of(ps: Seq<Position<u64>>) -> (bool, bool) {
    if ps.len() == 0 {
        (false, false)
    } else {
        (ps[0].z is Some, ps[0].m is Some)
    }
}

/// Whether runs have Z and M: whether the first has.
pub open spec fn dims_of_runs(runs: Seq<Seq<Position<u64>>>) -> (bool, bool) {
    if runs.len() == 0 {
        (false, false)
    } else {
        dims_of(runs[0])
    }
}

/// How many positions there are up to the end of each run.
pub open spec fn ends_of(runs: Seq<Seq<Position<u64>>>) -> Seq<u32> {
    Seq::new(runs.len(), |i: int| (joined(runs.take(i + 1)).len() % 0x1_0000_0000) as u32)
}

/// A reference field, where there is something to refer to.
pub open spec fn with_optional(d: Draft, field: int, target: Option<nat>) -> Draft {
    match target {
        Some(t) => d.with_reference(field, t),
        None => d,
    }
}

/// A vector of doubles, where there is one.
pub open spec fn doubles_drawn(d: Draft, vals: Option<Seq<u64>>) -> (Draft, Option<nat>) {
    match vals {
        Some(v) => (d.with_f64_vector(v), Some(d.with_f64_vector(v).bytes.len())),
        None => (d, None),
    }
}

/// A vector of 32-bit numbers, where there is one.
pub open spec fn numbers_drawn(d: Draft, vals: Option<Seq<u32>>) -> (Draft, Option<nat>) {
    match vals {
        Some(v) => (d.with_u32_vector(v), Some(d.with_u32_vector(v).bytes.len())),
        None => (d, None),
    }
}

/// The fields of a geometry's table, each where there is a vector for it.
pub struct Targets {
    pub ends: Option<nat>,
    pub xy: Option<nat>,
    pub z: Option<nat>,
    pub m: Option<nat>,
    pub parts: Option<nat>,
}

/// A geometry's table, before it is ended.
pub open spec fn geometry_fields(d: Draft, ty: u8, t: Targets) -> Draft {
    let d0 = d.table_started(GEOMETRY_FIELDS as nat).with_field(
        GEOMETRY_TYPE as int,
        ty as nat,
        1,
        UNKNOWN as nat,
    );
    let d1 = with_optional(d0, GEOMETRY_ENDS as int, t.ends);
    let d2 = with_optional(d1, GEOMETRY_XY as int, t.xy);
    let d3 = with_optional(d2, GEOMETRY_Z as int, t.z);
    let d4 = with_optional(d3, GEOMETRY_M as int, t.m);
    with_optional(d4, GEOMETRY_PARTS as int, t.parts)
}

/// A geometry's table, and its distance from the end.
#[verifier::opaque]
pub open spec fn geometry_table(d: Draft, ty: u8, t: Targets) -> (Draft, nat) {
    let open = geometry_fields(d, ty, t);
    (open.table_ended(), open.table_rev())
}

/// A geometry of positions alone: its vectors and its table.
pub open spec fn simple_drawn(
    d: Draft,
    ty: u8,
    ps: Seq<Position<u64>>,
    ends: Option<Seq<u32>>,
    dims: (bool, bool),
) -> (Draft, nat) {
    let d1 = d.with_f64_vector(xy_of(ps));
    let (d2, e) = numbers_drawn(d1, ends);
    let (d3, z) = doubles_drawn(
        d2,
        if dims.0 {
            Some(z_of(ps))
        } else {
            None
        },
    );
    let (d4, m) = doubles_drawn(
        d3,
        if dims.1 {
            Some(m_of(ps))
        } else {
            None
        },
    );
    geometry_table(d4, ty, Targets { ends: e, xy: Some(d1.bytes.len()), z, m, parts: None })
}

/// A geometry of one run.
#[verifier::opaque]
pub open spec fn run_drawn(d: Draft, ty: u8, ps: Seq<Position<u64>>) -> (Draft, nat) {
    simple_drawn(d, ty, ps, None, dims_of(ps))
}

/// A geometry of runs, with their ends where there is more than one.
#[verifier::opaque]
pub open spec fn runs_drawn(d: Draft, ty: u8, runs: Seq<Seq<Position<u64>>>) -> (Draft, nat) {
    simple_drawn(
        d,
        ty,
        joined(runs),
        if runs.len() > 1 {
            Some(ends_of(runs))
        } else {
            None
        },
        dims_of_runs(runs),
    )
}

/// The first `n` of a list of polygons, and their distances from the end.
pub open spec fn polygons_drawn(d: Draft, polygons: Seq<Seq<Seq<Position<u64>>>>, n: int) -> (
    Draft,
    Seq<nat>,
)
    decreases n,
{
    if n <= 0 {
        (d, Seq::empty())
    } else {
        let (before, revs) = polygons_drawn(d, polygons, n - 1);
        let (after, rev) = runs_drawn(before, POLYGON, polygons[n - 1]);
        (after, revs.push(rev))
    }
}

/// The table of a geometry whose parts have been drawn.
#[verifier::opaque]
pub open spec fn whole_drawn(d: Draft, ty: u8, revs: Seq<nat>) -> (Draft, nat) {
    let v = d.with_offset_vector(revs);
    geometry_table(
        v,
        ty,
        Targets { ends: None, xy: None, z: None, m: None, parts: Some(v.bytes.len()) },
    )
}

/// A geometry, and its distance from the end.
pub open spec fn shape_drawn(d: Draft, s: Shape<u64>) -> (Draft, nat)
    decreases s,
{
    match s {
        Shape::Point(p) => run_drawn(d, POINT, seq![p]),
        Shape::LineString(ps) => run_drawn(d, LINESTRING, ps),
        Shape::MultiPoint(ps) => run_drawn(d, MULTIPOINT, ps),
        Shape::Polygon(rings) => runs_drawn(d, POLYGON, rings),
        Shape::MultiLineString(lines) => runs_drawn(d, MULTILINESTRING, lines),
        Shape::MultiPolygon(polygons) => {
            let (after, revs) = polygons_drawn(d, polygons, polygons.len() as int);
            whole_drawn(after, MULTIPOLYGON, revs)
        },
        Shape::GeometryCollection(parts) => {
            let (after, revs) = parts_drawn(d, parts);
            whole_drawn(after, GEOMETRYCOLLECTION, revs)
        },
    }
}

/// A list of geometries, and their distances from the end.
pub open spec fn parts_drawn(d: Draft, parts: Seq<Shape<u64>>) -> (Draft, Seq<nat>)
    decreases parts,
{
    if parts.len() == 0 {
        (d, Seq::empty())
    } else {
        let (before, revs) = parts_drawn(d, parts.drop_last());
        let (after, rev) = shape_drawn(before, parts[parts.len() - 1]);
        (after, revs.push(rev))
    }
}

fn fgb_geometry_type(g: &Geometry<u64>) -> (r: u8)
    ensures
        r == shape_code(g@),
{
    match g {
        Geometry::Point(_) => POINT,
        Geometry::LineString(_) => LINESTRING,
        Geometry::Polygon(_) => POLYGON,
        Geometry::MultiPoint(_) => MULTIPOINT,
        Geometry::MultiLineString(_) => MULTILINESTRING,
        Geometry::MultiPolygon(_) => MULTIPOLYGON,
        Geometry::GeometryCollection(_) => GEOMETRYCOLLECTION,
    }
}

proof fn lemma_xy_of_concat(a: Seq<Position<u64>>, b: Seq<Position<u64>>)
    ensures
        xy_of(a + b) == xy_of(a) + xy_of(b),
        z_of(a + b) == z_of(a) + z_of(b),
        m_of(a + b) == m_of(a) + m_of(b),
{
    assert(xy_of(a + b) =~= xy_of(a) + xy_of(b)) by {
        assert forall|i: int| 0 <= i < 2 * (a.len() + b.len()) implies xy_of(a + b)[i] == (xy_of(a)
            + xy_of(b))[i] by {
            if i >= 2 * a.len() {
                assert((i - 2 * a.len()) / 2 == i / 2 - a.len());
                assert((i - 2 * a.len()) % 2 == i % 2);
            }
        }
    }
    assert(z_of(a + b) =~= z_of(a) + z_of(b));
    assert(m_of(a + b) =~= m_of(a) + m_of(b));
}

/// Append X and Y of a run.
fn flatten(ps: &Vec<Position<u64>>, out: &mut Vec<u64>)
    ensures
        final(out)@ == old(out)@ + xy_of(run_view(ps@)),
{
    let ghost all = run_view(ps@);
    let mut i: usize = 0;
    assert(xy_of(all.take(0)) =~= Seq::empty());
    while i < ps.len()
        invariant
            i <= ps@.len(),
            all == run_view(ps@),
            out@ == old(out)@ + xy_of(all.take(i as int)),
        decreases ps@.len() - i,
    {
        let ghost before = out@;
        out.push(ps[i].x);
        out.push(ps[i].y);
        proof {
            let p = all[i as int];
            lemma_xy_of_concat(all.take(i as int), seq![p]);
            assert(all.take(i + 1) =~= all.take(i as int) + seq![p]);
            assert(xy_of(seq![p]) =~= seq![p.x, p.y]);
            assert(p == ps@[i as int]@);
            assert(out@ =~= before + seq![p.x, p.y]);
        }
        i += 1;
    }
    assert(all.take(i as int) =~= all);
}

/// Append Z of a run.
fn flatten_z(ps: &Vec<Position<u64>>, out: &mut Vec<u64>)
    ensures
        final(out)@ == old(out)@ + z_of(run_view(ps@)),
{
    let ghost all = z_of(run_view(ps@));
    let mut i: usize = 0;
    assert(out@ + all.take(0) =~= out@);
    while i < ps.len()
        invariant
            i <= ps@.len(),
            all == z_of(run_view(ps@)),
            out@ == old(out)@ + all.take(i as int),
        decreases ps@.len() - i,
    {
        let v: u64 = match ps[i].z {
            Some(z) => z,
            None => 0,
        };
        out.push(v);
        assert(all.take(i + 1) =~= all.take(i as int).push(v));
        i += 1;
    }
    assert(all.take(i as int) =~= all);
}

/// Append M of a run.
fn flatten_m(ps: &Vec<Position<u64>>, out: &mut Vec<u64>)
    ensures
        final(out)@ == old(out)@ + m_of(run_view(ps@)),
{
    let ghost all = m_of(run_view(ps@));
    let mut i: usize = 0;
    assert(out@ + all.take(0) =~= out@);
    while i < ps.len()
        invariant
            i <= ps@.len(),
            all == m_of(run_view(ps@)),
            out@ == old(out)@ + all.take(i as int),
        decreases ps@.len() - i,
    {
        let v: u64 = match ps[i].m {
            Some(m) => m,
            None => 0,
        };
        out.push(v);
        assert(all.take(i + 1) =~= all.take(i as int).push(v));
        i += 1;
    }
    assert(all.take(i as int) =~= all);
}

fn flatten_rings(rings: &Vec<Vec<Position<u64>>>) -> (out: Vec<u64>)
    ensures
        out@ == xy_of(joined(runs_view(rings@))),
{
    let ghost all = runs_view(rings@);
    let mut out: Vec<u64> = Vec::new();
    let mut i: usize = 0;
    assert(xy_of(joined(all.take(0))) =~= Seq::empty());
    while i < rings.len()
        invariant
            i <= rings@.len(),
            all == runs_view(rings@),
            out@ == xy_of(joined(all.take(i as int))),
        decreases rings@.len() - i,
    {
        flatten(&rings[i], &mut out);
        proof {
            lemma_xy_of_concat(joined(all.take(i as int)), all[i as int]);
            assert(all.take(i + 1).drop_last() =~= all.take(i as int));
        }
        i += 1;
    }
    assert(all.take(i as int) =~= all);
    out
}

fn flatten_rings_z(rings: &Vec<Vec<Position<u64>>>) -> (out: Vec<u64>)
    ensures
        out@ == z_of(joined(runs_view(rings@))),
{
    let ghost all = runs_view(rings@);
    let mut out: Vec<u64> = Vec::new();
    let mut i: usize = 0;
    assert(z_of(joined(all.take(0))) =~= Seq::empty());
    while i < rings.len()
        invariant
            i <= rings@.len(),
            all == runs_view(rings@),
            out@ == z_of(joined(all.take(i as int))),
        decreases rings@.len() - i,
    {
        flatten_z(&rings[i], &mut out);
        proof {
            lemma_xy_of_concat(joined(all.take(i as int)), all[i as int]);
            assert(all.take(i + 1).drop_last() =~= all.take(i as int));
        }
        i += 1;
    }
    assert(all.take(i as int) =~= all);
    out
}

fn flatten_rings_m(rings: &Vec<Vec<Position<u64>>>) -> (out: Vec<u64>)
    ensures
        out@ == m_of(joined(runs_view(rings@))),
{
    let ghost all = runs_view(rings@);
    let mut out: Vec<u64> = Vec::new();
    let mut i: usize = 0;
    assert(m_of(joined(all.take(0))) =~= Seq::empty());
    while i < rings.len()
        invariant
            i <= rings@.len(),
            all == runs_view(rings@),
            out@ == m_of(joined(all.take(i as int))),
        decreases rings@.len() - i,
    {
        flatten_m(&rings[i], &mut out);
        proof {
            lemma_xy_of_concat(joined(all.take(i as int)), all[i as int]);
            assert(all.take(i + 1).drop_last() =~= all.take(i as int));
        }
        i += 1;
    }
    assert(all.take(i as int) =~= all);
    out
}

/// How many positions there are up to the end of each ring or line.
fn ring_ends(rings: &Vec<Vec<Position<u64>>>) -> (ends: Vec<u32>)
    ensures
        ends@ == ends_of(runs_view(rings@)),
{
    let ghost all = runs_view(rings@);
    let mut ends: Vec<u32> = Vec::new();
    let mut total: u64 = 0;
    let mut i: usize = 0;
    while i < rings.len()
        invariant
            i <= rings@.len(),
            all == runs_view(rings@),
            total == joined(all.take(i as int)).len() % 0x1_0000_0000,
            ends@ == ends_of(all).take(i as int),
        decreases rings@.len() - i,
    {
        let n: u64 = rings[i].len() as u64 % 0x1_0000_0000;
        total = (total + n) % 0x1_0000_0000;
        proof {
            assert(all.take(i + 1).drop_last() =~= all.take(i as int));
            assert(all.take(i + 1).last() == all[i as int]);
            assert(joined(all.take(i + 1)).len() == joined(all.take(i as int)).len()
                + rings@[i as int]@.len());
        }
        ends.push(total as u32);
        assert(ends@ =~= ends_of(all).take(i + 1));
        i += 1;
    }
    assert(ends@ =~= ends_of(all));
    ends
}

fn dim_of_first(ps: &Vec<Position<u64>>) -> (r: (bool, bool))
    ensures
        r == dims_of(run_view(ps@)),
{
    if ps.len() == 0 {
        (false, false)
    } else {
        (ps[0].z.is_some(), ps[0].m.is_some())
    }
}

fn dim_of_rings(rings: &Vec<Vec<Position<u64>>>) -> (r: (bool, bool))
    ensures
        r == dims_of_runs(runs_view(rings@)),
{
    if rings.len() == 0 {
        (false, false)
    } else {
        dim_of_first(&rings[0])
    }
}

pub open spec fn as_target(t: Option<usize>) -> Option<nat> {
    match t {
        Some(t) => Some(t as nat),
        None => None,
    }
}

/// Whether a target has been written.
pub open spec fn is_written(t: Option<usize>, d: Draft) -> bool {
    t is Some ==> t->0 <= d.bytes.len()
}

fn add_optional(b: &mut Builder, field: usize, target: Option<usize>)
    requires
        old(b).wf(),
        field < old(b)@.slots.len(),
        is_written(target, old(b)@),
    ensures
        final(b).wf(),
        final(b)@ == with_optional(old(b)@, field as int, as_target(target)),
        final(b)@.slots.len() == old(b)@.slots.len(),
        final(b)@.bytes.len() >= old(b)@.bytes.len(),
{
    if let Some(t) = target {
        proof {
            lemma_reach(b@, t as nat);
        }
        b.add_offset(field, t);
    }
}

fn geom_table(
    b: &mut Builder,
    ty: u8,
    ends: Option<usize>,
    xy: Option<usize>,
    parts: Option<usize>,
    z: Option<usize>,
    m: Option<usize>,
) -> (rev: usize)
    requires
        old(b).wf(),
        is_written(ends, old(b)@),
        is_written(xy, old(b)@),
        is_written(parts, old(b)@),
        is_written(z, old(b)@),
        is_written(m, old(b)@),
    ensures
        final(b).wf(),
        (final(b)@, rev as nat) == geometry_table(
            old(b)@,
            ty,
            (Targets {
                ends: as_target(ends),
                xy: as_target(xy),
                z: as_target(z),
                m: as_target(m),
                parts: as_target(parts),
            }),
        ),
        rev <= final(b)@.bytes.len(),
        old(b)@.bytes.len() <= final(b)@.bytes.len(),
{
    proof {
        reveal(geometry_table);
    }
    b.start_table(GEOMETRY_FIELDS);
    b.add_u8(GEOMETRY_TYPE, ty, UNKNOWN);
    assert(b@.slots.len() == GEOMETRY_FIELDS);
    add_optional(b, GEOMETRY_ENDS, ends);
    add_optional(b, GEOMETRY_XY, xy);
    add_optional(b, GEOMETRY_Z, z);
    add_optional(b, GEOMETRY_M, m);
    add_optional(b, GEOMETRY_PARTS, parts);
    proof {
        lemma_table_is_written(b@);
    }
    b.end_table()
}

fn encode_run(b: &mut Builder, ty: u8, ps: &Vec<Position<u64>>) -> (rev: usize)
    requires
        old(b).wf(),
    ensures
        final(b).wf(),
        (final(b)@, rev as nat) == run_drawn(old(b)@, ty, run_view(ps@)),
        rev <= final(b)@.bytes.len(),
        old(b)@.bytes.len() <= final(b)@.bytes.len(),
{
    proof {
        reveal(run_drawn);
    }
    let mut flat: Vec<u64> = Vec::new();
    flatten(ps, &mut flat);
    assert(flat@ =~= xy_of(run_view(ps@)));
    let xy = b.create_f64_vector(flat.as_slice());
    let dim = dim_of_first(ps);
    let z = if dim.0 {
        let mut flat: Vec<u64> = Vec::new();
        flatten_z(ps, &mut flat);
        assert(flat@ =~= z_of(run_view(ps@)));
        Some(b.create_f64_vector(flat.as_slice()))
    } else {
        None
    };
    let m = if dim.1 {
        let mut flat: Vec<u64> = Vec::new();
        flatten_m(ps, &mut flat);
        assert(flat@ =~= m_of(run_view(ps@)));
        Some(b.create_f64_vector(flat.as_slice()))
    } else {
        None
    };
    geom_table(b, ty, None, Some(xy), None, z, m)
}

#[verifier::spinoff_prover]
#[verifier::rlimit(40)]
fn encode_runs(b: &mut Builder, ty: u8, rings: &Vec<Vec<Position<u64>>>) -> (rev: usize)
    requires
        old(b).wf(),
    ensures
        final(b).wf(),
        (final(b)@, rev as nat) == runs_drawn(old(b)@, ty, runs_view(rings@)),
        rev <= final(b)@.bytes.len(),
        old(b)@.bytes.len() <= final(b)@.bytes.len(),
{
    proof {
        reveal(runs_drawn);
    }
    let flat = flatten_rings(rings);
    let xy = b.create_f64_vector(flat.as_slice());
    let ends = if rings.len() > 1 {
        let ends = ring_ends(rings);
        Some(b.create_u32_vector(ends.as_slice()))
    } else {
        None
    };
    let dim = dim_of_rings(rings);
    let z = if dim.0 {
        let flat = flatten_rings_z(rings);
        Some(b.create_f64_vector(flat.as_slice()))
    } else {
        None
    };
    let m = if dim.1 {
        let flat = flatten_rings_m(rings);
        Some(b.create_f64_vector(flat.as_slice()))
    } else {
        None
    };
    geom_table(b, ty, ends, Some(xy), None, z, m)
}

pub open spec fn revs_view(revs: Seq<usize>) -> Seq<nat> {
    revs.map_values(|t: usize| t as nat)
}

/// The table of a geometry whose parts have been encoded.
fn encode_whole(b: &mut Builder, ty: u8, revs: &Vec<usize>) -> (rev: usize)
    requires
        old(b).wf(),
        forall|k: int| 0 <= k < revs@.len() ==> #[trigger] revs@[k] <= old(b)@.bytes.len(),
    ensures
        final(b).wf(),
        (final(b)@, rev as nat) == whole_drawn(old(b)@, ty, revs_view(revs@)),
        rev <= final(b)@.bytes.len(),
        old(b)@.bytes.len() <= final(b)@.bytes.len(),
{
    proof {
        reveal(whole_drawn);
    }
    proof {
        lemma_reach_all(b@, revs_view(revs@));
    }
    let parts = b.create_offset_vector(revs.as_slice());
    geom_table(b, ty, None, None, Some(parts), None, None)
}

/// Encode a geometry; returns the distance of its table from the end. What the
/// table refers to precedes it.
fn encode_geometry(b: &mut Builder, g: &Geometry<u64>) -> (rev: usize)
    requires
        old(b).wf(),
    ensures
        final(b).wf(),
        (final(b)@, rev as nat) == shape_drawn(old(b)@, g@),
        rev <= final(b)@.bytes.len(),
        old(b)@.bytes.len() <= final(b)@.bytes.len(),
    decreases g,
{
    match g {
        Geometry::Point(p) => {
            let mut ps: Vec<Position<u64>> = Vec::new();
            ps.push(*p);
            assert(run_view(ps@) =~= seq![p@]);
            encode_run(b, POINT, &ps)
        },
        Geometry::LineString(ps) => encode_run(b, LINESTRING, ps),
        Geometry::MultiPoint(ps) => encode_run(b, MULTIPOINT, ps),
        Geometry::Polygon(rings) => encode_runs(b, POLYGON, rings),
        Geometry::MultiLineString(lines) => encode_runs(b, MULTILINESTRING, lines),
        Geometry::MultiPolygon(polygons) => {
            let mut revs: Vec<usize> = Vec::new();
            let mut i: usize = 0;
            assert(revs_view(revs@) =~= Seq::empty());
            while i < polygons.len()
                invariant
                    i <= polygons@.len(),
                    b.wf(),
                    (b@, revs_view(revs@)) == polygons_drawn(
                        old(b)@,
                        polygons_view(polygons@),
                        i as int,
                    ),
                    forall|k: int| 0 <= k < revs@.len() ==> #[trigger] revs@[k] <= b@.bytes.len(),
                    old(b)@.bytes.len() <= b@.bytes.len(),
                decreases polygons@.len() - i,
            {
                let rev = encode_runs(b, POLYGON, &polygons[i]);
                let ghost before = revs_view(revs@);
                revs.push(rev);
                assert(revs_view(revs@) =~= before.push(rev as nat));
                i += 1;
            }
            encode_whole(b, MULTIPOLYGON, &revs)
        },
        Geometry::GeometryCollection(parts) => {
            let ghost shapes = shapes_view(parts@);
            let mut revs: Vec<usize> = Vec::new();
            let mut i: usize = 0;
            assert(revs_view(revs@) =~= Seq::empty());
            assert(shapes.take(0) =~= Seq::empty());
            while i < parts.len()
                invariant
                    i <= parts@.len(),
                    b.wf(),
                    g is GeometryCollection,
                    parts == g->GeometryCollection_0,
                    shapes == shapes_view(parts@),
                    (b@, revs_view(revs@)) == parts_drawn(old(b)@, shapes.take(i as int)),
                    forall|k: int| 0 <= k < revs@.len() ==> #[trigger] revs@[k] <= b@.bytes.len(),
                    old(b)@.bytes.len() <= b@.bytes.len(),
                decreases parts@.len() - i,
            {
                let rev = encode_geometry(b, &parts[i]);
                let ghost before = revs_view(revs@);
                revs.push(rev);
                assert(revs_view(revs@) =~= before.push(rev as nat));
                assert(shapes.take(i + 1).drop_last() =~= shapes.take(i as int));
                assert(shapes.take(i + 1)[i as int] == parts@[i as int]@);
                i += 1;
            }
            assert(shapes.take(i as int) =~= shapes);
            proof {
                lemma_collection_view(*parts);
            }
            encode_whole(b, GEOMETRYCOLLECTION, &revs)
        },
    }
}

// --- properties ----------------------------------------------------------------------

/// A cell as it is stored.
pub open spec fn datum_bytes(d: Datum<u64>) -> Seq<u8> {
    match d {
        Datum::Null => Seq::empty(),
        Datum::Bool(v) => seq![
            if v {
                1u8
            } else {
                0u8
            },
        ],
        Datum::Int(v) => le_bytes(unsigned(v, 0x1_0000_0000_0000_0000), 8),
        Datum::Double(v) => le_bytes(v as nat, 8),
        Datum::Str(s) => le_bytes(encode_utf8(s).len(), 4) + encode_utf8(s),
    }
}

/// A row's cells of the first `n` columns: each that is not null, after its
/// column's number.
pub open spec fn properties_blob(columns: Seq<Field<u64>>, row: int, n: int) -> Seq<u8>
    decreases n,
{
    if n <= 0 {
        Seq::empty()
    } else {
        let before = properties_blob(columns, row, n - 1);
        let d = columns[n - 1].values[row];
        if d is Null {
            before
        } else {
            before + (le_bytes((n - 1) as nat, 2) + datum_bytes(d))
        }
    }
}

/// Append a cell as it is stored.
fn push_cell(blob: &mut Vec<u8>, cell: &Cell<u64>)
    ensures
        final(blob)@ == old(blob)@ + datum_bytes(cell@),
{
    let ghost before = blob@;
    match cell {
        Cell::Null => {},
        Cell::Bool(v) => {
            blob.push(
                if *v {
                    1
                } else {
                    0
                },
            );
        },
        Cell::Int(v) => {
            push_le(blob, unsigned64(*v), 8);
        },
        Cell::Double(v) => {
            push_le(blob, *v, 8);
        },
        Cell::Str(s) => {
            let bytes = s.as_str().as_bytes();
            push_le(blob, bytes.len() as u64, 4);
            blob.extend_from_slice(bytes);
        },
    }
    assert(blob@ =~= before + datum_bytes(cell@));
}

/// Encode a row's non-null cells.
fn encode_properties(columns: &Vec<Column<u64>>, row: usize) -> (blob: Vec<u8>)
    requires
        forall|k: int| 0 <= k < columns@.len() ==> row < (#[trigger] columns@[k]).values@.len(),
    ensures
        blob@ == properties_blob(columns_view(columns@), row as int, columns@.len() as int),
{
    let ghost cs = columns_view(columns@);
    let mut blob: Vec<u8> = Vec::new();
    let mut i: usize = 0;
    while i < columns.len()
        invariant
            i <= columns@.len(),
            cs == columns_view(columns@),
            forall|k: int| 0 <= k < columns@.len() ==> row < (#[trigger] columns@[k]).values@.len(),
            blob@ == properties_blob(cs, row as int, i as int),
        decreases columns@.len() - i,
    {
        let cell = &columns[i].values[row];
        assert(cs[i as int].values[row as int] == cell@);
        let is_null = match cell {
            Cell::Null => true,
            _ => false,
        };
        if !is_null {
            let ghost before = blob@;
            push_le(&mut blob, i as u64, 2);
            push_cell(&mut blob, cell);
            assert(blob@ =~= before + (le_bytes(i as nat, 2) + datum_bytes(cell@)));
        }
        i += 1;
    }
    blob
}

// --- features ------------------------------------------------------------------------

/// A draft of nothing.
pub open spec fn empty_draft() -> Draft {
    Draft { bytes: Seq::empty(), min_align: 1, slots: Seq::empty(), object_end: 0 }
}

/// A feature's table, before it is ended.
pub open spec fn feature_fields(geometry: Option<Shape<u64>>, blob: Seq<u8>) -> Draft {
    let (d1, g) = match geometry {
        Some(s) => {
            let (d, rev) = shape_drawn(empty_draft(), s);
            (d, Some(rev))
        },
        None => (empty_draft(), None),
    };
    let (d2, p) = if blob.len() > 0 {
        (d1.with_byte_vector(blob), Some(d1.with_byte_vector(blob).bytes.len()))
    } else {
        (d1, None)
    };
    let d3 = with_optional(
        d2.table_started(FEATURE_FIELDS as nat),
        FEATURE_GEOMETRY as int,
        g,
    );
    with_optional(d3, FEATURE_PROPERTIES as int, p)
}

/// A feature's buffer.
#[verifier::opaque]
pub open spec fn feature_bytes(geometry: Option<Shape<u64>>, blob: Seq<u8>) -> Seq<u8> {
    let open = feature_fields(geometry, blob);
    open.table_ended().finished(open.table_rev())
}

/// The buffer of the feature numbered `row`.
pub open spec fn feature_buffer<W>(
    features: Seq<Item<u64, W>>,
    columns: Seq<Field<u64>>,
    row: int,
) -> Seq<u8> {
    feature_bytes(
        features[row].geometry,
        properties_blob(columns, row, columns.len() as int),
    )
}

/// The first `n` features in an order, each after its size.
pub open spec fn section<W>(
    features: Seq<Item<u64, W>>,
    columns: Seq<Field<u64>>,
    order: Seq<int>,
    n: int,
) -> Seq<u8>
    decreases n,
{
    if n <= 0 {
        Seq::empty()
    } else {
        let bytes = feature_buffer(features, columns, order[n - 1]);
        section(features, columns, order, n - 1) + (le_bytes(bytes.len(), 4) + bytes)
    }
}

fn build_feature(geom: Option<&Geometry<u64>>, columns: &Vec<Column<u64>>, row: usize) -> (bytes:
    Vec<u8>)
    requires
        forall|k: int| 0 <= k < columns@.len() ==> row < (#[trigger] columns@[k]).values@.len(),
    ensures
        bytes@ == feature_bytes(
            match geom {
                Some(g) => Some(g@),
                None => None::<Shape<u64>>,
            },
            properties_blob(columns_view(columns@), row as int, columns@.len() as int),
        ),
{
    proof {
        reveal(feature_bytes);
    }
    let mut b = Builder::new();
    let geom_off = match geom {
        Some(g) => Some(encode_geometry(&mut b, g)),
        None => None,
    };
    let blob = encode_properties(columns, row);
    let props_off = if blob.len() > 0 {
        Some(b.create_byte_vector(blob.as_slice()))
    } else {
        None
    };
    b.start_table(FEATURE_FIELDS);
    add_optional(&mut b, FEATURE_GEOMETRY, geom_off);
    add_optional(&mut b, FEATURE_PROPERTIES, props_off);
    proof {
        lemma_table_is_written(b@);
    }
    let root = b.end_table();
    proof {
        let align = if b@.min_align > 4 {
            b@.min_align
        } else {
            4
        };
        lemma_reach(b@.prepped(align, 4), root as nat);
    }
    b.finish(root)
}

// --- the header ----------------------------------------------------------------------

/// The stored type of a column.
pub open spec fn column_code(ty: ColumnType) -> u8 {
    match ty {
        ColumnType::Bool => COLUMN_BOOL,
        ColumnType::Int64 => COLUMN_LONG,
        ColumnType::Double => COLUMN_DOUBLE,
        ColumnType::String => COLUMN_STRING,
    }
}

/// A column's table, before it is ended.
pub open spec fn column_fields(d: Draft, name: Seq<char>, ty: ColumnType) -> Draft {
    let named = d.with_string(name);
    named.table_started(COLUMN_FIELDS as nat).with_reference(
        COLUMN_NAME as int,
        named.bytes.len(),
    ).with_field(COLUMN_TYPE as int, column_code(ty) as nat, 1, NO_COLUMN_TYPE as nat)
}

/// The tables of the first `n` columns, and their distances from the end.
pub open spec fn columns_drawn(d: Draft, columns: Seq<Field<u64>>, n: int) -> (Draft, Seq<nat>)
    decreases n,
{
    if n <= 0 {
        (d, Seq::empty())
    } else {
        let (before, revs) = columns_drawn(d, columns, n - 1);
        let open = column_fields(before, columns[n - 1].name, columns[n - 1].ty);
        (open.table_ended(), revs.push(open.table_rev()))
    }
}

/// What is recorded of a system: the organization, the code and the definition.
/// A code that is no number cannot be; where there is no WKT, what the PROJJSON
/// translates into takes its place.
pub open spec fn recordable(crs: System) -> (Option<Seq<char>>, Option<int>, Option<Seq<char>>) {
    match crs {
        System::Wgs84 => (Some("EPSG"@), Some(4326), None),
        System::Named(r) => (
            r.authority,
            match r.code {
                Some(c) => integer_of(c),
                None => None,
            },
            if r.wkt is Some {
                r.wkt
            } else {
                r.spec_structural_wkt()
            },
        ),
    }
}

/// A string, where there is one.
pub open spec fn text_drawn(d: Draft, text: Option<Seq<char>>) -> (Draft, Option<nat>) {
    match text {
        Some(s) => (d.with_string(s), Some(d.with_string(s).bytes.len())),
        None => (d, None),
    }
}

/// The 32 bits of a code; zero where there is none, or one that does not fit.
pub open spec fn code_bits(code: Option<int>) -> nat {
    match code {
        Some(c) => if i32::MIN <= c <= i32::MAX {
            unsigned(c, 0x1_0000_0000)
        } else {
            0
        },
        None => 0,
    }
}

/// A system's table, before it is ended.
pub open spec fn crs_fields(
    d: Draft,
    org: Option<Seq<char>>,
    code: Option<int>,
    wkt: Option<Seq<char>>,
) -> Draft {
    let (d1, o) = text_drawn(d, org);
    let (d2, w) = text_drawn(d1, wkt);
    let d3 = with_optional(d2.table_started(CRS_FIELDS as nat), CRS_ORG as int, o);
    let d4 = d3.with_field(CRS_CODE as int, code_bits(code), 4, 0);
    with_optional(d4, CRS_WKT as int, w)
}

/// A system's table, where there is anything to record.
#[verifier::opaque]
pub open spec fn crs_drawn(d: Draft, crs: Option<System>) -> (Draft, Option<nat>) {
    match crs {
        None => (d, None),
        Some(s) => {
            let (org, code, wkt) = recordable(s);
            if org is None && code is None && wkt is None {
                (d, None)
            } else {
                let open = crs_fields(d, org, code, wkt);
                (open.table_ended(), Some(open.table_rev()))
            }
        },
    }
}

/// What a header says, apart from the columns and the system.
pub struct Summary {
    pub bbox: Bbox,
    pub ty: u8,
    pub has_z: bool,
    pub has_m: bool,
    pub count: u64,
    pub node_size: u16,
}

pub open spec fn flag(b: bool) -> nat {
    if b {
        1
    } else {
        0
    }
}

/// The bounds of a box, where it has any.
pub open spec fn envelope_of(b: Bbox) -> Option<Seq<u64>> {
    if is_above(b.min_x, b.max_x) {
        None
    } else {
        Some(seq![b.min_x, b.min_y, b.max_x, b.max_y])
    }
}

/// What the header's table refers to.
pub struct HeaderTargets {
    pub name: nat,
    pub envelope: Option<nat>,
    pub columns: nat,
    pub crs: Option<nat>,
}

/// The header's table, before it is ended.
#[verifier::opaque]
pub open spec fn header_fields(d: Draft, s: Summary, t: HeaderTargets) -> Draft {
    let d0 = d.table_started(HEADER_FIELDS as nat).with_reference(HEADER_NAME as int, t.name);
    let d1 = with_optional(d0, HEADER_ENVELOPE as int, t.envelope);
    let d2 = d1.with_field(HEADER_GEOMETRY_TYPE as int, s.ty as nat, 1, UNKNOWN as nat);
    let d3 = d2.with_field(HEADER_HAS_Z as int, flag(s.has_z), 1, 0);
    let d4 = d3.with_field(HEADER_HAS_M as int, flag(s.has_m), 1, 0);
    let d5 = d4.with_reference(HEADER_COLUMNS as int, t.columns);
    let d6 = d5.with_field(HEADER_FEATURES_COUNT as int, s.count as nat, 8, 0);
    let d7 = d6.with_field(HEADER_INDEX_NODE_SIZE as int, s.node_size as nat, 2, 16);
    with_optional(d7, HEADER_CRS as int, t.crs)
}

/// What the header's table refers to, written.
#[verifier::opaque]
pub open spec fn header_drawn(columns: Seq<Field<u64>>, bbox: Bbox, crs: Option<System>) -> (
    Draft,
    HeaderTargets,
) {
    let (d1, revs) = columns_drawn(empty_draft(), columns, columns.len() as int);
    let d2 = d1.with_offset_vector(revs);
    let d3 = d2.with_string("geosetta"@);
    let (d4, envelope) = doubles_drawn(d3, envelope_of(bbox));
    let (d5, c) = crs_drawn(d4, crs);
    (
        d5,
        HeaderTargets { name: d3.bytes.len(), envelope, columns: d2.bytes.len(), crs: c },
    )
}

/// The header's buffer.
pub open spec fn header_bytes(columns: Seq<Field<u64>>, s: Summary, crs: Option<System>) -> Seq<u8> {
    let (d, t) = header_drawn(columns, s.bbox, crs);
    let open = header_fields(d, s, t);
    open.table_ended().finished(open.table_rev())
}

fn fgb_column_type(ty: ColumnType) -> (r: u8)
    ensures
        r == column_code(ty),
{
    match ty {
        ColumnType::Bool => COLUMN_BOOL,
        ColumnType::Int64 => COLUMN_LONG,
        ColumnType::Double => COLUMN_DOUBLE,
        ColumnType::String => COLUMN_STRING,
    }
}

fn build_column(b: &mut Builder, col: &Column<u64>) -> (rev: usize)
    requires
        old(b).wf(),
    ensures
        final(b).wf(),
        final(b)@ == column_fields(old(b)@, col.name@, col.ty).table_ended(),
        rev == column_fields(old(b)@, col.name@, col.ty).table_rev(),
        rev <= final(b)@.bytes.len(),
        old(b)@.bytes.len() <= final(b)@.bytes.len(),
{
    let name = b.create_string(col.name.as_str());
    b.start_table(COLUMN_FIELDS);
    proof {
        lemma_reach(b@, name as nat);
    }
    b.add_offset(COLUMN_NAME, name);
    b.add_u8(COLUMN_TYPE, fgb_column_type(col.ty), NO_COLUMN_TYPE);
    proof {
        lemma_table_is_written(b@);
    }
    b.end_table()
}

fn build_columns(b: &mut Builder, columns: &Vec<Column<u64>>) -> (revs: Vec<usize>)
    requires
        old(b).wf(),
    ensures
        final(b).wf(),
        (final(b)@, revs_view(revs@)) == columns_drawn(
            old(b)@,
            columns_view(columns@),
            columns@.len() as int,
        ),
        forall|k: int| 0 <= k < revs@.len() ==> #[trigger] revs@[k] <= final(b)@.bytes.len(),
{
    let ghost cs = columns_view(columns@);
    let mut revs: Vec<usize> = Vec::new();
    let mut i: usize = 0;
    assert(revs_view(revs@) =~= Seq::empty());
    while i < columns.len()
        invariant
            i <= columns@.len(),
            cs == columns_view(columns@),
            b.wf(),
            (b@, revs_view(revs@)) == columns_drawn(old(b)@, cs, i as int),
            forall|k: int| 0 <= k < revs@.len() ==> #[trigger] revs@[k] <= b@.bytes.len(),
        decreases columns@.len() - i,
    {
        assert(cs[i as int] == columns@[i as int]@);
        let rev = build_column(b, &columns[i]);
        let ghost before = revs_view(revs@);
        revs.push(rev);
        assert(revs_view(revs@) =~= before.push(rev as nat));
        i += 1;
    }
    revs
}

fn create_optional_string(b: &mut Builder, text: &Option<String>) -> (rev: Option<usize>)
    requires
        old(b).wf(),
    ensures
        final(b).wf(),
        (final(b)@, as_target(rev)) == text_drawn(old(b)@, opt_view(*text)),
        is_written(rev, final(b)@),
        old(b)@.bytes.len() <= final(b)@.bytes.len(),
{
    match text {
        Some(s) => Some(b.create_string(s.as_str())),
        None => None,
    }
}

pub open spec fn code_view(code: Option<i64>) -> Option<int> {
    match code {
        Some(c) => Some(c as int),
        None => None,
    }
}

/// The code as it is stored.
fn stored_code(code: Option<i64>) -> (r: i32)
    ensures
        unsigned(r as int, 0x1_0000_0000) == code_bits(code_view(code)),
{
    match code {
        Some(c) => if c >= -0x8000_0000 && c <= 0x7fff_ffff {
            c as i32
        } else {
            0
        },
        None => 0,
    }
}

#[verifier::spinoff_prover]
#[verifier::rlimit(40)]
fn crs_table(b: &mut Builder, org: &Option<String>, code: Option<i64>, wkt: &Option<String>) -> (rev:
    usize)
    requires
        old(b).wf(),
    ensures
        final(b).wf(),
        ({
            let open = crs_fields(old(b)@, opt_view(*org), code_view(code), opt_view(*wkt));
            final(b)@ == open.table_ended() && rev == open.table_rev()
        }),
        rev <= final(b)@.bytes.len(),
        old(b)@.bytes.len() <= final(b)@.bytes.len(),
{
    let org_off = create_optional_string(b, org);
    let wkt_off = create_optional_string(b, wkt);
    b.start_table(CRS_FIELDS);
    add_optional(b, CRS_ORG, org_off);
    b.add_i32(CRS_CODE, stored_code(code), 0);
    add_optional(b, CRS_WKT, wkt_off);
    proof {
        lemma_table_is_written(b@);
    }
    b.end_table()
}

/// Build the reference system's table. WGS 84 is written as EPSG:4326.
fn build_crs(b: &mut Builder, crs: &Option<Crs>) -> (rev: Option<usize>)
    requires
        old(b).wf(),
    ensures
        final(b).wf(),
        (final(b)@, as_target(rev)) == crs_drawn(old(b)@, crs_view(*crs)),
        is_written(rev, final(b)@),
        old(b)@.bytes.len() <= final(b)@.bytes.len(),
{
    proof {
        reveal(crs_drawn);
    }
    let (org, code, wkt) = match crs {
        None => {
            return None;
        },
        Some(Crs::Wgs84) => (Some(String::from_str("EPSG")), Some(4326i64), None),
        Some(Crs::Named(n)) => {
            let code = match &n.code {
                Some(c) => parse_integer(c.as_str()),
                None => None,
            };
            let wkt = match &n.wkt {
                Some(w) => Some(String::from_str(w.as_str())),
                None => n.structural_wkt(),
            };
            (opt_clone(&n.authority), code, wkt)
        },
    };
    if org.is_none() && code.is_none() && wkt.is_none() {
        return None;
    }
    Some(crs_table(b, &org, code, &wkt))
}

fn flag_of(b: bool) -> (r: u8)
    ensures
        r == flag(b),
{
    if b {
        1
    } else {
        0
    }
}

fn header_table(
    b: &mut Builder,
    s: &Summary,
    name: usize,
    envelope: Option<usize>,
    columns: usize,
    crs: Option<usize>,
) -> (rev: usize)
    requires
        old(b).wf(),
        name <= old(b)@.bytes.len(),
        is_written(envelope, old(b)@),
        columns <= old(b)@.bytes.len(),
        is_written(crs, old(b)@),
    ensures
        final(b).wf(),
        ({
            let open = header_fields(
                old(b)@,
                *s,
                HeaderTargets {
                    name: name as nat,
                    envelope: as_target(envelope),
                    columns: columns as nat,
                    crs: as_target(crs),
                },
            );
            final(b)@ == open.table_ended() && rev == open.table_rev()
        }),
        rev <= final(b)@.bytes.len(),
{
    proof {
        reveal(header_fields);
    }
    b.start_table(HEADER_FIELDS);
    add_optional(b, HEADER_NAME, Some(name));
    add_optional(b, HEADER_ENVELOPE, envelope);
    b.add_u8(HEADER_GEOMETRY_TYPE, s.ty, UNKNOWN);
    b.add_u8(HEADER_HAS_Z, flag_of(s.has_z), 0);
    b.add_u8(HEADER_HAS_M, flag_of(s.has_m), 0);
    add_optional(b, HEADER_COLUMNS, Some(columns));
    b.add_u64(HEADER_FEATURES_COUNT, s.count, 0);
    b.add_u16(HEADER_INDEX_NODE_SIZE, s.node_size, 16);
    add_optional(b, HEADER_CRS, crs);
    proof {
        lemma_table_is_written(b@);
    }
    b.end_table()
}

#[verifier::spinoff_prover]
#[verifier::rlimit(60)]
fn build_header(columns: &Vec<Column<u64>>, s: &Summary, crs: &Option<Crs>) -> (bytes: Vec<u8>)
    ensures
        bytes@ == header_bytes(columns_view(columns@), *s, crs_view(*crs)),
{
    proof {
        reveal(header_drawn);
    }
    let mut b = Builder::new();
    let revs = build_columns(&mut b, columns);
    proof {
        lemma_reach_all(b@, revs_view(revs@));
    }
    let columns_vec = b.create_offset_vector(revs.as_slice());
    let name = b.create_string("geosetta");
    let envelope = if s.bbox.is_empty() {
        None
    } else {
        let mut bounds: Vec<u64> = Vec::new();
        bounds.push(s.bbox.min_x);
        bounds.push(s.bbox.min_y);
        bounds.push(s.bbox.max_x);
        bounds.push(s.bbox.max_y);
        assert(bounds@ =~= seq![s.bbox.min_x, s.bbox.min_y, s.bbox.max_x, s.bbox.max_y]);
        Some(b.create_f64_vector(bounds.as_slice()))
    };
    let crs_off = build_crs(&mut b, crs);
    let root = header_table(&mut b, s, name, envelope, columns_vec, crs_off);
    proof {
        let align = if b@.min_align > 4 {
            b@.min_align
        } else {
            4
        };
        lemma_reach(b@.prepped(align, 4), root as nat);
    }
    b.finish(root)
}

// --- the file ------------------------------------------------------------------------

/// The first position of a geometry.
pub open spec fn first_of(s: Shape<u64>) -> Option<Position<u64>>
    decreases s,
{
    match s {
        Shape::Point(p) => Some(p),
        Shape::LineString(ps) => first_of_run(ps),
        Shape::MultiPoint(ps) => first_of_run(ps),
        Shape::Polygon(rings) => first_of_runs(rings),
        Shape::MultiLineString(lines) => first_of_runs(lines),
        Shape::MultiPolygon(polygons) => if polygons.len() == 0 {
            None
        } else {
            first_of_runs(polygons[0])
        },
        Shape::GeometryCollection(parts) => if parts.len() == 0 {
            None
        } else {
            first_of(parts[0])
        },
    }
}

pub open spec fn first_of_run(ps: Seq<Position<u64>>) -> Option<Position<u64>> {
    if ps.len() == 0 {
        None
    } else {
        Some(ps[0])
    }
}

pub open spec fn first_of_runs(runs: Seq<Seq<Position<u64>>>) -> Option<Position<u64>> {
    if runs.len() == 0 {
        None
    } else {
        first_of_run(runs[0])
    }
}

/// Whether a geometry has Z: whether its first position has.
pub open spec fn shape_has_z(s: Shape<u64>) -> bool {
    first_of(s) matches Some(p) && p.z is Some
}

/// Whether a geometry has M: whether its first position has.
pub open spec fn shape_has_m(s: Shape<u64>) -> bool {
    first_of(s) matches Some(p) && p.m is Some
}

/// The geometries of features that have one.
pub open spec fn geometries<W>(features: Seq<Item<u64, W>>) -> Seq<Shape<u64>>
    decreases features.len(),
{
    if features.len() == 0 {
        Seq::empty()
    } else {
        let before = geometries(features.drop_last());
        match features.last().geometry {
            Some(s) => before.push(s),
            None => before,
        }
    }
}

/// The type that all geometries have, where they have the same.
pub open spec fn shared_type(shapes: Seq<Shape<u64>>) -> u8 {
    if shapes.len() > 0 && forall|i: int|
        0 <= i < shapes.len() ==> shape_code(#[trigger] shapes[i]) == shape_code(shapes[0]) {
        shape_code(shapes[0])
    } else {
        UNKNOWN
    }
}

/// The box around geometries.
pub open spec fn box_around(shapes: Seq<Shape<u64>>) -> Bbox
    decreases shapes.len(),
{
    if shapes.len() == 0 {
        empty_bbox()
    } else {
        folded(box_around(shapes.drop_last()), positions(shapes.last()))
    }
}

/// Whether a file has an index: every feature must have a box.
pub open spec fn is_indexed<W>(features: Seq<Item<u64, W>>) -> bool {
    features.len() > 0 && forall|i: int|
        0 <= i < features.len() ==> (#[trigger] features[i]).geometry is Some
}

/// Whether an order has each number below `n` once.
pub open spec fn is_order(order: Seq<int>, n: nat) -> bool {
    &&& order.len() == n
    &&& forall|i: int| 0 <= i < n ==> 0 <= #[trigger] order[i] < n
    &&& forall|i: int, j: int| 0 <= i < j < n ==> order[i] != order[j]
}

/// The order of the features in the file: their own, without an index.
pub open spec fn file_order<W>(features: Seq<Item<u64, W>>, order: Seq<int>) -> Seq<int> {
    if is_indexed(features) {
        order
    } else {
        Seq::new(features.len(), |i: int| i)
    }
}

/// A feature's box.
pub open spec fn feature_box<W>(f: Item<u64, W>) -> Bbox {
    match f.geometry {
        Some(s) => folded(empty_bbox(), positions(s)),
        None => empty_bbox(),
    }
}

/// What the header says of features.
pub open spec fn summary_of<W>(features: Seq<Item<u64, W>>) -> Summary {
    let shapes = geometries(features);
    Summary {
        bbox: box_around(shapes),
        ty: shared_type(shapes),
        has_z: exists|i: int| 0 <= i < shapes.len() && shape_has_z(#[trigger] shapes[i]),
        has_m: exists|i: int| 0 <= i < shapes.len() && shape_has_m(#[trigger] shapes[i]),
        count: features.len() as u64,
        node_size: if is_indexed(features) {
            NODE_SIZE
        } else {
            0
        },
    }
}

/// The index of the features in an order.
pub open spec fn index_of<W>(
    features: Seq<Item<u64, W>>,
    columns: Seq<Field<u64>>,
    order: Seq<int>,
) -> Seq<u8> {
    let boxes = Seq::new(order.len(), |i: int| feature_box(features[order[i]]));
    let offsets = Seq::new(order.len(), |i: int| section(features, columns, order, i).len() as u64);
    nodes_bytes(tree(leaves(boxes, offsets), fan_out(NODE_SIZE as nat)))
}

/// The magic number: `fgb`, version 3, `fgb`, patch level 1.
pub open spec fn magic() -> Seq<u8> {
    seq![0x66u8, 0x67, 0x62, 3, 0x66, 0x67, 0x62, 1]
}

/// The file of features whose properties are the rows of columns. Where there is
/// an index, the features are in the given order.
pub open spec fn file_of<W>(
    features: Seq<Item<u64, W>>,
    crs: Option<System>,
    columns: Seq<Field<u64>>,
    order: Seq<int>,
) -> Seq<u8> {
    let o = file_order(features, order);
    let header = header_bytes(columns, summary_of(features), crs);
    magic() + le_bytes(header.len(), 4) + header + (if is_indexed(features) {
        index_of(features, columns, o)
    } else {
        Seq::empty()
    }) + section(features, columns, o, o.len() as int)
}


fn first_position(g: &Geometry<u64>) -> (r: Option<Position<u64>>)
    ensures
        r == first_of(g@),
    decreases g,
{
    match g {
        Geometry::Point(p) => Some(*p),
        Geometry::LineString(ps) => first_in_run(ps),
        Geometry::MultiPoint(ps) => first_in_run(ps),
        Geometry::Polygon(rings) => first_in_runs(rings),
        Geometry::MultiLineString(lines) => first_in_runs(lines),
        Geometry::MultiPolygon(polygons) => if polygons.len() == 0 {
            None
        } else {
            first_in_runs(&polygons[0])
        },
        Geometry::GeometryCollection(parts) => {
            proof {
                lemma_collection_view(*parts);
            }
            if parts.len() == 0 {
                None
            } else {
                first_position(&parts[0])
            }
        },
    }
}

fn first_in_run(ps: &Vec<Position<u64>>) -> (r: Option<Position<u64>>)
    ensures
        r == first_of_run(run_view(ps@)),
{
    if ps.len() == 0 {
        None
    } else {
        Some(ps[0])
    }
}

fn first_in_runs(runs: &Vec<Vec<Position<u64>>>) -> (r: Option<Position<u64>>)
    ensures
        r == first_of_runs(runs_view(runs@)),
{
    if runs.len() == 0 {
        None
    } else {
        first_in_run(&runs[0])
    }
}

/// Whether a geometry has Z, and whether it has M, by its first position.
pub fn dim_of_geometry(g: &Geometry<u64>) -> (r: (bool, bool))
    ensures
        r == (shape_has_z(g@), shape_has_m(g@)),
{
    match first_position(g) {
        Some(p) => (p.z.is_some(), p.m.is_some()),
        None => (false, false),
    }
}

/// Whether each of so many geometries has a type, and what the header says of
/// them.
pub open spec fn is_summary(s: Summary, uniform: bool, shapes: Seq<Shape<u64>>) -> bool {
    &&& s.bbox == box_around(shapes)
    &&& shapes.len() == 0 ==> s.ty == UNKNOWN && uniform
    &&& shapes.len() > 0 ==> s.ty == shape_code(shapes[0])
    &&& uniform == forall|i: int|
        0 <= i < shapes.len() ==> shape_code(#[trigger] shapes[i]) == shape_code(shapes[0])
    &&& s.has_z == exists|i: int| 0 <= i < shapes.len() && shape_has_z(#[trigger] shapes[i])
    &&& s.has_m == exists|i: int| 0 <= i < shapes.len() && shape_has_m(#[trigger] shapes[i])
}

/// One geometry more.
proof fn lemma_summary_grows(
    s: Summary,
    uniform: bool,
    shapes: Seq<Shape<u64>>,
    g: Shape<u64>,
    next: Summary,
)
    requires
        is_summary(s, uniform, shapes),
        next.bbox == folded(s.bbox, positions(g)),
        next.ty == if s.ty == UNKNOWN {
            shape_code(g)
        } else {
            s.ty
        },
        next.has_z == (s.has_z || shape_has_z(g)),
        next.has_m == (s.has_m || shape_has_m(g)),
    ensures
        is_summary(next, uniform && next.ty == shape_code(g), shapes.push(g)),
{
    let all = shapes.push(g);
    assert(all.drop_last() =~= shapes);
    assert forall|i: int| 0 <= i < shapes.len() implies all[i] == #[trigger] shapes[i] by {}
    assert(all[shapes.len() as int] == g);
    if s.has_z {
        let i = choose|i: int| 0 <= i < shapes.len() && shape_has_z(#[trigger] shapes[i]);
        assert(shape_has_z(all[i]));
    }
    if s.has_m {
        let i = choose|i: int| 0 <= i < shapes.len() && shape_has_m(#[trigger] shapes[i]);
        assert(shape_has_m(all[i]));
    }
    if !uniform {
        let i = choose|i: int|
            0 <= i < shapes.len() && shape_code(#[trigger] shapes[i]) != shape_code(shapes[0]);
        assert(shape_code(all[i]) != shape_code(all[0]));
    }
    if shapes.len() > 0 && s.ty != shape_code(g) {
        assert(shape_code(all[shapes.len() as int]) != shape_code(all[0]));
    }
}

/// What the header says of features, apart from their number and the index.
fn summarize<P: View>(features: &Vec<Feature<u64, P>>, indexed: bool) -> (s: Summary)
    requires
        indexed == is_indexed(features_view(features@)),
    ensures
        s == summary_of(features_view(features@)),
{
    let ghost items = features_view(features@);
    let mut s = Summary {
        bbox: Bbox::empty(),
        ty: UNKNOWN,
        has_z: false,
        has_m: false,
        count: features.len() as u64,
        node_size: if indexed {
            NODE_SIZE
        } else {
            0
        },
    };
    let mut uniform = true;
    let mut i: usize = 0;
    assert(items.take(0) =~= Seq::empty());
    while i < features.len()
        invariant
            i <= features@.len(),
            items == features_view(features@),
            is_summary(s, uniform, geometries(items.take(i as int))),
            s.count == features@.len() as u64,
            s.node_size == if indexed {
                NODE_SIZE
            } else {
                0
            },
        decreases features@.len() - i,
    {
        assert(items.take(i + 1).drop_last() =~= items.take(i as int));
        assert(items.take(i + 1).last() == features@[i as int]@);
        if let Some(g) = &features[i].geometry {
            let ghost before = s;
            let ghost was_uniform = uniform;
            let mut b = s.bbox;
            g.extend_bbox(&mut b);
            let code = fgb_geometry_type(g);
            let dim = dim_of_geometry(g);
            s.bbox = b;
            if s.ty == UNKNOWN {
                s.ty = code;
            }
            uniform = uniform && s.ty == code;
            s.has_z = s.has_z || dim.0;
            s.has_m = s.has_m || dim.1;
            proof {
                lemma_summary_grows(
                    before,
                    was_uniform,
                    geometries(items.take(i as int)),
                    g@,
                    s,
                );
            }
        }
        i += 1;
    }
    assert(items.take(i as int) =~= items);
    if !uniform {
        s.ty = UNKNOWN;
    }
    s
}

fn all_have_geometry<P: View>(features: &Vec<Feature<u64, P>>) -> (r: bool)
    ensures
        r == is_indexed(features_view(features@)),
{
    let ghost items = features_view(features@);
    let mut i: usize = 0;
    while i < features.len()
        invariant
            i <= features@.len(),
            items == features_view(features@),
            forall|k: int| 0 <= k < i ==> (#[trigger] items[k]).geometry is Some,
        decreases features@.len() - i,
    {
        if features[i].geometry.is_none() {
            assert(items[i as int].geometry is None);
            return false;
        }
        assert(items[i as int].geometry is Some);
        i += 1;
    }
    features.len() > 0
}

pub open spec fn order_view(order: Seq<usize>) -> Seq<int> {
    order.map_values(|i: usize| i as int)
}

/// A feature's box.
fn bbox_of<P: View>(f: &Feature<u64, P>) -> (b: Bbox)
    ensures
        b == feature_box(f@),
{
    match &f.geometry {
        Some(g) => g.bbox(),
        None => Bbox::empty(),
    }
}

/// The order of the features in the file.
fn arrange<P: View>(
    features: &Vec<Feature<u64, P>>,
    order: &Vec<usize>,
    indexed: bool,
) -> (r: Vec<usize>)
    requires
        indexed == is_indexed(features_view(features@)),
        indexed ==> is_order(order_view(order@), features@.len()),
    ensures
        order_view(r@) == file_order(features_view(features@), order_view(order@)),
        r@.len() == features@.len(),
        forall|k: int| 0 <= k < r@.len() ==> #[trigger] r@[k] < features@.len(),
{
    let ghost wanted = file_order(features_view(features@), order_view(order@));
    let mut r: Vec<usize> = Vec::new();
    let mut i: usize = 0;
    while i < features.len()
        invariant
            i <= features@.len(),
            indexed == is_indexed(features_view(features@)),
            indexed ==> is_order(order_view(order@), features@.len()),
            wanted == file_order(features_view(features@), order_view(order@)),
            wanted.len() == features@.len(),
            r@.len() == i,
            forall|k: int| 0 <= k < i ==> r@[k] < features@.len() && #[trigger] r@[k] == wanted[k],
        decreases features@.len() - i,
    {
        if indexed {
            assert(order_view(order@)[i as int] == order@[i as int]);
            r.push(order[i]);
        } else {
            r.push(i);
        }
        i += 1;
    }
    assert(order_view(r@) =~= wanted);
    r
}

/// Serialize features. Their properties are the rows of `columns`. Where every
/// feature has a geometry there is an index, and the features are in `order`,
/// which is the order along a Hilbert curve.
pub fn write<P: View>(
    fc: &FeatureCollection<u64, P>,
    columns: &Vec<Column<u64>>,
    order: &Vec<usize>,
) -> (out: Vec<u8>)
    requires
        forall|k: int|
            0 <= k < columns@.len() ==> is_column((#[trigger] columns@[k])@, fc.features@.len()),
        is_indexed(fc@.features) ==> is_order(order_view(order@), fc.features@.len()),
    ensures
        out@ == file_of(
            fc@.features,
            fc@.crs,
            columns_view(columns@),
            order_view(order@),
        ),
{
    let ghost items = fc@.features;
    let ghost cs = columns_view(columns@);
    let indexed = all_have_geometry(&fc.features);
    let summary = summarize(&fc.features, indexed);
    let arranged = arrange(&fc.features, order, indexed);
    let ghost o = order_view(arranged@);
    let ghost boxes = Seq::new(o.len(), |i: int| feature_box(items[o[i]]));
    let ghost offsets = Seq::new(o.len(), |i: int| section(items, cs, o, i).len() as u64);
    let mut places: Vec<u64> = Vec::new();
    let mut bounds: Vec<Bbox> = Vec::new();
    let mut body: Vec<u8> = Vec::new();
    let mut i: usize = 0;
    while i < arranged.len()
        invariant
            i <= arranged@.len() == fc.features@.len(),
            items == fc@.features,
            cs == columns_view(columns@),
            o == order_view(arranged@),
            boxes == Seq::new(o.len(), |i: int| feature_box(items[o[i]])),
            offsets == Seq::new(o.len(), |i: int| section(items, cs, o, i).len() as u64),
            forall|k: int| 0 <= k < arranged@.len() ==> #[trigger] arranged@[k] < fc.features@.len(),
            forall|k: int|
                0 <= k < columns@.len() ==> is_column(
                    (#[trigger] columns@[k])@,
                    fc.features@.len(),
                ),
            body@ == section(items, cs, o, i as int),
            places@ == offsets.take(i as int),
            bounds@ == boxes.take(i as int),
        decreases arranged@.len() - i,
    {
        let row: usize = arranged[i];
        assert(o[i as int] == row);
        assert(items[row as int] == fc.features@[row as int]@);
        let f = &fc.features[row];
        places.push(body.len() as u64);
        bounds.push(bbox_of(f));
        assert(offsets[i as int] == body@.len() as u64);
        assert(places@ =~= offsets.take(i + 1));
        assert(bounds@ =~= boxes.take(i + 1));
        let geometry = match &f.geometry {
            Some(g) => Some(g),
            None => None,
        };
        assert forall|k: int| 0 <= k < columns@.len() implies row < (
        #[trigger] columns@[k]).values@.len() by {
            assert(columns@[k]@.values.len() == columns@[k].values@.len());
        }
        let bytes = build_feature(geometry, columns, row);
        let ghost before = body@;
        push_le(&mut body, bytes.len() as u64, 4);
        body.extend_from_slice(bytes.as_slice());
        assert(body@ =~= before + (le_bytes(bytes@.len(), 4) + bytes@));
        i += 1;
    }
    let mut out: Vec<u8> = Vec::new();
    out.push(0x66);
    out.push(0x67);
    out.push(0x62);
    out.push(3);
    out.push(0x66);
    out.push(0x67);
    out.push(0x62);
    out.push(1);
    assert(out@ =~= magic());
    let header = build_header(columns, &summary, &fc.crs);
    push_le(&mut out, header.len() as u64, 4);
    out.extend_from_slice(header.as_slice());
    let ghost front = out@;
    if indexed {
        assert(places@ =~= offsets);
        assert(bounds@ =~= boxes);
        let nodes = packed_rtree(&bounds, &places, summary.node_size);
        out.extend_from_slice(nodes.as_slice());
        assert(out@ =~= front + index_of(items, cs, o));
    } else {
        assert(out@ =~= front + Seq::empty());
    }
    out.extend_from_slice(body.as_slice());
    out
}

} // verus!
