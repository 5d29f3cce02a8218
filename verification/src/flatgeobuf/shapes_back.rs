//! Geometries that were written are read back.
use vstd::prelude::*;

use super::placed::{
    differs_at, ends_with, grown, lemma_ends_with_itself, lemma_ends_with_trans,
    lemma_f64_vector_found, lemma_f64_vector_grows, lemma_field_found, lemma_field_grows,
    lemma_offset_vector_found, lemma_offset_vector_grows, lemma_optional_differs,
    lemma_optional_grows, lemma_places_found, lemma_reference_found, lemma_table_ended_grows,
    lemma_u32_vector_found, lemma_u32_vector_grows, place_of,
};
use super::reader::{
    parts_at, polygons_at, positions_from, positions_of, rings_from, rings_of, shape_at, shapes_at,
    vectors_at,
};
use super::writer::{
    dims_of, dims_of_runs, doubles_drawn, ends_of, geometry_fields, geometry_table, m_of,
    numbers_drawn, parts_drawn, polygons_drawn, run_drawn, runs_drawn, shape_drawn, simple_drawn,
    whole_drawn, with_optional, xy_of, z_of, Targets,
};
use super::{
    GEOMETRYCOLLECTION, GEOMETRY_ENDS, GEOMETRY_FIELDS, GEOMETRY_M, GEOMETRY_PARTS, GEOMETRY_TYPE,
    GEOMETRY_XY, GEOMETRY_Z, LINESTRING, MULTILINESTRING, MULTIPOINT, MULTIPOLYGON, POINT, POLYGON,
    UNKNOWN,
};
use crate::bytes::lemma_pow256_values;
use crate::error::Failure;
use crate::flatbuffers::{element_scalar, field_pointee, field_scalar, field_vector, Draft};
use crate::geometry::{joined, Position, Shape};

verus! {

// --- what can be read back -----------------------------------------------------------------

/// Whether every position of a run has Z and M, or none.
pub open spec fn is_run(ps: Seq<Position<u64>>, dims: (bool, bool)) -> bool {
    forall|i: int|
        0 <= i < ps.len() ==> ((#[trigger] ps[i]).z is Some) == dims.0 && (ps[i].m is Some) == dims.1
}

/// Whether every position of runs has Z and M, or none, and there is a run: a
/// geometry without runs is read as one with an empty run.
pub open spec fn are_runs(runs: Seq<Seq<Position<u64>>>) -> bool {
    &&& runs.len() > 0
    &&& forall|i: int| 0 <= i < runs.len() ==> is_run(#[trigger] runs[i], dims_of_runs(runs))
}

/// Whether every position of each part of a geometry has Z and M, or none, and
/// its polygons and lists of lines are not empty.
pub open spec fn is_regular(s: Shape<u64>) -> bool
    decreases s,
{
    match s {
        Shape::Point(_) => true,
        Shape::LineString(ps) => is_run(ps, dims_of(ps)),
        Shape::MultiPoint(ps) => is_run(ps, dims_of(ps)),
        Shape::Polygon(rings) => are_runs(rings),
        Shape::MultiLineString(lines) => are_runs(lines),
        Shape::MultiPolygon(polygons) => forall|i: int|
            0 <= i < polygons.len() ==> are_runs(#[trigger] polygons[i]),
        Shape::GeometryCollection(parts) => forall|i: int|
            0 <= i < parts.len() ==> is_regular(#[trigger] parts[i]),
    }
}

/// The vectors of a geometry of positions alone, and where they stand.
pub open spec fn simple_vectors(
    d: Draft,
    ps: Seq<Position<u64>>,
    ends: Option<Seq<u32>>,
    dims: (bool, bool),
) -> (Draft, Targets) {
    let d1 = d.with_f64_vector(xy_of(ps));
    let (d2, e) = numbers_drawn(d1, ends);
    let (d3, z) = doubles_drawn(
        d2,
        if dims.0 {
            Some(z_of(ps))
        } else {
            None
        },
    );
    let (d4, m) = doubles_drawn(
        d3,
        if dims.1 {
            Some(m_of(ps))
        } else {
            None
        },
    );
    (d4, Targets { ends: e, xy: Some(d1.bytes.len()), z, m, parts: None })
}

/// The ends of runs, where they are written.
pub open spec fn written_ends(runs: Seq<Seq<Position<u64>>>) -> Option<Seq<u32>> {
    if runs.len() > 1 {
        Some(ends_of(runs))
    } else {
        None
    }
}

// --- a geometry's table --------------------------------------------------------------------

/// Whether everything that a table refers to has been written.
pub open spec fn are_written(t: Targets, d: Draft) -> bool {
    &&& t.ends matches Some(r) ==> 0 < r <= d.bytes.len()
    &&& t.xy matches Some(r) ==> 0 < r <= d.bytes.len()
    &&& t.z matches Some(r) ==> 0 < r <= d.bytes.len()
    &&& t.m matches Some(r) ==> 0 < r <= d.bytes.len()
    &&& t.parts matches Some(r) ==> 0 < r <= d.bytes.len()
}

pub proof fn lemma_geometry_table_grows(d: Draft, ty: u8, t: Targets)
    ensures
        grown(geometry_table(d, ty, t).0, d),
        d.bytes.len() + 4 <= geometry_table(d, ty, t).1 <= geometry_table(d, ty, t).0.bytes.len(),
{
    reveal(geometry_table);
    let s = d.table_started(GEOMETRY_FIELDS as nat);
    let d0 = s.with_field(GEOMETRY_TYPE as int, ty as nat, 1, UNKNOWN as nat);
    let d1 = with_optional(d0, GEOMETRY_ENDS as int, t.ends);
    let d2 = with_optional(d1, GEOMETRY_XY as int, t.xy);
    let d3 = with_optional(d2, GEOMETRY_Z as int, t.z);
    let d4 = with_optional(d3, GEOMETRY_M as int, t.m);
    let d5 = with_optional(d4, GEOMETRY_PARTS as int, t.parts);
    lemma_field_grows(s, GEOMETRY_TYPE as int, ty as nat, 1, UNKNOWN as nat);
    lemma_optional_grows(d0, GEOMETRY_ENDS as int, t.ends);
    lemma_optional_grows(d1, GEOMETRY_XY as int, t.xy);
    lemma_optional_grows(d2, GEOMETRY_Z as int, t.z);
    lemma_optional_grows(d3, GEOMETRY_M as int, t.m);
    lemma_optional_grows(d4, GEOMETRY_PARTS as int, t.parts);
    lemma_table_ended_grows(d5);
    lemma_ends_with_trans(d1.bytes, d0.bytes, s.bytes);
    lemma_ends_with_trans(d2.bytes, d1.bytes, s.bytes);
    lemma_ends_with_trans(d3.bytes, d2.bytes, s.bytes);
    lemma_ends_with_trans(d4.bytes, d3.bytes, s.bytes);
    lemma_ends_with_trans(d5.bytes, d4.bytes, s.bytes);
    lemma_ends_with_trans(d5.table_ended().bytes, d5.bytes, s.bytes);
}

/// The slots of a table whose fields were set one after another.
proof fn lemma_six_slots(
    s: Draft,
    d0: Draft,
    d1: Draft,
    d2: Draft,
    d3: Draft,
    d4: Draft,
    open: Draft,
)
    requires
        s.slots == Seq::new(GEOMETRY_FIELDS as nat, |i: int| 0nat),
        differs_at(d0, s, GEOMETRY_TYPE as int),
        differs_at(d1, d0, GEOMETRY_ENDS as int),
        differs_at(d2, d1, GEOMETRY_XY as int),
        differs_at(d3, d2, GEOMETRY_Z as int),
        differs_at(d4, d3, GEOMETRY_M as int),
        differs_at(open, d4, GEOMETRY_PARTS as int),
    ensures
        open.slots.len() == GEOMETRY_FIELDS,
        s.slots[GEOMETRY_TYPE as int] == 0,
        open.slots[GEOMETRY_TYPE as int] == d0.slots[GEOMETRY_TYPE as int],
        d0.slots[GEOMETRY_ENDS as int] == 0,
        open.slots[GEOMETRY_ENDS as int] == d1.slots[GEOMETRY_ENDS as int],
        d1.slots[GEOMETRY_XY as int] == 0,
        open.slots[GEOMETRY_XY as int] == d2.slots[GEOMETRY_XY as int],
        d2.slots[GEOMETRY_Z as int] == 0,
        open.slots[GEOMETRY_Z as int] == d3.slots[GEOMETRY_Z as int],
        d3.slots[GEOMETRY_M as int] == 0,
        open.slots[GEOMETRY_M as int] == d4.slots[GEOMETRY_M as int],
        d4.slots[GEOMETRY_PARTS as int] == 0,
{
}

/// What a reader finds in a geometry's table.
#[verifier::spinoff_prover]
#[verifier::rlimit(100)]
pub proof fn lemma_geometry_table_found(d: Draft, ty: u8, t: Targets, buf: Seq<u8>)
    requires
        ty != UNKNOWN,
        are_written(t, d),
        ends_with(buf, geometry_table(d, ty, t).0.bytes),
        buf.len() < 0x1_0000_0000,
    ensures
        ({
            let pos = buf.len() - geometry_table(d, ty, t).1;
            &&& forall|default: nat|
                #[trigger] field_scalar(buf, pos, GEOMETRY_TYPE as nat, 1, default) == Ok::<
                    nat,
                    Failure,
                >(ty as nat)
            &&& field_pointee(buf, pos, GEOMETRY_ENDS as nat) == Ok::<Option<int>, Failure>(
                place_of(buf, t.ends),
            )
            &&& field_pointee(buf, pos, GEOMETRY_XY as nat) == Ok::<Option<int>, Failure>(
                place_of(buf, t.xy),
            )
            &&& field_pointee(buf, pos, GEOMETRY_Z as nat) == Ok::<Option<int>, Failure>(
                place_of(buf, t.z),
            )
            &&& field_pointee(buf, pos, GEOMETRY_M as nat) == Ok::<Option<int>, Failure>(
                place_of(buf, t.m),
            )
            &&& field_pointee(buf, pos, GEOMETRY_PARTS as nat) == Ok::<Option<int>, Failure>(
                place_of(buf, t.parts),
            )
        }),
{
    reveal(geometry_table);
    lemma_pow256_values();
    let s = d.table_started(GEOMETRY_FIELDS as nat);
    let d0 = s.with_field(GEOMETRY_TYPE as int, ty as nat, 1, UNKNOWN as nat);
    let d1 = with_optional(d0, GEOMETRY_ENDS as int, t.ends);
    let d2 = with_optional(d1, GEOMETRY_XY as int, t.xy);
    let d3 = with_optional(d2, GEOMETRY_Z as int, t.z);
    let d4 = with_optional(d3, GEOMETRY_M as int, t.m);
    let open = with_optional(d4, GEOMETRY_PARTS as int, t.parts);
    assert(open == geometry_fields(d, ty, t));
    lemma_field_grows(s, GEOMETRY_TYPE as int, ty as nat, 1, UNKNOWN as nat);
    lemma_optional_grows(d0, GEOMETRY_ENDS as int, t.ends);
    lemma_optional_grows(d1, GEOMETRY_XY as int, t.xy);
    lemma_optional_grows(d2, GEOMETRY_Z as int, t.z);
    lemma_optional_grows(d3, GEOMETRY_M as int, t.m);
    lemma_optional_grows(d4, GEOMETRY_PARTS as int, t.parts);
    lemma_ends_with_itself(open.bytes);
    lemma_ends_with_trans(open.bytes, d4.bytes, d3.bytes);
    lemma_ends_with_trans(open.bytes, d3.bytes, d2.bytes);
    lemma_ends_with_trans(open.bytes, d2.bytes, d1.bytes);
    lemma_ends_with_trans(open.bytes, d1.bytes, d0.bytes);
    lemma_optional_differs(d0, GEOMETRY_ENDS as int, t.ends);
    lemma_optional_differs(d1, GEOMETRY_XY as int, t.xy);
    lemma_optional_differs(d2, GEOMETRY_Z as int, t.z);
    lemma_optional_differs(d3, GEOMETRY_M as int, t.m);
    lemma_optional_differs(d4, GEOMETRY_PARTS as int, t.parts);
    lemma_six_slots(s, d0, d1, d2, d3, d4, open);
    lemma_field_found(s, GEOMETRY_TYPE as int, ty as nat, 1, UNKNOWN as nat, open, buf);
    lemma_reference_found(d0, GEOMETRY_ENDS as int, t.ends, open, buf);
    lemma_reference_found(d1, GEOMETRY_XY as int, t.xy, open, buf);
    lemma_reference_found(d2, GEOMETRY_Z as int, t.z, open, buf);
    lemma_reference_found(d3, GEOMETRY_M as int, t.m, open, buf);
    lemma_reference_found(d4, GEOMETRY_PARTS as int, t.parts, open, buf);
}

// --- positions -----------------------------------------------------------------------------

/// A vector that stands that far from the end.
pub open spec fn vector_of(buf: Seq<u8>, rev: Option<nat>, len: nat) -> Option<(int, nat)> {
    match rev {
        Some(r) => Some((buf.len() - r + 4, len)),
        None => None,
    }
}

#[verifier::spinoff_prover]
#[verifier::rlimit(40)]
pub proof fn lemma_simple_vectors_grow(
    d: Draft,
    ps: Seq<Position<u64>>,
    ends: Option<Seq<u32>>,
    dims: (bool, bool),
)
    ensures
        ({
            let (v, t) = simple_vectors(d, ps, ends, dims);
            &&& grown(v, d)
            &&& are_written(t, v)
        }),
{
    let d1 = d.with_f64_vector(xy_of(ps));
    lemma_f64_vector_grows(d, xy_of(ps));
    let (d2, e) = numbers_drawn(d1, ends);
    lemma_ends_with_itself(d1.bytes);
    if let Some(v) = ends {
        lemma_u32_vector_grows(d1, v);
    }
    lemma_ends_with_trans(d2.bytes, d1.bytes, d.bytes);
    let zs = if dims.0 {
        Some(z_of(ps))
    } else {
        None
    };
    let (d3, z) = doubles_drawn(d2, zs);
    lemma_ends_with_itself(d2.bytes);
    if let Some(v) = zs {
        lemma_f64_vector_grows(d2, v);
    }
    lemma_ends_with_trans(d3.bytes, d2.bytes, d.bytes);
    let ms = if dims.1 {
        Some(m_of(ps))
    } else {
        None
    };
    let (d4, m) = doubles_drawn(d3, ms);
    lemma_ends_with_itself(d3.bytes);
    if let Some(v) = ms {
        lemma_f64_vector_grows(d3, v);
    }
    lemma_ends_with_trans(d4.bytes, d3.bytes, d.bytes);
}

pub proof fn lemma_simple_grows(
    d: Draft,
    ty: u8,
    ps: Seq<Position<u64>>,
    ends: Option<Seq<u32>>,
    dims: (bool, bool),
)
    ensures
        ({
            let (after, rev) = simple_drawn(d, ty, ps, ends, dims);
            &&& grown(after, d)
            &&& d.bytes.len() + 4 <= rev <= after.bytes.len()
        }),
{
    let (v, t) = simple_vectors(d, ps, ends, dims);
    lemma_simple_vectors_grow(d, ps, ends, dims);
    lemma_geometry_table_grows(v, ty, t);
    lemma_ends_with_trans(simple_drawn(d, ty, ps, ends, dims).0.bytes, v.bytes, d.bytes);
}

/// Whether a vector of doubles is read back element by element.
pub open spec fn doubles_are(buf: Seq<u8>, v: Option<(int, nat)>, vals: Seq<u64>) -> bool {
    v matches Some((start, len)) ==> len == vals.len() && forall|i: nat|
        i < len ==> #[trigger] element_scalar(buf, start, len, i, 8) == Ok::<nat, Failure>(
            vals[i as int] as nat,
        )
}

/// Positions are read back from vectors of their ordinates.
pub proof fn lemma_positions_found(
    buf: Seq<u8>,
    start: int,
    z: Option<(int, nat)>,
    m: Option<(int, nat)>,
    ps: Seq<Position<u64>>,
    i: nat,
)
    requires
        i <= ps.len(),
        is_run(ps, (z is Some, m is Some)),
        doubles_are(buf, Some((start, (2 * ps.len()) as nat)), xy_of(ps)),
        doubles_are(buf, z, z_of(ps)),
        doubles_are(buf, m, m_of(ps)),
    ensures
        positions_from(buf, start, (2 * ps.len()) as nat, z, m, i, ps.take(i as int)) == Ok::<
            Seq<Position<u64>>,
            Failure,
        >(ps),
    decreases ps.len() - i,
{
    let len = (2 * ps.len()) as nat;
    if i < ps.len() {
        let p = ps[i as int];
        assert(element_scalar(buf, start, len, 2 * i, 8) == Ok::<nat, Failure>(
            xy_of(ps)[(2 * i) as int] as nat,
        ));
        assert(element_scalar(buf, start, len, 2 * i + 1, 8) == Ok::<nat, Failure>(
            xy_of(ps)[(2 * i + 1) as int] as nat,
        ));
        assert(xy_of(ps)[(2 * i) as int] == p.x);
        assert(xy_of(ps)[(2 * i + 1) as int] == p.y);
        if let Some((zs, zl)) = z {
            assert(element_scalar(buf, zs, zl, i, 8) == Ok::<nat, Failure>(
                z_of(ps)[i as int] as nat,
            ));
        }
        if let Some((ms, ml)) = m {
            assert(element_scalar(buf, ms, ml, i, 8) == Ok::<nat, Failure>(
                m_of(ps)[i as int] as nat,
            ));
        }
        lemma_positions_found(buf, start, z, m, ps, i + 1);
        assert(ps.take((i + 1) as int) =~= ps.take(i as int).push(p));
    } else {
        assert(ps.take(i as int) =~= ps);
    }
}

/// What a reader finds of the vectors of a geometry of positions alone.
#[verifier::spinoff_prover]
#[verifier::rlimit(60)]
pub proof fn lemma_simple_found(
    d: Draft,
    ty: u8,
    ps: Seq<Position<u64>>,
    ends: Option<Seq<u32>>,
    dims: (bool, bool),
    buf: Seq<u8>,
)
    requires
        ty != UNKNOWN,
        is_run(ps, dims),
        ends_with(buf, simple_drawn(d, ty, ps, ends, dims).0.bytes),
        buf.len() < 0x1_0000_0000,
    ensures
        ({
            let pos = buf.len() - simple_drawn(d, ty, ps, ends, dims).1;
            &&& forall|default: nat|
                #[trigger] field_scalar(buf, pos, GEOMETRY_TYPE as nat, 1, default) == Ok::<
                    nat,
                    Failure,
                >(ty as nat)
            &&& vectors_at(buf, pos) matches Ok(v) && positions_of(buf, v.xy, v.z, v.m) == Ok::<
                Seq<Position<u64>>,
                Failure,
            >(ps) && match ends {
                None => v.ends is None,
                Some(e) => v.ends matches Some((start, len)) && len == e.len() && forall|i: nat|
                    i < len ==> #[trigger] element_scalar(buf, start, len, i, 4) == Ok::<
                        nat,
                        Failure,
                    >(e[i as int] as nat),
            }
        }),
{
    let (after, t) = simple_vectors(d, ps, ends, dims);
    lemma_simple_vectors_grow(d, ps, ends, dims);
    lemma_geometry_table_grows(after, ty, t);
    lemma_geometry_table_found(after, ty, t, buf);
    lemma_ends_with_trans(buf, simple_drawn(d, ty, ps, ends, dims).0.bytes, after.bytes);
    let d1 = d.with_f64_vector(xy_of(ps));
    lemma_f64_vector_grows(d, xy_of(ps));
    let (d2, e) = numbers_drawn(d1, ends);
    let zs = if dims.0 {
        Some(z_of(ps))
    } else {
        None
    };
    let (d3, z) = doubles_drawn(d2, zs);
    let ms = if dims.1 {
        Some(m_of(ps))
    } else {
        None
    };
    let (d4, m) = doubles_drawn(d3, ms);
    assert(d4 == after);
    lemma_ends_with_itself(d3.bytes);
    if let Some(v) = ms {
        lemma_f64_vector_grows(d3, v);
        lemma_f64_vector_found(d3, v, buf);
    }
    lemma_ends_with_trans(buf, d4.bytes, d3.bytes);
    lemma_ends_with_itself(d2.bytes);
    if let Some(v) = zs {
        lemma_f64_vector_grows(d2, v);
        lemma_f64_vector_found(d2, v, buf);
    }
    lemma_ends_with_trans(buf, d3.bytes, d2.bytes);
    lemma_ends_with_itself(d1.bytes);
    if let Some(v) = ends {
        lemma_u32_vector_grows(d1, v);
        lemma_u32_vector_found(d1, v, buf);
    }
    lemma_ends_with_trans(buf, d2.bytes, d1.bytes);
    lemma_f64_vector_found(d, xy_of(ps), buf);
    let pos = buf.len() - simple_drawn(d, ty, ps, ends, dims).1;
    let xyv = vector_of(buf, t.xy, (2 * ps.len()) as nat);
    let zv = vector_of(buf, t.z, ps.len());
    let mv = vector_of(buf, t.m, ps.len());
    assert(field_vector(buf, pos, GEOMETRY_XY as nat) == Ok::<Option<(int, nat)>, Failure>(xyv));
    assert(field_vector(buf, pos, GEOMETRY_Z as nat) == Ok::<Option<(int, nat)>, Failure>(zv));
    assert(field_vector(buf, pos, GEOMETRY_M as nat) == Ok::<Option<(int, nat)>, Failure>(mv));
    let (start, len) = xyv->0;
    assert(doubles_are(buf, xyv, xy_of(ps)));
    assert(doubles_are(buf, zv, z_of(ps)));
    assert(doubles_are(buf, mv, m_of(ps)));
    lemma_positions_found(buf, start, zv, mv, ps, 0);
    assert(ps.take(0) =~= Seq::empty());
    assert(len % 2 == 0);
    // A vector of no ordinates says nothing of Z or M.
    assert(positions_of(buf, xyv, zv, mv) == Ok::<Seq<Position<u64>>, Failure>(ps));
}

// --- runs ----------------------------------------------------------------------------------

proof fn lemma_joined_next(runs: Seq<Seq<Position<u64>>>, i: int)
    requires
        0 <= i < runs.len(),
    ensures
        joined(runs.take(i + 1)) == joined(runs.take(i)) + runs[i],
{
    assert(runs.take(i + 1).drop_last() =~= runs.take(i));
}

proof fn lemma_joined_prefix(runs: Seq<Seq<Position<u64>>>, i: int)
    requires
        0 <= i <= runs.len(),
    ensures
        joined(runs.take(i)).len() <= joined(runs).len(),
        joined(runs).take(joined(runs.take(i)).len() as int) == joined(runs.take(i)),
    decreases runs.len() - i,
{
    let shorter = joined(runs.take(i));
    if i == runs.len() {
        assert(runs.take(i) =~= runs);
        assert(shorter.take(shorter.len() as int) =~= shorter);
    } else {
        let longer = joined(runs.take(i + 1));
        lemma_joined_prefix(runs, i + 1);
        lemma_joined_next(runs, i);
        assert(joined(runs).take(shorter.len() as int) =~= longer.take(shorter.len() as int));
        assert(longer.take(shorter.len() as int) =~= shorter);
    }
}

/// Runs are read back from their positions and ends.
proof fn lemma_rings_found(buf: Seq<u8>, start: int, runs: Seq<Seq<Position<u64>>>, i: nat)
    requires
        i <= runs.len(),
        joined(runs).len() < 0x1_0000_0000,
        forall|k: nat|
            k < runs.len() ==> #[trigger] element_scalar(buf, start, runs.len(), k, 4) == Ok::<
                nat,
                Failure,
            >(ends_of(runs)[k as int] as nat),
    ensures
        rings_from(
            buf,
            start,
            runs.len(),
            joined(runs),
            i,
            joined(runs.take(i as int)).len() as int,
            runs.take(i as int),
        ) == Ok::<Seq<Seq<Position<u64>>>, Failure>(runs),
    decreases runs.len() - i,
{
    if i < runs.len() {
        let k = i as int;
        let ps = joined(runs);
        let from = joined(runs.take(k)).len() as int;
        let end = joined(runs.take(k + 1)).len();
        lemma_joined_next(runs, k);
        lemma_joined_prefix(runs, k + 1);
        assert(ends_of(runs)[k] == end);
        assert(element_scalar(buf, start, runs.len(), i, 4) == Ok::<nat, Failure>(end));
        assert(ps.subrange(from, end as int) =~= ps.take(end as int).subrange(from, end as int));
        assert(joined(runs.take(k + 1)).subrange(from, end as int) =~= runs[k]);
        lemma_rings_found(buf, start, runs, i + 1);
        assert(runs.take(k + 1) =~= runs.take(k).push(runs[k]));
    } else {
        assert(runs.take(i as int) =~= runs);
    }
}

proof fn lemma_joined_is_run(runs: Seq<Seq<Position<u64>>>, dims: (bool, bool))
    requires
        forall|i: int| 0 <= i < runs.len() ==> is_run(#[trigger] runs[i], dims),
    ensures
        is_run(joined(runs), dims),
    decreases runs.len(),
{
    if runs.len() > 0 {
        let shorter = runs.drop_last();
        assert forall|i: int| 0 <= i < shorter.len() implies is_run(#[trigger] shorter[i], dims) by {
            assert(shorter[i] == runs[i]);
        }
        lemma_joined_is_run(shorter, dims);
        assert(is_run(runs[runs.len() - 1], dims));
    }
}

// --- whole geometries ----------------------------------------------------------------------

/// Whether the geometry that stands at a place is read as another, whatever the
/// default type is.
pub open spec fn is_read_as(buf: Seq<u8>, pos: int, s: Shape<u64>) -> bool {
    forall|default: nat|
        #[trigger] shape_at(buf, pos, default) == Ok::<Shape<u64>, Failure>(s)
}

/// A geometry of one run is read back.
proof fn lemma_run_reads_back(d: Draft, ty: u8, ps: Seq<Position<u64>>, buf: Seq<u8>)
    requires
        ty == POINT || ty == LINESTRING || ty == MULTIPOINT,
        ty == POINT ==> ps.len() > 0,
        is_run(ps, dims_of(ps)),
        ends_with(buf, run_drawn(d, ty, ps).0.bytes),
        buf.len() < 0x1_0000_0000,
    ensures
        is_read_as(
            buf,
            buf.len() - run_drawn(d, ty, ps).1,
            if ty == POINT {
                Shape::Point(ps[0])
            } else if ty == LINESTRING {
                Shape::LineString(ps)
            } else {
                Shape::MultiPoint(ps)
            },
        ),
{
    reveal(run_drawn);
    lemma_simple_found(d, ty, ps, None, dims_of(ps), buf);
    let pos = buf.len() - run_drawn(d, ty, ps).1;
    assert forall|default: nat| true implies (#[trigger] shape_at(buf, pos, default)) == Ok::<
        Shape<u64>,
        Failure,
    >(
        if ty == POINT {
            Shape::Point(ps[0])
        } else if ty == LINESTRING {
            Shape::LineString(ps)
        } else {
            Shape::MultiPoint(ps)
        },
    ) by {
        assert(field_scalar(buf, pos, GEOMETRY_TYPE as nat, 1, default) == Ok::<nat, Failure>(
            ty as nat,
        ));
    }
}

/// A geometry of runs is read back.
proof fn lemma_runs_read_back(d: Draft, ty: u8, runs: Seq<Seq<Position<u64>>>, buf: Seq<u8>)
    requires
        ty == POLYGON || ty == MULTILINESTRING,
        are_runs(runs),
        ends_with(buf, runs_drawn(d, ty, runs).0.bytes),
        buf.len() < 0x1_0000_0000,
    ensures
        is_read_as(
            buf,
            buf.len() - runs_drawn(d, ty, runs).1,
            if ty == POLYGON {
                Shape::Polygon(runs)
            } else {
                Shape::MultiLineString(runs)
            },
        ),
{
    reveal(runs_drawn);
    let ps = joined(runs);
    let ends = written_ends(runs);
    let dims = dims_of_runs(runs);
    lemma_joined_is_run(runs, dims);
    lemma_simple_found(d, ty, ps, ends, dims, buf);
    let pos = buf.len() - runs_drawn(d, ty, runs).1;
    let v = vectors_at(buf, pos)->Ok_0;
    assert(rings_of(buf, ps, v.ends) == Ok::<Seq<Seq<Position<u64>>>, Failure>(runs)) by {
        if runs.len() > 1 {
            let (start, len) = v.ends->0;
            lemma_simple_grows(d, ty, ps, ends, dims);
            lemma_f64_vector_grows(d, xy_of(ps));
            let d1 = d.with_f64_vector(xy_of(ps));
            assert(d1.bytes.len() <= buf.len()) by {
                lemma_simple_vectors_grow(d, ps, ends, dims);
                lemma_geometry_table_grows(
                    simple_vectors(d, ps, ends, dims).0,
                    ty,
                    simple_vectors(d, ps, ends, dims).1,
                );
            }
            lemma_rings_found(buf, start, runs, 0);
            assert(runs.take(0) =~= Seq::empty());
            assert(joined(runs.take(0)).len() == 0);
        } else {
            assert(runs.drop_last() =~= Seq::empty());
            assert(joined(runs.drop_last()) =~= Seq::empty());
            assert(ps =~= runs[0]);
            assert(seq![ps] =~= runs);
        }
    }
    assert forall|default: nat| true implies (#[trigger] shape_at(buf, pos, default)) == Ok::<
        Shape<u64>,
        Failure,
    >(
        if ty == POLYGON {
            Shape::Polygon(runs)
        } else {
            Shape::MultiLineString(runs)
        },
    ) by {
        assert(field_scalar(buf, pos, GEOMETRY_TYPE as nat, 1, default) == Ok::<nat, Failure>(
            ty as nat,
        ));
    }
}

// --- parts ---------------------------------------------------------------------------------

proof fn lemma_run_grows(d: Draft, ty: u8, ps: Seq<Position<u64>>)
    ensures
        grown(run_drawn(d, ty, ps).0, d),
        d.bytes.len() + 4 <= run_drawn(d, ty, ps).1 <= run_drawn(d, ty, ps).0.bytes.len(),
{
    reveal(run_drawn);
    lemma_simple_grows(d, ty, ps, None, dims_of(ps));
}

proof fn lemma_runs_grow(d: Draft, ty: u8, runs: Seq<Seq<Position<u64>>>)
    ensures
        grown(runs_drawn(d, ty, runs).0, d),
        d.bytes.len() + 4 <= runs_drawn(d, ty, runs).1 <= runs_drawn(d, ty, runs).0.bytes.len(),
{
    reveal(runs_drawn);
    lemma_simple_grows(d, ty, joined(runs), written_ends(runs), dims_of_runs(runs));
}

proof fn lemma_whole_grows(d: Draft, ty: u8, revs: Seq<nat>)
    ensures
        grown(whole_drawn(d, ty, revs).0, d),
        d.bytes.len() + 4 <= whole_drawn(d, ty, revs).1 <= whole_drawn(d, ty, revs).0.bytes.len(),
{
    reveal(whole_drawn);
    let v = d.with_offset_vector(revs);
    let t = Targets { ends: None, xy: None, z: None, m: None, parts: Some(v.bytes.len()) };
    lemma_offset_vector_grows(d, revs);
    lemma_geometry_table_grows(v, ty, t);
    lemma_ends_with_trans(geometry_table(v, ty, t).0.bytes, v.bytes, d.bytes);
}

/// Whether tables that far from the end have been written.
pub open spec fn are_tables(revs: Seq<nat>, d: Draft) -> bool {
    forall|k: int| 0 <= k < revs.len() ==> 4 <= #[trigger] revs[k] <= d.bytes.len()
}

proof fn lemma_polygons_grow(d: Draft, polygons: Seq<Seq<Seq<Position<u64>>>>, n: int)
    requires
        0 <= n <= polygons.len(),
    ensures
        grown(polygons_drawn(d, polygons, n).0, d),
        polygons_drawn(d, polygons, n).1.len() == n,
        are_tables(polygons_drawn(d, polygons, n).1, polygons_drawn(d, polygons, n).0),
    decreases n,
{
    if n <= 0 {
        lemma_ends_with_itself(d.bytes);
    } else {
        let (before, revs) = polygons_drawn(d, polygons, n - 1);
        lemma_polygons_grow(d, polygons, n - 1);
        lemma_runs_grow(before, POLYGON, polygons[n - 1]);
        let (after, rev) = runs_drawn(before, POLYGON, polygons[n - 1]);
        lemma_ends_with_trans(after.bytes, before.bytes, d.bytes);
        assert forall|k: int| 0 <= k < n implies 4 <= #[trigger] revs.push(rev)[k]
            <= after.bytes.len() by {
            if k < n - 1 {
                assert(revs.push(rev)[k] == revs[k]);
            }
        }
    }
}

pub proof fn lemma_shape_grows(d: Draft, s: Shape<u64>)
    ensures
        grown(shape_drawn(d, s).0, d),
        d.bytes.len() + 4 <= shape_drawn(d, s).1 <= shape_drawn(d, s).0.bytes.len(),
    decreases s,
{
    match s {
        Shape::Point(p) => {
            lemma_run_grows(d, POINT, seq![p]);
        },
        Shape::LineString(ps) => {
            lemma_run_grows(d, LINESTRING, ps);
        },
        Shape::MultiPoint(ps) => {
            lemma_run_grows(d, MULTIPOINT, ps);
        },
        Shape::Polygon(rings) => {
            lemma_runs_grow(d, POLYGON, rings);
        },
        Shape::MultiLineString(lines) => {
            lemma_runs_grow(d, MULTILINESTRING, lines);
        },
        Shape::MultiPolygon(polygons) => {
            let (after, revs) = polygons_drawn(d, polygons, polygons.len() as int);
            lemma_polygons_grow(d, polygons, polygons.len() as int);
            lemma_whole_grows(after, MULTIPOLYGON, revs);
            lemma_ends_with_trans(
                whole_drawn(after, MULTIPOLYGON, revs).0.bytes,
                after.bytes,
                d.bytes,
            );
        },
        Shape::GeometryCollection(parts) => {
            let (after, revs) = parts_drawn(d, parts);
            lemma_parts_grow(d, parts);
            lemma_whole_grows(after, GEOMETRYCOLLECTION, revs);
            lemma_ends_with_trans(
                whole_drawn(after, GEOMETRYCOLLECTION, revs).0.bytes,
                after.bytes,
                d.bytes,
            );
        },
    }
}

proof fn lemma_parts_grow(d: Draft, parts: Seq<Shape<u64>>)
    ensures
        grown(parts_drawn(d, parts).0, d),
        parts_drawn(d, parts).1.len() == parts.len(),
        are_tables(parts_drawn(d, parts).1, parts_drawn(d, parts).0),
    decreases parts,
{
    if parts.len() == 0 {
        lemma_ends_with_itself(d.bytes);
    } else {
        let (before, revs) = parts_drawn(d, parts.drop_last());
        let last = parts[parts.len() - 1];
        lemma_parts_grow(d, parts.drop_last());
        lemma_shape_grows(before, last);
        let (after, rev) = shape_drawn(before, last);
        lemma_ends_with_trans(after.bytes, before.bytes, d.bytes);
        assert forall|k: int| 0 <= k < parts.len() implies 4 <= #[trigger] revs.push(rev)[k]
            <= after.bytes.len() by {
            if k < parts.len() - 1 {
                assert(revs.push(rev)[k] == revs[k]);
            }
        }
    }
}

/// The places of tables that far from the end.
pub open spec fn places_of(buf: Seq<u8>, revs: Seq<nat>) -> Seq<int> {
    Seq::new(revs.len(), |k: int| buf.len() - revs[k])
}

/// What a reader finds in the table of a geometry with parts.
proof fn lemma_whole_found(d: Draft, ty: u8, revs: Seq<nat>, buf: Seq<u8>)
    requires
        ty != UNKNOWN,
        are_tables(revs, d),
        ends_with(buf, whole_drawn(d, ty, revs).0.bytes),
        buf.len() < 0x1_0000_0000,
    ensures
        ({
            let pos = buf.len() - whole_drawn(d, ty, revs).1;
            &&& forall|default: nat|
                #[trigger] field_scalar(buf, pos, GEOMETRY_TYPE as nat, 1, default) == Ok::<
                    nat,
                    Failure,
                >(ty as nat)
            &&& vectors_at(buf, pos) is Ok
            &&& parts_at(buf, pos) == Ok::<Seq<int>, Failure>(places_of(buf, revs))
            &&& forall|k: int|
                0 <= k < revs.len() ==> pos < #[trigger] places_of(buf, revs)[k] <= buf.len()
        }),
{
    reveal(whole_drawn);
    let v = d.with_offset_vector(revs);
    let t = Targets { ends: None, xy: None, z: None, m: None, parts: Some(v.bytes.len()) };
    lemma_offset_vector_grows(d, revs);
    lemma_geometry_table_grows(v, ty, t);
    lemma_geometry_table_found(v, ty, t, buf);
    lemma_ends_with_trans(buf, geometry_table(v, ty, t).0.bytes, v.bytes);
    lemma_offset_vector_found(d, revs, buf);
    let start = buf.len() - v.bytes.len() + 4;
    lemma_places_found(buf, start, revs, 0);
    let all = Seq::new(revs.len(), |k: int| buf.len() - revs[k]);
    assert(all.take(0) =~= Seq::empty());
    assert(all =~= places_of(buf, revs));
    assert forall|k: int| 0 <= k < revs.len() implies buf.len() - whole_drawn(d, ty, revs).1
        < #[trigger] places_of(buf, revs)[k] <= buf.len() by {
        assert(4 <= revs[k] <= d.bytes.len());
    }
}

/// Each of a list of polygons is read back.
proof fn lemma_polygon_reads_back(
    d: Draft,
    polygons: Seq<Seq<Seq<Position<u64>>>>,
    n: int,
    k: int,
    buf: Seq<u8>,
)
    requires
        0 <= k < n <= polygons.len(),
        forall|i: int| 0 <= i < polygons.len() ==> are_runs(#[trigger] polygons[i]),
        ends_with(buf, polygons_drawn(d, polygons, n).0.bytes),
        buf.len() < 0x1_0000_0000,
    ensures
        is_read_as(
            buf,
            buf.len() - polygons_drawn(d, polygons, n).1[k],
            Shape::Polygon(polygons[k]),
        ),
    decreases n,
{
    let (before, revs) = polygons_drawn(d, polygons, n - 1);
    let (after, rev) = runs_drawn(before, POLYGON, polygons[n - 1]);
    lemma_polygons_grow(d, polygons, n - 1);
    if k == n - 1 {
        assert(are_runs(polygons[n - 1]));
        lemma_runs_read_back(before, POLYGON, polygons[n - 1], buf);
        assert(revs.push(rev)[k] == rev);
    } else {
        lemma_runs_grow(before, POLYGON, polygons[n - 1]);
        lemma_ends_with_trans(buf, after.bytes, before.bytes);
        lemma_polygon_reads_back(d, polygons, n - 1, k, buf);
        assert(revs.push(rev)[k] == revs[k]);
    }
}

/// Polygons whose tables are read back make up the list.
proof fn lemma_polygons_found(
    buf: Seq<u8>,
    pos: int,
    places: Seq<int>,
    polygons: Seq<Seq<Seq<Position<u64>>>>,
    i: int,
)
    requires
        0 <= i <= polygons.len() == places.len(),
        forall|k: int|
            0 <= k < places.len() ==> pos < #[trigger] places[k] <= buf.len() && is_read_as(
                buf,
                places[k],
                Shape::Polygon(polygons[k]),
            ),
    ensures
        polygons_at(buf, pos, places, i, polygons.take(i)) == Ok::<
            Seq<Seq<Seq<Position<u64>>>>,
            Failure,
        >(polygons),
    decreases polygons.len() - i,
{
    if i < polygons.len() {
        assert(pos < places[i] <= buf.len());
        assert(shape_at(buf, places[i], POLYGON as nat) == Ok::<Shape<u64>, Failure>(
            Shape::Polygon(polygons[i]),
        ));
        lemma_polygons_found(buf, pos, places, polygons, i + 1);
        assert(polygons.take(i + 1) =~= polygons.take(i).push(polygons[i]));
    } else {
        assert(polygons.take(i) =~= polygons);
    }
}

/// Geometries whose tables are read back make up the list.
proof fn lemma_shapes_found(
    buf: Seq<u8>,
    pos: int,
    places: Seq<int>,
    parts: Seq<Shape<u64>>,
    i: int,
)
    requires
        0 <= i <= parts.len() == places.len(),
        forall|k: int|
            0 <= k < places.len() ==> pos < #[trigger] places[k] <= buf.len() && is_read_as(
                buf,
                places[k],
                parts[k],
            ),
    ensures
        shapes_at(buf, pos, places, i, parts.take(i)) == Ok::<Seq<Shape<u64>>, Failure>(parts),
    decreases parts.len() - i,
{
    if i < parts.len() {
        assert(pos < places[i] <= buf.len());
        assert(shape_at(buf, places[i], 0) == Ok::<Shape<u64>, Failure>(parts[i]));
        lemma_shapes_found(buf, pos, places, parts, i + 1);
        assert(parts.take(i + 1) =~= parts.take(i).push(parts[i]));
    } else {
        assert(parts.take(i) =~= parts);
    }
}

/// A geometry that was written is read back, whatever else its buffer holds. Not
/// read back are positions that lack an ordinate that others of their run have,
/// polygons and lists of lines without a run, and a field that has no slot.
pub proof fn law_shape_reads_back(d: Draft, s: Shape<u64>, buf: Seq<u8>)
    requires
        is_regular(s),
        ends_with(buf, shape_drawn(d, s).0.bytes),
        buf.len() < 0x1_0000_0000,
    ensures
        is_read_as(buf, buf.len() - shape_drawn(d, s).1, s),
    decreases s,
{
    match s {
        Shape::Point(p) => {
            lemma_run_reads_back(d, POINT, seq![p], buf);
        },
        Shape::LineString(ps) => {
            lemma_run_reads_back(d, LINESTRING, ps, buf);
        },
        Shape::MultiPoint(ps) => {
            lemma_run_reads_back(d, MULTIPOINT, ps, buf);
        },
        Shape::Polygon(rings) => {
            lemma_runs_read_back(d, POLYGON, rings, buf);
        },
        Shape::MultiLineString(lines) => {
            lemma_runs_read_back(d, MULTILINESTRING, lines, buf);
        },
        Shape::MultiPolygon(polygons) => {
            let n = polygons.len() as int;
            let (after, revs) = polygons_drawn(d, polygons, n);
            let (end, rev) = whole_drawn(after, MULTIPOLYGON, revs);
            let pos = buf.len() - rev;
            let places = places_of(buf, revs);
            lemma_polygons_grow(d, polygons, n);
            lemma_whole_found(after, MULTIPOLYGON, revs, buf);
            lemma_whole_grows(after, MULTIPOLYGON, revs);
            lemma_ends_with_trans(buf, end.bytes, after.bytes);
            assert forall|k: int| 0 <= k < places.len() implies pos < #[trigger] places[k]
                <= buf.len() && is_read_as(buf, places[k], Shape::Polygon(polygons[k])) by {
                lemma_polygon_reads_back(d, polygons, n, k, buf);
            }
            lemma_polygons_found(buf, pos, places, polygons, 0);
            assert(polygons.take(0) =~= Seq::empty());
            assert forall|default: nat| true implies (#[trigger] shape_at(buf, pos, default))
                == Ok::<Shape<u64>, Failure>(s) by {
                assert(field_scalar(buf, pos, GEOMETRY_TYPE as nat, 1, default) == Ok::<
                    nat,
                    Failure,
                >(MULTIPOLYGON as nat));
            }
        },
        Shape::GeometryCollection(parts) => {
            let (after, revs) = parts_drawn(d, parts);
            let (end, rev) = whole_drawn(after, GEOMETRYCOLLECTION, revs);
            let pos = buf.len() - rev;
            let places = places_of(buf, revs);
            lemma_parts_grow(d, parts);
            lemma_whole_found(after, GEOMETRYCOLLECTION, revs, buf);
            lemma_whole_grows(after, GEOMETRYCOLLECTION, revs);
            lemma_ends_with_trans(buf, end.bytes, after.bytes);
            assert forall|k: int| 0 <= k < places.len() implies pos < #[trigger] places[k]
                <= buf.len() && is_read_as(buf, places[k], parts[k]) by {
                lemma_part_reads_back(d, parts, k, buf);
            }
            lemma_shapes_found(buf, pos, places, parts, 0);
            assert(parts.take(0) =~= Seq::empty());
            assert forall|default: nat| true implies (#[trigger] shape_at(buf, pos, default))
                == Ok::<Shape<u64>, Failure>(s) by {
                assert(field_scalar(buf, pos, GEOMETRY_TYPE as nat, 1, default) == Ok::<
                    nat,
                    Failure,
                >(GEOMETRYCOLLECTION as nat));
            }
        },
    }
}

/// Each of a list of geometries is read back.
proof fn lemma_part_reads_back(d: Draft, parts: Seq<Shape<u64>>, k: int, buf: Seq<u8>)
    requires
        0 <= k < parts.len(),
        forall|i: int| 0 <= i < parts.len() ==> is_regular(#[trigger] parts[i]),
        ends_with(buf, parts_drawn(d, parts).0.bytes),
        buf.len() < 0x1_0000_0000,
    ensures
        is_read_as(buf, buf.len() - parts_drawn(d, parts).1[k], parts[k]),
    decreases parts,
{
    let shorter = parts.drop_last();
    let last = parts[parts.len() - 1];
    let (before, revs) = parts_drawn(d, shorter);
    let (after, rev) = shape_drawn(before, last);
    lemma_parts_grow(d, shorter);
    if k == parts.len() - 1 {
        assert(is_regular(last));
        law_shape_reads_back(before, last, buf);
        assert(revs.push(rev)[k] == rev);
    } else {
        lemma_shape_grows(before, last);
        lemma_ends_with_trans(buf, after.bytes, before.bytes);
        assert forall|i: int| 0 <= i < shorter.len() implies is_regular(#[trigger] shorter[i]) by {
            assert(shorter[i] == parts[i]);
        }
        lemma_part_reads_back(d, shorter, k, buf);
        assert(revs.push(rev)[k] == revs[k]);
    }
}

} // verus!
