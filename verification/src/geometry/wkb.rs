//! Well-Known Binary.
//!
//! Output is little-endian. A geometry's dimensionality is read off its first
//! position and folded into the type code: plus 1000 for Z, 2000 for M, 3000
//! for both. Multi-geometries and collections embed complete sub-geometries,
//! each with its own byte-order marker and type code.
use vstd::prelude::*;

use super::lemma_collection_view;
use super::polygons_view;
use super::run_view;
use super::runs_view;
use super::shapes_view;
use super::Geometry;
use super::Position;
use super::Shape;
use crate::bytes::law_le_bytes_read_back;
use crate::bytes::le_bytes;
use crate::bytes::le_value;
use crate::bytes::lemma_le_bytes_len;
use crate::bytes::lemma_pow256_values;
use crate::bytes::pow256;
use crate::bytes::push_le;
use crate::bytes::read_le;
use crate::error::tagged;
use crate::error::Error;
use crate::error::Failure;
use crate::text::decimal;
use crate::text::decimal_text;

verus! {

/// Whether positions carry Z and M.
#[derive(Debug, Clone, Copy, PartialEq, Eq, Structural)]
pub struct Dim {
    pub z: bool,
    pub m: bool,
}

impl Dim {
    pub open spec fn spec_of(p: Position<u64>) -> Dim {
        Dim { z: p.z is Some, m: p.m is Some }
    }

    pub open spec fn spec_offset(self) -> nat {
        (if self.z {
            1000nat
        } else {
            0
        }) + (if self.m {
            2000nat
        } else {
            0
        })
    }

    pub open spec fn spec_coord_size(self) -> nat {
        16 + (if self.z {
            8nat
        } else {
            0
        }) + (if self.m {
            8nat
        } else {
            0
        })
    }

    fn of(p: Position<u64>) -> (d: Self)
        ensures
            d == Dim::spec_of(p),
    {
        Dim { z: p.z.is_some(), m: p.m.is_some() }
    }

    /// The type-code offset of this dimensionality.
    pub fn offset(self) -> (r: u32)
        ensures
            r == self.spec_offset(),
    {
        match (self.z, self.m) {
            (false, false) => 0,
            (true, false) => 1000,
            (false, true) => 2000,
            (true, true) => 3000,
        }
    }

    /// The dimensionality of a type-code offset.
    pub fn from_offset(offset: u32) -> (r: Result<Dim, Error>)
        ensures
            match dim_of_offset(offset as nat) {
                Ok(d) => r == Ok::<Dim, Error>(d),
                Err(e) => r is Err && r->Err_0@ == e,
            },
    {
        if offset == 0 {
            Ok(Dim { z: false, m: false })
        } else if offset == 1000 {
            Ok(Dim { z: true, m: false })
        } else if offset == 2000 {
            Ok(Dim { z: false, m: true })
        } else if offset == 3000 {
            Ok(Dim { z: true, m: true })
        } else {
            let mut message = tagged(
                "unknown WKB dimension offset ",
                decimal_text(offset as u64).as_str(),
            );
            message.append(
                " (expected 0, 1000, 2000, or 3000 — EWKB-style high-bit flags are not supported)",
            );
            Err(Error::Convert(message))
        }
    }

    /// Bytes per coordinate.
    pub fn coord_size(self) -> (r: usize)
        ensures
            r == self.spec_coord_size(),
    {
        let z: usize = if self.z {
            8
        } else {
            0
        };
        let m: usize = if self.m {
            8
        } else {
            0
        };
        16 + z + m
    }
}

/// The dimensionality of a type-code offset.
pub open spec fn dim_of_offset(offset: nat) -> Result<Dim, Failure> {
    if offset == 0 {
        Ok(Dim { z: false, m: false })
    } else if offset == 1000 {
        Ok(Dim { z: true, m: false })
    } else if offset == 2000 {
        Ok(Dim { z: false, m: true })
    } else if offset == 3000 {
        Ok(Dim { z: true, m: true })
    } else {
        Err(
            Failure::Convert(
                "unknown WKB dimension offset "@ + decimal(offset)
                    + " (expected 0, 1000, 2000, or 3000 — EWKB-style high-bit flags are not supported)"@,
            ),
        )
    }
}

/// The dimensionality of positions without Z or M.
pub open spec fn flat() -> Dim {
    Dim { z: false, m: false }
}

/// The dimensionality of a run's first position.
pub open spec fn run_dim(run: Seq<Position<u64>>) -> Dim {
    if run.len() == 0 {
        flat()
    } else {
        Dim::spec_of(run[0])
    }
}

/// The dimensionality of a ring list's first position.
pub open spec fn runs_dim(runs: Seq<Seq<Position<u64>>>) -> Dim {
    if runs.len() == 0 {
        flat()
    } else {
        run_dim(runs[0])
    }
}

/// The dimensionality of a geometry's first position.
pub open spec fn shape_dim(s: Shape<u64>) -> Dim
    decreases s,
{
    match s {
        Shape::Point(p) => Dim::spec_of(p),
        Shape::LineString(run) => run_dim(run),
        Shape::MultiPoint(run) => run_dim(run),
        Shape::Polygon(rings) => runs_dim(rings),
        Shape::MultiLineString(lines) => runs_dim(lines),
        Shape::MultiPolygon(polygons) => if polygons.len() == 0 {
            flat()
        } else {
            runs_dim(polygons[0])
        },
        Shape::GeometryCollection(parts) => if parts.len() == 0 {
            flat()
        } else {
            shape_dim(parts[0])
        },
    }
}

/// The type code of a geometry without Z or M.
pub open spec fn base_code<V>(s: Shape<V>) -> nat {
    match s {
        Shape::Point(_) => 1,
        Shape::LineString(_) => 2,
        Shape::Polygon(_) => 3,
        Shape::MultiPoint(_) => 4,
        Shape::MultiLineString(_) => 5,
        Shape::MultiPolygon(_) => 6,
        Shape::GeometryCollection(_) => 7,
    }
}

// --- encoding ------------------------------------------------------------------

/// The byte-order marker and the type code.
pub open spec fn header_bytes(code: nat, dim: Dim) -> Seq<u8> {
    seq![1u8] + le_bytes(code + dim.spec_offset(), 4)
}

/// An ordinate that the dimensionality asks for: zero where it is missing.
pub open spec fn extra_bytes(wanted: bool, v: Option<u64>) -> Seq<u8> {
    if wanted {
        le_bytes(
            match v {
                Some(v) => v as nat,
                None => 0,
            },
            8,
        )
    } else {
        Seq::empty()
    }
}

/// One coordinate.
pub open spec fn coord_bytes(p: Position<u64>, dim: Dim) -> Seq<u8> {
    le_bytes(p.x as nat, 8) + le_bytes(p.y as nat, 8) + extra_bytes(dim.z, p.z) + extra_bytes(
        dim.m,
        p.m,
    )
}

/// Coordinates one after another.
pub open spec fn coords_bytes(run: Seq<Position<u64>>, dim: Dim) -> Seq<u8>
    decreases run.len(),
{
    if run.len() == 0 {
        Seq::empty()
    } else {
        coords_bytes(run.drop_last(), dim) + coord_bytes(run.last(), dim)
    }
}

/// A count of positions and their coordinates.
pub open spec fn line_bytes(run: Seq<Position<u64>>, dim: Dim) -> Seq<u8> {
    le_bytes(run.len(), 4) + coords_bytes(run, dim)
}

/// Rings one after another, all at one dimensionality.
pub open spec fn rings_bytes(rings: Seq<Seq<Position<u64>>>, dim: Dim) -> Seq<u8>
    decreases rings.len(),
{
    if rings.len() == 0 {
        Seq::empty()
    } else {
        rings_bytes(rings.drop_last(), dim) + line_bytes(rings.last(), dim)
    }
}

/// The encoding of a point, a line string or a polygon.
pub open spec fn simple_bytes(s: Shape<u64>) -> Seq<u8> {
    match s {
        Shape::Point(p) => header_bytes(1, Dim::spec_of(p)) + coord_bytes(p, Dim::spec_of(p)),
        Shape::LineString(run) => header_bytes(2, run_dim(run)) + line_bytes(run, run_dim(run)),
        Shape::Polygon(rings) => header_bytes(3, runs_dim(rings)) + (le_bytes(rings.len(), 4)
            + rings_bytes(rings, runs_dim(rings))),
        _ => Seq::empty(),
    }
}

/// The members of a multi-geometry or a collection, as geometries.
pub open spec fn members(s: Shape<u64>) -> Seq<Shape<u64>> {
    match s {
        Shape::MultiPoint(run) => run.map_values(|p: Position<u64>| Shape::Point(p)),
        Shape::MultiLineString(lines) => lines.map_values(
            |l: Seq<Position<u64>>| Shape::LineString(l),
        ),
        Shape::MultiPolygon(polygons) => polygons.map_values(
            |r: Seq<Seq<Position<u64>>>| Shape::Polygon(r),
        ),
        Shape::GeometryCollection(parts) => parts,
        _ => Seq::empty(),
    }
}

/// Geometries without members, one after another.
pub open spec fn simples_bytes(parts: Seq<Shape<u64>>) -> Seq<u8>
    decreases parts.len(),
{
    if parts.len() == 0 {
        Seq::empty()
    } else {
        simples_bytes(parts.drop_last()) + simple_bytes(parts.last())
    }
}

/// The encoding of a geometry.
pub open spec fn wkb_bytes(s: Shape<u64>) -> Seq<u8>
    decreases s,
{
    match s {
        Shape::GeometryCollection(parts) => header_bytes(7, shape_dim(s)) + (le_bytes(
            parts.len(),
            4,
        ) + parts_bytes(parts)),
        Shape::MultiPoint(_) | Shape::MultiLineString(_) | Shape::MultiPolygon(_) => header_bytes(
            base_code(s),
            shape_dim(s),
        ) + (le_bytes(members(s).len(), 4) + simples_bytes(members(s))),
        _ => simple_bytes(s),
    }
}

/// The encodings of geometries, one after another.
pub open spec fn parts_bytes(parts: Seq<Shape<u64>>) -> Seq<u8>
    decreases parts,
{
    if parts.len() == 0 {
        Seq::empty()
    } else {
        parts_bytes(parts.drop_last()) + wkb_bytes(parts[parts.len() - 1])
    }
}

fn write_header(out: &mut Vec<u8>, code: u32, dim: Dim)
    requires
        code <= 7,
    ensures
        final(out)@ == old(out)@ + header_bytes(code as nat, dim),
{
    out.push(1);
    push_le(out, (code + dim.offset()) as u64, 4);
    assert(out@ =~= old(out)@ + header_bytes(code as nat, dim));
}

fn write_extra(out: &mut Vec<u8>, wanted: bool, v: Option<u64>)
    ensures
        final(out)@ == old(out)@ + extra_bytes(wanted, v),
{
    if wanted {
        match v {
            Some(v) => push_le(out, v, 8),
            None => push_le(out, 0, 8),
        }
    } else {
        assert(out@ =~= old(out)@ + extra_bytes(wanted, v));
    }
}

fn write_coord(out: &mut Vec<u8>, p: Position<u64>, dim: Dim)
    ensures
        final(out)@ == old(out)@ + coord_bytes(p, dim),
{
    push_le(out, p.x, 8);
    push_le(out, p.y, 8);
    write_extra(out, dim.z, p.z);
    write_extra(out, dim.m, p.m);
    assert(out@ =~= old(out)@ + coord_bytes(p, dim));
}

fn write_line(out: &mut Vec<u8>, run: &Vec<Position<u64>>, dim: Dim)
    ensures
        final(out)@ == old(out)@ + line_bytes(run_view(run@), dim),
{
    let ghost all = run_view(run@);
    push_le(out, run.len() as u64, 4);
    let ghost start = out@;
    let mut i: usize = 0;
    assert(start + coords_bytes(all.take(0), dim) =~= start);
    while i < run.len()
        invariant
            i <= run@.len(),
            all == run_view(run@),
            out@ == start + coords_bytes(all.take(i as int), dim),
        decreases run@.len() - i,
    {
        write_coord(out, run[i], dim);
        i += 1;
        proof {
            assert(all.take(i as int).drop_last() =~= all.take(i - 1));
            assert(all.take(i as int).last() == run@[i - 1]);
            assert(out@ =~= start + coords_bytes(all.take(i as int), dim));
        }
    }
    assert(all.take(i as int) =~= all);
    assert(out@ =~= old(out)@ + line_bytes(all, dim));
}

fn dim_of_first(run: &Vec<Position<u64>>) -> (d: Dim)
    ensures
        d == run_dim(run_view(run@)),
{
    if run.len() == 0 {
        Dim { z: false, m: false }
    } else {
        assert(run_view(run@)[0] == run@[0]);
        Dim::of(run[0])
    }
}

fn dim_of_rings(rings: &Vec<Vec<Position<u64>>>) -> (d: Dim)
    ensures
        d == runs_dim(runs_view(rings@)),
{
    if rings.len() == 0 {
        Dim { z: false, m: false }
    } else {
        assert(runs_view(rings@)[0] == run_view(rings@[0]@));
        dim_of_first(&rings[0])
    }
}

fn dim_of_geometry(g: &Geometry<u64>) -> (d: Dim)
    ensures
        d == shape_dim(g@),
    decreases g,
{
    match g {
        Geometry::Point(p) => Dim::of(*p),
        Geometry::LineString(run) => dim_of_first(run),
        Geometry::MultiPoint(run) => dim_of_first(run),
        Geometry::Polygon(rings) => dim_of_rings(rings),
        Geometry::MultiLineString(lines) => dim_of_rings(lines),
        Geometry::MultiPolygon(polygons) => if polygons.len() == 0 {
            Dim { z: false, m: false }
        } else {
            assert(polygons_view(polygons@)[0] == runs_view(polygons@[0]@));
            dim_of_rings(&polygons[0])
        },
        Geometry::GeometryCollection(parts) => {
            proof {
                lemma_collection_view(*parts);
            }
            if parts.len() == 0 {
                Dim { z: false, m: false }
            } else {
                assert(shapes_view(parts@)[0] == parts@[0]@);
                dim_of_geometry(&parts[0])
            }
        },
    }
}

fn write_polygon(out: &mut Vec<u8>, rings: &Vec<Vec<Position<u64>>>)
    ensures
        final(out)@ == old(out)@ + simple_bytes(Shape::Polygon(runs_view(rings@))),
{
    let ghost all = runs_view(rings@);
    let dim = dim_of_rings(rings);
    write_header(out, 3, dim);
    push_le(out, rings.len() as u64, 4);
    let ghost start = out@;
    let mut i: usize = 0;
    assert(start + rings_bytes(all.take(0), dim) =~= start);
    while i < rings.len()
        invariant
            i <= rings@.len(),
            all == runs_view(rings@),
            out@ == start + rings_bytes(all.take(i as int), dim),
        decreases rings@.len() - i,
    {
        write_line(out, &rings[i], dim);
        i += 1;
        proof {
            assert(all.take(i as int).drop_last() =~= all.take(i - 1));
            assert(out@ =~= start + rings_bytes(all.take(i as int), dim));
        }
    }
    assert(all.take(i as int) =~= all);
    assert(out@ =~= old(out)@ + simple_bytes(Shape::Polygon(all)));
}

fn write_point(out: &mut Vec<u8>, p: Position<u64>)
    ensures
        final(out)@ == old(out)@ + simple_bytes(Shape::Point(p)),
{
    let dim = Dim::of(p);
    write_header(out, 1, dim);
    write_coord(out, p, dim);
    assert(out@ =~= old(out)@ + simple_bytes(Shape::Point(p)));
}

fn write_line_string(out: &mut Vec<u8>, run: &Vec<Position<u64>>)
    ensures
        final(out)@ == old(out)@ + simple_bytes(Shape::LineString(run_view(run@))),
{
    let dim = dim_of_first(run);
    write_header(out, 2, dim);
    write_line(out, run, dim);
    assert(out@ =~= old(out)@ + simple_bytes(Shape::LineString(run_view(run@))));
}

#[verifier::rlimit(60)]
fn write_geometry(out: &mut Vec<u8>, geom: &Geometry<u64>)
    ensures
        final(out)@ == old(out)@ + wkb_bytes(geom@),
    decreases geom,
{
    let ghost begin = out@;
    match geom {
        Geometry::Point(p) => {
            write_point(out, *p);
        },
        Geometry::LineString(run) => {
            write_line_string(out, run);
        },
        Geometry::Polygon(rings) => {
            write_polygon(out, rings);
        },
        Geometry::MultiPoint(run) => {
            let dim = dim_of_geometry(geom);
            write_header(out, 4, dim);
            push_le(out, run.len() as u64, 4);
            let ghost start = out@;
            let ghost all = members(geom@);
            let mut i: usize = 0;
            assert(start + simples_bytes(all.take(0)) =~= start);
            while i < run.len()
                invariant
                    i <= run@.len(),
                    all == members(geom@),
                    geom@ == Shape::MultiPoint(run_view(run@)),
                    out@ == start + simples_bytes(all.take(i as int)),
                decreases run@.len() - i,
            {
                write_point(out, run[i]);
                i += 1;
                proof {
                    assert(all.take(i as int).drop_last() =~= all.take(i - 1));
                    assert(all.take(i as int).last() == Shape::Point(run@[i - 1]));
                    assert(out@ =~= start + simples_bytes(all.take(i as int)));
                }
            }
            assert(all.take(i as int) =~= all);
            assert(out@ =~= begin + wkb_bytes(geom@));
        },
        Geometry::MultiLineString(lines) => {
            let dim = dim_of_geometry(geom);
            write_header(out, 5, dim);
            push_le(out, lines.len() as u64, 4);
            let ghost start = out@;
            let ghost all = members(geom@);
            let mut i: usize = 0;
            assert(start + simples_bytes(all.take(0)) =~= start);
            while i < lines.len()
                invariant
                    i <= lines@.len(),
                    all == members(geom@),
                    geom@ == Shape::MultiLineString(runs_view(lines@)),
                    out@ == start + simples_bytes(all.take(i as int)),
                decreases lines@.len() - i,
            {
                write_line_string(out, &lines[i]);
                i += 1;
                proof {
                    assert(all.take(i as int).drop_last() =~= all.take(i - 1));
                    assert(all.take(i as int).last() == Shape::LineString(
                        run_view(lines@[i - 1]@),
                    ));
                    assert(out@ =~= start + simples_bytes(all.take(i as int)));
                }
            }
            assert(all.take(i as int) =~= all);
            assert(out@ =~= begin + wkb_bytes(geom@));
        },
        Geometry::MultiPolygon(polygons) => {
            let dim = dim_of_geometry(geom);
            write_header(out, 6, dim);
            push_le(out, polygons.len() as u64, 4);
            let ghost start = out@;
            let ghost all = members(geom@);
            let mut i: usize = 0;
            assert(start + simples_bytes(all.take(0)) =~= start);
            while i < polygons.len()
                invariant
                    i <= polygons@.len(),
                    all == members(geom@),
                    geom@ == Shape::MultiPolygon(polygons_view(polygons@)),
                    out@ == start + simples_bytes(all.take(i as int)),
                decreases polygons@.len() - i,
            {
                write_polygon(out, &polygons[i]);
                i += 1;
                proof {
                    assert(all.take(i as int).drop_last() =~= all.take(i - 1));
                    assert(all.take(i as int).last() == Shape::Polygon(
                        runs_view(polygons@[i - 1]@),
                    ));
                    assert(out@ =~= start + simples_bytes(all.take(i as int)));
                }
            }
            assert(all.take(i as int) =~= all);
            assert(out@ =~= begin + wkb_bytes(geom@));
        },
        Geometry::GeometryCollection(parts) => {
            proof {
                lemma_collection_view(*parts);
            }
            let dim = dim_of_geometry(geom);
            write_header(out, 7, dim);
            push_le(out, parts.len() as u64, 4);
            let ghost start = out@;
            let ghost all = shapes_view(parts@);
            let mut i: usize = 0;
            assert(start + parts_bytes(all.take(0)) =~= start);
            while i < parts.len()
                invariant
                    i <= parts@.len(),
                    all == shapes_view(parts@),
                    geom is GeometryCollection,
                    parts == geom->GeometryCollection_0,
                    out@ == start + parts_bytes(all.take(i as int)),
                decreases parts@.len() - i,
            {
                write_geometry(out, &parts[i]);
                i += 1;
                proof {
                    assert(all.take(i as int).drop_last() =~= all.take(i - 1));
                    assert(out@ =~= start + parts_bytes(all.take(i as int)));
                }
            }
            assert(all.take(i as int) =~= all);
            assert(out@ =~= begin + wkb_bytes(geom@));
        },
    }
}

/// A size as a machine number, where it is one.
pub open spec fn sized(n: nat) -> Option<usize> {
    if n <= usize::MAX {
        Some(n as usize)
    } else {
        None
    }
}

fn plus(a: Option<usize>, b: Option<usize>, Ghost(x): Ghost<nat>, Ghost(y): Ghost<nat>) -> (r:
    Option<usize>)
    requires
        a == sized(x),
        b == sized(y),
    ensures
        r == sized(x + y),
{
    match (a, b) {
        (Some(a), Some(b)) => a.checked_add(b),
        _ => None,
    }
}

/// The size of a counted run of positions.
fn line_size(run: &Vec<Position<u64>>, dim: Dim) -> (r: Option<usize>)
    ensures
        r == sized(line_bytes(run_view(run@), dim).len()),
{
    proof {
        lemma_le_bytes_len(run@.len(), 4);
        lemma_coords_len(run_view(run@), dim);
    }
    let coords = run.len().checked_mul(dim.coord_size());
    plus(Some(4), coords, Ghost(4), Ghost(coords_bytes(run_view(run@), dim).len()))
}

fn line_string_size(run: &Vec<Position<u64>>) -> (r: Option<usize>)
    ensures
        r == sized(simple_bytes(Shape::LineString(run_view(run@))).len()),
{
    let dim = dim_of_first(run);
    proof {
        lemma_le_bytes_len(2 + dim.spec_offset(), 4);
    }
    let line = line_size(run, dim);
    plus(Some(5), line, Ghost(5), Ghost(line_bytes(run_view(run@), dim).len()))
}

fn point_size(p: Position<u64>) -> (r: Option<usize>)
    ensures
        r == sized(simple_bytes(Shape::Point(p)).len()),
{
    let dim = Dim::of(p);
    proof {
        lemma_le_bytes_len(1 + dim.spec_offset(), 4);
        lemma_coord_len(p, dim);
    }
    Some(5 + dim.coord_size())
}

fn polygon_size(rings: &Vec<Vec<Position<u64>>>) -> (r: Option<usize>)
    ensures
        r == sized(simple_bytes(Shape::Polygon(runs_view(rings@))).len()),
{
    let ghost all = runs_view(rings@);
    let dim = dim_of_rings(rings);
    proof {
        lemma_le_bytes_len(3 + dim.spec_offset(), 4);
        lemma_le_bytes_len(rings@.len(), 4);
    }
    let mut total: Option<usize> = Some(9);
    let mut i: usize = 0;
    while i < rings.len()
        invariant
            i <= rings@.len(),
            all == runs_view(rings@),
            total == sized(9 + rings_bytes(all.take(i as int), dim).len()),
        decreases rings@.len() - i,
    {
        let ring = line_size(&rings[i], dim);
        total = plus(
            total,
            ring,
            Ghost(9 + rings_bytes(all.take(i as int), dim).len()),
            Ghost(line_bytes(all[i as int], dim).len()),
        );
        i += 1;
        assert(all.take(i as int).drop_last() =~= all.take(i - 1));
    }
    assert(all.take(i as int) =~= all);
    total
}

/// The exact size of a geometry's encoding, where it is a machine number.
pub fn wkb_size(geom: &Geometry<u64>) -> (r: Option<usize>)
    ensures
        r == sized(wkb_bytes(geom@).len()),
    decreases geom,
{
    proof {
        lemma_le_bytes_len(base_code(geom@) + shape_dim(geom@).spec_offset(), 4);
        lemma_le_bytes_len(members(geom@).len(), 4);
    }
    let ghost all = members(geom@);
    let mut total: Option<usize> = Some(9);
    let mut i: usize = 0;
    match geom {
        Geometry::Point(p) => point_size(*p),
        Geometry::LineString(run) => line_string_size(run),
        Geometry::Polygon(rings) => polygon_size(rings),
        Geometry::MultiPoint(run) => {
            while i < run.len()
                invariant
                    i <= run@.len(),
                    all == members(geom@),
                    geom@ == Shape::MultiPoint(run_view(run@)),
                    total == sized(9 + simples_bytes(all.take(i as int)).len()),
                decreases run@.len() - i,
            {
                let part = point_size(run[i]);
                total = plus(
                    total,
                    part,
                    Ghost(9 + simples_bytes(all.take(i as int)).len()),
                    Ghost(simple_bytes(all[i as int]).len()),
                );
                i += 1;
                assert(all.take(i as int).drop_last() =~= all.take(i - 1));
            }
            assert(all.take(i as int) =~= all);
            total
        },
        Geometry::MultiLineString(lines) => {
            while i < lines.len()
                invariant
                    i <= lines@.len(),
                    all == members(geom@),
                    geom@ == Shape::MultiLineString(runs_view(lines@)),
                    total == sized(9 + simples_bytes(all.take(i as int)).len()),
                decreases lines@.len() - i,
            {
                let part = line_string_size(&lines[i]);
                total = plus(
                    total,
                    part,
                    Ghost(9 + simples_bytes(all.take(i as int)).len()),
                    Ghost(simple_bytes(all[i as int]).len()),
                );
                i += 1;
                assert(all.take(i as int).drop_last() =~= all.take(i - 1));
            }
            assert(all.take(i as int) =~= all);
            total
        },
        Geometry::MultiPolygon(polygons) => {
            while i < polygons.len()
                invariant
                    i <= polygons@.len(),
                    all == members(geom@),
                    geom@ == Shape::MultiPolygon(polygons_view(polygons@)),
                    total == sized(9 + simples_bytes(all.take(i as int)).len()),
                decreases polygons@.len() - i,
            {
                let part = polygon_size(&polygons[i]);
                total = plus(
                    total,
                    part,
                    Ghost(9 + simples_bytes(all.take(i as int)).len()),
                    Ghost(simple_bytes(all[i as int]).len()),
                );
                i += 1;
                assert(all.take(i as int).drop_last() =~= all.take(i - 1));
            }
            assert(all.take(i as int) =~= all);
            total
        },
        Geometry::GeometryCollection(parts) => {
            proof {
                lemma_collection_view(*parts);
            }
            while i < parts.len()
                invariant
                    i <= parts@.len(),
                    all == shapes_view(parts@),
                    geom is GeometryCollection,
                    parts == geom->GeometryCollection_0,
                    total == sized(9 + parts_bytes(all.take(i as int)).len()),
                decreases parts@.len() - i,
            {
                let part = wkb_size(&parts[i]);
                total = plus(
                    total,
                    part,
                    Ghost(9 + parts_bytes(all.take(i as int)).len()),
                    Ghost(wkb_bytes(all[i as int]).len()),
                );
                i += 1;
                assert(all.take(i as int).drop_last() =~= all.take(i - 1));
            }
            assert(all.take(i as int) =~= all);
            total
        },
    }
}

/// Encode a geometry.
pub fn encode(geom: &Geometry<u64>) -> (bytes: Vec<u8>)
    ensures
        bytes@ == wkb_bytes(geom@),
{
    let mut out: Vec<u8> = match wkb_size(geom) {
        Some(size) => Vec::with_capacity(size),
        None => Vec::new(),
    };
    write_geometry(&mut out, geom);
    assert(out@ =~= wkb_bytes(geom@));
    out
}

// --- decoding ------------------------------------------------------------------

/// The failure of a read past the end.
pub open spec fn truncated_failure() -> Failure {
    Failure::Convert("truncated WKB geometry"@)
}

fn truncated() -> (e: Error)
    ensures
        e@ == truncated_failure(),
{
    Error::Convert(String::from_str("truncated WKB geometry"))
}

/// The number of `n` bytes at `p`.
pub open spec fn number_at(s: Seq<u8>, p: int, n: nat) -> nat {
    le_value(s.subrange(p, p + n))
}

/// The coordinate at `p`, where all of it is there.
pub open spec fn coord_at(s: Seq<u8>, p: int, dim: Dim) -> Position<u64> {
    Position {
        x: number_at(s, p, 8) as u64,
        y: number_at(s, p + 8, 8) as u64,
        z: if dim.z {
            Some(number_at(s, p + 16, 8) as u64)
        } else {
            None
        },
        m: if dim.m {
            Some(
                number_at(
                    s,
                    if dim.z {
                        p + 24
                    } else {
                        p + 16
                    },
                    8,
                ) as u64,
            )
        } else {
            None
        },
    }
}

/// A coordinate at `p` and the place after it.
pub open spec fn read_coord_at(s: Seq<u8>, p: int, dim: Dim) -> Result<
    (Position<u64>, int),
    Failure,
> {
    if p + dim.spec_coord_size() > s.len() {
        Err(truncated_failure())
    } else {
        Ok((coord_at(s, p, dim), p + dim.spec_coord_size()))
    }
}

/// A counted run of coordinates at `p` and the place after it.
pub open spec fn run_at(s: Seq<u8>, p: int, dim: Dim) -> Result<
    (Seq<Position<u64>>, int),
    Failure,
> {
    if p + 4 > s.len() {
        Err(truncated_failure())
    } else {
        let n = number_at(s, p, 4);
        let end = p + 4 + n * dim.spec_coord_size();
        if end > s.len() {
            Err(truncated_failure())
        } else {
            Ok(
                (
                    Seq::new(n, |i: int| coord_at(s, p + 4 + i * dim.spec_coord_size(), dim)),
                    end as int,
                ),
            )
        }
    }
}

/// `n` rings from `p`, after those already read.
pub open spec fn rings_from(
    s: Seq<u8>,
    p: int,
    n: nat,
    dim: Dim,
    so_far: Seq<Seq<Position<u64>>>,
) -> Result<(Seq<Seq<Position<u64>>>, int), Failure>
    decreases n,
{
    if n == 0 {
        Ok((so_far, p))
    } else {
        match run_at(s, p, dim) {
            Err(e) => Err(e),
            Ok((ring, q)) => rings_from(s, q, (n - 1) as nat, dim, so_far.push(ring)),
        }
    }
}

/// The names of the multi-geometry with this type code and of its members.
pub open spec fn mismatch(code: nat) -> Failure {
    if code == 4 {
        Failure::Convert("MultiPoint"@ + " sub-geometry is not a "@ + "Point"@)
    } else if code == 5 {
        Failure::Convert("MultiLineString"@ + " sub-geometry is not a "@ + "LineString"@)
    } else {
        Failure::Convert("MultiPolygon"@ + " sub-geometry is not a "@ + "Polygon"@)
    }
}

fn sub_mismatch(parent: &str, expected: &str) -> (e: Error)
    ensures
        e@ == Failure::Convert(parent@ + " sub-geometry is not a "@ + expected@),
{
    let mut message = tagged(parent, " sub-geometry is not a ");
    message.append(expected);
    Error::Convert(message)
}

/// The geometry with this type code and these members.
pub open spec fn assembled(code: nat, parts: Seq<Shape<u64>>) -> Shape<u64> {
    if code == 4 {
        Shape::MultiPoint(parts.map_values(|s: Shape<u64>| s->Point_0))
    } else if code == 5 {
        Shape::MultiLineString(parts.map_values(|s: Shape<u64>| s->LineString_0))
    } else if code == 6 {
        Shape::MultiPolygon(parts.map_values(|s: Shape<u64>| s->Polygon_0))
    } else {
        Shape::GeometryCollection(parts)
    }
}

/// The geometry at `p` and the place after it.
pub open spec fn shape_at(s: Seq<u8>, p: int) -> Result<(Shape<u64>, int), Failure>
    decreases s.len() - p, 0nat,
{
    if p >= s.len() {
        Err(truncated_failure())
    } else if s[p] != 1 {
        Err(Failure::Convert("only little-endian WKB is supported"@))
    } else if p + 5 > s.len() {
        Err(truncated_failure())
    } else {
        let code = number_at(s, p + 1, 4);
        let base = code % 1000;
        match dim_of_offset((code - base) as nat) {
            Err(e) => Err(e),
            Ok(dim) => if base == 1 {
                match read_coord_at(s, p + 5, dim) {
                    Err(e) => Err(e),
                    Ok((c, q)) => Ok((Shape::Point(c), q)),
                }
            } else if base == 2 {
                match run_at(s, p + 5, dim) {
                    Err(e) => Err(e),
                    Ok((run, q)) => Ok((Shape::LineString(run), q)),
                }
            } else if base < 1 || base > 7 {
                Err(Failure::Convert("unknown WKB type code "@ + decimal(base)))
            } else if p + 9 > s.len() {
                Err(truncated_failure())
            } else if base == 3 {
                match rings_from(s, p + 9, number_at(s, p + 5, 4), dim, Seq::empty()) {
                    Err(e) => Err(e),
                    Ok((rings, q)) => Ok((Shape::Polygon(rings), q)),
                }
            } else {
                match parts_from(s, p + 9, number_at(s, p + 5, 4), base, Seq::empty()) {
                    Err(e) => Err(e),
                    Ok((parts, q)) => Ok((assembled(base, parts), q)),
                }
            },
        }
    }
}

/// `n` members from `p` of the geometry with type code `code`, after those
/// already read. A geometry is never empty, so reading one always advances.
pub open spec fn parts_from(
    s: Seq<u8>,
    p: int,
    n: nat,
    code: nat,
    so_far: Seq<Shape<u64>>,
) -> Result<(Seq<Shape<u64>>, int), Failure>
    decreases s.len() - p, 1nat,
{
    if n == 0 {
        Ok((so_far, p))
    } else {
        match shape_at(s, p) {
            Err(e) => Err(e),
            Ok((part, q)) => if code != 7 && base_code(part) != code - 3 {
                Err(mismatch(code))
            } else if q <= p || q > s.len() {
                Err(truncated_failure())
            } else {
                parts_from(s, q, (n - 1) as nat, code, so_far.push(part))
            },
        }
    }
}

/// The geometry that the bytes encode. Bytes after it are not looked at.
pub open spec fn decoded(s: Seq<u8>) -> Result<Shape<u64>, Failure> {
    match shape_at(s, 0) {
        Err(e) => Err(e),
        Ok((shape, q)) => Ok(shape),
    }
}

proof fn lemma_run_advances(s: Seq<u8>, p: int, dim: Dim)
    ensures
        run_at(s, p, dim) is Ok ==> p < (run_at(s, p, dim)->Ok_0).1 <= s.len(),
{
    if p + 4 <= s.len() {
        let n = number_at(s, p, 4);
        assert(n * dim.spec_coord_size() >= 0) by (nonlinear_arith);
    }
}

proof fn lemma_rings_advance(
    s: Seq<u8>,
    p: int,
    n: nat,
    dim: Dim,
    so_far: Seq<Seq<Position<u64>>>,
)
    requires
        p <= s.len(),
    ensures
        rings_from(s, p, n, dim, so_far) is Ok ==> p <= (rings_from(s, p, n, dim, so_far)->Ok_0).1
            <= s.len(),
    decreases n,
{
    if n > 0 {
        lemma_run_advances(s, p, dim);
        if run_at(s, p, dim) is Ok {
            let (ring, q) = run_at(s, p, dim)->Ok_0;
            lemma_rings_advance(s, q, (n - 1) as nat, dim, so_far.push(ring));
        }
    }
}

proof fn lemma_parts_advance(s: Seq<u8>, p: int, n: nat, code: nat, so_far: Seq<Shape<u64>>)
    requires
        p <= s.len(),
    ensures
        parts_from(s, p, n, code, so_far) is Ok ==> p <= (parts_from(
            s,
            p,
            n,
            code,
            so_far,
        )->Ok_0).1 <= s.len(),
    decreases s.len() - p,
{
    if n > 0 && shape_at(s, p) is Ok {
        let (part, q) = shape_at(s, p)->Ok_0;
        if p < q <= s.len() {
            lemma_parts_advance(s, q, (n - 1) as nat, code, so_far.push(part));
        }
    }
}

proof fn lemma_shape_advances(s: Seq<u8>, p: int)
    ensures
        shape_at(s, p) is Ok ==> p < (shape_at(s, p)->Ok_0).1 <= s.len(),
{
    if p + 5 <= s.len() {
        let code = number_at(s, p + 1, 4);
        let base = code % 1000;
        if dim_of_offset((code - base) as nat) is Ok {
            let dim = dim_of_offset((code - base) as nat)->Ok_0;
            lemma_run_advances(s, p + 5, dim);
            if p + 9 <= s.len() {
                let n = number_at(s, p + 5, 4);
                lemma_rings_advance(s, p + 9, n, dim, Seq::empty());
                lemma_parts_advance(s, p + 9, n, base, Seq::empty());
            }
        }
    }
}

/// Read a number of `n` bytes at `at`.
fn read_number(buf: &[u8], at: usize, n: usize) -> (r: Result<u64, Error>)
    requires
        n <= 8,
        at <= buf@.len(),
    ensures
        at + n <= buf@.len() ==> r is Ok && r->Ok_0 == number_at(buf@, at as int, n as nat)
            && r->Ok_0 < pow256(n as nat),
        at + n > buf@.len() ==> r is Err && r->Err_0@ == truncated_failure(),
        r is Ok ==> at + n <= buf.len(),
{
    if buf.len() - at < n {
        return Err(truncated());
    }
    Ok(read_le(buf, at, n))
}

fn read_point(buf: &[u8], at: usize, dim: Dim) -> (r: Result<(Position<u64>, usize), Error>)
    requires
        at <= buf@.len(),
    ensures
        match read_coord_at(buf@, at as int, dim) {
            Ok((p, q)) => r is Ok && (r->Ok_0).0 == p && (r->Ok_0).1 == q && q <= buf@.len(),
            Err(e) => r is Err && r->Err_0@ == e,
        },
{
    let x = read_number(buf, at, 8)?;
    let y = read_number(buf, at + 8, 8)?;
    let mut q: usize = at + 16;
    let mut z: Option<u64> = None;
    if dim.z {
        z = Some(read_number(buf, q, 8)?);
        q += 8;
    }
    let mut m: Option<u64> = None;
    if dim.m {
        m = Some(read_number(buf, q, 8)?);
        q += 8;
    }
    Ok((Position { x, y, z, m }, q))
}

fn read_line(buf: &[u8], at: usize, dim: Dim) -> (r: Result<(Vec<Position<u64>>, usize), Error>)
    requires
        at <= buf@.len(),
    ensures
        match run_at(buf@, at as int, dim) {
            Ok((run, q)) => r is Ok && run_view((r->Ok_0).0@) == run && (r->Ok_0).1 == q && q
                <= buf@.len(),
            Err(e) => r is Err && r->Err_0@ == e,
        },
{
    let n = read_number(buf, at, 4)?;
    let mut q: usize = at + 4;
    let mut run: Vec<Position<u64>> = Vec::new();
    let mut i: u64 = 0;
    let ghost size = dim.spec_coord_size();
    while i < n
        invariant
            i <= n,
            n == number_at(buf@, at as int, 4),
            size == dim.spec_coord_size(),
            q == at + 4 + i * size,
            q <= buf@.len(),
            run@.len() == i,
            forall|j: int|
                0 <= j < i ==> #[trigger] run@[j] == coord_at(buf@, at + 4 + j * size, dim),
        decreases n - i,
    {
        proof {
            assert((i + 1) * size == i * size + size) by (nonlinear_arith);
            assert((i + 1) * size <= n * size) by (nonlinear_arith)
                requires
                    i + 1 <= n,
            ;
        }
        let (p, next) = read_point(buf, q, dim)?;
        run.push(p);
        q = next;
        i += 1;
    }
    assert(run_view(run@) =~= Seq::new(
        n as nat,
        |j: int| coord_at(buf@, at + 4 + j * dim.spec_coord_size(), dim),
    ));
    Ok((run, q))
}

fn read_polygon(buf: &[u8], at: usize, n: u64, dim: Dim) -> (r: Result<
    (Vec<Vec<Position<u64>>>, usize),
    Error,
>)
    requires
        at <= buf@.len(),
    ensures
        match rings_from(buf@, at as int, n as nat, dim, Seq::empty()) {
            Ok((rings, q)) => r is Ok && runs_view((r->Ok_0).0@) == rings && (r->Ok_0).1 == q && q
                <= buf@.len(),
            Err(e) => r is Err && r->Err_0@ == e,
        },
{
    let mut rings: Vec<Vec<Position<u64>>> = Vec::new();
    let mut q: usize = at;
    let mut i: u64 = 0;
    assert(runs_view(rings@) =~= Seq::empty());
    while i < n
        invariant
            i <= n,
            q <= buf@.len(),
            rings_from(buf@, at as int, n as nat, dim, Seq::empty()) == rings_from(
                buf@,
                q as int,
                (n - i) as nat,
                dim,
                runs_view(rings@),
            ),
        decreases n - i,
    {
        let (ring, next) = read_line(buf, q, dim)?;
        let ghost before = runs_view(rings@);
        rings.push(ring);
        assert(runs_view(rings@) =~= before.push(run_view(ring@)));
        q = next;
        i += 1;
    }
    Ok((rings, q))
}

fn read_geometry(buf: &[u8], at: usize) -> (r: Result<(Geometry<u64>, usize), Error>)
    requires
        at <= buf@.len(),
    ensures
        match shape_at(buf@, at as int) {
            Ok((shape, q)) => r is Ok && (r->Ok_0).0@ == shape && (r->Ok_0).1 == q && at < q
                <= buf@.len(),
            Err(e) => r is Err && r->Err_0@ == e,
        },
    decreases buf@.len() - at,
{
    let ghost s = buf@;
    proof {
        lemma_shape_advances(s, at as int);
        lemma_pow256_values();
    }
    if at >= buf.len() {
        return Err(truncated());
    }
    if buf[at] != 1 {
        return Err(Error::Convert(String::from_str("only little-endian WKB is supported")));
    }
    let code = read_number(buf, at + 1, 4)?;
    let base: u64 = code % 1000;
    let dim = Dim::from_offset((code - base) as u32)?;
    if base == 1 {
        let (p, q) = read_point(buf, at + 5, dim)?;
        return Ok((Geometry::Point(p), q));
    }
    if base == 2 {
        let (run, q) = read_line(buf, at + 5, dim)?;
        return Ok((Geometry::LineString(run), q));
    }
    if base < 1 || base > 7 {
        return Err(Error::Convert(tagged("unknown WKB type code ", decimal_text(base).as_str())));
    }
    let n = read_number(buf, at + 5, 4)?;
    if base == 3 {
        let (rings, q) = read_polygon(buf, at + 9, n, dim)?;
        return Ok((Geometry::Polygon(rings), q));
    }
    let mut q: usize = at + 9;
    let mut i: u64 = 0;
    if base == 4 {
        let mut run: Vec<Position<u64>> = Vec::new();
        assert(members(Shape::MultiPoint(run_view(run@))) =~= Seq::empty());
        while i < n
            invariant
                i <= n,
                s == buf@,
                at + 9 <= q <= buf@.len(),
                parts_from(s, at + 9, n as nat, 4, Seq::empty()) == parts_from(
                    s,
                    q as int,
                    (n - i) as nat,
                    4,
                    members(Shape::MultiPoint(run_view(run@))),
                ),
                shape_at(s, at as int) == (match parts_from(s, at + 9, n as nat, 4, Seq::empty()) {
                    Err(e) => Err(e),
                    Ok((parts, q)) => Ok((assembled(4, parts), q)),
                }),
            decreases n - i,
        {
            let ghost before = members(Shape::MultiPoint(run_view(run@)));
            let (part, next) = read_geometry(buf, q)?;
            match part {
                Geometry::Point(p) => {
                    run.push(p);
                    assert(members(Shape::MultiPoint(run_view(run@))) =~= before.push(
                        Shape::Point(p),
                    ));
                },
                _ => {
                    return Err(sub_mismatch("MultiPoint", "Point"));
                },
            }
            q = next;
            i += 1;
        }
        assert(assembled(4, members(Shape::MultiPoint(run_view(run@))))->MultiPoint_0 =~= run_view(
            run@,
        ));
        return Ok((Geometry::MultiPoint(run), q));
    }
    if base == 5 {
        let mut lines: Vec<Vec<Position<u64>>> = Vec::new();
        assert(members(Shape::MultiLineString(runs_view(lines@))) =~= Seq::empty());
        while i < n
            invariant
                i <= n,
                s == buf@,
                at + 9 <= q <= buf@.len(),
                parts_from(s, at + 9, n as nat, 5, Seq::empty()) == parts_from(
                    s,
                    q as int,
                    (n - i) as nat,
                    5,
                    members(Shape::MultiLineString(runs_view(lines@))),
                ),
                shape_at(s, at as int) == (match parts_from(s, at + 9, n as nat, 5, Seq::empty()) {
                    Err(e) => Err(e),
                    Ok((parts, q)) => Ok((assembled(5, parts), q)),
                }),
            decreases n - i,
        {
            let ghost before = members(Shape::MultiLineString(runs_view(lines@)));
            let (part, next) = read_geometry(buf, q)?;
            match part {
                Geometry::LineString(l) => {
                    lines.push(l);
                    assert(members(Shape::MultiLineString(runs_view(lines@))) =~= before.push(
                        Shape::LineString(run_view(l@)),
                    ));
                },
                _ => {
                    return Err(sub_mismatch("MultiLineString", "LineString"));
                },
            }
            q = next;
            i += 1;
        }
        assert(assembled(
            5,
            members(Shape::MultiLineString(runs_view(lines@))),
        )->MultiLineString_0 =~= runs_view(lines@));
        return Ok((Geometry::MultiLineString(lines), q));
    }
    if base == 6 {
        let mut polygons: Vec<Vec<Vec<Position<u64>>>> = Vec::new();
        assert(members(Shape::MultiPolygon(polygons_view(polygons@))) =~= Seq::empty());
        while i < n
            invariant
                i <= n,
                s == buf@,
                at + 9 <= q <= buf@.len(),
                parts_from(s, at + 9, n as nat, 6, Seq::empty()) == parts_from(
                    s,
                    q as int,
                    (n - i) as nat,
                    6,
                    members(Shape::MultiPolygon(polygons_view(polygons@))),
                ),
                shape_at(s, at as int) == (match parts_from(s, at + 9, n as nat, 6, Seq::empty()) {
                    Err(e) => Err(e),
                    Ok((parts, q)) => Ok((assembled(6, parts), q)),
                }),
            decreases n - i,
        {
            let ghost before = members(Shape::MultiPolygon(polygons_view(polygons@)));
            let (part, next) = read_geometry(buf, q)?;
            match part {
                Geometry::Polygon(r) => {
                    polygons.push(r);
                    assert(members(Shape::MultiPolygon(polygons_view(polygons@))) =~= before.push(
                        Shape::Polygon(runs_view(r@)),
                    ));
                },
                _ => {
                    return Err(sub_mismatch("MultiPolygon", "Polygon"));
                },
            }
            q = next;
            i += 1;
        }
        assert(assembled(
            6,
            members(Shape::MultiPolygon(polygons_view(polygons@))),
        )->MultiPolygon_0 =~= polygons_view(polygons@));
        return Ok((Geometry::MultiPolygon(polygons), q));
    }
    let mut parts: Vec<Geometry<u64>> = Vec::new();
    assert(shapes_view(parts@) =~= Seq::empty());
    while i < n
        invariant
            i <= n,
            s == buf@,
            at + 9 <= q <= buf@.len(),
            parts_from(s, at + 9, n as nat, 7, Seq::empty()) == parts_from(
                s,
                q as int,
                (n - i) as nat,
                7,
                shapes_view(parts@),
            ),
            shape_at(s, at as int) == (match parts_from(s, at + 9, n as nat, 7, Seq::empty()) {
                Err(e) => Err(e),
                Ok((parts, q)) => Ok((assembled(7, parts), q)),
            }),
        decreases n - i,
    {
        let ghost before = shapes_view(parts@);
        let (part, next) = read_geometry(buf, q)?;
        parts.push(part);
        assert(shapes_view(parts@) =~= before.push(part@));
        q = next;
        i += 1;
    }
    proof {
        lemma_collection_view(parts);
    }
    Ok((Geometry::GeometryCollection(parts), q))
}

/// Decode a geometry.
pub fn decode(bytes: &[u8]) -> (r: Result<Geometry<u64>, Error>)
    ensures
        match decoded(bytes@) {
            Ok(shape) => r is Ok && r->Ok_0@ == shape,
            Err(e) => r is Err && r->Err_0@ == e,
        },
{
    let (geometry, _) = read_geometry(bytes, 0)?;
    Ok(geometry)
}

// --- what decoding gives back of an encoding -------------------------------------

/// Whether every position of the run has this dimensionality.
pub open spec fn run_is(run: Seq<Position<u64>>, dim: Dim) -> bool {
    &&& run.len() < 0x1_0000_0000
    &&& forall|i: int| 0 <= i < run.len() ==> Dim::spec_of(#[trigger] run[i]) == dim
}

/// Whether a point, line string or polygon has one dimensionality throughout,
/// and counts that fit their four bytes.
pub open spec fn simple_uniform(s: Shape<u64>) -> bool {
    match s {
        Shape::Point(_) => true,
        Shape::LineString(run) => run_is(run, run_dim(run)),
        Shape::Polygon(rings) => {
            &&& rings.len() < 0x1_0000_0000
            &&& forall|i: int|
                0 <= i < rings.len() ==> run_is(#[trigger] rings[i], runs_dim(rings))
        },
        _ => false,
    }
}

/// Whether each line string, ring list and member of the geometry has one
/// dimensionality throughout, and counts fit their four bytes. Encoding is
/// faithful for these: it has no way to say that one position lacks an
/// ordinate which the others have.
pub open spec fn uniform(s: Shape<u64>) -> bool
    decreases s,
{
    match s {
        Shape::GeometryCollection(parts) => {
            &&& parts.len() < 0x1_0000_0000
            &&& forall|i: int| 0 <= i < parts.len() ==> uniform(#[trigger] parts[i])
        },
        Shape::MultiPoint(_) | Shape::MultiLineString(_) | Shape::MultiPolygon(_) => {
            &&& members(s).len() < 0x1_0000_0000
            &&& forall|i: int| 0 <= i < members(s).len() ==> simple_uniform(#[trigger] members(s)[i])
        },
        _ => simple_uniform(s),
    }
}

proof fn lemma_number_in_place(s: Seq<u8>, before: Seq<u8>, v: nat, n: nat, after: Seq<u8>)
    requires
        s == before + le_bytes(v, n) + after,
        v < pow256(n),
    ensures
        number_at(s, before.len() as int, n) == v,
        before.len() + n <= s.len(),
{
    law_le_bytes_read_back(v, n);
    assert(s.subrange(before.len() as int, (before.len() + n) as int) =~= le_bytes(v, n));
}

proof fn lemma_coord_len(p: Position<u64>, dim: Dim)
    ensures
        coord_bytes(p, dim).len() == dim.spec_coord_size(),
{
    lemma_le_bytes_len(p.x as nat, 8);
    lemma_le_bytes_len(p.y as nat, 8);
    lemma_le_bytes_len(
        match p.z {
            Some(v) => v as nat,
            None => 0,
        },
        8,
    );
    lemma_le_bytes_len(
        match p.m {
            Some(v) => v as nat,
            None => 0,
        },
        8,
    );
}

proof fn lemma_coord_reads(s: Seq<u8>, before: Seq<u8>, p: Position<u64>, after: Seq<u8>)
    requires
        s == before + coord_bytes(p, Dim::spec_of(p)) + after,
    ensures
        coord_at(s, before.len() as int, Dim::spec_of(p)) == p,
        before.len() + Dim::spec_of(p).spec_coord_size() <= s.len(),
{
    let dim = Dim::spec_of(p);
    lemma_pow256_values();
    lemma_coord_len(p, dim);
    let x = le_bytes(p.x as nat, 8);
    let y = le_bytes(p.y as nat, 8);
    let z = extra_bytes(dim.z, p.z);
    let m = extra_bytes(dim.m, p.m);
    lemma_le_bytes_len(p.x as nat, 8);
    lemma_le_bytes_len(p.y as nat, 8);
    assert(s =~= before + x + (y + z + m + after));
    lemma_number_in_place(s, before, p.x as nat, 8, y + z + m + after);
    assert(s =~= (before + x) + y + (z + m + after));
    lemma_number_in_place(s, before + x, p.y as nat, 8, z + m + after);
    if dim.z {
        lemma_le_bytes_len(p.z->0 as nat, 8);
        assert(s =~= (before + x + y) + z + (m + after));
        lemma_number_in_place(s, before + x + y, p.z->0 as nat, 8, m + after);
    }
    if dim.m {
        assert(s =~= (before + x + y + z) + m + after);
        lemma_number_in_place(s, before + x + y + z, p.m->0 as nat, 8, after);
    }
}

proof fn lemma_coords_len(run: Seq<Position<u64>>, dim: Dim)
    ensures
        coords_bytes(run, dim).len() == run.len() * dim.spec_coord_size(),
    decreases run.len(),
{
    if run.len() > 0 {
        lemma_coords_len(run.drop_last(), dim);
        lemma_coord_len(run.last(), dim);
        let n = run.len();
        let size = dim.spec_coord_size();
        assert((n - 1) * size + size == n * size) by (nonlinear_arith);
    } else {
        assert(0 * dim.spec_coord_size() == 0);
    }
}

proof fn lemma_coords_read(
    s: Seq<u8>,
    before: Seq<u8>,
    run: Seq<Position<u64>>,
    dim: Dim,
    after: Seq<u8>,
    i: int,
)
    requires
        s == before + coords_bytes(run, dim) + after,
        forall|j: int| 0 <= j < run.len() ==> Dim::spec_of(#[trigger] run[j]) == dim,
        0 <= i < run.len(),
    ensures
        coord_at(s, before.len() + i * dim.spec_coord_size(), dim) == run[i],
    decreases run.len(),
{
    let shorter = coords_bytes(run.drop_last(), dim);
    let last = coord_bytes(run.last(), dim);
    lemma_coords_len(run.drop_last(), dim);
    if i == run.len() - 1 {
        assert(s =~= (before + shorter) + last + after);
        lemma_coord_reads(s, before + shorter, run.last(), after);
    } else {
        assert(s =~= before + shorter + (last + after));
        lemma_coords_read(s, before, run.drop_last(), dim, last + after, i);
    }
}

proof fn lemma_line_reads(
    s: Seq<u8>,
    before: Seq<u8>,
    run: Seq<Position<u64>>,
    dim: Dim,
    after: Seq<u8>,
)
    requires
        s == before + line_bytes(run, dim) + after,
        run_is(run, dim),
    ensures
        run_at(s, before.len() as int, dim) == Ok::<(Seq<Position<u64>>, int), Failure>(
            (run, (before.len() + line_bytes(run, dim).len()) as int),
        ),
{
    lemma_pow256_values();
    lemma_le_bytes_len(run.len(), 4);
    lemma_coords_len(run, dim);
    let count = le_bytes(run.len(), 4);
    let coords = coords_bytes(run, dim);
    assert(s =~= before + count + (coords + after));
    lemma_number_in_place(s, before, run.len(), 4, coords + after);
    assert(s =~= (before + count) + coords + after);
    let size = dim.spec_coord_size();
    assert forall|i: int| 0 <= i < run.len() implies #[trigger] coord_at(
        s,
        before.len() + 4 + i * size,
        dim,
    ) == run[i] by {
        lemma_coords_read(s, before + count, run, dim, after, i);
    }
    assert(Seq::new(run.len(), |i: int| coord_at(s, before.len() + 4 + i * size, dim)) =~= run);
}

proof fn lemma_rings_front(rings: Seq<Seq<Position<u64>>>, dim: Dim)
    requires
        rings.len() > 0,
    ensures
        rings_bytes(rings, dim) == line_bytes(rings[0], dim) + rings_bytes(rings.skip(1), dim),
    decreases rings.len(),
{
    let first = line_bytes(rings[0], dim);
    if rings.len() == 1 {
        assert(rings.drop_last() =~= Seq::<Seq<Position<u64>>>::empty());
        assert(rings.skip(1) =~= Seq::<Seq<Position<u64>>>::empty());
        assert(rings_bytes(rings, dim) =~= first + rings_bytes(rings.skip(1), dim));
    } else {
        lemma_rings_front(rings.drop_last(), dim);
        assert(rings.drop_last().skip(1) =~= rings.skip(1).drop_last());
        assert(rings_bytes(rings, dim) =~= first + rings_bytes(rings.skip(1), dim));
    }
}

proof fn lemma_rings_read(
    s: Seq<u8>,
    before: Seq<u8>,
    rings: Seq<Seq<Position<u64>>>,
    dim: Dim,
    after: Seq<u8>,
    so_far: Seq<Seq<Position<u64>>>,
)
    requires
        s == before + rings_bytes(rings, dim) + after,
        forall|i: int| 0 <= i < rings.len() ==> run_is(#[trigger] rings[i], dim),
    ensures
        rings_from(s, before.len() as int, rings.len(), dim, so_far) == Ok::<
            (Seq<Seq<Position<u64>>>, int),
            Failure,
        >((so_far + rings, (before.len() + rings_bytes(rings, dim).len()) as int)),
    decreases rings.len(),
{
    if rings.len() == 0 {
        assert(so_far + rings =~= so_far);
    } else {
        let first = line_bytes(rings[0], dim);
        let rest = rings.skip(1);
        lemma_rings_front(rings, dim);
        assert(s =~= before + first + (rings_bytes(rest, dim) + after));
        lemma_line_reads(s, before, rings[0], dim, rings_bytes(rest, dim) + after);
        assert(s =~= (before + first) + rings_bytes(rest, dim) + after);
        assert forall|i: int| 0 <= i < rest.len() implies run_is(#[trigger] rest[i], dim) by {
            assert(rest[i] == rings[i + 1]);
        }
        lemma_rings_read(s, before + first, rest, dim, after, so_far.push(rings[0]));
        assert(so_far.push(rings[0]) + rest =~= so_far + rings);
    }
}

/// The header of an encoding is read back.
proof fn lemma_header_reads(s: Seq<u8>, before: Seq<u8>, code: nat, dim: Dim, after: Seq<u8>)
    requires
        s == before + header_bytes(code, dim) + after,
        1 <= code <= 7,
    ensures
        before.len() + 5 <= s.len(),
        s[before.len() as int] == 1,
        number_at(s, before.len() + 1int, 4) % 1000 == code,
        dim_of_offset(
            (number_at(s, before.len() + 1int, 4) - number_at(s, before.len() + 1int, 4) % 1000) as nat,
        ) == Ok::<Dim, Failure>(dim),
        header_bytes(code, dim).len() == 5,
{
    lemma_pow256_values();
    let v = code + dim.spec_offset();
    lemma_le_bytes_len(v, 4);
    assert(s =~= before.push(1u8) + le_bytes(v, 4) + after);
    lemma_number_in_place(s, before.push(1u8), v, 4, after);
    assert(v % 1000 == code);
}

#[verifier::spinoff_prover]
#[verifier::rlimit(50)]
proof fn lemma_simple_reads(s: Seq<u8>, before: Seq<u8>, shape: Shape<u64>, after: Seq<u8>)
    requires
        s == before + simple_bytes(shape) + after,
        simple_uniform(shape),
    ensures
        shape_at(s, before.len() as int) == Ok::<(Shape<u64>, int), Failure>(
            (shape, (before.len() + simple_bytes(shape).len()) as int),
        ),
{
    match shape {
        Shape::Point(p) => {
            let dim = Dim::spec_of(p);
            let h = header_bytes(1, dim);
            let c = coord_bytes(p, dim);
            assert(s =~= before + h + (c + after));
            lemma_header_reads(s, before, 1, dim, c + after);
            assert(s =~= (before + h) + c + after);
            lemma_coord_reads(s, before + h, p, after);
            lemma_coord_len(p, dim);
        },
        Shape::LineString(run) => {
            let dim = run_dim(run);
            let h = header_bytes(2, dim);
            let l = line_bytes(run, dim);
            assert(s =~= before + h + (l + after));
            lemma_header_reads(s, before, 2, dim, l + after);
            assert(s =~= (before + h) + l + after);
            lemma_line_reads(s, before + h, run, dim, after);
        },
        Shape::Polygon(rings) => {
            let dim = runs_dim(rings);
            let h = header_bytes(3, dim);
            let n = le_bytes(rings.len(), 4);
            let r = rings_bytes(rings, dim);
            lemma_pow256_values();
            lemma_le_bytes_len(rings.len(), 4);
            assert(s =~= before + h + (n + r + after));
            lemma_header_reads(s, before, 3, dim, n + r + after);
            assert(s =~= (before + h) + n + (r + after));
            lemma_number_in_place(s, before + h, rings.len(), 4, r + after);
            assert(s =~= (before + h + n) + r + after);
            lemma_rings_read(s, before + h + n, rings, dim, after, Seq::empty());
            assert(Seq::empty() + rings =~= rings);
        },
        _ => {},
    }
}

proof fn lemma_simples_front(parts: Seq<Shape<u64>>)
    requires
        parts.len() > 0,
    ensures
        simples_bytes(parts) == simple_bytes(parts[0]) + simples_bytes(parts.skip(1)),
    decreases parts.len(),
{
    if parts.len() == 1 {
        assert(parts.drop_last() =~= Seq::<Shape<u64>>::empty());
        assert(parts.skip(1) =~= Seq::<Shape<u64>>::empty());
    } else {
        lemma_simples_front(parts.drop_last());
        assert(parts.drop_last().skip(1) =~= parts.skip(1).drop_last());
    }
    assert(simples_bytes(parts) =~= simple_bytes(parts[0]) + simples_bytes(parts.skip(1)));
}

proof fn lemma_part_step(s: Seq<u8>, p: int, n: nat, code: nat, so_far: Seq<Shape<u64>>)
    requires
        n > 0,
        shape_at(s, p) is Ok,
        p < (shape_at(s, p)->Ok_0).1 <= s.len(),
        code == 7 || base_code((shape_at(s, p)->Ok_0).0) == code - 3,
    ensures
        parts_from(s, p, n, code, so_far) == parts_from(
            s,
            (shape_at(s, p)->Ok_0).1,
            (n - 1) as nat,
            code,
            so_far.push((shape_at(s, p)->Ok_0).0),
        ),
{
}

#[verifier::rlimit(40)]
proof fn lemma_simples_read(
    s: Seq<u8>,
    before: Seq<u8>,
    parts: Seq<Shape<u64>>,
    after: Seq<u8>,
    code: nat,
    so_far: Seq<Shape<u64>>,
)
    requires
        s == before + simples_bytes(parts) + after,
        4 <= code <= 6,
        forall|i: int|
            0 <= i < parts.len() ==> simple_uniform(#[trigger] parts[i]) && base_code(parts[i])
                == code - 3,
    ensures
        parts_from(s, before.len() as int, parts.len(), code, so_far) == Ok::<
            (Seq<Shape<u64>>, int),
            Failure,
        >((so_far + parts, (before.len() + simples_bytes(parts).len()) as int)),
    decreases parts.len(),
{
    if parts.len() == 0 {
        assert(so_far + parts =~= so_far);
    } else {
        let first = simple_bytes(parts[0]);
        let rest = parts.skip(1);
        lemma_simples_front(parts);
        assert(s =~= before + first + (simples_bytes(rest) + after));
        lemma_simple_reads(s, before, parts[0], simples_bytes(rest) + after);
        lemma_shape_advances(s, before.len() as int);
        lemma_part_step(s, before.len() as int, parts.len(), code, so_far);
        assert(s =~= (before + first) + simples_bytes(rest) + after);
        assert forall|i: int| 0 <= i < rest.len() implies simple_uniform(#[trigger] rest[i])
            && base_code(rest[i]) == code - 3 by {
            assert(rest[i] == parts[i + 1]);
        }
        lemma_simples_read(s, before + first, rest, after, code, so_far.push(parts[0]));
        assert(so_far.push(parts[0]) + rest =~= so_far + parts);
    }
}

proof fn lemma_parts_front(parts: Seq<Shape<u64>>)
    requires
        parts.len() > 0,
    ensures
        parts_bytes(parts) == wkb_bytes(parts[0]) + parts_bytes(parts.skip(1)),
    decreases parts.len(),
{
    if parts.len() == 1 {
        assert(parts.drop_last() =~= Seq::<Shape<u64>>::empty());
        assert(parts.skip(1) =~= Seq::<Shape<u64>>::empty());
    } else {
        lemma_parts_front(parts.drop_last());
        assert(parts.drop_last().skip(1) =~= parts.skip(1).drop_last());
    }
    assert(parts_bytes(parts) =~= wkb_bytes(parts[0]) + parts_bytes(parts.skip(1)));
}

proof fn lemma_parts_read(
    s: Seq<u8>,
    before: Seq<u8>,
    parts: Seq<Shape<u64>>,
    after: Seq<u8>,
    so_far: Seq<Shape<u64>>,
)
    requires
        s == before + parts_bytes(parts) + after,
        forall|i: int| 0 <= i < parts.len() ==> uniform(#[trigger] parts[i]),
    ensures
        parts_from(s, before.len() as int, parts.len(), 7, so_far) == Ok::<
            (Seq<Shape<u64>>, int),
            Failure,
        >((so_far + parts, (before.len() + parts_bytes(parts).len()) as int)),
    decreases parts,
{
    if parts.len() == 0 {
        assert(so_far + parts =~= so_far);
    } else {
        let first = wkb_bytes(parts[0]);
        let rest = parts.skip(1);
        lemma_parts_front(parts);
        assert(s =~= before + first + (parts_bytes(rest) + after));
        law_wkb_reads_back_in_place(s, before, parts[0], parts_bytes(rest) + after);
        lemma_shape_advances(s, before.len() as int);
        assert(s =~= (before + first) + parts_bytes(rest) + after);
        assert forall|i: int| 0 <= i < rest.len() implies uniform(#[trigger] rest[i]) by {
            assert(rest[i] == parts[i + 1]);
        }
        lemma_parts_read(s, before + first, rest, after, so_far.push(parts[0]));
        assert(so_far.push(parts[0]) + rest =~= so_far + parts);
    }
}

proof fn lemma_assembled_members(s: Shape<u64>)
    requires
        s is MultiPoint || s is MultiLineString || s is MultiPolygon,
    ensures
        assembled(base_code(s), members(s)) == s,
        forall|i: int|
            0 <= i < members(s).len() ==> base_code(#[trigger] members(s)[i]) == base_code(s) - 3,
{
    match s {
        Shape::MultiPoint(run) => {
            assert(assembled(4, members(s))->MultiPoint_0 =~= run);
        },
        Shape::MultiLineString(lines) => {
            assert(assembled(5, members(s))->MultiLineString_0 =~= lines);
        },
        Shape::MultiPolygon(polygons) => {
            assert(assembled(6, members(s))->MultiPolygon_0 =~= polygons);
        },
        _ => {},
    }
}

proof fn lemma_multi_reads(s: Seq<u8>, before: Seq<u8>, shape: Shape<u64>, after: Seq<u8>)
    requires
        s == before + wkb_bytes(shape) + after,
        shape is MultiPoint || shape is MultiLineString || shape is MultiPolygon,
        members(shape).len() < 0x1_0000_0000,
        forall|i: int|
            0 <= i < members(shape).len() ==> simple_uniform(#[trigger] members(shape)[i]),
    ensures
        shape_at(s, before.len() as int) == Ok::<(Shape<u64>, int), Failure>(
            (shape, (before.len() + wkb_bytes(shape).len()) as int),
        ),
{
    let code = base_code(shape);
    let dim = shape_dim(shape);
    let h = header_bytes(code, dim);
    let parts = members(shape);
    let n = le_bytes(parts.len(), 4);
    let body = simples_bytes(parts);
    lemma_pow256_values();
    lemma_le_bytes_len(parts.len(), 4);
    assert(wkb_bytes(shape) == h + (n + body));
    lemma_multi_body_reads(s, before, code, dim, parts, after);
    lemma_assembled_members(shape);
    lemma_simples_read(s, before + h + n, parts, after, code, Seq::empty());
    assert(Seq::empty() + parts =~= parts);
}

/// Where the members of a multi-geometry stand in its encoding.
proof fn lemma_multi_body_reads(
    s: Seq<u8>,
    before: Seq<u8>,
    code: nat,
    dim: Dim,
    parts: Seq<Shape<u64>>,
    after: Seq<u8>,
)
    requires
        s == before + (header_bytes(code, dim) + (le_bytes(parts.len(), 4) + simples_bytes(parts)))
            + after,
        1 <= code <= 7,
        parts.len() < 0x1_0000_0000,
    ensures
        ({
            let p = before.len() as int;
            let v = number_at(s, p + 1, 4);
            &&& p + 9 <= s.len()
            &&& s[p] == 1
            &&& v % 1000 == code
            &&& dim_of_offset((v - v % 1000) as nat) == Ok::<Dim, Failure>(dim)
            &&& number_at(s, p + 5, 4) == parts.len()
            &&& s == before + header_bytes(code, dim) + le_bytes(parts.len(), 4) + simples_bytes(
                parts,
            ) + after
            &&& (before + header_bytes(code, dim) + le_bytes(parts.len(), 4)).len() == p + 9
        }),
{
    let h = header_bytes(code, dim);
    let n = le_bytes(parts.len(), 4);
    let body = simples_bytes(parts);
    lemma_pow256_values();
    lemma_le_bytes_len(parts.len(), 4);
    assert(s =~= before + h + (n + body + after));
    lemma_header_reads(s, before, code, dim, n + body + after);
    assert(s =~= (before + h) + n + (body + after));
    lemma_number_in_place(s, before + h, parts.len(), 4, body + after);
    assert(s =~= (before + h + n) + body + after);
}

/// The encoding of a geometry is read back as that geometry wherever it
/// stands, and reading stops exactly at its end.
pub proof fn law_wkb_reads_back_in_place(
    s: Seq<u8>,
    before: Seq<u8>,
    shape: Shape<u64>,
    after: Seq<u8>,
)
    requires
        s == before + wkb_bytes(shape) + after,
        uniform(shape),
    ensures
        shape_at(s, before.len() as int) == Ok::<(Shape<u64>, int), Failure>(
            (shape, (before.len() + wkb_bytes(shape).len()) as int),
        ),
    decreases shape,
{
    lemma_pow256_values();
    match shape {
        Shape::GeometryCollection(parts) => {
            let dim = shape_dim(shape);
            let h = header_bytes(7, dim);
            let n = le_bytes(parts.len(), 4);
            let body = parts_bytes(parts);
            lemma_le_bytes_len(parts.len(), 4);
            assert(s =~= before + h + (n + body + after));
            lemma_header_reads(s, before, 7, dim, n + body + after);
            assert(s =~= (before + h) + n + (body + after));
            lemma_number_in_place(s, before + h, parts.len(), 4, body + after);
            assert(s =~= (before + h + n) + body + after);
            lemma_parts_read(s, before + h + n, parts, after, Seq::empty());
            assert(Seq::empty() + parts =~= parts);
        },
        Shape::MultiPoint(_) | Shape::MultiLineString(_) | Shape::MultiPolygon(_) => {
            lemma_multi_reads(s, before, shape, after);
        },
        _ => {
            lemma_simple_reads(s, before, shape, after);
        },
    }
}

/// Decoding undoes encoding.
pub proof fn law_wkb_round_trip(shape: Shape<u64>)
    requires
        uniform(shape),
    ensures
        decoded(wkb_bytes(shape)) == Ok::<Shape<u64>, Failure>(shape),
{
    let none = Seq::<u8>::empty();
    assert(wkb_bytes(shape) =~= none + wkb_bytes(shape) + none);
    law_wkb_reads_back_in_place(wkb_bytes(shape), none, shape, none);
}

} // verus!
