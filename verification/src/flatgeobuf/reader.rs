//! Reading FlatGeobuf.
use vstd::prelude::*;
use vstd::slice::slice_subrange;
use vstd::utf8::*;

use super::index::{index_bytes, index_size};
use super::{
    err, failure, COLUMN_BINARY, COLUMN_BOOL, COLUMN_BYTE, COLUMN_DATETIME,
    COLUMN_DOUBLE, COLUMN_FLOAT, COLUMN_INT, COLUMN_JSON, COLUMN_LONG, COLUMN_NAME, COLUMN_SHORT,
    COLUMN_STRING, COLUMN_TYPE, COLUMN_UBYTE, COLUMN_UINT, COLUMN_ULONG, COLUMN_USHORT, CRS_CODE,
    CRS_ORG, CRS_WKT, FEATURE_GEOMETRY, FEATURE_PROPERTIES, GEOMETRYCOLLECTION, GEOMETRY_ENDS,
    GEOMETRY_M, GEOMETRY_PARTS, GEOMETRY_TYPE, GEOMETRY_XY, GEOMETRY_Z, HEADER_COLUMNS, HEADER_CRS,
    HEADER_FEATURES_COUNT, HEADER_GEOMETRY_TYPE, HEADER_INDEX_NODE_SIZE, LINESTRING,
    MULTILINESTRING, MULTIPOINT, MULTIPOLYGON, POINT, POLYGON,
};
use crate::bytes::{
    le_value, lemma_pow256_values, pow256, read_le, signed, signed32, signed64,
};
use crate::crs::system::{crs_view, system_of, Crs, System};
use crate::error::{tagged, Error, Failure};
use crate::feature::{features_view, properties_view, Feature, FeatureCollection, Item, Items};
use crate::flatbuffers::{
    bytes_at, element_scalar, element_table, field_scalar, field_table, field_text, field_vector,
    out_of_bounds, root_place, Table, Vector,
};
use crate::geometry::{
    lemma_collection_view, polygons_view, run_view, runs_view, shapes_view, Geometry, Position,
    Shape,
};
use crate::property::{Prop, PropValue};
use crate::text::{decimal, decimal_text, opt_view, signed_decimal, signed_decimal_text, utf8_text};

verus! {

// --- numbers -------------------------------------------------------------------------

/// The little-endian number of `n` bytes at `at`.
pub open spec fn number_at(b: Seq<u8>, at: int, n: nat) -> Result<nat, Failure> {
    if 0 <= at && at + n <= b.len() {
        Ok(le_value(b.subrange(at, at + n)))
    } else {
        Err(failure("read past end"@))
    }
}

fn read_number(b: &[u8], at: usize, n: usize) -> (r: Result<u64, Error>)
    requires
        n <= 8,
    ensures
        match number_at(b@, at as int, n as nat) {
            Ok(v) => r is Ok && r->Ok_0 == v && v < pow256(n as nat),
            Err(e) => r is Err && r->Err_0@ == e,
        },
{
    if at > b.len() || b.len() - at < n {
        return Err(err("read past end"));
    }
    Ok(read_le(b, at, n))
}

// --- columns -------------------------------------------------------------------------

/// A column of the header: the name and type of a property.
#[derive(Debug, PartialEq)]
pub struct PropColumn {
    pub name: String,
    pub ty: u8,
}

impl View for PropColumn {
    type V = (Seq<char>, nat);

    open spec fn view(&self) -> (Seq<char>, nat) {
        (self.name@, self.ty as nat)
    }
}

pub open spec fn prop_columns_view(columns: Seq<PropColumn>) -> Seq<(Seq<char>, nat)> {
    columns.map_values(|c: PropColumn| c@)
}

/// The column whose table stands at `t`. One without a name has the empty name;
/// one without a type is text.
pub open spec fn column_at(buf: Seq<u8>, t: int) -> Result<(Seq<char>, nat), Failure> {
    match field_text(buf, t, COLUMN_NAME as nat) {
        Err(e) => Err(e),
        Ok(name) => match field_scalar(buf, t, COLUMN_TYPE as nat, 1, COLUMN_STRING as nat) {
            Err(e) => Err(e),
            Ok(ty) => Ok(
                (
                    match name {
                        Some(s) => s,
                        None => Seq::empty(),
                    },
                    ty,
                ),
            ),
        },
    }
}

/// The columns of a vector of tables, from the one numbered `i` on.
pub open spec fn columns_from(
    buf: Seq<u8>,
    start: int,
    len: nat,
    i: nat,
    so_far: Seq<(Seq<char>, nat)>,
) -> Result<Seq<(Seq<char>, nat)>, Failure>
    decreases len - i,
{
    if i >= len {
        Ok(so_far)
    } else {
        match element_table(buf, start, len, i) {
            Err(e) => Err(e),
            Ok(t) => match column_at(buf, t) {
                Err(e) => Err(e),
                Ok(c) => columns_from(buf, start, len, i + 1, so_far.push(c)),
            },
        }
    }
}

/// The columns of a header.
pub open spec fn columns_at(buf: Seq<u8>, pos: int) -> Result<Seq<(Seq<char>, nat)>, Failure> {
    match field_vector(buf, pos, HEADER_COLUMNS as nat) {
        Err(e) => Err(e),
        Ok(None) => Ok(Seq::empty()),
        Ok(Some((start, len))) => columns_from(buf, start, len, 0, Seq::empty()),
    }
}

fn read_column(c: &Table) -> (r: Result<PropColumn, Error>)
    ensures
        match column_at(c.buffer(), c.place()) {
            Ok(column) => r is Ok && r->Ok_0@ == column,
            Err(e) => r is Err && r->Err_0@ == e,
        },
{
    let name = match c.read_str(COLUMN_NAME)? {
        Some(s) => String::from_str(s),
        None => String::new(),
    };
    let ty = c.read_u8(COLUMN_TYPE, COLUMN_STRING)?;
    Ok(PropColumn { name, ty })
}

fn read_columns(header: &Table) -> (r: Result<Vec<PropColumn>, Error>)
    ensures
        match columns_at(header.buffer(), header.place()) {
            Ok(columns) => r is Ok && prop_columns_view(r->Ok_0@) == columns,
            Err(e) => r is Err && r->Err_0@ == e,
        },
{
    let mut columns: Vec<PropColumn> = Vec::new();
    let ghost buf = header.buffer();
    let ghost all = columns_at(buf, header.place());
    assert(prop_columns_view(columns@) =~= Seq::empty());
    if let Some(v) = header.read_vector(HEADER_COLUMNS)? {
        let n: usize = v.len();
        let mut i: usize = 0;
        while i < n
            invariant
                i <= n,
                n == v.count(),
                v.buffer() == buf,
                all == columns_at(header.buffer(), header.place()),
                all == columns_from(
                    buf,
                    v.place(),
                    v.count(),
                    i as nat,
                    prop_columns_view(columns@),
                ),
            decreases n - i,
        {
            let t = v.get_table(i)?;
            let c = read_column(&t)?;
            let ghost before = prop_columns_view(columns@);
            columns.push(c);
            assert(prop_columns_view(columns@) =~= before.push(c@));
            i += 1;
        }
    }
    Ok(columns)
}

// --- the reference system --------------------------------------------------------------

/// The system of a table's organization, code and definition. A code of zero is
/// no code, and a table of nothing is no system.
pub open spec fn recorded_system(
    org: Option<Seq<char>>,
    code: int,
    wkt: Option<Seq<char>>,
) -> Option<System> {
    if org is None && code == 0 && wkt is None {
        None
    } else {
        Some(
            system_of(
                org,
                if code == 0 {
                    None
                } else {
                    Some(signed_decimal(code))
                },
                wkt,
                None,
            ),
        )
    }
}

/// The system whose table stands at `t`.
pub open spec fn system_at(buf: Seq<u8>, t: int) -> Result<Option<System>, Failure> {
    match field_text(buf, t, CRS_ORG as nat) {
        Err(e) => Err(e),
        Ok(org) => match field_scalar(buf, t, CRS_CODE as nat, 4, 0) {
            Err(e) => Err(e),
            Ok(code) => match field_text(buf, t, CRS_WKT as nat) {
                Err(e) => Err(e),
                Ok(wkt) => Ok(recorded_system(org, signed(code, 0x1_0000_0000), wkt)),
            },
        },
    }
}

/// The system of a header.
pub open spec fn crs_at(buf: Seq<u8>, pos: int) -> Result<Option<System>, Failure> {
    match field_table(buf, pos, HEADER_CRS as nat) {
        Err(e) => Err(e),
        Ok(None) => Ok(None),
        Ok(Some(t)) => system_at(buf, t),
    }
}

fn owned(s: Option<&str>) -> (r: Option<String>)
    ensures
        opt_view(r) == match s {
            Some(t) => Some(t@),
            None => None::<Seq<char>>,
        },
{
    match s {
        Some(t) => Some(String::from_str(t)),
        None => None,
    }
}

fn read_crs(header: &Table) -> (r: Result<Option<Crs>, Error>)
    ensures
        match crs_at(header.buffer(), header.place()) {
            Ok(c) => r is Ok && crs_view(r->Ok_0) == c,
            Err(e) => r is Err && r->Err_0@ == e,
        },
{
    let t = match header.read_table(HEADER_CRS)? {
        Some(t) => t,
        None => {
            return Ok(None);
        },
    };
    let org = owned(t.read_str(CRS_ORG)?);
    let code = t.read_i32(CRS_CODE, 0)?;
    let wkt = owned(t.read_str(CRS_WKT)?);
    if org.is_none() && code == 0 && wkt.is_none() {
        return Ok(None);
    }
    let code_text = if code == 0 {
        None
    } else {
        Some(signed_decimal_text(code as i64))
    };
    Ok(Some(Crs::from_authority_code(org, code_text, wkt, None)))
}

// --- geometry ------------------------------------------------------------------------

/// The ordinate numbered `i` of a vector of doubles; none where the vector is
/// absent or empty.
pub open spec fn ordinate_at(buf: Seq<u8>, v: Option<(int, nat)>, i: nat) -> Result<
    Option<u64>,
    Failure,
> {
    match v {
        None => Ok(None),
        Some((start, len)) => if len == 0 {
            Ok(None)
        } else {
            match element_scalar(buf, start, len, i, 8) {
                Err(e) => Err(e),
                Ok(d) => Ok(Some(d as u64)),
            }
        },
    }
}

/// The position numbered `i`.
pub open spec fn position_at(
    buf: Seq<u8>,
    start: int,
    len: nat,
    z: Option<(int, nat)>,
    m: Option<(int, nat)>,
    i: nat,
) -> Result<Position<u64>, Failure> {
    match element_scalar(buf, start, len, 2 * i, 8) {
        Err(e) => Err(e),
        Ok(x) => match element_scalar(buf, start, len, 2 * i + 1, 8) {
            Err(e) => Err(e),
            Ok(y) => match ordinate_at(buf, z, i) {
                Err(e) => Err(e),
                Ok(z) => match ordinate_at(buf, m, i) {
                    Err(e) => Err(e),
                    Ok(m) => Ok(Position { x: x as u64, y: y as u64, z, m }),
                },
            },
        },
    }
}

/// The positions from the one numbered `i` on.
pub open spec fn positions_from(
    buf: Seq<u8>,
    start: int,
    len: nat,
    z: Option<(int, nat)>,
    m: Option<(int, nat)>,
    i: nat,
    so_far: Seq<Position<u64>>,
) -> Result<Seq<Position<u64>>, Failure>
    decreases len - i,
{
    if 2 * i + 1 >= len {
        Ok(so_far)
    } else {
        match position_at(buf, start, len, z, m, i) {
            Err(e) => Err(e),
            Ok(p) => positions_from(buf, start, len, z, m, i + 1, so_far.push(p)),
        }
    }
}

/// The positions of vectors of ordinates: X and Y in turn, and Z and M where
/// there are any.
pub open spec fn positions_of(
    buf: Seq<u8>,
    xy: Option<(int, nat)>,
    z: Option<(int, nat)>,
    m: Option<(int, nat)>,
) -> Result<Seq<Position<u64>>, Failure> {
    match xy {
        None => Ok(Seq::empty()),
        Some((start, len)) => if len % 2 != 0 {
            Err(failure("odd number of xy coordinates"@))
        } else {
            positions_from(buf, start, len, z, m, 0, Seq::empty())
        },
    }
}

/// The runs from the end numbered `i` on, the first of them starting at `from`.
pub open spec fn rings_from(
    buf: Seq<u8>,
    start: int,
    len: nat,
    ps: Seq<Position<u64>>,
    i: nat,
    from: int,
    so_far: Seq<Seq<Position<u64>>>,
) -> Result<Seq<Seq<Position<u64>>>, Failure>
    decreases len - i,
{
    if i >= len {
        Ok(so_far)
    } else {
        match element_scalar(buf, start, len, i, 4) {
            Err(e) => Err(e),
            Ok(end) => if from > end || end > ps.len() {
                Err(failure("ring end out of range"@))
            } else {
                rings_from(
                    buf,
                    start,
                    len,
                    ps,
                    i + 1,
                    end as int,
                    so_far.push(ps.subrange(from, end as int)),
                )
            },
        }
    }
}

/// Positions split into runs: each end is the number of positions up to it.
/// Without ends there is one run.
pub open spec fn rings_of(buf: Seq<u8>, ps: Seq<Position<u64>>, ends: Option<(int, nat)>) -> Result<
    Seq<Seq<Position<u64>>>,
    Failure,
> {
    match ends {
        None => Ok(seq![ps]),
        Some((start, len)) => if len == 0 {
            Ok(seq![ps])
        } else {
            rings_from(buf, start, len, ps, 0, 0, Seq::empty())
        },
    }
}

/// The places of the tables of a vector, from the one numbered `i` on.
pub open spec fn places_from(buf: Seq<u8>, start: int, len: nat, i: nat, so_far: Seq<int>) -> Result<
    Seq<int>,
    Failure,
>
    decreases len - i,
{
    if i >= len {
        Ok(so_far)
    } else {
        match element_table(buf, start, len, i) {
            Err(e) => Err(e),
            Ok(t) => places_from(buf, start, len, i + 1, so_far.push(t)),
        }
    }
}

/// The places of a geometry's parts.
pub open spec fn parts_at(buf: Seq<u8>, pos: int) -> Result<Seq<int>, Failure> {
    match field_vector(buf, pos, GEOMETRY_PARTS as nat) {
        Err(e) => Err(e),
        Ok(None) => Ok(Seq::empty()),
        Ok(Some((start, len))) => places_from(buf, start, len, 0, Seq::empty()),
    }
}

/// A geometry's own vectors.
pub struct Vectors {
    pub xy: Option<(int, nat)>,
    pub ends: Option<(int, nat)>,
    pub z: Option<(int, nat)>,
    pub m: Option<(int, nat)>,
}

pub open spec fn vectors_at(buf: Seq<u8>, pos: int) -> Result<Vectors, Failure> {
    match field_vector(buf, pos, GEOMETRY_XY as nat) {
        Err(e) => Err(e),
        Ok(xy) => match field_vector(buf, pos, GEOMETRY_ENDS as nat) {
            Err(e) => Err(e),
            Ok(ends) => match field_vector(buf, pos, GEOMETRY_Z as nat) {
                Err(e) => Err(e),
                Ok(z) => match field_vector(buf, pos, GEOMETRY_M as nat) {
                    Err(e) => Err(e),
                    Ok(m) => Ok(Vectors { xy, ends, z, m }),
                },
            },
        },
    }
}

/// A geometry of positions alone: one without parts.
pub open spec fn simple_shape(buf: Seq<u8>, ty: nat, v: Vectors) -> Result<Shape<u64>, Failure> {
    match positions_of(buf, v.xy, v.z, v.m) {
        Err(e) => Err(e),
        Ok(ps) => if ty == POINT {
            if ps.len() == 0 {
                Err(failure("point has no coordinates"@))
            } else {
                Ok(Shape::Point(ps[0]))
            }
        } else if ty == LINESTRING {
            Ok(Shape::LineString(ps))
        } else if ty == MULTIPOINT {
            Ok(Shape::MultiPoint(ps))
        } else {
            match rings_of(buf, ps, v.ends) {
                Err(e) => Err(e),
                Ok(rings) => if ty == POLYGON {
                    Ok(Shape::Polygon(rings))
                } else {
                    Ok(Shape::MultiLineString(rings))
                },
            }
        },
    }
}

/// The geometry whose table stands at `pos`; where the table has no type, it is
/// of the default type.
pub open spec fn shape_at(buf: Seq<u8>, pos: int, default: nat) -> Result<Shape<u64>, Failure>
    decreases buf.len() - pos, 1nat, 0nat,
{
    match field_scalar(buf, pos, GEOMETRY_TYPE as nat, 1, default) {
        Err(e) => Err(e),
        Ok(ty) => match vectors_at(buf, pos) {
            Err(e) => Err(e),
            Ok(v) => if ty == POINT || ty == LINESTRING || ty == POLYGON || ty == MULTIPOINT || ty
                == MULTILINESTRING {
                simple_shape(buf, ty, v)
            } else if ty == MULTIPOLYGON {
                match parts_at(buf, pos) {
                    Err(e) => Err(e),
                    Ok(places) => match polygons_at(buf, pos, places, 0, Seq::empty()) {
                        Err(e) => Err(e),
                        Ok(polygons) => Ok(Shape::MultiPolygon(polygons)),
                    },
                }
            } else if ty == GEOMETRYCOLLECTION {
                match parts_at(buf, pos) {
                    Err(e) => Err(e),
                    Ok(places) => match shapes_at(buf, pos, places, 0, Seq::empty()) {
                        Err(e) => Err(e),
                        Ok(shapes) => Ok(Shape::GeometryCollection(shapes)),
                    },
                }
            } else {
                Err(failure("unsupported geometry type "@ + decimal(ty)))
            },
        },
    }
}

/// The polygons of a geometry's parts, from the one numbered `i` on. Parts stand
/// behind the table at `pos` that refers to them.
pub open spec fn polygons_at(
    buf: Seq<u8>,
    pos: int,
    places: Seq<int>,
    i: int,
    so_far: Seq<Seq<Seq<Position<u64>>>>,
) -> Result<Seq<Seq<Seq<Position<u64>>>>, Failure>
    decreases buf.len() - pos, 0nat, places.len() - i,
{
    if i < 0 || i >= places.len() {
        Ok(so_far)
    } else if places[i] <= pos || places[i] > buf.len() {
        Err(out_of_bounds())
    } else {
        match shape_at(buf, places[i], POLYGON as nat) {
            Err(e) => Err(e),
            Ok(Shape::Polygon(rings)) => polygons_at(buf, pos, places, i + 1, so_far.push(rings)),
            Ok(_) => Err(failure("MultiPolygon part is not a Polygon"@)),
        }
    }
}

/// The geometries of a geometry's parts, from the one numbered `i` on.
pub open spec fn shapes_at(
    buf: Seq<u8>,
    pos: int,
    places: Seq<int>,
    i: int,
    so_far: Seq<Shape<u64>>,
) -> Result<Seq<Shape<u64>>, Failure>
    decreases buf.len() - pos, 0nat, places.len() - i,
{
    if i < 0 || i >= places.len() {
        Ok(so_far)
    } else if places[i] <= pos || places[i] > buf.len() {
        Err(out_of_bounds())
    } else {
        match shape_at(buf, places[i], 0) {
            Err(e) => Err(e),
            Ok(s) => shapes_at(buf, pos, places, i + 1, so_far.push(s)),
        }
    }
}

/// Whether places are those of tables behind `pos`.
pub open spec fn are_behind(buf: Seq<u8>, pos: int, places: Seq<int>) -> bool {
    forall|k: int| 0 <= k < places.len() ==> pos < #[trigger] places[k] && places[k] + 4 <= buf.len()
}

/// A vector that a table refers to stands behind the table.
proof fn lemma_vector_is_behind(buf: Seq<u8>, pos: int, i: nat)
    ensures
        field_vector(buf, pos, i) matches Ok(Some((start, len))) ==> start > pos,
{
}

/// The parts that a table refers to stand behind it.
proof fn lemma_places_are_behind(
    buf: Seq<u8>,
    pos: int,
    start: int,
    len: nat,
    i: nat,
    so_far: Seq<int>,
)
    requires
        start > pos,
        are_behind(buf, pos, so_far),
    ensures
        places_from(buf, start, len, i, so_far) matches Ok(places) ==> are_behind(
            buf,
            pos,
            places,
        ),
    decreases len - i,
{
    if i < len {
        if let Ok(t) = element_table(buf, start, len, i) {
            lemma_places_are_behind(buf, pos, start, len, i + 1, so_far.push(t));
        }
    }
}

proof fn lemma_parts_are_behind(buf: Seq<u8>, pos: int)
    ensures
        parts_at(buf, pos) matches Ok(places) ==> are_behind(buf, pos, places),
{
    lemma_vector_is_behind(buf, pos, GEOMETRY_PARTS as nat);
    if let Ok(Some((start, len))) = field_vector(buf, pos, GEOMETRY_PARTS as nat) {
        lemma_places_are_behind(buf, pos, start, len, 0, Seq::empty());
    }
}

/// What a vector read from a buffer is.
pub open spec fn run_of(v: Option<Vector>) -> Option<(int, nat)> {
    match v {
        Some(v) => Some((v.place(), v.count())),
        None => None,
    }
}

pub open spec fn is_in(v: Option<Vector>, buf: Seq<u8>) -> bool {
    v is Some ==> v->0.buffer() == buf
}

fn ordinate(v: &Option<Vector>, i: usize, g: &Table) -> (r: Result<Option<u64>, Error>)
    requires
        is_in(*v, g.buffer()),
    ensures
        match ordinate_at(g.buffer(), run_of(*v), i as nat) {
            Ok(d) => r is Ok && r->Ok_0 == d,
            Err(e) => r is Err && r->Err_0@ == e,
        },
{
    match v {
        Some(v) => {
            if v.is_empty() {
                Ok(None)
            } else {
                Ok(Some(v.get_f64(i)?))
            }
        },
        None => Ok(None),
    }
}

/// Flat ordinates into positions.
fn positions(
    xy: &Option<Vector>,
    z: &Option<Vector>,
    m: &Option<Vector>,
    g: &Table,
) -> (r: Result<Vec<Position<u64>>, Error>)
    requires
        is_in(*xy, g.buffer()),
        is_in(*z, g.buffer()),
        is_in(*m, g.buffer()),
    ensures
        match positions_of(g.buffer(), run_of(*xy), run_of(*z), run_of(*m)) {
            Ok(ps) => r is Ok && run_view(r->Ok_0@) == ps,
            Err(e) => r is Err && r->Err_0@ == e,
        },
{
    let ghost buf = g.buffer();
    let ghost all = positions_of(buf, run_of(*xy), run_of(*z), run_of(*m));
    let mut out: Vec<Position<u64>> = Vec::new();
    assert(run_view(out@) =~= Seq::empty());
    let v = match xy {
        Some(v) => v,
        None => {
            return Ok(out);
        },
    };
    let n: usize = v.len();
    if n % 2 != 0 {
        return Err(err("odd number of xy coordinates"));
    }
    let mut i: usize = 0;
    while i < n / 2
        invariant
            i <= n / 2,
            n % 2 == 0,
            n == v.count(),
            buf == g.buffer(),
            v.buffer() == buf,
            is_in(*z, buf),
            is_in(*m, buf),
            *xy == Some(*v),
            all == positions_of(buf, run_of(*xy), run_of(*z), run_of(*m)),
            all == positions_from(
                buf,
                v.place(),
                v.count(),
                run_of(*z),
                run_of(*m),
                i as nat,
                run_view(out@),
            ),
        decreases n / 2 - i,
    {
        let x = v.get_f64(2 * i)?;
        let y = v.get_f64(2 * i + 1)?;
        let zi = ordinate(z, i, g)?;
        let mi = ordinate(m, i, g)?;
        let p = Position { x, y, z: zi, m: mi };
        let ghost before = run_view(out@);
        out.push(p);
        assert(run_view(out@) =~= before.push(p@));
        assert(p@ == p);
        i += 1;
    }
    Ok(out)
}

fn run_between(ps: &Vec<Position<u64>>, from: usize, to: usize) -> (r: Vec<Position<u64>>)
    requires
        from <= to <= ps@.len(),
    ensures
        run_view(r@) == run_view(ps@).subrange(from as int, to as int),
{
    let mut r: Vec<Position<u64>> = Vec::new();
    let mut i: usize = from;
    while i < to
        invariant
            from <= i <= to <= ps@.len(),
            r@ == ps@.subrange(from as int, i as int),
        decreases to - i,
    {
        r.push(ps[i]);
        i += 1;
        assert(r@ =~= ps@.subrange(from as int, i as int));
    }
    assert(run_view(r@) =~= run_view(ps@).subrange(from as int, to as int));
    r
}

/// Split a flat position list into rings or lines at the ends.
fn split_rings(ps: &Vec<Position<u64>>, ends: &Option<Vector>, g: &Table) -> (r: Result<
    Vec<Vec<Position<u64>>>,
    Error,
>)
    requires
        is_in(*ends, g.buffer()),
    ensures
        match rings_of(g.buffer(), run_view(ps@), run_of(*ends)) {
            Ok(rings) => r is Ok && runs_view(r->Ok_0@) == rings,
            Err(e) => r is Err && r->Err_0@ == e,
        },
{
    let ghost buf = g.buffer();
    let ghost all = rings_of(buf, run_view(ps@), run_of(*ends));
    let mut rings: Vec<Vec<Position<u64>>> = Vec::new();
    assert(runs_view(rings@) =~= Seq::empty());
    let whole = match ends {
        Some(v) => v.is_empty(),
        None => true,
    };
    if whole {
        rings.push(run_between(ps, 0, ps.len()));
        assert(run_view(ps@).subrange(0, ps@.len() as int) =~= run_view(ps@));
        assert(runs_view(rings@) =~= seq![run_view(ps@)]);
        return Ok(rings);
    }
    if let Some(v) = ends {
        let n: usize = v.len();
        let mut from: usize = 0;
        let mut i: usize = 0;
        while i < n
            invariant
                i <= n,
                n == v.count(),
                buf == g.buffer(),
                v.buffer() == buf,
                from <= ps@.len(),
                all == rings_of(buf, run_view(ps@), run_of(*ends)),
                all == rings_from(
                    buf,
                    v.place(),
                    v.count(),
                    run_view(ps@),
                    i as nat,
                    from as int,
                    runs_view(rings@),
                ),
            decreases n - i,
        {
            let end = v.get_u32(i)? as usize;
            if from > end || end > ps.len() {
                return Err(err("ring end out of range"));
            }
            let ring = run_between(ps, from, end);
            let ghost before = runs_view(rings@);
            rings.push(ring);
            assert(runs_view(rings@) =~= before.push(run_view(ring@)));
            from = end;
            i += 1;
        }
    }
    Ok(rings)
}

pub open spec fn places_view<'a>(tables: Seq<Table<'a>>) -> Seq<int> {
    tables.map_values(|t: Table<'a>| t.place())
}

fn parts<'a>(g: &Table<'a>) -> (r: Result<Vec<Table<'a>>, Error>)
    ensures
        match parts_at(g.buffer(), g.place()) {
            Ok(places) => r is Ok && places_view(r->Ok_0@) == places && are_behind(
                g.buffer(),
                g.place(),
                places,
            ) && forall|k: int|
                0 <= k < r->Ok_0@.len() ==> (#[trigger] r->Ok_0@[k]).buffer() == g.buffer(),
            Err(e) => r is Err && r->Err_0@ == e,
        },
{
    let ghost buf = g.buffer();
    let ghost all = parts_at(buf, g.place());
    let mut out: Vec<Table<'a>> = Vec::new();
    assert(places_view(out@) =~= Seq::empty());
    proof {
        lemma_parts_are_behind(buf, g.place());
    }
    if let Some(v) = g.read_vector(GEOMETRY_PARTS)? {
        let n: usize = v.len();
        let mut i: usize = 0;
        while i < n
            invariant
                i <= n,
                n == v.count(),
                v.buffer() == buf,
                buf == g.buffer(),
                all == parts_at(buf, g.place()),
                all == places_from(buf, v.place(), v.count(), i as nat, places_view(out@)),
                forall|k: int| 0 <= k < out@.len() ==> (#[trigger] out@[k]).buffer() == buf,
            decreases n - i,
        {
            let t = v.get_table(i)?;
            let ghost before = places_view(out@);
            out.push(t);
            assert(places_view(out@) =~= before.push(t.place()));
            i += 1;
        }
    }
    Ok(out)
}

fn decode_simple(
    ty: u8,
    xy: &Option<Vector>,
    ends: &Option<Vector>,
    z: &Option<Vector>,
    m: &Option<Vector>,
    g: &Table,
) -> (r: Result<Geometry<u64>, Error>)
    requires
        is_in(*xy, g.buffer()),
        is_in(*ends, g.buffer()),
        is_in(*z, g.buffer()),
        is_in(*m, g.buffer()),
    ensures
        match simple_shape(
            g.buffer(),
            ty as nat,
            (Vectors { xy: run_of(*xy), ends: run_of(*ends), z: run_of(*z), m: run_of(*m) }),
        ) {
            Ok(s) => r is Ok && r->Ok_0@ == s,
            Err(e) => r is Err && r->Err_0@ == e,
        },
{
    let ps = positions(xy, z, m, g)?;
    if ty == POINT {
        if ps.len() == 0 {
            return Err(err("point has no coordinates"));
        }
        return Ok(Geometry::Point(ps[0]));
    }
    if ty == LINESTRING {
        return Ok(Geometry::LineString(ps));
    }
    if ty == MULTIPOINT {
        return Ok(Geometry::MultiPoint(ps));
    }
    let rings = split_rings(&ps, ends, g)?;
    if ty == POLYGON {
        Ok(Geometry::Polygon(rings))
    } else {
        Ok(Geometry::MultiLineString(rings))
    }
}

fn decode_geometry(g: &Table, default_type: u8) -> (r: Result<Geometry<u64>, Error>)
    ensures
        match shape_at(g.buffer(), g.place(), default_type as nat) {
            Ok(s) => r is Ok && r->Ok_0@ == s,
            Err(e) => r is Err && r->Err_0@ == e,
        },
    decreases g.buffer().len() - g.place(),
{
    let ghost buf = g.buffer();
    let ghost pos = g.place();
    let ghost all = shape_at(buf, pos, default_type as nat);
    let ty = g.read_u8(GEOMETRY_TYPE, default_type)?;
    let xy = g.read_vector(GEOMETRY_XY)?;
    let ends = g.read_vector(GEOMETRY_ENDS)?;
    let z = g.read_vector(GEOMETRY_Z)?;
    let m = g.read_vector(GEOMETRY_M)?;
    if ty == POINT || ty == LINESTRING || ty == POLYGON || ty == MULTIPOINT || ty
        == MULTILINESTRING {
        return decode_simple(ty, &xy, &ends, &z, &m, g);
    }
    if ty == MULTIPOLYGON {
        let tables = parts(g)?;
        let ghost places = places_view(tables@);
        let ghost wanted = polygons_at(buf, pos, places, 0, Seq::empty());
        let mut polygons: Vec<Vec<Vec<Position<u64>>>> = Vec::new();
        assert(polygons_view(polygons@) =~= Seq::empty());
        let mut i: usize = 0;
        while i < tables.len()
            invariant
                i <= tables@.len(),
                buf == g.buffer(),
                pos == g.place(),
                places == places_view(tables@),
                are_behind(buf, pos, places),
                forall|k: int| 0 <= k < tables@.len() ==> (#[trigger] tables@[k]).buffer() == buf,
                all == shape_at(buf, pos, default_type as nat),
                wanted == polygons_at(buf, pos, places, i as int, polygons_view(polygons@)),
                wanted is Err ==> all == Err::<Shape<u64>, Failure>(wanted->Err_0),
            decreases tables@.len() - i,
        {
            assert(places[i as int] == tables@[i as int].place());
            match decode_geometry(&tables[i], POLYGON)? {
                Geometry::Polygon(rings) => {
                    let ghost before = polygons_view(polygons@);
                    polygons.push(rings);
                    assert(polygons_view(polygons@) =~= before.push(runs_view(rings@)));
                },
                _ => {
                    return Err(err("MultiPolygon part is not a Polygon"));
                },
            }
            i += 1;
        }
        return Ok(Geometry::MultiPolygon(polygons));
    }
    if ty == GEOMETRYCOLLECTION {
        let tables = parts(g)?;
        let ghost places = places_view(tables@);
        let ghost wanted = shapes_at(buf, pos, places, 0, Seq::empty());
        let mut shapes: Vec<Geometry<u64>> = Vec::new();
        assert(shapes_view(shapes@) =~= Seq::empty());
        let mut i: usize = 0;
        while i < tables.len()
            invariant
                i <= tables@.len(),
                buf == g.buffer(),
                pos == g.place(),
                places == places_view(tables@),
                are_behind(buf, pos, places),
                forall|k: int| 0 <= k < tables@.len() ==> (#[trigger] tables@[k]).buffer() == buf,
                all == shape_at(buf, pos, default_type as nat),
                wanted == shapes_at(buf, pos, places, i as int, shapes_view(shapes@)),
                wanted is Err ==> all == Err::<Shape<u64>, Failure>(wanted->Err_0),
            decreases tables@.len() - i,
        {
            assert(places[i as int] == tables@[i as int].place());
            let s = decode_geometry(&tables[i], 0)?;
            let ghost before = shapes_view(shapes@);
            shapes.push(s);
            assert(shapes_view(shapes@) =~= before.push(s@));
            i += 1;
        }
        proof {
            lemma_collection_view(shapes);
        }
        return Ok(Geometry::GeometryCollection(shapes));
    }
    Err(
        Error::FlatGeobuf(
            tagged("unsupported geometry type ", decimal_text(ty as u64).as_str()),
        ),
    )
}

// --- properties ----------------------------------------------------------------------

/// The number of `n` bytes in a property.
pub open spec fn property_scalar(blob: Seq<u8>, pos: int, n: nat) -> Result<nat, Failure> {
    if 0 <= pos && pos + n <= blob.len() {
        Ok(le_value(blob.subrange(pos, pos + n)))
    } else {
        Err(failure("truncated property value"@))
    }
}

/// An integer property of `n` bytes, and where it ends.
pub open spec fn integer_at(blob: Seq<u8>, pos: int, n: nat, is_signed: bool) -> Result<
    (Prop, int),
    Failure,
> {
    match property_scalar(blob, pos, n) {
        Err(e) => Err(e),
        Ok(v) => Ok(
            (
                Prop::Int(
                    if is_signed {
                        signed(v, pow256(n))
                    } else {
                        v as int
                    },
                ),
                pos + n,
            ),
        ),
    }
}

/// A text property, and where it ends: its size, and so many bytes.
pub open spec fn text_at(blob: Seq<u8>, pos: int) -> Result<(Prop, int), Failure> {
    match property_scalar(blob, pos, 4) {
        Err(e) => Err(e),
        Ok(len) => if pos + 4 + len > blob.len() {
            Err(failure("truncated property string"@))
        } else {
            let bytes = blob.subrange(pos + 4, pos + 4 + len);
            if valid_utf8(bytes) {
                Ok((Prop::Text(decode_utf8(bytes)), pos + 4 + len))
            } else {
                Err(failure("property string is not utf-8"@))
            }
        },
    }
}

/// The property of a type at `pos`, and where it ends. Of bytes only the size is
/// read, and they are null. An unsigned 64-bit integer is taken for a signed one.
pub open spec fn property_at(blob: Seq<u8>, pos: int, ty: nat) -> Result<(Prop, int), Failure> {
    if ty == COLUMN_BOOL {
        match property_scalar(blob, pos, 1) {
            Err(e) => Err(e),
            Ok(v) => Ok((Prop::Bool(v != 0), pos + 1)),
        }
    } else if ty == COLUMN_BYTE {
        integer_at(blob, pos, 1, true)
    } else if ty == COLUMN_UBYTE {
        integer_at(blob, pos, 1, false)
    } else if ty == COLUMN_SHORT {
        integer_at(blob, pos, 2, true)
    } else if ty == COLUMN_USHORT {
        integer_at(blob, pos, 2, false)
    } else if ty == COLUMN_INT {
        integer_at(blob, pos, 4, true)
    } else if ty == COLUMN_UINT {
        integer_at(blob, pos, 4, false)
    } else if ty == COLUMN_LONG || ty == COLUMN_ULONG {
        integer_at(blob, pos, 8, true)
    } else if ty == COLUMN_FLOAT {
        match property_scalar(blob, pos, 4) {
            Err(e) => Err(e),
            Ok(v) => Ok((Prop::Single(v as u32), pos + 4)),
        }
    } else if ty == COLUMN_DOUBLE {
        match property_scalar(blob, pos, 8) {
            Err(e) => Err(e),
            Ok(v) => Ok((Prop::Double(v as u64), pos + 8)),
        }
    } else if ty == COLUMN_STRING || ty == COLUMN_JSON || ty == COLUMN_DATETIME {
        text_at(blob, pos)
    } else if ty == COLUMN_BINARY {
        match property_scalar(blob, pos, 4) {
            Err(e) => Err(e),
            Ok(len) => Ok((Prop::Null, pos + 4 + len)),
        }
    } else {
        Err(failure("unsupported column type "@ + decimal(ty)))
    }
}

/// The properties from `pos` on: each is a column's number and a value of the
/// column's type.
pub open spec fn properties_from(
    blob: Seq<u8>,
    pos: int,
    columns: Seq<(Seq<char>, nat)>,
    so_far: Seq<(Seq<char>, Prop)>,
) -> Result<Seq<(Seq<char>, Prop)>, Failure>
    decreases
            if pos < blob.len() {
                blob.len() - pos
            } else {
                0
            },
{
    if pos >= blob.len() {
        Ok(so_far)
    } else {
        match number_at(blob, pos, 2) {
            Err(e) => Err(e),
            Ok(k) => if k >= columns.len() {
                Err(failure("property column index out of range"@))
            } else {
                match property_at(blob, pos + 2, columns[k as int].1) {
                    Err(e) => Err(e),
                    Ok((v, next)) => properties_from(
                        blob,
                        next,
                        columns,
                        so_far.push((columns[k as int].0, v)),
                    ),
                }
            },
        }
    }
}

fn read_scalar(blob: &[u8], pos: usize, n: usize) -> (r: Result<u64, Error>)
    requires
        n <= 8,
    ensures
        match property_scalar(blob@, pos as int, n as nat) {
            Ok(v) => r is Ok && r->Ok_0 == v && v < pow256(n as nat) && pos + n <= blob@.len(),
            Err(e) => r is Err && r->Err_0@ == e,
        },
{
    if pos > blob.len() || blob.len() - pos < n {
        return Err(err("truncated property value"));
    }
    Ok(read_le(blob, pos, n))
}

fn read_text(blob: &[u8], pos: usize) -> (r: Result<(PropValue, u128), Error>)
    ensures
        match text_at(blob@, pos as int) {
            Ok((v, next)) => r is Ok && r->Ok_0.0@ == v && r->Ok_0.1 == next,
            Err(e) => r is Err && r->Err_0@ == e,
        },
{
    proof {
        lemma_pow256_values();
    }
    let len = read_scalar(blob, pos, 4)?;
    let end: u128 = pos as u128 + 4 + len as u128;
    if end > blob.len() as u128 {
        return Err(err("truncated property string"));
    }
    match utf8_text(slice_subrange(blob, pos + 4, end as usize)) {
        Some(text) => Ok((PropValue::Text(String::from_str(text)), end)),
        None => Err(err("property string is not utf-8")),
    }
}

/// Read a value of a column's type, and say where it ends.
fn read_property_value(blob: &[u8], pos: usize, ty: u8) -> (r: Result<(PropValue, u128), Error>)
    ensures
        match property_at(blob@, pos as int, ty as nat) {
            Ok((v, next)) => r is Ok && r->Ok_0.0@ == v && r->Ok_0.1 == next,
            Err(e) => r is Err && r->Err_0@ == e,
        },
{
    proof {
        lemma_pow256_values();
    }
    let at: u128 = pos as u128;
    if ty == COLUMN_BOOL {
        let v = read_scalar(blob, pos, 1)?;
        Ok((PropValue::Bool(v != 0), at + 1))
    } else if ty == COLUMN_BYTE {
        let v = read_scalar(blob, pos, 1)?;
        let n: i64 = if v >= 0x80 {
            v as i64 - 0x100
        } else {
            v as i64
        };
        Ok((PropValue::Int(n), at + 1))
    } else if ty == COLUMN_UBYTE {
        let v = read_scalar(blob, pos, 1)?;
        Ok((PropValue::Int(v as i64), at + 1))
    } else if ty == COLUMN_SHORT {
        let v = read_scalar(blob, pos, 2)?;
        let n: i64 = if v >= 0x8000 {
            v as i64 - 0x1_0000
        } else {
            v as i64
        };
        Ok((PropValue::Int(n), at + 2))
    } else if ty == COLUMN_USHORT {
        let v = read_scalar(blob, pos, 2)?;
        Ok((PropValue::Int(v as i64), at + 2))
    } else if ty == COLUMN_INT {
        let v = read_scalar(blob, pos, 4)?;
        Ok((PropValue::Int(signed32(v as u32) as i64), at + 4))
    } else if ty == COLUMN_UINT {
        let v = read_scalar(blob, pos, 4)?;
        Ok((PropValue::Int(v as i64), at + 4))
    } else if ty == COLUMN_LONG || ty == COLUMN_ULONG {
        let v = read_scalar(blob, pos, 8)?;
        Ok((PropValue::Int(signed64(v)), at + 8))
    } else if ty == COLUMN_FLOAT {
        let v = read_scalar(blob, pos, 4)?;
        Ok((PropValue::Single(v as u32), at + 4))
    } else if ty == COLUMN_DOUBLE {
        let v = read_scalar(blob, pos, 8)?;
        Ok((PropValue::Double(v), at + 8))
    } else if ty == COLUMN_STRING || ty == COLUMN_JSON || ty == COLUMN_DATETIME {
        read_text(blob, pos)
    } else if ty == COLUMN_BINARY {
        let len = read_scalar(blob, pos, 4)?;
        Ok((PropValue::Null, at + 4 + len as u128))
    } else {
        Err(
            Error::FlatGeobuf(
                tagged("unsupported column type ", decimal_text(ty as u64).as_str()),
            ),
        )
    }
}

/// Decode the packed properties against the columns.
fn decode_properties(blob: &[u8], columns: &Vec<PropColumn>) -> (r: Result<
    Vec<(String, PropValue)>,
    Error,
>)
    ensures
        match properties_from(blob@, 0, prop_columns_view(columns@), Seq::empty()) {
            Ok(ps) => r is Ok && properties_view(r->Ok_0@) == ps,
            Err(e) => r is Err && r->Err_0@ == e,
        },
{
    let ghost cs = prop_columns_view(columns@);
    let ghost all = properties_from(blob@, 0, cs, Seq::empty());
    let mut out: Vec<(String, PropValue)> = Vec::new();
    assert(properties_view(out@) =~= Seq::empty());
    let mut pos: u128 = 0;
    proof {
        lemma_pow256_values();
    }
    while pos < blob.len() as u128
        invariant
            cs == prop_columns_view(columns@),
            pow256(2) == 0x1_0000,
            all == properties_from(blob@, 0, cs, Seq::empty()),
            all == properties_from(blob@, pos as int, cs, properties_view(out@)),
        decreases
                if pos < blob@.len() {
                    blob@.len() - pos
                } else {
                    0
                },
    {
        let at: usize = pos as usize;
        let k = read_number(blob, at, 2)? as usize;
        if k >= columns.len() {
            return Err(err("property column index out of range"));
        }
        assert(cs[k as int] == columns@[k as int]@);
        let (v, next) = read_property_value(blob, at + 2, columns[k].ty)?;
        let ghost before = properties_view(out@);
        let name = String::from_str(columns[k].name.as_str());
        let ghost pair = (name@, v@);
        out.push((name, v));
        assert(properties_view(out@) =~= before.push(pair));
        pos = next;
    }
    Ok(out)
}

// --- features ------------------------------------------------------------------------

/// The feature that a buffer holds.
#[verifier::opaque]
pub open spec fn feature_of(
    buf: Seq<u8>,
    columns: Seq<(Seq<char>, nat)>,
    default: nat,
) -> Result<Item<u64, Prop>, Failure> {
    match root_place(buf) {
        Err(e) => Err(e),
        Ok(t) => match feature_geometry(buf, t, default) {
            Err(e) => Err(e),
            Ok(geometry) => match feature_properties(buf, t, columns) {
                Err(e) => Err(e),
                Ok(properties) => Ok(Item { geometry, properties }),
            },
        },
    }
}

/// The geometry of the feature whose table stands at `t`.
pub open spec fn feature_geometry(buf: Seq<u8>, t: int, default: nat) -> Result<
    Option<Shape<u64>>,
    Failure,
> {
    match field_table(buf, t, FEATURE_GEOMETRY as nat) {
        Err(e) => Err(e),
        Ok(None) => Ok(None),
        Ok(Some(g)) => match shape_at(buf, g, default) {
            Err(e) => Err(e),
            Ok(s) => Ok(Some(s)),
        },
    }
}

/// The properties of the feature whose table stands at `t`.
pub open spec fn feature_properties(
    buf: Seq<u8>,
    t: int,
    columns: Seq<(Seq<char>, nat)>,
) -> Result<Seq<(Seq<char>, Prop)>, Failure> {
    match field_vector(buf, t, FEATURE_PROPERTIES as nat) {
        Err(e) => Err(e),
        Ok(None) => Ok(Seq::empty()),
        Ok(Some((start, len))) => match bytes_at(buf, start, len) {
            Err(e) => Err(e),
            Ok(blob) => properties_from(blob, 0, columns, Seq::empty()),
        },
    }
}

/// The features from `pos` on, each after its size.
pub open spec fn features_from(
    data: Seq<u8>,
    pos: int,
    columns: Seq<(Seq<char>, nat)>,
    default: nat,
    so_far: Seq<Item<u64, Prop>>,
) -> Result<Seq<Item<u64, Prop>>, Failure>
    decreases data.len() - pos,
{
    if pos >= data.len() {
        Ok(so_far)
    } else {
        match number_at(data, pos, 4) {
            Err(e) => Err(e),
            Ok(len) => if pos + 4 + len > data.len() {
                Err(failure("truncated feature"@))
            } else {
                match feature_of(data.subrange(pos + 4, pos + 4 + len), columns, default) {
                    Err(e) => Err(e),
                    Ok(f) => features_from(
                        data,
                        pos + 4 + len,
                        columns,
                        default,
                        so_far.push(f),
                    ),
                }
            },
        }
    }
}

fn read_feature(buf: &[u8], columns: &Vec<PropColumn>, default_type: u8) -> (r: Result<
    Feature<u64, PropValue>,
    Error,
>)
    ensures
        match feature_of(buf@, prop_columns_view(columns@), default_type as nat) {
            Ok(f) => r is Ok && r->Ok_0@ == f,
            Err(e) => r is Err && r->Err_0@ == e,
        },
{
    proof {
        reveal(feature_of);
    }
    let t = Table::root(buf)?;
    let geometry = match t.read_table(FEATURE_GEOMETRY)? {
        Some(g) => Some(decode_geometry(&g, default_type)?),
        None => None,
    };
    let properties = match t.read_vector(FEATURE_PROPERTIES)? {
        Some(v) => decode_properties(v.bytes()?, columns)?,
        None => Vec::new(),
    };
    assert(properties_view(Seq::<(String, PropValue)>::empty()) =~= Seq::empty());
    Ok(Feature { geometry, properties })
}

// --- the file ------------------------------------------------------------------------

/// What is read of a header.
pub struct Header {
    pub default_type: nat,
    pub count: nat,
    pub node_size: nat,
    pub columns: Seq<(Seq<char>, nat)>,
    pub crs: Option<System>,
}

/// The header whose table stands at `t`.
pub open spec fn header_at(buf: Seq<u8>, t: int) -> Result<Header, Failure> {
    match field_scalar(buf, t, HEADER_GEOMETRY_TYPE as nat, 1, 0) {
        Err(e) => Err(e),
        Ok(default_type) => match field_scalar(buf, t, HEADER_FEATURES_COUNT as nat, 8, 0) {
            Err(e) => Err(e),
            Ok(count) => match field_scalar(buf, t, HEADER_INDEX_NODE_SIZE as nat, 2, 16) {
                Err(e) => Err(e),
                Ok(node_size) => match columns_at(buf, t) {
                    Err(e) => Err(e),
                    Ok(columns) => match crs_at(buf, t) {
                        Err(e) => Err(e),
                        Ok(crs) => Ok(Header { default_type, count, node_size, columns, crs }),
                    },
                },
            },
        },
    }
}

/// The header that a buffer holds.
pub open spec fn header_of(buf: Seq<u8>) -> Result<Header, Failure> {
    match root_place(buf) {
        Err(e) => Err(e),
        Ok(t) => header_at(buf, t),
    }
}

/// Whether bytes start as a file does: `fgb`, a version, `fgb`, a patch level.
pub open spec fn starts_as_file(data: Seq<u8>) -> bool {
    &&& data[0] == 0x66 && data[1] == 0x67 && data[2] == 0x62
    &&& data[4] == 0x66 && data[5] == 0x67 && data[6] == 0x62
}

/// The collection that a file holds.
pub open spec fn collection_of(data: Seq<u8>) -> Result<Items<u64, Prop>, Failure> {
    if data.len() < 12 || !starts_as_file(data) {
        Err(failure("not a flatgeobuf file (bad magic)"@))
    } else {
        let len = le_value(data.subrange(8, 12)) as int;
        if 12 + len > data.len() {
            Err(failure("truncated header"@))
        } else {
            match header_of(data.subrange(12, 12 + len)) {
                Err(e) => Err(e),
                Ok(h) => match features_from(
                    data,
                    12 + len + index_bytes(h.count, h.node_size),
                    h.columns,
                    h.default_type,
                    Seq::empty(),
                ) {
                    Err(e) => Err(e),
                    Ok(features) => Ok(Items { features, crs: h.crs }),
                },
            }
        }
    }
}

/// Read the features of a file.
pub fn read(data: &[u8]) -> (r: Result<FeatureCollection<u64, PropValue>, Error>)
    ensures
        match collection_of(data@) {
            Ok(c) => r is Ok && r->Ok_0@ == c,
            Err(e) => r is Err && r->Err_0@ == e,
        },
{
    if data.len() < 12 || data[0] != 0x66 || data[1] != 0x67 || data[2] != 0x62 || data[4] != 0x66
        || data[5] != 0x67 || data[6] != 0x62 {
        return Err(err("not a flatgeobuf file (bad magic)"));
    }
    proof {
        lemma_pow256_values();
    }
    let ghost all = collection_of(data@);
    let len = read_le(data, 8, 4) as usize;
    if data.len() - 12 < len {
        return Err(err("truncated header"));
    }
    let buf = slice_subrange(data, 12, 12 + len);
    let header = Table::root(buf)?;
    let default_type = header.read_u8(HEADER_GEOMETRY_TYPE, 0)?;
    let count = header.read_u64(HEADER_FEATURES_COUNT, 0)?;
    let node_size = header.read_u16(HEADER_INDEX_NODE_SIZE, 16)?;
    let columns = read_columns(&header)?;
    let crs = read_crs(&header)?;
    let ghost cs = prop_columns_view(columns@);
    let mut pos: u128 = 12 + len as u128 + index_size(count, node_size);
    let mut features: Vec<Feature<u64, PropValue>> = Vec::new();
    assert(features_view(features@) =~= Seq::empty());
    let ghost wanted = features_from(
        data@,
        pos as int,
        cs,
        default_type as nat,
        Seq::empty(),
    );
    while pos < data.len() as u128
        invariant
            pow256(4) == 0x1_0000_0000,
            cs == prop_columns_view(columns@),
            all == collection_of(data@),
            wanted is Err ==> all == Err::<Items<u64, Prop>, Failure>(wanted->Err_0),
            wanted == features_from(
                data@,
                pos as int,
                cs,
                default_type as nat,
                features_view(features@),
            ),
        decreases
                if pos < data@.len() {
                    data@.len() - pos
                } else {
                    0
                },
    {
        let at: usize = pos as usize;
        let size = read_number(data, at, 4)?;
        let start: usize = at + 4;
        if ((data.len() - start) as u64) < size {
            return Err(err("truncated feature"));
        }
        let end: usize = start + size as usize;
        let f = read_feature(slice_subrange(data, start, end), &columns, default_type)?;
        let ghost before = features_view(features@);
        features.push(f);
        assert(features_view(features@) =~= before.push(f@));
        pos = end as u128;
    }
    Ok(FeatureCollection { features, crs })
}

} // verus!
