//! The geometry model shared by the readers and writers, and bounding boxes.
//!
//! Coordinates are X and Y, plus optional Z (elevation) and M (measure). The
//! model is generic in what an ordinate is: the binary formats use the bit
//! pattern of the double (`u64`), the text formats its decimal text
//! (`String`).
use vstd::prelude::*;

pub mod bounds;
pub mod evened;
pub mod moved;
pub mod ordinate;
pub mod plain;
pub mod rewrite;
pub mod wkb;
pub mod wkb_layout;
pub mod wkt;
pub mod wkt_foreign;
pub mod wkt_layout;
pub mod wkt_round_trip;

pub use wkb::decode as from_wkb;
pub use wkb::encode as to_wkb;

use ordinate::greater;
use ordinate::greater_of;
use ordinate::lesser;
use ordinate::lesser_of;
use ordinate::is_above;
use ordinate::is_nan;
use ordinate::value_above;
use ordinate::INFINITY;
use ordinate::NEG_INFINITY;

verus! {

/// A single coordinate. `z` and `m` are per position: some formats let one
/// position of an otherwise Z- or M-bearing geometry leave it out.
#[derive(Debug, PartialEq)]
pub struct Position<N> {
    pub x: N,
    pub y: N,
    pub z: Option<N>,
    pub m: Option<N>,
}

impl<N: Copy> Copy for Position<N> {

}

impl<N: Copy> Clone for Position<N> {
    fn clone(&self) -> (p: Self)
        ensures
            p == *self,
    {
        *self
    }
}

impl<N: View> View for Position<N> {
    type V = Position<N::V>;

    open spec fn view(&self) -> Position<N::V> {
        Position {
            x: self.x@,
            y: self.y@,
            z: match self.z {
                Some(z) => Some(z@),
                None => None,
            },
            m: match self.m {
                Some(m) => Some(m@),
                None => None,
            },
        }
    }
}

impl<N> Position<N> {
    /// A position without Z or M.
    pub fn new(x: N, y: N) -> (p: Self)
        ensures
            p == (Position { x, y, z: None, m: None }),
    {
        Position { x, y, z: None, m: None }
    }

    /// A position with Z and without M.
    pub fn with_z(x: N, y: N, z: N) -> (p: Self)
        ensures
            p == (Position { x, y, z: Some(z), m: None }),
    {
        Position { x, y, z: Some(z), m: None }
    }

    /// A position with M and without Z.
    pub fn with_m(x: N, y: N, m: N) -> (p: Self)
        ensures
            p == (Position { x, y, z: None, m: Some(m) }),
    {
        Position { x, y, z: None, m: Some(m) }
    }

    /// A position with Z and M.
    pub fn with_zm(x: N, y: N, z: N, m: N) -> (p: Self)
        ensures
            p == (Position { x, y, z: Some(z), m: Some(m) }),
    {
        Position { x, y, z: Some(z), m: Some(m) }
    }
}

/// A vector geometry. By convention the first ring of a polygon is its
/// exterior and the others are holes.
#[derive(Debug, PartialEq)]
pub enum Geometry<N> {
    Point(Position<N>),
    LineString(Vec<Position<N>>),
    Polygon(Vec<Vec<Position<N>>>),
    MultiPoint(Vec<Position<N>>),
    MultiLineString(Vec<Vec<Position<N>>>),
    MultiPolygon(Vec<Vec<Vec<Position<N>>>>),
    GeometryCollection(Vec<Geometry<N>>),
}

/// What a geometry is: the view of a [`Geometry`].
pub enum Shape<V> {
    Point(Position<V>),
    LineString(Seq<Position<V>>),
    Polygon(Seq<Seq<Position<V>>>),
    MultiPoint(Seq<Position<V>>),
    MultiLineString(Seq<Seq<Position<V>>>),
    MultiPolygon(Seq<Seq<Seq<Position<V>>>>),
    GeometryCollection(Seq<Shape<V>>),
}

/// The views of a run of positions.
pub open spec fn run_view<N: View>(run: Seq<Position<N>>) -> Seq<Position<N::V>> {
    run.map_values(|p: Position<N>| p@)
}

/// The views of the runs of a ring or line list.
pub open spec fn runs_view<N: View>(runs: Seq<Vec<Position<N>>>) -> Seq<Seq<Position<N::V>>> {
    runs.map_values(|r: Vec<Position<N>>| run_view(r@))
}

/// The views of the ring lists of a polygon list.
pub open spec fn polygons_view<N: View>(polygons: Seq<Vec<Vec<Position<N>>>>) -> Seq<
    Seq<Seq<Position<N::V>>>,
> {
    polygons.map_values(|p: Vec<Vec<Position<N>>>| runs_view(p@))
}

impl<N: View> Geometry<N> {
    pub open spec fn shape(&self) -> Shape<N::V>
        decreases self,
    {
        match self {
            Geometry::Point(p) => Shape::Point(p@),
            Geometry::LineString(run) => Shape::LineString(run_view(run@)),
            Geometry::Polygon(rings) => Shape::Polygon(runs_view(rings@)),
            Geometry::MultiPoint(run) => Shape::MultiPoint(run_view(run@)),
            Geometry::MultiLineString(lines) => Shape::MultiLineString(runs_view(lines@)),
            Geometry::MultiPolygon(polygons) => Shape::MultiPolygon(polygons_view(polygons@)),
            Geometry::GeometryCollection(parts) => Shape::GeometryCollection(
                Seq::new(
                    parts@.len(),
                    |i: int|
                        if 0 <= i < parts@.len() {
                            parts@[i].shape()
                        } else {
                            arbitrary()
                        },
                ),
            ),
        }
    }
}

impl<N: View> View for Geometry<N> {
    type V = Shape<N::V>;

    open spec fn view(&self) -> Shape<N::V> {
        self.shape()
    }
}

/// The views of a list of geometries.
pub open spec fn shapes_view<N: View>(parts: Seq<Geometry<N>>) -> Seq<Shape<N::V>> {
    parts.map_values(|g: Geometry<N>| g@)
}

/// A collection's view is made of its members' views.
pub proof fn lemma_collection_view<N: View>(parts: Vec<Geometry<N>>)
    ensures
        Geometry::GeometryCollection(parts)@ == Shape::GeometryCollection(shapes_view(parts@)),
{
    assert(Geometry::GeometryCollection(parts)@->GeometryCollection_0 =~= shapes_view(parts@));
}

// --- positions -----------------------------------------------------------------

/// Runs of positions, one after another.
pub open spec fn joined<V>(runs: Seq<Seq<Position<V>>>) -> Seq<Position<V>>
    decreases runs.len(),
{
    if runs.len() == 0 {
        Seq::empty()
    } else {
        joined(runs.drop_last()) + runs.last()
    }
}

/// The positions of a polygon list, one after another.
pub open spec fn joined_polygons<V>(polygons: Seq<Seq<Seq<Position<V>>>>) -> Seq<Position<V>>
    decreases polygons.len(),
{
    if polygons.len() == 0 {
        Seq::empty()
    } else {
        joined_polygons(polygons.drop_last()) + joined(polygons.last())
    }
}

/// Every position of a geometry, in order.
pub open spec fn positions<V>(s: Shape<V>) -> Seq<Position<V>>
    decreases s,
{
    match s {
        Shape::Point(p) => seq![p],
        Shape::LineString(run) => run,
        Shape::MultiPoint(run) => run,
        Shape::Polygon(rings) => joined(rings),
        Shape::MultiLineString(lines) => joined(lines),
        Shape::MultiPolygon(polygons) => joined_polygons(polygons),
        Shape::GeometryCollection(parts) => part_positions(parts),
    }
}

/// Every position of a list of geometries, in order.
pub open spec fn part_positions<V>(parts: Seq<Shape<V>>) -> Seq<Position<V>>
    decreases parts,
{
    if parts.len() == 0 {
        Seq::empty()
    } else {
        part_positions(parts.drop_last()) + positions(parts[parts.len() - 1])
    }
}

/// Whether a position carries a measure.
pub open spec fn carries_m<V>(ps: Seq<Position<V>>) -> bool {
    exists|i: int| 0 <= i < ps.len() && (#[trigger] ps[i]).m is Some
}

proof fn lemma_carries_m_concat<V>(a: Seq<Position<V>>, b: Seq<Position<V>>)
    ensures
        carries_m(a + b) == (carries_m(a) || carries_m(b)),
{
    if carries_m(a) {
        let i = choose|i: int| 0 <= i < a.len() && (#[trigger] a[i]).m is Some;
        assert((a + b)[i].m is Some);
    }
    if carries_m(b) {
        let i = choose|i: int| 0 <= i < b.len() && (#[trigger] b[i]).m is Some;
        assert((a + b)[a.len() + i].m is Some);
    }
    if carries_m(a + b) {
        let i = choose|i: int| 0 <= i < (a + b).len() && (#[trigger] (a + b)[i]).m is Some;
        if i < a.len() {
            assert(a[i].m is Some);
        } else {
            assert(b[i - a.len()].m is Some);
        }
    }
}

fn run_has_m<N: View>(run: &Vec<Position<N>>) -> (r: bool)
    ensures
        r == carries_m(run_view(run@)),
{
    let mut i: usize = 0;
    while i < run.len()
        invariant
            i <= run@.len(),
            forall|j: int| 0 <= j < i ==> (#[trigger] run_view(run@)[j]).m is None,
        decreases run@.len() - i,
    {
        if run[i].m.is_some() {
            assert(run_view(run@)[i as int].m is Some);
            return true;
        }
        i += 1;
    }
    false
}

fn runs_have_m<N: View>(runs: &Vec<Vec<Position<N>>>) -> (r: bool)
    ensures
        r == carries_m(joined(runs_view(runs@))),
{
    let ghost all = runs_view(runs@);
    let mut found = false;
    let mut i: usize = 0;
    while i < runs.len()
        invariant
            i <= runs@.len(),
            all == runs_view(runs@),
            found == carries_m(joined(all.take(i as int))),
        decreases runs@.len() - i,
    {
        let here = run_has_m(&runs[i]);
        found = found || here;
        i += 1;
        proof {
            assert(all.take(i as int).drop_last() =~= all.take(i - 1));
            lemma_carries_m_concat(joined(all.take(i - 1)), all[i - 1]);
        }
    }
    assert(all.take(i as int) =~= all);
    found
}

impl Geometry<u64> {
    /// This geometry's own bounding box.
    pub fn bbox(&self) -> (b: Bbox)
        ensures
            b == folded(empty_bbox(), positions(self@)),
    {
        let mut b = Bbox::empty();
        self.extend_bbox(&mut b);
        b
    }

    /// Fold every position of the geometry into `bbox`.
    pub fn extend_bbox(&self, bbox: &mut Bbox)
        ensures
            *final(bbox) == folded(*old(bbox), positions(self@)),
        decreases self,
    {
        match self {
            Geometry::Point(p) => {
                bbox.add(*p);
                assert(folded(*old(bbox), seq![p@]) == added(folded(*old(bbox), Seq::empty()), *p))
                    by {
                    assert(seq![p@].drop_last() =~= Seq::<Position<u64>>::empty());
                }
            },
            Geometry::LineString(run) => {
                extend_run(run, bbox);
            },
            Geometry::MultiPoint(run) => {
                extend_run(run, bbox);
            },
            Geometry::Polygon(rings) => {
                extend_runs(rings, bbox);
            },
            Geometry::MultiLineString(lines) => {
                extend_runs(lines, bbox);
            },
            Geometry::MultiPolygon(polygons) => {
                let ghost all = polygons_view(polygons@);
                let mut i: usize = 0;
                while i < polygons.len()
                    invariant
                        i <= polygons@.len(),
                        all == polygons_view(polygons@),
                        *bbox == folded(*old(bbox), joined_polygons(all.take(i as int))),
                    decreases polygons@.len() - i,
                {
                    extend_runs(&polygons[i], bbox);
                    i += 1;
                    proof {
                        assert(all.take(i as int).drop_last() =~= all.take(i - 1));
                        lemma_folded_concat(
                            *old(bbox),
                            joined_polygons(all.take(i - 1)),
                            joined(all[i - 1]),
                        );
                    }
                }
                assert(all.take(i as int) =~= all);
            },
            Geometry::GeometryCollection(parts) => {
                let ghost all = shapes_view(parts@);
                proof {
                    lemma_collection_view(*parts);
                }
                let mut i: usize = 0;
                while i < parts.len()
                    invariant
                        i <= parts@.len(),
                        all == shapes_view(parts@),
                        self is GeometryCollection,
                        parts == self->GeometryCollection_0,
                        *bbox == folded(*old(bbox), part_positions(all.take(i as int))),
                    decreases parts@.len() - i,
                {
                    parts[i].extend_bbox(bbox);
                    i += 1;
                    proof {
                        assert(all.take(i as int).drop_last() =~= all.take(i - 1));
                        lemma_folded_concat(
                            *old(bbox),
                            part_positions(all.take(i - 1)),
                            positions(all[i - 1]),
                        );
                    }
                }
                assert(all.take(i as int) =~= all);
            },
        }
    }
}

/// The name of a geometry's type.
pub open spec fn shape_name<V>(s: Shape<V>) -> Seq<char> {
    match s {
        Shape::Point(_) => "Point"@,
        Shape::LineString(_) => "LineString"@,
        Shape::Polygon(_) => "Polygon"@,
        Shape::MultiPoint(_) => "MultiPoint"@,
        Shape::MultiLineString(_) => "MultiLineString"@,
        Shape::MultiPolygon(_) => "MultiPolygon"@,
        Shape::GeometryCollection(_) => "GeometryCollection"@,
    }
}

impl<N: View> Geometry<N> {
    /// The name of the geometry's type.
    pub fn kind_name(&self) -> (r: &'static str)
        ensures
            r@ == shape_name(self@),
    {
        match self {
            Geometry::Point(_) => "Point",
            Geometry::LineString(_) => "LineString",
            Geometry::Polygon(_) => "Polygon",
            Geometry::MultiPoint(_) => "MultiPoint",
            Geometry::MultiLineString(_) => "MultiLineString",
            Geometry::MultiPolygon(_) => "MultiPolygon",
            Geometry::GeometryCollection(_) => "GeometryCollection",
        }
    }

    /// Whether any position of the geometry carries a measure.
    pub fn has_m(&self) -> (r: bool)
        ensures
            r == carries_m(positions(self@)),
        decreases self,
    {
        match self {
            Geometry::Point(p) => {
                proof {
                    assert(seq![p@][0] == p@);
                }
                p.m.is_some()
            },
            Geometry::LineString(run) => run_has_m(run),
            Geometry::MultiPoint(run) => run_has_m(run),
            Geometry::Polygon(rings) => runs_have_m(rings),
            Geometry::MultiLineString(lines) => runs_have_m(lines),
            Geometry::MultiPolygon(polygons) => {
                let ghost all = polygons_view(polygons@);
                let mut found = false;
                let mut i: usize = 0;
                while i < polygons.len()
                    invariant
                        i <= polygons@.len(),
                        all == polygons_view(polygons@),
                        found == carries_m(joined_polygons(all.take(i as int))),
                    decreases polygons@.len() - i,
                {
                    let here = runs_have_m(&polygons[i]);
                    found = found || here;
                    i += 1;
                    proof {
                        assert(all.take(i as int).drop_last() =~= all.take(i - 1));
                        lemma_carries_m_concat(
                            joined_polygons(all.take(i - 1)),
                            joined(all[i - 1]),
                        );
                    }
                }
                assert(all.take(i as int) =~= all);
                found
            },
            Geometry::GeometryCollection(parts) => {
                let ghost all = shapes_view(parts@);
                proof {
                    lemma_collection_view(*parts);
                }
                let mut found = false;
                let mut i: usize = 0;
                while i < parts.len()
                    invariant
                        i <= parts@.len(),
                        all == shapes_view(parts@),
                        self is GeometryCollection,
                        parts == self->GeometryCollection_0,
                        found == carries_m(part_positions(all.take(i as int))),
                    decreases parts@.len() - i,
                {
                    let here = parts[i].has_m();
                    found = found || here;
                    i += 1;
                    proof {
                        assert(all.take(i as int).drop_last() =~= all.take(i - 1));
                        lemma_carries_m_concat(
                            part_positions(all.take(i - 1)),
                            positions(all[i - 1]),
                        );
                    }
                }
                assert(all.take(i as int) =~= all);
                found
            },
        }
    }
}

// --- bounding boxes ------------------------------------------------------------

/// An axis-aligned bounding box. X and Y are always tracked; the range of Z or
/// M only once some position has carried one.
#[derive(Debug, Clone, Copy, PartialEq)]
pub struct Bbox {
    pub min_x: u64,
    pub min_y: u64,
    pub max_x: u64,
    pub max_y: u64,
    pub z: Option<(u64, u64)>,
    pub m: Option<(u64, u64)>,
}

/// A box without positions: its bounds are inverted.
pub open spec fn empty_bbox() -> Bbox {
    Bbox {
        min_x: INFINITY,
        min_y: INFINITY,
        max_x: NEG_INFINITY,
        max_y: NEG_INFINITY,
        z: None,
        m: None,
    }
}

/// A range grown to hold an ordinate, where there is one.
pub open spec fn widened(range: Option<(u64, u64)>, v: Option<u64>) -> Option<(u64, u64)> {
    match v {
        None => range,
        Some(v) => match range {
            None => Some((v, v)),
            Some((lo, hi)) => Some((lesser(lo, v), greater(hi, v))),
        },
    }
}

/// A box grown to hold a position.
pub open spec fn added(b: Bbox, p: Position<u64>) -> Bbox {
    Bbox {
        min_x: lesser(b.min_x, p.x),
        min_y: lesser(b.min_y, p.y),
        max_x: greater(b.max_x, p.x),
        max_y: greater(b.max_y, p.y),
        z: widened(b.z, p.z),
        m: widened(b.m, p.m),
    }
}

/// A box grown to hold each of a run of positions.
pub open spec fn folded(b: Bbox, ps: Seq<Position<u64>>) -> Bbox
    decreases ps.len(),
{
    if ps.len() == 0 {
        b
    } else {
        added(folded(b, ps.drop_last()), ps.last())
    }
}

pub proof fn lemma_folded_concat(b: Bbox, first: Seq<Position<u64>>, second: Seq<Position<u64>>)
    ensures
        folded(b, first + second) == folded(folded(b, first), second),
    decreases second.len(),
{
    if second.len() == 0 {
        assert(first + second =~= first);
    } else {
        lemma_folded_concat(b, first, second.drop_last());
        assert((first + second).drop_last() =~= first + second.drop_last());
    }
}

fn extend_run(run: &Vec<Position<u64>>, bbox: &mut Bbox)
    ensures
        *final(bbox) == folded(*old(bbox), run_view(run@)),
{
    let ghost all = run_view(run@);
    let mut i: usize = 0;
    while i < run.len()
        invariant
            i <= run@.len(),
            all == run_view(run@),
            *bbox == folded(*old(bbox), all.take(i as int)),
        decreases run@.len() - i,
    {
        bbox.add(run[i]);
        i += 1;
        assert(all.take(i as int).drop_last() =~= all.take(i - 1));
        assert(all.take(i as int).last() == run@[i - 1]);
    }
    assert(all.take(i as int) =~= all);
}

fn extend_runs(runs: &Vec<Vec<Position<u64>>>, bbox: &mut Bbox)
    ensures
        *final(bbox) == folded(*old(bbox), joined(runs_view(runs@))),
{
    let ghost all = runs_view(runs@);
    let mut i: usize = 0;
    while i < runs.len()
        invariant
            i <= runs@.len(),
            all == runs_view(runs@),
            *bbox == folded(*old(bbox), joined(all.take(i as int))),
        decreases runs@.len() - i,
    {
        extend_run(&runs[i], bbox);
        i += 1;
        proof {
            assert(all.take(i as int).drop_last() =~= all.take(i - 1));
            lemma_folded_concat(*old(bbox), joined(all.take(i - 1)), all[i - 1]);
        }
    }
    assert(all.take(i as int) =~= all);
}

fn widen(range: Option<(u64, u64)>, v: Option<u64>) -> (r: Option<(u64, u64)>)
    ensures
        r == widened(range, v),
{
    match v {
        None => range,
        Some(v) => match range {
            None => Some((v, v)),
            Some((lo, hi)) => Some((lesser_of(lo, v), greater_of(hi, v))),
        },
    }
}

impl Bbox {
    /// A box without positions, ready to absorb some.
    pub fn empty() -> (b: Self)
        ensures
            b == empty_bbox(),
    {
        Bbox {
            min_x: INFINITY,
            min_y: INFINITY,
            max_x: NEG_INFINITY,
            max_y: NEG_INFINITY,
            z: None,
            m: None,
        }
    }

    /// Grow the box to hold `p`, in every ordinate that `p` carries.
    pub fn add(&mut self, p: Position<u64>)
        ensures
            *final(self) == added(*old(self), p),
    {
        self.min_x = lesser_of(self.min_x, p.x);
        self.min_y = lesser_of(self.min_y, p.y);
        self.max_x = greater_of(self.max_x, p.x);
        self.max_y = greater_of(self.max_y, p.y);
        self.z = widen(self.z, p.z);
        self.m = widen(self.m, p.m);
    }

    /// Whether the X bounds are inverted, as they are until a position has
    /// been added.
    pub fn is_empty(&self) -> (r: bool)
        ensures
            r == is_above(self.min_x, self.max_x),
    {
        value_above(self.min_x, self.max_x)
    }
}

/// Whether a box's X and Y bounds hold a position, in each ordinate that is a
/// number.
pub open spec fn holds(b: Bbox, p: Position<u64>) -> bool {
    &&& !is_nan(p.x) ==> !is_above(b.min_x, p.x) && !is_above(p.x, b.max_x)
    &&& !is_nan(p.y) ==> !is_above(b.min_y, p.y) && !is_above(p.y, b.max_y)
}

/// Every position of a geometry lies within its bounding box.
pub proof fn law_bbox_holds_every_position(s: Shape<u64>, i: int)
    requires
        0 <= i < positions(s).len(),
    ensures
        holds(folded(empty_bbox(), positions(s)), positions(s)[i]),
{
    lemma_folded_holds(empty_bbox(), positions(s), i);
}

proof fn lemma_folded_holds(b: Bbox, ps: Seq<Position<u64>>, i: int)
    requires
        0 <= i < ps.len(),
        !is_nan(b.min_x),
        !is_nan(b.min_y),
        !is_nan(b.max_x),
        !is_nan(b.max_y),
    ensures
        holds(folded(b, ps), ps[i]),
    decreases ps.len(),
{
    lemma_folded_is_number(b, ps.drop_last());
    if i < ps.len() - 1 {
        lemma_folded_holds(b, ps.drop_last(), i);
    }
}

pub proof fn lemma_folded_is_number(b: Bbox, ps: Seq<Position<u64>>)
    requires
        !is_nan(b.min_x),
        !is_nan(b.min_y),
        !is_nan(b.max_x),
        !is_nan(b.max_y),
    ensures
        !is_nan(folded(b, ps).min_x),
        !is_nan(folded(b, ps).min_y),
        !is_nan(folded(b, ps).max_x),
        !is_nan(folded(b, ps).max_y),
    decreases ps.len(),
{
    if ps.len() > 0 {
        lemma_folded_is_number(b, ps.drop_last());
    }
}

/// A box tracks Z exactly where some position carries Z, and M likewise.
pub proof fn law_bbox_ranges_are_those_carried(ps: Seq<Position<u64>>)
    ensures
        folded(empty_bbox(), ps).z is Some <==> exists|i: int|
            0 <= i < ps.len() && (#[trigger] ps[i]).z is Some,
        folded(empty_bbox(), ps).m is Some <==> carries_m(ps),
    decreases ps.len(),
{
    if ps.len() > 0 {
        let rest = ps.drop_last();
        law_bbox_ranges_are_those_carried(rest);
        if exists|i: int| 0 <= i < rest.len() && (#[trigger] rest[i]).z is Some {
            let i = choose|i: int| 0 <= i < rest.len() && (#[trigger] rest[i]).z is Some;
            assert(ps[i].z is Some);
        }
        if carries_m(rest) {
            let i = choose|i: int| 0 <= i < rest.len() && (#[trigger] rest[i]).m is Some;
            assert(ps[i].m is Some);
        }
        if exists|i: int| 0 <= i < ps.len() && (#[trigger] ps[i]).z is Some {
            let i = choose|i: int| 0 <= i < ps.len() && (#[trigger] ps[i]).z is Some;
            if i < rest.len() {
                assert(rest[i].z is Some);
            }
        }
        if carries_m(ps) {
            let i = choose|i: int| 0 <= i < ps.len() && (#[trigger] ps[i]).m is Some;
            if i < rest.len() {
                assert(rest[i].m is Some);
            }
        }
        assert(ps.last() == ps[ps.len() - 1]);
    }
}

/// A box that was given a position with a numeric X is not empty.
pub proof fn law_bbox_of_a_position_is_not_empty(ps: Seq<Position<u64>>, i: int)
    requires
        0 <= i < ps.len(),
        !is_nan(ps[i].x),
    ensures
        ({
            let b = folded(empty_bbox(), ps);
            !is_above(b.min_x, b.max_x)
        }),
{
    lemma_folded_holds(empty_bbox(), ps, i);
    lemma_folded_is_number(empty_bbox(), ps);
}

} // verus!
