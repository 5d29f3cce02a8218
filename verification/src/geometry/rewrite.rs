//! Rewriting the positions of a geometry, one by one or run by run.
//!
//! This is where a change of coordinates goes: the functions here say which
//! positions are handed over and where the results go, and nothing of what is
//! computed.
use vstd::prelude::*;

use super::Geometry;
use super::Position;

verus! {

// --- one by one ----------------------------------------------------------------------

/// Whether each position of `b` is what `f` gives for that of `a`.
pub open spec fn run_rewritten<N, M, F: Fn(&Position<N>) -> Position<M>>(
    f: F,
    a: Seq<Position<N>>,
    b: Seq<Position<M>>,
) -> bool {
    &&& a.len() == b.len()
    &&& forall|i: int| 0 <= i < a.len() ==> call_ensures(f, (&a[i],), #[trigger] b[i])
}

pub open spec fn runs_rewritten<N, M, F: Fn(&Position<N>) -> Position<M>>(
    f: F,
    a: Seq<Vec<Position<N>>>,
    b: Seq<Vec<Position<M>>>,
) -> bool {
    &&& a.len() == b.len()
    &&& forall|i: int| 0 <= i < a.len() ==> run_rewritten(f, a[i]@, (#[trigger] b[i])@)
}

pub open spec fn polygons_rewritten<N, M, F: Fn(&Position<N>) -> Position<M>>(
    f: F,
    a: Seq<Vec<Vec<Position<N>>>>,
    b: Seq<Vec<Vec<Position<M>>>>,
) -> bool {
    &&& a.len() == b.len()
    &&& forall|i: int| 0 <= i < a.len() ==> runs_rewritten(f, a[i]@, (#[trigger] b[i])@)
}

/// Whether `b` is of the kind and structure of `a`, and each position of it is
/// what `f` gives for that of `a`.
pub open spec fn rewritten<N, M, F: Fn(&Position<N>) -> Position<M>>(
    f: F,
    a: Geometry<N>,
    b: Geometry<M>,
) -> bool
    decreases a,
{
    match (a, b) {
        (Geometry::Point(p), Geometry::Point(q)) => call_ensures(f, (&p,), q),
        (Geometry::LineString(p), Geometry::LineString(q)) => run_rewritten(f, p@, q@),
        (Geometry::MultiPoint(p), Geometry::MultiPoint(q)) => run_rewritten(f, p@, q@),
        (Geometry::Polygon(p), Geometry::Polygon(q)) => runs_rewritten(f, p@, q@),
        (Geometry::MultiLineString(p), Geometry::MultiLineString(q)) => runs_rewritten(f, p@, q@),
        (Geometry::MultiPolygon(p), Geometry::MultiPolygon(q)) => polygons_rewritten(f, p@, q@),
        (Geometry::GeometryCollection(p), Geometry::GeometryCollection(q)) => {
            &&& p@.len() == q@.len()
            &&& forall|i: int| 0 <= i < p@.len() ==> rewritten(f, p@[i], #[trigger] q@[i])
        },
        _ => false,
    }
}

fn rewrite_run<N, M, F: Fn(&Position<N>) -> Position<M>>(f: &F, run: &Vec<Position<N>>) -> (r: Vec<
    Position<M>,
>)
    requires
        forall|p: &Position<N>| #[trigger] call_requires(*f, (p,)),
    ensures
        run_rewritten(*f, run@, r@),
{
    let mut out: Vec<Position<M>> = Vec::new();
    let mut i: usize = 0;
    while i < run.len()
        invariant
            i <= run@.len(),
            out@.len() == i,
            forall|p: &Position<N>| #[trigger] call_requires(*f, (p,)),
            forall|j: int| 0 <= j < i ==> call_ensures(*f, (&run@[j],), #[trigger] out@[j]),
        decreases run@.len() - i,
    {
        out.push(f(&run[i]));
        i += 1;
    }
    out
}

fn rewrite_runs<N, M, F: Fn(&Position<N>) -> Position<M>>(f: &F, runs: &Vec<Vec<Position<N>>>) -> (r:
    Vec<Vec<Position<M>>>)
    requires
        forall|p: &Position<N>| #[trigger] call_requires(*f, (p,)),
    ensures
        runs_rewritten(*f, runs@, r@),
{
    let mut out: Vec<Vec<Position<M>>> = Vec::new();
    let mut i: usize = 0;
    while i < runs.len()
        invariant
            i <= runs@.len(),
            out@.len() == i,
            forall|p: &Position<N>| #[trigger] call_requires(*f, (p,)),
            forall|j: int| 0 <= j < i ==> run_rewritten(*f, runs@[j]@, (#[trigger] out@[j])@),
        decreases runs@.len() - i,
    {
        let r = rewrite_run(f, &runs[i]);
        out.push(r);
        i += 1;
    }
    out
}

impl<N> Geometry<N> {
    /// The geometry with every position replaced by what `f` gives for it. Z and
    /// M are handed to `f` as they are.
    pub fn map_positions<M, F: Fn(&Position<N>) -> Position<M>>(&self, f: &F) -> (r: Geometry<M>)
        requires
            forall|p: &Position<N>| #[trigger] call_requires(*f, (p,)),
        ensures
            rewritten(*f, *self, r),
        decreases self,
    {
        match self {
            Geometry::Point(p) => Geometry::Point(f(p)),
            Geometry::LineString(run) => Geometry::LineString(rewrite_run(f, run)),
            Geometry::MultiPoint(run) => Geometry::MultiPoint(rewrite_run(f, run)),
            Geometry::Polygon(rings) => Geometry::Polygon(rewrite_runs(f, rings)),
            Geometry::MultiLineString(lines) => Geometry::MultiLineString(rewrite_runs(f, lines)),
            Geometry::MultiPolygon(polygons) => {
                let mut out: Vec<Vec<Vec<Position<M>>>> = Vec::new();
                let mut i: usize = 0;
                while i < polygons.len()
                    invariant
                        i <= polygons@.len(),
                        out@.len() == i,
                        forall|p: &Position<N>| #[trigger] call_requires(*f, (p,)),
                        forall|j: int|
                            0 <= j < i ==> runs_rewritten(*f, polygons@[j]@, (#[trigger] out@[j])@),
                    decreases polygons@.len() - i,
                {
                    let r = rewrite_runs(f, &polygons[i]);
                    out.push(r);
                    i += 1;
                }
                Geometry::MultiPolygon(out)
            },
            Geometry::GeometryCollection(parts) => {
                let mut out: Vec<Geometry<M>> = Vec::new();
                let mut i: usize = 0;
                while i < parts.len()
                    invariant
                        i <= parts@.len(),
                        out@.len() == i,
                        self is GeometryCollection,
                        parts == self->GeometryCollection_0,
                        forall|p: &Position<N>| #[trigger] call_requires(*f, (p,)),
                        forall|j: int| 0 <= j < i ==> rewritten(*f, parts@[j], #[trigger] out@[j]),
                    decreases parts@.len() - i,
                {
                    let r = parts[i].map_positions(f);
                    out.push(r);
                    i += 1;
                }
                Geometry::GeometryCollection(out)
            },
        }
    }

    /// Replace every position by what `f` gives for it.
    pub fn for_each_position_mut<F: Fn(&Position<N>) -> Position<N>>(&mut self, f: &F)
        requires
            forall|p: &Position<N>| #[trigger] call_requires(*f, (p,)),
        ensures
            rewritten(*f, *old(self), *final(self)),
    {
        *self = self.map_positions(f);
    }
}

// --- run by run ----------------------------------------------------------------------

/// Whether `f` keeps the length of the runs that it is given.
pub open spec fn keeps_length<N, F: Fn(&Vec<Position<N>>) -> Vec<Position<N>>>(f: F) -> bool {
    forall|a: &Vec<Position<N>>, b: Vec<Position<N>>| #[trigger]
        call_ensures(f, (a,), b) ==> b@.len() == a@.len()
}

pub open spec fn runs_replaced<N, F: Fn(&Vec<Position<N>>) -> Vec<Position<N>>>(
    f: F,
    a: Seq<Vec<Position<N>>>,
    b: Seq<Vec<Position<N>>>,
) -> bool {
    &&& a.len() == b.len()
    &&& forall|i: int| 0 <= i < a.len() ==> call_ensures(f, (&a[i],), #[trigger] b[i])
}

/// Whether `b` is of the kind and structure of `a`, and each run of it is what
/// `f` gives for that of `a`. A point is a run of one position.
pub open spec fn replaced<N, F: Fn(&Vec<Position<N>>) -> Vec<Position<N>>>(
    f: F,
    a: Geometry<N>,
    b: Geometry<N>,
) -> bool
    decreases a,
{
    match (a, b) {
        (Geometry::Point(p), Geometry::Point(q)) => exists|u: Vec<Position<N>>, v: Vec<Position<N>>|
            u@ == seq![p] && v@ == seq![q] && #[trigger] call_ensures(f, (&u,), v),
        (Geometry::LineString(p), Geometry::LineString(q)) => call_ensures(f, (&p,), q),
        (Geometry::MultiPoint(p), Geometry::MultiPoint(q)) => call_ensures(f, (&p,), q),
        (Geometry::Polygon(p), Geometry::Polygon(q)) => runs_replaced(f, p@, q@),
        (Geometry::MultiLineString(p), Geometry::MultiLineString(q)) => runs_replaced(f, p@, q@),
        (Geometry::MultiPolygon(p), Geometry::MultiPolygon(q)) => {
            &&& p@.len() == q@.len()
            &&& forall|i: int|
                0 <= i < p@.len() ==> runs_replaced(f, p@[i]@, (#[trigger] q@[i])@)
        },
        (Geometry::GeometryCollection(p), Geometry::GeometryCollection(q)) => {
            &&& p@.len() == q@.len()
            &&& forall|i: int| 0 <= i < p@.len() ==> replaced(f, p@[i], #[trigger] q@[i])
        },
        _ => false,
    }
}

fn replace_runs<N, F: Fn(&Vec<Position<N>>) -> Vec<Position<N>>>(
    f: &F,
    runs: &Vec<Vec<Position<N>>>,
) -> (r: Vec<Vec<Position<N>>>)
    requires
        forall|p: &Vec<Position<N>>| #[trigger] call_requires(*f, (p,)),
    ensures
        runs_replaced(*f, runs@, r@),
{
    let mut out: Vec<Vec<Position<N>>> = Vec::new();
    let mut i: usize = 0;
    while i < runs.len()
        invariant
            i <= runs@.len(),
            out@.len() == i,
            forall|p: &Vec<Position<N>>| #[trigger] call_requires(*f, (p,)),
            forall|j: int| 0 <= j < i ==> call_ensures(*f, (&runs@[j],), #[trigger] out@[j]),
        decreases runs@.len() - i,
    {
        out.push(f(&runs[i]));
        i += 1;
    }
    out
}

impl<N: Copy> Geometry<N> {
    /// The geometry with every run of positions replaced by what `f` gives for
    /// it.
    pub fn map_runs<F: Fn(&Vec<Position<N>>) -> Vec<Position<N>>>(&self, f: &F) -> (r: Geometry<N>)
        requires
            forall|p: &Vec<Position<N>>| #[trigger] call_requires(*f, (p,)),
            keeps_length(*f),
        ensures
            replaced(*f, *self, r),
        decreases self,
    {
        match self {
            Geometry::Point(p) => {
                let mut one: Vec<Position<N>> = Vec::new();
                one.push(*p);
                assert(one@ =~= seq![*p]);
                let out = f(&one);
                assert(out@.len() == one@.len());
                assert(out@ =~= seq![out@[0]]);
                Geometry::Point(out[0])
            },
            Geometry::LineString(run) => Geometry::LineString(f(run)),
            Geometry::MultiPoint(run) => Geometry::MultiPoint(f(run)),
            Geometry::Polygon(rings) => Geometry::Polygon(replace_runs(f, rings)),
            Geometry::MultiLineString(lines) => Geometry::MultiLineString(replace_runs(f, lines)),
            Geometry::MultiPolygon(polygons) => {
                let mut out: Vec<Vec<Vec<Position<N>>>> = Vec::new();
                let mut i: usize = 0;
                while i < polygons.len()
                    invariant
                        i <= polygons@.len(),
                        out@.len() == i,
                        forall|p: &Vec<Position<N>>| #[trigger] call_requires(*f, (p,)),
                        forall|j: int|
                            0 <= j < i ==> runs_replaced(*f, polygons@[j]@, (#[trigger] out@[j])@),
                    decreases polygons@.len() - i,
                {
                    let r = replace_runs(f, &polygons[i]);
                    out.push(r);
                    i += 1;
                }
                Geometry::MultiPolygon(out)
            },
            Geometry::GeometryCollection(parts) => {
                let mut out: Vec<Geometry<N>> = Vec::new();
                let mut i: usize = 0;
                while i < parts.len()
                    invariant
                        i <= parts@.len(),
                        out@.len() == i,
                        self is GeometryCollection,
                        parts == self->GeometryCollection_0,
                        keeps_length(*f),
                        forall|p: &Vec<Position<N>>| #[trigger] call_requires(*f, (p,)),
                        forall|j: int| 0 <= j < i ==> replaced(*f, parts@[j], #[trigger] out@[j]),
                    decreases parts@.len() - i,
                {
                    let r = parts[i].map_runs(f);
                    out.push(r);
                    i += 1;
                }
                Geometry::GeometryCollection(out)
            },
        }
    }

    /// Replace every run of positions by what `f` gives for it, which has to be
    /// as long.
    pub fn for_each_position_run_mut<F: Fn(&Vec<Position<N>>) -> Vec<Position<N>>>(&mut self, f: &F)
        requires
            forall|p: &Vec<Position<N>>| #[trigger] call_requires(*f, (p,)),
            keeps_length(*f),
        ensures
            replaced(*f, *old(self), *final(self)),
    {
        *self = self.map_runs(f);
    }
}

} // verus!
