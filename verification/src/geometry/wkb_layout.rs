//! Where the parts of a geometry lie in its WKB.
use vstd::prelude::*;

use super::wkb::{
    coord_bytes, coords_bytes, extra_bytes, header_bytes, line_bytes, members, parts_bytes,
    rings_bytes, shape_dim, simple_bytes, simple_uniform, simples_bytes, uniform, wkb_bytes, Dim,
};
use super::{Position, Shape};
use crate::bytes::{le_bytes, lemma_le_bytes_len};
use crate::flatgeobuf::search::{lemma_number_at, number_at};

verus! {

// --- layout --------------------------------------------------------------------------------

/// The number in the four bytes at `p`, the least significant first.
#[verifier::opaque]
pub open spec fn count_at(b: Seq<u8>, p: int) -> int {
    b[p] + 0x100 * b[p + 1] + 0x1_0000 * b[p + 2] + 0x100_0000 * b[p + 3]
}

/// How many bytes a position takes: eight for each of its ordinates.
pub open spec fn position_size(z: bool, m: bool) -> int {
    16 + (if z {
        8int
    } else {
        0
    }) + (if m {
        8int
    } else {
        0
    })
}

/// Whether a head lies at `p`: the mark of the byte order, and the code of the type, with a
/// thousand for a height and two thousand for a measure.
pub open spec fn head_lies(b: Seq<u8>, p: int, code: int, z: bool, m: bool) -> bool {
    b[p] == 1 && count_at(b, p + 1) == code + (if z {
        1000int
    } else {
        0
    }) + (if m {
        2000int
    } else {
        0
    })
}

/// Whether a position lies at `p`: x, y, the height and the measure.
pub open spec fn position_lies(b: Seq<u8>, p: int, at: Position<u64>, z: bool, m: bool) -> bool {
    &&& number_at(b, p) == at.x
    &&& number_at(b, p + 8) == at.y
    &&& z ==> at.z is Some && number_at(b, p + 16) == at.z->0
    &&& m ==> at.m is Some && number_at(
        b,
        if z {
            p + 24
        } else {
            p + 16
        },
    ) == at.m->0
}

/// Whether a run lies from `p` to `q`: how many positions it has, and they themselves.
pub open spec fn run_lies(
    b: Seq<u8>,
    p: int,
    q: int,
    run: Seq<Position<u64>>,
    z: bool,
    m: bool,
) -> bool {
    &&& count_at(b, p) == run.len()
    &&& q == p + 4 + run.len() * position_size(z, m)
    &&& forall|i: int|
        0 <= i < run.len() ==> position_lies(
            b,
            p + 4 + i * position_size(z, m),
            #[trigger] run[i],
            z,
            m,
        )
}

/// Whether places follow one another from `p` to `q`.
pub open spec fn is_chain(places: Seq<int>, p: int, q: int, n: nat) -> bool {
    places.len() == n + 1 && places[0] == p && places[n as int] == q
}

/// Whether runs lie from `p` to `q`: how many they are, and they themselves, one behind the
/// other.
pub open spec fn runs_lie(
    b: Seq<u8>,
    p: int,
    q: int,
    runs: Seq<Seq<Position<u64>>>,
    z: bool,
    m: bool,
) -> bool {
    count_at(b, p) == runs.len() && exists|places: Seq<int>| #[trigger]
        is_chain(places, p + 4, q, runs.len()) && forall|i: int|
            0 <= i < runs.len() ==> run_lies(
                b,
                #[trigger] places[i],
                places[i + 1],
                runs[i],
                z,
                m,
            )
}

/// Whether a point, a line string or a polygon lies from `p` to `q`.
pub open spec fn simple_lies(b: Seq<u8>, p: int, q: int, s: Shape<u64>) -> bool {
    let d = shape_dim(s);
    match s {
        Shape::Point(at) => head_lies(b, p, 1, d.z, d.m) && position_lies(b, p + 5, at, d.z, d.m)
            && q == p + 5 + position_size(d.z, d.m),
        Shape::LineString(run) => head_lies(b, p, 2, d.z, d.m) && run_lies(
            b,
            p + 5,
            q,
            run,
            d.z,
            d.m,
        ),
        Shape::Polygon(rings) => head_lies(b, p, 3, d.z, d.m) && runs_lie(
            b,
            p + 5,
            q,
            rings,
            d.z,
            d.m,
        ),
        _ => false,
    }
}

/// Whether geometries without members lie from `p` to `q`, one behind the other.
pub open spec fn simples_lie(b: Seq<u8>, p: int, q: int, parts: Seq<Shape<u64>>) -> bool {
    exists|places: Seq<int>| #[trigger]
        is_chain(places, p, q, parts.len()) && forall|i: int|
            0 <= i < parts.len() ==> simple_lies(b, #[trigger] places[i], places[i + 1], parts[i])
}

/// Whether a geometry lies from `p` to `q`.
pub open spec fn shape_lies(b: Seq<u8>, p: int, q: int, s: Shape<u64>) -> bool
    decreases s,
{
    let d = shape_dim(s);
    match s {
        Shape::MultiPoint(run) => head_lies(b, p, 4, d.z, d.m) && count_at(b, p + 5) == run.len()
            && simples_lie(b, p + 9, q, run.map_values(|at: Position<u64>| Shape::Point(at))),
        Shape::MultiLineString(lines) => head_lies(b, p, 5, d.z, d.m) && count_at(b, p + 5)
            == lines.len() && simples_lie(
            b,
            p + 9,
            q,
            lines.map_values(|l: Seq<Position<u64>>| Shape::LineString(l)),
        ),
        Shape::MultiPolygon(polygons) => head_lies(b, p, 6, d.z, d.m) && count_at(b, p + 5)
            == polygons.len() && simples_lie(
            b,
            p + 9,
            q,
            polygons.map_values(|r: Seq<Seq<Position<u64>>>| Shape::Polygon(r)),
        ),
        Shape::GeometryCollection(parts) => head_lies(b, p, 7, d.z, d.m) && count_at(b, p + 5)
            == parts.len() && exists|places: Seq<int>| #[trigger]
            is_chain(places, p + 9, q, parts.len()) && forall|i: int|
                0 <= i < parts.len() ==> shape_lies(
                    b,
                    #[trigger] places[i],
                    places[i + 1],
                    parts[i],
                ),
        _ => simple_lies(b, p, q, s),
    }
}

// --- joining -------------------------------------------------------------------------------

spec fn joined(xs: Seq<Seq<u8>>) -> Seq<u8>
    decreases xs.len(),
{
    if xs.len() == 0 {
        Seq::empty()
    } else {
        joined(xs.drop_last()) + xs.last()
    }
}

/// What stands before the `i`th of what is joined, and what stands behind it.
proof fn lemma_joined_at(xs: Seq<Seq<u8>>, i: int) -> (rest: Seq<u8>)
    requires
        0 <= i < xs.len(),
    ensures
        joined(xs) == joined(xs.take(i)) + xs[i] + rest,
        joined(xs.take(i + 1)) == joined(xs.take(i)) + xs[i],
    decreases xs.len(),
{
    assert(xs.take(i + 1).drop_last() =~= xs.take(i));
    if i == xs.len() - 1 {
        assert(xs.take(i + 1) =~= xs);
        assert(joined(xs) =~= joined(xs.take(i)) + xs[i] + Seq::empty());
        Seq::empty()
    } else {
        let front = xs.drop_last();
        let rest = lemma_joined_at(front, i);
        assert(front.take(i) =~= xs.take(i));
        assert(joined(xs) =~= joined(xs.take(i)) + xs[i] + (rest + xs.last()));
        rest + xs.last()
    }
}

/// The places between what is joined.
spec fn places_of(p: int, xs: Seq<Seq<u8>>) -> Seq<int> {
    Seq::new(xs.len() + 1, |i: int| p + joined(xs.take(i)).len())
}

proof fn lemma_places(p: int, xs: Seq<Seq<u8>>)
    ensures
        is_chain(places_of(p, xs), p, p + joined(xs).len(), xs.len()),
{
    assert(xs.take(0) =~= Seq::empty());
    assert(xs.take(xs.len() as int) =~= xs);
}

proof fn lemma_rings_joined(rings: Seq<Seq<Position<u64>>>, d: Dim)
    ensures
        rings_bytes(rings, d) == joined(
            rings.map_values(|r: Seq<Position<u64>>| line_bytes(r, d)),
        ),
    decreases rings.len(),
{
    let f = |r: Seq<Position<u64>>| line_bytes(r, d);
    if rings.len() > 0 {
        lemma_rings_joined(rings.drop_last(), d);
        assert(rings.map_values(f).drop_last() =~= rings.drop_last().map_values(f));
    }
}

proof fn lemma_simples_joined(parts: Seq<Shape<u64>>)
    ensures
        simples_bytes(parts) == joined(parts.map_values(|s: Shape<u64>| simple_bytes(s))),
    decreases parts.len(),
{
    let f = |s: Shape<u64>| simple_bytes(s);
    if parts.len() > 0 {
        lemma_simples_joined(parts.drop_last());
        assert(parts.map_values(f).drop_last() =~= parts.drop_last().map_values(f));
    }
}

proof fn lemma_parts_joined(parts: Seq<Shape<u64>>)
    ensures
        parts_bytes(parts) == joined(parts.map_values(|s: Shape<u64>| wkb_bytes(s))),
    decreases parts.len(),
{
    let f = |s: Shape<u64>| wkb_bytes(s);
    if parts.len() > 0 {
        lemma_parts_joined(parts.drop_last());
        assert(parts.map_values(f).drop_last() =~= parts.drop_last().map_values(f));
    }
}

// --- numbers -------------------------------------------------------------------------------

pub proof fn lemma_count_at(b: Seq<u8>, before: Seq<u8>, n: nat, after: Seq<u8>)
    requires
        b == before + le_bytes(n, 4) + after,
        n < 0x1_0000_0000,
    ensures
        count_at(b, before.len() as int) == n,
{
    let p = before.len() as int;
    reveal(count_at);
    reveal_with_fuel(le_bytes, 5);
    lemma_le_bytes_len(n, 4);
    let s = le_bytes(n, 4);
    let d1 = n / 256;
    let d2 = d1 / 256;
    let d3 = d2 / 256;
    assert(s =~= seq![(n % 256) as u8, (d1 % 256) as u8, (d2 % 256) as u8, (d3 % 256) as u8]);
    assert(b[p] == s[0] && b[p + 1] == s[1] && b[p + 2] == s[2] && b[p + 3] == s[3]);
    assert(d3 < 256);
}

proof fn lemma_head(b: Seq<u8>, before: Seq<u8>, code: nat, d: Dim, after: Seq<u8>)
    requires
        b == before + header_bytes(code, d) + after,
        code <= 7,
    ensures
        head_lies(b, before.len() as int, code as int, d.z, d.m),
        header_bytes(code, d).len() == 5,
{
    let n = code + d.spec_offset();
    lemma_le_bytes_len(n, 4);
    assert(b =~= (before + seq![1u8]) + le_bytes(n, 4) + after);
    lemma_count_at(b, before + seq![1u8], n, after);
    assert(b[before.len() as int] == 1);
}

proof fn lemma_position(b: Seq<u8>, before: Seq<u8>, at: Position<u64>, d: Dim, after: Seq<u8>)
    requires
        b == before + coord_bytes(at, d) + after,
        Dim::spec_of(at) == d,
    ensures
        position_lies(b, before.len() as int, at, d.z, d.m),
        coord_bytes(at, d).len() == position_size(d.z, d.m),
{
    let x = le_bytes(at.x as nat, 8);
    let y = le_bytes(at.y as nat, 8);
    let z = extra_bytes(d.z, at.z);
    let m = extra_bytes(d.m, at.m);
    lemma_le_bytes_len(at.x as nat, 8);
    lemma_le_bytes_len(at.y as nat, 8);
    assert(b =~= before + x + (y + z + m + after));
    lemma_number_at(b, before, at.x, y + z + m + after);
    assert(b =~= (before + x) + y + (z + m + after));
    lemma_number_at(b, before + x, at.y, z + m + after);
    if d.z {
        lemma_le_bytes_len(at.z->0 as nat, 8);
        assert(b =~= (before + x + y) + z + (m + after));
        lemma_number_at(b, before + x + y, at.z->0, m + after);
    }
    if d.m {
        lemma_le_bytes_len(at.m->0 as nat, 8);
        assert(b =~= (before + x + y + z) + m + after);
        lemma_number_at(b, before + x + y + z, at.m->0, after);
    }
}

/// The positions of a run lie one behind the other.
proof fn lemma_positions(
    b: Seq<u8>,
    before: Seq<u8>,
    run: Seq<Position<u64>>,
    d: Dim,
    after: Seq<u8>,
)
    requires
        b == before + coords_bytes(run, d) + after,
        forall|i: int| 0 <= i < run.len() ==> Dim::spec_of(#[trigger] run[i]) == d,
    ensures
        coords_bytes(run, d).len() == run.len() * position_size(d.z, d.m),
        forall|i: int|
            0 <= i < run.len() ==> position_lies(
                b,
                before.len() + i * position_size(d.z, d.m),
                #[trigger] run[i],
                d.z,
                d.m,
            ),
    decreases run.len(),
{
    if run.len() > 0 {
        let front = run.drop_last();
        let last = coord_bytes(run.last(), d);
        let n = run.len() as int;
        let size = position_size(d.z, d.m);
        assert forall|i: int| 0 <= i < front.len() implies Dim::spec_of(#[trigger] front[i])
            == d by {
            assert(front[i] == run[i]);
        }
        assert(b =~= before + coords_bytes(front, d) + (last + after));
        lemma_positions(b, before, front, d, last + after);
        assert(b =~= (before + coords_bytes(front, d)) + last + after);
        assert(run.last() == run[n - 1]);
        lemma_position(b, before + coords_bytes(front, d), run.last(), d, after);
        assert((n - 1) * size + size == n * size) by (nonlinear_arith);
        assert forall|i: int| 0 <= i < run.len() implies position_lies(
            b,
            before.len() + i * size,
            #[trigger] run[i],
            d.z,
            d.m,
        ) by {
            if i < n - 1 {
                assert(front[i] == run[i]);
            }
        }
    } else {
        assert(0 * position_size(d.z, d.m) == 0);
    }
}

proof fn lemma_run(b: Seq<u8>, before: Seq<u8>, run: Seq<Position<u64>>, d: Dim, after: Seq<u8>)
    requires
        b == before + line_bytes(run, d) + after,
        run.len() < 0x1_0000_0000,
        forall|i: int| 0 <= i < run.len() ==> Dim::spec_of(#[trigger] run[i]) == d,
    ensures
        run_lies(
            b,
            before.len() as int,
            (before.len() + line_bytes(run, d).len()) as int,
            run,
            d.z,
            d.m,
        ),
{
    let n = le_bytes(run.len(), 4);
    let c = coords_bytes(run, d);
    lemma_le_bytes_len(run.len(), 4);
    assert(b =~= before + n + (c + after));
    lemma_count_at(b, before, run.len(), c + after);
    assert(b =~= (before + n) + c + after);
    lemma_positions(b, before + n, run, d, after);
}

proof fn lemma_runs(
    b: Seq<u8>,
    before: Seq<u8>,
    runs: Seq<Seq<Position<u64>>>,
    d: Dim,
    after: Seq<u8>,
)
    requires
        b == before + (le_bytes(runs.len(), 4) + rings_bytes(runs, d)) + after,
        runs.len() < 0x1_0000_0000,
        forall|k: int| 0 <= k < runs.len() ==> (#[trigger] runs[k]).len() < 0x1_0000_0000,
        forall|k: int, i: int|
            0 <= k < runs.len() && 0 <= i < runs[k].len() ==> Dim::spec_of(#[trigger] runs[k][i])
                == d,
    ensures
        runs_lie(
            b,
            before.len() as int,
            (before.len() + 4 + rings_bytes(runs, d).len()) as int,
            runs,
            d.z,
            d.m,
        ),
{
    let n = le_bytes(runs.len(), 4);
    let f = |r: Seq<Position<u64>>| line_bytes(r, d);
    let xs = runs.map_values(f);
    let p = (before.len() + 4) as int;
    lemma_le_bytes_len(runs.len(), 4);
    lemma_rings_joined(runs, d);
    let body = joined(xs);
    assert(b =~= before + n + (body + after));
    lemma_count_at(b, before, runs.len(), body + after);
    let places = places_of(p, xs);
    lemma_places(p, xs);
    assert forall|i: int| 0 <= i < runs.len() implies run_lies(
        b,
        #[trigger] places[i],
        places[i + 1],
        runs[i],
        d.z,
        d.m,
    ) by {
        let rest = lemma_joined_at(xs, i);
        let front = before + n + joined(xs.take(i));
        assert(xs[i] == line_bytes(runs[i], d));
        assert(b =~= front + line_bytes(runs[i], d) + (rest + after));
        lemma_run(b, front, runs[i], d, rest + after);
    }
    assert(is_chain(
        places,
        p as int,
        (before.len() + 4 + rings_bytes(runs, d).len()) as int,
        runs.len(),
    ));
}

proof fn lemma_simple(b: Seq<u8>, before: Seq<u8>, s: Shape<u64>, after: Seq<u8>)
    requires
        b == before + simple_bytes(s) + after,
        simple_uniform(s),
        s is Point || s is LineString || s is Polygon,
    ensures
        simple_lies(b, before.len() as int, (before.len() + simple_bytes(s).len()) as int, s),
{
    let d = shape_dim(s);
    match s {
        Shape::Point(at) => {
            let h = header_bytes(1, d);
            let body = coord_bytes(at, d);
            assert(b =~= before + h + (body + after));
            lemma_head(b, before, 1, d, body + after);
            assert(b =~= (before + h) + body + after);
            lemma_position(b, before + h, at, d, after);
        },
        Shape::LineString(run) => {
            let h = header_bytes(2, d);
            let body = line_bytes(run, d);
            assert(b =~= before + h + (body + after));
            lemma_head(b, before, 2, d, body + after);
            assert(b =~= (before + h) + body + after);
            lemma_run(b, before + h, run, d, after);
        },
        Shape::Polygon(rings) => {
            let h = header_bytes(3, d);
            let body = le_bytes(rings.len(), 4) + rings_bytes(rings, d);
            lemma_le_bytes_len(rings.len(), 4);
            assert(b =~= before + h + (body + after));
            lemma_head(b, before, 3, d, body + after);
            assert(b =~= (before + h) + body + after);
            lemma_runs(b, before + h, rings, d, after);
        },
        _ => {},
    }
}

proof fn lemma_simples(b: Seq<u8>, before: Seq<u8>, parts: Seq<Shape<u64>>, after: Seq<u8>)
    requires
        b == before + simples_bytes(parts) + after,
        forall|i: int|
            0 <= i < parts.len() ==> simple_uniform(#[trigger] parts[i]) && (parts[i] is Point
                || parts[i] is LineString || parts[i] is Polygon),
    ensures
        simples_lie(
            b,
            before.len() as int,
            (before.len() + simples_bytes(parts).len()) as int,
            parts,
        ),
{
    let f = |s: Shape<u64>| simple_bytes(s);
    let xs = parts.map_values(f);
    let p = before.len() as int;
    lemma_simples_joined(parts);
    let places = places_of(p, xs);
    lemma_places(p, xs);
    assert forall|i: int| 0 <= i < parts.len() implies simple_lies(
        b,
        #[trigger] places[i],
        places[i + 1],
        parts[i],
    ) by {
        let rest = lemma_joined_at(xs, i);
        let front = before + joined(xs.take(i));
        assert(xs[i] == simple_bytes(parts[i]));
        assert(b =~= front + simple_bytes(parts[i]) + (rest + after));
        lemma_simple(b, front, parts[i], rest + after);
    }
    assert(is_chain(
        places,
        p,
        (before.len() + simples_bytes(parts).len()) as int,
        parts.len(),
    ));
}

/// The parts of a geometry lie in its WKB where the layout has them: the mark of the byte
/// order, the code of the type, counts, and the ordinates of every position.
pub proof fn law_parts_lie_in_their_places(
    b: Seq<u8>,
    before: Seq<u8>,
    s: Shape<u64>,
    after: Seq<u8>,
)
    requires
        b == before + wkb_bytes(s) + after,
        uniform(s),
    ensures
        shape_lies(b, before.len() as int, (before.len() + wkb_bytes(s).len()) as int, s),
    decreases s,
{
    let d = shape_dim(s);
    match s {
        Shape::GeometryCollection(parts) => {
            let h = header_bytes(7, d);
            let n = le_bytes(parts.len(), 4);
            let f = |s: Shape<u64>| wkb_bytes(s);
            let xs = parts.map_values(f);
            lemma_parts_joined(parts);
            lemma_le_bytes_len(parts.len(), 4);
            let body = joined(xs);
            assert(b =~= before + h + (n + body + after));
            lemma_head(b, before, 7, d, n + body + after);
            assert(b =~= (before + h) + n + (body + after));
            lemma_count_at(b, before + h, parts.len(), body + after);
            let p = before.len() + 9;
            let places = places_of(p as int, xs);
            lemma_places(p as int, xs);
            assert forall|i: int| 0 <= i < parts.len() implies shape_lies(
                b,
                #[trigger] places[i],
                places[i + 1],
                parts[i],
            ) by {
                let rest = lemma_joined_at(xs, i);
                let front = before + h + n + joined(xs.take(i));
                assert(xs[i] == wkb_bytes(parts[i]));
                assert(b =~= front + wkb_bytes(parts[i]) + (rest + after));
                law_parts_lie_in_their_places(b, front, parts[i], rest + after);
            }
            assert(is_chain(
                places,
                p as int,
                (before.len() + wkb_bytes(s).len()) as int,
                parts.len(),
            ));
        },
        Shape::MultiPoint(_) | Shape::MultiLineString(_) | Shape::MultiPolygon(_) => {
            let parts = members(s);
            let code: nat = if s is MultiPoint {
                4
            } else if s is MultiLineString {
                5
            } else {
                6
            };
            let h = header_bytes(code, d);
            let n = le_bytes(parts.len(), 4);
            let body = simples_bytes(parts);
            lemma_le_bytes_len(parts.len(), 4);
            assert(b =~= before + h + (n + body + after));
            lemma_head(b, before, code, d, n + body + after);
            assert(b =~= (before + h) + n + (body + after));
            lemma_count_at(b, before + h, parts.len(), body + after);
            assert(b =~= (before + h + n) + body + after);
            lemma_simples(b, before + h + n, parts, after);
        },
        _ => {
            lemma_simple(b, before, s, after);
        },
    }
}

} // verus!
