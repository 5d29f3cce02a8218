//! Reading a geometry's text gives the geometry back.
use vstd::prelude::*;

use super::wkb::Dim;
use super::wkt::{
    body_text, bracketed_at, bracket_at, coord_at, coord_text, decoded, dim_at, dim_end, dim_of,
    dim_word, further_at, further_text, header_text, is_letter, is_number_mark, keyword, keyword_at,
    letters_end, list_from, member_at, members_at, more_at, number_at, number_end, parts_from,
    parts_rest, polygons_at, polygons_dim, polygons_rest, position_of, run_at, run_dim, run_rest,
    run_text, runs_at, runs_dim, runs_rest, runs_text, separator, shape_at, shape_dim, wkt_text,
    ws_end,
};
use super::Position;
use super::Shape;
use crate::decimal::unsigned_plain;
use crate::error::Failure;
use crate::number::is_float_text;
use crate::text::{is_ascii_white, is_white, trimmed, upper_text};

verus! {

/// Whether a text is that of a number, written plainly, and not a zero with a sign.
pub open spec fn is_plain(t: Seq<char>) -> bool {
    &&& t.len() > 0
    &&& is_float_text(t)
    &&& forall|i: int| 0 <= i < t.len() ==> is_number_mark(#[trigger] t[i])
    &&& unsigned_plain(t) == t
}

pub open spec fn is_plain_option(o: Option<Seq<char>>) -> bool {
    match o {
        Some(t) => is_plain(t),
        None => true,
    }
}

/// Whether a position has a dimensionality, and ordinates written plainly.
pub open spec fn is_regular(p: Position<Seq<char>>, dim: Dim) -> bool {
    &&& dim_of(p) == dim
    &&& is_plain(p.x)
    &&& is_plain(p.y)
    &&& is_plain_option(p.z)
    &&& is_plain_option(p.m)
}

/// Whether a run is not empty and regular.
pub open spec fn is_regular_run(run: Seq<Position<Seq<char>>>, dim: Dim) -> bool {
    &&& run.len() > 0
    &&& forall|i: int| 0 <= i < run.len() ==> is_regular(#[trigger] run[i], dim)
}

/// Whether a list of runs is not empty and regular.
pub open spec fn are_regular_runs(runs: Seq<Seq<Position<Seq<char>>>>, dim: Dim) -> bool {
    &&& runs.len() > 0
    &&& forall|i: int| 0 <= i < runs.len() ==> is_regular_run(#[trigger] runs[i], dim)
}

/// Whether every list in a geometry has an item, every position of it the same
/// dimensionality, the members of a collection apart, and every ordinate is
/// written plainly. The text has no form for an empty list that can be read,
/// and no way to say that one position lacks an ordinate which others have.
pub open spec fn is_regular_shape(s: Shape<Seq<char>>) -> bool
    decreases s,
{
    match s {
        Shape::Point(p) => is_regular(p, dim_of(p)),
        Shape::LineString(run) => is_regular_run(run, run_dim(run)),
        Shape::MultiPoint(run) => is_regular_run(run, run_dim(run)),
        Shape::Polygon(rings) => are_regular_runs(rings, runs_dim(rings)),
        Shape::MultiLineString(lines) => are_regular_runs(lines, runs_dim(lines)),
        Shape::MultiPolygon(polygons) => {
            &&& polygons.len() > 0
            &&& forall|i: int|
                0 <= i < polygons.len() ==> are_regular_runs(
                    #[trigger] polygons[i],
                    polygons_dim(polygons),
                )
        },
        Shape::GeometryCollection(parts) => {
            &&& parts.len() > 0
            &&& forall|i: int| 0 <= i < parts.len() ==> is_regular_shape(#[trigger] parts[i])
        },
    }
}

/// How a dimensionality is read back: none where no word says one.
pub open spec fn said(dim: Dim) -> Option<Dim> {
    if dim.z || dim.m {
        Some(dim)
    } else {
        None
    }
}

/// Whether `t` stands in `s` at `q`.
#[verifier::opaque]
pub open spec fn stands(s: Seq<char>, q: int, t: Seq<char>) -> bool {
    &&& 0 <= q
    &&& q + t.len() <= s.len()
    &&& forall|i: int| q <= i < q + t.len() ==> #[trigger] s[i] == t[i - q]
}

/// A text that stands somewhere stands there character by character.
proof fn lemma_at(s: Seq<char>, q: int, t: Seq<char>, i: int)
    requires
        stands(s, q, t),
        0 <= i < t.len(),
    ensures
        s[q + i] == t[i],
{
    reveal(stands);
}

proof fn lemma_split(s: Seq<char>, q: int, a: Seq<char>, b: Seq<char>)
    requires
        stands(s, q, a + b),
    ensures
        stands(s, q, a),
        stands(s, q + a.len(), b),
        0 <= q,
        q + a.len() + b.len() <= s.len(),
{
    reveal(stands);
    assert forall|i: int| q <= i < q + a.len() implies #[trigger] s[i] == a[i - q] by {
        assert((a + b)[i - q] == a[i - q]);
    }
    assert forall|i: int| q + a.len() <= i < q + a.len() + b.len() implies #[trigger] s[i] == b[i
        - q - a.len()] by {
        assert((a + b)[i - q] == b[i - q - a.len()]);
    }
}

proof fn lemma_subrange(s: Seq<char>, q: int, t: Seq<char>)
    requires
        stands(s, q, t),
    ensures
        s.subrange(q, q + t.len()) == t,
        0 <= q,
        q + t.len() <= s.len(),
{
    reveal(stands);
    assert(s.subrange(q, q + t.len()) =~= t);
}

/// A character that is not white ends white space.
proof fn lemma_no_ws(s: Seq<char>, q: int)
    requires
        0 <= q < s.len(),
        !is_ascii_white(s[q]),
    ensures
        ws_end(s, q) == q,
{
}

proof fn lemma_number_end(s: Seq<char>, q: int, r: int)
    requires
        0 <= q <= r < s.len(),
        forall|i: int| q <= i < r ==> is_number_mark(#[trigger] s[i]),
        !is_number_mark(s[r]),
    ensures
        number_end(s, q) == r,
    decreases r - q,
{
    if q < r {
        assert(is_number_mark(s[q]));
        lemma_number_end(s, q + 1, r);
    }
}

/// A plain number with something else after it is read back, white space before
/// it or not.
proof fn lemma_number_reads(s: Seq<char>, p: int, q: int, t: Seq<char>)
    requires
        0 <= p <= q,
        ws_end(s, p) == q,
        stands(s, q, t),
        is_plain(t),
        q + t.len() < s.len(),
        !is_number_mark(s[q + t.len()]),
    ensures
        number_at(s, p) == Ok::<(Seq<char>, int), Failure>((t, q + t.len())),
{
    assert forall|i: int| q <= i < q + t.len() implies is_number_mark(#[trigger] s[i]) by {
        lemma_at(s, q, t, i - q);
        assert(is_number_mark(t[i - q]));
    }
    lemma_number_end(s, q, q + t.len());
    lemma_subrange(s, q, t);
}

/// Where a space stands before something that is not white, white space ends
/// after it.
proof fn lemma_one_space(s: Seq<char>, p: int)
    requires
        0 <= p,
        p + 1 < s.len(),
        s[p] == ' ',
        !is_ascii_white(s[p + 1]),
    ensures
        ws_end(s, p) == p + 1,
{
    lemma_no_ws(s, p + 1);
}

proof fn lemma_marks_are_not_white(c: char)
    requires
        is_number_mark(c),
    ensures
        !is_ascii_white(c),
        c != ',',
        c != ')',
        c != '(',
{
}

/// Whether a coordinate can end at `q`.
pub open spec fn ends_coord(s: Seq<char>, q: int) -> bool {
    0 <= q < s.len() && (s[q] == ',' || s[q] == ')')
}

/// A further ordinate is read back, and what comes after it is read next.
proof fn lemma_further_step(s: Seq<char>, p: int, t: Seq<char>, so_far: Seq<Seq<char>>)
    requires
        stands(s, p, " "@ + t),
        is_plain(t),
        p + 1 + t.len() < s.len(),
        !is_number_mark(s[p + 1 + t.len()]),
    ensures
        further_at(s, p, so_far) == further_at(s, p + 1 + t.len(), so_far.push(t)),
{
    reveal_strlit(" ");
    lemma_split(s, p, " "@, t);
    lemma_at(s, p, " "@, 0);
    lemma_at(s, p + 1, t, 0);
    assert(is_number_mark(t[0]));
    lemma_marks_are_not_white(t[0]);
    lemma_one_space(s, p);
    lemma_no_ws(s, p + 1);
    lemma_number_reads(s, p + 1, p + 1, t);
}

proof fn lemma_further_ends(s: Seq<char>, q: int, so_far: Seq<Seq<char>>)
    requires
        ends_coord(s, q),
    ensures
        further_at(s, q, so_far) == Ok::<(Seq<Seq<char>>, int), Failure>((so_far, q)),
{
    lemma_no_ws(s, q);
}

/// The further ordinates of a position.
spec fn further_of(p: Position<Seq<char>>) -> Seq<Seq<char>> {
    match (p.z, p.m) {
        (Some(z), Some(m)) => seq![z, m],
        (Some(z), None) => seq![z],
        (None, Some(m)) => seq![m],
        (None, None) => Seq::empty(),
    }
}

proof fn lemma_further_reads(s: Seq<char>, q: int, p: Position<Seq<char>>)
    requires
        is_plain_option(p.z),
        is_plain_option(p.m),
        stands(s, q, further_text(p.z) + further_text(p.m)),
        ends_coord(s, q + further_text(p.z).len() + further_text(p.m).len()),
    ensures
        further_at(s, q, Seq::empty()) == Ok::<(Seq<Seq<char>>, int), Failure>(
            (further_of(p), q + further_text(p.z).len() + further_text(p.m).len()),
        ),
{
    reveal_strlit(" ");
    let zt = further_text(p.z);
    let mt = further_text(p.m);
    lemma_split(s, q, zt, mt);
    let q1 = q + zt.len();
    let q2 = q1 + mt.len();
    if mt.len() > 0 {
        lemma_at(s, q1, mt, 0);
    }
    if let Some(z) = p.z {
        lemma_further_step(s, q, z, Seq::empty());
        assert(Seq::<Seq<char>>::empty().push(z) =~= seq![z]);
        if let Some(m) = p.m {
            lemma_further_step(s, q1, m, seq![z]);
            assert(seq![z].push(m) =~= seq![z, m]);
        }
    } else if let Some(m) = p.m {
        lemma_further_step(s, q1, m, Seq::empty());
        assert(Seq::<Seq<char>>::empty().push(m) =~= seq![m]);
    }
    lemma_further_ends(s, q2, further_of(p));
}

/// A coordinate is read back.
#[verifier::spinoff_prover]
#[verifier::rlimit(30)]
proof fn lemma_coord_reads(s: Seq<char>, p: int, q: int, c: Position<Seq<char>>, dim: Dim)
    requires
        0 <= p <= q,
        ws_end(s, p) == q,
        is_regular(c, dim),
        stands(s, q, coord_text(c)),
        ends_coord(s, q + coord_text(c).len()),
    ensures
        coord_at(s, p, said(dim)) == Ok::<(Position<Seq<char>>, int), Failure>(
            (c, q + coord_text(c).len()),
        ),
{
    reveal_strlit(" ");
    let space = " "@;
    let tail = further_text(c.z) + further_text(c.m);
    let y = space + c.y;
    assert(coord_text(c) =~= c.x + (y + tail));
    lemma_split(s, q, c.x, y + tail);
    let q1 = q + c.x.len();
    lemma_split(s, q1, y, tail);
    lemma_split(s, q1, space, c.y);
    let q2 = q1 + 1 + c.y.len();
    lemma_at(s, q1, space, 0);
    lemma_at(s, q1 + 1, c.y, 0);
    assert(is_number_mark(c.y[0]));
    lemma_marks_are_not_white(c.y[0]);
    lemma_one_space(s, q1);
    lemma_number_reads(s, p, q, c.x);
    if tail.len() > 0 {
        lemma_at(s, q2, tail, 0);
        assert(tail[0] == ' ');
    }
    lemma_number_reads(s, q1, q1 + 1, c.y);
    lemma_further_reads(s, q2, c);
    assert(position_of(c.x, c.y, further_of(c), said(dim)) == c);
}

/// An opening bracket is read, white space before it or not.
proof fn lemma_open(s: Seq<char>, p: int, q: int)
    requires
        0 <= p <= q < s.len(),
        ws_end(s, p) == q,
        s[q] == '(',
    ensures
        bracket_at(s, p, '(') == Ok::<int, Failure>(q + 1),
{
}

/// What follows an item of a list decides whether the list goes on.
proof fn lemma_more(s: Seq<char>, q: int)
    requires
        0 <= q < s.len(),
        s[q] == ',' || s[q] == ')',
    ensures
        more_at(s, q) == Ok::<(bool, int), Failure>((s[q] == ',', q + 1)),
{
    lemma_no_ws(s, q);
}

/// How a list goes on after its `i`th item: with a comma, a space and the next
/// item, or with the closing bracket.
proof fn lemma_rest_start(s: Seq<char>, q: int, i: int, n: int, item: Seq<char>, rest: Seq<char>)
    requires
        0 < i <= n,
        i == n ==> stands(s, q, ")"@),
        i < n ==> stands(s, q, separator(i) + item + rest),
    ensures
        i == n ==> s[q] == ')' && ends_coord(s, q),
        i < n ==> s[q] == ',' && ends_coord(s, q) && s[q + 1] == ' ' && stands(
            s,
            q + 2,
            item + rest,
        ),
{
    reveal_strlit(")");
    reveal_strlit(", ");
    if i == n {
        lemma_at(s, q, ")"@, 0);
        lemma_subrange(s, q, ")"@);
    } else {
        assert(separator(i) + item + rest =~= ", "@ + (item + rest));
        lemma_split(s, q, ", "@, item + rest);
        lemma_at(s, q, ", "@, 0);
        lemma_at(s, q, ", "@, 1);
    }
}

/// One item of a list is read, and what follows it decides how reading goes on.
proof fn lemma_list_step<T>(
    s: Seq<char>,
    p: int,
    item: spec_fn(int) -> Result<(T, int), Failure>,
    so_far: Seq<T>,
    v: T,
    q: int,
)
    requires
        item(p) == Ok::<(T, int), Failure>((v, q)),
        0 <= p < q < s.len(),
        s[q] == ',' || s[q] == ')',
    ensures
        s[q] == ',' ==> list_from(s, p, item, so_far) == list_from(
            s,
            q + 1,
            item,
            so_far.push(v),
        ),
        s[q] == ')' ==> list_from(s, p, item, so_far) == Ok::<(Seq<T>, int), Failure>(
            (so_far.push(v), q + 1),
        ),
{
    lemma_more(s, q);
}

/// A coordinate is read back, as a bare one and as a member.
proof fn lemma_item_reads(s: Seq<char>, p: int, q: int, c: Position<Seq<char>>, dim: Dim)
    requires
        0 <= p <= q,
        ws_end(s, p) == q,
        is_regular(c, dim),
        stands(s, q, coord_text(c)),
        ends_coord(s, q + coord_text(c).len()),
    ensures
        coord_at(s, p, said(dim)) == Ok::<(Position<Seq<char>>, int), Failure>(
            (c, q + coord_text(c).len()),
        ),
        member_at(s, p, said(dim)) == Ok::<(Position<Seq<char>>, int), Failure>(
            (c, q + coord_text(c).len()),
        ),
{
    lemma_coord_reads(s, p, q, c, dim);
    lemma_starts_number(s, q, c);
    lemma_no_ws(s, q);
    lemma_coord_reads(s, q, q, c, dim);
}

/// How the items of a run are read: as bare coordinates or as members.
spec fn item_reader(s: Seq<char>, dim: Dim, bare: bool) -> spec_fn(int) -> Result<
    (Position<Seq<char>>, int),
    Failure,
> {
    if bare {
        |r: int| coord_at(s, r, said(dim))
    } else {
        |r: int| member_at(s, r, said(dim))
    }
}

proof fn lemma_run_from(
    s: Seq<char>,
    p: int,
    q: int,
    run: Seq<Position<Seq<char>>>,
    i: int,
    dim: Dim,
    bare: bool,
)
    requires
        0 <= i < run.len(),
        is_regular_run(run, dim),
        0 <= p <= q,
        ws_end(s, p) == q,
        stands(s, q, coord_text(run[i]) + run_rest(run, i + 1)),
    ensures
        list_from(s, p, item_reader(s, dim, bare), run.take(i)) == Ok::<
            (Seq<Position<Seq<char>>>, int),
            Failure,
        >((run, q + coord_text(run[i]).len() + run_rest(run, i + 1).len())),
    decreases run.len() - i,
{
    let item = item_reader(s, dim, bare);
    let c = run[i];
    let t = coord_text(c);
    let rest = run_rest(run, i + 1);
    let q1 = q + t.len();
    let n = run.len() as int;
    lemma_split(s, q, t, rest);
    lemma_run_step(s, q1, run, i);
    assert(is_regular(c, dim));
    lemma_item_reads(s, p, q, c, dim);
    assert(t.len() > 0) by {
        assert(c.x.len() > 0);
        assert(t.len() >= unsigned_plain(c.x).len());
    }
    lemma_list_step(s, p, item, run.take(i), c, q1);
    assert(run.take(i).push(c) =~= run.take(i + 1));
    if i + 1 < n {
        assert(is_regular(run[i + 1], dim));
        lemma_split(s, q1 + 2, coord_text(run[i + 1]), run_rest(run, i + 2));
        lemma_starts_number(s, q1 + 2, run[i + 1]);
        lemma_one_space(s, q1 + 1);
        lemma_run_from(s, q1 + 1, q1 + 2, run, i + 1, dim, bare);
    } else {
        assert(run.take(n) =~= run);
    }
}

/// What stands after the `i`th coordinate of a run.
proof fn lemma_run_step(s: Seq<char>, q: int, run: Seq<Position<Seq<char>>>, i: int)
    requires
        0 <= i < run.len(),
        stands(s, q, run_rest(run, i + 1)),
    ensures
        ends_coord(s, q),
        i + 1 == run.len() ==> s[q] == ')' && run_rest(run, i + 1).len() == 1,
        i + 1 < run.len() ==> {
            &&& s[q] == ','
            &&& q + 2 < s.len()
            &&& s[q + 1] == ' '
            &&& stands(s, q + 2, coord_text(run[i + 1]) + run_rest(run, i + 2))
            &&& run_rest(run, i + 1).len() == 2 + coord_text(run[i + 1]).len() + run_rest(
                run,
                i + 2,
            ).len()
        },
{
    let n = run.len() as int;
    reveal_strlit(")");
    reveal_strlit(", ");
    if i + 1 < n {
        lemma_rest_start(s, q, i + 1, n, coord_text(run[i + 1]), run_rest(run, i + 2));
        lemma_split(s, q + 2, coord_text(run[i + 1]), run_rest(run, i + 2));
        lemma_rest_len(run, i + 2);
    } else {
        lemma_rest_start(s, q, i + 1, n, Seq::empty(), Seq::empty());
    }
}

proof fn lemma_rest_len(run: Seq<Position<Seq<char>>>, i: int)
    ensures
        run_rest(run, i).len() > 0,
    decreases run.len() - i,
{
    reveal_strlit(")");
    if 0 <= i < run.len() {
        lemma_rest_len(run, i + 1);
    }
}

/// A coordinate starts with a character of a number.
proof fn lemma_starts_number(s: Seq<char>, q: int, c: Position<Seq<char>>)
    requires
        is_plain(c.x),
        stands(s, q, coord_text(c)),
    ensures
        is_number_mark(s[q]),
        !is_ascii_white(s[q]),
        s[q] != '(',
{
    lemma_at(s, q, coord_text(c), 0);
    assert(coord_text(c)[0] == c.x[0]);
    assert(is_number_mark(c.x[0]));
    lemma_marks_are_not_white(c.x[0]);
}

/// A run is read back, as a list of bare coordinates or of members.
proof fn lemma_run_reads(
    s: Seq<char>,
    p: int,
    q: int,
    run: Seq<Position<Seq<char>>>,
    dim: Dim,
    bare: bool,
)
    requires
        is_regular_run(run, dim),
        0 <= p <= q,
        ws_end(s, p) == q,
        stands(s, q, run_text(run)),
    ensures
        bare ==> run_at(s, p, said(dim)) == Ok::<(Seq<Position<Seq<char>>>, int), Failure>(
            (run, q + run_text(run).len()),
        ),
        !bare ==> members_at(s, p, said(dim)) == Ok::<(Seq<Position<Seq<char>>>, int), Failure>(
            (run, q + run_text(run).len()),
        ),
{
    reveal_strlit("(");
    lemma_split(s, q, "("@, run_rest(run, 0));
    lemma_at(s, q, "("@, 0);
    lemma_open(s, p, q);
    assert(run_rest(run, 0) =~= coord_text(run[0]) + run_rest(run, 1));
    lemma_split(s, q + 1, coord_text(run[0]), run_rest(run, 1));
    lemma_rest_len(run, 1);
    lemma_starts_number(s, q + 1, run[0]);
    lemma_no_ws(s, q + 1);
    lemma_run_from(s, q + 1, q + 1, run, 0, dim, bare);
    assert(run.take(0) =~= Seq::<Position<Seq<char>>>::empty());
    if bare {
        assert(item_reader(s, dim, bare) == (|r: int| coord_at(s, r, said(dim))));
    } else {
        assert(item_reader(s, dim, bare) == (|r: int| member_at(s, r, said(dim))));
    }
}

proof fn lemma_starts_open(s: Seq<char>, q: int, t: Seq<char>)
    requires
        stands(s, q, "("@ + t),
    ensures
        q < s.len(),
        s[q] == '(',
        ws_end(s, q) == q,
{
    reveal_strlit("(");
    lemma_at(s, q, "("@ + t, 0);
    lemma_subrange(s, q, "("@ + t);
    lemma_no_ws(s, q);
}

proof fn lemma_runs_from(
    s: Seq<char>,
    p: int,
    q: int,
    runs: Seq<Seq<Position<Seq<char>>>>,
    i: int,
    dim: Dim,
)
    requires
        0 <= i < runs.len(),
        are_regular_runs(runs, dim),
        0 <= p <= q,
        ws_end(s, p) == q,
        stands(s, q, run_text(runs[i]) + runs_rest(runs, i + 1)),
    ensures
        list_from(s, p, |r: int| run_at(s, r, said(dim)), runs.take(i)) == Ok::<
            (Seq<Seq<Position<Seq<char>>>>, int),
            Failure,
        >((runs, q + run_text(runs[i]).len() + runs_rest(runs, i + 1).len())),
    decreases runs.len() - i,
{
    let item = |r: int| run_at(s, r, said(dim));
    let t = run_text(runs[i]);
    let rest = runs_rest(runs, i + 1);
    lemma_split(s, q, t, rest);
    let q1 = q + t.len();
    let n = runs.len() as int;
    lemma_run_reads(s, p, q, runs[i], dim, true);
    assert(item(p) == Ok::<(Seq<Position<Seq<char>>>, int), Failure>((runs[i], q1)));
    assert(runs.take(i).push(runs[i]) =~= runs.take(i + 1));
    if i + 1 < n {
        let next = run_text(runs[i + 1]);
        lemma_rest_start(s, q1, i + 1, n, next, runs_rest(runs, i + 2));
        lemma_more(s, q1);
        lemma_split(s, q1 + 2, next, runs_rest(runs, i + 2));
        lemma_starts_open(s, q1 + 2, run_rest(runs[i + 1], 0));
        lemma_one_space(s, q1 + 1);
        lemma_runs_from(s, q1 + 1, q1 + 2, runs, i + 1, dim);
        assert(rest.len() == 2 + next.len() + runs_rest(runs, i + 2).len()) by {
            reveal_strlit(", ");
        }
    } else {
        lemma_rest_start(s, q1, i + 1, n, Seq::empty(), Seq::empty());
        lemma_more(s, q1);
        assert(runs.take(n) =~= runs);
        reveal_strlit(")");
    }
}

proof fn lemma_runs_read(
    s: Seq<char>,
    p: int,
    q: int,
    runs: Seq<Seq<Position<Seq<char>>>>,
    dim: Dim,
)
    requires
        are_regular_runs(runs, dim),
        0 <= p <= q,
        ws_end(s, p) == q,
        stands(s, q, runs_text(runs)),
    ensures
        runs_at(s, p, said(dim)) == Ok::<(Seq<Seq<Position<Seq<char>>>>, int), Failure>(
            (runs, q + runs_text(runs).len()),
        ),
{
    reveal_strlit("(");
    lemma_starts_open(s, q, runs_rest(runs, 0));
    lemma_split(s, q, "("@, runs_rest(runs, 0));
    lemma_open(s, p, q);
    assert(runs_rest(runs, 0) =~= run_text(runs[0]) + runs_rest(runs, 1));
    lemma_split(s, q + 1, run_text(runs[0]), runs_rest(runs, 1));
    lemma_starts_open(s, q + 1, run_rest(runs[0], 0));
    lemma_runs_from(s, q + 1, q + 1, runs, 0, dim);
    assert(runs.take(0) =~= Seq::<Seq<Position<Seq<char>>>>::empty());
}

proof fn lemma_polygons_from(
    s: Seq<char>,
    p: int,
    q: int,
    polygons: Seq<Seq<Seq<Position<Seq<char>>>>>,
    i: int,
    dim: Dim,
)
    requires
        0 <= i < polygons.len(),
        forall|k: int| 0 <= k < polygons.len() ==> are_regular_runs(#[trigger] polygons[k], dim),
        0 <= p <= q,
        ws_end(s, p) == q,
        stands(s, q, runs_text(polygons[i]) + polygons_rest(polygons, i + 1)),
    ensures
        list_from(s, p, |r: int| runs_at(s, r, said(dim)), polygons.take(i)) == Ok::<
            (Seq<Seq<Seq<Position<Seq<char>>>>>, int),
            Failure,
        >((polygons, q + runs_text(polygons[i]).len() + polygons_rest(polygons, i + 1).len())),
    decreases polygons.len() - i,
{
    let item = |r: int| runs_at(s, r, said(dim));
    let t = runs_text(polygons[i]);
    let rest = polygons_rest(polygons, i + 1);
    lemma_split(s, q, t, rest);
    let q1 = q + t.len();
    let n = polygons.len() as int;
    lemma_runs_read(s, p, q, polygons[i], dim);
    assert(item(p) == Ok::<(Seq<Seq<Position<Seq<char>>>>, int), Failure>((polygons[i], q1)));
    assert(polygons.take(i).push(polygons[i]) =~= polygons.take(i + 1));
    if i + 1 < n {
        let next = runs_text(polygons[i + 1]);
        lemma_rest_start(s, q1, i + 1, n, next, polygons_rest(polygons, i + 2));
        lemma_more(s, q1);
        lemma_split(s, q1 + 2, next, polygons_rest(polygons, i + 2));
        lemma_starts_open(s, q1 + 2, runs_rest(polygons[i + 1], 0));
        lemma_one_space(s, q1 + 1);
        lemma_polygons_from(s, q1 + 1, q1 + 2, polygons, i + 1, dim);
        assert(rest.len() == 2 + next.len() + polygons_rest(polygons, i + 2).len()) by {
            reveal_strlit(", ");
        }
    } else {
        lemma_rest_start(s, q1, i + 1, n, Seq::empty(), Seq::empty());
        lemma_more(s, q1);
        assert(polygons.take(n) =~= polygons);
        reveal_strlit(")");
    }
}

proof fn lemma_polygons_read(
    s: Seq<char>,
    p: int,
    q: int,
    polygons: Seq<Seq<Seq<Position<Seq<char>>>>>,
    dim: Dim,
)
    requires
        polygons.len() > 0,
        forall|k: int| 0 <= k < polygons.len() ==> are_regular_runs(#[trigger] polygons[k], dim),
        0 <= p <= q,
        ws_end(s, p) == q,
        stands(s, q, "("@ + polygons_rest(polygons, 0)),
    ensures
        polygons_at(s, p, said(dim)) == Ok::<(Seq<Seq<Seq<Position<Seq<char>>>>>, int), Failure>(
            (polygons, q + 1 + polygons_rest(polygons, 0).len()),
        ),
{
    reveal_strlit("(");
    lemma_starts_open(s, q, polygons_rest(polygons, 0));
    lemma_split(s, q, "("@, polygons_rest(polygons, 0));
    lemma_open(s, p, q);
    assert(polygons_rest(polygons, 0) =~= runs_text(polygons[0]) + polygons_rest(polygons, 1));
    lemma_split(s, q + 1, runs_text(polygons[0]), polygons_rest(polygons, 1));
    lemma_starts_open(s, q + 1, runs_rest(polygons[0], 0));
    lemma_polygons_from(s, q + 1, q + 1, polygons, 0, dim);
    assert(polygons.take(0) =~= Seq::<Seq<Seq<Position<Seq<char>>>>>::empty());
}

// --- the header ----------------------------------------------------------------------

spec fn is_capital(c: char) -> bool {
    'A' <= c <= 'Z'
}

proof fn lemma_keyword_letters(g: Shape<Seq<char>>)
    ensures
        keyword(g).len() > 0,
        forall|i: int| 0 <= i < keyword(g).len() ==> is_capital(#[trigger] keyword(g)[i]),
        upper_text(keyword(g)) == keyword(g),
{
    reveal_strlit("POINT");
    reveal_strlit("LINESTRING");
    reveal_strlit("POLYGON");
    reveal_strlit("MULTIPOINT");
    reveal_strlit("MULTILINESTRING");
    reveal_strlit("MULTIPOLYGON");
    reveal_strlit("GEOMETRYCOLLECTION");
    assert forall|i: int| 0 <= i < keyword(g).len() implies is_capital(#[trigger] keyword(g)[i]) by {
    }
    assert(upper_text(keyword(g)) =~= keyword(g));
}

proof fn lemma_letters_end(s: Seq<char>, q: int, r: int)
    requires
        0 <= q <= r < s.len(),
        forall|i: int| q <= i < r ==> is_letter(#[trigger] s[i]),
        !is_letter(s[r]),
    ensures
        letters_end(s, q) == r,
    decreases r - q,
{
    if q < r {
        assert(is_letter(s[q]));
        lemma_letters_end(s, q + 1, r);
    }
}

/// The keyword is read back.
proof fn lemma_keyword_reads(s: Seq<char>, p: int, q: int, g: Shape<Seq<char>>)
    requires
        0 <= p <= q,
        ws_end(s, p) == q,
        stands(s, q, keyword(g)),
        q + keyword(g).len() < s.len(),
        s[q + keyword(g).len()] == ' ',
    ensures
        keyword_at(s, p) == Ok::<(Seq<char>, int), Failure>((keyword(g), q + keyword(g).len())),
{
    let k = keyword(g);
    lemma_keyword_letters(g);
    assert forall|i: int| q <= i < q + k.len() implies is_letter(#[trigger] s[i]) by {
        lemma_at(s, q, k, i - q);
        assert(is_capital(k[i - q]));
    }
    lemma_letters_end(s, q, q + k.len());
    lemma_subrange(s, q, k);
}

/// The word for the dimensionality is read back.
proof fn lemma_dim_reads(s: Seq<char>, q: int, dim: Dim)
    requires
        stands(s, q, dim_word(dim) + " "@),
        q + dim_word(dim).len() + 1 < s.len(),
        s[q + dim_word(dim).len() + 1] == '(',
    ensures
        dim_at(s, q) matches Ok((d, r)) && d == said(dim) && q <= r <= q + dim_word(dim).len() + 1
            && ws_end(s, r) == q + dim_word(dim).len() + 1,
{
    reveal_strlit(" ");
    reveal_strlit(" Z");
    reveal_strlit(" M");
    reveal_strlit(" ZM");
    reveal_strlit("Z");
    reveal_strlit("M");
    reveal_strlit("ZM");
    let w = dim_word(dim);
    lemma_split(s, q, w, " "@);
    let r = q + w.len();
    lemma_at(s, r, " "@, 0);
    lemma_no_ws(s, r + 1);
    lemma_one_space(s, r);
    if dim.z && dim.m {
        lemma_at(s, q, w, 0);
        lemma_at(s, q, w, 1);
        lemma_at(s, q, w, 2);
        lemma_one_space(s, q);
        assert(dim_end(s, q + 3) == q + 3);
        assert(dim_end(s, q + 2) == q + 3);
        assert(dim_end(s, q + 1) == q + 3);
        assert(upper_text(s.subrange(q + 1, q + 3)) =~= "ZM"@);
        assert("ZM"@.len() != "Z"@.len());
    } else if dim.z || dim.m {
        lemma_at(s, q, w, 0);
        lemma_at(s, q, w, 1);
        lemma_one_space(s, q);
        assert(dim_end(s, q + 2) == q + 2);
        assert(dim_end(s, q + 1) == q + 2);
        if dim.z {
            assert(upper_text(s.subrange(q + 1, q + 2)) =~= "Z"@);
        } else {
            assert(upper_text(s.subrange(q + 1, q + 2)) =~= "M"@);
            assert("Z"@[0] != "M"@[0]);
        }
    } else {
        assert(dim_end(s, r + 1) == r + 1);
        assert(s.subrange(r + 1, r + 1) =~= Seq::<char>::empty());
    }
}

proof fn lemma_keywords_differ()
    ensures
        "POINT"@ != "LINESTRING"@,
        "POINT"@ != "POLYGON"@,
        "POINT"@ != "MULTIPOINT"@,
        "POINT"@ != "MULTILINESTRING"@,
        "POINT"@ != "MULTIPOLYGON"@,
        "POINT"@ != "GEOMETRYCOLLECTION"@,
        "LINESTRING"@ != "POLYGON"@,
        "LINESTRING"@ != "MULTIPOINT"@,
        "LINESTRING"@ != "MULTILINESTRING"@,
        "LINESTRING"@ != "MULTIPOLYGON"@,
        "LINESTRING"@ != "GEOMETRYCOLLECTION"@,
        "POLYGON"@ != "MULTIPOINT"@,
        "POLYGON"@ != "MULTILINESTRING"@,
        "POLYGON"@ != "MULTIPOLYGON"@,
        "POLYGON"@ != "GEOMETRYCOLLECTION"@,
        "MULTIPOINT"@ != "MULTILINESTRING"@,
        "MULTIPOINT"@ != "MULTIPOLYGON"@,
        "MULTIPOINT"@ != "GEOMETRYCOLLECTION"@,
        "MULTILINESTRING"@ != "MULTIPOLYGON"@,
        "MULTILINESTRING"@ != "GEOMETRYCOLLECTION"@,
        "MULTIPOLYGON"@ != "GEOMETRYCOLLECTION"@,
{
    reveal_strlit("POINT");
    reveal_strlit("LINESTRING");
    reveal_strlit("POLYGON");
    reveal_strlit("MULTIPOINT");
    reveal_strlit("MULTILINESTRING");
    reveal_strlit("MULTIPOLYGON");
    reveal_strlit("GEOMETRYCOLLECTION");
    assert("POINT"@.len() == 5);
    assert("LINESTRING"@.len() == 10);
    assert("POLYGON"@.len() == 7);
    assert("MULTIPOINT"@.len() == 10);
    assert("MULTILINESTRING"@.len() == 15);
    assert("MULTIPOLYGON"@.len() == 12);
    assert("GEOMETRYCOLLECTION"@.len() == 18);
    assert("LINESTRING"@[0] == 'L');
    assert("MULTIPOINT"@[0] == 'M');
}

/// What stands in the brackets starts with one.
proof fn lemma_body_opens(g: Shape<Seq<char>>) -> (t: Seq<char>)
    ensures
        body_text(g) == "("@ + t,
{
    match g {
        Shape::Point(c) => {
            let t = coord_text(c) + ")"@;
            assert(body_text(g) =~= "("@ + t);
            t
        },
        Shape::LineString(run) => run_rest(run, 0),
        Shape::MultiPoint(run) => run_rest(run, 0),
        Shape::Polygon(rings) => runs_rest(rings, 0),
        Shape::MultiLineString(lines) => runs_rest(lines, 0),
        Shape::MultiPolygon(polygons) => polygons_rest(polygons, 0),
        Shape::GeometryCollection(parts) => parts_rest(parts, 0),
    }
}

/// The point in brackets is read back.
proof fn lemma_point_reads(s: Seq<char>, p: int, q: int, c: Position<Seq<char>>)
    requires
        is_regular(c, dim_of(c)),
        0 <= p <= q,
        ws_end(s, p) == q,
        stands(s, q, "("@ + coord_text(c) + ")"@),
    ensures
        bracketed_at(s, p, said(dim_of(c))) == Ok::<(Position<Seq<char>>, int), Failure>(
            (c, q + 2 + coord_text(c).len()),
        ),
{
    reveal_strlit("(");
    reveal_strlit(")");
    let t = coord_text(c);
    lemma_split(s, q, "("@ + t, ")"@);
    lemma_split(s, q, "("@, t);
    lemma_at(s, q, "("@, 0);
    lemma_open(s, p, q);
    let q1 = q + 1 + t.len();
    lemma_at(s, q1, ")"@, 0);
    lemma_starts_number(s, q + 1, c);
    lemma_no_ws(s, q + 1);
    lemma_coord_reads(s, q + 1, q + 1, c, dim_of(c));
    lemma_no_ws(s, q1);
}

/// Where the parts of a geometry's text stand: the keyword is read back, then the
/// dimensionality, and then the brackets open.
proof fn lemma_header_reads(s: Seq<char>, p: int, q: int, g: Shape<Seq<char>>) -> (r: (int, int))
    requires
        0 <= p <= q,
        ws_end(s, p) == q,
        stands(s, q, wkt_text(g)),
    ensures
        keyword_at(s, p) == Ok::<(Seq<char>, int), Failure>((keyword(g), q + keyword(g).len())),
        dim_at(s, q + keyword(g).len()) == Ok::<(Option<Dim>, int), Failure>(
            (said(shape_dim(g)), r.0),
        ),
        p <= q <= r.0 <= r.1,
        p < r.0,
        ws_end(s, r.0) == r.1,
        stands(s, r.1, body_text(g)),
        r.1 + body_text(g).len() == q + wkt_text(g).len(),
        r.1 < s.len(),
        s[r.1] == '(',
{
    reveal_strlit(" ");
    let k = keyword(g);
    let w = dim_word(shape_dim(g));
    let t = lemma_body_opens(g);
    let body = body_text(g);
    lemma_keyword_letters(g);
    assert(wkt_text(g) =~= k + ((w + " "@) + body));
    lemma_split(s, q, k, (w + " "@) + body);
    let q1 = q + k.len();
    lemma_split(s, q1, w + " "@, body);
    let q2 = q1 + w.len() + 1;
    lemma_at(s, q1, w + " "@, 0);
    assert((w + " "@)[0] == ' ') by {
        reveal_strlit(" Z");
        reveal_strlit(" M");
        reveal_strlit(" ZM");
    }
    lemma_starts_open(s, q2, t);
    lemma_keyword_reads(s, p, q, g);
    lemma_dim_reads(s, q1, shape_dim(g));
    ((dim_at(s, q1)->Ok_0).1, q2)
}

/// What stands in the brackets of a geometry that is no collection is read back.
#[verifier::spinoff_prover]
#[verifier::rlimit(100)]
proof fn lemma_shape_reads(s: Seq<char>, p: int, q: int, g: Shape<Seq<char>>)
    requires
        is_regular_shape(g),
        !(g is GeometryCollection),
        0 <= p <= q,
        ws_end(s, p) == q,
        stands(s, q, wkt_text(g)),
    ensures
        shape_at(s, p) == Ok::<(Shape<Seq<char>>, int), Failure>((g, q + wkt_text(g).len())),
{
    let (p2, q2) = lemma_header_reads(s, p, q, g);
    lemma_keywords_differ();
    match g {
        Shape::Point(c) => {
            reveal_strlit("(");
            reveal_strlit(")");
            lemma_point_reads(s, p2, q2, c);
        },
        Shape::LineString(run) => lemma_run_reads(s, p2, q2, run, run_dim(run), true),
        Shape::MultiPoint(run) => lemma_run_reads(s, p2, q2, run, run_dim(run), false),
        Shape::Polygon(rings) => lemma_runs_read(s, p2, q2, rings, runs_dim(rings)),
        Shape::MultiLineString(lines) => lemma_runs_read(s, p2, q2, lines, runs_dim(lines)),
        Shape::MultiPolygon(polygons) => {
            reveal_strlit("(");
            lemma_polygons_read(s, p2, q2, polygons, polygons_dim(polygons));
        },
        Shape::GeometryCollection(_) => {},
    }
}

/// A collection is what its members are read as.
proof fn lemma_collection_reads(
    s: Seq<char>,
    p: int,
    q: int,
    parts: Seq<Shape<Seq<char>>>,
    p2: int,
    q2: int,
    end: int,
)
    requires
        ({
            let g = Shape::GeometryCollection(parts);
            &&& keyword_at(s, p) == Ok::<(Seq<char>, int), Failure>(
                (keyword(g), q + keyword(g).len()),
            )
            &&& dim_at(s, q + keyword(g).len()) == Ok::<(Option<Dim>, int), Failure>(
                (said(shape_dim(g)), p2),
            )
        }),
        0 <= p < p2 <= q2 < s.len(),
        ws_end(s, p2) == q2,
        s[q2] == '(',
        parts_from(s, q2 + 1, Seq::empty()) == Ok::<(Seq<Shape<Seq<char>>>, int), Failure>(
            (parts, end),
        ),
    ensures
        shape_at(s, p) == Ok::<(Shape<Seq<char>>, int), Failure>(
            (Shape::GeometryCollection(parts), end),
        ),
{
    lemma_keywords_differ();
    lemma_open(s, p2, q2);
}

/// A geometry's text that stands somewhere is read back there.
#[verifier::spinoff_prover]
#[verifier::rlimit(60)]
pub proof fn law_wkt_reads_back_in_place(s: Seq<char>, p: int, q: int, g: Shape<Seq<char>>)
    requires
        is_regular_shape(g),
        0 <= p <= q,
        ws_end(s, p) == q,
        stands(s, q, wkt_text(g)),
    ensures
        shape_at(s, p) == Ok::<(Shape<Seq<char>>, int), Failure>((g, q + wkt_text(g).len())),
    decreases g, 0nat, 1nat,
{
    if let Shape::GeometryCollection(parts) = g {
        let (p2, q2) = lemma_header_reads(s, p, q, g);
        reveal_strlit("(");
        let first = wkt_text(parts[0]);
        lemma_split(s, q2, "("@, parts_rest(parts, 0));
        assert(parts_rest(parts, 0) =~= first + parts_rest(parts, 1));
        lemma_split(s, q2 + 1, first, parts_rest(parts, 1));
        lemma_starts_keyword(s, q2 + 1, parts[0]);
        lemma_parts_from(s, q2 + 1, q2 + 1, parts, 0);
        assert(parts.take(0) =~= Seq::<Shape<Seq<char>>>::empty());
        lemma_collection_reads(s, p, q, parts, p2, q2, q2 + 1 + parts_rest(parts, 0).len());
    } else {
        lemma_shape_reads(s, p, q, g);
    }
}

proof fn lemma_starts_keyword(s: Seq<char>, q: int, g: Shape<Seq<char>>)
    requires
        stands(s, q, wkt_text(g)),
    ensures
        q < s.len(),
        !is_ascii_white(s[q]),
        ws_end(s, q) == q,
{
    lemma_keyword_letters(g);
    assert(wkt_text(g) =~= keyword(g) + ((dim_word(shape_dim(g)) + " "@) + body_text(g)));
    lemma_split(s, q, keyword(g), (dim_word(shape_dim(g)) + " "@) + body_text(g));
    lemma_at(s, q, keyword(g), 0);
    assert(is_capital(keyword(g)[0]));
    lemma_no_ws(s, q);
}

/// One member is read, and what follows it decides how reading goes on.
proof fn lemma_part_step(
    s: Seq<char>,
    p: int,
    so_far: Seq<Shape<Seq<char>>>,
    v: Shape<Seq<char>>,
    q: int,
)
    requires
        shape_at(s, p) == Ok::<(Shape<Seq<char>>, int), Failure>((v, q)),
        0 <= p < q < s.len(),
        s[q] == ',' || s[q] == ')',
    ensures
        s[q] == ',' ==> parts_from(s, p, so_far) == parts_from(s, q + 1, so_far.push(v)),
        s[q] == ')' ==> parts_from(s, p, so_far) == Ok::<(Seq<Shape<Seq<char>>>, int), Failure>(
            (so_far.push(v), q + 1),
        ),
{
    lemma_more(s, q);
}

/// What stands after the `i`th member of a collection.
proof fn lemma_parts_step(s: Seq<char>, q: int, parts: Seq<Shape<Seq<char>>>, i: int)
    requires
        0 <= i < parts.len(),
        stands(s, q, parts_rest(parts, i + 1)),
    ensures
        0 <= q < s.len(),
        i + 1 == parts.len() ==> s[q] == ')' && parts_rest(parts, i + 1).len() == 1,
        i + 1 < parts.len() ==> {
            &&& s[q] == ','
            &&& q + 2 < s.len()
            &&& s[q + 1] == ' '
            &&& ws_end(s, q + 1) == q + 2
            &&& stands(s, q + 2, wkt_text(parts[i + 1]) + parts_rest(parts, i + 2))
            &&& parts_rest(parts, i + 1).len() == 2 + wkt_text(parts[i + 1]).len() + parts_rest(
                parts,
                i + 2,
            ).len()
        },
{
    let n = parts.len() as int;
    reveal_strlit(")");
    reveal_strlit(", ");
    if i + 1 < n {
        let next = wkt_text(parts[i + 1]);
        lemma_rest_start(s, q, i + 1, n, next, parts_rest(parts, i + 2));
        lemma_split(s, q + 2, next, parts_rest(parts, i + 2));
        lemma_starts_keyword(s, q + 2, parts[i + 1]);
        lemma_one_space(s, q + 1);
    } else {
        lemma_rest_start(s, q, i + 1, n, Seq::empty(), Seq::empty());
    }
}

#[verifier::spinoff_prover]
#[verifier::rlimit(60)]
proof fn lemma_parts_from(s: Seq<char>, p: int, q: int, parts: Seq<Shape<Seq<char>>>, i: int)
    requires
        0 <= i < parts.len(),
        forall|k: int| 0 <= k < parts.len() ==> is_regular_shape(#[trigger] parts[k]),
        0 <= p <= q,
        ws_end(s, p) == q,
        stands(s, q, wkt_text(parts[i]) + parts_rest(parts, i + 1)),
    ensures
        parts_from(s, p, parts.take(i)) == Ok::<(Seq<Shape<Seq<char>>>, int), Failure>(
            (parts, q + wkt_text(parts[i]).len() + parts_rest(parts, i + 1).len()),
        ),
    decreases parts, (parts.len() - i) as nat, 0nat,
{
    let t = wkt_text(parts[i]);
    let rest = parts_rest(parts, i + 1);
    let q1 = q + t.len();
    let n = parts.len() as int;
    lemma_split(s, q, t, rest);
    lemma_parts_step(s, q1, parts, i);
    law_wkt_reads_back_in_place(s, p, q, parts[i]);
    assert(t.len() > 0) by {
        lemma_keyword_letters(parts[i]);
    }
    lemma_part_step(s, p, parts.take(i), parts[i], q1);
    assert(parts.take(i).push(parts[i]) =~= parts.take(i + 1));
    if i + 1 < n {
        lemma_parts_from(s, q1 + 1, q1 + 2, parts, i + 1);
    } else {
        assert(parts.take(n) =~= parts);
    }
}

/// Reading a geometry's text gives the geometry back.
pub proof fn law_wkt_round_trip(g: Shape<Seq<char>>)
    requires
        is_regular_shape(g),
    ensures
        decoded(wkt_text(g)) == Ok::<Shape<Seq<char>>, Failure>(g),
{
    let s = wkt_text(g);
    assert(stands(s, 0, wkt_text(g))) by {
        reveal(stands);
    }
    lemma_starts_keyword(s, 0, g);
    law_wkt_reads_back_in_place(s, 0, 0, g);
}

// --- lines ---------------------------------------------------------------------------------

/// Whether a text is within one line.
pub open spec fn is_one_line(t: Seq<char>) -> bool {
    forall|i: int| 0 <= i < t.len() ==> #[trigger] t[i] != '\n'
}

proof fn lemma_lines_join(a: Seq<char>, b: Seq<char>)
    requires
        is_one_line(a),
        is_one_line(b),
    ensures
        is_one_line(a + b),
{
    assert forall|i: int| 0 <= i < (a + b).len() implies #[trigger] (a + b)[i] != '\n' by {
        if i < a.len() {
            assert((a + b)[i] == a[i]);
        } else {
            assert((a + b)[i] == b[i - a.len()]);
        }
    }
}

proof fn lemma_marks_are_one_line()
    ensures
        is_one_line(" "@),
        is_one_line("("@),
        is_one_line(")"@),
        is_one_line(", "@),
        is_one_line(" ZM"@),
        is_one_line(" Z"@),
        is_one_line(" M"@),
        ")"@.len() == 1,
        ")"@[0] == ')',
{
    reveal_strlit(" ");
    reveal_strlit("(");
    reveal_strlit(")");
    reveal_strlit(", ");
    reveal_strlit(" ZM");
    reveal_strlit(" Z");
    reveal_strlit(" M");
}

proof fn lemma_plain_is_one_line(t: Seq<char>)
    requires
        is_plain(t),
    ensures
        is_one_line(unsigned_plain(t)),
{
    assert forall|i: int| 0 <= i < t.len() implies #[trigger] t[i] != '\n' by {
        assert(is_number_mark(t[i]));
    }
}

proof fn lemma_coord_is_one_line(p: Position<Seq<char>>, dim: Dim)
    requires
        is_regular(p, dim),
    ensures
        is_one_line(coord_text(p)),
{
    lemma_marks_are_one_line();
    lemma_plain_is_one_line(p.x);
    lemma_plain_is_one_line(p.y);
    lemma_further_is_one_line(p.z);
    lemma_further_is_one_line(p.m);
    lemma_lines_join(unsigned_plain(p.x), " "@);
    lemma_lines_join(unsigned_plain(p.x) + " "@, unsigned_plain(p.y));
    lemma_lines_join(unsigned_plain(p.x) + " "@ + unsigned_plain(p.y), further_text(p.z));
    lemma_lines_join(
        unsigned_plain(p.x) + " "@ + unsigned_plain(p.y) + further_text(p.z),
        further_text(p.m),
    );
}

proof fn lemma_further_is_one_line(o: Option<Seq<char>>)
    requires
        is_plain_option(o),
    ensures
        is_one_line(further_text(o)),
{
    if let Some(t) = o {
        lemma_marks_are_one_line();
        lemma_plain_is_one_line(t);
        lemma_lines_join(" "@, unsigned_plain(t));
    }
}

/// An item of a list, with what stands before and behind it.
proof fn lemma_item_is_one_line(i: int, item: Seq<char>, rest: Seq<char>)
    requires
        is_one_line(item),
        is_one_line(rest),
        rest.len() > 0,
        rest.last() == ')',
    ensures
        is_one_line(separator(i) + item + rest),
        (separator(i) + item + rest).len() > 0,
        (separator(i) + item + rest).last() == ')',
{
    lemma_marks_are_one_line();
    lemma_lines_join(separator(i), item);
    lemma_lines_join(separator(i) + item, rest);
}

proof fn lemma_run_is_one_line(run: Seq<Position<Seq<char>>>, dim: Dim, i: int)
    requires
        is_regular_run(run, dim),
        0 <= i <= run.len(),
    ensures
        is_one_line(run_rest(run, i)),
        run_rest(run, i).len() > 0,
        run_rest(run, i).last() == ')',
    decreases run.len() - i,
{
    lemma_marks_are_one_line();
    if i < run.len() {
        lemma_run_is_one_line(run, dim, i + 1);
        lemma_coord_is_one_line(run[i], dim);
        lemma_item_is_one_line(i, coord_text(run[i]), run_rest(run, i + 1));
    }
}

/// A bracket in front of what ends with one.
proof fn lemma_open_is_one_line(rest: Seq<char>)
    requires
        is_one_line(rest),
        rest.len() > 0,
        rest.last() == ')',
    ensures
        is_one_line("("@ + rest),
        ("("@ + rest).len() > 0,
        ("("@ + rest).last() == ')',
{
    lemma_marks_are_one_line();
    lemma_lines_join("("@, rest);
}

proof fn lemma_runs_are_one_line(runs: Seq<Seq<Position<Seq<char>>>>, dim: Dim, i: int)
    requires
        are_regular_runs(runs, dim),
        0 <= i <= runs.len(),
    ensures
        is_one_line(runs_rest(runs, i)),
        runs_rest(runs, i).len() > 0,
        runs_rest(runs, i).last() == ')',
    decreases runs.len() - i,
{
    lemma_marks_are_one_line();
    if i < runs.len() {
        lemma_runs_are_one_line(runs, dim, i + 1);
        assert(is_regular_run(runs[i], dim));
        lemma_run_is_one_line(runs[i], dim, 0);
        lemma_open_is_one_line(run_rest(runs[i], 0));
        lemma_item_is_one_line(i, run_text(runs[i]), runs_rest(runs, i + 1));
    }
}

proof fn lemma_polygons_are_one_line(
    polygons: Seq<Seq<Seq<Position<Seq<char>>>>>,
    dim: Dim,
    i: int,
)
    requires
        forall|k: int| 0 <= k < polygons.len() ==> are_regular_runs(#[trigger] polygons[k], dim),
        0 <= i <= polygons.len(),
    ensures
        is_one_line(polygons_rest(polygons, i)),
        polygons_rest(polygons, i).len() > 0,
        polygons_rest(polygons, i).last() == ')',
    decreases polygons.len() - i,
{
    lemma_marks_are_one_line();
    if i < polygons.len() {
        lemma_polygons_are_one_line(polygons, dim, i + 1);
        assert(are_regular_runs(polygons[i], dim));
        lemma_runs_are_one_line(polygons[i], dim, 0);
        lemma_open_is_one_line(runs_rest(polygons[i], 0));
        lemma_item_is_one_line(i, runs_text(polygons[i]), polygons_rest(polygons, i + 1));
    }
}

proof fn lemma_header_is_one_line(g: Shape<Seq<char>>)
    ensures
        is_one_line(header_text(g)),
        header_text(g).len() > 0,
        is_capital(header_text(g)[0]),
{
    lemma_marks_are_one_line();
    lemma_keyword_letters(g);
    assert forall|i: int| 0 <= i < keyword(g).len() implies #[trigger] keyword(g)[i] != '\n' by {
        assert(is_capital(keyword(g)[i]));
    }
    assert(is_capital(keyword(g)[0]));
    lemma_lines_join(keyword(g), dim_word(shape_dim(g)));
    lemma_lines_join(keyword(g) + dim_word(shape_dim(g)), " "@);
}

proof fn lemma_body_is_one_line(g: Shape<Seq<char>>)
    requires
        is_regular_shape(g),
    ensures
        is_one_line(body_text(g)),
        body_text(g).len() > 0,
        body_text(g).last() == ')',
    decreases g, 0nat, 1nat,
{
    lemma_marks_are_one_line();
    match g {
        Shape::Point(p) => {
            lemma_coord_is_one_line(p, dim_of(p));
            lemma_lines_join("("@, coord_text(p));
            lemma_lines_join("("@ + coord_text(p), ")"@);
        },
        Shape::LineString(run) => {
            lemma_run_is_one_line(run, run_dim(run), 0);
            lemma_open_is_one_line(run_rest(run, 0));
        },
        Shape::MultiPoint(run) => {
            lemma_run_is_one_line(run, run_dim(run), 0);
            lemma_open_is_one_line(run_rest(run, 0));
        },
        Shape::Polygon(rings) => {
            lemma_runs_are_one_line(rings, runs_dim(rings), 0);
            lemma_open_is_one_line(runs_rest(rings, 0));
        },
        Shape::MultiLineString(lines) => {
            lemma_runs_are_one_line(lines, runs_dim(lines), 0);
            lemma_open_is_one_line(runs_rest(lines, 0));
        },
        Shape::MultiPolygon(polygons) => {
            lemma_polygons_are_one_line(polygons, polygons_dim(polygons), 0);
            lemma_open_is_one_line(polygons_rest(polygons, 0));
        },
        Shape::GeometryCollection(parts) => {
            lemma_parts_are_one_line(parts, 0);
            lemma_open_is_one_line(parts_rest(parts, 0));
        },
    }
}

proof fn lemma_parts_are_one_line(parts: Seq<Shape<Seq<char>>>, i: int)
    requires
        forall|k: int| 0 <= k < parts.len() ==> is_regular_shape(#[trigger] parts[k]),
        0 <= i <= parts.len(),
    ensures
        is_one_line(parts_rest(parts, i)),
        parts_rest(parts, i).len() > 0,
        parts_rest(parts, i).last() == ')',
    decreases parts, (parts.len() - i) as nat, 0nat,
{
    lemma_marks_are_one_line();
    if i < parts.len() {
        lemma_parts_are_one_line(parts, i + 1);
        assert(is_regular_shape(parts[i]));
        lemma_body_is_one_line(parts[i]);
        lemma_header_is_one_line(parts[i]);
        lemma_lines_join(header_text(parts[i]), body_text(parts[i]));
        lemma_item_is_one_line(
            i,
            header_text(parts[i]) + body_text(parts[i]),
            parts_rest(parts, i + 1),
        );
    }
}

/// A geometry's text is within one line, and has no white space around it.
pub proof fn law_wkt_is_one_line(g: Shape<Seq<char>>)
    requires
        is_regular_shape(g),
    ensures
        is_one_line(wkt_text(g)),
        wkt_text(g).len() > 0,
        trimmed(wkt_text(g)) == wkt_text(g),
{
    lemma_header_is_one_line(g);
    lemma_body_is_one_line(g);
    lemma_lines_join(header_text(g), body_text(g));
    let t = wkt_text(g);
    assert(t[0] == header_text(g)[0]);
    assert(t.last() == body_text(g).last());
    assert(!is_white(t[0]));
    assert(!is_white(t.last()));
}

} // verus!
