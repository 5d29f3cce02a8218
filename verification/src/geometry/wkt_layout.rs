//! How a geometry is laid out as text.
use vstd::prelude::*;

use super::wkt::{
    coord_text, header_text, keyword, parts_rest, polygons_rest, run_rest, run_text, runs_rest,
    runs_text, separator, shape_dim, wkt_text,
};
use super::{Position, Shape};
use crate::decimal::unsigned_plain;

verus! {

/// Texts with a comma and a space between them.
pub open spec fn listed(items: Seq<Seq<char>>) -> Seq<char>
    decreases items.len(),
{
    if items.len() == 0 {
        Seq::empty()
    } else if items.len() == 1 {
        items[0]
    } else {
        listed(items.drop_last()) + seq![',', ' '] + items.last()
    }
}

/// A list in brackets.
pub open spec fn bracketed(items: Seq<Seq<char>>) -> Seq<char> {
    seq!['('] + listed(items) + seq![')']
}

/// The ordinates of a position with spaces between them: x, y, the height and the measure.
pub open spec fn ordinates(p: Position<Seq<char>>) -> Seq<char> {
    unsigned_plain(p.x) + seq![' '] + unsigned_plain(p.y) + (match p.z {
        Some(z) => seq![' '] + unsigned_plain(z),
        None => Seq::empty(),
    }) + (match p.m {
        Some(m) => seq![' '] + unsigned_plain(m),
        None => Seq::empty(),
    })
}

/// A run in brackets.
pub open spec fn run_laid_out(run: Seq<Position<Seq<char>>>) -> Seq<char> {
    bracketed(run.map_values(|p: Position<Seq<char>>| ordinates(p)))
}

/// Runs in brackets.
pub open spec fn runs_laid_out(runs: Seq<Seq<Position<Seq<char>>>>) -> Seq<char> {
    bracketed(runs.map_values(|r: Seq<Position<Seq<char>>>| run_laid_out(r)))
}

/// The word for the ordinates that positions have besides x and y.
pub open spec fn further(z: bool, m: bool) -> Seq<char> {
    if z && m {
        seq![' ', 'Z', 'M', ' ']
    } else if z {
        seq![' ', 'Z', ' ']
    } else if m {
        seq![' ', 'M', ' ']
    } else {
        seq![' ']
    }
}

proof fn lemma_listed_first(items: Seq<Seq<char>>)
    requires
        items.len() > 1,
    ensures
        listed(items) == items[0] + seq![',', ' '] + listed(items.drop_first()),
    decreases items.len(),
{
    let rest = items.drop_first();
    if items.len() == 2 {
        assert(items.drop_last() =~= seq![items[0]]);
        assert(listed(rest) == items[1]);
        assert(listed(items.drop_last()) == items[0]);
    } else {
        lemma_listed_first(items.drop_last());
        assert(items.drop_last().drop_first() =~= rest.drop_last());
        assert(listed(items) =~= items[0] + seq![',', ' '] + listed(rest));
    }
}

/// What is listed from a place on is the text there and what is listed behind it.
proof fn lemma_listed_from(items: Seq<Seq<char>>, i: int)
    requires
        0 <= i < items.len(),
    ensures
        listed(items.skip(i)) == if i == items.len() - 1 {
            items[i]
        } else {
            items[i] + seq![',', ' '] + listed(items.skip(i + 1))
        },
{
    let s = items.skip(i);
    assert(s[0] == items[i]);
    if s.len() > 1 {
        lemma_listed_first(s);
        assert(s.drop_first() =~= items.skip(i + 1));
    }
}

proof fn lemma_marks()
    ensures
        "("@ == seq!['('],
        ")"@ == seq![')'],
        " "@ == seq![' '],
        ", "@ == seq![',', ' '],
        " Z"@ == seq![' ', 'Z'],
        " M"@ == seq![' ', 'M'],
        " ZM"@ == seq![' ', 'Z', 'M'],
{
    reveal_strlit("(");
    reveal_strlit(")");
    reveal_strlit(" ");
    reveal_strlit(", ");
    reveal_strlit(" Z");
    reveal_strlit(" M");
    reveal_strlit(" ZM");
    assert("("@ =~= seq!['(']);
    assert(")"@ =~= seq![')']);
    assert(" "@ =~= seq![' ']);
    assert(", "@ =~= seq![',', ' ']);
    assert(" Z"@ =~= seq![' ', 'Z']);
    assert(" M"@ =~= seq![' ', 'M']);
    assert(" ZM"@ =~= seq![' ', 'Z', 'M']);
}

proof fn lemma_ordinates(p: Position<Seq<char>>)
    ensures
        coord_text(p) == ordinates(p),
{
    lemma_marks();
}

/// What stands between the items before the `i`th, that item, and what follows.
spec fn from_place(items: Seq<Seq<char>>, i: int) -> Seq<char> {
    if i >= items.len() {
        seq![')']
    } else {
        separator(i) + listed(items.skip(i)) + seq![')']
    }
}

proof fn lemma_step(items: Seq<Seq<char>>, i: int)
    requires
        0 <= i < items.len(),
    ensures
        from_place(items, i) == separator(i) + items[i] + from_place(items, i + 1),
{
    lemma_marks();
    lemma_listed_from(items, i);
    if i < items.len() - 1 {
        let rest = listed(items.skip(i + 1));
        assert(separator(i) + (items[i] + seq![',', ' '] + rest) + seq![')'] =~= separator(i)
            + items[i] + (seq![',', ' '] + rest + seq![')']));
    }
}

proof fn lemma_whole(items: Seq<Seq<char>>)
    ensures
        seq!['('] + from_place(items, 0) == bracketed(items),
{
    if items.len() > 0 {
        assert(items.skip(0) =~= items);
        assert(seq!['('] + (separator(0) + listed(items) + seq![')']) =~= bracketed(items));
    } else {
        assert(seq!['('] + seq![')'] =~= bracketed(items));
    }
}

proof fn lemma_run_from(run: Seq<Position<Seq<char>>>, i: int)
    requires
        0 <= i <= run.len(),
    ensures
        run_rest(run, i) == from_place(
            run.map_values(|p: Position<Seq<char>>| ordinates(p)),
            i,
        ),
    decreases run.len() - i,
{
    let items = run.map_values(|p: Position<Seq<char>>| ordinates(p));
    lemma_marks();
    if i < run.len() {
        lemma_run_from(run, i + 1);
        lemma_ordinates(run[i]);
        lemma_step(items, i);
    }
}

proof fn lemma_run(run: Seq<Position<Seq<char>>>)
    ensures
        run_text(run) == run_laid_out(run),
{
    lemma_marks();
    lemma_run_from(run, 0);
    lemma_whole(run.map_values(|p: Position<Seq<char>>| ordinates(p)));
}

proof fn lemma_runs_from(runs: Seq<Seq<Position<Seq<char>>>>, i: int)
    requires
        0 <= i <= runs.len(),
    ensures
        runs_rest(runs, i) == from_place(
            runs.map_values(|r: Seq<Position<Seq<char>>>| run_laid_out(r)),
            i,
        ),
    decreases runs.len() - i,
{
    let items = runs.map_values(|r: Seq<Position<Seq<char>>>| run_laid_out(r));
    lemma_marks();
    if i < runs.len() {
        lemma_runs_from(runs, i + 1);
        lemma_run(runs[i]);
        lemma_step(items, i);
    }
}

proof fn lemma_runs(runs: Seq<Seq<Position<Seq<char>>>>)
    ensures
        runs_text(runs) == runs_laid_out(runs),
{
    lemma_marks();
    lemma_runs_from(runs, 0);
    lemma_whole(runs.map_values(|r: Seq<Position<Seq<char>>>| run_laid_out(r)));
}

proof fn lemma_polygons_from(polygons: Seq<Seq<Seq<Position<Seq<char>>>>>, i: int)
    requires
        0 <= i <= polygons.len(),
    ensures
        polygons_rest(polygons, i) == from_place(
            polygons.map_values(|r: Seq<Seq<Position<Seq<char>>>>| runs_laid_out(r)),
            i,
        ),
    decreases polygons.len() - i,
{
    let items = polygons.map_values(|r: Seq<Seq<Position<Seq<char>>>>| runs_laid_out(r));
    lemma_marks();
    if i < polygons.len() {
        lemma_polygons_from(polygons, i + 1);
        lemma_runs(polygons[i]);
        lemma_step(items, i);
    }
}

proof fn lemma_parts_from(parts: Seq<Shape<Seq<char>>>, i: int)
    requires
        0 <= i <= parts.len(),
    ensures
        parts_rest(parts, i) == from_place(
            parts.map_values(|s: Shape<Seq<char>>| wkt_text(s)),
            i,
        ),
    decreases parts.len() - i,
{
    let items = parts.map_values(|s: Shape<Seq<char>>| wkt_text(s));
    lemma_marks();
    if i < parts.len() {
        lemma_parts_from(parts, i + 1);
        lemma_step(items, i);
    }
}

/// A geometry is laid out as the name of its kind, the word for its further ordinates, and
/// its parts in brackets.
pub proof fn law_text_is_laid_out(s: Shape<Seq<char>>)
    ensures
        ({
            let d = shape_dim(s);
            let mark = further(d.z, d.m);
            wkt_text(s) == match s {
                Shape::Point(p) => "POINT"@ + mark + bracketed(seq![ordinates(p)]),
                Shape::LineString(run) => "LINESTRING"@ + mark + run_laid_out(run),
                Shape::Polygon(rings) => "POLYGON"@ + mark + runs_laid_out(rings),
                Shape::MultiPoint(run) => "MULTIPOINT"@ + mark + run_laid_out(run),
                Shape::MultiLineString(lines) => "MULTILINESTRING"@ + mark + runs_laid_out(lines),
                Shape::MultiPolygon(polygons) => "MULTIPOLYGON"@ + mark + bracketed(
                    polygons.map_values(|r: Seq<Seq<Position<Seq<char>>>>| runs_laid_out(r)),
                ),
                Shape::GeometryCollection(parts) => "GEOMETRYCOLLECTION"@ + mark + bracketed(
                    parts.map_values(|p: Shape<Seq<char>>| wkt_text(p)),
                ),
            }
        }),
{
    let d = shape_dim(s);
    lemma_marks();
    assert(header_text(s) =~= keyword(s) + further(d.z, d.m));
    match s {
        Shape::Point(p) => {
            lemma_ordinates(p);
            assert(listed(seq![ordinates(p)]) == ordinates(p));
        },
        Shape::LineString(run) => {
            lemma_run(run);
        },
        Shape::MultiPoint(run) => {
            lemma_run(run);
        },
        Shape::Polygon(rings) => {
            lemma_runs(rings);
        },
        Shape::MultiLineString(lines) => {
            lemma_runs(lines);
        },
        Shape::MultiPolygon(polygons) => {
            lemma_polygons_from(polygons, 0);
            lemma_whole(
                polygons.map_values(|r: Seq<Seq<Position<Seq<char>>>>| runs_laid_out(r)),
            );
        },
        Shape::GeometryCollection(parts) => {
            lemma_parts_from(parts, 0);
            lemma_whole(parts.map_values(|p: Shape<Seq<char>>| wkt_text(p)));
        },
    }
}

} // verus!
