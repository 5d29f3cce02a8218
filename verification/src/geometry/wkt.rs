//! Well-Known Text.
//!
//! A geometry's dimensionality is read off its first position and written as
//! the word `Z`, `M` or `ZM`. Text without such a word can still have further
//! ordinates: the first one is then Z and the second one M. Ordinates are
//! texts of numbers; they are written plainly.
use vstd::prelude::*;

use super::lemma_collection_view;
use super::polygons_view;
use super::run_view;
use super::runs_view;
use super::shapes_view;
use super::wkb::Dim;
use super::Geometry;
use super::Position;
use super::Shape;
use crate::decimal::plain_unsigned;
use crate::decimal::unsigned_plain;
use crate::error::Error;
use crate::error::Failure;
use crate::number::is_float;
use crate::number::is_float_text;
use crate::text::ascii_white;
use crate::text::chars_of;
use crate::text::is_ascii_white;
use crate::text::same_text;
use crate::text::text_between;
use crate::text::upper_between;
use crate::text::upper_text;

verus! {

// --- the text ------------------------------------------------------------------------

/// The dimensionality of a position.
pub open spec fn dim_of(p: Position<Seq<char>>) -> Dim {
    Dim { z: p.z is Some, m: p.m is Some }
}

/// The dimensionality of a run: that of its first position.
pub open spec fn run_dim(run: Seq<Position<Seq<char>>>) -> Dim {
    if run.len() > 0 {
        dim_of(run[0])
    } else {
        Dim { z: false, m: false }
    }
}

/// The dimensionality of a list of runs: that of its first run.
pub open spec fn runs_dim(runs: Seq<Seq<Position<Seq<char>>>>) -> Dim {
    if runs.len() > 0 {
        run_dim(runs[0])
    } else {
        Dim { z: false, m: false }
    }
}

/// The dimensionality of a list of polygons: that of its first polygon.
pub open spec fn polygons_dim(polygons: Seq<Seq<Seq<Position<Seq<char>>>>>) -> Dim {
    if polygons.len() > 0 {
        runs_dim(polygons[0])
    } else {
        Dim { z: false, m: false }
    }
}

/// The dimensionality of a geometry: that of its first position, a collection's
/// being its first member's.
pub open spec fn shape_dim(s: Shape<Seq<char>>) -> Dim
    decreases s,
{
    match s {
        Shape::Point(p) => dim_of(p),
        Shape::LineString(run) => run_dim(run),
        Shape::MultiPoint(run) => run_dim(run),
        Shape::Polygon(rings) => runs_dim(rings),
        Shape::MultiLineString(lines) => runs_dim(lines),
        Shape::MultiPolygon(polygons) => polygons_dim(polygons),
        Shape::GeometryCollection(parts) => if parts.len() > 0 {
            shape_dim(parts[0])
        } else {
            Dim { z: false, m: false }
        },
    }
}

/// The word for a dimensionality, with a space before it.
pub open spec fn dim_word(dim: Dim) -> Seq<char> {
    if dim.z && dim.m {
        " ZM"@
    } else if dim.z {
        " Z"@
    } else if dim.m {
        " M"@
    } else {
        Seq::empty()
    }
}

/// The name of a geometry's kind.
pub open spec fn keyword(s: Shape<Seq<char>>) -> Seq<char> {
    match s {
        Shape::Point(_) => "POINT"@,
        Shape::LineString(_) => "LINESTRING"@,
        Shape::Polygon(_) => "POLYGON"@,
        Shape::MultiPoint(_) => "MULTIPOINT"@,
        Shape::MultiLineString(_) => "MULTILINESTRING"@,
        Shape::MultiPolygon(_) => "MULTIPOLYGON"@,
        Shape::GeometryCollection(_) => "GEOMETRYCOLLECTION"@,
    }
}

/// What stands before the brackets.
pub open spec fn header_text(s: Shape<Seq<char>>) -> Seq<char> {
    keyword(s) + dim_word(shape_dim(s)) + " "@
}

/// A further ordinate, where there is one.
pub open spec fn further_text(o: Option<Seq<char>>) -> Seq<char> {
    match o {
        Some(t) => " "@ + unsigned_plain(t),
        None => Seq::empty(),
    }
}

/// A coordinate.
pub open spec fn coord_text(p: Position<Seq<char>>) -> Seq<char> {
    unsigned_plain(p.x) + " "@ + unsigned_plain(p.y) + further_text(p.z) + further_text(p.m)
}

/// What stands between the items before the `i`th and that item.
pub open spec fn separator(i: int) -> Seq<char> {
    if i > 0 {
        ", "@
    } else {
        Seq::empty()
    }
}

/// The coordinates of a run from the `i`th on, and the closing bracket.
pub open spec fn run_rest(run: Seq<Position<Seq<char>>>, i: int) -> Seq<char>
    decreases run.len() - i,
{
    if i < 0 || i >= run.len() {
        ")"@
    } else {
        separator(i) + coord_text(run[i]) + run_rest(run, i + 1)
    }
}

/// A run in brackets.
pub open spec fn run_text(run: Seq<Position<Seq<char>>>) -> Seq<char> {
    "("@ + run_rest(run, 0)
}

/// The runs of a list from the `i`th on, and the closing bracket.
pub open spec fn runs_rest(runs: Seq<Seq<Position<Seq<char>>>>, i: int) -> Seq<char>
    decreases runs.len() - i,
{
    if i < 0 || i >= runs.len() {
        ")"@
    } else {
        separator(i) + run_text(runs[i]) + runs_rest(runs, i + 1)
    }
}

/// A list of runs in brackets.
pub open spec fn runs_text(runs: Seq<Seq<Position<Seq<char>>>>) -> Seq<char> {
    "("@ + runs_rest(runs, 0)
}

/// The polygons of a list from the `i`th on, and the closing bracket.
pub open spec fn polygons_rest(polygons: Seq<Seq<Seq<Position<Seq<char>>>>>, i: int) -> Seq<char>
    decreases polygons.len() - i,
{
    if i < 0 || i >= polygons.len() {
        ")"@
    } else {
        separator(i) + runs_text(polygons[i]) + polygons_rest(polygons, i + 1)
    }
}

/// What stands in the brackets of a geometry, with them.
pub open spec fn body_text(s: Shape<Seq<char>>) -> Seq<char>
    decreases s, 0nat, 1nat,
{
    match s {
        Shape::Point(p) => "("@ + coord_text(p) + ")"@,
        Shape::LineString(run) => run_text(run),
        Shape::MultiPoint(run) => run_text(run),
        Shape::Polygon(rings) => runs_text(rings),
        Shape::MultiLineString(lines) => runs_text(lines),
        Shape::MultiPolygon(polygons) => "("@ + polygons_rest(polygons, 0),
        Shape::GeometryCollection(parts) => "("@ + parts_rest(parts, 0),
    }
}

/// The members of a collection from the `i`th on, and the closing bracket.
pub open spec fn parts_rest(parts: Seq<Shape<Seq<char>>>, i: int) -> Seq<char>
    decreases parts, (parts.len() - i) as nat, 0nat,
{
    if i < 0 || i >= parts.len() {
        ")"@
    } else {
        separator(i) + (header_text(parts[i]) + body_text(parts[i])) + parts_rest(parts, i + 1)
    }
}

/// The text of a geometry.
pub open spec fn wkt_text(s: Shape<Seq<char>>) -> Seq<char> {
    header_text(s) + body_text(s)
}

fn push_number(out: &mut String, text: &str)
    ensures
        final(out)@ == old(out)@ + unsigned_plain(text@),
{
    let chars = chars_of(text);
    out.append(plain_unsigned(chars.as_slice()).as_str());
}

fn push_coord(out: &mut String, p: &Position<String>)
    ensures
        final(out)@ == old(out)@ + coord_text(p@),
{
    let ghost start = out@;
    push_number(out, p.x.as_str());
    out.append(" ");
    push_number(out, p.y.as_str());
    if let Some(z) = &p.z {
        out.append(" ");
        push_number(out, z.as_str());
    }
    if let Some(m) = &p.m {
        out.append(" ");
        push_number(out, m.as_str());
    }
    assert(out@ =~= start + coord_text(p@));
}

fn push_separator(out: &mut String, i: usize)
    ensures
        final(out)@ == old(out)@ + separator(i as int),
{
    if i > 0 {
        out.append(", ");
    } else {
        assert(out@ + separator(0) =~= out@);
    }
}

fn push_run(out: &mut String, run: &Vec<Position<String>>)
    ensures
        final(out)@ == old(out)@ + run_text(run_view(run@)),
{
    let ghost start = out@;
    let ghost all = run_view(run@);
    out.append("(");
    let mut i: usize = 0;
    assert(out@ + run_rest(all, 0) =~= start + run_text(all));
    while i < run.len()
        invariant
            i <= run@.len(),
            all == run_view(run@),
            out@ + run_rest(all, i as int) == start + run_text(all),
        decreases run@.len() - i,
    {
        let ghost before = out@;
        push_separator(out, i);
        push_coord(out, &run[i]);
        assert(all[i as int] == run@[i as int]@);
        assert(out@ + run_rest(all, i + 1) =~= before + run_rest(all, i as int));
        i += 1;
    }
    out.append(")");
}

fn push_runs(out: &mut String, runs: &Vec<Vec<Position<String>>>)
    ensures
        final(out)@ == old(out)@ + runs_text(runs_view(runs@)),
{
    let ghost start = out@;
    let ghost all = runs_view(runs@);
    out.append("(");
    let mut i: usize = 0;
    assert(out@ + runs_rest(all, 0) =~= start + runs_text(all));
    while i < runs.len()
        invariant
            i <= runs@.len(),
            all == runs_view(runs@),
            out@ + runs_rest(all, i as int) == start + runs_text(all),
        decreases runs@.len() - i,
    {
        let ghost before = out@;
        push_separator(out, i);
        push_run(out, &runs[i]);
        assert(all[i as int] == run_view(runs@[i as int]@));
        assert(out@ + runs_rest(all, i + 1) =~= before + runs_rest(all, i as int));
        i += 1;
    }
    out.append(")");
}

fn push_polygons(out: &mut String, polygons: &Vec<Vec<Vec<Position<String>>>>)
    ensures
        final(out)@ == old(out)@ + ("("@ + polygons_rest(polygons_view(polygons@), 0)),
{
    let ghost start = out@;
    let ghost all = polygons_view(polygons@);
    out.append("(");
    let mut i: usize = 0;
    assert(out@ + polygons_rest(all, 0) =~= start + ("("@ + polygons_rest(all, 0)));
    while i < polygons.len()
        invariant
            i <= polygons@.len(),
            all == polygons_view(polygons@),
            out@ + polygons_rest(all, i as int) == start + ("("@ + polygons_rest(all, 0)),
        decreases polygons@.len() - i,
    {
        let ghost before = out@;
        push_separator(out, i);
        push_runs(out, &polygons[i]);
        assert(all[i as int] == runs_view(polygons@[i as int]@));
        assert(out@ + polygons_rest(all, i + 1) =~= before + polygons_rest(all, i as int));
        i += 1;
    }
    out.append(")");
}

fn dim_of_position(p: &Position<String>) -> (d: Dim)
    ensures
        d == dim_of(p@),
{
    Dim { z: p.z.is_some(), m: p.m.is_some() }
}

fn dim_of_run(run: &Vec<Position<String>>) -> (d: Dim)
    ensures
        d == run_dim(run_view(run@)),
{
    if run.len() > 0 {
        assert(run_view(run@)[0] == run@[0]@);
        dim_of_position(&run[0])
    } else {
        Dim { z: false, m: false }
    }
}

fn dim_of_runs(runs: &Vec<Vec<Position<String>>>) -> (d: Dim)
    ensures
        d == runs_dim(runs_view(runs@)),
{
    if runs.len() > 0 {
        assert(runs_view(runs@)[0] == run_view(runs@[0]@));
        dim_of_run(&runs[0])
    } else {
        Dim { z: false, m: false }
    }
}

fn dim_of_geometry(g: &Geometry<String>) -> (d: Dim)
    ensures
        d == shape_dim(g@),
    decreases g,
{
    match g {
        Geometry::Point(p) => dim_of_position(p),
        Geometry::LineString(run) => dim_of_run(run),
        Geometry::MultiPoint(run) => dim_of_run(run),
        Geometry::Polygon(rings) => dim_of_runs(rings),
        Geometry::MultiLineString(lines) => dim_of_runs(lines),
        Geometry::MultiPolygon(polygons) => {
            if polygons.len() > 0 {
                assert(polygons_view(polygons@)[0] == runs_view(polygons@[0]@));
                dim_of_runs(&polygons[0])
            } else {
                Dim { z: false, m: false }
            }
        },
        Geometry::GeometryCollection(parts) => {
            proof {
                lemma_collection_view(*parts);
            }
            if parts.len() > 0 {
                assert(shapes_view(parts@)[0] == parts@[0]@);
                dim_of_geometry(&parts[0])
            } else {
                Dim { z: false, m: false }
            }
        },
    }
}

fn push_header(out: &mut String, g: &Geometry<String>)
    ensures
        final(out)@ == old(out)@ + header_text(g@),
{
    let ghost start = out@;
    out.append(
        match g {
            Geometry::Point(_) => "POINT",
            Geometry::LineString(_) => "LINESTRING",
            Geometry::Polygon(_) => "POLYGON",
            Geometry::MultiPoint(_) => "MULTIPOINT",
            Geometry::MultiLineString(_) => "MULTILINESTRING",
            Geometry::MultiPolygon(_) => "MULTIPOLYGON",
            Geometry::GeometryCollection(_) => "GEOMETRYCOLLECTION",
        },
    );
    let dim = dim_of_geometry(g);
    if dim.z && dim.m {
        out.append(" ZM");
    } else if dim.z {
        out.append(" Z");
    } else if dim.m {
        out.append(" M");
    }
    out.append(" ");
    assert(out@ =~= start + header_text(g@));
}

fn push_geometry(out: &mut String, g: &Geometry<String>)
    ensures
        final(out)@ == old(out)@ + wkt_text(g@),
    decreases g,
{
    let ghost start = out@;
    push_header(out, g);
    match g {
        Geometry::Point(p) => {
            out.append("(");
            push_coord(out, p);
            out.append(")");
        },
        Geometry::LineString(run) => push_run(out, run),
        Geometry::MultiPoint(run) => push_run(out, run),
        Geometry::Polygon(rings) => push_runs(out, rings),
        Geometry::MultiLineString(lines) => push_runs(out, lines),
        Geometry::MultiPolygon(polygons) => push_polygons(out, polygons),
        Geometry::GeometryCollection(parts) => {
            proof {
                lemma_collection_view(*parts);
            }
            let ghost all = shapes_view(parts@);
            let ghost head = out@;
            out.append("(");
            let mut i: usize = 0;
            assert(out@ + parts_rest(all, 0) =~= head + ("("@ + parts_rest(all, 0)));
            while i < parts.len()
                invariant
                    i <= parts@.len(),
                    g is GeometryCollection,
                    parts == g->GeometryCollection_0,
                    all == shapes_view(parts@),
                    out@ + parts_rest(all, i as int) == head + ("("@ + parts_rest(all, 0)),
                decreases parts@.len() - i,
            {
                let ghost before = out@;
                push_separator(out, i);
                push_geometry(out, &parts[i]);
                assert(all[i as int] == parts@[i as int]@);
                assert(out@ + parts_rest(all, i + 1) =~= before + parts_rest(all, i as int));
                i += 1;
            }
            out.append(")");
        },
    }
    assert(out@ =~= start + wkt_text(g@));
}

/// The text of a geometry, such as `POINT (1 2)` or `POINT Z (1 2 3)`.
pub fn encode(g: &Geometry<String>) -> (text: String)
    ensures
        text@ == wkt_text(g@),
{
    let mut out = String::new();
    push_geometry(&mut out, g);
    assert(out@ =~= wkt_text(g@));
    out
}

// --- reading -------------------------------------------------------------------------

/// A failure of reading.
pub open spec fn wkt_fail(message: Seq<char>) -> Failure {
    Failure::Convert("wkt: "@ + message)
}

fn err<T>(message: &str) -> (r: Result<T, Error>)
    ensures
        r matches Err(e) && e@ == wkt_fail(message@),
{
    let mut text = String::from_str("wkt: ");
    text.append(message);
    Err(Error::Convert(text))
}

fn err_quoting<T>(before: &str, quoted: &str, after: &str) -> (r: Result<T, Error>)
    ensures
        r matches Err(e) && e@ == wkt_fail(before@ + quoted@ + after@),
{
    let mut message = String::from_str(before);
    message.append(quoted);
    message.append(after);
    err(message.as_str())
}

/// Where the white space from `p` ends.
pub open spec fn ws_end(s: Seq<char>, p: int) -> int
    decreases s.len() - p,
{
    if 0 <= p < s.len() && is_ascii_white(s[p]) {
        ws_end(s, p + 1)
    } else {
        p
    }
}

pub open spec fn is_letter(c: char) -> bool {
    'a' <= c <= 'z' || 'A' <= c <= 'Z'
}

/// Where the letters from `p` end.
pub open spec fn letters_end(s: Seq<char>, p: int) -> int
    decreases s.len() - p,
{
    if 0 <= p < s.len() && is_letter(s[p]) {
        letters_end(s, p + 1)
    } else {
        p
    }
}

pub open spec fn is_dim_letter(c: char) -> bool {
    c == 'Z' || c == 'M' || c == 'z' || c == 'm'
}

/// Where the letters of a dimensionality from `p` end.
pub open spec fn dim_end(s: Seq<char>, p: int) -> int
    decreases s.len() - p,
{
    if 0 <= p < s.len() && is_dim_letter(s[p]) {
        dim_end(s, p + 1)
    } else {
        p
    }
}

pub open spec fn is_number_mark(c: char) -> bool {
    '0' <= c <= '9' || c == '+' || c == '-' || c == '.' || c == 'e' || c == 'E'
}

/// Where the characters of a number from `p` end.
pub open spec fn number_end(s: Seq<char>, p: int) -> int
    decreases s.len() - p,
{
    if 0 <= p < s.len() && is_number_mark(s[p]) {
        number_end(s, p + 1)
    } else {
        p
    }
}

/// The name of a kind at `p`, in upper case, and the place after it.
pub open spec fn keyword_at(s: Seq<char>, p: int) -> Result<(Seq<char>, int), Failure> {
    let at = ws_end(s, p);
    let end = letters_end(s, at);
    if end == at {
        Err(wkt_fail("expected a geometry keyword"@))
    } else {
        Ok((upper_text(s.subrange(at, end)), end))
    }
}

/// The dimensionality that stands at `p`, if one does, and the place after it.
pub open spec fn dim_at(s: Seq<char>, p: int) -> Result<(Option<Dim>, int), Failure> {
    let at = ws_end(s, p);
    let end = dim_end(s, at);
    let word = upper_text(s.subrange(at, end));
    if end == at {
        Ok((None, at))
    } else if word == "Z"@ {
        Ok((Some(Dim { z: true, m: false }), end))
    } else if word == "M"@ {
        Ok((Some(Dim { z: false, m: true }), end))
    } else if word == "ZM"@ {
        Ok((Some(Dim { z: true, m: true }), end))
    } else {
        Err(wkt_fail("unknown WKT dimensionality token \""@ + word + "\""@))
    }
}

/// The text of the number at `p`, and the place after it.
pub open spec fn number_at(s: Seq<char>, p: int) -> Result<(Seq<char>, int), Failure> {
    let at = ws_end(s, p);
    let end = number_end(s, at);
    if end == at {
        Err(wkt_fail("expected a number"@))
    } else if is_float_text(s.subrange(at, end)) {
        Ok((s.subrange(at, end), end))
    } else {
        Err(wkt_fail("invalid number"@))
    }
}

/// The place after a bracket that has to stand at `p`.
pub open spec fn bracket_at(s: Seq<char>, p: int, c: char) -> Result<int, Failure> {
    let at = ws_end(s, p);
    if 0 <= at < s.len() && s[at] == c {
        Ok(at + 1)
    } else {
        Err(wkt_fail("expected '"@ + seq![c] + "'"@))
    }
}

/// Whether a list goes on at `p`, and the place after its comma or bracket.
pub open spec fn more_at(s: Seq<char>, p: int) -> Result<(bool, int), Failure> {
    let at = ws_end(s, p);
    if 0 <= at < s.len() && s[at] == ',' {
        Ok((true, at + 1))
    } else if 0 <= at < s.len() && s[at] == ')' {
        Ok((false, at + 1))
    } else {
        Err(wkt_fail("expected ',' or ')'"@))
    }
}

/// The further ordinates from `p` on, after those before, and the place where
/// their coordinate ends.
pub open spec fn further_at(s: Seq<char>, p: int, so_far: Seq<Seq<char>>) -> Result<
    (Seq<Seq<char>>, int),
    Failure,
>
    decreases s.len() - p,
{
    let at = ws_end(s, p);
    if at >= s.len() || s[at] == ',' || s[at] == ')' {
        Ok((so_far, at))
    } else {
        match number_at(s, at) {
            Err(e) => Err(e),
            Ok((t, q)) => if q <= p || q > s.len() {
                Err(wkt_fail("expected a number"@))
            } else {
                further_at(s, q, so_far.push(t))
            },
        }
    }
}

/// The `i`th of several ordinates, where there are so many.
pub open spec fn nth(texts: Seq<Seq<char>>, i: int) -> Option<Seq<char>> {
    if i < texts.len() {
        Some(texts[i])
    } else {
        None
    }
}

/// A position of a stated dimensionality, its further ordinates being given.
/// What is beyond the dimensionality is dropped.
pub open spec fn position_of(
    x: Seq<char>,
    y: Seq<char>,
    further: Seq<Seq<char>>,
    dim: Option<Dim>,
) -> Position<Seq<char>> {
    let stated = dim is Some && (dim->0.z || dim->0.m);
    if stated && !dim->0.z {
        Position { x, y, z: None, m: nth(further, 0) }
    } else if stated && !dim->0.m {
        Position { x, y, z: nth(further, 0), m: None }
    } else {
        Position { x, y, z: nth(further, 0), m: nth(further, 1) }
    }
}

/// The coordinate at `p`, and the place after it.
pub open spec fn coord_at(s: Seq<char>, p: int, dim: Option<Dim>) -> Result<
    (Position<Seq<char>>, int),
    Failure,
> {
    match number_at(s, p) {
        Err(e) => Err(e),
        Ok((x, p1)) => match number_at(s, p1) {
            Err(e) => Err(e),
            Ok((y, p2)) => match further_at(s, p2, Seq::empty()) {
                Err(e) => Err(e),
                Ok((further, p3)) => Ok((position_of(x, y, further, dim), p3)),
            },
        },
    }
}

/// The coordinate in brackets at `p`, and the place after it.
pub open spec fn bracketed_at(s: Seq<char>, p: int, dim: Option<Dim>) -> Result<
    (Position<Seq<char>>, int),
    Failure,
> {
    match bracket_at(s, p, '(') {
        Err(e) => Err(e),
        Ok(p1) => match coord_at(s, p1, dim) {
            Err(e) => Err(e),
            Ok((c, p2)) => match bracket_at(s, p2, ')') {
                Err(e) => Err(e),
                Ok(p3) => Ok((c, p3)),
            },
        },
    }
}

/// The failure of an item that takes up no text.
pub open spec fn stuck() -> Failure {
    wkt_fail("expected ',' or ')'"@)
}

/// The items of a list from `p` on, after those before, and the place after the
/// closing bracket; `item` reads the one that starts at a place.
pub open spec fn list_from<T>(
    s: Seq<char>,
    p: int,
    item: spec_fn(int) -> Result<(T, int), Failure>,
    so_far: Seq<T>,
) -> Result<(Seq<T>, int), Failure>
    decreases s.len() - p,
{
    match item(p) {
        Err(e) => Err(e),
        Ok((v, q)) => match more_at(s, q) {
            Err(e) => Err(e),
            Ok((more, r)) => if !more {
                Ok((so_far.push(v), r))
            } else if r <= p || r > s.len() {
                Err(stuck())
            } else {
                list_from(s, r, item, so_far.push(v))
            },
        },
    }
}

/// The list in brackets at `p`, and the place after it.
pub open spec fn list_at<T>(
    s: Seq<char>,
    p: int,
    item: spec_fn(int) -> Result<(T, int), Failure>,
) -> Result<(Seq<T>, int), Failure> {
    match bracket_at(s, p, '(') {
        Err(e) => Err(e),
        Ok(p1) => list_from(s, p1, item, Seq::empty()),
    }
}

/// The run in brackets at `p`.
pub open spec fn run_at(s: Seq<char>, p: int, dim: Option<Dim>) -> Result<
    (Seq<Position<Seq<char>>>, int),
    Failure,
> {
    list_at(s, p, |q: int| coord_at(s, q, dim))
}

/// The list of runs in brackets at `p`.
pub open spec fn runs_at(s: Seq<char>, p: int, dim: Option<Dim>) -> Result<
    (Seq<Seq<Position<Seq<char>>>>, int),
    Failure,
> {
    list_at(s, p, |q: int| run_at(s, q, dim))
}

/// The list of polygons in brackets at `p`.
pub open spec fn polygons_at(s: Seq<char>, p: int, dim: Option<Dim>) -> Result<
    (Seq<Seq<Seq<Position<Seq<char>>>>>, int),
    Failure,
> {
    list_at(s, p, |q: int| runs_at(s, q, dim))
}

/// A member of a multipoint at `p`: a coordinate, in brackets or not.
pub open spec fn member_at(s: Seq<char>, p: int, dim: Option<Dim>) -> Result<
    (Position<Seq<char>>, int),
    Failure,
> {
    let at = ws_end(s, p);
    if 0 <= at < s.len() && s[at] == '(' {
        bracketed_at(s, at, dim)
    } else {
        coord_at(s, at, dim)
    }
}

/// The list of members of a multipoint at `p`.
pub open spec fn members_at(s: Seq<char>, p: int, dim: Option<Dim>) -> Result<
    (Seq<Position<Seq<char>>>, int),
    Failure,
> {
    list_at(s, p, |q: int| member_at(s, q, dim))
}

/// The geometry at `p`, and the place after it.
pub open spec fn shape_at(s: Seq<char>, p: int) -> Result<(Shape<Seq<char>>, int), Failure>
    decreases s.len() - p, 0nat,
{
    match keyword_at(s, p) {
        Err(e) => Err(e),
        Ok((kw, p1)) => match dim_at(s, p1) {
            Err(e) => Err(e),
            Ok((dim, p2)) => if kw == "POINT"@ {
                match bracketed_at(s, p2, dim) {
                    Err(e) => Err(e),
                    Ok((c, q)) => Ok((Shape::Point(c), q)),
                }
            } else if kw == "LINESTRING"@ {
                match run_at(s, p2, dim) {
                    Err(e) => Err(e),
                    Ok((run, q)) => Ok((Shape::LineString(run), q)),
                }
            } else if kw == "POLYGON"@ {
                match runs_at(s, p2, dim) {
                    Err(e) => Err(e),
                    Ok((rings, q)) => Ok((Shape::Polygon(rings), q)),
                }
            } else if kw == "MULTIPOINT"@ {
                match members_at(s, p2, dim) {
                    Err(e) => Err(e),
                    Ok((run, q)) => Ok((Shape::MultiPoint(run), q)),
                }
            } else if kw == "MULTILINESTRING"@ {
                match runs_at(s, p2, dim) {
                    Err(e) => Err(e),
                    Ok((lines, q)) => Ok((Shape::MultiLineString(lines), q)),
                }
            } else if kw == "MULTIPOLYGON"@ {
                match polygons_at(s, p2, dim) {
                    Err(e) => Err(e),
                    Ok((polygons, q)) => Ok((Shape::MultiPolygon(polygons), q)),
                }
            } else if kw == "GEOMETRYCOLLECTION"@ {
                match bracket_at(s, p2, '(') {
                    Err(e) => Err(e),
                    Ok(p3) => if p3 <= p || p3 > s.len() {
                        Err(stuck())
                    } else {
                        match parts_from(s, p3, Seq::empty()) {
                            Err(e) => Err(e),
                            Ok((parts, q)) => Ok((Shape::GeometryCollection(parts), q)),
                        }
                    },
                }
            } else {
                Err(wkt_fail("unknown geometry keyword \""@ + kw + "\""@))
            },
        },
    }
}

/// The members of a collection from `p` on, after those before, and the place
/// after the closing bracket.
pub open spec fn parts_from(s: Seq<char>, p: int, so_far: Seq<Shape<Seq<char>>>) -> Result<
    (Seq<Shape<Seq<char>>>, int),
    Failure,
>
    decreases s.len() - p, 1nat,
{
    match shape_at(s, p) {
        Err(e) => Err(e),
        Ok((part, q)) => match more_at(s, q) {
            Err(e) => Err(e),
            Ok((more, r)) => if !more {
                Ok((so_far.push(part), r))
            } else if r <= p || r > s.len() {
                Err(stuck())
            } else {
                parts_from(s, r, so_far.push(part))
            },
        },
    }
}

/// The geometry that a text is.
pub open spec fn decoded(s: Seq<char>) -> Result<Shape<Seq<char>>, Failure> {
    match shape_at(s, 0) {
        Err(e) => Err(e),
        Ok((g, q)) => if ws_end(s, q) == s.len() {
            Ok(g)
        } else {
            Err(wkt_fail("trailing characters after geometry"@))
        },
    }
}

/// A text to be read from given places.
struct Reader {
    chars: Vec<char>,
}

impl Reader {
    spec fn text(&self) -> Seq<char> {
        self.chars@
    }

    fn skip_ws(&self, at: usize) -> (r: usize)
        requires
            at <= self.text().len(),
        ensures
            r == ws_end(self.text(), at as int),
            at <= r <= self.text().len(),
    {
        let mut i: usize = at;
        while i < self.chars.len() && ascii_white(self.chars[i])
            invariant
                at <= i <= self.chars@.len(),
                ws_end(self.text(), at as int) == ws_end(self.text(), i as int),
            decreases self.chars@.len() - i,
        {
            i += 1;
        }
        i
    }

    fn expect(&self, at: usize, c: char) -> (r: Result<usize, Error>)
        requires
            at <= self.text().len(),
        ensures
            match bracket_at(self.text(), at as int, c) {
                Ok(q) => r matches Ok(v) && v == q && at < v <= self.text().len(),
                Err(e) => r matches Err(v) && v@ == e,
            },
    {
        let i = self.skip_ws(at);
        if i < self.chars.len() && self.chars[i] == c {
            return Ok(i + 1);
        }
        let mut quoted = String::new();
        quoted.push(c);
        assert(quoted@ =~= seq![c]);
        err_quoting("expected '", quoted.as_str(), "'")
    }

    fn keyword(&self, at: usize) -> (r: Result<(String, usize), Error>)
        requires
            at <= self.text().len(),
        ensures
            match keyword_at(self.text(), at as int) {
                Ok((w, q)) => r matches Ok(v) && v.0@ == w && v.1 == q && at < v.1
                    <= self.text().len(),
                Err(e) => r matches Err(v) && v@ == e,
            },
    {
        let start = self.skip_ws(at);
        let mut i: usize = start;
        while i < self.chars.len() && (('a' <= self.chars[i] && self.chars[i] <= 'z') || ('A'
            <= self.chars[i] && self.chars[i] <= 'Z'))
            invariant
                start <= i <= self.chars@.len(),
                letters_end(self.text(), start as int) == letters_end(self.text(), i as int),
            decreases self.chars@.len() - i,
        {
            i += 1;
        }
        if i == start {
            return err("expected a geometry keyword");
        }
        Ok((upper_between(self.chars.as_slice(), start, i), i))
    }

    fn dim_suffix(&self, at: usize) -> (r: Result<(Option<Dim>, usize), Error>)
        requires
            at <= self.text().len(),
        ensures
            match dim_at(self.text(), at as int) {
                Ok((d, q)) => r matches Ok(v) && v.0 == d && v.1 == q && at <= v.1
                    <= self.text().len(),
                Err(e) => r matches Err(v) && v@ == e,
            },
    {
        let start = self.skip_ws(at);
        let mut i: usize = start;
        while i < self.chars.len() && (self.chars[i] == 'Z' || self.chars[i] == 'M'
            || self.chars[i] == 'z' || self.chars[i] == 'm')
            invariant
                start <= i <= self.chars@.len(),
                dim_end(self.text(), start as int) == dim_end(self.text(), i as int),
            decreases self.chars@.len() - i,
        {
            i += 1;
        }
        if i == start {
            return Ok((None, i));
        }
        let word = upper_between(self.chars.as_slice(), start, i);
        if same_text(word.as_str(), "Z") {
            Ok((Some(Dim { z: true, m: false }), i))
        } else if same_text(word.as_str(), "M") {
            Ok((Some(Dim { z: false, m: true }), i))
        } else if same_text(word.as_str(), "ZM") {
            Ok((Some(Dim { z: true, m: true }), i))
        } else {
            err_quoting("unknown WKT dimensionality token \"", word.as_str(), "\"")
        }
    }

    fn number(&self, at: usize) -> (r: Result<(String, usize), Error>)
        requires
            at <= self.text().len(),
        ensures
            match number_at(self.text(), at as int) {
                Ok((t, q)) => r matches Ok(v) && v.0@ == t && v.1 == q && at < v.1
                    <= self.text().len(),
                Err(e) => r matches Err(v) && v@ == e,
            },
    {
        let start = self.skip_ws(at);
        let mut i: usize = start;
        while i < self.chars.len() && is_mark(self.chars[i])
            invariant
                start <= i <= self.chars@.len(),
                number_end(self.text(), start as int) == number_end(self.text(), i as int),
            decreases self.chars@.len() - i,
        {
            i += 1;
        }
        if i == start {
            return err("expected a number");
        }
        let text = text_between(self.chars.as_slice(), start, i);
        let chars = chars_of(text.as_str());
        if is_float(chars.as_slice()) {
            Ok((text, i))
        } else {
            err("invalid number")
        }
    }

    fn more(&self, at: usize) -> (r: Result<(bool, usize), Error>)
        requires
            at <= self.text().len(),
        ensures
            match more_at(self.text(), at as int) {
                Ok((m, q)) => r matches Ok(v) && v.0 == m && v.1 == q && at < v.1
                    <= self.text().len(),
                Err(e) => r matches Err(v) && v@ == e,
            },
    {
        let i = self.skip_ws(at);
        if i < self.chars.len() && self.chars[i] == ',' {
            Ok((true, i + 1))
        } else if i < self.chars.len() && self.chars[i] == ')' {
            Ok((false, i + 1))
        } else {
            err("expected ',' or ')'")
        }
    }

    fn coord(&self, at: usize, dim: Option<Dim>) -> (r: Result<(Position<String>, usize), Error>)
        requires
            at <= self.text().len(),
        ensures
            match coord_at(self.text(), at as int, dim) {
                Ok((p, q)) => r matches Ok(v) && v.0@ == p && v.1 == q && at < v.1
                    <= self.text().len(),
                Err(e) => r matches Err(v) && v@ == e,
            },
    {
        let ghost s = self.text();
        let (x, p1) = self.number(at)?;
        let (y, p2) = self.number(p1)?;
        let mut first: Option<String> = None;
        let mut second: Option<String> = None;
        let mut i: usize = p2;
        let ghost mut read: Seq<Seq<char>> = Seq::empty();
        loop
            invariant
                s == self.text(),
                p2 <= i <= s.len(),
                further_at(s, p2 as int, Seq::empty()) == further_at(s, i as int, read),
                coord_at(s, at as int, dim) == (match further_at(s, p2 as int, Seq::empty()) {
                    Ok((further, p3)) => Ok::<(Position<Seq<char>>, int), Failure>(
                        (position_of(x@, y@, further, dim), p3),
                    ),
                    Err(e) => Err(e),
                }),
                crate::text::opt_view(first) == nth(read, 0),
                crate::text::opt_view(second) == nth(read, 1),
            ensures
                further_at(s, p2 as int, Seq::empty()) == Ok::<(Seq<Seq<char>>, int), Failure>(
                    (read, i as int),
                ),
                i <= s.len(),
                p2 <= i,
            decreases s.len() - i,
        {
            let at = self.skip_ws(i);
            if at >= self.chars.len() || self.chars[at] == ',' || self.chars[at] == ')' {
                i = at;
                break ;
            }
            let (t, q) = self.number(at)?;
            let ghost before = read;
            proof {
                read = read.push(t@);
            }
            if first.is_none() {
                assert(before.len() == 0);
                first = Some(t);
            } else if second.is_none() {
                assert(before.len() == 1);
                second = Some(t);
            }
            i = q;
        }
        let (z, m) = match dim {
            Some(d) => {
                if d.m && !d.z {
                    (None, first)
                } else if d.z && !d.m {
                    (first, None)
                } else {
                    (first, second)
                }
            },
            None => (first, second),
        };
        Ok((Position { x, y, z, m }, i))
    }

    fn bracketed(&self, at: usize, dim: Option<Dim>) -> (r: Result<
        (Position<String>, usize),
        Error,
    >)
        requires
            at <= self.text().len(),
        ensures
            match bracketed_at(self.text(), at as int, dim) {
                Ok((p, q)) => r matches Ok(v) && v.0@ == p && v.1 == q && at < v.1
                    <= self.text().len(),
                Err(e) => r matches Err(v) && v@ == e,
            },
    {
        let p1 = self.expect(at, '(')?;
        let (c, p2) = self.coord(p1, dim)?;
        let p3 = self.expect(p2, ')')?;
        Ok((c, p3))
    }

    fn run(&self, at: usize, dim: Option<Dim>) -> (r: Result<(Vec<Position<String>>, usize), Error>)
        requires
            at <= self.text().len(),
        ensures
            match run_at(self.text(), at as int, dim) {
                Ok((run, q)) => r matches Ok(v) && run_view(v.0@) == run && v.1 == q && at < v.1
                    <= self.text().len(),
                Err(e) => r matches Err(v) && v@ == e,
            },
    {
        let ghost s = self.text();
        let ghost item = |q: int| coord_at(s, q, dim);
        let mut i = self.expect(at, '(')?;
        let mut out: Vec<Position<String>> = Vec::new();
        let ghost start = i as int;
        assert(run_view(out@) =~= Seq::<Position<Seq<char>>>::empty());
        loop
            invariant
                s == self.text(),
                item == (|q: int| coord_at(s, q, dim)),
                at < i <= s.len(),
                run_at(s, at as int, dim) == list_from(s, i as int, item, run_view(out@)),
            decreases s.len() - i,
        {
            let (c, q) = self.coord(i, dim)?;
            let ghost before = out@;
            let ghost view = c@;
            out.push(c);
            assert(run_view(out@) =~= run_view(before).push(view));
            let (more, r) = self.more(q)?;
            if !more {
                return Ok((out, r));
            }
            i = r;
        }
    }

    fn runs(&self, at: usize, dim: Option<Dim>) -> (r: Result<
        (Vec<Vec<Position<String>>>, usize),
        Error,
    >)
        requires
            at <= self.text().len(),
        ensures
            match runs_at(self.text(), at as int, dim) {
                Ok((runs, q)) => r matches Ok(v) && runs_view(v.0@) == runs && v.1 == q && at < v.1
                    <= self.text().len(),
                Err(e) => r matches Err(v) && v@ == e,
            },
    {
        let ghost s = self.text();
        let ghost item = |q: int| run_at(s, q, dim);
        let mut i = self.expect(at, '(')?;
        let mut out: Vec<Vec<Position<String>>> = Vec::new();
        assert(runs_view(out@) =~= Seq::<Seq<Position<Seq<char>>>>::empty());
        loop
            invariant
                s == self.text(),
                item == (|q: int| run_at(s, q, dim)),
                at < i <= s.len(),
                runs_at(s, at as int, dim) == list_from(s, i as int, item, runs_view(out@)),
            decreases s.len() - i,
        {
            let (c, q) = self.run(i, dim)?;
            let ghost before = out@;
            let ghost view = run_view(c@);
            out.push(c);
            assert(runs_view(out@) =~= runs_view(before).push(view));
            let (more, r) = self.more(q)?;
            if !more {
                return Ok((out, r));
            }
            i = r;
        }
    }

    fn polygons(&self, at: usize, dim: Option<Dim>) -> (r: Result<
        (Vec<Vec<Vec<Position<String>>>>, usize),
        Error,
    >)
        requires
            at <= self.text().len(),
        ensures
            match polygons_at(self.text(), at as int, dim) {
                Ok((polygons, q)) => r matches Ok(v) && polygons_view(v.0@) == polygons && v.1 == q
                    && at < v.1 <= self.text().len(),
                Err(e) => r matches Err(v) && v@ == e,
            },
    {
        let ghost s = self.text();
        let ghost item = |q: int| runs_at(s, q, dim);
        let mut i = self.expect(at, '(')?;
        let mut out: Vec<Vec<Vec<Position<String>>>> = Vec::new();
        assert(polygons_view(out@) =~= Seq::<Seq<Seq<Position<Seq<char>>>>>::empty());
        loop
            invariant
                s == self.text(),
                item == (|q: int| runs_at(s, q, dim)),
                at < i <= s.len(),
                polygons_at(s, at as int, dim) == list_from(s, i as int, item, polygons_view(out@)),
            decreases s.len() - i,
        {
            let (c, q) = self.runs(i, dim)?;
            let ghost before = out@;
            let ghost view = runs_view(c@);
            out.push(c);
            assert(polygons_view(out@) =~= polygons_view(before).push(view));
            let (more, r) = self.more(q)?;
            if !more {
                return Ok((out, r));
            }
            i = r;
        }
    }

    fn member(&self, at: usize, dim: Option<Dim>) -> (r: Result<(Position<String>, usize), Error>)
        requires
            at <= self.text().len(),
        ensures
            match member_at(self.text(), at as int, dim) {
                Ok((p, q)) => r matches Ok(v) && v.0@ == p && v.1 == q && at < v.1
                    <= self.text().len(),
                Err(e) => r matches Err(v) && v@ == e,
            },
    {
        let i = self.skip_ws(at);
        if i < self.chars.len() && self.chars[i] == '(' {
            self.bracketed(i, dim)
        } else {
            self.coord(i, dim)
        }
    }

    fn members(&self, at: usize, dim: Option<Dim>) -> (r: Result<
        (Vec<Position<String>>, usize),
        Error,
    >)
        requires
            at <= self.text().len(),
        ensures
            match members_at(self.text(), at as int, dim) {
                Ok((run, q)) => r matches Ok(v) && run_view(v.0@) == run && v.1 == q && at < v.1
                    <= self.text().len(),
                Err(e) => r matches Err(v) && v@ == e,
            },
    {
        let ghost s = self.text();
        let ghost item = |q: int| member_at(s, q, dim);
        let mut i = self.expect(at, '(')?;
        let mut out: Vec<Position<String>> = Vec::new();
        assert(run_view(out@) =~= Seq::<Position<Seq<char>>>::empty());
        loop
            invariant
                s == self.text(),
                item == (|q: int| member_at(s, q, dim)),
                at < i <= s.len(),
                members_at(s, at as int, dim) == list_from(s, i as int, item, run_view(out@)),
            decreases s.len() - i,
        {
            let (c, q) = self.member(i, dim)?;
            let ghost before = out@;
            let ghost view = c@;
            out.push(c);
            assert(run_view(out@) =~= run_view(before).push(view));
            let (more, r) = self.more(q)?;
            if !more {
                return Ok((out, r));
            }
            i = r;
        }
    }

    fn parts(&self, at: usize) -> (r: Result<(Vec<Geometry<String>>, usize), Error>)
        requires
            at <= self.text().len(),
        ensures
            match parts_from(self.text(), at as int, Seq::empty()) {
                Ok((parts, q)) => r matches Ok(v) && shapes_view(v.0@) == parts && v.1 == q && at
                    < v.1 <= self.text().len(),
                Err(e) => r matches Err(v) && v@ == e,
            },
        decreases self.text().len() - at, 1nat,
    {
        let ghost s = self.text();
        let mut i: usize = at;
        let mut out: Vec<Geometry<String>> = Vec::new();
        assert(shapes_view(out@) =~= Seq::<Shape<Seq<char>>>::empty());
        loop
            invariant
                s == self.text(),
                at <= i <= s.len(),
                parts_from(s, at as int, Seq::empty()) == parts_from(
                    s,
                    i as int,
                    shapes_view(out@),
                ),
            decreases s.len() - i,
        {
            let (g, q) = self.geometry(i)?;
            let ghost before = out@;
            let ghost view = g@;
            out.push(g);
            assert(shapes_view(out@) =~= shapes_view(before).push(view));
            let (more, r) = self.more(q)?;
            if !more {
                return Ok((out, r));
            }
            i = r;
        }
    }

    fn geometry(&self, at: usize) -> (r: Result<(Geometry<String>, usize), Error>)
        requires
            at <= self.text().len(),
        ensures
            match shape_at(self.text(), at as int) {
                Ok((g, q)) => r matches Ok(v) && v.0@ == g && v.1 == q && at < v.1
                    <= self.text().len(),
                Err(e) => r matches Err(v) && v@ == e,
            },
        decreases self.text().len() - at, 0nat,
    {
        let (word, p1) = self.keyword(at)?;
        let (dim, p2) = self.dim_suffix(p1)?;
        let kw = word.as_str();
        if same_text(kw, "POINT") {
            let (c, q) = self.bracketed(p2, dim)?;
            Ok((Geometry::Point(c), q))
        } else if same_text(kw, "LINESTRING") {
            let (run, q) = self.run(p2, dim)?;
            Ok((Geometry::LineString(run), q))
        } else if same_text(kw, "POLYGON") {
            let (rings, q) = self.runs(p2, dim)?;
            Ok((Geometry::Polygon(rings), q))
        } else if same_text(kw, "MULTIPOINT") {
            let (run, q) = self.members(p2, dim)?;
            Ok((Geometry::MultiPoint(run), q))
        } else if same_text(kw, "MULTILINESTRING") {
            let (lines, q) = self.runs(p2, dim)?;
            Ok((Geometry::MultiLineString(lines), q))
        } else if same_text(kw, "MULTIPOLYGON") {
            let (polygons, q) = self.polygons(p2, dim)?;
            Ok((Geometry::MultiPolygon(polygons), q))
        } else if same_text(kw, "GEOMETRYCOLLECTION") {
            let p3 = self.expect(p2, '(')?;
            let (parts, q) = self.parts(p3)?;
            proof {
                lemma_collection_view(parts);
            }
            Ok((Geometry::GeometryCollection(parts), q))
        } else {
            err_quoting("unknown geometry keyword \"", kw, "\"")
        }
    }
}

fn is_mark(c: char) -> (r: bool)
    ensures
        r == is_number_mark(c),
{
    ('0' <= c && c <= '9') || c == '+' || c == '-' || c == '.' || c == 'e' || c == 'E'
}

/// The geometry that a text is.
pub fn decode(input: &str) -> (r: Result<Geometry<String>, Error>)
    ensures
        match decoded(input@) {
            Ok(g) => r matches Ok(v) && v@ == g,
            Err(e) => r matches Err(v) && v@ == e,
        },
{
    let reader = Reader { chars: chars_of(input) };
    let (g, q) = reader.geometry(0)?;
    let end = reader.skip_ws(q);
    if end != reader.chars.len() {
        return err("trailing characters after geometry");
    }
    Ok(g)
}

} // verus!
