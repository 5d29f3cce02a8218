//! Definitions from the embedded registry, and the search for the system that a
//! definition without an identifier describes.
//!
//! The registry's data and its lookup are `geoscribe`'s. What is decided here is
//! how far a name is trusted: a system found by its name has to have the
//! ellipsoid that the definition states, within a tolerance. The comparison of
//! the numbers is the caller's, as they are doubles: [`geographic_candidates`]
//! and [`projected_candidates`] hand out what is to be compared, and
//! [`first_confirmed`] picks from the answers.
use vstd::prelude::*;

use crate::crs::projjson_wkt::{text_in, text_member};
use crate::crs::wkt::{is_keyword, text_of, token_is, token_text, tokenize_wkt, tokens, toks_view, Tok, WktTok};
use crate::json::parser::{document, parse};
use crate::json::value::{Json, JsonValue};
use crate::number::{is_float, is_float_text};
use crate::text::{chars_of, same_text};

verus! {

// --- the registry --------------------------------------------------------------------

/// What the registry holds of a system.
pub struct Entry {
    pub projjson: &'static str,
    pub wkt: Option<&'static str>,
    pub wkt2: Option<&'static str>,
}

/// The mathematical form of a registry entry: PROJJSON, and WKT in its first and
/// second version.
pub type EntryTexts = (Seq<char>, Option<Seq<char>>, Option<Seq<char>>);

pub open spec fn static_view(s: Option<&'static str>) -> Option<Seq<char>> {
    match s {
        Some(s) => Some(s@),
        None => None,
    }
}

pub open spec fn entry_view(e: Option<Entry>) -> Option<EntryTexts> {
    match e {
        Some(e) => Some((e.projjson@, static_view(e.wkt), static_view(e.wkt2))),
        None => None,
    }
}

/// What the embedded registry holds of an authority's code.
pub uninterp spec fn registry_entry(authority: Seq<char>, code: Seq<char>) -> Option<
    (Seq<char>, Option<Seq<char>>, Option<Seq<char>>),
>;

/// The systems that the embedded registry lists under a name, as authority and
/// code, in its order.
pub uninterp spec fn registry_names(name: Seq<char>) -> Seq<(Seq<char>, Seq<char>)>;

/// `geoscribe::resolve`. Claimed of it: the definitions are a function of the
/// authority and the code, as the registry is embedded and never changes.
#[verifier::external_body]
fn resolve(authority: &str, code: &str) -> (r: Option<Entry>)
    ensures
        entry_view(r) == registry_entry(authority@, code@),
{
    geoscribe::resolve(authority, code).map(
        |r| Entry { projjson: r.projjson, wkt: r.wkt, wkt2: r.wkt2 },
    )
}

pub open spec fn names_view(names: Seq<(&'static str, &'static str)>) -> Seq<
    (Seq<char>, Seq<char>),
> {
    names.map_values(|n: (&'static str, &'static str)| (n.0@, n.1@))
}

/// `geoscribe::resolve_by_name`, its items collected. Claimed of it: they are a
/// function of the name, as the index is embedded and never changes.
#[verifier::external_body]
fn resolve_by_name(name: &str) -> (r: Vec<(&'static str, &'static str)>)
    ensures
        names_view(r@) == registry_names(name@),
{
    geoscribe::resolve_by_name(name).collect()
}

/// The PROJJSON definition of an authority's code.
pub fn def_projjson(auth: &str, code: &str) -> (r: Option<&'static str>)
    ensures
        static_view(r) == (match registry_entry(auth@, code@) {
            Some(e) => Some(e.0),
            None => None,
        }),
{
    match resolve(auth, code) {
        Some(e) => Some(e.projjson),
        None => None,
    }
}

/// The WKT definition, in the first version, of an authority's code.
pub fn def_wkt(auth: &str, code: &str) -> (r: Option<&'static str>)
    ensures
        static_view(r) == (match registry_entry(auth@, code@) {
            Some(e) => e.1,
            None => None,
        }),
{
    match resolve(auth, code) {
        Some(e) => e.wkt,
        None => None,
    }
}

/// The WKT definition, in the second version, of an authority's code.
pub fn def_wkt2(auth: &str, code: &str) -> (r: Option<&'static str>)
    ensures
        static_view(r) == (match registry_entry(auth@, code@) {
            Some(e) => e.2,
            None => None,
        }),
{
    match resolve(auth, code) {
        Some(e) => e.wkt2,
        None => None,
    }
}

// --- what a definition states --------------------------------------------------------

/// The name of the system that the tokens define: the quoted text after the
/// first keyword and its bracket.
pub open spec fn outer_name(toks: Seq<Tok>) -> Option<Seq<char>> {
    if toks.len() >= 3 && toks[0] is Word && toks[1] is Open && toks[2] is Str {
        Some(toks[2]->Str_0)
    } else {
        None
    }
}

/// The name of the system that a WKT text defines.
pub fn wkt_crs_name(wkt: &str) -> (r: Option<String>)
    ensures
        crate::text::opt_view(r) == outer_name(tokens(wkt@)),
{
    let toks = tokenize_wkt(wkt);
    assert(toks_view(toks@).len() == toks@.len());
    if toks.len() < 3 {
        return None;
    }
    assert(toks_view(toks@)[0] == toks@[0]@);
    assert(toks_view(toks@)[1] == toks@[1]@);
    assert(toks_view(toks@)[2] == toks@[2]@);
    match (&toks[0], &toks[1], &toks[2]) {
        (WktTok::Word(_), WktTok::Open, WktTok::Str(name)) => Some(String::from_str(name.as_str())),
        _ => None,
    }
}

/// The text of the number at `i`, quoted or not.
pub open spec fn number_token(toks: Seq<Tok>, i: int) -> Option<Seq<char>> {
    if 0 <= i < toks.len() && text_of(toks[i]) is Some && is_float_text(text_of(toks[i])->0) {
        text_of(toks[i])
    } else {
        None
    }
}

/// The dimensions of the ellipsoid that starts at `i`:
/// `SPHEROID["name",axis,flattening`.
pub open spec fn ellipsoid_at(toks: Seq<Tok>, i: int) -> Option<(Seq<char>, Seq<char>)> {
    if !(is_keyword(toks[i], "SPHEROID"@) || is_keyword(toks[i], "ELLIPSOID"@)) {
        None
    } else if i + 6 >= toks.len() || !(toks[i + 1] is Open && toks[i + 2] is Str && toks[i
        + 3] is Comma && toks[i + 5] is Comma) {
        None
    } else {
        match (number_token(toks, i + 4), number_token(toks, i + 6)) {
            (Some(a), Some(rf)) => Some((a, rf)),
            _ => None,
        }
    }
}

/// The dimensions of the first ellipsoid from `i` on: semi-major axis and inverse
/// flattening.
pub open spec fn first_ellipsoid(toks: Seq<Tok>, i: int) -> Option<(Seq<char>, Seq<char>)>
    decreases toks.len() - i,
{
    if i < 0 || i >= toks.len() {
        None
    } else if ellipsoid_at(toks, i) is Some {
        ellipsoid_at(toks, i)
    } else {
        first_ellipsoid(toks, i + 1)
    }
}

fn read_number(toks: &[WktTok], i: usize) -> (r: Option<&str>)
    requires
        i < toks@.len(),
    ensures
        match r {
            Some(s) => number_token(toks_view(toks@), i as int) == Some(s@),
            None => number_token(toks_view(toks@), i as int) is None,
        },
{
    assert(toks_view(toks@)[i as int] == toks@[i as int]@);
    match token_text(&toks[i]) {
        Some(s) => {
            let chars = chars_of(s);
            if is_float(chars.as_slice()) {
                Some(s)
            } else {
                None
            }
        },
        None => None,
    }
}

fn read_ellipsoid(toks: &[WktTok], i: usize) -> (r: Option<(&str, &str)>)
    requires
        i < toks@.len(),
    ensures
        match r {
            Some((a, rf)) => ellipsoid_at(toks_view(toks@), i as int) == Some((a@, rf@)),
            None => ellipsoid_at(toks_view(toks@), i as int) is None,
        },
{
    assert(toks_view(toks@)[i as int] == toks@[i as int]@);
    if !(token_is(&toks[i], "SPHEROID") || token_is(&toks[i], "ELLIPSOID")) {
        return None;
    }
    assert(toks.len() <= usize::MAX);
    if toks.len() - i <= 6 {
        return None;
    }
    assert(toks_view(toks@)[i + 1] == toks@[i + 1]@);
    assert(toks_view(toks@)[i + 2] == toks@[i + 2]@);
    assert(toks_view(toks@)[i + 3] == toks@[i + 3]@);
    assert(toks_view(toks@)[i + 5] == toks@[i + 5]@);
    match (&toks[i + 1], &toks[i + 2], &toks[i + 3], &toks[i + 5]) {
        (WktTok::Open, WktTok::Str(_), WktTok::Comma, WktTok::Comma) => match (
            read_number(toks, i + 4),
            read_number(toks, i + 6),
        ) {
            (Some(a), Some(rf)) => Some((a, rf)),
            _ => None,
        },
        _ => None,
    }
}

/// The texts of the semi-major axis and the inverse flattening that a WKT
/// definition states.
pub fn wkt_ellipsoid_params(wkt: &str) -> (r: Option<(String, String)>)
    ensures
        match r {
            Some((a, rf)) => first_ellipsoid(tokens(wkt@), 0) == Some((a@, rf@)),
            None => first_ellipsoid(tokens(wkt@), 0) is None,
        },
{
    let toks = tokenize_wkt(wkt);
    let ghost all = toks_view(toks@);
    let mut i: usize = 0;
    while i < toks.len()
        invariant
            i <= toks@.len(),
            all == toks_view(toks@),
            all == tokens(wkt@),
            first_ellipsoid(all, 0) == first_ellipsoid(all, i as int),
        decreases toks@.len() - i,
    {
        if let Some((a, rf)) = read_ellipsoid(toks.as_slice(), i) {
            return Some((String::from_str(a), String::from_str(rf)));
        }
        i += 1;
    }
    None
}

/// How a registry entry states the flattening of an ellipsoid.
pub enum Flattening {
    Inverse(String),
    SemiMinorAxis(String),
}

/// The dimensions of an ellipsoid, as the texts of numbers.
pub struct Ellipsoid {
    pub semi_major_axis: String,
    pub flattening: Flattening,
}

/// The mathematical form of how a flattening is stated.
pub enum Flat {
    Inverse(Seq<char>),
    SemiMinorAxis(Seq<char>),
}

impl View for Ellipsoid {
    type V = (Seq<char>, Flat);

    open spec fn view(&self) -> (Seq<char>, Flat) {
        (
            self.semi_major_axis@,
            match self.flattening {
                Flattening::Inverse(s) => Flat::Inverse(s@),
                Flattening::SemiMinorAxis(s) => Flat::SemiMinorAxis(s@),
            },
        )
    }
}

/// The text of a member that is a number.
pub open spec fn number_text(v: Json, key: Seq<char>) -> Option<Seq<char>> {
    match v.member(key) {
        Some(Json::Number { text, is_int }) => Some(text),
        _ => None,
    }
}

fn number_text_in(v: &JsonValue, key: &str) -> (r: Option<String>)
    ensures
        crate::text::opt_view(r) == number_text(v@, key@),
{
    match v.get(key) {
        Some(m) => match m.as_number() {
            Some(s) => Some(String::from_str(s)),
            None => None,
        },
        None => None,
    }
}

/// The datum of a system: that of its base where it has one, and an ensemble
/// where it has no plain datum.
pub open spec fn datum_of(v: Json) -> Option<Json> {
    let base = match v.member("base_crs"@) {
        Some(b) => b,
        None => v,
    };
    match base.member("datum"@) {
        Some(d) => Some(d),
        None => base.member("datum_ensemble"@),
    }
}

/// The dimensions of a system's ellipsoid.
pub open spec fn dimensions_of(v: Json) -> Option<(Seq<char>, Flat)> {
    match datum_of(v) {
        None => None,
        Some(datum) => match datum.member("ellipsoid"@) {
            None => None,
            Some(e) => match number_text(e, "semi_major_axis"@) {
                None => None,
                Some(a) => match number_text(e, "inverse_flattening"@) {
                    Some(rf) => Some((a, Flat::Inverse(rf))),
                    None => match number_text(e, "semi_minor_axis"@) {
                        Some(b) => Some((a, Flat::SemiMinorAxis(b))),
                        None => None,
                    },
                },
            },
        },
    }
}

/// The dimensions of the ellipsoid of a PROJJSON object.
pub fn projjson_ellipsoid(pj: &JsonValue) -> (r: Option<Ellipsoid>)
    ensures
        match r {
            Some(e) => dimensions_of(pj@) == Some(e@),
            None => dimensions_of(pj@) is None,
        },
{
    let base = match pj.get("base_crs") {
        Some(b) => b,
        None => pj,
    };
    let datum = match base.get("datum") {
        Some(d) => Some(d),
        None => base.get("datum_ensemble"),
    };
    match datum {
        None => None,
        Some(datum) => match datum.get("ellipsoid") {
            None => None,
            Some(e) => match number_text_in(e, "semi_major_axis") {
                None => None,
                Some(semi_major_axis) => match number_text_in(e, "inverse_flattening") {
                    Some(rf) => Some(
                        Ellipsoid { semi_major_axis, flattening: Flattening::Inverse(rf) },
                    ),
                    None => match number_text_in(e, "semi_minor_axis") {
                        Some(b) => Some(
                            Ellipsoid { semi_major_axis, flattening: Flattening::SemiMinorAxis(b) },
                        ),
                        None => None,
                    },
                },
            },
        },
    }
}

// --- the search by name --------------------------------------------------------------

/// A system of the registry that has the name searched for.
pub struct Candidate {
    pub projjson: &'static str,
    pub ellipsoid: Ellipsoid,
}

impl View for Candidate {
    type V = (Seq<char>, (Seq<char>, Flat));

    open spec fn view(&self) -> (Seq<char>, (Seq<char>, Flat)) {
        (self.projjson@, self.ellipsoid@)
    }
}

/// The candidate that a PROJJSON text is, where it is a system of a type and
/// states an ellipsoid.
#[verifier::opaque]
pub open spec fn candidate_of(projjson: Seq<char>, kind: Seq<char>) -> Option<
    (Seq<char>, (Seq<char>, Flat)),
> {
    match document(projjson) {
        Err(_) => None,
        Ok(v) => if text_member(v, "type"@) != Some(kind) {
            None
        } else {
            match dimensions_of(v) {
                Some(d) => Some((projjson, d)),
                None => None,
            }
        },
    }
}

/// The candidate that the registry holds under an authority's code.
pub open spec fn registry_candidate(name: (Seq<char>, Seq<char>), kind: Seq<char>) -> Option<
    (Seq<char>, (Seq<char>, Flat)),
> {
    match registry_entry(name.0, name.1) {
        Some(e) => candidate_of(e.0, kind),
        None => None,
    }
}

/// The candidates among the names from `i` on.
pub open spec fn candidates_from(
    names: Seq<(Seq<char>, Seq<char>)>,
    i: int,
    kind: Seq<char>,
) -> Seq<(Seq<char>, (Seq<char>, Flat))>
    decreases names.len() - i,
{
    if i < 0 || i >= names.len() {
        Seq::empty()
    } else {
        match registry_candidate(names[i], kind) {
            Some(c) => seq![c] + candidates_from(names, i + 1, kind),
            None => candidates_from(names, i + 1, kind),
        }
    }
}

/// What a search found: the ellipsoid that the definition states, and the
/// systems of its name.
pub struct Search {
    pub semi_major_axis: String,
    pub inverse_flattening: String,
    pub candidates: Vec<Candidate>,
}

pub open spec fn candidates_view(c: Seq<Candidate>) -> Seq<(Seq<char>, (Seq<char>, Flat))> {
    c.map_values(|c: Candidate| c@)
}

/// Whether a search is that of a definition for a type of system: there is none
/// where the definition states no name or no ellipsoid.
pub open spec fn is_search(r: Option<Search>, wkt: Seq<char>, kind: Seq<char>) -> bool {
    let toks = tokens(wkt);
    match (outer_name(toks), first_ellipsoid(toks, 0)) {
        (Some(name), Some((a, rf))) => {
            &&& r is Some
            &&& r->0.semi_major_axis@ == a
            &&& r->0.inverse_flattening@ == rf
            &&& candidates_view(r->0.candidates@) == candidates_from(registry_names(name), 0, kind)
        },
        _ => r is None,
    }
}

/// The candidate that a PROJJSON text of the registry is.
pub fn as_candidate(projjson: &'static str, kind: &str) -> (r: Option<Candidate>)
    ensures
        match r {
            Some(c) => candidate_of(projjson@, kind@) == Some(c@),
            None => candidate_of(projjson@, kind@) is None,
        },
{
    proof {
        reveal(candidate_of);
    }
    let v = match parse(projjson) {
        Ok(v) => v,
        Err(_) => {
            return None;
        },
    };
    let right = match text_in(&v, "type") {
        Some(t) => same_text(t, kind),
        None => false,
    };
    if !right {
        return None;
    }
    match projjson_ellipsoid(&v) {
        Some(ellipsoid) => Some(Candidate { projjson, ellipsoid }),
        None => None,
    }
}

fn find_candidate(authority: &str, code: &str, kind: &str) -> (r: Option<Candidate>)
    ensures
        match r {
            Some(c) => registry_candidate((authority@, code@), kind@) == Some(c@),
            None => registry_candidate((authority@, code@), kind@) is None,
        },
{
    match def_projjson(authority, code) {
        Some(pj) => as_candidate(pj, kind),
        None => None,
    }
}

fn candidates(wkt: &str, kind: &str) -> (r: Option<Search>)
    ensures
        is_search(r, wkt@, kind@),
{
    match (wkt_crs_name(wkt), wkt_ellipsoid_params(wkt)) {
        (Some(name), Some((semi_major_axis, inverse_flattening))) => {
            let names = resolve_by_name(name.as_str());
            let ghost all = names_view(names@);
            let mut found: Vec<Candidate> = Vec::new();
            let mut i: usize = 0;
            assert(candidates_view(found@) =~= Seq::<(Seq<char>, (Seq<char>, Flat))>::empty());
            while i < names.len()
                invariant
                    i <= names@.len(),
                    all == names_view(names@),
                    candidates_view(found@) + candidates_from(all, i as int, kind@)
                        == candidates_from(all, 0, kind@),
                decreases names@.len() - i,
            {
                assert(all[i as int] == (names@[i as int].0@, names@[i as int].1@));
                let ghost before = found@;
                if let Some(c) = find_candidate(names[i].0, names[i].1, kind) {
                    let ghost view = c@;
                    found.push(c);
                    assert(candidates_view(found@) =~= candidates_view(before) + seq![view]);
                }
                proof {
                    assert(candidates_view(found@) + candidates_from(all, i + 1, kind@)
                        =~= candidates_view(before) + candidates_from(all, i as int, kind@));
                }
                i += 1;
            }
            assert(candidates_view(found@) =~= candidates_from(all, 0, kind@));
            Some(Search { semi_major_axis, inverse_flattening, candidates: found })
        },
        _ => None,
    }
}

/// The geographic systems of the registry that have the name of a WKT definition,
/// in the registry's order.
pub fn geographic_candidates(wkt: &str) -> (r: Option<Search>)
    ensures
        is_search(r, wkt@, "GeographicCRS"@),
{
    candidates(wkt, "GeographicCRS")
}

/// The projected systems of the registry that have the name of a WKT definition,
/// in the registry's order.
pub fn projected_candidates(wkt: &str) -> (r: Option<Search>)
    ensures
        is_search(r, wkt@, "ProjectedCRS"@),
{
    candidates(wkt, "ProjectedCRS")
}

/// The definition of the first candidate whose ellipsoid was confirmed. A name
/// alone never decides.
pub fn first_confirmed(candidates: &Vec<Candidate>, confirmed: &Vec<bool>) -> (r: Option<
    &'static str,
>)
    requires
        confirmed@.len() == candidates@.len(),
    ensures
        match r {
            Some(s) => exists|i: int|
                #![trigger confirmed@[i]]
                0 <= i < candidates@.len() && confirmed@[i] && s@ == candidates@[i].projjson@ && (
                forall|j: int| 0 <= j < i ==> !(#[trigger] confirmed@[j])),
            None => forall|j: int| 0 <= j < confirmed@.len() ==> !(#[trigger] confirmed@[j]),
        },
{
    let mut i: usize = 0;
    while i < candidates.len()
        invariant
            i <= candidates@.len(),
            confirmed@.len() == candidates@.len(),
            forall|j: int| 0 <= j < i ==> !(#[trigger] confirmed@[j]),
        decreases candidates@.len() - i,
    {
        if confirmed[i] {
            return Some(candidates[i].projjson);
        }
        i += 1;
    }
    None
}

} // verus!
