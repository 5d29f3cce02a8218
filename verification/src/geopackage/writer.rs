//! The tables of a GeoPackage.
use vstd::prelude::*;
use vstd::set_lib::{lemma_int_range, lemma_len_subset, set_int_range};

use super::rtree::{self, five_texts, Cell};
use crate::bytes::{le_bytes, push_le, unsigned, unsigned64};
use crate::crs::registry::{def_wkt2, registry_entry};
use crate::crs::system::{crs_view, Crs, NamedCrs, Record, System};
use crate::feature::{features_view, Feature, FeatureCollection, Items};
use crate::flatgeobuf::writer::{box_around, geometries};
use crate::geometry::ordinate::is_above;
use crate::geometry::wkb::{encode, wkb_bytes};
use crate::geometry::{empty_bbox, folded, positions, Bbox, Geometry, Shape};
use crate::number::{integer_of, parse_integer};
use crate::schema::{self, columns_view, is_column, Column, ColumnType, Datum, Field};
use crate::sqlite::{
    numbered_view, plans_view, values_view, Declaration, MasterEntry, Plan, Stored, TableSpec,
    Value,
};
use crate::text::{
    chars_of, lower_text, opt_clone, opt_view, same_text, signed_decimal, signed_decimal_text,
    to_lower,
};

verus! {

/// The number of WGS 84 among the systems.
pub const WGS84_SRS_ID: i64 = 4326;

/// The number of the undefined geographic system.
pub const UNDEFINED_SRS_ID: i64 = 0;

/// The first number for a system without a usable code.
pub const SYNTHETIC_SRS_BASE: i64 = 100_000;

/// The time of every layer's last change, which is not known.
pub const LAST_CHANGE: &'static str = "1970-01-01T00:00:00.000Z";

/// The definition of WGS 84.
pub const WGS84_WKT: &'static str =
    "GEOGCS[\"WGS 84\",DATUM[\"WGS_1984\",SPHEROID[\"WGS 84\",6378137,298.257223563,AUTHORITY[\"EPSG\",\"7030\"]],AUTHORITY[\"EPSG\",\"6326\"]],PRIMEM[\"Greenwich\",0,AUTHORITY[\"EPSG\",\"8901\"]],UNIT[\"degree\",0.0174532925199433,AUTHORITY[\"EPSG\",\"9122\"]],AUTHORITY[\"EPSG\",\"4326\"]]";

/// A layer: its name, its features and the columns that their properties make.
#[derive(Debug, PartialEq)]
pub struct Layer<P> {
    pub name: String,
    pub collection: FeatureCollection<u64, P>,
    pub columns: Vec<Column<u64>>,
}

/// The mathematical form of a layer.
pub struct LayerModel<W> {
    pub name: Seq<char>,
    pub items: Items<u64, W>,
    pub columns: Seq<Field<u64>>,
}

impl<P: View> View for Layer<P> {
    type V = LayerModel<P::V>;

    open spec fn view(&self) -> LayerModel<P::V> {
        LayerModel {
            name: self.name@,
            items: self.collection@,
            columns: columns_view(self.columns@),
        }
    }
}

pub open spec fn layer_models<P: View>(layers: Seq<Layer<P>>) -> Seq<LayerModel<P::V>> {
    layers.map_values(|l: Layer<P>| l@)
}

/// Whether a layer's columns have a cell for each feature, and there are not
/// more features than memory can hold.
pub open spec fn is_layer<W>(l: LayerModel<W>) -> bool {
    &&& l.items.features.len() < 0x1000_0000_0000_0000
    &&& forall|k: int|
        0 <= k < l.columns.len() ==> is_column(#[trigger] l.columns[k], l.items.features.len())
}

// --- replacing layers --------------------------------------------------------------------

/// The layers that do not have a name, from the one numbered `i` on.
pub open spec fn others<P>(layers: Seq<Layer<P>>, name: Seq<char>, i: int) -> Seq<Layer<P>>
    decreases layers.len() - i,
{
    if i < 0 || i >= layers.len() {
        Seq::empty()
    } else if layers[i].name@ == name {
        others(layers, name, i + 1)
    } else {
        seq![layers[i]] + others(layers, name, i + 1)
    }
}

/// Layers with others put in: each takes the place of those of its name, and
/// stands last.
pub open spec fn upserted<P>(layers: Seq<Layer<P>>, new: Seq<Layer<P>>, n: int) -> Seq<Layer<P>>
    decreases n,
{
    if n <= 0 {
        layers
    } else {
        others(upserted(layers, new, n - 1), new[n - 1].name@, 0).push(new[n - 1])
    }
}

proof fn lemma_others_removed<P>(layers: Seq<Layer<P>>, name: Seq<char>, i: int, k: int)
    requires
        0 <= k <= i < layers.len(),
        layers[i].name@ == name,
    ensures
        others(layers, name, k) == others(layers.remove(i), name, k),
    decreases layers.len() - k,
{
    let rest = layers.remove(i);
    if k < i {
        lemma_others_removed(layers, name, i, k + 1);
        assert(rest[k] == layers[k]);
    } else {
        lemma_others_shift(layers, rest, name, i + 1);
    }
}

proof fn lemma_others_shift<P>(layers: Seq<Layer<P>>, rest: Seq<Layer<P>>, name: Seq<char>, k: int)
    requires
        1 <= k <= layers.len(),
        rest.len() == layers.len() - 1,
        forall|m: int| k <= m < layers.len() ==> #[trigger] layers[m] == rest[m - 1],
    ensures
        others(layers, name, k) == others(rest, name, k - 1),
    decreases layers.len() - k,
{
    if k < layers.len() {
        assert(layers[k] == rest[k - 1]);
        lemma_others_shift(layers, rest, name, k + 1);
    }
}

proof fn lemma_others_of_none<P>(layers: Seq<Layer<P>>, name: Seq<char>, i: int)
    requires
        0 <= i <= layers.len(),
        forall|k: int| i <= k < layers.len() ==> (#[trigger] layers[k]).name@ != name,
    ensures
        others(layers, name, i) == layers.skip(i),
    decreases layers.len() - i,
{
    if i < layers.len() {
        lemma_others_of_none(layers, name, i + 1);
        assert(layers.skip(i) =~= seq![layers[i]] + layers.skip(i + 1));
    } else {
        assert(layers.skip(i) =~= Seq::empty());
    }
}

/// Put layers in: a layer of a name that is there takes its place.
pub fn upsert<P>(existing: Vec<Layer<P>>, new: Vec<Layer<P>>) -> (layers: Vec<Layer<P>>)
    ensures
        layers@ == upserted(existing@, new@, new@.len() as int),
{
    let ghost start = existing@;
    let ghost all = new@;
    let mut layers = existing;
    let mut new = new;
    let ghost mut n: int = 0;
    while new.len() > 0
        invariant
            0 <= n,
            n + new@.len() == all.len(),
            new@ == all.skip(n),
            layers@ == upserted(start, all, n),
        decreases new@.len(),
    {
        let ghost before = layers@;
        let layer = new.remove(0);
        assert(layer == all[n]);
        assert(new@ =~= all.skip(n + 1));
        let mut i: usize = 0;
        while i < layers.len()
            invariant
                i <= layers@.len(),
                others(layers@, layer.name@, 0) == others(before, layer.name@, 0),
                forall|k: int| 0 <= k < i ==> (#[trigger] layers@[k]).name@ != layer.name@,
            decreases layers@.len() - i,
        {
            if same_text(layers[i].name.as_str(), layer.name.as_str()) {
                let ghost was = layers@;
                proof {
                    lemma_others_removed(was, layer.name@, i as int, 0);
                }
                layers.remove(i);
                assert forall|k: int| 0 <= k < i implies (#[trigger] layers@[k]).name@
                    != layer.name@ by {
                    assert(layers@[k] == was[k]);
                }
            } else {
                i += 1;
            }
        }
        proof {
            lemma_others_of_none(layers@, layer.name@, 0);
            assert(layers@.skip(0) =~= layers@);
        }
        layers.push(layer);
        proof {
            n = n + 1;
        }
    }
    layers
}

// --- numbering the systems ---------------------------------------------------------------

/// A system to be registered.
pub struct Registration {
    pub srs_id: int,
    pub name: Seq<char>,
    pub organization: Seq<char>,
    pub organization_coordsys_id: int,
    pub definition: Seq<char>,
    pub definition_12_063: Seq<char>,
}

/// A text, or `undefined` where there is none.
pub open spec fn or_undefined(text: Option<Seq<char>>) -> Seq<char> {
    match text {
        Some(t) => t,
        None => "undefined"@,
    }
}

/// The code of a system as a number, where it is one.
pub open spec fn numeric_code(r: Record) -> Option<int> {
    match r.code {
        Some(c) => integer_of(c),
        None => None,
    }
}

/// Whether a system has a code that can be its number.
pub open spec fn has_own_number(r: Record) -> bool {
    numeric_code(r) matches Some(c) && c > 0
}

/// The WKT that is recorded of a system.
pub open spec fn recorded_wkt(r: Record) -> Option<Seq<char>> {
    if r.wkt is Some {
        r.wkt
    } else {
        r.spec_structural_wkt()
    }
}

/// The organization that a system is recorded under.
pub open spec fn organization_of(r: Record) -> Seq<char> {
    match r.authority {
        Some(a) => a,
        None => if has_own_number(r) {
            "EPSG"@
        } else {
            "NONE"@
        },
    }
}

/// Whether a system is EPSG:4326, which every GeoPackage has a row for.
pub open spec fn is_default(r: Record) -> bool {
    numeric_code(r) == Some(4326int) && lower_text(organization_of(r)) == "epsg"@
}

/// What is registered for a system under a number. `wkt2` is the second form of
/// its WKT.
pub open spec fn registration_of(r: Record, wkt2: Option<Seq<char>>, number: int) -> Registration {
    Registration {
        srs_id: number,
        name: if has_own_number(r) && numeric_code(r) == Some(number) {
            organization_of(r) + ":"@ + signed_decimal(number)
        } else {
            "srs "@ + signed_decimal(number)
        },
        organization: organization_of(r),
        organization_coordsys_id: match numeric_code(r) {
            Some(c) => c,
            None => number,
        },
        definition: or_undefined(recorded_wkt(r)),
        definition_12_063: or_undefined(wkt2),
    }
}

/// Whether a number is registered.
pub open spec fn is_registered(registrations: Seq<Registration>, srs_id: int) -> bool {
    exists|i: int| 0 <= i < registrations.len() && (#[trigger] registrations[i]).srs_id == srs_id
}

/// Whether a registration is that of a system's code, under its organization.
pub open spec fn is_system_of(registration: Registration, r: Record) -> bool {
    &&& lower_text(registration.organization) == lower_text(organization_of(r))
    &&& numeric_code(r) == Some(registration.organization_coordsys_id)
}

/// Whether a number is registered for another system than `r`.
pub open spec fn is_anothers(registrations: Seq<Registration>, r: Record, number: int) -> bool {
    exists|i: int|
        0 <= i < registrations.len() && (#[trigger] registrations[i]).srs_id == number
            && !is_system_of(registrations[i], r)
}

/// The number of a system, and what is to be registered for it. A code that can be
/// a number is the system's, unless it is registered for the same code of another
/// organization; every other system gets `free`.
pub open spec fn choice(
    crs: Option<System>,
    wkt2: Option<Seq<char>>,
    registrations: Seq<Registration>,
    free: int,
) -> (int, Option<Registration>) {
    match crs {
        None => (0, None),
        Some(System::Wgs84) => (4326, None),
        Some(System::Named(r)) => if is_default(r) {
            (4326, None)
        } else if has_own_number(r) && numeric_code(r) != Some(4326int) && !is_anothers(
            registrations,
            r,
            numeric_code(r)->0,
        ) {
            (numeric_code(r)->0, Some(registration_of(r, wkt2, numeric_code(r)->0)))
        } else {
            (free, Some(registration_of(r, wkt2, free)))
        },
    }
}

/// The code of a system that can be its number.
pub open spec fn own_number(crs: Option<System>) -> Option<int> {
    match crs {
        Some(System::Named(r)) => if has_own_number(r) && numeric_code(r) != Some(4326int) {
            numeric_code(r)
        } else {
            None
        },
        _ => None,
    }
}

/// Whether a number is the code of one of the systems, or registered.
pub open spec fn is_taken(
    systems: Seq<Option<System>>,
    registrations: Seq<Registration>,
    number: int,
) -> bool {
    ||| exists|i: int| 0 <= i < systems.len() && own_number(#[trigger] systems[i]) == Some(number)
    ||| is_registered(registrations, number)
}

/// Whether a number is the first one for systems without a number that is not
/// taken.
pub open spec fn is_first_free(
    systems: Seq<Option<System>>,
    registrations: Seq<Registration>,
    number: int,
) -> bool {
    &&& number >= SYNTHETIC_SRS_BASE
    &&& !is_taken(systems, registrations, number)
    &&& forall|k: int|
        SYNTHETIC_SRS_BASE <= k < number ==> #[trigger] is_taken(systems, registrations, k)
}

/// The next number for a system without one.
pub open spec fn free_number(systems: Seq<Option<System>>, registrations: Seq<Registration>) -> int {
    choose|number: int| is_first_free(systems, registrations, number)
}

/// The numbers of layers, and what is registered for them.
pub struct Assignment {
    pub per_layer: Seq<int>,
    pub registrations: Seq<Registration>,
}

/// The numbers of the first `n` layers. A number is registered once: its first
/// registration stands.
pub open spec fn assigned(
    systems: Seq<Option<System>>,
    wkt2s: Seq<Option<Seq<char>>>,
    n: int,
) -> Assignment
    decreases n,
{
    if n <= 0 {
        Assignment { per_layer: Seq::empty(), registrations: Seq::empty() }
    } else {
        let before = assigned(systems, wkt2s, n - 1);
        let (id, registration) = choice(
            systems[n - 1],
            wkt2s[n - 1],
            before.registrations,
            free_number(systems, before.registrations),
        );
        Assignment {
            per_layer: before.per_layer.push(id),
            registrations: match registration {
                Some(r) => if is_registered(before.registrations, r.srs_id) {
                    before.registrations
                } else {
                    before.registrations.push(r)
                },
                None => before.registrations,
            },
        }
    }
}

/// There are no more numbers taken than systems and registrations.
proof fn lemma_taken_bounded(
    systems: Seq<Option<System>>,
    registrations: Seq<Registration>,
    end: int,
)
    requires
        SYNTHETIC_SRS_BASE <= end,
        forall|k: int|
            SYNTHETIC_SRS_BASE <= k < end ==> #[trigger] is_taken(systems, registrations, k),
    ensures
        end - SYNTHETIC_SRS_BASE <= systems.len() + registrations.len(),
{
    let codes = systems.map_values(
        |s: Option<System>|
            match own_number(s) {
                Some(c) => c,
                None => 0,
            },
    );
    let numbers = registrations.map_values(|r: Registration| r.srs_id);
    let all = codes + numbers;
    let range = set_int_range(SYNTHETIC_SRS_BASE as int, end);
    lemma_int_range(SYNTHETIC_SRS_BASE as int, end);
    assert forall|k: int| #[trigger] range.contains(k) implies all.to_set().contains(k) by {
        assert(is_taken(systems, registrations, k));
        if is_registered(registrations, k) {
            let i = choose|i: int|
                0 <= i < registrations.len() && (#[trigger] registrations[i]).srs_id == k;
            assert(all[codes.len() + i] == k);
        } else {
            let i = choose|i: int|
                0 <= i < systems.len() && own_number(#[trigger] systems[i]) == Some(k);
            assert(all[i] == k);
        }
    }
    all.lemma_cardinality_of_set();
    lemma_len_subset(range, all.to_set());
}

/// Some number is free.
pub proof fn lemma_free_exists(
    systems: Seq<Option<System>>,
    registrations: Seq<Registration>,
    from: int,
)
    requires
        SYNTHETIC_SRS_BASE <= from,
        forall|k: int|
            SYNTHETIC_SRS_BASE <= k < from ==> #[trigger] is_taken(systems, registrations, k),
    ensures
        is_first_free(systems, registrations, free_number(systems, registrations)),
    decreases SYNTHETIC_SRS_BASE + systems.len() + registrations.len() - from,
{
    lemma_taken_bounded(systems, registrations, from);
    if is_taken(systems, registrations, from) {
        lemma_taken_bounded(systems, registrations, from + 1);
        lemma_free_exists(systems, registrations, from + 1);
    } else {
        assert(is_first_free(systems, registrations, from));
    }
}

/// Only one number is the first free one.
proof fn lemma_free_is_one(
    systems: Seq<Option<System>>,
    registrations: Seq<Registration>,
    number: int,
)
    requires
        is_first_free(systems, registrations, number),
    ensures
        free_number(systems, registrations) == number,
{
    let other = free_number(systems, registrations);
    assert(is_first_free(systems, registrations, other));
    if other < number {
        assert(is_taken(systems, registrations, other));
    } else if number < other {
        assert(is_taken(systems, registrations, number));
    }
}

/// A system to be registered.
#[derive(Debug, PartialEq)]
pub struct SrsReg {
    pub srs_id: i64,
    pub name: String,
    pub organization: String,
    pub organization_coordsys_id: i64,
    pub definition: String,
    pub definition_12_063: String,
}

impl View for SrsReg {
    type V = Registration;

    open spec fn view(&self) -> Registration {
        Registration {
            srs_id: self.srs_id as int,
            name: self.name@,
            organization: self.organization@,
            organization_coordsys_id: self.organization_coordsys_id as int,
            definition: self.definition@,
            definition_12_063: self.definition_12_063@,
        }
    }
}

pub open spec fn registrations_view(regs: Seq<SrsReg>) -> Seq<Registration> {
    regs.map_values(|r: SrsReg| r@)
}

/// The numbers of layers, and what is to be registered for them.
#[derive(Debug, PartialEq)]
pub struct ResolvedSrs {
    pub per_layer: Vec<i64>,
    pub registrations: Vec<SrsReg>,
}

pub open spec fn ids_view(ids: Seq<i64>) -> Seq<int> {
    ids.map_values(|i: i64| i as int)
}

pub open spec fn systems_view<P: View>(layers: Seq<Layer<P>>) -> Seq<Option<System>> {
    layers.map_values(|l: Layer<P>| crs_view(l.collection.crs))
}

pub open spec fn optional_texts(texts: Seq<Option<String>>) -> Seq<Option<Seq<char>>> {
    texts.map_values(|t: Option<String>| opt_view(t))
}

fn undefined_or(text: Option<String>) -> (r: String)
    ensures
        r@ == or_undefined(opt_view(text)),
{
    match text {
        Some(t) => t,
        None => String::from_str("undefined"),
    }
}

fn text_or(text: &Option<String>, otherwise: &str) -> (r: String)
    ensures
        r@ == match opt_view(*text) {
            Some(t) => t,
            None => otherwise@,
        },
{
    match text {
        Some(t) => String::from_str(t.as_str()),
        None => String::from_str(otherwise),
    }
}

/// The code of a system as a number, where it is one.
fn code_number(n: &NamedCrs) -> (r: Option<i64>)
    ensures
        match numeric_code(n@) {
            Some(c) => r matches Some(v) && v == c,
            None => r is None,
        },
{
    match &n.code {
        Some(c) => parse_integer(c.as_str()),
        None => None,
    }
}

/// What is registered for a system under a number.
fn make_registration(n: &NamedCrs, wkt2: &Option<String>, number: i64) -> (r: SrsReg)
    ensures
        r@ == registration_of(n@, opt_view(*wkt2), number as int),
{
    let code = code_number(n);
    let owns = match code {
        Some(c) => c > 0,
        None => false,
    };
    let wkt = match &n.wkt {
        Some(w) => Some(String::from_str(w.as_str())),
        None => n.structural_wkt(),
    };
    let organization = text_or(
        &n.authority,
        if owns {
            "EPSG"
        } else {
            "NONE"
        },
    );
    let mut name = if owns && code == Some(number) {
        let mut name = String::from_str(organization.as_str());
        name.append(":");
        name
    } else {
        String::from_str("srs ")
    };
    name.append(signed_decimal_text(number).as_str());
    SrsReg {
        srs_id: number,
        name,
        organization,
        organization_coordsys_id: match code {
            Some(c) => c,
            None => number,
        },
        definition: undefined_or(wkt),
        definition_12_063: undefined_or(opt_clone(wkt2)),
    }
}

fn registered(regs: &Vec<SrsReg>, srs_id: i64) -> (r: bool)
    ensures
        r == is_registered(registrations_view(regs@), srs_id as int),
{
    let ghost all = registrations_view(regs@);
    let mut i: usize = 0;
    while i < regs.len()
        invariant
            i <= regs@.len(),
            all == registrations_view(regs@),
            forall|k: int| 0 <= k < i ==> (#[trigger] all[k]).srs_id != srs_id,
        decreases regs@.len() - i,
    {
        assert(all[i as int] == regs@[i as int]@);
        if regs[i].srs_id == srs_id {
            return true;
        }
        i += 1;
    }
    false
}

/// Whether a number is registered for another system than `n`, whose code it is.
fn anothers(regs: &Vec<SrsReg>, n: &NamedCrs, number: i64) -> (r: bool)
    requires
        has_own_number(n@),
        numeric_code(n@) == Some(number as int),
    ensures
        r == is_anothers(registrations_view(regs@), n@, number as int),
{
    let ghost all = registrations_view(regs@);
    let organization = to_lower(text_or(&n.authority, "EPSG").as_str());
    let mut i: usize = 0;
    while i < regs.len()
        invariant
            i <= regs@.len(),
            all == registrations_view(regs@),
            organization@ == lower_text(organization_of(n@)),
            numeric_code(n@) == Some(number as int),
            forall|k: int|
                0 <= k < i ==> (#[trigger] all[k]).srs_id != number || is_system_of(all[k], n@),
        decreases regs@.len() - i,
    {
        assert(all[i as int] == regs@[i as int]@);
        if regs[i].srs_id == number && !(regs[i].organization_coordsys_id == number && same_text(
            to_lower(regs[i].organization.as_str()).as_str(),
            organization.as_str(),
        )) {
            return true;
        }
        i += 1;
    }
    false
}

/// The number of a system and what is to be registered for it.
fn choose_srs(crs: &Option<Crs>, wkt2: &Option<String>, regs: &Vec<SrsReg>, free: i64) -> (r: (
    i64,
    Option<SrsReg>,
))
    ensures
        ({
            let (id, registration) = choice(
                crs_view(*crs),
                opt_view(*wkt2),
                registrations_view(regs@),
                free as int,
            );
            &&& r.0 == id
            &&& match registration {
                Some(x) => r.1 matches Some(y) && y@ == x,
                None => r.1 is None,
            }
        }),
{
    let n = match crs {
        None => {
            return (UNDEFINED_SRS_ID, None);
        },
        Some(Crs::Wgs84) => {
            return (WGS84_SRS_ID, None);
        },
        Some(Crs::Named(n)) => n,
    };
    if let Some(code) = code_number(n) {
        if code == WGS84_SRS_ID {
            let organization = text_or(&n.authority, "EPSG");
            if same_text(to_lower(organization.as_str()).as_str(), "epsg") {
                return (WGS84_SRS_ID, None);
            }
        } else if code > 0 {
            if !anothers(regs, n, code) {
                return (code, Some(make_registration(n, wkt2, code)));
            }
        }
    }
    (free, Some(make_registration(n, wkt2, free)))
}

pub open spec fn own_numbers(systems: Seq<Option<System>>) -> Seq<Option<int>> {
    systems.map_values(|s: Option<System>| own_number(s))
}

pub open spec fn numbers_view(numbers: Seq<Option<i64>>) -> Seq<Option<int>> {
    numbers.map_values(
        |n: Option<i64>|
            match n {
                Some(v) => Some(v as int),
                None => None,
            },
    )
}

/// The codes of the layers' systems that can be their numbers.
fn codes_of<P: View>(layers: &Vec<Layer<P>>) -> (r: Vec<Option<i64>>)
    ensures
        numbers_view(r@) == own_numbers(systems_view(layers@)),
{
    let ghost ss = systems_view(layers@);
    let mut out: Vec<Option<i64>> = Vec::new();
    let mut i: usize = 0;
    while i < layers.len()
        invariant
            i <= layers@.len(),
            out@.len() == i,
            ss == systems_view(layers@),
            forall|k: int| 0 <= k < i ==> #[trigger] numbers_view(out@)[k] == own_number(ss[k]),
        decreases layers@.len() - i,
    {
        assert(ss[i as int] == crs_view(layers@[i as int].collection.crs));
        let number = match &layers[i].collection.crs {
            Some(Crs::Named(n)) => match code_number(n) {
                Some(c) => if c > 0 && c != WGS84_SRS_ID {
                    Some(c)
                } else {
                    None
                },
                None => None,
            },
            _ => None,
        };
        let ghost before = out@;
        out.push(number);
        assert forall|k: int| 0 <= k < i + 1 implies #[trigger] numbers_view(out@)[k] == own_number(
            ss[k],
        ) by {
            if k < i {
                assert(numbers_view(out@)[k] == numbers_view(before)[k]);
            }
        }
        i += 1;
    }
    assert(numbers_view(out@) =~= own_numbers(ss));
    out
}

fn taken(codes: &Vec<Option<i64>>, regs: &Vec<SrsReg>, number: i64, Ghost(ss): Ghost<
    Seq<Option<System>>,
>) -> (r: bool)
    requires
        numbers_view(codes@) == own_numbers(ss),
    ensures
        r == is_taken(ss, registrations_view(regs@), number as int),
{
    let mut i: usize = 0;
    assert(numbers_view(codes@).len() == codes@.len());
    assert(own_numbers(ss).len() == ss.len());
    while i < codes.len()
        invariant
            i <= codes@.len(),
            codes@.len() == ss.len(),
            numbers_view(codes@) == own_numbers(ss),
            forall|k: int| 0 <= k < i ==> own_number(#[trigger] ss[k]) != Some(number as int),
        decreases codes@.len() - i,
    {
        assert(numbers_view(codes@)[i as int] == own_numbers(ss)[i as int]);
        assert(own_number(ss[i as int]) == own_numbers(ss)[i as int]);
        if let Some(c) = codes[i] {
            if c == number {
                return true;
            }
        }
        i += 1;
    }
    registered(regs, number)
}

/// The next number for a system without one, where none before `from` is free.
fn next_free(codes: &Vec<Option<i64>>, regs: &Vec<SrsReg>, from: i64, Ghost(ss): Ghost<
    Seq<Option<System>>,
>) -> (r: i64)
    requires
        numbers_view(codes@) == own_numbers(ss),
        SYNTHETIC_SRS_BASE <= from,
        ss.len() + regs@.len() < 0x2000_0000_0000_0000,
        forall|k: int|
            SYNTHETIC_SRS_BASE <= k < from ==> #[trigger] is_taken(
                ss,
                registrations_view(regs@),
                k,
            ),
    ensures
        r == free_number(ss, registrations_view(regs@)),
        is_first_free(ss, registrations_view(regs@), r as int),
{
    let ghost all = registrations_view(regs@);
    let mut number: i64 = from;
    proof {
        lemma_taken_bounded(ss, all, from as int);
    }
    while taken(codes, regs, number, Ghost(ss))
        invariant
            numbers_view(codes@) == own_numbers(ss),
            all == registrations_view(regs@),
            all.len() == regs@.len(),
            SYNTHETIC_SRS_BASE <= number <= SYNTHETIC_SRS_BASE + ss.len() + all.len(),
            ss.len() + regs@.len() < 0x2000_0000_0000_0000,
            forall|k: int| SYNTHETIC_SRS_BASE <= k < number ==> #[trigger] is_taken(ss, all, k),
        decreases SYNTHETIC_SRS_BASE + ss.len() + all.len() - number,
    {
        proof {
            lemma_taken_bounded(ss, all, number + 1);
        }
        number += 1;
    }
    proof {
        assert(is_first_free(ss, all, number as int));
        lemma_free_is_one(ss, all, number as int);
    }
    number
}

/// What is taken stays so with more registrations.
proof fn lemma_taken_stays(
    systems: Seq<Option<System>>,
    before: Seq<Registration>,
    after: Seq<Registration>,
    number: int,
)
    requires
        is_taken(systems, before, number),
        before.len() <= after.len(),
        forall|k: int| 0 <= k < before.len() ==> #[trigger] after[k] == before[k],
    ensures
        is_taken(systems, after, number),
{
    if is_registered(before, number) {
        let i = choose|i: int| 0 <= i < before.len() && (#[trigger] before[i]).srs_id == number;
        assert(after[i].srs_id == number);
    }
}

/// There is at most one registration for each layer.
pub proof fn lemma_registrations_bounded(
    systems: Seq<Option<System>>,
    wkt2s: Seq<Option<Seq<char>>>,
    n: int,
)
    requires
        n >= 0,
    ensures
        assigned(systems, wkt2s, n).registrations.len() <= n,
        assigned(systems, wkt2s, n).per_layer.len() == n,
    decreases n,
{
    if n > 0 {
        lemma_registrations_bounded(systems, wkt2s, n - 1);
    }
}

/// Give every layer's system a number, and say what is to be registered. `wkt2s`
/// are the second forms of the systems' WKT, where there are any. Layers have the
/// same number only where they have the same code of the same organization; what is
/// registered is the first one's.
pub fn resolve_srs<P: View>(layers: &Vec<Layer<P>>, wkt2s: &Vec<Option<String>>) -> (r: ResolvedSrs)
    requires
        layers@.len() < 0x1000_0000_0000_0000,
        wkt2s@.len() == layers@.len(),
    ensures
        ({
            let a = assigned(
                systems_view(layers@),
                optional_texts(wkt2s@),
                layers@.len() as int,
            );
            &&& ids_view(r.per_layer@) == a.per_layer
            &&& registrations_view(r.registrations@) == a.registrations
        }),
        r.per_layer@.len() == layers@.len(),
        r.registrations@.len() <= layers@.len(),
{
    let ghost ss = systems_view(layers@);
    let ghost ws = optional_texts(wkt2s@);
    let codes = codes_of(layers);
    let mut per_layer: Vec<i64> = Vec::new();
    let mut registrations: Vec<SrsReg> = Vec::new();
    let mut next: i64 = SYNTHETIC_SRS_BASE;
    let mut i: usize = 0;
    assert(ids_view(per_layer@) =~= Seq::empty());
    assert(registrations_view(registrations@) =~= Seq::empty());
    while i < layers.len()
        invariant
            i <= layers@.len() < 0x1000_0000_0000_0000,
            wkt2s@.len() == layers@.len(),
            ss == systems_view(layers@),
            ws == optional_texts(wkt2s@),
            numbers_view(codes@) == own_numbers(ss),
            ids_view(per_layer@) == assigned(ss, ws, i as int).per_layer,
            registrations_view(registrations@) == assigned(ss, ws, i as int).registrations,
            SYNTHETIC_SRS_BASE <= next,
            forall|k: int|
                SYNTHETIC_SRS_BASE <= k < next ==> #[trigger] is_taken(
                    ss,
                    registrations_view(registrations@),
                    k,
                ),
        decreases layers@.len() - i,
    {
        let ghost known = registrations_view(registrations@);
        proof {
            lemma_registrations_bounded(ss, ws, i as int);
            assert(registrations@.len() == known.len());
            assert(ss[i as int] == crs_view(layers@[i as int].collection.crs));
            assert(ws[i as int] == opt_view(wkt2s@[i as int]));
        }
        next = next_free(&codes, &registrations, next, Ghost(ss));
        let (id, registration) = choose_srs(
            &layers[i].collection.crs,
            &wkt2s[i],
            &registrations,
            next,
        );
        if let Some(reg) = registration {
            if !registered(&registrations, reg.srs_id) {
                registrations.push(reg);
                assert(registrations_view(registrations@) =~= known.push(reg@));
            }
        }
        let ghost before = ids_view(per_layer@);
        per_layer.push(id);
        proof {
            assert(ids_view(per_layer@) =~= before.push(id as int));
            assert forall|k: int| SYNTHETIC_SRS_BASE <= k < next implies #[trigger] is_taken(
                ss,
                registrations_view(registrations@),
                k,
            ) by {
                assert(is_taken(ss, known, k));
                lemma_taken_stays(ss, known, registrations_view(registrations@), k);
            }
        }
        i += 1;
    }
    proof {
        lemma_registrations_bounded(ss, ws, layers@.len() as int);
        assert(ids_view(per_layer@).len() == per_layer@.len());
        assert(registrations_view(registrations@).len() == registrations@.len());
    }
    ResolvedSrs { per_layer, registrations }
}

// --- the table of systems ----------------------------------------------------------------

/// A row of the table of systems. The number stands only as the row's number.
pub open spec fn system_row(
    name: Seq<char>,
    organization: Seq<char>,
    org_id: int,
    definition: Seq<char>,
    description: Seq<char>,
    definition_12_063: Seq<char>,
) -> Seq<Stored> {
    seq![
        Stored::Text(name),
        Stored::Null,
        Stored::Text(organization),
        Stored::Int(org_id),
        Stored::Text(definition),
        Stored::Text(description),
        Stored::Text(definition_12_063),
    ]
}

/// The rows that every GeoPackage has.
pub open spec fn default_systems(wgs84_wkt2: Seq<char>) -> Seq<(int, Seq<Stored>)> {
    seq![
        (
            -1int,
            system_row(
                "Undefined cartesian SRS"@,
                "NONE"@,
                -1,
                "undefined"@,
                "undefined cartesian"@,
                "undefined"@,
            ),
        ),
        (
            0int,
            system_row(
                "Undefined geographic SRS"@,
                "NONE"@,
                0,
                "undefined"@,
                "undefined geographic"@,
                "undefined"@,
            ),
        ),
        (
            4326int,
            system_row("WGS 84 geodetic"@, "EPSG"@, 4326, WGS84_WKT@, "WGS 84"@, wgs84_wkt2),
        ),
    ]
}

/// The row of a registration.
pub open spec fn registration_row(r: Registration) -> (int, Seq<Stored>) {
    (
        r.srs_id,
        system_row(
            r.name,
            r.organization,
            r.organization_coordsys_id,
            r.definition,
            ""@,
            r.definition_12_063,
        ),
    )
}

/// Where a row of a number belongs among rows whose numbers do not descend:
/// behind those whose numbers are not larger.
pub open spec fn place_for(rows: Seq<(int, Seq<Stored>)>, number: int, i: int) -> int
    decreases rows.len() - i,
{
    if i < 0 || i >= rows.len() || rows[i].0 > number {
        i
    } else {
        place_for(rows, number, i + 1)
    }
}

/// The rows of the systems in the order of their numbers, with the first `n`
/// registrations.
pub open spec fn system_rows(
    wgs84_wkt2: Seq<char>,
    registrations: Seq<Registration>,
    n: int,
) -> Seq<(int, Seq<Stored>)>
    decreases n,
{
    if n <= 0 {
        default_systems(wgs84_wkt2)
    } else {
        let before = system_rows(wgs84_wkt2, registrations, n - 1);
        let row = registration_row(registrations[n - 1]);
        before.insert(place_for(before, row.0, 0), row)
    }
}

/// The table of systems.
pub open spec fn systems_plan(wgs84_wkt2: Seq<char>, registrations: Seq<Registration>) -> Plan {
    Plan {
        name: "gpkg_spatial_ref_sys"@,
        sql:
            "CREATE TABLE gpkg_spatial_ref_sys (srs_name TEXT NOT NULL, srs_id INTEGER NOT NULL PRIMARY KEY, organization TEXT NOT NULL, organization_coordsys_id INTEGER NOT NULL, definition TEXT NOT NULL, description TEXT, definition_12_063 TEXT)"@,
        rows: system_rows(wgs84_wkt2, registrations, registrations.len() as int),
    }
}

fn system_values(
    name: &str,
    organization: &str,
    org_id: i64,
    definition: &str,
    description: &str,
    definition_12_063: &str,
) -> (r: Vec<Value>)
    ensures
        values_view(r@) == system_row(
            name@,
            organization@,
            org_id as int,
            definition@,
            description@,
            definition_12_063@,
        ),
{
    let mut r: Vec<Value> = Vec::new();
    r.push(Value::Text(String::from_str(name)));
    r.push(Value::Null);
    r.push(Value::Text(String::from_str(organization)));
    r.push(Value::Int(org_id));
    r.push(Value::Text(String::from_str(definition)));
    r.push(Value::Text(String::from_str(description)));
    r.push(Value::Text(String::from_str(definition_12_063)));
    assert(values_view(r@) =~= system_row(
        name@,
        organization@,
        org_id as int,
        definition@,
        description@,
        definition_12_063@,
    ));
    r
}

fn insert_row(rows: &mut Vec<(i64, Vec<Value>)>, number: i64, row: Vec<Value>)
    ensures
        numbered_view(final(rows)@) == numbered_view(old(rows)@).insert(
            place_for(numbered_view(old(rows)@), number as int, 0),
            (number as int, values_view(row@)),
        ),
{
    let ghost before = numbered_view(rows@);
    let mut i: usize = 0;
    while i < rows.len() && rows[i].0 <= number
        invariant
            i <= rows@.len(),
            *rows == *old(rows),
            before == numbered_view(rows@),
            place_for(before, number as int, 0) == place_for(before, number as int, i as int),
        decreases rows@.len() - i,
    {
        assert(before[i as int].0 == rows@[i as int].0);
        i += 1;
    }
    proof {
        if i < rows@.len() {
            assert(before[i as int].0 == rows@[i as int].0);
        }
    }
    let ghost new = (number as int, values_view(row@));
    rows.insert(i, (number, row));
    assert(numbered_view(rows@) =~= before.insert(i as int, new));
}

/// The table of systems. `wgs84_wkt2` is the second form of the WKT of WGS 84.
pub fn spatial_ref_sys(wgs84_wkt2: &str, registrations: &Vec<SrsReg>) -> (r: TableSpec)
    ensures
        r@ == systems_plan(wgs84_wkt2@, registrations_view(registrations@)),
{
    let ghost regs = registrations_view(registrations@);
    let mut rows: Vec<(i64, Vec<Value>)> = Vec::new();
    rows.push(
        (
            -1,
            system_values(
                "Undefined cartesian SRS",
                "NONE",
                -1,
                "undefined",
                "undefined cartesian",
                "undefined",
            ),
        ),
    );
    rows.push(
        (
            0,
            system_values(
                "Undefined geographic SRS",
                "NONE",
                0,
                "undefined",
                "undefined geographic",
                "undefined",
            ),
        ),
    );
    rows.push(
        (
            4326,
            system_values("WGS 84 geodetic", "EPSG", 4326, WGS84_WKT, "WGS 84", wgs84_wkt2),
        ),
    );
    assert(numbered_view(rows@) =~= default_systems(wgs84_wkt2@));
    let mut i: usize = 0;
    while i < registrations.len()
        invariant
            i <= registrations@.len(),
            regs == registrations_view(registrations@),
            numbered_view(rows@) == system_rows(wgs84_wkt2@, regs, i as int),
        decreases registrations@.len() - i,
    {
        let reg = &registrations[i];
        assert(regs[i as int] == reg@);
        let values = system_values(
            reg.name.as_str(),
            reg.organization.as_str(),
            reg.organization_coordsys_id,
            reg.definition.as_str(),
            "",
            reg.definition_12_063.as_str(),
        );
        insert_row(&mut rows, reg.srs_id, values);
        i += 1;
    }
    TableSpec {
        name: String::from_str("gpkg_spatial_ref_sys"),
        sql: String::from_str(
            "CREATE TABLE gpkg_spatial_ref_sys (srs_name TEXT NOT NULL, srs_id INTEGER NOT NULL PRIMARY KEY, organization TEXT NOT NULL, organization_coordsys_id INTEGER NOT NULL, definition TEXT NOT NULL, description TEXT, definition_12_063 TEXT)",
        ),
        rows,
    }
}

// --- the catalogue -------------------------------------------------------------------------

/// The bounds of a box, or nulls where it has none.
pub open spec fn bounds_of(b: Bbox) -> Seq<Stored> {
    if is_above(b.min_x, b.max_x) {
        seq![Stored::Null, Stored::Null, Stored::Null, Stored::Null]
    } else {
        seq![
            Stored::Real(b.min_x),
            Stored::Real(b.min_y),
            Stored::Real(b.max_x),
            Stored::Real(b.max_y),
        ]
    }
}

/// The row of a layer among the contents.
pub open spec fn contents_row<W>(l: LayerModel<W>, srs_id: int) -> Seq<Stored> {
    seq![
        Stored::Text(l.name),
        Stored::Text("features"@),
        Stored::Text(l.name),
        Stored::Text(""@),
        Stored::Text(LAST_CHANGE@),
    ] + bounds_of(box_around(geometries(l.items.features))) + seq![Stored::Int(srs_id)]
}

/// The table of contents.
pub open spec fn contents_plan<W>(layers: Seq<LayerModel<W>>, ids: Seq<int>) -> Plan {
    Plan {
        name: "gpkg_contents"@,
        sql:
            "CREATE TABLE gpkg_contents (table_name TEXT NOT NULL, data_type TEXT NOT NULL, identifier TEXT, description TEXT, last_change DATETIME NOT NULL, min_x DOUBLE, min_y DOUBLE, max_x DOUBLE, max_y DOUBLE, srs_id INTEGER)"@,
        rows: Seq::new(layers.len(), |i: int| (i + 1, contents_row(layers[i], ids[i]))),
    }
}

/// The row of a layer among the geometry columns.
pub open spec fn geometry_row(name: Seq<char>, srs_id: int) -> Seq<Stored> {
    seq![
        Stored::Text(name),
        Stored::Text("geom"@),
        Stored::Text("GEOMETRY"@),
        Stored::Int(srs_id),
        Stored::Int(0),
        Stored::Int(0),
    ]
}

/// The table of geometry columns.
pub open spec fn geometry_plan<W>(layers: Seq<LayerModel<W>>, ids: Seq<int>) -> Plan {
    Plan {
        name: "gpkg_geometry_columns"@,
        sql:
            "CREATE TABLE gpkg_geometry_columns (table_name TEXT NOT NULL, column_name TEXT NOT NULL, geometry_type_name TEXT NOT NULL, srs_id INTEGER NOT NULL, z TINYINT NOT NULL, m TINYINT NOT NULL)"@,
        rows: Seq::new(layers.len(), |i: int| (i + 1, geometry_row(layers[i].name, ids[i]))),
    }
}

/// The box around features.
pub fn features_bbox<P: View>(features: &Vec<Feature<u64, P>>) -> (b: Bbox)
    ensures
        b == box_around(geometries(features_view(features@))),
{
    let ghost items = features_view(features@);
    let mut b = Bbox::empty();
    let mut i: usize = 0;
    assert(items.take(0) =~= Seq::empty());
    while i < features.len()
        invariant
            i <= features@.len(),
            items == features_view(features@),
            b == box_around(geometries(items.take(i as int))),
        decreases features@.len() - i,
    {
        assert(items.take(i + 1).drop_last() =~= items.take(i as int));
        assert(items.take(i + 1).last() == features@[i as int]@);
        if let Some(g) = &features[i].geometry {
            let ghost before = geometries(items.take(i as int));
            g.extend_bbox(&mut b);
            assert(before.push(g@).drop_last() =~= before);
        }
        i += 1;
    }
    assert(items.take(i as int) =~= items);
    b
}

fn push_bounds(r: &mut Vec<Value>, b: &Bbox)
    ensures
        values_view(final(r)@) == values_view(old(r)@) + bounds_of(*b),
{
    let ghost before = values_view(r@);
    if b.is_empty() {
        r.push(Value::Null);
        r.push(Value::Null);
        r.push(Value::Null);
        r.push(Value::Null);
    } else {
        r.push(Value::Real(b.min_x));
        r.push(Value::Real(b.min_y));
        r.push(Value::Real(b.max_x));
        r.push(Value::Real(b.max_y));
    }
    assert(values_view(r@) =~= before + bounds_of(*b));
}

fn contents_values<P: View>(l: &Layer<P>, srs_id: i64) -> (r: Vec<Value>)
    ensures
        values_view(r@) == contents_row(l@, srs_id as int),
{
    let mut r = five_texts(l.name.as_str(), "features", l.name.as_str(), "", LAST_CHANGE);
    let b = features_bbox(&l.collection.features);
    push_bounds(&mut r, &b);
    let ghost before = values_view(r@);
    r.push(Value::Int(srs_id));
    assert(values_view(r@) =~= before.push(Stored::Int(srs_id as int)));
    assert(values_view(r@) =~= contents_row(l@, srs_id as int));
    r
}

fn gpkg_contents<P: View>(layers: &Vec<Layer<P>>, per_layer: &Vec<i64>) -> (r: TableSpec)
    requires
        layers@.len() < 0x1000_0000_0000_0000,
        per_layer@.len() == layers@.len(),
    ensures
        r@ == contents_plan(layer_models(layers@), ids_view(per_layer@)),
{
    let ghost all = contents_plan(layer_models(layers@), ids_view(per_layer@)).rows;
    let mut rows: Vec<(i64, Vec<Value>)> = Vec::new();
    let mut i: usize = 0;
    while i < layers.len()
        invariant
            i <= layers@.len() < 0x1000_0000_0000_0000,
            per_layer@.len() == layers@.len(),
            all == contents_plan(layer_models(layers@), ids_view(per_layer@)).rows,
            numbered_view(rows@) == all.take(i as int),
        decreases layers@.len() - i,
    {
        let row = contents_values(&layers[i], per_layer[i]);
        let ghost before = numbered_view(rows@);
        let ghost new = (i + 1, values_view(row@));
        rows.push(((i + 1) as i64, row));
        assert(numbered_view(rows@) =~= before.push(new));
        assert(all[i as int] == new);
        assert(all.take(i + 1) =~= all.take(i as int).push(new));
        i += 1;
    }
    assert(all.take(i as int) =~= all);
    TableSpec {
        name: String::from_str("gpkg_contents"),
        sql: String::from_str(
            "CREATE TABLE gpkg_contents (table_name TEXT NOT NULL, data_type TEXT NOT NULL, identifier TEXT, description TEXT, last_change DATETIME NOT NULL, min_x DOUBLE, min_y DOUBLE, max_x DOUBLE, max_y DOUBLE, srs_id INTEGER)",
        ),
        rows,
    }
}

fn geometry_values(name: &str, srs_id: i64) -> (r: Vec<Value>)
    ensures
        values_view(r@) == geometry_row(name@, srs_id as int),
{
    let mut r: Vec<Value> = Vec::new();
    r.push(Value::Text(String::from_str(name)));
    r.push(Value::Text(String::from_str("geom")));
    r.push(Value::Text(String::from_str("GEOMETRY")));
    r.push(Value::Int(srs_id));
    r.push(Value::Int(0));
    r.push(Value::Int(0));
    assert(values_view(r@) =~= geometry_row(name@, srs_id as int));
    r
}

fn geometry_columns<P: View>(layers: &Vec<Layer<P>>, per_layer: &Vec<i64>) -> (r: TableSpec)
    requires
        layers@.len() < 0x1000_0000_0000_0000,
        per_layer@.len() == layers@.len(),
    ensures
        r@ == geometry_plan(layer_models(layers@), ids_view(per_layer@)),
{
    let ghost all = geometry_plan(layer_models(layers@), ids_view(per_layer@)).rows;
    let mut rows: Vec<(i64, Vec<Value>)> = Vec::new();
    let mut i: usize = 0;
    while i < layers.len()
        invariant
            i <= layers@.len() < 0x1000_0000_0000_0000,
            per_layer@.len() == layers@.len(),
            all == geometry_plan(layer_models(layers@), ids_view(per_layer@)).rows,
            numbered_view(rows@) == all.take(i as int),
        decreases layers@.len() - i,
    {
        let row = geometry_values(layers[i].name.as_str(), per_layer[i]);
        let ghost before = numbered_view(rows@);
        let ghost new = (i + 1, values_view(row@));
        rows.push(((i + 1) as i64, row));
        assert(numbered_view(rows@) =~= before.push(new));
        assert(all[i as int] == new);
        assert(all.take(i + 1) =~= all.take(i as int).push(new));
        i += 1;
    }
    assert(all.take(i as int) =~= all);
    TableSpec {
        name: String::from_str("gpkg_geometry_columns"),
        sql: String::from_str(
            "CREATE TABLE gpkg_geometry_columns (table_name TEXT NOT NULL, column_name TEXT NOT NULL, geometry_type_name TEXT NOT NULL, srs_id INTEGER NOT NULL, z TINYINT NOT NULL, m TINYINT NOT NULL)",
        ),
        rows,
    }
}


// --- feature tables ------------------------------------------------------------------------

/// A name with each quote in it doubled.
pub open spec fn doubled(s: Seq<char>) -> Seq<char>
    decreases s.len(),
{
    if s.len() == 0 {
        Seq::empty()
    } else if s.last() == '"' {
        doubled(s.drop_last()).push('"').push('"')
    } else {
        doubled(s.drop_last()).push(s.last())
    }
}

/// A name as an identifier.
pub open spec fn quoted(name: Seq<char>) -> Seq<char> {
    "\""@ + doubled(name) + "\""@
}

/// The stored type of a column.
pub open spec fn type_text(ty: ColumnType) -> Seq<char> {
    match ty {
        ColumnType::Bool => "BOOLEAN"@,
        ColumnType::Int64 => "INTEGER"@,
        ColumnType::Double => "REAL"@,
        ColumnType::String => "TEXT"@,
    }
}

/// The definitions of the first `n` columns.
pub open spec fn columns_sql(columns: Seq<Field<u64>>, n: int) -> Seq<char>
    decreases n,
{
    if n <= 0 {
        Seq::empty()
    } else {
        columns_sql(columns, n - 1) + ", "@ + quoted(columns[n - 1].name) + " "@ + type_text(
            columns[n - 1].ty,
        )
    }
}

/// The definition of a layer's table: the number, the geometry and the columns.
pub open spec fn table_sql(name: Seq<char>, columns: Seq<Field<u64>>) -> Seq<char> {
    "CREATE TABLE "@ + quoted(name)
        + " (\"fid\" INTEGER PRIMARY KEY NOT NULL, \"geom\" GEOMETRY"@ + columns_sql(
        columns,
        columns.len() as int,
    ) + ")"@
}

/// The bounds that a geometry's envelope has, in order; none where the geometry
/// has no positions.
pub open spec fn envelope_bounds(b: Bbox) -> Seq<u64> {
    if is_above(b.min_x, b.max_x) {
        Seq::empty()
    } else {
        seq![b.min_x, b.max_x, b.min_y, b.max_y] + (match b.z {
            Some((lo, hi)) => seq![lo, hi],
            None => Seq::empty(),
        }) + (match b.m {
            Some((lo, hi)) => seq![lo, hi],
            None => Seq::empty(),
        })
    }
}

/// The flags of a geometry's header: little-endian numbers, and what its envelope
/// bounds.
pub open spec fn envelope_flags(b: Bbox) -> u8 {
    if is_above(b.min_x, b.max_x) {
        1
    } else {
        match (b.z, b.m) {
            (None, None) => 3,
            (Some(_), None) => 5,
            (None, Some(_)) => 7,
            (Some(_), Some(_)) => 9,
        }
    }
}

/// Doubles one after another.
pub open spec fn doubles_bytes(vals: Seq<u64>) -> Seq<u8>
    decreases vals.len(),
{
    if vals.len() == 0 {
        Seq::empty()
    } else {
        doubles_bytes(vals.drop_last()) + le_bytes(vals.last() as nat, 8)
    }
}

/// The box whose envelope a geometry has: its own where it is to have one, and
/// else that of no positions.
pub open spec fn stored_box(s: Shape<u64>, boxed: bool) -> Bbox {
    if boxed {
        folded(empty_bbox(), positions(s))
    } else {
        empty_bbox()
    }
}

/// A geometry as it is stored: `GP`, version zero, the flags, the system's
/// number, the envelope where the geometry is `boxed`, and WKB.
pub open spec fn geometry_blob(s: Shape<u64>, srs_id: int, boxed: bool) -> Seq<u8> {
    let b = stored_box(s, boxed);
    seq![0x47u8, 0x50, 0, envelope_flags(b)] + le_bytes(
        unsigned(srs_id, 0x1_0000_0000_0000_0000),
        4,
    ) + doubles_bytes(envelope_bounds(b)) + wkb_bytes(s)
}

/// A cell as it is stored. Truth values are one and zero.
pub open spec fn stored_cell(d: Datum<u64>) -> Stored {
    match d {
        Datum::Null => Stored::Null,
        Datum::Bool(b) => Stored::Int(
            if b {
                1
            } else {
                0
            },
        ),
        Datum::Int(n) => Stored::Int(n),
        Datum::Double(v) => Stored::Real(v),
        Datum::Str(s) => Stored::Text(s),
    }
}

/// The row of a feature.
pub open spec fn feature_row<W>(l: LayerModel<W>, srs_id: int, boxed: bool, i: int) -> Seq<Stored> {
    seq![
        Stored::Null,
        match l.items.features[i].geometry {
            Some(s) => Stored::Blob(geometry_blob(s, srs_id, boxed)),
            None => Stored::Null,
        },
    ] + l.columns.map_values(|c: Field<u64>| stored_cell(c.values[i]))
}

/// A layer's table.
pub open spec fn feature_plan<W>(l: LayerModel<W>, srs_id: int, boxed: bool) -> Plan {
    Plan {
        name: l.name,
        sql: table_sql(l.name, l.columns),
        rows: Seq::new(l.items.features.len(), |i: int| (i + 1, feature_row(l, srs_id, boxed, i))),
    }
}

/// Quote an identifier, doubling any quotes in it.
fn quote(name: &str) -> (r: String)
    ensures
        r@ == quoted(name@),
{
    let chars = chars_of(name);
    let mut r = String::from_str("\"");
    let ghost start = r@;
    let mut i: usize = 0;
    assert(start + doubled(chars@.take(0)) =~= start);
    while i < chars.len()
        invariant
            i <= chars@.len(),
            r@ == start + doubled(chars@.take(i as int)),
        decreases chars@.len() - i,
    {
        let ghost before = doubled(chars@.take(i as int));
        if chars[i] == '"' {
            r.push('"');
        }
        r.push(chars[i]);
        assert(chars@.take(i + 1).drop_last() =~= chars@.take(i as int));
        assert(chars@.take(i + 1).last() == chars@[i as int]);
        assert(r@ =~= start + doubled(chars@.take(i + 1)));
        i += 1;
    }
    assert(chars@.take(i as int) =~= name@);
    r.append("\"");
    r
}

fn sqlite_type(ty: ColumnType) -> (r: &'static str)
    ensures
        r@ == type_text(ty),
{
    match ty {
        ColumnType::Bool => "BOOLEAN",
        ColumnType::Int64 => "INTEGER",
        ColumnType::Double => "REAL",
        ColumnType::String => "TEXT",
    }
}

fn table_definition(name: &str, columns: &Vec<Column<u64>>) -> (sql: String)
    ensures
        sql@ == table_sql(name@, columns_view(columns@)),
{
    let ghost cs = columns_view(columns@);
    let mut sql = String::from_str("CREATE TABLE ");
    sql.append(quote(name).as_str());
    sql.append(" (\"fid\" INTEGER PRIMARY KEY NOT NULL, \"geom\" GEOMETRY");
    let ghost start = sql@;
    let mut i: usize = 0;
    assert(start + columns_sql(cs, 0) =~= start);
    while i < columns.len()
        invariant
            i <= columns@.len(),
            cs == columns_view(columns@),
            sql@ == start + columns_sql(cs, i as int),
        decreases columns@.len() - i,
    {
        assert(cs[i as int] == columns@[i as int]@);
        sql.append(", ");
        sql.append(quote(columns[i].name.as_str()).as_str());
        sql.append(" ");
        sql.append(sqlite_type(columns[i].ty));
        assert(sql@ =~= start + columns_sql(cs, i + 1));
        i += 1;
    }
    sql.append(")");
    sql
}

fn bounds_and_flags(b: &Bbox) -> (r: (Vec<u64>, u8))
    ensures
        r.0@ == envelope_bounds(*b),
        r.1 == envelope_flags(*b),
{
    let mut bounds: Vec<u64> = Vec::new();
    if b.is_empty() {
        return (bounds, 1);
    }
    bounds.push(b.min_x);
    bounds.push(b.max_x);
    bounds.push(b.min_y);
    bounds.push(b.max_y);
    let mut flags: u8 = 3;
    if let Some((lo, hi)) = b.z {
        bounds.push(lo);
        bounds.push(hi);
        flags = 5;
    }
    if let Some((lo, hi)) = b.m {
        bounds.push(lo);
        bounds.push(hi);
        flags = flags + 4;
    }
    assert(bounds@ =~= envelope_bounds(*b));
    (bounds, flags)
}

/// A geometry as it is stored, with its envelope where it is `boxed`.
pub fn gpkg_geometry(g: &Geometry<u64>, srs_id: i64, boxed: bool) -> (out: Vec<u8>)
    ensures
        out@ == geometry_blob(g@, srs_id as int, boxed),
{
    let b = if boxed {
        g.bbox()
    } else {
        Bbox::empty()
    };
    let (bounds, flags) = bounds_and_flags(&b);
    let wkb = encode(g);
    let mut out: Vec<u8> = Vec::new();
    out.push(0x47);
    out.push(0x50);
    out.push(0);
    out.push(flags);
    assert(out@ =~= seq![0x47u8, 0x50, 0, flags]);
    push_le(&mut out, unsigned64(srs_id), 4);
    let ghost head = out@;
    let mut i: usize = 0;
    assert(head + doubles_bytes(bounds@.take(0)) =~= head);
    while i < bounds.len()
        invariant
            i <= bounds@.len(),
            out@ == head + doubles_bytes(bounds@.take(i as int)),
        decreases bounds@.len() - i,
    {
        push_le(&mut out, bounds[i], 8);
        proof {
            let longer = bounds@.take(i + 1);
            assert(longer.drop_last() =~= bounds@.take(i as int));
            assert(out@ =~= head + doubles_bytes(longer));
        }
        i += 1;
    }
    assert(bounds@.take(i as int) =~= bounds@);
    out.extend_from_slice(wkb.as_slice());
    assert(out@ =~= geometry_blob(g@, srs_id as int, boxed));
    out
}

fn cell_to_value(cell: &schema::Cell<u64>) -> (r: Value)
    ensures
        r@ == stored_cell(cell@),
{
    match cell {
        schema::Cell::Null => Value::Null,
        schema::Cell::Bool(b) => Value::Int(
            if *b {
                1
            } else {
                0
            },
        ),
        schema::Cell::Int(n) => Value::Int(*n),
        schema::Cell::Double(v) => Value::Real(*v),
        schema::Cell::Str(s) => Value::Text(String::from_str(s.as_str())),
    }
}

fn feature_values<P: View>(l: &Layer<P>, srs_id: i64, boxed: bool, i: usize) -> (r: Vec<Value>)
    requires
        i < l.collection.features@.len(),
        is_layer(l@),
    ensures
        values_view(r@) == feature_row(l@, srs_id as int, boxed, i as int),
{
    let ghost items = features_view(l.collection.features@);
    let ghost cs = columns_view(l.columns@);
    let ghost cells = cs.map_values(|c: Field<u64>| stored_cell(c.values[i as int]));
    assert(items[i as int] == l.collection.features@[i as int]@);
    let mut r: Vec<Value> = Vec::new();
    r.push(Value::Null);
    r.push(
        match &l.collection.features[i].geometry {
            Some(g) => Value::Blob(gpkg_geometry(g, srs_id, boxed)),
            None => Value::Null,
        },
    );
    let ghost head = values_view(r@);
    assert(head =~= feature_row(l@, srs_id as int, boxed, i as int).take(2));
    let mut k: usize = 0;
    assert(head + cells.take(0) =~= head);
    while k < l.columns.len()
        invariant
            k <= l.columns@.len(),
            i < l.collection.features@.len(),
            is_layer(l@),
            cs == columns_view(l.columns@),
            cells == cs.map_values(|c: Field<u64>| stored_cell(c.values[i as int])),
            values_view(r@) == head + cells.take(k as int),
        decreases l.columns@.len() - k,
    {
        assert(l@.columns[k as int] == l.columns@[k as int]@);
        assert(is_column(l@.columns[k as int], l@.items.features.len()));
        let v = cell_to_value(&l.columns[k].values[i]);
        let ghost before = values_view(r@);
        r.push(v);
        assert(values_view(r@) =~= before.push(v@));
        assert(cells[k as int] == v@);
        assert(cells.take(k + 1) =~= cells.take(k as int).push(v@));
        k += 1;
    }
    assert(cells.take(k as int) =~= cells);
    assert(values_view(r@) =~= feature_row(l@, srs_id as int, boxed, i as int));
    r
}

fn feature_table<P: View>(l: &Layer<P>, srs_id: i64, boxed: bool) -> (r: TableSpec)
    requires
        is_layer(l@),
    ensures
        r@ == feature_plan(l@, srs_id as int, boxed),
{
    let ghost all = feature_plan(l@, srs_id as int, boxed).rows;
    let mut rows: Vec<(i64, Vec<Value>)> = Vec::new();
    let mut i: usize = 0;
    while i < l.collection.features.len()
        invariant
            i <= l.collection.features@.len(),
            is_layer(l@),
            all == feature_plan(l@, srs_id as int, boxed).rows,
            numbered_view(rows@) == all.take(i as int),
        decreases l.collection.features@.len() - i,
    {
        let row = feature_values(l, srs_id, boxed, i);
        let ghost before = numbered_view(rows@);
        let ghost new = (i + 1, values_view(row@));
        rows.push(((i + 1) as i64, row));
        assert(numbered_view(rows@) =~= before.push(new));
        assert(all[i as int] == new);
        assert(all.take(i + 1) =~= all.take(i as int).push(new));
        i += 1;
    }
    assert(all.take(i as int) =~= all);
    TableSpec {
        name: String::from_str(l.name.as_str()),
        sql: table_definition(l.name.as_str(), &l.columns),
        rows,
    }
}

// --- the extensions ------------------------------------------------------------------------

/// The row that registers the column with the second form of WKT.
pub open spec fn crs_wkt_row() -> Seq<Stored> {
    seq![
        Stored::Text("gpkg_spatial_ref_sys"@),
        Stored::Text("definition_12_063"@),
        Stored::Text("gpkg_crs_wkt"@),
        Stored::Text("http://www.geopackage.org/spec120/#extension_crs_wkt"@),
        Stored::Text("read-write"@),
    ]
}

/// The table of extensions: the index of each layer, where there are indexes, and
/// the second form of WKT.
pub open spec fn extensions_plan(names: Seq<Seq<char>>, indexed: bool) -> Plan {
    let indexes = if indexed {
        Seq::new(names.len(), |i: int| (i + 1, rtree::extension_row(names[i])))
    } else {
        Seq::empty()
    };
    Plan {
        rows: indexes.push(((indexes.len() + 1) as int, crs_wkt_row())),
        ..rtree::extensions_plan(names)
    }
}

fn extensions_table(names: &Vec<String>, indexed: bool) -> (r: TableSpec)
    requires
        names@.len() < 0x1000_0000_0000_0000,
    ensures
        r@ == extensions_plan(crate::sqlite::texts_view(names@), indexed),
{
    let mut table = rtree::extensions_table(names);
    if !indexed {
        table.rows = Vec::new();
    }
    let ghost before = numbered_view(table.rows@);
    assert(!indexed ==> before =~= Seq::empty());
    let row = five_texts(
        "gpkg_spatial_ref_sys",
        "definition_12_063",
        "gpkg_crs_wkt",
        "http://www.geopackage.org/spec120/#extension_crs_wkt",
        "read-write",
    );
    let number: i64 = table.rows.len() as i64 + 1;
    let mut rows = table.rows;
    let ghost new = (number as int, values_view(row@));
    rows.push((number, row));
    assert(numbered_view(rows@) =~= before.push(new));
    let r = TableSpec { name: table.name, sql: table.sql, rows };
    r
}

// --- the whole -------------------------------------------------------------------------------

/// The tables of layers, before those of indexes.
pub open spec fn layer_plans<W>(
    layers: Seq<LayerModel<W>>,
    a: Assignment,
    wgs84_wkt2: Seq<char>,
    indexed: bool,
    boxed: bool,
) -> Seq<Plan> {
    seq![
        systems_plan(wgs84_wkt2, a.registrations),
        contents_plan(layers, a.per_layer),
        geometry_plan(layers, a.per_layer),
        extensions_plan(layers.map_values(|l: LayerModel<W>| l.name), indexed),
    ] + feature_plans(layers, a.per_layer, boxed)
}

/// The feature tables of layers.
pub open spec fn feature_plans<W>(
    layers: Seq<LayerModel<W>>,
    ids: Seq<int>,
    boxed: bool,
) -> Seq<Plan> {
    Seq::new(layers.len(), |i: int| feature_plan(layers[i], ids[i], boxed))
}

/// The tables and schema entries of a database.
#[derive(Debug, PartialEq)]
pub struct Schema {
    pub tables: Vec<TableSpec>,
    pub master: Vec<MasterEntry>,
}

/// The second form of a system's WKT in the registry.
pub open spec fn registry_wkt2(crs: Option<System>) -> Option<Seq<char>> {
    match crs {
        Some(System::Named(r)) => match (r.authority, r.code) {
            (Some(a), Some(c)) => match registry_entry(a, c) {
                Some(e) => e.2,
                None => None,
            },
            _ => None,
        },
        _ => None,
    }
}

fn wkt2_of(crs: &Option<Crs>) -> (r: Option<String>)
    ensures
        opt_view(r) == registry_wkt2(crs_view(*crs)),
{
    match crs {
        Some(Crs::Named(n)) => match (&n.authority, &n.code) {
            (Some(a), Some(c)) => match def_wkt2(a.as_str(), c.as_str()) {
                Some(w) => Some(String::from_str(w)),
                None => None,
            },
            _ => None,
        },
        _ => None,
    }
}

fn names_of<P: View>(layers: &Vec<Layer<P>>) -> (r: Vec<String>)
    ensures
        crate::sqlite::texts_view(r@) == layer_models(layers@).map_values(
            |l: LayerModel<P::V>| l.name,
        ),
{
    let ghost all = layer_models(layers@).map_values(|l: LayerModel<P::V>| l.name);
    let mut r: Vec<String> = Vec::new();
    let mut i: usize = 0;
    while i < layers.len()
        invariant
            i <= layers@.len(),
            all == layer_models(layers@).map_values(|l: LayerModel<P::V>| l.name),
            crate::sqlite::texts_view(r@) == all.take(i as int),
        decreases layers@.len() - i,
    {
        let name = String::from_str(layers[i].name.as_str());
        let ghost before = crate::sqlite::texts_view(r@);
        r.push(name);
        assert(crate::sqlite::texts_view(r@) =~= before.push(name@));
        assert(all[i as int] == name@);
        assert(all.take(i + 1) =~= all.take(i as int).push(name@));
        i += 1;
    }
    assert(all.take(i as int) =~= all);
    r
}

/// The feature tables of layers.
fn feature_tables<P: View>(
    layers: &Vec<Layer<P>>,
    per_layer: &Vec<i64>,
    boxed: bool,
) -> (tables: Vec<TableSpec>)
    requires
        per_layer@.len() == layers@.len(),
        forall|i: int| 0 <= i < layers@.len() ==> is_layer((#[trigger] layers@[i])@),
    ensures
        plans_view(tables@) == feature_plans(layer_models(layers@), ids_view(per_layer@), boxed),
{
    let ghost models = layer_models(layers@);
    let ghost ids = ids_view(per_layer@);
    let ghost all = feature_plans(models, ids, boxed);
    let mut tables: Vec<TableSpec> = Vec::new();
    let mut i: usize = 0;
    while i < layers.len()
        invariant
            i <= layers@.len() == per_layer@.len(),
            forall|i: int| 0 <= i < layers@.len() ==> is_layer((#[trigger] layers@[i])@),
            models == layer_models(layers@),
            ids == ids_view(per_layer@),
            all == feature_plans(models, ids, boxed),
            plans_view(tables@) == all.take(i as int),
        decreases layers@.len() - i,
    {
        let t = feature_table(&layers[i], per_layer[i], boxed);
        let ghost before = plans_view(tables@);
        tables.push(t);
        assert(plans_view(tables@) =~= before.push(t@));
        assert(all[i as int] == t@);
        assert(all.take(i + 1) =~= all.take(i as int).push(t@));
        i += 1;
    }
    assert(all.take(i as int) =~= all);
    tables
}

fn four_tables(a: TableSpec, b: TableSpec, c: TableSpec, d: TableSpec) -> (r: Vec<TableSpec>)
    ensures
        plans_view(r@) == seq![a@, b@, c@, d@],
{
    let mut r: Vec<TableSpec> = Vec::new();
    r.push(a);
    r.push(b);
    r.push(c);
    r.push(d);
    assert(plans_view(r@) =~= seq![a@, b@, c@, d@]);
    r
}

/// The tables of layers. `wkt2s` are the second forms of the WKT of the layers'
/// systems, and `wgs84_wkt2` that of WGS 84.
pub fn layer_tables<P: View>(
    layers: &Vec<Layer<P>>,
    wkt2s: &Vec<Option<String>>,
    wgs84_wkt2: &Option<String>,
    indexed: bool,
    boxed: bool,
) -> (tables: Vec<TableSpec>)
    requires
        layers@.len() < 0x1000_0000_0000_0000,
        wkt2s@.len() == layers@.len(),
        forall|i: int| 0 <= i < layers@.len() ==> is_layer((#[trigger] layers@[i])@),
    ensures
        plans_view(tables@) == layer_plans(
            layer_models(layers@),
            assigned(systems_view(layers@), optional_texts(wkt2s@), layers@.len() as int),
            or_undefined(opt_view(*wgs84_wkt2)),
            indexed,
            boxed,
        ),
        tables@.len() == 4 + layers@.len(),
{
    let srs = resolve_srs(layers, wkt2s);
    proof {
        lemma_one_id_each(systems_view(layers@), optional_texts(wkt2s@), layers@.len() as int);
        assert(ids_view(srs.per_layer@).len() == srs.per_layer@.len());
    }
    let wgs84 = undefined_or(opt_clone(wgs84_wkt2));
    let names = names_of(layers);
    let a = spatial_ref_sys(wgs84.as_str(), &srs.registrations);
    let b = gpkg_contents(layers, &srs.per_layer);
    let c = geometry_columns(layers, &srs.per_layer);
    proof {
        assert(crate::sqlite::texts_view(names@).len() == names@.len());
    }
    let d = extensions_table(&names, indexed);
    let mut tables = four_tables(a, b, c, d);
    let mut rest = feature_tables(layers, &srs.per_layer, boxed);
    let ghost head = tables@;
    let ghost tail = rest@;
    tables.append(&mut rest);
    proof {
        assert(plans_view(tables@) =~= plans_view(head) + plans_view(tail));
        assert(plans_view(tables@).len() == tables@.len());
    }
    tables
}

proof fn lemma_one_id_each(systems: Seq<Option<System>>, wkt2s: Seq<Option<Seq<char>>>, n: int)
    requires
        n >= 0,
    ensures
        assigned(systems, wkt2s, n).per_layer.len() == n,
    decreases n,
{
    if n > 0 {
        lemma_one_id_each(systems, wkt2s, n - 1);
    }
}

/// The index of each layer stands behind the layers' tables, three tables for
/// each.
pub open spec fn index_tables_from(
    tables: Seq<TableSpec>,
    base: int,
    names: Seq<Seq<char>>,
    indexes: Seq<Vec<(i64, Cell)>>,
    n: int,
) -> bool {
    &&& tables.len() == base + 3 * n
    &&& forall|i: int|
        0 <= i < n ==> {
            &&& tables[base + 3 * i]@ == rtree::node_plan(names[i], (#[trigger] indexes[i])@)
            &&& rtree::is_rowid_plan(tables[base + 3 * i + 1]@, names[i], indexes[i]@)
            &&& tables[base + 3 * i + 2]@ == rtree::parent_plan(names[i], indexes[i]@)
        }
}

/// The schema entries of the first `n` indexes.
pub open spec fn index_declarations(names: Seq<Seq<char>>, n: int) -> Seq<Declaration>
    decreases n,
{
    if n <= 0 {
        Seq::empty()
    } else {
        index_declarations(names, n - 1) + rtree::declarations_of(names[n - 1])
    }
}

/// Append the indexes of layers.
#[verifier::spinoff_prover]
#[verifier::rlimit(40)]
fn add_indexes<P: View>(
    layers: &Vec<Layer<P>>,
    x: &Vec<Vec<(i64, Cell)>>,
    tables: &mut Vec<TableSpec>,
) -> (master: Vec<MasterEntry>)
    requires
        x@.len() == layers@.len(),
        forall|i: int| 0 <= i < x@.len() ==> (#[trigger] x@[i])@.len() < 0x1000_0000_0000_0000,
    ensures
        final(tables)@.len() >= old(tables)@.len(),
        final(tables)@.take(old(tables)@.len() as int) == old(tables)@,
        index_tables_from(
            final(tables)@,
            old(tables)@.len() as int,
            layer_names(layers@),
            x@,
            layers@.len() as int,
        ),
        crate::sqlite::declarations_view(master@) == index_declarations(
            layer_names(layers@),
            layers@.len() as int,
        ),
{
    let ghost names = layer_names(layers@);
    let ghost first = tables@;
    let ghost base = first.len() as int;
    let mut master: Vec<MasterEntry> = Vec::new();
    let mut k: usize = 0;
    assert(crate::sqlite::declarations_view(master@) =~= Seq::empty());
    assert(tables@.take(base) =~= first);
    while k < layers.len()
        invariant
            k <= layers@.len() == x@.len(),
            names == layer_names(layers@),
            first.len() == base,
            forall|i: int| 0 <= i < x@.len() ==> (#[trigger] x@[i])@.len() < 0x1000_0000_0000_0000,
            tables@.len() >= base,
            tables@.take(base) == first,
            index_tables_from(tables@, base, names, x@, k as int),
            crate::sqlite::declarations_view(master@) == index_declarations(names, k as int),
        decreases layers@.len() - k,
    {
        assert(names[k as int] == layers@[k as int].name@);
        let mut index = rtree::build(layers[k].name.as_str(), &x[k]);
        let ghost three = index.tables@;
        let ghost before = tables@;
        let ghost declared = crate::sqlite::declarations_view(master@);
        let ghost entries = index.master@;
        tables.append(&mut index.tables);
        master.append(&mut index.master);
        proof {
            assert(tables@ =~= before + three);
            assert(tables@.take(base) =~= first);
            assert(crate::sqlite::declarations_view(master@) =~= declared
                + crate::sqlite::declarations_view(entries));
            lemma_one_index_more(tables@, before, three, base, names, x@, k as int);
        }
        k += 1;
    }
    master
}

proof fn lemma_one_index_more(
    tables: Seq<TableSpec>,
    before: Seq<TableSpec>,
    three: Seq<TableSpec>,
    base: int,
    names: Seq<Seq<char>>,
    x: Seq<Vec<(i64, Cell)>>,
    k: int,
)
    requires
        tables == before + three,
        three.len() == 3,
        0 <= base,
        0 <= k < x.len(),
        index_tables_from(before, base, names, x, k),
        three[0]@ == rtree::node_plan(names[k], x[k]@),
        rtree::is_rowid_plan(three[1]@, names[k], x[k]@),
        three[2]@ == rtree::parent_plan(names[k], x[k]@),
    ensures
        index_tables_from(tables, base, names, x, k + 1),
{
    assert forall|i: int| 0 <= i < k + 1 implies {
        &&& tables[base + 3 * i]@ == rtree::node_plan(names[i], (#[trigger] x[i])@)
        &&& rtree::is_rowid_plan(tables[base + 3 * i + 1]@, names[i], x[i]@)
        &&& tables[base + 3 * i + 2]@ == rtree::parent_plan(names[i], x[i]@)
    } by {
        if i < k {
            assert(tables[base + 3 * i] == before[base + 3 * i]);
            assert(tables[base + 3 * i + 1] == before[base + 3 * i + 1]);
            assert(tables[base + 3 * i + 2] == before[base + 3 * i + 2]);
        } else {
            assert(tables[base + 3 * i] == three[0]);
            assert(tables[base + 3 * i + 1] == three[1]);
            assert(tables[base + 3 * i + 2] == three[2]);
        }
    }
}

/// The names of layers.
pub open spec fn layer_names<P>(layers: Seq<Layer<P>>) -> Seq<Seq<char>> {
    layers.map_values(|l: Layer<P>| l.name@)
}

/// The second forms of the WKT of layers' systems in the registry.
pub open spec fn registry_wkt2s<P: View>(layers: Seq<Layer<P>>) -> Seq<Option<Seq<char>>> {
    systems_view(layers).map_values(|s: Option<System>| registry_wkt2(s))
}

fn all_wkt2s<P: View>(layers: &Vec<Layer<P>>) -> (r: Vec<Option<String>>)
    ensures
        r@.len() == layers@.len(),
        optional_texts(r@) == registry_wkt2s(layers@),
{
    let ghost systems = systems_view(layers@);
    let ghost wanted = registry_wkt2s(layers@);
    let mut wkt2s: Vec<Option<String>> = Vec::new();
    let mut i: usize = 0;
    while i < layers.len()
        invariant
            i <= layers@.len(),
            systems == systems_view(layers@),
            wanted == systems.map_values(|s: Option<System>| registry_wkt2(s)),
            wkt2s@.len() == i,
            optional_texts(wkt2s@) == wanted.take(i as int),
        decreases layers@.len() - i,
    {
        let w = wkt2_of(&layers[i].collection.crs);
        let ghost before = optional_texts(wkt2s@);
        wkt2s.push(w);
        assert(optional_texts(wkt2s@) =~= before.push(opt_view(w)));
        assert(wanted[i as int] == opt_view(w));
        assert(wanted.take(i + 1) =~= wanted.take(i as int).push(opt_view(w)));
        i += 1;
    }
    assert(wanted.take(i as int) =~= wanted);
    wkt2s
}

/// The second form of the WKT of WGS 84 in the registry.
pub open spec fn wgs84_wkt2() -> Option<Seq<char>> {
    match registry_entry("EPSG"@, "4326"@) {
        Some(e) => e.2,
        None => None,
    }
}

/// Whether tables and schema entries are those of layers with indexes, or
/// without.
pub open spec fn is_schema_of<P: View>(
    r: Schema,
    layers: Seq<Layer<P>>,
    indexes: Option<Vec<Vec<(i64, Cell)>>>,
    boxed: bool,
) -> bool {
    let n = layers.len() as int;
    let base = 4 + n;
    &&& r.tables@.len() >= base
    &&& plans_view(r.tables@.take(base)) == layer_plans(
        layer_models(layers),
        assigned(systems_view(layers), registry_wkt2s(layers), n),
        or_undefined(wgs84_wkt2()),
        indexes is Some,
        boxed,
    )
    &&& match indexes {
        Some(x) => {
            &&& index_tables_from(r.tables@, base, layer_names(layers), x@, n)
            &&& crate::sqlite::declarations_view(r.master@) == index_declarations(
                layer_names(layers),
                n,
            )
        },
        None => r.tables@.len() == base && r.master@.len() == 0,
    }
}

/// The tables and schema entries of a GeoPackage with these layers. Where there
/// are indexes, `indexes` has the rows of each layer's index, in the order of the
/// leaves. Geometries have envelopes where they are to be `boxed`.
pub fn write_layers<P: View>(
    layers: &Vec<Layer<P>>,
    indexes: &Option<Vec<Vec<(i64, Cell)>>>,
    boxed: bool,
) -> (r: Schema)
    requires
        layers@.len() < 0x1000_0000_0000_0000,
        forall|i: int| 0 <= i < layers@.len() ==> is_layer((#[trigger] layers@[i])@),
        indexes matches Some(x) ==> x@.len() == layers@.len() && forall|i: int|
            0 <= i < x@.len() ==> (#[trigger] x@[i])@.len() < 0x1000_0000_0000_0000,
    ensures
        is_schema_of(r, layers@, *indexes, boxed),
{
    let wkt2s = all_wkt2s(layers);
    let wgs84 = match def_wkt2("EPSG", "4326") {
        Some(w) => Some(String::from_str(w)),
        None => None,
    };
    let mut tables = layer_tables(layers, &wkt2s, &wgs84, indexes.is_some(), boxed);
    let ghost base = 4 + layers@.len() as int;
    assert(tables@.take(base) =~= tables@);
    let master = match indexes {
        Some(x) => add_indexes(layers, x, &mut tables),
        None => Vec::new(),
    };
    Schema { tables, master }
}

} // verus!
