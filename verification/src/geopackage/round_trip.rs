//! Reading the tables of a GeoPackage that was written gives its layers back.
use vstd::prelude::*;

use super::reader::{envelope_size, geometry_in, wkb_in};
use super::writer::{
    assigned, choice, doubles_bytes, envelope_bounds, envelope_flags, free_number, geometry_blob,
    is_anothers, is_default, is_first_free, is_registered, is_system_of, is_taken,
    lemma_free_exists, lemma_registrations_bounded, numeric_code, organization_of, others,
    own_number, place_for, registration_of, registration_row, stored_box, system_rows, upserted,
    Layer, Registration,
};
use crate::bytes::{lemma_le_bytes_len, unsigned};
use crate::crs::system::{Record, System};
use crate::error::Failure;
use crate::geometry::evened::{evened, is_counted, law_uniform_stays, law_wkb_is_read_evened};
use crate::geometry::wkb::{uniform, wkb_bytes};
use crate::geometry::Shape;
use crate::sqlite::{ascends, Stored};
use crate::text::lower_text;

verus! {

// --- geometries --------------------------------------------------------------------------

/// The header of a stored geometry is taken off again, whatever the number of the
/// system in it, and with its envelope where it has one.
pub proof fn law_header_is_stripped(s: Shape<u64>, srs_id: int, boxed: bool)
    ensures
        wkb_in(geometry_blob(s, srs_id, boxed)) == Ok::<Seq<u8>, Failure>(wkb_bytes(s)),
{
    let blob = geometry_blob(s, srs_id, boxed);
    let b = stored_box(s, boxed);
    let bounds = envelope_bounds(b);
    lemma_le_bytes_len(unsigned(srs_id, 0x1_0000_0000_0000_0000), 4);
    lemma_doubles_len(bounds);
    assert(blob[0] == 0x47 && blob[1] == 0x50 && blob[3] == envelope_flags(b));
    assert(envelope_size(blob[3]) == Some((8 * bounds.len()) as int));
    assert(blob.skip((8 + 8 * bounds.len()) as int) =~= wkb_bytes(s));
}

proof fn lemma_doubles_len(vals: Seq<u64>)
    ensures
        doubles_bytes(vals).len() == 8 * vals.len(),
    decreases vals.len(),
{
    if vals.len() > 0 {
        lemma_doubles_len(vals.drop_last());
        lemma_le_bytes_len(vals.last() as nat, 8);
    }
}

/// A geometry is read with every line and list of rings at the dimensionality of its
/// first position.
pub proof fn law_geometry_is_read_evened(s: Shape<u64>, srs_id: int, boxed: bool)
    requires
        is_counted(s),
    ensures
        geometry_in(Some(Stored::Blob(geometry_blob(s, srs_id, boxed)))) == Ok::<
            Option<Shape<u64>>,
            Failure,
        >(Some(evened(s))),
{
    law_header_is_stripped(s, srs_id, boxed);
    law_wkb_is_read_evened(s);
}

/// A geometry is read back as it was stored, where its lines and lists of rings each have
/// one dimensionality.
pub proof fn law_geometry_reads_back(s: Shape<u64>, srs_id: int, boxed: bool)
    requires
        uniform(s),
    ensures
        geometry_in(Some(Stored::Blob(geometry_blob(s, srs_id, boxed)))) == Ok::<
            Option<Shape<u64>>,
            Failure,
        >(Some(s)),
{
    law_uniform_stays(s);
    law_geometry_is_read_evened(s, srs_id, boxed);
}

// --- the numbers of systems --------------------------------------------------------------

/// Whether registrations have different numbers, none of them that of a row that
/// every GeoPackage has.
pub open spec fn are_distinct(regs: Seq<Registration>) -> bool {
    &&& forall|i: int, j: int|
        0 <= i < j < regs.len() ==> (#[trigger] regs[i]).srs_id != (#[trigger] regs[j]).srs_id
    &&& forall|i: int|
        0 <= i < regs.len() ==> (#[trigger] regs[i]).srs_id > 0 && regs[i].srs_id != 4326
}

/// Some number is free for a system without one, and it is none of those that
/// every GeoPackage has.
proof fn lemma_free_number(systems: Seq<Option<System>>, regs: Seq<Registration>)
    ensures
        is_first_free(systems, regs, free_number(systems, regs)),
        free_number(systems, regs) >= 100_000,
        !is_registered(regs, free_number(systems, regs)),
{
    lemma_free_exists(systems, regs, 100_000);
}

/// No number is registered twice, nor one of those that every GeoPackage has.
pub proof fn law_registered_numbers_are_distinct(
    systems: Seq<Option<System>>,
    wkt2s: Seq<Option<Seq<char>>>,
    n: int,
)
    requires
        0 <= n,
    ensures
        are_distinct(assigned(systems, wkt2s, n).registrations),
    decreases n,
{
    if n > 0 {
        law_registered_numbers_are_distinct(systems, wkt2s, n - 1);
        let before = assigned(systems, wkt2s, n - 1);
        let free = free_number(systems, before.registrations);
        lemma_free_number(systems, before.registrations);
        let (id, registration) = choice(
            systems[n - 1],
            wkt2s[n - 1],
            before.registrations,
            free,
        );
        if let Some(r) = registration {
            if !is_registered(before.registrations, r.srs_id) {
                let after = before.registrations.push(r);
                assert forall|i: int, j: int| 0 <= i < j < after.len() implies (
                #[trigger] after[i]).srs_id != (#[trigger] after[j]).srs_id by {
                    assert(after[i] == before.registrations[i]);
                }
            }
        }
    }
}

/// Every layer's number stands in the table of systems: it is one that every
/// GeoPackage has, or it is registered.
pub proof fn law_every_number_is_known(
    systems: Seq<Option<System>>,
    wkt2s: Seq<Option<Seq<char>>>,
    n: int,
    i: int,
)
    requires
        0 <= i < n,
    ensures
        ({
            let a = assigned(systems, wkt2s, n);
            &&& a.per_layer.len() == n
            &&& a.per_layer[i] == 0 || a.per_layer[i] == 4326 || is_registered(
                a.registrations,
                a.per_layer[i],
            )
        }),
    decreases n,
{
    let before = assigned(systems, wkt2s, n - 1);
    let after = assigned(systems, wkt2s, n);
    lemma_registrations_bounded(systems, wkt2s, n - 1);
    if i < n - 1 {
        law_every_number_is_known(systems, wkt2s, n - 1, i);
        if is_registered(before.registrations, before.per_layer[i]) {
            let k = choose|k: int|
                0 <= k < before.registrations.len() && (#[trigger] before.registrations[k]).srs_id
                    == before.per_layer[i];
            assert(after.registrations[k].srs_id == before.per_layer[i]);
        }
    } else if after.registrations.len() > before.registrations.len() {
        assert(after.registrations[before.registrations.len() as int].srs_id
            == after.per_layer[i]);
    }
}

/// The first layer that has a number, from the one numbered `i` on.
pub open spec fn first_with(ids: Seq<int>, number: int, i: int) -> int
    decreases ids.len() - i,
{
    if i < 0 || i >= ids.len() || ids[i] == number {
        i
    } else {
        first_with(ids, number, i + 1)
    }
}

proof fn lemma_first_with(ids: Seq<int>, number: int, i: int, j: int)
    requires
        0 <= i <= j < ids.len(),
        ids[j] == number,
    ensures
        i <= first_with(ids, number, i) <= j,
        ids[first_with(ids, number, i)] == number,
    decreases ids.len() - i,
{
    if ids[i] != number {
        lemma_first_with(ids, number, i + 1, j);
    }
}

proof fn lemma_first_with_stays(ids: Seq<int>, id: int, number: int, i: int)
    requires
        0 <= i <= ids.len(),
        first_with(ids, number, i) < ids.len(),
    ensures
        first_with(ids.push(id), number, i) == first_with(ids, number, i),
    decreases ids.len() - i,
{
    if i < ids.len() && ids[i] != number {
        lemma_first_with_stays(ids, id, number, i + 1);
    }
}

proof fn lemma_first_with_last(ids: Seq<int>, number: int, i: int)
    requires
        0 <= i <= ids.len(),
        forall|k: int| i <= k < ids.len() ==> #[trigger] ids[k] != number,
    ensures
        first_with(ids.push(number), number, i) == ids.len(),
    decreases ids.len() - i,
{
    if i < ids.len() {
        lemma_first_with_last(ids, number, i + 1);
    }
}

/// The record of a system that needs a registration.
pub open spec fn to_register(s: Option<System>) -> Option<Record> {
    match s {
        Some(System::Named(r)) => if is_default(r) {
            None
        } else {
            Some(r)
        },
        _ => None,
    }
}

/// Whether two records have the same organization, and the same code where that is a
/// number.
pub open spec fn are_one(q: Record, r: Record) -> bool {
    &&& lower_text(organization_of(q)) == lower_text(organization_of(r))
    &&& numeric_code(q) == numeric_code(r)
}

/// No layer has the number of a system that is registered as the next one.
proof fn lemma_next_is_first(systems: Seq<Option<System>>, wkt2s: Seq<Option<Seq<char>>>, n: int)
    requires
        n > 0,
        ({
            let before = assigned(systems, wkt2s, n - 1);
            let after = assigned(systems, wkt2s, n);
            after.registrations.len() > before.registrations.len()
        }),
    ensures
        ({
            let after = assigned(systems, wkt2s, n);
            &&& after.per_layer.len() == n
            &&& first_with(after.per_layer, after.per_layer[n - 1], 0) == n - 1
        }),
{
    let before = assigned(systems, wkt2s, n - 1);
    let after = assigned(systems, wkt2s, n);
    let number = after.per_layer[n - 1];
    lemma_registrations_bounded(systems, wkt2s, n - 1);
    lemma_free_number(systems, before.registrations);
    assert forall|k: int| 0 <= k < before.per_layer.len() implies #[trigger] before.per_layer[k]
        != number by {
        law_every_number_is_known(systems, wkt2s, n - 1, k);
    }
    lemma_first_with_last(before.per_layer, number, 0);
}

/// What is registered under a number is of the first layer that has it. It is its code,
/// or no layer's.
proof fn lemma_first_stands(
    systems: Seq<Option<System>>,
    wkt2s: Seq<Option<Seq<char>>>,
    n: int,
    k: int,
)
    requires
        0 <= n <= systems.len(),
        0 <= k < assigned(systems, wkt2s, n).registrations.len(),
    ensures
        ({
            let a = assigned(systems, wkt2s, n);
            let number = a.registrations[k].srs_id;
            let j = first_with(a.per_layer, number, 0);
            &&& 0 <= j < n == a.per_layer.len()
            &&& a.per_layer[j] == number
            &&& to_register(systems[j]) matches Some(q) && a.registrations[k] == registration_of(
                q,
                wkt2s[j],
                number,
            )
            &&& own_number(systems[j]) == Some(number) || forall|m: int|
                0 <= m < systems.len() ==> own_number(#[trigger] systems[m]) != Some(number)
        }),
    decreases n,
{
    if n > 0 {
        let before = assigned(systems, wkt2s, n - 1);
        let after = assigned(systems, wkt2s, n);
        lemma_registrations_bounded(systems, wkt2s, n - 1);
        lemma_free_number(systems, before.registrations);
        if k < before.registrations.len() {
            lemma_first_stands(systems, wkt2s, n - 1, k);
            let number = before.registrations[k].srs_id;
            assert(after.registrations[k] == before.registrations[k]);
            lemma_first_with_stays(before.per_layer, after.per_layer[n - 1], number, 0);
        } else {
            lemma_next_is_first(systems, wkt2s, n);
            let number = after.registrations[k].srs_id;
            assert(after.per_layer[n - 1] == number);
            if own_number(systems[n - 1]) != Some(number) {
                assert(!is_taken(systems, before.registrations, number));
            }
        }
    }
}

/// Every layer's system is registered under the layer's number: its own registration
/// stands where no layer before has that number, and where one has, that one's, which is
/// of the same code of the same organization. Without a system the number is zero, and
/// in WGS 84, also by its code alone, that of the row that every GeoPackage has.
pub proof fn law_layer_is_registered(
    systems: Seq<Option<System>>,
    wkt2s: Seq<Option<Seq<char>>>,
    n: int,
    i: int,
)
    requires
        0 <= i < n <= systems.len(),
    ensures
        ({
            let a = assigned(systems, wkt2s, n);
            let j = first_with(a.per_layer, a.per_layer[i], 0);
            &&& a.per_layer.len() == n
            &&& 0 <= j <= i
            &&& a.per_layer[j] == a.per_layer[i]
            &&& match systems[i] {
                None => a.per_layer[i] == 0,
                Some(System::Wgs84) => a.per_layer[i] == 4326,
                Some(System::Named(r)) => if is_default(r) {
                    a.per_layer[i] == 4326
                } else {
                    to_register(systems[j]) matches Some(q) && are_one(q, r)
                        && a.registrations.contains(registration_of(q, wkt2s[j], a.per_layer[i]))
                },
            }
        }),
    decreases n,
{
    let before = assigned(systems, wkt2s, n - 1);
    let after = assigned(systems, wkt2s, n);
    let number = after.per_layer[i];
    lemma_registrations_bounded(systems, wkt2s, n - 1);
    lemma_free_number(systems, before.registrations);
    lemma_first_with(after.per_layer, number, 0, i);
    let j = first_with(after.per_layer, number, 0);
    if i < n - 1 {
        law_layer_is_registered(systems, wkt2s, n - 1, i);
        lemma_first_with_stays(before.per_layer, after.per_layer[n - 1], number, 0);
        if to_register(systems[i]) is Some {
            let stands = registration_of(to_register(systems[j])->0, wkt2s[j], number);
            let k = choose|k: int|
                0 <= k < before.registrations.len() && before.registrations[k] == stands;
            assert(after.registrations[k] == stands);
        }
    } else if let Some(r) = to_register(systems[i]) {
        if is_registered(before.registrations, number) {
            let k = choose|k: int|
                0 <= k < before.registrations.len() && (#[trigger] before.registrations[k]).srs_id
                    == number;
            assert(own_number(systems[i]) == Some(number));
            assert(is_system_of(before.registrations[k], r));
            lemma_first_stands(systems, wkt2s, n - 1, k);
            lemma_first_with_stays(before.per_layer, number, number, 0);
            assert(after.registrations[k] == before.registrations[k]);
        } else {
            lemma_next_is_first(systems, wkt2s, n);
            assert(after.registrations.last() == registration_of(r, wkt2s[i], number));
        }
    }
}

/// The number of a layer is the code of its system, where that can be a number and no
/// other organization's system before it has the same code.
pub proof fn law_code_is_the_number(
    systems: Seq<Option<System>>,
    wkt2s: Seq<Option<Seq<char>>>,
    n: int,
    i: int,
)
    requires
        0 <= i < n <= systems.len(),
        own_number(systems[i]) is Some,
        forall|j: int|
            0 <= j < i && own_number(#[trigger] systems[j]) == own_number(systems[i]) ==> are_one(
                to_register(systems[j])->0,
                to_register(systems[i])->0,
            ),
    ensures
        assigned(systems, wkt2s, n).per_layer.len() == n,
        Some(assigned(systems, wkt2s, n).per_layer[i]) == own_number(systems[i]),
    decreases n,
{
    lemma_registrations_bounded(systems, wkt2s, n - 1);
    if i < n - 1 {
        law_code_is_the_number(systems, wkt2s, n - 1, i);
    } else {
        let before = assigned(systems, wkt2s, n - 1);
        let r = to_register(systems[i])->0;
        let code = own_number(systems[i])->0;
        if is_anothers(before.registrations, r, code) {
            let k = choose|k: int|
                0 <= k < before.registrations.len() && (#[trigger] before.registrations[k]).srs_id
                    == code && !is_system_of(before.registrations[k], r);
            lemma_first_stands(systems, wkt2s, n - 1, k);
            let j = first_with(before.per_layer, code, 0);
            assert(own_number(systems[i]) == Some(code));
            assert(own_number(systems[j]) == own_number(systems[i]));
        }
    }
}

/// A system whose code can be no number gets a number that no other layer has, and that
/// is no layer's code.
pub proof fn law_given_number_is_the_layers_own(
    systems: Seq<Option<System>>,
    wkt2s: Seq<Option<Seq<char>>>,
    n: int,
    i: int,
)
    requires
        0 <= i < n <= systems.len(),
        to_register(systems[i]) is Some,
        own_number(systems[i]) is None,
    ensures
        ({
            let a = assigned(systems, wkt2s, n);
            &&& a.per_layer.len() == n
            &&& a.per_layer[i] >= 100_000
            &&& forall|j: int| 0 <= j < n && j != i ==> #[trigger] a.per_layer[j] != a.per_layer[i]
            &&& forall|j: int|
                0 <= j < systems.len() ==> own_number(#[trigger] systems[j]) != Some(a.per_layer[i])
        }),
    decreases n,
{
    let before = assigned(systems, wkt2s, n - 1);
    let after = assigned(systems, wkt2s, n);
    lemma_registrations_bounded(systems, wkt2s, n - 1);
    lemma_free_number(systems, before.registrations);
    if i < n - 1 {
        law_given_number_is_the_layers_own(systems, wkt2s, n - 1, i);
        law_every_number_is_known(systems, wkt2s, n - 1, i);
        assert(own_number(systems[n - 1]) != Some(before.per_layer[i]));
        assert forall|j: int| 0 <= j < n && j != i implies #[trigger] after.per_layer[j]
            != after.per_layer[i] by {
            if j < n - 1 {
                assert(after.per_layer[j] == before.per_layer[j]);
            }
        }
    } else {
        assert forall|j: int| 0 <= j < n && j != i implies #[trigger] after.per_layer[j]
            != after.per_layer[i] by {
            assert(after.per_layer[j] == before.per_layer[j]);
            law_every_number_is_known(systems, wkt2s, n - 1, j);
        }
    }
}

pub proof fn lemma_place_splits(rows: Seq<(int, Seq<Stored>)>, number: int, i: int)
    requires
        0 <= i <= rows.len(),
        ascends(rows),
        forall|k: int| 0 <= k < i ==> (#[trigger] rows[k]).0 <= number,
    ensures
        ({
            let p = place_for(rows, number, i);
            &&& i <= p <= rows.len()
            &&& forall|k: int| 0 <= k < p ==> (#[trigger] rows[k]).0 <= number
            &&& forall|k: int| p <= k < rows.len() ==> (#[trigger] rows[k]).0 > number
        }),
    decreases rows.len() - i,
{
    if i < rows.len() && rows[i].0 <= number {
        lemma_place_splits(rows, number, i + 1);
    }
}

/// The rows of the table of systems ascend.
pub proof fn law_system_rows_ascend(wgs84_wkt2: Seq<char>, regs: Seq<Registration>, n: int)
    requires
        are_distinct(regs),
        0 <= n <= regs.len(),
    ensures
        ascends(system_rows(wgs84_wkt2, regs, n)),
        forall|k: int|
            0 <= k < system_rows(wgs84_wkt2, regs, n).len() ==> {
                let number = (#[trigger] system_rows(wgs84_wkt2, regs, n)[k]).0;
                number == -1 || number == 0 || number == 4326 || exists|i: int|
                    0 <= i < n && (#[trigger] regs[i]).srs_id == number
            },
    decreases n,
{
    if n > 0 {
        law_system_rows_ascend(wgs84_wkt2, regs, n - 1);
        let before = system_rows(wgs84_wkt2, regs, n - 1);
        let row = registration_row(regs[n - 1]);
        lemma_place_splits(before, row.0, 0);
        let p = place_for(before, row.0, 0);
        let after = before.insert(p, row);
        assert forall|k: int| 0 <= k < before.len() implies (#[trigger] before[k]).0 != row.0 by {
            if before[k].0 != -1 && before[k].0 != 0 && before[k].0 != 4326 {
                let i = choose|i: int|
                    0 <= i < n - 1 && (#[trigger] regs[i]).srs_id == before[k].0;
                assert(regs[i].srs_id != regs[n - 1].srs_id);
            }
        }
        assert forall|i: int, j: int| 0 <= i < j < after.len() implies (#[trigger] after[i]).0 < (
        #[trigger] after[j]).0 by {
            let x = if i < p {
                i
            } else {
                i - 1
            };
            let y = if j < p {
                j
            } else {
                j - 1
            };
            if i != p {
                assert(after[i] == before[x]);
            }
            if j != p {
                assert(after[j] == before[y]);
            }
        }
        assert forall|k: int| 0 <= k < after.len() implies {
            let number = (#[trigger] after[k]).0;
            number == -1 || number == 0 || number == 4326 || exists|i: int|
                0 <= i < n && (#[trigger] regs[i]).srs_id == number
        } by {
            if k == p {
                assert(regs[n - 1].srs_id == after[k].0);
            } else {
                let x = if k < p {
                    k
                } else {
                    k - 1
                };
                assert(after[k] == before[x]);
            }
        }
    }
}

// --- replacing layers --------------------------------------------------------------------

proof fn lemma_others_lack_name<P>(layers: Seq<Layer<P>>, name: Seq<char>, i: int, k: int)
    requires
        0 <= i,
        0 <= k < others(layers, name, i).len(),
    ensures
        others(layers, name, i)[k].name@ != name,
        layers.contains(others(layers, name, i)[k]),
    decreases layers.len() - i,
{
    if i < layers.len() {
        if layers[i].name@ == name {
            lemma_others_lack_name(layers, name, i + 1, k);
        } else if k > 0 {
            lemma_others_lack_name(layers, name, i + 1, k - 1);
        }
    }
}

proof fn lemma_others_keep<P>(layers: Seq<Layer<P>>, name: Seq<char>, i: int, k: int)
    requires
        0 <= i <= k < layers.len(),
        layers[k].name@ != name,
    ensures
        others(layers, name, i).contains(layers[k]),
    decreases layers.len() - i,
{
    let all = others(layers, name, i);
    if i == k {
        assert(all[0] == layers[k]);
    } else {
        lemma_others_keep(layers, name, i + 1, k);
        let rest = others(layers, name, i + 1);
        let m = choose|m: int| 0 <= m < rest.len() && rest[m] == layers[k];
        if layers[i].name@ == name {
            assert(all[m] == layers[k]);
        } else {
            assert(all[m + 1] == layers[k]);
        }
    }
}

/// Of the layers of a name, the one put in last is there, and no other.
pub proof fn law_upsert_replaces<P>(layers: Seq<Layer<P>>, new: Seq<Layer<P>>, n: int)
    requires
        0 < n <= new.len(),
    ensures
        ({
            let all = upserted(layers, new, n);
            &&& all.last() == new[n - 1]
            &&& forall|k: int|
                0 <= k < all.len() - 1 ==> (#[trigger] all[k]).name@ != new[n - 1].name@
        }),
{
    let before = upserted(layers, new, n - 1);
    let kept = others(before, new[n - 1].name@, 0);
    let all = upserted(layers, new, n);
    assert forall|k: int| 0 <= k < all.len() - 1 implies (#[trigger] all[k]).name@ != new[n
        - 1].name@ by {
        lemma_others_lack_name(before, new[n - 1].name@, 0, k);
    }
}

/// A layer whose name no new one has stays.
pub proof fn law_upsert_keeps_others<P>(layers: Seq<Layer<P>>, new: Seq<Layer<P>>, n: int, k: int)
    requires
        0 <= n <= new.len(),
        0 <= k < layers.len(),
        forall|i: int| 0 <= i < n ==> (#[trigger] new[i]).name@ != layers[k].name@,
    ensures
        upserted(layers, new, n).contains(layers[k]),
    decreases n,
{
    if n > 0 {
        law_upsert_keeps_others(layers, new, n - 1, k);
        let before = upserted(layers, new, n - 1);
        let m = choose|m: int| 0 <= m < before.len() && before[m] == layers[k];
        lemma_others_keep(before, new[n - 1].name@, 0, m);
        let kept = others(before, new[n - 1].name@, 0);
        let q = choose|q: int| 0 <= q < kept.len() && kept[q] == layers[k];
        assert(upserted(layers, new, n)[q] == layers[k]);
    } else {
        assert(layers[k] == layers[k]);
    }
}

/// Whether one of the first `n` layers has a name.
pub open spec fn has_name<P>(layers: Seq<Layer<P>>, n: int, name: Seq<char>) -> bool {
    exists|i: int| 0 <= i < n && (#[trigger] layers[i]).name@ == name
}

/// The layers from the one numbered `i` on whose names none of the first `n` new ones
/// has, in their order.
pub open spec fn kept<P>(layers: Seq<Layer<P>>, new: Seq<Layer<P>>, n: int, i: int) -> Seq<Layer<P>>
    decreases layers.len() - i,
{
    if i < 0 || i >= layers.len() {
        Seq::empty()
    } else if has_name(new, n, layers[i].name@) {
        kept(layers, new, n, i + 1)
    } else {
        seq![layers[i]] + kept(layers, new, n, i + 1)
    }
}

/// Whether layers have different names.
pub open spec fn are_apart<P>(layers: Seq<Layer<P>>) -> bool {
    forall|i: int, j: int|
        0 <= i < j < layers.len() ==> (#[trigger] layers[i]).name@ != (#[trigger] layers[j]).name@
}

proof fn lemma_others_of_suffix<P>(a: Seq<Layer<P>>, b: Seq<Layer<P>>, name: Seq<char>, i: int)
    requires
        0 <= i <= b.len(),
    ensures
        others(a + b, name, a.len() + i) == others(b, name, i),
    decreases b.len() - i,
{
    if i < b.len() {
        assert((a + b)[a.len() + i] == b[i]);
        lemma_others_of_suffix(a, b, name, i + 1);
    }
}

proof fn lemma_others_of_both<P>(a: Seq<Layer<P>>, b: Seq<Layer<P>>, name: Seq<char>, i: int)
    requires
        0 <= i <= a.len(),
    ensures
        others(a + b, name, i) == others(a, name, i) + others(b, name, 0),
    decreases a.len() - i,
{
    if i < a.len() {
        assert((a + b)[i] == a[i]);
        lemma_others_of_both(a, b, name, i + 1);
        assert(others(a + b, name, i) =~= others(a, name, i) + others(b, name, 0));
    } else {
        lemma_others_of_suffix(a, b, name, 0);
        assert(others(a, name, i) + others(b, name, 0) =~= others(b, name, 0));
    }
}

/// Taking one name more out of what is kept keeps what has none of them.
proof fn lemma_kept_without<P>(layers: Seq<Layer<P>>, new: Seq<Layer<P>>, n: int, i: int)
    requires
        0 <= n < new.len(),
        0 <= i <= layers.len(),
    ensures
        others(kept(layers, new, n, i), new[n].name@, 0) == kept(layers, new, n + 1, i),
    decreases layers.len() - i,
{
    let name = new[n].name@;
    if i < layers.len() {
        let l = layers[i];
        lemma_kept_without(layers, new, n, i + 1);
        assert(has_name(new, n + 1, l.name@) == (has_name(new, n, l.name@) || l.name@ == name)) by {
            if has_name(new, n, l.name@) {
                let k = choose|k: int| 0 <= k < n && (#[trigger] new[k]).name@ == l.name@;
                assert(0 <= k < n + 1 && new[k].name@ == l.name@);
            }
            if l.name@ == name {
                assert(0 <= n < n + 1 && new[n].name@ == l.name@);
            }
        }
        if !has_name(new, n, l.name@) {
            let rest = kept(layers, new, n, i + 1);
            lemma_others_of_both(seq![l], rest, name, 0);
            reveal_with_fuel(others, 2);
            assert(others(seq![l], name, 0) =~= if l.name@ == name {
                Seq::empty()
            } else {
                seq![l]
            });
            assert(others(kept(layers, new, n, i), name, 0) =~= kept(layers, new, n + 1, i));
        }
    }
}

proof fn lemma_others_are_all<P>(layers: Seq<Layer<P>>, name: Seq<char>, i: int)
    requires
        0 <= i <= layers.len(),
        forall|k: int| i <= k < layers.len() ==> (#[trigger] layers[k]).name@ != name,
    ensures
        others(layers, name, i) == layers.skip(i),
    decreases layers.len() - i,
{
    if i < layers.len() {
        lemma_others_are_all(layers, name, i + 1);
        assert(layers.skip(i) =~= seq![layers[i]] + layers.skip(i + 1));
    } else {
        assert(layers.skip(i) =~= Seq::empty());
    }
}

proof fn lemma_kept_of_none<P>(layers: Seq<Layer<P>>, new: Seq<Layer<P>>, i: int)
    requires
        0 <= i <= layers.len(),
    ensures
        kept(layers, new, 0, i) == layers.skip(i),
    decreases layers.len() - i,
{
    if i < layers.len() {
        lemma_kept_of_none(layers, new, i + 1);
        assert(layers.skip(i) =~= seq![layers[i]] + layers.skip(i + 1));
    } else {
        assert(layers.skip(i) =~= Seq::empty());
    }
}

/// Layers of different names put in stand last, in their order, after the layers whose
/// names none of them has, which keep theirs. A layer of the same name is replaced,
/// never doubled.
pub proof fn law_upsert_keeps_the_order<P>(layers: Seq<Layer<P>>, new: Seq<Layer<P>>, n: int)
    requires
        are_apart(new),
        0 <= n <= new.len(),
    ensures
        upserted(layers, new, n) == kept(layers, new, n, 0) + new.take(n),
    decreases n,
{
    if n > 0 {
        law_upsert_keeps_the_order(layers, new, n - 1);
        let name = new[n - 1].name@;
        let before = kept(layers, new, n - 1, 0);
        let first = new.take(n - 1);
        lemma_others_of_both(before, first, name, 0);
        lemma_kept_without(layers, new, n - 1, 0);
        assert forall|k: int| 0 <= k < first.len() implies (#[trigger] first[k]).name@ != name by {
            assert(first[k] == new[k]);
            assert(new[k].name@ != new[n - 1].name@);
        }
        lemma_others_are_all(first, name, 0);
        assert(first.skip(0) =~= first);
        assert(upserted(layers, new, n) =~= kept(layers, new, n, 0) + new.take(n));
    } else {
        lemma_kept_of_none(layers, new, 0);
        assert(layers.skip(0) + new.take(0) =~= layers);
    }
}

/// What is kept is of the layers, and has none of the new names.
pub proof fn lemma_kept_is_of<P>(layers: Seq<Layer<P>>, new: Seq<Layer<P>>, n: int, i: int, k: int)
    requires
        0 <= i <= layers.len(),
        0 <= k < kept(layers, new, n, i).len(),
    ensures
        exists|m: int|
            i + k <= m < layers.len() && #[trigger] layers[m] == kept(layers, new, n, i)[k],
        !has_name(new, n, kept(layers, new, n, i)[k].name@),
    decreases layers.len() - i,
{
    if i < layers.len() {
        let all = kept(layers, new, n, i);
        if has_name(new, n, layers[i].name@) {
            lemma_kept_is_of(layers, new, n, i + 1, k);
        } else if k == 0 {
            assert(layers[i] == all[0]);
        } else {
            lemma_kept_is_of(layers, new, n, i + 1, k - 1);
            let rest = kept(layers, new, n, i + 1);
            let m = choose|m: int|
                i + 1 + k - 1 <= m < layers.len() && #[trigger] layers[m] == rest[k - 1];
            assert(layers[m] == all[k]);
        }
    }
}

pub proof fn lemma_kept_is_apart<P>(layers: Seq<Layer<P>>, new: Seq<Layer<P>>, n: int, i: int)
    requires
        are_apart(layers),
        0 <= i <= layers.len(),
    ensures
        are_apart(kept(layers, new, n, i)),
    decreases layers.len() - i,
{
    if i < layers.len() {
        lemma_kept_is_apart(layers, new, n, i + 1);
        let all = kept(layers, new, n, i);
        let rest = kept(layers, new, n, i + 1);
        if !has_name(new, n, layers[i].name@) {
            assert forall|j: int, k: int| 0 <= j < k < all.len() implies (#[trigger] all[j]).name@
                != (#[trigger] all[k]).name@ by {
                assert(all[k] == rest[k - 1]);
                if j == 0 {
                    lemma_kept_is_of(layers, new, n, i + 1, k - 1);
                    let m = choose|m: int|
                        i + 1 + k - 1 <= m < layers.len() && #[trigger] layers[m] == rest[k - 1];
                    assert(layers[i].name@ != layers[m].name@);
                } else {
                    assert(all[j] == rest[j - 1]);
                }
            }
        }
    }
}

} // verus!
