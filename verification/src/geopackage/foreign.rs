//! Tables by other hands: any envelope, and columns in any order.
use vstd::prelude::*;

use super::reader::{feature_in, features_in, properties_from, property_of, wkb_in};
use crate::error::Failure;
use crate::feature::Item;
use crate::property::Prop;
use crate::sqlite::{Relation, Stored};

verus! {

/// How many axes an envelope of each kind has: none, X and Y, those with Z, those with M, all.
pub open spec fn axes() -> Seq<int> {
    seq![0, 2, 3, 3, 4]
}

/// The bytes of a geometry are found behind an envelope of any kind: a least and a largest
/// number for each axis, of eight bytes each.
pub proof fn law_envelope_is_passed_over(
    version: u8,
    flags: u8,
    kind: int,
    number: Seq<u8>,
    envelope: Seq<u8>,
    wkb: Seq<u8>,
)
    requires
        0 <= kind < axes().len(),
        flags as int % 16 - 2 * kind == 0 || flags as int % 16 - 2 * kind == 1,
        number.len() == 4,
        envelope.len() == axes()[kind] * 2 * 8,
    ensures
        wkb_in(seq![0x47u8, 0x50u8, version, flags] + number + envelope + wkb) == Ok::<
            Seq<u8>,
            Failure,
        >(wkb),
{
    let blob = seq![0x47u8, 0x50u8, version, flags] + number + envelope + wkb;
    assert(blob[0] == 0x47 && blob[1] == 0x50 && blob[3] == flags);
    assert(flags as int / 2 % 8 == kind);
    assert(blob.skip((8 + envelope.len()) as int) =~= wkb);
}

/// Whether a column holds a property.
pub open spec fn is_kept(geom: Option<int>, alias: Option<int>, i: int) -> bool {
    geom != Some(i) && alias != Some(i)
}

/// How many of the columns before one hold a property.
pub open spec fn kept_before(geom: Option<int>, alias: Option<int>, i: int) -> nat
    decreases i,
{
    if i <= 0 {
        0
    } else {
        kept_before(geom, alias, i - 1) + (if is_kept(geom, alias, i - 1) {
            1nat
        } else {
            0nat
        })
    }
}

proof fn lemma_kept_grows(geom: Option<int>, alias: Option<int>, i: int, n: int)
    requires
        i <= n,
    ensures
        kept_before(geom, alias, i) <= kept_before(geom, alias, n),
    decreases n - i,
{
    if i < n {
        lemma_kept_grows(geom, alias, i, n - 1);
    }
}

/// Whether each kept column before one has its pair among some.
spec fn are_placed(
    columns: Seq<Seq<char>>,
    row: Seq<Stored>,
    geom: Option<int>,
    alias: Option<int>,
    n: int,
    pairs: Seq<(Seq<char>, Prop)>,
) -> bool {
    forall|i: int|
        0 <= i < n && is_kept(geom, alias, i) ==> pairs[#[trigger] kept_before(
            geom,
            alias,
            i,
        ) as int] == (columns[i], property_of(row[i]))
}

proof fn lemma_properties(
    columns: Seq<Seq<char>>,
    row: Seq<Stored>,
    geom: Option<int>,
    alias: Option<int>,
    n: int,
    so_far: Seq<(Seq<char>, Prop)>,
)
    requires
        0 <= n <= columns.len(),
        so_far.len() == kept_before(geom, alias, n),
        are_placed(columns, row, geom, alias, n, so_far),
    ensures
        ({
            let all = properties_from(columns, row, geom, alias, n, so_far);
            &&& all.len() == kept_before(geom, alias, columns.len() as int)
            &&& are_placed(columns, row, geom, alias, columns.len() as int, all)
        }),
    decreases columns.len() - n,
{
    if n < columns.len() {
        if is_kept(geom, alias, n) {
            let next = so_far.push((columns[n], property_of(row[n])));
            assert forall|i: int| 0 <= i < n + 1 && is_kept(geom, alias, i) implies next[
            #[trigger] kept_before(geom, alias, i) as int] == (columns[i], property_of(row[i])) by {
                if i < n {
                    lemma_kept_grows(geom, alias, i + 1, n);
                }
            }
            lemma_properties(columns, row, geom, alias, n + 1, next);
        } else {
            lemma_properties(columns, row, geom, alias, n + 1, so_far);
        }
    }
}

/// Whether a property is a stored value: the same number or text, and nothing for bytes.
pub open spec fn is_value(p: Prop, v: Stored) -> bool {
    match v {
        Stored::Int(n) => p == Prop::Int(n),
        Stored::Real(d) => p == Prop::Double(d),
        Stored::Text(s) => p == Prop::Text(s),
        _ => p == Prop::Null,
    }
}

/// Every column but the geometry and the row number is a property, with the value of the row, and
/// the properties stand in the order of the columns.
pub proof fn law_every_column_is_a_property(
    t: Relation,
    row: Seq<Stored>,
    geom: Option<int>,
    f: Item<u64, Prop>,
)
    requires
        feature_in(t, row, geom) == Ok::<Item<u64, Prop>, Failure>(f),
    ensures
        f.properties.len() == kept_before(geom, t.rowid_alias, t.columns.len() as int),
        forall|i: int|
            0 <= i < t.columns.len() && is_kept(geom, t.rowid_alias, i) ==> {
                let k = #[trigger] kept_before(geom, t.rowid_alias, i) as int;
                f.properties[k].0 == t.columns[i] && is_value(f.properties[k].1, row[i])
            },
{
    let alias = t.rowid_alias;
    lemma_properties(t.columns, row, geom, alias, 0, Seq::empty());
    assert forall|i: int| 0 <= i < t.columns.len() && is_kept(geom, alias, i) implies {
        let k = #[trigger] kept_before(geom, alias, i) as int;
        f.properties[k].0 == t.columns[i] && is_value(f.properties[k].1, row[i])
    } by {
        assert(f.properties[kept_before(geom, alias, i) as int] == (
            t.columns[i],
            property_of(row[i]),
        ));
    }
}

proof fn lemma_rows(
    t: Relation,
    geom: Option<int>,
    fs: Seq<Item<u64, Prop>>,
    i: int,
    so_far: Seq<Item<u64, Prop>>,
)
    requires
        fs.len() == t.rows.len(),
        forall|k: int|
            0 <= k < fs.len() ==> feature_in(t, t.rows[k], geom) == Ok::<Item<u64, Prop>, Failure>(
                #[trigger] fs[k],
            ),
        0 <= i <= fs.len(),
        so_far == fs.take(i),
    ensures
        features_in(t, geom, i, so_far) == Ok::<Seq<Item<u64, Prop>>, Failure>(fs),
    decreases fs.len() - i,
{
    if i == fs.len() {
        assert(so_far =~= fs);
    } else {
        assert(feature_in(t, t.rows[i], geom) == Ok::<Item<u64, Prop>, Failure>(fs[i]));
        assert(so_far.push(fs[i]) =~= fs.take(i + 1));
        lemma_rows(t, geom, fs, i + 1, so_far.push(fs[i]));
    }
}

/// Every row of a table is a feature, in the order of the rows.
pub proof fn law_every_row_is_a_feature(t: Relation, geom: Option<int>, fs: Seq<Item<u64, Prop>>)
    requires
        fs.len() == t.rows.len(),
        forall|k: int|
            0 <= k < fs.len() ==> feature_in(t, t.rows[k], geom) == Ok::<Item<u64, Prop>, Failure>(
                #[trigger] fs[k],
            ),
    ensures
        features_in(t, geom, 0, Seq::empty()) == Ok::<Seq<Item<u64, Prop>>, Failure>(fs),
{
    assert(fs.take(0) =~= Seq::empty());
    lemma_rows(t, geom, fs, 0, Seq::empty());
}

} // verus!
