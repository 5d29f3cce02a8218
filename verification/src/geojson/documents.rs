//! What the documents of GeoJSON mean to one another.
use vstd::prelude::*;

use super::reader::{collection_of, each_from, feature_of, position_of, shape_of, type_member};
use crate::crs::system::System;
use crate::error::Failure;
use crate::feature::{Item, Items};
use crate::geometry::Position;
use crate::json::value::Json;

verus! {

// --- members -------------------------------------------------------------------------------

/// Of the members with a key the first one counts, wherever it stands.
pub proof fn law_first_member_counts(members: Seq<(Seq<char>, Json)>, key: Seq<char>, i: int)
    requires
        0 <= i < members.len(),
        members[i].0 == key,
        forall|k: int| 0 <= k < i ==> (#[trigger] members[k]).0 != key,
    ensures
        Json::Object(members).member(key) == Some(members[i].1),
    decreases members.len(),
{
    if i > 0 {
        let rest = members.drop_first();
        assert(members[0].0 != key);
        assert forall|k: int| 0 <= k < i - 1 implies (#[trigger] rest[k]).0 != key by {
            assert(rest[k] == members[k + 1]);
        }
        law_first_member_counts(rest, key, i - 1);
    }
}

/// A key that no member has gives nothing.
pub proof fn law_missing_member_is_none(members: Seq<(Seq<char>, Json)>, key: Seq<char>)
    requires
        forall|k: int| 0 <= k < members.len() ==> (#[trigger] members[k]).0 != key,
    ensures
        Json::Object(members).member(key) is None,
    decreases members.len(),
{
    if members.len() > 0 {
        let rest = members.drop_first();
        assert forall|k: int| 0 <= k < rest.len() implies (#[trigger] rest[k]).0 != key by {
            assert(rest[k] == members[k + 1]);
        }
        assert(members[0].0 != key);
        law_missing_member_is_none(rest, key);
    }
}

// --- documents -----------------------------------------------------------------------------

/// The collection document of some features.
pub open spec fn collection_document(features: Seq<Json>) -> Json {
    Json::Object(
        seq![
            ("type"@, Json::String("FeatureCollection"@)),
            ("features"@, Json::Array(features)),
        ],
    )
}

/// The feature document of a geometry alone.
pub open spec fn feature_document(geometry: Json) -> Json {
    Json::Object(seq![("type"@, Json::String("Feature"@)), ("geometry"@, geometry)])
}

proof fn lemma_keys()
    ensures
        "type"@ != "features"@,
        "type"@ != "geometry"@,
        "type"@ != "properties"@,
        "geometry"@ != "properties"@,
        "FeatureCollection"@ != "Feature"@,
{
    reveal_strlit("type");
    reveal_strlit("features");
    reveal_strlit("geometry");
    reveal_strlit("properties");
    reveal_strlit("FeatureCollection");
    reveal_strlit("Feature");
    assert("type"@.len() == 4 && "features"@.len() == 8 && "geometry"@.len() == 8
        && "properties"@.len() == 10 && "FeatureCollection"@.len() == 17 && "Feature"@.len() == 7);
}

proof fn lemma_collection_members(features: Seq<Json>)
    ensures
        type_member(collection_document(features)) == Some("FeatureCollection"@),
        collection_document(features).member("features"@) == Some(Json::Array(features)),
{
    let m = collection_document(features)->Object_0;
    lemma_keys();
    law_first_member_counts(m, "type"@, 0);
    law_first_member_counts(m, "features"@, 1);
}

/// What is read of a list is what is read of each item, or the failure of the first that
/// fails.
proof fn lemma_each_one<T>(
    values: Seq<Json>,
    i: int,
    item: spec_fn(Json) -> Result<T, Failure>,
    so_far: Seq<T>,
)
    requires
        0 <= i <= values.len(),
    ensures
        match each_from(values, i, item, so_far) {
            Ok(all) => {
                &&& all.len() == so_far.len() + values.len() - i
                &&& all.take(so_far.len() as int) == so_far
                &&& forall|k: int|
                    i <= k < values.len() ==> item(#[trigger] values[k]) == Ok::<T, Failure>(
                        all[so_far.len() + k - i],
                    )
            },
            Err(x) => exists|k: int|
                {
                    &&& i <= k < values.len()
                    &&& item(#[trigger] values[k]) == Err::<T, Failure>(x)
                    &&& forall|j: int| i <= j < k ==> item(#[trigger] values[j]) is Ok
                },
        },
    decreases values.len() - i,
{
    if i < values.len() {
        match item(values[i]) {
            Ok(v) => {
                let longer = so_far.push(v);
                lemma_each_one(values, i + 1, item, longer);
                match each_from(values, i, item, so_far) {
                    Ok(all) => {
                        assert(all.take(so_far.len() as int) =~= so_far) by {
                            assert forall|k: int| 0 <= k < so_far.len() implies all[k]
                                == so_far[k] by {
                                assert(all.take(longer.len() as int)[k] == longer[k]);
                            }
                        }
                        assert(all.take(longer.len() as int)[so_far.len() as int] == v);
                    },
                    Err(x) => {
                        let k = choose|k: int|
                            {
                                &&& i + 1 <= k < values.len()
                                &&& item(#[trigger] values[k]) == Err::<T, Failure>(x)
                                &&& forall|j: int|
                                    i + 1 <= j < k ==> item(#[trigger] values[j]) is Ok
                            };
                        assert(item(values[k]) == Err::<T, Failure>(x));
                    },
                }
            },
            Err(x) => {
                assert(item(values[i]) == Err::<T, Failure>(x));
            },
        }
    } else {
        assert(so_far.take(so_far.len() as int) =~= so_far);
    }
}

/// The collection of a collection document has one feature for each item of the list, in
/// order, and is in WGS 84. Where an item is none, reading fails as the first such does.
pub proof fn law_every_item_is_a_feature(v: Json, items: Seq<Json>)
    requires
        type_member(v) == Some("FeatureCollection"@),
        v.member("features"@) == Some(Json::Array(items)),
    ensures
        match collection_of(v) {
            Ok(c) => {
                &&& c.crs == Some(System::Wgs84)
                &&& c.features.len() == items.len()
                &&& forall|k: int|
                    0 <= k < items.len() ==> feature_of(#[trigger] items[k]) == Ok::<
                        Item<Seq<char>, Json>,
                        Failure,
                    >(c.features[k])
            },
            Err(x) => exists|k: int|
                {
                    &&& 0 <= k < items.len()
                    &&& feature_of(#[trigger] items[k]) == Err::<Item<Seq<char>, Json>, Failure>(x)
                    &&& forall|j: int| 0 <= j < k ==> feature_of(#[trigger] items[j]) is Ok
                },
        },
{
    let item = |i: Json| feature_of(i);
    lemma_each_one(items, 0, item, Seq::empty());
    match collection_of(v) {
        Ok(c) => {
            assert forall|k: int| 0 <= k < items.len() implies feature_of(#[trigger] items[k])
                == Ok::<Item<Seq<char>, Json>, Failure>(c.features[k]) by {
                assert(item(items[k]) == Ok::<Item<Seq<char>, Json>, Failure>(c.features[k]));
            }
        },
        Err(x) => {
            let k = choose|k: int|
                {
                    &&& 0 <= k < items.len()
                    &&& item(#[trigger] items[k]) == Err::<Item<Seq<char>, Json>, Failure>(x)
                    &&& forall|j: int| 0 <= j < k ==> item(#[trigger] items[j]) is Ok
                };
            assert forall|j: int| 0 <= j < k implies feature_of(#[trigger] items[j]) is Ok by {
                assert(item(items[j]) is Ok);
            }
            assert(feature_of(items[k]) == Err::<Item<Seq<char>, Json>, Failure>(x));
        },
    }
}

/// A document that is a single feature is read as the collection of just that feature, with
/// its geometry and its properties.
pub proof fn law_single_feature_is_a_collection_of_one(v: Json)
    requires
        type_member(v) == Some("Feature"@),
    ensures
        collection_of(v) == collection_of(collection_document(seq![v])),
        match feature_of(v) {
            Ok(f) => collection_of(v) == Ok::<Items<Seq<char>, Json>, Failure>(
                Items { features: seq![f], crs: Some(System::Wgs84) },
            ),
            Err(x) => collection_of(v) == Err::<Items<Seq<char>, Json>, Failure>(x),
        },
{
    let doc = collection_document(seq![v]);
    lemma_keys();
    lemma_collection_members(seq![v]);
    law_every_item_is_a_feature(doc, seq![v]);
    assert(seq![v][0] == v);
    if let Ok(c) = collection_of(doc) {
        assert(feature_of(seq![v][0]) == Ok::<Item<Seq<char>, Json>, Failure>(c.features[0]));
        assert(c.features =~= seq![feature_of(v)->Ok_0]);
    }
}

/// A document that is a bare geometry is read as a feature of that geometry without
/// properties.
pub proof fn law_bare_geometry_is_a_feature(v: Json)
    requires
        type_member(v) matches Some(ty) && ty != "Feature"@ && ty != "FeatureCollection"@,
    ensures
        collection_of(v) == collection_of(feature_document(v)),
        match shape_of(v) {
            Ok(s) => collection_of(v) == Ok::<Items<Seq<char>, Json>, Failure>(
                Items {
                    features: seq![Item { geometry: Some(s), properties: Seq::empty() }],
                    crs: Some(System::Wgs84),
                },
            ),
            Err(x) => collection_of(v) == Err::<Items<Seq<char>, Json>, Failure>(x),
        },
{
    let doc = feature_document(v);
    let m = doc->Object_0;
    lemma_keys();
    law_first_member_counts(m, "type"@, 0);
    law_first_member_counts(m, "geometry"@, 1);
    assert forall|k: int| 0 <= k < m.len() implies (#[trigger] m[k]).0 != "properties"@ by {
        assert(k == 0 || k == 1);
    }
    law_missing_member_is_none(m, "properties"@);
    assert(v is Object);
}

// --- features ------------------------------------------------------------------------------

/// The properties of a feature are the members of its properties, all of them, with their
/// values; one without an object there has none.
pub proof fn law_feature_keeps_its_properties(v: Json)
    ensures
        feature_of(v) matches Ok(f) ==> match v.member("properties"@) {
            Some(Json::Object(members)) => f.properties == members,
            _ => f.properties.len() == 0,
        },
{
}

/// The geometry of a feature is the one that it states; one that is null or not there is
/// none. Reading fails only where the geometry does.
pub proof fn law_feature_keeps_its_geometry(v: Json)
    ensures
        v.member("geometry"@) is None || v.member("geometry"@) == Some(Json::Null) ==> feature_of(
            v,
        ) is Ok && feature_of(v)->Ok_0.geometry is None,
        v.member("geometry"@) matches Some(g) ==> g != Json::Null ==> match shape_of(g) {
            Ok(s) => feature_of(v) is Ok && feature_of(v)->Ok_0.geometry == Some(s),
            Err(x) => feature_of(v) == Err::<Item<Seq<char>, Json>, Failure>(x),
        },
{
}

/// Other members of a feature, and the order of them, change nothing.
pub proof fn law_other_members_change_nothing(v: Json, w: Json)
    requires
        v.member("geometry"@) == w.member("geometry"@),
        v.member("properties"@) == w.member("properties"@),
    ensures
        feature_of(v) == feature_of(w),
{
}

/// A position is its first two ordinates, and the third as Z; further ones change nothing.
pub proof fn law_position_is_its_ordinates(ordinates: Seq<Json>)
    requires
        ordinates.len() >= 2,
        forall|i: int| 0 <= i < ordinates.len() ==> (#[trigger] ordinates[i]) is Number,
    ensures
        position_of(Json::Array(ordinates)) == Ok::<Position<Seq<char>>, Failure>(
            Position {
                x: ordinates[0]->text,
                y: ordinates[1]->text,
                z: if ordinates.len() > 2 {
                    Some(ordinates[2]->text)
                } else {
                    None
                },
                m: None,
            },
        ),
{
    assert(ordinates[0] is Number && ordinates[1] is Number);
    if ordinates.len() > 2 {
        assert(ordinates[2] is Number);
    }
}

} // verus!
