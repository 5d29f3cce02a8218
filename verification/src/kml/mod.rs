//! KML, and KMZ, which is KML files in an archive.
use vstd::prelude::*;
use vstd::utf8::*;

use self::reader::{finished, placemarks_of_text};
use self::writer::document_of;
use crate::error::{Error, Failure};
use crate::feature::{features_view, Feature, FeatureCollection, Item, Items};
use crate::json::value::{Json, JsonValue};
use crate::text::{chars_of, lower_text, to_lower, utf8_text};
use crate::xml::writer::document_text;

pub mod foreign;
pub mod level;
pub mod reader;
pub mod round_trip;
pub mod tuples;
pub mod writer;

verus! {

/// Whether a file of the archive is KML: whether its name ends in `.kml`, in any
/// case.
pub open spec fn is_kml_name(name: Seq<char>) -> bool {
    let n = lower_text(name);
    n.len() >= 4 && n.subrange(n.len() - 4, n.len() as int) == ".kml"@
}

pub open spec fn entries_view(entries: Seq<(String, Vec<u8>)>) -> Seq<(Seq<char>, Seq<u8>)> {
    entries.map_values(|e: (String, Vec<u8>)| (e.0@, e.1@))
}

/// The features of the files from the one numbered `i` on.
pub open spec fn archived_from(
    entries: Seq<(Seq<char>, Seq<u8>)>,
    i: int,
    so_far: Seq<Item<Seq<char>, Json>>,
) -> Result<Seq<Item<Seq<char>, Json>>, Failure>
    decreases entries.len() - i,
{
    if i < 0 || i >= entries.len() {
        Ok(so_far)
    } else if !is_kml_name(entries[i].0) {
        archived_from(entries, i + 1, so_far)
    } else if !valid_utf8(entries[i].1) {
        Err(Failure::Convert("kmz: entry \""@ + entries[i].0 + "\" is not valid utf-8"@))
    } else {
        match placemarks_of_text(decode_utf8(entries[i].1), so_far) {
            Err(e) => Err(e),
            Ok(features) => archived_from(entries, i + 1, features),
        }
    }
}

/// Whether any file is KML.
pub open spec fn any_kml(entries: Seq<(Seq<char>, Seq<u8>)>) -> bool {
    exists|i: int| 0 <= i < entries.len() && is_kml_name((#[trigger] entries[i]).0)
}

/// The collection of an archive's files: the features of every KML file.
pub open spec fn archive_collection(entries: Seq<(Seq<char>, Seq<u8>)>) -> Result<
    Items<Seq<char>, Json>,
    Failure,
> {
    if !any_kml(entries) {
        Err(Failure::Convert("kmz: no .kml entry found in the archive"@))
    } else {
        match archived_from(entries, 0, Seq::empty()) {
            Err(e) => Err(e),
            Ok(features) => Ok(finished(features)),
        }
    }
}

fn named_kml(name: &str) -> (r: bool)
    ensures
        r == is_kml_name(name@),
{
    let lower = to_lower(name);
    let chars = chars_of(lower.as_str());
    let n: usize = chars.len();
    proof {
        reveal_strlit(".kml");
    }
    if n < 4 {
        return false;
    }
    let r = chars[n - 4] == '.' && chars[n - 3] == 'k' && chars[n - 2] == 'm' && chars[n - 1] == 'l';
    proof {
        let end = chars@.subrange(n - 4, n as int);
        if r {
            assert(end =~= ".kml"@);
        } else {
            assert(end[0] == chars@[n - 4] && end[1] == chars@[n - 3] && end[2] == chars@[n - 2]
                && end[3] == chars@[n - 1]);
        }
    }
    r
}

/// Read the features of every KML file of an archive. The entries are the names
/// and contents of its files.
pub fn read_kmz(entries: &Vec<(String, Vec<u8>)>) -> (r: Result<
    FeatureCollection<String, JsonValue>,
    Error,
>)
    ensures
        match archive_collection(entries_view(entries@)) {
            Ok(c) => r matches Ok(fc) && fc@ == c,
            Err(e) => r matches Err(f) && f@ == e,
        },
{
    let ghost all = entries_view(entries@);
    let ghost wanted = archived_from(all, 0, Seq::empty());
    let mut features: Vec<Feature<String, JsonValue>> = Vec::new();
    let mut found = false;
    let mut i: usize = 0;
    while i < entries.len() && !found
        invariant
            i <= entries@.len(),
            all == entries_view(entries@),
            found ==> any_kml(all),
            !found ==> forall|k: int| 0 <= k < i ==> !is_kml_name((#[trigger] all[k]).0),
        decreases entries@.len() - i,
    {
        assert(all[i as int] == (entries@[i as int].0@, entries@[i as int].1@));
        if named_kml(entries[i].0.as_str()) {
            found = true;
            assert(is_kml_name(all[i as int].0));
        }
        i += 1;
    }
    if !found {
        return Err(
            Error::Convert(String::from_str("kmz: no .kml entry found in the archive")),
        );
    }
    assert(features_view(features@) =~= Seq::empty());
    let mut j: usize = 0;
    while j < entries.len()
        invariant
            j <= entries@.len(),
            all == entries_view(entries@),
            any_kml(all),
            wanted == archived_from(all, 0, Seq::empty()),
            wanted == archived_from(all, j as int, features_view(features@)),
        decreases entries@.len() - j,
    {
        assert(all[j as int] == (entries@[j as int].0@, entries@[j as int].1@));
        if named_kml(entries[j].0.as_str()) {
            match utf8_text(entries[j].1.as_slice()) {
                Some(text) => {
                    reader::collect_features(text, &mut features)?;
                },
                None => {
                    let mut m = String::from_str("kmz: entry \"");
                    m.append(entries[j].0.as_str());
                    m.append("\" is not valid utf-8");
                    return Err(Error::Convert(m));
                },
            }
        }
        j += 1;
    }
    Ok(reader::finish(features))
}

/// The files of the archive of a collection: one, named `doc.kml`.
pub fn write_kmz(fc: &FeatureCollection<String, JsonValue>) -> (r: Vec<(String, Vec<u8>)>)
    ensures
        entries_view(r@) == seq![
            ("doc.kml"@, encode_utf8(document_text(document_of(fc@.features)))),
        ],
{
    let mut r: Vec<(String, Vec<u8>)> = Vec::new();
    let bytes = self::writer::write(fc);
    r.push((String::from_str("doc.kml"), bytes));
    assert(entries_view(r@) =~= seq![
        ("doc.kml"@, encode_utf8(document_text(document_of(fc@.features)))),
    ]);
    r
}

} // verus!
