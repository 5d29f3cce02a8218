//! What paths are called, and what is reported of sources and layers.
use vstd::prelude::*;

use crate::crs::picked::{are_alike, law_lower_case_is_alike};
use crate::crs::system::System;
use crate::feature::Items;
use crate::format::Format;
use crate::report::{
    bodies_of, body_of, distinct_count, dot_place, file_name, is_new, is_seen, layer_warnings,
    name_start, name_stop, named_from, printed, siblings_of, stem_of, warnings_of, with_new,
    without_shp,
};
use crate::text::{last_place, lower_text, upper_text};

verus! {

// --- paths ---------------------------------------------------------------------------------

/// Whether a path is of a file in a directory: a name, a dot and an extension.
pub open spec fn is_file_in(dir: Seq<char>, stem: Seq<char>, extension: Seq<char>) -> bool {
    &&& dir.len() == 0 || dir.last() == '/'
    &&& stem.len() > 0
    &&& !stem.contains('/')
    &&& extension.len() > 0
    &&& !extension.contains('/')
    &&& !extension.contains('.')
}

/// The path of a file.
pub open spec fn path_of(dir: Seq<char>, stem: Seq<char>, extension: Seq<char>) -> Seq<char> {
    dir + stem + seq!['.'] + extension
}

proof fn lemma_name_start(s: Seq<char>, start: int, end: int)
    requires
        0 <= start <= end <= s.len(),
        forall|i: int| start <= i < end ==> #[trigger] s[i] != '/',
        start > 0 ==> s[start - 1] == '/',
    ensures
        name_start(s, end) == start,
    decreases end - start,
{
    if start < end {
        assert(s[end - 1] != '/');
        lemma_name_start(s, start, end - 1);
    }
}

proof fn lemma_last_dot(s: Seq<char>, p: int, n: int)
    requires
        0 <= p < n <= s.len(),
        s[p] == '.',
        forall|i: int| p < i < n ==> #[trigger] s[i] != '.',
    ensures
        last_place(s, '.', n) == Some(p),
    decreases n - p,
{
    if n - 1 > p {
        assert(s[n - 1] != '.');
        lemma_last_dot(s, p, n - 1);
    }
}

proof fn lemma_file_name(dir: Seq<char>, stem: Seq<char>, extension: Seq<char>)
    requires
        is_file_in(dir, stem, extension),
    ensures
        ({
            let path = path_of(dir, stem, extension);
            let name = stem + seq!['.'] + extension;
            let start = dir.len() as int;
            let end = path.len() as int;
            &&& file_name(path) == Some((start, end))
            &&& path.subrange(start, end) == name
            &&& dot_place(name) == Some(stem.len() as int)
            &&& name.subrange(0, stem.len() as int) == stem
            &&& name.subrange(stem.len() as int + 1, name.len() as int) == extension
            &&& path.subrange(0, start + stem.len()) == dir + stem
            &&& path != "-"@
        }),
{
    let path = path_of(dir, stem, extension);
    let name = stem + seq!['.'] + extension;
    let start = dir.len() as int;
    let end = path.len() as int;
    assert(path =~= dir + name);
    assert(path[end - 1] == extension.last());
    assert(extension.contains(extension.last()));
    assert(name_stop(path, end) == end);
    assert forall|i: int| start <= i < end implies #[trigger] path[i] != '/' by {
        let k = i - start;
        assert(path[i] == name[k]);
        if k < stem.len() {
            assert(stem.contains(stem[k]));
        } else if k > stem.len() {
            assert(extension.contains(extension[k - stem.len() - 1]));
        }
    }
    if start > 0 {
        assert(path[start - 1] == dir.last());
    }
    lemma_name_start(path, start, end);
    assert(path.subrange(start, end) =~= name);
    reveal_strlit(".");
    reveal_strlit("..");
    reveal_strlit("-");
    assert(name.last() == extension.last());
    if name == ".."@ {
        assert(name[1] == '.');
    }
    assert(name.len() >= 3 || name != ".."@);
    assert forall|i: int| stem.len() < i < name.len() implies #[trigger] name[i] != '.' by {
        assert(extension.contains(extension[i - stem.len() - 1]));
        assert(name[i] == extension[i - stem.len() - 1]);
    }
    lemma_last_dot(name, stem.len() as int, name.len() as int);
    assert(name.subrange(0, stem.len() as int) =~= stem);
    assert(name.subrange(stem.len() as int + 1, name.len() as int) =~= extension);
    assert(path.subrange(0, start + stem.len()) =~= dir + stem);
}

/// A layer that is made from a file is called by the file's name up to its last dot.
pub proof fn law_layer_is_called_by_its_file(
    dir: Seq<char>,
    stem: Seq<char>,
    extension: Seq<char>,
)
    requires
        is_file_in(dir, stem, extension),
    ensures
        stem_of(path_of(dir, stem, extension)) == stem,
{
    lemma_file_name(dir, stem, extension);
}

/// A path loses its extension where that is `shp` in any case, and else nothing.
pub proof fn law_shp_is_taken_off(dir: Seq<char>, stem: Seq<char>, extension: Seq<char>)
    requires
        is_file_in(dir, stem, extension),
    ensures
        without_shp(path_of(dir, stem, extension)) == if are_alike(extension, "shp"@) {
            dir + stem
        } else {
            path_of(dir, stem, extension)
        },
{
    lemma_file_name(dir, stem, extension);
    law_lower_case_is_alike(extension, "shp"@);
    reveal_strlit("shp");
    assert(lower_text("shp"@) =~= "shp"@);
}

/// The files beside a file have its path up to the last dot, with their own extension as it
/// is and in capitals: these first where the file's extension starts with one.
pub proof fn law_siblings_share_the_name(
    dir: Seq<char>,
    stem: Seq<char>,
    extension: Seq<char>,
    other: Seq<char>,
)
    requires
        is_file_in(dir, stem, extension),
    ensures
        ({
            let quiet = dir + stem + seq!['.'] + other;
            let loud = dir + stem + seq!['.'] + upper_text(other);
            siblings_of(path_of(dir, stem, extension), other) == if 'A' <= extension[0] <= 'Z' {
                seq![loud, quiet]
            } else {
                seq![quiet, loud]
            }
        }),
{
    lemma_file_name(dir, stem, extension);
    let name = stem + seq!['.'] + extension;
    assert(name[stem.len() as int + 1] == extension[0]);
    reveal_strlit(".");
    assert("."@ =~= seq!['.']);
}

// --- definitions ---------------------------------------------------------------------------

/// Whether a source has a definition.
pub open spec fn some_defines(
    sources: Seq<(Option<Seq<char>>, Option<System>)>,
    n: int,
    body: Seq<char>,
) -> bool {
    exists|i: int| 0 <= i < n && body_of((#[trigger] sources[i]).1) == Some(body)
}

proof fn lemma_bodies(
    sources: Seq<(Option<Seq<char>>, Option<System>)>,
    n: int,
    body: Seq<char>,
)
    requires
        0 <= n <= sources.len(),
    ensures
        is_seen(bodies_of(sources, n), body) <==> some_defines(sources, n, body),
    decreases n,
{
    if n > 0 {
        lemma_bodies(sources, n - 1, body);
        let before = bodies_of(sources, n - 1);
        let after = bodies_of(sources, n);
        let own = body_of(sources[n - 1].1);
        if some_defines(sources, n, body) {
            let i = choose|i: int| 0 <= i < n && body_of((#[trigger] sources[i]).1) == Some(body);
            if i < n - 1 {
                assert(some_defines(sources, n - 1, body));
            }
        }
        if some_defines(sources, n - 1, body) {
            let i = choose|i: int|
                0 <= i < n - 1 && body_of((#[trigger] sources[i]).1) == Some(body);
            assert(0 <= i < n && body_of(sources[i].1) == Some(body));
        }
        if own == Some(body) {
            assert(0 <= n - 1 < n && body_of(sources[n - 1].1) == Some(body));
        }
        if own is Some && !is_seen(before, own->0) {
            assert(after == before.push((own->0, sources[n - 1].0)));
            if is_seen(before, body) {
                let i = choose|i: int| 0 <= i < before.len() && (#[trigger] before[i]).0 == body;
                assert(after[i].0 == body);
            }
            assert(after[before.len() as int].0 == own->0);
            if is_seen(after, body) {
                let i = choose|i: int| 0 <= i < after.len() && (#[trigger] after[i]).0 == body;
                if i < before.len() {
                    assert(before[i].0 == body);
                }
            }
        }
    }
}

proof fn lemma_bodies_differ(
    sources: Seq<(Option<Seq<char>>, Option<System>)>,
    n: int,
    i: int,
    k: int,
)
    requires
        0 <= n <= sources.len(),
        0 <= i < k < bodies_of(sources, n).len(),
    ensures
        bodies_of(sources, n)[i].0 != bodies_of(sources, n)[k].0,
    decreases n,
{
    let before = bodies_of(sources, n - 1);
    if k < before.len() {
        lemma_bodies_differ(sources, n - 1, i, k);
    } else {
        assert(before[i].0 == bodies_of(sources, n)[i].0);
    }
}

/// A definition is printed as it is where the sources have it and no other.
pub proof fn law_one_definition_is_printed(
    input: Seq<char>,
    sources: Seq<(Option<Seq<char>>, Option<System>)>,
    body: Seq<char>,
)
    ensures
        printed(input, sources, false) == Ok::<Seq<char>, crate::error::Failure>(body) <==> {
            &&& some_defines(sources, sources.len() as int, body)
            &&& forall|other: Seq<char>|
                some_defines(sources, sources.len() as int, other) ==> other == body
        },
{
    let n = sources.len() as int;
    let bodies = bodies_of(sources, n);
    lemma_bodies(sources, n, body);
    if bodies.len() == 1 {
        assert forall|other: Seq<char>| some_defines(sources, n, other) implies other
            == bodies[0].0 by {
            lemma_bodies(sources, n, other);
        }
        assert(is_seen(bodies, bodies[0].0));
        lemma_bodies(sources, n, bodies[0].0);
    } else if bodies.len() > 1 {
        lemma_bodies_differ(sources, n, 0, 1);
        assert(is_seen(bodies, bodies[0].0) && is_seen(bodies, bodies[1].0));
        lemma_bodies(sources, n, bodies[0].0);
        lemma_bodies(sources, n, bodies[1].0);
    }
}

// --- layers --------------------------------------------------------------------------------

/// The systems that are counted are as many as there are different ones.
pub proof fn law_different_systems_are_counted(systems: Seq<Option<System>>)
    ensures
        distinct_count(systems, systems.len() as int) == systems.to_set().len(),
{
    lemma_counted(systems, systems.len() as int);
    assert(systems.take(systems.len() as int) =~= systems);
}

proof fn lemma_counted(systems: Seq<Option<System>>, n: int)
    requires
        0 <= n <= systems.len(),
    ensures
        distinct_count(systems, n) == systems.take(n).to_set().len(),
        systems.take(n).to_set().finite(),
    decreases n,
{
    vstd::seq_lib::seq_to_set_is_finite(systems.take(n));
    if n == 0 {
        assert(systems.take(0).to_set() =~= Set::empty());
    } else {
        lemma_counted(systems, n - 1);
        let shorter = systems.take(n - 1);
        let longer = systems.take(n);
        let before = shorter.to_set();
        let after = longer.to_set();
        let last = systems[n - 1];
        assert(after =~= before.insert(last)) by {
            assert forall|x: Option<System>| after.contains(x) <==> before.insert(last).contains(
                x,
            ) by {
                if after.contains(x) {
                    let i = choose|i: int| 0 <= i < n && longer[i] == x;
                    if i < n - 1 {
                        assert(shorter[i] == x);
                    }
                }
                if before.contains(x) {
                    let i = choose|i: int| 0 <= i < n - 1 && shorter[i] == x;
                    assert(longer[i] == x);
                }
                assert(longer[n - 1] == last);
            }
        }
        assert(before.contains(last) <==> !is_new(systems, n - 1)) by {
            if before.contains(last) {
                let i = choose|i: int| 0 <= i < n - 1 && shorter[i] == last;
                assert(systems[i] == last);
            }
            if !is_new(systems, n - 1) {
                let i = choose|i: int| 0 <= i < n - 1 && systems[i] == last;
                assert(shorter[i] == last);
            }
        }
    }
}

proof fn lemma_with_new(seen: Seq<Seq<char>>, texts: Seq<Seq<char>>, n: int, t: Seq<char>)
    requires
        0 <= n <= texts.len(),
    ensures
        with_new(seen, texts, n).contains(t) <==> seen.contains(t) || texts.take(n).contains(t),
    decreases n,
{
    if n > 0 {
        lemma_with_new(seen, texts, n - 1, t);
        let before = with_new(seen, texts, n - 1);
        let last = texts[n - 1];
        let short = texts.take(n - 1);
        let long = texts.take(n);
        if !before.contains(last) {
            let after = before.push(last);
            if before.contains(t) {
                let i = choose|i: int| 0 <= i < before.len() && before[i] == t;
                assert(after[i] == t);
            }
            assert(after[before.len() as int] == last);
        }
        if texts.take(n).contains(t) {
            let i = choose|i: int| 0 <= i < n && long[i] == t;
            if i < n - 1 {
                assert(short[i] == t);
            }
        }
        if texts.take(n - 1).contains(t) {
            let i = choose|i: int| 0 <= i < n - 1 && short[i] == t;
            assert(long[i] == t);
        }
        assert(long[n - 1] == last);
    } else {
        assert(texts.take(0) =~= Seq::empty());
    }
}

/// What is warned of is what is lost of some layer.
pub proof fn law_every_loss_is_warned_of<V, W>(
    layers: Seq<Items<V, W>>,
    target: Format,
    n: int,
    t: Seq<char>,
)
    requires
        0 <= n <= layers.len(),
    ensures
        layer_warnings(layers, target, n).contains(t) <==> exists|i: int|
            0 <= i < n && warnings_of(#[trigger] layers[i], target).contains(t),
    decreases n,
{
    if n > 0 {
        let texts = warnings_of(layers[n - 1], target);
        law_every_loss_is_warned_of(layers, target, n - 1, t);
        lemma_with_new(layer_warnings(layers, target, n - 1), texts, texts.len() as int, t);
        assert(texts.take(texts.len() as int) =~= texts);
        if exists|i: int| 0 <= i < n && warnings_of(#[trigger] layers[i], target).contains(t) {
            let i = choose|i: int|
                0 <= i < n && warnings_of(#[trigger] layers[i], target).contains(t);
            if i < n - 1 {
                assert(0 <= i < n - 1 && warnings_of(layers[i], target).contains(t));
            }
        }
        if layer_warnings(layers, target, n - 1).contains(t) {
            let i = choose|i: int|
                0 <= i < n - 1 && warnings_of(#[trigger] layers[i], target).contains(t);
            assert(0 <= i < n && warnings_of(layers[i], target).contains(t));
        }
    }
}

/// The layers that are selected by a name are all that have it, in their order.
pub proof fn law_selected_layers_have_the_name<T>(layers: Seq<(String, T)>, name: Seq<char>)
    ensures
        named_from(layers, name, 0) == layers.filter(|l: (String, T)| l.0@ == name),
{
    lemma_named(layers, name, 0);
    assert(layers.skip(0) =~= layers);
}

proof fn lemma_named<T>(layers: Seq<(String, T)>, name: Seq<char>, i: int)
    requires
        0 <= i <= layers.len(),
    ensures
        named_from(layers, name, i) == layers.skip(i).filter(|l: (String, T)| l.0@ == name),
    decreases layers.len() - i,
{
    let f = |l: (String, T)| l.0@ == name;
    reveal(Seq::filter);
    if i < layers.len() {
        let one = seq![layers[i]];
        let rest = layers.skip(i + 1);
        lemma_named(layers, name, i + 1);
        assert(layers.skip(i) =~= one + rest);
        Seq::filter_distributes_over_add(one, rest, f);
        assert(one.drop_last() =~= Seq::empty());
        assert(Seq::<(String, T)>::empty().filter(f) =~= Seq::empty());
        assert(one.filter(f) =~= if f(layers[i]) {
            one
        } else {
            Seq::empty()
        });
        assert(Seq::empty() + rest.filter(f) =~= rest.filter(f));
    } else {
        assert(layers.skip(i) =~= Seq::empty());
    }
}

} // verus!
