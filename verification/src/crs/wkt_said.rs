//! What the WKT of a PROJJSON object says.
use vstd::prelude::*;

use super::node::{child1, child_from, name_from, name_of, number_from, number_of};
use super::projjson_wkt::{
    name_member, node3, number_member, primem_wkt, spheroid_wkt, structural_wkt_of,
};
use super::said::has_text;
use super::tree_back::{
    branch_text, branches_text, is_delimiter, is_word, is_writable, is_writable_branch, law_definition_reads_back,
    tree_text,
};
use super::wkt::{tree_of, Branch, Tree};
use crate::decimal::{is_finite_text, law_plain_is_plain, plain_number, unsigned_plain};
use crate::json::parser::document;
use crate::json::value::Json;
use crate::number::{digits_end, is_float_text, lemma_digits_reach};
use crate::text::{first_place, lower_text};
use crate::worth::{is_tiny_text, law_unsigned_text_is_the_same_number, same_number};

verus! {

// --- statement -----------------------------------------------------------------------------

/// Whether a member of an object is a finite number, where it is a number.
pub open spec fn is_finite_member(v: Json, key: Seq<char>) -> bool {
    v.member(key) matches Some(Json::Number { text, is_int }) ==> is_finite_text(text)
}

/// Whether the numbers of a geographic system are finite ones.
pub open spec fn has_finite_numbers(v: Json) -> bool {
    v.member("datum"@) matches Some(datum) ==> {
        &&& datum.member("ellipsoid"@) matches Some(e) ==> is_finite_member(e, "semi_major_axis"@)
            && is_finite_member(e, "inverse_flattening"@)
        &&& datum.member("prime_meridian"@) matches Some(pm) ==> is_finite_member(pm, "longitude"@)
    }
}

/// Whether the `n`th number of a node is the number that a member is.
pub open spec fn counts(t: Tree, n: nat, v: Json, key: Seq<char>) -> bool {
    number_of(t, n) matches Some(x) && (v.member(key) matches Some(Json::Number { text, is_int }) && (
    is_tiny_text(text) || same_number(text, x)))
}

/// Whether a node's name is a member.
pub open spec fn names(t: Tree, v: Json, key: Seq<char>) -> bool {
    name_of(t) matches Some(name) && has_text(v, key, name)
}

/// Whether a node is the prime meridian that an object states, and else the one of
/// Greenwich.
pub open spec fn is_meridian_of(t: Tree, datum: Json) -> bool {
    match datum.member("prime_meridian"@) {
        Some(pm) => names(t, pm, "name"@) && counts(t, 0, pm, "longitude"@),
        None => name_of(t) == Some("Greenwich"@) && number_of(t, 0) == Some("0"@),
    }
}

/// Whether a node says what a geographic system does.
pub open spec fn is_geographic_of(t: Tree, v: Json) -> bool {
    &&& lower_text(t.keyword) == "geogcs"@
    &&& names(t, v, "name"@)
    &&& v.member("datum"@) matches Some(datum) && {
        &&& child1(t, "DATUM"@) matches Some(d) && names(d, datum, "name"@) && (child1(
            d,
            "SPHEROID"@,
        ) matches Some(s) && (datum.member("ellipsoid"@) matches Some(e) && names(s, e, "name"@)
            && counts(s, 0, e, "semi_major_axis"@) && counts(s, 1, e, "inverse_flattening"@)))
        &&& child1(t, "PRIMEM"@) matches Some(pm) && is_meridian_of(pm, datum)
    }
    &&& child1(t, "UNIT"@) matches Some(u) && name_of(u) == Some("degree"@) && number_of(u, 0)
        == Some("0.0174532925199433"@)
}

// --- nodes as they are written -------------------------------------------------------------

proof fn lemma_two(k: Seq<char>, a: Branch, b: Branch)
    ensures
        tree_text(Tree { keyword: k, items: seq![a, b] }) == k + seq!['['] + (branch_text(a) + seq![
            ',',
        ] + branch_text(b)) + seq![']'],
{
    let items = seq![a, b];
    assert(items.drop_first() =~= seq![b]);
    assert(branches_text(seq![b]) == branch_text(b));
    assert(branches_text(items) == branch_text(a) + seq![','] + branch_text(b));
}

proof fn lemma_three(k: Seq<char>, a: Branch, b: Branch, c: Branch)
    ensures
        tree_text(Tree { keyword: k, items: seq![a, b, c] }) == k + seq!['['] + (branch_text(a)
            + seq![','] + (branch_text(b) + seq![','] + branch_text(c))) + seq![']'],
{
    let items = seq![a, b, c];
    assert(items.drop_first() =~= seq![b, c]);
    assert(seq![b, c].drop_first() =~= seq![c]);
    assert(branches_text(seq![c]) == branch_text(c));
    assert(branches_text(seq![b, c]) == branch_text(b) + seq![','] + branch_text(c));
}

proof fn lemma_four(k: Seq<char>, a: Branch, b: Branch, c: Branch, d: Branch)
    ensures
        tree_text(Tree { keyword: k, items: seq![a, b, c, d] }) == k + seq!['['] + (branch_text(a)
            + seq![','] + (branch_text(b) + seq![','] + (branch_text(c) + seq![','] + branch_text(
            d,
        )))) + seq![']'],
{
    let items = seq![a, b, c, d];
    assert(items.drop_first() =~= seq![b, c, d]);
    assert(seq![b, c, d].drop_first() =~= seq![c, d]);
    assert(seq![c, d].drop_first() =~= seq![d]);
    assert(branches_text(seq![d]) == branch_text(d));
    assert(branches_text(seq![c, d]) == branch_text(c) + seq![','] + branch_text(d));
    assert(branches_text(seq![b, c, d]) == branch_text(b) + seq![','] + branches_text(seq![c, d]));
}

/// A name and numbers under a keyword.
spec fn node_of2(k: Seq<char>, name: Seq<char>, x: Seq<char>) -> Tree {
    Tree { keyword: k, items: seq![Branch::Str(name), Branch::Word(x)] }
}

spec fn node_of3(k: Seq<char>, name: Seq<char>, x: Seq<char>, y: Seq<char>) -> Tree {
    Tree { keyword: k, items: seq![Branch::Str(name), Branch::Word(x), Branch::Word(y)] }
}

proof fn lemma_node2(k: Seq<char>, name: Seq<char>, x: Seq<char>)
    requires
        is_word(k),
        !name.contains('"'),
        is_word(x),
        is_float_text(x),
    ensures
        is_writable(node_of2(k, name, x)),
        tree_text(node_of2(k, name, x)) == k + (seq!['[', '"'] + name + seq!['"', ','] + x + seq![
            ']',
        ]),
        name_of(node_of2(k, name, x)) == Some(name),
        number_of(node_of2(k, name, x), 0) == Some(x),
{
    let t = node_of2(k, name, x);
    lemma_two(k, Branch::Str(name), Branch::Word(x));
    assert(tree_text(t) =~= k + (seq!['[', '"'] + name + seq!['"', ','] + x + seq![']']));
    assert(t.items[0] is Str && t.items[1] is Word);
    assert forall|i: int| 0 <= i < t.items.len() implies is_writable_branch(
        #[trigger] t.items[i],
    ) by {}
    reveal_with_fuel(name_from, 2);
    reveal_with_fuel(number_from, 3);
}

proof fn lemma_node3(k: Seq<char>, name: Seq<char>, x: Seq<char>, y: Seq<char>)
    requires
        is_word(k),
        !name.contains('"'),
        is_word(x),
        is_word(y),
        is_float_text(x),
        is_float_text(y),
    ensures
        is_writable(node_of3(k, name, x, y)),
        tree_text(node_of3(k, name, x, y)) == node3(k, name, x, y),
        name_of(node_of3(k, name, x, y)) == Some(name),
        number_of(node_of3(k, name, x, y), 0) == Some(x),
        number_of(node_of3(k, name, x, y), 1) == Some(y),
{
    let t = node_of3(k, name, x, y);
    lemma_three(k, Branch::Str(name), Branch::Word(x), Branch::Word(y));
    reveal_strlit("[\"");
    reveal_strlit("\",");
    reveal_strlit(",");
    reveal_strlit("]");
    assert(tree_text(t) =~= node3(k, name, x, y));
    assert(t.items[0] is Str && t.items[1] is Word && t.items[2] is Word);
    assert forall|i: int| 0 <= i < t.items.len() implies is_writable_branch(
        #[trigger] t.items[i],
    ) by {}
    reveal_with_fuel(name_from, 2);
    reveal_with_fuel(number_from, 4);
}

/// The plain text of a finite number is a word, and that number.
proof fn lemma_plain_word(t: Seq<char>)
    requires
        is_finite_text(t),
    ensures
        is_word(unsigned_plain(t)),
        is_float_text(unsigned_plain(t)),
        is_tiny_text(t) || same_number(t, unsigned_plain(t)),
{
    law_plain_is_plain(t);
    if !is_tiny_text(t) {
        law_unsigned_text_is_the_same_number(t);
    }
    let u = unsigned_plain(t);
    reveal_strlit("0");
    if u == "0"@ && plain_number(t) != "0"@ {
        assert(is_word(u));
        lemma_zero_is_float();
    } else {
        assert forall|i: int| 0 <= i < u.len() implies !is_delimiter(
            #[trigger] u[i],
        ) by {
            assert(u[i] == plain_number(t)[i]);
        }
    }
}

proof fn lemma_zero_is_float()
    ensures
        is_float_text("0"@),
        is_word("0"@),
{
    reveal_strlit("0");
    lemma_digits_reach("0"@, 0);
}

proof fn lemma_no_quote(s: Seq<char>, p: int)
    requires
        first_place(s, '"', p) is None,
        0 <= p <= s.len(),
    ensures
        forall|i: int| p <= i < s.len() ==> #[trigger] s[i] != '"',
    decreases s.len() - p,
{
    if p < s.len() {
        lemma_no_quote(s, p + 1);
    }
}

proof fn lemma_name(v: Json, key: Seq<char>)
    requires
        name_member(v, key) is Some,
    ensures
        !name_member(v, key)->0.contains('"'),
        has_text(v, key, name_member(v, key)->0),
{
    lemma_no_quote(name_member(v, key)->0, 0);
}

// --- the whole -----------------------------------------------------------------------------

proof fn lemma_keyword_words()
    ensures
        is_word("SPHEROID"@),
        is_word("PRIMEM"@),
        is_word("DATUM"@),
        is_word("GEOGCS"@),
        is_word("UNIT"@),
        "DATUM"@.len() == 5 && "PRIMEM"@.len() == 6 && "UNIT"@.len() == 4,
        lower_text("GEOGCS"@) == "geogcs"@,
{
    reveal_strlit("SPHEROID");
    reveal_strlit("PRIMEM");
    reveal_strlit("DATUM");
    reveal_strlit("GEOGCS");
    reveal_strlit("UNIT");
    reveal_strlit("geogcs");
    assert(lower_text("GEOGCS"@) =~= "geogcs"@);
}

proof fn lemma_spheroid(datum: Json) -> (s: Tree)
    requires
        spheroid_wkt(datum) is Some,
        is_finite_member(datum.member("ellipsoid"@)->0, "semi_major_axis"@),
        is_finite_member(datum.member("ellipsoid"@)->0, "inverse_flattening"@),
    ensures
        is_writable(s),
        s.keyword == "SPHEROID"@,
        tree_text(s) == spheroid_wkt(datum)->0,
        datum.member("ellipsoid"@) matches Some(e) && names(s, e, "name"@) && counts(
            s,
            0,
            e,
            "semi_major_axis"@,
        ) && counts(s, 1, e, "inverse_flattening"@),
{
    let e = datum.member("ellipsoid"@)->0;
    let name = name_member(e, "name"@)->0;
    let a = number_member(e, "semi_major_axis"@)->0;
    let b = number_member(e, "inverse_flattening"@)->0;
    lemma_keyword_words();
    lemma_name(e, "name"@);
    lemma_plain_word(e.member("semi_major_axis"@)->0->text);
    lemma_plain_word(e.member("inverse_flattening"@)->0->text);
    lemma_node3("SPHEROID"@, name, a, b);
    node_of3("SPHEROID"@, name, a, b)
}

#[verifier::rlimit(30)]
proof fn lemma_primem(datum: Json) -> (t: Tree)
    requires
        primem_wkt(datum) is Some,
        datum.member("prime_meridian"@) matches Some(pm) ==> is_finite_member(pm, "longitude"@),
    ensures
        is_writable(t),
        t.keyword == "PRIMEM"@,
        tree_text(t) == primem_wkt(datum)->0,
        is_meridian_of(t, datum),
{
    lemma_keyword_words();
    reveal_strlit("PRIMEM");
    match datum.member("prime_meridian"@) {
        None => {
            reveal_strlit("Greenwich");
            reveal_strlit("0");
            reveal_strlit("PRIMEM[\"Greenwich\",0]");
            lemma_zero_is_float();
            lemma_node2("PRIMEM"@, "Greenwich"@, "0"@);
            let t = node_of2("PRIMEM"@, "Greenwich"@, "0"@);
            assert(tree_text(t) =~= "PRIMEM[\"Greenwich\",0]"@);
            t
        },
        Some(pm) => {
            let name = name_member(pm, "name"@)->0;
            let x = number_member(pm, "longitude"@)->0;
            lemma_name(pm, "name"@);
            lemma_plain_word(pm.member("longitude"@)->0->text);
            lemma_node2("PRIMEM"@, name, x);
            reveal_strlit("PRIMEM[\"");
            reveal_strlit("\",");
            reveal_strlit("]");
            let t = node_of2("PRIMEM"@, name, x);
            assert(tree_text(t) =~= "PRIMEM[\""@ + name + "\","@ + x + "]"@);
            t
        },
    }
}

proof fn lemma_degree() -> (t: Tree)
    ensures
        is_writable(t),
        t.keyword == "UNIT"@,
        tree_text(t) == "UNIT[\"degree\",0.0174532925199433]"@,
        name_of(t) == Some("degree"@),
        number_of(t, 0) == Some("0.0174532925199433"@),
{
    lemma_keyword_words();
    let x = "0.0174532925199433"@;
    reveal_strlit("0.0174532925199433");
    reveal_strlit("degree");
    reveal_strlit("UNIT");
    reveal_strlit("UNIT[\"degree\",0.0174532925199433]");
    assert(is_float_text(x)) by {
        lemma_digits_reach(x, 2);
        reveal_with_fuel(digits_end, 3);
    }
    lemma_node2("UNIT"@, "degree"@, x);
    let t = node_of2("UNIT"@, "degree"@, x);
    assert(tree_text(t) =~= "UNIT[\"degree\",0.0174532925199433]"@);
    t
}

/// The tree of a geographic system, put together.
spec fn geographic_tree(
    name: Seq<char>,
    datum_name: Seq<char>,
    spheroid: Tree,
    primem: Tree,
    unit: Tree,
) -> Tree {
    Tree {
        keyword: "GEOGCS"@,
        items: seq![
            Branch::Str(name),
            Branch::Node(
                Tree {
                    keyword: "DATUM"@,
                    items: seq![Branch::Str(datum_name), Branch::Node(spheroid)],
                },
            ),
            Branch::Node(primem),
            Branch::Node(unit),
        ],
    }
}

proof fn lemma_geographic_tree(
    name: Seq<char>,
    datum_name: Seq<char>,
    spheroid: Tree,
    primem: Tree,
    unit: Tree,
)
    requires
        !name.contains('"'),
        !datum_name.contains('"'),
        is_writable(spheroid),
        is_writable(primem),
        is_writable(unit),
        spheroid.keyword == "SPHEROID"@,
        primem.keyword == "PRIMEM"@,
        unit.keyword == "UNIT"@,
        tree_text(unit) == "UNIT[\"degree\",0.0174532925199433]"@,
    ensures
        ({
            let t = geographic_tree(name, datum_name, spheroid, primem, unit);
            &&& is_writable(t)
            &&& tree_text(t) == "GEOGCS[\""@ + name + "\",DATUM[\""@ + datum_name + "\","@
                + tree_text(spheroid) + "],"@ + tree_text(primem)
                + ",UNIT[\"degree\",0.0174532925199433]]"@
            &&& name_of(t) == Some(name)
            &&& child1(t, "DATUM"@) matches Some(d) && name_of(d) == Some(datum_name) && child1(
                d,
                "SPHEROID"@,
            ) == Some(spheroid)
            &&& child1(t, "PRIMEM"@) == Some(primem)
            &&& child1(t, "UNIT"@) == Some(unit)
        }),
{
    let t = geographic_tree(name, datum_name, spheroid, primem, unit);
    let datum = t.items[1]->Node_0;
    lemma_keyword_words();
    lemma_two("DATUM"@, Branch::Str(datum_name), Branch::Node(spheroid));
    lemma_four("GEOGCS"@, Branch::Str(name), Branch::Node(datum), Branch::Node(primem), Branch::Node(
        unit,
    ));
    assert forall|i: int| 0 <= i < datum.items.len() implies is_writable_branch(
        #[trigger] datum.items[i],
    ) by {}
    assert(is_writable(datum));
    assert forall|i: int| 0 <= i < t.items.len() implies is_writable_branch(
        #[trigger] t.items[i],
    ) by {}
    reveal_strlit("GEOGCS");
    reveal_strlit("DATUM");
    reveal_strlit("GEOGCS[\"");
    reveal_strlit("\",DATUM[\"");
    reveal_strlit("\",");
    reveal_strlit("],");
    reveal_strlit(",UNIT[\"degree\",0.0174532925199433]]");
    reveal_strlit("UNIT[\"degree\",0.0174532925199433]");
    assert(tree_text(t) =~= "GEOGCS[\""@ + name + "\",DATUM[\""@ + datum_name + "\","@
        + tree_text(spheroid) + "],"@ + tree_text(primem)
        + ",UNIT[\"degree\",0.0174532925199433]]"@);
    reveal_with_fuel(name_from, 2);
    lemma_told_apart();
    reveal_with_fuel(child_from, 5);
}

/// The keywords of the nodes differ.
proof fn lemma_told_apart()
    ensures
        lower_text("DATUM"@).len() == 5,
        lower_text("PRIMEM"@).len() == 6,
        lower_text("UNIT"@).len() == 4,
{
    reveal_strlit("PRIMEM");
    reveal_strlit("DATUM");
    reveal_strlit("UNIT");
}

/// The WKT that a geographic system is rendered as is read as a node that says the same:
/// its names, the size of its ellipsoid, its prime meridian and its unit. The numbers are
/// to be finite ones.
pub proof fn law_rendered_wkt_says_the_same(text: Seq<char>)
    requires
        document(text) matches Ok(v) ==> has_finite_numbers(v),
        structural_wkt_of(text) is Some,
    ensures
        document(text) matches Ok(v) && (tree_of(structural_wkt_of(text)->0) matches Some(t)
            && is_geographic_of(t, v)),
{
    let v = document(text)->Ok_0;
    let datum = v.member("datum"@)->0;
    let name = name_member(v, "name"@)->0;
    let datum_name = name_member(datum, "name"@)->0;
    lemma_name(v, "name"@);
    lemma_name(datum, "name"@);
    let spheroid = lemma_spheroid(datum);
    let primem = lemma_primem(datum);
    let unit = lemma_degree();
    lemma_geographic_tree(name, datum_name, spheroid, primem, unit);
    lemma_keyword_words();
    let t = geographic_tree(name, datum_name, spheroid, primem, unit);
    law_definition_reads_back(t, Seq::empty());
    assert(tree_text(t) + Seq::empty() =~= tree_text(t));
    assert(structural_wkt_of(text)->0 == tree_text(t));
}

} // verus!
