//! What is picked of a node.
use vstd::prelude::*;

use super::node::{
    child4, child_from, children_from, children_of, field_from, identifier_of, name_from, name_of,
    number_from, number_of, one_of, word_from, word_of,
};
use super::wkt::{Branch, Tree};
use crate::number::{integer_of, is_float_text};
use crate::text::{lower, lower_text};

verus! {

/// Whether two characters are the same but for the case of an ASCII letter.
pub open spec fn alike(a: char, b: char) -> bool {
    ||| a == b
    ||| 'A' <= a <= 'Z' && b as int == a as int + 32
    ||| 'A' <= b <= 'Z' && a as int == b as int + 32
}

/// Whether two texts are the same but for the case of ASCII letters.
pub open spec fn are_alike(s: Seq<char>, t: Seq<char>) -> bool {
    s.len() == t.len() && forall|i: int| 0 <= i < s.len() ==> alike(#[trigger] s[i], t[i])
}

/// Texts are the same in lower case where they are the same but for case.
pub proof fn law_lower_case_is_alike(s: Seq<char>, t: Seq<char>)
    ensures
        lower_text(s) == lower_text(t) <==> are_alike(s, t),
{
    if lower_text(s) == lower_text(t) {
        assert(s.len() == lower_text(s).len() && t.len() == lower_text(t).len());
        assert forall|i: int| 0 <= i < s.len() implies alike(#[trigger] s[i], t[i]) by {
            assert(lower_text(s)[i] == lower(s[i]));
            assert(lower_text(t)[i] == lower(t[i]));
        }
    }
    if are_alike(s, t) {
        assert forall|i: int| 0 <= i < s.len() implies lower_text(s)[i] == lower_text(t)[i] by {
            assert(alike(s[i], t[i]));
        }
        assert(lower_text(s) =~= lower_text(t));
    }
}

/// A text in lower case is the same but for case, and has no capital letters.
pub proof fn law_lower_case_has_no_capitals(s: Seq<char>)
    ensures
        are_alike(s, lower_text(s)),
        forall|i: int| 0 <= i < s.len() ==> !('A' <= #[trigger] lower_text(s)[i] <= 'Z'),
{
}

/// Whether an item is a node with one of four keywords.
pub open spec fn is_node_of(
    item: Branch,
    a: Seq<char>,
    b: Seq<char>,
    c: Seq<char>,
    d: Seq<char>,
) -> bool {
    item matches Branch::Node(n) && (are_alike(n.keyword, a) || are_alike(n.keyword, b) || are_alike(
        n.keyword,
        c,
    ) || are_alike(n.keyword, d))
}

proof fn lemma_one_of(
    item: Branch,
    a: Seq<char>,
    b: Seq<char>,
    c: Seq<char>,
    d: Seq<char>,
)
    ensures
        is_node_of(item, a, b, c, d) <==> item is Node && one_of(
            item->Node_0.keyword,
            a,
            b,
            c,
            d,
        ),
{
    if let Branch::Node(n) = item {
        law_lower_case_is_alike(n.keyword, a);
        law_lower_case_is_alike(n.keyword, b);
        law_lower_case_is_alike(n.keyword, c);
        law_lower_case_is_alike(n.keyword, d);
    }
}

/// The nested node that is picked is the first with the keyword, in any case.
pub proof fn law_child_is_the_first(
    t: Tree,
    a: Seq<char>,
    b: Seq<char>,
    c: Seq<char>,
    d: Seq<char>,
    i: int,
)
    requires
        0 <= i <= t.items.len(),
        forall|k: int| 0 <= k < i ==> !is_node_of(#[trigger] t.items[k], a, b, c, d),
        i < t.items.len() ==> is_node_of(t.items[i], a, b, c, d),
    ensures
        child4(t, a, b, c, d) == if i < t.items.len() {
            Some(t.items[i]->Node_0)
        } else {
            None
        },
{
    lemma_child_from_place(t, a, b, c, d, 0, i);
}

proof fn lemma_child_from_place(
    t: Tree,
    a: Seq<char>,
    b: Seq<char>,
    c: Seq<char>,
    d: Seq<char>,
    p: int,
    i: int,
)
    requires
        0 <= p <= i <= t.items.len(),
        forall|k: int| 0 <= k < i ==> !is_node_of(#[trigger] t.items[k], a, b, c, d),
        i < t.items.len() ==> is_node_of(t.items[i], a, b, c, d),
    ensures
        child_from(t.items, p, a, b, c, d) == if i < t.items.len() {
            Some(t.items[i]->Node_0)
        } else {
            None
        },
    decreases i - p,
{
    if p < t.items.len() {
        lemma_one_of(t.items[p], a, b, c, d);
    }
    if p < i {
        assert(!is_node_of(t.items[p], a, b, c, d));
        lemma_child_from_place(t, a, b, c, d, p + 1, i);
    }
}

/// The nodes with a keyword, of those that are nested in a node.
pub open spec fn nodes_of(items: Seq<Branch>, keyword: Seq<char>) -> Seq<Tree> {
    items.filter(
        |item: Branch| item is Node && are_alike(item->Node_0.keyword, keyword),
    ).map_values(|item: Branch| item->Node_0)
}

/// The texts of those items that are no nodes.
pub open spec fn fields_of(items: Seq<Branch>) -> Seq<Seq<char>> {
    items.filter(|item: Branch| item !is Node).map_values(
        |item: Branch|
            match item {
                Branch::Str(s) => s,
                Branch::Word(s) => s,
                Branch::Node(n) => n.keyword,
            },
    )
}

/// The bare words that are numbers.
pub open spec fn numbers_of(items: Seq<Branch>) -> Seq<Seq<char>> {
    items.filter(|item: Branch| item is Word && is_float_text(item->Word_0)).map_values(
        |item: Branch| item->Word_0,
    )
}

/// The texts in quotes.
pub open spec fn texts_of(items: Seq<Branch>) -> Seq<Seq<char>> {
    items.filter(|item: Branch| item is Str).map_values(|item: Branch| item->Str_0)
}

/// The bare words.
pub open spec fn words_of(items: Seq<Branch>) -> Seq<Seq<char>> {
    items.filter(|item: Branch| item is Word).map_values(|item: Branch| item->Word_0)
}

proof fn lemma_filter_first<A, B>(s: Seq<A>, p: int, f: spec_fn(A) -> bool, g: spec_fn(A) -> B)
    requires
        0 <= p < s.len(),
    ensures
        s.skip(p).filter(f).map_values(g) == (if f(s[p]) {
            seq![g(s[p])]
        } else {
            Seq::empty()
        }) + s.skip(p + 1).filter(f).map_values(g),
{
    let one = seq![s[p]];
    let rest = s.skip(p + 1);
    assert(s.skip(p) =~= one + rest);
    Seq::filter_distributes_over_add(one, rest, f);
    assert(one.filter(f) =~= if f(s[p]) {
        one
    } else {
        Seq::empty()
    }) by {
        reveal(Seq::filter);
        reveal_with_fuel(Seq::filter, 2);
        assert(one.drop_last() =~= Seq::empty());
    }
    assert((one.filter(f) + rest.filter(f)).map_values(g) =~= one.filter(f).map_values(g)
        + rest.filter(f).map_values(g));
    assert(one.filter(f).map_values(g) =~= if f(s[p]) {
        seq![g(s[p])]
    } else {
        Seq::empty()
    });
}

proof fn lemma_filter_none<A, B>(s: Seq<A>, f: spec_fn(A) -> bool, g: spec_fn(A) -> B)
    ensures
        s.skip(s.len() as int).filter(f).map_values(g) == Seq::<B>::empty(),
{
    reveal(Seq::filter);
    assert(s.skip(s.len() as int) =~= Seq::empty());
}

/// The nested nodes that are picked by a keyword are all that have it, in their order.
pub proof fn law_children_are_all(t: Tree, keyword: Seq<char>)
    ensures
        children_of(t, keyword) == nodes_of(t.items, keyword),
{
    lemma_children_from_place(t.items, 0, keyword);
    assert(t.items.skip(0) =~= t.items);
}

proof fn lemma_children_from_place(items: Seq<Branch>, p: int, keyword: Seq<char>)
    requires
        0 <= p <= items.len(),
    ensures
        children_from(items, p, keyword) == nodes_of(items.skip(p), keyword),
    decreases items.len() - p,
{
    let f = |item: Branch| item is Node && are_alike(item->Node_0.keyword, keyword);
    let g = |item: Branch| item->Node_0;
    if p < items.len() {
        lemma_children_from_place(items, p + 1, keyword);
        lemma_filter_first(items, p, f, g);
        if items[p] is Node {
            law_lower_case_is_alike(items[p]->Node_0.keyword, keyword);
        }
        assert(Seq::empty() + nodes_of(items.skip(p + 1), keyword) =~= nodes_of(
            items.skip(p + 1),
            keyword,
        ));
    } else {
        lemma_filter_none(items, f, g);
    }
}

/// A node's name is its first text in quotes, its word the first bare one, and its numbers
/// are those of its bare words that are one, in their order.
pub proof fn law_items_are_picked_in_order(t: Tree, n: nat)
    ensures
        name_of(t) == (if texts_of(t.items).len() > 0 {
            Some(texts_of(t.items)[0])
        } else {
            None
        }),
        word_of(t) == (if words_of(t.items).len() > 0 {
            Some(words_of(t.items)[0])
        } else {
            None
        }),
        number_of(t, n) == (if n < numbers_of(t.items).len() {
            Some(numbers_of(t.items)[n as int])
        } else {
            None
        }),
{
    lemma_picked_from(t.items, 0, n);
    assert(t.items.skip(0) =~= t.items);
}

proof fn lemma_picked_from(items: Seq<Branch>, p: int, n: nat)
    requires
        0 <= p <= items.len(),
    ensures
        name_from(items, p) == (if texts_of(items.skip(p)).len() > 0 {
            Some(texts_of(items.skip(p))[0])
        } else {
            None
        }),
        word_from(items, p) == (if words_of(items.skip(p)).len() > 0 {
            Some(words_of(items.skip(p))[0])
        } else {
            None
        }),
        number_from(items, p, n) == (if n < numbers_of(items.skip(p)).len() {
            Some(numbers_of(items.skip(p))[n as int])
        } else {
            None
        }),
        field_from(items, p, n) == (if n < fields_of(items.skip(p)).len() {
            Some(fields_of(items.skip(p))[n as int])
        } else {
            None
        }),
    decreases items.len() - p,
{
    let is_str = |item: Branch| item is Str;
    let is_word = |item: Branch| item is Word;
    let is_number = |item: Branch| item is Word && is_float_text(item->Word_0);
    let is_field = |item: Branch| item !is Node;
    let str = |item: Branch| item->Str_0;
    let word = |item: Branch| item->Word_0;
    let field = |item: Branch|
        match item {
            Branch::Str(s) => s,
            Branch::Word(s) => s,
            Branch::Node(n) => n.keyword,
        };
    if p < items.len() {
        lemma_picked_from(items, p + 1, n);
        if n > 0 {
            lemma_picked_from(items, p + 1, (n - 1) as nat);
        }
        lemma_filter_first(items, p, is_str, str);
        lemma_filter_first(items, p, is_word, word);
        lemma_filter_first(items, p, is_number, word);
        lemma_filter_first(items, p, is_field, field);
    } else {
        lemma_filter_none(items, is_str, str);
        lemma_filter_none(items, is_word, word);
        lemma_filter_none(items, is_number, word);
        lemma_filter_none(items, is_field, field);
    }
}

/// The identifier of a node is the authority and the integer that its first `AUTHORITY` or
/// `ID` states.
pub proof fn law_identifier_is_the_stated(t: Tree, i: int)
    requires
        0 <= i < t.items.len(),
        is_node_of(t.items[i], "AUTHORITY"@, "ID"@, "AUTHORITY"@, "ID"@),
        forall|k: int|
            0 <= k < i ==> !is_node_of(
                #[trigger] t.items[k],
                "AUTHORITY"@,
                "ID"@,
                "AUTHORITY"@,
                "ID"@,
            ),
    ensures
        ({
            let fields = fields_of(t.items[i]->Node_0.items);
            identifier_of(t) == if fields.len() >= 2 && integer_of(fields[1]) is Some {
                Some((fields[0], integer_of(fields[1])->0))
            } else {
                None
            }
        }),
{
    let id = t.items[i]->Node_0;
    law_child_is_the_first(t, "AUTHORITY"@, "ID"@, "AUTHORITY"@, "ID"@, i);
    lemma_picked_from(id.items, 0, 0);
    lemma_picked_from(id.items, 0, 1);
    assert(id.items.skip(0) =~= id.items);
}

} // verus!
