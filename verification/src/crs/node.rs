//! What the nodes of a WKT tree hold: children by keyword, names, numbers.
use vstd::prelude::*;

use crate::crs::wkt::{branches_view, lemma_node_view, Branch, Item, Node, Tree};
use crate::number::{integer_of, is_float, is_float_text, parse_integer};
use crate::text::{chars_of, lower_text, same_ignoring_case};

verus! {

/// Whether a keyword is one of four, in any ASCII case.
pub open spec fn one_of(
    keyword: Seq<char>,
    a: Seq<char>,
    b: Seq<char>,
    c: Seq<char>,
    d: Seq<char>,
) -> bool {
    let k = lower_text(keyword);
    k == lower_text(a) || k == lower_text(b) || k == lower_text(c) || k == lower_text(d)
}

/// The first nested node among `items` from `p` on whose keyword is one of four.
pub open spec fn child_from(
    items: Seq<Branch>,
    p: int,
    a: Seq<char>,
    b: Seq<char>,
    c: Seq<char>,
    d: Seq<char>,
) -> Option<Tree>
    decreases items.len() - p,
{
    if p < 0 || p >= items.len() {
        None
    } else if items[p] is Node && one_of(items[p]->Node_0.keyword, a, b, c, d) {
        Some(items[p]->Node_0)
    } else {
        child_from(items, p + 1, a, b, c, d)
    }
}

/// The first nested node whose keyword is one of four.
pub open spec fn child4(
    t: Tree,
    a: Seq<char>,
    b: Seq<char>,
    c: Seq<char>,
    d: Seq<char>,
) -> Option<Tree> {
    child_from(t.items, 0, a, b, c, d)
}

/// The first nested node whose keyword is one of two.
pub open spec fn child2(t: Tree, a: Seq<char>, b: Seq<char>) -> Option<Tree> {
    child4(t, a, b, a, b)
}

/// The first nested node with a keyword.
pub open spec fn child1(t: Tree, a: Seq<char>) -> Option<Tree> {
    child4(t, a, a, a, a)
}

/// The first quoted text among `items` from `p` on.
pub open spec fn name_from(items: Seq<Branch>, p: int) -> Option<Seq<char>>
    decreases items.len() - p,
{
    if p < 0 || p >= items.len() {
        None
    } else if items[p] is Str {
        Some(items[p]->Str_0)
    } else {
        name_from(items, p + 1)
    }
}

/// The node's name: its first quoted text.
pub open spec fn name_of(t: Tree) -> Option<Seq<char>> {
    name_from(t.items, 0)
}

/// The node's name, or another text where it has none.
pub open spec fn name_or(t: Tree, other: Seq<char>) -> Seq<char> {
    match name_of(t) {
        Some(n) => n,
        None => other,
    }
}

/// The first bare word among `items` from `p` on.
pub open spec fn word_from(items: Seq<Branch>, p: int) -> Option<Seq<char>>
    decreases items.len() - p,
{
    if p < 0 || p >= items.len() {
        None
    } else if items[p] is Word {
        Some(items[p]->Word_0)
    } else {
        word_from(items, p + 1)
    }
}

/// The node's first bare word.
pub open spec fn word_of(t: Tree) -> Option<Seq<char>> {
    word_from(t.items, 0)
}

/// The text of the `n`th of those bare words from `p` on that are numbers.
pub open spec fn number_from(items: Seq<Branch>, p: int, n: nat) -> Option<Seq<char>>
    decreases items.len() - p,
{
    if p < 0 || p >= items.len() {
        None
    } else if items[p] is Word && is_float_text(items[p]->Word_0) {
        if n == 0 {
            Some(items[p]->Word_0)
        } else {
            number_from(items, p + 1, (n - 1) as nat)
        }
    } else {
        number_from(items, p + 1, n)
    }
}

/// The text of the node's `n`th number.
pub open spec fn number_of(t: Tree, n: nat) -> Option<Seq<char>> {
    number_from(t.items, 0, n)
}

/// The `n`th quoted text or bare word from `p` on.
pub open spec fn field_from(items: Seq<Branch>, p: int, n: nat) -> Option<Seq<char>>
    decreases items.len() - p,
{
    if p < 0 || p >= items.len() {
        None
    } else if items[p] is Node {
        field_from(items, p + 1, n)
    } else if n == 0 {
        Some(
            if items[p] is Str {
                items[p]->Str_0
            } else {
                items[p]->Word_0
            },
        )
    } else {
        field_from(items, p + 1, (n - 1) as nat)
    }
}

/// The identifier that a node states of itself: its child `AUTHORITY` or `ID`,
/// whose code is an integer.
pub open spec fn identifier_of(t: Tree) -> Option<(Seq<char>, int)> {
    match child2(t, "AUTHORITY"@, "ID"@) {
        None => None,
        Some(id) => match (field_from(id.items, 0, 0), field_from(id.items, 0, 1)) {
            (Some(authority), Some(code)) => match integer_of(code) {
                Some(n) => Some((authority, n)),
                None => None,
            },
            _ => None,
        },
    }
}

/// The nested nodes with a keyword, from `p` on.
pub open spec fn children_from(items: Seq<Branch>, p: int, keyword: Seq<char>) -> Seq<Tree>
    decreases items.len() - p,
{
    if p < 0 || p >= items.len() {
        Seq::empty()
    } else if items[p] is Node && lower_text(items[p]->Node_0.keyword) == lower_text(keyword) {
        seq![items[p]->Node_0] + children_from(items, p + 1, keyword)
    } else {
        children_from(items, p + 1, keyword)
    }
}

/// The nested nodes with a keyword.
pub open spec fn children_of(t: Tree, keyword: Seq<char>) -> Seq<Tree> {
    children_from(t.items, 0, keyword)
}

pub open spec fn trees_view(nodes: Seq<&Node>) -> Seq<Tree> {
    nodes.map_values(|n: &Node| n@)
}

impl Node {
    /// The first nested node whose keyword is one of four.
    pub fn child_of_four(&self, a: &str, b: &str, c: &str, d: &str) -> (r: Option<&Node>)
        ensures
            match r {
                Some(n) => child4(self@, a@, b@, c@, d@) == Some(n@),
                None => child4(self@, a@, b@, c@, d@) is None,
            },
    {
        proof {
            lemma_node_view(*self);
        }
        let mut i: usize = 0;
        while i < self.items.len()
            invariant
                i <= self.items@.len(),
                self@.items == branches_view(self.items@),
                child4(self@, a@, b@, c@, d@) == child_from(
                    self@.items,
                    i as int,
                    a@,
                    b@,
                    c@,
                    d@,
                ),
            decreases self.items@.len() - i,
        {
            assert(self@.items[i as int] == self.items@[i as int]@);
            if let Item::Node(n) = &self.items[i] {
                proof {
                    lemma_node_view(*n);
                }
                let k = n.keyword.as_str();
                if same_ignoring_case(k, a) || same_ignoring_case(k, b) || same_ignoring_case(k, c)
                    || same_ignoring_case(k, d) {
                    return Some(n);
                }
            }
            i += 1;
        }
        None
    }

    /// The first nested node whose keyword is one of two.
    pub fn child_of_two(&self, a: &str, b: &str) -> (r: Option<&Node>)
        ensures
            match r {
                Some(n) => child2(self@, a@, b@) == Some(n@),
                None => child2(self@, a@, b@) is None,
            },
    {
        self.child_of_four(a, b, a, b)
    }

    /// The first nested node with a keyword.
    pub fn child(&self, a: &str) -> (r: Option<&Node>)
        ensures
            match r {
                Some(n) => child1(self@, a@) == Some(n@),
                None => child1(self@, a@) is None,
            },
    {
        self.child_of_four(a, a, a, a)
    }

    /// The node's first quoted text.
    pub fn first_str(&self) -> (r: Option<&str>)
        ensures
            match r {
                Some(s) => name_of(self@) == Some(s@),
                None => name_of(self@) is None,
            },
    {
        proof {
            lemma_node_view(*self);
        }
        let mut i: usize = 0;
        while i < self.items.len()
            invariant
                i <= self.items@.len(),
                self@.items == branches_view(self.items@),
                name_of(self@) == name_from(self@.items, i as int),
            decreases self.items@.len() - i,
        {
            assert(self@.items[i as int] == self.items@[i as int]@);
            if let Item::Str(s) = &self.items[i] {
                return Some(s.as_str());
            }
            i += 1;
        }
        None
    }

    /// The node's first quoted text, or another one.
    pub fn first_str_or<'a>(&'a self, other: &'a str) -> (r: &'a str)
        ensures
            r@ == name_or(self@, other@),
    {
        match self.first_str() {
            Some(s) => s,
            None => other,
        }
    }

    /// The node's first bare word, as it stands.
    pub fn first_word(&self) -> (r: Option<&str>)
        ensures
            match r {
                Some(s) => word_of(self@) == Some(s@),
                None => word_of(self@) is None,
            },
    {
        proof {
            lemma_node_view(*self);
        }
        let mut i: usize = 0;
        while i < self.items.len()
            invariant
                i <= self.items@.len(),
                self@.items == branches_view(self.items@),
                word_of(self@) == word_from(self@.items, i as int),
            decreases self.items@.len() - i,
        {
            assert(self@.items[i as int] == self.items@[i as int]@);
            if let Item::Word(s) = &self.items[i] {
                return Some(s.as_str());
            }
            i += 1;
        }
        None
    }

    /// The text of the `n`th of the node's bare words that are numbers.
    pub fn number(&self, n: usize) -> (r: Option<&str>)
        ensures
            match r {
                Some(s) => number_of(self@, n as nat) == Some(s@),
                None => number_of(self@, n as nat) is None,
            },
    {
        proof {
            lemma_node_view(*self);
        }
        let mut left: usize = n;
        let mut i: usize = 0;
        while i < self.items.len()
            invariant
                i <= self.items@.len(),
                self@.items == branches_view(self.items@),
                number_of(self@, n as nat) == number_from(self@.items, i as int, left as nat),
            decreases self.items@.len() - i,
        {
            assert(self@.items[i as int] == self.items@[i as int]@);
            if let Item::Word(s) = &self.items[i] {
                let chars = chars_of(s.as_str());
                if is_float(chars.as_slice()) {
                    if left == 0 {
                        return Some(s.as_str());
                    }
                    left -= 1;
                }
            }
            i += 1;
        }
        None
    }

    fn field(&self, n: usize) -> (r: Option<&str>)
        ensures
            match r {
                Some(s) => field_from(self@.items, 0, n as nat) == Some(s@),
                None => field_from(self@.items, 0, n as nat) is None,
            },
    {
        proof {
            lemma_node_view(*self);
        }
        let mut left: usize = n;
        let mut i: usize = 0;
        while i < self.items.len()
            invariant
                i <= self.items@.len(),
                self@.items == branches_view(self.items@),
                field_from(self@.items, 0, n as nat) == field_from(
                    self@.items,
                    i as int,
                    left as nat,
                ),
            decreases self.items@.len() - i,
        {
            assert(self@.items[i as int] == self.items@[i as int]@);
            match &self.items[i] {
                Item::Node(_) => {},
                Item::Str(s) => {
                    if left == 0 {
                        return Some(s.as_str());
                    }
                    left -= 1;
                },
                Item::Word(s) => {
                    if left == 0 {
                        return Some(s.as_str());
                    }
                    left -= 1;
                },
            }
            i += 1;
        }
        None
    }

    /// The identifier that the node states of itself. Those of the nodes inside
    /// its children are not looked at.
    pub fn authority_code(&self) -> (r: Option<(&str, i64)>)
        ensures
            match r {
                Some((a, c)) => identifier_of(self@) == Some((a@, c as int)),
                None => identifier_of(self@) is None,
            },
    {
        match self.child_of_two("AUTHORITY", "ID") {
            None => None,
            Some(id) => match (id.field(0), id.field(1)) {
                (Some(authority), Some(code)) => match parse_integer(code) {
                    Some(n) => Some((authority, n)),
                    None => None,
                },
                _ => None,
            },
        }
    }

    /// The nested nodes with a keyword, in order.
    pub fn children(&self, keyword: &str) -> (r: Vec<&Node>)
        ensures
            trees_view(r@) == children_of(self@, keyword@),
    {
        proof {
            lemma_node_view(*self);
        }
        let mut out: Vec<&Node> = Vec::new();
        let mut i: usize = 0;
        assert(trees_view(out@) =~= Seq::<Tree>::empty());
        while i < self.items.len()
            invariant
                i <= self.items@.len(),
                self@.items == branches_view(self.items@),
                trees_view(out@) + children_from(self@.items, i as int, keyword@) == children_of(
                    self@,
                    keyword@,
                ),
            decreases self.items@.len() - i,
        {
            assert(self@.items[i as int] == self.items@[i as int]@);
            let ghost before = out@;
            if let Item::Node(n) = &self.items[i] {
                proof {
                    lemma_node_view(*n);
                }
                if same_ignoring_case(n.keyword.as_str(), keyword) {
                    out.push(n);
                    assert(trees_view(out@) =~= trees_view(before) + seq![n@]);
                }
            }
            proof {
                assert(trees_view(out@) + children_from(self@.items, i + 1, keyword@)
                    =~= trees_view(before) + children_from(self@.items, i as int, keyword@));
            }
            i += 1;
        }
        assert(children_from(self@.items, i as int, keyword@) =~= Seq::<Tree>::empty());
        out
    }
}

} // verus!
