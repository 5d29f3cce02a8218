//! XML, as far as KML needs it: elements with attributes, text and children.
//!
//! An element is known by its local name; a namespace prefix is left aside.
use vstd::prelude::*;

use crate::text::{same_text, trim_text, trimmed};

pub mod foreign;
pub mod parser;
pub mod round_trip;
pub mod writer;

pub use parser::parse;

verus! {

/// An element.
#[derive(Debug, PartialEq)]
pub struct XmlElement {
    pub name: String,
    pub attrs: Vec<(String, String)>,
    /// The text directly in the element.
    pub text: String,
    pub children: Vec<XmlElement>,
}

/// The mathematical form of an element.
pub struct Element {
    pub name: Seq<char>,
    pub attrs: Seq<(Seq<char>, Seq<char>)>,
    pub text: Seq<char>,
    pub children: Seq<Element>,
}

pub open spec fn attrs_view(attrs: Seq<(String, String)>) -> Seq<(Seq<char>, Seq<char>)> {
    attrs.map_values(|a: (String, String)| (a.0@, a.1@))
}

impl XmlElement {
    pub open spec fn element(&self) -> Element
        decreases self,
    {
        Element {
            name: self.name@,
            attrs: attrs_view(self.attrs@),
            text: self.text@,
            children: Seq::new(
                self.children@.len(),
                |i: int|
                    if 0 <= i < self.children@.len() {
                        self.children@[i].element()
                    } else {
                        arbitrary()
                    },
            ),
        }
    }
}

impl View for XmlElement {
    type V = Element;

    open spec fn view(&self) -> Element {
        self.element()
    }
}

/// The views of a list of elements.
pub open spec fn elements_view(elements: Seq<XmlElement>) -> Seq<Element> {
    elements.map_values(|e: XmlElement| e@)
}

/// An element's children are viewed one by one.
pub proof fn lemma_children_view(e: XmlElement)
    ensures
        e@.children == elements_view(e.children@),
{
    assert(e@.children =~= elements_view(e.children@));
}

/// Where the first element of a name stands, from `i` on.
pub open spec fn place_named(elements: Seq<Element>, name: Seq<char>, i: int) -> int
    decreases elements.len() - i,
{
    if i < 0 || i >= elements.len() {
        elements.len() as int
    } else if elements[i].name == name {
        i
    } else {
        place_named(elements, name, i + 1)
    }
}

/// The value of the first attribute of a name, from `i` on.
pub open spec fn attr_from(
    attrs: Seq<(Seq<char>, Seq<char>)>,
    name: Seq<char>,
    i: int,
) -> Option<Seq<char>>
    decreases attrs.len() - i,
{
    if i < 0 || i >= attrs.len() {
        None
    } else if attrs[i].0 == name {
        Some(attrs[i].1)
    } else {
        attr_from(attrs, name, i + 1)
    }
}

impl Element {
    /// The first child of a name.
    pub open spec fn child(self, name: Seq<char>) -> Option<Element> {
        let i = place_named(self.children, name, 0);
        if 0 <= i < self.children.len() {
            Some(self.children[i])
        } else {
            None
        }
    }

    /// The value of an attribute.
    pub open spec fn attr(self, name: Seq<char>) -> Option<Seq<char>> {
        attr_from(self.attrs, name, 0)
    }
}

/// An element of a name, with text and nothing else.
pub open spec fn leaf_of(name: Seq<char>, text: Seq<char>) -> Element {
    Element { name, attrs: Seq::empty(), text, children: Seq::empty() }
}

/// An element of a name, with children and nothing else.
pub open spec fn parent_of(name: Seq<char>, children: Seq<Element>) -> Element {
    Element { name, attrs: Seq::empty(), text: Seq::empty(), children }
}

impl XmlElement {
    /// An element that holds only text.
    pub fn leaf(name: &str, text: String) -> (r: XmlElement)
        ensures
            r@ == leaf_of(name@, text@),
    {
        let r = XmlElement {
            name: String::from_str(name),
            attrs: Vec::new(),
            text,
            children: Vec::new(),
        };
        assert(r@.children =~= Seq::empty());
        assert(r@.attrs =~= Seq::empty());
        r
    }

    /// An element that holds only other elements.
    pub fn with_children(name: &str, children: Vec<XmlElement>) -> (r: XmlElement)
        ensures
            r@ == parent_of(name@, elements_view(children@)),
    {
        let r = XmlElement {
            name: String::from_str(name),
            attrs: Vec::new(),
            text: String::new(),
            children,
        };
        proof {
            lemma_children_view(r);
        }
        assert(r@.attrs =~= Seq::empty());
        assert(r@.text =~= Seq::empty());
        r
    }

    /// The element with one attribute more.
    pub fn with_attr(self, key: &str, value: &str) -> (r: XmlElement)
        ensures
            r@ == (Element { attrs: self@.attrs.push((key@, value@)), ..self@ }),
    {
        let ghost before = self@;
        let mut attrs = self.attrs;
        attrs.push((String::from_str(key), String::from_str(value)));
        let r = XmlElement { name: self.name, attrs, text: self.text, children: self.children };
        assert(r@.attrs =~= before.attrs.push((key@, value@)));
        assert(r@.children =~= before.children);
        r
    }

    /// Where the first child of a name stands, from `from` on; the number of the
    /// children where there is none.
    pub fn find_child(&self, name: &str, from: usize) -> (r: usize)
        requires
            from <= self.children@.len(),
        ensures
            r == place_named(self@.children, name@, from as int),
            from <= r <= self.children@.len(),
    {
        proof {
            lemma_children_view(*self);
        }
        let ghost all = place_named(self@.children, name@, from as int);
        let mut i: usize = from;
        while i < self.children.len()
            invariant
                from <= i <= self.children@.len(),
                self@.children == elements_view(self.children@),
                all == place_named(self@.children, name@, from as int),
                all == place_named(self@.children, name@, i as int),
            decreases self.children@.len() - i,
        {
            assert(self@.children[i as int] == self.children@[i as int]@);
            if same_text(self.children[i].name.as_str(), name) {
                return i;
            }
            i += 1;
        }
        i
    }

    /// The first child of a name.
    pub fn child(&self, name: &str) -> (r: Option<&XmlElement>)
        ensures
            match r {
                Some(e) => self@.child(name@) == Some(e@),
                None => self@.child(name@) is None,
            },
    {
        let i = self.find_child(name, 0);
        proof {
            lemma_children_view(*self);
        }
        if i < self.children.len() {
            assert(self@.children[i as int] == self.children@[i as int]@);
            Some(&self.children[i])
        } else {
            None
        }
    }

    /// The value of an attribute.
    pub fn attr(&self, name: &str) -> (r: Option<&str>)
        ensures
            match r {
                Some(v) => self@.attr(name@) == Some(v@),
                None => self@.attr(name@) is None,
            },
    {
        let ghost all = attr_from(self@.attrs, name@, 0);
        let mut i: usize = 0;
        while i < self.attrs.len()
            invariant
                i <= self.attrs@.len(),
                all == attr_from(self@.attrs, name@, 0),
                all == attr_from(self@.attrs, name@, i as int),
            decreases self.attrs@.len() - i,
        {
            assert(self@.attrs[i as int] == (self.attrs@[i as int].0@, self.attrs@[i as int].1@));
            if same_text(self.attrs[i].0.as_str(), name) {
                return Some(self.attrs[i].1.as_str());
            }
            i += 1;
        }
        None
    }

    /// The text without white space around it.
    pub fn text_trimmed(&self) -> (r: String)
        ensures
            r@ == trimmed(self@.text),
    {
        trim_text(self.text.as_str())
    }
}

} // verus!
