//! Writing XML.
use vstd::prelude::*;

use super::{attrs_view, elements_view, lemma_children_view, Element, XmlElement};
use crate::text::chars_of;

verus! {

/// A character as it stands in text.
pub open spec fn escaped_char(c: char) -> Seq<char> {
    if c == '&' {
        "&amp;"@
    } else if c == '<' {
        "&lt;"@
    } else if c == '>' {
        "&gt;"@
    } else if c == '"' {
        "&quot;"@
    } else {
        seq![c]
    }
}

/// Text with the characters that have a meaning in XML escaped.
pub open spec fn escaped(s: Seq<char>) -> Seq<char>
    decreases s.len(),
{
    if s.len() == 0 {
        Seq::empty()
    } else {
        escaped(s.drop_last()) + escaped_char(s.last())
    }
}

/// The attributes from the one numbered `i` on.
pub open spec fn attrs_text(attrs: Seq<(Seq<char>, Seq<char>)>, i: int) -> Seq<char>
    decreases attrs.len() - i,
{
    if i < 0 || i >= attrs.len() {
        Seq::empty()
    } else {
        " "@ + attrs[i].0 + "=\""@ + escaped(attrs[i].1) + "\""@ + attrs_text(attrs, i + 1)
    }
}

/// An element: its tag, its text, its children and its closing tag.
pub open spec fn element_text(e: Element) -> Seq<char>
    decreases e,
{
    "<"@ + e.name + attrs_text(e.attrs, 0) + ">"@ + escaped(e.text) + elements_text(e.children)
        + "</"@ + e.name + ">"@
}

/// Elements, one after another.
pub open spec fn elements_text(elements: Seq<Element>) -> Seq<char>
    decreases elements,
{
    if elements.len() == 0 {
        Seq::empty()
    } else {
        elements_text(elements.drop_last()) + element_text(elements[elements.len() - 1])
    }
}

/// A document: a declaration and the root element.
pub open spec fn document_text(root: Element) -> Seq<char> {
    "<?xml version=\"1.0\" encoding=\"UTF-8\"?>\n"@ + element_text(root)
}

fn escape_into(s: &str, out: &mut String)
    ensures
        final(out)@ == old(out)@ + escaped(s@),
{
    let chars = chars_of(s);
    let ghost start = out@;
    let mut i: usize = 0;
    assert(start + escaped(chars@.take(0)) =~= start);
    while i < chars.len()
        invariant
            i <= chars@.len(),
            out@ == start + escaped(chars@.take(i as int)),
        decreases chars@.len() - i,
    {
        let c = chars[i];
        let ghost before = out@;
        if c == '&' {
            out.append("&amp;");
        } else if c == '<' {
            out.append("&lt;");
        } else if c == '>' {
            out.append("&gt;");
        } else if c == '"' {
            out.append("&quot;");
        } else {
            out.push(c);
        }
        assert(out@ =~= before + escaped_char(c));
        assert(chars@.take(i + 1).drop_last() =~= chars@.take(i as int));
        assert(out@ =~= start + escaped(chars@.take(i + 1)));
        i += 1;
    }
    assert(chars@.take(i as int) =~= s@);
}

fn attrs_into(e: &XmlElement, out: &mut String)
    ensures
        final(out)@ == old(out)@ + attrs_text(e@.attrs, 0),
{
    let ghost start = out@;
    let ghost attrs = attrs_view(e.attrs@);
    let mut i: usize = 0;
    while i < e.attrs.len()
        invariant
            i <= e.attrs@.len(),
            attrs == attrs_view(e.attrs@),
            attrs == e@.attrs,
            out@ + attrs_text(attrs, i as int) == start + attrs_text(attrs, 0),
        decreases e.attrs@.len() - i,
    {
        let ghost before = out@;
        out.append(" ");
        out.append(e.attrs[i].0.as_str());
        out.append("=\"");
        escape_into(e.attrs[i].1.as_str(), out);
        out.append("\"");
        assert(attrs[i as int] == (e.attrs@[i as int].0@, e.attrs@[i as int].1@));
        assert(out@ + attrs_text(attrs, i + 1) =~= before + attrs_text(attrs, i as int));
        i += 1;
    }
    assert(out@ + attrs_text(attrs, i as int) =~= out@);
}

fn element_into(e: &XmlElement, out: &mut String)
    ensures
        final(out)@ == old(out)@ + element_text(e@),
    decreases e,
{
    let ghost start = out@;
    out.append("<");
    out.append(e.name.as_str());
    attrs_into(e, out);
    out.append(">");
    escape_into(e.text.as_str(), out);
    let ghost head = out@;
    let ghost children = elements_view(e.children@);
    proof {
        lemma_children_view(*e);
        assert(children.take(0) =~= Seq::empty());
        assert(head + elements_text(children.take(0)) =~= head);
    }
    let mut i: usize = 0;
    while i < e.children.len()
        invariant
            i <= e.children@.len(),
            children == elements_view(e.children@),
            out@ == head + elements_text(children.take(i as int)),
        decreases e.children@.len() - i,
    {
        let ghost before = out@;
        element_into(&e.children[i], out);
        assert(children.take(i + 1).drop_last() =~= children.take(i as int));
        assert(children.take(i + 1)[i as int] == e.children@[i as int]@);
        assert(out@ =~= head + elements_text(children.take(i + 1)));
        i += 1;
    }
    assert(children.take(i as int) =~= children);
    out.append("</");
    out.append(e.name.as_str());
    out.append(">");
    assert(out@ =~= start + element_text(e@));
}

/// The document of a root element.
pub fn to_document(root: &XmlElement) -> (r: String)
    ensures
        r@ == document_text(root@),
{
    let mut out = String::from_str("<?xml version=\"1.0\" encoding=\"UTF-8\"?>\n");
    element_into(root, &mut out);
    out
}

} // verus!
