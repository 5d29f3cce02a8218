//! Documents that were written are read back.
use vstd::prelude::*;

use super::parser::{
    aside_end, content_from, element_from, ends_name, name_end, next_place, referred, root_of,
    root_place, stands, tag_from, text_end, unescaped, white_end, Tag,
};
use super::writer::{
    attrs_text, document_text, element_text, elements_text, escaped, escaped_char,
};
use super::Element;
use crate::error::Failure;
use crate::text::after_last;

verus! {

// --- texts in place ------------------------------------------------------------------------

proof fn lemma_stands_parts(s: Seq<char>, p: int, a: Seq<char>, b: Seq<char>)
    requires
        stands(s, p, a + b),
    ensures
        stands(s, p, a),
        stands(s, p + a.len(), b),
{
    let all = s.subrange(p, p + (a + b).len());
    assert(s.subrange(p, p + a.len()) =~= all.subrange(0, a.len() as int));
    assert(all.subrange(0, a.len() as int) =~= a);
    assert(s.subrange(p + a.len(), p + a.len() + b.len()) =~= all.subrange(
        a.len() as int,
        (a.len() + b.len()) as int,
    ));
    assert(all.subrange(a.len() as int, (a.len() + b.len()) as int) =~= b);
}

proof fn lemma_stands_char(s: Seq<char>, p: int, t: Seq<char>, i: int)
    requires
        stands(s, p, t),
        0 <= i < t.len(),
    ensures
        s[p + i] == t[i],
{
    assert(s.subrange(p, p + t.len())[i] == s[p + i]);
}

/// A text of one character is next where the character is.
proof fn lemma_next_char(s: Seq<char>, p: int, q: int, t: Seq<char>)
    requires
        t.len() == 1,
        0 <= p <= q < s.len(),
        s[q] == t[0],
        forall|i: int| p <= i < q ==> s[i] != t[0],
    ensures
        next_place(s, p, t) == Some(q),
    decreases q - p,
{
    if p < q {
        if stands(s, p, t) {
            lemma_stands_char(s, p, t, 0);
        }
        lemma_next_char(s, p + 1, q, t);
    } else {
        assert(s.subrange(p, p + 1) =~= t);
    }
}

// --- escaped text --------------------------------------------------------------------------

proof fn lemma_escaped_front(t: Seq<char>)
    requires
        t.len() > 0,
    ensures
        escaped(t) == escaped_char(t[0]) + escaped(t.drop_first()),
    decreases t.len(),
{
    let rest = t.drop_first();
    if t.len() == 1 {
        assert(t.drop_last() =~= Seq::empty());
        assert(rest =~= Seq::empty());
        assert(escaped(t.drop_last()) =~= Seq::empty());
        assert(escaped(rest) =~= Seq::empty());
        assert(Seq::<char>::empty() + escaped_char(t[0]) =~= escaped_char(t[0])
            + Seq::<char>::empty());
    } else {
        lemma_escaped_front(t.drop_last());
        assert(t.drop_last().drop_first() =~= rest.drop_last());
        assert(escaped(t) =~= escaped_char(t[0]) + escaped(rest));
    }
}

/// What a character is escaped to has neither the start of a tag nor a quote.
proof fn lemma_escaped_char_is_safe(c: char)
    ensures
        escaped_char(c).len() > 0,
        forall|i: int|
            0 <= i < escaped_char(c).len() ==> #[trigger] escaped_char(c)[i] != '<'
                && escaped_char(c)[i] != '"',
{
    reveal_strlit("&amp;");
    reveal_strlit("&lt;");
    reveal_strlit("&gt;");
    reveal_strlit("&quot;");
}

/// Escaped text has neither the start of a tag nor a quote.
pub proof fn law_escaped_text_is_safe(t: Seq<char>)
    ensures
        forall|i: int|
            0 <= i < escaped(t).len() ==> #[trigger] escaped(t)[i] != '<' && escaped(t)[i] != '"',
        escaped(t).len() >= t.len(),
    decreases t.len(),
{
    if t.len() > 0 {
        law_escaped_text_is_safe(t.drop_last());
        lemma_escaped_char_is_safe(t.last());
    }
}

/// The reference that a character is escaped to stands for it.
proof fn lemma_reference_is_read(s: Seq<char>, p: int, c: char)
    requires
        0 <= p,
        c == '&' || c == '<' || c == '>' || c == '"',
        stands(s, p, escaped_char(c)),
    ensures
        ({
            let q = p + escaped_char(c).len() - 1;
            &&& s[p] == '&'
            &&& p < q < s.len()
            &&& next_place(s, p, ";"@) == Some(q)
            &&& referred(s.subrange(p + 1, q)) == Some(c)
        }),
{
    reveal_strlit("&amp;");
    reveal_strlit("&lt;");
    reveal_strlit("&gt;");
    reveal_strlit("&quot;");
    reveal_strlit(";");
    reveal_strlit("amp");
    reveal_strlit("lt");
    reveal_strlit("gt");
    reveal_strlit("quot");
    reveal_strlit("apos");
    let t = escaped_char(c);
    let q = p + t.len() - 1;
    assert forall|i: int| 0 <= i < t.len() implies s[p + i] == #[trigger] t[i] by {
        lemma_stands_char(s, p, t, i);
    }
    assert(s[p] == t[0]);
    assert(s[q] == t[t.len() - 1]);
    assert forall|i: int| p <= i < q implies s[i] != ';' by {
        assert(s[p + (i - p)] == t[i - p]);
    }
    lemma_next_char(s, p, q, ";"@);
    let name = s.subrange(p + 1, q);
    if c == '&' {
        assert(name =~= "amp"@) by {
            assert(s[p + 1] == t[1] && s[p + 2] == t[2] && s[p + 3] == t[3]);
        }
    } else if c == '<' {
        assert(name =~= "lt"@) by {
            assert(s[p + 1] == t[1] && s[p + 2] == t[2]);
        }
        assert(name.len() != "amp"@.len());
    } else if c == '>' {
        assert(name =~= "gt"@) by {
            assert(s[p + 1] == t[1] && s[p + 2] == t[2]);
        }
        assert(name.len() != "amp"@.len());
        assert(name[0] != "lt"@[0]);
    } else {
        assert(name =~= "quot"@) by {
            assert(s[p + 1] == t[1] && s[p + 2] == t[2] && s[p + 3] == t[3] && s[p + 4] == t[4]);
        }
        assert(name.len() != "amp"@.len());
        assert(name.len() != "lt"@.len());
        assert(name.len() != "gt"@.len());
    }
}

/// Escaped text is read as the text.
pub proof fn law_escaped_text_reads_back(s: Seq<char>, p: int, t: Seq<char>, so_far: Seq<char>)
    requires
        0 <= p,
        stands(s, p, escaped(t)),
    ensures
        unescaped(s, p, p + escaped(t).len(), so_far) == Ok::<Seq<char>, Failure>(so_far + t),
    decreases t.len(),
{
    let end = p + escaped(t).len();
    if t.len() == 0 {
        assert(so_far + t =~= so_far);
    } else {
        let c = t[0];
        let rest = t.drop_first();
        lemma_escaped_front(t);
        lemma_stands_parts(s, p, escaped_char(c), escaped(rest));
        lemma_escaped_char_is_safe(c);
        law_escaped_text_reads_back(s, p + escaped_char(c).len(), rest, so_far.push(c));
        assert(so_far.push(c) + rest =~= so_far + t);
        lemma_stands_char(s, p, escaped_char(c), 0);
        if c == '&' || c == '<' || c == '>' || c == '"' {
            lemma_reference_is_read(s, p, c);
        } else {
            assert(s[p] == c);
        }
    }
}

// --- names ---------------------------------------------------------------------------------

/// Whether a text can be a name: it is not empty, has no prefix, and does not
/// start as a comment or an instruction does.
pub open spec fn is_name(name: Seq<char>) -> bool {
    &&& name.len() > 0
    &&& name[0] != '!' && name[0] != '?'
    &&& forall|i: int| 0 <= i < name.len() ==> !ends_name(#[trigger] name[i]) && name[i] != ':'
}

proof fn lemma_name_is_read(s: Seq<char>, p: int, name: Seq<char>, i: int)
    requires
        is_name(name),
        0 <= p,
        0 <= i <= name.len(),
        stands(s, p, name),
        p + name.len() < s.len(),
        ends_name(s[p + name.len()]),
    ensures
        name_end(s, p + i) == p + name.len(),
    decreases name.len() - i,
{
    if i < name.len() {
        lemma_stands_char(s, p, name, i);
        assert(!ends_name(name[i]));
        lemma_name_is_read(s, p, name, i + 1);
    }
}

proof fn lemma_name_has_no_prefix(name: Seq<char>)
    requires
        forall|i: int| 0 <= i < name.len() ==> #[trigger] name[i] != ':',
    ensures
        after_last(name, ':') == name,
    decreases name.len(),
{
    if name.len() > 0 {
        let shorter = name.drop_last();
        assert forall|i: int| 0 <= i < shorter.len() implies #[trigger] shorter[i] != ':' by {
            assert(shorter[i] == name[i]);
        }
        lemma_name_has_no_prefix(shorter);
        assert(name.last() != ':');
        assert(shorter.push(name.last()) =~= name);
    }
}

// --- attributes ----------------------------------------------------------------------------

/// Whether every attribute has a name.
pub open spec fn have_names(attrs: Seq<(Seq<char>, Seq<char>)>) -> bool {
    forall|i: int| 0 <= i < attrs.len() ==> is_name((#[trigger] attrs[i]).0)
}

/// Attributes are read back, up to the end of the tag.
#[verifier::spinoff_prover]
#[verifier::rlimit(60)]
proof fn lemma_attrs_are_read(s: Seq<char>, p: int, attrs: Seq<(Seq<char>, Seq<char>)>, i: int)
    requires
        have_names(attrs),
        0 <= p,
        0 <= i <= attrs.len(),
        stands(s, p, attrs_text(attrs, i) + ">"@),
    ensures
        tag_from(s, p, attrs.take(i)) == Ok::<Tag, Failure>(
            Tag { attrs, end: p + attrs_text(attrs, i).len() + 1, is_empty: false },
        ),
    decreases attrs.len() - i,
{
    reveal_strlit(">");
    reveal_strlit(" ");
    reveal_strlit("=\"");
    reveal_strlit("\"");
    reveal_strlit("/>");
    lemma_stands_parts(s, p, attrs_text(attrs, i), ">"@);
    if i == attrs.len() {
        assert(attrs.take(i) =~= attrs);
        lemma_stands_char(s, p, ">"@, 0);
        assert(white_end(s, p) == p);
    } else {
        let name = attrs[i].0;
        let value = attrs[i].1;
        assert(is_name(attrs[i].0));
        let rest = attrs_text(attrs, i + 1);
        let q = p + 1;
        let n = q + name.len();
        let open = n + 1;
        let close = open + 1 + escaped(value).len();
        let whole = attrs_text(attrs, i) + ">"@;
        assert(whole =~= " "@ + (name + ("=\""@ + (escaped(value) + ("\""@ + (rest + ">"@))))));
        let t1 = name + ("=\""@ + (escaped(value) + ("\""@ + (rest + ">"@))));
        let t2 = "=\""@ + (escaped(value) + ("\""@ + (rest + ">"@)));
        let t3 = escaped(value) + ("\""@ + (rest + ">"@));
        let t4 = "\""@ + (rest + ">"@);
        let t5 = rest + ">"@;
        lemma_stands_parts(s, p, " "@, t1);
        lemma_stands_parts(s, q, name, t2);
        lemma_stands_parts(s, n, "=\""@, t3);
        lemma_stands_parts(s, n + 2, escaped(value), t4);
        lemma_stands_parts(s, close, "\""@, t5);
        lemma_stands_char(s, p, " "@, 0);
        lemma_stands_char(s, q, name, 0);
        lemma_stands_char(s, n, "=\""@, 0);
        lemma_stands_char(s, n, "=\""@, 1);
        lemma_stands_char(s, close, "\""@, 0);
        assert(!ends_name(name[0]));
        assert(white_end(s, q) == q);
        assert(white_end(s, p) == q);
        assert(!stands(s, q, "/>"@)) by {
            if stands(s, q, "/>"@) {
                lemma_stands_char(s, q, "/>"@, 0);
            }
        }
        lemma_name_is_read(s, q, name, 0);
        assert(white_end(s, n) == n);
        assert(white_end(s, open) == open);
        law_escaped_text_is_safe(value);
        assert forall|k: int| open + 1 <= k < close implies s[k] != '"' by {
            lemma_stands_char(s, open + 1, escaped(value), k - (open + 1));
        }
        let mark = seq![s[open]];
        lemma_next_char(s, open + 1, close, mark);
        law_escaped_text_reads_back(s, open + 1, value, Seq::empty());
        assert(Seq::<char>::empty() + value =~= value);
        assert(s.subrange(q, n) =~= name);
        assert forall|k: int| 0 <= k < name.len() implies #[trigger] name[k] != ':' by {
            assert(!ends_name(name[k]));
        }
        lemma_name_has_no_prefix(name);
        lemma_attrs_are_read(s, close + 1, attrs, i + 1);
        assert(attrs.take(i + 1) =~= attrs.take(i).push((name, value)));
        assert(attrs_text(attrs, i).len() == 1 + name.len() + 2 + escaped(value).len() + 1
            + rest.len());
    }
}

// --- elements ------------------------------------------------------------------------------

/// Whether an element and all in it have names that can be read back.
pub open spec fn is_well_formed(e: Element) -> bool
    decreases e,
{
    &&& is_name(e.name)
    &&& have_names(e.attrs)
    &&& forall|i: int| 0 <= i < e.children.len() ==> is_well_formed(#[trigger] e.children[i])
}

proof fn lemma_elements_next(elements: Seq<Element>, k: int)
    requires
        0 <= k < elements.len(),
    ensures
        elements_text(elements.take(k + 1)) == elements_text(elements.take(k)) + element_text(
            elements[k],
        ),
{
    let longer = elements.take(k + 1);
    assert(longer.drop_last() =~= elements.take(k));
    assert(longer[longer.len() - 1] == elements[k]);
}

proof fn lemma_elements_prefix(elements: Seq<Element>, k: int)
    requires
        0 <= k <= elements.len(),
    ensures
        elements_text(elements.take(k)).len() <= elements_text(elements).len(),
        elements_text(elements).take(elements_text(elements.take(k)).len() as int)
            == elements_text(elements.take(k)),
    decreases elements.len() - k,
{
    let shorter = elements_text(elements.take(k));
    if k == elements.len() {
        assert(elements.take(k) =~= elements);
        assert(shorter.take(shorter.len() as int) =~= shorter);
    } else {
        lemma_elements_prefix(elements, k + 1);
        lemma_elements_next(elements, k);
        let longer = elements_text(elements.take(k + 1));
        let all = elements_text(elements);
        assert(all.take(shorter.len() as int) =~= longer.take(shorter.len() as int));
        assert(longer.take(shorter.len() as int) =~= shorter);
    }
}

/// Each of elements one after another stands behind those before it.
proof fn lemma_element_stands(s: Seq<char>, p: int, elements: Seq<Element>, k: int)
    requires
        0 <= p,
        0 <= k < elements.len(),
        stands(s, p, elements_text(elements)),
    ensures
        stands(s, p + elements_text(elements.take(k)).len(), element_text(elements[k])),
        elements_text(elements.take(k)).len() + element_text(elements[k]).len()
            <= elements_text(elements).len(),
{
    lemma_elements_prefix(elements, k + 1);
    lemma_elements_next(elements, k);
    let all = elements_text(elements);
    let longer = elements_text(elements.take(k + 1));
    assert(s.subrange(p, p + longer.len()) =~= s.subrange(p, p + all.len()).take(
        longer.len() as int,
    ));
    assert(stands(s, p, longer));
    lemma_stands_parts(s, p, elements_text(elements.take(k)), element_text(elements[k]));
}

/// The start of an element is no CDATA section, no comment, no instruction and no
/// closing tag.
proof fn lemma_element_is_no_aside(s: Seq<char>, p: int, name: Seq<char>)
    requires
        0 <= p,
        is_name(name),
        stands(s, p, "<"@ + name),
    ensures
        s[p] == '<',
        !stands(s, p, "<![CDATA["@),
        aside_end(s, p) is None,
        !stands(s, p, "</"@),
        !stands(s, p, "<!"@),
{
    reveal_strlit("<");
    reveal_strlit("<![CDATA[");
    reveal_strlit("<!--");
    reveal_strlit("<?");
    reveal_strlit("</");
    reveal_strlit("<!");
    lemma_stands_char(s, p, "<"@ + name, 0);
    lemma_stands_char(s, p, "<"@ + name, 1);
    assert(!ends_name(name[0]));
    assert(s[p + 1] == name[0]);
    if stands(s, p, "<![CDATA["@) {
        lemma_stands_char(s, p, "<![CDATA["@, 1);
    }
    if stands(s, p, "<!--"@) {
        lemma_stands_char(s, p, "<!--"@, 1);
    }
    if stands(s, p, "<?"@) {
        lemma_stands_char(s, p, "<?"@, 1);
    }
    if stands(s, p, "</"@) {
        lemma_stands_char(s, p, "</"@, 1);
    }
    if stands(s, p, "<!"@) {
        lemma_stands_char(s, p, "<!"@, 1);
    }
}

/// A closing tag ends its element.
proof fn lemma_closing_is_read(
    s: Seq<char>,
    p: int,
    name: Seq<char>,
    text: Seq<char>,
    children: Seq<Element>,
)
    requires
        0 <= p,
        is_name(name),
        stands(s, p, "</"@ + name + ">"@),
    ensures
        content_from(s, p, name, text, children) == Ok::<
            (Seq<char>, Seq<Element>, int),
            Failure,
        >((text, children, p + 3 + name.len())),
{
    reveal_strlit("<![CDATA[");
    reveal_strlit("<!--");
    reveal_strlit("<?");
    reveal_strlit("</");
    reveal_strlit(">");
    let whole = "</"@ + name + ">"@;
    lemma_stands_parts(s, p, "</"@ + name, ">"@);
    lemma_stands_parts(s, p, "</"@, name);
    lemma_stands_char(s, p, "</"@, 0);
    lemma_stands_char(s, p, "</"@, 1);
    let n = p + 2 + name.len();
    lemma_stands_char(s, n, ">"@, 0);
    if stands(s, p, "<![CDATA["@) {
        lemma_stands_char(s, p, "<![CDATA["@, 1);
    }
    if stands(s, p, "<!--"@) {
        lemma_stands_char(s, p, "<!--"@, 1);
    }
    if stands(s, p, "<?"@) {
        lemma_stands_char(s, p, "<?"@, 1);
    }
    lemma_name_is_read(s, p + 2, name, 0);
    assert(white_end(s, n) == n);
    assert(s.subrange(p + 2, n) =~= name);
}

/// An element that was written is read back, whatever stands around it.
#[verifier::spinoff_prover]
#[verifier::rlimit(60)]
pub proof fn law_element_reads_back(s: Seq<char>, p: int, e: Element)
    requires
        0 <= p,
        is_well_formed(e),
        stands(s, p, element_text(e)),
    ensures
        element_from(s, p) == Ok::<(Element, int), Failure>((e, p + element_text(e).len())),
    decreases e, 0int,
{
    reveal_strlit("<");
    reveal_strlit(">");
    reveal_strlit("</");
    let name = e.name;
    let attrs = attrs_text(e.attrs, 0);
    let text = escaped(e.text);
    let inner = elements_text(e.children);
    let closing = "</"@ + name + ">"@;
    let whole = element_text(e);
    assert(whole =~= ("<"@ + name) + ((attrs + ">"@) + (text + (inner + closing))));
    lemma_stands_parts(s, p, "<"@ + name, (attrs + ">"@) + (text + (inner + closing)));
    lemma_element_is_no_aside(s, p, name);
    lemma_stands_parts(s, p, "<"@, name);
    let n = p + 1 + name.len();
    lemma_stands_parts(s, n, attrs + ">"@, text + (inner + closing));
    let start = n + attrs.len() + 1;
    lemma_stands_parts(s, start, text, inner + closing);
    let q = start + text.len();
    lemma_stands_parts(s, q, inner, closing);
    // The name ends at the white space of an attribute or the end of the tag.
    assert(ends_name(s[n])) by {
        lemma_stands_char(s, n, attrs + ">"@, 0);
        if e.attrs.len() > 0 {
            reveal_strlit(" ");
            assert(attrs[0] == ' ');
        }
    }
    lemma_name_is_read(s, p + 1, name, 0);
    assert(s.subrange(p + 1, n) =~= name);
    assert forall|k: int| 0 <= k < name.len() implies #[trigger] name[k] != ':' by {
        assert(!ends_name(name[k]));
    }
    lemma_name_has_no_prefix(name);
    assert(e.attrs.take(0) =~= Seq::empty());
    lemma_attrs_are_read(s, n, e.attrs, 0);
    // The text, where there is any, ends at the first child or the closing tag.
    assert(s[q] == '<') by {
        lemma_stands_char(s, q, inner + closing, 0);
        if e.children.len() > 0 {
            lemma_element_stands(s, q, e.children, 0);
            assert(e.children.take(0) =~= Seq::empty());
            assert(elements_text(e.children.take(0)).len() == 0);
            let first = element_text(e.children[0]);
            assert(first[0] == '<');
            lemma_stands_char(s, q, first, 0);
        }
    }
    assert(e.children.take(0) =~= Seq::empty());
    assert(elements_text(e.children.take(0)).len() == 0);
    lemma_children_are_read(s, q, name, e.text, e.children, 0);
    if e.text.len() > 0 {
        law_escaped_text_is_safe(e.text);
        assert forall|i: int| start <= i < q implies s[i] != '<' by {
            lemma_stands_char(s, start, text, i - start);
        }
        lemma_next_char(s, start, q, "<"@);
        law_escaped_text_reads_back(s, start, e.text, Seq::empty());
        assert(Seq::<char>::empty() + e.text =~= e.text);
        assert(text_end(s, start) == q);
    } else {
        assert(e.text =~= Seq::empty());
    }
    assert(content_from(s, start, name, Seq::empty(), Seq::empty()) == Ok::<
        (Seq<char>, Seq<Element>, int),
        Failure,
    >((e.text, e.children, q + inner.len() + 3 + name.len())));
}

/// The children of an element are read back, and its closing tag.
proof fn lemma_children_are_read(
    s: Seq<char>,
    p: int,
    name: Seq<char>,
    text: Seq<char>,
    children: Seq<Element>,
    k: int,
)
    requires
        0 <= p,
        0 <= k <= children.len(),
        is_name(name),
        forall|i: int| 0 <= i < children.len() ==> is_well_formed(#[trigger] children[i]),
        stands(s, p, elements_text(children)),
        stands(s, p + elements_text(children).len(), "</"@ + name + ">"@),
    ensures
        content_from(
            s,
            p + elements_text(children.take(k)).len(),
            name,
            text,
            children.take(k),
        ) == Ok::<(Seq<char>, Seq<Element>, int), Failure>(
            (text, children, p + elements_text(children).len() + 3 + name.len()),
        ),
    decreases children, children.len() - k,
{
    let at = p + elements_text(children.take(k)).len();
    if k == children.len() {
        assert(children.take(k) =~= children);
        lemma_closing_is_read(s, at, name, text, children);
    } else {
        let child = children[k];
        assert(is_well_formed(children[k]));
        lemma_element_stands(s, p, children, k);
        let whole = element_text(child);
        lemma_starts_with_name(s, at, child);
        lemma_element_is_no_aside(s, at, child.name);
        law_element_reads_back(s, at, child);
        reveal_strlit("<");
        assert(whole.len() > 0);
        lemma_children_are_read(s, p, name, text, children, k + 1);
        lemma_elements_next(children, k);
        assert(children.take(k + 1) =~= children.take(k).push(child));
    }
}

// --- documents -----------------------------------------------------------------------------

/// The declaration of a document is passed over.
#[verifier::spinoff_prover]
proof fn lemma_declaration_is_passed(s: Seq<char>)
    requires
        stands(s, 0, "<?xml version=\"1.0\" encoding=\"UTF-8\"?>\n"@),
        s.len() > 39,
        s[39] == '<',
    ensures
        "<?xml version=\"1.0\" encoding=\"UTF-8\"?>\n"@.len() == 39,
        root_place(s, 0) == root_place(s, 38),
        white_end(s, 38) == 39,
{
    reveal_strlit("<?xml version=\"1.0\" encoding=\"UTF-8\"?>\n");
    reveal_strlit("<!--");
    reveal_strlit("<?");
    reveal_strlit("?>");
    let t = "<?xml version=\"1.0\" encoding=\"UTF-8\"?>\n"@;
    assert(t.len() == 39);
    assert forall|i: int| 0 <= i < 39 implies s[i] == #[trigger] t[i] by {
        lemma_stands_char(s, 0, t, i);
    }
    assert(s[0] == t[0] && s[1] == t[1] && s[36] == t[36] && s[37] == t[37] && s[38] == t[38]);
    assert(stands(s, 0, "<?"@)) by {
        assert(s.subrange(0, 2) =~= "<?"@);
    }
    assert(!stands(s, 0, "<!--"@)) by {
        if stands(s, 0, "<!--"@) {
            lemma_stands_char(s, 0, "<!--"@, 1);
        }
    }
    assert(stands(s, 36, "?>"@)) by {
        assert(s.subrange(36, 38) =~= "?>"@);
    }
    assert(next_place(s, 2, "?>"@) == Some(36int)) by {
        lemma_no_mark_before(s, t, 2);
    }
    assert(white_end(s, 39) == 39);
    assert(white_end(s, 38) == 39);
}

proof fn lemma_no_mark_before(s: Seq<char>, t: Seq<char>, p: int)
    requires
        t == "<?xml version=\"1.0\" encoding=\"UTF-8\"?>\n"@,
        t.len() == 39,
        s.len() > 39,
        2 <= p <= 36,
        forall|i: int| 0 <= i < 39 ==> s[i] == #[trigger] t[i],
        stands(s, 36, "?>"@),
    ensures
        next_place(s, p, "?>"@) == Some(36int),
    decreases 36 - p,
{
    if p < 36 {
        reveal_strlit("<?xml version=\"1.0\" encoding=\"UTF-8\"?>\n");
        reveal_strlit("?>");
        assert(s[p] == t[p]);
        assert(t[p] != '?');
        if stands(s, p, "?>"@) {
            lemma_stands_char(s, p, "?>"@, 0);
        }
        lemma_no_mark_before(s, t, p + 1);
    }
}

proof fn lemma_starts_with_name(s: Seq<char>, p: int, e: Element)
    requires
        0 <= p,
        stands(s, p, element_text(e)),
    ensures
        stands(s, p, "<"@ + e.name),
{
    let rest = attrs_text(e.attrs, 0) + ">"@ + escaped(e.text) + elements_text(e.children) + "</"@
        + e.name + ">"@;
    assert(element_text(e) =~= ("<"@ + e.name) + rest);
    lemma_stands_parts(s, p, "<"@ + e.name, rest);
}

proof fn lemma_declaration_len()
    ensures
        "<?xml version=\"1.0\" encoding=\"UTF-8\"?>\n"@.len() == 39,
{
    reveal_strlit("<?xml version=\"1.0\" encoding=\"UTF-8\"?>\n");
}

/// The root of a document that was written is read back.
pub proof fn law_document_reads_back(root: Element)
    requires
        is_well_formed(root),
    ensures
        root_of(document_text(root)) == Ok::<Element, Failure>(root),
{
    let t = "<?xml version=\"1.0\" encoding=\"UTF-8\"?>\n"@;
    let s = document_text(root);
    let body = element_text(root);
    lemma_declaration_len();
    assert(s == t + body);
    assert(s.subrange(0, s.len() as int) =~= s);
    lemma_stands_parts(s, 0, t, body);
    lemma_starts_with_name(s, 39, root);
    lemma_element_is_no_aside(s, 39, root.name);
    lemma_declaration_is_passed(s);
    assert(root_place(s, 38) == Ok::<int, Failure>(39int));
    law_element_reads_back(s, 39, root);
}

} // verus!
