//! Reading XML.
use vstd::prelude::*;

use super::{attrs_view, elements_view, lemma_children_view, Element, XmlElement};
use crate::error::{tagged, Error, Failure};
use crate::text::{after_last, ascii_white, chars_of, is_ascii_white, text_after_last, text_between};

verus! {

/// The failure that carries this message.
pub open spec fn failure(message: Seq<char>) -> Failure {
    Failure::Convert("xml: "@ + message)
}

fn err(message: &str) -> (e: Error)
    ensures
        e@ == failure(message@),
{
    Error::Convert(tagged("xml: ", message))
}

// --- characters ----------------------------------------------------------------------

/// The end of the white space at `p`.
pub open spec fn white_end(s: Seq<char>, p: int) -> int
    decreases s.len() - p,
{
    if p < 0 || p >= s.len() || !is_ascii_white(s[p]) {
        p
    } else {
        white_end(s, p + 1)
    }
}

/// Whether a character ends a name.
pub open spec fn ends_name(c: char) -> bool {
    is_ascii_white(c) || c == '/' || c == '>' || c == '<' || c == '=' || c == '"' || c == '\''
}

/// The end of the name at `p`.
pub open spec fn name_end(s: Seq<char>, p: int) -> int
    decreases s.len() - p,
{
    if p < 0 || p >= s.len() || ends_name(s[p]) {
        p
    } else {
        name_end(s, p + 1)
    }
}

/// Whether a text stands at `p`.
pub open spec fn stands(s: Seq<char>, p: int, t: Seq<char>) -> bool {
    0 <= p && p + t.len() <= s.len() && s.subrange(p, p + t.len()) == t
}

/// Where a text next stands, from `p` on.
pub open spec fn next_place(s: Seq<char>, p: int, t: Seq<char>) -> Option<int>
    decreases s.len() - p,
{
    if p < 0 || p >= s.len() {
        None
    } else if stands(s, p, t) {
        Some(p)
    } else {
        next_place(s, p + 1, t)
    }
}

pub fn skip_white(s: &[char], p: usize) -> (r: usize)
    requires
        p <= s@.len(),
    ensures
        r == white_end(s@, p as int),
        p <= r <= s@.len(),
{
    let mut r: usize = p;
    while r < s.len() && ascii_white(s[r])
        invariant
            p <= r <= s@.len(),
            white_end(s@, p as int) == white_end(s@, r as int),
        decreases s@.len() - r,
    {
        r += 1;
    }
    r
}

fn skip_name(s: &[char], p: usize) -> (r: usize)
    requires
        p <= s@.len(),
    ensures
        r == name_end(s@, p as int),
        p <= r <= s@.len(),
{
    let mut r: usize = p;
    while r < s.len() && !(ascii_white(s[r]) || s[r] == '/' || s[r] == '>' || s[r] == '<' || s[r]
        == '=' || s[r] == '"' || s[r] == '\'')
        invariant
            p <= r <= s@.len(),
            name_end(s@, p as int) == name_end(s@, r as int),
        decreases s@.len() - r,
    {
        r += 1;
    }
    r
}

fn is_at(s: &[char], p: usize, t: &str) -> (r: bool)
    requires
        p <= s@.len(),
    ensures
        r == stands(s@, p as int, t@),
{
    let u = chars_of(t);
    let n: usize = s.len();
    if n - p < u.len() {
        return false;
    }
    let mut i: usize = 0;
    while i < u.len()
        invariant
            i <= u@.len(),
            n == s@.len(),
            u@ == t@,
            p + u@.len() <= s@.len(),
            forall|k: int| 0 <= k < i ==> s@[p + k] == #[trigger] u@[k],
        decreases u@.len() - i,
    {
        if s[p + i] != u[i] {
            assert(s@.subrange(p as int, p + t@.len())[i as int] != t@[i as int]);
            return false;
        }
        i += 1;
    }
    assert(s@.subrange(p as int, p + t@.len()) =~= t@);
    true
}

fn find(s: &[char], p: usize, t: &str) -> (r: Option<usize>)
    requires
        p <= s@.len(),
    ensures
        match next_place(s@, p as int, t@) {
            Some(q) => r == Some(q as usize) && p <= q && q + t@.len() <= s@.len(),
            None => r is None,
        },
{
    let mut q: usize = p;
    while q < s.len()
        invariant
            p <= q <= s@.len(),
            next_place(s@, p as int, t@) == next_place(s@, q as int, t@),
        decreases s@.len() - q,
    {
        if is_at(s, q, t) {
            return Some(q);
        }
        q += 1;
    }
    None
}

// --- references ----------------------------------------------------------------------

/// The value of a digit in base ten or sixteen.
pub open spec fn digit_in(c: char, base: nat) -> Option<nat> {
    if '0' <= c <= '9' {
        Some((c as u32 - 48) as nat)
    } else if base == 16 && 'a' <= c <= 'f' {
        Some((c as u32 - 87) as nat)
    } else if base == 16 && 'A' <= c <= 'F' {
        Some((c as u32 - 55) as nat)
    } else {
        None
    }
}

/// The number that characters spell in a base, where it is no larger than the
/// largest character.
pub open spec fn spelled(s: Seq<char>, base: nat) -> Option<nat>
    decreases s.len(),
{
    if s.len() == 0 {
        Some(0)
    } else {
        match (spelled(s.drop_last(), base), digit_in(s.last(), base)) {
            (Some(n), Some(d)) => if n * base + d <= 0x10_FFFF {
                Some(n * base + d)
            } else {
                None
            },
            _ => None,
        }
    }
}

/// The character of a number, where there is one.
pub open spec fn numbered(n: Option<nat>) -> Option<char> {
    match n {
        Some(v) => if v < 0xD800 || 0xE000 <= v <= 0x10_FFFF {
            Some(v as char)
        } else {
            None
        },
        None => None,
    }
}

/// What a reference stands for: the name between `&` and `;`.
pub open spec fn referred(name: Seq<char>) -> Option<char> {
    if name == "amp"@ {
        Some('&')
    } else if name == "lt"@ {
        Some('<')
    } else if name == "gt"@ {
        Some('>')
    } else if name == "quot"@ {
        Some('"')
    } else if name == "apos"@ {
        Some('\'')
    } else if name.len() > 2 && name[0] == '#' && (name[1] == 'x' || name[1] == 'X') {
        numbered(spelled(name.subrange(2, name.len() as int), 16))
    } else if name.len() > 1 && name[0] == '#' {
        numbered(spelled(name.subrange(1, name.len() as int), 10))
    } else {
        None
    }
}

/// The text from `p` up to `end`, with references replaced.
pub open spec fn unescaped(s: Seq<char>, p: int, end: int, so_far: Seq<char>) -> Result<
    Seq<char>,
    Failure,
>
    decreases end - p,
{
    if p < 0 || p >= end || end > s.len() {
        Ok(so_far)
    } else if s[p] != '&' {
        unescaped(s, p + 1, end, so_far.push(s[p]))
    } else {
        match next_place(s, p, ";"@) {
            None => Err(failure("unterminated entity"@)),
            Some(q) => if q >= end || q <= p {
                Err(failure("unterminated entity"@))
            } else {
                match referred(s.subrange(p + 1, q)) {
                    None => Err(failure("unknown entity"@)),
                    Some(c) => unescaped(s, q + 1, end, so_far.push(c)),
                }
            },
        }
    }
}

fn digit_value(c: char, base: u32) -> (r: Option<u32>)
    requires
        base == 10 || base == 16,
    ensures
        match digit_in(c, base as nat) {
            Some(d) => r == Some(d as u32) && d < 16,
            None => r is None,
        },
{
    if '0' <= c && c <= '9' {
        Some(c as u32 - 48)
    } else if base == 16 && 'a' <= c && c <= 'f' {
        Some(c as u32 - 87)
    } else if base == 16 && 'A' <= c && c <= 'F' {
        Some(c as u32 - 55)
    } else {
        None
    }
}

fn number_spelled(s: &[char], from: usize, to: usize, base: u32) -> (r: Option<u32>)
    requires
        from <= to <= s@.len(),
        base == 10 || base == 16,
    ensures
        match spelled(s@.subrange(from as int, to as int), base as nat) {
            Some(n) => r == Some(n as u32) && n <= 0x10_FFFF,
            None => r is None,
        },
{
    let ghost all = s@.subrange(from as int, to as int);
    let mut n: u32 = 0;
    let mut i: usize = from;
    assert(all.take(0) =~= Seq::empty());
    while i < to
        invariant
            from <= i <= to <= s@.len(),
            base == 10 || base == 16,
            all == s@.subrange(from as int, to as int),
            spelled(all.take(i - from), base as nat) == Some(n as nat),
            n <= 0x10_FFFF,
        decreases to - i,
    {
        let ghost k = i - from;
        assert(all.take(k + 1).drop_last() =~= all.take(k));
        assert(all.take(k + 1).last() == s@[i as int]);
        let next = match digit_value(s[i], base) {
            Some(d) => {
                let v: u32 = if base == 16 {
                    n * 16 + d
                } else {
                    n * 10 + d
                };
                if v <= 0x10_FFFF {
                    Some(v)
                } else {
                    None
                }
            },
            None => None,
        };
        match next {
            Some(v) => {
                n = v;
            },
            None => {
                proof {
                    lemma_unspelled(all, k + 1, base as nat);
                }
                return None;
            },
        }
        i += 1;
    }
    assert(all.take(i - from) =~= all);
    Some(n)
}

/// What does not spell a number spells none with more behind it.
proof fn lemma_unspelled(s: Seq<char>, n: int, base: nat)
    requires
        0 <= n <= s.len(),
        spelled(s.take(n), base) is None,
    ensures
        spelled(s, base) is None,
    decreases s.len(),
{
    if n < s.len() {
        assert(s.drop_last().take(n) =~= s.take(n));
        lemma_unspelled(s.drop_last(), n, base);
    } else {
        assert(s.take(n) =~= s);
    }
}

fn char_numbered(n: Option<u32>) -> (r: Option<char>)
    requires
        n is Some ==> n->0 <= 0x10_FFFF,
    ensures
        r == numbered(
            match n {
                Some(v) => Some(v as nat),
                None => None,
            },
        ),
{
    match n {
        Some(v) => std::char::from_u32(v),
        None => None,
    }
}

fn refer(s: &[char], from: usize, to: usize) -> (r: Option<char>)
    requires
        from <= to <= s@.len(),
    ensures
        r == referred(s@.subrange(from as int, to as int)),
{
    let ghost name = s@.subrange(from as int, to as int);
    let text = text_between(s, from, to);
    if crate::text::same_text(text.as_str(), "amp") {
        Some('&')
    } else if crate::text::same_text(text.as_str(), "lt") {
        Some('<')
    } else if crate::text::same_text(text.as_str(), "gt") {
        Some('>')
    } else if crate::text::same_text(text.as_str(), "quot") {
        Some('"')
    } else if crate::text::same_text(text.as_str(), "apos") {
        Some('\'')
    } else if to - from > 2 && s[from] == '#' && (s[from + 1] == 'x' || s[from + 1] == 'X') {
        assert(name.subrange(2, name.len() as int) =~= s@.subrange(from + 2, to as int));
        char_numbered(number_spelled(s, from + 2, to, 16))
    } else if to - from > 1 && s[from] == '#' {
        assert(name.subrange(1, name.len() as int) =~= s@.subrange(from + 1, to as int));
        char_numbered(number_spelled(s, from + 1, to, 10))
    } else {
        None
    }
}

fn unescape(s: &[char], from: usize, end: usize, so_far: String) -> (r: Result<String, Error>)
    requires
        from <= end <= s@.len(),
    ensures
        match unescaped(s@, from as int, end as int, so_far@) {
            Ok(t) => r is Ok && r->Ok_0@ == t,
            Err(e) => r is Err && r->Err_0@ == e,
        },
{
    let ghost start = so_far@;
    let ghost all = unescaped(s@, from as int, end as int, start);
    let mut out = so_far;
    let mut p: usize = from;
    while p < end
        invariant
            from <= p <= end <= s@.len(),
            start == so_far@,
            all == unescaped(s@, from as int, end as int, start),
            all == unescaped(s@, p as int, end as int, out@),
        decreases end - p,
    {
        if s[p] != '&' {
            out.push(s[p]);
            p += 1;
        } else {
            match find(s, p, ";") {
                None => {
                    return Err(err("unterminated entity"));
                },
                Some(q) => {
                    if q >= end || q <= p {
                        return Err(err("unterminated entity"));
                    }
                    match refer(s, p + 1, q) {
                        None => {
                            return Err(err("unknown entity"));
                        },
                        Some(c) => {
                            out.push(c);
                            p = q + 1;
                        },
                    }
                },
            }
        }
    }
    Ok(out)
}

// --- tags ----------------------------------------------------------------------------

/// What stands between an element's name and its content: the attributes, where
/// the tag ends, and whether it ends the element too.
pub struct Tag {
    pub attrs: Seq<(Seq<char>, Seq<char>)>,
    pub end: int,
    pub is_empty: bool,
}

/// The attributes from `p` on.
pub open spec fn tag_from(s: Seq<char>, p: int, so_far: Seq<(Seq<char>, Seq<char>)>) -> Result<
    Tag,
    Failure,
>
    decreases s.len() - p,
{
    let q = white_end(s, p);
    if p < 0 || q < p || q >= s.len() {
        Err(failure("unexpected end of input"@))
    } else if s[q] == '>' {
        Ok(Tag { attrs: so_far, end: q + 1, is_empty: false })
    } else if stands(s, q, "/>"@) {
        Ok(Tag { attrs: so_far, end: q + 2, is_empty: true })
    } else {
        let n = name_end(s, q);
        let eq = white_end(s, n);
        if n <= q || eq < n || eq >= s.len() || s[eq] != '=' {
            Err(failure("malformed attribute"@))
        } else {
            let open = white_end(s, eq + 1);
            if open <= eq || open >= s.len() || !(s[open] == '"' || s[open] == '\'') {
                Err(failure("malformed attribute"@))
            } else {
                match next_place(s, open + 1, seq![s[open]]) {
                    None => Err(failure("malformed attribute"@)),
                    Some(close) => if close <= open || close >= s.len() {
                        Err(failure("malformed attribute"@))
                    } else {
                        match unescaped(s, open + 1, close, Seq::empty()) {
                            Err(e) => Err(e),
                            Ok(value) => tag_from(
                                s,
                                close + 1,
                                so_far.push((after_last(s.subrange(q, n), ':'), value)),
                            ),
                        }
                    },
                }
            }
        }
    }
}

/// The read form of a [`Tag`].
pub struct ReadTag {
    pub attrs: Vec<(String, String)>,
    pub end: usize,
    pub is_empty: bool,
}

pub open spec fn tag_view(t: ReadTag) -> Tag {
    Tag { attrs: attrs_view(t.attrs@), end: t.end as int, is_empty: t.is_empty }
}

fn local_name(s: &[char], from: usize, to: usize) -> (r: String)
    requires
        from <= to <= s@.len(),
    ensures
        r@ == after_last(s@.subrange(from as int, to as int), ':'),
{
    text_after_last(text_between(s, from, to).as_str(), ':')
}

fn read_tag(s: &[char], from: usize) -> (r: Result<ReadTag, Error>)
    requires
        from <= s@.len(),
    ensures
        match tag_from(s@, from as int, Seq::empty()) {
            Ok(t) => r is Ok && tag_view(r->Ok_0) == t && from < t.end <= s@.len(),
            Err(e) => r is Err && r->Err_0@ == e,
        },
{
    let ghost all = tag_from(s@, from as int, Seq::empty());
    let mut attrs: Vec<(String, String)> = Vec::new();
    let mut p: usize = from;
    assert(attrs_view(attrs@) =~= Seq::empty());
    loop
        invariant
            from <= p <= s@.len(),
            all == tag_from(s@, from as int, Seq::empty()),
            all == tag_from(s@, p as int, attrs_view(attrs@)),
        decreases s@.len() - p,
    {
        let q = skip_white(s, p);
        if q >= s.len() {
            return Err(err("unexpected end of input"));
        }
        if s[q] == '>' {
            return Ok(ReadTag { attrs, end: q + 1, is_empty: false });
        }
        if is_at(s, q, "/>") {
            proof {
                reveal_strlit("/>");
            }
            return Ok(ReadTag { attrs, end: q + 2, is_empty: true });
        }
        let n = skip_name(s, q);
        let eq = skip_white(s, n);
        if n == q || eq >= s.len() || s[eq] != '=' {
            return Err(err("malformed attribute"));
        }
        let open = skip_white(s, eq + 1);
        if open >= s.len() || !(s[open] == '"' || s[open] == '\'') {
            return Err(err("malformed attribute"));
        }
        let quote = if s[open] == '"' {
            "\""
        } else {
            "'"
        };
        proof {
            reveal_strlit("\"");
            reveal_strlit("'");
            assert(quote@ =~= seq![s@[open as int]]);
        }
        let close = match find(s, open + 1, quote) {
            Some(c) => c,
            None => {
                return Err(err("malformed attribute"));
            },
        };
        let value = unescape(s, open + 1, close, String::new())?;
        let key = local_name(s, q, n);
        let ghost before = attrs_view(attrs@);
        let ghost pair = (key@, value@);
        attrs.push((key, value));
        assert(attrs_view(attrs@) =~= before.push(pair));
        p = close + 1;
    }
}

// --- elements ------------------------------------------------------------------------

/// The end of what stands at `p` and is no element: a comment or an instruction.
pub open spec fn aside_end(s: Seq<char>, p: int) -> Option<Result<int, Failure>> {
    if stands(s, p, "<!--"@) {
        match next_place(s, p + 4, "-->"@) {
            Some(q) => Some(Ok(q + 3)),
            None => Some(Err(failure("unterminated comment"@))),
        }
    } else if stands(s, p, "<?"@) {
        match next_place(s, p + 2, "?>"@) {
            Some(q) => Some(Ok(q + 2)),
            None => Some(Err(failure("unterminated processing instruction"@))),
        }
    } else {
        None
    }
}

fn skip_aside(s: &[char], p: usize) -> (r: Option<Result<usize, Error>>)
    requires
        p <= s@.len(),
    ensures
        match aside_end(s@, p as int) {
            None => r is None,
            Some(Ok(q)) => r matches Some(Ok(e)) && e == q && p < q <= s@.len(),
            Some(Err(f)) => r matches Some(Err(e)) && e@ == f,
        },
{
    proof {
        reveal_strlit("<!--");
        reveal_strlit("-->");
        reveal_strlit("<?");
        reveal_strlit("?>");
        assert(s.len() <= usize::MAX);
    }
    if is_at(s, p, "<!--") {
        match find(s, p + 4, "-->") {
            Some(q) => Some(Ok(q + 3)),
            None => Some(Err(err("unterminated comment"))),
        }
    } else if is_at(s, p, "<?") {
        match find(s, p + 2, "?>") {
            Some(q) => Some(Ok(q + 2)),
            None => Some(Err(err("unterminated processing instruction"))),
        }
    } else {
        None
    }
}

/// Where the next `<` stands, from `p` on, or the end.
pub open spec fn text_end(s: Seq<char>, p: int) -> int {
    match next_place(s, p, "<"@) {
        Some(q) => q,
        None => s.len() as int,
    }
}

/// The content from `p` on of the element whose tag has the name `name`: the
/// text and the children, and where the closing tag ends.
pub open spec fn content_from(
    s: Seq<char>,
    p: int,
    name: Seq<char>,
    text: Seq<char>,
    children: Seq<Element>,
) -> Result<(Seq<char>, Seq<Element>, int), Failure>
    decreases s.len() - p, 1nat,
{
    if p < 0 || p >= s.len() {
        Err(failure("unexpected end of input"@))
    } else if s[p] != '<' {
        let q = text_end(s, p);
        if q <= p || q > s.len() {
            Err(failure("unexpected end of input"@))
        } else {
            match unescaped(s, p, q, text) {
                Err(e) => Err(e),
                Ok(t) => content_from(s, q, name, t, children),
            }
        }
    } else if stands(s, p, "<![CDATA["@) {
        match next_place(s, p + 9, "]]>"@) {
            None => Err(failure("unterminated CDATA section"@)),
            Some(q) => if q < p + 9 || q + 3 > s.len() {
                Err(failure("unterminated CDATA section"@))
            } else {
                content_from(s, q + 3, name, text + s.subrange(p + 9, q), children)
            },
        }
    } else {
        match aside_end(s, p) {
            Some(Err(e)) => Err(e),
            Some(Ok(q)) => if q <= p || q > s.len() {
                Err(failure("unexpected end of input"@))
            } else {
                content_from(s, q, name, text, children)
            },
            None => if stands(s, p, "</"@) {
                let n = name_end(s, p + 2);
                let q = white_end(s, n);
                if n < p + 2 || q >= s.len() || q < n || s[q] != '>' || s.subrange(p + 2, n)
                    != name {
                    Err(failure("mismatched closing tag"@))
                } else {
                    Ok((text, children, q + 1))
                }
            } else {
                match element_from(s, p) {
                    Err(e) => Err(e),
                    Ok((child, q)) => if q <= p || q > s.len() {
                        Err(failure("unexpected end of input"@))
                    } else {
                        content_from(s, q, name, text, children.push(child))
                    },
                }
            },
        }
    }
}

/// The element whose `<` stands at `p`, and where it ends.
pub open spec fn element_from(s: Seq<char>, p: int) -> Result<(Element, int), Failure>
    decreases s.len() - p, 0nat,
{
    let n = name_end(s, p + 1);
    if p < 0 || n <= p + 1 || n > s.len() {
        Err(failure("malformed tag"@))
    } else {
        let name = s.subrange(p + 1, n);
        match tag_from(s, n, Seq::empty()) {
            Err(e) => Err(e),
            Ok(tag) => if tag.end <= p || tag.end > s.len() {
                Err(failure("unexpected end of input"@))
            } else if tag.is_empty {
                Ok(
                    (
                        Element {
                            name: after_last(name, ':'),
                            attrs: tag.attrs,
                            text: Seq::empty(),
                            children: Seq::empty(),
                        },
                        tag.end,
                    ),
                )
            } else {
                match content_from(s, tag.end, name, Seq::empty(), Seq::empty()) {
                    Err(e) => Err(e),
                    Ok((text, children, end)) => Ok(
                        (
                            Element {
                                name: after_last(name, ':'),
                                attrs: tag.attrs,
                                text,
                                children,
                            },
                            end,
                        ),
                    ),
                }
            },
        }
    }
}

/// Where the root element starts: after white space, comments, instructions and
/// a document type.
pub open spec fn root_place(s: Seq<char>, p: int) -> Result<int, Failure>
    decreases s.len() - p,
{
    let q = white_end(s, p);
    if p < 0 || q < p || q >= s.len() || s[q] != '<' {
        Err(failure("no root element"@))
    } else {
        match aside_end(s, q) {
            Some(Err(e)) => Err(e),
            Some(Ok(r)) => if r <= q || r > s.len() {
                Err(failure("no root element"@))
            } else {
                root_place(s, r)
            },
            None => if stands(s, q, "<!"@) {
                match next_place(s, q, ">"@) {
                    None => Err(failure("unterminated declaration"@)),
                    Some(r) => if r < q || r >= s.len() {
                        Err(failure("unterminated declaration"@))
                    } else {
                        root_place(s, r + 1)
                    },
                }
            } else {
                Ok(q)
            },
        }
    }
}

/// The root element of a document.
pub open spec fn root_of(s: Seq<char>) -> Result<Element, Failure> {
    match root_place(s, 0) {
        Err(e) => Err(e),
        Ok(p) => match element_from(s, p) {
            Err(e) => Err(e),
            Ok((root, end)) => Ok(root),
        },
    }
}

/// The read form of an element's content.
pub struct Content {
    pub text: String,
    pub children: Vec<XmlElement>,
    pub end: usize,
}

fn read_content(s: &[char], from: usize, name: &str) -> (r: Result<Content, Error>)
    requires
        from <= s@.len(),
    ensures
        match content_from(s@, from as int, name@, Seq::empty(), Seq::empty()) {
            Ok((text, children, end)) => r matches Ok(c) && c.text@ == text && elements_view(
                c.children@,
            ) == children && c.end == end && from < end <= s@.len(),
            Err(e) => r matches Err(f) && f@ == e,
        },
    decreases s@.len() - from, 1nat,
{
    let ghost all = content_from(s@, from as int, name@, Seq::empty(), Seq::empty());
    let mut text = String::new();
    let mut children: Vec<XmlElement> = Vec::new();
    let mut p: usize = from;
    assert(elements_view(children@) =~= Seq::empty());
    assert(text@ =~= Seq::empty());
    proof {
        reveal_strlit("<");
        reveal_strlit("<![CDATA[");
        reveal_strlit("]]>");
        reveal_strlit("</");
    }
    while p < s.len()
        invariant
            from <= p <= s@.len(),
            "<"@.len() == 1,
            "<"@[0] == '<',
            "<![CDATA["@.len() == 9,
            "]]>"@.len() == 3,
            "</"@.len() == 2,
            all == content_from(s@, from as int, name@, Seq::empty(), Seq::empty()),
            all == content_from(s@, p as int, name@, text@, elements_view(children@)),
        decreases s@.len() - p,
    {
        if s[p] != '<' {
            proof {
                assert(!stands(s@, p as int, "<"@)) by {
                    assert(s@.subrange(p as int, p + 1)[0] == s@[p as int]);
                }
            }
            let q = match find(s, p + 1, "<") {
                Some(q) => q,
                None => s.len(),
            };
            text = unescape(s, p, q, text)?;
            p = q;
        } else if is_at(s, p, "<![CDATA[") {
            match find(s, p + 9, "]]>") {
                None => {
                    return Err(err("unterminated CDATA section"));
                },
                Some(q) => {
                    text.append(text_between(s, p + 9, q).as_str());
                    p = q + 3;
                },
            }
        } else {
            match skip_aside(s, p) {
                Some(Err(e)) => {
                    return Err(e);
                },
                Some(Ok(q)) => {
                    p = q;
                },
                None => {
                    if is_at(s, p, "</") {
                        let n = skip_name(s, p + 2);
                        let q = skip_white(s, n);
                        if q >= s.len() || s[q] != '>' || !crate::text::same_text(
                            text_between(s, p + 2, n).as_str(),
                            name,
                        ) {
                            return Err(err("mismatched closing tag"));
                        }
                        return Ok(Content { text, children, end: q + 1 });
                    }
                    let (child, q) = read_element(s, p)?;
                    let ghost before = elements_view(children@);
                    children.push(child);
                    assert(elements_view(children@) =~= before.push(child@));
                    p = q;
                },
            }
        }
    }
    Err(err("unexpected end of input"))
}

fn read_element(s: &[char], p: usize) -> (r: Result<(XmlElement, usize), Error>)
    requires
        p < s@.len(),
    ensures
        match element_from(s@, p as int) {
            Ok((e, end)) => r matches Ok(x) && x.0@ == e && x.1 == end && p < end <= s@.len(),
            Err(e) => r matches Err(f) && f@ == e,
        },
    decreases s@.len() - p, 0nat,
{
    assert(s.len() <= usize::MAX);
    let n = skip_name(s, p + 1);
    if n <= p + 1 {
        return Err(err("malformed tag"));
    }
    let tag = read_tag(s, n)?;
    let name = local_name(s, p + 1, n);
    if tag.is_empty {
        let e = XmlElement {
            name,
            attrs: tag.attrs,
            text: String::new(),
            children: Vec::new(),
        };
        proof {
            lemma_children_view(e);
        }
        assert(e@.children =~= Seq::empty());
        assert(e@.text =~= Seq::empty());
        return Ok((e, tag.end));
    }
    let raw = text_between(s, p + 1, n);
    let content = read_content(s, tag.end, raw.as_str())?;
    let e = XmlElement { name, attrs: tag.attrs, text: content.text, children: content.children };
    proof {
        lemma_children_view(e);
    }
    Ok((e, content.end))
}

fn find_root(s: &[char]) -> (r: Result<usize, Error>)
    ensures
        match root_place(s@, 0) {
            Ok(p) => r matches Ok(q) && q == p && q < s@.len(),
            Err(e) => r matches Err(f) && f@ == e,
        },
{
    let mut p: usize = 0;
    proof {
        reveal_strlit(">");
    }
    loop
        invariant
            p <= s@.len(),
            ">"@.len() == 1,
            root_place(s@, 0) == root_place(s@, p as int),
        decreases s@.len() - p,
    {
        let q = skip_white(s, p);
        if q >= s.len() || s[q] != '<' {
            return Err(err("no root element"));
        }
        match skip_aside(s, q) {
            Some(Err(e)) => {
                return Err(e);
            },
            Some(Ok(r)) => {
                p = r;
            },
            None => {
                if is_at(s, q, "<!") {
                    match find(s, q, ">") {
                        None => {
                            return Err(err("unterminated declaration"));
                        },
                        Some(r) => {
                            p = r + 1;
                        },
                    }
                } else {
                    return Ok(q);
                }
            },
        }
    }
}

/// Read the root element of a document.
pub fn parse(text: &str) -> (r: Result<XmlElement, Error>)
    ensures
        match root_of(text@) {
            Ok(e) => r matches Ok(x) && x@ == e,
            Err(e) => r matches Err(f) && f@ == e,
        },
{
    let chars = chars_of(text);
    let s = chars.as_slice();
    let p = find_root(s)?;
    let (root, end) = read_element(s, p)?;
    Ok(root)
}

} // verus!
