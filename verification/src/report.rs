//! What is reported of a conversion: labels, warnings, and the answers to
//! questions about a source's reference system.
use vstd::prelude::*;
use vstd::utf8::*;

use crate::crs::system::{crs_view, definition, reported, warning, Crs, System, WGS84_CRS_CODE};
use crate::error::{Error, Failure};
use crate::feature::{any_carries_m, m_warning, FeatureCollection, Items};
use crate::format::Format;
use crate::sqlite::texts_view;
use crate::text::{
    chars_of, decimal, decimal_text, last_place, lower_text, opt_clone, opt_view, same_text,
    text_between, to_lower, upper_between,
    upper_text,
};

verus! {

// --- paths -----------------------------------------------------------------------------

/// How a path is called: by its own name, or by another where it is a dash.
pub open spec fn label_of(path: Seq<char>, when_dash: Seq<char>) -> Seq<char> {
    if path == "-"@ {
        when_dash
    } else {
        path
    }
}

/// How a path is called: by its own name, or by another where it is a dash.
pub fn io_label<'a>(path: &'a str, when_dash: &'a str) -> (r: &'a str)
    ensures
        r@ == label_of(path@, when_dash@),
{
    if same_text(path, "-") {
        when_dash
    } else {
        path
    }
}

/// The error of a format of several files that is read from or written to a pipe.
pub fn no_stdio_for_multifile(format_name: &str) -> (e: Error)
    ensures
        e@ == Failure::Usage(
            format_name@
                + " is multi-file; piping it through stdin/stdout (\"-\") isn't supported — convert through a single-buffer format instead (e.g. FlatGeobuf or GeoParquet)"@,
        ),
{
    let mut m = String::from_str(format_name);
    m.append(
        " is multi-file; piping it through stdin/stdout (\"-\") isn't supported — convert through a single-buffer format instead (e.g. FlatGeobuf or GeoParquet)",
    );
    Error::Usage(m)
}

/// Where the last part of a path ends, of its first `n` characters: slashes and
/// parts that are a single dot do not count.
pub open spec fn name_stop(s: Seq<char>, n: int) -> int
    decreases n,
{
    if n <= 0 || n > s.len() {
        0
    } else if s[n - 1] == '/' {
        name_stop(s, n - 1)
    } else if s[n - 1] == '.' && n >= 2 && s[n - 2] == '/' {
        name_stop(s, n - 1)
    } else {
        n
    }
}

/// Where the last part of a path starts.
pub open spec fn name_start(s: Seq<char>, end: int) -> int
    decreases end,
{
    if end <= 0 || end > s.len() || s[end - 1] == '/' {
        end
    } else {
        name_start(s, end - 1)
    }
}

/// The last part of a path, where it is a name: it is none in a path of slashes,
/// nor where it is one dot or two.
pub open spec fn file_name(s: Seq<char>) -> Option<(int, int)> {
    let end = name_stop(s, s.len() as int);
    let start = name_start(s, end);
    let name = s.subrange(start, end);
    if name.len() == 0 || name == "."@ || name == ".."@ {
        None
    } else {
        Some((start, end))
    }
}

/// Where the extension's dot stands in a name: at the last dot, but not at the
/// first character.
pub open spec fn dot_place(name: Seq<char>) -> Option<int> {
    match last_place(name, '.', name.len() as int) {
        Some(p) => if p == 0 {
            None
        } else {
            Some(p)
        },
        None => None,
    }
}

/// The name of a layer that is made from a file: the file's name without its
/// extension.
pub open spec fn stem_of(path: Seq<char>) -> Seq<char> {
    if path == "-"@ {
        "layer"@
    } else {
        match file_name(path) {
            None => "layer"@,
            Some((start, end)) => {
                let name = path.subrange(start, end);
                match dot_place(name) {
                    Some(p) => name.subrange(0, p),
                    None => name,
                }
            },
        }
    }
}

/// A path without the extension `shp`, in any case.
pub open spec fn without_shp(path: Seq<char>) -> Seq<char> {
    match file_name(path) {
        None => path,
        Some((start, end)) => {
            let name = path.subrange(start, end);
            match dot_place(name) {
                Some(p) => if lower_text(name.subrange(p + 1, name.len() as int)) == "shp"@ {
                    path.subrange(0, start + p)
                } else {
                    path
                },
                None => path,
            }
        },
    }
}

fn find_file_name(s: &[char]) -> (r: Option<(usize, usize)>)
    ensures
        match file_name(s@) {
            Some((a, b)) => r matches Some(x) && x.0 == a && x.1 == b && a < b <= s@.len(),
            None => r is None,
        },
{
    let mut end: usize = s.len();
    while end > 0 && (s[end - 1] == '/' || (s[end - 1] == '.' && end >= 2 && s[end - 2] == '/'))
        invariant
            end <= s@.len(),
            name_stop(s@, s@.len() as int) == name_stop(s@, end as int),
        decreases end,
    {
        end -= 1;
    }
    let mut start: usize = end;
    while start > 0 && s[start - 1] != '/'
        invariant
            start <= end <= s@.len(),
            name_start(s@, end as int) == name_start(s@, start as int),
        decreases start,
    {
        start -= 1;
    }
    let ghost name = s@.subrange(start as int, end as int);
    proof {
        reveal_strlit(".");
        reveal_strlit("..");
        if end - start == 1 && s@[start as int] == '.' {
            assert(name =~= "."@);
        }
        if end - start == 2 && s@[start as int] == '.' && s@[start + 1] == '.' {
            assert(name =~= ".."@);
        }
        if name == "."@ || name == ".."@ {
            assert(name[0] == s@[start as int]);
            if name.len() == 2 {
                assert(name[1] == s@[start + 1]);
            }
        }
    }
    if end == start || (end - start == 1 && s[start] == '.') || (end - start == 2 && s[start] == '.'
        && s[start + 1] == '.') {
        None
    } else {
        Some((start, end))
    }
}

fn find_dot(name: &[char]) -> (r: Option<usize>)
    ensures
        match dot_place(name@) {
            Some(p) => r matches Some(x) && x == p && 0 < p < name@.len(),
            None => r is None,
        },
{
    match crate::text::find_last(name, '.') {
        Some(p) => if p == 0 {
            None
        } else {
            Some(p)
        },
        None => None,
    }
}

/// The name of a layer that is made from a file.
pub fn layer_stem(path: &str) -> (r: String)
    ensures
        r@ == stem_of(path@),
{
    if same_text(path, "-") {
        return String::from_str("layer");
    }
    let chars = chars_of(path);
    let s = chars.as_slice();
    match find_file_name(s) {
        None => String::from_str("layer"),
        Some((start, end)) => {
            let name = vstd::slice::slice_subrange(s, start, end);
            match find_dot(name) {
                Some(p) => text_between(name, 0, p),
                None => text_between(s, start, end),
            }
        },
    }
}

/// A path without the extension `shp`, in any case.
pub fn strip_shp_extension(path: &str) -> (r: String)
    ensures
        r@ == without_shp(path@),
{
    let chars = chars_of(path);
    let s = chars.as_slice();
    if let Some((start, end)) = find_file_name(s) {
        let name = vstd::slice::slice_subrange(s, start, end);
        if let Some(p) = find_dot(name) {
            let extension = to_lower(text_between(name, p + 1, name.len()).as_str());
            if same_text(extension.as_str(), "shp") {
                return text_between(s, 0, start + p);
            }
        }
    }
    String::from_str(path)
}

/// Where a file beside a shapefile is looked for: under the shapefile's name with
/// the extension in the case of the shapefile's own extension first, and in the
/// other case then.
pub open spec fn siblings_of(path: Seq<char>, extension: Seq<char>) -> Seq<Seq<char>> {
    match file_name(path) {
        None => Seq::empty(),
        Some((start, end)) => {
            let name = path.subrange(start, end);
            let dot = dot_place(name);
            let stem = match dot {
                Some(p) => path.subrange(0, start + p),
                None => path.subrange(0, end),
            } + "."@;
            let loud = match dot {
                Some(p) => p + 1 < name.len() && 'A' <= name[p + 1] <= 'Z',
                None => false,
            };
            if loud {
                seq![stem + upper_text(extension), stem + extension]
            } else {
                seq![stem + extension, stem + upper_text(extension)]
            }
        },
    }
}

/// Where a file beside a shapefile is looked for, in order.
pub fn sibling_paths(path: &str, extension: &str) -> (r: Vec<String>)
    ensures
        texts_view(r@) == siblings_of(path@, extension@),
{
    let mut r: Vec<String> = Vec::new();
    let chars = chars_of(path);
    let s = chars.as_slice();
    if let Some((start, end)) = find_file_name(s) {
        let name = vstd::slice::slice_subrange(s, start, end);
        let dot = find_dot(name);
        let stop: usize = match dot {
            Some(p) => start + p,
            None => end,
        };
        let loud = match dot {
            Some(p) => p + 1 < name.len() && 'A' <= name[p + 1] && name[p + 1] <= 'Z',
            None => false,
        };
        let mut own = text_between(s, 0, stop);
        own.append(".");
        let mut other = String::from_str(own.as_str());
        own.append(extension);
        let letters = chars_of(extension);
        other.append(upper_between(letters.as_slice(), 0, letters.len()).as_str());
        assert(letters@.subrange(0, letters@.len() as int) =~= extension@);
        if loud {
            r.push(other);
            r.push(own);
        } else {
            r.push(own);
            r.push(other);
        }
    }
    assert(texts_view(r@) =~= siblings_of(path@, extension@));
    r
}

// --- control characters ------------------------------------------------------------------

/// A control byte after a caret: the delete byte is `^?`, the others are the byte
/// with its seventh bit turned.
pub open spec fn caret_of(b: u8) -> Seq<char> {
    if b == 0x7F {
        seq!['^', '?']
    } else {
        seq!['^', (b + 64) as char]
    }
}

/// Whether a byte below 128 acts on a terminal.
pub open spec fn is_control(b: u8) -> bool {
    b < 0x20 || b == 0x7F
}

/// A byte made visible. Tabs and line breaks stand as they are; a byte of 128 or
/// more is `M-` and what the rest of it is.
pub open spec fn visible(b: u8) -> Seq<char> {
    if b == 9 || b == 10 {
        seq![b as char]
    } else if is_control(b) {
        caret_of(b)
    } else if b >= 0x80 {
        let low = (b - 0x80) as u8;
        seq!['M', '-'] + (if is_control(low) {
            caret_of(low)
        } else {
            seq![low as char]
        })
    } else {
        seq![b as char]
    }
}

/// Bytes made visible.
pub open spec fn visible_text(bytes: Seq<u8>) -> Seq<char>
    decreases bytes.len(),
{
    if bytes.len() == 0 {
        Seq::empty()
    } else {
        visible_text(bytes.drop_last()) + visible(bytes.last())
    }
}

fn caret(b: u8, out: &mut String)
    requires
        is_control(b),
    ensures
        final(out)@ == old(out)@ + caret_of(b),
{
    let ghost before = out@;
    out.push('^');
    if b == 0x7F {
        out.push('?');
    } else {
        out.push((b + 64) as char);
    }
    assert(out@ =~= before + caret_of(b));
}

/// Make the bytes visible that act on a terminal.
pub fn escape_control_bytes(text: &str) -> (r: String)
    ensures
        r@ == visible_text(encode_utf8(text@)),
{
    let bytes = text.as_bytes();
    let ghost all = bytes@;
    let mut out = String::new();
    let mut i: usize = 0;
    assert(out@ =~= visible_text(all.take(0)));
    while i < bytes.len()
        invariant
            i <= bytes@.len(),
            all == bytes@,
            out@ == visible_text(all.take(i as int)),
        decreases bytes@.len() - i,
    {
        let b: u8 = bytes[i];
        let ghost before = out@;
        if b == 9 || b == 10 {
            out.push(b as char);
        } else if b < 0x20 || b == 0x7F {
            caret(b, &mut out);
        } else if b >= 0x80 {
            out.push('M');
            out.push('-');
            let low: u8 = b - 0x80;
            if low < 0x20 || low == 0x7F {
                caret(low, &mut out);
            } else {
                out.push(low as char);
            }
        } else {
            out.push(b as char);
        }
        assert(out@ =~= before + visible(b));
        assert(all.take(i + 1).drop_last() =~= all.take(i as int));
        assert(all.take(i + 1).last() == b);
        i += 1;
    }
    assert(all.take(i as int) =~= all);
    out
}

/// Whether a character is plain: printable ASCII, a tab or a line break.
pub open spec fn is_plain_char(c: char) -> bool {
    ' ' <= c <= '~' || c == '\t' || c == '\n'
}

proof fn lemma_plain_is_one_byte(s: Seq<char>)
    requires
        forall|i: int| 0 <= i < s.len() ==> is_plain_char(#[trigger] s[i]),
    ensures
        encode_utf8(s) == s.map_values(|c: char| c as u8),
{
    assert forall|i: int| 0 <= i < s.len() implies '\0' <= #[trigger] s[i] <= '\u{7f}' by {
        assert(is_plain_char(s[i]));
    }
    assert(is_ascii_chars(s));
    is_ascii_chars_encode_utf8(s);
    assert(encode_utf8(s) =~= s.map_values(|c: char| c as u8));
}

proof fn lemma_visible_bytes(s: Seq<char>)
    requires
        forall|i: int| 0 <= i < s.len() ==> is_plain_char(#[trigger] s[i]),
    ensures
        visible_text(s.map_values(|c: char| c as u8)) == s,
    decreases s.len(),
{
    let bytes = s.map_values(|c: char| c as u8);
    if s.len() > 0 {
        let rest = s.drop_last();
        assert forall|i: int| 0 <= i < rest.len() implies is_plain_char(#[trigger] rest[i]) by {
            assert(rest[i] == s[i]);
        }
        lemma_visible_bytes(rest);
        assert(bytes.drop_last() =~= rest.map_values(|c: char| c as u8));
        let c = s.last();
        assert(is_plain_char(s[s.len() - 1]));
        assert(bytes.last() == c as u8);
        assert(visible(c as u8) =~= seq![c]);
        assert(rest + seq![c] =~= s);
    } else {
        assert(visible_text(bytes) =~= s);
    }
}

/// Plain text is left as it is.
pub proof fn law_plain_text_is_unchanged(s: Seq<char>)
    requires
        forall|i: int| 0 <= i < s.len() ==> is_plain_char(#[trigger] s[i]),
    ensures
        visible_text(encode_utf8(s)) == s,
{
    lemma_plain_is_one_byte(s);
    lemma_visible_bytes(s);
}

/// What is made visible has no control characters but tabs and line breaks.
pub proof fn law_visible_text_is_plain(bytes: Seq<u8>)
    ensures
        forall|i: int|
            0 <= i < visible_text(bytes).len() ==> is_plain_char(#[trigger] visible_text(bytes)[i]),
    decreases bytes.len(),
{
    if bytes.len() > 0 {
        law_visible_text_is_plain(bytes.drop_last());
        let before = visible_text(bytes.drop_last());
        let last = visible(bytes.last());
        assert forall|i: int| 0 <= i < last.len() implies is_plain_char(#[trigger] last[i]) by {}
        assert forall|i: int| 0 <= i < (before + last).len() implies is_plain_char(
            #[trigger] (before + last)[i],
        ) by {
            if i >= before.len() {
                assert((before + last)[i] == last[i - before.len()]);
            }
        }
    }
}


// --- the source's reference system -------------------------------------------------------

pub open spec fn sources_view(sources: Seq<(Option<String>, Option<Crs>)>) -> Seq<
    (Option<Seq<char>>, Option<System>),
> {
    sources.map_values(|s: (Option<String>, Option<Crs>)| (opt_view(s.0), crs_view(s.1)))
}

/// The code of a system, where there is a system and it has one.
pub open spec fn code_of(crs: Option<System>) -> Option<Seq<char>> {
    match crs {
        Some(s) => reported(s),
        None => None,
    }
}

/// The different codes of the first `n` sources, in order.
pub open spec fn codes_of(sources: Seq<(Option<Seq<char>>, Option<System>)>, n: int) -> Seq<
    Seq<char>,
>
    decreases n,
{
    if n <= 0 {
        Seq::empty()
    } else {
        let before = codes_of(sources, n - 1);
        match code_of(sources[n - 1].1) {
            Some(c) => if before.contains(c) {
                before
            } else {
                before.push(c)
            },
            None => before,
        }
    }
}

/// Every code is reported, and none twice.
pub proof fn law_each_code_is_reported_once(
    sources: Seq<(Option<Seq<char>>, Option<System>)>,
    n: int,
)
    requires
        0 <= n <= sources.len(),
    ensures
        codes_of(sources, n).no_duplicates(),
        forall|c: Seq<char>|
            #![trigger codes_of(sources, n).contains(c)]
            codes_of(sources, n).contains(c) <==> exists|i: int|
                0 <= i < n && code_of((#[trigger] sources[i]).1) == Some(c),
    decreases n,
{
    let codes = codes_of(sources, n);
    if n > 0 {
        law_each_code_is_reported_once(sources, n - 1);
        let before = codes_of(sources, n - 1);
        let last = code_of(sources[n - 1].1);
        assert forall|c: Seq<char>| #![trigger codes.contains(c)] codes.contains(c) <==> exists|
            i: int,
        |
            0 <= i < n && code_of((#[trigger] sources[i]).1) == Some(c) by {
            if codes.contains(c) {
                let k = choose|k: int| 0 <= k < codes.len() && codes[k] == c;
                if k < before.len() {
                    assert(before[k] == c);
                    assert(before.contains(c));
                } else {
                    assert(code_of(sources[n - 1].1) == Some(c));
                }
            }
            if exists|i: int| 0 <= i < n && code_of((#[trigger] sources[i]).1) == Some(c) {
                let i = choose|i: int| 0 <= i < n && code_of((#[trigger] sources[i]).1) == Some(c);
                if i < n - 1 {
                    assert(before.contains(c));
                    let k = choose|k: int| 0 <= k < before.len() && before[k] == c;
                    assert(codes[k] == c);
                } else if before.contains(c) {
                } else {
                    assert(codes[before.len() as int] == c);
                }
            }
        }
    }
}

/// The failure of a source without a code.
pub open spec fn no_code(input: Seq<char>) -> Failure {
    Failure::Usage(
        label_of(input, "stdin"@)
            + ": no CRS authority code to report — the source carries no CRS, or one with no authority and code (an id-less WKT definition, or a GeoPackage's placeholder NONE id). Use --print-crs to print the definition itself, or supply one with --crs, instead of asking for a code to resolve."@,
    )
}

fn holds_text(texts: &Vec<String>, text: &str) -> (r: bool)
    ensures
        r == texts_view(texts@).contains(text@),
{
    let ghost all = texts_view(texts@);
    let mut i: usize = 0;
    while i < texts.len()
        invariant
            i <= texts@.len(),
            all == texts_view(texts@),
            forall|k: int| 0 <= k < i ==> #[trigger] all[k] != text@,
        decreases texts@.len() - i,
    {
        assert(all[i as int] == texts@[i as int]@);
        if same_text(texts[i].as_str(), text) {
            return true;
        }
        i += 1;
    }
    false
}

/// The lines that report the codes of sources, each once.
pub fn crs_code_lines(input: &str, sources: &Vec<(Option<String>, Option<Crs>)>) -> (r: Result<
    Vec<String>,
    Error,
>)
    ensures
        ({
            let codes = codes_of(sources_view(sources@), sources@.len() as int);
            if codes.len() == 0 {
                r matches Err(e) && e@ == no_code(input@)
            } else {
                r matches Ok(v) && texts_view(v@) == codes
            }
        }),
{
    let ghost all = sources_view(sources@);
    let mut codes: Vec<String> = Vec::new();
    let mut i: usize = 0;
    assert(texts_view(codes@) =~= Seq::empty());
    while i < sources.len()
        invariant
            i <= sources@.len(),
            all == sources_view(sources@),
            texts_view(codes@) == codes_of(all, i as int),
        decreases sources@.len() - i,
    {
        assert(all[i as int].1 == crs_view(sources@[i as int].1));
        let code = match &sources[i].1 {
            Some(c) => c.authority_code(),
            None => None,
        };
        if let Some(c) = code {
            if !holds_text(&codes, c.as_str()) {
                let ghost before = texts_view(codes@);
                codes.push(c);
                assert(texts_view(codes@) =~= before.push(c@));
            }
        }
        i += 1;
    }
    if codes.len() == 0 {
        let mut m = String::from_str(io_label(input, "stdin"));
        m.append(
            ": no CRS authority code to report — the source carries no CRS, or one with no authority and code (an id-less WKT definition, or a GeoPackage's placeholder NONE id). Use --print-crs to print the definition itself, or supply one with --crs, instead of asking for a code to resolve.",
        );
        return Err(Error::Usage(m));
    }
    Ok(codes)
}

/// The definition of a system, where there is a system and it has one.
pub open spec fn body_of(crs: Option<System>) -> Option<Seq<char>> {
    match crs {
        Some(s) => definition(s),
        None => None,
    }
}

/// Whether a definition is among those found.
pub open spec fn is_seen(bodies: Seq<(Seq<char>, Option<Seq<char>>)>, body: Seq<char>) -> bool {
    exists|i: int| 0 <= i < bodies.len() && (#[trigger] bodies[i]).0 == body
}

/// The different definitions of the first `n` sources, in order, each with the
/// name of the first layer that has it.
pub open spec fn bodies_of(sources: Seq<(Option<Seq<char>>, Option<System>)>, n: int) -> Seq<
    (Seq<char>, Option<Seq<char>>),
>
    decreases n,
{
    if n <= 0 {
        Seq::empty()
    } else {
        let before = bodies_of(sources, n - 1);
        match body_of(sources[n - 1].1) {
            Some(b) => if is_seen(before, b) {
                before
            } else {
                before.push((b, sources[n - 1].0))
            },
            None => before,
        }
    }
}

/// Whether any source is in WGS 84.
pub open spec fn any_wgs84(sources: Seq<(Option<Seq<char>>, Option<System>)>) -> bool {
    exists|i: int| 0 <= i < sources.len() && (#[trigger] sources[i]).1 == Some(System::Wgs84)
}

/// The failure of sources without a definition.
pub open spec fn no_body(
    input: Seq<char>,
    sources: Seq<(Option<Seq<char>>, Option<System>)>,
) -> Failure {
    let label = label_of(input, "stdin"@);
    Failure::Usage(
        if any_wgs84(sources) {
            label
                + ": no CRS definition body to print — the source's CRS is the format's implicit WGS 84 default, which it records no definition for. Use --print-crs-code (prints "@
                + WGS84_CRS_CODE@ + ") and resolve that instead."@
        } else {
            label
                + ": no CRS definition body to print — the source carries no CRS, or carries only an authority and code with no definition text beside it. Use --print-crs-code to report the code and resolve that instead."@
        },
    )
}

/// The names of the layers of the first `n` definitions, quoted and separated by
/// commas.
pub open spec fn layer_list(bodies: Seq<(Seq<char>, Option<Seq<char>>)>, n: int) -> Seq<char>
    decreases n,
{
    if n <= 0 {
        Seq::empty()
    } else {
        let before = layer_list(bodies, n - 1);
        match bodies[n - 1].1 {
            Some(l) => if before.len() == 0 {
                "\""@ + l + "\""@
            } else {
                before + ", \""@ + l + "\""@
            },
            None => before,
        }
    }
}

/// The failure of sources with several definitions.
pub open spec fn many_bodies(input: Seq<char>, bodies: Seq<(Seq<char>, Option<Seq<char>>)>) -> Failure {
    Failure::Usage(
        label_of(input, "stdin"@) + ": the selected layers carry "@ + decimal(bodies.len())
            + " different CRS definitions, and a definition body can span several lines — there is no unambiguous way to print more than one. Narrow to a single layer with --layer ("@
            + layer_list(bodies, bodies.len() as int) + ")."@,
    )
}

/// What is printed of the sources' definitions: the one that they have.
pub open spec fn printed(
    input: Seq<char>,
    sources: Seq<(Option<Seq<char>>, Option<System>)>,
    escape: bool,
) -> Result<Seq<char>, Failure> {
    let bodies = bodies_of(sources, sources.len() as int);
    if bodies.len() == 0 {
        Err(no_body(input, sources))
    } else if bodies.len() == 1 {
        Ok(
            if escape {
                visible_text(encode_utf8(bodies[0].0))
            } else {
                bodies[0].0
            },
        )
    } else {
        Err(many_bodies(input, bodies))
    }
}

/// The error of sources without a definition: WGS 84 that is implied by a format
/// has none, and other sources lack one.
pub fn nothing_to_print(input: &str, sources: &Vec<(Option<String>, Option<Crs>)>) -> (e: Error)
    ensures
        e@ == no_body(input@, sources_view(sources@)),
{
    let ghost all = sources_view(sources@);
    let mut found = false;
    let mut i: usize = 0;
    while i < sources.len()
        invariant
            i <= sources@.len(),
            all == sources_view(sources@),
            found == exists|k: int| 0 <= k < i && (#[trigger] all[k]).1 == Some(System::Wgs84),
        decreases sources@.len() - i,
    {
        assert(all[i as int].1 == crs_view(sources@[i as int].1));
        if let Some(Crs::Wgs84) = &sources[i].1 {
            found = true;
        }
        i += 1;
    }
    let mut m = String::from_str(io_label(input, "stdin"));
    if found {
        m.append(
            ": no CRS definition body to print — the source's CRS is the format's implicit WGS 84 default, which it records no definition for. Use --print-crs-code (prints ",
        );
        m.append(WGS84_CRS_CODE);
        m.append(") and resolve that instead.");
    } else {
        m.append(
            ": no CRS definition body to print — the source carries no CRS, or carries only an authority and code with no definition text beside it. Use --print-crs-code to report the code and resolve that instead.",
        );
    }
    Error::Usage(m)
}

pub open spec fn pairs_view(bodies: Seq<(String, Option<String>)>) -> Seq<
    (Seq<char>, Option<Seq<char>>),
> {
    bodies.map_values(|b: (String, Option<String>)| (b.0@, opt_view(b.1)))
}

fn seen(bodies: &Vec<(String, Option<String>)>, body: &str) -> (r: bool)
    ensures
        r == is_seen(pairs_view(bodies@), body@),
{
    let ghost all = pairs_view(bodies@);
    let mut i: usize = 0;
    while i < bodies.len()
        invariant
            i <= bodies@.len(),
            all == pairs_view(bodies@),
            forall|k: int| 0 <= k < i ==> (#[trigger] all[k]).0 != body@,
        decreases bodies@.len() - i,
    {
        assert(all[i as int].0 == bodies@[i as int].0@);
        if same_text(bodies[i].0.as_str(), body) {
            return true;
        }
        i += 1;
    }
    false
}

fn list_layers(bodies: &Vec<(String, Option<String>)>) -> (r: String)
    ensures
        r@ == layer_list(pairs_view(bodies@), bodies@.len() as int),
{
    let ghost all = pairs_view(bodies@);
    let mut out = String::new();
    let mut is_first = true;
    let mut i: usize = 0;
    assert(out@ =~= Seq::empty());
    proof {
        reveal_strlit("\"");
    }
    while i < bodies.len()
        invariant
            i <= bodies@.len(),
            all == pairs_view(bodies@),
            out@ == layer_list(all, i as int),
            is_first == (out@.len() == 0),
            "\""@.len() == 1,
        decreases bodies@.len() - i,
    {
        assert(all[i as int].1 == opt_view(bodies@[i as int].1));
        if let Some(l) = &bodies[i].1 {
            let ghost before = out@;
            if is_first {
                out.append("\"");
            } else {
                out.append(", \"");
            }
            out.append(l.as_str());
            out.append("\"");
            is_first = false;
            assert(out@ =~= layer_list(all, i + 1));
        }
        i += 1;
    }
    out
}

/// What is printed of the sources' definitions.
pub fn crs_definition_text(
    input: &str,
    sources: &Vec<(Option<String>, Option<Crs>)>,
    escape: bool,
) -> (r: Result<String, Error>)
    ensures
        match printed(input@, sources_view(sources@), escape) {
            Ok(t) => r matches Ok(s) && s@ == t,
            Err(e) => r matches Err(f) && f@ == e,
        },
{
    let ghost all = sources_view(sources@);
    let mut bodies: Vec<(String, Option<String>)> = Vec::new();
    let mut i: usize = 0;
    assert(pairs_view(bodies@) =~= Seq::empty());
    while i < sources.len()
        invariant
            i <= sources@.len(),
            all == sources_view(sources@),
            pairs_view(bodies@) == bodies_of(all, i as int),
        decreases sources@.len() - i,
    {
        assert(all[i as int] == (opt_view(sources@[i as int].0), crs_view(sources@[i as int].1)));
        let body = match &sources[i].1 {
            Some(c) => c.definition_body(),
            None => None,
        };
        if let Some(b) = body {
            if !seen(&bodies, b) {
                let layer = opt_clone(&sources[i].0);
                let ghost before = pairs_view(bodies@);
                let ghost pair = (b@, opt_view(layer));
                bodies.push((String::from_str(b), layer));
                assert(pairs_view(bodies@) =~= before.push(pair));
            }
        }
        i += 1;
    }
    if bodies.len() == 0 {
        return Err(nothing_to_print(input, sources));
    }
    assert(pairs_view(bodies@)[0] == (bodies@[0].0@, opt_view(bodies@[0].1)));
    if bodies.len() == 1 {
        return Ok(
            if escape {
                escape_control_bytes(bodies[0].0.as_str())
            } else {
                String::from_str(bodies[0].0.as_str())
            },
        );
    }
    let mut m = String::from_str(io_label(input, "stdin"));
    m.append(": the selected layers carry ");
    m.append(decimal_text(bodies.len() as u64).as_str());
    m.append(
        " different CRS definitions, and a definition body can span several lines — there is no unambiguous way to print more than one. Narrow to a single layer with --layer (",
    );
    m.append(list_layers(&bodies).as_str());
    m.append(").");
    Err(Error::Usage(m))
}

// --- overriding the reference system -------------------------------------------------------

fn same_opt(a: &Option<String>, b: &Option<String>) -> (r: bool)
    ensures
        r == (opt_view(*a) == opt_view(*b)),
{
    match (a, b) {
        (Some(x), Some(y)) => same_text(x.as_str(), y.as_str()),
        (None, None) => true,
        _ => false,
    }
}

fn same_crs(a: &Option<Crs>, b: &Option<Crs>) -> (r: bool)
    ensures
        r == (crs_view(*a) == crs_view(*b)),
{
    match (a, b) {
        (None, None) => true,
        (Some(Crs::Wgs84), Some(Crs::Wgs84)) => true,
        (Some(Crs::Named(x)), Some(Crs::Named(y))) => {
            same_opt(&x.authority, &y.authority) && same_opt(&x.code, &y.code) && same_opt(
                &x.wkt,
                &y.wkt,
            ) && same_opt(&x.projjson, &y.projjson)
        },
        _ => false,
    }
}

pub open spec fn layer_systems<N: View, P: View>(
    layers: Seq<(String, FeatureCollection<N, P>)>,
) -> Seq<Option<System>> {
    layers.map_values(|l: (String, FeatureCollection<N, P>)| crs_view(l.1.crs))
}

/// Where a system first stands among systems, of the first `n`.
pub open spec fn is_new(systems: Seq<Option<System>>, n: int) -> bool {
    forall|k: int| 0 <= k < n ==> #[trigger] systems[k] != systems[n]
}

/// How many different systems there are among the first `n`.
pub open spec fn distinct_count(systems: Seq<Option<System>>, n: int) -> nat
    decreases n,
{
    if n <= 0 {
        0
    } else if is_new(systems, n - 1) {
        distinct_count(systems, n - 1) + 1
    } else {
        distinct_count(systems, n - 1)
    }
}

/// The warning that one system takes the place of several.
pub open spec fn override_warning(systems: Seq<Option<System>>, crs: System) -> Option<Seq<char>> {
    let distinct = distinct_count(systems, systems.len() as int);
    if distinct < 2 {
        None
    } else {
        Some(
            "--crs relabels all "@ + decimal(systems.len()) + " layers as "@ + (match reported(
                crs,
            ) {
                Some(c) => c,
                None => "the supplied definition"@,
            }) + ", but the source declared "@ + decimal(distinct)
                + " different CRSes; the override replaces every one of them."@,
        )
    }
}

fn count_distinct<N: View, P: View>(layers: &Vec<(String, FeatureCollection<N, P>)>) -> (r: usize)
    ensures
        r == distinct_count(layer_systems(layers@), layers@.len() as int),
        r <= layers@.len(),
{
    let ghost systems = layer_systems(layers@);
    let mut r: usize = 0;
    let mut i: usize = 0;
    while i < layers.len()
        invariant
            r <= i <= layers@.len(),
            systems == layer_systems(layers@),
            r == distinct_count(systems, i as int),
        decreases layers@.len() - i,
    {
        assert(systems[i as int] == crs_view(layers@[i as int].1.crs));
        let mut is_fresh = true;
        let mut k: usize = 0;
        while k < i
            invariant
                k <= i < layers@.len(),
                systems == layer_systems(layers@),
                is_fresh == forall|j: int| 0 <= j < k ==> #[trigger] systems[j] != systems[i as int],
            decreases i - k,
        {
            assert(systems[k as int] == crs_view(layers@[k as int].1.crs));
            assert(systems[i as int] == crs_view(layers@[i as int].1.crs));
            if same_crs(&layers[k].1.crs, &layers[i].1.crs) {
                is_fresh = false;
            }
            k += 1;
        }
        if is_fresh {
            r += 1;
        }
        i += 1;
    }
    r
}

/// Put a system in the place of a collection's own. Nothing is reprojected.
pub fn install_crs_override<N: View, P: View>(fc: &mut FeatureCollection<N, P>, crs: &Crs)
    ensures
        final(fc).features == old(fc).features,
        crs_view(final(fc).crs) == Some(crs@),
{
    fc.crs = Some(crs.clone());
}

/// Put a system in the place of every layer's own, and warn where they differed.
pub fn apply_crs_override<N: View, P: View>(
    layers: &mut Vec<(String, FeatureCollection<N, P>)>,
    crs: &Crs,
) -> (r: Vec<String>)
    ensures
        final(layers)@.len() == old(layers)@.len(),
        forall|i: int|
            0 <= i < old(layers)@.len() ==> (#[trigger] final(layers)@[i]).0 == old(layers)@[i].0
                && final(layers)@[i].1.features == old(layers)@[i].1.features && crs_view(
                final(layers)@[i].1.crs,
            ) == Some(crs@),
        texts_view(r@) == match override_warning(layer_systems(old(layers)@), crs@) {
            Some(w) => seq![w],
            None => Seq::empty(),
        },
{
    let distinct = count_distinct(layers);
    let ghost start = layers@;
    let n: usize = layers.len();
    let mut i: usize = 0;
    while i < n
        invariant
            i <= n == layers@.len() == start.len(),
            forall|k: int|
                0 <= k < n ==> (#[trigger] layers@[k]).0 == start[k].0 && layers@[k].1.features
                    == start[k].1.features,
            forall|k: int| 0 <= k < i ==> crs_view((#[trigger] layers@[k]).1.crs) == Some(crs@),
        decreases n - i,
    {
        let ghost before = layers@;
        let l = &mut layers[i];
        install_crs_override(&mut l.1, crs);
        assert forall|k: int| 0 <= k < n && k != i implies #[trigger] layers@[k] == before[k] by {}
        i += 1;
    }
    let mut r: Vec<String> = Vec::new();
    assert(texts_view(r@) =~= Seq::empty());
    if distinct >= 2 {
        let mut m = String::from_str("--crs relabels all ");
        m.append(decimal_text(n as u64).as_str());
        m.append(" layers as ");
        match crs.authority_code() {
            Some(c) => {
                m.append(c.as_str());
            },
            None => {
                m.append("the supplied definition");
            },
        }
        m.append(", but the source declared ");
        m.append(decimal_text(distinct as u64).as_str());
        m.append(" different CRSes; the override replaces every one of them.");
        r.push(m);
        assert(texts_view(r@) =~= seq![m@]);
    }
    r
}

// --- warnings ------------------------------------------------------------------------------

/// What is lost of a collection in a format.
pub open spec fn warnings_of<V, W>(c: Items<V, W>, target: Format) -> Seq<Seq<char>> {
    let crs = match c.crs {
        Some(s) => warning(s, target),
        None => None,
    };
    let first = match crs {
        Some(w) => seq![w],
        None => Seq::empty(),
    };
    match m_warning(c, target) {
        Some(w) => first.push(w),
        None => first,
    }
}

/// Texts with those of a list appended that are not there yet, of the first `n`.
pub open spec fn with_new(seen: Seq<Seq<char>>, texts: Seq<Seq<char>>, n: int) -> Seq<Seq<char>>
    decreases n,
{
    if n <= 0 {
        seen
    } else {
        let before = with_new(seen, texts, n - 1);
        if before.contains(texts[n - 1]) {
            before
        } else {
            before.push(texts[n - 1])
        }
    }
}

/// What is lost of the first `n` layers in a format, each warning once.
pub open spec fn layer_warnings<V, W>(layers: Seq<Items<V, W>>, target: Format, n: int) -> Seq<
    Seq<char>,
>
    decreases n,
{
    if n <= 0 {
        Seq::empty()
    } else {
        let texts = warnings_of(layers[n - 1], target);
        with_new(layer_warnings(layers, target, n - 1), texts, texts.len() as int)
    }
}

/// What is lost of a collection in a format.
pub fn collect_conversion_warnings<N: View, P: View>(
    fc: &FeatureCollection<N, P>,
    target: Format,
) -> (r: Vec<String>)
    ensures
        texts_view(r@) == warnings_of(fc@, target),
{
    let mut r: Vec<String> = Vec::new();
    assert(texts_view(r@) =~= Seq::empty());
    let crs = match &fc.crs {
        Some(c) => c.downgrade_warning(target),
        None => None,
    };
    if let Some(w) = crs {
        r.push(w);
        assert(texts_view(r@) =~= seq![w@]);
    }
    let ghost before = texts_view(r@);
    if let Some(w) = fc.m_downgrade_warning(target) {
        r.push(w);
        assert(texts_view(r@) =~= before.push(w@));
    }
    r
}

pub open spec fn layer_items<N: View, P: View>(
    layers: Seq<(String, FeatureCollection<N, P>)>,
) -> Seq<Items<N::V, P::V>> {
    layers.map_values(|l: (String, FeatureCollection<N, P>)| l.1@)
}

/// What is lost of layers in a format, each warning once.
pub fn collect_layer_warnings<N: View, P: View>(
    layers: &Vec<(String, FeatureCollection<N, P>)>,
    target: Format,
) -> (r: Vec<String>)
    ensures
        texts_view(r@) == layer_warnings(layer_items(layers@), target, layers@.len() as int),
{
    let ghost items = layer_items(layers@);
    let mut r: Vec<String> = Vec::new();
    let mut i: usize = 0;
    assert(texts_view(r@) =~= Seq::empty());
    while i < layers.len()
        invariant
            i <= layers@.len(),
            items == layer_items(layers@),
            texts_view(r@) == layer_warnings(items, target, i as int),
        decreases layers@.len() - i,
    {
        assert(items[i as int] == layers@[i as int].1@);
        let warnings = collect_conversion_warnings(&layers[i].1, target);
        let ghost texts = texts_view(warnings@);
        let ghost start = texts_view(r@);
        let mut k: usize = 0;
        while k < warnings.len()
            invariant
                k <= warnings@.len(),
                texts == texts_view(warnings@),
                texts_view(r@) == with_new(start, texts, k as int),
            decreases warnings@.len() - k,
        {
            assert(texts[k as int] == warnings@[k as int]@);
            if !holds_text(&r, warnings[k].as_str()) {
                let w = String::from_str(warnings[k].as_str());
                let ghost before = texts_view(r@);
                r.push(w);
                assert(texts_view(r@) =~= before.push(w@));
            }
            k += 1;
        }
        i += 1;
    }
    r
}

/// No warning is given twice.
pub proof fn law_layer_warnings_are_distinct<V, W>(layers: Seq<Items<V, W>>, target: Format, n: int)
    ensures
        layer_warnings(layers, target, n).no_duplicates(),
    decreases n,
{
    if n > 0 {
        law_layer_warnings_are_distinct(layers, target, n - 1);
        let texts = warnings_of(layers[n - 1], target);
        lemma_with_new_is_distinct(
            layer_warnings(layers, target, n - 1),
            texts,
            texts.len() as int,
        );
    }
}

proof fn lemma_with_new_is_distinct(seen: Seq<Seq<char>>, texts: Seq<Seq<char>>, n: int)
    requires
        seen.no_duplicates(),
    ensures
        with_new(seen, texts, n).no_duplicates(),
    decreases n,
{
    if n > 0 {
        lemma_with_new_is_distinct(seen, texts, n - 1);
    }
}

/// A collection in WGS 84 without measures is converted without a warning.
pub proof fn law_wgs84_without_measures_never_warns<V, W>(c: Items<V, W>, target: Format)
    requires
        c.crs is None || c.crs == Some(System::Wgs84),
        !any_carries_m(c.features),
    ensures
        warnings_of(c, target) == Seq::<Seq<char>>::empty(),
{
}

// --- decisions -----------------------------------------------------------------------------

/// The name of a format in an error.
pub open spec fn variant_name(f: Format) -> Seq<char> {
    match f {
        Format::GeoJson => "GeoJson"@,
        Format::Parquet => "Parquet"@,
        Format::FlatGeobuf => "FlatGeobuf"@,
        Format::Csv => "Csv"@,
        Format::Wkt => "Wkt"@,
        Format::Gpkg => "Gpkg"@,
        Format::Shapefile => "Shapefile"@,
        Format::Kml => "Kml"@,
        Format::Kmz => "Kmz"@,
    }
}

fn variant_text(f: Format) -> (r: &'static str)
    ensures
        r@ == variant_name(f),
{
    match f {
        Format::GeoJson => "GeoJson",
        Format::Parquet => "Parquet",
        Format::FlatGeobuf => "FlatGeobuf",
        Format::Csv => "Csv",
        Format::Wkt => "Wkt",
        Format::Gpkg => "Gpkg",
        Format::Shapefile => "Shapefile",
        Format::Kml => "Kml",
        Format::Kmz => "Kmz",
    }
}

/// Where a conversion goes.
#[derive(Debug, Clone, Copy, PartialEq, Eq, Structural)]
pub enum Route {
    /// Into the layers of a GeoPackage.
    IntoGeoPackage,
    /// Out of the layers of a GeoPackage.
    OutOfGeoPackage,
    /// From one collection to one collection.
    Plain,
}

/// The route between two formats; there is none from a format to itself, but for
/// GeoPackage.
pub fn route(from: Format, to: Format) -> (r: Result<Route, Error>)
    ensures
        if to is Gpkg {
            r == Ok::<Route, Error>(Route::IntoGeoPackage)
        } else if from is Gpkg {
            r == Ok::<Route, Error>(Route::OutOfGeoPackage)
        } else if from == to {
            r matches Err(e) && e@ == Failure::Usage(
                "input and output are the same format ("@ + variant_name(from)
                    + "); nothing to convert"@,
            )
        } else {
            r == Ok::<Route, Error>(Route::Plain)
        },
{
    if to == Format::Gpkg {
        return Ok(Route::IntoGeoPackage);
    }
    if from == Format::Gpkg {
        return Ok(Route::OutOfGeoPackage);
    }
    if from == to {
        let mut m = String::from_str("input and output are the same format (");
        m.append(variant_text(from));
        m.append("); nothing to convert");
        return Err(Error::Usage(m));
    }
    Ok(Route::Plain)
}

/// How layers are written to single-collection files.
#[derive(Debug, Clone, Copy, PartialEq, Eq, Structural)]
pub enum Fan {
    /// The only layer to the output itself.
    Single,
    /// Each layer to a file of its own in a directory.
    Directory,
}

/// How so many layers are written.
pub fn fan_out(layers: usize, as_dir: bool) -> (r: Result<Fan, Error>)
    ensures
        if layers == 0 {
            r matches Err(e) && e@ == Failure::Usage("GeoPackage has no feature layers"@)
        } else if as_dir {
            r == Ok::<Fan, Error>(Fan::Directory)
        } else if layers == 1 {
            r == Ok::<Fan, Error>(Fan::Single)
        } else {
            r matches Err(e) && e@ == Failure::Usage(
                "GeoPackage has multiple layers: give an output directory (trailing '/') or --layer NAME"@,
            )
        },
{
    if layers == 0 {
        return Err(Error::Usage(String::from_str("GeoPackage has no feature layers")));
    }
    if as_dir {
        return Ok(Fan::Directory);
    }
    if layers == 1 {
        return Ok(Fan::Single);
    }
    Err(
        Error::Usage(
            String::from_str(
                "GeoPackage has multiple layers: give an output directory (trailing '/') or --layer NAME",
            ),
        ),
    )
}

/// The layers of a name, from the one numbered `i` on.
pub open spec fn named_from<T>(layers: Seq<(String, T)>, name: Seq<char>, i: int) -> Seq<(String, T)>
    decreases layers.len() - i,
{
    if i < 0 || i >= layers.len() {
        Seq::empty()
    } else if layers[i].0@ == name {
        seq![layers[i]] + named_from(layers, name, i + 1)
    } else {
        named_from(layers, name, i + 1)
    }
}

proof fn lemma_named_removed<T>(layers: Seq<(String, T)>, name: Seq<char>, i: int, k: int)
    requires
        0 <= k <= i < layers.len(),
        layers[i].0@ != name,
    ensures
        named_from(layers, name, k) == named_from(layers.remove(i), name, k),
    decreases layers.len() - k,
{
    let rest = layers.remove(i);
    if k < i {
        lemma_named_removed(layers, name, i, k + 1);
        assert(rest[k] == layers[k]);
    } else {
        lemma_named_shift(layers, rest, name, i + 1);
    }
}

proof fn lemma_named_shift<T>(
    layers: Seq<(String, T)>,
    rest: Seq<(String, T)>,
    name: Seq<char>,
    k: int,
)
    requires
        1 <= k <= layers.len(),
        rest.len() == layers.len() - 1,
        forall|m: int| k <= m < layers.len() ==> #[trigger] layers[m] == rest[m - 1],
    ensures
        named_from(layers, name, k) == named_from(rest, name, k - 1),
    decreases layers.len() - k,
{
    if k < layers.len() {
        assert(layers[k] == rest[k - 1]);
        lemma_named_shift(layers, rest, name, k + 1);
    }
}

proof fn lemma_named_all<T>(layers: Seq<(String, T)>, name: Seq<char>, i: int)
    requires
        0 <= i <= layers.len(),
        forall|k: int| i <= k < layers.len() ==> (#[trigger] layers[k]).0@ == name,
    ensures
        named_from(layers, name, i) == layers.skip(i),
    decreases layers.len() - i,
{
    if i < layers.len() {
        lemma_named_all(layers, name, i + 1);
        assert(layers.skip(i) =~= seq![layers[i]] + layers.skip(i + 1));
    } else {
        assert(layers.skip(i) =~= Seq::empty());
    }
}

/// The layers of a name, where one is asked for; it is an error if there is none.
pub fn select_layer<T>(layers: Vec<(String, T)>, name: &Option<String>) -> (r: Result<
    Vec<(String, T)>,
    Error,
>)
    ensures
        match opt_view(*name) {
            None => r == Ok::<Vec<(String, T)>, Error>(layers),
            Some(n) => {
                let kept = named_from(layers@, n, 0);
                if kept.len() == 0 {
                    r matches Err(e) && e@ == Failure::Usage("no layer named \""@ + n + "\""@)
                } else {
                    r matches Ok(v) && v@ == kept
                }
            },
        },
{
    let name = match name {
        Some(n) => n,
        None => {
            return Ok(layers);
        },
    };
    let ghost start = layers@;
    let mut layers = layers;
    let mut i: usize = 0;
    while i < layers.len()
        invariant
            i <= layers@.len(),
            named_from(layers@, name@, 0) == named_from(start, name@, 0),
            forall|k: int| 0 <= k < i ==> (#[trigger] layers@[k]).0@ == name@,
        decreases layers@.len() - i,
    {
        if same_text(layers[i].0.as_str(), name.as_str()) {
            i += 1;
        } else {
            let ghost was = layers@;
            proof {
                lemma_named_removed(was, name@, i as int, 0);
            }
            layers.remove(i);
            assert forall|k: int| 0 <= k < i implies (#[trigger] layers@[k]).0@ == name@ by {
                assert(layers@[k] == was[k]);
            }
        }
    }
    proof {
        lemma_named_all(layers@, name@, 0);
        assert(layers@.skip(0) =~= layers@);
    }
    if layers.len() == 0 {
        let mut m = String::from_str("no layer named \"");
        m.append(name.as_str());
        m.append("\"");
        return Err(Error::Usage(m));
    }
    Ok(layers)
}

} // verus!
