//! The words and brackets of a WKT definition, and the tree that they make.
//!
//! WKT, in its first and its second version, is a tree of
//! `KEYWORD[value, value, ...]` nodes. The reading is lenient: round and square
//! brackets are the same, and whatever is no delimiter and no white space runs
//! into one word.
use vstd::prelude::*;

use crate::text::{ascii_white, chars_of, is_ascii_white, lower_text, same_text, text_between, to_lower};

verus! {

/// A token of a WKT definition.
pub enum WktTok {
    Open,
    Close,
    Comma,
    Str(String),
    Word(String),
}

/// The mathematical form of a token.
pub enum Tok {
    Open,
    Close,
    Comma,
    Str(Seq<char>),
    Word(Seq<char>),
}

impl View for WktTok {
    type V = Tok;

    open spec fn view(&self) -> Tok {
        match self {
            WktTok::Open => Tok::Open,
            WktTok::Close => Tok::Close,
            WktTok::Comma => Tok::Comma,
            WktTok::Str(s) => Tok::Str(s@),
            WktTok::Word(s) => Tok::Word(s@),
        }
    }
}

pub open spec fn toks_view(toks: Seq<WktTok>) -> Seq<Tok> {
    toks.map_values(|t: WktTok| t@)
}

/// Whether a character cannot stand inside a word.
pub open spec fn ends_word(c: char) -> bool {
    ||| c == '['
    ||| c == ']'
    ||| c == '('
    ||| c == ')'
    ||| c == ','
    ||| c == '"'
    ||| is_ascii_white(c)
}

/// Where the quoted text from `p` ends: at the next quote, or at the end.
pub open spec fn quote_end(s: Seq<char>, p: int) -> int
    decreases s.len() - p,
{
    if p >= s.len() || s[p] == '"' {
        p
    } else {
        quote_end(s, p + 1)
    }
}

/// Where the word from `p` ends.
pub open spec fn word_end(s: Seq<char>, p: int) -> int
    decreases s.len() - p,
{
    if p >= s.len() || ends_word(s[p]) {
        p
    } else {
        word_end(s, p + 1)
    }
}

/// The tokens of `s` from `p` on.
pub open spec fn tokens_from(s: Seq<char>, p: int) -> Seq<Tok>
    decreases s.len() - p,
{
    if p < 0 || p >= s.len() {
        Seq::empty()
    } else if s[p] == '[' || s[p] == '(' {
        seq![Tok::Open] + tokens_from(s, p + 1)
    } else if s[p] == ']' || s[p] == ')' {
        seq![Tok::Close] + tokens_from(s, p + 1)
    } else if s[p] == ',' {
        seq![Tok::Comma] + tokens_from(s, p + 1)
    } else if s[p] == '"' {
        let q = quote_end(s, p + 1);
        if q < p || q >= s.len() {
            seq![Tok::Str(s.skip(p + 1))]
        } else {
            seq![Tok::Str(s.subrange(p + 1, q))] + tokens_from(s, q + 1)
        }
    } else if is_ascii_white(s[p]) {
        tokens_from(s, p + 1)
    } else {
        let q = word_end(s, p);
        if q <= p || q > s.len() {
            Seq::empty()
        } else {
            seq![Tok::Word(s.subrange(p, q))] + tokens_from(s, q)
        }
    }
}

/// The tokens of a text.
pub open spec fn tokens(s: Seq<char>) -> Seq<Tok> {
    tokens_from(s, 0)
}

fn find_quote_end(s: &[char], p: usize) -> (r: usize)
    requires
        p <= s@.len(),
    ensures
        r == quote_end(s@, p as int),
        p <= r <= s@.len(),
{
    let mut i: usize = p;
    while i < s.len() && s[i] != '"'
        invariant
            p <= i <= s@.len(),
            quote_end(s@, p as int) == quote_end(s@, i as int),
        decreases s@.len() - i,
    {
        i += 1;
    }
    i
}

fn is_word_end(c: char) -> (r: bool)
    ensures
        r == ends_word(c),
{
    c == '[' || c == ']' || c == '(' || c == ')' || c == ',' || c == '"' || ascii_white(c)
}

fn find_word_end(s: &[char], p: usize) -> (r: usize)
    requires
        p <= s@.len(),
    ensures
        r == word_end(s@, p as int),
        p <= r <= s@.len(),
        p < s@.len() && !ends_word(s@[p as int]) ==> p < r,
{
    let mut i: usize = p;
    while i < s.len() && !is_word_end(s[i])
        invariant
            p <= i <= s@.len(),
            word_end(s@, p as int) == word_end(s@, i as int),
        decreases s@.len() - i,
    {
        i += 1;
    }
    i
}

/// The tokens of a WKT text.
pub fn tokenize_wkt(text: &str) -> (toks: Vec<WktTok>)
    ensures
        toks_view(toks@) == tokens(text@),
{
    let chars = chars_of(text);
    let s = chars.as_slice();
    let mut toks: Vec<WktTok> = Vec::new();
    let mut i: usize = 0;
    assert(toks_view(toks@) =~= Seq::<Tok>::empty());
    while i < s.len()
        invariant
            s@ == text@,
            i <= s@.len(),
            toks_view(toks@) + tokens_from(text@, i as int) == tokens(text@),
        decreases s@.len() - i,
    {
        let c = s[i];
        let ghost before = toks@;
        let ghost at = i as int;
        if c == '[' || c == '(' {
            toks.push(WktTok::Open);
            i += 1;
        } else if c == ']' || c == ')' {
            toks.push(WktTok::Close);
            i += 1;
        } else if c == ',' {
            toks.push(WktTok::Comma);
            i += 1;
        } else if c == '"' {
            let q = find_quote_end(s, i + 1);
            toks.push(WktTok::Str(text_between(s, i + 1, q)));
            assert(q == s@.len() ==> text@.subrange(i + 1, q as int) =~= text@.skip(i + 1));
            i = if q < s.len() {
                q + 1
            } else {
                q
            };
        } else if ascii_white(c) {
            i += 1;
        } else {
            let q = find_word_end(s, i);
            toks.push(WktTok::Word(text_between(s, i, q)));
            i = q;
        }
        proof {
            if toks@.len() > before.len() {
                assert(toks_view(toks@) =~= toks_view(before) + seq![toks@.last()@]);
            }
            assert(toks_view(toks@) + tokens_from(text@, i as int) =~= toks_view(before)
                + tokens_from(text@, at));
        }
    }
    assert(tokens_from(text@, i as int) =~= Seq::<Tok>::empty());
    toks
}

/// Whether a token is one word, in any ASCII case.
pub open spec fn is_keyword(t: Tok, word: Seq<char>) -> bool {
    t is Word && lower_text(t->Word_0) == lower_text(word)
}

// --- the definition's own identifier ------------------------------------------------

/// How deep the token at `i` stands: the brackets opened before it and not
/// closed.
pub open spec fn depth(toks: Seq<Tok>, i: int) -> int
    decreases i,
{
    if i <= 0 {
        0
    } else {
        depth(toks, i - 1) + match toks[i - 1] {
            Tok::Open => 1int,
            Tok::Close => -1int,
            _ => 0int,
        }
    }
}

/// The authority and code of the identifier that starts at `i`:
/// `AUTHORITY["name","code"]` or `ID["name",code]`.
pub open spec fn identifier_at(toks: Seq<Tok>, i: int) -> Option<(Seq<char>, Seq<char>)> {
    if !(is_keyword(toks[i], "AUTHORITY"@) || is_keyword(toks[i], "ID"@)) {
        None
    } else if i + 4 >= toks.len() {
        None
    } else if !(toks[i + 1] is Open && toks[i + 2] is Str && toks[i + 3] is Comma) {
        None
    } else {
        match toks[i + 4] {
            Tok::Str(c) => Some((toks[i + 2]->Str_0, c)),
            Tok::Word(c) => Some((toks[i + 2]->Str_0, c)),
            _ => None,
        }
    }
}

/// Where the shallowest identifier among the first `n` tokens starts; of several
/// at one depth the last.
pub open spec fn shallowest(toks: Seq<Tok>, n: int) -> Option<int>
    decreases n,
{
    if n <= 0 {
        None
    } else {
        let before = shallowest(toks, n - 1);
        if identifier_at(toks, n - 1) is Some && (before is None || depth(toks, n - 1) <= depth(
            toks,
            before->0,
        )) {
            Some(n - 1)
        } else {
            before
        }
    }
}

/// The authority and code that a definition states of itself.
pub open spec fn own_identifier(toks: Seq<Tok>) -> Option<(Seq<char>, Seq<char>)> {
    match shallowest(toks, toks.len() as int) {
        Some(i) => identifier_at(toks, i),
        None => None,
    }
}

/// The identifier that is picked is the shallowest, and the last of those at its
/// depth; one is picked wherever there is any.
pub proof fn law_identifier_is_shallowest(toks: Seq<Tok>)
    ensures
        match shallowest(toks, toks.len() as int) {
            Some(i) => {
                &&& 0 <= i < toks.len()
                &&& identifier_at(toks, i) is Some
                &&& forall|j: int|
                    0 <= j < toks.len() && (#[trigger] identifier_at(toks, j)) is Some ==> {
                        ||| depth(toks, i) < depth(toks, j)
                        ||| depth(toks, i) == depth(toks, j) && j <= i
                    }
            },
            None => forall|j: int|
                0 <= j < toks.len() ==> (#[trigger] identifier_at(toks, j)) is None,
        },
{
    lemma_shallowest(toks, toks.len() as int);
}

proof fn lemma_shallowest(toks: Seq<Tok>, n: int)
    requires
        0 <= n <= toks.len(),
    ensures
        match shallowest(toks, n) {
            Some(i) => {
                &&& 0 <= i < n
                &&& identifier_at(toks, i) is Some
                &&& forall|j: int| 0 <= j < n && (#[trigger] identifier_at(toks, j)) is Some ==> {
                    ||| depth(toks, i) < depth(toks, j)
                    ||| depth(toks, i) == depth(toks, j) && j <= i
                }
            },
            None => forall|j: int| 0 <= j < n ==> (#[trigger] identifier_at(toks, j)) is None,
        },
    decreases n,
{
    if n > 0 {
        lemma_shallowest(toks, n - 1);
    }
}

/// Whether the token is a given word, in any ASCII case.
pub fn token_is(t: &WktTok, word: &str) -> (r: bool)
    ensures
        r == is_keyword(t@, word@),
{
    match t {
        WktTok::Word(w) => crate::text::same_ignoring_case(w.as_str(), word),
        _ => false,
    }
}

/// The text of a quoted string or a word.
pub open spec fn text_of(t: Tok) -> Option<Seq<char>> {
    match t {
        Tok::Str(s) => Some(s),
        Tok::Word(s) => Some(s),
        _ => None,
    }
}

/// The text of a quoted string or a word.
pub fn token_text(t: &WktTok) -> (r: Option<&str>)
    ensures
        match r {
            Some(s) => text_of(t@) == Some(s@),
            None => text_of(t@) is None,
        },
{
    match t {
        WktTok::Str(s) => Some(s.as_str()),
        WktTok::Word(s) => Some(s.as_str()),
        _ => None,
    }
}

fn read_identifier(toks: &[WktTok], i: usize) -> (r: Option<(&str, &str)>)
    requires
        i < toks@.len(),
    ensures
        match r {
            Some((a, c)) => identifier_at(toks_view(toks@), i as int) == Some((a@, c@)),
            None => identifier_at(toks_view(toks@), i as int) is None,
        },
{
    if !(token_is(&toks[i], "AUTHORITY") || token_is(&toks[i], "ID")) {
        return None;
    }
    assert(toks.len() <= usize::MAX);
    if toks.len() - i <= 4 {
        return None;
    }
    match (&toks[i + 1], &toks[i + 2], &toks[i + 3]) {
        (WktTok::Open, WktTok::Str(authority), WktTok::Comma) => match token_text(&toks[i + 4]) {
            Some(code) => Some((authority.as_str(), code)),
            None => None,
        },
        _ => None,
    }
}

/// The authority and code that a WKT definition states of itself: those of its
/// shallowest `AUTHORITY` or `ID` node, and of several at one depth the last.
pub fn wkt_authority_code(wkt: &str) -> (r: Option<(String, String)>)
    ensures
        match r {
            Some((a, c)) => own_identifier(tokens(wkt@)) == Some((a@, c@)),
            None => own_identifier(tokens(wkt@)) is None,
        },
{
    let toks = tokenize_wkt(wkt);
    let ghost all = toks_view(toks@);
    let mut now: i128 = 0;
    let mut best: Option<usize> = None;
    let mut best_depth: i128 = 0;
    let mut i: usize = 0;
    while i < toks.len()
        invariant
            all == toks_view(toks@),
            i <= toks@.len(),
            now == depth(all, i as int),
            -(i as int) <= now <= i,
            match best {
                Some(b) => {
                    &&& shallowest(all, i as int) == Some(b as int)
                    &&& best_depth == depth(all, b as int)
                    &&& b < i
                    &&& identifier_at(all, b as int) is Some
                },
                None => shallowest(all, i as int) is None,
            },
        decreases toks@.len() - i,
    {
        if read_identifier(toks.as_slice(), i).is_some() && (best.is_none() || now <= best_depth) {
            best = Some(i);
            best_depth = now;
        }
        assert(all[i as int] == toks@[i as int]@);
        match &toks[i] {
            WktTok::Open => {
                now = now + 1;
            },
            WktTok::Close => {
                now = now - 1;
            },
            _ => {},
        }
        i += 1;
    }
    match best {
        Some(b) => match read_identifier(toks.as_slice(), b) {
            Some((a, c)) => Some((String::from_str(a), String::from_str(c))),
            None => None,
        },
        None => None,
    }
}

// --- whether a text is a definition of a reference system ---------------------------

/// The keywords that open the definition of a reference system.
pub open spec fn opens_crs(word: Seq<char>) -> bool {
    let w = lower_text(word);
    ||| w == "geogcs"@
    ||| w == "projcs"@
    ||| w == "geoccs"@
    ||| w == "local_cs"@
    ||| w == "vert_cs"@
    ||| w == "compd_cs"@
    ||| w == "geogcrs"@
    ||| w == "geodcrs"@
    ||| w == "projcrs"@
    ||| w == "vertcrs"@
    ||| w == "engcrs"@
    ||| w == "compoundcrs"@
    ||| w == "boundcrs"@
    ||| w == "timecrs"@
    ||| w == "parametriccrs"@
    ||| w == "derivedprojcrs"@
}

/// Whether the tokens open as the definition of a reference system: one of its
/// keywords and a bracket.
pub open spec fn starts_as_crs(toks: Seq<Tok>) -> bool {
    &&& toks.len() >= 2
    &&& toks[0] is Word
    &&& toks[1] is Open
    &&& opens_crs(toks[0]->Word_0)
}

/// Whether a text opens as the WKT definition of a reference system. This
/// decides what a text is, not whether it is valid.
pub fn is_crs_wkt(text: &str) -> (r: bool)
    ensures
        r == starts_as_crs(tokens(text@)),
{
    let toks = tokenize_wkt(text);
    assert(toks_view(toks@).len() == toks@.len());
    if toks.len() < 2 {
        return false;
    }
    assert(toks_view(toks@)[0] == toks@[0]@);
    assert(toks_view(toks@)[1] == toks@[1]@);
    match (&toks[0], &toks[1]) {
        (WktTok::Word(word), WktTok::Open) => {
            let w = to_lower(word.as_str());
            let w = w.as_str();
            same_text(w, "geogcs") || same_text(w, "projcs") || same_text(w, "geoccs") || same_text(
                w,
                "local_cs",
            ) || same_text(w, "vert_cs") || same_text(w, "compd_cs") || same_text(w, "geogcrs")
                || same_text(w, "geodcrs") || same_text(w, "projcrs") || same_text(w, "vertcrs")
                || same_text(w, "engcrs") || same_text(w, "compoundcrs") || same_text(w, "boundcrs")
                || same_text(w, "timecrs") || same_text(w, "parametriccrs") || same_text(
                w,
                "derivedprojcrs",
            )
        },
        _ => false,
    }
}

// --- the tree ------------------------------------------------------------------------

/// A WKT node: `KEYWORD[item, item, ...]`.
pub struct Node {
    pub keyword: String,
    pub items: Vec<Item>,
}

/// An item of a node: a nested node, a quoted text, or a bare word.
pub enum Item {
    Node(Node),
    Str(String),
    Word(String),
}

/// The mathematical form of a node.
pub struct Tree {
    pub keyword: Seq<char>,
    pub items: Seq<Branch>,
}

/// The mathematical form of an item.
pub enum Branch {
    Node(Tree),
    Str(Seq<char>),
    Word(Seq<char>),
}

impl Node {
    pub open spec fn model(&self) -> Tree
        decreases self,
    {
        Tree {
            keyword: self.keyword@,
            items: Seq::new(
                self.items@.len(),
                |i: int|
                    if 0 <= i < self.items@.len() {
                        self.items@[i].model()
                    } else {
                        arbitrary()
                    },
            ),
        }
    }
}

impl Item {
    pub open spec fn model(&self) -> Branch
        decreases self,
    {
        match self {
            Item::Node(n) => Branch::Node(n.model()),
            Item::Str(s) => Branch::Str(s@),
            Item::Word(s) => Branch::Word(s@),
        }
    }
}

impl View for Node {
    type V = Tree;

    open spec fn view(&self) -> Tree {
        self.model()
    }
}

impl View for Item {
    type V = Branch;

    open spec fn view(&self) -> Branch {
        self.model()
    }
}

pub open spec fn branches_view(items: Seq<Item>) -> Seq<Branch> {
    items.map_values(|i: Item| i@)
}

pub proof fn lemma_node_view(n: Node)
    ensures
        n@.keyword == n.keyword@,
        n@.items == branches_view(n.items@),
{
    assert(n@.items =~= branches_view(n.items@));
}

/// The node that starts at `p`, and where the tokens after it start.
pub open spec fn node_at(toks: Seq<Tok>, p: int) -> Option<(Tree, int)>
    decreases toks.len() - p, 0nat,
{
    if p < 0 || p + 1 >= toks.len() || !(toks[p] is Word) || !(toks[p + 1] is Open) {
        None
    } else {
        match branches_from(toks, p + 2, Seq::empty()) {
            Some((items, q)) => Some((Tree { keyword: toks[p]->Word_0, items }, q)),
            None => None,
        }
    }
}

/// The items from `p` to the closing bracket, after those read before, and where
/// the tokens after the bracket start.
pub open spec fn branches_from(toks: Seq<Tok>, p: int, so_far: Seq<Branch>) -> Option<
    (Seq<Branch>, int),
>
    decreases toks.len() - p, 1nat,
{
    if p < 0 || p >= toks.len() {
        None
    } else {
        match toks[p] {
            Tok::Close => Some((so_far, p + 1)),
            Tok::Comma => branches_from(toks, p + 1, so_far),
            Tok::Open => branches_from(toks, p + 1, so_far),
            Tok::Str(s) => branches_from(toks, p + 1, so_far.push(Branch::Str(s))),
            Tok::Word(s) => if p + 1 < toks.len() && toks[p + 1] is Open {
                match node_at(toks, p) {
                    Some((n, q)) => if q <= p || q > toks.len() {
                        None
                    } else {
                        branches_from(toks, q, so_far.push(Branch::Node(n)))
                    },
                    None => None,
                }
            } else {
                branches_from(toks, p + 1, so_far.push(Branch::Word(s)))
            },
        }
    }
}

/// The tree of a WKT text.
pub open spec fn tree_of(s: Seq<char>) -> Option<Tree> {
    match node_at(tokens(s), 0) {
        Some((n, q)) => Some(n),
        None => None,
    }
}

/// The node that starts at `p`, and where the tokens after it start.
pub fn parse_node(toks: &[WktTok], p: usize) -> (r: Option<(Node, usize)>)
    ensures
        match r {
            Some((n, q)) => {
                &&& node_at(toks_view(toks@), p as int) == Some((n@, q as int))
                &&& p < q <= toks@.len()
            },
            None => node_at(toks_view(toks@), p as int) is None,
        },
    decreases toks@.len() - p,
{
    let ghost all = toks_view(toks@);
    assert(toks.len() <= usize::MAX);
    if p >= toks.len() || toks.len() - p < 2 {
        return None;
    }
    assert(all[p as int] == toks@[p as int]@);
    assert(all[p + 1] == toks@[p + 1]@);
    let keyword = match &toks[p] {
        WktTok::Word(w) => String::from_str(w.as_str()),
        _ => {
            return None;
        },
    };
    match &toks[p + 1] {
        WktTok::Open => {},
        _ => {
            return None;
        },
    }
    let mut items: Vec<Item> = Vec::new();
    let mut i: usize = p + 2;
    assert(branches_view(items@) =~= Seq::<Branch>::empty());
    while i < toks.len()
        invariant
            all == toks_view(toks@),
            p + 2 <= i <= toks@.len(),
            toks@.len() <= usize::MAX,
            p + 1 < toks@.len(),
            all[p as int] == Tok::Word(keyword@),
            all[p + 1] is Open,
            branches_from(all, p + 2, Seq::empty()) == branches_from(
                all,
                i as int,
                branches_view(items@),
            ),
        decreases toks@.len() - i,
    {
        assert(all[i as int] == toks@[i as int]@);
        let ghost before = items@;
        match &toks[i] {
            WktTok::Close => {
                let node = Node { keyword, items };
                proof {
                    lemma_node_view(node);
                }
                return Some((node, i + 1));
            },
            WktTok::Comma => {
                i += 1;
            },
            WktTok::Open => {
                i += 1;
            },
            WktTok::Str(s) => {
                items.push(Item::Str(String::from_str(s.as_str())));
                assert(branches_view(items@) =~= branches_view(before).push(Branch::Str(s@)));
                i += 1;
            },
            WktTok::Word(s) => {
                let nested = i + 1 < toks.len() && (match &toks[i + 1] {
                    WktTok::Open => true,
                    _ => false,
                });
                assert(i + 1 < toks@.len() ==> all[i + 1] == toks@[i + 1]@);
                if nested {
                    match parse_node(toks, i) {
                        Some((n, q)) => {
                            let ghost tree = n@;
                            items.push(Item::Node(n));
                            assert(branches_view(items@) =~= branches_view(before).push(
                                Branch::Node(tree),
                            ));
                            i = q;
                        },
                        None => {
                            return None;
                        },
                    }
                } else {
                    items.push(Item::Word(String::from_str(s.as_str())));
                    assert(branches_view(items@) =~= branches_view(before).push(Branch::Word(s@)));
                    i += 1;
                }
            },
        }
    }
    None
}

/// The tree of a WKT text.
pub fn parse_wkt(text: &str) -> (r: Option<Node>)
    ensures
        match r {
            Some(n) => tree_of(text@) == Some(n@),
            None => tree_of(text@) is None,
        },
{
    let toks = tokenize_wkt(text);
    match parse_node(toks.as_slice(), 0) {
        Some((n, _)) => Some(n),
        None => None,
    }
}

} // verus!
