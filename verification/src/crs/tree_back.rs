//! What is read of a definition that is written out.
use vstd::prelude::*;

use super::layout::{law_quoted_text_is_one_token, lemma_tokens_of_suffix, lemma_word_end_is};
use super::wkt::{branches_from, ends_word, node_at, tokens, tree_of, Branch, Tok, Tree};

verus! {

// --- writing -------------------------------------------------------------------------------

/// A node as it is written: `KEYWORD[item,item,...]`.
pub open spec fn tree_text(t: Tree) -> Seq<char>
    decreases t,
{
    t.keyword + seq!['['] + branches_text(t.items) + seq![']']
}

/// Items with commas between them.
pub open spec fn branches_text(items: Seq<Branch>) -> Seq<char>
    decreases items,
{
    if items.len() == 0 {
        Seq::empty()
    } else if items.len() == 1 {
        branch_text(items[0])
    } else {
        branch_text(items[0]) + seq![','] + branches_text(items.drop_first())
    }
}

/// An item as it is written: a node, a text in quotes, or a bare word.
pub open spec fn branch_text(b: Branch) -> Seq<char>
    decreases b,
{
    match b {
        Branch::Node(t) => tree_text(t),
        Branch::Str(s) => seq!['"'] + s + seq!['"'],
        Branch::Word(s) => s,
    }
}

/// Whether a text is a bare word: it has a character, and no bracket, comma, quote or white
/// space.
pub open spec fn is_word(w: Seq<char>) -> bool {
    w.len() > 0 && forall|i: int| 0 <= i < w.len() ==> !is_delimiter(#[trigger] w[i])
}

/// Whether a character is a bracket, a comma, a quote or white space.
pub open spec fn is_delimiter(c: char) -> bool {
    ||| c == '[' || c == ']' || c == '(' || c == ')' || c == ',' || c == '"'
    ||| c == ' ' || c == '\t' || c == '\n' || c == '\r' || c == '\x0c'
}

/// Whether a node can be written: its keyword and its words are words, and its texts have
/// no quotes.
pub open spec fn is_writable(t: Tree) -> bool
    decreases t,
{
    is_word(t.keyword) && forall|i: int|
        0 <= i < t.items.len() ==> is_writable_branch(#[trigger] t.items[i])
}

pub open spec fn is_writable_branch(b: Branch) -> bool
    decreases b,
{
    match b {
        Branch::Node(t) => is_writable(t),
        Branch::Str(s) => !s.contains('"'),
        Branch::Word(s) => is_word(s),
    }
}

// --- tokens --------------------------------------------------------------------------------

spec fn tree_toks(t: Tree) -> Seq<Tok>
    decreases t,
{
    seq![Tok::Word(t.keyword), Tok::Open] + branches_toks(t.items) + seq![Tok::Close]
}

spec fn branches_toks(items: Seq<Branch>) -> Seq<Tok>
    decreases items,
{
    if items.len() == 0 {
        Seq::empty()
    } else if items.len() == 1 {
        branch_toks(items[0])
    } else {
        branch_toks(items[0]) + seq![Tok::Comma] + branches_toks(items.drop_first())
    }
}

spec fn branch_toks(b: Branch) -> Seq<Tok>
    decreases b,
{
    match b {
        Branch::Node(t) => tree_toks(t),
        Branch::Str(s) => seq![Tok::Str(s)],
        Branch::Word(s) => seq![Tok::Word(s)],
    }
}

proof fn lemma_mark(c: char, rest: Seq<char>)
    requires
        c == '[' || c == ']' || c == ',',
    ensures
        tokens(seq![c] + rest) == seq![
            if c == '[' {
                Tok::Open
            } else if c == ']' {
                Tok::Close
            } else {
                Tok::Comma
            },
        ] + tokens(rest),
{
    lemma_tokens_of_suffix(seq![c], rest, 0);
    assert((seq![c] + rest)[0] == c);
}

proof fn lemma_word(w: Seq<char>, rest: Seq<char>)
    requires
        is_word(w),
        rest.len() == 0 || rest[0] == '[' || rest[0] == ']' || rest[0] == ',',
    ensures
        tokens(w + rest) == seq![Tok::Word(w)] + tokens(rest),
{
    let s = w + rest;
    let q = w.len() as int;
    assert forall|i: int| 0 <= i < q implies !ends_word(#[trigger] s[i]) by {
        assert(s[i] == w[i]);
        assert(!is_delimiter(w[i]));
    }
    if q < s.len() {
        assert(s[q] == rest[0]);
    }
    lemma_word_end_is(s, 0, q);
    assert(!ends_word(s[0]));
    assert(s.subrange(0, q) =~= w);
    lemma_tokens_of_suffix(w, rest, 0);
}

proof fn lemma_tree_tokens(t: Tree, rest: Seq<char>)
    requires
        is_writable(t),
    ensures
        tokens(tree_text(t) + rest) == tree_toks(t) + tokens(rest),
    decreases t, 1nat,
{
    let inner = branches_text(t.items);
    let end = seq![']'] + rest;
    let middle = inner + end;
    let start = seq!['['] + middle;
    assert(tree_text(t) + rest =~= t.keyword + start);
    lemma_word(t.keyword, start);
    lemma_mark('[', middle);
    lemma_branches_tokens(t.items, end);
    lemma_mark(']', rest);
    let a = Tok::Word(t.keyword);
    let b = branches_toks(t.items);
    let c = tokens(rest);
    assert(seq![a] + (seq![Tok::Open] + (b + (seq![Tok::Close] + c))) =~= seq![a, Tok::Open] + b
        + seq![Tok::Close] + c);
}

proof fn lemma_branches_tokens(items: Seq<Branch>, rest: Seq<char>)
    requires
        forall|i: int| 0 <= i < items.len() ==> is_writable_branch(#[trigger] items[i]),
        rest.len() > 0 && rest[0] == ']',
    ensures
        tokens(branches_text(items) + rest) == branches_toks(items) + tokens(rest),
    decreases items, 0nat,
{
    if items.len() == 0 {
        assert(branches_text(items) + rest =~= rest);
        assert(branches_toks(items) + tokens(rest) =~= tokens(rest));
    } else if items.len() == 1 {
        lemma_branch_tokens(items[0], rest);
    } else {
        let tail = items.drop_first();
        assert forall|i: int| 0 <= i < tail.len() implies is_writable_branch(#[trigger] tail[i]) by {
            assert(tail[i] == items[i + 1]);
        }
        let after = branches_text(tail) + rest;
        lemma_branches_tokens(tail, rest);
        lemma_mark(',', after);
        lemma_branch_tokens(items[0], seq![','] + after);
        let first = branch_text(items[0]);
        assert(branches_text(items) + rest =~= first + (seq![','] + after));
        let a = branch_toks(items[0]);
        let b = branches_toks(tail);
        let c = tokens(rest);
        assert(a + (seq![Tok::Comma] + (b + c)) =~= a + seq![Tok::Comma] + b + c);
    }
}

proof fn lemma_branch_tokens(b: Branch, rest: Seq<char>)
    requires
        is_writable_branch(b),
        rest.len() > 0 && (rest[0] == ']' || rest[0] == ','),
    ensures
        tokens(branch_text(b) + rest) == branch_toks(b) + tokens(rest),
    decreases b, 2nat,
{
    match b {
        Branch::Node(t) => {
            lemma_tree_tokens(t, rest);
        },
        Branch::Str(s) => {
            law_quoted_text_is_one_token(s, rest);
        },
        Branch::Word(s) => {
            lemma_word(s, rest);
        },
    }
}

// --- reading -------------------------------------------------------------------------------

proof fn lemma_tree_reads(before: Seq<Tok>, t: Tree, after: Seq<Tok>)
    ensures
        node_at(before + tree_toks(t) + after, before.len() as int) == Some(
            (t, (before.len() + tree_toks(t).len()) as int),
        ),
    decreases t, 1nat,
{
    let all = before + tree_toks(t) + after;
    let p = before.len() as int;
    let head = before + seq![Tok::Word(t.keyword), Tok::Open];
    let b = branches_toks(t.items);
    assert(all =~= head + b + (seq![Tok::Close] + after));
    assert(all[p] == Tok::Word(t.keyword) && all[p + 1] == Tok::Open);
    lemma_branches_read(head, t.items, after, Seq::empty());
    assert(Seq::<Branch>::empty() + t.items =~= t.items);
}

proof fn lemma_branches_read(
    before: Seq<Tok>,
    items: Seq<Branch>,
    after: Seq<Tok>,
    so_far: Seq<Branch>,
)
    ensures
        branches_from(
            before + branches_toks(items) + (seq![Tok::Close] + after),
            before.len() as int,
            so_far,
        ) == Some((so_far + items, (before.len() + branches_toks(items).len() + 1) as int)),
    decreases items, 0nat,
{
    let end = seq![Tok::Close] + after;
    let all = before + branches_toks(items) + end;
    let p = before.len() as int;
    if items.len() == 0 {
        assert(all[p] == end[0]);
        assert(so_far + items =~= so_far);
    } else {
        let first = branch_toks(items[0]);
        let tail = items.drop_first();
        let rest = if items.len() == 1 {
            end
        } else {
            seq![Tok::Comma] + branches_toks(tail) + end
        };
        assert(all =~= before + first + rest);
        lemma_branch_reads(before, items[0], rest, so_far);
        let longer = so_far.push(items[0]);
        let q = p + first.len();
        if items.len() == 1 {
            assert(all[q] == end[0]);
            assert(longer =~= so_far + items);
        } else {
            assert(all[q] == rest[0]);
            let start = before + first + seq![Tok::Comma];
            assert(all =~= start + branches_toks(tail) + end);
            lemma_branches_read(start, tail, after, longer);
            assert(longer + tail =~= so_far + items);
        }
    }
}

/// One item is read, and then what follows it.
proof fn lemma_branch_reads(before: Seq<Tok>, b: Branch, rest: Seq<Tok>, so_far: Seq<Branch>)
    requires
        rest.len() > 0 && rest[0] !is Open,
    ensures
        branches_from(before + branch_toks(b) + rest, before.len() as int, so_far)
            == branches_from(
            before + branch_toks(b) + rest,
            (before.len() + branch_toks(b).len()) as int,
            so_far.push(b),
        ),
    decreases b, 2nat,
{
    let all = before + branch_toks(b) + rest;
    let p = before.len() as int;
    match b {
        Branch::Node(t) => {
            lemma_tree_reads(before, t, rest);
            let toks = tree_toks(t);
            assert(toks[0] == Tok::Word(t.keyword) && toks[1] == Tok::Open);
            assert(all[p] == toks[0] && all[p + 1] == toks[1]);
        },
        Branch::Str(s) => {
            assert(all[p] == Tok::Str(s));
        },
        Branch::Word(s) => {
            assert(all[p] == Tok::Word(s));
            assert(all[p + 1] == rest[0]);
        },
    }
}

/// A definition is read as it is written: its keyword, and all its items in their order,
/// whatever stands behind it.
pub proof fn law_definition_reads_back(t: Tree, rest: Seq<char>)
    requires
        is_writable(t),
    ensures
        tree_of(tree_text(t) + rest) == Some(t),
{
    lemma_tree_tokens(t, rest);
    lemma_tree_reads(Seq::empty(), t, tokens(rest));
    assert(Seq::<Tok>::empty() + tree_toks(t) + tokens(rest) =~= tree_toks(t) + tokens(rest));
}

} // verus!
