//! Blocks that bring codes of their own.
use vstd::prelude::*;

use super::gzip::{
    blocks, code_length_lengths, dynamic_codes, length_run, length_table, one_block, run_of,
    take_bits, CL_ORDER,
};
use super::tokens::{
    bit_at, expanded, is_code, is_token, law_code_is_decoded, law_tokens_expand, lemma_bit,
    lemma_field, low_first, reaches, Token,
};
use crate::error::Failure;

verus! {

// --- runs of lengths -----------------------------------------------------------------------

/// A run of code lengths.
pub enum Run {
    /// One length.
    One(u8),
    /// The length before, again.
    Again(nat),
    /// A few zeros.
    Zeros(nat),
    /// Many zeros.
    ManyZeros(nat),
}

/// The lengths with those of a run behind them.
pub open spec fn with_run(so_far: Seq<u8>, r: Run) -> Seq<u8> {
    match r {
        Run::One(v) => so_far.push(v),
        Run::Again(n) => so_far + Seq::new(n, |i: int| so_far.last()),
        Run::Zeros(n) => so_far + Seq::new(n, |i: int| 0u8),
        Run::ManyZeros(n) => so_far + Seq::new(n, |i: int| 0u8),
    }
}

/// Whether a symbol with a number behind it stands from `p` to `q`.
pub open spec fn is_counted(
    cl: Seq<u8>,
    data: Seq<u8>,
    p: int,
    q: int,
    symbol: int,
    bits: nat,
    n: int,
) -> bool {
    let a = p + cl[symbol];
    &&& is_code(cl, data, p, a, symbol)
    &&& q == a + bits <= 8 * data.len()
    &&& low_first(data, a, bits) == n
}

/// Whether a run stands from `p` to `q`: a length below sixteen by its own symbol, three to six
/// times the length before by the next one, three to ten zeros and eleven to 138 by the last two.
pub open spec fn is_run(cl: Seq<u8>, data: Seq<u8>, p: int, q: int, r: Run) -> bool {
    match r {
        Run::One(v) => v < 16 && is_code(cl, data, p, q, v as int),
        Run::Again(n) => is_counted(cl, data, p, q, 16, 2, n - 3),
        Run::Zeros(n) => is_counted(cl, data, p, q, 17, 3, n - 3),
        Run::ManyZeros(n) => is_counted(cl, data, p, q, 18, 7, n - 11),
    }
}

/// The lengths with those of the runs from the `i`th on behind them.
pub open spec fn with_runs(so_far: Seq<u8>, runs: Seq<Run>, i: int) -> Seq<u8>
    decreases runs.len() - i,
{
    if i < 0 || i >= runs.len() {
        so_far
    } else {
        with_runs(with_run(so_far, runs[i]), runs, i + 1)
    }
}

/// Whether the first of some runs is a length or zeros.
pub open spec fn starts_anew(runs: Seq<Run>) -> bool {
    runs.len() > 0 && !(runs[0] is Again)
}

proof fn lemma_run(cl: Seq<u8>, data: Seq<u8>, p: int, q: int, r: Run, so_far: Seq<u8>)
    requires
        cl.len() == 19,
        is_run(cl, data, p, q, r),
        so_far.len() > 0 || !(r is Again),
    ensures
        length_run(cl, data, p, so_far) matches Ok((to, run)) && to == q && run.len() > 0 && so_far
            + run == with_run(so_far, r),
{
    match r {
        Run::One(v) => {
            law_code_is_decoded(cl, data, p, q, v as int);
            assert(so_far + seq![v] =~= so_far.push(v));
        },
        Run::Again(n) => {
            let a = p + cl[16];
            law_code_is_decoded(cl, data, p, a, 16);
            lemma_field(data, a, 2);
            assert(run_of(so_far.last(), n) =~= Seq::new(n, |i: int| so_far.last()));
        },
        Run::Zeros(n) => {
            let a = p + cl[17];
            law_code_is_decoded(cl, data, p, a, 17);
            lemma_field(data, a, 3);
            assert(run_of(0, n) =~= Seq::new(n, |i: int| 0u8));
        },
        Run::ManyZeros(n) => {
            let a = p + cl[18];
            law_code_is_decoded(cl, data, p, a, 18);
            lemma_field(data, a, 7);
            assert(run_of(0, n) =~= Seq::new(n, |i: int| 0u8));
        },
    }
}

proof fn lemma_runs_grow(so_far: Seq<u8>, runs: Seq<Run>, i: int)
    requires
        0 <= i <= runs.len(),
    ensures
        so_far.len() <= with_runs(so_far, runs, i).len(),
    decreases runs.len() - i,
{
    if i < runs.len() {
        lemma_runs_grow(with_run(so_far, runs[i]), runs, i + 1);
    }
}

proof fn lemma_runs(
    cl: Seq<u8>,
    data: Seq<u8>,
    runs: Seq<Run>,
    places: Seq<int>,
    k: int,
    so_far: Seq<u8>,
    total: nat,
)
    requires
        cl.len() == 19,
        places.len() == runs.len() + 1,
        forall|i: int|
            0 <= i < runs.len() ==> is_run(
                cl,
                data,
                #[trigger] places[i],
                places[i + 1],
                runs[i],
            ),
        0 <= k <= runs.len(),
        so_far.len() > 0 || k == 0 && starts_anew(runs),
        with_runs(so_far, runs, k).len() == total,
    ensures
        length_table(cl, data, places[k], so_far, total) == Ok::<(int, Seq<u8>), Failure>(
            (places.last(), with_runs(so_far, runs, k)),
        ),
    decreases runs.len() - k,
{
    if k < runs.len() {
        let r = runs[k];
        let p = places[k];
        let q = places[k + 1];
        assert(is_run(cl, data, places[k], places[k + 1], r));
        lemma_run(cl, data, p, q, r, so_far);
        let next = with_run(so_far, r);
        lemma_runs_grow(next, runs, k + 1);
        assert(next.len() > so_far.len());
        lemma_runs(cl, data, runs, places, k + 1, next, total);
    }
}

// --- the code of the lengths ---------------------------------------------------------------

/// The symbol whose code length is said in the `k`th place: the three of the runs, zero, and
/// the others from eight outwards, the higher one first.
pub open spec fn said_in(k: int) -> int {
    if k < 3 {
        16 + k
    } else if k == 3 {
        0
    } else if k % 2 == 0 {
        8 + (k - 4) / 2
    } else {
        7 - (k - 5) / 2
    }
}

/// The place in which a symbol's code length is said.
spec fn place_of(s: int) -> int {
    if s >= 16 {
        s - 16
    } else if s == 0 {
        3
    } else if s >= 8 {
        4 + 2 * (s - 8)
    } else {
        5 + 2 * (7 - s)
    }
}

proof fn lemma_order(k: int)
    requires
        0 <= k < 19,
    ensures
        CL_ORDER[k] == said_in(k),
        0 <= said_in(k) < 19,
        place_of(said_in(k)) == k,
{
}

proof fn lemma_said(data: Seq<u8>, p: int, n: nat)
    requires
        n <= 19,
        0 <= p,
        p + 3 * n <= 8 * data.len(),
    ensures
        code_length_lengths(data, p, n).len() == 19,
        forall|k: int|
            0 <= k < 19 ==> code_length_lengths(data, p, n)[#[trigger] said_in(k)] == (if k < n {
                low_first(data, p + 3 * k, 3) as u8
            } else {
                0u8
            }),
    decreases n,
{
    if n > 0 {
        let m = (n - 1) as nat;
        let before = code_length_lengths(data, p, m);
        lemma_said(data, p, m);
        lemma_order(m as int);
        lemma_field(data, p + 3 * m, 3);
        assert forall|k: int| 0 <= k < 19 implies code_length_lengths(data, p, n)[
        #[trigger] said_in(k)] == (if k < n {
            low_first(data, p + 3 * k, 3) as u8
        } else {
            0u8
        }) by {
            lemma_order(k);
            if k != m {
                assert(said_in(k) != said_in(m as int));
            }
        }
    } else {
        assert forall|k: int| 0 <= k < 19 implies code_length_lengths(data, p, n)[
        #[trigger] said_in(k)] == 0u8 by {
            lemma_order(k);
        }
    }
}

/// Whether the description of two codes stands from `p` on: how many lengths there are of
/// each, how many of the code of the lengths, and those in three bits each.
pub open spec fn is_description(
    data: Seq<u8>,
    p: int,
    cl: Seq<u8>,
    count: int,
    lit: nat,
    dist: nat,
) -> bool {
    &&& 0 <= p
    &&& 4 <= count <= 19
    &&& p + 14 + 3 * count <= 8 * data.len()
    &&& low_first(data, p, 5) == lit - 257
    &&& low_first(data, p + 5, 5) == dist - 1
    &&& low_first(data, p + 10, 4) == count - 4
    &&& cl.len() == 19
    &&& forall|k: int|
        0 <= k < 19 ==> cl[#[trigger] said_in(k)] == (if k < count {
            low_first(data, p + 14 + 3 * k, 3)
        } else {
            0
        })
}

proof fn lemma_small(data: Seq<u8>, p: int)
    ensures
        low_first(data, p, 3) < 8,
{
    assert(low_first(data, p + 3, 0) == 0);
    assert(low_first(data, p + 2, 1) < 2);
    assert(low_first(data, p + 1, 2) < 4);
}

/// The codes of a block are those that it describes: the lengths of the one, and behind them
/// those of the other, in runs.
pub proof fn law_codes_are_described(
    data: Seq<u8>,
    p: int,
    cl: Seq<u8>,
    count: int,
    lit: Seq<u8>,
    dist: Seq<u8>,
    runs: Seq<Run>,
    places: Seq<int>,
)
    requires
        is_description(data, p, cl, count, lit.len(), dist.len()),
        starts_anew(runs),
        places.len() == runs.len() + 1,
        places[0] == p + 14 + 3 * count,
        forall|i: int|
            0 <= i < runs.len() ==> is_run(
                cl,
                data,
                #[trigger] places[i],
                places[i + 1],
                runs[i],
            ),
        with_runs(Seq::empty(), runs, 0) == lit + dist,
    ensures
        dynamic_codes(data, p) == Ok::<(int, Seq<u8>, Seq<u8>), Failure>(
            (places.last(), lit, dist),
        ),
{
    lemma_field(data, p, 5);
    lemma_field(data, p + 5, 5);
    lemma_field(data, p + 10, 4);
    let found = code_length_lengths(data, p + 14, count as nat);
    lemma_said(data, p + 14, count as nat);
    assert forall|s: int| 0 <= s < 19 implies #[trigger] found[s] == cl[s] by {
        let k = place_of(s);
        assert(0 <= k < 19 && said_in(k) == s);
        lemma_small(data, p + 14 + 3 * k);
        assert(cl[said_in(k)] == found[said_in(k)]);
    }
    assert(found =~= cl);
    lemma_runs(cl, data, runs, places, 0, Seq::empty(), (lit + dist).len());
    assert((lit + dist).take(lit.len() as int) =~= lit);
    assert((lit + dist).skip(lit.len() as int) =~= dist);
}

/// A final block with codes of its own is what its tokens expand to.
pub proof fn law_described_block_expands(
    data: Seq<u8>,
    cl: Seq<u8>,
    count: int,
    lit: Seq<u8>,
    dist: Seq<u8>,
    runs: Seq<Run>,
    places: Seq<int>,
    tokens: Seq<Token>,
    token_places: Seq<int>,
    end: int,
)
    requires
        data.len() > 0,
        bit_at(data, 0) == 1,
        low_first(data, 1, 2) == 2,
        is_description(data, 3, cl, count, lit.len(), dist.len()),
        starts_anew(runs),
        places.len() == runs.len() + 1,
        places[0] == 17 + 3 * count,
        forall|i: int|
            0 <= i < runs.len() ==> is_run(
                cl,
                data,
                #[trigger] places[i],
                places[i + 1],
                runs[i],
            ),
        with_runs(Seq::empty(), runs, 0) == lit + dist,
        token_places.len() == tokens.len() + 1,
        token_places[0] == places.last(),
        forall|i: int|
            0 <= i < tokens.len() ==> is_token(
                lit,
                dist,
                data,
                #[trigger] token_places[i],
                token_places[i + 1],
                tokens[i],
            ),
        is_code(lit, data, token_places.last(), end, 256),
        reaches(Seq::empty(), tokens, 0),
    ensures
        blocks(data, 0, Seq::empty()) == Ok::<Seq<u8>, Failure>(
            expanded(Seq::empty(), tokens, 0),
        ),
{
    lemma_bit(data, 0);
    lemma_field(data, 1, 2);
    assert(take_bits(data, 1, 2) == Ok::<nat, Failure>(2));
    law_codes_are_described(data, 3, cl, count, lit, dist, runs, places);
    assert(lit.len() <= 257 + 31) by {
        lemma_five(data, 3);
    }
    assert(dist.len() <= 1 + 31) by {
        lemma_five(data, 8);
    }
    law_tokens_expand(lit, dist, data, tokens, token_places, end, 0, Seq::empty());
    assert(one_block(data, 1, Seq::empty()) == Ok::<(int, Seq<u8>), Failure>(
        (end, expanded(Seq::empty(), tokens, 0)),
    ));
}

proof fn lemma_five(data: Seq<u8>, p: int)
    ensures
        low_first(data, p, 5) < 32,
{
    lemma_small(data, p + 2);
    assert(low_first(data, p + 1, 4) < 16);
}

} // verus!
