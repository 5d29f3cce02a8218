//! Sorting pairs of numbers.
use vstd::multiset::*;
use vstd::prelude::*;
use vstd::seq_lib::*;

verus! {

/// Whether a pair does not come after another: by the first components, and by
/// the second ones where those are equal.
pub open spec fn in_turn(a: (i64, i64), b: (i64, i64)) -> bool {
    a.0 < b.0 || (a.0 == b.0 && a.1 <= b.1)
}

/// Whether pairs do not descend.
pub open spec fn is_sorted(s: Seq<(i64, i64)>) -> bool {
    forall|i: int, j: int| 0 <= i < j < s.len() ==> in_turn(#[trigger] s[i], #[trigger] s[j])
}

/// Whether one list is another, sorted.
pub open spec fn is_sorting_of(r: Seq<(i64, i64)>, s: Seq<(i64, i64)>) -> bool {
    is_sorted(r) && r.to_multiset() == s.to_multiset()
}

/// Merge two sorted lists.
fn merged(a: &Vec<(i64, i64)>, b: &Vec<(i64, i64)>) -> (r: Vec<(i64, i64)>)
    requires
        is_sorted(a@),
        is_sorted(b@),
    ensures
        is_sorted(r@),
        r@.to_multiset() == a@.to_multiset().add(b@.to_multiset()),
{
    let mut r: Vec<(i64, i64)> = Vec::new();
    let mut i: usize = 0;
    let mut j: usize = 0;
    proof {
        broadcast use group_to_multiset_ensures;

        assert(a@.take(0) =~= Seq::empty());
        assert(b@.take(0) =~= Seq::empty());
        assert(r@ =~= Seq::empty());
        assert(a@.take(0).to_multiset().add(b@.take(0).to_multiset()) =~= r@.to_multiset());
    }
    while i < a.len() || j < b.len()
        invariant
            i <= a@.len(),
            j <= b@.len(),
            is_sorted(a@),
            is_sorted(b@),
            is_sorted(r@),
            forall|k: int| 0 <= k < r@.len() && i < a@.len() ==> in_turn(#[trigger] r@[k], a@[i as int]),
            forall|k: int| 0 <= k < r@.len() && j < b@.len() ==> in_turn(#[trigger] r@[k], b@[j as int]),
            r@.to_multiset() == a@.take(i as int).to_multiset().add(
                b@.take(j as int).to_multiset(),
            ),
        decreases a@.len() - i + b@.len() - j,
    {
        broadcast use group_to_multiset_ensures;

        let ghost before = r@;
        if j >= b.len() || (i < a.len() && (a[i].0 < b[j].0 || (a[i].0 == b[j].0 && a[i].1 <= b[j].1))) {
            r.push(a[i]);
            assert(a@.take(i + 1) =~= a@.take(i as int).push(a@[i as int]));
            assert(r@.to_multiset() =~= a@.take(i + 1).to_multiset().add(
                b@.take(j as int).to_multiset(),
            ));
            i += 1;
        } else {
            r.push(b[j]);
            assert(b@.take(j + 1) =~= b@.take(j as int).push(b@[j as int]));
            assert(r@.to_multiset() =~= a@.take(i as int).to_multiset().add(
                b@.take(j + 1).to_multiset(),
            ));
            j += 1;
        }
    }
    assert(a@.take(i as int) =~= a@);
    assert(b@.take(j as int) =~= b@);
    r
}

fn sorted_between(v: &Vec<(i64, i64)>, from: usize, to: usize) -> (r: Vec<(i64, i64)>)
    requires
        from <= to <= v@.len(),
    ensures
        is_sorting_of(r@, v@.subrange(from as int, to as int)),
    decreases to - from,
{
    let ghost all = v@.subrange(from as int, to as int);
    if to - from <= 1 {
        let mut r: Vec<(i64, i64)> = Vec::new();
        if from < to {
            r.push(v[from]);
        }
        assert(r@ =~= all);
        return r;
    }
    let mid: usize = from + (to - from) / 2;
    let a = sorted_between(v, from, mid);
    let b = sorted_between(v, mid, to);
    proof {
        lemma_multiset_commutative(
            v@.subrange(from as int, mid as int),
            v@.subrange(mid as int, to as int),
        );
        assert(all =~= v@.subrange(from as int, mid as int) + v@.subrange(mid as int, to as int));
    }
    merged(&a, &b)
}

/// The pairs, sorted.
pub fn sorted(v: &Vec<(i64, i64)>) -> (r: Vec<(i64, i64)>)
    ensures
        is_sorting_of(r@, v@),
{
    assert(v@.subrange(0, v@.len() as int) =~= v@);
    sorted_between(v, 0, v.len())
}

} // verus!
