//! Back references into the bytes already produced.
use vstd::prelude::*;

verus! {

/// `out` extended by `count` bytes, each a copy of the byte `distance` places
/// before it. The copy may overlap what it produces.
pub open spec fn copied(out: Seq<u8>, distance: int, count: nat) -> Seq<u8>
    decreases count,
{
    if count == 0 {
        out
    } else {
        let before = copied(out, distance, (count - 1) as nat);
        before.push(before[before.len() - distance])
    }
}

/// A back reference repeats the last `distance` bytes with that period, and
/// leaves what was there before it alone.
pub proof fn law_copy_is_periodic(out: Seq<u8>, distance: int, count: nat)
    requires
        0 < distance <= out.len(),
    ensures
        copied(out, distance, count).len() == out.len() + count,
        copied(out, distance, count).take(out.len() as int) == out,
        forall|i: int|
            out.len() <= i < out.len() + count ==> #[trigger] copied(out, distance, count)[i]
                == copied(out, distance, count)[i - distance],
    decreases count,
{
    if count > 0 {
        law_copy_is_periodic(out, distance, (count - 1) as nat);
        let before = copied(out, distance, (count - 1) as nat);
        let after = copied(out, distance, count);
        assert(after.take(out.len() as int) == before.take(out.len() as int));
        assert forall|i: int| out.len() <= i < out.len() + count implies #[trigger] after[i]
            == after[i - distance] by {
            if i < out.len() + count - 1 {
                assert(after[i] == before[i]);
                assert(after[i - distance] == before[i - distance]);
            }
        }
    } else {
        assert(out.take(out.len() as int) == out);
    }
}

/// Copy `count` bytes from `distance` places back to the end of `out`.
pub fn copy_back(out: &mut Vec<u8>, distance: usize, count: u128)
    requires
        0 < distance <= old(out)@.len(),
    ensures
        final(out)@ == copied(old(out)@, distance as int, count as nat),
{
    let ghost start = out@;
    let mut k: u128 = 0;
    while k < count
        invariant
            0 < distance <= start.len() <= out@.len(),
            k <= count,
            out@ == copied(start, distance as int, k as nat),
        decreases count - k,
    {
        let b = out[out.len() - distance];
        out.push(b);
        k += 1;
    }
}

} // verus!
