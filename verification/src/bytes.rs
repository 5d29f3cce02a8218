//! Fixed-width integers as byte strings.
use vstd::prelude::*;

verus! {

/// The low `n` bytes of `v`, least significant first.
pub open spec fn le_bytes(v: nat, n: nat) -> Seq<u8>
    decreases n,
{
    if n == 0 {
        Seq::empty()
    } else {
        seq![(v % 256) as u8] + le_bytes(v / 256, (n - 1) as nat)
    }
}

/// The number whose bytes are `s`, least significant first.
pub open spec fn le_value(s: Seq<u8>) -> nat
    decreases s.len(),
{
    if s.len() == 0 {
        0
    } else {
        s[0] as nat + 256 * le_value(s.drop_first())
    }
}

/// The low `n` bytes of `v`, most significant first.
pub open spec fn be_bytes(v: nat, n: nat) -> Seq<u8> {
    le_bytes(v, n).reverse()
}

/// The number whose bytes are `s`, most significant first.
pub open spec fn be_value(s: Seq<u8>) -> nat {
    le_value(s.reverse())
}

/// 256 to the power `n`.
pub open spec fn pow256(n: nat) -> nat
    decreases n,
{
    if n == 0 {
        1
    } else {
        256 * pow256((n - 1) as nat)
    }
}

pub proof fn lemma_le_bytes_len(v: nat, n: nat)
    ensures
        le_bytes(v, n).len() == n,
    decreases n,
{
    if n > 0 {
        lemma_le_bytes_len(v / 256, (n - 1) as nat);
    }
}

pub proof fn lemma_pow256_values()
    ensures
        pow256(1) == 0x100,
        pow256(2) == 0x1_0000,
        pow256(4) == 0x1_0000_0000,
        pow256(8) == 0x1_0000_0000_0000_0000,
{
    reveal_with_fuel(pow256, 9);
}

/// A number that fits is recovered from its little-endian bytes.
pub proof fn law_le_bytes_read_back(v: nat, n: nat)
    requires
        v < pow256(n),
    ensures
        le_bytes(v, n).len() == n,
        le_value(le_bytes(v, n)) == v,
    decreases n,
{
    if n > 0 {
        assert(v / 256 < pow256((n - 1) as nat));
        law_le_bytes_read_back(v / 256, (n - 1) as nat);
        let rest = le_bytes(v / 256, (n - 1) as nat);
        assert(le_bytes(v, n).drop_first() =~= rest);
    }
}

/// Bytes are recovered from the number they spell.
pub proof fn law_le_value_writes_back(s: Seq<u8>)
    ensures
        le_value(s) < pow256(s.len()),
        le_bytes(le_value(s), s.len()) == s,
    decreases s.len(),
{
    if s.len() > 0 {
        let rest = s.drop_first();
        law_le_value_writes_back(rest);
        assert(le_value(s) / 256 == le_value(rest));
        assert(le_value(s) % 256 == s[0]);
        assert(seq![s[0]] + rest =~= s);
    }
}

/// A number that fits is recovered from its big-endian bytes.
pub proof fn law_be_bytes_read_back(v: nat, n: nat)
    requires
        v < pow256(n),
    ensures
        be_bytes(v, n).len() == n,
        be_value(be_bytes(v, n)) == v,
{
    law_le_bytes_read_back(v, n);
    assert(le_bytes(v, n).reverse().reverse() =~= le_bytes(v, n));
}

/// Read `n` little-endian bytes at `at`.
pub fn read_le(buf: &[u8], at: usize, n: usize) -> (v: u64)
    requires
        at + n <= buf@.len(),
        n <= 8,
    ensures
        v == le_value(buf@.subrange(at as int, at + n)),
        v < pow256(n as nat),
{
    let ghost field = buf@.subrange(at as int, at + n);
    let mut v: u64 = 0;
    let mut i: usize = n;
    proof {
        assert(field.skip(n as int) =~= Seq::<u8>::empty());
        reveal_with_fuel(pow256, 9);
    }
    while i > 0
        invariant
            i <= n <= 8,
            at + n <= buf.len(),
            field == buf@.subrange(at as int, at + n),
            v == le_value(field.skip(i as int)),
            v < pow256((n - i) as nat),
            pow256(8) == 0x1_0000_0000_0000_0000,
        decreases i,
    {
        i -= 1;
        proof {
            assert(field.skip(i as int).drop_first() =~= field.skip(i + 1));
            assert(field.skip(i as int)[0] == buf@[at + i]);
            lemma_pow256_monotone((n - i) as nat, 8);
        }
        v = 256 * v + buf[at + i] as u64;
    }
    assert(field.skip(0) =~= field);
    v
}

pub proof fn lemma_pow256_monotone(a: nat, b: nat)
    requires
        a <= b,
    ensures
        pow256(a) <= pow256(b),
        pow256(a) >= 1,
    decreases b,
{
    if a < b {
        lemma_pow256_monotone(a, (b - 1) as nat);
    } else if a > 0 {
        lemma_pow256_monotone((a - 1) as nat, (b - 1) as nat);
    }
}

/// The low `n` bytes of `v`, least significant first.
pub fn le_vec(v: u64, n: usize) -> (r: Vec<u8>)
    ensures
        r@ == le_bytes(v as nat, n as nat),
        r@.len() == n,
{
    let mut r: Vec<u8> = Vec::new();
    push_le(&mut r, v, n);
    r
}

/// Append the low `n` bytes of `v`, least significant first.
pub fn push_le(out: &mut Vec<u8>, v: u64, n: usize)
    ensures
        final(out)@ == old(out)@ + le_bytes(v as nat, n as nat),
        final(out)@.len() == old(out)@.len() + n,
{
    let mut rest: u64 = v;
    let mut i: usize = 0;
    let ghost start = out@;
    proof {
        lemma_le_bytes_len(v as nat, n as nat);
        assert(start + le_bytes(v as nat, n as nat) == out@ + le_bytes(rest as nat, n as nat));
    }
    while i < n
        invariant
            i <= n,
            start == old(out)@,
            out@.len() == start.len() + i,
            start + le_bytes(v as nat, n as nat) == out@ + le_bytes(rest as nat, (n - i) as nat),
        decreases n - i,
    {
        let ghost before = out@;
        let ghost left = le_bytes(rest as nat, (n - i) as nat);
        out.push((rest % 256) as u8);
        assert(before + left =~= out@ + le_bytes((rest / 256) as nat, (n - i - 1) as nat));
        rest = rest / 256;
        i += 1;
    }
    assert(out@ + le_bytes(rest as nat, 0) =~= out@);
}

/// Append the low `n` bytes of `v`, most significant first.
pub fn push_be(out: &mut Vec<u8>, v: u64, n: usize)
    ensures
        final(out)@ == old(out)@ + be_bytes(v as nat, n as nat),
        final(out)@.len() == old(out)@.len() + n,
{
    let le = le_vec(v, n);
    let ghost start = out@;
    let mut i: usize = n;
    while i > 0
        invariant
            i <= n == le@.len(),
            out@ == start + le@.skip(i as int).reverse(),
            out@.len() == start.len() + n - i,
        decreases i,
    {
        i -= 1;
        out.push(le[i]);
        assert(start + le@.skip(i as int).reverse() =~= (start + le@.skip(i + 1).reverse()).push(
            le@[i as int],
        ));
    }
    assert(le@.skip(0) =~= le@);
}

/// The signed value of a two's complement number of `bits` bits, given as an
/// unsigned one below `limit`, which is 2 to the power `bits`.
pub open spec fn signed(v: nat, limit: nat) -> int {
    if 2 * v >= limit {
        v - limit
    } else {
        v as int
    }
}

/// The two's complement of `v`, as an unsigned number below `limit`.
pub open spec fn unsigned(v: int, limit: nat) -> nat {
    if v < 0 {
        (v + limit) as nat
    } else {
        v as nat
    }
}

/// The signed value of a 32-bit two's complement number.
pub fn signed32(v: u32) -> (r: i32)
    ensures
        r == signed(v as nat, 0x1_0000_0000),
{
    if v >= 0x8000_0000 {
        (v as i64 - 0x1_0000_0000) as i32
    } else {
        v as i32
    }
}

/// The 32-bit two's complement of `v`.
pub fn unsigned32(v: i32) -> (r: u32)
    ensures
        r == unsigned(v as int, 0x1_0000_0000),
{
    if v < 0 {
        (v as i64 + 0x1_0000_0000) as u32
    } else {
        v as u32
    }
}

/// The signed value of a 64-bit two's complement number.
pub fn signed64(v: u64) -> (r: i64)
    ensures
        r == signed(v as nat, 0x1_0000_0000_0000_0000),
{
    if v >= 0x8000_0000_0000_0000 {
        (v as i128 - 0x1_0000_0000_0000_0000) as i64
    } else {
        v as i64
    }
}

/// The 64-bit two's complement of `v`.
pub fn unsigned64(v: i64) -> (r: u64)
    ensures
        r == unsigned(v as int, 0x1_0000_0000_0000_0000),
{
    if v < 0 {
        (v as i128 + 0x1_0000_0000_0000_0000) as u64
    } else {
        v as u64
    }
}

} // verus!
