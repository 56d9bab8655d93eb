//! Big-endian integers as byte sequences: the mathematical model and the
//! executable encoders and decoders that the codec uses.

use vstd::prelude::*;

verus! {

/// `256` to the power `n`.
pub open spec fn pow256(n: nat) -> nat
    decreases n,
{
    if n == 0 {
        1
    } else {
        256 * pow256((n - 1) as nat)
    }
}

/// The unsigned integer that the bytes of `s` spell in big-endian order.
pub open spec fn be_value(s: Seq<u8>) -> nat
    decreases s.len(),
{
    if s.len() == 0 {
        0
    } else {
        be_value(s.drop_last()) * 256 + s.last() as nat
    }
}

/// The `n` low-order bytes of `v` in big-endian order.
pub open spec fn be_bytes(v: nat, n: nat) -> Seq<u8>
    decreases n,
{
    if n == 0 {
        Seq::empty()
    } else {
        be_bytes(v / 256, (n - 1) as nat).push((v % 256) as u8)
    }
}

/// Two's-complement reading of an `n`-byte unsigned value.
pub open spec fn signed_of(u: nat, n: nat) -> int {
    if u >= pow256(n) / 2 {
        u - pow256(n)
    } else {
        u as int
    }
}

pub proof fn lemma_pow256_values()
    ensures
        pow256(0) == 1,
        pow256(1) == 0x100,
        pow256(2) == 0x1_0000,
        pow256(3) == 0x100_0000,
        pow256(4) == 0x1_0000_0000,
        pow256(5) == 0x100_0000_0000,
        pow256(6) == 0x1_0000_0000_0000,
        pow256(7) == 0x100_0000_0000_0000,
        pow256(8) == 0x1_0000_0000_0000_0000,
{
    reveal_with_fuel(pow256, 9);
}

pub broadcast proof fn lemma_be_bytes_len(v: nat, n: nat)
    ensures
        #[trigger] be_bytes(v, n).len() == n,
    decreases n,
{
    if n > 0 {
        lemma_be_bytes_len(v / 256, (n - 1) as nat);
    }
}

proof fn lemma_step_bound(a: nat, p: nat, b: nat)
    by (nonlinear_arith)
    requires
        a < p,
        b < 256,
    ensures
        a * 256 + b < 256 * p,
{
}

/// A sequence of `n` bytes spells a value below `256^n`.
pub proof fn lemma_be_value_bound(s: Seq<u8>)
    ensures
        be_value(s) < pow256(s.len()),
    decreases s.len(),
{
    if s.len() > 0 {
        lemma_be_value_bound(s.drop_last());
        lemma_step_bound(be_value(s.drop_last()), pow256((s.len() - 1) as nat), s.last() as nat);
    }
}

proof fn lemma_div_bound(v: nat, p: nat)
    by (nonlinear_arith)
    requires
        v < 256 * p,
    ensures
        v / 256 < p,
{
}

/// Reading back the `n` big-endian bytes of a value below `256^n` gives the value.
pub proof fn lemma_be_roundtrip(v: nat, n: nat)
    requires
        v < pow256(n),
    ensures
        be_value(be_bytes(v, n)) == v,
    decreases n,
{
    if n > 0 {
        lemma_div_bound(v, pow256((n - 1) as nat));
        lemma_be_roundtrip(v / 256, (n - 1) as nat);
        let s = be_bytes(v, n);
        assert(s.drop_last() == be_bytes(v / 256, (n - 1) as nat));
    }
}

/// Extending a prefix by one byte extends its value by one digit.
pub proof fn lemma_be_value_extend(s: Seq<u8>, i: int)
    requires
        0 <= i < s.len(),
    ensures
        be_value(s.subrange(0, i + 1)) == be_value(s.subrange(0, i)) * 256 + s[i],
{
    assert(s.subrange(0, i + 1).drop_last() == s.subrange(0, i));
}

/// The big-endian encoding of the `n` low bytes of `v`.
pub fn be_encode(v: u64, n: usize) -> (r: Vec<u8>)
    requires
        n <= 8,
    ensures
        r@ == be_bytes(v as nat, n as nat),
    decreases n,
{
    if n == 0 {
        Vec::new()
    } else {
        let mut r = be_encode(v / 256, n - 1);
        r.push((v % 256) as u8);
        r
    }
}

/// Decodes the `n` bytes of `s` starting at `start` as a big-endian integer.
pub fn be_decode(s: &[u8], start: usize, n: usize) -> (v: u64)
    requires
        n <= 8,
        start + n <= s@.len(),
    ensures
        v == be_value(s@.subrange(start as int, start + n)),
{
    let ghost w = s@.subrange(start as int, start + n);
    let len = s.len();
    let mut v: u64 = 0;
    let mut i: usize = 0;
    proof {
        lemma_pow256_values();
        assert(w.subrange(0, 0) == Seq::<u8>::empty());
    }
    while i < n
        invariant
            i <= n <= 8,
            start + n <= s@.len(),
            len == s@.len(),
            w == s@.subrange(start as int, start + n),
            v == be_value(w.subrange(0, i as int)),
        decreases n - i,
    {
        proof {
            lemma_be_value_extend(w, i as int);
            lemma_be_value_bound(w.subrange(0, i + 1));
            lemma_pow256_values();
            assert(pow256((i + 1) as nat) <= pow256(8)) by {
                lemma_pow256_monotone((i + 1) as nat, 8);
            }
        }
        v = v * 256 + s[start + i] as u64;
        i = i + 1;
    }
    proof {
        assert(w.subrange(0, n as int) == w);
    }
    v
}

pub proof fn lemma_pow256_monotone(a: nat, b: nat)
    requires
        a <= b,
    ensures
        pow256(a) <= pow256(b),
    decreases b,
{
    if a < b {
        lemma_pow256_monotone(a, (b - 1) as nat);
    }
}

/// Appends the bytes of `s` to `v`.
pub fn append_slice(v: &mut Vec<u8>, s: &[u8])
    ensures
        final(v)@ == old(v)@ + s@,
{
    let n = s.len();
    let mut i: usize = 0;
    while i < n
        invariant
            i <= n,
            n == s@.len(),
            v@ == old(v)@ + s@.subrange(0, i as int),
        decreases n - i,
    {
        v.push(s[i]);
        i = i + 1;
        assert(v@ =~= old(v)@ + s@.subrange(0, i as int));
    }
    assert(s@.subrange(0, n as int) =~= s@);
}

} // verus!
