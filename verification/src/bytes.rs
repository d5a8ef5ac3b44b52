//! Little-endian byte images of unsigned numbers.

use vstd::prelude::*;
use vstd::arithmetic::power2::*;
use vstd::slice::slice_subrange;

verus! {

/// The `n` low-order bytes of `v`, least significant first.
pub open spec fn le_bytes(v: nat, n: nat) -> Seq<u8>
    decreases n,
{
    if n == 0 {
        Seq::empty()
    } else {
        seq![(v % 256) as u8] + le_bytes(v / 256, (n - 1) as nat)
    }
}

/// The number whose little-endian byte image is `s`.
pub open spec fn le_value(s: Seq<u8>) -> nat
    decreases s.len(),
{
    if s.len() == 0 {
        0
    } else {
        s[0] as nat + 256 * le_value(s.drop_first())
    }
}

/// `256^n`.
pub open spec fn pow256(n: nat) -> nat {
    pow2(8 * n)
}

pub proof fn lemma_pow256_step(n: nat)
    ensures
        pow256(0) == 1,
        pow256(n + 1) == 256 * pow256(n),
        pow256(n) > 0,
{
    lemma2_to64();
    lemma_pow2_adds(8 * n, 8);
    lemma_pow2_pos(8 * n);
}

pub proof fn lemma_pow256_values()
    ensures
        pow256(1) == 0x100,
        pow256(2) == 0x1_0000,
        pow256(4) == 0x1_0000_0000,
        pow256(8) == 0x1_0000_0000_0000_0000,
{
    lemma2_to64();
    lemma2_to64_rest();
}

pub proof fn lemma_le_bytes_len(v: nat, n: nat)
    ensures
        le_bytes(v, n).len() == n,
    decreases n,
{
    if n > 0 {
        lemma_le_bytes_len(v / 256, (n - 1) as nat);
    }
}

/// Reading back the byte image of a number that fits `n` bytes gives the number.
pub proof fn lemma_le_roundtrip(v: nat, n: nat)
    requires
        v < pow256(n),
    ensures
        le_value(le_bytes(v, n)) == v,
        le_bytes(v, n).len() == n,
    decreases n,
{
    lemma_pow256_step(0);
    if n > 0 {
        lemma_pow256_step((n - 1) as nat);
        lemma_le_roundtrip(v / 256, (n - 1) as nat);
        let s = le_bytes(v, n);
        assert(s.drop_first() =~= le_bytes(v / 256, (n - 1) as nat));
    }
}

/// A byte image read as a number stays below `256^len`.
pub proof fn lemma_le_value_bound(s: Seq<u8>)
    ensures
        le_value(s) < pow256(s.len()),
    decreases s.len(),
{
    lemma_pow256_step(0);
    if s.len() > 0 {
        lemma_pow256_step((s.len() - 1) as nat);
        lemma_le_value_bound(s.drop_first());
    }
}

/// The byte image of the number read from `s` is `s`.
pub proof fn lemma_le_value_roundtrip(s: Seq<u8>)
    ensures
        le_bytes(le_value(s), s.len()) == s,
    decreases s.len(),
{
    if s.len() > 0 {
        lemma_le_value_roundtrip(s.drop_first());
        let t = s.drop_first();
        assert(le_value(s) / 256 == le_value(t));
        assert(le_value(s) % 256 == s[0] as nat);
        assert(s =~= seq![s[0]] + t);
    } else {
        assert(s =~= Seq::empty());
    }
}

/// Append the `n` low-order bytes of `v`, least significant first.
pub fn write_le(out: &mut Vec<u8>, v: u64, n: usize)
    requires
        n <= 8,
    ensures
        final(out)@ == old(out)@ + le_bytes(v as nat, n as nat),
{
    let mut rest: u64 = v;
    let mut i: usize = 0;
    let ghost start = out@;
    assert(out@ + le_bytes(rest as nat, n as nat) =~= start + le_bytes(v as nat, n as nat));
    while i < n
        invariant
            i <= n,
            out@ + le_bytes(rest as nat, (n - i) as nat) == start + le_bytes(v as nat, n as nat),
        decreases n - i,
    {
        let b: u8 = (rest % 256) as u8;
        let ghost before = out@;
        let ghost tail = le_bytes((rest / 256) as nat, (n - i - 1) as nat);
        out.push(b);
        assert(le_bytes(rest as nat, (n - i) as nat) == seq![b] + tail);
        assert(before.push(b) + tail =~= before + (seq![b] + tail));
        rest = rest / 256;
        i = i + 1;
    }
    assert(le_bytes(rest as nat, 0) =~= Seq::empty());
    assert(out@ + Seq::<u8>::empty() =~= out@);
}

/// Read the `n`-byte little-endian number that starts at `pos`.
pub fn read_le(src: &[u8], pos: usize, n: usize) -> (v: u64)
    requires
        n <= 8,
        pos + n <= src.len(),
    ensures
        v == le_value(src@.subrange(pos as int, pos + n)),
        v < pow256(n as nat),
{
    let mut acc: u64 = 0;
    let mut i: usize = n;
    proof {
        lemma_pow256_step(0);
        assert(src@.subrange(pos + n, pos + n) =~= Seq::empty());
    }
    while i > 0
        invariant
            i <= n <= 8,
            pos + n <= src.len(),
            acc == le_value(src@.subrange(pos + i, pos + n)),
            acc < pow256((n - i) as nat),
        decreases i,
    {
        proof {
            let s = src@.subrange(pos + i - 1, pos + n);
            assert(s.drop_first() =~= src@.subrange(pos + i, pos + n));
            lemma_pow256_step((n - i) as nat);
            lemma_pow256_values();
            lemma_pow256_mono((n - i + 1) as nat, 8);
            lemma_le_value_bound(s);
        }
        i = i - 1;
        acc = acc * 256 + src[pos + i] as u64;
    }
    acc
}

pub proof fn lemma_pow256_mono(a: nat, b: nat)
    requires
        a <= b,
    ensures
        pow256(a) <= pow256(b),
    decreases b - a,
{
    if a < b {
        lemma_pow256_mono(a, (b - 1) as nat);
        lemma_pow256_step((b - 1) as nat);
    }
}

/// Append a whole slice.
pub fn append_bytes(out: &mut Vec<u8>, src: &[u8])
    ensures
        final(out)@ == old(out)@ + src@,
{
    out.extend_from_slice(src);
    assert(out@ =~= old(out)@ + src@);
}

/// The part of `src` from `pos` on.
pub fn tail(src: &[u8], pos: usize) -> (t: &[u8])
    requires
        pos <= src.len(),
    ensures
        t@ == src@.skip(pos as int),
{
    let t = slice_subrange(src, pos, src.len());
    assert(t@ =~= src@.skip(pos as int));
    t
}

} // verus!
