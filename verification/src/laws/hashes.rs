//! Laws of the predictor hash.

use vstd::prelude::*;
use vstd::arithmetic::power2::*;
use crate::hash;

verus! {

proof fn lemma_step_linear(a: u32, b: u32)
    ensures
        hash::crc_bit(a ^ b) == hash::crc_bit(a) ^ hash::crc_bit(b),
{
    assert((if (a ^ b) % 2 == 1 {
        ((a ^ b) / 2) ^ 0x82F6_3B78u32
    } else {
        (a ^ b) / 2
    }) == (if a % 2 == 1 {
        (a / 2) ^ 0x82F6_3B78u32
    } else {
        a / 2
    }) ^ (if b % 2 == 1 {
        (b / 2) ^ 0x82F6_3B78u32
    } else {
        b / 2
    })) by (bit_vector);
}

proof fn lemma_steps_linear(a: u32, b: u32, n: nat)
    ensures
        hash::crc_bits(a ^ b, n) == hash::crc_bits(a, n) ^ hash::crc_bits(b, n),
    decreases n,
{
    if n > 0 {
        lemma_step_linear(a, b);
        lemma_steps_linear(hash::crc_bit(a), hash::crc_bit(b), (n - 1) as nat);
    }
}

proof fn lemma_steps_keep(a: u32, n: nat)
    requires
        a != 0,
    ensures
        hash::crc_bits(a, n) != 0,
    decreases n,
{
    if n > 0 {
        assert(a != 0 ==> (if a % 2 == 1 {
            (a / 2) ^ 0x82F6_3B78u32
        } else {
            a / 2
        }) != 0) by (bit_vector);
        lemma_steps_keep(hash::crc_bit(a), (n - 1) as nat);
    }
}

proof fn lemma_steps_shift(w: u32)
    requires
        w < 0x100_0000,
    ensures
        hash::crc_bits((w * 256) as u32, 8) == w,
{
    reveal_with_fuel(hash::crc_bits, 9);
    let x = (w * 256) as u32;
    assert(x / 2 == w * 128 && x / 4 == w * 64);
    assert(hash::crc_bit(x) == w * 128);
    assert(hash::crc_bit((w * 128) as u32) == w * 64);
    assert(hash::crc_bit((w * 64) as u32) == w * 32);
    assert(hash::crc_bit((w * 32) as u32) == w * 16);
    assert(hash::crc_bit((w * 16) as u32) == w * 8);
    assert(hash::crc_bit((w * 8) as u32) == w * 4);
    assert(hash::crc_bit((w * 4) as u32) == w * 2);
    assert(hash::crc_bit((w * 2) as u32) == w);
}

/// Two words whose remaining bytes differ by `delta` hash differently, unless what was
/// hashed of them differs just so as to make up for it.
proof fn lemma_differ(c: u32, d: u32, x: u64, y: u64, delta: u64, n: nat)
    requires
        x ^ y == delta,
        delta < 0x1_0000_0000,
        n <= 8,
        n < 4 ==> delta < pow2(8 * n),
        (c ^ d) ^ (delta as u32) != 0,
    ensures
        hash::crc_bytes(c, x, n) != hash::crc_bytes(d, y, n),
    decreases n,
{
    lemma2_to64();
    if n == 0 {
        assert(delta == 0);
        assert((c ^ d) ^ 0u32 == 0u32 <==> c == d) by (bit_vector);
    } else {
        let (a, b) = ((x % 256) as u32, (y % 256) as u32);
        let (z, w) = ((delta % 256) as u32, (delta / 256) as u32);
        let (c2, d2) = (hash::crc_bits(c ^ a, 8), hash::crc_bits(d ^ b, 8));
        assert((x / 256) ^ (y / 256) == delta / 256 && ((x % 256) as u32) ^ ((y % 256) as u32) == (
        delta % 256) as u32) by (bit_vector)
            requires
                x ^ y == delta,
        ;
        assert((c ^ a) ^ (d ^ b) == (c ^ d) ^ z && ((c ^ d) ^ z) ^ (w * 256u32) as u32 == (c ^ d) ^ (
        delta as u32)) by (bit_vector)
            requires
                a ^ b == z,
                z == (delta % 256) as u32,
                w == (delta / 256) as u32,
                delta < 0x1_0000_0000,
        ;
        let e = (c ^ d) ^ z;
        lemma_steps_linear(c ^ a, d ^ b, 8);
        lemma_steps_linear(e, (w * 256) as u32, 8);
        lemma_steps_shift(w);
        lemma_steps_keep((c ^ d) ^ (delta as u32), 8);
        assert((c2 ^ d2) ^ w != 0);
        assert((delta / 256) as u32 == w);
        lemma_differ(c2, d2, x / 256, y / 256, delta / 256, (n - 1) as nat);
    }
}

/// Every bit of a word counts: two words that differ in their lower halves only, or in
/// their upper halves only, never hash alike.
pub proof fn lemma_every_bit_counts(seed: u32, x: u64, y: u64)
    requires
        x != y,
        x / 0x1_0000_0000 == y / 0x1_0000_0000 || x % 0x1_0000_0000 == y % 0x1_0000_0000,
    ensures
        hash::crc32c(seed, x) != hash::crc32c(seed, y),
{
    let delta = x ^ y;
    assert(seed ^ seed == 0) by (bit_vector);
    if x / 0x1_0000_0000 == y / 0x1_0000_0000 {
        assert(delta < 0x1_0000_0000 && 0u32 ^ (delta as u32) != 0) by (bit_vector)
            requires
                x / 0x1_0000_0000 == y / 0x1_0000_0000,
                x != y,
                delta == x ^ y,
        ;
        lemma_differ(seed, seed, x, y, delta, 8);
    } else {
        reveal_with_fuel(hash::crc_bytes, 5);
        let (x4, y4) = (x / 0x1_0000_0000, y / 0x1_0000_0000);
        let c1 = hash::crc_bits(seed ^ ((x % 256) as u32), 8);
        let c2 = hash::crc_bits(c1 ^ (((x / 256) % 256) as u32), 8);
        let c3 = hash::crc_bits(c2 ^ (((x / 256 / 256) % 256) as u32), 8);
        let c4 = hash::crc_bits(c3 ^ (((x / 256 / 256 / 256) % 256) as u32), 8);
        assert(x % 256 == y % 256 && (x / 256) % 256 == (y / 256) % 256);
        assert((x / 256 / 256) % 256 == (y / 256 / 256) % 256);
        assert((x / 256 / 256 / 256) % 256 == (y / 256 / 256 / 256) % 256);
        assert(hash::crc32c(seed, x) == hash::crc_bytes(c4, x4, 4));
        assert(hash::crc32c(seed, y) == hash::crc_bytes(c4, y4, 4));
        let high = x4 ^ y4;
        assert(high < 0x1_0000_0000 && 0u32 ^ (high as u32) != 0) by (bit_vector)
            requires
                x4 < 0x1_0000_0000,
                y4 < 0x1_0000_0000,
                x4 != y4,
                high == x4 ^ y4,
        ;
        assert(c4 ^ c4 == 0) by (bit_vector);
        lemma_differ(c4, c4, x4, y4, high, 4);
    }
}

/// A word's place in a table is its hash from the fixed seed, without the bits that the
/// table has no room for.
pub proof fn lemma_place(v: u64, log2: u8)
    ensures
        0 <= hash::slot_of(v, log2) < pow2(log2 as nat),
        exists|q: int|
            hash::crc32c(0x9e37_79b9, v) == #[trigger] (q * pow2(log2 as nat)) + hash::slot_of(
                v,
                log2,
            ),
{
    let (h, m) = (hash::crc32c(0x9e37_79b9, v) as int, pow2(log2 as nat) as int);
    lemma_pow2_pos(log2 as nat);
    vstd::arithmetic::div_mod::lemma_fundamental_div_mod(h, m);
    vstd::arithmetic::div_mod::lemma_mod_bound(h, m);
    let q = h / m;
    assert(q * m == m * q) by (nonlinear_arith);
    assert(h == (q * pow2(log2 as nat)) + hash::slot_of(v, log2));
}

} // verus!
