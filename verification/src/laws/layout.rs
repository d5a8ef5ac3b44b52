//! Where the bits of packed values lie.

use vstd::prelude::*;
use vstd::arithmetic::div_mod::*;
use vstd::arithmetic::power2::*;
use crate::bitpack;

verus! {

/// Bit `k` of a number.
pub open spec fn bit_of(x: nat, k: nat) -> bool {
    (x / pow2(k)) % 2 == 1
}

proof fn lemma_bit_of_low(x: nat, m: nat, k: nat)
    requires
        k < m,
    ensures
        bit_of(x % pow2(m), k) == bit_of(x, k),
{
    lemma_pow2_pos(m);
    lemma_pow2_pos(k);
    lemma_pow2_adds(k, (m - k) as nat);
    lemma_pow2_adds(1, (m - k - 1) as nat);
    lemma2_to64();
    let (p, h) = (pow2(k) as int, pow2((m - k - 1) as nat) as int);
    let (q, r) = (x as int / pow2(m) as int, x as int % pow2(m) as int);
    lemma_fundamental_div_mod(x as int, pow2(m) as int);
    let (a, b) = (r / p, r % p);
    lemma_fundamental_div_mod(r, p);
    assert(pow2((m - k) as nat) == 2 * h);
    assert(x == (q * (2 * h) + a) * p + b) by (nonlinear_arith)
        requires
            x == pow2(m) * q + r,
            r == p * a + b,
            pow2(m) == p * (2 * h),
    ;
    lemma_fundamental_div_mod_converse(x as int, p, q * (2 * h) + a, b);
    assert(q * (2 * h) + a == 2 * (q * h) + a) by (nonlinear_arith);
    lemma_mod_multiples_vanish(q * h, a, 2);
}

proof fn lemma_bit_of_high(x: nat, m: nat, k: nat)
    ensures
        bit_of(x / pow2(m), k) == bit_of(x, m + k),
{
    lemma_pow2_pos(m);
    lemma_pow2_pos(k);
    lemma_pow2_adds(m, k);
    lemma_div_denominator(x as int, pow2(m) as int, pow2(k) as int);
}

/// A block of 1024 values lies in 32 lanes of 32-bit words, or 16 of 64-bit words: value
/// `i` is in lane `i % lanes`, after the values of that lane before it, and the words of
/// the lanes take turns. So bit `b` of the value is found at bit `p % bits` of word
/// `p / bits` of its lane, `p` being what comes before it there.
pub proof fn lemma_bit_places(vals: Seq<u64>, bits: nat, width: nat, i: int, b: nat)
    requires
        bits == 32 || bits == 64,
        b < width <= bits,
        0 <= i < 1024,
    ensures
        ({
            let lanes = if bits == 32 {
                32int
            } else {
                16
            };
            let p = (i / lanes) * width + b;
            let words = bitpack::packed_words(vals, bits, width);
            let at = (p / bits as int) * lanes + i % lanes;
            &&& words.len() == lanes * width
            &&& 0 <= at < words.len()
            &&& bit_of(words[at] as nat, (p % bits as int) as nat) == bit_of(vals[i] as nat, b)
        }),
{
    let n = bitpack::lane_count(bits) as int;
    let (row, l) = (i / n, i % n);
    let p = row * width + b;
    let (j, k) = (p / bits as int, p % bits as int);
    let words = bitpack::packed_words(vals, bits, width);
    lemma_fundamental_div_mod(i, n);
    lemma_fundamental_div_mod(p, bits as int);
    assert(0 <= row < bits);
    assert(0 <= p < bits * width) by (nonlinear_arith)
        requires
            p == row * width + b,
            0 <= row <= bits - 1,
            0 <= b < width,
    ;
    assert(0 <= j < width) by (nonlinear_arith)
        requires
            p == bits * j + k,
            0 <= k < bits,
            0 <= p < bits * width,
            bits > 0,
    ;
    let at = j * n + l;
    assert(0 <= at < n * width) by (nonlinear_arith)
        requires
            at == j * n + l,
            0 <= j <= width - 1,
            0 <= l < n,
    ;
    lemma_fundamental_div_mod_converse(at, n, j, l);
    let r = bitpack::row_sum(vals, n, width, l, bits);
    let x = r / pow2((bits * j) as nat);
    lemma_pow2_pos((bits * j) as nat);
    lemma_pow2_pos(bits);
    lemma_mod_bound(x as int, pow2(bits) as int);
    lemma2_to64();
    lemma2_to64_rest();
    assert(words[at] == x % pow2(bits));
    lemma_bit_of_low(x, bits, k as nat);
    lemma_bit_of_high(r, (bits * j) as nat, k as nat);
    assert((bits * j) as nat + k as nat == p);
    bitpack::lemma_row_sum_at(vals, n, width, l, bits, row as nat);
    let y = r / pow2((row * width) as nat);
    assert(row * n + l == i) by (nonlinear_arith)
        requires
            i == n * row + l,
    ;
    lemma_bit_of_low(y, width, b);
    lemma_bit_of_low(vals[i] as nat, width, b);
    lemma_bit_of_high(r, (row * width) as nat, b);
}

} // verus!
