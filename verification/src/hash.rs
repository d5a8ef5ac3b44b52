//! Predictor-table hash: CRC32C (Castagnoli) over the eight bytes of a word.

use vstd::prelude::*;

verus! {

/// Seed of every predictor hash.
pub const HASH_SEED: u32 = 0x9e37_79b9;

/// One reflected CRC32C bit step.
pub open spec fn crc_bit(crc: u32) -> u32 {
    if crc % 2 == 1 {
        (crc / 2) ^ 0x82F6_3B78
    } else {
        crc / 2
    }
}

/// `n` bit steps.
pub open spec fn crc_bits(crc: u32, n: nat) -> u32
    decreases n,
{
    if n == 0 {
        crc
    } else {
        crc_bits(crc_bit(crc), (n - 1) as nat)
    }
}

/// CRC32C over the `n` low-order bytes of `value`, least significant first.
pub open spec fn crc_bytes(crc: u32, value: u64, n: nat) -> u32
    decreases n,
{
    if n == 0 {
        crc
    } else {
        crc_bytes(crc_bits(crc ^ ((value % 256) as u32), 8), value / 256, (n - 1) as nat)
    }
}

/// CRC32C of the eight bytes of `value`, continued from `crc`.
pub open spec fn crc32c(crc: u32, value: u64) -> u32 {
    crc_bytes(crc, value, 8)
}

/// Bit-exact CRC32C (reflected polynomial `0x82F63B78`) over the eight bytes of
/// `value`, continued from `crc`.
pub fn crc32c_u64_sw(crc: u32, value: u64) -> (r: u32)
    ensures
        r == crc32c(crc, value),
{
    let mut c: u32 = crc;
    let mut v: u64 = value;
    let mut i: u32 = 0;
    while i < 8
        invariant
            i <= 8,
            crc_bytes(c, v, (8 - i) as nat) == crc32c(crc, value),
        decreases 8 - i,
    {
        let ghost c0 = c;
        c = c ^ ((v % 256) as u32);
        let ghost mixed = c;
        let mut k: u32 = 0;
        while k < 8
            invariant
                k <= 8,
                crc_bits(c, (8 - k) as nat) == crc_bits(mixed, 8),
            decreases 8 - k,
        {
            if c % 2 == 1 {
                c = (c / 2) ^ 0x82F6_3B78;
            } else {
                c = c / 2;
            }
            k = k + 1;
        }
        v = v / 256;
        i = i + 1;
    }
    c
}

/// The hash step the predictors use.
pub fn best_hash(crc: u32, value: u64) -> (r: u32)
    ensures
        r == crc32c(crc, value),
{
    crc32c_u64_sw(crc, value)
}

/// The table slot of a word in a table of `2^log2` entries.
pub open spec fn slot_of(v: u64, log2: u8) -> int {
    crc32c(HASH_SEED, v) as int % vstd::arithmetic::power2::pow2(log2 as nat) as int
}

/// The exclusive-or of the hashes of all words.
pub open spec fn hash_fold(vals: Seq<u64>) -> u32
    decreases vals.len(),
{
    if vals.len() == 0 {
        0
    } else {
        hash_fold(vals.drop_last()) ^ crc32c(HASH_SEED, vals.last())
    }
}

/// Fold the hash over a block.
pub fn fold_hash(vals: &[u64]) -> (r: u32)
    ensures
        r == hash_fold(vals@),
{
    let mut c: u32 = 0;
    let mut i: usize = 0;
    while i < vals.len()
        invariant
            i <= vals.len(),
            c == hash_fold(vals@.take(i as int)),
        decreases vals.len() - i,
    {
        c = c ^ best_hash(HASH_SEED, vals[i]);
        proof {
            let next = vals@.take(i + 1);
            assert(next.drop_last() =~= vals@.take(i as int));
        }
        i = i + 1;
    }
    assert(vals@.take(vals.len() as int) =~= vals@);
    c
}

} // verus!
