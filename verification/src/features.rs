//! Cheap per-block features that decide which codec families are worth trying,
//! and the block plan they shape.

use vstd::prelude::*;
use vstd::arithmetic::power2::*;
use crate::bitio::two_to;
use crate::codecs::for_bitpack::extremes;
use crate::config::Level;
use crate::format::max_block_values;
use crate::lane::Lane;
use crate::sample;
use crate::sample::stride_sample;
use crate::sort;

verus! {

/// Estimated distinct values below which dictionary and LZ modes are worth
/// trying.
pub const DISTINCT_LOW: usize = 2048;

/// Buckets of the distinct-value estimate.
pub const BUCKETS: usize = 16384;

/// Bytes of lane data in a base-size block.
pub const BASE_BYTES: usize = 262144;

/// Features of a block.
#[derive(Copy, Clone, Debug, PartialEq, Eq, Structural)]
pub struct BlockFeatures {
    /// Spread of the exponent field across the block.
    pub exp_range: u32,
    /// The sampled distinct-value estimate is below [`DISTINCT_LOW`].
    pub distinct_low: bool,
    /// Most consecutive pairs are equal.
    pub looks_like_repeats: bool,
}

/// The exponent fields of a block.
pub open spec fn exponents(lane: Lane, block: Seq<u64>) -> Seq<int> {
    Seq::new(block.len(), |i: int| lane.exponent(block[i]))
}

/// How many values equal the one before; the first counts too.
pub open spec fn repeats(block: Seq<u64>) -> nat
    decreases block.len(),
{
    if block.len() == 0 {
        0
    } else {
        repeats(block.drop_last()) + (if block.len() == 1 || block.last() == block[block.len()
            - 2] {
            1nat
        } else {
            0nat
        })
    }
}

/// The bucket of a value in the distinct-value estimate: the high bits of its
/// multiplicative hash.
pub open spec fn bucket(v: u64) -> int {
    Lane::W64.product(v, 0x9E37_79B9_7F4A_7C15) as int / 0x4_0000_0000_0000
}

/// The buckets of the first `k` of `vals`.
pub open spec fn buckets(vals: Seq<u64>, k: nat) -> Set<int>
    decreases k,
{
    if k == 0 {
        Set::empty()
    } else {
        buckets(vals, (k - 1) as nat).insert(bucket(vals[k - 1]))
    }
}

/// Step between the values of a sample of about `most` out of `n`.
pub open spec fn step_for(n: nat, most: nat) -> nat {
    if n / most < 1 {
        1
    } else {
        n / most
    }
}

/// The estimated number of distinct values.
pub open spec fn distinct_estimate(block: Seq<u64>) -> nat {
    let s = sample::strided(block, step_for(block.len(), 4096));
    buckets(s, s.len()).len()
}

/// The features of a block.
pub open spec fn features_of(lane: Lane, block: Seq<u64>) -> BlockFeatures {
    if block.len() == 0 {
        BlockFeatures { exp_range: 0, distinct_low: true, looks_like_repeats: false }
    } else {
        BlockFeatures {
            exp_range: (exponents(lane, block).max() - exponents(lane, block).min()) as u32,
            distinct_low: distinct_estimate(block) < DISTINCT_LOW,
            looks_like_repeats: repeats(block) * 2 > block.len(),
        }
    }
}

/// The spread of the exponent fields of a non-empty block.
fn exponent_range(lane: Lane, block: &[u64]) -> (r: u32)
    requires
        block.len() > 0,
        lane.fits_all(block@),
    ensures
        r == exponents(lane, block@).max() - exponents(lane, block@).min(),
{
    assert(lane.fits(block@[0]));
    let mut lo: u32 = lane.exponent_field(block[0]);
    let mut hi: u32 = lo;
    let mut i: usize = 1;
    proof {
        let none = Seq::<int>::empty();
        sort::lemma_push_extremes(none, lo as int);
        assert(exponents(lane, block@.take(1)) =~= none.push(lo as int));
    }
    while i < block.len()
        invariant
            1 <= i <= block.len(),
            lane.fits_all(block@),
            lo == exponents(lane, block@.take(i as int)).min(),
            hi == exponents(lane, block@.take(i as int)).max(),
            lo <= hi,
        decreases block.len() - i,
    {
        assert(lane.fits(block@[i as int]));
        let e: u32 = lane.exponent_field(block[i]);
        proof {
            let before = exponents(lane, block@.take(i as int));
            sort::lemma_push_extremes(before, e as int);
            assert(exponents(lane, block@.take(i + 1)) =~= before.push(e as int));
        }
        if e < lo {
            lo = e;
        }
        if e > hi {
            hi = e;
        }
        i = i + 1;
    }
    assert(block@.take(block.len() as int) =~= block@);
    hi - lo
}

fn count_repeats(block: &[u64]) -> (c: usize)
    ensures
        c == repeats(block@),
        c <= block.len(),
{
    let mut c: usize = 0;
    let mut i: usize = 0;
    while i < block.len()
        invariant
            i <= block.len(),
            c <= i,
            c == repeats(block@.take(i as int)),
        decreases block.len() - i,
    {
        assert(block@.take(i + 1).drop_last() =~= block@.take(i as int));
        if i == 0 || block[i] == block[i - 1] {
            c = c + 1;
        }
        i = i + 1;
    }
    assert(block@.take(block.len() as int) =~= block@);
    c
}

proof fn lemma_buckets_finite(vals: Seq<u64>, k: nat)
    requires
        k <= vals.len(),
    ensures
        buckets(vals, k).finite(),
        buckets(vals, k).len() <= k,
    decreases k,
{
    if k > 0 {
        lemma_buckets_finite(vals, (k - 1) as nat);
    }
}

/// The number of distinct buckets among `vals`.
fn count_buckets(vals: &[u64]) -> (c: usize)
    ensures
        c == buckets(vals@, vals@.len()).len(),
{
    let mut seen: Vec<bool> = Vec::new();
    while seen.len() < BUCKETS
        invariant
            seen.len() <= BUCKETS,
            forall|b: int| 0 <= b < seen.len() ==> !(#[trigger] seen@[b]),
        decreases BUCKETS - seen.len(),
    {
        seen.push(false);
    }
    let mut c: usize = 0;
    let mut i: usize = 0;
    while i < vals.len()
        invariant
            i <= vals.len(),
            seen.len() == BUCKETS,
            c <= i,
            c == buckets(vals@, i as nat).len(),
            buckets(vals@, i as nat).finite(),
            forall|b: int|
                0 <= b < BUCKETS ==> #[trigger] seen@[b] == buckets(vals@, i as nat).contains(b),
        decreases vals.len() - i,
    {
        let h: u64 = Lane::W64.wrapping_mul(vals[i], 0x9E37_79B9_7F4A_7C15);
        let b: usize = (h / 0x4_0000_0000_0000) as usize;
        assert(b == bucket(vals@[i as int]));
        let ghost before = buckets(vals@, i as nat);
        proof {
            lemma_buckets_finite(vals@, i as nat);
            assert(buckets(vals@, i as nat + 1) == before.insert(b as int));
        }
        if !seen[b] {
            seen.set(b, true);
            c = c + 1;
        } else {
            assert(before.insert(b as int) =~= before);
        }
        i = i + 1;
    }
    c
}

/// Probe a block.
pub fn probe_block_features(lane: Lane, block: &[u64]) -> (f: BlockFeatures)
    requires
        lane.fits_all(block@),
    ensures
        f == features_of(lane, block@),
{
    let n = block.len();
    if n == 0 {
        return BlockFeatures { exp_range: 0, distinct_low: true, looks_like_repeats: false };
    }
    let exp_range: u32 = exponent_range(lane, block);
    let equal: usize = count_repeats(block);
    let step: usize = if n / 4096 < 1 {
        1
    } else {
        n / 4096
    };
    let picked = stride_sample(block, step);
    let distinct: usize = count_buckets(&picked);
    BlockFeatures {
        exp_range,
        distinct_low: distinct < DISTINCT_LOW,
        looks_like_repeats: equal > n / 2,
    }
}

/// Whether a residual stream is below 95 percent of the raw size: the threshold
/// for the expensive entropy-coded modes.
#[verifier::allow_in_spec]
pub fn looks_compressible(residual_bytes: usize, raw_bytes: usize) -> (r: bool)
    returns
        residual_bytes * 20 < raw_bytes * 19,
{
    (residual_bytes as u128) * 20 < (raw_bytes as u128) * 19
}

/// Zigzag distance of value `i` from the one before.
pub open spec fn step_size(lane: Lane, block: Seq<u64>, i: int) -> u64 {
    lane.zigzagged(lane.diff(block[i], block[i - 1]))
}

/// The zigzag distances of the sampled values, the first excepted, from the
/// values before them.
pub open spec fn sampled_steps(lane: Lane, block: Seq<u64>, step: nat) -> Seq<u64> {
    Seq::new(
        (sample::strided(block, step).len() - 1) as nat,
        |k: int| step_size(lane, block, (k + 1) * step as int),
    )
}

/// A block in which neither frame of reference nor deltas can gain: of the
/// sampled values some two lie almost the whole lane apart, and some sampled
/// value lies almost the whole lane from the one before it.
pub open spec fn is_incompressible(lane: Lane, block: Seq<u64>, feats: BlockFeatures) -> bool {
    let step = step_for(block.len(), 2048);
    let wide = pow2((lane.bits() - 5) as nat);
    let s = sample::strided(block, step);
    let d = sampled_steps(lane, block, step);
    &&& !feats.distinct_low
    &&& !feats.looks_like_repeats
    &&& block.len() >= 256
    &&& exists|i: int, j: int|
        0 <= i < s.len() && 0 <= j < s.len() && #[trigger] s[i] - #[trigger] s[j] >= wide
    &&& exists|k: int| 0 <= k < d.len() && #[trigger] d[k] >= wide
}

/// Conservative probe for integer blocks that are noise.
pub fn looks_incompressible(lane: Lane, block: &[u64], feats: BlockFeatures) -> (r: bool)
    requires
        lane.fits_all(block@),
    ensures
        r == is_incompressible(lane, block@, feats),
{
    let n = block.len();
    if feats.distinct_low || feats.looks_like_repeats || n < 256 {
        return false;
    }
    let step: usize = if n / 2048 < 1 {
        1
    } else {
        n / 2048
    };
    let wide: u64 = two_to(lane.bits() - 5);
    let s = stride_sample(block, step);
    proof {
        assert forall|i: int| 0 <= i < s@.len() implies lane.fits(#[trigger] s@[i]) by {
            sample::lemma_strided_in_range(n as nat, step as nat, i);
            assert(lane.fits(block@[i * step]));
        }
    }
    let (lo, hi) = extremes(lane, &s, false);
    let ghost d = sampled_steps(lane, block@, step as nat);
    if hi - lo < wide {
        return false;
    }
    proof {
        let i = choose|i: int| 0 <= i < s@.len() && s@[i] == hi;
        let j = choose|j: int| 0 <= j < s@.len() && s@[j] == lo;
        assert(s@[i] - s@[j] >= wide);
    }
    let mut k: usize = 1;
    while k < s.len()
        invariant
            1 <= k <= s.len(),
            n == block.len(),
            step > 0,
            lane.fits_all(block@),
            s@ == sample::strided(block@, step as nat),
            d == sampled_steps(lane, block@, step as nat),
            wide == pow2((lane.bits() - 5) as nat),
            !feats.distinct_low,
            !feats.looks_like_repeats,
            n >= 256,
            step == step_for(n as nat, 2048),
            exists|i: int, j: int|
                0 <= i < s@.len() && 0 <= j < s@.len() && #[trigger] s@[i] - #[trigger] s@[j]
                    >= wide,
            forall|m: int| 0 <= m < k - 1 ==> #[trigger] d[m] < wide,
        decreases s.len() - k,
    {
        proof {
            sample::lemma_strided_in_range(n as nat, step as nat, k as int);
            assert(k * step >= 1) by (nonlinear_arith)
                requires
                    k >= 1,
                    step >= 1,
            ;
        }
        let at: usize = k * step;
        assert(lane.fits(block@[at as int]) && lane.fits(block@[at - 1]));
        let z: u64 = lane.zigzag(lane.wrapping_sub(block[at], block[at - 1]));
        assert(d[k - 1] == z);
        if z >= wide {
            return true;
        }
        k = k + 1;
    }
    false
}

/// Every value of the block is a finite float: no exponent field is all ones.
pub open spec fn is_finite(lane: Lane, block: Seq<u64>) -> bool {
    forall|i: int|
        0 <= i < block.len() ==> lane.exponent(#[trigger] block[i]) != lane.exp_all_ones()
}

/// Whether no value of the block is an infinity or a NaN. The float predictors
/// run on such blocks only: what arithmetic makes of a NaN's payload differs
/// between machines.
pub fn all_finite(lane: Lane, block: &[u64]) -> (r: bool)
    requires
        lane.fits_all(block@),
    ensures
        r == is_finite(lane, block@),
{
    let mut i: usize = 0;
    while i < block.len()
        invariant
            i <= block.len(),
            lane.fits_all(block@),
            forall|k: int|
                0 <= k < i ==> lane.exponent(#[trigger] block@[k]) != lane.exp_all_ones(),
        decreases block.len() - i,
    {
        assert(lane.fits(block@[i as int]));
        if lane.exponent_field(block[i]) == lane.exp_all_ones() {
            return false;
        }
        i = i + 1;
    }
    true
}

// ---------------------------------------------------------------------------
// Block planning
// ---------------------------------------------------------------------------

/// The lesser of `start + size` and `n`.
pub open spec fn clipped(start: int, size: int, n: int) -> int {
    if start + size < n {
        start + size
    } else {
        n
    }
}

/// Where the block that starts at `start` ends: after a fixed number of values,
/// or of a full block, or of a base block that is grown to a full one when its
/// data looks low-entropy.
pub open spec fn block_end(
    lane: Lane,
    vals: Seq<u64>,
    start: int,
    fixed: Option<usize>,
    level: Level,
) -> int {
    let n = vals.len() as int;
    let full = max_block_values(lane.bytes()) as int;
    match fixed {
        Some(size) => clipped(start, size as int, n),
        None => if level.full_blocks() {
            clipped(start, full, n)
        } else {
            let base = clipped(start, BASE_BYTES as int / lane.bytes() as int, n);
            let f = features_of(lane, vals.subrange(start, base));
            if f.distinct_low || f.looks_like_repeats {
                clipped(start, full, n)
            } else {
                base
            }
        },
    }
}

/// `ranges` cuts `0..n` into non-empty pieces of at most `most` values.
pub open spec fn is_partition(ranges: Seq<(usize, usize)>, n: nat, most: nat) -> bool {
    &&& ranges.len() == 0 <==> n == 0
    &&& ranges.len() > 0 ==> ranges[0].0 == 0 && ranges.last().1 == n
    &&& forall|i: int|
        0 <= i < ranges.len() ==> (#[trigger] ranges[i]).0 < ranges[i].1 <= n && ranges[i].1
            - ranges[i].0 <= most
    &&& forall|i: int|
        0 < i < ranges.len() ==> (#[trigger] ranges[i]).0 == ranges[i - 1].1
}

/// Plan block boundaries.
pub fn plan_blocks(lane: Lane, vals: &[u64], fixed: Option<usize>, level: Level) -> (ranges: Vec<
    (usize, usize),
>)
    requires
        lane.fits_all(vals@),
        fixed matches Some(size) ==> 1 <= size <= max_block_values(lane.bytes()),
    ensures
        is_partition(ranges@, vals@.len(), max_block_values(lane.bytes()) as nat),
        forall|i: int|
            0 <= i < ranges.len() ==> (#[trigger] ranges@[i]).1 == block_end(
                lane,
                vals@,
                ranges@[i].0 as int,
                fixed,
                level,
            ),
{
    let n = vals.len();
    let full: usize = max_block_values(lane.bytes());
    let base: usize = BASE_BYTES / lane.bytes();
    assert(1 <= base <= full) by {
        match lane {
            Lane::W32 => {
                assert(1048576int / 4 == 262144 && 262144int / 4 == 65536);
            },
            Lane::W64 => {
                assert(1048576int / 8 == 131072 && 262144int / 8 == 32768);
            },
        }
    }
    let mut ranges: Vec<(usize, usize)> = Vec::new();
    let mut start: usize = 0;
    while start < n
        invariant
            start <= n,
            n == vals.len(),
            full == max_block_values(lane.bytes()),
            base == BASE_BYTES as int / lane.bytes() as int,
            1 <= base <= full,
            lane.fits_all(vals@),
            fixed matches Some(size) ==> 1 <= size <= full,
            ranges.len() == 0 <==> start == 0,
            ranges.len() > 0 ==> ranges@[0].0 == 0 && ranges@.last().1 == start,
            forall|i: int|
                0 <= i < ranges.len() ==> (#[trigger] ranges@[i]).0 < ranges@[i].1 <= start
                    && ranges@[i].1 - ranges@[i].0 <= full,
            forall|i: int|
                0 < i < ranges.len() ==> (#[trigger] ranges@[i]).0 == ranges@[i - 1].1,
            forall|i: int|
                0 <= i < ranges.len() ==> (#[trigger] ranges@[i]).1 == block_end(
                    lane,
                    vals@,
                    ranges@[i].0 as int,
                    fixed,
                    level,
                ),
        decreases n - start,
    {
        let end: usize = match fixed {
            Some(size) => clip(start, size, n),
            None => if level.full_blocks() {
                clip(start, full, n)
            } else {
                let base_end: usize = clip(start, base, n);
                let region = vstd::slice::slice_subrange(vals, start, base_end);
                proof {
                    assert forall|k: int| 0 <= k < region@.len() implies lane.fits(
                        #[trigger] region@[k],
                    ) by {
                        assert(lane.fits(vals@[start + k]));
                    }
                }
                let f = probe_block_features(lane, region);
                if f.distinct_low || f.looks_like_repeats {
                    clip(start, full, n)
                } else {
                    base_end
                }
            },
        };
        assert(end == block_end(lane, vals@, start as int, fixed, level));
        ranges.push((start, end));
        start = end;
    }
    ranges
}

fn clip(start: usize, size: usize, n: usize) -> (end: usize)
    requires
        start <= n,
    ensures
        end == clipped(start as int, size as int, n as int),
{
    if size < n - start {
        start + size
    } else {
        n
    }
}

} // verus!
