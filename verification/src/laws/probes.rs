//! What the cheap probes of a block say of it.

use vstd::prelude::*;
use vstd::set_lib::*;
use crate::features;
use crate::features::features_of;
use crate::lane::Lane;
use crate::sample;
use crate::sort;

verus! {

/// The places whose value equals the one before.
pub open spec fn repeated(block: Seq<u64>) -> Set<int> {
    Set::new(|i: int| 0 < i < block.len() && block[i] == block[i - 1])
}

proof fn lemma_repeats(block: Seq<u64>)
    ensures
        repeated(block).finite(),
        features::repeats(block) == repeated(block).len() + (if block.len() > 0 {
            1nat
        } else {
            0nat
        }),
    decreases block.len(),
{
    if block.len() == 0 {
        assert(repeated(block) =~= Set::empty());
    } else {
        let front = block.drop_last();
        let n = block.len() - 1;
        lemma_repeats(front);
        if n > 0 && block[n] == block[n - 1] {
            assert(repeated(block) =~= repeated(front).insert(n));
            assert(!repeated(front).contains(n));
        } else {
            assert(repeated(block) =~= repeated(front));
        }
    }
}

/// A block looks repetitive exactly where more than half of its values equal the one
/// before; the first counts as such.
pub proof fn lemma_looks_like_repeats(lane: Lane, block: Seq<u64>)
    requires
        block.len() > 0,
    ensures
        features_of(lane, block).looks_like_repeats <==> 2 * (repeated(block).len() + 1)
            > block.len(),
{
    lemma_repeats(block);
}

/// The buckets of values are no more than the values.
proof fn lemma_buckets_of(vals: Seq<u64>, k: nat, all: Set<u64>)
    requires
        k <= vals.len(),
        all.finite(),
        forall|i: int| 0 <= i < vals.len() ==> all.contains(#[trigger] vals[i]),
    ensures
        features::buckets(vals, k).finite(),
        features::buckets(vals, k).subset_of(all.map(|v: u64| features::bucket(v))),
    decreases k,
{
    if k > 0 {
        lemma_buckets_of(vals, (k - 1) as nat, all);
        assert(all.contains(vals[k - 1]));
        assert(all.map(|v: u64| features::bucket(v)).contains(features::bucket(vals[k - 1])));
    }
}

/// A block of fewer than two thousand and forty-eight distinct values shows it.
pub proof fn lemma_few_distinct(lane: Lane, block: Seq<u64>)
    requires
        block.len() > 0,
        block.to_set().len() < 2048,
    ensures
        features_of(lane, block).distinct_low,
{
    let all = block.to_set();
    vstd::seq_lib::seq_to_set_is_finite(block);
    let step = features::step_for(block.len(), 4096);
    let s = sample::strided(block, step);
    assert forall|i: int| 0 <= i < s.len() implies all.contains(#[trigger] s[i]) by {
        sample::lemma_strided_in_range(block.len(), step, i);
        assert(block.contains(block[i * step]));
    }
    lemma_buckets_of(s, s.len(), all);
    let image = all.map(|v: u64| features::bucket(v));
    lemma_map_size_bound(all, image, |v: u64| features::bucket(v));
    lemma_len_subset(features::buckets(s, s.len()), image);
}

/// In a block that is looked at value by value, values of as many buckets show that they
/// are many.
pub proof fn lemma_many_distinct(lane: Lane, block: Seq<u64>)
    requires
        0 < block.len() < 8192,
        forall|i: int, j: int|
            0 <= i < j < block.len() ==> features::bucket(#[trigger] block[i]) != features::bucket(
                #[trigger] block[j],
            ),
    ensures
        features_of(lane, block).distinct_low <==> block.len() < 2048,
{
    let step = features::step_for(block.len(), 4096);
    assert(step == 1);
    let s = sample::strided(block, step);
    assert(s =~= block);
    lemma_bucket_count(block, block.len());
}

proof fn lemma_bucket_count(vals: Seq<u64>, k: nat)
    requires
        k <= vals.len(),
        forall|i: int, j: int|
            0 <= i < j < vals.len() ==> features::bucket(#[trigger] vals[i]) != features::bucket(
                #[trigger] vals[j],
            ),
    ensures
        features::buckets(vals, k).finite(),
        features::buckets(vals, k).len() == k,
        forall|b: int| #[trigger]
            features::buckets(vals, k).contains(b) ==> exists|i: int|
                0 <= i < k && b == features::bucket(#[trigger] vals[i]),
    decreases k,
{
    if k > 0 {
        lemma_bucket_count(vals, (k - 1) as nat);
        let before = features::buckets(vals, (k - 1) as nat);
        let b = features::bucket(vals[k - 1]);
        if before.contains(b) {
            let i = choose|i: int| 0 <= i < k - 1 && b == features::bucket(#[trigger] vals[i]);
            assert(features::bucket(vals[i]) != features::bucket(vals[k - 1]));
        }
    }
}

/// The exponent field of a word as a float: the eleven or eight bits below the sign.
pub open spec fn exponent_field(lane: Lane, v: u64) -> int {
    match lane {
        Lane::W64 => (v as int / 0x10_0000_0000_0000) % 2048,
        Lane::W32 => (v as int / 0x80_0000) % 256,
    }
}

/// The exponent spread is the distance of the two exponent fields that lie farthest apart.
pub proof fn lemma_exponent_spread(lane: Lane, block: Seq<u64>, i: int, j: int)
    requires
        lane.fits_all(block),
        0 <= i < block.len(),
        0 <= j < block.len(),
    ensures
        exponent_field(lane, block[i]) - exponent_field(lane, block[j]) <= features_of(
            lane,
            block,
        ).exp_range,
        exists|a: int, b: int|
            0 <= a < block.len() && 0 <= b < block.len() && exponent_field(
                lane,
                #[trigger] block[a],
            ) - exponent_field(lane, #[trigger] block[b]) == features_of(lane, block).exp_range,
{
    let e = features::exponents(lane, block);
    assert forall|k: int| 0 <= k < block.len() implies #[trigger] e[k] == exponent_field(
        lane,
        block[k],
    ) by {
        assert(lane.fits(block[k]));
    }
    sort::lemma_min_le_max(e);
    e.min_ensures();
    e.max_ensures();
    let a = choose|a: int| 0 <= a < e.len() && e[a] == e.max();
    let b = choose|b: int| 0 <= b < e.len() && e[b] == e.min();
    assert(e.contains(e[i]) && e.contains(e[j]));
    assert(e[i] <= e.max() && e.min() <= e[j]);
    assert(exponent_field(lane, block[a]) - exponent_field(lane, block[b]) == e.max() - e.min());
}

/// A float is finite exactly where not all bits of its exponent field are set.
pub proof fn lemma_finite(lane: Lane, block: Seq<u64>)
    requires
        lane.fits_all(block),
    ensures
        features::is_finite(lane, block) <==> forall|i: int|
            0 <= i < block.len() ==> exponent_field(lane, #[trigger] block[i]) != (match lane {
                Lane::W64 => 2047int,
                Lane::W32 => 255int,
            }),
{
    assert forall|i: int| 0 <= i < block.len() implies exponent_field(lane, #[trigger] block[i])
        == lane.exponent(block[i]) by {
        assert(lane.fits(block[i]));
    }
}

/// A sample takes evenly spaced runs: all positions where few enough are wanted, else
/// about as many as wanted, the first run at the start and the last at the end of the
/// block, positions following each other within a run.
pub proof fn lemma_sample_spread(n: nat, count: nat)
    requires
        count >= 16,
    ensures
        n <= count ==> sample::sampled(n, count) == Seq::new(n, |i: int| i),
        n > count ==> {
            let s = sample::sampled(n, count);
            let len = count / 8;
            &&& s.len() <= count < s.len() + len
            &&& s[0] == 0
            &&& s[s.len() - 1] == n - 1
            &&& forall|i: int|
                0 <= i < s.len() - 1 && (i + 1) % (len as int) != 0 ==> #[trigger] s[i + 1] == s[i]
                    + 1
        },
{
    if n > count {
        let s = sample::sampled(n, count);
        let len = (count / 8) as int;
        let k = sample::runs(count) as int;
        assert(k * len <= count < k * len + len && k >= 8) by (nonlinear_arith)
            requires
                k == count as int / len,
                len == count as int / 8,
                count >= 16,
        ;
        assert(s.len() == k * len);
        let last = s.len() - 1;
        assert((k - 1) * len + (len - 1) == k * len - 1) by (nonlinear_arith);
        vstd::arithmetic::div_mod::lemma_fundamental_div_mod_converse(last, len, k - 1, len - 1);
        assert(((k - 1) * (n - len)) / (k - 1) == n - len) by (nonlinear_arith)
            requires
                k > 1,
        ;
        assert(0 * (n - len) == 0);
        assert(sample::run_start(n, count, 0) == 0);
        assert forall|i: int| 0 <= i < s.len() - 1 && (i + 1) % len != 0 implies #[trigger] s[i + 1]
            == s[i] + 1 by {
            vstd::arithmetic::div_mod::lemma_fundamental_div_mod(i, len);
            let (q, r) = (i / len, i % len);
            assert(r + 1 < len) by {
                if r + 1 == len {
                    assert((q + 1) * len == i + 1) by (nonlinear_arith)
                        requires
                            i == len * q + r,
                            r + 1 == len,
                    ;
                    vstd::arithmetic::div_mod::lemma_mod_multiples_basic(q + 1, len);
                }
            }
            assert(i + 1 == q * len + (r + 1)) by (nonlinear_arith)
                requires
                    i == len * q + r,
            ;
            vstd::arithmetic::div_mod::lemma_fundamental_div_mod_converse(i + 1, len, q, r + 1);
        }
    }
}

/// The runs of a sample lie evenly: the distance from one to the next is the same
/// everywhere, up to one.
pub proof fn lemma_sample_is_even(n: nat, count: nat, r: int)
    requires
        16 <= count < n,
        0 <= r,
        r + 1 < count / (count / 8),
    ensures
        ({
            let gap = sample::run_start(n, count, r + 1) - sample::run_start(n, count, r);
            let even = (n - count / 8) / (count / (count / 8) - 1);
            even <= gap <= even + 1
        }),
{
    let (d, k) = (n - count / 8, count / (count / 8) - 1);
    let (q, m) = (d / k, d % k);
    vstd::arithmetic::div_mod::lemma_fundamental_div_mod(d, k);
    vstd::arithmetic::div_mod::lemma_fundamental_div_mod(r * m, k);
    let (x, y) = ((r * m) / k, (r * m) % k);
    assert(r * d == (r * q + x) * k + y) by (nonlinear_arith)
        requires
            d == k * q + m,
            r * m == k * x + y,
    ;
    vstd::arithmetic::div_mod::lemma_fundamental_div_mod_converse(r * d, k, r * q + x, y);
    if y + m < k {
        assert((r + 1) * d == ((r + 1) * q + x) * k + (y + m)) by (nonlinear_arith)
            requires
                d == k * q + m,
                r * d == (r * q + x) * k + y,
        ;
        vstd::arithmetic::div_mod::lemma_fundamental_div_mod_converse(
            (r + 1) * d,
            k,
            (r + 1) * q + x,
            y + m,
        );
        assert((r + 1) * q == r * q + q) by (nonlinear_arith);
    } else {
        assert((r + 1) * d == ((r + 1) * q + x + 1) * k + (y + m - k)) by (nonlinear_arith)
            requires
                d == k * q + m,
                r * d == (r * q + x) * k + y,
        ;
        vstd::arithmetic::div_mod::lemma_fundamental_div_mod_converse(
            (r + 1) * d,
            k,
            (r + 1) * q + x + 1,
            y + m - k,
        );
        assert((r + 1) * q == r * q + q) by (nonlinear_arith);
    }
}

/// Distinct values are told apart by 16384 buckets, even parts of the range over which a
/// multiplication scatters the values.
pub proof fn lemma_bucket(v: u64)
    ensures
        ({
            let scattered = (v * 0x9E37_79B9_7F4A_7C15) % 0x1_0000_0000_0000_0000;
            let b = features::bucket(v);
            &&& 0 <= b < 16384
            &&& b * 0x4_0000_0000_0000 <= scattered < (b + 1) * 0x4_0000_0000_0000
        }),
{
}

} // verus!
