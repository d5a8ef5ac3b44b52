//! Which modes may compete for a block, what they cost to decode, and which
//! candidate wins.
//!
//! A candidate is allowed when it is at most the decode bias larger (in percent)
//! than the smallest. Among the allowed ones the least `size * (1 + lambda * w /
//! 1000)` wins, where `w` is the decode cost in nanoseconds per value; the
//! earlier wins a tie.

use vstd::prelude::*;
use crate::bytes::tail;
use crate::codecs::alp_rd;
use crate::codecs::dict;
use crate::codecs::float_mult::FM_BITPACK;
use crate::config::Level;
use crate::dtype::Family;
use crate::entropy::{TAG_LZ, TAG_RC};
use crate::lane::Lane;
use crate::mode::Mode;
use crate::varint;

verus! {

/// Float-value codecs apply to float columns only; every other mode works on the
/// lane words of any column.
#[verifier::allow_in_spec]
pub fn mode_applies(mode: Mode, family: Family) -> (r: bool)
    returns
        (match mode {
            Mode::Delta2 | Mode::DeltaDp | Mode::FloatMult | Mode::Alp | Mode::AlpRd =>
                family is Float,
            _ => true,
        }),
{
    match mode {
        Mode::Delta2 | Mode::DeltaDp | Mode::FloatMult | Mode::Alp | Mode::AlpRd => match family {
            Family::Float => true,
            Family::Int => false,
        },
        _ => true,
    }
}

/// Whether a mode decodes through an entropy coder.
#[verifier::allow_in_spec]
pub fn is_entropy_mode(mode: Mode) -> (r: bool)
    returns
        (match mode {
            Mode::PredRc | Mode::Pred2 | Mode::Delta2 | Mode::DeltaDp | Mode::OrderedDelta => true,
            Mode::FloatMult | Mode::Lz | Mode::ByteTranspose => true,
            _ => false,
        }),
{
    match mode {
        Mode::PredRc | Mode::Pred2 | Mode::Delta2 | Mode::DeltaDp | Mode::OrderedDelta => true,
        Mode::FloatMult | Mode::Lz | Mode::ByteTranspose => true,
        _ => false,
    }
}

/// The sequential predictors, which cannot be vectorised.
#[verifier::allow_in_spec]
pub fn is_predictor_mode(mode: Mode) -> (r: bool)
    returns
        (match mode {
            Mode::Pred | Mode::PredRc | Mode::Pred2 => true,
            Mode::Delta2 | Mode::DeltaDp | Mode::OrderedDelta => true,
            _ => false,
        }),
{
    match mode {
        Mode::Pred | Mode::PredRc | Mode::Pred2 => true,
        Mode::Delta2 | Mode::DeltaDp | Mode::OrderedDelta => true,
        _ => false,
    }
}

/// Whether a mode may compete for a column of `family` at `level`, judged by its
/// kind alone.
#[verifier::allow_in_spec]
pub fn mode_runs(mode: Mode, family: Family, level: Level) -> (r: bool)
    returns
        mode_applies(mode, family) && (if is_predictor_mode(mode) {
            level.allows_predictors()
        } else {
            level.allows_entropy() || !is_entropy_mode(mode)
        }),
{
    if !mode_applies(mode, family) {
        return false;
    }
    if is_predictor_mode(mode) {
        return level.allows_predictors();
    }
    level.allows_entropy() || !is_entropy_mode(mode)
}

/// Whether a mode may compete in the full competition at `level`: the pool of
/// the level.
#[verifier::allow_in_spec]
pub fn in_pool(mode: Mode, family: Family, level: Level) -> (r: bool)
    returns
        mode_applies(mode, family) && (match mode {
            Mode::Raw | Mode::Const | Mode::Stride => true,
            Mode::ForBitpack | Mode::DeltaBitpack => true,
            Mode::Xorz | Mode::FloatMult | Mode::Alp => !level.reduced_pool(),
            Mode::AlpRd | Mode::Dict | Mode::Rle => !level.reduced_pool(),
            Mode::Lz | Mode::ByteTranspose => level.allows_entropy(),
            Mode::Pco => level.allows_pco(),
            _ => level.allows_predictors(),
        }),
{
    mode_applies(mode, family) && match mode {
        Mode::Raw | Mode::Const | Mode::Stride => true,
        Mode::ForBitpack | Mode::DeltaBitpack => true,
        Mode::Xorz | Mode::FloatMult | Mode::Alp => !level.reduced_pool(),
        Mode::AlpRd | Mode::Dict | Mode::Rle => !level.reduced_pool(),
        Mode::Lz | Mode::ByteTranspose => level.allows_entropy(),
        Mode::Pco => level.allows_pco(),
        _ => level.allows_predictors(),
    }
}

/// A higher level's pool holds every mode of a lower level's.
pub proof fn lemma_pool_ladder(mode: Mode, family: Family, lo: Level, hi: Level)
    requires
        lo.rank() <= hi.rank(),
        in_pool(mode, family, lo),
    ensures
        in_pool(mode, family, hi),
{
}

/// The lowest level holds only the cheapest modes, those of random access.
pub proof fn lemma_fastest_pool(mode: Mode, family: Family)
    ensures
        in_pool(mode, family, Level::Fastest) <==> (mode is Raw || mode is Const || mode is Stride
            || mode is ForBitpack || mode is DeltaBitpack),
{
}

/// Up to the middle level no mode decodes by a recurrence.
pub proof fn lemma_balanced_has_no_recurrence(mode: Mode, family: Family, level: Level)
    requires
        level.rank() <= Level::Balanced.rank(),
        in_pool(mode, family, level),
    ensures
        !is_predictor_mode(mode),
{
}

// ---------------------------------------------------------------------------
// Decode cost
// ---------------------------------------------------------------------------

/// Decode cost of a range-coded stream, in nanoseconds per value.
pub const NS_RANGE: u64 = 200;

/// Decode cost of a rANS-coded stream.
pub const NS_RANS: u64 = 32;

/// Decode cost of a bit-packed dictionary or split.
pub const NS_LOOKUP: u64 = 7;

/// Decode cost of the `pco` codec.
pub const NS_PCO: u64 = 4;

/// Decode cost of a predictor without entropy coding.
pub const NS_PRED: u64 = 3;

/// Decode cost of plain bit-packing.
pub const NS_PACKED: u64 = 1;

/// Decode cost of a tagged entropy-coded stream.
pub open spec fn coded_cost(s: Seq<u8>) -> u64 {
    if s.len() == 0 || s[0] == TAG_RC {
        NS_RANGE
    } else if s[0] == TAG_LZ {
        match varint::varint_parse(s.drop_first()) {
            Err(_) => NS_RANGE,
            Ok((_, inner)) => if inner.len() == 0 || inner[0] == TAG_RC {
                NS_RANGE
            } else {
                NS_RANS
            },
        }
    } else {
        NS_RANS
    }
}

/// Decode cost of a block.
pub open spec fn decode_cost(lane: Lane, mode: Mode, payload: Seq<u8>) -> u64 {
    match mode {
        Mode::Raw | Mode::Const | Mode::Stride => 0,
        Mode::Xorz | Mode::ForBitpack | Mode::DeltaBitpack | Mode::Alp | Mode::Rle => NS_PACKED,
        Mode::FloatMult => if payload.len() < 2 || payload[0] != FM_BITPACK {
            coded_cost(
                if payload.len() < 2 {
                    Seq::empty()
                } else {
                    payload.skip(2)
                },
            )
        } else {
            NS_PACKED
        },
        Mode::Pred => NS_PRED,
        Mode::Pco => NS_PCO,
        Mode::AlpRd => if alp_rd::rd_bitpacked(lane, payload) {
            NS_LOOKUP
        } else {
            NS_RANS
        },
        Mode::Dict => if dict::dict_bitpacked(payload) {
            NS_LOOKUP
        } else {
            NS_RANS
        },
        _ => coded_cost(payload),
    }
}

/// The most that a block of the level costs to decode: bit-packing at the lowest,
/// then lookups, then rANS, then the range coder.
pub open spec fn class_limit(level: Level) -> u64 {
    match level {
        Level::Fastest => NS_PACKED,
        Level::Fast => NS_LOOKUP,
        Level::Balanced => NS_RANS,
        Level::High | Level::Max => NS_RANGE,
    }
}

/// The classes rise with the levels.
pub proof fn lemma_class_ladder(lo: Level, hi: Level)
    requires
        lo.rank() <= hi.rank(),
    ensures
        class_limit(lo) <= class_limit(hi),
{
}

fn coded_weight(s: &[u8]) -> (w: u64)
    ensures
        w == coded_cost(s@),
{
    if s.len() == 0 || s[0] == TAG_RC {
        return NS_RANGE;
    }
    if s[0] == TAG_LZ {
        let mut pos: usize = 1;
        assert(s@.skip(1) =~= s@.drop_first());
        if varint::read_u64(s, &mut pos).is_err() {
            return NS_RANGE;
        }
        if pos == s.len() || s[pos] == TAG_RC {
            assert(pos < s.len() ==> s@.skip(pos as int)[0] == s@[pos as int]);
            return NS_RANGE;
        }
        assert(s@.skip(pos as int)[0] == s@[pos as int]);
    }
    NS_RANS
}

/// Decode cost of a block, in nanoseconds per value.
pub fn decode_weight(lane: Lane, mode: Mode, payload: &[u8]) -> (w: u64)
    ensures
        w == decode_cost(lane, mode, payload@),
        w <= NS_RANGE,
{
    match mode {
        Mode::Raw | Mode::Const | Mode::Stride => 0,
        Mode::Xorz | Mode::ForBitpack | Mode::DeltaBitpack | Mode::Alp | Mode::Rle => NS_PACKED,
        Mode::FloatMult => if payload.len() < 2 {
            NS_RANGE
        } else if payload[0] != FM_BITPACK {
            coded_weight(tail(payload, 2))
        } else {
            NS_PACKED
        },
        Mode::Pred => NS_PRED,
        Mode::Pco => NS_PCO,
        Mode::AlpRd => if alp_rd::uses_entropy(lane, payload) {
            NS_RANS
        } else {
            NS_LOOKUP
        },
        Mode::Dict => if dict::uses_entropy(payload) {
            NS_RANS
        } else {
            NS_LOOKUP
        },
        _ => coded_weight(payload),
    }
}

// ---------------------------------------------------------------------------
// The winner
// ---------------------------------------------------------------------------

/// Candidate `i` is within the allowance: no candidate is so much smaller that
/// `bias` percent more would not reach `i`. The greatest bias allows everything.
pub open spec fn allowed(sizes: Seq<usize>, i: int, bias: u32) -> bool {
    bias == u32::MAX || forall|j: int|
        0 <= j < sizes.len() ==> sizes[i] * 100 <= #[trigger] sizes[j] * (100 + bias)
}

/// The score of candidate `i`: its size, raised by its decode cost.
pub open spec fn score(sizes: Seq<usize>, weights: Seq<u64>, i: int, lambda: u64) -> int {
    sizes[i] * (1000 + lambda * weights[i])
}

/// Candidate `w` wins.
pub open spec fn is_winner(
    sizes: Seq<usize>,
    weights: Seq<u64>,
    lambda: u64,
    bias: u32,
    w: int,
) -> bool {
    &&& 0 <= w < sizes.len()
    &&& allowed(sizes, w, bias)
    &&& forall|j: int|
        0 <= j < sizes.len() && #[trigger] allowed(sizes, j, bias) ==> score(
            sizes,
            weights,
            w,
            lambda,
        ) < score(sizes, weights, j, lambda) || (score(sizes, weights, w, lambda) == score(
            sizes,
            weights,
            j,
            lambda,
        ) && w <= j)
}

/// With no bias the winner is a smallest candidate.
pub proof fn lemma_unbiased_winner_is_smallest(
    sizes: Seq<usize>,
    weights: Seq<u64>,
    lambda: u64,
    w: int,
    j: int,
)
    requires
        is_winner(sizes, weights, lambda, 0, w),
        0 <= j < sizes.len(),
    ensures
        sizes[w] <= sizes[j],
{
    assert(sizes[w] * 100 <= sizes[j] * 100);
}

/// A winner that decodes `slower` nanoseconds per value slower than an allowed
/// candidate is smaller in proportion: by `lambda * slower` thousandths where that
/// candidate costs nothing.
pub proof fn lemma_slower_winner_is_smaller(
    sizes: Seq<usize>,
    weights: Seq<u64>,
    lambda: u64,
    bias: u32,
    w: int,
    j: int,
    slower: nat,
)
    requires
        is_winner(sizes, weights, lambda, bias, w),
        0 <= j < sizes.len(),
        allowed(sizes, j, bias),
        weights[w] == weights[j] + slower,
    ensures
        sizes[w] * (1000 + lambda * weights[j] + lambda * slower) <= sizes[j] * (1000 + lambda
            * weights[j]),
{
    assert(score(sizes, weights, w, lambda) <= score(sizes, weights, j, lambda));
    assert(lambda * weights[w] == lambda * weights[j] + lambda * slower) by (nonlinear_arith)
        requires
            weights[w] == weights[j] + slower,
    ;
}

/// The winner is never larger than a candidate that costs nothing to decode.
pub proof fn lemma_winner_beats_free(
    sizes: Seq<usize>,
    weights: Seq<u64>,
    lambda: u64,
    bias: u32,
    w: int,
    j: int,
)
    requires
        is_winner(sizes, weights, lambda, bias, w),
        0 <= j < sizes.len(),
        weights.len() == sizes.len(),
        weights[j] == 0,
    ensures
        sizes[w] <= sizes[j],
{
    let a = sizes[w] as int;
    let b = sizes[j] as int;
    if allowed(sizes, j, bias) {
        let f = 1000 + lambda * weights[w];
        assert(f >= 1000) by (nonlinear_arith)
            requires
                f == 1000 + lambda * weights[w],
        ;
        assert(lambda * weights[j] == 0) by (nonlinear_arith)
            requires
                weights[j] == 0,
        ;
        assert(a * f >= a * 1000) by (nonlinear_arith)
            requires
                f >= 1000,
                a >= 0,
        ;
        assert(a * f <= b * 1000);
    } else {
        let k = choose|k: int|
            0 <= k < sizes.len() && !(sizes[j] * 100 <= #[trigger] sizes[k] * (100 + bias));
        assert(sizes[w] * 100 <= sizes[k] * (100 + bias));
    }
}

/// The smallest of `sizes`.
fn smallest_of(sizes: &[usize]) -> (m: usize)
    requires
        sizes.len() > 0,
    ensures
        sizes@.contains(m),
        forall|j: int| 0 <= j < sizes.len() ==> m <= #[trigger] sizes@[j],
{
    let mut m: usize = sizes[0];
    let mut i: usize = 1;
    while i < sizes.len()
        invariant
            1 <= i <= sizes.len(),
            sizes@.contains(m),
            forall|j: int| 0 <= j < i ==> m <= #[trigger] sizes@[j],
        decreases sizes.len() - i,
    {
        if sizes[i] < m {
            m = sizes[i];
        }
        i = i + 1;
    }
    m
}

fn is_allowed(sizes: &[usize], i: usize, bias: u32, smallest: usize) -> (r: bool)
    requires
        i < sizes.len(),
        sizes@.contains(smallest),
        forall|j: int| 0 <= j < sizes.len() ==> smallest <= #[trigger] sizes@[j],
    ensures
        r == allowed(sizes@, i as int, bias),
{
    if bias == u32::MAX {
        return true;
    }
    let factor: u128 = 100 + bias as u128;
    assert(smallest * factor <= 0xFFFF_FFFF_FFFF_FFFF * 0x1_0000_0063) by (nonlinear_arith)
        requires
            smallest <= 0xFFFF_FFFF_FFFF_FFFF,
            factor <= 0x1_0000_0063,
    ;
    let r: bool = sizes[i] as u128 * 100 <= smallest as u128 * factor;
    proof {
        let k = choose|k: int| 0 <= k < sizes.len() && sizes@[k] == smallest;
        if r {
            assert forall|j: int| 0 <= j < sizes.len() implies sizes@[i as int] * 100
                <= #[trigger] sizes@[j] * (100 + bias) by {
                let s = sizes@[j];
                assert(smallest * (100 + bias) <= s * (100 + bias)) by (nonlinear_arith)
                    requires
                        smallest <= s,
                ;
            }
        } else {
            assert(!(sizes@[i as int] * 100 <= sizes@[k] * (100 + bias)));
        }
    }
    r
}

/// The index of the winning candidate.
pub fn select(sizes: &[usize], weights: &[u64], lambda: u64, bias: u32) -> (w: usize)
    requires
        sizes.len() > 0,
        weights.len() == sizes.len(),
        lambda <= 1000,
        forall|j: int| 0 <= j < weights.len() ==> #[trigger] weights@[j] <= NS_RANGE,
    ensures
        is_winner(sizes@, weights@, lambda, bias, w as int),
{
    let smallest: usize = smallest_of(sizes);
    let mut best: Option<usize> = None;
    let mut best_score: u128 = 0;
    let mut i: usize = 0;
    while i < sizes.len()
        invariant
            i <= sizes.len(),
            weights.len() == sizes.len(),
            lambda <= 1000,
            forall|j: int| 0 <= j < weights.len() ==> #[trigger] weights@[j] <= NS_RANGE,
            sizes@.contains(smallest),
            forall|j: int| 0 <= j < sizes.len() ==> smallest <= #[trigger] sizes@[j],
            best is None ==> forall|j: int| 0 <= j < i ==> !(#[trigger] allowed(sizes@, j, bias)),
            best matches Some(b) ==> b < i && allowed(sizes@, b as int, bias) && best_score
                == score(sizes@, weights@, b as int, lambda) && forall|j: int|
                0 <= j < i && #[trigger] allowed(sizes@, j, bias) ==> score(
                    sizes@,
                    weights@,
                    b as int,
                    lambda,
                ) < score(sizes@, weights@, j, lambda) || (score(sizes@, weights@, b as int, lambda)
                    == score(sizes@, weights@, j, lambda) && b <= j),
        decreases sizes.len() - i,
    {
        if is_allowed(sizes, i, bias, smallest) {
            assert(weights@[i as int] <= NS_RANGE);
            assert(lambda * weights[i as int] <= 1000 * 200) by (nonlinear_arith)
                requires
                    lambda <= 1000,
                    weights[i as int] <= 200,
            ;
            let factor: u64 = 1000 + lambda * weights[i];
            assert(sizes[i as int] * factor <= 0xFFFF_FFFF_FFFF_FFFF * 201000) by (nonlinear_arith)
                requires
                    sizes[i as int] <= 0xFFFF_FFFF_FFFF_FFFF,
                    factor <= 201000,
            ;
            let s: u128 = sizes[i] as u128 * factor as u128;
            match best {
                None => {
                    best = Some(i);
                    best_score = s;
                },
                Some(_) => {
                    if s < best_score {
                        best = Some(i);
                        best_score = s;
                    }
                },
            }
        }
        i = i + 1;
    }
    match best {
        Some(b) => b,
        None => {
            proof {
                let k = choose|k: int| 0 <= k < sizes.len() && sizes@[k] == smallest;
                assert(allowed(sizes@, k, bias)) by {
                    assert forall|j: int| 0 <= j < sizes.len() implies sizes@[k] * 100
                        <= #[trigger] sizes@[j] * (100 + bias) by {
                        let s = sizes@[j];
                        assert(smallest * 100 <= s * (100 + bias)) by (nonlinear_arith)
                            requires
                                smallest <= s,
                        ;
                    }
                }
            }
            0
        },
    }
}

} // verus!
