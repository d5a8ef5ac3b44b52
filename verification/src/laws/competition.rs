//! What the competition for a block promises: which blocks it is held for, and what the
//! winner is no larger than.

use vstd::prelude::*;
use vstd::arithmetic::power2::*;
use crate::codecs::pred;
use crate::codecs::pred::Flavor;
use crate::codecs::{alp_rd, delta_bitpack, dict, for_bitpack, linear, lz, rle, transpose, xorz};
use crate::column;
use crate::column::ColumnView;
use crate::config::{Config, Level, Selection};
use crate::decimal;
use crate::encoder;
use crate::encoder::{Candidate, FloatOffer, Terms};
use crate::entropy;
use crate::features;
use crate::features::BlockFeatures;
use crate::lane::Lane;
use crate::laws::{blocks, values};
use crate::mode::Mode;
use crate::sample;
use crate::selection;

verus! {

// ---------------------------------------------------------------------------
// Noise
// ---------------------------------------------------------------------------

/// Each value is the one before plus a difference below a sixty-fourth of the lane either
/// way, wrapped to the lane.
pub open spec fn is_smooth(lane: Lane, block: Seq<u64>, deltas: Seq<int>) -> bool {
    &&& deltas.len() == block.len()
    &&& forall|i: int|
        0 < i < block.len() ==> {
            &&& -(lane.modulus() / 64) <= #[trigger] deltas[i] < lane.modulus() / 64
            &&& block[i] == (block[i - 1] + deltas[i]) % (lane.modulus() as int)
        }
}

proof fn lemma_wide(lane: Lane)
    ensures
        pow2((lane.bits() - 5) as nat) == lane.modulus() / 32,
        lane.modulus() / 32 == 2 * (lane.modulus() / 64),
{
    lemma2_to64();
    lemma2_to64_rest();
}

/// The zigzag distance of a small difference is small.
proof fn lemma_small_step(lane: Lane, a: u64, b: u64, d: int)
    requires
        lane.fits(a),
        b == (a + d) % (lane.modulus() as int),
        -(lane.modulus() / 64) <= d < lane.modulus() / 64,
    ensures
        lane.zigzagged(lane.diff(b, a)) < lane.modulus() / 32,
{
    let m = lane.modulus() as int;
    vstd::arithmetic::div_mod::lemma_sub_mod_noop(a + d, a as int, m);
    vstd::arithmetic::div_mod::lemma_sub_mod_noop((a + d) % m, a as int, m);
    vstd::arithmetic::div_mod::lemma_mod_twice(a + d, m);
    assert((b - a) % m == d % m);
    if d >= 0 {
        vstd::arithmetic::div_mod::lemma_small_mod(d as nat, m as nat);
    } else {
        vstd::arithmetic::div_mod::lemma_mod_add_multiples_vanish(d, m);
        vstd::arithmetic::div_mod::lemma_small_mod((d + m) as nat, m as nat);
    }
}

/// Smooth data is no noise: where each value lies near the one before, wrapping included,
/// the competition is held.
pub proof fn lemma_smooth_is_no_noise(
    lane: Lane,
    block: Seq<u64>,
    deltas: Seq<int>,
    feats: BlockFeatures,
)
    requires
        lane.fits_all(block),
        is_smooth(lane, block, deltas),
    ensures
        !features::is_incompressible(lane, block, feats),
{
    lemma_wide(lane);
    if features::is_incompressible(lane, block, feats) {
        let step = features::step_for(block.len(), 2048);
        let d = features::sampled_steps(lane, block, step);
        let k = choose|k: int|
            0 <= k < d.len() && #[trigger] d[k] >= pow2((lane.bits() - 5) as nat);
        let i = (k + 1) * step;
        sample::lemma_strided_in_range(block.len(), step, k + 1);
        assert(i >= 1) by (nonlinear_arith)
            requires
                i == (k + 1) * step,
                k >= 0,
                step >= 1,
        ;
        assert(lane.fits(block[i - 1]));
        assert(-(lane.modulus() / 64) <= deltas[i] < lane.modulus() / 64);
        lemma_small_step(lane, block[i - 1], block[i], deltas[i]);
    }
}

/// Values of a narrow range are no noise.
pub proof fn lemma_narrow_is_no_noise(lane: Lane, block: Seq<u64>, feats: BlockFeatures, low: int)
    requires
        forall|i: int|
            0 <= i < block.len() ==> low <= #[trigger] block[i] < low + lane.modulus() / 32,
    ensures
        !features::is_incompressible(lane, block, feats),
{
    lemma_wide(lane);
    if features::is_incompressible(lane, block, feats) {
        let step = features::step_for(block.len(), 2048);
        let s = sample::strided(block, step);
        let (i, j) = choose|i: int, j: int|
            0 <= i < s.len() && 0 <= j < s.len() && #[trigger] s[i] - #[trigger] s[j] >= pow2(
                (lane.bits() - 5) as nat,
            );
        sample::lemma_strided_in_range(block.len(), step, i);
        sample::lemma_strided_in_range(block.len(), step, j);
        assert(low <= block[i * step] < low + lane.modulus() / 32);
        assert(low <= block[j * step] < low + lane.modulus() / 32);
    }
}

/// Short blocks are no noise.
pub proof fn lemma_short_is_no_noise(lane: Lane, block: Seq<u64>, feats: BlockFeatures)
    requires
        block.len() < 256,
    ensures
        !features::is_incompressible(lane, block, feats),
{
}

/// Blocks of few distinct values, and of values that mostly repeat, are no noise.
pub proof fn lemma_repetitive_is_no_noise(lane: Lane, block: Seq<u64>)
    ensures
        features::features_of(lane, block).distinct_low || features::features_of(
            lane,
            block,
        ).looks_like_repeats ==> !features::is_incompressible(
            lane,
            block,
            features::features_of(lane, block),
        ),
{
}

/// In a block that is looked at value by value, many distinct values that mostly change,
/// two of which lie a thirty-second of the lane apart, and two neighbours of which do by
/// zigzag distance, are noise.
pub proof fn lemma_noise(lane: Lane, block: Seq<u64>, a: int, b: int, c: int)
    requires
        lane.fits_all(block),
        256 <= block.len() < 4096,
        !features::features_of(lane, block).distinct_low,
        !features::features_of(lane, block).looks_like_repeats,
        0 <= a < block.len(),
        0 <= b < block.len(),
        block[a] - block[b] >= lane.modulus() / 32,
        0 < c < block.len(),
        lane.zigzagged(lane.diff(block[c], block[c - 1])) >= lane.modulus() / 32,
    ensures
        features::is_incompressible(lane, block, features::features_of(lane, block)),
{
    lemma_wide(lane);
    let step = features::step_for(block.len(), 2048);
    assert(step == 1);
    let s = sample::strided(block, step);
    assert(s =~= block);
    let d = features::sampled_steps(lane, block, step);
    assert(s[a] - s[b] >= pow2((lane.bits() - 5) as nat));
    assert(d[c - 1] == features::step_size(lane, block, c));
}

/// In a longer block about two thousand values are looked at, evenly spaced; the same shown
/// by these makes it noise.
pub proof fn lemma_long_noise(lane: Lane, block: Seq<u64>, a: int, b: int, c: int)
    requires
        lane.fits_all(block),
        block.len() >= 4096,
        !features::features_of(lane, block).distinct_low,
        !features::features_of(lane, block).looks_like_repeats,
        0 <= a < block.len(),
        0 <= b < block.len(),
        0 < c < block.len(),
        a % (block.len() as int / 2048) == 0,
        b % (block.len() as int / 2048) == 0,
        c % (block.len() as int / 2048) == 0,
        block[a] - block[b] >= lane.modulus() / 32,
        lane.zigzagged(lane.diff(block[c], block[c - 1])) >= lane.modulus() / 32,
    ensures
        features::is_incompressible(lane, block, features::features_of(lane, block)),
{
    lemma_wide(lane);
    let step = features::step_for(block.len(), 2048);
    let m = step as int;
    let s = sample::strided(block, step);
    let d = features::sampled_steps(lane, block, step);
    values::lemma_strided(block, step, a);
    values::lemma_strided(block, step, b);
    values::lemma_strided(block, step, c);
    assert(s[a / m] - s[b / m] >= pow2((lane.bits() - 5) as nat));
    let k = c / m - 1;
    vstd::arithmetic::div_mod::lemma_fundamental_div_mod(c, m);
    assert((k + 1) * m == c && k >= 0) by (nonlinear_arith)
        requires
            c == m * (k + 1) + 0,
            c > 0,
            m > 0,
    ;
    assert(d[k] == features::step_size(lane, block, c));
}

/// Only noise among integers is kept from the competition: floats never are, nor are
/// integers that the probe does not call noise.
pub proof fn lemma_only_noise_is_skipped(t: Terms)
    ensures
        encoder::skips_competition(t.dtype, t.block) ==> !(t.dtype is F64 || t.dtype is F32),
        !(t.dtype is F64 || t.dtype is F32) ==> (encoder::skips_competition(t.dtype, t.block)
            <==> features::is_incompressible(
            t.dtype.lane(),
            t.block,
            features::features_of(t.dtype.lane(), t.block),
        )),
{
}

// ---------------------------------------------------------------------------
// What the winner is no larger than
// ---------------------------------------------------------------------------

/// Candidate `j` is a smallest.
proof fn lemma_smallest(sizes: Seq<usize>, bias: u32) -> (k: int)
    requires
        sizes.len() > 0,
    ensures
        0 <= k < sizes.len(),
        forall|j: int| 0 <= j < sizes.len() ==> sizes[k] <= #[trigger] sizes[j],
        selection::allowed(sizes, k, bias),
    decreases sizes.len(),
{
    let k = lemma_least(sizes);
    assert forall|j: int| 0 <= j < sizes.len() implies sizes[k] * 100 <= #[trigger] sizes[j] * (100
        + bias) by {
        let (x, y) = (sizes[k] as int, sizes[j] as int);
        assert(x <= y);
        assert(x * 100 <= y * (100 + bias)) by (nonlinear_arith)
            requires
                0 <= x <= y,
                bias >= 0,
        ;
    }
    k
}

proof fn lemma_least(sizes: Seq<usize>) -> (k: int)
    requires
        sizes.len() > 0,
    ensures
        0 <= k < sizes.len(),
        forall|j: int| 0 <= j < sizes.len() ==> sizes[k] <= #[trigger] sizes[j],
    decreases sizes.len(),
{
    if sizes.len() == 1 {
        0
    } else {
        let front = sizes.drop_last();
        let k = lemma_least(front);
        assert forall|j: int| 0 <= j < front.len() implies sizes[k] <= #[trigger] sizes[j] by {
            assert(front[k] <= front[j]);
        }
        if sizes.last() < sizes[k] {
            sizes.len() - 1
        } else {
            k
        }
    }
}

/// Where decode cost does not count, the winner is a smallest candidate, whatever the
/// decode bias.
pub proof fn lemma_costless_winner_is_smallest(
    sizes: Seq<usize>,
    weights: Seq<u64>,
    bias: u32,
    w: int,
    j: int,
)
    requires
        selection::is_winner(sizes, weights, 0, bias, w),
        0 <= j < sizes.len(),
    ensures
        sizes[w] <= sizes[j],
{
    let k = lemma_smallest(sizes, bias);
    assert(selection::score(sizes, weights, w, 0) <= selection::score(sizes, weights, k, 0));
    assert(0 * weights[w] == 0 && 0 * weights[k] == 0);
    assert(sizes[k] <= sizes[j]);
}

/// The winner of a block is no larger than a candidate that costs nothing to decode, and
/// at the two highest levels no larger than any candidate.
pub proof fn lemma_no_larger(
    t: Terms,
    cfg: Config,
    cands: Seq<Candidate>,
    c: Candidate,
    j: int,
)
    requires
        encoder::wins(t.dtype, cfg.level.lambda(), cfg.spec_decode_bias(), cands, c),
        0 <= j < cands.len(),
        cfg.level is High || cfg.level is Max || cands[j].mode is Raw || cands[j].mode is Const
            || cands[j].mode is Stride,
    ensures
        c.payload@.len() <= cands[j].payload@.len(),
{
    let lane = t.dtype.lane();
    let sizes = encoder::sizes_of(cands);
    let weights = encoder::weights_of(lane, cands);
    let (lambda, bias) = (cfg.level.lambda(), cfg.spec_decode_bias());
    let w = choose|w: int|
        #[trigger] selection::is_winner(sizes, weights, lambda, bias, w) && c.mode == cands[w].mode
            && c.payload@ == cands[w].payload@;
    assert(sizes[w] == cands[w].payload.len() && sizes[j] == cands[j].payload.len());
    if cfg.level is High || cfg.level is Max {
        lemma_costless_winner_is_smallest(sizes, weights, bias, w, j);
    } else {
        selection::lemma_winner_beats_free(sizes, weights, lambda, bias, w, j);
    }
}

/// The block is verbatim and alone where it is noise, and may be beaten by what costs
/// nothing to decode otherwise: a won block is no larger than its words.
pub proof fn lemma_never_larger_than_verbatim(t: Terms, cfg: Config, c: Candidate)
    requires
        encoder::wins_block(t, cfg, c),
    ensures
        c.payload@.len() <= t.block.len() * t.dtype.lane().bytes(),
{
    let cands = choose|cands: Seq<Candidate>|
        #[trigger] encoder::pool(t, cfg, cands) && encoder::wins(
            t.dtype,
            cfg.level.lambda(),
            cfg.spec_decode_bias(),
            cands,
            c,
        );
    reveal(encoder::full_pool);
    reveal(encoder::sampled_pool);
    lemma_no_larger(t, cfg, cands, c, 0);
    crate::lane::lemma_words_bytes_len(t.dtype.lane(), t.block);
}

/// Equal values are stored as one, and a progression as two words, at every level and
/// under either way of selection, unless the block is noise.
pub proof fn lemma_regular_is_small(t: Terms, cfg: Config, c: Candidate, step: int)
    requires
        encoder::wins_block(t, cfg, c),
        t.dtype.lane().fits_all(t.block),
        t.block.len() > 0,
        crate::laws::predictors::steps_by(t.dtype.lane(), t.block, step),
        cfg.selection is Full ==> !encoder::skips_competition(t.dtype, t.block),
    ensures
        step == 0 ==> c.payload@.len() <= t.dtype.lane().bytes(),
        t.block.len() >= 2 ==> c.payload@.len() <= 2 * t.dtype.lane().bytes(),
{
    let lane = t.dtype.lane();
    let cands = choose|cands: Seq<Candidate>|
        #[trigger] encoder::pool(t, cfg, cands) && encoder::wins(
            t.dtype,
            cfg.level.lambda(),
            cfg.spec_decode_bias(),
            cands,
            c,
        );
    if step == 0 {
        lemma_same(lane, t.block);
        let j = lemma_has(t, cfg, cands, Mode::Const);
        lemma_no_larger(t, cfg, cands, c, j);
        reveal(encoder::mode_image);
        crate::bytes::lemma_le_bytes_len(t.block[0] as nat, lane.bytes() as nat);
    }
    if t.block.len() >= 2 {
        lemma_progresses(lane, t.block, step);
        let j = lemma_has(t, cfg, cands, Mode::Stride);
        lemma_no_larger(t, cfg, cands, c, j);
        reveal(encoder::mode_image);
        crate::bytes::lemma_le_bytes_len(t.block[0] as nat, lane.bytes() as nat);
        crate::bytes::lemma_le_bytes_len(
            lane.diff(t.block[1], t.block[0]) as nat,
            lane.bytes() as nat,
        );
    }
}

/// A mode of regular structure that encodes the block is among the candidates, with the
/// payload it makes.
proof fn lemma_has(t: Terms, cfg: Config, cands: Seq<Candidate>, mode: Mode) -> (j: int)
    requires
        encoder::pool(t, cfg, cands),
        mode is Const || mode is Stride,
        encoder::encodes(t.dtype, mode, t.block),
        cfg.selection is Full ==> !encoder::skips_competition(t.dtype, t.block),
    ensures
        0 <= j < cands.len(),
        cands[j].mode == mode,
        cands[j].payload@ == encoder::mode_image(t.dtype, mode, t.block, t.log2, cfg.level),
{
    reveal(encoder::full_pool);
    reveal(encoder::sampled_pool);
    match cfg.selection {
        Selection::Full => {
            assert(encoder::competes(
                t,
                cfg.level,
                encoder::block_shrank(t, cands),
                mode,
            ));
        },
        Selection::Sample => {
            assert(encoder::skips_sample(t, cfg.level, mode));
        },
    }
    let j = choose|j: int| 0 <= j < cands.len() && (#[trigger] cands[j]).mode == mode;
    assert(encoder::made(t, cfg.level, cands[j]));
    j
}

proof fn lemma_same(lane: Lane, vals: Seq<u64>)
    requires
        lane.fits_all(vals),
        vals.len() > 0,
        crate::laws::predictors::steps_by(lane, vals, 0),
    ensures
        crate::codecs::const_block::is_const(vals),
    decreases vals.len(),
{
    if vals.len() > 1 {
        let front = vals.drop_last();
        assert forall|i: int| 0 <= i < front.len() implies lane.fits(#[trigger] front[i]) by {
            assert(lane.fits(vals[i]));
        }
        assert forall|i: int| 0 < i < front.len() implies #[trigger] front[i] == (front[i - 1] + 0)
            % (lane.modulus() as int) by {
            assert(vals[i] == (vals[i - 1] + 0) % (lane.modulus() as int));
        }
        lemma_same(lane, front);
        let k = vals.len() - 1;
        assert(lane.fits(vals[k - 1]));
        assert(vals[k] == (vals[k - 1] + 0) % (lane.modulus() as int));
        assert(front[k - 1] == front[0]);
        assert forall|i: int| 0 <= i < vals.len() implies #[trigger] vals[i] == vals[0] by {
            if i < k {
                assert(front[i] == front[0]);
            }
        }
    }
}

proof fn lemma_progresses(lane: Lane, vals: Seq<u64>, step: int)
    requires
        lane.fits_all(vals),
        vals.len() >= 2,
        crate::laws::predictors::steps_by(lane, vals, step),
    ensures
        crate::codecs::stride::is_stride(lane, vals),
{
    let d = lane.diff(vals[1], vals[0]);
    assert forall|i: int| 0 <= i < vals.len() implies #[trigger] vals[i]
        == crate::codecs::stride::stride_value(lane, vals[0], d, i) by {
        lemma_progress_at(lane, vals, step, i);
    }
}

proof fn lemma_progress_at(lane: Lane, vals: Seq<u64>, step: int, i: int)
    requires
        lane.fits_all(vals),
        vals.len() >= 2,
        crate::laws::predictors::steps_by(lane, vals, step),
        0 <= i < vals.len(),
    ensures
        vals[i] == crate::codecs::stride::stride_value(
            lane,
            vals[0],
            lane.diff(vals[1], vals[0]),
            i,
        ),
    decreases i,
{
    let m = lane.modulus() as int;
    let d = lane.diff(vals[1], vals[0]);
    assert(lane.fits(vals[0]) && lane.fits(vals[i]));
    crate::codecs::stride::lemma_stride_step(lane, vals[0], d, i - 1);
    crate::codecs::stride::lemma_stride_step(lane, vals[0], d, 0);
    if i > 0 {
        lemma_progress_at(lane, vals, step, i - 1);
        crate::laws::predictors::lemma_one_difference(lane, vals, step, 1);
        crate::laws::predictors::lemma_one_difference(lane, vals, step, i);
        assert(lane.fits(vals[i - 1]));
        crate::lane::lemma_lane_diff_sum(lane, vals[i], vals[i - 1]);
    }
}

/// A regular column is written in a few bytes: without nulls and in one block, the header,
/// one frame header and two words; one word where all values are the same. An integer
/// column may step by up to a sixty-fourth of its range.
pub proof fn lemma_regular_column_is_small(
    out: Seq<u8>,
    col: ColumnView,
    cfg: Config,
    offers: Seq<Vec<FloatOffer>>,
    step: int,
)
    requires
        column::column_written(out, col, None, cfg, offers),
        !col.is_decimal(),
        col.dtype().lane().fits_all(col.words()),
        crate::laws::predictors::steps_by(col.dtype().lane(), col.words(), step),
        col.dtype().family() is Int && cfg.selection is Full && col.len() >= 256 ==> -(
        col.dtype().lane().modulus() / 64) <= step < col.dtype().lane().modulus() / 64,
        cfg.block_size is None,
        2 <= col.len() <= (if cfg.level is Fastest || cfg.level is Fast {
            blocks::base_block(col.dtype().lane())
        } else {
            blocks::largest_block(col.dtype().lane())
        }),
    ensures
        out.len() <= 16 + 9 + 2 * col.dtype().lane().bytes(),
        step == 0 ==> out.len() <= 16 + 9 + col.dtype().lane().bytes(),
{
    let (dtype, lane, n) = (col.dtype(), col.dtype().lane(), col.len());
    let vals = decimal::valid_of(col.words(), None);
    let won = encoder::lemma_won_frames(out, dtype, vals, n as usize, None, cfg, offers);
    blocks::lemma_sizes(lane);
    let log2 = cfg.spec_predictor_log2();
    let (ranges, winners) = won;
    let t = encoder::terms_of(dtype, log2, vals, ranges[0], offers, 0);
    let frames = encoder::block_frames(ranges, winners);
    assert(ranges.len() == 1 && winners.len() == 1 && ranges[0] == (0usize, n as usize)
        && encoder::block_won(t, cfg, winners[0])) by {
        reveal(encoder::planned_and_won);
        assert(ranges[0].0 < ranges[0].1 <= vals.len());
        assert(ranges[0].1 == features::block_end(
            lane,
            vals,
            0,
            cfg.spec_fixed_block_size(lane.bytes()),
            cfg.level,
        ));
        if ranges.len() > 1 {
            assert(ranges[1].0 == ranges[0].1 && ranges[1].0 < ranges[1].1 <= vals.len());
        }
    }
    assert(t.block =~= vals);
    if dtype.family() is Int && cfg.selection is Full {
        let f = features::features_of(lane, vals);
        if n >= 256 {
            let deltas = Seq::new(n, |i: int| step);
            assert(is_smooth(lane, vals, deltas)) by {
                assert forall|i: int| 0 < i < vals.len() implies -(lane.modulus() / 64)
                    <= #[trigger] deltas[i] < lane.modulus() / 64 && vals[i] == (vals[i - 1]
                    + deltas[i]) % (lane.modulus() as int) by {
                    assert(vals[i] == (vals[i - 1] + step) % (lane.modulus() as int));
                }
            }
            lemma_smooth_is_no_noise(lane, vals, deltas, f);
        } else {
            lemma_short_is_no_noise(lane, vals, f);
        }
    }
    lemma_regular_is_small(t, cfg, winners[0], step);
    assert(frames.drop_first() =~= Seq::empty());
    assert(encoder::frames_image(Seq::<crate::decoder::FrameView>::empty()) =~= Seq::empty());
    crate::bytes::lemma_le_bytes_len(frames[0].n, 4);
    crate::bytes::lemma_le_bytes_len(frames[0].payload.len(), 4);
    assert(encoder::frames_image(frames).len() == 9 + winners[0].payload@.len());
    let header = crate::format::Header {
        predictor_log2: log2,
        dtype,
        has_validity: false,
        has_shared_dict: false,
        n_values: n as u64,
    };
    crate::format::lemma_header_roundtrip(header, Seq::empty());
}

/// What a candidate allows the winner: to be no larger by more than the decode bias, and
/// no larger by more than the decode cost of the candidate itself.
pub proof fn lemma_limits(t: Terms, cfg: Config, cands: Seq<Candidate>, c: Candidate, j: int)
    requires
        encoder::wins(t.dtype, cfg.level.lambda(), cfg.spec_decode_bias(), cands, c),
        0 <= j < cands.len(),
    ensures
        cfg.spec_decode_bias() != u32::MAX ==> c.payload@.len() * 100 <= cands[j].payload@.len() * (
        100 + cfg.spec_decode_bias()),
        c.payload@.len() * 1000 <= cands[j].payload@.len() * (1000 + cfg.level.lambda()
            * selection::decode_cost(t.dtype.lane(), cands[j].mode, cands[j].payload@)),
{
    let lane = t.dtype.lane();
    let sizes = encoder::sizes_of(cands);
    let weights = encoder::weights_of(lane, cands);
    let (lambda, bias) = (cfg.level.lambda(), cfg.spec_decode_bias());
    let w = choose|w: int|
        #[trigger] selection::is_winner(sizes, weights, lambda, bias, w) && c.mode == cands[w].mode
            && c.payload@ == cands[w].payload@;
    assert(sizes[w] == cands[w].payload.len() && sizes[j] == cands[j].payload.len());
    let (a, b) = (sizes[w] as int, sizes[j] as int);
    let (x, y) = (lambda * weights[w], lambda * weights[j]);
    assert(x >= 0 && y >= 0) by (nonlinear_arith)
        requires
            x == lambda * weights[w],
            y == lambda * weights[j],
    ;
    if selection::allowed(sizes, j, bias) {
        assert(selection::score(sizes, weights, w, lambda) <= selection::score(
            sizes,
            weights,
            j,
            lambda,
        ));
        assert(a * 1000 <= a * (1000 + x)) by (nonlinear_arith)
            requires
                a >= 0,
                x >= 0,
        ;
    } else {
        let k = choose|k: int|
            0 <= k < sizes.len() && !(sizes[j] * 100 <= #[trigger] sizes[k] * (100 + bias));
        assert(sizes[w] * 100 <= sizes[k] * (100 + bias));
        assert(b * 1000 <= b * (1000 + y)) by (nonlinear_arith)
            requires
                b >= 0,
                y >= 0,
        ;
    }
}

// ---------------------------------------------------------------------------
// Who competes
// ---------------------------------------------------------------------------

/// Bytes of the verbatim block.
pub open spec fn verbatim(t: Terms) -> nat {
    t.block.len() * t.dtype.lane().bytes() as nat
}

/// Well below the verbatim block: under 95 percent of it.
pub open spec fn well_below(t: Terms, size: nat) -> bool {
    size * 20 < verbatim(t) * 19
}

/// The residuals that FCM or DFCM leaves of the block.
pub open spec fn residuals(t: Terms, flavor: Flavor) -> Seq<u8> {
    pred::residual_bytes(t.dtype.lane(), flavor, t.block, pred::fresh(t.log2), t.log2)
}

/// Above the lowest level.
pub open spec fn above_fastest(level: Level) -> bool {
    !(level is Fastest)
}

/// The levels with entropy coders.
pub open spec fn with_entropy(level: Level) -> bool {
    level is Balanced || level is High || level is Max
}

/// The levels with predictors.
pub open spec fn with_predictors(level: Level) -> bool {
    level is High || level is Max
}

/// Something simple shows that the block can be compressed: the exclusive-or of
/// neighbours, or a predictor where the level has them.
pub open spec fn shows_structure(t: Terms, level: Level) -> bool {
    ||| above_fastest(level) && well_below(t, xorz::xorz_bytes(t.block, 0).len())
    ||| with_predictors(level) && well_below(t, residuals(t, Flavor::Fcm).len())
}

/// A mode that must be among the candidates of a full competition.
pub open spec fn enters(t: Terms, level: Level, mode: Mode) -> bool {
    let f = features::features_of(t.dtype.lane(), t.block);
    match mode {
        Mode::Raw | Mode::ForBitpack | Mode::DeltaBitpack => true,
        Mode::Xorz => above_fastest(level),
        Mode::Pred => with_predictors(level),
        Mode::PredRc => with_predictors(level) && well_below(
            t,
            residuals(t, Flavor::Fcm).len(),
        ),
        Mode::Pred2 => with_predictors(level) && well_below(
            t,
            residuals(t, Flavor::Dfcm).len(),
        ),
        Mode::OrderedDelta => with_predictors(level) && well_below(
            t,
            linear::idelta2_bytes(t.dtype.lane(), t.block, 0, 0, 0).len(),
        ),
        Mode::AlpRd => above_fastest(level) && t.dtype.family() is Float && alp_rd::rd_applies(
            t.dtype.lane(),
            t.block,
        ),
        Mode::Dict => above_fastest(level) && shows_structure(t, level) && dict::dict_applies(
            t.block,
        ),
        Mode::Rle => above_fastest(level) && shows_structure(t, level) && rle::rle_applies(t.block),
        Mode::Lz => with_entropy(level) && shows_structure(t, level) && (level is High
            || level is Max || f.distinct_low || f.looks_like_repeats),
        Mode::ByteTranspose => with_entropy(level) && shows_structure(t, level) && (f.exp_range
            <= 64 || f.looks_like_repeats),
        _ => false,
    }
}

/// The payload of a mode: what its codec makes of the block.
pub open spec fn payload_of(t: Terms, level: Level, mode: Mode) -> Seq<u8> {
    let (lane, block) = (t.dtype.lane(), t.block);
    let lambda: u64 = if with_predictors(level) {
        0
    } else if level is Fastest {
        20
    } else {
        10
    };
    let (entropy, cascade) = (with_entropy(level), level is Max);
    match mode {
        Mode::Raw => lane.words_bytes(block),
        Mode::Xorz => xorz::xorz_bytes(block, 0),
        Mode::Pred => residuals(t, Flavor::Fcm),
        Mode::PredRc => entropy::residuals_coded(residuals(t, Flavor::Fcm), lambda, cascade),
        Mode::Pred2 => entropy::residuals_coded(residuals(t, Flavor::Dfcm), lambda, cascade),
        Mode::OrderedDelta => entropy::residuals_coded(
            linear::idelta2_bytes(lane, block, 0, 0, 0),
            lambda,
            cascade,
        ),
        Mode::Lz => entropy::residuals_coded(
            lz::lz_image(lane.words_bytes(block)),
            lambda,
            cascade,
        ),
        Mode::ByteTranspose => entropy::residuals_coded(
            transpose::planes(lane, block),
            lambda,
            cascade,
        ),
        Mode::ForBitpack => for_bitpack::for_image(
            lane,
            t.dtype is I64 || t.dtype is I32,
            block,
        ),
        Mode::DeltaBitpack => delta_bitpack::delta_image(lane, block),
        Mode::AlpRd => alp_rd::rd_image(lane, block, entropy, lambda, cascade),
        Mode::Dict => dict::dict_image(lane, block, entropy, lambda, cascade),
        _ => rle::rle_image(lane, block),
    }
}

/// Decode cost, at most: bit-packing one, FCM three, lookups seven, rANS thirty-two and the
/// range coder two hundred nanoseconds a value.
pub open spec fn cost_limit(level: Level, mode: Mode) -> nat {
    match mode {
        Mode::Raw => 0,
        Mode::Xorz | Mode::ForBitpack | Mode::DeltaBitpack | Mode::Rle => 1,
        Mode::Pred => 3,
        Mode::Dict | Mode::AlpRd => if level is Fast {
            7
        } else {
            32
        },
        _ => if level is Balanced {
            32
        } else {
            200
        },
    }
}

/// A mode that must compete does, with what its codec makes.
pub proof fn lemma_entered(t: Terms, cfg: Config, cands: Seq<Candidate>, mode: Mode) -> (j: int)
    requires
        encoder::pool(t, cfg, cands),
        cfg.selection is Full,
        t.dtype.lane().fits_all(t.block),
        t.block.len() > 0,
        t.log2 < usize::BITS,
        !encoder::skips_competition(t.dtype, t.block),
        enters(t, cfg.level, mode),
    ensures
        0 <= j < cands.len(),
        cands[j].mode == mode,
        cands[j].payload@ == payload_of(t, cfg.level, mode),
        encoder::made(t, cfg.level, cands[j]),
{
    reveal(encoder::full_pool);
    if shows_structure(t, cfg.level) {
        let early = if above_fastest(cfg.level) && well_below(
            t,
            xorz::xorz_bytes(t.block, 0).len(),
        ) {
            Mode::Xorz
        } else {
            Mode::Pred
        };
        assert(encoder::competes(t, cfg.level, encoder::block_shrank(t, cands), early));
        let k = choose|k: int| 0 <= k < cands.len() && (#[trigger] cands[k]).mode == early;
        assert(encoder::made(t, cfg.level, cands[k]));
        reveal(encoder::mode_image);
        assert(encoder::early_mode(cands[k].mode) && encoder::shrank(t, cands[k].payload@.len()));
        assert(encoder::block_shrank(t, cands));
    }
    assert(encoder::competes(t, cfg.level, encoder::block_shrank(t, cands), mode));
    let j = choose|j: int| 0 <= j < cands.len() && (#[trigger] cands[j]).mode == mode;
    assert(encoder::made(t, cfg.level, cands[j]));
    assert(cands[j].payload@ == payload_of(t, cfg.level, mode)) by {
        reveal(encoder::mode_image);
    }
    j
}

/// A block that is no noise is won against every mode that suits it. At the two highest
/// levels the winner is no larger than what any of them makes; below, no larger by more
/// than the decode bias, nor by more than a hundredth (a fiftieth at the lowest level) for
/// each nanosecond a value that the other takes to decode.
pub proof fn lemma_wins_against(t: Terms, cfg: Config, c: Candidate, mode: Mode)
    requires
        encoder::wins_block(t, cfg, c),
        cfg.selection is Full,
        t.dtype.lane().fits_all(t.block),
        t.block.len() > 0,
        t.log2 < usize::BITS,
        !encoder::skips_competition(t.dtype, t.block),
        enters(t, cfg.level, mode),
    ensures
        ({
            let (won, other) = (c.payload@.len(), payload_of(t, cfg.level, mode).len());
            &&& with_predictors(cfg.level) ==> won <= other
            &&& cfg.spec_decode_bias() != u32::MAX ==> won * 100 <= other * (100
                + cfg.spec_decode_bias())
            &&& cfg.level is Fast || cfg.level is Balanced ==> won * 1000 <= other * (1000 + 10
                * cost_limit(cfg.level, mode))
            &&& cfg.level is Fastest ==> won * 1000 <= other * (1000 + 20 * cost_limit(
                cfg.level,
                mode,
            ))
        }),
{
    let cands = choose|cands: Seq<Candidate>|
        #[trigger] encoder::pool(t, cfg, cands) && encoder::wins(
            t.dtype,
            cfg.level.lambda(),
            cfg.spec_decode_bias(),
            cands,
            c,
        );
    let j = lemma_entered(t, cfg, cands, mode);
    lemma_limits(t, cfg, cands, c, j);
    if with_predictors(cfg.level) {
        lemma_no_larger(t, cfg, cands, c, j);
    }
    let cost = selection::decode_cost(t.dtype.lane(), mode, cands[j].payload@) as int;
    assert(cost <= cost_limit(cfg.level, mode));
    let (other, limit) = (cands[j].payload@.len() as int, cost_limit(cfg.level, mode) as int);
    let lambda = cfg.level.lambda() as int;
    assert(other * (1000 + lambda * cost) <= other * (1000 + lambda * limit)) by (nonlinear_arith)
        requires
            0 <= cost <= limit,
            0 <= lambda,
            0 <= other,
    ;
}

/// The default decode bias: nothing at the two highest levels, then a tenth, a quarter,
/// and at the lowest level no limit.
pub proof fn lemma_default_bias(cfg: Config)
    requires
        cfg.decode_bias is None,
    ensures
        cfg.spec_decode_bias() == (match cfg.level {
            Level::Max | Level::High => 0u32,
            Level::Balanced => 10u32,
            Level::Fast => 25u32,
            Level::Fastest => 0xFFFF_FFFFu32,
        }),
{
}

/// A configured decode bias is the one in force.
pub proof fn lemma_configured_bias(cfg: Config, bias: u32)
    requires
        cfg.decode_bias == Some(bias),
    ensures
        cfg.spec_decode_bias() == bias,
{
}

/// Smooth integers are packed: where each value lies near the one before, the block is no
/// larger than its bit-packed differences, at the two highest levels, and at most a
/// fiftieth larger at any level.
pub proof fn lemma_smooth_is_packed(
    t: Terms,
    cfg: Config,
    c: Candidate,
    deltas: Seq<int>,
)
    requires
        encoder::wins_block(t, cfg, c),
        cfg.selection is Full,
        t.dtype.lane().fits_all(t.block),
        t.block.len() > 0,
        t.log2 < usize::BITS,
        is_smooth(t.dtype.lane(), t.block, deltas),
    ensures
        ({
            let other = delta_bitpack::delta_image(t.dtype.lane(), t.block).len();
            &&& cfg.level is High || cfg.level is Max ==> c.payload@.len() <= other
            &&& c.payload@.len() * 1000 <= other * 1020
        }),
{
    lemma_smooth_is_no_noise(
        t.dtype.lane(),
        t.block,
        deltas,
        features::features_of(t.dtype.lane(), t.block),
    );
    lemma_wins_against(t, cfg, c, Mode::DeltaBitpack);
    let (won, other) = (c.payload@.len(), payload_of(t, cfg.level, Mode::DeltaBitpack).len());
    let limit = cost_limit(cfg.level, Mode::DeltaBitpack);
    assert(other * (1000 + 10 * limit) <= other * 1020 && other * (1000 + 20 * limit) <= other
        * 1020) by (nonlinear_arith)
        requires
            limit == 1,
    ;
}

/// Integers of a narrow range are packed: the block is no larger than its bit-packed
/// offsets, at the two highest levels, and at most a fiftieth larger at any level.
pub proof fn lemma_narrow_is_packed(t: Terms, cfg: Config, c: Candidate, low: int)
    requires
        encoder::wins_block(t, cfg, c),
        cfg.selection is Full,
        t.dtype.lane().fits_all(t.block),
        t.block.len() > 0,
        t.log2 < usize::BITS,
        forall|i: int|
            0 <= i < t.block.len() ==> low <= #[trigger] t.block[i] < low
                + t.dtype.lane().modulus() / 32,
    ensures
        ({
            let signed = t.dtype is I64 || t.dtype is I32;
            let other = for_bitpack::for_image(t.dtype.lane(), signed, t.block).len();
            &&& cfg.level is High || cfg.level is Max ==> c.payload@.len() <= other
            &&& c.payload@.len() * 1000 <= other * 1020
        }),
{
    lemma_narrow_is_no_noise(
        t.dtype.lane(),
        t.block,
        features::features_of(t.dtype.lane(), t.block),
        low,
    );
    lemma_wins_against(t, cfg, c, Mode::ForBitpack);
    let (won, other) = (c.payload@.len(), payload_of(t, cfg.level, Mode::ForBitpack).len());
    let limit = cost_limit(cfg.level, Mode::ForBitpack);
    assert(other * (1000 + 10 * limit) <= other * 1020 && other * (1000 + 20 * limit) <= other
        * 1020) by (nonlinear_arith)
        requires
            limit == 1,
    ;
}

/// Noise is stored verbatim.
pub proof fn lemma_noise_is_verbatim(t: Terms, cfg: Config, c: Candidate)
    requires
        encoder::wins_block(t, cfg, c),
        cfg.selection is Full,
        t.dtype.family() is Int,
        features::is_incompressible(
            t.dtype.lane(),
            t.block,
            features::features_of(t.dtype.lane(), t.block),
        ),
    ensures
        c.mode is Raw,
        c.payload@ == t.dtype.lane().words_bytes(t.block),
{
    let cands = choose|cands: Seq<Candidate>|
        #[trigger] encoder::pool(t, cfg, cands) && encoder::wins(
            t.dtype,
            cfg.level.lambda(),
            cfg.spec_decode_bias(),
            cands,
            c,
        );
    reveal(encoder::full_pool);
    assert(encoder::sizes_of(cands).len() == 1);
}

} // verus!
