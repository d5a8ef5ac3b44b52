//! Who wins a block against whom, and at what price.

use vstd::prelude::*;
use crate::codecs::{alp_rd, const_block, dict, pcodec, pred_rc, rle, stride, xorz};
use crate::config::{Config, Level, Selection};
use crate::decoder;
use crate::dtype::{DType, Family};
use crate::encoder;
use crate::encoder::{Candidate, FloatOffer, Terms};
use crate::entropy;
use crate::features;
use crate::lane::Lane;
use crate::laws::{blocks, competition};
use crate::mode::Mode;
use crate::selection;
use crate::varint;

verus! {

// ---------------------------------------------------------------------------
// Prices
// ---------------------------------------------------------------------------

/// The modes whose payload is a coded residual stream.
pub open spec fn is_coded(mode: Mode) -> bool {
    mode is PredRc || mode is Pred2 || mode is Delta2 || mode is DeltaDp || mode is OrderedDelta
        || mode is Lz || mode is ByteTranspose
}

/// What a value costs to decode, in nanoseconds: nothing where it is copied or computed,
/// one where it is bit-packed, three for FCM, four for `pco`, and seven or thirty-two for a
/// dictionary or a split.
pub proof fn lemma_plain_prices(lane: Lane, mode: Mode, payload: Seq<u8>)
    ensures
        ({
            let cost = selection::decode_cost(lane, mode, payload);
            &&& mode is Raw || mode is Const || mode is Stride ==> cost == 0
            &&& mode is Xorz || mode is ForBitpack || mode is DeltaBitpack || mode is Alp
                || mode is Rle ==> cost == 1
            &&& mode is Pred ==> cost == 3
            &&& mode is Pco ==> cost == 4
            &&& mode is Dict || mode is AlpRd ==> cost == 7 || cost == 32
            &&& mode is FloatMult && payload.len() >= 2 && payload[0] == 0 ==> cost == 1
            &&& mode is FloatMult && payload.len() >= 2 && payload[0] != 0 ==> cost
                == selection::decode_cost(lane, Mode::Lz, payload.skip(2))
        }),
{
}

/// A coded stream costs two hundred nanoseconds a value behind the range coder and
/// thirty-two behind another coder; one that went through the LZ stage costs what its inner
/// stream does.
pub proof fn lemma_coded_prices(lane: Lane, mode: Mode, tag: u8, rest: Seq<u8>, len: u64)
    requires
        is_coded(mode),
    ensures
        ({
            let plain = selection::decode_cost(lane, mode, seq![tag] + rest);
            let staged = selection::decode_cost(
                lane,
                mode,
                seq![3u8] + varint::varint_bytes(len as nat) + (seq![tag] + rest),
            );
            &&& tag == 0 ==> plain == 200 && staged == 200
            &&& tag == 1 || tag == 2 ==> plain == 32 && staged == 32
        }),
{
    let inner = seq![tag] + rest;
    let outer = seq![3u8] + varint::varint_bytes(len as nat) + inner;
    assert(outer.drop_first() =~= varint::varint_bytes(len as nat) + inner);
    varint::lemma_varint_roundtrip(len, inner);
}

/// What a nanosecond counts at each level, in thousandths of the size.
pub proof fn lemma_exchange_rates(level: Level)
    ensures
        level.lambda() == (match level {
            Level::Fastest => 20u64,
            Level::Fast => 10u64,
            Level::Balanced => 10u64,
            Level::High => 0u64,
            Level::Max => 0u64,
        }),
{
}

// ---------------------------------------------------------------------------
// The winner
// ---------------------------------------------------------------------------

/// No candidate is smaller than candidate `i` by more than the decode bias, in percent.
pub open spec fn within(sizes: Seq<usize>, i: int, bias: u32) -> bool {
    forall|k: int| 0 <= k < sizes.len() ==> 100 * sizes[i] <= #[trigger] sizes[k] * (100 + bias)
}

/// The winner is within the decode bias, unless that has no limit; and of those that are,
/// it has the least size after a thousandth is added for each nanosecond and unit of the
/// exchange rate. The first of equals wins.
pub proof fn lemma_best_trade(
    sizes: Seq<usize>,
    weights: Seq<u64>,
    lambda: u64,
    bias: u32,
    w: int,
    j: int,
)
    requires
        selection::is_winner(sizes, weights, lambda, bias, w),
        0 <= j < sizes.len(),
    ensures
        bias < 0xFFFF_FFFF ==> within(sizes, w, bias),
        bias == 0xFFFF_FFFF || within(sizes, j, bias) ==> {
            let a = sizes[w] * (1000 + lambda * weights[w]);
            let b = sizes[j] * (1000 + lambda * weights[j]);
            a < b || (a == b && w <= j)
        },
{
    assert forall|i: int| 0 <= i < sizes.len() && bias < 0xFFFF_FFFF implies (selection::allowed(
        sizes,
        i,
        bias,
    ) <==> #[trigger] within(sizes, i, bias)) by {
        if within(sizes, i, bias) {
            assert forall|k: int| 0 <= k < sizes.len() implies sizes[i] * 100 <= #[trigger] sizes[k]
                * (100 + bias) by {}
        }
        if selection::allowed(sizes, i, bias) {
            assert forall|k: int| 0 <= k < sizes.len() implies 100 * sizes[i]
                <= #[trigger] sizes[k] * (100 + bias) by {}
        }
    }
    assert(bias < 0xFFFF_FFFF ==> (within(sizes, w, bias) <==> selection::allowed(sizes, w, bias)));
    assert(bias < 0xFFFF_FFFF ==> (within(sizes, j, bias) <==> selection::allowed(sizes, j, bias)));
    if bias == 0xFFFF_FFFF || within(sizes, j, bias) {
        assert(selection::allowed(sizes, j, bias));
    }
}

/// The order in which modes are considered in a full competition.
pub open spec fn turns() -> Seq<Mode> {
    seq![
        Mode::Raw,
        Mode::Const,
        Mode::Stride,
        Mode::Xorz,
        Mode::PredRc,
        Mode::Pred,
        Mode::Pred2,
        Mode::Delta2,
        Mode::DeltaDp,
        Mode::OrderedDelta,
        Mode::FloatMult,
        Mode::Alp,
        Mode::AlpRd,
        Mode::Lz,
        Mode::ByteTranspose,
        Mode::ForBitpack,
        Mode::DeltaBitpack,
        Mode::Dict,
        Mode::Rle,
        Mode::Pco,
    ]
}

/// Ties go to the mode that is considered first: at the two highest levels a mode that
/// makes as few bytes as the winner has a later turn, or is the winner's.
pub proof fn lemma_ties(t: Terms, cfg: Config, c: Candidate, i: int, j: int)
    requires
        encoder::wins_block(t, cfg, c),
        cfg.selection is Full,
        cfg.level is High || cfg.level is Max,
        t.dtype.lane().fits_all(t.block),
        t.block.len() > 0,
        t.log2 < usize::BITS,
        !encoder::skips_competition(t.dtype, t.block),
        0 <= i < 20,
        0 <= j < 20,
        c.mode == turns()[i],
        competition::enters(t, cfg.level, turns()[j]),
        c.payload@.len() == competition::payload_of(t, cfg.level, turns()[j]).len(),
    ensures
        i <= j,
{
    let cands = choose|cands: Seq<Candidate>|
        #[trigger] encoder::pool(t, cfg, cands) && encoder::wins(
            t.dtype,
            cfg.level.lambda(),
            cfg.spec_decode_bias(),
            cands,
            c,
        );
    let k = competition::lemma_entered(t, cfg, cands, turns()[j]);
    let sizes = encoder::sizes_of(cands);
    let weights = encoder::weights_of(t.dtype.lane(), cands);
    let bias = cfg.spec_decode_bias();
    let w = choose|w: int|
        #[trigger] selection::is_winner(sizes, weights, cfg.level.lambda(), bias, w) && c.mode
            == cands[w].mode && c.payload@ == cands[w].payload@;
    assert(sizes[w] == cands[w].payload.len() && sizes[k] == cands[k].payload.len());
    assert(selection::allowed(sizes, w, bias));
    assert(selection::allowed(sizes, k, bias)) by {
        assert forall|m: int| 0 <= m < sizes.len() && bias != u32::MAX implies sizes[k] * 100
            <= #[trigger] sizes[m] * (100 + bias) by {
            assert(sizes[w] * 100 <= sizes[m] * (100 + bias));
        }
    }
    assert(0 * weights[w] == 0 && 0 * weights[k] == 0);
    assert(w <= k);
    reveal(encoder::full_pool);
    assert(encoder::in_order(true, cands));
    assert(encoder::place(true, turns()[i]) == i);
    assert(encoder::place(true, turns()[j]) == j);
}

// ---------------------------------------------------------------------------
// Who may win
// ---------------------------------------------------------------------------

/// Something shows that the block can be compressed, as far as the level looks.
pub open spec fn may_compress(t: Terms, level: Level) -> bool {
    ||| const_block::is_const(t.block)
    ||| stride::is_stride(t.dtype.lane(), t.block)
    ||| competition::shows_structure(t, level)
    ||| competition::with_predictors(level) && (exists|m: Mode|
        (m is PredRc || m is Pred2 || m is OrderedDelta) && #[trigger] competition::well_below(
            t,
            competition::payload_of(t, level, m).len(),
        ))
    ||| exists|j: int|
        0 <= j < t.offers.len() && competition::well_below(
            t,
            (#[trigger] t.offers[j]).payload@.len(),
        )
}

/// What a mode needs to win a block.
pub open spec fn may_win(t: Terms, level: Level, mode: Mode) -> bool {
    let f = features::features_of(t.dtype.lane(), t.block);
    let is_float = t.dtype is F64 || t.dtype is F32;
    match mode {
        Mode::Raw | Mode::ForBitpack | Mode::DeltaBitpack => true,
        Mode::Const => const_block::is_const(t.block),
        Mode::Stride => stride::is_stride(t.dtype.lane(), t.block),
        Mode::Xorz => competition::above_fastest(level),
        Mode::Pred => competition::with_predictors(level),
        Mode::PredRc | Mode::Pred2 | Mode::OrderedDelta => competition::enters(t, level, mode),
        Mode::Delta2 | Mode::DeltaDp => competition::with_predictors(level) && is_float
            && features::is_finite(t.dtype.lane(), t.block),
        Mode::FloatMult | Mode::Alp => competition::above_fastest(level) && is_float,
        Mode::AlpRd => competition::above_fastest(level) && is_float && alp_rd::rd_applies(
            t.dtype.lane(),
            t.block,
        ),
        Mode::Lz => competition::with_entropy(level) && may_compress(t, level) && (level is High
            || level is Max || f.distinct_low || f.looks_like_repeats),
        Mode::ByteTranspose => competition::with_entropy(level) && may_compress(t, level) && (
        f.exp_range <= 64 || f.looks_like_repeats),
        Mode::Dict => competition::above_fastest(level) && may_compress(t, level)
            && dict::dict_applies(t.block),
        Mode::Rle => competition::above_fastest(level) && may_compress(t, level)
            && rle::rle_applies(t.block),
        Mode::Pco => competition::with_entropy(level),
    }
}

/// The candidate that won.
proof fn lemma_winner_among(t: Terms, cfg: Config, cands: Seq<Candidate>, c: Candidate) -> (w: int)
    requires
        encoder::wins(t.dtype, cfg.level.lambda(), cfg.spec_decode_bias(), cands, c),
    ensures
        0 <= w < cands.len(),
        cands[w].mode == c.mode,
        cands[w].payload@ == c.payload@,
{
    choose|w: int|
        #[trigger] selection::is_winner(
            encoder::sizes_of(cands),
            encoder::weights_of(t.dtype.lane(), cands),
            cfg.level.lambda(),
            cfg.spec_decode_bias(),
            w,
        ) && c.mode == cands[w].mode && c.payload@ == cands[w].payload@
}

proof fn lemma_may_compress(t: Terms, level: Level, cands: Seq<Candidate>)
    requires
        encoder::all_stand(t, cands),
        encoder::all_made(t, level, cands),
        encoder::block_shrank(t, cands),
    ensures
        may_compress(t, level),
{
    let i = choose|i: int|
        0 <= i < cands.len() && encoder::early_mode((#[trigger] cands[i]).mode) && encoder::shrank(
            t,
            cands[i].payload@.len(),
        );
    let m = cands[i].mode;
    assert(encoder::stands(t, cands[i]));
    assert(encoder::made(t, level, cands[i]));
    crate::lane::lemma_words_bytes_len(t.dtype.lane(), t.block);
    reveal(encoder::mode_image);
    if m is PredRc || m is Pred2 || m is OrderedDelta {
        assert(competition::well_below(t, competition::payload_of(t, level, m).len()));
    }
    if m is Delta2 || m is DeltaDp {
        assert(t.offers[cands[i].source as int].payload@ == cands[i].payload@);
        assert(competition::well_below(
            t,
            t.offers[cands[i].source as int].payload@.len(),
        ));
    }
}

/// The winner of a full competition is of a mode that suits the level and the block.
pub proof fn lemma_winner_suits(t: Terms, cfg: Config, c: Candidate)
    requires
        encoder::wins_block(t, cfg, c),
        cfg.selection is Full,
    ensures
        may_win(t, cfg.level, c.mode),
{
    let cands = choose|cands: Seq<Candidate>|
        #[trigger] encoder::pool(t, cfg, cands) && encoder::wins(
            t.dtype,
            cfg.level.lambda(),
            cfg.spec_decode_bias(),
            cands,
            c,
        );
    let w = lemma_winner_among(t, cfg, cands, c);
    reveal(encoder::full_pool);
    assert(encoder::stands(t, cands[w]));
    assert(encoder::made(t, cfg.level, cands[w]));
    if !encoder::skips_competition(t.dtype, t.block) {
        assert(encoder::rule(t, cfg.level, encoder::block_shrank(t, cands), cands[w].mode));
        if encoder::block_shrank(t, cands) {
            lemma_may_compress(t, cfg.level, cands);
        }
    } else {
        assert(w == 0);
    }
}

// ---------------------------------------------------------------------------
// Offers
// ---------------------------------------------------------------------------

/// An offer whose stored part can be read for the block, and that the level lets in: all
/// but those of the predictors and of `pco` above the lowest level, `pco` from the middle
/// level on, and predictors at the two highest on finite values that the first of them
/// brings well below the words.
pub open spec fn is_let_in(t: Terms, level: Level, o: FloatOffer) -> bool {
    &&& t.dtype is F64 || t.dtype is F32
    &&& decoder::float_parsed(t.dtype.lane(), o.mode, o.payload@, t.block.len()) is Ok
    &&& match o.mode {
        Mode::FloatMult | Mode::Alp => competition::above_fastest(level),
        Mode::Pco => competition::with_entropy(level),
        Mode::Delta2 | Mode::DeltaDp => {
            &&& competition::with_predictors(level)
            &&& features::is_finite(t.dtype.lane(), t.block)
            &&& exists|k: int|
                0 <= k < t.offers.len() && (#[trigger] t.offers[k]).mode is Delta2
                    && decoder::float_parsed(
                    t.dtype.lane(),
                    Mode::Delta2,
                    t.offers[k].payload@,
                    t.block.len(),
                ) is Ok && (entropy::residuals_decoded(
                    t.offers[k].payload@,
                    pred_rc::residual_bound(t.block.len()),
                ) matches Ok(s) && competition::well_below(t, s.len()))
        },
        _ => false,
    }
}

/// A float block is won against every offer that is let in: at the two highest levels the
/// winner is no larger than any of them, and below no larger by more than the decode bias.
pub proof fn lemma_wins_against_offers(t: Terms, cfg: Config, c: Candidate, j: int)
    requires
        encoder::wins_block(t, cfg, c),
        cfg.selection is Full,
        0 <= j < t.offers.len(),
        is_let_in(t, cfg.level, t.offers[j]),
    ensures
        competition::with_predictors(cfg.level) ==> c.payload@.len()
            <= t.offers[j].payload@.len(),
        cfg.spec_decode_bias() < 0xFFFF_FFFF ==> c.payload@.len() * 100
            <= t.offers[j].payload@.len() * (100 + cfg.spec_decode_bias()),
{
    let cands = choose|cands: Seq<Candidate>|
        #[trigger] encoder::pool(t, cfg, cands) && encoder::wins(
            t.dtype,
            cfg.level.lambda(),
            cfg.spec_decode_bias(),
            cands,
            c,
        );
    reveal(encoder::full_pool);
    assert(t.dtype.family() is Float);
    let o = t.offers[j];
    if o.mode is Delta2 || o.mode is DeltaDp {
        let k = choose|k: int|
            0 <= k < t.offers.len() && (#[trigger] t.offers[k]).mode is Delta2
                && decoder::float_parsed(
                t.dtype.lane(),
                Mode::Delta2,
                t.offers[k].payload@,
                t.block.len(),
            ) is Ok && (entropy::residuals_decoded(
                t.offers[k].payload@,
                pred_rc::residual_bound(t.block.len()),
            ) matches Ok(s) && competition::well_below(t, s.len()));
        assert(encoder::shrinking_offer(t, k));
    }
    assert(encoder::offer_competes(t, cfg.level, t.offers[j]));
    assert(encoder::listed(t, cands, j));
    let i = choose|i: int|
        0 <= i < cands.len() && (#[trigger] cands[i]).mode == t.offers[j].mode && cands[i].source
            == j && cands[i].payload@ == t.offers[j].payload@;
    competition::lemma_limits(t, cfg, cands, c, i);
    if competition::with_predictors(cfg.level) {
        competition::lemma_no_larger(t, cfg, cands, c, i);
    }
}

// ---------------------------------------------------------------------------
// Selection by sample
// ---------------------------------------------------------------------------

/// A mode that is ranked by sample on integers at the two highest levels, if it encodes the
/// block.
pub open spec fn is_ranked(t: Terms, mode: Mode) -> bool {
    match mode {
        Mode::Xorz | Mode::Pred | Mode::PredRc | Mode::Pred2 | Mode::OrderedDelta => true,
        Mode::ByteTranspose | Mode::ForBitpack | Mode::DeltaBitpack => true,
        Mode::Dict => dict::dict_applies(t.block),
        Mode::Rle => rle::rle_applies(t.block),
        _ => false,
    }
}

proof fn lemma_ranked_at(mode: Mode) -> (i: int)
    requires
        !(mode is Raw || mode is Const || mode is Stride || mode is Lz || mode is Pco),
    ensures
        0 <= i < 15,
        encoder::sample_modes()[i] == mode,
{
    match mode {
        Mode::Xorz => 0,
        Mode::Pred => 1,
        Mode::PredRc => 2,
        Mode::Pred2 => 3,
        Mode::Delta2 => 4,
        Mode::DeltaDp => 5,
        Mode::OrderedDelta => 6,
        Mode::FloatMult => 7,
        Mode::ByteTranspose => 8,
        Mode::ForBitpack => 9,
        Mode::DeltaBitpack => 10,
        Mode::Alp => 11,
        Mode::AlpRd => 12,
        Mode::Dict => 13,
        _ => 14,
    }
}

/// A block of up to 512 values is its own sample: selection by sample then loses nothing.
/// At the two highest levels and with a predictor table of ten bits, an integer block is no
/// larger than what any ranked mode makes of it.
pub proof fn lemma_short_blocks_lose_nothing(t: Terms, cfg: Config, c: Candidate, mode: Mode)
    requires
        encoder::wins_block(t, cfg, c),
        cfg.selection is Sample,
        cfg.level is High || cfg.level is Max,
        t.dtype.family() is Int,
        t.dtype.lane().fits_all(t.block),
        t.block.len() <= 512,
        t.log2 == 10,
        is_ranked(t, mode),
    ensures
        c.payload@.len() <= competition::payload_of(t, cfg.level, mode).len(),
{
    let cands = choose|cands: Seq<Candidate>|
        #[trigger] encoder::pool(t, cfg, cands) && encoder::wins(
            t.dtype,
            cfg.level.lambda(),
            cfg.spec_decode_bias(),
            cands,
            c,
        );
    reveal(encoder::sampled_pool);
    let best = choose|best: Option<Mode>| #[trigger]
        encoder::best_on_sample(t, cfg.level, best) && encoder::sampled_candidates(
            t,
            cfg.level,
            best,
            cands,
        );
    let est = choose|est: Seq<Option<usize>>| #[trigger]
        encoder::all_estimated(t, cfg.level, est, 15) && encoder::leads(est, best);
    assert(encoder::sample_of(t.block) =~= t.block);
    let i = lemma_ranked_at(mode);
    let x = lemma_ranked_at(Mode::Xorz);
    assert(encoder::estimates(t, cfg.level, encoder::sample_modes()[i], est[i]));
    assert(encoder::estimates(t, cfg.level, encoder::sample_modes()[x], est[x]));
    assert(encoder::mode_image(t.dtype, mode, t.block, 10, cfg.level) == competition::payload_of(
        t,
        cfg.level,
        mode,
    )) by {
        reveal(encoder::mode_image);
    }
    assert(est[x] is Some && est[x] != Some(usize::MAX)) by {
        reveal(encoder::mode_image);
        xorz::lemma_xorz_len(t.block, 0);
    }
    assert(best is Some);
    let m = best->0;
    let w = choose|w: int| #[trigger] encoder::leads_at(est, w) && m == encoder::sample_modes()[w];
    assert(encoder::estimates(t, cfg.level, encoder::sample_modes()[w], est[w]));
    assert(!decoder::float_frame(m, t.dtype));
    assert(encoder::encodes(t.dtype, m, t.block));
    assert(best == Some(m));
    assert(encoder::sampled_candidates(t, cfg.level, best, cands));
    let apart = encoder::skips_sample(t, cfg.level, m);
    assert(apart || best == Some(m));
    assert(encoder::has_mode(cands, m));
    let j = choose|j: int| 0 <= j < cands.len() && (#[trigger] cands[j]).mode == m;
    assert(encoder::made(t, cfg.level, cands[j]));
    competition::lemma_no_larger(t, cfg, cands, c, j);
    assert(est[i] is Some);
}

/// By sample only the modes that a sample does not show compete besides the one that did
/// best on it: copies, progressions, long repeats and `pco`. The winner is of one of these
/// or of a mode that no ranked mode undercuts on the sample.
pub proof fn lemma_sampled_winner(t: Terms, cfg: Config, c: Candidate, mode: Mode)
    requires
        encoder::wins_block(t, cfg, c),
        cfg.selection is Sample,
        t.dtype.family() is Int,
        !(c.mode is Raw || c.mode is Const || c.mode is Stride || c.mode is Lz || c.mode is Pco),
        !(mode is Raw || mode is Const || mode is Stride || mode is Lz || mode is Pco),
        encoder::is_ranked(t, cfg.level, mode),
        encoder::encodes(t.dtype, mode, encoder::sample_of(t.block)),
    ensures
        encoder::mode_image(
            t.dtype,
            c.mode,
            encoder::sample_of(t.block),
            10,
            cfg.level,
        ).len() <= encoder::mode_image(
            t.dtype,
            mode,
            encoder::sample_of(t.block),
            10,
            cfg.level,
        ).len(),
{
    let cands = choose|cands: Seq<Candidate>|
        #[trigger] encoder::pool(t, cfg, cands) && encoder::wins(
            t.dtype,
            cfg.level.lambda(),
            cfg.spec_decode_bias(),
            cands,
            c,
        );
    reveal(encoder::sampled_pool);
    let v = lemma_winner_among(t, cfg, cands, c);
    let best = choose|best: Option<Mode>| #[trigger]
        encoder::best_on_sample(t, cfg.level, best) && encoder::sampled_candidates(
            t,
            cfg.level,
            best,
            cands,
        );
    let est = choose|est: Seq<Option<usize>>| #[trigger]
        encoder::all_estimated(t, cfg.level, est, 15) && encoder::leads(est, best);
    assert(encoder::skips_sample(t, cfg.level, cands[v].mode) || best == Some(cands[v].mode));
    assert(best == Some(c.mode));
    let w = choose|w: int| #[trigger]
        encoder::leads_at(est, w) && c.mode == encoder::sample_modes()[w];
    let i = lemma_ranked_at(mode);
    assert(encoder::estimates(t, cfg.level, encoder::sample_modes()[w], est[w]));
    assert(encoder::estimates(t, cfg.level, encoder::sample_modes()[i], est[i]));
    assert(est[i] is Some);
}

/// Each block competes for itself: with its own values and with the offers made for it, if
/// any were.
pub proof fn lemma_own_terms(
    out: Seq<u8>,
    dtype: DType,
    vals: Seq<u64>,
    n_values: usize,
    bitmap: Option<&[u8]>,
    cfg: Config,
    offers: Seq<Vec<FloatOffer>>,
    i: int,
)
    requires
        encoder::won_stream(out, dtype, vals, n_values, bitmap, cfg, offers),
        encoder::values_match(vals, n_values, bitmap),
        0 <= i < encoder::stream_frames(out).len(),
    ensures
        ({
            let frames = encoder::stream_frames(out);
            let start = decoder::frames_total(frames.take(i)) as int;
            exists|t: Terms, c: Candidate|
                #[trigger] encoder::wins_block(t, cfg, c) && t.dtype == dtype && t.log2
                    == cfg.spec_predictor_log2() && t.block == vals.subrange(start, start + frames[i].n) && t.offers == (if i
                    < offers.len() {
                    offers[i]@
                } else {
                    Seq::empty()
                }) && c.mode == frames[i].mode && c.payload@ == frames[i].payload
        }),
{
    let won = encoder::lemma_won_frames(out, dtype, vals, n_values, bitmap, cfg, offers);
    let frames = encoder::stream_frames(out);
    let log2 = cfg.spec_predictor_log2();
    assert(won.0.len() == frames.len()) by {
        reveal(encoder::planned_and_won);
    }
    blocks::lemma_starts(won.0, won.1, dtype, vals, cfg, offers, i as nat);
    let t = encoder::terms_of(dtype, log2, vals, won.0[i], offers, i);
    assert(encoder::block_won(t, cfg, won.1[i]) && won.0[i].0 < won.0[i].1) by {
        reveal(encoder::planned_and_won);
    }
    assert(encoder::wins_block(t, cfg, won.1[i]));
    assert(t.block == vals.subrange(won.0[i].0 as int, won.0[i].1 as int));
}

/// Which modes a level ranks by sample: those of floats only on floats, predictors at the
/// two highest levels, and what goes through an entropy coder from the middle level on.
pub proof fn lemma_ranked_modes(mode: Mode, is_float: bool, level: Level)
    ensures
        ({
            let family = if is_float {
                Family::Float
            } else {
                Family::Int
            };
            selection::mode_runs(mode, family, level) <==> (match mode {
                Mode::Delta2 | Mode::DeltaDp => is_float && competition::with_predictors(level),
                Mode::Pred | Mode::PredRc | Mode::Pred2 | Mode::OrderedDelta =>
                    competition::with_predictors(level),
                Mode::FloatMult => is_float && competition::with_entropy(level),
                Mode::Lz | Mode::ByteTranspose => competition::with_entropy(level),
                Mode::Alp | Mode::AlpRd => is_float,
                _ => true,
            })
        }),
{
}

/// Long repeats are looked for whatever the sample shows: by sample too a block of few
/// distinct values, or of values that mostly repeat, is no larger at the two highest levels
/// than its LZ form; and LZ wins only such blocks, from the middle level on.
pub proof fn lemma_repeats_are_tried(t: Terms, cfg: Config, c: Candidate)
    requires
        encoder::wins_block(t, cfg, c),
        cfg.selection is Sample,
    ensures
        ({
            let f = features::features_of(t.dtype.lane(), t.block);
            let repetitive = f.distinct_low || f.looks_like_repeats;
            &&& competition::with_predictors(cfg.level) && repetitive ==> c.payload@.len()
                <= competition::payload_of(t, cfg.level, Mode::Lz).len()
            &&& c.mode is Lz ==> repetitive && competition::with_entropy(cfg.level)
        }),
{
    let cands = choose|cands: Seq<Candidate>|
        #[trigger] encoder::pool(t, cfg, cands) && encoder::wins(
            t.dtype,
            cfg.level.lambda(),
            cfg.spec_decode_bias(),
            cands,
            c,
        );
    reveal(encoder::sampled_pool);
    let best = choose|best: Option<Mode>| #[trigger]
        encoder::best_on_sample(t, cfg.level, best) && encoder::sampled_candidates(
            t,
            cfg.level,
            best,
            cands,
        );
    let f = features::features_of(t.dtype.lane(), t.block);
    if competition::with_predictors(cfg.level) && (f.distinct_low || f.looks_like_repeats) {
        assert(encoder::skips_sample(t, cfg.level, Mode::Lz));
        assert(encoder::encodes(t.dtype, Mode::Lz, t.block));
        assert(encoder::has_mode(cands, Mode::Lz));
        let j = choose|j: int| 0 <= j < cands.len() && (#[trigger] cands[j]).mode == Mode::Lz;
        assert(encoder::made(t, cfg.level, cands[j]));
        competition::lemma_no_larger(t, cfg, cands, c, j);
        reveal(encoder::mode_image);
    }
    if c.mode is Lz {
        let w = lemma_winner_among(t, cfg, cands, c);
        assert(encoder::skips_sample(t, cfg.level, cands[w].mode) || best == Some(cands[w].mode));
        if best == Some(Mode::Lz) {
            let est = choose|est: Seq<Option<usize>>| #[trigger]
                encoder::all_estimated(t, cfg.level, est, 15) && encoder::leads(est, best);
            let k = choose|k: int| #[trigger]
                encoder::leads_at(est, k) && Mode::Lz == encoder::sample_modes()[k];
            assert(false);
        }
    }
}

/// What `pco` makes of floats competes by sample as well, from the middle level on: at the
/// two highest levels the winner is no larger.
pub proof fn lemma_sampled_pco_offers(t: Terms, cfg: Config, c: Candidate, j: int)
    requires
        encoder::wins_block(t, cfg, c),
        cfg.selection is Sample,
        competition::with_predictors(cfg.level),
        t.dtype is F64 || t.dtype is F32,
        0 <= j < t.offers.len(),
        t.offers[j].mode is Pco,
    ensures
        c.payload@.len() <= t.offers[j].payload@.len(),
{
    let cands = choose|cands: Seq<Candidate>|
        #[trigger] encoder::pool(t, cfg, cands) && encoder::wins(
            t.dtype,
            cfg.level.lambda(),
            cfg.spec_decode_bias(),
            cands,
            c,
        );
    reveal(encoder::sampled_pool);
    reveal(decoder::float_parsed);
    let best = choose|best: Option<Mode>| #[trigger]
        encoder::best_on_sample(t, cfg.level, best) && encoder::sampled_candidates(
            t,
            cfg.level,
            best,
            cands,
        );
    assert(t.dtype.family() is Float);
    assert(encoder::usable_offer(t, t.offers[j]));
    assert(encoder::listed(t, cands, j));
    let i = choose|i: int|
        0 <= i < cands.len() && (#[trigger] cands[i]).mode == t.offers[j].mode && cands[i].source
            == j && cands[i].payload@ == t.offers[j].payload@;
    competition::lemma_no_larger(t, cfg, cands, c, i);
}

/// `pco` handles the four types of integers itself.
pub proof fn lemma_pco_types(t: DType)
    ensures
        pcodec::is_integer(t) <==> t is I64 || t is U64 || t is I32 || t is U32,
{
}

} // verus!
