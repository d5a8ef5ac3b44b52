//! The levels as a ladder. Higher levels do not lose ratio: on one block, where every
//! mode sees the whole of it, the two highest levels never store more bytes than a
//! level below them. Lower levels do not lose speed: a block never costs more to
//! decode than its level's class.

use vstd::prelude::*;
use crate::codecs::alp_rd;
use crate::codecs::dict;
use crate::config::{Config, Level};
use crate::decoder;
use crate::decoder::float_frame;
use crate::dtype::DType;
use crate::encoder;
use crate::encoder::{Candidate, Terms};
use crate::entropy;
use crate::lane::Lane;
use crate::mode::Mode;
use crate::selection;
use crate::varint;

verus! {

/// `hi` is one of the two highest levels, and not below `lo`.
pub open spec fn climbs(lo: Level, hi: Level) -> bool {
    &&& hi is High || hi is Max
    &&& lo.rank() <= hi.rank()
}

/// With no weight on decode cost the smaller coder is taken.
proof fn lemma_picked(bytes: Seq<u8>, lambda: u64)
    ensures
        entropy::picked(bytes, 0).len() <= entropy::picked(bytes, lambda).len(),
{
    reveal(entropy::picked);
    let n = bytes.len();
    assert(0u64 * entropy::W_RANS * n == 0) by (nonlinear_arith);
    assert(0u64 * entropy::W_RC * n == 0) by (nonlinear_arith);
}

/// A residual stream takes no more bytes at a higher level.
proof fn lemma_coded(residuals: Seq<u8>, lo: Level, hi: Level)
    requires
        climbs(lo, hi),
    ensures
        entropy::residuals_coded(residuals, hi.lambda(), hi.allows_lz_cascade()).len()
            <= entropy::residuals_coded(residuals, lo.lambda(), lo.allows_lz_cascade()).len(),
{
    lemma_picked(residuals, lo.lambda());
}

/// A dictionary takes no more bytes at a higher level.
proof fn lemma_values(lane: Lane, sorted: Seq<u64>, lo: Level, hi: Level)
    requires
        climbs(lo, hi),
    ensures
        dict::table_image(
            lane,
            sorted,
            hi.allows_entropy(),
            hi.lambda(),
            hi.allows_lz_cascade(),
        ).len() <= dict::table_image(
            lane,
            sorted,
            lo.allows_entropy(),
            lo.lambda(),
            lo.allows_lz_cascade(),
        ).len(),
{
    reveal(dict::values_image);
    lemma_coded(crate::codecs::transpose::planes(lane, sorted), lo, hi);
    let a = dict::values_image(
        lane,
        sorted,
        hi.allows_entropy(),
        hi.lambda(),
        hi.allows_lz_cascade(),
    ).1;
    let b = dict::values_image(
        lane,
        sorted,
        lo.allows_entropy(),
        lo.lambda(),
        lo.allows_lz_cascade(),
    ).1;
    varint::lemma_varint_mono(a.len(), b.len());
}

/// A plane of codes takes no more bytes at a higher level.
proof fn lemma_plane(plane: Seq<u8>, lo: Level, hi: Level)
    requires
        climbs(lo, hi),
    ensures
        dict::plane_image(plane, hi.lambda(), hi.allows_lz_cascade()).len() <= dict::plane_image(
            plane,
            lo.lambda(),
            lo.allows_lz_cascade(),
        ).len(),
{
    lemma_coded(plane, lo, hi);
    varint::lemma_varint_mono(
        entropy::residuals_coded(plane, hi.lambda(), hi.allows_lz_cascade()).len(),
        entropy::residuals_coded(plane, lo.lambda(), lo.allows_lz_cascade()).len(),
    );
}

/// Codes take no more bytes at a higher level.
proof fn lemma_codes(lane: Lane, codes: Seq<u64>, card: nat, lo: Level, hi: Level)
    requires
        climbs(lo, hi),
    ensures
        dict::codes_image(
            lane,
            codes,
            card,
            hi.allows_entropy(),
            hi.lambda(),
            hi.allows_lz_cascade(),
        ).len() <= dict::codes_image(
            lane,
            codes,
            card,
            lo.allows_entropy(),
            lo.lambda(),
            lo.allows_lz_cascade(),
        ).len(),
{
    reveal(dict::codes_image);
    lemma_plane(dict::plane_of(codes, 0), lo, hi);
    lemma_plane(dict::plane_of(codes, 1), lo, hi);
}

/// The parts of a split block take no more bytes at a higher level.
proof fn lemma_split(lane: Lane, vals: Seq<u64>, lo: Level, hi: Level)
    requires
        climbs(lo, hi),
    ensures
        alp_rd::rd_image(
            lane,
            vals,
            hi.allows_entropy(),
            hi.lambda(),
            hi.allows_lz_cascade(),
        ).len() <= alp_rd::rd_image(
            lane,
            vals,
            lo.allows_entropy(),
            lo.lambda(),
            lo.allows_lz_cascade(),
        ).len(),
{
    reveal(alp_rd::codes_form);
    reveal(alp_rd::rights_form);
    let r = (lane.bits() - alp_rd::chosen_cut(lane, vals)->Some_0) as u32;
    let codes = alp_rd::left_codes(vals, r, alp_rd::top_dict_of(alp_rd::lefts_of(vals, r)));
    let rights = alp_rd::rights_of(vals, r);
    lemma_coded(Seq::new(codes.len(), |i: int| codes[i] as u8), lo, hi);
    lemma_coded(crate::codecs::for_bitpack::for_image(lane, false, rights), lo, hi);
    let a = alp_rd::codes_form(
        lane,
        codes,
        hi.allows_entropy(),
        hi.lambda(),
        hi.allows_lz_cascade(),
    ).1;
    let b = alp_rd::codes_form(
        lane,
        codes,
        lo.allows_entropy(),
        lo.lambda(),
        lo.allows_lz_cascade(),
    ).1;
    varint::lemma_varint_mono(a.len(), b.len());
}

/// A mode of neither float arithmetic nor `pco` takes no more bytes at a higher level.
pub proof fn lemma_mode_is_no_larger(
    dtype: DType,
    mode: Mode,
    block: Seq<u64>,
    log2: u8,
    lo: Level,
    hi: Level,
)
    requires
        climbs(lo, hi),
    ensures
        encoder::mode_image(dtype, mode, block, log2, hi).len() <= encoder::mode_image(
            dtype,
            mode,
            block,
            log2,
            lo,
        ).len(),
{
    reveal(encoder::mode_image);
    let lane = dtype.lane();
    let fcm = crate::codecs::pred::residual_bytes(
        lane,
        crate::codecs::pred::Flavor::Fcm,
        block,
        crate::codecs::pred::fresh(log2),
        log2,
    );
    let dfcm = crate::codecs::pred::residual_bytes(
        lane,
        crate::codecs::pred::Flavor::Dfcm,
        block,
        crate::codecs::pred::fresh(log2),
        log2,
    );
    match mode {
        Mode::PredRc => lemma_coded(fcm, lo, hi),
        Mode::Pred2 => lemma_coded(dfcm, lo, hi),
        Mode::OrderedDelta => lemma_coded(
            crate::codecs::linear::idelta2_bytes(lane, block, 0, 0, 0),
            lo,
            hi,
        ),
        Mode::Lz => lemma_coded(
            crate::codecs::lz::lz_image(lane.words_bytes(block)),
            lo,
            hi,
        ),
        Mode::ByteTranspose => lemma_coded(crate::codecs::transpose::planes(lane, block), lo, hi),
        Mode::AlpRd => lemma_split(lane, block, lo, hi),
        Mode::Dict => {
            let table = dict::dictionary_of(block);
            lemma_values(lane, table, lo, hi);
            lemma_codes(lane, dict::codes_of(table, block), table.len(), lo, hi);
        },
        _ => {},
    }
}

/// Some candidate has this mode and no more bytes.
spec fn matched(cands: Seq<Candidate>, c: Candidate) -> bool {
    exists|j: int|
        0 <= j < cands.len() && (#[trigger] cands[j]).mode == c.mode && cands[j].payload@.len()
            <= c.payload@.len()
}

/// A float candidate of a lower level competes at a higher one too.
proof fn lemma_offer_matched(
    t: Terms,
    lo: Level,
    hi: Level,
    hi_cands: Seq<Candidate>,
    c: Candidate,
)
    requires
        climbs(lo, hi),
        encoder::full_pool(t, hi, hi_cands),
        !encoder::skips_competition(t.dtype, t.block),
        encoder::stands(t, c),
        encoder::made(t, lo, c),
        float_frame(c.mode, t.dtype),
        encoder::float_predictor(c.mode) ==> encoder::floats_shrank(t),
    ensures
        matched(hi_cands, c),
{
    reveal(encoder::full_pool);
    reveal(decoder::frame_decoded);
    selection::lemma_pool_ladder(c.mode, t.dtype.family(), lo, hi);
    let j = c.source as int;
    assert(encoder::offer_competes(t, hi, t.offers[j]));
    assert(encoder::listed(t, hi_cands, j));
}

/// A candidate of a lower level whose mode competes at a higher one is matched there.
proof fn lemma_mode_matched(
    t: Terms,
    lo: Level,
    hi: Level,
    hi_cands: Seq<Candidate>,
    c: Candidate,
)
    requires
        climbs(lo, hi),
        encoder::full_pool(t, hi, hi_cands),
        !encoder::skips_competition(t.dtype, t.block),
        encoder::stands(t, c),
        encoder::made(t, lo, c),
        !float_frame(c.mode, t.dtype),
        c.mode !is Pco,
        encoder::rule(t, hi, encoder::block_shrank(t, hi_cands), c.mode),
    ensures
        matched(hi_cands, c),
{
    reveal(encoder::full_pool);
    selection::lemma_pool_ladder(c.mode, t.dtype.family(), lo, hi);
    assert(encoder::competes(t, hi, encoder::block_shrank(t, hi_cands), c.mode));
    let j = choose|j: int| 0 <= j < hi_cands.len() && (#[trigger] hi_cands[j]).mode == c.mode;
    assert(encoder::made(t, hi, hi_cands[j]));
    lemma_mode_is_no_larger(t.dtype, c.mode, t.block, t.log2, lo, hi);
}

/// A block that shrinks at a lower level shrinks at a higher one.
proof fn lemma_shrinks(
    t: Terms,
    lo: Level,
    hi: Level,
    lo_cands: Seq<Candidate>,
    hi_cands: Seq<Candidate>,
)
    requires
        climbs(lo, hi),
        encoder::full_pool(t, lo, lo_cands),
        encoder::full_pool(t, hi, hi_cands),
        !encoder::skips_competition(t.dtype, t.block),
        encoder::block_shrank(t, lo_cands),
    ensures
        encoder::block_shrank(t, hi_cands),
{
    reveal(encoder::full_pool);
    let i = choose|i: int|
        0 <= i < lo_cands.len() && encoder::early_mode((#[trigger] lo_cands[i]).mode)
            && encoder::shrank(t, lo_cands[i].payload@.len());
    let c = lo_cands[i];
    assert(encoder::stands(t, c));
    assert(encoder::made(t, lo, c));
    assert(encoder::rule(t, lo, encoder::block_shrank(t, lo_cands), c.mode));
    if float_frame(c.mode, t.dtype) {
        lemma_offer_matched(t, lo, hi, hi_cands, c);
    } else {
        lemma_mode_matched(t, lo, hi, hi_cands, c);
    }
    let j = choose|j: int|
        0 <= j < hi_cands.len() && (#[trigger] hi_cands[j]).mode == c.mode
            && hi_cands[j].payload@.len() <= c.payload@.len();
    assert(encoder::early_mode(hi_cands[j].mode) && encoder::shrank(
        t,
        hi_cands[j].payload@.len(),
    ));
}

/// Every candidate of a lower level is matched at a higher one.
proof fn lemma_all_matched(
    t: Terms,
    lo: Level,
    hi: Level,
    lo_pco: Option<Seq<u8>>,
    hi_pco: Option<Seq<u8>>,
    lo_cands: Seq<Candidate>,
    hi_cands: Seq<Candidate>,
    i: int,
)
    requires
        climbs(lo, hi),
        encoder::full_pool(t, lo, lo_cands),
        encoder::full_pool(t, hi, hi_cands),
        encoder::pco_enters(t, lo_pco, lo_cands),
        encoder::pco_enters(t, hi_pco, hi_cands),
        lo_pco matches Some(p) ==> hi_pco matches Some(q) && q.len() <= p.len(),
        0 <= i < lo_cands.len(),
    ensures
        matched(hi_cands, lo_cands[i]),
{
    reveal(encoder::full_pool);
    let c = lo_cands[i];
    assert(encoder::stands(t, c));
    assert(encoder::made(t, lo, c));
    if encoder::skips_competition(t.dtype, t.block) {
        assert(hi_cands[0].mode == c.mode);
    } else if float_frame(c.mode, t.dtype) {
        lemma_offer_matched(t, lo, hi, hi_cands, c);
    } else if c.mode is Pco {
        assert(encoder::has_mode(lo_cands, Mode::Pco));
        let j = choose|j: int| 0 <= j < hi_cands.len() && (#[trigger] hi_cands[j]).mode == c.mode;
        assert(hi_cands[j].mode is Pco);
    } else {
        if encoder::block_shrank(t, lo_cands) {
            lemma_shrinks(t, lo, hi, lo_cands, hi_cands);
        }
        assert(encoder::rule(t, lo, encoder::block_shrank(t, lo_cands), c.mode));
        lemma_mode_matched(t, lo, hi, hi_cands, c);
    }
}

/// Ratio does not fall as the level rises: a block that is stored at one of the two
/// highest levels, which judge by size alone, takes no more bytes than at a level
/// below, whatever decode bias that level has, if `pco` does no worse on it.
pub proof fn lemma_higher_level_is_no_larger(
    t: Terms,
    lo: Level,
    hi: Level,
    bias: u32,
    lo_pco: Option<Seq<u8>>,
    hi_pco: Option<Seq<u8>>,
    lo_cands: Seq<Candidate>,
    hi_cands: Seq<Candidate>,
    a: Candidate,
    b: Candidate,
)
    requires
        climbs(lo, hi),
        encoder::full_pool(t, lo, lo_cands),
        encoder::full_pool(t, hi, hi_cands),
        encoder::pco_enters(t, lo_pco, lo_cands),
        encoder::pco_enters(t, hi_pco, hi_cands),
        lo_pco matches Some(p) ==> hi_pco matches Some(q) && q.len() <= p.len(),
        encoder::wins(t.dtype, lo.lambda(), bias, lo_cands, a),
        encoder::wins(t.dtype, hi.lambda(), hi.decode_bias(), hi_cands, b),
    ensures
        b.payload@.len() <= a.payload@.len(),
{
    let lane = t.dtype.lane();
    let i = choose|i: int|
        #[trigger] selection::is_winner(
            encoder::sizes_of(lo_cands),
            encoder::weights_of(lane, lo_cands),
            lo.lambda(),
            bias,
            i,
        ) && a.mode == lo_cands[i].mode && a.payload@ == lo_cands[i].payload@;
    lemma_all_matched(t, lo, hi, lo_pco, hi_pco, lo_cands, hi_cands, i);
    let j = choose|j: int|
        0 <= j < hi_cands.len() && (#[trigger] hi_cands[j]).mode == lo_cands[i].mode
            && hi_cands[j].payload@.len() <= lo_cands[i].payload@.len();
    let w = choose|w: int|
        #[trigger] selection::is_winner(
            encoder::sizes_of(hi_cands),
            encoder::weights_of(lane, hi_cands),
            hi.lambda(),
            hi.decode_bias(),
            w,
        ) && b.mode == hi_cands[w].mode && b.payload@ == hi_cands[w].payload@;
    selection::lemma_unbiased_winner_is_smallest(
        encoder::sizes_of(hi_cands),
        encoder::weights_of(lane, hi_cands),
        hi.lambda(),
        w,
        j,
    );
    assert(hi_cands[w].payload.len() == hi_cands[w].payload@.len());
    assert(hi_cands[j].payload.len() == hi_cands[j].payload@.len());
}

/// The levels are a ladder of decode cost: a block stored at a level costs no more to
/// decode than a level above allows, unless it comes of float arithmetic.
pub proof fn lemma_block_in_class(t: Terms, cfg: Config, c: Candidate, above: Level)
    requires
        encoder::block_won(t, cfg, c),
        t.block.len() > 0,
        !float_frame(c.mode, t.dtype),
        cfg.level.rank() <= above.rank(),
    ensures
        selection::decode_cost(t.dtype.lane(), c.mode, c.payload@) <= selection::class_limit(above),
{
    selection::lemma_class_ladder(cfg.level, above);
}

} // verus!
