//! What the configuration fixes.

use vstd::prelude::*;
use crate::codecs::pcodec;
use crate::config::{Config, Level};
use crate::encoder;
use crate::encoder::{Candidate, Terms};
use crate::mode::Mode;

verus! {

/// The predictor table has the configured size where that is between ten and sixteen bits,
/// else the nearer of the two.
pub proof fn lemma_table_size(cfg: Config)
    ensures
        10 <= cfg.predictor_log2 <= 16 ==> cfg.spec_predictor_log2() == cfg.predictor_log2,
        cfg.predictor_log2 < 10 ==> cfg.spec_predictor_log2() == 10,
        cfg.predictor_log2 > 16 ==> cfg.spec_predictor_log2() == 16,
{
}

/// The `pco` level is the configured one up to twelve, twelve beyond; unless configured,
/// twelve at the highest level and eight below.
pub proof fn lemma_pco_level(cfg: Config)
    ensures
        cfg.pco_level matches Some(l) ==> l <= 12 ==> cfg.spec_pco_level() == l,
        cfg.pco_level matches Some(l) ==> l > 12 ==> cfg.spec_pco_level() == 12,
        cfg.pco_level is None && cfg.level is Max ==> cfg.spec_pco_level() == 12,
        cfg.pco_level is None && !(cfg.level is Max) ==> cfg.spec_pco_level() == 8,
{
}

/// A larger configured table gives no smaller one, and so does a larger `pco` level.
pub proof fn lemma_settings_rise(a: Config, b: Config)
    ensures
        a.predictor_log2 <= b.predictor_log2 ==> a.spec_predictor_log2() <= b.spec_predictor_log2(),
        a.pco_level matches Some(x) ==> b.pco_level matches Some(y) ==> x <= y
            ==> a.spec_pco_level() <= b.spec_pco_level(),
{
}

/// What each level adds: from the second on everything but entropy coders and predictors,
/// from the third on entropy coders, `pco` and whole blocks, from the fourth on predictors
/// and a judgement by size alone, and at the fifth the cascade.
pub proof fn lemma_levels(level: Level)
    ensures
        level.reduced_pool() <==> level.rank() == 0,
        level.allows_entropy() <==> level.rank() >= 2,
        level.allows_pco() <==> level.rank() >= 2,
        level.full_blocks() <==> level.rank() >= 2,
        level.allows_predictors() <==> level.rank() >= 3,
        level.lambda() == 0 <==> level.rank() >= 3,
        level.allows_lz_cascade() <==> level.rank() == 4,
        level is Fastest <==> level.rank() == 0,
        level is Fast <==> level.rank() == 1,
        level is Balanced <==> level.rank() == 2,
        level is High <==> level.rank() == 3,
        level is Max <==> level.rank() == 4,
{
}

/// Where `pco` wins an integer block, it wins with what it made at the configured level;
/// below the middle level it never does.
pub proof fn lemma_pco_at_level(t: Terms, cfg: Config, c: Candidate)
    requires
        encoder::wins_block(t, cfg, c),
        pcodec::is_integer(t.dtype),
        c.mode is Pco,
    ensures
        cfg.level.rank() >= 2,
        pcodec::pco_made(t.dtype, t.block, cfg.spec_pco_level(), c.payload@),
{
    let cands = choose|cands: Seq<Candidate>|
        #[trigger] encoder::pool(t, cfg, cands) && encoder::wins(
            t.dtype,
            cfg.level.lambda(),
            cfg.spec_decode_bias(),
            cands,
            c,
        );
    let sizes = encoder::sizes_of(cands);
    let weights = encoder::weights_of(t.dtype.lane(), cands);
    let w = choose|w: int|
        #[trigger] crate::selection::is_winner(
            sizes,
            weights,
            cfg.level.lambda(),
            cfg.spec_decode_bias(),
            w,
        ) && c.mode == cands[w].mode && c.payload@ == cands[w].payload@;
    assert(cands[w].mode is Pco);
    assert(encoder::has_mode(cands, Mode::Pco));
}

/// From the middle level on, an integer block that is no noise is won against what `pco`
/// makes of it: at the two highest levels the winner is no larger than some outcome.
pub proof fn lemma_wins_against_pco(t: Terms, cfg: Config, c: Candidate) -> (made: Seq<u8>)
    requires
        encoder::wins_block(t, cfg, c),
        pcodec::is_integer(t.dtype),
        t.block.len() > 0,
        cfg.level is High || cfg.level is Max,
        cfg.selection is Full ==> !encoder::skips_competition(t.dtype, t.block),
    ensures
        pcodec::pco_made(t.dtype, t.block, cfg.spec_pco_level(), made),
        c.payload@.len() <= made.len(),
{
    let cands = choose|cands: Seq<Candidate>|
        #[trigger] encoder::pool(t, cfg, cands) && encoder::wins(
            t.dtype,
            cfg.level.lambda(),
            cfg.spec_decode_bias(),
            cands,
            c,
        );
    let j = choose|j: int| 0 <= j < cands.len() && (#[trigger] cands[j]).mode == Mode::Pco;
    assert(encoder::has_mode(cands, Mode::Pco));
    assert(cands[j].mode is Pco);
    crate::laws::competition::lemma_no_larger(t, cfg, cands, c, j);
    cands[j].payload@
}

} // verus!
