//! Block planning, the mode competition and the stream writer.
//!
//! Each block is encoded by every mode that the level's pool and the block's
//! features admit, and [`crate::selection`] picks the winner. Under
//! [`Selection::Sample`] most modes are only estimated on a small sample, and
//! the most promising one is encoded in full.
//!
//! Candidates that need float arithmetic are offered by the caller
//! ([`FloatOffer`]); an offer whose stored part cannot be read back is ignored.

use vstd::prelude::*;
use crate::bytes;
use crate::bytes::{append_bytes, write_le};
use crate::codecs::alp_rd;
use crate::codecs::const_block;
use crate::codecs::delta_bitpack;
use crate::codecs::dict;
use crate::codecs::for_bitpack;
use crate::codecs::linear;
use crate::codecs::lz;
use crate::codecs::pcodec;
use crate::codecs::pred;
use crate::codecs::pred_rc;
use crate::codecs::pred_rc::resid_bound;
use crate::codecs::raw;
use crate::codecs::rle;
use crate::codecs::stride;
use crate::codecs::transpose;
use crate::codecs::xorz;
use crate::config::{Config, Level, Selection};
use crate::decoder;
use crate::decoder::{float_frame, parse_float_block, FrameView};
use crate::diag;
use crate::diag::ModeWins;
use crate::dtype::{DType, Family};
use crate::entropy;
use crate::entropy::{code_residuals, decode_residuals};
use crate::error::Error;
use crate::features;
use crate::features::{
    all_finite, looks_compressible, looks_incompressible, plan_blocks, probe_block_features,
};
use crate::format::{max_block_values, Header};
use crate::lane;
use crate::lane::Lane;
use crate::mode;
use crate::mode::Mode;
use crate::sample;
use crate::sample::sample_positions;
use crate::selection;
use crate::selection::{decode_weight, in_pool, mode_runs, select, NS_RANGE};
use crate::validity;
use crate::varint;

verus! {

/// A mode and the payload it makes of a block. `source` is the place of the offer that
/// it comes of, zero for a candidate that needs none.
pub struct Candidate {
    pub mode: Mode,
    pub payload: Vec<u8>,
    pub source: usize,
}

/// A candidate made with float arithmetic. `estimate` is the size of the same
/// mode's payload for the block's sample (see [`build_sample`]).
pub struct FloatOffer {
    pub mode: Mode,
    pub payload: Vec<u8>,
    pub estimate: usize,
}

/// Largest exponent spread at which byte planes are worth an entropy pass.
pub const TRANSPOSE_EXP_LIMIT: u32 = 64;

/// Values in a sample.
pub const SAMPLE_VALUES: usize = 512;

/// Predictor table size for sample estimates.
pub const SAMPLE_LOG2: u8 = 10;

/// A payload from which the block is read back; of a float mode, one whose
/// stored part can be read.
pub open spec fn lossless(
    dtype: DType,
    log2: u8,
    mode: Mode,
    payload: Seq<u8>,
    block: Seq<u64>,
) -> bool {
    decoder::frame_decoded(
        dtype,
        log2,
        (FrameView { mode, n: block.len(), payload }),
        Some(block),
    ) == Ok::<_, Error>(block)
}

/// Whether a mode that needs neither float arithmetic nor `pco` encodes `block`.
pub open spec fn encodes(dtype: DType, mode: Mode, block: Seq<u64>) -> bool {
    let lane = dtype.lane();
    match mode {
        Mode::Const => const_block::is_const(block),
        Mode::Stride => stride::is_stride(lane, block),
        Mode::AlpRd => alp_rd::rd_applies(lane, block),
        Mode::Dict => dict::dict_applies(block),
        Mode::Rle => rle::rle_applies(block),
        Mode::Delta2 | Mode::DeltaDp | Mode::FloatMult | Mode::Alp | Mode::Pco => false,
        _ => true,
    }
}

proof fn lemma_block_bytes(dtype: DType, n: nat)
    requires
        n <= max_block_values(dtype.lane().bytes()),
    ensures
        n * dtype.lane().bytes() <= 1048576,
        10 * n + 16 <= usize::MAX,
        16 * n + 1024 <= usize::MAX,
{
    match dtype.lane() {
        Lane::W32 => {
            assert(1048576int / 4 == 262144);
        },
        Lane::W64 => {
            assert(1048576int / 8 == 131072);
        },
    }
}

/// The payload that a mode makes of a block it applies to. Modes of float arithmetic
/// and `pco` are not told here.
#[verifier::opaque]
pub open spec fn mode_image(
    dtype: DType,
    mode: Mode,
    block: Seq<u64>,
    log2: u8,
    level: Level,
) -> Seq<u8> {
    let lane = dtype.lane();
    let (lambda, allow_lz) = (level.lambda(), level.allows_lz_cascade());
    let entropy = level.allows_entropy();
    match mode {
        Mode::Raw => lane.words_bytes(block),
        Mode::Const => lane.word_bytes(block[0]),
        Mode::Stride => lane.word_bytes(block[0]) + lane.word_bytes(lane.diff(block[1], block[0])),
        Mode::Xorz => xorz::xorz_bytes(block, 0),
        Mode::Pred => pred::residual_bytes(
            lane,
            pred::Flavor::Fcm,
            block,
            pred::fresh(log2),
            log2,
        ),
        Mode::PredRc => entropy::residuals_coded(
            pred::residual_bytes(lane, pred::Flavor::Fcm, block, pred::fresh(log2), log2),
            lambda,
            allow_lz,
        ),
        Mode::Pred2 => entropy::residuals_coded(
            pred::residual_bytes(lane, pred::Flavor::Dfcm, block, pred::fresh(log2), log2),
            lambda,
            allow_lz,
        ),
        Mode::OrderedDelta => entropy::residuals_coded(
            linear::idelta2_bytes(lane, block, 0, 0, 0),
            lambda,
            allow_lz,
        ),
        Mode::Lz => entropy::residuals_coded(
            lz::lz_image(lane.words_bytes(block)),
            lambda,
            allow_lz,
        ),
        Mode::ByteTranspose => entropy::residuals_coded(
            transpose::planes(lane, block),
            lambda,
            allow_lz,
        ),
        Mode::ForBitpack => for_bitpack::for_image(lane, dtype.signed(), block),
        Mode::DeltaBitpack => delta_bitpack::delta_image(lane, block),
        Mode::AlpRd => alp_rd::rd_image(lane, block, entropy, lambda, allow_lz),
        Mode::Dict => dict::dict_image(lane, block, entropy, lambda, allow_lz),
        Mode::Rle => rle::rle_image(lane, block),
        _ => Seq::empty(),
    }
}

/// A payload decodes within the cost class of the level. Payloads of float
/// arithmetic are not told here.
pub open spec fn in_class(
    dtype: DType,
    mode: Mode,
    block: Seq<u64>,
    level: Level,
    payload: Seq<u8>,
) -> bool {
    !float_frame(mode, dtype) && block.len() > 0 ==> selection::decode_cost(
        dtype.lane(),
        mode,
        payload,
    ) <= selection::class_limit(level)
}

/// Without the cascade and at a weight that asks for rANS, a coded stream of
/// something costs no more than rANS.
proof fn lemma_coded_by_rans(residuals: Seq<u8>, lambda: u64)
    requires
        residuals.len() > 0,
        lambda >= entropy::RC_LAMBDA_CUTOFF,
    ensures
        selection::coded_cost(entropy::residuals_coded(residuals, lambda, false))
            <= selection::NS_RANS,
{
    reveal(entropy::picked);
}

/// The payload of `mode` for `block`, `None` if the mode does not apply to it.
/// Modes of float arithmetic never apply here; `pco` takes every integer block with a
/// value in it, at a level that it has.
pub fn encode_mode(
    dtype: DType,
    mode: Mode,
    block: &[u64],
    log2: u8,
    level: Level,
    pco_level: usize,
) -> (r: Option<Vec<u8>>)
    requires
        dtype.lane().fits_all(block@),
        block.len() <= max_block_values(dtype.lane().bytes()),
        log2 < usize::BITS,
    ensures
        mode !is Pco ==> (r is Some <==> encodes(dtype, mode, block@)),
        mode is Pco ==> (r is Some <==> block.len() > 0 && pcodec::is_integer(dtype) && pco_level
            <= pcodec::PCO_MAX_LEVEL),
        mode is Pco ==> (r matches Some(out) ==> pcodec::pco_made(
            dtype,
            block@,
            pco_level,
            out@,
        )),
        r matches Some(out) ==> lossless(dtype, log2, mode, out@, block@),
        mode !is Pco ==> (r matches Some(out) ==> out@ == mode_image(
            dtype,
            mode,
            block@,
            log2,
            level,
        )),
        in_pool(mode, dtype.family(), level) ==> (r matches Some(out) ==> in_class(
            dtype,
            mode,
            block@,
            level,
            out@,
        )),
{
    reveal(decoder::block_decoded);
    reveal(decoder::frame_decoded);
    reveal(mode_image);
    let lane: Lane = dtype.lane();
    let lambda: u64 = level.lambda();
    let allow_lz: bool = level.allows_lz_cascade();
    let entropy: bool = level.allows_entropy();
    proof {
        lemma_block_bytes(dtype, block@.len());
    }
    match mode {
        Mode::Raw => Some(raw::encode(lane, block)),
        Mode::Const => const_block::encode(lane, block),
        Mode::Stride => stride::encode(lane, block),
        Mode::Xorz => Some(xorz::encode(lane, block)),
        Mode::Pred => Some(pred::encode(lane, block, log2)),
        Mode::PredRc => {
            let s = pred::encode(lane, block, log2);
            Some(code_residuals(&s, lambda, allow_lz))
        },
        Mode::Pred2 => {
            let s = pred::dfcm_encode(lane, block, log2);
            Some(code_residuals(&s, lambda, allow_lz))
        },
        Mode::OrderedDelta => {
            let s = linear::idelta2_encode(lane, block);
            Some(code_residuals(&s, lambda, allow_lz))
        },
        Mode::Lz => {
            let s = lz::encode(lane, block);
            assert(2 * block.len() * lane.bytes() <= 16 * block.len()) by {
                match lane {
                    Lane::W32 => {},
                    Lane::W64 => {},
                }
            }
            proof {
                if block.len() > 0 && level is Balanced {
                    lemma_coded_by_rans(s@, lambda);
                }
            }
            Some(code_residuals(&s, lambda, allow_lz))
        },
        Mode::ByteTranspose => {
            let s = transpose::encode(lane, block);
            assert(block.len() * lane.bytes() <= 8 * block.len()) by {
                match lane {
                    Lane::W32 => {},
                    Lane::W64 => {},
                }
            }
            proof {
                if block.len() > 0 && level is Balanced {
                    lemma_coded_by_rans(s@, lambda);
                }
            }
            Some(code_residuals(&s, lambda, allow_lz))
        },
        Mode::ForBitpack => Some(for_bitpack::encode(lane, block, dtype.signed())),
        Mode::DeltaBitpack => Some(delta_bitpack::encode(lane, block)),
        Mode::AlpRd => alp_rd::encode(lane, block, entropy, lambda, allow_lz),
        Mode::Dict => dict::encode(lane, block, entropy, lambda, allow_lz),
        Mode::Rle => rle::encode(lane, block),
        Mode::Pco => if pcodec::is_integer(dtype) {
            pcodec::encode(lane, block, dtype, pco_level)
        } else {
            None
        },
        Mode::Delta2 | Mode::DeltaDp | Mode::FloatMult | Mode::Alp => None,
    }
}

// ---------------------------------------------------------------------------
// The pool of candidates
// ---------------------------------------------------------------------------

/// A payload that is offered for a float mode, at place `source`.
pub open spec fn offered(
    offers: Seq<FloatOffer>,
    mode: Mode,
    payload: Seq<u8>,
    source: int,
) -> bool {
    &&& 0 <= source < offers.len()
    &&& offers[source].mode == mode
    &&& offers[source].payload@ == payload
}

/// What a competition is about: a block, and the terms it is encoded under.
pub struct Terms {
    pub dtype: DType,
    pub log2: u8,
    pub block: Seq<u64>,
    pub offers: Seq<FloatOffer>,
}

/// The float predictors, which run on finite values only.
pub open spec fn float_predictor(mode: Mode) -> bool {
    mode is Delta2 || mode is DeltaDp
}

/// A candidate that may stand in the competition: it is lossless; when it needs
/// float arithmetic it was offered, and otherwise its mode applies to the block;
/// and when it predicts floats, they are finite.
pub open spec fn stands(t: Terms, c: Candidate) -> bool {
    &&& lossless(t.dtype, t.log2, c.mode, c.payload@, t.block)
    &&& if float_frame(c.mode, t.dtype) {
        offered(t.offers, c.mode, c.payload@, c.source as int)
    } else {
        c.source == 0
    }
    &&& applies(t, c.mode)
}

/// A mode may be tried on a block: it predicts floats only if they are finite,
/// and a mode of neither float arithmetic nor `pco` encodes the block.
pub open spec fn applies(t: Terms, mode: Mode) -> bool {
    &&& float_predictor(mode) ==> features::is_finite(t.dtype.lane(), t.block)
    &&& float_frame(mode, t.dtype) || mode is Pco || encodes(t.dtype, mode, t.block)
}

/// All candidates may stand.
pub open spec fn all_stand(t: Terms, cands: Seq<Candidate>) -> bool {
    forall|i: int| 0 <= i < cands.len() ==> stands(t, #[trigger] cands[i])
}

/// The candidates are led by the verbatim block.
pub open spec fn led_by_raw(t: Terms, cands: Seq<Candidate>) -> bool {
    &&& cands.len() > 0
    &&& cands[0].mode is Raw
    &&& cands[0].payload@ == t.dtype.lane().words_bytes(t.block)
}

/// Some candidate has this mode.
pub open spec fn has_mode(cands: Seq<Candidate>, mode: Mode) -> bool {
    exists|i: int| 0 <= i < cands.len() && (#[trigger] cands[i]).mode == mode
}

/// The bytes of an optional payload.
pub open spec fn bytes_of(payload: Option<Vec<u8>>) -> Option<Seq<u8>> {
    match payload {
        Some(p) => Some(p@),
        None => None,
    }
}

/// On integer columns, `pco` competes with the payload it made, if it made one.
pub open spec fn pco_enters(t: Terms, pco: Option<Seq<u8>>, cands: Seq<Candidate>) -> bool {
    t.dtype.family() is Int ==> match pco {
        Some(p) => has_mode(cands, Mode::Pco) && forall|i: int|
            0 <= i < cands.len() && (#[trigger] cands[i]).mode is Pco ==> cands[i].payload@ == p,
        None => !has_mode(cands, Mode::Pco),
    }
}

/// On the integer columns that `pco` handles, it competes for every block with a value
/// in it at the levels that allow it, unless the competition is skipped, and with what
/// it made of the block at the configured `pco` level.
pub open spec fn pco_takes_part(
    t: Terms,
    cfg: Config,
    skipped: bool,
    cands: Seq<Candidate>,
) -> bool {
    pcodec::is_integer(t.dtype) ==> {
        &&& has_mode(cands, Mode::Pco) <==> t.block.len() > 0 && cfg.level.allows_pco() && !skipped
        &&& forall|i: int|
            0 <= i < cands.len() && (#[trigger] cands[i]).mode is Pco ==> pcodec::pco_made(
                t.dtype,
                t.block,
                cfg.spec_pco_level(),
                cands[i].payload@,
            )
    }
}

/// Some candidate comes of offer `j`.
pub open spec fn listed(t: Terms, cands: Seq<Candidate>, j: int) -> bool {
    exists|i: int|
        0 <= i < cands.len() && (#[trigger] cands[i]).mode == t.offers[j].mode && cands[i].source
            == j && cands[i].payload@ == t.offers[j].payload@
}

/// Where a mode stands in the order in which candidates are considered: in a full
/// competition, or in one by sample, where what did best on the sample comes last.
pub open spec fn place(whole: bool, mode: Mode) -> int {
    if whole {
        match mode {
            Mode::Raw => 0,
            Mode::Const => 1,
            Mode::Stride => 2,
            Mode::Xorz => 3,
            Mode::PredRc => 4,
            Mode::Pred => 5,
            Mode::Pred2 => 6,
            Mode::Delta2 => 7,
            Mode::DeltaDp => 8,
            Mode::OrderedDelta => 9,
            Mode::FloatMult => 10,
            Mode::Alp => 11,
            Mode::AlpRd => 12,
            Mode::Lz => 13,
            Mode::ByteTranspose => 14,
            Mode::ForBitpack => 15,
            Mode::DeltaBitpack => 16,
            Mode::Dict => 17,
            Mode::Rle => 18,
            Mode::Pco => 19,
        }
    } else {
        match mode {
            Mode::Raw => 0,
            Mode::Const => 1,
            Mode::Stride => 2,
            Mode::Lz => 3,
            Mode::Pco => 4,
            _ => 5,
        }
    }
}

/// The candidates stand in the order in which they are considered, which breaks ties:
/// by mode, and those of one mode, of which only offers can be several, as they were
/// offered.
pub open spec fn in_order(whole: bool, cands: Seq<Candidate>) -> bool {
    forall|i: int, j: int|
        0 <= i < j < cands.len() ==> {
            ||| place(whole, (#[trigger] cands[i]).mode) < place(whole, (#[trigger] cands[j]).mode)
            ||| cands[i].mode == cands[j].mode && cands[i].source < cands[j].source
        }
}

/// The candidates stand in order, all of them before place `end`.
#[verifier::opaque]
spec fn lined_up(whole: bool, cands: Seq<Candidate>, end: int) -> bool {
    &&& in_order(whole, cands)
    &&& forall|i: int| 0 <= i < cands.len() ==> place(whole, (#[trigger] cands[i]).mode) < end
}

/// Candidates of one more mode, whose place is yet to come, keep the order.
proof fn lemma_lined_up(
    whole: bool,
    before: Seq<Candidate>,
    after: Seq<Candidate>,
    mode: Mode,
    end: int,
)
    requires
        extends(before, after),
        adds_only(before, after, mode),
        end <= place(whole, mode),
    ensures
        lined_up(whole, before, end) ==> lined_up(whole, after, place(whole, mode) + 1),
{
    reveal(lined_up);
    if lined_up(whole, before, end) {
        assert forall|i: int| 0 <= i < after.len() implies place(
            whole,
            (#[trigger] after[i]).mode,
        ) <= place(whole, mode) by {
            if i < before.len() {
                assert(after[i] == before[i]);
            }
        }
        assert forall|i: int, j: int| 0 <= i < j < after.len() implies {
            ||| place(whole, (#[trigger] after[i]).mode) < place(whole, (#[trigger] after[j]).mode)
            ||| after[i].mode == after[j].mode && after[i].source < after[j].source
        } by {
            if i < before.len() {
                assert(after[i] == before[i]);
            }
            if j < before.len() {
                assert(after[j] == before[j]);
            }
        }
    }
}

/// Places may be passed over.
proof fn lemma_passed_over(whole: bool, cands: Seq<Candidate>, end: int, more: int)
    requires
        end <= more,
    ensures
        lined_up(whole, cands, end) ==> lined_up(whole, cands, more),
{
    reveal(lined_up);
}

/// A candidate of a mode in the level's pool, unless it comes of float arithmetic or
/// `pco` with the payload that the mode makes of the block, and within the level's
/// cost class.
pub open spec fn made(t: Terms, level: Level, c: Candidate) -> bool {
    &&& in_pool(c.mode, t.dtype.family(), level)
    &&& !float_frame(c.mode, t.dtype) && c.mode !is Pco ==> c.payload@ == mode_image(
        t.dtype,
        c.mode,
        t.block,
        t.log2,
        level,
    )
    &&& in_class(t.dtype, c.mode, t.block, level, c.payload@)
}

/// All candidates are made as the level says.
pub open spec fn all_made(t: Terms, level: Level, cands: Seq<Candidate>) -> bool {
    forall|i: int| 0 <= i < cands.len() ==> made(t, level, #[trigger] cands[i])
}

/// `after` is `before` and more candidates.
pub open spec fn extends(before: Seq<Candidate>, after: Seq<Candidate>) -> bool {
    &&& before.len() <= after.len()
    &&& forall|i: int| 0 <= i < before.len() ==> #[trigger] after[i] == before[i]
}

/// What `after` has more than `before` is of one mode, in the order of the offers.
pub open spec fn adds_only(before: Seq<Candidate>, after: Seq<Candidate>, mode: Mode) -> bool {
    &&& forall|i: int| before.len() <= i < after.len() ==> (#[trigger] after[i]).mode == mode
    &&& forall|i: int, j: int|
        before.len() <= i < j < after.len() ==> (#[trigger] after[i]).source < (
        #[trigger] after[j]).source
}

proof fn lemma_extends(a: Seq<Candidate>, b: Seq<Candidate>)
    requires
        extends(a, b),
    ensures
        forall|m: Mode| #[trigger] has_mode(a, m) ==> has_mode(b, m),
        forall|t: Terms, j: int| #[trigger] listed(t, a, j) ==> listed(t, b, j),
{
    assert forall|m: Mode| #[trigger] has_mode(a, m) implies has_mode(b, m) by {
        let i = choose|i: int| 0 <= i < a.len() && (#[trigger] a[i]).mode == m;
        assert(b[i].mode == m);
    }
    assert forall|t: Terms, j: int| #[trigger] listed(t, a, j) implies listed(t, b, j) by {
        let i = choose|i: int|
            0 <= i < a.len() && (#[trigger] a[i]).mode == t.offers[j].mode && a[i].source == j
                && a[i].payload@ == t.offers[j].payload@;
        assert(b[i] == a[i]);
    }
}

/// Add a candidate.
fn consider(
    cands: &mut Vec<Candidate>,
    mode: Mode,
    payload: Vec<u8>,
    source: usize,
    Ghost(t): Ghost<Terms>,
    Ghost(level): Ghost<Level>,
)
    requires
        all_stand(t, old(cands)@),
        all_made(t, level, old(cands)@),
        lossless(t.dtype, t.log2, mode, payload@, t.block),
        float_frame(mode, t.dtype) ==> offered(t.offers, mode, payload@, source as int),
        !float_frame(mode, t.dtype) ==> source == 0,
        applies(t, mode),
        in_pool(mode, t.dtype.family(), level),
        float_frame(mode, t.dtype) || mode is Pco || payload@ == mode_image(
            t.dtype,
            mode,
            t.block,
            t.log2,
            level,
        ),
        in_class(t.dtype, mode, t.block, level, payload@),
    ensures
        all_stand(t, final(cands)@),
        all_made(t, level, final(cands)@),
        extends(old(cands)@, final(cands)@),
        adds_only(old(cands)@, final(cands)@, mode),
        has_mode(final(cands)@, mode),
        final(cands).len() == old(cands).len() + 1,
        final(cands)@.last().payload@ == payload@,
        final(cands)@.last().source == source,
{
    let ghost before = cands@;
    cands.push(Candidate { mode, payload, source });
    proof {
        let last = before.len() as int;
        assert(cands@[last].mode == mode && cands@[last].payload@ == payload@);
        assert forall|i: int| 0 <= i < cands@.len() implies stands(t, #[trigger] cands@[i]) by {
            if i < last {
                assert(cands@[i] == before[i]);
            }
        }
        assert forall|i: int| 0 <= i < cands@.len() implies made(
            t,
            level,
            #[trigger] cands@[i],
        ) by {
            if i < last {
                assert(cands@[i] == before[i]);
            }
        }
    }
}

/// Let a mode of neither float arithmetic nor `pco` compete.
fn compete(
    cands: &mut Vec<Candidate>,
    dtype: DType,
    mode: Mode,
    block: &[u64],
    log2: u8,
    level: Level,
    Ghost(t): Ghost<Terms>,
)
    requires
        t.dtype == dtype,
        t.log2 == log2,
        t.block == block@,
        all_stand(t, old(cands)@),
        all_made(t, level, old(cands)@),
        in_pool(mode, dtype.family(), level),
        !float_frame(mode, dtype),
        mode !is Pco,
        dtype.lane().fits_all(block@),
        block.len() <= max_block_values(dtype.lane().bytes()),
        log2 < usize::BITS,
    ensures
        all_stand(t, final(cands)@),
        all_made(t, level, final(cands)@),
        extends(old(cands)@, final(cands)@),
        adds_only(old(cands)@, final(cands)@, mode),
        encodes(dtype, mode, block@) ==> has_mode(final(cands)@, mode),
{
    if let Some(payload) = encode_mode(dtype, mode, block, log2, level, 0) {
        consider(cands, mode, payload, 0, Ghost(t), Ghost(level));
    }
}

/// Offer `o` can compete: its stored part can be read back for the block.
pub open spec fn usable_offer(t: Terms, o: FloatOffer) -> bool {
    &&& float_frame(o.mode, t.dtype)
    &&& decoder::float_parsed(t.dtype.lane(), o.mode, o.payload@, t.block.len()) is Ok
}

/// Let the usable offers of a float mode compete.
fn compete_offers(
    cands: &mut Vec<Candidate>,
    dtype: DType,
    mode: Mode,
    block: &[u64],
    offers: &[FloatOffer],
    Ghost(t): Ghost<Terms>,
    Ghost(level): Ghost<Level>,
)
    requires
        t.dtype == dtype,
        t.block == block@,
        t.offers == offers@,
        all_stand(t, old(cands)@),
        all_made(t, level, old(cands)@),
        in_pool(mode, dtype.family(), level),
        float_frame(mode, dtype),
        float_predictor(mode) ==> features::is_finite(dtype.lane(), block@),
        dtype.lane().fits_all(block@),
    ensures
        all_stand(t, final(cands)@),
        all_made(t, level, final(cands)@),
        extends(old(cands)@, final(cands)@),
        adds_only(old(cands)@, final(cands)@, mode),
        forall|j: int|
            0 <= j < offers.len() && (#[trigger] offers@[j]).mode == mode && usable_offer(
                t,
                offers@[j],
            ) ==> listed(t, final(cands)@, j),
{
    let ghost start = cands@;
    let mut i: usize = 0;
    while i < offers.len()
        invariant
            i <= offers.len(),
            t.dtype == dtype,
            t.block == block@,
            t.offers == offers@,
            all_stand(t, cands@),
            all_made(t, level, cands@),
            extends(start, cands@),
            adds_only(start, cands@, mode),
            forall|k: int| start.len() <= k < cands@.len() ==> (#[trigger] cands@[k]).source < i,
            in_pool(mode, dtype.family(), level),
            float_frame(mode, dtype),
            float_predictor(mode) ==> features::is_finite(dtype.lane(), block@),
            dtype.lane().fits_all(block@),
            forall|j: int|
                0 <= j < i && (#[trigger] offers@[j]).mode == mode && usable_offer(t, offers@[j])
                    ==> listed(t, cands@, j),
        decreases offers.len() - i,
    {
        if offers[i].mode == mode {
            match parse_float_block(dtype.lane(), mode, &offers[i].payload, block.len()) {
                Err(_) => {},
                Ok(_) => {
                    let mut payload: Vec<u8> = Vec::new();
                    append_bytes(&mut payload, &offers[i].payload);
                    let ghost before = cands@;
                    proof {
                        assert(payload@ =~= offers@[i as int].payload@);
                        assert(offered(t.offers, mode, payload@, i as int));
                    }
                    reveal(decoder::frame_decoded);
                    consider(cands, mode, payload, i, Ghost(t), Ghost(level));
                    proof {
                        lemma_extends(before, cands@);
                        let last = before.len() as int;
                        assert(cands@[last].mode == t.offers[i as int].mode);
                        assert(listed(t, cands@, i as int));
                        assert forall|k: int| start.len() <= k < last implies #[trigger] cands@[k]
                            == before[k] by {}
                    }
                },
            }
        }
        i = i + 1;
    }
}

/// The smallest payload so far.
fn smallest_payload(cands: &Vec<Candidate>) -> (m: usize)
    requires
        cands.len() > 0,
    ensures
        forall|i: int| 0 <= i < cands.len() ==> m <= (#[trigger] cands@[i]).payload@.len(),
        exists|i: int| 0 <= i < cands.len() && m == (#[trigger] cands@[i]).payload@.len(),
{
    let mut m: usize = cands[0].payload.len();
    let mut i: usize = 1;
    assert(m == cands@[0].payload@.len());
    while i < cands.len()
        invariant
            1 <= i <= cands.len(),
            forall|j: int| 0 <= j < i ==> m <= (#[trigger] cands@[j]).payload@.len(),
            exists|j: int| 0 <= j < i && m == (#[trigger] cands@[j]).payload@.len(),
        decreases cands.len() - i,
    {
        let len: usize = cands[i].payload.len();
        if len < m {
            m = len;
            assert(m == cands@[i as int].payload@.len());
        }
        i = i + 1;
    }
    m
}

/// Let the sequential predictors compete: FCM plain and entropy-coded, DFCM
/// entropy-coded, the float predictors as offered, and second-order deltas.
/// An entropy coder runs only where the predictor already shrank the block.
#[verifier::rlimit(30)]
fn compete_predictors(
    cands: &mut Vec<Candidate>,
    dtype: DType,
    block: &[u64],
    log2: u8,
    level: Level,
    offers: &[FloatOffer],
    Ghost(t): Ghost<Terms>,
)
    requires
        t.dtype == dtype,
        t.log2 == log2,
        t.block == block@,
        t.offers == offers@,
        all_stand(t, old(cands)@),
        all_made(t, level, old(cands)@),
        level.allows_predictors(),
        dtype.lane().fits_all(block@),
        block.len() <= max_block_values(dtype.lane().bytes()),
        log2 < usize::BITS,
    ensures
        all_stand(t, final(cands)@),
        all_made(t, level, final(cands)@),
        extends(old(cands)@, final(cands)@),
        all_early(t, level, old(cands)@) ==> all_early(t, level, final(cands)@),
        has_mode(final(cands)@, Mode::Pred),
        rule(t, level, false, Mode::PredRc) ==> has_mode(final(cands)@, Mode::PredRc),
        rule(t, level, false, Mode::Pred2) ==> has_mode(final(cands)@, Mode::Pred2),
        rule(t, level, false, Mode::OrderedDelta) ==> has_mode(final(cands)@, Mode::OrderedDelta),
        dtype.family() is Float && features::is_finite(dtype.lane(), block@) && floats_shrank(t)
            ==> forall|j: int|
            0 <= j < offers.len() && ((#[trigger] offers@[j]).mode is Delta2
                || offers@[j].mode is DeltaDp) && usable_offer(t, offers@[j]) ==> listed(
                t,
                final(cands)@,
                j,
            ),
        lined_up(true, old(cands)@, 4) ==> lined_up(true, final(cands)@, 10),
{
    let ghost start = cands@;
    reveal(decoder::block_decoded);
    reveal(decoder::frame_decoded);
    reveal(mode_image);
    let lane: Lane = dtype.lane();
    let lambda: u64 = level.lambda();
    let allow_lz: bool = level.allows_lz_cascade();
    proof {
        lemma_block_bytes(dtype, block@.len());
    }
    let raw_bytes: usize = block.len() * lane.bytes();
    let fcm = pred::encode(lane, block, log2);
    if looks_compressible(fcm.len(), raw_bytes) {
        let coded = code_residuals(&fcm, lambda, allow_lz);
        consider(cands, Mode::PredRc, coded, 0, Ghost(t), Ghost(level));
    }
    let ghost with_coded = cands@;
    consider(cands, Mode::Pred, fcm, 0, Ghost(t), Ghost(level));
    let ghost with_pred = cands@;
    let dfcm = pred::dfcm_encode(lane, block, log2);
    if looks_compressible(dfcm.len(), raw_bytes) {
        let coded = code_residuals(&dfcm, lambda, allow_lz);
        consider(cands, Mode::Pred2, coded, 0, Ghost(t), Ghost(level));
    }
    let ghost with_dfcm = cands@;
    let is_float: bool = match dtype.family() {
        Family::Float => true,
        Family::Int => false,
    };
    if is_float && all_finite(lane, block) && predictor_shrank(offers, dtype, block, Ghost(t)) {
        compete_offers(cands, dtype, Mode::Delta2, block, offers, Ghost(t), Ghost(level));
        let ghost mid = cands@;
        compete_offers(cands, dtype, Mode::DeltaDp, block, offers, Ghost(t), Ghost(level));
        proof {
            lemma_extends(mid, cands@);
            lemma_lined_up(true, with_dfcm, mid, Mode::Delta2, 7);
            lemma_lined_up(true, mid, cands@, Mode::DeltaDp, 8);
        }
    } else {
        proof {
            lemma_passed_over(true, cands@, 7, 9);
        }
    }
    let ghost with_floats = cands@;
    let second = linear::idelta2_encode(lane, block);
    if looks_compressible(second.len(), raw_bytes) {
        let coded = code_residuals(&second, lambda, allow_lz);
        consider(cands, Mode::OrderedDelta, coded, 0, Ghost(t), Ghost(level));
    }
    proof {
        lemma_lined_up(true, start, with_coded, Mode::PredRc, 4);
        lemma_lined_up(true, with_coded, with_pred, Mode::Pred, 5);
        lemma_lined_up(true, with_pred, with_dfcm, Mode::Pred2, 6);
        lemma_lined_up(true, with_floats, cands@, Mode::OrderedDelta, 9);
        lemma_extends(with_coded, cands@);
        lemma_extends(with_pred, cands@);
        lemma_extends(with_dfcm, cands@);
        lemma_extends(with_floats, cands@);
    }
}

/// A genuinely incompressible integer block: only the verbatim form competes.
pub open spec fn skips_competition(dtype: DType, block: Seq<u64>) -> bool {
    dtype.family() is Int && features::is_incompressible(
        dtype.lane(),
        block,
        features::features_of(dtype.lane(), block),
    )
}

/// Bytes of the verbatim block.
pub open spec fn raw_size(t: Terms) -> nat {
    t.block.len() * t.dtype.lane().bytes() as nat
}

/// Whether a stream of `size` bytes is well below the verbatim block.
pub open spec fn shrank(t: Terms, size: nat) -> bool {
    size * 20 < raw_size(t) * 19
}

/// Bytes of the residuals that an entropy-coded predictor codes.
pub open spec fn residual_size(t: Terms, mode: Mode) -> nat {
    let lane = t.dtype.lane();
    match mode {
        Mode::PredRc => pred::residual_bytes(
            lane,
            pred::Flavor::Fcm,
            t.block,
            pred::fresh(t.log2),
            t.log2,
        ).len(),
        Mode::Pred2 => pred::residual_bytes(
            lane,
            pred::Flavor::Dfcm,
            t.block,
            pred::fresh(t.log2),
            t.log2,
        ).len(),
        _ => linear::idelta2_bytes(lane, t.block, 0, 0, 0).len(),
    }
}

/// Offer `j` is of DELTA2, can be read back, and codes residuals that are well below the
/// verbatim block.
pub open spec fn shrinking_offer(t: Terms, j: int) -> bool {
    &&& 0 <= j < t.offers.len()
    &&& t.offers[j].mode is Delta2
    &&& usable_offer(t, t.offers[j])
    &&& entropy::residuals_decoded(
        t.offers[j].payload@,
        pred_rc::residual_bound(t.block.len()),
    ) matches Ok(s) && shrank(t, s.len())
}

/// The polynomial predictor shrank the block: so a DELTA2 offer shows.
pub open spec fn floats_shrank(t: Terms) -> bool {
    exists|j: int| #[trigger] shrinking_offer(t, j)
}

/// Whether the polynomial predictor shrank the block.
fn predictor_shrank(offers: &[FloatOffer], dtype: DType, block: &[u64], Ghost(t): Ghost<Terms>) -> (r:
    bool)
    requires
        t.dtype == dtype,
        t.block == block@,
        t.offers == offers@,
        dtype.family() is Float,
        block.len() <= max_block_values(dtype.lane().bytes()),
    ensures
        r == floats_shrank(t),
{
    let lane: Lane = dtype.lane();
    proof {
        lemma_block_bytes(dtype, block@.len());
    }
    let raw_bytes: usize = block.len() * lane.bytes();
    let mut i: usize = 0;
    while i < offers.len()
        invariant
            i <= offers.len(),
            lane == dtype.lane(),
            t.dtype == dtype,
            t.block == block@,
            t.offers == offers@,
            dtype.family() is Float,
            raw_bytes == raw_size(t),
            forall|j: int| 0 <= j < i ==> !#[trigger] shrinking_offer(t, j),
        decreases offers.len() - i,
    {
        if offers[i].mode == Mode::Delta2 {
            let payload = &offers[i].payload;
            if let Ok(_) = parse_float_block(lane, Mode::Delta2, payload, block.len()) {
                if let Ok(s) = decode_residuals(payload, resid_bound(block.len())) {
                    if looks_compressible(s.len(), raw_bytes) {
                        assert(shrinking_offer(t, i as int));
                        return true;
                    }
                }
            }
        }
        i = i + 1;
    }
    false
}

/// The modes that compete first: those of global structure, and the predictors.
/// How they do tells whether the block is compressible.
pub open spec fn early_mode(mode: Mode) -> bool {
    match mode {
        Mode::Raw | Mode::Const | Mode::Stride | Mode::Xorz => true,
        Mode::Pred | Mode::PredRc | Mode::Pred2 => true,
        Mode::Delta2 | Mode::DeltaDp | Mode::OrderedDelta => true,
        _ => false,
    }
}

/// Some early candidate is well below the verbatim block.
pub open spec fn block_shrank(t: Terms, cands: Seq<Candidate>) -> bool {
    exists|i: int|
        0 <= i < cands.len() && early_mode((#[trigger] cands[i]).mode) && shrank(
            t,
            cands[i].payload@.len(),
        )
}

/// What a mode of the pool needs, besides applying to the block, to compete: an
/// entropy coder runs only where the predictor already shrank the block, and both
/// float predictors only where the first of them did; LZ on
/// compressible blocks that repeat (or when size is all that counts); byte planes
/// on compressible blocks of similar magnitude; dictionary and runs on
/// compressible blocks.
pub open spec fn rule(t: Terms, level: Level, compressible: bool, mode: Mode) -> bool {
    let f = features::features_of(t.dtype.lane(), t.block);
    match mode {
        Mode::PredRc | Mode::Pred2 | Mode::OrderedDelta => shrank(t, residual_size(t, mode)),
        Mode::Delta2 | Mode::DeltaDp => floats_shrank(t),
        Mode::Lz => compressible && (level.lambda() == 0 || f.distinct_low
            || f.looks_like_repeats),
        Mode::ByteTranspose => compressible && (f.exp_range <= TRANSPOSE_EXP_LIMIT
            || f.looks_like_repeats),
        Mode::Dict | Mode::Rle => compressible,
        _ => true,
    }
}

/// All candidates are early ones by the rules.
pub open spec fn all_early(t: Terms, level: Level, cands: Seq<Candidate>) -> bool {
    forall|i: int|
        0 <= i < cands.len() ==> early_mode((#[trigger] cands[i]).mode) && rule(
            t,
            level,
            false,
            cands[i].mode,
        )
}

/// What `after` has more than `before` are late candidates by the rules, other than
/// of `pco`.
pub open spec fn adds_late(
    t: Terms,
    level: Level,
    compressible: bool,
    before: Seq<Candidate>,
    after: Seq<Candidate>,
) -> bool {
    forall|i: int|
        before.len() <= i < after.len() ==> !early_mode((#[trigger] after[i]).mode)
            && after[i].mode !is Pco && rule(t, level, compressible, after[i].mode)
}

/// Whether a mode other than of float arithmetic or `pco` competes for a block.
pub open spec fn competes(t: Terms, level: Level, compressible: bool, mode: Mode) -> bool {
    &&& !float_frame(mode, t.dtype)
    &&& mode !is Pco
    &&& in_pool(mode, t.dtype.family(), level)
    &&& encodes(t.dtype, mode, t.block)
    &&& rule(t, level, compressible, mode)
}

/// An offer that competes: usable, of a mode in the level's pool, and, where it
/// predicts, on finite values that the prediction shrank.
pub open spec fn offer_competes(t: Terms, level: Level, o: FloatOffer) -> bool {
    &&& usable_offer(t, o)
    &&& in_pool(o.mode, t.dtype.family(), level)
    &&& float_predictor(o.mode) ==> features::is_finite(t.dtype.lane(), t.block)
        && floats_shrank(t)
}

/// The candidates of a full competition: the verbatim block, every mode that
/// competes, every offer that competes, and nothing else; on integer columns
/// `pco` besides, if it made a payload. They stand in the order of consideration.
#[verifier::opaque]
pub open spec fn full_pool(t: Terms, level: Level, cands: Seq<Candidate>) -> bool {
    &&& led_by_raw(t, cands)
    &&& in_order(true, cands)
    &&& all_stand(t, cands)
    &&& all_made(t, level, cands)
    &&& if skips_competition(t.dtype, t.block) {
        cands.len() == 1
    } else {
        &&& forall|m: Mode| #[trigger]
            competes(t, level, block_shrank(t, cands), m) ==> has_mode(cands, m)
        &&& forall|i: int|
            0 <= i < cands.len() ==> rule(
                t,
                level,
                block_shrank(t, cands),
                (#[trigger] cands[i]).mode,
            )
        &&& forall|j: int|
            0 <= j < t.offers.len() && offer_competes(t, level, #[trigger] t.offers[j]) ==> listed(t, cands, j)
    }
}

/// The verbatim block, which leads every competition.
fn verbatim_only(dtype: DType, block: &[u64], Ghost(t): Ghost<Terms>, Ghost(level): Ghost<Level>) -> (cands:
    Vec<Candidate>)
    requires
        t.dtype == dtype,
        t.block == block@,
        dtype.lane().fits_all(block@),
    ensures
        led_by_raw(t, cands@),
        all_stand(t, cands@),
        all_made(t, level, cands@),
        cands.len() == 1,
        forall|whole: bool| #[trigger] lined_up(whole, cands@, 1),
{
    reveal(lined_up);
    reveal(decoder::block_decoded);
    reveal(decoder::frame_decoded);
    reveal(mode_image);
    let mut cands: Vec<Candidate> = Vec::new();
    let payload = raw::encode(dtype.lane(), block);
    cands.push(Candidate { mode: Mode::Raw, payload, source: 0 });
    cands
}

/// Let the modes of global structure, and the chained varints outside the
/// reduced pool, compete.
fn compete_cheap(
    cands: &mut Vec<Candidate>,
    dtype: DType,
    block: &[u64],
    log2: u8,
    level: Level,
    Ghost(t): Ghost<Terms>,
)
    requires
        t.dtype == dtype,
        t.log2 == log2,
        t.block == block@,
        all_stand(t, old(cands)@),
        all_made(t, level, old(cands)@),
        dtype.lane().fits_all(block@),
        block.len() <= max_block_values(dtype.lane().bytes()),
        log2 < usize::BITS,
    ensures
        all_stand(t, final(cands)@),
        all_made(t, level, final(cands)@),
        extends(old(cands)@, final(cands)@),
        all_early(t, level, old(cands)@) ==> all_early(t, level, final(cands)@),
        encodes(dtype, Mode::Const, block@) ==> has_mode(final(cands)@, Mode::Const),
        encodes(dtype, Mode::Stride, block@) ==> has_mode(final(cands)@, Mode::Stride),
        !level.reduced_pool() ==> has_mode(final(cands)@, Mode::Xorz),
        lined_up(true, old(cands)@, 1) ==> lined_up(true, final(cands)@, 4),
{
    let ghost c0 = cands@;
    compete(cands, dtype, Mode::Const, block, log2, level, Ghost(t));
    let ghost c1 = cands@;
    compete(cands, dtype, Mode::Stride, block, log2, level, Ghost(t));
    let ghost c2 = cands@;
    if !level.reduced_pool() {
        compete(cands, dtype, Mode::Xorz, block, log2, level, Ghost(t));
    }
    proof {
        lemma_lined_up(true, c0, c1, Mode::Const, 1);
        lemma_lined_up(true, c1, c2, Mode::Stride, 2);
        lemma_lined_up(true, c2, cands@, Mode::Xorz, 3);
        lemma_extends(c1, cands@);
        lemma_extends(c2, cands@);
    }
}

/// Let the decimal and split-dictionary codecs of float columns compete. They
/// gain by the values themselves, not by predictability.
fn compete_decimal(
    cands: &mut Vec<Candidate>,
    dtype: DType,
    block: &[u64],
    log2: u8,
    level: Level,
    offers: &[FloatOffer],
    Ghost(t): Ghost<Terms>,
)
    requires
        t.dtype == dtype,
        t.log2 == log2,
        t.block == block@,
        all_stand(t, old(cands)@),
        all_made(t, level, old(cands)@),
        dtype.lane().fits_all(block@),
        block.len() <= max_block_values(dtype.lane().bytes()),
        log2 < usize::BITS,
        t.offers == offers@,
        dtype.family() is Float,
        !level.reduced_pool(),
    ensures
        all_stand(t, final(cands)@),
        all_made(t, level, final(cands)@),
        extends(old(cands)@, final(cands)@),
        forall|compressible: bool| #[trigger]
            adds_late(t, level, compressible, old(cands)@, final(cands)@),
        encodes(dtype, Mode::AlpRd, block@) ==> has_mode(final(cands)@, Mode::AlpRd),
        forall|j: int|
            0 <= j < offers.len() && ((#[trigger] offers@[j]).mode is FloatMult
                || offers@[j].mode is Alp) && usable_offer(t, offers@[j]) ==> listed(
                t,
                final(cands)@,
                j,
            ),
        lined_up(true, old(cands)@, 10) ==> lined_up(true, final(cands)@, 13),
{
    let ghost c0 = cands@;
    compete_offers(cands, dtype, Mode::FloatMult, block, offers, Ghost(t), Ghost(level));
    let ghost c1 = cands@;
    compete_offers(cands, dtype, Mode::Alp, block, offers, Ghost(t), Ghost(level));
    let ghost c2 = cands@;
    compete(cands, dtype, Mode::AlpRd, block, log2, level, Ghost(t));
    proof {
        lemma_lined_up(true, c0, c1, Mode::FloatMult, 10);
        lemma_lined_up(true, c1, c2, Mode::Alp, 11);
        lemma_lined_up(true, c2, cands@, Mode::AlpRd, 12);
        lemma_extends(c1, cands@);
        lemma_extends(c2, cands@);
    }
}

/// Let the repeat-finding entropy modes compete where they can gain: LZ on
/// repetitive data (or when size is all that counts), byte planes on values of
/// similar magnitude.
fn compete_entropy(
    cands: &mut Vec<Candidate>,
    dtype: DType,
    block: &[u64],
    log2: u8,
    level: Level,
    feats: features::BlockFeatures,
    Ghost(t): Ghost<Terms>,
)
    requires
        t.dtype == dtype,
        t.log2 == log2,
        t.block == block@,
        all_stand(t, old(cands)@),
        all_made(t, level, old(cands)@),
        dtype.lane().fits_all(block@),
        block.len() <= max_block_values(dtype.lane().bytes()),
        log2 < usize::BITS,
        level.allows_entropy(),
        feats == features::features_of(dtype.lane(), block@),
    ensures
        all_stand(t, final(cands)@),
        all_made(t, level, final(cands)@),
        extends(old(cands)@, final(cands)@),
        adds_late(t, level, true, old(cands)@, final(cands)@),
        rule(t, level, true, Mode::Lz) ==> has_mode(final(cands)@, Mode::Lz),
        rule(t, level, true, Mode::ByteTranspose) ==> has_mode(
            final(cands)@,
            Mode::ByteTranspose,
        ),
        lined_up(true, old(cands)@, 13) ==> lined_up(true, final(cands)@, 15),
{
    let ghost start = cands@;
    if level.lambda() == 0 || feats.distinct_low || feats.looks_like_repeats {
        compete(cands, dtype, Mode::Lz, block, log2, level, Ghost(t));
    }
    let ghost with_lz = cands@;
    if feats.exp_range <= TRANSPOSE_EXP_LIMIT || feats.looks_like_repeats {
        compete(cands, dtype, Mode::ByteTranspose, block, log2, level, Ghost(t));
    }
    proof {
        lemma_lined_up(true, start, with_lz, Mode::Lz, 13);
        lemma_lined_up(true, with_lz, cands@, Mode::ByteTranspose, 14);
        lemma_extends(with_lz, cands@);
    }
}

/// Let the bit-packers compete: frame of reference and deltas always, dictionary
/// and runs on compressible blocks outside the reduced pool.
fn compete_packed(
    cands: &mut Vec<Candidate>,
    dtype: DType,
    block: &[u64],
    log2: u8,
    level: Level,
    compressible: bool,
    Ghost(t): Ghost<Terms>,
)
    requires
        t.dtype == dtype,
        t.log2 == log2,
        t.block == block@,
        all_stand(t, old(cands)@),
        all_made(t, level, old(cands)@),
        dtype.lane().fits_all(block@),
        block.len() <= max_block_values(dtype.lane().bytes()),
        log2 < usize::BITS,
    ensures
        all_stand(t, final(cands)@),
        all_made(t, level, final(cands)@),
        extends(old(cands)@, final(cands)@),
        adds_late(t, level, compressible, old(cands)@, final(cands)@),
        has_mode(final(cands)@, Mode::ForBitpack),
        has_mode(final(cands)@, Mode::DeltaBitpack),
        compressible && !level.reduced_pool() && encodes(dtype, Mode::Dict, block@) ==> has_mode(
            final(cands)@,
            Mode::Dict,
        ),
        compressible && !level.reduced_pool() && encodes(dtype, Mode::Rle, block@) ==> has_mode(
            final(cands)@,
            Mode::Rle,
        ),
        lined_up(true, old(cands)@, 15) ==> lined_up(true, final(cands)@, 19),
{
    let ghost c0 = cands@;
    compete(cands, dtype, Mode::ForBitpack, block, log2, level, Ghost(t));
    let ghost c1 = cands@;
    compete(cands, dtype, Mode::DeltaBitpack, block, log2, level, Ghost(t));
    let ghost c2 = cands@;
    if compressible && !level.reduced_pool() {
        compete(cands, dtype, Mode::Dict, block, log2, level, Ghost(t));
        let ghost c3 = cands@;
        compete(cands, dtype, Mode::Rle, block, log2, level, Ghost(t));
        proof {
            lemma_extends(c3, cands@);
            lemma_lined_up(true, c2, c3, Mode::Dict, 17);
            lemma_lined_up(true, c3, cands@, Mode::Rle, 18);
        }
    }
    proof {
        lemma_passed_over(true, c2, 17, 19);
        lemma_lined_up(true, c0, c1, Mode::ForBitpack, 15);
        lemma_lined_up(true, c1, c2, Mode::DeltaBitpack, 16);
        lemma_extends(c1, cands@);
        lemma_extends(c2, cands@);
    }
}

/// Let `pco` compete: here on integer columns, as offered on float columns.
fn compete_pco(
    cands: &mut Vec<Candidate>,
    dtype: DType,
    block: &[u64],
    offers: &[FloatOffer],
    pco: Option<Vec<u8>>,
    Ghost(t): Ghost<Terms>,
    Ghost(level): Ghost<Level>,
)
    requires
        t.dtype == dtype,
        t.block == block@,
        all_stand(t, old(cands)@),
        all_made(t, level, old(cands)@),
        dtype.lane().fits_all(block@),
        t.offers == offers@,
        level.allows_pco(),
        pco matches Some(p) ==> lossless(dtype, t.log2, Mode::Pco, p@, block@),
    ensures
        all_stand(t, final(cands)@),
        all_made(t, level, final(cands)@),
        extends(old(cands)@, final(cands)@),
        adds_only(old(cands)@, final(cands)@, Mode::Pco),
        dtype.family() is Float ==> forall|j: int|
            0 <= j < offers.len() && (#[trigger] offers@[j]).mode is Pco && usable_offer(
                t,
                offers@[j],
            ) ==> listed(t, final(cands)@, j),
        dtype.family() is Int && !has_mode(old(cands)@, Mode::Pco) ==> pco_enters(
            t,
            bytes_of(pco),
            final(cands)@,
        ),
{
    match dtype.family() {
        Family::Float => compete_offers(
            cands,
            dtype,
            Mode::Pco,
            block,
            offers,
            Ghost(t),
            Ghost(level),
        ),
        Family::Int => {
            let ghost before = cands@;
            if let Some(payload) = pco {
                consider(cands, Mode::Pco, payload, 0, Ghost(t), Ghost(level));
            }
            proof {
                if !has_mode(before, Mode::Pco) {
                    assert forall|i: int|
                        0 <= i < cands@.len() && (#[trigger] cands@[i]).mode is Pco implies i
                        >= before.len() by {
                        if i < before.len() {
                            assert(cands@[i] == before[i]);
                            assert(before[i].mode == Mode::Pco);
                        }
                    }
                }
            }
        },
    }
}

/// The payload of `pco` that counts in a full competition: at the levels that allow
/// it, unless only the verbatim form competes.
pub open spec fn full_pco(dtype: DType, block: Seq<u64>, level: Level, pco: Option<Seq<u8>>) -> Option<
    Seq<u8>,
> {
    if level.allows_pco() && !skips_competition(dtype, block) {
        pco
    } else {
        None
    }
}

/// Encode a block by every mode that may win it.
fn candidates_full(
    dtype: DType,
    block: &[u64],
    log2: u8,
    level: Level,
    offers: &[FloatOffer],
    pco: Option<Vec<u8>>,
) -> (cands: Vec<Candidate>)
    requires
        dtype.lane().fits_all(block@),
        block.len() <= max_block_values(dtype.lane().bytes()),
        log2 < usize::BITS,
        pco matches Some(p) ==> lossless(dtype, log2, Mode::Pco, p@, block@),
    ensures
        full_pool((Terms { dtype, log2, block: block@, offers: offers@ }), level, cands@),
        pco_enters(
            (Terms { dtype, log2, block: block@, offers: offers@ }),
            full_pco(dtype, block@, level, bytes_of(pco)),
            cands@,
        ),
{
    reveal(full_pool);
    let ghost t = Terms { dtype, log2, block: block@, offers: offers@ };
    let lane: Lane = dtype.lane();
    let is_float: bool = match dtype.family() {
        Family::Float => true,
        Family::Int => false,
    };
    let feats = probe_block_features(lane, block);
    let mut cands = verbatim_only(dtype, block, Ghost(t), Ghost(level));
    if !is_float && looks_incompressible(lane, block, feats) {
        return cands;
    }
    let raw_bytes: usize = cands[0].payload.len();
    let ghost c0 = cands@;
    compete_cheap(&mut cands, dtype, block, log2, level, Ghost(t));
    let ghost c1 = cands@;
    if level.allows_predictors() {
        compete_predictors(&mut cands, dtype, block, log2, level, offers, Ghost(t));
    }
    let ghost c2 = cands@;
    let smallest: usize = smallest_payload(&cands);
    let compressible: bool = looks_compressible(smallest, raw_bytes);
    proof {
        lane::lemma_words_bytes_len(lane, block@);
        lemma_block_shrank(t, c2, smallest as nat);
    }
    if is_float && !level.reduced_pool() {
        compete_decimal(&mut cands, dtype, block, log2, level, offers, Ghost(t));
    }
    let ghost c3 = cands@;
    if level.allows_entropy() && compressible {
        compete_entropy(&mut cands, dtype, block, log2, level, feats, Ghost(t));
    }
    let ghost c4 = cands@;
    compete_packed(&mut cands, dtype, block, log2, level, compressible, Ghost(t));
    let ghost c5 = cands@;
    proof {
        assert(adds_late(t, level, compressible, c2, c3));
        assert(adds_late(t, level, compressible, c2, c5)) by {
            lemma_adds_late(t, level, compressible, c2, c3, c4);
            lemma_adds_late(t, level, compressible, c2, c4, c5);
        }
        assert(!has_mode(c5, Mode::Pco)) by {
            assert forall|i: int| 0 <= i < c5.len() implies (#[trigger] c5[i]).mode !is Pco by {
                if i < c2.len() {
                    assert(c5[i] == c2[i]);
                }
            }
        }
    }
    if level.allows_pco() {
        compete_pco(&mut cands, dtype, block, offers, pco, Ghost(t), Ghost(level));
    }
    proof {
        lemma_passed_over(true, c1, 4, 10);
        lemma_passed_over(true, c2, 10, 13);
        lemma_passed_over(true, c3, 13, 15);
        lemma_lined_up(true, c5, cands@, Mode::Pco, 19);
        assert(in_order(true, cands@)) by {
            assert(lined_up(true, c0, 1));
            reveal(lined_up);
        }
        lemma_full_offers(t, level, c2, c3, cands@);
        lemma_full_modes(t, level, compressible, c0, c1, c2, c3, c4, c5, cands@);
    }
    cands
}

/// Whether the early candidates show the block to be compressible is told by the
/// smallest of them.
proof fn lemma_block_shrank(t: Terms, early: Seq<Candidate>, smallest: nat)
    requires
        forall|i: int| 0 <= i < early.len() ==> early_mode((#[trigger] early[i]).mode),
        forall|i: int| 0 <= i < early.len() ==> smallest <= (#[trigger] early[i]).payload@.len(),
        exists|i: int| 0 <= i < early.len() && smallest == (#[trigger] early[i]).payload@.len(),
    ensures
        block_shrank(t, early) == shrank(t, smallest),
{
    if shrank(t, smallest) {
        let k = choose|i: int|
            0 <= i < early.len() && smallest == (#[trigger] early[i]).payload@.len();
        assert(early_mode(early[k].mode) && shrank(t, early[k].payload@.len()));
    }
}

proof fn lemma_adds_late(
    t: Terms,
    level: Level,
    compressible: bool,
    a: Seq<Candidate>,
    b: Seq<Candidate>,
    c: Seq<Candidate>,
)
    requires
        extends(b, c),
        a.len() <= b.len(),
        adds_late(t, level, compressible, a, b),
        adds_late(t, level, compressible, b, c),
    ensures
        adds_late(t, level, compressible, a, c),
{
    assert forall|i: int| a.len() <= i < c.len() implies !early_mode((#[trigger] c[i]).mode)
        && c[i].mode !is Pco && rule(t, level, compressible, c[i].mode) by {
        if i < b.len() {
            assert(c[i] == b[i]);
        }
    }
}

/// Every offer that competes is among the candidates.
proof fn lemma_full_offers(
    t: Terms,
    level: Level,
    c2: Seq<Candidate>,
    c3: Seq<Candidate>,
    all: Seq<Candidate>,
)
    requires
        extends(c2, all),
        extends(c3, all),
        level.allows_predictors() && t.dtype.family() is Float && features::is_finite(
            t.dtype.lane(),
            t.block,
        ) && floats_shrank(t) ==> forall|j: int|
            0 <= j < t.offers.len() && ((#[trigger] t.offers[j]).mode is Delta2
                || t.offers[j].mode is DeltaDp) && usable_offer(t, t.offers[j]) ==> listed(t, c2, j),
        t.dtype.family() is Float && !level.reduced_pool() ==> forall|j: int|
            0 <= j < t.offers.len() && ((#[trigger] t.offers[j]).mode is FloatMult
                || t.offers[j].mode is Alp) && usable_offer(t, t.offers[j]) ==> listed(t, c3, j),
        level.allows_pco() && t.dtype.family() is Float ==> forall|j: int|
            0 <= j < t.offers.len() && (#[trigger] t.offers[j]).mode is Pco && usable_offer(
                t,
                t.offers[j],
            ) ==> listed(t, all, j),
    ensures
        forall|j: int|
            0 <= j < t.offers.len() && offer_competes(t, level, #[trigger] t.offers[j]) ==> listed(t, all, j),
{
    lemma_extends(c2, all);
    lemma_extends(c3, all);
    assert forall|j: int|
        0 <= j < t.offers.len() && offer_competes(t, level, #[trigger] t.offers[j]) implies listed(t, all, j) by {
        let o = t.offers[j];
        match o.mode {
            Mode::Delta2 | Mode::DeltaDp => {
                assert(listed(t, c2, j));
            },
            Mode::FloatMult | Mode::Alp => {
                assert(listed(t, c3, j));
            },
            _ => {},
        }
    }
}

/// Every mode that competes is among the candidates, and each candidate is there
/// by the rules.
proof fn lemma_full_modes(
    t: Terms,
    level: Level,
    compressible: bool,
    c0: Seq<Candidate>,
    c1: Seq<Candidate>,
    c2: Seq<Candidate>,
    c3: Seq<Candidate>,
    c4: Seq<Candidate>,
    c5: Seq<Candidate>,
    all: Seq<Candidate>,
)
    requires
        led_by_raw(t, c0),
        extends(c0, all),
        extends(c1, all),
        extends(c2, all),
        extends(c3, all),
        extends(c4, all),
        extends(c5, all),
        all_early(t, level, c2),
        c2.len() <= c5.len(),
        adds_late(t, level, compressible, c2, c5),
        adds_only(c5, all, Mode::Pco),
        block_shrank(t, c2) == compressible,
        encodes(t.dtype, Mode::Const, t.block) ==> has_mode(c1, Mode::Const),
        encodes(t.dtype, Mode::Stride, t.block) ==> has_mode(c1, Mode::Stride),
        !level.reduced_pool() ==> has_mode(c1, Mode::Xorz),
        level.allows_predictors() ==> has_mode(c2, Mode::Pred),
        level.allows_predictors() && rule(t, level, false, Mode::PredRc) ==> has_mode(
            c2,
            Mode::PredRc,
        ),
        level.allows_predictors() && rule(t, level, false, Mode::Pred2) ==> has_mode(
            c2,
            Mode::Pred2,
        ),
        level.allows_predictors() && rule(t, level, false, Mode::OrderedDelta) ==> has_mode(
            c2,
            Mode::OrderedDelta,
        ),
        t.dtype.family() is Float && !level.reduced_pool() && encodes(t.dtype, Mode::AlpRd, t.block)
            ==> has_mode(c3, Mode::AlpRd),
        level.allows_entropy() && compressible && rule(t, level, true, Mode::Lz) ==> has_mode(
            c4,
            Mode::Lz,
        ),
        level.allows_entropy() && compressible && rule(t, level, true, Mode::ByteTranspose)
            ==> has_mode(c4, Mode::ByteTranspose),
        has_mode(c5, Mode::ForBitpack),
        has_mode(c5, Mode::DeltaBitpack),
        compressible && !level.reduced_pool() && encodes(t.dtype, Mode::Dict, t.block) ==> has_mode(
            c5,
            Mode::Dict,
        ),
        compressible && !level.reduced_pool() && encodes(t.dtype, Mode::Rle, t.block) ==> has_mode(
            c5,
            Mode::Rle,
        ),
    ensures
        led_by_raw(t, all),
        forall|m: Mode| #[trigger]
            competes(t, level, block_shrank(t, all), m) ==> has_mode(all, m),
        forall|i: int|
            0 <= i < all.len() ==> rule(
                t,
                level,
                block_shrank(t, all),
                (#[trigger] all[i]).mode,
            ),
{
    lemma_extends(c1, all);
    lemma_extends(c2, all);
    lemma_extends(c3, all);
    lemma_extends(c4, all);
    lemma_extends(c5, all);
    assert(all[0] == c0[0]);
    assert forall|i: int| c2.len() <= i < all.len() implies !early_mode((#[trigger] all[i]).mode)
        && rule(t, level, compressible, all[i].mode) by {
        if i < c5.len() {
            assert(all[i] == c5[i]);
        }
    }
    assert(block_shrank(t, all) == compressible) by {
        if compressible {
            let i = choose|i: int|
                0 <= i < c2.len() && early_mode((#[trigger] c2[i]).mode) && shrank(
                    t,
                    c2[i].payload@.len(),
                );
            assert(all[i] == c2[i]);
        }
        if block_shrank(t, all) {
            let i = choose|i: int|
                0 <= i < all.len() && early_mode((#[trigger] all[i]).mode) && shrank(
                    t,
                    all[i].payload@.len(),
                );
            assert(i < c2.len());
            assert(all[i] == c2[i]);
        }
    }
    assert forall|i: int| 0 <= i < all.len() implies rule(
        t,
        level,
        compressible,
        (#[trigger] all[i]).mode,
    ) by {
        if i < c2.len() {
            assert(all[i] == c2[i]);
        }
    }
    assert forall|m: Mode| #[trigger] competes(t, level, compressible, m) implies has_mode(
        all,
        m,
    ) by {
        match m {
            Mode::Raw => {
                assert(all[0].mode == m);
            },
            Mode::Const | Mode::Stride | Mode::Xorz => {
                assert(has_mode(c1, m));
            },
            Mode::Pred | Mode::PredRc | Mode::Pred2 | Mode::OrderedDelta => {
                assert(has_mode(c2, m));
            },
            Mode::AlpRd => {
                assert(has_mode(c3, m));
            },
            Mode::Lz | Mode::ByteTranspose => {
                assert(has_mode(c4, m));
            },
            _ => {
                assert(has_mode(c5, m));
            },
        }
    }
}

/// The sizes of candidates.
pub open spec fn sizes_of(cands: Seq<Candidate>) -> Seq<usize> {
    Seq::new(cands.len(), |i: int| cands[i].payload@.len() as usize)
}

/// The decode costs of candidates.
pub open spec fn weights_of(lane: Lane, cands: Seq<Candidate>) -> Seq<u64> {
    Seq::new(
        cands.len(),
        |i: int| selection::decode_cost(lane, cands[i].mode, cands[i].payload@),
    )
}

/// `c` is the winner of the competition between `cands`.
pub open spec fn wins(
    dtype: DType,
    lambda: u64,
    bias: u32,
    cands: Seq<Candidate>,
    c: Candidate,
) -> bool {
    exists|w: int|
        #[trigger] selection::is_winner(
            sizes_of(cands),
            weights_of(dtype.lane(), cands),
            lambda,
            bias,
            w,
        ) && c.mode == cands[w].mode && c.payload@ == cands[w].payload@
}

/// Pick the winner.
fn pick_winner(dtype: DType, level: Level, bias: u32, cands: Vec<Candidate>, Ghost(t): Ghost<Terms>) -> (c:
    Candidate)
    requires
        t.dtype == dtype,
        led_by_raw(t, cands@),
        all_stand(t, cands@),
    ensures
        wins(dtype, level.lambda(), bias, cands@, c),
        stands(t, c),
        cands@.contains(c),
        c.payload.len() <= t.block.len() * dtype.lane().bytes(),
{
    let lane: Lane = dtype.lane();
    let mut sizes: Vec<usize> = Vec::new();
    let mut weights: Vec<u64> = Vec::new();
    let mut i: usize = 0;
    while i < cands.len()
        invariant
            i <= cands.len(),
            lane == dtype.lane(),
            sizes.len() == i,
            weights.len() == i,
            forall|j: int| 0 <= j < i ==> #[trigger] sizes@[j] == cands@[j].payload@.len(),
            forall|j: int|
                0 <= j < i ==> #[trigger] weights@[j] == selection::decode_cost(
                    lane,
                    cands@[j].mode,
                    cands@[j].payload@,
                ) && weights@[j] <= NS_RANGE,
        decreases cands.len() - i,
    {
        sizes.push(cands[i].payload.len());
        weights.push(decode_weight(lane, cands[i].mode, &cands[i].payload));
        i = i + 1;
    }
    let w: usize = select(&sizes, &weights, level.lambda(), bias);
    proof {
        assert(sizes@ =~= sizes_of(cands@));
        assert(weights@ =~= weights_of(lane, cands@));
        assert(stands(t, cands@[w as int]));
        assert(weights@[0] == 0);
        selection::lemma_winner_beats_free(sizes@, weights@, level.lambda(), bias, w as int, 0);
        lane::lemma_words_bytes_len(lane, t.block);
    }
    let ghost all = cands@;
    let mut cands = cands;
    let c = cands.swap_remove(w);
    proof {
        assert(c == all[w as int]);
        assert(selection::is_winner(
            sizes_of(all),
            weights_of(dtype.lane(), all),
            level.lambda(),
            bias,
            w as int,
        ));
    }
    c
}

/// The winner of a full competition for a block, `pco` being what the `pco` codec
/// made of an integer block, if it made anything.
pub fn best_block_full(
    dtype: DType,
    block: &[u64],
    log2: u8,
    cfg: &Config,
    offers: &[FloatOffer],
    pco: Option<Vec<u8>>,
) -> (c: Candidate)
    requires
        dtype.lane().fits_all(block@),
        block.len() <= max_block_values(dtype.lane().bytes()),
        log2 < usize::BITS,
        pco matches Some(p) ==> lossless(dtype, log2, Mode::Pco, p@, block@),
    ensures
        exists|cands: Seq<Candidate>|
            #[trigger] full_pool(
                (Terms { dtype, log2, block: block@, offers: offers@ }),
                cfg.level,
                cands,
            ) && pco_enters(
                (Terms { dtype, log2, block: block@, offers: offers@ }),
                full_pco(dtype, block@, cfg.level, bytes_of(pco)),
                cands,
            ) && wins(dtype, cfg.level.lambda(), cfg.spec_decode_bias(), cands, c),
        stands((Terms { dtype, log2, block: block@, offers: offers@ }), c),
        made((Terms { dtype, log2, block: block@, offers: offers@ }), cfg.level, c),
        c.payload.len() <= block.len() * dtype.lane().bytes(),
{
    reveal(full_pool);
    let ghost t = Terms { dtype, log2, block: block@, offers: offers@ };
    let cands = candidates_full(dtype, block, log2, cfg.level, offers, pco);
    let ghost all = cands@;
    let c = pick_winner(dtype, cfg.level, cfg.effective_decode_bias(), cands, Ghost(t));
    proof {
        assert(full_pool(t, cfg.level, all));
        let i = choose|i: int| 0 <= i < all.len() && all[i] == c;
        assert(made(t, cfg.level, all[i]));
    }
    c
}

/// Encode a block by a full competition.
pub fn encode_block_full(
    dtype: DType,
    block: &[u64],
    log2: u8,
    cfg: &Config,
    offers: &[FloatOffer],
) -> (c: Candidate)
    requires
        dtype.lane().fits_all(block@),
        block.len() <= max_block_values(dtype.lane().bytes()),
        log2 < usize::BITS,
    ensures
        exists|cands: Seq<Candidate>|
            #[trigger] full_pool(
                (Terms { dtype, log2, block: block@, offers: offers@ }),
                cfg.level,
                cands,
            ) && pco_takes_part(
                (Terms { dtype, log2, block: block@, offers: offers@ }),
                *cfg,
                skips_competition(dtype, block@),
                cands,
            ) && wins(dtype, cfg.level.lambda(), cfg.spec_decode_bias(), cands, c),
        stands((Terms { dtype, log2, block: block@, offers: offers@ }), c),
        made((Terms { dtype, log2, block: block@, offers: offers@ }), cfg.level, c),
        c.payload.len() <= block.len() * dtype.lane().bytes(),
{
    let is_int: bool = match dtype.family() {
        Family::Int => true,
        Family::Float => false,
    };
    let lane: Lane = dtype.lane();
    let noise: bool = is_int && looks_incompressible(
        lane,
        block,
        probe_block_features(lane, block),
    );
    let pco: Option<Vec<u8>> = if is_int && cfg.level.allows_pco() && !noise {
        encode_mode(dtype, Mode::Pco, block, log2, cfg.level, cfg.effective_pco_level())
    } else {
        None
    };
    best_block_full(dtype, block, log2, cfg, offers, pco)
}

// ---------------------------------------------------------------------------
// Selection by sample
// ---------------------------------------------------------------------------

/// The modes that are ranked by their size on a sample, in order. Global
/// structure and long-range repeats are invisible to a sample, so the other
/// modes always see the whole block.
pub open spec fn sample_modes() -> Seq<Mode> {
    seq![
        Mode::Xorz,
        Mode::Pred,
        Mode::PredRc,
        Mode::Pred2,
        Mode::Delta2,
        Mode::DeltaDp,
        Mode::OrderedDelta,
        Mode::FloatMult,
        Mode::ByteTranspose,
        Mode::ForBitpack,
        Mode::DeltaBitpack,
        Mode::Alp,
        Mode::AlpRd,
        Mode::Dict,
        Mode::Rle,
    ]
}

/// Number of modes ranked by sample.
pub const SAMPLE_MODES: usize = 15;

fn sample_mode(i: usize) -> (m: Mode)
    requires
        i < SAMPLE_MODES,
    ensures
        m == sample_modes()[i as int],
{
    match i {
        0 => Mode::Xorz,
        1 => Mode::Pred,
        2 => Mode::PredRc,
        3 => Mode::Pred2,
        4 => Mode::Delta2,
        5 => Mode::DeltaDp,
        6 => Mode::OrderedDelta,
        7 => Mode::FloatMult,
        8 => Mode::ByteTranspose,
        9 => Mode::ForBitpack,
        10 => Mode::DeltaBitpack,
        11 => Mode::Alp,
        12 => Mode::AlpRd,
        13 => Mode::Dict,
        _ => Mode::Rle,
    }
}

/// The values of a block at its sampled positions.
pub open spec fn sample_of(block: Seq<u64>) -> Seq<u64> {
    let at = sample::sampled(block.len(), SAMPLE_VALUES as nat);
    Seq::new(at.len(), |i: int| block[at[i]])
}

/// The stratified sample of a block: contiguous runs spread across it.
pub fn build_sample(block: &[u64]) -> (out: Vec<u64>)
    ensures
        out@ == sample_of(block@),
        forall|i: int| 0 <= i < out.len() ==> block@.contains(#[trigger] out@[i]),
        out.len() <= SAMPLE_VALUES,
{
    let positions = sample_positions(block.len(), SAMPLE_VALUES);
    let mut out: Vec<u64> = Vec::new();
    let mut i: usize = 0;
    while i < positions.len()
        invariant
            i <= positions.len(),
            out.len() == i,
            forall|k: int| 0 <= k < positions.len() ==> #[trigger] positions@[k] < block.len(),
            forall|k: int| 0 <= k < i ==> #[trigger] out@[k] == block@[positions@[k] as int],
            forall|k: int| 0 <= k < i ==> block@.contains(#[trigger] out@[k]),
        decreases positions.len() - i,
    {
        assert(positions@[i as int] < block.len());
        let v: u64 = block[positions[i]];
        assert(block@.contains(v));
        out.push(v);
        i = i + 1;
    }
    proof {
        let want = sample::sampled(block@.len(), SAMPLE_VALUES as nat);
        assert(sample::run_len(512) == 64);
        assert(sample::runs(512) == 8);
        assert(want.len() == out.len());
        assert(out@ =~= sample_of(block@));
    }
    out
}

/// Offer `j` is the first usable one of a float mode.
pub open spec fn first_offer(t: Terms, mode: Mode, j: int) -> bool {
    &&& 0 <= j < t.offers.len()
    &&& t.offers[j].mode == mode
    &&& usable_offer(t, t.offers[j])
    &&& forall|k: int|
        0 <= k < j && (#[trigger] t.offers[k]).mode == mode ==> !usable_offer(t, t.offers[k])
}

/// No offer of a float mode is usable.
pub open spec fn no_offer(t: Terms, mode: Mode) -> bool {
    forall|k: int|
        0 <= k < t.offers.len() && (#[trigger] t.offers[k]).mode == mode ==> !usable_offer(
            t,
            t.offers[k],
        )
}

/// The first usable offer of a float mode.
fn find_offer(
    offers: &[FloatOffer],
    dtype: DType,
    mode: Mode,
    n: usize,
    Ghost(t): Ghost<Terms>,
) -> (r: Option<usize>)
    requires
        t.dtype == dtype,
        t.block.len() == n,
        t.offers == offers@,
        float_frame(mode, dtype),
    ensures
        match r {
            Some(j) => first_offer(t, mode, j as int),
            None => no_offer(t, mode),
        },
{
    let mut i: usize = 0;
    while i < offers.len()
        invariant
            i <= offers.len(),
            t.dtype == dtype,
            t.block.len() == n,
            t.offers == offers@,
            float_frame(mode, dtype),
            forall|k: int|
                0 <= k < i && (#[trigger] t.offers[k]).mode == mode ==> !usable_offer(
                    t,
                    t.offers[k],
                ),
        decreases offers.len() - i,
    {
        if offers[i].mode == mode {
            if let Ok(_) = parse_float_block(dtype.lane(), mode, &offers[i].payload, n) {
                return Some(i);
            }
        }
        i = i + 1;
    }
    None
}

/// Whether a mode is ranked by its size on the sample.
pub open spec fn is_ranked(t: Terms, level: Level, mode: Mode) -> bool {
    &&& mode_runs(mode, t.dtype.family(), level)
    &&& in_pool(mode, t.dtype.family(), level)
    &&& float_predictor(mode) ==> features::is_finite(t.dtype.lane(), t.block)
}

/// `size` is what a mode takes on the sample: of a float mode, as its first usable
/// offer says; of another, that of the payload it makes, if it applies.
pub open spec fn estimates(t: Terms, level: Level, mode: Mode, size: Option<usize>) -> bool {
    if !is_ranked(t, level, mode) {
        size is None
    } else if float_frame(mode, t.dtype) {
        match size {
            Some(e) => exists|j: int| #[trigger]
                first_offer(t, mode, j) && e == t.offers[j].estimate,
            None => no_offer(t, mode),
        }
    } else {
        match size {
            Some(e) => encodes(t.dtype, mode, sample_of(t.block)) && e == mode_image(
                t.dtype,
                mode,
                sample_of(t.block),
                SAMPLE_LOG2,
                level,
            ).len(),
            None => !encodes(t.dtype, mode, sample_of(t.block)),
        }
    }
}

/// The first `n` ranked modes have the sizes `est` on the sample.
pub open spec fn all_estimated(t: Terms, level: Level, est: Seq<Option<usize>>, n: int) -> bool {
    &&& est.len() == n
    &&& forall|i: int| 0 <= i < n ==> estimates(t, level, sample_modes()[i], #[trigger] est[i])
}

/// `best` is the mode of the least size, the earliest among equals; a size of
/// `usize::MAX` is no size.
pub open spec fn leads(est: Seq<Option<usize>>, best: Option<Mode>) -> bool {
    match best {
        None => forall|i: int|
            0 <= i < est.len() ==> (#[trigger] est[i]) is None || est[i] == Some(usize::MAX),
        Some(m) => exists|w: int| #[trigger] leads_at(est, w) && m == sample_modes()[w],
    }
}

/// Size `w` is the first of the least.
pub open spec fn leads_at(est: Seq<Option<usize>>, w: int) -> bool {
    &&& 0 <= w < est.len()
    &&& est[w] is Some
    &&& est[w]->Some_0 < usize::MAX
    &&& forall|i: int|
        0 <= i < est.len() && (#[trigger] est[i]) is Some ==> if i < w {
            est[w]->Some_0 < est[i]->Some_0
        } else {
            est[w]->Some_0 <= est[i]->Some_0
        }
}

/// `best` is the mode that does best on the sample.
pub open spec fn best_on_sample(t: Terms, level: Level, best: Option<Mode>) -> bool {
    exists|est: Seq<Option<usize>>| #[trigger]
        all_estimated(t, level, est, SAMPLE_MODES as int) && leads(est, best)
}

/// The size of a mode on the sample.
fn estimate_mode(
    dtype: DType,
    mode: Mode,
    picked: &Vec<u64>,
    n: usize,
    finite: bool,
    level: Level,
    offers: &[FloatOffer],
    Ghost(t): Ghost<Terms>,
) -> (r: Option<usize>)
    requires
        t.dtype == dtype,
        t.block.len() == n,
        t.offers == offers@,
        picked@ == sample_of(t.block),
        picked.len() <= SAMPLE_VALUES,
        dtype.lane().fits_all(picked@),
        finite == features::is_finite(dtype.lane(), t.block),
        mode !is Pco,
    ensures
        estimates(t, level, mode, r),
{
    proof {
        match dtype.lane() {
            Lane::W32 => {
                assert(1048576int / 4 == 262144);
            },
            Lane::W64 => {
                assert(1048576int / 8 == 131072);
            },
        }
    }
    let predicts: bool = match mode {
        Mode::Delta2 | Mode::DeltaDp => true,
        _ => false,
    };
    if !mode_runs(mode, dtype.family(), level) || !in_pool(mode, dtype.family(), level) || (predicts
        && !finite) {
        return None;
    }
    if float_frame(mode, dtype) {
        match find_offer(offers, dtype, mode, n, Ghost(t)) {
            Some(j) => {
                assert(first_offer(t, mode, j as int));
                Some(offers[j].estimate)
            },
            None => None,
        }
    } else {
        match encode_mode(dtype, mode, picked, SAMPLE_LOG2, level, 0) {
            Some(p) => Some(p.len()),
            None => None,
        }
    }
}

/// The mode whose size on the sample is least, the earliest among equals.
fn rank_by_sample(
    dtype: DType,
    block: &[u64],
    level: Level,
    offers: &[FloatOffer],
    Ghost(t): Ghost<Terms>,
) -> (r: Option<Mode>)
    requires
        t.dtype == dtype,
        t.block == block@,
        t.offers == offers@,
        dtype.lane().fits_all(block@),
    ensures
        best_on_sample(t, level, r),
        r matches Some(m) ==> is_ranked(t, level, m) && sample_modes().contains(m),
{
    let finite: bool = all_finite(dtype.lane(), block);
    let picked = build_sample(block);
    proof {
        assert forall|i: int| 0 <= i < picked@.len() implies dtype.lane().fits(
            #[trigger] picked@[i],
        ) by {
            assert(block@.contains(picked@[i]));
        }
    }
    let mut best: Option<Mode> = None;
    let mut least: usize = usize::MAX;
    let ghost mut est = Seq::<Option<usize>>::empty();
    let ghost mut at = 0int;
    let mut i: usize = 0;
    while i < SAMPLE_MODES
        invariant
            i <= SAMPLE_MODES,
            t.dtype == dtype,
            t.block == block@,
            t.offers == offers@,
            dtype.lane().fits_all(picked@),
            picked@ == sample_of(t.block),
            picked.len() <= SAMPLE_VALUES,
            finite == features::is_finite(dtype.lane(), block@),
            all_estimated(t, level, est, i as int),
            match best {
                None => least == usize::MAX && leads(est, best),
                Some(m) => leads_at(est, at) && least == est[at]->Some_0 && m == sample_modes()[at],
            },
        decreases SAMPLE_MODES - i,
    {
        let m: Mode = sample_mode(i);
        let estimate: Option<usize> = estimate_mode(
            dtype,
            m,
            &picked,
            block.len(),
            finite,
            level,
            offers,
            Ghost(t),
        );
        let ghost before = est;
        proof {
            est = est.push(estimate);
            assert forall|k: int| 0 <= k < i + 1 implies estimates(
                t,
                level,
                sample_modes()[k],
                #[trigger] est[k],
            ) by {
                if k < i {
                    assert(est[k] == before[k]);
                }
            }
            assert(forall|k: int| 0 <= k < i ==> est[k] == before[k]);
        }
        if let Some(size) = estimate {
            if size < least {
                least = size;
                best = Some(m);
                proof {
                    at = i as int;
                    assert(leads_at(est, at));
                }
            }
        }
        i = i + 1;
    }
    proof {
        assert(all_estimated(t, level, est, SAMPLE_MODES as int));
        if let Some(m) = best {
            assert(leads_at(est, at));
            assert(estimates(t, level, sample_modes()[at], est[at]));
        }
    }
    best
}

/// Whether a mode competes on the whole block though modes are ranked by sample.
pub open spec fn skips_sample(t: Terms, level: Level, mode: Mode) -> bool {
    let f = features::features_of(t.dtype.lane(), t.block);
    match mode {
        Mode::Raw | Mode::Const | Mode::Stride | Mode::Pco => true,
        Mode::Lz => mode_runs(mode, t.dtype.family(), level) && (f.distinct_low
            || f.looks_like_repeats),
        _ => false,
    }
}

/// The candidates of a competition by sample in which `best` did best: the
/// verbatim block, the modes that skip the sample, `best`, and nothing else.
pub open spec fn sampled_candidates(
    t: Terms,
    level: Level,
    best: Option<Mode>,
    cands: Seq<Candidate>,
) -> bool {
    &&& forall|i: int|
        0 <= i < cands.len() ==> skips_sample(t, level, (#[trigger] cands[i]).mode) || best == Some(
            cands[i].mode,
        )
    &&& forall|m: Mode|
        (#[trigger] skips_sample(t, level, m) || best == Some(m)) && encodes(t.dtype, m, t.block)
            ==> has_mode(cands, m)
    &&& forall|j: int|
        0 <= j < t.offers.len() && usable_offer(t, #[trigger] t.offers[j]) && (best == Some(
            t.offers[j].mode,
        ) || (t.offers[j].mode is Pco && level.allows_pco())) ==> listed(t, cands, j)
}

/// The candidates of a competition by sample, in the order of consideration.
#[verifier::opaque]
pub open spec fn sampled_pool(t: Terms, level: Level, cands: Seq<Candidate>) -> bool {
    &&& led_by_raw(t, cands)
    &&& in_order(false, cands)
    &&& all_stand(t, cands)
    &&& all_made(t, level, cands)
    &&& exists|best: Option<Mode>| #[trigger]
        best_on_sample(t, level, best) && sampled_candidates(t, level, best, cands)
}

/// Candidates of other modes leave `pco` as it is.
proof fn lemma_pco_stays(
    t: Terms,
    pco: Option<Seq<u8>>,
    before: Seq<Candidate>,
    after: Seq<Candidate>,
)
    requires
        pco_enters(t, pco, before),
        extends(before, after),
        forall|i: int|
            before.len() <= i < after.len() ==> (#[trigger] after[i]).mode !is Pco,
    ensures
        pco_enters(t, pco, after),
{
    lemma_extends(before, after);
    assert forall|i: int| 0 <= i < after.len() && (#[trigger] after[i]).mode is Pco implies i
        < before.len() && after[i] == before[i] by {
        if i < before.len() {
            assert(after[i] == before[i]);
        }
    }
}

/// The payload of `pco` that counts in a competition by sample: at the levels that
/// allow it.
pub open spec fn sampled_pco(level: Level, pco: Option<Seq<u8>>) -> Option<Seq<u8>> {
    if level.allows_pco() {
        pco
    } else {
        None
    }
}

/// Encode a block by the modes that always see the whole of it, and by the one
/// that did best on the sample.
#[verifier::rlimit(30)]
fn candidates_sampled(
    dtype: DType,
    block: &[u64],
    log2: u8,
    level: Level,
    offers: &[FloatOffer],
    pco: Option<Vec<u8>>,
) -> (cands: Vec<Candidate>)
    requires
        dtype.lane().fits_all(block@),
        block.len() <= max_block_values(dtype.lane().bytes()),
        log2 < usize::BITS,
        pco matches Some(p) ==> lossless(dtype, log2, Mode::Pco, p@, block@),
    ensures
        sampled_pool((Terms { dtype, log2, block: block@, offers: offers@ }), level, cands@),
        pco_enters(
            (Terms { dtype, log2, block: block@, offers: offers@ }),
            sampled_pco(level, bytes_of(pco)),
            cands@,
        ),
{
    reveal(sampled_pool);
    let ghost t = Terms { dtype, log2, block: block@, offers: offers@ };
    let feats = probe_block_features(dtype.lane(), block);
    let mut cands = verbatim_only(dtype, block, Ghost(t), Ghost(level));
    let ghost c0 = cands@;
    compete(&mut cands, dtype, Mode::Const, block, log2, level, Ghost(t));
    let ghost c1 = cands@;
    compete(&mut cands, dtype, Mode::Stride, block, log2, level, Ghost(t));
    let ghost c2 = cands@;
    if mode_runs(Mode::Lz, dtype.family(), level) && (feats.distinct_low
        || feats.looks_like_repeats) {
        compete(&mut cands, dtype, Mode::Lz, block, log2, level, Ghost(t));
    }
    let ghost c3 = cands@;
    proof {
        assert forall|i: int| 0 <= i < c3.len() implies (#[trigger] c3[i]).mode !is Pco by {
            if i < c2.len() {
                assert(c3[i] == c2[i]);
                if i < c1.len() {
                    assert(c2[i] == c1[i]);
                }
            }
        }
        assert(!has_mode(c3, Mode::Pco));
    }
    if level.allows_pco() {
        compete_pco(&mut cands, dtype, block, offers, pco, Ghost(t), Ghost(level));
    }
    let ghost c4 = cands@;
    let best = rank_by_sample(dtype, block, level, offers, Ghost(t));
    if let Some(m) = best {
        if float_frame(m, dtype) {
            compete_offers(&mut cands, dtype, m, block, offers, Ghost(t), Ghost(level));
        } else {
            compete(&mut cands, dtype, m, block, log2, level, Ghost(t));
        }
    }
    proof {
        lemma_pco_stays(t, sampled_pco(level, bytes_of(pco)), c4, cands@);
        lemma_lined_up(false, c0, c1, Mode::Const, 1);
        lemma_lined_up(false, c1, c2, Mode::Stride, 2);
        lemma_lined_up(false, c2, c3, Mode::Lz, 3);
        lemma_lined_up(false, c3, c4, Mode::Pco, 4);
        if let Some(m) = best {
            lemma_lined_up(false, c4, cands@, m, 5);
        }
        assert(in_order(false, cands@)) by {
            assert(lined_up(false, c0, 1));
            reveal(lined_up);
        }
    }
    proof {
        assert(cands@[0] == c0[0]);
        lemma_extends(c1, cands@);
        lemma_extends(c2, cands@);
        lemma_extends(c3, cands@);
        lemma_extends(c4, cands@);
        assert forall|i: int| 0 <= i < cands@.len() implies skips_sample(
            t,
            level,
            (#[trigger] cands@[i]).mode,
        ) || best == Some(cands@[i].mode) by {
            if i < c4.len() {
                assert(cands@[i] == c4[i]);
                if i < c3.len() {
                    assert(c4[i] == c3[i]);
                    if i < c2.len() {
                        assert(c3[i] == c2[i]);
                        if i < c1.len() {
                            assert(c2[i] == c1[i]);
                        }
                    }
                }
            }
        }
        assert forall|m: Mode|
            (#[trigger] skips_sample(t, level, m) || best == Some(m)) && encodes(
                t.dtype,
                m,
                t.block,
            ) implies has_mode(cands@, m) by {
            if m is Raw {
                assert(cands@[0].mode == m);
            }
        }
        assert(sampled_candidates(t, level, best, cands@));
        assert(best_on_sample(t, level, best));
    }
    cands
}

/// The winner of a competition on a sample for a block, `pco` being what the `pco` codec
/// made of an integer block, if it made anything.
pub fn best_block_sampled(
    dtype: DType,
    block: &[u64],
    log2: u8,
    cfg: &Config,
    offers: &[FloatOffer],
    pco: Option<Vec<u8>>,
) -> (c: Candidate)
    requires
        dtype.lane().fits_all(block@),
        block.len() <= max_block_values(dtype.lane().bytes()),
        log2 < usize::BITS,
        pco matches Some(p) ==> lossless(dtype, log2, Mode::Pco, p@, block@),
    ensures
        exists|cands: Seq<Candidate>|
            #[trigger] sampled_pool(
                (Terms { dtype, log2, block: block@, offers: offers@ }),
                cfg.level,
                cands,
            ) && pco_enters(
                (Terms { dtype, log2, block: block@, offers: offers@ }),
                sampled_pco(cfg.level, bytes_of(pco)),
                cands,
            ) && wins(dtype, cfg.level.lambda(), cfg.spec_decode_bias(), cands, c),
        stands((Terms { dtype, log2, block: block@, offers: offers@ }), c),
        made((Terms { dtype, log2, block: block@, offers: offers@ }), cfg.level, c),
        c.payload.len() <= block.len() * dtype.lane().bytes(),
{
    reveal(sampled_pool);
    let ghost t = Terms { dtype, log2, block: block@, offers: offers@ };
    let cands = candidates_sampled(dtype, block, log2, cfg.level, offers, pco);
    let ghost all = cands@;
    let c = pick_winner(dtype, cfg.level, cfg.effective_decode_bias(), cands, Ghost(t));
    proof {
        assert(sampled_pool(t, cfg.level, all));
        let i = choose|i: int| 0 <= i < all.len() && all[i] == c;
        assert(made(t, cfg.level, all[i]));
    }
    c
}

/// Encode a block by a competition on a sample.
pub fn encode_block_sampled(
    dtype: DType,
    block: &[u64],
    log2: u8,
    cfg: &Config,
    offers: &[FloatOffer],
) -> (c: Candidate)
    requires
        dtype.lane().fits_all(block@),
        block.len() <= max_block_values(dtype.lane().bytes()),
        log2 < usize::BITS,
    ensures
        exists|cands: Seq<Candidate>|
            #[trigger] sampled_pool(
                (Terms { dtype, log2, block: block@, offers: offers@ }),
                cfg.level,
                cands,
            ) && pco_takes_part(
                (Terms { dtype, log2, block: block@, offers: offers@ }),
                *cfg,
                false,
                cands,
            ) && wins(dtype, cfg.level.lambda(), cfg.spec_decode_bias(), cands, c),
        stands((Terms { dtype, log2, block: block@, offers: offers@ }), c),
        made((Terms { dtype, log2, block: block@, offers: offers@ }), cfg.level, c),
        c.payload.len() <= block.len() * dtype.lane().bytes(),
{
    let is_int: bool = match dtype.family() {
        Family::Int => true,
        Family::Float => false,
    };
    let pco: Option<Vec<u8>> = if is_int && cfg.level.allows_pco() {
        encode_mode(dtype, Mode::Pco, block, log2, cfg.level, cfg.effective_pco_level())
    } else {
        None
    };
    best_block_sampled(dtype, block, log2, cfg, offers, pco)
}

/// The candidates that a configuration lets compete for a block.
pub open spec fn pool(t: Terms, cfg: Config, cands: Seq<Candidate>) -> bool {
    match cfg.selection {
        Selection::Full => full_pool(t, cfg.level, cands) && pco_takes_part(
            t,
            cfg,
            skips_competition(t.dtype, t.block),
            cands,
        ),
        Selection::Sample => sampled_pool(t, cfg.level, cands) && pco_takes_part(
            t,
            cfg,
            false,
            cands,
        ),
    }
}

/// Encode a block.
pub fn encode_block(
    dtype: DType,
    block: &[u64],
    log2: u8,
    cfg: &Config,
    offers: &[FloatOffer],
) -> (c: Candidate)
    requires
        dtype.lane().fits_all(block@),
        block.len() <= max_block_values(dtype.lane().bytes()),
        log2 < usize::BITS,
    ensures
        exists|cands: Seq<Candidate>|
            #[trigger] pool(
                (Terms { dtype, log2, block: block@, offers: offers@ }),
                *cfg,
                cands,
            ) && wins(dtype, cfg.level.lambda(), cfg.spec_decode_bias(), cands, c),
        stands((Terms { dtype, log2, block: block@, offers: offers@ }), c),
        made((Terms { dtype, log2, block: block@, offers: offers@ }), cfg.level, c),
        c.payload.len() <= block.len() * dtype.lane().bytes(),
{
    let ghost t = Terms { dtype, log2, block: block@, offers: offers@ };
    match cfg.selection {
        Selection::Full => {
            let c = encode_block_full(dtype, block, log2, cfg, offers);
            proof {
                let cands = choose|cands: Seq<Candidate>|
                    #[trigger] full_pool(t, cfg.level, cands) && pco_takes_part(
                        t,
                        *cfg,
                        skips_competition(dtype, block@),
                        cands,
                    ) && wins(
                        dtype,
                        cfg.level.lambda(),
                        cfg.spec_decode_bias(),
                        cands,
                        c,
                    );
                assert(pool(t, *cfg, cands));
            }
            c
        },
        Selection::Sample => {
            let c = encode_block_sampled(dtype, block, log2, cfg, offers);
            proof {
                let cands = choose|cands: Seq<Candidate>|
                    #[trigger] sampled_pool(t, cfg.level, cands) && pco_takes_part(
                        t,
                        *cfg,
                        false,
                        cands,
                    ) && wins(
                        dtype,
                        cfg.level.lambda(),
                        cfg.spec_decode_bias(),
                        cands,
                        c,
                    );
                assert(pool(t, *cfg, cands));
            }
            c
        },
    }
}

// ---------------------------------------------------------------------------
// The stream
// ---------------------------------------------------------------------------

/// The bytes of a frame.
pub open spec fn frame_image(f: FrameView) -> Seq<u8> {
    seq![f.mode.id()] + bytes::le_bytes(f.n, 4) + bytes::le_bytes(f.payload.len(), 4) + f.payload
}

/// The bytes of frames.
pub open spec fn frames_image(frames: Seq<FrameView>) -> Seq<u8>
    decreases frames.len(),
{
    if frames.len() == 0 {
        Seq::empty()
    } else {
        frame_image(frames[0]) + frames_image(frames.drop_first())
    }
}

/// Append a frame.
pub fn frame_bytes(mode: Mode, n: usize, payload: &[u8], out: &mut Vec<u8>)
    ensures
        final(out)@ == old(out)@ + frame_image(
            (FrameView { mode, n: n as nat, payload: payload@ }),
        ),
{
    out.push(mode.id());
    write_le(out, n as u64, 4);
    write_le(out, payload.len() as u64, 4);
    append_bytes(out, payload);
    assert(out@ =~= old(out)@ + frame_image(FrameView { mode, n: n as nat, payload: payload@ }));
}

/// A frame that a frame table can hold.
pub open spec fn frame_storable(f: FrameView, limit: nat) -> bool {
    &&& 1 <= f.n <= limit
    &&& f.n < 0x1_0000_0000
    &&& f.payload.len() < 0x1_0000_0000
}

/// Where the fields of a written frame stand.
pub proof fn lemma_frame_fields(f: FrameView, rest: Seq<u8>)
    requires
        f.n < 0x1_0000_0000,
        f.payload.len() < 0x1_0000_0000,
    ensures
        ({
            let s = frame_image(f) + rest;
            let len = f.payload.len() as int;
            &&& s.len() == 9 + len + rest.len()
            &&& mode::mode_of_id(s[0]) == Ok::<Mode, Error>(f.mode)
            &&& bytes::le_value(s.subrange(1, 5)) == f.n
            &&& bytes::le_value(s.subrange(5, 9)) == len
            &&& s.subrange(9, 9 + len) == f.payload
            &&& s.skip(9 + len) == rest
        }),
{
    let s = frame_image(f) + rest;
    let len = f.payload.len() as int;
    bytes::lemma_pow256_values();
    bytes::lemma_le_roundtrip(f.n, 4);
    bytes::lemma_le_roundtrip(f.payload.len(), 4);
    mode::lemma_mode_roundtrip(f.mode);
    assert(s.subrange(1, 5) =~= bytes::le_bytes(f.n, 4));
    assert(s.subrange(5, 9) =~= bytes::le_bytes(f.payload.len(), 4));
    assert(s.subrange(9, 9 + len) =~= f.payload);
    assert(s.skip(9 + len) =~= rest);
    assert(s[0] == f.mode.id());
}

/// A written frame table is read back.
pub proof fn lemma_frames_roundtrip(frames: Seq<FrameView>, limit: nat)
    requires
        forall|i: int| 0 <= i < frames.len() ==> frame_storable(#[trigger] frames[i], limit),
    ensures
        decoder::frames_parse(frames_image(frames), decoder::frames_total(frames), limit) == Ok::<
            _,
            Error,
        >(frames),
    decreases frames.len(),
{
    if frames.len() == 0 {
        assert(frames =~= Seq::empty());
    } else {
        let f = frames[0];
        let more = frames.drop_first();
        assert(frame_storable(f, limit));
        assert forall|i: int| 0 <= i < more.len() implies frame_storable(
            #[trigger] more[i],
            limit,
        ) by {
            assert(frame_storable(frames[i + 1], limit));
        }
        lemma_frames_roundtrip(more, limit);
        lemma_frame_fields(f, frames_image(more));
        assert(seq![f] + more =~= frames);
    }
}

/// The frames of encoded blocks.
pub open spec fn block_frames(ranges: Seq<(usize, usize)>, blocks: Seq<Candidate>) -> Seq<
    FrameView,
> {
    Seq::new(
        blocks.len(),
        |i: int|
            FrameView {
                mode: blocks[i].mode,
                n: (ranges[i].1 - ranges[i].0) as nat,
                payload: blocks[i].payload@,
            },
    )
}

/// The validity bits of an optional bitmap of `n` values.
pub open spec fn bits_of(bitmap: Option<&[u8]>, n: nat) -> Option<Seq<bool>> {
    match bitmap {
        None => None,
        Some(bm) => Some(validity::bitmap_bits(bm@, n)),
    }
}

/// An optional bitmap covers `n` values.
pub open spec fn bitmap_covers(bitmap: Option<&[u8]>, n: nat) -> bool {
    bitmap matches Some(bm) ==> bm@.len() >= validity::bitmap_len(n)
}

/// A validity section: the length of the coded bitmap, and the coded bitmap.
pub open spec fn validity_image(bitmap: Option<&[u8]>, n: nat) -> Seq<u8> {
    match bitmap {
        None => Seq::empty(),
        Some(bm) => {
            let blob = validity::validity_bytes(bm@, n);
            varint::varint_bytes(blob.len()) + blob
        },
    }
}

/// The bytes of a stream: header, validity section and frames.
pub open spec fn stream_image(
    dtype: DType,
    log2: u8,
    n_values: usize,
    bitmap: Option<&[u8]>,
    frames: Seq<FrameView>,
) -> Seq<u8> {
    let header = Header {
        predictor_log2: log2,
        dtype,
        has_validity: bitmap is Some,
        has_shared_dict: false,
        n_values: n_values as u64,
    };
    header.spec_bytes() + validity_image(bitmap, n_values as nat) + frames_image(frames)
}

/// `out` is the stream of the blocks that won: `vals` cut into blocks by the
/// configuration's plan, each stored as the winner of its competition.
pub open spec fn won_stream(
    out: Seq<u8>,
    dtype: DType,
    vals: Seq<u64>,
    n_values: usize,
    bitmap: Option<&[u8]>,
    cfg: Config,
    offers: Seq<Vec<FloatOffer>>,
) -> bool {
    exists|ranges: Seq<(usize, usize)>, blocks: Seq<Candidate>|
        #[trigger] planned_and_won(ranges, blocks, dtype, vals, cfg, offers) && out
            == stream_image(
            dtype,
            cfg.spec_predictor_log2(),
            n_values,
            bitmap,
            block_frames(ranges, blocks),
        )
}

/// Append the validity section of `n` values.
pub fn write_validity(bm: &[u8], n: usize, out: &mut Vec<u8>) -> (section: Ghost<Seq<u8>>)
    requires
        bm.len() >= validity::bitmap_len(n as nat),
    ensures
        final(out)@ == old(out)@ + section@,
        section@ == validity_image(Some(bm), n as nat),
        section@.len() <= validity::bitmap_len(n as nat) + 11,
        forall|rest: Seq<u8>|
            #[trigger] decoder::validity_section(section@ + rest, n as nat) == Ok::<_, Error>(
                (validity::bitmap_bits(bm@, n as nat), rest),
            ),
{
    let ghost start = out@;
    let blob = validity::encode(bm, n);
    varint::write_u64(out, blob.len() as u64);
    append_bytes(out, &blob);
    let ghost section = varint::varint_bytes(blob@.len()) + blob@;
    proof {
        assert(out@ =~= start + section);
        assert(blob@.len() == blob.len());
        varint::lemma_varint_len(blob.len() as u64);
        assert forall|rest: Seq<u8>|
            #[trigger] decoder::validity_section(section + rest, n as nat) == Ok::<_, Error>(
                (validity::bitmap_bits(bm@, n as nat), rest),
            ) by {
            varint::lemma_varint_roundtrip(blob.len() as u64, blob@ + rest);
            assert(section + rest =~= varint::varint_bytes(blob@.len()) + (blob@ + rest));
            assert((blob@ + rest).take(blob@.len() as int) =~= blob@);
            assert((blob@ + rest).skip(blob@.len() as int) =~= rest);
        }
    }
    Ghost(section)
}

/// Write a stream: header, validity section and the frames of encoded blocks.
pub fn write_stream(
    dtype: DType,
    log2: u8,
    n_values: usize,
    bitmap: Option<&[u8]>,
    ranges: &[(usize, usize)],
    blocks: &[Candidate],
) -> (out: Vec<u8>)
    requires
        10 <= log2 <= 16,
        bitmap_covers(bitmap, n_values as nat),
        ranges.len() == blocks.len(),
        forall|i: int| 0 <= i < ranges.len() ==> (#[trigger] ranges@[i]).0 <= ranges@[i].1,
    ensures
        out@ == stream_image(dtype, log2, n_values, bitmap, block_frames(ranges@, blocks@)),
        decoder::shell_parse(out@) == Ok::<_, Error>(
            written_shell(dtype, log2, n_values, bitmap, block_frames(ranges@, blocks@)),
        ),
        out@.len() <= 27 + validity::bitmap_len(n_values as nat) + frames_image(
            block_frames(ranges@, blocks@),
        ).len(),
{
    let header = Header {
        predictor_log2: log2,
        dtype,
        has_validity: bitmap.is_some(),
        has_shared_dict: false,
        n_values: n_values as u64,
    };
    let mut out: Vec<u8> = Vec::new();
    header.write(&mut out);
    let ghost head = out@;
    let ghost mut section: Seq<u8> = Seq::empty();
    if let Some(bm) = bitmap {
        let Ghost(written) = write_validity(bm, n_values, &mut out);
        proof {
            section = written;
        }
    }
    let ghost frames = block_frames(ranges@, blocks@);
    let ghost start = out@;
    assert(start =~= head + section);
    let mut i: usize = 0;
    assert(frames.skip(0) =~= frames);
    while i < blocks.len()
        invariant
            i <= blocks.len(),
            ranges.len() == blocks.len(),
            frames == block_frames(ranges@, blocks@),
            forall|k: int| 0 <= k < ranges.len() ==> (#[trigger] ranges@[k]).0 <= ranges@[k].1,
            out@ + frames_image(frames.skip(i as int)) == start + frames_image(frames),
        decreases blocks.len() - i,
    {
        let ghost before = out@;
        assert(ranges@[i as int].0 <= ranges@[i as int].1);
        let n: usize = ranges[i].1 - ranges[i].0;
        frame_bytes(blocks[i].mode, n, &blocks[i].payload, &mut out);
        proof {
            let rest = frames.skip(i as int);
            assert(rest.drop_first() =~= frames.skip(i + 1));
            assert(rest[0] == frames[i as int]);
            assert(out@ + frames_image(frames.skip(i + 1)) =~= before + frames_image(rest));
        }
        i = i + 1;
    }
    proof {
        assert(out@ + Seq::<u8>::empty() =~= out@);
        let body = frames_image(frames);
        assert(section == validity_image(bitmap, n_values as nat));
        assert(out@ =~= header.spec_bytes() + section + body);
        assert(out@ =~= header.spec_bytes() + (section + body));
        crate::format::lemma_header_roundtrip(header, section + body);
        if bitmap is None {
            assert(section + body =~= body);
        }
    }
    out
}

/// What a written stream says before its frames.
pub open spec fn written_shell(
    dtype: DType,
    log2: u8,
    n_values: usize,
    bitmap: Option<&[u8]>,
    frames: Seq<FrameView>,
) -> decoder::ShellView {
    let header = Header {
        predictor_log2: log2,
        dtype,
        has_validity: bitmap is Some,
        has_shared_dict: false,
        n_values: n_values as u64,
    };
    let bits = bits_of(bitmap, n_values as nat);
    decoder::ShellView {
        header,
        bits,
        total: decoder::held(header, bits),
        rest: frames_image(frames),
    }
}

/// The frames of a stream.
pub open spec fn stream_frames(src: Seq<u8>) -> Seq<FrameView> {
    match decoder::shell_parse(src) {
        Err(_) => Seq::empty(),
        Ok(shell) => match decoder::frames_parse(
            shell.rest,
            shell.total,
            max_block_values(shell.header.dtype.lane().bytes()) as nat,
        ) {
            Err(_) => Seq::empty(),
            Ok(frames) => frames,
        },
    }
}

/// Where range `k` starts; the end of the values after the last.
spec fn start_of(ranges: Seq<(usize, usize)>, n: nat, k: int) -> int {
    if k < ranges.len() {
        ranges[k].0 as int
    } else {
        n as int
    }
}

/// A frame that gives its slice back, before frames that give the rest back.
proof fn lemma_frame_step(dtype: DType, log2: u8, frames: Seq<FrameView>, vals: Seq<u64>)
    requires
        frames.len() > 0,
        frames[0].n <= vals.len(),
        decoder::frame_decoded(dtype, log2, frames[0], Some(vals.take(frames[0].n as int))) == Ok::<
            _,
            Error,
        >(vals.take(frames[0].n as int)),
        decoder::frames_decoded(
            dtype,
            log2,
            frames.drop_first(),
            decoder::float_slices(dtype, frames.drop_first(), vals.skip(frames[0].n as int)),
        ) == Ok::<_, Error>(vals.skip(frames[0].n as int)),
    ensures
        decoder::frames_decoded(dtype, log2, frames, decoder::float_slices(dtype, frames, vals))
            == Ok::<_, Error>(vals),
{
    reveal(decoder::frame_decoded);
    let f = frames[0];
    let n = f.n as int;
    let more = decoder::float_slices(dtype, frames.drop_first(), vals.skip(n));
    let all = decoder::float_slices(dtype, frames, vals);
    assert(vals.take(n) + vals.skip(n) =~= vals);
    if float_frame(f.mode, dtype) {
        assert(all == seq![vals.take(n)] + more);
        assert(all[0] == vals.take(n));
        assert(all.drop_first() =~= more);
    }
}

/// Frames that each give their slice back give all values back, the words of
/// float frames being their slices.
proof fn lemma_frames_lossless(
    dtype: DType,
    log2: u8,
    ranges: Seq<(usize, usize)>,
    frames: Seq<FrameView>,
    vals: Seq<u64>,
    most: nat,
    k: nat,
)
    requires
        features::is_partition(ranges, vals.len(), most),
        frames.len() == ranges.len(),
        k <= frames.len(),
        forall|i: int|
            0 <= i < frames.len() ==> (#[trigger] frames[i]).n == ranges[i].1 - ranges[i].0
                && decoder::frame_decoded(
                dtype,
                log2,
                frames[i],
                Some(vals.subrange(ranges[i].0 as int, ranges[i].1 as int)),
            ) == Ok::<_, Error>(vals.subrange(ranges[i].0 as int, ranges[i].1 as int)),
    ensures
        decoder::frames_decoded(
            dtype,
            log2,
            frames.skip(k as int),
            decoder::float_slices(
                dtype,
                frames.skip(k as int),
                vals.skip(start_of(ranges, vals.len(), k as int)),
            ),
        ) == Ok::<_, Error>(vals.skip(start_of(ranges, vals.len(), k as int))),
        decoder::frames_total(frames.skip(k as int)) == vals.len() - start_of(
            ranges,
            vals.len(),
            k as int,
        ),
    decreases frames.len() - k,
{
    let rest = frames.skip(k as int);
    let at = start_of(ranges, vals.len(), k as int);
    let tail = vals.skip(at);
    if k < frames.len() {
        lemma_frames_lossless(dtype, log2, ranges, frames, vals, most, k + 1);
        let f = frames[k as int];
        let (a, b) = ranges[k as int];
        let sub = vals.subrange(a as int, b as int);
        let next = start_of(ranges, vals.len(), k as int + 1);
        assert(next == b) by {
            if k + 1 < ranges.len() {
                assert(ranges[k as int + 1].0 == ranges[k as int].1);
            } else {
                assert(ranges.last() == ranges[k as int]);
            }
        }
        assert(rest[0] == f);
        assert(rest.drop_first() =~= frames.skip(k as int + 1));
        assert(tail.take(f.n as int) =~= sub);
        assert(tail.skip(f.n as int) =~= vals.skip(next));
        lemma_frame_step(dtype, log2, rest, tail);
    } else {
        assert(rest =~= Seq::empty());
        assert(tail =~= Seq::empty());
    }
}

/// Without float frames there are no slices to supply.
proof fn lemma_no_float_slices(dtype: DType, frames: Seq<FrameView>, vals: Seq<u64>)
    requires
        forall|i: int|
            0 <= i < frames.len() ==> !float_frame((#[trigger] frames[i]).mode, dtype),
    ensures
        decoder::float_slices(dtype, frames, vals) == Seq::<Seq<u64>>::empty(),
    decreases frames.len(),
{
    if frames.len() > 0 {
        assert(!float_frame(frames[0].mode, dtype));
        let more = frames.drop_first();
        assert forall|i: int| 0 <= i < more.len() implies !float_frame(
            (#[trigger] more[i]).mode,
            dtype,
        ) by {
            assert(!float_frame(frames[i + 1].mode, dtype));
        }
        lemma_no_float_slices(dtype, more, vals.skip(frames[0].n as int));
    }
}

/// The offers for block `i`.
pub open spec fn offers_for(offers: Seq<Vec<FloatOffer>>, i: int) -> Seq<FloatOffer> {
    if i < offers.len() {
        offers[i]@
    } else {
        Seq::empty()
    }
}

/// The competition for the block `vals[a..b]`, number `i`.
pub open spec fn terms_of(
    dtype: DType,
    log2: u8,
    vals: Seq<u64>,
    range: (usize, usize),
    offers: Seq<Vec<FloatOffer>>,
    i: int,
) -> Terms {
    Terms {
        dtype,
        log2,
        block: vals.subrange(range.0 as int, range.1 as int),
        offers: offers_for(offers, i),
    }
}

/// `c` won the competition that a configuration holds.
pub open spec fn wins_block(t: Terms, cfg: Config, c: Candidate) -> bool {
    exists|cands: Seq<Candidate>|
        #[trigger] pool(t, cfg, cands) && wins(
            t.dtype,
            cfg.level.lambda(),
            cfg.spec_decode_bias(),
            cands,
            c,
        )
}

/// A block as it was won: lossless, made as the level says, the winner, and no
/// larger than the verbatim block.
pub open spec fn block_won(t: Terms, cfg: Config, c: Candidate) -> bool {
    &&& stands(t, c)
    &&& made(t, cfg.level, c)
    &&& wins_block(t, cfg, c)
    &&& c.payload@.len() <= t.block.len() * t.dtype.lane().bytes()
}

/// Encode the planned blocks in order, recording the wins.
fn build_frames(
    dtype: DType,
    vals: &[u64],
    ranges: &Vec<(usize, usize)>,
    log2: u8,
    cfg: &Config,
    offers: &[Vec<FloatOffer>],
    wins: &mut ModeWins,
) -> (blocks: Vec<Candidate>)
    requires
        dtype.lane().fits_all(vals@),
        log2 < usize::BITS,
        features::is_partition(
            ranges@,
            vals@.len(),
            max_block_values(dtype.lane().bytes()) as nat,
        ),
    ensures
        blocks.len() == ranges.len(),
        forall|i: int|
            0 <= i < blocks.len() ==> block_won(
                terms_of(dtype, log2, vals@, ranges@[i], offers@, i),
                *cfg,
                #[trigger] blocks@[i],
            ),
        final(wins).counts@ == diag::with_wins(old(wins).counts@, winner_ids(blocks@)),
{
    let mut blocks: Vec<Candidate> = Vec::new();
    let none: Vec<FloatOffer> = Vec::new();
    let mut i: usize = 0;
    assert(winner_ids(blocks@) =~= Seq::empty());
    while i < ranges.len()
        invariant
            i <= ranges.len(),
            blocks.len() == i,
            dtype.lane().fits_all(vals@),
            log2 < usize::BITS,
            none@.len() == 0,
            features::is_partition(
                ranges@,
                vals@.len(),
                max_block_values(dtype.lane().bytes()) as nat,
            ),
            forall|k: int|
                0 <= k < blocks.len() ==> block_won(
                    terms_of(dtype, log2, vals@, ranges@[k], offers@, k),
                    *cfg,
                    #[trigger] blocks@[k],
                ),
            wins.counts@ == diag::with_wins(old(wins).counts@, winner_ids(blocks@)),
        decreases ranges.len() - i,
    {
        let (start, end) = ranges[i];
        assert(ranges@[i as int].0 < ranges@[i as int].1);
        let block = vstd::slice::slice_subrange(vals, start, end);
        proof {
            assert forall|k: int| 0 <= k < block@.len() implies dtype.lane().fits(
                #[trigger] block@[k],
            ) by {
                assert(dtype.lane().fits(vals@[start + k]));
            }
        }
        let given: &Vec<FloatOffer> = if i < offers.len() {
            &offers[i]
        } else {
            &none
        };
        let ghost t = terms_of(dtype, log2, vals@, ranges@[i as int], offers@, i as int);
        assert(given@ =~= offers_for(offers@, i as int));
        let c = encode_block(dtype, block, log2, cfg, given);
        assert(block_won(t, *cfg, c));
        wins.record_win(c.mode.id());
        let ghost before = blocks@;
        blocks.push(c);
        proof {
            assert(winner_ids(blocks@).drop_last() =~= winner_ids(before));
            assert(winner_ids(blocks@).last() == c.mode.id());
        }
        i = i + 1;
    }
    blocks
}

/// The mode identifiers of won blocks.
pub open spec fn winner_ids(blocks: Seq<Candidate>) -> Seq<u8> {
    Seq::new(blocks.len(), |i: int| blocks[i].mode.id())
}

/// The mode identifiers of frames.
pub open spec fn frame_ids(frames: Seq<FrameView>) -> Seq<u8> {
    Seq::new(frames.len(), |i: int| frames[i].mode.id())
}

/// Values to store agree with the validity bitmap: one for each valid position.
pub open spec fn values_match(vals: Seq<u64>, n_values: usize, bitmap: Option<&[u8]>) -> bool {
    match bitmap {
        None => vals.len() == n_values,
        Some(bm) => bm@.len() >= validity::bitmap_len(n_values as nat) && vals.len()
            == validity::set_count(validity::bitmap_bits(bm@, n_values as nat)),
    }
}

/// The column that valid values and a bitmap stand for.
pub open spec fn column_words(vals: Seq<u64>, bits: Option<Seq<bool>>) -> Seq<u64> {
    match bits {
        None => vals,
        Some(b) => validity::scattered(vals, b, 0),
    }
}

/// The slices of `vals` that lie in the float frames of stream `src`.
pub open spec fn stream_slices(src: Seq<u8>, dtype: DType, vals: Seq<u64>) -> Seq<Seq<u64>> {
    decoder::float_slices(dtype, stream_frames(src), vals)
}

/// What compressing `vals` promises of the stream `out`.
pub open spec fn compressed(
    out: Seq<u8>,
    dtype: DType,
    vals: Seq<u64>,
    n_values: usize,
    bits: Option<Seq<bool>>,
    cfg: Config,
) -> bool {
    &&& crate::format::header_parse(out) == Ok::<_, Error>(
        Header {
            predictor_log2: cfg.spec_predictor_log2(),
            dtype,
            has_validity: bits is Some,
            has_shared_dict: false,
            n_values: n_values as u64,
        },
    )
    &&& decoder::lane_decoded(out, stream_slices(out, dtype, vals)) == Ok::<_, Error>(
        (dtype, column_words(vals, bits), bits),
    )
}

proof fn lemma_compressed(
    out: Seq<u8>,
    dtype: DType,
    vals: Seq<u64>,
    n_values: usize,
    bitmap: Option<&[u8]>,
    cfg: Config,
    ranges: Seq<(usize, usize)>,
    blocks: Seq<Candidate>,
    offers: Seq<Vec<FloatOffer>>,
)
    requires
        values_match(vals, n_values, bitmap),
        features::is_partition(
            ranges,
            vals.len(),
            max_block_values(dtype.lane().bytes()) as nat,
        ),
        blocks.len() == ranges.len(),
        forall|i: int|
            0 <= i < blocks.len() ==> block_won(
                terms_of(dtype, cfg.spec_predictor_log2(), vals, ranges[i], offers, i),
                cfg,
                #[trigger] blocks[i],
            ),
        decoder::shell_parse(out) == Ok::<_, Error>(
            written_shell(
                dtype,
                cfg.spec_predictor_log2(),
                n_values,
                bitmap,
                block_frames(ranges, blocks),
            ),
        ),
    ensures
        stream_frames(out) == block_frames(ranges, blocks),
        compressed(out, dtype, vals, n_values, bits_of(bitmap, n_values as nat), cfg),
        decoder::frames_total(block_frames(ranges, blocks)) == vals.len(),
{
    reveal(decoder::lane_decoded);
    let log2 = cfg.spec_predictor_log2();
    let frames = block_frames(ranges, blocks);
    let most = max_block_values(dtype.lane().bytes()) as nat;
    assert forall|i: int| 0 <= i < frames.len() implies (#[trigger] frames[i]).n == ranges[i].1
        - ranges[i].0 && decoder::frame_decoded(
        dtype,
        log2,
        frames[i],
        Some(vals.subrange(ranges[i].0 as int, ranges[i].1 as int)),
    ) == Ok::<_, Error>(vals.subrange(ranges[i].0 as int, ranges[i].1 as int))
        && frame_storable(frames[i], most) by {
        let t = terms_of(dtype, log2, vals, ranges[i], offers, i);
        assert(block_won(t, cfg, blocks[i]));
        assert(ranges[i].0 < ranges[i].1);
        assert(t.block.len() == ranges[i].1 - ranges[i].0);
        lemma_block_bytes(dtype, t.block.len());
    }
    lemma_frames_lossless(dtype, log2, ranges, frames, vals, most, 0);
    assert(frames.skip(0) =~= frames);
    assert(start_of(ranges, vals.len(), 0) == 0);
    assert(vals.skip(0) =~= vals);
    lemma_frames_roundtrip(frames, most);
}

/// What a stream image says before its frames.
proof fn lemma_image_shell(
    dtype: DType,
    log2: u8,
    n_values: usize,
    bitmap: Option<&[u8]>,
    frames: Seq<FrameView>,
)
    requires
        10 <= log2 <= 16,
        bitmap_covers(bitmap, n_values as nat),
    ensures
        decoder::shell_parse(stream_image(dtype, log2, n_values, bitmap, frames)) == Ok::<_, Error>(
            written_shell(dtype, log2, n_values, bitmap, frames),
        ),
{
    let header = Header {
        predictor_log2: log2,
        dtype,
        has_validity: bitmap is Some,
        has_shared_dict: false,
        n_values: n_values as u64,
    };
    let section = validity_image(bitmap, n_values as nat);
    let body = frames_image(frames);
    crate::format::lemma_header_roundtrip(header, section + body);
    assert(stream_image(dtype, log2, n_values, bitmap, frames) =~= header.spec_bytes() + (section
        + body));
    match bitmap {
        None => {
            assert(section + body =~= body);
        },
        Some(bm) => {
            let blob = validity::validity_bytes(bm@, n_values as nat);
            validity::lemma_validity_roundtrip(bm@, n_values as nat);
            varint::lemma_varint_roundtrip(blob.len() as u64, blob + body);
            assert(section + body =~= varint::varint_bytes(blob.len()) + (blob + body));
            assert((blob + body).take(blob.len() as int) =~= blob);
            assert((blob + body).skip(blob.len() as int) =~= body);
        },
    }
}

/// The frames that a reader finds in a written stream are the planned blocks.
pub proof fn lemma_won_frames(
    out: Seq<u8>,
    dtype: DType,
    vals: Seq<u64>,
    n_values: usize,
    bitmap: Option<&[u8]>,
    cfg: Config,
    offers: Seq<Vec<FloatOffer>>,
) -> (won: (Seq<(usize, usize)>, Seq<Candidate>))
    requires
        won_stream(out, dtype, vals, n_values, bitmap, cfg, offers),
        values_match(vals, n_values, bitmap),
    ensures
        planned_and_won(won.0, won.1, dtype, vals, cfg, offers),
        out == stream_image(
            dtype,
            cfg.spec_predictor_log2(),
            n_values,
            bitmap,
            block_frames(won.0, won.1),
        ),
        stream_frames(out) == block_frames(won.0, won.1),
        decoder::frames_total(stream_frames(out)) == vals.len(),
{
    let log2 = cfg.spec_predictor_log2();
    let (ranges, blocks) = choose|ranges: Seq<(usize, usize)>, blocks: Seq<Candidate>|
        #[trigger] planned_and_won(ranges, blocks, dtype, vals, cfg, offers) && out
            == stream_image(dtype, log2, n_values, bitmap, block_frames(ranges, blocks));
    lemma_image_shell(dtype, log2, n_values, bitmap, block_frames(ranges, blocks));
    reveal(planned_and_won);
    lemma_compressed(out, dtype, vals, n_values, bitmap, cfg, ranges, blocks, offers);
    (ranges, blocks)
}

/// Frames no larger than their verbatim blocks take nine bytes each on top.
proof fn lemma_frames_len(frames: Seq<FrameView>, lane_bytes: nat)
    requires
        forall|i: int|
            0 <= i < frames.len() ==> (#[trigger] frames[i]).payload.len() <= frames[i].n
                * lane_bytes,
    ensures
        frames_image(frames).len() <= 9 * frames.len() + lane_bytes * decoder::frames_total(frames),
    decreases frames.len(),
{
    if frames.len() > 0 {
        let more = frames.drop_first();
        assert forall|i: int| 0 <= i < more.len() implies (#[trigger] more[i]).payload.len()
            <= more[i].n * lane_bytes by {
            assert(more[i] == frames[i + 1]);
        }
        lemma_frames_len(more, lane_bytes);
        let f = frames[0];
        assert(f.payload.len() <= f.n * lane_bytes);
        bytes::lemma_le_bytes_len(f.n, 4);
        bytes::lemma_le_bytes_len(f.payload.len(), 4);
        let t = decoder::frames_total(more);
        assert(f.n * lane_bytes + lane_bytes * t == lane_bytes * (f.n + t)) by (nonlinear_arith);
    }
}

/// Without a fixed block size every block but the last holds many values.
proof fn lemma_block_starts(
    ranges: Seq<(usize, usize)>,
    blocks: Seq<Candidate>,
    dtype: DType,
    vals: Seq<u64>,
    cfg: Config,
    offers: Seq<Vec<FloatOffer>>,
    k: nat,
)
    requires
        planned_and_won(ranges, blocks, dtype, vals, cfg, offers),
        cfg.block_size is None,
        k < ranges.len(),
    ensures
        32768 * k <= ranges[k as int].0 < vals.len(),
    decreases k,
{
    reveal(planned_and_won);
    assert(ranges[k as int].0 < ranges[k as int].1);
    if k > 0 {
        lemma_block_starts(ranges, blocks, dtype, vals, cfg, offers, (k - 1) as nat);
        let prev = ranges[k - 1];
        assert(ranges[k as int].0 == prev.1);
        assert(prev.0 < prev.1);
        assert(ranges[k as int].0 < ranges[k as int].1 <= vals.len());
        assert(prev.1 == features::block_end(
            dtype.lane(),
            vals,
            prev.0 as int,
            cfg.spec_fixed_block_size(dtype.lane().bytes()),
            cfg.level,
        ));
        assert(262144int / 4 == 65536 && 262144int / 8 == 32768 && 1048576int / 4 == 262144
            && 1048576int / 8 == 131072);
    }
}

/// A won block is no larger than its verbatim form.
proof fn lemma_frame_fits(
    ranges: Seq<(usize, usize)>,
    blocks: Seq<Candidate>,
    dtype: DType,
    vals: Seq<u64>,
    cfg: Config,
    offers: Seq<Vec<FloatOffer>>,
    i: int,
)
    requires
        planned_and_won(ranges, blocks, dtype, vals, cfg, offers),
        0 <= i < blocks.len(),
    ensures
        blocks[i].payload@.len() <= (ranges[i].1 - ranges[i].0) * dtype.lane().bytes(),
{
    reveal(planned_and_won);
    let t = terms_of(dtype, cfg.spec_predictor_log2(), vals, ranges[i], offers, i);
    assert(block_won(t, cfg, blocks[i]));
    assert(ranges[i].0 < ranges[i].1);
    assert(t.block.len() == ranges[i].1 - ranges[i].0);
}

/// A stream of adaptively sized blocks takes at most nine bytes a value, and
/// some room for the header.
proof fn lemma_stream_bound(
    ranges: Seq<(usize, usize)>,
    blocks: Seq<Candidate>,
    dtype: DType,
    vals: Seq<u64>,
    cfg: Config,
    offers: Seq<Vec<FloatOffer>>,
)
    requires
        planned_and_won(ranges, blocks, dtype, vals, cfg, offers),
        cfg.block_size is None,
        decoder::frames_total(block_frames(ranges, blocks)) == vals.len(),
    ensures
        frames_image(block_frames(ranges, blocks)).len() <= 8 * vals.len() + 9 * (vals.len() / 32768
            + 1),
{
    let frames = block_frames(ranges, blocks);
    let w = dtype.lane().bytes() as nat;
    assert forall|i: int| 0 <= i < frames.len() implies (#[trigger] frames[i]).payload.len()
        <= frames[i].n * w by {
        lemma_frame_fits(ranges, blocks, dtype, vals, cfg, offers, i);
    }
    lemma_frames_len(frames, w);
    assert(w * vals.len() <= 8 * vals.len()) by (nonlinear_arith)
        requires
            w <= 8,
    ;
    assert(blocks.len() == ranges.len()) by {
        reveal(planned_and_won);
    }
    if ranges.len() > 0 {
        lemma_block_starts(
            ranges,
            blocks,
            dtype,
            vals,
            cfg,
            offers,
            (ranges.len() - 1) as nat,
        );
    }
}

/// Compress values already lowered to the lane of `dtype`. `vals` holds the
/// valid values only; `bitmap`, when present, says which of the `n_values`
/// positions they fill. `offers[i]` are the float candidates of block `i`.
pub fn compress_lane(
    vals: &[u64],
    dtype: DType,
    n_values: usize,
    bitmap: Option<&[u8]>,
    cfg: &Config,
    offers: &[Vec<FloatOffer>],
    wins: &mut ModeWins,
) -> (out: Vec<u8>)
    requires
        dtype.lane().fits_all(vals@),
        values_match(vals@, n_values, bitmap),
    ensures
        compressed(out@, dtype, vals@, n_values, bits_of(bitmap, n_values as nat), *cfg),
        dtype.family() is Int || offers.len() == 0 ==> stream_slices(out@, dtype, vals@) == Seq::<
            Seq<u64>,
        >::empty(),
        final(wins).counts@ == diag::with_wins(
            old(wins).counts@,
            frame_ids(stream_frames(out@)),
        ),
        won_stream(out@, dtype, vals@, n_values, bitmap, *cfg, offers@),
        cfg.block_size is None ==> out.len() <= 9 * n_values + 1024,
{
    let lane: Lane = dtype.lane();
    let log2: u8 = cfg.clamped_predictor_log2();
    let fixed: Option<usize> = cfg.fixed_block_size(lane.bytes());
    assert(fixed matches Some(size) ==> 1 <= size <= max_block_values(lane.bytes())) by {
        match lane {
            Lane::W32 => {
                assert(1048576int / 4 == 262144);
            },
            Lane::W64 => {
                assert(1048576int / 8 == 131072);
            },
        }
    }
    let ranges = plan_blocks(lane, vals, fixed, cfg.level);
    let blocks = build_frames(dtype, vals, &ranges, log2, cfg, offers, wins);
    proof {
        assert forall|i: int| 0 <= i < ranges.len() implies (#[trigger] ranges@[i]).0
            <= ranges@[i].1 by {
            assert(ranges@[i].0 < ranges@[i].1);
        }
    }
    let out = write_stream(dtype, log2, n_values, bitmap, &ranges, &blocks);
    proof {
        lemma_compressed(
            out@,
            dtype,
            vals@,
            n_values,
            bitmap,
            *cfg,
            ranges@,
            blocks@,
            offers@,
        );
        let frames = block_frames(ranges@, blocks@);
        assert(frame_ids(frames) =~= winner_ids(blocks@));
        assert(planned_and_won(ranges@, blocks@, dtype, vals@, *cfg, offers@)) by {
            reveal(planned_and_won);
        }
        if cfg.block_size is None {
            lemma_stream_bound(ranges@, blocks@, dtype, vals@, *cfg, offers@);
            if let Some(bm) = bitmap {
                validity::lemma_set_count_bound(validity::bitmap_bits(bm@, n_values as nat));
            }
            assert(vals@.len() <= n_values);
            assert(out@.len() == out.len());
        }
        if dtype.family() is Int || offers.len() == 0 {
            assert forall|i: int| 0 <= i < frames.len() implies !float_frame(
                (#[trigger] frames[i]).mode,
                dtype,
            ) by {
                let t = terms_of(dtype, log2, vals@, ranges@[i], offers@, i);
                assert(block_won(t, *cfg, blocks@[i]));
            }
            lemma_no_float_slices(dtype, frames, vals@);
        }
    }
    out
}

/// `ranges` is the block plan of a configuration, and `blocks` are the winners
/// of the competitions for its blocks.
#[verifier::opaque]
pub open spec fn planned_and_won(
    ranges: Seq<(usize, usize)>,
    blocks: Seq<Candidate>,
    dtype: DType,
    vals: Seq<u64>,
    cfg: Config,
    offers: Seq<Vec<FloatOffer>>,
) -> bool {
    let lane = dtype.lane();
    &&& features::is_partition(ranges, vals.len(), max_block_values(lane.bytes()) as nat)
    &&& forall|i: int|
        0 <= i < ranges.len() ==> (#[trigger] ranges[i]).1 == features::block_end(
            lane,
            vals,
            ranges[i].0 as int,
            cfg.spec_fixed_block_size(lane.bytes()),
            cfg.level,
        )
    &&& blocks.len() == ranges.len()
    &&& forall|i: int|
        0 <= i < blocks.len() ==> block_won(
            terms_of(dtype, cfg.spec_predictor_log2(), vals, ranges[i], offers, i),
            cfg,
            #[trigger] blocks[i],
        )
}

} // verus!
