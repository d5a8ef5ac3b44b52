//! Stream decoder: read the header and its sections, scan the frame table, then
//! decode the blocks in order.
//!
//! Blocks stored by a float transform are decoded in two halves. The integer
//! half stands here ([`float_blocks`]); the float arithmetic is the caller's,
//! which hands the resulting words back to [`decompress_lane`].

use vstd::prelude::*;
use crate::bytes;
use crate::bytes::read_le;
use crate::codecs::alp;
use crate::codecs::alp::{Part, PartView};
use crate::codecs::alp_rd;
use crate::codecs::const_block;
use crate::codecs::delta_bitpack;
use crate::codecs::dict;
use crate::codecs::float_mult;
use crate::codecs::for_bitpack;
use crate::codecs::linear;
use crate::codecs::lz;
use crate::codecs::pcodec;
use crate::codecs::pred;
use crate::codecs::pred_rc;
use crate::codecs::pred_rc::resid_bound;
use crate::codecs::raw;
use crate::codecs::rle;
use crate::codecs::stride;
use crate::codecs::transpose;
use crate::codecs::xorz;
use crate::dtype::{DType, Family};
use crate::entropy;
use crate::entropy::decode_residuals;
use crate::error;
use crate::error::Error;
use crate::format::{max_block_values, Header, FRAME_HEADER_LEN, HEADER_LEN};
use crate::lane::Lane;
use crate::mode;
use crate::mode::Mode;
use crate::validity;
use crate::varint;

verus! {

// ---------------------------------------------------------------------------
// Blocks without float arithmetic
// ---------------------------------------------------------------------------

/// The longest LZ stream accepted for a block of `n` values.
pub open spec fn lz_frame_bound(n: nat) -> nat {
    if 16 * n + 1024 <= usize::MAX {
        16 * n + 1024
    } else {
        usize::MAX as nat
    }
}

/// The longest byte-plane stream accepted for a block of `n` values.
pub open spec fn planes_frame_bound(n: nat) -> nat {
    if 8 * n + 16 <= usize::MAX {
        8 * n + 16
    } else {
        usize::MAX as nat
    }
}

/// Whether a frame is finished by float arithmetic.
#[verifier::allow_in_spec]
pub fn float_frame(mode: Mode, dtype: DType) -> (r: bool)
    returns
        (match mode {
            Mode::Delta2 | Mode::DeltaDp | Mode::FloatMult | Mode::Alp => true,
            Mode::Pco => dtype.family() is Float,
            _ => false,
        }),
{
    match mode {
        Mode::Delta2 | Mode::DeltaDp | Mode::FloatMult | Mode::Alp => true,
        Mode::Pco => match dtype.family() {
            Family::Float => true,
            Family::Int => false,
        },
        _ => false,
    }
}

/// The `n` words of a block that needs no float arithmetic.
#[verifier::opaque]
pub open spec fn block_decoded(
    dtype: DType,
    mode: Mode,
    payload: Seq<u8>,
    n: nat,
    log2: u8,
) -> Result<Seq<u64>, Error> {
    let lane = dtype.lane();
    match mode {
        Mode::Raw => raw::raw_decoded(lane, payload, n),
        Mode::Const => const_block::const_decoded(lane, payload, n),
        Mode::Stride => stride::stride_decoded(lane, payload, n),
        Mode::Xorz => xorz::xorz_decoded(lane, payload, n),
        Mode::Pred => pred::fcm_decoded(lane, payload, n, log2),
        Mode::PredRc => match entropy::residuals_decoded(payload, pred_rc::residual_bound(n)) {
            Err(e) => Err(e),
            Ok(s) => pred::fcm_decoded(lane, s, n, log2),
        },
        Mode::Pred2 => match entropy::residuals_decoded(payload, pred_rc::residual_bound(n)) {
            Err(e) => Err(e),
            Ok(s) => pred::dfcm_decoded(lane, s, n, log2),
        },
        Mode::OrderedDelta => match entropy::residuals_decoded(
            payload,
            pred_rc::residual_bound(n),
        ) {
            Err(e) => Err(e),
            Ok(s) => linear::idelta2_decoded(lane, s, n),
        },
        Mode::Lz => match entropy::residuals_decoded(payload, lz_frame_bound(n)) {
            Err(e) => Err(e),
            Ok(s) => lz::lz_words(lane, s, n),
        },
        Mode::ByteTranspose => match entropy::residuals_decoded(payload, planes_frame_bound(n)) {
            Err(e) => Err(e),
            Ok(s) => transpose::planes_decoded(lane, s, n),
        },
        Mode::ForBitpack => for_bitpack::for_decoded(lane, payload, n),
        Mode::DeltaBitpack => delta_bitpack::delta_decoded(lane, payload, n),
        Mode::AlpRd => alp_rd::rd_decoded(lane, payload, n),
        Mode::Dict => dict::dict_decoded(lane, payload, n),
        Mode::Rle => rle::rle_decoded(lane, payload, n),
        Mode::Pco => pcodec::pco_decoded(dtype, payload, n),
        Mode::Delta2 | Mode::DeltaDp | Mode::FloatMult | Mode::Alp => Err(
            Error::CorruptPayload("float block"),
        ),
    }
}

/// Decode a block that needs no float arithmetic.
pub fn decode_block(dtype: DType, mode: Mode, payload: &[u8], n: usize, log2: u8) -> (r: Result<
    Vec<u64>,
    Error,
>)
    requires
        log2 < usize::BITS,
        n <= max_block_values(dtype.lane().bytes()),
    ensures
        error::viewed(r) == block_decoded(dtype, mode, payload@, n as nat, log2),
        r matches Ok(v) ==> dtype.lane().fits_all(v@) && v.len() == n,
{
    reveal(block_decoded);
    let lane: Lane = dtype.lane();
    assert(n * lane.bytes() <= 1048576) by {
        match lane {
            Lane::W32 => {
                assert(1048576int / 4 == 262144);
            },
            Lane::W64 => {
                assert(1048576int / 8 == 131072);
            },
        }
    }
    match mode {
        Mode::Raw => raw::decode(lane, payload, n),
        Mode::Const => const_block::decode(lane, payload, n),
        Mode::Stride => stride::decode(lane, payload, n),
        Mode::Xorz => xorz::decode(lane, payload, n),
        Mode::Pred => pred::decode(lane, payload, n, log2),
        Mode::PredRc => match decode_residuals(payload, resid_bound(n)) {
            Err(e) => Err(e),
            Ok(s) => pred::decode(lane, &s, n, log2),
        },
        Mode::Pred2 => match decode_residuals(payload, resid_bound(n)) {
            Err(e) => Err(e),
            Ok(s) => pred::dfcm_decode(lane, &s, n, log2),
        },
        Mode::OrderedDelta => match decode_residuals(payload, resid_bound(n)) {
            Err(e) => Err(e),
            Ok(s) => linear::idelta2_decode(lane, &s, n),
        },
        Mode::Lz => match decode_residuals(payload, 16 * n + 1024) {
            Err(e) => Err(e),
            Ok(s) => lz::decode(lane, &s, n),
        },
        Mode::ByteTranspose => match decode_residuals(payload, 8 * n + 16) {
            Err(e) => Err(e),
            Ok(s) => transpose::decode(lane, &s, n),
        },
        Mode::ForBitpack => for_bitpack::decode(lane, payload, n),
        Mode::DeltaBitpack => delta_bitpack::decode(lane, payload, n),
        Mode::AlpRd => alp_rd::decode(lane, payload, n),
        Mode::Dict => dict::decode(lane, payload, n),
        Mode::Rle => rle::decode(lane, payload, n),
        Mode::Pco => pcodec::decode(lane, payload, n, dtype),
        Mode::Delta2 | Mode::DeltaDp | Mode::FloatMult | Mode::Alp => Err(
            Error::CorruptPayload("float block"),
        ),
    }
}

// ---------------------------------------------------------------------------
// Blocks finished by float arithmetic
// ---------------------------------------------------------------------------

/// What a float block stores, float arithmetic still to be done.
pub enum FloatBlock {
    /// Exclusive-or residuals of the polynomial predictor of an order.
    Delta2 { order: u8, words: Vec<u64> },
    /// Float residuals of the polynomial predictor of an order.
    DeltaDp { order: u8, words: Vec<u64> },
    /// Multiples of the decimal unit named by a scale index.
    FloatMult { scale: u8, multiples: Vec<u64> },
    /// Scaled digits and exceptions, by sub-block.
    Alp { parts: Vec<Part> },
    /// Bytes for the `pco` codec of the float type.
    Pco { bytes: Vec<u8> },
}

/// What a [`FloatBlock`] says.
pub enum FloatBlockView {
    Delta2 { order: u8, words: Seq<u64> },
    DeltaDp { order: u8, words: Seq<u64> },
    FloatMult { scale: u8, multiples: Seq<u64> },
    Alp { parts: Seq<PartView> },
    Pco { bytes: Seq<u8> },
}

impl View for FloatBlock {
    type V = FloatBlockView;

    open spec fn view(&self) -> FloatBlockView {
        match *self {
            FloatBlock::Delta2 { order, words } => FloatBlockView::Delta2 { order, words: words@ },
            FloatBlock::DeltaDp { order, words } => FloatBlockView::DeltaDp {
                order,
                words: words@,
            },
            FloatBlock::FloatMult { scale, multiples } => FloatBlockView::FloatMult {
                scale,
                multiples: multiples@,
            },
            FloatBlock::Alp { parts } => FloatBlockView::Alp { parts: alp::parts_view(parts@) },
            FloatBlock::Pco { bytes } => FloatBlockView::Pco { bytes: bytes@ },
        }
    }
}

/// What the payload of a float block of `n` values stores.
#[verifier::opaque]
pub open spec fn float_parsed(lane: Lane, mode: Mode, payload: Seq<u8>, n: nat) -> Result<
    FloatBlockView,
    Error,
> {
    match mode {
        Mode::Delta2 => match entropy::residuals_decoded(payload, pred_rc::residual_bound(n)) {
            Err(e) => Err(e),
            Ok(s) => match linear::xor_stream_parsed(lane, s, n) {
                Err(e) => Err(e),
                Ok((order, words)) => Ok(FloatBlockView::Delta2 { order, words }),
            },
        },
        Mode::DeltaDp => match entropy::residuals_decoded(payload, pred_rc::residual_bound(n)) {
            Err(e) => Err(e),
            Ok(s) => match linear::dp_stream_parsed(lane, s, n) {
                Err(e) => Err(e),
                Ok((order, words)) => Ok(FloatBlockView::DeltaDp { order, words }),
            },
        },
        Mode::FloatMult => match float_mult::fm_parsed(lane, payload, n) {
            Err(e) => Err(e),
            Ok((scale, multiples)) => Ok(FloatBlockView::FloatMult { scale, multiples }),
        },
        Mode::Alp => match alp::alp_parsed(lane, payload, n) {
            Err(e) => Err(e),
            Ok(parts) => Ok(FloatBlockView::Alp { parts }),
        },
        _ => Ok(FloatBlockView::Pco { bytes: payload }),
    }
}

/// Read what the payload of a float block of `n` values stores.
pub fn parse_float_block(lane: Lane, mode: Mode, payload: &[u8], n: usize) -> (r: Result<
    FloatBlock,
    Error,
>)
    ensures
        match float_parsed(lane, mode, payload@, n as nat) {
            Err(e) => r == Err::<FloatBlock, Error>(e),
            Ok(b) => r is Ok && r->Ok_0@ == b,
        },
{
    reveal(float_parsed);
    match mode {
        Mode::Delta2 => match decode_residuals(payload, resid_bound(n)) {
            Err(e) => Err(e),
            Ok(s) => match linear::parse_xor_stream(lane, &s, n) {
                Err(e) => Err(e),
                Ok((order, words)) => Ok(FloatBlock::Delta2 { order, words }),
            },
        },
        Mode::DeltaDp => match decode_residuals(payload, resid_bound(n)) {
            Err(e) => Err(e),
            Ok(s) => match linear::parse_dp_stream(lane, &s, n) {
                Err(e) => Err(e),
                Ok((order, words)) => Ok(FloatBlock::DeltaDp { order, words }),
            },
        },
        Mode::FloatMult => match float_mult::parse(lane, payload, n) {
            Err(e) => Err(e),
            Ok((scale, multiples)) => Ok(FloatBlock::FloatMult { scale, multiples }),
        },
        Mode::Alp => match alp::parse(lane, payload, n) {
            Err(e) => Err(e),
            Ok(parts) => Ok(FloatBlock::Alp { parts }),
        },
        _ => {
            let mut bytes: Vec<u8> = Vec::new();
            bytes.extend_from_slice(payload);
            assert(bytes@ =~= payload@);
            Ok(FloatBlock::Pco { bytes })
        },
    }
}

/// The fault of a float block whose words were not supplied, or do not fit it.
pub open spec fn float_fault(mode: Mode) -> Error {
    if mode is Pco {
        Error::CorruptPayload("pco decode")
    } else {
        Error::CorruptPayload("float block")
    }
}

// ---------------------------------------------------------------------------
// Frames
// ---------------------------------------------------------------------------

/// What a frame says: a mode, a value count and a payload.
pub struct FrameView {
    pub mode: Mode,
    pub n: nat,
    pub payload: Seq<u8>,
}

/// The frames at the front of `s` that hold `left` values, each at most `limit`.
pub open spec fn frames_parse(s: Seq<u8>, left: nat, limit: nat) -> Result<Seq<FrameView>, Error>
    decreases s.len(),
{
    if left == 0 {
        Ok(Seq::empty())
    } else if s.len() < FRAME_HEADER_LEN {
        Err(Error::Truncated)
    } else {
        match mode::mode_of_id(s[0]) {
            Err(e) => Err(e),
            Ok(mode) => {
                let n = bytes::le_value(s.subrange(1, 5));
                let len = bytes::le_value(s.subrange(5, 9));
                if n > limit {
                    Err(Error::CorruptPayload("block value count exceeds maximum"))
                } else if s.len() - 9 < len {
                    Err(Error::Truncated)
                } else if n > left {
                    Err(Error::CorruptPayload("block overruns declared length"))
                } else {
                    match frames_parse(s.skip(9 + len as int), (left - n) as nat, limit) {
                        Err(e) => Err(e),
                        Ok(more) => Ok(
                            seq![FrameView { mode, n, payload: s.subrange(9, 9 + len as int) }] + more,
                        ),
                    }
                }
            },
        }
    }
}

/// The words of a frame; `supplied` are the words that float arithmetic made of
/// a float frame.
#[verifier::opaque]
pub open spec fn frame_decoded(
    dtype: DType,
    log2: u8,
    f: FrameView,
    supplied: Option<Seq<u64>>,
) -> Result<Seq<u64>, Error> {
    if float_frame(f.mode, dtype) {
        match float_parsed(dtype.lane(), f.mode, f.payload, f.n) {
            Err(e) => Err(e),
            Ok(_) => match supplied {
                Some(words) => if words.len() == f.n && dtype.lane().fits_all(words) {
                    Ok(words)
                } else {
                    Err(float_fault(f.mode))
                },
                None => Err(float_fault(f.mode)),
            },
        }
    } else {
        block_decoded(dtype, f.mode, f.payload, f.n, log2)
    }
}

/// What is left of the supplied words after frame `f`.
pub open spec fn after_frame(dtype: DType, f: FrameView, floats: Seq<Seq<u64>>) -> Seq<Seq<u64>> {
    if float_frame(f.mode, dtype) && floats.len() > 0 {
        floats.drop_first()
    } else {
        floats
    }
}

/// The words supplied for frame `f`.
pub open spec fn supplied_for(dtype: DType, f: FrameView, floats: Seq<Seq<u64>>) -> Option<
    Seq<u64>,
> {
    if float_frame(f.mode, dtype) && floats.len() > 0 {
        Some(floats[0])
    } else {
        None
    }
}

/// The words of the frames, `floats` being the words of the float frames among
/// them, in order.
pub open spec fn frames_decoded(
    dtype: DType,
    log2: u8,
    frames: Seq<FrameView>,
    floats: Seq<Seq<u64>>,
) -> Result<Seq<u64>, Error>
    decreases frames.len(),
{
    if frames.len() == 0 {
        Ok(Seq::empty())
    } else {
        let f = frames[0];
        match frame_decoded(dtype, log2, f, supplied_for(dtype, f, floats)) {
            Err(e) => Err(e),
            Ok(words) => match frames_decoded(
                dtype,
                log2,
                frames.drop_first(),
                after_frame(dtype, f, floats),
            ) {
                Err(e) => Err(e),
                Ok(more) => Ok(words + more),
            },
        }
    }
}

/// The slices of `vals` that lie in float frames.
pub open spec fn float_slices(dtype: DType, frames: Seq<FrameView>, vals: Seq<u64>) -> Seq<Seq<u64>>
    decreases frames.len(),
{
    if frames.len() == 0 {
        Seq::empty()
    } else {
        let n = frames[0].n as int;
        let more = float_slices(dtype, frames.drop_first(), vals.skip(n));
        if float_frame(frames[0].mode, dtype) {
            seq![vals.take(n)] + more
        } else {
            more
        }
    }
}

/// What the float frames store, in order.
pub open spec fn float_parts(dtype: DType, frames: Seq<FrameView>) -> Result<
    Seq<FloatBlockView>,
    Error,
>
    decreases frames.len(),
{
    if frames.len() == 0 {
        Ok(Seq::empty())
    } else if !float_frame(frames[0].mode, dtype) {
        float_parts(dtype, frames.drop_first())
    } else {
        match float_parsed(dtype.lane(), frames[0].mode, frames[0].payload, frames[0].n) {
            Err(e) => Err(e),
            Ok(b) => match float_parts(dtype, frames.drop_first()) {
                Err(e) => Err(e),
                Ok(more) => Ok(seq![b] + more),
            },
        }
    }
}

/// A located frame: its mode, its value count and where its payload lies.
pub struct Frame {
    pub mode: Mode,
    pub n: usize,
    pub start: usize,
    pub end: usize,
}

impl Frame {
    /// What the frame says in stream `src`.
    pub open spec fn in_stream(&self, src: Seq<u8>) -> FrameView {
        FrameView {
            mode: self.mode,
            n: self.n as nat,
            payload: src.subrange(self.start as int, self.end as int),
        }
    }
}

/// What located frames say in stream `src`.
pub open spec fn frames_in(src: Seq<u8>, frames: Seq<Frame>) -> Seq<FrameView> {
    Seq::new(frames.len(), |i: int| frames[i].in_stream(src))
}

/// Located frames lie in `src` and hold at most `limit` values each.
pub open spec fn frames_ok(src: Seq<u8>, frames: Seq<Frame>, limit: nat) -> bool {
    forall|i: int|
        0 <= i < frames.len() ==> (#[trigger] frames[i]).start <= frames[i].end <= src.len()
            && frames[i].n <= limit
}

/// Scan the frame table at `pos`.
fn scan_frames(src: &[u8], pos: usize, total: usize, limit: usize) -> (r: Result<Vec<Frame>, Error>)
    requires
        pos <= src.len(),
    ensures
        match frames_parse(src@.skip(pos as int), total as nat, limit as nat) {
            Err(e) => r == Err::<Vec<Frame>, Error>(e),
            Ok(frames) => r is Ok && frames_in(src@, r->Ok_0@) == frames,
        },
        r matches Ok(frames) ==> frames_ok(src@, frames@, limit as nat),
{
    let ghost whole = frames_parse(src@.skip(pos as int), total as nat, limit as nat);
    let mut frames: Vec<Frame> = Vec::new();
    let mut at: usize = pos;
    let mut left: usize = total;
    proof {
        if let Ok(t) = whole {
            assert(frames_in(src@, frames@) + t =~= t);
        }
    }
    while left > 0
        invariant
            at <= src.len(),
            pos <= src.len(),
            whole == frames_parse(src@.skip(pos as int), total as nat, limit as nat),
            whole == (match frames_parse(src@.skip(at as int), left as nat, limit as nat) {
                Err(e) => Err::<Seq<FrameView>, Error>(e),
                Ok(t) => Ok::<_, Error>(frames_in(src@, frames@) + t),
            }),
            frames_ok(src@, frames@, limit as nat),
        decreases src.len() - at,
    {
        let ghost s = src@.skip(at as int);
        if src.len() - at < FRAME_HEADER_LEN {
            return Err(Error::Truncated);
        }
        let mode: Mode = match Mode::from_id(src[at]) {
            Err(e) => return Err(e),
            Ok(m) => m,
        };
        let n: u64 = read_le(src, at + 1, 4);
        let len: u64 = read_le(src, at + 5, 4);
        proof {
            assert(s.subrange(1, 5) =~= src@.subrange(at + 1, at + 5));
            assert(s.subrange(5, 9) =~= src@.subrange(at + 5, at + 9));
        }
        if n > limit as u64 {
            return Err(Error::CorruptPayload("block value count exceeds maximum"));
        }
        if len > (src.len() - at - 9) as u64 {
            return Err(Error::Truncated);
        }
        if n > left as u64 {
            return Err(Error::CorruptPayload("block overruns declared length"));
        }
        let start: usize = at + 9;
        let end: usize = start + len as usize;
        let ghost before = frames@;
        let frame = Frame { mode, n: n as usize, start, end };
        frames.push(frame);
        proof {
            assert(s.subrange(9, 9 + len as int) =~= src@.subrange(start as int, end as int));
            assert(s.skip(9 + len as int) =~= src@.skip(end as int));
            if let Ok(t) = frames_parse(src@.skip(end as int), (left - n) as nat, limit as nat) {
                assert(frames_in(src@, before) + (seq![frame.in_stream(src@)] + t) =~= frames_in(
                    src@,
                    frames@,
                ) + t);
            }
        }
        at = end;
        left = left - n as usize;
    }
    assert(frames_in(src@, frames@) + Seq::<FrameView>::empty() =~= frames_in(src@, frames@));
    Ok(frames)
}

/// Decode one frame; `supplied` are the words of a float frame.
fn decode_frame(
    src: &[u8],
    frame: &Frame,
    dtype: DType,
    log2: u8,
    supplied: Option<&Vec<u64>>,
) -> (r: Result<Vec<u64>, Error>)
    requires
        log2 < usize::BITS,
        frame.start <= frame.end <= src.len(),
        frame.n <= max_block_values(dtype.lane().bytes()),
    ensures
        error::viewed(r) == frame_decoded(
            dtype,
            log2,
            frame.in_stream(src@),
            match supplied {
                Some(w) => Some(w@),
                None => None,
            },
        ),
        r matches Ok(v) ==> dtype.lane().fits_all(v@) && v.len() == frame.n,
{
    reveal(frame_decoded);
    let payload = vstd::slice::slice_subrange(src, frame.start, frame.end);
    if !float_frame(frame.mode, dtype) {
        return decode_block(dtype, frame.mode, payload, frame.n, log2);
    }
    let lane: Lane = dtype.lane();
    match parse_float_block(lane, frame.mode, payload, frame.n) {
        Err(e) => return Err(e),
        Ok(_) => {},
    }
    if let Some(words) = supplied {
        if words.len() == frame.n && words_fit(lane, words) {
            let mut out: Vec<u64> = Vec::new();
            out.extend_from_slice(words);
            assert(out@ =~= words@);
            return Ok(out);
        }
    }
    match frame.mode {
        Mode::Pco => Err(Error::CorruptPayload("pco decode")),
        _ => Err(Error::CorruptPayload("float block")),
    }
}

fn words_fit(lane: Lane, words: &[u64]) -> (r: bool)
    ensures
        r == lane.fits_all(words@),
{
    let top: u64 = lane.max();
    let mut i: usize = 0;
    while i < words.len()
        invariant
            i <= words.len(),
            top == lane.modulus() - 1,
            forall|k: int| 0 <= k < i ==> lane.fits(#[trigger] words@[k]),
        decreases words.len() - i,
    {
        if words[i] > top {
            assert(!lane.fits(words@[i as int]));
            return false;
        }
        i = i + 1;
    }
    true
}

// ---------------------------------------------------------------------------
// Streams
// ---------------------------------------------------------------------------

/// A length-prefixed section at the front of `s`, and what follows it.
pub open spec fn section_parse(s: Seq<u8>, too_long: Error) -> Result<(Seq<u8>, Seq<u8>), Error> {
    match varint::varint_parse(s) {
        Err(e) => Err(e),
        Ok((len, rest)) => if len > usize::MAX {
            Err(too_long)
        } else if rest.len() < len {
            Err(Error::Truncated)
        } else {
            Ok((rest.take(len as int), rest.skip(len as int)))
        },
    }
}

/// What precedes the frames of a stream, and the bytes of the frames.
pub struct ShellView {
    pub header: Header,
    /// Which values are valid, when some are null.
    pub bits: Option<Seq<bool>>,
    /// Number of values held by the frames.
    pub total: nat,
    pub rest: Seq<u8>,
}

/// The validity section of `n` values at the front of `s`, and what follows it.
pub open spec fn validity_section(s: Seq<u8>, n: nat) -> Result<(Seq<bool>, Seq<u8>), Error> {
    match section_parse(s, Error::CorruptPayload("validity length too large")) {
        Err(e) => Err(e),
        Ok((blob, rest)) => match validity::validity_decoded(blob, n) {
            Err(e) => Err(e),
            Ok(bits) => Ok((bits, rest)),
        },
    }
}

/// The validity section of `n` values at the front of `s`, when one is present.
pub open spec fn validity_parse(s: Seq<u8>, present: bool, n: nat) -> Result<
    (Option<Seq<bool>>, Seq<u8>),
    Error,
> {
    if !present {
        Ok((None, s))
    } else {
        match validity_section(s, n) {
            Err(e) => Err(e),
            Ok((bits, rest)) => Ok((Some(bits), rest)),
        }
    }
}

/// What follows the shared dictionary at the front of `s`, when the header
/// announces one. The dictionary must be readable.
pub open spec fn shared_parse(h: Header, s: Seq<u8>, total: nat) -> Result<Seq<u8>, Error> {
    if !h.has_shared_dict {
        Ok(s)
    } else {
        match section_parse(s, Error::CorruptPayload("shared dict length too large")) {
            Err(e) => Err(e),
            Ok((blob, rest)) => match dict::preamble_decoded(h.dtype.lane(), blob, total) {
                Err(e) => Err(e),
                Ok(_) => Ok(rest),
            },
        }
    }
}

/// Number of values held by the frames.
pub open spec fn held(h: Header, bits: Option<Seq<bool>>) -> nat {
    match bits {
        None => h.n_values as nat,
        Some(b) => validity::set_count(b),
    }
}

/// What precedes the frames of stream `src`.
pub open spec fn shell_parse(src: Seq<u8>) -> Result<ShellView, Error> {
    match crate::format::header_parse(src) {
        Err(e) => Err(e),
        Ok(header) => if header.n_values > usize::MAX {
            Err(Error::Truncated)
        } else {
            match validity_parse(
                src.skip(HEADER_LEN as int),
                header.has_validity,
                header.n_values as nat,
            ) {
                Err(e) => Err(e),
                Ok((bits, s)) => {
                    let total = held(header, bits);
                    match shared_parse(header, s, total) {
                        Err(e) => Err(e),
                        Ok(rest) => Ok(ShellView { header, bits, total, rest }),
                    }
                },
            }
        },
    }
}

/// The type, the words (zero where null) and the validity of the column in
/// stream `src`, `floats` being the words of its float frames, in order.
#[verifier::opaque]
pub open spec fn lane_decoded(src: Seq<u8>, floats: Seq<Seq<u64>>) -> Result<
    (DType, Seq<u64>, Option<Seq<bool>>),
    Error,
> {
    match shell_parse(src) {
        Err(e) => Err(e),
        Ok(shell) => {
            let dtype = shell.header.dtype;
            let limit = max_block_values(dtype.lane().bytes()) as nat;
            match frames_parse(shell.rest, shell.total, limit) {
                Err(e) => Err(e),
                Ok(frames) => match frames_decoded(
                    dtype,
                    shell.header.predictor_log2,
                    frames,
                    floats,
                ) {
                    Err(e) => Err(e),
                    Ok(words) => match shell.bits {
                        None => Ok((dtype, words, None)),
                        Some(bits) => Ok((dtype, validity::scattered(words, bits, 0), Some(bits))),
                    },
                },
            }
        },
    }
}

/// What the float frames of stream `src` store, in order.
pub open spec fn stream_float_parts(src: Seq<u8>) -> Result<Seq<FloatBlockView>, Error> {
    match shell_parse(src) {
        Err(e) => Err(e),
        Ok(shell) => {
            let dtype = shell.header.dtype;
            let limit = max_block_values(dtype.lane().bytes()) as nat;
            match frames_parse(shell.rest, shell.total, limit) {
                Err(e) => Err(e),
                Ok(frames) => float_parts(dtype, frames),
            }
        },
    }
}

/// Number of float frames.
pub open spec fn float_count(dtype: DType, frames: Seq<FrameView>) -> nat
    decreases frames.len(),
{
    if frames.len() == 0 {
        0
    } else {
        float_count(dtype, frames.drop_first()) + (if float_frame(frames[0].mode, dtype) {
            1nat
        } else {
            0nat
        })
    }
}

/// Number of float frames of stream `src`, none where its frames cannot be read.
#[verifier::opaque]
pub open spec fn stream_floats(src: Seq<u8>) -> nat {
    match shell_parse(src) {
        Err(_) => 0,
        Ok(shell) => {
            let dtype = shell.header.dtype;
            let limit = max_block_values(dtype.lane().bytes()) as nat;
            match frames_parse(shell.rest, shell.total, limit) {
                Err(_) => 0,
                Ok(frames) => float_count(dtype, frames),
            }
        },
    }
}

/// What is left of the supplied words after stream `src`.
pub open spec fn after_stream(src: Seq<u8>, floats: Seq<Seq<u64>>) -> Seq<Seq<u64>> {
    if stream_floats(src) <= floats.len() {
        floats.skip(stream_floats(src) as int)
    } else {
        Seq::empty()
    }
}

/// Frames read the words of their own float frames, whatever else is supplied after them.
proof fn lemma_frames_own(
    dtype: DType,
    log2: u8,
    frames: Seq<FrameView>,
    own: Seq<Seq<u64>>,
    more: Seq<Seq<u64>>,
)
    requires
        float_count(dtype, frames) <= own.len(),
    ensures
        frames_decoded(dtype, log2, frames, own + more) == frames_decoded(dtype, log2, frames, own),
    decreases frames.len(),
{
    if frames.len() > 0 {
        let f = frames[0];
        assert(supplied_for(dtype, f, own + more) == supplied_for(dtype, f, own));
        assert(after_frame(dtype, f, own + more) =~= after_frame(dtype, f, own) + more);
        lemma_frames_own(dtype, log2, frames.drop_first(), after_frame(dtype, f, own), more);
    }
}

/// A stream reads the words of its own float frames, and leaves what is supplied after
/// them.
pub proof fn lemma_stream_own(src: Seq<u8>, own: Seq<Seq<u64>>, more: Seq<Seq<u64>>)
    requires
        own.len() == stream_floats(src),
    ensures
        lane_decoded(src, own + more) == lane_decoded(src, own),
        after_stream(src, own + more) == more,
{
    reveal(lane_decoded);
    assert(after_stream(src, own + more) =~= more);
    if let Ok(shell) = shell_parse(src) {
        let dtype = shell.header.dtype;
        let limit = max_block_values(dtype.lane().bytes()) as nat;
        if let Ok(frames) = frames_parse(shell.rest, shell.total, limit) {
            reveal(stream_floats);
            lemma_frames_own(dtype, shell.header.predictor_log2, frames, own, more);
        }
    }
}

/// Read the length-prefixed section at `pos` and move past it; the result is
/// where it lies.
pub fn take_section(src: &[u8], pos: &mut usize, too_long: Error) -> (r: Result<(usize, usize), Error>)
    requires
        *old(pos) <= src.len(),
    ensures
        match section_parse(src@.skip(*old(pos) as int), too_long) {
            Err(e) => r == Err::<(usize, usize), Error>(e),
            Ok((blob, rest)) => {
                &&& r matches Ok((start, end))
                &&& start <= end <= src.len()
                &&& src@.subrange(start as int, end as int) == blob
                &&& *final(pos) == end
                &&& src@.skip(end as int) == rest
            },
        },
{
    let len: u64 = match varint::read_u64(src, pos) {
        Err(e) => return Err(e),
        Ok(v) => v,
    };
    let ghost rest = src@.skip(*pos as int);
    if len > usize::MAX as u64 {
        return Err(too_long);
    }
    if src.len() - *pos < len as usize {
        return Err(Error::Truncated);
    }
    let start: usize = *pos;
    let end: usize = start + len as usize;
    proof {
        assert(rest.take(len as int) =~= src@.subrange(start as int, end as int));
        assert(rest.skip(len as int) =~= src@.skip(end as int));
    }
    *pos = end;
    Ok((start, end))
}

/// Read the validity section of `n` values at `pos` and move past it.
pub fn read_validity(src: &[u8], pos: &mut usize, n: usize) -> (r: Result<Vec<u8>, Error>)
    requires
        *old(pos) <= src.len(),
    ensures
        match validity_section(src@.skip(*old(pos) as int), n as nat) {
            Err(e) => r == Err::<Vec<u8>, Error>(e),
            Ok((bits, rest)) => {
                &&& r matches Ok(bm)
                &&& validity::bitmap_canonical(bm@, n as nat)
                &&& validity::bitmap_bits(bm@, n as nat) == bits
                &&& *final(pos) <= src.len()
                &&& src@.skip(*final(pos) as int) == rest
            },
        },
{
    match take_section(src, pos, Error::CorruptPayload("validity length too large")) {
        Err(e) => Err(e),
        Ok((start, end)) => validity::decode(vstd::slice::slice_subrange(src, start, end), n),
    }
}

/// What precedes the frames of a stream, and where the frames start.
struct Shell {
    header: Header,
    validity: Option<Vec<u8>>,
    total: usize,
    pos: usize,
}

impl Shell {
    /// Agrees with what stream `src` says.
    spec fn agrees(&self, src: Seq<u8>, v: ShellView) -> bool {
        &&& self.header == v.header
        &&& self.header.n_values <= usize::MAX
        &&& self.total == v.total
        &&& self.pos <= src.len()
        &&& src.skip(self.pos as int) == v.rest
        &&& match (self.validity, v.bits) {
            (None, None) => true,
            (Some(bm), Some(bits)) => validity::bitmap_canonical(
                bm@,
                v.header.n_values as nat,
            ) && validity::bitmap_bits(bm@, v.header.n_values as nat) == bits,
            _ => false,
        }
    }
}

/// Read what precedes the frames.
fn read_shell(src: &[u8]) -> (r: Result<Shell, Error>)
    ensures
        match shell_parse(src@) {
            Err(e) => r == Err::<Shell, Error>(e),
            Ok(v) => r is Ok && r->Ok_0.agrees(src@, v),
        },
        r matches Ok(s) ==> 10 <= s.header.predictor_log2 <= 16,
{
    let header: Header = match Header::read(src) {
        Err(e) => return Err(e),
        Ok(h) => h,
    };
    if header.n_values > usize::MAX as u64 {
        return Err(Error::Truncated);
    }
    let n: usize = header.n_values as usize;
    let mut pos: usize = HEADER_LEN;
    let mut bitmap: Option<Vec<u8>> = None;
    let mut total: usize = n;
    if header.has_validity {
        let bm: Vec<u8> = match read_validity(src, &mut pos, n) {
            Err(e) => return Err(e),
            Ok(bm) => bm,
        };
        total = validity::count_valid(&bm, n);
        bitmap = Some(bm);
    }
    if header.has_shared_dict {
        let (start, end) = match take_section(
            src,
            &mut pos,
            Error::CorruptPayload("shared dict length too large"),
        ) {
            Err(e) => return Err(e),
            Ok(range) => range,
        };
        match dict::decode_shared_preamble(
            header.dtype.lane(),
            vstd::slice::slice_subrange(src, start, end),
            total,
        ) {
            Err(e) => return Err(e),
            Ok(_) => {},
        }
    }
    Ok(Shell { header, validity: bitmap, total, pos })
}

/// Number of values in the frames.
pub open spec fn frames_total(frames: Seq<FrameView>) -> nat
    decreases frames.len(),
{
    if frames.len() == 0 {
        0
    } else {
        frames[0].n + frames_total(frames.drop_first())
    }
}

/// A frame table that parses holds as many values as were asked for.
pub proof fn lemma_frames_total(s: Seq<u8>, left: nat, limit: nat)
    ensures
        frames_parse(s, left, limit) matches Ok(frames) ==> frames_total(frames) == left,
    decreases s.len(),
{
    if left > 0 && s.len() >= FRAME_HEADER_LEN {
        if let Ok(m) = mode::mode_of_id(s[0]) {
            let n = bytes::le_value(s.subrange(1, 5));
            let len = bytes::le_value(s.subrange(5, 9));
            if s.len() - 9 >= len && n <= left {
                lemma_frames_total(s.skip(9 + len as int), (left - n) as nat, limit);
                if let Ok(more) = frames_parse(s.skip(9 + len as int), (left - n) as nat, limit) {
                    let f = FrameView { mode: m, n, payload: s.subrange(9, 9 + len as int) };
                    assert((seq![f] + more).drop_first() =~= more);
                }
            }
        }
    }
}

/// The views of supplied words.
pub open spec fn words_view(floats: Seq<Vec<u64>>) -> Seq<Seq<u64>> {
    Seq::new(floats.len(), |i: int| floats[i]@)
}

/// Decode the frames in order.
fn decode_frames(
    src: &[u8],
    frames: &Vec<Frame>,
    dtype: DType,
    log2: u8,
    floats: &[Vec<u64>],
) -> (r: Result<Vec<u64>, Error>)
    requires
        log2 < usize::BITS,
        frames_ok(src@, frames@, max_block_values(dtype.lane().bytes()) as nat),
    ensures
        error::viewed(r) == frames_decoded(
            dtype,
            log2,
            frames_in(src@, frames@),
            words_view(floats@),
        ),
        r matches Ok(v) ==> dtype.lane().fits_all(v@) && v.len() == frames_total(
            frames_in(src@, frames@),
        ),
{
    let ghost views = frames_in(src@, frames@);
    let ghost given = words_view(floats@);
    let ghost whole = frames_decoded(dtype, log2, views, given);
    let mut out: Vec<u64> = Vec::new();
    let mut used: usize = 0;
    let mut i: usize = 0;
    proof {
        assert(views.skip(0) =~= views);
        assert(given.skip(0) =~= given);
        if let Ok(t) = whole {
            assert(out@ + t =~= t);
        }
    }
    while i < frames.len()
        invariant
            i <= frames.len(),
            used <= floats.len(),
            log2 < usize::BITS,
            frames_ok(src@, frames@, max_block_values(dtype.lane().bytes()) as nat),
            views == frames_in(src@, frames@),
            given == words_view(floats@),
            dtype.lane().fits_all(out@),
            out.len() + frames_total(views.skip(i as int)) == frames_total(views),
            whole == frames_decoded(dtype, log2, views, given),
            whole == (match frames_decoded(
                dtype,
                log2,
                views.skip(i as int),
                given.skip(used as int),
            ) {
                Err(e) => Err::<Seq<u64>, Error>(e),
                Ok(t) => Ok::<_, Error>(out@ + t),
            }),
        decreases frames.len() - i,
    {
        let ghost rest = views.skip(i as int);
        let ghost avail = given.skip(used as int);
        let frame: &Frame = &frames[i];
        proof {
            assert(rest[0] == frame.in_stream(src@));
            assert(rest.drop_first() =~= views.skip(i + 1));
            assert(frames@[i as int].start <= frames@[i as int].end);
        }
        let takes: bool = float_frame(frame.mode, dtype) && used < floats.len();
        let supplied: Option<&Vec<u64>> = if takes {
            Some(&floats[used])
        } else {
            None
        };
        proof {
            assert(supplied_for(dtype, rest[0], avail) == (match supplied {
                Some(w) => Some(w@),
                None => None,
            }));
            if takes {
                assert(avail.drop_first() =~= given.skip(used + 1));
            }
        }
        let block: Vec<u64> = match decode_frame(src, frame, dtype, log2, supplied) {
            Err(e) => return Err(e),
            Ok(v) => v,
        };
        if takes {
            used = used + 1;
        }
        let ghost before = out@;
        out.extend_from_slice(&block);
        proof {
            assert(out@ =~= before + block@);
            if let Ok(t) = frames_decoded(
                dtype,
                log2,
                views.skip(i + 1),
                given.skip(used as int),
            ) {
                assert(before + (block@ + t) =~= out@ + t);
            }
        }
        i = i + 1;
    }
    assert(out@ + Seq::<u64>::empty() =~= out@);
    Ok(out)
}

/// A decoded column on its lane: zero where null.
pub struct DecodedLane {
    pub dtype: DType,
    pub words: Vec<u64>,
    pub validity: Option<Vec<u8>>,
}

/// A bitmap of `n` bits says `bits`.
pub open spec fn bitmap_says(bitmap: Option<Vec<u8>>, bits: Option<Seq<bool>>, n: nat) -> bool {
    match (bitmap, bits) {
        (None, None) => true,
        (Some(bm), Some(b)) => validity::bitmap_canonical(bm@, n) && validity::bitmap_bits(
            bm@,
            n,
        ) == b,
        _ => false,
    }
}

/// Decode a stream to its lane words, the column type and the validity bitmap.
/// `floats` holds the words of the float frames, in order (see
/// [`float_blocks`]).
pub fn decompress_lane(src: &[u8], floats: &[Vec<u64>]) -> (r: Result<DecodedLane, Error>)
    ensures
        match lane_decoded(src@, words_view(floats@)) {
            Err(e) => r == Err::<DecodedLane, Error>(e),
            Ok((dtype, words, bits)) => {
                &&& r matches Ok(d)
                &&& d.dtype == dtype
                &&& d.words@ == words
                &&& bitmap_says(d.validity, bits, words.len())
                &&& dtype.lane().fits_all(words)
                &&& crate::format::header_parse(src@) matches Ok(h)
                &&& h.n_values == words.len()
                &&& h.dtype == dtype
            },
        },
{
    reveal(lane_decoded);
    let shell: Shell = match read_shell(src) {
        Err(e) => return Err(e),
        Ok(s) => s,
    };
    let dtype: DType = shell.header.dtype;
    let limit: usize = max_block_values(dtype.lane().bytes());
    let frames: Vec<Frame> = match scan_frames(src, shell.pos, shell.total, limit) {
        Err(e) => return Err(e),
        Ok(f) => f,
    };
    proof {
        lemma_frames_total(src@.skip(shell.pos as int), shell.total as nat, limit as nat);
    }
    let words: Vec<u64> = match decode_frames(
        src,
        &frames,
        dtype,
        shell.header.predictor_log2,
        floats,
    ) {
        Err(e) => return Err(e),
        Ok(w) => w,
    };
    match shell.validity {
        None => Ok(DecodedLane { dtype, words, validity: None }),
        Some(bm) => {
            let n: usize = shell.header.n_values as usize;
            let ghost bits = validity::bitmap_bits(bm@, n as nat);
            match validity::scatter(&words, &bm, n) {
                Err(e) => {
                    assert(false);
                    Err(e)
                },
                Ok(all) => {
                    proof {
                        validity::lemma_scattered_len(words@, bits, 0);
                        validity::lemma_scattered_fits(dtype.lane(), words@, bits);
                    }
                    Ok(DecodedLane { dtype, words: all, validity: Some(bm) })
                },
            }
        },
    }
}

/// The views of float blocks.
pub open spec fn blocks_view(blocks: Seq<FloatBlock>) -> Seq<FloatBlockView> {
    Seq::new(blocks.len(), |i: int| blocks[i]@)
}

/// What the float frames of a stream store, in order: the work left to float
/// arithmetic before [`decompress_lane`].
pub fn float_blocks(src: &[u8]) -> (r: Result<Vec<FloatBlock>, Error>)
    ensures
        match stream_float_parts(src@) {
            Err(e) => r == Err::<Vec<FloatBlock>, Error>(e),
            Ok(parts) => r is Ok && blocks_view(r->Ok_0@) == parts,
        },
{
    let shell: Shell = match read_shell(src) {
        Err(e) => return Err(e),
        Ok(s) => s,
    };
    let dtype: DType = shell.header.dtype;
    let limit: usize = max_block_values(dtype.lane().bytes());
    let frames: Vec<Frame> = match scan_frames(src, shell.pos, shell.total, limit) {
        Err(e) => return Err(e),
        Ok(f) => f,
    };
    parse_float_frames(src, &frames, dtype)
}

/// Number of float frames of a stream, none where its frames cannot be read.
pub fn count_float_frames(src: &[u8]) -> (count: usize)
    ensures
        count == stream_floats(src@),
{
    reveal(stream_floats);
    let shell: Shell = match read_shell(src) {
        Err(_) => return 0,
        Ok(s) => s,
    };
    let dtype: DType = shell.header.dtype;
    let limit: usize = max_block_values(dtype.lane().bytes());
    let frames: Vec<Frame> = match scan_frames(src, shell.pos, shell.total, limit) {
        Err(_) => return 0,
        Ok(f) => f,
    };
    let ghost views = frames_in(src@, frames@);
    let mut count: usize = 0;
    let mut i: usize = 0;
    assert(views.skip(0) =~= views);
    while i < frames.len()
        invariant
            count <= i <= frames.len(),
            views == frames_in(src@, frames@),
            count + float_count(dtype, views.skip(i as int)) == float_count(dtype, views),
        decreases frames.len() - i,
    {
        proof {
            assert(views.skip(i as int).drop_first() =~= views.skip(i + 1));
            assert(views.skip(i as int)[0] == frames@[i as int].in_stream(src@));
        }
        if float_frame(frames[i].mode, dtype) {
            count = count + 1;
        }
        i = i + 1;
    }
    count
}

fn parse_float_frames(src: &[u8], frames: &Vec<Frame>, dtype: DType) -> (r: Result<
    Vec<FloatBlock>,
    Error,
>)
    requires
        frames_ok(src@, frames@, max_block_values(dtype.lane().bytes()) as nat),
    ensures
        match float_parts(dtype, frames_in(src@, frames@)) {
            Err(e) => r == Err::<Vec<FloatBlock>, Error>(e),
            Ok(parts) => r is Ok && blocks_view(r->Ok_0@) == parts,
        },
{
    let ghost views = frames_in(src@, frames@);
    let ghost whole = float_parts(dtype, views);
    let mut out: Vec<FloatBlock> = Vec::new();
    let mut i: usize = 0;
    proof {
        assert(views.skip(0) =~= views);
        if let Ok(t) = whole {
            assert(blocks_view(out@) + t =~= t);
        }
    }
    while i < frames.len()
        invariant
            i <= frames.len(),
            frames_ok(src@, frames@, max_block_values(dtype.lane().bytes()) as nat),
            views == frames_in(src@, frames@),
            whole == float_parts(dtype, views),
            whole == (match float_parts(dtype, views.skip(i as int)) {
                Err(e) => Err::<Seq<FloatBlockView>, Error>(e),
                Ok(t) => Ok::<_, Error>(blocks_view(out@) + t),
            }),
        decreases frames.len() - i,
    {
        let ghost rest = views.skip(i as int);
        let frame: &Frame = &frames[i];
        proof {
            assert(rest[0] == frame.in_stream(src@));
            assert(rest.drop_first() =~= views.skip(i + 1));
            assert(frames@[i as int].start <= frames@[i as int].end);
        }
        if float_frame(frame.mode, dtype) {
            let payload = vstd::slice::slice_subrange(src, frame.start, frame.end);
            let block: FloatBlock = match parse_float_block(
                dtype.lane(),
                frame.mode,
                payload,
                frame.n,
            ) {
                Err(e) => return Err(e),
                Ok(b) => b,
            };
            let ghost before = out@;
            out.push(block);
            proof {
                if let Ok(t) = float_parts(dtype, views.skip(i + 1)) {
                    assert(blocks_view(before) + (seq![block@] + t) =~= blocks_view(out@) + t);
                }
            }
        }
        i = i + 1;
    }
    assert(blocks_view(out@) + Seq::<FloatBlockView>::empty() =~= blocks_view(out@));
    Ok(out)
}

} // verus!
