//! Block codec identifiers.

use vstd::prelude::*;
use crate::error::Error;

verus! {

/// Block codec identifiers. Each has a stable number on the wire; the numbers
/// not listed here are reserved (see [`mode_name`]).
#[derive(Copy, Clone, Debug, PartialEq, Eq, Structural)]
pub enum Mode {
    /// FCM hash predictor, XOR residuals, LEB128-coded.
    Pred,
    /// All values in the block are identical.
    Const,
    /// Arithmetic progression in `u64` bit-pattern space.
    Stride,
    /// XOR with previous value, LEB128-coded.
    Xorz,
    /// Verbatim little-endian `u64` words. Always-available fallback.
    Raw,
    /// LZ77 over the block bytes, token stream entropy-coded.
    Lz,
    /// Byte-plane transpose (AoS→SoA), then entropy-coded.
    ByteTranspose,
    /// Values are integer multiples of 1/scale; store the integers (verified).
    FloatMult,
    /// Second-order integer delta of bit patterns (zigzag), residuals entropy-coded.
    OrderedDelta,
    /// Second-order linear extrapolation in float space, residuals entropy-coded.
    Delta2,
    /// DFCM (differential FCM) predictor residuals, range-coded.
    Pred2,
    /// Second-order linear prediction storing the exact float residual (verified
    /// lossless). Nails polynomial/smooth data (constant second difference).
    DeltaDp,
    /// FCM predictor residuals, range-coded (order-1 adaptive model).
    PredRc,
    /// Frame-of-reference + FastLanes bit-packing over 1024-value sub-blocks.
    ForBitpack,
    /// ALP: scaled-integer encoding of decimal-like doubles (FoR+bitpack digits
    /// + exceptions).
    Alp,
    /// First-order delta + FoR + bit-packing (Parquet DELTA_BINARY_PACKED).
    DeltaBitpack,
    /// ALP-RD: real-double split — dictionary the high bits, bit-pack the low.
    AlpRd,
    /// Dictionary: distinct values → bit-packed codes (low-cardinality columns).
    Dict,
    /// Run-length encoding: (value, run-length) pairs (grouped/repeated columns).
    Rle,
    /// Vendored pco (pcodec) numeric backend: latent decomposition + bin-packing
    /// + ANS. Heavyweight ratio mode, gated to `High`/`Max`.
    Pco,
}

/// The mode with the given wire number.
pub open spec fn mode_of_id(id: u8) -> Result<Mode, Error> {
    if id == 0 {
        Ok(Mode::Pred)
    } else if id == 1 {
        Ok(Mode::Const)
    } else if id == 2 {
        Ok(Mode::Stride)
    } else if id == 3 {
        Ok(Mode::Xorz)
    } else if id == 5 {
        Ok(Mode::Raw)
    } else if id == 4 {
        Ok(Mode::Lz)
    } else if id == 11 {
        Ok(Mode::ByteTranspose)
    } else if id == 17 {
        Ok(Mode::FloatMult)
    } else if id == 7 {
        Ok(Mode::OrderedDelta)
    } else if id == 20 {
        Ok(Mode::Delta2)
    } else if id == 25 {
        Ok(Mode::Pred2)
    } else if id == 45 {
        Ok(Mode::DeltaDp)
    } else if id == 29 {
        Ok(Mode::PredRc)
    } else if id == 50 {
        Ok(Mode::ForBitpack)
    } else if id == 9 {
        Ok(Mode::Alp)
    } else if id == 51 {
        Ok(Mode::DeltaBitpack)
    } else if id == 52 {
        Ok(Mode::AlpRd)
    } else if id == 19 {
        Ok(Mode::Dict)
    } else if id == 53 {
        Ok(Mode::Rle)
    } else if id == 54 {
        Ok(Mode::Pco)
    } else {
        Err(Error::UnknownMode(id))
    }
}

impl Mode {
    /// The wire number of the mode.
    #[verifier::allow_in_spec]
    pub fn id(self) -> (id: u8)
        returns
            (match self {
                Mode::Pred => 0u8,
                Mode::Const => 1u8,
                Mode::Stride => 2u8,
                Mode::Xorz => 3u8,
                Mode::Raw => 5u8,
                Mode::Lz => 4u8,
                Mode::ByteTranspose => 11u8,
                Mode::FloatMult => 17u8,
                Mode::OrderedDelta => 7u8,
                Mode::Delta2 => 20u8,
                Mode::Pred2 => 25u8,
                Mode::DeltaDp => 45u8,
                Mode::PredRc => 29u8,
                Mode::ForBitpack => 50u8,
                Mode::Alp => 9u8,
                Mode::DeltaBitpack => 51u8,
                Mode::AlpRd => 52u8,
                Mode::Dict => 19u8,
                Mode::Rle => 53u8,
                Mode::Pco => 54u8,
            }),
    {
        match self {
            Mode::Pred => 0,
            Mode::Const => 1,
            Mode::Stride => 2,
            Mode::Xorz => 3,
            Mode::Raw => 5,
            Mode::Lz => 4,
            Mode::ByteTranspose => 11,
            Mode::FloatMult => 17,
            Mode::OrderedDelta => 7,
            Mode::Delta2 => 20,
            Mode::Pred2 => 25,
            Mode::DeltaDp => 45,
            Mode::PredRc => 29,
            Mode::ForBitpack => 50,
            Mode::Alp => 9,
            Mode::DeltaBitpack => 51,
            Mode::AlpRd => 52,
            Mode::Dict => 19,
            Mode::Rle => 53,
            Mode::Pco => 54,
        }
    }

    /// The mode with wire number `id`.
    pub fn from_id(id: u8) -> (r: Result<Mode, Error>)
        ensures
            r == mode_of_id(id),
    {
        match id {
            0 => Ok(Mode::Pred),
            1 => Ok(Mode::Const),
            2 => Ok(Mode::Stride),
            3 => Ok(Mode::Xorz),
            5 => Ok(Mode::Raw),
            4 => Ok(Mode::Lz),
            11 => Ok(Mode::ByteTranspose),
            17 => Ok(Mode::FloatMult),
            7 => Ok(Mode::OrderedDelta),
            20 => Ok(Mode::Delta2),
            25 => Ok(Mode::Pred2),
            45 => Ok(Mode::DeltaDp),
            29 => Ok(Mode::PredRc),
            50 => Ok(Mode::ForBitpack),
            9 => Ok(Mode::Alp),
            51 => Ok(Mode::DeltaBitpack),
            52 => Ok(Mode::AlpRd),
            19 => Ok(Mode::Dict),
            53 => Ok(Mode::Rle),
            54 => Ok(Mode::Pco),
            other => Err(Error::UnknownMode(other)),
        }
    }
}

/// Every mode is found again from its wire number.
pub proof fn lemma_mode_roundtrip(m: Mode)
    ensures
        mode_of_id(m.id()) == Ok::<Mode, Error>(m),
{
}

/// A wire number that names a mode is that mode's number.
pub proof fn lemma_mode_id_unique(id: u8)
    ensures
        mode_of_id(id) matches Ok(m) ==> m.id() == id,
{
}

/// The label of a wire number, `"?"` when it is unused.
pub open spec fn mode_label(id: u8) -> &'static str {
    if id == 0 {
        "PRED"
    } else if id == 1 {
        "CONST"
    } else if id == 2 {
        "STRIDE"
    } else if id == 3 {
        "XORZ"
    } else if id == 4 {
        "LZ"
    } else if id == 5 {
        "RAW"
    } else if id == 6 {
        "FLOAT32"
    } else if id == 7 {
        "ORDERED_DELTA"
    } else if id == 8 {
        "FUZZY_STRIDE"
    } else if id == 9 {
        "ALP"
    } else if id == 10 {
        "TRAILING_ZERO_BP"
    } else if id == 11 {
        "BYTE_TRANSPOSE"
    } else if id == 13 {
        "XOR128"
    } else if id == 15 {
        "LSB_STRIP"
    } else if id == 16 {
        "LOOKBACK_DELTA"
    } else if id == 17 {
        "FLOAT_MULT"
    } else if id == 18 {
        "FCM_RLE"
    } else if id == 19 {
        "DICT"
    } else if id == 20 {
        "DELTA2"
    } else if id == 21 {
        "BITPLANE"
    } else if id == 22 {
        "INT_MULT"
    } else if id == 23 {
        "CONV1"
    } else if id == 24 {
        "PRED_TANS"
    } else if id == 25 {
        "PRED2"
    } else if id == 26 {
        "PRED_ADAPTIVE"
    } else if id == 27 {
        "VITERBI"
    } else if id == 28 {
        "DELTA_BINNED"
    } else if id == 29 {
        "PRED_RC"
    } else if id == 30 {
        "PRED_INTERLEAVED"
    } else if id == 31 {
        "BWT"
    } else if id == 32 {
        "LZ_DICT"
    } else if id == 33 {
        "CONV_N"
    } else if id == 34 {
        "SIGN_CONV"
    } else if id == 35 {
        "CONV_DOUBLE"
    } else if id == 36 {
        "MTF_LZ"
    } else if id == 37 {
        "CONV_DOUBLE_BP"
    } else if id == 38 {
        "CONV_N_BINNED"
    } else if id == 39 {
        "PRED_SIMD_INTERLEAVED"
    } else if id == 40 {
        "FUZZY_STRIDE_ANS"
    } else if id == 41 {
        "PAQ_MIXER"
    } else if id == 42 {
        "PAQ4_MIXER"
    } else if id == 43 {
        "BWT_MTF_TANS"
    } else if id == 44 {
        "PRED4"
    } else if id == 45 {
        "DELTA_DP_BINNED"
    } else if id == 46 {
        "CONV_N_DP_BINNED"
    } else if id == 47 {
        "ELF"
    } else if id == 48 {
        "LZ_SPLIT"
    } else if id == 49 {
        "BWT_MTF_RC"
    } else if id == 50 {
        "FOR_BITPACK"
    } else if id == 51 {
        "DELTA_BITPACK"
    } else if id == 52 {
        "ALP_RD"
    } else if id == 53 {
        "RLE"
    } else if id == 54 {
        "PCO"
    } else {
        "?"
    }
}

/// Human-readable name for a mode number, covering the reserved ones too.
/// Returns `"?"` for unused numbers.
pub fn mode_name(id: u8) -> (name: &'static str)
    ensures
        name == mode_label(id),
{
    match id {
        0 => "PRED",
        1 => "CONST",
        2 => "STRIDE",
        3 => "XORZ",
        4 => "LZ",
        5 => "RAW",
        6 => "FLOAT32",
        7 => "ORDERED_DELTA",
        8 => "FUZZY_STRIDE",
        9 => "ALP",
        10 => "TRAILING_ZERO_BP",
        11 => "BYTE_TRANSPOSE",
        13 => "XOR128",
        15 => "LSB_STRIP",
        16 => "LOOKBACK_DELTA",
        17 => "FLOAT_MULT",
        18 => "FCM_RLE",
        19 => "DICT",
        20 => "DELTA2",
        21 => "BITPLANE",
        22 => "INT_MULT",
        23 => "CONV1",
        24 => "PRED_TANS",
        25 => "PRED2",
        26 => "PRED_ADAPTIVE",
        27 => "VITERBI",
        28 => "DELTA_BINNED",
        29 => "PRED_RC",
        30 => "PRED_INTERLEAVED",
        31 => "BWT",
        32 => "LZ_DICT",
        33 => "CONV_N",
        34 => "SIGN_CONV",
        35 => "CONV_DOUBLE",
        36 => "MTF_LZ",
        37 => "CONV_DOUBLE_BP",
        38 => "CONV_N_BINNED",
        39 => "PRED_SIMD_INTERLEAVED",
        40 => "FUZZY_STRIDE_ANS",
        41 => "PAQ_MIXER",
        42 => "PAQ4_MIXER",
        43 => "BWT_MTF_TANS",
        44 => "PRED4",
        45 => "DELTA_DP_BINNED",
        46 => "CONV_N_DP_BINNED",
        47 => "ELF",
        48 => "LZ_SPLIT",
        49 => "BWT_MTF_RC",
        50 => "FOR_BITPACK",
        51 => "DELTA_BITPACK",
        52 => "ALP_RD",
        53 => "RLE",
        54 => "PCO",
        _ => "?",
    }
}

} // verus!
