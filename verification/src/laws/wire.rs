//! Where each byte of a stream stands.

use vstd::prelude::*;
use crate::bytes;
use crate::codecs::transpose;
use crate::config::Config;
use crate::decoder::FrameView;
use crate::dtype;
use crate::dtype::{DType, Family};
use crate::encoder;
use crate::encoder::FloatOffer;
use crate::error::Error;
use crate::lane;
use crate::lane::Lane;
use crate::laws::bitmaps::septets;
use crate::mode;
use crate::mode::Mode;
use crate::varint;

verus! {

/// Byte `k` of a number, the least significant first.
pub open spec fn byte_of(v: nat, k: nat) -> nat
    decreases k,
{
    if k == 0 {
        v % 256
    } else {
        byte_of(v / 256, (k - 1) as nat)
    }
}

/// Numbers of fixed width are stored with the least significant byte first.
pub proof fn lemma_little_endian(v: nat, n: nat, k: nat)
    requires
        k < n,
    ensures
        bytes::le_bytes(v, n).len() == n,
        bytes::le_bytes(v, n)[k as int] == byte_of(v, k),
    decreases n,
{
    bytes::lemma_le_bytes_len(v, n);
    bytes::lemma_le_bytes_len(v / 256, (n - 1) as nat);
    if k > 0 {
        lemma_little_endian(v / 256, (n - 1) as nat, (k - 1) as nat);
    }
}

/// A verbatim block is its words one after the other, each with the least significant byte
/// first.
pub proof fn lemma_verbatim(lane: Lane, vals: Seq<u64>, i: int, k: nat)
    requires
        0 <= i < vals.len(),
        k < lane.bytes(),
    ensures
        lane.words_bytes(vals).len() == vals.len() * lane.bytes(),
        lane.words_bytes(vals)[i * lane.bytes() + k] == byte_of(vals[i] as nat, k),
{
    let w = lane.bytes() as int;
    lane::lemma_words_bytes_len(lane, vals);
    lane::lemma_words_bytes_at(lane, vals, i);
    lemma_little_endian(vals[i] as nat, w as nat, k);
    let s = lane.words_bytes(vals);
    assert(s.subrange(i * w, i * w + w)[k as int] == s[i * w + k]);
}

/// Byte planes: plane `k` holds byte `k` of every value, in order.
pub proof fn lemma_planes(lane: Lane, vals: Seq<u64>, i: int, k: nat)
    requires
        0 <= i < vals.len(),
        k < lane.bytes(),
    ensures
        transpose::planes(lane, vals).len() == vals.len() * lane.bytes(),
        transpose::planes(lane, vals)[k * vals.len() + i] == byte_of(vals[i] as nat, k),
{
    let (n, w) = (vals.len() as int, lane.bytes() as int);
    let at = k * n + i;
    assert(0 <= at < n * w) by (nonlinear_arith)
        requires
            at == k * n + i,
            0 <= i < n,
            0 <= k < w,
    ;
    vstd::arithmetic::div_mod::lemma_fundamental_div_mod_converse(at, n, k as int, i);
    lemma_verbatim(lane, vals, i, k);
}

/// Seven bits of a number, group `k` from the least significant on.
pub open spec fn septet_of(v: nat, k: nat) -> nat
    decreases k,
{
    if k == 0 {
        v % 128
    } else {
        septet_of(v / 128, (k - 1) as nat)
    }
}

/// A varint holds seven bits a byte, the least significant first, and marks every byte but
/// the last.
pub proof fn lemma_varint(v: nat, k: nat)
    requires
        k < septets(v),
    ensures
        varint::varint_bytes(v).len() == septets(v),
        varint::varint_bytes(v)[k as int] == septet_of(v, k) + (if k + 1 < septets(v) {
            128nat
        } else {
            0nat
        }),
    decreases v,
{
    if v >= 128 {
        lemma_varint(v / 128, 0);
        if k > 0 {
            lemma_varint(v / 128, (k - 1) as nat);
        }
    }
}

/// A frame: the mode, the number of values and the length of the payload in four bytes
/// each, and the payload.
pub proof fn lemma_frame(f: FrameView, k: nat)
    requires
        k < 4,
    ensures
        ({
            let s = encoder::frame_image(f);
            &&& s.len() == 9 + f.payload.len()
            &&& s[0] == f.mode.id()
            &&& s[1 + k as int] == byte_of(f.n, k)
            &&& s[5 + k as int] == byte_of(f.payload.len(), k)
            &&& s.skip(9) == f.payload
        }),
{
    lemma_little_endian(f.n, 4, k);
    lemma_little_endian(f.payload.len(), 4, k);
    assert(encoder::frame_image(f).skip(9) =~= f.payload);
}

/// The numbers of the column types.
pub open spec fn type_number(t: DType) -> u8 {
    match t {
        DType::F64 => 0,
        DType::I64 => 1,
        DType::U64 => 2,
        DType::I32 => 3,
        DType::U32 => 4,
        DType::F32 => 5,
        DType::Decimal128 => 6,
        DType::Decimal256 => 7,
    }
}

/// The numbers of the modes.
pub open spec fn mode_number(m: Mode) -> u8 {
    match m {
        Mode::Pred => 0,
        Mode::Const => 1,
        Mode::Stride => 2,
        Mode::Xorz => 3,
        Mode::Lz => 4,
        Mode::Raw => 5,
        Mode::OrderedDelta => 7,
        Mode::Alp => 9,
        Mode::ByteTranspose => 11,
        Mode::FloatMult => 17,
        Mode::Dict => 19,
        Mode::Delta2 => 20,
        Mode::Pred2 => 25,
        Mode::PredRc => 29,
        Mode::DeltaDp => 45,
        Mode::ForBitpack => 50,
        Mode::DeltaBitpack => 51,
        Mode::AlpRd => 52,
        Mode::Rle => 53,
        Mode::Pco => 54,
    }
}

/// Types and modes are written by their numbers, and every other number is refused.
pub proof fn lemma_numbers(t: DType, m: Mode, id: u8)
    ensures
        t.wire_id() == type_number(t),
        dtype::dtype_of_wire(type_number(t)) == Ok::<DType, Error>(t),
        id > 7 ==> dtype::dtype_of_wire(id) == Err::<DType, Error>(Error::UnsupportedDType(id)),
        m.id() == mode_number(m),
        mode::mode_of_id(mode_number(m)) == Ok::<Mode, Error>(m),
        (forall|x: Mode| #[trigger] mode_number(x) != id) ==> mode::mode_of_id(id) == Err::<
            Mode,
            Error,
        >(Error::UnknownMode(id)),
{
    if mode::mode_of_id(id) is Ok {
        let x = mode::mode_of_id(id)->Ok_0;
        assert(mode_number(x) == id);
    }
}

/// Which types are floats, which have a sign, and how wide they are.
pub proof fn lemma_types(t: DType)
    ensures
        t.family() == (if t is F64 || t is F32 {
            Family::Float
        } else {
            Family::Int
        }),
        t.signed() <==> t is I64 || t is I32,
        t.lane() == (if t is I32 || t is U32 || t is F32 {
            Lane::W32
        } else {
            Lane::W64
        }),
        t.lane().bytes() * 8 == t.lane().bits(),
{
}

/// The header of a stream: four letters, the version, whether there are nulls, the
/// predictor table size, the type, and the number of values in eight bytes.
pub proof fn lemma_header(
    out: Seq<u8>,
    dtype: DType,
    vals: Seq<u64>,
    n_values: usize,
    bitmap: Option<&[u8]>,
    cfg: Config,
    offers: Seq<Vec<FloatOffer>>,
    k: nat,
)
    requires
        encoder::won_stream(out, dtype, vals, n_values, bitmap, cfg, offers),
        k < 8,
    ensures
        out.len() >= 16,
        out[0] == 0x46 && out[1] == 0x43 && out[2] == 0x52 && out[3] == 0x31,
        out[4] == 3,
        out[5] == (if bitmap is Some {
            1u8
        } else {
            0u8
        }),
        out[6] == cfg.spec_predictor_log2(),
        out[7] == type_number(dtype),
        out[8 + k as int] == byte_of(n_values as nat, k),
{
    lemma_little_endian(n_values as nat, 8, k);
}

} // verus!
