//! In what order the parts of a payload stand.

use vstd::prelude::*;
use vstd::arithmetic::power2::*;
use crate::bitio;
use crate::bytes;
use crate::codecs::lz::Token;
use crate::codecs::{delta_bitpack, dict, for_bitpack, lz, rle};
use crate::decimal;
use crate::dtype;
use crate::dtype::DType;
use crate::entropy;
use crate::error::Error;
use crate::lane;
use crate::lane::Lane;
use crate::laws::bitmaps;
use crate::laws::packing;
use crate::laws::wire;
use crate::varint;

verus! {

/// `v` is among `vals` and none of them is less, as numbers with or without sign.
pub open spec fn is_least(lane: Lane, signed: bool, vals: Seq<u64>, v: u64) -> bool {
    &&& vals.contains(v)
    &&& forall|i: int|
        0 <= i < vals.len() ==> packing::number(lane, signed, v) <= packing::number(
            lane,
            signed,
            #[trigger] vals[i],
        )
}

proof fn lemma_least(lane: Lane, signed: bool, vals: Seq<u64>)
    requires
        vals.len() > 0,
        lane.fits_all(vals),
    ensures
        is_least(lane, signed, vals, for_bitpack::least(lane, signed, vals)),
    decreases vals.len(),
{
    let v = for_bitpack::least(lane, signed, vals);
    if vals.len() == 1 {
        assert(vals[0] == v);
    } else {
        let front = vals.drop_last();
        assert forall|i: int| 0 <= i < front.len() implies lane.fits(#[trigger] front[i]) by {
            assert(lane.fits(vals[i]));
        }
        lemma_least(lane, signed, front);
        let m = for_bitpack::least(lane, signed, front);
        let k = choose|k: int| 0 <= k < front.len() && front[k] == m;
        assert(vals[k] == m && lane.fits(vals[k]));
        assert(lane.fits(vals[vals.len() - 1]));
        assert(vals[vals.len() - 1] == vals.last());
        assert forall|i: int| 0 <= i < vals.len() implies packing::number(lane, signed, v)
            <= packing::number(lane, signed, #[trigger] vals[i]) by {
            assert(lane.fits(vals[i]));
            if i < front.len() {
                assert(front[i] == vals[i]);
            }
        }
    }
}

/// Packed values stand behind their number: for the first 1024 of them a byte that tells
/// their width, the least of them as a word, and 128 bytes for each bit of width.
pub proof fn lemma_packed_front(lane: Lane, signed: bool, vals: Seq<u64>, k: nat) -> (least: u64)
    requires
        lane.fits_all(vals),
        vals.len() > 0,
        k < lane.bytes(),
    ensures
        ({
            let out = for_bitpack::for_image(lane, signed, vals);
            let first = vals.take(
                if vals.len() < 1024 {
                    vals.len() as int
                } else {
                    1024
                },
            );
            let at = bitmaps::septets(vals.len()) as int;
            &&& out.take(at) == varint::varint_bytes(vals.len())
            &&& is_least(lane, signed, first, least)
            &&& out.len() >= at + 1 + lane.bytes() + 128 * out[at]
            &&& out[at + 1 + k] == wire::byte_of(least as nat, k)
        }),
{
    reveal(for_bitpack::for_image);
    reveal(for_bitpack::sub_image);
    let out = for_bitpack::for_image(lane, signed, vals);
    let count = for_bitpack::sub_count(vals.len()) as int;
    let first = vals.take(count);
    assert forall|i: int| 0 <= i < first.len() implies lane.fits(#[trigger] first[i]) by {
        assert(lane.fits(vals[i]));
    }
    lemma_least(lane, signed, first);
    let least = for_bitpack::least(lane, signed, first);
    bitmaps::lemma_septets(vals.len());
    wire::lemma_little_endian(least as nat, lane.bytes() as nat, k);
    let at = bitmaps::septets(vals.len()) as int;
    assert(out.take(at) =~= varint::varint_bytes(vals.len()));
    for_bitpack::lemma_width_in_lane(lane, signed, first);
    let width = for_bitpack::sub_width(lane, signed, first);
    let kernel = for_bitpack::kernel(width as u32);
    let words = crate::bitpack::packed_words(
        for_bitpack::offsets(lane, least, first),
        kernel.bits() as nat,
        width,
    );
    lane::lemma_words_bytes_len(kernel, words);
    assert(words.len() * kernel.bytes() == 128 * width) by (nonlinear_arith)
        requires
            (words.len() == 32 * width && kernel.bytes() == 4) || (words.len() == 16 * width
                && kernel.bytes() == 8),
    ;
    assert(out[at] == width);
    least
}

/// Packed differences stand behind the first value as a word.
pub proof fn lemma_differences_front(lane: Lane, vals: Seq<u64>, k: nat)
    requires
        vals.len() > 0,
        k < lane.bytes(),
    ensures
        delta_bitpack::delta_image(lane, vals)[k as int] == wire::byte_of(vals[0] as nat, k),
        delta_bitpack::delta_image(lane, vals).skip(lane.bytes() as int) == for_bitpack::for_image(
            lane,
            false,
            delta_bitpack::deltas_of(lane, vals, vals[0]),
        ),
{
    let out = delta_bitpack::delta_image(lane, vals);
    wire::lemma_little_endian(vals[0] as nat, lane.bytes() as nat, k);
    assert(out.skip(lane.bytes() as int) =~= for_bitpack::for_image(
        lane,
        false,
        delta_bitpack::deltas_of(lane, vals, vals[0]),
    ));
}

/// Runs stand behind their number: their values as words, and then their lengths packed.
pub proof fn lemma_runs_front(lane: Lane, vals: Seq<u64>)
    ensures
        ({
            let (values, lens) = rle::runs_of(vals);
            let out = rle::rle_image(lane, vals);
            let at = bitmaps::septets(values.len()) as int;
            let end = at + values.len() * lane.bytes();
            &&& out.take(at) == varint::varint_bytes(values.len())
            &&& out.subrange(at, end) == lane.words_bytes(values)
            &&& out.skip(end) == for_bitpack::for_image(Lane::W64, false, lens)
        }),
{
    let (values, lens) = rle::runs_of(vals);
    let out = rle::rle_image(lane, vals);
    bitmaps::lemma_septets(values.len());
    lane::lemma_words_bytes_len(lane, values);
    let at = bitmaps::septets(values.len()) as int;
    let end = at + values.len() * lane.bytes();
    assert(out.take(at) =~= varint::varint_bytes(values.len()));
    assert(out.subrange(at, end) =~= lane.words_bytes(values));
    assert(out.skip(end) =~= for_bitpack::for_image(Lane::W64, false, lens));
}

/// Neighbouring runs have different values, the last run has the last value, and no run is
/// empty.
pub proof fn lemma_runs(vals: Seq<u64>)
    requires
        vals.len() <= u64::MAX,
    ensures
        ({
            let (values, lens) = rle::runs_of(vals);
            &&& values.len() == lens.len()
            &&& vals.len() > 0 ==> values.len() > 0 && values.last() == vals.last()
            &&& forall|i: int| 0 < i < values.len() ==> #[trigger] values[i] != values[i - 1]
            &&& forall|i: int| 0 <= i < lens.len() ==> 1 <= #[trigger] lens[i] <= vals.len()
        }),
    decreases vals.len(),
{
    if vals.len() > 0 {
        let front = vals.drop_last();
        lemma_runs(front);
        if vals.len() > 1 {
            assert(front.last() == vals[vals.len() - 2]);
        }
    }
}

/// A dictionary stands behind its size, told by the form of its values and their length;
/// the codes follow. A code is the place of its value among the distinct ones in order.
pub proof fn lemma_dictionary_front(
    lane: Lane,
    vals: Seq<u64>,
    table: Seq<u64>,
    entropy: bool,
    lambda: u64,
    cascade: bool,
    i: int,
)
    requires
        dict::is_dictionary(table, vals),
        table.len() <= u64::MAX,
        0 <= i < vals.len(),
    ensures
        ({
            let out = dict::dict_image(lane, vals, entropy, lambda, cascade);
            let (form, blob) = dict::values_image(lane, table, entropy, lambda, cascade);
            let codes = dict::codes_of(table, vals);
            &&& out == varint::varint_bytes(table.len()) + seq![form] + varint::varint_bytes(
                blob.len(),
            ) + blob + dict::codes_image(lane, codes, table.len(), entropy, lambda, cascade)
            &&& codes[i] < table.len()
            &&& table[codes[i] as int] == vals[i]
        }),
{
    dict::lemma_dictionary(table, vals);
    let (form, blob) = dict::values_image(lane, table, entropy, lambda, cascade);
    let codes = dict::codes_of(table, vals);
    let out = dict::dict_image(lane, vals, entropy, lambda, cascade);
    assert(out =~= varint::varint_bytes(table.len()) + seq![form] + varint::varint_bytes(blob.len())
        + blob + dict::codes_image(lane, codes, table.len(), entropy, lambda, cascade));
    assert(vals.contains(vals[i]));
    assert(table.contains(vals[i]));
}

/// Codes in byte planes: one plane of them where there are up to 256 values, else the lower
/// bytes and then the upper ones.
pub proof fn lemma_code_planes(codes: Seq<u64>, card: nat, lambda: u64, cascade: bool)
    ensures
        ({
            let low = Seq::new(codes.len(), |i: int| (codes[i] % 256) as u8);
            let high = Seq::new(codes.len(), |i: int| (codes[i] / 256 % 256) as u8);
            let (a, b) = (
                entropy::residuals_coded(low, lambda, cascade),
                entropy::residuals_coded(high, lambda, cascade),
            );
            dict::planes_image(codes, card, lambda, cascade) == (if card <= 256 {
                seq![1u8, 1u8] + varint::varint_bytes(a.len()) + a
            } else {
                seq![1u8, 2u8] + varint::varint_bytes(a.len()) + a + varint::varint_bytes(b.len())
                    + b
            })
        }),
{
    let low = Seq::new(codes.len(), |i: int| (codes[i] % 256) as u8);
    let high = Seq::new(codes.len(), |i: int| (codes[i] / 256 % 256) as u8);
    assert(dict::plane_of(codes, 0) =~= low);
    assert(dict::plane_of(codes, 1) =~= high);
    let (a, b) = (
        entropy::residuals_coded(low, lambda, cascade),
        entropy::residuals_coded(high, lambda, cascade),
    );
    if card <= 256 {
        assert(dict::planes_image(codes, card, lambda, cascade) =~= seq![1u8, 1u8]
            + varint::varint_bytes(a.len()) + a);
    } else {
        assert(dict::planes_image(codes, card, lambda, cascade) =~= seq![1u8, 2u8]
            + varint::varint_bytes(a.len()) + a + varint::varint_bytes(b.len()) + b);
    }
}

/// The tokens of an LZ stream stand in groups of eight behind a control byte, whose highest
/// bit tells of the first: set for a match, clear for a byte.
pub proof fn lemma_control_byte(ts: Seq<Token>, a: int, k: int)
    requires
        0 <= a,
        a + k < ts.len(),
        0 <= k < 8,
    ensures
        (lz::group_ctrl(ts, a) as nat / pow2((7 - k) as nat)) % 2 == 1 <==> ts[a + k] is Match,
        lz::group_bytes(ts, a)[0] == lz::group_ctrl(ts, a),
{
    let flags = lz::group_flags(ts, a);
    bitio::lemma_value_roundtrip(flags);
    let v = bitio::bits_value(flags);
    lemma2_to64();
    bitio::lemma_bits_index(v, 8, k);
}

/// A match is written as how far back it reaches and by how much it is longer than four; a
/// byte as it is.
pub proof fn lemma_token_bytes(b: u8, off: usize, len: usize)
    requires
        len >= 4,
    ensures
        lz::token_bytes(Token::Lit(b)) == seq![b],
        lz::token_bytes(Token::Match { off, len }) == varint::varint_bytes(off as nat)
            + varint::varint_bytes((len - 4) as nat),
{
}

/// The front of a decimal container: the letters, the version, its flags, a zero, the type,
/// the number of values, the scale in two's complement, the precision, the number of limbs
/// and the least.
pub proof fn lemma_container_front(
    dtype: DType,
    n: nat,
    nulls: bool,
    scale: i8,
    precision: u8,
    limbs: nat,
    min: Seq<u8>,
    k: nat,
)
    requires
        k < 8,
        limbs <= 4,
    ensures
        ({
            let out = decimal::container_front(dtype, n, nulls, scale, precision, limbs, min);
            &&& out.len() == 19 + min.len()
            &&& out[0] == 0x46 && out[1] == 0x43 && out[2] == 0x52 && out[3] == 0x31
            &&& out[4] == 3
            &&& out[5] == (if nulls {
                3u8
            } else {
                2u8
            })
            &&& out[6] == 0
            &&& out[7] == wire::type_number(dtype)
            &&& out[8 + k as int] == wire::byte_of(n, k)
            &&& out[16] == (if scale < 0 {
                256 + scale
            } else {
                scale as int
            })
            &&& out[17] == precision
            &&& out[18] == limbs
            &&& out.skip(19) == min
        }),
{
    let out = decimal::container_front(dtype, n, nulls, scale, precision, limbs, min);
    wire::lemma_little_endian(n, 8, k);
    bytes::lemma_le_bytes_len(n, 8);
    assert(out.skip(19) =~= min);
}

/// What is wrong with the front of a container is told in this order: too short, not the
/// letters, a version out of range, no decimals, an unknown type, another type, no limbs or
/// more than four, and too short for the least.
pub proof fn lemma_container_refused(src: Seq<u8>, expect: DType, floats: Seq<Seq<u64>>)
    ensures
        ({
            let r = decimal::container_parse(src, expect, floats);
            let long = src.len() >= 19;
            let lettered = long && src.take(4) == seq![0x46u8, 0x43u8, 0x52u8, 0x31u8];
            let versioned = lettered && (src[4] == 2 || src[4] == 3);
            let flagged = versioned && (src[5] / 2) % 2 == 1;
            let known = flagged && src[7] <= 7;
            let same = known && src[7] == wire::type_number(expect);
            &&& !long ==> r == Err::<decimal::ContainerView, Error>(Error::Truncated)
            &&& long && !lettered ==> r == Err::<decimal::ContainerView, Error>(Error::BadMagic)
            &&& lettered && !versioned ==> r == Err::<decimal::ContainerView, Error>(
                Error::UnsupportedVersion(src[4]),
            )
            &&& versioned && !flagged ==> r == Err::<decimal::ContainerView, Error>(
                Error::CorruptPayload("not a decimal container"),
            )
            &&& flagged && !known ==> r == Err::<decimal::ContainerView, Error>(
                Error::UnsupportedDType(src[7]),
            )
            &&& known && !same ==> r == Err::<decimal::ContainerView, Error>(Error::DTypeMismatch)
            &&& same && bytes::le_value(src.subrange(8, 16)) <= usize::MAX && (src[18] == 0
                || src[18] > 4) ==> r == Err::<decimal::ContainerView, Error>(
                Error::CorruptPayload("decimal limb count"),
            )
            &&& same && bytes::le_value(src.subrange(8, 16)) <= usize::MAX && 1 <= src[18] <= 4
                && src.len() < 19 + 8 * src[18] ==> r == Err::<decimal::ContainerView, Error>(
                Error::Truncated,
            )
        }),
{
    reveal(decimal::container_parse);
    wire::lemma_numbers(expect, crate::mode::Mode::Raw, src[7]);
    if let Ok(t) = dtype::dtype_of_wire(src[7]) {
        wire::lemma_numbers(t, crate::mode::Mode::Raw, src[7]);
    }
}

} // verus!
