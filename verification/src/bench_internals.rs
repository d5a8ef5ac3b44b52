//! Internal kernels, re-exported so that a benchmark harness can measure them.
//! Not a stable interface.

use vstd::prelude::*;
use crate::bitpack;
use crate::codecs::alp;
use crate::codecs::alp::SubPlan;
use crate::codecs::alp_rd;
use crate::codecs::delta_bitpack;
use crate::codecs::for_bitpack;
use crate::codecs::pred;
use crate::entropy::rans;
use crate::entropy::rc;
use crate::entropy::tans;
use crate::error;
use crate::error::Error;
use crate::hash;
use crate::lane::Lane;
use crate::transform;
use vstd::arithmetic::power2::pow2;

verus! {

/// Values in a bit-packing block.
pub const BITPACK_BLOCK: usize = 1024;

/// Fold the CRC32C hash over a block.
pub fn hash_fold_best(vals: &[u64]) -> (r: u32)
    ensures
        r == hash::hash_fold(vals@),
{
    hash::fold_hash(vals)
}

/// Fold the software CRC32C hash over a block.
pub fn hash_fold_sw(vals: &[u64]) -> (r: u32)
    ensures
        r == hash::hash_fold(vals@),
{
    hash::fold_hash(vals)
}

/// Range-code bytes.
pub fn rc_compress(bytes: &[u8]) -> (out: Vec<u8>)
    ensures
        out@ == rc::rc_image(bytes@),
        forall|max_len: nat|
            max_len >= bytes.len() ==> #[trigger] rc::rc_decoded(out@, max_len) == Ok::<_, Error>(
                bytes@,
            ),
{
    rc::compress_bytes(bytes)
}

/// Decode range-coded bytes.
pub fn rc_decompress(bytes: &[u8], max_len: usize) -> (r: Result<Vec<u8>, Error>)
    ensures
        error::viewed(r) == rc::rc_decoded(bytes@, max_len as nat),
{
    rc::decompress_bytes(bytes, max_len)
}

/// Code bytes with table ANS, `raw` being the rounded frequency of each symbol
/// that occurs.
pub fn tans_compress(bytes: &[u8], raw: &[u16]) -> (r: Option<Vec<u8>>)
    ensures
        r is None <==> bytes.len() == 0 || raw.len() != tans::symbols_of(bytes@).len()
            || tans::quantized(raw@) is None,
        r matches Some(out) ==> tans::is_tans_image(out@, bytes@, tans::quantized(raw@)->Some_0),
        r matches Some(out) ==> forall|max_len: nat|
            max_len >= bytes.len() ==> #[trigger] tans::tans_decoded(out@, max_len) == Ok::<
                _,
                Error,
            >(bytes@),
{
    tans::compress_bytes(bytes, raw)
}

/// Decode bytes coded with table ANS.
pub fn tans_decompress(bytes: &[u8], max_len: usize) -> (r: Result<Vec<u8>, Error>)
    ensures
        error::viewed(r) == tans::tans_decoded(bytes@, max_len as nat),
{
    tans::decompress_bytes(bytes, max_len)
}

/// Code bytes with the four-way interleaved rANS coder.
pub fn rans_compress(bytes: &[u8]) -> (r: Option<Vec<u8>>)
    ensures
        r is None <==> bytes.len() == 0,
        r matches Some(out) ==> out@ == rans::rans_image(bytes@),
        r matches Some(out) ==> forall|max_len: nat|
            max_len >= bytes.len() ==> #[trigger] rans::rans_decoded(out@, max_len) == Ok::<
                _,
                Error,
            >(bytes@),
{
    rans::compress_bytes(bytes)
}

/// Decode bytes of the rANS coder.
pub fn rans_decompress(bytes: &[u8], max_len: usize) -> (r: Result<Vec<u8>, Error>)
    ensures
        error::viewed(r) == rans::rans_decoded(bytes@, max_len as nat),
{
    rans::decompress_bytes(bytes, max_len)
}

/// Residuals of the FCM predictor over 64-bit words.
pub fn fcm_encode(vals: &[u64], predictor_log2: u8) -> (out: Vec<u8>)
    requires
        predictor_log2 < usize::BITS,
    ensures
        out@ == pred::residual_bytes(
            Lane::W64,
            pred::Flavor::Fcm,
            vals@,
            pred::fresh(predictor_log2),
            predictor_log2,
        ),
        pred::fcm_decoded(Lane::W64, out@, vals@.len(), predictor_log2) == Ok::<_, Error>(vals@),
{
    pred::encode(Lane::W64, vals, predictor_log2)
}

/// Residuals of the DFCM predictor over 64-bit words.
pub fn dfcm_encode(vals: &[u64], predictor_log2: u8) -> (out: Vec<u8>)
    requires
        predictor_log2 < usize::BITS,
    ensures
        out@ == pred::residual_bytes(
            Lane::W64,
            pred::Flavor::Dfcm,
            vals@,
            pred::fresh(predictor_log2),
            predictor_log2,
        ),
        pred::dfcm_decoded(Lane::W64, out@, vals@.len(), predictor_log2) == Ok::<_, Error>(vals@),
{
    pred::dfcm_encode(Lane::W64, vals, predictor_log2)
}

/// Transpose the bytes of `n` eight-byte values.
pub fn byte_transpose(src: &[u8], n: usize, dst: &mut [u8])
    requires
        src.len() == n * 8,
        old(dst)@.len() == n * 8,
    ensures
        final(dst)@ == transform::transposed(src@, n as nat, 8),
{
    transform::byte_transpose(src, n, 8, dst);
}

/// The dictionary codes and the right parts that ALP-RD stores.
pub fn alp_rd_streams(vals: &[u64]) -> (r: Option<(Vec<u64>, Vec<u64>)>)
    ensures
        r is None <==> vals.len() == 0 || alp_rd::chosen_cut(Lane::W64, vals@) is None,
        r matches Some((codes, rights)) ==> {
            let right = (64 - alp_rd::chosen_cut(Lane::W64, vals@)->Some_0) as u32;
            let d = alp_rd::top_dict_of(alp_rd::lefts_of(vals@, right));
            &&& codes@ == alp_rd::left_codes(vals@, right, d)
            &&& rights@ == alp_rd::rights_of(vals@, right)
        },
{
    alp_rd::debug_streams(Lane::W64, vals)
}

/// The ALP payload of 64-bit words, given the plan of each sub-block.
pub fn alp_encode(vals: &[u64], plans: &[SubPlan]) -> (r: Option<Vec<u8>>)
    ensures
        r is None <==> vals.len() == 0,
        r matches Some(out) ==> out@ == alp::alp_image(Lane::W64, vals@, plans@),
        r matches Some(out) ==> alp::alp_parsed(Lane::W64, out@, vals@.len()) == Ok::<_, Error>(
            alp::planned_parts(Lane::W64, vals@, plans@),
        ),
        r matches Some(out) ==> forall|eval: spec_fn(u64, u8, u8) -> u64|
            alp::plans_evaluated(plans@, eval) ==> #[trigger] alp::alp_decoded(
                Lane::W64,
                out@,
                vals@.len(),
                eval,
            ) == Ok::<_, Error>(vals@),
{
    alp::encode(Lane::W64, vals, plans)
}

/// Frame-of-reference packing of unsigned 64-bit words.
pub fn for_bitpack_encode(vals: &[u64]) -> (out: Vec<u8>)
    ensures
        out@ == for_bitpack::for_image(Lane::W64, false, vals@),
        for_bitpack::for_decoded(Lane::W64, out@, vals@.len()) == Ok::<_, Error>(vals@),
{
    for_bitpack::encode(Lane::W64, vals, false)
}

/// Undo [`for_bitpack_encode`].
pub fn for_bitpack_decode(payload: &[u8], n: usize) -> (r: Result<Vec<u64>, Error>)
    ensures
        error::viewed(r) == for_bitpack::for_decoded(Lane::W64, payload@, n as nat),
{
    for_bitpack::decode(Lane::W64, payload, n)
}

/// Delta packing of 64-bit words.
pub fn delta_bitpack_encode(vals: &[u64]) -> (out: Vec<u8>)
    ensures
        out@ == delta_bitpack::delta_image(Lane::W64, vals@),
        delta_bitpack::delta_decoded(Lane::W64, out@, vals@.len()) == Ok::<_, Error>(vals@),
{
    delta_bitpack::encode(Lane::W64, vals)
}

/// Undo [`delta_bitpack_encode`].
pub fn delta_bitpack_decode(payload: &[u8], n: usize) -> (r: Result<Vec<u64>, Error>)
    ensures
        error::viewed(r) == delta_bitpack::delta_decoded(Lane::W64, payload@, n as nat),
{
    delta_bitpack::decode(Lane::W64, payload, n)
}

/// Pack 1024 values, keeping the low `width` bits of each.
pub fn bitpack(values: &[u32; 1024], width: u32, out: &mut [u32])
    requires
        width <= 32,
        old(out)@.len() == 32 * width,
    ensures
        final(out)@.len() == 32 * width,
        bitpack::widened(final(out)@) == bitpack::packed_words(
            bitpack::widened(values@),
            32,
            width as nat,
        ),
        bitpack::packed_ok(bitpack::widened(final(out)@), 32, width as nat),
        forall|i: int|
            0 <= i < 1024 ==> #[trigger] bitpack::packed_value(
                bitpack::widened(final(out)@),
                32,
                width as nat,
                i,
            ) == values@[i] as nat % pow2(width as nat),
{
    bitpack::pack(values, width, out);
}

/// Unpack 1024 values of `width` bits.
pub fn bitunpack(packed: &[u32], width: u32, out: &mut [u32; 1024])
    requires
        width <= 32,
        packed.len() == 32 * width,
    ensures
        forall|i: int|
            0 <= i < 1024 ==> #[trigger] final(out)@[i] == bitpack::packed_value(
                bitpack::widened(packed@),
                32,
                width as nat,
                i,
            ),
{
    bitpack::unpack(packed, width, out);
}

} // verus!
