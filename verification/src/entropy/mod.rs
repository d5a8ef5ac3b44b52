//! Entropy coders shared by the residual-coding modes.
//!
//! * [`rc`]: binary range coder with an adaptive order-1 byte model. Best ratio,
//!   slow decode.
//! * [`rans`]: interleaved order-0 rANS. Fast decode.
//! * [`tans`]: table ANS, decoded but no longer chosen.
//!
//! [`code_residuals`] picks a coder for a residual stream and tags the choice in
//! a leading byte, so that the predictor modes need one mode number each.

pub mod rans;
pub mod rc;
pub mod tans;

use vstd::prelude::*;
use crate::bytes::tail;
use crate::codecs::lz;
use crate::codecs::lz::{lz_compress, lz_decompress};
use crate::error;
use crate::error::Error;
use crate::varint;

verus! {

/// Tag of a range-coded stream.
pub const TAG_RC: u8 = 0;

/// Tag of a tANS-coded stream.
pub const TAG_TANS: u8 = 1;

/// Tag of a rANS-coded stream.
pub const TAG_RANS: u8 = 2;

/// Tag of a cascade: the residual was LZ-compressed, then the LZ stream
/// entropy-coded. `varint(residual length)` and the tagged inner stream follow.
pub const TAG_LZ: u8 = 3;

/// Decode-cost weight of the range coder.
pub const W_RC: u64 = 30;

/// Decode-cost weight of rANS.
pub const W_RANS: u64 = 3;

/// A selection weight at or above this keeps the entropy stage rANS-only, for
/// fast decode.
pub const RC_LAMBDA_CUTOFF: u64 = 2;

/// The bytes coded by a tagged stream without a cascade.
pub open spec fn entropy_decoded(payload: Seq<u8>, max_len: nat) -> Result<Seq<u8>, Error> {
    if payload.len() == 0 {
        Err(Error::Truncated)
    } else if payload[0] == TAG_RC {
        rc::rc_decoded(payload.drop_first(), max_len)
    } else if payload[0] == TAG_TANS {
        tans::tans_decoded(payload.drop_first(), max_len)
    } else if payload[0] == TAG_RANS {
        rans::rans_decoded(payload.drop_first(), max_len)
    } else {
        Err(Error::CorruptPayload("unknown entropy tag"))
    }
}

/// The longest LZ stream accepted for a residual of `len` bytes.
pub open spec fn lz_bound(len: nat) -> nat {
    if 2 * len + 64 <= usize::MAX {
        2 * len + 64
    } else {
        usize::MAX as nat
    }
}

/// The residual stream coded by `payload`, at most `max_len` bytes of it.
#[verifier::opaque]
pub open spec fn residuals_decoded(payload: Seq<u8>, max_len: nat) -> Result<Seq<u8>, Error> {
    if payload.len() > 0 && payload[0] == TAG_LZ {
        match varint::varint_parse(payload.drop_first()) {
            Err(e) => Err(e),
            Ok((len, rest)) => if len > max_len {
                Err(Error::CorruptPayload("lz cascade length"))
            } else {
                match entropy_decoded(rest, lz_bound(len as nat)) {
                    Err(e) => Err(e),
                    Ok(stream) => lz::lz_decoded(stream, len as nat),
                }
            },
        }
    } else {
        entropy_decoded(payload, max_len)
    }
}

/// A coded stream behind its tag.
fn tagged(tag: u8, coded: &[u8]) -> (out: Vec<u8>)
    ensures
        out@ == seq![tag] + coded@,
        out@[0] == tag,
        out@.drop_first() == coded@,
        out.len() == coded.len() + 1,
{
    let mut out: Vec<u8> = Vec::new();
    out.push(tag);
    out.extend_from_slice(coded);
    proof {
        assert(out@ =~= seq![tag] + coded@);
        assert(out@.drop_first() =~= coded@);
    }
    out
}

/// The decode cost of a coder on `len` bytes, in bytes of output.
fn penalty(lambda: u64, weight: u64, len: usize) -> (p: u128)
    requires
        lambda < RC_LAMBDA_CUTOFF,
        weight <= W_RC,
    ensures
        p == (lambda * weight * len) / 256,
        p <= 60 * len,
{
    let each: u64 = lambda * weight;
    assert(each <= 60) by (nonlinear_arith)
        requires
            each == lambda * weight,
            lambda < 2,
            weight <= 30,
    ;
    assert(each * len <= 60 * len) by (nonlinear_arith)
        requires
            each <= 60,
    ;
    (each as u128 * len as u128) / 256
}

/// The coded form of `bytes`: rANS at or above [`RC_LAMBDA_CUTOFF`], the lesser of
/// size plus weighted decode cost below, the range coder where rANS does not apply.
#[verifier::opaque]
pub open spec fn picked(bytes: Seq<u8>, lambda: u64) -> Seq<u8> {
    let (n, slow, fast) = (bytes.len(), rc::rc_image(bytes), rans::rans_image(bytes));
    if n > 0 && (lambda >= RC_LAMBDA_CUTOFF || fast.len() + (lambda * W_RANS * n) / 256
        < slow.len() + (lambda * W_RC * n) / 256) {
        seq![TAG_RANS] + fast
    } else {
        seq![TAG_RC] + slow
    }
}

/// The cascade of a residual of `len` bytes around the coded LZ stream `inner`.
pub open spec fn cascade(len: nat, inner: Seq<u8>) -> Seq<u8> {
    seq![TAG_LZ] + varint::varint_bytes(len) + inner
}

/// The coded form of a residual stream: through the LZ cascade where that is
/// allowed, the LZ stream is shorter than the residual, and the cascade strictly
/// smaller.
pub open spec fn residuals_coded(residuals: Seq<u8>, lambda: u64, allow_lz: bool) -> Seq<u8> {
    let basic = picked(residuals, lambda);
    let stream = lz::lz_image(residuals);
    let longer = cascade(residuals.len(), picked(stream, lambda));
    if allow_lz && residuals.len() > 64 && stream.len() < residuals.len() && longer.len()
        < basic.len() {
        longer
    } else {
        basic
    }
}

/// Entropy-code `bytes`. At or above [`RC_LAMBDA_CUTOFF`] rANS is taken whenever
/// it applies; below, the range coder competes by size plus weighted decode
/// cost. Never emits [`TAG_LZ`].
pub fn entropy_pick(bytes: &[u8], lambda: u64) -> (out: Vec<u8>)
    ensures
        forall|max_len: nat|
            max_len >= bytes.len() ==> #[trigger] entropy_decoded(out@, max_len) == Ok::<_, Error>(
                bytes@,
            ),
        out.len() > 0,
        out@[0] == TAG_RC || out@[0] == TAG_RANS,
        lambda >= RC_LAMBDA_CUTOFF && bytes.len() > 0 ==> out@[0] == TAG_RANS,
        out@ == picked(bytes@, lambda),
{
    reveal(picked);
    match rans::compress_bytes(bytes) {
        None => {
            let slow = rc::compress_bytes(bytes);
            tagged(TAG_RC, &slow)
        },
        Some(fast) => {
            if lambda >= RC_LAMBDA_CUTOFF {
                return tagged(TAG_RANS, &fast);
            }
            let slow = rc::compress_bytes(bytes);
            let slow_score: u128 = slow.len() as u128 + penalty(lambda, W_RC, bytes.len());
            let fast_score: u128 = fast.len() as u128 + penalty(lambda, W_RANS, bytes.len());
            if fast_score < slow_score {
                tagged(TAG_RANS, &fast)
            } else {
                tagged(TAG_RC, &slow)
            }
        },
    }
}

/// Entropy-code a residual stream, through the LZ cascade where that is allowed
/// and strictly smaller.
pub fn code_residuals(residuals: &[u8], lambda: u64, allow_lz: bool) -> (out: Vec<u8>)
    ensures
        forall|max_len: nat|
            max_len >= residuals.len() ==> #[trigger] residuals_decoded(out@, max_len) == Ok::<
                _,
                Error,
            >(residuals@),
        out.len() > 0,
        out@[0] == TAG_RC || out@[0] == TAG_RANS || out@[0] == TAG_LZ,
        out@[0] == TAG_LZ ==> allow_lz && residuals.len() > 64,
        lambda >= RC_LAMBDA_CUTOFF && residuals.len() > 0 ==> out@[0] != TAG_RC,
        out@ == residuals_coded(residuals@, lambda, allow_lz),
{
    let basic = entropy_pick(residuals, lambda);
    proof {
        lemma_plain_residuals(basic@, residuals@);
    }
    if allow_lz && residuals.len() > 64 {
        let stream = lz_compress(residuals);
        if stream.len() < residuals.len() {
            let inner = entropy_pick(&stream, lambda);
            let mut cand: Vec<u8> = Vec::new();
            cand.push(TAG_LZ);
            varint::write_u64(&mut cand, residuals.len() as u64);
            cand.extend_from_slice(&inner);
            assert(cand@ =~= cascade(residuals@.len(), inner@));
            if cand.len() < basic.len() {
                proof {
                    lemma_cascade(inner@, stream@, residuals@);
                }
                return cand;
            }
        }
    }
    basic
}

/// A coded residual without a cascade is read back.
proof fn lemma_plain_residuals(coded: Seq<u8>, residuals: Seq<u8>)
    requires
        coded.len() > 0,
        coded[0] != TAG_LZ,
        forall|max_len: nat|
            max_len >= residuals.len() ==> #[trigger] entropy_decoded(coded, max_len) == Ok::<
                _,
                Error,
            >(residuals),
    ensures
        forall|max_len: nat|
            max_len >= residuals.len() ==> #[trigger] residuals_decoded(coded, max_len) == Ok::<
                _,
                Error,
            >(residuals),
{
    reveal(residuals_decoded);
}

/// A cascade is read back.
proof fn lemma_cascade(inner: Seq<u8>, stream: Seq<u8>, residuals: Seq<u8>)
    requires
        residuals.len() <= usize::MAX,
        stream.len() < residuals.len(),
        forall|max_len: nat|
            max_len >= stream.len() ==> #[trigger] entropy_decoded(inner, max_len) == Ok::<
                _,
                Error,
            >(stream),
        lz::lz_decoded(stream, residuals.len()) == Ok::<_, Error>(residuals),
    ensures
        forall|max_len: nat|
            max_len >= residuals.len() ==> #[trigger] residuals_decoded(
                cascade(residuals.len(), inner),
                max_len,
            ) == Ok::<_, Error>(residuals),
{
    reveal(residuals_decoded);
    let len = residuals.len();
    let out = cascade(len, inner);
    assert(out.drop_first() =~= varint::varint_bytes(len) + inner);
    varint::lemma_varint_roundtrip(len as u64, inner);
    assert(entropy_decoded(inner, lz_bound(len)) == Ok::<_, Error>(stream));
}

/// Decode a tagged stream without a cascade.
fn decode_entropy_only(payload: &[u8], max_len: usize) -> (r: Result<Vec<u8>, Error>)
    ensures
        error::viewed(r) == entropy_decoded(payload@, max_len as nat),
{
    if payload.len() == 0 {
        return Err(Error::Truncated);
    }
    let tag = payload[0];
    let rest = tail(payload, 1);
    assert(payload@.skip(1) =~= payload@.drop_first());
    if tag == TAG_RC {
        rc::decompress_bytes(rest, max_len)
    } else if tag == TAG_TANS {
        tans::decompress_bytes(rest, max_len)
    } else if tag == TAG_RANS {
        rans::decompress_bytes(rest, max_len)
    } else {
        Err(Error::CorruptPayload("unknown entropy tag"))
    }
}

/// Inverse of [`code_residuals`]. `max_len` bounds the decoded length.
pub fn decode_residuals(payload: &[u8], max_len: usize) -> (r: Result<Vec<u8>, Error>)
    ensures
        error::viewed(r) == residuals_decoded(payload@, max_len as nat),
{
    reveal(residuals_decoded);
    if payload.len() > 0 && payload[0] == TAG_LZ {
        let mut pos: usize = 1;
        assert(payload@.skip(1) =~= payload@.drop_first());
        let len: u64 = match varint::read_u64(payload, &mut pos) {
            Ok(v) => v,
            Err(e) => return Err(e),
        };
        if len > max_len as u64 {
            return Err(Error::CorruptPayload("lz cascade length"));
        }
        let bound: usize = if len as usize <= (usize::MAX - 64) / 2 {
            len as usize * 2 + 64
        } else {
            usize::MAX
        };
        match decode_entropy_only(tail(payload, pos), bound) {
            Ok(stream) => lz_decompress(&stream, len as usize),
            Err(e) => Err(e),
        }
    } else {
        decode_entropy_only(payload, max_len)
    }
}

} // verus!
