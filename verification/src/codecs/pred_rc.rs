//! FCM residuals through the adaptive range coder alone.

use vstd::prelude::*;
use crate::codecs::pred;
use crate::entropy::rc;
use crate::error;
use crate::error::Error;
use crate::lane::Lane;

verus! {

/// Upper bound on a residual stream: at most ten varint bytes per value.
pub open spec fn residual_bound(n: nat) -> nat {
    if 10 * n + 16 <= usize::MAX {
        10 * n + 16
    } else {
        usize::MAX as nat
    }
}

/// Upper bound on a residual stream of `n` values, which guards the entropy
/// decoders against a corrupt length field.
pub fn resid_bound(n: usize) -> (b: usize)
    ensures
        b == residual_bound(n as nat),
{
    if n <= (usize::MAX - 16) / 10 {
        n * 10 + 16
    } else {
        usize::MAX
    }
}

/// The `n` values coded by `payload`.
pub open spec fn pred_rc_decoded(lane: Lane, payload: Seq<u8>, n: nat, log2: u8) -> Result<
    Seq<u64>,
    Error,
> {
    match rc::rc_decoded(payload, residual_bound(n)) {
        Err(e) => Err(e),
        Ok(residuals) => pred::fcm_decoded(lane, residuals, n, log2),
    }
}

/// Range-code an already computed residual stream.
pub fn encode_from_residuals(residuals: &[u8]) -> (out: Vec<u8>)
    ensures
        out@ == rc::rc_image(residuals@),
        forall|max_len: nat|
            max_len >= residuals.len() ==> #[trigger] rc::rc_decoded(out@, max_len) == Ok::<
                _,
                Error,
            >(residuals@),
{
    rc::compress_bytes(residuals)
}

/// Decode range-coded FCM residuals.
pub fn decode(lane: Lane, payload: &[u8], n: usize, log2: u8) -> (r: Result<Vec<u64>, Error>)
    requires
        log2 < usize::BITS,
    ensures
        error::viewed(r) == pred_rc_decoded(lane, payload@, n as nat, log2),
        r matches Ok(v) ==> lane.fits_all(v@) && v.len() == n,
{
    match rc::decompress_bytes(payload, resid_bound(n)) {
        Ok(residuals) => pred::decode(lane, &residuals, n, log2),
        Err(e) => Err(e),
    }
}

} // verus!
