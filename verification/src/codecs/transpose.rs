//! BYTE_TRANSPOSE: the block regrouped into one byte plane per lane byte, for
//! the entropy coder. Wins where a byte position is low-entropy across values.

use vstd::prelude::*;
use crate::error;
use crate::error::Error;
use crate::lane;
use crate::lane::Lane;
use crate::transform;
use crate::transform::{byte_transpose, byte_untranspose};

verus! {

/// The byte planes of `vals`.
pub open spec fn planes(lane: Lane, vals: Seq<u64>) -> Seq<u8> {
    transform::transposed(lane.words_bytes(vals), vals.len(), lane.bytes() as nat)
}

/// The `n` values whose byte planes are `soa`.
pub open spec fn planes_decoded(lane: Lane, soa: Seq<u8>, n: nat) -> Result<Seq<u64>, Error> {
    if soa.len() != n * lane.bytes() {
        Err(Error::CorruptPayload("transpose payload length"))
    } else {
        Ok(lane.words_of(transform::transposed(soa, lane.bytes() as nat, n)))
    }
}

/// Regroup a block into byte planes.
pub fn encode(lane: Lane, vals: &[u64]) -> (out: Vec<u8>)
    requires
        lane.fits_all(vals@),
    ensures
        out@ == planes(lane, vals@),
        out.len() == vals.len() * lane.bytes(),
        planes_decoded(lane, out@, vals@.len()) == Ok::<_, Error>(vals@),
{
    let image = lane.le_image(vals);
    proof {
        lane::lemma_words_roundtrip(lane, vals@);
        transform::lemma_transpose_roundtrip(image@, vals@.len(), lane.bytes() as nat);
    }
    let mut soa: Vec<u8> = vec![0; image.len()];
    byte_transpose(&image, vals.len(), lane.bytes(), soa.as_mut_slice());
    soa
}

/// Inverse of [`encode`].
pub fn decode(lane: Lane, soa: &[u8], n: usize) -> (r: Result<Vec<u64>, Error>)
    ensures
        error::viewed(r) == planes_decoded(lane, soa@, n as nat),
        r matches Ok(v) ==> lane.fits_all(v@) && v.len() == n,
{
    let w: usize = lane.bytes();
    if soa.len() % w != 0 || soa.len() / w != n {
        return Err(Error::CorruptPayload("transpose payload length"));
    }
    let mut image: Vec<u8> = vec![0; soa.len()];
    byte_untranspose(soa, n, w, image.as_mut_slice());
    proof {
        let len = image@.len() as int;
        assert(w * n == n * w) by (nonlinear_arith);
    }
    Ok(lane.from_le_image(&image))
}

} // verus!
