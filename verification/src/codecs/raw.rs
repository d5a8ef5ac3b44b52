//! RAW: verbatim little-endian lane words, the fallback that always applies.

use vstd::prelude::*;
use crate::error;
use crate::error::Error;
use crate::lane;
use crate::lane::Lane;

verus! {

/// The `n` words stored in `payload`.
pub open spec fn raw_decoded(lane: Lane, payload: Seq<u8>, n: nat) -> Result<Seq<u64>, Error> {
    if payload.len() != n * lane.bytes() {
        Err(Error::CorruptPayload("raw payload length"))
    } else {
        Ok(lane.words_of(payload))
    }
}

/// Store `vals` verbatim.
pub fn encode(lane: Lane, vals: &[u64]) -> (out: Vec<u8>)
    requires
        lane.fits_all(vals@),
    ensures
        out@ == lane.words_bytes(vals@),
        out.len() == vals.len() * lane.bytes(),
        raw_decoded(lane, out@, vals@.len()) == Ok::<_, Error>(vals@),
{
    proof {
        lane::lemma_words_roundtrip(lane, vals@);
    }
    lane.le_image(vals)
}

/// Inverse of [`encode`].
pub fn decode(lane: Lane, payload: &[u8], n: usize) -> (r: Result<Vec<u64>, Error>)
    ensures
        error::viewed(r) == raw_decoded(lane, payload@, n as nat),
        r matches Ok(v) ==> lane.fits_all(v@) && v.len() == n,
{
    let w: usize = lane.bytes();
    if payload.len() % w != 0 || payload.len() / w != n {
        return Err(Error::CorruptPayload("raw payload length"));
    }
    proof {
        assert(payload@.len() == n * w) by {
            match lane {
                Lane::W32 => {},
                Lane::W64 => {},
            }
        }
        lane::lemma_words_of_len(lane, payload@, n as nat);
    }
    Ok(lane.from_le_image(payload))
}

} // verus!
