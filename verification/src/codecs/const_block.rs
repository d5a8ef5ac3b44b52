//! CONST: every value of the block is the same. The payload is that one word.

use vstd::prelude::*;
use crate::bytes;
use crate::error;
use crate::error::Error;
use crate::lane::Lane;

verus! {

/// `n` copies of the word stored in `payload`.
pub open spec fn const_decoded(lane: Lane, payload: Seq<u8>, n: nat) -> Result<Seq<u64>, Error> {
    if payload.len() != lane.bytes() {
        Err(Error::CorruptPayload("const payload length"))
    } else {
        Ok(Seq::new(n, |i: int| bytes::le_value(payload) as u64))
    }
}

/// Whether all values are the same.
pub open spec fn is_const(vals: Seq<u64>) -> bool {
    vals.len() > 0 && forall|i: int| 0 <= i < vals.len() ==> #[trigger] vals[i] == vals[0]
}

/// Store the one value of a constant block.
pub fn encode(lane: Lane, vals: &[u64]) -> (r: Option<Vec<u8>>)
    requires
        lane.fits_all(vals@),
    ensures
        r is Some <==> is_const(vals@),
        r matches Some(out) ==> out@ == lane.word_bytes(vals@[0]) && const_decoded(
            lane,
            out@,
            vals@.len(),
        ) == Ok::<_, Error>(vals@),
{
    if vals.len() == 0 {
        return None;
    }
    let first: u64 = vals[0];
    let mut i: usize = 1;
    while i < vals.len()
        invariant
            1 <= i <= vals.len(),
            first == vals@[0],
            forall|k: int| 0 <= k < i ==> #[trigger] vals@[k] == first,
        decreases vals.len() - i,
    {
        if vals[i] != first {
            return None;
        }
        i = i + 1;
    }
    let mut out: Vec<u8> = Vec::new();
    lane.write_word(&mut out, first);
    proof {
        assert(lane.fits(vals@[0]));
        bytes::lemma_pow256_values();
        bytes::lemma_le_roundtrip(first as nat, lane.bytes() as nat);
        assert(out@ =~= lane.word_bytes(first));
        assert(Seq::new(vals@.len(), |i: int| first) =~= vals@);
        assert(Seq::new(vals@.len(), |i: int| bytes::le_value(out@) as u64) =~= vals@);
    }
    Some(out)
}

/// Inverse of [`encode`].
pub fn decode(lane: Lane, payload: &[u8], n: usize) -> (r: Result<Vec<u64>, Error>)
    ensures
        error::viewed(r) == const_decoded(lane, payload@, n as nat),
        r matches Ok(v) ==> lane.fits_all(v@) && v.len() == n,
{
    if payload.len() != lane.bytes() {
        return Err(Error::CorruptPayload("const payload length"));
    }
    let word: u64 = lane.read_word(payload, 0);
    assert(payload@.subrange(0, lane.bytes() as int) =~= payload@);
    let out: Vec<u64> = vec![word; n];
    assert(out@ =~= Seq::new(n as nat, |i: int| bytes::le_value(payload@) as u64));
    Ok(out)
}

} // verus!
