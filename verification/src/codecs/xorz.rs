//! XORZ: each value exclusive-or its predecessor, as varints. A cheap win where
//! neighbours share most of their bit pattern.

use vstd::prelude::*;
use crate::error;
use crate::error::Error;
use crate::lane;
use crate::lane::Lane;
use crate::varint;

verus! {

/// The varints of `vals`, each exclusive-or the value before, `prev` being the
/// one before the first.
pub open spec fn xorz_bytes(vals: Seq<u64>, prev: u64) -> Seq<u8>
    decreases vals.len(),
{
    if vals.len() == 0 {
        Seq::empty()
    } else {
        varint::varint_bytes((vals[0] ^ prev) as nat) + xorz_bytes(vals.drop_first(), vals[0])
    }
}

/// The `n` values whose chained varints are `s`; `trailing` is the error for
/// bytes left over.
pub open spec fn xorz_parse(lane: Lane, s: Seq<u8>, n: nat, prev: u64, trailing: Error) -> Result<
    Seq<u64>,
    Error,
>
    decreases n,
{
    if n == 0 {
        if s.len() == 0 {
            Ok(Seq::empty())
        } else {
            Err(trailing)
        }
    } else {
        match varint::varint_parse(s) {
            Err(e) => Err(e),
            Ok((x, rest)) => if !lane.fits(x) {
                Err(Error::CorruptPayload("value exceeds 32-bit lane"))
            } else {
                let v = x ^ prev;
                match xorz_parse(lane, rest, (n - 1) as nat, v, trailing) {
                    Err(e) => Err(e),
                    Ok(more) => Ok(seq![v] + more),
                }
            },
        }
    }
}

/// The `n` values coded by `payload`.
pub open spec fn xorz_decoded(lane: Lane, payload: Seq<u8>, n: nat) -> Result<Seq<u64>, Error> {
    xorz_parse(lane, payload, n, 0, Error::CorruptPayload("xorz trailing bytes"))
}

/// Chained values survive.
pub proof fn lemma_xorz_roundtrip(lane: Lane, vals: Seq<u64>, prev: u64, trailing: Error)
    requires
        lane.fits_all(vals),
        lane.fits(prev),
    ensures
        xorz_parse(lane, xorz_bytes(vals, prev), vals.len(), prev, trailing) == Ok::<_, Error>(
            vals,
        ),
    decreases vals.len(),
{
    if vals.len() > 0 {
        let v = vals[0];
        assert(lane.fits(vals[0]));
        let rest = vals.drop_first();
        assert(lane.fits_all(rest)) by {
            assert forall|i: int| 0 <= i < rest.len() implies lane.fits(#[trigger] rest[i]) by {
                assert(lane.fits(vals[i + 1]));
            }
        }
        lane::lemma_lane_xor(lane, v, prev);
        lemma_xorz_roundtrip(lane, rest, v, trailing);
        varint::lemma_varint_roundtrip(v ^ prev, xorz_bytes(rest, v));
        assert(seq![v] + rest =~= vals);
    } else {
        assert(vals =~= Seq::empty());
    }
}

/// A chained varint takes at most ten bytes.
pub proof fn lemma_xorz_len(vals: Seq<u64>, prev: u64)
    ensures
        xorz_bytes(vals, prev).len() <= 10 * vals.len(),
    decreases vals.len(),
{
    if vals.len() > 0 {
        varint::lemma_varint_len(vals[0] ^ prev);
        lemma_xorz_len(vals.drop_first(), vals[0]);
    }
}

/// On the narrow lane a chained varint takes at most five bytes.
pub proof fn lemma_xorz_len_narrow(vals: Seq<u64>, prev: u64)
    requires
        Lane::W32.fits_all(vals),
        Lane::W32.fits(prev),
    ensures
        xorz_bytes(vals, prev).len() <= 5 * vals.len(),
    decreases vals.len(),
{
    if vals.len() > 0 {
        lane::lemma_lane_xor(Lane::W32, vals[0], prev);
        varint::lemma_varint_narrow((vals[0] ^ prev) as nat);
        lemma_xorz_len_narrow(vals.drop_first(), vals[0]);
    }
}

/// Append the chained varints of `vals`.
pub fn write_chain(out: &mut Vec<u8>, vals: &[u64])
    ensures
        final(out)@ == old(out)@ + xorz_bytes(vals@, 0),
{
    let ghost start = out@;
    let mut prev: u64 = 0;
    let mut i: usize = 0;
    assert(vals@.skip(0) =~= vals@);
    while i < vals.len()
        invariant
            i <= vals.len(),
            out@ + xorz_bytes(vals@.skip(i as int), prev) == start + xorz_bytes(vals@, 0),
        decreases vals.len() - i,
    {
        let v: u64 = vals[i];
        let ghost before = out@;
        varint::write_u64(out, v ^ prev);
        proof {
            let t = vals@.skip(i as int);
            assert(t.drop_first() =~= vals@.skip(i + 1));
            assert(out@ + xorz_bytes(vals@.skip(i + 1), v) =~= before + xorz_bytes(t, prev));
        }
        prev = v;
        i = i + 1;
    }
    assert(out@ + Seq::<u8>::empty() =~= out@);
}

/// Read `n` chained values that fill `payload` from `start` on.
pub fn read_chain(lane: Lane, payload: &[u8], start: usize, n: usize, trailing: Error) -> (r: Result<
    Vec<u64>,
    Error,
>)
    requires
        start <= payload.len(),
    ensures
        error::viewed(r) == xorz_parse(
            lane,
            payload@.skip(start as int),
            n as nat,
            0,
            trailing,
        ),
        r matches Ok(v) ==> lane.fits_all(v@) && v.len() == n,
{
    let ghost whole = xorz_parse(lane, payload@.skip(start as int), n as nat, 0, trailing);
    let mut out: Vec<u64> = Vec::new();
    let mut prev: u64 = 0;
    let mut pos: usize = start;
    let mut i: usize = 0;
    proof {
        if let Ok(t) = whole {
            assert(out@ + t =~= t);
        }
    }
    while i < n
        invariant
            i <= n,
            pos <= payload.len(),
            out.len() == i,
            lane.fits(prev),
            lane.fits_all(out@),
            whole == xorz_parse(lane, payload@.skip(start as int), n as nat, 0, trailing),
            whole == (match xorz_parse(
                lane,
                payload@.skip(pos as int),
                (n - i) as nat,
                prev,
                trailing,
            ) {
                Err(e) => Err::<Seq<u64>, _>(e),
                Ok(t) => Ok(out@ + t),
            }),
        decreases n - i,
    {
        let ghost before = out@;
        let raw: u64 = match varint::read_u64(payload, &mut pos) {
            Ok(v) => v,
            Err(e) => return Err(e),
        };
        let x: u64 = match lane.try_from_u64(raw) {
            Ok(v) => v,
            Err(e) => return Err(e),
        };
        let v: u64 = x ^ prev;
        proof {
            lane::lemma_lane_xor(lane, x, prev);
        }
        out.push(v);
        proof {
            if let Ok(t) = xorz_parse(
                lane,
                payload@.skip(pos as int),
                (n - i - 1) as nat,
                v,
                trailing,
            ) {
                assert(before + (seq![v] + t) =~= out@ + t);
            }
        }
        prev = v;
        i = i + 1;
    }
    if pos != payload.len() {
        return Err(trailing);
    }
    assert(out@ + Seq::<u64>::empty() =~= out@);
    Ok(out)
}

/// Encode a block.
pub fn encode(lane: Lane, vals: &[u64]) -> (out: Vec<u8>)
    requires
        lane.fits_all(vals@),
    ensures
        out@ == xorz_bytes(vals@, 0),
        xorz_decoded(lane, out@, vals@.len()) == Ok::<_, Error>(vals@),
{
    let mut out: Vec<u8> = Vec::new();
    write_chain(&mut out, vals);
    proof {
        assert(out@ =~= xorz_bytes(vals@, 0));
        lemma_xorz_roundtrip(lane, vals@, 0, Error::CorruptPayload("xorz trailing bytes"));
    }
    out
}

/// Inverse of [`encode`].
pub fn decode(lane: Lane, payload: &[u8], n: usize) -> (r: Result<Vec<u64>, Error>)
    ensures
        error::viewed(r) == xorz_decoded(lane, payload@, n as nat),
        r matches Ok(v) ==> lane.fits_all(v@) && v.len() == n,
{
    assert(payload@.skip(0) =~= payload@);
    read_chain(lane, payload, 0, n, Error::CorruptPayload("xorz trailing bytes"))
}

} // verus!
