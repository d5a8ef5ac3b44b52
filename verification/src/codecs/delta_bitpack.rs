//! DELTA_BITPACK: zigzag deltas through frame of reference and bit-packing.
//! Wins on monotonic or regularly stepped integer columns.
//!
//! Payload: `base:lane ++ for_bitpack(zigzag deltas)`.

use vstd::prelude::*;
use crate::bytes;
use crate::bytes::tail;
use crate::codecs::for_bitpack;
use crate::error;
use crate::error::Error;
use crate::lane;
use crate::lane::Lane;

verus! {

/// The zigzag deltas of `vals`, `prev` standing before the first.
pub open spec fn deltas_of(lane: Lane, vals: Seq<u64>, prev: u64) -> Seq<u64> {
    Seq::new(
        vals.len(),
        |i: int|
            lane.zigzagged(
                lane.diff(
                    vals[i],
                    if i == 0 {
                        prev
                    } else {
                        vals[i - 1]
                    },
                ),
            ),
    )
}

/// The running sums of zigzag deltas from `prev` on.
pub open spec fn summed(lane: Lane, deltas: Seq<u64>, prev: u64) -> Seq<u64>
    decreases deltas.len(),
{
    if deltas.len() == 0 {
        Seq::empty()
    } else {
        let v = lane.sum(prev, lane.unzigzagged(deltas[0]));
        seq![v] + summed(lane, deltas.drop_first(), v)
    }
}

/// The `n` values coded by `payload`.
pub open spec fn delta_decoded(lane: Lane, payload: Seq<u8>, n: nat) -> Result<Seq<u64>, Error> {
    if payload.len() < lane.bytes() {
        Err(Error::Truncated)
    } else {
        let base = bytes::le_value(payload.take(lane.bytes() as int)) as u64;
        match for_bitpack::for_decoded(lane, payload.skip(lane.bytes() as int), n) {
            Err(e) => Err(e),
            Ok(deltas) => Ok(summed(lane, deltas, base)),
        }
    }
}

/// Summing the deltas of `vals` gives `vals` back.
pub proof fn lemma_delta_roundtrip(lane: Lane, vals: Seq<u64>, prev: u64)
    requires
        lane.fits_all(vals),
        lane.fits(prev),
    ensures
        summed(lane, deltas_of(lane, vals, prev), prev) == vals,
        lane.fits_all(deltas_of(lane, vals, prev)),
    decreases vals.len(),
{
    let d = deltas_of(lane, vals, prev);
    if vals.len() > 0 {
        assert(lane.fits(vals[0]));
        let rest = vals.drop_first();
        assert(lane.fits_all(rest)) by {
            assert forall|i: int| 0 <= i < rest.len() implies lane.fits(#[trigger] rest[i]) by {
                assert(lane.fits(vals[i + 1]));
            }
        }
        lemma_delta_roundtrip(lane, rest, vals[0]);
        assert(d.drop_first() =~= deltas_of(lane, rest, vals[0]));
        lane::lemma_lane_diff_sum(lane, vals[0], prev);
        lane::lemma_zigzag_roundtrip(lane, lane.diff(vals[0], prev));
        assert(seq![vals[0]] + rest =~= vals);
        assert forall|i: int| 0 <= i < d.len() implies lane.fits(#[trigger] d[i]) by {
            if i > 0 {
                assert(d[i] == d.drop_first()[i - 1]);
            }
        }
    } else {
        assert(vals =~= Seq::empty());
    }
}

/// The zigzag deltas of `vals`, `base` standing before the first.
pub fn zigzag_deltas(lane: Lane, vals: &[u64], base: u64) -> (deltas: Vec<u64>)
    requires
        lane.fits_all(vals@),
        lane.fits(base),
    ensures
        deltas@ == deltas_of(lane, vals@, base),
{
    let mut deltas: Vec<u64> = Vec::new();
    let mut prev: u64 = base;
    let mut i: usize = 0;
    while i < vals.len()
        invariant
            i <= vals.len(),
            lane.fits_all(vals@),
            lane.fits(prev),
            prev == (if i == 0 {
                base
            } else {
                vals@[i - 1]
            }),
            deltas@ == deltas_of(lane, vals@, base).take(i as int),
        decreases vals.len() - i,
    {
        let v: u64 = vals[i];
        assert(lane.fits(vals@[i as int]));
        let d: u64 = lane.wrapping_sub(v, prev);
        deltas.push(lane.zigzag(d));
        prev = v;
        i = i + 1;
        assert(deltas@ =~= deltas_of(lane, vals@, base).take(i as int));
    }
    assert(deltas@ =~= deltas_of(lane, vals@, base));
    deltas
}

/// The running sums of zigzag deltas from `base` on.
pub fn running_sums(lane: Lane, deltas: &[u64], base: u64) -> (out: Vec<u64>)
    requires
        lane.fits_all(deltas@),
        lane.fits(base),
    ensures
        out@ == summed(lane, deltas@, base),
        out.len() == deltas.len(),
        lane.fits_all(out@),
{
    let mut out: Vec<u64> = Vec::new();
    let mut prev: u64 = base;
    let mut i: usize = 0;
    let ghost whole = summed(lane, deltas@, base);
    assert(deltas@.skip(0) =~= deltas@);
    assert(out@ + whole =~= whole);
    while i < deltas.len()
        invariant
            i <= deltas.len(),
            lane.fits_all(deltas@),
            lane.fits_all(out@),
            lane.fits(prev),
            out.len() == i,
            out@ + summed(lane, deltas@.skip(i as int), prev) == whole,
        decreases deltas.len() - i,
    {
        let ghost before = out@;
        assert(lane.fits(deltas@[i as int]));
        let d: u64 = lane.unzigzag(deltas[i]);
        prev = lane.wrapping_add(prev, d);
        out.push(prev);
        proof {
            assert(deltas@.skip(i as int).drop_first() =~= deltas@.skip(i + 1));
            let t = summed(lane, deltas@.skip(i + 1), prev);
            assert(before + (seq![prev] + t) =~= out@ + t);
        }
        i = i + 1;
    }
    assert(out@ + Seq::<u64>::empty() =~= out@);
    out
}

/// The value that the first delta is taken from: the first value.
pub open spec fn base_of(vals: Seq<u64>) -> u64 {
    if vals.len() > 0 {
        vals[0]
    } else {
        0
    }
}

/// The size of the payload of `vals`.
pub open spec fn delta_size(lane: Lane, vals: Seq<u64>) -> nat {
    lane.bytes() as nat + for_bitpack::for_size(
        lane,
        false,
        deltas_of(lane, vals, base_of(vals)),
    )
}

/// The payload of `vals`.
pub open spec fn delta_image(lane: Lane, vals: Seq<u64>) -> Seq<u8> {
    lane.word_bytes(base_of(vals)) + for_bitpack::for_image(
        lane,
        false,
        deltas_of(lane, vals, base_of(vals)),
    )
}

/// Encode a block.
pub fn encode(lane: Lane, vals: &[u64]) -> (out: Vec<u8>)
    requires
        lane.fits_all(vals@),
    ensures
        out@ == delta_image(lane, vals@),
        delta_decoded(lane, out@, vals@.len()) == Ok::<_, Error>(vals@),
        out@.len() == delta_size(lane, vals@),
{
    // The first value is the base, so that its delta is zero and a large
    // absolute value does not widen the first sub-block.
    let base: u64 = if vals.len() > 0 {
        vals[0]
    } else {
        0
    };
    assert(lane.fits(base)) by {
        if vals.len() > 0 {
            assert(lane.fits(vals@[0]));
        }
    }
    let mut out: Vec<u8> = Vec::new();
    lane.write_word(&mut out, base);
    let deltas = zigzag_deltas(lane, vals, base);
    proof {
        lemma_delta_roundtrip(lane, vals@, base);
    }
    let packed = for_bitpack::encode(lane, &deltas, false);
    out.extend_from_slice(&packed);
    proof {
        bytes::lemma_pow256_values();
        bytes::lemma_le_roundtrip(base as nat, lane.bytes() as nat);
        assert(out@.take(lane.bytes() as int) =~= lane.word_bytes(base));
        assert(out@.skip(lane.bytes() as int) =~= packed@);
        bytes::lemma_le_bytes_len(base as nat, lane.bytes() as nat);
    }
    out
}

/// Inverse of [`encode`].
pub fn decode(lane: Lane, payload: &[u8], n: usize) -> (r: Result<Vec<u64>, Error>)
    ensures
        error::viewed(r) == delta_decoded(lane, payload@, n as nat),
        r matches Ok(v) ==> lane.fits_all(v@) && v.len() == n,
{
    if payload.len() < lane.bytes() {
        return Err(Error::Truncated);
    }
    let base: u64 = lane.read_word(payload, 0);
    assert(payload@.subrange(0, lane.bytes() as int) =~= payload@.take(lane.bytes() as int));
    let deltas: Vec<u64> = match for_bitpack::decode(lane, tail(payload, lane.bytes()), n) {
        Ok(d) => d,
        Err(e) => return Err(e),
    };
    Ok(running_sums(lane, &deltas, base))
}

} // verus!
