//! STRIDE: an arithmetic progression of lane words, wrapping at the lane width.
//! The payload is the first word and the step.

use vstd::prelude::*;
use vstd::arithmetic::div_mod::*;
use crate::bytes;
use crate::error;
use crate::error::Error;
use crate::lane::Lane;

verus! {

/// Value `i` of the progression.
pub open spec fn stride_value(lane: Lane, first: u64, step: u64, i: int) -> u64 {
    lane.unsigned(first + i * step)
}

/// Whether `vals` is the progression that its first two values start.
pub open spec fn is_stride(lane: Lane, vals: Seq<u64>) -> bool {
    &&& vals.len() >= 2
    &&& forall|i: int|
        0 <= i < vals.len() ==> #[trigger] vals[i] == stride_value(
            lane,
            vals[0],
            lane.diff(vals[1], vals[0]),
            i,
        )
}

/// The first `n` values of the progression stored in `payload`.
pub open spec fn stride_decoded(lane: Lane, payload: Seq<u8>, n: nat) -> Result<
    Seq<u64>,
    Error,
> {
    let w = lane.bytes() as int;
    if payload.len() != 2 * w {
        Err(Error::CorruptPayload("stride payload length"))
    } else {
        let first = bytes::le_value(payload.subrange(0, w)) as u64;
        let step = bytes::le_value(payload.subrange(w, 2 * w)) as u64;
        Ok(Seq::new(n, |i: int| stride_value(lane, first, step, i)))
    }
}

pub proof fn lemma_stride_step(lane: Lane, first: u64, step: u64, i: int)
    requires
        lane.fits(first),
    ensures
        stride_value(lane, first, step, 0) == first,
        stride_value(lane, first, step, i + 1) == lane.sum(
            stride_value(lane, first, step, i),
            step,
        ),
{
    let m = lane.modulus() as int;
    assert(0 * step == 0);
    lemma_small_mod(first as nat, m as nat);
    let x = first + i * step;
    assert(first + (i + 1) * step == x + step) by (nonlinear_arith)
        requires
            x == first + i * step,
    ;
    lemma_add_mod_noop(x, step as int, m);
    lemma_add_mod_noop(x % m, step as int, m);
    lemma_mod_twice(x, m);
    lemma_mod_bound(x, m);
}

/// Store an arithmetic progression.
pub fn encode(lane: Lane, vals: &[u64]) -> (r: Option<Vec<u8>>)
    requires
        lane.fits_all(vals@),
    ensures
        r is Some <==> is_stride(lane, vals@),
        r matches Some(out) ==> out@ == lane.word_bytes(vals@[0]) + lane.word_bytes(
            lane.diff(vals@[1], vals@[0]),
        ) && stride_decoded(lane, out@, vals@.len()) == Ok::<_, Error>(vals@),
{
    if vals.len() < 2 {
        return None;
    }
    let first: u64 = vals[0];
    assert(lane.fits(vals@[0]) && lane.fits(vals@[1]));
    let step: u64 = lane.wrapping_sub(vals[1], first);
    let mut expect: u64 = first;
    let mut i: usize = 0;
    proof {
        lemma_stride_step(lane, first, step, 0);
    }
    while i < vals.len()
        invariant
            i <= vals.len(),
            lane.fits(first),
            lane.fits(step),
            lane.fits(expect),
            expect == stride_value(lane, first, step, i as int),
            first == vals@[0],
            step == lane.diff(vals@[1], vals@[0]),
            forall|k: int|
                0 <= k < i ==> #[trigger] vals@[k] == stride_value(lane, first, step, k),
        decreases vals.len() - i,
    {
        if vals[i] != expect {
            return None;
        }
        proof {
            lemma_stride_step(lane, first, step, i as int);
        }
        expect = lane.wrapping_add(expect, step);
        i = i + 1;
    }
    let mut out: Vec<u8> = Vec::new();
    lane.write_word(&mut out, first);
    lane.write_word(&mut out, step);
    proof {
        let w = lane.bytes() as int;
        bytes::lemma_pow256_values();
        bytes::lemma_le_roundtrip(first as nat, w as nat);
        bytes::lemma_le_roundtrip(step as nat, w as nat);
        assert(out@ =~= lane.word_bytes(first) + lane.word_bytes(step));
        assert(out@.subrange(0, w) =~= lane.word_bytes(first));
        assert(out@.subrange(w, 2 * w) =~= lane.word_bytes(step));
        assert(Seq::new(vals@.len(), |k: int| stride_value(lane, first, step, k)) =~= vals@);
    }
    Some(out)
}

/// Inverse of [`encode`].
pub fn decode(lane: Lane, payload: &[u8], n: usize) -> (r: Result<Vec<u64>, Error>)
    ensures
        error::viewed(r) == stride_decoded(lane, payload@, n as nat),
        r matches Ok(v) ==> lane.fits_all(v@) && v.len() == n,
{
    let w: usize = lane.bytes();
    if payload.len() != 2 * w {
        return Err(Error::CorruptPayload("stride payload length"));
    }
    let first: u64 = lane.read_word(payload, 0);
    let step: u64 = lane.read_word(payload, w);
    let mut out: Vec<u64> = Vec::new();
    let mut v: u64 = first;
    let mut i: usize = 0;
    proof {
        lemma_stride_step(lane, first, step, 0);
    }
    while i < n
        invariant
            i <= n,
            lane.fits(first),
            lane.fits(step),
            lane.fits(v),
            v == stride_value(lane, first, step, i as int),
            out.len() == i,
            lane.fits_all(out@),
            forall|k: int| 0 <= k < i ==> #[trigger] out@[k] == stride_value(lane, first, step, k),
        decreases n - i,
    {
        out.push(v);
        proof {
            lemma_stride_step(lane, first, step, i as int);
        }
        v = lane.wrapping_add(v, step);
        i = i + 1;
    }
    assert(out@ =~= Seq::new(n as nat, |k: int| stride_value(lane, first, step, k)));
    Ok(out)
}

} // verus!
