//! Polynomial prediction.
//!
//! [`idelta2_encode`]/[`idelta2_decode`] take the second difference of the lane
//! words as integers. The two floating-point predictors (DELTA2 and DELTA_DP)
//! keep their arithmetic with the caller; here stands what they store: the
//! polynomial order and the residual words, as plain varints ([`xor_stream`]) or
//! chained by exclusive-or ([`dp_stream`]). [`encode`] takes the predictions and makes
//! the residuals of DELTA2; [`dp_encode`] takes those of DELTA_DP with the words that
//! they evaluate to, and declines unless these are the block.

use vstd::prelude::*;
use crate::bytes::tail;
use crate::codecs::xorz;
use crate::error;
use crate::error::Error;
use crate::lane;
use crate::lane::{same_words, Lane};
use crate::varint;

verus! {

/// The highest polynomial order.
pub const MAX_ORDER: u8 = 4;

/// What the second-order predictor expects after the values `p2`, `p1`; `seen`
/// of them are real.
pub open spec fn extrapolated(lane: Lane, p1: u64, p2: u64, seen: nat) -> u64 {
    if seen == 0 {
        0
    } else if seen == 1 {
        p1
    } else {
        lane.diff(lane.sum(p1, p1), p2)
    }
}

/// The zigzag varints of the second differences of `vals`.
pub open spec fn idelta2_bytes(lane: Lane, vals: Seq<u64>, p1: u64, p2: u64, seen: nat) -> Seq<u8>
    decreases vals.len(),
{
    if vals.len() == 0 {
        Seq::empty()
    } else {
        varint::varint_bytes(
            lane.zigzagged(lane.diff(vals[0], extrapolated(lane, p1, p2, seen))) as nat,
        ) + idelta2_bytes(lane, vals.drop_first(), vals[0], p1, seen + 1)
    }
}

/// The `n` values whose second differences are the varints `s`.
pub open spec fn idelta2_parse(
    lane: Lane,
    s: Seq<u8>,
    n: nat,
    p1: u64,
    p2: u64,
    seen: nat,
) -> Result<Seq<u64>, Error>
    decreases n,
{
    if n == 0 {
        if s.len() == 0 {
            Ok(Seq::empty())
        } else {
            Err(Error::CorruptPayload("idelta2 trailing bytes"))
        }
    } else {
        match varint::varint_parse(s) {
            Err(e) => Err(e),
            Ok((z, rest)) => if !lane.fits(z) {
                Err(Error::CorruptPayload("value exceeds 32-bit lane"))
            } else {
                let v = lane.sum(extrapolated(lane, p1, p2, seen), lane.unzigzagged(z));
                match idelta2_parse(lane, rest, (n - 1) as nat, v, p1, seen + 1) {
                    Err(e) => Err(e),
                    Ok(more) => Ok(seq![v] + more),
                }
            },
        }
    }
}

/// The `n` values coded by `payload`.
pub open spec fn idelta2_decoded(lane: Lane, payload: Seq<u8>, n: nat) -> Result<Seq<u64>, Error> {
    idelta2_parse(lane, payload, n, 0, 0, 0)
}

proof fn lemma_extrapolated_fits(lane: Lane, p1: u64, p2: u64, seen: nat)
    requires
        lane.fits(p1),
        lane.fits(p2),
    ensures
        lane.fits(extrapolated(lane, p1, p2, seen)),
{
    lane::lemma_lane_diff_sum(lane, p1, p1);
    lane::lemma_lane_diff_sum(lane, lane.sum(p1, p1), p2);
}

/// Second differences lose nothing.
pub proof fn lemma_idelta2_roundtrip(lane: Lane, vals: Seq<u64>, p1: u64, p2: u64, seen: nat)
    requires
        lane.fits_all(vals),
        lane.fits(p1),
        lane.fits(p2),
    ensures
        idelta2_parse(
            lane,
            idelta2_bytes(lane, vals, p1, p2, seen),
            vals.len(),
            p1,
            p2,
            seen,
        ) == Ok::<_, Error>(vals),
    decreases vals.len(),
{
    if vals.len() > 0 {
        let v = vals[0];
        assert(lane.fits(vals[0]));
        let rest = vals.drop_first();
        assert(lane.fits_all(rest)) by {
            assert forall|i: int| 0 <= i < rest.len() implies lane.fits(#[trigger] rest[i]) by {
                assert(lane.fits(vals[i + 1]));
            }
        }
        let guess = extrapolated(lane, p1, p2, seen);
        lemma_extrapolated_fits(lane, p1, p2, seen);
        lane::lemma_lane_diff_sum(lane, v, guess);
        lane::lemma_zigzag_roundtrip(lane, lane.diff(v, guess));
        lemma_idelta2_roundtrip(lane, rest, v, p1, seen + 1);
        varint::lemma_varint_roundtrip(
            lane.zigzagged(lane.diff(v, guess)),
            idelta2_bytes(lane, rest, v, p1, seen + 1),
        );
        assert(seq![v] + rest =~= vals);
    } else {
        assert(vals =~= Seq::empty());
    }
}

proof fn lemma_idelta2_len(lane: Lane, vals: Seq<u64>, p1: u64, p2: u64, seen: nat)
    ensures
        idelta2_bytes(lane, vals, p1, p2, seen).len() <= 10 * vals.len(),
    decreases vals.len(),
{
    if vals.len() > 0 {
        varint::lemma_varint_len(
            lane.zigzagged(lane.diff(vals[0], extrapolated(lane, p1, p2, seen))),
        );
        lemma_idelta2_len(lane, vals.drop_first(), vals[0], p1, seen + 1);
    }
}

fn extrapolate(lane: Lane, p1: u64, p2: u64, seen: usize) -> (guess: u64)
    requires
        lane.fits(p1),
        lane.fits(p2),
    ensures
        guess == extrapolated(lane, p1, p2, seen as nat),
        lane.fits(guess),
{
    if seen == 0 {
        0
    } else if seen == 1 {
        p1
    } else {
        lane.wrapping_sub(lane.wrapping_add(p1, p1), p2)
    }
}

/// Second differences of a block, zigzagged, as varints.
pub fn idelta2_encode(lane: Lane, vals: &[u64]) -> (out: Vec<u8>)
    requires
        lane.fits_all(vals@),
    ensures
        out@ == idelta2_bytes(lane, vals@, 0, 0, 0),
        idelta2_decoded(lane, out@, vals@.len()) == Ok::<_, Error>(vals@),
        out.len() <= 10 * vals.len(),
{
    proof {
        lemma_idelta2_len(lane, vals@, 0, 0, 0);
    }
    let mut out: Vec<u8> = Vec::new();
    let mut p1: u64 = 0;
    let mut p2: u64 = 0;
    let mut i: usize = 0;
    let ghost whole = idelta2_bytes(lane, vals@, 0, 0, 0);
    proof {
        assert(vals@.skip(0) =~= vals@);
        assert(out@ + whole =~= whole);
    }
    while i < vals.len()
        invariant
            i <= vals.len(),
            lane.fits_all(vals@),
            lane.fits(p1),
            lane.fits(p2),
            out@ + idelta2_bytes(lane, vals@.skip(i as int), p1, p2, i as nat) == whole,
        decreases vals.len() - i,
    {
        let v: u64 = vals[i];
        assert(lane.fits(vals@[i as int]));
        let ghost before = out@;
        let guess: u64 = extrapolate(lane, p1, p2, i);
        let d: u64 = lane.wrapping_sub(v, guess);
        varint::write_u64(&mut out, lane.zigzag(d));
        proof {
            let t = vals@.skip(i as int);
            assert(t.drop_first() =~= vals@.skip(i + 1));
            assert(out@ + idelta2_bytes(lane, vals@.skip(i + 1), v, p1, (i + 1) as nat) =~= before
                + idelta2_bytes(lane, t, p1, p2, i as nat));
        }
        p2 = p1;
        p1 = v;
        i = i + 1;
    }
    proof {
        assert(out@ + Seq::<u8>::empty() =~= out@);
        lemma_idelta2_roundtrip(lane, vals@, 0, 0, 0);
    }
    out
}

/// Inverse of [`idelta2_encode`].
pub fn idelta2_decode(lane: Lane, payload: &[u8], n: usize) -> (r: Result<Vec<u64>, Error>)
    ensures
        error::viewed(r) == idelta2_decoded(lane, payload@, n as nat),
        r matches Ok(v) ==> lane.fits_all(v@) && v.len() == n,
{
    let ghost whole = idelta2_decoded(lane, payload@, n as nat);
    let mut out: Vec<u64> = Vec::new();
    let mut p1: u64 = 0;
    let mut p2: u64 = 0;
    let mut pos: usize = 0;
    let mut i: usize = 0;
    proof {
        assert(payload@.skip(0) =~= payload@);
        if let Ok(t) = whole {
            assert(out@ + t =~= t);
        }
    }
    while i < n
        invariant
            i <= n,
            pos <= payload.len(),
            out.len() == i,
            lane.fits(p1),
            lane.fits(p2),
            lane.fits_all(out@),
            whole == idelta2_decoded(lane, payload@, n as nat),
            whole == (match idelta2_parse(
                lane,
                payload@.skip(pos as int),
                (n - i) as nat,
                p1,
                p2,
                i as nat,
            ) {
                Err(e) => Err::<Seq<u64>, _>(e),
                Ok(t) => Ok(out@ + t),
            }),
        decreases n - i,
    {
        let ghost before = out@;
        let raw: u64 = match varint::read_u64(payload, &mut pos) {
            Ok(v) => v,
            Err(e) => return Err(e),
        };
        let z: u64 = match lane.try_from_u64(raw) {
            Ok(v) => v,
            Err(e) => return Err(e),
        };
        let guess: u64 = extrapolate(lane, p1, p2, i);
        let d: u64 = lane.unzigzag(z);
        let v: u64 = lane.wrapping_add(guess, d);
        out.push(v);
        proof {
            if let Ok(t) = idelta2_parse(
                lane,
                payload@.skip(pos as int),
                (n - i - 1) as nat,
                v,
                p1,
                (i + 1) as nat,
            ) {
                assert(before + (seq![v] + t) =~= out@ + t);
            }
        }
        p2 = p1;
        p1 = v;
        i = i + 1;
    }
    if pos != payload.len() {
        return Err(Error::CorruptPayload("idelta2 trailing bytes"));
    }
    assert(out@ + Seq::<u64>::empty() =~= out@);
    Ok(out)
}

// ---------------------------------------------------------------------------
// What the floating-point predictors store
// ---------------------------------------------------------------------------

/// The varints of `vals`.
pub open spec fn word_varints(vals: Seq<u64>) -> Seq<u8>
    decreases vals.len(),
{
    if vals.len() == 0 {
        Seq::empty()
    } else {
        varint::varint_bytes(vals[0] as nat) + word_varints(vals.drop_first())
    }
}

/// The `n` words whose varints are `s`; `trailing` is the error for bytes left
/// over.
pub open spec fn words_parse(lane: Lane, s: Seq<u8>, n: nat, trailing: Error) -> Result<
    Seq<u64>,
    Error,
>
    decreases n,
{
    if n == 0 {
        if s.len() == 0 {
            Ok(Seq::empty())
        } else {
            Err(trailing)
        }
    } else {
        match varint::varint_parse(s) {
            Err(e) => Err(e),
            Ok((x, rest)) => if !lane.fits(x) {
                Err(Error::CorruptPayload("value exceeds 32-bit lane"))
            } else {
                match words_parse(lane, rest, (n - 1) as nat, trailing) {
                    Err(e) => Err(e),
                    Ok(more) => Ok(seq![x] + more),
                }
            },
        }
    }
}

/// The order and the `n` residuals of a DELTA2 stream.
pub open spec fn xor_stream_parsed(lane: Lane, s: Seq<u8>, n: nat) -> Result<
    (u8, Seq<u64>),
    Error,
> {
    if s.len() == 0 {
        Err(Error::Truncated)
    } else if s[0] < 1 || s[0] > MAX_ORDER {
        Err(Error::CorruptPayload("delta2 order"))
    } else {
        match words_parse(
            lane,
            s.drop_first(),
            n,
            Error::CorruptPayload("delta2 trailing bytes"),
        ) {
            Err(e) => Err(e),
            Ok(words) => Ok((s[0], words)),
        }
    }
}

/// The order and the `n` residuals of a DELTA_DP stream.
pub open spec fn dp_stream_parsed(lane: Lane, s: Seq<u8>, n: nat) -> Result<(u8, Seq<u64>), Error> {
    if s.len() == 0 {
        Err(Error::Truncated)
    } else if s[0] < 1 || s[0] > MAX_ORDER {
        Err(Error::CorruptPayload("delta_dp order"))
    } else {
        match xorz::xorz_parse(
            lane,
            s.drop_first(),
            n,
            0,
            Error::CorruptPayload("delta_dp trailing bytes"),
        ) {
            Err(e) => Err(e),
            Ok(words) => Ok((s[0], words)),
        }
    }
}

/// Reading varints gives the words back.
pub proof fn lemma_words_roundtrip(lane: Lane, vals: Seq<u64>, trailing: Error)
    requires
        lane.fits_all(vals),
    ensures
        words_parse(lane, word_varints(vals), vals.len(), trailing) == Ok::<_, Error>(vals),
    decreases vals.len(),
{
    if vals.len() > 0 {
        assert(lane.fits(vals[0]));
        let rest = vals.drop_first();
        assert(lane.fits_all(rest)) by {
            assert forall|i: int| 0 <= i < rest.len() implies lane.fits(#[trigger] rest[i]) by {
                assert(lane.fits(vals[i + 1]));
            }
        }
        lemma_words_roundtrip(lane, rest, trailing);
        varint::lemma_varint_roundtrip(vals[0], word_varints(rest));
        assert(seq![vals[0]] + rest =~= vals);
    } else {
        assert(vals =~= Seq::empty());
    }
}

/// A word's varint takes at most ten bytes.
pub proof fn lemma_word_varints_len(vals: Seq<u64>)
    ensures
        word_varints(vals).len() <= 10 * vals.len(),
    decreases vals.len(),
{
    if vals.len() > 0 {
        varint::lemma_varint_len(vals[0]);
        lemma_word_varints_len(vals.drop_first());
    }
}

/// Append words as varints.
pub fn write_varints(out: &mut Vec<u8>, vals: &[u64])
    ensures
        final(out)@ == old(out)@ + word_varints(vals@),
{
    let mut i: usize = 0;
    let ghost whole = out@ + word_varints(vals@);
    assert(vals@.skip(0) =~= vals@);
    while i < vals.len()
        invariant
            i <= vals.len(),
            out@ + word_varints(vals@.skip(i as int)) == whole,
        decreases vals.len() - i,
    {
        let ghost before = out@;
        varint::write_u64(out, vals[i]);
        proof {
            let t = vals@.skip(i as int);
            assert(t.drop_first() =~= vals@.skip(i + 1));
            assert(out@ + word_varints(vals@.skip(i + 1)) =~= before + word_varints(t));
        }
        i = i + 1;
    }
    assert(out@ + Seq::<u8>::empty() =~= out@);
}

/// Read the `n` words whose varints are `src`; `trailing` names the fault of
/// bytes left over.
pub fn read_varints(lane: Lane, src: &[u8], n: usize, trailing: &'static str) -> (r: Result<
    Vec<u64>,
    Error,
>)
    ensures
        error::viewed(r) == words_parse(lane, src@, n as nat, Error::CorruptPayload(trailing)),
        r matches Ok(v) ==> lane.fits_all(v@) && v.len() == n,
{
    let mut out: Vec<u64> = Vec::new();
    let mut pos: usize = 0;
    let mut i: usize = 0;
    let ghost fault = Error::CorruptPayload(trailing);
    let ghost whole = words_parse(lane, src@, n as nat, fault);
    proof {
        assert(src@.skip(0) =~= src@);
        if let Ok(t) = whole {
            assert(out@ + t =~= t);
        }
    }
    while i < n
        invariant
            i <= n,
            pos <= src.len(),
            out.len() == i,
            lane.fits_all(out@),
            fault == Error::CorruptPayload(trailing),
            whole == words_parse(lane, src@, n as nat, fault),
            whole == (match words_parse(lane, src@.skip(pos as int), (n - i) as nat, fault) {
                Err(e) => Err::<Seq<u64>, _>(e),
                Ok(t) => Ok(out@ + t),
            }),
        decreases n - i,
    {
        let ghost before = out@;
        let raw: u64 = match varint::read_u64(src, &mut pos) {
            Ok(v) => v,
            Err(e) => return Err(e),
        };
        let x: u64 = match lane.try_from_u64(raw) {
            Ok(v) => v,
            Err(e) => return Err(e),
        };
        out.push(x);
        proof {
            if let Ok(t) = words_parse(lane, src@.skip(pos as int), (n - i - 1) as nat, fault) {
                assert(before + (seq![x] + t) =~= out@ + t);
            }
        }
        i = i + 1;
    }
    if pos != src.len() {
        return Err(Error::CorruptPayload(trailing));
    }
    assert(out@ + Seq::<u64>::empty() =~= out@);
    Ok(out)
}

/// Store the residuals of a DELTA2 block.
pub fn xor_stream(lane: Lane, order: u8, residuals: &[u64]) -> (out: Vec<u8>)
    requires
        1 <= order <= MAX_ORDER,
        lane.fits_all(residuals@),
    ensures
        out@ == seq![order] + word_varints(residuals@),
        xor_stream_parsed(lane, out@, residuals@.len()) == Ok::<_, Error>((order, residuals@)),
        out.len() <= 10 * residuals.len() + 1,
{
    let mut out: Vec<u8> = Vec::new();
    out.push(order);
    write_varints(&mut out, residuals);
    proof {
        assert(out@ =~= seq![order] + word_varints(residuals@));
        assert(out@.drop_first() =~= word_varints(residuals@));
        lemma_word_varints_len(residuals@);
        lemma_words_roundtrip(
            lane,
            residuals@,
            Error::CorruptPayload("delta2 trailing bytes"),
        );
    }
    out
}

/// The residuals of values against their predictions.
pub open spec fn residuals_of(vals: Seq<u64>, preds: Seq<u64>) -> Seq<u64> {
    Seq::new(vals.len(), |i: int| vals[i] ^ preds[i])
}

/// The words that DELTA2 residuals stand for, `predict` being what words foretell of the
/// next one.
pub open spec fn restored(
    order: u8,
    residuals: Seq<u64>,
    predict: spec_fn(u8, Seq<u64>) -> u64,
) -> Seq<u64>
    decreases residuals.len(),
{
    if residuals.len() == 0 {
        Seq::empty()
    } else {
        let before = restored(order, residuals.drop_last(), predict);
        before.push(residuals.last() ^ predict(order, before))
    }
}

/// The `n` words of a DELTA2 stream, given what words foretell of the next one.
pub open spec fn delta2_decoded(
    lane: Lane,
    payload: Seq<u8>,
    n: nat,
    predict: spec_fn(u8, Seq<u64>) -> u64,
) -> Result<Seq<u64>, Error> {
    match xor_stream_parsed(lane, payload, n) {
        Err(e) => Err(e),
        Ok((order, residuals)) => Ok(restored(order, residuals, predict)),
    }
}

/// `preds` are what the values before each value foretell of it.
pub open spec fn foretold(
    order: u8,
    vals: Seq<u64>,
    preds: Seq<u64>,
    predict: spec_fn(u8, Seq<u64>) -> u64,
) -> bool {
    forall|i: int| 0 <= i < vals.len() ==> #[trigger] preds[i] == predict(order, vals.take(i))
}

/// Residuals against what was foretold restore the values.
proof fn lemma_restored(
    order: u8,
    vals: Seq<u64>,
    preds: Seq<u64>,
    predict: spec_fn(u8, Seq<u64>) -> u64,
)
    requires
        vals.len() == preds.len(),
        foretold(order, vals, preds, predict),
    ensures
        restored(order, residuals_of(vals, preds), predict) == vals,
    decreases vals.len(),
{
    if vals.len() > 0 {
        let k = vals.len() - 1;
        let (v, p) = (vals.take(k), preds.take(k));
        assert forall|i: int| 0 <= i < v.len() implies #[trigger] p[i] == predict(
            order,
            v.take(i),
        ) by {
            assert(v.take(i) =~= vals.take(i));
            assert(preds[i] == predict(order, vals.take(i)));
        }
        lemma_restored(order, v, p, predict);
        assert(residuals_of(vals, preds).drop_last() =~= residuals_of(v, p));
        let (x, y) = (vals[k], preds[k]);
        assert((x ^ y) ^ y == x) by (bit_vector);
        assert(v.push(x) =~= vals);
    }
}

/// Store a DELTA2 block: each value against its prediction, which comes of the values
/// before it.
pub fn encode(lane: Lane, order: u8, vals: &[u64], preds: &[u64]) -> (out: Vec<u8>)
    requires
        1 <= order <= MAX_ORDER,
        preds.len() == vals.len(),
        lane.fits_all(vals@),
        lane.fits_all(preds@),
    ensures
        out@ == seq![order] + word_varints(residuals_of(vals@, preds@)),
        forall|predict: spec_fn(u8, Seq<u64>) -> u64|
            foretold(order, vals@, preds@, predict) ==> #[trigger] delta2_decoded(
                lane,
                out@,
                vals@.len(),
                predict,
            ) == Ok::<_, Error>(vals@),
        out.len() <= 10 * vals.len() + 1,
{
    let mut residuals: Vec<u64> = Vec::new();
    let mut i: usize = 0;
    while i < vals.len()
        invariant
            i <= vals.len(),
            preds.len() == vals.len(),
            lane.fits_all(vals@),
            lane.fits_all(preds@),
            residuals.len() == i,
            lane.fits_all(residuals@),
            forall|j: int| 0 <= j < i ==> #[trigger] residuals@[j] == vals@[j] ^ preds@[j],
        decreases vals.len() - i,
    {
        let x: u64 = vals[i];
        let y: u64 = preds[i];
        proof {
            assert(lane.fits(vals@[i as int]) && lane.fits(preds@[i as int]));
            assert(x < 0x1_0000_0000 && y < 0x1_0000_0000 ==> (x ^ y) < 0x1_0000_0000)
                by (bit_vector);
            assert(lane.fits(x ^ y));
        }
        residuals.push(x ^ y);
        i = i + 1;
    }
    assert(residuals@ =~= residuals_of(vals@, preds@));
    proof {
        assert forall|predict: spec_fn(u8, Seq<u64>) -> u64|
            foretold(order, vals@, preds@, predict) implies restored(
            order,
            residuals@,
            predict,
        ) == vals@ by {
            lemma_restored(order, vals@, preds@, predict);
        }
    }
    xor_stream(lane, order, &residuals)
}

/// Inverse of [`xor_stream`].
pub fn parse_xor_stream(lane: Lane, payload: &[u8], n: usize) -> (r: Result<(u8, Vec<u64>), Error>)
    ensures
        match xor_stream_parsed(lane, payload@, n as nat) {
            Err(e) => r == Err::<(u8, Vec<u64>), _>(e),
            Ok((order, words)) => r matches Ok((o, w)) && o == order && w@ == words
                && lane.fits_all(w@) && w.len() == n && 1 <= o <= MAX_ORDER,
        },
{
    if payload.len() == 0 {
        return Err(Error::Truncated);
    }
    let order: u8 = payload[0];
    if order < 1 || order > MAX_ORDER {
        return Err(Error::CorruptPayload("delta2 order"));
    }
    assert(payload@.skip(1) =~= payload@.drop_first());
    match read_varints(lane, tail(payload, 1), n, "delta2 trailing bytes") {
        Err(e) => Err(e),
        Ok(words) => Ok((order, words)),
    }
}

/// Store the residuals of a DELTA_DP block.
pub fn dp_stream(lane: Lane, order: u8, residuals: &[u64]) -> (out: Vec<u8>)
    requires
        1 <= order <= MAX_ORDER,
        lane.fits_all(residuals@),
    ensures
        out@ == seq![order] + xorz::xorz_bytes(residuals@, 0),
        dp_stream_parsed(lane, out@, residuals@.len()) == Ok::<_, Error>((order, residuals@)),
        out.len() <= 10 * residuals.len() + 1,
{
    let mut out: Vec<u8> = Vec::new();
    out.push(order);
    xorz::write_chain(&mut out, residuals);
    proof {
        assert(out@ =~= seq![order] + xorz::xorz_bytes(residuals@, 0));
        assert(out@.drop_first() =~= xorz::xorz_bytes(residuals@, 0));
        xorz::lemma_xorz_len(residuals@, 0);
        xorz::lemma_xorz_roundtrip(
            lane,
            residuals@,
            0,
            Error::CorruptPayload("delta_dp trailing bytes"),
        );
    }
    out
}

/// The `n` words of a DELTA_DP stream, given what residuals of an order stand for.
pub open spec fn dp_decoded(
    lane: Lane,
    payload: Seq<u8>,
    n: nat,
    eval: spec_fn(u8, Seq<u64>) -> Seq<u64>,
) -> Result<Seq<u64>, Error> {
    match dp_stream_parsed(lane, payload, n) {
        Err(e) => Err(e),
        Ok((order, residuals)) => Ok(eval(order, residuals)),
    }
}

/// Store the residuals of a DELTA_DP block, if the words that they evaluate to are the
/// block, bit for bit, and there are any.
pub fn dp_encode(lane: Lane, order: u8, vals: &[u64], residuals: &[u64], words: &[u64]) -> (r:
    Option<Vec<u8>>)
    requires
        1 <= order <= MAX_ORDER,
        lane.fits_all(residuals@),
    ensures
        r is Some <==> vals.len() > 0 && residuals.len() == vals.len() && words@ == vals@,
        r matches Some(out) ==> out@ == seq![order] + xorz::xorz_bytes(residuals@, 0),
        r matches Some(out) ==> forall|eval: spec_fn(u8, Seq<u64>) -> Seq<u64>|
            eval(order, residuals@) == words@ ==> #[trigger] dp_decoded(
                lane,
                out@,
                vals@.len(),
                eval,
            ) == Ok::<_, Error>(vals@),
        r matches Some(out) ==> out.len() <= 10 * vals.len() + 1,
{
    if vals.len() == 0 || residuals.len() != vals.len() || !same_words(words, vals) {
        return None;
    }
    Some(dp_stream(lane, order, residuals))
}

/// Inverse of [`dp_stream`].
pub fn parse_dp_stream(lane: Lane, payload: &[u8], n: usize) -> (r: Result<(u8, Vec<u64>), Error>)
    ensures
        match dp_stream_parsed(lane, payload@, n as nat) {
            Err(e) => r == Err::<(u8, Vec<u64>), _>(e),
            Ok((order, words)) => r matches Ok((o, w)) && o == order && w@ == words
                && lane.fits_all(w@) && w.len() == n && 1 <= o <= MAX_ORDER,
        },
{
    if payload.len() == 0 {
        return Err(Error::Truncated);
    }
    let order: u8 = payload[0];
    if order < 1 || order > MAX_ORDER {
        return Err(Error::CorruptPayload("delta_dp order"));
    }
    assert(payload@.skip(1) =~= payload@.drop_first());
    match xorz::read_chain(
        lane,
        payload,
        1,
        n,
        Error::CorruptPayload("delta_dp trailing bytes"),
    ) {
        Ok(words) => Ok((order, words)),
        Err(e) => Err(e),
    }
}

} // verus!
