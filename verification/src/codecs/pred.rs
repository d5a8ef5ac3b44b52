//! PRED: hash-table value predictors.
//!
//! A hash of the recent past indexes a table that holds what followed the last
//! time; the difference between prediction and value (exclusive-or) is stored as
//! a varint, small when the prediction is close. Encoder and decoder evolve the
//! table identically, so the residuals are all that is stored.
//!
//! * [`encode`]/[`decode`]: FCM, which predicts the last value seen after the
//!   current one. Good on repeats.
//! * [`dfcm_encode`]/[`dfcm_decode`]: DFCM, which predicts the last value plus
//!   the last delta seen after the current delta. Good on smooth data.

use vstd::prelude::*;
use vstd::arithmetic::power2::*;
use crate::bitio::two_to;
use crate::error;
use crate::error::Error;
use crate::hash;
use crate::hash::{best_hash, HASH_SEED};
use crate::lane;
use crate::lane::Lane;
use crate::varint;

verus! {

/// Which of the two predictors runs.
#[derive(Clone, Copy, Debug, PartialEq, Eq, Structural)]
pub enum Flavor {
    /// Predict the value itself.
    Fcm,
    /// Predict the delta to the last value.
    Dfcm,
}

/// A predictor: its table, the current slot and the last value.
pub struct Predictor {
    pub table: Seq<u64>,
    pub slot: int,
    pub last: u64,
}

/// A predictor before the first value.
pub open spec fn fresh(log2: u8) -> Predictor {
    Predictor { table: Seq::new(pow2(log2 as nat), |i: int| 0u64), slot: 0, last: 0 }
}

/// What the predictor expects next.
pub open spec fn predicted(lane: Lane, flavor: Flavor, p: Predictor) -> u64 {
    match flavor {
        Flavor::Fcm => p.table[p.slot],
        Flavor::Dfcm => lane.sum(p.last, p.table[p.slot]),
    }
}

/// The predictor after value `v`.
pub open spec fn advanced(lane: Lane, flavor: Flavor, p: Predictor, v: u64, log2: u8) -> Predictor {
    let learned = match flavor {
        Flavor::Fcm => v,
        Flavor::Dfcm => lane.diff(v, p.last),
    };
    Predictor {
        table: p.table.update(p.slot, learned),
        slot: hash::slot_of(learned, log2),
        last: v,
    }
}

/// The residual varints of `vals`.
pub open spec fn residual_bytes(
    lane: Lane,
    flavor: Flavor,
    vals: Seq<u64>,
    p: Predictor,
    log2: u8,
) -> Seq<u8>
    decreases vals.len(),
{
    if vals.len() == 0 {
        Seq::empty()
    } else {
        varint::varint_bytes((vals[0] ^ predicted(lane, flavor, p)) as nat) + residual_bytes(
            lane,
            flavor,
            vals.drop_first(),
            advanced(lane, flavor, p, vals[0], log2),
            log2,
        )
    }
}

/// The `n` values whose residual varints are `s`.
pub open spec fn residual_parse(
    lane: Lane,
    flavor: Flavor,
    s: Seq<u8>,
    n: nat,
    p: Predictor,
    log2: u8,
) -> Result<Seq<u64>, Error>
    decreases n,
{
    if n == 0 {
        if s.len() == 0 {
            Ok(Seq::empty())
        } else {
            Err(trailing_error(flavor))
        }
    } else {
        match varint::varint_parse(s) {
            Err(e) => Err(e),
            Ok((x, rest)) => if !lane.fits(x) {
                Err(Error::CorruptPayload("value exceeds 32-bit lane"))
            } else {
                let v = x ^ predicted(lane, flavor, p);
                match residual_parse(
                    lane,
                    flavor,
                    rest,
                    (n - 1) as nat,
                    advanced(lane, flavor, p, v, log2),
                    log2,
                ) {
                    Err(e) => Err(e),
                    Ok(more) => Ok(seq![v] + more),
                }
            },
        }
    }
}

/// The error for bytes after the last residual.
pub open spec fn trailing_error(flavor: Flavor) -> Error {
    match flavor {
        Flavor::Fcm => Error::CorruptPayload("pred trailing bytes"),
        Flavor::Dfcm => Error::CorruptPayload("dfcm trailing bytes"),
    }
}

/// The `n` values coded by the FCM residuals `payload`.
pub open spec fn fcm_decoded(lane: Lane, payload: Seq<u8>, n: nat, log2: u8) -> Result<
    Seq<u64>,
    Error,
> {
    residual_parse(lane, Flavor::Fcm, payload, n, fresh(log2), log2)
}

/// The `n` values coded by the DFCM residuals `payload`.
pub open spec fn dfcm_decoded(lane: Lane, payload: Seq<u8>, n: nat, log2: u8) -> Result<
    Seq<u64>,
    Error,
> {
    residual_parse(lane, Flavor::Dfcm, payload, n, fresh(log2), log2)
}

/// Every table entry is a word, and the slot lies inside the table.
pub open spec fn predictor_ok(lane: Lane, p: Predictor, log2: u8) -> bool {
    &&& p.table.len() == pow2(log2 as nat)
    &&& 0 <= p.slot < p.table.len()
    &&& lane.fits(p.last)
    &&& lane.fits_all(p.table)
}

pub proof fn lemma_predictor_ok(lane: Lane, flavor: Flavor, p: Predictor, v: u64, log2: u8)
    requires
        predictor_ok(lane, p, log2),
        lane.fits(v),
    ensures
        lane.fits(predicted(lane, flavor, p)),
        predictor_ok(lane, advanced(lane, flavor, p, v, log2), log2),
{
    assert(lane.fits(p.table[p.slot]));
    lane::lemma_lane_diff_sum(lane, v, p.last);
    lane::lemma_lane_diff_sum(lane, p.last, p.table[p.slot]);
    lemma_pow2_pos(log2 as nat);
    let q = advanced(lane, flavor, p, v, log2);
    vstd::arithmetic::div_mod::lemma_mod_bound(
        hash::crc32c(
            HASH_SEED,
            match flavor {
                Flavor::Fcm => v,
                Flavor::Dfcm => lane.diff(v, p.last),
            },
        ) as int,
        pow2(log2 as nat) as int,
    );
    assert forall|i: int| 0 <= i < q.table.len() implies lane.fits(#[trigger] q.table[i]) by {
        if i != p.slot {
            assert(lane.fits(p.table[i]));
        }
    }
}

proof fn lemma_fresh_ok(lane: Lane, log2: u8)
    ensures
        predictor_ok(lane, fresh(log2), log2),
{
    lemma_pow2_pos(log2 as nat);
}

/// Predicted values survive their residuals.
pub proof fn lemma_residual_roundtrip(
    lane: Lane,
    flavor: Flavor,
    vals: Seq<u64>,
    p: Predictor,
    log2: u8,
)
    requires
        lane.fits_all(vals),
        predictor_ok(lane, p, log2),
    ensures
        residual_parse(
            lane,
            flavor,
            residual_bytes(lane, flavor, vals, p, log2),
            vals.len(),
            p,
            log2,
        ) == Ok::<_, Error>(vals),
    decreases vals.len(),
{
    if vals.len() > 0 {
        let v = vals[0];
        assert(lane.fits(vals[0]));
        let rest = vals.drop_first();
        assert(lane.fits_all(rest)) by {
            assert forall|i: int| 0 <= i < rest.len() implies lane.fits(#[trigger] rest[i]) by {
                assert(lane.fits(vals[i + 1]));
            }
        }
        let guess = predicted(lane, flavor, p);
        let q = advanced(lane, flavor, p, v, log2);
        lemma_predictor_ok(lane, flavor, p, v, log2);
        lane::lemma_lane_xor(lane, v, guess);
        lemma_residual_roundtrip(lane, flavor, rest, q, log2);
        varint::lemma_varint_roundtrip(
            v ^ guess,
            residual_bytes(lane, flavor, rest, q, log2),
        );
        assert(seq![v] + rest =~= vals);
    } else {
        assert(vals =~= Seq::empty());
    }
}

proof fn lemma_residual_len(lane: Lane, flavor: Flavor, vals: Seq<u64>, p: Predictor, log2: u8)
    ensures
        residual_bytes(lane, flavor, vals, p, log2).len() <= 10 * vals.len(),
    decreases vals.len(),
{
    if vals.len() > 0 {
        varint::lemma_varint_len(vals[0] ^ predicted(lane, flavor, p));
        lemma_residual_len(
            lane,
            flavor,
            vals.drop_first(),
            advanced(lane, flavor, p, vals[0], log2),
            log2,
        );
    }
}

/// The running predictor.
struct Runner {
    table: Vec<u64>,
    slot: usize,
    last: u64,
}

impl Runner {
    spec fn state(&self) -> Predictor {
        Predictor { table: self.table@, slot: self.slot as int, last: self.last }
    }

    fn new(log2: u8) -> (r: Self)
        requires
            log2 < usize::BITS,
        ensures
            r.state() == fresh(log2),
    {
        proof {
            vstd::bits::lemma_usize_pow2_no_overflow(log2 as nat);
        }
        let size: usize = two_to(log2 as u32) as usize;
        let r = Runner { table: vec![0; size], slot: 0, last: 0 };
        assert(r.table@ =~= fresh(log2).table);
        r
    }

    fn predict(&self, lane: Lane, flavor: Flavor, Ghost(log2): Ghost<u8>) -> (guess: u64)
        requires
            predictor_ok(lane, self.state(), log2),
        ensures
            guess == predicted(lane, flavor, self.state()),
            lane.fits(guess),
    {
        let entry: u64 = self.table[self.slot];
        assert(lane.fits(self.table@[self.slot as int]));
        match flavor {
            Flavor::Fcm => entry,
            Flavor::Dfcm => lane.wrapping_add(self.last, entry),
        }
    }

    fn learn(&mut self, lane: Lane, flavor: Flavor, v: u64, log2: u8)
        requires
            log2 < usize::BITS,
            lane.fits(v),
            predictor_ok(lane, old(self).state(), log2),
        ensures
            final(self).state() == advanced(lane, flavor, old(self).state(), v, log2),
            predictor_ok(lane, final(self).state(), log2),
    {
        proof {
            lemma_predictor_ok(lane, flavor, self.state(), v, log2);
            vstd::bits::lemma_usize_pow2_no_overflow(log2 as nat);
        }
        let learned: u64 = match flavor {
            Flavor::Fcm => v,
            Flavor::Dfcm => lane.wrapping_sub(v, self.last),
        };
        let slot: usize = self.slot;
        self.table[slot] = learned;
        let h: u32 = best_hash(HASH_SEED, learned);
        self.slot = (h as u64 % two_to(log2 as u32)) as usize;
        self.last = v;
    }
}

fn encode_with(lane: Lane, flavor: Flavor, vals: &[u64], log2: u8) -> (out: Vec<u8>)
    requires
        lane.fits_all(vals@),
        log2 < usize::BITS,
    ensures
        out@ == residual_bytes(lane, flavor, vals@, fresh(log2), log2),
        residual_parse(lane, flavor, out@, vals@.len(), fresh(log2), log2) == Ok::<_, Error>(
            vals@,
        ),
        out.len() <= 10 * vals.len(),
{
    proof {
        lemma_residual_len(lane, flavor, vals@, fresh(log2), log2);
    }
    let mut out: Vec<u8> = Vec::new();
    let mut run = Runner::new(log2);
    let mut i: usize = 0;
    let ghost whole = residual_bytes(lane, flavor, vals@, fresh(log2), log2);
    proof {
        lemma_fresh_ok(lane, log2);
        assert(vals@.skip(0) =~= vals@);
        assert(out@ + whole =~= whole);
    }
    while i < vals.len()
        invariant
            i <= vals.len(),
            log2 < usize::BITS,
            lane.fits_all(vals@),
            predictor_ok(lane, run.state(), log2),
            out@ + residual_bytes(lane, flavor, vals@.skip(i as int), run.state(), log2) == whole,
        decreases vals.len() - i,
    {
        let v: u64 = vals[i];
        assert(lane.fits(vals@[i as int]));
        let ghost before = out@;
        let ghost p = run.state();
        let guess: u64 = run.predict(lane, flavor, Ghost(log2));
        varint::write_u64(&mut out, v ^ guess);
        run.learn(lane, flavor, v, log2);
        proof {
            let t = vals@.skip(i as int);
            assert(t.drop_first() =~= vals@.skip(i + 1));
            assert(out@ + residual_bytes(lane, flavor, vals@.skip(i + 1), run.state(), log2)
                =~= before + residual_bytes(lane, flavor, t, p, log2));
        }
        i = i + 1;
    }
    proof {
        assert(out@ + Seq::<u8>::empty() =~= out@);
        lemma_residual_roundtrip(lane, flavor, vals@, fresh(log2), log2);
    }
    out
}

fn decode_with(lane: Lane, flavor: Flavor, payload: &[u8], n: usize, log2: u8) -> (r: Result<
    Vec<u64>,
    Error,
>)
    requires
        log2 < usize::BITS,
    ensures
        error::viewed(r) == residual_parse(lane, flavor, payload@, n as nat, fresh(log2), log2),
        r matches Ok(v) ==> lane.fits_all(v@) && v.len() == n,
{
    let ghost whole = residual_parse(lane, flavor, payload@, n as nat, fresh(log2), log2);
    let mut run = Runner::new(log2);
    let mut out: Vec<u64> = Vec::new();
    let mut pos: usize = 0;
    let mut i: usize = 0;
    proof {
        lemma_fresh_ok(lane, log2);
        assert(payload@.skip(0) =~= payload@);
        if let Ok(t) = whole {
            assert(out@ + t =~= t);
        }
    }
    while i < n
        invariant
            i <= n,
            log2 < usize::BITS,
            pos <= payload.len(),
            out.len() == i,
            lane.fits_all(out@),
            predictor_ok(lane, run.state(), log2),
            whole == residual_parse(lane, flavor, payload@, n as nat, fresh(log2), log2),
            whole == (match residual_parse(
                lane,
                flavor,
                payload@.skip(pos as int),
                (n - i) as nat,
                run.state(),
                log2,
            ) {
                Err(e) => Err::<Seq<u64>, _>(e),
                Ok(t) => Ok(out@ + t),
            }),
        decreases n - i,
    {
        let ghost before = out@;
        let ghost p = run.state();
        let raw: u64 = match varint::read_u64(payload, &mut pos) {
            Ok(v) => v,
            Err(e) => return Err(e),
        };
        let x: u64 = match lane.try_from_u64(raw) {
            Ok(v) => v,
            Err(e) => return Err(e),
        };
        let guess: u64 = run.predict(lane, flavor, Ghost(log2));
        let v: u64 = x ^ guess;
        proof {
            lane::lemma_lane_xor(lane, x, guess);
        }
        out.push(v);
        run.learn(lane, flavor, v, log2);
        proof {
            if let Ok(t) = residual_parse(
                lane,
                flavor,
                payload@.skip(pos as int),
                (n - i - 1) as nat,
                run.state(),
                log2,
            ) {
                assert(before + (seq![v] + t) =~= out@ + t);
            }
        }
        i = i + 1;
    }
    if pos != payload.len() {
        return match flavor {
            Flavor::Fcm => Err(Error::CorruptPayload("pred trailing bytes")),
            Flavor::Dfcm => Err(Error::CorruptPayload("dfcm trailing bytes")),
        };
    }
    assert(out@ + Seq::<u64>::empty() =~= out@);
    Ok(out)
}

/// FCM residuals of a block.
pub fn encode(lane: Lane, vals: &[u64], log2: u8) -> (out: Vec<u8>)
    requires
        lane.fits_all(vals@),
        log2 < usize::BITS,
    ensures
        out@ == residual_bytes(lane, Flavor::Fcm, vals@, fresh(log2), log2),
        fcm_decoded(lane, out@, vals@.len(), log2) == Ok::<_, Error>(vals@),
        out.len() <= 10 * vals.len(),
{
    encode_with(lane, Flavor::Fcm, vals, log2)
}

/// Inverse of [`encode`].
pub fn decode(lane: Lane, payload: &[u8], n: usize, log2: u8) -> (r: Result<Vec<u64>, Error>)
    requires
        log2 < usize::BITS,
    ensures
        error::viewed(r) == fcm_decoded(lane, payload@, n as nat, log2),
        r matches Ok(v) ==> lane.fits_all(v@) && v.len() == n,
{
    decode_with(lane, Flavor::Fcm, payload, n, log2)
}

/// DFCM residuals of a block.
pub fn dfcm_encode(lane: Lane, vals: &[u64], log2: u8) -> (out: Vec<u8>)
    requires
        lane.fits_all(vals@),
        log2 < usize::BITS,
    ensures
        out@ == residual_bytes(lane, Flavor::Dfcm, vals@, fresh(log2), log2),
        dfcm_decoded(lane, out@, vals@.len(), log2) == Ok::<_, Error>(vals@),
        out.len() <= 10 * vals.len(),
{
    encode_with(lane, Flavor::Dfcm, vals, log2)
}

/// Inverse of [`dfcm_encode`].
pub fn dfcm_decode(lane: Lane, payload: &[u8], n: usize, log2: u8) -> (r: Result<Vec<u64>, Error>)
    requires
        log2 < usize::BITS,
    ensures
        error::viewed(r) == dfcm_decoded(lane, payload@, n as nat, log2),
        r matches Ok(v) ==> lane.fits_all(v@) && v.len() == n,
{
    decode_with(lane, Flavor::Dfcm, payload, n, log2)
}

} // verus!
