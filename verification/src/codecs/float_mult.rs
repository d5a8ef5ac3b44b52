//! FLOAT_MULT: when every value is an integer multiple `k` of one decimal unit
//! `1/scale` (cent-rounded prices), the integers are stored in place of the
//! float bit patterns.
//!
//! The multiples are coded one of two ways, named by the payload's first byte:
//! bit-packed (signed frame of reference, random access) or entropy-coded
//! (zigzag deltas through the residual coder). The smaller wins. Rounding to
//! multiples and dividing by the scale again is float arithmetic and happens
//! outside, once for each scale ([`Trial`]); [`encode`] takes the first scale whose
//! multiples give the block back exactly.
//!
//! Payload: `tag:u8 ++ scale index:u8 ++ multiples`.

use vstd::prelude::*;
use crate::bytes::{append_bytes, tail};
use crate::codecs::delta_bitpack;
use crate::codecs::delta_bitpack::{running_sums, zigzag_deltas};
use crate::codecs::for_bitpack;
use crate::codecs::linear;
use crate::codecs::pred_rc;
use crate::codecs::pred_rc::resid_bound;
use crate::entropy;
use crate::entropy::{code_residuals, decode_residuals};
use crate::error::Error;
use crate::lane;
use crate::lane::{same_words, Lane};

verus! {

/// The multiples are bit-packed.
pub const FM_BITPACK: u8 = 0;

/// The multiples are zigzag deltas, residual-coded.
pub const FM_ENTROPY: u8 = 1;

/// Number of decimal scales: `10^1` to `10^7`, by index.
pub const FM_SCALES: u8 = 7;

/// A 64-bit two's-complement word narrowed to the lane.
pub open spec fn narrowed(lane: Lane, k: u64) -> u64 {
    lane.unsigned(Lane::W64.signed(k))
}

/// A lane word sign-extended to 64 bits.
pub open spec fn widened(lane: Lane, w: u64) -> u64 {
    Lane::W64.unsigned(lane.signed(w))
}

/// Whether a 64-bit two's-complement word survives narrowing to the lane.
pub open spec fn narrow_fits(lane: Lane, k: u64) -> bool {
    -(lane.modulus() as int) <= 2 * Lane::W64.signed(k) < lane.modulus()
}

/// Widening gives back a word that fits.
pub proof fn lemma_widen_narrow(lane: Lane, k: u64)
    requires
        narrow_fits(lane, k),
    ensures
        widened(lane, narrowed(lane, k)) == k,
        lane.fits(narrowed(lane, k)),
{
}

pub fn narrow(lane: Lane, k: u64) -> (w: u64)
    ensures
        w == narrowed(lane, k),
        lane.fits(w),
{
    let s: i64 = Lane::W64.as_signed(k);
    lane.from_signed(s)
}

pub fn widen(lane: Lane, w: u64) -> (k: u64)
    requires
        lane.fits(w),
    ensures
        k == widened(lane, w),
{
    let s: i64 = lane.as_signed(w);
    Lane::W64.from_signed(s)
}

/// Whether `k` survives narrowing to the lane.
pub fn fits_narrow(lane: Lane, k: u64) -> (r: bool)
    ensures
        r == narrow_fits(lane, k),
{
    let s: i64 = Lane::W64.as_signed(k);
    match lane {
        Lane::W32 => -0x8000_0000 <= s && s < 0x8000_0000,
        Lane::W64 => true,
    }
}

pub open spec fn all_widened(lane: Lane, words: Seq<u64>) -> Seq<u64> {
    Seq::new(words.len(), |i: int| widened(lane, words[i]))
}

/// The `n` multiples in `s` under `tag`, as 64-bit two's-complement words.
pub open spec fn multiples_decoded(lane: Lane, tag: u8, s: Seq<u8>, n: nat) -> Result<
    Seq<u64>,
    Error,
> {
    if tag == FM_BITPACK {
        match for_bitpack::for_decoded(lane, s, n) {
            Err(e) => Err(e),
            Ok(words) => Ok(all_widened(lane, words)),
        }
    } else if tag == FM_ENTROPY {
        match entropy::residuals_decoded(s, pred_rc::residual_bound(n)) {
            Err(e) => Err(e),
            Ok(stream) => match linear::words_parse(
                Lane::W64,
                stream,
                n,
                Error::CorruptPayload("float_mult trailing bytes"),
            ) {
                Err(e) => Err(e),
                Ok(deltas) => Ok(delta_bitpack::summed(Lane::W64, deltas, 0)),
            },
        }
    } else {
        Err(Error::CorruptPayload("float_mult tag"))
    }
}

/// The scale index and the `n` multiples coded by `payload`.
pub open spec fn fm_parsed(lane: Lane, payload: Seq<u8>, n: nat) -> Result<(u8, Seq<u64>), Error> {
    if payload.len() < 2 {
        Err(Error::Truncated)
    } else if payload[1] >= FM_SCALES {
        Err(Error::CorruptPayload("float_mult scale index"))
    } else {
        match multiples_decoded(lane, payload[0], payload.skip(2), n) {
            Err(e) => Err(e),
            Ok(ks) => Ok((payload[1], ks)),
        }
    }
}

/// A block of multiples that can be stored.
pub open spec fn fm_applies(lane: Lane, scale: u8, ks: Seq<u64>) -> bool {
    &&& ks.len() > 0
    &&& scale < FM_SCALES
    &&& forall|i: int| 0 <= i < ks.len() ==> narrow_fits(lane, #[trigger] ks[i])
}

fn all_narrow_fit(lane: Lane, ks: &[u64]) -> (r: bool)
    ensures
        r == (forall|i: int| 0 <= i < ks.len() ==> narrow_fits(lane, #[trigger] ks@[i])),
{
    let mut i: usize = 0;
    while i < ks.len()
        invariant
            i <= ks.len(),
            forall|j: int| 0 <= j < i ==> narrow_fits(lane, #[trigger] ks@[j]),
        decreases ks.len() - i,
    {
        if !fits_narrow(lane, ks[i]) {
            return false;
        }
        i = i + 1;
    }
    true
}

/// The multiples as lane words.
pub open spec fn all_narrowed(lane: Lane, ks: Seq<u64>) -> Seq<u64> {
    Seq::new(ks.len(), |i: int| narrowed(lane, ks[i]))
}

/// The payload of a block of multiples: tag, scale and the multiples, bit-packed or,
/// where `entropy` allows it and it is smaller, as residual-coded zigzag deltas.
pub open spec fn fm_image(
    lane: Lane,
    scale: u8,
    ks: Seq<u64>,
    entropy: bool,
    lambda: u64,
    allow_lz: bool,
) -> Seq<u8> {
    let plain = for_bitpack::for_image(lane, true, all_narrowed(lane, ks));
    let deltas = delta_bitpack::deltas_of(Lane::W64, ks, 0);
    let coded = entropy::residuals_coded(linear::word_varints(deltas), lambda, allow_lz);
    if entropy && coded.len() < plain.len() {
        seq![FM_ENTROPY, scale] + coded
    } else {
        seq![FM_BITPACK, scale] + plain
    }
}

/// The multiples bit-packed on the lane.
fn packed(lane: Lane, ks: &[u64]) -> (out: Vec<u8>)
    requires
        forall|i: int| 0 <= i < ks.len() ==> narrow_fits(lane, #[trigger] ks@[i]),
    ensures
        multiples_decoded(lane, FM_BITPACK, out@, ks@.len()) == Ok::<_, Error>(ks@),
        out@ == for_bitpack::for_image(lane, true, all_narrowed(lane, ks@)),
{
    let mut words: Vec<u64> = Vec::new();
    let mut i: usize = 0;
    while i < ks.len()
        invariant
            i <= ks.len(),
            words.len() == i,
            lane.fits_all(words@),
            forall|j: int| 0 <= j < i ==> #[trigger] words@[j] == narrowed(lane, ks@[j]),
        decreases ks.len() - i,
    {
        words.push(narrow(lane, ks[i]));
        i = i + 1;
    }
    proof {
        assert forall|j: int| 0 <= j < ks.len() implies widened(lane, words@[j]) == #[trigger] ks@[
            j
        ] by {
            assert(narrow_fits(lane, ks@[j]));
            lemma_widen_narrow(lane, ks@[j]);
        }
        assert(all_widened(lane, words@) =~= ks@);
        assert(words@ =~= all_narrowed(lane, ks@));
    }
    for_bitpack::encode(lane, &words, true)
}

/// The multiples as zigzag deltas, residual-coded.
fn coded(ks: &[u64], lambda: u64, allow_lz: bool) -> (out: Vec<u8>)
    ensures
        multiples_decoded(Lane::W32, FM_ENTROPY, out@, ks@.len()) == Ok::<_, Error>(ks@),
        multiples_decoded(Lane::W64, FM_ENTROPY, out@, ks@.len()) == Ok::<_, Error>(ks@),
        out@ == entropy::residuals_coded(
            linear::word_varints(delta_bitpack::deltas_of(Lane::W64, ks@, 0)),
            lambda,
            allow_lz,
        ),
{
    let deltas = zigzag_deltas(Lane::W64, ks, 0);
    let mut stream: Vec<u8> = Vec::new();
    linear::write_varints(&mut stream, &deltas);
    proof {
        assert(stream@ =~= linear::word_varints(deltas@));
        linear::lemma_word_varints_len(deltas@);
        delta_bitpack::lemma_delta_roundtrip(Lane::W64, ks@, 0);
        linear::lemma_words_roundtrip(
            Lane::W64,
            deltas@,
            Error::CorruptPayload("float_mult trailing bytes"),
        );
        assert(stream@.len() == stream.len());
    }
    code_residuals(&stream, lambda, allow_lz)
}

/// Store a block of multiples (64-bit two's-complement words) of the decimal
/// unit named by `scale`.
pub fn store(lane: Lane, scale: u8, ks: &[u64], entropy: bool, lambda: u64, allow_lz: bool) -> (r:
    Option<Vec<u8>>)
    ensures
        r is Some <==> fm_applies(lane, scale, ks@),
        r matches Some(out) ==> out@ == fm_image(lane, scale, ks@, entropy, lambda, allow_lz),
        r matches Some(out) ==> fm_parsed(lane, out@, ks@.len()) == Ok::<_, Error>((scale, ks@)),
{
    if ks.len() == 0 || scale >= FM_SCALES || !all_narrow_fit(lane, ks) {
        return None;
    }
    let mut tag: u8 = FM_BITPACK;
    let mut blob = packed(lane, ks);
    if entropy {
        let c = coded(ks, lambda, allow_lz);
        if c.len() < blob.len() {
            tag = FM_ENTROPY;
            blob = c;
        }
    }
    let mut out: Vec<u8> = Vec::new();
    out.push(tag);
    out.push(scale);
    append_bytes(&mut out, &blob);
    proof {
        assert(out@.skip(2) =~= blob@);
        assert(out@ =~= seq![tag, scale] + blob@);
    }
    Some(out)
}

/// A block under a decimal unit: the multiples nearest to its values, and the words that
/// the multiples evaluate to.
pub struct Trial {
    pub scale: u8,
    pub multiples: Vec<u64>,
    pub words: Vec<u64>,
}

/// The multiples of a trial give the values back, bit for bit.
pub open spec fn is_exact(vals: Seq<u64>, trial: Trial) -> bool {
    &&& trial.multiples@.len() == vals.len()
    &&& trial.words@ == vals
}

/// Trial `j` is the first exact one.
pub open spec fn first_exact(vals: Seq<u64>, trials: Seq<Trial>, j: int) -> bool {
    &&& 0 <= j < trials.len()
    &&& is_exact(vals, trials[j])
    &&& forall|k: int| 0 <= k < j ==> !is_exact(vals, #[trigger] trials[k])
}

/// The first trial that is exact for every value of the block.
pub fn exact_scale(vals: &[u64], trials: &[Trial]) -> (r: Option<usize>)
    ensures
        match r {
            Some(j) => first_exact(vals@, trials@, j as int),
            None => forall|k: int| 0 <= k < trials.len() ==> !is_exact(vals@, #[trigger] trials@[k]),
        },
{
    let mut i: usize = 0;
    while i < trials.len()
        invariant
            i <= trials.len(),
            forall|k: int| 0 <= k < i ==> !is_exact(vals@, #[trigger] trials@[k]),
        decreases trials.len() - i,
    {
        if trials[i].multiples.len() == vals.len() && same_words(&trials[i].words, vals) {
            return Some(i);
        }
        i = i + 1;
    }
    None
}

/// `eval` gives the words that multiples of a unit stand for; the trials hold what it
/// gives.
pub open spec fn trials_evaluated(trials: Seq<Trial>, eval: spec_fn(u8, u64) -> u64) -> bool {
    forall|j: int|
        0 <= j < trials.len() ==> (#[trigger] trials[j]).words@ == evaluated(
            trials[j].scale,
            trials[j].multiples@,
            eval,
        )
}

/// The words that multiples of a unit stand for.
pub open spec fn evaluated(scale: u8, multiples: Seq<u64>, eval: spec_fn(u8, u64) -> u64) -> Seq<
    u64,
> {
    Seq::new(multiples.len(), |i: int| eval(scale, multiples[i]))
}

/// The `n` words of a block, given what a multiple of a unit stands for.
pub open spec fn fm_decoded(
    lane: Lane,
    payload: Seq<u8>,
    n: nat,
    eval: spec_fn(u8, u64) -> u64,
) -> Result<Seq<u64>, Error> {
    match fm_parsed(lane, payload, n) {
        Err(e) => Err(e),
        Ok((scale, multiples)) => Ok(evaluated(scale, multiples, eval)),
    }
}

/// Store a block under the first unit whose multiples give it back exactly, if there is
/// one and they can be stored.
pub fn encode(
    lane: Lane,
    vals: &[u64],
    trials: &[Trial],
    entropy: bool,
    lambda: u64,
    allow_lz: bool,
) -> (r: Option<Vec<u8>>)
    ensures
        forall|j: int| #[trigger]
            first_exact(vals@, trials@, j) ==> {
                &&& r is Some <==> fm_applies(lane, trials@[j].scale, trials@[j].multiples@)
                &&& r matches Some(out) ==> out@ == fm_image(
                    lane,
                    trials@[j].scale,
                    trials@[j].multiples@,
                    entropy,
                    lambda,
                    allow_lz,
                ) && fm_parsed(lane, out@, vals@.len()) == Ok::<_, Error>(
                    (trials@[j].scale, trials@[j].multiples@),
                )
            },
        r is Some ==> exists|j: int| #[trigger] first_exact(vals@, trials@, j),
        r matches Some(out) ==> forall|eval: spec_fn(u8, u64) -> u64|
            trials_evaluated(trials@, eval) ==> #[trigger] fm_decoded(
                lane,
                out@,
                vals@.len(),
                eval,
            ) == Ok::<_, Error>(vals@),
{
    let j: usize = match exact_scale(vals, trials) {
        None => return None,
        Some(j) => j,
    };
    let trial: &Trial = &trials[j];
    let r = store(lane, trial.scale, &trial.multiples, entropy, lambda, allow_lz);
    proof {
        assert forall|i: int| #[trigger] first_exact(vals@, trials@, i) implies i == j by {
            if i < j {
                assert(!is_exact(vals@, trials@[i]));
            } else if j < i {
                assert(!is_exact(vals@, trials@[j as int]));
            }
        }
        assert(first_exact(vals@, trials@, j as int));
    }
    r
}

fn decode_multiples(lane: Lane, tag: u8, s: &[u8], n: usize) -> (r: Result<Vec<u64>, Error>)
    ensures
        crate::error::viewed(r) == multiples_decoded(lane, tag, s@, n as nat),
        r matches Ok(v) ==> v.len() == n,
{
    if tag == FM_BITPACK {
        let words: Vec<u64> = match for_bitpack::decode(lane, s, n) {
            Err(e) => return Err(e),
            Ok(w) => w,
        };
        let mut out: Vec<u64> = Vec::new();
        let mut i: usize = 0;
        while i < words.len()
            invariant
                i <= words.len(),
                lane.fits_all(words@),
                out.len() == i,
                forall|j: int| 0 <= j < i ==> #[trigger] out@[j] == widened(lane, words@[j]),
            decreases words.len() - i,
        {
            assert(lane.fits(words@[i as int]));
            out.push(widen(lane, words[i]));
            i = i + 1;
        }
        assert(out@ =~= all_widened(lane, words@));
        Ok(out)
    } else if tag == FM_ENTROPY {
        let stream: Vec<u8> = match decode_residuals(s, resid_bound(n)) {
            Err(e) => return Err(e),
            Ok(v) => v,
        };
        match linear::read_varints(Lane::W64, &stream, n, "float_mult trailing bytes") {
            Err(e) => Err(e),
            Ok(deltas) => Ok(running_sums(Lane::W64, &deltas, 0)),
        }
    } else {
        Err(Error::CorruptPayload("float_mult tag"))
    }
}

/// Inverse of [`encode`]: the scale index and the multiples.
pub fn parse(lane: Lane, payload: &[u8], n: usize) -> (r: Result<(u8, Vec<u64>), Error>)
    ensures
        match fm_parsed(lane, payload@, n as nat) {
            Err(e) => r == Err::<(u8, Vec<u64>), Error>(e),
            Ok((scale, ks)) => r is Ok && r->Ok_0.0 == scale && r->Ok_0.1@ == ks,
        },
        r matches Ok((scale, ks)) ==> scale < FM_SCALES && ks.len() == n,
{
    if payload.len() < 2 {
        return Err(Error::Truncated);
    }
    let scale: u8 = payload[1];
    if scale >= FM_SCALES {
        return Err(Error::CorruptPayload("float_mult scale index"));
    }
    match decode_multiples(lane, payload[0], tail(payload, 2), n) {
        Err(e) => Err(e),
        Ok(ks) => Ok((scale, ks)),
    }
}

} // verus!
