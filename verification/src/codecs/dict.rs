//! DICT: distinct values become small codes. Wins on columns with few distinct
//! values whose repeats are scattered.
//!
//! Two streams are each stored in whichever form is smallest. The codes:
//! bit-packed, or split into byte planes that are entropy-coded. The dictionary
//! values, sorted so that they compress: verbatim, as bit-packed deltas, or as
//! entropy-coded byte planes.
//!
//! The shared variant ([`build_shared`], [`encode_shared`]) lifts the value
//! table to a preamble stored once per stream; its blocks hold codes only.

use vstd::prelude::*;
use rustc_hash::FxHashMap;
use crate::bytes::tail;
use crate::codecs::delta_bitpack;
use crate::codecs::for_bitpack;
use crate::codecs::transpose;
use crate::entropy;
use crate::entropy::{code_residuals, decode_residuals};
use crate::error;
use crate::error::Error;
use crate::fxmap;
use crate::fxmap::{fx_get, fx_insert, fx_new, index_table};
use crate::lane;
use crate::lane::Lane;
use crate::sort;
use crate::sort::sorted_words;
use crate::varint;

verus! {

/// Tag of bit-packed codes.
pub const CODES_BITPACK: u8 = 0;

/// Tag of entropy-coded byte planes of codes.
pub const CODES_ENTROPY: u8 = 1;

/// Largest cardinality that byte planes handle.
pub const MAX_ENTROPY_CARD: usize = 65536;

/// Tag of verbatim dictionary values.
pub const VAL_RAW: u8 = 0;

/// Tag of delta-coded dictionary values.
pub const VAL_DELTA: u8 = 1;

/// Tag of entropy-coded byte planes of dictionary values.
pub const VAL_TRANSPOSE: u8 = 2;

/// Cap on a shared table's cardinality.
pub const SHARED_MAX_CARD: usize = 1048576;

/// The `card` dictionary values stored in `blob` under `tag`.
pub open spec fn values_decoded(lane: Lane, tag: u8, blob: Seq<u8>, card: nat) -> Result<
    Seq<u64>,
    Error,
> {
    if tag == VAL_RAW {
        if blob.len() != card * lane.bytes() {
            Err(Error::CorruptPayload("dict raw values length"))
        } else {
            Ok(lane.words_of(blob))
        }
    } else if tag == VAL_DELTA {
        delta_bitpack::delta_decoded(lane, blob, card)
    } else if tag == VAL_TRANSPOSE {
        match entropy::residuals_decoded(blob, card * lane.bytes() as nat) {
            Err(e) => Err(e),
            Ok(soa) => if soa.len() != card * lane.bytes() {
                Err(Error::CorruptPayload("dict transpose values length"))
            } else {
                transpose::planes_decoded(lane, soa, card)
            },
        }
    } else {
        Err(Error::CorruptPayload("dict value tag"))
    }
}

/// One entropy-coded plane of `n` bytes at the front of `s`, and what follows
/// it.
pub open spec fn plane_parse(s: Seq<u8>, n: nat) -> Result<(Seq<u8>, Seq<u8>), Error> {
    match varint::varint_parse(s) {
        Err(e) => Err(e),
        Ok((len, rest)) => if rest.len() < len {
            Err(Error::Truncated)
        } else {
            match entropy::residuals_decoded(rest.take(len as int), n) {
                Err(e) => Err(e),
                Ok(plane) => if plane.len() != n {
                    Err(Error::CorruptPayload("dict plane length"))
                } else {
                    Ok((plane, rest.skip(len as int)))
                },
            }
        },
    }
}

/// The `n` codes of a codes section.
pub open spec fn codes_decoded(lane: Lane, s: Seq<u8>, n: nat) -> Result<Seq<u64>, Error> {
    if s.len() == 0 {
        Err(Error::Truncated)
    } else if s[0] == CODES_BITPACK {
        for_bitpack::for_decoded(lane, s.drop_first(), n)
    } else if s[0] == CODES_ENTROPY {
        if s.len() == 1 {
            Err(Error::Truncated)
        } else if s[1] != 1 && s[1] != 2 {
            Err(Error::CorruptPayload("dict plane count"))
        } else {
            match plane_parse(s.skip(2), n) {
                Err(e) => Err(e),
                Ok((low, rest)) => if s[1] == 1 {
                    Ok(Seq::new(n, |i: int| low[i] as u64))
                } else {
                    match plane_parse(rest, n) {
                        Err(e) => Err(e),
                        Ok((high, _)) => Ok(
                            Seq::new(n, |i: int| (low[i] + 256 * high[i]) as u64),
                        ),
                    }
                },
            }
        }
    } else {
        Err(Error::CorruptPayload("dict code tag"))
    }
}

/// The table entries that `codes` stand for; `bad` is the error for a code
/// outside the table.
pub open spec fn looked_up(table: Seq<u64>, codes: Seq<u64>, bad: Error) -> Result<
    Seq<u64>,
    Error,
> {
    if forall|i: int| 0 <= i < codes.len() ==> (#[trigger] codes[i]) < table.len() {
        Ok(Seq::new(codes.len(), |i: int| table[codes[i] as int]))
    } else {
        Err(bad)
    }
}

/// A table of `card` values at the front of `s`: its tag and the length of its values,
/// followed by them.
pub open spec fn table_parse(lane: Lane, s: Seq<u8>, card: nat) -> Result<
    (Seq<u64>, Seq<u8>),
    Error,
> {
    if s.len() == 0 {
        Err(Error::Truncated)
    } else {
        match varint::varint_parse(s.drop_first()) {
            Err(e) => Err(e),
            Ok((len, rest)) => if rest.len() < len {
                Err(Error::Truncated)
            } else {
                match values_decoded(lane, s[0], rest.take(len as int), card) {
                    Err(e) => Err(e),
                    Ok(table) => Ok((table, rest.skip(len as int))),
                }
            },
        }
    }
}

/// The `n` values coded by `payload`.
pub open spec fn dict_decoded(lane: Lane, payload: Seq<u8>, n: nat) -> Result<Seq<u64>, Error> {
    match varint::varint_parse(payload) {
        Err(e) => Err(e),
        Ok((card, s)) => if card > n {
            Err(Error::CorruptPayload("dict cardinality exceeds value count"))
        } else {
            match table_parse(lane, s, card as nat) {
                Err(e) => Err(e),
                Ok((table, rest)) => match codes_decoded(lane, rest, n) {
                    Err(e) => Err(e),
                    Ok(codes) => looked_up(
                        table,
                        codes,
                        Error::CorruptPayload("dict code out of range"),
                    ),
                },
            }
        },
    }
}

/// The table of a shared preamble for a column of `n_total` valid values.
pub open spec fn preamble_decoded(lane: Lane, blob: Seq<u8>, n_total: nat) -> Result<
    Seq<u64>,
    Error,
> {
    match varint::varint_parse(blob) {
        Err(e) => Err(e),
        Ok((card, s)) => if card == 0 || card > n_total || card > SHARED_MAX_CARD {
            Err(Error::CorruptPayload("shared dict cardinality"))
        } else if s.len() == 0 {
            Err(Error::Truncated)
        } else {
            match varint::varint_parse(s.drop_first()) {
                Err(e) => Err(e),
                Ok((len, rest)) => if (blob.len() - rest.len()) + len > usize::MAX {
                    Err(Error::Truncated)
                } else if len != rest.len() {
                    Err(Error::CorruptPayload("shared dict preamble length"))
                } else {
                    values_decoded(lane, s[0], rest, card as nat)
                },
            }
        },
    }
}

/// The `n` values of a block coded against a shared table.
pub open spec fn shared_decoded(lane: Lane, payload: Seq<u8>, n: nat, table: Seq<u64>) -> Result<
    Seq<u64>,
    Error,
> {
    match codes_decoded(lane, payload, n) {
        Err(e) => Err(e),
        Ok(codes) => looked_up(
            table,
            codes,
            Error::CorruptPayload("shared dict code out of range"),
        ),
    }
}

// ---------------------------------------------------------------------------
// Dictionary values
// ---------------------------------------------------------------------------

/// A dictionary in the smallest of its forms, as tag and bytes: verbatim, else as
/// deltas, else, where `entropy` allows it, as entropy-coded byte planes.
#[verifier::opaque]
pub open spec fn values_image(
    lane: Lane,
    sorted: Seq<u64>,
    entropy: bool,
    lambda: u64,
    allow_lz: bool,
) -> (u8, Seq<u8>) {
    let raw = lane.words_bytes(sorted);
    let delta = delta_bitpack::delta_image(lane, sorted);
    let best = if delta.len() < raw.len() {
        (VAL_DELTA, delta)
    } else {
        (VAL_RAW, raw)
    };
    let coded = entropy::residuals_coded(transpose::planes(lane, sorted), lambda, allow_lz);
    if entropy && coded.len() < best.1.len() {
        (VAL_TRANSPOSE, coded)
    } else {
        best
    }
}

/// A dictionary takes no more bytes than in any of its forms.
pub proof fn lemma_values_smallest(
    lane: Lane,
    sorted: Seq<u64>,
    entropy: bool,
    lambda: u64,
    allow_lz: bool,
)
    ensures
        values_image(lane, sorted, entropy, lambda, allow_lz).1.len() <= lane.words_bytes(
            sorted,
        ).len(),
        values_image(lane, sorted, entropy, lambda, allow_lz).1.len()
            <= delta_bitpack::delta_image(lane, sorted).len(),
        entropy ==> values_image(lane, sorted, entropy, lambda, allow_lz).1.len()
            <= entropy::residuals_coded(transpose::planes(lane, sorted), lambda, allow_lz).len(),
{
    reveal(values_image);
}

/// Store a dictionary in the smallest of its forms; the result is the tag and
/// the bytes.
pub fn encode_values(lane: Lane, sorted: &[u64], entropy: bool, lambda: u64, allow_lz: bool) -> (r:
    (u8, Vec<u8>))
    requires
        lane.fits_all(sorted@),
    ensures
        values_decoded(lane, r.0, r.1@, sorted@.len()) == Ok::<_, Error>(sorted@),
        r.1.len() <= sorted.len() * lane.bytes(),
        (r.0, r.1@) == values_image(lane, sorted@, entropy, lambda, allow_lz),
{
    reveal(values_image);
    let mut tag: u8 = VAL_RAW;
    let mut blob = lane.le_image(sorted);
    proof {
        lane::lemma_words_roundtrip(lane, sorted@);
    }
    let delta = delta_bitpack::encode(lane, sorted);
    if delta.len() < blob.len() {
        tag = VAL_DELTA;
        blob = delta;
    }
    if entropy {
        let soa = transpose::encode(lane, sorted);
        let coded = code_residuals(&soa, lambda, allow_lz);
        if coded.len() < blob.len() {
            tag = VAL_TRANSPOSE;
            blob = coded;
        }
    }
    (tag, blob)
}

/// Inverse of [`encode_values`].
pub fn decode_values(lane: Lane, tag: u8, blob: &[u8], card: usize) -> (r: Result<Vec<u64>, Error>)
    requires
        card * lane.bytes() <= usize::MAX,
    ensures
        error::viewed(r) == values_decoded(lane, tag, blob@, card as nat),
        r matches Ok(v) ==> lane.fits_all(v@) && v.len() == card,
{
    let size: usize = card * lane.bytes();
    if tag == VAL_RAW {
        if blob.len() != size {
            return Err(Error::CorruptPayload("dict raw values length"));
        }
        proof {
            lane::lemma_words_of_len(lane, blob@, card as nat);
        }
        Ok(lane.from_le_image(blob))
    } else if tag == VAL_DELTA {
        delta_bitpack::decode(lane, blob, card)
    } else if tag == VAL_TRANSPOSE {
        let soa: Vec<u8> = match decode_residuals(blob, size) {
            Ok(b) => b,
            Err(e) => return Err(e),
        };
        if soa.len() != size {
            return Err(Error::CorruptPayload("dict transpose values length"));
        }
        transpose::decode(lane, &soa, card)
    } else {
        Err(Error::CorruptPayload("dict value tag"))
    }
}

/// A value table: tag, length and values.
pub open spec fn table_image(
    lane: Lane,
    sorted: Seq<u64>,
    entropy: bool,
    lambda: u64,
    allow_lz: bool,
) -> Seq<u8> {
    let (tag, blob) = values_image(lane, sorted, entropy, lambda, allow_lz);
    seq![tag] + varint::varint_bytes(blob.len()) + blob
}

/// Append `varint(card) ++ tag ++ varint(len) ++ values`.
#[verifier::rlimit(30)]
fn write_table(
    lane: Lane,
    sorted: &[u64],
    entropy: bool,
    lambda: u64,
    allow_lz: bool,
    out: &mut Vec<u8>,
) -> (body: Ghost<Seq<u8>>)
    requires
        lane.fits_all(sorted@),
    ensures
        final(out)@ == old(out)@ + varint::varint_bytes(sorted@.len()) + body@,
        body@ == table_image(lane, sorted@, entropy, lambda, allow_lz),
        forall|rest: Seq<u8>|
            #[trigger] table_parse(lane, body@ + rest, sorted@.len()) == Ok::<_, Error>(
                (sorted@, rest),
            ),
        body@.len() > 0,
        varint::varint_parse(body@.drop_first()) matches Ok((len, vals)) && len == vals.len()
            && values_decoded(lane, body@[0], vals, sorted@.len()) == Ok::<_, Error>(sorted@),
{
    let (tag, blob) = encode_values(lane, sorted, entropy, lambda, allow_lz);
    let ghost start = out@;
    varint::write_u64(out, sorted.len() as u64);
    out.push(tag);
    varint::write_u64(out, blob.len() as u64);
    out.extend_from_slice(&blob);
    let ghost body = seq![tag] + varint::varint_bytes(blob@.len()) + blob@;
    proof {
        assert(out@ =~= start + varint::varint_bytes(sorted@.len()) + body);
        assert forall|rest: Seq<u8>|
            #[trigger] table_parse(lane, body + rest, sorted@.len()) == Ok::<_, Error>(
                (sorted@, rest),
            ) by {
            let s = body + rest;
            let after = blob@ + rest;
            assert(s.drop_first() =~= varint::varint_bytes(blob@.len()) + after);
            varint::lemma_varint_roundtrip(blob@.len() as u64, after);
            assert(after.take(blob@.len() as int) =~= blob@);
            assert(after.skip(blob@.len() as int) =~= rest);
        }
        assert(body.drop_first() =~= varint::varint_bytes(blob@.len()) + blob@);
        varint::lemma_varint_roundtrip(blob@.len() as u64, blob@);
    }
    Ghost(body)
}

// ---------------------------------------------------------------------------
// Codes
// ---------------------------------------------------------------------------

/// Byte `p` of every code.
pub open spec fn plane_of(codes: Seq<u64>, p: u32) -> Seq<u8> {
    Seq::new(
        codes.len(),
        |i: int|
            (if p == 0 {
                codes[i] % 256
            } else {
                (codes[i] / 256) % 256
            }) as u8,
    )
}

/// An entropy-coded plane behind its length.
pub open spec fn plane_image(plane: Seq<u8>, lambda: u64, allow_lz: bool) -> Seq<u8> {
    let coded = entropy::residuals_coded(plane, lambda, allow_lz);
    varint::varint_bytes(coded.len()) + coded
}

/// The codes as entropy-coded byte planes, one for up to 256 of them, else two.
pub open spec fn planes_image(codes: Seq<u64>, card: nat, lambda: u64, allow_lz: bool) -> Seq<u8> {
    if card <= 256 {
        seq![CODES_ENTROPY, 1u8] + plane_image(plane_of(codes, 0), lambda, allow_lz)
    } else {
        seq![CODES_ENTROPY, 2u8] + plane_image(plane_of(codes, 0), lambda, allow_lz) + plane_image(
            plane_of(codes, 1),
            lambda,
            allow_lz,
        )
    }
}

/// The codes section: bit-packed or, where `entropy` allows it and it is smaller,
/// as entropy-coded byte planes.
#[verifier::opaque]
pub open spec fn codes_image(
    lane: Lane,
    codes: Seq<u64>,
    card: nat,
    entropy: bool,
    lambda: u64,
    allow_lz: bool,
) -> Seq<u8> {
    let packed = seq![CODES_BITPACK] + for_bitpack::for_image(lane, false, codes);
    let planes = planes_image(codes, card, lambda, allow_lz);
    if entropy && card <= MAX_ENTROPY_CARD && planes.len() < packed.len() {
        planes
    } else {
        packed
    }
}

/// The codes section takes no more bytes than in either of its forms.
pub proof fn lemma_codes_smallest(
    lane: Lane,
    codes: Seq<u64>,
    card: nat,
    entropy: bool,
    lambda: u64,
    allow_lz: bool,
)
    ensures
        codes_image(lane, codes, card, entropy, lambda, allow_lz).len() <= 1
            + for_bitpack::for_image(lane, false, codes).len(),
        entropy && card <= MAX_ENTROPY_CARD ==> codes_image(
            lane,
            codes,
            card,
            entropy,
            lambda,
            allow_lz,
        ).len() <= planes_image(codes, card, lambda, allow_lz).len(),
{
    reveal(codes_image);
}

/// Byte `p` of every code.
fn code_plane(codes: &[u64], p: u32) -> (plane: Vec<u8>)
    requires
        p == 0 || p == 1,
    ensures
        plane@ == plane_of(codes@, p),
        plane.len() == codes.len(),
        forall|i: int|
            0 <= i < codes.len() ==> #[trigger] plane@[i] == (if p == 0 {
                codes@[i] % 256
            } else {
                (codes@[i] / 256) % 256
            }),
{
    let mut plane: Vec<u8> = Vec::new();
    let mut i: usize = 0;
    while i < codes.len()
        invariant
            i <= codes.len(),
            p == 0 || p == 1,
            plane.len() == i,
            forall|k: int|
                0 <= k < i ==> #[trigger] plane@[k] == (if p == 0 {
                    codes@[k] % 256
                } else {
                    (codes@[k] / 256) % 256
                }),
        decreases codes.len() - i,
    {
        let c: u64 = codes[i];
        let b: u64 = if p == 0 {
            c % 256
        } else {
            (c / 256) % 256
        };
        plane.push(b as u8);
        i = i + 1;
    }
    assert(plane@ =~= plane_of(codes@, p));
    plane
}

/// Append an entropy-coded plane behind its length.
fn write_plane(plane: &Vec<u8>, lambda: u64, allow_lz: bool, out: &mut Vec<u8>) -> (piece: Ghost<
    Seq<u8>,
>)
    ensures
        final(out)@ == old(out)@ + piece@,
        piece@ == plane_image(plane@, lambda, allow_lz),
        forall|rest: Seq<u8>|
            #[trigger] plane_parse(piece@ + rest, plane@.len()) == Ok::<_, Error>((plane@, rest)),
{
    let coded = code_residuals(plane, lambda, allow_lz);
    let ghost start = out@;
    varint::write_u64(out, coded.len() as u64);
    out.extend_from_slice(&coded);
    let ghost piece = varint::varint_bytes(coded@.len()) + coded@;
    proof {
        assert(out@ =~= start + piece);
        assert forall|rest: Seq<u8>|
            #[trigger] plane_parse(piece + rest, plane@.len()) == Ok::<_, Error>(
                (plane@, rest),
            ) by {
            let after = coded@ + rest;
            assert(piece + rest =~= varint::varint_bytes(coded@.len()) + after);
            varint::lemma_varint_roundtrip(coded@.len() as u64, after);
            assert(after.take(coded@.len() as int) =~= coded@);
            assert(after.skip(coded@.len() as int) =~= rest);
        }
    }
    Ghost(piece)
}

/// Codes below 256 are their low bytes.
proof fn lemma_one_plane(lane: Lane, codes: Seq<u64>, low: Seq<u8>, p0: Seq<u8>)
    requires
        low.len() == codes.len(),
        forall|i: int| 0 <= i < codes.len() ==> (#[trigger] codes[i]) < 256,
        forall|i: int| 0 <= i < codes.len() ==> #[trigger] low[i] == codes[i] % 256,
        plane_parse(p0, codes.len()) == Ok::<_, Error>((low, Seq::<u8>::empty())),
    ensures
        codes_decoded(lane, seq![CODES_ENTROPY, 1u8] + p0, codes.len()) == Ok::<_, Error>(codes),
{
    let s = seq![CODES_ENTROPY, 1u8] + p0;
    assert(s.skip(2) =~= p0);
    let got = Seq::new(codes.len(), |i: int| low[i] as u64);
    assert forall|i: int| 0 <= i < codes.len() implies got[i] == codes[i] by {
        assert(codes[i] < 256);
        assert(low[i] == codes[i] % 256);
    }
    assert(got =~= codes);
}

/// Codes below 65536 are their low and high bytes.
proof fn lemma_two_planes(
    lane: Lane,
    codes: Seq<u64>,
    low: Seq<u8>,
    high: Seq<u8>,
    p0: Seq<u8>,
    p1: Seq<u8>,
)
    requires
        low.len() == codes.len(),
        high.len() == codes.len(),
        forall|i: int| 0 <= i < codes.len() ==> (#[trigger] codes[i]) < 65536,
        forall|i: int| 0 <= i < codes.len() ==> #[trigger] low[i] == codes[i] % 256,
        forall|i: int| 0 <= i < codes.len() ==> #[trigger] high[i] == (codes[i] / 256) % 256,
        plane_parse(p0 + p1, codes.len()) == Ok::<_, Error>((low, p1)),
        plane_parse(p1, codes.len()) == Ok::<_, Error>((high, Seq::<u8>::empty())),
    ensures
        codes_decoded(lane, seq![CODES_ENTROPY, 2u8] + p0 + p1, codes.len()) == Ok::<_, Error>(
            codes,
        ),
{
    let s = seq![CODES_ENTROPY, 2u8] + p0 + p1;
    assert(s.skip(2) =~= p0 + p1);
    let got = Seq::new(codes.len(), |i: int| (low[i] + 256 * high[i]) as u64);
    assert forall|i: int| 0 <= i < codes.len() implies got[i] == codes[i] by {
        assert(codes[i] < 65536);
        assert(low[i] == codes[i] % 256);
        assert(high[i] == (codes[i] / 256) % 256);
    }
    assert(got =~= codes);
}

/// The codes as entropy-coded byte planes, behind their tag.
fn encode_planes(codes: &[u64], card: usize, lambda: u64, allow_lz: bool) -> (out: Vec<u8>)
    requires
        card <= MAX_ENTROPY_CARD,
        forall|i: int| 0 <= i < codes.len() ==> (#[trigger] codes@[i]) < card,
    ensures
        forall|lane: Lane|
            #[trigger] codes_decoded(lane, out@, codes@.len()) == Ok::<_, Error>(codes@),
        out@ == planes_image(codes@, card as nat, lambda, allow_lz),
{
    let mut out: Vec<u8> = Vec::new();
    out.push(CODES_ENTROPY);
    let low = code_plane(codes, 0);
    if card <= 256 {
        out.push(1);
        let Ghost(p0) = write_plane(&low, lambda, allow_lz, &mut out);
        proof {
            assert(p0 + Seq::<u8>::empty() =~= p0);
            assert(plane_parse(p0 + Seq::<u8>::empty(), codes@.len()) == Ok::<_, Error>(
                (low@, Seq::<u8>::empty()),
            ));
            assert(out@ =~= seq![CODES_ENTROPY, 1u8] + p0);
            assert forall|lane: Lane|
                #[trigger] codes_decoded(lane, out@, codes@.len()) == Ok::<_, Error>(codes@) by {
                lemma_one_plane(lane, codes@, low@, p0);
            }
        }
    } else {
        out.push(2);
        let Ghost(p0) = write_plane(&low, lambda, allow_lz, &mut out);
        let high = code_plane(codes, 1);
        let Ghost(p1) = write_plane(&high, lambda, allow_lz, &mut out);
        proof {
            assert(plane_parse(p0 + p1, codes@.len()) == Ok::<_, Error>((low@, p1)));
            assert(p1 + Seq::<u8>::empty() =~= p1);
            assert(plane_parse(p1 + Seq::<u8>::empty(), codes@.len()) == Ok::<_, Error>(
                (high@, Seq::<u8>::empty()),
            ));
            assert(out@ =~= seq![CODES_ENTROPY, 2u8] + p0 + p1);
            assert forall|lane: Lane|
                #[trigger] codes_decoded(lane, out@, codes@.len()) == Ok::<_, Error>(codes@) by {
                lemma_two_planes(lane, codes@, low@, high@, p0, p1);
            }
        }
    }
    out
}

/// The codes stream: bit-packed or, where the level allows entropy coding and it
/// is smaller, as entropy-coded byte planes.
fn encode_codes_section(
    lane: Lane,
    codes: &[u64],
    card: usize,
    entropy: bool,
    lambda: u64,
    allow_lz: bool,
) -> (out: Vec<u8>)
    requires
        lane.fits_all(codes@),
        forall|i: int| 0 <= i < codes.len() ==> (#[trigger] codes@[i]) < card,
    ensures
        codes_decoded(lane, out@, codes@.len()) == Ok::<_, Error>(codes@),
        out@ == codes_image(lane, codes@, card as nat, entropy, lambda, allow_lz),
{
    reveal(codes_image);
    let mut out: Vec<u8> = Vec::new();
    out.push(CODES_BITPACK);
    let packed = for_bitpack::encode(lane, codes, false);
    out.extend_from_slice(&packed);
    proof {
        assert(out@.drop_first() =~= packed@);
        assert(out@ =~= seq![CODES_BITPACK] + packed@);
    }
    if entropy && card <= MAX_ENTROPY_CARD {
        let planes = encode_planes(codes, card, lambda, allow_lz);
        if planes.len() < out.len() {
            return planes;
        }
    }
    out
}

/// Read one entropy-coded plane at `*pos`.
fn read_plane(s: &[u8], pos: &mut usize, n: usize) -> (r: Result<Vec<u8>, Error>)
    requires
        *old(pos) <= s.len(),
    ensures
        *final(pos) <= s.len(),
        match plane_parse(s@.skip(*old(pos) as int), n as nat) {
            Err(e) => r == Err::<Vec<u8>, _>(e),
            Ok((plane, rest)) => r matches Ok(p) && p@ == plane && p.len() == n && rest
                == s@.skip(*final(pos) as int),
        },
{
    let len: u64 = match varint::read_u64(s, pos) {
        Ok(v) => v,
        Err(e) => return Err(e),
    };
    if len > (s.len() - *pos) as u64 {
        return Err(Error::Truncated);
    }
    let end: usize = *pos + len as usize;
    let blob = vstd::slice::slice_subrange(s, *pos, end);
    proof {
        let rest = s@.skip(*pos as int);
        assert(rest.take(len as int) =~= blob@);
        assert(rest.skip(len as int) =~= s@.skip(end as int));
    }
    *pos = end;
    match decode_residuals(blob, n) {
        Err(e) => Err(e),
        Ok(plane) => if plane.len() != n {
            Err(Error::CorruptPayload("dict plane length"))
        } else {
            Ok(plane)
        },
    }
}

/// Inverse of [`encode_codes_section`].
fn decode_codes_section(lane: Lane, s: &[u8], n: usize) -> (r: Result<Vec<u64>, Error>)
    ensures
        error::viewed(r) == codes_decoded(lane, s@, n as nat),
        r matches Ok(v) ==> v.len() == n,
{
    if s.len() == 0 {
        return Err(Error::Truncated);
    }
    let tag: u8 = s[0];
    if tag == CODES_BITPACK {
        assert(s@.skip(1) =~= s@.drop_first());
        return for_bitpack::decode(lane, tail(s, 1), n);
    }
    if tag != CODES_ENTROPY {
        return Err(Error::CorruptPayload("dict code tag"));
    }
    if s.len() == 1 {
        return Err(Error::Truncated);
    }
    let planes: u8 = s[1];
    if planes != 1 && planes != 2 {
        return Err(Error::CorruptPayload("dict plane count"));
    }
    let mut pos: usize = 2;
    let low: Vec<u8> = match read_plane(s, &mut pos, n) {
        Ok(p) => p,
        Err(e) => return Err(e),
    };
    let high: Vec<u8> = if planes == 2 {
        match read_plane(s, &mut pos, n) {
            Ok(p) => p,
            Err(e) => return Err(e),
        }
    } else {
        Vec::new()
    };
    let mut codes: Vec<u64> = Vec::new();
    let mut i: usize = 0;
    while i < n
        invariant
            i <= n,
            low.len() == n,
            planes == 2 ==> high.len() == n,
            codes.len() == i,
            forall|k: int|
                0 <= k < i ==> #[trigger] codes@[k] == (if planes == 2 {
                    low@[k] + 256 * high@[k]
                } else {
                    low@[k] as int
                }),
        decreases n - i,
    {
        let c: u64 = if planes == 2 {
            low[i] as u64 + 256 * high[i] as u64
        } else {
            low[i] as u64
        };
        codes.push(c);
        i = i + 1;
    }
    proof {
        if planes == 1 {
            assert(codes@ =~= Seq::new(n as nat, |i: int| low@[i] as u64));
        } else {
            assert(codes@ =~= Seq::new(n as nat, |i: int| (low@[i] + 256 * high@[i]) as u64));
        }
    }
    Ok(codes)
}

/// The table entries that `codes` stand for.
fn look_up(table: &[u64], codes: &Vec<u64>, bad: Error, lane: Lane) -> (r: Result<Vec<u64>, Error>)
    requires
        lane.fits_all(table@),
    ensures
        error::viewed(r) == looked_up(table@, codes@, bad),
        r matches Ok(v) ==> lane.fits_all(v@) && v.len() == codes.len(),
{
    let mut out: Vec<u64> = Vec::new();
    let mut i: usize = 0;
    while i < codes.len()
        invariant
            i <= codes.len(),
            lane.fits_all(table@),
            lane.fits_all(out@),
            out.len() == i,
            forall|k: int| 0 <= k < i ==> (#[trigger] codes@[k]) < table.len(),
            forall|k: int| 0 <= k < i ==> #[trigger] out@[k] == table@[codes@[k] as int],
        decreases codes.len() - i,
    {
        let c: u64 = codes[i];
        if c >= table.len() as u64 {
            assert(!(codes@[i as int] < table.len()));
            return Err(bad);
        }
        assert(lane.fits(table@[c as int]));
        out.push(table[c as usize]);
        i = i + 1;
    }
    assert(out@ =~= Seq::new(codes@.len(), |k: int| table@[codes@[k] as int]));
    Ok(out)
}

// ---------------------------------------------------------------------------
// Building dictionaries
// ---------------------------------------------------------------------------

/// The distinct values of `vals`, if there are at most `max_card` of them.
fn distinct_values(vals: &[u64], max_card: usize) -> (r: Option<Vec<u64>>)
    ensures
        r is Some <==> vals@.to_set().len() <= max_card,
        r matches Some(d) ==> d@.no_duplicates() && d@.to_set() == vals@.to_set(),
{
    let mut seen = fx_new();
    let mut dict: Vec<u64> = Vec::new();
    let mut i: usize = 0;
    proof {
        assert(dict@.to_set() =~= vals@.take(0).to_set());
        vals@.lemma_cardinality_of_set();
    }
    while i < vals.len()
        invariant
            i <= vals.len(),
            dict@.no_duplicates(),
            dict.len() <= max_card,
            dict@.to_set() == vals@.take(i as int).to_set(),
            forall|v: u64| #[trigger] seen@.contains_key(v) <==> dict@.contains(v),
        decreases vals.len() - i,
    {
        let v: u64 = vals[i];
        proof {
            let (a, b) = (vals@.take(i as int), vals@.take(i + 1));
            assert(b =~= a.push(v));
            lemma_push_set(a, v);
            lemma_push_set(dict@, v);
        }
        let ghost before = dict@;
        if fx_get(&seen, v).is_none() {
            fx_insert(&mut seen, v, dict.len() as u64);
            dict.push(v);
            proof {
                assert forall|x: u64| #[trigger] seen@.contains_key(x) <==> dict@.contains(x) by {
                    lemma_push_contains(before, v, x);
                }
                assert(dict@.no_duplicates()) by {
                    assert forall|a: int, b: int|
                        0 <= a < dict@.len() && 0 <= b < dict@.len() && a != b implies dict@[a]
                        != dict@[b] by {
                        if a == before.len() {
                            assert(before.contains(before[b]));
                        } else if b == before.len() {
                            assert(before.contains(before[a]));
                        }
                    }
                }
            }
            if dict.len() > max_card {
                proof {
                    dict@.unique_seq_to_set();
                    let all = vals@.to_set();
                    vstd::seq_lib::seq_to_set_is_finite(vals@);
                    assert(dict@.to_set().subset_of(all)) by {
                        assert forall|x: u64| dict@.to_set().contains(x) implies all.contains(
                            x,
                        ) by {
                            let t = vals@.take(i + 1);
                            assert(t.contains(x));
                            let k = choose|k: int| 0 <= k < t.len() && t[k] == x;
                            assert(vals@[k] == x);
                        }
                    }
                    vstd::set_lib::lemma_len_subset(dict@.to_set(), all);
                }
                return None;
            }
        } else {
            proof {
                assert(dict@.contains(v));
                assert(dict@.to_set().insert(v) =~= dict@.to_set());
            }
        }
        i = i + 1;
    }
    proof {
        assert(vals@.take(vals.len() as int) =~= vals@);
        dict@.unique_seq_to_set();
    }
    Some(dict)
}

proof fn lemma_push_contains(s: Seq<u64>, v: u64, x: u64)
    ensures
        s.push(v).contains(x) <==> s.contains(x) || x == v,
{
    let t = s.push(v);
    if s.contains(x) {
        let k = choose|k: int| 0 <= k < s.len() && s[k] == x;
        assert(t[k] == x);
    }
    if x == v {
        assert(t[s.len() as int] == x);
    }
    if t.contains(x) {
        let k = choose|k: int| 0 <= k < t.len() && t[k] == x;
        if k < s.len() {
            assert(s[k] == x);
        }
    }
}

proof fn lemma_push_set(s: Seq<u64>, v: u64)
    ensures
        s.push(v).to_set() == s.to_set().insert(v),
{
    assert forall|x: u64| s.push(v).to_set().contains(x) <==> s.to_set().insert(v).contains(x) by {
        lemma_push_contains(s, v, x);
    }
    assert(s.push(v).to_set() =~= s.to_set().insert(v));
}

/// A strictly ascending list of lane words is no longer than the lane has words.
proof fn lemma_card_fits(lane: Lane, sorted: Seq<u64>, i: int)
    requires
        lane.fits_all(sorted),
        forall|a: int, b: int| 0 <= a < b < sorted.len() ==> sorted[a] < sorted[b],
        0 <= i < sorted.len(),
    ensures
        i <= sorted[i],
        i < lane.modulus(),
    decreases i,
{
    assert(lane.fits(sorted[i]));
    if i > 0 {
        lemma_card_fits(lane, sorted, i - 1);
        assert(sorted[i - 1] < sorted[i]);
    }
}

/// The distinct values of `vals` in ascending order, if there are at most
/// `max_card` of them.
fn sorted_dictionary(lane: Lane, vals: &[u64], max_card: usize) -> (r: Option<Vec<u64>>)
    requires
        lane.fits_all(vals@),
    ensures
        r is Some <==> vals@.to_set().len() <= max_card,
        r matches Some(d) ==> {
            &&& d@.no_duplicates()
            &&& d.len() == vals@.to_set().len()
            &&& lane.fits_all(d@)
            &&& forall|v: u64| #[trigger] d@.contains(v) <==> vals@.contains(v)
            &&& forall|i: int, j: int| 0 <= i < j < d.len() ==> d@[i] < d@[j]
        },
{
    match distinct_values(vals, max_card) {
        None => None,
        Some(dict) => {
            let sorted = sorted_words(&dict);
            proof {
                sort::lemma_sorted_distinct(dict@, sorted@);
                dict@.unique_seq_to_set();
                assert forall|v: u64| #[trigger] sorted@.contains(v) <==> vals@.contains(v) by {
                    assert(dict@.contains(v) <==> dict@.to_set().contains(v));
                    assert(vals@.contains(v) <==> vals@.to_set().contains(v));
                }
                assert forall|i: int| 0 <= i < sorted@.len() implies lane.fits(
                    #[trigger] sorted@[i],
                ) by {
                    assert(sorted@.contains(sorted@[i]));
                    let k = choose|k: int| 0 <= k < vals@.len() && vals@[k] == sorted@[i];
                    assert(lane.fits(vals@[k]));
                }
            }
            Some(sorted)
        },
    }
}

/// `table` lists the distinct values of `vals` in ascending order.
pub open spec fn is_dictionary(table: Seq<u64>, vals: Seq<u64>) -> bool {
    &&& forall|v: u64| #[trigger] table.contains(v) <==> vals.contains(v)
    &&& forall|i: int, j: int| 0 <= i < j < table.len() ==> table[i] < table[j]
}

/// The distinct values of `vals` in ascending order.
pub open spec fn dictionary_of(vals: Seq<u64>) -> Seq<u64> {
    choose|table: Seq<u64>| is_dictionary(table, vals)
}

/// The place of each value in a table.
pub open spec fn codes_of(table: Seq<u64>, vals: Seq<u64>) -> Seq<u64> {
    Seq::new(vals.len(), |i: int| table.index_of(vals[i]) as u64)
}

/// Dictionaries of the same values agree place by place.
proof fn lemma_dictionary_at(a: Seq<u64>, b: Seq<u64>, vals: Seq<u64>, i: int)
    requires
        is_dictionary(a, vals),
        is_dictionary(b, vals),
        0 <= i < a.len(),
    ensures
        i < b.len(),
        a[i] == b[i],
    decreases i,
{
    assert forall|k: int| 0 <= k < i implies k < b.len() && a[k] == b[k] by {
        lemma_dictionary_at(a, b, vals, k);
    }
    assert(a.contains(a[i]));
    let j = choose|j: int| 0 <= j < b.len() && b[j] == a[i];
    assert(b.contains(a[i]));
    if j < i {
        assert(a[j] == b[j]);
    }
    assert(b.contains(b[i]));
    let m = choose|m: int| 0 <= m < a.len() && a[m] == b[i];
    assert(a.contains(b[i]));
    if m < i {
        assert(a[m] == b[m]);
    }
}

/// A list of distinct values in ascending order is the only one.
pub proof fn lemma_dictionary(table: Seq<u64>, vals: Seq<u64>)
    requires
        is_dictionary(table, vals),
    ensures
        dictionary_of(vals) == table,
{
    let d = dictionary_of(vals);
    assert(is_dictionary(d, vals));
    assert forall|i: int| 0 <= i < table.len() implies i < d.len() && table[i] == d[i] by {
        lemma_dictionary_at(table, d, vals, i);
    }
    if d.len() > table.len() {
        lemma_dictionary_at(d, table, vals, table.len() as int);
    } else if d.len() < table.len() {
        lemma_dictionary_at(table, d, vals, d.len() as int);
    }
    assert(d =~= table);
}

/// The codes of a block against an indexed table, if it covers the block.
fn codes_for(lane: Lane, vals: &[u64], m: &FxHashMap<u64, u64>, Ghost(table): Ghost<Seq<u64>>) -> (r:
    Option<Vec<u64>>)
    requires
        fxmap::indexes(m@, table),
        lane.fits_all(table),
        forall|a: int, b: int| 0 <= a < b < table.len() ==> table[a] < table[b],
    ensures
        r is Some <==> forall|i: int| 0 <= i < vals.len() ==> table.contains(#[trigger] vals@[i]),
        r matches Some(codes) ==> {
            &&& codes.len() == vals.len()
            &&& lane.fits_all(codes@)
            &&& forall|i: int|
                0 <= i < codes.len() ==> (#[trigger] codes@[i]) < table.len()
                    && table[codes@[i] as int] == vals@[i]
            &&& codes@ == codes_of(table, vals@)
        },
{
    let mut codes: Vec<u64> = Vec::new();
    let mut i: usize = 0;
    while i < vals.len()
        invariant
            i <= vals.len(),
            fxmap::indexes(m@, table),
            lane.fits_all(table),
            forall|a: int, b: int| 0 <= a < b < table.len() ==> table[a] < table[b],
            codes.len() == i,
            lane.fits_all(codes@),
            forall|k: int| 0 <= k < i ==> table.contains(#[trigger] vals@[k]),
            forall|k: int|
                0 <= k < i ==> (#[trigger] codes@[k]) < table.len() && table[codes@[k] as int]
                    == vals@[k],
        decreases vals.len() - i,
    {
        match fx_get(m, vals[i]) {
            None => {
                proof {
                    if table.contains(vals@[i as int]) {
                        let k = choose|k: int| 0 <= k < table.len() && table[k] == vals@[i as int];
                        assert(m@.contains_key(table[k]));
                    }
                }
                return None;
            },
            Some(c) => {
                proof {
                    assert(m@.contains_key(vals@[i as int]));
                    lemma_card_fits(lane, table, c as int);
                    assert(table.contains(table[c as int]));
                }
                codes.push(c);
            },
        }
        i = i + 1;
    }
    proof {
        let want = codes_of(table, vals@);
        assert forall|k: int| 0 <= k < codes@.len() implies codes@[k] == want[k] by {
            let (a, b) = (codes@[k] as int, table.index_of(vals@[k]));
            assert(table[a] == vals@[k]);
            assert(table.contains(vals@[k]));
            assert(table[b] == vals@[k]);
            if a < b {
                assert(table[a] < table[b]);
            } else if b < a {
                assert(table[b] < table[a]);
            }
        }
        assert(codes@ =~= want);
    }
    Some(codes)
}

/// Whether dictionary encoding is worth a try: at most half the values (and one
/// more) are distinct.
pub open spec fn dict_applies(vals: Seq<u64>) -> bool {
    vals.len() > 0 && vals.to_set().len() <= vals.len() / 2 + 1
}

/// The payload of `vals`: the size of its dictionary, the dictionary and the codes.
pub open spec fn dict_image(
    lane: Lane,
    vals: Seq<u64>,
    entropy: bool,
    lambda: u64,
    allow_lz: bool,
) -> Seq<u8> {
    let table = dictionary_of(vals);
    varint::varint_bytes(table.len()) + table_image(lane, table, entropy, lambda, allow_lz)
        + codes_image(lane, codes_of(table, vals), table.len(), entropy, lambda, allow_lz)
}

/// Dictionary-encode a block.
#[verifier::spinoff_prover]
#[verifier::rlimit(30)]
pub fn encode(lane: Lane, vals: &[u64], entropy: bool, lambda: u64, allow_lz: bool) -> (r: Option<
    Vec<u8>,
>)
    requires
        lane.fits_all(vals@),
    ensures
        r is Some <==> dict_applies(vals@),
        r matches Some(out) ==> dict_decoded(lane, out@, vals@.len()) == Ok::<_, Error>(vals@),
        r matches Some(out) ==> out@ == dict_image(lane, vals@, entropy, lambda, allow_lz),
        !entropy ==> (r matches Some(out) ==> dict_bitpacked(out@)),
{
    if vals.len() == 0 {
        return None;
    }
    let sorted: Vec<u64> = match sorted_dictionary(lane, vals, vals.len() / 2 + 1) {
        None => return None,
        Some(d) => d,
    };
    let m = index_table(&sorted);
    proof {
        assert forall|i: int| 0 <= i < vals.len() implies sorted@.contains(
            #[trigger] vals@[i],
        ) by {
            assert(vals@.contains(vals@[i]));
        }
        vals@.lemma_cardinality_of_set();
        lemma_dictionary(sorted@, vals@);
    }
    let codes: Vec<u64> = match codes_for(lane, vals, &m, Ghost(sorted@)) {
        None => return None,
        Some(c) => c,
    };
    let mut out: Vec<u8> = Vec::new();
    let Ghost(body) = write_table(lane, &sorted, entropy, lambda, allow_lz, &mut out);
    let section = encode_codes_section(lane, &codes, sorted.len(), entropy, lambda, allow_lz);
    out.extend_from_slice(&section);
    proof {
        let rest = body + section@;
        assert(out@ =~= varint::varint_bytes(sorted@.len()) + rest);
        varint::lemma_varint_roundtrip(sorted@.len() as u64, rest);
        assert(table_parse(lane, body + section@, sorted@.len()) == Ok::<_, Error>(
            (sorted@, section@),
        ));
        assert(Seq::new(codes@.len(), |i: int| sorted@[codes@[i] as int]) =~= vals@);
        if !entropy {
            assert(body == table_image(lane, sorted@, false, lambda, allow_lz));
            assert(section@.len() > 0 && section@[0] == CODES_BITPACK) by {
                reveal(codes_image);
            }
            assert(out.len() <= usize::MAX);
            lemma_bitpacked(lane, sorted@, lambda, allow_lz, section@, out@);
        }
    }
    Some(out)
}

/// A payload whose codes section is bit-packed says so.
proof fn lemma_bitpacked(
    lane: Lane,
    sorted: Seq<u64>,
    lambda: u64,
    allow_lz: bool,
    section: Seq<u8>,
    out: Seq<u8>,
)
    requires
        out == varint::varint_bytes(sorted.len()) + (table_image(
            lane,
            sorted,
            false,
            lambda,
            allow_lz,
        ) + section),
        sorted.len() <= u64::MAX,
        out.len() <= u64::MAX,
        section.len() > 0,
    ensures
        dict_bitpacked(out) == (section[0] == CODES_BITPACK),
{
    let (tag, blob) = values_image(lane, sorted, false, lambda, allow_lz);
    let rest = table_image(lane, sorted, false, lambda, allow_lz) + section;
    varint::lemma_varint_roundtrip(sorted.len() as u64, rest);
    let after = blob + section;
    assert(rest.drop_first() =~= varint::varint_bytes(blob.len()) + after);
    varint::lemma_varint_roundtrip(blob.len() as u64, after);
    assert(after[blob.len() as int] == section[0]);
}

/// Read a value table of `card` values from `start`; also gives where it ends.
#[verifier::spinoff_prover]
fn read_table(lane: Lane, payload: &[u8], start: usize, card: usize) -> (r: Result<
    (Vec<u64>, usize),
    Error,
>)
    requires
        start <= payload.len(),
        card * lane.bytes() <= usize::MAX,
    ensures
        (match r {
            Ok((table, end)) => end <= payload.len() && lane.fits_all(table@) && table_parse(
                lane,
                payload@.skip(start as int),
                card as nat,
            ) == Ok::<_, Error>((table@, payload@.skip(end as int))),
            Err(e) => table_parse(lane, payload@.skip(start as int), card as nat) == Err::<
                (Seq<u64>, Seq<u8>),
                _,
            >(e),
        }),
{
    if start >= payload.len() {
        return Err(Error::Truncated);
    }
    let tag: u8 = payload[start];
    let mut pos: usize = start + 1;
    assert(payload@.skip(start as int).drop_first() =~= payload@.skip(pos as int));
    let len: u64 = match varint::read_u64(payload, &mut pos) {
        Ok(v) => v,
        Err(e) => return Err(e),
    };
    if len > (payload.len() - pos) as u64 {
        return Err(Error::Truncated);
    }
    let end: usize = pos + len as usize;
    let blob = vstd::slice::slice_subrange(payload, pos, end);
    proof {
        let rest = payload@.skip(pos as int);
        assert(rest.take(len as int) =~= blob@);
        assert(rest.skip(len as int) =~= payload@.skip(end as int));
    }
    match decode_values(lane, tag, blob, card) {
        Ok(table) => Ok((table, end)),
        Err(e) => Err(e),
    }
}

/// Inverse of [`encode`].
#[verifier::spinoff_prover]
#[verifier::rlimit(30)]
pub fn decode(lane: Lane, payload: &[u8], n: usize) -> (r: Result<Vec<u64>, Error>)
    requires
        n * lane.bytes() <= usize::MAX,
    ensures
        error::viewed(r) == dict_decoded(lane, payload@, n as nat),
        r matches Ok(v) ==> lane.fits_all(v@) && v.len() == n,
{
    let mut pos: usize = 0;
    assert(payload@.skip(0) =~= payload@);
    let card: u64 = match varint::read_u64(payload, &mut pos) {
        Ok(v) => v,
        Err(e) => return Err(e),
    };
    if card > n as u64 {
        return Err(Error::CorruptPayload("dict cardinality exceeds value count"));
    }
    assert(card * lane.bytes() <= n * lane.bytes()) by (nonlinear_arith)
        requires
            card <= n,
    ;
    let (table, end) = match read_table(lane, payload, pos, card as usize) {
        Ok(t) => t,
        Err(e) => return Err(e),
    };
    let codes: Vec<u64> = match decode_codes_section(lane, tail(payload, end), n) {
        Ok(c) => c,
        Err(e) => return Err(e),
    };
    look_up(&table, &codes, Error::CorruptPayload("dict code out of range"), lane)
}

// ---------------------------------------------------------------------------
// Shared (column-wide) dictionary
// ---------------------------------------------------------------------------

/// A column-wide dictionary, built once by the encoder and read by every block.
pub struct SharedDict {
    /// The place of each value in the sorted table.
    pub map: FxHashMap<u64, u64>,
    /// Cardinality of the table.
    pub card: usize,
    /// Encoded preamble: `varint(card) ++ tag ++ varint(len) ++ values`.
    pub preamble: Vec<u8>,
    /// The sorted table itself.
    pub table: Ghost<Seq<u64>>,
}

impl SharedDict {
    /// The sorted value table.
    pub open spec fn table(&self) -> Seq<u64> {
        self.table@
    }

    /// The map indexes the table, which is strictly ascending.
    pub open spec fn wf(&self, lane: Lane) -> bool {
        &&& fxmap::indexes(self.map@, self.table())
        &&& lane.fits_all(self.table())
        &&& forall|a: int, b: int|
            0 <= a < b < self.table().len() ==> self.table()[a] < self.table()[b]
        &&& self.card == self.table().len()
    }
}

/// Whether a column-wide table is worth building.
pub open spec fn shared_applies(vals: Seq<u64>) -> bool {
    &&& vals.len() > 0
    &&& vals.to_set().len() <= vals.len() / 2 + 1
    &&& vals.to_set().len() <= SHARED_MAX_CARD
}

proof fn lemma_preamble(lane: Lane, sorted: Seq<u64>, body: Seq<u8>, preamble: Seq<u8>)
    requires
        0 < sorted.len() <= SHARED_MAX_CARD,
        preamble == varint::varint_bytes(sorted.len()) + body,
        preamble.len() <= usize::MAX,
        body.len() > 0,
        varint::varint_parse(body.drop_first()) matches Ok((len, vals)) && len == vals.len()
            && values_decoded(lane, body[0], vals, sorted.len()) == Ok::<_, Error>(sorted),
    ensures
        forall|n_total: nat|
            sorted.len() <= n_total ==> #[trigger] preamble_decoded(lane, preamble, n_total)
                == Ok::<_, Error>(sorted),
{
    varint::lemma_varint_roundtrip(sorted.len() as u64, body);
    varint::lemma_varint_suffix(body.drop_first(), 0);
}

/// Build the column-wide table of `vals`.
pub fn build_shared(lane: Lane, vals: &[u64], entropy: bool, lambda: u64, allow_lz: bool) -> (r:
    Option<SharedDict>)
    requires
        lane.fits_all(vals@),
    ensures
        r is Some <==> shared_applies(vals@),
        r matches Some(sd) ==> {
            &&& sd.wf(lane)
            &&& sd.card == vals@.to_set().len()
            &&& sd.table().len() == sd.card
            &&& sd.table() == dictionary_of(vals@)
            &&& is_dictionary(sd.table(), vals@)
            &&& sd.preamble@ == varint::varint_bytes(sd.table().len()) + table_image(
                lane,
                sd.table(),
                entropy,
                lambda,
                allow_lz,
            )
            &&& forall|n_total: nat|
                vals@.len() <= n_total ==> #[trigger] preamble_decoded(
                    lane,
                    sd.preamble@,
                    n_total,
                ) == Ok::<_, Error>(sd.table())
        },
{
    if vals.len() == 0 {
        return None;
    }
    let half: usize = vals.len() / 2 + 1;
    let max_card: usize = if half < SHARED_MAX_CARD {
        half
    } else {
        SHARED_MAX_CARD
    };
    let sorted: Vec<u64> = match sorted_dictionary(lane, vals, max_card) {
        None => return None,
        Some(d) => d,
    };
    let map = index_table(&sorted);
    let mut preamble: Vec<u8> = Vec::new();
    let Ghost(body) = write_table(lane, &sorted, entropy, lambda, allow_lz, &mut preamble);
    proof {
        vals@.lemma_cardinality_of_set();
        lemma_dictionary(sorted@, vals@);
        assert(preamble@ =~= varint::varint_bytes(sorted@.len()) + body);
        assert(sorted@.len() > 0) by {
            assert(vals@.contains(vals@[0]));
            assert(sorted@.contains(vals@[0]));
        }
        assert(preamble@.len() == preamble.len());
        lemma_preamble(lane, sorted@, body, preamble@);
    }
    Some(SharedDict { map, card: sorted.len(), preamble, table: Ghost(sorted@) })
}

/// Decode a preamble back to its table. The cardinality is bounded by the number
/// of valid values and by [`SHARED_MAX_CARD`].
#[verifier::spinoff_prover]
#[verifier::rlimit(30)]
pub fn decode_shared_preamble(lane: Lane, blob: &[u8], n_total: usize) -> (r: Result<
    Vec<u64>,
    Error,
>)
    ensures
        error::viewed(r) == preamble_decoded(lane, blob@, n_total as nat),
        r matches Ok(v) ==> lane.fits_all(v@),
{
    let mut pos: usize = 0;
    assert(blob@.skip(0) =~= blob@);
    let card: u64 = match varint::read_u64(blob, &mut pos) {
        Ok(v) => v,
        Err(e) => return Err(e),
    };
    if card == 0 || card > n_total as u64 || card > SHARED_MAX_CARD as u64 {
        return Err(Error::CorruptPayload("shared dict cardinality"));
    }
    if pos >= blob.len() {
        return Err(Error::Truncated);
    }
    let tag: u8 = blob[pos];
    assert(blob@.skip(pos as int).drop_first() =~= blob@.skip(pos + 1));
    pos = pos + 1;
    let len: u64 = match varint::read_u64(blob, &mut pos) {
        Ok(v) => v,
        Err(e) => return Err(e),
    };
    if len > (usize::MAX - pos) as u64 {
        return Err(Error::Truncated);
    }
    if len != (blob.len() - pos) as u64 {
        return Err(Error::CorruptPayload("shared dict preamble length"));
    }
    assert(card * lane.bytes() <= SHARED_MAX_CARD * 8) by (nonlinear_arith)
        requires
            card <= SHARED_MAX_CARD,
            lane.bytes() <= 8,
    ;
    decode_values(lane, tag, tail(blob, pos), card as usize)
}

/// Encode one block as codes into the shared table; `None` on an empty block or
/// a value that the table lacks.
pub fn encode_shared(
    lane: Lane,
    vals: &[u64],
    sd: &SharedDict,
    entropy: bool,
    lambda: u64,
    allow_lz: bool,
) -> (r: Option<Vec<u8>>)
    requires
        sd.wf(lane),
    ensures
        r is Some <==> vals.len() > 0 && forall|i: int|
            0 <= i < vals.len() ==> sd.table().contains(#[trigger] vals@[i]),
        r matches Some(out) ==> shared_decoded(lane, out@, vals@.len(), sd.table()) == Ok::<
            _,
            Error,
        >(vals@),
        r matches Some(out) ==> out@ == codes_image(
            lane,
            codes_of(sd.table(), vals@),
            sd.card as nat,
            entropy,
            lambda,
            allow_lz,
        ),
{
    if vals.len() == 0 {
        return None;
    }
    match codes_for(lane, vals, &sd.map, Ghost(sd.table())) {
        None => None,
        Some(codes) => {
            proof {
                assert(Seq::new(codes@.len(), |i: int| sd.table()[codes@[i] as int]) =~= vals@);
            }
            Some(encode_codes_section(lane, &codes, sd.card, entropy, lambda, allow_lz))
        },
    }
}

/// Inverse of [`encode_shared`], given the stream's table.
pub fn decode_shared(lane: Lane, payload: &[u8], n: usize, table: &[u64]) -> (r: Result<
    Vec<u64>,
    Error,
>)
    requires
        lane.fits_all(table@),
    ensures
        error::viewed(r) == shared_decoded(lane, payload@, n as nat, table@),
        r matches Ok(v) ==> lane.fits_all(v@) && v.len() == n,
{
    let codes: Vec<u64> = match decode_codes_section(lane, payload, n) {
        Ok(c) => c,
        Err(e) => return Err(e),
    };
    look_up(table, &codes, Error::CorruptPayload("shared dict code out of range"), lane)
}

/// The codes of `payload` are bit-packed.
pub open spec fn dict_bitpacked(payload: Seq<u8>) -> bool {
    match varint::varint_parse(payload) {
        Err(_) => false,
        Ok((_, s)) => s.len() > 0 && match varint::varint_parse(s.drop_first()) {
            Err(_) => false,
            Ok((len, rest)) => len < rest.len() && rest[len as int] == CODES_BITPACK,
        },
    }
}

/// Whether decoding the codes of `payload` runs an entropy coder. A payload that
/// cannot be read through to its tag counts as one that does.
pub fn uses_entropy(payload: &[u8]) -> (r: bool)
    ensures
        r == !dict_bitpacked(payload@),
{
    let mut pos: usize = 0;
    assert(payload@.skip(0) =~= payload@);
    if varint::read_u64(payload, &mut pos).is_err() {
        return true;
    }
    if pos == payload.len() {
        return true;
    }
    assert(payload@.skip(pos as int).drop_first() =~= payload@.skip(pos + 1));
    pos = pos + 1;
    let len: u64 = match varint::read_u64(payload, &mut pos) {
        Err(_) => return true,
        Ok(v) => v,
    };
    if len >= (payload.len() - pos) as u64 {
        return true;
    }
    payload[pos + len as usize] != CODES_BITPACK
}

} // verus!
