//! Frame of reference plus vertical bit-packing: the workhorse of integer
//! columns.
//!
//! The block is split into 1024-value sub-blocks. Each is stored relative to its
//! minimum, packed at the width of its range: with the 32-bit kernel of
//! [`crate::bitpack`] for widths up to 32 (always, on a 32-bit lane), with the
//! 64-bit kernel above. A short last sub-block is padded with zeros.
//!
//! Payload: `varint(n)`, then per sub-block `width:u8 ++ min:lane ++ packed`.

use vstd::prelude::*;
use vstd::arithmetic::power2::*;
use crate::bitio;
use crate::bitpack;
use crate::bitpack::{pack_words, unpack_words, BLOCK};
use crate::bytes;
use crate::bytes::tail;
use crate::error;
use crate::error::Error;
use crate::lane;
use crate::lane::Lane;
use crate::varint;

verus! {

/// The words that a width is packed into.
#[verifier::allow_in_spec]
pub fn kernel(width: u32) -> (k: Lane)
    returns
        (if width <= 32 {
            Lane::W32
        } else {
            Lane::W64
        }),
{
    if width <= 32 {
        Lane::W32
    } else {
        Lane::W64
    }
}

/// The first `count` values of a packed sub-block, relative to `min`.
pub open spec fn framed_values(
    lane: Lane,
    min: u64,
    words: Seq<u64>,
    width: u32,
    count: nat,
) -> Seq<u64> {
    Seq::new(
        count,
        |i: int|
            lane.sum(
                min,
                bitpack::packed_value(words, kernel(width).bits() as nat, width as nat, i) as u64,
            ),
    )
}

/// The sub-block of `count` values at the front of `s`, and what follows it.
pub open spec fn sub_parse(lane: Lane, s: Seq<u8>, count: nat) -> Result<
    (Seq<u64>, Seq<u8>),
    Error,
> {
    if s.len() == 0 {
        Err(Error::Truncated)
    } else if s[0] > lane.bits() {
        Err(Error::CorruptPayload("for_bitpack bad width"))
    } else {
        let width = s[0] as u32;
        let body = 1 + lane.bytes() as int;
        let end = body + 128 * width;
        if s.len() < end {
            Err(Error::Truncated)
        } else {
            let min = bytes::le_value(s.subrange(1, body)) as u64;
            let words = kernel(width).words_of(s.subrange(body, end));
            Ok((framed_values(lane, min, words, width, count), s.skip(end)))
        }
    }
}

/// How many of `n` values the next sub-block holds.
pub open spec fn sub_count(n: nat) -> nat {
    if n < BLOCK {
        n
    } else {
        BLOCK as nat
    }
}

/// The `n` values packed in the sub-blocks of `s`; bytes after them are not
/// looked at.
pub open spec fn subs_parse(lane: Lane, s: Seq<u8>, n: nat) -> Result<Seq<u64>, Error>
    decreases n,
{
    if n == 0 {
        Ok(Seq::empty())
    } else {
        match sub_parse(lane, s, sub_count(n)) {
            Err(e) => Err(e),
            Ok((sub, rest)) => match subs_parse(lane, rest, (n - sub_count(n)) as nat) {
                Err(e) => Err(e),
                Ok(more) => Ok(sub + more),
            },
        }
    }
}

/// The `n` values packed in `payload`.
#[verifier::opaque]
pub open spec fn for_decoded(lane: Lane, payload: Seq<u8>, n: nat) -> Result<Seq<u64>, Error> {
    match varint::varint_parse(payload) {
        Err(e) => Err(e),
        Ok((len, rest)) => if len != n {
            Err(Error::CorruptPayload("for_bitpack length mismatch"))
        } else {
            subs_parse(lane, rest, n)
        },
    }
}

proof fn lemma_subs_len(lane: Lane, s: Seq<u8>, n: nat)
    ensures
        subs_parse(lane, s, n) matches Ok(v) ==> v.len() == n,
    decreases n,
{
    if n > 0 {
        if let Ok((_, rest)) = sub_parse(lane, s, sub_count(n)) {
            lemma_subs_len(lane, rest, (n - sub_count(n)) as nat);
        }
    }
}

/// A payload that decodes gives as many values as were asked for.
pub proof fn lemma_for_decoded_len(lane: Lane, payload: Seq<u8>, n: nat)
    ensures
        for_decoded(lane, payload, n) matches Ok(v) ==> v.len() == n,
{
    reveal(for_decoded);
    if let Ok((_, rest)) = varint::varint_parse(payload) {
        lemma_subs_len(lane, rest, n);
    }
}

/// The order that a sub-block's minimum is taken in.
pub open spec fn order_key(lane: Lane, signed: bool, v: u64) -> int {
    if signed {
        lane.signed(v)
    } else {
        v as int
    }
}

fn is_below(lane: Lane, signed: bool, a: u64, b: u64) -> (r: bool)
    requires
        lane.fits(a),
        lane.fits(b),
    ensures
        r == (order_key(lane, signed, a) < order_key(lane, signed, b)),
{
    if signed {
        lane.as_signed(a) < lane.as_signed(b)
    } else {
        a < b
    }
}

/// The number of bits of `x`: zero for zero.
pub open spec fn bit_len(x: nat) -> nat
    decreases x,
{
    if x == 0 {
        0
    } else {
        1 + bit_len(x / 2)
    }
}

/// The number of bits of `x`: zero for zero.
pub fn bit_width(x: u64) -> (w: u32)
    ensures
        w == bit_len(x as nat),
        w <= 64,
        x < pow2(w as nat),
        w > 0 ==> x >= pow2((w - 1) as nat),
{
    let mut w: u32 = 0;
    let mut v: u64 = x;
    proof {
        lemma2_to64();
        lemma2_to64_rest();
    }
    let ghost mut scale: nat = 1;
    while v > 0
        invariant
            w <= 64,
            w + bit_len(v as nat) == bit_len(x as nat),
            scale == pow2(w as nat),
            v * scale <= x < (v + 1) * scale,
            w > 0 ==> x >= pow2((w - 1) as nat),
            pow2(64) == 0x1_0000_0000_0000_0000,
        decreases v,
    {
        proof {
            lemma_pow2_adds(w as nat, 1);
            lemma2_to64();
            let h = v / 2;
            assert(v == 2 * h || v == 2 * h + 1);
            assert(h * (2 * scale) <= x && x < (h + 1) * (2 * scale)) by (nonlinear_arith)
                requires
                    v * scale <= x < (v + 1) * scale,
                    v == 2 * h || v == 2 * h + 1,
            ;
            assert(v * scale >= scale) by (nonlinear_arith)
                requires
                    v >= 1,
            ;
            if w == 64 {
                assert(false);
            }
            scale = 2 * scale;
        }
        v = v / 2;
        w = w + 1;
    }
    assert((v + 1) * scale == scale) by (nonlinear_arith)
        requires
            v == 0,
    ;
    w
}

/// `n` bytes of sub-block: a whole sub-block parses back to `sub`.
spec fn sub_encodes(lane: Lane, b: Seq<u8>, sub: Seq<u64>) -> bool {
    forall|rest: Seq<u8>|
        #[trigger] sub_parse(lane, b + rest, sub.len()) == Ok::<_, Error>((sub, rest))
}

/// The first of the least values of `sub`.
pub open spec fn least(lane: Lane, signed: bool, sub: Seq<u64>) -> u64
    decreases sub.len(),
{
    if sub.len() <= 1 {
        sub[0]
    } else {
        let m = least(lane, signed, sub.drop_last());
        if order_key(lane, signed, sub.last()) < order_key(lane, signed, m) {
            sub.last()
        } else {
            m
        }
    }
}

/// The least and greatest of `sub`.
pub fn extremes(lane: Lane, sub: &[u64], signed: bool) -> (r: (u64, u64))
    requires
        sub.len() > 0,
        lane.fits_all(sub@),
    ensures
        r.0 == least(lane, signed, sub@),
        sub@.contains(r.0),
        sub@.contains(r.1),
        lane.fits(r.0),
        lane.fits(r.1),
        forall|i: int|
            0 <= i < sub.len() ==> order_key(lane, signed, r.0) <= order_key(
                lane,
                signed,
                #[trigger] sub@[i],
            ) <= order_key(lane, signed, r.1),
{
    let mut lo: u64 = sub[0];
    let mut hi: u64 = sub[0];
    let mut i: usize = 1;
    assert(sub@.take(1)[0] == sub@[0]);
    while i < sub.len()
        invariant
            1 <= i <= sub.len(),
            lane.fits_all(sub@),
            lo == least(lane, signed, sub@.take(i as int)),
            sub@.contains(lo),
            sub@.contains(hi),
            lane.fits(lo),
            lane.fits(hi),
            forall|k: int|
                0 <= k < i ==> order_key(lane, signed, lo) <= order_key(
                    lane,
                    signed,
                    #[trigger] sub@[k],
                ) <= order_key(lane, signed, hi),
        decreases sub.len() - i,
    {
        let v: u64 = sub[i];
        proof {
            assert(lane.fits(sub@[i as int]));
            assert(sub@.take(i + 1).drop_last() =~= sub@.take(i as int));
            assert(sub@.take(i + 1).last() == v);
        }
        if is_below(lane, signed, v, lo) {
            lo = v;
        }
        if is_below(lane, signed, hi, v) {
            hi = v;
        }
        i = i + 1;
    }
    assert(sub@.take(sub.len() as int) =~= sub@);
    (lo, hi)
}

/// The difference of two words in order is their wrapped difference.
proof fn lemma_key_diff(lane: Lane, signed: bool, a: u64, b: u64)
    requires
        lane.fits(a),
        lane.fits(b),
        order_key(lane, signed, a) <= order_key(lane, signed, b),
    ensures
        lane.diff(b, a) == order_key(lane, signed, b) - order_key(lane, signed, a),
{
}

/// The values of a sub-block as ordered numbers.
pub open spec fn keys(lane: Lane, signed: bool, sub: Seq<u64>) -> Seq<int> {
    Seq::new(sub.len(), |i: int| order_key(lane, signed, sub[i]))
}

/// The bits that the span of a sub-block needs.
pub open spec fn sub_width(lane: Lane, signed: bool, sub: Seq<u64>) -> nat {
    let k = keys(lane, signed, sub);
    bit_len((k.max() - k.min()) as nat)
}

/// A number below a power of two has no more bits than its exponent.
pub proof fn lemma_bit_len(x: nat, b: nat)
    requires
        x < pow2(b),
    ensures
        bit_len(x) <= b,
    decreases b,
{
    lemma2_to64();
    if x > 0 {
        if b > 0 {
            lemma_pow2_adds((b - 1) as nat, 1);
        }
        lemma_bit_len(x / 2, (b - 1) as nat);
    }
}

/// A sub-block never needs more bits than its lane has; on a 32-bit lane the 32-bit
/// kernel is enough.
pub proof fn lemma_width_in_lane(lane: Lane, signed: bool, sub: Seq<u64>)
    requires
        lane.fits_all(sub),
        sub.len() > 0,
    ensures
        sub_width(lane, signed, sub) <= lane.bits(),
        lane is W32 ==> kernel(sub_width(lane, signed, sub) as u32) is W32,
{
    let k = keys(lane, signed, sub);
    k.min_ensures();
    k.max_ensures();
    let a = choose|i: int| 0 <= i < k.len() && k[i] == k.min();
    let b = choose|i: int| 0 <= i < k.len() && k[i] == k.max();
    assert(k[a] <= k[b]);
    assert(lane.fits(sub[a]) && lane.fits(sub[b]));
    lemma_key_diff(lane, signed, sub[a], sub[b]);
    lemma2_to64();
    lemma2_to64_rest();
    lemma_bit_len((k.max() - k.min()) as nat, lane.bits() as nat);
}

/// The values of a sub-block relative to `min`, zeros filling it up.
pub open spec fn offsets(lane: Lane, min: u64, sub: Seq<u64>) -> Seq<u64> {
    Seq::new(
        BLOCK as nat,
        |i: int|
            if i < sub.len() {
                lane.diff(sub[i], min)
            } else {
                0
            },
    )
}

/// The bytes of a sub-block: width, minimum, and the packed offsets.
#[verifier::opaque]
pub open spec fn sub_image(lane: Lane, signed: bool, sub: Seq<u64>) -> Seq<u8> {
    let width = sub_width(lane, signed, sub);
    let min = least(lane, signed, sub);
    let k = kernel(width as u32);
    seq![width as u8] + lane.word_bytes(min) + k.words_bytes(
        bitpack::packed_words(offsets(lane, min, sub), k.bits() as nat, width),
    )
}

/// The bytes of the sub-blocks of `vals`.
pub open spec fn subs_image(lane: Lane, signed: bool, vals: Seq<u64>) -> Seq<u8>
    decreases vals.len(),
{
    if vals.len() == 0 {
        Seq::empty()
    } else {
        let count = sub_count(vals.len()) as int;
        sub_image(lane, signed, vals.take(count)) + subs_image(lane, signed, vals.skip(count))
    }
}

/// The payload of `vals`.
#[verifier::opaque]
pub open spec fn for_image(lane: Lane, signed: bool, vals: Seq<u64>) -> Seq<u8> {
    varint::varint_bytes(vals.len()) + subs_image(lane, signed, vals)
}

/// The size of the packed sub-blocks of `vals`, each at its least width.
pub open spec fn subs_size(lane: Lane, signed: bool, vals: Seq<u64>) -> nat
    decreases vals.len(),
{
    if vals.len() == 0 {
        0
    } else {
        let count = sub_count(vals.len()) as int;
        1 + lane.bytes() as nat + 128 * sub_width(lane, signed, vals.take(count)) + subs_size(
            lane,
            signed,
            vals.skip(count),
        )
    }
}

/// The size of the payload of `vals`.
pub open spec fn for_size(lane: Lane, signed: bool, vals: Seq<u64>) -> nat {
    varint::varint_bytes(vals.len()).len() + subs_size(lane, signed, vals)
}

/// Bounds that a sub-block attains are its extremes.
proof fn lemma_extremes(lane: Lane, signed: bool, sub: Seq<u64>, lo: u64, hi: u64)
    requires
        sub.contains(lo),
        sub.contains(hi),
        forall|i: int|
            0 <= i < sub.len() ==> order_key(lane, signed, lo) <= order_key(
                lane,
                signed,
                #[trigger] sub[i],
            ) <= order_key(lane, signed, hi),
    ensures
        keys(lane, signed, sub).min() == order_key(lane, signed, lo),
        keys(lane, signed, sub).max() == order_key(lane, signed, hi),
{
    let k = keys(lane, signed, sub);
    k.min_ensures();
    k.max_ensures();
    let a = choose|i: int| 0 <= i < sub.len() && sub[i] == lo;
    let b = choose|i: int| 0 <= i < sub.len() && sub[i] == hi;
    assert(k[a] == order_key(lane, signed, lo));
    assert(k[b] == order_key(lane, signed, hi));
    let c = choose|i: int| 0 <= i < k.len() && k[i] == k.min();
    let d = choose|i: int| 0 <= i < k.len() && k[i] == k.max();
    assert(order_key(lane, signed, lo) <= order_key(lane, signed, sub[c]));
    assert(order_key(lane, signed, sub[d]) <= order_key(lane, signed, hi));
}

/// Append one sub-block.
fn encode_subblock(lane: Lane, sub: &[u64], signed: bool, out: &mut Vec<u8>) -> (piece: Ghost<
    Seq<u8>,
>)
    requires
        0 < sub.len() <= BLOCK,
        lane.fits_all(sub@),
    ensures
        final(out)@ == old(out)@ + piece@,
        piece@ == sub_image(lane, signed, sub@),
        sub_encodes(lane, piece@, sub@),
        piece@.len() <= 8201,
        piece@.len() == 1 + lane.bytes() + 128 * sub_width(lane, signed, sub@),
{
    let (min, max) = extremes(lane, sub, signed);
    proof {
        assert(lane.fits(sub@[0]));
        lemma_key_diff(lane, signed, min, max);
        lemma_extremes(lane, signed, sub@, min, max);
    }
    let range: u64 = lane.wrapping_sub(max, min);
    let width: u32 = bit_width(range);
    let ghost start = out@;
    proof {
        lemma_lane_width(lane, range, width);
    }
    out.push(width as u8);
    lane.write_word(out, min);
    let mut residuals: Vec<u64> = Vec::new();
    let mut i: usize = 0;
    while i < BLOCK
        invariant
            i <= BLOCK,
            sub.len() <= BLOCK,
            lane.fits_all(sub@),
            lane.fits(min),
            lane.fits(max),
            range == lane.diff(max, min),
            range < pow2(width as nat),
            forall|k: int|
                0 <= k < sub.len() ==> order_key(lane, signed, min) <= order_key(
                    lane,
                    signed,
                    #[trigger] sub@[k],
                ) <= order_key(lane, signed, max),
            residuals.len() == i,
            forall|k: int| sub.len() <= k < i ==> #[trigger] residuals@[k] == 0,
            forall|k: int|
                0 <= k < i && k < sub.len() ==> #[trigger] residuals@[k] == lane.diff(sub@[k], min)
                    && residuals@[k] < pow2(width as nat),
        decreases BLOCK - i,
    {
        if i < sub.len() {
            proof {
                assert(lane.fits(sub@[i as int]));
                lemma_key_diff(lane, signed, min, sub@[i as int]);
                lemma_key_diff(lane, signed, min, max);
            }
            residuals.push(lane.wrapping_sub(sub[i], min));
        } else {
            residuals.push(0);
        }
        i = i + 1;
    }
    assert(residuals@ =~= offsets(lane, min, sub@));
    let k: Lane = kernel(width);
    let words = pack_words(&residuals, k.bits(), width);
    k.write_words(out, &words);
    let ghost piece = seq![width as u8] + lane.word_bytes(min) + k.words_bytes(words@);
    proof {
        assert(out@ =~= start + piece);
        lemma_sub_roundtrip(lane, min, width, words@, residuals@, sub@);
        lane::lemma_words_bytes_len(k, words@);
        bytes::lemma_le_bytes_len(min as nat, lane.bytes() as nat);
        reveal(sub_image);
        if width <= 32 {
            assert(words@.len() == 32 * width && k.bytes() == 4);
        } else {
            assert(words@.len() == 16 * width && k.bytes() == 8);
        }
    }
    Ghost(piece)
}

proof fn lemma_lane_width(lane: Lane, range: u64, width: u32)
    requires
        lane.fits(range),
        width <= 64,
        width > 0 ==> range >= pow2((width - 1) as nat),
    ensures
        width <= lane.bits(),
{
    lemma2_to64();
    if width > lane.bits() {
        bitio::lemma_pow2_mono(32, (width - 1) as nat);
    }
}

proof fn lemma_sub_roundtrip(
    lane: Lane,
    min: u64,
    width: u32,
    words: Seq<u64>,
    residuals: Seq<u64>,
    sub: Seq<u64>,
)
    requires
        lane.fits(min),
        lane.fits_all(sub),
        width <= lane.bits(),
        sub.len() <= BLOCK,
        residuals.len() == BLOCK,
        bitpack::packed_ok(words, kernel(width).bits() as nat, width as nat),
        forall|i: int|
            0 <= i < BLOCK ==> #[trigger] bitpack::packed_value(
                words,
                kernel(width).bits() as nat,
                width as nat,
                i,
            ) == residuals[i] as nat % pow2(width as nat),
        forall|i: int|
            0 <= i < sub.len() ==> #[trigger] residuals[i] == lane.diff(sub[i], min)
                && residuals[i] < pow2(width as nat),
    ensures
        sub_encodes(
            lane,
            seq![width as u8] + lane.word_bytes(min) + kernel(width).words_bytes(words),
            sub,
        ),
{
    let k = kernel(width);
    let b = seq![width as u8] + lane.word_bytes(min) + k.words_bytes(words);
    let body = 1 + lane.bytes() as int;
    let end = body + 128 * width;
    lemma2_to64();
    bytes::lemma_pow256_values();
    bytes::lemma_le_roundtrip(min as nat, lane.bytes() as nat);
    assert(k.fits_all(words)) by {
        assert forall|i: int| 0 <= i < words.len() implies k.fits(#[trigger] words[i]) by {
            assert(words[i] < pow2(k.bits() as nat));
        }
    }
    lane::lemma_words_roundtrip(k, words);
    if width <= 32 {
        assert(words.len() == 32 * width && k.bytes() == 4);
        assert(k.words_bytes(words).len() == 4 * words.len());
    } else {
        assert(words.len() == 16 * width && k.bytes() == 8);
        assert(k.words_bytes(words).len() == 8 * words.len());
    }
    assert forall|rest: Seq<u8>|
        #[trigger] sub_parse(lane, b + rest, sub.len()) == Ok::<_, Error>((sub, rest)) by {
        let s = b + rest;
        assert(s.subrange(1, body) =~= lane.word_bytes(min));
        assert(s.subrange(body, end) =~= k.words_bytes(words));
        assert(s.skip(end) =~= rest);
        let got = framed_values(lane, min, words, width, sub.len());
        assert forall|i: int| 0 <= i < sub.len() implies got[i] == sub[i] by {
            let r = residuals[i];
            assert(lane.fits(sub[i]));
            vstd::arithmetic::div_mod::lemma_small_mod(r as nat, pow2(width as nat));
            assert(bitpack::packed_value(words, k.bits() as nat, width as nat, i) == r);
            lane::lemma_lane_diff_sum(lane, sub[i], min);
        }
        assert(got =~= sub);
    }
}

/// Sub-blocks that each parse back give the whole list back.
#[verifier::rlimit(30)]
proof fn lemma_subs(lane: Lane, vals: Seq<u64>, pieces: Seq<Seq<u8>>, k: nat)
    requires
        k <= pieces.len(),
        vals.len() <= pieces.len() * BLOCK,
        pieces.len() > 0 ==> vals.len() > (pieces.len() - 1) * BLOCK,
        forall|j: int|
            0 <= j < pieces.len() ==> sub_encodes(
                lane,
                #[trigger] pieces[j],
                sub_at(vals, j),
            ),
    ensures
        k * BLOCK <= vals.len() ==> subs_parse(
            lane,
            pieces.skip(k as int).flatten(),
            (vals.len() - k * BLOCK) as nat,
        ) == Ok::<_, Error>(vals.skip(k * BLOCK)),
        k == pieces.len() && k * BLOCK >= vals.len() ==> pieces.skip(k as int).flatten() == Seq::<
            u8,
        >::empty(),
    decreases pieces.len() - k,
{
    let s = pieces.skip(k as int);
    if k < pieces.len() {
        lemma_subs(lane, vals, pieces, k + 1);
        assert(s.drop_first() =~= pieces.skip(k as int + 1));
        let rest = pieces.skip(k as int + 1).flatten();
        let sub = sub_at(vals, k as int);
        assert(sub_encodes(lane, pieces[k as int], sub));
        assert(s.flatten() == pieces[k as int] + rest);
        let n = (vals.len() - k * BLOCK) as nat;
        assert(sub.len() == sub_count(n));
        assert(sub_parse(lane, pieces[k as int] + rest, sub.len()) == Ok::<_, Error>((sub, rest)));
        if n > BLOCK {
            assert(sub + vals.skip((k + 1) * BLOCK) =~= vals.skip(k * BLOCK));
        } else {
            assert(subs_parse(lane, rest, 0) == Ok::<_, Error>(Seq::<u64>::empty()));
            assert(sub + Seq::<u64>::empty() =~= vals.skip(k * BLOCK));
        }
    } else {
        assert(s =~= Seq::empty());
        if k * BLOCK <= vals.len() {
            assert(vals.skip(k * BLOCK) =~= Seq::empty());
        }
    }
}

/// The values of sub-block `j`.
spec fn sub_at(vals: Seq<u64>, j: int) -> Seq<u64> {
    vals.subrange(
        j * BLOCK,
        if (j + 1) * BLOCK <= vals.len() {
            (j + 1) * BLOCK
        } else {
            vals.len() as int
        },
    )
}

/// The sub-blocks from `i` on are the one up to `end` and those after it.
proof fn lemma_subs_step(lane: Lane, signed: bool, vals: Seq<u64>, i: int, end: int)
    requires
        0 <= i < vals.len(),
        end == i + sub_count((vals.len() - i) as nat),
    ensures
        subs_image(lane, signed, vals.skip(i)) == sub_image(lane, signed, vals.subrange(i, end))
            + subs_image(lane, signed, vals.skip(end)),
        subs_size(lane, signed, vals.skip(i)) == 1 + lane.bytes() + 128 * sub_width(
            lane,
            signed,
            vals.subrange(i, end),
        ) + subs_size(lane, signed, vals.skip(end)),
{
    let rest = vals.skip(i);
    let count = sub_count(rest.len()) as int;
    assert(rest.take(count) =~= vals.subrange(i, end));
    assert(rest.skip(count) =~= vals.skip(end));
}

/// Encode `vals` relative to their minima. When `signed`, words are ordered as
/// two's-complement integers, so that a mixed-sign column references its true
/// minimum.
#[verifier::rlimit(30)]
pub fn encode(lane: Lane, vals: &[u64], signed: bool) -> (out: Vec<u8>)
    requires
        lane.fits_all(vals@),
    ensures
        out@ == for_image(lane, signed, vals@),
        for_decoded(lane, out@, vals@.len()) == Ok::<_, Error>(vals@),
        out@.len() == for_size(lane, signed, vals@),
        out.len() <= 16 * vals.len() + 10000,
{
    reveal(for_decoded);
    reveal(for_image);
    let mut out: Vec<u8> = Vec::new();
    varint::write_u64(&mut out, vals.len() as u64);
    let ghost head = out@;
    let ghost mut pieces: Seq<Seq<u8>> = Seq::empty();
    let mut i: usize = 0;
    proof {
        assert(head + pieces.flatten() =~= head);
        varint::lemma_varint_len(vals.len() as u64);
        assert(vals@.skip(0) =~= vals@);
    }
    while i < vals.len()
        invariant
            i <= vals.len(),
            lane.fits_all(vals@),
            i <= pieces.len() * BLOCK,
            i < vals.len() ==> i == pieces.len() * BLOCK,
            pieces.len() > 0 ==> i > (pieces.len() - 1) * BLOCK,
            out@ == head + pieces.flatten(),
            head.len() <= 10,
            out@.len() <= 10 + 8201 * pieces.len(),
            out@ + subs_image(lane, signed, vals@.skip(i as int)) == head + subs_image(
                lane,
                signed,
                vals@,
            ),
            out@.len() + subs_size(lane, signed, vals@.skip(i as int)) == head.len() + subs_size(
                lane,
                signed,
                vals@,
            ),
            forall|j: int|
                0 <= j < pieces.len() ==> sub_encodes(
                    lane,
                    #[trigger] pieces[j],
                    sub_at(vals@, j),
                ),
        decreases vals.len() - i,
    {
        let end: usize = if vals.len() - i > BLOCK {
            i + BLOCK
        } else {
            vals.len()
        };
        let sub = vstd::slice::slice_subrange(vals, i, end);
        assert(lane.fits_all(sub@)) by {
            assert forall|k: int| 0 <= k < sub@.len() implies lane.fits(#[trigger] sub@[k]) by {
                assert(lane.fits(vals@[i + k]));
            }
        }
        let ghost before = pieces;
        let ghost was = out@;
        let Ghost(piece) = encode_subblock(lane, sub, signed, &mut out);
        proof {
            pieces = before.push(piece);
            before.lemma_flatten_push(piece);
            assert(out@ =~= head + pieces.flatten());
            assert(sub@ =~= sub_at(vals@, before.len() as int));
            lemma_subs_step(lane, signed, vals@, i as int, end as int);
            let tail = subs_image(lane, signed, vals@.skip(end as int));
            assert(was + (piece + tail) =~= out@ + tail);
            assert forall|j: int| 0 <= j < pieces.len() implies sub_encodes(
                lane,
                #[trigger] pieces[j],
                sub_at(vals@, j),
            ) by {
                if j < before.len() {
                    assert(sub_encodes(lane, before[j], sub_at(vals@, j)));
                }
            }
        }
        i = end;
    }
    proof {
        assert(out@ + Seq::<u8>::empty() =~= out@);
        lemma_subs(lane, vals@, pieces, 0);
        assert(pieces.skip(0) =~= pieces);
        assert(vals@.skip(0) =~= vals@);
        varint::lemma_varint_roundtrip(vals.len() as u64, pieces.flatten());
    }
    out
}

/// Decode the sub-block of `count` values at `pos`; the result holds the values
/// and the place after them.
fn decode_subblock(lane: Lane, payload: &[u8], pos: usize, count: usize) -> (r: Result<
    (Vec<u64>, usize),
    Error,
>)
    requires
        pos <= payload.len(),
        count <= BLOCK,
    ensures
        match sub_parse(lane, payload@.skip(pos as int), count as nat) {
            Err(e) => r == Err::<(Vec<u64>, usize), _>(e),
            Ok((sub, rest)) => {
                &&& r matches Ok((v, next))
                &&& v@ == sub
                &&& pos <= next <= payload.len()
                &&& rest == payload@.skip(next as int)
                &&& lane.fits_all(v@)
            },
        },
{
    let s = tail(payload, pos);
    if s.len() == 0 {
        return Err(Error::Truncated);
    }
    let width: u32 = s[0] as u32;
    if width > lane.bits() {
        return Err(Error::CorruptPayload("for_bitpack bad width"));
    }
    let body: usize = 1 + lane.bytes();
    let end: usize = body + 128 * width as usize;
    if s.len() < end {
        return Err(Error::Truncated);
    }
    let min: u64 = lane.read_word(s, 1);
    let k: Lane = kernel(width);
    let image = vstd::slice::slice_subrange(s, body, end);
    let words = k.from_le_image(image);
    proof {
        lemma2_to64();
        assert(words@ == k.words_of(s@.subrange(body as int, end as int)));
        lane::lemma_words_of_len(
            k,
            image@,
            if width <= 32 {
                32 * width as nat
            } else {
                16 * width as nat
            },
        );
        assert forall|i: int| 0 <= i < words@.len() implies #[trigger] words@[i] < pow2(
            k.bits() as nat,
        ) by {
            assert(k.fits(words@[i]));
        }
    }
    let residuals = unpack_words(&words, k.bits(), width);
    let mut out: Vec<u64> = Vec::new();
    let mut i: usize = 0;
    proof {
        bitio::lemma_pow2_mono(width as nat, lane.bits() as nat);
    }
    while i < count
        invariant
            i <= count <= BLOCK,
            width <= lane.bits(),
            lane.fits(min),
            pow2(width as nat) <= lane.modulus(),
            residuals.len() == BLOCK,
            forall|j: int|
                0 <= j < BLOCK ==> #[trigger] residuals@[j] == bitpack::packed_value(
                    words@,
                    kernel(width).bits() as nat,
                    width as nat,
                    j,
                ),
            forall|j: int| 0 <= j < BLOCK ==> #[trigger] residuals@[j] < pow2(width as nat),
            out.len() == i,
            lane.fits_all(out@),
            forall|j: int|
                0 <= j < i ==> #[trigger] out@[j] == lane.sum(min, residuals@[j]),
        decreases count - i,
    {
        out.push(lane.wrapping_add(min, residuals[i]));
        i = i + 1;
    }
    proof {
        let want = framed_values(lane, min, words@, width, count as nat);
        assert forall|j: int| 0 <= j < count implies out@[j] == want[j] by {
            let r = residuals@[j];
        }
        assert(out@ =~= want);
        assert(s@.skip(end as int) =~= payload@.skip(pos + end));
    }
    Ok((out, pos + end))
}

/// Inverse of [`encode`]. The reference is added modulo the lane, so reading
/// does not depend on the sign.
pub fn decode(lane: Lane, payload: &[u8], n: usize) -> (r: Result<Vec<u64>, Error>)
    ensures
        error::viewed(r) == for_decoded(lane, payload@, n as nat),
        r matches Ok(v) ==> lane.fits_all(v@) && v.len() == n,
{
    reveal(for_decoded);
    let mut pos: usize = 0;
    assert(payload@.skip(0) =~= payload@);
    let len: u64 = match varint::read_u64(payload, &mut pos) {
        Ok(v) => v,
        Err(e) => return Err(e),
    };
    if len != n as u64 {
        return Err(Error::CorruptPayload("for_bitpack length mismatch"));
    }
    let mut out: Vec<u64> = Vec::new();
    let ghost whole = for_decoded(lane, payload@, n as nat);
    let ghost first = subs_parse(lane, payload@.skip(pos as int), n as nat);
    proof {
        if let Ok(t) = first {
            assert(out@ + t =~= t);
        }
    }
    while out.len() < n
        invariant
            pos <= payload.len(),
            out.len() <= n,
            lane.fits_all(out@),
            whole == for_decoded(lane, payload@, n as nat),
            whole == (match subs_parse(
                lane,
                payload@.skip(pos as int),
                (n - out.len()) as nat,
            ) {
                Err(e) => Err::<Seq<u64>, _>(e),
                Ok(t) => Ok(out@ + t),
            }),
        decreases n - out.len(),
    {
        let left: usize = n - out.len();
        let count: usize = if left < BLOCK {
            left
        } else {
            BLOCK
        };
        let ghost before = out@;
        let ghost old_pos = pos;
        match decode_subblock(lane, payload, pos, count) {
            Err(e) => return Err(e),
            Ok((sub, next)) => {
                out.extend_from_slice(&sub);
                pos = next;
                proof {
                    assert(out@ =~= before + sub@);
                    if let Ok(t) = subs_parse(
                        lane,
                        payload@.skip(pos as int),
                        (n - out.len()) as nat,
                    ) {
                        assert(before + (sub@ + t) =~= out@ + t);
                    }
                }
            },
        }
    }
    assert(out@ + Seq::<u64>::empty() =~= out@);
    Ok(out)
}

} // verus!
