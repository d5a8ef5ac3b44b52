//! Decimal columns.
//!
//! A decimal is an integer significand with a fixed scale and precision, wider
//! than any lane. The container subtracts the column's minimum, splits the
//! non-negative offsets into 64-bit limbs (two for 128-bit decimals, four for
//! 256-bit ones) and compresses each limb as an unsigned 64-bit column. In the
//! common case the high limbs are all zero and cost next to nothing.
//!
//! Nulls are compacted out once, for all limbs; the bitmap is stored once.
//!
//! Layout: the sixteen header bytes (with the decimal flag and an unused
//! predictor size), `scale:i8 ++ precision:u8 ++ limbs:u8 ++ minimum` in
//! little-endian two's complement, the validity section when some value is
//! null, then each limb's stream as `varint(length) ++ stream`.

use vstd::prelude::*;
use crate::bytes;
use crate::bytes::{append_bytes, read_le, write_le};
use crate::config::Config;
use crate::decoder;
use crate::decoder::{count_float_frames, decompress_lane, read_validity, take_section};
use crate::diag;
use crate::diag::ModeWins;
use crate::dtype;
use crate::dtype::DType;
use crate::encoder;
use crate::encoder::{compress_lane, write_validity, FloatOffer};
use crate::error::Error;
use crate::format::{has_magic, write_magic, FLAG_DECIMAL, LEGACY_VERSION, VERSION};
use crate::validity;
use crate::validity::{count_valid, is_set};
use crate::varint;

verus! {

/// Offset of the decimal metadata in the container.
pub const META_OFF: usize = 16;

/// Limbs of a 128-bit decimal.
pub const N_LIMBS_128: usize = 2;

/// Limbs of a 256-bit decimal.
pub const N_LIMBS_256: usize = 4;

/// One more than the greatest limb.
pub open spec fn limb_base() -> int {
    0x1_0000_0000_0000_0000
}

// ---------------------------------------------------------------------------
// 256-bit arithmetic on limbs, least significant first
// ---------------------------------------------------------------------------

/// Two to the 256th.
pub open spec fn modulus256() -> int {
    limb_base() * limb_base() * limb_base() * limb_base()
}

/// The number that four limbs spell.
pub open spec fn value4(l: Seq<u64>) -> int {
    l[0] + limb_base() * (l[1] + limb_base() * (l[2] + limb_base() * l[3]))
}

/// A 256-bit number read as two's complement.
pub open spec fn signed256(v: int) -> int {
    if 2 * v < modulus256() {
        v
    } else {
        v - modulus256()
    }
}

proof fn lemma_value4_bound(l: Seq<u64>)
    requires
        l.len() == 4,
    ensures
        0 <= value4(l) < modulus256(),
{
    assert(limb_base() * limb_base() * limb_base() * limb_base() == limb_base() * (limb_base() * (
    limb_base() * limb_base()))) by (nonlinear_arith);
}

/// The little-endian value of a concatenation.
pub proof fn lemma_le_concat(a: Seq<u8>, b: Seq<u8>)
    ensures
        bytes::le_value(a + b) == bytes::le_value(a) + bytes::pow256(a.len()) * bytes::le_value(b),
    decreases a.len(),
{
    if a.len() == 0 {
        assert(a + b =~= b);
        bytes::lemma_pow256_step(0);
        assert(bytes::pow256(0) * bytes::le_value(b) == bytes::le_value(b)) by (nonlinear_arith)
            requires
                bytes::pow256(0) == 1,
        ;
    } else {
        let t = a.drop_first();
        lemma_le_concat(t, b);
        assert((a + b).drop_first() =~= t + b);
        bytes::lemma_pow256_step(t.len());
        let p = bytes::pow256(t.len()) as int;
        let v = bytes::le_value(b) as int;
        assert(256 * (p * v) == (256 * p) * v) by (nonlinear_arith);
    }
}

/// The value of 32 bytes is that of their four limbs.
proof fn lemma_limbs_of_bytes(s: Seq<u8>, l: Seq<u64>)
    requires
        s.len() == 32,
        l.len() == 4,
        forall|i: int|
            0 <= i < 4 ==> #[trigger] l[i] == bytes::le_value(s.subrange(8 * i, 8 * i + 8)),
    ensures
        bytes::le_value(s) == value4(l),
{
    bytes::lemma_pow256_values();
    let (a, b, c, d) = (s.subrange(0, 8), s.subrange(8, 16), s.subrange(16, 24), s.subrange(24, 32));
    assert(l[0] == bytes::le_value(s.subrange(0, 8)));
    assert(l[1] == bytes::le_value(s.subrange(8, 16)));
    assert(l[2] == bytes::le_value(s.subrange(16, 24)));
    assert(l[3] == bytes::le_value(s.subrange(24, 32)));
    lemma_le_concat(c, d);
    lemma_le_concat(b, c + d);
    lemma_le_concat(a, b + (c + d));
    assert(s =~= a + (b + (c + d)));
}

/// The limbs of 32 little-endian bytes.
pub fn to_limbs(b: &[u8; 32]) -> (l: [u64; 4])
    ensures
        value4(l@) == bytes::le_value(b@),
{
    let s = vstd::array::array_as_slice(b);
    let l: [u64; 4] = [read_le(s, 0, 8), read_le(s, 8, 8), read_le(s, 16, 8), read_le(s, 24, 8)];
    proof {
        assert forall|i: int| 0 <= i < 4 implies #[trigger] l@[i] == bytes::le_value(
            b@.subrange(8 * i, 8 * i + 8),
        ) by {
            if i == 0 {
            } else if i == 1 {
            } else if i == 2 {
            } else {
            }
        }
        lemma_limbs_of_bytes(b@, l@);
    }
    l
}

/// The 32 little-endian bytes of limbs.
pub fn from_limbs(l: &[u64; 4]) -> (b: [u8; 32])
    ensures
        bytes::le_value(b@) == value4(l@),
{
    let mut v: Vec<u8> = Vec::new();
    write_le(&mut v, l[0], 8);
    write_le(&mut v, l[1], 8);
    write_le(&mut v, l[2], 8);
    write_le(&mut v, l[3], 8);
    proof {
        bytes::lemma_pow256_values();
        assert forall|i: int| 0 <= i < 4 implies #[trigger] l@[i] == bytes::le_value(
            v@.subrange(8 * i, 8 * i + 8),
        ) by {
            bytes::lemma_le_roundtrip(l@[0] as nat, 8);
            bytes::lemma_le_roundtrip(l@[1] as nat, 8);
            bytes::lemma_le_roundtrip(l@[2] as nat, 8);
            bytes::lemma_le_roundtrip(l@[3] as nat, 8);
            assert(v@.subrange(8 * i, 8 * i + 8) =~= bytes::le_bytes(l@[i] as nat, 8));
        }
        bytes::lemma_le_bytes_len(l@[0] as nat, 8);
        bytes::lemma_le_bytes_len(l@[1] as nat, 8);
        bytes::lemma_le_bytes_len(l@[2] as nat, 8);
        bytes::lemma_le_bytes_len(l@[3] as nat, 8);
        lemma_limbs_of_bytes(v@, l@);
    }
    let mut b: [u8; 32] = [0u8; 32];
    let mut i: usize = 0;
    while i < 32
        invariant
            i <= 32,
            v.len() == 32,
            forall|k: int| 0 <= k < i ==> #[trigger] b@[k] == v@[k],
        decreases 32 - i,
    {
        b[i] = v[i];
        i = i + 1;
    }
    assert(b@ =~= v@);
    b
}

/// Signed `a < b` over 256 bits.
pub fn lt_signed(a: &[u64; 4], b: &[u64; 4]) -> (r: bool)
    ensures
        r == (signed256(value4(a@)) < signed256(value4(b@))),
{
    proof {
        lemma_value4_bound(a@);
        lemma_value4_bound(b@);
        assert(modulus256() == limb_base() * (limb_base() * (limb_base() * limb_base())))
            by (nonlinear_arith);
    }
    let na: bool = a[3] >= 0x8000_0000_0000_0000;
    let nb: bool = b[3] >= 0x8000_0000_0000_0000;
    if na != nb {
        return na;
    }
    if a[3] != b[3] {
        return a[3] < b[3];
    }
    if a[2] != b[2] {
        return a[2] < b[2];
    }
    if a[1] != b[1] {
        return a[1] < b[1];
    }
    a[0] < b[0]
}

/// One limb of a sum, and the carry out of it.
fn add_carry(a: u64, b: u64, carry: u64) -> (r: (u64, u64))
    requires
        carry <= 1,
    ensures
        r.1 <= 1,
        r.0 + limb_base() * r.1 == a + b + carry,
{
    let s: u128 = a as u128 + b as u128 + carry as u128;
    ((s % 0x1_0000_0000_0000_0000) as u64, (s / 0x1_0000_0000_0000_0000) as u64)
}

/// One limb of a difference, and the borrow out of it.
fn sub_borrow(a: u64, b: u64, borrow: u64) -> (r: (u64, u64))
    requires
        borrow <= 1,
    ensures
        r.1 <= 1,
        r.0 == a - b - borrow + limb_base() * r.1,
{
    let s: u128 = 0x1_0000_0000_0000_0000 + a as u128 - b as u128 - borrow as u128;
    if s >= 0x1_0000_0000_0000_0000 {
        ((s - 0x1_0000_0000_0000_0000) as u64, 0)
    } else {
        (s as u64, 1)
    }
}

proof fn lemma_limb_step(d: int, c: int, a: int, b: int, carry: int, t: int, at: int, bt: int)
    requires
        t == at + bt + c,
        d + limb_base() * c == a + b + carry,
    ensures
        d + limb_base() * t == (a + limb_base() * at) + (b + limb_base() * bt) + carry,
{
    let m = limb_base();
    assert(m * (at + bt + c) == m * at + m * bt + m * c) by (nonlinear_arith);
}

/// Limbs added with carries: the numbers add up.
proof fn lemma_limb_sum(d: Seq<u64>, c: Seq<int>, a: Seq<u64>, b: Seq<u64>)
    requires
        d.len() == 4,
        c.len() == 4,
        a.len() == 4,
        b.len() == 4,
        d[0] + limb_base() * c[0] == a[0] + b[0],
        d[1] + limb_base() * c[1] == a[1] + b[1] + c[0],
        d[2] + limb_base() * c[2] == a[2] + b[2] + c[1],
        d[3] + limb_base() * c[3] == a[3] + b[3] + c[2],
    ensures
        value4(d) + modulus256() * c[3] == value4(a) + value4(b),
{
    let m = limb_base();
    let t3 = d[3] + m * c[3];
    let t2 = d[2] + m * t3;
    let t1 = d[1] + m * t2;
    let t0 = d[0] + m * t1;
    lemma_limb_step(
        d[2] as int,
        c[2],
        a[2] as int,
        b[2] as int,
        c[1],
        t3,
        a[3] as int,
        b[3] as int,
    );
    lemma_limb_step(
        d[1] as int,
        c[1],
        a[1] as int,
        b[1] as int,
        c[0],
        t2,
        a[2] + m * a[3],
        b[2] + m * b[3],
    );
    lemma_limb_step(
        d[0] as int,
        c[0],
        a[0] as int,
        b[0] as int,
        0,
        t1,
        a[1] + m * (a[2] + m * a[3]),
        b[1] + m * (b[2] + m * b[3]),
    );
    let (d0, d1, d2, d3, k) = (d[0] as int, d[1] as int, d[2] as int, d[3] as int, c[3]);
    assert(d0 + m * (d1 + m * (d2 + m * (d3 + m * k))) == (d0 + m * (d1 + m * (d2 + m * d3))) + (m
        * m * m * m) * k) by (nonlinear_arith);
}

/// `a + b` modulo two to the 256th.
pub fn add_limbs(a: &[u64; 4], b: &[u64; 4]) -> (r: [u64; 4])
    ensures
        value4(r@) == (value4(a@) + value4(b@)) % modulus256(),
{
    let (d0, c0) = add_carry(a[0], b[0], 0);
    let (d1, c1) = add_carry(a[1], b[1], c0);
    let (d2, c2) = add_carry(a[2], b[2], c1);
    let (d3, c3) = add_carry(a[3], b[3], c2);
    let r: [u64; 4] = [d0, d1, d2, d3];
    proof {
        lemma_value4_bound(r@);
        lemma_limb_sum(r@, seq![c0 as int, c1 as int, c2 as int, c3 as int], a@, b@);
        lemma_mod_shift(value4(a@) + value4(b@), value4(r@), c3 as int);
    }
    r
}

/// `a - b` modulo two to the 256th.
pub fn sub_limbs(a: &[u64; 4], b: &[u64; 4]) -> (r: [u64; 4])
    ensures
        value4(r@) == (value4(a@) - value4(b@)) % modulus256(),
{
    let (d0, c0) = sub_borrow(a[0], b[0], 0);
    let (d1, c1) = sub_borrow(a[1], b[1], c0);
    let (d2, c2) = sub_borrow(a[2], b[2], c1);
    let (d3, c3) = sub_borrow(a[3], b[3], c2);
    let r: [u64; 4] = [d0, d1, d2, d3];
    proof {
        lemma_value4_bound(r@);
        lemma_limb_sum(a@, seq![c0 as int, c1 as int, c2 as int, c3 as int], r@, b@);
        assert(modulus256() * c3 == -(modulus256() * -(c3 as int))) by (nonlinear_arith);
        lemma_mod_shift(value4(a@) - value4(b@), value4(r@), -(c3 as int));
    }
    r
}

proof fn lemma_mod_shift(x: int, r: int, k: int)
    requires
        0 <= r < modulus256(),
        r == x - modulus256() * k,
    ensures
        r == x % modulus256(),
{
    let m = modulus256();
    assert(m * k == k * m) by (nonlinear_arith);
    vstd::arithmetic::div_mod::lemma_fundamental_div_mod_converse(x, m, k, r);
}

/// Adding undoes subtracting, modulo `m`.
pub proof fn lemma_add_undoes_sub(v: int, w: int, m: int)
    requires
        0 <= v < m,
    ensures
        (w + (v - w) % m) % m == v,
{
    vstd::arithmetic::div_mod::lemma_add_mod_noop_right(w, v - w, m);
    vstd::arithmetic::div_mod::lemma_small_mod(v as nat, m as nat);
}

// ---------------------------------------------------------------------------
// The container
// ---------------------------------------------------------------------------

/// A byte read as two's complement.
pub open spec fn signed8(b: u8) -> i8 {
    (if b < 128 {
        b as int
    } else {
        b - 256
    }) as i8
}

/// The two's-complement byte of a number.
pub open spec fn unsigned8(v: i8) -> u8 {
    (if v >= 0 {
        v as int
    } else {
        v + 256
    }) as u8
}

fn byte_to_scale(b: u8) -> (v: i8)
    ensures
        v == signed8(b),
{
    if b < 128 {
        b as i8
    } else {
        (b as i16 - 256) as i8
    }
}

fn scale_to_byte(v: i8) -> (b: u8)
    ensures
        b == unsigned8(v),
        signed8(b) == v,
{
    if v >= 0 {
        v as u8
    } else {
        (v as i16 + 256) as u8
    }
}

/// What a container says: metadata, the minimum's bytes, the limbs of the valid
/// offsets and which values are valid.
pub struct ContainerView {
    pub scale: i8,
    pub precision: u8,
    pub n_values: nat,
    pub min: Seq<u8>,
    pub limbs: Seq<Seq<u64>>,
    pub bits: Option<Seq<bool>>,
}

/// `k` limbs of `n` values at the front of `s`, `floats` being the words of the float
/// frames of their streams, in order.
pub open spec fn limbs_parse(s: Seq<u8>, k: nat, n: nat, floats: Seq<Seq<u64>>) -> Result<
    Seq<Seq<u64>>,
    Error,
>
    decreases k,
{
    if k == 0 {
        Ok(Seq::empty())
    } else {
        match decoder::section_parse(s, Error::CorruptPayload("decimal sub-stream length")) {
            Err(e) => Err(e),
            Ok((blob, rest)) => match decoder::lane_decoded(blob, floats) {
                Err(e) => Err(e),
                Ok((_, words, _)) => if words.len() != n {
                    Err(Error::CorruptPayload("decimal limb length"))
                } else {
                    match limbs_parse(
                        rest,
                        (k - 1) as nat,
                        n,
                        decoder::after_stream(blob, floats),
                    ) {
                        Err(e) => Err(e),
                        Ok(more) => Ok(seq![words] + more),
                    }
                },
            },
        }
    }
}

/// Each limb reads the words of the float frames of its own stream: the first its own,
/// the others what is supplied after them.
pub proof fn lemma_limb_own(
    s: Seq<u8>,
    k: nat,
    n: nat,
    blob: Seq<u8>,
    rest: Seq<u8>,
    own: Seq<Seq<u64>>,
    more: Seq<Seq<u64>>,
)
    requires
        k > 0,
        decoder::section_parse(s, Error::CorruptPayload("decimal sub-stream length")) == Ok::<
            _,
            Error,
        >((blob, rest)),
        own.len() == decoder::stream_floats(blob),
    ensures
        limbs_parse(s, k, n, own + more) == (match decoder::lane_decoded(blob, own) {
            Err(e) => Err::<Seq<Seq<u64>>, Error>(e),
            Ok((_, words, _)) => if words.len() != n {
                Err(Error::CorruptPayload("decimal limb length"))
            } else {
                match limbs_parse(rest, (k - 1) as nat, n, more) {
                    Err(e) => Err(e),
                    Ok(limbs) => Ok(seq![words] + limbs),
                }
            },
        }),
{
    decoder::lemma_stream_own(blob, own, more);
}

/// The mode identifiers of the blocks of the `k` limbs at the front of `s`.
pub open spec fn limb_modes(s: Seq<u8>, k: nat) -> Seq<u8>
    decreases k,
{
    if k == 0 {
        Seq::empty()
    } else {
        match decoder::section_parse(s, Error::CorruptPayload("decimal sub-stream length")) {
            Err(_) => Seq::empty(),
            Ok((blob, rest)) => encoder::frame_ids(encoder::stream_frames(blob)) + limb_modes(
                rest,
                (k - 1) as nat,
            ),
        }
    }
}

/// The mode identifiers of the blocks in a container.
pub open spec fn container_modes(src: Seq<u8>) -> Seq<u8> {
    let k = src[18] as nat;
    match decoder::validity_parse(
        src.skip(19 + 8 * k as int),
        src[5] % 2 == 1,
        bytes::le_value(src.subrange(8, 16)),
    ) {
        Err(_) => Seq::empty(),
        Ok((_, rest)) => limb_modes(rest, k),
    }
}

/// The streams of the `k` limbs at the front of `s`, up to one that cannot be found.
pub open spec fn limb_blobs(s: Seq<u8>, k: nat) -> Seq<Seq<u8>>
    decreases k,
{
    if k == 0 {
        Seq::empty()
    } else {
        match decoder::section_parse(s, Error::CorruptPayload("decimal sub-stream length")) {
            Err(_) => Seq::empty(),
            Ok((blob, rest)) => seq![blob] + limb_blobs(rest, (k - 1) as nat),
        }
    }
}

/// The limb streams of a container, up to one that cannot be found.
pub open spec fn container_blobs(src: Seq<u8>) -> Seq<Seq<u8>> {
    let n = bytes::le_value(src.subrange(8, 16));
    let k = src[18] as nat;
    let end = 19 + 8 * k as int;
    if src.len() < META_OFF + 3 || n > usize::MAX || k > 4 || src.len() < end {
        Seq::empty()
    } else {
        match decoder::validity_parse(src.skip(end), src[5] % 2 == 1, n) {
            Err(_) => Seq::empty(),
            Ok((_, rest)) => limb_blobs(rest, k),
        }
    }
}

/// The parts of `src` that lie between pairs of places.
pub open spec fn cuts(src: Seq<u8>, ranges: Seq<(usize, usize)>) -> Seq<Seq<u8>> {
    Seq::new(ranges.len(), |i: int| src.subrange(ranges[i].0 as int, ranges[i].1 as int))
}

/// Number of valid values.
pub open spec fn valid_count(bits: Option<Seq<bool>>, n: nat) -> nat {
    match bits {
        None => n,
        Some(b) => validity::set_count(b),
    }
}

/// The container of type `expect` in `src`, `floats` being the words of the float frames
/// of its limb streams, in order.
#[verifier::opaque]
pub open spec fn container_parse(src: Seq<u8>, expect: DType, floats: Seq<Seq<u64>>) -> Result<
    ContainerView,
    Error,
> {
    if src.len() < META_OFF + 3 {
        Err(Error::Truncated)
    } else if src.take(4) != crate::format::magic() {
        Err(Error::BadMagic)
    } else if src[4] != VERSION && src[4] != LEGACY_VERSION {
        Err(Error::UnsupportedVersion(src[4]))
    } else if (src[5] / FLAG_DECIMAL) % 2 == 0 {
        Err(Error::CorruptPayload("not a decimal container"))
    } else {
        match dtype::dtype_of_wire(src[7]) {
            Err(e) => Err(e),
            Ok(found) => if found != expect {
                Err(Error::DTypeMismatch)
            } else {
                container_body(src, floats)
            },
        }
    }
}

/// What follows the type check of a container.
pub open spec fn container_body(src: Seq<u8>, floats: Seq<Seq<u64>>) -> Result<
    ContainerView,
    Error,
> {
    let n = bytes::le_value(src.subrange(8, 16));
    let k = src[18] as nat;
    let end = 19 + 8 * k as int;
    if n > usize::MAX {
        Err(Error::Truncated)
    } else if k == 0 || k > 4 {
        Err(Error::CorruptPayload("decimal limb count"))
    } else if src.len() < end {
        Err(Error::Truncated)
    } else {
        match decoder::validity_parse(src.skip(end), src[5] % 2 == 1, n) {
            Err(e) => Err(e),
            Ok((bits, rest)) => match limbs_parse(rest, k, valid_count(bits, n), floats) {
                Err(e) => Err(e),
                Ok(limbs) => Ok(
                    ContainerView {
                        scale: signed8(src[16]),
                        precision: src[17],
                        n_values: n,
                        min: src.subrange(19, end),
                        limbs,
                        bits,
                    },
                ),
            },
        }
    }
}

/// A container of the legacy version reads as one of the current version.
pub proof fn lemma_legacy_container(src: Seq<u8>, expect: DType, floats: Seq<Seq<u64>>)
    requires
        src.len() > 4,
        src[4] == VERSION,
    ensures
        container_parse(src.update(4, LEGACY_VERSION), expect, floats) == container_parse(
            src,
            expect,
            floats,
        ),
{
    reveal(container_parse);
    let legacy = src.update(4, LEGACY_VERSION);
    assert(legacy.take(4) =~= src.take(4));
    if src.len() >= META_OFF + 3 {
        let end = 19 + 8 * src[18] as int;
        assert(legacy.subrange(8, 16) =~= src.subrange(8, 16));
        if end <= src.len() {
            assert(legacy.subrange(19, end) =~= src.subrange(19, end));
            assert(legacy.skip(end) =~= src.skip(end));
        }
    }
}

/// The bitmap to store: only one that marks some value null.
pub open spec fn stored_bits(bitmap: Option<&[u8]>, n: nat) -> Option<Seq<bool>> {
    match bitmap {
        None => None,
        Some(bm) => if validity::set_count(validity::bitmap_bits(bm@, n)) < n {
            Some(validity::bitmap_bits(bm@, n))
        } else {
            None
        },
    }
}

/// The bitmap that is stored for `n` values: none where every value is valid.
pub open spec fn stored_bitmap<'a>(bitmap: Option<&'a [u8]>, n: nat) -> Option<&'a [u8]> {
    if stored_bits(bitmap, n) is Some {
        bitmap
    } else {
        None
    }
}

/// The bitmap to store, if any value is null.
pub fn nulls_only<'a>(bitmap: Option<&'a [u8]>, n: usize) -> (r: Option<&'a [u8]>)
    requires
        encoder::bitmap_covers(bitmap, n as nat),
    ensures
        encoder::bitmap_covers(r, n as nat),
        encoder::bits_of(r, n as nat) == stored_bits(bitmap, n as nat),
        r == stored_bitmap(bitmap, n as nat),
{
    match bitmap {
        None => None,
        Some(bm) => if count_valid(bm, n) < n {
            Some(bm)
        } else {
            None
        },
    }
}

/// The views of limbs.
pub open spec fn limbs_view(limbs: Seq<Vec<u64>>) -> Seq<Seq<u64>> {
    Seq::new(limbs.len(), |i: int| limbs[i]@)
}

/// `b` is a section that decodes to `words`.
#[verifier::opaque]
spec fn limb_encodes(b: Seq<u8>, words: Seq<u64>) -> bool {
    forall|rest: Seq<u8>, k: nat|
        k > 0 ==> #[trigger] limbs_parse(b + rest, k, words.len(), Seq::empty()) == (
        match limbs_parse(rest, (k - 1) as nat, words.len(), Seq::empty()) {
            Err(e) => Err::<Seq<Seq<u64>>, Error>(e),
            Ok(more) => Ok::<_, Error>(seq![words] + more),
        })
}

/// `b` is one section.
#[verifier::opaque]
spec fn limb_section(b: Seq<u8>) -> bool {
    forall|rest: Seq<u8>, k: nat|
        k > 0 ==> #[trigger] limb_modes(b + rest, k) == limb_modes(b, 1) + limb_modes(
            rest,
            (k - 1) as nat,
        )
}

proof fn lemma_section_at(b: Seq<u8>, rest: Seq<u8>, k: nat)
    requires
        limb_section(b),
        k > 0,
    ensures
        limb_modes(b + rest, k) == limb_modes(b, 1) + limb_modes(rest, (k - 1) as nat),
{
    reveal(limb_section);
}

/// The length and the bytes of a stream make a section, with the modes of the
/// stream.
proof fn lemma_section_of(sub: Seq<u8>)
    requires
        sub.len() <= usize::MAX,
    ensures
        limb_section(varint::varint_bytes(sub.len()) + sub),
        limb_modes(varint::varint_bytes(sub.len()) + sub, 1) == encoder::frame_ids(
            encoder::stream_frames(sub),
        ),
{
    let piece = varint::varint_bytes(sub.len()) + sub;
    let ids = encoder::frame_ids(encoder::stream_frames(sub));
    assert forall|rest: Seq<u8>, k: nat| k > 0 implies #[trigger] limb_modes(piece + rest, k) == ids
        + limb_modes(rest, (k - 1) as nat) by {
        varint::lemma_varint_roundtrip(sub.len() as u64, sub + rest);
        assert(piece + rest =~= varint::varint_bytes(sub.len()) + (sub + rest));
        assert((sub + rest).take(sub.len() as int) =~= sub);
        assert((sub + rest).skip(sub.len() as int) =~= rest);
    }
    assert(limb_modes(piece + Seq::empty(), 1) == ids + limb_modes(Seq::empty(), 0));
    assert(piece + Seq::<u8>::empty() =~= piece);
    assert(limb_modes(piece, 1) =~= ids);
    reveal(limb_section);
}

/// Sections before others contribute their modes first.
#[verifier::rlimit(30)]
proof fn lemma_limb_modes(pieces: Seq<Seq<u8>>, tail: Seq<u8>, k: nat)
    requires
        forall|i: int| 0 <= i < pieces.len() ==> limb_section(#[trigger] pieces[i]),
    ensures
        limb_modes(pieces.flatten() + tail, pieces.len() + k) == limb_modes(
            pieces.flatten(),
            pieces.len(),
        ) + limb_modes(tail, k),
    decreases pieces.len(),
{
    if pieces.len() == 0 {
        assert(pieces.flatten() + tail =~= tail);
        assert(limb_modes(pieces.flatten(), 0) + limb_modes(tail, k) =~= limb_modes(tail, k));
    } else {
        let first = pieces[0];
        let rest = pieces.drop_first();
        assert(limb_section(first));
        assert forall|i: int| 0 <= i < rest.len() implies limb_section(#[trigger] rest[i]) by {
            assert(limb_section(pieces[i + 1]));
        }
        lemma_limb_modes(rest, tail, k);
        assert(pieces.flatten() == first + rest.flatten());
        assert(pieces.flatten() + tail =~= first + (rest.flatten() + tail));
        lemma_section_at(first, rest.flatten() + tail, pieces.len() + k);
        lemma_section_at(first, rest.flatten(), pieces.len());
        assert((limb_modes(first, 1) + limb_modes(rest.flatten(), rest.len())) + limb_modes(tail, k)
            =~= limb_modes(first, 1) + (limb_modes(rest.flatten(), rest.len()) + limb_modes(
            tail,
            k,
        )));
    }
}

/// The length and the bytes of a limb's stream decode to the limb, before what follows.
proof fn lemma_limb_before(sub: Seq<u8>, words: Seq<u64>, rest: Seq<u8>, k: nat)
    requires
        k > 0,
        sub.len() <= usize::MAX,
        decoder::lane_decoded(sub, Seq::empty()) == Ok::<_, Error>(
            (DType::U64, words, None::<Seq<bool>>),
        ),
    ensures
        limbs_parse(
            varint::varint_bytes(sub.len()) + sub + rest,
            k,
            words.len(),
            Seq::empty(),
        ) == (match limbs_parse(rest, (k - 1) as nat, words.len(), Seq::empty()) {
            Err(e) => Err::<Seq<Seq<u64>>, Error>(e),
            Ok(more) => Ok::<_, Error>(seq![words] + more),
        }),
{
    let s = varint::varint_bytes(sub.len()) + sub + rest;
    assert(decoder::section_parse(s, Error::CorruptPayload("decimal sub-stream length")) == Ok::<
        _,
        Error,
    >((sub, rest))) by {
        varint::lemma_varint_roundtrip(sub.len() as u64, sub + rest);
        assert(s =~= varint::varint_bytes(sub.len()) + (sub + rest));
        assert((sub + rest).take(sub.len() as int) =~= sub);
        assert((sub + rest).skip(sub.len() as int) =~= rest);
    }
    assert(decoder::after_stream(sub, Seq::empty()) =~= Seq::empty());
}

/// The length and the bytes of a limb's stream decode to the limb.
proof fn lemma_limb_of(sub: Seq<u8>, words: Seq<u64>)
    requires
        sub.len() <= usize::MAX,
        decoder::lane_decoded(sub, Seq::empty()) == Ok::<_, Error>(
            (DType::U64, words, None::<Seq<bool>>),
        ),
    ensures
        limb_encodes(varint::varint_bytes(sub.len()) + sub, words),
{
    let piece = varint::varint_bytes(sub.len()) + sub;
    assert forall|rest: Seq<u8>, k: nat| k > 0 implies #[trigger] limbs_parse(
        piece + rest,
        k,
        words.len(),
        Seq::empty(),
    ) == (match limbs_parse(rest, (k - 1) as nat, words.len(), Seq::empty()) {
        Err(e) => Err::<Seq<Seq<u64>>, Error>(e),
        Ok(more) => Ok::<_, Error>(seq![words] + more),
    }) by {
        lemma_limb_before(sub, words, rest, k);
    }
    reveal(limb_encodes);
}

proof fn lemma_limb_at(b: Seq<u8>, words: Seq<u64>, rest: Seq<u8>, k: nat)
    requires
        limb_encodes(b, words),
        k > 0,
    ensures
        limbs_parse(b + rest, k, words.len(), Seq::empty()) == (match limbs_parse(
            rest,
            (k - 1) as nat,
            words.len(),
            Seq::empty(),
        ) {
            Err(e) => Err::<Seq<Seq<u64>>, Error>(e),
            Ok(more) => Ok::<_, Error>(seq![words] + more),
        }),
{
    reveal(limb_encodes);
}

/// The sections of limb streams: each its length and the stream.
pub open spec fn sections(subs: Seq<Seq<u8>>) -> Seq<u8>
    decreases subs.len(),
{
    if subs.len() == 0 {
        Seq::empty()
    } else {
        sections(subs.drop_last()) + varint::varint_bytes(subs.last().len()) + subs.last()
    }
}

/// The streams of limbs, each compressed as an integer column.
pub open spec fn limb_streams(subs: Seq<Seq<u8>>, limbs: Seq<Seq<u64>>, cfg: Config) -> bool {
    &&& subs.len() == limbs.len()
    &&& forall|i: int|
        0 <= i < subs.len() ==> encoder::won_stream(
            #[trigger] subs[i],
            DType::U64,
            limbs[i],
            limbs[i].len() as usize,
            None,
            cfg,
            Seq::empty(),
        )
}

/// `out` is the container of limbs: its front, the validity section and the
/// sections of the limb streams.
#[verifier::opaque]
pub open spec fn container_written(
    out: Seq<u8>,
    dtype: DType,
    c: ContainerView,
    bitmap: Option<&[u8]>,
    cfg: Config,
) -> bool {
    exists|subs: Seq<Seq<u8>>| #[trigger]
        limb_streams(subs, c.limbs, cfg) && out == container_front(
            dtype,
            c.n_values,
            bitmap is Some,
            c.scale,
            c.precision,
            c.limbs.len(),
            c.min,
        ) + encoder::validity_image(bitmap, c.n_values) + sections(subs)
}

/// Append the stream of one limb.
fn write_limb(limb: &Vec<u64>, cfg: &Config, out: &mut Vec<u8>, wins: &mut ModeWins) -> (stream:
    Ghost<Seq<u8>>)
    ensures
        ({
            let piece = varint::varint_bytes(stream@.len()) + stream@;
            &&& final(out)@ == old(out)@ + piece
            &&& limb_encodes(piece, limb@)
            &&& limb_section(piece)
            &&& final(wins).counts@ == diag::with_wins(old(wins).counts@, limb_modes(piece, 1))
        }),
        encoder::won_stream(
            stream@,
            DType::U64,
            limb@,
            limb@.len() as usize,
            None,
            *cfg,
            Seq::empty(),
        ),
{
    let ghost start = out@;
    let none: [Vec<FloatOffer>; 0] = [];
    let sub = compress_lane(
        limb,
        DType::U64,
        limb.len(),
        None,
        cfg,
        vstd::array::array_as_slice(&none),
        wins,
    );
    varint::write_u64(out, sub.len() as u64);
    append_bytes(out, &sub);
    let ghost piece = varint::varint_bytes(sub@.len()) + sub@;
    proof {
        assert(out@ =~= start + piece);
        assert(sub@.len() == sub.len());
        assert(decoder::lane_decoded(sub@, Seq::empty()) == Ok::<_, Error>(
            (DType::U64, limb@, None::<Seq<bool>>),
        ));
        lemma_limb_of(sub@, limb@);
        lemma_section_of(sub@);
        assert(none@ =~= Seq::<Vec<FloatOffer>>::empty());
    }
    Ghost(sub@)
}

/// Pieces that each decode to a limb give the limbs back.
proof fn lemma_limb_pieces(pieces: Seq<Seq<u8>>, limbs: Seq<Seq<u64>>, n: nat, k: nat)
    requires
        pieces.len() == limbs.len(),
        k <= pieces.len(),
        forall|i: int|
            0 <= i < pieces.len() ==> limb_encodes(#[trigger] pieces[i], limbs[i]) && limbs[i].len()
                == n,
    ensures
        limbs_parse(
            pieces.skip(k as int).flatten(),
            (pieces.len() - k) as nat,
            n,
            Seq::empty(),
        ) == Ok::<
            _,
            Error,
        >(limbs.skip(k as int)),
    decreases pieces.len() - k,
{
    let s = pieces.skip(k as int);
    if k < pieces.len() {
        lemma_limb_pieces(pieces, limbs, n, k + 1);
        let rest = pieces.skip(k as int + 1).flatten();
        assert(s.drop_first() =~= pieces.skip(k as int + 1));
        assert(s.flatten() == pieces[k as int] + rest);
        assert(limb_encodes(pieces[k as int], limbs[k as int]));
        lemma_limb_at(pieces[k as int], limbs[k as int], rest, (pieces.len() - k) as nat);
        assert(seq![limbs[k as int]] + limbs.skip(k as int + 1) =~= limbs.skip(k as int));
    } else {
        assert(limbs.skip(k as int) =~= Seq::empty());
    }
}

/// The fixed front of a container.
pub open spec fn container_front(
    dtype: DType,
    n: nat,
    has_validity: bool,
    scale: i8,
    precision: u8,
    k: nat,
    min: Seq<u8>,
) -> Seq<u8> {
    crate::format::magic() + seq![
        VERSION,
        if has_validity {
            3u8
        } else {
            2u8
        },
        0u8,
        dtype.wire_id(),
    ] + bytes::le_bytes(n, 8) + seq![unsigned8(scale), precision, k as u8] + min
}

/// Write the fixed front of a container.
fn write_front(
    dtype: DType,
    n: usize,
    has_validity: bool,
    scale: i8,
    precision: u8,
    k: usize,
    min: &[u8],
) -> (out: Vec<u8>)
    requires
        k <= 4,
    ensures
        out@ == container_front(dtype, n as nat, has_validity, scale, precision, k as nat, min@),
{
    let mut out: Vec<u8> = Vec::new();
    write_magic(&mut out);
    out.push(VERSION);
    out.push(
        if has_validity {
            3
        } else {
            2
        },
    );
    out.push(0);
    out.push(dtype.wire_id());
    write_le(&mut out, n as u64, 8);
    out.push(scale_to_byte(scale));
    out.push(precision);
    out.push(k as u8);
    append_bytes(&mut out, min);
    assert(out@ =~= container_front(
        dtype,
        n as nat,
        has_validity,
        scale,
        precision,
        k as nat,
        min@,
    ));
    out
}

/// The fields of a container's front.
proof fn lemma_front(
    src: Seq<u8>,
    dtype: DType,
    n: nat,
    has_validity: bool,
    scale: i8,
    precision: u8,
    k: nat,
    min: Seq<u8>,
    body: Seq<u8>,
)
    requires
        k <= 4,
        min.len() == 8 * k,
        n <= usize::MAX,
        src == container_front(dtype, n, has_validity, scale, precision, k, min) + body,
    ensures
        src.len() >= 19 + 8 * k,
        src.take(4) == crate::format::magic(),
        src[4] == VERSION,
        src[5] == (if has_validity {
            3u8
        } else {
            2u8
        }),
        src[7] == dtype.wire_id(),
        bytes::le_value(src.subrange(8, 16)) == n,
        src[16] == unsigned8(scale),
        signed8(src[16]) == scale,
        src[17] == precision,
        src[18] == k,
        src.subrange(19, 19 + 8 * k as int) == min,
        src.skip(19 + 8 * k as int) == body,
{
    let end = 19 + 8 * k as int;
    bytes::lemma_le_bytes_len(n, 8);
    bytes::lemma_pow256_values();
    bytes::lemma_le_roundtrip(n, 8);
    assert(src.take(4) =~= crate::format::magic());
    assert(src.subrange(8, 16) =~= bytes::le_bytes(n, 8));
    assert(src.subrange(19, end) =~= min);
    assert(src.skip(end) =~= body);
}

/// A container is read back from its front, its validity section and its limbs.
proof fn lemma_container(
    src: Seq<u8>,
    dtype: DType,
    n: nat,
    scale: i8,
    precision: u8,
    min: Seq<u8>,
    bits: Option<Seq<bool>>,
    limbs: Seq<Seq<u64>>,
    body: Seq<u8>,
    rest: Seq<u8>,
)
    requires
        1 <= limbs.len() <= 4,
        min.len() == 8 * limbs.len(),
        n <= usize::MAX,
        src == container_front(
            dtype,
            n,
            bits is Some,
            scale,
            precision,
            limbs.len(),
            min,
        ) + body,
        decoder::validity_parse(body, bits is Some, n) == Ok::<_, Error>((bits, rest)),
        limbs_parse(rest, limbs.len(), valid_count(bits, n), Seq::empty()) == Ok::<_, Error>(
            limbs,
        ),
    ensures
        container_parse(src, dtype, Seq::empty()) == Ok::<_, Error>(
            ContainerView { scale, precision, n_values: n, min, limbs, bits },
        ),
        src.len() > 7,
        (src[5] / FLAG_DECIMAL) % 2 == 1,
        src[7] == dtype.wire_id(),
        container_modes(src) == limb_modes(rest, limbs.len()),
{
    reveal(container_parse);
    lemma_front(src, dtype, n, bits is Some, scale, precision, limbs.len(), min, body);
    dtype::lemma_wire_roundtrip(dtype);
}

/// A front, a validity section and sections of limb streams make a container.
proof fn lemma_written(
    out: Seq<u8>,
    dtype: DType,
    c: ContainerView,
    bitmap: Option<&[u8]>,
    cfg: Config,
    rest: Seq<u8>,
)
    requires
        out == container_front(
            dtype,
            c.n_values,
            bitmap is Some,
            c.scale,
            c.precision,
            c.limbs.len(),
            c.min,
        ) + encoder::validity_image(bitmap, c.n_values) + rest,
        exists|subs: Seq<Seq<u8>>| #[trigger]
            limb_streams(subs, c.limbs, cfg) && rest == sections(subs),
    ensures
        container_written(out, dtype, c, bitmap, cfg),
{
    reveal(container_written);
}

/// Write a container; `bitmap` marks the valid values when some are null.
fn assemble(
    dtype: DType,
    n: usize,
    scale: i8,
    precision: u8,
    min: &[u8],
    bitmap: Option<&[u8]>,
    limbs: &[Vec<u64>],
    cfg: &Config,
    wins: &mut ModeWins,
) -> (out: Vec<u8>)
    requires
        1 <= limbs.len() <= 4,
        min.len() == 8 * limbs.len(),
        encoder::bitmap_covers(bitmap, n as nat),
        forall|i: int|
            0 <= i < limbs.len() ==> (#[trigger] limbs@[i])@.len() == valid_count(
                encoder::bits_of(bitmap, n as nat),
                n as nat,
            ),
    ensures
        container_parse(out@, dtype, Seq::empty()) == Ok::<_, Error>(
            ContainerView {
                scale,
                precision,
                n_values: n as nat,
                min: min@,
                limbs: limbs_view(limbs@),
                bits: encoder::bits_of(bitmap, n as nat),
            },
        ),
        container_written(
            out@,
            dtype,
            (ContainerView {
                scale,
                precision,
                n_values: n as nat,
                min: min@,
                limbs: limbs_view(limbs@),
                bits: encoder::bits_of(bitmap, n as nat),
            }),
            bitmap,
            *cfg,
        ),
        out@.len() > 5 && (out@[5] / FLAG_DECIMAL) % 2 == 1,
        out@.len() > 7 && out@[7] == dtype.wire_id(),
        final(wins).counts@ == diag::with_wins(old(wins).counts@, container_modes(out@)),
{
    let ghost bits = encoder::bits_of(bitmap, n as nat);
    let ghost count = valid_count(bits, n as nat);
    let mut out = write_front(dtype, n, bitmap.is_some(), scale, precision, limbs.len(), min);
    let ghost front = out@;
    let ghost mut section: Seq<u8> = Seq::empty();
    if let Some(bm) = bitmap {
        let Ghost(written) = write_validity(bm, n, &mut out);
        proof {
            section = written;
        }
    }
    let Ghost(rest) = write_limbs(limbs, cfg, &mut out, wins, Ghost(count));
    proof {
        let body = section + rest;
        assert(out@ =~= front + body);
        assert(section == encoder::validity_image(bitmap, n as nat));
        assert(out@ =~= front + section + rest);
        lemma_written(
            out@,
            dtype,
            ContainerView {
                scale,
                precision,
                n_values: n as nat,
                min: min@,
                limbs: limbs_view(limbs@),
                bits,
            },
            bitmap,
            *cfg,
            rest,
        );
        if bitmap is None {
            assert(body =~= rest);
        }
        lemma_container(
            out@,
            dtype,
            n as nat,
            scale,
            precision,
            min@,
            bits,
            limbs_view(limbs@),
            body,
            rest,
        );
    }
    out
}

/// One more limb stream.
proof fn lemma_limb_streams(
    subs: Seq<Seq<u8>>,
    sub: Seq<u8>,
    limbs: Seq<Seq<u64>>,
    i: int,
    cfg: Config,
)
    requires
        0 <= i < limbs.len(),
        limb_streams(subs, limbs.take(i), cfg),
        encoder::won_stream(
            sub,
            DType::U64,
            limbs[i],
            limbs[i].len() as usize,
            None,
            cfg,
            Seq::empty(),
        ),
    ensures
        limb_streams(subs.push(sub), limbs.take(i + 1), cfg),
        sections(subs.push(sub)) == sections(subs) + (varint::varint_bytes(sub.len()) + sub),
{
    let more = subs.push(sub);
    assert forall|k: int| 0 <= k < more.len() implies encoder::won_stream(
        #[trigger] more[k],
        DType::U64,
        limbs.take(i + 1)[k],
        limbs.take(i + 1)[k].len() as usize,
        None,
        cfg,
        Seq::empty(),
    ) by {
        if k < i {
            assert(limbs.take(i)[k] == limbs[k]);
            assert(more[k] == subs[k]);
        }
    }
    assert(more.drop_last() =~= subs);
    assert(sections(more) =~= sections(subs) + (varint::varint_bytes(sub.len()) + sub));
}

/// Append the streams of the limbs.
fn write_limbs(
    limbs: &[Vec<u64>],
    cfg: &Config,
    out: &mut Vec<u8>,
    wins: &mut ModeWins,
    Ghost(count): Ghost<nat>,
) -> (body: Ghost<Seq<u8>>)
    requires
        forall|i: int| 0 <= i < limbs.len() ==> (#[trigger] limbs@[i])@.len() == count,
    ensures
        final(out)@ == old(out)@ + body@,
        exists|subs: Seq<Seq<u8>>| #[trigger]
            limb_streams(subs, limbs_view(limbs@), *cfg) && body@ == sections(subs),
        limbs_parse(body@, limbs@.len(), count, Seq::empty()) == Ok::<_, Error>(limbs_view(limbs@)),
        final(wins).counts@ == diag::with_wins(
            old(wins).counts@,
            limb_modes(body@, limbs@.len()),
        ),
{
    let ghost start = out@;
    let ghost mut pieces: Seq<Seq<u8>> = Seq::empty();
    let ghost mut subs: Seq<Seq<u8>> = Seq::empty();
    let mut i: usize = 0;
    assert(start + pieces.flatten() =~= start);
    while i < limbs.len()
        invariant
            i <= limbs.len(),
            pieces.len() == i,
            limb_streams(subs, limbs_view(limbs@).take(i as int), *cfg),
            pieces.flatten() == sections(subs),
            forall|k: int| 0 <= k < limbs.len() ==> (#[trigger] limbs@[k])@.len() == count,
            forall|k: int| 0 <= k < i ==> limb_encodes(#[trigger] pieces[k], limbs@[k]@),
            forall|k: int| 0 <= k < i ==> limb_section(#[trigger] pieces[k]),
            out@ == start + pieces.flatten(),
            wins.counts@ == diag::with_wins(
                old(wins).counts@,
                limb_modes(pieces.flatten(), i as nat),
            ),
        decreases limbs.len() - i,
    {
        let ghost before = pieces;
        let Ghost(sub) = write_limb(&limbs[i], cfg, out, wins);
        let ghost piece = varint::varint_bytes(sub.len()) + sub;
        proof {
            pieces = before.push(piece);
            before.lemma_flatten_push(piece);
            lemma_limb_streams(subs, sub, limbs_view(limbs@), i as int, *cfg);
            subs = subs.push(sub);
            assert(pieces.flatten() =~= sections(subs));
            assert(out@ =~= start + pieces.flatten());
            lemma_limb_modes(before, piece, 1);
            diag::lemma_with_wins_concat(
                old(wins).counts@,
                limb_modes(before.flatten(), i as nat),
                limb_modes(piece, 1),
            );
            assert forall|k: int| 0 <= k < i + 1 implies limb_section(#[trigger] pieces[k]) by {
                if k < i {
                    assert(limb_section(before[k]));
                }
            }
            assert forall|k: int| 0 <= k < i + 1 implies limb_encodes(
                #[trigger] pieces[k],
                limbs@[k]@,
            ) by {
                if k < i {
                    assert(limb_encodes(before[k], limbs@[k]@));
                }
            }
        }
        i = i + 1;
    }
    proof {
        let views = limbs_view(limbs@);
        assert forall|k: int| 0 <= k < pieces.len() implies limb_encodes(
            #[trigger] pieces[k],
            views[k],
        ) && views[k].len() == count by {
            assert(limbs@[k]@.len() == count);
        }
        assert(views.take(limbs.len() as int) =~= views);
        lemma_limb_pieces(pieces, views, count, 0);
        assert(pieces.skip(0) =~= pieces);
        assert(views.skip(0) =~= views);
    }
    Ghost(pieces.flatten())
}

/// A container as read.
pub struct Container {
    pub scale: i8,
    pub precision: u8,
    pub n_values: usize,
    pub min: Vec<u8>,
    pub limbs: Vec<Vec<u64>>,
    pub validity: Option<Vec<u8>>,
}

impl Container {
    /// Says what `v` says, and is shaped as a container is.
    pub open spec fn says(&self, v: ContainerView) -> bool {
        &&& self.scale == v.scale
        &&& self.precision == v.precision
        &&& self.n_values == v.n_values
        &&& self.min@ == v.min
        &&& limbs_view(self.limbs@) == v.limbs
        &&& decoder::bitmap_says(self.validity, v.bits, v.n_values)
        &&& 1 <= self.limbs.len() <= 4
        &&& self.min.len() == 8 * self.limbs.len()
        &&& forall|i: int|
            0 <= i < self.limbs.len() ==> (#[trigger] self.limbs@[i])@.len() == valid_count(
                v.bits,
                v.n_values,
            )
    }
}

/// Read `k` limbs of `n` values at `pos`.
fn read_limbs(src: &[u8], pos: usize, k: usize, n: usize, floats: &[Vec<u64>]) -> (r: Result<
    Vec<Vec<u64>>,
    Error,
>)
    requires
        pos <= src.len(),
    ensures
        match limbs_parse(
            src@.skip(pos as int),
            k as nat,
            n as nat,
            decoder::words_view(floats@),
        ) {
            Err(e) => r == Err::<Vec<Vec<u64>>, Error>(e),
            Ok(limbs) => r is Ok && limbs_view(r->Ok_0@) == limbs,
        },
        r matches Ok(limbs) ==> limbs.len() == k && forall|i: int|
            0 <= i < limbs.len() ==> (#[trigger] limbs@[i])@.len() == n,
{
    let ghost given = decoder::words_view(floats@);
    let ghost whole = limbs_parse(src@.skip(pos as int), k as nat, n as nat, given);
    let mut limbs: Vec<Vec<u64>> = Vec::new();
    let mut at: usize = pos;
    let mut used: usize = 0;
    let mut i: usize = 0;
    proof {
        assert(given.skip(0) =~= given);
        if let Ok(t) = whole {
            assert(limbs_view(limbs@) + t =~= t);
        }
    }
    while i < k
        invariant
            i <= k,
            at <= src.len(),
            used <= floats.len(),
            limbs.len() == i,
            given == decoder::words_view(floats@),
            whole == limbs_parse(src@.skip(pos as int), k as nat, n as nat, given),
            whole == (match limbs_parse(
                src@.skip(at as int),
                (k - i) as nat,
                n as nat,
                given.skip(used as int),
            ) {
                Err(e) => Err::<Seq<Seq<u64>>, Error>(e),
                Ok(t) => Ok::<_, Error>(limbs_view(limbs@) + t),
            }),
            forall|j: int| 0 <= j < limbs.len() ==> (#[trigger] limbs@[j])@.len() == n,
        decreases k - i,
    {
        let ghost avail = given.skip(used as int);
        let (start, end) = match take_section(
            src,
            &mut at,
            Error::CorruptPayload("decimal sub-stream length"),
        ) {
            Err(e) => return Err(e),
            Ok(range) => range,
        };
        let sub = vstd::slice::slice_subrange(src, start, end);
        let rest = vstd::slice::slice_subrange(floats, used, floats.len());
        assert(decoder::words_view(rest@) =~= avail);
        let d = match decompress_lane(sub, rest) {
            Err(e) => return Err(e),
            Ok(d) => d,
        };
        if d.words.len() != n {
            return Err(Error::CorruptPayload("decimal limb length"));
        }
        let count: usize = count_float_frames(sub);
        used = if count <= floats.len() - used {
            used + count
        } else {
            floats.len()
        };
        let ghost before = limbs@;
        let ghost words = d.words@;
        limbs.push(d.words);
        proof {
            assert(decoder::after_stream(sub@, avail) =~= given.skip(used as int));
            if let Ok(t) = limbs_parse(
                src@.skip(at as int),
                (k - i - 1) as nat,
                n as nat,
                given.skip(used as int),
            ) {
                assert(limbs_view(before) + (seq![words] + t) =~= limbs_view(limbs@) + t);
            }
        }
        i = i + 1;
    }
    assert(limbs_view(limbs@) + Seq::<Seq<u64>>::empty() =~= limbs_view(limbs@));
    Ok(limbs)
}

/// Read a container of type `expect`.
pub fn parse_shell(src: &[u8], expect: DType, floats: &[Vec<u64>]) -> (r: Result<Container, Error>)
    ensures
        match container_parse(src@, expect, decoder::words_view(floats@)) {
            Err(e) => r == Err::<Container, Error>(e),
            Ok(v) => r is Ok && r->Ok_0.says(v),
        },
{
    reveal(container_parse);
    if src.len() < META_OFF + 3 {
        return Err(Error::Truncated);
    }
    if !has_magic(src) {
        return Err(Error::BadMagic);
    }
    if src[4] != VERSION && src[4] != LEGACY_VERSION {
        return Err(Error::UnsupportedVersion(src[4]));
    }
    if (src[5] / FLAG_DECIMAL) % 2 == 0 {
        return Err(Error::CorruptPayload("not a decimal container"));
    }
    let has_validity: bool = src[5] % 2 == 1;
    match DType::from_wire(src[7]) {
        Err(e) => return Err(e),
        Ok(found) => {
            if found != expect {
                return Err(Error::DTypeMismatch);
            }
        },
    }
    read_body(src, has_validity, floats)
}

/// Read what follows the type check of a container.
fn read_body(src: &[u8], has_validity: bool, floats: &[Vec<u64>]) -> (r: Result<Container, Error>)
    requires
        src.len() >= META_OFF + 3,
        has_validity == (src@[5] % 2 == 1),
    ensures
        match container_body(src@, decoder::words_view(floats@)) {
            Err(e) => r == Err::<Container, Error>(e),
            Ok(v) => r is Ok && r->Ok_0.says(v),
        },
{
    let declared: u64 = read_le(src, 8, 8);
    if declared > usize::MAX as u64 {
        return Err(Error::Truncated);
    }
    let n: usize = declared as usize;
    let k: usize = src[18] as usize;
    if k == 0 || k > 4 {
        return Err(Error::CorruptPayload("decimal limb count"));
    }
    let end: usize = 19 + 8 * k;
    if src.len() < end {
        return Err(Error::Truncated);
    }
    let mut pos: usize = end;
    let mut bitmap: Option<Vec<u8>> = None;
    let mut count: usize = n;
    if has_validity {
        let bm: Vec<u8> = match read_validity(src, &mut pos, n) {
            Err(e) => return Err(e),
            Ok(bm) => bm,
        };
        count = count_valid(&bm, n);
        bitmap = Some(bm);
    }
    let limbs: Vec<Vec<u64>> = match read_limbs(src, pos, k, count, floats) {
        Err(e) => return Err(e),
        Ok(l) => l,
    };
    let mut min: Vec<u8> = Vec::new();
    append_bytes(&mut min, vstd::slice::slice_subrange(src, 19, end));
    assert(min@ =~= src@.subrange(19, end as int));
    Ok(
        Container {
            scale: byte_to_scale(src[16]),
            precision: src[17],
            n_values: n,
            min,
            limbs,
            validity: bitmap,
        },
    )
}

/// Where the limb streams of a container lie, up to one that cannot be found. Their
/// float frames are what [`decompress128`] and [`decompress256`] need the words of.
pub fn limb_sections(src: &[u8]) -> (ranges: Vec<(usize, usize)>)
    ensures
        cuts(src@, ranges@) == container_blobs(src@),
        forall|i: int|
            0 <= i < ranges.len() ==> (#[trigger] ranges@[i]).0 <= ranges@[i].1 <= src.len(),
{
    let mut ranges: Vec<(usize, usize)> = Vec::new();
    assert(cuts(src@, ranges@) =~= Seq::empty());
    if src.len() < META_OFF + 3 {
        return ranges;
    }
    let declared: u64 = read_le(src, 8, 8);
    let k: usize = src[18] as usize;
    let end: usize = 19 + 8 * k;
    if declared > usize::MAX as u64 || k > 4 || src.len() < end {
        return ranges;
    }
    let mut at: usize = end;
    if src[5] % 2 == 1 {
        match read_validity(src, &mut at, declared as usize) {
            Err(_) => return ranges,
            Ok(_) => {},
        }
    }
    let ghost whole = limb_blobs(src@.skip(at as int), k as nat);
    let mut i: usize = 0;
    assert(cuts(src@, ranges@) + whole =~= whole);
    while i < k
        invariant
            i <= k,
            at <= src.len(),
            whole == cuts(src@, ranges@) + limb_blobs(src@.skip(at as int), (k - i) as nat),
            whole == container_blobs(src@),
            forall|j: int|
                0 <= j < ranges.len() ==> (#[trigger] ranges@[j]).0 <= ranges@[j].1 <= src.len(),
        decreases k - i,
    {
        let ghost before = ranges@;
        match take_section(src, &mut at, Error::CorruptPayload("decimal sub-stream length")) {
            Err(_) => {
                assert(cuts(src@, ranges@) + Seq::<Seq<u8>>::empty() =~= cuts(src@, ranges@));
                return ranges;
            },
            Ok(range) => {
                ranges.push(range);
                proof {
                    let rest = limb_blobs(src@.skip(at as int), (k - i - 1) as nat);
                    let blob = src@.subrange(range.0 as int, range.1 as int);
                    assert(cuts(src@, before) + (seq![blob] + rest) =~= cuts(src@, ranges@) + rest);
                }
            },
        }
        i = i + 1;
    }
    assert(cuts(src@, ranges@) + Seq::<Seq<u8>>::empty() =~= cuts(src@, ranges@));
    ranges
}

/// Whether `src` is a decimal container.
pub fn is_decimal_stream(src: &[u8]) -> (r: bool)
    ensures
        r == is_container(src@),
{
    src.len() > 5 && (src[5] / FLAG_DECIMAL) % 2 == 1
}

/// `src` carries the decimal flag.
pub open spec fn is_container(src: Seq<u8>) -> bool {
    src.len() > 5 && (src[5] / FLAG_DECIMAL) % 2 == 1
}

/// A column with `null` where it is null.
pub open spec fn nulled<T>(vals: Seq<T>, bits: Option<Seq<bool>>, null: T) -> Seq<T> {
    match bits {
        None => vals,
        Some(b) => validity::masked(vals, b, null),
    }
}

/// The valid values of a column.
pub open spec fn valid_of<T>(vals: Seq<T>, bits: Option<Seq<bool>>) -> Seq<T> {
    match bits {
        None => vals,
        Some(b) => validity::compacted(vals, b),
    }
}

/// Valid values back at their positions.
pub open spec fn placed<T>(valid: Seq<T>, bits: Option<Seq<bool>>, null: T) -> Seq<T> {
    match bits {
        None => valid,
        Some(b) => validity::scattered(valid, b, null),
    }
}

/// Taking the valid values out and placing them back clears the null ones.
pub proof fn lemma_placed<T>(vals: Seq<T>, bits: Option<Seq<bool>>, null: T)
    requires
        bits matches Some(b) ==> b.len() == vals.len(),
    ensures
        placed(valid_of(vals, bits), bits, null) == nulled(vals, bits, null),
        valid_of(vals, bits).len() == valid_count(bits, vals.len()),
{
    if let Some(b) = bits {
        validity::lemma_scatter_compact(vals, b, null);
    }
}

/// The valid values of a column.
fn gather<T: Copy>(values: &[T], bitmap: Option<&[u8]>) -> (out: Vec<T>)
    requires
        encoder::bitmap_covers(bitmap, values@.len()),
    ensures
        out@ == valid_of(values@, encoder::bits_of(bitmap, values@.len())),
{
    let mut out: Vec<T> = Vec::new();
    let mut i: usize = 0;
    match bitmap {
        None => {
            while i < values.len()
                invariant
                    i <= values.len(),
                    out@ == values@.take(i as int),
                decreases values.len() - i,
            {
                out.push(values[i]);
                i = i + 1;
            }
            assert(out@ =~= values@);
        },
        Some(bm) => {
            let ghost bits = validity::bitmap_bits(bm@, values@.len());
            assert(validity::compacted(values@.take(0), bits) =~= Seq::empty());
            while i < values.len()
                invariant
                    i <= values.len(),
                    bm.len() >= validity::bitmap_len(values@.len()),
                    bits == validity::bitmap_bits(bm@, values@.len()),
                    out@ == validity::compacted(values@.take(i as int), bits),
                decreases values.len() - i,
            {
                assert(values@.take(i + 1).drop_last() =~= values@.take(i as int));
                if is_set(bm, i) {
                    out.push(values[i]);
                }
                i = i + 1;
            }
            assert(values@.take(values.len() as int) =~= values@);
        },
    }
    out
}

/// Place valid values at their positions, `null` at the others.
fn place<T: Copy>(valid: &Vec<T>, bitmap: &[u8], n: usize, null: T) -> (out: Vec<T>)
    requires
        bitmap.len() >= validity::bitmap_len(n as nat),
        valid@.len() == validity::set_count(validity::bitmap_bits(bitmap@, n as nat)),
    ensures
        out@ == validity::scattered(valid@, validity::bitmap_bits(bitmap@, n as nat), null),
{
    let mut out: Vec<T> = Vec::new();
    let mut j: usize = 0;
    let mut i: usize = 0;
    let ghost bits = validity::bitmap_bits(bitmap@, n as nat);
    assert(bits.take(0) =~= Seq::empty());
    while i < n
        invariant
            i <= n,
            bitmap.len() >= validity::bitmap_len(n as nat),
            bits == validity::bitmap_bits(bitmap@, n as nat),
            valid@.len() == validity::set_count(bits),
            j == validity::set_count(bits.take(i as int)),
            j <= valid.len(),
            out@ == validity::scattered(valid@.take(j as int), bits.take(i as int), null),
        decreases n - i,
    {
        proof {
            assert(bits.take(i + 1).drop_last() =~= bits.take(i as int));
            assert(bits.take(i + 1).last() == bits[i as int]);
            validity::lemma_set_count_mono(bits, i + 1);
        }
        if is_set(bitmap, i) {
            out.push(valid[j]);
            assert(valid@.take(j + 1).drop_last() =~= valid@.take(j as int));
            j = j + 1;
        } else {
            out.push(null);
        }
        i = i + 1;
    }
    assert(bits.take(n as int) =~= bits);
    assert(valid@.take(valid.len() as int) =~= valid@);
    out
}

// ---------------------------------------------------------------------------
// 128-bit decimals
// ---------------------------------------------------------------------------

/// Two to the 128th.
pub open spec fn modulus128() -> int {
    0x1_0000_0000_0000_0000_0000_0000_0000_0000int
}

/// The two's-complement pattern of a 128-bit number.
pub open spec fn bits128(v: i128) -> int {
    if v >= 0 {
        v as int
    } else {
        v + modulus128()
    }
}

/// A 128-bit pattern read as two's complement.
pub open spec fn signed128(u: int) -> i128 {
    (if 2 * u < modulus128() {
        u
    } else {
        u - modulus128()
    }) as i128
}

/// The number that two limbs spell.
pub open spec fn value2(lo: u64, hi: u64) -> int {
    lo + limb_base() * hi
}

/// The decimal at an offset from the minimum.
pub open spec fn dec128(min: Seq<u8>, lo: u64, hi: u64) -> i128 {
    signed128((bytes::le_value(min) + value2(lo, hi)) % modulus128())
}

/// The limbs of a 128-bit pattern.
fn split128(u: u128) -> (r: (u64, u64))
    ensures
        value2(r.0, r.1) == u,
{
    ((u % 0x1_0000_0000_0000_0000) as u64, (u / 0x1_0000_0000_0000_0000) as u64)
}

/// The 128-bit pattern of limbs.
fn join128(lo: u64, hi: u64) -> (u: u128)
    ensures
        u == value2(lo, hi),
{
    lo as u128 + hi as u128 * 0x1_0000_0000_0000_0000
}

/// The two's-complement pattern of a number.
fn pattern128(v: i128) -> (u: u128)
    ensures
        u == bits128(v),
{
    if v >= 0 {
        v as u128
    } else {
        u128::MAX - ((-(v + 1)) as u128)
    }
}

/// The number of a two's-complement pattern.
fn number128(u: u128) -> (v: i128)
    ensures
        v == signed128(u as int),
{
    if u <= i128::MAX as u128 {
        u as i128
    } else {
        -((u128::MAX - u) as i128) - 1
    }
}

/// `a - b` modulo two to the 128th.
fn sub128(a: u128, b: u128) -> (r: u128)
    ensures
        r == (a - b) % modulus128(),
{
    if a >= b {
        a - b
    } else {
        u128::MAX - (b - a) + 1
    }
}

/// `a + b` modulo two to the 128th.
fn add128(a: u128, b: u128) -> (r: u128)
    ensures
        r == (a + b) % modulus128(),
{
    if a <= u128::MAX - b {
        a + b
    } else {
        b - (u128::MAX - a) - 1
    }
}

/// `m` is the least of `vals`, or zero when there is none.
pub open spec fn is_least128(vals: Seq<i128>, m: i128) -> bool {
    if vals.len() == 0 {
        m == 0
    } else {
        vals.contains(m) && forall|i: int| 0 <= i < vals.len() ==> m <= #[trigger] vals[i]
    }
}

fn least128(vals: &Vec<i128>) -> (m: i128)
    ensures
        is_least128(vals@, m),
{
    if vals.len() == 0 {
        return 0;
    }
    let mut m: i128 = vals[0];
    let mut i: usize = 1;
    while i < vals.len()
        invariant
            1 <= i <= vals.len(),
            vals@.contains(m),
            forall|k: int| 0 <= k < i ==> m <= #[trigger] vals@[k],
        decreases vals.len() - i,
    {
        if vals[i] < m {
            m = vals[i];
        }
        i = i + 1;
    }
    m
}

/// The values, scale, precision and validity of the 128-bit decimals in `src`, `floats`
/// being the words of the float frames of the limb streams, in order.
pub open spec fn decimal128_decoded(src: Seq<u8>, floats: Seq<Seq<u64>>) -> Result<
    (Seq<i128>, i8, u8, Option<Seq<bool>>),
    Error,
> {
    match container_parse(src, DType::Decimal128, floats) {
        Err(e) => Err(e),
        Ok(c) => if c.limbs.len() != N_LIMBS_128 {
            Err(Error::CorruptPayload("decimal128 limb count"))
        } else {
            let valid = Seq::new(
                c.limbs[0].len(),
                |i: int| dec128(c.min, c.limbs[0][i], c.limbs[1][i]),
            );
            Ok((placed(valid, c.bits, 0), c.scale, c.precision, c.bits))
        },
    }
}

/// What the container of a column of 128-bit decimals holds: the least of the valid
/// ones, and the offset of each from it, in limbs.
pub open spec fn holds128(
    c: ContainerView,
    values: Seq<i128>,
    scale: i8,
    precision: u8,
    bits: Option<Seq<bool>>,
) -> bool {
    let valid = valid_of(values, bits);
    &&& c.scale == scale
    &&& c.precision == precision
    &&& c.n_values == values.len()
    &&& c.bits == bits
    &&& c.min.len() == 16
    &&& c.limbs.len() == 2
    &&& c.limbs[0].len() == valid.len()
    &&& c.limbs[1].len() == valid.len()
    &&& exists|m: i128| #[trigger] is_least128(valid, m) && offsets128(c, valid, m)
}

/// The container counts from `m`.
pub open spec fn offsets128(c: ContainerView, valid: Seq<i128>, m: i128) -> bool {
    &&& bytes::le_value(c.min) == bits128(m)
    &&& forall|i: int|
        0 <= i < valid.len() ==> value2(#[trigger] c.limbs[0][i], c.limbs[1][i]) == (bits128(
            valid[i],
        ) - bits128(m)) % modulus128()
}

/// The offset of `v` from `min`, in limbs, leads back to `v`.
proof fn lemma_dec128(v: i128, min: i128, min_bytes: Seq<u8>, lo: u64, hi: u64)
    requires
        bytes::le_value(min_bytes) == bits128(min),
        value2(lo, hi) == (bits128(v) - bits128(min)) % modulus128(),
    ensures
        dec128(min_bytes, lo, hi) == v,
{
    lemma_add_undoes_sub(bits128(v), bits128(min), modulus128());
}

/// Compress 128-bit decimal significands.
pub fn compress128(
    values: &[i128],
    scale: i8,
    precision: u8,
    bitmap: Option<&[u8]>,
    cfg: &Config,
    wins: &mut ModeWins,
) -> (out: Vec<u8>)
    requires
        encoder::bitmap_covers(bitmap, values@.len()),
    ensures
        decimal128_decoded(out@, Seq::empty()) == Ok::<_, Error>(
            (
                nulled(values@, stored_bits(bitmap, values@.len()), 0),
                scale,
                precision,
                stored_bits(bitmap, values@.len()),
            ),
        ),
        is_container(out@),
        container_parse(out@, DType::Decimal128, Seq::empty()) matches Ok(c) && container_written(
            out@,
            DType::Decimal128,
            c,
            stored_bitmap(bitmap, values@.len()),
            *cfg,
        ),
        out@.len() > 7 && out@[7] == DType::Decimal128.wire_id(),
        final(wins).counts@ == diag::with_wins(old(wins).counts@, container_modes(out@)),
        container_parse(out@, DType::Decimal128, Seq::empty()) matches Ok(c) && holds128(
            c,
            values@,
            scale,
            precision,
            stored_bits(bitmap, values@.len()),
        ),
{
    let n = values.len();
    let stored = nulls_only(bitmap, n);
    let ghost bits = stored_bits(bitmap, n as nat);
    let valid = gather(values, stored);
    let min: i128 = least128(&valid);
    let base: u128 = pattern128(min);
    let (min_lo, min_hi) = split128(base);
    let mut min_bytes: Vec<u8> = Vec::new();
    write_le(&mut min_bytes, min_lo, 8);
    write_le(&mut min_bytes, min_hi, 8);
    proof {
        bytes::lemma_pow256_values();
        bytes::lemma_le_roundtrip(min_lo as nat, 8);
        bytes::lemma_le_roundtrip(min_hi as nat, 8);
        assert(min_bytes@ =~= bytes::le_bytes(min_lo as nat, 8) + bytes::le_bytes(
            min_hi as nat,
            8,
        ));
        lemma_le_concat(bytes::le_bytes(min_lo as nat, 8), bytes::le_bytes(min_hi as nat, 8));
        lemma_placed(values@, bits, 0i128);
    }
    let mut low: Vec<u64> = Vec::new();
    let mut high: Vec<u64> = Vec::new();
    let mut i: usize = 0;
    while i < valid.len()
        invariant
            i <= valid.len(),
            base == bits128(min),
            low.len() == i,
            high.len() == i,
            forall|k: int|
                0 <= k < i ==> value2(#[trigger] low@[k], high@[k]) == (bits128(valid@[k])
                    - bits128(min)) % modulus128(),
        decreases valid.len() - i,
    {
        let off: u128 = sub128(pattern128(valid[i]), base);
        let (lo, hi) = split128(off);
        low.push(lo);
        high.push(hi);
        i = i + 1;
    }
    let ghost (lo_words, hi_words) = (low@, high@);
    let mut limbs: Vec<Vec<u64>> = Vec::new();
    limbs.push(low);
    limbs.push(high);
    let out = assemble(
        DType::Decimal128,
        n,
        scale,
        precision,
        &min_bytes,
        stored,
        &limbs,
        cfg,
        wins,
    );
    proof {
        let c = container_parse(out@, DType::Decimal128, Seq::empty())->Ok_0;
        assert(c.limbs[0] == lo_words && c.limbs[1] == hi_words);
        let got = Seq::new(
            c.limbs[0].len(),
            |k: int| dec128(c.min, c.limbs[0][k], c.limbs[1][k]),
        );
        assert forall|k: int| 0 <= k < valid@.len() implies #[trigger] got[k] == valid@[k] by {
            assert(value2(lo_words[k], hi_words[k]) == (bits128(valid@[k]) - bits128(min))
                % modulus128());
            lemma_dec128(valid@[k], min, min_bytes@, lo_words[k], hi_words[k]);
        }
        assert(got =~= valid@);
        assert(is_least128(valid_of(values@, c.bits), min));
        assert(offsets128(c, valid_of(values@, c.bits), min));
    }
    out
}

/// A decoded column of 128-bit decimals.
pub struct Decoded128 {
    pub values: Vec<i128>,
    pub scale: i8,
    pub precision: u8,
    pub validity: Option<Vec<u8>>,
}

/// Decompress 128-bit decimal significands. `floats` holds the words of the float frames
/// of the limb streams, in order (see [`limb_sections`]); a written container has none.
pub fn decompress128(src: &[u8], floats: &[Vec<u64>]) -> (r: Result<Decoded128, Error>)
    ensures
        match decimal128_decoded(src@, decoder::words_view(floats@)) {
            Err(e) => r == Err::<Decoded128, Error>(e),
            Ok((values, scale, precision, bits)) => {
                &&& r matches Ok(d)
                &&& d.values@ == values
                &&& d.scale == scale
                &&& d.precision == precision
                &&& decoder::bitmap_says(d.validity, bits, values.len())
            },
        },
{
    let c: Container = match parse_shell(src, DType::Decimal128, floats) {
        Err(e) => return Err(e),
        Ok(c) => c,
    };
    if c.limbs.len() != N_LIMBS_128 {
        return Err(Error::CorruptPayload("decimal128 limb count"));
    }
    let ghost v = container_parse(src@, DType::Decimal128, decoder::words_view(floats@))->Ok_0;
    let base: u128 = join128(read_le(&c.min, 0, 8), read_le(&c.min, 8, 8));
    proof {
        bytes::lemma_pow256_values();
        let (a, b) = (c.min@.subrange(0, 8), c.min@.subrange(8, 16));
        lemma_le_concat(a, b);
        assert(c.min@ =~= a + b);
        assert(v.limbs[0] == c.limbs@[0]@ && v.limbs[1] == c.limbs@[1]@);
        assert(c.limbs@[0]@.len() == c.limbs@[1]@.len());
    }
    let count: usize = c.limbs[0].len();
    let mut valid: Vec<i128> = Vec::new();
    let mut i: usize = 0;
    while i < count
        invariant
            i <= count,
            c.limbs.len() == 2,
            c.limbs@[0]@.len() == count,
            c.limbs@[1]@.len() == count,
            base == bytes::le_value(c.min@),
            valid.len() == i,
            forall|k: int|
                0 <= k < i ==> #[trigger] valid@[k] == dec128(
                    c.min@,
                    c.limbs@[0]@[k],
                    c.limbs@[1]@[k],
                ),
        decreases count - i,
    {
        let off: u128 = join128(c.limbs[0][i], c.limbs[1][i]);
        valid.push(number128(add128(base, off)));
        i = i + 1;
    }
    proof {
        assert(valid@ =~= Seq::new(
            v.limbs[0].len(),
            |k: int| dec128(v.min, v.limbs[0][k], v.limbs[1][k]),
        ));
    }
    let values: Vec<i128> = match &c.validity {
        Some(bm) => {
            proof {
                validity::lemma_scattered_len(
                    valid@,
                    validity::bitmap_bits(bm@, c.n_values as nat),
                    0i128,
                );
            }
            place(&valid, bm, c.n_values, 0)
        },
        None => valid,
    };
    Ok(
        Decoded128 {
            values,
            scale: c.scale,
            precision: c.precision,
            validity: c.validity,
        },
    )
}

// ---------------------------------------------------------------------------
// 256-bit decimals
// ---------------------------------------------------------------------------

/// The bytes of each significand.
pub open spec fn images(values: Seq<[u8; 32]>) -> Seq<Seq<u8>> {
    Seq::new(values.len(), |i: int| values[i]@)
}

/// The significand zero.
pub open spec fn zero256() -> Seq<u8> {
    Seq::new(32, |i: int| 0u8)
}

/// The decimal at an offset from the minimum.
pub open spec fn dec256(min: Seq<u8>, offset: Seq<u64>) -> Seq<u8> {
    bytes::le_bytes(((bytes::le_value(min) + value4(offset)) % modulus256()) as nat, 32)
}

/// The limbs of value `i`.
pub open spec fn limbs_at(limbs: Seq<Seq<u64>>, i: int) -> Seq<u64> {
    Seq::new(limbs.len(), |k: int| limbs[k][i])
}

/// A significand as a signed number.
pub open spec fn number256(b: Seq<u8>) -> int {
    signed256(bytes::le_value(b) as int)
}

/// `m` is the least of `vals`, or zero when there is none.
pub open spec fn is_least256(vals: Seq<Seq<u8>>, m: Seq<u8>) -> bool {
    if vals.len() == 0 {
        m == zero256()
    } else {
        vals.contains(m) && forall|i: int|
            0 <= i < vals.len() ==> number256(m) <= number256(#[trigger] vals[i])
    }
}

/// The values, scale, precision and validity of the 256-bit decimals in `src`, `floats`
/// being the words of the float frames of the limb streams, in order.
pub open spec fn decimal256_decoded(src: Seq<u8>, floats: Seq<Seq<u64>>) -> Result<
    (Seq<Seq<u8>>, i8, u8, Option<Seq<bool>>),
    Error,
> {
    match container_parse(src, DType::Decimal256, floats) {
        Err(e) => Err(e),
        Ok(c) => if c.limbs.len() != N_LIMBS_256 {
            Err(Error::CorruptPayload("decimal256 limb count"))
        } else {
            let valid = Seq::new(
                c.limbs[0].len(),
                |i: int| dec256(c.min, limbs_at(c.limbs, i)),
            );
            Ok((placed(valid, c.bits, zero256()), c.scale, c.precision, c.bits))
        },
    }
}

proof fn lemma_images_of_valid(values: Seq<[u8; 32]>, bits: Option<Seq<bool>>)
    ensures
        images(valid_of(values, bits)) == valid_of(images(values), bits),
    decreases values.len(),
{
    if let Some(b) = bits {
        if values.len() > 0 {
            lemma_images_of_valid(values.drop_last(), bits);
            assert(images(values).drop_last() =~= images(values.drop_last()));
        }
        assert(images(valid_of(values, bits)) =~= valid_of(images(values), bits));
    }
}

proof fn lemma_images_of_scattered(valid: Seq<[u8; 32]>, bits: Seq<bool>, null: [u8; 32])
    requires
        valid.len() == validity::set_count(bits),
    ensures
        images(validity::scattered(valid, bits, null)) == validity::scattered(
            images(valid),
            bits,
            null@,
        ),
    decreases bits.len(),
{
    if bits.len() > 0 {
        if bits.last() {
            lemma_images_of_scattered(valid.drop_last(), bits.drop_last(), null);
            assert(images(valid).drop_last() =~= images(valid.drop_last()));
        } else {
            lemma_images_of_scattered(valid, bits.drop_last(), null);
        }
    }
    assert(images(validity::scattered(valid, bits, null)) =~= validity::scattered(
        images(valid),
        bits,
        null@,
    ));
}

proof fn lemma_modulus256()
    ensures
        bytes::pow256(32) == modulus256(),
{
    bytes::lemma_pow256_values();
    vstd::arithmetic::power2::lemma_pow2_adds(64, 64);
    vstd::arithmetic::power2::lemma_pow2_adds(128, 64);
    vstd::arithmetic::power2::lemma_pow2_adds(192, 64);
}

/// Thirty-two bytes are the image of their value.
pub proof fn lemma_image256(b: Seq<u8>)
    requires
        b.len() == 32,
    ensures
        0 <= bytes::le_value(b) < modulus256(),
        b == bytes::le_bytes(bytes::le_value(b), 32),
{
    lemma_modulus256();
    bytes::lemma_le_value_bound(b);
    bytes::lemma_le_value_roundtrip(b);
}

/// The offset of `v` from `min`, in limbs, leads back to `v`.
proof fn lemma_dec256(v: Seq<u8>, min: Seq<u8>, offset: Seq<u64>)
    requires
        v.len() == 32,
        value4(offset) == (bytes::le_value(v) - bytes::le_value(min)) % modulus256(),
    ensures
        dec256(min, offset) == v,
{
    lemma_image256(v);
    lemma_add_undoes_sub(
        bytes::le_value(v) as int,
        bytes::le_value(min) as int,
        modulus256(),
    );
}

fn least256(vals: &Vec<[u8; 32]>) -> (m: [u8; 32])
    ensures
        is_least256(images(vals@), m@),
{
    if vals.len() == 0 {
        let zero: [u8; 32] = [0u8; 32];
        assert(zero@ =~= zero256());
        return zero;
    }
    let mut best: usize = 0;
    let mut m: [u64; 4] = to_limbs(&vals[0]);
    let mut i: usize = 1;
    while i < vals.len()
        invariant
            1 <= i <= vals.len(),
            best < vals.len(),
            value4(m@) == bytes::le_value(vals@[best as int]@),
            forall|k: int|
                0 <= k < i ==> number256(vals@[best as int]@) <= number256(
                    #[trigger] images(vals@)[k],
                ),
        decreases vals.len() - i,
    {
        let l = to_limbs(&vals[i]);
        if lt_signed(&l, &m) {
            m = l;
            best = i;
        }
        i = i + 1;
    }
    assert(images(vals@)[best as int] == vals@[best as int]@);
    vals[best]
}

/// What the container of a column of 256-bit decimals holds: the least of the valid
/// ones, and the offset of each from it, in limbs.
pub open spec fn holds256(
    c: ContainerView,
    values: Seq<Seq<u8>>,
    scale: i8,
    precision: u8,
    bits: Option<Seq<bool>>,
) -> bool {
    let valid = valid_of(values, bits);
    &&& c.scale == scale
    &&& c.precision == precision
    &&& c.n_values == values.len()
    &&& c.bits == bits
    &&& c.min.len() == 32
    &&& is_least256(valid, c.min)
    &&& c.limbs.len() == 4
    &&& forall|k: int| 0 <= k < 4 ==> (#[trigger] c.limbs[k]).len() == valid.len()
    &&& forall|i: int|
        0 <= i < valid.len() ==> value4(#[trigger] limbs_at(c.limbs, i)) == (bytes::le_value(
            valid[i],
        ) - bytes::le_value(c.min)) % modulus256()
}

/// The value of a significand less the minimum, limb by limb.
spec fn offsets_match(valid: Seq<[u8; 32]>, min: Seq<u8>, limbs: Seq<Seq<u64>>) -> bool {
    &&& limbs.len() == 4
    &&& forall|k: int| 0 <= k < 4 ==> (#[trigger] limbs[k]).len() == valid.len()
    &&& forall|i: int|
        0 <= i < valid.len() ==> value4(#[trigger] limbs_at(limbs, i)) == (bytes::le_value(
            valid[i]@,
        ) - bytes::le_value(min)) % modulus256()
}

/// The offsets of `valid` from `min`, one vector to a limb.
fn offsets256(valid: &Vec<[u8; 32]>, min: &[u8; 32]) -> (limbs: Vec<Vec<u64>>)
    ensures
        offsets_match(valid@, min@, limbs_view(limbs@)),
{
    let base: [u64; 4] = to_limbs(min);
    let mut l0: Vec<u64> = Vec::new();
    let mut l1: Vec<u64> = Vec::new();
    let mut l2: Vec<u64> = Vec::new();
    let mut l3: Vec<u64> = Vec::new();
    let mut i: usize = 0;
    while i < valid.len()
        invariant
            i <= valid.len(),
            value4(base@) == bytes::le_value(min@),
            l0.len() == i,
            l1.len() == i,
            l2.len() == i,
            l3.len() == i,
            forall|k: int|
                0 <= k < i ==> value4(seq![#[trigger] l0@[k], l1@[k], l2@[k], l3@[k]]) == (
                bytes::le_value(valid@[k]@) - bytes::le_value(min@)) % modulus256(),
        decreases valid.len() - i,
    {
        let v: [u64; 4] = to_limbs(&valid[i]);
        let d: [u64; 4] = sub_limbs(&v, &base);
        let ghost (p0, p1, p2, p3) = (l0@, l1@, l2@, l3@);
        l0.push(d[0]);
        l1.push(d[1]);
        l2.push(d[2]);
        l3.push(d[3]);
        proof {
            assert forall|k: int| 0 <= k < i + 1 implies value4(
                seq![#[trigger] l0@[k], l1@[k], l2@[k], l3@[k]],
            ) == (bytes::le_value(valid@[k]@) - bytes::le_value(min@)) % modulus256() by {
                if k < i {
                    assert(l0@[k] == p0[k]);
                } else {
                    assert(value4(seq![l0@[k], l1@[k], l2@[k], l3@[k]]) == value4(d@));
                }
            }
        }
        i = i + 1;
    }
    let ghost (w0, w1, w2, w3) = (l0@, l1@, l2@, l3@);
    let mut limbs: Vec<Vec<u64>> = Vec::new();
    limbs.push(l0);
    limbs.push(l1);
    limbs.push(l2);
    limbs.push(l3);
    proof {
        let view = limbs_view(limbs@);
        assert(view =~= seq![w0, w1, w2, w3]);
        assert forall|k: int| 0 <= k < valid@.len() implies value4(#[trigger] limbs_at(view, k))
            == (bytes::le_value(valid@[k]@) - bytes::le_value(min@)) % modulus256() by {
            assert(limbs_at(view, k) =~= seq![w0[k], w1[k], w2[k], w3[k]]);
        }
    }
    limbs
}

/// Compress 256-bit decimal significands.
pub fn compress256(
    values: &[[u8; 32]],
    scale: i8,
    precision: u8,
    bitmap: Option<&[u8]>,
    cfg: &Config,
    wins: &mut ModeWins,
) -> (out: Vec<u8>)
    requires
        encoder::bitmap_covers(bitmap, values@.len()),
    ensures
        decimal256_decoded(out@, Seq::empty()) == Ok::<_, Error>(
            (
                nulled(images(values@), stored_bits(bitmap, values@.len()), zero256()),
                scale,
                precision,
                stored_bits(bitmap, values@.len()),
            ),
        ),
        is_container(out@),
        container_parse(out@, DType::Decimal256, Seq::empty()) matches Ok(c) && container_written(
            out@,
            DType::Decimal256,
            c,
            stored_bitmap(bitmap, values@.len()),
            *cfg,
        ),
        out@.len() > 7 && out@[7] == DType::Decimal256.wire_id(),
        final(wins).counts@ == diag::with_wins(old(wins).counts@, container_modes(out@)),
        container_parse(out@, DType::Decimal256, Seq::empty()) matches Ok(c) && holds256(
            c,
            images(values@),
            scale,
            precision,
            stored_bits(bitmap, values@.len()),
        ),
{
    let n = values.len();
    let stored = nulls_only(bitmap, n);
    let ghost bits = stored_bits(bitmap, n as nat);
    let valid = gather(values, stored);
    let min: [u8; 32] = least256(&valid);
    proof {
        lemma_images_of_valid(values@, bits);
        lemma_placed(images(values@), bits, zero256());
    }
    let limbs = offsets256(&valid, &min);
    let ghost words = limbs_view(limbs@);
    proof {
        assert forall|i: int| 0 <= i < limbs.len() implies (#[trigger] limbs@[i])@.len()
            == valid_count(bits, n as nat) by {
            assert(words[i].len() == valid@.len());
        }
    }
    let out = assemble(
        DType::Decimal256,
        n,
        scale,
        precision,
        vstd::array::array_as_slice(&min),
        stored,
        &limbs,
        cfg,
        wins,
    );
    proof {
        let c = container_parse(out@, DType::Decimal256, Seq::empty())->Ok_0;
        let got = Seq::new(c.limbs[0].len(), |k: int| dec256(c.min, limbs_at(c.limbs, k)));
        assert forall|k: int| 0 <= k < valid@.len() implies #[trigger] got[k] == images(valid@)[k] by {
            assert(value4(limbs_at(words, k)) == (bytes::le_value(valid@[k]@) - bytes::le_value(
                min@,
            )) % modulus256());
            lemma_dec256(valid@[k]@, min@, limbs_at(words, k));
        }
        assert(words[0].len() == valid@.len());
        assert(got =~= images(valid@));
        assert forall|k: int| 0 <= k < valid@.len() implies value4(#[trigger] limbs_at(c.limbs, k))
            == (bytes::le_value(images(valid@)[k]) - bytes::le_value(c.min)) % modulus256() by {
            assert(limbs_at(c.limbs, k) == limbs_at(words, k));
        }
    }
    out
}

/// A decoded column of 256-bit decimals.
pub struct Decoded256 {
    pub values: Vec<[u8; 32]>,
    pub scale: i8,
    pub precision: u8,
    pub validity: Option<Vec<u8>>,
}

/// The significands at the offsets in `limbs` from `min`.
fn significands(min: &[u8], limbs: &Vec<Vec<u64>>) -> (valid: Vec<[u8; 32]>)
    requires
        min.len() == 32,
        limbs.len() == 4,
        forall|k: int| 0 <= k < 4 ==> (#[trigger] limbs@[k])@.len() == limbs@[0]@.len(),
    ensures
        images(valid@) == Seq::new(
            limbs_view(limbs@)[0].len(),
            |i: int| dec256(min@, limbs_at(limbs_view(limbs@), i)),
        ),
{
    let mut image: [u8; 32] = [0u8; 32];
    let mut i: usize = 0;
    while i < 32
        invariant
            i <= 32,
            min.len() == 32,
            forall|k: int| 0 <= k < i ==> #[trigger] image@[k] == min@[k],
        decreases 32 - i,
    {
        image[i] = min[i];
        i = i + 1;
    }
    assert(image@ =~= min@);
    let base: [u64; 4] = to_limbs(&image);
    let ghost view = limbs_view(limbs@);
    let count: usize = limbs[0].len();
    let mut valid: Vec<[u8; 32]> = Vec::new();
    let mut j: usize = 0;
    while j < count
        invariant
            j <= count,
            limbs.len() == 4,
            count == limbs@[0]@.len(),
            forall|k: int| 0 <= k < 4 ==> (#[trigger] limbs@[k])@.len() == count,
            view == limbs_view(limbs@),
            value4(base@) == bytes::le_value(min@),
            valid.len() == j,
            forall|k: int|
                0 <= k < j ==> (#[trigger] valid@[k])@ == dec256(min@, limbs_at(view, k)),
        decreases count - j,
    {
        proof {
            assert(limbs@[1]@.len() == count);
            assert(limbs@[2]@.len() == count);
            assert(limbs@[3]@.len() == count);
        }
        let off: [u64; 4] = [limbs[0][j], limbs[1][j], limbs[2][j], limbs[3][j]];
        let sum: [u64; 4] = add_limbs(&base, &off);
        let b: [u8; 32] = from_limbs(&sum);
        proof {
            assert(off@ =~= limbs_at(view, j as int));
            lemma_image256(b@);
        }
        valid.push(b);
        j = j + 1;
    }
    assert(images(valid@) =~= Seq::new(view[0].len(), |i: int| dec256(min@, limbs_at(view, i))));
    valid
}

/// Decompress 256-bit decimal significands. `floats` holds the words of the float frames
/// of the limb streams, in order (see [`limb_sections`]); a written container has none.
pub fn decompress256(src: &[u8], floats: &[Vec<u64>]) -> (r: Result<Decoded256, Error>)
    ensures
        match decimal256_decoded(src@, decoder::words_view(floats@)) {
            Err(e) => r == Err::<Decoded256, Error>(e),
            Ok((values, scale, precision, bits)) => {
                &&& r matches Ok(d)
                &&& images(d.values@) == values
                &&& d.scale == scale
                &&& d.precision == precision
                &&& decoder::bitmap_says(d.validity, bits, values.len())
            },
        },
{
    let c: Container = match parse_shell(src, DType::Decimal256, floats) {
        Err(e) => return Err(e),
        Ok(c) => c,
    };
    if c.limbs.len() != N_LIMBS_256 {
        return Err(Error::CorruptPayload("decimal256 limb count"));
    }
    let valid = significands(&c.min, &c.limbs);
    let values: Vec<[u8; 32]> = match &c.validity {
        Some(bm) => {
            let zero: [u8; 32] = [0u8; 32];
            proof {
                let bits = validity::bitmap_bits(bm@, c.n_values as nat);
                assert(zero@ =~= zero256());
                assert(limbs_view(c.limbs@)[0] == c.limbs@[0]@);
                assert(images(valid@).len() == c.limbs@[0]@.len());
                lemma_images_of_scattered(valid@, bits, zero);
                validity::lemma_scattered_len(valid@, bits, zero);
            }
            place(&valid, bm, c.n_values, zero)
        },
        None => valid,
    };
    proof {
        assert(images(values@).len() == values@.len());
    }
    Ok(
        Decoded256 {
            values,
            scale: c.scale,
            precision: c.precision,
            validity: c.validity,
        },
    )
}

} // verus!
