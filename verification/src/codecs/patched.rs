//! Patched bit-packing of one sub-block: values are packed at the width that
//! makes the whole smallest, and the few that are wider are stored beside it.
//!
//! Layout: `width:u8 ++ patches:u16 ++ packed ++ (position:u16 ++ value:u64)*`.

use vstd::prelude::*;
use vstd::arithmetic::power2::*;
use crate::bitio;
use crate::bitpack;
use crate::bitpack::{pack_words, unpack_words, BLOCK};
use crate::bytes;
use crate::bytes::{read_le, tail, write_le};
use crate::codecs::for_bitpack::{bit_width, kernel};
use crate::error::Error;
use crate::lane;
use crate::lane::Lane;

verus! {

/// `base` with the `k` patches at the front of `s` applied, and what follows
/// them.
pub open spec fn patches_parse(s: Seq<u8>, k: nat, base: Seq<u64>) -> Result<
    (Seq<u64>, Seq<u8>),
    Error,
>
    decreases k,
{
    if k == 0 {
        Ok((base, s))
    } else if s.len() < 10 {
        Err(Error::Truncated)
    } else {
        let p = bytes::le_value(s.take(2));
        if p >= base.len() {
            Err(Error::CorruptPayload("for_bitpack patch position"))
        } else {
            patches_parse(
                s.skip(10),
                (k - 1) as nat,
                base.update(p as int, bytes::le_value(s.subrange(2, 10)) as u64),
            )
        }
    }
}

/// The first `count` values of a packed sub-block.
pub open spec fn packed_values(words: Seq<u64>, width: u32, count: nat) -> Seq<u64> {
    Seq::new(
        count,
        |i: int|
            bitpack::packed_value(words, kernel(width).bits() as nat, width as nat, i) as u64,
    )
}

/// The `count` values at the front of `s`, and what follows them.
#[verifier::opaque]
pub open spec fn residuals_parse(s: Seq<u8>, count: nat) -> Result<(Seq<u64>, Seq<u8>), Error> {
    if s.len() < 3 {
        Err(Error::Truncated)
    } else if s[0] > 64 {
        Err(Error::CorruptPayload("for_bitpack bad width"))
    } else {
        let width = s[0] as u32;
        let end = 3 + 128 * width;
        if s.len() < end {
            Err(Error::Truncated)
        } else {
            patches_parse(
                s.skip(end),
                bytes::le_value(s.subrange(1, 3)),
                packed_values(kernel(width).words_of(s.subrange(3, end)), width, count),
            )
        }
    }
}

/// How many of `vals` need more than `width` bits.
pub open spec fn over_count(vals: Seq<u64>, width: nat) -> nat
    decreases vals.len(),
{
    if vals.len() == 0 {
        0
    } else {
        over_count(vals.drop_last(), width) + (if vals.last() >= pow2(width) {
            1nat
        } else {
            0nat
        })
    }
}

/// The bytes taken by `vals` packed at `width`.
pub open spec fn packed_size(vals: Seq<u64>, width: nat) -> nat {
    3 + 128 * width + 10 * over_count(vals, width)
}

/// The least of the widths up to `w` that make the packed form smallest.
pub open spec fn best_width_of(vals: Seq<u64>, w: nat) -> nat
    decreases w,
{
    if w == 0 {
        0
    } else {
        let b = best_width_of(vals, (w - 1) as nat);
        if packed_size(vals, w) < packed_size(vals, b) {
            w
        } else {
            b
        }
    }
}

/// The positions below `n` of the values that need more than `width` bits.
pub open spec fn over_places(vals: Seq<u64>, width: nat, n: nat) -> Seq<u16>
    decreases n,
{
    if n == 0 {
        Seq::empty()
    } else {
        let before = over_places(vals, width, (n - 1) as nat);
        if vals[n - 1] >= pow2(width) {
            before.push((n - 1) as u16)
        } else {
            before
        }
    }
}

/// `vals` filled up with zeros to a whole block.
pub open spec fn filled_up(vals: Seq<u64>) -> Seq<u64> {
    Seq::new(
        BLOCK as nat,
        |i: int|
            if i < vals.len() {
                vals[i]
            } else {
                0
            },
    )
}

/// The packed form of a sub-block.
#[verifier::opaque]
pub open spec fn residuals_image(vals: Seq<u64>) -> Seq<u8> {
    let width = best_width_of(vals, 64);
    let over = over_places(vals, width, vals.len());
    let k = kernel(width as u32);
    seq![width as u8] + bytes::le_bytes(over.len(), 2) + k.words_bytes(
        bitpack::packed_words(filled_up(vals), k.bits() as nat, width),
    ) + patch_bytes(vals, over)
}

proof fn lemma_width_fits(x: u64, w: u32, width: u32)
    requires
        x < pow2(w as nat),
        w > 0 ==> x >= pow2((w - 1) as nat),
    ensures
        x < pow2(width as nat) <==> w <= width,
{
    if w <= width {
        bitio::lemma_pow2_mono(w as nat, width as nat);
    } else {
        bitio::lemma_pow2_mono(width as nat, (w - 1) as nat);
    }
}

/// Widths of the values.
fn widths_of(vals: &[u64]) -> (ws: Vec<u32>)
    ensures
        ws.len() == vals.len(),
        forall|i: int, width: u32|
            0 <= i < vals.len() ==> (#[trigger] ws@[i] <= width <==> vals@[i] < #[trigger] pow2(
                width as nat,
            )),
{
    let mut ws: Vec<u32> = Vec::new();
    let mut i: usize = 0;
    while i < vals.len()
        invariant
            i <= vals.len(),
            ws.len() == i,
            forall|k: int, width: u32|
                0 <= k < i ==> (#[trigger] ws@[k] <= width <==> vals@[k] < #[trigger] pow2(
                    width as nat,
                )),
        decreases vals.len() - i,
    {
        let w: u32 = bit_width(vals[i]);
        proof {
            assert forall|width: u32| w <= width <==> vals@[i as int] < #[trigger] pow2(
                width as nat,
            ) by {
                lemma_width_fits(vals@[i as int], w, width);
            }
        }
        ws.push(w);
        i = i + 1;
    }
    ws
}

/// How many values are wider than `width`.
fn count_over(vals: &[u64], ws: &Vec<u32>, width: u32) -> (n: usize)
    requires
        ws.len() == vals.len(),
        forall|i: int, w: u32|
            0 <= i < vals.len() ==> (#[trigger] ws@[i] <= w <==> vals@[i] < #[trigger] pow2(
                w as nat,
            )),
    ensures
        n == over_count(vals@, width as nat),
        n <= vals.len(),
{
    let mut n: usize = 0;
    let mut i: usize = 0;
    while i < vals.len()
        invariant
            i <= vals.len(),
            ws.len() == vals.len(),
            forall|k: int, w: u32|
                0 <= k < vals.len() ==> (#[trigger] ws@[k] <= w <==> vals@[k] < #[trigger] pow2(
                    w as nat,
                )),
            n == over_count(vals@.take(i as int), width as nat),
            n <= i,
        decreases vals.len() - i,
    {
        assert(vals@.take(i + 1).drop_last() =~= vals@.take(i as int));
        assert(ws@[i as int] <= width <==> vals@[i as int] < pow2(width as nat));
        if ws[i] > width {
            n = n + 1;
        }
        i = i + 1;
    }
    assert(vals@.take(vals.len() as int) =~= vals@);
    n
}

/// The width that makes the packed form smallest.
fn best_width(vals: &[u64], ws: &Vec<u32>) -> (width: u32)
    requires
        vals.len() <= BLOCK,
        ws.len() == vals.len(),
        forall|i: int, w: u32|
            0 <= i < vals.len() ==> (#[trigger] ws@[i] <= w <==> vals@[i] < #[trigger] pow2(
                w as nat,
            )),
    ensures
        width <= 64,
        width == best_width_of(vals@, 64),
        forall|w: nat|
            w <= 64 ==> packed_size(vals@, width as nat) <= #[trigger] packed_size(vals@, w),
{
    let mut best: u32 = 0;
    let mut best_size: usize = 10 * count_over(vals, ws, 0);
    let mut w: u32 = 0;
    while w < 64
        invariant
            w <= 64,
            best <= w,
            vals.len() <= BLOCK,
            ws.len() == vals.len(),
            forall|i: int, x: u32|
                0 <= i < vals.len() ==> (#[trigger] ws@[i] <= x <==> vals@[i] < #[trigger] pow2(
                    x as nat,
                )),
            best == best_width_of(vals@, w as nat),
            best_size + 3 == packed_size(vals@, best as nat),
            best_size <= 128 * 64 + 10 * BLOCK,
            forall|x: nat|
                x <= w ==> packed_size(vals@, best as nat) <= #[trigger] packed_size(vals@, x),
        decreases 64 - w,
    {
        w = w + 1;
        let size: usize = 128 * w as usize + 10 * count_over(vals, ws, w);
        if size < best_size {
            best_size = size;
            best = w;
        }
    }
    best
}

/// The bytes of the patches at `positions`.
pub open spec fn patch_bytes(vals: Seq<u64>, positions: Seq<u16>) -> Seq<u8>
    decreases positions.len(),
{
    if positions.len() == 0 {
        Seq::empty()
    } else {
        bytes::le_bytes(positions[0] as nat, 2) + bytes::le_bytes(
            vals[positions[0] as int] as nat,
            8,
        ) + patch_bytes(vals, positions.drop_first())
    }
}

proof fn lemma_patches(vals: Seq<u64>, positions: Seq<u16>, base: Seq<u64>, rest: Seq<u8>)
    requires
        base.len() == vals.len(),
        forall|j: int| 0 <= j < positions.len() ==> (#[trigger] positions[j]) < vals.len(),
        forall|i: int|
            0 <= i < vals.len() ==> #[trigger] base[i] == vals[i] || exists|j: int|
                0 <= j < positions.len() && #[trigger] positions[j] == i,
    ensures
        patches_parse(patch_bytes(vals, positions) + rest, positions.len(), base) == Ok::<
            _,
            Error,
        >((vals, rest)),
    decreases positions.len(),
{
    let s = patch_bytes(vals, positions) + rest;
    if positions.len() == 0 {
        assert(s =~= rest);
        assert(base =~= vals);
    } else {
        let p = positions[0];
        let tail = positions.drop_first();
        let v = vals[p as int];
        bytes::lemma_pow256_values();
        bytes::lemma_le_roundtrip(p as nat, 2);
        bytes::lemma_le_roundtrip(v as nat, 8);
        let next = base.update(p as int, v);
        assert(s.take(2) =~= bytes::le_bytes(p as nat, 2));
        assert(s.subrange(2, 10) =~= bytes::le_bytes(v as nat, 8));
        assert(s.skip(10) =~= patch_bytes(vals, tail) + rest);
        assert forall|j: int| 0 <= j < tail.len() implies (#[trigger] tail[j]) < vals.len() by {
            assert(positions[j + 1] < vals.len());
        }
        assert forall|i: int| 0 <= i < vals.len() implies #[trigger] next[i] == vals[i] || exists|
            j: int,
        |
            0 <= j < tail.len() && #[trigger] tail[j] == i by {
            if i != p && base[i] != vals[i] {
                let j = choose|j: int| 0 <= j < positions.len() && #[trigger] positions[j] == i;
                assert(tail[j - 1] == i);
            }
        }
        lemma_patches(vals, tail, next, rest);
    }
}

/// `b` parses back to `vals`.
pub open spec fn residuals_encode(b: Seq<u8>, vals: Seq<u64>) -> bool {
    forall|rest: Seq<u8>|
        #[trigger] residuals_parse(b + rest, vals.len()) == Ok::<_, Error>((vals, rest))
}

proof fn lemma_residuals(
    vals: Seq<u64>,
    padded: Seq<u64>,
    width: u32,
    words: Seq<u64>,
    positions: Seq<u16>,
)
    requires
        vals.len() <= BLOCK,
        padded.len() == BLOCK,
        width <= 64,
        positions.len() <= BLOCK,
        forall|i: int| 0 <= i < vals.len() ==> #[trigger] padded[i] == vals[i],
        bitpack::packed_ok(words, kernel(width).bits() as nat, width as nat),
        forall|i: int|
            0 <= i < BLOCK ==> #[trigger] bitpack::packed_value(
                words,
                kernel(width).bits() as nat,
                width as nat,
                i,
            ) == padded[i] as nat % pow2(width as nat),
        forall|j: int| 0 <= j < positions.len() ==> (#[trigger] positions[j]) < vals.len(),
        forall|i: int|
            0 <= i < vals.len() && #[trigger] vals[i] >= pow2(width as nat) ==> exists|j: int|
                0 <= j < positions.len() && #[trigger] positions[j] == i,
    ensures
        residuals_encode(
            seq![width as u8] + bytes::le_bytes(positions.len(), 2) + kernel(width).words_bytes(
                words,
            ) + patch_bytes(vals, positions),
            vals,
        ),
{
    reveal(residuals_parse);
    let k = kernel(width);
    let b = seq![width as u8] + bytes::le_bytes(positions.len(), 2) + k.words_bytes(words)
        + patch_bytes(vals, positions);
    let end = 3 + 128 * width;
    lemma2_to64();
    bytes::lemma_pow256_values();
    bytes::lemma_le_roundtrip(positions.len(), 2);
    assert(k.fits_all(words)) by {
        assert forall|i: int| 0 <= i < words.len() implies k.fits(#[trigger] words[i]) by {
            assert(words[i] < pow2(k.bits() as nat));
        }
    }
    lane::lemma_words_roundtrip(k, words);
    lane::lemma_words_bytes_len(k, words);
    if width <= 32 {
        assert(words.len() == 32 * width && k.bytes() == 4);
    } else {
        assert(words.len() == 16 * width && k.bytes() == 8);
    }
    bytes::lemma_le_bytes_len(positions.len(), 2);
    let base = packed_values(words, width, vals.len());
    assert forall|i: int| 0 <= i < vals.len() implies #[trigger] base[i] == vals[i] || exists|
        j: int,
    |
        0 <= j < positions.len() && #[trigger] positions[j] == i by {
        assert(padded[i] == vals[i]);
        if vals[i] < pow2(width as nat) {
            vstd::arithmetic::div_mod::lemma_small_mod(vals[i] as nat, pow2(width as nat));
            assert(bitpack::packed_value(words, k.bits() as nat, width as nat, i) == vals[i]);
        }
    }
    assert forall|rest: Seq<u8>|
        #[trigger] residuals_parse(b + rest, vals.len()) == Ok::<_, Error>((vals, rest)) by {
        let s = b + rest;
        assert(s.subrange(1, 3) =~= bytes::le_bytes(positions.len(), 2));
        assert(s.subrange(3, end) =~= k.words_bytes(words));
        assert(s.skip(end) =~= patch_bytes(vals, positions) + rest);
        lemma_patches(vals, positions, base, rest);
    }
}

/// The positions of the values wider than `width`.
fn over_positions(vals: &[u64], ws: &Vec<u32>, width: u32) -> (positions: Vec<u16>)
    requires
        vals.len() <= BLOCK,
        ws.len() == vals.len(),
        forall|i: int, w: u32|
            0 <= i < vals.len() ==> (#[trigger] ws@[i] <= w <==> vals@[i] < #[trigger] pow2(
                w as nat,
            )),
    ensures
        positions@ == over_places(vals@, width as nat, vals@.len()),
        positions.len() == over_count(vals@, width as nat),
        positions.len() <= vals.len(),
        forall|j: int| 0 <= j < positions.len() ==> (#[trigger] positions@[j]) < vals.len(),
        forall|i: int|
            0 <= i < vals.len() && #[trigger] vals@[i] >= pow2(width as nat) ==> exists|j: int|
                0 <= j < positions.len() && #[trigger] positions@[j] == i,
{
    let mut positions: Vec<u16> = Vec::new();
    let mut i: usize = 0;
    while i < vals.len()
        invariant
            i <= vals.len() <= BLOCK,
            ws.len() == vals.len(),
            forall|k: int, w: u32|
                0 <= k < vals.len() ==> (#[trigger] ws@[k] <= w <==> vals@[k] < #[trigger] pow2(
                    w as nat,
                )),
            positions@ == over_places(vals@, width as nat, i as nat),
            positions.len() == over_count(vals@.take(i as int), width as nat),
            positions.len() <= i,
            forall|j: int| 0 <= j < positions.len() ==> (#[trigger] positions@[j]) < i,
            forall|k: int|
                0 <= k < i && #[trigger] vals@[k] >= pow2(width as nat) ==> exists|j: int|
                    0 <= j < positions.len() && #[trigger] positions@[j] == k,
        decreases vals.len() - i,
    {
        assert(vals@.take(i + 1).drop_last() =~= vals@.take(i as int));
        assert(ws@[i as int] <= width <==> vals@[i as int] < pow2(width as nat));
        let ghost before = positions@;
        if ws[i] > width {
            positions.push(i as u16);
            assert(positions@[before.len() as int] == i);
        }
        proof {
            assert forall|k: int|
                0 <= k < i + 1 && #[trigger] vals@[k] >= pow2(width as nat) implies exists|j: int|
                0 <= j < positions.len() && #[trigger] positions@[j] == k by {
                if k < i {
                    let j = choose|j: int| 0 <= j < before.len() && #[trigger] before[j] == k;
                    assert(positions@[j] == k);
                }
            }
        }
        i = i + 1;
    }
    assert(vals@.take(vals.len() as int) =~= vals@);
    positions
}

pub proof fn lemma_patch_bytes_len(vals: Seq<u64>, positions: Seq<u16>)
    ensures
        patch_bytes(vals, positions).len() == 10 * positions.len(),
    decreases positions.len(),
{
    if positions.len() > 0 {
        bytes::lemma_le_bytes_len(positions[0] as nat, 2);
        bytes::lemma_le_bytes_len(vals[positions[0] as int] as nat, 8);
        lemma_patch_bytes_len(vals, positions.drop_first());
    }
}

fn write_patches(vals: &[u64], positions: &Vec<u16>, out: &mut Vec<u8>)
    requires
        forall|j: int| 0 <= j < positions.len() ==> (#[trigger] positions@[j]) < vals.len(),
    ensures
        final(out)@ == old(out)@ + patch_bytes(vals@, positions@),
{
    let ghost start = out@;
    let mut j: usize = 0;
    assert(positions@.skip(0) =~= positions@);
    while j < positions.len()
        invariant
            j <= positions.len(),
            forall|i: int| 0 <= i < positions.len() ==> (#[trigger] positions@[i]) < vals.len(),
            out@ + patch_bytes(vals@, positions@.skip(j as int)) == start + patch_bytes(
                vals@,
                positions@,
            ),
        decreases positions.len() - j,
    {
        let ghost before = out@;
        let p: u16 = positions[j];
        assert(positions@[j as int] < vals.len());
        write_le(out, p as u64, 2);
        write_le(out, vals[p as usize], 8);
        proof {
            let t = positions@.skip(j as int);
            assert(t.drop_first() =~= positions@.skip(j + 1));
            assert(out@ + patch_bytes(vals@, positions@.skip(j + 1)) =~= before + patch_bytes(
                vals@,
                t,
            ));
        }
        j = j + 1;
    }
    assert(out@ + Seq::<u8>::empty() =~= out@);
}

/// Pack one sub-block; no width would make it smaller.
pub fn pack_residuals(vals: &[u64]) -> (out: Vec<u8>)
    requires
        vals.len() <= BLOCK,
    ensures
        out@ == residuals_image(vals@),
        residuals_encode(out@, vals@),
        forall|w: nat| w <= 64 ==> out.len() <= #[trigger] packed_size(vals@, w),
{
    let ws = widths_of(vals);
    let width: u32 = best_width(vals, &ws);
    let positions = over_positions(vals, &ws, width);
    let mut padded: Vec<u64> = Vec::new();
    let mut i: usize = 0;
    while i < BLOCK
        invariant
            i <= BLOCK,
            vals.len() <= BLOCK,
            padded.len() == i,
            forall|k: int| 0 <= k < i && k < vals.len() ==> #[trigger] padded@[k] == vals@[k],
            forall|k: int| vals.len() <= k < i ==> #[trigger] padded@[k] == 0,
        decreases BLOCK - i,
    {
        padded.push(
            if i < vals.len() {
                vals[i]
            } else {
                0
            },
        );
        i = i + 1;
    }
    assert(padded@ =~= filled_up(vals@));
    let k: Lane = kernel(width);
    let words = pack_words(&padded, k.bits(), width);
    let mut out: Vec<u8> = Vec::new();
    out.push(width as u8);
    write_le(&mut out, positions.len() as u64, 2);
    k.write_words(&mut out, &words);
    write_patches(vals, &positions, &mut out);
    proof {
        lemma_residuals(vals@, padded@, width, words@, positions@);
        assert(out@ =~= seq![width as u8] + bytes::le_bytes(positions@.len(), 2) + k.words_bytes(
            words@,
        ) + patch_bytes(vals@, positions@));
        lane::lemma_words_bytes_len(k, words@);
        lemma_patch_bytes_len(vals@, positions@);
        bytes::lemma_le_bytes_len(positions@.len(), 2);
        reveal(residuals_image);
        if width <= 32 {
            assert(words@.len() == 32 * width && k.bytes() == 4);
        } else {
            assert(words@.len() == 16 * width && k.bytes() == 8);
        }
        assert(out.len() == packed_size(vals@, width as nat));
    }
    out
}

/// Read the `count` values packed at `pos`, and move past them.
pub fn unpack_residuals(src: &[u8], pos: &mut usize, count: usize) -> (r: Result<Vec<u64>, Error>)
    requires
        *old(pos) <= src.len(),
        count <= BLOCK,
    ensures
        match residuals_parse(src@.skip(*old(pos) as int), count as nat) {
            Err(e) => r == Err::<Vec<u64>, Error>(e),
            Ok((vals, rest)) => r is Ok && r->Ok_0@ == vals && *final(pos) <= src.len()
                && src@.skip(*final(pos) as int) == rest,
        },
        r matches Ok(v) ==> v.len() == count,
{
    reveal(residuals_parse);
    let s = tail(src, *pos);
    let ghost whole = residuals_parse(s@, count as nat);
    if s.len() < 3 {
        return Err(Error::Truncated);
    }
    let width: u32 = s[0] as u32;
    if width > 64 {
        return Err(Error::CorruptPayload("for_bitpack bad width"));
    }
    let end: usize = 3 + 128 * width as usize;
    if s.len() < end {
        return Err(Error::Truncated);
    }
    let patches: u64 = read_le(s, 1, 2);
    let k: Lane = kernel(width);
    let image = vstd::slice::slice_subrange(s, 3, end);
    let words = k.from_le_image(image);
    proof {
        lemma2_to64();
        assert(words@ == k.words_of(s@.subrange(3, end as int)));
        lane::lemma_words_of_len(
            k,
            image@,
            if width <= 32 {
                32 * width as nat
            } else {
                16 * width as nat
            },
        );
        assert forall|i: int| 0 <= i < words@.len() implies #[trigger] words@[i] < pow2(
            k.bits() as nat,
        ) by {
            assert(k.fits(words@[i]));
        }
    }
    let values = unpack_words(&words, k.bits(), width);
    let mut out: Vec<u64> = Vec::new();
    let mut i: usize = 0;
    while i < count
        invariant
            i <= count <= BLOCK,
            values.len() == BLOCK,
            out.len() == i,
            forall|j: int| 0 <= j < i ==> #[trigger] out@[j] == values@[j],
        decreases count - i,
    {
        out.push(values[i]);
        i = i + 1;
    }
    assert(out@ =~= packed_values(words@, width, count as nat));
    let mut at: usize = end;
    let mut left: u64 = patches;
    while left > 0
        invariant
            at <= s.len(),
            *pos <= src.len(),
            s@ == src@.skip(*pos as int),
            *pos == *old(pos),
            out.len() == count,
            whole == residuals_parse(s@, count as nat),
            whole == patches_parse(s@.skip(at as int), left as nat, out@),
        decreases left,
    {
        if s.len() - at < 10 {
            return Err(Error::Truncated);
        }
        let p: u64 = read_le(s, at, 2);
        let v: u64 = read_le(s, at + 2, 8);
        proof {
            let t = s@.skip(at as int);
            assert(t.take(2) =~= s@.subrange(at as int, at + 2));
            assert(t.subrange(2, 10) =~= s@.subrange(at + 2, at + 10));
            assert(t.skip(10) =~= s@.skip(at + 10));
        }
        if p >= count as u64 {
            return Err(Error::CorruptPayload("for_bitpack patch position"));
        }
        out.set(p as usize, v);
        at = at + 10;
        left = left - 1;
    }
    assert(s@.skip(at as int) =~= src@.skip(*pos + at));
    *pos = *pos + at;
    Ok(out)
}

} // verus!
