//! Physical lanes: the machine word each codec operates on.
//!
//! A column is lowered to words of one lane, 64 bits wide for the 64-bit types
//! and 32 bits wide for the 32-bit types. A word is held in a `u64` below the
//! lane's modulus; masks, bit widths, dictionary entries and byte planes all
//! follow the lane, so a 32-bit column is coded at its native width.

use vstd::prelude::*;
use crate::bytes;
use crate::bytes::{read_le, write_le};
use crate::error::Error;

verus! {

/// The width of a lane word.
#[derive(Copy, Clone, Debug, PartialEq, Eq, Structural)]
pub enum Lane {
    /// 32-bit words (`f32`, `i32`, `u32`).
    W32,
    /// 64-bit words (`f64`, `i64`, `u64`).
    W64,
}

impl Lane {
    /// `2^bits`.
    pub open spec fn modulus(self) -> nat {
        match self {
            Lane::W32 => 0x1_0000_0000,
            Lane::W64 => 0x1_0000_0000_0000_0000,
        }
    }

    /// Whether `v` is a word of this lane.
    pub open spec fn fits(self, v: u64) -> bool {
        v < self.modulus()
    }

    /// Whether every word of `vals` belongs to this lane.
    pub open spec fn fits_all(self, vals: Seq<u64>) -> bool {
        forall|i: int| 0 <= i < vals.len() ==> self.fits(#[trigger] vals[i])
    }

    /// The word read as a two's-complement integer.
    pub open spec fn signed(self, v: u64) -> int {
        if 2 * v < self.modulus() {
            v as int
        } else {
            v - self.modulus()
        }
    }

    /// The two's-complement word of an integer.
    pub open spec fn unsigned(self, s: int) -> u64 {
        (s % (self.modulus() as int)) as u64
    }

    /// The sum of two words, wrapped to the lane.
    pub open spec fn sum(self, a: u64, b: u64) -> u64 {
        self.unsigned(a + b)
    }

    /// The difference of two words, wrapped to the lane.
    pub open spec fn diff(self, a: u64, b: u64) -> u64 {
        self.unsigned(a - b)
    }

    /// The product of two words, wrapped to the lane.
    pub open spec fn product(self, a: u64, b: u64) -> u64 {
        self.unsigned(a * b)
    }

    /// The zigzag magnitude of a word: `0, -1, 1, -2, ..` become `0, 1, 2, 3, ..`.
    pub open spec fn zigzagged(self, v: u64) -> u64 {
        let s = self.signed(v);
        if s >= 0 {
            (2 * s) as u64
        } else {
            (-2 * s - 1) as u64
        }
    }

    /// The word whose zigzag magnitude is `z`.
    pub open spec fn unzigzagged(self, z: u64) -> u64 {
        if z % 2 == 0 {
            z / 2
        } else {
            (self.modulus() - (z as int + 1) / 2) as u64
        }
    }

    /// Lane width in bits (32 or 64).
    #[verifier::allow_in_spec]
    pub fn bits(self) -> (r: u32)
        returns
            (match self {
                Lane::W32 => 32u32,
                Lane::W64 => 64u32,
            }),
    {
        match self {
            Lane::W32 => 32,
            Lane::W64 => 64,
        }
    }

    /// Lane width in bytes (4 or 8).
    #[verifier::allow_in_spec]
    pub fn bytes(self) -> (r: usize)
        returns
            (match self {
                Lane::W32 => 4usize,
                Lane::W64 => 8usize,
            }),
    {
        match self {
            Lane::W32 => 4,
            Lane::W64 => 8,
        }
    }

    /// The all-ones word.
    pub fn max(self) -> (r: u64)
        ensures
            r == self.modulus() - 1,
    {
        match self {
            Lane::W32 => 0xFFFF_FFFF,
            Lane::W64 => 0xFFFF_FFFF_FFFF_FFFF,
        }
    }

    /// The value of the IEEE-754 exponent field when it is all ones (inf/NaN).
    #[verifier::allow_in_spec]
    pub fn exp_all_ones(self) -> (r: u32)
        returns
            (match self {
                Lane::W32 => 0xFFu32,
                Lane::W64 => 0x7FFu32,
            }),
    {
        match self {
            Lane::W32 => 0xFF,
            Lane::W64 => 0x7FF,
        }
    }

    /// Truncate a `u64` to the lane (the low bits).
    pub fn from_u64(self, v: u64) -> (r: u64)
        ensures
            r == v as nat % self.modulus(),
            self.fits(r),
    {
        match self {
            Lane::W32 => v % 0x1_0000_0000,
            Lane::W64 => v,
        }
    }

    /// `v` as a lane word, failing when it does not fit.
    pub fn try_from_u64(self, v: u64) -> (r: Result<u64, Error>)
        ensures
            self.fits(v) ==> r == Ok::<u64, Error>(v),
            !self.fits(v) ==> r == Err::<u64, Error>(
                Error::CorruptPayload("value exceeds 32-bit lane"),
            ),
    {
        match self {
            Lane::W32 => {
                if v < 0x1_0000_0000 {
                    Ok(v)
                } else {
                    Err(Error::CorruptPayload("value exceeds 32-bit lane"))
                }
            },
            Lane::W64 => Ok(v),
        }
    }

    /// The word read as a two's-complement integer.
    pub fn as_signed(self, v: u64) -> (r: i64)
        requires
            self.fits(v),
        ensures
            r == self.signed(v),
    {
        match self {
            Lane::W32 => {
                if v < 0x8000_0000 {
                    v as i64
                } else {
                    v as i64 - 0x1_0000_0000
                }
            },
            Lane::W64 => {
                if v < 0x8000_0000_0000_0000 {
                    v as i64
                } else {
                    -((0xFFFF_FFFF_FFFF_FFFF - v) as i64) - 1
                }
            },
        }
    }

    /// Truncate an `i64` to the lane's two's-complement pattern.
    pub fn from_signed(self, v: i64) -> (r: u64)
        ensures
            r == self.unsigned(v as int),
            self.fits(r),
    {
        let w: u64 = if v >= 0 {
            v as u64
        } else {
            0xFFFF_FFFF_FFFF_FFFF - ((-(v + 1)) as u64)
        };
        proof {
            if v < 0 {
                let m = self.modulus() as int;
                let k = 0x1_0000_0000_0000_0000int / m;
                assert(w == m * k + v);
                vstd::arithmetic::div_mod::lemma_mod_multiples_vanish(k, v as int, m);
            }
        }
        self.from_u64(w)
    }

    /// Wrapping addition.
    pub fn wrapping_add(self, a: u64, b: u64) -> (r: u64)
        requires
            self.fits(a),
            self.fits(b),
        ensures
            r == self.sum(a, b),
            self.fits(r),
    {
        match self {
            Lane::W32 => (a + b) % 0x1_0000_0000,
            Lane::W64 => a.wrapping_add(b),
        }
    }

    /// Wrapping subtraction.
    pub fn wrapping_sub(self, a: u64, b: u64) -> (r: u64)
        requires
            self.fits(a),
            self.fits(b),
        ensures
            r == self.diff(a, b),
            self.fits(r),
    {
        match self {
            Lane::W32 => (a + 0x1_0000_0000 - b) % 0x1_0000_0000,
            Lane::W64 => a.wrapping_sub(b),
        }
    }

    /// Wrapping multiplication.
    pub fn wrapping_mul(self, a: u64, b: u64) -> (r: u64)
        requires
            self.fits(a),
            self.fits(b),
        ensures
            r == self.product(a, b),
            self.fits(r),
    {
        match self {
            Lane::W32 => {
                assert(a * b <= 0xFFFF_FFFF * 0xFFFF_FFFF) by (nonlinear_arith)
                    requires
                        a <= 0xFFFF_FFFF,
                        b <= 0xFFFF_FFFF,
                ;
                (a * b) % 0x1_0000_0000
            },
            Lane::W64 => {
                let r = a.wrapping_mul(b);
                assert(0 <= a * b) by (nonlinear_arith);
                r
            },
        }
    }

    /// Zigzag a lane-width two's-complement value to an unsigned magnitude.
    pub fn zigzag(self, v: u64) -> (z: u64)
        requires
            self.fits(v),
        ensures
            z == self.zigzagged(v),
            self.fits(z),
    {
        let top: u64 = self.max();
        if v <= top / 2 {
            2 * v
        } else {
            2 * (top - v) + 1
        }
    }

    /// Inverse of [`Lane::zigzag`].
    pub fn unzigzag(self, z: u64) -> (v: u64)
        requires
            self.fits(z),
        ensures
            v == self.unzigzagged(z),
            self.fits(v),
    {
        if z % 2 == 0 {
            z / 2
        } else {
            self.max() - z / 2
        }
    }

    /// The IEEE-754 exponent field of the word read as its float view.
    pub fn exponent_field(self, v: u64) -> (r: u32)
        requires
            self.fits(v),
        ensures
            r == self.exponent(v),
            r <= self.exp_all_ones(),
    {
        match self {
            Lane::W32 => ((v / 0x80_0000) % 0x100) as u32,
            Lane::W64 => ((v / 0x10_0000_0000_0000) % 0x800) as u32,
        }
    }

    /// The IEEE-754 exponent field of a word.
    pub open spec fn exponent(self, v: u64) -> int {
        match self {
            Lane::W32 => (v as int / 0x80_0000) % 0x100,
            Lane::W64 => (v as int / 0x10_0000_0000_0000) % 0x800,
        }
    }

    /// A word's little-endian byte image.
    pub open spec fn word_bytes(self, v: u64) -> Seq<u8> {
        bytes::le_bytes(v as nat, self.bytes() as nat)
    }

    /// The little-endian byte image of a sequence of words.
    pub open spec fn words_bytes(self, vals: Seq<u64>) -> Seq<u8>
        decreases vals.len(),
    {
        if vals.len() == 0 {
            Seq::empty()
        } else {
            self.words_bytes(vals.drop_last()) + self.word_bytes(vals.last())
        }
    }

    /// The words whose byte image is `s` (a trailing partial word is dropped).
    pub open spec fn words_of(self, s: Seq<u8>) -> Seq<u64> {
        Seq::new(
            s.len() / (self.bytes() as nat),
            |i: int|
                bytes::le_value(
                    s.subrange(i * self.bytes() as int, i * self.bytes() as int + self.bytes()),
                ) as u64,
        )
    }

    /// Append a word as little-endian bytes.
    pub fn write_word(self, out: &mut Vec<u8>, v: u64)
        ensures
            final(out)@ == old(out)@ + self.word_bytes(v),
    {
        write_le(out, v, self.bytes());
    }

    /// Read the word stored at `pos`.
    pub fn read_word(self, src: &[u8], pos: usize) -> (v: u64)
        requires
            pos + self.bytes() <= src.len(),
        ensures
            v == bytes::le_value(src@.subrange(pos as int, pos + self.bytes())),
            self.fits(v),
    {
        proof {
            bytes::lemma_pow256_values();
        }
        read_le(src, pos, self.bytes())
    }

    /// Append a sequence of words as little-endian bytes.
    pub fn write_words(self, out: &mut Vec<u8>, vals: &[u64])
        ensures
            final(out)@ == old(out)@ + self.words_bytes(vals@),
    {
        let ghost start = out@;
        let mut i: usize = 0;
        assert(self.words_bytes(vals@.take(0)) =~= Seq::empty());
        assert(out@ =~= start + self.words_bytes(vals@.take(0)));
        while i < vals.len()
            invariant
                i <= vals.len(),
                out@ == start + self.words_bytes(vals@.take(i as int)),
            decreases vals.len() - i,
        {
            let ghost done = vals@.take(i as int);
            self.write_word(out, vals[i]);
            proof {
                let next = vals@.take(i + 1);
                assert(next.drop_last() =~= done);
                assert(next.last() == vals[i as int]);
                assert(out@ =~= start + self.words_bytes(next));
            }
            i = i + 1;
        }
        assert(vals@.take(vals.len() as int) =~= vals@);
    }

    /// The little-endian byte image of a sequence of words.
    pub fn le_image(self, vals: &[u64]) -> (out: Vec<u8>)
        ensures
            out@ == self.words_bytes(vals@),
    {
        let mut out: Vec<u8> = Vec::new();
        self.write_words(&mut out, vals);
        assert(out@ =~= self.words_bytes(vals@));
        out
    }

    /// Parse a little-endian byte image into words.
    pub fn from_le_image(self, src: &[u8]) -> (out: Vec<u64>)
        ensures
            out@ == self.words_of(src@),
            self.fits_all(out@),
    {
        let w = self.bytes();
        let n: usize = src.len() / w;
        let mut out: Vec<u64> = Vec::new();
        let mut i: usize = 0;
        while i < n
            invariant
                i <= n,
                w == self.bytes(),
                n * w <= src.len(),
                out.len() == i,
                self.fits_all(out@),
                forall|k: int|
                    0 <= k < i ==> #[trigger] out@[k] == bytes::le_value(
                        src@.subrange(k * w, k * w + w),
                    ),
            decreases n - i,
        {
            assert(i * w + w <= n * w) by (nonlinear_arith)
                requires
                    i + 1 <= n,
            ;
            let v = self.read_word(src, i * w);
            out.push(v);
            i = i + 1;
        }
        assert(out@ =~= self.words_of(src@));
        out
    }
}

/// Wrapped subtraction undone by wrapped addition, and the other way round.
pub proof fn lemma_lane_diff_sum(lane: Lane, a: u64, b: u64)
    requires
        lane.fits(a),
        lane.fits(b),
    ensures
        lane.sum(b, lane.diff(a, b)) == a,
        lane.diff(lane.sum(b, a), b) == a,
        lane.fits(lane.sum(a, b)),
        lane.fits(lane.diff(a, b)),
{
}

/// The exclusive-or of two words is a word, and undoes itself.
pub proof fn lemma_lane_xor(lane: Lane, a: u64, b: u64)
    requires
        lane.fits(a),
        lane.fits(b),
    ensures
        lane.fits(a ^ b),
        (a ^ b) ^ b == a,
{
    assert((a ^ b) ^ b == a) by (bit_vector);
    assert(a < 0x1_0000_0000 && b < 0x1_0000_0000 ==> (a ^ b) < 0x1_0000_0000) by (bit_vector);
}

/// Zigzag loses nothing.
pub proof fn lemma_zigzag_roundtrip(lane: Lane, v: u64)
    requires
        lane.fits(v),
    ensures
        lane.unzigzagged(lane.zigzagged(v)) == v,
        lane.zigzagged(lane.unzigzagged(v)) == v,
        lane.fits(lane.zigzagged(v)),
        lane.fits(lane.unzigzagged(v)),
{
}

/// The signed reading of a word and its two's-complement pattern are inverse.
pub proof fn lemma_signed_roundtrip(lane: Lane, v: u64)
    requires
        lane.fits(v),
    ensures
        lane.unsigned(lane.signed(v)) == v,
{
}

pub proof fn lemma_words_bytes_len(lane: Lane, vals: Seq<u64>)
    ensures
        lane.words_bytes(vals).len() == vals.len() * lane.bytes(),
    decreases vals.len(),
{
    if vals.len() > 0 {
        lemma_words_bytes_len(lane, vals.drop_last());
        bytes::lemma_le_bytes_len(vals.last() as nat, lane.bytes() as nat);
        let n = (vals.len() - 1) as int;
        let w = lane.bytes() as int;
        assert((n + 1) * w == n * w + w) by (nonlinear_arith);
    }
}

/// An image of whole words holds that many words.
pub proof fn lemma_words_of_len(lane: Lane, s: Seq<u8>, n: nat)
    requires
        s.len() == n * lane.bytes(),
    ensures
        lane.words_of(s).len() == n,
{
    let w = lane.bytes() as int;
    assert(s.len() as int / w == n) by (nonlinear_arith)
        requires
            s.len() == n * w,
            w == 4 || w == 8,
    ;
}

/// The byte image of each word stands at its place in the whole image.
pub proof fn lemma_words_bytes_at(lane: Lane, vals: Seq<u64>, i: int)
    requires
        0 <= i < vals.len(),
    ensures
        (i + 1) * lane.bytes() <= lane.words_bytes(vals).len(),
        lane.words_bytes(vals).subrange(i * lane.bytes() as int, i * lane.bytes() as int + lane.bytes())
            == lane.word_bytes(vals[i]),
    decreases vals.len(),
{
    let w = lane.bytes() as int;
    let s = lane.words_bytes(vals);
    let init = lane.words_bytes(vals.drop_last());
    lemma_words_bytes_len(lane, vals);
    lemma_words_bytes_len(lane, vals.drop_last());
    bytes::lemma_le_bytes_len(vals.last() as nat, lane.bytes() as nat);
    let n = vals.len() as int;
    assert((n - 1) * w + w == n * w) by (nonlinear_arith);
    assert(i * w + w == (i + 1) * w) by (nonlinear_arith);
    assert((i + 1) * w <= n * w) by (nonlinear_arith)
        requires
            i + 1 <= n,
            w > 0,
    ;
    if i == n - 1 {
        assert(s.subrange(i * w, i * w + w) =~= lane.word_bytes(vals[i]));
    } else {
        lemma_words_bytes_at(lane, vals.drop_last(), i);
        assert((i + 1) * w <= (n - 1) * w) by (nonlinear_arith)
            requires
                i + 1 <= n - 1,
                w > 0,
        ;
        assert(s.subrange(i * w, i * w + w) =~= init.subrange(i * w, i * w + w));
    }
}

/// Words survive their byte image.
pub proof fn lemma_words_roundtrip(lane: Lane, vals: Seq<u64>)
    requires
        lane.fits_all(vals),
    ensures
        lane.words_of(lane.words_bytes(vals)) == vals,
        lane.words_bytes(vals).len() == vals.len() * lane.bytes(),
{
    lemma_words_bytes_len(lane, vals);
    bytes::lemma_pow256_values();
    let s = lane.words_bytes(vals);
    let w = lane.bytes() as int;
    assert(s.len() as int / w == vals.len()) by (nonlinear_arith)
        requires
            s.len() == vals.len() * w,
            w == 4 || w == 8,
    ;
    assert forall|i: int| 0 <= i < vals.len() implies #[trigger] lane.words_of(s)[i] == vals[i] by {
        lemma_words_bytes_at(lane, vals, i);
        bytes::lemma_le_roundtrip(vals[i] as nat, lane.bytes() as nat);
    }
    assert(lane.words_of(s) =~= vals);
}

/// Whether two runs of words are the same.
pub fn same_words(a: &[u64], b: &[u64]) -> (r: bool)
    ensures
        r == (a@ == b@),
{
    if a.len() != b.len() {
        return false;
    }
    let mut i: usize = 0;
    while i < a.len()
        invariant
            i <= a.len(),
            a.len() == b.len(),
            forall|j: int| 0 <= j < i ==> #[trigger] a@[j] == b@[j],
        decreases a.len() - i,
    {
        if a[i] != b[i] {
            return false;
        }
        i = i + 1;
    }
    assert(a@ =~= b@);
    true
}

} // verus!
