//! Binary range coder (carry via cache) with an adaptive order-1 byte model.
//!
//! Probabilities have 11 bits and adapt with shift rate 5; the 32-bit range is
//! renormalised a byte at a time. Encoder and decoder evolve identical models.
//! A coded stream is `varint(len) ++ range-coded bytes`.

use vstd::prelude::*;
use vstd::arithmetic::power2::*;
use crate::error;
use crate::error::Error;
use crate::varint;

verus! {

/// The initial probability of a zero bit, out of 2048.
pub const PROB_INIT: u16 = 1024;

/// A range below this is renormalised.
pub const RANGE_TOP: u32 = 16777216;

/// The number whose big-endian digits (base 256) are `s`.
pub open spec fn be_value(s: Seq<u8>) -> nat
    decreases s.len(),
{
    if s.len() == 0 {
        0
    } else {
        be_value(s.drop_last()) * 256 + s.last() as nat
    }
}

/// The share of the range that a zero bit gets.
pub open spec fn zero_share(range: nat, p: u16) -> nat {
    (range / 2048) * (p as nat)
}

/// The probability of a zero bit after `bit` was seen.
pub open spec fn adapted(p: u16, bit: bool) -> u16 {
    if bit {
        (p - p / 32) as u16
    } else {
        (p + (2048 - p) / 32) as u16
    }
}

/// A probability that adaptation can reach.
pub open spec fn prob_ok(p: u16) -> bool {
    31 <= p <= 2017
}

/// The model before anything is coded.
pub open spec fn fresh_model() -> Seq<u16> {
    Seq::new(65536, |i: int| PROB_INIT)
}

/// A model of 256 contexts with a 256-node bit tree each.
pub open spec fn model_ok(probs: Seq<u16>) -> bool {
    probs.len() == 65536 && forall|i: int| 0 <= i < 65536 ==> prob_ok(#[trigger] probs[i])
}

/// The state of a decoder: the code word, the range and the bytes still unread.
pub struct Reading {
    pub code: nat,
    pub range: nat,
    pub rest: Seq<u8>,
}

/// The next byte of a stream; zero past its end.
pub open spec fn next_byte(s: Seq<u8>) -> nat {
    if s.len() == 0 {
        0
    } else {
        s[0] as nat
    }
}

/// What follows the next byte.
pub open spec fn after_byte(s: Seq<u8>) -> Seq<u8> {
    if s.len() == 0 {
        s
    } else {
        s.drop_first()
    }
}

/// A decoder at the start of a stream: the first byte is skipped, the next four
/// are the code word.
pub open spec fn reading_start(s: Seq<u8>) -> Reading {
    let s1 = after_byte(s);
    let s2 = after_byte(s1);
    let s3 = after_byte(s2);
    let s4 = after_byte(s3);
    Reading {
        code: ((next_byte(s1) * 256 + next_byte(s2)) * 256 + next_byte(s3)) * 256 + next_byte(s4),
        range: 0xFFFF_FFFF,
        rest: after_byte(s4),
    }
}

/// The bit that a decoder reads next.
pub open spec fn read_bit(d: Reading, p: u16) -> bool {
    d.code >= zero_share(d.range, p)
}

/// The decoder after its next bit.
pub open spec fn after_bit(d: Reading, p: u16) -> Reading {
    let bound = zero_share(d.range, p);
    let code = if read_bit(d, p) {
        (d.code - bound) as nat
    } else {
        d.code
    };
    let range = if read_bit(d, p) {
        (d.range - bound) as nat
    } else {
        bound
    };
    if range < RANGE_TOP {
        Reading {
            code: (code * 256 + next_byte(d.rest)) % 0x1_0000_0000,
            range: range * 256,
            rest: after_byte(d.rest),
        }
    } else {
        Reading { code, range, rest: d.rest }
    }
}

/// Decode `k` more bits of a byte whose bit tree starts at `base`, `node` being
/// the tree node reached so far.
pub open spec fn read_tree(d: Reading, probs: Seq<u16>, base: nat, node: nat, k: nat) -> (
    Reading,
    Seq<u16>,
    nat,
)
    decreases k,
{
    if k == 0 {
        (d, probs, node)
    } else {
        let at = (base + node) as int;
        let bit = read_bit(d, probs[at]);
        read_tree(
            after_bit(d, probs[at]),
            probs.update(at, adapted(probs[at], bit)),
            base,
            2 * node + (if bit {
                1nat
            } else {
                0nat
            }),
            (k - 1) as nat,
        )
    }
}

/// Decode `n` bytes, the previous byte being `ctx`.
pub open spec fn read_bytes(d: Reading, probs: Seq<u16>, ctx: u8, n: nat) -> Seq<u8>
    decreases n,
{
    if n == 0 {
        Seq::empty()
    } else {
        let (d2, probs2, node) = read_tree(d, probs, (ctx * 256) as nat, 1, 8);
        let b = (node % 256) as u8;
        seq![b] + read_bytes(d2, probs2, b, (n - 1) as nat)
    }
}

/// The bytes coded by `src`, at most `max_len` of them.
pub open spec fn rc_decoded(src: Seq<u8>, max_len: nat) -> Result<Seq<u8>, Error> {
    match varint::varint_parse(src) {
        Err(e) => Err(e),
        Ok((len, rest)) => if len > max_len {
            Err(Error::CorruptPayload("range-coder length exceeds bound"))
        } else {
            Ok(read_bytes(reading_start(rest), fresh_model(), 0, len as nat))
        },
    }
}

// ---------------------------------------------------------------------------
// The encoder as arithmetic on unbounded numbers
// ---------------------------------------------------------------------------

/// An encoder whose interval is `[low, low + range)` at a scale of
/// `256^shifts`.
pub struct Coder {
    pub low: nat,
    pub range: nat,
    pub shifts: nat,
}

/// The encoder before the first bit.
pub open spec fn coder_start() -> Coder {
    Coder { low: 0, range: 0xFFFF_FFFF, shifts: 0 }
}

spec fn coder_ok(c: Coder) -> bool {
    RANGE_TOP <= c.range < 0x1_0000_0000
}

/// The part of the interval that one bit leaves.
pub open spec fn narrowed(c: Coder, p: u16, bit: bool) -> Coder {
    let bound = zero_share(c.range, p);
    if bit {
        Coder { low: c.low + bound, range: (c.range - bound) as nat, shifts: c.shifts }
    } else {
        Coder { low: c.low, range: bound, shifts: c.shifts }
    }
}

/// One bit encoded under the probability `p` of a zero.
pub open spec fn coder_bit(c: Coder, p: u16, bit: bool) -> Coder {
    let m = narrowed(c, p, bit);
    if m.range < RANGE_TOP {
        Coder { low: m.low * 256, range: m.range * 256, shifts: m.shifts + 1 }
    } else {
        m
    }
}

/// Bit `k` of a byte, the first being bit 8.
pub open spec fn bit_of(byte: u8, k: nat) -> bool {
    (byte as nat / pow2((k - 1) as nat)) % 2 == 1
}

/// A bit as a number.
pub open spec fn bit_value(bit: bool) -> nat {
    if bit {
        1
    } else {
        0
    }
}

/// The last `k` bits of a byte encoded, from node `node` of the bit tree at `base`.
pub open spec fn coder_tree(c: Coder, probs: Seq<u16>, base: nat, node: nat, byte: u8, k: nat) -> (
    Coder,
    Seq<u16>,
)
    decreases k,
{
    if k == 0 {
        (c, probs)
    } else {
        let at = (base + node) as int;
        let bit = bit_of(byte, k);
        coder_tree(
            coder_bit(c, probs[at], bit),
            probs.update(at, adapted(probs[at], bit)),
            base,
            2 * node + bit_value(bit),
            byte,
            (k - 1) as nat,
        )
    }
}

/// Bytes encoded, each in the context of the one before.
pub open spec fn coder_bytes(c: Coder, probs: Seq<u16>, ctx: u8, data: Seq<u8>) -> Coder
    decreases data.len(),
{
    if data.len() == 0 {
        c
    } else {
        let (c2, probs2) = coder_tree(c, probs, (ctx * 256) as nat, 1, data[0], 8);
        coder_bytes(c2, probs2, data[0], data.drop_first())
    }
}

// ---------------------------------------------------------------------------
// Why decoding inverts encoding
// ---------------------------------------------------------------------------

proof fn lemma_adapted_ok(p: u16, bit: bool)
    requires
        prob_ok(p),
    ensures
        prob_ok(adapted(p, bit)),
{
}

/// Either share of a renormalised range is worth renormalising at most once.
proof fn lemma_share_bounds(range: nat, p: u16)
    requires
        RANGE_TOP <= range < 0x1_0000_0000,
        prob_ok(p),
    ensures
        65536 <= zero_share(range, p) < range,
        65536 <= range - zero_share(range, p),
{
    let q = range / 2048;
    let b = q * p;
    assert(8192 <= q < 2097152);
    assert(q * 31 <= b <= q * 2017) by (nonlinear_arith)
        requires
            31 <= p <= 2017,
            b == q * p,
    ;
}

proof fn lemma_coder_bit_ok(c: Coder, p: u16, bit: bool)
    requires
        coder_ok(c),
        prob_ok(p),
    ensures
        coder_ok(coder_bit(c, p, bit)),
        65536 <= narrowed(c, p, bit).range < 0x1_0000_0000,
        coder_bit(c, p, bit).shifts <= c.shifts + 1,
{
    lemma_share_bounds(c.range, p);
}

/// What the digits of `b` up to the encoder's scale spell.
spec fn prefix(b: Seq<u8>, shifts: nat) -> nat {
    be_value(b.take(shifts as int + 5))
}

/// The digits of `b` point into the encoder's interval.
spec fn inside(c: Coder, b: Seq<u8>) -> bool {
    &&& c.shifts + 5 <= b.len()
    &&& c.low <= prefix(b, c.shifts) < c.low + c.range
}

/// The decoder that has read as much of `b` as the encoder had settled.
spec fn reader_of(c: Coder, b: Seq<u8>) -> Reading {
    Reading {
        code: (prefix(b, c.shifts) - c.low) as nat,
        range: c.range,
        rest: b.skip(c.shifts as int + 5),
    }
}

proof fn lemma_bit_inverts(c: Coder, p: u16, bit: bool, b: Seq<u8>)
    requires
        coder_ok(c),
        prob_ok(p),
        inside(coder_bit(c, p, bit), b),
    ensures
        inside(c, b),
        read_bit(reader_of(c, b), p) == bit,
        after_bit(reader_of(c, b), p) == reader_of(coder_bit(c, p, bit), b),
{
    lemma_share_bounds(c.range, p);
    let m = narrowed(c, p, bit);
    let c2 = coder_bit(c, p, bit);
    let x = prefix(b, c.shifts);
    if m.range < RANGE_TOP {
        let t = b.take(c2.shifts as int + 5);
        assert(t.drop_last() =~= b.take(c.shifts as int + 5));
        assert(t.last() == b[c.shifts as int + 5]);
        assert(prefix(b, c2.shifts) == x * 256 + t.last() as nat);
        let rest = b.skip(c.shifts as int + 5);
        assert(rest.drop_first() =~= b.skip(c2.shifts as int + 5));
        assert(rest[0] == t.last());
        assert(m.low <= x < m.low + m.range);
        let code = (x - m.low) as nat;
        assert(code * 256 + t.last() < 0x1_0000_0000);
        assert((code * 256 + t.last() as nat) % 0x1_0000_0000 == code * 256 + t.last() as nat);
        assert(code * 256 + t.last() as nat == prefix(b, c2.shifts) - c2.low);
    }
}

proof fn lemma_tree_inverts(
    c: Coder,
    probs: Seq<u16>,
    base: nat,
    node: nat,
    byte: u8,
    k: nat,
    b: Seq<u8>,
)
    requires
        coder_ok(c),
        model_ok(probs),
        base <= 65280,
        1 <= node,
        k <= 8,
        node * pow2(k) + byte as nat % pow2(k) == 256 + byte,
        inside(coder_tree(c, probs, base, node, byte, k).0, b),
    ensures
        inside(c, b),
        ({
            let (c2, probs2) = coder_tree(c, probs, base, node, byte, k);
            read_tree(reader_of(c, b), probs, base, node, k) == (
                reader_of(c2, b),
                probs2,
                256 + byte as nat,
            )
        }),
    decreases k,
{
    lemma2_to64();
    if k > 0 {
        lemma_tree_node(node, byte, k);
        let at = (base + node) as int;
        let p = probs[at];
        let bit = bit_of(byte, k);
        let c2 = coder_bit(c, p, bit);
        lemma_coder_bit_ok(c, p, bit);
        lemma_adapted_ok(p, bit);
        lemma_tree_inverts(
            c2,
            probs.update(at, adapted(p, bit)),
            base,
            2 * node + bit_value(bit),
            byte,
            (k - 1) as nat,
            b,
        );
        lemma_bit_inverts(c, p, bit, b);
    } else {
        let one = pow2(k);
        assert(node * one == node) by (nonlinear_arith)
            requires
                one == 1,
        ;
        assert(byte as nat % one == 0);
    }
}

/// Walking one bit down the tree.
proof fn lemma_tree_node(node: nat, byte: u8, k: nat)
    requires
        0 < k <= 8,
        1 <= node,
        node * pow2(k) + byte as nat % pow2(k) == 256 + byte,
    ensures
        node < 256,
        (2 * node + bit_value(bit_of(byte, k))) * pow2((k - 1) as nat) + byte as nat % pow2(
            (k - 1) as nat,
        ) == 256 + byte,
{
    lemma2_to64();
    let h = pow2((k - 1) as nat);
    lemma_pow2_adds((k - 1) as nat, 1);
    lemma_pow2_pos((k - 1) as nat);
    let b = byte as nat;
    let bv = bit_value(bit_of(byte, k));
    assert(pow2(k) == 2 * h);
    vstd::arithmetic::div_mod::lemma_fundamental_div_mod(b as int, (2 * h) as int);
    vstd::arithmetic::div_mod::lemma_fundamental_div_mod(b as int, h as int);
    vstd::arithmetic::div_mod::lemma_mod_breakdown(b as int, h as int, 2);
    assert(h * 2 == 2 * h);
    assert(b % (2 * h) == h * bv + b % h);
    assert(node * (2 * h) + h * bv == (2 * node + bv) * h) by (nonlinear_arith);
    assert(node < 256) by (nonlinear_arith)
        requires
            node * (2 * h) + b % (2 * h) == 256 + b,
            b < 256,
            h >= 1,
    ;
}

proof fn lemma_coder_tree_ok(c: Coder, probs: Seq<u16>, base: nat, node: nat, byte: u8, k: nat)
    requires
        coder_ok(c),
        model_ok(probs),
        base <= 65280,
        1 <= node,
        k <= 8,
        node * pow2(k) + byte as nat % pow2(k) == 256 + byte,
    ensures
        coder_ok(coder_tree(c, probs, base, node, byte, k).0),
        model_ok(coder_tree(c, probs, base, node, byte, k).1),
    decreases k,
{
    if k > 0 {
        lemma_tree_node(node, byte, k);
        let at = (base + node) as int;
        let p = probs[at];
        let bit = bit_of(byte, k);
        lemma_coder_bit_ok(c, p, bit);
        lemma_adapted_ok(p, bit);
        lemma_coder_tree_ok(
            coder_bit(c, p, bit),
            probs.update(at, adapted(p, bit)),
            base,
            2 * node + bit_value(bit),
            byte,
            (k - 1) as nat,
        );
    }
}

proof fn lemma_root(byte: u8)
    ensures
        1 * pow2(8) + byte as nat % pow2(8) == 256 + byte,
{
    lemma2_to64();
}

proof fn lemma_bytes_invert(c: Coder, probs: Seq<u16>, ctx: u8, data: Seq<u8>, b: Seq<u8>)
    requires
        coder_ok(c),
        model_ok(probs),
        inside(coder_bytes(c, probs, ctx, data), b),
    ensures
        inside(c, b),
        read_bytes(reader_of(c, b), probs, ctx, data.len()) == data,
    decreases data.len(),
{
    if data.len() > 0 {
        let base = (ctx * 256) as nat;
        let byte = data[0];
        let (c2, probs2) = coder_tree(c, probs, base, 1, byte, 8);
        lemma_root(byte);
        lemma_coder_tree_ok(c, probs, base, 1, byte, 8);
        lemma_bytes_invert(c2, probs2, byte, data.drop_first(), b);
        lemma_tree_inverts(c, probs, base, 1, byte, 8, b);
        assert(((256 + byte as nat) % 256) as u8 == byte);
        assert(seq![byte] + data.drop_first() =~= data);
    } else {
        assert(data =~= Seq::empty());
    }
}

/// Decoding the digits of the final low end gives back the data.
proof fn lemma_stream_inverts(data: Seq<u8>, b: Seq<u8>)
    requires
        ({
            let c = coder_bytes(coder_start(), fresh_model(), 0, data);
            b.len() == c.shifts + 5 && be_value(b) == c.low && c.range > 0
        }),
    ensures
        read_bytes(reading_start(b), fresh_model(), 0, data.len()) == data,
{
    let c = coder_bytes(coder_start(), fresh_model(), 0, data);
    assert(b.take(c.shifts as int + 5) =~= b);
    lemma_bytes_invert(coder_start(), fresh_model(), 0, data, b);
    let t = b.take(5);
    reveal_with_fuel(be_value, 6);
    assert(t.drop_last() =~= b.take(4));
    assert(b.take(4).drop_last() =~= b.take(3));
    assert(b.take(3).drop_last() =~= b.take(2));
    assert(b.take(2).drop_last() =~= b.take(1));
    assert(b.take(1).drop_last() =~= b.take(0));
    let x = be_value(t);
    assert(x < 0xFFFF_FFFF);
    assert(x == (((b[0] as nat * 256 + b[1] as nat) * 256 + b[2] as nat) * 256 + b[3] as nat) * 256
        + b[4] as nat);
    assert(b[0] == 0);
    let s1 = b.drop_first();
    let s2 = s1.drop_first();
    let s3 = s2.drop_first();
    let s4 = s3.drop_first();
    assert(s4.drop_first() =~= b.skip(5));
    assert(reading_start(b) == reader_of(coder_start(), b));
}

// ---------------------------------------------------------------------------
// Encoder
// ---------------------------------------------------------------------------

/// The range encoder: digits already out, one cached digit followed by
/// `cache_size - 1` pending `0xFF` digits, and the unsettled low word.
struct RangeEncoder {
    low: u64,
    range: u32,
    cache: u8,
    cache_size: u128,
    out: Vec<u8>,
}

/// `s` followed by `m` copies of `d`.
spec fn padded(s: Seq<u8>, d: u8, m: nat) -> Seq<u8> {
    s + Seq::new(m, |i: int| d)
}

proof fn lemma_padded_step(s: Seq<u8>, d: u8, m: nat)
    ensures
        padded(s, d, m + 1) == padded(s, d, m).push(d),
        padded(s, d, 0) == s,
        be_value(padded(s, d, m + 1)) == be_value(padded(s, d, m)) * 256 + d,
{
    assert(padded(s, d, m + 1) =~= padded(s, d, m).push(d));
    assert(padded(s, d, m + 1).drop_last() =~= padded(s, d, m));
    assert(padded(s, d, 0) =~= s);
}

/// A carry into the last of a run of `0xFF` digits ripples to the digit before.
proof fn lemma_carry(s: Seq<u8>, c: u8, m: nat)
    requires
        c < 255,
    ensures
        be_value(padded(s.push((c + 1) as u8), 0, m)) == be_value(padded(s.push(c), 255, m)) + 1,
    decreases m,
{
    let a = s.push((c + 1) as u8);
    let b = s.push(c);
    if m == 0 {
        lemma_padded_step(a, 0, 0);
        lemma_padded_step(b, 255, 0);
        assert(a.drop_last() =~= s);
        assert(b.drop_last() =~= s);
    } else {
        lemma_carry(s, c, (m - 1) as nat);
        lemma_padded_step(a, 0, (m - 1) as nat);
        lemma_padded_step(b, 255, (m - 1) as nat);
    }
}

impl RangeEncoder {
    /// The settled and pending digits.
    spec fn digits(&self) -> Seq<u8> {
        padded(self.out@.push(self.cache), 255, (self.cache_size - 1) as nat)
    }

    /// The low end of the interval.
    spec fn value(&self) -> nat {
        be_value(self.digits()) * 0x1_0000_0000 + self.low as nat
    }

    /// No carry can reach past the cached digit.
    spec fn settled(&self) -> bool {
        &&& self.cache_size >= 1
        &&& self.low < 0x2_0000_0000
        &&& self.cache == 255 ==> self.low < 0x1_0000_0000
    }

    /// The encoder stands for the interval of `c`.
    spec fn models(&self, c: Coder) -> bool {
        &&& coder_ok(c)
        &&& self.settled()
        &&& self.range == c.range
        &&& self.value() == c.low
        &&& self.digits().len() == c.shifts + 1
        &&& self.low + self.range < 0x2_0000_0000
        &&& self.cache == 255 ==> self.low + self.range <= 0x1_0000_0000
    }

    fn new() -> (e: Self)
        ensures
            e.models(coder_start()),
    {
        let e = RangeEncoder {
            low: 0,
            range: 0xFFFF_FFFF,
            cache: 0,
            cache_size: 1,
            out: Vec::new(),
        };
        proof {
            lemma_padded_step(e.out@.push(0), 255, 0);
            assert(e.digits() =~= seq![0u8]);
            assert(e.digits().drop_last() =~= Seq::empty());
            assert(be_value(Seq::<u8>::empty()) == 0);
        }
        e
    }

    /// Settle one more digit: the value is scaled by 256.
    fn shift_low(&mut self)
        requires
            old(self).settled(),
            old(self).cache_size < u128::MAX,
        ensures
            final(self).settled(),
            final(self).value() == 256 * old(self).value(),
            final(self).digits().len() == old(self).digits().len() + 1,
            final(self).low == (old(self).low % 0x100_0000) * 256,
            final(self).range == old(self).range,
            final(self).cache_size <= old(self).cache_size + 1,
            final(self).cache == 255 ==> old(self).cache == 255 || old(self).low >= 0x1_FF00_0000,
            old(self).low < 0xFF00_0000 ==> final(self).out@ == old(self).digits(),
    {
        let ghost before = *self;
        proof {
            assert(self.low / 0x1_0000_0000 <= 1);
        }
        if self.low >= 0x1_0000_0000 || self.low < 0xFF00_0000 {
            let carry: u8 = if self.low >= 0x1_0000_0000 {
                1
            } else {
                0
            };
            let first: u8 = self.cache + carry;
            let fill: u8 = if carry == 1 {
                0
            } else {
                255
            };
            let ghost m = (self.cache_size - 1) as nat;
            self.out.push(first);
            self.cache_size = self.cache_size - 1;
            proof {
                lemma_padded_step(self.out@, fill, 0);
                if carry == 1 {
                    lemma_carry(before.out@, before.cache, m);
                }
            }
            let ghost head = self.out@;
            while self.cache_size > 0
                invariant
                    self.cache_size <= m,
                    self.out@ == padded(head, fill, (m - self.cache_size) as nat),
                    self.low == before.low,
                    self.range == before.range,
                decreases self.cache_size,
            {
                proof {
                    lemma_padded_step(head, fill, (m - self.cache_size) as nat);
                }
                self.out.push(fill);
                self.cache_size = self.cache_size - 1;
            }
            proof {
                assert(self.out@ == padded(head, fill, m));
                assert(be_value(self.out@) == be_value(before.digits()) + carry);
                if carry == 0 {
                    assert(self.out@ == before.digits());
                }
            }
            self.cache = ((self.low / 0x100_0000) % 256) as u8;
            self.cache_size = 1;
            self.low = (self.low % 0x100_0000) * 256;
            proof {
                let now = self.out@.push(self.cache);
                lemma_padded_step(now, 255, 0);
                assert(self.digits() == now);
                assert(now.drop_last() =~= self.out@);
                let l = before.low as nat;
                assert(l == carry * 0x1_0000_0000 + self.cache * 0x100_0000 + l % 0x100_0000);
            }
        } else {
            proof {
                lemma_padded_step(
                    before.out@.push(before.cache),
                    255,
                    (before.cache_size - 1) as nat,
                );
                let l = before.low as nat;
                assert(l == 255 * 0x100_0000 + l % 0x100_0000);
            }
            self.cache_size = self.cache_size + 1;
            self.low = (self.low % 0x100_0000) * 256;
        }
    }

    /// Encode one bit under the probability `prob`, which adapts to it.
    fn encode_bit(&mut self, prob: u16, bit: bool, Ghost(c): Ghost<Coder>) -> (next: u16)
        requires
            old(self).models(c),
            prob_ok(prob),
            c.shifts < 0x1_0000_0000_0000_0000_0000,
        ensures
            final(self).models(coder_bit(c, prob, bit)),
            next == adapted(prob, bit),
    {
        proof {
            lemma_coder_bit_ok(c, prob, bit);
            lemma_share_bounds(c.range, prob);
            let q = (self.range / 2048) as nat;
            assert(q * prob == zero_share(c.range, prob));
        }
        let ghost m = narrowed(c, prob, bit);
        let bound: u32 = (self.range / 2048) * prob as u32;
        if bit {
            self.low = self.low + bound as u64;
            self.range = self.range - bound;
        } else {
            self.range = bound;
        }
        if self.range < RANGE_TOP {
            // One byte is always enough: probabilities stay within [31, 2017].
            let ghost before = *self;
            self.range = self.range * 256;
            proof {
                assert(self.value() == m.low);
                assert(self.digits() == before.digits());
            }
            self.shift_low();
        } else {
            assert(self.value() == m.low);
        }
        if bit {
            prob - prob / 32
        } else {
            prob + (2048 - prob) / 32
        }
    }

    /// Settle every digit.
    fn finish(self, Ghost(c): Ghost<Coder>) -> (out: Vec<u8>)
        requires
            self.models(c),
            c.shifts < 0x1_0000_0000_0000_0000_0000,
        ensures
            out.len() == c.shifts + 5,
            be_value(out@) == c.low,
    {
        let mut e = self;
        assert(e.digits().len() == e.out.len() + e.cache_size);
        e.shift_low();
        e.shift_low();
        e.shift_low();
        let ghost third = e.low;
        assert(third % 0x1_00_0000 == 0);
        e.shift_low();
        assert(e.low == 0);
        let ghost last = e;
        e.shift_low();
        proof {
            assert(e.out@ == last.digits());
            assert(last.value() == 256 * (256 * (256 * (256 * c.low))));
            assert(be_value(last.digits()) * 0x1_0000_0000 == c.low * 0x1_0000_0000);
        }
        e.out
    }
}

// ---------------------------------------------------------------------------
// Order-1 byte model: 256 contexts (previous byte), a 256-node bit tree each
// ---------------------------------------------------------------------------

struct ByteModel {
    probs: Vec<u16>,
}

impl ByteModel {
    fn new() -> (m: Self)
        ensures
            m.probs@ == fresh_model(),
    {
        let m = ByteModel { probs: vec![PROB_INIT; 65536] };
        assert(m.probs@ =~= fresh_model());
        m
    }

    fn encode(&mut self, enc: &mut RangeEncoder, ctx: u8, byte: u8, Ghost(c): Ghost<Coder>)
        requires
            model_ok(old(self).probs@),
            old(enc).models(c),
            c.shifts + 8 < 0x1_0000_0000_0000_0000_0000,
        ensures
            model_ok(final(self).probs@),
            ({
                let (c2, probs2) = coder_tree(
                    c,
                    old(self).probs@,
                    (ctx * 256) as nat,
                    1,
                    byte,
                    8,
                );
                &&& final(self).probs@ == probs2
                &&& final(enc).models(c2)
                &&& c2.shifts <= c.shifts + 8
            }),
    {
        let base: usize = ctx as usize * 256;
        let mut node: usize = 1;
        let mut k: u32 = 8;
        let mut scale: u32 = 256;
        let ghost mut at = c;
        let ghost whole = coder_tree(c, self.probs@, base as nat, 1, byte, 8);
        proof {
            lemma_root(byte);
            lemma2_to64();
        }
        while k > 0
            invariant
                k <= 8,
                scale == pow2(k as nat),
                base == ctx * 256,
                1 <= node,
                node * pow2(k as nat) + byte as nat % pow2(k as nat) == 256 + byte,
                model_ok(self.probs@),
                enc.models(at),
                at.shifts + k <= c.shifts + 8,
                c.shifts + 8 < 0x1_0000_0000_0000_0000_0000,
                coder_tree(at, self.probs@, base as nat, node as nat, byte, k as nat) == whole,
            decreases k,
        {
            proof {
                lemma_tree_node(node as nat, byte, k as nat);
                lemma_pow2_adds((k - 1) as nat, 1);
                lemma2_to64();
            }
            k = k - 1;
            scale = scale / 2;
            proof {
                lemma_pow2_pos(k as nat);
            }
            let bit: bool = (byte as u32 / scale) % 2 == 1;
            let p: u16 = self.probs[base + node];
            let next: u16 = enc.encode_bit(p, bit, Ghost(at));
            proof {
                lemma_adapted_ok(p, bit);
                lemma_coder_bit_ok(at, p, bit);
                at = coder_bit(at, p, bit);
            }
            self.probs[base + node] = next;
            node = 2 * node + (if bit {
                1
            } else {
                0
            });
        }
    }

    fn decode(&mut self, dec: &mut RangeDecoder, ctx: u8) -> (byte: u8)
        requires
            model_ok(old(self).probs@),
            old(dec).ok(),
        ensures
            model_ok(final(self).probs@),
            final(dec).ok(),
            ({
                let (d2, probs2, node) = read_tree(
                    old(dec).state(),
                    old(self).probs@,
                    (ctx * 256) as nat,
                    1,
                    8,
                );
                &&& final(self).probs@ == probs2
                &&& final(dec).state() == d2
                &&& byte == (node % 256) as u8
            }),
    {
        let base: usize = ctx as usize * 256;
        let mut node: usize = 1;
        let mut k: u32 = 8;
        let ghost whole = read_tree(dec.state(), self.probs@, base as nat, 1, 8);
        proof {
            lemma2_to64();
        }
        while k > 0
            invariant
                k <= 8,
                base == ctx * 256,
                1 <= node < pow2((9 - k) as nat),
                model_ok(self.probs@),
                dec.ok(),
                read_tree(dec.state(), self.probs@, base as nat, node as nat, k as nat) == whole,
            decreases k,
        {
            proof {
                lemma2_to64();
                lemma_pow2_adds((9 - k) as nat, 1);
                if k > 1 {
                    lemma_pow2_strictly_increases((9 - k) as nat, 8);
                }
            }
            let p: u16 = self.probs[base + node];
            let ghost d = dec.state();
            let bit: bool = dec.decode_bit(p);
            let next: u16 = if bit {
                p - p / 32
            } else {
                p + (2048 - p) / 32
            };
            proof {
                lemma_adapted_ok(p, bit);
            }
            self.probs[base + node] = next;
            node = 2 * node + (if bit {
                1
            } else {
                0
            });
            k = k - 1;
        }
        (node % 256) as u8
    }
}

// ---------------------------------------------------------------------------
// Decoder
// ---------------------------------------------------------------------------

struct RangeDecoder<'a> {
    code: u32,
    range: u32,
    input: &'a [u8],
    pos: usize,
}

impl<'a> RangeDecoder<'a> {
    spec fn state(&self) -> Reading {
        Reading {
            code: self.code as nat,
            range: self.range as nat,
            rest: self.input@.skip(self.pos as int),
        }
    }

    spec fn ok(&self) -> bool {
        self.pos <= self.input.len() && self.range >= RANGE_TOP
    }

    fn new(input: &'a [u8]) -> (d: Self)
        ensures
            d.ok(),
            d.state() == reading_start(input@),
    {
        let mut d = RangeDecoder { code: 0, range: 0xFFFF_FFFF, input, pos: 0 };
        assert(input@.skip(0) =~= input@);
        let _ = d.next_byte();
        let b1 = d.next_byte();
        let b2 = d.next_byte();
        let b3 = d.next_byte();
        let b4 = d.next_byte();
        d.code = ((b1 * 256 + b2) * 256 + b3) * 256 + b4;
        d
    }

    /// Reads past the end yield 0; the encoder's flush writes enough bytes for
    /// every decoded symbol.
    fn next_byte(&mut self) -> (b: u32)
        requires
            old(self).ok(),
        ensures
            final(self).ok(),
            b == next_byte(old(self).state().rest),
            b < 256,
            final(self).state().rest == after_byte(old(self).state().rest),
            final(self).code == old(self).code,
            final(self).range == old(self).range,
            final(self).input == old(self).input,
    {
        if self.pos < self.input.len() {
            let b = self.input[self.pos];
            assert(self.input@.skip(self.pos as int).drop_first() =~= self.input@.skip(
                self.pos + 1,
            ));
            self.pos = self.pos + 1;
            b as u32
        } else {
            0
        }
    }

    fn decode_bit(&mut self, prob: u16) -> (bit: bool)
        requires
            old(self).ok(),
            prob_ok(prob),
        ensures
            final(self).ok(),
            bit == read_bit(old(self).state(), prob),
            final(self).state() == after_bit(old(self).state(), prob),
    {
        proof {
            lemma_share_bounds(self.range as nat, prob);
            let q = (self.range / 2048) as nat;
            assert(q * prob == zero_share(self.range as nat, prob));
        }
        let bound: u32 = (self.range / 2048) * prob as u32;
        let bit = self.code >= bound;
        if bit {
            self.code = self.code - bound;
            self.range = self.range - bound;
        } else {
            self.range = bound;
        }
        if self.range < RANGE_TOP {
            let code: u64 = self.code as u64;
            let range: u32 = self.range * 256;
            self.range = range;
            let b = self.next_byte();
            self.code = ((code * 256 + b as u64) % 0x1_0000_0000) as u32;
        }
        bit
    }
}

// ---------------------------------------------------------------------------
// Byte streams
// ---------------------------------------------------------------------------

/// The last `n` big-endian digits of `v`.
pub open spec fn be_bytes(v: nat, n: nat) -> Seq<u8>
    decreases n,
{
    if n == 0 {
        Seq::empty()
    } else {
        be_bytes(v / 256, (n - 1) as nat).push((v % 256) as u8)
    }
}

/// The range-coded form of `src`: its length, then the low end of the interval that
/// its bytes narrow, in as many digits as were shifted out and five more.
pub open spec fn rc_image(src: Seq<u8>) -> Seq<u8> {
    let c = coder_bytes(coder_start(), fresh_model(), 0, src);
    varint::varint_bytes(src.len()) + be_bytes(c.low, c.shifts + 5)
}

/// Digits are those of the number they spell.
proof fn lemma_be_digits(s: Seq<u8>)
    ensures
        be_bytes(be_value(s), s.len()) == s,
    decreases s.len(),
{
    if s.len() == 0 {
        assert(be_bytes(be_value(s), 0) =~= s);
    } else {
        lemma_be_digits(s.drop_last());
        let v = be_value(s.drop_last());
        assert((v * 256 + s.last()) as nat / 256 == v);
        assert((v * 256 + s.last()) as nat % 256 == s.last());
        assert(s.drop_last().push(s.last()) =~= s);
    }
}

/// Range-code `src`.
pub fn compress_bytes(src: &[u8]) -> (out: Vec<u8>)
    ensures
        out@ == rc_image(src@),
        forall|max_len: nat|
            max_len >= src.len() ==> #[trigger] rc_decoded(out@, max_len) == Ok::<_, Error>(src@),
{
    let mut out: Vec<u8> = Vec::new();
    varint::write_u64(&mut out, src.len() as u64);
    let ghost head = out@;
    let mut enc = RangeEncoder::new();
    let mut model = ByteModel::new();
    let mut ctx: u8 = 0;
    let mut i: usize = 0;
    let ghost mut c = coder_start();
    let ghost whole = coder_bytes(c, model.probs@, 0, src@);
    assert(src@.skip(0) =~= src@);
    while i < src.len()
        invariant
            i <= src.len(),
            model_ok(model.probs@),
            enc.models(c),
            c.shifts <= 8 * i,
            coder_bytes(c, model.probs@, ctx, src@.skip(i as int)) == whole,
        decreases src.len() - i,
    {
        let b = src[i];
        let ghost probs = model.probs@;
        proof {
            assert(src@.skip(i as int).drop_first() =~= src@.skip(i + 1));
        }
        model.encode(&mut enc, ctx, b, Ghost(c));
        proof {
            c = coder_tree(c, probs, (ctx * 256) as nat, 1, b, 8).0;
        }
        ctx = b;
        i = i + 1;
    }
    let coded = enc.finish(Ghost(c));
    out.extend_from_slice(&coded);
    proof {
        assert(out@ =~= head + coded@);
        lemma_stream_inverts(src@, coded@);
        varint::lemma_varint_roundtrip(src.len() as u64, coded@);
        assert(head =~= varint::varint_bytes(src.len() as nat));
        assert(src@.skip(src.len() as int) =~= Seq::empty());
        lemma_be_digits(coded@);
    }
    out
}

/// Inverse of [`compress_bytes`]. `max_len` bounds the declared length.
pub fn decompress_bytes(src: &[u8], max_len: usize) -> (r: Result<Vec<u8>, Error>)
    ensures
        error::viewed(r) == rc_decoded(src@, max_len as nat),
{
    let mut pos: usize = 0;
    assert(src@.skip(0) =~= src@);
    let len: u64 = match varint::read_u64(src, &mut pos) {
        Ok(v) => v,
        Err(e) => return Err(e),
    };
    if len > max_len as u64 {
        return Err(Error::CorruptPayload("range-coder length exceeds bound"));
    }
    let mut dec = RangeDecoder::new(crate::bytes::tail(src, pos));
    let mut model = ByteModel::new();
    let mut out: Vec<u8> = Vec::new();
    let mut ctx: u8 = 0;
    let mut i: u64 = 0;
    let ghost whole = read_bytes(dec.state(), model.probs@, 0, len as nat);
    assert(out@ + whole =~= whole);
    while i < len
        invariant
            i <= len,
            model_ok(model.probs@),
            dec.ok(),
            out@ + read_bytes(dec.state(), model.probs@, ctx, (len - i) as nat) == whole,
        decreases len - i,
    {
        let ghost d = dec.state();
        let ghost probs = model.probs@;
        let ghost before = out@;
        let b = model.decode(&mut dec, ctx);
        out.push(b);
        proof {
            let t = read_bytes(dec.state(), model.probs@, b, (len - i - 1) as nat);
            assert(before + (seq![b] + t) =~= out@ + t);
        }
        ctx = b;
        i = i + 1;
    }
    assert(out@ + Seq::<u8>::empty() =~= out@);
    Ok(out)
}

} // verus!
