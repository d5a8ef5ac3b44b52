//! Most-significant-bit-first bit writer and reader.

use vstd::prelude::*;
use vstd::arithmetic::div_mod::*;
use vstd::arithmetic::power2::*;

verus! {

/// The low `n` bits of `v`, most significant first.
pub open spec fn bits_of(v: nat, n: nat) -> Seq<bool>
    decreases n,
{
    if n == 0 {
        Seq::empty()
    } else {
        bits_of(v / 2, (n - 1) as nat).push(v % 2 == 1)
    }
}

/// The number whose bits, most significant first, are `s`.
pub open spec fn bits_value(s: Seq<bool>) -> nat
    decreases s.len(),
{
    if s.len() == 0 {
        0
    } else {
        2 * bits_value(s.drop_last()) + (if s.last() {
            1nat
        } else {
            0nat
        })
    }
}

/// The bits of a byte stream.
pub open spec fn stream_bits(s: Seq<u8>) -> Seq<bool>
    decreases s.len(),
{
    if s.len() == 0 {
        Seq::empty()
    } else {
        bits_of(s[0] as nat, 8) + stream_bits(s.drop_first())
    }
}

/// `n` zero bits.
pub open spec fn zero_bits(n: nat) -> Seq<bool> {
    Seq::new(n, |i: int| false)
}

/// The first `n` bits of `s`, zeros standing in for missing ones.
pub open spec fn front_bits(s: Seq<bool>, n: nat) -> Seq<bool> {
    Seq::new(n, |i: int| i < s.len() && s[i])
}

/// What follows the first `n` bits of `s`.
pub open spec fn after_bits(s: Seq<bool>, n: nat) -> Seq<bool> {
    if n <= s.len() {
        s.skip(n as int)
    } else {
        Seq::empty()
    }
}

/// The bits of a number are as many as were asked for, and spell the number
/// again when it fits them.
pub proof fn lemma_bits_roundtrip(v: nat, n: nat)
    ensures
        bits_of(v, n).len() == n,
        v < pow2(n) ==> bits_value(bits_of(v, n)) == v,
    decreases n,
{
    lemma2_to64();
    if n > 0 {
        lemma_pow2_adds((n - 1) as nat, 1);
        lemma_bits_roundtrip(v / 2, (n - 1) as nat);
        assert(bits_of(v, n).drop_last() =~= bits_of(v / 2, (n - 1) as nat));
    }
}

/// The bits of a number split into those of its high part and those of its low
/// part.
pub proof fn lemma_bits_concat(a: nat, m: nat, v: nat, n: nat)
    requires
        v < pow2(n),
    ensures
        bits_of(a * pow2(n) + v, m + n) == bits_of(a, m) + bits_of(v, n),
    decreases n,
{
    lemma2_to64();
    lemma_bits_roundtrip(v, n);
    if n == 0 {
        assert(a * pow2(0) == a) by (nonlinear_arith)
            requires
                pow2(0) == 1,
        ;
        assert(bits_of(a, m) + bits_of(v, 0) =~= bits_of(a, m));
    } else {
        let h = pow2((n - 1) as nat);
        lemma_pow2_adds((n - 1) as nat, 1);
        let x = a * pow2(n) + v;
        assert(a * (2 * h) == 2 * (a * h)) by (nonlinear_arith);
        assert(x / 2 == a * h + v / 2);
        assert(x % 2 == v % 2);
        lemma_bits_concat(a, m, v / 2, (n - 1) as nat);
        assert((m + n - 1) as nat == m + (n - 1) as nat);
        assert(bits_of(x, m + n) =~= bits_of(a, m) + bits_of(v, n));
    }
}

/// Only the low `n` bits of a number matter.
pub proof fn lemma_bits_low(v: nat, n: nat)
    ensures
        bits_of(v, n) == bits_of(v % pow2(n), n),
{
    lemma_pow2_pos(n);
    lemma_fundamental_div_mod(v as int, pow2(n) as int);
    let q = v / pow2(n);
    lemma_bits_concat(q, 0, v % pow2(n), n);
    assert(q * pow2(n) == pow2(n) * q) by (nonlinear_arith);
    assert(bits_of(q, 0) + bits_of(v % pow2(n), n) =~= bits_of(v % pow2(n), n));
}

/// Bit `k` of the `n` bits of a number.
pub proof fn lemma_bits_index(v: nat, n: nat, k: int)
    requires
        0 <= k < n,
    ensures
        bits_of(v, n).len() == n,
        bits_of(v, n)[k] == ((v / pow2((n - 1 - k) as nat)) % 2 == 1),
    decreases n,
{
    lemma_bits_roundtrip(v, n);
    lemma2_to64();
    if k < n - 1 {
        lemma_bits_roundtrip(v / 2, (n - 1) as nat);
        lemma_bits_index(v / 2, (n - 1) as nat, k);
        let m = (n - 2 - k) as nat;
        lemma_pow2_adds(m, 1);
        lemma_pow2_pos(m);
        lemma_div_denominator(v as int, 2, pow2(m) as int);
        assert((n - 1 - k) as nat == m + 1);
        assert(bits_of(v, n)[k] == bits_of(v / 2, (n - 1) as nat)[k]);
    } else {
        assert((n - 1 - k) as nat == 0);
        assert(v / 1 == v);
    }
}

/// The bits of the number that some bits spell are those bits.
pub proof fn lemma_value_roundtrip(s: Seq<bool>)
    ensures
        bits_of(bits_value(s), s.len()) == s,
        bits_value(s) < pow2(s.len()),
    decreases s.len(),
{
    lemma2_to64();
    if s.len() > 0 {
        lemma_value_roundtrip(s.drop_last());
        lemma_pow2_adds((s.len() - 1) as nat, 1);
        assert(bits_of(bits_value(s), s.len()) =~= s);
    } else {
        assert(bits_of(bits_value(s), s.len()) =~= s);
    }
}

proof fn lemma_bits_zero(n: nat)
    ensures
        bits_of(0, n) == zero_bits(n),
    decreases n,
{
    if n > 0 {
        lemma_bits_zero((n - 1) as nat);
    }
    assert(bits_of(0, n) =~= zero_bits(n));
}

proof fn lemma_stream_push(s: Seq<u8>, b: u8)
    ensures
        stream_bits(s.push(b)) == stream_bits(s) + bits_of(b as nat, 8),
    decreases s.len(),
{
    let t = s.push(b);
    if s.len() == 0 {
        assert(t.drop_first() =~= Seq::empty());
        assert(stream_bits(Seq::<u8>::empty()) == Seq::<bool>::empty());
        assert(stream_bits(t) =~= stream_bits(s) + bits_of(b as nat, 8));
    } else {
        lemma_stream_push(s.drop_first(), b);
        assert(t.drop_first() =~= s.drop_first().push(b));
        assert(stream_bits(t) =~= stream_bits(s) + bits_of(b as nat, 8));
    }
}

/// `2^n` as a machine word.
pub fn two_to(n: u32) -> (r: u64)
    requires
        n < 64,
    ensures
        r == pow2(n as nat),
        r > 0,
{
    proof {
        vstd::bits::lemma_u64_pow2_no_overflow(n as nat);
        vstd::bits::lemma_u64_shl_is_mul(1, n as u64);
    }
    1u64 << n
}

/// Writes bits most-significant-first into a byte buffer.
pub struct BitWriter {
    out: Vec<u8>,
    acc: u64,
    nbits: u32,
}

impl BitWriter {
    /// The bits written so far.
    pub closed spec fn bits(&self) -> Seq<bool> {
        stream_bits(self.out@) + bits_of(self.acc as nat, self.nbits as nat)
    }

    /// Fewer than eight bits wait for a full byte.
    pub closed spec fn wf(&self) -> bool {
        self.nbits < 8 && self.acc < pow2(self.nbits as nat)
    }

    pub fn new() -> (w: Self)
        ensures
            w.wf(),
            w.bits() == Seq::<bool>::empty(),
    {
        proof {
            lemma2_to64();
        }
        let w = BitWriter { out: Vec::new(), acc: 0, nbits: 0 };
        assert(w.bits() =~= Seq::<bool>::empty());
        w
    }

    /// Append the low `bits` bits of `val`.
    pub fn put(&mut self, val: u64, bits: u32)
        requires
            old(self).wf(),
            bits <= 57,
        ensures
            final(self).wf(),
            final(self).bits() == old(self).bits() + bits_of(val as nat, bits as nat),
    {
        if bits == 0 {
            assert(self.bits() + bits_of(val as nat, 0) =~= self.bits());
            return;
        }
        let scale: u64 = two_to(bits);
        let low: u64 = val % scale;
        let ghost before = *self;
        let ghost target = before.bits() + bits_of(val as nat, bits as nat);
        proof {
            lemma_pow2_adds(self.nbits as nat, bits as nat);
            lemma2_to64();
            lemma2_to64_rest();
            lemma_pow2_mono((self.nbits + bits) as nat, 64);
            lemma_bits_low(val as nat, bits as nat);
            lemma_bits_concat(self.acc as nat, self.nbits as nat, low as nat, bits as nat);
            let (a, s, p) = (self.acc as int, scale as int, pow2(self.nbits as nat) as int);
            assert(a * s + s <= p * s) by (nonlinear_arith)
                requires
                    a + 1 <= p,
                    s >= 0,
            ;
        }
        self.acc = self.acc * scale + low;
        self.nbits = self.nbits + bits;
        proof {
            assert(stream_bits(self.out@) + bits_of(self.acc as nat, self.nbits as nat) =~= target);
        }
        while self.nbits >= 8
            invariant
                self.nbits <= 64,
                self.acc < pow2(self.nbits as nat),
                stream_bits(self.out@) + bits_of(self.acc as nat, self.nbits as nat) == target,
            decreases self.nbits,
        {
            let rest: u32 = self.nbits - 8;
            let scale: u64 = two_to(rest);
            let byte: u64 = self.acc / scale;
            let low: u64 = self.acc % scale;
            proof {
                lemma2_to64();
                lemma_pow2_adds(rest as nat, 8);
                lemma_fundamental_div_mod(self.acc as int, scale as int);
                assert(byte < 256) by (nonlinear_arith)
                    requires
                        self.acc == scale * byte + low,
                        self.acc < scale * 256,
                        0 <= low,
                        scale > 0,
                ;
                assert(scale * byte == byte * scale) by (nonlinear_arith);
                lemma_bits_concat(byte as nat, 8, low as nat, rest as nat);
                lemma_stream_push(self.out@, byte as u8);
                let (sb, bb, lb) = (
                    stream_bits(self.out@),
                    bits_of(byte as nat, 8),
                    bits_of(low as nat, rest as nat),
                );
                assert(sb + (bb + lb) =~= (sb + bb) + lb);
            }
            self.out.push(byte as u8);
            self.nbits = rest;
            self.acc = low;
        }
    }

    /// Flush a partial final byte, padded with zero bits, and return the buffer.
    pub fn finish(self) -> (out: Vec<u8>)
        requires
            self.wf(),
        ensures
            exists|pad: nat|
                pad < 8 && #[trigger] zero_bits(pad).len() == pad && stream_bits(out@)
                    == self.bits() + zero_bits(pad),
    {
        let mut out = self.out;
        let ghost full = self.bits();
        if self.nbits > 0 {
            let pad: u32 = 8 - self.nbits;
            let scale: u64 = two_to(pad);
            proof {
                lemma2_to64();
                lemma_pow2_adds(self.nbits as nat, pad as nat);
                lemma_pow2_pos(pad as nat);
                let (a, s, p) = (self.acc as int, scale as int, pow2(self.nbits as nat) as int);
                assert(a * s + s <= p * s) by (nonlinear_arith)
                    requires
                        a + 1 <= p,
                        s >= 0,
                ;
                lemma_bits_concat(self.acc as nat, self.nbits as nat, 0, pad as nat);
                lemma_bits_zero(pad as nat);
            }
            let byte: u64 = self.acc * scale;
            proof {
                lemma_stream_push(out@, byte as u8);
            }
            out.push(byte as u8);
            assert(stream_bits(out@) =~= full + zero_bits(pad as nat));
            assert(zero_bits(pad as nat).len() == pad);
        } else {
            assert(stream_bits(out@) =~= full + zero_bits(0));
            assert(zero_bits(0).len() == 0);
        }
        out
    }
}

pub proof fn lemma_pow2_mono(a: nat, b: nat)
    requires
        a <= b,
    ensures
        pow2(a) <= pow2(b),
{
    if a < b {
        lemma_pow2_strictly_increases(a, b);
    }
}

/// Reads bits most-significant-first. Reads past the end yield zero bits.
pub struct BitReader<'a> {
    data: &'a [u8],
    pos: usize,
    acc: u64,
    nbits: u32,
    /// How many of the loaded bits lie past the end of the data.
    past: Ghost<nat>,
}

impl<'a> BitReader<'a> {
    spec fn loaded(&self) -> Seq<bool> {
        bits_of(self.acc as nat, self.nbits as nat) + stream_bits(
            self.data@.skip(self.pos as int),
        )
    }

    /// The bits still unread.
    pub closed spec fn bits(&self) -> Seq<bool> {
        self.loaded().take(self.loaded().len() - self.past@)
    }

    /// The loaded bits are the unread ones, followed by zeros past the end.
    pub closed spec fn wf(&self) -> bool {
        &&& self.pos <= self.data.len()
        &&& self.nbits <= 64
        &&& self.nbits < 64 ==> self.acc < pow2(self.nbits as nat)
        &&& self.past@ <= self.loaded().len()
        &&& self.past@ > 0 ==> self.pos == self.data.len()
        &&& self.loaded() == self.bits() + zero_bits(self.past@)
    }

    pub fn new(data: &'a [u8]) -> (r: Self)
        ensures
            r.wf(),
            r.bits() == stream_bits(data@),
    {
        proof {
            lemma2_to64();
        }
        let r = BitReader { data, pos: 0, acc: 0, nbits: 0, past: Ghost(0) };
        proof {
            assert(data@.skip(0) =~= data@);
            assert(r.bits() =~= stream_bits(data@));
            assert(r.loaded() =~= r.bits() + zero_bits(0));
        }
        r
    }

    /// Read the next `bits` bits as a number.
    pub fn get(&mut self, bits: u32) -> (v: u64)
        requires
            old(self).wf(),
            bits <= 57,
        ensures
            final(self).wf(),
            v == bits_value(front_bits(old(self).bits(), bits as nat)),
            v < pow2(bits as nat),
            final(self).bits() == after_bits(old(self).bits(), bits as nat),
    {
        let ghost unread = self.bits();
        if bits == 0 {
            proof {
                lemma2_to64();
                assert(front_bits(unread, 0) =~= Seq::<bool>::empty());
                assert(after_bits(unread, 0) =~= unread);
            }
            return 0;
        }
        while self.nbits < bits
            invariant
                self.wf(),
                self.bits() == unread,
                bits <= 57,
            decreases bits + 8 - self.nbits,
        {
            proof {
                lemma2_to64();
                lemma2_to64_rest();
                lemma_pow2_adds(self.nbits as nat, 8);
                lemma_pow2_mono(self.nbits as nat + 8, 64);
            }
            let ghost before = *self;
            if self.pos < self.data.len() {
                let byte = self.data[self.pos];
                proof {
                    let here = self.data@.skip(self.pos as int);
                    assert(here.drop_first() =~= self.data@.skip(self.pos + 1));
                    lemma_bits_concat(self.acc as nat, self.nbits as nat, byte as nat, 8);
                }
                self.pos = self.pos + 1;
                self.acc = self.acc * 256 + byte as u64;
                self.nbits = self.nbits + 8;
                assert(self.loaded() =~= before.loaded());
            } else {
                proof {
                    assert(self.data@.skip(self.pos as int) =~= Seq::empty());
                    lemma_bits_concat(self.acc as nat, self.nbits as nat, 0, 8);
                    lemma_bits_zero(8);
                }
                self.acc = self.acc * 256;
                self.nbits = self.nbits + 8;
                self.past = Ghost(self.past@ + 8);
                proof {
                    assert(self.loaded() =~= before.loaded() + zero_bits(8));
                    assert(self.bits() =~= unread);
                    assert(self.loaded() =~= unread + zero_bits(self.past@));
                }
            }
        }
        let rest: u32 = self.nbits - bits;
        let scale: u64 = two_to(rest);
        let v: u64 = self.acc / scale;
        let low: u64 = self.acc % scale;
        let ghost before = *self;
        proof {
            lemma2_to64();
            lemma2_to64_rest();
            lemma_pow2_pos(rest as nat);
            lemma_pow2_adds(bits as nat, rest as nat);
            lemma_fundamental_div_mod(self.acc as int, scale as int);
            assert(v < pow2(bits as nat)) by (nonlinear_arith)
                requires
                    self.acc == scale * v + low,
                    self.acc < pow2(bits as nat) * scale,
                    0 <= low,
                    scale > 0,
            ;
            assert(scale * v == v * scale) by (nonlinear_arith);
            lemma_bits_concat(v as nat, bits as nat, low as nat, rest as nat);
            lemma_bits_roundtrip(v as nat, bits as nat);
            lemma_bits_roundtrip(low as nat, rest as nat);
        }
        self.acc = low;
        self.nbits = rest;
        proof {
            let got = bits_of(v as nat, bits as nat);
            assert(before.loaded() =~= got + self.loaded());
            let n = bits as int;
            let all = before.loaded();
            assert(self.loaded() =~= all.skip(n));
            assert(front_bits(unread, bits as nat) =~= got) by {
                assert forall|i: int| 0 <= i < n implies front_bits(unread, bits as nat)[i]
                    == got[i] by {
                    assert(all[i] == got[i]);
                    assert(all[i] == (unread + zero_bits(before.past@))[i]);
                }
            }
            if n > unread.len() {
                self.past = Ghost(self.loaded().len());
            }
            assert(self.bits() =~= after_bits(unread, bits as nat)) by {
                if n <= unread.len() {
                    assert forall|i: int| 0 <= i < unread.len() - n implies self.bits()[i]
                        == unread[n + i] by {
                        assert(all[n + i] == (unread + zero_bits(before.past@))[n + i]);
                    }
                }
            }
            assert(self.loaded() =~= self.bits() + zero_bits(self.past@)) by {
                assert forall|i: int| 0 <= i < self.loaded().len() implies self.loaded()[i] == (
                self.bits() + zero_bits(self.past@))[i] by {
                    assert(all[n + i] == (unread + zero_bits(before.past@))[n + i]);
                }
            }
        }
        v
    }
}

} // verus!
