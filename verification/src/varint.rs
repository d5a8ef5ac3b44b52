//! Unsigned LEB128 varints over `u64`: seven bits per byte, least significant
//! group first, the high bit set on every byte but the last.

use vstd::prelude::*;
use vstd::arithmetic::power2::*;
use crate::error::Error;

verus! {

/// The varint of `v`.
pub open spec fn varint_bytes(v: nat) -> Seq<u8>
    decreases v,
{
    if v < 128 {
        seq![v as u8]
    } else {
        seq![(128 + v % 128) as u8] + varint_bytes(v / 128)
    }
}

/// Read the groups of a varint at the front of `s`, `groups` of them already
/// consumed: the number they spell and what follows them. A tenth continuation
/// byte is an overflow.
pub open spec fn varint_groups(s: Seq<u8>, groups: nat) -> Result<(nat, Seq<u8>), Error>
    decreases s.len(),
{
    if s.len() == 0 {
        Err(Error::Truncated)
    } else if s[0] < 128 {
        Ok((s[0] as nat, s.drop_first()))
    } else if groups >= 9 {
        Err(Error::CorruptPayload("leb128 overflow"))
    } else {
        match varint_groups(s.drop_first(), groups + 1) {
            Ok((v, rest)) => Ok(((s[0] - 128) as nat + 128 * v, rest)),
            Err(e) => Err(e),
        }
    }
}

/// The varint at the front of `s` (modulo `2^64`) and the bytes that follow it.
pub open spec fn varint_parse(s: Seq<u8>) -> Result<(u64, Seq<u8>), Error> {
    match varint_groups(s, 0) {
        Ok((v, rest)) => Ok(((v % 0x1_0000_0000_0000_0000) as u64, rest)),
        Err(e) => Err(e),
    }
}

proof fn lemma_pow128_step(i: nat)
    ensures
        pow2(7 * (i + 1)) == 128 * pow2(7 * i),
        pow2(7 * i) > 0,
{
    lemma_pow2_adds(7 * i, 7);
    lemma2_to64();
    lemma_pow2_pos(7 * i);
}

proof fn lemma_groups_roundtrip(v: nat, groups: nat, rest: Seq<u8>)
    requires
        groups <= 9,
        v < pow2((7 * (10 - groups)) as nat),
    ensures
        varint_groups(varint_bytes(v) + rest, groups) == Ok::<_, Error>((v, rest)),
    decreases v,
{
    let s = varint_bytes(v) + rest;
    if v < 128 {
        assert(s.drop_first() =~= rest);
    } else {
        lemma2_to64();
        lemma_pow128_step((9 - groups) as nat);
        assert(groups < 9) by {
            if groups == 9 {
                assert(pow2(7) == 128);
            }
        }
        lemma_groups_roundtrip(v / 128, groups + 1, rest);
        assert(s.drop_first() =~= varint_bytes(v / 128) + rest);
        assert(s[0] == (128 + v % 128) as u8);
    }
}

/// A varint read back from the front of a stream is the number that was
/// written, and leaves what followed it.
pub proof fn lemma_varint_roundtrip(v: u64, rest: Seq<u8>)
    ensures
        varint_parse(varint_bytes(v as nat) + rest) == Ok::<_, Error>((v, rest)),
{
    lemma2_to64_rest();
    lemma_pow2_strictly_increases(64, 70);
    assert(pow2(64) == 0x1_0000_0000_0000_0000);
    lemma_groups_roundtrip(v as nat, 0, rest);
}

/// A larger number takes no fewer bytes.
pub proof fn lemma_varint_mono(a: nat, b: nat)
    requires
        a <= b,
    ensures
        varint_bytes(a).len() <= varint_bytes(b).len(),
    decreases b,
{
    if a >= 128 {
        lemma_varint_mono(a / 128, b / 128);
    }
}

/// A varint is one to ten bytes long.
pub proof fn lemma_varint_len(v: u64)
    ensures
        1 <= varint_bytes(v as nat).len() <= 10,
{
    reveal_with_fuel(varint_bytes, 10);
}

/// A number of at most 32 bits takes at most five bytes.
pub proof fn lemma_varint_narrow(v: nat)
    requires
        v < 0x1_0000_0000,
    ensures
        varint_bytes(v).len() <= 5,
{
    reveal_with_fuel(varint_bytes, 5);
}

/// A number of at most 21 bits takes at most three bytes.
pub proof fn lemma_varint_short(v: nat)
    requires
        v < 0x20_0000,
    ensures
        varint_bytes(v).len() <= 3,
{
    reveal_with_fuel(varint_bytes, 4);
}

/// What a parse leaves is a proper suffix of what it was given.
pub proof fn lemma_varint_suffix(s: Seq<u8>, groups: nat)
    ensures
        varint_groups(s, groups) matches Ok((_, rest)) ==> rest.len() < s.len() && rest == s.skip(
            s.len() - rest.len(),
        ),
    decreases s.len(),
{
    if s.len() > 0 {
        lemma_varint_suffix(s.drop_first(), groups + 1);
        if let Ok((_, rest)) = varint_groups(s, groups) {
            assert(rest =~= s.skip(s.len() - rest.len()));
        }
    }
}

/// Append `v` to `out` as an unsigned LEB128 varint (1..=10 bytes).
pub fn write_u64(out: &mut Vec<u8>, v: u64)
    ensures
        final(out)@ == old(out)@ + varint_bytes(v as nat),
{
    let mut rest: u64 = v;
    let ghost start = out@;
    while rest >= 128
        invariant
            out@ + varint_bytes(rest as nat) == start + varint_bytes(v as nat),
        decreases rest,
    {
        let b: u8 = (128 + rest % 128) as u8;
        let ghost before = out@;
        let ghost t = varint_bytes((rest / 128) as nat);
        out.push(b);
        assert(varint_bytes(rest as nat) == seq![b] + t);
        assert(before.push(b) + t =~= before + (seq![b] + t));
        rest = rest / 128;
    }
    let ghost before = out@;
    out.push(rest as u8);
    assert(out@ =~= before + varint_bytes(rest as nat));
}

proof fn lemma_group_step(acc: nat, i: nat, low: nat, v: nat)
    ensures
        acc + pow2(7 * i) * (low + 128 * v) == (acc + pow2(7 * i) * low) + pow2(7 * (i + 1)) * v,
{
    lemma_pow128_step(i);
    let p = pow2(7 * i);
    assert(p * (low + 128 * v) == p * low + (128 * p) * v) by (nonlinear_arith);
}

proof fn lemma_last_group(low: nat)
    requires
        low < 128,
    ensures
        (pow2(63) * low) % 0x1_0000_0000_0000_0000 == pow2(63) * (low % 2),
        pow2(63) == 0x8000_0000_0000_0000,
{
    lemma2_to64_rest();
    assert(low == 2 * (low / 2) + low % 2);
    let h = low / 2;
    let b = low % 2;
    assert(0x8000_0000_0000_0000 * (2 * h + b) == 0x1_0000_0000_0000_0000 * h
        + 0x8000_0000_0000_0000 * b);
}

/// Read an unsigned LEB128 varint starting at `*pos`, advancing `*pos` past it.
pub fn read_u64(input: &[u8], pos: &mut usize) -> (r: Result<u64, Error>)
    requires
        *old(pos) <= input.len(),
    ensures
        *old(pos) <= *final(pos) <= input.len(),
        match varint_parse(input@.skip(*old(pos) as int)) {
            Ok((v, rest)) => r == Ok::<_, Error>(v) && *old(pos) < *final(pos) && rest
                == input@.skip(*final(pos) as int),
            Err(e) => r == Err::<u64, _>(e),
        },
{
    let ghost whole = varint_groups(input@.skip(*pos as int), 0);
    let mut acc: u64 = 0;
    let mut scale: u64 = 1;
    let mut groups: u32 = 0;
    proof {
        lemma2_to64();
    }
    loop
        invariant
            *old(pos) <= *pos <= input.len(),
            groups <= 9,
            groups > 0 ==> *old(pos) < *pos,
            scale == pow2((7 * groups) as nat),
            acc < scale,
            whole == varint_groups(input@.skip(*old(pos) as int), 0),
            match varint_groups(input@.skip(*pos as int), groups as nat) {
                Ok((v, rest)) => whole == Ok::<(nat, Seq<u8>), Error>(
                    ((acc + scale * v) as nat, rest),
                ),
                Err(e) => whole == Err::<(nat, Seq<u8>), Error>(e),
            },
        decreases 10 - groups,
    {
        if *pos >= input.len() {
            return Err(Error::Truncated);
        }
        let byte = input[*pos];
        let ghost here = input@.skip(*pos as int);
        assert(here.drop_first() =~= input@.skip(*pos + 1));
        *pos = *pos + 1;
        let low: u64 = (byte % 128) as u64;
        let ghost old_acc = acc as nat;
        proof {
            lemma2_to64_rest();
            lemma_pow128_step(groups as nat);
            assert(scale * low <= scale * 127) by (nonlinear_arith)
                requires
                    low <= 127,
            ;
            if groups < 9 {
                lemma_pow2_strictly_increases((7 * (groups + 1)) as nat, 64);
            }
        }
        if groups == 9 {
            // Only the lowest bit of a tenth group fits the word.
            acc = acc + (low % 2) * 0x8000_0000_0000_0000u64;
            if byte < 128 {
                proof {
                    lemma_last_group(low as nat);
                    let full = old_acc + scale * low;
                    let m = 0x1_0000_0000_0000_0000nat;
                    vstd::arithmetic::div_mod::lemma_add_mod_noop(
                        old_acc as int,
                        (scale * low) as int,
                        m as int,
                    );
                    assert((full as nat) % m == acc as nat) by {
                        vstd::arithmetic::div_mod::lemma_small_mod(old_acc, m);
                        vstd::arithmetic::div_mod::lemma_small_mod(acc as nat, m);
                    }
                }
                return Ok(acc);
            }
            return Err(Error::CorruptPayload("leb128 overflow"));
        }
        acc = acc + low * scale;
        if byte < 128 {
            proof {
                assert(scale * low == low * scale) by (nonlinear_arith);
                vstd::arithmetic::div_mod::lemma_small_mod(acc as nat, 0x1_0000_0000_0000_0000);
            }
            return Ok(acc);
        }
        proof {
            assert(scale * low == low * scale) by (nonlinear_arith);
            if let Ok((v, _)) = varint_groups(input@.skip(*pos as int), (groups + 1) as nat) {
                lemma_group_step(old_acc, groups as nat, low as nat, v);
            }
        }
        scale = scale * 128;
        groups = groups + 1;
    }
}

} // verus!
