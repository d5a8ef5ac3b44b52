//! Interleaved rANS: a fast order-0 entropy coder.
//!
//! Four independent states are interleaved over the symbol stream, so a decoder
//! has four parallel dependency chains. The model is a static frequency table
//! normalised to 12 bits; states are 32 bits wide and renormalise a byte at a
//! time. The wire format is
//!
//! ```text
//!   varint(n)
//!   varint(symbols present)
//!   (symbol u8, varint(frequency))*
//!   four states (u32 LE each)
//!   renormalisation bytes
//! ```

use vstd::prelude::*;
use vstd::arithmetic::div_mod::*;
use crate::bytes;
use crate::bytes::{read_le, write_le};
use crate::error::Error;
use crate::error;
use crate::varint;

verus! {

/// Total of a normalised frequency table.
pub const RANS_TOTAL: u32 = 4096;

/// Lower bound of a renormalised state.
pub const RANS_LOW: u32 = 8388608;

/// The total frequency of the symbols below `s`.
pub open spec fn cumulative(freq: Seq<u32>, s: nat) -> nat
    decreases s,
{
    if s == 0 {
        0
    } else {
        cumulative(freq, (s - 1) as nat) + freq[s - 1] as nat
    }
}

/// The first symbol from `s` on whose slots reach past `slot`, symbol 0 when
/// there is none.
pub open spec fn symbol_from(freq: Seq<u32>, slot: nat, s: nat) -> u8
    decreases 256 - s,
{
    if s >= 256 {
        0
    } else if slot < cumulative(freq, s + 1) {
        s as u8
    } else {
        symbol_from(freq, slot, s + 1)
    }
}

/// The symbol that owns `slot`.
pub open spec fn slot_symbol(freq: Seq<u32>, slot: nat) -> u8 {
    symbol_from(freq, slot, 0)
}

/// Refill a state from the stream until it reaches the lower bound.
pub open spec fn refilled(x: nat, s: Seq<u8>) -> Option<(nat, Seq<u8>)>
    decreases s.len(),
{
    if x >= RANS_LOW {
        Some((x, s))
    } else if s.len() == 0 {
        None
    } else {
        refilled(x * 256 + s[0] as nat, s.drop_first())
    }
}

/// One decoding step of a state before it is refilled.
pub open spec fn advanced(freq: Seq<u32>, x: nat) -> nat {
    let slot = x % 4096;
    let sym = slot_symbol(freq, slot);
    (freq[sym as int] * (x / 4096) + slot - cumulative(freq, sym as nat)) as nat
}

/// The symbols `i..n` decoded from states `x` and stream `s`; `None` when the
/// stream runs out.
pub open spec fn rans_symbols(freq: Seq<u32>, x: Seq<nat>, i: nat, n: nat, s: Seq<u8>) -> Option<
    Seq<u8>,
>
    decreases n - i,
{
    if i >= n {
        Some(Seq::empty())
    } else {
        let xi = x[(i % 4) as int];
        match refilled(advanced(freq, xi), s) {
            None => None,
            Some((next, rest)) => match rans_symbols(
                freq,
                x.update((i % 4) as int, next),
                i + 1,
                n,
                rest,
            ) {
                None => None,
                Some(t) => Some(seq![slot_symbol(freq, xi % 4096)] + t),
            },
        }
    }
}

/// Read `k` entries of a frequency table into `freq`, adding up the frequencies
/// as they come.
pub open spec fn rans_table(s: Seq<u8>, k: nat, freq: Seq<u32>, sum: nat) -> Result<
    (Seq<u32>, nat, Seq<u8>),
    Error,
>
    decreases k,
{
    if k == 0 {
        Ok((freq, sum, s))
    } else if s.len() == 0 {
        Err(Error::Truncated)
    } else {
        match varint::varint_parse(s.drop_first()) {
            Err(e) => Err(e),
            Ok((v, rest)) => {
                let f = (v % 0x1_0000_0000) as u32;
                if f == 0 || f > RANS_TOTAL {
                    Err(Error::CorruptPayload("rans frequency"))
                } else {
                    rans_table(rest, (k - 1) as nat, freq.update(s[0] as int, f), sum + f as nat)
                }
            },
        }
    }
}

/// The four states at the front of `s`.
pub open spec fn rans_states(s: Seq<u8>) -> Seq<nat> {
    Seq::new(4, |j: int| bytes::le_value(s.subrange(4 * j, 4 * j + 4)))
}

/// The bytes coded by `payload`, at most `max_len` of them.
pub open spec fn rans_decoded(payload: Seq<u8>, max_len: nat) -> Result<Seq<u8>, Error> {
    match varint::varint_parse(payload) {
        Err(e) => Err(e),
        Ok((n, s1)) => if n > max_len {
            Err(Error::CorruptPayload("rans length exceeds bound"))
        } else {
            match varint::varint_parse(s1) {
                Err(e) => Err(e),
                Ok((k, s2)) => if k == 0 || k > 256 {
                    Err(Error::CorruptPayload("rans symbol count"))
                } else {
                    match rans_table(s2, k as nat, Seq::new(256, |j: int| 0u32), 0) {
                        Err(e) => Err(e),
                        Ok((freq, sum, s3)) => if sum != RANS_TOTAL {
                            Err(Error::CorruptPayload("rans frequencies do not sum to M"))
                        } else if s3.len() < 16 {
                            Err(Error::Truncated)
                        } else {
                            match rans_symbols(freq, rans_states(s3), 0, n as nat, s3.skip(16)) {
                                None => Err(Error::Truncated),
                                Some(r) => Ok(r),
                            }
                        },
                    }
                },
            }
        },
    }
}

/// A frequency table whose entries add up to at most the total.
pub open spec fn table_ok(freq: Seq<u32>) -> bool {
    freq.len() == 256 && cumulative(freq, 256) <= RANS_TOTAL
}

proof fn lemma_cumulative_mono(freq: Seq<u32>, a: nat, b: nat)
    requires
        a <= b,
    ensures
        cumulative(freq, a) <= cumulative(freq, b),
    decreases b - a,
{
    if a < b {
        lemma_cumulative_mono(freq, a, (b - 1) as nat);
    }
}

pub proof fn lemma_cumulative_update(freq: Seq<u32>, k: int, v: u32, s: nat)
    requires
        0 <= k < freq.len(),
        s <= freq.len(),
    ensures
        cumulative(freq.update(k, v), s) == cumulative(freq, s) + (if k < s {
            v - freq[k]
        } else {
            0
        }),
    decreases s,
{
    if s > 0 {
        lemma_cumulative_update(freq, k, v, (s - 1) as nat);
    }
}

/// A slot inside the range of `sym` belongs to `sym`.
proof fn lemma_symbol_from(freq: Seq<u32>, slot: nat, s: nat, sym: nat)
    requires
        s <= sym < 256,
        cumulative(freq, sym) <= slot < cumulative(freq, sym + 1),
    ensures
        symbol_from(freq, slot, s) == sym,
    decreases sym - s,
{
    if s < sym {
        lemma_cumulative_mono(freq, s + 1, sym);
        lemma_symbol_from(freq, slot, s + 1, sym);
    }
}

/// A slot past every range belongs to symbol 0.
proof fn lemma_symbol_none(freq: Seq<u32>, slot: nat, s: nat)
    requires
        s <= 256,
        cumulative(freq, 256) <= slot,
    ensures
        symbol_from(freq, slot, s) == 0,
    decreases 256 - s,
{
    if s < 256 {
        lemma_cumulative_mono(freq, s + 1, 256);
        lemma_symbol_none(freq, slot, s + 1);
    }
}

/// The range of the symbol that owns a slot starts no later than the slot.
proof fn lemma_slot_symbol_start(freq: Seq<u32>, slot: nat, s: nat)
    requires
        s <= 256,
        cumulative(freq, s) <= slot,
    ensures
        cumulative(freq, symbol_from(freq, slot, s) as nat) <= slot,
    decreases 256 - s,
{
    if s < 256 && slot >= cumulative(freq, s + 1) {
        lemma_slot_symbol_start(freq, slot, s + 1);
    }
}

proof fn lemma_freq_bound(freq: Seq<u32>, s: nat)
    requires
        table_ok(freq),
        s < 256,
    ensures
        cumulative(freq, s) + freq[s as int] == cumulative(freq, s + 1),
        cumulative(freq, s + 1) <= RANS_TOTAL,
        freq[s as int] <= RANS_TOTAL,
{
    lemma_cumulative_mono(freq, s + 1, 256);
}

/// A decoding step undoes the encoding step `(y / f) * 4096 + y % f + c`.
proof fn lemma_advance_inverts(freq: Seq<u32>, sym: nat, y: nat)
    requires
        table_ok(freq),
        sym < 256,
        freq[sym as int] > 0,
        2048 * freq[sym as int] <= y < 524288 * freq[sym as int],
    ensures
        ({
            let f = freq[sym as int] as nat;
            let c = cumulative(freq, sym);
            let x = (y / f) * 4096 + y % f + c;
            &&& RANS_LOW <= x < 0x8000_0000
            &&& slot_symbol(freq, x % 4096) == sym
            &&& advanced(freq, x) == y
        }),
{
    let f = freq[sym as int] as nat;
    let c = cumulative(freq, sym);
    lemma_freq_bound(freq, sym);
    let q = y / f;
    let r = y % f;
    lemma_fundamental_div_mod(y as int, f as int);
    lemma_mod_bound(y as int, f as int);
    assert(2048 <= q < 524288) by (nonlinear_arith)
        requires
            y == f * q + r,
            0 <= r < f,
            2048 * f <= y < 524288 * f,
            f > 0,
    ;
    let x = q * 4096 + r + c;
    assert(x % 4096 == r + c);
    assert(x / 4096 == q);
    lemma_symbol_from(freq, (r + c) as nat, 0, sym);
}

/// Two states that differ by one emitted byte refill to the same state.
proof fn lemma_refill_step(x: nat, s: Seq<u8>, b: u8)
    requires
        b == x % 256,
        x < 0x8000_0000,
    ensures
        refilled(x / 256, seq![b] + s) == refilled(x, s),
{
    let t = seq![b] + s;
    assert(t.drop_first() =~= s);
    assert(x == (x / 256) * 256 + b);
}

/// A count's share of [`RANS_TOTAL`], rounded down but at least one if the symbol
/// is present.
pub open spec fn share_of(count: nat, total: nat) -> nat {
    if count == 0 {
        0
    } else if count * RANS_TOTAL < total {
        1
    } else {
        (count * RANS_TOTAL) as nat / total
    }
}

/// The last index below `n` that holds the largest of the first `n` frequencies.
pub open spec fn top_of(freq: Seq<u32>, n: nat) -> nat
    decreases n,
{
    if n <= 1 {
        0
    } else {
        let t = top_of(freq, (n - 1) as nat);
        if freq[n - 1] >= freq[t as int] {
            (n - 1) as nat
        } else {
            t
        }
    }
}

/// `freq` made to sum to [`RANS_TOTAL`]: a surplus is taken from the largest
/// frequency one by one, what is missing goes to the largest at once.
pub open spec fn balanced(freq: Seq<u32>, surplus: nat) -> Seq<u32>
    decreases surplus,
{
    let top = top_of(freq, 256) as int;
    if surplus > 0 {
        balanced(freq.update(top, (freq[top] - 1) as u32), (surplus - 1) as nat)
    } else if cumulative(freq, 256) < RANS_TOTAL {
        freq.update(top, (freq[top] + RANS_TOTAL - cumulative(freq, 256)) as u32)
    } else {
        freq
    }
}

/// The frequency table of symbol counts that add up to `total`.
pub open spec fn normalized(counts: Seq<u64>, total: nat) -> Seq<u32> {
    let shares = Seq::new(256, |j: int| share_of(counts[j] as nat, total) as u32);
    let sum = cumulative(shares, 256);
    balanced(
        shares,
        if sum > RANS_TOTAL {
            (sum - RANS_TOTAL) as nat
        } else {
            0
        },
    )
}

/// Normalise symbol counts to sum to exactly [`RANS_TOTAL`], with every present
/// symbol keeping a frequency of at least one.
fn normalize(counts: &[u64], total: u64) -> (freq: Vec<u32>)
    requires
        counts.len() == 256,
        total > 0,
        forall|s: int| 0 <= s < 256 ==> #[trigger] counts@[s] <= total,
        exists|s: int| 0 <= s < 256 && #[trigger] counts@[s] > 0,
    ensures
        freq.len() == 256,
        freq@ == normalized(counts@, total as nat),
        cumulative(freq@, 256) == RANS_TOTAL,
        forall|s: int| 0 <= s < 256 ==> (#[trigger] freq@[s] > 0 <==> counts@[s] > 0),
{
    let mut freq: Vec<u32> = vec![0; 256];
    let mut sum: u32 = 0;
    let mut s: usize = 0;
    proof {
        lemma_cumulative_zeros(freq@, 256);
    }
    while s < 256
        invariant
            s <= 256,
            counts.len() == 256,
            freq.len() == 256,
            total > 0,
            forall|j: int| 0 <= j < 256 ==> #[trigger] counts@[j] <= total,
            forall|j: int| 0 <= j < s ==> (#[trigger] freq@[j] > 0 <==> counts@[j] > 0),
            forall|j: int| s <= j < 256 ==> #[trigger] freq@[j] == 0,
            forall|j: int|
                0 <= j < s ==> #[trigger] freq@[j] == share_of(counts@[j] as nat, total as nat),
            sum <= 4096 * s,
            sum == cumulative(freq@, 256),
        decreases 256 - s,
    {
        if counts[s] > 0 {
            let scaled: u128 = counts[s] as u128 * 4096;
            let share: u128 = scaled / (total as u128);
            assert(share <= 4096) by (nonlinear_arith)
                requires
                    scaled == counts@[s as int] * 4096,
                    counts@[s as int] <= total,
                    share == scaled / (total as u128),
                    total > 0,
            ;
            let f: u32 = if share < 1 {
                1
            } else {
                share as u32
            };
            assert(f == share_of(counts@[s as int] as nat, total as nat)) by {
                let (a, t) = (scaled as int, total as int);
                assert(a < t ==> a / t == 0) by (nonlinear_arith)
                    requires
                        0 <= a,
                        t > 0,
                ;
                assert(a >= t ==> a / t >= 1) by (nonlinear_arith)
                    requires
                        0 <= a,
                        t > 0,
                ;
            }
            proof {
                lemma_cumulative_update(freq@, s as int, f, 256);
            }
            freq[s] = f;
            sum = sum + f;
        }
        s = s + 1;
    }
    let ghost whole = normalized(counts@, total as nat);
    proof {
        let shares = Seq::new(
            256,
            |j: int| share_of(counts@[j] as nat, total as nat) as u32,
        );
        assert(freq@ =~= shares);
        assert(whole == balanced(
            freq@,
            if sum > RANS_TOTAL {
                (sum - RANS_TOTAL) as nat
            } else {
                0
            },
        ));
    }
    while sum > RANS_TOTAL
        invariant
            freq.len() == 256,
            counts.len() == 256,
            sum == cumulative(freq@, 256),
            whole == balanced(
                freq@,
                if sum > RANS_TOTAL {
                    (sum - RANS_TOTAL) as nat
                } else {
                    0
                },
            ),
            forall|j: int| 0 <= j < 256 ==> (#[trigger] freq@[j] > 0 <==> counts@[j] > 0),
        decreases sum,
    {
        let top = largest(&freq);
        proof {
            lemma_cumulative_max(freq@, freq@[top as int], 256);
            lemma_cumulative_update(freq@, top as int, (freq@[top as int] - 1) as u32, 256);
        }
        let f: u32 = freq[top];
        freq[top] = f - 1;
        sum = sum - 1;
    }
    if sum < RANS_TOTAL {
        let top = largest(&freq);
        let f: u32 = freq[top];
        proof {
            let w = choose|w: int| 0 <= w < 256 && #[trigger] counts@[w] > 0;
            assert(freq@[w] > 0);
            assert(f > 0);
            lemma_cumulative_update(freq@, top as int, (f + (RANS_TOTAL - sum)) as u32, 256);
            lemma_cumulative_mono(freq@, top as nat + 1, 256);
        }
        freq[top] = f + (RANS_TOTAL - sum);
    }
    freq
}

proof fn lemma_cumulative_zeros(freq: Seq<u32>, s: nat)
    requires
        s <= freq.len(),
        forall|j: int| 0 <= j < freq.len() ==> #[trigger] freq[j] == 0,
    ensures
        cumulative(freq, s) == 0,
    decreases s,
{
    if s > 0 {
        lemma_cumulative_zeros(freq, (s - 1) as nat);
    }
}

pub proof fn lemma_cumulative_max(freq: Seq<u32>, most: u32, s: nat)
    requires
        s <= freq.len(),
        forall|j: int| 0 <= j < freq.len() ==> #[trigger] freq[j] <= most,
    ensures
        cumulative(freq, s) <= s * most,
    decreases s,
{
    if s > 0 {
        lemma_cumulative_max(freq, most, (s - 1) as nat);
        assert(s * most == (s - 1) * most + most) by (nonlinear_arith);
    }
}

/// The last index that holds the largest frequency.
fn largest(freq: &Vec<u32>) -> (top: usize)
    requires
        freq.len() == 256,
    ensures
        top == top_of(freq@, 256),
        top < 256,
        forall|j: int| 0 <= j < 256 ==> #[trigger] freq@[j] <= freq@[top as int],
{
    let mut top: usize = 0;
    let mut s: usize = 1;
    while s < 256
        invariant
            1 <= s <= 256,
            top < s,
            top == top_of(freq@, s as nat),
            freq.len() == 256,
            forall|j: int| 0 <= j < s ==> #[trigger] freq@[j] <= freq@[top as int],
        decreases 256 - s,
    {
        if freq[s] >= freq[top] {
            top = s;
        }
        s = s + 1;
    }
    top
}

/// The running totals of a frequency table.
fn running_totals(freq: &Vec<u32>) -> (cum: Vec<u32>)
    requires
        table_ok(freq@),
    ensures
        cum.len() == 257,
        forall|s: int| 0 <= s <= 256 ==> #[trigger] cum@[s] == cumulative(freq@, s as nat),
{
    let mut cum: Vec<u32> = Vec::new();
    cum.push(0);
    let mut s: usize = 0;
    while s < 256
        invariant
            s <= 256,
            table_ok(freq@),
            cum.len() == s + 1,
            forall|j: int| 0 <= j <= s ==> #[trigger] cum@[j] == cumulative(freq@, j as nat),
        decreases 256 - s,
    {
        proof {
            lemma_freq_bound(freq@, s as nat);
        }
        let next: u32 = cum[s] + freq[s];
        cum.push(next);
        s = s + 1;
    }
    cum
}

/// The table entries of the symbols from `s` on.
pub open spec fn table_bytes(freq: Seq<u32>, s: nat) -> Seq<u8>
    decreases 256 - s,
{
    if s >= 256 {
        Seq::empty()
    } else if freq[s as int] == 0 {
        table_bytes(freq, s + 1)
    } else {
        seq![s as u8] + varint::varint_bytes(freq[s as int] as nat) + table_bytes(freq, s + 1)
    }
}

/// How many of the symbols from `s` on are present.
pub open spec fn present_from(freq: Seq<u32>, s: nat) -> nat
    decreases 256 - s,
{
    if s >= 256 {
        0
    } else {
        present_from(freq, s + 1) + (if freq[s as int] == 0 {
            0nat
        } else {
            1nat
        })
    }
}

/// A table whose entries from `s` on are still missing.
spec fn partial_table(freq: Seq<u32>, s: nat) -> Seq<u32> {
    Seq::new(256, |j: int| if j < s { freq[j] } else { 0u32 })
}

proof fn lemma_table_roundtrip(freq: Seq<u32>, s: nat, rest: Seq<u8>)
    requires
        table_ok(freq),
        s <= 256,
    ensures
        rans_table(
            table_bytes(freq, s) + rest,
            present_from(freq, s),
            partial_table(freq, s),
            cumulative(freq, s),
        ) == Ok::<_, Error>((freq, cumulative(freq, 256), rest)),
        present_from(freq, s) <= 256 - s,
    decreases 256 - s,
{
    if s >= 256 {
        assert(partial_table(freq, s) =~= freq);
        assert(table_bytes(freq, s) + rest =~= rest);
    } else {
        lemma_table_roundtrip(freq, s + 1, rest);
        lemma_freq_bound(freq, s);
        let f = freq[s as int];
        if f == 0 {
            assert(partial_table(freq, s) =~= partial_table(freq, s + 1));
        } else {
            let t = table_bytes(freq, s) + rest;
            let after = table_bytes(freq, s + 1) + rest;
            assert(t.drop_first() =~= varint::varint_bytes(f as nat) + after);
            varint::lemma_varint_roundtrip(f as u64, after);
            assert(t[0] == s as u8);
            assert(partial_table(freq, s).update(s as int, f) =~= partial_table(freq, s + 1));
        }
    }
}

proof fn lemma_present_some(freq: Seq<u32>, s: nat, w: nat)
    requires
        s <= w < 256,
        freq[w as int] > 0,
    ensures
        present_from(freq, s) > 0,
    decreases w - s,
{
    if s < w {
        lemma_present_some(freq, s + 1, w);
    }
}

/// Append the table entries of the present symbols; the result counts them.
fn write_table(out: &mut Vec<u8>, freq: &Vec<u32>)
    requires
        freq.len() == 256,
    ensures
        final(out)@ == old(out)@ + varint::varint_bytes(present_from(freq@, 0)) + table_bytes(
            freq@,
            0,
        ),
{
    let mut present: u64 = 0;
    let mut s: usize = 256;
    while s > 0
        invariant
            s <= 256,
            freq.len() == 256,
            present == present_from(freq@, s as nat),
            present <= 256 - s,
        decreases s,
    {
        s = s - 1;
        if freq[s] > 0 {
            present = present + 1;
        }
    }
    varint::write_u64(out, present);
    let ghost start = out@;
    let mut t: usize = 0;
    assert(out@ + table_bytes(freq@, 0) =~= start + table_bytes(freq@, 0));
    while t < 256
        invariant
            t <= 256,
            freq.len() == 256,
            out@ + table_bytes(freq@, t as nat) == start + table_bytes(freq@, 0),
        decreases 256 - t,
    {
        let f: u32 = freq[t];
        if f > 0 {
            let ghost before = out@;
            out.push(t as u8);
            varint::write_u64(out, f as u64);
            assert(out@ + table_bytes(freq@, t as nat + 1) =~= before + table_bytes(
                freq@,
                t as nat,
            ));
        }
        t = t + 1;
    }
    assert(out@ + Seq::<u8>::empty() =~= out@);
}

/// How often `b` occurs in `data`.
pub open spec fn occurrences(data: Seq<u8>, b: u8) -> nat
    decreases data.len(),
{
    if data.len() == 0 {
        0
    } else {
        occurrences(data.drop_last(), b) + (if data.last() == b {
            1nat
        } else {
            0nat
        })
    }
}

/// Count the bytes of `data`.
pub fn histogram(data: &[u8]) -> (counts: Vec<u64>)
    ensures
        counts.len() == 256,
        forall|s: int|
            0 <= s < 256 ==> #[trigger] counts@[s] == occurrences(data@, s as u8),
        forall|s: int| 0 <= s < 256 ==> #[trigger] counts@[s] <= data.len(),
        forall|s: int|
            0 <= s < 256 ==> (#[trigger] counts@[s] > 0 <==> data@.contains(s as u8)),
        forall|i: int| 0 <= i < data.len() ==> counts@[#[trigger] data@[i] as int] > 0,
{
    let mut counts: Vec<u64> = vec![0; 256];
    let mut i: usize = 0;
    while i < data.len()
        invariant
            i <= data.len(),
            counts.len() == 256,
            forall|s: int|
                0 <= s < 256 ==> #[trigger] counts@[s] == occurrences(
                    data@.take(i as int),
                    s as u8,
                ),
            forall|s: int| 0 <= s < 256 ==> #[trigger] counts@[s] <= i,
            forall|s: int|
                0 <= s < 256 && #[trigger] counts@[s] > 0 ==> data@.contains(s as u8),
            forall|j: int| 0 <= j < i ==> counts@[#[trigger] data@[j] as int] > 0,
        decreases data.len() - i,
    {
        let b: usize = data[i] as usize;
        let c: u64 = counts[b];
        proof {
            assert(data@.contains(data@[i as int]));
            assert(data@.take(i + 1).drop_last() =~= data@.take(i as int));
            assert(data@.take(i + 1).last() == data@[i as int]);
        }
        counts[b] = c + 1;
        i = i + 1;
    }
    assert(data@.take(data.len() as int) =~= data@);
    counts
}

/// State `x` after a symbol of frequency `f` whose slots start at `c`, and the
/// stream with the bytes that the state sheds in front.
pub open spec fn put_symbol(x: nat, f: nat, c: nat, stream: Seq<u8>) -> (nat, Seq<u8>)
    decreases x,
{
    if f > 0 && x >= 524288 * f {
        put_symbol(x / 256, f, c, seq![(x % 256) as u8] + stream)
    } else {
        ((x / f) * 4096 + x % f + c, stream)
    }
}

/// The four states and the stream that hold the bytes of `data` from `i` on.
pub open spec fn rans_coded(freq: Seq<u32>, data: Seq<u8>, i: nat) -> (Seq<nat>, Seq<u8>)
    decreases data.len() - i,
{
    if i >= data.len() {
        (Seq::new(4, |j: int| RANS_LOW as nat), Seq::empty())
    } else {
        let (x, stream) = rans_coded(freq, data, i + 1);
        let s = data[i as int];
        let (y, longer) = put_symbol(
            x[(i % 4) as int],
            freq[s as int] as nat,
            cumulative(freq, s as nat),
            stream,
        );
        (x.update((i % 4) as int, y), longer)
    }
}

/// The byte counts of `data`.
pub open spec fn counts_of(data: Seq<u8>) -> Seq<u64> {
    Seq::new(256, |s: int| occurrences(data, s as u8) as u64)
}

/// The coded form of `data`: its length, the frequency table, the four states and
/// the stream.
pub open spec fn rans_image(data: Seq<u8>) -> Seq<u8> {
    let freq = normalized(counts_of(data), data.len());
    let (x, stream) = rans_coded(freq, data, 0);
    varint::varint_bytes(data.len()) + varint::varint_bytes(present_from(freq, 0)) + table_bytes(
        freq,
        0,
    ) + bytes::le_bytes(x[0], 4) + bytes::le_bytes(x[1], 4) + bytes::le_bytes(x[2], 4)
        + bytes::le_bytes(x[3], 4) + stream
}

/// The states of an encoder as numbers.
spec fn state_values(x: Seq<u32>) -> Seq<nat> {
    Seq::new(x.len(), |j: int| x[j] as nat)
}

/// Encode one symbol into a state: the bytes it sheds go to the end of `rev`,
/// which holds the renormalisation bytes last one first.
fn encode_symbol(xi: u32, f: u32, c: u32, rev: &mut Vec<u8>, Ghost(freq): Ghost<Seq<u32>>, Ghost(
    sym,
): Ghost<nat>) -> (x: u32)
    requires
        table_ok(freq),
        sym < 256,
        f == freq[sym as int],
        f > 0,
        c == cumulative(freq, sym),
        RANS_LOW <= xi < 0x8000_0000,
    ensures
        RANS_LOW <= x < 0x8000_0000,
        (x as nat, final(rev)@.reverse()) == put_symbol(
            xi as nat,
            f as nat,
            c as nat,
            old(rev)@.reverse(),
        ),
        slot_symbol(freq, x as nat % 4096) == sym,
        refilled(advanced(freq, x as nat), final(rev)@.reverse()) == Some(
            (xi as nat, old(rev)@.reverse()),
        ),
{
    proof {
        lemma_freq_bound(freq, sym);
    }
    let bound: u32 = 524288 * f;
    let mut y: u32 = xi;
    let ghost tail = rev@.reverse();
    while y >= bound
        invariant
            0 < f <= RANS_TOTAL,
            bound == 524288 * f,
            y < 0x8000_0000,
            y >= 2048 * f,
            put_symbol(y as nat, f as nat, c as nat, rev@.reverse()) == put_symbol(
                xi as nat,
                f as nat,
                c as nat,
                tail,
            ),
            refilled(y as nat, rev@.reverse()) == Some((xi as nat, tail)),
        decreases y,
    {
        let b: u8 = (y % 256) as u8;
        proof {
            lemma_refill_step(y as nat, rev@.reverse(), b);
            assert(rev@.push(b).reverse() =~= seq![b] + rev@.reverse());
        }
        rev.push(b);
        y = y / 256;
    }
    proof {
        lemma_advance_inverts(freq, sym, y as nat);
    }
    (y / f) * 4096 + y % f + c
}

/// Entropy-code `data`; `None` when there is nothing to code.
pub fn compress_bytes(data: &[u8]) -> (r: Option<Vec<u8>>)
    ensures
        r is None <==> data.len() == 0,
        r matches Some(out) ==> out@ == rans_image(data@),
        r matches Some(out) ==> forall|max_len: nat|
            max_len >= data.len() ==> #[trigger] rans_decoded(out@, max_len) == Ok::<_, Error>(
                data@,
            ),
{
    let n = data.len();
    if n == 0 {
        return None;
    }
    let counts = histogram(data);
    assert(counts@[data@[0] as int] > 0);
    let freq = normalize(&counts, n as u64);
    let cum = running_totals(&freq);
    let mut rev: Vec<u8> = Vec::new();
    let mut x: Vec<u32> = vec![RANS_LOW; 4];
    let mut i: usize = n;
    proof {
        assert(counts@ =~= counts_of(data@));
        assert(data@.skip(n as int) =~= Seq::empty());
        assert(rev@.reverse() =~= Seq::empty());
        assert(state_values(x@) =~= Seq::new(4, |j: int| RANS_LOW as nat));
    }
    while i > 0
        invariant
            i <= n,
            n == data.len(),
            table_ok(freq@),
            cum.len() == 257,
            forall|s: int| 0 <= s <= 256 ==> #[trigger] cum@[s] == cumulative(freq@, s as nat),
            forall|s: int| 0 <= s < 256 ==> (#[trigger] freq@[s] > 0 <==> counts@[s] > 0),
            forall|j: int| 0 <= j < n ==> counts@[#[trigger] data@[j] as int] > 0,
            x.len() == 4,
            forall|j: int| 0 <= j < 4 ==> RANS_LOW <= #[trigger] x@[j] < 0x8000_0000,
            (state_values(x@), rev@.reverse()) == rans_coded(freq@, data@, i as nat),
            rans_symbols(freq@, state_values(x@), i as nat, n as nat, rev@.reverse()) == Some(
                data@.skip(i as int),
            ),
        decreases i,
    {
        i = i - 1;
        let s: usize = data[i] as usize;
        let f: u32 = freq[s];
        let c: u32 = cum[s];
        assert(counts@[data@[i as int] as int] > 0);
        let idx: usize = i % 4;
        let ghost before = x@;
        let ghost stream = rev@.reverse();
        let xi: u32 = x[idx];
        let next: u32 = encode_symbol(xi, f, c, &mut rev, Ghost(freq@), Ghost(s as nat));
        x[idx] = next;
        proof {
            let now = state_values(x@);
            assert(now.update(idx as int, xi as nat) =~= state_values(before));
            assert(now =~= state_values(before).update(idx as int, next as nat));
            assert(seq![data@[i as int]] + data@.skip(i + 1) =~= data@.skip(i as int));
        }
    }
    let mut out: Vec<u8> = Vec::new();
    varint::write_u64(&mut out, n as u64);
    write_table(&mut out, &freq);
    let ghost head = out@;
    write_le(&mut out, x[0] as u64, 4);
    write_le(&mut out, x[1] as u64, 4);
    write_le(&mut out, x[2] as u64, 4);
    write_le(&mut out, x[3] as u64, 4);
    let ghost states = out@;
    let mut j: usize = rev.len();
    assert(rev@.skip(j as int).reverse() =~= Seq::empty());
    while j > 0
        invariant
            j <= rev.len(),
            out@ == states + rev@.skip(j as int).reverse(),
        decreases j,
    {
        j = j - 1;
        out.push(rev[j]);
        assert(out@ =~= states + rev@.skip(j as int).reverse());
    }
    proof {
        assert(rev@.skip(0) =~= rev@);
        assert(data@.skip(0) =~= data@);
        let w = data@[0] as nat;
        assert(counts@[w as int] > 0);
        lemma_present_some(freq@, 0, w);
        lemma_stream_roundtrip(data@, freq@, x@, rev@.reverse(), out@);
    }
    Some(out)
}

#[verifier::rlimit(30)]
proof fn lemma_stream_roundtrip(
    data: Seq<u8>,
    freq: Seq<u32>,
    x: Seq<u32>,
    stream: Seq<u8>,
    out: Seq<u8>,
)
    requires
        data.len() <= u64::MAX,
        table_ok(freq),
        cumulative(freq, 256) == RANS_TOTAL,
        present_from(freq, 0) > 0,
        x.len() == 4,
        rans_symbols(freq, state_values(x), 0, data.len(), stream) == Some(data),
        out == varint::varint_bytes(data.len()) + varint::varint_bytes(present_from(freq, 0))
            + table_bytes(freq, 0) + bytes::le_bytes(x[0] as nat, 4) + bytes::le_bytes(
            x[1] as nat,
            4,
        ) + bytes::le_bytes(x[2] as nat, 4) + bytes::le_bytes(x[3] as nat, 4) + stream,
    ensures
        forall|max_len: nat|
            max_len >= data.len() ==> #[trigger] rans_decoded(out, max_len) == Ok::<_, Error>(data),
{
    bytes::lemma_pow256_values();
    let (b0, b1) = (bytes::le_bytes(x[0] as nat, 4), bytes::le_bytes(x[1] as nat, 4));
    let (b2, b3) = (bytes::le_bytes(x[2] as nat, 4), bytes::le_bytes(x[3] as nat, 4));
    bytes::lemma_le_roundtrip(x[0] as nat, 4);
    bytes::lemma_le_roundtrip(x[1] as nat, 4);
    bytes::lemma_le_roundtrip(x[2] as nat, 4);
    bytes::lemma_le_roundtrip(x[3] as nat, 4);
    let s3 = b0 + b1 + b2 + b3 + stream;
    assert(s3.subrange(0, 4) =~= b0);
    assert(s3.subrange(4, 8) =~= b1);
    assert(s3.subrange(8, 12) =~= b2);
    assert(s3.subrange(12, 16) =~= b3);
    assert(rans_states(s3) =~= state_values(x));
    assert(s3.skip(16) =~= stream);
    let s2 = table_bytes(freq, 0) + s3;
    lemma_table_roundtrip(freq, 0, s3);
    assert(partial_table(freq, 0) =~= Seq::new(256, |j: int| 0u32));
    let s1 = varint::varint_bytes(present_from(freq, 0)) + s2;
    varint::lemma_varint_roundtrip(present_from(freq, 0) as u64, s2);
    assert(out =~= varint::varint_bytes(data.len()) + s1);
    varint::lemma_varint_roundtrip(data.len() as u64, s1);
}

/// Build the table that maps each slot to its symbol.
fn slot_table(freq: &Vec<u32>, cum: &Vec<u32>) -> (table: Vec<u8>)
    requires
        table_ok(freq@),
        cum.len() == 257,
        forall|s: int| 0 <= s <= 256 ==> #[trigger] cum@[s] == cumulative(freq@, s as nat),
    ensures
        table.len() == RANS_TOTAL,
        forall|slot: int|
            0 <= slot < RANS_TOTAL ==> #[trigger] table@[slot] == slot_symbol(freq@, slot as nat),
{
    let mut table: Vec<u8> = vec![0; 4096];
    let mut s: usize = 0;
    while s < 256
        invariant
            s <= 256,
            table_ok(freq@),
            cum.len() == 257,
            forall|j: int| 0 <= j <= 256 ==> #[trigger] cum@[j] == cumulative(freq@, j as nat),
            table.len() == RANS_TOTAL,
            forall|k: int|
                0 <= k < cumulative(freq@, s as nat) ==> #[trigger] table@[k] == slot_symbol(
                    freq@,
                    k as nat,
                ),
            forall|k: int|
                cumulative(freq@, s as nat) <= k < RANS_TOTAL ==> #[trigger] table@[k] == 0,
        decreases 256 - s,
    {
        proof {
            lemma_freq_bound(freq@, s as nat);
        }
        let start: u32 = cum[s];
        let end: u32 = cum[s + 1];
        let mut slot: u32 = start;
        while slot < end
            invariant
                s < 256,
                start <= slot <= end <= RANS_TOTAL,
                start == cumulative(freq@, s as nat),
                end == cumulative(freq@, s as nat + 1),
                table.len() == RANS_TOTAL,
                forall|k: int|
                    0 <= k < slot ==> #[trigger] table@[k] == slot_symbol(freq@, k as nat),
                forall|k: int| slot <= k < RANS_TOTAL ==> #[trigger] table@[k] == 0,
            decreases end - slot,
        {
            proof {
                lemma_symbol_from(freq@, slot as nat, 0, s as nat);
            }
            table[slot as usize] = s as u8;
            slot = slot + 1;
        }
        s = s + 1;
    }
    proof {
        assert forall|k: int| 0 <= k < RANS_TOTAL implies #[trigger] table@[k] == slot_symbol(
            freq@,
            k as nat,
        ) by {
            if k >= cumulative(freq@, 256) {
                lemma_symbol_none(freq@, k as nat, 0);
            }
        }
    }
    table
}

/// Read the `k` entries of the frequency table at `*pos`, checking that they add
/// up to the total.
fn read_table(payload: &[u8], pos: &mut usize, k: usize) -> (r: Result<Vec<u32>, Error>)
    requires
        *old(pos) <= payload.len(),
        k <= 256,
    ensures
        *old(pos) <= *final(pos) <= payload.len(),
        match rans_table(
            payload@.skip(*old(pos) as int),
            k as nat,
            Seq::new(256, |j: int| 0u32),
            0,
        ) {
            Err(e) => r == Err::<Vec<u32>, _>(e),
            Ok((freq, sum, rest)) => if sum != RANS_TOTAL {
                r == Err::<Vec<u32>, _>(
                    Error::CorruptPayload("rans frequencies do not sum to M"),
                )
            } else {
                &&& r matches Ok(f)
                &&& f@ == freq
                &&& table_ok(freq)
                &&& rest == payload@.skip(*final(pos) as int)
            },
        },
{
    let mut freq: Vec<u32> = vec![0; 256];
    let mut sum: u32 = 0;
    let mut i: usize = 0;
    let ghost whole = rans_table(
        payload@.skip(*pos as int),
        k as nat,
        Seq::new(256, |j: int| 0u32),
        0,
    );
    proof {
        lemma_cumulative_zeros(freq@, 256);
        assert(freq@ =~= Seq::new(256, |j: int| 0u32));
    }
    while i < k
        invariant
            i <= k <= 256,
            *old(pos) <= *pos <= payload.len(),
            freq.len() == 256,
            sum <= 4096 * i,
            cumulative(freq@, 256) <= sum,
            whole == rans_table(
                payload@.skip(*old(pos) as int),
                k as nat,
                Seq::new(256, |j: int| 0u32),
                0,
            ),
            whole == rans_table(payload@.skip(*pos as int), (k - i) as nat, freq@, sum as nat),
        decreases k - i,
    {
        if *pos >= payload.len() {
            return Err(Error::Truncated);
        }
        let s: u8 = payload[*pos];
        assert(payload@.skip(*pos as int).drop_first() =~= payload@.skip(*pos + 1));
        *pos = *pos + 1;
        let v: u64 = match varint::read_u64(payload, pos) {
            Ok(v) => v,
            Err(e) => return Err(e),
        };
        let f: u32 = (v % 0x1_0000_0000) as u32;
        if f == 0 || f > RANS_TOTAL {
            return Err(Error::CorruptPayload("rans frequency"));
        }
        proof {
            lemma_cumulative_update(freq@, s as int, f, 256);
            lemma_cumulative_mono(freq@, s as nat + 1, 256);
        }
        freq[s as usize] = f;
        sum = sum + f;
        i = i + 1;
    }
    if sum != RANS_TOTAL {
        return Err(Error::CorruptPayload("rans frequencies do not sum to M"));
    }
    Ok(freq)
}

/// Refill a state from the stream at `*pos`.
fn refill(x: u32, payload: &[u8], pos: &mut usize) -> (r: Option<u32>)
    requires
        *old(pos) <= payload.len(),
    ensures
        *old(pos) <= *final(pos) <= payload.len(),
        match refilled(x as nat, payload@.skip(*old(pos) as int)) {
            None => r is None,
            Some((v, rest)) => r == Some(v as u32) && v <= u32::MAX && rest == payload@.skip(
                *final(pos) as int,
            ),
        },
{
    let mut v: u32 = x;
    while v < RANS_LOW
        invariant
            *old(pos) <= *pos <= payload.len(),
            refilled(v as nat, payload@.skip(*pos as int)) == refilled(
                x as nat,
                payload@.skip(*old(pos) as int),
            ),
        decreases payload.len() - *pos,
    {
        if *pos >= payload.len() {
            return None;
        }
        assert(payload@.skip(*pos as int).drop_first() =~= payload@.skip(*pos + 1));
        v = v * 256 + payload[*pos] as u32;
        *pos = *pos + 1;
    }
    Some(v)
}

/// Inverse of [`compress_bytes`]. `max_len` bounds the declared length.
pub fn decompress_bytes(payload: &[u8], max_len: usize) -> (r: Result<Vec<u8>, Error>)
    ensures
        error::viewed(r) == rans_decoded(payload@, max_len as nat),
{
    let mut pos: usize = 0;
    assert(payload@.skip(0) =~= payload@);
    let n: u64 = match varint::read_u64(payload, &mut pos) {
        Ok(v) => v,
        Err(e) => return Err(e),
    };
    if n > max_len as u64 {
        return Err(Error::CorruptPayload("rans length exceeds bound"));
    }
    let num_syms: u64 = match varint::read_u64(payload, &mut pos) {
        Ok(v) => v,
        Err(e) => return Err(e),
    };
    if num_syms == 0 || num_syms > 256 {
        return Err(Error::CorruptPayload("rans symbol count"));
    }
    let freq = match read_table(payload, &mut pos, num_syms as usize) {
        Ok(f) => f,
        Err(e) => return Err(e),
    };
    let cum = running_totals(&freq);
    let table = slot_table(&freq, &cum);
    if payload.len() - pos < 16 {
        return Err(Error::Truncated);
    }
    let ghost s3 = payload@.skip(pos as int);
    let mut x: Vec<u32> = Vec::new();
    let mut j: usize = 0;
    while j < 4
        invariant
            j <= 4,
            x.len() == j,
            pos + 16 <= payload.len(),
            s3 == payload@.skip(pos as int),
            forall|k: int| 0 <= k < j ==> #[trigger] x@[k] == rans_states(s3)[k],
        decreases 4 - j,
    {
        let v: u64 = read_le(payload, pos + 4 * j, 4);
        proof {
            bytes::lemma_pow256_values();
            assert(payload@.subrange(pos + 4 * j, pos + 4 * j + 4) =~= s3.subrange(
                4 * j as int,
                4 * j + 4,
            ));
        }
        x.push(v as u32);
        j = j + 1;
    }
    pos = pos + 16;
    let ghost whole = rans_symbols(freq@, rans_states(s3), 0, n as nat, s3.skip(16));
    assert(s3.skip(16) =~= payload@.skip(pos as int));
    assert(state_values(x@) =~= rans_states(s3));
    let mut out: Vec<u8> = Vec::new();
    let mut i: u64 = 0;
    while i < n
        invariant
            i <= n,
            pos <= payload.len(),
            table_ok(freq@),
            cum.len() == 257,
            forall|s: int| 0 <= s <= 256 ==> #[trigger] cum@[s] == cumulative(freq@, s as nat),
            table.len() == RANS_TOTAL,
            forall|slot: int|
                0 <= slot < RANS_TOTAL ==> #[trigger] table@[slot] == slot_symbol(
                    freq@,
                    slot as nat,
                ),
            x.len() == 4,
            rans_decoded(payload@, max_len as nat) == (match whole {
                None => Err::<Seq<u8>, _>(Error::Truncated),
                Some(t) => Ok(t),
            }),
            whole == (match rans_symbols(
                freq@,
                state_values(x@),
                i as nat,
                n as nat,
                payload@.skip(pos as int),
            ) {
                None => None::<Seq<u8>>,
                Some(t) => Some(out@ + t),
            }),
        decreases n - i,
    {
        let idx: usize = (i % 4) as usize;
        let xi: u32 = x[idx];
        let slot: u32 = xi % 4096;
        let s: u8 = table[slot as usize];
        let f: u32 = freq[s as usize];
        let c: u32 = cum[s as usize];
        let q: u32 = xi / 4096;
        proof {
            lemma_slot_symbol_start(freq@, slot as nat, 0);
            lemma_freq_bound(freq@, s as nat);
            assert(f * q <= 4096 * 1048575) by (nonlinear_arith)
                requires
                    f <= 4096,
                    q <= 1048575,
            ;
        }
        let xn: u32 = f * q + (slot - c);
        let ghost before = out@;
        let ghost x_before = x@;
        match refill(xn, payload, &mut pos) {
            None => {
                return Err(Error::Truncated);
            },
            Some(next) => {
                out.push(s);
                x[idx] = next;
                proof {
                    assert(state_values(x@) =~= state_values(x_before).update(
                        idx as int,
                        next as nat,
                    ));
                    if let Some(t) = rans_symbols(
                        freq@,
                        state_values(x@),
                        i as nat + 1,
                        n as nat,
                        payload@.skip(pos as int),
                    ) {
                        assert(before + (seq![s] + t) =~= out@ + t);
                    }
                }
            },
        }
        i = i + 1;
    }
    assert(out@ + Seq::<u8>::empty() =~= out@);
    Ok(out)
}

} // verus!
