//! ALP-RD: floats that are not decimals. The high bits of such values cluster
//! into a handful of patterns while the low bits are noise.
//!
//! Each word is split at a cut into a left (high) and a right (low) part. The
//! left parts are dictionary-coded, the commonest [`MAX_DICT`] getting a code
//! and the rest becoming exceptions; the right parts are bit-packed. The cut is
//! chosen by the estimated size on a sample.
//!
//! Payload: `left width:u8 ++ dictionary size:u8 ++ dictionary words ++
//! varint(exceptions) ++ (varint(position) ++ left word)* ++ codes tag:u8 ++
//! varint(codes length) ++ codes ++ rights tag:u8 ++ rights`.

use vstd::prelude::*;
use rustc_hash::FxHashMap;
use crate::bytes;
use crate::bytes::append_bytes;
use crate::codecs::for_bitpack;
use crate::entropy;
use crate::entropy::{code_residuals, decode_residuals};
use crate::error;
use crate::error::Error;
use crate::fxmap;
use crate::fxmap::{fx_entries, fx_get, fx_insert, fx_new, index_table};
use crate::lane;
use crate::lane::Lane;
use crate::sample;
use crate::sample::stride_sample;
use crate::varint;

verus! {

/// Tag of a bit-packed stream.
pub const T_BITPACK: u8 = 0;

/// Tag of an entropy-coded stream.
pub const T_ENT: u8 = 1;

/// Dictionary capacity for the left parts: codes of at most three bits.
pub const MAX_DICT: usize = 8;

/// Largest left width searched.
#[verifier::allow_in_spec]
pub fn cut_max(lane: Lane) -> (r: u32)
    returns
        (match lane {
            Lane::W64 => 24u32,
            Lane::W32 => 16u32,
        }),
{
    match lane {
        Lane::W64 => 24,
        Lane::W32 => 16,
    }
}

/// Bits charged per exception in the estimate: a position and a lane word.
#[verifier::allow_in_spec]
pub fn exc_bits(lane: Lane) -> (r: u32)
    returns
        (match lane {
            Lane::W64 => 96u32,
            Lane::W32 => 64u32,
        }),
{
    match lane {
        Lane::W64 => 96,
        Lane::W32 => 64,
    }
}

/// The left part of a word above `r` right bits.
pub open spec fn left_of(v: u64, r: u32) -> u64 {
    v >> (r as u64)
}

/// The right part of a word.
pub open spec fn right_of(v: u64, r: u32) -> u64 {
    v & (((1u64 << (r as u64)) - 1) as u64)
}

/// The all-ones word of a lane.
pub open spec fn lane_mask(lane: Lane) -> u64 {
    (lane.modulus() - 1) as u64
}

/// A left part put above a right part.
pub open spec fn joined(lane: Lane, left: u64, right: u64, r: u32) -> u64 {
    ((left << (r as u64)) & lane_mask(lane)) | right
}

/// Splitting and joining a word loses nothing.
pub proof fn lemma_split_join(lane: Lane, v: u64, r: u32)
    requires
        lane.fits(v),
        r < 64,
    ensures
        joined(lane, left_of(v, r), right_of(v, r), r) == v,
        lane.fits(left_of(v, r)),
        lane.fits(right_of(v, r)),
{
    let s = r as u64;
    let m = lane_mask(lane);
    assert((((v >> s) << s) & m) | (v & (((1u64 << s) - 1) as u64)) == v && (v >> s) <= v && (v & (
    ((1u64 << s) - 1) as u64)) <= v) by (bit_vector)
        requires
            s < 64,
            v <= m,
            m == 0xFFFF_FFFF || m == 0xFFFF_FFFF_FFFF_FFFF,
    ;
}

proof fn lemma_joined_fits(lane: Lane, left: u64, right: u64, r: u32)
    requires
        lane.fits(right),
        r < 64,
    ensures
        lane.fits(joined(lane, left, right, r)),
{
    let s = r as u64;
    let m = lane_mask(lane);
    assert((((left << s) & m) | right) <= m) by (bit_vector)
        requires
            right <= m,
            m == 0xFFFF_FFFF || m == 0xFFFF_FFFF_FFFF_FFFF,
    ;
}

fn split_left(v: u64, r: u32) -> (left: u64)
    requires
        r < 64,
    ensures
        left == left_of(v, r),
{
    v >> (r as u64)
}

fn split_right(v: u64, r: u32) -> (right: u64)
    requires
        r < 64,
    ensures
        right == right_of(v, r),
{
    let s: u64 = r as u64;
    assert((1u64 << s) >= 1) by (bit_vector)
        requires
            s < 64,
    ;
    v & ((1u64 << s) - 1)
}

fn join(lane: Lane, left: u64, right: u64, r: u32) -> (v: u64)
    requires
        r < 64,
        lane.fits(right),
    ensures
        v == joined(lane, left, right, r),
        lane.fits(v),
{
    proof {
        lemma_joined_fits(lane, left, right, r);
    }
    ((left << (r as u64)) & lane.max()) | right
}

// ---------------------------------------------------------------------------
// Choosing the dictionary and the cut
// ---------------------------------------------------------------------------

/// The left parts of `vals`.
pub open spec fn lefts_of(vals: Seq<u64>, r: u32) -> Seq<u64> {
    Seq::new(vals.len(), |i: int| left_of(vals[i], r))
}

/// How often `v` occurs in `s`.
pub open spec fn tally(s: Seq<u64>, v: u64) -> nat
    decreases s.len(),
{
    if s.len() == 0 {
        0
    } else {
        tally(s.drop_last(), v) + (if s.last() == v {
            1nat
        } else {
            0nat
        })
    }
}

/// Whether `a` comes before `b` in the dictionary: commoner, or as common and
/// smaller.
pub open spec fn ranks_before(s: Seq<u64>, a: u64, b: u64) -> bool {
    tally(s, a) > tally(s, b) || (tally(s, a) == tally(s, b) && a < b)
}

/// Whether `d` lists the commonest values of `s`, at most [`MAX_DICT`] of them.
pub open spec fn is_top_dict(s: Seq<u64>, d: Seq<u64>) -> bool {
    &&& d.len() <= MAX_DICT
    &&& forall|i: int| 0 <= i < d.len() ==> s.contains(#[trigger] d[i])
    &&& forall|i: int, j: int| 0 <= i < j < d.len() ==> ranks_before(s, d[i], d[j])
    &&& forall|v: u64|
        #[trigger] s.contains(v) && !d.contains(v) ==> d.len() == MAX_DICT && ranks_before(
            s,
            d.last(),
            v,
        )
}

/// The dictionary of the commonest values of `s`.
pub open spec fn top_dict_of(s: Seq<u64>) -> Seq<u64> {
    choose|d: Seq<u64>| is_top_dict(s, d)
}

/// There is only one such dictionary.
proof fn lemma_top_dict_unique(s: Seq<u64>, a: Seq<u64>, b: Seq<u64>)
    requires
        is_top_dict(s, a),
        is_top_dict(s, b),
    ensures
        a == b,
{
    if a.len() <= b.len() {
        lemma_top_dict_prefix(s, a, b, a.len());
        lemma_top_dict_len(s, a, b);
    } else {
        lemma_top_dict_prefix(s, b, a, b.len());
        lemma_top_dict_len(s, b, a);
    }
    assert(a =~= b);
}

proof fn lemma_top_dict_len(s: Seq<u64>, a: Seq<u64>, b: Seq<u64>)
    requires
        is_top_dict(s, a),
        is_top_dict(s, b),
        a.len() <= b.len(),
        forall|i: int| 0 <= i < a.len() ==> a[i] == b[i],
    ensures
        a.len() == b.len(),
{
    if a.len() < b.len() {
        let v = b[a.len() as int];
        assert(s.contains(v));
        if a.contains(v) {
            let i = choose|i: int| 0 <= i < a.len() && a[i] == v;
            assert(ranks_before(s, b[i], v));
        }
    }
}

proof fn lemma_top_dict_prefix(s: Seq<u64>, a: Seq<u64>, b: Seq<u64>, k: nat)
    requires
        is_top_dict(s, a),
        is_top_dict(s, b),
        k <= a.len() <= b.len(),
    ensures
        forall|i: int| 0 <= i < k ==> a[i] == b[i],
    decreases k,
{
    if k > 0 {
        let i = k - 1;
        lemma_top_dict_prefix(s, a, b, i as nat);
        if a[i] != b[i] {
            lemma_before_or_later(s, a, b, i);
            lemma_before_or_later(s, b, a, i);
        }
    }
}

/// Where two dictionaries first differ, each puts its own entry first.
proof fn lemma_before_or_later(s: Seq<u64>, a: Seq<u64>, b: Seq<u64>, i: int)
    requires
        is_top_dict(s, a),
        is_top_dict(s, b),
        0 <= i < a.len(),
        i < b.len(),
        forall|j: int| 0 <= j < i ==> a[j] == b[j],
        a[i] != b[i],
    ensures
        ranks_before(s, b[i], a[i]),
{
    let v = a[i];
    assert(s.contains(v));
    if b.contains(v) {
        let j = choose|j: int| 0 <= j < b.len() && b[j] == v;
        if j < i {
            assert(ranks_before(s, a[j], a[i]));
        }
    } else {
        assert(ranks_before(s, b.last(), v));
        if i < b.len() - 1 {
            assert(ranks_before(s, b[i], b[b.len() - 1]));
        }
    }
}

/// How many of the values of `s` the dictionary covers.
pub open spec fn covered_by(s: Seq<u64>, d: Seq<u64>) -> nat
    decreases s.len(),
{
    if s.len() == 0 {
        0
    } else {
        covered_by(s.drop_last(), d) + (if d.contains(s.last()) {
            1nat
        } else {
            0nat
        })
    }
}

proof fn lemma_covered_bound(s: Seq<u64>, d: Seq<u64>)
    ensures
        covered_by(s, d) <= s.len(),
    decreases s.len(),
{
    if s.len() > 0 {
        lemma_covered_bound(s.drop_last(), d);
    }
}

proof fn lemma_covered_push(s: Seq<u64>, d: Seq<u64>, v: u64)
    requires
        !d.contains(v),
    ensures
        covered_by(s, d.push(v)) == covered_by(s, d) + tally(s, v),
    decreases s.len(),
{
    if s.len() > 0 {
        lemma_covered_push(s.drop_last(), d, v);
        let x = s.last();
        let e = d.push(v);
        if d.contains(x) {
            let k = choose|k: int| 0 <= k < d.len() && d[k] == x;
            assert(e[k] == x);
        }
        if x == v {
            assert(e[d.len() as int] == x);
        }
        if e.contains(x) {
            let k = choose|k: int| 0 <= k < e.len() && e[k] == x;
            if k < d.len() {
                assert(d[k] == x);
            }
        }
    }
}

/// Bits of a code into a dictionary of `len` entries.
#[verifier::allow_in_spec]
pub fn code_bits(len: usize) -> (r: u32)
    returns
        (if len <= 2 {
            1u32
        } else if len <= 4 {
            2u32
        } else {
            3u32
        }),
{
    if len <= 2 {
        1
    } else if len <= 4 {
        2
    } else {
        3
    }
}

/// The estimated bits of a sample cut at `left` bits.
pub open spec fn cut_cost(lane: Lane, sample: Seq<u64>, left: u32) -> nat {
    let s = lefts_of(sample, (lane.bits() - left) as u32);
    let d = top_dict_of(s);
    (sample.len() * (lane.bits() - left + code_bits(d.len() as usize)) + (sample.len()
        - covered_by(s, d)) * exc_bits(lane)) as nat
}

/// The cheapest cut of at most `k` left bits, the narrowest of equals.
pub open spec fn best_cut(lane: Lane, sample: Seq<u64>, k: u32) -> u32
    decreases k,
{
    if k <= 1 {
        1
    } else {
        let b = best_cut(lane, sample, (k - 1) as u32);
        if cut_cost(lane, sample, k) < cut_cost(lane, sample, b) {
            k
        } else {
            b
        }
    }
}

/// Every how many values the sample takes one.
pub open spec fn sample_step(n: nat) -> nat {
    if n / 2048 < 1 {
        1
    } else {
        n / 2048
    }
}

/// The values a cut is chosen on.
pub open spec fn cut_sample(vals: Seq<u64>) -> Seq<u64> {
    sample::strided(vals, sample_step(vals.len()))
}

/// The cut for a block, if one beats verbatim storage on the sample.
pub open spec fn chosen_cut(lane: Lane, vals: Seq<u64>) -> Option<u32> {
    let sample = cut_sample(vals);
    let cut = best_cut(lane, sample, cut_max(lane));
    if cut_cost(lane, sample, cut) >= (lane.bits() - 1) * sample.len() {
        None
    } else {
        Some(cut)
    }
}

/// Whether ALP-RD is worth a try: a cut pays off and its dictionary leaves at
/// most a quarter of the values as exceptions.
pub open spec fn rd_applies(lane: Lane, vals: Seq<u64>) -> bool {
    &&& vals.len() > 0
    &&& chosen_cut(lane, vals) matches Some(cut) && ({
        let s = lefts_of(vals, (lane.bits() - cut) as u32);
        (vals.len() - covered_by(s, top_dict_of(s))) * 4 <= vals.len()
    })
}

/// Count the left parts of `vals`.
fn left_freq(vals: &[u64], r: u32) -> (freq: FxHashMap<u64, u64>)
    requires
        r < 64,
    ensures
        forall|k: u64|
            #[trigger] freq@.contains_key(k) <==> lefts_of(vals@, r).contains(k),
        forall|k: u64|
            #[trigger] freq@.contains_key(k) ==> freq@[k] == tally(lefts_of(vals@, r), k),
{
    let mut freq = fx_new();
    let mut i: usize = 0;
    let ghost s = lefts_of(vals@, r);
    while i < vals.len()
        invariant
            i <= vals.len(),
            r < 64,
            s == lefts_of(vals@, r),
            forall|k: u64| #[trigger] freq@.contains_key(k) <==> s.take(i as int).contains(k),
            forall|k: u64|
                #[trigger] freq@.contains_key(k) ==> freq@[k] == tally(s.take(i as int), k),
            forall|k: u64|
                !(#[trigger] freq@.contains_key(k)) ==> tally(s.take(i as int), k) == 0,
            forall|k: u64| #[trigger] freq@.contains_key(k) ==> freq@[k] <= i,
        decreases vals.len() - i,
    {
        let left: u64 = split_left(vals[i], r);
        let before: u64 = match fx_get(&freq, left) {
            Some(c) => c,
            None => 0,
        };
        let ghost old_freq = freq@;
        fx_insert(&mut freq, left, before + 1);
        proof {
            let (a, b) = (s.take(i as int), s.take(i + 1));
            assert(b.drop_last() =~= a);
            assert(b.last() == left);
            assert forall|k: u64| #[trigger] freq@.contains_key(k) <==> b.contains(k) by {
                if a.contains(k) {
                    let j = choose|j: int| 0 <= j < a.len() && a[j] == k;
                    assert(b[j] == k);
                }
                if k == left {
                    assert(b[i as int] == k);
                }
                if b.contains(k) && k != left {
                    let j = choose|j: int| 0 <= j < b.len() && b[j] == k;
                    assert(a[j] == k);
                }
                assert(old_freq.contains_key(k) <==> a.contains(k));
            }
            assert forall|k: u64| #[trigger] freq@.contains_key(k) implies freq@[k] == tally(
                b,
                k,
            ) by {
                if old_freq.contains_key(k) {
                    assert(old_freq[k] == tally(a, k));
                }
            }
            assert forall|k: u64| !(#[trigger] freq@.contains_key(k)) implies tally(b, k)
                == 0 by {
                assert(!old_freq.contains_key(k));
            }
        }
        i = i + 1;
    }
    assert(s.take(vals.len() as int) =~= s);
    freq
}

/// The commonest left parts, and how many values they cover.
fn top_dict(freq: FxHashMap<u64, u64>, Ghost(s): Ghost<Seq<u64>>) -> (r: (Vec<u64>, u64))
    requires
        forall|k: u64| #[trigger] freq@.contains_key(k) <==> s.contains(k),
        forall|k: u64| #[trigger] freq@.contains_key(k) ==> freq@[k] == tally(s, k),
        s.len() <= u64::MAX,
    ensures
        is_top_dict(s, r.0@),
        r.0@ == top_dict_of(s),
        r.1 == covered_by(s, r.0@),
        r.1 <= s.len(),
{
    let entries = fx_entries(freq);
    let mut used: Vec<bool> = vec![false; entries.len()];
    let mut dict: Vec<u64> = Vec::new();
    let mut covered: u64 = 0;
    let mut done: bool = false;
    proof {
        lemma_covered_none(s, dict@);
    }
    while dict.len() < MAX_DICT && !done
        invariant
            dict.len() <= MAX_DICT,
            used.len() == entries.len(),
            s.len() <= u64::MAX,
            forall|k: u64| #[trigger] freq@.contains_key(k) <==> s.contains(k),
            forall|k: u64| #[trigger] freq@.contains_key(k) ==> freq@[k] == tally(s, k),
            forall|i: int|
                0 <= i < entries.len() ==> freq@.contains_key((#[trigger] entries@[i]).0)
                    && freq@[entries@[i].0] == entries@[i].1,
            forall|k: u64|
                freq@.contains_key(k) ==> exists|i: int|
                    0 <= i < entries.len() && (#[trigger] entries@[i]).0 == k,
            forall|i: int, j: int|
                0 <= i < j < entries.len() ==> (#[trigger] entries@[i]).0 != (
                #[trigger] entries@[j]).0,
            covered == covered_by(s, dict@),
            forall|i: int| 0 <= i < dict.len() ==> s.contains(#[trigger] dict@[i]),
            forall|i: int, j: int|
                0 <= i < j < dict.len() ==> ranks_before(s, dict@[i], dict@[j]),
            forall|i: int|
                0 <= i < entries.len() ==> (used@[i] <==> dict@.contains(
                    (#[trigger] entries@[i]).0,
                )),
            forall|i: int, j: int|
                0 <= i < entries.len() && !used@[i] && 0 <= j < dict.len() ==> ranks_before(
                    s,
                    #[trigger] dict@[j],
                    (#[trigger] entries@[i]).0,
                ),
            done ==> forall|i: int| 0 <= i < entries.len() ==> #[trigger] used@[i],
        decreases
                MAX_DICT - dict.len(),
                (if done {
                    0nat
                } else {
                    1nat
                }),
    {
        let mut best: usize = entries.len();
        let mut i: usize = 0;
        while i < entries.len()
            invariant
                i <= entries.len(),
                used.len() == entries.len(),
                best == entries.len() || (best < i && !used@[best as int]),
                forall|k: int|
                    0 <= k < entries.len() ==> tally(s, (#[trigger] entries@[k]).0)
                        == entries@[k].1,
                best == entries.len() ==> forall|k: int| 0 <= k < i ==> #[trigger] used@[k],
                best < entries.len() ==> forall|k: int|
                    0 <= k < i && !used@[k] && k != best ==> ranks_before(
                        s,
                        entries@[best as int].0,
                        (#[trigger] entries@[k]).0,
                    ),
                forall|a: int, b: int|
                    0 <= a < b < entries.len() ==> (#[trigger] entries@[a]).0 != (
                    #[trigger] entries@[b]).0,
            decreases entries.len() - i,
        {
            if !used[i] {
                let better: bool = if best == entries.len() {
                    true
                } else {
                    let (bk, bc) = entries[best];
                    let (k, c) = entries[i];
                    c > bc || (c == bc && k < bk)
                };
                if better {
                    best = i;
                }
            }
            i = i + 1;
        }
        if best == entries.len() {
            done = true;
        } else {
            let (key, count) = entries[best];
            let ghost old_dict = dict@;
            let ghost old_used = used@;
            proof {
                assert(!dict@.contains(entries@[best as int].0));
                lemma_covered_push(s, dict@, key);
                lemma_covered_bound(s, dict@.push(key));
                assert(freq@.contains_key(entries@[best as int].0));
            }
            dict.push(key);
            covered = covered + count;
            used[best] = true;
            proof {
                assert forall|k: int| 0 <= k < entries.len() implies (used@[k] <==> dict@.contains(
                    (#[trigger] entries@[k]).0,
                )) by {
                    let x = entries@[k].0;
                    if old_dict.contains(x) {
                        let j = choose|j: int| 0 <= j < old_dict.len() && old_dict[j] == x;
                        assert(dict@[j] == x);
                    }
                    if k == best {
                        assert(dict@[old_dict.len() as int] == x);
                    } else if dict@.contains(x) {
                        let j = choose|j: int| 0 <= j < dict@.len() && dict@[j] == x;
                        if j < old_dict.len() {
                            assert(old_dict[j] == x);
                        } else {
                            assert(x == key);
                            if k < best {
                                assert(entries@[k].0 != entries@[best as int].0);
                            } else {
                                assert(entries@[best as int].0 != entries@[k].0);
                            }
                        }
                    }
                }
                assert forall|a: int, b: int|
                    0 <= a < entries.len() && !used@[a] && 0 <= b < dict.len() implies ranks_before(
                    s,
                    #[trigger] dict@[b],
                    (#[trigger] entries@[a]).0,
                ) by {
                    assert(!old_used[a]);
                    if b < old_dict.len() {
                        assert(ranks_before(s, old_dict[b], entries@[a].0));
                    }
                }
                assert forall|a: int, b: int| 0 <= a < b < dict.len() implies ranks_before(
                    s,
                    dict@[a],
                    dict@[b],
                ) by {
                    if b == old_dict.len() {
                        assert(ranks_before(s, old_dict[a], entries@[best as int].0));
                    }
                }
            }
        }
    }
    proof {
        assert forall|v: u64| #[trigger] s.contains(v) && !dict@.contains(v) implies dict@.len()
            == MAX_DICT && ranks_before(s, dict@.last(), v) by {
            assert(freq@.contains_key(v));
            let i = choose|i: int| 0 <= i < entries.len() && (#[trigger] entries@[i]).0 == v;
            assert(!used@[i]);
            assert(ranks_before(s, dict@[dict@.len() - 1], entries@[i].0));
        }
        lemma_top_dict_exists(s, dict@);
        lemma_covered_bound(s, dict@);
    }
    (dict, covered)
}

proof fn lemma_covered_none(s: Seq<u64>, d: Seq<u64>)
    requires
        d.len() == 0,
    ensures
        covered_by(s, d) == 0,
    decreases s.len(),
{
    if s.len() > 0 {
        lemma_covered_none(s.drop_last(), d);
    }
}

proof fn lemma_top_dict_exists(s: Seq<u64>, d: Seq<u64>)
    requires
        is_top_dict(s, d),
    ensures
        is_top_dict(s, top_dict_of(s)),
        top_dict_of(s) == d,
{
    lemma_top_dict_unique(s, d, top_dict_of(s));
}

/// The estimated bits of a sample cut at `left` bits.
fn estimate(lane: Lane, sample: &[u64], left: u32) -> (cost: u128)
    requires
        1 <= left < lane.bits(),
    ensures
        cost == cut_cost(lane, sample@, left),
{
    let r: u32 = lane.bits() - left;
    let n: u128 = sample.len() as u128;
    let ghost s = lefts_of(sample@, r);
    let freq = left_freq(sample, r);
    let (dict, covered) = top_dict(freq, Ghost(s));
    let each: u128 = (r + code_bits(dict.len())) as u128;
    let missed: u128 = n - covered as u128;
    let e: u128 = exc_bits(lane) as u128;
    assert(n * each <= 0x1_0000_0000_0000_0000 * 100) by (nonlinear_arith)
        requires
            n <= 0x1_0000_0000_0000_0000,
            each <= 100,
    ;
    assert(missed * e <= 0x1_0000_0000_0000_0000 * 100) by (nonlinear_arith)
        requires
            missed <= 0x1_0000_0000_0000_0000,
            e <= 100,
    ;
    n * each + missed * e
}

/// The values a cut is chosen on.
fn take_sample(vals: &[u64]) -> (out: Vec<u64>)
    requires
        vals.len() > 0,
    ensures
        out@ == cut_sample(vals@),
        out.len() > 0,
{
    let n = vals.len();
    let step: usize = if n / 2048 < 1 {
        1
    } else {
        n / 2048
    };
    stride_sample(vals, step)
}

/// Choose the left width that minimises the estimated size on a sample; `None`
/// if no cut beats storing the values verbatim.
fn choose_cut(lane: Lane, vals: &[u64]) -> (r: Option<u32>)
    requires
        vals.len() > 0,
    ensures
        r == chosen_cut(lane, vals@),
        r matches Some(c) ==> 1 <= c <= cut_max(lane),
{
    let sample = take_sample(vals);
    let mut best: u32 = 1;
    let mut best_cost: u128 = estimate(lane, &sample, 1);
    let mut k: u32 = 1;
    while k < cut_max(lane)
        invariant
            1 <= k <= cut_max(lane),
            1 <= best <= k,
            best == best_cut(lane, sample@, k),
            best_cost == cut_cost(lane, sample@, best),
        decreases cut_max(lane) - k,
    {
        k = k + 1;
        let cost: u128 = estimate(lane, &sample, k);
        if cost < best_cost {
            best_cost = cost;
            best = k;
        }
    }
    assert((lane.bits() - 1) * sample.len() <= 0x1_0000_0000_0000_0000 * 100) by (nonlinear_arith)
        requires
            lane.bits() <= 64,
            sample.len() <= 0x1_0000_0000_0000_0000,
    ;
    if best_cost >= (lane.bits() - 1) as u128 * sample.len() as u128 {
        None
    } else {
        Some(best)
    }
}

// ---------------------------------------------------------------------------
// The streams of a block
// ---------------------------------------------------------------------------

/// A block split at a cut: dictionary, codes, right parts and exceptions.
struct Split {
    dict: Vec<u64>,
    codes: Vec<u64>,
    rights: Vec<u64>,
    exceptions: Vec<(u64, u64)>,
}

/// The code of a left part: its place in the dictionary, or zero.
pub open spec fn code_in(d: Seq<u64>, left: u64) -> u64 {
    if d.contains(left) {
        d.index_of(left) as u64
    } else {
        0
    }
}

/// The positions below `n` whose left part is not in the dictionary, with it.
pub open spec fn exceptions_of(vals: Seq<u64>, r: u32, d: Seq<u64>, n: nat) -> Seq<(u64, u64)>
    decreases n,
{
    if n == 0 {
        Seq::empty()
    } else {
        let before = exceptions_of(vals, r, d, (n - 1) as nat);
        let left = left_of(vals[n - 1], r);
        if d.contains(left) {
            before
        } else {
            before.push(((n - 1) as u64, left))
        }
    }
}

/// The codes of the left parts of `vals`.
pub open spec fn left_codes(vals: Seq<u64>, r: u32, d: Seq<u64>) -> Seq<u64> {
    Seq::new(vals.len(), |i: int| code_in(d, left_of(vals[i], r)))
}

/// The right parts of `vals`.
pub open spec fn rights_of(vals: Seq<u64>, r: u32) -> Seq<u64> {
    Seq::new(vals.len(), |i: int| right_of(vals[i], r))
}

/// Codes, right parts and exceptions describe `vals` under dictionary `d`.
spec fn split_ok(
    lane: Lane,
    vals: Seq<u64>,
    r: u32,
    d: Seq<u64>,
    codes: Seq<u64>,
    rights: Seq<u64>,
    exc: Seq<(u64, u64)>,
) -> bool {
    &&& codes.len() == vals.len()
    &&& rights.len() == vals.len()
    &&& forall|i: int| 0 <= i < vals.len() ==> #[trigger] rights[i] == right_of(vals[i], r)
    &&& forall|i: int|
        0 <= i < vals.len() ==> #[trigger] codes[i] == code_in(d, left_of(vals[i], r))
    &&& forall|k: int|
        0 <= k < exc.len() ==> (#[trigger] exc[k]).0 < vals.len() && exc[k].1 == left_of(
            vals[exc[k].0 as int],
            r,
        )
    &&& forall|i: int|
        0 <= i < vals.len() ==> d.contains(left_of(#[trigger] vals[i], r)) || exists|k: int|
            0 <= k < exc.len() && (#[trigger] exc[k]).0 == i
}

fn split_block(lane: Lane, vals: &[u64], r: u32) -> (p: Split)
    requires
        lane.fits_all(vals@),
        vals.len() > 0,
        r < 64,
    ensures
        p.dict@ == top_dict_of(lefts_of(vals@, r)),
        0 < p.dict.len() <= MAX_DICT,
        lane.fits_all(p.dict@),
        p.dict@.no_duplicates(),
        split_ok(lane, vals@, r, p.dict@, p.codes@, p.rights@, p.exceptions@),
        p.exceptions.len() == vals.len() - covered_by(lefts_of(vals@, r), p.dict@),
        p.codes@ == left_codes(vals@, r, p.dict@),
        p.rights@ == rights_of(vals@, r),
        p.exceptions@ == exceptions_of(vals@, r, p.dict@, vals@.len()),
        lane.fits_all(p.codes@),
        lane.fits_all(p.rights@),
        forall|i: int| 0 <= i < p.codes.len() ==> (#[trigger] p.codes@[i]) < p.dict.len(),
{
    let ghost s = lefts_of(vals@, r);
    let freq = left_freq(vals, r);
    let (dict, _) = top_dict(freq, Ghost(s));
    proof {
        lemma_dict_facts(lane, vals@, r, dict@);
    }
    let code_of = index_table(&dict);
    let mut codes: Vec<u64> = Vec::new();
    let mut rights: Vec<u64> = Vec::new();
    let mut exceptions: Vec<(u64, u64)> = Vec::new();
    let mut i: usize = 0;
    while i < vals.len()
        invariant
            i <= vals.len(),
            r < 64,
            lane.fits_all(vals@),
            s == lefts_of(vals@, r),
            0 < dict.len() <= MAX_DICT,
            dict@.no_duplicates(),
            fxmap::indexes(code_of@, dict@),
            codes.len() == i,
            rights.len() == i,
            lane.fits_all(codes@),
            lane.fits_all(rights@),
            forall|k: int| 0 <= k < i ==> (#[trigger] codes@[k]) < dict.len(),
            forall|k: int| 0 <= k < i ==> #[trigger] rights@[k] == right_of(vals@[k], r),
            forall|k: int|
                0 <= k < i ==> #[trigger] codes@[k] == code_in(dict@, left_of(vals@[k], r)),
            forall|k: int|
                0 <= k < exceptions.len() ==> (#[trigger] exceptions@[k]).0 < i
                    && exceptions@[k].1 == left_of(vals@[exceptions@[k].0 as int], r),
            forall|k: int|
                0 <= k < i ==> dict@.contains(left_of(#[trigger] vals@[k], r)) || exists|j: int|
                    0 <= j < exceptions.len() && (#[trigger] exceptions@[j]).0 == k,
            exceptions.len() == i - covered_by(s.take(i as int), dict@),
            exceptions@ == exceptions_of(vals@, r, dict@, i as nat),
        decreases vals.len() - i,
    {
        let v: u64 = vals[i];
        proof {
            assert(lane.fits(vals@[i as int]));
            lemma_split_join(lane, v, r);
            assert(s.take(i + 1).drop_last() =~= s.take(i as int));
            assert(s.take(i + 1).last() == left_of(v, r));
        }
        let left: u64 = split_left(v, r);
        rights.push(split_right(v, r));
        let ghost before = exceptions@;
        match fx_get(&code_of, left) {
            Some(c) => {
                proof {
                    assert(code_of@.contains_key(left));
                    assert(dict@[c as int] == left);
                    assert(dict@.contains(left));
                    assert(dict@[dict@.index_of(left)] == left);
                }
                codes.push(c);
            },
            None => {
                proof {
                    if dict@.contains(left) {
                        let k = choose|k: int| 0 <= k < dict@.len() && dict@[k] == left;
                        assert(code_of@.contains_key(dict@[k]));
                    }
                }
                codes.push(0);
                exceptions.push((i as u64, left));
                assert(exceptions@[before.len() as int].0 == i);
            },
        }
        proof {
            assert forall|k: int| 0 <= k < i + 1 implies dict@.contains(
                left_of(#[trigger] vals@[k], r),
            ) || exists|j: int|
                0 <= j < exceptions.len() && (#[trigger] exceptions@[j]).0 == k by {
                if k < i && !dict@.contains(left_of(vals@[k], r)) {
                    let j = choose|j: int| 0 <= j < before.len() && (#[trigger] before[j]).0 == k;
                    assert(exceptions@[j].0 == k);
                }
            }
        }
        i = i + 1;
    }
    proof {
        assert(s.take(vals.len() as int) =~= s);
        assert(codes@ =~= left_codes(vals@, r, dict@));
        assert(rights@ =~= rights_of(vals@, r));
    }
    Split { dict, codes, rights, exceptions }
}

proof fn lemma_dict_facts(lane: Lane, vals: Seq<u64>, r: u32, d: Seq<u64>)
    requires
        lane.fits_all(vals),
        vals.len() > 0,
        r < 64,
        is_top_dict(lefts_of(vals, r), d),
    ensures
        0 < d.len() <= MAX_DICT,
        lane.fits_all(d),
        d.no_duplicates(),
{
    let s = lefts_of(vals, r);
    if d.len() == 0 {
        assert(s.contains(s[0]));
    }
    assert forall|i: int| 0 <= i < d.len() implies lane.fits(#[trigger] d[i]) by {
        assert(s.contains(d[i]));
        let k = choose|k: int| 0 <= k < s.len() && s[k] == d[i];
        assert(lane.fits(vals[k]));
        lemma_split_join(lane, vals[k], r);
    }
    assert forall|i: int, j: int| 0 <= i < d.len() && 0 <= j < d.len() && i != j implies d[i]
        != d[j] by {
        if i < j {
            assert(ranks_before(s, d[i], d[j]));
        } else {
            assert(ranks_before(s, d[j], d[i]));
        }
    }
}

/// The codes and right parts that a block is stored as, if a cut pays off.
pub fn debug_streams(lane: Lane, vals: &[u64]) -> (r: Option<(Vec<u64>, Vec<u64>)>)
    requires
        lane.fits_all(vals@),
    ensures
        r is None <==> vals.len() == 0 || chosen_cut(lane, vals@) is None,
        r matches Some((codes, rights)) ==> {
            let right = (lane.bits() - chosen_cut(lane, vals@)->Some_0) as u32;
            let d = top_dict_of(lefts_of(vals@, right));
            &&& codes@ == left_codes(vals@, right, d)
            &&& rights@ == rights_of(vals@, right)
        },
{
    if vals.len() == 0 {
        return None;
    }
    let left: u32 = match choose_cut(lane, vals) {
        None => return None,
        Some(c) => c,
    };
    let right: u32 = lane.bits() - left;
    let p = split_block(lane, vals, right);
    Some((p.codes, p.rights))
}

// ---------------------------------------------------------------------------
// Payload
// ---------------------------------------------------------------------------

/// The longest bit-packed stream accepted for `n` right parts.
pub open spec fn rights_bound(n: nat) -> nat {
    if 16 * n + 10000 <= usize::MAX {
        16 * n + 10000
    } else {
        usize::MAX as nat
    }
}

/// `k` exceptions at the front of `s`, positions below `n`, and what follows.
pub open spec fn exceptions_parse(lane: Lane, s: Seq<u8>, k: nat, n: nat) -> Result<
    (Seq<(u64, u64)>, Seq<u8>),
    Error,
>
    decreases k,
{
    if k == 0 {
        Ok((Seq::empty(), s))
    } else {
        match varint::varint_parse(s) {
            Err(e) => Err(e),
            Ok((p, rest)) => if rest.len() < lane.bytes() {
                Err(Error::Truncated)
            } else if p >= n {
                Err(Error::CorruptPayload("alp_rd exception position"))
            } else {
                let left = bytes::le_value(rest.take(lane.bytes() as int)) as u64;
                match exceptions_parse(lane, rest.skip(lane.bytes() as int), (k - 1) as nat, n) {
                    Err(e) => Err(e),
                    Ok((more, end)) => Ok((seq![(p, left)] + more, end)),
                }
            },
        }
    }
}

/// The `n` codes stored in `blob` under `tag`.
pub open spec fn rd_codes(lane: Lane, tag: u8, blob: Seq<u8>, n: nat) -> Result<Seq<u64>, Error> {
    if tag == T_BITPACK {
        for_bitpack::for_decoded(lane, blob, n)
    } else if tag == T_ENT {
        match entropy::residuals_decoded(blob, n) {
            Err(e) => Err(e),
            Ok(b) => if b.len() != n {
                Err(Error::CorruptPayload("alp_rd codes length"))
            } else {
                Ok(Seq::new(n, |i: int| b[i] as u64))
            },
        }
    } else {
        Err(Error::CorruptPayload("alp_rd codes tag"))
    }
}

/// The `n` right parts stored in `blob` under `tag`.
pub open spec fn rd_rights(lane: Lane, tag: u8, blob: Seq<u8>, n: nat) -> Result<Seq<u64>, Error> {
    if tag == T_BITPACK {
        for_bitpack::for_decoded(lane, blob, n)
    } else if tag == T_ENT {
        match entropy::residuals_decoded(blob, rights_bound(n)) {
            Err(e) => Err(e),
            Ok(packed) => for_bitpack::for_decoded(lane, packed, n),
        }
    } else {
        Err(Error::CorruptPayload("alp_rd rights tag"))
    }
}

/// `out` with the words at the exceptions `k..` replaced.
pub open spec fn patched(
    lane: Lane,
    out: Seq<u64>,
    exc: Seq<(u64, u64)>,
    k: nat,
    rights: Seq<u64>,
    r: u32,
) -> Seq<u64>
    decreases exc.len() - k,
{
    if k >= exc.len() {
        out
    } else {
        let (p, left) = exc[k as int];
        patched(
            lane,
            out.update(p as int, joined(lane, left, rights[p as int], r)),
            exc,
            k + 1,
            rights,
            r,
        )
    }
}

/// The words that codes, right parts and exceptions stand for.
pub open spec fn assembled(
    lane: Lane,
    d: Seq<u64>,
    codes: Seq<u64>,
    rights: Seq<u64>,
    exc: Seq<(u64, u64)>,
    r: u32,
) -> Result<Seq<u64>, Error> {
    if forall|i: int| 0 <= i < codes.len() ==> (#[trigger] codes[i]) < d.len() {
        let base = Seq::new(
            codes.len(),
            |i: int| joined(lane, d[codes[i] as int], rights[i], r),
        );
        Ok(patched(lane, base, exc, 0, rights, r))
    } else {
        Err(Error::CorruptPayload("alp_rd code out of range"))
    }
}

/// The streams at the front of `s`, joined under dictionary `d` and exceptions.
#[verifier::opaque]
pub open spec fn rd_streams(
    lane: Lane,
    s: Seq<u8>,
    n: nat,
    d: Seq<u64>,
    exc: Seq<(u64, u64)>,
    r: u32,
) -> Result<Seq<u64>, Error> {
    if s.len() == 0 {
        Err(Error::Truncated)
    } else {
        match varint::varint_parse(s.drop_first()) {
            Err(e) => Err(e),
            Ok((len, rest)) => if rest.len() < len || rest.len() == len {
                Err(Error::Truncated)
            } else {
                match rd_codes(lane, s[0], rest.take(len as int), n) {
                    Err(e) => Err(e),
                    Ok(codes) => match rd_rights(
                        lane,
                        rest[len as int],
                        rest.skip(len as int + 1),
                        n,
                    ) {
                        Err(e) => Err(e),
                        Ok(rights) => assembled(lane, d, codes, rights, exc, r),
                    },
                }
            },
        }
    }
}

/// The `n` words coded by `payload`.
pub open spec fn rd_decoded(lane: Lane, payload: Seq<u8>, n: nat) -> Result<Seq<u64>, Error> {
    if payload.len() == 0 {
        Err(Error::Truncated)
    } else if payload[0] < 1 || payload[0] >= lane.bits() {
        Err(Error::CorruptPayload("alp_rd left_bw out of range"))
    } else if payload.len() == 1 {
        Err(Error::Truncated)
    } else if payload[1] > MAX_DICT {
        Err(Error::CorruptPayload("alp_rd dict too large"))
    } else {
        let end = 2 + payload[1] * lane.bytes();
        if payload.len() < end {
            Err(Error::Truncated)
        } else {
            let d = lane.words_of(payload.subrange(2, end));
            match varint::varint_parse(payload.skip(end)) {
                Err(e) => Err(e),
                Ok((k, s)) => if k > n {
                    Err(Error::CorruptPayload("alp_rd too many exceptions"))
                } else {
                    match exceptions_parse(lane, s, k as nat, n) {
                        Err(e) => Err(e),
                        Ok((exc, rest)) => rd_streams(
                            lane,
                            rest,
                            n,
                            d,
                            exc,
                            (lane.bits() - payload[0]) as u32,
                        ),
                    }
                },
            }
        }
    }
}

/// The bytes of exceptions: each its position and its left part.
pub open spec fn exception_bytes(lane: Lane, exc: Seq<(u64, u64)>) -> Seq<u8>
    decreases exc.len(),
{
    if exc.len() == 0 {
        Seq::empty()
    } else {
        varint::varint_bytes(exc[0].0 as nat) + lane.word_bytes(exc[0].1) + exception_bytes(
            lane,
            exc.drop_first(),
        )
    }
}

proof fn lemma_exceptions_roundtrip(lane: Lane, exc: Seq<(u64, u64)>, n: nat, rest: Seq<u8>)
    requires
        forall|k: int|
            0 <= k < exc.len() ==> (#[trigger] exc[k]).0 < n && lane.fits(exc[k].1),
    ensures
        exceptions_parse(lane, exception_bytes(lane, exc) + rest, exc.len(), n) == Ok::<_, Error>(
            (exc, rest),
        ),
    decreases exc.len(),
{
    let s = exception_bytes(lane, exc) + rest;
    if exc.len() == 0 {
        assert(s =~= rest);
        assert(exc =~= Seq::empty());
    } else {
        let tail = exc.drop_first();
        assert forall|k: int| 0 <= k < tail.len() implies (#[trigger] tail[k]).0 < n && lane.fits(
            tail[k].1,
        ) by {
            assert(exc[k + 1].0 < n);
        }
        lemma_exceptions_roundtrip(lane, tail, n, rest);
        let (p, left) = exc[0];
        let word = lane.word_bytes(left);
        bytes::lemma_pow256_values();
        bytes::lemma_le_roundtrip(left as nat, lane.bytes() as nat);
        let after = word + (exception_bytes(lane, tail) + rest);
        assert(s =~= varint::varint_bytes(p as nat) + after);
        varint::lemma_varint_roundtrip(p, after);
        assert(after.take(lane.bytes() as int) =~= word);
        assert(after.skip(lane.bytes() as int) =~= exception_bytes(lane, tail) + rest);
        assert(seq![(p, left)] + tail =~= exc);
    }
}

fn write_exceptions(lane: Lane, exc: &Vec<(u64, u64)>, out: &mut Vec<u8>)
    ensures
        final(out)@ == old(out)@ + varint::varint_bytes(exc@.len()) + exception_bytes(lane, exc@),
{
    varint::write_u64(out, exc.len() as u64);
    let ghost start = out@;
    let mut i: usize = 0;
    assert(exc@.skip(0) =~= exc@);
    while i < exc.len()
        invariant
            i <= exc.len(),
            out@ + exception_bytes(lane, exc@.skip(i as int)) == start + exception_bytes(
                lane,
                exc@,
            ),
        decreases exc.len() - i,
    {
        let ghost before = out@;
        let (p, left) = exc[i];
        varint::write_u64(out, p);
        lane.write_word(out, left);
        proof {
            let t = exc@.skip(i as int);
            assert(t.drop_first() =~= exc@.skip(i + 1));
            assert(out@ + exception_bytes(lane, exc@.skip(i + 1)) =~= before + exception_bytes(
                lane,
                t,
            ));
        }
        i = i + 1;
    }
    assert(out@ + Seq::<u8>::empty() =~= out@);
}

/// Every word not yet right is still to be patched.
proof fn lemma_patched(
    lane: Lane,
    vals: Seq<u64>,
    out: Seq<u64>,
    exc: Seq<(u64, u64)>,
    k: nat,
    rights: Seq<u64>,
    r: u32,
)
    requires
        lane.fits_all(vals),
        r < 64,
        out.len() == vals.len(),
        rights.len() == vals.len(),
        k <= exc.len(),
        forall|i: int| 0 <= i < vals.len() ==> #[trigger] rights[i] == right_of(vals[i], r),
        forall|j: int|
            0 <= j < exc.len() ==> (#[trigger] exc[j]).0 < vals.len() && exc[j].1 == left_of(
                vals[exc[j].0 as int],
                r,
            ),
        forall|i: int|
            0 <= i < vals.len() ==> #[trigger] out[i] == vals[i] || exists|j: int|
                k <= j < exc.len() && (#[trigger] exc[j]).0 == i,
    ensures
        patched(lane, out, exc, k, rights, r) == vals,
    decreases exc.len() - k,
{
    if k < exc.len() {
        let (p, left) = exc[k as int];
        assert(lane.fits(vals[p as int]));
        lemma_split_join(lane, vals[p as int], r);
        let next = out.update(p as int, joined(lane, left, rights[p as int], r));
        assert forall|i: int| 0 <= i < vals.len() implies #[trigger] next[i] == vals[i] || exists|
            j: int,
        |
            k + 1 <= j < exc.len() && (#[trigger] exc[j]).0 == i by {
            if i != p && out[i] != vals[i] {
                let j = choose|j: int| k <= j < exc.len() && (#[trigger] exc[j]).0 == i;
                assert(j != k);
            }
        }
        lemma_patched(lane, vals, next, exc, k + 1, rights, r);
    } else {
        assert(out =~= vals);
    }
}

proof fn lemma_assembled(
    lane: Lane,
    vals: Seq<u64>,
    r: u32,
    d: Seq<u64>,
    codes: Seq<u64>,
    rights: Seq<u64>,
    exc: Seq<(u64, u64)>,
)
    requires
        lane.fits_all(vals),
        r < 64,
        d.len() <= MAX_DICT,
        split_ok(lane, vals, r, d, codes, rights, exc),
        forall|i: int| 0 <= i < codes.len() ==> (#[trigger] codes[i]) < d.len(),
    ensures
        assembled(lane, d, codes, rights, exc, r) == Ok::<_, Error>(vals),
{
    let base = Seq::new(codes.len(), |i: int| joined(lane, d[codes[i] as int], rights[i], r));
    assert forall|i: int| 0 <= i < vals.len() implies #[trigger] base[i] == vals[i] || exists|
        j: int,
    |
        0 <= j < exc.len() && (#[trigger] exc[j]).0 == i by {
        let left = left_of(vals[i], r);
        if d.contains(left) {
            assert(d[d.index_of(left)] == left);
            assert(codes[i] == code_in(d, left));
            assert(rights[i] == right_of(vals[i], r));
            assert(lane.fits(vals[i]));
            lemma_split_join(lane, vals[i], r);
        }
    }
    lemma_patched(lane, vals, base, exc, 0, rights, r);
}

/// The smaller form of the codes, with its tag: bit-packed or, where `entropy` allows
/// it, as entropy-coded bytes.
#[verifier::opaque]
pub open spec fn codes_form(
    lane: Lane,
    codes: Seq<u64>,
    entropy: bool,
    lambda: u64,
    allow_lz: bool,
) -> (u8, Seq<u8>) {
    let packed = for_bitpack::for_image(lane, false, codes);
    let plain = Seq::new(codes.len(), |i: int| codes[i] as u8);
    let coded = entropy::residuals_coded(plain, lambda, allow_lz);
    if entropy && coded.len() < packed.len() {
        (T_ENT, coded)
    } else {
        (T_BITPACK, packed)
    }
}

/// The smaller form of the right parts, with its tag: bit-packed, entropy-coded on
/// top where `entropy` allows it.
#[verifier::opaque]
pub open spec fn rights_form(
    lane: Lane,
    rights: Seq<u64>,
    entropy: bool,
    lambda: u64,
    allow_lz: bool,
) -> (u8, Seq<u8>) {
    let packed = for_bitpack::for_image(lane, false, rights);
    let coded = entropy::residuals_coded(packed, lambda, allow_lz);
    if entropy && coded.len() < packed.len() {
        (T_ENT, coded)
    } else {
        (T_BITPACK, packed)
    }
}

/// The payload of `vals`, cut where the estimate is least.
pub open spec fn rd_image(
    lane: Lane,
    vals: Seq<u64>,
    entropy: bool,
    lambda: u64,
    allow_lz: bool,
) -> Seq<u8> {
    let left = chosen_cut(lane, vals)->Some_0;
    let r = (lane.bits() - left) as u32;
    let d = top_dict_of(lefts_of(vals, r));
    let (codes_tag, codes) = codes_form(lane, left_codes(vals, r, d), entropy, lambda, allow_lz);
    let (rights_tag, rights) = rights_form(lane, rights_of(vals, r), entropy, lambda, allow_lz);
    payload_head(lane, left as u8, d, exceptions_of(vals, r, d, vals.len())) + stream_bytes(
        codes_tag,
        codes,
        rights_tag,
        rights,
    )
}

/// The smaller form of the codes, with its tag.
fn encode_codes(lane: Lane, codes: &Vec<u64>, entropy: bool, lambda: u64, allow_lz: bool) -> (r: (
    u8,
    Vec<u8>,
))
    requires
        lane.fits_all(codes@),
        forall|i: int| 0 <= i < codes.len() ==> (#[trigger] codes@[i]) < MAX_DICT,
    ensures
        rd_codes(lane, r.0, r.1@, codes@.len()) == Ok::<_, Error>(codes@),
        (r.0, r.1@) == codes_form(lane, codes@, entropy, lambda, allow_lz),
{
    reveal(codes_form);
    let packed = for_bitpack::encode(lane, codes, false);
    if entropy {
        let mut plain: Vec<u8> = Vec::new();
        let mut i: usize = 0;
        while i < codes.len()
            invariant
                i <= codes.len(),
                forall|k: int| 0 <= k < codes.len() ==> (#[trigger] codes@[k]) < MAX_DICT,
                plain.len() == i,
                forall|k: int| 0 <= k < i ==> #[trigger] plain@[k] == codes@[k],
            decreases codes.len() - i,
        {
            plain.push(codes[i] as u8);
            i = i + 1;
        }
        assert(plain@ =~= Seq::new(codes@.len(), |k: int| codes@[k] as u8));
        let coded = code_residuals(&plain, lambda, allow_lz);
        if coded.len() < packed.len() {
            assert(Seq::new(codes@.len(), |k: int| plain@[k] as u64) =~= codes@);
            return (T_ENT, coded);
        }
    }
    (T_BITPACK, packed)
}

/// The smaller form of the right parts, with its tag.
fn encode_rights(lane: Lane, rights: &Vec<u64>, entropy: bool, lambda: u64, allow_lz: bool) -> (r: (
    u8,
    Vec<u8>,
))
    requires
        lane.fits_all(rights@),
    ensures
        rd_rights(lane, r.0, r.1@, rights@.len()) == Ok::<_, Error>(rights@),
        (r.0, r.1@) == rights_form(lane, rights@, entropy, lambda, allow_lz),
{
    reveal(rights_form);
    let packed = for_bitpack::encode(lane, rights, false);
    if entropy {
        let coded = code_residuals(&packed, lambda, allow_lz);
        if coded.len() < packed.len() {
            assert(packed@.len() == packed.len());
            return (T_ENT, coded);
        }
    }
    (T_BITPACK, packed)
}

/// Encode a block.
pub fn encode(lane: Lane, vals: &[u64], entropy: bool, lambda: u64, allow_lz: bool) -> (r: Option<
    Vec<u8>,
>)
    requires
        lane.fits_all(vals@),
    ensures
        r is Some <==> rd_applies(lane, vals@),
        r matches Some(out) ==> out@ == rd_image(lane, vals@, entropy, lambda, allow_lz),
        !entropy ==> (r matches Some(out) ==> rd_bitpacked(lane, out@)),
        r matches Some(out) ==> rd_decoded(lane, out@, vals@.len()) == Ok::<_, Error>(vals@),
{
    if vals.len() == 0 {
        return None;
    }
    let left: u32 = match choose_cut(lane, vals) {
        None => return None,
        Some(c) => c,
    };
    let right: u32 = lane.bits() - left;
    let p = split_block(lane, vals, right);
    if p.exceptions.len() > vals.len() / 4 {
        return None;
    }
    let (codes_tag, codes) = encode_codes(lane, &p.codes, entropy, lambda, allow_lz);
    let (rights_tag, rights) = encode_rights(lane, &p.rights, entropy, lambda, allow_lz);
    proof {
        assert(codes@.len() == codes.len());
        lemma_block(
            lane,
            vals@,
            left as u8,
            p.dict@,
            p.codes@,
            p.rights@,
            p.exceptions@,
            (codes_tag, codes@),
            (rights_tag, rights@),
        );
        if !entropy {
            reveal(codes_form);
            reveal(rights_form);
            lemma_bitpacked(lane, left as u8, p.dict@, p.exceptions@, codes@, rights@);
        }
    }
    Some(write_payload(lane, left as u8, &p, codes_tag, &codes, rights_tag, &rights))
}

/// Exceptions are stepped over.
proof fn lemma_after_exceptions(lane: Lane, exc: Seq<(u64, u64)>, rest: Seq<u8>)
    ensures
        after_exceptions(lane, exception_bytes(lane, exc) + rest, exc.len()) == Some(rest),
    decreases exc.len(),
{
    let s = exception_bytes(lane, exc) + rest;
    if exc.len() == 0 {
        assert(s =~= rest);
    } else {
        let tail = exc.drop_first();
        lemma_after_exceptions(lane, tail, rest);
        let word = lane.word_bytes(exc[0].1);
        bytes::lemma_le_bytes_len(exc[0].1 as nat, lane.bytes() as nat);
        let after = word + (exception_bytes(lane, tail) + rest);
        assert(s =~= varint::varint_bytes(exc[0].0 as nat) + after);
        varint::lemma_varint_roundtrip(exc[0].0, after);
        assert(after.skip(lane.bytes() as int) =~= exception_bytes(lane, tail) + rest);
    }
}

/// A payload of two bit-packed streams says so.
proof fn lemma_bitpacked(
    lane: Lane,
    left: u8,
    d: Seq<u64>,
    exc: Seq<(u64, u64)>,
    codes: Seq<u8>,
    rights: Seq<u8>,
)
    requires
        d.len() <= MAX_DICT,
        exc.len() <= u64::MAX,
        codes.len() <= u64::MAX,
    ensures
        rd_bitpacked(
            lane,
            payload_head(lane, left, d, exc) + stream_bytes(T_BITPACK, codes, T_BITPACK, rights),
        ),
{
    let streams = stream_bytes(T_BITPACK, codes, T_BITPACK, rights);
    let out = payload_head(lane, left, d, exc) + streams;
    let image = lane.words_bytes(d);
    let s = exception_bytes(lane, exc) + streams;
    let end = 2 + d.len() * lane.bytes();
    lane::lemma_words_bytes_len(lane, d);
    let front = seq![left, d.len() as u8];
    assert(out =~= front + (image + (varint::varint_bytes(exc.len()) + s)));
    assert(out.skip(end) =~= varint::varint_bytes(exc.len()) + s);
    varint::lemma_varint_roundtrip(exc.len() as u64, s);
    lemma_after_exceptions(lane, exc, streams);
    let rest = codes + seq![T_BITPACK] + rights;
    assert(streams.drop_first() =~= varint::varint_bytes(codes.len()) + rest);
    varint::lemma_varint_roundtrip(codes.len() as u64, rest);
    assert(rest[codes.len() as int] == T_BITPACK);
}

fn write_payload(
    lane: Lane,
    left: u8,
    p: &Split,
    codes_tag: u8,
    codes: &Vec<u8>,
    rights_tag: u8,
    rights: &Vec<u8>,
) -> (out: Vec<u8>)
    requires
        p.dict.len() <= MAX_DICT,
    ensures
        out@ == payload_head(lane, left, p.dict@, p.exceptions@) + stream_bytes(
            codes_tag,
            codes@,
            rights_tag,
            rights@,
        ),
{
    let mut out: Vec<u8> = Vec::new();
    out.push(left);
    out.push(p.dict.len() as u8);
    lane.write_words(&mut out, &p.dict);
    write_exceptions(lane, &p.exceptions, &mut out);
    let ghost head = out@;
    assert(head =~= payload_head(lane, left, p.dict@, p.exceptions@));
    out.push(codes_tag);
    varint::write_u64(&mut out, codes.len() as u64);
    append_bytes(&mut out, codes);
    out.push(rights_tag);
    append_bytes(&mut out, rights);
    assert(out@ =~= head + stream_bytes(codes_tag, codes@, rights_tag, rights@));
    out
}

/// The two streams of a payload.
pub open spec fn stream_bytes(codes_tag: u8, codes: Seq<u8>, rights_tag: u8, rights: Seq<u8>) -> Seq<u8> {
    seq![codes_tag] + varint::varint_bytes(codes.len()) + codes + seq![rights_tag] + rights
}

proof fn lemma_block(
    lane: Lane,
    vals: Seq<u64>,
    left: u8,
    d: Seq<u64>,
    codes: Seq<u64>,
    rights: Seq<u64>,
    exc: Seq<(u64, u64)>,
    c: (u8, Seq<u8>),
    r: (u8, Seq<u8>),
)
    requires
        lane.fits_all(vals),
        1 <= left < lane.bits(),
        d.len() <= MAX_DICT,
        lane.fits_all(d),
        exc.len() <= vals.len() <= u64::MAX,
        c.1.len() <= u64::MAX,
        split_ok(lane, vals, (lane.bits() - left) as u32, d, codes, rights, exc),
        forall|i: int| 0 <= i < codes.len() ==> (#[trigger] codes[i]) < d.len(),
        rd_codes(lane, c.0, c.1, vals.len()) == Ok::<_, Error>(codes),
        rd_rights(lane, r.0, r.1, vals.len()) == Ok::<_, Error>(rights),
    ensures
        rd_decoded(
            lane,
            payload_head(lane, left, d, exc) + stream_bytes(c.0, c.1, r.0, r.1),
            vals.len(),
        ) == Ok::<_, Error>(vals),
{
    let right = (lane.bits() - left) as u32;
    let streams = stream_bytes(c.0, c.1, r.0, r.1);
    lemma_streams(lane, c.0, c.1, r.0, r.1, streams, vals.len(), codes, rights);
    lemma_assembled(lane, vals, right, d, codes, rights, exc);
    assert forall|k: int| 0 <= k < exc.len() implies (#[trigger] exc[k]).0 < vals.len()
        && lane.fits(exc[k].1) by {
        let at = exc[k].0 as int;
        assert(lane.fits(vals[at]));
        lemma_split_join(lane, vals[at], right);
    }
    lemma_payload(lane, left, d, exc, streams, vals.len());
}

/// What stands before the two streams of a payload.
pub open spec fn payload_head(lane: Lane, left: u8, d: Seq<u64>, exc: Seq<(u64, u64)>) -> Seq<u8> {
    seq![left, d.len() as u8] + lane.words_bytes(d) + varint::varint_bytes(exc.len())
        + exception_bytes(lane, exc)
}

#[verifier::rlimit(30)]
proof fn lemma_payload(
    lane: Lane,
    left: u8,
    d: Seq<u64>,
    exc: Seq<(u64, u64)>,
    streams: Seq<u8>,
    n: nat,
)
    requires
        1 <= left < lane.bits(),
        d.len() <= MAX_DICT,
        lane.fits_all(d),
        exc.len() <= n <= u64::MAX,
        forall|k: int|
            0 <= k < exc.len() ==> (#[trigger] exc[k]).0 < n && lane.fits(exc[k].1),
    ensures
        rd_decoded(lane, payload_head(lane, left, d, exc) + streams, n) == rd_streams(
            lane,
            streams,
            n,
            d,
            exc,
            (lane.bits() - left) as u32,
        ),
{
    let out = payload_head(lane, left, d, exc) + streams;
    let image = lane.words_bytes(d);
    let s = exception_bytes(lane, exc) + streams;
    let end = 2 + d.len() * lane.bytes();
    assert(out[0] == left && out[1] == d.len() && out.len() >= end && out.subrange(2, end) == image
        && out.skip(end) == varint::varint_bytes(exc.len()) + s) by {
        lane::lemma_words_bytes_len(lane, d);
        let front = seq![left, d.len() as u8];
        assert(out =~= front + (image + (varint::varint_bytes(exc.len()) + s)));
        assert(out.subrange(2, end) =~= image);
        assert(out.skip(end) =~= varint::varint_bytes(exc.len()) + s);
    }
    lane::lemma_words_roundtrip(lane, d);
    lemma_exceptions_roundtrip(lane, exc, n, streams);
    varint::lemma_varint_roundtrip(exc.len() as u64, s);
}

proof fn lemma_streams(
    lane: Lane,
    codes_tag: u8,
    codes_blob: Seq<u8>,
    rights_tag: u8,
    rights_blob: Seq<u8>,
    s: Seq<u8>,
    n: nat,
    codes: Seq<u64>,
    rights: Seq<u64>,
)
    requires
        codes_blob.len() <= u64::MAX,
        s == seq![codes_tag] + varint::varint_bytes(codes_blob.len()) + codes_blob
            + seq![rights_tag] + rights_blob,
        rd_codes(lane, codes_tag, codes_blob, n) == Ok::<_, Error>(codes),
        rd_rights(lane, rights_tag, rights_blob, n) == Ok::<_, Error>(rights),
    ensures
        forall|d: Seq<u64>, exc: Seq<(u64, u64)>, r: u32|
            #[trigger] rd_streams(lane, s, n, d, exc, r) == assembled(
                lane,
                d,
                codes,
                rights,
                exc,
                r,
            ),
{
    reveal(rd_streams);
    let rest = codes_blob + seq![rights_tag] + rights_blob;
    assert(s.drop_first() =~= varint::varint_bytes(codes_blob.len()) + rest);
    varint::lemma_varint_roundtrip(codes_blob.len() as u64, rest);
    let len = codes_blob.len() as int;
    assert(rest.take(len) =~= codes_blob);
    assert(rest[len] == rights_tag);
    assert(rest.skip(len + 1) =~= rights_blob);
}

/// Read `k` exceptions from `payload` at `pos`.
fn read_exceptions(lane: Lane, payload: &[u8], pos: &mut usize, k: usize, n: usize) -> (r: Result<
    Vec<(u64, u64)>,
    Error,
>)
    requires
        *old(pos) <= payload.len(),
    ensures
        match exceptions_parse(lane, payload@.skip(*old(pos) as int), k as nat, n as nat) {
            Err(e) => r == Err::<Vec<(u64, u64)>, Error>(e),
            Ok((exc, rest)) => {
                &&& r is Ok
                &&& r->Ok_0@ == exc
                &&& *final(pos) <= payload.len()
                &&& payload@.skip(*final(pos) as int) == rest
            },
        },
        r matches Ok(v) ==> forall|j: int| 0 <= j < v.len() ==> (#[trigger] v@[j]).0 < n,
{
    let ghost whole = exceptions_parse(lane, payload@.skip(*pos as int), k as nat, n as nat);
    let mut out: Vec<(u64, u64)> = Vec::new();
    let mut i: usize = 0;
    proof {
        match whole {
            Err(e) => {},
            Ok((t, rest)) => {
                assert(Seq::<(u64, u64)>::empty() + t =~= t);
            },
        }
    }
    while i < k
        invariant
            i <= k,
            *pos <= payload.len(),
            whole == exceptions_parse(lane, payload@.skip(*old(pos) as int), k as nat, n as nat),
            whole == (match exceptions_parse(
                lane,
                payload@.skip(*pos as int),
                (k - i) as nat,
                n as nat,
            ) {
                Err(e) => Err::<(Seq<(u64, u64)>, Seq<u8>), Error>(e),
                Ok((t, rest)) => Ok::<_, Error>((out@ + t, rest)),
            }),
            forall|j: int| 0 <= j < out.len() ==> (#[trigger] out@[j]).0 < n,
        decreases k - i,
    {
        let ghost s = payload@.skip(*pos as int);
        let p: u64 = match varint::read_u64(payload, pos) {
            Err(e) => return Err(e),
            Ok(v) => v,
        };
        let ghost rest = payload@.skip(*pos as int);
        if payload.len() - *pos < lane.bytes() as usize {
            return Err(Error::Truncated);
        }
        if p >= n as u64 {
            return Err(Error::CorruptPayload("alp_rd exception position"));
        }
        let left: u64 = lane.read_word(payload, *pos);
        *pos = *pos + lane.bytes() as usize;
        let ghost before = out@;
        out.push((p, left));
        proof {
            assert(rest.take(lane.bytes() as int) =~= payload@.subrange(
                *pos - lane.bytes(),
                *pos as int,
            ));
            assert(rest.skip(lane.bytes() as int) =~= payload@.skip(*pos as int));
            match exceptions_parse(
                lane,
                payload@.skip(*pos as int),
                (k - i - 1) as nat,
                n as nat,
            ) {
                Err(e) => {},
                Ok((t, end)) => {
                    assert(before + (seq![(p, left)] + t) =~= out@ + t);
                },
            }
        }
        i = i + 1;
    }
    assert(out@ + Seq::<(u64, u64)>::empty() =~= out@);
    Ok(out)
}

fn decode_codes(lane: Lane, tag: u8, blob: &[u8], n: usize) -> (r: Result<Vec<u64>, Error>)
    ensures
        error::viewed(r) == rd_codes(lane, tag, blob@, n as nat),
        r matches Ok(v) ==> v.len() == n,
{
    if tag == T_BITPACK {
        for_bitpack::decode(lane, blob, n)
    } else if tag == T_ENT {
        let b: Vec<u8> = match decode_residuals(blob, n) {
            Err(e) => return Err(e),
            Ok(b) => b,
        };
        if b.len() != n {
            return Err(Error::CorruptPayload("alp_rd codes length"));
        }
        let mut out: Vec<u64> = Vec::new();
        let mut i: usize = 0;
        while i < n
            invariant
                i <= n,
                b.len() == n,
                out.len() == i,
                forall|k: int| 0 <= k < i ==> #[trigger] out@[k] == b@[k] as u64,
            decreases n - i,
        {
            out.push(b[i] as u64);
            i = i + 1;
        }
        assert(out@ =~= Seq::new(n as nat, |k: int| b@[k] as u64));
        Ok(out)
    } else {
        Err(Error::CorruptPayload("alp_rd codes tag"))
    }
}

fn decode_rights(lane: Lane, tag: u8, blob: &[u8], n: usize) -> (r: Result<Vec<u64>, Error>)
    ensures
        error::viewed(r) == rd_rights(lane, tag, blob@, n as nat),
        r matches Ok(v) ==> v.len() == n && lane.fits_all(v@),
{
    if tag == T_BITPACK {
        for_bitpack::decode(lane, blob, n)
    } else if tag == T_ENT {
        let bound: usize = if n <= (usize::MAX - 10000) / 16 {
            16 * n + 10000
        } else {
            usize::MAX
        };
        match decode_residuals(blob, bound) {
            Err(e) => Err(e),
            Ok(packed) => for_bitpack::decode(lane, &packed, n),
        }
    } else {
        Err(Error::CorruptPayload("alp_rd rights tag"))
    }
}

/// Join codes, right parts and exceptions.
fn assemble(
    lane: Lane,
    dict: &Vec<u64>,
    codes: &Vec<u64>,
    rights: &Vec<u64>,
    exc: &Vec<(u64, u64)>,
    r: u32,
) -> (res: Result<Vec<u64>, Error>)
    requires
        r < lane.bits(),
        codes.len() == rights.len(),
        lane.fits_all(rights@),
        forall|j: int| 0 <= j < exc.len() ==> (#[trigger] exc@[j]).0 < codes.len(),
    ensures
        error::viewed(res) == assembled(lane, dict@, codes@, rights@, exc@, r),
        res matches Ok(v) ==> v.len() == codes.len() && lane.fits_all(v@),
{
    let mut out: Vec<u64> = Vec::new();
    let mut i: usize = 0;
    while i < codes.len()
        invariant
            i <= codes.len(),
            r < lane.bits(),
            codes.len() == rights.len(),
            lane.fits_all(rights@),
            out.len() == i,
            lane.fits_all(out@),
            forall|k: int| 0 <= k < i ==> (#[trigger] codes@[k]) < dict.len(),
            forall|k: int|
                0 <= k < i ==> #[trigger] out@[k] == joined(
                    lane,
                    dict@[codes@[k] as int],
                    rights@[k],
                    r,
                ),
        decreases codes.len() - i,
    {
        if codes[i] >= dict.len() as u64 {
            assert(!(codes@[i as int] < dict.len()));
            return Err(Error::CorruptPayload("alp_rd code out of range"));
        }
        out.push(join(lane, dict[codes[i] as usize], rights[i], r));
        i = i + 1;
    }
    let ghost base = Seq::new(
        codes@.len(),
        |k: int| joined(lane, dict@[codes@[k] as int], rights@[k], r),
    );
    assert(out@ =~= base);
    let mut j: usize = 0;
    while j < exc.len()
        invariant
            j <= exc.len(),
            r < lane.bits(),
            codes.len() == rights.len(),
            out.len() == codes.len(),
            lane.fits_all(rights@),
            lane.fits_all(out@),
            forall|k: int| 0 <= k < exc.len() ==> (#[trigger] exc@[k]).0 < codes.len(),
            patched(lane, out@, exc@, j as nat, rights@, r) == patched(
                lane,
                base,
                exc@,
                0,
                rights@,
                r,
            ),
        decreases exc.len() - j,
    {
        let (p, left) = exc[j];
        assert(exc@[j as int].0 < codes.len());
        out.set(p as usize, join(lane, left, rights[p as usize], r));
        j = j + 1;
    }
    Ok(out)
}

/// Decode `n` words.
pub fn decode(lane: Lane, payload: &[u8], n: usize) -> (r: Result<Vec<u64>, Error>)
    ensures
        error::viewed(r) == rd_decoded(lane, payload@, n as nat),
        r matches Ok(v) ==> v.len() == n && lane.fits_all(v@),
{
    if payload.len() == 0 {
        return Err(Error::Truncated);
    }
    let left: u8 = payload[0];
    if left < 1 || left as u32 >= lane.bits() {
        return Err(Error::CorruptPayload("alp_rd left_bw out of range"));
    }
    if payload.len() == 1 {
        return Err(Error::Truncated);
    }
    let size: usize = payload[1] as usize;
    if size > MAX_DICT {
        return Err(Error::CorruptPayload("alp_rd dict too large"));
    }
    let width: usize = lane.bytes() as usize;
    if payload.len() - 2 < size * width {
        return Err(Error::Truncated);
    }
    let end: usize = 2 + size * width;
    let dict = lane.from_le_image(vstd::slice::slice_subrange(payload, 2, end));
    let mut pos: usize = end;
    let k: u64 = match varint::read_u64(payload, &mut pos) {
        Err(e) => return Err(e),
        Ok(k) => k,
    };
    if k > n as u64 {
        return Err(Error::CorruptPayload("alp_rd too many exceptions"));
    }
    let exc: Vec<(u64, u64)> = match read_exceptions(lane, payload, &mut pos, k as usize, n) {
        Err(e) => return Err(e),
        Ok(v) => v,
    };
    let right: u32 = lane.bits() - left as u32;
    decode_streams(lane, payload, pos, n, &dict, &exc, right)
}

/// Decode the streams that begin at `pos` and join them.
fn decode_streams(
    lane: Lane,
    payload: &[u8],
    pos: usize,
    n: usize,
    dict: &Vec<u64>,
    exc: &Vec<(u64, u64)>,
    right: u32,
) -> (r: Result<Vec<u64>, Error>)
    requires
        pos <= payload.len(),
        right < lane.bits(),
        forall|j: int| 0 <= j < exc.len() ==> (#[trigger] exc@[j]).0 < n,
    ensures
        error::viewed(r) == rd_streams(
            lane,
            payload@.skip(pos as int),
            n as nat,
            dict@,
            exc@,
            right,
        ),
        r matches Ok(v) ==> v.len() == n && lane.fits_all(v@),
{
    reveal(rd_streams);
    let ghost s = payload@.skip(pos as int);
    if pos == payload.len() {
        return Err(Error::Truncated);
    }
    let codes_tag: u8 = payload[pos];
    let mut at: usize = pos + 1;
    assert(s.drop_first() =~= payload@.skip(at as int));
    let len: u64 = match varint::read_u64(payload, &mut at) {
        Err(e) => return Err(e),
        Ok(v) => v,
    };
    if len >= (payload.len() - at) as u64 {
        return Err(Error::Truncated);
    }
    let to: usize = at + len as usize;
    let rights_tag: u8 = payload[to];
    let codes_blob = vstd::slice::slice_subrange(payload, at, to);
    let rights_blob = vstd::slice::slice_subrange(payload, to + 1, payload.len());
    proof {
        let rest = payload@.skip(at as int);
        assert(codes_blob@ =~= rest.take(len as int));
        assert(rights_blob@ =~= rest.skip(len as int + 1));
        assert(rest[len as int] == rights_tag);
    }
    let codes: Vec<u64> = match decode_codes(lane, codes_tag, codes_blob, n) {
        Err(e) => return Err(e),
        Ok(v) => v,
    };
    let rights: Vec<u64> = match decode_rights(lane, rights_tag, rights_blob, n) {
        Err(e) => return Err(e),
        Ok(v) => v,
    };
    assemble(lane, dict, &codes, &rights, exc, right)
}

// ---------------------------------------------------------------------------
// Whether a payload runs an entropy coder
// ---------------------------------------------------------------------------

/// What follows `k` exceptions at the front of `s`.
pub open spec fn after_exceptions(lane: Lane, s: Seq<u8>, k: nat) -> Option<Seq<u8>>
    decreases k,
{
    if k == 0 {
        Some(s)
    } else {
        match varint::varint_parse(s) {
            Err(_) => None,
            Ok((_, rest)) => if rest.len() < lane.bytes() {
                None
            } else {
                after_exceptions(lane, rest.skip(lane.bytes() as int), (k - 1) as nat)
            },
        }
    }
}

/// The streams at the front of `s` are both bit-packed.
pub open spec fn streams_bitpacked(s: Seq<u8>) -> bool {
    &&& s.len() > 0
    &&& s[0] == T_BITPACK
    &&& varint::varint_parse(s.drop_first()) matches Ok((len, rest)) && len < rest.len()
        && rest[len as int] == T_BITPACK
}

/// Both streams of `payload` are bit-packed.
pub open spec fn rd_bitpacked(lane: Lane, payload: Seq<u8>) -> bool {
    &&& payload.len() >= 2
    &&& payload.len() >= 2 + payload[1] * lane.bytes()
    &&& varint::varint_parse(payload.skip(2 + payload[1] * lane.bytes())) matches Ok((k, s))
        && after_exceptions(lane, s, k as nat) matches Some(rest) && streams_bitpacked(rest)
}

/// Whether decoding `payload` runs an entropy coder. A payload that cannot be
/// read through to its tags counts as one that does.
pub fn uses_entropy(lane: Lane, payload: &[u8]) -> (r: bool)
    ensures
        r == !rd_bitpacked(lane, payload@),
{
    let width: usize = lane.bytes() as usize;
    if payload.len() < 2 {
        return true;
    }
    let dict_bytes: usize = payload[1] as usize * width;
    if payload.len() - 2 < dict_bytes {
        return true;
    }
    let mut pos: usize = 2 + dict_bytes;
    let k: u64 = match varint::read_u64(payload, &mut pos) {
        Err(_) => return true,
        Ok(k) => k,
    };
    let ghost whole = after_exceptions(lane, payload@.skip(pos as int), k as nat);
    let mut i: u64 = 0;
    while i < k
        invariant
            i <= k,
            pos <= payload.len(),
            width == lane.bytes(),
            rd_bitpacked(lane, payload@) == (whole matches Some(rest) && streams_bitpacked(rest)),
            whole == after_exceptions(lane, payload@.skip(pos as int), (k - i) as nat),
        decreases k - i,
    {
        if varint::read_u64(payload, &mut pos).is_err() {
            return true;
        }
        if payload.len() - pos < width {
            return true;
        }
        assert(payload@.skip(pos as int).skip(width as int) =~= payload@.skip(pos + width));
        pos = pos + width;
        i = i + 1;
    }
    if pos == payload.len() {
        return true;
    }
    let codes_tag: u8 = payload[pos];
    let ghost rest = payload@.skip(pos as int);
    pos = pos + 1;
    assert(rest.drop_first() =~= payload@.skip(pos as int));
    let len: u64 = match varint::read_u64(payload, &mut pos) {
        Err(_) => return true,
        Ok(v) => v,
    };
    if len >= (payload.len() - pos) as u64 {
        return true;
    }
    let rights_tag: u8 = payload[pos + len as usize];
    codes_tag != T_BITPACK || rights_tag != T_BITPACK
}

} // verus!
