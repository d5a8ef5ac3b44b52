//! Laws of the codecs that split or scale floats.

use vstd::prelude::*;
use vstd::arithmetic::power2::*;
use vstd::bits::*;
use crate::bytes;
use crate::codecs::{alp, alp_rd, delta_bitpack, float_mult, for_bitpack, linear, patched};
use crate::codecs::alp::SubPlan;
use crate::entropy;
use crate::lane;
use crate::lane::Lane;

verus! {

// ---------------------------------------------------------------------------
// Packing with patches
// ---------------------------------------------------------------------------

/// How many of `vals` do not fit `w` bits.
pub open spec fn too_wide(vals: Seq<u64>, w: nat) -> nat
    decreases vals.len(),
{
    if vals.len() == 0 {
        0
    } else {
        too_wide(vals.drop_first(), w) + (if vals[0] < pow2(w) {
            0nat
        } else {
            1nat
        })
    }
}

/// Bytes of `vals` packed at `w` bits: three in front, 128 a bit, and ten for each value
/// that does not fit.
pub open spec fn patched_len(vals: Seq<u64>, w: nat) -> nat {
    3 + 128 * w + 10 * too_wide(vals, w)
}

proof fn lemma_too_wide_push(vals: Seq<u64>, w: nat)
    requires
        vals.len() > 0,
    ensures
        too_wide(vals, w) == too_wide(vals.drop_last(), w) + (if vals.last() < pow2(w) {
            0nat
        } else {
            1nat
        }),
    decreases vals.len(),
{
    if vals.len() == 1 {
        assert(vals.drop_first() =~= Seq::empty());
        assert(vals.drop_last() =~= Seq::empty());
        reveal_with_fuel(too_wide, 2);
    } else {
        lemma_too_wide_push(vals.drop_first(), w);
        assert(vals.drop_first().drop_last() =~= vals.drop_last().drop_first());
        assert(vals.drop_first().last() == vals.last());
    }
}

proof fn lemma_over_count(vals: Seq<u64>, w: nat)
    ensures
        patched::over_count(vals, w) == too_wide(vals, w),
        patched::packed_size(vals, w) == patched_len(vals, w),
    decreases vals.len(),
{
    if vals.len() > 0 {
        lemma_over_count(vals.drop_last(), w);
        lemma_too_wide_push(vals, w);
    }
}

proof fn lemma_over_places(vals: Seq<u64>, w: nat, n: nat)
    requires
        n <= vals.len(),
    ensures
        patched::over_places(vals, w, n).len() == patched::over_count(vals.take(n as int), w),
    decreases n,
{
    if n > 0 {
        lemma_over_places(vals, w, (n - 1) as nat);
        assert(vals.take(n as int).drop_last() =~= vals.take(n - 1));
        assert(vals.take(n as int).last() == vals[n - 1]);
    }
}

proof fn lemma_best_width(vals: Seq<u64>, most: nat)
    ensures
        ({
            let b = patched::best_width_of(vals, most);
            &&& b <= most
            &&& forall|w: nat|
                w <= most ==> patched_len(vals, b) <= #[trigger] patched_len(vals, w)
            &&& forall|w: nat| w < b ==> patched_len(vals, b) < #[trigger] patched_len(vals, w)
        }),
    decreases most,
{
    if most > 0 {
        lemma_best_width(vals, (most - 1) as nat);
        lemma_over_count(vals, most);
        lemma_over_count(vals, patched::best_width_of(vals, (most - 1) as nat));
    }
}

/// Values are packed at the width that takes the fewest bytes, the narrowest of equals;
/// the first byte tells it.
pub proof fn lemma_cheapest_width(vals: Seq<u64>, w: nat)
    requires
        vals.len() <= 1024,
        w <= 64,
    ensures
        ({
            let out = patched::residuals_image(vals);
            &&& out.len() > 0
            &&& out.len() == patched_len(vals, out[0] as nat)
            &&& out.len() <= patched_len(vals, w)
            &&& w < out[0] ==> out.len() < patched_len(vals, w)
        }),
{
    reveal(patched::residuals_image);
    lemma_best_width(vals, 64);
    let width = patched::best_width_of(vals, 64);
    lemma_over_places(vals, width, vals.len());
    assert(vals.take(vals.len() as int) =~= vals);
    lemma_over_count(vals, width);
    let over = patched::over_places(vals, width, vals.len());
    patched::lemma_patch_bytes_len(vals, over);
    bytes::lemma_le_bytes_len(over.len(), 2);
    let k = for_bitpack::kernel(width as u32);
    let words = crate::bitpack::packed_words(patched::filled_up(vals), k.bits() as nat, width);
    lane::lemma_words_bytes_len(k, words);
    assert(words.len() * k.bytes() == 128 * width) by (nonlinear_arith)
        requires
            (words.len() == 32 * width && k.bytes() == 4) || (words.len() == 16 * width
                && k.bytes() == 8),
    ;
    assert(patched_len(vals, w) >= patched_len(vals, width));
}

// ---------------------------------------------------------------------------
// Multiples of a unit
// ---------------------------------------------------------------------------

/// Multiples take the smaller of their two forms, and the packed one where entropy coding
/// is not allowed. The payload tells the form and the unit.
pub proof fn lemma_smaller_multiples(
    lane: Lane,
    scale: u8,
    ks: Seq<u64>,
    entropy: bool,
    lambda: u64,
    allow_lz: bool,
)
    ensures
        ({
            let out = float_mult::fm_image(lane, scale, ks, entropy, lambda, allow_lz);
            let plain = for_bitpack::for_image(lane, true, float_mult::all_narrowed(lane, ks));
            let coded = entropy::residuals_coded(
                linear::word_varints(delta_bitpack::deltas_of(Lane::W64, ks, 0)),
                lambda,
                allow_lz,
            );
            &&& out.len() <= 2 + plain.len()
            &&& entropy ==> out.len() <= 2 + coded.len()
            &&& !entropy ==> out.len() == 2 + plain.len()
            &&& out[0] == (if out.skip(2) == plain {
                0u8
            } else {
                1u8
            })
            &&& out[1] == scale
        }),
{
    let out = float_mult::fm_image(lane, scale, ks, entropy, lambda, allow_lz);
    let plain = for_bitpack::for_image(lane, true, float_mult::all_narrowed(lane, ks));
    let coded = entropy::residuals_coded(
        linear::word_varints(delta_bitpack::deltas_of(Lane::W64, ks, 0)),
        lambda,
        allow_lz,
    );
    assert(out.skip(2) =~= plain || out.skip(2) =~= coded);
}

/// Multiples can be stored exactly if there are some, the unit is one of seven, and each
/// is a number of the lane.
pub proof fn lemma_storable_multiples(lane: Lane, scale: u8, ks: Seq<u64>)
    ensures
        float_mult::fm_applies(lane, scale, ks) <==> 0 < ks.len() && scale < 7 && (lane is W32
            ==> forall|i: int|
            0 <= i < ks.len() ==> (#[trigger] ks[i]) < 0x8000_0000 || ks[i]
                >= 0xFFFF_FFFF_8000_0000),
{
    assert forall|k: u64| lane is W32 implies (#[trigger] float_mult::narrow_fits(lane, k) <==> k
        < 0x8000_0000 || k >= 0xFFFF_FFFF_8000_0000) by {}
    assert forall|k: u64| lane is W64 implies #[trigger] float_mult::narrow_fits(lane, k) by {}
    if lane is W32 && float_mult::fm_applies(lane, scale, ks) {
        assert forall|i: int| 0 <= i < ks.len() implies (#[trigger] ks[i]) < 0x8000_0000 || ks[i]
            >= 0xFFFF_FFFF_8000_0000 by {
            assert(float_mult::narrow_fits(lane, ks[i]));
        }
    }
}

// ---------------------------------------------------------------------------
// Decimal digits
// ---------------------------------------------------------------------------

/// The digit of value `i` stands for it exactly.
pub open spec fn stands_for(sub: Seq<u64>, plan: SubPlan, i: int) -> bool {
    plan->digits@[i] is Some && plan->words@[i] == sub[i]
}

proof fn lemma_exceptions(sub: Seq<u64>, digits: Seq<Option<u64>>, n: nat)
    requires
        n <= sub.len() <= 1024,
        digits.len() == sub.len(),
    ensures
        ({
            let exc = alp::exceptions_of(sub, digits, n);
            &&& exc.len() <= n
            &&& forall|i: int|
                0 <= i < n ==> (digits[i] is None <==> exc.contains((i as u64, #[trigger] sub[i])))
            &&& forall|k: int|
                0 <= k < exc.len() ==> (#[trigger] exc[k]).0 < n && digits[exc[k].0 as int] is None
                    && exc[k].1 == sub[exc[k].0 as int]
            &&& forall|j: int, k: int|
                0 <= j < k < exc.len() ==> (#[trigger] exc[j]).0 < (#[trigger] exc[k]).0
        }),
    decreases n,
{
    if n > 0 {
        let m = (n - 1) as nat;
        lemma_exceptions(sub, digits, m);
        let head = alp::exceptions_of(sub, digits, m);
        let exc = alp::exceptions_of(sub, digits, n);
        assert forall|i: int| 0 <= i < n implies (digits[i] is None <==> exc.contains(
            (i as u64, #[trigger] sub[i]),
        )) by {
            if digits[i] is None {
                if i < m {
                    let k = choose|k: int| 0 <= k < head.len() && head[k] == (i as u64, sub[i]);
                    assert(exc[k] == (i as u64, sub[i]));
                } else {
                    assert(exc[head.len() as int] == (i as u64, sub[i]));
                }
            } else if exc.contains((i as u64, sub[i])) {
                let k = choose|k: int| 0 <= k < exc.len() && exc[k] == (i as u64, sub[i]);
                assert(k < head.len() ==> head[k] == exc[k]);
            }
        }
    }
}

/// Under a plan that can be carried out, a value is an exception exactly if its digit does
/// not stand for it; exceptions come in order, each with its value.
pub proof fn lemma_exceptions_are_the_inexact(lane: Lane, sub: Seq<u64>, plan: SubPlan)
    requires
        sub.len() <= 1024,
        alp::plan_usable(lane, plan, sub.len()),
    ensures
        ({
            let exc = alp::planned_part(lane, sub, plan)->exceptions;
            &&& alp::planned_part(lane, sub, plan) is Digits
            &&& forall|i: int|
                0 <= i < sub.len() ==> (!stands_for(sub, plan, i) <==> exc.contains(
                    (i as u64, #[trigger] sub[i]),
                ))
            &&& forall|k: int|
                0 <= k < exc.len() ==> (#[trigger] exc[k]).0 < sub.len() && exc[k].1
                    == sub[exc[k].0 as int]
            &&& forall|j: int, k: int|
                0 <= j < k < exc.len() ==> (#[trigger] exc[j]).0 < (#[trigger] exc[k]).0
        }),
{
    let digits = alp::kept(sub, plan->digits@, plan->words@);
    lemma_exceptions(sub, digits, sub.len());
    assert forall|i: int| 0 <= i < sub.len() implies (digits[i] is None <==> !stands_for(
        sub,
        plan,
        i,
    )) && (#[trigger] sub[i]) == sub[i] by {}
}

proof fn lemma_filler(digits: Seq<Option<u64>>, i: int)
    requires
        0 <= i < digits.len(),
        digits[i] is Some,
    ensures
        exists|k: int|
            0 <= k < digits.len() && #[trigger] digits[k] == Some(alp::filler(digits)),
    decreases digits.len(),
{
    if digits[0] is Some {
        assert(digits[0] == Some(alp::filler(digits)));
    } else {
        let tail = digits.drop_first();
        assert(tail[i - 1] == digits[i]);
        lemma_filler(tail, i - 1);
        let k = choose|k: int| 0 <= k < tail.len() && #[trigger] tail[k] == Some(alp::filler(tail));
        assert(digits[k + 1] == Some(alp::filler(digits)));
    }
}

/// Exceptions widen nothing: the digit stored for one is that of a value that has its own,
/// if there is such a value, and every other digit is the value's own.
pub proof fn lemma_exceptions_widen_nothing(lane: Lane, sub: Seq<u64>, plan: SubPlan, i: int)
    requires
        alp::plan_usable(lane, plan, sub.len()),
        0 <= i < sub.len(),
    ensures
        ({
            let stored = alp::planned_part(lane, sub, plan)->Digits_digits;
            &&& stored.len() == sub.len()
            &&& stands_for(sub, plan, i) ==> Some(stored[i]) == plan->digits@[i]
            &&& !stands_for(sub, plan, i) ==> (exists|k: int|
                0 <= k < sub.len() && #[trigger] stands_for(sub, plan, k) && Some(stored[i])
                    == plan->digits@[k]) || (forall|k: int|
                0 <= k < sub.len() ==> !#[trigger] stands_for(sub, plan, k))
        }),
{
    let digits = alp::kept(sub, plan->digits@, plan->words@);
    let stored = alp::filled(digits);
    if !stands_for(sub, plan, i) {
        assert(digits[i] is None);
        if exists|k: int| 0 <= k < sub.len() && #[trigger] stands_for(sub, plan, k) {
            let k = choose|k: int| 0 <= k < sub.len() && #[trigger] stands_for(sub, plan, k);
            assert(digits[k] is Some);
            lemma_filler(digits, k);
            let m = choose|m: int|
                0 <= m < digits.len() && #[trigger] digits[m] == Some(alp::filler(digits));
            assert(stands_for(sub, plan, m));
        }
    }
}

proof fn lemma_exception_bytes(lane: Lane, exc: Seq<(u64, u64)>)
    ensures
        alp::exception_bytes(lane, exc).len() == exc.len() * (2 + lane.bytes()),
    decreases exc.len(),
{
    if exc.len() > 0 {
        lemma_exception_bytes(lane, exc.drop_first());
        bytes::lemma_le_bytes_len(exc[0].0 as nat, 2);
        bytes::lemma_le_bytes_len(exc[0].1 as nat, lane.bytes() as nat);
        let (n, m) = (exc.len() as int, 2 + lane.bytes());
        assert(n * m == (n - 1) * m + m) by (nonlinear_arith);
    }
}

/// A sub-block of digits takes four bytes, a word, the smaller of its digits packed as
/// offsets from the least and packed as zigzag steps, and two bytes and a word for each
/// exception.
pub proof fn lemma_smaller_digits(lane: Lane, sub: Seq<u64>, plan: SubPlan)
    requires
        sub.len() <= 1024,
        alp::plan_usable(lane, plan, sub.len()),
    ensures
        ({
            let stored = alp::planned_part(lane, sub, plan)->Digits_digits;
            let exc = alp::planned_part(lane, sub, plan)->exceptions;
            let least = for_bitpack::least(Lane::W64, true, stored);
            let offsets = Seq::new(stored.len(), |i: int| Lane::W64.diff(stored[i], least));
            let steps = delta_bitpack::deltas_of(Lane::W64, stored, least);
            let (a, b) = (
                patched::residuals_image(offsets).len(),
                patched::residuals_image(steps).len(),
            );
            let out = alp::sub_image(lane, sub, plan);
            &&& out.len() == 4 + lane.bytes() + (if b < a {
                b
            } else {
                a
            }) + exc.len() * (2 + lane.bytes())
            &&& out[0] == (if b < a {
                64 + plan->e
            } else {
                plan->e as int
            })
            &&& out[1] == plan->f
        }),
{
    reveal(alp::sub_image);
    let stored = alp::planned_part(lane, sub, plan)->Digits_digits;
    let exc = alp::planned_part(lane, sub, plan)->exceptions;
    let least = for_bitpack::least(Lane::W64, true, stored);
    assert(Seq::new(stored.len(), |i: int| Lane::W64.diff(stored[i], least)) =~= alp::offsets(
        stored,
        least,
    ));
    lemma_exception_bytes(lane, exc);
    bytes::lemma_le_bytes_len(exc.len(), 2);
    bytes::lemma_le_bytes_len(
        float_mult::narrowed(lane, least) as nat,
        lane.bytes() as nat,
    );
}

/// Of two pairs the one that costs fewer bits is the better, and of two that cost the same
/// the earlier: a pair that is better than all others costs the fewest.
pub proof fn lemma_cheapest_pair(costs: Seq<(u128, usize)>, b: int)
    requires
        0 <= b < costs.len(),
        forall|c: int| 0 <= c < costs.len() && c != b ==> #[trigger] alp::cheaper(costs, b, c),
    ensures
        forall|c: int|
            0 <= c < costs.len() ==> costs[b].0 <= (#[trigger] costs[c]).0 && (costs[b].0
                == costs[c].0 ==> b <= c),
{
    assert forall|c: int| 0 <= c < costs.len() implies costs[b].0 <= (#[trigger] costs[c]).0 && (
    costs[b].0 == costs[c].0 ==> b <= c) by {
        if c != b {
            assert(alp::cheaper(costs, b, c));
        }
    }
}

/// The pairs carried on from the first search cost no more than those left behind, and
/// there are five of them where there are that many.
pub proof fn lemma_carried_pairs(costs: Seq<(u128, usize)>, top: Seq<int>, c: int, k: int)
    requires
        alp::is_top(costs, top, alp::TOP_K as nat),
        0 <= c < costs.len(),
        0 <= k < top.len(),
    ensures
        top.len() == (if costs.len() < 5 {
            costs.len() as int
        } else {
            5
        }),
        !top.contains(c) ==> costs[top[k]].0 <= costs[c].0,
        0 < k ==> costs[top[k - 1]].0 <= costs[top[k]].0,
{
    if k < top.len() - 1 {
        assert(alp::cheaper(costs, top[k], top[top.len() - 1]));
    }
    if 0 < k {
        assert(alp::cheaper(costs, top[k - 1], top[k]));
    }
}

// ---------------------------------------------------------------------------
// Common left parts
// ---------------------------------------------------------------------------

/// How many of `s` are `v`.
pub open spec fn times(s: Seq<u64>, v: u64) -> nat
    decreases s.len(),
{
    if s.len() == 0 {
        0
    } else {
        times(s.drop_last(), v) + (if s.last() == v {
            1nat
        } else {
            0nat
        })
    }
}

/// How many of `s` are not in `d`.
pub open spec fn missed(s: Seq<u64>, d: Seq<u64>) -> nat
    decreases s.len(),
{
    if s.len() == 0 {
        0
    } else {
        missed(s.drop_last(), d) + (if d.contains(s.last()) {
            0nat
        } else {
            1nat
        })
    }
}

proof fn lemma_times(s: Seq<u64>, v: u64)
    ensures
        times(s, v) == alp_rd::tally(s, v),
    decreases s.len(),
{
    if s.len() > 0 {
        lemma_times(s.drop_last(), v);
    }
}

proof fn lemma_missed(s: Seq<u64>, d: Seq<u64>)
    ensures
        missed(s, d) == s.len() - alp_rd::covered_by(s, d),
    decreases s.len(),
{
    if s.len() > 0 {
        lemma_missed(s.drop_last(), d);
    }
}

/// The words in `d` are in order of rank, and lead all others of `s`.
spec fn leads(s: Seq<u64>, d: Seq<u64>) -> bool {
    &&& forall|i: int| 0 <= i < d.len() ==> s.contains(#[trigger] d[i])
    &&& forall|i: int, j: int| 0 <= i < j < d.len() ==> alp_rd::ranks_before(s, d[i], d[j])
    &&& forall|v: u64|
        #[trigger] s.contains(v) && !d.contains(v) && d.len() > 0 ==> alp_rd::ranks_before(
            s,
            d.last(),
            v,
        )
}

proof fn lemma_best_unlisted(s: Seq<u64>, d: Seq<u64>, n: nat, w: int) -> (v: u64)
    requires
        n <= s.len(),
        0 <= w < n,
        !d.contains(s[w]),
    ensures
        s.contains(v),
        !d.contains(v),
        forall|j: int|
            0 <= j < n && !d.contains(#[trigger] s[j]) && s[j] != v ==> alp_rd::ranks_before(
                s,
                v,
                s[j],
            ),
    decreases n,
{
    let last = s[n - 1];
    if d.contains(last) {
        lemma_best_unlisted(s, d, (n - 1) as nat, w)
    } else if exists|j: int| 0 <= j < n - 1 && !d.contains(#[trigger] s[j]) {
        let j = choose|j: int| 0 <= j < n - 1 && !d.contains(#[trigger] s[j]);
        let v = lemma_best_unlisted(s, d, (n - 1) as nat, j);
        if v == last || alp_rd::ranks_before(s, v, last) {
            v
        } else {
            assert(alp_rd::ranks_before(s, last, v));
            last
        }
    } else {
        last
    }
}

proof fn lemma_dict_exists(s: Seq<u64>, d: Seq<u64>)
    requires
        leads(s, d),
        d.len() <= 8,
    ensures
        exists|t: Seq<u64>| alp_rd::is_top_dict(s, t),
    decreases 8 - d.len(),
{
    if d.len() == 8 || forall|j: int| 0 <= j < s.len() ==> d.contains(#[trigger] s[j]) {
        assert(alp_rd::is_top_dict(s, d));
    } else {
        let w = choose|w: int| 0 <= w < s.len() && !d.contains(#[trigger] s[w]);
        let v = lemma_best_unlisted(s, d, s.len(), w);
        let e = d.push(v);
        assert forall|i: int, j: int| 0 <= i < j < e.len() implies alp_rd::ranks_before(
            s,
            e[i],
            e[j],
        ) by {
            if j == d.len() {
                assert(alp_rd::ranks_before(s, d.last(), v));
                if i < d.len() - 1 {
                    assert(alp_rd::ranks_before(s, d[i], d[d.len() - 1]));
                }
            }
        }
        assert forall|x: u64| #[trigger] s.contains(x) && !e.contains(x) implies
            alp_rd::ranks_before(s, e.last(), x) by {
            let j = choose|j: int| 0 <= j < s.len() && s[j] == x;
            if d.contains(x) {
                let k = choose|k: int| 0 <= k < d.len() && d[k] == x;
                assert(e[k] == x);
            }
            if x == v {
                assert(e[d.len() as int] == x);
            }
            assert(!d.contains(s[j]));
        }
        assert forall|i: int| 0 <= i < e.len() implies s.contains(#[trigger] e[i]) by {
            if i < d.len() {
                assert(e[i] == d[i]);
            }
        }
        lemma_dict_exists(s, e);
    }
}

/// The dictionary of words holds the commonest: at most eight, each once, all of them
/// where there are no more, and none that is rarer than one left out.
pub proof fn lemma_commonest(s: Seq<u64>)
    ensures
        ({
            let d = alp_rd::top_dict_of(s);
            &&& d.len() <= 8
            &&& forall|i: int| 0 <= i < d.len() ==> s.contains(#[trigger] d[i])
            &&& forall|i: int, j: int|
                0 <= i < j < d.len() ==> #[trigger] d[i] != #[trigger] d[j] && times(s, d[i])
                    >= times(s, d[j])
            &&& forall|v: u64, i: int|
                #[trigger] s.contains(v) && !d.contains(v) && 0 <= i < d.len() ==> times(
                    s,
                    #[trigger] d[i],
                ) >= times(s, v)
            &&& forall|v: u64| #[trigger] s.contains(v) && !d.contains(v) ==> d.len() == 8
        }),
{
    assert(leads(s, Seq::empty()));
    lemma_dict_exists(s, Seq::empty());
    let d = alp_rd::top_dict_of(s);
    assert(alp_rd::is_top_dict(s, d));
    assert forall|v: u64| #[trigger] times(s, v) == alp_rd::tally(s, v) by {
        lemma_times(s, v);
    }
    assert forall|i: int, j: int| 0 <= i < j < d.len() implies #[trigger] d[i] != #[trigger] d[j]
        && times(s, d[i]) >= times(s, d[j]) by {
        assert(alp_rd::ranks_before(s, d[i], d[j]));
    }
    assert forall|v: u64, i: int|
        #[trigger] s.contains(v) && !d.contains(v) && 0 <= i < d.len() implies times(
        s,
        #[trigger] d[i],
    ) >= times(s, v) by {
        assert(alp_rd::ranks_before(s, d.last(), v));
        if i < d.len() - 1 {
            assert(alp_rd::ranks_before(s, d[i], d[d.len() - 1]));
        }
        lemma_times(s, d.last());
    }
}

/// The parts of `vals` above their lowest `r` bits.
pub open spec fn upper_parts(vals: Seq<u64>, r: nat) -> Seq<u64> {
    Seq::new(vals.len(), |i: int| (vals[i] as nat / pow2(r)) as u64)
}

proof fn lemma_upper_parts(vals: Seq<u64>, r: u32)
    requires
        r < 64,
    ensures
        alp_rd::lefts_of(vals, r) == upper_parts(vals, r as nat),
{
    assert forall|i: int| 0 <= i < vals.len() implies alp_rd::left_of(vals[i], r) == vals[i] as nat
        / pow2(r as nat) by {
        lemma_u64_shr_is_div(vals[i], r as u64);
    }
    assert(alp_rd::lefts_of(vals, r) =~= upper_parts(vals, r as nat));
}

/// What values cost when their upper `left` bits are kept as codes into a dictionary of
/// the commonest: the lower bits and a code of one to three bits each, and 96 bits, on the
/// narrow lane 64, for each value whose upper part is not in it.
pub open spec fn bits_cut_at(lane: Lane, vals: Seq<u64>, left: nat) -> int {
    let (bits, fee) = match lane {
        Lane::W32 => (32int, 64int),
        Lane::W64 => (64int, 96int),
    };
    let s = upper_parts(vals, (bits - left) as nat);
    let d = alp_rd::top_dict_of(s);
    let code = if d.len() <= 2 {
        1int
    } else if d.len() <= 4 {
        2
    } else {
        3
    };
    vals.len() * (bits - left + code) + missed(s, d) * fee
}

proof fn lemma_cut_cost(lane: Lane, sample: Seq<u64>, left: u32)
    requires
        1 <= left <= 24,
    ensures
        alp_rd::cut_cost(lane, sample, left) == bits_cut_at(lane, sample, left as nat),
{
    let r = (lane.bits() - left) as u32;
    lemma_upper_parts(sample, r);
    let s = alp_rd::lefts_of(sample, r);
    let d = alp_rd::top_dict_of(s);
    lemma_missed(s, d);
    lemma_commonest(s);
    let (n, a, m, b) = (
        sample.len() as int,
        lane.bits() - left + alp_rd::code_bits(d.len() as usize),
        s.len() - alp_rd::covered_by(s, d),
        alp_rd::exc_bits(lane) as int,
    );
    assert(n * a + m * b >= 0) by (nonlinear_arith)
        requires
            n >= 0,
            a >= 0,
            m >= 0,
            b >= 0,
    ;
}

/// The most upper bits that are tried.
pub open spec fn widest_cut(lane: Lane) -> nat {
    match lane {
        Lane::W32 => 16,
        Lane::W64 => 24,
    }
}

proof fn lemma_best_cut(lane: Lane, sample: Seq<u64>, most: u32)
    requires
        1 <= most <= 24,
    ensures
        ({
            let b = alp_rd::best_cut(lane, sample, most) as nat;
            &&& 1 <= b <= most
            &&& forall|k: nat|
                1 <= k <= most ==> bits_cut_at(lane, sample, b) <= #[trigger] bits_cut_at(
                    lane,
                    sample,
                    k,
                )
            &&& forall|k: nat|
                1 <= k < b ==> bits_cut_at(lane, sample, b) < #[trigger] bits_cut_at(
                    lane,
                    sample,
                    k,
                )
        }),
    decreases most,
{
    if most > 1 {
        lemma_best_cut(lane, sample, (most - 1) as u32);
        lemma_cut_cost(lane, sample, most);
        lemma_cut_cost(lane, sample, alp_rd::best_cut(lane, sample, (most - 1) as u32));
    }
}

/// A cut is the best of all for the values of a sample: none up to the widest costs less,
/// and no narrower one as little.
pub open spec fn is_best_cut(lane: Lane, vals: Seq<u64>, cut: nat) -> bool {
    &&& 1 <= cut <= widest_cut(lane)
    &&& forall|k: nat|
        1 <= k <= widest_cut(lane) ==> bits_cut_at(lane, vals, cut) <= #[trigger] bits_cut_at(
            lane,
            vals,
            k,
        )
    &&& forall|k: nat|
        1 <= k < cut ==> bits_cut_at(lane, vals, cut) < #[trigger] bits_cut_at(lane, vals, k)
}

/// Every how many values one is looked at: all of a block of less than 4096, about two
/// thousand of a longer one.
pub open spec fn looked_at(vals: Seq<u64>) -> Seq<u64> {
    let step = if vals.len() < 4096 {
        1nat
    } else {
        vals.len() / 2048
    };
    Seq::new(((vals.len() + step - 1) / step as int) as nat, |i: int| vals[i * step as int])
}

proof fn lemma_looked_at(vals: Seq<u64>)
    ensures
        alp_rd::cut_sample(vals) == looked_at(vals),
{
    assert(alp_rd::cut_sample(vals) =~= looked_at(vals));
}

/// Splitting is used exactly if the best cut saves more than a bit a value of the sample
/// and its dictionary misses at most a quarter of the block; the payload begins with that
/// cut.
pub proof fn lemma_splits_where_it_pays(
    lane: Lane,
    vals: Seq<u64>,
    cut: nat,
    entropy: bool,
    lambda: u64,
    allow_lz: bool,
)
    requires
        is_best_cut(lane, looked_at(vals), cut),
    ensures
        ({
            let s = upper_parts(vals, (lane.bits() - cut) as nat);
            let sample = looked_at(vals);
            alp_rd::rd_applies(lane, vals) <==> vals.len() > 0 && bits_cut_at(lane, sample, cut) < (
            lane.bits() - 1) * sample.len() && missed(s, alp_rd::top_dict_of(s)) * 4 <= vals.len()
        }),
        alp_rd::rd_applies(lane, vals) ==> alp_rd::rd_image(lane, vals, entropy, lambda, allow_lz)[0]
            == cut,
{
    let sample = looked_at(vals);
    lemma_looked_at(vals);
    lemma_best_cut(lane, sample, alp_rd::cut_max(lane));
    let b = alp_rd::best_cut(lane, sample, alp_rd::cut_max(lane));
    assert(b == cut) by {
        if b < cut {
            assert(bits_cut_at(lane, sample, b as nat) > bits_cut_at(lane, sample, cut));
        } else if cut < b {
            assert(bits_cut_at(lane, sample, b as nat) < bits_cut_at(lane, sample, cut));
        }
    }
    lemma_cut_cost(lane, sample, b);
    let r = (lane.bits() - b) as u32;
    lemma_upper_parts(vals, r);
    let s = alp_rd::lefts_of(vals, r);
    lemma_missed(s, alp_rd::top_dict_of(s));
}

/// The codes and the lower bits each take the smaller of their two forms, and the packed
/// one where entropy coding is not allowed.
pub proof fn lemma_smaller_parts(
    lane: Lane,
    codes: Seq<u64>,
    rights: Seq<u64>,
    entropy: bool,
    lambda: u64,
    allow_lz: bool,
)
    ensures
        ({
            let out = alp_rd::codes_form(lane, codes, entropy, lambda, allow_lz);
            let packed = for_bitpack::for_image(lane, false, codes);
            let plain = Seq::new(codes.len(), |i: int| codes[i] as u8);
            let coded = entropy::residuals_coded(plain, lambda, allow_lz);
            &&& out.1.len() <= packed.len()
            &&& entropy ==> out.1.len() <= coded.len()
            &&& out == (0u8, packed) || (entropy && out == (1u8, coded))
        }),
        ({
            let out = alp_rd::rights_form(lane, rights, entropy, lambda, allow_lz);
            let packed = for_bitpack::for_image(lane, false, rights);
            let coded = entropy::residuals_coded(packed, lambda, allow_lz);
            &&& out.1.len() <= packed.len()
            &&& entropy ==> out.1.len() <= coded.len()
            &&& out == (0u8, packed) || (entropy && out == (1u8, coded))
        }),
{
    reveal(alp_rd::codes_form);
    reveal(alp_rd::rights_form);
}

proof fn lemma_present(digits: Seq<Option<u64>>)
    ensures
        alp::present(digits).len() <= digits.len(),
        forall|i: int|
            0 <= i < digits.len() ==> (#[trigger] digits[i] matches Some(d) ==> alp::present(
                digits,
            ).contains(Lane::W64.signed(d))),
        forall|k: int|
            0 <= k < alp::present(digits).len() ==> exists|i: int|
                0 <= i < digits.len() && #[trigger] digits[i] is Some && Lane::W64.signed(
                    digits[i]->0,
                ) == #[trigger] alp::present(digits)[k],
    decreases digits.len(),
{
    if digits.len() > 0 {
        let head = digits.drop_last();
        lemma_present(head);
        let (p, q) = (alp::present(head), alp::present(digits));
        assert forall|i: int| 0 <= i < digits.len() implies (#[trigger] digits[i] matches Some(d)
            ==> q.contains(Lane::W64.signed(d))) by {
            if digits[i] is Some {
                let d = Lane::W64.signed(digits[i]->0);
                if i < head.len() {
                    assert(head[i] == digits[i]);
                    let k = choose|k: int| 0 <= k < p.len() && p[k] == d;
                    assert(q[k] == d);
                } else {
                    assert(q[p.len() as int] == d);
                }
            }
        }
        assert forall|k: int| 0 <= k < q.len() implies exists|i: int|
            0 <= i < digits.len() && #[trigger] digits[i] is Some && Lane::W64.signed(digits[i]->0)
                == #[trigger] q[k] by {
            if k < p.len() {
                let i = choose|i: int|
                    0 <= i < head.len() && #[trigger] head[i] is Some && Lane::W64.signed(
                        head[i]->0,
                    ) == p[k];
                assert(digits[i] == head[i]);
            } else {
                assert(digits[digits.len() - 1] is Some);
            }
        }
    }
}

/// A sample costs no more than `w` bits a value where its digits, read as signed numbers,
/// lie less than `2^w` apart.
pub proof fn lemma_digit_width(lane: Lane, digits: Seq<Option<u64>>, w: nat)
    requires
        exists|i: int| 0 <= i < digits.len() && #[trigger] digits[i] is Some,
        forall|i: int, j: int|
            0 <= i < digits.len() && 0 <= j < digits.len() && #[trigger] digits[i] is Some
                && #[trigger] digits[j] is Some ==> Lane::W64.signed(digits[i]->0)
                - Lane::W64.signed(digits[j]->0) < pow2(w),
    ensures
        alp::digit_width(lane, alp::present(digits)) <= w,
{
    let ds = alp::present(digits);
    lemma_present(digits);
    let z = choose|i: int| 0 <= i < digits.len() && #[trigger] digits[i] is Some;
    assert(ds.contains(Lane::W64.signed(digits[z]->0)));
    ds.min_ensures();
    ds.max_ensures();
    let a = choose|k: int| 0 <= k < ds.len() && ds[k] == ds.max();
    let b = choose|k: int| 0 <= k < ds.len() && ds[k] == ds.min();
    let i = choose|i: int|
        0 <= i < digits.len() && #[trigger] digits[i] is Some && Lane::W64.signed(digits[i]->0)
            == ds[a];
    let j = choose|j: int|
        0 <= j < digits.len() && #[trigger] digits[j] is Some && Lane::W64.signed(digits[j]->0)
            == ds[b];
    assert(digits[i] is Some && digits[j] is Some);
    for_bitpack::lemma_bit_len((ds.max() - ds.min()) as nat, w);
}

/// The exceptions of a split block are the values whose upper part is not in the
/// dictionary, in order, each with its upper part; the codes of the others are the places
/// of their upper parts, and those of exceptions zero.
pub proof fn lemma_split_exceptions(vals: Seq<u64>, r: u32, d: Seq<u64>, n: nat)
    requires
        r < 64,
        n <= vals.len() <= u64::MAX,
    ensures
        ({
            let exc = alp_rd::exceptions_of(vals, r, d, n);
            let upper = upper_parts(vals, r as nat);
            &&& exc.len() == missed(upper.take(n as int), d)
            &&& forall|k: int|
                0 <= k < exc.len() ==> (#[trigger] exc[k]).0 < n && exc[k].1
                    == upper[exc[k].0 as int] && !d.contains(exc[k].1)
            &&& forall|j: int, k: int|
                0 <= j < k < exc.len() ==> (#[trigger] exc[j]).0 < (#[trigger] exc[k]).0
        }),
        forall|i: int|
            0 <= i < vals.len() ==> ({
                let part = upper_parts(vals, r as nat)[i];
                let code = #[trigger] alp_rd::left_codes(vals, r, d)[i];
                if d.contains(part) {
                    d.len() <= u64::MAX ==> code < d.len() && d[code as int] == part
                } else {
                    code == 0
                }
            }),
    decreases n,
{
    lemma_upper_parts(vals, r);
    let upper = upper_parts(vals, r as nat);
    assert forall|i: int| 0 <= i < vals.len() implies alp_rd::left_of(#[trigger] vals[i], r)
        == upper[i] by {
        assert(alp_rd::lefts_of(vals, r)[i] == upper[i]);
    }
    if n > 0 {
        lemma_split_exceptions(vals, r, d, (n - 1) as nat);
        assert(upper.take(n as int).drop_last() =~= upper.take(n - 1));
        assert(upper.take(n as int).last() == upper[n - 1]);
        assert(alp_rd::left_of(vals[n - 1], r) == upper[n - 1]);
    } else {
        assert forall|i: int| 0 <= i < vals.len() implies ({
            let part = upper_parts(vals, r as nat)[i];
            let code = #[trigger] alp_rd::left_codes(vals, r, d)[i];
            if d.contains(part) {
                d.len() <= u64::MAX ==> code < d.len() && d[code as int] == part
            } else {
                code == 0
            }
        }) by {
            assert(alp_rd::left_of(vals[i], r) == upper[i]);
        }
    }
}

} // verus!
