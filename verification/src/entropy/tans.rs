//! Table-driven asymmetric numeral systems for 8-bit symbols: table size 1024,
//! state in `[1024, 2048)`. Encoding runs over the input in reverse, decoding
//! forward.
//!
//! ```text
//!   varint(src_len)
//!   [symbols - 1]          (u8)
//!   symbols                (u8 each)
//!   weights                (u16 LE each)
//!   final state            (u32 LE, in [1024, 2048))
//!   renormalisation bits   (most significant first)
//! ```

use vstd::prelude::*;
use vstd::arithmetic::div_mod::*;
use vstd::arithmetic::power2::*;
use vstd::set_lib::*;
use crate::bitio;
use crate::bitio::{BitReader, BitWriter};
use crate::bytes;
use crate::bytes::{read_le, tail, write_le};
use crate::error;
use crate::error::Error;
use crate::varint;

verus! {

/// Number of states.
pub const TABLE_SIZE: u32 = 1024;

/// The total weight of the slots below `s`.
pub open spec fn weight_sum(w: Seq<u16>, s: nat) -> nat
    decreases s,
{
    if s == 0 {
        0
    } else {
        weight_sum(w, (s - 1) as nat) + w[s - 1] as nat
    }
}

/// The first slot from `s` on whose weights reach past `t`.
pub open spec fn slot_from(w: Seq<u16>, t: nat, s: nat) -> nat
    decreases w.len() - s,
{
    if s >= w.len() {
        0
    } else if t < weight_sum(w, s + 1) {
        s
    } else {
        slot_from(w, t, s + 1)
    }
}

/// The slot of state `1024 + i`. Slots are dealt out in order, each as often as
/// it weighs, with a stride of 615 states; 343 is the inverse of that stride.
pub open spec fn state_slot(w: Seq<u16>, i: nat) -> nat {
    slot_from(w, (343 * i) % 1024, 0)
}

/// How many of the first `i` states belong to `slot`.
pub open spec fn rank(w: Seq<u16>, i: nat, slot: nat) -> nat
    decreases i,
{
    if i == 0 {
        0
    } else {
        rank(w, (i - 1) as nat, slot) + (if state_slot(w, (i - 1) as nat) == slot {
            1nat
        } else {
            0nat
        })
    }
}

/// The state that state `1024 + i` came from, before its low bits are restored.
pub open spec fn source_state(w: Seq<u16>, i: nat) -> nat {
    let slot = state_slot(w, i);
    w[slot as int] as nat + rank(w, i, slot)
}

/// How many doublings bring `x` to at least 1024.
pub open spec fn lift(x: nat) -> nat
    decreases 2048 - x,
{
    if x == 0 || x >= 1024 {
        0
    } else {
        1 + lift(2 * x)
    }
}

/// The next `n` symbols decoded from `state` and the unread `bits`.
pub open spec fn tans_symbols(
    which: Seq<u8>,
    w: Seq<u16>,
    state: nat,
    n: nat,
    bits: Seq<bool>,
) -> Seq<u8>
    decreases n,
{
    if n == 0 {
        Seq::empty()
    } else {
        let i = (state - 1024) as nat;
        let x = source_state(w, i);
        let k = lift(x);
        let extra = bitio::bits_value(bitio::front_bits(bits, k));
        seq![which[state_slot(w, i) as int]] + tans_symbols(
            which,
            w,
            x * pow2(k) + extra,
            (n - 1) as nat,
            bitio::after_bits(bits, k),
        )
    }
}

/// The first fault of a model from slot `i` on.
pub open spec fn model_fault(which: Seq<u8>, w: Seq<u16>, i: nat) -> Option<Error>
    decreases which.len() - i,
{
    if i >= which.len() {
        None
    } else if w[i as int] == 0 {
        Some(Error::CorruptPayload("tans zero weight"))
    } else if which.take(i as int).contains(which[i as int]) {
        Some(Error::CorruptPayload("tans duplicate symbol"))
    } else {
        model_fault(which, w, i + 1)
    }
}

/// The `num` weights at the front of `s`.
pub open spec fn weights_at(s: Seq<u8>, num: nat) -> Seq<u16> {
    Seq::new(num, |j: int| bytes::le_value(s.subrange(2 * j, 2 * j + 2)) as u16)
}

/// The bytes coded by `src`, at most `max_len` of them.
pub open spec fn tans_decoded(src: Seq<u8>, max_len: nat) -> Result<Seq<u8>, Error> {
    match varint::varint_parse(src) {
        Err(e) => Err(e),
        Ok((n, s)) => if n > max_len {
            Err(Error::CorruptPayload("tans length exceeds bound"))
        } else if s.len() == 0 {
            Err(Error::Truncated)
        } else {
            let num = s[0] as nat + 1;
            if s.len() < 5 + 3 * num {
                Err(Error::Truncated)
            } else {
                let which = s.subrange(1, 1 + num as int);
                let w = weights_at(s.skip(1 + num as int), num);
                let state = bytes::le_value(s.subrange(1 + 3 * num as int, 5 + 3 * num as int));
                if state < 1024 || state >= 2048 {
                    Err(Error::CorruptPayload("tans state out of range"))
                } else {
                    match model_fault(which, w, 0) {
                        Some(e) => Err(e),
                        None => if weight_sum(w, num) != TABLE_SIZE {
                            Err(Error::CorruptPayload("tans weights do not sum to table size"))
                        } else {
                            Ok(
                                tans_symbols(
                                    which,
                                    w,
                                    state,
                                    n as nat,
                                    bitio::stream_bits(s.skip(5 + 3 * num as int)),
                                ),
                            )
                        },
                    }
                }
            }
        },
    }
}

/// Weights of at least one that fill the table.
pub open spec fn weights_ok(w: Seq<u16>) -> bool {
    &&& 1 <= w.len() <= 256
    &&& weight_sum(w, w.len()) == TABLE_SIZE
    &&& forall|s: int| 0 <= s < w.len() ==> #[trigger] w[s] >= 1
}

proof fn lemma_weight_sum_mono(w: Seq<u16>, a: nat, b: nat)
    requires
        a <= b,
    ensures
        weight_sum(w, a) <= weight_sum(w, b),
    decreases b - a,
{
    if a < b {
        lemma_weight_sum_mono(w, a, (b - 1) as nat);
    }
}

proof fn lemma_slot_weight(w: Seq<u16>, s: nat)
    requires
        weights_ok(w),
        s < w.len(),
    ensures
        weight_sum(w, s) + w[s as int] == weight_sum(w, s + 1),
        weight_sum(w, s + 1) <= TABLE_SIZE,
        1 <= w[s as int] <= TABLE_SIZE,
{
    lemma_weight_sum_mono(w, s + 1, w.len());
}

proof fn lemma_slot_from(w: Seq<u16>, t: nat, s: nat, slot: nat)
    requires
        s <= slot < w.len(),
        weight_sum(w, slot) <= t < weight_sum(w, slot + 1),
    ensures
        slot_from(w, t, s) == slot,
    decreases slot - s,
{
    if s < slot {
        lemma_weight_sum_mono(w, s + 1, slot);
        lemma_slot_from(w, t, s + 1, slot);
    }
}

proof fn lemma_slot_found(w: Seq<u16>, t: nat, s: nat)
    requires
        s < w.len(),
        weight_sum(w, s) <= t < weight_sum(w, w.len()),
    ensures
        ({
            let slot = slot_from(w, t, s);
            slot < w.len() && weight_sum(w, slot) <= t < weight_sum(w, slot + 1)
        }),
    decreases w.len() - s,
{
    if t >= weight_sum(w, s + 1) {
        lemma_slot_found(w, t, s + 1);
    }
}

/// The two strides undo each other.
proof fn lemma_stride(i: nat)
    requires
        i < 1024,
    ensures
        (615 * ((343 * i) % 1024)) % 1024 == i,
        (343 * ((615 * i) % 1024)) % 1024 == i,
{
    let a = (343 * i) / 1024;
    let b = (343 * i) % 1024;
    lemma_fundamental_div_mod(343 * i as int, 1024);
    let u = 206 * i - 615 * a;
    assert(615 * b == 1024 * u + i);
    lemma_mod_multiples_vanish(u, i as int, 1024);
    lemma_small_mod(i, 1024);
    let c = (615 * i) / 1024;
    let d = (615 * i) % 1024;
    lemma_fundamental_div_mod(615 * i as int, 1024);
    let v = 206 * i - 343 * c;
    assert(343 * d == 1024 * v + i);
    lemma_mod_multiples_vanish(v, i as int, 1024);
}

proof fn lemma_state_slot(w: Seq<u16>, i: nat)
    requires
        weights_ok(w),
    ensures
        state_slot(w, i) < w.len(),
        ({
            let slot = state_slot(w, i);
            weight_sum(w, slot) <= (343 * i) % 1024 < weight_sum(w, slot + 1)
        }),
{
    lemma_slot_found(w, (343 * i) % 1024, 0);
}

spec fn slot_states(w: Seq<u16>, n: nat, slot: nat) -> Set<int> {
    Set::new(|i: int| 0 <= i < n && state_slot(w, i as nat) == slot)
}

proof fn lemma_rank_is_size(w: Seq<u16>, n: nat, slot: nat)
    ensures
        slot_states(w, n, slot).finite(),
        slot_states(w, n, slot).len() == rank(w, n, slot),
    decreases n,
{
    if n == 0 {
        assert(slot_states(w, n, slot) =~= Set::empty());
    } else {
        let m = (n - 1) as nat;
        lemma_rank_is_size(w, m, slot);
        if state_slot(w, m) == slot {
            assert(slot_states(w, n, slot) =~= slot_states(w, m, slot).insert(m as int));
        } else {
            assert(slot_states(w, n, slot) =~= slot_states(w, m, slot));
        }
    }
}

/// Every slot owns as many states as it weighs.
proof fn lemma_rank_total(w: Seq<u16>, slot: nat)
    requires
        weights_ok(w),
        slot < w.len(),
    ensures
        rank(w, 1024, slot) == w[slot as int],
{
    lemma_slot_weight(w, slot);
    let (lo, hi) = (weight_sum(w, slot) as int, weight_sum(w, slot + 1) as int);
    let steps = set_int_range(lo, hi);
    let owned = slot_states(w, 1024, slot);
    let f = |t: int| (615 * t) % 1024;
    lemma_int_range(lo, hi);
    lemma_rank_is_size(w, 1024, slot);
    assert(steps.map(f) =~= owned) by {
        assert forall|i: int| owned.contains(i) implies steps.map(f).contains(i) by {
            let t = (343 * i) % 1024;
            lemma_state_slot(w, i as nat);
            lemma_stride(i as nat);
            assert(steps.contains(t) && f(t) == i);
        }
        assert forall|i: int| steps.map(f).contains(i) implies owned.contains(i) by {
            let t = choose|t: int| steps.contains(t) && f(t) == i;
            lemma_stride(t as nat);
            lemma_slot_from(w, t as nat, 0, slot);
        }
    }
    assert(vstd::relations::injective_on(f, steps)) by {
        assert forall|a: int, b: int|
            steps.contains(a) && steps.contains(b) && #[trigger] f(a) == #[trigger] f(
                b,
            ) implies a == b by {
            lemma_stride(a as nat);
            lemma_stride(b as nat);
        }
    }
    lemma_map_size(steps, owned, f);
}

proof fn lemma_rank_mono(w: Seq<u16>, a: nat, b: nat, slot: nat)
    requires
        a <= b,
    ensures
        rank(w, a, slot) <= rank(w, b, slot),
    decreases b - a,
{
    if a < b {
        lemma_rank_mono(w, a, (b - 1) as nat, slot);
    }
}

proof fn lemma_rank_below(w: Seq<u16>, i: nat)
    requires
        weights_ok(w),
        i < 1024,
    ensures
        state_slot(w, i) < w.len(),
        rank(w, i, state_slot(w, i)) < w[state_slot(w, i) as int],
{
    let slot = state_slot(w, i);
    lemma_state_slot(w, i);
    lemma_rank_total(w, slot);
    lemma_rank_mono(w, i + 1, 1024, slot);
}

/// Some state of `slot` has rank `r`.
proof fn lemma_rank_reached(w: Seq<u16>, n: nat, slot: nat, r: nat) -> (i: nat)
    requires
        rank(w, n, slot) > r,
    ensures
        i < n,
        state_slot(w, i) == slot,
        rank(w, i, slot) == r,
    decreases n,
{
    let m = (n - 1) as nat;
    if rank(w, m, slot) > r {
        lemma_rank_reached(w, m, slot, r)
    } else {
        m
    }
}

proof fn lemma_lift(x: nat)
    requires
        0 < x < 2048,
    ensures
        lift(x) <= 10,
        1024 <= x * pow2(lift(x)) < 2048,
        x >= 1024 ==> lift(x) == 0,
        x >= 2 ==> lift(x) <= 9,
        x >= 4 ==> lift(x) <= 8,
        x >= 8 ==> lift(x) <= 7,
        x >= 16 ==> lift(x) <= 6,
        x >= 32 ==> lift(x) <= 5,
        x >= 64 ==> lift(x) <= 4,
        x >= 128 ==> lift(x) <= 3,
        x >= 256 ==> lift(x) <= 2,
        x >= 512 ==> lift(x) <= 1,
    decreases 2048 - x,
{
    lemma2_to64();
    if x < 1024 {
        lemma_lift(2 * x);
        let k = lift(2 * x);
        lemma_pow2_adds(k, 1);
        assert((2 * x) * pow2(k) == x * pow2(k + 1)) by (nonlinear_arith)
            requires
                pow2(k + 1) == 2 * pow2(k),
        ;
    } else {
        assert(x * pow2(0) == x) by (nonlinear_arith)
            requires
                pow2(0) == 1,
        ;
    }
}

/// Only one number of doublings brings `x` into the state range.
proof fn lemma_lift_unique(x: nat, k: nat)
    requires
        0 < x < 2048,
        1024 <= x * pow2(k) < 2048,
    ensures
        lift(x) == k,
{
    lemma_lift(x);
    let l = lift(x);
    if l < k {
        lemma_pow2_adds(l, (k - l) as nat);
        lemma_pow2_double((k - l) as nat);
        let (a, b) = (pow2(l), pow2((k - l) as nat));
        assert(x * (a * b) >= 2 * (x * a)) by (nonlinear_arith)
            requires
                b >= 2,
                x >= 0,
                a >= 0,
        ;
    } else if k < l {
        lemma_pow2_adds(k, (l - k) as nat);
        lemma_pow2_double((l - k) as nat);
        let (a, b) = (pow2(k), pow2((l - k) as nat));
        assert(x * (a * b) >= 2 * (x * a)) by (nonlinear_arith)
            requires
                b >= 2,
                x >= 0,
                a >= 0,
        ;
    }
}

proof fn lemma_pow2_double(k: nat)
    requires
        k >= 1,
    ensures
        pow2(k) >= 2,
{
    lemma2_to64();
    lemma_pow2_adds((k - 1) as nat, 1);
    lemma_pow2_pos((k - 1) as nat);
}

/// How many low bits a state sheds before symbol weight `w` is coded into it.
pub open spec fn shed_bits(w: nat, state: nat) -> nat {
    let k = lift((2 * w - 1) as nat);
    if state >= 2 * w * pow2(k) {
        k + 1
    } else {
        k
    }
}

/// What is left of a state after shedding lies in `[w, 2w)`, and doubling it
/// back gives the shed bits their place.
proof fn lemma_shed(w: nat, state: nat)
    requires
        1 <= w <= 1024,
        1024 <= state < 2048,
    ensures
        ({
            let k = shed_bits(w, state);
            let p = pow2(k);
            &&& p > 0
            &&& k <= 10
            &&& w <= state / p < 2 * w
            &&& lift(state / p) == k
            &&& state == (state / p) * p + state % p
            &&& state % p < p
        }),
{
    let m = (2 * w - 1) as nat;
    lemma_lift(m);
    let k0 = lift(m);
    let h = pow2(k0);
    lemma_pow2_pos(k0);
    lemma_pow2_adds(k0, 1);
    lemma2_to64();
    let k = shed_bits(w, state);
    let p = pow2(k);
    lemma_fundamental_div_mod(state as int, p as int);
    lemma_mod_bound(state as int, p as int);
    let x = state / p;
    let r = state % p;
    assert(x * p == p * x) by (nonlinear_arith);
    if state >= 2 * w * h {
        assert(p == 2 * h);
        assert(w <= x) by (nonlinear_arith)
            requires
                state == p * x + r,
                0 <= r < p,
                p == 2 * h,
                state >= 2 * w * h,
                h > 0,
        ;
        assert(x < 2 * w) by (nonlinear_arith)
            requires
                state == p * x + r,
                0 <= r,
                p == 2 * h,
                state < 2048,
                1024 <= (2 * w - 1) * h,
                h > 0,
        ;
    } else {
        let q = pow2((10 - k0) as nat);
        lemma_pow2_adds(k0, (10 - k0) as nat);
        assert(x < 2 * w) by (nonlinear_arith)
            requires
                state == h * x + r,
                0 <= r,
                state < 2 * w * h,
                h > 0,
        ;
        assert(w <= q) by (nonlinear_arith)
            requires
                (2 * w - 1) * h < 2048,
                h * q == 1024,
                h > 0,
        ;
        assert(q <= x) by (nonlinear_arith)
            requires
                state == h * x + r,
                r < h,
                state >= 1024,
                h * q == 1024,
                h > 0,
        ;
    }
    if k > 10 {
        assert(k0 == 10);
        assert(w == 1);
        assert(h == 1024);
        assert(false);
    }
    lemma_shed_lift(x, p, r, state, k);
}

proof fn lemma_shed_lift(x: nat, p: nat, r: nat, state: nat, k: nat)
    requires
        x > 0,
        x < 2048,
        p == pow2(k),
        k <= 10,
        r < p,
        state == x * p + r,
        1024 <= state < 2048,
    ensures
        lift(x) == k,
{
    lemma2_to64();
    lemma_pow2_adds(k, (10 - k) as nat);
    let q = pow2((10 - k) as nat);
    lemma_pow2_pos((10 - k) as nat);
    assert(p * q == 1024);
    // 1024 is a multiple of p, so rounding the state down to one keeps it above.
    assert(x * p >= 1024) by (nonlinear_arith)
        requires
            p * q == 1024,
            state == x * p + r,
            r < p,
            state >= 1024,
            p > 0,
    {
        if x < q {
            assert((x + 1) * p <= q * p);
        }
        assert(x >= q);
        assert(x * p >= q * p);
    }
    lemma_lift_unique(x, k);
}

// ---------------------------------------------------------------------------
// Weights
// ---------------------------------------------------------------------------

/// Take one from each weight above one in turn until the sum is down to the
/// table size, for at most `guard` turns.
pub open spec fn trimmed(w: Seq<u16>, sum: nat, i: nat, guard: nat) -> (Seq<u16>, nat)
    decreases guard,
{
    if sum <= TABLE_SIZE || guard == 0 {
        (w, sum)
    } else if w[i as int] > 1 {
        trimmed(
            w.update(i as int, (w[i as int] - 1) as u16),
            (sum - 1) as nat,
            (i + 1) % w.len(),
            (guard - 1) as nat,
        )
    } else {
        trimmed(w, sum, (i + 1) % w.len(), (guard - 1) as nat)
    }
}

/// Give one to each weight in turn until the sum is up to the table size, for at
/// most `guard` turns.
pub open spec fn topped_up(w: Seq<u16>, sum: nat, i: nat, guard: nat) -> (Seq<u16>, nat)
    decreases guard,
{
    if sum >= TABLE_SIZE || guard == 0 {
        (w, sum)
    } else {
        topped_up(
            w.update(i as int, (w[i as int] + 1) as u16),
            sum + 1,
            (i + 1) % w.len(),
            (guard - 1) as nat,
        )
    }
}

/// `raw` with every weight at least one.
pub open spec fn floored(raw: Seq<u16>) -> Seq<u16> {
    Seq::new(
        raw.len(),
        |i: int|
            if raw[i] < 1 {
                1u16
            } else {
                raw[i]
            },
    )
}

/// `raw` nudged to sum to exactly the table size, if the turns suffice.
pub open spec fn quantized(raw: Seq<u16>) -> Option<Seq<u16>> {
    if raw.len() == 0 || raw.len() > 256 {
        None
    } else {
        let guard = raw.len() * 8 + 16;
        let start = floored(raw);
        let (w1, sum1) = trimmed(start, weight_sum(start, start.len()), 0, guard);
        let (w2, sum2) = topped_up(w1, sum1, 0, guard);
        if sum2 == TABLE_SIZE {
            Some(w2)
        } else {
            None
        }
    }
}

proof fn lemma_weight_sum_update(w: Seq<u16>, k: int, v: u16, s: nat)
    requires
        0 <= k < w.len(),
        s <= w.len(),
    ensures
        weight_sum(w.update(k, v), s) == weight_sum(w, s) + (if k < s {
            v - w[k]
        } else {
            0
        }),
    decreases s,
{
    if s > 0 {
        lemma_weight_sum_update(w, k, v, (s - 1) as nat);
    }
}

/// Nudge rounded weights so that they sum to exactly the table size.
pub fn quantize(raw: &[u16]) -> (r: Option<Vec<u16>>)
    ensures
        match quantized(raw@) {
            None => r is None,
            Some(w) => r matches Some(v) && v@ == w && weights_ok(w) && w.len() == raw.len(),
        },
{
    let num = raw.len();
    if num == 0 || num > 256 {
        return None;
    }
    let mut w: Vec<u16> = Vec::new();
    let mut sum: u32 = 0;
    let mut i: usize = 0;
    while i < num
        invariant
            i <= num,
            num == raw.len(),
            num <= 256,
            w@ == floored(raw@).take(i as int),
            sum <= 65535 * i,
            sum == weight_sum(floored(raw@), i as nat),
        decreases num - i,
    {
        let v: u16 = if raw[i] < 1 {
            1
        } else {
            raw[i]
        };
        w.push(v);
        sum = sum + v as u32;
        i = i + 1;
        assert(w@ =~= floored(raw@).take(i as int));
    }
    assert(w@ =~= floored(raw@));
    let ghost (w1, sum1) = trimmed(w@, sum as nat, 0, (num * 8 + 16) as nat);
    let mut guard: usize = num * 8 + 16;
    i = 0;
    while sum > TABLE_SIZE && guard > 0
        invariant
            i < num,
            num <= 256,
            w.len() == num,
            forall|s: int| 0 <= s < num ==> #[trigger] w@[s] >= 1,
            sum == weight_sum(w@, num as nat),
            trimmed(w@, sum as nat, i as nat, guard as nat) == (w1, sum1),
        decreases guard,
    {
        if w[i] > 1 {
            proof {
                lemma_weight_sum_update(w@, i as int, (w@[i as int] - 1) as u16, num as nat);
            }
            let v: u16 = w[i];
            w[i] = v - 1;
            sum = sum - 1;
        }
        i = (i + 1) % num;
        guard = guard - 1;
    }
    let ghost (w2, sum2) = topped_up(w1, sum1, 0, (num * 8 + 16) as nat);
    guard = num * 8 + 16;
    i = 0;
    while sum < TABLE_SIZE && guard > 0
        invariant
            i < num,
            num <= 256,
            w.len() == num,
            forall|s: int| 0 <= s < num ==> #[trigger] w@[s] >= 1,
            sum == weight_sum(w@, num as nat),
            topped_up(w@, sum as nat, i as nat, guard as nat) == (w2, sum2),
        decreases guard,
    {
        proof {
            lemma_weight_sum_mono(w@, i as nat + 1, num as nat);
            lemma_weight_sum_update(w@, i as int, (w@[i as int] + 1) as u16, num as nat);
        }
        let v: u16 = w[i];
        w[i] = v + 1;
        sum = sum + 1;
        i = (i + 1) % num;
        guard = guard - 1;
    }
    if sum == TABLE_SIZE {
        Some(w)
    } else {
        None
    }
}

// ---------------------------------------------------------------------------
// Tables
// ---------------------------------------------------------------------------

/// Deal the slots out over the states.
fn spread(w: &Vec<u16>) -> (slots: Vec<u8>)
    requires
        weights_ok(w@),
    ensures
        slots.len() == TABLE_SIZE,
        forall|i: int| 0 <= i < 1024 ==> #[trigger] slots@[i] == state_slot(w@, i as nat),
{
    let mut slots: Vec<u8> = vec![0; 1024];
    let mut step: u32 = 0;
    let mut s: usize = 0;
    while s < w.len()
        invariant
            s <= w.len(),
            weights_ok(w@),
            slots.len() == 1024,
            step == weight_sum(w@, s as nat),
            step <= 1024,
            forall|i: int|
                0 <= i < 1024 && (343 * i) % 1024 < step ==> #[trigger] slots@[i] == state_slot(
                    w@,
                    i as nat,
                ),
        decreases w.len() - s,
    {
        proof {
            lemma_slot_weight(w@, s as nat);
        }
        let count: u16 = w[s];
        let mut c: u16 = 0;
        while c < count
            invariant
                s < w.len(),
                c <= count,
                count == w@[s as int],
                weights_ok(w@),
                slots.len() == 1024,
                step == weight_sum(w@, s as nat) + c,
                weight_sum(w@, s as nat) + count == weight_sum(w@, s as nat + 1),
                weight_sum(w@, s as nat + 1) <= 1024,
                forall|i: int|
                    0 <= i < 1024 && (343 * i) % 1024 < step ==> #[trigger] slots@[i]
                        == state_slot(w@, i as nat),
            decreases count - c,
        {
            let idx: usize = ((615 * step) % 1024) as usize;
            let ghost before = slots@;
            slots[idx] = s as u8;
            proof {
                lemma_stride(step as nat);
                lemma_slot_from(w@, step as nat, 0, s as nat);
                assert forall|i: int| 0 <= i < 1024 && (343 * i) % 1024 < step + 1 implies
                    #[trigger] slots@[i] == state_slot(w@, i as nat) by {
                    lemma_stride(i as nat);
                    if i != idx {
                        assert((343 * i) % 1024 != step);
                        assert(slots@[i] == before[i]);
                    }
                }
            }
            step = step + 1;
            c = c + 1;
        }
        s = s + 1;
    }
    slots
}

/// The number of doublings of [`lift`].
fn doublings(x: u32) -> (k: u32)
    requires
        0 < x < 2048,
    ensures
        k == lift(x as nat),
        k <= 10,
{
    let mut k: u32 = 0;
    let mut up: u32 = x;
    proof {
        lemma_lift(x as nat);
    }
    while up < 1024
        invariant
            0 < up < 2048,
            k + lift(up as nat) == lift(x as nat),
            lift(x as nat) <= 10,
        decreases 2048 - up,
    {
        up = up * 2;
        k = k + 1;
    }
    k
}

/// `2^k` as a machine word.
fn two_to(k: u32) -> (r: u32)
    requires
        k <= 11,
    ensures
        r == pow2(k as nat),
        r > 0,
{
    proof {
        lemma2_to64();
        vstd::bits::lemma_u32_pow2_no_overflow(k as nat);
        vstd::bits::lemma_u32_shl_is_mul(1, k);
    }
    1u32 << k
}

/// What the encoder needs to know of one symbol.
struct SymInfo {
    renorm_cutoff: u32,
    min_renorm_bits: u32,
    weight: u32,
    cum: u32,
}

impl SymInfo {
    spec fn describes(&self, w: Seq<u16>, s: nat) -> bool {
        &&& self.weight == w[s as int]
        &&& self.cum == weight_sum(w, s)
        &&& self.min_renorm_bits == lift((2 * w[s as int] - 1) as nat)
        &&& self.renorm_cutoff == 2 * w[s as int] * pow2(self.min_renorm_bits as nat)
        &&& self.min_renorm_bits <= 10
    }
}

fn symbol_infos(w: &Vec<u16>) -> (infos: Vec<SymInfo>)
    requires
        weights_ok(w@),
    ensures
        infos.len() == w.len(),
        forall|s: int| 0 <= s < infos.len() ==> (#[trigger] infos@[s]).describes(w@, s as nat),
{
    let mut infos: Vec<SymInfo> = Vec::new();
    let mut cum: u32 = 0;
    let mut s: usize = 0;
    while s < w.len()
        invariant
            s <= w.len(),
            weights_ok(w@),
            infos.len() == s,
            cum == weight_sum(w@, s as nat),
            forall|j: int| 0 <= j < s ==> (#[trigger] infos@[j]).describes(w@, j as nat),
        decreases w.len() - s,
    {
        proof {
            lemma_slot_weight(w@, s as nat);
        }
        let weight: u32 = w[s] as u32;
        let bits: u32 = doublings(2 * weight - 1);
        let scale: u32 = two_to(bits);
        proof {
            lemma_lift((2 * weight - 1) as nat);
            assert((2 * weight) * scale <= 2 * ((2 * weight - 1) * scale)) by (nonlinear_arith)
                requires
                    weight >= 1,
                    scale > 0,
            ;
        }
        infos.push(
            SymInfo {
                renorm_cutoff: (2 * weight) * scale,
                min_renorm_bits: bits,
                weight,
                cum,
            },
        );
        cum = cum + weight;
        s = s + 1;
    }
    infos
}

/// Where the encoder's table keeps state `1024 + i`.
spec fn place(w: Seq<u16>, i: nat) -> int {
    (weight_sum(w, state_slot(w, i)) + rank(w, i, state_slot(w, i))) as int
}

proof fn lemma_place(w: Seq<u16>, i: nat)
    requires
        weights_ok(w),
        i < 1024,
    ensures
        0 <= place(w, i) < 1024,
        weight_sum(w, state_slot(w, i)) <= place(w, i) < weight_sum(w, state_slot(w, i) + 1),
        state_slot(w, i) < w.len(),
{
    lemma_rank_below(w, i);
    lemma_slot_weight(w, state_slot(w, i));
}

proof fn lemma_place_distinct(w: Seq<u16>, i: nat, j: nat)
    requires
        weights_ok(w),
        j < i < 1024,
    ensures
        place(w, i) != place(w, j),
{
    lemma_place(w, i);
    lemma_place(w, j);
    let (a, b) = (state_slot(w, i), state_slot(w, j));
    if a < b {
        lemma_weight_sum_mono(w, a + 1, b);
    } else if b < a {
        lemma_weight_sum_mono(w, b + 1, a);
    } else {
        lemma_rank_mono(w, j + 1, i, a);
    }
}

fn next_states(w: &Vec<u16>, slots: &Vec<u8>, infos: &Vec<SymInfo>) -> (next: Vec<u32>)
    requires
        weights_ok(w@),
        slots.len() == TABLE_SIZE,
        forall|i: int| 0 <= i < 1024 ==> #[trigger] slots@[i] == state_slot(w@, i as nat),
        infos.len() == w.len(),
        forall|s: int| 0 <= s < infos.len() ==> (#[trigger] infos@[s]).describes(w@, s as nat),
    ensures
        next.len() == TABLE_SIZE,
        forall|i: nat| i < 1024 ==> next@[#[trigger] place(w@, i)] == 1024 + i,
{
    let mut fill: Vec<u32> = Vec::new();
    let mut s: usize = 0;
    while s < infos.len()
        invariant
            s <= infos.len(),
            infos.len() == w.len(),
            forall|j: int| 0 <= j < infos.len() ==> (#[trigger] infos@[j]).describes(w@, j as nat),
            fill.len() == s,
            forall|j: int| 0 <= j < s ==> #[trigger] fill@[j] == weight_sum(w@, j as nat),
        decreases infos.len() - s,
    {
        fill.push(infos[s].cum);
        s = s + 1;
    }
    let mut next: Vec<u32> = vec![0; 1024];
    let mut i: usize = 0;
    while i < 1024
        invariant
            i <= 1024,
            weights_ok(w@),
            slots.len() == TABLE_SIZE,
            forall|j: int| 0 <= j < 1024 ==> #[trigger] slots@[j] == state_slot(w@, j as nat),
            fill.len() == w.len(),
            forall|j: int|
                0 <= j < w.len() ==> #[trigger] fill@[j] == weight_sum(w@, j as nat) + rank(
                    w@,
                    i as nat,
                    j as nat,
                ),
            next.len() == 1024,
            forall|j: nat| j < i ==> next@[#[trigger] place(w@, j)] == 1024 + j,
        decreases 1024 - i,
    {
        let slot: usize = slots[i] as usize;
        proof {
            lemma_place(w@, i as nat);
        }
        let at: u32 = fill[slot];
        let ghost before = next@;
        next[at as usize] = 1024 + i as u32;
        fill[slot] = at + 1;
        proof {
            assert forall|j: nat| j < i + 1 implies next@[#[trigger] place(w@, j)] == 1024 + j by {
                if j < i {
                    lemma_place_distinct(w@, i as nat, j);
                    assert(before[place(w@, j)] == 1024 + j);
                    lemma_place(w@, j);
                }
            }
        }
        i = i + 1;
    }
    next
}

// ---------------------------------------------------------------------------
// Encoder
// ---------------------------------------------------------------------------

/// The distinct bytes of `data` from `b` on, in increasing order.
pub open spec fn symbols_from(data: Seq<u8>, b: nat) -> Seq<u8>
    decreases 256 - b,
{
    if b >= 256 {
        Seq::empty()
    } else if data.contains(b as u8) {
        seq![b as u8] + symbols_from(data, b + 1)
    } else {
        symbols_from(data, b + 1)
    }
}

/// The distinct bytes of `data` in increasing order.
pub open spec fn symbols_of(data: Seq<u8>) -> Seq<u8> {
    symbols_from(data, 0)
}

proof fn lemma_symbols_from(data: Seq<u8>, b: nat)
    ensures
        symbols_from(data, b).len() <= if b <= 256 {
            256 - b
        } else {
            0
        },
        forall|j: int|
            0 <= j < symbols_from(data, b).len() ==> #[trigger] symbols_from(data, b)[j] >= b,
        forall|j: int, k: int|
            0 <= j < k < symbols_from(data, b).len() ==> #[trigger] symbols_from(data, b)[j]
                < #[trigger] symbols_from(data, b)[k],
    decreases 256 - b,
{
    if b < 256 {
        lemma_symbols_from(data, b + 1);
    }
}

/// The distinct bytes of `src`, and the place of each among them.
fn distinct_symbols(src: &[u8]) -> (r: (Vec<u8>, Vec<usize>))
    ensures
        r.0@ == symbols_of(src@),
        r.1.len() == 256,
        forall|i: int|
            0 <= i < src.len() ==> r.1@[#[trigger] src@[i] as int] < r.0.len()
                && r.0@[r.1@[src@[i] as int] as int] == src@[i],
{
    let counts = super::rans::histogram(src);
    let mut which: Vec<u8> = Vec::new();
    let mut places: Vec<usize> = vec![0; 256];
    let mut b: usize = 0;
    assert(which@ + symbols_from(src@, 0) =~= symbols_of(src@));
    while b < 256
        invariant
            b <= 256,
            counts.len() == 256,
            forall|s: int|
                0 <= s < 256 ==> (#[trigger] counts@[s] > 0 <==> src@.contains(s as u8)),
            places.len() == 256,
            which@ + symbols_from(src@, b as nat) == symbols_of(src@),
            forall|s: int|
                0 <= s < b && src@.contains(s as u8) ==> #[trigger] places@[s] < which.len()
                    && which@[places@[s] as int] == s,
        decreases 256 - b,
    {
        if counts[b] > 0 {
            let ghost before = which@;
            places[b] = which.len();
            which.push(b as u8);
            proof {
                let t = symbols_from(src@, b as nat + 1);
                assert(before + (seq![b as u8] + t) =~= which@ + t);
            }
        }
        b = b + 1;
    }
    proof {
        assert(which@ + Seq::<u8>::empty() =~= which@);
        assert forall|i: int| 0 <= i < src.len() implies places@[#[trigger] src@[i] as int]
            < which.len() && which@[places@[src@[i] as int] as int] == src@[i] by {
            assert(src@.contains(src@[i]));
            let p = places@[src@[i] as int];
        }
    }
    (which, places)
}

/// The state after symbol number `slot` is coded into `state`: the one that decodes
/// to it and leads back.
pub open spec fn coded_state(w: Seq<u16>, slot: nat, state: nat) -> nat {
    1024 + (choose|i: nat| codes_into(w, slot, state, i))
}

/// State `1024 + i` decodes to symbol number `slot` and leads back to `state`.
pub open spec fn codes_into(w: Seq<u16>, slot: nat, state: nat, i: nat) -> bool {
    let weight = w[slot as int] as nat;
    &&& i < 1024
    &&& state_slot(w, i) == slot
    &&& rank(w, i, slot) == state / pow2(shed_bits(weight, state)) - weight
}

/// The state and the bits that hold the bytes of `data` from `i` on.
pub open spec fn tans_coded(which: Seq<u8>, w: Seq<u16>, data: Seq<u8>, i: nat) -> (
    nat,
    Seq<bool>,
)
    decreases data.len() - i,
{
    if i >= data.len() {
        (1024, Seq::empty())
    } else {
        let (state, bits) = tans_coded(which, w, data, i + 1);
        let slot = which.index_of(data[i as int]) as nat;
        let k = shed_bits(w[slot as int] as nat, state);
        (coded_state(w, slot, state), bitio::bits_of(state % pow2(k), k) + bits)
    }
}

/// `out` is the coded form of `data` under the weights `w`: the length, the
/// symbols, their weights, the last state, and the shed bits up to a whole byte.
pub open spec fn is_tans_image(out: Seq<u8>, data: Seq<u8>, w: Seq<u16>) -> bool {
    let which = symbols_of(data);
    let (state, bits) = tans_coded(which, w, data, 0);
    exists|stream: Seq<u8>, pad: nat|
        #![trigger bitio::stream_bits(stream), bitio::zero_bits(pad)]
        pad < 8 && bitio::stream_bits(stream) == bits + bitio::zero_bits(pad) && out
            == varint::varint_bytes(data.len()) + seq![(which.len() - 1) as u8] + which
            + weight_bytes(w, 0) + bytes::le_bytes(state, 4) + stream
}

/// A coded state is the only one that leads back.
proof fn lemma_coded_state(w: Seq<u16>, slot: nat, state: nat, i: nat)
    requires
        weights_ok(w),
        codes_into(w, slot, state, i),
    ensures
        coded_state(w, slot, state) == 1024 + i,
{
    let j = choose|j: nat| codes_into(w, slot, state, j);
    assert(codes_into(w, slot, state, j));
    if j < i {
        lemma_place_distinct(w, i, j);
    } else if i < j {
        lemma_place_distinct(w, j, i);
    }
}

/// The renormalisation bits of an encoder that shed `pairs` last one first.
spec fn pair_bits(pairs: Seq<(u16, u32)>) -> Seq<bool>
    decreases pairs.len(),
{
    if pairs.len() == 0 {
        Seq::empty()
    } else {
        bitio::bits_of(pairs.last().0 as nat, pairs.last().1 as nat) + pair_bits(pairs.drop_last())
    }
}

/// Decoding from `state` gives `data` back, whatever follows the bits.
spec fn decodes_to(
    which: Seq<u8>,
    w: Seq<u16>,
    state: nat,
    bits: Seq<bool>,
    data: Seq<u8>,
) -> bool {
    forall|more: Seq<bool>|
        #[trigger] tans_symbols(which, w, state, data.len(), bits + more) == data
}

/// One encoding step put in front of what was encoded before.
proof fn lemma_step(
    which: Seq<u8>,
    w: Seq<u16>,
    slot: nat,
    state: nat,
    i: nat,
    bits: Seq<bool>,
    data: Seq<u8>,
)
    requires
        weights_ok(w),
        slot < w.len(),
        1024 <= state < 2048,
        i < 1024,
        state_slot(w, i) == slot,
        rank(w, i, slot) == state / pow2(shed_bits(w[slot as int] as nat, state))
            - w[slot as int],
        decodes_to(which, w, state, bits, data),
    ensures
        ({
            let k = shed_bits(w[slot as int] as nat, state);
            decodes_to(
                which,
                w,
                1024 + i,
                bitio::bits_of(state % pow2(k), k) + bits,
                seq![which[slot as int]] + data,
            )
        }),
{
    lemma_slot_weight(w, slot);
    let weight = w[slot as int] as nat;
    let k = shed_bits(weight, state);
    let p = pow2(k);
    lemma_shed(weight, state);
    let low = state % p;
    let shed = bitio::bits_of(low, k);
    bitio::lemma_bits_roundtrip(low, k);
    let all = seq![which[slot as int]] + data;
    assert forall|more: Seq<bool>|
        #[trigger] tans_symbols(which, w, 1024 + i, all.len(), (shed + bits) + more) == all by {
        let stream = (shed + bits) + more;
        assert(bitio::front_bits(stream, k) =~= shed);
        assert(bitio::after_bits(stream, k) =~= bits + more);
        assert(source_state(w, i) == state / p);
        assert(tans_symbols(which, w, state, data.len(), bits + more) == data);
        assert((all.len() - 1) as nat == data.len());
    }
}

/// Entropy-code `src` with the rounded symbol weights `raw`, one for each
/// distinct byte in increasing order. `None` when there is nothing to code, the
/// weights do not match the symbols, or they cannot be nudged to fill the table.
pub fn compress_bytes(src: &[u8], raw: &[u16]) -> (r: Option<Vec<u8>>)
    ensures
        r is None <==> src.len() == 0 || raw.len() != symbols_of(src@).len() || quantized(
            raw@,
        ) is None,
        r matches Some(out) ==> is_tans_image(out@, src@, quantized(raw@)->Some_0),
        r matches Some(out) ==> forall|max_len: nat|
            max_len >= src.len() ==> #[trigger] tans_decoded(out@, max_len) == Ok::<_, Error>(
                src@,
            ),
{
    if src.len() == 0 {
        return None;
    }
    let (which, places) = distinct_symbols(src);
    if raw.len() != which.len() {
        return None;
    }
    let w: Vec<u16> = match quantize(raw) {
        None => return None,
        Some(w) => w,
    };
    let slots = spread(&w);
    let infos = symbol_infos(&w);
    let next = next_states(&w, &slots, &infos);
    let mut state: u32 = 1024;
    let mut pairs: Vec<(u16, u32)> = Vec::new();
    let mut i: usize = src.len();
    proof {
        assert(src@.skip(i as int) =~= Seq::empty());
        lemma_symbols_from(src@, 0);
    }
    while i > 0
        invariant
            i <= src.len(),
            weights_ok(w@),
            which.len() == w.len(),
            places.len() == 256,
            forall|j: int|
                0 <= j < src.len() ==> places@[#[trigger] src@[j] as int] < which.len()
                    && which@[places@[src@[j] as int] as int] == src@[j],
            infos.len() == w.len(),
            forall|s: int| 0 <= s < infos.len() ==> (#[trigger] infos@[s]).describes(w@, s as nat),
            next.len() == TABLE_SIZE,
            forall|j: nat| j < 1024 ==> next@[#[trigger] place(w@, j)] == 1024 + j,
            1024 <= state < 2048,
            forall|j: int| 0 <= j < pairs.len() ==> (#[trigger] pairs@[j]).1 <= 10,
            forall|j: int, k: int|
                0 <= j < k < which.len() ==> #[trigger] which@[j] < #[trigger] which@[k],
            (state as nat, pair_bits(pairs@)) == tans_coded(which@, w@, src@, i as nat),
            decodes_to(which@, w@, state as nat, pair_bits(pairs@), src@.skip(i as int)),
        decreases i,
    {
        i = i - 1;
        let sym: u8 = src[i];
        let slot: usize = places[sym as usize];
        assert(which@[slot as int] == src@[i as int]);
        let info = &infos[slot];
        assert(info.describes(w@, slot as nat));
        let extra: u32 = if state >= info.renorm_cutoff {
            1
        } else {
            0
        };
        let bits: u32 = info.min_renorm_bits + extra;
        let scale: u32 = two_to(bits);
        let low: u32 = state % scale;
        let shifted: u32 = state / scale;
        let ghost r = (shifted - info.weight) as nat;
        let ghost before = pairs@;
        let ghost old_state = state as nat;
        let ghost mut at: nat = 0;
        proof {
            lemma_slot_weight(w@, slot as nat);
            lemma_shed(w@[slot as int] as nat, state as nat);
            lemma_rank_total(w@, slot as nat);
            lemma2_to64();
            lemma_pow2_le(bits as nat, 10);
            assert(bits == shed_bits(w@[slot as int] as nat, state as nat));
            at = lemma_rank_reached(w@, 1024, slot as nat, r);
            assert(next@[place(w@, at)] == 1024 + at);
            lemma_place(w@, at);
            assert(codes_into(w@, slot as nat, state as nat, at));
            lemma_coded_state(w@, slot as nat, state as nat, at);
            let found = which@.index_of(sym);
            assert(which@[found] == sym);
            assert(found == slot) by {
                if found < slot {
                    assert(which@[found] < which@[slot as int]);
                } else if slot < found {
                    assert(which@[slot as int] < which@[found]);
                }
            }
        }
        state = next[(info.cum + (shifted - info.weight)) as usize];
        pairs.push((low as u16, bits));
        proof {
            lemma_step(
                which@,
                w@,
                slot as nat,
                old_state,
                at,
                pair_bits(before),
                src@.skip(i + 1),
            );
            assert(pairs@.drop_last() =~= before);
            assert(pair_bits(pairs@) == bitio::bits_of(low as nat, bits as nat) + pair_bits(before));
            assert(seq![sym] + src@.skip(i + 1) =~= src@.skip(i as int));
        }
    }
    let mut out: Vec<u8> = Vec::new();
    varint::write_u64(&mut out, src.len() as u64);
    out.push((which.len() - 1) as u8);
    out.extend_from_slice(&which);
    let ghost head = out@;
    write_weights(&mut out, &w);
    write_le(&mut out, state as u64, 4);
    let mut bw = BitWriter::new();
    let mut j: usize = pairs.len();
    assert(pairs@.take(j as int) =~= pairs@);
    assert(bw.bits() + pair_bits(pairs@) =~= pair_bits(pairs@));
    while j > 0
        invariant
            j <= pairs.len(),
            bw.wf(),
            forall|k: int| 0 <= k < pairs.len() ==> (#[trigger] pairs@[k]).1 <= 10,
            bw.bits() + pair_bits(pairs@.take(j as int)) == pair_bits(pairs@),
        decreases j,
    {
        let ghost before = bw.bits();
        let ghost now = pairs@.take(j as int);
        j = j - 1;
        let (low, bits) = pairs[j];
        bw.put(low as u64, bits);
        proof {
            let t = pairs@.take(j as int);
            assert(now.drop_last() =~= t);
            assert(now.last() == pairs@[j as int]);
            assert(before + (bitio::bits_of(low as nat, bits as nat) + pair_bits(t)) =~= bw.bits()
                + pair_bits(t));
        }
    }
    proof {
        assert(pairs@.take(0) =~= Seq::empty());
        assert(bw.bits() =~= pair_bits(pairs@));
        assert(src@.skip(0) =~= src@);
    }
    let stream = bw.finish();
    out.extend_from_slice(&stream);
    proof {
        assert(out@ =~= varint::varint_bytes(src.len() as nat) + seq![(which.len() - 1) as u8]
            + which@ + weight_bytes(w@, 0) + bytes::le_bytes(state as nat, 4) + stream@);
        lemma_stream_roundtrip(
            src@,
            which@,
            w@,
            state as nat,
            pair_bits(pairs@),
            stream@,
            out@,
        );
        let pad = choose|pad: nat|
            pad < 8 && #[trigger] bitio::zero_bits(pad).len() == pad && bitio::stream_bits(stream@)
                == pair_bits(pairs@) + bitio::zero_bits(pad);
        assert(bitio::stream_bits(stream@) == pair_bits(pairs@) + bitio::zero_bits(pad));
        assert(is_tans_image(out@, src@, w@));
    }
    Some(out)
}

proof fn lemma_pow2_le(a: nat, b: nat)
    requires
        a <= b,
    ensures
        pow2(a) <= pow2(b),
{
    if a < b {
        lemma_pow2_strictly_increases(a, b);
    }
}

/// The byte image of the weights from `s` on.
pub open spec fn weight_bytes(w: Seq<u16>, s: nat) -> Seq<u8>
    decreases w.len() - s,
{
    if s >= w.len() {
        Seq::empty()
    } else {
        bytes::le_bytes(w[s as int] as nat, 2) + weight_bytes(w, s + 1)
    }
}

fn write_weights(out: &mut Vec<u8>, w: &Vec<u16>)
    ensures
        final(out)@ == old(out)@ + weight_bytes(w@, 0),
{
    let ghost start = out@;
    let mut s: usize = 0;
    while s < w.len()
        invariant
            s <= w.len(),
            out@ + weight_bytes(w@, s as nat) == start + weight_bytes(w@, 0),
        decreases w.len() - s,
    {
        let ghost before = out@;
        write_le(out, w[s] as u64, 2);
        s = s + 1;
        assert(out@ + weight_bytes(w@, s as nat) =~= before + weight_bytes(w@, (s - 1) as nat));
    }
    assert(out@ + Seq::<u8>::empty() =~= out@);
}

proof fn lemma_weight_bytes(w: Seq<u16>, s: nat, rest: Seq<u8>)
    requires
        s <= w.len(),
    ensures
        weight_bytes(w, s).len() == 2 * (w.len() - s),
        forall|j: int|
            0 <= j < w.len() - s ==> bytes::le_value(
                #[trigger] (weight_bytes(w, s) + rest).subrange(2 * j, 2 * j + 2),
            ) == w[s + j],
    decreases w.len() - s,
{
    if s < w.len() {
        lemma_weight_bytes(w, s + 1, rest);
        let b = bytes::le_bytes(w[s as int] as nat, 2);
        bytes::lemma_pow256_values();
        bytes::lemma_le_roundtrip(w[s as int] as nat, 2);
        let t = weight_bytes(w, s + 1) + rest;
        let all = weight_bytes(w, s) + rest;
        assert(all =~= b + t);
        assert forall|j: int| 0 <= j < w.len() - s implies bytes::le_value(
            #[trigger] all.subrange(2 * j, 2 * j + 2),
        ) == w[s + j] by {
            if j == 0 {
                assert(all.subrange(0, 2) =~= b);
            } else {
                let k = j - 1;
                assert(all.subrange(2 * j, 2 * j + 2) =~= t.subrange(2 * k, 2 * k + 2));
                assert(bytes::le_value(t.subrange(2 * k, 2 * k + 2)) == w[s + 1 + k]);
            }
        }
    }
}

proof fn lemma_no_fault(data: Seq<u8>, w: Seq<u16>, i: nat)
    requires
        weights_ok(w),
        w.len() == symbols_of(data).len(),
    ensures
        model_fault(symbols_of(data), w, i) is None,
    decreases w.len() - i,
{
    let which = symbols_of(data);
    if i < which.len() {
        lemma_symbols_from(data, 0);
        assert(!which.take(i as int).contains(which[i as int])) by {
            if which.take(i as int).contains(which[i as int]) {
                let j = choose|j: int| 0 <= j < i && which.take(i as int)[j] == which[i as int];
                assert(which[j] < which[i as int]);
            }
        }
        lemma_no_fault(data, w, i + 1);
    }
}

proof fn lemma_stream_roundtrip(
    data: Seq<u8>,
    which: Seq<u8>,
    w: Seq<u16>,
    state: nat,
    bits: Seq<bool>,
    stream: Seq<u8>,
    out: Seq<u8>,
)
    requires
        data.len() <= u64::MAX,
        weights_ok(w),
        which == symbols_of(data),
        which.len() == w.len(),
        1024 <= state < 2048,
        decodes_to(which, w, state, bits, data),
        exists|pad: nat|
            pad < 8 && #[trigger] bitio::zero_bits(pad).len() == pad && bitio::stream_bits(stream)
                == bits + bitio::zero_bits(pad),
        out == varint::varint_bytes(data.len()) + seq![(which.len() - 1) as u8] + which
            + weight_bytes(w, 0) + bytes::le_bytes(state, 4) + stream,
    ensures
        forall|max_len: nat|
            max_len >= data.len() ==> #[trigger] tans_decoded(out, max_len) == Ok::<_, Error>(data),
{
    let num = w.len() as int;
    let sb = bytes::le_bytes(state, 4);
    let s = seq![(which.len() - 1) as u8] + which + weight_bytes(w, 0) + sb + stream;
    assert(out =~= varint::varint_bytes(data.len()) + s);
    varint::lemma_varint_roundtrip(data.len() as u64, s);
    bytes::lemma_pow256_values();
    bytes::lemma_le_roundtrip(state, 4);
    lemma_weight_bytes(w, 0, sb + stream);
    assert(s.subrange(1, 1 + num) =~= which);
    let after = s.skip(1 + num);
    assert(after =~= weight_bytes(w, 0) + (sb + stream));
    assert(weights_at(after, num as nat) =~= w) by {
        assert forall|j: int| 0 <= j < num implies weights_at(after, num as nat)[j] == w[j] by {
            assert(bytes::le_value(after.subrange(2 * j, 2 * j + 2)) == w[0 + j]);
        }
    }
    assert(s.subrange(1 + 3 * num, 5 + 3 * num) =~= sb);
    assert(s.skip(5 + 3 * num) =~= stream);
    lemma_no_fault(data, w, 0);
    let pad = choose|pad: nat|
        pad < 8 && #[trigger] bitio::zero_bits(pad).len() == pad && bitio::stream_bits(stream)
            == bits + bitio::zero_bits(pad);
    assert(tans_symbols(which, w, state, data.len(), bits + bitio::zero_bits(pad)) == data);
}

// ---------------------------------------------------------------------------
// Decoder
// ---------------------------------------------------------------------------

/// Check a model read from a stream: weights of at least one, distinct symbols,
/// a full table.
fn check_model(which: &[u8], w: &Vec<u16>) -> (r: Result<(), Error>)
    requires
        which.len() == w.len(),
        1 <= w.len() <= 256,
    ensures
        match model_fault(which@, w@, 0) {
            Some(e) => r == Err::<(), _>(e),
            None => if weight_sum(w@, w@.len()) != TABLE_SIZE {
                r == Err::<(), _>(
                    Error::CorruptPayload("tans weights do not sum to table size"),
                )
            } else {
                r is Ok && weights_ok(w@)
            },
        },
{
    let mut seen: Vec<bool> = vec![false; 256];
    let mut sum: u32 = 0;
    let mut i: usize = 0;
    while i < which.len()
        invariant
            i <= which.len(),
            which.len() == w.len(),
            w.len() <= 256,
            seen.len() == 256,
            sum <= 65535 * i,
            sum == weight_sum(w@, i as nat),
            forall|j: int| 0 <= j < i ==> #[trigger] w@[j] >= 1,
            forall|b: int|
                0 <= b < 256 ==> (#[trigger] seen@[b] <==> which@.take(i as int).contains(b as u8)),
            model_fault(which@, w@, 0) == model_fault(which@, w@, i as nat),
        decreases which.len() - i,
    {
        if w[i] == 0 {
            return Err(Error::CorruptPayload("tans zero weight"));
        }
        let sym: u8 = which[i];
        if seen[sym as usize] {
            return Err(Error::CorruptPayload("tans duplicate symbol"));
        }
        proof {
            let (a, b) = (which@.take(i as int), which@.take(i + 1));
            assert(b =~= a.push(sym));
            assert forall|x: u8| b.contains(x) <==> a.contains(x) || x == sym by {
                if a.contains(x) {
                    let j = choose|j: int| 0 <= j < a.len() && a[j] == x;
                    assert(b[j] == x);
                }
                if x == sym {
                    assert(b[i as int] == x);
                }
                if b.contains(x) {
                    let j = choose|j: int| 0 <= j < b.len() && b[j] == x;
                    if j < i {
                        assert(a[j] == x);
                    }
                }
            }
        }
        seen[sym as usize] = true;
        sum = sum + w[i] as u32;
        i = i + 1;
    }
    if sum != TABLE_SIZE {
        return Err(Error::CorruptPayload("tans weights do not sum to table size"));
    }
    Ok(())
}

/// One state of the decoder's table.
struct Node {
    base: u32,
    bits: u32,
    sym: u8,
}

impl Node {
    spec fn describes(&self, which: Seq<u8>, w: Seq<u16>, i: nat) -> bool {
        let x = source_state(w, i);
        &&& self.bits == lift(x)
        &&& self.bits <= 10
        &&& self.base == x * pow2(lift(x))
        &&& self.base + pow2(self.bits as nat) <= 2048
        &&& 1024 <= self.base
        &&& self.sym == which[state_slot(w, i) as int]
    }
}

/// Build the decoder's table.
fn nodes(which: &[u8], w: &Vec<u16>) -> (table: Vec<Node>)
    requires
        weights_ok(w@),
        which.len() == w.len(),
    ensures
        table.len() == TABLE_SIZE,
        forall|i: int|
            0 <= i < 1024 ==> (#[trigger] table@[i]).describes(which@, w@, i as nat),
{
    let slots = spread(w);
    let mut xs: Vec<u32> = Vec::new();
    let mut s: usize = 0;
    while s < w.len()
        invariant
            s <= w.len(),
            xs.len() == s,
            forall|j: int| 0 <= j < s ==> #[trigger] xs@[j] == w@[j],
        decreases w.len() - s,
    {
        xs.push(w[s] as u32);
        s = s + 1;
    }
    let mut table: Vec<Node> = Vec::new();
    let mut i: usize = 0;
    while i < 1024
        invariant
            i <= 1024,
            weights_ok(w@),
            which.len() == w.len(),
            slots.len() == TABLE_SIZE,
            forall|j: int| 0 <= j < 1024 ==> #[trigger] slots@[j] == state_slot(w@, j as nat),
            xs.len() == w.len(),
            forall|j: int|
                0 <= j < w.len() ==> #[trigger] xs@[j] == w@[j] + rank(w@, i as nat, j as nat),
            table.len() == i,
            forall|j: int|
                0 <= j < i ==> (#[trigger] table@[j]).describes(which@, w@, j as nat),
        decreases 1024 - i,
    {
        let slot: usize = slots[i] as usize;
        proof {
            lemma_rank_below(w@, i as nat);
            lemma_slot_weight(w@, slot as nat);
        }
        let x: u32 = xs[slot];
        let bits: u32 = doublings(x);
        let scale: u32 = two_to(bits);
        proof {
            lemma_lift(x as nat);
            lemma_lift_room(x as nat);
        }
        table.push(Node { base: x * scale, bits, sym: which[slot] });
        xs[slot] = x + 1;
        i = i + 1;
    }
    table
}

/// The low bits of a lifted number have room below the end of the state range.
proof fn lemma_lift_room(x: nat)
    requires
        0 < x < 2048,
    ensures
        x * pow2(lift(x)) + pow2(lift(x)) <= 2048,
{
    lemma_lift(x);
    let k = lift(x);
    let p = pow2(k);
    let q = pow2((10 - k) as nat);
    lemma2_to64();
    lemma_pow2_adds(k, (10 - k) as nat);
    lemma_pow2_pos(k);
    assert(x * p + p <= 2048) by (nonlinear_arith)
        requires
            p * q == 1024,
            x * p < 2048,
            p > 0,
    {
        assert(x * p < (2 * q) * p);
        assert(x < 2 * q);
        assert((x + 1) * p <= (2 * q) * p);
    }
}

/// Inverse of [`compress_bytes`]. `max_len` bounds the declared length.
pub fn decompress_bytes(src: &[u8], max_len: usize) -> (r: Result<Vec<u8>, Error>)
    ensures
        error::viewed(r) == tans_decoded(src@, max_len as nat),
{
    let mut pos: usize = 0;
    assert(src@.skip(0) =~= src@);
    let n: u64 = match varint::read_u64(src, &mut pos) {
        Ok(v) => v,
        Err(e) => return Err(e),
    };
    if n > max_len as u64 {
        return Err(Error::CorruptPayload("tans length exceeds bound"));
    }
    let s = tail(src, pos);
    if s.len() == 0 {
        return Err(Error::Truncated);
    }
    let num: usize = s[0] as usize + 1;
    if s.len() < 5 + 3 * num {
        return Err(Error::Truncated);
    }
    let which = vstd::slice::slice_subrange(s, 1, 1 + num);
    let mut w: Vec<u16> = Vec::new();
    let mut j: usize = 0;
    let ghost after = s@.skip(1 + num);
    while j < num
        invariant
            j <= num <= 256,
            s.len() >= 5 + 3 * num,
            after == s@.skip(1 + num),
            w.len() == j,
            forall|k: int| 0 <= k < j ==> #[trigger] w@[k] == weights_at(after, num as nat)[k],
        decreases num - j,
    {
        let v: u64 = read_le(s, 1 + num + 2 * j, 2);
        proof {
            bytes::lemma_pow256_values();
            assert(s@.subrange(1 + num + 2 * j, 1 + num + 2 * j + 2) =~= after.subrange(
                2 * j as int,
                2 * j + 2,
            ));
        }
        w.push(v as u16);
        j = j + 1;
    }
    assert(w@ =~= weights_at(after, num as nat));
    let first: u64 = read_le(s, 1 + 3 * num, 4);
    proof {
        bytes::lemma_pow256_values();
        assert(1 + 3 * num + 4 == 5 + 3 * num);
    }
    let mut state: u32 = first as u32;
    if state < 1024 || state >= 2048 {
        return Err(Error::CorruptPayload("tans state out of range"));
    }
    match check_model(which, &w) {
        Err(e) => return Err(e),
        Ok(_) => {},
    }
    let table = nodes(which, &w);
    let mut br = BitReader::new(tail(s, 5 + 3 * num));
    let mut out: Vec<u8> = Vec::new();
    let mut i: u64 = 0;
    let ghost whole = tans_symbols(which@, w@, state as nat, n as nat, br.bits());
    assert(out@ + whole =~= whole);
    while i < n
        invariant
            i <= n,
            1024 <= state < 2048,
            table.len() == TABLE_SIZE,
            forall|k: int|
                0 <= k < 1024 ==> (#[trigger] table@[k]).describes(which@, w@, k as nat),
            br.wf(),
            out@ + tans_symbols(which@, w@, state as nat, (n - i) as nat, br.bits()) == whole,
        decreases n - i,
    {
        let idx: usize = (state - 1024) as usize;
        let node = &table[idx];
        assert(node.describes(which@, w@, idx as nat));
        let ghost before = out@;
        let ghost bits = br.bits();
        let extra: u64 = br.get(node.bits);
        out.push(node.sym);
        state = node.base + extra as u32;
        proof {
            let t = tans_symbols(which@, w@, state as nat, (n - i - 1) as nat, br.bits());
            assert(before + (seq![node.sym] + t) =~= out@ + t);
        }
        i = i + 1;
    }
    assert(out@ + Seq::<u8>::empty() =~= out@);
    Ok(out)
}

} // verus!
