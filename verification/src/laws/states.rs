//! Laws of the tANS tables.

use vstd::prelude::*;
use vstd::arithmetic::div_mod::*;
use crate::entropy::tans;

verus! {

/// The weights of the first `s` slots together.
pub open spec fn weight_of_first(w: Seq<u16>, s: nat) -> nat
    decreases s,
{
    if s == 0 {
        0
    } else {
        weight_of_first(w, (s - 1) as nat) + w[s - 1] as nat
    }
}

proof fn lemma_weight_of_first(w: Seq<u16>, s: nat)
    ensures
        weight_of_first(w, s) == tans::weight_sum(w, s),
    decreases s,
{
    if s > 0 {
        lemma_weight_of_first(w, (s - 1) as nat);
    }
}

proof fn lemma_slot_from(w: Seq<u16>, t: nat, from: nat, s: nat)
    requires
        from <= s < w.len(),
        tans::weight_sum(w, s) <= t < tans::weight_sum(w, s + 1),
    ensures
        tans::slot_from(w, t, from) == s,
    decreases s - from,
{
    if from < s {
        lemma_mono(w, from + 1, s);
        lemma_slot_from(w, t, from + 1, s);
    }
}

proof fn lemma_mono(w: Seq<u16>, a: nat, b: nat)
    requires
        a <= b,
    ensures
        tans::weight_sum(w, a) <= tans::weight_sum(w, b),
    decreases b - a,
{
    if a < b {
        lemma_mono(w, a, (b - 1) as nat);
    }
}

/// The slots are dealt out in order, each as often as it weighs, to every 615th of the 1024
/// states, around and around.
pub proof fn lemma_deal(w: Seq<u16>, s: nat, t: nat)
    requires
        s < w.len(),
        t < 1024,
        weight_of_first(w, s) <= t < weight_of_first(w, s + 1),
    ensures
        tans::state_slot(w, ((615 * t) % 1024) as nat) == s,
{
    lemma_weight_of_first(w, s);
    lemma_weight_of_first(w, s + 1);
    lemma_mul_mod_noop_right(343, 615 * t as int, 1024);
    assert(343 * (615 * t as int) == 1024 * (206 * t) + t);
    lemma_mod_multiples_vanish(206 * t as int, t as int, 1024);
    lemma_small_mod(t, 1024);
    lemma_slot_from(w, t, 0, s);
}

/// Weights with one more for each of `k` turns, taken in order.
pub open spec fn dealt(w: Seq<u16>, k: nat) -> Seq<u16> {
    Seq::new(
        w.len(),
        |j: int|
            (w[j] + k / w.len() + (if j < k % w.len() {
                1int
            } else {
                0
            })) as u16,
    )
}

proof fn lemma_turn(n: nat, k: nat)
    requires
        n > 0,
    ensures
        (k % n + 1) % n == (k + 1) % n,
        k % n + 1 < n ==> (k + 1) / n == k / n && (k + 1) % n == k % n + 1,
        k % n + 1 == n ==> (k + 1) / n == k / n + 1 && (k + 1) % n == 0,
{
    let (q, r, m) = ((k / n) as int, (k % n) as int, n as int);
    lemma_fundamental_div_mod(k as int, m);
    if r + 1 < m {
        assert(k + 1 == q * m + (r + 1)) by (nonlinear_arith)
            requires
                k == m * q + r,
        ;
        lemma_fundamental_div_mod_converse((k + 1) as int, m, q, r + 1);
        lemma_small_mod((r + 1) as nat, n);
    } else {
        assert(k + 1 == (q + 1) * m + 0) by (nonlinear_arith)
            requires
                k == m * q + r,
                r + 1 == m,
        ;
        lemma_fundamental_div_mod_converse((k + 1) as int, m, q + 1, 0);
        lemma_mod_self_0(m);
    }
}

proof fn lemma_topped_up(start: Seq<u16>, k: nat, d: nat, guard: nat)
    requires
        0 < start.len(),
        forall|j: int| 0 <= j < start.len() ==> #[trigger] start[j] <= 1024,
        k <= d <= 1024,
        d - k <= guard,
    ensures
        tans::topped_up(
            dealt(start, k),
            (1024 - d + k) as nat,
            k % start.len(),
            guard,
        ) == (dealt(start, d), 1024nat),
    decreases d - k,
{
    if k < d {
        let n = start.len();
        lemma_turn(n, k);
        let i = (k % n) as int;
        lemma_mod_bound(k as int, n as int);
        assert(k / n <= k) by (nonlinear_arith)
            requires
                n > 0,
        ;
        let (a, b) = (dealt(start, k), dealt(start, k + 1));
        assert(start[i] <= 1024);
        assert(b =~= a.update(i, (a[i] + 1) as u16)) by {
            assert forall|j: int| 0 <= j < n implies b[j] == a.update(i, (a[i] + 1) as u16)[j] by {
                assert(start[j] <= 1024);
            }
        }
        lemma_topped_up(start, k + 1, d, (guard - 1) as nat);
    }
}

/// Weights that fill the table stay as they are; weights that leave it short by no more
/// than there are turns get one each in order, around and around, until it is full.
pub proof fn lemma_short_weights(raw: Seq<u16>)
    requires
        1 <= raw.len() <= 256,
        forall|j: int| 0 <= j < raw.len() ==> #[trigger] raw[j] >= 1,
        weight_of_first(raw, raw.len()) <= 1024,
        1024 - weight_of_first(raw, raw.len()) <= 8 * raw.len() + 16,
    ensures
        tans::quantized(raw) == Some(
            dealt(raw, (1024 - weight_of_first(raw, raw.len())) as nat),
        ),
        weight_of_first(raw, raw.len()) == 1024 ==> tans::quantized(raw) == Some(raw),
{
    let n = raw.len();
    lemma_weight_of_first(raw, n);
    assert(tans::floored(raw) =~= raw);
    let d = (1024 - weight_of_first(raw, n)) as nat;
    assert forall|j: int| 0 <= j < n implies #[trigger] raw[j] <= 1024 by {
        lemma_mono(raw, j as nat + 1, n);
        lemma_mono(raw, 0, j as nat);
    }
    lemma_small_mod(0, n);
    assert(0nat / n == 0) by (nonlinear_arith)
        requires
            n > 0,
    ;
    assert(dealt(raw, 0) =~= raw);
    lemma_topped_up(raw, 0, d, n * 8 + 16);
}

proof fn lemma_trimmed(w: Seq<u16>, sum: nat, i: nat, guard: nat)
    requires
        i < w.len(),
        forall|j: int| 0 <= j < w.len() ==> #[trigger] w[j] >= 1,
    ensures
        ({
            let r = tans::trimmed(w, sum, i, guard).0;
            &&& r.len() == w.len()
            &&& forall|j: int| 0 <= j < w.len() ==> 1 <= #[trigger] r[j] <= w[j]
        }),
    decreases guard,
{
    if sum > 1024 && guard > 0 {
        let next = (i + 1) % w.len();
        lemma_mod_bound(i as int + 1, w.len() as int);
        if w[i as int] > 1 {
            lemma_trimmed(
                w.update(i as int, (w[i as int] - 1) as u16),
                (sum - 1) as nat,
                next,
                (guard - 1) as nat,
            );
        } else {
            lemma_trimmed(w, sum, next, (guard - 1) as nat);
        }
    }
}

/// Weights that overfill the table lose some, never below one, and none gains.
pub proof fn lemma_excess_weights(raw: Seq<u16>)
    requires
        1 <= raw.len() <= 256,
        forall|j: int| 0 <= j < raw.len() ==> #[trigger] raw[j] >= 1,
        weight_of_first(raw, raw.len()) > 1024,
        tans::quantized(raw) is Some,
    ensures
        ({
            let r = tans::quantized(raw)->0;
            &&& r.len() == raw.len()
            &&& forall|j: int| 0 <= j < raw.len() ==> 1 <= #[trigger] r[j] <= raw[j]
        }),
{
    let n = raw.len();
    lemma_weight_of_first(raw, n);
    assert(tans::floored(raw) =~= raw);
    lemma_trimmed(raw, tans::weight_sum(raw, n), 0, n * 8 + 16);
    lemma_trimmed_sum(raw, tans::weight_sum(raw, n), 0, n * 8 + 16);
}

proof fn lemma_trimmed_sum(w: Seq<u16>, sum: nat, i: nat, guard: nat)
    requires
        i < w.len(),
        sum >= 1024,
    ensures
        tans::trimmed(w, sum, i, guard).1 >= 1024,
    decreases guard,
{
    if sum > 1024 && guard > 0 {
        let next = (i + 1) % w.len();
        lemma_mod_bound(i as int + 1, w.len() as int);
        if w[i as int] > 1 {
            lemma_trimmed_sum(
                w.update(i as int, (w[i as int] - 1) as u16),
                (sum - 1) as nat,
                next,
                (guard - 1) as nat,
            );
        } else {
            lemma_trimmed_sum(w, sum, next, (guard - 1) as nat);
        }
    }
}

} // verus!
