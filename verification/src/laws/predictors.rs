//! What the hash predictors foresee: the last that followed the same context.

use vstd::prelude::*;
use crate::codecs::pred;
use crate::codecs::pred::{Flavor, Predictor};
use crate::hash;
use crate::lane;
use crate::lane::Lane;
use crate::varint;

verus! {

/// The value before value `k`, zero before the first.
pub open spec fn before(vals: Seq<u64>, k: int) -> u64 {
    if k == 0 {
        0
    } else {
        vals[k - 1]
    }
}

/// The slot in which the predictors look when value `k` is due: zero at the start, then
/// that of the value before (FCM) or of the latest difference (DFCM).
pub open spec fn context(lane: Lane, flavor: Flavor, vals: Seq<u64>, log2: u8, k: int) -> int {
    if k == 0 {
        0
    } else if flavor is Fcm {
        hash::slot_of(vals[k - 1], log2)
    } else {
        hash::slot_of(lane.diff(vals[k - 1], before(vals, k - 1)), log2)
    }
}

/// Value `j` is the last before value `i` that was due in the same context.
pub open spec fn last_alike(
    lane: Lane,
    flavor: Flavor,
    vals: Seq<u64>,
    log2: u8,
    j: int,
    i: int,
) -> bool {
    &&& 0 <= j < i
    &&& context(lane, flavor, vals, log2, j) == context(lane, flavor, vals, log2, i)
    &&& forall|k: int|
        j < k < i ==> #[trigger] context(lane, flavor, vals, log2, k) != context(
            lane,
            flavor,
            vals,
            log2,
            i,
        )
}

/// No value before value `i` was due in the same context.
pub open spec fn none_alike(lane: Lane, flavor: Flavor, vals: Seq<u64>, log2: u8, i: int) -> bool {
    forall|k: int|
        0 <= k < i ==> #[trigger] context(lane, flavor, vals, log2, k) != context(
            lane,
            flavor,
            vals,
            log2,
            i,
        )
}

/// The predictor after values.
spec fn ran(lane: Lane, flavor: Flavor, vals: Seq<u64>, p: Predictor, log2: u8) -> Predictor
    decreases vals.len(),
{
    if vals.len() == 0 {
        p
    } else {
        ran(
            lane,
            flavor,
            vals.drop_first(),
            pred::advanced(lane, flavor, p, vals[0], log2),
            log2,
        )
    }
}

proof fn lemma_push(lane: Lane, flavor: Flavor, vals: Seq<u64>, v: u64, p: Predictor, log2: u8)
    ensures
        ran(lane, flavor, vals.push(v), p, log2) == pred::advanced(
            lane,
            flavor,
            ran(lane, flavor, vals, p, log2),
            v,
            log2,
        ),
        pred::residual_bytes(lane, flavor, vals.push(v), p, log2) == pred::residual_bytes(
            lane,
            flavor,
            vals,
            p,
            log2,
        ) + varint::varint_bytes(
            (v ^ pred::predicted(lane, flavor, ran(lane, flavor, vals, p, log2))) as nat,
        ),
    decreases vals.len(),
{
    let longer = vals.push(v);
    if vals.len() == 0 {
        let q = pred::advanced(lane, flavor, p, v, log2);
        assert(longer.drop_first() =~= Seq::empty());
        assert(ran(lane, flavor, Seq::empty(), q, log2) == q);
        assert(pred::residual_bytes(lane, flavor, Seq::empty(), q, log2) =~= Seq::empty());
        assert(pred::residual_bytes(lane, flavor, longer, p, log2) =~= pred::residual_bytes(
            lane,
            flavor,
            vals,
            p,
            log2,
        ) + varint::varint_bytes((v ^ pred::predicted(lane, flavor, p)) as nat));
    } else {
        let q = pred::advanced(lane, flavor, p, vals[0], log2);
        assert(longer.drop_first() =~= vals.drop_first().push(v));
        lemma_push(lane, flavor, vals.drop_first(), v, q, log2);
        let head = varint::varint_bytes((vals[0] ^ pred::predicted(lane, flavor, p)) as nat);
        let mid = pred::residual_bytes(lane, flavor, vals.drop_first(), q, log2);
        let last = varint::varint_bytes(
            (v ^ pred::predicted(lane, flavor, ran(lane, flavor, vals, p, log2))) as nat,
        );
        assert(head + (mid + last) =~= (head + mid) + last);
    }
}

/// What the predictor holds after values: in each slot what followed there last.
proof fn lemma_holds(lane: Lane, flavor: Flavor, vals: Seq<u64>, log2: u8)
    requires
        lane.fits_all(vals),
    ensures
        ({
            let p = ran(lane, flavor, vals, pred::fresh(log2), log2);
            &&& pred::predictor_ok(lane, p, log2)
            &&& p.last == before(vals, vals.len() as int)
            &&& p.slot == context(lane, flavor, vals, log2, vals.len() as int)
            &&& forall|j: int, s: int|
                0 <= j < vals.len() && s == #[trigger] context(lane, flavor, vals, log2, j) && (
                forall|k: int|
                    j < k < vals.len() ==> #[trigger] context(lane, flavor, vals, log2, k) != s)
                    ==> #[trigger] p.table[s] == (if flavor is Fcm {
                    vals[j]
                } else {
                    lane.diff(vals[j], before(vals, j))
                })
            &&& forall|s: int|
                0 <= s < p.table.len() && (forall|k: int|
                    0 <= k < vals.len() ==> #[trigger] context(lane, flavor, vals, log2, k) != s)
                    ==> #[trigger] p.table[s] == 0
        }),
    decreases vals.len(),
{
    let p = ran(lane, flavor, vals, pred::fresh(log2), log2);
    if vals.len() == 0 {
        vstd::arithmetic::power2::lemma_pow2_pos(log2 as nat);
    } else {
        let n = vals.len() - 1;
        let front = vals.drop_last();
        let v = vals.last();
        assert forall|i: int| 0 <= i < front.len() implies lane.fits(#[trigger] front[i]) by {
            assert(lane.fits(vals[i]));
        }
        assert(lane.fits(vals[n as int]));
        lemma_holds(lane, flavor, front, log2);
        lemma_push(lane, flavor, front, v, pred::fresh(log2), log2);
        assert(front.push(v) =~= vals);
        let q = ran(lane, flavor, front, pred::fresh(log2), log2);
        pred::lemma_predictor_ok(lane, flavor, q, v, log2);
        assert forall|k: int| 0 <= k <= n implies #[trigger] context(lane, flavor, vals, log2, k)
            == context(lane, flavor, front, log2, k) by {}
        assert forall|j: int, s: int|
            0 <= j < vals.len() && s == #[trigger] context(lane, flavor, vals, log2, j) && (forall|
                k: int,
            |
                j < k < vals.len() ==> #[trigger] context(lane, flavor, vals, log2, k) != s)
            implies #[trigger] p.table[s] == (if flavor is Fcm {
            vals[j]
        } else {
            lane.diff(vals[j], before(vals, j))
        }) by {
            if j < n {
                assert(context(lane, flavor, vals, log2, n as int) != s);
                assert(s == context(lane, flavor, front, log2, j));
                assert forall|k: int| j < k < front.len() implies #[trigger] context(
                    lane,
                    flavor,
                    front,
                    log2,
                    k,
                ) != s by {
                    assert(context(lane, flavor, vals, log2, k) != s);
                }
                assert(q.table[s] == p.table[s]);
            }
        }
        assert forall|s: int|
            0 <= s < p.table.len() && (forall|k: int|
                0 <= k < vals.len() ==> #[trigger] context(lane, flavor, vals, log2, k) != s)
            implies #[trigger] p.table[s] == 0 by {
            assert(context(lane, flavor, vals, log2, n as int) != s);
            assert forall|k: int| 0 <= k < front.len() implies #[trigger] context(
                lane,
                flavor,
                front,
                log2,
                k,
            ) != s by {
                assert(context(lane, flavor, vals, log2, k) != s);
            }
            assert(q.table[s] == p.table[s]);
        }
    }
}

/// A value is stored against a guess.
pub open spec fn last_stored_against(
    lane: Lane,
    flavor: Flavor,
    vals: Seq<u64>,
    log2: u8,
    guess: u64,
) -> bool {
    pred::residual_bytes(lane, flavor, vals, pred::fresh(log2), log2) == pred::residual_bytes(
        lane,
        flavor,
        vals.drop_last(),
        pred::fresh(log2),
        log2,
    ) + varint::varint_bytes((vals.last() ^ guess) as nat)
}

proof fn lemma_last_stored(lane: Lane, flavor: Flavor, vals: Seq<u64>, log2: u8)
    requires
        lane.fits_all(vals),
        vals.len() > 0,
    ensures
        last_stored_against(
            lane,
            flavor,
            vals,
            log2,
            pred::predicted(
                lane,
                flavor,
                ran(lane, flavor, vals.drop_last(), pred::fresh(log2), log2),
            ),
        ),
{
    lemma_push(lane, flavor, vals.drop_last(), vals.last(), pred::fresh(log2), log2);
    assert(vals.drop_last().push(vals.last()) =~= vals);
}

/// FCM foresees the value that followed the last time: the residual of a value is taken
/// from the last value that was due in the same context, and is the value itself where
/// none was.
pub proof fn lemma_fcm_foresees(lane: Lane, vals: Seq<u64>, log2: u8, j: int)
    requires
        lane.fits_all(vals),
        vals.len() > 0,
    ensures
        last_alike(lane, Flavor::Fcm, vals, log2, j, vals.len() - 1) ==> last_stored_against(
            lane,
            Flavor::Fcm,
            vals,
            log2,
            vals[j],
        ),
        none_alike(lane, Flavor::Fcm, vals, log2, vals.len() - 1) ==> last_stored_against(
            lane,
            Flavor::Fcm,
            vals,
            log2,
            0,
        ),
{
    lemma_foresees(lane, Flavor::Fcm, vals, log2, j);
}

/// DFCM foresees the difference that followed the last time: the residual of a value is
/// taken from the value before, plus the difference to the last value that was due in the
/// same context; from the value before where none was.
pub proof fn lemma_dfcm_foresees(lane: Lane, vals: Seq<u64>, log2: u8, j: int)
    requires
        lane.fits_all(vals),
        vals.len() > 0,
    ensures
        last_alike(lane, Flavor::Dfcm, vals, log2, j, vals.len() - 1) ==> last_stored_against(
            lane,
            Flavor::Dfcm,
            vals,
            log2,
            lane.sum(
                before(vals, vals.len() - 1),
                lane.diff(vals[j], before(vals, j)),
            ),
        ),
        none_alike(lane, Flavor::Dfcm, vals, log2, vals.len() - 1) ==> last_stored_against(
            lane,
            Flavor::Dfcm,
            vals,
            log2,
            before(vals, vals.len() - 1),
        ),
{
    lemma_foresees(lane, Flavor::Dfcm, vals, log2, j);
    if vals.len() > 1 {
        assert(lane.fits(vals[vals.len() - 2]));
    }
}

proof fn lemma_foresees(lane: Lane, flavor: Flavor, vals: Seq<u64>, log2: u8, j: int)
    requires
        lane.fits_all(vals),
        vals.len() > 0,
    ensures
        last_alike(lane, flavor, vals, log2, j, vals.len() - 1) ==> last_stored_against(
            lane,
            flavor,
            vals,
            log2,
            if flavor is Fcm {
                vals[j]
            } else {
                lane.sum(before(vals, vals.len() - 1), lane.diff(vals[j], before(vals, j)))
            },
        ),
        none_alike(lane, flavor, vals, log2, vals.len() - 1) ==> last_stored_against(
            lane,
            flavor,
            vals,
            log2,
            if flavor is Fcm {
                0
            } else {
                lane.sum(before(vals, vals.len() - 1), 0)
            },
        ),
{
    let n = vals.len() - 1;
    let front = vals.drop_last();
    let p = ran(lane, flavor, front, pred::fresh(log2), log2);
    assert forall|i: int| 0 <= i < front.len() implies lane.fits(#[trigger] front[i]) by {
        assert(lane.fits(vals[i]));
    }
    lemma_holds(lane, flavor, front, log2);
    lemma_last_stored(lane, flavor, vals, log2);
    assert forall|k: int| 0 <= k <= n implies #[trigger] context(lane, flavor, vals, log2, k)
        == context(lane, flavor, front, log2, k) by {}
    let s = context(lane, flavor, vals, log2, n as int);
    assert(p.slot == s);
    assert(p.last == before(vals, n as int));
    if last_alike(lane, flavor, vals, log2, j, n as int) {
        assert(s == context(lane, flavor, front, log2, j));
        assert forall|k: int| j < k < front.len() implies #[trigger] context(
            lane,
            flavor,
            front,
            log2,
            k,
        ) != s by {
            assert(context(lane, flavor, vals, log2, k) != s);
        }
        assert(p.table[s] == (if flavor is Fcm {
            front[j]
        } else {
            lane.diff(front[j], before(front, j))
        }));
    }
    if none_alike(lane, flavor, vals, log2, n as int) {
        assert forall|k: int| 0 <= k < front.len() implies #[trigger] context(
            lane,
            flavor,
            front,
            log2,
            k,
        ) != s by {
            assert(context(lane, flavor, vals, log2, k) != s);
        }
        assert(p.table[s] == 0);
    }
}

/// Each value is the one before plus `step`, wrapped to the lane.
pub open spec fn steps_by(lane: Lane, vals: Seq<u64>, step: int) -> bool {
    forall|i: int|
        0 < i < vals.len() ==> #[trigger] vals[i] == (vals[i - 1] + step) % (lane.modulus() as int)
}

/// DFCM foresees linear data: from the fourth value on, each residual of values with one
/// difference is zero and takes one byte.
pub proof fn lemma_dfcm_foresees_lines(lane: Lane, vals: Seq<u64>, step: int, log2: u8)
    requires
        lane.fits_all(vals),
        vals.len() >= 3,
        steps_by(lane, vals, step),
    ensures
        pred::residual_bytes(lane, Flavor::Dfcm, vals, pred::fresh(log2), log2)
            == pred::residual_bytes(
            lane,
            Flavor::Dfcm,
            vals.take(3),
            pred::fresh(log2),
            log2,
        ) + Seq::new((vals.len() - 3) as nat, |i: int| 0u8),
    decreases vals.len(),
{
    let whole = pred::residual_bytes(lane, Flavor::Dfcm, vals, pred::fresh(log2), log2);
    let head = pred::residual_bytes(lane, Flavor::Dfcm, vals.take(3), pred::fresh(log2), log2);
    if vals.len() == 3 {
        assert(vals.take(3) =~= vals);
        assert(whole =~= head + Seq::new(0, |i: int| 0u8));
    } else {
        let n = vals.len() - 1;
        let front = vals.drop_last();
        assert forall|i: int| 0 <= i < front.len() implies lane.fits(#[trigger] front[i]) by {
            assert(lane.fits(vals[i]));
        }
        assert forall|i: int| 0 < i < front.len() implies #[trigger] front[i] == (front[i - 1]
            + step) % (lane.modulus() as int) by {
            assert(vals[i] == (vals[i - 1] + step) % (lane.modulus() as int));
        }
        lemma_dfcm_foresees_lines(lane, front, step, log2);
        assert(front.take(3) =~= vals.take(3));
        let m = lane.modulus() as int;
        lemma_one_difference(lane, vals, step, n as int);
        lemma_one_difference(lane, vals, step, n - 1);
        lemma_one_difference(lane, vals, step, n - 2);
        assert(last_alike(lane, Flavor::Dfcm, vals, log2, n - 1, n as int));
        lemma_dfcm_foresees(lane, vals, log2, n - 1);
        let x = vals[n as int];
        assert(lane.fits(vals[n as int]) && lane.fits(vals[n - 1]));
        lane::lemma_lane_diff_sum(lane, x, vals[n - 1]);
        assert(x ^ x == 0) by (bit_vector);
        assert(varint::varint_bytes(0) =~= seq![0u8]);
        assert(whole =~= head + Seq::new((vals.len() - 3) as nat, |i: int| 0u8));
    }
}

/// The differences of stepped values are all the same.
pub proof fn lemma_one_difference(lane: Lane, vals: Seq<u64>, step: int, i: int)
    requires
        lane.fits_all(vals),
        steps_by(lane, vals, step),
        0 < i < vals.len(),
    ensures
        lane.diff(vals[i], vals[i - 1]) == lane.unsigned(step),
{
    let m = lane.modulus() as int;
    let a = vals[i - 1] as int;
    assert(vals[i] == (a + step) % m);
    vstd::arithmetic::div_mod::lemma_sub_mod_noop(a + step, a, m);
    vstd::arithmetic::div_mod::lemma_sub_mod_noop((a + step) % m, a, m);
    vstd::arithmetic::div_mod::lemma_mod_twice(a + step, m);
    assert((a + step) - a == step);
}

/// FCM foresees repeats: from the third value on, each residual of equal values is zero
/// and takes one byte.
pub proof fn lemma_fcm_foresees_repeats(lane: Lane, v: u64, n: nat, log2: u8)
    requires
        lane.fits(v),
        n >= 2,
    ensures
        pred::residual_bytes(
            lane,
            Flavor::Fcm,
            Seq::new(n, |i: int| v),
            pred::fresh(log2),
            log2,
        ) == pred::residual_bytes(
            lane,
            Flavor::Fcm,
            seq![v, v],
            pred::fresh(log2),
            log2,
        ) + Seq::new((n - 2) as nat, |i: int| 0u8),
    decreases n,
{
    let vals = Seq::new(n, |i: int| v);
    let whole = pred::residual_bytes(lane, Flavor::Fcm, vals, pred::fresh(log2), log2);
    let head = pred::residual_bytes(lane, Flavor::Fcm, seq![v, v], pred::fresh(log2), log2);
    if n == 2 {
        assert(vals =~= seq![v, v]);
        assert(whole =~= head + Seq::new(0, |i: int| 0u8));
    } else {
        lemma_fcm_foresees_repeats(lane, v, (n - 1) as nat, log2);
        assert(vals.drop_last() =~= Seq::new((n - 1) as nat, |i: int| v));
        assert(last_alike(lane, Flavor::Fcm, vals, log2, n - 2, n - 1));
        lemma_fcm_foresees(lane, vals, log2, n - 2);
        assert(v ^ v == 0) by (bit_vector);
        assert(varint::varint_bytes(0) =~= seq![0u8]);
        assert(whole =~= head + Seq::new((n - 2) as nat, |i: int| 0u8));
    }
}

} // verus!
