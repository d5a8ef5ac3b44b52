//! What the codecs of differences store, and what they are good at.

use vstd::prelude::*;
use crate::codecs::{delta_bitpack, linear, xorz};
use crate::lane;
use crate::lane::Lane;
use crate::laws::predictors;
use crate::laws::predictors::steps_by;
use crate::validity;
use crate::varint;

verus! {

/// Chained varints hold each value exclusive-or the one before: a further value adds
/// exactly its own.
pub proof fn lemma_chain_grows(vals: Seq<u64>, v: u64, prev: u64)
    ensures
        xorz::xorz_bytes(vals.push(v), prev) == xorz::xorz_bytes(vals, prev)
            + varint::varint_bytes(
            (v ^ (if vals.len() == 0 {
                prev
            } else {
                vals.last()
            })) as nat,
        ),
    decreases vals.len(),
{
    let longer = vals.push(v);
    if vals.len() == 0 {
        assert(longer.drop_first() =~= Seq::empty());
        assert(xorz::xorz_bytes(Seq::empty(), v) =~= Seq::empty());
        assert(xorz::xorz_bytes(longer, prev) =~= xorz::xorz_bytes(vals, prev)
            + varint::varint_bytes((v ^ prev) as nat));
    } else {
        assert(longer.drop_first() =~= vals.drop_first().push(v));
        lemma_chain_grows(vals.drop_first(), v, vals[0]);
        let head = varint::varint_bytes((vals[0] ^ prev) as nat);
        let mid = xorz::xorz_bytes(vals.drop_first(), vals[0]);
        let last = varint::varint_bytes((v ^ vals.last()) as nat);
        assert(vals.drop_first().len() > 0 ==> vals.drop_first().last() == vals.last());
        assert(head + (mid + last) =~= (head + mid) + last);
    }
}

/// A repeated value takes one byte in the chain.
pub proof fn lemma_chain_repeats(vals: Seq<u64>, prev: u64)
    requires
        vals.len() > 0,
    ensures
        xorz::xorz_bytes(vals.push(vals.last()), prev) == xorz::xorz_bytes(vals, prev).push(0),
{
    let v = vals.last();
    lemma_chain_grows(vals, v, prev);
    assert(v ^ v == 0) by (bit_vector);
    assert(varint::varint_bytes(0) =~= seq![0u8]);
    assert(xorz::xorz_bytes(vals, prev) + seq![0u8] =~= xorz::xorz_bytes(vals, prev).push(0));
}

/// Zigzag numbers the integers by their distance from zero: `d` becomes `2 d`, and `-d`
/// becomes `2 d - 1`.
pub proof fn lemma_zigzag(lane: Lane, d: int)
    requires
        -(lane.modulus() / 2) <= d < lane.modulus() / 2,
    ensures
        lane.zigzagged(lane.unsigned(d)) == (if d >= 0 {
            2 * d
        } else {
            -2 * d - 1
        }),
{
    let m = lane.modulus() as int;
    if d >= 0 {
        vstd::arithmetic::div_mod::lemma_small_mod(d as nat, m as nat);
    } else {
        vstd::arithmetic::div_mod::lemma_mod_add_multiples_vanish(d, m);
        vstd::arithmetic::div_mod::lemma_small_mod((d + m) as nat, m as nat);
    }
}

/// Bit-packed deltas are the zigzag distances of neighbours, from the first value on: zero
/// for the first, and for each other the number of its difference.
pub proof fn lemma_packed_deltas(lane: Lane, vals: Seq<u64>, i: int, d: int)
    requires
        lane.fits_all(vals),
        0 <= i < vals.len(),
        -(lane.modulus() / 2) <= d < lane.modulus() / 2,
        i > 0 ==> vals[i] == (vals[i - 1] + d) % (lane.modulus() as int),
        i == 0 ==> d == 0,
    ensures
        delta_bitpack::deltas_of(lane, vals, delta_bitpack::base_of(vals))[i] == (if d >= 0 {
            2 * d
        } else {
            -2 * d - 1
        }),
{
    lemma_zigzag(lane, d);
    assert(lane.fits(vals[i]));
    if i > 0 {
        let m = lane.modulus() as int;
        let a = vals[i - 1] as int;
        assert(lane.fits(vals[i - 1]));
        vstd::arithmetic::div_mod::lemma_sub_mod_noop(a + d, a, m);
        vstd::arithmetic::div_mod::lemma_sub_mod_noop((a + d) % m, a, m);
        vstd::arithmetic::div_mod::lemma_mod_twice(a + d, m);
        assert((vals[i] - a) % m == d % m);
    }
}

/// Second differences hold each value against the line through the two before: a further
/// value adds the zigzag number of its distance from that line.
pub proof fn lemma_second_grows(lane: Lane, vals: Seq<u64>, v: u64)
    requires
        lane.fits_all(vals),
    ensures
        linear::idelta2_bytes(lane, vals.push(v), 0, 0, 0) == linear::idelta2_bytes(
            lane,
            vals,
            0,
            0,
            0,
        ) + varint::varint_bytes(
            lane.zigzagged(
                lane.diff(
                    v,
                    if vals.len() == 0 {
                        0
                    } else if vals.len() == 1 {
                        vals[0]
                    } else {
                        lane.diff(lane.sum(vals.last(), vals.last()), vals[vals.len() - 2])
                    },
                ),
            ) as nat,
        ),
{
    lemma_second_push(lane, vals, v, 0, 0, 0);
}

proof fn lemma_second_push(lane: Lane, vals: Seq<u64>, v: u64, p1: u64, p2: u64, seen: nat)
    ensures
        linear::idelta2_bytes(lane, vals.push(v), p1, p2, seen) == linear::idelta2_bytes(
            lane,
            vals,
            p1,
            p2,
            seen,
        ) + varint::varint_bytes(
            lane.zigzagged(
                lane.diff(
                    v,
                    linear::extrapolated(
                        lane,
                        if vals.len() == 0 {
                            p1
                        } else {
                            vals.last()
                        },
                        if vals.len() == 0 {
                            p2
                        } else if vals.len() == 1 {
                            p1
                        } else {
                            vals[vals.len() - 2]
                        },
                        seen + vals.len(),
                    ),
                ),
            ) as nat,
        ),
    decreases vals.len(),
{
    let longer = vals.push(v);
    if vals.len() == 0 {
        assert(longer.drop_first() =~= Seq::empty());
        let last = varint::varint_bytes(
            lane.zigzagged(lane.diff(v, linear::extrapolated(lane, p1, p2, seen))) as nat,
        );
        assert(linear::idelta2_bytes(lane, Seq::empty(), v, p1, seen + 1) =~= Seq::empty());
        assert(linear::idelta2_bytes(lane, longer, p1, p2, seen) =~= linear::idelta2_bytes(
            lane,
            vals,
            p1,
            p2,
            seen,
        ) + last);
    } else {
        let rest = vals.drop_first();
        assert(longer.drop_first() =~= rest.push(v));
        lemma_second_push(lane, rest, v, vals[0], p1, seen + 1);
        let head = varint::varint_bytes(
            lane.zigzagged(lane.diff(vals[0], linear::extrapolated(lane, p1, p2, seen))) as nat,
        );
        let mid = linear::idelta2_bytes(lane, rest, vals[0], p1, seen + 1);
        let last = varint::varint_bytes(
            lane.zigzagged(
                lane.diff(
                    v,
                    linear::extrapolated(
                        lane,
                        vals.last(),
                        if vals.len() == 1 {
                            p1
                        } else {
                            vals[vals.len() - 2]
                        },
                        seen + vals.len(),
                    ),
                ),
            ) as nat,
        );
        assert(rest.len() > 0 ==> rest.last() == vals.last());
        assert(head + (mid + last) =~= (head + mid) + last);
    }
}

/// Second differences of linear data are zero from the third value on, one byte each.
pub proof fn lemma_second_of_lines(lane: Lane, vals: Seq<u64>, step: int)
    requires
        lane.fits_all(vals),
        vals.len() >= 2,
        steps_by(lane, vals, step),
    ensures
        linear::idelta2_bytes(lane, vals, 0, 0, 0) == linear::idelta2_bytes(
            lane,
            vals.take(2),
            0,
            0,
            0,
        ) + Seq::new((vals.len() - 2) as nat, |i: int| 0u8),
    decreases vals.len(),
{
    let whole = linear::idelta2_bytes(lane, vals, 0, 0, 0);
    let head = linear::idelta2_bytes(lane, vals.take(2), 0, 0, 0);
    if vals.len() == 2 {
        assert(vals.take(2) =~= vals);
        assert(whole =~= head + Seq::new(0, |i: int| 0u8));
    } else {
        let n = vals.len() - 1;
        let front = vals.drop_last();
        let (x, y, z) = (vals[n], vals[n - 1], vals[n - 2]);
        assert(lane.fits(vals[n]) && lane.fits(vals[n - 1]) && lane.fits(vals[n - 2]));
        assert forall|i: int| 0 <= i < front.len() implies lane.fits(#[trigger] front[i]) by {
            assert(lane.fits(vals[i]));
        }
        assert forall|i: int| 0 < i < front.len() implies #[trigger] front[i] == (front[i - 1]
            + step) % (lane.modulus() as int) by {
            assert(vals[i] == (vals[i - 1] + step) % (lane.modulus() as int));
        }
        lemma_second_of_lines(lane, front, step);
        assert(front.take(2) =~= vals.take(2));
        lemma_second_grows(lane, front, x);
        assert(front.push(x) =~= vals);
        predictors::lemma_one_difference(lane, vals, step, n);
        predictors::lemma_one_difference(lane, vals, step, n - 1);
        lemma_on_line(lane, x, y, z);
        assert(lane.zigzagged(0) == 0);
        assert(varint::varint_bytes(0) =~= seq![0u8]);
        assert(whole =~= head + Seq::new((vals.len() - 2) as nat, |i: int| 0u8));
    }
}

/// A value as far from the one before as that is from its predecessor lies on the line.
proof fn lemma_on_line(lane: Lane, x: u64, y: u64, z: u64)
    requires
        lane.fits(x),
        lane.fits(y),
        lane.fits(z),
        lane.diff(x, y) == lane.diff(y, z),
    ensures
        lane.diff(x, lane.diff(lane.sum(y, y), z)) == 0,
{
    let m = lane.modulus() as int;
    let (a, b, c) = (x as int, y as int, z as int);
    assert((a - b) % m == (b - c) % m);
    let q1 = (a - b) / m;
    let q2 = (b - c) / m;
    vstd::arithmetic::div_mod::lemma_fundamental_div_mod(a - b, m);
    vstd::arithmetic::div_mod::lemma_fundamental_div_mod(b - c, m);
    assert(a - (2 * b - c) == m * (q1 - q2)) by (nonlinear_arith)
        requires
            a - b == m * q1 + (a - b) % m,
            b - c == m * q2 + (b - c) % m,
            (a - b) % m == (b - c) % m,
    ;
    let s = (b + b) % m;
    let e = (s - c) % m;
    vstd::arithmetic::div_mod::lemma_sub_mod_noop(b + b, c, m);
    vstd::arithmetic::div_mod::lemma_sub_mod_noop(s, c, m);
    vstd::arithmetic::div_mod::lemma_mod_twice(b + b, m);
    assert(e == (2 * b - c) % m);
    vstd::arithmetic::div_mod::lemma_sub_mod_noop(a, 2 * b - c, m);
    vstd::arithmetic::div_mod::lemma_sub_mod_noop(a, e, m);
    vstd::arithmetic::div_mod::lemma_mod_twice(2 * b - c, m);
    assert((a - e) % m == (a - (2 * b - c)) % m);
    assert((m * (q1 - q2)) % m == 0) by {
        vstd::arithmetic::div_mod::lemma_mod_multiples_basic(q1 - q2, m);
        assert((q1 - q2) * m == m * (q1 - q2)) by (nonlinear_arith);
    }
}

/// Values are compacted in order: those of the first rows before those of the rest, and
/// all of them where all are valid.
pub proof fn lemma_compacted_in_order(vals: Seq<u64>, bits: Seq<bool>, k: int)
    requires
        0 <= k <= vals.len(),
        vals.len() == bits.len(),
    ensures
        validity::compacted(vals, bits) == validity::compacted(vals.take(k), bits.take(k))
            + validity::compacted(vals.skip(k), bits.skip(k)),
        (forall|i: int| 0 <= i < bits.len() ==> bits[i]) ==> validity::compacted(vals, bits)
            == vals,
    decreases vals.len(),
{
    lemma_compacted_all(vals, bits);
    if k < vals.len() {
        let n = vals.len() - 1;
        let (v, b) = (vals.drop_last(), bits.drop_last());
        lemma_compacted_in_order(v, b, k);
        assert(v.take(k) =~= vals.take(k) && b.take(k) =~= bits.take(k));
        assert(v.skip(k) =~= vals.skip(k).drop_last());
        lemma_compacted_bits(v, bits, b);
        lemma_compacted_bits(v.skip(k), bits.skip(k), b.skip(k));
        assert(bits.skip(k)[vals.skip(k).len() - 1] == bits[n]);
        assert(vals.skip(k).last() == vals.last());
        let front = validity::compacted(vals.take(k), bits.take(k));
        let back = validity::compacted(v.skip(k), b.skip(k));
        if bits[n] {
            assert((front + back).push(vals.last()) =~= front + back.push(vals.last()));
        }
    } else {
        assert(vals.take(k) =~= vals && bits.take(k) =~= bits);
        assert(vals.skip(k) =~= Seq::empty());
        assert(validity::compacted(vals.skip(k), bits.skip(k)) =~= Seq::empty());
        assert(validity::compacted(vals, bits) =~= validity::compacted(vals, bits) + Seq::empty());
    }
}

proof fn lemma_compacted_bits(vals: Seq<u64>, a: Seq<bool>, b: Seq<bool>)
    requires
        forall|i: int| 0 <= i < vals.len() ==> a[i] == b[i],
    ensures
        validity::compacted(vals, a) == validity::compacted(vals, b),
    decreases vals.len(),
{
    if vals.len() > 0 {
        lemma_compacted_bits(vals.drop_last(), a, b);
    }
}

proof fn lemma_compacted_all(vals: Seq<u64>, bits: Seq<bool>)
    requires
        vals.len() <= bits.len(),
    ensures
        (forall|i: int| 0 <= i < bits.len() ==> bits[i]) ==> validity::compacted(vals, bits)
            == vals,
    decreases vals.len(),
{
    if vals.len() > 0 {
        lemma_compacted_all(vals.drop_last(), bits);
        if forall|i: int| 0 <= i < bits.len() ==> bits[i] {
            assert(vals.drop_last().push(vals.last()) =~= vals);
        }
    } else {
        assert(validity::compacted(vals, bits) =~= vals);
    }
}

} // verus!
