//! What stored numbers are: words, limbs, widened columns, bitmaps and counts.

use vstd::prelude::*;
use vstd::arithmetic::div_mod::*;
use crate::bytes;
use crate::column;
use crate::column::ColumnView;
use crate::decimal;
use crate::decimal::ContainerView;
use crate::diag;
use crate::native;
use crate::native::NativeView;
use crate::sample;
use crate::validity;

verus! {

/// A signed number is stored as its two's complement: as itself, or with the lane's modulus
/// added where it is negative. Unsigned numbers and the patterns of floats are stored as
/// they are.
pub proof fn lemma_words(col: ColumnView, i: int)
    requires
        0 <= i < col.len(),
        !col.is_decimal(),
    ensures
        col.words().len() == col.len(),
        col matches ColumnView::F64(v) ==> col.words()[i] == v[i],
        col matches ColumnView::U64(v) ==> col.words()[i] == v[i],
        col matches ColumnView::U32(v) ==> col.words()[i] == v[i],
        col matches ColumnView::F32(v) ==> col.words()[i] == v[i],
        col matches ColumnView::I64(v) ==> col.words()[i] == (if v[i] < 0 {
            v[i] + 0x1_0000_0000_0000_0000
        } else {
            v[i] as int
        }),
        col matches ColumnView::I32(v) ==> col.words()[i] == (if v[i] < 0 {
            v[i] + 0x1_0000_0000
        } else {
            v[i] as int
        }),
{
}

/// Words are typed as the numbers that they store.
pub proof fn lemma_typed(col: ColumnView)
    requires
        !col.is_decimal(),
    ensures
        column::typed(col.dtype(), col.words()) == col,
{
    let t = column::typed(col.dtype(), col.words());
    match (t, col) {
        (ColumnView::F64(a), ColumnView::F64(b)) => assert(a =~= b),
        (ColumnView::I64(a), ColumnView::I64(b)) => assert(a =~= b),
        (ColumnView::U64(a), ColumnView::U64(b)) => assert(a =~= b),
        (ColumnView::I32(a), ColumnView::I32(b)) => assert(a =~= b),
        (ColumnView::U32(a), ColumnView::U32(b)) => assert(a =~= b),
        (ColumnView::F32(a), ColumnView::F32(b)) => assert(a =~= b),
        _ => {},
    }
}

/// Widening changes no number.
pub proof fn lemma_widening_keeps_numbers(c: NativeView, i: int)
    requires
        0 <= i < c.len(),
    ensures
        c.widened().len() == c.len(),
        c matches NativeView::Bool(v) ==> c.widened() is U32 && c.widened()->U32_0[i] == v[i],
        c matches NativeView::U8(v) ==> c.widened() is U32 && c.widened()->U32_0[i] == v[i],
        c matches NativeView::U16(v) ==> c.widened() is U32 && c.widened()->U32_0[i] == v[i],
        c matches NativeView::U32(v) ==> c.widened() == ColumnView::U32(v),
        c matches NativeView::U64(v) ==> c.widened() == ColumnView::U64(v),
        c matches NativeView::I8(v) ==> c.widened() is I32 && c.widened()->I32_0[i] == v[i],
        c matches NativeView::I16(v) ==> c.widened() is I32 && c.widened()->I32_0[i] == v[i],
        c matches NativeView::I32(v) ==> c.widened() == ColumnView::I32(v),
        c matches NativeView::I64(v) ==> c.widened() == ColumnView::I64(v),
        c matches NativeView::F32(v) ==> c.widened() == ColumnView::F32(v),
        c matches NativeView::F64(v) ==> c.widened() == ColumnView::F64(v),
{
}

/// Narrowing keeps a number that fits, and of another its remainder: the narrow number
/// differs from the wide one by a multiple of the narrow type's size.
pub proof fn lemma_narrowing(x: int)
    ensures
        0 <= x < 256 ==> native::low8(x) == x,
        0 <= x < 65536 ==> native::low16(x) == x,
        -128 <= x < 128 ==> native::low8_signed(x) == x,
        -32768 <= x < 32768 ==> native::low16_signed(x) == x,
        (x - native::low8(x)) % 256 == 0,
        (x - native::low16(x)) % 65536 == 0,
        (x - native::low8_signed(x)) % 256 == 0,
        (x - native::low16_signed(x)) % 65536 == 0,
{
}

/// A 128-bit decimal is stored as what it is above the least, in two limbs of 64 bits, the
/// lower first; the least is stored as its two's complement in sixteen bytes.
pub proof fn lemma_limbs128(
    c: ContainerView,
    values: Seq<i128>,
    scale: i8,
    precision: u8,
    bits: Option<Seq<bool>>,
) -> (least: i128)
    requires
        decimal::holds128(c, values, scale, precision, bits),
    ensures
        ({
            let valid = decimal::valid_of(values, bits);
            &&& forall|i: int|
                0 <= i < valid.len() ==> c.limbs[0][i] + 0x1_0000_0000_0000_0000 * c.limbs[1][i]
                    == #[trigger] valid[i] - least
            &&& valid.len() > 0 ==> valid.contains(least)
            &&& valid.len() == 0 ==> least == 0
            &&& c.min.len() == 16
            &&& bytes::le_value(c.min) == (if least < 0 {
                least + 0x1_0000_0000_0000_0000_0000_0000_0000_0000
            } else {
                least as int
            })
        }),
{
    let valid = decimal::valid_of(values, bits);
    let m = choose|m: i128| #[trigger]
        decimal::is_least128(valid, m) && decimal::offsets128(c, valid, m);
    assert forall|i: int| 0 <= i < valid.len() implies c.limbs[0][i] + 0x1_0000_0000_0000_0000
        * c.limbs[1][i] == #[trigger] valid[i] - m by {
        assert(m <= valid[i]);
        assert(decimal::value2(c.limbs[0][i], c.limbs[1][i]) == (decimal::bits128(valid[i])
            - decimal::bits128(m)) % decimal::modulus128());
        let d = decimal::bits128(valid[i]) - decimal::bits128(m);
        assert(d % decimal::modulus128() == valid[i] - m);
    }
    m
}

/// A 256-bit decimal is stored as what it is above the least, in four limbs of 64 bits, the
/// lowest first; the least is stored as it is.
pub proof fn lemma_limbs256(
    c: ContainerView,
    values: Seq<Seq<u8>>,
    scale: i8,
    precision: u8,
    bits: Option<Seq<bool>>,
    i: int,
)
    requires
        decimal::holds256(c, values, scale, precision, bits),
        0 <= i < decimal::valid_of(values, bits).len(),
        forall|j: int|
            0 <= j < decimal::valid_of(values, bits).len() ==> (#[trigger] decimal::valid_of(
                values,
                bits,
            )[j]).len() == 32,
    ensures
        ({
            let valid = decimal::valid_of(values, bits);
            let base = 0x1_0000_0000_0000_0000int;
            let above = c.limbs[0][i] + base * (c.limbs[1][i] + base * (c.limbs[2][i] + base
                * c.limbs[3][i]));
            &&& above == decimal::number256(valid[i]) - decimal::number256(c.min)
            &&& valid.contains(c.min)
        }),
{
    let valid = decimal::valid_of(values, bits);
    let l = decimal::limbs_at(c.limbs, i);
    assert(valid[i].len() == 32);
    let (a, b) = (bytes::le_value(valid[i]) as int, bytes::le_value(c.min) as int);
    let m = decimal::modulus256();
    assert(decimal::value4(l) == (a - b) % m);
    decimal::lemma_image256(valid[i]);
    decimal::lemma_image256(c.min);
    assert(decimal::number256(c.min) <= decimal::number256(valid[i]));
    let d = decimal::number256(valid[i]) - decimal::number256(c.min);
    assert(0 <= a < m && 0 <= b < m);
    assert(0 <= d < m);
    lemma_mod_add_multiples_vanish(d, m);
    lemma_mod_add_multiples_vanish(d - m, m);
    lemma_small_mod(d as nat, m as nat);
    assert(d == a - b || d == a - b + m || d == a - b - m);
    assert((a - b) % m == d);
}

/// The bits of a bitmap are those of its bytes, the lowest of each first.
pub proof fn lemma_bit_order(bitmap: Seq<u8>, n: nat, i: int)
    requires
        0 <= i < n,
        bitmap.len() * 8 >= n,
    ensures
        validity::bitmap_bits(bitmap, n).len() == n,
        validity::bitmap_bits(bitmap, n)[i] <==> (bitmap[i / 8] as nat
            / vstd::arithmetic::power2::pow2((i % 8) as nat)) % 2 == 1,
{
}

/// How many of `ids` fall to slot `s` of sixty-four.
pub open spec fn falls_to(ids: Seq<u8>, s: int) -> nat
    decreases ids.len(),
{
    if ids.len() == 0 {
        0
    } else {
        falls_to(ids.drop_last(), s) + (if ids.last() % 64 == s {
            1nat
        } else {
            0nat
        })
    }
}

/// Each win is counted once, under the number of its mode, and counts wrap around.
pub proof fn lemma_wins_are_counted(counts: Seq<u64>, ids: Seq<u8>, s: int)
    requires
        counts.len() == 64,
        0 <= s < 64,
    ensures
        diag::with_wins(counts, ids).len() == 64,
        diag::with_wins(counts, ids)[s] == (counts[s] + falls_to(ids, s)) % 0x1_0000_0000_0000_0000,
    decreases ids.len(),
{
    if ids.len() > 0 {
        lemma_wins_are_counted(counts, ids.drop_last(), s);
    }
}

/// A strided sample holds every value at a multiple of the step, and nothing else.
pub proof fn lemma_strided(vals: Seq<u64>, step: nat, p: int)
    requires
        step > 0,
        0 <= p < vals.len(),
        p % (step as int) == 0,
    ensures
        ({
            let s = sample::strided(vals, step);
            &&& 0 <= p / (step as int) < s.len()
            &&& s[p / (step as int)] == vals[p]
            &&& (s.len() - 1) * step < vals.len() <= s.len() * step
        }),
{
    let s = sample::strided(vals, step);
    let (n, k, q) = (vals.len() as int, step as int, p / step as int);
    lemma_fundamental_div_mod(p, k);
    lemma_fundamental_div_mod(n + k - 1, k);
    let len = (n + k - 1) / k;
    assert(q * k == p) by (nonlinear_arith)
        requires
            p == k * q + 0,
    ;
    assert((len - 1) * k < n <= len * k && 0 <= q < len) by (nonlinear_arith)
        requires
            n + k - 1 == k * len + (n + k - 1) % k,
            0 <= (n + k - 1) % k < k,
            q * k == p,
            0 <= p < n,
            k > 0,
    ;
}

} // verus!
