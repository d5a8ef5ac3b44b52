//! Vertical bit-packing of 1024-value blocks.
//!
//! A block of 1024 values, each fitting `width` bits, is packed in a
//! lane-transposed layout: the value at position `row * lanes + lane` stands in
//! lane `lane`'s bit stream, and word `k` of every lane's stream lies in one
//! contiguous plane. There are 32 lanes of 32-bit words ([`pack`]/[`unpack`],
//! widths up to 32) or 16 lanes of 64-bit words ([`pack64`]/[`unpack64`], widths
//! up to 64).

use vstd::prelude::*;
use vstd::arithmetic::div_mod::*;
use vstd::arithmetic::power2::*;
use crate::bitio;
use crate::bitio::two_to;

verus! {

/// Values per block.
pub const BLOCK: usize = 1024;

/// Lanes of a block packed into `bits`-bit words, which is also the plane size.
pub open spec fn lane_count(bits: nat) -> nat {
    if bits == 32 {
        32
    } else {
        16
    }
}

/// The bit stream of lane `l` from its word `j` on, read as a number.
pub open spec fn lane_stream(words: Seq<u64>, bits: nat, width: nat, l: int, j: nat) -> nat
    decreases width - j,
{
    if j >= width {
        0
    } else {
        words[j * lane_count(bits) + l] as nat + pow2(bits) * lane_stream(
            words,
            bits,
            width,
            l,
            j + 1,
        )
    }
}

/// The value at position `i` of a packed block.
pub open spec fn packed_value(words: Seq<u64>, bits: nat, width: nat, i: int) -> nat {
    let lanes = lane_count(bits) as int;
    (lane_stream(words, bits, width, i % lanes, 0) / pow2(((i / lanes) * width) as nat)) % pow2(
        width,
    )
}

/// A packed block: one word per lane and bit of width, each of `bits` bits.
pub open spec fn packed_ok(words: Seq<u64>, bits: nat, width: nat) -> bool {
    &&& words.len() == lane_count(bits) * width
    &&& forall|i: int| 0 <= i < words.len() ==> #[trigger] words[i] < pow2(bits)
}

spec fn shape_ok(bits: nat, width: nat) -> bool {
    (bits == 32 || bits == 64) && width <= bits
}

proof fn lemma_index(bits: nat, width: nat, j: int, l: int)
    requires
        shape_ok(bits, width),
        0 <= j < width,
        0 <= l < lane_count(bits),
    ensures
        0 <= j * lane_count(bits) + l < lane_count(bits) * width,
{
    let n = lane_count(bits) as int;
    assert(0 <= j * n + l < n * width) by (nonlinear_arith)
        requires
            0 <= j <= width - 1,
            0 <= l < n,
    ;
}

/// The stream shifted down by whole words.
proof fn lemma_stream_div(words: Seq<u64>, bits: nat, width: nat, l: int, j: nat)
    requires
        shape_ok(bits, width),
        packed_ok(words, bits, width),
        0 <= l < lane_count(bits),
        j <= width,
    ensures
        lane_stream(words, bits, width, l, 0) / pow2(bits * j) == lane_stream(
            words,
            bits,
            width,
            l,
            j,
        ),
    decreases j,
{
    lemma2_to64();
    if j == 0 {
        assert(bits * j == 0) by (nonlinear_arith)
            requires
                j == 0,
        ;
        let s = lane_stream(words, bits, width, l, 0);
        assert(s / 1 == s);
    } else {
        let k = (j - 1) as nat;
        lemma_stream_div(words, bits, width, l, k);
        lemma_index(bits, width, k as int, l);
        assert(bits * j == bits * k + bits) by (nonlinear_arith)
            requires
                j == k + 1,
        ;
        lemma_pow2_adds(bits * k, bits);
        lemma_pow2_pos(bits * k);
        lemma_pow2_pos(bits);
        let s = lane_stream(words, bits, width, l, 0) as int;
        lemma_div_denominator(s, pow2(bits * k) as int, pow2(bits) as int);
        let w = words[k * lane_count(bits) + l] as int;
        let t = lane_stream(words, bits, width, l, j) as int;
        lemma_fundamental_div_mod_converse(w + pow2(bits) * t, pow2(bits) as int, t, w);
    }
}

/// Changing one word changes its lane's stream by the difference, in place.
proof fn lemma_stream_update(
    words: Seq<u64>,
    bits: nat,
    width: nat,
    j0: nat,
    l0: int,
    v: u64,
    l: int,
    j: nat,
)
    requires
        shape_ok(bits, width),
        words.len() == lane_count(bits) * width,
        j0 < width,
        0 <= l0 < lane_count(bits),
        0 <= l < lane_count(bits),
        j <= width,
    ensures
        ({
            let at = j0 * lane_count(bits) + l0;
            let before = lane_stream(words, bits, width, l, j);
            let after = lane_stream(words.update(at, v), bits, width, l, j);
            if l == l0 && j <= j0 {
                after == before + (v - words[at]) * pow2((bits * (j0 - j)) as nat)
            } else {
                after == before
            }
        }),
    decreases width - j,
{
    let n = lane_count(bits) as int;
    let at = j0 * n + l0;
    lemma_index(bits, width, j0 as int, l0);
    lemma2_to64();
    if j < width {
        lemma_index(bits, width, j as int, l);
        lemma_stream_update(words, bits, width, j0, l0, v, l, j + 1);
        assert(j * n + l == at ==> j == j0 && l == l0) by (nonlinear_arith)
            requires
                at == j0 * n + l0,
                0 <= l < n,
                0 <= l0 < n,
        ;
        if l == l0 && j <= j0 {
            let d = v - words[at];
            if j == j0 {
                assert((bits * (j0 - j)) as nat == 0) by (nonlinear_arith)
                    requires
                        j == j0,
                ;
                assert(d * pow2(0) == d) by (nonlinear_arith)
                    requires
                        pow2(0) == 1,
                ;
            } else {
                let m = (bits * (j0 - (j + 1))) as nat;
                assert((bits * (j0 - j)) as nat == bits + m) by (nonlinear_arith)
                    requires
                        m == bits * (j0 - (j + 1)),
                        j < j0,
                ;
                lemma_pow2_adds(bits, m);
                let t = lane_stream(words, bits, width, l, j + 1) as int;
                let (p, q) = (pow2(bits) as int, pow2(m) as int);
                assert(p * (t + d * q) == p * t + d * (p * q)) by (nonlinear_arith);
            }
        }
    }
}

/// What the first `r` rows of lane `l` add up to, each shifted to its place in the
/// lane's bit stream.
pub open spec fn row_sum(vals: Seq<u64>, lanes: int, width: nat, l: int, r: nat) -> nat
    decreases r,
{
    if r == 0 {
        0
    } else {
        row_sum(vals, lanes, width, l, (r - 1) as nat) + (vals[(r - 1) * lanes + l] as nat % pow2(
            width,
        )) * pow2(((r - 1) * width) as nat)
    }
}

/// The packed words of a block: word `k` of lane `l`, at `k * lanes + l`, holds the
/// bits of the lane's stream from `k * bits` on.
pub open spec fn packed_words(vals: Seq<u64>, bits: nat, width: nat) -> Seq<u64> {
    let lanes = lane_count(bits) as int;
    Seq::new(
        lane_count(bits) * width,
        |i: int|
            ((row_sum(vals, lanes, width, i % lanes, bits) / pow2((bits * (i / lanes)) as nat))
                % pow2(bits)) as u64,
    )
}

/// Words whose lanes hold the rows are the packed words.
proof fn lemma_packed_words(vals: Seq<u64>, words: Seq<u64>, bits: nat, width: nat)
    requires
        shape_ok(bits, width),
        packed_ok(words, bits, width),
        forall|l: int|
            0 <= l < lane_count(bits) ==> #[trigger] lane_stream(words, bits, width, l, 0)
                == row_sum(vals, lane_count(bits) as int, width, l, bits),
    ensures
        words == packed_words(vals, bits, width),
{
    let n = lane_count(bits) as int;
    let want = packed_words(vals, bits, width);
    lemma_pow2_pos(bits);
    assert forall|i: int| 0 <= i < words.len() implies words[i] == want[i] by {
        let (l, j) = (i % n, i / n);
        lemma_fundamental_div_mod(i, n);
        assert(n * j == j * n) by (nonlinear_arith);
        assert(0 <= j < width) by (nonlinear_arith)
            requires
                0 <= i < n * width,
                i == n * j + l,
                0 <= l < n,
        ;
        lemma_stream_div(words, bits, width, l, j as nat);
        assert(lane_stream(words, bits, width, l, 0) == row_sum(vals, n, width, l, bits));
        let t = lane_stream(words, bits, width, l, j as nat + 1) as int;
        let p = pow2(bits) as int;
        lemma_fundamental_div_mod_converse(words[i] as int + p * t, p, t, words[i] as int);
    }
    assert(words =~= want);
}

/// The stream of a lane of packed words is what its rows add up to.
proof fn lemma_packed_stream(vals: Seq<u64>, bits: nat, width: nat, l: int, j: nat)
    requires
        shape_ok(bits, width),
        0 <= l < lane_count(bits),
        j <= width,
    ensures
        lane_stream(packed_words(vals, bits, width), bits, width, l, j) == row_sum(
            vals,
            lane_count(bits) as int,
            width,
            l,
            bits,
        ) / pow2(bits * j),
    decreases width - j,
{
    let n = lane_count(bits) as int;
    let r = row_sum(vals, n, width, l, bits) as int;
    lemma_pow2_pos(bits * j);
    lemma_pow2_pos(bits);
    if j == width {
        lemma_row_sum_bound(vals, n, width, l, bits);
        vstd::arithmetic::div_mod::lemma_basic_div(r, pow2(bits * width) as int);
    } else {
        lemma_packed_stream(vals, bits, width, l, j + 1);
        lemma_index(bits, width, j as int, l);
        let i = j * n + l;
        lemma_fundamental_div_mod_converse(i, n, j as int, l);
        assert(n * j == j * n) by (nonlinear_arith);
        let (p, q) = (pow2(bits * j) as int, pow2(bits) as int);
        let x = r / p;
        assert(bits * (j + 1) == bits * j + bits) by (nonlinear_arith);
        lemma_pow2_adds(bits * j, bits);
        lemma_div_denominator(r, p, q);
        lemma_fundamental_div_mod(x, q);
        lemma_mod_bound(x, q);
        lemma2_to64();
        lemma2_to64_rest();
        assert(packed_words(vals, bits, width)[i] == x % q);
    }
}

/// Unpacking undoes packing: every value that fits the width comes back.
pub proof fn lemma_unpack_undoes_pack(vals: Seq<u64>, bits: nat, width: nat, i: int)
    requires
        bits == 32 || bits == 64,
        width <= bits,
        0 <= i < BLOCK,
        vals[i] < pow2(width),
    ensures
        packed_value(packed_words(vals, bits, width), bits, width, i) == vals[i],
{
    let n = lane_count(bits) as int;
    let (l, row) = (i % n, i / n);
    lemma_fundamental_div_mod(i, n);
    assert(0 <= row < bits);
    lemma_packed_stream(vals, bits, width, l, 0);
    lemma2_to64();
    assert(bits * 0 == 0);
    let r = row_sum(vals, n, width, l, bits);
    lemma_div_basics(r as int);
    lemma_row_sum_at(vals, n, width, l, bits, row as nat);
    assert(row * n + l == i) by (nonlinear_arith)
        requires
            i == n * row + l,
    ;
    lemma_small_mod(vals[i] as nat, pow2(width));
}

proof fn lemma_row_sum_bound(vals: Seq<u64>, lanes: int, width: nat, l: int, r: nat)
    ensures
        row_sum(vals, lanes, width, l, r) < pow2(r * width),
    decreases r,
{
    lemma2_to64();
    if r == 0 {
        assert(r * width == 0) by (nonlinear_arith)
            requires
                r == 0,
        ;
    } else {
        let k = (r - 1) as nat;
        lemma_row_sum_bound(vals, lanes, width, l, k);
        assert(r * width == k * width + width) by (nonlinear_arith)
            requires
                r == k + 1,
        ;
        lemma_pow2_adds(k * width, width);
        lemma_pow2_pos(width);
        let (a, p, w) = (
            vals[k * lanes + l] as nat % pow2(width),
            pow2(k * width) as int,
            pow2(width) as int,
        );
        assert(a * p + p <= w * p) by (nonlinear_arith)
            requires
                a + 1 <= w,
                p >= 0,
        ;
        assert(p * w == w * p) by (nonlinear_arith);
    }
}

/// Each row is found again in the sum.
pub proof fn lemma_row_sum_at(vals: Seq<u64>, lanes: int, width: nat, l: int, rows: nat, r: nat)
    requires
        r < rows,
    ensures
        (row_sum(vals, lanes, width, l, rows) / pow2(r * width)) % pow2(width)
            == vals[r * lanes + l] as nat % pow2(width),
    decreases rows,
{
    let k = (rows - 1) as nat;
    let p = pow2(r * width) as int;
    let w = pow2(width) as int;
    lemma_pow2_pos(r * width);
    lemma_pow2_pos(width);
    let a = vals[k * lanes + l] as nat % pow2(width);
    let x = row_sum(vals, lanes, width, l, k) as int;
    if k == r {
        lemma_row_sum_bound(vals, lanes, width, l, k);
        lemma_fundamental_div_mod_converse(x + a * p, p, a as int, x);
        lemma_small_mod(a, pow2(width));
    } else {
        lemma_row_sum_at(vals, lanes, width, l, k, r);
        let m = (k - r - 1) as nat;
        assert(k * width == r * width + width + m * width) by (nonlinear_arith)
            requires
                k == r + 1 + m,
        ;
        lemma_pow2_adds(r * width + width, m * width);
        lemma_pow2_adds(r * width, width);
        let q = pow2(m * width) as int;
        let c = a * q;
        assert(a * ((p * w) * q) == p * (c * w)) by (nonlinear_arith)
            requires
                c == a * q,
        ;
        lemma_hoist_over_denominator(x, c * w, pow2(r * width));
        lemma_mod_multiples_vanish(c, x / p, w);
        assert(c * w == w * c) by (nonlinear_arith);
        assert(x + p * (c * w) == x + (c * w) * p) by (nonlinear_arith);
    }
}

/// Pack a block of values into `bits`-bit words.
pub fn pack_words(vals: &[u64], bits: u32, width: u32) -> (words: Vec<u64>)
    requires
        vals.len() == BLOCK,
        bits == 32 || bits == 64,
        width <= bits,
    ensures
        words@ == packed_words(vals@, bits as nat, width as nat),
        packed_ok(words@, bits as nat, width as nat),
        forall|i: int|
            0 <= i < BLOCK ==> #[trigger] packed_value(words@, bits as nat, width as nat, i)
                == vals@[i] as nat % pow2(width as nat),
{
    let lanes: usize = if bits == 32 {
        32
    } else {
        16
    };
    let rows: usize = bits as usize;
    let ghost (b, w) = (bits as nat, width as nat);
    assert(lanes * width <= 2048) by (nonlinear_arith)
        requires
            lanes <= 32,
            width <= 64,
    ;
    let mut words: Vec<u64> = vec![0; lanes * width as usize];
    proof {
        lemma2_to64();
        lemma2_to64_rest();
        assert forall|l: int| 0 <= l < lanes implies #[trigger] lane_stream(words@, b, w, l, 0)
            == 0 by {
            lemma_stream_zero(words@, b, w, l, 0);
        }
        lemma_pow2_pos(b);
    }
    if width == 0 {
        proof {
            assert forall|i: int| 0 <= i < BLOCK implies #[trigger] packed_value(words@, b, w, i)
                == vals@[i] as nat % pow2(w) by {
                assert(vals@[i] as nat % 1 == 0);
                let y = (lane_stream(words@, b, w, i % (lanes as int), 0) / pow2(
                    ((i / lanes as int) * w) as nat,
                ));
                assert(y % 1 == 0);
            }
            assert(words@ =~= packed_words(vals@, b, w));
        }
        return words;
    }
    let mut l: usize = 0;
    while l < lanes
        invariant
            l <= lanes,
            vals.len() == BLOCK,
            bits == 32 || bits == 64,
            lanes == lane_count(b),
            rows == bits,
            0 < width <= bits,
            b == bits,
            w == width,
            packed_ok(words@, b, w),
            forall|k: int|
                0 <= k < l ==> #[trigger] lane_stream(words@, b, w, k, 0) == row_sum(
                    vals@,
                    lanes as int,
                    w,
                    k,
                    rows as nat,
                ),
            forall|k: int| l <= k < lanes ==> #[trigger] lane_stream(words@, b, w, k, 0) == 0,
        decreases lanes - l,
    {
        let mut r: usize = 0;
        let ghost before = words@;
        while r < rows
            invariant
                r <= rows,
                l < lanes,
                vals.len() == BLOCK,
                bits == 32 || bits == 64,
                lanes == lane_count(b),
                rows == bits,
                0 < width <= bits,
                b == bits,
                w == width,
                packed_ok(words@, b, w),
                lane_stream(words@, b, w, l as int, 0) == row_sum(
                    vals@,
                    lanes as int,
                    w,
                    l as int,
                    r as nat,
                ),
                forall|k: int|
                    0 <= k < lanes && k != l ==> #[trigger] lane_stream(words@, b, w, k, 0)
                        == lane_stream(before, b, w, k, 0),
            decreases rows - r,
        {
            assert(r * lanes + l < 1024) by (nonlinear_arith)
                requires
                    r <= rows - 1,
                    l < lanes,
                    rows * lanes == 1024,
            ;
            put_value(&mut words, bits, width, l, r, vals[r * lanes + l], Ghost(vals@));
            r = r + 1;
        }
        l = l + 1;
        proof {
            assert forall|k: int| 0 <= k < l implies #[trigger] lane_stream(words@, b, w, k, 0)
                == row_sum(vals@, lanes as int, w, k, rows as nat) by {
                if k < l - 1 {
                    assert(lane_stream(before, b, w, k, 0) == row_sum(
                        vals@,
                        lanes as int,
                        w,
                        k,
                        rows as nat,
                    ));
                }
            }
            assert forall|k: int| l <= k < lanes implies #[trigger] lane_stream(
                words@,
                b,
                w,
                k,
                0,
            ) == 0 by {
                assert(lane_stream(before, b, w, k, 0) == 0);
            }
        }
    }
    proof {
        lemma_packed_words(vals@, words@, b, w);
        assert forall|i: int| 0 <= i < BLOCK implies #[trigger] packed_value(words@, b, w, i)
            == vals@[i] as nat % pow2(w) by {
            let n = lanes as int;
            let (lane, row) = (i % n, i / n);
            lemma_fundamental_div_mod(i, n);
            assert(0 <= row < rows);
            lemma_row_sum_at(vals@, n, w, lane, rows as nat, row as nat);
            assert(lane_stream(words@, b, w, lane, 0) == row_sum(vals@, n, w, lane, rows as nat));
            assert(row * n + lane == i) by (nonlinear_arith)
                requires
                    i == n * row + lane,
            ;
        }
    }
    words
}

proof fn lemma_stream_zero(words: Seq<u64>, bits: nat, width: nat, l: int, j: nat)
    requires
        shape_ok(bits, width),
        words.len() == lane_count(bits) * width,
        0 <= l < lane_count(bits),
        j <= width,
        forall|i: int| 0 <= i < words.len() ==> #[trigger] words[i] == 0,
    ensures
        lane_stream(words, bits, width, l, j) == 0,
    decreases width - j,
{
    if j < width {
        lemma_index(bits, width, j as int, l);
        lemma_stream_zero(words, bits, width, l, j + 1);
        assert(pow2(bits) * 0 == 0);
    }
}

/// The words that the next value of a lane goes to are still free for it.
proof fn lemma_room(words: Seq<u64>, bits: nat, width: nat, l: int, pos: nat)
    requires
        shape_ok(bits, width),
        packed_ok(words, bits, width),
        0 <= l < lane_count(bits),
        pos < bits * width,
        lane_stream(words, bits, width, l, 0) < pow2(pos),
    ensures
        ({
            let word = pos / bits;
            let shift = pos % bits;
            &&& word < width
            &&& pos == bits * word + shift
            &&& words[word * lane_count(bits) + l] < pow2(shift)
            &&& word + 1 < width ==> words[(word + 1) * lane_count(bits) + l] == 0
        }),
{
    let word = pos / bits;
    let shift = pos % bits;
    lemma_fundamental_div_mod(pos as int, bits as int);
    assert(word < width) by (nonlinear_arith)
        requires
            pos == bits * word + shift,
            0 <= shift,
            pos < bits * width,
            bits > 0,
    ;
    lemma_stream_div(words, bits, width, l, word);
    lemma_pow2_adds(bits * word, shift);
    lemma_pow2_pos(bits * word);
    let s = lane_stream(words, bits, width, l, 0) as int;
    let p = pow2(bits * word) as int;
    let t = lane_stream(words, bits, width, l, word) as int;
    lemma_fundamental_div_mod(s, p);
    lemma_mod_bound(s, p);
    assert(t < pow2(shift)) by (nonlinear_arith)
        requires
            s == p * t + s % p,
            0 <= s % p,
            s < p * pow2(shift),
            p > 0,
    ;
    lemma_pow2_strictly_increases(shift, bits);
    let rest = lane_stream(words, bits, width, l, word + 1) as int;
    assert(rest == 0) by (nonlinear_arith)
        requires
            t == words[word * lane_count(bits) + l] + pow2(bits) * rest,
            t < pow2(bits),
            rest >= 0,
            words[word * lane_count(bits) + l] >= 0,
    ;
    assert(pow2(bits) * rest >= 0) by (nonlinear_arith)
        requires
            rest >= 0,
    ;
    if word + 1 < width {
        let more = lane_stream(words, bits, width, l, word + 2) as int;
        assert(pow2(bits) * more >= 0) by (nonlinear_arith)
            requires
                more >= 0,
        ;
    }
}

/// Add `delta` to word `word` of lane `l`.
fn add_to_word(words: &mut Vec<u64>, bits: u32, width: u32, l: usize, word: usize, delta: u64)
    requires
        bits == 32 || bits == 64,
        width <= bits,
        l < lane_count(bits as nat),
        word < width,
        packed_ok(old(words)@, bits as nat, width as nat),
        old(words)@[word * lane_count(bits as nat) + l] + delta < pow2(bits as nat),
    ensures
        packed_ok(final(words)@, bits as nat, width as nat),
        final(words)@ == old(words)@.update(
            word * lane_count(bits as nat) + l,
            (old(words)@[word * lane_count(bits as nat) + l] + delta) as u64,
        ),
        forall|k: int|
            0 <= k < lane_count(bits as nat) ==> #[trigger] lane_stream(
                final(words)@,
                bits as nat,
                width as nat,
                k,
                0,
            ) == lane_stream(old(words)@, bits as nat, width as nat, k, 0) + (if k == l {
                delta * pow2(bits as nat * word as nat)
            } else {
                0
            }),
{
    let lanes: usize = if bits == 32 {
        32
    } else {
        16
    };
    let ghost (b, w) = (bits as nat, width as nat);
    proof {
        lemma2_to64();
        lemma_index(b, w, word as int, l as int);
    }
    let at: usize = word * lanes + l;
    let old_word: u64 = words[at];
    let ghost before = words@;
    let new_word: u64 = old_word + delta;
    words[at] = new_word;
    proof {
        assert forall|k: int| 0 <= k < lanes implies #[trigger] lane_stream(words@, b, w, k, 0)
            == lane_stream(before, b, w, k, 0) + (if k == l {
            delta * pow2(b * word as nat)
        } else {
            0
        }) by {
            lemma_stream_update(before, b, w, word as nat, l as int, new_word, k, 0);
            assert(b * (word - 0) == b * word as nat);
        }
    }
}

/// Put the value of row `r` into lane `l`, on top of the rows below it.
fn put_value(
    words: &mut Vec<u64>,
    bits: u32,
    width: u32,
    l: usize,
    r: usize,
    value: u64,
    Ghost(vals): Ghost<Seq<u64>>,
)
    requires
        bits == 32 || bits == 64,
        0 < width <= bits,
        l < lane_count(bits as nat),
        r < bits,
        packed_ok(old(words)@, bits as nat, width as nat),
        value == vals[r * lane_count(bits as nat) + l],
        lane_stream(old(words)@, bits as nat, width as nat, l as int, 0) == row_sum(
            vals,
            lane_count(bits as nat) as int,
            width as nat,
            l as int,
            r as nat,
        ),
    ensures
        packed_ok(final(words)@, bits as nat, width as nat),
        lane_stream(final(words)@, bits as nat, width as nat, l as int, 0) == row_sum(
            vals,
            lane_count(bits as nat) as int,
            width as nat,
            l as int,
            r as nat + 1,
        ),
        forall|k: int|
            0 <= k < lane_count(bits as nat) && k != l ==> #[trigger] lane_stream(
                final(words)@,
                bits as nat,
                width as nat,
                k,
                0,
            ) == lane_stream(old(words)@, bits as nat, width as nat, k, 0),
{
    let ghost lanes = lane_count(bits as nat) as int;
    let ghost (b, w) = (bits as nat, width as nat);
    let ghost w0 = words@;
    assert(r * width <= 64 * 64) by (nonlinear_arith)
        requires
            r < 64,
            width <= 64,
    ;
    let pos: usize = r * width as usize;
    let word: usize = pos / bits as usize;
    let shift: u32 = (pos % bits as usize) as u32;
    let v: u64 = if width == 64 {
        value
    } else {
        value % two_to(width)
    };
    proof {
        lemma2_to64();
        lemma_pow2_pos(w);
        lemma_row_sum_bound(vals, lanes, w, l as int, r as nat);
        assert(pos as nat == r as nat * w);
        assert(pos < b * w) by (nonlinear_arith)
            requires
                pos == r * w,
                r < b,
                w > 0,
        ;
        lemma_room(w0, b, w, l as int, pos as nat);
        assert(v == value as nat % pow2(w)) by {
            if width == 64 {
                lemma_small_mod(value as nat, pow2(64));
            }
        }
        lemma_pow2_adds(b * word as nat, shift as nat);
        assert(pow2(pos as nat) == pow2(b * word as nat) * pow2(shift as nat));
    }
    let scale: u64 = two_to(shift);
    let ghost p = pow2(b * word as nat) as int;
    if shift + width <= bits {
        proof {
            lemma_shifted_fits(v as nat, w, shift as nat, b);
        }
        add_to_word(words, bits, width, l, word, v * scale);
        proof {
            let (vv, sc) = (v as int, scale as int);
            assert((vv * sc) * p == vv * (p * sc)) by (nonlinear_arith);
        }
    } else {
        let split: u64 = two_to(bits - shift);
        let low: u64 = v % split;
        let high: u64 = v / split;
        proof {
            lemma_fundamental_div_mod(v as int, split as int);
            lemma_mod_bound(v as int, split as int);
            lemma_room_next(b, w, pos as nat, shift as nat, r as nat);
            lemma_shifted_fits(low as nat, (bits - shift) as nat, shift as nat, b);
            lemma_high_fits(v as nat, split as nat, w, b);
        }
        add_to_word(words, bits, width, l, word, low * scale);
        proof {
            lemma_index(b, w, word as int, l as int);
            lemma_index(b, w, word + 1, l as int);
            assert((word + 1) * lanes + l != word * lanes + l) by (nonlinear_arith)
                requires
                    lanes > 0,
            ;
        }
        add_to_word(words, bits, width, l, word + 1, high);
        proof {
            assert(b * (word as nat + 1) == b * word as nat + b) by (nonlinear_arith);
            lemma_pow2_adds(b * word as nat, b);
            lemma_pow2_adds(shift as nat, (bits - shift) as nat);
            let (vv, sc, sp, lo, hi) = (
                v as int,
                scale as int,
                split as int,
                low as int,
                high as int,
            );
            assert((lo * sc) * p + hi * (p * (sc * sp)) == vv * (p * sc)) by (nonlinear_arith)
                requires
                    vv == sp * hi + lo,
            ;
        }
    }
}

/// A value of `w` bits moved up by `shift` fits `b` bits above a word below
/// `2^shift`.
proof fn lemma_shifted_fits(v: nat, w: nat, shift: nat, b: nat)
    requires
        v < pow2(w),
        shift + w <= b,
        b <= 64,
    ensures
        v * pow2(shift) + pow2(shift) <= pow2(b),
        pow2(b) <= 0x1_0000_0000_0000_0000,
{
    lemma2_to64();
    lemma_pow2_adds(shift, w);
    bitio::lemma_pow2_mono(shift + w, b);
    bitio::lemma_pow2_mono(b, 64);
    let (sc, pw) = (pow2(shift) as int, pow2(w) as int);
    assert(v * sc + sc <= sc * pw) by (nonlinear_arith)
        requires
            v + 1 <= pw,
            sc >= 0,
    ;
}

proof fn lemma_high_fits(v: nat, split: nat, w: nat, b: nat)
    requires
        v < pow2(w),
        w <= b,
        split > 0,
    ensures
        v / split < pow2(b),
{
    bitio::lemma_pow2_mono(w, b);
    lemma_div_is_ordered_by_denominator(v as int, 1, split as int);
    assert(v / 1 == v);
}

/// A value that straddles a word boundary leaves room for the next word.
proof fn lemma_room_next(bits: nat, width: nat, pos: nat, shift: nat, r: nat)
    requires
        shape_ok(bits, width),
        shift == pos % bits,
        shift + width > bits,
        r < bits,
        pos == r * width,
    ensures
        pos / bits + 1 < width,
{
    let word = pos / bits;
    lemma_fundamental_div_mod(pos as int, bits as int);
    assert(word + 1 < width) by (nonlinear_arith)
        requires
            pos == bits * word + shift,
            pos == r * width,
            r + 1 <= bits,
            shift + width > bits,
            bits > 0,
    ;
}

/// The low bits of the stream above a word boundary depend on two words only.
proof fn lemma_two_words(lo: nat, hi: nat, rest: nat, b: nat, shift: nat, w: nat)
    requires
        lo < pow2(b),
        hi < pow2(b),
        shift < b,
        w <= b,
    ensures
        ({
            let s = lo + pow2(b) * (hi + pow2(b) * rest);
            let v = (s / pow2(shift)) % pow2(w);
            if shift + w <= b {
                v == (lo / pow2(shift)) % pow2(w)
            } else {
                v == lo / pow2(shift) + (hi % pow2((shift + w - b) as nat)) * pow2(
                    (b - shift) as nat,
                )
            }
        }),
{
    let p = pow2(shift) as int;
    let q = pow2((b - shift) as nat) as int;
    let pw = pow2(w) as int;
    lemma_pow2_pos(shift);
    lemma_pow2_pos((b - shift) as nat);
    lemma_pow2_pos(w);
    lemma_pow2_adds(shift, (b - shift) as nat);
    let t = (hi + pow2(b) * rest) as int;
    let s = lo + pow2(b) * t;
    let a = lo as int / p;
    lemma_fundamental_div_mod(lo as int, p);
    lemma_mod_bound(lo as int, p);
    assert(s == p * (a + q * t) + lo as int % p) by (nonlinear_arith)
        requires
            s == lo + (p * q) * t,
            lo == p * a + lo as int % p,
    ;
    lemma_fundamental_div_mod_converse(s, p, a + q * t, lo as int % p);
    if shift + w <= b {
        let m = (b - shift - w) as nat;
        lemma_pow2_adds(w, m);
        let c = pow2(m) as int * t;
        assert(q * t == pw * c) by (nonlinear_arith)
            requires
                q == pw * pow2(m),
                c == pow2(m) * t,
        ;
        lemma_mod_multiples_vanish(c, a, pw);
    } else {
        let m = (shift + w - b) as nat;
        let pm = pow2(m) as int;
        lemma_pow2_adds((b - shift) as nat, m);
        lemma_pow2_pos(m);
        let e = (b - m) as nat;
        lemma_pow2_adds(m, e);
        let low = hi as int % pm;
        let h = hi as int / pm;
        lemma_fundamental_div_mod(hi as int, pm);
        lemma_mod_bound(hi as int, pm);
        let c = h + pow2(e) * rest;
        assert(t == low + pm * c) by (nonlinear_arith)
            requires
                t == hi + (pm * pow2(e)) * rest,
                hi == pm * h + low,
                c == h + pow2(e) * rest,
        ;
        assert(a + q * t == (a + q * low) + pw * c) by (nonlinear_arith)
            requires
                t == low + pm * c,
                pw == q * pm,
        ;
        assert(a < q) by (nonlinear_arith)
            requires
                lo == p * a + lo as int % p,
                lo < p * q,
                0 <= lo as int % p,
                p > 0,
        ;
        assert(0 <= a + q * low < pw) by (nonlinear_arith)
            requires
                0 <= a < q,
                0 <= low <= pm - 1,
                pw == q * pm,
        ;
        lemma_fundamental_div_mod_converse(a + q * t, pw, c, a + q * low);
        assert(q * low == low * q) by (nonlinear_arith);
    }
}

/// The value at position `i` of a packed block.
#[verifier::rlimit(30)]
fn get_value(words: &[u64], bits: u32, width: u32, i: usize) -> (v: u64)
    requires
        bits == 32 || bits == 64,
        0 < width <= bits,
        i < BLOCK,
        packed_ok(words@, bits as nat, width as nat),
    ensures
        v == packed_value(words@, bits as nat, width as nat, i as int),
        v < pow2(width as nat),
{
    let lanes: usize = if bits == 32 {
        32
    } else {
        16
    };
    let ghost (b, w) = (bits as nat, width as nat);
    let r: usize = i / lanes;
    let l: usize = i % lanes;
    assert(r * width <= 64 * 64) by (nonlinear_arith)
        requires
            r < 64,
            width <= 64,
    ;
    let pos: usize = r * width as usize;
    let word: usize = pos / bits as usize;
    let shift: u32 = (pos % bits as usize) as u32;
    let ghost pw = pow2(w) as int;
    proof {
        lemma2_to64();
        assert(pos as nat == r as nat * w);
        lemma_fundamental_div_mod(pos as int, b as int);
        assert(pos < b * w) by (nonlinear_arith)
            requires
                pos == r * w,
                r < b,
                w > 0,
        ;
        assert(word < width) by (nonlinear_arith)
            requires
                pos == b * word + shift,
                0 <= shift,
                pos < b * w,
                w == width,
                b > 0,
        ;
        lemma_index(b, w, word as int, l as int);
        lemma_stream_div(words@, b, w, l as int, word as nat);
        lemma_pow2_adds(b * word as nat, shift as nat);
        lemma_pow2_pos(b * word as nat);
        lemma_pow2_pos(shift as nat);
        lemma_pow2_pos(w);
        lemma_div_denominator(
            lane_stream(words@, b, w, l as int, 0) as int,
            pow2(b * word as nat) as int,
            pow2(shift as nat) as int,
        );
    }
    let ghost rest = lane_stream(words@, b, w, l as int, word as nat + 2);
    let lo: u64 = words[word * lanes + l];
    let scale: u64 = two_to(shift);
    if shift + width <= bits {
        proof {
            let after = lane_stream(words@, b, w, l as int, word as nat + 1);
            lemma_words_split(after, b);
            lemma_two_words(
                lo as nat,
                after % pow2(b),
                after / pow2(b),
                b,
                shift as nat,
                w,
            );
            lemma_mod_bound((lo as nat / pow2(shift as nat)) as int, pw);
            if width == 64 {
                lemma_small_mod((lo / scale) as nat, pow2(64));
            }
        }
        let part: u64 = lo / scale;
        if width == 64 {
            part
        } else {
            part % two_to(width)
        }
    } else {
        proof {
            lemma_room_next(b, w, pos as nat, shift as nat, r as nat);
            lemma_index(b, w, word + 1, l as int);
        }
        let hi: u64 = words[(word + 1) * lanes + l];
        let keep: u64 = two_to(shift + width - bits);
        let up: u64 = two_to(bits - shift);
        let low: u64 = hi % keep;
        let part: u64 = lo / scale;
        proof {
            lemma_two_words(lo as nat, hi as nat, rest, b, shift as nat, w);
            lemma_mod_bound(
                (lane_stream(words@, b, w, l as int, word as nat) / pow2(shift as nat)) as int,
                pw,
            );
            bitio::lemma_pow2_mono(w, 64);
            assert(low * up >= 0) by (nonlinear_arith);
        }
        part + low * up
    }
}

proof fn lemma_words_split(x: nat, b: nat)
    ensures
        pow2(b) > 0,
        x == x % pow2(b) + pow2(b) * (x / pow2(b)),
        x % pow2(b) < pow2(b),
{
    lemma_pow2_pos(b);
    lemma_fundamental_div_mod(x as int, pow2(b) as int);
    lemma_mod_bound(x as int, pow2(b) as int);
}

/// Inverse of [`pack_words`].
pub fn unpack_words(words: &[u64], bits: u32, width: u32) -> (vals: Vec<u64>)
    requires
        bits == 32 || bits == 64,
        width <= bits,
        packed_ok(words@, bits as nat, width as nat),
    ensures
        vals.len() == BLOCK,
        forall|i: int|
            0 <= i < BLOCK ==> #[trigger] vals@[i] == packed_value(
                words@,
                bits as nat,
                width as nat,
                i,
            ),
        forall|i: int| 0 <= i < BLOCK ==> #[trigger] vals@[i] < pow2(width as nat),
{
    let mut vals: Vec<u64> = Vec::new();
    let mut i: usize = 0;
    proof {
        lemma2_to64();
    }
    while i < BLOCK
        invariant
            i <= BLOCK,
            bits == 32 || bits == 64,
            width <= bits,
            packed_ok(words@, bits as nat, width as nat),
            pow2(0) == 1,
            vals.len() == i,
            forall|k: int|
                0 <= k < i ==> #[trigger] vals@[k] == packed_value(
                    words@,
                    bits as nat,
                    width as nat,
                    k,
                ),
            forall|k: int| 0 <= k < i ==> #[trigger] vals@[k] < pow2(width as nat),
        decreases BLOCK - i,
    {
        let v: u64 = if width == 0 {
            proof {
                let lanes = lane_count(bits as nat) as int;
                let y = lane_stream(words@, bits as nat, 0, i as int % lanes, 0) / pow2(
                    ((i as int / lanes) * 0) as nat,
                );
                assert(y % 1 == 0);
            }
            0
        } else {
            get_value(words, bits, width, i)
        };
        vals.push(v);
        i = i + 1;
    }
    vals
}

/// 32-bit words held in 64-bit ones.
pub open spec fn widened(s: Seq<u32>) -> Seq<u64> {
    Seq::new(s.len(), |i: int| s[i] as u64)
}

fn widen(s: &[u32]) -> (v: Vec<u64>)
    ensures
        v@ == widened(s@),
{
    let mut v: Vec<u64> = Vec::new();
    let mut i: usize = 0;
    while i < s.len()
        invariant
            i <= s.len(),
            v@ == widened(s@).take(i as int),
        decreases s.len() - i,
    {
        v.push(s[i] as u64);
        i = i + 1;
        assert(v@ =~= widened(s@).take(i as int));
    }
    assert(v@ =~= widened(s@));
    v
}

/// Pack a block of 32-bit values into `out` (`32 * width` words).
pub fn pack(values: &[u32; 1024], width: u32, out: &mut [u32])
    requires
        width <= 32,
        old(out)@.len() == 32 * width,
    ensures
        final(out)@.len() == 32 * width,
        widened(final(out)@) == packed_words(widened(values@), 32, width as nat),
        packed_ok(widened(final(out)@), 32, width as nat),
        forall|i: int|
            0 <= i < BLOCK ==> #[trigger] packed_value(
                widened(final(out)@),
                32,
                width as nat,
                i,
            ) == values@[i] as nat % pow2(width as nat),
{
    let vals = widen(values.as_slice());
    let words = pack_words(&vals, 32, width);
    let mut i: usize = 0;
    proof {
        lemma2_to64();
    }
    while i < words.len()
        invariant
            i <= words.len(),
            words.len() == 32 * width,
            out@.len() == words.len(),
            packed_ok(words@, 32, width as nat),
            pow2(32) == 0x1_0000_0000,
            forall|k: int| 0 <= k < i ==> #[trigger] out@[k] as u64 == words@[k],
        decreases words.len() - i,
    {
        out[i] = words[i] as u32;
        i = i + 1;
    }
    proof {
        assert(widened(out@) =~= words@);
        assert forall|i: int| 0 <= i < BLOCK implies #[trigger] packed_value(
            widened(out@),
            32,
            width as nat,
            i,
        ) == values@[i] as nat % pow2(width as nat) by {
            assert(packed_value(words@, 32, width as nat, i) == vals@[i] as nat % pow2(
                width as nat,
            ));
        }
    }
}

/// Inverse of [`pack`].
pub fn unpack(packed: &[u32], width: u32, out: &mut [u32; 1024])
    requires
        width <= 32,
        packed.len() == 32 * width,
    ensures
        forall|i: int|
            0 <= i < BLOCK ==> #[trigger] final(out)@[i] == packed_value(
                widened(packed@),
                32,
                width as nat,
                i,
            ),
{
    let words = widen(packed);
    proof {
        lemma2_to64();
        bitio::lemma_pow2_mono(width as nat, 32);
    }
    let vals = unpack_words(&words, 32, width);
    let mut i: usize = 0;
    while i < BLOCK
        invariant
            i <= BLOCK,
            width <= 32,
            pow2(width as nat) <= 0x1_0000_0000,
            vals.len() == BLOCK,
            forall|k: int|
                0 <= k < BLOCK ==> #[trigger] vals@[k] == packed_value(
                    words@,
                    32,
                    width as nat,
                    k,
                ),
            forall|k: int| 0 <= k < BLOCK ==> #[trigger] vals@[k] < pow2(width as nat),
            forall|k: int|
                0 <= k < i ==> #[trigger] out@[k] == packed_value(words@, 32, width as nat, k),
        decreases BLOCK - i,
    {
        out[i] = vals[i] as u32;
        i = i + 1;
    }
}

/// Pack a block of 64-bit values into `out` (`16 * width` words).
pub fn pack64(values: &[u64; 1024], width: u32, out: &mut [u64])
    requires
        width <= 64,
        old(out)@.len() == 16 * width,
    ensures
        final(out)@ == packed_words(values@, 64, width as nat),
        packed_ok(final(out)@, 64, width as nat),
        forall|i: int|
            0 <= i < BLOCK ==> #[trigger] packed_value(final(out)@, 64, width as nat, i)
                == values@[i] as nat % pow2(width as nat),
{
    let words = pack_words(values.as_slice(), 64, width);
    let mut i: usize = 0;
    while i < words.len()
        invariant
            i <= words.len(),
            out@.len() == words.len(),
            forall|k: int| 0 <= k < i ==> #[trigger] out@[k] == words@[k],
        decreases words.len() - i,
    {
        out[i] = words[i];
        i = i + 1;
    }
    assert(out@ =~= words@);
}

/// Inverse of [`pack64`].
pub fn unpack64(packed: &[u64], width: u32, out: &mut [u64; 1024])
    requires
        width <= 64,
        packed.len() == 16 * width,
    ensures
        forall|i: int|
            0 <= i < BLOCK ==> #[trigger] final(out)@[i] == packed_value(
                packed@,
                64,
                width as nat,
                i,
            ),
{
    proof {
        lemma2_to64();
    }
    let vals = unpack_words(packed, 64, width);
    let mut i: usize = 0;
    while i < BLOCK
        invariant
            i <= BLOCK,
            vals.len() == BLOCK,
            forall|k: int|
                0 <= k < BLOCK ==> #[trigger] vals@[k] == packed_value(
                    packed@,
                    64,
                    width as nat,
                    k,
                ),
            forall|k: int|
                0 <= k < i ==> #[trigger] out@[k] == packed_value(packed@, 64, width as nat, k),
        decreases BLOCK - i,
    {
        out[i] = vals[i];
        i = i + 1;
    }
}

} // verus!
