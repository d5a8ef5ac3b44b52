//! Laws of the entropy stage.

use vstd::prelude::*;
use vstd::arithmetic::div_mod::*;
use crate::codecs::lz;
use crate::entropy;
use crate::entropy::{rans, rc};
use crate::laws::bitmaps;
use crate::varint;

verus! {

/// Without a decode bias the smaller of the two coders is taken: what is picked is one
/// byte longer than the shorter of them.
pub proof fn lemma_smaller_coder(bytes: Seq<u8>)
    requires
        bytes.len() > 0,
    ensures
        entropy::picked(bytes, 0).len() <= 1 + rc::rc_image(bytes).len(),
        entropy::picked(bytes, 0).len() <= 1 + rans::rans_image(bytes).len(),
        entropy::picked(bytes, 0) == seq![0u8] + rc::rc_image(bytes) || entropy::picked(bytes, 0)
            == seq![2u8] + rans::rans_image(bytes),
{
    reveal(entropy::picked);
}

/// A decode bias of one charges thirty 256ths of a byte for each byte that the range coder
/// decodes and three for each that rANS does; what is picked is the cheaper, and range
/// coding where both cost the same.
pub proof fn lemma_charged_coder(bytes: Seq<u8>)
    requires
        bytes.len() > 0,
    ensures
        ({
            let slow = rc::rc_image(bytes).len() + 30 * bytes.len() / 256;
            let fast = rans::rans_image(bytes).len() + 3 * bytes.len() / 256;
            entropy::picked(bytes, 1) == (if fast < slow {
                seq![2u8] + rans::rans_image(bytes)
            } else {
                seq![0u8] + rc::rc_image(bytes)
            })
        }),
{
    reveal(entropy::picked);
}

/// A decode bias of two or more leaves only rANS, and no bytes at all go to the range
/// coder.
pub proof fn lemma_fast_coder(bytes: Seq<u8>, lambda: u64)
    requires
        lambda >= 2,
    ensures
        bytes.len() > 0 ==> entropy::picked(bytes, lambda) == seq![2u8] + rans::rans_image(bytes),
        bytes.len() == 0 ==> entropy::picked(bytes, lambda) == seq![0u8] + rc::rc_image(bytes),
{
    reveal(entropy::picked);
}

/// A residual stream takes no more bytes than either coder makes of it, nor, where the
/// LZ stage is allowed and shortens it, than that stage makes of it. Without the LZ stage
/// no cascade is written, and short streams have none.
pub proof fn lemma_smallest_residuals(residuals: Seq<u8>, lambda: u64, allow_lz: bool)
    ensures
        ({
            let out = entropy::residuals_coded(residuals, lambda, allow_lz);
            let through = entropy::picked(lz::lz_image(residuals), lambda);
            &&& out.len() <= entropy::picked(residuals, lambda).len()
            &&& allow_lz && residuals.len() > 64 && lz::lz_image(residuals).len() < residuals.len()
                ==> out.len() <= 1 + bitmaps::septets(residuals.len()) + through.len()
            &&& !allow_lz || residuals.len() <= 64 ==> out == entropy::picked(residuals, lambda)
            &&& out != entropy::picked(residuals, lambda) ==> out[0] == 3
        }),
{
    bitmaps::lemma_septets(residuals.len());
}

/// What the LZ stage may save is never lost to it: allowing it makes no stream longer.
pub proof fn lemma_stage_never_hurts(residuals: Seq<u8>, lambda: u64)
    ensures
        entropy::residuals_coded(residuals, lambda, true).len() <= entropy::residuals_coded(
            residuals,
            lambda,
            false,
        ).len(),
{
}

// ---------------------------------------------------------------------------
// The range coder's model
// ---------------------------------------------------------------------------

/// A probability moves towards the bit that was seen, by a 32nd of what is left to go,
/// rounded down, and never reaches certainty.
pub proof fn lemma_adapts(p: u16)
    requires
        31 <= p <= 2017,
    ensures
        ({
            let (zero, one) = (rc::adapted(p, false), rc::adapted(p, true));
            &&& 32 * (zero - p) <= 2048 - p < 32 * (zero - p) + 32
            &&& 32 * (p - one) <= p < 32 * (p - one) + 32
            &&& 31 <= one <= p <= zero <= 2017
        }),
{
}

/// The interval is split in proportion to the probabilities: a zero bit gets `p` of 2048
/// parts of it, rounded down, and a one bit the rest.
pub proof fn lemma_interval_split(c: rc::Coder, p: u16)
    requires
        p <= 2048,
    ensures
        ({
            let (zero, one) = (rc::narrowed(c, p, false), rc::narrowed(c, p, true));
            &&& 2048 * zero.range <= c.range * p < 2048 * zero.range + 2048 * p + 1
            &&& zero.range + one.range == c.range
            &&& zero.low == c.low
            &&& one.low == c.low + zero.range
        }),
{
    let (q, r) = (c.range / 2048, c.range % 2048);
    assert(c.range * p == 2048 * (q * p) + r * p && r * p <= 2048 * p && q * p <= c.range) by (nonlinear_arith)
        requires
            c.range == 2048 * q + r,
            0 <= r < 2048,
            0 <= q,
            0 <= p <= 2048,
    ;
}

/// The interval is kept between 2^24 and 2^32 wide: a part below that is scaled by 256, and
/// a digit is settled.
pub proof fn lemma_interval_kept(c: rc::Coder, p: u16, bit: bool)
    requires
        16777216 <= c.range < 4294967296,
        31 <= p <= 2017,
    ensures
        ({
            let (part, d) = (rc::narrowed(c, p, bit), rc::coder_bit(c, p, bit));
            &&& 16777216 <= d.range < 4294967296
            &&& part.range < 16777216 ==> d.range == 256 * part.range && d.low == 256 * part.low
                && d.shifts == c.shifts + 1
            &&& part.range >= 16777216 ==> d.range == part.range && d.low == part.low && d.shifts
                == c.shifts
        }),
{
    let (q, r) = ((c.range / 2048) as int, (c.range % 2048) as int);
    assert(31 * q <= q * p <= 2017 * q && 8192 <= q < 2097152) by (nonlinear_arith)
        requires
            c.range == 2048 * q + r,
            0 <= r < 2048,
            16777216 <= c.range < 4294967296,
            31 <= p <= 2017,
    ;
}

/// Coding begins with even odds everywhere, and the form of bytes is the varint of their
/// number, a byte for each digit that was settled and five more.
pub proof fn lemma_even_odds(data: Seq<u8>, i: int)
    requires
        0 <= i < 65536,
    ensures
        rc::fresh_model().len() == 65536,
        rc::fresh_model()[i] == 1024,
        rc::coder_start().range == 0xFFFF_FFFF,
        rc::rc_image(data).len() == bitmaps::septets(data.len()) + rc::coder_bytes(
            rc::coder_start(),
            rc::fresh_model(),
            0,
            data,
        ).shifts + 5,
{
    bitmaps::lemma_septets(data.len());
    let c = rc::coder_bytes(rc::coder_start(), rc::fresh_model(), 0, data);
    lemma_digits_len(c.low, c.shifts + 5);
}

proof fn lemma_digits_len(v: nat, n: nat)
    ensures
        rc::be_bytes(v, n).len() == n,
    decreases n,
{
    if n > 0 {
        lemma_digits_len(v / 256, (n - 1) as nat);
    }
}

/// A model and another that agree in the 256 probabilities of each context in `seen`.
pub open spec fn agree_in(a: Seq<u16>, b: Seq<u16>, seen: Set<u8>) -> bool {
    &&& a.len() == 65536
    &&& b.len() == 65536
    &&& forall|ctx: u8, node: int|
        seen.contains(ctx) && 0 <= node < 256 ==> #[trigger] a[ctx * 256 + node] == b[ctx * 256
            + node]
}

/// One more than the largest tree node with `k` bits left.
spec fn nodes_at(k: nat) -> nat
    decreases 8 - k,
{
    if k >= 8 {
        2
    } else {
        2 * nodes_at(k + 1)
    }
}

/// Coding some bits of a byte in a context is settled by that context's probabilities, and
/// changes no others.
proof fn lemma_tree_local(
    c: rc::Coder,
    a: Seq<u16>,
    b: Seq<u16>,
    ctx: u8,
    seen: Set<u8>,
    node: nat,
    byte: u8,
    k: nat,
)
    requires
        agree_in(a, b, seen),
        seen.contains(ctx),
        k <= 8,
        node < nodes_at(k),
    ensures
        ({
            let (ca, ma) = rc::coder_tree(c, a, (ctx * 256) as nat, node, byte, k);
            let (cb, mb) = rc::coder_tree(c, b, (ctx * 256) as nat, node, byte, k);
            &&& ca == cb
            &&& agree_in(ma, mb, seen)
            &&& forall|i: int| 0 <= i < 65536 && i / 256 != ctx ==> #[trigger] ma[i] == a[i]
        }),
    decreases k,
{
    if k > 0 {
        assert(nodes_at(k) <= 256) by {
            reveal_with_fuel(nodes_at, 9);
            assert(nodes_at(8) == 2);
            assert(nodes_at(1) == 256);
        }
        assert(nodes_at((k - 1) as nat) == 2 * nodes_at(k));
        let at = ctx * 256 + node;
        assert(a[at] == b[at]);
        let bit = rc::bit_of(byte, k);
        let p = rc::adapted(a[at], bit);
        let (a2, b2) = (a.update(at, p), b.update(at, p));
        assert(agree_in(a2, b2, seen)) by {
            assert forall|x: u8, n: int| seen.contains(x) && 0 <= n < 256 implies #[trigger] a2[x
                * 256 + n] == b2[x * 256 + n] by {
                assert(a[x * 256 + n] == b[x * 256 + n]);
            }
        }
        lemma_tree_local(
            rc::coder_bit(c, a[at], bit),
            a2,
            b2,
            ctx,
            seen,
            2 * node + rc::bit_value(bit),
            byte,
            (k - 1) as nat,
        );
        assert(at / 256 == ctx);
    }
}

/// A byte is coded in the context of the byte before it: what is made of bytes is settled
/// by the probabilities of the contexts that they and `ctx` are, whatever the model holds
/// of others.
pub proof fn lemma_coded_in_context(
    c: rc::Coder,
    a: Seq<u16>,
    b: Seq<u16>,
    ctx: u8,
    data: Seq<u8>,
    seen: Set<u8>,
)
    requires
        agree_in(a, b, seen),
        seen.contains(ctx),
        forall|i: int| 0 <= i < data.len() - 1 ==> seen.contains(#[trigger] data[i]),
    ensures
        rc::coder_bytes(c, a, ctx, data) == rc::coder_bytes(c, b, ctx, data),
    decreases data.len(),
{
    if data.len() > 0 {
        assert(nodes_at(8) == 2);
        lemma_tree_local(c, a, b, ctx, seen, 1, data[0], 8);
        let (c2, a2) = rc::coder_tree(c, a, (ctx * 256) as nat, 1, data[0], 8);
        let (d2, b2) = rc::coder_tree(c, b, (ctx * 256) as nat, 1, data[0], 8);
        let tail = data.drop_first();
        if tail.len() > 0 {
            assert(seen.contains(data[0]));
            assert forall|i: int| 0 <= i < tail.len() - 1 implies seen.contains(
                #[trigger] tail[i],
            ) by {
                assert(tail[i] == data[i + 1]);
            }
            lemma_coded_in_context(c2, a2, b2, data[0], tail, seen);
        } else {
            assert(rc::coder_bytes(c2, a2, data[0], tail) == c2);
            assert(rc::coder_bytes(d2, b2, data[0], tail) == d2);
        }
    }
}

// ---------------------------------------------------------------------------
// The frequency table of rANS
// ---------------------------------------------------------------------------

/// What `count` of `total` is of 4096, rounded down, one for a count that comes to less.
pub open spec fn part_of(count: nat, total: nat) -> int {
    if count == 0 {
        0
    } else if 4096 * count < total {
        1
    } else {
        (4096 * count) as int / total as int
    }
}

/// The sum of the first `n` numbers.
pub open spec fn sum_of(s: Seq<int>, n: nat) -> int
    decreases n,
{
    if n == 0 {
        0
    } else {
        sum_of(s, (n - 1) as nat) + s[n - 1]
    }
}

/// A table as numbers.
pub open spec fn as_numbers(freq: Seq<u32>) -> Seq<int> {
    Seq::new(freq.len(), |i: int| freq[i] as int)
}

proof fn lemma_cumulative_is_sum(freq: Seq<u32>, n: nat)
    requires
        n <= freq.len(),
    ensures
        rans::cumulative(freq, n) == sum_of(as_numbers(freq), n),
    decreases n,
{
    if n > 0 {
        lemma_cumulative_is_sum(freq, (n - 1) as nat);
    }
}

proof fn lemma_top(freq: Seq<u32>, n: nat)
    requires
        0 < n <= freq.len(),
    ensures
        rans::top_of(freq, n) < n,
        forall|i: int| 0 <= i < n ==> #[trigger] freq[i] <= freq[rans::top_of(freq, n) as int],
    decreases n,
{
    if n > 1 {
        lemma_top(freq, (n - 1) as nat);
    }
}

/// What making a table sum to 4096 does to it.
proof fn lemma_balanced(freq: Seq<u32>, surplus: nat)
    requires
        freq.len() == 256,
        0 < rans::cumulative(freq, 256),
        surplus > 0 ==> rans::cumulative(freq, 256) == 4096 + surplus,
        surplus == 0 ==> rans::cumulative(freq, 256) <= 4096,
    ensures
        ({
            let r = rans::balanced(freq, surplus);
            let missing = 4096 - rans::cumulative(freq, 256);
            &&& r.len() == 256
            &&& rans::cumulative(r, 256) == 4096
            &&& forall|s: int| 0 <= s < 256 ==> (#[trigger] r[s] > 0 <==> freq[s] > 0)
            &&& missing == 0 ==> r == freq
            &&& missing < 0 ==> forall|s: int|
                0 <= s < 256 ==> #[trigger] r[s] <= freq[s]
            &&& missing < 0 ==> forall|s: int, u: int|
                0 <= s < 256 && 0 <= u < 256 && r[s] < freq[s] ==> #[trigger] r[u]
                    <= #[trigger] r[s] + 1
            &&& missing > 0 ==> exists|t: int|
                0 <= t < 256 && #[trigger] r[t] == freq[t] + missing && forall|s: int|
                    0 <= s < 256 && s != t ==> #[trigger] r[s] == freq[s] && freq[s] <= freq[t]
        }),
    decreases surplus,
{
    lemma_top(freq, 256);
    let top = rans::top_of(freq, 256) as int;
    rans::lemma_cumulative_max(freq, freq[top], 256);
    if surplus > 0 {
        assert(freq[top] > 16);
        let next = freq.update(top, (freq[top] - 1) as u32);
        rans::lemma_cumulative_update(freq, top, (freq[top] - 1) as u32, 256);
        lemma_balanced(next, (surplus - 1) as nat);
        let r = rans::balanced(freq, surplus);
        assert(r == rans::balanced(next, (surplus - 1) as nat));
        assert forall|s: int| 0 <= s < 256 implies (#[trigger] r[s] > 0 <==> freq[s] > 0) && r[s]
            <= freq[s] by {
            assert(r[s] > 0 <==> next[s] > 0);
        }
        assert forall|s: int, u: int|
            0 <= s < 256 && 0 <= u < 256 && r[s] < freq[s] implies #[trigger] r[u] <= #[trigger] r[s]
            + 1 by {
            assert(r[u] <= next[u] && next[u] <= freq[u] && freq[u] <= freq[top]);
            if s == top && r[s] == next[s] {
            }
        }
    } else if rans::cumulative(freq, 256) < 4096 {
        let more = (freq[top] + 4096 - rans::cumulative(freq, 256)) as u32;
        assert(freq[top] > 0);
        assert(freq[top] <= 4096) by {
            rans::lemma_cumulative_update(freq, top, 0, 256);
        }
        rans::lemma_cumulative_update(freq, top, more, 256);
        let r = rans::balanced(freq, surplus);
        assert(r == freq.update(top, more));
        assert(r[top] == freq[top] + (4096 - rans::cumulative(freq, 256)));
    }
}

proof fn lemma_occurrences(data: Seq<u8>, b: u8)
    ensures
        rans::occurrences(data, b) <= data.len(),
        rans::occurrences(data, b) > 0 <==> data.contains(b),
    decreases data.len(),
{
    if data.len() > 0 {
        let head = data.drop_last();
        lemma_occurrences(head, b);
        if data.contains(b) && data.last() != b {
            let i = choose|i: int| 0 <= i < data.len() && data[i] == b;
            assert(head[i] == b);
        }
        if head.contains(b) {
            let i = choose|i: int| 0 <= i < head.len() && head[i] == b;
            assert(data[i] == b);
        }
        if data.last() == b {
            assert(data[data.len() - 1] == b);
        }
    }
}

proof fn lemma_sum_positive(freq: Seq<u32>, n: nat, w: int)
    requires
        n <= freq.len(),
        0 <= w < n,
        freq[w] > 0,
    ensures
        rans::cumulative(freq, n) > 0,
    decreases n,
{
    if w < n - 1 {
        lemma_sum_positive(freq, (n - 1) as nat, w);
    }
}

/// The shares of the bytes of `data`.
pub open spec fn parts(data: Seq<u8>) -> Seq<int> {
    Seq::new(256, |s: int| part_of(rans::occurrences(data, s as u8), data.len()))
}

/// The frequency table follows the data: it adds up to 4096, a byte has a frequency
/// exactly if it occurs, and each frequency is the byte's share of 4096. Where the shares
/// come to less, one of the largest gets what is missing; where they come to more, only
/// the largest give up some, down to a common level.
pub proof fn lemma_table_follows_data(data: Seq<u8>)
    requires
        0 < data.len() <= u64::MAX,
    ensures
        ({
            let r = rans::normalized(rans::counts_of(data), data.len());
            let p = parts(data);
            let missing = 4096 - sum_of(p, 256);
            &&& r.len() == 256
            &&& sum_of(as_numbers(r), 256) == 4096
            &&& forall|s: int| 0 <= s < 256 ==> (#[trigger] r[s] > 0 <==> data.contains(s as u8))
            &&& missing == 0 ==> as_numbers(r) == p
            &&& missing < 0 ==> forall|s: int| 0 <= s < 256 ==> #[trigger] r[s] <= p[s]
            &&& missing < 0 ==> forall|s: int, u: int|
                0 <= s < 256 && 0 <= u < 256 && r[s] < p[s] ==> #[trigger] r[u] <= #[trigger] r[s]
                    + 1
            &&& missing > 0 ==> exists|t: int|
                0 <= t < 256 && #[trigger] r[t] == p[t] + missing && forall|s: int|
                    0 <= s < 256 && s != t ==> #[trigger] r[s] == p[s] && p[s] <= p[t]
        }),
{
    let counts = rans::counts_of(data);
    let n = data.len();
    let shares = Seq::new(256, |j: int| rans::share_of(counts[j] as nat, n) as u32);
    let p = parts(data);
    assert forall|s: int| 0 <= s < 256 implies #[trigger] shares[s] == p[s] && (shares[s] > 0
        <==> data.contains(s as u8)) by {
        let c = rans::occurrences(data, s as u8);
        lemma_occurrences(data, s as u8);
        assert(4096 * c >= n ==> 1 <= (4096 * c) as int / n as int <= 4096) by (nonlinear_arith)
            requires
                c <= n,
                n > 0,
        ;
        assert(c * 4096 == 4096 * c);
    }
    assert(as_numbers(shares) =~= p);
    lemma_cumulative_is_sum(shares, 256);
    assert(data.contains(data[0]));
    lemma_sum_positive(shares, 256, data[0] as int);
    let surplus = if rans::cumulative(shares, 256) > 4096 {
        (rans::cumulative(shares, 256) - 4096) as nat
    } else {
        0
    };
    lemma_balanced(shares, surplus);
    let r = rans::normalized(counts, n);
    assert(r == rans::balanced(shares, surplus));
    lemma_cumulative_is_sum(r, 256);
    let missing = 4096 - sum_of(p, 256);
    if missing > 0 {
        let t = choose|t: int|
            0 <= t < 256 && #[trigger] r[t] == shares[t] + missing && forall|s: int|
                0 <= s < 256 && s != t ==> #[trigger] r[s] == shares[s] && shares[s] <= shares[t];
        assert(r[t] == p[t] + missing);
        assert forall|s: int| 0 <= s < 256 && s != t implies #[trigger] r[s] == p[s] && p[s]
            <= p[t] by {
            assert(r[s] == shares[s] && shares[s] <= shares[t]);
            assert(shares[s] == p[s] && shares[t] == p[t]);
        }
    }
    if missing < 0 {
        assert forall|s: int| 0 <= s < 256 implies #[trigger] r[s] <= p[s] by {
            assert(r[s] <= shares[s] && shares[s] == p[s]);
        }
        assert forall|s: int, u: int|
            0 <= s < 256 && 0 <= u < 256 && r[s] < p[s] implies #[trigger] r[u] <= #[trigger] r[s]
            + 1 by {
            assert(shares[s] == p[s]);
        }
    }
}

proof fn lemma_occurrences_of_one(data: Seq<u8>, b: u8, s: u8)
    requires
        forall|i: int| 0 <= i < data.len() ==> #[trigger] data[i] == b,
    ensures
        rans::occurrences(data, s) == (if s == b {
            data.len()
        } else {
            0
        }),
    decreases data.len(),
{
    if data.len() > 0 {
        let head = data.drop_last();
        assert forall|i: int| 0 <= i < head.len() implies #[trigger] head[i] == b by {
            assert(head[i] == data[i]);
        }
        lemma_occurrences_of_one(head, b, s);
        assert(data.last() == b);
    }
}

proof fn lemma_lone_cumulative(freq: Seq<u32>, b: int, n: nat)
    requires
        n <= freq.len(),
        forall|j: int| 0 <= j < freq.len() ==> #[trigger] freq[j] == (if j == b {
            4096u32
        } else {
            0u32
        }),
    ensures
        rans::cumulative(freq, n) == (if b < n && 0 <= b {
            4096nat
        } else {
            0nat
        }),
    decreases n,
{
    if n > 0 {
        lemma_lone_cumulative(freq, b, (n - 1) as nat);
    }
}

proof fn lemma_lone_table(freq: Seq<u32>, b: int, s: nat)
    requires
        freq.len() == 256,
        0 <= b < 256,
        s <= 256,
        forall|j: int| 0 <= j < 256 ==> #[trigger] freq[j] == (if j == b {
            4096u32
        } else {
            0u32
        }),
    ensures
        rans::present_from(freq, s) == (if s <= b {
            1nat
        } else {
            0nat
        }),
        rans::table_bytes(freq, s).len() == (if s <= b {
            3nat
        } else {
            0nat
        }),
    decreases 256 - s,
{
    if s < 256 {
        lemma_lone_table(freq, b, s + 1);
        bitmaps::lemma_septets(4096);
        reveal_with_fuel(bitmaps::septets, 3);
    }
}

proof fn lemma_lone_states(freq: Seq<u32>, data: Seq<u8>, b: u8, i: nat)
    requires
        freq.len() == 256,
        i <= data.len(),
        forall|j: int| 0 <= j < data.len() ==> #[trigger] data[j] == b,
        freq[b as int] == 4096,
        rans::cumulative(freq, b as nat) == 0,
    ensures
        ({
            let (x, stream) = rans::rans_coded(freq, data, i);
            &&& x == Seq::new(4, |j: int| 8388608nat)
            &&& stream.len() == 0
        }),
    decreases data.len() - i,
{
    if i < data.len() {
        lemma_lone_states(freq, data, b, i + 1);
        let (x, stream) = rans::rans_coded(freq, data, i + 1);
        assert(data[i as int] == b);
        assert(x[(i % 4) as int] == 8388608);
        assert(rans::put_symbol(8388608, 4096, 0, stream) == (8388608nat, stream));
        assert(x.update((i % 4) as int, 8388608) =~= x);
    } else {
        assert(rans::rans_coded(freq, data, i).0 =~= Seq::new(4, |j: int| 8388608nat));
    }
}

/// Bytes that are all alike cost rANS nothing each: their form is as long as the varint of
/// their number and twenty bytes more.
pub proof fn lemma_alike_cost_nothing(data: Seq<u8>, b: u8)
    requires
        0 < data.len() <= u64::MAX,
        forall|i: int| 0 <= i < data.len() ==> #[trigger] data[i] == b,
    ensures
        rans::rans_image(data).len() == bitmaps::septets(data.len()) + 20,
{
    let n = data.len();
    let counts = rans::counts_of(data);
    let shares = Seq::new(256, |j: int| rans::share_of(counts[j] as nat, n) as u32);
    assert forall|j: int| 0 <= j < 256 implies #[trigger] shares[j] == (if j == b {
        4096u32
    } else {
        0u32
    }) by {
        lemma_occurrences_of_one(data, b, j as u8);
        lemma_div_multiples_vanish(4096, n as int);
        assert(n * 4096 >= n);
    }
    lemma_lone_cumulative(shares, b as int, 256);
    lemma_lone_cumulative(shares, b as int, b as nat);
    assert(rans::normalized(counts, n) == shares);
    lemma_lone_table(shares, b as int, 0);
    lemma_lone_states(shares, data, b, 0);
    bitmaps::lemma_septets(n);
    bitmaps::lemma_septets(1);
    crate::bytes::lemma_le_bytes_len(8388608, 4);
}

} // verus!
