//! ALP, adaptive lossless floating point: a decimal-like float `v` is stored as
//! the scaled integer `digit = round(v * 10^e * 10^-f)`.
//!
//! Digits are packed per 1024-value sub-block through the patched packer of
//! [`super::patched`], either as offsets from the least digit or as zigzag
//! deltas, whichever is smaller. A value that its digit does not give back bit
//! for bit is an exception, stored verbatim; a sub-block that is not decimal at
//! all is stored verbatim as a whole.
//!
//! The float arithmetic (turning values into digits and digits into values)
//! happens outside. Here stands everything around it: which values are sampled,
//! what a pair `(e, f)` costs given the digits it yields, which pairs survive,
//! how a planned sub-block is stored, and how it is read back.
//!
//! Payload: `varint(n)`, then per sub-block either `e[+64]:u8 ++ f:u8 ++
//! exceptions:u16 ++ least digit:lane ++ packed digits ++ (position:u16 ++
//! word:lane)*` or `255:u8 ++ words`. Digits are 64-bit two's-complement words.

use vstd::prelude::*;
use crate::bitpack::BLOCK;
use crate::bytes;
use crate::bytes::{append_bytes, read_le, write_le};
use crate::codecs::delta_bitpack;
use crate::codecs::delta_bitpack::{running_sums, zigzag_deltas};
use crate::codecs::float_mult;
use crate::codecs::float_mult::{fits_narrow, narrow, widen};
use crate::codecs::for_bitpack;
use crate::codecs::for_bitpack::{bit_width, extremes};
use crate::codecs::patched;
use crate::codecs::patched::{pack_residuals, unpack_residuals};
use crate::error::Error;
use crate::lane;
use crate::lane::Lane;
use crate::sort;
use crate::varint;

verus! {

/// First byte of a sub-block stored verbatim.
pub const RAW_SUB: u8 = 255;

/// Added to the `e` byte when the digits are stored as zigzag deltas.
pub const DELTA_FLAG: u8 = 64;

/// Pairs carried from the block-wide sample to each sub-block.
pub const TOP_K: usize = 5;

/// Values sampled across the block for the first search.
pub const STAGE1_SAMPLES: usize = 1024;

/// Values sampled from a sub-block for the second search.
pub const SUB_SAMPLES: usize = 32;

/// Largest decimal exponent.
#[verifier::allow_in_spec]
pub fn max_exp(lane: Lane) -> (e: u8)
    returns
        (match lane {
            Lane::W32 => 10u8,
            Lane::W64 => 18u8,
        }),
{
    match lane {
        Lane::W32 => 10,
        Lane::W64 => 18,
    }
}

// ---------------------------------------------------------------------------
// Choosing a pair
// ---------------------------------------------------------------------------

/// Every pair `(e, f)` with `f <= e <= max_exp`, in order.
pub fn all_pairs(lane: Lane) -> (out: Vec<(u8, u8)>)
    ensures
        forall|e: u8, f: u8| #[trigger] out@.contains((e, f)) <==> f <= e <= max_exp(lane),
        forall|i: int, j: int|
            0 <= i < j < out.len() ==> (#[trigger] out@[i]).0 < (#[trigger] out@[j]).0 || (out@[i].0
                == out@[j].0 && out@[i].1 < out@[j].1),
{
    let mut out: Vec<(u8, u8)> = Vec::new();
    let mut e: u8 = 0;
    while e <= max_exp(lane)
        invariant
            e <= max_exp(lane) + 1,
            max_exp(lane) <= 18,
            forall|i: int| 0 <= i < out.len() ==> (#[trigger] out@[i]).1 <= out@[i].0 < e,
            forall|a: u8, f: u8| f <= a < e ==> #[trigger] out@.contains((a, f)),
            forall|i: int, j: int|
                0 <= i < j < out.len() ==> (#[trigger] out@[i]).0 < (#[trigger] out@[j]).0 || (
                out@[i].0 == out@[j].0 && out@[i].1 < out@[j].1),
        decreases max_exp(lane) + 1 - e,
    {
        let mut f: u8 = 0;
        while f <= e
            invariant
                f <= e + 1,
                e <= max_exp(lane) <= 18,
                forall|i: int|
                    0 <= i < out.len() ==> (#[trigger] out@[i]).1 <= out@[i].0 && (out@[i].0 < e
                        || (out@[i].0 == e && out@[i].1 < f)),
                forall|a: u8, b: u8|
                    b <= a && (a < e || (a == e && b < f)) ==> #[trigger] out@.contains((a, b)),
                forall|i: int, j: int|
                    0 <= i < j < out.len() ==> (#[trigger] out@[i]).0 < (#[trigger] out@[j]).0 || (
                    out@[i].0 == out@[j].0 && out@[i].1 < out@[j].1),
            decreases e + 1 - f,
        {
            let ghost before = out@;
            out.push((e, f));
            proof {
                assert forall|a: u8, b: u8|
                    b <= a && (a < e || (a == e && b < f + 1)) implies #[trigger] out@.contains(
                    (a, b),
                ) by {
                    if a == e && b == f {
                        assert(out@[before.len() as int] == (a, b));
                    } else {
                        assert(before.contains((a, b)));
                        let i = choose|i: int| 0 <= i < before.len() && before[i] == (a, b);
                        assert(out@[i] == (a, b));
                    }
                }
            }
            f = f + 1;
        }
        e = e + 1;
    }
    proof {
        assert forall|a: u8, f: u8| #[trigger] out@.contains((a, f)) implies f <= a <= max_exp(
            lane,
        ) by {
            let i = choose|i: int| 0 <= i < out.len() && out@[i] == (a, f);
            assert(out@[i].1 <= out@[i].0);
        }
    }
    out
}

/// The digits that exist, in order.
pub open spec fn present(digits: Seq<Option<u64>>) -> Seq<int>
    decreases digits.len(),
{
    if digits.len() == 0 {
        Seq::empty()
    } else {
        let head = present(digits.drop_last());
        match digits.last() {
            None => head,
            Some(d) => head.push(Lane::W64.signed(d)),
        }
    }
}

/// The bits that a sample costs per value when its digits are `ds`.
pub open spec fn digit_width(lane: Lane, ds: Seq<int>) -> nat {
    if ds.len() == 0 {
        lane.bits() as nat
    } else {
        for_bitpack::bit_len((ds.max() - ds.min()) as nat)
    }
}

/// What storing a sample costs under a pair: its estimated bits, and how many
/// values are exceptions.
pub fn pair_cost(lane: Lane, digits: &[Option<u64>]) -> (r: (u128, usize))
    ensures
        r.1 == digits.len() - present(digits@).len(),
        r.0 == digit_width(lane, present(digits@)) * digits.len() + r.1 * (16 + lane.bits()),
{
    let mut exc: usize = 0;
    let mut lo: i64 = 0;
    let mut hi: i64 = 0;
    let mut i: usize = 0;
    while i < digits.len()
        invariant
            i <= digits.len(),
            exc <= i,
            exc == i - present(digits@.take(i as int)).len(),
            exc < i ==> lo == present(digits@.take(i as int)).min() && hi == present(
                digits@.take(i as int),
            ).max(),
        decreases digits.len() - i,
    {
        let ghost before = present(digits@.take(i as int));
        proof {
            assert(digits@.take(i + 1).drop_last() =~= digits@.take(i as int));
            assert(digits@.take(i + 1).last() == digits@[i as int]);
        }
        match digits[i] {
            None => {
                exc = exc + 1;
            },
            Some(d) => {
                let s: i64 = Lane::W64.as_signed(d);
                if exc == i {
                    lo = s;
                    hi = s;
                } else {
                    if s < lo {
                        lo = s;
                    }
                    if s > hi {
                        hi = s;
                    }
                }
                proof {
                    sort::lemma_push_extremes(before, s as int);
                }
            },
        }
        i = i + 1;
    }
    assert(digits@.take(digits.len() as int) =~= digits@);
    let width: u32 = if exc == digits.len() {
        lane.bits()
    } else {
        proof {
            let ds = present(digits@);
            assert(ds.len() > 0);
            sort::lemma_min_le_max(ds);
        }
        bit_width((hi as i128 - lo as i128) as u64)
    };
    let n: u128 = digits.len() as u128;
    let each: u128 = (16 + lane.bits()) as u128;
    assert(width * n <= 64 * 0xFFFF_FFFF_FFFF_FFFF) by (nonlinear_arith)
        requires
            width <= 64,
            n <= 0xFFFF_FFFF_FFFF_FFFF,
    ;
    assert(exc * each <= 80 * 0xFFFF_FFFF_FFFF_FFFF) by (nonlinear_arith)
        requires
            each <= 80,
            exc <= 0xFFFF_FFFF_FFFF_FFFF,
    ;
    (width as u128 * n + exc as u128 * each, exc)
}

/// Candidate `a` is better than candidate `b`: cheaper, or as cheap and earlier.
pub open spec fn cheaper(costs: Seq<(u128, usize)>, a: int, b: int) -> bool {
    costs[a].0 < costs[b].0 || (costs[a].0 == costs[b].0 && a < b)
}

/// `top` lists the best candidates, best first, as many as `k` allows.
pub open spec fn is_top(costs: Seq<(u128, usize)>, top: Seq<int>, k: nat) -> bool {
    &&& top.len() == (if costs.len() < k {
        costs.len()
    } else {
        k
    })
    &&& forall|i: int| 0 <= i < top.len() ==> 0 <= #[trigger] top[i] < costs.len()
    &&& forall|i: int, j: int|
        0 <= i < j < top.len() ==> cheaper(costs, #[trigger] top[i], #[trigger] top[j])
    &&& forall|c: int|
        0 <= c < costs.len() && !(#[trigger] top.contains(c)) && top.len() > 0 ==> cheaper(
            costs,
            top.last(),
            c,
        )
}

/// The best candidate of `costs` that is not used yet.
fn best_unused(costs: &[(u128, usize)], used: &Vec<bool>) -> (r: Option<usize>)
    requires
        used.len() == costs.len(),
    ensures
        r matches Some(b) ==> b < costs.len() && !used@[b as int] && forall|c: int|
            0 <= c < costs.len() && c != b && !(#[trigger] used@[c]) ==> cheaper(
                costs@,
                b as int,
                c,
            ),
        r is None ==> forall|c: int| 0 <= c < costs.len() ==> #[trigger] used@[c],
{
    let mut best: Option<usize> = None;
    let mut i: usize = 0;
    while i < costs.len()
        invariant
            i <= costs.len(),
            used.len() == costs.len(),
            best matches Some(b) ==> b < i && !used@[b as int] && forall|c: int|
                0 <= c < i && c != b && !(#[trigger] used@[c]) ==> cheaper(costs@, b as int, c),
            best is None ==> forall|c: int| 0 <= c < i ==> #[trigger] used@[c],
        decreases costs.len() - i,
    {
        if !used[i] {
            match best {
                None => {
                    best = Some(i);
                },
                Some(b) => {
                    if costs[i].0 < costs[b].0 {
                        best = Some(i);
                    }
                },
            }
        }
        i = i + 1;
    }
    best
}

fn none_used(n: usize) -> (used: Vec<bool>)
    ensures
        used@ == Seq::new(n as nat, |i: int| false),
{
    let mut used: Vec<bool> = Vec::new();
    while used.len() < n
        invariant
            used.len() <= n,
            forall|i: int| 0 <= i < used.len() ==> !(#[trigger] used@[i]),
        decreases n - used.len(),
    {
        used.push(false);
    }
    assert(used@ =~= Seq::new(n as nat, |i: int| false));
    used
}

/// The indices of `v` as integers.
pub open spec fn as_ints(v: Seq<usize>) -> Seq<int> {
    Seq::new(v.len(), |i: int| v[i] as int)
}

/// The best [`TOP_K`] candidates of a block-wide sample, best first; `None` when
/// even the best leaves more than half of the `sample_len` values as exceptions.
pub fn top_pairs(costs: &[(u128, usize)], sample_len: usize) -> (r: Option<Vec<usize>>)
    requires
        costs.len() > 0,
    ensures
        r is None <==> exists|top: Seq<int>|
            #[trigger] is_top(costs@, top, TOP_K as nat) && costs@[top[0]].1 * 2 > sample_len,
        r matches Some(top) ==> is_top(costs@, as_ints(top@), TOP_K as nat),
{
    let mut used = none_used(costs.len());
    let mut top: Vec<usize> = Vec::new();
    while top.len() < TOP_K && top.len() < costs.len()
        invariant
            costs.len() > 0,
            used.len() == costs.len(),
            top.len() <= TOP_K,
            top.len() <= costs.len(),
            top@.no_duplicates(),
            forall|i: int| 0 <= i < top.len() ==> (#[trigger] top@[i]) < costs.len(),
            forall|c: int|
                0 <= c < costs.len() ==> (#[trigger] used@[c] <==> as_ints(top@).contains(c)),
            forall|i: int, j: int|
                0 <= i < j < top.len() ==> cheaper(
                    costs@,
                    #[trigger] top@[i] as int,
                    #[trigger] top@[j] as int,
                ),
            forall|c: int|
                0 <= c < costs.len() && !(#[trigger] used@[c]) && top.len() > 0 ==> cheaper(
                    costs@,
                    top@.last() as int,
                    c,
                ),
        decreases TOP_K - top.len(),
    {
        let ghost before = top@;
        let ghost old_used = used@;
        match best_unused(costs, &used) {
            None => {
                proof {
                    assert forall|c: int| 0 <= c < costs.len() implies as_ints(top@).contains(
                        c,
                    ) by {
                        assert(used@[c]);
                    }
                    lemma_covers(as_ints(top@), costs.len() as nat);
                }
            },
            Some(b) => {
                used.set(b, true);
                top.push(b);
                proof {
                    assert forall|i: int| 0 <= i < before.len() implies cheaper(
                        costs@,
                        #[trigger] before[i] as int,
                        b as int,
                    ) by {
                        let last = before.len() - 1;
                        assert(cheaper(costs@, before[last] as int, b as int));
                        if i < last {
                            assert(cheaper(costs@, before[i] as int, before[last] as int));
                        }
                    }
                    assert(!as_ints(before).contains(b as int));
                    assert forall|i: int| 0 <= i < before.len() implies before[i] != b by {
                        assert(as_ints(before)[i] == before[i]);
                    }
                    assert forall|c: int| 0 <= c < costs.len() implies (#[trigger] used@[c]
                        <==> as_ints(top@).contains(c)) by {
                        if c == b {
                            assert(as_ints(top@)[before.len() as int] == c);
                        } else if old_used[c] {
                            let i = choose|i: int|
                                0 <= i < as_ints(before).len() && as_ints(before)[i] == c;
                            assert(as_ints(top@)[i] == c);
                        } else if as_ints(top@).contains(c) {
                            let i = choose|i: int|
                                0 <= i < as_ints(top@).len() && as_ints(top@)[i] == c;
                            assert(as_ints(before)[i] == c);
                        }
                    }
                }
            },
        }
    }
    let ghost ids = as_ints(top@);
    proof {
        assert forall|c: int|
            0 <= c < costs.len() && !(#[trigger] ids.contains(c)) && ids.len() > 0 implies cheaper(
            costs@,
            ids.last(),
            c,
        ) by {
            assert(!used@[c]);
        }
        assert(is_top(costs@, ids, TOP_K as nat));
        assert forall|other: Seq<int>|
            #[trigger] is_top(costs@, other, TOP_K as nat) implies other[0] == ids[0] by {
            lemma_top_first(costs@, other, ids, TOP_K as nat);
        }
        assert(ids[0] == top@[0]);
    }
    if costs[top[0]].1 > sample_len / 2 {
        assert(is_top(costs@, ids, TOP_K as nat) && costs@[ids[0]].1 * 2 > sample_len);
        return None;
    }
    Some(top)
}

/// A list that holds every number below `n` has at least `n` entries.
proof fn lemma_covers(s: Seq<int>, n: nat)
    requires
        forall|c: int| 0 <= c < n ==> s.contains(c),
    ensures
        s.len() >= n,
{
    let range = vstd::set_lib::set_int_range(0, n as int);
    vstd::set_lib::lemma_int_range(0, n as int);
    assert(range.subset_of(s.to_set())) by {
        assert forall|c: int| range.contains(c) implies s.to_set().contains(c) by {
            assert(s.contains(c));
        }
    }
    s.lemma_cardinality_of_set();
    vstd::set_lib::lemma_len_subset(range, s.to_set());
}

/// Two listings of the best begin with the same candidate.
proof fn lemma_top_first(costs: Seq<(u128, usize)>, a: Seq<int>, b: Seq<int>, k: nat)
    requires
        is_top(costs, a, k),
        is_top(costs, b, k),
        costs.len() > 0,
        k > 0,
    ensures
        a[0] == b[0],
{
    lemma_top_best(costs, a, k, b[0]);
    lemma_top_best(costs, b, k, a[0]);
}

/// The first of a listing is `c` itself or better than it.
proof fn lemma_top_best(costs: Seq<(u128, usize)>, top: Seq<int>, k: nat, c: int)
    requires
        is_top(costs, top, k),
        0 <= c < costs.len(),
        k > 0,
    ensures
        top[0] == c || cheaper(costs, top[0], c),
{
    let last = top.len() - 1;
    if top.contains(c) {
        let i = choose|i: int| 0 <= i < top.len() && top[i] == c;
        if i > 0 {
            assert(cheaper(costs, top[0], top[i]));
        }
    } else {
        assert(cheaper(costs, top.last(), c));
        if last > 0 {
            assert(cheaper(costs, top[0], top[last]));
        }
    }
}

/// The cheapest candidate, the earliest among equals; `None` when it leaves more
/// than half of the `sample_len` values as exceptions, or there is none.
pub fn pick_pair(costs: &[(u128, usize)], sample_len: usize) -> (r: Option<usize>)
    ensures
        r matches Some(b) ==> b < costs.len() && costs@[b as int].1 * 2 <= sample_len && forall|
            c: int,
        |
            0 <= c < costs.len() && c != b ==> #[trigger] cheaper(costs@, b as int, c),
        r is None ==> costs.len() == 0 || exists|b: int|
            0 <= b < costs.len() && #[trigger] costs@[b].1 * 2 > sample_len && forall|c: int|
                0 <= c < costs.len() && c != b ==> #[trigger] cheaper(costs@, b, c),
{
    let used = none_used(costs.len());
    match best_unused(costs, &used) {
        None => {
            proof {
                if costs.len() > 0 {
                    assert(used@[0]);
                }
            }
            None
        },
        Some(b) => {
            proof {
                assert forall|c: int| 0 <= c < costs.len() && c != b implies #[trigger] cheaper(
                    costs@,
                    b as int,
                    c,
                ) by {
                    assert(!used@[c]);
                }
            }
            if costs[b].1 > sample_len / 2 {
                assert(costs@[b as int].1 * 2 > sample_len);
                None
            } else {
                Some(b)
            }
        },
    }
}

// ---------------------------------------------------------------------------
// Plans and parts
// ---------------------------------------------------------------------------

/// How a sub-block is to be stored: verbatim, or by the digits that a pair yields,
/// with the word that each of them evaluates to. A value without a digit, or whose
/// digit evaluates to another word, is an exception.
pub enum SubPlan {
    Verbatim,
    Digits { e: u8, f: u8, digits: Vec<Option<u64>>, words: Vec<u64> },
}

/// A stored sub-block: its words, or a pair, a digit for every value, and the
/// words that stand in place of the digits' values.
pub enum Part {
    Verbatim(Vec<u64>),
    Digits { e: u8, f: u8, digits: Vec<u64>, exceptions: Vec<(u64, u64)> },
}

/// What a [`Part`] says.
pub enum PartView {
    Verbatim(Seq<u64>),
    Digits { e: u8, f: u8, digits: Seq<u64>, exceptions: Seq<(u64, u64)> },
}

impl View for Part {
    type V = PartView;

    open spec fn view(&self) -> PartView {
        match *self {
            Part::Verbatim(words) => PartView::Verbatim(words@),
            Part::Digits { e, f, digits, exceptions } => PartView::Digits {
                e,
                f,
                digits: digits@,
                exceptions: exceptions@,
            },
        }
    }
}

/// What a list of parts says.
pub open spec fn parts_view(parts: Seq<Part>) -> Seq<PartView> {
    Seq::new(parts.len(), |i: int| parts[i]@)
}

/// `words` with the exceptions from `k` on written over them.
pub open spec fn patched_words(words: Seq<u64>, exceptions: Seq<(u64, u64)>, k: nat) -> Seq<u64>
    decreases exceptions.len() - k,
{
    if k >= exceptions.len() {
        words
    } else {
        let (p, w) = exceptions[k as int];
        patched_words(words.update(p as int, w), exceptions, k + 1)
    }
}

/// The words of a part, `eval` giving the word of a digit under a pair.
pub open spec fn part_words(p: PartView, eval: spec_fn(u64, u8, u8) -> u64) -> Seq<u64> {
    match p {
        PartView::Verbatim(words) => words,
        PartView::Digits { e, f, digits, exceptions } => patched_words(
            Seq::new(digits.len(), |i: int| eval(digits[i], e, f)),
            exceptions,
            0,
        ),
    }
}

/// The words of a list of parts.
pub open spec fn parts_words(parts: Seq<PartView>, eval: spec_fn(u64, u8, u8) -> u64) -> Seq<u64>
    decreases parts.len(),
{
    if parts.len() == 0 {
        Seq::empty()
    } else {
        part_words(parts[0], eval) + parts_words(parts.drop_first(), eval)
    }
}

/// The digits that stand for the values exactly: those that evaluate to them.
pub open spec fn kept(sub: Seq<u64>, digits: Seq<Option<u64>>, words: Seq<u64>) -> Seq<
    Option<u64>,
> {
    Seq::new(
        digits.len(),
        |i: int|
            if words[i] == sub[i] {
                digits[i]
            } else {
                None
            },
    )
}

/// Keep the digits that evaluate to the values they are to stand for.
pub fn keep(sub: &[u64], digits: &[Option<u64>], words: &[u64]) -> (out: Vec<Option<u64>>)
    requires
        sub.len() == digits.len(),
        words.len() == digits.len(),
    ensures
        out@ == kept(sub@, digits@, words@),
{
    let mut out: Vec<Option<u64>> = Vec::new();
    let mut i: usize = 0;
    while i < digits.len()
        invariant
            i <= digits.len(),
            sub.len() == digits.len(),
            words.len() == digits.len(),
            out.len() == i,
            forall|k: int| 0 <= k < i ==> #[trigger] out@[k] == kept(sub@, digits@, words@)[k],
        decreases digits.len() - i,
    {
        out.push(
            if words[i] == sub[i] {
                digits[i]
            } else {
                None
            },
        );
        i = i + 1;
    }
    assert(out@ =~= kept(sub@, digits@, words@));
    out
}

/// A plan that can be carried out for `count` values.
pub open spec fn plan_usable(lane: Lane, plan: SubPlan, count: nat) -> bool {
    match plan {
        SubPlan::Verbatim => false,
        SubPlan::Digits { e, f, digits, words } => {
            &&& f <= e <= max_exp(lane)
            &&& digits@.len() == count
            &&& words@.len() == count
            &&& forall|i: int|
                0 <= i < digits@.len() ==> (#[trigger] digits@[i] matches Some(d)
                    ==> float_mult::narrow_fits(lane, d))
        },
    }
}

/// The digit that stands in for exceptions: the first there is, or zero.
pub open spec fn filler(digits: Seq<Option<u64>>) -> u64
    decreases digits.len(),
{
    if digits.len() == 0 {
        0
    } else {
        match digits[0] {
            Some(d) => d,
            None => filler(digits.drop_first()),
        }
    }
}

/// A digit for every value.
pub open spec fn filled(digits: Seq<Option<u64>>) -> Seq<u64> {
    Seq::new(
        digits.len(),
        |i: int|
            match digits[i] {
                Some(d) => d,
                None => filler(digits),
            },
    )
}

/// The exceptions among the first `n` values of a planned sub-block.
pub open spec fn exceptions_of(sub: Seq<u64>, digits: Seq<Option<u64>>, n: nat) -> Seq<(u64, u64)>
    decreases n,
{
    if n == 0 {
        Seq::empty()
    } else {
        let head = exceptions_of(sub, digits, (n - 1) as nat);
        if digits[n - 1] is None {
            head.push(((n - 1) as u64, sub[n - 1]))
        } else {
            head
        }
    }
}

/// The part that a plan makes of a sub-block.
pub open spec fn planned_part(lane: Lane, sub: Seq<u64>, plan: SubPlan) -> PartView {
    if plan_usable(lane, plan, sub.len()) {
        match plan {
            SubPlan::Verbatim => PartView::Verbatim(sub),
            SubPlan::Digits { e, f, digits, words } => PartView::Digits {
                e,
                f,
                digits: filled(kept(sub, digits@, words@)),
                exceptions: exceptions_of(sub, kept(sub, digits@, words@), sub.len()),
            },
        }
    } else {
        PartView::Verbatim(sub)
    }
}

/// The values of sub-block `j`.
pub open spec fn sub_at(vals: Seq<u64>, j: int) -> Seq<u64> {
    vals.subrange(
        j * BLOCK,
        if (j + 1) * BLOCK <= vals.len() {
            (j + 1) * BLOCK
        } else {
            vals.len() as int
        },
    )
}

/// Number of sub-blocks of `n` values.
pub open spec fn sub_blocks(n: nat) -> nat {
    ((n + BLOCK - 1) / BLOCK as int) as nat
}

/// The parts that plans make of a block; a sub-block without a plan is stored
/// verbatim.
pub open spec fn planned_parts(lane: Lane, vals: Seq<u64>, plans: Seq<SubPlan>) -> Seq<PartView> {
    Seq::new(
        sub_blocks(vals.len()),
        |j: int|
            if j < plans.len() {
                planned_part(lane, sub_at(vals, j), plans[j])
            } else {
                PartView::Verbatim(sub_at(vals, j))
            },
    )
}

/// The words of a plan are what its digits evaluate to.
pub open spec fn plan_evaluated(plan: SubPlan, eval: spec_fn(u64, u8, u8) -> u64) -> bool {
    match plan {
        SubPlan::Verbatim => true,
        SubPlan::Digits { e, f, digits, words } => forall|i: int|
            0 <= i < digits@.len() ==> (#[trigger] digits@[i] matches Some(d) ==> eval(d, e, f)
                == words@[i]),
    }
}

/// The words of all plans are what their digits evaluate to.
pub open spec fn plans_evaluated(
    plans: Seq<SubPlan>,
    eval: spec_fn(u64, u8, u8) -> u64,
) -> bool {
    forall|j: int| 0 <= j < plans.len() ==> plan_evaluated(#[trigger] plans[j], eval)
}

proof fn lemma_exceptions_of(sub: Seq<u64>, digits: Seq<Option<u64>>, n: nat)
    requires
        sub.len() <= u64::MAX,
        n <= sub.len(),
        digits.len() == sub.len(),
    ensures
        forall|k: int|
            0 <= k < exceptions_of(sub, digits, n).len() ==> (#[trigger] exceptions_of(
                sub,
                digits,
                n,
            )[k]).0 < n && exceptions_of(sub, digits, n)[k].1 == sub[exceptions_of(sub, digits, n)[
                k
            ].0 as int],
        forall|i: int|
            0 <= i < n && #[trigger] digits[i] is None ==> exists|k: int|
                0 <= k < exceptions_of(sub, digits, n).len() && (#[trigger] exceptions_of(
                    sub,
                    digits,
                    n,
                )[k]).0 == i,
        exceptions_of(sub, digits, n).len() <= n,
    decreases n,
{
    if n > 0 {
        lemma_exceptions_of(sub, digits, (n - 1) as nat);
        let head = exceptions_of(sub, digits, (n - 1) as nat);
        let all = exceptions_of(sub, digits, n);
        assert forall|i: int| 0 <= i < n && #[trigger] digits[i] is None implies exists|k: int|
            0 <= k < all.len() && (#[trigger] all[k]).0 == i by {
            if i == n - 1 {
                assert(all[head.len() as int].0 == i);
            } else {
                let k = choose|k: int| 0 <= k < head.len() && (#[trigger] head[k]).0 == i;
                assert(all[k].0 == i);
            }
        }
    }
}

proof fn lemma_patched_words(sub: Seq<u64>, words: Seq<u64>, exc: Seq<(u64, u64)>, k: nat)
    requires
        words.len() == sub.len(),
        k <= exc.len(),
        forall|j: int|
            0 <= j < exc.len() ==> (#[trigger] exc[j]).0 < sub.len() && exc[j].1
                == sub[exc[j].0 as int],
        forall|i: int|
            0 <= i < sub.len() ==> #[trigger] words[i] == sub[i] || exists|j: int|
                k <= j < exc.len() && (#[trigger] exc[j]).0 == i,
    ensures
        patched_words(words, exc, k) == sub,
    decreases exc.len() - k,
{
    if k < exc.len() {
        let (p, w) = exc[k as int];
        let next = words.update(p as int, w);
        assert forall|i: int| 0 <= i < sub.len() implies #[trigger] next[i] == sub[i] || exists|
            j: int,
        |
            k + 1 <= j < exc.len() && (#[trigger] exc[j]).0 == i by {
            if i != p && words[i] != sub[i] {
                let j = choose|j: int| k <= j < exc.len() && (#[trigger] exc[j]).0 == i;
                assert(j != k);
            }
        }
        lemma_patched_words(sub, next, exc, k + 1);
    } else {
        assert(words =~= sub);
    }
}

/// A plan loses nothing.
proof fn lemma_plan_lossless(
    lane: Lane,
    sub: Seq<u64>,
    plan: SubPlan,
    eval: spec_fn(u64, u8, u8) -> u64,
)
    requires
        sub.len() <= u64::MAX,
        plan_evaluated(plan, eval),
    ensures
        part_words(planned_part(lane, sub, plan), eval) == sub,
{
    if plan_usable(lane, plan, sub.len()) {
        if let SubPlan::Digits { e, f, digits, words: evaluated } = plan {
            let good = kept(sub, digits@, evaluated@);
            let ds = filled(good);
            let exc = exceptions_of(sub, good, sub.len());
            lemma_exceptions_of(sub, good, sub.len());
            let words = Seq::new(ds.len(), |i: int| eval(ds[i], e, f));
            assert forall|i: int| 0 <= i < sub.len() implies #[trigger] words[i] == sub[i]
                || exists|j: int| 0 <= j < exc.len() && (#[trigger] exc[j]).0 == i by {
                assert(good[i] is None || good[i] is Some);
                assert(digits@[i] is None || digits@[i] is Some);
            }
            lemma_patched_words(sub, words, exc, 0);
        }
    }
}

/// Storing a block by plans, reading the parts back and evaluating them as the plans'
/// words say gives the block.
pub proof fn lemma_alp_lossless(
    lane: Lane,
    vals: Seq<u64>,
    plans: Seq<SubPlan>,
    eval: spec_fn(u64, u8, u8) -> u64,
)
    requires
        vals.len() <= u64::MAX,
        plans_evaluated(plans, eval),
    ensures
        parts_words(planned_parts(lane, vals, plans), eval) == vals,
{
    lemma_parts_from(lane, vals, plans, eval, 0);
    let parts = planned_parts(lane, vals, plans);
    assert(parts.skip(0) =~= parts);
    assert(vals.skip(0) =~= vals);
}

proof fn lemma_parts_from(
    lane: Lane,
    vals: Seq<u64>,
    plans: Seq<SubPlan>,
    eval: spec_fn(u64, u8, u8) -> u64,
    j: nat,
)
    requires
        vals.len() <= u64::MAX,
        j <= sub_blocks(vals.len()),
        plans_evaluated(plans, eval),
    ensures
        parts_words(planned_parts(lane, vals, plans).skip(j as int), eval) == (if j * BLOCK
            <= vals.len() {
            vals.skip(j * BLOCK)
        } else {
            Seq::empty()
        }),
    decreases sub_blocks(vals.len()) - j,
{
    let parts = planned_parts(lane, vals, plans);
    let rest = parts.skip(j as int);
    if j < sub_blocks(vals.len()) {
        lemma_parts_from(lane, vals, plans, eval, j + 1);
        assert(rest.drop_first() =~= parts.skip(j as int + 1));
        let sub = sub_at(vals, j as int);
        assert(rest[0] == parts[j as int]);
        if j < plans.len() {
            assert(plan_evaluated(plans[j as int], eval));
            lemma_plan_lossless(lane, sub, plans[j as int], eval);
        }
        assert(part_words(rest[0], eval) == sub);
        if (j + 1) * BLOCK <= vals.len() {
            assert(sub + vals.skip((j + 1) * BLOCK) =~= vals.skip(j * BLOCK));
        } else {
            assert(sub + Seq::<u64>::empty() =~= vals.skip(j * BLOCK));
        }
    } else {
        assert(rest =~= Seq::empty());
        if j * BLOCK <= vals.len() {
            assert(vals.skip(j * BLOCK) =~= Seq::empty());
        }
    }
}

// ---------------------------------------------------------------------------
// Storing and reading
// ---------------------------------------------------------------------------

/// The digits that packed residuals stand for.
pub open spec fn digits_of(min: u64, residuals: Seq<u64>, delta: bool) -> Seq<u64> {
    if delta {
        delta_bitpack::summed(Lane::W64, residuals, min)
    } else {
        Seq::new(residuals.len(), |i: int| Lane::W64.sum(min, residuals[i]))
    }
}

/// `k` exceptions at the front of `s`, positions below `count`, and what follows.
pub open spec fn exceptions_parse(lane: Lane, s: Seq<u8>, k: nat, count: nat) -> Result<
    (Seq<(u64, u64)>, Seq<u8>),
    Error,
>
    decreases k,
{
    let size = 2 + lane.bytes() as int;
    if k == 0 {
        Ok((Seq::empty(), s))
    } else if s.len() < size {
        Err(Error::Truncated)
    } else {
        let p = bytes::le_value(s.take(2)) as u64;
        let w = bytes::le_value(s.subrange(2, size)) as u64;
        if p >= count {
            Err(Error::CorruptPayload("alp exception position"))
        } else {
            match exceptions_parse(lane, s.skip(size), (k - 1) as nat, count) {
                Err(e) => Err(e),
                Ok((more, rest)) => Ok((seq![(p, w)] + more, rest)),
            }
        }
    }
}

/// The part of `count` values stored by digits at the front of `s`.
pub open spec fn digits_parse(lane: Lane, s: Seq<u8>, count: nat) -> Result<
    (PartView, Seq<u8>),
    Error,
> {
    let head = 4 + lane.bytes() as int;
    if s.len() < head {
        Err(Error::Truncated)
    } else {
        let delta = (s[0] / DELTA_FLAG) % 2 == 1;
        let e = (if delta {
            s[0] - DELTA_FLAG
        } else {
            s[0] as int
        }) as u8;
        let f = s[1];
        if e > max_exp(lane) || f > e {
            Err(Error::CorruptPayload("alp exponent/factor"))
        } else {
            let min = float_mult::widened(lane, bytes::le_value(s.subrange(4, head)) as u64);
            match patched::residuals_parse(s.skip(head), count) {
                Err(e) => Err(e),
                Ok((residuals, after)) => match exceptions_parse(
                    lane,
                    after,
                    bytes::le_value(s.subrange(2, 4)),
                    count,
                ) {
                    Err(e) => Err(e),
                    Ok((exceptions, rest)) => Ok(
                        (
                            PartView::Digits {
                                e,
                                f,
                                digits: digits_of(min, residuals, delta),
                                exceptions,
                            },
                            rest,
                        ),
                    ),
                },
            }
        }
    }
}

/// The part of `count` values at the front of `s`, and what follows it.
pub open spec fn sub_parse(lane: Lane, s: Seq<u8>, count: nat) -> Result<
    (PartView, Seq<u8>),
    Error,
> {
    if s.len() > 0 && s[0] == RAW_SUB {
        let end = 1 + count * lane.bytes();
        if s.len() < end {
            Err(Error::Truncated)
        } else {
            Ok((PartView::Verbatim(lane.words_of(s.subrange(1, end))), s.skip(end)))
        }
    } else {
        digits_parse(lane, s, count)
    }
}

/// The parts of `n` values stored in `s`; bytes after them are not looked at.
pub open spec fn parts_parse(lane: Lane, s: Seq<u8>, n: nat) -> Result<Seq<PartView>, Error>
    decreases n,
{
    if n == 0 {
        Ok(Seq::empty())
    } else {
        match sub_parse(lane, s, for_bitpack::sub_count(n)) {
            Err(e) => Err(e),
            Ok((part, rest)) => match parts_parse(
                lane,
                rest,
                (n - for_bitpack::sub_count(n)) as nat,
            ) {
                Err(e) => Err(e),
                Ok(more) => Ok(seq![part] + more),
            },
        }
    }
}

/// The parts of the `n` values coded by `payload`.
pub open spec fn alp_parsed(lane: Lane, payload: Seq<u8>, n: nat) -> Result<Seq<PartView>, Error> {
    match varint::varint_parse(payload) {
        Err(e) => Err(e),
        Ok((len, rest)) => if len != n {
            Err(Error::CorruptPayload("alp length mismatch"))
        } else {
            parts_parse(lane, rest, n)
        },
    }
}

/// The `n` words coded by `payload`, `eval` giving the word of a digit under a pair.
pub open spec fn alp_decoded(
    lane: Lane,
    payload: Seq<u8>,
    n: nat,
    eval: spec_fn(u64, u8, u8) -> u64,
) -> Result<Seq<u64>, Error> {
    match alp_parsed(lane, payload, n) {
        Err(e) => Err(e),
        Ok(parts) => Ok(parts_words(parts, eval)),
    }
}

/// `b` reads back as `part`, whatever follows it.
spec fn sub_encodes(lane: Lane, b: Seq<u8>, part: PartView, count: nat) -> bool {
    forall|rest: Seq<u8>|
        #[trigger] sub_parse(lane, b + rest, count) == Ok::<_, Error>((part, rest))
}

/// The bytes of exceptions: each its position and its word.
pub open spec fn exception_bytes(lane: Lane, exc: Seq<(u64, u64)>) -> Seq<u8>
    decreases exc.len(),
{
    if exc.len() == 0 {
        Seq::empty()
    } else {
        bytes::le_bytes(exc[0].0 as nat, 2) + lane.word_bytes(exc[0].1) + exception_bytes(
            lane,
            exc.drop_first(),
        )
    }
}

proof fn lemma_exceptions_roundtrip(lane: Lane, exc: Seq<(u64, u64)>, count: nat, rest: Seq<u8>)
    requires
        count <= 65536,
        forall|k: int|
            0 <= k < exc.len() ==> (#[trigger] exc[k]).0 < count && lane.fits(exc[k].1),
    ensures
        exceptions_parse(lane, exception_bytes(lane, exc) + rest, exc.len(), count) == Ok::<
            _,
            Error,
        >((exc, rest)),
    decreases exc.len(),
{
    let s = exception_bytes(lane, exc) + rest;
    let size = 2 + lane.bytes() as int;
    if exc.len() == 0 {
        assert(s =~= rest);
        assert(exc =~= Seq::empty());
    } else {
        let tail = exc.drop_first();
        assert forall|k: int| 0 <= k < tail.len() implies (#[trigger] tail[k]).0 < count
            && lane.fits(tail[k].1) by {
            assert(exc[k + 1].0 < count);
        }
        lemma_exceptions_roundtrip(lane, tail, count, rest);
        let (p, w) = exc[0];
        bytes::lemma_pow256_values();
        bytes::lemma_le_roundtrip(p as nat, 2);
        bytes::lemma_le_roundtrip(w as nat, lane.bytes() as nat);
        assert(s.take(2) =~= bytes::le_bytes(p as nat, 2));
        assert(s.subrange(2, size) =~= lane.word_bytes(w));
        assert(s.skip(size) =~= exception_bytes(lane, tail) + rest);
        assert(seq![(p, w)] + tail =~= exc);
    }
}

fn write_exceptions(lane: Lane, exc: &Vec<(u64, u64)>, out: &mut Vec<u8>)
    ensures
        final(out)@ == old(out)@ + exception_bytes(lane, exc@),
{
    let ghost start = out@;
    let mut i: usize = 0;
    assert(exc@.skip(0) =~= exc@);
    while i < exc.len()
        invariant
            i <= exc.len(),
            out@ + exception_bytes(lane, exc@.skip(i as int)) == start + exception_bytes(
                lane,
                exc@,
            ),
        decreases exc.len() - i,
    {
        let ghost before = out@;
        let (p, w) = exc[i];
        write_le(out, p, 2);
        lane.write_word(out, w);
        proof {
            let t = exc@.skip(i as int);
            assert(t.drop_first() =~= exc@.skip(i + 1));
            assert(out@ + exception_bytes(lane, exc@.skip(i + 1)) =~= before + exception_bytes(
                lane,
                t,
            ));
        }
        i = i + 1;
    }
    assert(out@ + Seq::<u8>::empty() =~= out@);
}

#[verifier::rlimit(30)]
proof fn lemma_digits_roundtrip(
    lane: Lane,
    e: u8,
    f: u8,
    digits: Seq<u64>,
    min: u64,
    delta: bool,
    residuals: Seq<u64>,
    stream: Seq<u8>,
    exc: Seq<(u64, u64)>,
)
    requires
        f <= e <= max_exp(lane),
        digits.len() <= BLOCK,
        float_mult::narrow_fits(lane, min),
        digits_of(min, residuals, delta) == digits,
        residuals.len() == digits.len(),
        patched::residuals_encode(stream, residuals),
        exc.len() <= BLOCK,
        forall|k: int|
            0 <= k < exc.len() ==> (#[trigger] exc[k]).0 < digits.len() && lane.fits(exc[k].1),
    ensures
        sub_encodes(
            lane,
            digit_bytes(lane, e, f, min, delta, stream, exc),
            (PartView::Digits { e, f, digits, exceptions: exc }),
            digits.len(),
        ),
{
    let b = digit_bytes(lane, e, f, min, delta, stream, exc);
    let part = PartView::Digits { e, f, digits, exceptions: exc };
    let head = 4 + lane.bytes() as int;
    let word = float_mult::narrowed(lane, min);
    float_mult::lemma_widen_narrow(lane, min);
    bytes::lemma_pow256_values();
    bytes::lemma_le_roundtrip(exc.len(), 2);
    bytes::lemma_le_roundtrip(word as nat, lane.bytes() as nat);
    assert forall|rest: Seq<u8>|
        #[trigger] sub_parse(lane, b + rest, digits.len()) == Ok::<_, Error>((part, rest)) by {
        let s = b + rest;
        let after = exception_bytes(lane, exc) + rest;
        lemma_exceptions_roundtrip(lane, exc, digits.len(), rest);
        assert(s[0] == b[0] && s[1] == f);
        assert(s.subrange(2, 4) =~= bytes::le_bytes(exc.len(), 2));
        assert(s.subrange(4, head) =~= lane.word_bytes(word));
        assert(s.skip(head) =~= stream + after);
        assert(patched::residuals_parse(stream + after, residuals.len()) == Ok::<_, Error>(
            (residuals, after),
        ));
    }
}

/// The bytes of a sub-block stored by digits.
pub open spec fn digit_bytes(
    lane: Lane,
    e: u8,
    f: u8,
    min: u64,
    delta: bool,
    stream: Seq<u8>,
    exc: Seq<(u64, u64)>,
) -> Seq<u8> {
    seq![
        (if delta {
            e + DELTA_FLAG
        } else {
            e as int
        }) as u8,
        f,
    ] + bytes::le_bytes(exc.len(), 2) + lane.word_bytes(float_mult::narrowed(lane, min)) + stream
        + exception_bytes(lane, exc)
}

/// The offsets of digits from `min`.
pub open spec fn offsets(digits: Seq<u64>, min: u64) -> Seq<u64> {
    Seq::new(digits.len(), |i: int| Lane::W64.diff(digits[i], min))
}

/// The packed digits: their least, whether they are deltas, and the bytes. Deltas are
/// taken where they pack smaller than the offsets from the least digit.
pub open spec fn digits_packed(digits: Seq<u64>) -> (u64, bool, Seq<u8>) {
    let min = for_bitpack::least(Lane::W64, true, digits);
    let plain = patched::residuals_image(offsets(digits, min));
    let delta = patched::residuals_image(delta_bitpack::deltas_of(Lane::W64, digits, min));
    if delta.len() < plain.len() {
        (min, true, delta)
    } else {
        (min, false, plain)
    }
}

/// The bytes of a sub-block under a plan.
#[verifier::opaque]
pub open spec fn sub_image(lane: Lane, sub: Seq<u64>, plan: SubPlan) -> Seq<u8> {
    if plan_usable(lane, plan, sub.len()) {
        let digits = kept(sub, plan->digits@, plan->words@);
        let (min, delta, stream) = digits_packed(filled(digits));
        digit_bytes(
            lane,
            plan->e,
            plan->f,
            min,
            delta,
            stream,
            exceptions_of(sub, digits, sub.len()),
        )
    } else {
        verbatim_image(lane, sub)
    }
}

/// The bytes of a verbatim sub-block.
pub open spec fn verbatim_image(lane: Lane, sub: Seq<u64>) -> Seq<u8> {
    seq![RAW_SUB] + lane.words_bytes(sub)
}

/// The sub-blocks of `vals` from `i` on, the first of them number `j`.
pub open spec fn subs_image(lane: Lane, vals: Seq<u64>, plans: Seq<SubPlan>, i: nat, j: nat) -> Seq<
    u8,
>
    decreases vals.len() - i,
{
    if i >= vals.len() {
        Seq::empty()
    } else {
        let end = i + for_bitpack::sub_count((vals.len() - i) as nat);
        let sub = vals.subrange(i as int, end as int);
        (if j < plans.len() {
            sub_image(lane, sub, plans[j as int])
        } else {
            verbatim_image(lane, sub)
        }) + subs_image(lane, vals, plans, end, j + 1)
    }
}

/// The payload of `vals` under plans.
pub open spec fn alp_image(lane: Lane, vals: Seq<u64>, plans: Seq<SubPlan>) -> Seq<u8> {
    varint::varint_bytes(vals.len()) + subs_image(lane, vals, plans, 0, 0)
}

/// Whether a plan can be carried out for `count` values.
fn usable(lane: Lane, plan: &SubPlan, count: usize) -> (r: bool)
    ensures
        r == plan_usable(lane, *plan, count as nat),
{
    match plan {
        SubPlan::Verbatim => false,
        SubPlan::Digits { e, f, digits, words } => {
            if *e > max_exp(lane) || *f > *e || digits.len() != count || words.len() != count {
                return false;
            }
            digits_fit(lane, digits)
        },
    }
}

fn digits_fit(lane: Lane, digits: &Vec<Option<u64>>) -> (r: bool)
    ensures
        r == (forall|i: int|
            0 <= i < digits@.len() ==> (#[trigger] digits@[i] matches Some(d)
                ==> float_mult::narrow_fits(lane, d))),
{
    let mut i: usize = 0;
    while i < digits.len()
        invariant
            i <= digits.len(),
            forall|j: int|
                0 <= j < i ==> (#[trigger] digits@[j] matches Some(d) ==> float_mult::narrow_fits(
                    lane,
                    d,
                )),
        decreases digits.len() - i,
    {
        if let Some(d) = digits[i] {
            if !fits_narrow(lane, d) {
                assert(digits@[i as int] == Some(d));
                return false;
            }
        }
        i = i + 1;
    }
    true
}

/// The digit that stands in for exceptions.
fn find_filler(digits: &Vec<Option<u64>>) -> (d: u64)
    ensures
        d == filler(digits@),
        digits@.contains(Some(d)) || d == 0,
{
    let mut i: usize = 0;
    assert(digits@.skip(0) =~= digits@);
    while i < digits.len()
        invariant
            i <= digits.len(),
            filler(digits@) == filler(digits@.skip(i as int)),
        decreases digits.len() - i,
    {
        assert(digits@.skip(i as int).drop_first() =~= digits@.skip(i + 1));
        if let Some(d) = digits[i] {
            assert(digits@[i as int] == Some(d));
            return d;
        }
        i = i + 1;
    }
    0
}

/// A digit for every value, and the exceptions.
fn fill(lane: Lane, sub: &[u64], digits: &Vec<Option<u64>>) -> (r: (Vec<u64>, Vec<(u64, u64)>))
    requires
        sub.len() <= BLOCK,
        digits.len() == sub.len(),
        forall|i: int|
            0 <= i < digits.len() ==> (#[trigger] digits@[i] matches Some(d)
                ==> float_mult::narrow_fits(lane, d)),
    ensures
        r.0@ == filled(digits@),
        r.1@ == exceptions_of(sub@, digits@, sub@.len()),
        forall|i: int| 0 <= i < r.0.len() ==> float_mult::narrow_fits(lane, #[trigger] r.0@[i]),
{
    let stand_in: u64 = find_filler(digits);
    assert(float_mult::narrow_fits(lane, stand_in)) by {
        if digits@.contains(Some(stand_in)) {
            let i = choose|i: int| 0 <= i < digits.len() && digits@[i] == Some(stand_in);
            assert(digits@[i] == Some(stand_in));
        }
    }
    let mut full: Vec<u64> = Vec::new();
    let mut exc: Vec<(u64, u64)> = Vec::new();
    let mut i: usize = 0;
    while i < sub.len()
        invariant
            i <= sub.len() <= BLOCK,
            digits.len() == sub.len(),
            stand_in == filler(digits@),
            float_mult::narrow_fits(lane, stand_in),
            forall|j: int|
                0 <= j < digits.len() ==> (#[trigger] digits@[j] matches Some(d)
                    ==> float_mult::narrow_fits(lane, d)),
            full.len() == i,
            forall|j: int| 0 <= j < i ==> #[trigger] full@[j] == filled(digits@)[j],
            forall|j: int| 0 <= j < i ==> float_mult::narrow_fits(lane, #[trigger] full@[j]),
            exc@ == exceptions_of(sub@, digits@, i as nat),
        decreases sub.len() - i,
    {
        assert(digits@[i as int] matches Some(d) ==> float_mult::narrow_fits(lane, d));
        match digits[i] {
            Some(d) => {
                full.push(d);
            },
            None => {
                full.push(stand_in);
                exc.push((i as u64, sub[i]));
            },
        }
        i = i + 1;
    }
    assert(full@ =~= filled(digits@));
    (full, exc)
}

/// The packed digits: their least, whether they are deltas, and the bytes.
fn pack_digits(lane: Lane, digits: &Vec<u64>) -> (r: (u64, bool, Vec<u8>, Ghost<Seq<u64>>))
    requires
        0 < digits.len() <= BLOCK,
        forall|i: int| 0 <= i < digits.len() ==> float_mult::narrow_fits(lane, #[trigger] digits@[i]),
    ensures
        (r.0, r.1, r.2@) == digits_packed(digits@),
        float_mult::narrow_fits(lane, r.0),
        digits_of(r.0, r.3@, r.1) == digits@,
        r.3@.len() == digits.len(),
        patched::residuals_encode(r.2@, r.3@),
{
    let (min, _) = extremes(Lane::W64, digits, true);
    proof {
        let i = choose|i: int| 0 <= i < digits.len() && digits@[i] == min;
        assert(float_mult::narrow_fits(lane, digits@[i]));
    }
    let mut plain: Vec<u64> = Vec::new();
    let mut i: usize = 0;
    while i < digits.len()
        invariant
            i <= digits.len(),
            plain.len() == i,
            forall|j: int|
                0 <= j < i ==> #[trigger] plain@[j] == Lane::W64.diff(digits@[j], min),
        decreases digits.len() - i,
    {
        plain.push(Lane::W64.wrapping_sub(digits[i], min));
        i = i + 1;
    }
    assert(plain@ =~= offsets(digits@, min));
    let delta = zigzag_deltas(Lane::W64, digits, min);
    let plain_bytes = pack_residuals(&plain);
    let delta_bytes = pack_residuals(&delta);
    if delta_bytes.len() < plain_bytes.len() {
        proof {
            delta_bitpack::lemma_delta_roundtrip(Lane::W64, digits@, min);
        }
        (min, true, delta_bytes, Ghost(delta@))
    } else {
        proof {
            assert forall|j: int| 0 <= j < digits.len() implies Lane::W64.sum(min, plain@[j])
                == #[trigger] digits@[j] by {
                lane::lemma_lane_diff_sum(Lane::W64, digits@[j], min);
            }
            assert(digits_of(min, plain@, false) =~= digits@);
        }
        (min, false, plain_bytes, Ghost(plain@))
    }
}

/// Append one sub-block.
fn encode_subblock(lane: Lane, sub: &[u64], plan: &SubPlan, out: &mut Vec<u8>) -> (piece: Ghost<
    Seq<u8>,
>)
    requires
        0 < sub.len() <= BLOCK,
        lane.fits_all(sub@),
    ensures
        final(out)@ == old(out)@ + piece@,
        piece@ == sub_image(lane, sub@, *plan),
        sub_encodes(lane, piece@, planned_part(lane, sub@, *plan), sub@.len()),
{
    reveal(sub_image);
    let ghost start = out@;
    if usable(lane, plan, sub.len()) {
        match plan {
            SubPlan::Verbatim => {},
            SubPlan::Digits { e, f, digits, words } => {
                let good = keep(sub, digits, words);
                proof {
                    assert forall|i: int| 0 <= i < good.len() implies (
                    #[trigger] good@[i] matches Some(d) ==> float_mult::narrow_fits(lane, d)) by {
                        assert(digits@[i] matches Some(d) ==> float_mult::narrow_fits(lane, d));
                    }
                }
                let (full, exc) = fill(lane, sub, &good);
                proof {
                    lemma_exceptions_of(sub@, good@, sub@.len());
                    assert forall|k: int| 0 <= k < exc.len() implies (#[trigger] exc@[k]).0
                        < full.len() && lane.fits(exc@[k].1) by {
                        assert(exc@[k] == exceptions_of(sub@, good@, sub@.len())[k]);
                        assert(lane.fits(sub@[exc@[k].0 as int]));
                    }
                }
                let (min, delta, stream, Ghost(residuals)) = pack_digits(lane, &full);
                proof {
                    lemma_digits_roundtrip(
                        lane,
                        *e,
                        *f,
                        full@,
                        min,
                        delta,
                        residuals,
                        stream@,
                        exc@,
                    );
                }
                out.push(
                    if delta {
                        *e + DELTA_FLAG
                    } else {
                        *e
                    },
                );
                out.push(*f);
                write_le(out, exc.len() as u64, 2);
                lane.write_word(out, narrow(lane, min));
                append_bytes(out, &stream);
                write_exceptions(lane, &exc, out);
                let ghost piece = digit_bytes(lane, *e, *f, min, delta, stream@, exc@);
                assert(out@ =~= start + piece);
                return Ghost(piece);
            },
        }
    }
    write_verbatim(lane, sub, out)
}

/// Append one sub-block verbatim.
fn write_verbatim(lane: Lane, sub: &[u64], out: &mut Vec<u8>) -> (piece: Ghost<Seq<u8>>)
    requires
        lane.fits_all(sub@),
    ensures
        final(out)@ == old(out)@ + piece@,
        piece@ == verbatim_image(lane, sub@),
        sub_encodes(lane, piece@, PartView::Verbatim(sub@), sub@.len()),
{
    let ghost start = out@;
    out.push(RAW_SUB);
    lane.write_words(out, sub);
    let ghost piece = seq![RAW_SUB] + lane.words_bytes(sub@);
    proof {
        lane::lemma_words_roundtrip(lane, sub@);
        lane::lemma_words_bytes_len(lane, sub@);
        assert forall|rest: Seq<u8>|
            #[trigger] sub_parse(lane, piece + rest, sub@.len()) == Ok::<_, Error>(
                (PartView::Verbatim(sub@), rest),
            ) by {
            let s = piece + rest;
            let end = 1 + sub@.len() * lane.bytes();
            assert(s.subrange(1, end) =~= lane.words_bytes(sub@));
            assert(s.skip(end) =~= rest);
        }
        assert(out@ =~= start + piece);
    }
    Ghost(piece)
}

/// Pieces that each read back as a part give the list of parts back.
proof fn lemma_pieces(
    lane: Lane,
    n: nat,
    parts: Seq<PartView>,
    pieces: Seq<Seq<u8>>,
    k: nat,
)
    requires
        parts.len() == sub_blocks(n),
        pieces.len() == parts.len(),
        k <= pieces.len(),
        forall|j: int|
            0 <= j < pieces.len() ==> sub_encodes(
                lane,
                #[trigger] pieces[j],
                parts[j],
                for_bitpack::sub_count((n - j * BLOCK) as nat),
            ),
    ensures
        k < pieces.len() ==> parts_parse(
            lane,
            pieces.skip(k as int).flatten(),
            (n - k * BLOCK) as nat,
        ) == Ok::<_, Error>(parts.skip(k as int)),
    decreases pieces.len() - k,
{
    if k < pieces.len() {
        lemma_pieces(lane, n, parts, pieces, k + 1);
        let s = pieces.skip(k as int);
        let rest = pieces.skip(k as int + 1).flatten();
        let left = (n - k * BLOCK) as nat;
        assert(s.drop_first() =~= pieces.skip(k as int + 1));
        assert(s.flatten() == pieces[k as int] + rest);
        assert(sub_encodes(lane, pieces[k as int], parts[k as int], for_bitpack::sub_count(left)));
        assert(sub_parse(lane, pieces[k as int] + rest, for_bitpack::sub_count(left)) == Ok::<
            _,
            Error,
        >((parts[k as int], rest)));
        if k + 1 < pieces.len() {
            assert(left > BLOCK);
            assert((n - (k + 1) * BLOCK) as nat == left - BLOCK);
            assert(seq![parts[k as int]] + parts.skip(k as int + 1) =~= parts.skip(k as int));
        } else {
            assert(for_bitpack::sub_count(left) == left);
            assert(parts_parse(lane, rest, 0) == Ok::<_, Error>(Seq::<PartView>::empty()));
            assert(seq![parts[k as int]] + Seq::<PartView>::empty() =~= parts.skip(k as int));
        }
    }
}

/// Store a block by plans, one per sub-block; a sub-block whose plan is missing
/// or cannot be carried out is stored verbatim.
pub fn encode(lane: Lane, vals: &[u64], plans: &[SubPlan]) -> (r: Option<Vec<u8>>)
    requires
        lane.fits_all(vals@),
    ensures
        r is None <==> vals.len() == 0,
        r matches Some(out) ==> out@ == alp_image(lane, vals@, plans@),
        r matches Some(out) ==> alp_parsed(lane, out@, vals@.len()) == Ok::<_, Error>(
            planned_parts(lane, vals@, plans@),
        ),
        r matches Some(out) ==> forall|n: nat|
            n != vals@.len() ==> #[trigger] alp_parsed(lane, out@, n) == Err::<Seq<PartView>, _>(
                Error::CorruptPayload("alp length mismatch"),
            ),
        r matches Some(out) ==> forall|eval: spec_fn(u64, u8, u8) -> u64|
            plans_evaluated(plans@, eval) ==> #[trigger] alp_decoded(
                lane,
                out@,
                vals@.len(),
                eval,
            ) == Ok::<_, Error>(vals@),
{
    if vals.len() == 0 {
        return None;
    }
    let ghost n = vals@.len();
    let ghost parts = planned_parts(lane, vals@, plans@);
    let mut out: Vec<u8> = Vec::new();
    varint::write_u64(&mut out, vals.len() as u64);
    let ghost head = out@;
    let ghost mut pieces: Seq<Seq<u8>> = Seq::empty();
    let mut i: usize = 0;
    let mut j: usize = 0;
    assert(head + pieces.flatten() =~= head);
    while i < vals.len()
        invariant
            i <= vals.len(),
            n == vals@.len(),
            lane.fits_all(vals@),
            parts == planned_parts(lane, vals@, plans@),
            pieces.len() == j,
            j <= i,
            i < vals.len() ==> i == j * BLOCK,
            i == vals.len() ==> j == sub_blocks(n),
            out@ == head + pieces.flatten(),
            out@ + subs_image(lane, vals@, plans@, i as nat, j as nat) == head + subs_image(
                lane,
                vals@,
                plans@,
                0,
                0,
            ),
            forall|k: int|
                0 <= k < pieces.len() ==> sub_encodes(
                    lane,
                    #[trigger] pieces[k],
                    parts[k],
                    for_bitpack::sub_count((n - k * BLOCK) as nat),
                ),
        decreases vals.len() - i,
    {
        let end: usize = if vals.len() - i > BLOCK {
            i + BLOCK
        } else {
            vals.len()
        };
        let sub = vstd::slice::slice_subrange(vals, i, end);
        proof {
            assert forall|k: int| 0 <= k < sub@.len() implies lane.fits(#[trigger] sub@[k]) by {
                assert(lane.fits(vals@[i + k]));
            }
            assert(sub@ =~= sub_at(vals@, j as int));
            assert(j < sub_blocks(n));
        }
        let ghost before = pieces;
        let ghost was = out@;
        let Ghost(piece) = if j < plans.len() {
            encode_subblock(lane, sub, &plans[j], &mut out)
        } else {
            write_verbatim(lane, sub, &mut out)
        };
        proof {
            pieces = before.push(piece);
            before.lemma_flatten_push(piece);
            assert(out@ =~= head + pieces.flatten());
            assert(sub@.len() == for_bitpack::sub_count((n - j * BLOCK) as nat));
            let tail = subs_image(lane, vals@, plans@, end as nat, j as nat + 1);
            assert(was + (piece + tail) =~= out@ + tail);
            assert forall|k: int| 0 <= k < pieces.len() implies sub_encodes(
                lane,
                #[trigger] pieces[k],
                parts[k],
                for_bitpack::sub_count((n - k * BLOCK) as nat),
            ) by {
                if k < before.len() {
                    assert(sub_encodes(
                        lane,
                        before[k],
                        parts[k],
                        for_bitpack::sub_count((n - k * BLOCK) as nat),
                    ));
                }
            }
        }
        i = end;
        j = j + 1;
    }
    proof {
        assert(out@ + Seq::<u8>::empty() =~= out@);
        lemma_pieces(lane, n, parts, pieces, 0);
        assert(pieces.skip(0) =~= pieces);
        assert(parts.skip(0) =~= parts);
        varint::lemma_varint_roundtrip(vals.len() as u64, pieces.flatten());
        assert forall|eval: spec_fn(u64, u8, u8) -> u64|
            plans_evaluated(plans@, eval) implies #[trigger] alp_decoded(
            lane,
            out@,
            vals@.len(),
            eval,
        ) == Ok::<_, Error>(vals@) by {
            lemma_alp_lossless(lane, vals@, plans@, eval);
        }
    }
    Some(out)
}

/// A part of `count` values whose words belong to the lane and whose exceptions
/// lie in range.
pub open spec fn part_ok(lane: Lane, p: PartView, count: nat) -> bool {
    match p {
        PartView::Verbatim(words) => words.len() == count && lane.fits_all(words),
        PartView::Digits { e, f, digits, exceptions } => {
            &&& f <= e <= max_exp(lane)
            &&& digits.len() == count
            &&& forall|k: int|
                0 <= k < exceptions.len() ==> (#[trigger] exceptions[k]).0 < count && lane.fits(
                    exceptions[k].1,
                )
        },
    }
}

/// Read `k` exceptions.
fn read_exceptions(lane: Lane, src: &[u8], pos: &mut usize, k: usize, count: usize) -> (r: Result<
    Vec<(u64, u64)>,
    Error,
>)
    requires
        *old(pos) <= src.len(),
    ensures
        match exceptions_parse(lane, src@.skip(*old(pos) as int), k as nat, count as nat) {
            Err(e) => r == Err::<Vec<(u64, u64)>, Error>(e),
            Ok((exc, rest)) => r is Ok && r->Ok_0@ == exc && *final(pos) <= src.len()
                && src@.skip(*final(pos) as int) == rest,
        },
        r matches Ok(v) ==> forall|j: int|
            0 <= j < v.len() ==> (#[trigger] v@[j]).0 < count && lane.fits(v@[j].1),
{
    let ghost whole = exceptions_parse(lane, src@.skip(*pos as int), k as nat, count as nat);
    let size: usize = 2 + lane.bytes();
    let mut out: Vec<(u64, u64)> = Vec::new();
    let mut i: usize = 0;
    proof {
        if let Ok((t, rest)) = whole {
            assert(Seq::<(u64, u64)>::empty() + t =~= t);
        }
    }
    while i < k
        invariant
            i <= k,
            *pos <= src.len(),
            size == 2 + lane.bytes(),
            whole == exceptions_parse(lane, src@.skip(*old(pos) as int), k as nat, count as nat),
            whole == (match exceptions_parse(
                lane,
                src@.skip(*pos as int),
                (k - i) as nat,
                count as nat,
            ) {
                Err(e) => Err::<(Seq<(u64, u64)>, Seq<u8>), Error>(e),
                Ok((t, rest)) => Ok::<_, Error>((out@ + t, rest)),
            }),
            forall|j: int|
                0 <= j < out.len() ==> (#[trigger] out@[j]).0 < count && lane.fits(out@[j].1),
        decreases k - i,
    {
        if src.len() - *pos < size {
            return Err(Error::Truncated);
        }
        let p: u64 = read_le(src, *pos, 2);
        let w: u64 = lane.read_word(src, *pos + 2);
        proof {
            let s = src@.skip(*pos as int);
            assert(s.take(2) =~= src@.subrange(*pos as int, *pos + 2));
            assert(s.subrange(2, size as int) =~= src@.subrange(*pos + 2, *pos + size));
            assert(s.skip(size as int) =~= src@.skip(*pos + size));
        }
        if p >= count as u64 {
            return Err(Error::CorruptPayload("alp exception position"));
        }
        let ghost before = out@;
        out.push((p, w));
        *pos = *pos + size;
        proof {
            if let Ok((t, end)) = exceptions_parse(
                lane,
                src@.skip(*pos as int),
                (k - i - 1) as nat,
                count as nat,
            ) {
                assert(before + (seq![(p, w)] + t) =~= out@ + t);
            }
        }
        i = i + 1;
    }
    assert(out@ + Seq::<(u64, u64)>::empty() =~= out@);
    Ok(out)
}

/// Read the part of `count` values at `pos`, and move past it.
fn parse_subblock(lane: Lane, src: &[u8], pos: &mut usize, count: usize) -> (r: Result<Part, Error>)
    requires
        *old(pos) <= src.len(),
        count <= BLOCK,
    ensures
        match sub_parse(lane, src@.skip(*old(pos) as int), count as nat) {
            Err(e) => r == Err::<Part, Error>(e),
            Ok((part, rest)) => r is Ok && r->Ok_0@ == part && *final(pos) <= src.len()
                && src@.skip(*final(pos) as int) == rest,
        },
        r matches Ok(p) ==> part_ok(lane, p@, count as nat),
{
    let ghost s = src@.skip(*pos as int);
    let ghost from = *pos;
    let width: usize = lane.bytes();
    if *pos < src.len() && src[*pos] == RAW_SUB {
        let size: usize = count * width;
        if src.len() - *pos - 1 < size {
            return Err(Error::Truncated);
        }
        let at: usize = *pos + 1;
        let image = vstd::slice::slice_subrange(src, at, at + size);
        let words = lane.from_le_image(image);
        proof {
            lane::lemma_words_of_len(lane, image@, count as nat);
            assert(image@ =~= s.subrange(1, 1 + size as int));
            assert(s.skip(1 + size as int) =~= src@.skip(at + size));
        }
        *pos = at + size;
        return Ok(Part::Verbatim(words));
    }
    let head: usize = 4 + width;
    if src.len() - *pos < head {
        return Err(Error::Truncated);
    }
    let first: u8 = src[*pos];
    let delta: bool = (first / DELTA_FLAG) % 2 == 1;
    let e: u8 = if delta {
        first - DELTA_FLAG
    } else {
        first
    };
    let f: u8 = src[*pos + 1];
    if e > max_exp(lane) || f > e {
        return Err(Error::CorruptPayload("alp exponent/factor"));
    }
    let k: u64 = read_le(src, *pos + 2, 2);
    let word: u64 = lane.read_word(src, *pos + 4);
    let min: u64 = widen(lane, word);
    proof {
        assert(s.subrange(2, 4) =~= src@.subrange(from + 2, from + 4));
        assert(s.subrange(4, head as int) =~= src@.subrange(from + 4, from + head));
        assert(s.skip(head as int) =~= src@.skip(from + head));
        bytes::lemma_pow256_values();
    }
    *pos = *pos + head;
    let residuals: Vec<u64> = match unpack_residuals(src, pos, count) {
        Err(e) => return Err(e),
        Ok(v) => v,
    };
    let exceptions: Vec<(u64, u64)> = match read_exceptions(lane, src, pos, k as usize, count) {
        Err(e) => return Err(e),
        Ok(v) => v,
    };
    let digits = restore_digits(min, &residuals, delta);
    Ok(Part::Digits { e, f, digits, exceptions })
}

/// The digits that packed residuals stand for.
fn restore_digits(min: u64, residuals: &Vec<u64>, delta: bool) -> (digits: Vec<u64>)
    ensures
        digits@ == digits_of(min, residuals@, delta),
        digits.len() == residuals.len(),
{
    if delta {
        return running_sums(Lane::W64, residuals, min);
    }
    let mut digits: Vec<u64> = Vec::new();
    let mut i: usize = 0;
    while i < residuals.len()
        invariant
            i <= residuals.len(),
            digits.len() == i,
            forall|j: int| 0 <= j < i ==> #[trigger] digits@[j] == Lane::W64.sum(min, residuals@[j]),
        decreases residuals.len() - i,
    {
        digits.push(Lane::W64.wrapping_add(min, residuals[i]));
        i = i + 1;
    }
    assert(digits@ =~= digits_of(min, residuals@, delta));
    digits
}

/// Number of values that part `j` of `n` values holds.
pub open spec fn part_count(n: nat, j: int) -> nat {
    for_bitpack::sub_count((n - j * BLOCK) as nat)
}

/// Read the parts of `n` values.
pub fn parse(lane: Lane, payload: &[u8], n: usize) -> (r: Result<Vec<Part>, Error>)
    ensures
        match alp_parsed(lane, payload@, n as nat) {
            Err(e) => r == Err::<Vec<Part>, Error>(e),
            Ok(parts) => r is Ok && parts_view(r->Ok_0@) == parts,
        },
        r matches Ok(parts) ==> parts.len() == sub_blocks(n as nat) && forall|j: int|
            0 <= j < parts.len() ==> part_ok(lane, (#[trigger] parts@[j])@, part_count(n as nat, j)),
{
    let mut pos: usize = 0;
    assert(payload@.skip(0) =~= payload@);
    let len: u64 = match varint::read_u64(payload, &mut pos) {
        Err(e) => return Err(e),
        Ok(v) => v,
    };
    if len != n as u64 {
        return Err(Error::CorruptPayload("alp length mismatch"));
    }
    let ghost whole = alp_parsed(lane, payload@, n as nat);
    let mut parts: Vec<Part> = Vec::new();
    let mut done: usize = 0;
    proof {
        if let Ok(t) = whole {
            assert(parts_view(parts@) + t =~= t);
        }
    }
    while done < n
        invariant
            done <= n,
            pos <= payload.len(),
            whole == alp_parsed(lane, payload@, n as nat),
            done < n ==> done == parts.len() * BLOCK,
            done == n ==> parts.len() == sub_blocks(n as nat),
            whole == (match parts_parse(lane, payload@.skip(pos as int), (n - done) as nat) {
                Err(e) => Err::<Seq<PartView>, Error>(e),
                Ok(t) => Ok::<_, Error>(parts_view(parts@) + t),
            }),
            forall|j: int|
                0 <= j < parts.len() ==> part_ok(
                    lane,
                    (#[trigger] parts@[j])@,
                    part_count(n as nat, j),
                ),
        decreases n - done,
    {
        let count: usize = if n - done < BLOCK {
            n - done
        } else {
            BLOCK
        };
        let ghost before = parts@;
        let part: Part = match parse_subblock(lane, payload, &mut pos, count) {
            Err(e) => return Err(e),
            Ok(p) => p,
        };
        parts.push(part);
        done = done + count;
        proof {
            if let Ok(t) = parts_parse(lane, payload@.skip(pos as int), (n - done) as nat) {
                assert(parts_view(before) + (seq![part@] + t) =~= parts_view(parts@) + t);
            }
        }
    }
    assert(parts_view(parts@) + Seq::<PartView>::empty() =~= parts_view(parts@));
    Ok(parts)
}

/// `n` evaluated digits are as many as the part has, and its exceptions lie
/// among them.
pub open spec fn evaluation_fits(p: PartView, n: nat) -> bool {
    match p {
        PartView::Verbatim(_) => true,
        PartView::Digits { e, f, digits, exceptions } => {
            &&& digits.len() == n
            &&& forall|k: int| 0 <= k < exceptions.len() ==> (#[trigger] exceptions[k]).0 < n
        },
    }
}

/// The words of a part, `evaluated` being the values of its digits.
pub fn finish_part(part: &Part, evaluated: &[u64]) -> (words: Vec<u64>)
    requires
        evaluation_fits(part@, evaluated@.len()),
    ensures
        words@ == (match part@ {
            PartView::Verbatim(w) => w,
            PartView::Digits { e, f, digits, exceptions } => patched_words(
                evaluated@,
                exceptions,
                0,
            ),
        }),
{
    match part {
        Part::Verbatim(words) => {
            let mut out: Vec<u64> = Vec::new();
            out.extend_from_slice(words);
            assert(out@ =~= words@);
            out
        },
        Part::Digits { exceptions, .. } => {
            proof {
                match part@ {
                    PartView::Verbatim(_) => {
                        assert(false);
                    },
                    PartView::Digits { e, f, digits, exceptions: exc } => {
                        assert(exc == exceptions@);
                        assert(evaluation_fits(part@, evaluated@.len()));
                        assert(digits.len() == evaluated@.len());
                        assert forall|k: int| 0 <= k < exceptions@.len() implies (
                        #[trigger] exceptions@[k]).0 < evaluated@.len() by {
                            assert(exc[k].0 < evaluated@.len());
                        }
                    },
                }
            }
            patch(evaluated, exceptions)
        },
    }
}

fn patch(words: &[u64], exceptions: &Vec<(u64, u64)>) -> (out: Vec<u64>)
    requires
        forall|k: int| 0 <= k < exceptions@.len() ==> (#[trigger] exceptions@[k]).0 < words@.len(),
    ensures
        out@ == patched_words(words@, exceptions@, 0),
{
    let mut out: Vec<u64> = Vec::new();
    out.extend_from_slice(words);
    assert(out@ =~= words@);
    let mut k: usize = 0;
    while k < exceptions.len()
        invariant
            k <= exceptions.len(),
            out.len() == words.len(),
            forall|j: int|
                0 <= j < exceptions.len() ==> (#[trigger] exceptions@[j]).0 < words.len(),
            patched_words(out@, exceptions@, k as nat) == patched_words(words@, exceptions@, 0),
        decreases exceptions.len() - k,
    {
        let (p, w) = exceptions[k];
        assert(exceptions@[k as int].0 < words.len());
        out.set(p as usize, w);
        k = k + 1;
    }
    out
}

} // verus!
