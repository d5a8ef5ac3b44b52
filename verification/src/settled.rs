//! What is written is settled by what is given: the competition for a block has one
//! outcome, ties included, and a column has one stream, as far as `pco` makes the same of
//! the same block in every run.

use vstd::prelude::*;
use crate::bytes;
use crate::codecs::pcodec;
use crate::column;
use crate::column::ColumnView;
use crate::config::{Config, Level, Selection};
use crate::decimal;
use crate::decimal::ContainerView;
use crate::decoder;
use crate::decoder::float_frame;
use crate::dtype::DType;
use crate::encoder;
use crate::encoder::{Candidate, FloatOffer, Terms, SAMPLE_MODES};
use crate::features;
use crate::format::max_block_values;
use crate::mode::Mode;
use crate::selection;
use crate::validity;

verus! {

/// Two candidates are the same: of one mode and one offer, with the same payload.
pub open spec fn same(a: Candidate, b: Candidate) -> bool {
    &&& a.mode == b.mode
    &&& a.source == b.source
    &&& a.payload@ == b.payload@
}

/// `c` is among `cands`.
pub open spec fn found(cands: Seq<Candidate>, c: Candidate) -> bool {
    exists|j: int| 0 <= j < cands.len() && same(c, #[trigger] cands[j])
}

/// Every candidate of `a` is among `b`.
#[verifier::opaque]
pub open spec fn all_found(a: Seq<Candidate>, b: Seq<Candidate>) -> bool {
    forall|i: int| 0 <= i < a.len() ==> found(b, #[trigger] a[i])
}

/// Two lists are the same, candidate by candidate.
pub open spec fn same_list(a: Seq<Candidate>, b: Seq<Candidate>) -> bool {
    &&& a.len() == b.len()
    &&& forall|i: int| 0 <= i < a.len() ==> same(#[trigger] a[i], b[i])
}

/// `a` is considered before `b`.
spec fn before(whole: bool, a: Candidate, b: Candidate) -> bool {
    ||| encoder::place(whole, a.mode) < encoder::place(whole, b.mode)
    ||| a.mode == b.mode && a.source < b.source
}

proof fn lemma_before(whole: bool, cands: Seq<Candidate>, i: int, j: int)
    requires
        encoder::in_order(whole, cands),
        0 <= i < j < cands.len(),
    ensures
        before(whole, cands[i], cands[j]),
        !same(cands[i], cands[j]),
{
}

/// Where two lists in order are the same up to place `k`, and hold each other's
/// candidate there, they are the same there.
proof fn lemma_same_at(whole: bool, a: Seq<Candidate>, b: Seq<Candidate>, k: int, p: int, q: int)
    requires
        encoder::in_order(whole, a),
        encoder::in_order(whole, b),
        0 <= k < a.len(),
        k < b.len(),
        0 <= p < b.len(),
        0 <= q < a.len(),
        same(a[k], b[p]),
        same(b[k], a[q]),
        p < k ==> same(a[p], b[p]),
        q < k ==> same(a[q], b[q]),
    ensures
        same(a[k], b[k]),
{
    if p < k {
        lemma_before(whole, a, p, k);
    } else if q < k {
        lemma_before(whole, b, q, k);
    } else if p > k {
        lemma_before(whole, b, k, p);
        if q > k {
            lemma_before(whole, a, k, q);
        }
    }
}

/// Lists in order that hold the same candidates are the same up to place `n`.
proof fn lemma_same_front(whole: bool, a: Seq<Candidate>, b: Seq<Candidate>, n: nat)
    requires
        encoder::in_order(whole, a),
        encoder::in_order(whole, b),
        all_found(a, b),
        all_found(b, a),
        n <= a.len(),
        n <= b.len(),
    ensures
        forall|i: int| 0 <= i < n ==> same(#[trigger] a[i], b[i]),
    decreases n,
{
    if n > 0 {
        let k = n - 1;
        lemma_same_front(whole, a, b, k as nat);
        let (p, q) = lemma_places(a, b, k);
        assert(p < k ==> same(a[p], b[p]));
        assert(q < k ==> same(a[q], b[q]));
        lemma_same_at(whole, a, b, k, p, q);
    }
}

/// Where the candidates at place `k` of two lists are found in the other.
proof fn lemma_places(a: Seq<Candidate>, b: Seq<Candidate>, k: int) -> (r: (int, int))
    requires
        all_found(a, b),
        all_found(b, a),
        0 <= k < a.len(),
        k < b.len(),
    ensures
        0 <= r.0 < b.len(),
        0 <= r.1 < a.len(),
        same(a[k], b[r.0]),
        same(b[k], a[r.1]),
{
    reveal(all_found);
    assert(found(b, a[k]));
    assert(found(a, b[k]));
    (
        choose|j: int| 0 <= j < b.len() && same(a[k], #[trigger] b[j]),
        choose|j: int| 0 <= j < a.len() && same(b[k], #[trigger] a[j]),
    )
}

/// Lists in order that hold the same candidates are the same.
proof fn lemma_same_list(whole: bool, a: Seq<Candidate>, b: Seq<Candidate>)
    requires
        encoder::in_order(whole, a),
        encoder::in_order(whole, b),
        all_found(a, b),
        all_found(b, a),
    ensures
        same_list(a, b),
{
    if a.len() <= b.len() {
        lemma_same_front(whole, a, b, a.len());
        if a.len() < b.len() {
            let k = a.len() as int;
            assert(found(a, b[k])) by {
                reveal(all_found);
            }
            let q = choose|j: int| 0 <= j < a.len() && same(b[k], #[trigger] a[j]);
            assert(same(a[q], b[q]));
            assert(b[q].mode == b[k].mode);
            assert(false);
        }
    } else {
        lemma_same_front(whole, a, b, b.len());
        let k = b.len() as int;
        assert(found(b, a[k])) by {
            reveal(all_found);
        }
        let p = choose|j: int| 0 <= j < b.len() && same(a[k], #[trigger] b[j]);
        assert(same(a[p], b[p]));
        assert(a[p].mode == a[k].mode);
        assert(false);
    }
}

/// A candidate that needs no offer has the payload that its mode, or `pco`, makes; so it
/// is among every list that has its mode.
proof fn lemma_found_by_mode(
    t: Terms,
    level: Level,
    pco: Option<Seq<u8>>,
    a: Seq<Candidate>,
    b: Seq<Candidate>,
    i: int,
)
    requires
        0 <= i < a.len(),
        encoder::all_stand(t, a),
        encoder::all_stand(t, b),
        encoder::all_made(t, level, a),
        encoder::all_made(t, level, b),
        encoder::pco_enters(t, pco, a),
        encoder::pco_enters(t, pco, b),
        !float_frame(a[i].mode, t.dtype),
        a[i].mode is Pco || encoder::has_mode(b, a[i].mode),
    ensures
        found(b, a[i]),
{
    let c = a[i];
    assert(encoder::stands(t, c) && encoder::made(t, level, c));
    if c.mode is Pco {
        assert(c.mode == Mode::Pco);
        assert(encoder::has_mode(a, Mode::Pco));
        assert(encoder::has_mode(b, Mode::Pco));
    }
    let j = choose|j: int| 0 <= j < b.len() && (#[trigger] b[j]).mode == c.mode;
    assert(encoder::stands(t, b[j]) && encoder::made(t, level, b[j]));
    assert(same(c, b[j]));
}

/// A candidate that comes of an offer comes of a usable one, and is among every list in
/// which that offer is listed.
proof fn lemma_found_by_offer(t: Terms, b: Seq<Candidate>, c: Candidate)
    requires
        encoder::stands(t, c),
        float_frame(c.mode, t.dtype),
    ensures
        0 <= c.source < t.offers.len(),
        t.offers[c.source as int].mode == c.mode,
        encoder::usable_offer(t, t.offers[c.source as int]),
        encoder::listed(t, b, c.source as int) ==> found(b, c),
{
    reveal(decoder::frame_decoded);
    if encoder::listed(t, b, c.source as int) {
        let j = choose|j: int|
            0 <= j < b.len() && (#[trigger] b[j]).mode == t.offers[c.source as int].mode
                && b[j].source == c.source && b[j].payload@ == t.offers[c.source as int].payload@;
        assert(same(c, b[j]));
    }
}

/// A candidate of one full competition stands in another over the same block, if it is
/// an early one or the two agree on whether the block is compressible.
proof fn lemma_full_found(
    t: Terms,
    level: Level,
    pco: Option<Seq<u8>>,
    a: Seq<Candidate>,
    b: Seq<Candidate>,
    i: int,
)
    requires
        0 <= i < a.len(),
        encoder::full_pool(t, level, a),
        encoder::full_pool(t, level, b),
        encoder::pco_enters(t, pco, a),
        encoder::pco_enters(t, pco, b),
        encoder::early_mode(a[i].mode) || encoder::block_shrank(t, a) == encoder::block_shrank(
            t,
            b,
        ),
    ensures
        found(b, a[i]),
{
    reveal(encoder::full_pool);
    let c = a[i];
    assert(encoder::stands(t, c) && encoder::made(t, level, c));
    if encoder::skips_competition(t.dtype, t.block) {
        assert(encoder::stands(t, b[0]));
        assert(same(c, b[0]));
    } else if float_frame(c.mode, t.dtype) {
        lemma_found_by_offer(t, b, c);
        assert(encoder::offer_competes(t, level, t.offers[c.source as int]));
    } else {
        if c.mode !is Pco {
            assert(encoder::rule(t, level, encoder::block_shrank(t, a), a[i].mode));
            assert(encoder::competes(t, level, encoder::block_shrank(t, b), c.mode));
        }
        lemma_found_by_mode(t, level, pco, a, b, i);
    }
}

/// Full competitions over the same block agree on whether it is compressible.
proof fn lemma_full_shrank(
    t: Terms,
    level: Level,
    pco: Option<Seq<u8>>,
    a: Seq<Candidate>,
    b: Seq<Candidate>,
)
    requires
        encoder::full_pool(t, level, a),
        encoder::full_pool(t, level, b),
        encoder::pco_enters(t, pco, a),
        encoder::pco_enters(t, pco, b),
    ensures
        encoder::block_shrank(t, a) ==> encoder::block_shrank(t, b),
{
    if encoder::block_shrank(t, a) {
        let i = choose|i: int|
            0 <= i < a.len() && encoder::early_mode((#[trigger] a[i]).mode) && encoder::shrank(
                t,
                a[i].payload@.len(),
            );
        lemma_full_found(t, level, pco, a, b, i);
        let j = choose|j: int| 0 <= j < b.len() && same(a[i], #[trigger] b[j]);
        assert(encoder::early_mode(b[j].mode));
    }
}

/// A full competition over a block has one list of candidates.
pub proof fn lemma_full_settled(
    t: Terms,
    level: Level,
    pco: Option<Seq<u8>>,
    a: Seq<Candidate>,
    b: Seq<Candidate>,
)
    requires
        encoder::full_pool(t, level, a),
        encoder::full_pool(t, level, b),
        encoder::pco_enters(t, pco, a),
        encoder::pco_enters(t, pco, b),
    ensures
        same_list(a, b),
{
    lemma_full_shrank(t, level, pco, a, b);
    lemma_full_shrank(t, level, pco, b, a);
    assert(all_found(a, b)) by {
        reveal(all_found);
        assert forall|i: int| 0 <= i < a.len() implies found(b, #[trigger] a[i]) by {
            lemma_full_found(t, level, pco, a, b, i);
        }
    }
    assert(all_found(b, a)) by {
        reveal(all_found);
        assert forall|i: int| 0 <= i < b.len() implies found(a, #[trigger] b[i]) by {
            lemma_full_found(t, level, pco, b, a, i);
        }
    }
    assert(encoder::in_order(true, a) && encoder::in_order(true, b)) by {
        reveal(encoder::full_pool);
    }
    lemma_same_list(true, a, b);
}

/// A mode has one size on the sample.
proof fn lemma_one_estimate(
    t: Terms,
    level: Level,
    mode: Mode,
    x: Option<usize>,
    y: Option<usize>,
)
    requires
        encoder::estimates(t, level, mode, x),
        encoder::estimates(t, level, mode, y),
    ensures
        x == y,
{
    if encoder::is_ranked(t, level, mode) && float_frame(mode, t.dtype) {
        if x is Some {
            let j = choose|j: int| #[trigger]
                encoder::first_offer(t, mode, j) && x->Some_0 == t.offers[j].estimate;
            assert(t.offers[j].mode == mode);
            if y is Some {
                let k = choose|k: int| #[trigger]
                    encoder::first_offer(t, mode, k) && y->Some_0 == t.offers[k].estimate;
                assert(t.offers[k].mode == mode);
                assert(j == k);
            }
        } else if y is Some {
            let k = choose|k: int| #[trigger]
                encoder::first_offer(t, mode, k) && y->Some_0 == t.offers[k].estimate;
            assert(t.offers[k].mode == mode);
        }
    }
}

/// One mode does best on the sample.
proof fn lemma_one_best(t: Terms, level: Level, x: Option<Mode>, y: Option<Mode>)
    requires
        encoder::best_on_sample(t, level, x),
        encoder::best_on_sample(t, level, y),
    ensures
        x == y,
{
    let e = choose|e: Seq<Option<usize>>| #[trigger]
        encoder::all_estimated(t, level, e, SAMPLE_MODES as int) && encoder::leads(e, x);
    let f = choose|f: Seq<Option<usize>>| #[trigger]
        encoder::all_estimated(t, level, f, SAMPLE_MODES as int) && encoder::leads(f, y);
    assert forall|i: int| 0 <= i < e.len() implies #[trigger] e[i] == f[i] by {
        lemma_one_estimate(t, level, encoder::sample_modes()[i], e[i], f[i]);
    }
    assert(e =~= f);
    if x is Some {
        let u = choose|u: int| #[trigger]
            encoder::leads_at(e, u) && x->Some_0 == encoder::sample_modes()[u];
        assert(e[u] is Some);
        if y is Some {
            let v = choose|v: int| #[trigger]
                encoder::leads_at(e, v) && y->Some_0 == encoder::sample_modes()[v];
            assert(e[v] is Some);
        }
    } else if y is Some {
        let v = choose|v: int| #[trigger]
            encoder::leads_at(e, v) && y->Some_0 == encoder::sample_modes()[v];
        assert(e[v] is Some);
    }
}

/// A candidate of one competition by sample stands in another over the same block.
proof fn lemma_sampled_found(
    t: Terms,
    level: Level,
    pco: Option<Seq<u8>>,
    a: Seq<Candidate>,
    b: Seq<Candidate>,
    i: int,
)
    requires
        0 <= i < a.len(),
        encoder::sampled_pool(t, level, a),
        encoder::sampled_pool(t, level, b),
        encoder::pco_enters(t, pco, a),
        encoder::pco_enters(t, pco, b),
    ensures
        found(b, a[i]),
{
    reveal(encoder::sampled_pool);
    let x = choose|x: Option<Mode>| #[trigger]
        encoder::best_on_sample(t, level, x) && encoder::sampled_candidates(t, level, x, a);
    let y = choose|y: Option<Mode>| #[trigger]
        encoder::best_on_sample(t, level, y) && encoder::sampled_candidates(t, level, y, b);
    lemma_one_best(t, level, x, y);
    let c = a[i];
    assert(encoder::stands(t, c) && encoder::made(t, level, c));
    assert(encoder::skips_sample(t, level, c.mode) || x == Some(c.mode));
    if float_frame(c.mode, t.dtype) {
        lemma_found_by_offer(t, b, c);
        assert(encoder::listed(t, b, c.source as int)) by {
            assert(encoder::usable_offer(t, t.offers[c.source as int]));
        }
    } else {
        lemma_found_by_mode(t, level, pco, a, b, i);
    }
}

/// A competition by sample over a block has one list of candidates.
pub proof fn lemma_sampled_settled(
    t: Terms,
    level: Level,
    pco: Option<Seq<u8>>,
    a: Seq<Candidate>,
    b: Seq<Candidate>,
)
    requires
        encoder::sampled_pool(t, level, a),
        encoder::sampled_pool(t, level, b),
        encoder::pco_enters(t, pco, a),
        encoder::pco_enters(t, pco, b),
    ensures
        same_list(a, b),
{
    assert(all_found(a, b)) by {
        reveal(all_found);
        assert forall|i: int| 0 <= i < a.len() implies found(b, #[trigger] a[i]) by {
            lemma_sampled_found(t, level, pco, a, b, i);
        }
    }
    assert(all_found(b, a)) by {
        reveal(all_found);
        assert forall|i: int| 0 <= i < b.len() implies found(a, #[trigger] b[i]) by {
            lemma_sampled_found(t, level, pco, b, a, i);
        }
    }
    assert(encoder::in_order(false, a) && encoder::in_order(false, b)) by {
        reveal(encoder::sampled_pool);
    }
    lemma_same_list(false, a, b);
}

/// The competition for a block has one outcome, ties included, given what `pco` made of
/// the block.
pub proof fn lemma_block_settled(
    t: Terms,
    cfg: Config,
    pco: Option<Seq<u8>>,
    a: Seq<Candidate>,
    b: Seq<Candidate>,
    x: Candidate,
    y: Candidate,
)
    requires
        encoder::pool(t, cfg, a),
        encoder::pool(t, cfg, b),
        encoder::pco_enters(t, pco, a),
        encoder::pco_enters(t, pco, b),
        encoder::wins(t.dtype, cfg.level.lambda(), cfg.spec_decode_bias(), a, x),
        encoder::wins(t.dtype, cfg.level.lambda(), cfg.spec_decode_bias(), b, y),
    ensures
        x.mode == y.mode,
        x.payload@ == y.payload@,
{
    match cfg.selection {
        Selection::Full => lemma_full_settled(t, cfg.level, pco, a, b),
        Selection::Sample => lemma_sampled_settled(t, cfg.level, pco, a, b),
    }
    let (lane, lambda, bias) = (t.dtype.lane(), cfg.level.lambda(), cfg.spec_decode_bias());
    assert(encoder::sizes_of(a) =~= encoder::sizes_of(b)) by {
        assert forall|i: int| 0 <= i < a.len() implies #[trigger] encoder::sizes_of(a)[i]
            == encoder::sizes_of(b)[i] by {
            assert(same(a[i], b[i]));
        }
    }
    assert(encoder::weights_of(lane, a) =~= encoder::weights_of(lane, b)) by {
        assert forall|i: int| 0 <= i < a.len() implies #[trigger] encoder::weights_of(lane, a)[i]
            == encoder::weights_of(lane, b)[i] by {
            assert(same(a[i], b[i]));
        }
    }
    let (sizes, weights) = (encoder::sizes_of(a), encoder::weights_of(lane, a));
    let u = choose|u: int|
        #[trigger] selection::is_winner(sizes, weights, lambda, bias, u) && x.mode == a[u].mode
            && x.payload@ == a[u].payload@;
    let v = choose|v: int|
        #[trigger] selection::is_winner(sizes, weights, lambda, bias, v) && y.mode == b[v].mode
            && y.payload@ == b[v].payload@;
    assert(selection::allowed(sizes, u, bias) && selection::allowed(sizes, v, bias));
    assert(u == v);
    assert(same(a[u], b[u]));
}

/// Every run of `pco` at `level` makes the same bytes of the same words of type `dtype`.
pub open spec fn pco_repeats(dtype: DType, level: usize) -> bool {
    forall|words: Seq<u64>, x: Seq<u8>, y: Seq<u8>|
        #[trigger] pcodec::pco_made(dtype, words, level, x) && #[trigger] pcodec::pco_made(
            dtype,
            words,
            level,
            y,
        ) ==> x == y
}

/// Nothing is left open about how a block of type `dtype` is written: `pco` has no part
/// in its competition, or makes the same of it in every run.
pub open spec fn decided(dtype: DType, cfg: Config) -> bool {
    ||| dtype.family() is Float
    ||| !cfg.level.allows_pco()
    ||| pcodec::is_integer(dtype) && pco_repeats(dtype, cfg.spec_pco_level())
}

/// The type of the blocks of a column: decimals are written as limbs.
pub open spec fn block_dtype(dtype: DType) -> DType {
    match dtype {
        DType::Decimal128 | DType::Decimal256 => DType::U64,
        _ => dtype,
    }
}

/// Where nothing is left open, a block is won by one candidate.
pub proof fn lemma_won_once(t: Terms, cfg: Config, x: Candidate, y: Candidate)
    requires
        encoder::wins_block(t, cfg, x),
        encoder::wins_block(t, cfg, y),
    ensures
        decided(t.dtype, cfg) ==> x.mode == y.mode && x.payload@ == y.payload@,
{
    if decided(t.dtype, cfg) {
        let (lambda, bias) = (cfg.level.lambda(), cfg.spec_decode_bias());
        let a = choose|a: Seq<Candidate>|
            #[trigger] encoder::pool(t, cfg, a) && encoder::wins(t.dtype, lambda, bias, a, x);
        let b = choose|b: Seq<Candidate>|
            #[trigger] encoder::pool(t, cfg, b) && encoder::wins(t.dtype, lambda, bias, b, y);
        let pco = lemma_one_pco(t, cfg, a, b);
        lemma_block_settled(t, cfg, pco, a, b, x, y);
    }
}

/// What `pco` made of a block, where nothing is left open: the same in both pools.
proof fn lemma_one_pco(t: Terms, cfg: Config, a: Seq<Candidate>, b: Seq<Candidate>) -> (pco: Option<
    Seq<u8>,
>)
    requires
        decided(t.dtype, cfg),
        encoder::pool(t, cfg, a),
        encoder::pool(t, cfg, b),
    ensures
        encoder::pco_enters(t, pco, a),
        encoder::pco_enters(t, pco, b),
{
    if t.dtype.family() is Float || !cfg.level.allows_pco() {
        lemma_no_pco(t, cfg, a);
        lemma_no_pco(t, cfg, b);
        None
    } else if encoder::has_mode(a, Mode::Pco) {
        let i = choose|i: int| 0 <= i < a.len() && (#[trigger] a[i]).mode == Mode::Pco;
        Some(a[i].payload@)
    } else {
        None
    }
}

/// A level that does not allow `pco` has no candidate of it.
proof fn lemma_no_pco(t: Terms, cfg: Config, cands: Seq<Candidate>)
    requires
        t.dtype.family() is Float || !cfg.level.allows_pco(),
        encoder::pool(t, cfg, cands),
    ensures
        encoder::pco_enters(t, None, cands),
{
    assert(encoder::all_made(t, cfg.level, cands)) by {
        reveal(encoder::full_pool);
        reveal(encoder::sampled_pool);
    }
    if !cfg.level.allows_pco() && encoder::has_mode(cands, Mode::Pco) {
        let i = choose|i: int| 0 <= i < cands.len() && (#[trigger] cands[i]).mode == Mode::Pco;
        assert(encoder::made(t, cfg.level, cands[i]));
    }
}

/// A block plan of values: it covers them, and each block ends where it should.
#[verifier::opaque]
spec fn is_plan(r: Seq<(usize, usize)>, dtype: DType, vals: Seq<u64>, cfg: Config) -> bool {
    let lane = dtype.lane();
    &&& features::is_partition(r, vals.len(), max_block_values(lane.bytes()) as nat)
    &&& forall|i: int|
        0 <= i < r.len() ==> (#[trigger] r[i]).1 == features::block_end(
            lane,
            vals,
            r[i].0 as int,
            cfg.spec_fixed_block_size(lane.bytes()),
            cfg.level,
        )
}

/// Where a block of a plan starts and ends.
proof fn lemma_planned(
    r: Seq<(usize, usize)>,
    dtype: DType,
    vals: Seq<u64>,
    cfg: Config,
    i: int,
)
    requires
        is_plan(r, dtype, vals, cfg),
        0 <= i <= r.len(),
    ensures
        i < r.len() ==> r[i].0 < vals.len() && r[i].1 == features::block_end(
            dtype.lane(),
            vals,
            r[i].0 as int,
            cfg.spec_fixed_block_size(dtype.lane().bytes()),
            cfg.level,
        ) && r[i].0 == (if i == 0 {
            0
        } else {
            r[i - 1].1 as int
        }),
        i == r.len() ==> vals.len() == (if i == 0 {
            0
        } else {
            r[i - 1].1 as int
        }),
{
    reveal(is_plan);
    if 0 < i < r.len() {
        assert(r[i - 1].1 == r[i].0);
    }
}

/// Block plans of the same values are the same up to block `n`.
proof fn lemma_one_plan(
    a: Seq<(usize, usize)>,
    b: Seq<(usize, usize)>,
    dtype: DType,
    vals: Seq<u64>,
    cfg: Config,
    n: nat,
)
    requires
        is_plan(a, dtype, vals, cfg),
        is_plan(b, dtype, vals, cfg),
        n <= a.len(),
    ensures
        n <= b.len(),
        forall|i: int| 0 <= i < n ==> #[trigger] a[i] == b[i],
    decreases n,
{
    if n > 0 {
        let k = n - 1;
        lemma_one_plan(a, b, dtype, vals, cfg, k as nat);
        if k > 0 {
            assert(a[k - 1] == b[k - 1]);
        }
        lemma_planned(a, dtype, vals, cfg, k);
        lemma_planned(b, dtype, vals, cfg, k);
    }
}

/// Where nothing is left open, values have one stream: what is written is settled by the
/// valid values, their type, the stored bitmap, the configuration and the offers.
pub proof fn lemma_stream_settled(
    dtype: DType,
    vals: Seq<u64>,
    n_values: usize,
    bitmap: Option<&[u8]>,
    cfg: Config,
    offers: Seq<Vec<FloatOffer>>,
    out: Seq<u8>,
    other: Seq<u8>,
)
    requires
        encoder::won_stream(out, dtype, vals, n_values, bitmap, cfg, offers),
        encoder::won_stream(other, dtype, vals, n_values, bitmap, cfg, offers),
    ensures
        decided(dtype, cfg) ==> out == other,
{
    reveal(encoder::planned_and_won);
    let log2 = cfg.spec_predictor_log2();
    let (ra, xa) = choose|r: Seq<(usize, usize)>, x: Seq<Candidate>|
        #[trigger] encoder::planned_and_won(r, x, dtype, vals, cfg, offers) && out
            == encoder::stream_image(dtype, log2, n_values, bitmap, encoder::block_frames(r, x));
    let (rb, xb) = choose|r: Seq<(usize, usize)>, x: Seq<Candidate>|
        #[trigger] encoder::planned_and_won(r, x, dtype, vals, cfg, offers) && other
            == encoder::stream_image(dtype, log2, n_values, bitmap, encoder::block_frames(r, x));
    assert(is_plan(ra, dtype, vals, cfg) && is_plan(rb, dtype, vals, cfg)) by {
        reveal(is_plan);
    }
    lemma_one_plan(ra, rb, dtype, vals, cfg, ra.len());
    lemma_one_plan(rb, ra, dtype, vals, cfg, rb.len());
    assert(ra =~= rb);
    let (fa, fb) = (encoder::block_frames(ra, xa), encoder::block_frames(rb, xb));
    assert forall|i: int| 0 <= i < fa.len() && decided(dtype, cfg) implies #[trigger] fa[i] == fb[i] by {
        let t = encoder::terms_of(dtype, log2, vals, ra[i], offers, i);
        assert(encoder::block_won(t, cfg, xa[i]));
        assert(encoder::block_won(t, cfg, xb[i]));
        lemma_won_once(t, cfg, xa[i], xb[i]);
    }
    assert(decided(dtype, cfg) ==> fa =~= fb);
}

/// Two limbs are told by the number they make.
proof fn lemma_one_value2(al: u64, ah: u64, bl: u64, bh: u64)
    requires
        decimal::value2(al, ah) == decimal::value2(bl, bh),
    ensures
        al == bl,
        ah == bh,
{
}

/// A sequence of 128-bit significands has one least.
proof fn lemma_one_least128(valid: Seq<i128>, m: i128, l: i128)
    requires
        decimal::is_least128(valid, m),
        decimal::is_least128(valid, l),
    ensures
        m == l,
{
    if valid.len() > 0 {
        let i = choose|i: int| 0 <= i < valid.len() && valid[i] == m;
        let j = choose|j: int| 0 <= j < valid.len() && valid[j] == l;
        assert(l <= valid[i] && m <= valid[j]);
    }
}

/// Offsets from one least are one sequence of limbs.
proof fn lemma_one_offsets128(c: ContainerView, d: ContainerView, valid: Seq<i128>, m: i128)
    requires
        decimal::offsets128(c, valid, m),
        decimal::offsets128(d, valid, m),
        c.limbs.len() == 2,
        d.limbs.len() == 2,
        c.limbs[0].len() == valid.len() && c.limbs[1].len() == valid.len(),
        d.limbs[0].len() == valid.len() && d.limbs[1].len() == valid.len(),
    ensures
        c.limbs == d.limbs,
{
    assert forall|i: int| 0 <= i < valid.len() implies c.limbs[0][i] == d.limbs[0][i]
        && c.limbs[1][i] == d.limbs[1][i] by {
        lemma_one_value2(c.limbs[0][i], c.limbs[1][i], d.limbs[0][i], d.limbs[1][i]);
    }
    assert(c.limbs[0] =~= d.limbs[0]);
    assert(c.limbs[1] =~= d.limbs[1]);
    assert(c.limbs =~= d.limbs);
}

/// A column of 128-bit decimals has one container.
proof fn lemma_one_container128(
    c: ContainerView,
    d: ContainerView,
    values: Seq<i128>,
    scale: i8,
    precision: u8,
    bits: Option<Seq<bool>>,
)
    requires
        decimal::holds128(c, values, scale, precision, bits),
        decimal::holds128(d, values, scale, precision, bits),
    ensures
        c == d,
{
    let valid = decimal::valid_of(values, bits);
    let m = choose|m: i128| #[trigger]
        decimal::is_least128(valid, m) && decimal::offsets128(c, valid, m);
    let l = choose|l: i128| #[trigger]
        decimal::is_least128(valid, l) && decimal::offsets128(d, valid, l);
    lemma_one_least128(valid, m, l);
    lemma_one_offsets128(c, d, valid, m);
    assert(c.min == d.min) by {
        bytes::lemma_le_value_roundtrip(c.min);
        bytes::lemma_le_value_roundtrip(d.min);
    }
}

/// A column of 256-bit decimals has one container.
proof fn lemma_one_container256(
    c: ContainerView,
    d: ContainerView,
    values: Seq<Seq<u8>>,
    scale: i8,
    precision: u8,
    bits: Option<Seq<bool>>,
)
    requires
        decimal::holds256(c, values, scale, precision, bits),
        decimal::holds256(d, values, scale, precision, bits),
    ensures
        c == d,
{
    let valid = decimal::valid_of(values, bits);
    assert(c.min == d.min) by {
        if valid.len() > 0 {
            let i = choose|i: int| 0 <= i < valid.len() && valid[i] == c.min;
            let j = choose|j: int| 0 <= j < valid.len() && valid[j] == d.min;
            assert(decimal::number256(d.min) <= decimal::number256(valid[i]));
            assert(decimal::number256(c.min) <= decimal::number256(valid[j]));
            decimal::lemma_image256(c.min);
            decimal::lemma_image256(d.min);
        }
    }
    assert forall|i: int| 0 <= i < valid.len() implies c.limbs[0][i] == d.limbs[0][i]
        && c.limbs[1][i] == d.limbs[1][i] && c.limbs[2][i] == d.limbs[2][i] && c.limbs[3][i]
        == d.limbs[3][i] by {
        let (x, y) = (decimal::limbs_at(c.limbs, i), decimal::limbs_at(d.limbs, i));
        assert(decimal::value4(x) == decimal::value4(y));
        assert(x[0] == y[0] && x[1] == y[1] && x[2] == y[2] && x[3] == y[3]);
    }
    assert(c.limbs[0].len() == valid.len() && d.limbs[0].len() == valid.len());
    assert(c.limbs[1].len() == valid.len() && d.limbs[1].len() == valid.len());
    assert(c.limbs[2].len() == valid.len() && d.limbs[2].len() == valid.len());
    assert(c.limbs[3].len() == valid.len() && d.limbs[3].len() == valid.len());
    assert(c.limbs[0] =~= d.limbs[0] && c.limbs[1] =~= d.limbs[1]);
    assert(c.limbs[2] =~= d.limbs[2] && c.limbs[3] =~= d.limbs[3]);
    assert(c.limbs =~= d.limbs);
}

/// Where nothing is left open, a container is written in one way.
proof fn lemma_container_settled(
    dtype: DType,
    c: ContainerView,
    bitmap: Option<&[u8]>,
    cfg: Config,
    out: Seq<u8>,
    other: Seq<u8>,
)
    requires
        decimal::container_written(out, dtype, c, bitmap, cfg),
        decimal::container_written(other, dtype, c, bitmap, cfg),
    ensures
        decided(DType::U64, cfg) ==> out == other,
{
    reveal(decimal::container_written);
    let front = decimal::container_front(
        dtype,
        c.n_values,
        bitmap is Some,
        c.scale,
        c.precision,
        c.limbs.len(),
        c.min,
    ) + encoder::validity_image(bitmap, c.n_values);
    let x = choose|x: Seq<Seq<u8>>| #[trigger]
        decimal::limb_streams(x, c.limbs, cfg) && out == front + decimal::sections(x);
    let y = choose|y: Seq<Seq<u8>>| #[trigger]
        decimal::limb_streams(y, c.limbs, cfg) && other == front + decimal::sections(y);
    assert forall|i: int| 0 <= i < x.len() && decided(DType::U64, cfg) implies #[trigger] x[i]
        == y[i] by {
        lemma_stream_settled(
            DType::U64,
            c.limbs[i],
            c.limbs[i].len() as usize,
            None,
            cfg,
            Seq::empty(),
            x[i],
            y[i],
        );
    }
    assert(decided(DType::U64, cfg) ==> x =~= y);
}

/// Where nothing is left open, a column is written in one way.
pub proof fn lemma_column_settled(
    col: ColumnView,
    bitmap: Option<&[u8]>,
    cfg: Config,
    offers: Seq<Vec<FloatOffer>>,
    out: Seq<u8>,
    other: Seq<u8>,
)
    requires
        column::column_written(out, col, bitmap, cfg, offers),
        column::column_written(other, col, bitmap, cfg, offers),
    ensures
        decided(block_dtype(col.dtype()), cfg) ==> out == other,
{
    let bits = encoder::bits_of(bitmap, col.len());
    if col.is_decimal() {
        reveal(column::contained);
        let c = decimal::container_parse(out, col.dtype(), Seq::empty())->Ok_0;
        let d = decimal::container_parse(other, col.dtype(), Seq::empty())->Ok_0;
        match col {
            ColumnView::Decimal128 { values, scale, precision } => {
                lemma_one_container128(c, d, values, scale, precision, bits);
            },
            ColumnView::Decimal256 { values, scale, precision } => {
                lemma_one_container256(c, d, values, scale, precision, bits);
            },
            _ => {},
        }
        lemma_container_settled(col.dtype(), c, bitmap, cfg, out, other);
    } else {
        lemma_stream_settled(
            col.dtype(),
            decimal::valid_of(col.words(), bits),
            col.len() as usize,
            bitmap,
            cfg,
            offers,
            out,
            other,
        );
    }
}

/// What lies in null slots changes no byte: two columns that hold the same wherever they
/// are valid have the same stream, where nothing is left open.
pub proof fn lemma_null_slots_change_nothing(
    a: ColumnView,
    b: ColumnView,
    bitmap: &[u8],
    cfg: Config,
    offers: Seq<Vec<FloatOffer>>,
    out: Seq<u8>,
    other: Seq<u8>,
)
    requires
        encoder::bitmap_covers(Some(bitmap), a.len()),
        column::agree(a, b, validity::bitmap_bits(bitmap@, a.len())),
        column::column_written(
            out,
            a,
            decimal::stored_bitmap(Some(bitmap), a.len()),
            cfg,
            offers,
        ),
        column::column_written(
            other,
            b,
            decimal::stored_bitmap(Some(bitmap), b.len()),
            cfg,
            offers,
        ),
    ensures
        decided(block_dtype(a.dtype()), cfg) ==> out == other,
{
    column::lemma_null_slots_unseen(other, a, b, bitmap, cfg, offers);
    lemma_column_settled(
        a,
        decimal::stored_bitmap(Some(bitmap), a.len()),
        cfg,
        offers,
        out,
        other,
    );
}

/// A bitmap that marks no value null changes no byte: the stream is that of the column
/// without a bitmap, where nothing is left open.
pub proof fn lemma_all_valid_changes_nothing(
    col: ColumnView,
    bitmap: &[u8],
    cfg: Config,
    offers: Seq<Vec<FloatOffer>>,
    out: Seq<u8>,
    other: Seq<u8>,
)
    requires
        encoder::bitmap_covers(Some(bitmap), col.len()),
        forall|i: int|
            0 <= i < col.len() ==> #[trigger] validity::bitmap_bits(bitmap@, col.len())[i],
        column::column_written(
            out,
            col,
            decimal::stored_bitmap(Some(bitmap), col.len()),
            cfg,
            offers,
        ),
        column::column_written(other, col, None, cfg, offers),
    ensures
        decided(block_dtype(col.dtype()), cfg) ==> out == other,
{
    column::lemma_all_valid_is_no_bitmap(out, col, bitmap, cfg, offers);
    lemma_column_settled(col, None, cfg, offers, out, other);
}

} // verus!
